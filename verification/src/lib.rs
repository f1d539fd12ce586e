//! Procedural generator of randomized composite descriptors ("TCPs").
//!
//! A catalog of named items, grouped under a fixed taxonomy of categories and
//! accompanied by three flat attribute lists, is built once from text sources;
//! descriptors are then sampled from it with precise probability semantics.

pub mod taxonomy;
pub mod text;
pub mod catalog;
pub mod descriptor;
pub mod filename;
pub mod generate;

pub use taxonomy::TCPType;
pub use taxonomy::Tier;
pub use catalog::TCPList;
pub use descriptor::TCP;
pub use generate::Randomness;
pub use generate::ThreadRandomness;
