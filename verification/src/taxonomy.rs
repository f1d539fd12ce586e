//! The closed category taxonomy and the severity tiers.

use vstd::prelude::*;

use crate::text::{eq_ignore_case, eq_ignoring_case};

verus! {

/// One of the fixed taxonomy tags under which items are grouped, plus the
/// `Unknown` fallback for items whose header keyword is not recognized.
#[derive(Copy, Clone, Debug, PartialEq, Eq, Structural)]
pub enum TCPType {
    Abstract,
    Body,
    Creature,
    Food,
    Machine,
    Nature,
    Form,
    Storage,
    Weapon,
    Unknown,
}

/// Severity label attached to modifiers and anomalies.
#[derive(Copy, Clone, Debug, PartialEq, Eq, Structural)]
pub enum Tier {
    Minor,
    Intermediate,
    Major,
}

impl TCPType {
    /// Position of the category in the fixed canonical ordering.
    pub open spec fn index_spec(self) -> int {
        match self {
            TCPType::Abstract => 0,
            TCPType::Body => 1,
            TCPType::Creature => 2,
            TCPType::Food => 3,
            TCPType::Machine => 4,
            TCPType::Nature => 5,
            TCPType::Form => 6,
            TCPType::Storage => 7,
            TCPType::Weapon => 8,
            TCPType::Unknown => 9,
        }
    }

    /// Canonical index of the category; distinct categories have distinct indices.
    pub fn index(&self) -> (i: usize)
        ensures
            i == self.index_spec(),
    {
        match self {
            TCPType::Abstract => 0,
            TCPType::Body => 1,
            TCPType::Creature => 2,
            TCPType::Food => 3,
            TCPType::Machine => 4,
            TCPType::Nature => 5,
            TCPType::Form => 6,
            TCPType::Storage => 7,
            TCPType::Weapon => 8,
            TCPType::Unknown => 9,
        }
    }

    pub open spec fn from_index_spec(n: u32) -> TCPType {
        if n == 0 {
            TCPType::Abstract
        } else if n == 1 {
            TCPType::Body
        } else if n == 2 {
            TCPType::Creature
        } else if n == 3 {
            TCPType::Food
        } else if n == 4 {
            TCPType::Machine
        } else if n == 5 {
            TCPType::Nature
        } else if n == 6 {
            TCPType::Form
        } else if n == 7 {
            TCPType::Storage
        } else if n == 8 {
            TCPType::Weapon
        } else {
            TCPType::Unknown
        }
    }

    /// Category at a canonical index, `Unknown` for anything out of range.
    pub fn from_index(n: u32) -> (t: TCPType)
        ensures
            t == TCPType::from_index_spec(n),
            t.index_spec() == if n <= 9 { n as int } else { 9int },
    {
        match n {
            0 => TCPType::Abstract,
            1 => TCPType::Body,
            2 => TCPType::Creature,
            3 => TCPType::Food,
            4 => TCPType::Machine,
            5 => TCPType::Nature,
            6 => TCPType::Form,
            7 => TCPType::Storage,
            8 => TCPType::Weapon,
            _ => TCPType::Unknown,
        }
    }

    /// Category named by a header keyword, compared ignoring ASCII case;
    /// an unrecognized keyword maps to `Unknown`.
    pub open spec fn from_keyword_spec(s: Seq<char>) -> TCPType {
        if eq_ignoring_case(s, "abstract"@) {
            TCPType::Abstract
        } else if eq_ignoring_case(s, "body"@) {
            TCPType::Body
        } else if eq_ignoring_case(s, "creature"@) {
            TCPType::Creature
        } else if eq_ignoring_case(s, "food"@) {
            TCPType::Food
        } else if eq_ignoring_case(s, "machine"@) {
            TCPType::Machine
        } else if eq_ignoring_case(s, "nature"@) {
            TCPType::Nature
        } else if eq_ignoring_case(s, "form"@) {
            TCPType::Form
        } else if eq_ignoring_case(s, "storage"@) {
            TCPType::Storage
        } else if eq_ignoring_case(s, "weapon"@) {
            TCPType::Weapon
        } else {
            TCPType::Unknown
        }
    }

    /// Looks a header keyword up against the known category names.
    pub fn from_keyword(s: &str) -> (t: TCPType)
        ensures
            t == TCPType::from_keyword_spec(s@),
    {
        if eq_ignore_case(s, "abstract") {
            TCPType::Abstract
        } else if eq_ignore_case(s, "body") {
            TCPType::Body
        } else if eq_ignore_case(s, "creature") {
            TCPType::Creature
        } else if eq_ignore_case(s, "food") {
            TCPType::Food
        } else if eq_ignore_case(s, "machine") {
            TCPType::Machine
        } else if eq_ignore_case(s, "nature") {
            TCPType::Nature
        } else if eq_ignore_case(s, "form") {
            TCPType::Form
        } else if eq_ignore_case(s, "storage") {
            TCPType::Storage
        } else if eq_ignore_case(s, "weapon") {
            TCPType::Weapon
        } else {
            TCPType::Unknown
        }
    }

    /// A category is recovered from its own canonical index.
    pub proof fn lemma_index_roundtrip(c: TCPType)
        ensures
            TCPType::from_index_spec(c.index_spec() as u32) == c,
            0 <= c.index_spec() <= 9,
    {
    }

    /// Stable display name of the category.
    pub open spec fn name_spec(self) -> Seq<char> {
        match self {
            TCPType::Abstract => "Abstract"@,
            TCPType::Body => "Body"@,
            TCPType::Creature => "Creature"@,
            TCPType::Food => "Food"@,
            TCPType::Machine => "Machine"@,
            TCPType::Nature => "Nature"@,
            TCPType::Form => "Form"@,
            TCPType::Storage => "Storage"@,
            TCPType::Weapon => "Weapon"@,
            TCPType::Unknown => "Unknown"@,
        }
    }

    /// Display name used by the text rendering of a descriptor.
    pub fn name(&self) -> (r: &'static str)
        ensures
            r@ == self.name_spec(),
    {
        match self {
            TCPType::Abstract => "Abstract",
            TCPType::Body => "Body",
            TCPType::Creature => "Creature",
            TCPType::Food => "Food",
            TCPType::Machine => "Machine",
            TCPType::Nature => "Nature",
            TCPType::Form => "Form",
            TCPType::Storage => "Storage",
            TCPType::Weapon => "Weapon",
            TCPType::Unknown => "Unknown",
        }
    }

    /// Decorative glyph of the category, used only for rendering.
    pub open spec fn glyph_spec(self) -> Seq<char> {
        match self {
            TCPType::Abstract => "🎭"@,
            TCPType::Body => "👁️"@,
            TCPType::Creature => "🐈"@,
            TCPType::Food => "🌶"@,
            TCPType::Machine => "⚙️"@,
            TCPType::Nature => "☁️"@,
            TCPType::Form => "⚪"@,
            TCPType::Storage => "📦"@,
            TCPType::Weapon => "🗡️"@,
            TCPType::Unknown => "❓"@,
        }
    }

    /// Decorative glyph prefixed to each type pair in the text rendering.
    pub fn get_emoji(&self) -> (r: &'static str)
        ensures
            r@ == self.glyph_spec(),
    {
        match self {
            TCPType::Abstract => "🎭",
            TCPType::Body => "👁️",
            TCPType::Creature => "🐈",
            TCPType::Food => "🌶",
            TCPType::Machine => "⚙️",
            TCPType::Nature => "☁️",
            TCPType::Form => "⚪",
            TCPType::Storage => "📦",
            TCPType::Weapon => "🗡️",
            TCPType::Unknown => "❓",
        }
    }
}

impl Tier {
    /// Lower-case display name of the tier.
    pub open spec fn name_spec(self) -> Seq<char> {
        match self {
            Tier::Minor => "minor"@,
            Tier::Intermediate => "intermediate"@,
            Tier::Major => "major"@,
        }
    }

    /// Display name used by the text rendering of a descriptor.
    pub fn name(&self) -> (r: &'static str)
        ensures
            r@ == self.name_spec(),
    {
        match self {
            Tier::Minor => "minor",
            Tier::Intermediate => "intermediate",
            Tier::Major => "major",
        }
    }
}

} // verus!
