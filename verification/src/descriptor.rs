//! The descriptor: one generated (or externally built) composite result.

use vstd::prelude::*;

use crate::catalog::TCPList;
use crate::taxonomy::{TCPType, Tier};
use crate::text::{contains_str, distinct_strs, join_strings, join_with, seq_views};

verus! {

/// One generated descriptor: type pairs, optional attributes, and the
/// designer flag. Immutable once built.
pub struct TCP {
    /// (category, item) pairs; no pair occurs twice.
    pub types: Vec<(TCPType, String)>,
    /// Condition names; never tiered.
    pub conditions: Vec<String>,
    /// Modifier names, each with its severity tier.
    pub modifiers: Vec<(String, Tier)>,
    /// Anomaly names, each with its severity tier.
    pub anomalies: Vec<(String, Tier)>,
    /// Decorative flag, drawn independently of everything else.
    pub designer: bool,
}

impl TCP {
    /// No two type pairs name the same (category, item).
    pub open spec fn distinct_pairs(self) -> bool {
        forall|i: int, j: int|
            0 <= i < j < self.types@.len() ==> !((#[trigger] self.types@[i]).0 == (
            #[trigger] self.types@[j]).0 && self.types@[i].1@ == self.types@[j].1@)
    }

    /// Every part of the descriptor names something the catalog holds: each
    /// type pair is an item of its category, each attribute comes from its
    /// flat list, and no name is picked twice.
    pub open spec fn valid_for(self, catalog: TCPList) -> bool {
        &&& self.distinct_pairs()
        &&& forall|i: int|
            0 <= i < self.types@.len() ==> catalog.has_pair(
                (#[trigger] self.types@[i]).0,
                self.types@[i].1@,
            )
        &&& distinct_strs(self.conditions@)
        &&& forall|i: int|
            0 <= i < self.conditions@.len() ==> contains_str(
                catalog.conditions@,
                (#[trigger] self.conditions@[i])@,
            )
        &&& forall|i: int, j: int|
            0 <= i < j < self.modifiers@.len() ==> (#[trigger] self.modifiers@[i]).0@ != (
            #[trigger] self.modifiers@[j]).0@
        &&& forall|i: int|
            0 <= i < self.modifiers@.len() ==> contains_str(
                catalog.modifiers@,
                (#[trigger] self.modifiers@[i]).0@,
            )
        &&& forall|i: int, j: int|
            0 <= i < j < self.anomalies@.len() ==> (#[trigger] self.anomalies@[i]).0@ != (
            #[trigger] self.anomalies@[j]).0@
        &&& forall|i: int|
            0 <= i < self.anomalies@.len() ==> contains_str(
                catalog.anomalies@,
                (#[trigger] self.anomalies@[i]).0@,
            )
    }

}

impl Default for TCP {
    /// The empty descriptor: no type pairs, no attributes, flag unset.
    fn default() -> (t: TCP)
        ensures
            t.types@.len() == 0,
            t.conditions@.len() == 0,
            t.modifiers@.len() == 0,
            t.anomalies@.len() == 0,
            t.designer == false,
    {
        TCP {
            types: Vec::new(),
            conditions: Vec::new(),
            modifiers: Vec::new(),
            anomalies: Vec::new(),
            designer: false,
        }
    }
}


impl TCP {
    /// The rendered form of one type pair: the category glyph, then the item.
    pub open spec fn pair_text(p: (TCPType, String)) -> Seq<char> {
        p.0.glyph_spec() + p.1@
    }

    /// The rendered form of one tiered attribute: `name (tier)`.
    pub open spec fn tiered_text(p: (String, Tier)) -> Seq<char> {
        p.0@ + " ("@ + p.1.name_spec() + ")"@
    }

    /// The text rendering: an optional `designer ` prefix; the type pairs as
    /// glyph-plus-item joined by `/`; then each non-empty attribute list in
    /// the fixed order conditions, anomalies, modifiers.
    pub open spec fn render_spec(self) -> Seq<char> {
        let prefix = if self.designer {
            "designer "@
        } else {
            Seq::<char>::empty()
        };
        let types_part = join_with(self.types@.map_values(|p: (TCPType, String)| TCP::pair_text(p)), "/"@);
        let conds = if self.conditions@.len() > 0 {
            ", conditions: "@ + join_with(seq_views(self.conditions@), ", "@)
        } else {
            Seq::<char>::empty()
        };
        let anoms = if self.anomalies@.len() > 0 {
            ", anomalies: "@ + join_with(
                self.anomalies@.map_values(|p: (String, Tier)| TCP::tiered_text(p)),
                ", "@,
            )
        } else {
            Seq::<char>::empty()
        };
        let mods = if self.modifiers@.len() > 0 {
            ", modifiers: "@ + join_with(
                self.modifiers@.map_values(|p: (String, Tier)| TCP::tiered_text(p)),
                ", "@,
            )
        } else {
            Seq::<char>::empty()
        };
        prefix + types_part + conds + anoms + mods
    }

    /// Renders the descriptor as text, exactly as [`TCP::render_spec`] says.
    pub fn to_text(&self) -> (r: String)
        ensures
            r@ == self.render_spec(),
    {
        let mut out = String::new();
        if self.designer {
            out.append("designer ");
        }
        let mut pieces: Vec<String> = Vec::new();
        let mut i: usize = 0;
        while i < self.types.len()
            invariant
                i <= self.types@.len(),
                pieces@.len() == i,
                forall|j: int| 0 <= j < i ==> (#[trigger] pieces@[j])@ == TCP::pair_text(self.types@[j]),
            decreases self.types@.len() - i,
        {
            let mut piece = String::new();
            piece.append(self.types[i].0.get_emoji());
            piece.append(self.types[i].1.as_str());
            pieces.push(piece);
            i = i + 1;
        }
        let joined = join_strings(&pieces, "/");
        proof {
            assert(seq_views(pieces@) =~= self.types@.map_values(
                |p: (TCPType, String)| TCP::pair_text(p),
            ));
        }
        out.append(joined.as_str());
        if self.conditions.len() > 0 {
            out.append(", conditions: ");
            let cj = join_strings(&self.conditions, ", ");
            out.append(cj.as_str());
        }
        if self.anomalies.len() > 0 {
            out.append(", anomalies: ");
            let parts = tiered_pieces(&self.anomalies);
            let aj = join_strings(&parts, ", ");
            proof {
                assert(seq_views(parts@) =~= self.anomalies@.map_values(
                    |p: (String, Tier)| TCP::tiered_text(p),
                ));
            }
            out.append(aj.as_str());
        }
        if self.modifiers.len() > 0 {
            out.append(", modifiers: ");
            let parts = tiered_pieces(&self.modifiers);
            let mj = join_strings(&parts, ", ");
            proof {
                assert(seq_views(parts@) =~= self.modifiers@.map_values(
                    |p: (String, Tier)| TCP::tiered_text(p),
                ));
            }
            out.append(mj.as_str());
        }
        proof {
            assert(out@ =~= self.render_spec());
        }
        out
    }
}

/// Renders each tiered attribute as `name (tier)`.
fn tiered_pieces(list: &Vec<(String, Tier)>) -> (r: Vec<String>)
    ensures
        r@.len() == list@.len(),
        forall|j: int| 0 <= j < r@.len() ==> (#[trigger] r@[j])@ == TCP::tiered_text(list@[j]),
{
    let mut r: Vec<String> = Vec::new();
    let mut i: usize = 0;
    while i < list.len()
        invariant
            i <= list@.len(),
            r@.len() == i,
            forall|j: int| 0 <= j < i ==> (#[trigger] r@[j])@ == TCP::tiered_text(list@[j]),
        decreases list@.len() - i,
    {
        let mut piece = String::new();
        piece.append(list[i].0.as_str());
        piece.append(" (");
        piece.append(list[i].1.name());
        piece.append(")");
        r.push(piece);
        proof {
            assert(r@[i as int]@ =~= TCP::tiered_text(list@[i as int]));
        }
        i = i + 1;
    }
    r
}

} // verus!
