//! The canonical asset filename of a descriptor: a pure function of the
//! category, anomaly, condition and modifier names, reproduced bit-exactly
//! for compatibility with the asset store.

use vstd::prelude::*;

use crate::text::{
    join_strings, join_with, lemma_str_le_antisymmetric, lemma_str_le_total, seq_views, str_le,
    str_lt, Rel, str_compare,
};

verus! {

/// What `str::to_lowercase` returns: a function of the characters alone.
pub uninterp spec fn lower_of(s: Seq<char>) -> Seq<char>;

/// Relies on str::to_lowercase: the lower-case equivalent of the string,
/// a function of the characters alone.
#[verifier::external_body]
fn lowercase(s: &str) -> (r: String)
    ensures
        r@ == lower_of(s@),
{
    s.to_lowercase()
}

/// `x` inserted before the first element that is not below it.
pub open spec fn insort(x: Seq<char>, s: Seq<Seq<char>>) -> Seq<Seq<char>>
    decreases s.len(),
{
    if s.len() == 0 {
        seq![x]
    } else if str_le(x, s[0]) {
        seq![x] + s
    } else {
        seq![s[0]] + insort(x, s.drop_first())
    }
}

/// Insertion sort, stable under the lexicographic order.
pub open spec fn sort_seqs(s: Seq<Seq<char>>) -> Seq<Seq<char>>
    decreases s.len(),
{
    if s.len() == 0 {
        s
    } else {
        insort(s[0], sort_seqs(s.drop_first()))
    }
}

/// Each string lower-cased.
pub open spec fn lower_all(s: Seq<Seq<char>>) -> Seq<Seq<char>> {
    s.map_values(|x: Seq<char>| lower_of(x))
}

/// The canonical asset filename: the lower-cased, sorted category names
/// joined with `.`; then, for each non-empty list among anomalies,
/// conditions and modifiers in that order, a `-a_`/`-c_`/`-m_` part holding
/// that list lower-cased, sorted and joined with `.`; then the image
/// extension.
pub open spec fn filename_spec(
    types: Seq<Seq<char>>,
    anomalies: Seq<Seq<char>>,
    conditions: Seq<Seq<char>>,
    modifiers: Seq<Seq<char>>,
) -> Seq<char> {
    let base = join_with(sort_seqs(lower_all(types)), "."@);
    let a = if anomalies.len() > 0 {
        "-a_"@ + join_with(sort_seqs(lower_all(anomalies)), "."@)
    } else {
        Seq::<char>::empty()
    };
    let c = if conditions.len() > 0 {
        "-c_"@ + join_with(sort_seqs(lower_all(conditions)), "."@)
    } else {
        Seq::<char>::empty()
    };
    let m = if modifiers.len() > 0 {
        "-m_"@ + join_with(sort_seqs(lower_all(modifiers)), "."@)
    } else {
        Seq::<char>::empty()
    };
    base + a + c + m + ".png"@
}

proof fn lemma_insort_at(x: Seq<char>, s: Seq<Seq<char>>, j: int)
    requires
        0 <= j <= s.len(),
        forall|k: int| 0 <= k < j ==> !str_le(x, #[trigger] s[k]),
        j == s.len() || str_le(x, s[j]),
    ensures
        insort(x, s) == s.take(j) + seq![x] + s.skip(j),
    decreases j,
{
    if j == 0 {
        if s.len() == 0 {
            assert(insort(x, s) == seq![x]);
            assert(s.take(0) + seq![x] + s.skip(0) =~= seq![x]);
        } else {
            assert(str_le(x, s[0]));
            assert(s.take(0) + seq![x] + s.skip(0) =~= seq![x] + s);
        }
    } else {
        assert(!str_le(x, s[0]));
        assert(s.len() > 0);
        let d = s.drop_first();
        assert forall|k: int| 0 <= k < j - 1 implies !str_le(x, #[trigger] d[k]) by {
            assert(d[k] == s[k + 1]);
        }
        if j < s.len() {
            assert(d[j - 1] == s[j]);
        }
        lemma_insort_at(x, d, j - 1);
        assert(insort(x, s) == seq![s[0]] + (d.take(j - 1) + seq![x] + d.skip(j - 1)));
        assert(seq![s[0]] + (d.take(j - 1) + seq![x] + d.skip(j - 1)) =~= s.take(j) + seq![x]
            + s.skip(j));
    }
}

/// Inserts `x` where [`insort`] says, duplicates kept.
fn insert_sorted_dup(v: &mut Vec<String>, x: String)
    ensures
        seq_views(final(v)@) == insort(x@, seq_views(old(v)@)),
{
    let mut j: usize = 0;
    while j < v.len() && str_compare(v[j].as_str(), x.as_str()) == Rel::Less
        invariant
            0 <= j <= v@.len(),
            forall|k: int| 0 <= k < j ==> str_lt((#[trigger] v@[k])@, x@),
            *v == *old(v),
        decreases v@.len() - j,
    {
        j = j + 1;
    }
    let ghost oldv = v@;
    let ghost ov = seq_views(oldv);
    proof {
        assert forall|k: int| 0 <= k < j implies !str_le(x@, #[trigger] ov[k]) by {
            assert(str_lt(oldv[k]@, x@));
            if str_le(x@, oldv[k]@) {
                lemma_str_le_antisymmetric(x@, oldv[k]@);
            }
        }
        if j < oldv.len() {
            // the scan stopped: the element here is not below x
            assert(!str_lt(oldv[j as int]@, x@));
            lemma_str_le_total(x@, oldv[j as int]@);
            if !str_le(x@, oldv[j as int]@) {
                assert(str_le(oldv[j as int]@, x@));
                assert(oldv[j as int]@ != x@);
            }
            assert(str_le(x@, ov[j as int]));
        }
        lemma_insort_at(x@, ov, j as int);
    }
    v.insert(j, x);
    proof {
        assert(seq_views(v@) =~= ov.take(j as int) + seq![x@] + ov.skip(j as int));
    }
}

/// Lower-cases every string of `list` and sorts the results.
fn lowered_sorted(list: &Vec<String>) -> (r: Vec<String>)
    ensures
        seq_views(r@) == sort_seqs(lower_all(seq_views(list@))),
{
    let ghost lv = lower_all(seq_views(list@));
    let mut low: Vec<String> = Vec::new();
    let mut i: usize = 0;
    while i < list.len()
        invariant
            i <= list@.len(),
            low@.len() == i,
            lv == lower_all(seq_views(list@)),
            forall|j: int| 0 <= j < i ==> (#[trigger] low@[j])@ == lv[j],
        decreases list@.len() - i,
    {
        low.push(lowercase(list[i].as_str()));
        i = i + 1;
    }
    let mut r: Vec<String> = Vec::new();
    let mut k: usize = low.len();
    proof {
        assert(lv.skip(lv.len() as int) =~= Seq::<Seq<char>>::empty());
        assert(seq_views(r@) =~= sort_seqs(lv.skip(lv.len() as int)));
    }
    while k > 0
        invariant
            0 <= k <= low@.len(),
            low@.len() == lv.len(),
            forall|j: int| 0 <= j < low@.len() ==> (#[trigger] low@[j])@ == lv[j],
            seq_views(r@) == sort_seqs(lv.skip(k as int)),
        decreases k,
    {
        k = k - 1;
        insert_sorted_dup(&mut r, crate::text::clone_string(&low[k]));
        proof {
            assert(lv.skip(k as int)[0] == lv[k as int]);
            assert(lv.skip(k as int).drop_first() =~= lv.skip(k + 1));
            assert(sort_seqs(lv.skip(k as int)) == insort(lv[k as int], sort_seqs(lv.skip(k + 1))));
        }
    }
    proof {
        assert(lv.skip(0) =~= lv);
    }
    r
}

/// Derives the canonical asset filename from the four name lists, exactly as
/// [`filename_spec`] says.
pub fn asset_filename(
    types: &Vec<String>,
    anomalies: &Vec<String>,
    conditions: &Vec<String>,
    modifiers: &Vec<String>,
) -> (r: String)
    ensures
        r@ == filename_spec(
            seq_views(types@),
            seq_views(anomalies@),
            seq_views(conditions@),
            seq_views(modifiers@),
        ),
{
    let mut out = String::new();
    let ts = lowered_sorted(types);
    let tj = join_strings(&ts, ".");
    out.append(tj.as_str());
    if anomalies.len() > 0 {
        out.append("-a_");
        let s = lowered_sorted(anomalies);
        let sj = join_strings(&s, ".");
        out.append(sj.as_str());
    }
    if conditions.len() > 0 {
        out.append("-c_");
        let s = lowered_sorted(conditions);
        let sj = join_strings(&s, ".");
        out.append(sj.as_str());
    }
    if modifiers.len() > 0 {
        out.append("-m_");
        let s = lowered_sorted(modifiers);
        let sj = join_strings(&s, ".");
        out.append(sj.as_str());
    }
    out.append(".png");
    proof {
        assert(out@ =~= filename_spec(
            seq_views(types@),
            seq_views(anomalies@),
            seq_views(conditions@),
            seq_views(modifiers@),
        ));
    }
    out
}

} // verus!
