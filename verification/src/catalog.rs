//! The catalog: categorized item lists plus three flat attribute lists,
//! built once from line-oriented text sources and immutable afterwards.

use vstd::prelude::*;

use crate::taxonomy::TCPType;
use crate::text::{
    contains_str, distinct_strs, insert_unique_sorted, lemma_contains_push, lemma_sorted_distinct,
    lemma_sorted_same_members, seq_views, sorted_strings, trim_str, trimmed,
    vec_contains_str,
};

verus! {

/// Catalog of every loaded word list: items grouped by category in canonical
/// category order, and the three flat attribute lists, each sorted and
/// duplicate-free.
pub struct TCPList {
    /// Present categories in canonical order, each with its sorted item list.
    pub types: Vec<(TCPType, Vec<String>)>,
    pub conditions: Vec<String>,
    pub modifiers: Vec<String>,
    pub anomalies: Vec<String>,
}

/// State of the scan over the type files: the items attributed to each
/// category, the categories named by a header line, and every item name
/// attributed so far (across all categories).
pub struct LoadModel {
    pub items: Map<TCPType, Set<Seq<char>>>,
    pub headers: Set<TCPType>,
    pub seen: Set<Seq<char>>,
}

/// The scan state before any line has been read.
pub open spec fn init_model() -> LoadModel {
    LoadModel {
        items: Map::new(|c: TCPType| true, |c: TCPType| Set::empty()),
        headers: Set::empty(),
        seen: Set::empty(),
    }
}

/// One line of a type file: blank lines are skipped, a `#` header switches the
/// current category, any other line is an item attributed to the current
/// category unless its name was already seen anywhere.
pub open spec fn step_line(m: LoadModel, cur: TCPType, line: Seq<char>) -> (LoadModel, TCPType) {
    let t = trimmed(line);
    if t.len() == 0 {
        (m, cur)
    } else if t[0] == '#' {
        let c = TCPType::from_keyword_spec(t.subrange(1, t.len() as int));
        (LoadModel { items: m.items, headers: m.headers.insert(c), seen: m.seen }, c)
    } else if m.seen.contains(t) {
        (m, cur)
    } else {
        (
            LoadModel {
                items: m.items.insert(cur, m.items[cur].insert(t)),
                headers: m.headers,
                seen: m.seen.insert(t),
            },
            cur,
        )
    }
}

/// Folds [`step_line`] over the lines of one file.
pub open spec fn scan_lines(m: LoadModel, cur: TCPType, lines: Seq<Seq<char>>) -> (
    LoadModel,
    TCPType,
)
    decreases lines.len(),
{
    if lines.len() == 0 {
        (m, cur)
    } else {
        let s = step_line(m, cur, lines[0]);
        scan_lines(s.0, s.1, lines.drop_first())
    }
}

/// Folds the files in order; the current category resets to `Unknown` at the
/// start of each file.
pub open spec fn scan_files(m: LoadModel, files: Seq<Seq<Seq<char>>>) -> LoadModel
    decreases files.len(),
{
    if files.len() == 0 {
        m
    } else {
        scan_files(scan_lines(m, TCPType::Unknown, files[0]).0, files.drop_first())
    }
}

/// The scan state after all type files.
pub open spec fn type_model(files: Seq<Seq<Seq<char>>>) -> LoadModel {
    scan_files(init_model(), files)
}

/// Whether category `c` appears in a catalog built from scan state `m`:
/// `Unknown` only when an item was attributed to it, any other category
/// exactly when some header named it.
pub open spec fn present(m: LoadModel, c: TCPType) -> bool {
    if c == TCPType::Unknown {
        exists|t: Seq<char>| m.items[TCPType::Unknown].contains(t)
    } else {
        m.headers.contains(c)
    }
}

/// The distinct trimmed non-blank lines of a flat attribute directory.
pub open spec fn flat_set(lines: Seq<Seq<char>>) -> Set<Seq<char>> {
    Set::new(
        |t: Seq<char>|
            t.len() > 0 && exists|i: int| 0 <= i < lines.len() && trimmed(#[trigger] lines[i]) == t,
    )
}

/// The views of the lines of each file.
pub open spec fn file_views(files: Seq<Vec<String>>) -> Seq<Seq<Seq<char>>> {
    files.map_values(|f: Vec<String>| seq_views(f@))
}

pub proof fn lemma_scan_lines_push(m: LoadModel, cur: TCPType, lines: Seq<Seq<char>>, x: Seq<char>)
    ensures
        scan_lines(m, cur, lines.push(x)) == {
            let r = scan_lines(m, cur, lines);
            step_line(r.0, r.1, x)
        },
    decreases lines.len(),
{
    let p = lines.push(x);
    if lines.len() == 0 {
        let s = step_line(m, cur, x);
        assert(p[0] == x);
        assert(p.drop_first() =~= Seq::<Seq<char>>::empty());
        assert(scan_lines(s.0, s.1, p.drop_first()) == (s.0, s.1));
        assert(scan_lines(m, cur, p) == scan_lines(s.0, s.1, p.drop_first()));
        assert(scan_lines(m, cur, lines) == (m, cur));
    } else {
        let s = step_line(m, cur, lines[0]);
        assert(p[0] == lines[0]);
        assert(p.drop_first() =~= lines.drop_first().push(x));
        assert(scan_lines(m, cur, p) == scan_lines(s.0, s.1, lines.drop_first().push(x)));
        lemma_scan_lines_push(s.0, s.1, lines.drop_first(), x);
        assert(scan_lines(m, cur, lines) == scan_lines(s.0, s.1, lines.drop_first()));
    }
}

pub proof fn lemma_scan_files_push(m: LoadModel, files: Seq<Seq<Seq<char>>>, x: Seq<Seq<char>>)
    ensures
        scan_files(m, files.push(x)) == scan_lines(scan_files(m, files), TCPType::Unknown, x).0,
    decreases files.len(),
{
    let p = files.push(x);
    if files.len() == 0 {
        let s = scan_lines(m, TCPType::Unknown, x).0;
        assert(p[0] == x);
        assert(p.drop_first() =~= Seq::<Seq<Seq<char>>>::empty());
        assert(scan_files(s, p.drop_first()) == s);
        assert(scan_files(m, p) == scan_files(s, p.drop_first()));
        assert(scan_files(m, files) == m);
    } else {
        let s = scan_lines(m, TCPType::Unknown, files[0]).0;
        assert(p[0] == files[0]);
        assert(p.drop_first() =~= files.drop_first().push(x));
        assert(scan_files(m, p) == scan_files(s, files.drop_first().push(x)));
        lemma_scan_files_push(s, files.drop_first(), x);
        assert(scan_files(m, files) == scan_files(s, files.drop_first()));
    }
}

/// Invariant of the scan state: items of distinct categories are disjoint,
/// and every attributed item has been seen.
pub open spec fn model_inv(m: LoadModel) -> bool {
    &&& forall|c: TCPType, t: Seq<char>| #[trigger]
        m.items[c].contains(t) ==> m.seen.contains(t)
    &&& forall|c1: TCPType, c2: TCPType, t: Seq<char>|
        c1 != c2 ==> !(#[trigger] m.items[c1].contains(t) && #[trigger] m.items[c2].contains(t))
}

pub proof fn lemma_step_line_inv(m: LoadModel, cur: TCPType, line: Seq<char>)
    requires
        model_inv(m),
    ensures
        model_inv(step_line(m, cur, line).0),
{
}

pub proof fn lemma_scan_lines_inv(m: LoadModel, cur: TCPType, lines: Seq<Seq<char>>)
    requires
        model_inv(m),
    ensures
        model_inv(scan_lines(m, cur, lines).0),
    decreases lines.len(),
{
    if lines.len() > 0 {
        let s = step_line(m, cur, lines[0]);
        lemma_step_line_inv(m, cur, lines[0]);
        lemma_scan_lines_inv(s.0, s.1, lines.drop_first());
    }
}

pub proof fn lemma_scan_files_inv(m: LoadModel, files: Seq<Seq<Seq<char>>>)
    requires
        model_inv(m),
    ensures
        model_inv(scan_files(m, files)),
    decreases files.len(),
{
    if files.len() > 0 {
        lemma_scan_lines_inv(m, TCPType::Unknown, files[0]);
        lemma_scan_files_inv(scan_lines(m, TCPType::Unknown, files[0]).0, files.drop_first());
    }
}

/// A copy of a vector of strings with the very same contents.
pub fn clone_vec_string(v: &Vec<String>) -> (r: Vec<String>)
    ensures
        r@ == v@,
{
    let r = v.clone();
    proof {
        assert forall|i: int| 0 <= i < v@.len() implies r@[i] == v@[i] by {
            assert(vstd::pervasive::cloned::<String>(v[i], r[i]));
        }
        assert(r@ =~= v@);
    }
    r
}

/// Collects the trimmed non-blank lines into a sorted duplicate-free list.
fn build_flat_list(lines: &Vec<String>) -> (r: Vec<String>)
    ensures
        sorted_strings(r@),
        forall|t: Seq<char>| #[trigger]
            contains_str(r@, t) <==> flat_set(seq_views(lines@)).contains(t),
{
    let ghost all = seq_views(lines@);
    let mut r: Vec<String> = Vec::new();
    let mut i: usize = 0;
    while i < lines.len()
        invariant
            0 <= i <= lines@.len(),
            all == seq_views(lines@),
            sorted_strings(r@),
            forall|t: Seq<char>| #[trigger]
                contains_str(r@, t) <==> flat_set(all.take(i as int)).contains(t),
        decreases lines@.len() - i,
    {
        let t = trim_str(lines[i].as_str());
        if t.unicode_len() > 0 {
            insert_unique_sorted(&mut r, t);
        }
        proof {
            let tt = trimmed(all[i as int]);
            assert(all.take(i + 1) =~= all.take(i as int).push(all[i as int]));
            assert forall|x: Seq<char>| #[trigger]
                flat_set(all.take(i + 1)).contains(x) <==> (flat_set(all.take(i as int)).contains(
                x,
            ) || (x == tt && tt.len() > 0)) by {
                let pre = all.take(i as int);
                let ext = all.take(i + 1);
                if flat_set(ext).contains(x) {
                    let j = choose|j: int| 0 <= j < ext.len() && trimmed(#[trigger] ext[j]) == x;
                    if j < i {
                        assert(pre[j] == ext[j]);
                        assert(flat_set(pre).contains(x));
                    } else {
                        assert(ext[j] == all[i as int]);
                    }
                }
                if flat_set(pre).contains(x) {
                    let j = choose|j: int| 0 <= j < pre.len() && trimmed(#[trigger] pre[j]) == x;
                    assert(ext[j] == pre[j]);
                    assert(flat_set(ext).contains(x));
                }
                if x == tt && tt.len() > 0 {
                    assert(ext[i as int] == all[i as int]);
                    assert(flat_set(ext).contains(x));
                }
            }
        }
        i = i + 1;
    }
    proof {
        assert(all.take(lines@.len() as int) =~= all);
    }
    r
}

/// Relation between the in-progress loader state and the scan model: ten
/// per-category item lists (indexed canonically), ten header flags, and the
/// names attributed so far.
pub open spec fn state_rel(
    lists: Seq<Vec<String>>,
    headers: Seq<bool>,
    seen: Seq<String>,
    m: LoadModel,
) -> bool {
    &&& lists.len() == 10
    &&& headers.len() == 10
    &&& forall|k: int| 0 <= k < 10 ==> sorted_strings((#[trigger] lists[k])@)
    &&& forall|k: int, t: Seq<char>|
        0 <= k < 10 ==> (#[trigger] contains_str(lists[k]@, t) <==> m.items[
            TCPType::from_index_spec(k as u32)
        ].contains(t))
    &&& forall|k: int|
        0 <= k < 10 ==> ((#[trigger] headers[k]) == m.headers.contains(
            TCPType::from_index_spec(k as u32),
        ))
    &&& forall|t: Seq<char>| #[trigger] contains_str(seen, t) <==> m.seen.contains(t)
}

/// Distinct canonical indices name distinct categories.
proof fn lemma_index_distinct(k: int, c: TCPType)
    requires
        0 <= k < 10,
        k != c.index_spec(),
    ensures
        TCPType::from_index_spec(k as u32) != c,
{
    TCPType::lemma_index_roundtrip(c);
    assert(TCPType::from_index_spec(k as u32).index_spec() == k);
}

/// Scans the lines of one type file into the loader state, starting from the
/// `Unknown` category as each file does.
fn scan_type_file(
    lists: &mut Vec<Vec<String>>,
    headers: &mut Vec<bool>,
    seen: &mut Vec<String>,
    file: &Vec<String>,
    Ghost(m0): Ghost<LoadModel>,
)
    requires
        state_rel(old(lists)@, old(headers)@, old(seen)@, m0),
    ensures
        state_rel(
            final(lists)@,
            final(headers)@,
            final(seen)@,
            scan_lines(m0, TCPType::Unknown, seq_views(file@)).0,
        ),
{
    let ghost lv = seq_views(file@);
    let mut cur = TCPType::Unknown;
    let mut i: usize = 0;
    proof {
        assert(lv.take(0) =~= Seq::<Seq<char>>::empty());
    }
    while i < file.len()
        invariant
            0 <= i <= file@.len(),
            lv == seq_views(file@),
            state_rel(lists@, headers@, seen@, scan_lines(m0, TCPType::Unknown, lv.take(i as int)).0),
            cur == scan_lines(m0, TCPType::Unknown, lv.take(i as int)).1,
        decreases file@.len() - i,
    {
        let ghost mcur = scan_lines(m0, TCPType::Unknown, lv.take(i as int)).0;
        proof {
            lemma_scan_lines_push(m0, TCPType::Unknown, lv.take(i as int), lv[i as int]);
            assert(lv.take(i + 1) =~= lv.take(i as int).push(lv[i as int]));
        }
        let t = trim_str(file[i].as_str());
        let tlen = t.as_str().unicode_len();
        if tlen == 0 {
            // blank line: no change
        } else if t.as_str().get_char(0) == '#' {
            let rest = t.as_str().substring_char(1, tlen);
            let c = TCPType::from_keyword(rest);
            let ci = c.index();
            proof {
                TCPType::lemma_index_roundtrip(c);
            }
            headers[ci] = true;
            cur = c;
            proof {
                let mnew = step_line(mcur, scan_lines(m0, TCPType::Unknown, lv.take(i as int)).1, lv[i as int]).0;
                assert(mnew.headers == mcur.headers.insert(c));
                assert forall|k: int| 0 <= k < 10 implies ((#[trigger] headers@[k])
                    == mnew.headers.contains(TCPType::from_index_spec(k as u32))) by {
                    if k != ci {
                        lemma_index_distinct(k, c);
                    }
                }
            }
        } else {
            let already = vec_contains_str(seen, t.as_str());
            if !already {
                let idx = cur.index();
                proof {
                    TCPType::lemma_index_roundtrip(cur);
                }
                let mut inner = clone_vec_string(&lists[idx]);
                insert_unique_sorted(&mut inner, t.clone());
                let ghost oldseen = seen@;
                seen.push(t);
                lists[idx] = inner;
                proof {
                    let mnew = step_line(mcur, cur, lv[i as int]).0;
                    let tt = trimmed(lv[i as int]);
                    assert(mnew.items == mcur.items.insert(cur, mcur.items[cur].insert(tt)));
                    assert(mnew.seen == mcur.seen.insert(tt));
                    assert forall|x: Seq<char>| #[trigger]
                        contains_str(seen@, x) <==> mnew.seen.contains(x) by {
                        lemma_contains_push(oldseen, t, x);
                    }
                    assert forall|k: int, x: Seq<char>| 0 <= k < 10 implies (#[trigger] contains_str(
                        lists@[k]@,
                        x,
                    ) <==> mnew.items[TCPType::from_index_spec(k as u32)].contains(x)) by {
                        if k != idx {
                            lemma_index_distinct(k, cur);
                        }
                    }
                }
            }
        }
        i = i + 1;
    }
    proof {
        assert(lv.take(file@.len() as int) =~= lv);
    }
}

impl TCPList {
    /// Whether `item` is listed under category `c` in this catalog.
    pub open spec fn has_pair(self, c: TCPType, item: Seq<char>) -> bool {
        exists|k: int|
            0 <= k < self.types@.len() && c == (#[trigger] self.types@[k]).0 && contains_str(
                self.types@[k].1@,
                item,
            )
    }

    /// The catalog lists the categories that the scan made present, each with
    /// exactly the items the scan attributed to it.
    pub open spec fn types_match_model(self, m: LoadModel) -> bool {
        &&& forall|c: TCPType| #[trigger]
            present(m, c) <==> exists|k: int|
                0 <= k < self.types@.len() && (#[trigger] self.types@[k]).0 == c
        &&& forall|k: int, t: Seq<char>|
            0 <= k < self.types@.len() ==> (#[trigger] contains_str(self.types@[k].1@, t)
                <==> m.items[self.types@[k].0].contains(t))
    }

    /// Well-formedness of a catalog: categories in strictly ascending
    /// canonical order; every list sorted and duplicate-free; no item under
    /// two categories; `Unknown` present only with at least one item.
    pub open spec fn wf(self) -> bool {
        &&& forall|i: int, j: int|
            0 <= i < j < self.types@.len() ==> (#[trigger] self.types@[i]).0.index_spec() < (
            #[trigger] self.types@[j]).0.index_spec()
        &&& forall|k: int| 0 <= k < self.types@.len() ==> sorted_strings((#[trigger] self.types@[k]).1@)
        &&& forall|i: int, j: int, t: Seq<char>|
            0 <= i < self.types@.len() && 0 <= j < self.types@.len() && i != j ==> !(#[trigger] contains_str(
                self.types@[i].1@,
                t,
            ) && #[trigger] contains_str(self.types@[j].1@, t))
        &&& forall|k: int|
            0 <= k < self.types@.len() && (#[trigger] self.types@[k]).0 == TCPType::Unknown
                ==> self.types@[k].1@.len() > 0
        &&& sorted_strings(self.conditions@)
        &&& sorted_strings(self.modifiers@)
        &&& sorted_strings(self.anomalies@)
    }

    /// What `from_sources` promises of its result, for the given inputs.
    pub open spec fn loaded_from(
        self,
        tf: Seq<Seq<Seq<char>>>,
        cl: Seq<Seq<char>>,
        ml: Seq<Seq<char>>,
        al: Seq<Seq<char>>,
    ) -> bool {
        &&& self.wf()
        &&& self.types_match_model(type_model(tf))
        &&& forall|t: Seq<char>| #[trigger] contains_str(self.conditions@, t) <==> flat_set(cl).contains(t)
        &&& forall|t: Seq<char>| #[trigger] contains_str(self.modifiers@, t) <==> flat_set(ml).contains(t)
        &&& forall|t: Seq<char>| #[trigger] contains_str(self.anomalies@, t) <==> flat_set(al).contains(t)
    }

    /// Builds the catalog from already-read text: the lines of each file under
    /// the types directory, and the lines gathered under each of the three
    /// attribute directories. All output lists are sorted so that the result
    /// does not depend on the order in which the files were enumerated.
    pub fn from_sources(
        type_files: &Vec<Vec<String>>,
        condition_lines: &Vec<String>,
        modifier_lines: &Vec<String>,
        anomaly_lines: &Vec<String>,
    ) -> (r: TCPList)
        ensures
            r.loaded_from(
                file_views(type_files@),
                seq_views(condition_lines@),
                seq_views(modifier_lines@),
                seq_views(anomaly_lines@),
            ),
    {
        let ghost fv = file_views(type_files@);
        let mut lists: Vec<Vec<String>> = Vec::new();
        let mut headers: Vec<bool> = Vec::new();
        let mut k: usize = 0;
        while k < 10
            invariant
                0 <= k <= 10,
                lists@.len() == k,
                headers@.len() == k,
                forall|j: int| 0 <= j < k ==> (#[trigger] lists@[j])@.len() == 0,
                forall|j: int| 0 <= j < k ==> !(#[trigger] headers@[j]),
            decreases 10 - k,
        {
            lists.push(Vec::new());
            headers.push(false);
            k = k + 1;
        }
        let mut seen: Vec<String> = Vec::new();
        proof {
            assert(fv.take(0) =~= Seq::<Seq<Seq<char>>>::empty());
            assert(scan_files(init_model(), fv.take(0)) == init_model());
            assert forall|j: int, t: Seq<char>| 0 <= j < 10 implies (#[trigger] contains_str(
                lists@[j]@,
                t,
            ) <==> init_model().items[TCPType::from_index_spec(j as u32)].contains(t)) by {
                assert(!contains_str(lists@[j]@, t));
            }
            assert(state_rel(lists@, headers@, seen@, init_model()));
        }
        let mut f: usize = 0;
        while f < type_files.len()
            invariant
                0 <= f <= type_files@.len(),
                fv == file_views(type_files@),
                state_rel(lists@, headers@, seen@, scan_files(init_model(), fv.take(f as int))),
            decreases type_files@.len() - f,
        {
            scan_type_file(
                &mut lists,
                &mut headers,
                &mut seen,
                &type_files[f],
                Ghost(scan_files(init_model(), fv.take(f as int))),
            );
            proof {
                lemma_scan_files_push(init_model(), fv.take(f as int), fv[f as int]);
                assert(fv.take(f + 1) =~= fv.take(f as int).push(fv[f as int]));
                assert(fv[f as int] == seq_views(type_files@[f as int]@));
            }
            f = f + 1;
        }
        let ghost m = type_model(fv);
        proof {
            assert(fv.take(type_files@.len() as int) =~= fv);
            lemma_scan_files_inv(init_model(), fv);
        }
        let mut cats: Vec<(TCPType, Vec<String>)> = Vec::new();
        let mut k: usize = 0;
        while k < 10
            invariant
                0 <= k <= 10,
                state_rel(lists@, headers@, seen@, m),
                forall|p: int, q: int|
                    0 <= p < q < cats@.len() ==> (#[trigger] cats@[p]).0.index_spec() < (
                    #[trigger] cats@[q]).0.index_spec(),
                forall|p: int|
                    0 <= p < cats@.len() ==> (#[trigger] cats@[p]).0.index_spec() < k,
                forall|p: int| 0 <= p < cats@.len() ==> present(m, (#[trigger] cats@[p]).0),
                forall|p: int, t: Seq<char>|
                    0 <= p < cats@.len() ==> (#[trigger] contains_str(cats@[p].1@, t) <==> m.items[
                        cats@[p].0
                    ].contains(t)),
                forall|p: int| 0 <= p < cats@.len() ==> sorted_strings((#[trigger] cats@[p]).1@),
                forall|p: int|
                    0 <= p < cats@.len() && (#[trigger] cats@[p]).0 == TCPType::Unknown
                        ==> cats@[p].1@.len() > 0,
                forall|c: TCPType|
                    c.index_spec() < k && #[trigger] present(m, c) ==> exists|p: int|
                        0 <= p < cats@.len() && (#[trigger] cats@[p]).0 == c,
            decreases 10 - k,
        {
            let c = TCPType::from_index(k as u32);
            proof {
                TCPType::lemma_index_roundtrip(c);
                assert(c.index_spec() == k);
            }
            let is_present = if k == 9 {
                lists[9].len() > 0
            } else {
                headers[k]
            };
            proof {
                if k == 9 {
                    assert(c == TCPType::Unknown);
                    if lists@[9]@.len() > 0 {
                        assert(contains_str(lists@[9]@, lists@[9]@[0]@));
                        assert(m.items[TCPType::Unknown].contains(lists@[9]@[0]@));
                        assert(present(m, c));
                    } else {
                        if present(m, c) {
                            let t = choose|t: Seq<char>| m.items[TCPType::Unknown].contains(t);
                            assert(contains_str(lists@[9]@, t));
                        }
                    }
                    assert(is_present == present(m, c));
                } else {
                    assert(c != TCPType::Unknown);
                    assert(is_present == present(m, c));
                }
            }
            let ghost oldcats = cats@;
            if is_present {
                let copy = clone_vec_string(&lists[k]);
                cats.push((c, copy));
                proof {
                    assert(cats@[oldcats.len() as int].0 == c);
                    assert(forall|p: int| 0 <= p < oldcats.len() ==> cats@[p] == oldcats[p]);
                }
            }
            proof {
                assert forall|cc: TCPType|
                    cc.index_spec() < k + 1 && #[trigger] present(m, cc) implies exists|p: int|
                        0 <= p < cats@.len() && (#[trigger] cats@[p]).0 == cc by {
                    if cc.index_spec() == k {
                        TCPType::lemma_index_roundtrip(cc);
                        assert(cc == c);
                        assert(cats@[cats@.len() - 1].0 == cc);
                    } else {
                        assert(exists|p: int| 0 <= p < oldcats.len() && (#[trigger] oldcats[p]).0 == cc);
                        let p = choose|p: int| 0 <= p < oldcats.len() && (#[trigger] oldcats[p]).0 == cc;
                        assert(cats@[p].0 == cc);
                    }
                }
            }
            k = k + 1;
        }
        let conditions = build_flat_list(condition_lines);
        let modifiers = build_flat_list(modifier_lines);
        let anomalies = build_flat_list(anomaly_lines);
        let ghost catsv = cats@;
        let r = TCPList { types: cats, conditions, modifiers, anomalies };
        proof {
            assert forall|i: int, j: int, t: Seq<char>|
                0 <= i < r.types@.len() && 0 <= j < r.types@.len() && i != j implies !(#[trigger] contains_str(
                r.types@[i].1@,
                t,
            ) && #[trigger] contains_str(r.types@[j].1@, t)) by {
                if contains_str(r.types@[i].1@, t) && contains_str(r.types@[j].1@, t) {
                    assert(r.types@[i].0 != r.types@[j].0) by {
                        if i < j {
                            assert(r.types@[i].0.index_spec() < r.types@[j].0.index_spec());
                        } else {
                            assert(r.types@[j].0.index_spec() < r.types@[i].0.index_spec());
                        }
                    }
                    assert(m.items[r.types@[i].0].contains(t));
                    assert(m.items[r.types@[j].0].contains(t));
                }
            }
            assert(r.types@ == catsv);
            assert forall|c: TCPType| #[trigger]
                present(m, c) implies exists|k2: int|
                    0 <= k2 < r.types@.len() && (#[trigger] r.types@[k2]).0 == c by {
                TCPType::lemma_index_roundtrip(c);
                assert(c.index_spec() < 10);
                let p = choose|p: int| 0 <= p < catsv.len() && (#[trigger] catsv[p]).0 == c;
                assert(r.types@[p].0 == c);
            }
            assert forall|c: TCPType|
                (exists|k2: int| 0 <= k2 < r.types@.len() && (#[trigger] r.types@[k2]).0 == c)
                    implies #[trigger] present(m, c) by {
            }
        }
        r
    }
}


/// Dedup invariant: in a well-formed catalog, the item lists of two distinct
/// categories never share an item name.
pub proof fn lemma_category_items_disjoint(catalog: TCPList, i: int, j: int, t: Seq<char>)
    requires
        catalog.wf(),
        0 <= i < catalog.types@.len(),
        0 <= j < catalog.types@.len(),
        i != j,
    ensures
        !(contains_str(catalog.types@[i].1@, t) && contains_str(catalog.types@[j].1@, t)),
{
}

/// List uniqueness: the conditions, modifiers and anomalies lists of a
/// well-formed catalog each contain no duplicate string, and so does every
/// category's item list.
pub proof fn lemma_lists_duplicate_free(catalog: TCPList)
    requires
        catalog.wf(),
    ensures
        distinct_strs(catalog.conditions@),
        distinct_strs(catalog.modifiers@),
        distinct_strs(catalog.anomalies@),
        forall|k: int| 0 <= k < catalog.types@.len() ==> distinct_strs((#[trigger] catalog.types@[k]).1@),
{
    lemma_sorted_distinct(catalog.conditions@);
    lemma_sorted_distinct(catalog.modifiers@);
    lemma_sorted_distinct(catalog.anomalies@);
    assert forall|k: int| 0 <= k < catalog.types@.len() implies distinct_strs(
        (#[trigger] catalog.types@[k]).1@,
    ) by {
        lemma_sorted_distinct(catalog.types@[k].1@);
    }
}


/// The item-shaped lines of a file: trimmed, non-blank, no header marker.
/// These are the names the file could attribute to some category.
pub open spec fn line_items(lines: Seq<Seq<char>>) -> Set<Seq<char>> {
    Set::new(
        |t: Seq<char>|
            t.len() > 0 && t[0] != '#' && exists|i: int|
                0 <= i < lines.len() && trimmed(#[trigger] lines[i]) == t,
    )
}

/// What one file contributes when scanned alone from the empty state.
pub open spec fn file_model(f: Seq<Seq<char>>) -> LoadModel {
    scan_lines(init_model(), TCPType::Unknown, f).0
}

/// A scan never removes anything from the state.
pub proof fn lemma_scan_lines_monotone(m: LoadModel, cur: TCPType, lines: Seq<Seq<char>>)
    ensures
        forall|c: TCPType, t: Seq<char>| #[trigger]
            m.items[c].contains(t) ==> scan_lines(m, cur, lines).0.items[c].contains(t),
        forall|h: TCPType| #[trigger]
            m.headers.contains(h) ==> scan_lines(m, cur, lines).0.headers.contains(h),
        forall|t: Seq<char>| #[trigger]
            m.seen.contains(t) ==> scan_lines(m, cur, lines).0.seen.contains(t),
    decreases lines.len(),
{
    if lines.len() > 0 {
        let s = step_line(m, cur, lines[0]);
        let rest = lines.drop_first();
        lemma_scan_lines_monotone(s.0, s.1, rest);
        assert(scan_lines(m, cur, lines).0 == scan_lines(s.0, s.1, rest).0);
        assert forall|c: TCPType, t: Seq<char>| #[trigger]
            m.items[c].contains(t) implies scan_lines(m, cur, lines).0.items[c].contains(t) by {
            assert(s.0.items[c].contains(t));
            assert(scan_lines(s.0, s.1, rest).0.items[c].contains(t));
        }
        assert forall|h: TCPType| #[trigger]
            m.headers.contains(h) implies scan_lines(m, cur, lines).0.headers.contains(h) by {
            assert(s.0.headers.contains(h));
            assert(scan_lines(s.0, s.1, rest).0.headers.contains(h));
        }
        assert forall|t: Seq<char>| #[trigger]
            m.seen.contains(t) implies scan_lines(m, cur, lines).0.seen.contains(t) by {
            assert(s.0.seen.contains(t));
            assert(scan_lines(s.0, s.1, rest).0.seen.contains(t));
        }
    }
}

/// Everything a scan marks as seen was either seen before or is an
/// item-shaped line of the scanned file.
pub proof fn lemma_scan_seen_bound(m: LoadModel, cur: TCPType, lines: Seq<Seq<char>>)
    ensures
        forall|t: Seq<char>| #[trigger]
            scan_lines(m, cur, lines).0.seen.contains(t) ==> m.seen.contains(t) || line_items(
                lines,
            ).contains(t),
    decreases lines.len(),
{
    if lines.len() > 0 {
        let s = step_line(m, cur, lines[0]);
        let rest = lines.drop_first();
        lemma_scan_seen_bound(s.0, s.1, rest);
        assert(scan_lines(m, cur, lines).0 == scan_lines(s.0, s.1, rest).0);
        assert forall|t: Seq<char>| #[trigger]
            scan_lines(m, cur, lines).0.seen.contains(t) implies m.seen.contains(t) || line_items(
            lines,
        ).contains(t) by {
            if !m.seen.contains(t) {
                assert(scan_lines(s.0, s.1, rest).0.seen.contains(t));
                if s.0.seen.contains(t) {
                    // added at the first line
                    assert(t == trimmed(lines[0]));
                    assert(trimmed(lines[0]).len() > 0 && trimmed(lines[0])[0] != '#');
                    assert(line_items(lines).contains(t));
                } else {
                    assert(line_items(rest).contains(t));
                    let i = choose|i: int| 0 <= i < rest.len() && trimmed(#[trigger] rest[i]) == t;
                    assert(rest[i] == lines[i + 1]);
                    assert(line_items(lines).contains(t));
                }
            }
        }
    }
}

/// Two scans of the same lines from states that agree on which of the file's
/// item names were already seen make the same decisions: the larger state's
/// result is the smaller state's result joined with the larger start.
pub proof fn lemma_scan_lines_pair(ma: LoadModel, mb: LoadModel, cur: TCPType, lines: Seq<Seq<char>>)
    requires
        forall|t: Seq<char>| #[trigger]
            line_items(lines).contains(t) ==> (ma.seen.contains(t) <==> mb.seen.contains(t)),
        forall|t: Seq<char>| #[trigger] mb.seen.contains(t) ==> ma.seen.contains(t),
        forall|h: TCPType| #[trigger] mb.headers.contains(h) ==> ma.headers.contains(h),
        forall|c: TCPType, t: Seq<char>| #[trigger]
            mb.items[c].contains(t) ==> ma.items[c].contains(t),
    ensures
        scan_lines(ma, cur, lines).1 == scan_lines(mb, cur, lines).1,
        forall|c: TCPType, t: Seq<char>| #[trigger]
            scan_lines(ma, cur, lines).0.items[c].contains(t) <==> ma.items[c].contains(t)
                || scan_lines(mb, cur, lines).0.items[c].contains(t),
        forall|h: TCPType| #[trigger]
            scan_lines(ma, cur, lines).0.headers.contains(h) <==> ma.headers.contains(h)
                || scan_lines(mb, cur, lines).0.headers.contains(h),
        forall|t: Seq<char>| #[trigger]
            scan_lines(ma, cur, lines).0.seen.contains(t) <==> ma.seen.contains(t) || scan_lines(
                mb,
                cur,
                lines,
            ).0.seen.contains(t),
    decreases lines.len(),
{
    if lines.len() == 0 {
    } else {
        let l0 = lines[0];
        let rest = lines.drop_first();
        let t0 = trimmed(l0);
        let sa = step_line(ma, cur, l0);
        let sb = step_line(mb, cur, l0);
        let ra = scan_lines(ma, cur, lines);
        let rb = scan_lines(mb, cur, lines);
        assert(ra == scan_lines(sa.0, sa.1, rest));
        assert(rb == scan_lines(sb.0, sb.1, rest));
        // item lines of the rest are item lines of the whole
        assert forall|t: Seq<char>| #[trigger] line_items(rest).contains(t) implies line_items(
            lines,
        ).contains(t) by {
            let i = choose|i: int| 0 <= i < rest.len() && trimmed(#[trigger] rest[i]) == t;
            assert(rest[i] == lines[i + 1]);
        }
        if t0.len() > 0 && t0[0] != '#' {
            assert(line_items(lines).contains(t0));
            assert(ma.seen.contains(t0) <==> mb.seen.contains(t0));
        }
        assert(sa.1 == sb.1);
        lemma_scan_lines_pair(sa.0, sb.0, sa.1, rest);
        lemma_scan_lines_monotone(sa.0, sa.1, rest);
        lemma_scan_lines_monotone(sb.0, sb.1, rest);
        assert forall|c: TCPType, t: Seq<char>| #[trigger]
            ra.0.items[c].contains(t) <==> (ma.items[c].contains(t) || rb.0.items[c].contains(
            t,
        )) by {
            assert(scan_lines(sa.0, sa.1, rest).0.items[c].contains(t) <==> (sa.0.items[
                c
            ].contains(t) || scan_lines(sb.0, sb.1, rest).0.items[c].contains(t)));
            if sa.0.items[c].contains(t) && !ma.items[c].contains(t) {
                // added by the first line: the other scan adds it too
                assert(sb.0.items[c].contains(t));
                assert(scan_lines(sb.0, sb.1, rest).0.items[c].contains(t));
            }
            if ma.items[c].contains(t) {
                assert(sa.0.items[c].contains(t));
                assert(scan_lines(sa.0, sa.1, rest).0.items[c].contains(t));
            }
        }
        assert forall|h: TCPType| #[trigger]
            ra.0.headers.contains(h) <==> (ma.headers.contains(h) || rb.0.headers.contains(h)) by {
            assert(scan_lines(sa.0, sa.1, rest).0.headers.contains(h) <==> (sa.0.headers.contains(
                h,
            ) || scan_lines(sb.0, sb.1, rest).0.headers.contains(h)));
            if sa.0.headers.contains(h) && !ma.headers.contains(h) {
                assert(sb.0.headers.contains(h));
                assert(scan_lines(sb.0, sb.1, rest).0.headers.contains(h));
            }
            if ma.headers.contains(h) {
                assert(sa.0.headers.contains(h));
                assert(scan_lines(sa.0, sa.1, rest).0.headers.contains(h));
            }
        }
        assert forall|t: Seq<char>| #[trigger]
            ra.0.seen.contains(t) <==> (ma.seen.contains(t) || rb.0.seen.contains(t)) by {
            assert(scan_lines(sa.0, sa.1, rest).0.seen.contains(t) <==> (sa.0.seen.contains(t)
                || scan_lines(sb.0, sb.1, rest).0.seen.contains(t)));
            if sa.0.seen.contains(t) && !ma.seen.contains(t) {
                assert(sb.0.seen.contains(t));
                assert(scan_lines(sb.0, sb.1, rest).0.seen.contains(t));
            }
            if ma.seen.contains(t) {
                assert(sa.0.seen.contains(t));
                assert(scan_lines(sa.0, sa.1, rest).0.seen.contains(t));
            }
        }
    }
}

/// Whether no item-shaped line occurs in two different files.
pub open spec fn files_disjoint(files: Seq<Seq<Seq<char>>>) -> bool {
    forall|i: int, j: int, t: Seq<char>|
        0 <= i < files.len() && 0 <= j < files.len() && i != j ==> !(#[trigger] line_items(
            files[i],
        ).contains(t) && #[trigger] line_items(files[j]).contains(t))
}

/// When no item name occurs in two files, the whole scan is the pointwise
/// union of what each file contributes alone, in any order.
pub proof fn lemma_scan_files_solo(files: Seq<Seq<Seq<char>>>)
    requires
        files_disjoint(files),
    ensures
        forall|c: TCPType, t: Seq<char>| #[trigger]
            scan_files(init_model(), files).items[c].contains(t) <==> exists|i: int|
                0 <= i < files.len() && (#[trigger] file_model(files[i])).items[c].contains(t),
        forall|h: TCPType| #[trigger]
            scan_files(init_model(), files).headers.contains(h) <==> exists|i: int|
                0 <= i < files.len() && (#[trigger] file_model(files[i])).headers.contains(h),
        forall|t: Seq<char>| #[trigger]
            scan_files(init_model(), files).seen.contains(t) <==> exists|i: int|
                0 <= i < files.len() && (#[trigger] file_model(files[i])).seen.contains(t),
    decreases files.len(),
{
    if files.len() == 0 {
    } else {
        let d = files.drop_last();
        let last = files.last();
        assert(files =~= d.push(last));
        lemma_scan_files_push(init_model(), d, last);
        assert(scan_files(init_model(), files) == scan_lines(
            scan_files(init_model(), d),
            TCPType::Unknown,
            last,
        ).0);
        assert forall|i: int, j: int, t: Seq<char>|
            0 <= i < d.len() && 0 <= j < d.len() && i != j implies !(#[trigger] line_items(
            d[i],
        ).contains(t) && #[trigger] line_items(d[j]).contains(t)) by {
            assert(d[i] == files[i] && d[j] == files[j]);
        }
        lemma_scan_files_solo(d);
        let ma = scan_files(init_model(), d);
        // nothing of the last file was seen while scanning the earlier ones
        assert forall|t: Seq<char>| #[trigger] line_items(last).contains(t) implies (
        ma.seen.contains(t) <==> init_model().seen.contains(t)) by {
            if ma.seen.contains(t) {
                let i = choose|i: int|
                    0 <= i < d.len() && (#[trigger] file_model(d[i])).seen.contains(t);
                lemma_scan_seen_bound(init_model(), TCPType::Unknown, d[i]);
                assert(line_items(d[i]).contains(t));
                assert(d[i] == files[i]);
                assert(last == files[files.len() - 1]);
                assert(false);
            }
        }
        lemma_scan_lines_pair(ma, init_model(), TCPType::Unknown, last);
        let whole = scan_files(init_model(), files);
        assert forall|c: TCPType, t: Seq<char>| #[trigger]
            whole.items[c].contains(t) implies exists|i: int|
                0 <= i < files.len() && (#[trigger] file_model(files[i])).items[c].contains(t) by {
            if ma.items[c].contains(t) {
                let i = choose|i: int|
                    0 <= i < d.len() && (#[trigger] file_model(d[i])).items[c].contains(t);
                assert(d[i] == files[i]);
                assert((file_model(files[i])).items[c].contains(t));
            } else {
                assert(file_model(last).items[c].contains(t));
                assert(last == files[files.len() - 1]);
                assert((file_model(files[files.len() - 1])).items[c].contains(t));
            }
        }
        assert forall|c: TCPType, t: Seq<char>|
            (exists|i: int|
                0 <= i < files.len() && (#[trigger] file_model(files[i])).items[c].contains(
                    t,
                )) implies #[trigger] whole.items[c].contains(t) by {
            let i = choose|i: int|
                0 <= i < files.len() && (#[trigger] file_model(files[i])).items[c].contains(t);
            if i < d.len() {
                assert(d[i] == files[i]);
                assert(ma.items[c].contains(t));
            } else {
                assert(files[i] == last);
                assert(scan_lines(init_model(), TCPType::Unknown, last).0.items[c].contains(t));
            }
        }
        assert forall|h: TCPType| #[trigger]
            whole.headers.contains(h) implies exists|i: int|
                0 <= i < files.len() && (#[trigger] file_model(files[i])).headers.contains(h) by {
            if ma.headers.contains(h) {
                let i = choose|i: int|
                    0 <= i < d.len() && (#[trigger] file_model(d[i])).headers.contains(h);
                assert(d[i] == files[i]);
                assert((file_model(files[i])).headers.contains(h));
            } else {
                assert(last == files[files.len() - 1]);
                assert((file_model(files[files.len() - 1])).headers.contains(h));
            }
        }
        assert forall|h: TCPType|
            (exists|i: int|
                0 <= i < files.len() && (#[trigger] file_model(files[i])).headers.contains(
                    h,
                )) implies #[trigger] whole.headers.contains(h) by {
            let i = choose|i: int|
                0 <= i < files.len() && (#[trigger] file_model(files[i])).headers.contains(h);
            if i < d.len() {
                assert(d[i] == files[i]);
                assert(ma.headers.contains(h));
            } else {
                assert(files[i] == last);
            }
        }
        assert forall|t: Seq<char>| #[trigger]
            whole.seen.contains(t) implies exists|i: int|
                0 <= i < files.len() && (#[trigger] file_model(files[i])).seen.contains(t) by {
            if ma.seen.contains(t) {
                let i = choose|i: int|
                    0 <= i < d.len() && (#[trigger] file_model(d[i])).seen.contains(t);
                assert(d[i] == files[i]);
                assert((file_model(files[i])).seen.contains(t));
            } else {
                assert(last == files[files.len() - 1]);
                assert((file_model(files[files.len() - 1])).seen.contains(t));
            }
        }
        assert forall|t: Seq<char>|
            (exists|i: int|
                0 <= i < files.len() && (#[trigger] file_model(files[i])).seen.contains(
                    t,
                )) implies #[trigger] whole.seen.contains(t) by {
            let i = choose|i: int|
                0 <= i < files.len() && (#[trigger] file_model(files[i])).seen.contains(t);
            if i < d.len() {
                assert(d[i] == files[i]);
                assert(ma.seen.contains(t));
            } else {
                assert(files[i] == last);
            }
        }
    }
}


/// An element of a sequence is in every rearrangement of it.
proof fn lemma_perm_contains<A>(s1: Seq<A>, s2: Seq<A>, x: A)
    requires
        s1.to_multiset() == s2.to_multiset(),
        s1.contains(x),
    ensures
        s2.contains(x),
{
    broadcast use vstd::seq_lib::group_to_multiset_ensures;

    assert(s1.to_multiset().count(x) > 0);
    assert(s2.to_multiset().count(x) > 0);
}

/// Rearranging the lines leaves the set of trimmed non-blank lines unchanged.
pub proof fn lemma_flat_set_perm(s1: Seq<Seq<char>>, s2: Seq<Seq<char>>)
    requires
        s1.to_multiset() == s2.to_multiset(),
    ensures
        forall|t: Seq<char>| #[trigger] flat_set(s1).contains(t) <==> flat_set(s2).contains(t),
{
    broadcast use vstd::seq_lib::group_to_multiset_ensures;

    assert forall|t: Seq<char>| #[trigger] flat_set(s1).contains(t) implies flat_set(s2).contains(
        t,
    ) by {
        let i = choose|i: int| 0 <= i < s1.len() && trimmed(#[trigger] s1[i]) == t;
        assert(s1.contains(s1[i]));
        lemma_perm_contains(s1, s2, s1[i]);
        let j = choose|j: int| 0 <= j < s2.len() && s2[j] == s1[i];
        assert(trimmed(s2[j]) == t);
    }
    assert forall|t: Seq<char>| #[trigger] flat_set(s2).contains(t) implies flat_set(s1).contains(
        t,
    ) by {
        let i = choose|i: int| 0 <= i < s2.len() && trimmed(#[trigger] s2[i]) == t;
        assert(s2.contains(s2[i]));
        lemma_perm_contains(s2, s1, s2[i]);
        let j = choose|j: int| 0 <= j < s1.len() && s1[j] == s2[i];
        assert(trimmed(s1[j]) == t);
    }
}

/// Whether some row of `s` is for category `c`.
pub open spec fn cats_contain(s: Seq<(TCPType, Vec<String>)>, c: TCPType) -> bool {
    exists|k: int| 0 <= k < s.len() && (#[trigger] s[k]).0 == c
}

/// Two category rows in ascending canonical order with the same categories
/// list them at the same positions.
proof fn lemma_cats_equal(a: Seq<(TCPType, Vec<String>)>, b: Seq<(TCPType, Vec<String>)>)
    requires
        forall|i: int, j: int|
            0 <= i < j < a.len() ==> (#[trigger] a[i]).0.index_spec() < (
            #[trigger] a[j]).0.index_spec(),
        forall|i: int, j: int|
            0 <= i < j < b.len() ==> (#[trigger] b[i]).0.index_spec() < (
            #[trigger] b[j]).0.index_spec(),
        forall|c: TCPType| #[trigger] cats_contain(a, c) <==> cats_contain(b, c),
    ensures
        a.len() == b.len(),
        forall|k: int| 0 <= k < a.len() ==> (#[trigger] a[k]).0 == b[k].0,
    decreases a.len(),
{
    if a.len() == 0 {
        if b.len() > 0 {
            assert(cats_contain(b, b[0].0));
            assert(cats_contain(a, b[0].0));
            let k = choose|k: int| 0 <= k < a.len() && (#[trigger] a[k]).0 == b[0].0;
            assert(false);
        }
    } else {
        assert(cats_contain(a, a[0].0));
        assert(cats_contain(b, a[0].0));
        let kb = choose|k: int| 0 <= k < b.len() && (#[trigger] b[k]).0 == a[0].0;
        assert(cats_contain(b, b[0].0));
        assert(cats_contain(a, b[0].0));
        let ka = choose|k: int| 0 <= k < a.len() && (#[trigger] a[k]).0 == b[0].0;
        if a[0].0 != b[0].0 {
            assert(kb > 0);
            assert(ka > 0);
            assert(b[0].0.index_spec() < b[kb].0.index_spec());
            assert(a[0].0.index_spec() < a[ka].0.index_spec());
            assert(false);
        }
        let ad = a.drop_first();
        let bd = b.drop_first();
        assert forall|i: int, j: int| 0 <= i < j < ad.len() implies (
        #[trigger] ad[i]).0.index_spec() < (#[trigger] ad[j]).0.index_spec() by {
            assert(ad[i] == a[i + 1] && ad[j] == a[j + 1]);
        }
        assert forall|i: int, j: int| 0 <= i < j < bd.len() implies (
        #[trigger] bd[i]).0.index_spec() < (#[trigger] bd[j]).0.index_spec() by {
            assert(bd[i] == b[i + 1] && bd[j] == b[j + 1]);
        }
        assert forall|c: TCPType| #[trigger]
            cats_contain(ad, c) implies cats_contain(bd, c) by {
            let k = choose|k: int| 0 <= k < ad.len() && (#[trigger] ad[k]).0 == c;
            assert(a[k + 1].0 == c);
            assert(a[0].0.index_spec() < c.index_spec());
            assert(cats_contain(a, c));
            assert(cats_contain(b, c));
            let k2 = choose|k2: int| 0 <= k2 < b.len() && (#[trigger] b[k2]).0 == c;
            if k2 == 0 {
                assert(c == b[0].0);
                assert(false);
            }
            assert(bd[k2 - 1].0 == c);
        }
        assert forall|c: TCPType| #[trigger]
            cats_contain(bd, c) implies cats_contain(ad, c) by {
            let k = choose|k: int| 0 <= k < bd.len() && (#[trigger] bd[k]).0 == c;
            assert(b[k + 1].0 == c);
            assert(b[0].0.index_spec() < c.index_spec());
            assert(cats_contain(b, c));
            assert(cats_contain(a, c));
            let k2 = choose|k2: int| 0 <= k2 < a.len() && (#[trigger] a[k2]).0 == c;
            if k2 == 0 {
                assert(c == a[0].0);
                assert(false);
            }
            assert(ad[k2 - 1].0 == c);
        }
        lemma_cats_equal(ad, bd);
        assert forall|k: int| 0 <= k < a.len() implies (#[trigger] a[k]).0 == b[k].0 by {
            if k > 0 {
                assert(ad[k - 1].0 == bd[k - 1].0);
                assert(ad[k - 1] == a[k] && bd[k - 1] == b[k]);
            }
        }
    }
}

/// Traversal-order independence: loading the same directory tree twice, with
/// the files of each directory enumerated in any orders, yields catalogs with
/// identical contents, provided no item-shaped line occurs in two different
/// type files (when one does, whichever file is read first claims the item's
/// category, and the order matters).
pub proof fn lemma_traversal_order_independence(
    a: TCPList,
    b: TCPList,
    tf1: Seq<Seq<Seq<char>>>,
    tf2: Seq<Seq<Seq<char>>>,
    cl1: Seq<Seq<char>>,
    cl2: Seq<Seq<char>>,
    ml1: Seq<Seq<char>>,
    ml2: Seq<Seq<char>>,
    al1: Seq<Seq<char>>,
    al2: Seq<Seq<char>>,
)
    requires
        a.loaded_from(tf1, cl1, ml1, al1),
        b.loaded_from(tf2, cl2, ml2, al2),
        tf1.to_multiset() == tf2.to_multiset(),
        cl1.to_multiset() == cl2.to_multiset(),
        ml1.to_multiset() == ml2.to_multiset(),
        al1.to_multiset() == al2.to_multiset(),
        files_disjoint(tf1),
        files_disjoint(tf2),
    ensures
        a.types@.len() == b.types@.len(),
        forall|k: int|
            0 <= k < a.types@.len() ==> (#[trigger] a.types@[k]).0 == b.types@[k].0 && seq_views(
                a.types@[k].1@,
            ) == seq_views(b.types@[k].1@),
        seq_views(a.conditions@) == seq_views(b.conditions@),
        seq_views(a.modifiers@) == seq_views(b.modifiers@),
        seq_views(a.anomalies@) == seq_views(b.anomalies@),
{
    broadcast use vstd::seq_lib::group_to_multiset_ensures;

    // the flat lists
    lemma_flat_set_perm(cl1, cl2);
    lemma_flat_set_perm(ml1, ml2);
    lemma_flat_set_perm(al1, al2);
    lemma_sorted_same_members(a.conditions@, b.conditions@);
    lemma_sorted_same_members(a.modifiers@, b.modifiers@);
    lemma_sorted_same_members(a.anomalies@, b.anomalies@);
    // the two scan states agree pointwise
    let m1 = type_model(tf1);
    let m2 = type_model(tf2);
    lemma_scan_files_solo(tf1);
    lemma_scan_files_solo(tf2);
    assert forall|c: TCPType, t: Seq<char>| #[trigger]
        m1.items[c].contains(t) implies #[trigger] m2.items[c].contains(t) by {
        let i = choose|i: int|
            0 <= i < tf1.len() && (#[trigger] file_model(tf1[i])).items[c].contains(t);
        assert(tf1.contains(tf1[i]));
        lemma_perm_contains(tf1, tf2, tf1[i]);
        let j = choose|j: int| 0 <= j < tf2.len() && tf2[j] == tf1[i];
        assert((file_model(tf2[j])).items[c].contains(t));
    }
    assert forall|c: TCPType, t: Seq<char>| #[trigger]
        m2.items[c].contains(t) implies #[trigger] m1.items[c].contains(t) by {
        let i = choose|i: int|
            0 <= i < tf2.len() && (#[trigger] file_model(tf2[i])).items[c].contains(t);
        assert(tf2.contains(tf2[i]));
        lemma_perm_contains(tf2, tf1, tf2[i]);
        let j = choose|j: int| 0 <= j < tf1.len() && tf1[j] == tf2[i];
        assert((file_model(tf1[j])).items[c].contains(t));
    }
    assert forall|h: TCPType| #[trigger]
        m1.headers.contains(h) implies #[trigger] m2.headers.contains(h) by {
        let i = choose|i: int|
            0 <= i < tf1.len() && (#[trigger] file_model(tf1[i])).headers.contains(h);
        assert(tf1.contains(tf1[i]));
        lemma_perm_contains(tf1, tf2, tf1[i]);
        let j = choose|j: int| 0 <= j < tf2.len() && tf2[j] == tf1[i];
        assert((file_model(tf2[j])).headers.contains(h));
    }
    assert forall|h: TCPType| #[trigger]
        m2.headers.contains(h) implies #[trigger] m1.headers.contains(h) by {
        let i = choose|i: int|
            0 <= i < tf2.len() && (#[trigger] file_model(tf2[i])).headers.contains(h);
        assert(tf2.contains(tf2[i]));
        lemma_perm_contains(tf2, tf1, tf2[i]);
        let j = choose|j: int| 0 <= j < tf1.len() && tf1[j] == tf2[i];
        assert((file_model(tf1[j])).headers.contains(h));
    }
    // the same categories are present
    assert forall|c: TCPType| #[trigger] present(m1, c) implies #[trigger] present(m2, c) by {
        if c == TCPType::Unknown {
            let t = choose|t: Seq<char>| m1.items[TCPType::Unknown].contains(t);
            assert(m2.items[TCPType::Unknown].contains(t));
        }
    }
    assert forall|c: TCPType| #[trigger] present(m2, c) implies #[trigger] present(m1, c) by {
        if c == TCPType::Unknown {
            let t = choose|t: Seq<char>| m2.items[TCPType::Unknown].contains(t);
            assert(m1.items[TCPType::Unknown].contains(t));
        }
    }
    // hence the same category rows
    assert forall|c: TCPType| #[trigger]
        cats_contain(a.types@, c) <==> cats_contain(b.types@, c) by {
        assert(cats_contain(a.types@, c) <==> (exists|k: int|
            0 <= k < a.types@.len() && (#[trigger] a.types@[k]).0 == c));
        assert(cats_contain(b.types@, c) <==> (exists|k: int|
            0 <= k < b.types@.len() && (#[trigger] b.types@[k]).0 == c));
        assert((exists|k: int| 0 <= k < a.types@.len() && (#[trigger] a.types@[k]).0 == c)
            <==> present(m1, c));
        assert((exists|k: int| 0 <= k < b.types@.len() && (#[trigger] b.types@[k]).0 == c)
            <==> present(m2, c));
    }
    lemma_cats_equal(a.types@, b.types@);
    // and within each row, the same items
    assert forall|k: int|
        0 <= k < a.types@.len() implies (#[trigger] a.types@[k]).0 == b.types@[k].0 && seq_views(
        a.types@[k].1@,
    ) == seq_views(b.types@[k].1@) by {
        assert(a.types@[k].0 == b.types@[k].0);
        let c = a.types@[k].0;
        assert forall|t: Seq<char>| #[trigger]
            contains_str(a.types@[k].1@, t) <==> contains_str(b.types@[k].1@, t) by {
            assert(contains_str(a.types@[k].1@, t) <==> m1.items[c].contains(t));
            assert(contains_str(b.types@[k].1@, t) <==> m2.items[c].contains(t));
            assert(m1.items[c].contains(t) <==> m2.items[c].contains(t));
        }
        lemma_sorted_same_members(a.types@[k].1@, b.types@[k].1@);
    }
}

} // verus!
