//! The generator: samples one descriptor from a catalog, drawing entropy
//! from a caller-supplied randomness source.

use vstd::prelude::*;

use crate::catalog::TCPList;
use crate::descriptor::TCP;
use crate::taxonomy::{TCPType, Tier};
use crate::text::{clone_string, contains_str, distinct_strs, lemma_sorted_distinct, remove_at};

verus! {

/// A source of randomness, threaded explicitly into generation so that a
/// deterministic source can stand in during tests. The probability wording
/// in the method docs is what an honest source delivers; only the stated
/// bounds are relied on in proofs.
pub trait Randomness {
    /// One uniformly random 32-bit word.
    fn next_u32(&mut self) -> u32;

    /// A uniformly random index below `n`.
    fn below(&mut self, n: usize) -> (r: usize)
        requires
            n > 0,
        ensures
            r < n,
    ;

    /// True with probability one in four: the designer flag.
    fn one_in_four(&mut self) -> bool;
}

/// Relies on rand's `random`: a uniformly random `u32` from the thread-local
/// generator.
#[verifier::external_body]
fn thread_random_u32() -> u32 {
    rand::random::<u32>()
}

/// Relies on rand's `random_range`: a uniform sample from `0..n`, which is in
/// range and panics only on an empty range.
#[verifier::external_body]
fn thread_random_below(n: usize) -> (r: usize)
    requires
        n > 0,
    ensures
        r < n,
{
    rand::random_range(0..n)
}

/// Relies on rand's `random_ratio`: true with probability 1/4, panicking only
/// on a zero denominator or a ratio above one.
#[verifier::external_body]
fn thread_one_in_four() -> bool {
    rand::random_ratio(1, 4)
}

/// The process-wide randomness source, backed by rand's thread-local
/// generator.
pub struct ThreadRandomness {}

impl ThreadRandomness {
    pub fn new() -> ThreadRandomness {
        ThreadRandomness {  }
    }
}

impl Randomness for ThreadRandomness {
    fn next_u32(&mut self) -> u32 {
        thread_random_u32()
    }

    fn below(&mut self, n: usize) -> (r: usize) {
        thread_random_below(n)
    }

    fn one_in_four(&mut self) -> bool {
        thread_one_in_four()
    }
}

impl Tier {
    /// One tier drawn uniformly from the three labels.
    pub fn gen<R: Randomness>(random: &mut R) -> Tier {
        let d = random.below(3);
        if d == 0 {
            Tier::Minor
        } else if d == 1 {
            Tier::Intermediate
        } else {
            Tier::Major
        }
    }
}

/// The four attribute counts of a composite descriptor: four independent
/// rounds, each drawing four independent percentages; a round increments
/// `typeCount` with 13% probability, `conditionCount` with 5%,
/// `modifierCount` with 13%, and `anomalyCount` with 23%.
fn draw_counts<R: Randomness>(random: &mut R) -> (c: (usize, usize, usize, usize))
    ensures
        1 <= c.0 <= 5,
        c.1 <= 4,
        c.2 <= 4,
        c.3 <= 4,
{
    let mut type_count: usize = 1;
    let mut condition_count: usize = 0;
    let mut modifier_count: usize = 0;
    let mut anomaly_count: usize = 0;
    let mut round: usize = 0;
    while round < 4
        invariant
            round <= 4,
            1 <= type_count <= 1 + round,
            condition_count <= round,
            modifier_count <= round,
            anomaly_count <= round,
        decreases 4 - round,
    {
        if random.next_u32() % 100 > 86 {
            type_count = type_count + 1;
        }
        if random.next_u32() % 100 > 94 {
            condition_count = condition_count + 1;
        }
        if random.next_u32() % 100 > 86 {
            modifier_count = modifier_count + 1;
        }
        if random.next_u32() % 100 > 76 {
            anomaly_count = anomaly_count + 1;
        }
        round = round + 1;
    }
    (type_count, condition_count, modifier_count, anomaly_count)
}

/// Uniform sampling of `amount` strings from `list` without replacement:
/// every subset of that size is equally likely under an honest source. The
/// catalog list itself is left untouched; the draw works on a scratch copy.
pub fn sample_distinct<R: Randomness>(list: &Vec<String>, amount: usize, random: &mut R) -> (r: Vec<
    String,
>)
    requires
        amount <= list@.len(),
        distinct_strs(list@),
    ensures
        r@.len() == amount,
        distinct_strs(r@),
        forall|i: int| 0 <= i < r@.len() ==> contains_str(list@, (#[trigger] r@[i])@),
{
    let mut pool = crate::catalog::clone_vec_string(list);
    let mut r: Vec<String> = Vec::new();
    let mut k: usize = 0;
    while k < amount
        invariant
            k <= amount,
            amount <= list@.len(),
            r@.len() == k,
            pool@.len() == list@.len() - k,
            distinct_strs(pool@),
            distinct_strs(r@),
            forall|t: Seq<char>| #[trigger] contains_str(pool@, t) ==> contains_str(list@, t),
            forall|i: int| 0 <= i < r@.len() ==> contains_str(list@, (#[trigger] r@[i])@),
            forall|i: int| 0 <= i < r@.len() ==> !contains_str(pool@, (#[trigger] r@[i])@),
        decreases amount - k,
    {
        let idx = random.below(pool.len());
        proof {
            assert(contains_str(pool@, pool@[idx as int]@));
        }
        let x = remove_at(&mut pool, idx);
        let ghost oldr = r@;
        r.push(x);
        proof {
            assert(forall|i: int| 0 <= i < oldr.len() ==> r@[i] == oldr[i]);
            assert(r@[oldr.len() as int] == x);
        }
        k = k + 1;
    }
    r
}

impl TCPList {
    /// Whether every list is large enough that generation can never exhaust a
    /// sampling pool: five items per category (the largest possible
    /// `typeCount`), four per flat list (the largest attribute count).
    pub open spec fn adequate(self) -> bool {
        &&& self.types@.len() > 0
        &&& forall|k: int| 0 <= k < self.types@.len() ==> (#[trigger] self.types@[k]).1@.len() >= 5
        &&& self.conditions@.len() >= 4
        &&& self.modifiers@.len() >= 4
        &&& self.anomalies@.len() >= 4
    }

    /// Checks [`TCPList::adequate`] so that an unverified caller can refuse
    /// to generate from a catalog that could exhaust a pool mid-draw.
    pub fn is_adequate(&self) -> (r: bool)
        ensures
            r == self.adequate(),
    {
        if self.types.len() == 0 {
            return false;
        }
        let mut k: usize = 0;
        while k < self.types.len()
            invariant
                k <= self.types@.len(),
                forall|j: int| 0 <= j < k ==> (#[trigger] self.types@[j]).1@.len() >= 5,
            decreases self.types@.len() - k,
        {
            if self.types[k].1.len() < 5 {
                return false;
            }
            k = k + 1;
        }
        self.conditions.len() >= 4 && self.modifiers.len() >= 4 && self.anomalies.len() >= 4
    }

    /// Draws `count` type pairs: each draw picks a category uniformly (with
    /// replacement), then takes a uniformly random item from that category's
    /// scratch pool, without replacement within this call.
    pub fn pick_types<R: Randomness>(&self, count: usize, random: &mut R) -> (r: Vec<
        (TCPType, String),
    >)
        requires
            self.wf(),
            self.types@.len() > 0,
            forall|k: int| 0 <= k < self.types@.len() ==> (#[trigger] self.types@[k]).1@.len() >= count,
        ensures
            r@.len() == count,
            forall|i: int, j: int|
                0 <= i < j < r@.len() ==> !((#[trigger] r@[i]).0 == (#[trigger] r@[j]).0 && r@[i].1@
                    == r@[j].1@),
            forall|i: int|
                0 <= i < r@.len() ==> self.has_pair((#[trigger] r@[i]).0, r@[i].1@),
    {
        let mut pools: Vec<Vec<String>> = Vec::new();
        let mut k: usize = 0;
        while k < self.types.len()
            invariant
                k <= self.types@.len(),
                pools@.len() == k,
                forall|j: int| 0 <= j < k ==> (#[trigger] pools@[j])@ == self.types@[j].1@,
            decreases self.types@.len() - k,
        {
            pools.push(crate::catalog::clone_vec_string(&self.types[k].1));
            k = k + 1;
        }
        proof {
            assert forall|j: int| 0 <= j < pools@.len() implies distinct_strs(
                (#[trigger] pools@[j])@,
            ) by {
                lemma_sorted_distinct(self.types@[j].1@);
            }
        }
        let mut r: Vec<(TCPType, String)> = Vec::new();
        let mut n: usize = 0;
        while n < count
            invariant
                n <= count,
                r@.len() == n,
                pools@.len() == self.types@.len(),
                self.types@.len() > 0,
                self.wf(),
                forall|k2: int|
                    0 <= k2 < self.types@.len() ==> (#[trigger] self.types@[k2]).1@.len() >= count,
                forall|j: int| 0 <= j < pools@.len() ==> (#[trigger] pools@[j])@.len() >= count - n,
                forall|j: int| 0 <= j < pools@.len() ==> distinct_strs((#[trigger] pools@[j])@),
                forall|j: int, t: Seq<char>|
                    0 <= j < pools@.len() ==> (#[trigger] contains_str(pools@[j]@, t)
                        ==> contains_str(self.types@[j].1@, t)),
                forall|i: int| 0 <= i < r@.len() ==> self.has_pair((#[trigger] r@[i]).0, r@[i].1@),
                forall|i: int, j: int|
                    0 <= i < r@.len() && 0 <= j < pools@.len() && (#[trigger] r@[i]).0 == (
                    #[trigger] self.types@[j]).0 ==> !contains_str(pools@[j]@, r@[i].1@),
                forall|i: int, j: int|
                    0 <= i < j < r@.len() ==> !((#[trigger] r@[i]).0 == (#[trigger] r@[j]).0
                        && r@[i].1@ == r@[j].1@),
            decreases count - n,
        {
            let c_idx = (random.next_u32() as usize) % self.types.len();
            let cat = self.types[c_idx].0;
            let pool_len = pools[c_idx].len();
            let item_idx = (random.next_u32() as usize) % pool_len;
            let mut pool = crate::catalog::clone_vec_string(&pools[c_idx]);
            let x = remove_at(&mut pool, item_idx);
            let ghost oldpools = pools@;
            let ghost oldr = r@;
            pools[c_idx] = pool;
            r.push((cat, x));
            proof {
                assert(contains_str(oldpools[c_idx as int]@, x@));
                assert(contains_str(self.types@[c_idx as int].1@, x@));
                assert(cat == self.types@[c_idx as int].0);
                assert(self.has_pair(cat, x@));
                assert(forall|j: int|
                    0 <= j < pools@.len() && j != c_idx ==> (#[trigger] pools@[j]) == oldpools[j]);
                assert(forall|i: int| 0 <= i < oldr.len() ==> (#[trigger] r@[i]) == oldr[i]);
                assert(r@[oldr.len() as int] == (cat, x));
                // distinct categories across catalog entries
                assert forall|j1: int, j2: int|
                    0 <= j1 < self.types@.len() && 0 <= j2 < self.types@.len() && j1 != j2 implies (
                #[trigger] self.types@[j1]).0 != (#[trigger] self.types@[j2]).0 by {
                    if j1 < j2 {
                        assert(self.types@[j1].0.index_spec() < self.types@[j2].0.index_spec());
                    } else {
                        assert(self.types@[j2].0.index_spec() < self.types@[j1].0.index_spec());
                    }
                }
                // a pair picked earlier from this category no longer sits in any pool
                assert forall|i: int, j: int|
                    0 <= i < r@.len() && 0 <= j < pools@.len() && (#[trigger] r@[i]).0 == (
                #[trigger] self.types@[j]).0 implies !contains_str(pools@[j]@, r@[i].1@) by {
                    if i < oldr.len() {
                        if j == c_idx {
                            assert(!contains_str(oldpools[j]@, oldr[i].1@));
                            if contains_str(pools@[j]@, oldr[i].1@) {
                                assert(contains_str(oldpools[j]@, oldr[i].1@));
                            }
                        }
                    } else {
                        assert(r@[i].0 == cat);
                        assert(cat == self.types@[c_idx as int].0);
                        assert(j == c_idx);
                        assert(!contains_str(pools@[c_idx as int]@, x@));
                    }
                }
                // the new pair differs from every earlier pair
                assert forall|i: int, j: int| 0 <= i < j < r@.len() implies !((#[trigger] r@[i]).0
                    == (#[trigger] r@[j]).0 && r@[i].1@ == r@[j].1@) by {
                    if j == oldr.len() {
                        if r@[i].0 == cat && r@[i].1@ == x@ {
                            assert(!contains_str(oldpools[c_idx as int]@, oldr[i].1@));
                            assert(contains_str(oldpools[c_idx as int]@, x@));
                        }
                    }
                }
            }
            n = n + 1;
        }
        r
    }

    /// Mode A: one category chosen uniformly among the present categories,
    /// one item chosen uniformly from it; no attributes.
    pub fn gen_simple<R: Randomness>(&self, designer: bool, random: &mut R) -> (t: TCP)
        requires
            self.wf(),
            self.types@.len() > 0,
            forall|k: int| 0 <= k < self.types@.len() ==> (#[trigger] self.types@[k]).1@.len() > 0,
        ensures
            t.designer == designer,
            t.types@.len() == 1,
            t.conditions@.len() == 0,
            t.modifiers@.len() == 0,
            t.anomalies@.len() == 0,
            t.valid_for(*self),
    {
        let c_idx = (random.next_u32() as usize) % self.types.len();
        let cat = self.types[c_idx].0;
        let list_len = self.types[c_idx].1.len();
        let item_idx = random.below(list_len);
        let item = clone_string(&self.types[c_idx].1[item_idx]);
        proof {
            assert(contains_str(self.types@[c_idx as int].1@, item@));
            assert(cat == self.types@[c_idx as int].0);
            assert(self.has_pair(cat, item@));
        }
        let mut pairs: Vec<(TCPType, String)> = Vec::new();
        pairs.push((cat, item));
        let t = TCP {
            types: pairs,
            conditions: Vec::new(),
            modifiers: Vec::new(),
            anomalies: Vec::new(),
            designer,
        };
        proof {
            assert(t.types@.len() == 1);
            assert(t.types@[0].0 == self.types@[c_idx as int].0);
        }
        t
    }

    /// Mode B: binomial attribute counts, type pairs without replacement per
    /// category, attributes without replacement per list, a tier for every
    /// modifier and anomaly.
    pub fn gen_composite<R: Randomness>(&self, designer: bool, random: &mut R) -> (t: TCP)
        requires
            self.wf(),
            self.adequate(),
        ensures
            t.designer == designer,
            1 <= t.types@.len() <= 5,
            t.conditions@.len() <= 4,
            t.modifiers@.len() <= 4,
            t.anomalies@.len() <= 4,
            t.valid_for(*self),
    {
        let (type_count, condition_count, modifier_count, anomaly_count) = draw_counts(random);
        let pairs = self.pick_types(type_count, random);
        proof {
            lemma_sorted_distinct(self.modifiers@);
            lemma_sorted_distinct(self.anomalies@);
            lemma_sorted_distinct(self.conditions@);
        }
        let modifier_names = sample_distinct(&self.modifiers, modifier_count, random);
        let modifiers = attach_tiers(modifier_names, random);
        let anomaly_names = sample_distinct(&self.anomalies, anomaly_count, random);
        let anomalies = attach_tiers(anomaly_names, random);
        let conditions = sample_distinct(&self.conditions, condition_count, random);
        TCP { types: pairs, conditions, modifiers, anomalies, designer }
    }

    /// One descriptor: the designer flag with probability 1/4, then a fair
    /// coin between Mode A (single pick) and Mode B (composite).
    pub fn gen<R: Randomness>(&self, random: &mut R) -> (t: TCP)
        requires
            self.wf(),
            self.adequate(),
        ensures
            t.valid_for(*self),
            1 <= t.types@.len() <= 5,
            t.conditions@.len() <= 4,
            t.modifiers@.len() <= 4,
            t.anomalies@.len() <= 4,
    {
        let designer = random.one_in_four();
        if random.next_u32() & 1 == 0 {
            self.gen_simple(designer, random)
        } else {
            self.gen_composite(designer, random)
        }
    }
}

/// Pairs each sampled name with an independently drawn uniform tier, in
/// order.
fn attach_tiers<R: Randomness>(names: Vec<String>, random: &mut R) -> (r: Vec<(String, Tier)>)
    ensures
        r@.len() == names@.len(),
        forall|i: int| 0 <= i < r@.len() ==> (#[trigger] r@[i]).0 == names@[i],
{
    let mut r: Vec<(String, Tier)> = Vec::new();
    let mut i: usize = 0;
    while i < names.len()
        invariant
            i <= names@.len(),
            r@.len() == i,
            forall|j: int| 0 <= j < i ==> (#[trigger] r@[j]).0 == names@[j],
        decreases names@.len() - i,
    {
        let tier = Tier::gen(random);
        r.push((clone_string(&names[i]), tier));
        i = i + 1;
    }
    r
}


/// Without-replacement correctness: when every pick of one call resolved
/// against the same category entry `k` of the catalog, and as many picks were
/// made as that category has items, the picked items are pairwise distinct
/// and form exactly the category's item set. The hypotheses are what
/// [`TCPList::pick_types`] ensures of its result.
pub proof fn lemma_without_replacement(catalog: TCPList, picks: Seq<(TCPType, String)>, k: int)
    requires
        catalog.wf(),
        0 <= k < catalog.types@.len(),
        forall|i: int| 0 <= i < picks.len() ==> (#[trigger] picks[i]).0 == catalog.types@[k].0,
        forall|i: int, j: int|
            0 <= i < j < picks.len() ==> !((#[trigger] picks[i]).0 == (#[trigger] picks[j]).0
                && picks[i].1@ == picks[j].1@),
        forall|i: int| 0 <= i < picks.len() ==> catalog.has_pair((#[trigger] picks[i]).0, picks[i].1@),
        picks.len() == catalog.types@[k].1@.len(),
    ensures
        forall|i: int, j: int|
            0 <= i < j < picks.len() ==> (#[trigger] picks[i]).1@ != (#[trigger] picks[j]).1@,
        forall|t: Seq<char>|
            contains_str(catalog.types@[k].1@, t) <==> exists|i: int|
                0 <= i < picks.len() && (#[trigger] picks[i]).1@ == t,
{
    broadcast use vstd::seq_lib::seq_to_set_is_finite;

    let list = catalog.types@[k].1;
    let list_views = list@.map_values(|x: String| x@);
    let pick_views = picks.map_values(|p: (TCPType, String)| p.1@);
    // each picked item sits in entry k itself: categories are distinct across entries
    assert forall|i: int| 0 <= i < picks.len() implies list_views.contains(
        #[trigger] pick_views[i],
    ) by {
        let k2 = choose|k2: int|
            0 <= k2 < catalog.types@.len() && picks[i].0 == (#[trigger] catalog.types@[k2]).0
                && contains_str(catalog.types@[k2].1@, picks[i].1@);
        if k2 != k {
            if k2 < k {
                assert(catalog.types@[k2].0.index_spec() < catalog.types@[k].0.index_spec());
            } else {
                assert(catalog.types@[k].0.index_spec() < catalog.types@[k2].0.index_spec());
            }
        }
        assert(contains_str(list@, picks[i].1@));
        let j = choose|j: int| 0 <= j < list@.len() && (#[trigger] list@[j])@ == picks[i].1@;
        assert(list_views[j] == picks[i].1@);
    }
    // pairwise distinct items
    assert forall|i: int, j: int| 0 <= i < j < picks.len() implies (#[trigger] picks[i]).1@ != (
    #[trigger] picks[j]).1@ by {
        assert(picks[i].0 == picks[j].0);
    }
    lemma_sorted_distinct(list@);
    assert(list_views.no_duplicates());
    assert(pick_views.no_duplicates());
    list_views.unique_seq_to_set();
    pick_views.unique_seq_to_set();
    assert(pick_views.to_set().subset_of(list_views.to_set())) by {
        assert forall|t: Seq<char>| pick_views.to_set().contains(t) implies list_views.to_set()
            .contains(t) by {
            let i = choose|i: int| 0 <= i < pick_views.len() && pick_views[i] == t;
            assert(list_views.contains(pick_views[i]));
        }
    }
    assert(pick_views.to_set().len() == list_views.to_set().len());
    vstd::set_lib::lemma_subset_equality(pick_views.to_set(), list_views.to_set());
    assert forall|t: Seq<char>| contains_str(catalog.types@[k].1@, t) implies exists|i: int|
        0 <= i < picks.len() && (#[trigger] picks[i]).1@ == t by {
        let j = choose|j: int| 0 <= j < list@.len() && (#[trigger] list@[j])@ == t;
        assert(list_views[j] == t);
        assert(list_views.to_set().contains(t));
        assert(pick_views.to_set().contains(t));
        let i = choose|i: int| 0 <= i < pick_views.len() && pick_views[i] == t;
        assert(picks[i].1@ == t);
    }
    assert forall|t: Seq<char>|
        (exists|i: int| 0 <= i < picks.len() && (#[trigger] picks[i]).1@ == t) implies contains_str(
        catalog.types@[k].1@,
        t,
    ) by {
        let i = choose|i: int| 0 <= i < picks.len() && (#[trigger] picks[i]).1@ == t;
        assert(list_views.contains(pick_views[i]));
        let j = choose|j: int| 0 <= j < list_views.len() && list_views[j] == t;
        assert(list@[j]@ == t);
    }
}

} // verus!
