//! Character and string utilities: whitespace trimming, case-insensitive
//! comparison against keywords, lexicographic ordering, and joining.

use vstd::prelude::*;

verus! {

/// The Unicode `White_Space` characters, the set `str::trim` strips.
pub open spec fn is_space_char(c: char) -> bool {
    ('\u{0009}' <= c && c <= '\u{000D}') || c == ' ' || c == '\u{0085}' || c == '\u{00A0}'
        || c == '\u{1680}' || ('\u{2000}' <= c && c <= '\u{200A}') || c == '\u{2028}'
        || c == '\u{2029}' || c == '\u{202F}' || c == '\u{205F}' || c == '\u{3000}'
}

/// Whether `c` is whitespace in the sense of [`is_space_char`].
pub fn is_space(c: char) -> (r: bool)
    ensures
        r == is_space_char(c),
{
    ('\u{0009}' <= c && c <= '\u{000D}') || c == ' ' || c == '\u{0085}' || c == '\u{00A0}'
        || c == '\u{1680}' || ('\u{2000}' <= c && c <= '\u{200A}') || c == '\u{2028}'
        || c == '\u{2029}' || c == '\u{202F}' || c == '\u{205F}' || c == '\u{3000}'
}

/// Index of the first non-whitespace character, or the length if none.
pub open spec fn first_non_space(s: Seq<char>) -> int
    decreases s.len(),
{
    if s.len() == 0 {
        0
    } else if !is_space_char(s[0]) {
        0
    } else {
        1 + first_non_space(s.drop_first())
    }
}

/// One past the index of the last non-whitespace character, or 0 if none.
pub open spec fn end_non_space(s: Seq<char>) -> int
    decreases s.len(),
{
    if s.len() == 0 {
        0
    } else if !is_space_char(s.last()) {
        s.len() as int
    } else {
        end_non_space(s.drop_last())
    }
}

/// `s` with leading and trailing whitespace removed, as `str::trim` leaves it.
pub open spec fn trimmed(s: Seq<char>) -> Seq<char> {
    if first_non_space(s) == s.len() {
        Seq::empty()
    } else {
        s.subrange(first_non_space(s), end_non_space(s))
    }
}

pub proof fn lemma_first_non_space(s: Seq<char>)
    ensures
        0 <= first_non_space(s) <= s.len(),
        forall|j: int| 0 <= j < first_non_space(s) ==> is_space_char(s[j]),
        first_non_space(s) < s.len() ==> !is_space_char(s[first_non_space(s)]),
    decreases s.len(),
{
    if s.len() > 0 && is_space_char(s[0]) {
        lemma_first_non_space(s.drop_first());
        assert forall|j: int| 0 <= j < first_non_space(s) implies is_space_char(s[j]) by {
            if j > 0 {
                assert(s[j] == s.drop_first()[j - 1]);
            }
        }
    }
}

pub proof fn lemma_end_non_space(s: Seq<char>)
    ensures
        0 <= end_non_space(s) <= s.len(),
        forall|j: int| end_non_space(s) <= j < s.len() ==> is_space_char(s[j]),
        end_non_space(s) > 0 ==> !is_space_char(s[end_non_space(s) - 1]),
    decreases s.len(),
{
    if s.len() > 0 && is_space_char(s.last()) {
        lemma_end_non_space(s.drop_last());
        assert forall|j: int| end_non_space(s) <= j < s.len() implies is_space_char(s[j]) by {
            if j < s.len() - 1 {
                assert(s[j] == s.drop_last()[j]);
            }
        }
    }
}

/// A non-whitespace character anywhere puts the start strictly before the end.
pub proof fn lemma_trim_bounds(s: Seq<char>)
    ensures
        first_non_space(s) < s.len() ==> first_non_space(s) < end_non_space(s),
{
    lemma_first_non_space(s);
    lemma_end_non_space(s);
    if first_non_space(s) < s.len() {
        if end_non_space(s) <= first_non_space(s) {
            assert(is_space_char(s[first_non_space(s)]));
        }
    }
}

/// `str::trim` as a verified function: strips the characters of
/// [`is_space_char`] from both ends.
pub fn trim_str(s: &str) -> (r: String)
    ensures
        r@ == trimmed(s@),
{
    let len = s.unicode_len();
    proof {
        lemma_first_non_space(s@);
        lemma_end_non_space(s@);
        lemma_trim_bounds(s@);
    }
    let mut i: usize = 0;
    while i < len && is_space(s.get_char(i))
        invariant
            0 <= i <= len,
            len == s@.len(),
            forall|j: int| 0 <= j < i ==> is_space_char(s@[j]),
        decreases len - i,
    {
        i = i + 1;
    }
    proof {
        lemma_first_non_space(s@);
        if i < first_non_space(s@) {
            assert(!is_space_char(s@[i as int]));
        }
        if first_non_space(s@) < i {
            assert(is_space_char(s@[first_non_space(s@)]));
        }
        assert(i == first_non_space(s@));
    }
    if i == len {
        return String::new();
    }
    let mut e: usize = len;
    while e > 0 && is_space(s.get_char(e - 1))
        invariant
            0 <= e <= len,
            len == s@.len(),
            forall|j: int| e <= j < len ==> is_space_char(s@[j]),
            i < len,
            i == first_non_space(s@),
        decreases e,
    {
        proof {
            // the scan never passes the non-whitespace character at i
            if e - 1 <= i {
                assert(is_space_char(s@[i as int]));
            }
        }
        e = e - 1;
    }
    proof {
        lemma_end_non_space(s@);
        if e < end_non_space(s@) {
            assert(is_space_char(s@[end_non_space(s@) - 1]));
        }
        if end_non_space(s@) < e {
            assert(!is_space_char(s@[e - 1]));
            assert(is_space_char(s@[e - 1]));
        }
        assert(e == end_non_space(s@));
    }
    let t = s.substring_char(i, e);
    t.to_owned()
}

/// Lexicographic order on character sequences, by Unicode scalar value.
pub open spec fn str_le(a: Seq<char>, b: Seq<char>) -> bool
    decreases a.len(),
{
    if a.len() == 0 {
        true
    } else if b.len() == 0 {
        false
    } else if a[0] < b[0] {
        true
    } else if b[0] < a[0] {
        false
    } else {
        str_le(a.drop_first(), b.drop_first())
    }
}

/// Strict lexicographic order.
pub open spec fn str_lt(a: Seq<char>, b: Seq<char>) -> bool {
    str_le(a, b) && a != b
}

pub proof fn lemma_str_le_total(a: Seq<char>, b: Seq<char>)
    ensures
        str_le(a, b) || str_le(b, a),
    decreases a.len(),
{
    if a.len() > 0 && b.len() > 0 && a[0] == b[0] {
        lemma_str_le_total(a.drop_first(), b.drop_first());
    }
}

pub proof fn lemma_str_le_antisymmetric(a: Seq<char>, b: Seq<char>)
    requires
        str_le(a, b),
        str_le(b, a),
    ensures
        a == b,
    decreases a.len(),
{
    if a.len() == 0 {
        assert(b.len() == 0);
        assert(a =~= b);
    } else {
        assert(a[0] == b[0]);
        lemma_str_le_antisymmetric(a.drop_first(), b.drop_first());
        assert(a.drop_first() =~= b.drop_first());
        assert(a.len() == b.len());
        assert forall|i: int| 0 <= i < a.len() implies a[i] == b[i] by {
            if i > 0 {
                assert(a[i] == a.drop_first()[i - 1]);
                assert(b[i] == b.drop_first()[i - 1]);
            }
        }
        assert(a =~= b);
    }
}

pub proof fn lemma_str_le_transitive(a: Seq<char>, b: Seq<char>, c: Seq<char>)
    requires
        str_le(a, b),
        str_le(b, c),
    ensures
        str_le(a, c),
    decreases a.len(),
{
    if a.len() > 0 && b.len() > 0 && c.len() > 0 && a[0] == b[0] && b[0] == c[0] {
        lemma_str_le_transitive(a.drop_first(), b.drop_first(), c.drop_first());
    }
}

/// Three-way comparison result.
#[derive(Copy, Clone, Debug, PartialEq, Eq, Structural)]
pub enum Rel {
    Less,
    Equal,
    Greater,
}

/// Three-way lexicographic comparison of two strings, by character.
pub fn str_compare(a: &str, b: &str) -> (r: Rel)
    ensures
        (r == Rel::Equal) <==> a@ == b@,
        (r == Rel::Less) <==> str_lt(a@, b@),
        (r == Rel::Greater) <==> str_lt(b@, a@),
{
    let alen = a.unicode_len();
    let blen = b.unicode_len();
    let n = if alen < blen {
        alen
    } else {
        blen
    };
    let mut i: usize = 0;
    proof {
        assert(a@.skip(0) =~= a@);
        assert(b@.skip(0) =~= b@);
    }
    while i < n
        invariant
            0 <= i <= n,
            alen == a@.len(),
            blen == b@.len(),
            n == if alen < blen {
                alen
            } else {
                blen
            },
            forall|j: int| 0 <= j < i ==> a@[j] == b@[j],
            str_le(a@, b@) == str_le(a@.skip(i as int), b@.skip(i as int)),
            str_le(b@, a@) == str_le(b@.skip(i as int), a@.skip(i as int)),
        decreases n - i,
    {
        let ca = a.get_char(i);
        let cb = b.get_char(i);
        proof {
            assert(a@.skip(i as int)[0] == a@[i as int]);
            assert(b@.skip(i as int)[0] == b@[i as int]);
            assert(a@.skip(i as int).len() > 0);
            assert(b@.skip(i as int).len() > 0);
        }
        if ca < cb {
            proof {
                assert(str_le(a@.skip(i as int), b@.skip(i as int)));
                assert(str_le(a@, b@));
                assert(a@[i as int] != b@[i as int]);
                assert(a@ != b@);
                assert(!str_le(b@.skip(i as int), a@.skip(i as int)));
                assert(!str_lt(b@, a@));
            }
            return Rel::Less;
        }
        if cb < ca {
            proof {
                assert(str_le(b@.skip(i as int), a@.skip(i as int)));
                assert(str_le(b@, a@));
                assert(a@[i as int] != b@[i as int]);
                assert(a@ != b@);
                assert(!str_lt(a@, b@));
            }
            return Rel::Greater;
        }
        proof {
            assert(ca == cb);
            assert(a@.skip(i as int).drop_first() =~= a@.skip(i + 1));
            assert(b@.skip(i as int).drop_first() =~= b@.skip(i + 1));
            assert(str_le(a@.skip(i as int), b@.skip(i as int)) == str_le(
                a@.skip(i + 1),
                b@.skip(i + 1),
            ));
            assert(str_le(b@.skip(i as int), a@.skip(i as int)) == str_le(
                b@.skip(i + 1),
                a@.skip(i + 1),
            ));
        }
        i = i + 1;
    }
    if alen == blen {
        proof {
            assert(a@ =~= b@);
        }
        Rel::Equal
    } else if alen < blen {
        proof {
            assert(a@.skip(i as int).len() == 0);
            assert(str_le(a@, b@));
            assert(a@ != b@);
            assert(b@.skip(i as int).len() > 0);
            assert(!str_le(b@.skip(i as int), a@.skip(i as int)));
        }
        Rel::Less
    } else {
        proof {
            assert(b@.skip(i as int).len() == 0);
            assert(str_le(b@, a@));
            assert(a@ != b@);
            assert(a@.skip(i as int).len() > 0);
            assert(!str_le(a@.skip(i as int), b@.skip(i as int)));
        }
        Rel::Greater
    }
}

pub proof fn lemma_str_lt_transitive(a: Seq<char>, b: Seq<char>, c: Seq<char>)
    requires
        str_lt(a, b),
        str_lt(b, c),
    ensures
        str_lt(a, c),
{
    lemma_str_le_transitive(a, b, c);
    if a == c {
        lemma_str_le_antisymmetric(a, b);
    }
}

/// ASCII-only lower-casing of one character; all others are unchanged.
pub open spec fn lower_char(c: char) -> char {
    if c == 'A' { 'a' } else if c == 'B' { 'b' } else if c == 'C' { 'c' }
    else if c == 'D' { 'd' } else if c == 'E' { 'e' } else if c == 'F' { 'f' }
    else if c == 'G' { 'g' } else if c == 'H' { 'h' } else if c == 'I' { 'i' }
    else if c == 'J' { 'j' } else if c == 'K' { 'k' } else if c == 'L' { 'l' }
    else if c == 'M' { 'm' } else if c == 'N' { 'n' } else if c == 'O' { 'o' }
    else if c == 'P' { 'p' } else if c == 'Q' { 'q' } else if c == 'R' { 'r' }
    else if c == 'S' { 's' } else if c == 'T' { 't' } else if c == 'U' { 'u' }
    else if c == 'V' { 'v' } else if c == 'W' { 'w' } else if c == 'X' { 'x' }
    else if c == 'Y' { 'y' } else if c == 'Z' { 'z' } else { c }
}

/// Exec twin of [`lower_char`].
pub fn to_lower(c: char) -> (r: char)
    ensures
        r == lower_char(c),
{
    match c {
        'A' => 'a', 'B' => 'b', 'C' => 'c', 'D' => 'd', 'E' => 'e', 'F' => 'f',
        'G' => 'g', 'H' => 'h', 'I' => 'i', 'J' => 'j', 'K' => 'k', 'L' => 'l',
        'M' => 'm', 'N' => 'n', 'O' => 'o', 'P' => 'p', 'Q' => 'q', 'R' => 'r',
        'S' => 's', 'T' => 't', 'U' => 'u', 'V' => 'v', 'W' => 'w', 'X' => 'x',
        'Y' => 'y', 'Z' => 'z', _ => c,
    }
}

/// Equality of two character sequences up to ASCII case.
pub open spec fn eq_ignoring_case(a: Seq<char>, b: Seq<char>) -> bool {
    a.len() == b.len() && forall|i: int|
        0 <= i < a.len() ==> lower_char(a[i]) == lower_char(b[i])
}

/// Whether two strings agree character-by-character up to ASCII case.
pub fn eq_ignore_case(a: &str, b: &str) -> (r: bool)
    ensures
        r == eq_ignoring_case(a@, b@),
{
    let alen = a.unicode_len();
    let blen = b.unicode_len();
    if alen != blen {
        return false;
    }
    let mut i: usize = 0;
    while i < alen
        invariant
            0 <= i <= alen,
            alen == a@.len(),
            alen == b@.len(),
            forall|j: int| 0 <= j < i ==> lower_char(a@[j]) == lower_char(b@[j]),
        decreases alen - i,
    {
        let ca = to_lower(a.get_char(i));
        let cb = to_lower(b.get_char(i));
        if ca != cb {
            return false;
        }
        i = i + 1;
    }
    true
}

/// Whether some string of `s` reads `t`.
pub open spec fn contains_str(s: Seq<String>, t: Seq<char>) -> bool {
    exists|i: int| 0 <= i < s.len() && s[i]@ == t
}

/// Strictly ascending in the lexicographic order: sorted and duplicate-free.
pub open spec fn sorted_strings(s: Seq<String>) -> bool {
    forall|i: int, j: int| 0 <= i < j < s.len() ==> str_lt(#[trigger] s[i]@, #[trigger] s[j]@)
}

/// Linear search for a string with exactly the characters of `t`.
pub fn vec_contains_str(v: &Vec<String>, t: &str) -> (r: bool)
    ensures
        r == contains_str(v@, t@),
{
    let mut i: usize = 0;
    while i < v.len()
        invariant
            0 <= i <= v@.len(),
            forall|j: int| 0 <= j < i ==> v@[j]@ != t@,
        decreases v@.len() - i,
    {
        if str_compare(v[i].as_str(), t) == Rel::Equal {
            return true;
        }
        i = i + 1;
    }
    false
}

/// Inserts `s` into a sorted duplicate-free vector, keeping it so; a string
/// already present is not inserted again.
pub fn insert_unique_sorted(v: &mut Vec<String>, s: String)
    requires
        sorted_strings(old(v)@),
    ensures
        sorted_strings(final(v)@),
        forall|t: Seq<char>|
            #[trigger] contains_str(final(v)@, t) <==> contains_str(old(v)@, t) || t == s@,
{
    let mut i: usize = 0;
    while i < v.len() && str_compare(v[i].as_str(), s.as_str()) == Rel::Less
        invariant
            0 <= i <= v@.len(),
            forall|j: int| 0 <= j < i ==> str_lt(#[trigger] v@[j]@, s@),
            *v == *old(v),
        decreases v@.len() - i,
    {
        i = i + 1;
    }
    if i < v.len() {
        let c = str_compare(v[i].as_str(), s.as_str());
        if c == Rel::Equal {
            proof {
                assert(contains_str(v@, s@));
                assert(forall|t: Seq<char>|
                    contains_str(v@, t) ==> contains_str(old(v)@, t) || t == s@);
            }
            return;
        }
    }
    let ghost oldv = v@;
    proof {
        if i < oldv.len() {
            assert(str_lt(s@, oldv[i as int]@));
        }
    }
    v.insert(i, s);
    proof {
        let newv = v@;
        assert(newv == oldv.insert(i as int, s));
        assert forall|p: int, q: int| 0 <= p < q < newv.len() implies str_lt(
            newv[p]@,
            newv[q]@,
        ) by {
            if q < i {
                assert(newv[p] == oldv[p] && newv[q] == oldv[q]);
            } else if p > i {
                assert(newv[p] == oldv[p - 1] && newv[q] == oldv[q - 1]);
            } else if p < i && q == i {
                assert(newv[p] == oldv[p]);
            } else if p < i && q > i {
                assert(newv[p] == oldv[p] && newv[q] == oldv[q - 1]);
                if q - 1 == i as int {
                    assert(str_lt(newv[p]@, s@));
                } else {
                    assert(str_lt(oldv[p]@, oldv[q - 1]@));
                }
            } else {
                assert(p == i && q > i);
                assert(newv[q] == oldv[q - 1]);
                if q - 1 == i as int {
                    assert(str_lt(s@, oldv[i as int]@));
                } else {
                    lemma_str_lt_transitive(s@, oldv[i as int]@, oldv[q - 1]@);
                }
            }
        }
        assert forall|t: Seq<char>| #[trigger]
            contains_str(newv, t) <==> contains_str(oldv, t) || t == s@ by {
            if contains_str(newv, t) {
                let j = choose|j: int| 0 <= j < newv.len() && newv[j]@ == t;
                if j < i {
                    assert(oldv[j]@ == t);
                    assert(contains_str(oldv, t));
                } else if j == i {
                    assert(t == s@);
                } else {
                    assert(oldv[j - 1]@ == t);
                    assert(contains_str(oldv, t));
                }
            }
            if contains_str(oldv, t) {
                let j = choose|j: int| 0 <= j < oldv.len() && oldv[j]@ == t;
                if j < i {
                    assert(newv[j]@ == t);
                } else {
                    assert(newv[j + 1]@ == t);
                }
                assert(contains_str(newv, t));
            }
            if t == s@ {
                assert(newv[i as int]@ == t);
                assert(contains_str(newv, t));
            }
        }
    }
}

/// The views of each string of a sequence.
pub open spec fn seq_views(s: Seq<String>) -> Seq<Seq<char>> {
    s.map_values(|x: String| x@)
}

/// The parts joined with `sep` between each two.
pub open spec fn join_with(parts: Seq<Seq<char>>, sep: Seq<char>) -> Seq<char>
    decreases parts.len(),
{
    if parts.len() == 0 {
        Seq::empty()
    } else if parts.len() == 1 {
        parts[0]
    } else {
        parts[0] + sep + join_with(parts.drop_first(), sep)
    }
}

pub proof fn lemma_join_push(parts: Seq<Seq<char>>, sep: Seq<char>, x: Seq<char>)
    ensures
        join_with(parts.push(x), sep) == if parts.len() == 0 {
            x
        } else {
            join_with(parts, sep) + sep + x
        },
    decreases parts.len(),
{
    let p = parts.push(x);
    if parts.len() == 0 {
        assert(p.len() == 1);
        assert(p[0] == x);
    } else {
        assert(p.len() >= 2);
        assert(p[0] == parts[0]);
        lemma_join_push(parts.drop_first(), sep, x);
        assert(p.drop_first() =~= parts.drop_first().push(x));
        if parts.len() == 1 {
            assert(parts.drop_first().len() == 0);
            assert(join_with(p, sep) == parts[0] + sep + x);
            assert(join_with(parts, sep) == parts[0]);
        } else {
            assert(join_with(p, sep) == parts[0] + sep + (join_with(parts.drop_first(), sep) + sep
                + x));
            assert(join_with(parts, sep) == parts[0] + sep + join_with(parts.drop_first(), sep));
            assert(parts[0] + sep + (join_with(parts.drop_first(), sep) + sep + x) =~= (parts[0]
                + sep + join_with(parts.drop_first(), sep)) + sep + x);
        }
    }
}

/// Joins the strings of `parts` with `sep` between each two.
pub fn join_strings(parts: &Vec<String>, sep: &str) -> (r: String)
    ensures
        r@ == join_with(seq_views(parts@), sep@),
{
    let mut r = String::new();
    let mut i: usize = 0;
    while i < parts.len()
        invariant
            0 <= i <= parts@.len(),
            r@ == join_with(seq_views(parts@).take(i as int), sep@),
        decreases parts@.len() - i,
    {
        proof {
            lemma_join_push(seq_views(parts@).take(i as int), sep@, parts@[i as int]@);
            assert(seq_views(parts@).take(i + 1) =~= seq_views(parts@).take(i as int).push(
                parts@[i as int]@,
            ));
        }
        if i > 0 {
            r.append(sep);
        }
        r.append(parts[i].as_str());
        i = i + 1;
    }
    proof {
        assert(seq_views(parts@).take(parts@.len() as int) =~= seq_views(parts@));
    }
    r
}


pub proof fn lemma_contains_push(s: Seq<String>, x: String, t: Seq<char>)
    ensures
        contains_str(s.push(x), t) <==> (contains_str(s, t) || t == x@),
{
    let p = s.push(x);
    if contains_str(p, t) {
        let j = choose|j: int| 0 <= j < p.len() && p[j]@ == t;
        if j < s.len() {
            assert(s[j]@ == t);
            assert(contains_str(s, t));
        } else {
            assert(p[j] == x);
        }
    }
    if contains_str(s, t) {
        let j = choose|j: int| 0 <= j < s.len() && s[j]@ == t;
        assert(p[j]@ == t);
        assert(contains_str(p, t));
    }
    if t == x@ {
        assert(p[s.len() as int]@ == t);
        assert(contains_str(p, t));
    }
}


/// No two strings of `s` read the same.
pub open spec fn distinct_strs(s: Seq<String>) -> bool {
    forall|i: int, j: int| 0 <= i < j < s.len() ==> (#[trigger] s[i])@ != (#[trigger] s[j])@
}

/// A sorted duplicate-free sequence is duplicate-free.
pub proof fn lemma_sorted_distinct(s: Seq<String>)
    requires
        sorted_strings(s),
    ensures
        distinct_strs(s),
{
}

/// Removes and returns the string at `i`, in constant time; the order of the
/// rest is not preserved.
pub fn remove_at(v: &mut Vec<String>, i: usize) -> (x: String)
    requires
        i < old(v)@.len(),
        distinct_strs(old(v)@),
    ensures
        x == old(v)@[i as int],
        final(v)@.len() == old(v)@.len() - 1,
        distinct_strs(final(v)@),
        forall|t: Seq<char>| #[trigger] contains_str(final(v)@, t) ==> contains_str(old(v)@, t),
        !contains_str(final(v)@, x@),
        forall|t: Seq<char>|
            #[trigger] contains_str(old(v)@, t) && t != x@ ==> contains_str(final(v)@, t),
{
    let ghost oldv = v@;
    let x = v.swap_remove(i);
    proof {
        let newv = v@;
        let n = oldv.len() as int;
        assert(newv == oldv.update(i as int, oldv.last()).drop_last());
        assert(newv.len() == n - 1);
        assert forall|j: int| 0 <= j < n - 1 implies newv[j] == (if j == i {
            oldv[n - 1]
        } else {
            oldv[j]
        }) by {}
        assert forall|p: int, q: int| 0 <= p < q < newv.len() implies (#[trigger] newv[p])@ != (
        #[trigger] newv[q])@ by {
            let sp = if p == i { n - 1 } else { p };
            let sq = if q == i { n - 1 } else { q };
            assert(newv[p] == oldv[sp]);
            assert(newv[q] == oldv[sq]);
            assert(sp != sq);
        }
        assert forall|t: Seq<char>| #[trigger] contains_str(newv, t) implies contains_str(
            oldv,
            t,
        ) by {
            let j = choose|j: int| 0 <= j < newv.len() && newv[j]@ == t;
            let sj = if j == i { n - 1 } else { j };
            assert(oldv[sj]@ == t);
        }
        assert(!contains_str(newv, x@)) by {
            if contains_str(newv, x@) {
                let j = choose|j: int| 0 <= j < newv.len() && newv[j]@ == x@;
                let sj = if j == i { n - 1 } else { j };
                assert(oldv[sj]@ == oldv[i as int]@);
                assert(sj != i ==> false);
            }
        }
        assert forall|t: Seq<char>| #[trigger] contains_str(oldv, t) && t != x@ implies contains_str(
            newv,
            t,
        ) by {
            let j = choose|j: int| 0 <= j < oldv.len() && oldv[j]@ == t;
            assert(j != i);
            if j == n - 1 {
                if i < n - 1 {
                    assert(newv[i as int]@ == t);
                } else {
                    assert(false);
                }
            } else {
                assert(newv[j]@ == t);
            }
        }
    }
    x
}


/// A copy of a string with the very same characters.
pub fn clone_string(s: &String) -> (r: String)
    ensures
        r == *s,
{
    s.clone()
}


/// Two sorted duplicate-free lists with the same members read the same.
pub proof fn lemma_sorted_same_members(x: Seq<String>, y: Seq<String>)
    requires
        sorted_strings(x),
        sorted_strings(y),
        forall|t: Seq<char>| #[trigger] contains_str(x, t) <==> contains_str(y, t),
    ensures
        seq_views(x) == seq_views(y),
    decreases x.len(),
{
    if x.len() == 0 {
        if y.len() > 0 {
            assert(contains_str(y, y[0]@));
            assert(contains_str(x, y[0]@));
            let j = choose|j: int| 0 <= j < x.len() && x[j]@ == y[0]@;
            assert(false);
        }
        assert(seq_views(x) =~= seq_views(y));
    } else {
        assert(contains_str(x, x[0]@));
        assert(contains_str(y, x[0]@));
        let iy = choose|i: int| 0 <= i < y.len() && y[i]@ == x[0]@;
        assert(contains_str(y, y[0]@));
        assert(contains_str(x, y[0]@));
        let ix = choose|i: int| 0 <= i < x.len() && x[i]@ == y[0]@;
        lemma_str_le_total(x[0]@, x[0]@);
        lemma_str_le_total(y[0]@, y[0]@);
        assert(str_le(y[0]@, x[0]@)) by {
            if iy > 0 {
                assert(str_lt(y[0]@, y[iy]@));
            }
        }
        assert(str_le(x[0]@, y[0]@)) by {
            if ix > 0 {
                assert(str_lt(x[0]@, x[ix]@));
            }
        }
        lemma_str_le_antisymmetric(x[0]@, y[0]@);
        assert(x[0]@ == y[0]@);
        let xd = x.drop_first();
        let yd = y.drop_first();
        assert forall|i: int, j: int| 0 <= i < j < xd.len() implies str_lt(
            (#[trigger] xd[i])@,
            (#[trigger] xd[j])@,
        ) by {
            assert(xd[i] == x[i + 1] && xd[j] == x[j + 1]);
        }
        assert forall|i: int, j: int| 0 <= i < j < yd.len() implies str_lt(
            (#[trigger] yd[i])@,
            (#[trigger] yd[j])@,
        ) by {
            assert(yd[i] == y[i + 1] && yd[j] == y[j + 1]);
        }
        assert forall|t: Seq<char>| #[trigger] contains_str(xd, t) implies contains_str(yd, t) by {
            let j = choose|j: int| 0 <= j < xd.len() && xd[j]@ == t;
            assert(x[j + 1]@ == t);
            assert(str_lt(x[0]@, t));
            assert(contains_str(x, t));
            assert(contains_str(y, t));
            let jy = choose|j2: int| 0 <= j2 < y.len() && y[j2]@ == t;
            if jy == 0 {
                assert(t == x[0]@);
                assert(false);
            }
            assert(yd[jy - 1]@ == t);
        }
        assert forall|t: Seq<char>| #[trigger] contains_str(yd, t) implies contains_str(xd, t) by {
            let j = choose|j: int| 0 <= j < yd.len() && yd[j]@ == t;
            assert(y[j + 1]@ == t);
            assert(str_lt(y[0]@, t));
            assert(contains_str(y, t));
            assert(contains_str(x, t));
            let jx = choose|j2: int| 0 <= j2 < x.len() && x[j2]@ == t;
            if jx == 0 {
                assert(t == y[0]@);
                assert(false);
            }
            assert(xd[jx - 1]@ == t);
        }
        lemma_sorted_same_members(xd, yd);
        assert(seq_views(xd) == seq_views(yd));
        assert(x.len() == y.len());
        assert forall|i: int| 0 <= i < x.len() implies (#[trigger] seq_views(x)[i]) == seq_views(
            y,
        )[i] by {
            if i > 0 {
                assert(seq_views(xd)[i - 1] == xd[i - 1]@);
                assert(xd[i - 1] == x[i]);
                assert(yd[i - 1] == y[i]);
            }
        }
        assert(seq_views(x) =~= seq_views(y));
    }
}

} // verus!
