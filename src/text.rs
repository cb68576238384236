//! Character-level text operations: pattern search, whitespace trimming and
//! conversion of strings into character vectors.

use vstd::prelude::*;
use vstd::std_specs::iter::IteratorSpec;

verus! {

broadcast use vstd::string::group_string_axioms;

/// Whether `pat` occurs in `text` starting at position `i`.
pub open spec fn occurs_at(text: Seq<char>, pat: Seq<char>, i: int) -> bool {
    0 <= i && i + pat.len() <= text.len() && text.subrange(i, i + pat.len()) == pat
}

/// Whether `pat` occurs anywhere in `text`.
pub open spec fn contains_seq(text: Seq<char>, pat: Seq<char>) -> bool {
    exists|i: int| occurs_at(text, pat, i)
}

/// The greatest position `<= i` at which `pat` occurs in `text`, or -1.
pub open spec fn last_occ_upto(text: Seq<char>, pat: Seq<char>, i: int) -> int
    decreases i + 1,
{
    if i < 0 {
        -1
    } else if occurs_at(text, pat, i) {
        i
    } else {
        last_occ_upto(text, pat, i - 1)
    }
}

/// The position of the last occurrence of `pat` in `text`, or -1.
pub open spec fn last_occ(text: Seq<char>, pat: Seq<char>) -> int {
    last_occ_upto(text, pat, text.len() - pat.len())
}

/// The least position `>= from` at which `pat` occurs in `text`, or -1.
pub open spec fn first_occ_from(text: Seq<char>, pat: Seq<char>, from: int) -> int
    decreases text.len() + 1 - from,
{
    if from < 0 || from + pat.len() > text.len() {
        -1
    } else if occurs_at(text, pat, from) {
        from
    } else {
        first_occ_from(text, pat, from + 1)
    }
}

/// Characters with the Unicode `White_Space` property, as `char::is_whitespace`.
pub open spec fn is_ws(c: char) -> bool {
    c == ' ' || ('\t' <= c && c <= '\r') || c == '\u{85}' || c == '\u{a0}' || c == '\u{1680}'
        || ('\u{2000}' <= c && c <= '\u{200a}') || c == '\u{2028}' || c == '\u{2029}'
        || c == '\u{202f}' || c == '\u{205f}' || c == '\u{3000}'
}

/// `s` without its leading whitespace.
pub open spec fn trim_start(s: Seq<char>) -> Seq<char>
    decreases s.len(),
{
    if s.len() > 0 && is_ws(s[0]) {
        trim_start(s.drop_first())
    } else {
        s
    }
}

/// `s` without its trailing whitespace.
pub open spec fn trim_end(s: Seq<char>) -> Seq<char>
    decreases s.len(),
{
    if s.len() > 0 && is_ws(s.last()) {
        trim_end(s.drop_last())
    } else {
        s
    }
}

/// `s` without leading and trailing whitespace, as `str::trim`.
pub open spec fn trim(s: Seq<char>) -> Seq<char> {
    trim_end(trim_start(s))
}

/// Whether `c` is whitespace.
pub fn is_whitespace(c: char) -> (r: bool)
    ensures
        r == is_ws(c),
{
    c == ' ' || ('\t' <= c && c <= '\r') || c == '\u{85}' || c == '\u{a0}' || c == '\u{1680}'
        || ('\u{2000}' <= c && c <= '\u{200a}') || c == '\u{2028}' || c == '\u{2029}'
        || c == '\u{202f}' || c == '\u{205f}' || c == '\u{3000}'
}

/// The characters of `s`, in order.
pub fn chars_of(s: &str) -> (r: Vec<char>)
    ensures
        r@ == s@,
{
    let n = s.unicode_len();
    let mut r: Vec<char> = Vec::with_capacity(n);
    let mut it = s.chars();
    while r.len() < n
        invariant
            n == s@.len(),
            r.len() <= n,
            it.remaining() == s@.skip(r.len() as int),
            r@ == s@.take(r.len() as int),
        decreases n - r.len(),
    {
        let c = it.next();
        assert(s@.skip(r.len() as int).len() > 0);
        match c {
            Some(c) => {
                assert(s@.take(r.len() + 1) =~= s@.take(r.len() as int).push(c));
                assert(s@.skip(r.len() + 1) =~= s@.skip(r.len() as int).drop_first());
                r.push(c);
            },
            None => {
                assert(false);
            },
        }
    }
    assert(r@ =~= s@);
    r
}

/// Whether `pat` occurs in `text` at position `i`.
pub fn matches_at(text: &Vec<char>, pat: &Vec<char>, i: usize) -> (r: bool)
    ensures
        r == occurs_at(text@, pat@, i as int),
{
    if pat.len() > text.len() || i > text.len() - pat.len() {
        return false;
    }
    let mut k: usize = 0;
    while k < pat.len()
        invariant
            i + pat.len() <= text.len(),
            k <= pat.len(),
            forall|m: int| 0 <= m < k ==> text@[i + m] == pat@[m],
        decreases pat.len() - k,
    {
        if text[i + k] != pat[k] {
            assert(text@.subrange(i as int, i + pat.len())[k as int] != pat@[k as int]);
            return false;
        }
        k += 1;
    }
    assert(text@.subrange(i as int, i + pat.len()) =~= pat@);
    true
}

/// The position of the last occurrence of `pat` in `text`.
pub fn rfind(text: &Vec<char>, pat: &Vec<char>) -> (r: Option<usize>)
    ensures
        match r {
            Some(i) => i == last_occ(text@, pat@),
            None => last_occ(text@, pat@) == -1,
        },
{
    if pat.len() > text.len() {
        return None;
    }
    let mut k: usize = text.len() - pat.len();
    loop
        invariant
            k <= text.len() - pat.len(),
            last_occ(text@, pat@) == last_occ_upto(text@, pat@, k as int),
        decreases k,
    {
        if matches_at(text, pat, k) {
            return Some(k);
        }
        if k == 0 {
            assert(last_occ_upto(text@, pat@, -1) == -1);
            return None;
        }
        k -= 1;
    }
}

/// The position of the first occurrence of `pat` in `text` at or after `from`.
pub fn find_from(text: &Vec<char>, pat: &Vec<char>, from: usize) -> (r: Option<usize>)
    ensures
        match r {
            Some(j) => j == first_occ_from(text@, pat@, from as int),
            None => first_occ_from(text@, pat@, from as int) == -1,
        },
{
    if pat.len() > text.len() || from > text.len() - pat.len() {
        return None;
    }
    let mut k: usize = from;
    loop
        invariant
            from <= k <= text.len() - pat.len(),
            first_occ_from(text@, pat@, from as int) == first_occ_from(text@, pat@, k as int),
        decreases text.len() - k,
    {
        if matches_at(text, pat, k) {
            return Some(k);
        }
        if k == text.len() - pat.len() {
            assert(first_occ_from(text@, pat@, k + 1) == -1);
            return None;
        }
        k += 1;
    }
}

/// The bounds, within `lo..hi`, of `s[lo..hi]` with its surrounding whitespace removed.
pub fn trim_bounds(s: &Vec<char>, lo: usize, hi: usize) -> (r: (usize, usize))
    requires
        lo <= hi <= s.len(),
    ensures
        lo <= r.0 <= r.1 <= hi,
        s@.subrange(r.0 as int, r.1 as int) == trim(s@.subrange(lo as int, hi as int)),
{
    let mut a: usize = lo;
    while a < hi && is_whitespace(s[a])
        invariant
            lo <= a <= hi <= s.len(),
            trim_start(s@.subrange(lo as int, hi as int)) == trim_start(
                s@.subrange(a as int, hi as int),
            ),
        decreases hi - a,
    {
        assert(s@.subrange(a + 1, hi as int) =~= s@.subrange(a as int, hi as int).drop_first());
        a += 1;
    }
    assert(trim_start(s@.subrange(a as int, hi as int)) == s@.subrange(a as int, hi as int));
    let mut b: usize = hi;
    while b > a && is_whitespace(s[b - 1])
        invariant
            lo <= a <= b <= hi <= s.len(),
            trim(s@.subrange(lo as int, hi as int)) == trim_end(s@.subrange(a as int, b as int)),
        decreases b,
    {
        assert(s@.subrange(a as int, b - 1) =~= s@.subrange(a as int, b as int).drop_last());
        b -= 1;
    }
    (a, b)
}

/// `first_occ_from` is the least occurrence at or after `from`, or -1 when there is none.
pub proof fn lemma_first_occ_from(text: Seq<char>, pat: Seq<char>, from: int)
    requires
        0 <= from,
    ensures
        ({
            let j = first_occ_from(text, pat, from);
            &&& j == -1 ==> forall|k: int| from <= k ==> !occurs_at(text, pat, k)
            &&& j != -1 ==> from <= j && occurs_at(text, pat, j) && forall|k: int|
                from <= k < j ==> !occurs_at(text, pat, k)
        }),
    decreases text.len() + 1 - from,
{
    if from + pat.len() <= text.len() && !occurs_at(text, pat, from) {
        lemma_first_occ_from(text, pat, from + 1);
    }
}

/// `last_occ_upto` is the greatest occurrence at or before `i`, or -1 when there is none.
pub proof fn lemma_last_occ_upto(text: Seq<char>, pat: Seq<char>, i: int)
    ensures
        ({
            let r = last_occ_upto(text, pat, i);
            &&& r == -1 ==> forall|k: int| k <= i ==> !occurs_at(text, pat, k)
            &&& r != -1 ==> 0 <= r <= i && occurs_at(text, pat, r) && forall|k: int|
                r < k <= i ==> !occurs_at(text, pat, k)
        }),
    decreases i + 1,
{
    if i >= 0 && !occurs_at(text, pat, i) {
        lemma_last_occ_upto(text, pat, i - 1);
    }
}

/// `last_occ` is the greatest occurrence in the whole text, or -1 when there is none.
pub proof fn lemma_last_occ(text: Seq<char>, pat: Seq<char>)
    ensures
        ({
            let r = last_occ(text, pat);
            &&& r == -1 ==> !contains_seq(text, pat)
            &&& r != -1 ==> occurs_at(text, pat, r) && forall|k: int|
                r < k ==> !occurs_at(text, pat, k)
        }),
{
    lemma_last_occ_upto(text, pat, text.len() - pat.len());
}

/// Whether `pat` occurs anywhere in `text`.
pub fn contains(text: &Vec<char>, pat: &Vec<char>) -> (r: bool)
    ensures
        r == contains_seq(text@, pat@),
{
    proof {
        lemma_first_occ_from(text@, pat@, 0);
    }
    find_from(text, pat, 0).is_some()
}

} // verus!
