//! Character-level helpers: whitespace, trimming, case folding.

use vstd::prelude::*;
use vstd::string::*;

verus! {

/// The Unicode `White_Space` property, the set that `char::is_whitespace`
/// (and so `str::trim`) removes.
pub open spec fn is_white_space(c: char) -> bool {
    let u = c as u32;
    ||| 0x9 <= u <= 0xD
    ||| u == 0x20
    ||| u == 0x85
    ||| u == 0xA0
    ||| u == 0x1680
    ||| 0x2000 <= u <= 0x200A
    ||| u == 0x2028
    ||| u == 0x2029
    ||| u == 0x202F
    ||| u == 0x205F
    ||| u == 0x3000
}

/// Executable test of [`is_white_space`].
pub fn is_white_space_char(c: char) -> (b: bool)
    ensures
        b == is_white_space(c),
{
    let u = c as u32;
    (0x9 <= u && u <= 0xD) || u == 0x20 || u == 0x85 || u == 0xA0 || u == 0x1680 || (0x2000 <= u
        && u <= 0x200A) || u == 0x2028 || u == 0x2029 || u == 0x202F || u == 0x205F || u == 0x3000
}

/// The characters of a string, one per element.
pub fn chars_of(s: &str) -> (v: Vec<char>)
    ensures
        v@ == s@,
{
    let n = s.unicode_len();
    let mut v: Vec<char> = Vec::new();
    for i in 0..n
        invariant
            n == s@.len(),
            v@ == s@.take(i as int),
    {
        v.push(s.get_char(i));
        assert(s@.take(i + 1) == s@.take(i as int).push(s@[i as int]));
    }
    assert(s@.take(n as int) == s@);
    v
}

/// Index of the first character at or after `i` that is not white space
/// (the length when there is none).
pub open spec fn first_kept(s: Seq<char>, i: int) -> int
    decreases s.len() - i,
{
    if i >= s.len() {
        s.len() as int
    } else if !is_white_space(s[i]) {
        i
    } else {
        first_kept(s, i + 1)
    }
}

/// One past the last character before `j` that is not white space (0 when
/// there is none).
pub open spec fn last_kept(s: Seq<char>, j: int) -> int
    decreases j,
{
    if j <= 0 {
        0
    } else if !is_white_space(s[j - 1]) {
        j
    } else {
        last_kept(s, j - 1)
    }
}

/// `s` without its leading and trailing white space: what `str::trim` gives.
pub open spec fn trimmed(s: Seq<char>) -> Seq<char> {
    let lo = first_kept(s, 0);
    let hi = last_kept(s, s.len() as int);
    if lo < hi {
        s.subrange(lo, hi)
    } else {
        Seq::empty()
    }
}

proof fn lemma_last_kept_bounds(s: Seq<char>, j: int)
    requires
        0 <= j <= s.len(),
    ensures
        0 <= last_kept(s, j) <= j,
        last_kept(s, j) > 0 ==> !is_white_space(s[last_kept(s, j) - 1]),
        forall|k: int| last_kept(s, j) <= k < j ==> is_white_space(#[trigger] s[k]),
    decreases j,
{
    if j > 0 && is_white_space(s[j - 1]) {
        lemma_last_kept_bounds(s, j - 1);
    }
}

proof fn lemma_first_kept_bounds(s: Seq<char>, i: int)
    requires
        0 <= i <= s.len(),
    ensures
        i <= first_kept(s, i) <= s.len(),
        first_kept(s, i) < s.len() ==> !is_white_space(s[first_kept(s, i)]),
        forall|k: int| i <= k < first_kept(s, i) ==> is_white_space(#[trigger] s[k]),
    decreases s.len() - i,
{
    if i < s.len() && is_white_space(s[i]) {
        lemma_first_kept_bounds(s, i + 1);
    }
}

/// Removes leading and trailing white space, as `str::trim` does.
pub fn trim(s: &str) -> (r: &str)
    ensures
        r@ == trimmed(s@),
{
    let n = s.unicode_len();
    let mut lo: usize = 0;
    while lo < n && is_white_space_char(s.get_char(lo))
        invariant
            n == s@.len(),
            lo <= n,
            first_kept(s@, 0) == first_kept(s@, lo as int),
        decreases n - lo,
    {
        lo = lo + 1;
    }
    proof {
        lemma_first_kept_bounds(s@, 0);
    }
    let mut hi: usize = n;
    while hi > lo && is_white_space_char(s.get_char(hi - 1))
        invariant
            n == s@.len(),
            lo <= hi <= n,
            lo == first_kept(s@, 0),
            lo < n ==> !is_white_space(s@[lo as int]) && hi > lo,
            last_kept(s@, n as int) == last_kept(s@, hi as int),
        decreases hi,
    {
        hi = hi - 1;
    }
    proof {
        lemma_last_kept_bounds(s@, n as int);
        lemma_last_kept_bounds(s@, hi as int);
    }
    s.substring_char(lo, hi)
}

/// `c` with `A`-`Z` mapped to `a`-`z`.
pub open spec fn ascii_lower(c: char) -> char {
    if 65 <= (c as u32) <= 90 {
        ((c as u32) + 32) as char
    } else {
        c
    }
}

/// Every character of `s` is ASCII.
pub open spec fn all_ascii(s: Seq<char>) -> bool {
    forall|i: int| 0 <= i < s.len() ==> (s[i] as u32) < 128
}

/// What `str::to_lowercase` gives for a string with the characters `s`.
pub uninterp spec fn lowercase(s: Seq<char>) -> Seq<char>;

/// Calls `str::to_lowercase`. Its result is named [`lowercase`]; on an ASCII
/// string the standard library maps exactly `A`-`Z` to `a`-`z` and keeps the
/// rest, which the contract states. The full Unicode case mapping of other
/// characters is left unsaid.
#[verifier::external_body]
pub(crate) fn to_lowercase(s: &str) -> (r: String)
    ensures
        r@ == lowercase(s@),
        all_ascii(s@) ==> r@ == s@.map_values(|c: char| ascii_lower(c)),
{
    s.to_lowercase()
}

/// Trimming cuts a piece out of the middle: everything before and after it is
/// white space, and a non-empty result starts and ends with a character that
/// is not.
pub proof fn lemma_trim_law(s: Seq<char>)
    ensures
        exists|lo: int, hi: int|
            0 <= lo <= hi <= s.len() && #[trigger] s.subrange(lo, hi) == trimmed(s) && (forall|k: int|
                0 <= k < lo ==> is_white_space(#[trigger] s[k])) && (forall|k: int|
                hi <= k < s.len() ==> is_white_space(#[trigger] s[k])),
        trimmed(s).len() > 0 ==> !is_white_space(trimmed(s)[0]) && !is_white_space(
            trimmed(s)[trimmed(s).len() - 1],
        ),
{
    lemma_first_kept_bounds(s, 0);
    lemma_last_kept_bounds(s, s.len() as int);
    let lo = first_kept(s, 0);
    let hi = last_kept(s, s.len() as int);
    if lo < hi {
        assert(s.subrange(lo, hi) == trimmed(s));
    } else {
        assert forall|k: int| 0 <= k < s.len() implies is_white_space(#[trigger] s[k]) by {
            if !is_white_space(s[k]) {
                assert(k >= lo);
                assert(k < hi);
            }
        }
        assert(s.subrange(0, 0) =~= trimmed(s));
    }
}

} // verus!
