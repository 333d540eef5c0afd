//! Character-level scanning over `Vec<char>` text: searching, trimming,
//! sub-ranges and decimal integer literals. The parser and the code
//! generator are built on these.

use vstd::prelude::*;
use crate::text::str_to_chars;

verus! {

/// Whitespace as the text format knows it.
pub open spec fn is_ws(c: char) -> bool {
    c == ' ' || c == '\t' || c == '\n' || c == '\r' || c == '\x0B' || c == '\x0C'
}

/// An ASCII decimal digit.
pub open spec fn is_digit(c: char) -> bool {
    '0' <= c && c <= '9'
}

/// An ASCII letter or digit.
pub open spec fn is_alnum(c: char) -> bool {
    is_digit(c) || ('a' <= c && c <= 'z') || ('A' <= c && c <= 'Z')
}

/// `pat` occurs in `s` starting at `i`.
pub open spec fn matches_at(s: Seq<char>, i: int, pat: Seq<char>) -> bool {
    0 <= i && i + pat.len() <= s.len() && s.subrange(i, i + pat.len()) == pat
}

/// `pat` occurs somewhere in `s`.
pub open spec fn contains_seq(s: Seq<char>, pat: Seq<char>) -> bool {
    exists|i: int| #[trigger] matches_at(s, i, pat)
}

/// Whether `c` is whitespace.
pub fn ws(c: char) -> (b: bool)
    ensures
        b == is_ws(c),
{
    c == ' ' || c == '\t' || c == '\n' || c == '\r' || c == '\x0B' || c == '\x0C'
}

/// Whether `c` is an ASCII digit.
pub fn digit(c: char) -> (b: bool)
    ensures
        b == is_digit(c),
{
    '0' <= c && c <= '9'
}

/// Whether `c` is an ASCII letter or digit.
pub fn alnum(c: char) -> (b: bool)
    ensures
        b == is_alnum(c),
{
    ('0' <= c && c <= '9') || ('a' <= c && c <= 'z') || ('A' <= c && c <= 'Z')
}

/// Whether `pat` occurs in `s` at `i`.
pub fn matches_at_exec(s: &Vec<char>, i: usize, pat: &Vec<char>) -> (b: bool)
    ensures
        b == matches_at(s@, i as int, pat@),
{
    if i > s.len() || pat.len() > s.len() - i {
        return false;
    }
    let mut k: usize = 0;
    while k < pat.len()
        invariant
            i + pat@.len() <= s@.len(),
            0 <= k <= pat@.len(),
            forall|j: int| 0 <= j < k ==> s@[i + j] == pat@[j],
        decreases pat@.len() - k,
    {
        let n = s.len();
        assert(i + k < n);
        let ik = i + k;
        if s[ik] != pat[k] {
            assert(s@.subrange(i as int, i + pat@.len())[k as int] != pat@[k as int]);
            return false;
        }
        k = k + 1;
    }
    assert(s@.subrange(i as int, i + pat@.len()) =~= pat@);
    true
}

/// The first occurrence of `pat` in `s` at or after `from`.
pub fn find_from(s: &Vec<char>, from: usize, pat: &Vec<char>) -> (r: Option<usize>)
    ensures
        r matches Some(i) ==> from <= i && matches_at(s@, i as int, pat@) && forall|j: int|
            from <= j < i ==> !#[trigger] matches_at(s@, j, pat@),
        r is None ==> forall|j: int| from <= j ==> !#[trigger] matches_at(s@, j, pat@),
{
    if from > s.len() {
        return None;
    }
    let mut i: usize = from;
    while i < s.len()
        invariant
            from <= i <= s@.len(),
            forall|j: int| from <= j < i ==> !#[trigger] matches_at(s@, j, pat@),
        decreases s@.len() - i,
    {
        if matches_at_exec(s, i, pat) {
            return Some(i);
        }
        i = i + 1;
    }
    if matches_at_exec(s, i, pat) {
        return Some(i);
    }
    None
}

/// The first position at or after `from` where `pat` occurs.
pub open spec fn str_pos(s: Seq<char>, from: int, pat: Seq<char>) -> Option<int>
    decreases s.len() + 1 - from,
{
    if from < 0 || from > s.len() {
        None
    } else if matches_at(s, from, pat) {
        Some(from)
    } else {
        str_pos(s, from + 1, pat)
    }
}

proof fn lemma_str_pos(s: Seq<char>, from: int, pat: Seq<char>, k: int)
    requires
        0 <= from <= k <= s.len() + 1,
        forall|j: int| from <= j < k ==> !#[trigger] matches_at(s, j, pat),
        k <= s.len() ==> matches_at(s, k, pat),
    ensures
        str_pos(s, from, pat) == (if k <= s.len() {
            Some(k)
        } else {
            None
        }),
    decreases k - from,
{
    if from < k {
        lemma_str_pos(s, from + 1, pat, k);
    }
}

/// A found position is at or after `from` and `pat` occurs there.
pub proof fn lemma_str_pos_range(s: Seq<char>, from: int, pat: Seq<char>)
    ensures
        str_pos(s, from, pat) matches Some(i) ==> from <= i && matches_at(s, i, pat),
    decreases s.len() + 1 - from,
{
    if 0 <= from <= s.len() && !matches_at(s, from, pat) {
        lemma_str_pos_range(s, from + 1, pat);
    }
}

/// The first occurrence of `pat` (given as `&str`) in `s` at or after `from`.
pub fn find_str(s: &Vec<char>, from: usize, pat: &str) -> (r: Option<usize>)
    ensures
        r matches Some(i) ==> from <= i && matches_at(s@, i as int, pat@) && forall|j: int|
            from <= j < i ==> !#[trigger] matches_at(s@, j, pat@),
        r is None ==> forall|j: int| from <= j ==> !#[trigger] matches_at(s@, j, pat@),
        r matches Some(i) ==> str_pos(s@, from as int, pat@) == Some(i as int),
        r is None ==> str_pos(s@, from as int, pat@) is None,
{
    let p = str_to_chars(pat);
    let r = find_from(s, from, &p);
    proof {
        match r {
            Some(i) => {
                lemma_str_pos(s@, from as int, pat@, i as int);
            },
            None => {
                if from <= s@.len() {
                    lemma_str_pos(s@, from as int, pat@, s@.len() as int + 1);
                }
            },
        }
    }
    r
}

/// The last position at or below `i` where `pat` occurs.
pub open spec fn rstr_from(s: Seq<char>, i: int, pat: Seq<char>) -> Option<int>
    decreases i + 1,
{
    if i < 0 {
        None
    } else if matches_at(s, i, pat) {
        Some(i)
    } else {
        rstr_from(s, i - 1, pat)
    }
}

/// The last position where `pat` occurs in `s`.
pub open spec fn rstr_pos(s: Seq<char>, pat: Seq<char>) -> Option<int> {
    rstr_from(s, s.len() as int, pat)
}

proof fn lemma_rstr_from(s: Seq<char>, i: int, pat: Seq<char>, k: int)
    requires
        -1 <= k <= i,
        forall|j: int| k < j <= i ==> !#[trigger] matches_at(s, j, pat),
        k >= 0 ==> matches_at(s, k, pat),
    ensures
        rstr_from(s, i, pat) == (if k >= 0 {
            Some(k)
        } else {
            None
        }),
    decreases i - k,
{
    if k < i {
        lemma_rstr_from(s, i - 1, pat, k);
    }
}

/// A found position is one where `pat` occurs, within `s`.
pub proof fn lemma_rstr_range(s: Seq<char>, i: int, pat: Seq<char>)
    ensures
        rstr_from(s, i, pat) matches Some(k) ==> 0 <= k <= i && matches_at(s, k, pat) && k + pat.len() <= s.len(),
    decreases i + 1,
{
    if i >= 0 && !matches_at(s, i, pat) {
        lemma_rstr_range(s, i - 1, pat);
    }
}

/// The last occurrence of `pat` in `s`.
pub fn rfind_str(s: &Vec<char>, pat: &str) -> (r: Option<usize>)
    ensures
        r matches Some(i) ==> matches_at(s@, i as int, pat@) && forall|j: int|
            i < j ==> !#[trigger] matches_at(s@, j, pat@),
        r is None ==> forall|j: int| !#[trigger] matches_at(s@, j, pat@),
        r matches Some(i) ==> rstr_pos(s@, pat@) == Some(i as int),
        r is None ==> rstr_pos(s@, pat@) is None,
{
    let r = rfind_inner(s, pat);
    proof {
        match r {
            Some(i) => {
                lemma_rstr_from(s@, s@.len() as int, pat@, i as int);
            },
            None => {
                lemma_rstr_from(s@, s@.len() as int, pat@, -1);
            },
        }
    }
    r
}

fn rfind_inner(s: &Vec<char>, pat: &str) -> (r: Option<usize>)
    ensures
        r matches Some(i) ==> i <= s@.len() && matches_at(s@, i as int, pat@) && forall|j: int|
            i < j ==> !#[trigger] matches_at(s@, j, pat@),
        r is None ==> forall|j: int| !#[trigger] matches_at(s@, j, pat@),
{
    let p = str_to_chars(pat);
    let mut i: usize = s.len();
    assert forall|j: int| i < j implies !#[trigger] matches_at(s@, j, p@) by {}
    if matches_at_exec(s, i, &p) {
        return Some(i);
    }
    while i > 0
        invariant
            i <= s@.len(),
            p@ == pat@,
            forall|j: int| i <= j ==> !#[trigger] matches_at(s@, j, p@),
        decreases i,
    {
        i = i - 1;
        if matches_at_exec(s, i, &p) {
            return Some(i);
        }
    }
    None
}

/// The first position at or after `from` holding `c`.
pub open spec fn char_pos(s: Seq<char>, from: int, c: char) -> Option<int>
    decreases s.len() - from,
{
    if from < 0 || from >= s.len() {
        None
    } else if s[from] == c {
        Some(from)
    } else {
        char_pos(s, from + 1, c)
    }
}

proof fn lemma_char_pos(s: Seq<char>, from: int, c: char, k: int)
    requires
        0 <= from <= k <= s.len(),
        forall|j: int| from <= j < k ==> s[j] != c,
        k < s.len() ==> s[k] == c,
    ensures
        char_pos(s, from, c) == (if k < s.len() {
            Some(k)
        } else {
            None
        }),
    decreases k - from,
{
    if from < k {
        lemma_char_pos(s, from + 1, c, k);
    }
}

/// A found position is at or after `from` and holds `c`.
pub proof fn lemma_char_pos_range(s: Seq<char>, from: int, c: char)
    ensures
        char_pos(s, from, c) matches Some(i) ==> from <= i < s.len() && s[i] == c,
    decreases s.len() - from,
{
    if 0 <= from < s.len() && s[from] != c {
        lemma_char_pos_range(s, from + 1, c);
    }
}

/// The first position at or after `from` holding `c`.
pub fn find_char(s: &Vec<char>, from: usize, c: char) -> (r: Option<usize>)
    ensures
        r matches Some(i) ==> from <= i < s@.len() && s@[i as int] == c && forall|j: int|
            from <= j < i ==> s@[j] != c,
        r is None ==> forall|j: int| from <= j < s@.len() ==> s@[j] != c,
        r matches Some(i) ==> char_pos(s@, from as int, c) == Some(i as int),
        r is None ==> char_pos(s@, from as int, c) is None,
{
    let mut i: usize = from;
    while i < s.len()
        invariant
            from <= i,
            forall|j: int| from <= j < i ==> s@[j] != c,
        decreases s@.len() - i,
    {
        if s[i] == c {
            proof {
                lemma_char_pos(s@, from as int, c, i as int);
            }
            return Some(i);
        }
        i = i + 1;
    }
    proof {
        if from <= s@.len() {
            lemma_char_pos(s@, from as int, c, s@.len() as int);
        }
    }
    None
}

/// `s[a..b]` as a new vector.
pub fn slice_chars(s: &Vec<char>, a: usize, b: usize) -> (r: Vec<char>)
    requires
        a <= b <= s@.len(),
    ensures
        r@ == s@.subrange(a as int, b as int),
{
    let mut r: Vec<char> = Vec::new();
    let mut i: usize = a;
    while i < b
        invariant
            a <= i <= b <= s@.len(),
            r@ == s@.subrange(a as int, i as int),
        decreases b - i,
    {
        r.push(s[i]);
        i = i + 1;
    }
    r
}

/// `s` with leading and trailing whitespace removed.
pub open spec fn trimmed(s: Seq<char>) -> Seq<char> {
    if trim_lo(s) < trim_hi(s) {
        s.subrange(trim_lo(s), trim_hi(s))
    } else {
        Seq::empty()
    }
}

/// Position of the first non-whitespace character (`s.len()` if none).
pub open spec fn trim_lo(s: Seq<char>) -> int
    decreases s.len(),
{
    if s.len() == 0 {
        0
    } else if is_ws(s[0]) {
        1 + trim_lo(s.drop_first())
    } else {
        0
    }
}

/// One past the last non-whitespace character, never below `trim_lo`.
pub open spec fn trim_hi(s: Seq<char>) -> int
    decreases s.len(),
{
    if s.len() == 0 {
        0
    } else if is_ws(s.last()) {
        trim_hi(s.drop_last())
    } else {
        s.len() as int
    }
}

proof fn lemma_trim_lo_bounds(s: Seq<char>)
    ensures
        0 <= trim_lo(s) <= s.len(),
        forall|j: int| 0 <= j < trim_lo(s) ==> is_ws(s[j]),
        trim_lo(s) < s.len() ==> !is_ws(s[trim_lo(s)]),
    decreases s.len(),
{
    if s.len() > 0 && is_ws(s[0]) {
        lemma_trim_lo_bounds(s.drop_first());
        assert forall|j: int| 0 <= j < trim_lo(s) implies is_ws(s[j]) by {
            if j > 0 {
                assert(s[j] == s.drop_first()[j - 1]);
            }
        }
    }
}

proof fn lemma_trim_hi_bounds(s: Seq<char>)
    ensures
        0 <= trim_hi(s) <= s.len(),
        forall|j: int| trim_hi(s) <= j < s.len() ==> is_ws(s[j]),
        trim_hi(s) > 0 ==> !is_ws(s[trim_hi(s) - 1]),
    decreases s.len(),
{
    if s.len() > 0 && is_ws(s.last()) {
        lemma_trim_hi_bounds(s.drop_last());
        assert forall|j: int| trim_hi(s) <= j < s.len() implies is_ws(s[j]) by {
            if j < s.len() - 1 {
                assert(s[j] == s.drop_last()[j]);
            }
        }
    }
}

proof fn lemma_trim_lo_char(s: Seq<char>, i: int)
    requires
        0 <= i <= s.len(),
        forall|j: int| 0 <= j < i ==> is_ws(s[j]),
        i < s.len() ==> !is_ws(s[i]),
    ensures
        trim_lo(s) == i,
    decreases s.len(),
{
    if s.len() > 0 && i > 0 {
        assert forall|j: int| 0 <= j < i - 1 implies is_ws(s.drop_first()[j]) by {
            assert(s.drop_first()[j] == s[j + 1]);
        }
        lemma_trim_lo_char(s.drop_first(), i - 1);
    }
}

proof fn lemma_trim_hi_char(s: Seq<char>, k: int)
    requires
        0 <= k <= s.len(),
        forall|j: int| k <= j < s.len() ==> is_ws(s[j]),
        k > 0 ==> !is_ws(s[k - 1]),
    ensures
        trim_hi(s) == k,
    decreases s.len(),
{
    if s.len() > 0 && k < s.len() {
        assert forall|j: int| k <= j < s.len() - 1 implies is_ws(s.drop_last()[j]) by {
            assert(s.drop_last()[j] == s[j]);
        }
        lemma_trim_hi_char(s.drop_last(), k);
    }
}

/// Leading / trailing whitespace bounds of `s`: `(lo, hi)` with
/// `trimmed(s) == s[lo..hi]`.
pub fn trim_bounds(s: &Vec<char>) -> (r: (usize, usize))
    ensures
        r.0 == trim_lo(s@),
        r.1 == trim_hi(s@),
        r.0 <= r.1 <= s@.len() || (r.0 == s@.len() && r.1 == 0),
{
    let mut lo: usize = 0;
    while lo < s.len() && ws(s[lo])
        invariant
            0 <= lo <= s@.len(),
            forall|j: int| 0 <= j < lo ==> is_ws(s@[j]),
        decreases s@.len() - lo,
    {
        lo = lo + 1;
    }
    let mut hi: usize = s.len();
    while hi > 0 && ws(s[hi - 1])
        invariant
            0 <= hi <= s@.len(),
            forall|j: int| hi <= j < s@.len() ==> is_ws(s@[j]),
        decreases hi,
    {
        hi = hi - 1;
    }
    proof {
        lemma_trim_lo_char(s@, lo as int);
        lemma_trim_hi_char(s@, hi as int);
        if lo > hi {
            // every character is whitespace
            assert(lo == s@.len()) by {
                if lo < s@.len() {
                    assert(!is_ws(s@[lo as int]));
                    assert(lo as int >= hi as int);
                }
            }
            assert(hi == 0) by {
                if hi > 0 {
                    assert(!is_ws(s@[hi - 1]));
                }
            }
        }
    }
    (lo, hi)
}

/// `s` without leading and trailing whitespace.
pub fn trim(s: &Vec<char>) -> (r: Vec<char>)
    ensures
        r@ == trimmed(s@),
{
    let (lo, hi) = trim_bounds(s);
    if lo >= hi {
        return Vec::new();
    }
    slice_chars(s, lo, hi)
}

/// Whether `s` starts with `pat`.
pub fn starts_with(s: &Vec<char>, pat: &str) -> (b: bool)
    ensures
        b == matches_at(s@, 0, pat@),
{
    let p = str_to_chars(pat);
    matches_at_exec(s, 0, &p)
}

/// Whether `s` ends with `pat`.
pub fn ends_with(s: &Vec<char>, pat: &str) -> (b: bool)
    ensures
        b == (pat@.len() <= s@.len() && matches_at(s@, s@.len() - pat@.len(), pat@)),
{
    let p = str_to_chars(pat);
    if p.len() > s.len() {
        return false;
    }
    matches_at_exec(s, s.len() - p.len(), &p)
}

/// Whether `pat` occurs in `s`.
pub fn contains(s: &Vec<char>, pat: &str) -> (b: bool)
    ensures
        b == contains_seq(s@, pat@),
{
    match find_str(s, 0, pat) {
        Some(_) => true,
        None => {
            assert forall|j: int| !#[trigger] matches_at(s@, j, pat@) by {
                if j >= 0 {
                    assert(!matches_at(s@, j, pat@));
                }
            }
            false
        },
    }
}

/// Value of a decimal digit character (0 for any other character).
pub open spec fn digit_of(c: char) -> nat {
    if is_digit(c) {
        (c as int - '0' as int) as nat
    } else {
        0
    }
}

/// Value of a string of decimal digits.
pub open spec fn digits_value(s: Seq<char>) -> nat
    decreases s.len(),
{
    if s.len() == 0 {
        0
    } else {
        digits_value(s.drop_last()) * 10 + digit_of(s.last())
    }
}

/// All characters are digits.
pub open spec fn all_digits(s: Seq<char>) -> bool {
    forall|i: int| 0 <= i < s.len() ==> is_digit(#[trigger] s[i])
}

/// The value of a nonempty digit string, when it fits in a `u64`.
pub fn parse_u64(s: &Vec<char>) -> (r: Option<u64>)
    ensures
        r matches Some(v) ==> s@.len() > 0 && all_digits(s@) && v == digits_value(s@),
        r is None ==> s@.len() == 0 || !all_digits(s@) || digits_value(s@) > u64::MAX,
{
    if s.len() == 0 {
        return None;
    }
    let mut v: u64 = 0;
    let mut i: usize = 0;
    while i < s.len()
        invariant
            0 <= i <= s@.len(),
            all_digits(s@.subrange(0, i as int)),
            v == digits_value(s@.subrange(0, i as int)),
        decreases s@.len() - i,
    {
        let c = s[i];
        assert(s@.subrange(0, i + 1).drop_last() =~= s@.subrange(0, i as int));
        if !digit(c) {
            assert(!is_digit(s@[i as int]));
            return None;
        }
        let d: u64 = (c as u32 - '0' as u32) as u64;
        if v > (u64::MAX - d) / 10 {
            proof {
                lemma_digits_prefix_monotone(s@, i + 1);
            }
            return None;
        }
        v = v * 10 + d;
        i = i + 1;
    }
    assert(s@.subrange(0, s@.len() as int) =~= s@);
    Some(v)
}

proof fn lemma_digits_prefix_monotone(s: Seq<char>, k: int)
    requires
        0 <= k <= s.len(),
    ensures
        all_digits(s) ==> digits_value(s.subrange(0, k)) <= digits_value(s),
    decreases s.len() - k,
{
    if k < s.len() && all_digits(s) {
        lemma_digits_prefix_monotone(s, k + 1);
        assert(s.subrange(0, k + 1).drop_last() =~= s.subrange(0, k));
        assert(is_digit(s[k]));
    }
    if k == s.len() {
        assert(s.subrange(0, k) =~= s);
    }
}

/// The value of a decimal integer literal with an optional sign, when it fits
/// in an `i64`.
pub open spec fn int_literal_value(s: Seq<char>) -> Option<int> {
    if s.len() > 0 && (s[0] == '-' || s[0] == '+') {
        let rest = s.drop_first();
        if rest.len() > 0 && all_digits(rest) {
            Some(if s[0] == '-' {
                -(digits_value(rest) as int)
            } else {
                digits_value(rest) as int
            })
        } else {
            None
        }
    } else if s.len() > 0 && all_digits(s) {
        Some(digits_value(s) as int)
    } else {
        None
    }
}

/// See [`int_literal_value`].
pub fn parse_i64(s: &Vec<char>) -> (r: Option<i64>)
    ensures
        r matches Some(v) ==> int_literal_value(s@) == Some(v as int),
        r is None ==> !(int_literal_value(s@) matches Some(v) && i64::MIN <= v <= i64::MAX),
{
    if s.len() > 0 && (s[0] == '-' || s[0] == '+') {
        let rest = slice_chars(s, 1, s.len());
        assert(rest@ =~= s@.drop_first());
        match parse_u64(&rest) {
            Some(m) => {
                if s[0] == '-' {
                    if m <= 0x8000_0000_0000_0000u64 {
                        if m == 0x8000_0000_0000_0000u64 {
                            Some(i64::MIN)
                        } else {
                            Some(-(m as i64))
                        }
                    } else {
                        None
                    }
                } else {
                    if m <= 0x7fff_ffff_ffff_ffffu64 {
                        Some(m as i64)
                    } else {
                        None
                    }
                }
            },
            None => None,
        }
    } else {
        match parse_u64(s) {
            Some(m) => {
                if m <= 0x7fff_ffff_ffff_ffffu64 {
                    Some(m as i64)
                } else {
                    None
                }
            },
            None => None,
        }
    }
}


/// Trimming twice is trimming once.
pub proof fn lemma_trimmed_idempotent(s: Seq<char>)
    ensures
        trimmed(trimmed(s)) == trimmed(s),
{
    lemma_trim_lo_bounds(s);
    lemma_trim_hi_bounds(s);
    let t = trimmed(s);
    if trim_lo(s) < trim_hi(s) {
        assert(t[0] == s[trim_lo(s)]);
        assert(t[t.len() - 1] == s[trim_hi(s) - 1]);
        lemma_trim_lo_char(t, 0);
        lemma_trim_hi_char(t, t.len() as int);
        assert(t.subrange(0, t.len() as int) =~= t);
    } else {
        assert(t.len() == 0);
        lemma_trim_lo_char(t, 0);
        lemma_trim_hi_char(t, 0);
    }
}

} // verus!
