//! Character-level helpers over `str` / `String` used by the parser, the
//! context's SSA-name handling and the code generator.

use vstd::prelude::*;

verus! {

/// The characters of `s`, in order.
pub fn str_to_chars(s: &str) -> (v: Vec<char>)
    ensures
        v@ == s@,
{
    let mut v: Vec<char> = Vec::new();
    for c in it: s.chars()
        invariant
            v@ == it.seq().take(it.index() as int),
            it.seq() == s@,
    {
        v.push(c);
    }
    v
}

/// Builds a `String` holding exactly the characters `cs`
/// (`FromIterator<&char> for String`).
#[verifier::external_body]
pub fn chars_to_string(cs: &Vec<char>) -> (s: String)
    ensures
        s@ == cs@,
{
    cs.iter().collect()
}

/// Character-sequence equality.
pub fn chars_eq(a: &Vec<char>, b: &Vec<char>) -> (r: bool)
    ensures
        r == (a@ == b@),
{
    if a.len() != b.len() {
        return false;
    }
    let mut i: usize = 0;
    while i < a.len()
        invariant
            a.len() == b.len(),
            0 <= i <= a.len(),
            forall|j: int| 0 <= j < i ==> a@[j] == b@[j],
        decreases a.len() - i,
    {
        if a[i] != b[i] {
            return false;
        }
        i = i + 1;
    }
    assert(a@ =~= b@);
    true
}


/// The decimal digit character for `d` (0..=9).
pub open spec fn digit_char(d: int) -> char {
    if d == 0 { '0' } else if d == 1 { '1' } else if d == 2 { '2' } else if d == 3 { '3' }
    else if d == 4 { '4' } else if d == 5 { '5' } else if d == 6 { '6' } else if d == 7 { '7' }
    else if d == 8 { '8' } else { '9' }
}

/// Decimal notation of a natural number, most significant digit first.
pub open spec fn nat_decimal(n: nat) -> Seq<char>
    decreases n,
{
    if n < 10 {
        seq![digit_char(n as int)]
    } else {
        nat_decimal(n / 10).push(digit_char((n % 10) as int))
    }
}

/// Decimal notation of an integer, with a leading `-` when negative.
pub open spec fn int_decimal(v: int) -> Seq<char> {
    if v < 0 {
        seq!['-'] + nat_decimal((-v) as nat)
    } else {
        nat_decimal(v as nat)
    }
}

fn digit(d: u64) -> (c: char)
    requires
        d < 10,
    ensures
        c == digit_char(d as int),
{
    match d {
        0 => '0',
        1 => '1',
        2 => '2',
        3 => '3',
        4 => '4',
        5 => '5',
        6 => '6',
        7 => '7',
        8 => '8',
        _ => '9',
    }
}

fn push_decimal(n: u64, out: &mut Vec<char>)
    ensures
        final(out)@ == old(out)@ + nat_decimal(n as nat),
    decreases n,
{
    if n >= 10 {
        push_decimal(n / 10, out);
    }
    out.push(digit(n % 10));
    proof {
        if n >= 10 {
            assert(old(out)@ + nat_decimal(n as nat) =~= (old(out)@ + nat_decimal((n / 10) as nat)).push(
                digit_char((n % 10) as int),
            ));
        } else {
            assert(old(out)@ + nat_decimal(n as nat) =~= old(out)@.push(digit_char((n % 10) as int)));
        }
    }
}

/// Decimal notation of `n`.
pub fn u64_to_decimal(n: u64) -> (s: String)
    ensures
        s@ == nat_decimal(n as nat),
{
    let mut cs: Vec<char> = Vec::new();
    push_decimal(n, &mut cs);
    assert(cs@ =~= nat_decimal(n as nat));
    chars_to_string(&cs)
}

/// Decimal notation of `n`.
pub fn usize_to_decimal(n: usize) -> (s: String)
    ensures
        s@ == nat_decimal(n as nat),
{
    u64_to_decimal(n as u64)
}

/// Decimal notation of `v`, with a leading `-` when negative.
pub fn i64_to_decimal(v: i64) -> (s: String)
    ensures
        s@ == int_decimal(v as int),
{
    let mut cs: Vec<char> = Vec::new();
    if v < 0 {
        cs.push('-');
        let m: u64 = ((-(v + 1)) as u64) + 1;
        push_decimal(m, &mut cs);
        assert(cs@ =~= int_decimal(v as int));
    } else {
        push_decimal(v as u64, &mut cs);
        assert(cs@ =~= int_decimal(v as int));
    }
    chars_to_string(&cs)
}


/// String equality, character by character.
pub fn str_eq(a: &str, b: &str) -> (r: bool)
    ensures
        r == (a@ == b@),
{
    let ca = str_to_chars(a);
    let cb = str_to_chars(b);
    chars_eq(&ca, &cb)
}

} // verus!
