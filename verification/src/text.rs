//! Small string utilities shared by the front end: character-exact string
//! comparison, repetition, and decimal rendering of numbers for diagnostics.

use vstd::prelude::*;
use vstd::string::*;

verus! {

/// Relies on String::push: appends exactly the given character at the end.
#[verifier::external_body]
pub(crate) fn push_char(s: &mut String, c: char)
    ensures
        final(s)@ == old(s)@.push(c),
{
    s.push(c);
}

/// Character-exact equality of two string slices.
pub fn str_eq_str(a: &str, b: &str) -> (r: bool)
    ensures
        r == (a@ == b@),
{
    let alen = a.unicode_len();
    let blen = b.unicode_len();
    if alen != blen {
        assert(a@ != b@) by {
            assert(a@.len() != b@.len());
        }
        return false;
    }
    let mut i: usize = 0;
    while i < alen
        invariant
            alen == a@.len(),
            alen == b@.len(),
            i <= alen,
            forall|j: int| 0 <= j < i ==> a@[j] == b@[j],
        decreases alen - i,
    {
        if a.get_char(i) != b.get_char(i) {
            assert(a@ != b@) by {
                assert(a@[i as int] != b@[i as int]);
            }
            return false;
        }
        i = i + 1;
    }
    assert(a@ =~= b@);
    true
}

/// A string of `n` copies of the character `c`.
pub open spec fn spec_repeat(c: char, n: nat) -> Seq<char> {
    Seq::new(n, |i: int| c)
}

/// Builds a string of `n` copies of `c`.
pub fn char_repeat(c: char, n: usize) -> (r: String)
    ensures
        r@ == spec_repeat(c, n as nat),
{
    let mut r = String::new();
    let mut i: usize = 0;
    while i < n
        invariant
            i <= n,
            r@ =~= spec_repeat(c, i as nat),
        decreases n - i,
    {
        push_char(&mut r, c);
        assert(r@ =~= spec_repeat(c, (i + 1) as nat));
        i = i + 1;
    }
    assert(r@ =~= spec_repeat(c, n as nat));
    r
}

/// The character for a single decimal digit value.
pub open spec fn spec_digit_char(d: nat) -> char {
    ((d + 48) as u8) as char
}

/// The decimal rendering of a natural number, most significant digit first.
pub open spec fn spec_decimal(n: nat) -> Seq<char>
    decreases n,
{
    if n < 10 {
        seq![spec_digit_char(n)]
    } else {
        spec_decimal(n / 10).push(spec_digit_char(n % 10))
    }
}

/// Renders a number in decimal.
pub fn u128_to_string(n: u128) -> (r: String)
    ensures
        r@ == spec_decimal(n as nat),
    decreases n,
{
    if n < 10 {
        let mut r = String::new();
        push_char(&mut r, ((n as u8) + 48) as char);
        assert(r@ =~= spec_decimal(n as nat));
        r
    } else {
        let mut r = u128_to_string(n / 10);
        push_char(&mut r, (((n % 10) as u8) + 48) as char);
        assert(r@ =~= spec_decimal(n as nat));
        r
    }
}

/// Renders a zero-based count in one-based decimal form, as positions are
/// displayed to users.
pub fn render_one_based(n: usize) -> (r: String)
    ensures
        r@ == spec_decimal(n as nat + 1),
{
    u128_to_string(n as u128 + 1)
}

} // verus!
