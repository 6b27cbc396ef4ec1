//! Byte-exact string primitives shared by the shaper and the detector.

use vstd::prelude::*;

verus! {

use vstd::string::StringSliceAdditionalSpecFns;

/// Relies on `str::len`: the byte length of a string slice. vstd's own
/// specification truncates the length with `as usize`; this wrapper records
/// the standard guarantee that a slice held in memory is at most
/// `isize::MAX` bytes long, so its length always fits in `usize` exactly
/// (the same fact vstd's `axiom_spec_len` states for `Vec`).
#[verifier::external_body]
pub fn str_len(s: &str) -> (r: usize)
    ensures
        r == s.spec_bytes().len(),
{
    s.len()
}

/// Relies on `String::push`: appends one character at the end.
#[verifier::external_body]
pub fn string_push(s: &mut String, c: char)
    ensures
        final(s)@ == old(s)@ + seq![c],
        final(s)@ == old(s)@.push(c),
{
    s.push(c)
}

/// The decimal digit character for `d`, for `d < 10`.
pub open spec fn decimal_digit(d: int) -> char {
    if d == 0 { '0' }
    else if d == 1 { '1' }
    else if d == 2 { '2' }
    else if d == 3 { '3' }
    else if d == 4 { '4' }
    else if d == 5 { '5' }
    else if d == 6 { '6' }
    else if d == 7 { '7' }
    else if d == 8 { '8' }
    else if d == 9 { '9' }
    else { '0' }
}

/// The usual decimal rendering of `n`, with no leading zeros.
pub open spec fn decimal_of(n: int) -> Seq<char>
    decreases n,
{
    if n <= 9 {
        seq![decimal_digit(if n < 0 { 0 } else { n })]
    } else {
        decimal_of(n / 10) + seq![decimal_digit(n % 10)]
    }
}

fn digit_char(d: u64) -> (c: char)
    requires
        d < 10,
    ensures
        c == decimal_digit(d as int),
{
    match d {
        0 => '0',
        1 => '1',
        2 => '2',
        3 => '3',
        4 => '4',
        5 => '5',
        6 => '6',
        7 => '7',
        8 => '8',
        _ => '9',
    }
}

/// Appends the decimal rendering of `n` to `out`.
pub fn push_decimal(out: &mut String, n: u64)
    ensures
        final(out)@ == old(out)@ + decimal_of(n as int),
    decreases n,
{
    if n <= 9 {
        string_push(out, digit_char(n));
    } else {
        push_decimal(out, n / 10);
        string_push(out, digit_char(n % 10));
        assert(out@ == old(out)@ + decimal_of(n as int));
    }
}

} // verus!
