//! Decimal and hexadecimal renderings of integers, used to build the
//! library's error messages.
use crate::primitives::push_char;
use vstd::prelude::*;

verus! {

/// The ASCII digit (or lower-case hex letter) for `d < 16`.
pub open spec fn digit_char(d: nat) -> char {
    if d < 10 {
        (48 + d) as char
    } else {
        (87 + d) as char
    }
}

/// Decimal rendering without leading zeros (`"0"` for zero).
pub open spec fn dec(n: nat) -> Seq<char>
    decreases n,
{
    if n < 10 {
        seq![digit_char(n)]
    } else {
        dec(n / 10).push(digit_char(n % 10))
    }
}

/// Two lower-case hexadecimal digits of a byte.
pub open spec fn hex2(b: nat) -> Seq<char> {
    seq![digit_char((b / 16) % 16), digit_char(b % 16)]
}

/// Lower-case hexadecimal rendering without leading zeros (`"0"` for zero).
pub open spec fn hex(n: nat) -> Seq<char>
    decreases n,
{
    if n < 16 {
        seq![digit_char(n)]
    } else {
        hex(n / 16).push(digit_char(n % 16))
    }
}

fn digit(d: u64) -> (c: char)
    requires
        d < 16,
    ensures
        c == digit_char(d as nat),
{
    if d < 10 {
        ((48 + d) as u8) as char
    } else {
        ((87 + d) as u8) as char
    }
}

/// Appends the decimal rendering of `n` to `s`.
pub fn push_dec(s: &mut String, n: u64)
    ensures
        final(s)@ == old(s)@ + dec(n as nat),
    decreases n,
{
    if n < 10 {
        push_char(s, digit(n));
        assert(dec(n as nat) =~= seq![digit_char(n as nat)]);
    } else {
        push_dec(s, n / 10);
        push_char(s, digit(n % 10));
    }
}

/// Appends the lower-case hexadecimal rendering of `n` to `s`.
pub fn push_hex(s: &mut String, n: u64)
    ensures
        final(s)@ == old(s)@ + hex(n as nat),
    decreases n,
{
    if n < 16 {
        push_char(s, digit(n));
        assert(hex(n as nat) =~= seq![digit_char(n as nat)]);
    } else {
        push_hex(s, n / 16);
        push_char(s, digit(n % 16));
    }
}

/// Appends two lower-case hexadecimal digits of `b` to `s`.
pub fn push_hex2(s: &mut String, b: u8)
    ensures
        final(s)@ == old(s)@ + hex2(b as nat),
{
    push_char(s, digit(((b / 16) % 16) as u64));
    push_char(s, digit((b % 16) as u64));
    assert(final(s)@ =~= old(s)@ + hex2(b as nat)) by {
        assert(hex2(b as nat) =~= seq![digit_char((b / 16) as nat % 16), digit_char(b as nat % 16)]);
    }
}

/// Appends a string slice.
pub fn push_str(s: &mut String, t: &str)
    ensures
        final(s)@ == old(s)@ + t@,
{
    s.append(t);
}

} // verus!
