//! Decimal and hexadecimal text for integers, built without `format!`.

use vstd::prelude::*;
use vstd::string::*;

verus! {

/// The ASCII digit for `d` (0 through 9).
pub open spec fn digit_char(d: int) -> char {
    (48 + d) as char
}

/// Base-10 digits of `n`, most significant first, without leading zeros.
pub open spec fn decimal(n: nat) -> Seq<char>
    decreases n,
{
    if n < 10 {
        seq![digit_char(n as int)]
    } else {
        decimal(n / 10).push(digit_char((n % 10) as int))
    }
}

/// Base-10 text of `v`, with a leading `-` when it is negative.
pub open spec fn signed_decimal(v: int) -> Seq<char> {
    if v < 0 {
        seq!['-'] + decimal((-v) as nat)
    } else {
        decimal(v as nat)
    }
}

/// The upper-case hexadecimal digit for `d` (0 through 15).
pub open spec fn hex_char(d: int) -> char {
    if d < 10 {
        (48 + d) as char
    } else {
        (55 + d) as char
    }
}

/// Two upper-case hexadecimal digits for a byte, high nibble first.
pub open spec fn hex_byte(b: u8) -> Seq<char> {
    seq![hex_char(b as int / 16), hex_char(b as int % 16)]
}

/// A one-character string holding the hexadecimal digit for `d`.
fn hex_digit_str(d: u8) -> (s: &'static str)
    requires
        d < 16,
    ensures
        s@ == seq![hex_char(d as int)],
{
    let table = "0123456789ABCDEF";
    proof {
        reveal_strlit("0123456789ABCDEF");
    }
    let s = table.substring_ascii(d as usize, d as usize + 1);
    proof {
        assert(s@.len() == 1);
        assert(s@[0] == table@[d as int]);
        if d == 0 { } else if d == 1 { } else if d == 2 { } else if d == 3 { }
        else if d == 4 { } else if d == 5 { } else if d == 6 { } else if d == 7 { }
        else if d == 8 { } else if d == 9 { } else if d == 10 { } else if d == 11 { }
        else if d == 12 { } else if d == 13 { } else if d == 14 { } else { }
        assert(s@ =~= seq![hex_char(d as int)]);
    }
    s
}

/// Appends the two hexadecimal digits of `b` to `s`.
pub fn push_hex_byte(s: &mut String, b: u8)
    ensures
        final(s)@ == old(s)@ + hex_byte(b),
{
    s.append(hex_digit_str(b / 16));
    s.append(hex_digit_str(b % 16));
    assert(final(s)@ =~= old(s)@ + hex_byte(b));
}

/// The base-10 text of `n`.
pub fn decimal_string(n: u128) -> (s: String)
    ensures
        s@ == decimal(n as nat),
    decreases n,
{
    if n < 10 {
        let s = String::from_str(hex_digit_str(n as u8));
        s
    } else {
        let mut s = decimal_string(n / 10);
        s.append(hex_digit_str((n % 10) as u8));
        assert(s@ =~= decimal(n as nat));
        s
    }
}

/// The base-10 text of `v`, with a leading `-` when it is negative.
pub fn signed_decimal_string(v: i128) -> (s: String)
    ensures
        s@ == signed_decimal(v as int),
{
    if v < 0 {
        let magnitude: u128 = ((-(v + 1)) as u128) + 1;
        let mut s = String::from_str("-");
        proof {
            reveal_strlit("-");
        }
        let digits = decimal_string(magnitude);
        s.append(digits.as_str());
        assert(s@ =~= signed_decimal(v as int));
        s
    } else {
        decimal_string(v as u128)
    }
}

} // verus!
