//! Text building: decimal and hexadecimal numerals, character pushes,
//! printable-byte rendering.
use vstd::prelude::*;

verus! {

/// The digit character for `d`: `0`-`9`, then `A`-`F` for the hexadecimal digits.
pub open spec fn digit_char(d: nat) -> char {
    if d < 10 { ((d + 48) as u8) as char } else { ((d + 55) as u8) as char }
}

/// Decimal numeral of `n`, without leading zeros (as `{}` prints it).
pub open spec fn dec(n: nat) -> Seq<char>
    decreases n,
{
    if n < 10 {
        seq![digit_char(n)]
    } else {
        dec(n / 10) + seq![digit_char(n % 10)]
    }
}

/// Upper-case hexadecimal numeral of `n`, without prefix or leading zeros
/// (as `{:X}` prints it).
pub open spec fn hex(n: nat) -> Seq<char>
    decreases n,
{
    if n < 16 {
        seq![digit_char(n)]
    } else {
        hex(n / 16) + seq![digit_char(n % 16)]
    }
}

/// `String::push`: appends one character.
#[verifier::external_body]
pub(crate) fn push_char(s: &mut String, c: char)
    ensures
        final(s)@ == old(s)@.push(c),
{
    s.push(c);
}

fn digit(d: usize) -> (c: char)
    requires
        d < 16,
    ensures
        c == digit_char(d as nat),
{
    if d < 10 {
        ((d + 48) as u8) as char
    } else {
        ((d + 55) as u8) as char
    }
}

fn radix_string(n: usize, base: usize) -> (s: String)
    requires
        base == 10 || base == 16,
    ensures
        base == 10 ==> s@ == dec(n as nat),
        base == 16 ==> s@ == hex(n as nat),
    decreases n,
{
    if n < base {
        let mut s = String::new();
        push_char(&mut s, digit(n));
        assert(s@ =~= seq![digit_char(n as nat)]);
        s
    } else {
        let mut s = radix_string(n / base, base);
        push_char(&mut s, digit(n % base));
        s
    }
}

/// An optional string as its characters.
pub open spec fn opt_view(p: Option<String>) -> Option<Seq<char>> {
    match p {
        Some(s) => Some(s@),
        None => None,
    }
}

/// A new string holding `s`.
pub fn owned(s: &str) -> (r: String)
    ensures
        r@ == s@,
{
    String::from_str(s)
}

/// Appends the decimal numeral of `n`.
pub fn append_decimal(s: &mut String, n: usize)
    ensures
        final(s)@ == old(s)@ + dec(n as nat),
{
    let d = decimal(n);
    s.append(d.as_str());
}

/// Appends the upper-case hexadecimal numeral of `n`.
pub fn append_hex(s: &mut String, n: usize)
    ensures
        final(s)@ == old(s)@ + hex(n as nat),
{
    let d = hex_upper(n);
    s.append(d.as_str());
}

/// `format!("{}", n)`.
pub fn decimal(n: usize) -> (s: String)
    ensures
        s@ == dec(n as nat),
{
    radix_string(n, 10)
}

/// `format!("{:X}", n)`.
pub fn hex_upper(n: usize) -> (s: String)
    ensures
        s@ == hex(n as nat),
{
    radix_string(n, 16)
}

} // verus!
