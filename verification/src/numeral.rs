//! Numbers written out as text, in decimal and in lower-case hexadecimal.

use vstd::prelude::*;

verus! {

/// The text of one digit, for a value below sixteen.
pub open spec fn digit(value: int) -> Seq<char> {
    if value == 0 {
        "0"@
    } else if value == 1 {
        "1"@
    } else if value == 2 {
        "2"@
    } else if value == 3 {
        "3"@
    } else if value == 4 {
        "4"@
    } else if value == 5 {
        "5"@
    } else if value == 6 {
        "6"@
    } else if value == 7 {
        "7"@
    } else if value == 8 {
        "8"@
    } else if value == 9 {
        "9"@
    } else if value == 10 {
        "a"@
    } else if value == 11 {
        "b"@
    } else if value == 12 {
        "c"@
    } else if value == 13 {
        "d"@
    } else if value == 14 {
        "e"@
    } else {
        "f"@
    }
}

/// `n` in decimal, without leading zeros.
pub open spec fn decimal(n: int) -> Seq<char>
    decreases n,
{
    if n < 10 {
        digit(n)
    } else {
        decimal(n / 10) + digit(n % 10)
    }
}

/// `n` in lower-case hexadecimal, without a prefix and without leading zeros.
pub open spec fn hexadecimal(n: int) -> Seq<char>
    decreases n,
{
    if n < 16 {
        digit(n)
    } else {
        hexadecimal(n / 16) + digit(n % 16)
    }
}

fn digit_text(value: usize) -> (text: &'static str)
    requires
        value < 16,
    ensures
        text@ == digit(value as int),
{
    if value == 0 {
        "0"
    } else if value == 1 {
        "1"
    } else if value == 2 {
        "2"
    } else if value == 3 {
        "3"
    } else if value == 4 {
        "4"
    } else if value == 5 {
        "5"
    } else if value == 6 {
        "6"
    } else if value == 7 {
        "7"
    } else if value == 8 {
        "8"
    } else if value == 9 {
        "9"
    } else if value == 10 {
        "a"
    } else if value == 11 {
        "b"
    } else if value == 12 {
        "c"
    } else if value == 13 {
        "d"
    } else if value == 14 {
        "e"
    } else {
        "f"
    }
}

/// Appends `n` in decimal.
pub fn append_decimal(text: &mut String, n: usize)
    ensures
        final(text)@ == old(text)@ + decimal(n as int),
    decreases n,
{
    if n >= 10 {
        append_decimal(text, n / 10);
    }
    text.append(digit_text(n % 10));
}

/// Appends `n` in lower-case hexadecimal.
pub fn append_hexadecimal(text: &mut String, n: usize)
    ensures
        final(text)@ == old(text)@ + hexadecimal(n as int),
    decreases n,
{
    if n >= 16 {
        append_hexadecimal(text, n / 16);
    }
    text.append(digit_text(n % 16));
}

} // verus!
