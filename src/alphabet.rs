//! The 36-symbol digit alphabet: `'0'..='9'` then `'a'..='z'`.
use vstd::prelude::*;

verus! {

/// The smallest digit.
pub const MIN: u8 = 0;

/// The digit just above the smallest one.
pub const NEXT_MIN: u8 = 1;

/// The largest digit.
pub const MAX: u8 = 35;

/// The character of the smallest digit.
pub const MIN_CHAR: char = '0';

/// A character of the alphabet.
pub open spec fn valid_char(c: char) -> bool {
    (48 <= c as u32 && c as u32 <= 57) || (97 <= c as u32 && c as u32 <= 122)
}

/// A digit value of the alphabet.
pub open spec fn valid_digit(d: u8) -> bool {
    d <= MAX
}

/// The character that renders digit `d`.
pub open spec fn char_of(d: u8) -> char {
    if d < 10 {
        ((d + 48) as u32) as char
    } else {
        ((d + 87) as u32) as char
    }
}

/// The digit that character `c` stands for.
pub open spec fn digit_of(c: char) -> u8 {
    if (c as u32) <= 57 {
        (c as u32 - 48) as u8
    } else {
        (c as u32 - 87) as u8
    }
}

/// Decoding a character of the alphabet and encoding the digit gives the character back.
pub proof fn lemma_char_round_trip(c: char)
    requires
        valid_char(c),
    ensures
        char_of(digit_of(c)) == c,
        valid_digit(digit_of(c)),
{
    vstd::utf8::char_u32_cast(c, c as u32);
}

/// Encoding a digit and decoding the character gives the digit back.
pub proof fn lemma_digit_round_trip(d: u8)
    requires
        valid_digit(d),
    ensures
        digit_of(char_of(d)) == d,
        valid_char(char_of(d)),
        char_of(d) != MIN_CHAR || d == MIN,
{
}

pub fn is_valid_char(c: char) -> (r: bool)
    ensures
        r == valid_char(c),
{
    let u = c as u32;
    (48 <= u && u <= 57) || (97 <= u && u <= 122)
}

pub fn is_valid_u8(i: u8) -> (r: bool)
    ensures
        r == valid_digit(i),
{
    i <= MAX
}

pub fn to_char(i: u8) -> (c: char)
    requires
        valid_digit(i),
    ensures
        c == char_of(i),
        valid_char(c),
        digit_of(c) == i,
{
    if i < 10 {
        (i + 48) as char
    } else {
        (i + 87) as char
    }
}

pub fn to_u8(c: char) -> (i: u8)
    requires
        valid_char(c),
    ensures
        i == digit_of(c),
        valid_digit(i),
        char_of(i) == c,
{
    let u = c as u32;
    if u <= 57 {
        (u - 48) as u8
    } else {
        (u - 87) as u8
    }
}

} // verus!
