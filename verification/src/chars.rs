//! Character classes the scanner decides by: decimal digits, ASCII
//! letters, ASCII punctuation or blank, and the delimiter set that ends a
//! string literal's lookahead.

use vstd::prelude::*;

verus! {

/// A decimal digit.
pub open spec fn is_digit(c: char) -> bool {
    48 <= c as u32 && c as u32 <= 57
}

/// A decimal digit or the decimal point.
pub open spec fn is_digit_or_dot(c: char) -> bool {
    is_digit(c) || c == '.'
}

/// An ASCII letter.
pub open spec fn is_alpha(c: char) -> bool {
    (97 <= c as u32 && c as u32 <= 122) || (65 <= c as u32 && c as u32 <= 90)
}

/// An ASCII punctuation character or a blank: what ends a word scan.
pub open spec fn is_word_end(c: char) -> bool {
    ||| (33 <= c as u32 && c as u32 <= 47)
    ||| (58 <= c as u32 && c as u32 <= 64)
    ||| (91 <= c as u32 && c as u32 <= 96)
    ||| (123 <= c as u32 && c as u32 <= 126)
    ||| c == ' '
}

/// A delimiter the string lookahead searches for: the pair separator, the
/// key separator, or a container bracket.
pub open spec fn is_delim(c: char) -> bool {
    c == ':' || c == ',' || c == '{' || c == '}' || c == '[' || c == ']'
}

/// Decides `is_digit`.
pub fn digit_char(c: char) -> (r: bool)
    ensures
        r == is_digit(c),
{
    let u = c as u32;
    48 <= u && u <= 57
}

/// Decides `is_digit_or_dot`.
pub fn digit_or_dot_char(c: char) -> (r: bool)
    ensures
        r == is_digit_or_dot(c),
{
    digit_char(c) || c == '.'
}

/// Decides `is_alpha`.
pub fn alpha_char(c: char) -> (r: bool)
    ensures
        r == is_alpha(c),
{
    let u = c as u32;
    (97 <= u && u <= 122) || (65 <= u && u <= 90)
}

/// Decides `is_word_end`.
pub fn word_end_char(c: char) -> (r: bool)
    ensures
        r == is_word_end(c),
{
    let u = c as u32;
    (33 <= u && u <= 47) || (58 <= u && u <= 64) || (91 <= u && u <= 96) || (123 <= u && u <= 126)
        || c == ' '
}

/// Decides `is_delim`.
pub fn delim_char(c: char) -> (r: bool)
    ensures
        r == is_delim(c),
{
    c == ':' || c == ',' || c == '{' || c == '}' || c == '[' || c == ']'
}

} // verus!
