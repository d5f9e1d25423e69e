//! Character classes used by the tokenizer and the word filter: Unicode
//! whitespace, the fixed separator set, and ASCII decimal digits.

use vstd::prelude::*;

verus! {

/// A Unicode whitespace character (the `White_Space` property): this is the
/// set of characters on which, besides the separators, text is split.
pub open spec fn is_whitespace_char(c: char) -> bool {
    let u = c as u32;
    u == 0x09 || u == 0x0A || u == 0x0B || u == 0x0C || u == 0x0D || u == 0x20 || u == 0x85
        || u == 0xA0 || u == 0x1680 || (0x2000 <= u && u <= 0x200A) || u == 0x2028 || u == 0x2029
        || u == 0x202F || u == 0x205F || u == 0x3000
}

pub fn whitespace_char(c: char) -> (r: bool)
    ensures
        r == is_whitespace_char(c),
{
    let u = c as u32;
    u == 0x09 || u == 0x0A || u == 0x0B || u == 0x0C || u == 0x0D || u == 0x20 || u == 0x85
        || u == 0xA0 || u == 0x1680 || (0x2000 <= u && u <= 0x200A) || u == 0x2028 || u == 0x2029
        || u == 0x202F || u == 0x205F || u == 0x3000
}

/// A member of the fixed separator set `*.,{}()[]:;?'"<>\/=+-@!|#&%$`.
pub open spec fn is_separator_char(c: char) -> bool {
    c == '*' || c == '.' || c == ',' || c == '{' || c == '}' || c == '(' || c == ')' || c == '['
        || c == ']' || c == ':' || c == ';' || c == '?' || c == '\'' || c == '"' || c == '<'
        || c == '>' || c == '\\' || c == '/' || c == '=' || c == '+' || c == '-' || c == '@'
        || c == '!' || c == '|' || c == '#' || c == '&' || c == '%' || c == '$'
}

pub fn separator_char(c: char) -> (r: bool)
    ensures
        r == is_separator_char(c),
{
    c == '*' || c == '.' || c == ',' || c == '{' || c == '}' || c == '(' || c == ')' || c == '['
        || c == ']' || c == ':' || c == ';' || c == '?' || c == '\'' || c == '"' || c == '<'
        || c == '>' || c == '\\' || c == '/' || c == '=' || c == '+' || c == '-' || c == '@'
        || c == '!' || c == '|' || c == '#' || c == '&' || c == '%' || c == '$'
}

/// A character that ends a word: whitespace or a separator.
pub open spec fn is_word_boundary(c: char) -> bool {
    is_whitespace_char(c) || is_separator_char(c)
}

pub fn word_boundary(c: char) -> (r: bool)
    ensures
        r == is_word_boundary(c),
{
    whitespace_char(c) || separator_char(c)
}

/// An ASCII decimal digit.
pub open spec fn is_digit_char(c: char) -> bool {
    48 <= c as u32 && c as u32 <= 57
}

/// The numeric value of an ASCII decimal digit.
pub open spec fn digit_value(c: char) -> int {
    c as u32 - 48
}

} // verus!
