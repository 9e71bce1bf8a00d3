use vstd::prelude::*;

verus! {

/// The character classes the reader scans by: whitespace, decimal digits,
/// symbol-continuation characters, and everything before a line break.
#[derive(Clone, Copy, PartialEq, Eq, Structural)]
pub enum CharClass {
    Space,
    Digit,
    Tail,
    NotNewline,
}

/// Unicode `White_Space` characters, the set the reader skips between forms.
pub open spec fn is_space_char(c: char) -> bool {
    c == ' ' || c == '\t' || c == '\n' || c == '\r' || c == '\u{0b}' || c == '\u{0c}'
        || c == '\u{85}' || c == '\u{a0}' || c == '\u{1680}'
        || ('\u{2000}' <= c && c <= '\u{200a}') || c == '\u{2028}' || c == '\u{2029}'
        || c == '\u{202f}' || c == '\u{205f}' || c == '\u{3000}'
}

pub open spec fn is_digit_char(c: char) -> bool {
    '0' <= c && c <= '9'
}

/// Characters that may begin a symbol token.
pub open spec fn is_head_char(c: char) -> bool {
    ('a' <= c && c <= 'z') || ('A' <= c && c <= 'Z') || c == '.' || c == ',' || c == ':'
        || c == '*' || c == '+' || c == '!' || c == '-' || c == '_' || c == '?' || c == '$'
        || c == '%' || c == '&' || c == '=' || c == '<' || c == '>' || c == '@' || c == '#'
        || c == '~' || c == '^' || c == '`' || c == '|' || c == '\'' || c == '\\'
}

/// Characters that may continue a symbol token.
pub open spec fn is_tail_char(c: char) -> bool {
    is_head_char(c) || is_digit_char(c) || c == '/'
}

pub open spec fn in_class(k: CharClass, c: char) -> bool {
    match k {
        CharClass::Space => is_space_char(c),
        CharClass::Digit => is_digit_char(c),
        CharClass::Tail => is_tail_char(c),
        CharClass::NotNewline => c != '\n',
    }
}

pub fn is_whitespace_char(c: char) -> (r: bool)
    ensures
        r == is_space_char(c),
{
    c == ' ' || c == '\t' || c == '\n' || c == '\r' || c == '\u{0b}' || c == '\u{0c}'
        || c == '\u{85}' || c == '\u{a0}' || c == '\u{1680}'
        || ('\u{2000}' <= c && c <= '\u{200a}') || c == '\u{2028}' || c == '\u{2029}'
        || c == '\u{202f}' || c == '\u{205f}' || c == '\u{3000}'
}

pub fn is_digit(c: char) -> (r: bool)
    ensures
        r == is_digit_char(c),
{
    '0' <= c && c <= '9'
}

pub fn is_symbol_head(c: char) -> (r: bool)
    ensures
        r == is_head_char(c),
{
    ('a' <= c && c <= 'z') || ('A' <= c && c <= 'Z') || c == '.' || c == ',' || c == ':'
        || c == '*' || c == '+' || c == '!' || c == '-' || c == '_' || c == '?' || c == '$'
        || c == '%' || c == '&' || c == '=' || c == '<' || c == '>' || c == '@' || c == '#'
        || c == '~' || c == '^' || c == '`' || c == '|' || c == '\'' || c == '\\'
}

pub fn is_symbol_tail(c: char) -> (r: bool)
    ensures
        r == is_tail_char(c),
{
    is_symbol_head(c) || is_digit(c) || c == '/'
}

pub fn class_contains(k: CharClass, c: char) -> (r: bool)
    ensures
        r == in_class(k, c),
{
    match k {
        CharClass::Space => is_whitespace_char(c),
        CharClass::Digit => is_digit(c),
        CharClass::Tail => is_symbol_tail(c),
        CharClass::NotNewline => c != '\n',
    }
}

} // verus!
