//! Constant character-class predicates used by the grammar.

use vstd::prelude::*;

verus! {

pub open spec fn spec_is_ws(c: char) -> bool {
    c == ' ' || c == '\t' || c == '\n' || c == '\r'
}

/// ASCII whitespace: space, tab, line feed, carriage return.
#[verifier::when_used_as_spec(spec_is_ws)]
pub fn is_ws(c: char) -> (b: bool)
    ensures
        b == spec_is_ws(c),
{
    c == ' ' || c == '\t' || c == '\n' || c == '\r'
}

pub open spec fn spec_is_digit(c: char) -> bool {
    48 <= c as u32 <= 57
}

/// Decimal digit `'0'..='9'`.
#[verifier::when_used_as_spec(spec_is_digit)]
pub fn is_digit(c: char) -> (b: bool)
    ensures
        b == spec_is_digit(c),
{
    let v = c as u32;
    48 <= v && v <= 57
}

pub open spec fn spec_is_digit_first(c: char) -> bool {
    spec_is_digit(c)
}

/// Same class as [`is_digit`]; used where a digit selects a numeric parse.
#[verifier::when_used_as_spec(spec_is_digit_first)]
pub fn is_digit_first(c: char) -> (b: bool)
    ensures
        b == spec_is_digit_first(c),
{
    is_digit(c)
}

pub open spec fn spec_is_ident_first_char(c: char) -> bool {
    (65 <= c as u32 <= 90) || (97 <= c as u32 <= 122) || c == '_'
}

/// ASCII alphabetic or `'_'`: what an identifier may begin with.
#[verifier::when_used_as_spec(spec_is_ident_first_char)]
pub fn is_ident_first_char(c: char) -> (b: bool)
    ensures
        b == spec_is_ident_first_char(c),
{
    let v = c as u32;
    (65 <= v && v <= 90) || (97 <= v && v <= 122) || c == '_'
}

pub open spec fn spec_is_ident_other_char(c: char) -> bool {
    spec_is_ident_first_char(c) || spec_is_digit(c)
}

/// What an identifier may continue with: its first-character class plus digits.
#[verifier::when_used_as_spec(spec_is_ident_other_char)]
pub fn is_ident_other_char(c: char) -> (b: bool)
    ensures
        b == spec_is_ident_other_char(c),
{
    is_ident_first_char(c) || is_digit(c)
}

pub open spec fn spec_is_hex_digit(c: char) -> bool {
    spec_is_digit(c) || (65 <= c as u32 <= 70) || (97 <= c as u32 <= 102)
}

/// Hexadecimal digit: `0-9`, `a-f` or `A-F`.
#[verifier::when_used_as_spec(spec_is_hex_digit)]
pub fn is_hex_digit(c: char) -> (b: bool)
    ensures
        b == spec_is_hex_digit(c),
{
    let v = c as u32;
    is_digit(c) || (65 <= v && v <= 70) || (97 <= v && v <= 102)
}

} // verus!
