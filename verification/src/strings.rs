//! String parsers: the zero-escape form, taken verbatim, and the escaped
//! form built out of fragments (literal runs, escaped characters, Unicode
//! escapes and discarded escaped whitespace).
//!
//! The contract of the escaped form is stated against [`str_body`], a
//! spec-level unescaping of the string body, so the produced text is
//! pinned down exactly.

use vstd::prelude::*;

use crate::basic::ws_run;
use crate::basic::lemma_ws_run_bounds;
use crate::char_categories::is_hex_digit;
use crate::char_categories::is_ws;
use crate::char_categories::spec_is_hex_digit;
use crate::char_categories::spec_is_ws;
use crate::error::BaseErrorKind;
use crate::error::ErrorTree;
use crate::error::Expectation;
use crate::error::InputParseErr;
use crate::error::expected_err;
use crate::error::fatal_expected;
use crate::error::rec_expected;
use crate::error::with_context;
use crate::input::IResultLookahead;
use crate::input::Input;
use crate::util::char_from_u32;
use crate::util::push_char;

verus! {

/// Where the run of plain literal characters (neither `"` nor `\`)
/// beginning at `pos` ends.
pub open spec fn lit_run(s: Seq<char>, pos: int, end: int) -> int
    decreases end - pos,
        when pos <= end
{
    if pos >= end {
        pos
    } else if s[pos] == '"' || s[pos] == '\\' {
        pos
    } else {
        lit_run(s, pos + 1, end)
    }
}

pub proof fn lemma_lit_run_bounds(s: Seq<char>, pos: int, end: int)
    requires
        0 <= pos <= end <= s.len(),
    ensures
        pos <= lit_run(s, pos, end) <= end,
        forall|j: int|
            pos <= j < lit_run(s, pos, end) ==> (#[trigger] s[j]) != '"' && s[j] != '\\',
        lit_run(s, pos, end) < end ==> (s[lit_run(s, pos, end)] == '"' || s[lit_run(s, pos, end)]
            == '\\'),
    decreases end - pos,
{
    if pos < end && !(s[pos] == '"' || s[pos] == '\\') {
        lemma_lit_run_bounds(s, pos + 1, end);
    }
}

/// Where the run of hexadecimal digits beginning at `pos` ends.
pub open spec fn hex_run(s: Seq<char>, pos: int, end: int) -> int
    decreases end - pos,
        when pos <= end
{
    if pos >= end {
        pos
    } else if spec_is_hex_digit(s[pos]) {
        hex_run(s, pos + 1, end)
    } else {
        pos
    }
}

pub proof fn lemma_hex_run_bounds(s: Seq<char>, pos: int, end: int)
    requires
        0 <= pos <= end <= s.len(),
    ensures
        pos <= hex_run(s, pos, end) <= end,
        forall|j: int| pos <= j < hex_run(s, pos, end) ==> spec_is_hex_digit(#[trigger] s[j]),
        hex_run(s, pos, end) < end ==> !spec_is_hex_digit(s[hex_run(s, pos, end)]),
    decreases end - pos,
{
    if pos < end && spec_is_hex_digit(s[pos]) {
        lemma_hex_run_bounds(s, pos + 1, end);
    }
}

pub open spec fn hex_digit_val(c: char) -> int {
    if spec_is_hex_digit(c) {
        if 48 <= c as u32 <= 57 {
            c as u32 - 48
        } else if 65 <= c as u32 <= 70 {
            c as u32 - 55
        } else {
            c as u32 - 87
        }
    } else {
        0
    }
}

/// The value of a hexadecimal digit sequence.
pub open spec fn hex_seq_val(ds: Seq<char>) -> int
    decreases ds.len(),
{
    if ds.len() == 0 {
        0
    } else {
        hex_seq_val(ds.drop_last()) * 16 + hex_digit_val(ds.last())
    }
}

pub open spec fn pow16(n: nat) -> int
    decreases n,
{
    if n == 0 {
        1
    } else {
        16 * pow16((n - 1) as nat)
    }
}

pub proof fn lemma_pow16_le(a: nat, b: nat)
    requires
        a <= b,
    ensures
        pow16(a) <= pow16(b),
    decreases b,
{
    if a < b {
        lemma_pow16_le(a, (b - 1) as nat);
        assert(pow16(b) == 16 * pow16((b - 1) as nat));
        assert(pow16(a) >= 1) by {
            lemma_pow16_pos(a);
        }
    }
}

pub proof fn lemma_pow16_pos(a: nat)
    ensures
        pow16(a) >= 1,
    decreases a,
{
    if a > 0 {
        lemma_pow16_pos((a - 1) as nat);
    }
}

/// The character with the given Unicode scalar value.
pub open spec fn char_of(v: int) -> char {
    choose|c: char| (#[trigger] (c as u32)) == v
}

/// Characters agree when their scalar values do.
pub proof fn lemma_char_codepoint_unique(c1: char, c2: char)
    requires
        c1 as u32 == c2 as u32,
    ensures
        c1 == c2,
{
}

/// `v` is a Unicode scalar value.
pub open spec fn valid_scalar(v: int) -> bool {
    0 <= v < 0xD800 || 0xE000 <= v <= 0x10FFFF
}

/// The positions of a `\u{...}` escape whose `u` stands at `pos_u`: the
/// hex digits start after `u{` and at most six are taken.
pub open spec fn uni_hex_end(s: Seq<char>, pos_u: int, end: int) -> int {
    if hex_run(s, pos_u + 2, end) > pos_u + 8 {
        pos_u + 8
    } else {
        hex_run(s, pos_u + 2, end)
    }
}

/// The `u{`...`}` shape is complete: brace, one to six hex digits, brace.
pub open spec fn uni_delims_ok(s: Seq<char>, pos_u: int, end: int) -> bool {
    &&& pos_u + 1 < end && s[pos_u + 1] == '{'
    &&& uni_hex_end(s, pos_u, end) > pos_u + 2
    &&& uni_hex_end(s, pos_u, end) < end && s[uni_hex_end(s, pos_u, end)] == '}'
}

pub open spec fn uni_val(s: Seq<char>, pos_u: int, end: int) -> int {
    hex_seq_val(s.subrange(pos_u + 2, uni_hex_end(s, pos_u, end)))
}

/// The whole escape is well-formed and names a scalar value.
pub open spec fn uni_ok(s: Seq<char>, pos_u: int, end: int) -> bool {
    uni_delims_ok(s, pos_u, end) && valid_scalar(uni_val(s, pos_u, end))
}

/// The position just past the closing `}`.
pub open spec fn uni_end(s: Seq<char>, pos_u: int, end: int) -> int {
    uni_hex_end(s, pos_u, end) + 1
}

/// The single-character escapes and what they stand for.
pub open spec fn is_esc_char(c: char) -> bool {
    c == 'n' || c == 'r' || c == 't' || c == 'b' || c == 'f' || c == '\\' || c == '/' || c == '"'
}

pub open spec fn esc_map(c: char) -> char {
    if c == 'n' {
        '\n'
    } else if c == 'r' {
        '\r'
    } else if c == 't' {
        '\t'
    } else if c == 'b' {
        '\u{08}'
    } else if c == 'f' {
        '\u{0C}'
    } else {
        c
    }
}

/// The unescaping of a string body read from `pos`: the fold stops (with
/// the position it stopped at and the text built so far) at the closing
/// quote, at the end of input, or at an escape it cannot read; it fails
/// (`None`) where a `\u` escape is malformed or names no scalar value.
pub open spec fn str_body(s: Seq<char>, pos: int, end: int) -> Option<(int, Seq<char>)>
    decreases end - pos,
        when 0 <= pos <= end <= s.len()
        via str_body_dec
{
    if pos >= end || s[pos] == '"' {
        Some((pos, Seq::empty()))
    } else if s[pos] != '\\' {
        let r = lit_run(s, pos, end);
        match str_body(s, r, end) {
            Some((stop, t)) => Some((stop, s.subrange(pos, r) + t)),
            None => None,
        }
    } else if pos + 1 >= end {
        Some((pos, Seq::empty()))
    } else {
        let c = s[pos + 1];
        if c == 'u' {
            if uni_ok(s, pos + 1, end) {
                match str_body(s, uni_end(s, pos + 1, end), end) {
                    Some((stop, t)) => Some(
                        (stop, seq![char_of(uni_val(s, pos + 1, end))] + t),
                    ),
                    None => None,
                }
            } else {
                None
            }
        } else if is_esc_char(c) {
            match str_body(s, pos + 2, end) {
                Some((stop, t)) => Some((stop, seq![esc_map(c)] + t)),
                None => None,
            }
        } else if spec_is_ws(c) {
            str_body(s, ws_run(s, pos + 1, end), end)
        } else {
            Some((pos, Seq::empty()))
        }
    }
}

#[via_fn]
proof fn str_body_dec(s: Seq<char>, pos: int, end: int) {
    if pos < end && s[pos] != '"' {
        if s[pos] != '\\' {
            lemma_lit_run_bounds(s, pos, end);
        } else if pos + 1 < end {
            let c = s[pos + 1];
            if c == 'u' && uni_ok(s, pos + 1, end) {
                lemma_hex_run_bounds(s, pos + 3, end);
            } else if spec_is_ws(c) {
                lemma_ws_run_bounds(s, pos + 1, end);
            }
        }
    }
}

pub proof fn lemma_str_body_bounds(s: Seq<char>, pos: int, end: int)
    requires
        0 <= pos <= end <= s.len(),
    ensures
        str_body(s, pos, end) matches Some(p) ==> pos <= p.0 <= end,
    decreases end - pos,
{
    if pos < end && s[pos] != '"' {
        if s[pos] != '\\' {
            lemma_lit_run_bounds(s, pos, end);
            lemma_str_body_bounds(s, lit_run(s, pos, end), end);
        } else if pos + 1 < end {
            let c = s[pos + 1];
            if c == 'u' {
                if uni_ok(s, pos + 1, end) {
                    lemma_hex_run_bounds(s, pos + 3, end);
                    lemma_str_body_bounds(s, uni_end(s, pos + 1, end), end);
                }
            } else if is_esc_char(c) {
                lemma_str_body_bounds(s, pos + 2, end);
            } else if spec_is_ws(c) {
                lemma_ws_run_bounds(s, pos + 1, end);
                lemma_str_body_bounds(s, ws_run(s, pos + 1, end), end);
            }
        }
    }
}

/// A string without escapes, `"` literal-run `"`, handed out as a copy of
/// the run. Fails (fatally, as [`crate::basic::one_char`] does) when the
/// opening or closing quote is missing — in particular when an escape
/// cuts the literal run short; the caller then probes the escaped form.
pub fn unescaped_str<'a>(input: Input<'a>) -> (r: IResultLookahead<'a, String>)
    requires
        input.wf(),
    ensures
        (r matches Ok(p) ==> crate::input::advances(input, p.0) && input.pos < p.0.pos),
        ({
            let s = input.src@;
            let pos = input.pos as int;
            let end = input.end as int;
            if pos < end && s[pos] == '"' {
                let q = lit_run(s, pos + 1, end);
                if q < end && s[q] == '"' {
                    (r matches Ok(p) && p.0 == input.at(q + 1) && p.1@ == s.subrange(pos + 1, q))
                } else {
                    (r matches Err(e) && e.is_fatal() && e.locs_in(end))
                }
            } else {
                (r matches Err(e) && expected_err(e, true, pos, Expectation::Char('"')))
            }
        }),
{
    let ghost s = input.src@;
    let ghost end0 = input.end as int;
    if !(input.pos < input.end && input.src[input.pos] == '"') {
        return Err(fatal_expected(input.pos, Expectation::Char('"')));
    }
    proof {
        lemma_lit_run_bounds(s, input.pos + 1, end0);
    }
    let mut i: usize = input.pos + 1;
    while i < input.end && !(input.src[i] == '"' || input.src[i] == '\\')
        invariant
            input.wf(),
            s == input.src@,
            end0 == input.end as int,
            input.pos + 1 <= i <= input.end,
            lit_run(s, input.pos + 1, end0) == lit_run(s, i as int, end0),
        decreases input.end - i,
    {
        i += 1;
    }
    if i < input.end && input.src[i] == '"' {
        let text = crate::util::string_of_range(input.src, input.pos + 1, i);
        Ok((Input { src: input.src, pos: i + 1, end: input.end }, text))
    } else {
        Err(fatal_expected(i, Expectation::Char('"')))
    }
}

/// A `u{...}` escape (the input stands on the `u`): one to six hex digits
/// naming a Unicode scalar value. A malformed shape is fatal on the
/// offending delimiter or digit; a well-formed shape naming no scalar
/// value is fatal with `UnicodeHexSequence` carrying the value read.
pub fn parse_unicode<'a>(input: Input<'a>) -> (r: IResultLookahead<'a, char>)
    requires
        input.wf(),
    ensures
        (r matches Err(e) ==> e.locs_in(input.end as int)),
        ({
            let s = input.src@;
            let pos = input.pos as int;
            let end = input.end as int;
            if !(pos < end && s[pos] == 'u') {
                (r matches Err(e) && expected_err(e, true, pos, Expectation::Char('u')))
            } else if uni_ok(s, pos, end) {
                (r matches Ok(p) && p.0 == input.at(uni_end(s, pos, end)) && p.1 == char_of(
                    uni_val(s, pos, end),
                ))
            } else if !(pos + 1 < end && s[pos + 1] == '{') {
                (r matches Err(e) && expected_err(e, true, pos + 1, Expectation::Char('{')))
            } else if uni_hex_end(s, pos, end) == pos + 2 {
                (r matches Err(e) && expected_err(e, true, pos + 2, Expectation::HexDigit))
            } else if !(uni_hex_end(s, pos, end) < end && s[uni_hex_end(s, pos, end)] == '}') {
                (r matches Err(e) && expected_err(
                    e,
                    true,
                    uni_hex_end(s, pos, end),
                    Expectation::Char('}'),
                ))
            } else {
                (r matches Err(e) && expected_err(
                    e,
                    true,
                    pos,
                    Expectation::UnicodeHexSequence { got: uni_val(s, pos, end) as u32 },
                ))
            }
        }),
{
    let ghost s = input.src@;
    let ghost pos0 = input.pos as int;
    let ghost end0 = input.end as int;
    if !(input.pos < input.end && input.src[input.pos] == 'u') {
        return Err(fatal_expected(input.pos, Expectation::Char('u')));
    }
    if !(input.end - input.pos >= 2 && input.src[input.pos + 1] == '{') {
        return Err(fatal_expected(input.pos + 1, Expectation::Char('{')));
    }
    let hs = input.pos + 2;
    proof {
        lemma_hex_run_bounds(s, hs as int, end0);
    }
    let mut i: usize = hs;
    let mut hv: u64 = 0;
    while i < input.end && i - hs < 6 && is_hex_digit(input.src[i])
        invariant
            input.wf(),
            s == input.src@,
            pos0 == input.pos as int,
            end0 == input.end as int,
            hs == pos0 + 2,
            hs <= i <= input.end,
            i - hs <= 6,
            i as int <= hex_run(s, hs as int, end0),
            hv == hex_seq_val(s.subrange(hs as int, i as int)),
            hv < pow16((i - hs) as nat),
        decreases input.end - i,
    {
        let c = input.src[i];
        let v32 = c as u32;
        let d: u64 = if v32 >= 97 {
            (v32 - 87) as u64
        } else if v32 >= 65 {
            (v32 - 55) as u64
        } else {
            (v32 - 48) as u64
        };
        proof {
            assert(d == hex_digit_val(s[i as int]));
            assert(s.subrange(hs as int, i + 1).drop_last() =~= s.subrange(hs as int, i as int));
            assert(s.subrange(hs as int, i + 1).last() == s[i as int]);
            lemma_pow16_le(((i - hs) as nat), 6nat);
            reveal_with_fuel(pow16, 8);
            assert(pow16(6) == 0x1000000);
            lemma_hex_run_bounds(s, hs as int, end0);
        }
        hv = hv * 16 + d;
        i += 1;
    }
    proof {
        lemma_pow16_le(((i - hs) as nat), 6nat);
        reveal_with_fuel(pow16, 8);
        assert(hv < 0x1000000);
    }
    if i == hs {
        proof {
            assert(hex_run(s, hs as int, end0) == hs);
            assert(uni_hex_end(s, pos0, end0) == hs);
        }
        return Err(fatal_expected(hs, Expectation::HexDigit));
    }
    if !(i < input.end && input.src[i] == '}') {
        proof {
            if i as int == hex_run(s, hs as int, end0) {
                assert(uni_hex_end(s, pos0, end0) == i as int);
            } else {
                assert(i - hs == 6);
                lemma_hex_run_bounds(s, hs as int, end0);
                assert(hex_run(s, hs as int, end0) > i as int);
                assert(uni_hex_end(s, pos0, end0) == i as int);
            }
            assert(!uni_ok(s, pos0, end0));
        }
        return Err(fatal_expected(i, Expectation::Char('}')));
    }
    proof {
        lemma_hex_run_bounds(s, hs as int, end0);
        if i as int != hex_run(s, hs as int, end0) {
            assert(i - hs == 6);
        }
        assert(uni_hex_end(s, pos0, end0) == i as int);
        assert(uni_val(s, pos0, end0) == hv);
    }
    match char_from_u32(hv as u32) {
        Some(c) => {
            proof {
                assert(c as u32 == hv);
                lemma_char_codepoint_unique(c, char_of(hv as int));
            }
            Ok((Input { src: input.src, pos: i + 1, end: input.end }, c))
        },
        None => {
            proof {
                assert(!valid_scalar(uni_val(s, pos0, end0)));
            }
            Err(
                InputParseErr::Fatal(
                    ErrorTree::Base {
                        location: input.pos,
                        kind: BaseErrorKind::Expected(
                            Expectation::UnicodeHexSequence { got: hv as u32 },
                        ),
                    },
                ),
            )
        },
    }
}

/// An escaped character (the input stands on the backslash): one of the
/// single-character escapes, or a `\u{...}` escape.
pub fn parse_escaped_char<'a>(input: Input<'a>) -> (r: IResultLookahead<'a, char>)
    requires
        input.wf(),
    ensures
        ({
            let s = input.src@;
            let pos = input.pos as int;
            let end = input.end as int;
            if !(pos < end && s[pos] == '\\') {
                (r matches Err(e) && expected_err(e, true, pos, Expectation::Char('\\')))
            } else if pos + 1 < end && s[pos + 1] == 'u' {
                if uni_ok(s, pos + 1, end) {
                    (r matches Ok(p) && p.0 == input.at(uni_end(s, pos + 1, end)) && p.1
                        == char_of(uni_val(s, pos + 1, end)))
                } else {
                    (r matches Err(e) && e.is_fatal() && e.locs_in(end))
                }
            } else if pos + 1 < end && is_esc_char(s[pos + 1]) {
                (r matches Ok(p) && p.0 == input.at(pos + 2) && p.1 == esc_map(s[pos + 1]))
            } else {
                (r matches Err(e) && e.locs_in(end) && crate::error::one_of_chars_err(
                    e,
                    pos + 1,
                    "nrtbf\\/\"u"@,
                ))
            }
        }),
{
    if !(input.pos < input.end && input.src[input.pos] == '\\') {
        return Err(fatal_expected(input.pos, Expectation::Char('\\')));
    }
    if input.end - input.pos < 2 {
        return Err(fatal_expected(input.pos + 1, Expectation::OneOfChars("nrtbf\\/\"u".to_owned())));
    }
    let c = input.src[input.pos + 1];
    if c == 'u' {
        let (rest, ch) = parse_unicode(input.advance(1))?;
        Ok((rest, ch))
    } else if c == 'n' {
        Ok((input.advance(2), '\n'))
    } else if c == 'r' {
        Ok((input.advance(2), '\r'))
    } else if c == 't' {
        Ok((input.advance(2), '\t'))
    } else if c == 'b' {
        Ok((input.advance(2), '\u{08}'))
    } else if c == 'f' {
        Ok((input.advance(2), '\u{0C}'))
    } else if c == '\\' {
        Ok((input.advance(2), '\\'))
    } else if c == '/' {
        Ok((input.advance(2), '/'))
    } else if c == '"' {
        Ok((input.advance(2), '"'))
    } else {
        Err(fatal_expected(input.pos + 1, Expectation::OneOfChars("nrtbf\\/\"u".to_owned())))
    }
}

/// A backslash followed by whitespace (the input stands on the
/// backslash); the whitespace run is consumed and discarded.
pub fn parse_escaped_whitespace<'a>(input: Input<'a>) -> (r: IResultLookahead<'a, Input<'a>>)
    requires
        input.wf(),
    ensures
        ({
            let s = input.src@;
            let pos = input.pos as int;
            let end = input.end as int;
            if !(pos < end && s[pos] == '\\') {
                (r matches Err(e) && expected_err(e, true, pos, Expectation::Char('\\')))
            } else {
                let w = ws_run(s, pos + 1, end);
                if w == pos + 1 {
                    (r matches Err(e) && expected_err(e, false, pos + 1, Expectation::Multispace))
                } else {
                    (r matches Ok(p) && p.0 == input.at(w) && p.1 == input.at(pos + 1).upto(w))
                }
            }
        }),
{
    if !(input.pos < input.end && input.src[input.pos] == '\\') {
        return Err(fatal_expected(input.pos, Expectation::Char('\\')));
    }
    let (rest, taken) = crate::basic::multispace1(input.advance(1))?;
    Ok((rest, taken))
}

/// One fragment of a string body.
pub enum StringFragment<'a> {
    Literal(Input<'a>),
    EscapedChar(char),
    EscapedWS,
}

/// The text a fragment contributes.
pub open spec fn frag_text(f: StringFragment) -> Seq<char> {
    match f {
        StringFragment::Literal(i) => i.fragment_seq(),
        StringFragment::EscapedChar(c) => seq![c],
        StringFragment::EscapedWS => Seq::empty(),
    }
}

/// One fragment: a non-empty literal run, an escaped character, or
/// escaped whitespace. The contract ties each outcome to [`str_body`]:
/// success peels the fragment off the front of the body's unescaping, a
/// recoverable failure is exactly the body's stop, and a fatal failure
/// is exactly the body's failure.
pub fn parse_fragment<'a>(input: Input<'a>) -> (r: IResultLookahead<'a, StringFragment<'a>>)
    requires
        input.wf(),
    ensures
        ({
            let s = input.src@;
            let pos = input.pos as int;
            let end = input.end as int;
            match r {
                Ok(p) => {
                    &&& pos < p.0.pos <= end
                    &&& p.0 == input.at(p.0.pos as int)
                    &&& (match p.1 {
                        StringFragment::Literal(t) => t.wf(),
                        _ => true,
                    })
                    &&& (pos < end && s[pos] != '"' && s[pos] != '\\' ==> p.0.pos == lit_run(
                        s,
                        pos,
                        end,
                    ) && (p.1 matches StringFragment::Literal(t) && t.fragment_seq() == s.subrange(
                        pos,
                        lit_run(s, pos, end),
                    )))
                    &&& (pos + 1 < end && s[pos] == '\\' && s[pos + 1] == 'u' && uni_ok(
                        s,
                        pos + 1,
                        end,
                    ) ==> (p.0 == input.at(uni_end(s, pos + 1, end)) && (
                    p.1 matches StringFragment::EscapedChar(c) && c == char_of(
                        uni_val(s, pos + 1, end),
                    ))))
                    &&& (pos + 1 < end && s[pos] == '\\' && is_esc_char(s[pos + 1]) ==> (p.0
                        == input.at(pos + 2) && (p.1 matches StringFragment::EscapedChar(c) && c
                        == esc_map(s[pos + 1]))))
                    &&& (pos + 1 < end && s[pos] == '\\' && spec_is_ws(s[pos + 1]) ==> (p.0
                        == input.at(ws_run(s, pos + 1, end)) && (
                    p.1 matches StringFragment::EscapedWS)))
                    &&& str_body(s, pos, end) == (match str_body(s, p.0.pos as int, end) {
                        Some(st) => Some((st.0, frag_text(p.1) + st.1)),
                        None => None::<(int, Seq<char>)>,
                    })
                },
                Err(e) => {
                    &&& e.locs_in(end)
                    &&& (!e.is_fatal() ==> str_body(s, pos, end) == Some(
                        (pos, Seq::<char>::empty()),
                    ) && expected_err(e, false, pos, Expectation::Something))
                    &&& (e.is_fatal() ==> str_body(s, pos, end) is None)
                },
            }
        }),
{
    let ghost s = input.src@;
    let ghost pos0 = input.pos as int;
    let ghost end0 = input.end as int;
    if input.pos >= input.end || input.src[input.pos] == '"' {
        return Err(rec_expected(input.pos, Expectation::Something));
    }
    let c0 = input.src[input.pos];
    if c0 != '\\' {
        // literal run
        proof {
            lemma_lit_run_bounds(s, pos0, end0);
        }
        let mut i: usize = input.pos;
        while i < input.end && !(input.src[i] == '"' || input.src[i] == '\\')
            invariant
                input.wf(),
                s == input.src@,
                end0 == input.end as int,
                input.pos <= i <= input.end,
                lit_run(s, input.pos as int, end0) == lit_run(s, i as int, end0),
            decreases input.end - i,
        {
            i += 1;
        }
        let (rest, taken) = input.take_split(i - input.pos);
        return Ok((rest, StringFragment::Literal(taken)));
    }
    // a backslash
    if input.end - input.pos < 2 {
        return Err(rec_expected(input.pos, Expectation::Something));
    }
    let c1 = input.src[input.pos + 1];
    if c1 == 'u' {
        let (rest, ch) = parse_escaped_char(input)?;
        Ok((rest, StringFragment::EscapedChar(ch)))
    } else if c1 == 'n' || c1 == 'r' || c1 == 't' || c1 == 'b' || c1 == 'f' || c1 == '\\' || c1
        == '/' || c1 == '"' {
        let (rest, ch) = parse_escaped_char(input)?;
        Ok((rest, StringFragment::EscapedChar(ch)))
    } else if is_ws(c1) {
        proof {
            lemma_ws_run_bounds(s, pos0 + 1, end0);
        }
        let (rest, _taken) = parse_escaped_whitespace(input)?;
        Ok((rest, StringFragment::EscapedWS))
    } else {
        Err(rec_expected(input.pos, Expectation::Something))
    }
}

/// The body of an escaped string: a fold over fragments, stopping at the
/// first fragment that recoverably is not there.
pub fn inner_string<'a>(input: Input<'a>) -> (r: IResultLookahead<'a, String>)
    requires
        input.wf(),
    ensures
        (r matches Ok(p) ==> crate::input::advances(input, p.0)),
        ({
            let s = input.src@;
            let pos = input.pos as int;
            let end = input.end as int;
            match str_body(s, pos, end) {
                Some(st) => (r matches Ok(p) && p.0 == input.at(st.0) && p.1@ == st.1),
                None => (r matches Err(e) && e.is_fatal() && e.locs_in(end)),
            }
        }),
{
    let ghost s = input.src@;
    let ghost pos0 = input.pos as int;
    let ghost end0 = input.end as int;
    let mut cur = input;
    let mut acc = String::new();
    proof {
        lemma_str_body_bounds(s, pos0, end0);
    }
    loop
        invariant
            input.wf(),
            cur.wf(),
            s == input.src@,
            pos0 == input.pos as int,
            end0 == input.end as int,
            cur.src == input.src,
            cur.src@ == s,
            cur.end == input.end,
            input.pos <= cur.pos,
            str_body(s, pos0, end0) == (match str_body(s, cur.pos as int, end0) {
                Some(st) => Some((st.0, acc@ + st.1)),
                None => None::<(int, Seq<char>)>,
            }),
        decreases input.end - cur.pos,
    {
        match parse_fragment(cur) {
            Ok((rest, frag)) => {
                proof {
                    lemma_str_body_bounds(s, rest.pos as int, end0);
                }
                match frag {
                    StringFragment::Literal(taken) => {
                        let t = taken.fragment_string();
                        proof {
                            if let Some(st) = str_body(s, rest.pos as int, end0) {
                                assert(acc@ + (taken.fragment_seq() + st.1) =~= (acc@
                                    + taken.fragment_seq()) + st.1);
                            }
                        }
                        vstd::string::StringExecFns::append(&mut acc, t.as_str());
                    },
                    StringFragment::EscapedChar(ch) => {
                        proof {
                            if let Some(st) = str_body(s, rest.pos as int, end0) {
                                assert(acc@ + (seq![ch] + st.1) =~= acc@.push(ch) + st.1);
                            }
                        }
                        push_char(&mut acc, ch);
                    },
                    StringFragment::EscapedWS => {
                        proof {
                            if let Some(st) = str_body(s, rest.pos as int, end0) {
                                assert(acc@ + (Seq::<char>::empty() + st.1) =~= acc@ + st.1);
                            }
                        }
                    },
                }
                cur = rest;
            },
            Err(e) => {
                let fatal = match &e {
                    InputParseErr::Fatal(_) => true,
                    InputParseErr::Recoverable(_) => false,
                };
                if fatal {
                    return Err(e);
                }
                proof {
                    assert(acc@ + Seq::<char>::empty() =~= acc@);
                }
                return Ok((cur, acc));
            },
        }
    }
}

/// An escaped string: `"`, a fold of fragments, `"`. On failure the
/// error is wrapped in a `"string"` context frame.
pub fn parse_string<'a>(input: Input<'a>) -> (r: IResultLookahead<'a, String>)
    requires
        input.wf(),
    ensures
        (r matches Ok(p) ==> crate::input::advances(input, p.0) && input.pos < p.0.pos),
        ({
            let s = input.src@;
            let pos = input.pos as int;
            let end = input.end as int;
            if pos < end && s[pos] == '"' {
                match str_body(s, pos + 1, end) {
                    Some(st) => {
                        if st.0 < end && s[st.0] == '"' {
                            (r matches Ok(p) && p.0 == input.at(st.0 + 1) && p.1@ == st.1)
                        } else {
                            (r matches Err(e) && e.locs_in(end) && crate::error::stacked_expected(
                                e,
                                true,
                                st.0,
                                Expectation::Char('"'),
                                pos,
                                "string"@,
                            ))
                        }
                    },
                    None => (r matches Err(e) && e.is_fatal() && e.locs_in(end)
                        && crate::error::in_context(e, pos, "string"@)),
                }
            } else {
                (r matches Err(e) && e.locs_in(end) && crate::error::stacked_expected(
                    e,
                    true,
                    pos,
                    Expectation::Char('"'),
                    pos,
                    "string"@,
                ))
            }
        }),
{
    let ghost s = input.src@;
    let ghost end0 = input.end as int;
    if !(input.pos < input.end && input.src[input.pos] == '"') {
        let e = fatal_expected(input.pos, Expectation::Char('"'));
        proof {
            assert(e.locs_in(end0));
        }
        return Err(with_context(e, input.pos, "string"));
    }
    let opened = input.advance(1);
    proof {
        lemma_str_body_bounds(s, opened.pos as int, end0);
    }
    match inner_string(opened) {
        Ok((rest, text)) => {
            if rest.pos < rest.end && rest.src[rest.pos] == '"' {
                Ok((rest.advance(1), text))
            } else {
                let e = fatal_expected(rest.pos, Expectation::Char('"'));
                proof {
                    assert(e.locs_in(end0));
                }
                Err(with_context(e, input.pos, "string"))
            }
        },
        Err(e) => {
            proof {
                assert(e.locs_in(end0));
            }
            Err(with_context(e, input.pos, "string"))
        },
    }
}

} // verus!
