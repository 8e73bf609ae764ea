//! Expression and document parsers: identifiers, booleans, containers
//! (tuples, lists, maps, structs), single-character dispatch, document
//! attributes and the top-level entry point.
//!
//! Every successful parse yields a well-formed tree ([`expr_wf`],
//! [`ron_wf`]): spans lie within their parents' spans and the entries of
//! containers stand in source order. The number and string dispatch
//! clauses pin those results down exactly.

use vstd::prelude::*;

use crate::ast::Attribute;
use crate::ast::Expr;
use crate::ast::Extension;
use crate::ast::Ident;
use crate::ast::Integer;
use crate::ast::KeyValue;
use crate::ast::List;
use crate::ast::Ron;
use crate::ast::Decimal;
use crate::ast::RonMap;
use crate::ast::Sign;
use crate::ast::SignedInteger;
use crate::ast::Spanned;
use crate::ast::Struct;
use crate::ast::UnsignedInteger;
use crate::ast::attribute_wf;
use crate::ast::elements_wf;
use crate::ast::entries_expr_wf;
use crate::ast::entries_ident_wf;
use crate::ast::expr_wf;
use crate::ast::kv_expr_wf;
use crate::ast::kv_ident_wf;
use crate::ast::ron_wf;
use crate::ast::spanned_expr_wf;
use crate::ast::struct_wf;
use crate::basic::lemma_ws_scan_bounds;
use crate::basic::lemma_ws_scan_idem;
use crate::basic::one_of_tags;
use crate::basic::skip_ws;
use crate::basic::starts_with_at;
use crate::basic::tag;
use crate::basic::one_char;
use crate::basic::ws_scan;
use crate::char_categories::is_ident_first_char;
use crate::char_categories::is_ident_other_char;
use crate::char_categories::spec_is_digit;
use crate::char_categories::spec_is_ident_first_char;
use crate::char_categories::spec_is_ident_other_char;
use crate::error::BaseErrorKind;
use crate::error::ErrorTree;
use crate::error::Expectation;
use crate::error::InputParseErr;
use crate::error::alt_err;
use crate::error::expected_err;
use crate::error::external_err;
use crate::error::ident_start_err;
use crate::error::in_context;
use crate::error::fatal_expected;
use crate::error::rec_expected;
use crate::error::with_context;
use crate::input::IResultLookahead;
use crate::input::Input;
use crate::input::advances;
use crate::number::dec_ok;
use crate::number::digit_run;
use crate::number::digits_val;
use crate::number::decimal;
use crate::number::lemma_digit_run_bounds;
use crate::number::signed_integer;
use crate::number::unsigned;
use crate::strings::lit_run;
use crate::strings::parse_string;
use crate::strings::str_body;
use crate::strings::unescaped_str;
use crate::util::chars_of;

verus! {

/// Where the run of identifier characters beginning at `pos` ends.
pub open spec fn ident_run(s: Seq<char>, pos: int, end: int) -> int
    decreases end - pos,
        when pos <= end
{
    if pos >= end {
        pos
    } else if spec_is_ident_other_char(s[pos]) {
        ident_run(s, pos + 1, end)
    } else {
        pos
    }
}

pub proof fn lemma_ident_run_bounds(s: Seq<char>, pos: int, end: int)
    requires
        0 <= pos <= end <= s.len(),
    ensures
        pos <= ident_run(s, pos, end) <= end,
        forall|j: int|
            pos <= j < ident_run(s, pos, end) ==> spec_is_ident_other_char(#[trigger] s[j]),
        ident_run(s, pos, end) < end ==> !spec_is_ident_other_char(s[ident_run(s, pos, end)]),
    decreases end - pos,
{
    if pos < end && spec_is_ident_other_char(s[pos]) {
        lemma_ident_run_bounds(s, pos + 1, end);
    }
}

/// An identifier: a first-class character, then its continuation run.
pub fn ident<'a>(input: Input<'a>) -> (r: IResultLookahead<'a, Ident>)
    requires
        input.wf(),
    ensures
        (r matches Ok(p) ==> advances(input, p.0) && input.pos < p.0.pos),
        ({
            let s = input.src@;
            let pos = input.pos as int;
            let end = input.end as int;
            if pos < end && spec_is_ident_first_char(s[pos]) {
                let run = ident_run(s, pos, end);
                (r matches Ok(p) && p.0 == input.at(run) && p.1.0@ == s.subrange(pos, run))
            } else {
                (r matches Err(e) && !e.is_fatal() && e.locs_in(end))
            }
        }),
{
    let ghost s = input.src@;
    let ghost end0 = input.end as int;
    if !(input.pos < input.end && is_ident_first_char(input.src[input.pos])) {
        return Err(
            rec_expected(
                input.pos,
                Expectation::OneOfExpectations(vec![Expectation::Alpha, Expectation::Char('_')]),
            ),
        );
    }
    proof {
        lemma_ident_run_bounds(s, input.pos as int, end0);
    }
    let mut i: usize = input.pos;
    while i < input.end && is_ident_other_char(input.src[i])
        invariant
            input.wf(),
            s == input.src@,
            end0 == input.end as int,
            input.pos <= i <= input.end,
            ident_run(s, input.pos as int, end0) == ident_run(s, i as int, end0),
        decreases input.end - i,
    {
        i += 1;
    }
    let (_rest, taken) = input.take_split(i - input.pos);
    Ok((Input { src: input.src, pos: i, end: input.end }, Ident::from_input(taken)))
}

/// `true` or `false`.
pub fn parse_bool<'a>(input: Input<'a>) -> (r: IResultLookahead<'a, bool>)
    requires
        input.wf(),
    ensures
        (r matches Ok(p) ==> advances(input, p.0) && input.pos < p.0.pos),
        ({
            let s = input.src@;
            let pos = input.pos as int;
            let end = input.end as int;
            if starts_with_at(s, pos, end, "true"@) {
                (r matches Ok(p) && p.0 == input.at(pos + "true"@.len()) && p.1 == true)
            } else if starts_with_at(s, pos, end, "false"@) {
                (r matches Ok(p) && p.0 == input.at(pos + "false"@.len()) && p.1 == false)
            } else {
                (r matches Err(e) && e.is_fatal() && e.locs_in(end))
            }
        }),
{
    let tags: [&str; 2] = ["true", "false"];
    let mapping: [bool; 2] = [true, false];
    let r = one_of_tags(tags.as_slice(), mapping.as_slice(), input);
    proof {
        reveal_strlit("true");
        reveal_strlit("false");
        let s = input.src@;
        let pos = input.pos as int;
        let end = input.end as int;
        if starts_with_at(s, pos, end, "true"@) {
            assert(tags@[0]@ == "true"@);
        } else if starts_with_at(s, pos, end, "false"@) {
            assert(tags@[1]@ == "false"@);
        }
        if r is Ok {
            let p = r->Ok_0;
            let k = choose|k: int|
                0 <= k < tags@.len() && p.0.pos == input.pos + (#[trigger] tags@[k])@.len()
                    && starts_with_at(s, pos, end, tags@[k]@);
            assert(k == 0 || k == 1);
            assert(tags@[k]@.len() > 0);
        }
    }
    r
}

/// The name of a parser extension inside an `enable` attribute.
pub fn extension_name<'a>(input: Input<'a>) -> (r: IResultLookahead<'a, Extension>)
    requires
        input.wf(),
    ensures
        (r matches Ok(p) ==> advances(input, p.0) && input.pos < p.0.pos),
        ({
            let s = input.src@;
            let pos = input.pos as int;
            let end = input.end as int;
            if starts_with_at(s, pos, end, "unwrap_newtypes"@) {
                (r matches Ok(p) && p.0 == input.at(pos + "unwrap_newtypes"@.len()) && p.1
                    == Extension::UnwrapNewtypes)
            } else if starts_with_at(s, pos, end, "implicit_some"@) {
                (r matches Ok(p) && p.0 == input.at(pos + "implicit_some"@.len()) && p.1
                    == Extension::ImplicitSome)
            } else {
                (r matches Err(e) && e.is_fatal() && e.locs_in(end))
            }
        }),
{
    let tags: [&str; 2] = ["unwrap_newtypes", "implicit_some"];
    let mapping: [Extension; 2] = [Extension::UnwrapNewtypes, Extension::ImplicitSome];
    let r = one_of_tags(tags.as_slice(), mapping.as_slice(), input);
    proof {
        reveal_strlit("unwrap_newtypes");
        reveal_strlit("implicit_some");
        let s = input.src@;
        let pos = input.pos as int;
        let end = input.end as int;
        if starts_with_at(s, pos, end, "unwrap_newtypes"@) {
            assert(tags@[0]@ == "unwrap_newtypes"@);
        } else if starts_with_at(s, pos, end, "implicit_some"@) {
            assert(tags@[1]@ == "implicit_some"@);
        }
        if r is Ok {
            let p = r->Ok_0;
            let k = choose|k: int|
                0 <= k < tags@.len() && p.0.pos == input.pos + (#[trigger] tags@[k])@.len()
                    && starts_with_at(s, pos, end, tags@[k]@);
            assert(k == 0 || k == 1);
            assert(tags@[k]@.len() > 0);
        }
    }
    r
}

/// What the first character of an expression says about its form.
#[derive(Clone, Copy, Debug)]
pub enum ExprClass {
    StructTuple,
    RonMap,
    StrString,
    List,
    Bool,
    Signed,
    Dec,
    UnsignedDec,
    LeadingIdent,
}

pub open spec fn classify(c: char) -> Option<ExprClass> {
    if c == '(' {
        Some(ExprClass::StructTuple)
    } else if c == '{' {
        Some(ExprClass::RonMap)
    } else if c == '"' {
        Some(ExprClass::StrString)
    } else if c == '[' {
        Some(ExprClass::List)
    } else if c == 't' || c == 'f' {
        Some(ExprClass::Bool)
    } else if c == '+' || c == '-' {
        Some(ExprClass::Signed)
    } else if c == '.' {
        Some(ExprClass::Dec)
    } else if spec_is_digit(c) {
        Some(ExprClass::UnsignedDec)
    } else if spec_is_ident_first_char(c) {
        Some(ExprClass::LeadingIdent)
    } else {
        None
    }
}

impl ExprClass {
    /// Classifies the next expression by its first character; the caller
    /// peeks, so the consuming position it returns is discarded.
    pub fn parse<'a>(input: Input<'a>) -> (r: IResultLookahead<'a, ExprClass>)
        requires
            input.wf(),
        ensures
            ({
                let s = input.src@;
                let pos = input.pos as int;
                let end = input.end as int;
                if pos < end && classify(s[pos]) is Some {
                    (r matches Ok(p) && p.0 == input.at(pos + 1) && classify(s[pos]) == Some(p.1))
                } else {
                    (r matches Err(e) && ident_start_err(e, pos) && e.locs_in(end))
                }
            }),
    {
        if input.pos >= input.end {
            return Err(
                rec_expected(
                    input.pos,
                    Expectation::OneOfExpectations(
                        vec![Expectation::Alpha, Expectation::Char('_')],
                    ),
                ),
            );
        }
        let c = input.src[input.pos];
        let class = if c == '(' {
            ExprClass::StructTuple
        } else if c == '{' {
            ExprClass::RonMap
        } else if c == '"' {
            ExprClass::StrString
        } else if c == '[' {
            ExprClass::List
        } else if c == 't' || c == 'f' {
            ExprClass::Bool
        } else if c == '+' || c == '-' {
            ExprClass::Signed
        } else if c == '.' {
            ExprClass::Dec
        } else if is_ident_first_char(c) {
            ExprClass::LeadingIdent
        } else {
            let v = c as u32;
            if 48 <= v && v <= 57 {
                ExprClass::UnsignedDec
            } else {
                return Err(
                    rec_expected(
                        input.pos,
                        Expectation::OneOfExpectations(
                            vec![Expectation::Alpha, Expectation::Char('_')],
                        ),
                    ),
                );
            }
        };
        Ok((input.advance(1), class))
    }
}

/// The digit run at `pos` forms a complete unsigned integer: it is
/// followed by nothing that extends it into a decimal, and its value
/// fits 64 bits.
pub open spec fn unsigned_complete(s: Seq<char>, pos: int, end: int) -> bool {
    &&& pos < end
    &&& spec_is_digit(s[pos])
    &&& ({
        let run = digit_run(s, pos, end);
        &&& !(run < end && (s[run] == '.' || s[run] == 'e' || s[run] == 'E'))
        &&& digits_val(s.subrange(pos, run)) <= u64::MAX as int
    })
}

/// The sign at `pos` is followed by a complete unsigned integer: the
/// digit run is not extended into a decimal and its value fits 64 bits.
pub open spec fn signed_complete(s: Seq<char>, pos: int, end: int) -> bool {
    &&& pos < end && (s[pos] == '+' || s[pos] == '-')
    &&& pos + 1 < end && spec_is_digit(s[pos + 1])
    &&& ({
        let run = digit_run(s, pos + 1, end);
        &&& !(run < end && (s[run] == '.' || s[run] == 'e' || s[run] == 'E'))
        &&& digits_val(s.subrange(pos + 1, run)) <= u64::MAX as int
    })
}

/// The values a parsed element sequence carries, where every element is
/// an unsigned integer.
pub open spec fn elems_uints(es: Seq<Spanned<Expr>>) -> Seq<u64> {
    es.map_values(
        |sp: Spanned<Expr>|
            match sp.value {
                Expr::Integer(Integer::Unsigned(u)) => u.number,
                _ => 0u64,
            },
    )
}

/// The comma-separated run of complete unsigned integers read from
/// `pos` (already past any leading whitespace): values in source order,
/// an optional trailing comma, ending at `close` (not consumed), whose
/// position the scan names. `None` where anything else stands there.
pub open spec fn uint_list_scan(s: Seq<char>, pos: int, end: int, close: char) -> Option<
    (int, Seq<u64>),
>
    decreases end - pos,
        when 0 <= pos <= end <= s.len()
        via uint_list_scan_dec
{
    if pos < end && s[pos] == close {
        Some((pos, Seq::empty()))
    } else if unsigned_complete(s, pos, end) {
        let v = digits_val(s.subrange(pos, digit_run(s, pos, end))) as u64;
        match ws_scan(s, digit_run(s, pos, end), end) {
            Some(q) => if q < end && s[q] == ',' {
                match ws_scan(s, q + 1, end) {
                    Some(q2) => match uint_list_scan(s, q2, end, close) {
                        Some(st) => Some((st.0, seq![v] + st.1)),
                        None => None,
                    },
                    None => None,
                }
            } else if q < end && s[q] == close {
                Some((q, seq![v]))
            } else {
                None
            },
            None => None,
        }
    } else {
        None
    }
}

#[via_fn]
proof fn uint_list_scan_dec(s: Seq<char>, pos: int, end: int, close: char) {
    if !(pos < end && s[pos] == close) && unsigned_complete(s, pos, end) {
        lemma_digit_run_bounds(s, pos, end);
        lemma_ws_scan_bounds(s, digit_run(s, pos, end), end);
        if let Some(q) = ws_scan(s, digit_run(s, pos, end), end) {
            if q + 1 <= end {
                lemma_ws_scan_bounds(s, q + 1, end);
            }
        }
    }
}

/// A complete unsigned-integer list stops on its closing character.
pub proof fn lemma_uint_list_scan_bounds(s: Seq<char>, pos: int, end: int, close: char)
    requires
        0 <= pos <= end <= s.len(),
    ensures
        uint_list_scan(s, pos, end, close) matches Some(st) ==> pos <= st.0 < end && s[st.0]
            == close,
    decreases end - pos,
{
    if !(pos < end && s[pos] == close) && unsigned_complete(s, pos, end) {
        lemma_digit_run_bounds(s, pos, end);
        lemma_ws_scan_bounds(s, digit_run(s, pos, end), end);
        if let Some(q) = ws_scan(s, digit_run(s, pos, end), end) {
            if q < end && s[q] == ',' {
                lemma_ws_scan_bounds(s, q + 1, end);
                if let Some(q2) = ws_scan(s, q + 1, end) {
                    lemma_uint_list_scan_bounds(s, q2, end, close);
                }
            }
        }
    }
}

/// A quoted string at `pos` closes without any escape in between.
pub open spec fn unescaped_complete(s: Seq<char>, pos: int, end: int) -> bool {
    &&& pos < end && s[pos] == '"'
    &&& ({
        let q = lit_run(s, pos + 1, end);
        q < end && s[q] == '"'
    })
}

/// A quoted string at `pos` carries an escape and its body unescapes up
/// to a closing quote.
pub open spec fn escaped_complete(s: Seq<char>, pos: int, end: int) -> bool {
    &&& pos < end && s[pos] == '"'
    &&& !unescaped_complete(s, pos, end)
    &&& (match str_body(s, pos + 1, end) {
        Some(st) => st.0 < end && s[st.0] == '"',
        None => false,
    })
}

/// The exact results [`expr`] owes on numeric and string inputs.
pub open spec fn expr_exact(r: IResultLookahead<Expr>, input: Input) -> bool {
    let s = input.src@;
    let pos = input.pos as int;
    let end = input.end as int;
    &&& (unsigned_complete(s, pos, end) ==> (r matches Ok(p) && p.0 == input.at(
        digit_run(s, pos, end),
    ) && p.1 == Expr::Integer(
        Integer::Unsigned(
            UnsignedInteger { number: digits_val(s.subrange(pos, digit_run(s, pos, end))) as u64 },
        ),
    )))
    &&& (unescaped_complete(s, pos, end) ==> (r matches Ok(p) && p.0 == input.at(
        lit_run(s, pos + 1, end) + 1,
    ) && (p.1 matches Expr::Str(t) && t@ == s.subrange(pos + 1, lit_run(s, pos + 1, end)))))
    &&& (escaped_complete(s, pos, end) ==> (match str_body(s, pos + 1, end) {
        Some(st) => (r matches Ok(p) && p.0 == input.at(st.0 + 1) && (p.1
            matches Expr::String(t) && t@ == st.1)),
        None => false,
    }))
    &&& (signed_complete(s, pos, end) ==> (r matches Ok(p) && p.0 == input.at(
        digit_run(s, pos + 1, end),
    ) && p.1 == Expr::Integer(
        Integer::Signed(
            SignedInteger {
                sign: if s[pos] == '+' {
                    Sign::Positive
                } else {
                    Sign::Negative
                },
                number: digits_val(s.subrange(pos + 1, digit_run(s, pos + 1, end))) as u64,
            },
        ),
    )))
    &&& (pos < end && (s[pos] == '.' || s[pos] == '+' || s[pos] == '-' || spec_is_digit(s[pos]))
        ==> (match dec_ok(s, pos, end) {
        Some(pr) => (r matches Ok(p) && p.0 == input.at(pr.0) && p.1 == Expr::Decimal(pr.1)),
        None => true,
    }))
    &&& (pos < end && s[pos] == '{' ==> (match ws_scan(s, pos + 1, end) {
        Some(p0) => (match map_list_scan(s, p0, end) {
            Some(st) => (r matches Ok(p) && p.0 == input.at(st.0 + 1) && (
            p.1 matches Expr::RonMap(m) && m.entries.value@.len() == st.1.len() && (forall|i: int|
                0 <= i < st.1.len() ==> sv_matches(
                    (#[trigger] m.entries.value@[i]).value.key.value,
                    st.1[i].0,
                ) && sv_matches(m.entries.value@[i].value.value.value, st.1[i].1)))),
            None => true,
        }),
        None => true,
    }))
    &&& (pos < end && s[pos] == '(' ==> (match ws_scan(s, pos + 1, end) {
        Some(p0) => (match uint_list_scan(s, p0, end, ')') {
            Some(st) => st.1.len() > 0 ==> (r matches Ok(p) && p.0 == input.at(st.0 + 1) && (
            p.1 matches Expr::Tuple(l) && l.elements@.len() == st.1.len() && (forall|i: int|
                0 <= i < st.1.len() ==> (#[trigger] l.elements@[i]).value == Expr::Integer(
                    Integer::Unsigned(UnsignedInteger { number: st.1[i] }),
                )))),
            None => true,
        }),
        None => true,
    }))
    &&& (pos < end && s[pos] == '[' ==> (match ws_scan(s, pos + 1, end) {
        Some(p0) => (match uint_list_scan(s, p0, end, ']') {
            Some(st) => (r matches Ok(p) && p.0 == input.at(st.0 + 1) && (
            p.1 matches Expr::List(l) && l.elements@.len() == st.1.len() && (forall|i: int|
                0 <= i < st.1.len() ==> (#[trigger] l.elements@[i]).value == Expr::Integer(
                    Integer::Unsigned(UnsignedInteger { number: st.1[i] }),
                )))),
            None => true,
        }),
        None => true,
    }))
    &&& (pos < end && s[pos] == '(' ==> (match ws_scan(s, pos + 1, end) {
        Some(p0) => (match kv_list_scan(s, p0, end) {
            Some(st) => st.1.len() > 0 ==> (r matches Ok(p) && p.0 == input.at(st.0 + 1) && (
            p.1 matches Expr::Struct(sv) && sv.ident is None && sv.fields.value@.len()
                == st.1.len() && (forall|i: int|
                0 <= i < st.1.len() ==> (#[trigger] sv.fields.value@[i]).value.key.value.0@
                    == st.1[i].0 && sv_matches(sv.fields.value@[i].value.value.value, st.1[i].1)))),
            None => true,
        }),
        None => true,
    }))
    &&& (classify(s[pos]) == Some(ExprClass::LeadingIdent) && pos < end ==> (match ws_scan(
        s,
        ident_run(s, pos, end),
        end,
    ) {
        Some(c) => (c < end && s[c] == '(') ==> (match ws_scan(s, c + 1, end) {
            Some(p0) => (match kv_list_scan(s, p0, end) {
                Some(st) => (r matches Ok(p) && p.0 == input.at(st.0 + 1) && (
                p.1 matches Expr::Struct(sv) && (sv.ident matches Some(id) && id.value.0@
                    == s.subrange(pos, ident_run(s, pos, end))) && sv.fields.value@.len()
                    == st.1.len() && (forall|i: int|
                    0 <= i < st.1.len() ==> (#[trigger] sv.fields.value@[i]).value.key.value.0@
                        == st.1[i].0 && sv_matches(sv.fields.value@[i].value.value.value, st.1[i].1)))),
                None => true,
            }),
            None => true,
        }),
        None => true,
    }))
    &&& (starts_with_at(s, pos, end, "true"@) ==> (r matches Ok(p) && p.0 == input.at(
        pos + "true"@.len(),
    ) && p.1 == Expr::Bool(true)))
    &&& (starts_with_at(s, pos, end, "false"@) ==> (r matches Ok(p) && p.0 == input.at(
        pos + "false"@.len(),
    ) && p.1 == Expr::Bool(false)))
}

/// Where a field name at `pos` is not followed by its colon: the
/// position of the offending character (or of the end of input), if so.
pub open spec fn missing_colon_at(s: Seq<char>, pos: int, end: int) -> Option<int> {
    if pos < end && spec_is_ident_first_char(s[pos]) {
        match ws_scan(s, ident_run(s, pos, end), end) {
            Some(c1) => if !(c1 < end && s[c1] == ':') {
                Some(c1)
            } else {
                None
            },
            None => None,
        }
    } else {
        None
    }
}

/// A simple complete value, in spec terms: integers, booleans, and
/// quoted strings (without and with escapes), the texts as sequences.
pub enum SimpleVal {
    UInt(u64),
    SInt(Sign, u64),
    Dec(Decimal),
    Boolean(bool),
    Text(Seq<char>),
    TextEsc(Seq<char>),
    UIntList(Seq<u64>),
}

/// The parsed expression `e` is what the descriptor `v` says.
pub open spec fn sv_matches(e: Expr, v: SimpleVal) -> bool {
    match v {
        SimpleVal::UInt(n) => e == Expr::Integer(Integer::Unsigned(UnsignedInteger { number: n })),
        SimpleVal::SInt(sg, n) => e == Expr::Integer(
            Integer::Signed(SignedInteger { sign: sg, number: n }),
        ),
        SimpleVal::Dec(d) => e == Expr::Decimal(d),
        SimpleVal::Boolean(b) => e == Expr::Bool(b),
        SimpleVal::Text(t) => e matches Expr::Str(x) && x@ == t,
        SimpleVal::TextEsc(t) => e matches Expr::String(x) && x@ == t,
        SimpleVal::UIntList(vs) => e matches Expr::List(l) && l.elements@.len() == vs.len() && (
        forall|i: int|
            0 <= i < vs.len() ==> (#[trigger] l.elements@[i]).value == Expr::Integer(
                Integer::Unsigned(UnsignedInteger { number: vs[i] }),
            )),
    }
}

/// A simple complete value at `pos`: an unsigned or signed integer, a
/// boolean, or a quoted string, with where it stops. `None` for every
/// other form.
pub open spec fn simple_val_scan(s: Seq<char>, pos: int, end: int) -> Option<(int, SimpleVal)> {
    if pos < end && spec_is_digit(s[pos]) && unsigned_complete(s, pos, end) {
        Some(
            (
                digit_run(s, pos, end),
                SimpleVal::UInt(digits_val(s.subrange(pos, digit_run(s, pos, end))) as u64),
            ),
        )
    } else if signed_complete(s, pos, end) {
        Some(
            (
                digit_run(s, pos + 1, end),
                SimpleVal::SInt(
                    if s[pos] == '+' {
                        Sign::Positive
                    } else {
                        Sign::Negative
                    },
                    digits_val(s.subrange(pos + 1, digit_run(s, pos + 1, end))) as u64,
                ),
            ),
        )
    } else if pos < end && (s[pos] == '.' || s[pos] == '+' || s[pos] == '-' || spec_is_digit(
        s[pos],
    )) {
        match dec_ok(s, pos, end) {
            Some(pr) => Some((pr.0, SimpleVal::Dec(pr.1))),
            None => None,
        }
    } else if starts_with_at(s, pos, end, "true"@) {
        Some((pos + "true"@.len(), SimpleVal::Boolean(true)))
    } else if starts_with_at(s, pos, end, "false"@) {
        Some((pos + "false"@.len(), SimpleVal::Boolean(false)))
    } else if unescaped_complete(s, pos, end) {
        Some(
            (
                lit_run(s, pos + 1, end) + 1,
                SimpleVal::Text(s.subrange(pos + 1, lit_run(s, pos + 1, end))),
            ),
        )
    } else if escaped_complete(s, pos, end) {
        match str_body(s, pos + 1, end) {
            Some(st) => Some((st.0 + 1, SimpleVal::TextEsc(st.1))),
            None => None,
        }
    } else if pos < end && s[pos] == '[' {
        match ws_scan(s, pos + 1, end) {
            Some(p0) => match uint_list_scan(s, p0, end, ']') {
                Some(st) => Some((st.0 + 1, SimpleVal::UIntList(st.1))),
                None => None,
            },
            None => None,
        }
    } else {
        None
    }
}

/// A simple complete value stops past its start and within the input.
pub proof fn lemma_simple_val_scan_bounds(s: Seq<char>, pos: int, end: int)
    requires
        0 <= pos <= end <= s.len(),
    ensures
        simple_val_scan(s, pos, end) matches Some(st) ==> pos < st.0 <= end,
{
    reveal_strlit("true");
    reveal_strlit("false");
    lemma_digit_run_bounds(s, pos, end);
    crate::number::lemma_dec_ok_bounds(s, pos, end);
    if pos < end {
        lemma_digit_run_bounds(s, pos + 1, end);
        crate::strings::lemma_lit_run_bounds(s, pos + 1, end);
        crate::strings::lemma_str_body_bounds(s, pos + 1, end);
        lemma_ws_scan_bounds(s, pos + 1, end);
        if let Some(p0) = ws_scan(s, pos + 1, end) {
            lemma_uint_list_scan_bounds(s, p0, end, ']');
        }
    }
}

/// The comma-separated run of `ident: value` fields (values simple, as
/// [`simple_val_scan`] reads them) from `pos` (already past leading
/// whitespace), ending at `)` (not consumed): the field names and values
/// in source order. `None` where anything else stands there.
pub open spec fn kv_list_scan(s: Seq<char>, pos: int, end: int) -> Option<
    (int, Seq<(Seq<char>, SimpleVal)>),
>
    decreases end - pos,
        when 0 <= pos <= end <= s.len()
        via kv_list_scan_dec
{
    if pos < end && s[pos] == ')' {
        Some((pos, Seq::empty()))
    } else if pos < end && spec_is_ident_first_char(s[pos]) {
        let ir = ident_run(s, pos, end);
        match ws_scan(s, ir, end) {
            Some(c1) => if c1 < end && s[c1] == ':' {
                match ws_scan(s, c1 + 1, end) {
                    Some(vs) => match simple_val_scan(s, vs, end) {
                        Some(vst) => match ws_scan(s, vst.0, end) {
                            Some(q) => if q < end && s[q] == ',' {
                                match ws_scan(s, q + 1, end) {
                                    Some(q2) => match kv_list_scan(s, q2, end) {
                                        Some(st) => Some(
                                            (st.0, seq![(s.subrange(pos, ir), vst.1)] + st.1),
                                        ),
                                        None => None,
                                    },
                                    None => None,
                                }
                            } else if q < end && s[q] == ')' {
                                Some((q, seq![(s.subrange(pos, ir), vst.1)]))
                            } else {
                                None
                            },
                            None => None,
                        },
                        None => None,
                    },
                    None => None,
                }
            } else {
                None
            },
            None => None,
        }
    } else {
        None
    }
}

#[via_fn]
proof fn kv_list_scan_dec(s: Seq<char>, pos: int, end: int) {
    if !(pos < end && s[pos] == ')') && pos < end && spec_is_ident_first_char(s[pos]) {
        lemma_ident_run_bounds(s, pos, end);
        let ir = ident_run(s, pos, end);
        lemma_ws_scan_bounds(s, ir, end);
        if let Some(c1) = ws_scan(s, ir, end) {
            if c1 + 1 <= end {
                lemma_ws_scan_bounds(s, c1 + 1, end);
                if let Some(vs) = ws_scan(s, c1 + 1, end) {
                    lemma_simple_val_scan_bounds(s, vs, end);
                    if let Some(vst) = simple_val_scan(s, vs, end) {
                        lemma_ws_scan_bounds(s, vst.0, end);
                        if let Some(q) = ws_scan(s, vst.0, end) {
                            if q + 1 <= end {
                                lemma_ws_scan_bounds(s, q + 1, end);
                            }
                        }
                    }
                }
            }
        }
    }
}

/// A complete field list stops on the closing `)`.
pub proof fn lemma_kv_list_scan_bounds(s: Seq<char>, pos: int, end: int)
    requires
        0 <= pos <= end <= s.len(),
    ensures
        kv_list_scan(s, pos, end) matches Some(st) ==> pos <= st.0 < end && s[st.0] == ')',
    decreases end - pos,
{
    if !(pos < end && s[pos] == ')') && pos < end && spec_is_ident_first_char(s[pos]) {
        lemma_ident_run_bounds(s, pos, end);
        let ir = ident_run(s, pos, end);
        lemma_ws_scan_bounds(s, ir, end);
        if let Some(c1) = ws_scan(s, ir, end) {
            if c1 + 1 <= end {
                lemma_ws_scan_bounds(s, c1 + 1, end);
                if let Some(vs) = ws_scan(s, c1 + 1, end) {
                    lemma_simple_val_scan_bounds(s, vs, end);
                    if let Some(vst) = simple_val_scan(s, vs, end) {
                        lemma_ws_scan_bounds(s, vst.0, end);
                        if let Some(q) = ws_scan(s, vst.0, end) {
                            if q < end && s[q] == ',' {
                                lemma_ws_scan_bounds(s, q + 1, end);
                                if let Some(q2) = ws_scan(s, q + 1, end) {
                                    lemma_kv_list_scan_bounds(s, q2, end);
                                }
                            }
                        }
                    }
                }
            }
        }
    }
}

/// The comma-separated run of `key: value` map entries (keys and values
/// simple, as [`simple_val_scan`] reads them) from `pos` (already past
/// leading whitespace), ending at `}` (not consumed): the key and value
/// descriptors in source order. `None` where anything else stands there.
pub open spec fn map_list_scan(s: Seq<char>, pos: int, end: int) -> Option<
    (int, Seq<(SimpleVal, SimpleVal)>),
>
    decreases end - pos,
        when 0 <= pos <= end <= s.len()
        via map_list_scan_dec
{
    if pos < end && s[pos] == '}' {
        Some((pos, Seq::empty()))
    } else {
        match simple_val_scan(s, pos, end) {
            Some(kst) => match ws_scan(s, kst.0, end) {
                Some(c1) => if c1 < end && s[c1] == ':' {
                    match ws_scan(s, c1 + 1, end) {
                        Some(vs) => match simple_val_scan(s, vs, end) {
                            Some(vst) => match ws_scan(s, vst.0, end) {
                                Some(q) => if q < end && s[q] == ',' {
                                    match ws_scan(s, q + 1, end) {
                                        Some(q2) => match map_list_scan(s, q2, end) {
                                            Some(st) => Some(
                                                (st.0, seq![(kst.1, vst.1)] + st.1),
                                            ),
                                            None => None,
                                        },
                                        None => None,
                                    }
                                } else if q < end && s[q] == '}' {
                                    Some((q, seq![(kst.1, vst.1)]))
                                } else {
                                    None
                                },
                                None => None,
                            },
                            None => None,
                        },
                        None => None,
                    }
                } else {
                    None
                },
                None => None,
            },
            None => None,
        }
    }
}

#[via_fn]
proof fn map_list_scan_dec(s: Seq<char>, pos: int, end: int) {
    if !(pos < end && s[pos] == '}') {
        lemma_simple_val_scan_bounds(s, pos, end);
        if let Some(kst) = simple_val_scan(s, pos, end) {
            lemma_ws_scan_bounds(s, kst.0, end);
            if let Some(c1) = ws_scan(s, kst.0, end) {
                if c1 + 1 <= end {
                    lemma_ws_scan_bounds(s, c1 + 1, end);
                    if let Some(vs) = ws_scan(s, c1 + 1, end) {
                        lemma_simple_val_scan_bounds(s, vs, end);
                        if let Some(vst) = simple_val_scan(s, vs, end) {
                            lemma_ws_scan_bounds(s, vst.0, end);
                            if let Some(q) = ws_scan(s, vst.0, end) {
                                if q + 1 <= end {
                                    lemma_ws_scan_bounds(s, q + 1, end);
                                }
                            }
                        }
                    }
                }
            }
        }
    }
}

/// A complete entry list stops on the closing `}`.
pub proof fn lemma_map_list_scan_bounds(s: Seq<char>, pos: int, end: int)
    requires
        0 <= pos <= end <= s.len(),
    ensures
        map_list_scan(s, pos, end) matches Some(st) ==> pos <= st.0 < end && s[st.0] == '}',
    decreases end - pos,
{
    if !(pos < end && s[pos] == '}') {
        lemma_simple_val_scan_bounds(s, pos, end);
        if let Some(kst) = simple_val_scan(s, pos, end) {
            lemma_ws_scan_bounds(s, kst.0, end);
            if let Some(c1) = ws_scan(s, kst.0, end) {
                if c1 < end && s[c1] == ':' && c1 + 1 <= end {
                    lemma_ws_scan_bounds(s, c1 + 1, end);
                    if let Some(vs) = ws_scan(s, c1 + 1, end) {
                        lemma_simple_val_scan_bounds(s, vs, end);
                        if let Some(vst) = simple_val_scan(s, vs, end) {
                            lemma_ws_scan_bounds(s, vst.0, end);
                            if let Some(q) = ws_scan(s, vst.0, end) {
                                if q < end && s[q] == ',' {
                                    lemma_ws_scan_bounds(s, q + 1, end);
                                    if let Some(q2) = ws_scan(s, q + 1, end) {
                                        lemma_map_list_scan_bounds(s, q2, end);
                                    }
                                }
                            }
                        }
                    }
                }
            }
        }
    }
}

/// One `ident: expr` field of a struct. Once the identifier is read the
/// colon is owed: its absence is fatal.
fn struct_kv<'a>(input: Input<'a>) -> (r: IResultLookahead<'a, Spanned<KeyValue<Ident>>>)
    requires
        input.wf(),
    ensures
        (match r {
            Ok(p) => {
                &&& advances(input, p.0)
                &&& input.pos < p.0.pos
                &&& p.1.start == input.pos && p.1.end == p.0.pos
                &&& kv_ident_wf(p.1.value, input.pos as int, p.0.pos as int)
                &&& input.pos < input.end && spec_is_ident_first_char(
                    input.src@[input.pos as int],
                )
            },
            Err(e) => e.locs_in(input.end as int),
        }),
        (match missing_colon_at(input.src@, input.pos as int, input.end as int) {
            Some(c1) => (r matches Err(e) && expected_err(e, true, c1, Expectation::Char(':'))),
            None => true,
        }),
        ({
            let s = input.src@;
            let pos = input.pos as int;
            let end = input.end as int;
            (pos < end && spec_is_ident_first_char(s[pos])) ==> (match ws_scan(
                s,
                ident_run(s, pos, end),
                end,
            ) {
                Some(c1) => (c1 < end && s[c1] == ':') ==> (match ws_scan(s, c1 + 1, end) {
                    Some(vs) => (match simple_val_scan(s, vs, end) {
                        Some(vst) => (r matches Ok(p) && p.0 == input.at(vst.0) && p.1.value.key.value.0@
                            == s.subrange(pos, ident_run(s, pos, end)) && sv_matches(
                            p.1.value.value.value,
                            vst.1,
                        )),
                        None => true,
                    }),
                    None => true,
                }),
                None => true,
            })
        }),
    decreases input.end - input.pos, 4int,
{
    proof {
        reveal_strlit("true");
        reveal_strlit("false");
        lemma_ident_run_bounds(input.src@, input.pos as int, input.end as int);
        if input.pos < input.end {
            let ghost s0 = input.src@;
            let ghost ir = ident_run(s0, input.pos as int, input.end as int);
            lemma_ws_scan_bounds(s0, ir, input.end as int);
            if let Some(c1) = ws_scan(s0, ir, input.end as int) {
                if c1 + 1 <= input.end {
                    lemma_ws_scan_bounds(s0, c1 + 1, input.end as int);
                    if let Some(vs) = ws_scan(s0, c1 + 1, input.end as int) {
                        lemma_simple_val_scan_bounds(s0, vs, input.end as int);
                        lemma_digit_run_bounds(s0, vs, input.end as int);
                        if vs < input.end {
                            lemma_digit_run_bounds(s0, vs + 1, input.end as int);
                        }
                    }
                }
            }
        }
    }
    let key_start = input.pos;
    if !(input.pos < input.end && is_ident_first_char(input.src[input.pos])) {
        return Err(
            fatal_expected(
                input.pos,
                Expectation::OneOfExpectations(vec![Expectation::Alpha, Expectation::Char('_')]),
            ),
        );
    }
    let (rest1, id) = ident(input)?;
    let key_sp = Spanned::new(key_start, id, rest1.pos);
    let (cur, _) = skip_ws(rest1)?;
    let (cur2, _) = one_char(':', cur)?;
    let (cur3, _) = skip_ws(cur2)?;
    let v_start = cur3.pos;
    let (rest2, v) = expr(cur3)?;
    let v_sp = Spanned::new(v_start, v, rest2.pos);
    Ok((rest2, Spanned::new(key_start, KeyValue { key: key_sp, value: v_sp }, rest2.pos)))
}

/// One `expr: expr` entry of a map.
#[verifier::rlimit(100)]
fn map_kv<'a>(input: Input<'a>) -> (r: IResultLookahead<'a, Spanned<KeyValue<Expr>>>)
    requires
        input.wf(),
    ensures
        (match r {
            Ok(p) => {
                &&& advances(input, p.0)
                &&& input.pos < p.0.pos
                &&& p.1.start == input.pos && p.1.end == p.0.pos
                &&& kv_expr_wf(p.1.value, input.pos as int, p.0.pos as int)
                &&& input.pos < input.end && classify(input.src@[input.pos as int]) is Some
            },
            Err(e) => e.locs_in(input.end as int),
        }),
        ({
            let s = input.src@;
            let pos = input.pos as int;
            let end = input.end as int;
            match simple_val_scan(s, pos, end) {
                Some(kst) => (match ws_scan(s, kst.0, end) {
                    Some(c1) => (c1 < end && s[c1] == ':') ==> (match ws_scan(s, c1 + 1, end) {
                        Some(vs) => (match simple_val_scan(s, vs, end) {
                            Some(vst) => (r matches Ok(p) && p.0 == input.at(vst.0) && sv_matches(
                                p.1.value.key.value,
                                kst.1,
                            ) && sv_matches(p.1.value.value.value, vst.1)),
                            None => true,
                        }),
                        None => true,
                    }),
                    None => true,
                }),
                None => true,
            }
        }),
    decreases input.end - input.pos, 4int,
{
    proof {
        let s0 = input.src@;
        let pos0 = input.pos as int;
        let end0 = input.end as int;
        lemma_simple_val_scan_bounds(s0, pos0, end0);
        if let Some(kst) = simple_val_scan(s0, pos0, end0) {
            lemma_ws_scan_bounds(s0, kst.0, end0);
            if let Some(c1) = ws_scan(s0, kst.0, end0) {
                if c1 + 1 <= end0 {
                    lemma_ws_scan_bounds(s0, c1 + 1, end0);
                    if let Some(vs) = ws_scan(s0, c1 + 1, end0) {
                        lemma_simple_val_scan_bounds(s0, vs, end0);
                    }
                }
            }
        }
    }
    let key_start = input.pos;
    let (rest1, k) = expr(input)?;
    let key_sp = Spanned::new(key_start, k, rest1.pos);
    let (cur, _) = skip_ws(rest1)?;
    let (cur2, _) = one_char(':', cur)?;
    let (cur3, _) = skip_ws(cur2)?;
    let v_start = cur3.pos;
    let (rest2, v) = expr(cur3)?;
    let v_sp = Spanned::new(v_start, v, rest2.pos);
    Ok((rest2, Spanned::new(key_start, KeyValue { key: key_sp, value: v_sp }, rest2.pos)))
}

/// A comma-separated list of expressions with an optional trailing
/// comma, read up to (but not past) the closing character.
fn expr_elements<'a>(input: Input<'a>, close: char) -> (r: IResultLookahead<
    'a,
    Vec<Spanned<Expr>>,
>)
    requires
        input.wf(),
        classify(close) is None,
    ensures
        (match r {
            Ok(p) => {
                &&& advances(input, p.0)
                &&& p.0.pos < p.0.end && p.0.src@[p.0.pos as int] == close
                &&& elements_wf(p.1@, input.pos as int, p.0.pos as int)
            },
            Err(e) => e.locs_in(input.end as int),
        }),
        (match ws_scan(input.src@, input.pos as int, input.end as int) {
            Some(q) => (q < input.end && input.src@[q] == close) ==> (r matches Ok(p) && p.0
                == input.at(q) && p.1@.len() == 0),
            None => true,
        }),
        (match ws_scan(input.src@, input.pos as int, input.end as int) {
            Some(p0) => (match uint_list_scan(input.src@, p0, input.end as int, close) {
                Some(st) => (r matches Ok(p) && p.0 == input.at(st.0) && p.1@.len() == st.1.len()
                    && (forall|i: int|
                    0 <= i < st.1.len() ==> (#[trigger] p.1@[i]).value == Expr::Integer(
                        Integer::Unsigned(UnsignedInteger { number: st.1[i] }),
                    ))),
                None => true,
            }),
            None => true,
        }),
    decreases input.end - input.pos, 5int,
{
    let ghost s = input.src@;
    let ghost pos0 = input.pos as int;
    let ghost end0 = input.end as int;
    proof {
        lemma_ws_scan_bounds(s, pos0, end0);
    }
    let (first, _) = skip_ws(input)?;
    let mut cur = first;
    let mut es: Vec<Spanned<Expr>> = Vec::new();
    loop
        invariant
            input.wf(),
            cur.wf(),
            s == input.src@,
            pos0 == input.pos as int,
            end0 == input.end as int,
            cur.src == input.src,
            cur.src@ == s,
            cur.end == input.end,
            input.pos <= cur.pos,
            elements_wf(es@, pos0, cur.pos as int),
            classify(close) is None,
            first == input.at(first.pos as int),
            ws_scan(s, pos0, end0) == Some(first.pos as int),
            es@.len() == 0 ==> cur == first,
            es@.len() > 0 ==> first.pos < first.end && classify(s[first.pos as int]) is Some,
            (match uint_list_scan(s, first.pos as int, end0, close) {
                Some(st) => (match uint_list_scan(s, cur.pos as int, end0, close) {
                    Some(st2) => st2.0 == st.0 && st.1 == elems_uints(es@) + st2.1 && (forall|
                        i: int,
                    |
                        0 <= i < es@.len() ==> (#[trigger] es@[i]).value == Expr::Integer(
                            Integer::Unsigned(UnsignedInteger { number: st.1[i] }),
                        )),
                    None => false,
                }),
                None => true,
            }),
        decreases input.end - cur.pos,
    {
        proof {
            lemma_uint_list_scan_bounds(s, first.pos as int, end0, close);
            lemma_uint_list_scan_bounds(s, cur.pos as int, end0, close);
            lemma_digit_run_bounds(s, cur.pos as int, end0);
            if let Some(st) = uint_list_scan(s, first.pos as int, end0, close) {
                if uint_list_scan(s, cur.pos as int, end0, close) is Some {
                    if !(cur.pos < cur.end && s[cur.pos as int] == close) {
                        assert(elems_uints(es@) + Seq::<u64>::empty() =~= elems_uints(es@));
                    }
                }
            }
        }
        if cur.pos < cur.end && cur.src[cur.pos] == close {
            proof {
                if let Some(st) = uint_list_scan(s, first.pos as int, end0, close) {
                    assert(uint_list_scan(s, cur.pos as int, end0, close) == Some(
                        (cur.pos as int, Seq::<u64>::empty()),
                    ));
                    assert(elems_uints(es@) + Seq::<u64>::empty() =~= elems_uints(es@));
                }
            }
            return Ok((cur, es));
        }
        let e_start = cur.pos;
        let (rest, e) = expr(cur)?;
        let sp = Spanned::new(e_start, e, rest.pos);
        proof {
            assert forall|i: int| 0 <= i < es@.len() + 1 implies spanned_expr_wf(
                #[trigger] es@.push(sp)[i],
                pos0,
                rest.pos as int,
            ) by {
                if i < es@.len() {
                    assert(spanned_expr_wf(es@[i], pos0, cur.pos as int));
                }
            }
        }
        let ghost old_es = es@;
        es.push(sp);
        proof {
            assert(elements_wf(es@, pos0, rest.pos as int));
            if let Some(st0) = uint_list_scan(s, first.pos as int, end0, close) {
                assert(elems_uints(old_es.push(sp)) =~= elems_uints(old_es).push(
                    sp.value->Integer_0->Unsigned_0.number,
                ));
            }
        }
        let (after, _) = skip_ws(rest)?;
        cur = after;
        proof {
            crate::ast::lemma_elements_wf_widen(es@, pos0, rest.pos as int, cur.pos as int);
        }
        if cur.pos < cur.end && cur.src[cur.pos] == ',' {
            let ghost prev = cur.pos as int;
            let next = cur.advance(1);
            let (after2, _) = skip_ws(next)?;
            cur = after2;
            proof {
                crate::ast::lemma_elements_wf_widen(es@, pos0, prev, cur.pos as int);
                if let Some(st0) = uint_list_scan(s, first.pos as int, end0, close) {
                    if let Some(st3) = uint_list_scan(s, cur.pos as int, end0, close) {
                        assert(elems_uints(old_es) + (seq![
                            sp.value->Integer_0->Unsigned_0.number,
                        ] + st3.1) =~= elems_uints(es@) + st3.1);
                    }
                }
            }
        } else if cur.pos < cur.end && cur.src[cur.pos] == close {
            proof {
                if let Some(st0) = uint_list_scan(s, first.pos as int, end0, close) {
                    assert(elems_uints(old_es) + seq![
                        sp.value->Integer_0->Unsigned_0.number,
                    ] =~= elems_uints(es@));
                }
            }
            return Ok((cur, es));
        } else {
            return Err(fatal_expected(cur.pos, Expectation::Char(close)));
        }
    }
}

/// A comma-separated list of struct fields, up to the closing `)`.
/// Fails recoverably when the first token is neither a field name nor
/// the closing parenthesis: the caller then reads a tuple instead.
#[verifier::rlimit(100)]
fn kv_list_ident<'a>(input: Input<'a>) -> (r: IResultLookahead<
    'a,
    Vec<Spanned<KeyValue<Ident>>>,
>)
    requires
        input.wf(),
    ensures
        (match r {
            Ok(p) => {
                &&& advances(input, p.0)
                &&& p.0.pos < p.0.end && p.0.src@[p.0.pos as int] == ')'
                &&& entries_ident_wf(p.1@, input.pos as int, p.0.pos as int)
            },
            Err(e) => e.locs_in(input.end as int),
        }),
        (match ws_scan(input.src@, input.pos as int, input.end as int) {
            Some(q) => {
                &&& ((q < input.end && input.src@[q] == ')') ==> (r matches Ok(p) && p.0
                    == input.at(q) && p.1@.len() == 0))
                &&& ((q < input.end && input.src@[q] != ')' && !spec_is_ident_first_char(
                    input.src@[q],
                )) ==> (r matches Err(e) && !e.is_fatal()))
                &&& (match kv_list_scan(input.src@, q, input.end as int) {
                    Some(st) => (r matches Ok(p) && p.0 == input.at(st.0) && p.1@.len()
                        == st.1.len() && (forall|i: int|
                        0 <= i < st.1.len() ==> (#[trigger] p.1@[i]).value.key.value.0@
                            == st.1[i].0 && sv_matches(p.1@[i].value.value.value, st.1[i].1))),
                    None => true,
                })
                &&& (match missing_colon_at(input.src@, q, input.end as int) {
                    Some(c1) => (r matches Err(e) && expected_err(
                        e,
                        true,
                        c1,
                        Expectation::Char(':'),
                    )),
                    None => true,
                })
            },
            None => true,
        }),
    decreases input.end - input.pos, 5int,
{
    let ghost s = input.src@;
    let ghost pos0 = input.pos as int;
    let ghost end0 = input.end as int;
    proof {
        lemma_ws_scan_bounds(s, pos0, end0);
    }
    let (first, _) = skip_ws(input)?;
    let mut cur = first;
    let mut es: Vec<Spanned<KeyValue<Ident>>> = Vec::new();
    if !(cur.pos < cur.end && cur.src[cur.pos] == ')') && !(cur.pos < cur.end
        && is_ident_first_char(cur.src[cur.pos])) {
        return Err(
            rec_expected(
                cur.pos,
                Expectation::OneOfExpectations(vec![Expectation::Alpha, Expectation::Char('_')]),
            ),
        );
    }
    loop
        invariant
            input.wf(),
            cur.wf(),
            s == input.src@,
            pos0 == input.pos as int,
            end0 == input.end as int,
            cur.src == input.src,
            cur.src@ == s,
            cur.end == input.end,
            input.pos <= cur.pos,
            entries_ident_wf(es@, pos0, cur.pos as int),
            first == input.at(first.pos as int),
            ws_scan(s, pos0, end0) == Some(first.pos as int),
            !(first.pos < first.end && s[first.pos as int] != ')'
                && !spec_is_ident_first_char(s[first.pos as int])),
            (match missing_colon_at(s, first.pos as int, end0) {
                Some(c1) => es@.len() == 0 && cur == first,
                None => true,
            }),
            es@.len() == 0 ==> cur == first,
            es@.len() > 0 ==> first.pos < first.end && spec_is_ident_first_char(
                s[first.pos as int],
            ),
            (match kv_list_scan(s, first.pos as int, end0) {
                Some(st) => (match kv_list_scan(s, cur.pos as int, end0) {
                    Some(st2) => st2.0 == st.0 && st.1.len() == es@.len() + st2.1.len() && (forall|
                        i: int,
                    |
                        0 <= i < es@.len() ==> (#[trigger] es@[i]).value.key.value.0@ == st.1[i].0
                            && sv_matches(es@[i].value.value.value, st.1[i].1)) && (forall|i: int|
                        0 <= i < st2.1.len() ==> #[trigger] st2.1[i] == st.1[es@.len() + i]),
                    None => false,
                }),
                None => true,
            }),
        decreases input.end - cur.pos,
    {
        proof {
            lemma_kv_list_scan_bounds(s, first.pos as int, end0);
            lemma_kv_list_scan_bounds(s, cur.pos as int, end0);
        }
        if cur.pos < cur.end && cur.src[cur.pos] == ')' {
            proof {
                if let Some(st) = kv_list_scan(s, first.pos as int, end0) {
                    assert(kv_list_scan(s, cur.pos as int, end0) == Some(
                        (cur.pos as int, Seq::<(Seq<char>, SimpleVal)>::empty()),
                    ));
                }
            }
            return Ok((cur, es));
        }
        let ghost old_es = es@;
        let ghost entry = cur.pos as int;
        let (rest, kv) = struct_kv(cur)?;
        proof {
            assert forall|i: int| 0 <= i < es@.len() + 1 implies ((#[trigger] es@.push(kv)[i]).span_in(
                pos0,
                rest.pos as int,
            ) && kv_ident_wf(
                es@.push(kv)[i].value,
                es@.push(kv)[i].start as int,
                es@.push(kv)[i].end as int,
            )) by {
                if i < es@.len() {
                    assert(es@[i].span_in(pos0, cur.pos as int) && kv_ident_wf(
                        es@[i].value,
                        es@[i].start as int,
                        es@[i].end as int,
                    ));
                }
            }
        }
        es.push(kv);
        proof {
            assert(entries_ident_wf(es@, pos0, rest.pos as int));
            if let Some(st) = kv_list_scan(s, first.pos as int, end0) {
                assert(kv_list_scan(s, entry, end0) is Some);
                assert(entry < end0 && spec_is_ident_first_char(s[entry]));
                assert(s[entry] != ')');
                let ir = ident_run(s, entry, end0);
                lemma_ident_run_bounds(s, entry, end0);
                lemma_ws_scan_bounds(s, ir, end0);
                assert(ws_scan(s, ir, end0) is Some);
                let c1 = ws_scan(s, ir, end0)->Some_0;
                assert(c1 < end0 && s[c1] == ':');
                lemma_ws_scan_bounds(s, c1 + 1, end0);
                assert(ws_scan(s, c1 + 1, end0) is Some);
                let vs = ws_scan(s, c1 + 1, end0)->Some_0;
                lemma_simple_val_scan_bounds(s, vs, end0);
                assert(simple_val_scan(s, vs, end0) is Some);
                let vst = simple_val_scan(s, vs, end0)->Some_0;
                assert(rest.pos as int == vst.0);
                assert(ws_scan(s, rest.pos as int, end0) is Some);
            }
        }
        let (after, _) = skip_ws(rest)?;
        cur = after;
        proof {
            crate::ast::lemma_entries_ident_wf_widen(es@, pos0, rest.pos as int, cur.pos as int);
        }
        if cur.pos < cur.end && cur.src[cur.pos] == ',' {
            let ghost prev = cur.pos as int;
            let next = cur.advance(1);
            proof {
                if let Some(st) = kv_list_scan(s, first.pos as int, end0) {
                    assert(ws_scan(s, next.pos as int, end0) is Some);
                }
            }
            let (after2, _) = skip_ws(next)?;
            cur = after2;
            proof {
                crate::ast::lemma_entries_ident_wf_widen(es@, pos0, prev, cur.pos as int);
                if let Some(st) = kv_list_scan(s, first.pos as int, end0) {
                    let ir = ident_run(s, entry, end0);
                    let c1 = ws_scan(s, ir, end0)->Some_0;
                    let vs = ws_scan(s, c1 + 1, end0)->Some_0;
                    let vst = simple_val_scan(s, vs, end0)->Some_0;
                    let pair = (s.subrange(entry, ir), vst.1);
                    assert(kv_list_scan(s, entry, end0) == (match kv_list_scan(
                        s,
                        cur.pos as int,
                        end0,
                    ) {
                        Some(st3) => Some((st3.0, seq![pair] + st3.1)),
                        None => None::<(int, Seq<(Seq<char>, SimpleVal)>)>,
                    }));
                    let st2e = kv_list_scan(s, entry, end0)->Some_0;
                    if let Some(st3) = kv_list_scan(s, cur.pos as int, end0) {
                        assert(st2e.1 == seq![pair] + st3.1);
                        assert(st2e.1[0] == pair);
                        assert(st.1[old_es.len() as int] == pair);
                        assert forall|i: int| 0 <= i < es@.len() implies (#[trigger] es@[i]).value.key.value.0@
                            == st.1[i].0 && sv_matches(es@[i].value.value.value, st.1[i].1) by {
                            if i < old_es.len() {
                                assert(old_es[i].value.key.value.0@ == st.1[i].0);
                                assert(sv_matches(old_es[i].value.value.value, st.1[i].1));
                            } else {
                                assert(es@[i] == kv);
                            }
                        }
                        assert forall|i: int| 0 <= i < st3.1.len() implies #[trigger] st3.1[i]
                            == st.1[es@.len() + i] by {
                            assert(st2e.1[i + 1] == st3.1[i]);
                            assert(st2e.1[i + 1] == st.1[old_es.len() + i + 1]);
                        }
                    }
                }
            }
        } else if cur.pos < cur.end && cur.src[cur.pos] == ')' {
            proof {
                if let Some(st) = kv_list_scan(s, first.pos as int, end0) {
                    let ir = ident_run(s, entry, end0);
                    let c1 = ws_scan(s, ir, end0)->Some_0;
                    let vs = ws_scan(s, c1 + 1, end0)->Some_0;
                    let vst = simple_val_scan(s, vs, end0)->Some_0;
                    let pair = (s.subrange(entry, ir), vst.1);
                    assert(kv_list_scan(s, entry, end0) == Some((cur.pos as int, seq![pair])));
                    let st2e = kv_list_scan(s, entry, end0)->Some_0;
                    assert(st2e.1[0] == pair);
                    assert(st.1[old_es.len() as int] == pair);
                    assert(st.1.len() == es@.len());
                    assert forall|i: int| 0 <= i < es@.len() implies (#[trigger] es@[i]).value.key.value.0@
                        == st.1[i].0 && sv_matches(es@[i].value.value.value, st.1[i].1) by {
                        if i < old_es.len() {
                            assert(old_es[i].value.key.value.0@ == st.1[i].0);
                            assert(sv_matches(old_es[i].value.value.value, st.1[i].1));
                        } else {
                            assert(es@[i] == kv);
                        }
                    }
                }
            }
            return Ok((cur, es));
        } else {
            proof {
                if let Some(st) = kv_list_scan(s, first.pos as int, end0) {
                    assert(kv_list_scan(s, entry, end0) is None);
                }
            }
            return Err(fatal_expected(cur.pos, Expectation::Char(')')));
        }
    }
}

/// A comma-separated list of map entries, up to the closing `}`.
#[verifier::rlimit(100)]
fn kv_list_expr<'a>(input: Input<'a>) -> (r: IResultLookahead<'a, Vec<Spanned<KeyValue<Expr>>>>)
    requires
        input.wf(),
    ensures
        (match r {
            Ok(p) => {
                &&& advances(input, p.0)
                &&& p.0.pos < p.0.end && p.0.src@[p.0.pos as int] == '}'
                &&& entries_expr_wf(p.1@, input.pos as int, p.0.pos as int)
            },
            Err(e) => e.locs_in(input.end as int),
        }),
        (match ws_scan(input.src@, input.pos as int, input.end as int) {
            Some(q) => {
                &&& ((q < input.end && input.src@[q] == '}') ==> (r matches Ok(p) && p.0
                    == input.at(q) && p.1@.len() == 0))
                &&& (match map_list_scan(input.src@, q, input.end as int) {
                    Some(st) => (r matches Ok(p) && p.0 == input.at(st.0) && p.1@.len()
                        == st.1.len() && (forall|i: int|
                        0 <= i < st.1.len() ==> sv_matches(
                            (#[trigger] p.1@[i]).value.key.value,
                            st.1[i].0,
                        ) && sv_matches(p.1@[i].value.value.value, st.1[i].1))),
                    None => true,
                })
            },
            None => true,
        }),
    decreases input.end - input.pos, 5int,
{
    let ghost s = input.src@;
    let ghost pos0 = input.pos as int;
    let ghost end0 = input.end as int;
    proof {
        lemma_ws_scan_bounds(s, pos0, end0);
    }
    let (first, _) = skip_ws(input)?;
    let mut cur = first;
    let mut es: Vec<Spanned<KeyValue<Expr>>> = Vec::new();
    loop
        invariant
            input.wf(),
            cur.wf(),
            s == input.src@,
            pos0 == input.pos as int,
            end0 == input.end as int,
            cur.src == input.src,
            cur.src@ == s,
            cur.end == input.end,
            input.pos <= cur.pos,
            entries_expr_wf(es@, pos0, cur.pos as int),
            first == input.at(first.pos as int),
            ws_scan(s, pos0, end0) == Some(first.pos as int),
            es@.len() == 0 ==> cur == first,
            es@.len() > 0 ==> first.pos < first.end && classify(s[first.pos as int]) is Some,
            (match map_list_scan(s, first.pos as int, end0) {
                Some(st) => (match map_list_scan(s, cur.pos as int, end0) {
                    Some(st2) => st2.0 == st.0 && st.1.len() == es@.len() + st2.1.len() && (forall|
                        i: int,
                    |
                        0 <= i < es@.len() ==> sv_matches(
                            (#[trigger] es@[i]).value.key.value,
                            st.1[i].0,
                        ) && sv_matches(es@[i].value.value.value, st.1[i].1)) && (forall|i: int|
                        0 <= i < st2.1.len() ==> #[trigger] st2.1[i] == st.1[es@.len() + i]),
                    None => false,
                }),
                None => true,
            }),
        decreases input.end - cur.pos,
    {
        proof {
            lemma_map_list_scan_bounds(s, first.pos as int, end0);
            lemma_map_list_scan_bounds(s, cur.pos as int, end0);
        }
        if cur.pos < cur.end && cur.src[cur.pos] == '}' {
            proof {
                if let Some(st) = map_list_scan(s, first.pos as int, end0) {
                    assert(map_list_scan(s, cur.pos as int, end0) == Some(
                        (cur.pos as int, Seq::<(SimpleVal, SimpleVal)>::empty()),
                    ));
                }
            }
            return Ok((cur, es));
        }
        let ghost entry = cur.pos as int;
        let ghost old_es = es@;
        let (rest, kv) = map_kv(cur)?;
        proof {
            assert forall|i: int| 0 <= i < es@.len() + 1 implies ((#[trigger] es@.push(kv)[i]).span_in(
                pos0,
                rest.pos as int,
            ) && kv_expr_wf(
                es@.push(kv)[i].value,
                es@.push(kv)[i].start as int,
                es@.push(kv)[i].end as int,
            )) by {
                if i < es@.len() {
                    assert(es@[i].span_in(pos0, cur.pos as int) && kv_expr_wf(
                        es@[i].value,
                        es@[i].start as int,
                        es@[i].end as int,
                    ));
                }
            }
        }
        es.push(kv);
        proof {
            assert(entries_expr_wf(es@, pos0, rest.pos as int));
            if let Some(st) = map_list_scan(s, first.pos as int, end0) {
                assert(map_list_scan(s, entry, end0) is Some);
                lemma_simple_val_scan_bounds(s, entry, end0);
                assert(simple_val_scan(s, entry, end0) is Some);
                let kst = simple_val_scan(s, entry, end0)->Some_0;
                lemma_ws_scan_bounds(s, kst.0, end0);
                assert(ws_scan(s, kst.0, end0) is Some);
                let c1 = ws_scan(s, kst.0, end0)->Some_0;
                assert(c1 < end0 && s[c1] == ':');
                lemma_ws_scan_bounds(s, c1 + 1, end0);
                assert(ws_scan(s, c1 + 1, end0) is Some);
                let vs = ws_scan(s, c1 + 1, end0)->Some_0;
                lemma_simple_val_scan_bounds(s, vs, end0);
                assert(simple_val_scan(s, vs, end0) is Some);
                let vst = simple_val_scan(s, vs, end0)->Some_0;
                assert(rest.pos as int == vst.0);
                assert(ws_scan(s, rest.pos as int, end0) is Some);
            }
        }
        let (after, _) = skip_ws(rest)?;
        cur = after;
        proof {
            crate::ast::lemma_entries_expr_wf_widen(es@, pos0, rest.pos as int, cur.pos as int);
        }
        if cur.pos < cur.end && cur.src[cur.pos] == ',' {
            let ghost prev = cur.pos as int;
            let next = cur.advance(1);
            proof {
                if let Some(st) = map_list_scan(s, first.pos as int, end0) {
                    assert(ws_scan(s, next.pos as int, end0) is Some);
                }
            }
            let (after2, _) = skip_ws(next)?;
            cur = after2;
            proof {
                crate::ast::lemma_entries_expr_wf_widen(es@, pos0, prev, cur.pos as int);
                if let Some(st) = map_list_scan(s, first.pos as int, end0) {
                    let kst = simple_val_scan(s, entry, end0)->Some_0;
                    let c1 = ws_scan(s, kst.0, end0)->Some_0;
                    let vs = ws_scan(s, c1 + 1, end0)->Some_0;
                    let vst = simple_val_scan(s, vs, end0)->Some_0;
                    let pair = (kst.1, vst.1);
                    assert(map_list_scan(s, entry, end0) == (match map_list_scan(
                        s,
                        cur.pos as int,
                        end0,
                    ) {
                        Some(st3) => Some((st3.0, seq![pair] + st3.1)),
                        None => None::<(int, Seq<(SimpleVal, SimpleVal)>)>,
                    }));
                    let st2e = map_list_scan(s, entry, end0)->Some_0;
                    if let Some(st3) = map_list_scan(s, cur.pos as int, end0) {
                        assert(st2e.1 == seq![pair] + st3.1);
                        assert(st2e.1[0] == pair);
                        assert(st.1[old_es.len() as int] == pair);
                        assert forall|i: int| 0 <= i < es@.len() implies sv_matches(
                            (#[trigger] es@[i]).value.key.value,
                            st.1[i].0,
                        ) && sv_matches(es@[i].value.value.value, st.1[i].1) by {
                            if i < old_es.len() {
                                assert(sv_matches(old_es[i].value.key.value, st.1[i].0));
                                assert(sv_matches(old_es[i].value.value.value, st.1[i].1));
                            } else {
                                assert(es@[i] == kv);
                            }
                        }
                        assert forall|i: int| 0 <= i < st3.1.len() implies #[trigger] st3.1[i]
                            == st.1[es@.len() + i] by {
                            assert(st2e.1[i + 1] == st3.1[i]);
                            assert(st2e.1[i + 1] == st.1[old_es.len() + i + 1]);
                        }
                    }
                }
            }
        } else if cur.pos < cur.end && cur.src[cur.pos] == '}' {
            proof {
                if let Some(st) = map_list_scan(s, first.pos as int, end0) {
                    let kst = simple_val_scan(s, entry, end0)->Some_0;
                    let c1 = ws_scan(s, kst.0, end0)->Some_0;
                    let vs = ws_scan(s, c1 + 1, end0)->Some_0;
                    let vst = simple_val_scan(s, vs, end0)->Some_0;
                    let pair = (kst.1, vst.1);
                    assert(map_list_scan(s, entry, end0) == Some((cur.pos as int, seq![pair])));
                    let st2e = map_list_scan(s, entry, end0)->Some_0;
                    assert(st2e.1[0] == pair);
                    assert(st.1[old_es.len() as int] == pair);
                    assert(st.1.len() == es@.len());
                    assert forall|i: int| 0 <= i < es@.len() implies sv_matches(
                        (#[trigger] es@[i]).value.key.value,
                        st.1[i].0,
                    ) && sv_matches(es@[i].value.value.value, st.1[i].1) by {
                        if i < old_es.len() {
                            assert(sv_matches(old_es[i].value.key.value, st.1[i].0));
                            assert(sv_matches(old_es[i].value.value.value, st.1[i].1));
                        } else {
                            assert(es@[i] == kv);
                        }
                    }
                }
            }
            return Ok((cur, es));
        } else {
            proof {
                if let Some(st) = map_list_scan(s, first.pos as int, end0) {
                    assert(map_list_scan(s, entry, end0) is None);
                }
            }
            return Err(fatal_expected(cur.pos, Expectation::Char('}')));
        }
    }
}

/// A named or anonymous struct: `Ident? ( fields )`. Fails recoverably
/// exactly where the content after `(` reads as a tuple instead.
fn parse_struct<'a>(input: Input<'a>) -> (r: IResultLookahead<'a, Struct>)
    requires
        input.wf(),
    ensures
        (match r {
            Ok(p) => {
                &&& advances(input, p.0)
                &&& input.pos < p.0.pos
                &&& struct_wf(p.1, input.pos as int, p.0.pos as int)
            },
            Err(e) => e.locs_in(input.end as int),
        }),
        ({
            let s = input.src@;
            let pos = input.pos as int;
            let end = input.end as int;
            pos < end && s[pos] == '(' ==> (match ws_scan(s, pos + 1, end) {
                Some(q) => {
                    &&& ((q < end && s[q] == ')') ==> (r matches Ok(p) && p.0 == input.at(q + 1)
                        && p.1.ident is None && p.1.fields.value@.len() == 0))
                    &&& ((q < end && s[q] != ')' && !spec_is_ident_first_char(s[q])) ==> (
                    r matches Err(e) && !e.is_fatal()))
                },
                None => true,
            })
        }),
        ({
            let s = input.src@;
            let pos = input.pos as int;
            let end = input.end as int;
            pos < end && s[pos] == '(' ==> (match ws_scan(s, pos + 1, end) {
                Some(p0) => (match missing_colon_at(s, p0, end) {
                    Some(c1) => (r matches Err(e) && expected_err(
                        e,
                        true,
                        c1,
                        Expectation::Char(':'),
                    )),
                    None => true,
                }),
                None => true,
            })
        }),
        ({
            let s = input.src@;
            let pos = input.pos as int;
            let end = input.end as int;
            pos < end && s[pos] == '(' ==> (match ws_scan(s, pos + 1, end) {
                Some(p0) => (match kv_list_scan(s, p0, end) {
                    Some(st) => (r matches Ok(p) && p.0 == input.at(st.0 + 1) && p.1.ident
                        is None && p.1.fields.value@.len() == st.1.len() && (forall|i: int|
                        0 <= i < st.1.len() ==> (#[trigger] p.1.fields.value@[i]).value.key.value.0@
                            == st.1[i].0 && sv_matches(
                            p.1.fields.value@[i].value.value.value,
                            st.1[i].1,
                        ))),
                    None => true,
                }),
                None => true,
            })
        }),
        ({
            let s = input.src@;
            let pos = input.pos as int;
            let end = input.end as int;
            pos < end && spec_is_ident_first_char(s[pos]) ==> (match ws_scan(
                s,
                ident_run(s, pos, end),
                end,
            ) {
                Some(c) => (c < end && s[c] == '(') ==> (match ws_scan(s, c + 1, end) {
                    Some(p0) => (match kv_list_scan(s, p0, end) {
                        Some(st) => (r matches Ok(p) && p.0 == input.at(st.0 + 1) && (
                        p.1.ident matches Some(id) && id.value.0@ == s.subrange(
                            pos,
                            ident_run(s, pos, end),
                        )) && p.1.fields.value@.len() == st.1.len() && (forall|i: int|
                            0 <= i < st.1.len() ==> (
                            #[trigger] p.1.fields.value@[i]).value.key.value.0@ == st.1[i].0
                                && sv_matches(
                                p.1.fields.value@[i].value.value.value,
                                st.1[i].1,
                            ))),
                        None => true,
                    }),
                    None => true,
                }),
                None => true,
            })
        }),
    decreases input.end - input.pos, 1int,
{
    proof {
        let s0 = input.src@;
        let pos0 = input.pos as int;
        let end0 = input.end as int;
        if input.pos < input.end {
            lemma_ws_scan_bounds(s0, pos0 + 1, end0);
            if let Some(p0) = ws_scan(s0, pos0 + 1, end0) {
                lemma_kv_list_scan_bounds(s0, p0, end0);
                if let Some(st) = kv_list_scan(s0, p0, end0) {
                    lemma_ws_scan_bounds(s0, st.0 + 1, end0);
                }
            }
            lemma_ident_run_bounds(s0, pos0, end0);
            lemma_ws_scan_bounds(s0, ident_run(s0, pos0, end0), end0);
            if let Some(c) = ws_scan(s0, ident_run(s0, pos0, end0), end0) {
                if c + 1 <= end0 {
                    lemma_ws_scan_bounds(s0, c + 1, end0);
                    if let Some(p0) = ws_scan(s0, c + 1, end0) {
                        lemma_kv_list_scan_bounds(s0, p0, end0);
                    }
                }
            }
        }
    }
    let start = input.pos;
    let mut cur = input;
    let mut ident_opt: Option<Spanned<Ident>> = None;
    if input.pos < input.end && is_ident_first_char(input.src[input.pos]) {
        let (rest1, id) = ident(input)?;
        ident_opt = Some(Spanned::new(start, id, rest1.pos));
        let (c, _) = skip_ws(rest1)?;
        cur = c;
    }
    let (cur2, _) = one_char('(', cur)?;
    let (cur3, kvs) = kv_list_ident(cur2)?;
    let fields = Spanned::new(cur2.pos, kvs, cur3.pos);
    let (rest, _) = one_char(')', cur3)?;
    Ok((rest, Struct { ident: ident_opt, fields }))
}

/// A tuple: `( expr, ... )`.
fn tuple_parser<'a>(input: Input<'a>) -> (r: IResultLookahead<'a, List>)
    requires
        input.wf(),
    ensures
        (match r {
            Ok(p) => {
                &&& advances(input, p.0)
                &&& input.pos < p.0.pos
                &&& elements_wf(p.1.elements@, input.pos as int, p.0.pos as int)
            },
            Err(e) => e.locs_in(input.end as int),
        }),
        ({
            let s = input.src@;
            let pos = input.pos as int;
            let end = input.end as int;
            pos < end && s[pos] == '(' ==> (match ws_scan(s, pos + 1, end) {
                Some(p0) => (match uint_list_scan(s, p0, end, ')') {
                    Some(st) => (r matches Ok(p) && p.0 == input.at(st.0 + 1)
                        && p.1.elements@.len() == st.1.len() && (forall|i: int|
                        0 <= i < st.1.len() ==> (#[trigger] p.1.elements@[i]).value
                            == Expr::Integer(
                            Integer::Unsigned(UnsignedInteger { number: st.1[i] }),
                        ))),
                    None => true,
                }),
                None => true,
            })
        }),
    decreases input.end - input.pos, 1int,
{
    proof {
        if input.pos < input.end {
            lemma_ws_scan_bounds(input.src@, input.pos + 1, input.end as int);
            if let Some(p0) = ws_scan(input.src@, input.pos + 1, input.end as int) {
                lemma_uint_list_scan_bounds(input.src@, p0, input.end as int, ')');
            }
        }
    }
    let (cur, _) = one_char('(', input)?;
    let (cur2, es) = expr_elements(cur, ')')?;
    let (rest, _) = one_char(')', cur2)?;
    Ok((rest, List { elements: es }))
}

/// A list: `[ expr, ... ]`.
fn list_parser<'a>(input: Input<'a>) -> (r: IResultLookahead<'a, List>)
    requires
        input.wf(),
    ensures
        (match r {
            Ok(p) => {
                &&& advances(input, p.0)
                &&& input.pos < p.0.pos
                &&& elements_wf(p.1.elements@, input.pos as int, p.0.pos as int)
            },
            Err(e) => e.locs_in(input.end as int),
        }),
        ({
            let s = input.src@;
            let pos = input.pos as int;
            let end = input.end as int;
            pos < end && s[pos] == '[' ==> (match ws_scan(s, pos + 1, end) {
                Some(q) => (q < end && s[q] == ']') ==> (r matches Ok(p) && p.0 == input.at(q + 1)
                    && p.1.elements@.len() == 0),
                None => true,
            })
        }),
        ({
            let s = input.src@;
            let pos = input.pos as int;
            let end = input.end as int;
            pos < end && s[pos] == '[' ==> (match ws_scan(s, pos + 1, end) {
                Some(p0) => (match uint_list_scan(s, p0, end, ']') {
                    Some(st) => (r matches Ok(p) && p.0 == input.at(st.0 + 1)
                        && p.1.elements@.len() == st.1.len() && (forall|i: int|
                        0 <= i < st.1.len() ==> (#[trigger] p.1.elements@[i]).value
                            == Expr::Integer(
                            Integer::Unsigned(UnsignedInteger { number: st.1[i] }),
                        ))),
                    None => true,
                }),
                None => true,
            })
        }),
    decreases input.end - input.pos, 1int,
{
    proof {
        if input.pos < input.end {
            lemma_ws_scan_bounds(input.src@, input.pos + 1, input.end as int);
            if let Some(p0) = ws_scan(input.src@, input.pos + 1, input.end as int) {
                lemma_uint_list_scan_bounds(input.src@, p0, input.end as int, ']');
            }
        }
    }
    let (cur, _) = one_char('[', input)?;
    let (cur2, es) = expr_elements(cur, ']')?;
    let (rest, _) = one_char(']', cur2)?;
    Ok((rest, List { elements: es }))
}

/// A map: `{ expr: expr, ... }`.
fn rmap_parser<'a>(input: Input<'a>) -> (r: IResultLookahead<'a, RonMap>)
    requires
        input.wf(),
    ensures
        (match r {
            Ok(p) => {
                &&& advances(input, p.0)
                &&& input.pos < p.0.pos
                &&& expr_wf(Expr::RonMap(p.1), input.pos as int, p.0.pos as int)
            },
            Err(e) => e.locs_in(input.end as int),
        }),
        ({
            let s = input.src@;
            let pos = input.pos as int;
            let end = input.end as int;
            pos < end && s[pos] == '{' ==> (match ws_scan(s, pos + 1, end) {
                Some(q) => (q < end && s[q] == '}') ==> (r matches Ok(p) && p.0 == input.at(q + 1)
                    && p.1.entries.value@.len() == 0),
                None => true,
            })
        }),
        ({
            let s = input.src@;
            let pos = input.pos as int;
            let end = input.end as int;
            pos < end && s[pos] == '{' ==> (match ws_scan(s, pos + 1, end) {
                Some(p0) => (match map_list_scan(s, p0, end) {
                    Some(st) => (r matches Ok(p) && p.0 == input.at(st.0 + 1)
                        && p.1.entries.value@.len() == st.1.len() && (forall|i: int|
                        0 <= i < st.1.len() ==> sv_matches(
                            (#[trigger] p.1.entries.value@[i]).value.key.value,
                            st.1[i].0,
                        ) && sv_matches(p.1.entries.value@[i].value.value.value, st.1[i].1))),
                    None => true,
                }),
                None => true,
            })
        }),
    decreases input.end - input.pos, 1int,
{
    proof {
        if input.pos < input.end {
            lemma_ws_scan_bounds(input.src@, input.pos + 1, input.end as int);
            if let Some(p0) = ws_scan(input.src@, input.pos + 1, input.end as int) {
                lemma_map_list_scan_bounds(input.src@, p0, input.end as int);
            }
        }
    }
    let (cur, _) = one_char('{', input)?;
    let (cur2, kvs) = kv_list_expr(cur)?;
    let entries = Spanned::new(cur.pos, kvs, cur2.pos);
    let (rest, _) = one_char('}', cur2)?;
    Ok((rest, RonMap { entries }))
}

/// Reads one expression, selected by its first character.
fn expr_inner<'a>(input: Input<'a>) -> (r: IResultLookahead<'a, Expr>)
    requires
        input.wf(),
    ensures
        (match r {
            Ok(p) => {
                &&& advances(input, p.0)
                &&& input.pos < p.0.pos
                &&& expr_wf(p.1, input.pos as int, p.0.pos as int)
                &&& input.pos < input.end && classify(input.src@[input.pos as int]) is Some
            },
            Err(e) => e.locs_in(input.end as int),
        }),
        expr_exact(r, input),
        ({
            let s = input.src@;
            let pos = input.pos as int;
            let end = input.end as int;
            pos < end && spec_is_digit(s[pos]) && digits_val(
                s.subrange(pos, digit_run(s, pos, end)),
            ) > u64::MAX as int ==> (r matches Err(e) && external_err(e, true, pos))
        }),
        ({
            let s = input.src@;
            let pos = input.pos as int;
            let end = input.end as int;
            pos < end && s[pos] == '(' ==> (match ws_scan(s, pos + 1, end) {
                Some(p0) => (match missing_colon_at(s, p0, end) {
                    Some(c1) => (r matches Err(e) && expected_err(
                        e,
                        true,
                        c1,
                        Expectation::Char(':'),
                    )),
                    None => true,
                }),
                None => true,
            })
        }),
        ({
            let s = input.src@;
            let pos = input.pos as int;
            let end = input.end as int;
            pos < end && (s[pos] == '+' || s[pos] == '-') && pos + 1 < end && spec_is_digit(
                s[pos + 1],
            ) && digits_val(s.subrange(pos + 1, digit_run(s, pos + 1, end))) > u64::MAX as int
                ==> (r matches Err(e) && external_err(e, true, pos + 1))
        }),
    decreases input.end - input.pos, 2int,
{
    proof {
        reveal_strlit("true");
        reveal_strlit("false");
        if starts_with_at(input.src@, input.pos as int, input.end as int, "true"@) {
            assert(input.src@.subrange(
                input.pos as int,
                input.pos + "true"@.len(),
            )[0] == input.src@[input.pos as int]);
        }
        if starts_with_at(input.src@, input.pos as int, input.end as int, "false"@) {
            assert(input.src@.subrange(
                input.pos as int,
                input.pos + "false"@.len(),
            )[0] == input.src@[input.pos as int]);
        }
        lemma_digit_run_bounds(input.src@, input.pos as int, input.end as int);
        if input.pos < input.end {
            lemma_digit_run_bounds(input.src@, input.pos + 1, input.end as int);
            crate::strings::lemma_lit_run_bounds(input.src@, input.pos + 1, input.end as int);
            crate::strings::lemma_str_body_bounds(input.src@, input.pos + 1, input.end as int);
            lemma_ws_scan_bounds(input.src@, input.pos + 1, input.end as int);
            if let Some(p0) = ws_scan(input.src@, input.pos + 1, input.end as int) {
                lemma_uint_list_scan_bounds(input.src@, p0, input.end as int, ')');
                lemma_uint_list_scan_bounds(input.src@, p0, input.end as int, ']');
                lemma_digit_run_bounds(input.src@, p0, input.end as int);
                lemma_kv_list_scan_bounds(input.src@, p0, input.end as int);
                lemma_map_list_scan_bounds(input.src@, p0, input.end as int);
            }
            lemma_ident_run_bounds(input.src@, input.pos as int, input.end as int);
            lemma_ws_scan_bounds(
                input.src@,
                ident_run(input.src@, input.pos as int, input.end as int),
                input.end as int,
            );
        }
    }
    let class = match ExprClass::parse(input) {
        Ok((_peeked, class)) => class,
        Err(e) => {
            return Err(e);
        },
    };
    match class {
        ExprClass::StructTuple => {
            match parse_struct(input) {
                Ok((rest, st)) => Ok((rest, Expr::Struct(st))),
                Err(e1) => {
                    let fatal = match &e1 {
                        InputParseErr::Fatal(_) => true,
                        InputParseErr::Recoverable(_) => false,
                    };
                    if fatal {
                        return Err(e1);
                    }
                    match tuple_parser(input) {
                        Ok((rest, l)) => Ok((rest, Expr::Tuple(l))),
                        Err(e2) => {
                            let fatal2 = match &e2 {
                                InputParseErr::Fatal(_) => true,
                                InputParseErr::Recoverable(_) => false,
                            };
                            if fatal2 {
                                return Err(e2);
                            }
                            proof {
                                assert(e1.locs_in(input.end as int));
                                assert(e2.locs_in(input.end as int));
                            }
                            Err(alt_err(e1, e2))
                        },
                    }
                },
            }
        },
        ExprClass::RonMap => {
            let (rest, m) = rmap_parser(input)?;
            Ok((rest, Expr::RonMap(m)))
        },
        ExprClass::StrString => {
            match unescaped_str(input) {
                Ok((rest, t)) => Ok((rest, Expr::Str(t))),
                Err(_e1) => {
                    let (rest, t) = parse_string(input)?;
                    Ok((rest, Expr::String(t)))
                },
            }
        },
        ExprClass::List => {
            let (rest, l) = list_parser(input)?;
            Ok((rest, Expr::List(l)))
        },
        ExprClass::Bool => {
            let (rest, b) = parse_bool(input)?;
            Ok((rest, Expr::Bool(b)))
        },
        ExprClass::Signed => {
            match signed_integer(input) {
                Ok((rest, si)) => Ok((rest, Expr::Integer(Integer::Signed(si)))),
                Err(e1) => {
                    let fatal = match &e1 {
                        InputParseErr::Fatal(_) => true,
                        InputParseErr::Recoverable(_) => false,
                    };
                    if fatal {
                        return Err(e1);
                    }
                    match decimal(input) {
                        Ok((rest, d)) => Ok((rest, Expr::Decimal(d))),
                        Err(e2) => {
                            let fatal2 = match &e2 {
                                InputParseErr::Fatal(_) => true,
                                InputParseErr::Recoverable(_) => false,
                            };
                            if fatal2 {
                                return Err(e2);
                            }
                            proof {
                                assert(e1.locs_in(input.end as int));
                                assert(e2.locs_in(input.end as int));
                            }
                            Err(alt_err(e1, e2))
                        },
                    }
                },
            }
        },
        ExprClass::Dec => {
            let (rest, d) = decimal(input)?;
            Ok((rest, Expr::Decimal(d)))
        },
        ExprClass::UnsignedDec => {
            match unsigned(input) {
                Ok((rest, u)) => Ok((rest, Expr::Integer(Integer::Unsigned(u)))),
                Err(e1) => {
                    let fatal = match &e1 {
                        InputParseErr::Fatal(_) => true,
                        InputParseErr::Recoverable(_) => false,
                    };
                    if fatal {
                        return Err(e1);
                    }
                    match decimal(input) {
                        Ok((rest, d)) => Ok((rest, Expr::Decimal(d))),
                        Err(e2) => {
                            let fatal2 = match &e2 {
                                InputParseErr::Fatal(_) => true,
                                InputParseErr::Recoverable(_) => false,
                            };
                            if fatal2 {
                                return Err(e2);
                            }
                            proof {
                                assert(e1.locs_in(input.end as int));
                                assert(e2.locs_in(input.end as int));
                            }
                            Err(alt_err(e1, e2))
                        },
                    }
                },
            }
        },
        ExprClass::LeadingIdent => {
            let (rest, st) = parse_struct(input)?;
            Ok((rest, Expr::Struct(st)))
        },
    }
}

/// Reads one expression. A valid first character commits: every failure
/// past it is fatal, and carries an `"expression"` context frame.
pub fn expr<'a>(input: Input<'a>) -> (r: IResultLookahead<'a, Expr>)
    requires
        input.wf(),
    ensures
        (match r {
            Ok(p) => {
                &&& advances(input, p.0)
                &&& input.pos < p.0.pos
                &&& expr_wf(p.1, input.pos as int, p.0.pos as int)
                &&& input.pos < input.end && classify(input.src@[input.pos as int]) is Some
            },
            Err(e) => e.is_fatal() && e.locs_in(input.end as int) && in_context(
                e,
                input.pos as int,
                "expression"@,
            ),
        }),
        expr_exact(r, input),
        ({
            let s = input.src@;
            let pos = input.pos as int;
            let end = input.end as int;
            pos < end && spec_is_digit(s[pos]) && digits_val(
                s.subrange(pos, digit_run(s, pos, end)),
            ) > u64::MAX as int ==> (r matches Err(e) && crate::error::stacked_external(
                e,
                pos,
                pos,
                "expression"@,
            ))
        }),
        ({
            let s = input.src@;
            let pos = input.pos as int;
            let end = input.end as int;
            pos < end && s[pos] == '(' ==> (match ws_scan(s, pos + 1, end) {
                Some(p0) => (match missing_colon_at(s, p0, end) {
                    Some(c1) => (r matches Err(e) && crate::error::stacked_expected(
                        e,
                        true,
                        c1,
                        Expectation::Char(':'),
                        pos,
                        "expression"@,
                    )),
                    None => true,
                }),
                None => true,
            })
        }),
        ({
            let s = input.src@;
            let pos = input.pos as int;
            let end = input.end as int;
            pos < end && (s[pos] == '+' || s[pos] == '-') && pos + 1 < end && spec_is_digit(
                s[pos + 1],
            ) && digits_val(s.subrange(pos + 1, digit_run(s, pos + 1, end))) > u64::MAX as int
                ==> (r matches Err(e) && crate::error::stacked_external(
                e,
                pos + 1,
                pos,
                "expression"@,
            ))
        }),
    decreases input.end - input.pos, 3int,
{
    match expr_inner(input) {
        Ok(p) => Ok(p),
        Err(e) => {
            proof {
                assert(e.locs_in(input.end as int));
            }
            let wrapped = with_context(e, input.pos, "expression");
            let t = wrapped.into_tree();
            Err(InputParseErr::Fatal(t))
        },
    }
}

/// Where the comma-separated extension names read from `pos` stop: each
/// name may be followed by a comma (a trailing comma is allowed) and the
/// list ends at the `)` (not consumed), which the scan's position names;
/// `None` where the text reads no such list.
pub open spec fn ext_list_scan(s: Seq<char>, pos: int, end: int) -> Option<(int, Seq<Extension>)>
    decreases end - pos,
        when 0 <= pos <= end <= s.len()
        via ext_list_scan_dec
{
    if starts_with_at(s, pos, end, "unwrap_newtypes"@) || starts_with_at(
        s,
        pos,
        end,
        "implicit_some"@,
    ) {
        let x = if starts_with_at(s, pos, end, "unwrap_newtypes"@) {
            Extension::UnwrapNewtypes
        } else {
            Extension::ImplicitSome
        };
        let after = if starts_with_at(s, pos, end, "unwrap_newtypes"@) {
            pos + "unwrap_newtypes"@.len()
        } else {
            pos + "implicit_some"@.len()
        };
        match ws_scan(s, after, end) {
            Some(q) => if q < end && s[q] == ')' {
                Some((q, seq![x]))
            } else if q < end && s[q] == ',' {
                match ws_scan(s, q + 1, end) {
                    Some(q2) => if q2 < end && s[q2] == ')' {
                        Some((q2, seq![x]))
                    } else {
                        match ext_list_scan(s, q2, end) {
                            Some(st) => Some((st.0, seq![x] + st.1)),
                            None => None,
                        }
                    },
                    None => None,
                }
            } else {
                None
            },
            None => None,
        }
    } else {
        None
    }
}

#[via_fn]
proof fn ext_list_scan_dec(s: Seq<char>, pos: int, end: int) {
    reveal_strlit("unwrap_newtypes");
    reveal_strlit("implicit_some");
    if starts_with_at(s, pos, end, "unwrap_newtypes"@) || starts_with_at(
        s,
        pos,
        end,
        "implicit_some"@,
    ) {
        let after = if starts_with_at(s, pos, end, "unwrap_newtypes"@) {
            pos + "unwrap_newtypes"@.len()
        } else {
            pos + "implicit_some"@.len()
        };
        lemma_ws_scan_bounds(s, after, end);
        if let Some(q) = ws_scan(s, after, end) {
            if q + 1 <= end {
                lemma_ws_scan_bounds(s, q + 1, end);
            }
        }
    }
}

/// What remains of an attribute once its extension list was read: the
/// closing `)`, whitespace, and the closing `]`.
pub open spec fn attr_tail(s: Seq<char>, st: Option<(int, Seq<Extension>)>, end: int) -> Option<
    (int, Seq<Extension>),
> {
    match st {
        Some(st) => match ws_scan(s, st.0 + 1, end) {
            Some(p6) => if p6 < end && s[p6] == ']' {
                Some((p6 + 1, st.1))
            } else {
                None
            },
            None => None,
        },
        None => None,
    }
}

/// Where a whole `#![enable(...)]` attribute beginning at `pos` stops,
/// and the extensions it names, in source order; `None` where the text
/// reads no such attribute.
pub open spec fn attr_scan(s: Seq<char>, pos: int, end: int) -> Option<(int, Seq<Extension>)> {
    if !(pos < end && s[pos] == '#') {
        None
    } else {
        match ws_scan(s, pos + 1, end) {
            Some(p1) => if !(p1 < end && s[p1] == '!') {
                None
            } else {
                match ws_scan(s, p1 + 1, end) {
                    Some(p2) => if !(p2 < end && s[p2] == '[') {
                        None
                    } else {
                        match ws_scan(s, p2 + 1, end) {
                            Some(p3) => if !starts_with_at(s, p3, end, "enable"@) {
                                None
                            } else {
                                match ws_scan(s, p3 + "enable"@.len(), end) {
                                    Some(p4) => if !(p4 < end && s[p4] == '(') {
                                        None
                                    } else {
                                        match ws_scan(s, p4 + 1, end) {
                                            Some(p5) => attr_tail(
                                                s,
                                                ext_list_scan(s, p5, end),
                                                end,
                                            ),
                                            None => None,
                                        }
                                    },
                                    None => None,
                                }
                            },
                            None => None,
                        }
                    },
                    None => None,
                }
            },
            None => None,
        }
    }
}

/// A complete extension list stops past its start, on the closing `)`.
pub proof fn lemma_ext_list_scan_bounds(s: Seq<char>, pos: int, end: int)
    requires
        0 <= pos <= end <= s.len(),
    ensures
        ext_list_scan(s, pos, end) matches Some(st) ==> pos < st.0 < end && s[st.0] == ')',
    decreases end - pos,
{
    reveal_strlit("unwrap_newtypes");
    reveal_strlit("implicit_some");
    if starts_with_at(s, pos, end, "unwrap_newtypes"@) || starts_with_at(
        s,
        pos,
        end,
        "implicit_some"@,
    ) {
        let after = if starts_with_at(s, pos, end, "unwrap_newtypes"@) {
            pos + "unwrap_newtypes"@.len()
        } else {
            pos + "implicit_some"@.len()
        };
        lemma_ws_scan_bounds(s, after, end);
        if let Some(q) = ws_scan(s, after, end) {
            if q < end && s[q] == ')' {
            } else if q < end && s[q] == ',' {
                lemma_ws_scan_bounds(s, q + 1, end);
                if let Some(q2) = ws_scan(s, q + 1, end) {
                    if !(q2 < end && s[q2] == ')') {
                        lemma_ext_list_scan_bounds(s, q2, end);
                    }
                }
            }
        }
    }
}

/// A complete attribute stops past its start and within the input.
pub proof fn lemma_attr_scan_bounds(s: Seq<char>, pos: int, end: int)
    requires
        0 <= pos <= end <= s.len(),
    ensures
        attr_scan(s, pos, end) matches Some(st) ==> pos < st.0 <= end,
{
    if pos < end && s[pos] == '#' {
        lemma_ws_scan_bounds(s, pos + 1, end);
        if let Some(p1) = ws_scan(s, pos + 1, end) {
            if p1 < end && s[p1] == '!' {
                lemma_ws_scan_bounds(s, p1 + 1, end);
                if let Some(p2) = ws_scan(s, p1 + 1, end) {
                    if p2 < end && s[p2] == '[' {
                        lemma_ws_scan_bounds(s, p2 + 1, end);
                        if let Some(p3) = ws_scan(s, p2 + 1, end) {
                            if starts_with_at(s, p3, end, "enable"@) {
                                lemma_ws_scan_bounds(s, p3 + "enable"@.len(), end);
                                if let Some(p4) = ws_scan(s, p3 + "enable"@.len(), end) {
                                    if p4 < end && s[p4] == '(' {
                                        lemma_ws_scan_bounds(s, p4 + 1, end);
                                        if let Some(p5) = ws_scan(s, p4 + 1, end) {
                                            lemma_ext_list_scan_bounds(s, p5, end);
                                            if let Some(st) = ext_list_scan(s, p5, end) {
                                                lemma_ws_scan_bounds(s, st.0 + 1, end);
                                            }
                                        }
                                    }
                                }
                            }
                        }
                    }
                }
            }
        }
    }
}

/// The attribute's tokens up to `(` are in place but the extension list
/// is empty: the next token after `(` is already the `)`.
pub open spec fn attr_empty_enable(s: Seq<char>, pos: int, end: int) -> bool {
    &&& pos < end && s[pos] == '#'
    &&& (match ws_scan(s, pos + 1, end) {
        Some(p1) => p1 < end && s[p1] == '!' && (match ws_scan(s, p1 + 1, end) {
            Some(p2) => p2 < end && s[p2] == '[' && (match ws_scan(s, p2 + 1, end) {
                Some(p3) => starts_with_at(s, p3, end, "enable"@) && (match ws_scan(
                    s,
                    p3 + "enable"@.len(),
                    end,
                ) {
                    Some(p4) => p4 < end && s[p4] == '(' && (match ws_scan(s, p4 + 1, end) {
                        Some(p5) => p5 < end && s[p5] == ')',
                        None => false,
                    }),
                    None => false,
                }),
                None => false,
            }),
            None => false,
        }),
        None => false,
    })
}

/// A document attribute `#![enable(ext, ...)]`; recoverable only before
/// its `#`. Any attribute other than `enable` is fatal. On failure the
/// error carries an `"attribute"` context frame. A well-formed attribute
/// (as [`attr_scan`] reads it) is owed: it parses to `Enable` over
/// exactly the scanned extensions, in source order.
pub fn attribute<'a>(input: Input<'a>) -> (r: IResultLookahead<'a, Attribute>)
    requires
        input.wf(),
    ensures
        (match r {
            Ok(p) => {
                &&& advances(input, p.0)
                &&& input.pos < p.0.pos
                &&& attribute_wf(p.1, input.pos as int, p.0.pos as int)
                &&& input.pos < input.end && input.src@[input.pos as int] == '#'
            },
            Err(e) => e.locs_in(input.end as int) && in_context(
                e,
                input.pos as int,
                "attribute"@,
            ),
        }),
        input.pos < input.end && input.src@[input.pos as int] != '#' ==> (r matches Err(e)
            && !e.is_fatal()),
        input.pos == input.end ==> (r matches Err(e) && !e.is_fatal()),
        input.pos < input.end && input.src@[input.pos as int] == '#' ==> (r matches Err(e)
            ==> e.is_fatal()),
        (match attr_scan(input.src@, input.pos as int, input.end as int) {
            Some(st) => (r matches Ok(p) && p.0 == input.at(st.0) && (
            p.1 matches Attribute::Enable(sp) && sp.value@.len() == st.1.len() && (forall|i: int|
                0 <= i < st.1.len() ==> (#[trigger] sp.value@[i]).value == st.1[i]))),
            None => true,
        }),
        attr_empty_enable(input.src@, input.pos as int, input.end as int) ==> r is Err,
{
    let ghost end0 = input.end as int;
    if !(input.pos < input.end && input.src[input.pos] == '#') {
        let e = rec_expected(input.pos, Expectation::Char('#'));
        proof {
            assert(e.locs_in(end0));
        }
        return Err(with_context(e, input.pos, "attribute"));
    }
    match attribute_body(input) {
        Ok(p) => Ok(p),
        Err(e) => {
            proof {
                assert(e.locs_in(end0));
            }
            Err(with_context(e, input.pos, "attribute"))
        },
    }
}

/// The body of [`attribute`], after the leading `#` was seen.
#[verifier::rlimit(100)]
fn attribute_body<'a>(input: Input<'a>) -> (r: IResultLookahead<'a, Attribute>)
    requires
        input.wf(),
        input.pos < input.end,
        input.src@[input.pos as int] == '#',
    ensures
        (match r {
            Ok(p) => {
                &&& advances(input, p.0)
                &&& input.pos < p.0.pos
                &&& attribute_wf(p.1, input.pos as int, p.0.pos as int)
            },
            Err(e) => e.is_fatal() && e.locs_in(input.end as int),
        }),
        (match attr_scan(input.src@, input.pos as int, input.end as int) {
            Some(st) => (r matches Ok(p) && p.0 == input.at(st.0) && (
            p.1 matches Attribute::Enable(sp) && sp.value@.len() == st.1.len() && (forall|i: int|
                0 <= i < st.1.len() ==> (#[trigger] sp.value@[i]).value == st.1[i]))),
            None => true,
        }),
        attr_empty_enable(input.src@, input.pos as int, input.end as int) ==> r is Err,
{
    let ghost s = input.src@;
    let ghost pos0 = input.pos as int;
    let ghost end0 = input.end as int;
    proof {
        reveal_strlit("unwrap_newtypes");
        reveal_strlit("implicit_some");
    }
    let cur = input.advance(1);
    let (cur, _) = skip_ws(cur)?;
    let (cur, _) = one_char('!', cur)?;
    let (cur, _) = skip_ws(cur)?;
    let (cur, _) = one_char('[', cur)?;
    let (cur, _) = skip_ws(cur)?;
    let cur = match tag("enable", cur) {
        Ok((rest, _)) => rest,
        Err(e) => {
            let t = e.into_tree();
            return Err(InputParseErr::Fatal(t));
        },
    };
    let (cur, _) = skip_ws(cur)?;
    let (cur, _) = one_char('(', cur)?;
    let (first, _) = skip_ws(cur)?;
    let exts_start = first.pos;
    proof {
        assert(attr_scan(s, pos0, end0) == attr_tail(
            s,
            ext_list_scan(s, exts_start as int, end0),
            end0,
        ));
    }
    let mut inner = first;
    let mut exts: Vec<Spanned<Extension>> = Vec::new();
    loop
        invariant
            input.wf(),
            inner.wf(),
            s == input.src@,
            pos0 == input.pos as int,
            end0 == input.end as int,
            inner.src == input.src,
            inner.src@ == s,
            inner.end == input.end,
            input.pos < exts_start,
            exts_start <= inner.pos,
            exts_start as int <= end0,
            forall|i: int|
                0 <= i < exts@.len() ==> (#[trigger] exts@[i]).span_in(
                    exts_start as int,
                    inner.pos as int,
                ),
            forall|i: int, j: int|
                #![trigger exts@[i].end, exts@[j].start]
                0 <= i < j < exts@.len() ==> exts@[i].end <= exts@[j].start,
            attr_scan(s, pos0, end0) == attr_tail(
                s,
                ext_list_scan(s, exts_start as int, end0),
                end0,
            ),
            attr_empty_enable(s, pos0, end0) ==> exts_start < input.end && s[exts_start as int]
                == ')' && inner.pos == exts_start && exts@.len() == 0,
            (match ext_list_scan(s, exts_start as int, end0) {
                Some(st) => (match ext_list_scan(s, inner.pos as int, end0) {
                    Some(st2) => st2.0 == st.0 && st.1 == exts@.map_values(
                        |sp: Spanned<Extension>| sp.value,
                    ) + st2.1,
                    None => false,
                }),
                None => true,
            }),
        decreases input.end - inner.pos,
    {
        proof {
            reveal_strlit("unwrap_newtypes");
            reveal_strlit("implicit_some");
        }
        let e_start = inner.pos;
        let (rest, ext) = extension_name(inner)?;
        let sp = Spanned::new(e_start, ext, rest.pos);
        proof {
            if attr_empty_enable(s, pos0, end0) {
                if starts_with_at(s, e_start as int, end0, "unwrap_newtypes"@) {
                    assert(s.subrange(
                        e_start as int,
                        e_start + "unwrap_newtypes"@.len(),
                    )[0] == s[e_start as int]);
                }
                if starts_with_at(s, e_start as int, end0, "implicit_some"@) {
                    assert(s.subrange(
                        e_start as int,
                        e_start + "implicit_some"@.len(),
                    )[0] == s[e_start as int]);
                }
                assert(false);
            }
            assert forall|i: int| 0 <= i < exts@.len() + 1 implies (#[trigger] exts@.push(sp)[i]).span_in(
                exts_start as int,
                rest.pos as int,
            ) by {
                if i < exts@.len() {
                    assert(exts@[i].span_in(exts_start as int, e_start as int));
                }
            }
            assert(exts@.push(sp).map_values(|q: Spanned<Extension>| q.value) =~= exts@.map_values(
                |q: Spanned<Extension>| q.value,
            ).push(ext));
        }
        exts.push(sp);
        let (after, _) = skip_ws(rest)?;
        if after.pos < after.end && after.src[after.pos] == ')' {
            proof {
                assert(ext_list_scan(s, e_start as int, end0) == Some(
                    (after.pos as int, seq![ext]),
                ));
                if let Some(st) = ext_list_scan(s, exts_start as int, end0) {
                    assert(exts@.map_values(|q: Spanned<Extension>| q.value) + seq![ext]
                        =~= exts@.map_values(|q: Spanned<Extension>| q.value).push(ext));
                }
            }
            let exts_sp = Spanned::new(exts_start, exts, after.pos);
            let (c2, _) = one_char(')', after)?;
            let (c3, _) = skip_ws(c2)?;
            let (rest2, _) = one_char(']', c3)?;
            return Ok((rest2, Attribute::Enable(exts_sp)));
        }
        if !(after.pos < after.end && after.src[after.pos] == ',') {
            proof {
                assert(ext_list_scan(s, e_start as int, end0) is None);
            }
            return Err(fatal_expected(after.pos, Expectation::Char(',')));
        }
        let next = after.advance(1);
        let (after2, _) = skip_ws(next)?;
        if after2.pos < after2.end && after2.src[after2.pos] == ')' {
            proof {
                assert(ext_list_scan(s, e_start as int, end0) == Some(
                    (after2.pos as int, seq![ext]),
                ));
                if let Some(st) = ext_list_scan(s, exts_start as int, end0) {
                    assert(exts@.map_values(|q: Spanned<Extension>| q.value) + seq![ext]
                        =~= exts@.map_values(|q: Spanned<Extension>| q.value).push(ext));
                }
            }
            let exts_sp = Spanned::new(exts_start, exts, after2.pos);
            let (c2, _) = one_char(')', after2)?;
            let (c3, _) = skip_ws(c2)?;
            let (rest2, _) = one_char(']', c3)?;
            return Ok((rest2, Attribute::Enable(exts_sp)));
        }
        proof {
            assert(ext_list_scan(s, e_start as int, end0) == (match ext_list_scan(
                s,
                after2.pos as int,
                end0,
            ) {
                Some(st) => Some((st.0, seq![ext] + st.1)),
                None => None::<(int, Seq<Extension>)>,
            }));
            if let Some(st0) = ext_list_scan(s, exts_start as int, end0) {
                if let Some(st3) = ext_list_scan(s, after2.pos as int, end0) {
                    assert(exts@.map_values(|q: Spanned<Extension>| q.value) + (seq![ext] + st3.1)
                        =~= (exts@.map_values(|q: Spanned<Extension>| q.value).push(ext)) + st3.1);
                }
            }
        }
        inner = after2;
    }
}

/// Attribute list and span well-formedness over `[lo, hi]`.
pub open spec fn attrs_wf(attrs: Seq<Spanned<Attribute>>, lo: int, hi: int) -> bool {
    &&& (forall|i: int|
        0 <= i < attrs.len() ==> (#[trigger] attrs[i]).span_in(lo, hi) && attribute_wf(
            attrs[i].value,
            attrs[i].start as int,
            attrs[i].end as int,
        ))
    &&& (forall|i: int, j: int|
        #![trigger attrs[i].end, attrs[j].start]
        0 <= i < j < attrs.len() ==> attrs[i].end <= attrs[j].start)
}

/// Zero or more attributes with whitespace between them; stops before
/// the first token that opens no attribute.
fn parse_attributes<'a>(input: Input<'a>) -> (r: IResultLookahead<
    'a,
    Vec<Spanned<Attribute>>,
>)
    requires
        input.wf(),
    ensures
        (match r {
            Ok(p) => {
                &&& advances(input, p.0)
                &&& attrs_wf(p.1@, input.pos as int, p.0.pos as int)
                &&& ((input.pos == input.end || input.src@[input.pos as int] != '#') ==> p.0
                    == input && p.1@.len() == 0)
            },
            Err(e) => e.is_fatal() && e.locs_in(input.end as int),
        }),
        (input.pos == input.end || input.src@[input.pos as int] != '#') ==> r is Ok,
        (match attr_scan(input.src@, input.pos as int, input.end as int) {
            Some(ast) => (match ws_scan(input.src@, ast.0, input.end as int) {
                Some(p2) => (p2 == input.end || input.src@[p2] != '#') ==> (r matches Ok(pr)
                    && pr.0 == input.at(p2) && pr.1@.len() == 1 && pr.1@[0].start == input.pos
                    && pr.1@[0].end as int == ast.0 && (pr.1@[0].value
                    matches Attribute::Enable(sp) && sp.value@.len() == ast.1.len() && (forall|
                    i: int,
                |
                    0 <= i < ast.1.len() ==> (#[trigger] sp.value@[i]).value == ast.1[i]))),
                None => true,
            }),
            None => true,
        }),
{
    let ghost s = input.src@;
    let ghost pos0 = input.pos as int;
    let ghost end0 = input.end as int;
    proof {
        lemma_attr_scan_bounds(s, pos0, end0);
        if let Some(ast) = attr_scan(s, pos0, end0) {
            lemma_ws_scan_bounds(s, ast.0, end0);
        }
    }
    let mut cur = input;
    let mut attrs: Vec<Spanned<Attribute>> = Vec::new();
    loop
        invariant
            input.wf(),
            cur.wf(),
            s == input.src@,
            pos0 == input.pos as int,
            end0 == input.end as int,
            cur.src == input.src,
            cur.src@ == s,
            cur.end == input.end,
            input.pos <= cur.pos,
            attrs_wf(attrs@, pos0, cur.pos as int),
            attrs@.len() == 0 ==> cur == input,
            attrs@.len() > 0 ==> input.pos < input.end && s[input.pos as int] == '#',
            (match attr_scan(s, pos0, end0) {
                Some(ast) => (match ws_scan(s, ast.0, end0) {
                    Some(p2) => (p2 == end0 || s[p2] != '#') ==> (attrs@.len() <= 1 && (attrs@.len()
                        == 1 ==> cur == input.at(p2) && attrs@[0].start == input.pos
                        && attrs@[0].end as int == ast.0 && (attrs@[0].value
                        matches Attribute::Enable(sp) && sp.value@.len() == ast.1.len() && (forall|
                        i: int,
                    |
                        0 <= i < ast.1.len() ==> (#[trigger] sp.value@[i]).value == ast.1[i])))),
                    None => attrs@.len() == 0,
                }),
                None => true,
            }),
        decreases input.end - cur.pos,
    {
        proof {
            lemma_attr_scan_bounds(s, pos0, end0);
            if let Some(ast) = attr_scan(s, pos0, end0) {
                lemma_ws_scan_bounds(s, ast.0, end0);
            }
        }
        match attribute(cur) {
            Ok((rest, a)) => {
                let sp = Spanned::new(cur.pos, a, rest.pos);
                proof {
                    assert forall|i: int| 0 <= i < attrs@.len() + 1 implies ((
                    #[trigger] attrs@.push(sp)[i]).span_in(pos0, rest.pos as int) && attribute_wf(
                        attrs@.push(sp)[i].value,
                        attrs@.push(sp)[i].start as int,
                        attrs@.push(sp)[i].end as int,
                    )) by {
                        if i < attrs@.len() {
                            assert(attrs@[i].span_in(pos0, cur.pos as int) && attribute_wf(
                                attrs@[i].value,
                                attrs@[i].start as int,
                                attrs@[i].end as int,
                            ));
                        }
                    }
                }
                attrs.push(sp);
                let (after, _) = skip_ws(rest)?;
                cur = after;
                proof {
                    assert(attrs_wf(attrs@, pos0, cur.pos as int));
                }
            },
            Err(e) => {
                let fatal = match &e {
                    InputParseErr::Fatal(_) => true,
                    InputParseErr::Recoverable(_) => false,
                };
                if fatal {
                    return Err(e);
                }
                return Ok((cur, attrs));
            },
        }
    }
}

/// What [`ron`] returns once its expression has been read over
/// `[p, stop)`: trailing whitespace and comments are skipped; a clean
/// end yields the document (no attributes, the expression spanning
/// exactly `[p, stop)`), leftover text is `Expected(Eof)` at its first
/// character, and an unterminated trailing comment is
/// `Expected(BlockCommentEnd)` at the end of input.
pub open spec fn doc_after(s: Seq<char>, p: int, stop: int, n: int, r: Result<Ron, ErrorTree>) -> bool {
    match ws_scan(s, stop, n) {
        Some(q) => if q == n {
            r matches Ok(d) && d.attributes@.len() == 0 && d.expr.start == p && d.expr.end == stop
        } else {
            r matches Err(t) && t == (ErrorTree::Base {
                location: q as usize,
                kind: BaseErrorKind::Expected(Expectation::Eof),
            })
        },
        None => (r matches Err(t) && t == (ErrorTree::Base {
            location: n as usize,
            kind: BaseErrorKind::Expected(Expectation::BlockCommentEnd),
        })),
    }
}

/// Like [`doc_after`], for a document that carried one `Enable`
/// attribute naming exactly `exts`.
pub open spec fn doc_attrs_after(
    s: Seq<char>,
    p2: int,
    stop: int,
    n: int,
    r: Result<Ron, ErrorTree>,
    exts: Seq<Extension>,
) -> bool {
    match ws_scan(s, stop, n) {
        Some(q) => if q == n {
            r matches Ok(d) && d.attributes@.len() == 1 && (d.attributes@[0].value
                matches Attribute::Enable(sp) && sp.value@.len() == exts.len() && (forall|i: int|
                0 <= i < exts.len() ==> (#[trigger] sp.value@[i]).value == exts[i]))
                && d.expr.start == p2 && d.expr.end == stop
        } else {
            r matches Err(t) && t == (ErrorTree::Base {
                location: q as usize,
                kind: BaseErrorKind::Expected(Expectation::Eof),
            })
        },
        None => (r matches Err(t) && t == (ErrorTree::Base {
            location: n as usize,
            kind: BaseErrorKind::Expected(Expectation::BlockCommentEnd),
        })),
    }
}

/// Parses a whole document: attributes, one expression, end of input,
/// with whitespace and comments allowed around each.
#[verifier::rlimit(100)]
#[verifier::spinoff_prover]
pub fn ron(input: &str) -> (r: Result<Ron, ErrorTree>)
    ensures
        (r matches Ok(d) ==> ron_wf(d, input@.len() as int)),
        (r matches Err(t) ==> crate::error::tree_locs_in(t, input@.len() as int)),
        ({
            let s = input@;
            let n = s.len() as int;
            match ws_scan(s, 0, n) {
                Some(p) => {
                    &&& (p < n && spec_is_digit(s[p]) && unsigned_complete(s, p, n) ==> doc_after(
                        s,
                        p,
                        digit_run(s, p, n),
                        n,
                        r,
                    ) && (r matches Ok(d) ==> d.expr.value == Expr::Integer(
                        Integer::Unsigned(
                            UnsignedInteger {
                                number: digits_val(s.subrange(p, digit_run(s, p, n))) as u64,
                            },
                        ),
                    )))
                    &&& (signed_complete(s, p, n) ==> doc_after(s, p, digit_run(s, p + 1, n), n, r)
                        && (r matches Ok(d) ==> d.expr.value == Expr::Integer(
                        Integer::Signed(
                            SignedInteger {
                                sign: if s[p] == '+' {
                                    Sign::Positive
                                } else {
                                    Sign::Negative
                                },
                                number: digits_val(s.subrange(p + 1, digit_run(s, p + 1, n))) as u64,
                            },
                        ),
                    )))
                    &&& (p < n && (s[p] == '.' || s[p] == '+' || s[p] == '-' || spec_is_digit(s[p]))
                        ==> (match dec_ok(s, p, n) {
                        Some(pr) => doc_after(s, p, pr.0, n, r) && (r matches Ok(d) ==> d.expr.value
                            == Expr::Decimal(pr.1)),
                        None => true,
                    }))
                    &&& (starts_with_at(s, p, n, "true"@) ==> doc_after(s, p, p + "true"@.len(), n, r)
                        && (r matches Ok(d) ==> d.expr.value == Expr::Bool(true)))
                    &&& (starts_with_at(s, p, n, "false"@) ==> doc_after(
                        s,
                        p,
                        p + "false"@.len(),
                        n,
                        r,
                    ) && (r matches Ok(d) ==> d.expr.value == Expr::Bool(false)))
                    &&& (p < n && s[p] == '{' ==> (match ws_scan(s, p + 1, n) {
                        Some(p0) => (match map_list_scan(s, p0, n) {
                            Some(st) => doc_after(s, p, st.0 + 1, n, r) && (r matches Ok(d) ==> (
                            d.expr.value matches Expr::RonMap(m) && m.entries.value@.len()
                                == st.1.len() && (forall|i: int|
                                0 <= i < st.1.len() ==> sv_matches(
                                    (#[trigger] m.entries.value@[i]).value.key.value,
                                    st.1[i].0,
                                ) && sv_matches(
                                    m.entries.value@[i].value.value.value,
                                    st.1[i].1,
                                )))),
                            None => true,
                        }),
                        None => true,
                    }))
                    &&& (p < n && s[p] == '(' ==> (match ws_scan(s, p + 1, n) {
                        Some(p0) => (match uint_list_scan(s, p0, n, ')') {
                            Some(st) => st.1.len() > 0 ==> doc_after(s, p, st.0 + 1, n, r) && (
                            r matches Ok(d) ==> (d.expr.value matches Expr::Tuple(l)
                                && l.elements@.len() == st.1.len() && (forall|i: int|
                                0 <= i < st.1.len() ==> (#[trigger] l.elements@[i]).value
                                    == Expr::Integer(
                                    Integer::Unsigned(UnsignedInteger { number: st.1[i] }),
                                )))),
                            None => true,
                        }),
                        None => true,
                    }))
                    &&& (p < n && s[p] == '[' ==> (match ws_scan(s, p + 1, n) {
                        Some(p0) => (match uint_list_scan(s, p0, n, ']') {
                            Some(st) => doc_after(s, p, st.0 + 1, n, r) && (r matches Ok(d) ==> (
                            d.expr.value matches Expr::List(l) && l.elements@.len() == st.1.len()
                                && (forall|i: int|
                                0 <= i < st.1.len() ==> (#[trigger] l.elements@[i]).value
                                    == Expr::Integer(
                                    Integer::Unsigned(UnsignedInteger { number: st.1[i] }),
                                )))),
                            None => true,
                        }),
                        None => true,
                    }))
                    &&& (p < n && s[p] == '(' ==> (match ws_scan(s, p + 1, n) {
                        Some(p0) => (match kv_list_scan(s, p0, n) {
                            Some(st) => st.1.len() > 0 ==> doc_after(s, p, st.0 + 1, n, r) && (
                            r matches Ok(d) ==> (d.expr.value matches Expr::Struct(sv) && sv.ident
                                is None && sv.fields.value@.len() == st.1.len() && (forall|i: int|
                                0 <= i < st.1.len() ==> (
                                #[trigger] sv.fields.value@[i]).value.key.value.0@ == st.1[i].0
                                    && sv_matches(
                                    sv.fields.value@[i].value.value.value,
                                    st.1[i].1,
                                )))),
                            None => true,
                        }),
                        None => true,
                    }))
                    &&& (classify(s[p]) == Some(ExprClass::LeadingIdent) && p < n ==> (match ws_scan(
                        s,
                        ident_run(s, p, n),
                        n,
                    ) {
                        Some(c) => (c < n && s[c] == '(') ==> (match ws_scan(s, c + 1, n) {
                            Some(p0) => (match kv_list_scan(s, p0, n) {
                                Some(st) => doc_after(s, p, st.0 + 1, n, r) && (r matches Ok(d)
                                    ==> (d.expr.value matches Expr::Struct(sv) && (
                                sv.ident matches Some(id) && id.value.0@ == s.subrange(
                                    p,
                                    ident_run(s, p, n),
                                )) && sv.fields.value@.len() == st.1.len() && (forall|i: int|
                                    0 <= i < st.1.len() ==> (
                                    #[trigger] sv.fields.value@[i]).value.key.value.0@
                                        == st.1[i].0 && sv_matches(
                                        sv.fields.value@[i].value.value.value,
                                        st.1[i].1,
                                    )))),
                                None => true,
                            }),
                            None => true,
                        }),
                        None => true,
                    }))
                    &&& (unescaped_complete(s, p, n) ==> doc_after(
                        s,
                        p,
                        lit_run(s, p + 1, n) + 1,
                        n,
                        r,
                    ) && (r matches Ok(d) ==> (d.expr.value matches Expr::Str(t) && t@ == s.subrange(
                        p + 1,
                        lit_run(s, p + 1, n),
                    ))))
                    &&& (escaped_complete(s, p, n) ==> (match str_body(s, p + 1, n) {
                        Some(st) => doc_after(s, p, st.0 + 1, n, r) && (r matches Ok(d) ==> (
                        d.expr.value matches Expr::String(t) && t@ == st.1)),
                        None => true,
                    }))
                    &&& (p < n && spec_is_digit(s[p]) && digits_val(
                        s.subrange(p, digit_run(s, p, n)),
                    ) > u64::MAX as int ==> (r matches Err(t) && crate::error::tree_stacked_external(
                        t,
                        p,
                        p,
                        "expression"@,
                    )))
                    &&& (match attr_scan(s, p, n) {
                        Some(ast) => (match ws_scan(s, ast.0, n) {
                            Some(p2) => {
                                &&& (starts_with_at(s, p2, n, "true"@) ==> doc_attrs_after(
                                    s,
                                    p2,
                                    p2 + "true"@.len(),
                                    n,
                                    r,
                                    ast.1,
                                ) && (r matches Ok(d) ==> d.expr.value == Expr::Bool(true)))
                                &&& (starts_with_at(s, p2, n, "false"@) ==> doc_attrs_after(
                                    s,
                                    p2,
                                    p2 + "false"@.len(),
                                    n,
                                    r,
                                    ast.1,
                                ) && (r matches Ok(d) ==> d.expr.value == Expr::Bool(false)))
                            },
                            None => true,
                        }),
                        None => true,
                    })
                },
                None => (r matches Err(t) && t == (ErrorTree::Base {
                    location: n as usize,
                    kind: BaseErrorKind::Expected(Expectation::BlockCommentEnd),
                })),
            }
        }),
{
    let ghost s = input@;
    let ghost n = input@.len() as int;
    let chars = chars_of(input);
    let inp0 = Input::new(chars.as_slice());
    proof {
        reveal_strlit("true");
        reveal_strlit("false");
        lemma_ws_scan_bounds(s, 0, n);
        lemma_ws_scan_idem(s, 0, n);
        if let Some(p) = ws_scan(s, 0, n) {
            if starts_with_at(s, p, n, "true"@) {
                assert(s.subrange(p, p + "true"@.len())[0] == s[p]);
            }
            if starts_with_at(s, p, n, "false"@) {
                assert(s.subrange(p, p + "false"@.len())[0] == s[p]);
            }
            lemma_digit_run_bounds(s, p, n);
            crate::number::lemma_dec_ok_bounds(s, p, n);
            lemma_ws_scan_bounds(s, digit_run(s, p, n), n);
            if let Some(pr) = dec_ok(s, p, n) {
                lemma_ws_scan_bounds(s, pr.0, n);
            }
            if starts_with_at(s, p, n, "true"@) {
                lemma_ws_scan_bounds(s, p + "true"@.len(), n);
            }
            if starts_with_at(s, p, n, "false"@) {
                lemma_ws_scan_bounds(s, p + "false"@.len(), n);
            }
            if p < n {
                lemma_digit_run_bounds(s, p + 1, n);
                lemma_ws_scan_bounds(s, digit_run(s, p + 1, n), n);
                crate::strings::lemma_lit_run_bounds(s, p + 1, n);
                crate::strings::lemma_str_body_bounds(s, p + 1, n);
                lemma_ws_scan_bounds(s, p + 1, n);
                if lit_run(s, p + 1, n) < n {
                    lemma_ws_scan_bounds(s, lit_run(s, p + 1, n) + 1, n);
                }
                if let Some(st) = str_body(s, p + 1, n) {
                    if st.0 < n {
                        lemma_ws_scan_bounds(s, st.0 + 1, n);
                    }
                }
                if let Some(q2) = ws_scan(s, p + 1, n) {
                    lemma_uint_list_scan_bounds(s, q2, n, ')');
                    lemma_uint_list_scan_bounds(s, q2, n, ']');
                    if let Some(st) = uint_list_scan(s, q2, n, ')') {
                        lemma_ws_scan_bounds(s, st.0 + 1, n);
                    }
                    if let Some(st) = uint_list_scan(s, q2, n, ']') {
                        lemma_ws_scan_bounds(s, st.0 + 1, n);
                    }
                    lemma_kv_list_scan_bounds(s, q2, n);
                    if let Some(st) = kv_list_scan(s, q2, n) {
                        lemma_ws_scan_bounds(s, st.0 + 1, n);
                    }
                    lemma_map_list_scan_bounds(s, q2, n);
                    if let Some(st) = map_list_scan(s, q2, n) {
                        lemma_ws_scan_bounds(s, st.0 + 1, n);
                    }
                }
                lemma_ident_run_bounds(s, p, n);
                lemma_ws_scan_bounds(s, ident_run(s, p, n), n);
                if let Some(c) = ws_scan(s, ident_run(s, p, n), n) {
                    if c + 1 <= n {
                        lemma_ws_scan_bounds(s, c + 1, n);
                        if let Some(p0) = ws_scan(s, c + 1, n) {
                            lemma_kv_list_scan_bounds(s, p0, n);
                            if let Some(st) = kv_list_scan(s, p0, n) {
                                lemma_ws_scan_bounds(s, st.0 + 1, n);
                            }
                        }
                    }
                }
            }
            lemma_attr_scan_bounds(s, p, n);
            if let Some(ast) = attr_scan(s, p, n) {
                lemma_ws_scan_bounds(s, ast.0, n);
                lemma_ws_scan_idem(s, ast.0, n);
                if let Some(p2) = ws_scan(s, ast.0, n) {
                    if starts_with_at(s, p2, n, "true"@) {
                        assert(s.subrange(p2, p2 + "true"@.len())[0] == s[p2]);
                        lemma_ws_scan_bounds(s, p2 + "true"@.len(), n);
                    }
                    if starts_with_at(s, p2, n, "false"@) {
                        assert(s.subrange(p2, p2 + "false"@.len())[0] == s[p2]);
                        lemma_ws_scan_bounds(s, p2 + "false"@.len(), n);
                    }
                }
            }
        }
    }
    let cur = match skip_ws(inp0) {
        Ok((c, _)) => c,
        Err(e) => {
            return Err(e.into_tree());
        },
    };
    let (cur, attributes) = match parse_attributes(cur) {
        Ok(p) => p,
        Err(e) => {
            return Err(e.into_tree());
        },
    };
    let (cur, _) = match skip_ws(cur) {
        Ok(p) => p,
        Err(e) => {
            return Err(e.into_tree());
        },
    };
    let e_start = cur.pos;
    let (rest, ex) = match expr(cur) {
        Ok(p) => p,
        Err(e) => {
            return Err(e.into_tree());
        },
    };
    let spanned_expr = Spanned::new(e_start, ex, rest.pos);
    let (fin, _) = match skip_ws(rest) {
        Ok(p) => p,
        Err(e) => {
            return Err(e.into_tree());
        },
    };
    if fin.pos < fin.end {
        return Err(ErrorTree::expected(fin.pos, Expectation::Eof));
    }
    Ok(Ron { attributes, expr: spanned_expr })
}

} // verus!
