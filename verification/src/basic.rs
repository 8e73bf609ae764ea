//! Basic parsers: whitespace, the two comment forms, fixed literals and
//! single characters.
//!
//! Each parser's contract is stated against a spec-level scan of the
//! character buffer ([`ws_run`], [`eol_run`], [`bc_scan`], [`ws_scan`]),
//! so what a parser consumes is pinned down exactly.

use vstd::prelude::*;
use vstd::string::StrSliceExecFns;

use crate::char_categories::is_ws;
use crate::char_categories::spec_is_ws;
use crate::error::Expectation;
use crate::error::InputParseErr;
use crate::error::fatal_expected;
use crate::error::rec_expected;
use crate::input::IResultLookahead;
use crate::input::Input;

verus! {

/// Where the run of whitespace beginning at `pos` ends.
pub open spec fn ws_run(s: Seq<char>, pos: int, end: int) -> int
    decreases end - pos,
        when pos <= end
{
    if pos >= end {
        pos
    } else if spec_is_ws(s[pos]) {
        ws_run(s, pos + 1, end)
    } else {
        pos
    }
}

pub proof fn lemma_ws_run_bounds(s: Seq<char>, pos: int, end: int)
    requires
        0 <= pos <= end <= s.len(),
    ensures
        pos <= ws_run(s, pos, end) <= end,
        forall|j: int| pos <= j < ws_run(s, pos, end) ==> spec_is_ws(#[trigger] s[j]),
        ws_run(s, pos, end) < end ==> !spec_is_ws(s[ws_run(s, pos, end)]),
    decreases end - pos,
{
    if pos < end && spec_is_ws(s[pos]) {
        lemma_ws_run_bounds(s, pos + 1, end);
    }
}

/// Where a line comment beginning at `pos` stops: the first line break,
/// or the end of input.
pub open spec fn eol_run(s: Seq<char>, pos: int, end: int) -> int
    decreases end - pos,
        when pos <= end
{
    if pos >= end {
        pos
    } else if s[pos] == '\n' || s[pos] == '\r' {
        pos
    } else {
        eol_run(s, pos + 1, end)
    }
}

pub proof fn lemma_eol_run_bounds(s: Seq<char>, pos: int, end: int)
    requires
        0 <= pos <= end <= s.len(),
    ensures
        pos <= eol_run(s, pos, end) <= end,
        forall|j: int|
            pos <= j < eol_run(s, pos, end) ==> (#[trigger] s[j]) != '\n' && s[j] != '\r',
        eol_run(s, pos, end) < end ==> (s[eol_run(s, pos, end)] == '\n' || s[eol_run(s, pos, end)]
            == '\r'),
    decreases end - pos,
{
    if pos < end && !(s[pos] == '\n' || s[pos] == '\r') {
        lemma_eol_run_bounds(s, pos + 1, end);
    }
}

/// The two-character token `ab` stands at `pos`.
pub open spec fn two_char_at(s: Seq<char>, pos: int, end: int, a: char, b: char) -> bool {
    pos + 1 < end && s[pos] == a && s[pos + 1] == b
}

/// Scans a block comment body left to right from `pos` at the given
/// nesting depth: `/*` opens a deeper level, `*/` closes one; the scan
/// yields the position just past the `*/` that closes depth zero, or
/// `None` when the input ends first.
pub open spec fn bc_scan(s: Seq<char>, pos: int, end: int, depth: nat) -> Option<int>
    decreases end - pos,
        when pos <= end
{
    if pos >= end {
        None
    } else if two_char_at(s, pos, end, '*', '/') {
        if depth == 0 {
            Some(pos + 2)
        } else {
            bc_scan(s, pos + 2, end, (depth - 1) as nat)
        }
    } else if two_char_at(s, pos, end, '/', '*') {
        bc_scan(s, pos + 2, end, depth + 1)
    } else {
        bc_scan(s, pos + 1, end, depth)
    }
}

pub proof fn lemma_bc_scan_bounds(s: Seq<char>, pos: int, end: int, depth: nat)
    requires
        0 <= pos <= end <= s.len(),
    ensures
        bc_scan(s, pos, end, depth) matches Some(q) ==> pos + 2 <= q <= end,
    decreases end - pos,
{
    if pos < end {
        if two_char_at(s, pos, end, '*', '/') {
            if depth != 0 {
                lemma_bc_scan_bounds(s, pos + 2, end, (depth - 1) as nat);
            }
        } else if two_char_at(s, pos, end, '/', '*') {
            lemma_bc_scan_bounds(s, pos + 2, end, depth + 1);
        } else {
            lemma_bc_scan_bounds(s, pos + 1, end, depth);
        }
    }
}

/// Where parsing skips to when whitespace, line comments and block
/// comments are consumed starting at `pos`; `None` when a block comment
/// is left unterminated.
pub open spec fn ws_scan(s: Seq<char>, pos: int, end: int) -> Option<int>
    decreases end - pos,
        when 0 <= pos <= end <= s.len()
        via ws_scan_dec
{
    let p = ws_run(s, pos, end);
    if two_char_at(s, p, end, '/', '/') {
        ws_scan(s, eol_run(s, p + 2, end), end)
    } else if two_char_at(s, p, end, '/', '*') {
        match bc_scan(s, p + 2, end, 0) {
            Some(q) => ws_scan(s, q, end),
            None => None,
        }
    } else {
        Some(p)
    }
}

#[via_fn]
proof fn ws_scan_dec(s: Seq<char>, pos: int, end: int) {
    lemma_ws_run_bounds(s, pos, end);
    let p = ws_run(s, pos, end);
    if two_char_at(s, p, end, '/', '/') {
        lemma_eol_run_bounds(s, p + 2, end);
    } else if two_char_at(s, p, end, '/', '*') {
        lemma_bc_scan_bounds(s, p + 2, end, 0);
    }
}

pub proof fn lemma_ws_scan_bounds(s: Seq<char>, pos: int, end: int)
    requires
        0 <= pos <= end <= s.len(),
    ensures
        ws_scan(s, pos, end) matches Some(q) ==> pos <= q <= end,
    decreases end - pos,
{
    lemma_ws_run_bounds(s, pos, end);
    let p = ws_run(s, pos, end);
    if two_char_at(s, p, end, '/', '/') {
        lemma_eol_run_bounds(s, p + 2, end);
        lemma_ws_scan_bounds(s, eol_run(s, p + 2, end), end);
    } else if two_char_at(s, p, end, '/', '*') {
        lemma_bc_scan_bounds(s, p + 2, end, 0);
        if let Some(q) = bc_scan(s, p + 2, end, 0) {
            lemma_ws_scan_bounds(s, q, end);
        }
    }
}

/// Where skipping stopped, skipping again stays put.
pub proof fn lemma_ws_scan_idem(s: Seq<char>, pos: int, end: int)
    requires
        0 <= pos <= end <= s.len(),
    ensures
        ws_scan(s, pos, end) matches Some(q) ==> ws_scan(s, q, end) == Some(q),
    decreases end - pos,
{
    lemma_ws_run_bounds(s, pos, end);
    let p = ws_run(s, pos, end);
    if two_char_at(s, p, end, '/', '/') {
        lemma_eol_run_bounds(s, p + 2, end);
        lemma_ws_scan_idem(s, eol_run(s, p + 2, end), end);
    } else if two_char_at(s, p, end, '/', '*') {
        lemma_bc_scan_bounds(s, p + 2, end, 0);
        if let Some(q0) = bc_scan(s, p + 2, end, 0) {
            lemma_ws_scan_idem(s, q0, end);
        }
    } else {
        assert(ws_run(s, p, end) == p);
    }
}

/// Matches always, consumes nothing.
pub fn nothing<'a>(input: Input<'a>) -> (r: IResultLookahead<'a, Input<'a>>)
    requires
        input.wf(),
    ensures
        r == Ok::<_, InputParseErr>((input, input.upto(input.pos as int))),
{
    let (rest, taken) = input.take_split(0);
    Ok((rest, taken))
}

/// Consumes the (possibly empty) whitespace run at the front.
pub fn multispace0<'a>(input: Input<'a>) -> (r: IResultLookahead<'a, Input<'a>>)
    requires
        input.wf(),
    ensures
        ({
            let p = ws_run(input.src@, input.pos as int, input.end as int);
            r == Ok::<_, InputParseErr>((input.at(p), input.upto(p)))
        }),
{
    proof {
        lemma_ws_run_bounds(input.src@, input.pos as int, input.end as int);
    }
    let ghost run = ws_run(input.src@, input.pos as int, input.end as int);
    let mut i: usize = input.pos;
    while i < input.end && is_ws(input.src[i])
        invariant
            input.wf(),
            input.pos <= i <= input.end,
            ws_run(input.src@, input.pos as int, input.end as int) == ws_run(
                input.src@,
                i as int,
                input.end as int,
            ),
        decreases input.end - i,
    {
        i += 1;
    }
    Ok((Input { src: input.src, pos: i, end: input.end }, Input { src: input.src, pos: input.pos, end: i }))
}

/// Consumes a non-empty whitespace run, or fails recoverably expecting
/// whitespace.
pub fn multispace1<'a>(input: Input<'a>) -> (r: IResultLookahead<'a, Input<'a>>)
    requires
        input.wf(),
    ensures
        ({
            let p = ws_run(input.src@, input.pos as int, input.end as int);
            if p == input.pos {
                (r matches Err(e) && crate::error::expected_err(
                    e,
                    false,
                    input.pos as int,
                    Expectation::Multispace,
                ))
            } else {
                r == Ok::<_, InputParseErr>((input.at(p), input.upto(p)))
            }
        }),
{
    proof {
        lemma_ws_run_bounds(input.src@, input.pos as int, input.end as int);
    }
    let (rest, taken) = multispace0(input)?;
    if rest.pos == input.pos {
        Err(rec_expected(input.pos, Expectation::Multispace))
    } else {
        Ok((rest, taken))
    }
}

/// A `//` comment running to the end of the line (the line break itself
/// is not consumed); recoverable when `//` is not there.
pub fn eol_comment<'a>(input: Input<'a>) -> (r: IResultLookahead<'a, Input<'a>>)
    requires
        input.wf(),
    ensures
        ({
            let s = input.src@;
            let pos = input.pos as int;
            let end = input.end as int;
            if two_char_at(s, pos, end, '/', '/') {
                let e = eol_run(s, pos + 2, end);
                r == Ok::<_, InputParseErr>((input.at(e), input.upto(e)))
            } else {
                (r matches Err(e) && crate::error::tag_err(e, false, input.pos as int, "//"@))
            }
        }),
{
    if !(input.end - input.pos >= 2 && input.src[input.pos] == '/' && input.src[input.pos + 1]
        == '/') {
        return Err(rec_expected(input.pos, Expectation::Tag("//".to_owned())));
    }
    proof {
        lemma_eol_run_bounds(input.src@, input.pos + 2, input.end as int);
    }
    let mut i: usize = input.pos + 2;
    while i < input.end && !(input.src[i] == '\n' || input.src[i] == '\r')
        invariant
            input.wf(),
            input.pos + 2 <= i <= input.end,
            eol_run(input.src@, input.pos + 2, input.end as int) == eol_run(
                input.src@,
                i as int,
                input.end as int,
            ),
        decreases input.end - i,
    {
        i += 1;
    }
    Ok((Input { src: input.src, pos: i, end: input.end }, Input { src: input.src, pos: input.pos, end: i }))
}

/// A `/* ... */` comment with nesting. Consumes up to and including the
/// `*/` matching the opening token; an unterminated comment is a fatal
/// error expecting the comment's end, located at the end of input.
pub fn block_comment<'a>(input: Input<'a>) -> (r: IResultLookahead<'a, Input<'a>>)
    requires
        input.wf(),
    ensures
        ({
            let s = input.src@;
            let pos = input.pos as int;
            let end = input.end as int;
            if two_char_at(s, pos, end, '/', '*') {
                match bc_scan(s, pos + 2, end, 0) {
                    Some(q) => r == Ok::<_, InputParseErr>((input.at(q), input.upto(q))),
                    None => (r matches Err(e) && crate::error::expected_err(
                        e,
                        true,
                        input.end as int,
                        Expectation::BlockCommentEnd,
                    )),
                }
            } else {
                (r matches Err(e) && crate::error::tag_err(e, false, input.pos as int, "/*"@))
            }
        }),
{
    if !(input.end - input.pos >= 2 && input.src[input.pos] == '/' && input.src[input.pos + 1]
        == '*') {
        return Err(rec_expected(input.pos, Expectation::Tag("/*".to_owned())));
    }
    let mut i: usize = input.pos + 2;
    let mut depth: usize = 0;
    loop
        invariant
            input.wf(),
            two_char_at(input.src@, input.pos as int, input.end as int, '/', '*'),
            input.pos + 2 <= i <= input.end,
            2 * depth <= i - input.pos - 2,
            bc_scan(input.src@, input.pos + 2, input.end as int, 0) == bc_scan(
                input.src@,
                i as int,
                input.end as int,
                depth as nat,
            ),
        decreases input.end - i,
    {
        if i >= input.end {
            proof {
                assert(bc_scan(input.src@, i as int, input.end as int, depth as nat) is None);
            }
            return Err(fatal_expected(input.end, Expectation::BlockCommentEnd));
        }
        let c = input.src[i];
        if c == '*' && i + 1 < input.end && input.src[i + 1] == '/' {
            proof {
                assert(two_char_at(input.src@, i as int, input.end as int, '*', '/'));
            }
            if depth == 0 {
                proof {
                    assert(bc_scan(input.src@, i as int, input.end as int, depth as nat) == Some(
                        i + 2 as int,
                    ));
                }
                return Ok((
                    Input { src: input.src, pos: i + 2, end: input.end },
                    Input { src: input.src, pos: input.pos, end: i + 2 },
                ));
            }
            proof {
                assert(bc_scan(input.src@, i as int, input.end as int, depth as nat) == bc_scan(
                    input.src@,
                    i + 2 as int,
                    input.end as int,
                    (depth - 1) as nat,
                ));
            }
            depth = depth - 1;
            i = i + 2;
        } else if c == '/' && i + 1 < input.end && input.src[i + 1] == '*' {
            proof {
                assert(bc_scan(input.src@, i as int, input.end as int, depth as nat) == bc_scan(
                    input.src@,
                    i + 2 as int,
                    input.end as int,
                    (depth + 1) as nat,
                ));
            }
            depth = depth + 1;
            i = i + 2;
        } else {
            proof {
                assert(!two_char_at(input.src@, i as int, input.end as int, '*', '/'));
                assert(!two_char_at(input.src@, i as int, input.end as int, '/', '*'));
                assert(bc_scan(input.src@, i as int, input.end as int, depth as nat) == bc_scan(
                    input.src@,
                    i + 1 as int,
                    input.end as int,
                    depth as nat,
                ));
            }
            i = i + 1;
        }
    }
}

/// The fixed literal `t` stands at `pos` of `s` (within `end`).
pub open spec fn starts_with_at(s: Seq<char>, pos: int, end: int, t: Seq<char>) -> bool {
    pos + t.len() <= end && s.subrange(pos, pos + t.len()) == t
}

/// Matches the fixed literal `t`; recoverable on mismatch.
pub fn tag<'a>(t: &str, input: Input<'a>) -> (r: IResultLookahead<'a, Input<'a>>)
    requires
        input.wf(),
    ensures
        ({
            let s = input.src@;
            let pos = input.pos as int;
            let end = input.end as int;
            if starts_with_at(s, pos, end, t@) {
                r == Ok::<_, InputParseErr>((input.at(pos + t@.len()), input.upto(pos + t@.len())))
                    && crate::input::advances(input, input.at(pos + t@.len()))
            } else {
                (r matches Err(e) && crate::error::tag_err(e, false, input.pos as int, t@))
            }
        }),
{
    let tlen = t.unicode_len();
    if input.end - input.pos < tlen {
        proof {
            assert(!starts_with_at(input.src@, input.pos as int, input.end as int, t@));
        }
        return Err(rec_expected(input.pos, Expectation::Tag(t.to_owned())));
    }
    let mut i: usize = 0;
    while i < tlen
        invariant
            input.wf(),
            tlen == t@.len(),
            input.pos + tlen <= input.end,
            i <= tlen,
            forall|j: int| 0 <= j < i ==> input.src@[input.pos + j] == t@[j],
        decreases tlen - i,
    {
        if input.src[input.pos + i] != t.get_char(i) {
            proof {
                assert(!starts_with_at(input.src@, input.pos as int, input.end as int, t@));
            }
            return Err(rec_expected(input.pos, Expectation::Tag(t.to_owned())));
        }
        i += 1;
    }
    proof {
        assert(input.src@.subrange(input.pos as int, input.pos + t@.len()) =~= t@);
    }
    let (rest, taken) = input.take_split(tlen);
    Ok((rest, taken))
}

/// Matches exactly the character `c`; fatal on mismatch (callers probe
/// with a lookahead where they want a recoverable failure).
pub fn one_char<'a>(c: char, input: Input<'a>) -> (r: IResultLookahead<'a, char>)
    requires
        input.wf(),
    ensures
        ({
            let s = input.src@;
            let pos = input.pos as int;
            let end = input.end as int;
            if pos < end && s[pos] == c {
                r == Ok::<_, InputParseErr>((input.at(pos + 1), c)) && crate::input::advances(
                    input,
                    input.at(pos + 1),
                )
            } else {
                (r matches Err(e) && crate::error::expected_err(
                    e,
                    true,
                    pos,
                    Expectation::Char(c),
                ))
            }
        }),
{
    if input.pos < input.end && input.src[input.pos] == c {
        Ok((Input { src: input.src, pos: input.pos + 1, end: input.end }, c))
    } else {
        Err(fatal_expected(input.pos, Expectation::Char(c)))
    }
}

/// The first position at or after `from` holding `c`, or the length.
pub open spec fn find_char(s: Seq<char>, from: int, c: char) -> int
    decreases s.len() - from,
        when 0 <= from <= s.len()
{
    if from >= s.len() {
        s.len() as int
    } else if s[from] == c {
        from
    } else {
        find_char(s, from + 1, c)
    }
}

pub proof fn lemma_find_char_bounds(s: Seq<char>, from: int, c: char)
    requires
        0 <= from <= s.len(),
    ensures
        from <= find_char(s, from, c) <= s.len(),
        find_char(s, from, c) < s.len() ==> s[find_char(s, from, c)] == c,
        forall|j: int| from <= j < find_char(s, from, c) ==> (#[trigger] s[j]) != c,
    decreases s.len() - from,
{
    if from < s.len() && s[from] != c {
        lemma_find_char_bounds(s, from + 1, c);
    }
}

/// Maps the first input character through a character set: the output at
/// the position of the first match in `one_of` is returned. Fatal when
/// the first character is not in the set, and when the input is empty.
pub fn one_of_chars<'a, O: Copy>(one_of: &str, mapping: &[O], input: Input<'a>) -> (r:
    IResultLookahead<'a, O>)
    requires
        input.wf(),
        one_of@.len() == mapping@.len(),
    ensures
        ({
            let s = input.src@;
            let pos = input.pos as int;
            let end = input.end as int;
            if pos < end && find_char(one_of@, 0, s[pos]) < one_of@.len() {
                (r matches Ok(p) && p.0 == input.at(pos + 1) && p.1 == mapping@[find_char(
                    one_of@,
                    0,
                    s[pos],
                )])
            } else {
                (r matches Err(e) && crate::error::one_of_chars_err(e, input.pos as int, one_of@))
            }
        }),
{
    if input.pos >= input.end {
        return Err(fatal_expected(input.pos, Expectation::OneOfChars(one_of.to_owned())));
    }
    let t = input.src[input.pos];
    let n = one_of.unicode_len();
    proof {
        lemma_find_char_bounds(one_of@, 0, t);
    }
    let mut i: usize = 0;
    while i < n
        invariant
            input.wf(),
            input.pos < input.end,
            t == input.src@[input.pos as int],
            n == one_of@.len(),
            one_of@.len() == mapping@.len(),
            i <= n,
            find_char(one_of@, 0, t) == find_char(one_of@, i as int, t),
        decreases n - i,
    {
        if one_of.get_char(i) == t {
            return Ok((
                Input { src: input.src, pos: input.pos + 1, end: input.end },
                mapping[i],
            ));
        }
        i += 1;
    }
    Err(fatal_expected(input.pos, Expectation::OneOfChars(one_of.to_owned())))
}

/// Matches the first of the given fixed literals that stands at the
/// front and returns the output at its position; fatal when none does.
pub fn one_of_tags<'a, O: Copy>(one_of: &[&str], mapping: &[O], input: Input<'a>) -> (r:
    IResultLookahead<'a, O>)
    requires
        input.wf(),
        one_of@.len() == mapping@.len(),
    ensures
        (r matches Ok(p) ==> crate::input::advances(input, p.0) && (exists|k: int|
            0 <= k < one_of@.len() && p.0.pos == input.pos + (#[trigger] one_of@[k])@.len()
                && starts_with_at(input.src@, input.pos as int, input.end as int, one_of@[k]@))),
        forall|k: int|
            0 <= k < one_of@.len() && starts_with_at(
                input.src@,
                input.pos as int,
                input.end as int,
                #[trigger] one_of@[k]@,
            ) && (forall|j: int|
                0 <= j < k ==> !starts_with_at(
                    input.src@,
                    input.pos as int,
                    input.end as int,
                    #[trigger] one_of@[j]@,
                )) ==> (r matches Ok(p) && p.0 == input.at(input.pos + one_of@[k]@.len()) && p.1
                == mapping@[k]),
        (forall|k: int|
            0 <= k < one_of@.len() ==> !starts_with_at(
                input.src@,
                input.pos as int,
                input.end as int,
                #[trigger] one_of@[k]@,
            )) ==> (r matches Err(e) && crate::error::one_of_tags_err(
            e,
            input.pos as int,
            Seq::new(one_of@.len(), |k: int| one_of@[k]@),
        )),
{
    let n = one_of.len();
    let mut i: usize = 0;
    while i < n
        invariant
            input.wf(),
            n == one_of@.len() == mapping@.len(),
            i <= n,
            forall|j: int|
                0 <= j < i ==> !starts_with_at(
                    input.src@,
                    input.pos as int,
                    input.end as int,
                    #[trigger] one_of@[j]@,
                ),
        decreases n - i,
    {
        let t = one_of[i];
        match tag(t, input) {
            Ok((rest, _taken)) => {
                proof {
                    assert(0 <= i < one_of@.len() && rest.pos == input.pos + one_of@[i as int]@.len()
                        && starts_with_at(
                        input.src@,
                        input.pos as int,
                        input.end as int,
                        one_of@[i as int]@,
                    ));
                }
                return Ok((rest, mapping[i]));
            },
            Err(_) => {},
        }
        i += 1;
    }
    let mut owned: Vec<String> = Vec::new();
    let mut i: usize = 0;
    while i < n
        invariant
            n == one_of@.len(),
            i <= n,
            owned@.len() == i,
            forall|k: int| 0 <= k < i ==> (#[trigger] owned@[k])@ == one_of@[k]@,
        decreases n - i,
    {
        owned.push(one_of[i].to_owned());
        i += 1;
    }
    Err(fatal_expected(input.pos, Expectation::OneOfTags(owned)))
}

/// Consumes whitespace and comments before the next token. An
/// unterminated block comment is the one way this can fail.
pub fn skip_ws<'a>(input: Input<'a>) -> (r: IResultLookahead<'a, ()>)
    requires
        input.wf(),
    ensures
        ({
            let s = input.src@;
            let pos = input.pos as int;
            let end = input.end as int;
            match ws_scan(s, pos, end) {
                Some(p) => (r matches Ok(pr) && pr.0 == input.at(p) && crate::input::advances(
                    input,
                    pr.0,
                ) && input.pos <= p <= input.end && pr.0.pos as int == p),
                None => (r matches Err(e) && crate::error::expected_err(
                    e,
                    true,
                    end,
                    Expectation::BlockCommentEnd,
                )),
            }
        }),
{
    let ghost s = input.src@;
    let ghost end0 = input.end as int;
    let mut cur = input;
    loop
        invariant
            input.wf(),
            cur.wf(),
            s == input.src@,
            end0 == input.end as int,
            cur.src@ == s,
            cur.end == input.end,
            input.pos <= cur.pos,
            cur.src == input.src,
            ws_scan(s, input.pos as int, end0) == ws_scan(s, cur.pos as int, end0),
        decreases input.end - cur.pos,
    {
        let (after_ws, _taken) = multispace0(cur)?;
        proof {
            lemma_ws_run_bounds(s, cur.pos as int, end0);
        }
        if after_ws.end - after_ws.pos >= 2 && after_ws.src[after_ws.pos] == '/'
            && after_ws.src[after_ws.pos + 1] == '/' {
            let (next, _c) = eol_comment(after_ws)?;
            proof {
                lemma_eol_run_bounds(s, after_ws.pos + 2, end0);
            }
            cur = next;
        } else if after_ws.end - after_ws.pos >= 2 && after_ws.src[after_ws.pos] == '/'
            && after_ws.src[after_ws.pos + 1] == '*' {
            match block_comment(after_ws) {
                Ok((next, _c)) => {
                    proof {
                        lemma_bc_scan_bounds(s, after_ws.pos + 2, end0, 0);
                    }
                    cur = next;
                },
                Err(e) => {
                    return Err(e);
                },
            }
        } else {
            return Ok((after_ws, ()));
        }
    }
}

} // verus!
