//! Numeric parsers: unsigned and signed integers and decimals.
//!
//! Contracts are stated over [`digit_run`] (where the digit run at a
//! position ends) and [`digits_val`] (the base-10 value of a digit
//! sequence), so the parsed value is pinned down exactly.

use vstd::prelude::*;

use crate::ast::Decimal;
use crate::ast::Sign;
use crate::ast::SignedInteger;
use crate::ast::UnsignedInteger;
use crate::char_categories::is_digit;
use crate::char_categories::spec_is_digit;
use crate::error::BaseErrorKind;
use crate::error::ErrorTree;
use crate::error::Expectation;
use crate::error::InputParseErr;
use crate::error::expected_err;
use crate::error::external_err;
use crate::error::rec_expected;
use crate::input::IResultLookahead;
use crate::input::Input;

verus! {

pub open spec fn digit_val(c: char) -> int {
    c as u32 - 48
}

/// Where the run of decimal digits beginning at `pos` ends.
pub open spec fn digit_run(s: Seq<char>, pos: int, end: int) -> int
    decreases end - pos,
        when pos <= end
{
    if pos >= end {
        pos
    } else if spec_is_digit(s[pos]) {
        digit_run(s, pos + 1, end)
    } else {
        pos
    }
}

pub proof fn lemma_digit_run_bounds(s: Seq<char>, pos: int, end: int)
    requires
        0 <= pos <= end <= s.len(),
    ensures
        pos <= digit_run(s, pos, end) <= end,
        forall|j: int| pos <= j < digit_run(s, pos, end) ==> spec_is_digit(#[trigger] s[j]),
        digit_run(s, pos, end) < end ==> !spec_is_digit(s[digit_run(s, pos, end)]),
    decreases end - pos,
{
    if pos < end && spec_is_digit(s[pos]) {
        lemma_digit_run_bounds(s, pos + 1, end);
    }
}

pub open spec fn all_digits(ds: Seq<char>) -> bool {
    forall|i: int| 0 <= i < ds.len() ==> spec_is_digit(#[trigger] ds[i])
}

/// The value of a digit sequence read in base 10.
pub open spec fn digits_val(ds: Seq<char>) -> int
    decreases ds.len(),
{
    if ds.len() == 0 {
        0
    } else {
        digits_val(ds.drop_last()) * 10 + digit_val(ds.last())
    }
}

pub proof fn lemma_digits_val_nonneg(ds: Seq<char>)
    requires
        all_digits(ds),
    ensures
        0 <= digits_val(ds),
    decreases ds.len(),
{
    if ds.len() > 0 {
        assert(all_digits(ds.drop_last()));
        lemma_digits_val_nonneg(ds.drop_last());
    }
}

/// Reading further digits never makes the value smaller.
pub proof fn lemma_digits_val_mono(s: Seq<char>, pos: int, i: int, j: int)
    requires
        0 <= pos <= i <= j <= s.len(),
        forall|k: int| pos <= k < j ==> spec_is_digit(#[trigger] s[k]),
    ensures
        digits_val(s.subrange(pos, i)) <= digits_val(s.subrange(pos, j)),
    decreases j - i,
{
    if i < j {
        assert(s.subrange(pos, i + 1).drop_last() =~= s.subrange(pos, i));
        assert(s.subrange(pos, i + 1).last() == s[i]);
        assert(all_digits(s.subrange(pos, i)));
        lemma_digits_val_nonneg(s.subrange(pos, i));
        lemma_digits_val_mono(s, pos, i + 1, j);
    }
}

/// Parses the digit run at the front into a 64-bit value: recoverable
/// when no digit stands there, fatal (an `External` error) when the run's
/// value does not fit.
pub fn digits_u64<'a>(input: Input<'a>) -> (r: IResultLookahead<'a, u64>)
    requires
        input.wf(),
    ensures
        (r matches Err(e) ==> e.locs_in(input.end as int)),
        ({
            let s = input.src@;
            let pos = input.pos as int;
            let end = input.end as int;
            let run = digit_run(s, pos, end);
            let v = digits_val(s.subrange(pos, run));
            if pos == run {
                (r matches Err(e) && expected_err(e, false, pos, Expectation::Digit))
            } else if v > u64::MAX as int {
                (r matches Err(e) && external_err(e, true, pos))
            } else {
                r == Ok::<_, InputParseErr>((input.at(run), v as u64)) && crate::input::advances(
                    input,
                    input.at(run),
                ) && input.pos < run
            }
        }),
{
    let ghost s = input.src@;
    let ghost pos0 = input.pos as int;
    let ghost end0 = input.end as int;
    proof {
        lemma_digit_run_bounds(s, pos0, end0);
    }
    let ghost run = digit_run(s, pos0, end0);
    if input.pos >= input.end || !is_digit(input.src[input.pos]) {
        return Err(rec_expected(input.pos, Expectation::Digit));
    }
    let mut i: usize = input.pos;
    let mut n: u64 = 0;
    while i < input.end && is_digit(input.src[i])
        invariant
            input.wf(),
            s == input.src@,
            pos0 == input.pos as int,
            end0 == input.end as int,
            run == digit_run(s, pos0, end0),
            input.pos <= i <= input.end,
            i <= run,
            digit_run(s, i as int, end0) == run,
            n == digits_val(s.subrange(pos0, i as int)),
        decreases input.end - i,
    {
        let c = input.src[i];
        let d: u64 = (c as u32 - 48) as u64;
        proof {
            lemma_digit_run_bounds(s, i + 1, end0);
            assert(s.subrange(pos0, i + 1).drop_last() =~= s.subrange(pos0, i as int));
            assert(s.subrange(pos0, i + 1).last() == s[i as int]);
            assert(digits_val(s.subrange(pos0, i + 1)) == n * 10 + d);
        }
        if n > (u64::MAX - d) / 10 {
            proof {
                let m = u64::MAX as int;
                assert(m - d == 10 * ((m - d) / 10) + (m - d) % 10);
                assert(n * 10 + d > m);
                lemma_digit_run_bounds(s, pos0, end0);
                lemma_digits_val_mono(s, pos0, i + 1, run);
            }
            return Err(
                InputParseErr::Fatal(
                    ErrorTree::Base {
                        location: input.pos,
                        kind: BaseErrorKind::External(
                            "number does not fit in 64 bits".to_owned(),
                        ),
                    },
                ),
            );
        }
        n = n * 10 + d;
        i += 1;
    }
    Ok((Input { src: input.src, pos: i, end: input.end }, n))
}

/// An unsigned integer: one or more digits. Yields (recoverably) when
/// the run is followed by `.`, `e` or `E`, so that a choice can hand the
/// input to the decimal parser instead.
pub fn unsigned<'a>(input: Input<'a>) -> (r: IResultLookahead<'a, UnsignedInteger>)
    requires
        input.wf(),
    ensures
        (r matches Err(e) ==> e.locs_in(input.end as int)),
        ({
            let s = input.src@;
            let pos = input.pos as int;
            let end = input.end as int;
            let run = digit_run(s, pos, end);
            let v = digits_val(s.subrange(pos, run));
            if pos == run {
                (r matches Err(e) && expected_err(e, false, pos, Expectation::Digit))
            } else if v > u64::MAX as int {
                (r matches Err(e) && external_err(e, true, pos))
            } else if run < end && (s[run] == '.' || s[run] == 'e' || s[run] == 'E') {
                (r matches Err(e) && !e.is_fatal())
            } else {
                r == Ok::<_, InputParseErr>((input.at(run), UnsignedInteger { number: v as u64 }))
                    && crate::input::advances(input, input.at(run)) && input.pos < run
            }
        }),
{
    proof {
        lemma_digit_run_bounds(input.src@, input.pos as int, input.end as int);
    }
    let (rest, n) = digits_u64(input)?;
    if rest.pos < rest.end {
        let c = rest.src[rest.pos];
        if c == '.' || c == 'e' || c == 'E' {
            return Err(rec_expected(rest.pos, Expectation::Digit));
        }
    }
    Ok((rest, UnsignedInteger { number: n }))
}

/// A signed integer: a mandatory `+` or `-`, then digits, with the same
/// yield-to-decimal behaviour as [`unsigned`].
pub fn signed_integer<'a>(input: Input<'a>) -> (r: IResultLookahead<'a, SignedInteger>)
    requires
        input.wf(),
    ensures
        (r matches Err(e) ==> e.locs_in(input.end as int)),
        ({
            let s = input.src@;
            let pos = input.pos as int;
            let end = input.end as int;
            if pos < end && (s[pos] == '+' || s[pos] == '-') {
                let sign = if s[pos] == '+' {
                    Sign::Positive
                } else {
                    Sign::Negative
                };
                let run = digit_run(s, pos + 1, end);
                let v = digits_val(s.subrange(pos + 1, run));
                if pos + 1 == run {
                    (r matches Err(e) && expected_err(e, false, pos + 1, Expectation::Digit))
                } else if v > u64::MAX as int {
                    (r matches Err(e) && external_err(e, true, pos + 1))
                } else if run < end && (s[run] == '.' || s[run] == 'e' || s[run] == 'E') {
                    (r matches Err(e) && !e.is_fatal())
                } else {
                    r == Ok::<_, InputParseErr>(
                        (input.at(run), SignedInteger { sign, number: v as u64 }),
                    ) && crate::input::advances(input, input.at(run)) && input.pos < run
                }
            } else {
                (r matches Err(e) && !e.is_fatal() && e.locs_in(end))
            }
        }),
{
    if input.pos >= input.end {
        return Err(rec_expected(input.pos, Expectation::OneOfChars("+-".to_owned())));
    }
    let c = input.src[input.pos];
    let sign = if c == '+' {
        Sign::Positive
    } else if c == '-' {
        Sign::Negative
    } else {
        return Err(rec_expected(input.pos, Expectation::OneOfChars("+-".to_owned())));
    };
    let after_sign = input.advance(1);
    let (rest, n) = unsigned(after_sign)?;
    Ok((rest, SignedInteger { sign, number: n.number }))
}

/// The sign standing at `pos`, if any.
pub open spec fn sign_at(s: Seq<char>, pos: int, end: int) -> Option<Sign> {
    if pos < end && s[pos] == '+' {
        Some(Sign::Positive)
    } else if pos < end && s[pos] == '-' {
        Some(Sign::Negative)
    } else {
        None
    }
}

pub open spec fn sign_len(s: Seq<char>, pos: int, end: int) -> int {
    if sign_at(s, pos, end) is Some {
        1
    } else {
        0
    }
}

/// The exponent of a decimal: `e`/`E`, an optional sign, then a digit
/// run whose value must fit in 16 bits (else a fatal `External` error).
fn exp_part<'a>(input: Input<'a>) -> (r: IResultLookahead<'a, (Option<Sign>, u16)>)
    requires
        input.wf(),
        input.pos < input.end,
        input.src@[input.pos as int] == 'e' || input.src@[input.pos as int] == 'E',
    ensures
        (r matches Ok(p) ==> crate::input::advances(input, p.0) && input.pos < p.0.pos),
        (r matches Err(e) ==> e.locs_in(input.end as int)),
        ({
            let s = input.src@;
            let pos = input.pos as int;
            let end = input.end as int;
            let esign = sign_at(s, pos + 1, end);
            let es = pos + 1 + sign_len(s, pos + 1, end);
            let erun = digit_run(s, es, end);
            let ev = digits_val(s.subrange(es, erun));
            if es == erun {
                (r matches Err(e) && expected_err(e, false, es, Expectation::Digit))
            } else if ev > u16::MAX as int {
                (r matches Err(e) && external_err(e, true, es))
            } else {
                r == Ok::<_, InputParseErr>((input.at(erun), (esign, ev as u16)))
            }
        }),
{
    let ghost s = input.src@;
    let ghost pos0 = input.pos as int;
    let ghost end0 = input.end as int;
    let mut cur = input.advance(1);
    let mut esign: Option<Sign> = None;
    if cur.pos < cur.end {
        let c = cur.src[cur.pos];
        if c == '+' {
            esign = Some(Sign::Positive);
            cur = cur.advance(1);
        } else if c == '-' {
            esign = Some(Sign::Negative);
            cur = cur.advance(1);
        }
    }
    let ghost es = pos0 + 1 + sign_len(s, pos0 + 1, end0);
    proof {
        assert(esign == sign_at(s, pos0 + 1, end0));
        assert(cur.pos as int == es);
        lemma_digit_run_bounds(s, es, end0);
        assert(all_digits(s.subrange(es, digit_run(s, es, end0))));
        lemma_digits_val_nonneg(s.subrange(es, digit_run(s, es, end0)));
    }
    let (c2, ev) = digits_u64(cur)?;
    if ev > 65535 {
        return Err(
            InputParseErr::Fatal(
                ErrorTree::Base {
                    location: cur.pos,
                    kind: BaseErrorKind::External("exponent does not fit in 16 bits".to_owned()),
                },
            ),
        );
    }
    Ok((c2, (esign, ev as u16)))
}

/// What the exponent part from `after` on yields, if anything: `None`
/// where the decimal grammar fails there, `Some((stop, d))` where it
/// completes `d` at `stop`.
pub open spec fn dec_exp_ok(
    s: Seq<char>,
    after: int,
    end: int,
    sign: Option<Sign>,
    whole: Option<u64>,
    fractional: u64,
    required: bool,
) -> Option<(int, Decimal)> {
    if after < end && (s[after] == 'e' || s[after] == 'E') {
        let esign = sign_at(s, after + 1, end);
        let es = after + 1 + sign_len(s, after + 1, end);
        let erun = digit_run(s, es, end);
        let ev = digits_val(s.subrange(es, erun));
        if es == erun || ev > u16::MAX as int {
            None
        } else {
            Some((erun, Decimal { sign, whole, fractional, exponent: Some((esign, ev as u16)) }))
        }
    } else if required {
        None
    } else {
        Some((after, Decimal { sign, whole, fractional, exponent: None }))
    }
}

/// The decimal that the grammar reads at `pos`, and where it stops;
/// `None` where no decimal stands there or a digit run does not fit
/// its width.
pub open spec fn dec_ok(s: Seq<char>, pos: int, end: int) -> Option<(int, Decimal)> {
    let sign = sign_at(s, pos, end);
    let p1 = pos + sign_len(s, pos, end);
    let wrun = digit_run(s, p1, end);
    let whole_has = p1 < wrun;
    let wv = digits_val(s.subrange(p1, wrun));
    if whole_has && wv > u64::MAX as int {
        None
    } else {
        let whole = if whole_has {
            Some(wv as u64)
        } else {
            None::<u64>
        };
        if wrun < end && s[wrun] == '.' {
            let fs = wrun + 1;
            let frun = digit_run(s, fs, end);
            let frac_has = fs < frun;
            let fv = digits_val(s.subrange(fs, frun));
            if (frac_has && fv > u64::MAX as int) || (!frac_has && !whole_has) {
                None
            } else {
                let fractional = if frac_has {
                    fv as u64
                } else {
                    0u64
                };
                dec_exp_ok(s, frun, end, sign, whole, fractional, false)
            }
        } else if !whole_has {
            None
        } else {
            dec_exp_ok(s, wrun, end, sign, Some(wv as u64), 0u64, true)
        }
    }
}

/// A complete decimal read stops past its start and within the input.
pub proof fn lemma_dec_ok_bounds(s: Seq<char>, pos: int, end: int)
    requires
        0 <= pos <= end <= s.len(),
    ensures
        dec_ok(s, pos, end) matches Some(pr) ==> pos < pr.0 <= end,
{
    let p1 = pos + sign_len(s, pos, end);
    assert(pos <= p1 <= end);
    lemma_digit_run_bounds(s, p1, end);
    let wrun = digit_run(s, p1, end);
    if wrun < end && s[wrun] == '.' {
        lemma_digit_run_bounds(s, wrun + 1, end);
        let frun = digit_run(s, wrun + 1, end);
        if frun < end && (s[frun] == 'e' || s[frun] == 'E') {
            assert(frun + 1 + sign_len(s, frun + 1, end) <= end);
            lemma_digit_run_bounds(s, frun + 1 + sign_len(s, frun + 1, end), end);
        }
    } else {
        if wrun < end && (s[wrun] == 'e' || s[wrun] == 'E') {
            assert(wrun + 1 + sign_len(s, wrun + 1, end) <= end);
            lemma_digit_run_bounds(s, wrun + 1 + sign_len(s, wrun + 1, end), end);
        }
    }
}

/// A decimal literal: optional sign, then one of
/// `digits . digits? exp?`, `. digits exp?` or `digits exp`, where `exp`
/// is `e`/`E`, an optional sign and a digit run whose value must fit in
/// 16 bits. Bare integers are refused recoverably; digit runs that do
/// not fit their width are fatal `External` errors.
#[verifier::rlimit(100)]
pub fn decimal<'a>(input: Input<'a>) -> (r: IResultLookahead<'a, Decimal>)
    requires
        input.wf(),
    ensures
        (r matches Ok(p) ==> crate::input::advances(input, p.0) && input.pos < p.0.pos),
        (r matches Err(e) ==> e.locs_in(input.end as int)),
        (match dec_ok(input.src@, input.pos as int, input.end as int) {
            Some(pr) => r == Ok::<_, InputParseErr>((input.at(pr.0), pr.1)),
            None => r is Err,
        }),
        ({
            let s = input.src@;
            let pos = input.pos as int;
            let end = input.end as int;
            let sign = sign_at(s, pos, end);
            let p1 = pos + sign_len(s, pos, end);
            let wrun = digit_run(s, p1, end);
            let whole_has = p1 < wrun;
            let wv = digits_val(s.subrange(p1, wrun));
            if whole_has && wv > u64::MAX as int {
                (r matches Err(e) && external_err(e, true, p1))
            } else {
                let whole = if whole_has {
                    Some(wv as u64)
                } else {
                    None::<u64>
                };
                if wrun < end && s[wrun] == '.' {
                    let fs = wrun + 1;
                    let frun = digit_run(s, fs, end);
                    let frac_has = fs < frun;
                    let fv = digits_val(s.subrange(fs, frun));
                    if frac_has && fv > u64::MAX as int {
                        (r matches Err(e) && external_err(e, true, fs))
                    } else if !frac_has && !whole_has {
                        (r matches Err(e) && expected_err(e, false, fs, Expectation::Digit))
                    } else {
                        let fractional = if frac_has {
                            fv as u64
                        } else {
                            0u64
                        };
                        decimal_exp_ensures(r, input, frun, sign, whole, fractional, false)
                    }
                } else if !whole_has {
                    (r matches Err(e) && expected_err(e, false, p1, Expectation::Digit))
                } else {
                    decimal_exp_ensures(r, input, wrun, sign, Some(wv as u64), 0u64, true)
                }
            }
        }),
{
    let ghost s = input.src@;
    let ghost pos0 = input.pos as int;
    let ghost end0 = input.end as int;
    // sign
    let mut cur = input;
    let mut sign: Option<Sign> = None;
    if cur.pos < cur.end {
        let c = cur.src[cur.pos];
        if c == '+' {
            sign = Some(Sign::Positive);
            cur = cur.advance(1);
        } else if c == '-' {
            sign = Some(Sign::Negative);
            cur = cur.advance(1);
        }
    }
    let ghost p1 = pos0 + sign_len(s, pos0, end0);
    proof {
        assert(sign == sign_at(s, pos0, end0));
        assert(cur.pos as int == p1);
        lemma_digit_run_bounds(s, p1, end0);
    }
    let ghost wrun = digit_run(s, p1, end0);
    // whole part
    let whole_has = cur.pos < cur.end && is_digit(cur.src[cur.pos]);
    let mut whole: Option<u64> = None;
    if whole_has {
        let (c2, wv) = digits_u64(cur)?;
        whole = Some(wv);
        cur = c2;
    }
    proof {
        if !whole_has {
            assert(wrun == p1);
        }
        assert(cur.pos as int == wrun);
    }
    // fraction
    let mut fractional: u64 = 0;
    let saw_dot = cur.pos < cur.end && cur.src[cur.pos] == '.';
    let ghost fs = wrun + 1;
    let ghost frun = if saw_dot {
        digit_run(s, fs, end0)
    } else {
        wrun
    };
    if saw_dot {
        cur = cur.advance(1);
        proof {
            lemma_digit_run_bounds(s, fs, end0);
        }
        let frac_has = cur.pos < cur.end && is_digit(cur.src[cur.pos]);
        if frac_has {
            let (c2, fv) = digits_u64(cur)?;
            fractional = fv;
            cur = c2;
        } else if !whole_has {
            return Err(rec_expected(cur.pos, Expectation::Digit));
        } else {
            proof {
                assert(frun == fs);
            }
        }
    } else if !whole_has {
        return Err(rec_expected(cur.pos, Expectation::Digit));
    }
    proof {
        assert(cur.pos as int == frun);
    }
    // exponent
    let ghost after = cur.pos as int;
    let exp_follows = cur.pos < cur.end && (cur.src[cur.pos] == 'e' || cur.src[cur.pos] == 'E');
    if !saw_dot && !exp_follows {
        return Err(rec_expected(cur.pos, Expectation::OneOfChars(".eE".to_owned())));
    }
    let mut exponent: Option<(Option<Sign>, u16)> = None;
    if exp_follows {
        let (c2, e) = exp_part(cur)?;
        exponent = Some(e);
        cur = c2;
    }
    Ok((cur, Decimal { sign, whole, fractional, exponent }))
}

/// What [`decimal`] returns from the position `after` on, where only an
/// exponent may remain; `required` says whether a bare end is refused.
pub open spec fn decimal_exp_ensures(
    r: IResultLookahead<Decimal>,
    input: Input,
    after: int,
    sign: Option<Sign>,
    whole: Option<u64>,
    fractional: u64,
    required: bool,
) -> bool {
    let s = input.src@;
    let end = input.end as int;
    if after < end && (s[after] == 'e' || s[after] == 'E') {
        let esign = sign_at(s, after + 1, end);
        let es = after + 1 + sign_len(s, after + 1, end);
        let erun = digit_run(s, es, end);
        let ev = digits_val(s.subrange(es, erun));
        if es == erun {
            (r matches Err(e) && expected_err(e, false, es, Expectation::Digit))
        } else if ev > u16::MAX as int {
            (r matches Err(e) && external_err(e, true, es))
        } else {
            r == Ok::<_, InputParseErr>(
                (
                    input.at(erun),
                    Decimal { sign, whole, fractional, exponent: Some((esign, ev as u16)) },
                ),
            )
        }
    } else if required {
        (r matches Err(e) && !e.is_fatal() && e.locs_in(end))
    } else {
        r == Ok::<_, InputParseErr>(
            (input.at(after), Decimal { sign, whole, fractional, exponent: None }),
        )
    }
}

} // verus!
