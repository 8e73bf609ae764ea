//! Properties of the parser that go beyond a single function's contract,
//! stated and proved once: entry order in parsed containers, the decimal
//! round trip for unsigned integers, zero-copy strings, and where a flat
//! block comment closes.

use vstd::prelude::*;

use crate::ast::RonMap;
use crate::ast::Struct;
use crate::ast::expr_wf;
use crate::ast::struct_wf;
use crate::basic::bc_scan;
use crate::basic::two_char_at;
use crate::number::all_digits;
use crate::number::digit_val;
use crate::number::digits_val;
use crate::strings::char_of;
use crate::strings::lit_run;
use crate::expr::unescaped_complete;

verus! {

/// The fields of a well-formed struct stand in source order: each one
/// ends before the next begins. Every struct a successful parse yields
/// is well-formed, so this holds of everything the parser produces.
pub proof fn lemma_struct_entries_ordered(st: Struct, lo: int, hi: int, i: int, j: int)
    requires
        struct_wf(st, lo, hi),
        0 <= i < j < st.fields.value@.len(),
    ensures
        st.fields.value@[i].end <= st.fields.value@[j].start,
{
}

/// The entries of a well-formed map stand in source order.
pub proof fn lemma_map_entries_ordered(m: RonMap, lo: int, hi: int, i: int, j: int)
    requires
        expr_wf(crate::ast::Expr::RonMap(m), lo, hi),
        0 <= i < j < m.entries.value@.len(),
    ensures
        m.entries.value@[i].end <= m.entries.value@[j].start,
{
}

/// The canonical decimal representation of a number.
pub open spec fn dec_repr(n: nat) -> Seq<char>
    decreases n,
{
    if n < 10 {
        seq![char_of(48 + n as int)]
    } else {
        dec_repr(n / 10).push(char_of(48 + (n % 10) as int))
    }
}

proof fn lemma_digit_char(d: int)
    requires
        0 <= d < 10,
    ensures
        char_of(48 + d) as u32 == 48 + d,
{
    let w: char = if d == 0 {
        '0'
    } else if d == 1 {
        '1'
    } else if d == 2 {
        '2'
    } else if d == 3 {
        '3'
    } else if d == 4 {
        '4'
    } else if d == 5 {
        '5'
    } else if d == 6 {
        '6'
    } else if d == 7 {
        '7'
    } else if d == 8 {
        '8'
    } else {
        '9'
    };
    assert(w as u32 == 48 + d);
}

proof fn lemma_dec_repr(n: nat)
    ensures
        dec_repr(n).len() >= 1,
        all_digits(dec_repr(n)),
        digits_val(dec_repr(n)) == n,
    decreases n,
{
    if n < 10 {
        lemma_digit_char(n as int);
        let s = dec_repr(n);
        assert(s.len() == 1);
        assert(s.last() == char_of(48 + n as int));
        assert(s.drop_last() =~= Seq::<char>::empty());
        assert(digits_val(s.drop_last()) == 0);
        assert(digit_val(s.last()) == n);
        assert(digits_val(s) == digits_val(s.drop_last()) * 10 + digit_val(s.last()));
    } else {
        lemma_dec_repr(n / 10);
        lemma_digit_char((n % 10) as int);
        let s = dec_repr(n);
        assert(s.last() == char_of(48 + (n % 10) as int));
        assert(s.drop_last() =~= dec_repr(n / 10));
        assert(digits_val(s.drop_last()) == n / 10);
        assert(digit_val(s.last()) == n % 10);
        assert(digits_val(s) == digits_val(s.drop_last()) * 10 + digit_val(s.last()));
        assert(n == (n / 10) * 10 + n % 10) by (nonlinear_arith);
    }
}

/// The decimal round trip for unsigned integers: the canonical
/// representation of any 64-bit value is a non-empty run of digits whose
/// value is that very number. Together with the numeric clause of
/// [`crate::expr::ron`]'s contract, parsing that representation yields
/// `Expr::Integer(Integer::Unsigned(..))` carrying the number itself.
pub proof fn lemma_unsigned_round_trip(n: u64)
    ensures
        dec_repr(n as nat).len() >= 1,
        all_digits(dec_repr(n as nat)),
        digits_val(dec_repr(n as nat)) == n,
{
    lemma_dec_repr(n as nat);
}

proof fn lemma_lit_run_to(s: Seq<char>, a: int, b: int, end: int)
    requires
        0 <= a <= b < end <= s.len(),
        forall|j: int| a <= j < b ==> (#[trigger] s[j]) != '"' && s[j] != '\\',
        s[b] == '"' || s[b] == '\\',
    ensures
        lit_run(s, a, end) == b,
    decreases b - a,
{
    if a < b {
        lemma_lit_run_to(s, a + 1, b, end);
    }
}

/// Zero-copy strings: a quoted text that holds neither `"` nor `\`
/// satisfies the conditions under which [`crate::expr::expr`]'s contract
/// promises `Expr::Str` carrying exactly that text.
pub proof fn lemma_plain_string_parses(s: Seq<char>, pos: int, end: int, t: Seq<char>)
    requires
        0 <= pos,
        pos + t.len() + 2 <= end <= s.len(),
        s[pos] == '"',
        s.subrange(pos + 1, pos + 1 + t.len()) == t,
        s[pos + 1 + t.len()] == '"',
        forall|i: int| 0 <= i < t.len() ==> (#[trigger] t[i]) != '"' && t[i] != '\\',
    ensures
        unescaped_complete(s, pos, end),
        lit_run(s, pos + 1, end) == pos + 1 + t.len(),
        s.subrange(pos + 1, lit_run(s, pos + 1, end)) == t,
{
    assert forall|j: int| pos + 1 <= j < pos + 1 + t.len() implies (#[trigger] s[j]) != '"' && s[j]
        != '\\' by {
        assert(t[j - pos - 1] == s[j]);
    }
    lemma_lit_run_to(s, pos + 1, pos + 1 + t.len(), end);
}

/// Nesting: scanning at a deeper level first consumes exactly one whole
/// balanced comment — up to its own matching `*/` — and then continues
/// at the outer level from there. Applied at a `/*`, this says a nested
/// comment never closes its enclosing one.
pub proof fn lemma_bc_scan_compose(s: Seq<char>, p: int, end: int, d: nat)
    requires
        0 <= p <= end <= s.len(),
    ensures
        bc_scan(s, p, end, d + 1) == (match bc_scan(s, p, end, 0) {
            Some(q) => bc_scan(s, q, end, d),
            None => None::<int>,
        }),
    decreases end - p,
{
    if p < end {
        if two_char_at(s, p, end, '*', '/') {
        } else if two_char_at(s, p, end, '/', '*') {
            crate::basic::lemma_bc_scan_bounds(s, p + 2, end, 0);
            lemma_bc_scan_compose(s, p + 2, end, d + 1);
            lemma_bc_scan_compose(s, p + 2, end, 0);
            if let Some(q) = bc_scan(s, p + 2, end, 0) {
                lemma_bc_scan_compose(s, q, end, d);
            }
        } else {
            lemma_bc_scan_compose(s, p + 1, end, d);
        }
    }
}

/// A block comment whose body holds no nested `/*` and no earlier `*/`
/// closes at that first `*/`: the scan consumes exactly up to it.
pub proof fn lemma_block_comment_flat(s: Seq<char>, pos: int, q: int, end: int)
    requires
        0 <= pos <= q,
        q + 1 < end <= s.len(),
        forall|j: int| pos <= j < q ==> !two_char_at(s, j, end, '*', '/') && !two_char_at(s, j, end, '/', '*'),
        s[q] == '*' && s[q + 1] == '/',
    ensures
        bc_scan(s, pos, end, 0) == Some(q + 2),
    decreases q - pos,
{
    if pos < q {
        lemma_block_comment_flat(s, pos + 1, q, end);
    }
}

} // verus!
