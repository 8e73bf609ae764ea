//! The abstract syntax tree the parser produces.
//!
//! Every node is wrapped in a [`Spanned`] envelope carrying its start and
//! end offsets (in characters) into the source. Identifiers and string
//! values are owned copies of the matched source text.
//!
//! Equality on the tree leaves out the spans: [`Spanned`] compares by
//! its value alone, so span-elided expected values compare equal to
//! parser output wherever the payload itself has an equality (the leaf
//! types here do). The recursive tree types (`Expr` and the containers)
//! carry no equality operator of their own; callers compare the fields
//! they care about.

use vstd::prelude::*;

verus! {

/// A value together with the source range `[start, end)` it was parsed from.
pub struct Spanned<T> {
    pub start: usize,
    pub value: T,
    pub end: usize,
}

impl<T> Spanned<T> {
    /// The span lies within `[lo, hi]` and is well-ordered.
    pub open spec fn span_in(self, lo: int, hi: int) -> bool {
        lo <= self.start <= self.end <= hi
    }

    /// A value with an empty dummy span, for building expected trees by hand.
    pub fn new_test(value: T) -> (r: Spanned<T>)
        ensures
            r == (Spanned { start: 0usize, value, end: 0usize }),
    {
        Spanned { start: 0, value, end: 0 }
    }

    pub fn new(start: usize, value: T, end: usize) -> (r: Spanned<T>)
        ensures
            r == (Spanned { start, value, end }),
    {
        Spanned { start, value, end }
    }
}

impl<T: PartialEq + vstd::std_specs::cmp::PartialEqSpec> PartialEq for Spanned<T> {
    /// Equality leaves the spans out: only the values are compared.
    fn eq(&self, other: &Spanned<T>) -> bool {
        self.value == other.value
    }
}

impl<T: PartialEq + vstd::std_specs::cmp::PartialEqSpec> vstd::std_specs::cmp::PartialEqSpecImpl for Spanned<T> {
    open spec fn obeys_eq_spec() -> bool {
        T::obeys_eq_spec()
    }

    open spec fn eq_spec(&self, other: &Spanned<T>) -> bool {
        T::eq_spec(&self.value, &other.value)
    }
}

/// A whole document: its attributes, then its one expression.
pub struct Ron {
    pub attributes: Vec<Spanned<Attribute>>,
    pub expr: Spanned<Expr>,
}

pub enum Attribute {
    Enable(Spanned<Vec<Spanned<Extension>>>),
}

impl Attribute {
    /// An `Enable` attribute over the given extensions, with dummy spans.
    pub fn enables_test(extensions: Vec<Extension>) -> (r: Attribute)
        ensures
            (match r {
                Attribute::Enable(sp) => {
                    &&& sp.start == 0 && sp.end == 0
                    &&& sp.value@.len() == extensions@.len()
                    &&& forall|i: int|
                        0 <= i < extensions@.len() ==> (#[trigger] sp.value@[i]) == (Spanned {
                            start: 0usize,
                            value: extensions@[i],
                            end: 0usize,
                        })
                },
            }),
    {
        let n = extensions.len();
        let mut wrapped: Vec<Spanned<Extension>> = Vec::new();
        let mut i: usize = 0;
        while i < n
            invariant
                i <= n,
                n == extensions@.len(),
                wrapped@.len() == i,
                forall|j: int|
                    0 <= j < i ==> (#[trigger] wrapped@[j]) == (Spanned {
                        start: 0usize,
                        value: extensions@[j],
                        end: 0usize,
                    }),
            decreases n - i,
        {
            wrapped.push(Spanned { start: 0, value: extensions[i], end: 0 });
            i += 1;
        }
        Attribute::Enable(Spanned { start: 0, value: wrapped, end: 0 })
    }
}

/// The closed set of parser extensions an attribute can enable.
#[derive(Clone, Copy, Debug, PartialEq, Eq, Structural)]
pub enum Extension {
    UnwrapNewtypes,
    ImplicitSome,
}

/// An identifier, as an owned copy of the matched source text.
#[derive(Clone, Debug, PartialEq, Eq)]
pub struct Ident(pub String);

impl Ident {
    /// The fragment a parser matched, taken over as an identifier.
    pub fn from_input(input: crate::input::Input) -> (r: Ident)
        requires
            input.wf(),
        ensures
            r.0@ == input.fragment_seq(),
    {
        Ident(input.fragment_string())
    }
}

#[derive(Clone, Copy, Debug, PartialEq, Eq, Structural)]
pub enum Sign {
    Positive,
    Negative,
}

impl Sign {
    /// `+` and `-` name the two signs; everything else names none.
    pub fn from_char(sign: char) -> (r: Option<Sign>)
        ensures
            r == (if sign == '+' {
                Some(Sign::Positive)
            } else if sign == '-' {
                Some(Sign::Negative)
            } else {
                None::<Sign>
            }),
    {
        match sign {
            '+' => Some(Sign::Positive),
            '-' => Some(Sign::Negative),
            _ => None,
        }
    }
}

#[derive(Clone, Copy, Debug, PartialEq, Eq, Structural)]
pub struct UnsignedInteger {
    pub number: u64,
}

impl UnsignedInteger {
    pub fn new(number: u64) -> (r: UnsignedInteger)
        ensures
            r.number == number,
    {
        UnsignedInteger { number }
    }

    pub fn to_expr(self) -> (r: Expr)
        ensures
            r == Expr::Integer(Integer::Unsigned(self)),
    {
        Expr::Integer(Integer::Unsigned(self))
    }
}

/// A signed integer literal: the sign was present in the source.
#[derive(Clone, Copy, Debug, PartialEq, Eq, Structural)]
pub struct SignedInteger {
    pub sign: Sign,
    pub number: u64,
}

impl SignedInteger {
    pub fn new_test(sign: Sign, number: u64) -> (r: SignedInteger)
        ensures
            r == (SignedInteger { sign, number }),
    {
        SignedInteger { sign, number }
    }

    pub fn to_expr(self) -> (r: Expr)
        ensures
            r == Expr::Integer(Integer::Signed(self)),
    {
        Expr::Integer(Integer::Signed(self))
    }
}

#[derive(Clone, Copy, Debug, PartialEq, Eq, Structural)]
pub enum Integer {
    Signed(SignedInteger),
    Unsigned(UnsignedInteger),
}

impl Integer {
    pub fn new_test(sign: Option<Sign>, number: u64) -> (r: Integer)
        ensures
            r == (match sign {
                None => Integer::Unsigned(UnsignedInteger { number }),
                Some(s) => Integer::Signed(SignedInteger { sign: s, number }),
            }),
    {
        match sign {
            None => Integer::Unsigned(UnsignedInteger::new(number)),
            Some(sign) => Integer::Signed(SignedInteger { sign, number }),
        }
    }

    pub fn to_expr(self) -> (r: Expr)
        ensures
            r == Expr::Integer(self),
    {
        Expr::Integer(self)
    }
}

/// A decimal literal, kept in its textual parts: optional sign, optional
/// whole part, fractional digit run (as an integer, `0` when absent), and
/// optional exponent of an optional sign and a magnitude.
#[derive(Clone, Copy, Debug, PartialEq, Eq)]
pub struct Decimal {
    pub sign: Option<Sign>,
    pub whole: Option<u64>,
    pub fractional: u64,
    pub exponent: Option<(Option<Sign>, u16)>,
}

impl Decimal {
    pub fn new(
        sign: Option<Sign>,
        whole: Option<u64>,
        fractional: u64,
        exponent: Option<(Option<Sign>, u16)>,
    ) -> (r: Decimal)
        ensures
            r == (Decimal { sign, whole, fractional, exponent }),
    {
        Decimal { sign, whole, fractional, exponent }
    }

    pub fn to_expr(self) -> (r: Expr)
        ensures
            r == Expr::Decimal(self),
    {
        Expr::Decimal(self)
    }
}

/// One `key: value` pair; `K` is [`Ident`] in structs, [`Expr`] in maps.
pub struct KeyValue<K> {
    pub key: Spanned<K>,
    pub value: Spanned<Expr>,
}

impl<K> KeyValue<K> {
    pub fn new_test(key: K, value: Expr) -> (r: KeyValue<K>)
        ensures
            r.key == (Spanned { start: 0usize, value: key, end: 0usize }),
            r.value == (Spanned { start: 0usize, value, end: 0usize }),
    {
        KeyValue { key: Spanned::new_test(key), value: Spanned::new_test(value) }
    }
}

/// A spanned list of spanned key/value pairs.
pub type SpannedKvs<K> = Spanned<Vec<Spanned<KeyValue<K>>>>;

/// A named (`Name(...)`) or anonymous (`(...)`) struct.
pub struct Struct {
    pub ident: Option<Spanned<Ident>>,
    pub fields: SpannedKvs<Ident>,
}

impl Struct {
    pub fn new(ident: Option<Spanned<Ident>>, fields: SpannedKvs<Ident>) -> (r: Struct)
        ensures
            r == (Struct { ident, fields }),
    {
        Struct { ident, fields }
    }

    /// A struct with dummy spans, for building expected trees by hand.
    pub fn new_test(ident: Option<&str>, fields: Vec<(&str, Expr)>) -> (r: Struct)
        ensures
            (match (r.ident, ident) {
                (Some(sp), Some(t)) => sp.start == 0 && sp.end == 0 && sp.value.0@ == t@,
                (None, None) => true,
                _ => false,
            }),
            r.fields.start == 0 && r.fields.end == 0,
            r.fields.value@.len() == fields@.len(),
            forall|i: int|
                0 <= i < fields@.len() ==> {
                    let e = #[trigger] r.fields.value@[i];
                    &&& e.start == 0 && e.end == 0
                    &&& e.value.key.start == 0 && e.value.key.end == 0
                    &&& e.value.key.value.0@ == fields@[i].0@
                    &&& e.value.value == (Spanned { start: 0usize, value: fields@[i].1, end: 0usize })
                },
    {
        let ghost orig = fields@;
        let id_sp = match ident {
            Some(t) => Some(Spanned::new_test(Ident(t.to_owned()))),
            None => None,
        };
        let mut rest = fields;
        let mut out: Vec<Spanned<KeyValue<Ident>>> = Vec::new();
        while rest.len() > 0
            invariant
                out@.len() + rest@.len() == orig.len(),
                rest@ =~= orig.subrange(out@.len() as int, orig.len() as int),
                forall|i: int|
                    0 <= i < out@.len() ==> {
                        let e = #[trigger] out@[i];
                        &&& e.start == 0 && e.end == 0
                        &&& e.value.key.start == 0 && e.value.key.end == 0
                        &&& e.value.key.value.0@ == orig[i].0@
                        &&& e.value.value == (Spanned {
                            start: 0usize,
                            value: orig[i].1,
                            end: 0usize,
                        })
                    },
            decreases rest@.len(),
        {
            let (k, v) = rest.remove(0);
            out.push(
                Spanned::new_test(
                    KeyValue {
                        key: Spanned::new_test(Ident(k.to_owned())),
                        value: Spanned::new_test(v),
                    },
                ),
            );
        }
        Struct { ident: id_sp, fields: Spanned::new_test(out) }
    }
}

/// A `{ key: value, ... }` map expression.
pub struct RonMap {
    pub entries: SpannedKvs<Expr>,
}

impl RonMap {
    /// A map with dummy spans, for building expected trees by hand.
    pub fn new_test(kvs: Vec<(Expr, Expr)>) -> (r: RonMap)
        ensures
            r.entries.start == 0 && r.entries.end == 0,
            r.entries.value@.len() == kvs@.len(),
            forall|i: int|
                0 <= i < kvs@.len() ==> {
                    let e = #[trigger] r.entries.value@[i];
                    &&& e.start == 0 && e.end == 0
                    &&& e.value.key == (Spanned { start: 0usize, value: kvs@[i].0, end: 0usize })
                    &&& e.value.value == (Spanned { start: 0usize, value: kvs@[i].1, end: 0usize })
                },
    {
        let ghost orig = kvs@;
        let mut rest = kvs;
        let mut out: Vec<Spanned<KeyValue<Expr>>> = Vec::new();
        while rest.len() > 0
            invariant
                out@.len() + rest@.len() == orig.len(),
                rest@ =~= orig.subrange(out@.len() as int, orig.len() as int),
                forall|i: int|
                    0 <= i < out@.len() ==> {
                        let e = #[trigger] out@[i];
                        &&& e.start == 0 && e.end == 0
                        &&& e.value.key == (Spanned { start: 0usize, value: orig[i].0, end: 0usize })
                        &&& e.value.value == (Spanned {
                            start: 0usize,
                            value: orig[i].1,
                            end: 0usize,
                        })
                    },
            decreases rest@.len(),
        {
            let (k, v) = rest.remove(0);
            out.push(
                Spanned::new_test(
                    KeyValue { key: Spanned::new_test(k), value: Spanned::new_test(v) },
                ),
            );
        }
        RonMap { entries: Spanned::new_test(out) }
    }
}

/// Ordered elements shared by tuples and lists.
pub struct List {
    pub elements: Vec<Spanned<Expr>>,
}

impl List {
    /// A list with dummy spans, for building expected trees by hand.
    pub fn new_test(kvs: Vec<Expr>) -> (r: List)
        ensures
            r.elements@.len() == kvs@.len(),
            forall|i: int|
                0 <= i < kvs@.len() ==> (#[trigger] r.elements@[i]) == (Spanned {
                    start: 0usize,
                    value: kvs@[i],
                    end: 0usize,
                }),
    {
        let ghost orig = kvs@;
        let mut rest = kvs;
        let mut out: Vec<Spanned<Expr>> = Vec::new();
        while rest.len() > 0
            invariant
                out@.len() + rest@.len() == orig.len(),
                rest@ =~= orig.subrange(out@.len() as int, orig.len() as int),
                forall|i: int|
                    0 <= i < out@.len() ==> (#[trigger] out@[i]) == (Spanned {
                        start: 0usize,
                        value: orig[i],
                        end: 0usize,
                    }),
            decreases rest@.len(),
        {
            let v = rest.remove(0);
            out.push(Spanned::new_test(v));
        }
        List { elements: out }
    }
}

pub enum Expr {
    Unit,
    Bool(bool),
    Tuple(List),
    List(List),
    RonMap(RonMap),
    Struct(Struct),
    Integer(Integer),
    /// String without escapes, copied verbatim from the source.
    Str(String),
    /// String that contained escapes, in unescaped form.
    String(String),
    Decimal(Decimal),
}

impl Expr {
    /// Replaces the expression with `Unit` and hands the old value out.
    pub fn take(&mut self) -> (r: Expr)
        ensures
            r == *old(self),
            *final(self) == Expr::Unit,
    {
        let mut tmp = Expr::Unit;
        core::mem::swap(self, &mut tmp);
        tmp
    }
}

/// Well-formedness of a parsed expression within the source range
/// `[lo, hi]`: every span lies inside the span of its parent, starts do
/// not exceed ends, and the entries of structs, maps, tuples and lists
/// stand in source order (each one ends before the next begins).
pub open spec fn expr_wf(e: Expr, lo: int, hi: int) -> bool
    decreases e,
{
    match e {
        Expr::Unit => true,
        Expr::Bool(_) => true,
        Expr::Integer(_) => true,
        Expr::Str(_) => true,
        Expr::String(_) => true,
        Expr::Decimal(_) => true,
        Expr::Tuple(l) => elements_wf(l.elements@, lo, hi),
        Expr::List(l) => elements_wf(l.elements@, lo, hi),
        Expr::RonMap(m) => {
            &&& m.entries.span_in(lo, hi)
            &&& entries_expr_wf(m.entries.value@, m.entries.start as int, m.entries.end as int)
        },
        Expr::Struct(s) => struct_wf(s, lo, hi),
    }
}

pub open spec fn spanned_expr_wf(se: Spanned<Expr>, lo: int, hi: int) -> bool
    decreases se,
{
    &&& se.span_in(lo, hi)
    &&& expr_wf(se.value, se.start as int, se.end as int)
}

pub open spec fn elements_wf(es: Seq<Spanned<Expr>>, lo: int, hi: int) -> bool
    decreases es,
{
    &&& (forall|i: int| 0 <= i < es.len() ==> spanned_expr_wf(#[trigger] es[i], lo, hi))
    &&& (forall|i: int, j: int|
        #![trigger es[i].end, es[j].start]
        0 <= i < j < es.len() ==> es[i].end <= es[j].start)
}

pub open spec fn kv_ident_wf(kv: KeyValue<Ident>, lo: int, hi: int) -> bool
    decreases kv,
{
    &&& kv.key.span_in(lo, hi)
    &&& spanned_expr_wf(kv.value, lo, hi)
    &&& kv.key.end <= kv.value.start
}

pub open spec fn kv_expr_wf(kv: KeyValue<Expr>, lo: int, hi: int) -> bool
    decreases kv,
{
    &&& spanned_expr_wf(kv.key, lo, hi)
    &&& spanned_expr_wf(kv.value, lo, hi)
    &&& kv.key.end <= kv.value.start
}

pub open spec fn entries_ident_wf(es: Seq<Spanned<KeyValue<Ident>>>, lo: int, hi: int) -> bool
    decreases es,
{
    &&& (forall|i: int|
        0 <= i < es.len() ==> (#[trigger] es[i]).span_in(lo, hi) && kv_ident_wf(
            es[i].value,
            es[i].start as int,
            es[i].end as int,
        ))
    &&& (forall|i: int, j: int|
        #![trigger es[i].end, es[j].start]
        0 <= i < j < es.len() ==> es[i].end <= es[j].start)
}

pub open spec fn entries_expr_wf(es: Seq<Spanned<KeyValue<Expr>>>, lo: int, hi: int) -> bool
    decreases es,
{
    &&& (forall|i: int|
        0 <= i < es.len() ==> (#[trigger] es[i]).span_in(lo, hi) && kv_expr_wf(
            es[i].value,
            es[i].start as int,
            es[i].end as int,
        ))
    &&& (forall|i: int, j: int|
        #![trigger es[i].end, es[j].start]
        0 <= i < j < es.len() ==> es[i].end <= es[j].start)
}

pub open spec fn struct_wf(s: Struct, lo: int, hi: int) -> bool
    decreases s,
{
    &&& (match s.ident {
        Some(id) => id.span_in(lo, hi) && id.end <= s.fields.start,
        None => true,
    })
    &&& s.fields.span_in(lo, hi)
    &&& entries_ident_wf(s.fields.value@, s.fields.start as int, s.fields.end as int)
}

/// Well-formedness of an attribute parsed within `[lo, hi]`.
pub open spec fn attribute_wf(a: Attribute, lo: int, hi: int) -> bool {
    match a {
        Attribute::Enable(sp) => {
            &&& sp.span_in(lo, hi)
            &&& (forall|i: int|
                0 <= i < sp.value@.len() ==> (#[trigger] sp.value@[i]).span_in(
                    sp.start as int,
                    sp.end as int,
                ))
            &&& (forall|i: int, j: int|
                #![trigger sp.value@[i].end, sp.value@[j].start]
                0 <= i < j < sp.value@.len() ==> sp.value@[i].end <= sp.value@[j].start)
        },
    }
}

/// Well-formedness of a whole document over a source of `n` characters:
/// all spans lie within `[0, n]`, nested ones within their parents', and
/// attributes stand in source order before the expression.
pub open spec fn ron_wf(r: Ron, n: int) -> bool {
    &&& (forall|i: int|
        0 <= i < r.attributes@.len() ==> (#[trigger] r.attributes@[i]).span_in(0, n)
            && attribute_wf(r.attributes@[i].value, r.attributes@[i].start as int, r.attributes@[i].end as int))
    &&& (forall|i: int, j: int|
        #![trigger r.attributes@[i].end, r.attributes@[j].start]
        0 <= i < j < r.attributes@.len() ==> r.attributes@[i].end <= r.attributes@[j].start)
    &&& (forall|i: int|
        0 <= i < r.attributes@.len() ==> (#[trigger] r.attributes@[i]).end <= r.expr.start)
    &&& spanned_expr_wf(r.expr, 0, n)
}

pub proof fn lemma_elements_wf_widen(es: Seq<Spanned<Expr>>, lo: int, hi: int, hi2: int)
    requires
        elements_wf(es, lo, hi),
        hi <= hi2,
    ensures
        elements_wf(es, lo, hi2),
{
    assert forall|i: int| 0 <= i < es.len() implies spanned_expr_wf(#[trigger] es[i], lo, hi2) by {
        assert(spanned_expr_wf(es[i], lo, hi));
    }
}

pub proof fn lemma_entries_ident_wf_widen(
    es: Seq<Spanned<KeyValue<Ident>>>,
    lo: int,
    hi: int,
    hi2: int,
)
    requires
        entries_ident_wf(es, lo, hi),
        hi <= hi2,
    ensures
        entries_ident_wf(es, lo, hi2),
{
    assert forall|i: int| 0 <= i < es.len() implies (#[trigger] es[i]).span_in(lo, hi2)
        && kv_ident_wf(es[i].value, es[i].start as int, es[i].end as int) by {
        assert(es[i].span_in(lo, hi) && kv_ident_wf(es[i].value, es[i].start as int, es[i].end as int));
    }
}

pub proof fn lemma_entries_expr_wf_widen(
    es: Seq<Spanned<KeyValue<Expr>>>,
    lo: int,
    hi: int,
    hi2: int,
)
    requires
        entries_expr_wf(es, lo, hi),
        hi <= hi2,
    ensures
        entries_expr_wf(es, lo, hi2),
{
    assert forall|i: int| 0 <= i < es.len() implies (#[trigger] es[i]).span_in(lo, hi2)
        && kv_expr_wf(es[i].value, es[i].start as int, es[i].end as int) by {
        assert(es[i].span_in(lo, hi) && kv_expr_wf(es[i].value, es[i].start as int, es[i].end as int));
    }
}

} // verus!
