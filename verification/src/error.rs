//! The error model: a tree of base errors with positions, context stacks
//! and exhausted alternatives, wrapped in a severity.
//!
//! A *recoverable* failure lets an enclosing choice try its other branch;
//! a *fatal* one aborts the whole parse.

use vstd::prelude::*;

verus! {

/// A terminal expectation the grammar can fail on.
pub enum Expectation {
    Char(char),
    Tag(String),
    OneOfChars(String),
    OneOfTags(Vec<String>),
    Alpha,
    Digit,
    HexDigit,
    Multispace,
    BlockCommentEnd,
    UnicodeHexSequence { got: u32 },
    Something,
    Eof,
    OneOfExpectations(Vec<Expectation>),
}

pub enum BaseErrorKind {
    Expected(Expectation),
    /// A failure outside the grammar itself, such as numeric overflow.
    External(String),
}

pub enum ErrorTree {
    Base { location: usize, kind: BaseErrorKind },
    Stack { base: Box<ErrorTree>, contexts: Vec<(usize, String)> },
    Alt(Vec<ErrorTree>),
}

pub enum InputParseErr {
    Recoverable(ErrorTree),
    Fatal(ErrorTree),
}

/// Every base location and context location of the tree lies in `[0, n]`.
pub open spec fn tree_locs_in(t: ErrorTree, n: int) -> bool
    decreases t,
{
    match t {
        ErrorTree::Base { location, kind } => location <= n,
        ErrorTree::Stack { base, contexts } => tree_locs_in(*base, n) && (forall|i: int|
            0 <= i < contexts@.len() ==> (#[trigger] contexts@[i]).0 <= n),
        ErrorTree::Alt(ts) => forall|i: int|
            0 <= i < ts@.len() ==> tree_locs_in(#[trigger] ts@[i], n),
    }
}

impl ErrorTree {
    pub fn expected(location: usize, e: Expectation) -> (r: ErrorTree)
        ensures
            r == (ErrorTree::Base { location, kind: BaseErrorKind::Expected(e) }),
    {
        ErrorTree::Base { location, kind: BaseErrorKind::Expected(e) }
    }
}

impl InputParseErr {
    pub open spec fn is_fatal(self) -> bool {
        self matches InputParseErr::Fatal(_)
    }

    pub open spec fn tree(self) -> ErrorTree {
        match self {
            InputParseErr::Recoverable(t) => t,
            InputParseErr::Fatal(t) => t,
        }
    }

    /// Every location of the error lies in `[0, n]`.
    pub open spec fn locs_in(self, n: int) -> bool {
        tree_locs_in(self.tree(), n)
    }

    pub fn fatal(t: ErrorTree) -> (r: InputParseErr)
        ensures
            r == InputParseErr::Fatal(t),
    {
        InputParseErr::Fatal(t)
    }

    pub fn recoverable(t: ErrorTree) -> (r: InputParseErr)
        ensures
            r == InputParseErr::Recoverable(t),
    {
        InputParseErr::Recoverable(t)
    }

    /// Keeps the tree and severity; used where a choice keeps one branch.
    pub fn into_tree(self) -> (r: ErrorTree)
        ensures
            r == self.tree(),
    {
        match self {
            InputParseErr::Recoverable(t) => t,
            InputParseErr::Fatal(t) => t,
        }
    }
}

/// `expected_err(e, fatal, loc, ex)` says that `e` is a single base error
/// of the given severity, at `loc`, expecting `ex`.
pub open spec fn expected_err(e: InputParseErr, fatal: bool, loc: int, ex: Expectation) -> bool {
    &&& e.is_fatal() == fatal
    &&& e.tree() == (ErrorTree::Base { location: loc as usize, kind: BaseErrorKind::Expected(ex) })
}

/// A single base error of the given severity at `loc` whose expectation
/// is a `Tag` reading `t`.
pub open spec fn tag_err(e: InputParseErr, fatal: bool, loc: int, t: Seq<char>) -> bool {
    &&& e.is_fatal() == fatal
    &&& match e.tree() {
        ErrorTree::Base { location, kind } => location == loc && match kind {
            BaseErrorKind::Expected(ex) => match ex {
                Expectation::Tag(ts) => ts@ == t,
                _ => false,
            },
            _ => false,
        },
        _ => false,
    }
}

/// A fatal base error at `loc` whose expectation is `OneOfChars` over the
/// character set `cs`.
pub open spec fn one_of_chars_err(e: InputParseErr, loc: int, cs: Seq<char>) -> bool {
    &&& e.is_fatal()
    &&& match e.tree() {
        ErrorTree::Base { location, kind } => location == loc && match kind {
            BaseErrorKind::Expected(ex) => match ex {
                Expectation::OneOfChars(s) => s@ == cs,
                _ => false,
            },
            _ => false,
        },
        _ => false,
    }
}

/// A fatal base error at `loc` whose expectation is `OneOfTags` over the
/// given literals.
pub open spec fn one_of_tags_err(e: InputParseErr, loc: int, tags: Seq<Seq<char>>) -> bool {
    &&& e.is_fatal()
    &&& match e.tree() {
        ErrorTree::Base { location, kind } => location == loc && match kind {
            BaseErrorKind::Expected(ex) => match ex {
                Expectation::OneOfTags(ts) => ts@.len() == tags.len() && (forall|k: int|
                    0 <= k < tags.len() ==> (#[trigger] ts@[k])@ == tags[k]),
                _ => false,
            },
            _ => false,
        },
        _ => false,
    }
}

/// A base error of the given severity at `loc` whose kind is `External`.
pub open spec fn external_err(e: InputParseErr, fatal: bool, loc: int) -> bool {
    &&& e.is_fatal() == fatal
    &&& match e.tree() {
        ErrorTree::Base { location, kind } => location == loc && (kind matches BaseErrorKind::External(_)),
        _ => false,
    }
}

/// The most recently added context frame of the tree is `(loc, label)`.
pub open spec fn tree_in_context(t: ErrorTree, loc: int, label: Seq<char>) -> bool {
    match t {
        ErrorTree::Stack { base, contexts } => {
            &&& contexts@.len() >= 1
            &&& contexts@.last().0 as int == loc
            &&& contexts@.last().1@ == label
        },
        _ => false,
    }
}

/// The most recently added context frame of the error is `(loc, label)`.
pub open spec fn in_context(e: InputParseErr, loc: int, label: Seq<char>) -> bool {
    tree_in_context(e.tree(), loc, label)
}

/// The tree is a single `External` base error at `base_loc` wrapped in
/// the context frame `(ctx_loc, label)`.
pub open spec fn tree_stacked_external(t: ErrorTree, base_loc: int, ctx_loc: int, label: Seq<char>) -> bool {
    &&& tree_in_context(t, ctx_loc, label)
    &&& match t {
        ErrorTree::Stack { base, contexts } => match *base {
            ErrorTree::Base { location, kind } => location as int == base_loc && (
            kind matches BaseErrorKind::External(_)),
            _ => false,
        },
        _ => false,
    }
}

/// A single base error of the given severity, expecting `ex` at
/// `base_loc`, wrapped in the context frame `(ctx_loc, label)`.
pub open spec fn stacked_expected(
    e: InputParseErr,
    fatal: bool,
    base_loc: int,
    ex: Expectation,
    ctx_loc: int,
    label: Seq<char>,
) -> bool {
    &&& e.is_fatal() == fatal
    &&& in_context(e, ctx_loc, label)
    &&& match e.tree() {
        ErrorTree::Stack { base, contexts } => *base == (ErrorTree::Base {
            location: base_loc as usize,
            kind: BaseErrorKind::Expected(ex),
        }),
        _ => false,
    }
}

/// A fatal base error whose kind is `External`, at `base_loc`, wrapped
/// in the context frame `(ctx_loc, label)`.
pub open spec fn stacked_external(e: InputParseErr, base_loc: int, ctx_loc: int, label: Seq<char>) -> bool {
    &&& e.is_fatal()
    &&& tree_stacked_external(e.tree(), base_loc, ctx_loc, label)
}

/// A recoverable base error at `loc` expecting an identifier's first
/// character: `OneOfExpectations` of exactly `Alpha` and `Char('_')`.
pub open spec fn ident_start_err(e: InputParseErr, loc: int) -> bool {
    &&& !e.is_fatal()
    &&& match e.tree() {
        ErrorTree::Base { location, kind } => location as int == loc && match kind {
            BaseErrorKind::Expected(ex) => match ex {
                Expectation::OneOfExpectations(v) => v@.len() == 2 && (v@[0]
                    matches Expectation::Alpha) && v@[1] == Expectation::Char('_'),
                _ => false,
            },
            _ => false,
        },
        _ => false,
    }
}

/// A recoverable base error at `loc` with the given expectation.
pub fn rec_expected(loc: usize, ex: Expectation) -> (r: InputParseErr)
    ensures
        expected_err(r, false, loc as int, ex),
        r.locs_in(loc as int),
        forall|n: int| loc <= n ==> #[trigger] r.locs_in(n),
{
    InputParseErr::Recoverable(ErrorTree::Base { location: loc, kind: BaseErrorKind::Expected(ex) })
}

/// A fatal base error at `loc` with the given expectation.
pub fn fatal_expected(loc: usize, ex: Expectation) -> (r: InputParseErr)
    ensures
        expected_err(r, true, loc as int, ex),
        r.locs_in(loc as int),
        forall|n: int| loc <= n ==> #[trigger] r.locs_in(n),
{
    InputParseErr::Fatal(ErrorTree::Base { location: loc, kind: BaseErrorKind::Expected(ex) })
}

/// Appends the context frame `(location, label)` to the error, wrapping
/// its tree in a `Stack` if it is not one already; severity is kept.
pub fn with_context(e: InputParseErr, location: usize, label: &str) -> (r: InputParseErr)
    ensures
        r.is_fatal() == e.is_fatal(),
        forall|n: int|
            #[trigger] e.locs_in(n) && location <= n ==> r.locs_in(n),
        (match r.tree() {
            ErrorTree::Stack { base, contexts } => {
                &&& contexts@.len() >= 1
                &&& (contexts@.last().0, contexts@.last().1@) == (location, label@)
                &&& (match e.tree() {
                    ErrorTree::Stack { base: b0, contexts: c0 } => base == b0 && contexts@.drop_last()
                        =~= c0@,
                    t0 => *base == t0 && contexts@.len() == 1,
                })
            },
            _ => false,
        }),
{
    let fatal = match &e {
        InputParseErr::Fatal(_) => true,
        InputParseErr::Recoverable(_) => false,
    };
    let t = e.into_tree();
    let label_owned: String = label.to_owned();
    let stacked = match t {
        ErrorTree::Stack { base, mut contexts } => {
            contexts.push((location, label_owned));
            ErrorTree::Stack { base, contexts }
        },
        other => {
            let mut contexts: Vec<(usize, String)> = Vec::new();
            contexts.push((location, label_owned));
            ErrorTree::Stack { base: Box::new(other), contexts }
        },
    };
    if fatal {
        InputParseErr::Fatal(stacked)
    } else {
        InputParseErr::Recoverable(stacked)
    }
}

/// The error of an exhausted choice: an `Alt` of the two branches' trees,
/// recoverable (a choice only exhausts when both branches were).
pub fn alt_err(e1: InputParseErr, e2: InputParseErr) -> (r: InputParseErr)
    ensures
        !r.is_fatal(),
        (match r.tree() {
            ErrorTree::Alt(ts) => ts@.len() == 2 && ts@[0] == e1.tree() && ts@[1] == e2.tree(),
            _ => false,
        }),
        forall|n: int| #[trigger] e1.locs_in(n) && e2.locs_in(n) ==> r.locs_in(n),
{
    let mut ts: Vec<ErrorTree> = Vec::new();
    ts.push(e1.into_tree());
    ts.push(e2.into_tree());
    InputParseErr::Recoverable(ErrorTree::Alt(ts))
}

} // verus!
