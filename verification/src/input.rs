//! A cheaply copyable view over an immutable character buffer.
//!
//! An [`Input`] designates the range `[pos, end)` of a source buffer; the
//! parsers only ever move `pos` forward. Slicing returns new views into
//! the same buffer, so every position in a parse names an offset into
//! the one source text.
//!
//! Positions count characters, not bytes: on text outside ASCII they
//! differ from byte offsets into the original `&str`, so a caller
//! slicing that string by these positions must index by characters.

use vstd::prelude::*;

use crate::error::InputParseErr;
use crate::util::string_of_range;

verus! {

/// What every parser returns: the rest of the input and the parsed value,
/// or an error with its severity.
pub type IResultLookahead<'a, O> = Result<(Input<'a>, O), InputParseErr>;

#[derive(Clone, Copy)]
pub struct Input<'a> {
    pub src: &'a [char],
    pub pos: usize,
    pub end: usize,
}

impl<'a> Input<'a> {
    /// The designated range lies within the buffer.
    pub open spec fn wf(self) -> bool {
        self.pos <= self.end <= self.src@.len()
    }

    /// The fragment this view designates, as a sequence of characters.
    pub open spec fn fragment_seq(self) -> Seq<char> {
        self.src@.subrange(self.pos as int, self.end as int)
    }

    /// The same view moved forward to position `p`.
    pub open spec fn at(self, p: int) -> Input<'a> {
        Input { src: self.src, pos: p as usize, end: self.end }
    }

    /// The fragment of this view that stops at position `p`.
    pub open spec fn upto(self, p: int) -> Input<'a> {
        Input { src: self.src, pos: self.pos, end: p as usize }
    }

    /// A view over the whole of `src`.
    pub fn new(src: &'a [char]) -> (r: Input<'a>)
        ensures
            r.src@ == src@,
            r.pos == 0,
            r.end == src@.len(),
            r.wf(),
    {
        Input { src, pos: 0, end: src.len() }
    }

    /// How many characters are left.
    pub fn len(self) -> (n: usize)
        requires
            self.wf(),
        ensures
            n == self.end - self.pos,
    {
        self.end - self.pos
    }

    pub fn is_empty(self) -> (b: bool)
        requires
            self.wf(),
        ensures
            b == (self.pos == self.end),
    {
        self.pos == self.end
    }

    /// The character `i` places into the fragment.
    pub fn char_at(self, i: usize) -> (c: char)
        requires
            self.wf(),
            self.pos + i < self.end,
        ensures
            c == self.src@[self.pos + i],
    {
        self.src[self.pos + i]
    }

    /// Splits the fragment after its first `n` characters: the remainder
    /// first, then the consumed front, both views into the same buffer.
    pub fn take_split(self, n: usize) -> (r: (Input<'a>, Input<'a>))
        requires
            self.wf(),
            n <= self.end - self.pos,
        ensures
            r.0 == (Input { src: self.src, pos: (self.pos + n) as usize, end: self.end }),
            r.1 == (Input { src: self.src, pos: self.pos, end: (self.pos + n) as usize }),
            r.0.wf(),
            r.1.wf(),
    {
        (
            Input { src: self.src, pos: self.pos + n, end: self.end },
            Input { src: self.src, pos: self.pos, end: self.pos + n },
        )
    }

    /// A view with the same end whose start lies `n` characters further in.
    pub fn advance(self, n: usize) -> (r: Input<'a>)
        requires
            self.wf(),
            n <= self.end - self.pos,
        ensures
            r == (Input { src: self.src, pos: (self.pos + n) as usize, end: self.end }),
            r.wf(),
    {
        Input { src: self.src, pos: self.pos + n, end: self.end }
    }

    /// The designated fragment as an owned string.
    pub fn fragment_string(self) -> (r: String)
        requires
            self.wf(),
        ensures
            r@ == self.fragment_seq(),
    {
        string_of_range(self.src, self.pos, self.end)
    }
}

/// The 1-based line a position lies on: one more than the number of
/// line feeds before it.
pub open spec fn spec_line(s: Seq<char>, pos: int) -> int
    decreases pos,
        when 0 <= pos
{
    if pos <= 0 {
        1
    } else if s[pos - 1] == '\n' {
        spec_line(s, pos - 1) + 1
    } else {
        spec_line(s, pos - 1)
    }
}

/// The 1-based column of a position: characters since the last line feed.
pub open spec fn spec_column(s: Seq<char>, pos: int) -> int
    decreases pos,
        when 0 <= pos
{
    if pos <= 0 {
        1
    } else if s[pos - 1] == '\n' {
        1
    } else {
        spec_column(s, pos - 1) + 1
    }
}

impl<'a> Input<'a> {
    /// The line and column of this view's position.
    pub fn location(self) -> (r: (usize, usize))
        requires
            self.wf(),
            self.src@.len() < usize::MAX,
        ensures
            r.0 == spec_line(self.src@, self.pos as int),
            r.1 == spec_column(self.src@, self.pos as int),
    {
        let mut line: usize = 1;
        let mut col: usize = 1;
        let mut i: usize = 0;
        while i < self.pos
            invariant
                self.wf(),
                self.src@.len() < usize::MAX,
                i <= self.pos,
                line == spec_line(self.src@, i as int),
                col == spec_column(self.src@, i as int),
                line <= i + 1,
                col <= i + 1,
            decreases self.pos - i,
        {
            if self.src[i] == '\n' {
                line = line + 1;
                col = 1;
            } else {
                col = col + 1;
            }
            i += 1;
        }
        (line, col)
    }
}

/// `i1` continues the same parse as `i0`: same buffer, same end, and the
/// position has not moved backwards.
pub open spec fn advances(i0: Input, i1: Input) -> bool {
    &&& i1.src@ == i0.src@
    &&& i1.end == i0.end
    &&& i0.pos <= i1.pos
    &&& i1.wf()
}

} // verus!
