//! Pieces: runs of one of the two buffers, selected by a half-open range.
use std::ops::Range;
use vstd::prelude::*;

verus! {

/// The buffer that a piece reads from.
#[derive(Debug, Clone, Copy, PartialEq, Eq, Hash)]
pub enum Source {
    Original,
    Add,
}

/// A contiguous run of visible text: the characters `range.start .. range.end`
/// of the buffer named by `source`.
#[derive(Debug, PartialEq, Eq)]
pub struct Piece {
    pub range: Range<usize>,
    pub source: Source,
}

impl Piece {
    /// Start and end of the range, as integers.
    pub open spec fn lo(&self) -> int {
        self.range.start as int
    }

    pub open spec fn hi(&self) -> int {
        self.range.end as int
    }

    /// The number of characters the piece covers (zero for an inverted range).
    pub open spec fn spec_len(&self) -> nat {
        if self.lo() <= self.hi() {
            (self.hi() - self.lo()) as nat
        } else {
            0
        }
    }

    pub fn new(range: Range<usize>, source: Source) -> (p: Piece)
        ensures
            p.range == range,
            p.source == source,
    {
        Piece { range, source }
    }

    /// Cuts the piece at buffer index `idx` into `[start, idx)` and
    /// `[idx, end)`, both from the same buffer.
    pub fn split_at(self, idx: usize) -> (r: (Piece, Piece))
        requires
            self.lo() <= idx <= self.hi(),
        ensures
            r.0.source == self.source,
            r.1.source == self.source,
            r.0.lo() == self.lo(),
            r.0.hi() == idx,
            r.1.lo() == idx,
            r.1.hi() == self.hi(),
    {
        let first_piece = Piece::new(self.range.start..idx, self.source);
        let second_piece = Piece::new(idx..self.range.end, self.source);
        (first_piece, second_piece)
    }

    pub fn len(&self) -> (n: usize)
        ensures
            n == self.spec_len(),
    {
        if self.range.start <= self.range.end {
            self.range.end - self.range.start
        } else {
            0
        }
    }
}

} // verus!
