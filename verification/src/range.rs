//! Parameter range.
use vstd::prelude::*;
use crate::fbits::{is_finite, sign_of, flt, fle, bits_is_finite, bits_lt, bits_le, lemma_decompose};
use crate::fnum::{huge_sum, bits_huge_sum};

verus! {

/// Whether the difference `end - start` of the two encoded doubles is a
/// finite double.  Both operands must be finite; a difference of same-signed
/// finite values never exceeds the larger magnitude, while opposite signs add
/// the magnitudes, which rounds to infinity exactly when the sum reaches
/// `2^1024 - 2^970`, the midpoint between the largest finite double and
/// 2^1024 (the tie rounds to the even 2^1024).
pub open spec fn span_finite(start: u64, end: u64) -> bool {
    is_finite(start) && is_finite(end) && (sign_of(start) == sign_of(end) || !huge_sum(start, end))
}

/// Half-open range over doubles given by their bit patterns: `start`
/// inclusive, `end` exclusive.
#[derive(Debug, Clone, Copy, PartialEq, Eq, Structural)]
pub struct Range {
    /// Bit pattern of the start point (inclusive).
    pub start: u64,
    /// Bit pattern of the end point (exclusive).
    pub end: u64,
}

/// Possible errors during `Range` construction.
#[derive(Debug, Clone, Copy, PartialEq, Eq, Structural)]
pub enum RangeError {
    /// Not a finite range.
    NonFiniteRange,
    /// An empty range.
    EmptyRange,
}

impl Range {
    /// A well-formed range: the start lies strictly below the end and the
    /// span between them is finite.
    pub open spec fn inv(self) -> bool {
        flt(self.start, self.end) && span_finite(self.start, self.end)
    }

    /// Whether the encoded point `v` lies in the range: `start <= v < end`
    /// under IEEE comparison (false for NaN).
    pub open spec fn has(self, v: u64) -> bool {
        fle(self.start, v) && flt(v, self.end)
    }

    /// Makes a new `Range` instance: rejects a non-finite span, then an
    /// empty or inverted interval (a NaN endpoint is never below another).
    pub fn new(start: u64, end: u64) -> (r: Result<Self, RangeError>)
        ensures
            !span_finite(start, end) ==> r == Err::<Self, RangeError>(RangeError::NonFiniteRange),
            span_finite(start, end) && !flt(start, end) ==> r == Err::<Self, RangeError>(
                RangeError::EmptyRange,
            ),
            span_finite(start, end) && flt(start, end) ==> r == Ok::<Self, RangeError>(
                Range { start, end },
            ),
            r is Ok ==> r->Ok_0.inv(),
    {
        proof {
            lemma_decompose(start);
            lemma_decompose(end);
        }
        if !bits_is_finite(start) || !bits_is_finite(end) {
            return Err(RangeError::NonFiniteRange);
        }
        if (start >> 63) != (end >> 63) && bits_huge_sum(start, end) {
            return Err(RangeError::NonFiniteRange);
        }
        if !bits_lt(start, end) {
            return Err(RangeError::EmptyRange);
        }
        Ok(Range { start, end })
    }

    /// Returns the start point of the range.
    pub fn start(self) -> (r: u64)
        ensures
            r == self.start,
    {
        self.start
    }

    /// Returns the end point of the range.
    pub fn end(self) -> (r: u64)
        ensures
            r == self.end,
    {
        self.end
    }

    /// Return `true` if the given point is contained in the range, otherwise
    /// `false`.
    pub fn contains(self, v: u64) -> (r: bool)
        ensures
            r == self.has(v),
    {
        bits_le(self.start, v) && bits_lt(v, self.end)
    }
}

} // verus!
