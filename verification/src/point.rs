//! The sample type: one immutable (value, timestamp) pair.

use vstd::prelude::*;

verus! {

/// Largest magnitude, in epoch milliseconds, that a sample timestamp may
/// have. The bound covers every instant that calendar libraries can
/// represent (roughly ±262,000 years around the epoch) and keeps sums of
/// arbitrarily many timestamps well inside 128-bit arithmetic.
pub const MAX_TIMESTAMP_MILLIS: i64 = 9_000_000_000_000_000;

/// One sample of the series: a fixed-point `value` in caller-chosen units
/// and a `timestamp` in epoch milliseconds. Immutable once created.
#[derive(Debug, Clone, Copy, PartialEq, Eq, Structural)]
pub struct Point {
    pub value: i64,
    pub timestamp: i64,
}

impl Point {
    /// The timestamp lies in the representable instant range.
    pub open spec fn timestamp_in_range(self) -> bool {
        -MAX_TIMESTAMP_MILLIS <= self.timestamp <= MAX_TIMESTAMP_MILLIS
    }

    pub fn new(value: i64, timestamp: i64) -> (p: Point)
        ensures
            p == (Point { value, timestamp }),
    {
        Point { value, timestamp }
    }
}

/// Copy the samples `src[from..to]` into a fresh vector.
pub(crate) fn copy_points(src: &Vec<Point>, from: usize, to: usize) -> (out: Vec<Point>)
    requires
        from <= to <= src.len(),
    ensures
        out@ == src@.subrange(from as int, to as int),
{
    let mut out: Vec<Point> = Vec::new();
    let mut i: usize = from;
    while i < to
        invariant
            from <= i <= to <= src.len(),
            out@ == src@.subrange(from as int, i as int),
        decreases to - i,
    {
        out.push(src[i]);
        i = i + 1;
        proof {
            assert(out@ =~= src@.subrange(from as int, i as int));
        }
    }
    out
}

} // verus!
