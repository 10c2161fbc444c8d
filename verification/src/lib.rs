//! An in-memory, single-series time-series store.
//!
//! A chart holds a time-ordered sequence of samples and answers
//! "what is the value at timestamp T?" by linear interpolation between
//! the two samples that bracket T. Lookups go through a balanced binary
//! index built over the sample sequence by recursive time-bisection; a
//! projection layer offers windowed, transformed read-only views of the
//! same data.
//!
//! Timestamps are epoch milliseconds; values are fixed-point integers in
//! units chosen by the caller (callers that measure in binary64 readings
//! typically store thousandths).

pub mod arith;
pub mod chart;
pub mod chart_index;
pub mod laws;
pub mod point;
pub mod point_index;
pub mod projection;

pub use chart::Chart;
pub use point::Point;
pub use point_index::PointIndex;
