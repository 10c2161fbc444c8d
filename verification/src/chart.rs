//! The chart: the sorted sample sequence, the index arena over it, and
//! the mathematical model both are verified against.

use vstd::prelude::*;
use crate::point::Point;
use crate::point_index::PointIndex;

verus! {

/// All timestamps of `s` are in ascending order (duplicates allowed).
pub open spec fn points_sorted(s: Seq<Point>) -> bool {
    forall|i: int, j: int|
        0 <= i <= j < s.len() ==> s[i].timestamp <= s[j].timestamp
}

/// All timestamps of `s` lie in the representable instant range.
pub open spec fn points_in_range(s: Seq<Point>) -> bool {
    forall|i: int| 0 <= i < s.len() ==> (#[trigger] s[i]).timestamp_in_range()
}

/// A single-series, build-once/query-many time-series store.
///
/// `points` is the sorted input; `index` is an append-only arena of
/// nodes forming a binary tree over it; `max_index_node_capacity` bounds
/// how many samples a leaf may hold. `spans` is the ghost model of the
/// tree: for each arena position it records the half-open range
/// `(lo, hi)` of `points` that the node's subtree covers.
pub struct Chart {
    pub points: Vec<Point>,
    pub index: Vec<PointIndex>,
    pub max_index_node_capacity: usize,
    pub spans: Ghost<Map<int, (int, int)>>,
}

impl Chart {
    /// Number of samples.
    pub open spec fn n(self) -> int {
        self.points@.len() as int
    }

    /// Number of arena nodes.
    pub open spec fn num_nodes(self) -> int {
        self.index@.len() as int
    }

    /// `h` is an arena position.
    pub open spec fn valid_node(self, h: int) -> bool {
        0 <= h < self.num_nodes()
    }

    /// The node at arena position `h`.
    pub open spec fn node(self, h: int) -> PointIndex {
        self.index@[h]
    }

    /// Start of the sample range the subtree at `h` covers.
    pub open spec fn span_lo(self, h: int) -> int {
        self.spans@[h].0
    }

    /// One past the end of the sample range the subtree at `h` covers.
    pub open spec fn span_hi(self, h: int) -> int {
        self.spans@[h].1
    }

    /// `h` is an arena position holding a leaf.
    pub open spec fn is_leaf_node(self, h: int) -> bool {
        self.valid_node(h) && self.node(h).is_leaf()
    }

    /// A leaf's samples are exactly the slice of `points` its span
    /// names; only the root may be empty (and only when there are no
    /// samples at all).
    pub open spec fn leaf_node_ok(self, h: int) -> bool {
        let nd = self.node(h);
        let lo = self.span_lo(h);
        let hi = self.span_hi(h);
        &&& nd.data is Some
        &&& nd.leaf_data() == self.points@.subrange(lo, hi)
        &&& (lo < hi || (lo == 0 && hi == 0 && h == 0))
    }

    /// An internal node's children tile its span at the recorded split
    /// position, point back to it, sit later in the arena, and respect
    /// the split timestamp: everything left of the split is at or below
    /// it, everything right of the split is at or above it.
    pub open spec fn internal_node_ok(self, h: int) -> bool {
        let nd = self.node(h);
        let lo = self.span_lo(h);
        let hi = self.span_hi(h);
        let less = nd.less as int;
        let more = nd.more as int;
        let mid = self.span_hi(less);
        &&& nd.data is None
        &&& h < less < self.num_nodes()
        &&& h < more < self.num_nodes()
        &&& self.node(less).parent == h
        &&& self.node(more).parent == h
        &&& self.span_lo(less) == lo
        &&& self.span_lo(more) == mid
        &&& self.span_hi(more) == hi
        &&& lo < mid < hi
        &&& (forall|i: int|
            lo <= i < mid ==> (#[trigger] self.points@[i]).timestamp <= nd.split_timestamp())
        &&& (forall|i: int|
            mid <= i < hi ==> (#[trigger] self.points@[i]).timestamp >= nd.split_timestamp())
    }

    /// Everything the model requires of the node at `h`, except the leaf
    /// capacity bound (which `rebalance_index_node` restores leaf by
    /// leaf).
    pub open spec fn node_ok(self, h: int) -> bool {
        let nd = self.node(h);
        let p = nd.parent as int;
        &&& self.spans@.dom().contains(h)
        &&& 0 <= self.span_lo(h) <= self.span_hi(h) <= self.n()
        &&& (if nd.is_leaf() {
            self.leaf_node_ok(h)
        } else {
            self.internal_node_ok(h)
        })
        &&& (h == 0 ==> nd.parent == 0)
        &&& (h != 0 ==> {
            &&& 0 <= p < h
            &&& !self.node(p).is_leaf()
            &&& (self.node(p).less == h || self.node(p).more == h)
        })
    }

    /// Distinct leaves cover disjoint sample ranges.
    pub open spec fn leaves_disjoint(self) -> bool {
        forall|h1: int, h2: int|
            #![trigger self.is_leaf_node(h1), self.is_leaf_node(h2)]
            self.is_leaf_node(h1) && self.is_leaf_node(h2) && h1 != h2
                ==> self.span_hi(h1) <= self.span_lo(h2) || self.span_hi(h2) <= self.span_lo(h1)
    }

    /// The leaf at `h` holds at most `max_index_node_capacity` samples.
    pub open spec fn leaf_within_capacity(self, h: int) -> bool {
        self.span_hi(h) - self.span_lo(h) <= self.max_index_node_capacity
    }

    /// The whole structural model: sorted, in-range input; a positive
    /// capacity; every node well formed; leaves pairwise disjoint; and,
    /// once any node exists, a root at position 0 covering all samples.
    pub open spec fn structure_ok(self) -> bool {
        &&& points_sorted(self.points@)
        &&& points_in_range(self.points@)
        &&& self.max_index_node_capacity >= 1
        &&& (forall|h: int| self.valid_node(h) ==> #[trigger] self.node_ok(h))
        &&& self.leaves_disjoint()
        &&& (self.num_nodes() > 0 ==> self.span_lo(0) == 0 && self.span_hi(0) == self.n())
    }

    /// The full invariant every built chart satisfies: the structural
    /// model plus the leaf capacity bound.
    pub open spec fn well_formed(self) -> bool {
        &&& self.structure_ok()
        &&& (forall|h: int| #[trigger] self.is_leaf_node(h) ==> self.leaf_within_capacity(h))
    }

    /// The index has been built (the arena is non-empty). Querying an
    /// unbuilt chart is a fatal contract violation.
    pub open spec fn index_built(self) -> bool {
        self.num_nodes() > 0
    }

    /// `h` is a leaf that routing can reach for query timestamp `t`:
    /// every sample left of its span is at or before `t`, and every
    /// sample right of its span is after `t`.
    pub open spec fn routed_leaf(self, h: int, t: int) -> bool {
        &&& self.is_leaf_node(h)
        &&& (forall|i: int|
            0 <= i < self.span_lo(h) ==> (#[trigger] self.points@[i]).timestamp <= t)
        &&& (forall|i: int|
            self.span_hi(h) <= i < self.n() ==> (#[trigger] self.points@[i]).timestamp > t)
    }

    /// The state `new` leaves the chart in: valid input, no index yet.
    pub open spec fn pre_build(self) -> bool {
        &&& points_sorted(self.points@)
        &&& points_in_range(self.points@)
        &&& self.max_index_node_capacity >= 1
        &&& self.num_nodes() == 0
    }

    /// Create a chart over `points`, which the caller must already have
    /// sorted ascending by timestamp, with the given positive leaf
    /// capacity. The index is empty until `build_index` runs.
    pub fn new(points: Vec<Point>, max_index_node_capacity: usize) -> (c: Chart)
        requires
            points_sorted(points@),
            points_in_range(points@),
            max_index_node_capacity >= 1,
        ensures
            c.pre_build(),
            c.points == points,
            c.max_index_node_capacity == max_index_node_capacity,
    {
        Chart {
            points,
            index: Vec::new(),
            max_index_node_capacity,
            spans: Ghost(Map::empty()),
        }
    }
}

/// The value the store reports between two bracketing samples: linear
/// interpolation over millisecond distances, with the fractional part of
/// the value step truncated toward zero. At `t == before.timestamp` this
/// is exactly `before.value`; at `t == after.timestamp`, exactly
/// `after.value`.
pub open spec fn interpolated_value(before: Point, after: Point, t: int) -> int {
    let db = t - before.timestamp;
    let den = after.timestamp - before.timestamp;
    if after.value >= before.value {
        before.value + ((after.value - before.value) * db) / den
    } else {
        before.value - ((before.value - after.value) * db) / den
    }
}

/// Index of the last sample of `s` with timestamp at or before `t`
/// (-1 when there is none).
pub open spec fn last_le_index(s: Seq<Point>, t: int) -> int
    decreases s.len(),
{
    if s.len() == 0 {
        -1
    } else if s[s.len() - 1].timestamp <= t {
        s.len() - 1
    } else {
        last_le_index(s.drop_last(), t)
    }
}

/// What a flat scan of the sorted series answers at timestamp `t`:
/// nothing before the first sample, the last value held constant after
/// the last sample, a sample's own value at its own timestamp, and the
/// interpolated value between the two bracketing samples otherwise.
/// This is the reference semantics of every query path in the store.
pub open spec fn scan_value(s: Seq<Point>, t: int) -> Option<int> {
    if s.len() == 0 || t < s[0].timestamp {
        None
    } else {
        let i = last_le_index(s, t);
        if i == s.len() - 1 {
            Some(s[i].value as int)
        } else {
            Some(interpolated_value(s[i], s[i + 1], t))
        }
    }
}

/// An `Option<i64>` result, widened for comparison with `scan_value`.
pub open spec fn value_option_as_int(r: Option<i64>) -> Option<int> {
    match r {
        Some(v) => Some(v as int),
        None => None,
    }
}

/// `last_le_index` is pinned down by its defining property: a position
/// at or before `t` with everything after it strictly later than `t`.
pub proof fn lemma_last_le_index_of(s: Seq<Point>, t: int, i: int)
    requires
        0 <= i < s.len(),
        s[i].timestamp <= t,
        forall|j: int| i < j < s.len() ==> s[j].timestamp > t,
    ensures
        last_le_index(s, t) == i,
    decreases s.len(),
{
    if i < s.len() - 1 {
        assert(s[s.len() - 1].timestamp > t);
        assert(s.drop_last()[i] == s[i]);
        assert(forall|j: int| i < j < s.drop_last().len() ==> s.drop_last()[j].timestamp > t);
        lemma_last_le_index_of(s.drop_last(), t, i);
    }
}

/// At the endpoints of a bracket the interpolated value is exactly the
/// endpoint's value: no drift.
pub proof fn lemma_interpolated_value_exact(before: Point, after: Point)
    requires
        before.timestamp < after.timestamp,
    ensures
        interpolated_value(before, after, before.timestamp as int) == before.value,
        interpolated_value(before, after, after.timestamp as int) == after.value,
{
    let den = after.timestamp - before.timestamp;
    assert(den > 0);
    if after.value >= before.value {
        let dv = after.value - before.value;
        assert((dv * 0) / den == 0) by {
            assert(dv * 0 == den * 0) by (nonlinear_arith);
            vstd::arithmetic::div_mod::lemma_div_multiples_vanish(0, den);
        }
        assert((dv * den) / den == dv) by {
            assert(dv * den == den * dv) by (nonlinear_arith);
            vstd::arithmetic::div_mod::lemma_div_multiples_vanish(dv, den);
        }
    } else {
        let dv = before.value - after.value;
        assert((dv * 0) / den == 0) by {
            assert(dv * 0 == den * 0) by (nonlinear_arith);
            vstd::arithmetic::div_mod::lemma_div_multiples_vanish(0, den);
        }
        assert((dv * den) / den == dv) by {
            assert(dv * den == den * dv) by (nonlinear_arith);
            vstd::arithmetic::div_mod::lemma_div_multiples_vanish(dv, den);
        }
    }
}

impl Chart {
    /// Linear interpolation between two bracketing samples at a query
    /// timestamp that lies between them. Exact at both endpoints, and
    /// the result never leaves the closed interval spanned by the two
    /// sample values.
    pub fn interpolate_between_points(
        &self,
        timestamp: i64,
        point_before: &Point,
        point_after: &Point,
    ) -> (r: i64)
        requires
            point_before.timestamp < point_after.timestamp,
            point_before.timestamp <= timestamp <= point_after.timestamp,
        ensures
            r == interpolated_value(*point_before, *point_after, timestamp as int),
            timestamp == point_before.timestamp ==> r == point_before.value,
            timestamp == point_after.timestamp ==> r == point_after.value,
            point_before.value <= point_after.value
                ==> point_before.value <= r <= point_after.value,
            point_after.value <= point_before.value
                ==> point_after.value <= r <= point_before.value,
    {
        let db128: i128 = timestamp as i128 - point_before.timestamp as i128;
        let den128: i128 = point_after.timestamp as i128 - point_before.timestamp as i128;
        let db: u128 = db128 as u128;
        let den: u128 = den128 as u128;
        proof {
            assert(db <= den < 0x1_0000_0000_0000_0000_0000_0000_0000_0000);
        }
        if point_after.value >= point_before.value {
            let dv: u128 = (point_after.value as i128 - point_before.value as i128) as u128;
            proof {
                crate::arith::lemma_mul_le(
                    dv as int,
                    u64::MAX as int,
                    db as int,
                    u64::MAX as int,
                );
            }
            let prod: u128 = dv * db;
            let q: u128 = prod / den;
            proof {
                crate::arith::lemma_mul_le(db as int, den as int, dv as int, dv as int);
                assert(db as int * dv as int == dv as int * db as int) by (nonlinear_arith);
                assert(den as int * dv as int == dv as int * den as int) by (nonlinear_arith);
                crate::arith::lemma_div_le_bound(prod as int, den as int, dv as int);
                vstd::arithmetic::div_mod::lemma_div_pos_is_pos(prod as int, den as int);
                if timestamp == point_before.timestamp {
                    assert(prod == dv * 0 == 0) by (nonlinear_arith)
                        requires
                            db == 0,
                            prod == dv * db,
                    ;
                    crate::arith::lemma_div_le_bound(0, den as int, 0);
                }
                if timestamp == point_after.timestamp {
                    assert(prod as int == den as int * dv as int) by (nonlinear_arith)
                        requires
                            db == den,
                            prod == dv * db,
                    ;
                    vstd::arithmetic::div_mod::lemma_div_multiples_vanish(
                        dv as int,
                        den as int,
                    );
                }
            }
            let r128: i128 = point_before.value as i128 + q as i128;
            r128 as i64
        } else {
            let dv: u128 = (point_before.value as i128 - point_after.value as i128) as u128;
            proof {
                crate::arith::lemma_mul_le(
                    dv as int,
                    u64::MAX as int,
                    db as int,
                    u64::MAX as int,
                );
            }
            let prod: u128 = dv * db;
            let q: u128 = prod / den;
            proof {
                crate::arith::lemma_mul_le(db as int, den as int, dv as int, dv as int);
                assert(db as int * dv as int == dv as int * db as int) by (nonlinear_arith);
                assert(den as int * dv as int == dv as int * den as int) by (nonlinear_arith);
                crate::arith::lemma_div_le_bound(prod as int, den as int, dv as int);
                vstd::arithmetic::div_mod::lemma_div_pos_is_pos(prod as int, den as int);
                if timestamp == point_before.timestamp {
                    assert(prod == dv * 0 == 0) by (nonlinear_arith)
                        requires
                            db == 0,
                            prod == dv * db,
                    ;
                    crate::arith::lemma_div_le_bound(0, den as int, 0);
                }
                if timestamp == point_after.timestamp {
                    assert(prod as int == den as int * dv as int) by (nonlinear_arith)
                        requires
                            db == den,
                            prod == dv * db,
                    ;
                    vstd::arithmetic::div_mod::lemma_div_multiples_vanish(
                        dv as int,
                        den as int,
                    );
                }
            }
            let r128: i128 = point_before.value as i128 - q as i128;
            r128 as i64
        }
    }

    /// The flat linear-scan reference: walk the sorted series backwards
    /// to the last sample at or before the query and interpolate with
    /// its successor. Exactly the `scan_value` semantics; the indexed
    /// `get_value` agrees with this for every series and every query.
    pub fn get_value_vec(&self, timestamp: i64) -> (r: Option<i64>)
        requires
            points_sorted(self.points@),
        ensures
            value_option_as_int(r) == scan_value(self.points@, timestamp as int),
    {
        let n = self.points.len();
        let mut idx: usize = n;
        while idx > 0 && self.points[idx - 1].timestamp > timestamp
            invariant
                idx <= n,
                n == self.points@.len(),
                forall|j: int| idx <= j < n ==> self.points@[j].timestamp > timestamp,
            decreases idx,
        {
            idx = idx - 1;
        }
        if idx == 0 {
            proof {
                if self.points@.len() > 0 {
                    assert(self.points@[0].timestamp > timestamp);
                }
            }
            return None;
        }
        let i = idx - 1;
        proof {
            assert(points_sorted(self.points@));
            lemma_last_le_index_of(self.points@, timestamp as int, i as int);
        }
        if i == n - 1 {
            Some(self.points[i].value)
        } else {
            let point_before = self.points[i];
            let point_after = self.points[i + 1];
            Some(self.interpolate_between_points(timestamp, &point_before, &point_after))
        }
    }
}

} // verus!
