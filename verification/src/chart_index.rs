//! Construction of the index (recursive time-bisection driven by an
//! explicit work list), point lookup, and adjacent-leaf discovery.

use vstd::prelude::*;
use vstd::pervasive::VecAdditionalExecFns;
use crate::point::Point;
use crate::point::MAX_TIMESTAMP_MILLIS;
use crate::point_index::PointIndex;
use crate::chart::Chart;
use crate::point::copy_points;
use crate::chart::points_in_range;
use crate::chart::points_sorted;
use crate::arith::truncated_mean;
use crate::arith::lemma_truncated_mean_bounds;
use crate::chart::interpolated_value;
use crate::chart::last_le_index;
use crate::chart::lemma_interpolated_value_exact;
use crate::chart::lemma_last_le_index_of;
use crate::chart::scan_value;
use crate::chart::value_option_as_int;
use crate::projection::Projection;
use crate::projection::ProjectionDisposable;
use crate::projection::as_projection_opt;
use crate::projection::lemma_operations_keep_ts_bounds;
use crate::projection::projected_data_opt;
use crate::projection::window_excludes;

verus! {

/// Sum of the timestamps of `s`.
pub open spec fn timestamp_sum(s: Seq<Point>) -> int
    decreases s.len(),
{
    if s.len() == 0 {
        0
    } else {
        timestamp_sum(s.drop_last()) + s[s.len() - 1].timestamp
    }
}

/// A pointwise bound on timestamps bounds their sum.
proof fn lemma_timestamp_sum_bounds(s: Seq<Point>, mn: int, mx: int)
    requires
        forall|i: int| 0 <= i < s.len() ==> mn <= (#[trigger] s[i]).timestamp
            && s[i].timestamp <= mx,
    ensures
        s.len() * mn <= timestamp_sum(s),
        timestamp_sum(s) <= s.len() * mx,
    decreases s.len(),
{
    if s.len() == 0 {
        assert(s.len() * mn == 0) by (nonlinear_arith)
            requires
                s.len() == 0,
        ;
        assert(s.len() * mx == 0) by (nonlinear_arith)
            requires
                s.len() == 0,
        ;
    } else {
        let d = s.drop_last();
        assert(forall|i: int| 0 <= i < d.len() ==> mn <= (#[trigger] d[i]).timestamp
            && d[i].timestamp <= mx) by {
            assert(forall|i: int| 0 <= i < d.len() ==> d[i] == s[i]);
        }
        lemma_timestamp_sum_bounds(d, mn, mx);
        assert(mn <= s[s.len() - 1].timestamp <= mx);
        assert(d.len() * mn + mn == s.len() * mn) by (nonlinear_arith)
            requires
                d.len() == s.len() - 1,
        ;
        assert(d.len() * mx + mx == s.len() * mx) by (nonlinear_arith)
            requires
                d.len() == s.len() - 1,
        ;
    }
}

/// The split timestamp the construction uses for a run of samples:
/// the truncated mean of their epoch-millisecond values.
pub open spec fn split_point(d: Seq<Point>) -> int {
    truncated_mean(timestamp_sum(d), d.len() as int)
}

/// Index of the first sample of `d` with timestamp strictly after
/// `split` (`d.len()` when there is none).
pub open spec fn first_gt_index(d: Seq<Point>, split: int) -> int
    decreases d.len(),
{
    if d.len() == 0 {
        0
    } else if d[0].timestamp > split {
        0
    } else {
        1 + first_gt_index(d.drop_first(), split)
    }
}

/// Where a split cuts a run: before the first sample past the split
/// timestamp (ties go to the `less` side); when no sample exceeds the
/// split — the duplicate-timestamp degenerate case — the last sample
/// alone forms the `more` side, so both halves always shrink.
pub open spec fn partition_cut(d: Seq<Point>) -> int {
    let f = first_gt_index(d, split_point(d));
    if 1 <= f <= d.len() - 1 {
        f
    } else {
        d.len() - 1
    }
}

/// The half-open sample ranges that recursive time-bisection of
/// `points[lo..hi]` under the given leaf capacity ends with: a range
/// that fits (or cannot shrink) stays whole; any other splits at its
/// partition cut.
pub open spec fn leaf_cuts(points: Seq<Point>, lo: int, hi: int, cap: int) -> Set<(int, int)>
    decreases hi - lo,
{
    if hi - lo <= cap || hi - lo <= 1 {
        set![(lo, hi)]
    } else {
        // the cut always lies strictly inside the range; the guard only
        // keeps the recursion well founded on meaningless inputs
        let k0 = partition_cut(points.subrange(lo, hi));
        let k = if 1 <= k0 <= hi - lo - 1 {
            k0
        } else {
            1
        };
        leaf_cuts(points, lo, lo + k, cap).union(leaf_cuts(points, lo + k, hi, cap))
    }
}

/// `first_gt_index` is pinned down by its defining property.
proof fn lemma_first_gt_index_of(d: Seq<Point>, split: int, k: int)
    requires
        0 <= k <= d.len(),
        forall|i: int| 0 <= i < k ==> (#[trigger] d[i]).timestamp <= split,
        k < d.len() ==> d[k].timestamp > split,
    ensures
        first_gt_index(d, split) == k,
    decreases d.len(),
{
    if d.len() == 0 {
    } else if d[0].timestamp > split {
        assert(k == 0);
    } else {
        assert(k >= 1);
        let tail = d.drop_first();
        assert forall|i: int| 0 <= i < k - 1 implies (#[trigger] tail[i]).timestamp
            <= split by {
            assert(tail[i] == d[i + 1]);
        }
        if k - 1 < tail.len() {
            assert(tail[k - 1] == d[k]);
        }
        lemma_first_gt_index_of(tail, split, k - 1);
    }
}

/// The split timestamp of a leaf: the truncated mean of its samples'
/// epoch values, computed in 128-bit arithmetic so it cannot overflow
/// for in-range timestamps.
fn average_timestamp(data: &Vec<Point>) -> (avg: i64)
    requires
        data@.len() >= 1,
        points_in_range(data@),
    ensures
        avg as int == truncated_mean(timestamp_sum(data@), data@.len() as int),
{
    let len = data.len();
    let mut sum: i128 = 0;
    let mut i: usize = 0;
    while i < len
        invariant
            0 <= i <= len,
            len == data@.len(),
            points_in_range(data@),
            sum as int == timestamp_sum(data@.subrange(0, i as int)),
            -((i as int) * (MAX_TIMESTAMP_MILLIS as int)) <= sum as int,
            sum as int <= (i as int) * (MAX_TIMESTAMP_MILLIS as int),
        decreases len - i,
    {
        proof {
            assert(data@[i as int].timestamp_in_range());
            assert((i as int + 1) * (MAX_TIMESTAMP_MILLIS as int)
                == (i as int) * (MAX_TIMESTAMP_MILLIS as int) + MAX_TIMESTAMP_MILLIS as int)
                by (nonlinear_arith);
            assert((len as int) * (MAX_TIMESTAMP_MILLIS as int)
                < 0x4000_0000_0000_0000_0000_0000_0000_0000) by {
                crate::arith::lemma_mul_le(
                    len as int,
                    usize::MAX as int,
                    MAX_TIMESTAMP_MILLIS as int,
                    MAX_TIMESTAMP_MILLIS as int,
                );
            }
            assert((i as int) * (MAX_TIMESTAMP_MILLIS as int)
                <= (len as int) * (MAX_TIMESTAMP_MILLIS as int)) by {
                crate::arith::lemma_mul_le(
                    i as int,
                    len as int,
                    MAX_TIMESTAMP_MILLIS as int,
                    MAX_TIMESTAMP_MILLIS as int,
                );
            }
        }
        sum = sum + data[i].timestamp as i128;
        i = i + 1;
        proof {
            assert(data@.subrange(0, i as int).drop_last() =~= data@.subrange(0, i as int - 1));
            assert(data@.subrange(0, i as int)[i as int - 1] == data@[i as int - 1]);
        }
    }
    proof {
        assert(data@.subrange(0, len as int) =~= data@);
        assert((len as int) * (MAX_TIMESTAMP_MILLIS as int)
            < 0x4000_0000_0000_0000_0000_0000_0000_0000) by {
            crate::arith::lemma_mul_le(
                len as int,
                usize::MAX as int,
                MAX_TIMESTAMP_MILLIS as int,
                MAX_TIMESTAMP_MILLIS as int,
            );
        }
        assert(-((len as int) * (MAX_TIMESTAMP_MILLIS as int))
            == (len as int) * (-(MAX_TIMESTAMP_MILLIS as int))) by (nonlinear_arith);
        lemma_truncated_mean_bounds(
            sum as int,
            len as int,
            -(MAX_TIMESTAMP_MILLIS as int),
            MAX_TIMESTAMP_MILLIS as int,
        );
    }
    if sum >= 0 {
        let q: u128 = (sum as u128) / (len as u128);
        q as i64
    } else {
        let neg: i128 = -sum;
        let q: u128 = (neg as u128) / (len as u128);
        let qi: i64 = q as i64;
        -qi
    }
}

/// How much splitting work the node at `h` can still cause: a leaf of
/// `L > 0` samples counts `3 L - 2`, anything else counts zero. Each
/// split strictly shrinks the total over the work list.
spec fn node_load(nodes: Seq<PointIndex>, h: int) -> int {
    if 0 <= h < nodes.len() {
        match nodes[h].data {
            Some(d) => if d@.len() > 0 {
                3 * d@.len() - 2
            } else {
                0
            },
            None => 0,
        }
    } else {
        0
    }
}

/// Total remaining load of the handles on the work list.
spec fn work_measure(nodes: Seq<PointIndex>, work: Seq<usize>) -> int
    decreases work.len(),
{
    if work.len() == 0 {
        0
    } else {
        work_measure(nodes, work.drop_last()) + node_load(nodes, work[work.len() - 1] as int)
    }
}

proof fn lemma_work_measure_nonneg(nodes: Seq<PointIndex>, work: Seq<usize>)
    ensures
        work_measure(nodes, work) >= 0,
    decreases work.len(),
{
    if work.len() > 0 {
        lemma_work_measure_nonneg(nodes, work.drop_last());
    }
}

proof fn lemma_work_measure_push(nodes: Seq<PointIndex>, work: Seq<usize>, x: usize)
    ensures
        work_measure(nodes, work.push(x)) == work_measure(nodes, work) + node_load(
            nodes,
            x as int,
        ),
{
    assert(work.push(x).drop_last() =~= work);
    assert(work.push(x)[work.push(x).len() - 1] == x);
}

/// Lowering loads pointwise cannot raise the total.
proof fn lemma_work_measure_le(n1: Seq<PointIndex>, n2: Seq<PointIndex>, work: Seq<usize>)
    requires
        forall|i: int| 0 <= i < work.len()
            ==> node_load(n2, #[trigger] work[i] as int) <= node_load(n1, work[i] as int),
    ensures
        work_measure(n2, work) <= work_measure(n1, work),
    decreases work.len(),
{
    if work.len() > 0 {
        let d = work.drop_last();
        assert(forall|i: int| 0 <= i < d.len()
            ==> node_load(n2, #[trigger] d[i] as int) <= node_load(n1, d[i] as int)) by {
            assert(forall|i: int| 0 <= i < d.len() ==> d[i] == work[i]);
        }
        lemma_work_measure_le(n1, n2, d);
        assert(node_load(n2, work[work.len() - 1] as int)
            <= node_load(n1, work[work.len() - 1] as int));
    }
}

impl Chart {
    /// Rebalancing the node at `h` does nothing: it is internal, or a
    /// leaf already within capacity.
    pub open spec fn rebalance_is_noop(self, h: int) -> bool {
        self.node(h).data is None || self.node(h).leaf_data().len()
            <= self.max_index_node_capacity
    }

    /// Every node appended since the pre-state `prev` covers a sample
    /// range inside the span of the node at `h`.
    pub open spec fn appended_within(self, prev: Chart, h: int) -> bool {
        forall|g: int| prev.num_nodes() <= g < self.num_nodes()
            ==> prev.span_lo(h) <= #[trigger] self.span_lo(g) && self.span_hi(g)
                <= prev.span_hi(h)
    }

    /// The leaves whose spans lie inside `[lo, hi]` are exactly one
    /// leaf per cut of the recursive time-bisection of that range: the
    /// built tree's shape over those samples is a pure function of the
    /// series and the capacity.
    pub open spec fn leaves_realize_cuts(
        self,
        points: Seq<Point>,
        lo: int,
        hi: int,
        cap: int,
    ) -> bool {
        forall|cut: (int, int)|
            #![trigger leaf_cuts(points, lo, hi, cap).contains(cut)]
            leaf_cuts(points, lo, hi, cap).contains(cut) <==> exists|g: int|
                {
                    &&& #[trigger] self.is_leaf_node(g)
                    &&& lo <= self.span_lo(g)
                    &&& self.span_hi(g) <= hi
                    &&& self.span_lo(g) == cut.0
                    &&& self.span_hi(g) == cut.1
                }
    }

    /// Mid-construction version of `leaves_realize_cuts`: each cut of
    /// the range is owed by exactly the leaves currently inside it,
    /// counting an oversized leaf for all the cuts its own span still
    /// has to produce.
    pub open spec fn cuts_pending(
        self,
        points: Seq<Point>,
        lo: int,
        hi: int,
        cap: int,
    ) -> bool {
        forall|cut: (int, int)|
            #![trigger leaf_cuts(points, lo, hi, cap).contains(cut)]
            leaf_cuts(points, lo, hi, cap).contains(cut) <==> exists|g: int|
                {
                    &&& #[trigger] self.is_leaf_node(g)
                    &&& lo <= self.span_lo(g)
                    &&& self.span_hi(g) <= hi
                    &&& leaf_cuts(points, self.span_lo(g), self.span_hi(g), cap).contains(
                        cut,
                    )
                }
    }

    /// Splitting one oversized leaf keeps `cuts_pending`: the leaf's
    /// own pending cuts are exactly the union of its two halves'.
    proof fn lemma_split_preserves_cuts(
        self,
        prev: Chart,
        h: int,
        c1: int,
        c2: int,
        k: int,
        d: Seq<Point>,
        lo0: int,
        hi0: int,
        cap: int,
    )
        requires
            prev.structure_ok(),
            prev.valid_node(h),
            prev.node(h).is_leaf(),
            d == prev.node(h).leaf_data(),
            d.len() >= 2,
            d.len() > cap,
            cap == prev.max_index_node_capacity,
            1 <= k <= d.len() - 1,
            k == partition_cut(d),
            c1 == prev.num_nodes(),
            c2 == prev.num_nodes() + 1,
            self.points == prev.points,
            self.num_nodes() == prev.num_nodes() + 2,
            forall|g: int| 0 <= g < prev.num_nodes() && g != h
                ==> #[trigger] self.node(g) == prev.node(g),
            self.node(c1).is_leaf(),
            self.node(c2).is_leaf(),
            !self.node(h).is_leaf(),
            self.spans@ == prev.spans@.insert(
                c1,
                (prev.span_lo(h), prev.span_lo(h) + k),
            ).insert(c2, (prev.span_lo(h) + k, prev.span_hi(h))),
            lo0 <= prev.span_lo(h),
            prev.span_hi(h) <= hi0,
            prev.cuts_pending(prev.points@, lo0, hi0, cap),
        ensures
            self.cuts_pending(prev.points@, lo0, hi0, cap),
    {
        let pts = prev.points@;
        let lo = prev.span_lo(h);
        let hi = prev.span_hi(h);
        let mid = lo + k;
        assert(self.points@ == pts);
        assert(prev.node_ok(h));
        assert(d == pts.subrange(lo, hi));
        assert(d.len() == hi - lo);
        assert(self.span_lo(c1) == lo && self.span_hi(c1) == mid);
        assert(self.span_lo(c2) == mid && self.span_hi(c2) == hi);
        assert(leaf_cuts(pts, lo, hi, cap) == leaf_cuts(pts, lo, mid, cap).union(
            leaf_cuts(pts, mid, hi, cap),
        )) by {
            assert(hi - lo > cap && hi - lo > 1);
            assert(partition_cut(pts.subrange(lo, hi)) == k);
        }
        assert forall|cut: (int, int)|
            #[trigger] leaf_cuts(pts, lo0, hi0, cap).contains(cut) implies exists|g: int|
            {
                &&& #[trigger] self.is_leaf_node(g)
                &&& lo0 <= self.span_lo(g)
                &&& self.span_hi(g) <= hi0
                &&& leaf_cuts(pts, self.span_lo(g), self.span_hi(g), cap).contains(cut)
            } by {
            let g = choose|g: int|
                {
                    &&& #[trigger] prev.is_leaf_node(g)
                    &&& lo0 <= prev.span_lo(g)
                    &&& prev.span_hi(g) <= hi0
                    &&& leaf_cuts(pts, prev.span_lo(g), prev.span_hi(g), cap).contains(cut)
                };
            if g == h {
                if leaf_cuts(pts, lo, mid, cap).contains(cut) {
                    assert(self.is_leaf_node(c1) && lo0 <= self.span_lo(c1)
                        && self.span_hi(c1) <= hi0 && leaf_cuts(
                        pts,
                        self.span_lo(c1),
                        self.span_hi(c1),
                        cap,
                    ).contains(cut));
                } else {
                    assert(leaf_cuts(pts, mid, hi, cap).contains(cut));
                    assert(self.is_leaf_node(c2) && lo0 <= self.span_lo(c2)
                        && self.span_hi(c2) <= hi0 && leaf_cuts(
                        pts,
                        self.span_lo(c2),
                        self.span_hi(c2),
                        cap,
                    ).contains(cut));
                }
            } else {
                assert(self.node(g) == prev.node(g));
                assert(self.spans@[g] == prev.spans@[g]);
                assert(self.is_leaf_node(g) && lo0 <= self.span_lo(g) && self.span_hi(g)
                    <= hi0 && leaf_cuts(pts, self.span_lo(g), self.span_hi(g), cap).contains(
                    cut,
                ));
            }
        }
        assert forall|cut: (int, int)|
            exists|g: int|
                {
                    &&& #[trigger] self.is_leaf_node(g)
                    &&& lo0 <= self.span_lo(g)
                    &&& self.span_hi(g) <= hi0
                    &&& leaf_cuts(pts, self.span_lo(g), self.span_hi(g), cap).contains(cut)
                } implies #[trigger] leaf_cuts(pts, lo0, hi0, cap).contains(cut) by {
            let g = choose|g: int|
                {
                    &&& #[trigger] self.is_leaf_node(g)
                    &&& lo0 <= self.span_lo(g)
                    &&& self.span_hi(g) <= hi0
                    &&& leaf_cuts(pts, self.span_lo(g), self.span_hi(g), cap).contains(cut)
                };
            if g == c1 || g == c2 {
                assert(leaf_cuts(pts, lo, hi, cap).contains(cut));
                assert(prev.is_leaf_node(h) && lo0 <= prev.span_lo(h) && prev.span_hi(h)
                    <= hi0 && leaf_cuts(pts, prev.span_lo(h), prev.span_hi(h), cap).contains(
                    cut,
                ));
            } else {
                assert(g < prev.num_nodes());
                assert(g != h);
                assert(self.node(g) == prev.node(g));
                assert(self.spans@[g] == prev.spans@[g]);
                assert(prev.is_leaf_node(g) && lo0 <= prev.span_lo(g) && prev.span_hi(g)
                    <= hi0 && leaf_cuts(pts, prev.span_lo(g), prev.span_hi(g), cap).contains(
                    cut,
                ));
            }
        }
    }

    /// The first split `rebalance_index_node` performs on the oversized
    /// leaf at `h` of the pre-state `prev`: the node turns internal at
    /// the truncated mean of its samples' timestamps, its two halves —
    /// cut at `partition_cut`, ties to `less` — are the first two nodes
    /// appended, and both are wired back to it.
    pub open spec fn split_applied(self, prev: Chart, h: int) -> bool {
        let d = prev.node(h).leaf_data();
        let k = partition_cut(d);
        let lo = prev.span_lo(h);
        let hi = prev.span_hi(h);
        let c1 = prev.num_nodes();
        let c2 = prev.num_nodes() + 1;
        &&& self.num_nodes() >= prev.num_nodes() + 2
        &&& !self.node(h).is_leaf()
        &&& self.node(h).data is None
        &&& self.node(h).split_timestamp() == split_point(d)
        &&& self.node(h).less == c1
        &&& self.node(h).more == c2
        &&& self.node(h).parent == prev.node(h).parent
        &&& self.node(c1).parent == h
        &&& self.node(c2).parent == h
        &&& self.span_lo(c1) == lo
        &&& self.span_hi(c1) == lo + k
        &&& self.span_lo(c2) == lo + k
        &&& self.span_hi(c2) == hi
    }

    /// Replacing an oversized leaf by an internal node over two fresh
    /// leaves that split its run at a timestamp between its first and
    /// last sample keeps the whole structural model intact.
    proof fn lemma_split_preserves_structure(
        self,
        prev: Chart,
        h: int,
        c1: int,
        c2: int,
        k: int,
        d: Seq<Point>,
    )
        requires
            prev.structure_ok(),
            prev.valid_node(h),
            prev.node(h).is_leaf(),
            d == prev.node(h).leaf_data(),
            d.len() >= 2,
            1 <= k <= d.len() - 1,
            c1 == prev.num_nodes(),
            c2 == prev.num_nodes() + 1,
            self.points == prev.points,
            self.max_index_node_capacity == prev.max_index_node_capacity,
            self.num_nodes() == prev.num_nodes() + 2,
            forall|g: int| 0 <= g < prev.num_nodes() && g != h
                ==> #[trigger] self.node(g) == prev.node(g),
            self.node(c1).is_leaf(),
            self.node(c1).data is Some,
            self.node(c1).leaf_data() == d.subrange(0, k),
            self.node(c1).parent == h,
            self.node(c2).is_leaf(),
            self.node(c2).data is Some,
            self.node(c2).leaf_data() == d.subrange(k, d.len() as int),
            self.node(c2).parent == h,
            !self.node(h).is_leaf(),
            self.node(h).data is None,
            self.node(h).less == c1,
            self.node(h).more == c2,
            self.node(h).parent == prev.node(h).parent,
            forall|i: int| 0 <= i < k
                ==> (#[trigger] d[i]).timestamp <= self.node(h).split_timestamp(),
            forall|i: int| k <= i < d.len()
                ==> (#[trigger] d[i]).timestamp >= self.node(h).split_timestamp(),
            self.spans@ == prev.spans@.insert(
                c1,
                (prev.span_lo(h), prev.span_lo(h) + k),
            ).insert(c2, (prev.span_lo(h) + k, prev.span_hi(h))),
        ensures
            self.structure_ok(),
    {
        let lo = prev.span_lo(h);
        let hi = prev.span_hi(h);
        let mid = lo + k;
        assert(prev.node_ok(h));
        assert(d == prev.points@.subrange(lo, hi));
        assert(d.len() == hi - lo);
        assert(self.n() == prev.n());
        assert forall|g: int| self.valid_node(g) implies #[trigger] self.node_ok(g) by {
            if g == h {
                assert(self.span_lo(h) == lo && self.span_hi(h) == hi);
                assert(self.span_lo(c1) == lo && self.span_hi(c1) == mid);
                assert(self.span_lo(c2) == mid && self.span_hi(c2) == hi);
                let split = self.node(h).split_timestamp();
                assert forall|i: int| lo <= i < mid implies
                    (#[trigger] self.points@[i]).timestamp <= split by {
                    assert(d[i - lo] == prev.points@[i]);
                }
                assert forall|i: int| mid <= i < hi implies
                    (#[trigger] self.points@[i]).timestamp >= split by {
                    assert(d[i - lo] == prev.points@[i]);
                }
                assert(self.internal_node_ok(h));
                if h != 0 {
                    let p = self.node(h).parent as int;
                    assert(p < h);
                    assert(self.node(p) == prev.node(p));
                }
            } else if g == c1 {
                assert(self.span_lo(c1) == lo && self.span_hi(c1) == mid);
                assert(self.node(c1).leaf_data() =~= self.points@.subrange(lo, mid));
                assert(self.leaf_node_ok(c1));
                assert(!self.node(h).is_leaf());
            } else if g == c2 {
                assert(self.span_lo(c2) == mid && self.span_hi(c2) == hi);
                assert(self.node(c2).leaf_data() =~= self.points@.subrange(mid, hi));
                assert(self.leaf_node_ok(c2));
            } else {
                assert(prev.node_ok(g));
                assert(self.node(g) == prev.node(g));
                assert(self.span_lo(g) == prev.span_lo(g));
                assert(self.span_hi(g) == prev.span_hi(g));
                if self.node(g).is_leaf() {
                    assert(self.node(g).leaf_data() == prev.points@.subrange(
                        prev.span_lo(g),
                        prev.span_hi(g),
                    ));
                    assert(self.leaf_node_ok(g));
                } else {
                    let less = self.node(g).less as int;
                    let more = self.node(g).more as int;
                    assert(less < prev.num_nodes() && more < prev.num_nodes());
                    if less == h {
                        assert(self.node(less).parent == g);
                    } else {
                        assert(self.node(less) == prev.node(less));
                    }
                    if more == h {
                        assert(self.node(more).parent == g);
                    } else {
                        assert(self.node(more) == prev.node(more));
                    }
                    assert(self.span_lo(less) == prev.span_lo(less));
                    assert(self.span_hi(less) == prev.span_hi(less));
                    assert(self.span_lo(more) == prev.span_lo(more));
                    assert(self.span_hi(more) == prev.span_hi(more));
                    assert(self.internal_node_ok(g));
                }
                if g != 0 {
                    let p = self.node(g).parent as int;
                    assert(!prev.node(p).is_leaf());
                    assert(p != h);
                    assert(self.node(p) == prev.node(p));
                }
            }
        }
        assert forall|g1: int, g2: int|
            self.is_leaf_node(g1) && self.is_leaf_node(g2) && g1 != g2 implies
            self.span_hi(g1) <= self.span_lo(g2) || self.span_hi(g2) <= self.span_lo(g1) by {
            assert(!self.node(h).is_leaf());
            if g1 < prev.num_nodes() && g2 < prev.num_nodes() {
                assert(prev.is_leaf_node(g1) && prev.is_leaf_node(g2));
            } else if g1 < prev.num_nodes() {
                // g2 is one of the fresh leaves, whose span sits inside
                // the split leaf's old span
                assert(prev.is_leaf_node(g1) && prev.is_leaf_node(h));
                assert(prev.span_hi(g1) <= lo || hi <= prev.span_lo(g1));
            } else if g2 < prev.num_nodes() {
                assert(prev.is_leaf_node(g2) && prev.is_leaf_node(h));
                assert(prev.span_hi(g2) <= lo || hi <= prev.span_lo(g2));
            } else {
                assert((g1 == c1 && g2 == c2) || (g1 == c2 && g2 == c1));
            }
        }
        assert(self.span_lo(0) == prev.span_lo(0));
        assert(self.span_hi(0) == prev.span_hi(0));
    }

    /// Split every oversized leaf under `node_index` until all leaves
    /// fit the capacity: pop a handle off the work list; when it names
    /// a leaf with more samples than the capacity allows, turn the leaf
    /// into an internal node at the truncated mean of its timestamps,
    /// append its two halves (ties on the split go to the `less` side;
    /// when nothing exceeds the split, the last sample alone moves to
    /// `more`, so both halves always shrink), and queue both halves.
    #[verifier::rlimit(100)]
    pub fn rebalance_index_node(&mut self, node_index: usize)
        requires
            old(self).structure_ok(),
            old(self).valid_node(node_index as int),
            forall|h: int| #[trigger] old(self).is_leaf_node(h) && h != node_index
                ==> old(self).leaf_within_capacity(h),
        ensures
            final(self).well_formed(),
            final(self).points == old(self).points,
            final(self).max_index_node_capacity == old(self).max_index_node_capacity,
            final(self).num_nodes() >= old(self).num_nodes(),
            forall|g: int| 0 <= g < old(self).num_nodes() && g != node_index as int
                ==> #[trigger] final(self).node(g) == old(self).node(g),
            forall|g: int| 0 <= g < old(self).num_nodes()
                ==> #[trigger] final(self).spans@[g] == old(self).spans@[g],
            final(self).appended_within(*old(self), node_index as int),
            old(self).rebalance_is_noop(node_index as int) ==> *final(self) == *old(self),
            !old(self).rebalance_is_noop(node_index as int) ==> final(self).split_applied(
                *old(self),
                node_index as int,
            ),
            !old(self).rebalance_is_noop(node_index as int)
                ==> final(self).leaves_realize_cuts(
                old(self).points@,
                old(self).span_lo(node_index as int),
                old(self).span_hi(node_index as int),
                old(self).max_index_node_capacity as int,
            ),
    {
        let ghost noop = old(self).rebalance_is_noop(node_index as int);
        let ghost lo0 = old(self).span_lo(node_index as int);
        let ghost hi0 = old(self).span_hi(node_index as int);
        let ghost cap0 = old(self).max_index_node_capacity as int;
        let mut work: Vec<usize> = Vec::new();
        work.push(node_index);
        proof {
            assert(work@[0] == node_index);
            assert forall|g: int| #[trigger] self.is_leaf_node(g)
                && !self.leaf_within_capacity(g) implies work@.contains(g as usize) by {
                assert(g == node_index as int);
                assert(work@[0] == g as usize);
            }
            assert(self.node_ok(node_index as int));
            if !noop {
                // the rebalanced node is the only leaf inside its own
                // span, so it owes every cut of that span
                assert(self.is_leaf_node(node_index as int));
                assert(self.span_lo(node_index as int) == lo0
                    && self.span_hi(node_index as int) == hi0);
                assert(lo0 < hi0);
                assert forall|cut: (int, int)|
                    #[trigger] leaf_cuts(old(self).points@, lo0, hi0, cap0).contains(cut)
                    implies exists|g: int|
                    {
                        &&& #[trigger] self.is_leaf_node(g)
                        &&& lo0 <= self.span_lo(g)
                        &&& self.span_hi(g) <= hi0
                        &&& leaf_cuts(
                            old(self).points@,
                            self.span_lo(g),
                            self.span_hi(g),
                            cap0,
                        ).contains(cut)
                    } by {
                    assert(self.is_leaf_node(node_index as int) && lo0 <= self.span_lo(
                        node_index as int,
                    ) && self.span_hi(node_index as int) <= hi0 && leaf_cuts(
                        old(self).points@,
                        self.span_lo(node_index as int),
                        self.span_hi(node_index as int),
                        cap0,
                    ).contains(cut));
                }
                assert forall|cut: (int, int)|
                    exists|g: int|
                        {
                            &&& #[trigger] self.is_leaf_node(g)
                            &&& lo0 <= self.span_lo(g)
                            &&& self.span_hi(g) <= hi0
                            &&& leaf_cuts(
                                old(self).points@,
                                self.span_lo(g),
                                self.span_hi(g),
                                cap0,
                            ).contains(cut)
                        } implies #[trigger] leaf_cuts(
                    old(self).points@,
                    lo0,
                    hi0,
                    cap0,
                ).contains(cut) by {
                    let g = choose|g: int|
                        {
                            &&& #[trigger] self.is_leaf_node(g)
                            &&& lo0 <= self.span_lo(g)
                            &&& self.span_hi(g) <= hi0
                            &&& leaf_cuts(
                                old(self).points@,
                                self.span_lo(g),
                                self.span_hi(g),
                                cap0,
                            ).contains(cut)
                        };
                    if g != node_index as int {
                        // any other leaf squeezed into this span would
                        // have to be empty, which only the root of an
                        // empty series can be
                        assert(self.node_ok(g));
                        assert(self.span_hi(g) <= lo0 || hi0 <= self.span_lo(g));
                        assert(self.span_lo(g) == self.span_hi(g));
                        assert(g == 0 && self.span_lo(g) == 0 && self.span_hi(g) == 0);
                        assert(self.span_hi(0) == self.n());
                        assert(self.span_hi(node_index as int) <= self.n());
                        assert(false);
                    }
                }
                assert(self.cuts_pending(old(self).points@, lo0, hi0, cap0));
            }
        }
        while work.len() > 0
            invariant
                self.structure_ok(),
                self.points == old(self).points,
                self.max_index_node_capacity == old(self).max_index_node_capacity,
                self.num_nodes() >= old(self).num_nodes(),
                forall|i: int| 0 <= i < work@.len() ==> (#[trigger] work@[i] as int)
                    < self.num_nodes(),
                forall|h: int| #[trigger] self.is_leaf_node(h)
                    && !self.leaf_within_capacity(h) ==> work@.contains(h as usize),
                noop == old(self).rebalance_is_noop(node_index as int),
                lo0 == old(self).span_lo(node_index as int),
                hi0 == old(self).span_hi(node_index as int),
                (node_index as int) < old(self).num_nodes(),
                forall|i: int| 0 <= i < work@.len() ==> #[trigger] work@[i] == node_index
                    || work@[i] as int >= old(self).num_nodes(),
                forall|g: int| 0 <= g < old(self).num_nodes() && g != node_index as int
                    ==> #[trigger] self.node(g) == old(self).node(g),
                forall|g: int| 0 <= g < old(self).num_nodes()
                    ==> #[trigger] self.spans@[g] == old(self).spans@[g],
                forall|g: int| old(self).num_nodes() <= g < self.num_nodes()
                    ==> lo0 <= #[trigger] self.span_lo(g) && self.span_hi(g) <= hi0,
                noop ==> *self == *old(self),
                !noop && self.num_nodes() == old(self).num_nodes() ==> *self == *old(self)
                    && work@.len() == 1 && work@[0] == node_index,
                !noop && self.num_nodes() > old(self).num_nodes() ==> self.split_applied(
                    *old(self),
                    node_index as int,
                ),
                cap0 == old(self).max_index_node_capacity as int,
                !noop ==> self.cuts_pending(old(self).points@, lo0, hi0, cap0),
            decreases work_measure(self.index@, work@) + work@.len(),
        {
            let ghost prev = *self;
            let ghost prev_work = work@;
            let h = work.pop().unwrap();
            proof {
                assert(prev_work[prev_work.len() - 1] == h);
                assert(work_measure(prev.index@, prev_work)
                    == work_measure(prev.index@, work@) + node_load(prev.index@, h as int));
            }
            let node_capacity = self.max_index_node_capacity;
            let mut should_split = false;
            match &self.index[h].data {
                Some(d) => {
                    if d.len() > node_capacity {
                        should_split = true;
                    }
                },
                None => {},
            }
            if !should_split {
                proof {
                    if !noop && self.num_nodes() == old(self).num_nodes() {
                        // the first pop in the split case always splits
                        assert(h == node_index);
                        assert(*self == *old(self));
                        assert(old(self).node(node_index as int).data is Some);
                        assert(old(self).node(node_index as int).leaf_data().len()
                            > old(self).max_index_node_capacity as int);
                        assert(self.node(h as int).data is Some);
                        assert(self.node(h as int).leaf_data().len()
                            > node_capacity as int);
                        assert(false);
                    }
                    lemma_work_measure_nonneg(self.index@, work@);
                    assert forall|g: int| #[trigger] self.is_leaf_node(g)
                        && !self.leaf_within_capacity(g) implies work@.contains(g as usize) by {
                        assert(self.node_ok(g));
                        if g == h as int {
                            // a leaf popped without splitting fits the capacity
                            assert(self.node(g).leaf_data()
                                == self.points@.subrange(self.span_lo(g), self.span_hi(g)));
                            assert(false);
                        } else {
                            assert(prev_work.contains(g as usize));
                            let k = choose|k: int|
                                0 <= k < prev_work.len() && prev_work[k] == g as usize;
                            assert(k < prev_work.len() - 1);
                            assert(work@[k] == g as usize);
                        }
                    }
                }
                continue;
            }
            // The popped node is a leaf whose sample count exceeds the
            // capacity; copy its run out and split it.
            proof {
                assert(self.node_ok(h as int));
            }
            let mut data_vec: Vec<Point> = Vec::new();
            match &self.index[h].data {
                Some(d) => {
                    data_vec = copy_points(d, 0, d.len());
                },
                None => {},
            }
            let ghost lo = self.span_lo(h as int);
            let ghost hi = self.span_hi(h as int);
            proof {
                assert(data_vec@ == self.points@.subrange(lo, hi));
                assert(forall|i: int| 0 <= i < data_vec@.len()
                    ==> data_vec@[i] == self.points@[lo + i]);
                assert(points_in_range(data_vec@));
            }
            let data_length = data_vec.len();
            let split = average_timestamp(&data_vec);
            proof {
                let mn = data_vec@[0].timestamp as int;
                let mx = data_vec@[data_length - 1].timestamp as int;
                assert(forall|i: int| 0 <= i < data_vec@.len()
                    ==> mn <= (#[trigger] data_vec@[i]).timestamp && data_vec@[i].timestamp
                    <= mx) by {
                    assert(points_sorted(self.points@));
                };
                lemma_timestamp_sum_bounds(data_vec@, mn, mx);
                lemma_truncated_mean_bounds(
                    timestamp_sum(data_vec@),
                    data_length as int,
                    mn,
                    mx,
                );
                assert(mn <= split as int <= mx);
            }
            // Find the first sample past the split; if none exceeds it,
            // the last sample alone forms the `more` side.
            let mut k: usize = 1;
            proof {
                assert(data_vec@[0].timestamp <= split);
            }
            while k < data_length - 1 && data_vec[k].timestamp <= split
                invariant
                    1 <= k <= data_length - 1,
                    data_length == data_vec@.len(),
                    data_length >= 2,
                    forall|i: int| 0 <= i < k ==> (#[trigger] data_vec@[i]).timestamp <= split,
                decreases data_length - k,
            {
                k = k + 1;
            }
            proof {
                // everything from k on is at or above the split
                assert(points_sorted(self.points@));
                if k < data_length - 1 {
                    assert(data_vec@[k as int].timestamp > split);
                } else {
                    assert(data_vec@[data_length - 1].timestamp >= split);
                }
                assert forall|i: int| k <= i < data_length implies
                    (#[trigger] data_vec@[i]).timestamp >= split by {
                    assert(data_vec@[i] == self.points@[lo + i]);
                    assert(data_vec@[k as int] == self.points@[lo + k]);
                    assert(self.points@[lo + k].timestamp <= self.points@[lo + i].timestamp);
                    if k == data_length - 1 {
                        assert(i == data_length - 1);
                    }
                }
            }
            let less_data = copy_points(&data_vec, 0, k);
            let more_data = copy_points(&data_vec, k, data_length);
            let parent_save = self.index[h].parent;
            let less_index = self.index.len();
            self.index.push(
                PointIndex {
                    timestamp: None,
                    less: 0,
                    more: 0,
                    parent: h,
                    data: Some(less_data),
                },
            );
            let more_index = self.index.len();
            self.index.push(
                PointIndex {
                    timestamp: None,
                    less: 0,
                    more: 0,
                    parent: h,
                    data: Some(more_data),
                },
            );
            self.index.set(
                h,
                PointIndex {
                    timestamp: Some(split),
                    less: less_index,
                    more: more_index,
                    parent: parent_save,
                    data: None,
                },
            );
            let ghost mid = lo + k as int;
            self.spans = Ghost(
                prev.spans@.insert(less_index as int, (lo, mid)).insert(
                    more_index as int,
                    (mid, hi),
                ),
            );
            work.push(less_index);
            work.push(more_index);
            proof {
                self.lemma_split_preserves_structure(
                    prev,
                    h as int,
                    less_index as int,
                    more_index as int,
                    k as int,
                    data_vec@,
                );
                // the found cut index is the specification's partition cut
                assert(split as int == split_point(data_vec@));
                if data_vec@[k as int].timestamp > split {
                    lemma_first_gt_index_of(data_vec@, split as int, k as int);
                } else {
                    assert(k == data_length - 1);
                    assert forall|i: int| 0 <= i < data_vec@.len() implies (
                    #[trigger] data_vec@[i]).timestamp <= split by {
                        if i < k as int {
                        } else {
                            assert(i == k as int);
                        }
                    }
                    lemma_first_gt_index_of(data_vec@, split as int, data_vec@.len() as int);
                }
                assert(partition_cut(data_vec@) == k as int);
                // a no-op call never reaches a split
                if noop {
                    assert(h == node_index);
                    assert(false);
                }
                // the rebalanced node's first split is pinned exactly;
                // later splits touch only nodes appended after it
                if prev.num_nodes() == old(self).num_nodes() {
                    assert(h == node_index);
                    assert(data_vec@ == old(self).node(node_index as int).leaf_data());
                    assert(self.split_applied(*old(self), node_index as int));
                } else {
                    assert(prev.split_applied(*old(self), node_index as int));
                    assert(h as int != node_index as int);
                    assert(self.node(node_index as int) == prev.node(node_index as int));
                    assert(self.split_applied(*old(self), node_index as int));
                }
                // pre-existing nodes and spans stay untouched
                assert forall|g: int| 0 <= g < old(self).num_nodes() && g != node_index as int
                    implies #[trigger] self.node(g) == old(self).node(g) by {
                    assert(g != h as int);
                    assert(self.node(g) == prev.node(g));
                }
                assert forall|g: int| 0 <= g < old(self).num_nodes() implies
                    #[trigger] self.spans@[g] == old(self).spans@[g] by {
                    assert(self.spans@[g] == prev.spans@[g]);
                }
                // everything appended sits beneath the rebalanced span
                assert forall|g: int| old(self).num_nodes() <= g < self.num_nodes() implies
                    lo0 <= #[trigger] self.span_lo(g) && self.span_hi(g) <= hi0 by {
                    if g < prev.num_nodes() {
                        assert(self.spans@[g] == prev.spans@[g]);
                        assert(lo0 <= prev.span_lo(g) && prev.span_hi(g) <= hi0);
                    } else {
                        if h == node_index {
                            assert(prev.spans@[h as int] == old(self).spans@[h as int]);
                        } else {
                            assert(h as int >= old(self).num_nodes());
                            assert(lo0 <= prev.span_lo(h as int) && prev.span_hi(h as int)
                                <= hi0);
                        }
                        assert(lo == prev.span_lo(h as int) && hi == prev.span_hi(h as int));
                        assert(lo0 <= lo && hi <= hi0);
                        assert(data_vec@.len() == hi - lo);
                        assert(g == less_index as int || g == more_index as int);
                    }
                }
                // the split leaf hands its pending cuts to its halves
                if h == node_index {
                    assert(prev.spans@[h as int] == old(self).spans@[h as int]);
                } else {
                    assert(h as int >= old(self).num_nodes());
                    assert(lo0 <= prev.span_lo(h as int) && prev.span_hi(h as int) <= hi0);
                }
                self.lemma_split_preserves_cuts(
                    prev,
                    h as int,
                    less_index as int,
                    more_index as int,
                    k as int,
                    data_vec@,
                    lo0,
                    hi0,
                    cap0,
                );
                assert(self.cuts_pending(old(self).points@, lo0, hi0, cap0));
                // work entries are still the rebalanced node or appended
                assert forall|i: int| 0 <= i < work@.len() implies #[trigger] work@[i]
                    == node_index || work@[i] as int >= old(self).num_nodes() by {
                    if i < work@.len() - 2 {
                        assert(work@[i] == prev_work[i]);
                    } else if i == work@.len() - 2 {
                        assert(work@[i] == less_index);
                    } else {
                        assert(work@[i] == more_index);
                    }
                }
                // capacity escapees are still on the work list
                assert forall|g: int| #[trigger] self.is_leaf_node(g)
                    && !self.leaf_within_capacity(g) implies work@.contains(g as usize) by {
                    if g == less_index as int || g == more_index as int {
                        assert(work@[work@.len() - 2] == less_index);
                        assert(work@[work@.len() - 1] == more_index);
                    } else {
                        assert(g != h as int);
                        assert(prev.is_leaf_node(g) && !prev.leaf_within_capacity(g));
                        assert(prev_work.contains(g as usize));
                        let kk = choose|kk: int|
                            0 <= kk < prev_work.len() && prev_work[kk] == g as usize;
                        assert(kk < prev_work.len() - 1);
                        assert(work@[kk] == g as usize);
                    }
                }
                // the measure shrinks by at least two while the list
                // grows by one
                let w0 = prev_work.drop_last();
                assert(work@ =~= w0.push(less_index).push(more_index));
                lemma_work_measure_push(self.index@, w0.push(less_index), more_index);
                lemma_work_measure_push(self.index@, w0, less_index);
                assert(forall|i: int| 0 <= i < w0.len()
                    ==> node_load(self.index@, #[trigger] w0[i] as int)
                    <= node_load(prev.index@, w0[i] as int)) by {
                    assert(forall|i: int| 0 <= i < w0.len() ==> w0[i] == prev_work[i]);
                }
                lemma_work_measure_le(prev.index@, self.index@, w0);
                assert(node_load(self.index@, less_index as int) == 3 * (k as int) - 2);
                assert(node_load(self.index@, more_index as int)
                    == 3 * (data_vec@.len() - k as int) - 2);
                assert(node_load(prev.index@, h as int) == 3 * data_vec@.len() - 2);
                lemma_work_measure_nonneg(self.index@, work@);
            }
        }
        proof {
            assert forall|g: int| old(self).num_nodes() <= g < self.num_nodes() implies
                old(self).span_lo(node_index as int) <= #[trigger] self.span_lo(g)
                && self.span_hi(g) <= old(self).span_hi(node_index as int) by {
                assert(lo0 <= self.span_lo(g) && self.span_hi(g) <= hi0);
            }
            assert(self.appended_within(*old(self), node_index as int));
            if !noop {
                // with the work list empty every leaf fits, so each
                // leaf's pending cut set is the single pair of its span
                assert forall|cut: (int, int)|
                    #[trigger] leaf_cuts(old(self).points@, lo0, hi0, cap0).contains(cut)
                    implies exists|g: int|
                    {
                        &&& #[trigger] self.is_leaf_node(g)
                        &&& lo0 <= self.span_lo(g)
                        &&& self.span_hi(g) <= hi0
                        &&& self.span_lo(g) == cut.0
                        &&& self.span_hi(g) == cut.1
                    } by {
                    let g = choose|g: int|
                        {
                            &&& #[trigger] self.is_leaf_node(g)
                            &&& lo0 <= self.span_lo(g)
                            &&& self.span_hi(g) <= hi0
                            &&& leaf_cuts(
                                old(self).points@,
                                self.span_lo(g),
                                self.span_hi(g),
                                cap0,
                            ).contains(cut)
                        };
                    if !self.leaf_within_capacity(g) {
                        assert(work@.contains(g as usize));
                        assert(false);
                    }
                    assert(self.span_hi(g) - self.span_lo(g) <= cap0);
                    assert(leaf_cuts(old(self).points@, self.span_lo(g), self.span_hi(g),
                        cap0) == set![(self.span_lo(g), self.span_hi(g))]);
                    assert(self.is_leaf_node(g) && lo0 <= self.span_lo(g)
                        && self.span_hi(g) <= hi0 && self.span_lo(g) == cut.0
                        && self.span_hi(g) == cut.1);
                }
                assert forall|cut: (int, int)|
                    exists|g: int|
                        {
                            &&& #[trigger] self.is_leaf_node(g)
                            &&& lo0 <= self.span_lo(g)
                            &&& self.span_hi(g) <= hi0
                            &&& self.span_lo(g) == cut.0
                            &&& self.span_hi(g) == cut.1
                        } implies #[trigger] leaf_cuts(
                    old(self).points@,
                    lo0,
                    hi0,
                    cap0,
                ).contains(cut) by {
                    let g = choose|g: int|
                        {
                            &&& #[trigger] self.is_leaf_node(g)
                            &&& lo0 <= self.span_lo(g)
                            &&& self.span_hi(g) <= hi0
                            &&& self.span_lo(g) == cut.0
                            &&& self.span_hi(g) == cut.1
                        };
                    if !self.leaf_within_capacity(g) {
                        assert(work@.contains(g as usize));
                        assert(false);
                    }
                    assert(leaf_cuts(old(self).points@, self.span_lo(g), self.span_hi(g),
                        cap0) == set![(self.span_lo(g), self.span_hi(g))]);
                    assert(leaf_cuts(old(self).points@, self.span_lo(g), self.span_hi(g),
                        cap0).contains(cut));
                }
                assert(self.leaves_realize_cuts(old(self).points@, lo0, hi0, cap0));
            }
        }
    }

    /// Descend from the root to the leaf whose position matches
    /// `timestamp`: at an internal node go `less` when the split
    /// timestamp exceeds the query, `more` otherwise. The index must
    /// have been built; looking up in an empty arena is a fatal
    /// contract violation.
    pub fn lookup_in_index(&self, timestamp: i64) -> (r: Option<usize>)
        requires
            self.well_formed(),
            self.index_built(),
        ensures
            match r {
                Some(h) => self.routed_leaf(h as int, timestamp as int),
                None => false,
            },
    {
        let mut node_index: usize = 0;
        loop
            invariant
                self.well_formed(),
                self.index_built(),
                self.valid_node(node_index as int),
                forall|i: int| 0 <= i < self.span_lo(node_index as int)
                    ==> (#[trigger] self.points@[i]).timestamp <= timestamp,
                forall|i: int| self.span_hi(node_index as int) <= i < self.n()
                    ==> (#[trigger] self.points@[i]).timestamp > timestamp,
            decreases self.num_nodes() - node_index,
        {
            proof {
                assert(self.node_ok(node_index as int));
            }
            match self.index[node_index].timestamp {
                Some(node_timestamp) => {
                    if node_timestamp > timestamp {
                        node_index = self.index[node_index].less;
                    } else {
                        node_index = self.index[node_index].more;
                    }
                },
                None => {
                    return Some(node_index);
                },
            }
        }
    }

    /// The leaf immediately before the given leaf in timestamp order,
    /// or nothing when the leaf is the leftmost of the whole tree.
    /// Walk up until the path came out of a `more` link, then descend
    /// `more`-ward through the sibling subtree all the way to a leaf.
    pub fn get_node_less_than(&self, node_index: usize) -> (r: Option<usize>)
        requires
            self.well_formed(),
            self.index_built(),
            self.is_leaf_node(node_index as int),
        ensures
            match r {
                Some(g) => self.is_leaf_node(g as int)
                    && self.span_hi(g as int) == self.span_lo(node_index as int)
                    && self.span_lo(g as int) < self.span_hi(g as int),
                None => self.span_lo(node_index as int) == 0,
            },
    {
        let mut cur: usize = node_index;
        while cur != 0
            invariant
                self.well_formed(),
                self.index_built(),
                self.valid_node(cur as int),
                self.valid_node(node_index as int),
                self.span_lo(cur as int) == self.span_lo(node_index as int),
            decreases cur,
        {
            proof {
                assert(self.node_ok(cur as int));
            }
            let p = self.index[cur].parent;
            proof {
                assert(self.node_ok(p as int));
            }
            if self.index[p].more == cur {
                let mut d = self.index[p].less;
                loop
                    invariant
                        self.well_formed(),
                        self.valid_node(d as int),
                        self.valid_node(node_index as int),
                        self.span_hi(d as int) == self.span_lo(node_index as int),
                        self.span_lo(d as int) < self.span_hi(d as int),
                    decreases self.num_nodes() - d,
                {
                    proof {
                        assert(self.node_ok(d as int));
                    }
                    match self.index[d].timestamp {
                        Some(_) => {
                            d = self.index[d].more;
                        },
                        None => {
                            return Some(d);
                        },
                    }
                }
            }
            cur = p;
        }
        proof {
            assert(self.node_ok(0));
        }
        None
    }

    /// The leaf immediately after the given leaf in timestamp order, or
    /// nothing when the leaf is the rightmost of the whole tree. Mirror
    /// of `get_node_less_than`: walk up until the path came out of a
    /// `less` link, then descend `less`-ward to a leaf.
    pub fn get_node_more_than(&self, node_index: usize) -> (r: Option<usize>)
        requires
            self.well_formed(),
            self.index_built(),
            self.is_leaf_node(node_index as int),
        ensures
            match r {
                Some(g) => self.is_leaf_node(g as int)
                    && self.span_lo(g as int) == self.span_hi(node_index as int)
                    && self.span_lo(g as int) < self.span_hi(g as int),
                None => self.span_hi(node_index as int) == self.n(),
            },
    {
        let mut cur: usize = node_index;
        while cur != 0
            invariant
                self.well_formed(),
                self.index_built(),
                self.valid_node(cur as int),
                self.valid_node(node_index as int),
                self.span_hi(cur as int) == self.span_hi(node_index as int),
            decreases cur,
        {
            proof {
                assert(self.node_ok(cur as int));
            }
            let p = self.index[cur].parent;
            proof {
                assert(self.node_ok(p as int));
            }
            if self.index[p].less == cur {
                let mut d = self.index[p].more;
                loop
                    invariant
                        self.well_formed(),
                        self.valid_node(d as int),
                        self.valid_node(node_index as int),
                        self.span_lo(d as int) == self.span_hi(node_index as int),
                        self.span_lo(d as int) < self.span_hi(d as int),
                    decreases self.num_nodes() - d,
                {
                    proof {
                        assert(self.node_ok(d as int));
                    }
                    match self.index[d].timestamp {
                        Some(_) => {
                            d = self.index[d].less;
                        },
                        None => {
                            return Some(d);
                        },
                    }
                }
            }
            cur = p;
        }
        proof {
            assert(self.node_ok(0));
        }
        None
    }

    /// `g` is the leaf whose span ends where `h`'s begins: it holds the
    /// samples immediately before `h`'s.
    pub open spec fn adjacent_before(self, h: int, g: int) -> bool {
        &&& self.is_leaf_node(g)
        &&& self.span_hi(g) == self.span_lo(h)
        &&& self.span_lo(g) < self.span_hi(g)
    }

    /// `g` is the leaf whose span begins where `h`'s ends.
    pub open spec fn adjacent_after(self, h: int, g: int) -> bool {
        &&& self.is_leaf_node(g)
        &&& self.span_lo(g) == self.span_hi(h)
        &&& self.span_lo(g) < self.span_hi(g)
    }

    /// At most one nonempty leaf ends at a given position.
    proof fn lemma_adjacent_before_unique(self, h: int, g1: int, g2: int)
        requires
            self.well_formed(),
            self.adjacent_before(h, g1),
            self.adjacent_before(h, g2),
        ensures
            g1 == g2,
    {
    }

    /// At most one nonempty leaf begins at a given position.
    proof fn lemma_adjacent_after_unique(self, h: int, g1: int, g2: int)
        requires
            self.well_formed(),
            self.adjacent_after(h, g1),
            self.adjacent_after(h, g2),
        ensures
            g1 == g2,
    {
    }

    /// What query resolution answers from the routed leaf `h` under an
    /// optional projection: nothing when the projected leaf is empty;
    /// before the projected run, interpolation against the adjacent
    /// leaf's projected last sample (or nothing when no samples
    /// precede); after the projected run, interpolation against the
    /// adjacent leaf's projected first sample, with the last value held
    /// constant when nothing follows; inside the run, the bracketing
    /// pair, exact on a sample's own timestamp.
    pub open spec fn leaf_value_at(self, h: int, t: int, p: Option<Projection>) -> Option<
        int,
    > {
        let d = projected_data_opt(p, self.node(h).leaf_data());
        if d.len() == 0 {
            None
        } else if t < d[0].timestamp {
            if exists|g: int| self.adjacent_before(h, g) {
                let g = choose|g: int| self.adjacent_before(h, g);
                let d2 = projected_data_opt(p, self.node(g).leaf_data());
                if d2.len() > 0 {
                    Some(interpolated_value(d2[d2.len() - 1], d[0], t))
                } else {
                    None
                }
            } else {
                None
            }
        } else if t > d[d.len() - 1].timestamp {
            if exists|g: int| self.adjacent_after(h, g) {
                let g = choose|g: int| self.adjacent_after(h, g);
                let d2 = projected_data_opt(p, self.node(g).leaf_data());
                if d2.len() > 0 {
                    Some(interpolated_value(d[d.len() - 1], d2[0], t))
                } else {
                    Some(d[d.len() - 1].value as int)
                }
            } else {
                Some(d[d.len() - 1].value as int)
            }
        } else {
            let j = last_le_index(d, t);
            if j == d.len() - 1 {
                Some(d[j].value as int)
            } else {
                Some(interpolated_value(d[j], d[j + 1], t))
            }
        }
    }

    /// If every sample of leaf `g` sits at or before `t`, so does every
    /// sample of any projected view of it.
    proof fn lemma_projected_ts_le(self, g: int, t: int, pv: Option<Projection>)
        requires
            self.well_formed(),
            self.is_leaf_node(g),
            forall|i: int| self.span_lo(g) <= i < self.span_hi(g)
                ==> (#[trigger] self.points@[i]).timestamp <= t,
        ensures
            forall|i: int| 0 <= i < projected_data_opt(pv, self.node(g).leaf_data()).len()
                ==> (#[trigger] projected_data_opt(pv, self.node(g).leaf_data())[i]).timestamp
                <= t,
    {
        assert(self.node_ok(g));
        let data = self.node(g).leaf_data();
        let mn = -(MAX_TIMESTAMP_MILLIS as int);
        assert forall|i: int| 0 <= i < data.len() implies mn <= (#[trigger] data[i]).timestamp
            && data[i].timestamp <= t by {
            assert(data[i] == self.points@[self.span_lo(g) + i]);
            assert(self.points@[self.span_lo(g) + i].timestamp_in_range());
        }
        match pv {
            None => {},
            Some(p) => {
                if data.len() > 0 && !window_excludes(p, data) {
                    lemma_operations_keep_ts_bounds(p.operations@, data, mn, t);
                }
            },
        }
    }

    /// If every sample of leaf `g` sits strictly after `t`, so does
    /// every sample of any projected view of it.
    proof fn lemma_projected_ts_gt(self, g: int, t: int, pv: Option<Projection>)
        requires
            self.well_formed(),
            self.is_leaf_node(g),
            forall|i: int| self.span_lo(g) <= i < self.span_hi(g)
                ==> (#[trigger] self.points@[i]).timestamp > t,
        ensures
            forall|i: int| 0 <= i < projected_data_opt(pv, self.node(g).leaf_data()).len()
                ==> (#[trigger] projected_data_opt(pv, self.node(g).leaf_data())[i]).timestamp
                > t,
    {
        assert(self.node_ok(g));
        let data = self.node(g).leaf_data();
        let mx = MAX_TIMESTAMP_MILLIS as int;
        assert forall|i: int| 0 <= i < data.len() implies t + 1 <= (
        #[trigger] data[i]).timestamp && data[i].timestamp <= mx by {
            assert(data[i] == self.points@[self.span_lo(g) + i]);
            assert(self.points@[self.span_lo(g) + i].timestamp_in_range());
        }
        match pv {
            None => {},
            Some(p) => {
                if data.len() > 0 && !window_excludes(p, data) {
                    lemma_operations_keep_ts_bounds(p.operations@, data, t + 1, mx);
                }
            },
        }
    }

    /// The value of the series at `timestamp`, resolved through the
    /// index: descend to the routed leaf, project it, and interpolate
    /// inside it or against its adjacent leaves as `leaf_value_at`
    /// prescribes. Without a projection the answer is exactly the flat
    /// linear scan's (`scan_value`), for every series and every query.
    #[verifier::rlimit(100)]
    pub fn get_value_projection(&self, timestamp: i64, projection: Option<&Projection>) -> (r:
        Option<i64>)
        requires
            self.well_formed(),
            self.index_built(),
            match projection {
                Some(p) => p.wf(),
                None => true,
            },
        ensures
            exists|hh: int|
                #![trigger self.routed_leaf(hh, timestamp as int)]
                self.routed_leaf(hh, timestamp as int) && value_option_as_int(r)
                    == self.leaf_value_at(
                    hh,
                    timestamp as int,
                    as_projection_opt(projection),
                ),
            projection is None ==> value_option_as_int(r) == scan_value(
                self.points@,
                timestamp as int,
            ),
    {
        let ghost t = timestamp as int;
        let ghost pv = as_projection_opt(projection);
        let node_index = match self.lookup_in_index(timestamp) {
            Some(found) => found,
            None => {
                return None;
            },
        };
        let ghost h = node_index as int;
        let ghost lo = self.span_lo(h);
        let ghost hi = self.span_hi(h);
        proof {
            assert(self.node_ok(h));
        }
        let mut disposable = ProjectionDisposable::new();
        let view = self.project_index_node(node_index, projection, &mut disposable);
        let ghost d = projected_data_opt(pv, self.node(h).leaf_data());
        let view_data = match view.data {
            Some(vd) => vd,
            None => {
                proof {
                    assert(false);
                }
                Vec::new()
            },
        };
        proof {
            assert(view_data@ == d);
            assert(self.node(h).leaf_data() == self.points@.subrange(lo, hi));
        }
        if view_data.len() == 0 {
            proof {
                if projection is None {
                    assert(self.node(h).leaf_data().len() == 0);
                    assert(lo == 0 && hi == 0 && h == 0);
                    assert(self.n() == 0);
                }
                assert(self.routed_leaf(h, t) && value_option_as_int(None::<i64>)
                    == self.leaf_value_at(h, t, pv));
            }
            return None;
        }
        if timestamp < view_data[0].timestamp {
            // the query precedes the projected run: bracket against the
            // previous leaf
            match self.get_node_less_than(node_index) {
                Some(g) => {
                    let ghost gi = g as int;
                    proof {
                        assert(self.node_ok(gi));
                        assert(self.adjacent_before(h, gi));
                        assert(self.node(gi).leaf_data() == self.points@.subrange(
                            self.span_lo(gi),
                            lo,
                        ));
                    }
                    let view2 = self.project_index_node(g, projection, &mut disposable);
                    let ghost d2 = projected_data_opt(pv, self.node(gi).leaf_data());
                    let view2_data = match view2.data {
                        Some(vd) => vd,
                        None => {
                            proof {
                                assert(false);
                            }
                            Vec::new()
                        },
                    };
                    proof {
                        assert(view2_data@ == d2);
                        assert forall|i: int| self.span_lo(gi) <= i < lo implies (
                        #[trigger] self.points@[i]).timestamp <= t by {
                            assert(0 <= i < lo);
                        }
                        self.lemma_projected_ts_le(gi, t, pv);
                        let gg = choose|g0: int| self.adjacent_before(h, g0);
                        self.lemma_adjacent_before_unique(h, gg, gi);
                    }
                    if view2_data.len() > 0 {
                        let smaller = view2_data[view2_data.len() - 1];
                        let larger = view_data[0];
                        let value = self.interpolate_between_points(
                            timestamp,
                            &smaller,
                            &larger,
                        );
                        proof {
                            if projection is None {
                                assert(smaller == self.points@[lo - 1]);
                                assert(larger == self.points@[lo]);
                                assert(self.points@[0].timestamp <= t);
                                assert forall|jx: int| lo - 1 < jx < self.n() implies (
                                #[trigger] self.points@[jx]).timestamp > t by {
                                    if jx < hi {
                                        assert(self.points@[lo].timestamp
                                            <= self.points@[jx].timestamp);
                                        assert(self.points@[lo] == d[0]);
                                    }
                                }
                                lemma_last_le_index_of(self.points@, t, lo - 1);
                            }
                            assert(self.routed_leaf(h, t) && value_option_as_int(
                                Some(value),
                            ) == self.leaf_value_at(h, t, pv));
                        }
                        Some(value)
                    } else {
                        proof {
                            if projection is None {
                                assert(d2.len() == lo - self.span_lo(gi));
                                assert(false);
                            }
                            assert(self.routed_leaf(h, t) && value_option_as_int(
                                None::<i64>,
                            ) == self.leaf_value_at(h, t, pv));
                        }
                        None
                    }
                },
                None => {
                    proof {
                        assert(lo == 0);
                        assert forall|g0: int| !self.adjacent_before(h, g0) by {
                            if self.adjacent_before(h, g0) {
                                assert(self.node_ok(g0));
                            }
                        }
                        if projection is None {
                            assert(d[0] == self.points@[0]);
                        }
                        assert(self.routed_leaf(h, t) && value_option_as_int(None::<i64>)
                            == self.leaf_value_at(h, t, pv));
                    }
                    None
                },
            }
        } else if timestamp > view_data[view_data.len() - 1].timestamp {
            // the query follows the projected run: bracket against the
            // next leaf, or hold the last value
            let ghost last_value = view_data@[view_data@.len() - 1].value;
            match self.get_node_more_than(node_index) {
                Some(g) => {
                    let ghost gi = g as int;
                    proof {
                        assert(self.node_ok(gi));
                        assert(self.adjacent_after(h, gi));
                        assert(self.node(gi).leaf_data() == self.points@.subrange(
                            hi,
                            self.span_hi(gi),
                        ));
                    }
                    let view2 = self.project_index_node(g, projection, &mut disposable);
                    let ghost d2 = projected_data_opt(pv, self.node(gi).leaf_data());
                    let view2_data = match view2.data {
                        Some(vd) => vd,
                        None => {
                            proof {
                                assert(false);
                            }
                            Vec::new()
                        },
                    };
                    proof {
                        assert(view2_data@ == d2);
                        assert forall|i: int| hi <= i < self.span_hi(gi) implies (
                        #[trigger] self.points@[i]).timestamp > t by {
                            assert(hi <= i < self.n());
                        }
                        self.lemma_projected_ts_gt(gi, t, pv);
                        let gg = choose|g0: int| self.adjacent_after(h, g0);
                        self.lemma_adjacent_after_unique(h, gg, gi);
                    }
                    if view2_data.len() > 0 {
                        let smaller = view_data[view_data.len() - 1];
                        let larger = view2_data[0];
                        let value = self.interpolate_between_points(
                            timestamp,
                            &smaller,
                            &larger,
                        );
                        proof {
                            if projection is None {
                                assert(smaller == self.points@[hi - 1]);
                                assert(larger == self.points@[hi]);
                                assert(self.points@[0].timestamp <= smaller.timestamp);
                                assert forall|jx: int| hi - 1 < jx < self.n() implies (
                                #[trigger] self.points@[jx]).timestamp > t by {}
                                lemma_last_le_index_of(self.points@, t, hi - 1);
                            }
                            assert(self.routed_leaf(h, t) && value_option_as_int(
                                Some(value),
                            ) == self.leaf_value_at(h, t, pv));
                        }
                        Some(value)
                    } else {
                        let result = view_data[view_data.len() - 1].value;
                        proof {
                            if projection is None {
                                assert(d2.len() == self.span_hi(gi) - hi);
                                assert(false);
                            }
                            assert(self.routed_leaf(h, t) && value_option_as_int(
                                Some(result),
                            ) == self.leaf_value_at(h, t, pv));
                        }
                        Some(result)
                    }
                },
                None => {
                    let result = view_data[view_data.len() - 1].value;
                    proof {
                        assert(hi == self.n());
                        assert forall|g0: int| !self.adjacent_after(h, g0) by {
                            if self.adjacent_after(h, g0) {
                                assert(self.node_ok(g0));
                            }
                        }
                        if projection is None {
                            assert(d[d.len() - 1] == self.points@[hi - 1]);
                            assert(self.points@[0].timestamp <= self.points@[hi
                                - 1].timestamp);
                            assert forall|jx: int| hi - 1 < jx < self.n() implies (
                            #[trigger] self.points@[jx]).timestamp > t by {}
                            lemma_last_le_index_of(self.points@, t, hi - 1);
                        }
                        assert(self.routed_leaf(h, t) && value_option_as_int(Some(result))
                            == self.leaf_value_at(h, t, pv));
                    }
                    Some(result)
                },
            }
        } else {
            // the query lies inside the projected run: scan it for the
            // bracketing pair
            let mut jj: usize = view_data.len();
            while jj > 0 && view_data[jj - 1].timestamp > timestamp
                invariant
                    jj <= view_data@.len(),
                    forall|k: int| jj <= k < view_data@.len()
                        ==> (#[trigger] view_data@[k]).timestamp > timestamp,
                decreases jj,
            {
                jj = jj - 1;
            }
            proof {
                assert(view_data@[0].timestamp <= timestamp);
                assert(jj > 0);
            }
            let j = jj - 1;
            proof {
                lemma_last_le_index_of(d, t, j as int);
            }
            if j == view_data.len() - 1 {
                let result = view_data[j].value;
                proof {
                    if projection is None {
                        assert(d[j as int].timestamp <= t);
                        assert(t <= d[d.len() - 1].timestamp);
                        assert(t == self.points@[hi - 1].timestamp);
                        assert(self.points@[0].timestamp <= t);
                        assert forall|jx: int| hi - 1 < jx < self.n() implies (
                        #[trigger] self.points@[jx]).timestamp > t by {}
                        lemma_last_le_index_of(self.points@, t, hi - 1);
                        if hi < self.n() {
                            lemma_interpolated_value_exact(
                                self.points@[hi - 1],
                                self.points@[hi],
                            );
                        }
                    }
                    assert(self.routed_leaf(h, t) && value_option_as_int(Some(result))
                        == self.leaf_value_at(h, t, pv));
                }
                Some(result)
            } else {
                let smaller = view_data[j];
                let larger = view_data[j + 1];
                let value = self.interpolate_between_points(timestamp, &smaller, &larger);
                proof {
                    if projection is None {
                        assert(smaller == self.points@[lo + j]);
                        assert(larger == self.points@[lo + j + 1]);
                        assert(self.points@[0].timestamp <= t);
                        assert forall|jx: int| lo + j < jx < self.n() implies (
                        #[trigger] self.points@[jx]).timestamp > t by {
                            if jx < hi {
                                assert(self.points@[jx] == d[jx - lo]);
                            }
                        }
                        lemma_last_le_index_of(self.points@, t, lo + j);
                    }
                    assert(self.routed_leaf(h, t) && value_option_as_int(Some(value))
                        == self.leaf_value_at(h, t, pv));
                }
                Some(value)
            }
        }
    }

    /// The value at `timestamp`: exactly what the flat scan reference
    /// answers, found through the index.
    pub fn get_value(&self, timestamp: i64) -> (r: Option<i64>)
        requires
            self.well_formed(),
            self.index_built(),
        ensures
            value_option_as_int(r) == scan_value(self.points@, timestamp as int),
    {
        self.get_value_projection(timestamp, None)
    }

    /// Build the index over the sample sequence: push a single root
    /// leaf holding every sample, then split it down to capacity.
    pub fn build_index(&mut self)
        requires
            old(self).pre_build(),
        ensures
            final(self).well_formed(),
            final(self).index_built(),
            final(self).points == old(self).points,
            final(self).max_index_node_capacity == old(self).max_index_node_capacity,
            final(self).leaves_realize_cuts(
                old(self).points@,
                0,
                old(self).points@.len() as int,
                old(self).max_index_node_capacity as int,
            ),
    {
        let root_data = copy_points(&self.points, 0, self.points.len());
        self.index.push(
            PointIndex {
                timestamp: None,
                less: 0,
                more: 0,
                parent: 0,
                data: Some(root_data),
            },
        );
        self.spans = Ghost(
            Map::<int, (int, int)>::empty().insert(0, (0, self.points@.len() as int)),
        );
        proof {
            assert(self.node(0).leaf_data() =~= self.points@.subrange(0, self.n()));
            assert(self.leaf_node_ok(0));
            assert forall|h: int| self.valid_node(h) implies #[trigger] self.node_ok(h) by {
                assert(h == 0);
            }
            assert(self.structure_ok());
        }
        let ghost mid = *self;
        self.rebalance_index_node(0);
        proof {
            let pts = old(self).points@;
            let n = pts.len() as int;
            let cap = old(self).max_index_node_capacity as int;
            if mid.rebalance_is_noop(0) {
                // the whole series fits one leaf: a single cut
                assert(*self == mid);
                assert(self.node(0).leaf_data() == pts.subrange(0, n));
                assert(n <= cap);
                assert(leaf_cuts(pts, 0, n, cap) == set![(0int, n)]);
                assert forall|cut: (int, int)| #[trigger] leaf_cuts(pts, 0, n, cap).contains(
                    cut,
                ) implies exists|g: int|
                    {
                        &&& #[trigger] self.is_leaf_node(g)
                        &&& 0 <= self.span_lo(g)
                        &&& self.span_hi(g) <= n
                        &&& self.span_lo(g) == cut.0
                        &&& self.span_hi(g) == cut.1
                    } by {
                    assert(self.is_leaf_node(0) && 0 <= self.span_lo(0) && self.span_hi(0)
                        <= n && self.span_lo(0) == cut.0 && self.span_hi(0) == cut.1);
                }
                assert forall|cut: (int, int)|
                    exists|g: int|
                        {
                            &&& #[trigger] self.is_leaf_node(g)
                            &&& 0 <= self.span_lo(g)
                            &&& self.span_hi(g) <= n
                            &&& self.span_lo(g) == cut.0
                            &&& self.span_hi(g) == cut.1
                        } implies #[trigger] leaf_cuts(pts, 0, n, cap).contains(cut) by {
                    let g = choose|g: int|
                        {
                            &&& #[trigger] self.is_leaf_node(g)
                            &&& 0 <= self.span_lo(g)
                            &&& self.span_hi(g) <= n
                            &&& self.span_lo(g) == cut.0
                            &&& self.span_hi(g) == cut.1
                        };
                    assert(g == 0);
                }
                assert(self.leaves_realize_cuts(pts, 0, n, cap));
            } else {
                assert(mid.span_lo(0) == 0 && mid.span_hi(0) == n);
                assert(self.leaves_realize_cuts(pts, 0, n, cap));
            }
        }
    }
}

} // verus!
