//! The store's guarantees, stated and proved once and for all: query
//! exactness at sample timestamps, the boundary behaviours, the
//! adjacency structure of the leaves, and the capacity bound.

use vstd::prelude::*;
use crate::point::Point;
use crate::chart::Chart;
use crate::chart::points_sorted;
use crate::chart::scan_value;
use crate::chart::lemma_last_le_index_of;
use crate::chart::lemma_interpolated_value_exact;

verus! {

/// Querying at a sample's own timestamp returns exactly that sample's
/// value, with no drift, for any series and any sample that is the
/// last one carrying its timestamp. (With duplicate
/// timestamps the store answers with the last duplicate's value, so
/// earlier duplicates are excluded here.) `get_value` and
/// `get_value_vec` both answer `scan_value`.
pub proof fn lemma_value_at_sample_timestamp(points: Seq<Point>, i: int)
    requires
        points_sorted(points),
        0 <= i < points.len(),
        forall|j: int| i < j < points.len()
            ==> (#[trigger] points[j]).timestamp > points[i].timestamp,
    ensures
        scan_value(points, points[i].timestamp as int) == Some(points[i].value as int),
{
    let t = points[i].timestamp as int;
    assert(points[0].timestamp <= points[i].timestamp);
    lemma_last_le_index_of(points, t, i);
    if i < points.len() - 1 {
        assert(points[i].timestamp < points[i + 1].timestamp);
        lemma_interpolated_value_exact(points[i], points[i + 1]);
    }
}

/// Querying after the last sample returns the last sample's value
/// unchanged: the store holds the final value constant forward and
/// never extrapolates.
pub proof fn lemma_forward_hold(points: Seq<Point>, t: int)
    requires
        points_sorted(points),
        points.len() > 0,
        t > points[points.len() - 1].timestamp,
    ensures
        scan_value(points, t) == Some(points[points.len() - 1].value as int),
{
    assert(points[0].timestamp <= points[points.len() - 1].timestamp);
    lemma_last_le_index_of(points, t, points.len() - 1);
}

/// Querying before the first sample (or an empty series) returns no
/// value.
pub proof fn lemma_no_value_before_first(points: Seq<Point>, t: int)
    requires
        points.len() == 0 || t < points[0].timestamp,
    ensures
        scan_value(points, t) is None,
{
}

/// Sibling discovery is its own inverse: when a leaf has a predecessor
/// (a leaf ending where it starts, as `get_node_less_than` returns it),
/// the successor of that predecessor (as `get_node_more_than` returns
/// it) is the original leaf again.
pub proof fn lemma_sibling_round_trip(c: Chart, h: int, g: int, h2: int)
    requires
        c.well_formed(),
        c.is_leaf_node(h),
        c.adjacent_before(h, g),
        c.adjacent_after(g, h2),
    ensures
        h2 == h,
{
    assert(c.node_ok(h));
    assert(c.node_ok(g));
    assert(c.span_lo(h) == c.span_hi(g) > c.span_lo(g) >= 0);
    assert(c.span_lo(h) < c.span_hi(h));
    assert(c.is_leaf_node(h) && c.is_leaf_node(h2));
    if h2 != h {
        assert(c.span_hi(h) <= c.span_lo(h2) || c.span_hi(h2) <= c.span_lo(h));
        assert(false);
    }
}

/// The handles of `hs` walk the leaves left to right: each is a leaf,
/// the first starts at the beginning of the series, each subsequent one
/// starts where its predecessor ends (as repeated `get_node_more_than`
/// yields them), and the last ends at the end of the series.
pub open spec fn leaf_chain(c: Chart, hs: Seq<int>) -> bool {
    &&& hs.len() > 0
    &&& (forall|i: int| 0 <= i < hs.len() ==> c.is_leaf_node(#[trigger] hs[i]))
    &&& c.span_lo(hs[0]) == 0
    &&& c.span_hi(hs[hs.len() - 1]) == c.n()
    &&& (forall|i: int| 0 < i < hs.len()
        ==> c.span_lo(#[trigger] hs[i]) == c.span_hi(hs[i - 1]))
}

/// The samples of the chain's leaves, concatenated left to right.
pub open spec fn chain_data(c: Chart, hs: Seq<int>) -> Seq<Point>
    decreases hs.len(),
{
    if hs.len() == 0 {
        Seq::empty()
    } else {
        chain_data(c, hs.drop_last()) + c.node(hs[hs.len() - 1]).leaf_data()
    }
}

/// Adjacent leaves concatenate to the exact slice of the series their
/// spans cover: a chain of leaves walked left to right from anywhere —
/// in particular, the leaves beneath one rebalanced node — reproduces
/// that part of the sample sequence with nothing lost, duplicated or
/// reordered.
pub proof fn lemma_leaf_chain_spans_range(c: Chart, hs: Seq<int>)
    requires
        c.well_formed(),
        hs.len() > 0,
        forall|i: int| 0 <= i < hs.len() ==> c.is_leaf_node(#[trigger] hs[i]),
        forall|i: int| 0 < i < hs.len()
            ==> c.span_lo(#[trigger] hs[i]) == c.span_hi(hs[i - 1]),
    ensures
        c.span_lo(hs[0]) <= c.span_hi(hs[hs.len() - 1]),
        chain_data(c, hs) =~= c.points@.subrange(
            c.span_lo(hs[0]),
            c.span_hi(hs[hs.len() - 1]),
        ),
    decreases hs.len(),
{
    let last = hs[hs.len() - 1];
    assert(c.node_ok(last));
    assert(c.node_ok(hs[0]));
    assert(chain_data(c, hs) == chain_data(c, hs.drop_last()) + c.node(last).leaf_data());
    if hs.len() == 1 {
        assert(hs.drop_last().len() == 0);
        assert(chain_data(c, hs.drop_last()) == Seq::<Point>::empty());
        assert(c.node(last).leaf_data() == c.points@.subrange(
            c.span_lo(last),
            c.span_hi(last),
        ));
    } else {
        let prefix = hs.drop_last();
        assert(forall|i: int| 0 <= i < prefix.len() ==> prefix[i] == hs[i]);
        lemma_leaf_chain_spans_range(c, prefix);
        let m = c.span_hi(prefix[prefix.len() - 1]);
        assert(c.span_lo(last) == m);
        assert(c.node(last).leaf_data() == c.points@.subrange(m, c.span_hi(last)));
        assert(0 <= c.span_lo(hs[0]) <= m <= c.span_hi(last) <= c.n());
    }
}

/// Walking all leaves left to right via repeated sibling discovery
/// reproduces the original sample sequence exactly.
pub proof fn lemma_leaf_chain_concat(c: Chart, hs: Seq<int>)
    requires
        c.well_formed(),
        leaf_chain(c, hs),
    ensures
        chain_data(c, hs) == c.points@,
{
    lemma_leaf_chain_spans_range(c, hs);
    assert(c.points@.subrange(0, c.n()) =~= c.points@);
}

/// After `build_index` with capacity `C`, every leaf holds at most `C`
/// samples.
pub proof fn lemma_leaf_capacity_bound(c: Chart, h: int)
    requires
        c.well_formed(),
        c.is_leaf_node(h),
    ensures
        c.node(h).leaf_data().len() <= c.max_index_node_capacity,
{
    assert(c.node_ok(h));
}

} // verus!
