//! Read-only projections: a time window plus an ordered list of
//! per-node transform operations, applied lazily while a query
//! traverses the index. Projected nodes are never written back into the
//! arena; they are materialized into a disposable side table owned by
//! the projection invocation, so the base index is never mutated.

use vstd::prelude::*;
use crate::point::Point;
use crate::point_index::PointIndex;
use crate::chart::Chart;

verus! {

/// A pure per-sample transform a map operation applies. Transforms
/// change values only; timestamps pass through untouched.
#[derive(Debug, Clone, Copy, PartialEq, Eq, Structural)]
pub enum PointTransform {
    /// Replace every sample's value by the given one.
    SetValue(i64),
    /// Add the given amount to every sample's value, saturating at the
    /// ends of the value range.
    AddValue(i64),
}

/// A pure per-sample predicate a filter operation applies.
#[derive(Debug, Clone, Copy, PartialEq, Eq, Structural)]
pub enum PointPredicate {
    /// Keep samples whose value is at least the given one.
    ValueAtLeast(i64),
    /// Keep samples whose value is at most the given one.
    ValueAtMost(i64),
}

/// The kind of a projection operation.
#[derive(Debug, Clone, Copy, PartialEq, Eq, Structural)]
pub enum ProjectionOperationKind {
    /// Transform every sample of the visited leaf.
    Transform(PointTransform),
    /// Keep only the samples the predicate accepts.
    Filter(PointPredicate),
}

/// Clamp an unbounded value into the representable value range.
pub open spec fn saturate_value(x: int) -> i64 {
    if x > i64::MAX {
        i64::MAX
    } else if x < i64::MIN {
        i64::MIN
    } else {
        x as i64
    }
}

/// What a transform does to one sample.
pub open spec fn transform_point(t: PointTransform, p: Point) -> Point {
    match t {
        PointTransform::SetValue(v) => Point { value: v, timestamp: p.timestamp },
        PointTransform::AddValue(k) => Point {
            value: saturate_value(p.value + k),
            timestamp: p.timestamp,
        },
    }
}

/// Whether a predicate keeps one sample.
pub open spec fn point_passes(pr: PointPredicate, p: Point) -> bool {
    match pr {
        PointPredicate::ValueAtLeast(v) => p.value >= v,
        PointPredicate::ValueAtMost(v) => p.value <= v,
    }
}

/// The transform, as a function value on samples.
pub open spec fn transform_fn(t: PointTransform) -> spec_fn(Point) -> Point {
    |p: Point| transform_point(t, p)
}

/// The predicate, as a function value on samples.
pub open spec fn filter_fn(pr: PointPredicate) -> spec_fn(Point) -> bool {
    |p: Point| point_passes(pr, p)
}

/// One step of the operation pipeline over a leaf's samples.
pub open spec fn apply_operation_spec(op: ProjectionOperation, d: Seq<Point>) -> Seq<Point> {
    match op.kind {
        ProjectionOperationKind::Transform(t) => d.map_values(transform_fn(t)),
        ProjectionOperationKind::Filter(pr) => d.filter(filter_fn(pr)),
    }
}

/// The whole pipeline, applied left to right.
pub open spec fn apply_operations_spec(ops: Seq<ProjectionOperation>, d: Seq<Point>) -> Seq<
    Point,
>
    decreases ops.len(),
{
    if ops.len() == 0 {
        d
    } else {
        apply_operations_spec(ops.drop_first(), apply_operation_spec(ops[0], d))
    }
}

/// The side table a projection invocation owns: replacement nodes
/// materialized while operations run, so the read-only base index is
/// never touched.
pub struct ProjectionDisposable {
    pub nodes: Vec<PointIndex>,
}

impl ProjectionDisposable {
    /// An empty side table.
    pub fn new() -> (d: ProjectionDisposable)
        ensures
            d.nodes@.len() == 0,
    {
        ProjectionDisposable { nodes: Vec::new() }
    }

    /// Register a materialized node; returns its table position.
    pub fn add(&mut self, point: PointIndex) -> (i: usize)
        ensures
            final(self).nodes@ == old(self).nodes@.push(point),
            i as int == old(self).nodes@.len(),
    {
        self.nodes.push(point);
        self.nodes.len() - 1
    }

    /// Read a registered node back.
    pub fn get(&self, index: usize) -> (r: &PointIndex)
        requires
            index < self.nodes@.len(),
        ensures
            *r == self.nodes@[index as int],
    {
        &self.nodes[index]
    }
}

/// What an operation asked the traversal to do with the visited node:
/// keep it unchanged, replace it by the side-table node at `index`, or
/// delete it from the view altogether.
#[derive(Debug, Clone, Copy, PartialEq, Eq, Structural)]
pub enum ProjectionAction {
    Keep,
    Replace,
    Delete,
}

/// An operation's verdict on one node.
pub struct ProjectionOperationResult {
    pub action: ProjectionAction,
    pub index: Option<usize>,
}

impl ProjectionOperationResult {
    /// The node passes through unchanged.
    pub fn keep() -> (r: ProjectionOperationResult)
        ensures
            r.action == ProjectionAction::Keep,
            r.index is None,
    {
        ProjectionOperationResult { action: ProjectionAction::Keep, index: None }
    }

    /// The node is replaced by the side-table entry at `index`.
    pub fn replace(index: usize) -> (r: ProjectionOperationResult)
        ensures
            r.action == ProjectionAction::Replace,
            r.index == Some(index),
    {
        ProjectionOperationResult { action: ProjectionAction::Replace, index: Some(index) }
    }

    /// The node leaves the view; remaining operations are skipped.
    pub fn delete() -> (r: ProjectionOperationResult)
        ensures
            r.action == ProjectionAction::Delete,
            r.index is None,
    {
        ProjectionOperationResult { action: ProjectionAction::Delete, index: None }
    }
}

/// The accumulator a traversal threads through the operation pipeline:
/// either an owned copy of the original node, or a position in the
/// disposable side table.
pub struct ProjectionOperationNode {
    pub node: Option<PointIndex>,
    pub index: usize,
}

impl ProjectionOperationNode {
    /// The node this accumulator currently denotes.
    pub open spec fn spec_value(self, disposable: ProjectionDisposable) -> PointIndex {
        match self.node {
            Some(n) => n,
            None => disposable.nodes@[self.index as int],
        }
    }

    /// In table mode, the accumulator's position must exist.
    pub open spec fn valid_for(self, disposable: ProjectionDisposable) -> bool {
        self.node is None ==> self.index < disposable.nodes@.len()
    }

    /// Start from a copy of the original node.
    pub fn new(point_index: &PointIndex) -> (s: ProjectionOperationNode)
        ensures
            s.node is Some,
            forall|d: ProjectionDisposable| (#[trigger] s.spec_value(d)).same_view(*point_index),
    {
        ProjectionOperationNode { node: Some(point_index.duplicate()), index: 0 }
    }

    /// Switch to the side-table entry at `index`.
    pub fn update_index(&mut self, index: usize)
        ensures
            final(self).node is None,
            final(self).index == index,
    {
        self.node = None;
        self.index = index;
    }

    /// Read the denoted node out (copying it).
    pub fn value(&self, disposable: &ProjectionDisposable) -> (r: PointIndex)
        requires
            self.valid_for(*disposable),
        ensures
            r.same_view(self.spec_value(*disposable)),
    {
        match &self.node {
            Some(n) => n.duplicate(),
            None => disposable.get(self.index).duplicate(),
        }
    }
}

/// One operation of a projection pipeline.
pub struct ProjectionOperation {
    pub kind: ProjectionOperationKind,
}

impl ProjectionOperation {
    /// Run this operation over one node's samples. A map that changes
    /// nothing reports `keep` (no allocation); one that changes a
    /// sample materializes the transformed leaf into the side table and
    /// reports `replace`. A filter that drops every sample reports
    /// `delete`; one that drops some reports `replace`; one that drops
    /// none reports `keep`. Internal nodes (no data) always pass
    /// through.
    pub fn apply(&self, node: &PointIndex, disposable: &mut ProjectionDisposable) -> (res:
        ProjectionOperationResult)
        ensures
            old(disposable).nodes@.is_prefix_of(final(disposable).nodes@),
            node.data is None ==> res.action == ProjectionAction::Keep
                && final(disposable).nodes@ == old(disposable).nodes@,
            node.data is Some ==> {
                let out = apply_operation_spec(*self, node.leaf_data());
                &&& (res.action == ProjectionAction::Keep <==> out == node.leaf_data())
                &&& (res.action == ProjectionAction::Delete <==> out.len() == 0 && out
                    != node.leaf_data())
                &&& (res.action == ProjectionAction::Replace <==> out != node.leaf_data()
                    && out.len() > 0)
                &&& (res.action == ProjectionAction::Keep ==> out == node.leaf_data()
                    && final(disposable).nodes@ == old(disposable).nodes@)
                &&& (res.action == ProjectionAction::Delete ==> out.len() == 0
                    && final(disposable).nodes@ == old(disposable).nodes@)
                &&& (res.action == ProjectionAction::Replace ==> {
                    &&& final(disposable).nodes@.len() == old(disposable).nodes@.len() + 1
                    &&& (res.index matches Some(i) && i as int == old(disposable).nodes@.len())
                    &&& final(disposable).nodes@.last().is_leaf()
                    &&& final(disposable).nodes@.last().data is Some
                    &&& final(disposable).nodes@.last().leaf_data() == out
                })
            },
    {
        match &node.data {
            Some(d) => {
                match self.kind {
                    ProjectionOperationKind::Transform(t) => {
                        let ghost f = transform_fn(t);
                        let mut results: Vec<Point> = Vec::new();
                        let mut identical = true;
                        let mut i: usize = 0;
                        while i < d.len()
                            invariant
                                i <= d.len(),
                                d@ == node.leaf_data(),
                                results@.len() == i as int,
                                forall|j: int| 0 <= j < i as int
                                    ==> results@[j] == transform_point(t, d@[j]),
                                identical ==> (forall|j: int| 0 <= j < i as int
                                    ==> results@[j] == d@[j]),
                                !identical ==> (exists|j: int|
                                    0 <= j < i as int && results@[j] != d@[j]),
                            decreases d.len() - i,
                        {
                            let q = apply_transform(t, &d[i]);
                            if q != d[i] {
                                identical = false;
                            }
                            results.push(q);
                            i = i + 1;
                        }
                        proof {
                            assert(forall|j: int| 0 <= j < d@.len()
                                ==> #[trigger] f(d@[j]) == transform_point(t, d@[j]));
                            assert(results@ =~= node.leaf_data().map_values(f));
                        }
                        if identical {
                            proof {
                                assert(apply_operation_spec(*self, node.leaf_data())
                                    =~= node.leaf_data());
                            }
                            ProjectionOperationResult::keep()
                        } else {
                            proof {
                                let j = choose|j: int|
                                    0 <= j < d@.len() && results@[j] != d@[j];
                                assert(apply_operation_spec(*self, node.leaf_data())[j]
                                    == results@[j]);
                            }
                            let pt = PointIndex {
                                timestamp: None,
                                less: node.less,
                                more: node.more,
                                parent: node.parent,
                                data: Some(results),
                            };
                            ProjectionOperationResult::replace(disposable.add(pt))
                        }
                    },
                    ProjectionOperationKind::Filter(pr) => {
                        let ghost f = filter_fn(pr);
                        let mut kept: Vec<Point> = Vec::new();
                        let mut all_kept = true;
                        let mut i: usize = 0;
                        while i < d.len()
                            invariant
                                i <= d.len(),
                                d@ == node.leaf_data(),
                                f == filter_fn(pr),
                                kept@ == d@.subrange(0, i as int).filter(f),
                                kept@.len() <= i as int,
                                all_kept ==> kept@ == d@.subrange(0, i as int),
                                !all_kept ==> kept@.len() < i as int,
                            decreases d.len() - i,
                        {
                            let ghost pre = d@.subrange(0, i as int);
                            proof {
                                assert(f(d@[i as int]) == point_passes(pr, d@[i as int]));
                                assert(d@.subrange(0, i as int + 1) =~= pre.push(d@[i as int]));
                                pre.lemma_filter_push(d@[i as int], f);
                            }
                            if apply_predicate(pr, &d[i]) {
                                kept.push(d[i]);
                            } else {
                                all_kept = false;
                            }
                            i = i + 1;
                            proof {
                                if all_kept {
                                    assert(kept@ =~= d@.subrange(0, i as int));
                                }
                            }
                        }
                        proof {
                            assert(d@.subrange(0, d@.len() as int) =~= d@);
                        }
                        if all_kept {
                            ProjectionOperationResult::keep()
                        } else if kept.len() == 0 {
                            ProjectionOperationResult::delete()
                        } else {
                            let pt = PointIndex {
                                timestamp: None,
                                less: node.less,
                                more: node.more,
                                parent: node.parent,
                                data: Some(kept),
                            };
                            ProjectionOperationResult::replace(disposable.add(pt))
                        }
                    },
                }
            },
            None => {
                // no data: not a leaf, the operation passes it through
                ProjectionOperationResult::keep()
            },
        }
    }
}

/// Run a transform on one sample.
fn apply_transform(t: PointTransform, p: &Point) -> (q: Point)
    ensures
        q == transform_point(t, *p),
{
    match t {
        PointTransform::SetValue(v) => Point { value: v, timestamp: p.timestamp },
        PointTransform::AddValue(k) => {
            let value = if k >= 0 {
                if p.value > i64::MAX - k {
                    i64::MAX
                } else {
                    p.value + k
                }
            } else {
                if p.value < i64::MIN - k {
                    i64::MIN
                } else {
                    p.value + k
                }
            };
            Point { value, timestamp: p.timestamp }
        },
    }
}

/// Evaluate a predicate on one sample.
fn apply_predicate(pr: PointPredicate, p: &Point) -> (b: bool)
    ensures
        b == point_passes(pr, *p),
{
    match pr {
        PointPredicate::ValueAtLeast(v) => p.value >= v,
        PointPredicate::ValueAtMost(v) => p.value <= v,
    }
}

/// A read-only, windowed and transformed view over the index: leaves
/// whose run leaves the `[start_time, end_time]` window are replaced by
/// `default_value` (an empty leaf), and the operations run left to
/// right over every leaf the window keeps.
pub struct Projection {
    pub operations: Vec<ProjectionOperation>,
    pub start_time: i64,
    pub end_time: i64,
    pub default_value: PointIndex,
}

impl Projection {
    /// The sentinel really is an empty leaf.
    pub open spec fn wf(self) -> bool {
        &&& self.default_value.is_leaf()
        &&& self.default_value.data is Some
        &&& self.default_value.leaf_data() == Seq::<Point>::empty()
    }

    /// A projection over the given window with the given pipeline.
    pub fn new(
        start_time: i64,
        end_time: i64,
        operations: Vec<ProjectionOperation>,
    ) -> (p: Projection)
        ensures
            p.wf(),
            p.start_time == start_time,
            p.end_time == end_time,
            p.operations == operations,
            p.default_value.is_leaf(),
            p.default_value.leaf_data() == Seq::<Point>::empty(),
    {
        Projection {
            operations,
            start_time,
            end_time,
            default_value: PointIndex::new_default_value(),
        }
    }
}

/// The window drops this leaf: its run starts before the window or ends
/// after it (coarse, per-leaf exclusion — no per-sample trimming).
pub open spec fn window_excludes(p: Projection, d: Seq<Point>) -> bool {
    d.len() > 0 && (d[0].timestamp < p.start_time || d[d.len() - 1].timestamp > p.end_time)
}

/// What a projection leaves of a leaf's samples: empty data and
/// internal nodes pass through, out-of-window leaves become empty, and
/// the operation pipeline runs over everything else.
pub open spec fn projected_leaf_data(p: Projection, d: Seq<Point>) -> Seq<Point> {
    if d.len() == 0 {
        d
    } else if window_excludes(p, d) {
        Seq::empty()
    } else {
        apply_operations_spec(p.operations@, d)
    }
}

/// An optional projection argument, as a spec value.
pub open spec fn as_projection_opt(p: Option<&Projection>) -> Option<Projection> {
    match p {
        Some(q) => Some(*q),
        None => None,
    }
}

/// A leaf's samples under an optional projection.
pub open spec fn projected_data_opt(p: Option<Projection>, d: Seq<Point>) -> Seq<Point> {
    match p {
        Some(p) => projected_leaf_data(p, d),
        None => d,
    }
}

impl Chart {
    /// A projection of this chart for the given window and pipeline.
    pub fn new_projection(
        &self,
        start_time: i64,
        end_time: i64,
        operations: Vec<ProjectionOperation>,
    ) -> (p: Projection)
        ensures
            p.wf(),
            p.start_time == start_time,
            p.end_time == end_time,
            p.operations == operations,
    {
        Projection::new(start_time, end_time, operations)
    }

    /// The node at `node_index`, as the given projection sees it: the
    /// node itself when there is no projection or the node is internal;
    /// the projection's empty sentinel when the window or a delete
    /// drops the leaf; otherwise the leaf with the pipeline's output as
    /// its samples.
    pub fn project_index_node(
        &self,
        node_index: usize,
        projection: Option<&Projection>,
        disposable: &mut ProjectionDisposable,
    ) -> (r: PointIndex)
        requires
            self.valid_node(node_index as int),
            self.node(node_index as int).is_leaf() <==> self.node(
                node_index as int,
            ).data is Some,
            match projection {
                Some(p) => p.wf(),
                None => true,
            },
        ensures
            old(disposable).nodes@.is_prefix_of(final(disposable).nodes@),
            match projection {
                None => final(disposable).nodes@ == old(disposable).nodes@,
                Some(p) => (!self.node(node_index as int).is_leaf()
                    || self.node(node_index as int).leaf_data().len() == 0
                    || window_excludes(*p, self.node(node_index as int).leaf_data()))
                    ==> final(disposable).nodes@ == old(disposable).nodes@,
            },
            match projection {
                None => r.same_view(self.node(node_index as int)),
                Some(p) => {
                    if self.node(node_index as int).is_leaf() {
                        &&& r.is_leaf()
                        &&& r.data is Some
                        &&& r.leaf_data() == projected_leaf_data(
                            *p,
                            self.node(node_index as int).leaf_data(),
                        )
                    } else {
                        r.same_view(self.node(node_index as int))
                    }
                },
            },
    {
        let node = &self.index[node_index];
        proof {
            lemma_seq_prefix_reflexive(disposable.nodes@);
        }
        let proj = match projection {
            None => {
                return node.duplicate();
            },
            Some(p) => p,
        };
        let node_data_len = match &node.data {
            Some(d) => d.len(),
            None => {
                // internal node: projections only affect leaf contents
                return node.duplicate();
            },
        };
        if node_data_len == 0 {
            // nothing to window or transform
            return node.duplicate();
        }
        let first_ts = match &node.data {
            Some(d) => d[0].timestamp,
            None => 0,
        };
        let last_ts = match &node.data {
            Some(d) => d[node_data_len - 1].timestamp,
            None => 0,
        };
        if first_ts < proj.start_time || last_ts > proj.end_time {
            return proj.default_value.duplicate();
        }
        let mut accumulator = ProjectionOperationNode::new(node);
        proof {
            assert(proj.operations@.subrange(0, 0)
                =~= Seq::<ProjectionOperation>::empty());
            assert(proj.operations@.subrange(0, proj.operations@.len() as int)
                =~= proj.operations@);
        }
        let mut oi: usize = 0;
        while oi < proj.operations.len()
            invariant
                old(disposable).nodes@.is_prefix_of(disposable.nodes@),
                projection == Some(proj),
                self.node(node_index as int).leaf_data().len() > 0,
                !window_excludes(*proj, self.node(node_index as int).leaf_data()),
                self.valid_node(node_index as int),
                self.node(node_index as int).is_leaf(),
                projected_leaf_data(*proj, self.node(node_index as int).leaf_data())
                    == apply_operations_spec(
                    proj.operations@,
                    self.node(node_index as int).leaf_data(),
                ),
                oi <= proj.operations@.len(),
                accumulator.valid_for(*disposable),
                accumulator.spec_value(*disposable).is_leaf(),
                accumulator.spec_value(*disposable).data is Some,
                accumulator.spec_value(*disposable).leaf_data() == apply_operations_spec(
                    proj.operations@.subrange(0, oi as int),
                    self.node(node_index as int).leaf_data(),
                ),
                apply_operations_spec(
                    proj.operations@,
                    self.node(node_index as int).leaf_data(),
                ) == apply_operations_spec(
                    proj.operations@.subrange(oi as int, proj.operations@.len() as int),
                    accumulator.spec_value(*disposable).leaf_data(),
                ),
                proj.wf(),
            decreases proj.operations@.len() - oi,
        {
            let ghost pre = accumulator.spec_value(*disposable);
            let ghost table_pre = disposable.nodes@;
            let ghost rest = proj.operations@.subrange(
                oi as int,
                proj.operations@.len() as int,
            );
            let current = accumulator.value(disposable);
            let op = &proj.operations[oi];
            let res = op.apply(&current, disposable);
            proof {
                lemma_seq_prefix_transitive(
                    old(disposable).nodes@,
                    table_pre,
                    disposable.nodes@,
                );
                assert(rest[0] == proj.operations@[oi as int]);
                assert(rest.drop_first() =~= proj.operations@.subrange(
                    oi as int + 1,
                    proj.operations@.len() as int,
                ));
                assert(current.leaf_data() == pre.leaf_data());
                assert(apply_operations_spec(rest, pre.leaf_data())
                    == apply_operations_spec(
                    rest.drop_first(),
                    apply_operation_spec(rest[0], pre.leaf_data()),
                ));
                let upto = proj.operations@.subrange(0, oi as int + 1);
                assert(upto.drop_last() =~= proj.operations@.subrange(0, oi as int));
                assert(upto.last() == proj.operations@[oi as int]);
                lemma_apply_operations_snoc(
                    upto,
                    self.node(node_index as int).leaf_data(),
                );
            }
            match res.action {
                ProjectionAction::Keep => {},
                ProjectionAction::Replace => {
                    match res.index {
                        Some(idx) => {
                            accumulator.update_index(idx);
                        },
                        None => {},
                    }
                },
                ProjectionAction::Delete => {
                    proof {
                        lemma_apply_operations_on_empty(rest.drop_first());
                        assert(apply_operation_spec(*op, pre.leaf_data()).len() == 0);
                        assert(apply_operation_spec(*op, pre.leaf_data()) =~= Seq::<
                            Point,
                        >::empty());
                        assert(apply_operations_spec(
                            proj.operations@,
                            self.node(node_index as int).leaf_data(),
                        ) =~= Seq::<Point>::empty());
                    }
                    return proj.default_value.duplicate();
                },
            }
            oi = oi + 1;
        }
        proof {
            assert(proj.operations@.subrange(0, proj.operations@.len() as int)
                =~= proj.operations@);
        }
        let out = accumulator.value(disposable);
        out
    }
}

/// Filtering keeps every element inside any timestamp bounds of the
/// input.
proof fn lemma_filter_keeps_ts_bounds(d: Seq<Point>, f: spec_fn(Point) -> bool, mn: int, mx: int)
    requires
        forall|i: int| 0 <= i < d.len() ==> mn <= (#[trigger] d[i]).timestamp
            && d[i].timestamp <= mx,
    ensures
        forall|i: int| 0 <= i < d.filter(f).len() ==> mn <= (#[trigger] d.filter(f)[i]).timestamp
            && d.filter(f)[i].timestamp <= mx,
    decreases d.len(),
{
    reveal(Seq::filter);
    if d.len() > 0 {
        let prefix = d.drop_last();
        assert(forall|i: int| 0 <= i < prefix.len() ==> mn <= (#[trigger] prefix[i]).timestamp
            && prefix[i].timestamp <= mx) by {
            assert(forall|i: int| 0 <= i < prefix.len() ==> prefix[i] == d[i]);
        }
        lemma_filter_keeps_ts_bounds(prefix, f, mn, mx);
        assert(mn <= d.last().timestamp <= mx);
        let sub = prefix.filter(f);
        assert(d.filter(f) == if f(d.last()) {
            sub.push(d.last())
        } else {
            sub
        });
        assert forall|i: int| 0 <= i < d.filter(f).len() implies
            mn <= (#[trigger] d.filter(f)[i]).timestamp && d.filter(f)[i].timestamp <= mx by {
            if f(d.last()) && i == d.filter(f).len() - 1 {
                assert(d.filter(f)[i] == d.last());
            } else {
                assert(d.filter(f)[i] == sub[i]);
            }
        }
    }
}

/// The pipeline never moves a sample's timestamp outside the bounds of
/// the data it started from: transforms keep timestamps, filters keep
/// subsets.
pub(crate) proof fn lemma_operations_keep_ts_bounds(
    ops: Seq<ProjectionOperation>,
    d: Seq<Point>,
    mn: int,
    mx: int,
)
    requires
        forall|i: int| 0 <= i < d.len() ==> mn <= (#[trigger] d[i]).timestamp
            && d[i].timestamp <= mx,
    ensures
        forall|i: int| 0 <= i < apply_operations_spec(ops, d).len()
            ==> mn <= (#[trigger] apply_operations_spec(ops, d)[i]).timestamp
            && apply_operations_spec(ops, d)[i].timestamp <= mx,
    decreases ops.len(),
{
    if ops.len() > 0 {
        let out0 = apply_operation_spec(ops[0], d);
        assert forall|i: int| 0 <= i < out0.len() implies mn <= (#[trigger] out0[i]).timestamp
            && out0[i].timestamp <= mx by {
            match ops[0].kind {
                ProjectionOperationKind::Transform(t) => {
                    assert(out0[i] == transform_fn(t)(d[i]));
                    assert(transform_fn(t)(d[i]).timestamp == d[i].timestamp);
                },
                ProjectionOperationKind::Filter(pr) => {
                    lemma_filter_keeps_ts_bounds(d, filter_fn(pr), mn, mx);
                },
            }
        }
        lemma_operations_keep_ts_bounds(ops.drop_first(), out0, mn, mx);
        assert(apply_operations_spec(ops, d) == apply_operations_spec(ops.drop_first(), out0));
    }
}

/// A sequence is a prefix of itself.
proof fn lemma_seq_prefix_reflexive(a: Seq<PointIndex>)
    ensures
        a.is_prefix_of(a),
{
    assert(a.subrange(0, a.len() as int) =~= a);
}

/// Being a prefix carries over prefixes of prefixes.
proof fn lemma_seq_prefix_transitive(a: Seq<PointIndex>, b: Seq<PointIndex>, c: Seq<PointIndex>)
    requires
        a.is_prefix_of(b),
        b.is_prefix_of(c),
    ensures
        a.is_prefix_of(c),
{
    assert forall|i: int| 0 <= i < a.len() implies a[i] == c.subrange(0, a.len() as int)[i] by {
        assert(a[i] == b.subrange(0, a.len() as int)[i]);
        assert(b[i] == c.subrange(0, b.len() as int)[i]);
    }
    assert(a =~= c.subrange(0, a.len() as int));
}

/// Splitting the pipeline after its last operation.
proof fn lemma_apply_operations_snoc(ops: Seq<ProjectionOperation>, d: Seq<Point>)
    requires
        ops.len() > 0,
    ensures
        apply_operations_spec(ops, d) == apply_operation_spec(
            ops.last(),
            apply_operations_spec(ops.drop_last(), d),
        ),
    decreases ops.len(),
{
    let step = apply_operation_spec(ops[0], d);
    assert(apply_operations_spec(ops, d) == apply_operations_spec(ops.drop_first(), step));
    if ops.len() == 1 {
        assert(ops.drop_last() =~= Seq::<ProjectionOperation>::empty());
        assert(ops.drop_first() =~= Seq::<ProjectionOperation>::empty());
        assert(apply_operations_spec(ops.drop_first(), step) == step);
        assert(apply_operations_spec(ops.drop_last(), d) == d);
    } else {
        let tail = ops.drop_first();
        lemma_apply_operations_snoc(tail, step);
        assert(tail.drop_last() =~= ops.drop_last().drop_first());
        assert(ops.drop_last()[0] == ops[0]);
        assert(tail.last() == ops.last());
        assert(ops.drop_last().len() > 0);
        assert(apply_operations_spec(ops.drop_last(), d) == apply_operations_spec(
            ops.drop_last().drop_first(),
            apply_operation_spec(ops.drop_last()[0], d),
        ));
    }
}

/// Every operation sends no samples to no samples.
proof fn lemma_apply_operations_on_empty(ops: Seq<ProjectionOperation>)
    ensures
        apply_operations_spec(ops, Seq::<Point>::empty()).len() == 0,
    decreases ops.len(),
{
    if ops.len() > 0 {
        let e = Seq::<Point>::empty();
        assert(apply_operation_spec(ops[0], e) =~= e) by {
            match ops[0].kind {
                ProjectionOperationKind::Transform(t) => {},
                ProjectionOperationKind::Filter(pr) => {
                    assert(e.filter(filter_fn(pr)) =~= e);
                },
            }
        }
        lemma_apply_operations_on_empty(ops.drop_first());
    }
}

} // verus!
