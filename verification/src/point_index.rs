//! One node of the index arena: either an internal split node or a leaf
//! holding a contiguous, time-ordered run of samples.

use vstd::prelude::*;
use crate::point::Point;

verus! {

/// An arena node. Exactly one of `timestamp` and `data` is present: an
/// internal node carries the split timestamp and routes queries through
/// `less`/`more`; a leaf carries sample data. `parent` is the arena
/// position of the node's parent; the root (always position 0) refers to
/// itself.
#[derive(Debug, Clone, PartialEq)]
pub struct PointIndex {
    pub timestamp: Option<i64>,
    pub less: usize,
    pub more: usize,
    pub parent: usize,
    pub data: Option<Vec<Point>>,
}

impl PointIndex {
    /// The node is a leaf: no split timestamp.
    pub open spec fn is_leaf(self) -> bool {
        self.timestamp is None
    }

    /// The samples a leaf holds, as a sequence (empty for internal nodes).
    pub open spec fn leaf_data(self) -> Seq<Point> {
        match self.data {
            Some(d) => d@,
            None => Seq::empty(),
        }
    }

    /// The split timestamp of an internal node (zero on leaves, which
    /// have none).
    pub open spec fn split_timestamp(self) -> i64 {
        match self.timestamp {
            Some(t) => t,
            None => 0,
        }
    }

    /// `other` agrees with this node on everything the query paths
    /// observe: kind, links, and leaf contents.
    pub open spec fn same_view(self, other: PointIndex) -> bool {
        &&& self.timestamp == other.timestamp
        &&& self.less == other.less
        &&& self.more == other.more
        &&& self.parent == other.parent
        &&& (self.data is Some <==> other.data is Some)
        &&& self.leaf_data() == other.leaf_data()
    }

    /// Copy a node, deep-copying its leaf data.
    pub fn duplicate(&self) -> (r: PointIndex)
        ensures
            r.same_view(*self),
    {
        let data = match &self.data {
            Some(d) => Some(crate::point::copy_points(d, 0, d.len())),
            None => None,
        };
        proof {
            if self.data is Some {
                assert(self.leaf_data() =~= match data {
                    Some(d) => d@,
                    None => Seq::empty(),
                });
            }
        }
        PointIndex {
            timestamp: self.timestamp,
            less: self.less,
            more: self.more,
            parent: self.parent,
            data,
        }
    }

    /// The placeholder node a projection substitutes for leaves it
    /// excludes: a leaf with no samples.
    pub fn new_default_value() -> (n: PointIndex)
        ensures
            n.is_leaf(),
            n.data is Some,
            n.leaf_data() == Seq::<Point>::empty(),
    {
        PointIndex {
            timestamp: None,
            less: 0,
            more: 0,
            parent: 0,
            data: Some(Vec::new()),
        }
    }
}

} // verus!
