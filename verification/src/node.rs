//! The recursive element of the quadtree: a node is either a bucket, an
//! unordered list of `(point, value)` entries, or a branch with exactly four
//! children indexed by quadrant. A bucket that overflows while depth remains
//! is subdivided in place; a branch forwards every insertion to the child
//! picked by the quadrant rule.

use crate::geometry::{quadrant, quadrant_pred, spec_child_center, spec_quadrant, Point};
use vstd::multiset::Multiset;
use vstd::prelude::*;

verus! {

broadcast use vstd::seq_lib::group_to_multiset_ensures;

/// A quadtree node. `Bucket` is a leaf holding entries; `Branch` is an
/// internal node whose children cover the four quadrants of its region.
/// The only transition is one-way: a bucket subdivides into a branch.
pub enum Node<T> {
    Bucket { center: Point, data: Vec<(Point, T)> },
    Branch {
        center: Point,
        c0: Box<Node<T>>,
        c1: Box<Node<T>>,
        c2: Box<Node<T>>,
        c3: Box<Node<T>>,
    },
}

impl<T> Node<T> {
    /// The pivot point that the quadrant rule classifies against.
    pub open spec fn center(self) -> Point {
        match self {
            Node::Bucket { center, .. } => center,
            Node::Branch { center, .. } => center,
        }
    }

    /// The `q`-th child of a branch.
    pub open spec fn child(self, q: int) -> Node<T>
        recommends
            self is Branch,
            0 <= q < 4,
    {
        match self {
            Node::Branch { c0, c1, c2, c3, .. } => {
                if q == 0 {
                    *c0
                } else if q == 1 {
                    *c1
                } else if q == 2 {
                    *c2
                } else {
                    *c3
                }
            },
            Node::Bucket { .. } => self,
        }
    }

    /// All entries stored in the subtree, as a multiset: buckets are
    /// unordered and a branch holds nothing of its own.
    pub open spec fn entries(self) -> Multiset<(Point, T)>
        decreases self,
    {
        match self {
            Node::Bucket { data, .. } => data@.to_multiset(),
            Node::Branch { c0, c1, c2, c3, .. } => c0.entries().add(c1.entries()).add(
                c2.entries(),
            ).add(c3.entries()),
        }
    }

    /// The number of nodes in the subtree, this node included.
    pub open spec fn nodes(self) -> nat
        decreases self,
    {
        match self {
            Node::Bucket { .. } => 1,
            Node::Branch { c0, c1, c2, c3, .. } => 1 + c0.nodes() + c1.nodes() + c2.nodes()
                + c3.nodes(),
        }
    }

    /// The number of buckets (leaves) in the subtree.
    pub open spec fn leaves(self) -> nat
        decreases self,
    {
        match self {
            Node::Bucket { .. } => 1,
            Node::Branch { c0, c1, c2, c3, .. } => c0.leaves() + c1.leaves() + c2.leaves()
                + c3.leaves(),
        }
    }

    /// The number of branches (internal nodes) in the subtree.
    pub open spec fn branches(self) -> nat
        decreases self,
    {
        match self {
            Node::Bucket { .. } => 0,
            Node::Branch { c0, c1, c2, c3, .. } => 1 + c0.branches() + c1.branches()
                + c2.branches() + c3.branches(),
        }
    }

    /// Whether pushing `e` into the subtree rooted here, with this node at
    /// `depth`, ends in a subdivision: the descent lands in the bucket on
    /// `e`'s path, and that bucket subdivides exactly when the entry brings
    /// it past `cap` while its depth is still below `dmax`.
    pub open spec fn splits_on(self, e: (Point, T), depth: int, dmax: int, cap: int) -> bool
        decreases self,
    {
        match self {
            Node::Bucket { data, .. } => data@.len() + 1 > cap && depth < dmax,
            Node::Branch { center, c0, c1, c2, c3 } => {
                let q = spec_quadrant(center, e.0);
                if q == 0 {
                    c0.splits_on(e, depth + 1, dmax, cap)
                } else if q == 1 {
                    c1.splits_on(e, depth + 1, dmax, cap)
                } else if q == 2 {
                    c2.splits_on(e, depth + 1, dmax, cap)
                } else {
                    c3.splits_on(e, depth + 1, dmax, cap)
                }
            },
        }
    }

    /// Depth bound: every chain of branches below this node is shorter than
    /// `left`, so with `left` subdivisions allowed no bucket sits deeper.
    pub open spec fn depth_ok(self, left: int) -> bool
        decreases self,
    {
        match self {
            Node::Bucket { .. } => true,
            Node::Branch { c0, c1, c2, c3, .. } => left >= 1 && c0.depth_ok(left - 1)
                && c1.depth_ok(left - 1) && c2.depth_ok(left - 1) && c3.depth_ok(left - 1),
        }
    }

    /// Capacity bound for a node sitting at `depth`: a bucket above the depth
    /// limit holds at most `cap + depth` entries. The slack of one per level
    /// is what a pathological cluster can leave behind: a subdivision may
    /// hand a whole overflowing bucket to a single child.
    pub open spec fn cap_ok(self, cap: int, depth: int, dmax: int) -> bool
        decreases self,
    {
        match self {
            Node::Bucket { data, .. } => depth < dmax ==> data@.len() <= cap + depth,
            Node::Branch { c0, c1, c2, c3, .. } => c0.cap_ok(cap, depth + 1, dmax) && c1.cap_ok(
                cap,
                depth + 1,
                dmax,
            ) && c2.cap_ok(cap, depth + 1, dmax) && c3.cap_ok(cap, depth + 1, dmax),
        }
    }

    /// Geometry of the subtree under child-center offsets `(dx, dy)`: the
    /// center stays far enough from the representable edge that one
    /// subdivision cannot overflow, the children of a branch sit exactly at
    /// the offsets the subdivision rule assigns, and the offsets halve at
    /// each level.
    pub open spec fn centers_ok(self, dx: int, dy: int) -> bool
        decreases self,
    {
        &&& dx >= 0
        &&& dy >= 0
        &&& self.center().0 - 2 * dx >= i64::MIN
        &&& self.center().0 + 2 * dx <= i64::MAX
        &&& self.center().1 - 2 * dy >= i64::MIN
        &&& self.center().1 + 2 * dy <= i64::MAX
        &&& match self {
            Node::Bucket { .. } => true,
            Node::Branch { center, c0, c1, c2, c3 } => {
                &&& forall|q: int|
                    0 <= q < 4 ==> (#[trigger] self.child(q)).center().0 == spec_child_center(
                        center,
                        dx,
                        dy,
                        q,
                    ).0 && self.child(q).center().1 == spec_child_center(center, dx, dy, q).1
                &&& c0.centers_ok(dx / 2, dy / 2)
                &&& c1.centers_ok(dx / 2, dy / 2)
                &&& c2.centers_ok(dx / 2, dy / 2)
                &&& c3.centers_ok(dx / 2, dy / 2)
            },
        }
    }

    /// Locality: every entry below a branch lies in the child that the
    /// quadrant rule picks for its point, at every level. Replaying the rule
    /// on a stored point from the root therefore retraces exactly the path
    /// to the bucket that holds it.
    pub open spec fn routed(self) -> bool
        decreases self,
    {
        match self {
            Node::Bucket { .. } => true,
            Node::Branch { center, c0, c1, c2, c3 } => {
                &&& forall|q: int, e: (Point, T)|
                    0 <= q < 4 && (#[trigger] self.child(q).entries().contains(e))
                        ==> spec_quadrant(center, e.0) == q
                &&& c0.routed()
                &&& c1.routed()
                &&& c2.routed()
                &&& c3.routed()
            },
        }
    }

    /// Subdivision: consumes a bucket and returns a branch over four fresh
    /// buckets whose centers are offset from the parent's by `(dx, dy)`.
    /// Every entry moves to the child that the quadrant rule, applied
    /// against the parent center, picks for its point: child `q` receives
    /// exactly the entries of quadrant `q`, in an unspecified order, so the
    /// four children's sizes sum to the parent bucket's size and nothing is
    /// lost or duplicated.
    pub fn subdivide(self, dx: i64, dy: i64) -> (r: Node<T>)
        requires
            self is Bucket,
            dx >= 0,
            dy >= 0,
            self.center().0 - 2 * dx >= i64::MIN,
            self.center().0 + 2 * dx <= i64::MAX,
            self.center().1 - 2 * dy >= i64::MIN,
            self.center().1 + 2 * dy <= i64::MAX,
        ensures
            r is Branch,
            r.center() == self.center(),
            r.entries() == self.entries(),
            r.nodes() == 5,
            r.leaves() == 4,
            r.branches() == 1,
            r.centers_ok(dx as int, dy as int),
            r.routed(),
            forall|left: int| left >= 1 ==> #[trigger] r.depth_ok(left),
            forall|q: int|
                0 <= q < 4 ==> (#[trigger] r.child(q)).entries() == self.entries().filter(
                    quadrant_pred(self.center(), q),
                ),
            forall|q: int|
                0 <= q < 4 ==> ((#[trigger] r.child(q)) matches Node::Bucket { data: dq, .. }
                    && dq@.len() == r.child(q).entries().len()),
            r.child(0).entries().len() + r.child(1).entries().len() + r.child(2).entries().len()
                + r.child(3).entries().len() == self.entries().len(),
    {
        match self {
            Node::Branch { center, c0, c1, c2, c3 } => Node::Branch { center, c0, c1, c2, c3 },
            Node::Bucket { center, mut data } => {
                let ghost all = data@.to_multiset();
                let mut d0: Vec<(Point, T)> = Vec::new();
                let mut d1: Vec<(Point, T)> = Vec::new();
                let mut d2: Vec<(Point, T)> = Vec::new();
                let mut d3: Vec<(Point, T)> = Vec::new();
                while data.len() > 0
                    invariant
                        data@.to_multiset().add(d0@.to_multiset()).add(d1@.to_multiset()).add(
                            d2@.to_multiset(),
                        ).add(d3@.to_multiset()) == all,
                        forall|i: int|
                            0 <= i < d0@.len() ==> spec_quadrant(center, (#[trigger] d0@[i]).0)
                                == 0,
                        forall|i: int|
                            0 <= i < d1@.len() ==> spec_quadrant(center, (#[trigger] d1@[i]).0)
                                == 1,
                        forall|i: int|
                            0 <= i < d2@.len() ==> spec_quadrant(center, (#[trigger] d2@[i]).0)
                                == 2,
                        forall|i: int|
                            0 <= i < d3@.len() ==> spec_quadrant(center, (#[trigger] d3@[i]).0)
                                == 3,
                    decreases data@.len(),
                {
                    let ghost pre = data@;
                    let ghost pre0 = d0@;
                    let ghost pre1 = d1@;
                    let ghost pre2 = d2@;
                    let ghost pre3 = d3@;
                    let e = data.pop().unwrap();
                    proof {
                        assert(pre =~= data@.push(e));
                        assert(data@.push(e).to_multiset() == data@.to_multiset().insert(e));
                    }
                    let q = quadrant(center, e.0);
                    if q == 0 {
                        d0.push(e);
                        proof {
                            assert(pre0.push(e).to_multiset() == pre0.to_multiset().insert(e));
                            assert(data@.to_multiset().add(d0@.to_multiset()).add(
                                d1@.to_multiset(),
                            ).add(d2@.to_multiset()).add(d3@.to_multiset()) =~= all);
                        }
                    } else if q == 1 {
                        d1.push(e);
                        proof {
                            assert(pre1.push(e).to_multiset() == pre1.to_multiset().insert(e));
                            assert(data@.to_multiset().add(d0@.to_multiset()).add(
                                d1@.to_multiset(),
                            ).add(d2@.to_multiset()).add(d3@.to_multiset()) =~= all);
                        }
                    } else if q == 2 {
                        d2.push(e);
                        proof {
                            assert(pre2.push(e).to_multiset() == pre2.to_multiset().insert(e));
                            assert(data@.to_multiset().add(d0@.to_multiset()).add(
                                d1@.to_multiset(),
                            ).add(d2@.to_multiset()).add(d3@.to_multiset()) =~= all);
                        }
                    } else {
                        d3.push(e);
                        proof {
                            assert(pre3.push(e).to_multiset() == pre3.to_multiset().insert(e));
                            assert(data@.to_multiset().add(d0@.to_multiset()).add(
                                d1@.to_multiset(),
                            ).add(d2@.to_multiset()).add(d3@.to_multiset()) =~= all);
                        }
                    }
                }
                proof {
                    assert(data@.to_multiset().len() == 0);
                    vstd::multiset::lemma_multiset_empty_len::<(Point, T)>(data@.to_multiset());
                    assert(d0@.to_multiset().add(d1@.to_multiset()).add(d2@.to_multiset()).add(
                        d3@.to_multiset(),
                    ) =~= all);
                }
                let n0 = Node::Bucket { center: (center.0 - dx, center.1 - dy), data: d0 };
                let n1 = Node::Bucket { center: (center.0 + dx, center.1 - dy), data: d1 };
                let n2 = Node::Bucket { center: (center.0 - dx, center.1 + dy), data: d2 };
                let n3 = Node::Bucket { center: (center.0 + dx, center.1 + dy), data: d3 };
                proof {
                    assert(n0.entries() == d0@.to_multiset());
                    assert(n1.entries() == d1@.to_multiset());
                    assert(n2.entries() == d2@.to_multiset());
                    assert(n3.entries() == d3@.to_multiset());
                    assert(0 <= 2 * (dx as int / 2) <= dx as int);
                    assert(0 <= 2 * (dy as int / 2) <= dy as int);
                    assert(n0.centers_ok(dx as int / 2, dy as int / 2));
                    assert(n1.centers_ok(dx as int / 2, dy as int / 2));
                    assert(n2.centers_ok(dx as int / 2, dy as int / 2));
                    assert(n3.centers_ok(dx as int / 2, dy as int / 2));
                }
                let r = Node::Branch {
                    center,
                    c0: Box::new(n0),
                    c1: Box::new(n1),
                    c2: Box::new(n2),
                    c3: Box::new(n3),
                };
                proof {
                    lemma_filter_of_parts(center, all, d0@, d1@, d2@, d3@);
                    assert(r.child(0) == n0 && r.child(1) == n1 && r.child(2) == n2 && r.child(3)
                        == n3);
                    assert(n0.nodes() == 1 && n0.leaves() == 1 && n0.branches() == 0);
                    assert(n1.nodes() == 1 && n1.leaves() == 1 && n1.branches() == 0);
                    assert(n2.nodes() == 1 && n2.leaves() == 1 && n2.branches() == 0);
                    assert(n3.nodes() == 1 && n3.leaves() == 1 && n3.branches() == 0);
                    assert(n0.routed() && n1.routed() && n2.routed() && n3.routed());
                    assert(r.entries() =~= all);
                    assert forall|q: int, e: (Point, T)|
                        0 <= q < 4 && (#[trigger] r.child(q).entries().contains(e)) implies
                        spec_quadrant(center, e.0) == q by {
                        assert(r.child(q).entries() == all.filter(quadrant_pred::<T>(center, q)));
                        assert(all.filter(quadrant_pred::<T>(center, q)).count(e) > 0);
                    }
                    assert forall|left: int| left >= 1 implies #[trigger] r.depth_ok(left) by {
                        assert(n0.depth_ok(left - 1));
                        assert(n1.depth_ok(left - 1));
                        assert(n2.depth_ok(left - 1));
                        assert(n3.depth_ok(left - 1));
                    }
                    assert(r.centers_ok(dx as int, dy as int));
                }
                r
            },
        }
    }

    /// Descent: inserts `e` into the subtree rooted here, where this node
    /// sits at `depth` with child-center offsets `(dx, dy)`. A branch
    /// forwards to the child that the quadrant rule picks, halving the
    /// offsets. A bucket appends the entry and, when it has then grown past
    /// `cap` while `depth` is still below `dmax`, subdivides in place; at
    /// the depth limit it grows without bound instead. Exactly the new
    /// entry is added, every invariant is preserved, and at most one
    /// subdivision happens, so the node count grows by zero or four.
    pub fn push(self, e: (Point, T), depth: usize, dmax: usize, cap: usize, dx: i64, dy: i64) -> (r:
        Node<T>)
        requires
            depth <= dmax,
            self.depth_ok(dmax - depth),
            self.cap_ok(cap as int, depth as int, dmax as int),
            self.centers_ok(dx as int, dy as int),
            self.routed(),
        ensures
            r.depth_ok(dmax - depth),
            r.cap_ok(cap as int, depth as int, dmax as int),
            r.centers_ok(dx as int, dy as int),
            r.routed(),
            r.center() == self.center(),
            r.entries() == self.entries().insert(e),
            r.nodes() == (if self.splits_on(e, depth as int, dmax as int, cap as int) {
                self.nodes() + 4
            } else {
                self.nodes()
            }),
            self is Branch ==> r is Branch,
            self is Branch ==> forall|p: int|
                0 <= p < 4 && p != spec_quadrant(self.center(), e.0) ==> (#[trigger] r.child(p))
                    == self.child(p),
            self is Branch ==> r.child(spec_quadrant(self.center(), e.0)).entries() == self.child(
                spec_quadrant(self.center(), e.0),
            ).entries().insert(e),
            self is Bucket ==> (r is Bucket <==> !self.splits_on(
                e,
                depth as int,
                dmax as int,
                cap as int,
            )),
        decreases self,
    {
        match self {
            Node::Bucket { center, mut data } => {
                let ghost pre = data@;
                data.push(e);
                proof {
                    assert(pre.push(e).to_multiset() == pre.to_multiset().insert(e));
                }
                if data.len() > cap && depth < dmax {
                    let full = Node::Bucket { center, data };
                    proof {
                        assert(full.entries() == pre.to_multiset().insert(e));
                    }
                    let r = full.subdivide(dx, dy);
                    proof {
                        assert(r.cap_ok(cap as int, depth as int, dmax as int)) by {
                            assert forall|q: int| 0 <= q < 4 implies (#[trigger] r.child(
                                q,
                            )).cap_ok(cap as int, depth as int + 1, dmax as int) by {
                                assert(r.child(q).entries().len() <= full.entries().len());
                            }
                        }
                    }
                    r
                } else {
                    let r = Node::Bucket { center, data };
                    proof {
                        assert(r.entries() == pre.to_multiset().insert(e));
                    }
                    r
                }
            },
            Node::Branch { center, c0, c1, c2, c3 } => {
                let ghost whole = self;
                let q = quadrant(center, e.0);
                let dx2 = dx / 2;
                let dy2 = dy / 2;
                proof {
                    assert(0 <= 2 * (dx as int / 2) <= dx as int);
                    assert(0 <= 2 * (dy as int / 2) <= dy as int);
                }
                let r = if q == 0 {
                    let s0 = (*c0).push(e, depth + 1, dmax, cap, dx2, dy2);
                    Node::Branch { center, c0: Box::new(s0), c1, c2, c3 }
                } else if q == 1 {
                    let s1 = (*c1).push(e, depth + 1, dmax, cap, dx2, dy2);
                    Node::Branch { center, c0, c1: Box::new(s1), c2, c3 }
                } else if q == 2 {
                    let s2 = (*c2).push(e, depth + 1, dmax, cap, dx2, dy2);
                    Node::Branch { center, c0, c1, c2: Box::new(s2), c3 }
                } else {
                    let s3 = (*c3).push(e, depth + 1, dmax, cap, dx2, dy2);
                    Node::Branch { center, c0, c1, c2, c3: Box::new(s3) }
                };
                proof {
                    lemma_reassembled_branch(
                        whole,
                        r,
                        e,
                        spec_quadrant(center, e.0),
                        cap as int,
                        depth as int,
                        dmax as int,
                        dx as int,
                        dy as int,
                        dmax - depth,
                    );
                }
                r
            },
        }
    }

    /// The number of entries in the subtree, by pre-order traversal.
    pub fn count_entries(&self) -> (n: usize)
        requires
            self.entries().len() <= usize::MAX,
        ensures
            n == self.entries().len(),
        decreases self,
    {
        match self {
            Node::Bucket { data, .. } => data.len(),
            Node::Branch { c0, c1, c2, c3, .. } => {
                let n0 = c0.count_entries();
                let n1 = c1.count_entries();
                let n2 = c2.count_entries();
                let n3 = c3.count_entries();
                n0 + n1 + n2 + n3
            },
        }
    }

    /// The number of nodes in the subtree, by pre-order traversal.
    pub fn count_nodes(&self) -> (n: usize)
        requires
            self.nodes() <= usize::MAX,
        ensures
            n == self.nodes(),
        decreases self,
    {
        match self {
            Node::Bucket { .. } => 1,
            Node::Branch { c0, c1, c2, c3, .. } => {
                let n0 = c0.count_nodes();
                let n1 = c1.count_nodes();
                let n2 = c2.count_nodes();
                let n3 = c3.count_nodes();
                1 + n0 + n1 + n2 + n3
            },
        }
    }
}

/// A branch `b` that agrees with the branch `a` on three children, while its
/// remaining child — the one covering the entry's own quadrant `q` — took in
/// exactly the entry `e` and kept its center and every structural invariant,
/// is the branch `a` with `e` inserted, and keeps those invariants itself.
proof fn lemma_reassembled_branch<T>(
    a: Node<T>,
    b: Node<T>,
    e: (Point, T),
    q: int,
    cap: int,
    depth: int,
    dmax: int,
    dx: int,
    dy: int,
    left: int,
)
    requires
        a is Branch,
        b is Branch,
        b.center() == a.center(),
        0 <= q < 4,
        spec_quadrant(a.center(), e.0) == q,
        forall|p: int| 0 <= p < 4 && p != q ==> #[trigger] b.child(p) == a.child(p),
        b.child(q).center() == a.child(q).center(),
        b.child(q).entries() == a.child(q).entries().insert(e),
        b.child(q).nodes() == (if a.child(q).splits_on(e, depth + 1, dmax, cap) {
            a.child(q).nodes() + 4
        } else {
            a.child(q).nodes()
        }),
        a.depth_ok(left),
        a.cap_ok(cap, depth, dmax),
        a.centers_ok(dx, dy),
        a.routed(),
        b.child(q).depth_ok(left - 1),
        b.child(q).cap_ok(cap, depth + 1, dmax),
        b.child(q).centers_ok(dx / 2, dy / 2),
        b.child(q).routed(),
    ensures
        b.depth_ok(left),
        b.cap_ok(cap, depth, dmax),
        b.centers_ok(dx, dy),
        b.routed(),
        b.entries() == a.entries().insert(e),
        b.nodes() == (if a.splits_on(e, depth, dmax, cap) {
            a.nodes() + 4
        } else {
            a.nodes()
        }),
{
    assert(a.splits_on(e, depth, dmax, cap) == a.child(q).splits_on(e, depth + 1, dmax, cap));
    assert(a.entries() == a.child(0).entries().add(a.child(1).entries()).add(
        a.child(2).entries(),
    ).add(a.child(3).entries()));
    assert(b.entries() == b.child(0).entries().add(b.child(1).entries()).add(
        b.child(2).entries(),
    ).add(b.child(3).entries()));
    assert(b.entries() =~= a.entries().insert(e));
    assert(a.nodes() == 1 + a.child(0).nodes() + a.child(1).nodes() + a.child(2).nodes() + a.child(
        3,
    ).nodes());
    assert(b.nodes() == 1 + b.child(0).nodes() + b.child(1).nodes() + b.child(2).nodes() + b.child(
        3,
    ).nodes());
    assert(a.depth_ok(left) == (left >= 1 && a.child(0).depth_ok(left - 1) && a.child(1).depth_ok(
        left - 1,
    ) && a.child(2).depth_ok(left - 1) && a.child(3).depth_ok(left - 1)));
    assert(b.depth_ok(left) == (left >= 1 && b.child(0).depth_ok(left - 1) && b.child(1).depth_ok(
        left - 1,
    ) && b.child(2).depth_ok(left - 1) && b.child(3).depth_ok(left - 1)));
    assert(a.cap_ok(cap, depth, dmax) == (a.child(0).cap_ok(cap, depth + 1, dmax) && a.child(
        1,
    ).cap_ok(cap, depth + 1, dmax) && a.child(2).cap_ok(cap, depth + 1, dmax) && a.child(3).cap_ok(
        cap,
        depth + 1,
        dmax,
    )));
    assert(b.cap_ok(cap, depth, dmax) == (b.child(0).cap_ok(cap, depth + 1, dmax) && b.child(
        1,
    ).cap_ok(cap, depth + 1, dmax) && b.child(2).cap_ok(cap, depth + 1, dmax) && b.child(3).cap_ok(
        cap,
        depth + 1,
        dmax,
    )));
    assert(b.routed()) by {
        assert forall|p: int, x: (Point, T)|
            0 <= p < 4 && (#[trigger] b.child(p).entries().contains(x)) implies spec_quadrant(
            b.center(),
            x.0,
        ) == p by {
            if p == q {
                if x != e {
                    assert(a.child(q).entries().count(x) == b.child(q).entries().count(x));
                    assert(a.child(p).entries().contains(x));
                }
            } else {
                assert(a.child(p).entries().contains(x));
            }
        }
        assert(b.child(0).routed() && b.child(1).routed() && b.child(2).routed() && b.child(
            3,
        ).routed());
    }
    assert(b.centers_ok(dx, dy)) by {
        assert forall|p: int| 0 <= p < 4 implies (#[trigger] b.child(p)).center().0
            == spec_child_center(b.center(), dx, dy, p).0 && b.child(p).center().1
            == spec_child_center(b.center(), dx, dy, p).1 by {
            assert(a.child(p).center().0 == spec_child_center(a.center(), dx, dy, p).0);
            assert(a.child(p).center().1 == spec_child_center(a.center(), dx, dy, p).1);
        }
        assert(b.child(0).centers_ok(dx / 2, dy / 2) && b.child(1).centers_ok(dx / 2, dy / 2)
            && b.child(2).centers_ok(dx / 2, dy / 2) && b.child(3).centers_ok(dx / 2, dy / 2));
    }
}

/// A sequence whose entries all lie in quadrant `q` of `c` holds no entry of
/// any other quadrant.
proof fn lemma_part_count<T>(c: Point, q: int, s: Seq<(Point, T)>)
    requires
        forall|i: int| 0 <= i < s.len() ==> spec_quadrant(c, (#[trigger] s[i]).0) == q,
    ensures
        forall|x: (Point, T)|
            spec_quadrant(c, x.0) != q ==> #[trigger] s.to_multiset().count(x) == 0,
{
    assert forall|x: (Point, T)|
        spec_quadrant(c, x.0) != q implies #[trigger] s.to_multiset().count(x) == 0 by {
        if s.to_multiset().count(x) > 0 {
            assert(s.contains(x));
            let i = choose|i: int| 0 <= i < s.len() && s[i] == x;
            assert(spec_quadrant(c, s[i].0) == q);
        }
    }
}

/// When four sequences carry `all` between them and each holds only entries
/// of its own quadrant, each holds exactly its quadrant's share of `all`.
proof fn lemma_filter_of_parts<T>(
    c: Point,
    all: Multiset<(Point, T)>,
    s0: Seq<(Point, T)>,
    s1: Seq<(Point, T)>,
    s2: Seq<(Point, T)>,
    s3: Seq<(Point, T)>,
)
    requires
        s0.to_multiset().add(s1.to_multiset()).add(s2.to_multiset()).add(s3.to_multiset()) == all,
        forall|i: int| 0 <= i < s0.len() ==> spec_quadrant(c, (#[trigger] s0[i]).0) == 0,
        forall|i: int| 0 <= i < s1.len() ==> spec_quadrant(c, (#[trigger] s1[i]).0) == 1,
        forall|i: int| 0 <= i < s2.len() ==> spec_quadrant(c, (#[trigger] s2[i]).0) == 2,
        forall|i: int| 0 <= i < s3.len() ==> spec_quadrant(c, (#[trigger] s3[i]).0) == 3,
    ensures
        s0.to_multiset() == all.filter(quadrant_pred::<T>(c, 0)),
        s1.to_multiset() == all.filter(quadrant_pred::<T>(c, 1)),
        s2.to_multiset() == all.filter(quadrant_pred::<T>(c, 2)),
        s3.to_multiset() == all.filter(quadrant_pred::<T>(c, 3)),
{
    lemma_part_count(c, 0, s0);
    lemma_part_count(c, 1, s1);
    lemma_part_count(c, 2, s2);
    lemma_part_count(c, 3, s3);
    assert(s0.to_multiset() =~= all.filter(quadrant_pred::<T>(c, 0))) by {
        assert forall|x: (Point, T)|
            s0.to_multiset().count(x) == all.filter(quadrant_pred::<T>(c, 0)).count(x) by {
            lemma_one_part_share(c, 0, all, s0.to_multiset(), s1.to_multiset(), s2.to_multiset(),
                s3.to_multiset(), x);
        }
    }
    assert(s1.to_multiset() =~= all.filter(quadrant_pred::<T>(c, 1))) by {
        assert forall|x: (Point, T)|
            s1.to_multiset().count(x) == all.filter(quadrant_pred::<T>(c, 1)).count(x) by {
            lemma_one_part_share(c, 1, all, s1.to_multiset(), s0.to_multiset(), s2.to_multiset(),
                s3.to_multiset(), x);
        }
    }
    assert(s2.to_multiset() =~= all.filter(quadrant_pred::<T>(c, 2))) by {
        assert forall|x: (Point, T)|
            s2.to_multiset().count(x) == all.filter(quadrant_pred::<T>(c, 2)).count(x) by {
            lemma_one_part_share(c, 2, all, s2.to_multiset(), s0.to_multiset(), s1.to_multiset(),
                s3.to_multiset(), x);
        }
    }
    assert(s3.to_multiset() =~= all.filter(quadrant_pred::<T>(c, 3))) by {
        assert forall|x: (Point, T)|
            s3.to_multiset().count(x) == all.filter(quadrant_pred::<T>(c, 3)).count(x) by {
            lemma_one_part_share(c, 3, all, s3.to_multiset(), s0.to_multiset(), s1.to_multiset(),
                s2.to_multiset(), x);
        }
    }
}

/// One element's share: if `part` and the three `rest` multisets carry `all`
/// between them, `part` holds only quadrant `q` and the rest hold none of
/// it, then `part` counts `x` as `all`'s quadrant-`q` selection does.
proof fn lemma_one_part_share<T>(
    c: Point,
    q: int,
    all: Multiset<(Point, T)>,
    part: Multiset<(Point, T)>,
    rest_a: Multiset<(Point, T)>,
    rest_b: Multiset<(Point, T)>,
    rest_c: Multiset<(Point, T)>,
    x: (Point, T),
)
    requires
        all.count(x) == part.count(x) + rest_a.count(x) + rest_b.count(x) + rest_c.count(x),
        spec_quadrant(c, x.0) != q ==> part.count(x) == 0,
        spec_quadrant(c, x.0) == q ==> rest_a.count(x) == 0 && rest_b.count(x) == 0
            && rest_c.count(x) == 0,
    ensures
        part.count(x) == all.filter(quadrant_pred::<T>(c, q)).count(x),
{
    let p = quadrant_pred::<T>(c, q);
    if p(x) {
        assert(all.filter(p).count(x) == all.count(x));
    } else {
        assert(all.filter(p).count(x) == 0);
    }
}

} // verus!
