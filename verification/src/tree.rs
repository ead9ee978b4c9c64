//! The top-level container: a `Quadtree` owns the root node and records the
//! root region's full width and height, together with the bucket capacity
//! and the maximum subdivision depth it was built with.

use crate::node::Node;
use crate::geometry::{spec_quadrant, Point};
use vstd::multiset::Multiset;
use vstd::prelude::*;

verus! {

broadcast use vstd::seq_lib::group_to_multiset_ensures;

/// The bucket capacity `Quadtree::new` builds with: a bucket that grows past
/// it is subdivided while depth remains.
pub const DEFAULT_CAPACITY: usize = 16;

/// The maximum subdivision depth `Quadtree::new` builds with: a bucket at
/// this depth grows without bound instead of subdividing.
pub const DEFAULT_DEPTH_LIMIT: usize = 32;

/// A point-region quadtree over a rectangle of the given width and height
/// centered on the root center. Points outside the rectangle are accepted
/// too: the quadrant rule classifies them like any other, so they gather in
/// the boundary quadrants.
pub struct Quadtree<T> {
    root: Node<T>,
    dimensions: (i64, i64),
    capacity: usize,
    depth_limit: usize,
}

impl<T> Quadtree<T> {
    /// The root node.
    pub closed spec fn root_node(self) -> Node<T> {
        self.root
    }

    /// The root region's full width and height.
    pub closed spec fn spec_dimensions(self) -> (i64, i64) {
        self.dimensions
    }

    /// The bucket capacity this tree subdivides at.
    pub closed spec fn spec_capacity(self) -> usize {
        self.capacity
    }

    /// The depth past which no bucket subdivides.
    pub closed spec fn spec_depth_limit(self) -> usize {
        self.depth_limit
    }

    /// The number of nodes in the tree.
    pub open spec fn spec_nodes(self) -> nat {
        self.root_node().nodes()
    }

    /// Well-formedness: positive extents, the root center far enough from
    /// the representable edge, and the structural invariants of the node
    /// tree — depth bound, capacity bound, derived child centers, locality.
    /// The entry and node totals fit a machine word so that traversals can
    /// report them.
    pub closed spec fn wf(self) -> bool {
        &&& self.dimensions.0 > 0
        &&& self.dimensions.1 > 0
        &&& self.root.depth_ok(self.depth_limit as int)
        &&& self.root.cap_ok(self.capacity as int, 0, self.depth_limit as int)
        &&& self.root.centers_ok(self.dimensions.0 as int / 2, self.dimensions.1 as int / 2)
        &&& self.root.routed()
        &&& self.root.entries().len() <= usize::MAX
        &&& self.root.nodes() <= usize::MAX
    }

    /// An empty tree with the reference capacity and depth limit: the root
    /// is an empty bucket at `center`, covering `w` by `h` around it.
    pub fn new(center: Point, w: i64, h: i64) -> (t: Self)
        requires
            w > 0,
            h > 0,
            center.0 - w >= i64::MIN,
            center.0 + w <= i64::MAX,
            center.1 - h >= i64::MIN,
            center.1 + h <= i64::MAX,
        ensures
            t.wf(),
            t@ == Multiset::<(Point, T)>::empty(),
            t.spec_nodes() == 1,
            t.root_node() matches Node::Bucket { center: rc, data: rd } && rc == center && rd@
                =~= Seq::<(Point, T)>::empty(),
            t.spec_dimensions() == (w, h),
            t.spec_capacity() == DEFAULT_CAPACITY,
            t.spec_depth_limit() == DEFAULT_DEPTH_LIMIT,
    {
        Self::with_limits(center, w, h, DEFAULT_CAPACITY, DEFAULT_DEPTH_LIMIT)
    }

    /// An empty tree with a chosen bucket capacity and depth limit.
    pub fn with_limits(center: Point, w: i64, h: i64, capacity: usize, depth_limit: usize) -> (t:
        Self)
        requires
            w > 0,
            h > 0,
            center.0 - w >= i64::MIN,
            center.0 + w <= i64::MAX,
            center.1 - h >= i64::MIN,
            center.1 + h <= i64::MAX,
            capacity >= 1,
        ensures
            t.wf(),
            t@ == Multiset::<(Point, T)>::empty(),
            t.spec_nodes() == 1,
            t.root_node() matches Node::Bucket { center: rc, data: rd } && rc == center && rd@
                =~= Seq::<(Point, T)>::empty(),
            t.spec_dimensions() == (w, h),
            t.spec_capacity() == capacity,
            t.spec_depth_limit() == depth_limit,
    {
        let t = Quadtree {
            root: Node::Bucket { center, data: Vec::new() },
            dimensions: (w, h),
            capacity,
            depth_limit,
        };
        proof {
            vstd::multiset::lemma_multiset_empty_len::<(Point, T)>(t.root.entries());
            assert(t.root.entries().len() == 0);
        }
        t
    }
    /// Inserts an entry. Insertion always succeeds: an out-of-bounds point
    /// is routed like any other. Exactly the entry is added; the region,
    /// the limits and the root center stay as they were; and at most one
    /// subdivision happens, so the node count grows by zero or four. The
    /// two size bounds asked of the caller are machine limits: the totals
    /// reported by `len` and `node_count` must keep fitting a `usize`.
    pub fn push(&mut self, e: (Point, T))
        requires
            old(self).wf(),
            old(self)@.len() < usize::MAX,
            old(self).spec_nodes() + 4 <= usize::MAX,
        ensures
            final(self).wf(),
            final(self)@ == old(self)@.insert(e),
            final(self)@.len() == old(self)@.len() + 1,
            final(self).spec_dimensions() == old(self).spec_dimensions(),
            final(self).spec_capacity() == old(self).spec_capacity(),
            final(self).spec_depth_limit() == old(self).spec_depth_limit(),
            final(self).root_node().center() == old(self).root_node().center(),
            final(self).spec_nodes() == (if old(self).root_node().splits_on(
                e,
                0,
                old(self).spec_depth_limit() as int,
                old(self).spec_capacity() as int,
            ) {
                old(self).spec_nodes() + 4
            } else {
                old(self).spec_nodes()
            }),
            old(self).root_node() is Branch ==> final(self).root_node() is Branch,
            old(self).root_node() is Branch ==> forall|p: int|
                0 <= p < 4 && p != spec_quadrant(old(self).root_node().center(), e.0)
                    ==> (#[trigger] final(self).root_node().child(p)) == old(
                    self,
                ).root_node().child(p),
            old(self).root_node() is Branch ==> final(self).root_node().child(
                spec_quadrant(old(self).root_node().center(), e.0),
            ).entries() == old(self).root_node().child(
                spec_quadrant(old(self).root_node().center(), e.0),
            ).entries().insert(e),
            old(self).root_node() is Bucket ==> (final(self).root_node() is Bucket <==> !old(
                self,
            ).root_node().splits_on(
                e,
                0,
                old(self).spec_depth_limit() as int,
                old(self).spec_capacity() as int,
            )),
    {
        let mut root = Node::Bucket { center: (0, 0), data: Vec::new() };
        core::mem::swap(&mut root, &mut self.root);
        let dx = self.dimensions.0 / 2;
        let dy = self.dimensions.1 / 2;
        self.root = root.push(e, 0, self.depth_limit, self.capacity, dx, dy);
    }

    /// The number of entries stored, computed by traversal.
    pub fn len(&self) -> (n: usize)
        requires
            self.wf(),
        ensures
            n == self@.len(),
    {
        self.root.count_entries()
    }

    /// The number of nodes — buckets and branches, the root included —
    /// computed by traversal.
    pub fn node_count(&self) -> (n: usize)
        requires
            self.wf(),
        ensures
            n == self.spec_nodes(),
    {
        self.root.count_nodes()
    }

    /// Borrows the root node, the entry point for read-only traversals.
    pub fn root(&self) -> (r: &Node<T>)
        ensures
            *r == self.root_node(),
    {
        &self.root
    }

    /// The bucket capacity this tree was built with.
    pub fn capacity(&self) -> (c: usize)
        ensures
            c == self.spec_capacity(),
    {
        self.capacity
    }

    /// The depth limit this tree was built with.
    pub fn depth_limit(&self) -> (d: usize)
        ensures
            d == self.spec_depth_limit(),
    {
        self.depth_limit
    }

    /// What well-formedness guarantees of the stored structure. Depth
    /// bound: every bucket sits within the depth limit. Capacity: a bucket
    /// at depth `d` below the limit holds at most `capacity + d` entries —
    /// the slack grows one per level because a subdivision may hand a whole
    /// overflowing bucket to a single child. Locality: every entry lies, at
    /// every branch on its path, in the child the quadrant rule picks for
    /// it. Geometry: every branch's children sit at the centers the
    /// subdivision rule derives for its depth.
    /// The tree's view is exactly the multiset of entries stored below its
    /// root: the link between the abstract view that `push` and `len` speak
    /// of and the structural facts stated of `root_node`.
    pub proof fn lemma_view_is_root_entries(self)
        ensures
            self@ == self.root_node().entries(),
    {
    }

    pub proof fn lemma_wf_invariants(self)
        requires
            self.wf(),
        ensures
            self.root_node().depth_ok(self.spec_depth_limit() as int),
            self.root_node().cap_ok(self.spec_capacity() as int, 0, self.spec_depth_limit() as int),
            self.root_node().routed(),
            self.root_node().centers_ok(
                self.spec_dimensions().0 as int / 2,
                self.spec_dimensions().1 as int / 2,
            ),
    {
    }
}

impl<T> View for Quadtree<T> {
    type V = Multiset<(Point, T)>;

    /// A tree abstracts to the multiset of its stored entries.
    closed spec fn view(&self) -> Multiset<(Point, T)> {
        self.root.entries()
    }
}

} // verus!
