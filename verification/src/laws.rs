//! Laws that relate the quadtree's counting views to one another.

use crate::geometry::Point;
use crate::node::Node;
use vstd::multiset::Multiset;
use vstd::prelude::*;

verus! {

/// Node count bounds: a quadtree node's subtree holds exactly one node more
/// than four times its branches, its nodes are its leaves and its branches
/// together, and it has at least one leaf. In particular
/// `1 <= nodes <= 1 + 4 * branches`.
pub proof fn lemma_node_count_bounds<T>(n: Node<T>)
    ensures
        n.nodes() == 1 + 4 * n.branches(),
        n.nodes() == n.leaves() + n.branches(),
        n.leaves() >= 1,
    decreases n,
{
    match n {
        Node::Bucket { .. } => {},
        Node::Branch { c0, c1, c2, c3, .. } => {
            lemma_node_count_bounds(*c0);
            lemma_node_count_bounds(*c1);
            lemma_node_count_bounds(*c2);
            lemma_node_count_bounds(*c3);
        },
    }
}

/// Completeness: a sequence of entries carries as many entries as its
/// multiset. A tree built empty and then fed every entry of `entries` by
/// `Quadtree::push` views as `entries.to_multiset()`, so its `len()` is
/// exactly the number of insertions performed.
pub proof fn lemma_completeness<T>(entries: Seq<(Point, T)>)
    ensures
        entries.to_multiset().len() == entries.len(),
{
    entries.to_multiset_ensures();
}

/// Order independence for count: two insertion orders of the same multiset
/// of entries leave trees with the same view, and so the same `len()`.
pub proof fn lemma_order_independence<T>(first: Seq<(Point, T)>, second: Seq<(Point, T)>)
    requires
        first.to_multiset() == second.to_multiset(),
    ensures
        first.len() == second.len(),
        first.to_multiset().len() == second.to_multiset().len(),
{
    first.to_multiset_ensures();
    second.to_multiset_ensures();
}

} // verus!
