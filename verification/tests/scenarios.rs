//! End-to-end scenarios over the public quadtree API. Coordinates are
//! fixed-point with 1.0 == 65536 units, so a quarter is 16384.

use quadtree::{quadrant, Node, Point, Quadtree};

const UNIT: i64 = 65536;
const QUARTER: i64 = 16384;

fn bucket_data<T>(node: &Node<T>) -> &Vec<(Point, T)> {
    match node {
        Node::Bucket { data, .. } => data,
        Node::Branch { .. } => panic!("expected a bucket"),
    }
}

fn branch_children<T>(node: &Node<T>) -> [&Node<T>; 4] {
    match node {
        Node::Branch { c0, c1, c2, c3, .. } => [c0, c1, c2, c3],
        Node::Bucket { .. } => panic!("expected a branch"),
    }
}

#[test]
fn empty_tree() {
    let t: Quadtree<i32> = Quadtree::new((0, 0), UNIT, UNIT);
    assert_eq!(t.len(), 0);
    assert_eq!(t.node_count(), 1);
}

#[test]
fn single_insert() {
    let mut t: Quadtree<i32> = Quadtree::new((0, 0), UNIT, UNIT);
    let p: Point = (6554, 6554);
    t.push((p, 7));
    assert_eq!(t.len(), 1);
    assert_eq!(t.node_count(), 1);
    let data = bucket_data(t.root());
    assert_eq!(data.len(), 1);
    assert_eq!(data[0], (p, 7));
}

#[test]
fn quadrant_routing_no_subdivision() {
    let mut t: Quadtree<u8> = Quadtree::new((0, 0), UNIT, UNIT);
    t.push(((-QUARTER, -QUARTER), 0));
    t.push(((QUARTER, -QUARTER), 1));
    t.push(((-QUARTER, QUARTER), 2));
    t.push(((QUARTER, QUARTER), 3));
    assert_eq!(t.len(), 4);
    assert_eq!(t.node_count(), 1);
    assert_eq!(bucket_data(t.root()).len(), 4);
}

#[test]
fn forced_subdivision() {
    let mut t: Quadtree<char> = Quadtree::with_limits((0, 0), UNIT, UNIT, 1, 32);
    t.push(((-QUARTER, -QUARTER), 'a'));
    t.push(((QUARTER, QUARTER), 'b'));
    assert_eq!(t.len(), 2);
    assert_eq!(t.node_count(), 5);
    let children = branch_children(t.root());
    let d0 = bucket_data(children[0]);
    assert_eq!(d0.len(), 1);
    assert_eq!(d0[0], ((-QUARTER, -QUARTER), 'a'));
    assert_eq!(bucket_data(children[1]).len(), 0);
    assert_eq!(bucket_data(children[2]).len(), 0);
    let d3 = bucket_data(children[3]);
    assert_eq!(d3.len(), 1);
    assert_eq!(d3[0], ((QUARTER, QUARTER), 'b'));
}

#[test]
fn boundary_tie_break() {
    // A point on both center lines routes to the upper/right side.
    assert_eq!(quadrant((0, 0), (0, 0)), 3);

    // Observed through the tree: two pushes of the center point of a
    // capacity-1 tree force a subdivision, and both land in child 3.
    let mut t: Quadtree<char> = Quadtree::with_limits((0, 0), UNIT, UNIT, 1, 32);
    t.push(((0, 0), 'x'));
    t.push(((0, 0), 'y'));
    assert_eq!(t.len(), 2);
    assert_eq!(t.node_count(), 5);
    let children = branch_children(t.root());
    assert_eq!(bucket_data(children[0]).len(), 0);
    assert_eq!(bucket_data(children[1]).len(), 0);
    assert_eq!(bucket_data(children[2]).len(), 0);
    assert_eq!(bucket_data(children[3]).len(), 2);
}

#[test]
fn depth_cap() {
    // 0.4, 0.45 and 0.49 of a unit, toward the lower-left.
    let p1: Point = (-26214, -26214);
    let p2: Point = (-29491, -29491);
    let p3: Point = (-32113, -32113);
    let mut t: Quadtree<u8> = Quadtree::with_limits((0, 0), UNIT, UNIT, 1, 2);
    t.push((p1, 1));
    t.push((p2, 2));
    t.push((p3, 3));
    assert_eq!(t.len(), 3);
    assert_eq!(t.node_count(), 9);

    // All three cluster lower-left of the root, then upper-right of its
    // child 0, whose centers are (-32768, -32768): the deepest bucket sits
    // at the depth limit of 2 and holds every entry, past its capacity.
    let children = branch_children(t.root());
    let grandchildren = branch_children(children[0]);
    assert_eq!(bucket_data(grandchildren[3]).len(), 3);
    assert_eq!(bucket_data(children[1]).len(), 0);
    assert_eq!(bucket_data(children[2]).len(), 0);
    assert_eq!(bucket_data(children[3]).len(), 0);
}
