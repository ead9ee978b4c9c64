//! Concrete checks of the quantified properties: completeness, node count
//! bounds, locality, depth bound, capacity bound, order independence and
//! subdivision mass conservation, each on a small built tree.

use quadtree::{quadrant, Node, Point, Quadtree};

const UNIT: i64 = 65536;

/// Collects `(depth, len)` for every bucket and counts branches.
fn survey<T>(node: &Node<T>, depth: usize, buckets: &mut Vec<(usize, usize)>, branches: &mut usize) {
    match node {
        Node::Bucket { data, .. } => buckets.push((depth, data.len())),
        Node::Branch { c0, c1, c2, c3, .. } => {
            *branches += 1;
            survey(c0, depth + 1, buckets, branches);
            survey(c1, depth + 1, buckets, branches);
            survey(c2, depth + 1, buckets, branches);
            survey(c3, depth + 1, buckets, branches);
        }
    }
}

fn collect_points<T>(node: &Node<T>, out: &mut Vec<Point>) {
    match node {
        Node::Bucket { data, .. } => {
            for (p, _) in data.iter() {
                out.push(*p);
            }
        }
        Node::Branch { c0, c1, c2, c3, .. } => {
            collect_points(c0, out);
            collect_points(c1, out);
            collect_points(c2, out);
            collect_points(c3, out);
        }
    }
}

/// Every point below a branch lies in the child the quadrant rule picks for
/// it, at every level: replaying the rule from the root retraces its path.
fn check_locality<T>(node: &Node<T>) {
    if let Node::Branch { center, c0, c1, c2, c3 } = node {
        let children: [&Node<T>; 4] = [c0, c1, c2, c3];
        for (q, child) in children.iter().enumerate() {
            let mut pts = Vec::new();
            collect_points(child, &mut pts);
            for p in pts {
                assert_eq!(quadrant(*center, p), q);
            }
            check_locality(child);
        }
    }
}

/// A small deterministic point source, scattering points over the region.
fn scatter(n: usize) -> Vec<(Point, i32)> {
    let mut state: i64 = 12345;
    let mut out = Vec::new();
    for i in 0..n {
        state = (state.wrapping_mul(1103515245).wrapping_add(12721)) % 32768;
        let x = state - 16384;
        state = (state.wrapping_mul(1103515245).wrapping_add(12721)) % 32768;
        let y = state - 16384;
        out.push(((x, y), i as i32));
    }
    // A few exact duplicates.
    for i in 0..n / 5 {
        let e = out[i * 2];
        out.push(e);
    }
    out
}

#[test]
fn completeness() {
    let pts = scatter(50);
    let total = pts.len();
    let mut t: Quadtree<i32> = Quadtree::with_limits((0, 0), UNIT, UNIT, 4, 32);
    for e in pts {
        t.push(e);
    }
    assert_eq!(t.len(), total);
}

#[test]
fn node_count_bounds() {
    let mut t: Quadtree<i32> = Quadtree::with_limits((0, 0), UNIT, UNIT, 4, 32);
    for e in scatter(60) {
        t.push(e);
    }
    let mut buckets = Vec::new();
    let mut branches: usize = 0;
    survey(t.root(), 0, &mut buckets, &mut branches);
    let leaves = buckets.len();
    let nodes = t.node_count();
    assert!(nodes >= 1);
    assert_eq!(nodes, 1 + 4 * branches);
    assert_eq!(branches, nodes - leaves);
    assert!(leaves >= 1);
}

#[test]
fn locality() {
    let mut t: Quadtree<i32> = Quadtree::with_limits((0, 0), UNIT, UNIT, 2, 32);
    for e in scatter(40) {
        t.push(e);
    }
    check_locality(t.root());
}

#[test]
fn depth_bound() {
    let mut t: Quadtree<i32> = Quadtree::with_limits((0, 0), UNIT, UNIT, 1, 6);
    for e in scatter(40) {
        t.push(e);
    }
    // The same point over and over: subdivision chases the cluster down to
    // the depth limit and then gives up.
    for i in 0..10 {
        t.push(((777, 777), i));
    }
    let mut buckets = Vec::new();
    let mut branches: usize = 0;
    survey(t.root(), 0, &mut buckets, &mut branches);
    for (depth, _) in buckets {
        assert!(depth <= t.depth_limit());
    }
}

#[test]
fn capacity_bound() {
    // A bucket above the depth limit may exceed the capacity by at most one
    // entry per level of depth: a subdivision may hand a whole overflowing
    // bucket to a single child, as a repeated point does here.
    let mut t: Quadtree<i32> = Quadtree::with_limits((0, 0), UNIT, UNIT, 1, 32);
    for i in 0..6 {
        t.push(((777, 777), i));
    }
    for e in scatter(30) {
        t.push(e);
    }
    let mut buckets = Vec::new();
    let mut branches: usize = 0;
    survey(t.root(), 0, &mut buckets, &mut branches);
    let mut saw_over_capacity = false;
    for (depth, len) in buckets {
        if depth < t.depth_limit() {
            assert!(len <= t.capacity() + depth);
            if len > t.capacity() {
                saw_over_capacity = true;
            }
        }
    }
    // The slack is not vacuous: the cluster really does leave a bucket above
    // capacity strictly inside the depth limit.
    assert!(saw_over_capacity);
}

#[test]
fn order_independence_for_count() {
    let pts = scatter(30);
    let mut reversed = pts.clone();
    reversed.reverse();
    let mut interleaved = Vec::new();
    for i in 0..pts.len() {
        let j = if i % 2 == 0 { i / 2 } else { pts.len() - 1 - i / 2 };
        interleaved.push(pts[j]);
    }
    let mut a: Quadtree<i32> = Quadtree::with_limits((0, 0), UNIT, UNIT, 2, 32);
    let mut b: Quadtree<i32> = Quadtree::with_limits((0, 0), UNIT, UNIT, 2, 32);
    let mut c: Quadtree<i32> = Quadtree::with_limits((0, 0), UNIT, UNIT, 2, 32);
    for e in pts {
        a.push(e);
    }
    for e in reversed {
        b.push(e);
    }
    for e in interleaved {
        c.push(e);
    }
    assert_eq!(a.len(), b.len());
    assert_eq!(a.len(), c.len());
}

#[test]
fn subdivision_mass_conservation() {
    // Capacity 3: the fourth push overflows the root bucket and subdivides
    // it; the four children's sizes sum to the parent bucket's size.
    let mut t: Quadtree<char> = Quadtree::with_limits((0, 0), UNIT, UNIT, 3, 32);
    t.push(((-5, -5), 'a'));
    t.push(((5, -5), 'b'));
    t.push(((-5, 5), 'c'));
    t.push(((5, 5), 'd'));
    assert_eq!(t.node_count(), 5);
    let mut buckets = Vec::new();
    let mut branches: usize = 0;
    survey(t.root(), 0, &mut buckets, &mut branches);
    let total: usize = buckets.iter().map(|(_, len)| len).sum();
    assert_eq!(total, 4);
    assert_eq!(t.len(), 4);

    // The pathological case: all four entries in one quadrant still land in
    // a single child, none lost or duplicated.
    let mut u: Quadtree<char> = Quadtree::with_limits((0, 0), UNIT, UNIT, 3, 32);
    u.push(((6, 6), 'a'));
    u.push(((7, 7), 'b'));
    u.push(((8, 8), 'c'));
    u.push(((9, 9), 'd'));
    assert_eq!(u.node_count(), 5);
    let mut ub = Vec::new();
    let mut ubr: usize = 0;
    survey(u.root(), 0, &mut ub, &mut ubr);
    let utotal: usize = ub.iter().map(|(_, len)| len).sum();
    assert_eq!(utotal, 4);
    assert_eq!(u.len(), 4);
}
