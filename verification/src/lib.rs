//! A point-region quadtree: a two-dimensional spatial index that stores
//! `(point, value)` pairs keyed by fixed-point plane coordinates and organizes
//! them into a recursively subdivided tree of bounded-fanout buckets.

pub mod clock;
pub mod geometry;
pub mod laws;
pub mod node;
pub mod tree;

pub use clock::now;
pub use geometry::quadrant;
pub use geometry::Point;
pub use node::Node;
pub use tree::Quadtree;
pub use tree::DEFAULT_CAPACITY;
pub use tree::DEFAULT_DEPTH_LIMIT;
