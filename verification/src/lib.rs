//! A two-dimensional spatial index over an integer grid.
//!
//! Items expose an axis-aligned extent; the tree files each item under the
//! node whose region contains the item's centre and splits a node into four
//! quadrants on its first overflow.  Range queries walk only the nodes whose
//! region meets the search region.
//!
//! Coordinates are whole numbers.  A quadrant has half the half-extents of
//! its parent, rounded down, so the quadrants of a region with an odd
//! half-extent stop one step short of its outer edge: an item that sits on
//! that edge is taken while the node has room and refused once it is full.
//! `insert` reports every refusal in its result.

pub mod geometry;
pub mod laws;
pub mod node;
pub mod tree;

pub use geometry::{BoundingBox, Point, Spacial};
pub use node::Node;
pub use tree::Quadtree;
