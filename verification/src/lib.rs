//! A bounding volume hierarchy (BVH) over positioned items.
//!
//! The index is rebuilt wholesale from a batch of items and then answers
//! region queries by pruning subtrees whose bounds cannot intersect the
//! query region. Nodes live in a flat arena in post-order, so a node's
//! children always sit at strictly smaller indices and the root is the
//! last element.

use vstd::prelude::*;

pub mod block;

verus! {

/// Index of a node in the node arena.
pub type NodeIdx = u32;

/// A node of the tree: either an internal split point or a leaf covering
/// a contiguous range of the value arena.
#[derive(Clone, Copy)]
pub enum Node<V> {
    Internal {
        bounds: V,
        left: NodeIdx,
        right: NodeIdx,
    },
    Leaf {
        bounds: V,
        /// Start of the covered range in the value arena.
        start: NodeIdx,
        /// End (exclusive) of the covered range in the value arena.
        end: NodeIdx,
    },
}

impl<V: Copy> Node<V> {
    /// The bounding box stored in this node, whichever variant it is.
    pub open spec fn spec_bounds(self) -> V {
        match self {
            Node::Internal { bounds, .. } => bounds,
            Node::Leaf { bounds, .. } => bounds,
        }
    }

    /// Returns the bounding box stored in this node.
    pub fn bounds(&self) -> (r: V)
        ensures
            r == self.spec_bounds(),
    {
        match self {
            Node::Internal { bounds, .. } => *bounds,
            Node::Leaf { bounds, .. } => *bounds,
        }
    }
}

/// What a bounding box over the coordinate domain `T` must support for the
/// tree algorithms to work with it.
pub trait Aabb<T>: Sized {
    /// The degenerate box covering exactly one point.
    fn point(pos: T) -> Self;

    /// A cheap extent metric (twice the sum of the side lengths). The
    /// algorithms only need it to be monotonically non-decreasing under
    /// union; it stops the recursion once a box is small enough.
    fn surface_area(self) -> i64;

    /// The smallest box containing both `self` and `other`.
    fn union(self, other: Self) -> Self;

    /// Whether the two boxes overlap, closed-interval on every axis.
    fn intersects(self, other: Self) -> bool;
}

/// A bounding volume hierarchy: a node arena in post-order and the value
/// arena the leaves point into.
pub struct Bvh<T, U, V> where V: Aabb<U> {
    pub nodes: Vec<Node<V>>,
    pub values: Vec<T>,
    /// A leaf is emitted once a box's extent metric is at or below this
    /// threshold. Fixed at construction; must be positive.
    pub max_surface_area: i32,
    pub phantom: core::marker::PhantomData<U>,
}

/// The leaf-extent threshold an index built with `Default` uses.
pub const DEFAULT_MAX_SURFACE_AREA: i32 = 8 * 4;

impl<T, U, V> core::default::Default for Bvh<T, U, V> where V: Aabb<U> {
    /// Creates an empty index with the default leaf-extent threshold.
    fn default() -> (r: Self)
        ensures
            r.nodes@.len() == 0,
            r.values@.len() == 0,
            r.max_surface_area == DEFAULT_MAX_SURFACE_AREA,
    {
        Bvh::new(DEFAULT_MAX_SURFACE_AREA)
    }
}

impl<T, U, V> Bvh<T, U, V> where V: Aabb<U> {
    /// Creates an empty index with the given leaf-extent threshold.
    ///
    /// A non-positive threshold is a configuration error and is rejected
    /// here rather than silently degrading the tree.
    pub fn new(max_surface_area: i32) -> (r: Self)
        requires
            max_surface_area > 0,
        ensures
            r.nodes@.len() == 0,
            r.values@.len() == 0,
            r.max_surface_area == max_surface_area,
    {
        Bvh {
            nodes: Vec::new(),
            values: Vec::new(),
            max_surface_area,
            phantom: core::marker::PhantomData,
        }
    }
}

} // verus!
