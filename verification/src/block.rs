//! The block-position instantiation of the tree: integer 3D coordinates,
//! axis-aligned integer boxes, and the build / query algorithms over them.

use vstd::prelude::*;

use crate::Aabb;
use crate::Bvh;
use crate::Node;

verus! {

/// A position in the integer 3D block grid.
#[derive(Clone, Copy, PartialEq, Eq, Structural, Debug)]
pub struct BlockPos {
    pub x: i32,
    pub y: i32,
    pub z: i32,
}

impl BlockPos {
    /// Creates a position from its three coordinates.
    pub fn new(x: i32, y: i32, z: i32) -> (r: Self)
        ensures
            r == (BlockPos { x, y, z }),
    {
        BlockPos { x, y, z }
    }
}

/// Obtains a block position for the purpose of placement in the tree.
pub trait GetBlockPos {
    /// The representative position, as seen by specifications.
    spec fn spec_block_pos(&self) -> BlockPos;

    /// Returns the representative position of this item.
    fn block_pos(&self) -> (p: BlockPos)
        ensures
            p == self.spec_block_pos(),
    ;
}

impl GetBlockPos for BlockPos {
    open spec fn spec_block_pos(&self) -> BlockPos {
        *self
    }

    fn block_pos(&self) -> (p: BlockPos)
        ensures
            p == self.spec_block_pos(),
    {
        *self
    }
}

/// An axis-aligned box of block positions, closed on every axis.
#[derive(Clone, Copy, PartialEq, Eq, Structural, Debug)]
pub struct BlockAabb {
    pub min: BlockPos,
    pub max: BlockPos,
}

/// The degenerate box covering exactly the point `p`.
pub open spec fn point_box(p: BlockPos) -> BlockAabb {
    BlockAabb { min: p, max: p }
}

impl BlockAabb {
    /// The extent metric: twice the sum of the side lengths, over the
    /// mathematical integers.
    pub open spec fn spec_surface_area(self) -> int {
        ((self.max.x - self.min.x) + (self.max.y - self.min.y) + (self.max.z - self.min.z)) * 2
    }

    /// The smallest box containing both `self` and `other`.
    pub open spec fn spec_union(self, other: Self) -> Self {
        BlockAabb {
            min: BlockPos {
                x: if self.min.x <= other.min.x { self.min.x } else { other.min.x },
                y: if self.min.y <= other.min.y { self.min.y } else { other.min.y },
                z: if self.min.z <= other.min.z { self.min.z } else { other.min.z },
            },
            max: BlockPos {
                x: if self.max.x >= other.max.x { self.max.x } else { other.max.x },
                y: if self.max.y >= other.max.y { self.max.y } else { other.max.y },
                z: if self.max.z >= other.max.z { self.max.z } else { other.max.z },
            },
        }
    }

    /// Whether the two boxes overlap: closed-interval overlap on every axis.
    pub open spec fn spec_intersects(self, other: Self) -> bool {
        &&& self.min.x <= other.max.x
        &&& self.max.x >= other.min.x
        &&& self.min.y <= other.max.y
        &&& self.max.y >= other.min.y
        &&& self.min.z <= other.max.z
        &&& self.max.z >= other.min.z
    }

    /// Whether `inner` lies entirely within `self`.
    pub open spec fn encloses(self, inner: Self) -> bool {
        &&& self.min.x <= inner.min.x && inner.max.x <= self.max.x
        &&& self.min.y <= inner.min.y && inner.max.y <= self.max.y
        &&& self.min.z <= inner.min.z && inner.max.z <= self.max.z
    }

    /// The coordinate of `p` along the axis the builder splits: the box's
    /// longest axis, ties preferring x, then z.
    pub open spec fn spec_split_coord(self, p: BlockPos) -> int {
        if self.max.x - self.min.x >= self.max.y - self.min.y && self.max.x - self.min.x
            >= self.max.z - self.min.z {
            p.x as int
        } else if self.max.z - self.min.z >= self.max.y - self.min.y {
            p.z as int
        } else {
            p.y as int
        }
    }

    /// The spatial midpoint of the box along its split axis: the truncated
    /// average of the box's two ends on that axis.
    pub open spec fn spec_split_mid(self) -> int {
        if self.max.x - self.min.x >= self.max.y - self.min.y && self.max.x - self.min.x
            >= self.max.z - self.min.z {
            truncated_avg(self.min.x as int, self.max.x as int)
        } else if self.max.z - self.min.z >= self.max.y - self.min.y {
            truncated_avg(self.min.z as int, self.max.z as int)
        } else {
            truncated_avg(self.min.y as int, self.max.y as int)
        }
    }

    /// Length of the box along the x axis.
    fn length_x(self) -> (r: i64)
        ensures
            r == self.max.x - self.min.x,
    {
        self.max.x as i64 - self.min.x as i64
    }

    /// Length of the box along the y axis.
    fn length_y(self) -> (r: i64)
        ensures
            r == self.max.y - self.min.y,
    {
        self.max.y as i64 - self.min.y as i64
    }

    /// Length of the box along the z axis.
    fn length_z(self) -> (r: i64)
        ensures
            r == self.max.z - self.min.z,
    {
        self.max.z as i64 - self.min.z as i64
    }
}

impl core::convert::From<BlockPos> for BlockAabb {
    fn from(pos: BlockPos) -> (r: Self) {
        BlockAabb { min: pos, max: pos }
    }
}

impl vstd::std_specs::convert::FromSpecImpl<BlockPos> for BlockAabb {
    open spec fn obeys_from_spec() -> bool {
        true
    }

    open spec fn from_spec(pos: BlockPos) -> Self {
        point_box(pos)
    }
}

impl Aabb<BlockPos> for BlockAabb {
    fn point(pos: BlockPos) -> (r: Self)
        ensures
            r == point_box(pos),
    {
        BlockAabb { min: pos, max: pos }
    }

    /// Twice the sum of the side lengths, widened so it cannot overflow.
    fn surface_area(self) -> (r: i64)
        ensures
            r == self.spec_surface_area(),
    {
        let lx: i64 = self.max.x as i64 - self.min.x as i64;
        let ly: i64 = self.max.y as i64 - self.min.y as i64;
        let lz: i64 = self.max.z as i64 - self.min.z as i64;
        (lx + ly + lz) * 2
    }

    /// Returns the smallest box containing `self` and `other`.
    fn union(self, other: Self) -> (r: Self)
        ensures
            r == self.spec_union(other),
    {
        BlockAabb {
            min: BlockPos {
                x: if self.min.x <= other.min.x { self.min.x } else { other.min.x },
                y: if self.min.y <= other.min.y { self.min.y } else { other.min.y },
                z: if self.min.z <= other.min.z { self.min.z } else { other.min.z },
            },
            max: BlockPos {
                x: if self.max.x >= other.max.x { self.max.x } else { other.max.x },
                y: if self.max.y >= other.max.y { self.max.y } else { other.max.y },
                z: if self.max.z >= other.max.z { self.max.z } else { other.max.z },
            },
        }
    }

    fn intersects(self, other: Self) -> (r: bool)
        ensures
            r == self.spec_intersects(other),
    {
        self.min.x <= other.max.x && self.max.x >= other.min.x && self.min.y <= other.max.y
            && self.max.y >= other.min.y && self.min.z <= other.max.z && self.max.z >= other.min.z
    }
}

/// The average of two integers, truncated toward zero: what widening to a
/// larger integer type and halving with hardware division computes.
pub open spec fn truncated_avg(a: int, b: int) -> int {
    if a + b >= 0 {
        (a + b) / 2
    } else {
        -((-(a + b)) / 2)
    }
}

/// The spatial midpoint of the interval `[min, max]`: the truncated average
/// of the two ends, computed without intermediate overflow by widening
/// before averaging.
pub fn middle(min: i32, max: i32) -> (r: i32)
    ensures
        r == truncated_avg(min as int, max as int),
        min <= max ==> min <= r <= max,
{
    let s: i64 = min as i64 + max as i64;
    if s >= 0 {
        ((s as u64 / 2) as i64) as i32
    } else {
        (-(((-s) as u64 / 2) as i64)) as i32
    }
}

/// Every item's point box lies within `b`.
pub open spec fn covers_all<T: GetBlockPos>(b: BlockAabb, vs: Seq<T>) -> bool {
    forall|k: int|
        0 <= k < vs.len() ==> b.encloses(point_box(#[trigger] vs[k].spec_block_pos()))
}

/// `b` is the minimal box enclosing every item of `vs`: it covers all of
/// them, and each of its six faces touches some item's position.
pub open spec fn is_bounds<T: GetBlockPos>(b: BlockAabb, vs: Seq<T>) -> bool {
    &&& covers_all(b, vs)
    &&& exists|k: int| 0 <= k < vs.len() && b.min.x == (#[trigger] vs[k].spec_block_pos()).x
    &&& exists|k: int| 0 <= k < vs.len() && b.min.y == (#[trigger] vs[k].spec_block_pos()).y
    &&& exists|k: int| 0 <= k < vs.len() && b.min.z == (#[trigger] vs[k].spec_block_pos()).z
    &&& exists|k: int| 0 <= k < vs.len() && b.max.x == (#[trigger] vs[k].spec_block_pos()).x
    &&& exists|k: int| 0 <= k < vs.len() && b.max.y == (#[trigger] vs[k].spec_block_pos()).y
    &&& exists|k: int| 0 <= k < vs.len() && b.max.z == (#[trigger] vs[k].spec_block_pos()).z
}

/// The point box of a sequence's only item is its minimal bounding box.
pub proof fn lemma_is_bounds_singleton<T: GetBlockPos>(vs: Seq<T>)
    requires
        vs.len() == 1,
    ensures
        is_bounds(point_box(vs[0].spec_block_pos()), vs),
{
    let p = vs[0].spec_block_pos();
    assert(point_box(p).encloses(point_box(vs[0].spec_block_pos())));
    assert(point_box(p).min.x == vs[0].spec_block_pos().x);
    assert(point_box(p).min.y == vs[0].spec_block_pos().y);
    assert(point_box(p).min.z == vs[0].spec_block_pos().z);
    assert(point_box(p).max.x == vs[0].spec_block_pos().x);
    assert(point_box(p).max.y == vs[0].spec_block_pos().y);
    assert(point_box(p).max.z == vs[0].spec_block_pos().z);
}

/// Extending a sequence by one item extends its minimal bounding box by
/// the union with that item's point box.
pub proof fn lemma_is_bounds_push<T: GetBlockPos>(b: BlockAabb, vs: Seq<T>, v: T)
    requires
        is_bounds(b, vs),
    ensures
        is_bounds(b.spec_union(point_box(v.spec_block_pos())), vs.push(v)),
{
    let pv = v.spec_block_pos();
    let b2 = b.spec_union(point_box(pv));
    let ws = vs.push(v);
    let n = vs.len() as int;
    assert forall|k: int|
        0 <= k < ws.len() implies b2.encloses(
        point_box(#[trigger] ws[k].spec_block_pos()),
    ) by {
        if k < n {
            assert(ws[k] == vs[k]);
            assert(b.encloses(point_box(vs[k].spec_block_pos())));
        } else {
            assert(ws[k] == v);
        }
    }
    assert(ws[n] == v);
    if b.min.x <= pv.x {
        let k = choose|k: int| 0 <= k < vs.len() && b.min.x == (#[trigger] vs[k].spec_block_pos()).x;
        assert(ws[k] == vs[k]);
        assert(b2.min.x == ws[k].spec_block_pos().x);
    } else {
        assert(b2.min.x == ws[n].spec_block_pos().x);
    }
    if b.min.y <= pv.y {
        let k = choose|k: int| 0 <= k < vs.len() && b.min.y == (#[trigger] vs[k].spec_block_pos()).y;
        assert(ws[k] == vs[k]);
        assert(b2.min.y == ws[k].spec_block_pos().y);
    } else {
        assert(b2.min.y == ws[n].spec_block_pos().y);
    }
    if b.min.z <= pv.z {
        let k = choose|k: int| 0 <= k < vs.len() && b.min.z == (#[trigger] vs[k].spec_block_pos()).z;
        assert(ws[k] == vs[k]);
        assert(b2.min.z == ws[k].spec_block_pos().z);
    } else {
        assert(b2.min.z == ws[n].spec_block_pos().z);
    }
    if b.max.x >= pv.x {
        let k = choose|k: int| 0 <= k < vs.len() && b.max.x == (#[trigger] vs[k].spec_block_pos()).x;
        assert(ws[k] == vs[k]);
        assert(b2.max.x == ws[k].spec_block_pos().x);
    } else {
        assert(b2.max.x == ws[n].spec_block_pos().x);
    }
    if b.max.y >= pv.y {
        let k = choose|k: int| 0 <= k < vs.len() && b.max.y == (#[trigger] vs[k].spec_block_pos()).y;
        assert(ws[k] == vs[k]);
        assert(b2.max.y == ws[k].spec_block_pos().y);
    } else {
        assert(b2.max.y == ws[n].spec_block_pos().y);
    }
    if b.max.z >= pv.z {
        let k = choose|k: int| 0 <= k < vs.len() && b.max.z == (#[trigger] vs[k].spec_block_pos()).z;
        assert(ws[k] == vs[k]);
        assert(b2.max.z == ws[k].spec_block_pos().z);
    } else {
        assert(b2.max.z == ws[n].spec_block_pos().z);
    }
}

/// A sequence of items has at most one minimal bounding box.
pub proof fn lemma_bounds_unique<T: GetBlockPos>(b1: BlockAabb, b2: BlockAabb, vs: Seq<T>)
    requires
        is_bounds(b1, vs),
        is_bounds(b2, vs),
    ensures
        b1 == b2,
{
    assert(b1.min == b2.min);
    assert(b1.max == b2.max);
}

/// Union of boxes is commutative.
pub proof fn lemma_union_commutative(a: BlockAabb, b: BlockAabb)
    ensures
        a.spec_union(b) == b.spec_union(a),
{
}

/// Union of boxes is associative.
pub proof fn lemma_union_associative(a: BlockAabb, b: BlockAabb, c: BlockAabb)
    ensures
        a.spec_union(b).spec_union(c) == a.spec_union(b.spec_union(c)),
{
}

/// Union of boxes is idempotent.
pub proof fn lemma_union_idempotent(a: BlockAabb)
    ensures
        a.spec_union(a) == a,
{
}

/// The intersection test is symmetric.
pub proof fn lemma_intersects_symmetric(a: BlockAabb, b: BlockAabb)
    ensures
        a.spec_intersects(b) == b.spec_intersects(a),
{
}

/// A box built from a single point has extent zero.
pub proof fn lemma_point_extent_zero(p: BlockPos)
    ensures
        point_box(p).spec_surface_area() == 0,
{
}

/// The extent metric is monotonically non-decreasing under union.
pub proof fn lemma_union_extent_monotone(a: BlockAabb, b: BlockAabb)
    ensures
        a.spec_union(b).spec_surface_area() >= a.spec_surface_area(),
        a.spec_union(b).spec_surface_area() >= b.spec_surface_area(),
{
}

/// An element of one sequence occurs in every sequence with the same
/// multiset of elements.
proof fn lemma_contains_transfer<T>(vs1: Seq<T>, vs2: Seq<T>, x: T)
    requires
        vs1.to_multiset() == vs2.to_multiset(),
        vs1.contains(x),
    ensures
        vs2.contains(x),
{
    broadcast use vstd::seq_lib::group_to_multiset_ensures;

    assert(vs1.to_multiset().count(x) > 0);
    assert(vs2.to_multiset().count(x) > 0);
}

/// The minimal bounding box depends only on which items a sequence holds,
/// not on their order.
pub proof fn lemma_is_bounds_permutation<T: GetBlockPos>(b: BlockAabb, vs1: Seq<T>, vs2: Seq<T>)
    requires
        is_bounds(b, vs1),
        vs1.to_multiset() == vs2.to_multiset(),
    ensures
        is_bounds(b, vs2),
{
    broadcast use vstd::seq_lib::group_to_multiset_ensures;

    assert forall|k: int|
        0 <= k < vs2.len() implies b.encloses(
        point_box(#[trigger] vs2[k].spec_block_pos()),
    ) by {
        assert(vs2.contains(vs2[k]));
        lemma_contains_transfer(vs2, vs1, vs2[k]);
        let j = choose|j: int| 0 <= j < vs1.len() && vs1[j] == vs2[k];
        assert(b.encloses(point_box(vs1[j].spec_block_pos())));
    }
    let kx = choose|k: int| 0 <= k < vs1.len() && b.min.x == (#[trigger] vs1[k].spec_block_pos()).x;
    lemma_contains_transfer(vs1, vs2, vs1[kx]);
    let jx = choose|j: int| 0 <= j < vs2.len() && vs2[j] == vs1[kx];
    assert(b.min.x == vs2[jx].spec_block_pos().x);
    let ky = choose|k: int| 0 <= k < vs1.len() && b.min.y == (#[trigger] vs1[k].spec_block_pos()).y;
    lemma_contains_transfer(vs1, vs2, vs1[ky]);
    let jy = choose|j: int| 0 <= j < vs2.len() && vs2[j] == vs1[ky];
    assert(b.min.y == vs2[jy].spec_block_pos().y);
    let kz = choose|k: int| 0 <= k < vs1.len() && b.min.z == (#[trigger] vs1[k].spec_block_pos()).z;
    lemma_contains_transfer(vs1, vs2, vs1[kz]);
    let jz = choose|j: int| 0 <= j < vs2.len() && vs2[j] == vs1[kz];
    assert(b.min.z == vs2[jz].spec_block_pos().z);
    let mx = choose|k: int| 0 <= k < vs1.len() && b.max.x == (#[trigger] vs1[k].spec_block_pos()).x;
    lemma_contains_transfer(vs1, vs2, vs1[mx]);
    let nx = choose|j: int| 0 <= j < vs2.len() && vs2[j] == vs1[mx];
    assert(b.max.x == vs2[nx].spec_block_pos().x);
    let my = choose|k: int| 0 <= k < vs1.len() && b.max.y == (#[trigger] vs1[k].spec_block_pos()).y;
    lemma_contains_transfer(vs1, vs2, vs1[my]);
    let ny = choose|j: int| 0 <= j < vs2.len() && vs2[j] == vs1[my];
    assert(b.max.y == vs2[ny].spec_block_pos().y);
    let mz = choose|k: int| 0 <= k < vs1.len() && b.max.z == (#[trigger] vs1[k].spec_block_pos()).z;
    lemma_contains_transfer(vs1, vs2, vs1[mz]);
    let nz = choose|j: int| 0 <= j < vs2.len() && vs2[j] == vs1[mz];
    assert(b.max.z == vs2[nz].spec_block_pos().z);
}

/// Whether every item of a sequence sits on one given side of a box's split
/// midpoint depends only on which items the sequence holds, not their order.
proof fn lemma_split_side_permutation<T: GetBlockPos>(
    b: BlockAabb,
    s1: Seq<T>,
    s2: Seq<T>,
    below: bool,
)
    requires
        s1.to_multiset() == s2.to_multiset(),
        forall|k: int|
            0 <= k < s1.len() ==> (if below {
                b.spec_split_coord(#[trigger] s1[k].spec_block_pos()) < b.spec_split_mid()
            } else {
                b.spec_split_coord(#[trigger] s1[k].spec_block_pos()) >= b.spec_split_mid()
            }),
    ensures
        forall|k: int|
            0 <= k < s2.len() ==> (if below {
                b.spec_split_coord(#[trigger] s2[k].spec_block_pos()) < b.spec_split_mid()
            } else {
                b.spec_split_coord(#[trigger] s2[k].spec_block_pos()) >= b.spec_split_mid()
            }),
{
    assert forall|k: int|
        0 <= k < s2.len() implies (if below {
        b.spec_split_coord(#[trigger] s2[k].spec_block_pos()) < b.spec_split_mid()
    } else {
        b.spec_split_coord(#[trigger] s2[k].spec_block_pos()) >= b.spec_split_mid()
    }) by {
        assert(s2.contains(s2[k]));
        lemma_contains_transfer(s2, s1, s2[k]);
        let j = choose|j: int| 0 <= j < s1.len() && s1[j] == s2[k];
        if below {
            assert(b.spec_split_coord(s1[j].spec_block_pos()) < b.spec_split_mid());
        } else {
            assert(b.spec_split_coord(s1[j].spec_block_pos()) >= b.spec_split_mid());
        }
    }
}

/// The minimal bounding box of a concatenation is the union of the two
/// parts' minimal bounding boxes.
pub proof fn lemma_is_bounds_concat<T: GetBlockPos>(
    a: BlockAabb,
    b: BlockAabb,
    s1: Seq<T>,
    s2: Seq<T>,
)
    requires
        is_bounds(a, s1),
        is_bounds(b, s2),
    ensures
        is_bounds(a.spec_union(b), s1 + s2),
{
    let u = a.spec_union(b);
    let s = s1 + s2;
    let n1 = s1.len() as int;
    assert forall|k: int|
        0 <= k < s.len() implies u.encloses(point_box(#[trigger] s[k].spec_block_pos())) by {
        if k < n1 {
            assert(s[k] == s1[k]);
            assert(a.encloses(point_box(s1[k].spec_block_pos())));
        } else {
            assert(s[k] == s2[k - n1]);
            assert(b.encloses(point_box(s2[k - n1].spec_block_pos())));
        }
    }
    if a.min.x <= b.min.x {
        let k = choose|k: int| 0 <= k < s1.len() && a.min.x == (#[trigger] s1[k].spec_block_pos()).x;
        assert(u.min.x == s[k].spec_block_pos().x);
    } else {
        let k = choose|k: int| 0 <= k < s2.len() && b.min.x == (#[trigger] s2[k].spec_block_pos()).x;
        assert(u.min.x == s[k + n1].spec_block_pos().x);
    }
    if a.min.y <= b.min.y {
        let k = choose|k: int| 0 <= k < s1.len() && a.min.y == (#[trigger] s1[k].spec_block_pos()).y;
        assert(u.min.y == s[k].spec_block_pos().y);
    } else {
        let k = choose|k: int| 0 <= k < s2.len() && b.min.y == (#[trigger] s2[k].spec_block_pos()).y;
        assert(u.min.y == s[k + n1].spec_block_pos().y);
    }
    if a.min.z <= b.min.z {
        let k = choose|k: int| 0 <= k < s1.len() && a.min.z == (#[trigger] s1[k].spec_block_pos()).z;
        assert(u.min.z == s[k].spec_block_pos().z);
    } else {
        let k = choose|k: int| 0 <= k < s2.len() && b.min.z == (#[trigger] s2[k].spec_block_pos()).z;
        assert(u.min.z == s[k + n1].spec_block_pos().z);
    }
    if a.max.x >= b.max.x {
        let k = choose|k: int| 0 <= k < s1.len() && a.max.x == (#[trigger] s1[k].spec_block_pos()).x;
        assert(u.max.x == s[k].spec_block_pos().x);
    } else {
        let k = choose|k: int| 0 <= k < s2.len() && b.max.x == (#[trigger] s2[k].spec_block_pos()).x;
        assert(u.max.x == s[k + n1].spec_block_pos().x);
    }
    if a.max.y >= b.max.y {
        let k = choose|k: int| 0 <= k < s1.len() && a.max.y == (#[trigger] s1[k].spec_block_pos()).y;
        assert(u.max.y == s[k].spec_block_pos().y);
    } else {
        let k = choose|k: int| 0 <= k < s2.len() && b.max.y == (#[trigger] s2[k].spec_block_pos()).y;
        assert(u.max.y == s[k + n1].spec_block_pos().y);
    }
    if a.max.z >= b.max.z {
        let k = choose|k: int| 0 <= k < s1.len() && a.max.z == (#[trigger] s1[k].spec_block_pos()).z;
        assert(u.max.z == s[k].spec_block_pos().z);
    } else {
        let k = choose|k: int| 0 <= k < s2.len() && b.max.z == (#[trigger] s2[k].spec_block_pos()).z;
        assert(u.max.z == s[k + n1].spec_block_pos().z);
    }
}

/// Computes the minimal bounding box over the items of a slice, or `None`
/// when the slice is empty.
pub fn value_bounds<T: GetBlockPos>(values: &[T]) -> (r: Option<BlockAabb>)
    ensures
        match r {
            Option::None => values@.len() == 0,
            Option::Some(b) => values@.len() > 0 && is_bounds(b, values@),
        },
{
    if values.len() == 0 {
        return Option::None;
    }
    let mut acc = BlockAabb::point(values[0].block_pos());
    let mut k: usize = 1;
    proof {
        assert(values@.subrange(0, 1) =~= seq![values@[0]]);
        lemma_is_bounds_singleton(values@.subrange(0, 1));
        assert(values@.subrange(0, 1)[0] == values@[0]);
    }
    while k < values.len()
        invariant
            1 <= k <= values@.len(),
            is_bounds(acc, values@.subrange(0, k as int)),
        decreases values@.len() - k,
    {
        let ghost prefix = values@.subrange(0, k as int);
        proof {
            lemma_is_bounds_push(acc, prefix, values@[k as int]);
            assert(values@.subrange(0, k as int + 1) =~= prefix.push(values@[k as int]));
        }
        acc = acc.union(BlockAabb::point(values[k].block_pos()));
        k += 1;
    }
    assert(values@.subrange(0, values@.len() as int) =~= values@);
    Option::Some(acc)
}

/// A tree over block positions: the generic arena instantiated with block
/// coordinates and their boxes.
pub type BlockBvh<T> = Bvh<T, BlockPos, BlockAabb>;

/// Splitting the box spatially makes no progress on these items: along the
/// split axis, every item's coordinate falls on the same side of the
/// midpoint, so one half of the partition would be empty.
pub open spec fn split_makes_no_progress<T: GetBlockPos>(b: BlockAabb, vs: Seq<T>) -> bool {
    ||| forall|k: int|
        0 <= k < vs.len() ==> b.spec_split_coord(#[trigger] vs[k].spec_block_pos())
            < b.spec_split_mid()
    ||| forall|k: int|
        0 <= k < vs.len() ==> b.spec_split_coord(#[trigger] vs[k].spec_block_pos())
            >= b.spec_split_mid()
}

/// The first value index covered by the subtree rooted at arena index `i`:
/// the start of its leftmost leaf.
pub open spec fn subtree_lo(nodes: Seq<Node<BlockAabb>>, i: int) -> int
    decreases i,
{
    if 0 <= i < nodes.len() {
        match nodes[i] {
            Node::Leaf { start, .. } => start as int,
            Node::Internal { left, .. } => if (left as int) < i {
                subtree_lo(nodes, left as int)
            } else {
                0
            },
        }
    } else {
        0
    }
}

/// The subtree rooted at arena index `i` is well formed, occupies exactly
/// the arena segment `[alo, i]` (post-order: the left subtree's nodes, then
/// the right subtree's, then the root, so every node of the segment belongs
/// to the tree and has exactly one parent), and covers exactly the value
/// range `[lo, hi)`. An internal node's children split the range at the
/// start of the right subtree, its bounds is the union of its children's
/// bounds, and its range is split by coordinate against the spatial midpoint
/// of its box's longest axis: values below the midpoint on the left, the
/// rest on the right. A leaf's bounds is the minimal box over its value
/// range. The leaf threshold governs the shape: an internal node exists only
/// where its box's extent exceeds `thresh`, and a leaf whose extent exceeds
/// `thresh` is allowed only where the spatial split makes no progress.
pub open spec fn wf_node<T: GetBlockPos>(
    nodes: Seq<Node<BlockAabb>>,
    vs: Seq<T>,
    thresh: int,
    alo: int,
    i: int,
    lo: int,
    hi: int,
) -> bool
    decreases i,
{
    &&& 0 <= alo <= i < nodes.len()
    &&& 0 <= lo < hi <= vs.len()
    &&& match nodes[i] {
        Node::Leaf { bounds, start, end } => {
            &&& alo == i
            &&& start as int == lo
            &&& end as int == hi
            &&& is_bounds(bounds, vs.subrange(lo, hi))
            &&& (bounds.spec_surface_area() <= thresh || split_makes_no_progress(
                bounds,
                vs.subrange(lo, hi),
            ))
        },
        Node::Internal { bounds, left, right } => {
            let mid = subtree_lo(nodes, right as int);
            &&& right as int == i - 1
            &&& alo <= (left as int) < i - 1
            &&& bounds == nodes[left as int].spec_bounds().spec_union(
                nodes[right as int].spec_bounds(),
            )
            &&& bounds.spec_surface_area() > thresh
            &&& lo < mid < hi
            &&& (forall|k: int|
                lo <= k < mid ==> bounds.spec_split_coord(#[trigger] vs[k].spec_block_pos())
                    < bounds.spec_split_mid())
            &&& (forall|k: int|
                mid <= k < hi ==> bounds.spec_split_coord(#[trigger] vs[k].spec_block_pos())
                    >= bounds.spec_split_mid())
            &&& wf_node(nodes, vs, thresh, alo, left as int, lo, mid)
            &&& wf_node(nodes, vs, thresh, left as int + 1, right as int, mid, hi)
        },
    }
}

/// A well-formed subtree's leftmost leaf starts at the subtree's own range
/// start.
pub proof fn lemma_wf_node_lo<T: GetBlockPos>(
    nodes: Seq<Node<BlockAabb>>,
    vs: Seq<T>,
    thresh: int,
    alo: int,
    i: int,
    lo: int,
    hi: int,
)
    requires
        wf_node(nodes, vs, thresh, alo, i, lo, hi),
    ensures
        subtree_lo(nodes, i) == lo,
    decreases i,
{
    match nodes[i] {
        Node::Leaf { bounds, start, end } => {},
        Node::Internal { bounds, left, right } => {
            let mid = subtree_lo(nodes, right as int);
            lemma_wf_node_lo(nodes, vs, thresh, alo, left as int, lo, mid);
        },
    }
}

/// The start of a subtree's range reads only the arena entries up to its
/// root, so extending the arena does not change it.
pub proof fn lemma_subtree_lo_frame(
    nodes1: Seq<Node<BlockAabb>>,
    nodes2: Seq<Node<BlockAabb>>,
    i: int,
)
    requires
        0 <= i < nodes1.len(),
        nodes1.len() <= nodes2.len(),
        forall|k: int| 0 <= k < nodes1.len() ==> nodes2[k] == nodes1[k],
    ensures
        subtree_lo(nodes2, i) == subtree_lo(nodes1, i),
    decreases i,
{
    match nodes1[i] {
        Node::Leaf { bounds, start, end } => {},
        Node::Internal { bounds, left, right } => {
            if (left as int) < i {
                lemma_subtree_lo_frame(nodes1, nodes2, left as int);
            }
        },
    }
}

/// The per-node bounds invariant alone, without the range bookkeeping:
/// every internal node's bounds equals the union of its children's bounds
/// and every leaf's bounds is the minimal box over its value range.
pub open spec fn bounds_ok<T: GetBlockPos>(
    nodes: Seq<Node<BlockAabb>>,
    vs: Seq<T>,
    i: int,
) -> bool
    decreases i,
{
    &&& 0 <= i < nodes.len()
    &&& match nodes[i] {
        Node::Leaf { bounds, start, end } => {
            &&& (start as int) < (end as int)
            &&& end as int <= vs.len()
            &&& is_bounds(bounds, vs.subrange(start as int, end as int))
        },
        Node::Internal { bounds, left, right } => {
            &&& (left as int) < i
            &&& (right as int) < i
            &&& bounds_ok(nodes, vs, left as int)
            &&& bounds_ok(nodes, vs, right as int)
            &&& bounds == nodes[left as int].spec_bounds().spec_union(
                nodes[right as int].spec_bounds(),
            )
        },
    }
}

/// A well-formed subtree's bounds encloses the point box of every value in
/// its range.
pub proof fn lemma_wf_node_encloses<T: GetBlockPos>(
    nodes: Seq<Node<BlockAabb>>,
    vs: Seq<T>,
    thresh: int,
    alo: int,
    i: int,
    lo: int,
    hi: int,
    j: int,
)
    requires
        wf_node(nodes, vs, thresh, alo, i, lo, hi),
        lo <= j < hi,
    ensures
        nodes[i].spec_bounds().encloses(point_box(vs[j].spec_block_pos())),
    decreases i,
{
    match nodes[i] {
        Node::Leaf { bounds, start, end } => {
            assert(vs.subrange(lo, hi)[j - lo] == vs[j]);
            assert(bounds.encloses(point_box(vs.subrange(lo, hi)[j - lo].spec_block_pos())));
        },
        Node::Internal { bounds, left, right } => {
            let mid = subtree_lo(nodes, right as int);
            if j < mid {
                lemma_wf_node_encloses(nodes, vs, thresh, alo, left as int, lo, mid, j);
            } else {
                lemma_wf_node_encloses(nodes, vs, thresh, left as int + 1, right as int, mid, hi, j);
            }
        },
    }
}

/// Well-formedness of a subtree depends only on the arena entries up to its
/// root and the values inside its range: appending nodes or changing values
/// outside the range cannot disturb it.
pub proof fn lemma_wf_node_frame<T: GetBlockPos>(
    nodes1: Seq<Node<BlockAabb>>,
    vs1: Seq<T>,
    nodes2: Seq<Node<BlockAabb>>,
    vs2: Seq<T>,
    thresh: int,
    alo: int,
    i: int,
    lo: int,
    hi: int,
)
    requires
        wf_node(nodes1, vs1, thresh, alo, i, lo, hi),
        nodes1.len() <= nodes2.len(),
        forall|k: int| 0 <= k < nodes1.len() ==> nodes2[k] == nodes1[k],
        hi <= vs2.len(),
        forall|k: int| lo <= k < hi ==> vs2[k] == vs1[k],
    ensures
        wf_node(nodes2, vs2, thresh, alo, i, lo, hi),
    decreases i,
{
    match nodes1[i] {
        Node::Leaf { bounds, start, end } => {
            assert(vs2.subrange(lo, hi) =~= vs1.subrange(lo, hi));
        },
        Node::Internal { bounds, left, right } => {
            let mid = subtree_lo(nodes1, right as int);
            lemma_wf_node_frame(nodes1, vs1, nodes2, vs2, thresh, alo, left as int, lo, mid);
            lemma_wf_node_frame(
                nodes1,
                vs1,
                nodes2,
                vs2,
                thresh,
                left as int + 1,
                right as int,
                mid,
                hi,
            );
            lemma_subtree_lo_frame(nodes1, nodes2, right as int);
            assert forall|k: int|
                lo <= k < mid implies bounds.spec_split_coord(
                #[trigger] vs2[k].spec_block_pos(),
            ) < bounds.spec_split_mid() by {
                assert(vs2[k] == vs1[k]);
                assert(bounds.spec_split_coord(vs1[k].spec_block_pos())
                    < bounds.spec_split_mid());
            }
            assert forall|k: int|
                mid <= k < hi implies bounds.spec_split_coord(
                #[trigger] vs2[k].spec_block_pos(),
            ) >= bounds.spec_split_mid() by {
                assert(vs2[k] == vs1[k]);
                assert(bounds.spec_split_coord(vs1[k].spec_block_pos())
                    >= bounds.spec_split_mid());
            }
        },
    }
}

/// A well-formed subtree satisfies the per-node bounds invariant.
pub proof fn lemma_wf_node_bounds_ok<T: GetBlockPos>(
    nodes: Seq<Node<BlockAabb>>,
    vs: Seq<T>,
    thresh: int,
    alo: int,
    i: int,
    lo: int,
    hi: int,
)
    requires
        wf_node(nodes, vs, thresh, alo, i, lo, hi),
    ensures
        bounds_ok(nodes, vs, i),
    decreases i,
{
    match nodes[i] {
        Node::Leaf { bounds, start, end } => {},
        Node::Internal { bounds, left, right } => {
            let mid = subtree_lo(nodes, right as int);
            lemma_wf_node_bounds_ok(nodes, vs, thresh, alo, left as int, lo, mid);
            lemma_wf_node_bounds_ok(nodes, vs, thresh, left as int + 1, right as int, mid, hi);
        },
    }
}

/// Relies on `slice::swap` (through `Vec`'s mutable deref): exchanges the
/// elements at the two indices in place and touches nothing else.
#[verifier::external_body]
fn vec_swap<T>(values: &mut Vec<T>, a: usize, b: usize)
    requires
        a < old(values)@.len(),
        b < old(values)@.len(),
    ensures
        final(values)@ == old(values)@.update(a as int, old(values)@[b as int]).update(
            b as int,
            old(values)@[a as int],
        ),
{
    values.swap(a, b);
}

/// Swapping two positions inside a range leaves the range's multiset of
/// elements, and everything outside the range, unchanged.
proof fn lemma_swap_subrange_multiset<T>(
    s1: Seq<T>,
    s2: Seq<T>,
    start: int,
    end: int,
    a: int,
    b: int,
)
    requires
        0 <= start <= a < b < end <= s1.len(),
        s2 == s1.update(a, s1[b]).update(b, s1[a]),
    ensures
        s2.len() == s1.len(),
        s2.subrange(start, end).to_multiset() == s1.subrange(start, end).to_multiset(),
        forall|k: int| 0 <= k < s1.len() && k != a && k != b ==> s2[k] == s1[k],
    decreases end - start,
{
    broadcast use vstd::seq_lib::to_multiset_update;
    broadcast use vstd::seq_lib::group_to_multiset_ensures;

    let u = s1.subrange(start, end);
    let w = s2.subrange(start, end);
    let ai = a - start;
    let bi = b - start;
    let u1 = u.update(ai, u[bi]);
    assert(w =~= u1.update(bi, u[ai]));
    assert(u1.to_multiset() == u.to_multiset().insert(u[bi]).remove(u[ai]));
    assert(w.to_multiset() == u1.to_multiset().insert(u[ai]).remove(u1[bi]));
    assert(u1[bi] == u[bi]);
    assert(u.contains(u[ai]));
    assert(u.to_multiset().count(u[ai]) > 0);
    assert(w.to_multiset() =~= u.to_multiset());
}

/// Partitions the value range `[start, end)` in place: items on which the
/// predicate returns true end up at the front, the rest at the back, and the
/// returned partition point counts the front items. Only which items the
/// range holds is preserved, not their order.
pub fn partition<T, F: Fn(&T) -> bool>(
    values: &mut Vec<T>,
    start: usize,
    end: usize,
    pred: F,
) -> (p: usize)
    requires
        start <= end <= old(values)@.len(),
        forall|v: &T| #[trigger] call_requires(pred, (v,)),
    ensures
        p <= end - start,
        final(values)@.len() == old(values)@.len(),
        forall|k: int|
            0 <= k < old(values)@.len() && !(start <= k < end) ==> final(values)@[k] == old(
                values,
            )@[k],
        final(values)@.subrange(start as int, end as int).to_multiset() == old(values)@.subrange(
            start as int,
            end as int,
        ).to_multiset(),
        forall|k: int|
            start <= k < start + p ==> call_ensures(pred, (&final(values)@[k],), true),
        forall|k: int| start + p <= k < end ==> call_ensures(pred, (&final(values)@[k],), false),
{
    let mut i: usize = start;
    let mut j: usize = end;
    while i < j
        invariant
            start <= i <= j <= end <= values@.len(),
            values@.len() == old(values)@.len(),
            forall|k: int|
                0 <= k < values@.len() && !(start <= k < end) ==> values@[k] == old(values)@[k],
            values@.subrange(start as int, end as int).to_multiset() == old(values)@.subrange(
                start as int,
                end as int,
            ).to_multiset(),
            forall|k: int| start <= k < i ==> call_ensures(pred, (&values@[k],), true),
            forall|k: int| j <= k < end ==> call_ensures(pred, (&values@[k],), false),
            forall|v: &T| #[trigger] call_requires(pred, (v,)),
        decreases j - i,
    {
        let c = pred(&values[i]);
        if c {
            i += 1;
        } else if i + 1 == j {
            j -= 1;
        } else {
            let c2 = pred(&values[j - 1]);
            if c2 {
                let ghost before = values@;
                vec_swap(values, i, j - 1);
                proof {
                    lemma_swap_subrange_multiset(
                        before,
                        values@,
                        start as int,
                        end as int,
                        i as int,
                        j - 1 as int,
                    );
                }
                i += 1;
                j -= 1;
            } else {
                j -= 1;
            }
        }
    }
    i - start
}

/// Borrows the subrange `[start, end)` of a vector as a slice.
fn subslice<T>(v: &Vec<T>, start: usize, end: usize) -> (r: &[T])
    requires
        start <= end <= v@.len(),
    ensures
        r@ == v@.subrange(start as int, end as int),
{
    &v[start..end]
}

/// Two sequences whose halves around a cut point hold the same multisets
/// hold the same multiset over the whole range.
proof fn lemma_subrange_multiset_compose<T>(s1: Seq<T>, s2: Seq<T>, lo: int, mid: int, hi: int)
    requires
        0 <= lo <= mid <= hi <= s1.len(),
        s1.len() == s2.len(),
        s1.subrange(lo, mid).to_multiset() == s2.subrange(lo, mid).to_multiset(),
        s1.subrange(mid, hi).to_multiset() == s2.subrange(mid, hi).to_multiset(),
    ensures
        s1.subrange(lo, hi).to_multiset() == s2.subrange(lo, hi).to_multiset(),
{
    assert(s1.subrange(lo, hi) =~= s1.subrange(lo, mid) + s1.subrange(mid, hi));
    assert(s2.subrange(lo, hi) =~= s2.subrange(lo, mid) + s2.subrange(mid, hi));
    vstd::seq_lib::lemma_multiset_commutative(s1.subrange(lo, mid), s1.subrange(mid, hi));
    vstd::seq_lib::lemma_multiset_commutative(s2.subrange(lo, mid), s2.subrange(mid, hi));
}

/// Relies on `Vec::shrink_to_fit`: drops excess backing capacity and keeps
/// the contents exactly as they are.
#[verifier::external_body]
fn vec_shrink<A>(v: &mut Vec<A>)
    ensures
        final(v)@ == old(v)@,
{
    v.shrink_to_fit();
}

/// An element of a sequence still occurs in every extension of it.
proof fn lemma_prefix_contains<A>(s1: Seq<A>, s2: Seq<A>, x: A)
    requires
        s1.len() <= s2.len(),
        forall|k: int| 0 <= k < s1.len() ==> s2[k] == s1[k],
        s1.contains(x),
    ensures
        s2.contains(x),
{
    let k = choose|k: int| 0 <= k < s1.len() && s1[k] == x;
    assert(s2[k] == x);
}

/// A well-formed subtree occupies its arena segment exactly, so every node
/// of the segment — not only the root — satisfies the bounds invariant.
pub proof fn lemma_wf_node_all_nodes<T: GetBlockPos>(
    nodes: Seq<Node<BlockAabb>>,
    vs: Seq<T>,
    thresh: int,
    alo: int,
    i: int,
    lo: int,
    hi: int,
    j: int,
)
    requires
        wf_node(nodes, vs, thresh, alo, i, lo, hi),
        alo <= j <= i,
    ensures
        bounds_ok(nodes, vs, j),
    decreases i,
{
    if j == i {
        lemma_wf_node_bounds_ok(nodes, vs, thresh, alo, i, lo, hi);
    } else {
        match nodes[i] {
            Node::Leaf { bounds, start, end } => {},
            Node::Internal { bounds, left, right } => {
                let mid = subtree_lo(nodes, right as int);
                if j <= left as int {
                    lemma_wf_node_all_nodes(nodes, vs, thresh, alo, left as int, lo, mid, j);
                } else {
                    lemma_wf_node_all_nodes(
                        nodes,
                        vs,
                        thresh,
                        left as int + 1,
                        right as int,
                        mid,
                        hi,
                        j,
                    );
                }
            },
        }
    }
}

/// Carries the facts the partition and the two half builds establish about
/// the value arena through to its final arrangement: the two halves keep
/// their minimal bounding boxes, the parent's box is their union, and every
/// value stays on its side of the split midpoint.
proof fn lemma_build_sides_carry<T: GetBlockPos>(
    vs1: Seq<T>,
    vs2: Seq<T>,
    vs3: Seq<T>,
    loi: int,
    spi: int,
    hii: int,
    bounds: BlockAabb,
    left_bounds: BlockAabb,
    right_bounds: BlockAabb,
)
    requires
        0 <= loi < spi < hii <= vs1.len(),
        vs2.len() == vs1.len(),
        vs3.len() == vs1.len(),
        forall|k: int| loi <= k < spi ==> vs3[k] == vs2[k],
        forall|k: int| spi <= k < hii ==> vs2[k] == vs1[k],
        vs2.subrange(loi, spi).to_multiset() == vs1.subrange(loi, spi).to_multiset(),
        vs3.subrange(spi, hii).to_multiset() == vs2.subrange(spi, hii).to_multiset(),
        is_bounds(bounds, vs1.subrange(loi, hii)),
        is_bounds(left_bounds, vs1.subrange(loi, spi)),
        is_bounds(right_bounds, vs1.subrange(spi, hii)),
        forall|k: int|
            loi <= k < spi ==> bounds.spec_split_coord(#[trigger] vs1[k].spec_block_pos())
                < bounds.spec_split_mid(),
        forall|k: int|
            spi <= k < hii ==> bounds.spec_split_coord(#[trigger] vs1[k].spec_block_pos())
                >= bounds.spec_split_mid(),
    ensures
        is_bounds(left_bounds, vs3.subrange(loi, spi)),
        is_bounds(right_bounds, vs3.subrange(spi, hii)),
        bounds == left_bounds.spec_union(right_bounds),
        forall|k: int|
            loi <= k < spi ==> bounds.spec_split_coord(#[trigger] vs3[k].spec_block_pos())
                < bounds.spec_split_mid(),
        forall|k: int|
            spi <= k < hii ==> bounds.spec_split_coord(#[trigger] vs3[k].spec_block_pos())
                >= bounds.spec_split_mid(),
{
    // The parent's box is the union of its children's boxes: both are
    // minimal boxes of the same value range, which is unique.
    assert(is_bounds(left_bounds, vs2.subrange(loi, spi)) && vs3.subrange(loi, spi)
        =~= vs2.subrange(loi, spi)) by {
        lemma_is_bounds_permutation(left_bounds, vs1.subrange(loi, spi), vs2.subrange(loi, spi));
    }
    assert(is_bounds(right_bounds, vs3.subrange(spi, hii))) by {
        assert(vs2.subrange(spi, hii) =~= vs1.subrange(spi, hii));
        lemma_is_bounds_permutation(right_bounds, vs2.subrange(spi, hii), vs3.subrange(spi, hii));
    }
    lemma_is_bounds_concat(
        left_bounds,
        right_bounds,
        vs3.subrange(loi, spi),
        vs3.subrange(spi, hii),
    );
    assert(vs3.subrange(loi, spi) + vs3.subrange(spi, hii) =~= vs3.subrange(loi, hii));
    assert(is_bounds(bounds, vs3.subrange(loi, hii))) by {
        assert(vs2.subrange(spi, hii) =~= vs1.subrange(spi, hii));
        lemma_subrange_multiset_compose(vs1, vs2, loi, spi, hii);
        lemma_subrange_multiset_compose(vs2, vs3, loi, spi, hii);
        lemma_is_bounds_permutation(bounds, vs1.subrange(loi, hii), vs3.subrange(loi, hii));
    }
    lemma_bounds_unique(bounds, left_bounds.spec_union(right_bounds), vs3.subrange(loi, hii));
    // The split-side classification established by the partition is a
    // property of each item, so it survives the permutations the two
    // recursive builds apply within their halves.
    assert forall|k: int|
        0 <= k < vs1.subrange(loi, spi).len() implies bounds.spec_split_coord(
        #[trigger] vs1.subrange(loi, spi)[k].spec_block_pos(),
    ) < bounds.spec_split_mid() by {
        assert(vs1.subrange(loi, spi)[k] == vs1[loi + k]);
    }
    lemma_split_side_permutation(bounds, vs1.subrange(loi, spi), vs3.subrange(loi, spi), true);
    assert forall|k: int|
        loi <= k < spi implies bounds.spec_split_coord(#[trigger] vs3[k].spec_block_pos())
        < bounds.spec_split_mid() by {
        assert(vs3.subrange(loi, spi)[k - loi] == vs3[k]);
    }
    assert forall|k: int|
        0 <= k < vs1.subrange(spi, hii).len() implies bounds.spec_split_coord(
        #[trigger] vs1.subrange(spi, hii)[k].spec_block_pos(),
    ) >= bounds.spec_split_mid() by {
        assert(vs1.subrange(spi, hii)[k] == vs1[spi + k]);
    }
    assert(vs3.subrange(spi, hii).to_multiset() == vs1.subrange(spi, hii).to_multiset()) by {
        assert(vs2.subrange(spi, hii) =~= vs1.subrange(spi, hii));
    }
    lemma_split_side_permutation(bounds, vs1.subrange(spi, hii), vs3.subrange(spi, hii), false);
    assert forall|k: int|
        spi <= k < hii implies bounds.spec_split_coord(#[trigger] vs3[k].spec_block_pos())
        >= bounds.spec_split_mid() by {
        assert(vs3.subrange(spi, hii)[k - spi] == vs3[k]);
    }
}

/// Assembles well-formedness of a freshly pushed internal node from the
/// well-formedness of its two just-built children: the arenas before the
/// left build (`n0` nodes), after it (`nodes_l`), after the right build
/// (`nodes_r`) and after the push (`nodes4`), and the value arenas after the
/// partition (`vs1`), the left build (`vs2`) and the right build (`vs3`).
proof fn lemma_build_internal_wf<T: GetBlockPos>(
    nodes_l: Seq<Node<BlockAabb>>,
    nodes_r: Seq<Node<BlockAabb>>,
    nodes4: Seq<Node<BlockAabb>>,
    vs1: Seq<T>,
    vs2: Seq<T>,
    vs3: Seq<T>,
    thr: int,
    n0: int,
    loi: int,
    spi: int,
    hii: int,
    bounds: BlockAabb,
    left_bounds: BlockAabb,
    right_bounds: BlockAabb,
)
    requires
        0 <= n0,
        0 <= loi < spi < hii <= vs1.len(),
        vs2.len() == vs1.len(),
        vs3.len() == vs1.len(),
        n0 < nodes_l.len() < nodes_r.len() < nodes4.len(),
        nodes4.len() == nodes_r.len() + 1,
        nodes_r.len() <= 0xFFFF_FFFF,
        forall|k: int| 0 <= k < nodes_l.len() ==> nodes_r[k] == nodes_l[k],
        forall|k: int| 0 <= k < nodes_r.len() ==> nodes4[k] == nodes_r[k],
        nodes4[nodes4.len() - 1] == (Node::Internal {
            bounds,
            left: (nodes_l.len() - 1) as u32,
            right: (nodes_r.len() - 1) as u32,
        }),
        wf_node(nodes_l, vs2, thr, n0, nodes_l.len() - 1, loi, spi),
        wf_node(nodes_r, vs3, thr, nodes_l.len() as int, nodes_r.len() - 1, spi, hii),
        forall|k: int| loi <= k < spi ==> vs3[k] == vs2[k],
        forall|k: int| spi <= k < hii ==> vs2[k] == vs1[k],
        vs2.subrange(loi, spi).to_multiset() == vs1.subrange(loi, spi).to_multiset(),
        vs3.subrange(spi, hii).to_multiset() == vs2.subrange(spi, hii).to_multiset(),
        is_bounds(bounds, vs1.subrange(loi, hii)),
        is_bounds(left_bounds, vs1.subrange(loi, spi)),
        is_bounds(right_bounds, vs1.subrange(spi, hii)),
        nodes_l[nodes_l.len() - 1].spec_bounds() == left_bounds,
        nodes_r[nodes_r.len() - 1].spec_bounds() == right_bounds,
        bounds.spec_surface_area() > thr,
        forall|k: int|
            loi <= k < spi ==> bounds.spec_split_coord(#[trigger] vs1[k].spec_block_pos())
                < bounds.spec_split_mid(),
        forall|k: int|
            spi <= k < hii ==> bounds.spec_split_coord(#[trigger] vs1[k].spec_block_pos())
                >= bounds.spec_split_mid(),
    ensures
        wf_node(nodes4, vs3, thr, n0, nodes4.len() - 1, loi, hii),
{
    let li = nodes_l.len() - 1;
    let ri = nodes_r.len() - 1;
    // Both subtrees stay well formed in the final arena and value
    // arrangement.
    lemma_wf_node_frame(nodes_l, vs2, nodes4, vs3, thr, n0, li, loi, spi);
    lemma_wf_node_frame(nodes_r, vs3, nodes4, vs3, thr, li + 1, ri, spi, hii);
    lemma_wf_node_lo(nodes4, vs3, thr, li + 1, ri, spi, hii);
    lemma_build_sides_carry(vs1, vs2, vs3, loi, spi, hii, bounds, left_bounds, right_bounds);
    assert(nodes4[li].spec_bounds() == left_bounds);
    assert(nodes4[ri].spec_bounds() == right_bounds);
    assert(wf_node(nodes4, vs3, thr, n0, nodes4.len() - 1, loi, hii));
}

impl<T: GetBlockPos> BlockBvh<T> {
    /// The container invariant: the threshold is positive, an empty node
    /// arena means an empty value arena, and otherwise the node arena is
    /// exactly the post-order layout of a well-formed tree rooted in its
    /// last node and covering the whole value arena — it holds no node
    /// outside that tree.
    pub open spec fn wf(&self) -> bool {
        &&& self.max_surface_area > 0
        &&& (self.nodes@.len() == 0 ==> self.values@.len() == 0)
        &&& (self.nodes@.len() > 0 ==> wf_node(
            self.nodes@,
            self.values@,
            self.max_surface_area as int,
            0,
            self.nodes@.len() - 1,
            0,
            self.values@.len() as int,
        ))
    }

    /// What a query must return: exactly the indices of the values whose
    /// point box intersects the view, in strictly increasing order.
    pub open spec fn query_matches(&self, view: BlockAabb, r: Seq<usize>) -> bool {
        &&& forall|k: int|
            0 <= k < r.len() ==> #[trigger] r[k] < self.values@.len() && view.spec_intersects(
                point_box(self.values@[r[k] as int].spec_block_pos()),
            )
        &&& forall|j: int|
            0 <= j < self.values@.len() && view.spec_intersects(
                point_box(#[trigger] self.values@[j].spec_block_pos()),
            ) ==> r.contains(j as usize)
        &&& forall|k1: int, k2: int| 0 <= k1 < k2 < r.len() ==> r[k1] < r[k2]
    }

    /// Returns a reference to the value stored at the given arena index.
    pub fn get(&self, i: usize) -> (r: &T)
        requires
            i < self.values@.len(),
        ensures
            *r == self.values@[i as int],
    {
        &self.values[i]
    }

    /// Walks the subtree rooted at `idx`, skipping any subtree whose bounds
    /// does not intersect the view, and appends the index of every value in
    /// range `[lo, hi)` whose own point box intersects the view.
    fn query_rec(
        &self,
        idx: usize,
        view: BlockAabb,
        out: &mut Vec<usize>,
        alo: Ghost<int>,
        lo: Ghost<int>,
        hi: Ghost<int>,
    )
        requires
            wf_node(
                self.nodes@,
                self.values@,
                self.max_surface_area as int,
                alo@,
                idx as int,
                lo@,
                hi@,
            ),
            forall|k: int| 0 <= k < old(out)@.len() ==> old(out)@[k] < lo@,
            forall|k1: int, k2: int|
                0 <= k1 < k2 < old(out)@.len() ==> old(out)@[k1] < old(out)@[k2],
        ensures
            old(out)@.len() <= final(out)@.len(),
            forall|k: int| 0 <= k < old(out)@.len() ==> final(out)@[k] == old(out)@[k],
            forall|k: int|
                old(out)@.len() <= k < final(out)@.len() ==> lo@ <= #[trigger] final(out)@[k]
                    < hi@ && view.spec_intersects(
                    point_box(self.values@[final(out)@[k] as int].spec_block_pos()),
                ),
            forall|j: int|
                lo@ <= j < hi@ && view.spec_intersects(
                    point_box(#[trigger] self.values@[j].spec_block_pos()),
                ) ==> final(out)@.contains(j as usize),
            forall|k1: int, k2: int|
                0 <= k1 < k2 < final(out)@.len() ==> final(out)@[k1] < final(out)@[k2],
        decreases idx,
    {
        let node = self.nodes[idx];
        match node {
            Node::Leaf { bounds, start, end } => {
                if bounds.intersects(view) {
                    let mut j: usize = start as usize;
                    while j < end as usize
                        invariant
                            start as int <= j <= hi@,
                            end as int == hi@,
                            lo@ == start as int,
                            hi@ <= self.values@.len(),
                            out@.len() >= old(out)@.len(),
                            forall|k: int| 0 <= k < old(out)@.len() ==> out@[k] == old(out)@[k],
                            forall|k: int| 0 <= k < out@.len() ==> out@[k] < j,
                            forall|k: int|
                                old(out)@.len() <= k < out@.len() ==> lo@ <= #[trigger] out@[k]
                                    < hi@ && view.spec_intersects(
                                    point_box(self.values@[out@[k] as int].spec_block_pos()),
                                ),
                            forall|jj: int|
                                lo@ <= jj < j && view.spec_intersects(
                                    point_box(#[trigger] self.values@[jj].spec_block_pos()),
                                ) ==> out@.contains(jj as usize),
                            forall|k1: int, k2: int|
                                0 <= k1 < k2 < out@.len() ==> out@[k1] < out@[k2],
                        decreases hi@ - j,
                    {
                        let ghost prev = out@;
                        if view.intersects(BlockAabb::point(self.values[j].block_pos())) {
                            out.push(j);
                        }
                        proof {
                            assert forall|jj: int|
                                lo@ <= jj < j + 1 && view.spec_intersects(
                                    point_box(#[trigger] self.values@[jj].spec_block_pos()),
                                ) implies out@.contains(jj as usize) by {
                                if jj < j {
                                    lemma_prefix_contains(prev, out@, jj as usize);
                                } else {
                                    assert(out@[out@.len() - 1] == jj as usize);
                                }
                            }
                        }
                        j += 1;
                    }
                } else {
                    proof {
                        let ghost vs = self.values@;
                        assert forall|jj: int|
                            lo@ <= jj < hi@ && view.spec_intersects(
                                point_box(#[trigger] vs[jj].spec_block_pos()),
                            ) implies final(out)@.contains(jj as usize) by {
                            assert(vs.subrange(lo@, hi@)[jj - lo@] == vs[jj]);
                            assert(bounds.encloses(
                                point_box(vs.subrange(lo@, hi@)[jj - lo@].spec_block_pos()),
                            ));
                            assert(bounds.spec_intersects(view));
                        }
                    }
                }
            },
            Node::Internal { bounds, left, right } => {
                let ghost mid = subtree_lo(self.nodes@, right as int);
                if bounds.intersects(view) {
                    self.query_rec(left as usize, view, out, alo, lo, Ghost(mid));
                    let ghost after_left = out@;
                    self.query_rec(right as usize, view, out, Ghost(left as int + 1), Ghost(mid), hi);
                    proof {
                        assert forall|j: int|
                            lo@ <= j < hi@ && view.spec_intersects(
                                point_box(#[trigger] self.values@[j].spec_block_pos()),
                            ) implies final(out)@.contains(j as usize) by {
                            if j < mid {
                                lemma_prefix_contains(after_left, final(out)@, j as usize);
                            }
                        }
                    }
                } else {
                    proof {
                        assert forall|jj: int|
                            lo@ <= jj < hi@ && view.spec_intersects(
                                point_box(#[trigger] self.values@[jj].spec_block_pos()),
                            ) implies final(out)@.contains(jj as usize) by {
                            lemma_wf_node_encloses(
                                self.nodes@,
                                self.values@,
                                self.max_surface_area as int,
                                alo@,
                                idx as int,
                                lo@,
                                hi@,
                                jj,
                            );
                            assert(bounds.spec_intersects(view));
                        }
                    }
                }
            },
        }
    }

    /// Builds the subtree over the value range `[lo, hi)`, whose minimal
    /// bounding box is `bounds`: emits a leaf once the box's extent is at or
    /// below the threshold, otherwise partitions the range spatially at the
    /// midpoint of the box's longest axis and recurses into both halves,
    /// appending the parent after its children. A partition that makes no
    /// progress (every item lands on one side) falls back to a leaf, so the
    /// build always terminates.
    #[verifier::rlimit(60)]
    fn build_rec(&mut self, bounds: BlockAabb, lo: usize, hi: usize)
        requires
            old(self).max_surface_area > 0,
            lo < hi <= old(self).values@.len(),
            hi <= 0x7FFF_FFFF,
            is_bounds(bounds, old(self).values@.subrange(lo as int, hi as int)),
            old(self).nodes@.len() + 2 * (hi - lo) <= 0xFFFF_FFFF,
        ensures
            final(self).max_surface_area == old(self).max_surface_area,
            final(self).values@.len() == old(self).values@.len(),
            forall|k: int|
                0 <= k < old(self).values@.len() && !(lo <= k < hi) ==> final(self).values@[k]
                    == old(self).values@[k],
            final(self).values@.subrange(lo as int, hi as int).to_multiset() == old(
                self,
            ).values@.subrange(lo as int, hi as int).to_multiset(),
            old(self).nodes@.len() < final(self).nodes@.len(),
            final(self).nodes@.len() <= old(self).nodes@.len() + 2 * (hi - lo) - 1,
            forall|k: int|
                0 <= k < old(self).nodes@.len() ==> final(self).nodes@[k] == old(self).nodes@[k],
            wf_node(
                final(self).nodes@,
                final(self).values@,
                old(self).max_surface_area as int,
                old(self).nodes@.len() as int,
                final(self).nodes@.len() - 1,
                lo as int,
                hi as int,
            ),
            final(self).nodes@.last().spec_bounds() == bounds,
            bounds.spec_surface_area() <= old(self).max_surface_area ==> final(self).nodes@.len()
                == old(self).nodes@.len() + 1 && final(self).nodes@.last() is Leaf,
        decreases hi - lo,
    {
        proof {
            let s0 = self.values@.subrange(lo as int, hi as int);
            assert(s0[0] == self.values@[lo as int]);
            assert(bounds.encloses(point_box(s0[0].spec_block_pos())));
        }
        let sa = bounds.surface_area();
        if sa <= self.max_surface_area as i64 {
            self.nodes.push(Node::Leaf { bounds, start: lo as u32, end: hi as u32 });
            return ;
        }
        // Split along the spatial midpoint of the longest axis; ties prefer
        // x, then z. Items below the midpoint go to the front.
        let ghost thr: int = self.max_surface_area as int;
        let ghost vs0 = self.values@;
        let lx = bounds.length_x();
        let ly = bounds.length_y();
        let lz = bounds.length_z();
        let p: usize = if lx >= ly && lx >= lz {
            let m = middle(bounds.min.x, bounds.max.x);
            let pred = |v: &T| -> (b: bool)
                ensures
                    b == (v.spec_block_pos().x < m),
                { v.block_pos().x < m };
            let pp = partition(&mut self.values, lo, hi, pred);
            proof {
                assert(bounds.spec_split_mid() == m);
                assert forall|k: int|
                    lo <= k < lo + pp implies bounds.spec_split_coord(
                    #[trigger] self.values@[k].spec_block_pos(),
                ) < bounds.spec_split_mid() by {
                    assert(call_ensures(pred, (&self.values@[k],), true));
                }
                assert forall|k: int|
                    lo + pp <= k < hi implies bounds.spec_split_coord(
                    #[trigger] self.values@[k].spec_block_pos(),
                ) >= bounds.spec_split_mid() by {
                    assert(call_ensures(pred, (&self.values@[k],), false));
                }
            }
            pp
        } else if lz >= ly {
            let m = middle(bounds.min.z, bounds.max.z);
            let pred = |v: &T| -> (b: bool)
                ensures
                    b == (v.spec_block_pos().z < m),
                { v.block_pos().z < m };
            let pp = partition(&mut self.values, lo, hi, pred);
            proof {
                assert(bounds.spec_split_mid() == m);
                assert forall|k: int|
                    lo <= k < lo + pp implies bounds.spec_split_coord(
                    #[trigger] self.values@[k].spec_block_pos(),
                ) < bounds.spec_split_mid() by {
                    assert(call_ensures(pred, (&self.values@[k],), true));
                }
                assert forall|k: int|
                    lo + pp <= k < hi implies bounds.spec_split_coord(
                    #[trigger] self.values@[k].spec_block_pos(),
                ) >= bounds.spec_split_mid() by {
                    assert(call_ensures(pred, (&self.values@[k],), false));
                }
            }
            pp
        } else {
            let m = middle(bounds.min.y, bounds.max.y);
            let pred = |v: &T| -> (b: bool)
                ensures
                    b == (v.spec_block_pos().y < m),
                { v.block_pos().y < m };
            let pp = partition(&mut self.values, lo, hi, pred);
            proof {
                assert(bounds.spec_split_mid() == m);
                assert forall|k: int|
                    lo <= k < lo + pp implies bounds.spec_split_coord(
                    #[trigger] self.values@[k].spec_block_pos(),
                ) < bounds.spec_split_mid() by {
                    assert(call_ensures(pred, (&self.values@[k],), true));
                }
                assert forall|k: int|
                    lo + pp <= k < hi implies bounds.spec_split_coord(
                    #[trigger] self.values@[k].spec_block_pos(),
                ) >= bounds.spec_split_mid() by {
                    assert(call_ensures(pred, (&self.values@[k],), false));
                }
            }
            pp
        };
        let ghost vs1 = self.values@;
        proof {
            lemma_is_bounds_permutation(
                bounds,
                vs0.subrange(lo as int, hi as int),
                vs1.subrange(lo as int, hi as int),
            );
        }
        if p == 0 || p == hi - lo {
            // Degenerate spatial split: every item sits on one side of the
            // midpoint, so no smaller range would make progress. Emit a leaf
            // regardless of extent.
            proof {
                let sub = vs1.subrange(lo as int, hi as int);
                if p == 0 {
                    assert forall|k: int|
                        0 <= k < sub.len() implies bounds.spec_split_coord(
                        #[trigger] sub[k].spec_block_pos(),
                    ) >= bounds.spec_split_mid() by {
                        assert(sub[k] == vs1[lo + k]);
                    }
                } else {
                    assert forall|k: int|
                        0 <= k < sub.len() implies bounds.spec_split_coord(
                        #[trigger] sub[k].spec_block_pos(),
                    ) < bounds.spec_split_mid() by {
                        assert(sub[k] == vs1[lo + k]);
                    }
                }
                assert(split_makes_no_progress(bounds, sub));
            }
            self.nodes.push(Node::Leaf { bounds, start: lo as u32, end: hi as u32 });
            return ;
        }
        let split = lo + p;
        let left_bounds = value_bounds(subslice(&self.values, lo, split)).unwrap();
        let right_bounds = value_bounds(subslice(&self.values, split, hi)).unwrap();
        assert(is_bounds(left_bounds, vs1.subrange(lo as int, split as int)));
        assert(is_bounds(right_bounds, vs1.subrange(split as int, hi as int)));
        self.build_rec(left_bounds, lo, split);
        let left_idx = self.nodes.len() - 1;
        let ghost nodes_l = self.nodes@;
        let ghost vs2 = self.values@;
        proof {
            assert(vs2.subrange(split as int, hi as int) =~= vs1.subrange(
                split as int,
                hi as int,
            ));
            lemma_subrange_multiset_compose(vs1, vs2, lo as int, split as int, hi as int);
        }
        self.build_rec(right_bounds, split, hi);
        let right_idx = self.nodes.len() - 1;
        let ghost nodes_r = self.nodes@;
        let ghost vs3 = self.values@;
        proof {
            assert(vs3.subrange(lo as int, split as int) =~= vs2.subrange(
                lo as int,
                split as int,
            ));
            lemma_subrange_multiset_compose(vs2, vs3, lo as int, split as int, hi as int);
        }
        self.nodes.push(
            Node::Internal { bounds, left: left_idx as u32, right: right_idx as u32 },
        );
        proof {
            let n0 = old(self).nodes@.len() as int;
            assert(self.nodes@[self.nodes@.len() - 1] == (Node::Internal {
                bounds,
                left: left_idx as u32,
                right: right_idx as u32,
            }));
            lemma_build_internal_wf(
                nodes_l,
                nodes_r,
                self.nodes@,
                vs1,
                vs2,
                vs3,
                thr,
                n0,
                lo as int,
                split as int,
                hi as int,
                bounds,
                left_bounds,
                right_bounds,
            );
        }
    }

    /// Replaces the whole index: clears the arenas, adopts the given items
    /// as the new value arena, and rebuilds the tree over all of them. An
    /// empty batch yields an empty index on which every query is a no-op.
    pub fn build(&mut self, items: Vec<T>)
        requires
            old(self).max_surface_area > 0,
            items@.len() <= 0x7FFF_FFFF,
        ensures
            final(self).wf(),
            final(self).max_surface_area == old(self).max_surface_area,
            final(self).values@.len() == items@.len(),
            final(self).values@.to_multiset() == items@.to_multiset(),
            items@.len() == 0 ==> final(self).nodes@.len() == 0,
            items@.len() > 0 ==> final(self).nodes@.len() > 0 && is_bounds(
                final(self).nodes@.last().spec_bounds(),
                final(self).values@,
            ),
            items@.len() > 0 && final(self).nodes@.last().spec_bounds().spec_surface_area()
                <= old(self).max_surface_area ==> final(self).nodes@.len() == 1
                && final(self).nodes@.last() is Leaf,
    {
        self.nodes.clear();
        self.values = items;
        let n = self.values.len();
        let bounds_opt = value_bounds(subslice(&self.values, 0, n));
        match bounds_opt {
            Option::Some(bounds) => {
                let ghost before = self.values@;
                self.build_rec(bounds, 0, n);
                proof {
                    assert(before.subrange(0, n as int) =~= before);
                    assert(self.values@.subrange(0, n as int) =~= self.values@);
                    lemma_is_bounds_permutation(bounds, before, self.values@);
                }
            },
            Option::None => {},
        }
    }

    /// Collects the indices of exactly those values whose point box
    /// intersects the view, in strictly increasing index order. On an index
    /// that was never built (empty arena) this is a no-op returning nothing.
    pub fn query(&self, view: BlockAabb) -> (r: Vec<usize>)
        requires
            self.wf(),
        ensures
            self.query_matches(view, r@),
            self.values@.len() == 0 ==> r@.len() == 0,
    {
        let mut out: Vec<usize> = Vec::new();
        if self.nodes.len() > 0 {
            let root = self.nodes.len() - 1;
            self.query_rec(
                root,
                view,
                &mut out,
                Ghost(0int),
                Ghost(0int),
                Ghost(self.values@.len() as int),
            );
        }
        out
    }

    /// Releases excess backing capacity of both arenas. Purely a resource
    /// operation: the contents, and so every query result, stay the same.
    pub fn shrink_to_fit(&mut self)
        ensures
            final(self).nodes@ == old(self).nodes@,
            final(self).values@ == old(self).values@,
            final(self).max_surface_area == old(self).max_surface_area,
    {
        vec_shrink(&mut self.nodes);
        vec_shrink(&mut self.values);
    }

    /// Recursively checks the per-node bounds invariant under `idx`: an
    /// internal node's bounds must equal the union of its children's bounds
    /// and a leaf's bounds must equal the minimal box over its value range.
    pub fn check_invariants_rec(&self, idx: usize) -> (r: bool)
        requires
            idx < self.nodes@.len(),
        ensures
            r == bounds_ok(self.nodes@, self.values@, idx as int),
        decreases idx,
    {
        let node = self.nodes[idx];
        match node {
            Node::Internal { bounds, left, right } => {
                if !((left as usize) < idx && (right as usize) < idx) {
                    return false;
                }
                let lb = self.nodes[left as usize].bounds();
                let rb = self.nodes[right as usize].bounds();
                if !(lb.union(rb) == bounds) {
                    return false;
                }
                self.check_invariants_rec(left as usize) && self.check_invariants_rec(
                    right as usize,
                )
            },
            Node::Leaf { bounds, start, end } => {
                if !(start < end) {
                    return false;
                }
                if end as usize > self.values.len() {
                    return false;
                }
                let ghost sub = self.values@.subrange(start as int, end as int);
                match value_bounds(subslice(&self.values, start as usize, end as usize)) {
                    Option::Some(b) => {
                        proof {
                            if b != bounds && is_bounds(bounds, sub) {
                                lemma_bounds_unique(b, bounds, sub);
                            }
                        }
                        b == bounds
                    },
                    Option::None => false,
                }
            },
        }
    }

    /// Checks the bounds invariant of the whole tree; an empty index passes.
    /// On a well-formed index, as every build produces, this returns true.
    pub fn check_invariants(&self) -> (r: bool)
        ensures
            r == (self.nodes@.len() == 0 || bounds_ok(
                self.nodes@,
                self.values@,
                self.nodes@.len() - 1,
            )),
            self.wf() ==> r,
    {
        proof {
            if self.wf() && self.nodes@.len() > 0 {
                lemma_wf_node_bounds_ok(
                    self.nodes@,
                    self.values@,
                    self.max_surface_area as int,
                    0,
                    self.nodes@.len() - 1,
                    0,
                    self.values@.len() as int,
                );
            }
        }
        if self.nodes.len() == 0 {
            return true;
        }
        self.check_invariants_rec(self.nodes.len() - 1)
    }

    /// The set of value indices whose point box intersects the view: what a
    /// brute-force linear scan over the value arena would select.
    pub open spec fn matching_indices(&self, view: BlockAabb) -> Set<usize> {
        Set::new(
            |i: usize|
                i < self.values@.len() && view.spec_intersects(
                    point_box(self.values@[i as int].spec_block_pos()),
                ),
        )
    }

    /// Round-trip coverage: a query yields, without duplicates, exactly the
    /// set of indices a brute-force linear scan over the value arena would
    /// select for the same view.
    pub proof fn lemma_query_round_trip(&self, view: BlockAabb, r: Seq<usize>)
        requires
            self.query_matches(view, r),
        ensures
            r.to_set() == self.matching_indices(view),
            r.no_duplicates(),
    {
        assert forall|x: usize|
            r.to_set().contains(x) implies self.matching_indices(view).contains(x) by {
            let k = choose|k: int| 0 <= k < r.len() && r[k] == x;
            assert(r[k] < self.values@.len());
            assert(view.spec_intersects(point_box(self.values@[x as int].spec_block_pos())));
        }
        assert forall|x: usize|
            self.matching_indices(view).contains(x) implies r.to_set().contains(x) by {
            assert(view.spec_intersects(point_box(self.values@[x as int].spec_block_pos())));
            assert(r.contains(x));
        }
        assert(r.to_set() =~= self.matching_indices(view));
        assert forall|i: int, j: int|
            0 <= i < r.len() && 0 <= j < r.len() && i != j implies r[i] != r[j] by {
            if i < j {
                assert(r[i] < r[j]);
            } else {
                assert(r[j] < r[i]);
            }
        }
    }

    /// On a well-formed index the arena is exactly the tree in post-order,
    /// so every arena node — not only those reachable from the root —
    /// satisfies the bounds invariant: an internal node's bounds equals the
    /// union of its children's bounds (children at strictly smaller
    /// indices), and a leaf's bounds is the minimal box over its nonempty
    /// value range.
    pub proof fn lemma_wf_all_arena_nodes(&self, j: int)
        requires
            self.wf(),
            0 <= j < self.nodes@.len(),
        ensures
            bounds_ok(self.nodes@, self.values@, j),
    {
        lemma_wf_node_all_nodes(
            self.nodes@,
            self.values@,
            self.max_surface_area as int,
            0,
            self.nodes@.len() - 1,
            0,
            self.values@.len() as int,
            j,
        );
    }

    /// Queries are idempotent: the query contract pins the result sequence
    /// completely, so any two results for the same view on the same
    /// unmodified index are equal.
    pub proof fn lemma_query_idempotent(&self, view: BlockAabb, r1: Seq<usize>, r2: Seq<usize>)
        requires
            self.query_matches(view, r1),
            self.query_matches(view, r2),
        ensures
            r1 == r2,
    {
        assert forall|x: usize| r1.contains(x) implies r2.contains(x) by {
            let k = choose|k: int| 0 <= k < r1.len() && r1[k] == x;
            assert(r1[k] < self.values@.len());
            assert(view.spec_intersects(point_box(self.values@[x as int].spec_block_pos())));
        }
        assert forall|x: usize| r2.contains(x) implies r1.contains(x) by {
            let k = choose|k: int| 0 <= k < r2.len() && r2[k] == x;
            assert(r2[k] < self.values@.len());
            assert(view.spec_intersects(point_box(self.values@[x as int].spec_block_pos())));
        }
        lemma_strictly_increasing_same_set(r1, r2);
    }
}

/// Two strictly increasing sequences that contain the same elements are
/// equal.
proof fn lemma_strictly_increasing_same_set(r1: Seq<usize>, r2: Seq<usize>)
    requires
        forall|k1: int, k2: int| 0 <= k1 < k2 < r1.len() ==> r1[k1] < r1[k2],
        forall|k1: int, k2: int| 0 <= k1 < k2 < r2.len() ==> r2[k1] < r2[k2],
        forall|x: usize| r1.contains(x) <==> r2.contains(x),
    ensures
        r1 == r2,
    decreases r1.len(),
{
    if r1.len() == 0 {
        if r2.len() > 0 {
            assert(r2.contains(r2[0]));
        }
        assert(r1 =~= r2);
    } else {
        assert(r1.contains(r1[0]));
        let j = choose|j: int| 0 <= j < r2.len() && r2[j] == r1[0];
        assert(r2[0] <= r1[0]);
        assert(r2.contains(r2[0]));
        let i = choose|i: int| 0 <= i < r1.len() && r1[i] == r2[0];
        assert(r1[0] <= r2[0]);
        let t1 = r1.drop_first();
        let t2 = r2.drop_first();
        assert forall|x: usize| t1.contains(x) implies t2.contains(x) by {
            let k = choose|k: int| 0 <= k < t1.len() && t1[k] == x;
            assert(r1[k + 1] == x);
            assert(r1[0] < x);
            assert(r1.contains(x));
            let m = choose|m: int| 0 <= m < r2.len() && r2[m] == x;
            assert(m != 0);
            assert(t2[m - 1] == x);
        }
        assert forall|x: usize| t2.contains(x) implies t1.contains(x) by {
            let k = choose|k: int| 0 <= k < t2.len() && t2[k] == x;
            assert(r2[k + 1] == x);
            assert(r2[0] < x);
            assert(r2.contains(x));
            let m = choose|m: int| 0 <= m < r1.len() && r1[m] == x;
            assert(m != 0);
            assert(t1[m - 1] == x);
        }
        assert forall|k1: int, k2: int| 0 <= k1 < k2 < t1.len() implies t1[k1] < t1[k2] by {
            assert(r1[k1 + 1] < r1[k2 + 1]);
        }
        assert forall|k1: int, k2: int| 0 <= k1 < k2 < t2.len() implies t2[k1] < t2[k2] by {
            assert(r2[k1 + 1] < r2[k2 + 1]);
        }
        lemma_strictly_increasing_same_set(t1, t2);
        assert(r1.len() == r2.len());
        assert forall|k: int| 0 <= k < r1.len() implies r1[k] == r2[k] by {
            if k > 0 {
                assert(t1[k - 1] == r1[k]);
                assert(t2[k - 1] == r2[k]);
            }
        }
        assert(r1 =~= r2);
    }
}

} // verus!

