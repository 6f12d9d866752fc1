//! Points and extents on the integer grid of a drawing surface.

use vstd::prelude::*;

verus! {

/// A position on the grid. `y` grows downwards, as on a screen.
#[derive(Clone, Copy, Debug, PartialEq, Eq, Structural)]
pub struct Point {
    pub x: i64,
    pub y: i64,
}

/// The bounding box of a triangle.
#[derive(Clone, Copy, Debug, PartialEq, Eq, Structural)]
pub struct Size {
    pub width: i64,
    pub height: i64,
}

/// The box of `extent` whose bottom-left corner is `origin` has non-negative
/// sides and lies on the grid: its right edge and its top edge are
/// representable.
pub open spec fn fits(origin: Point, extent: Size) -> bool {
    &&& 0 <= extent.width
    &&& 0 <= extent.height
    &&& origin.x + extent.width <= i64::MAX
    &&& origin.y - extent.height >= i64::MIN
}

/// Half of `extent`, each side rounded down to the grid.
pub open spec fn half(extent: Size) -> Size {
    Size { width: (extent.width / 2) as i64, height: (extent.height / 2) as i64 }
}

/// The origin of the child in `slot`, for children of extent `inner`: slot 0
/// sits at the parent's origin, slot 1 one child width to the right, and any
/// other slot half a child width to the right and one child height up.
pub open spec fn child_origin(origin: Point, inner: Size, slot: int) -> Point {
    if slot == 0 {
        origin
    } else if slot == 1 {
        Point { x: (origin.x + inner.width) as i64, y: origin.y }
    } else {
        Point { x: (origin.x + inner.width / 2) as i64, y: (origin.y - inner.height) as i64 }
    }
}

/// The three corners of the triangle in the box at `origin`: bottom left,
/// bottom right, and the apex above the middle of the base.
pub open spec fn vertices(origin: Point, extent: Size) -> (Point, Point, Point) {
    (
        origin,
        Point { x: (origin.x + extent.width) as i64, y: origin.y },
        Point { x: (origin.x + extent.width / 2) as i64, y: (origin.y - extent.height) as i64 },
    )
}

impl Size {
    /// A square extent.
    pub fn new(width: i64) -> (s: Size)
        ensures
            s == (Size { width, height: width }),
    {
        Size { width, height: width }
    }

    /// The extent of each child.
    pub fn halved(&self) -> (inner: Size)
        requires
            0 <= self.width,
            0 <= self.height,
        ensures
            inner == half(*self),
    {
        Size { width: self.width / 2, height: self.height / 2 }
    }
}

/// Whether the box of `extent` at `origin` lies on the grid.
pub fn check_fits(origin: &Point, extent: &Size) -> (ok: bool)
    ensures
        ok == fits(*origin, *extent),
{
    extent.width >= 0 && extent.height >= 0 && origin.x <= i64::MAX - extent.width && origin.y
        >= i64::MIN + extent.height
}

/// Computes [`child_origin`].
pub fn place_child(origin: &Point, inner: &Size, slot: u8) -> (p: Point)
    requires
        fits(*origin, *inner),
    ensures
        p == child_origin(*origin, *inner, slot as int),
{
    if slot == 0 {
        *origin
    } else if slot == 1 {
        Point { x: origin.x + inner.width, y: origin.y }
    } else {
        Point { x: origin.x + inner.width / 2, y: origin.y - inner.height }
    }
}

/// A child's box lies inside its parent's: where the parent fits the grid,
/// so does each child.
pub proof fn lemma_child_fits(origin: Point, extent: Size, slot: int)
    requires
        fits(origin, extent),
    ensures
        fits(child_origin(origin, half(extent), slot), half(extent)),
{
}

/// Where a box fits the grid, its children stand exactly so: the first two
/// on the parent's baseline, the first at its origin and the second one
/// child width to the right; the third half a child width to the right and
/// one child height up.
pub proof fn lemma_child_geometry(origin: Point, extent: Size)
    requires
        fits(origin, extent),
    ensures
        child_origin(origin, half(extent), 0) == origin,
        child_origin(origin, half(extent), 1).y == origin.y,
        child_origin(origin, half(extent), 1).x == origin.x + half(extent).width,
        child_origin(origin, half(extent), 2).x == origin.x + half(extent).width / 2,
        child_origin(origin, half(extent), 2).y == origin.y - half(extent).height,
{
}

/// Where a box fits the grid, its triangle's corners stand exactly at the
/// origin, one width to the right of it, and half a width to the right and
/// one height up.
pub proof fn lemma_vertices(origin: Point, extent: Size)
    requires
        fits(origin, extent),
    ensures
        vertices(origin, extent).0 == origin,
        vertices(origin, extent).1.x == origin.x + extent.width,
        vertices(origin, extent).1.y == origin.y,
        vertices(origin, extent).2.x == origin.x + extent.width / 2,
        vertices(origin, extent).2.y == origin.y - extent.height,
{
}

/// `v` can be halved `times` times in a row without a remainder.
pub open spec fn halves_evenly(v: int, times: nat) -> bool
    decreases times,
{
    times == 0 || (v % 2 == 0 && halves_evenly(v / 2, (times - 1) as nat))
}

/// Where a width halves evenly once more than there are levels to draw, and
/// a height as often as there are levels, nothing is rounded on the way
/// down: the children are exactly half as wide and as high, the top child's
/// offset of half a child width is exact, and the same holds of the
/// children with one level fewer.
pub proof fn lemma_exact_levels(extent: Size, levels: nat)
    requires
        levels > 0,
        halves_evenly(extent.width as int, levels + 1),
        halves_evenly(extent.height as int, levels),
    ensures
        2 * half(extent).width == extent.width,
        2 * half(extent).height == extent.height,
        2 * (half(extent).width / 2) == half(extent).width,
        halves_evenly(half(extent).width as int, levels),
        halves_evenly(half(extent).height as int, (levels - 1) as nat),
{
    assert(halves_evenly(extent.width / 2, levels));
}

/// Halving is exact on even sides.
pub proof fn lemma_half_exact(extent: Size)
    requires
        extent.width % 2 == 0,
        extent.height % 2 == 0,
    ensures
        2 * half(extent).width == extent.width,
        2 * half(extent).height == extent.height,
{
}

} // verus!
