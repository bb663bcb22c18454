//! Axis-aligned rectangles in integer world coordinates, and the affine map
//! from cell indices to world coordinates.

use vstd::prelude::*;

verus! {

/// The largest absolute value of a world coordinate that a tile may hold.
/// Twice a coordinate within the limit still fits an `i64`.
pub const WORLD_LIMIT: i64 = 4_000_000_000_000_000_000;

/// An axis-aligned rectangle, given by its four edges in world units.
#[derive(Clone, Copy, Debug, PartialEq, Eq, Structural)]
pub struct Rectangle {
    pub left: i64,
    pub bottom: i64,
    pub right: i64,
    pub top: i64,
}

impl Rectangle {
    /// Every point of `self` is a point of `outer`.
    pub open spec fn within(self, outer: Rectangle) -> bool {
        &&& outer.left <= self.left
        &&& self.right <= outer.right
        &&& outer.bottom <= self.bottom
        &&& self.top <= outer.top
    }

    /// The two rectangles share a region of positive area.
    pub open spec fn overlaps_spec(self, other: Rectangle) -> bool {
        &&& self.left < other.right
        &&& other.left < self.right
        &&& self.bottom < other.top
        &&& other.bottom < self.top
    }

    /// The vertices of the boundary, closed: from (left, bottom) clockwise
    /// and back to (left, bottom).
    pub open spec fn ring_spec(self) -> Seq<(i64, i64)> {
        seq![
            (self.left, self.bottom),
            (self.left, self.top),
            (self.right, self.top),
            (self.right, self.bottom),
            (self.left, self.bottom),
        ]
    }

    /// Whether the two rectangles share a region of positive area. Rectangles
    /// that only touch along an edge or at a corner do not overlap.
    #[verifier::when_used_as_spec(overlaps_spec)]
    pub fn overlaps(self, other: Rectangle) -> (b: bool)
        ensures
            b == self.overlaps_spec(other),
    {
        self.left < other.right && other.left < self.right && self.bottom < other.top
            && other.bottom < self.top
    }

    /// The boundary as a closed ring of five vertices.
    pub fn ring(&self) -> (vertices: Vec<(i64, i64)>)
        ensures
            vertices@ == self.ring_spec(),
    {
        let mut vertices: Vec<(i64, i64)> = Vec::new();
        vertices.push((self.left, self.bottom));
        vertices.push((self.left, self.top));
        vertices.push((self.right, self.top));
        vertices.push((self.right, self.bottom));
        vertices.push((self.left, self.bottom));
        assert(vertices@ =~= self.ring_spec());
        vertices
    }
}

/// The geometry can be asked about every rectangle.
pub open spec fn askable<G: Fn(Rectangle) -> bool>(geom: &G) -> bool {
    forall|rect: Rectangle| #[trigger] geom.requires((rect,))
}

/// Whatever the geometry answers for a rectangle is what `hit` says of the
/// rectangle: `geom` computes `hit`.
pub open spec fn computes<G: Fn(Rectangle) -> bool>(
    geom: &G,
    hit: spec_fn(Rectangle) -> bool,
) -> bool {
    forall|rect: Rectangle, b: bool| #[trigger] geom.ensures((rect,), b) ==> b == hit(rect)
}

/// `hit` accepts every rectangle that contains a rectangle it accepts, as a
/// test for intersection with a fixed shape does.
pub open spec fn monotone(hit: spec_fn(Rectangle) -> bool) -> bool {
    forall|inner: Rectangle, outer: Rectangle|
        inner.within(outer) && #[trigger] hit(inner) ==> #[trigger] hit(outer)
}

/// Overlap with a fixed rectangle is monotone: a rectangle that contains one
/// that overlaps `shape` overlaps `shape` too.
pub proof fn lemma_overlaps_monotone(shape: Rectangle)
    ensures
        monotone(|rect: Rectangle| rect.overlaps_spec(shape)),
{
}

/// The rectangle whose edges are `bounds`, read as (left, bottom, right, top).
pub fn mk_rectangle(bounds: (i64, i64, i64, i64)) -> (rect: Rectangle)
    ensures
        rect == rectangle_of(bounds),
{
    Rectangle { left: bounds.0, bottom: bounds.1, right: bounds.2, top: bounds.3 }
}

/// `bounds`, read as (left, bottom, right, top), as a rectangle.
pub open spec fn rectangle_of(bounds: (i64, i64, i64, i64)) -> Rectangle {
    Rectangle { left: bounds.0, bottom: bounds.1, right: bounds.2, top: bounds.3 }
}

/// Twice the x coordinate of the centre of a cell in column `col`.
pub open spec fn centre_x2(col: int, width: int, left: int) -> int {
    2 * left + width * (2 * col + 1)
}

/// Twice the y coordinate of the centre of a cell in row `row`. Rows count
/// downwards from `top`.
pub open spec fn centre_y2(row: int, height: int, top: int) -> int {
    2 * top - height * (2 * row + 1)
}

/// The centre of cell (`row`, `col`) of a grid whose upper left corner is
/// (`left`, `top`) and whose cells measure `resolution` (width, height).
///
/// Both coordinates are returned doubled: the centre of a cell of odd size
/// lies half a unit off the integers, and twice the centre is exact.
pub fn get_coordinates(
    row: usize,
    col: usize,
    resolution: (i64, i64),
    left: i64,
    top: i64,
) -> (centre: (i64, i64))
    requires
        i64::MIN <= centre_x2(col as int, resolution.0 as int, left as int) <= i64::MAX,
        i64::MIN <= centre_y2(row as int, resolution.1 as int, top as int) <= i64::MAX,
    ensures
        centre.0 == centre_x2(col as int, resolution.0 as int, left as int),
        centre.1 == centre_y2(row as int, resolution.1 as int, top as int),
{
    let width: i128 = resolution.0 as i128;
    let height: i128 = resolution.1 as i128;
    let across: i128 = 2 * (col as i128) + 1;
    let down: i128 = 2 * (row as i128) + 1;
    assert(width * across == centre_x2(col as int, resolution.0 as int, left as int) - 2 * left);
    assert(height * down == 2 * top - centre_y2(row as int, resolution.1 as int, top as int));
    let x2: i128 = 2 * (left as i128) + width * across;
    let y2: i128 = 2 * (top as i128) - height * down;
    (x2 as i64, y2 as i64)
}

} // verus!
