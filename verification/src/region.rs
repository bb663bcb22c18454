//! The part of a grid that a tile covers, in index space and in world space.

use vstd::prelude::*;
use crate::fault::Fault;
use crate::geometry::{
    centre_x2, centre_y2, get_coordinates, mk_rectangle, Rectangle, WORLD_LIMIT,
};

verus! {

/// A block of grid cells together with the world rectangle that it covers.
///
/// `origin` is the (row, column) of the block's first cell, `shape` its number
/// of (rows, columns), `bounds` its world rectangle as (left, bottom, right,
/// top) and `resolution` the (width, height) of one cell. Rows count downwards
/// from the top edge.
#[derive(Clone, Copy, Debug)]
pub struct Region {
    pub origin: (usize, usize),
    pub shape: (usize, usize),
    pub bounds: (i64, i64, i64, i64),
    pub resolution: (i64, i64),
}

/// The fault in the four values that describe a block, if there is one: a
/// resolution that is not positive, then a coordinate or an index range that
/// is out of range, then bounds that are not the cells.
pub open spec fn frame_fault(
    shape: (usize, usize),
    bounds: (i64, i64, i64, i64),
    origin: (usize, usize),
    resolution: (i64, i64),
) -> Option<Fault> {
    if resolution.0 <= 0 || resolution.1 <= 0 {
        Some(Fault::BadResolution)
    } else if origin.0 + shape.0 > usize::MAX || origin.1 + shape.1 > usize::MAX
        || !within_limit(bounds.0 as int) || !within_limit(bounds.1 as int) || !within_limit(
        bounds.2 as int,
    ) || !within_limit(bounds.3 as int) {
        Some(Fault::OutOfRange)
    } else if bounds.2 != bounds.0 + resolution.0 * shape.1 || bounds.3 != bounds.1 + resolution.1
        * shape.0 {
        Some(Fault::BoundsMismatch)
    } else {
        None
    }
}

/// `x` is a world coordinate that a tile may hold.
pub open spec fn within_limit(x: int) -> bool {
    -WORLD_LIMIT <= x <= WORLD_LIMIT
}

impl Region {
    /// The number of rows of the block.
    pub open spec fn rows(self) -> int {
        self.shape.0 as int
    }

    /// The number of columns of the block.
    pub open spec fn cols(self) -> int {
        self.shape.1 as int
    }

    /// The world x coordinate of the left edge.
    pub open spec fn left(self) -> int {
        self.bounds.0 as int
    }

    /// The world y coordinate of the bottom edge.
    pub open spec fn bottom(self) -> int {
        self.bounds.1 as int
    }

    /// The world x coordinate of the right edge.
    pub open spec fn right(self) -> int {
        self.bounds.2 as int
    }

    /// The world y coordinate of the top edge.
    pub open spec fn top(self) -> int {
        self.bounds.3 as int
    }

    /// The width of one cell.
    pub open spec fn width(self) -> int {
        self.resolution.0 as int
    }

    /// The height of one cell.
    pub open spec fn height(self) -> int {
        self.resolution.1 as int
    }

    /// The bounds are exactly the cells: positive resolution, coordinates
    /// within the limit, and `right - left` and `top - bottom` equal to the
    /// cell counts times the cell size.
    pub open spec fn valid(self) -> bool {
        frame_fault(self.shape, self.bounds, self.origin, self.resolution) is None
    }

    /// Cell (`r`, `c`) of the grid belongs to the block.
    pub open spec fn contains_cell(self, r: int, c: int) -> bool {
        &&& self.origin.0 <= r < self.origin.0 + self.rows()
        &&& self.origin.1 <= c < self.origin.1 + self.cols()
    }

    /// Every cell of `self` is a cell of `outer`.
    pub open spec fn cells_within(self, outer: Region) -> bool {
        &&& outer.origin.0 <= self.origin.0
        &&& self.origin.0 + self.rows() <= outer.origin.0 + outer.rows()
        &&& outer.origin.1 <= self.origin.1
        &&& self.origin.1 + self.cols() <= outer.origin.1 + outer.cols()
    }

    /// The world rectangle of the block.
    pub open spec fn rectangle(self) -> Rectangle {
        Rectangle {
            left: self.bounds.0,
            bottom: self.bounds.1,
            right: self.bounds.2,
            top: self.bounds.3,
        }
    }

    /// The world point (`x`, `y`) lies in the block, whose right and bottom
    /// edges are left to its neighbours.
    pub open spec fn contains_point(self, x: int, y: int) -> bool {
        &&& self.left() <= x < self.right()
        &&& self.bottom() < y <= self.top()
    }

    /// The world rectangle of cell (`r`, `c`), for grid indices `r` and `c`:
    /// the cell's centre, half a cell to each side.
    pub open spec fn pixel(self, r: int, c: int) -> Rectangle {
        Rectangle {
            left: (self.left() + self.width() * (c - self.origin.1)) as i64,
            bottom: (self.top() - self.height() * (r - self.origin.0 + 1)) as i64,
            right: (self.left() + self.width() * (c - self.origin.1 + 1)) as i64,
            top: (self.top() - self.height() * (r - self.origin.0)) as i64,
        }
    }

    /// A block can be quartered when it has two rows and two columns at least,
    /// so that none of its quarters is empty.
    pub open spec fn can_split(self) -> bool {
        self.shape.0 >= 2 && self.shape.1 >= 2
    }

    /// Rows of the northern half: half of the rows, rounded down.
    pub open spec fn north_rows(self) -> int {
        self.rows() / 2
    }

    /// Columns of the western half: half of the columns, rounded down.
    pub open spec fn west_cols(self) -> int {
        self.cols() / 2
    }

    /// The world x coordinate at which the western half ends.
    pub open spec fn mid_x(self) -> int {
        self.left() + self.width() * self.west_cols()
    }

    /// The world y coordinate at which the northern half ends.
    pub open spec fn mid_y(self) -> int {
        self.top() - self.height() * self.north_rows()
    }

    /// Quarter `i` of the block, in the order north-west, north-east,
    /// south-west, south-east. A quarter keeps the resolution; its origin is
    /// the block's, moved by the rows above it and the columns left of it.
    pub open spec fn quadrant(self, i: int) -> Region {
        let south = i >= 2;
        let east = i == 1 || i == 3;
        Region {
            origin: (
                if south { (self.origin.0 + self.north_rows()) as usize } else { self.origin.0 },
                if east { (self.origin.1 + self.west_cols()) as usize } else { self.origin.1 },
            ),
            shape: (
                if south { (self.rows() - self.north_rows()) as usize } else {
                    self.north_rows() as usize
                },
                if east { (self.cols() - self.west_cols()) as usize } else {
                    self.west_cols() as usize
                },
            ),
            bounds: (
                if east { self.mid_x() as i64 } else { self.bounds.0 },
                if south { self.bounds.1 } else { self.mid_y() as i64 },
                if east { self.bounds.2 } else { self.mid_x() as i64 },
                if south { self.mid_y() as i64 } else { self.bounds.3 },
            ),
            resolution: self.resolution,
        }
    }

    /// The quarter in which cell (`r`, `c`) of the block lies.
    pub open spec fn quadrant_of_cell(self, r: int, c: int) -> int {
        (if r < self.origin.0 + self.north_rows() { 0int } else { 2int })
        + (if c < self.origin.1 + self.west_cols() { 0int } else { 1int })
    }

    /// The quarter in which the world point (`x`, `y`) of the block lies.
    pub open spec fn quadrant_of_point(self, x: int, y: int) -> int {
        (if y > self.mid_y() { 0int } else { 2int })
        + (if x < self.mid_x() { 0int } else { 1int })
    }
}

impl Region {
    /// The block with the given shape, bounds, origin and resolution, or the
    /// fault that the four values show.
    pub fn new(
        shape: (usize, usize),
        bounds: (i64, i64, i64, i64),
        origin: (usize, usize),
        resolution: (i64, i64),
    ) -> (made: Result<Region, Fault>)
        ensures
            match made {
                Ok(region) => {
                    &&& frame_fault(shape, bounds, origin, resolution) is None
                    &&& region == (Region { origin, shape, bounds, resolution })
                },
                Err(fault) => frame_fault(shape, bounds, origin, resolution) == Some(fault),
            },
    {
        if resolution.0 <= 0 || resolution.1 <= 0 {
            return Err(Fault::BadResolution);
        }
        if origin.0.checked_add(shape.0).is_none() || origin.1.checked_add(shape.1).is_none() {
            return Err(Fault::OutOfRange);
        }
        if !coordinate_within_limit(bounds.0) || !coordinate_within_limit(bounds.1)
            || !coordinate_within_limit(bounds.2) || !coordinate_within_limit(bounds.3) {
            return Err(Fault::OutOfRange);
        }
        let width: i128 = resolution.0 as i128;
        let height: i128 = resolution.1 as i128;
        let ncols: i128 = shape.1 as i128;
        let nrows: i128 = shape.0 as i128;
        assert(0 <= width * ncols <= 0x7fff_ffff_ffff_ffff * 0xffff_ffff_ffff_ffff)
            by (nonlinear_arith)
            requires
                0 < width <= 0x7fff_ffff_ffff_ffff,
                0 <= ncols <= 0xffff_ffff_ffff_ffff,
        ;
        assert(0 <= height * nrows <= 0x7fff_ffff_ffff_ffff * 0xffff_ffff_ffff_ffff)
            by (nonlinear_arith)
            requires
                0 < height <= 0x7fff_ffff_ffff_ffff,
                0 <= nrows <= 0xffff_ffff_ffff_ffff,
        ;
        let across: i128 = width * ncols;
        let down: i128 = height * nrows;
        if bounds.2 as i128 != bounds.0 as i128 + across || bounds.3 as i128 != bounds.1 as i128
            + down {
            return Err(Fault::BoundsMismatch);
        }
        Ok(Region { origin, shape, bounds, resolution })
    }

    /// The four quarters of the block: north-west, north-east, south-west,
    /// south-east.
    pub fn quarter(&self) -> (quarters: Vec<Region>)
        requires
            self.valid(),
        ensures
            quarters.len() == 4,
            forall|i: int| 0 <= i < 4 ==> #[trigger] quarters[i] == self.quadrant(i),
    {
        proof {
            lemma_mid_lines(*self);
        }
        let (nrows, ncols) = self.shape;
        let (left, bottom, right, top) = self.bounds;
        let r1: usize = nrows / 2;
        let r2: usize = nrows - r1;
        let c1: usize = ncols / 2;
        let c2: usize = ncols - c1;
        let mid_x: i64 = left + self.resolution.0 * (c1 as i64);
        let mid_y: i64 = top - self.resolution.1 * (r1 as i64);
        let (orow, ocol) = self.origin;
        let resolution = self.resolution;
        let mut quarters: Vec<Region> = Vec::new();
        quarters.push(
            Region {
                origin: (orow, ocol),
                shape: (r1, c1),
                bounds: (left, mid_y, mid_x, top),
                resolution,
            },
        );
        quarters.push(
            Region {
                origin: (orow, ocol + c1),
                shape: (r1, c2),
                bounds: (mid_x, mid_y, right, top),
                resolution,
            },
        );
        quarters.push(
            Region {
                origin: (orow + r1, ocol),
                shape: (r2, c1),
                bounds: (left, bottom, mid_x, mid_y),
                resolution,
            },
        );
        quarters.push(
            Region {
                origin: (orow + r1, ocol + c1),
                shape: (r2, c2),
                bounds: (mid_x, bottom, right, mid_y),
                resolution,
            },
        );
        quarters
    }

    /// The world rectangle of cell (`r`, `c`) of the grid: its centre, half a
    /// cell to each side.
    pub fn pixel_rectangle(&self, r: usize, c: usize) -> (rect: Rectangle)
        requires
            self.valid(),
            self.contains_cell(r as int, c as int),
        ensures
            rect == self.pixel(r as int, c as int),
            rect.within(self.rectangle()),
    {
        proof {
            lemma_pixel_within(*self, r as int, c as int);
        }
        let (width, height) = self.resolution;
        let (x2, y2) = get_coordinates(
            r - self.origin.0,
            c - self.origin.1,
            self.resolution,
            self.bounds.0,
            self.bounds.3,
        );
        mk_rectangle(((x2 - width) / 2, (y2 - height) / 2, (x2 + width) / 2, (y2 + height) / 2))
    }
}

/// Whether a coordinate lies within `WORLD_LIMIT` of zero.
fn coordinate_within_limit(x: i64) -> (b: bool)
    ensures
        b == within_limit(x as int),
{
    -WORLD_LIMIT <= x && x <= WORLD_LIMIT
}

/// The rectangle of a cell of a valid block lies within the block's
/// rectangle, and its edges are the cell's centre moved by half a cell.
pub proof fn lemma_pixel_within(region: Region, r: int, c: int)
    requires
        region.valid(),
        region.contains_cell(r, c),
    ensures
        region.pixel(r, c).within(region.rectangle()),
        region.pixel(r, c).left < region.pixel(r, c).right,
        region.pixel(r, c).bottom < region.pixel(r, c).top,
        region.pixel(r, c).left == region.left() + region.width() * (c - region.origin.1),
        region.pixel(r, c).top == region.top() - region.height() * (r - region.origin.0),
        region.pixel(r, c).right == region.pixel(r, c).left + region.width(),
        region.pixel(r, c).bottom == region.pixel(r, c).top - region.height(),
        2 * region.pixel(r, c).left == centre_x2(c - region.origin.1, region.width(), region.left())
            - region.width(),
        2 * region.pixel(r, c).right == centre_x2(
            c - region.origin.1,
            region.width(),
            region.left(),
        ) + region.width(),
        2 * region.pixel(r, c).top == centre_y2(r - region.origin.0, region.height(), region.top())
            + region.height(),
        2 * region.pixel(r, c).bottom == centre_y2(
            r - region.origin.0,
            region.height(),
            region.top(),
        ) - region.height(),
{
    let w = region.width();
    let h = region.height();
    let dc = c - region.origin.1;
    let dr = r - region.origin.0;
    assert(0 <= w * dc && w * dc + w == w * (dc + 1) && w * (dc + 1) <= w * region.cols())
        by (nonlinear_arith)
        requires
            w > 0,
            0 <= dc < region.cols(),
    ;
    assert(0 <= h * dr && h * dr + h == h * (dr + 1) && h * (dr + 1) <= h * region.rows())
        by (nonlinear_arith)
        requires
            h > 0,
            0 <= dr < region.rows(),
    ;
    assert(w * (2 * dc + 1) == 2 * (w * dc) + w) by (nonlinear_arith);
    assert(h * (2 * dr + 1) == 2 * (h * dr) + h) by (nonlinear_arith);
}

/// The middle lines of a valid block lie between its edges, and the northern
/// and southern halves meet at the same line whether it is counted from the
/// top or from the bottom.
pub proof fn lemma_mid_lines(region: Region)
    requires
        region.valid(),
    ensures
        region.left() <= region.mid_x() <= region.right(),
        region.bottom() <= region.mid_y() <= region.top(),
        region.mid_x() + region.width() * (region.cols() - region.west_cols()) == region.right(),
        region.mid_y() - region.height() * (region.rows() - region.north_rows())
            == region.bottom(),
        region.can_split() ==> region.left() < region.mid_x() < region.right(),
        region.can_split() ==> region.bottom() < region.mid_y() < region.top(),
{
    let w = region.width();
    let h = region.height();
    let c = region.cols();
    let c1 = region.west_cols();
    let r = region.rows();
    let r1 = region.north_rows();
    assert(w * c1 + w * (c - c1) == w * c) by (nonlinear_arith);
    assert(h * r1 + h * (r - r1) == h * r) by (nonlinear_arith);
    assert(0 <= w * c1 && 0 <= w * (c - c1)) by (nonlinear_arith)
        requires
            w > 0,
            0 <= c1 <= c,
    ;
    assert(0 <= h * r1 && 0 <= h * (r - r1)) by (nonlinear_arith)
        requires
            h > 0,
            0 <= r1 <= r,
    ;
    if region.can_split() {
        assert(0 < w * c1 && 0 < w * (c - c1)) by (nonlinear_arith)
            requires
                w > 0,
                0 < c1 < c,
        ;
        assert(0 < h * r1 && 0 < h * (r - r1)) by (nonlinear_arith)
            requires
                h > 0,
                0 < r1 < r,
        ;
    }
}

/// Each quarter of a valid block is a valid block within it.
pub proof fn lemma_quadrant_valid(region: Region, i: int)
    requires
        region.valid(),
        0 <= i < 4,
    ensures
        region.quadrant(i).valid(),
        region.quadrant(i).cells_within(region),
        region.quadrant(i).rectangle().within(region.rectangle()),
        region.can_split() ==> region.quadrant(i).rows() >= 1 && region.quadrant(i).cols() >= 1,
{
    lemma_mid_lines(region);
}

/// `inner` lies on the cell raster of `outer`: both have the same
/// resolution, and the upper left corner of `inner` is where `outer` puts
/// the first cell of `inner`.
pub open spec fn aligned(inner: Region, outer: Region) -> bool {
    &&& inner.resolution == outer.resolution
    &&& inner.left() == outer.left() + outer.width() * (inner.origin.1 - outer.origin.1)
    &&& inner.top() == outer.top() - outer.height() * (inner.origin.0 - outer.origin.0)
}

/// Each quarter of a valid block lies on the block's cell raster.
pub proof fn lemma_quadrant_aligned(region: Region, i: int)
    requires
        region.valid(),
        0 <= i < 4,
    ensures
        aligned(region.quadrant(i), region),
{
    lemma_mid_lines(region);
    assert(region.width() * 0 == 0 && region.height() * 0 == 0);
}

/// Lying on the cell raster of a block passes on to the blocks on whose
/// raster that block lies.
pub proof fn lemma_aligned_transitive(a: Region, b: Region, c: Region)
    requires
        aligned(a, b),
        aligned(b, c),
    ensures
        aligned(a, c),
{
    let w = c.width();
    let h = c.height();
    assert(w * (b.origin.1 - c.origin.1) + w * (a.origin.1 - b.origin.1) == w * (a.origin.1
        - c.origin.1)) by (nonlinear_arith);
    assert(h * (b.origin.0 - c.origin.0) + h * (a.origin.0 - b.origin.0) == h * (a.origin.0
        - c.origin.0)) by (nonlinear_arith);
}

/// Two blocks on one cell raster give each cell the same rectangle.
pub proof fn lemma_aligned_pixel(inner: Region, outer: Region, r: int, c: int)
    requires
        aligned(inner, outer),
    ensures
        inner.pixel(r, c) == outer.pixel(r, c),
{
    let w = outer.width();
    let h = outer.height();
    assert(w * (inner.origin.1 - outer.origin.1) + w * (c - inner.origin.1) == w * (c
        - outer.origin.1)) by (nonlinear_arith);
    assert(w * (inner.origin.1 - outer.origin.1) + w * (c - inner.origin.1 + 1) == w * (c
        - outer.origin.1 + 1)) by (nonlinear_arith);
    assert(h * (inner.origin.0 - outer.origin.0) + h * (r - inner.origin.0) == h * (r
        - outer.origin.0)) by (nonlinear_arith);
    assert(h * (inner.origin.0 - outer.origin.0) + h * (r - inner.origin.0 + 1) == h * (r
        - outer.origin.0 + 1)) by (nonlinear_arith);
}

} // verus!
