//! Tiles that own their cells: a raster cut into quarters, each of which
//! holds its part of the cells, and put together again.

use vstd::prelude::*;
use crate::burn::{burned, held, lemma_burned_iff_hit};
use crate::grid::{grid_of, has_shape, set_cell};
use crate::fault::Fault;
use crate::geometry::{askable, computes, mk_rectangle, monotone, Rectangle};
use crate::region::{
    frame_fault, lemma_aligned_pixel, lemma_mid_lines, lemma_quadrant_aligned,
    lemma_quadrant_valid, Region,
};
use crate::tree::{
    lemma_leaves_within, lemma_locate, lemma_place, lemma_query_sound, TileView,
};

verus! {

/// The `rows` by `cols` cells of `grid` from cell (`r0`, `c0`) on.
pub open spec fn block_of<T>(grid: Seq<Seq<T>>, r0: int, c0: int, rows: int, cols: int) -> Seq<
    Seq<T>,
> {
    Seq::new(rows as nat, |i: int| Seq::new(cols as nat, |j: int| grid[r0 + i][c0 + j]))
}

/// A grid of `rows` by `cols` cells that all hold `fill`.
pub open spec fn blank<T>(rows: int, cols: int, fill: T) -> Seq<Seq<T>> {
    Seq::new(rows as nat, |i: int| Seq::new(cols as nat, |j: int| fill))
}

/// `buffer` with `data` written over it, the first cell of `data` at cell
/// (`r0`, `c0`) of the buffer.
pub open spec fn paste<T>(buffer: Seq<Seq<T>>, data: Seq<Seq<T>>, r0: int, c0: int) -> Seq<Seq<T>> {
    Seq::new(
        buffer.len(),
        |i: int|
            Seq::new(
                buffer[i].len(),
                |j: int|
                    if r0 <= i < r0 + data.len() && c0 <= j < c0 + data[i - r0].len() {
                        data[i - r0][j - c0]
                    } else {
                        buffer[i][j]
                    },
            ),
    )
}

/// A tile that owns its cells, as a mathematical value: a leaf holds the
/// cells of its block, a node holds its four quarters and no cells.
pub struct RasterView<T> {
    pub region: Region,
    pub cells: Seq<Seq<T>>,
    pub parts: Option<Seq<RasterView<T>>>,
}

impl<T> RasterView<T> {
    /// The leaf that covers `region` and holds `cells`.
    pub open spec fn leaf(region: Region, cells: Seq<Seq<T>>) -> RasterView<T> {
        RasterView { region, cells, parts: None }
    }

    /// The node has no children.
    pub open spec fn is_leaf(self) -> bool {
        self.parts is None
    }

    /// Quarter `i` of a leaf: quarter `i` of its block, with the cells of the
    /// leaf that lie in it.
    pub open spec fn quadrant(self, i: int) -> RasterView<T> {
        let part = self.region.quadrant(i);
        RasterView::leaf(
            part,
            block_of(
                self.cells,
                part.origin.0 - self.region.origin.0,
                part.origin.1 - self.region.origin.1,
                part.rows(),
                part.cols(),
            ),
        )
    }

    /// The block is valid; a leaf holds exactly the cells of its block; a
    /// node holds no cells and has the four quarters of its block as
    /// children, none of them empty, each well formed itself.
    pub open spec fn wf(self) -> bool
        decreases self,
    {
        &&& self.region.valid()
        &&& match self.parts {
            None => has_shape(self.cells, self.region.rows(), self.region.cols()),
            Some(kids) => {
                &&& self.cells.len() == 0
                &&& self.region.can_split()
                &&& kids.len() == 4
                &&& forall|i: int|
                    0 <= i < 4 ==> (#[trigger] kids[i]).region == self.region.quadrant(i)
                        && kids[i].wf()
            },
        }
    }

    /// The tree with each of its leaves quartered, where the leaf can be
    /// quartered; a leaf of fewer than two rows or columns stays a leaf.
    pub open spec fn split_once(self) -> RasterView<T>
        decreases self,
    {
        match self.parts {
            None => if self.region.can_split() {
                RasterView {
                    region: self.region,
                    cells: Seq::empty(),
                    parts: Some(Seq::new(4, |i: int| self.quadrant(i))),
                }
            } else {
                self
            },
            Some(kids) => RasterView {
                region: self.region,
                cells: self.cells,
                parts: Some(
                    Seq::new(
                        kids.len(),
                        |i: int|
                            if 0 <= i < kids.len() {
                                kids[i].split_once()
                            } else {
                                arbitrary()
                            },
                    ),
                ),
            },
        }
    }

    /// The tree after `n` rounds, each of which quarters every leaf.
    pub open spec fn split_by(self, n: nat) -> RasterView<T>
        decreases n,
    {
        if n == 0 {
            self
        } else {
            self.split_by((n - 1) as nat).split_once()
        }
    }

    /// The tile without its cells: the quadtree of its blocks.
    pub open spec fn skeleton(self) -> TileView
        decreases self,
    {
        TileView {
            region: self.region,
            parts: match self.parts {
                None => None,
                Some(kids) => Some(
                    Seq::new(
                        kids.len(),
                        |i: int|
                            if 0 <= i < kids.len() {
                                kids[i].skeleton()
                            } else {
                                arbitrary()
                            },
                    ),
                ),
            },
        }
    }

    /// The cells of a leaf after a burn: a cell whose rectangle `hit` accepts
    /// holds `value`, every other cell what it held.
    pub open spec fn burnt_cells(self, hit: spec_fn(Rectangle) -> bool, value: T) -> Seq<Seq<T>> {
        Seq::new(
            self.cells.len(),
            |i: int|
                Seq::new(
                    self.cells[i].len(),
                    |j: int|
                        if hit(
                            self.region.pixel(self.region.origin.0 + i, self.region.origin.1 + j),
                        ) {
                            value
                        } else {
                            self.cells[i][j]
                        },
                ),
        )
    }

    /// The tile after a burn in which every leaf writes into its own cells:
    /// a subtree whose rectangle `hit` rejects stays as it is, and a leaf
    /// whose rectangle `hit` accepts burns its cells.
    pub open spec fn burnt(self, hit: spec_fn(Rectangle) -> bool, value: T) -> RasterView<T>
        decreases self,
    {
        if !hit(self.region.rectangle()) {
            self
        } else {
            match self.parts {
                None => RasterView {
                    region: self.region,
                    cells: self.burnt_cells(hit, value),
                    parts: None,
                },
                Some(kids) => RasterView {
                    region: self.region,
                    cells: self.cells,
                    parts: Some(
                        Seq::new(
                            kids.len(),
                            |i: int|
                                if 0 <= i < kids.len() {
                                    kids[i].burnt(hit, value)
                                } else {
                                    arbitrary()
                                },
                        ),
                    ),
                },
            }
        }
    }

    /// The grid of the tile, put together from the bottom up: a leaf gives
    /// its cells; a node takes a buffer of its shape filled with `fill` and
    /// writes into it what each child gives, at the child's place.
    pub open spec fn recompose(self, fill: T) -> Seq<Seq<T>>
        decreases self,
    {
        match self.parts {
            None => self.cells,
            Some(kids) => if kids.len() == 4 {
                let b0 = blank(self.region.rows(), self.region.cols(), fill);
                let b1 = place(b0, self.region, kids[0].region, kids[0].recompose(fill));
                let b2 = place(b1, self.region, kids[1].region, kids[1].recompose(fill));
                let b3 = place(b2, self.region, kids[2].region, kids[2].recompose(fill));
                place(b3, self.region, kids[3].region, kids[3].recompose(fill))
            } else {
                blank(self.region.rows(), self.region.cols(), fill)
            },
        }
    }
}

/// `buffer`, which holds the cells of `whole`, with `data` written over it
/// at the place that the origin of `part` has within `whole`.
pub open spec fn place<T>(buffer: Seq<Seq<T>>, whole: Region, part: Region, data: Seq<Seq<T>>) -> Seq<
    Seq<T>,
> {
    paste(buffer, data, part.origin.0 - whole.origin.0, part.origin.1 - whole.origin.1)
}

/// Putting a well-formed tile together gives a grid of the tile's shape.
pub proof fn lemma_recompose_shape<T>(tile: RasterView<T>, fill: T)
    requires
        tile.wf(),
    ensures
        has_shape(tile.recompose(fill), tile.region.rows(), tile.region.cols()),
{
}

/// A node whose children give the blocks of `grid` that lie in their
/// quarters gives `grid` when it is put together: the quarters leave no cell
/// out and none is written twice.
pub proof fn lemma_recompose_quarters<T>(tile: RasterView<T>, grid: Seq<Seq<T>>, fill: T)
    requires
        tile.wf(),
        tile.parts is Some,
        has_shape(grid, tile.region.rows(), tile.region.cols()),
        forall|i: int|
            0 <= i < 4 ==> (#[trigger] tile.parts->0[i]).recompose(fill) == block_of(
                grid,
                tile.region.quadrant(i).origin.0 - tile.region.origin.0,
                tile.region.quadrant(i).origin.1 - tile.region.origin.1,
                tile.region.quadrant(i).rows(),
                tile.region.quadrant(i).cols(),
            ),
    ensures
        tile.recompose(fill) == grid,
{
    let kids = tile.parts->0;
    let whole = tile.region;
    lemma_mid_lines(whole);
    assert(kids[0].region == whole.quadrant(0));
    assert(kids[1].region == whole.quadrant(1));
    assert(kids[2].region == whole.quadrant(2));
    assert(kids[3].region == whole.quadrant(3));
    let b0 = blank(whole.rows(), whole.cols(), fill);
    let b1 = place(b0, whole, kids[0].region, kids[0].recompose(fill));
    let b2 = place(b1, whole, kids[1].region, kids[1].recompose(fill));
    let b3 = place(b2, whole, kids[2].region, kids[2].recompose(fill));
    let b4 = place(b3, whole, kids[3].region, kids[3].recompose(fill));
    assert(has_shape(b1, whole.rows(), whole.cols()));
    assert(has_shape(b2, whole.rows(), whole.cols()));
    assert(has_shape(b3, whole.rows(), whole.cols()));
    assert(has_shape(b4, whole.rows(), whole.cols()));
    let north = whole.north_rows();
    let west = whole.west_cols();
    assert forall|i: int, j: int| 0 <= i < whole.rows() && 0 <= j < whole.cols() implies b4[i][j]
        == grid[i][j] by {
        if i < north {
            if j < west {
                assert(b1[i][j] == grid[i][j]);
                assert(b2[i][j] == b1[i][j]);
                assert(b3[i][j] == b2[i][j]);
            } else {
                assert(b2[i][j] == grid[i][j]);
                assert(b3[i][j] == b2[i][j]);
            }
        } else {
            if j < west {
                assert(b3[i][j] == grid[i][j]);
            } else {
                assert(b4[i][j] == grid[i][j]);
            }
        }
    }
    assert(b4 =~~= grid);
}

/// Quartering every leaf of a well-formed tile leaves it well formed, with
/// the same block, and does not change the grid that it gives when it is
/// put together.
pub proof fn lemma_split_once_keeps<T>(tile: RasterView<T>, fill: T)
    requires
        tile.wf(),
    ensures
        tile.split_once().wf(),
        tile.split_once().region == tile.region,
        tile.split_once().recompose(fill) == tile.recompose(fill),
    decreases tile,
{
    let next = tile.split_once();
    match tile.parts {
        None => {
            if tile.region.can_split() {
                let kids = next.parts->0;
                assert forall|i: int| 0 <= i < 4 implies (#[trigger] kids[i]).region
                    == tile.region.quadrant(i) && kids[i].wf() by {
                    lemma_quadrant_valid(tile.region, i);
                }
                lemma_recompose_quarters(next, tile.cells, fill);
            }
        },
        Some(kids) => {
            let after = next.parts->0;
            assert forall|i: int| 0 <= i < 4 implies (#[trigger] after[i]).region
                == tile.region.quadrant(i) && after[i].wf() && after[i].recompose(fill)
                == kids[i].recompose(fill) by {
                assert(kids[i].wf());
                lemma_split_once_keeps(kids[i], fill);
            }
            assert(after[0].recompose(fill) == kids[0].recompose(fill));
            assert(after[1].recompose(fill) == kids[1].recompose(fill));
            assert(after[2].recompose(fill) == kids[2].recompose(fill));
            assert(after[3].recompose(fill) == kids[3].recompose(fill));
        },
    }
}

/// Splitting a well-formed tile to any depth and putting it together again
/// gives the grid that the tile gave before. For a leaf that grid is the
/// leaf's own cells, whatever `fill` is.
pub proof fn lemma_split_recompose<T>(tile: RasterView<T>, n: nat, fill: T)
    requires
        tile.wf(),
    ensures
        tile.split_by(n).wf(),
        tile.split_by(n).region == tile.region,
        tile.split_by(n).recompose(fill) == tile.recompose(fill),
        tile.is_leaf() ==> tile.split_by(n).recompose(fill) == tile.cells,
    decreases n,
{
    if n > 0 {
        lemma_split_recompose(tile, (n - 1) as nat, fill);
        lemma_split_once_keeps(tile.split_by((n - 1) as nat), fill);
    }
}

/// The quadtree of the blocks of a well-formed tile is well formed.
pub proof fn lemma_skeleton_wf<T>(tile: RasterView<T>)
    requires
        tile.wf(),
    ensures
        tile.skeleton().wf(),
        tile.skeleton().region == tile.region,
    decreases tile,
{
    match tile.parts {
        None => {},
        Some(kids) => {
            let bare = tile.skeleton().parts->0;
            assert forall|i: int| 0 <= i < 4 implies (#[trigger] bare[i]).region
                == tile.region.quadrant(i) && bare[i].wf() by {
                assert(kids[i].wf());
                lemma_skeleton_wf(kids[i]);
            }
        },
    }
}

/// A burn leaves a well-formed tile well formed and changes cells only: the
/// blocks stay.
pub proof fn lemma_burnt_wf<T>(tile: RasterView<T>, hit: spec_fn(Rectangle) -> bool, value: T)
    requires
        tile.wf(),
    ensures
        tile.burnt(hit, value).wf(),
        tile.burnt(hit, value).region == tile.region,
        tile.burnt(hit, value).skeleton() == tile.skeleton(),
    decreases tile,
{
    if hit(tile.region.rectangle()) {
        match tile.parts {
            None => {},
            Some(kids) => {
                let after = tile.burnt(hit, value).parts->0;
                assert forall|i: int| 0 <= i < 4 implies (#[trigger] after[i]).region
                    == tile.region.quadrant(i) && after[i].wf() && after[i].skeleton()
                    == kids[i].skeleton() by {
                    assert(kids[i].wf());
                    lemma_burnt_wf(kids[i], hit, value);
                }
                assert(tile.burnt(hit, value).skeleton().parts->0 =~= tile.skeleton().parts->0);
            },
        }
    }
}

/// What a node gives for one of its cells when it is put together is what
/// the child in whose quarter the cell lies gives for it.
pub proof fn lemma_recompose_cell<T>(tile: RasterView<T>, fill: T, i: int, j: int)
    requires
        tile.wf(),
        tile.parts is Some,
        0 <= i < tile.region.rows(),
        0 <= j < tile.region.cols(),
    ensures
        ({
            let k = tile.region.quadrant_of_cell(
                tile.region.origin.0 + i,
                tile.region.origin.1 + j,
            );
            let part = tile.region.quadrant(k);
            let di = i - (part.origin.0 - tile.region.origin.0);
            let dj = j - (part.origin.1 - tile.region.origin.1);
            &&& 0 <= di < part.rows()
            &&& 0 <= dj < part.cols()
            &&& tile.recompose(fill)[i][j] == tile.parts->0[k].recompose(fill)[di][dj]
        }),
{
    let kids = tile.parts->0;
    let whole = tile.region;
    lemma_mid_lines(whole);
    assert(kids[0].region == whole.quadrant(0) && kids[0].wf());
    assert(kids[1].region == whole.quadrant(1) && kids[1].wf());
    assert(kids[2].region == whole.quadrant(2) && kids[2].wf());
    assert(kids[3].region == whole.quadrant(3) && kids[3].wf());
    lemma_recompose_shape(kids[0], fill);
    lemma_recompose_shape(kids[1], fill);
    lemma_recompose_shape(kids[2], fill);
    lemma_recompose_shape(kids[3], fill);
    let b0 = blank(whole.rows(), whole.cols(), fill);
    let b1 = place(b0, whole, kids[0].region, kids[0].recompose(fill));
    let b2 = place(b1, whole, kids[1].region, kids[1].recompose(fill));
    let b3 = place(b2, whole, kids[2].region, kids[2].recompose(fill));
    let b4 = place(b3, whole, kids[3].region, kids[3].recompose(fill));
    assert(has_shape(b1, whole.rows(), whole.cols()));
    assert(has_shape(b2, whole.rows(), whole.cols()));
    assert(has_shape(b3, whole.rows(), whole.cols()));
    let north = whole.north_rows();
    let west = whole.west_cols();
    if i < north {
        if j < west {
            assert(b1[i][j] == kids[0].recompose(fill)[i][j]);
            assert(b2[i][j] == b1[i][j]);
            assert(b3[i][j] == b2[i][j]);
            assert(b4[i][j] == b3[i][j]);
        } else {
            assert(b2[i][j] == kids[1].recompose(fill)[i][j - west]);
            assert(b3[i][j] == b2[i][j]);
            assert(b4[i][j] == b3[i][j]);
        }
    } else {
        if j < west {
            assert(b3[i][j] == kids[2].recompose(fill)[i - north][j]);
            assert(b4[i][j] == b3[i][j]);
        } else {
            assert(b4[i][j] == kids[3].recompose(fill)[i - north][j - west]);
        }
    }
}

/// Below a node whose rectangle `hit` accepts, a cell is burned exactly if
/// it is burned in the child in whose quarter it lies.
pub proof fn lemma_burned_in_quarter(
    tree: TileView,
    hit: spec_fn(Rectangle) -> bool,
    r: int,
    c: int,
)
    requires
        tree.wf(),
        tree.parts is Some,
        hit(tree.region.rectangle()),
        tree.region.contains_cell(r, c),
    ensures
        burned(tree, hit, r, c) == burned(
            tree.parts->0[tree.region.quadrant_of_cell(r, c)],
            hit,
            r,
            c,
        ),
{
    let kids = tree.parts->0;
    let k = tree.region.quadrant_of_cell(r, c);
    let q0 = kids[0].query(hit);
    let q1 = kids[1].query(hit);
    let q2 = kids[2].query(hit);
    let q3 = kids[3].query(hit);
    let found = tree.query(hit);
    lemma_mid_lines(tree.region);
    lemma_quadrant_aligned(tree.region, k);
    lemma_aligned_pixel(kids[k].region, tree.region, r, c);
    assert(kids[k].wf());
    assert(kids[k].region.contains_cell(r, c));
    if held(kids[k].query(hit), r, c) {
        let j = choose|j: int|
            0 <= j < kids[k].query(hit).len() && (#[trigger] kids[k].query(hit)[j]).region.contains_cell(
                r,
                c,
            );
        let i = lemma_place(q0, q1, q2, q3, k, j);
        assert(found[i].region.contains_cell(r, c));
    }
    if held(found, r, c) {
        let i = choose|i: int|
            0 <= i < found.len() && (#[trigger] found[i]).region.contains_cell(r, c);
        let (other, j) = lemma_locate(q0, q1, q2, q3, i);
        assert(kids[other].wf());
        let at = lemma_query_sound(kids[other], hit, j);
        lemma_leaves_within(kids[other], at);
        assert(kids[other].region.contains_cell(r, c));
        assert(other == k);
        assert(kids[k].query(hit)[j].region.contains_cell(r, c));
    }
}

/// After a burn in which every leaf writes into its own cells, the grid that
/// the tile gives when it is put together holds `value` in the burned cells
/// of the tile's quadtree and, in every other cell, what the tile gave
/// before: the same grid as a burn of the whole grid through that quadtree.
pub proof fn lemma_burnt_recompose<T>(
    tile: RasterView<T>,
    hit: spec_fn(Rectangle) -> bool,
    value: T,
    fill: T,
    i: int,
    j: int,
)
    requires
        tile.wf(),
        0 <= i < tile.region.rows(),
        0 <= j < tile.region.cols(),
    ensures
        has_shape(tile.burnt(hit, value).recompose(fill), tile.region.rows(), tile.region.cols()),
        tile.burnt(hit, value).recompose(fill)[i][j] == (if burned(
            tile.skeleton(),
            hit,
            tile.region.origin.0 + i,
            tile.region.origin.1 + j,
        ) {
            value
        } else {
            tile.recompose(fill)[i][j]
        }),
    decreases tile,
{
    let r = tile.region.origin.0 + i;
    let c = tile.region.origin.1 + j;
    let bare = tile.skeleton();
    let after = tile.burnt(hit, value);
    lemma_skeleton_wf(tile);
    lemma_burnt_wf(tile, hit, value);
    lemma_recompose_shape(after, fill);
    if !hit(tile.region.rectangle()) {
        assert(bare.query(hit).len() == 0);
    } else {
        match tile.parts {
            None => {
                assert(bare.query(hit)[0].region.contains_cell(r, c));
            },
            Some(kids) => {
                let k = tile.region.quadrant_of_cell(r, c);
                let part = tile.region.quadrant(k);
                let di = i - (part.origin.0 - tile.region.origin.0);
                let dj = j - (part.origin.1 - tile.region.origin.1);
                lemma_recompose_cell(tile, fill, i, j);
                lemma_recompose_cell(after, fill, i, j);
                assert(kids[k].wf() && kids[k].region == part);
                lemma_burnt_recompose(kids[k], hit, value, fill, di, dj);
                assert(after.parts->0[k] == kids[k].burnt(hit, value));
                lemma_burned_in_quarter(bare, hit, r, c);
                assert(bare.parts->0[k] == kids[k].skeleton());
            },
        }
    }
}

/// After a burn of a well-formed tile with a monotone `hit`, in which every
/// leaf writes into its own cells, the grid that the tile gives when it is
/// put together holds `value` in each cell whose rectangle `hit` accepts and,
/// in every other cell, what the tile gave before.
pub proof fn lemma_burnt_correct<T>(
    tile: RasterView<T>,
    hit: spec_fn(Rectangle) -> bool,
    value: T,
    fill: T,
    i: int,
    j: int,
)
    requires
        tile.wf(),
        monotone(hit),
        0 <= i < tile.region.rows(),
        0 <= j < tile.region.cols(),
    ensures
        tile.burnt(hit, value).recompose(fill)[i][j] == (if hit(
            tile.region.pixel(tile.region.origin.0 + i, tile.region.origin.1 + j),
        ) {
            value
        } else {
            tile.recompose(fill)[i][j]
        }),
{
    lemma_burnt_recompose(tile, hit, value, fill, i, j);
    lemma_skeleton_wf(tile);
    lemma_burned_iff_hit(tile.skeleton(), hit, tile.region.origin.0 + i, tile.region.origin.1 + j);
}

/// A tile that owns its cells: a leaf holds the cells of its block, a node
/// holds its four quarters.
#[derive(Debug)]
pub struct RasterTile<T> {
    region: Region,
    rectangle: Rectangle,
    cells: Vec<Vec<T>>,
    parts: Option<Vec<RasterTile<T>>>,
}

/// The mathematical values of a sequence of tiles.
pub open spec fn raster_views<T>(tiles: Seq<RasterTile<T>>) -> Seq<RasterView<T>> {
    tiles.map_values(|t: RasterTile<T>| t@)
}

/// The fault for which a raster is refused as the cells of a block, if there
/// is one.
pub open spec fn raster_fault<T>(
    grid: Seq<Seq<T>>,
    shape: (usize, usize),
    bounds: (i64, i64, i64, i64),
    origin: (usize, usize),
    resolution: (i64, i64),
) -> Option<Fault> {
    if frame_fault(shape, bounds, origin, resolution) is Some {
        frame_fault(shape, bounds, origin, resolution)
    } else if !has_shape(grid, shape.0 as int, shape.1 as int) {
        Some(Fault::ShapeMismatch)
    } else {
        None
    }
}

/// The tiles into which a leaf is split: its four quarters, or the leaf
/// itself where it has fewer than two rows or columns.
pub open spec fn split_tiles<T>(whole: RasterView<T>) -> Seq<RasterView<T>> {
    if whole.region.can_split() {
        Seq::new(4, |i: int| whole.quadrant(i))
    } else {
        seq![whole]
    }
}

impl<T> View for RasterTile<T> {
    type V = RasterView<T>;

    closed spec fn view(&self) -> RasterView<T> {
        self.model()
    }
}

impl<T> RasterTile<T> {
    /// The tile as a mathematical value.
    spec fn model(&self) -> RasterView<T>
        decreases self,
    {
        RasterView {
            region: self.region,
            cells: grid_of(self.cells),
            parts: match self.parts {
                None => None,
                Some(kids) => Some(
                    Seq::new(
                        kids@.len(),
                        |i: int|
                            if 0 <= i < kids@.len() {
                                kids@[i].model()
                            } else {
                                arbitrary()
                            },
                    ),
                ),
            },
        }
    }

    /// The stored rectangle of every node is the rectangle of its block.
    spec fn consistent(&self) -> bool
        decreases self,
    {
        &&& self.rectangle == self.region.rectangle()
        &&& match self.parts {
            None => true,
            Some(kids) => forall|i: int| 0 <= i < kids@.len() ==> (#[trigger] kids@[i]).consistent(),
        }
    }

    /// The tile is well formed: see `RasterView::wf`.
    pub closed spec fn wf(&self) -> bool {
        self@.wf() && self.consistent()
    }

    /// How the value of a tile is made of the values of its children, and
    /// that the children of a well-formed tile are well formed.
    proof fn lemma_unfold(&self)
        ensures
            self@.region == self.region,
            self@.cells == grid_of(self.cells),
            match self.parts {
                None => self@.parts is None,
                Some(kids) => self@.parts == Some(raster_views(kids@)),
            },
            self.wf() ==> self.rectangle == self.region.rectangle() && match self.parts {
                None => true,
                Some(kids) => kids@.len() == 4 && forall|i: int|
                    0 <= i < 4 ==> (#[trigger] kids@[i]).wf(),
            },
    {
        match self.parts {
            None => {},
            Some(kids) => {
                assert(self@.parts->0.len() == kids@.len());
                assert(self@.parts->0 =~= raster_views(kids@));
                if self.wf() {
                    assert forall|i: int| 0 <= i < 4 implies (#[trigger] kids@[i]).wf() by {
                        assert(self@.parts->0[i].wf());
                    }
                }
            },
        }
    }

    /// A well-formed tile has a well-formed value.
    pub proof fn lemma_wf_view(&self)
        requires
            self.wf(),
        ensures
            self@.wf(),
    {
    }

    /// The block that the tile covers.
    pub fn region(&self) -> (region: Region)
        ensures
            region == self@.region,
    {
        self.region
    }

    /// The tile's world rectangle.
    pub fn rectangle(&self) -> (rect: Rectangle)
        requires
            self.wf(),
        ensures
            rect == self@.region.rectangle(),
    {
        self.rectangle
    }

    /// Whether the tile has no children.
    pub fn is_leaf(&self) -> (b: bool)
        ensures
            b == self@.is_leaf(),
    {
        self.parts.is_none()
    }

    /// The cells that the tile holds itself: those of its block if it is a
    /// leaf, none if it is a node.
    pub fn cells(&self) -> (cells: &Vec<Vec<T>>)
        ensures
            grid_of(*cells) == self@.cells,
    {
        &self.cells
    }

    /// The tile's children, if it has any: north-west, north-east,
    /// south-west, south-east.
    pub fn parts(&self) -> (parts: Option<&Vec<RasterTile<T>>>)
        ensures
            match parts {
                None => self@.parts is None,
                Some(kids) => self@.parts == Some(raster_views(kids@)),
            },
            self.wf() ==> match parts {
                None => true,
                Some(kids) => kids.len() == 4 && forall|i: int|
                    0 <= i < 4 ==> (#[trigger] kids[i]).wf(),
            },
    {
        proof {
            self.lemma_unfold();
        }
        match &self.parts {
            None => None,
            Some(kids) => Some(kids),
        }
    }
}

/// Whether the raster has `rows` rows of `cols` cells each.
fn raster_has_shape<T>(raster: &Vec<Vec<T>>, rows: usize, cols: usize) -> (b: bool)
    ensures
        b == has_shape(grid_of(*raster), rows as int, cols as int),
{
    if raster.len() != rows {
        return false;
    }
    let mut r: usize = 0;
    while r < rows
        invariant
            r <= rows,
            rows == raster.len(),
            forall|i: int| 0 <= i < r ==> (#[trigger] grid_of(*raster)[i]).len() == cols,
        decreases rows - r,
    {
        if raster[r].len() != cols {
            assert(grid_of(*raster)[r as int].len() != cols);
            return false;
        }
        r += 1;
    }
    true
}

/// A copy of the `rows` by `cols` cells of `raster` from cell (`r0`, `c0`)
/// on.
fn copy_block<T: Copy>(raster: &Vec<Vec<T>>, r0: usize, c0: usize, rows: usize, cols: usize) -> (block:
    Vec<Vec<T>>)
    requires
        r0 + rows <= raster.len(),
        forall|i: int| r0 <= i < r0 + rows ==> c0 + cols <= (#[trigger] raster[i]).len(),
    ensures
        grid_of(block) == block_of(
            grid_of(*raster),
            r0 as int,
            c0 as int,
            rows as int,
            cols as int,
        ),
{
    let mut block: Vec<Vec<T>> = Vec::new();
    let mut i: usize = 0;
    while i < rows
        invariant
            i <= rows,
            r0 + rows <= raster.len(),
            forall|k: int| r0 <= k < r0 + rows ==> c0 + cols <= (#[trigger] raster[k]).len(),
            block.len() == i,
            forall|k: int|
                0 <= k < i ==> (#[trigger] block[k])@ == Seq::new(
                    cols as nat,
                    |j: int| raster[r0 + k][c0 + j],
                ),
        decreases rows - i,
    {
        let mut row: Vec<T> = Vec::new();
        let source = &raster[r0 + i];
        let mut j: usize = 0;
        while j < cols
            invariant
                j <= cols,
                c0 + cols <= source.len(),
                row.len() == j,
                forall|k: int| 0 <= k < j ==> (#[trigger] row[k]) == source[c0 + k],
            decreases cols - j,
        {
            row.push(source[c0 + j]);
            j += 1;
        }
        assert(row@ =~= Seq::new(cols as nat, |j: int| raster[r0 + i][c0 + j]));
        block.push(row);
        i += 1;
    }
    assert(grid_of(block) =~~= block_of(
        grid_of(*raster),
        r0 as int,
        c0 as int,
        rows as int,
        cols as int,
    ));
    block
}

/// A raster of `rows` by `cols` cells that all hold `fill`.
fn blank_raster<T: Copy>(rows: usize, cols: usize, fill: T) -> (raster: Vec<Vec<T>>)
    ensures
        grid_of(raster) == blank(rows as int, cols as int, fill),
{
    let mut raster: Vec<Vec<T>> = Vec::new();
    let mut i: usize = 0;
    while i < rows
        invariant
            i <= rows,
            raster.len() == i,
            forall|k: int|
                0 <= k < i ==> (#[trigger] raster[k])@ == Seq::new(cols as nat, |j: int| fill),
        decreases rows - i,
    {
        let mut row: Vec<T> = Vec::new();
        let mut j: usize = 0;
        while j < cols
            invariant
                j <= cols,
                row.len() == j,
                forall|k: int| 0 <= k < j ==> (#[trigger] row[k]) == fill,
            decreases cols - j,
        {
            row.push(fill);
            j += 1;
        }
        assert(row@ =~= Seq::new(cols as nat, |j: int| fill));
        raster.push(row);
        i += 1;
    }
    assert(grid_of(raster) =~~= blank(rows as int, cols as int, fill));
    raster
}

/// Writes `data` over `buffer`, the first cell of `data` at cell (`r0`,
/// `c0`) of the buffer.
fn paste_block<T: Copy>(buffer: &mut Vec<Vec<T>>, data: &Vec<Vec<T>>, r0: usize, c0: usize)
    requires
        r0 + data.len() <= old(buffer).len(),
        forall|i: int|
            0 <= i < data.len() ==> c0 + (#[trigger] data[i]).len() <= old(buffer)[r0 + i].len(),
    ensures
        grid_of(*final(buffer)) == paste(
            grid_of(*old(buffer)),
            grid_of(*data),
            r0 as int,
            c0 as int,
        ),
{
    let ghost before = grid_of(*buffer);
    let ghost source = grid_of(*data);
    let mut i: usize = 0;
    while i < data.len()
        invariant
            i <= data.len(),
            before == grid_of(*old(buffer)),
            source == grid_of(*data),
            r0 + data.len() <= before.len(),
            forall|k: int|
                0 <= k < data.len() ==> c0 + (#[trigger] source[k]).len() <= before[r0 + k].len(),
            grid_of(*buffer).len() == before.len(),
            forall|k: int|
                0 <= k < before.len() ==> (#[trigger] grid_of(*buffer)[k]).len() == before[k].len(),
            forall|k: int, j: int|
                0 <= k < before.len() && 0 <= j < before[k].len() ==> #[trigger] grid_of(
                    *buffer,
                )[k][j] == (if r0 <= k < r0 + i && c0 <= j < c0 + source[k - r0].len() {
                    source[k - r0][j - c0]
                } else {
                    before[k][j]
                }),
        decreases data.len() - i,
    {
        let width: usize = data[i].len();
        assert(source[i as int].len() == width);
        let mut j: usize = 0;
        while j < width
            invariant
                i < data.len(),
                j <= width,
                width == source[i as int].len(),
                before == grid_of(*old(buffer)),
                source == grid_of(*data),
                r0 + data.len() <= before.len(),
                forall|k: int|
                    0 <= k < data.len() ==> c0 + (#[trigger] source[k]).len() <= before[r0
                        + k].len(),
                grid_of(*buffer).len() == before.len(),
                forall|k: int|
                    0 <= k < before.len() ==> (#[trigger] grid_of(*buffer)[k]).len()
                        == before[k].len(),
                forall|k: int, m: int|
                    0 <= k < before.len() && 0 <= m < before[k].len() ==> #[trigger] grid_of(
                        *buffer,
                    )[k][m] == (if (r0 <= k < r0 + i && c0 <= m < c0 + source[k - r0].len()) || (k
                        == r0 + i && c0 <= m < c0 + j) {
                        source[k - r0][m - c0]
                    } else {
                        before[k][m]
                    }),
            decreases width - j,
        {
            let value = data[i][j];
            assert(value == source[i as int][j as int]);
            assert(grid_of(*buffer)[r0 + i].len() == before[r0 + i].len());
            assert(before.len() == old(buffer).len());
            assert(before[r0 + i].len() == old(buffer)[r0 + i].len());
            set_cell(buffer, r0 + i, c0 + j, value);
            j += 1;
        }
        i += 1;
    }
    assert(grid_of(*buffer) =~~= paste(before, source, r0 as int, c0 as int));
}

/// The cells of a leaf while it is burned, when the cells before cell
/// (`r`, `c`) of the leaf have been tested and those from it on have not.
spec fn cells_upto<T>(
    cells: Seq<Seq<T>>,
    region: Region,
    hit: spec_fn(Rectangle) -> bool,
    value: T,
    r: int,
    c: int,
) -> Seq<Seq<T>> {
    Seq::new(
        cells.len(),
        |i: int|
            Seq::new(
                cells[i].len(),
                |j: int|
                    if (i < r || (i == r && j < c)) && hit(
                        region.pixel(region.origin.0 + i, region.origin.1 + j),
                    ) {
                        value
                    } else {
                        cells[i][j]
                    },
            ),
    )
}

impl<T: Copy> RasterTile<T> {
    /// A leaf tile that owns `raster` as the cells of the block with the
    /// given shape, bounds, origin and resolution, or the fault that the
    /// values show.
    pub fn new(
        raster: Vec<Vec<T>>,
        shape: (usize, usize),
        bounds: (i64, i64, i64, i64),
        origin: (usize, usize),
        resolution: (i64, i64),
    ) -> (made: Result<RasterTile<T>, Fault>)
        ensures
            match made {
                Ok(tile) => {
                    &&& raster_fault(grid_of(raster), shape, bounds, origin, resolution) is None
                    &&& tile.wf()
                    &&& tile@ == RasterView::leaf(
                        Region { origin, shape, bounds, resolution },
                        grid_of(raster),
                    )
                },
                Err(fault) => raster_fault(grid_of(raster), shape, bounds, origin, resolution)
                    == Some(fault),
            },
    {
        match Region::new(shape, bounds, origin, resolution) {
            Ok(region) => {
                if raster_has_shape(&raster, shape.0, shape.1) {
                    Ok(RasterTile::leaf(region, raster))
                } else {
                    Err(Fault::ShapeMismatch)
                }
            },
            Err(fault) => Err(fault),
        }
    }

    /// The leaf that covers `region` and owns `cells`.
    fn leaf(region: Region, cells: Vec<Vec<T>>) -> (tile: RasterTile<T>)
        requires
            region.valid(),
            has_shape(grid_of(cells), region.rows(), region.cols()),
        ensures
            tile.wf(),
            tile@ == RasterView::leaf(region, grid_of(cells)),
    {
        RasterTile { region, rectangle: mk_rectangle(region.bounds), cells, parts: None }
    }

    /// The four quarters of a block and of its cells.
    fn quarters(region: &Region, cells: &Vec<Vec<T>>) -> (tiles: Vec<RasterTile<T>>)
        requires
            region.valid(),
            has_shape(grid_of(*cells), region.rows(), region.cols()),
        ensures
            tiles.len() == 4,
            forall|i: int|
                0 <= i < 4 ==> (#[trigger] tiles[i]).wf() && tiles[i]@ == RasterView::leaf(
                    *region,
                    grid_of(*cells),
                ).quadrant(i),
    {
        let parts = region.quarter();
        let ghost whole = RasterView::leaf(*region, grid_of(*cells));
        let mut tiles: Vec<RasterTile<T>> = Vec::new();
        let mut i: usize = 0;
        while i < 4
            invariant
                i <= 4,
                region.valid(),
                has_shape(grid_of(*cells), region.rows(), region.cols()),
                whole == RasterView::leaf(*region, grid_of(*cells)),
                parts.len() == 4,
                forall|k: int| 0 <= k < 4 ==> #[trigger] parts[k] == region.quadrant(k),
                tiles.len() == i,
                forall|k: int|
                    0 <= k < i ==> (#[trigger] tiles[k]).wf() && tiles[k]@ == whole.quadrant(k),
            decreases 4 - i,
        {
            let part = parts[i];
            proof {
                lemma_quadrant_valid(*region, i as int);
                assert(part == region.quadrant(i as int));
                assert(grid_of(*cells).len() == cells.len());
                assert forall|k: int| 0 <= k < cells.len() implies (#[trigger] cells[k]).len()
                    == region.cols() by {
                    assert(grid_of(*cells)[k].len() == region.cols());
                }
            }
            let block = copy_block(
                cells,
                part.origin.0 - region.origin.0,
                part.origin.1 - region.origin.1,
                part.shape.0,
                part.shape.1,
            );
            tiles.push(RasterTile::leaf(part, block));
            i += 1;
        }
        tiles
    }

    /// Quarters every leaf of the tile `n` times over; each quarter takes
    /// the cells of its block. A leaf of fewer than two rows or two columns
    /// is left as it is.
    pub fn split(&mut self, n: usize)
        requires
            old(self).wf(),
        ensures
            final(self).wf(),
            final(self)@ == old(self)@.split_by(n as nat),
    {
        let mut round: usize = 0;
        while round < n
            invariant
                round <= n,
                self.wf(),
                self@ == old(self)@.split_by(round as nat),
            decreases n - round,
        {
            self.split_tile();
            round += 1;
        }
    }

    /// Quarters every leaf of the tile once.
    fn split_tile(&mut self)
        requires
            old(self).wf(),
        ensures
            final(self).wf(),
            final(self)@ == old(self)@.split_once(),
        decreases *old(self),
    {
        proof {
            self.lemma_unfold();
            lemma_split_once_keeps(self@, arbitrary());
        }
        let region = self.region;
        if self.parts.is_none() {
            if region.shape.0 >= 2 && region.shape.1 >= 2 {
                let kids = RasterTile::quarters(&region, &self.cells);
                self.cells = Vec::new();
                self.parts = Some(kids);
                proof {
                    assert(grid_of(self.cells) =~= Seq::<Seq<T>>::empty());
                }
            }
        } else {
            match &mut self.parts {
                None => {},
                Some(kids) => {
                    let ghost before = kids@;
                    kids[0].split_tile();
                    assert(kids@[1] == before[1] && kids@[2] == before[2] && kids@[3] == before[3]);
                    kids[1].split_tile();
                    assert(kids@[2] == before[2] && kids@[3] == before[3]);
                    kids[2].split_tile();
                    assert(kids@[3] == before[3]);
                    kids[3].split_tile();
                    assert(kids@.len() == 4);
                    assert(forall|k: int|
                        0 <= k < 4 ==> (#[trigger] kids@[k]).wf() && kids@[k]@
                            == before[k]@.split_once());
                },
            }
        }
        proof {
            self.lemma_unfold();
            assert(self@.parts =~= old(self)@.split_once().parts);
        }
    }

    /// Burns `burn_value` into the cells that `geom` meets, every leaf
    /// writing into its own cells: a subtree whose rectangle `geom` does not
    /// meet is passed over whole, and a leaf whose rectangle it meets tests
    /// each of its cells. No two leaves hold the same cell, so the leaves can
    /// be burned in any order; `recompose` then gives the burned grid.
    ///
    /// The tile after the burn is stated for every predicate `hit` that
    /// `geom` computes.
    pub fn burn<G: Fn(Rectangle) -> bool>(&mut self, geom: &G, burn_value: T)
        requires
            old(self).wf(),
            askable(geom),
        ensures
            final(self).wf(),
            final(self)@.region == old(self)@.region,
            forall|hit: spec_fn(Rectangle) -> bool| #[trigger]
                computes(geom, hit) ==> final(self)@ == old(self)@.burnt(hit, burn_value),
        decreases *old(self),
    {
        proof {
            self.lemma_unfold();
        }
        let met = geom(self.rectangle);
        if !met {
            return ;
        }
        let region = self.region;
        if self.parts.is_none() {
            RasterTile::burn_cells(&mut self.cells, &region, geom, burn_value);
            proof {
                self.lemma_unfold();
                assert forall|hit: spec_fn(Rectangle) -> bool| #[trigger]
                    computes(geom, hit) implies self@ == old(self)@.burnt(hit, burn_value) by {
                    assert(met == hit(region.rectangle()));
                }
            }
        } else {
            match &mut self.parts {
                None => {},
                Some(kids) => {
                    let ghost before = kids@;
                    kids[0].burn(geom, burn_value);
                    assert(kids@[1] == before[1] && kids@[2] == before[2] && kids@[3] == before[3]);
                    kids[1].burn(geom, burn_value);
                    assert(kids@[2] == before[2] && kids@[3] == before[3]);
                    kids[2].burn(geom, burn_value);
                    assert(kids@[3] == before[3]);
                    kids[3].burn(geom, burn_value);
                    assert(kids@.len() == 4);
                    assert(forall|k: int|
                        0 <= k < 4 ==> (#[trigger] kids@[k]).wf() && kids@[k]@.region
                            == before[k]@.region);
                    assert(forall|hit: spec_fn(Rectangle) -> bool| #[trigger]
                        computes(geom, hit) ==> forall|k: int|
                            0 <= k < 4 ==> (#[trigger] kids@[k])@ == before[k]@.burnt(
                                hit,
                                burn_value,
                            ));
                },
            }
            proof {
                self.lemma_unfold();
                let now = self@.parts->0;
                let then = old(self)@.parts->0;
                assert forall|i: int| 0 <= i < 4 implies (#[trigger] now[i]).region
                    == region.quadrant(i) && now[i].wf() by {
                    assert(then[i].region == region.quadrant(i));
                    self.parts->0@[i].lemma_wf_view();
                }
                assert forall|hit: spec_fn(Rectangle) -> bool| #[trigger]
                    computes(geom, hit) implies self@ == old(self)@.burnt(hit, burn_value) by {
                    assert(met == hit(region.rectangle()));
                    assert(self@.parts =~= old(self)@.burnt(hit, burn_value).parts);
                }
            }
        }
    }

    /// Burns the cells of one leaf: writes `burn_value` into each cell of
    /// `cells` whose rectangle in `region` `geom` meets.
    fn burn_cells<G: Fn(Rectangle) -> bool>(
        cells: &mut Vec<Vec<T>>,
        region: &Region,
        geom: &G,
        burn_value: T,
    )
        requires
            region.valid(),
            askable(geom),
            has_shape(grid_of(*old(cells)), region.rows(), region.cols()),
        ensures
            has_shape(grid_of(*final(cells)), region.rows(), region.cols()),
            forall|hit: spec_fn(Rectangle) -> bool| #[trigger]
                computes(geom, hit) ==> grid_of(*final(cells)) == RasterView::leaf(
                    *region,
                    grid_of(*old(cells)),
                ).burnt_cells(hit, burn_value),
    {
        let ghost before = grid_of(*cells);
        let rows: usize = region.shape.0;
        let cols: usize = region.shape.1;
        let mut i: usize = 0;
        assert forall|hit: spec_fn(Rectangle) -> bool| #[trigger]
            computes(geom, hit) implies grid_of(*cells) == cells_upto(
            before,
            *region,
            hit,
            burn_value,
            0,
            0,
        ) by {
            assert(before =~~= cells_upto(before, *region, hit, burn_value, 0, 0));
        }
        while i < rows
            invariant
                region.valid(),
                askable(geom),
                rows == region.rows(),
                cols == region.cols(),
                i <= rows,
                has_shape(before, rows as int, cols as int),
                has_shape(grid_of(*cells), rows as int, cols as int),
                forall|hit: spec_fn(Rectangle) -> bool| #[trigger]
                    computes(geom, hit) ==> grid_of(*cells) == cells_upto(
                        before,
                        *region,
                        hit,
                        burn_value,
                        i as int,
                        0,
                    ),
            decreases rows - i,
        {
            let mut j: usize = 0;
            while j < cols
                invariant
                    region.valid(),
                    askable(geom),
                    rows == region.rows(),
                    cols == region.cols(),
                    i < rows,
                    j <= cols,
                    has_shape(before, rows as int, cols as int),
                    has_shape(grid_of(*cells), rows as int, cols as int),
                    forall|hit: spec_fn(Rectangle) -> bool| #[trigger]
                        computes(geom, hit) ==> grid_of(*cells) == cells_upto(
                            before,
                            *region,
                            hit,
                            burn_value,
                            i as int,
                            j as int,
                        ),
                decreases cols - j,
            {
                let ghost sofar = grid_of(*cells);
                let pixel = region.pixel_rectangle(region.origin.0 + i, region.origin.1 + j);
                let met = geom(pixel);
                if met {
                    assert(grid_of(*cells).len() == cells.len());
                    assert(grid_of(*cells)[i as int].len() == cells[i as int].len());
                    set_cell(cells, i, j, burn_value);
                }
                assert forall|hit: spec_fn(Rectangle) -> bool| #[trigger]
                    computes(geom, hit) implies grid_of(*cells) == cells_upto(
                    before,
                    *region,
                    hit,
                    burn_value,
                    i as int,
                    j + 1,
                ) by {
                    assert(sofar == cells_upto(before, *region, hit, burn_value, i as int, j as int));
                    assert(met == hit(pixel));
                    assert(grid_of(*cells) =~~= cells_upto(
                        before,
                        *region,
                        hit,
                        burn_value,
                        i as int,
                        j + 1,
                    ));
                }
                j += 1;
            }
            assert forall|hit: spec_fn(Rectangle) -> bool| #[trigger]
                computes(geom, hit) implies grid_of(*cells) == cells_upto(
                before,
                *region,
                hit,
                burn_value,
                i + 1,
                0,
            ) by {
                assert(cells_upto(before, *region, hit, burn_value, i as int, cols as int)
                    =~~= cells_upto(before, *region, hit, burn_value, i + 1, 0));
            }
            i += 1;
        }
        assert forall|hit: spec_fn(Rectangle) -> bool| #[trigger]
            computes(geom, hit) implies grid_of(*cells) == RasterView::leaf(
            *region,
            before,
        ).burnt_cells(hit, burn_value) by {
            assert(cells_upto(before, *region, hit, burn_value, rows as int, 0)
                =~~= RasterView::leaf(*region, before).burnt_cells(hit, burn_value));
        }
    }

    /// The grid of the tile, put together from the bottom up. A leaf gives a
    /// copy of its cells. A node takes a buffer of its shape filled with
    /// `fill` and writes into it what each child gives, at the place of the
    /// child's origin within the node.
    pub fn recompose(&self, fill: T) -> (raster: Vec<Vec<T>>)
        requires
            self.wf(),
        ensures
            grid_of(raster) == self@.recompose(fill),
            has_shape(grid_of(raster), self@.region.rows(), self@.region.cols()),
        decreases self,
    {
        proof {
            self.lemma_unfold();
            lemma_recompose_shape(self@, fill);
        }
        match &self.parts {
            None => {
                proof {
                    assert(grid_of(self.cells).len() == self.cells.len());
                    assert forall|k: int| 0 <= k < self.cells.len() implies (
                    #[trigger] self.cells[k]).len() == self.region.cols() by {
                        assert(grid_of(self.cells)[k].len() == self.region.cols());
                    }
                }
                let copy = copy_block(&self.cells, 0, 0, self.region.shape.0, self.region.shape.1);
                assert(grid_of(copy) =~~= grid_of(self.cells));
                copy
            },
            Some(kids) => {
                let mut buffer = blank_raster(self.region.shape.0, self.region.shape.1, fill);
                let data = kids[0].recompose(fill);
                RasterTile::put_part(&mut buffer, &self.region, kids[0].region(), 0, &data);
                let data = kids[1].recompose(fill);
                RasterTile::put_part(&mut buffer, &self.region, kids[1].region(), 1, &data);
                let data = kids[2].recompose(fill);
                RasterTile::put_part(&mut buffer, &self.region, kids[2].region(), 2, &data);
                let data = kids[3].recompose(fill);
                RasterTile::put_part(&mut buffer, &self.region, kids[3].region(), 3, &data);
                buffer
            },
        }
    }

    /// Writes the cells of quarter `i` of `whole` into the buffer that holds
    /// the cells of `whole`.
    fn put_part(
        buffer: &mut Vec<Vec<T>>,
        whole: &Region,
        part: Region,
        i: usize,
        data: &Vec<Vec<T>>,
    )
        requires
            whole.valid(),
            i < 4,
            part == whole.quadrant(i as int),
            has_shape(grid_of(*old(buffer)), whole.rows(), whole.cols()),
            has_shape(grid_of(*data), part.rows(), part.cols()),
        ensures
            has_shape(grid_of(*final(buffer)), whole.rows(), whole.cols()),
            grid_of(*final(buffer)) == place(grid_of(*old(buffer)), *whole, part, grid_of(*data)),
    {
        proof {
            lemma_quadrant_valid(*whole, i as int);
            lemma_mid_lines(*whole);
            assert(grid_of(*buffer).len() == buffer.len());
            assert(grid_of(*data).len() == data.len());
            assert forall|k: int| 0 <= k < data.len() implies part.origin.1 - whole.origin.1 + (
            #[trigger] data[k]).len() <= buffer[part.origin.0 - whole.origin.0 + k].len() by {
                assert(grid_of(*data)[k].len() == part.cols());
                assert(grid_of(*buffer)[part.origin.0 - whole.origin.0 + k].len() == whole.cols());
            }
        }
        paste_block(buffer, data, part.origin.0 - whole.origin.0, part.origin.1 - whole.origin.1);
    }
}

/// Splits a raster into tiles that own their cells: its four quarters,
/// north-west, north-east, south-west, south-east, each with the cells, the
/// bounds and the origin of its block; or the raster itself as one tile,
/// where it has fewer than two rows or columns. The first cell of the raster
/// is cell (0, 0).
pub fn split_raster_tile<T: Copy>(
    rast: &Vec<Vec<T>>,
    shape: (usize, usize),
    bounds: (i64, i64, i64, i64),
    resolution: (i64, i64),
) -> (made: Result<Vec<RasterTile<T>>, Fault>)
    ensures
        match made {
            Ok(tiles) => {
                &&& raster_fault(grid_of(*rast), shape, bounds, (0, 0), resolution) is None
                &&& raster_views(tiles@) == split_tiles(
                    RasterView::leaf(
                        Region { origin: (0, 0), shape, bounds, resolution },
                        grid_of(*rast),
                    ),
                )
                &&& forall|i: int| 0 <= i < tiles.len() ==> (#[trigger] tiles[i]).wf()
            },
            Err(fault) => raster_fault(grid_of(*rast), shape, bounds, (0, 0), resolution) == Some(
                fault,
            ),
        },
{
    let region = match Region::new(shape, bounds, (0, 0), resolution) {
        Ok(region) => region,
        Err(fault) => {
            return Err(fault);
        },
    };
    if !raster_has_shape(rast, shape.0, shape.1) {
        return Err(Fault::ShapeMismatch);
    }
    let ghost whole = RasterView::leaf(region, grid_of(*rast));
    if shape.0 >= 2 && shape.1 >= 2 {
        let tiles = RasterTile::quarters(&region, rast);
        assert(raster_views(tiles@) =~= split_tiles(whole));
        Ok(tiles)
    } else {
        proof {
            assert(grid_of(*rast).len() == rast.len());
            assert forall|k: int| 0 <= k < rast.len() implies (#[trigger] rast[k]).len()
                == shape.1 by {
                assert(grid_of(*rast)[k].len() == shape.1);
            }
        }
        let cells = copy_block(rast, 0, 0, shape.0, shape.1);
        assert(grid_of(cells) =~~= grid_of(*rast));
        let mut tiles: Vec<RasterTile<T>> = Vec::new();
        tiles.push(RasterTile::leaf(region, cells));
        assert(raster_views(tiles@) =~= split_tiles(whole));
        Ok(tiles)
    }
}

} // verus!
