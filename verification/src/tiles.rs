//! The quadtree of tiles over a grid: construction, splitting, and the search
//! for the leaves that a geometry meets.

use vstd::prelude::*;
use crate::fault::Fault;
use crate::geometry::{askable, computes, mk_rectangle, Rectangle};
use crate::region::{frame_fault, lemma_quadrant_valid, Region};
use crate::tree::{lemma_index_tiles, lemma_split_once_wf, tiled_by_leaves, TileView};

verus! {

/// A node of the quadtree: a block of the grid, the world rectangle it
/// covers, and either no children (a leaf) or its four quarters.
#[derive(Debug)]
pub struct Tile {
    region: Region,
    rectangle: Rectangle,
    parts: Option<Vec<Tile>>,
}

/// Appending four sequences one after the other appends them all at once.
proof fn lemma_append_four<A>(s: Seq<A>, a: Seq<A>, b: Seq<A>, c: Seq<A>, d: Seq<A>)
    ensures
        (((s + a) + b) + c) + d == s + (a + b + c + d),
{
    assert((((s + a) + b) + c) + d =~= s + (a + b + c + d));
}

/// The mathematical values of a sequence of tiles.
pub open spec fn views(tiles: Seq<Tile>) -> Seq<TileView> {
    tiles.map_values(|t: Tile| t@)
}

impl View for Tile {
    type V = TileView;

    closed spec fn view(&self) -> TileView {
        self.model()
    }
}

impl Tile {
    /// The tile as a mathematical value.
    spec fn model(&self) -> TileView
        decreases self,
    {
        TileView {
            region: self.region,
            parts: match self.parts {
                None => None,
                Some(kids) => Some(
                    Seq::new(
                        kids@.len(),
                        |i: int|
                            if 0 <= i < kids@.len() {
                                kids@[i].model()
                            } else {
                                arbitrary()
                            },
                    ),
                ),
            },
        }
    }

    /// The stored rectangle of every node is the rectangle of its block.
    spec fn consistent(&self) -> bool
        decreases self,
    {
        &&& self.rectangle == self.region.rectangle()
        &&& match self.parts {
            None => true,
            Some(kids) => forall|i: int| 0 <= i < kids@.len() ==> (#[trigger] kids@[i]).consistent(),
        }
    }

    /// How the value of a tile is made of the values of its children, and
    /// that the children of a well-formed tile are well formed.
    proof fn lemma_unfold(&self)
        ensures
            self@.region == self.region,
            match self.parts {
                None => self@.parts is None,
                Some(kids) => self@.parts == Some(views(kids@)),
            },
            self.wf() ==> self.rectangle == self.region.rectangle() && match self.parts {
                None => true,
                Some(kids) => kids@.len() == 4 && forall|i: int|
                    0 <= i < 4 ==> (#[trigger] kids@[i]).wf(),
            },
    {
        match self.parts {
            None => {},
            Some(kids) => {
                assert(self@.parts->0.len() == kids@.len());
                assert(self@.parts->0 =~= views(kids@));
                if self.wf() {
                    assert forall|i: int| 0 <= i < 4 implies (#[trigger] kids@[i]).wf() by {
                        assert(self@.parts->0[i].wf());
                    }
                }
            },
        }
    }

    /// The tile is a well-formed quadtree: see `TileView::wf`.
    pub closed spec fn wf(&self) -> bool {
        self@.wf() && self.consistent()
    }

    /// A leaf tile that covers `shape` cells from `origin` on and the world
    /// rectangle `bounds`, or the fault that the values show.
    pub fn new(
        shape: (usize, usize),
        bounds: (i64, i64, i64, i64),
        origin: (usize, usize),
        resolution: (i64, i64),
    ) -> (made: Result<Tile, Fault>)
        ensures
            match made {
                Ok(tile) => {
                    &&& frame_fault(shape, bounds, origin, resolution) is None
                    &&& tile.wf()
                    &&& tile@ == TileView::leaf(Region { origin, shape, bounds, resolution })
                },
                Err(fault) => frame_fault(shape, bounds, origin, resolution) == Some(fault),
            },
    {
        match Region::new(shape, bounds, origin, resolution) {
            Ok(region) => Ok(Tile::leaf(region)),
            Err(fault) => Err(fault),
        }
    }

    /// The leaf that covers `region`.
    fn leaf(region: Region) -> (tile: Tile)
        requires
            region.valid(),
        ensures
            tile.wf(),
            tile@ == TileView::leaf(region),
    {
        Tile { region, rectangle: mk_rectangle(region.bounds), parts: None }
    }

    /// The block that the tile covers.
    pub fn region(&self) -> (region: Region)
        ensures
            region == self@.region,
    {
        self.region
    }

    /// The (row, column) of the tile's first cell.
    pub fn origin(&self) -> (origin: (usize, usize))
        ensures
            origin == self@.region.origin,
    {
        self.region.origin
    }

    /// The tile's number of (rows, columns).
    pub fn shape(&self) -> (shape: (usize, usize))
        ensures
            shape == self@.region.shape,
    {
        self.region.shape
    }

    /// The tile's world bounds as (left, bottom, right, top).
    pub fn bounds(&self) -> (bounds: (i64, i64, i64, i64))
        ensures
            bounds == self@.region.bounds,
    {
        self.region.bounds
    }

    /// The (width, height) of one cell.
    pub fn resolution(&self) -> (resolution: (i64, i64))
        ensures
            resolution == self@.region.resolution,
    {
        self.region.resolution
    }

    /// The tile's world rectangle.
    pub fn rectangle(&self) -> (rect: Rectangle)
        requires
            self.wf(),
        ensures
            rect == self@.region.rectangle(),
    {
        self.rectangle
    }

    /// Whether the tile has no children.
    pub fn is_leaf(&self) -> (b: bool)
        ensures
            b == self@.is_leaf(),
    {
        self.parts.is_none()
    }

    /// The tile's children, if it has any: north-west, north-east,
    /// south-west, south-east.
    pub fn parts(&self) -> (parts: Option<&Vec<Tile>>)
        ensures
            match parts {
                None => self@.parts is None,
                Some(kids) => self@.parts == Some(views(kids@)),
            },
            self.wf() ==> match parts {
                None => true,
                Some(kids) => kids.len() == 4 && forall|i: int|
                    0 <= i < 4 ==> (#[trigger] kids[i]).wf(),
            },
    {
        match &self.parts {
            None => None,
            Some(kids) => {
                proof {
                    self.lemma_unfold();
                }
                Some(kids)
            },
        }
    }

    /// Quarters every leaf of the tree `n` times over. A leaf of fewer than
    /// two rows or two columns is left as it is.
    pub fn split(&mut self, n: usize)
        requires
            old(self).wf(),
        ensures
            final(self).wf(),
            final(self)@ == old(self)@.split_by(n as nat),
    {
        let mut round: usize = 0;
        while round < n
            invariant
                round <= n,
                self.wf(),
                self@ == old(self)@.split_by(round as nat),
            decreases n - round,
        {
            self.split_tile();
            round += 1;
        }
    }

    /// Quarters every leaf of the tree once.
    fn split_tile(&mut self)
        requires
            old(self).wf(),
        ensures
            final(self).wf(),
            final(self)@ == old(self)@.split_once(),
        decreases *old(self),
    {
        proof {
            self.lemma_unfold();
            lemma_split_once_wf(self@);
        }
        let region = self.region;
        match &mut self.parts {
            None => {
                if region.shape.0 >= 2 && region.shape.1 >= 2 {
                    let quarters = region.quarter();
                    let mut kids: Vec<Tile> = Vec::new();
                    let mut i: usize = 0;
                    while i < 4
                        invariant
                            i <= 4,
                            quarters.len() == 4,
                            region.valid(),
                            forall|k: int| 0 <= k < 4 ==> #[trigger] quarters[k] == region.quadrant(k),
                            kids.len() == i,
                            forall|k: int|
                                0 <= k < i ==> (#[trigger] kids[k]).wf() && kids[k]@ == TileView::leaf(
                                    region.quadrant(k),
                                ),
                        decreases 4 - i,
                    {
                        proof {
                            lemma_quadrant_valid(region, i as int);
                        }
                        kids.push(Tile::leaf(quarters[i]));
                        i += 1;
                    }
                    self.parts = Some(kids);
                }
            },
            Some(kids) => {
                let ghost before = kids@;
                kids[0].split_tile();
                assert(kids@[1] == before[1] && kids@[2] == before[2] && kids@[3] == before[3]);
                kids[1].split_tile();
                assert(kids@[2] == before[2] && kids@[3] == before[3]);
                kids[2].split_tile();
                assert(kids@[3] == before[3]);
                kids[3].split_tile();
                assert(kids@.len() == 4);
                assert(forall|k: int|
                    0 <= k < 4 ==> (#[trigger] kids@[k]).wf() && kids@[k]@ == before[k]@.split_once());
            },
        }
        proof {
            self.lemma_unfold();
            assert(self@.parts =~= old(self)@.split_once().parts);
        }
    }

    /// A well-formed tile has a well-formed value.
    pub proof fn lemma_wf_view(&self)
        requires
            self.wf(),
        ensures
            self@.wf(),
    {
    }

    /// A copy of a leaf.
    fn copy_leaf(&self) -> (copy: Tile)
        requires
            self.wf(),
            self@.is_leaf(),
        ensures
            copy.wf(),
            copy@ == self@,
    {
        proof {
            self.lemma_unfold();
        }
        Tile { region: self.region, rectangle: self.rectangle, parts: None }
    }

    /// The leaves of the tree that `geom` may meet, found depth first from
    /// the root: a subtree whose rectangle `geom` does not meet is passed
    /// over whole, and a leaf whose rectangle it meets is emitted. Children
    /// are visited north-west, north-east, south-west, south-east.
    ///
    /// What is found is stated for every predicate `hit` that `geom`
    /// computes.
    pub fn intersects_tile<G: Fn(Rectangle) -> bool>(&self, geom: &G) -> (found: Vec<Tile>)
        requires
            self.wf(),
            askable(geom),
        ensures
            forall|hit: spec_fn(Rectangle) -> bool| #[trigger]
                computes(geom, hit) ==> views(found@) == self@.query(hit),
            forall|i: int|
                0 <= i < found.len() ==> (#[trigger] found[i]).wf() && found[i]@.is_leaf()
                    && found[i]@.region.cells_within(self@.region),
    {
        let mut found: Vec<Tile> = Vec::new();
        self.collect(geom, &mut found);
        assert forall|hit: spec_fn(Rectangle) -> bool| #[trigger]
            computes(geom, hit) implies views(found@) == self@.query(hit) by {
            assert(views(found@) =~= views(Seq::empty()) + self@.query(hit));
        }
        found
    }

    /// Appends to `found` the leaves below `self` that the search emits.
    fn collect<G: Fn(Rectangle) -> bool>(&self, geom: &G, found: &mut Vec<Tile>)
        requires
            self.wf(),
            askable(geom),
        ensures
            forall|hit: spec_fn(Rectangle) -> bool| #[trigger]
                computes(geom, hit) ==> views(final(found)@) == views(old(found)@) + self@.query(
                    hit,
                ),
            old(found).len() <= final(found).len(),
            forall|i: int| 0 <= i < old(found).len() ==> final(found)[i] == old(found)[i],
            forall|i: int|
                old(found).len() <= i < final(found).len() ==> (#[trigger] final(found)[i]).wf()
                    && final(found)[i]@.is_leaf() && final(found)[i]@.region.cells_within(
                    self@.region,
                ),
        decreases self,
    {
        proof {
            self.lemma_unfold();
        }
        let met = geom(self.rectangle);
        if met {
            match &self.parts {
                None => {
                    let copy = self.copy_leaf();
                    found.push(copy);
                    assert(views(found@) =~= views(old(found)@) + seq![self@]);
                },
                Some(kids) => {
                    let ghost start = views(found@);
                    kids[0].collect(geom, found);
                    let ghost after0 = views(found@);
                    kids[1].collect(geom, found);
                    let ghost after1 = views(found@);
                    kids[2].collect(geom, found);
                    let ghost after2 = views(found@);
                    kids[3].collect(geom, found);
                    proof {
                        assert(self@.parts->0 == views(kids@));
                        lemma_quadrant_valid(self@.region, 0);
                        lemma_quadrant_valid(self@.region, 1);
                        lemma_quadrant_valid(self@.region, 2);
                        lemma_quadrant_valid(self@.region, 3);
                        assert(self@.parts->0[0] == kids[0]@);
                        assert(kids[0]@.region == self@.region.quadrant(0));
                        assert(self@.parts->0[1] == kids[1]@);
                        assert(kids[1]@.region == self@.region.quadrant(1));
                        assert(self@.parts->0[2] == kids[2]@);
                        assert(kids[2]@.region == self@.region.quadrant(2));
                        assert(self@.parts->0[3] == kids[3]@);
                        assert(kids[3]@.region == self@.region.quadrant(3));
                        assert forall|hit: spec_fn(Rectangle) -> bool| #[trigger]
                            computes(geom, hit) implies views(found@) == start + self@.query(
                            hit,
                        ) by {
                            assert(after0 == start + kids[0]@.query(hit));
                            assert(after1 == after0 + kids[1]@.query(hit));
                            assert(after2 == after1 + kids[2]@.query(hit));
                            lemma_append_four(
                                start,
                                kids[0]@.query(hit),
                                kids[1]@.query(hit),
                                kids[2]@.query(hit),
                                kids[3]@.query(hit),
                            );
                        }
                    }
                },
            }
        } else {
            assert(views(found@) =~= views(old(found)@) + Seq::empty());
        }
    }

    /// The rectangle of every node of the tree, a parent before its
    /// children: what a caller prints to see the tree.
    pub fn export(&self) -> (rectangles: Vec<Rectangle>)
        requires
            self.wf(),
        ensures
            rectangles@ == self@.nodes().map_values(|node: TileView| node.region.rectangle()),
    {
        let mut rectangles: Vec<Rectangle> = Vec::new();
        self.export_into(&mut rectangles);
        assert(rectangles@ =~= Seq::<Rectangle>::empty() + self@.nodes().map_values(
            |node: TileView| node.region.rectangle(),
        ));
        rectangles
    }

    /// Appends the rectangles of the nodes below `self` to `rectangles`.
    fn export_into(&self, rectangles: &mut Vec<Rectangle>)
        requires
            self.wf(),
        ensures
            final(rectangles)@ == old(rectangles)@ + self@.nodes().map_values(
                |node: TileView| node.region.rectangle(),
            ),
        decreases self,
    {
        proof {
            self.lemma_unfold();
        }
        let ghost shown = |node: TileView| node.region.rectangle();
        rectangles.push(self.rectangle);
        match &self.parts {
            None => {
                assert(rectangles@ =~= old(rectangles)@ + self@.nodes().map_values(shown));
            },
            Some(kids) => {
                let ghost n0 = kids[0]@.nodes().map_values(shown);
                let ghost n1 = kids[1]@.nodes().map_values(shown);
                let ghost n2 = kids[2]@.nodes().map_values(shown);
                let ghost n3 = kids[3]@.nodes().map_values(shown);
                kids[0].export_into(rectangles);
                kids[1].export_into(rectangles);
                kids[2].export_into(rectangles);
                kids[3].export_into(rectangles);
                assert(self@.parts->0 == views(kids@));
                assert(rectangles@ =~= old(rectangles)@ + (seq![self.rectangle] + n0 + n1 + n2 + n3));
                assert(self@.nodes().map_values(shown) =~= seq![self.rectangle] + n0 + n1 + n2 + n3);
            },
        }
    }
}

/// The quadtree over a grid of `grid_shape` cells that covers the world
/// rectangle `grid_bounds`, split to `target_depth`; or the fault that the
/// values show. The first cell of the grid is cell (0, 0). The leaves of the
/// tree tile the grid exactly.
pub fn build_index(
    grid_shape: (usize, usize),
    grid_bounds: (i64, i64, i64, i64),
    resolution: (i64, i64),
    target_depth: usize,
) -> (made: Result<Tile, Fault>)
    ensures
        match made {
            Ok(tile) => {
                &&& frame_fault(grid_shape, grid_bounds, (0, 0), resolution) is None
                &&& tile.wf()
                &&& tile@ == TileView::leaf(
                    Region {
                        origin: (0, 0),
                        shape: grid_shape,
                        bounds: grid_bounds,
                        resolution,
                    },
                ).split_by(target_depth as nat)
                &&& tile@.region == (Region {
                    origin: (0, 0),
                    shape: grid_shape,
                    bounds: grid_bounds,
                    resolution,
                })
                &&& tiled_by_leaves(tile@)
            },
            Err(fault) => frame_fault(grid_shape, grid_bounds, (0, 0), resolution) == Some(fault),
        },
{
    match Tile::new(grid_shape, grid_bounds, (0, 0), resolution) {
        Ok(tile) => {
            let mut tile = tile;
            tile.split(target_depth);
            proof {
                lemma_index_tiles(
                    Region {
                        origin: (0, 0),
                        shape: grid_shape,
                        bounds: grid_bounds,
                        resolution,
                    },
                    target_depth as nat,
                );
            }
            Ok(tile)
        },
        Err(fault) => Err(fault),
    }
}

/// The side below which a tile is not worth another round of quartering.
pub const MIN_TILE_SHAPE: usize = 8;

/// The rounds of dividing both sides of a grid by four until one of them is
/// at most `MIN_TILE_SHAPE`. There is always one round at least.
pub open spec fn split_rounds(rows: nat, cols: nat) -> nat
    decreases cols,
{
    if cols / 4 <= MIN_TILE_SHAPE || rows / 4 <= MIN_TILE_SHAPE {
        1
    } else {
        1 + split_rounds(rows / 4, cols / 4)
    }
}

/// The rounds grow far slower than the grid.
pub proof fn lemma_split_rounds_bound(rows: nat, cols: nat)
    ensures
        1 <= split_rounds(rows, cols) <= cols / 4 + 1,
    decreases cols,
{
    if !(cols / 4 <= MIN_TILE_SHAPE || rows / 4 <= MIN_TILE_SHAPE) {
        lemma_split_rounds_bound(rows / 4, cols / 4);
    }
}

/// The depth to which a grid of `rows` by `cols` cells is split by default:
/// one more than the rounds of dividing both sides by four until one of them
/// is at most `MIN_TILE_SHAPE`.
pub fn number_of_splits(rows: usize, cols: usize) -> (depth: usize)
    ensures
        depth == 1 + split_rounds(rows as nat, cols as nat),
{
    let mut mrows: usize = rows;
    let mut mcols: usize = cols;
    let mut depth: usize = 1;
    proof {
        lemma_split_rounds_bound(rows as nat, cols as nat);
    }
    loop
        invariant_except_break
            1 + split_rounds(rows as nat, cols as nat) == depth + split_rounds(
                mrows as nat,
                mcols as nat,
            ),
            1 + split_rounds(rows as nat, cols as nat) <= usize::MAX,
        ensures
            depth == 1 + split_rounds(rows as nat, cols as nat),
        decreases mcols,
    {
        proof {
            lemma_split_rounds_bound(mrows as nat, mcols as nat);
        }
        mrows = mrows / 4;
        mcols = mcols / 4;
        depth = depth + 1;
        if mcols <= MIN_TILE_SHAPE {
            break ;
        }
        if mrows <= MIN_TILE_SHAPE {
            break ;
        }
    }
    depth
}

} // verus!
