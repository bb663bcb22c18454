//! Burning a value into the cells of a grid that a geometry meets.

use vstd::prelude::*;
use crate::fault::Fault;
use crate::grid::{grid_of, same_shape, set_cell};
use crate::geometry::{askable, computes, monotone, Rectangle};
use crate::region::Region;
use crate::tiles::{views, Tile};
use crate::tree::{
    lemma_cell_covered, lemma_leaves_aligned, lemma_leaves_within, lemma_query_exact,
    lemma_query_sound, TileView,
};

verus! {

/// The grid ends with the block: its rows are the block's rows and those
/// above it, and each of its rows holds the block's columns and those left
/// of it. For a block whose origin is (0, 0) the grid has the block's shape.
pub open spec fn grid_matches<T>(grid: Seq<Seq<T>>, region: Region) -> bool {
    &&& grid.len() == region.origin.0 + region.rows()
    &&& forall|r: int|
        0 <= r < grid.len() ==> (#[trigger] grid[r]).len() == region.origin.1 + region.cols()
}

/// The grid after one tile was burned: a cell of the tile whose rectangle
/// `hit` accepts holds `value`, every other cell what it held.
pub open spec fn burn_tile_spec<T>(
    grid: Seq<Seq<T>>,
    frame: Region,
    tile: Region,
    hit: spec_fn(Rectangle) -> bool,
    value: T,
) -> Seq<Seq<T>> {
    Seq::new(
        grid.len(),
        |r: int|
            Seq::new(
                grid[r].len(),
                |c: int|
                    if tile.contains_cell(r, c) && hit(frame.pixel(r, c)) {
                        value
                    } else {
                        grid[r][c]
                    },
            ),
    )
}

/// The grid after the tiles were burned one after the other.
pub open spec fn burn_tiles_spec<T>(
    grid: Seq<Seq<T>>,
    frame: Region,
    tiles: Seq<TileView>,
    hit: spec_fn(Rectangle) -> bool,
    value: T,
) -> Seq<Seq<T>>
    decreases tiles.len(),
{
    if tiles.len() == 0 {
        grid
    } else {
        burn_tile_spec(
            burn_tiles_spec(grid, frame, tiles.drop_last(), hit, value),
            frame,
            tiles.last().region,
            hit,
            value,
        )
    }
}

/// The chunks into which `tiles` candidates are cut for `workers` workers,
/// each as (first, one past last). Fewer candidates than workers make one
/// chunk. Otherwise there is one chunk for each worker, of `tiles / workers`
/// candidates, and the last chunk takes the remainder too. No worker, no
/// chunk.
pub open spec fn chunk_plan(tiles: int, workers: int) -> Seq<(int, int)> {
    if workers <= 0 {
        Seq::empty()
    } else if tiles < workers {
        seq![(0int, tiles)]
    } else {
        Seq::new(
            workers as nat,
            |k: int|
                (
                    k * (tiles / workers),
                    if k == workers - 1 {
                        tiles
                    } else {
                        (k + 1) * (tiles / workers)
                    },
                ),
        )
    }
}

/// The chunks follow one another from 0 to `tiles` without a gap: each
/// candidate lies in exactly one of them.
pub open spec fn consecutive(plan: Seq<(int, int)>, tiles: int) -> bool {
    &&& plan.len() >= 1
    &&& plan[0].0 == 0
    &&& plan[plan.len() - 1].1 == tiles
    &&& forall|k: int| 0 <= k < plan.len() ==> (#[trigger] plan[k]).0 <= plan[k].1
    &&& forall|k: int| 0 <= k < plan.len() - 1 ==> (#[trigger] plan[k]).1 == plan[k + 1].0
}

/// The grid after the chunks of `plan` were burned one after the other, each
/// chunk tile by tile.
pub open spec fn burn_chunks_spec<T>(
    grid: Seq<Seq<T>>,
    frame: Region,
    tiles: Seq<TileView>,
    plan: Seq<(int, int)>,
    hit: spec_fn(Rectangle) -> bool,
    value: T,
) -> Seq<Seq<T>>
    decreases plan.len(),
{
    if plan.len() == 0 {
        grid
    } else {
        burn_tiles_spec(
            burn_chunks_spec(grid, frame, tiles, plan.drop_last(), hit, value),
            frame,
            tiles.subrange(plan.last().0, plan.last().1),
            hit,
            value,
        )
    }
}

/// One of the tiles holds cell (`r`, `c`).
pub open spec fn held(tiles: Seq<TileView>, r: int, c: int) -> bool {
    exists|i: int| 0 <= i < tiles.len() && (#[trigger] tiles[i]).region.contains_cell(r, c)
}

/// Cell (`r`, `c`) is burned: the search emits a leaf that holds the cell,
/// and `hit` accepts the cell's rectangle.
pub open spec fn burned(tree: TileView, hit: spec_fn(Rectangle) -> bool, r: int, c: int) -> bool {
    hit(tree.region.pixel(r, c)) && held(tree.query(hit), r, c)
}

/// The grid after a burn: a burned cell holds `value`, every other cell what
/// it held.
pub open spec fn burn_outcome<T>(
    grid: Seq<Seq<T>>,
    tree: TileView,
    hit: spec_fn(Rectangle) -> bool,
    value: T,
) -> Seq<Seq<T>> {
    Seq::new(
        grid.len(),
        |r: int|
            Seq::new(
                grid[r].len(),
                |c: int|
                    if burned(tree, hit, r, c) {
                        value
                    } else {
                        grid[r][c]
                    },
            ),
    )
}

/// The fault for which a burn is refused, if there is one.
pub open spec fn burn_fault<T>(grid: Seq<Seq<T>>, region: Region, workers: int) -> Option<Fault> {
    if workers < 1 {
        Some(Fault::NoWorkers)
    } else if !grid_matches(grid, region) {
        Some(Fault::ShapeMismatch)
    } else {
        None
    }
}

/// The chunks of a plan, as mathematical pairs.
pub open spec fn plan_of(chunks: Seq<(usize, usize)>) -> Seq<(int, int)> {
    chunks.map_values(|chunk: (usize, usize)| (chunk.0 as int, chunk.1 as int))
}

/// Cuts the places 0 to `ntiles` into the chunks that `nthreads` workers
/// take: see `chunk_plan`.
pub fn work_chunks(ntiles: usize, nthreads: usize) -> (chunks: Vec<(usize, usize)>)
    ensures
        plan_of(chunks@) == chunk_plan(ntiles as int, nthreads as int),
{
    let mut chunks: Vec<(usize, usize)> = Vec::new();
    if nthreads == 0 {
        assert(plan_of(chunks@) =~= chunk_plan(ntiles as int, nthreads as int));
        return chunks;
    }
    if ntiles < nthreads {
        chunks.push((0, ntiles));
        assert(plan_of(chunks@) =~= chunk_plan(ntiles as int, nthreads as int));
        return chunks;
    }
    let chunk_size: usize = ntiles / nthreads;
    let ghost plan = chunk_plan(ntiles as int, nthreads as int);
    let mut k: usize = 0;
    let mut start: usize = 0;
    while k < nthreads
        invariant
            1 <= nthreads <= ntiles,
            chunk_size == ntiles / nthreads,
            plan == chunk_plan(ntiles as int, nthreads as int),
            k <= nthreads,
            start == k * chunk_size,
            chunks.len() == k,
            forall|j: int|
                0 <= j < k ==> ((#[trigger] chunks@[j]).0 as int, chunks@[j].1 as int) == plan[j],
        decreases nthreads - k,
    {
        proof {
            lemma_chunk_bounds(ntiles as int, nthreads as int, k as int);
        }
        let next: usize = start + chunk_size;
        let stop: usize = if k == nthreads - 1 {
            ntiles
        } else {
            next
        };
        chunks.push((start, stop));
        start = next;
        k += 1;
    }
    assert(plan_of(chunks@) =~= plan);
    chunks
}

/// The first `k` full chunks end at or before the last candidate.
pub proof fn lemma_chunk_bounds(tiles: int, workers: int, k: int)
    requires
        1 <= workers <= tiles,
        0 <= k <= workers,
    ensures
        0 <= k * (tiles / workers) <= tiles,
        k < workers ==> (k + 1) * (tiles / workers) <= tiles,
        k * (tiles / workers) + tiles / workers == (k + 1) * (tiles / workers),
{
    let size = tiles / workers;
    assert(size * workers <= tiles && size >= 1) by (nonlinear_arith)
        requires
            size == tiles / workers,
            1 <= workers <= tiles,
    ;
    assert(0 <= k * size <= workers * size) by (nonlinear_arith)
        requires
            0 <= k <= workers,
            size >= 0,
    ;
    assert(k * size + size == (k + 1) * size) by (nonlinear_arith);
    if k < workers {
        assert((k + 1) * size <= workers * size) by (nonlinear_arith)
            requires
                0 <= k + 1 <= workers,
                size >= 0,
        ;
    }
    assert(workers * size == size * workers) by (nonlinear_arith);
}

/// The chunks that `chunk_plan` makes for one worker or more follow one
/// another from 0 to `tiles`: all candidates are covered, each exactly once.
pub proof fn lemma_chunk_plan_consecutive(tiles: int, workers: int)
    requires
        0 <= tiles,
        1 <= workers,
    ensures
        consecutive(chunk_plan(tiles, workers), tiles),
{
    let plan = chunk_plan(tiles, workers);
    if tiles >= workers {
        assert forall|k: int| 0 <= k < plan.len() implies (#[trigger] plan[k]).0 <= plan[k].1 by {
            lemma_chunk_bounds(tiles, workers, k);
        }
        assert(plan[0].0 == 0) by (nonlinear_arith)
            requires
                plan[0].0 == 0 * (tiles / workers),
        ;
    }
}

/// Burning tiles one after the other keeps the grid's shape and gives each
/// cell `value` if one of the tiles holds it and `hit` accepts its rectangle,
/// and leaves it as it was if not: the order of the tiles does not matter.
pub proof fn lemma_burn_tiles_cells<T>(
    grid: Seq<Seq<T>>,
    frame: Region,
    tiles: Seq<TileView>,
    hit: spec_fn(Rectangle) -> bool,
    value: T,
)
    ensures
        same_shape(burn_tiles_spec(grid, frame, tiles, hit, value), grid),
        forall|r: int, c: int|
            0 <= r < grid.len() && 0 <= c < grid[r].len() ==> #[trigger] burn_tiles_spec(
                grid,
                frame,
                tiles,
                hit,
                value,
            )[r][c] == (if hit(frame.pixel(r, c)) && held(tiles, r, c) {
                value
            } else {
                grid[r][c]
            }),
    decreases tiles.len(),
{
    if tiles.len() > 0 {
        let rest = tiles.drop_last();
        lemma_burn_tiles_cells(grid, frame, rest, hit, value);
        let before = burn_tiles_spec(grid, frame, rest, hit, value);
        let after = burn_tiles_spec(grid, frame, tiles, hit, value);
        assert forall|r: int, c: int| 0 <= r < grid.len() && 0 <= c < grid[r].len() implies (
        #[trigger] after[r][c]) == (if hit(frame.pixel(r, c)) && held(tiles, r, c) {
            value
        } else {
            grid[r][c]
        }) by {
            assert(before[r].len() == grid[r].len());
            if held(rest, r, c) {
                let i = choose|i: int|
                    0 <= i < rest.len() && (#[trigger] rest[i]).region.contains_cell(r, c);
                assert(tiles[i].region.contains_cell(r, c));
            }
            if tiles.last().region.contains_cell(r, c) {
                assert(tiles[tiles.len() - 1].region.contains_cell(r, c));
            }
            if held(tiles, r, c) {
                let i = choose|i: int|
                    0 <= i < tiles.len() && (#[trigger] tiles[i]).region.contains_cell(r, c);
                if i < rest.len() {
                    assert(rest[i].region.contains_cell(r, c));
                }
            }
        }
    }
}

/// Burning one run of tiles and then another is burning the two runs laid
/// end to end.
pub proof fn lemma_burn_tiles_append<T>(
    grid: Seq<Seq<T>>,
    frame: Region,
    first: Seq<TileView>,
    second: Seq<TileView>,
    hit: spec_fn(Rectangle) -> bool,
    value: T,
)
    ensures
        burn_tiles_spec(burn_tiles_spec(grid, frame, first, hit, value), frame, second, hit, value)
            == burn_tiles_spec(grid, frame, first + second, hit, value),
    decreases second.len(),
{
    if second.len() == 0 {
        assert(first + second =~= first);
    } else {
        lemma_burn_tiles_append(grid, frame, first, second.drop_last(), hit, value);
        assert((first + second).drop_last() =~= first + second.drop_last());
        assert((first + second).last() == second.last());
    }
}

/// Where a plan ends: one past the last candidate of its last chunk.
pub open spec fn plan_end(plan: Seq<(int, int)>) -> int {
    if plan.len() == 0 {
        0
    } else {
        plan.last().1
    }
}

/// The chunks follow one another from 0 on, within `tiles` candidates.
pub open spec fn chained(plan: Seq<(int, int)>, tiles: int) -> bool {
    &&& plan.len() > 0 ==> plan[0].0 == 0
    &&& forall|k: int| 0 <= k < plan.len() ==> 0 <= (#[trigger] plan[k]).0 <= plan[k].1 <= tiles
    &&& forall|k: int| 0 <= k < plan.len() - 1 ==> (#[trigger] plan[k]).1 == plan[k + 1].0
}

/// Burning chunk by chunk what follows one another from 0 on is burning the
/// candidates up to the end of the last chunk, one after the other.
pub proof fn lemma_burn_chunks_tiles<T>(
    grid: Seq<Seq<T>>,
    frame: Region,
    tiles: Seq<TileView>,
    plan: Seq<(int, int)>,
    hit: spec_fn(Rectangle) -> bool,
    value: T,
)
    requires
        chained(plan, tiles.len() as int),
    ensures
        0 <= plan_end(plan) <= tiles.len(),
        burn_chunks_spec(grid, frame, tiles, plan, hit, value) == burn_tiles_spec(
            grid,
            frame,
            tiles.take(plan_end(plan)),
            hit,
            value,
        ),
    decreases plan.len(),
{
    if plan.len() == 0 {
        assert(tiles.take(0) =~= Seq::<TileView>::empty());
    } else {
        let rest = plan.drop_last();
        assert(chained(rest, tiles.len() as int)) by {
            assert forall|k: int| 0 <= k < rest.len() implies 0 <= (#[trigger] rest[k]).0
                <= rest[k].1 <= tiles.len() by {
                assert(rest[k] == plan[k]);
            }
            assert forall|k: int| 0 <= k < rest.len() - 1 implies (#[trigger] rest[k]).1 == rest[k
                + 1].0 by {
                assert(rest[k] == plan[k]);
                assert(rest[k + 1] == plan[k + 1]);
            }
            if rest.len() > 0 {
                assert(rest[0] == plan[0]);
            }
        }
        lemma_burn_chunks_tiles(grid, frame, tiles, rest, hit, value);
        let last = plan.last();
        assert(plan[plan.len() - 1] == last);
        assert(plan_end(rest) == last.0) by {
            if rest.len() > 0 {
                assert(rest.last() == plan[plan.len() - 2]);
            }
        }
        lemma_burn_tiles_append(
            grid,
            frame,
            tiles.take(last.0),
            tiles.subrange(last.0, last.1),
            hit,
            value,
        );
        assert(tiles.take(last.0) + tiles.subrange(last.0, last.1) =~= tiles.take(last.1));
    }
}

/// However many workers share the candidates, burning them chunk by chunk
/// gives the grid in which exactly the burned cells hold `value`.
pub proof fn lemma_burn_chunks_outcome<T>(
    grid: Seq<Seq<T>>,
    tree: TileView,
    hit: spec_fn(Rectangle) -> bool,
    value: T,
    workers: int,
)
    requires
        workers >= 1,
    ensures
        burn_chunks_spec(
            grid,
            tree.region,
            tree.query(hit),
            chunk_plan(tree.query(hit).len() as int, workers),
            hit,
            value,
        ) == burn_outcome(grid, tree, hit, value),
{
    let tiles = tree.query(hit);
    let plan = chunk_plan(tiles.len() as int, workers);
    lemma_chunk_plan_consecutive(tiles.len() as int, workers);
    assert(chained(plan, tiles.len() as int)) by {
        if tiles.len() >= workers {
            assert forall|k: int| 0 <= k < plan.len() implies 0 <= (#[trigger] plan[k]).0
                <= plan[k].1 <= tiles.len() by {
                lemma_chunk_bounds(tiles.len() as int, workers, k);
            }
        }
    }
    lemma_burn_chunks_tiles(grid, tree.region, tiles, plan, hit, value);
    assert(tiles.take(tiles.len() as int) =~= tiles);
    lemma_burn_tiles_cells(grid, tree.region, tiles, hit, value);
    assert(burn_tiles_spec(grid, tree.region, tiles, hit, value) =~~= burn_outcome(
        grid,
        tree,
        hit,
        value,
    ));
}

/// The grid that a burn leaves does not depend on the number of workers.
pub proof fn lemma_burn_deterministic<T>(
    grid: Seq<Seq<T>>,
    tree: TileView,
    hit: spec_fn(Rectangle) -> bool,
    value: T,
    workers: int,
    others: int,
)
    requires
        workers >= 1,
        others >= 1,
    ensures
        burn_chunks_spec(
            grid,
            tree.region,
            tree.query(hit),
            chunk_plan(tree.query(hit).len() as int, workers),
            hit,
            value,
        ) == burn_chunks_spec(
            grid,
            tree.region,
            tree.query(hit),
            chunk_plan(tree.query(hit).len() as int, others),
            hit,
            value,
        ),
{
    lemma_burn_chunks_outcome(grid, tree, hit, value, workers);
    lemma_burn_chunks_outcome(grid, tree, hit, value, others);
}

/// In a well-formed tree and for a monotone `hit`, a cell of the tree is
/// burned exactly if `hit` accepts the cell's rectangle; no other cell is.
pub proof fn lemma_burned_iff_hit(tree: TileView, hit: spec_fn(Rectangle) -> bool, r: int, c: int)
    requires
        tree.wf(),
        monotone(hit),
    ensures
        burned(tree, hit, r, c) <==> tree.region.contains_cell(r, c) && hit(
            tree.region.pixel(r, c),
        ),
{
    let found = tree.query(hit);
    if burned(tree, hit, r, c) {
        let i = choose|i: int|
            0 <= i < found.len() && (#[trigger] found[i]).region.contains_cell(r, c);
        let j = lemma_query_sound(tree, hit, i);
        lemma_leaves_within(tree, j);
    }
    if tree.region.contains_cell(r, c) && hit(tree.region.pixel(r, c)) {
        let j = lemma_cell_covered(tree, r, c);
        let leaf = tree.leaves()[j];
        lemma_leaves_aligned(tree, j);
        assert(tree.region.pixel(r, c).within(leaf.region.rectangle()));
        assert(hit(leaf.region.rectangle()));
        lemma_query_exact(tree, hit);
        let accepted = |l: TileView| hit(l.region.rectangle());
        assert(tree.leaves().contains(leaf));
        assert(accepted(leaf));
        tree.leaves().lemma_filter_contains_rev(accepted, leaf);
        assert(found.contains(leaf));
        let i = choose|i: int| 0 <= i < found.len() && found[i] == leaf;
        assert(found[i].region.contains_cell(r, c));
    }
}

/// After a burn of a well-formed tree with a monotone `hit`, a cell of the
/// tree whose rectangle `hit` accepts holds `value`, and every other cell of
/// the grid holds what it held before. So a cell that did not hold `value`
/// before holds it afterwards exactly if `hit` accepts its rectangle.
pub proof fn lemma_burn_correct<T>(
    grid: Seq<Seq<T>>,
    tree: TileView,
    hit: spec_fn(Rectangle) -> bool,
    value: T,
    r: int,
    c: int,
)
    requires
        tree.wf(),
        monotone(hit),
        0 <= r < grid.len(),
        0 <= c < grid[r].len(),
    ensures
        burn_outcome(grid, tree, hit, value)[r][c] == (if tree.region.contains_cell(r, c) && hit(
            tree.region.pixel(r, c),
        ) {
            value
        } else {
            grid[r][c]
        }),
        grid[r][c] != value ==> (burn_outcome(grid, tree, hit, value)[r][c] == value
            <==> tree.region.contains_cell(r, c) && hit(tree.region.pixel(r, c))),
{
    lemma_burned_iff_hit(tree, hit, r, c);
}

/// Whether the raster ends with the block: see `grid_matches`.
pub fn raster_matches<T>(raster: &Vec<Vec<T>>, region: &Region) -> (b: bool)
    requires
        region.valid(),
    ensures
        b == grid_matches(grid_of(*raster), *region),
{
    let rows: usize = region.origin.0 + region.shape.0;
    let cols: usize = region.origin.1 + region.shape.1;
    if raster.len() != rows {
        return false;
    }
    let mut r: usize = 0;
    while r < rows
        invariant
            r <= rows,
            rows == raster.len(),
            cols == region.origin.1 + region.cols(),
            forall|i: int| 0 <= i < r ==> (#[trigger] grid_of(*raster)[i]).len() == cols,
        decreases rows - r,
    {
        if raster[r].len() != cols {
            assert(grid_of(*raster)[r as int].len() != cols);
            return false;
        }
        r += 1;
    }
    true
}

/// The grid while a tile is burned, when the cells before cell (`r`, `c`)
/// have been tested and those from it on have not.
spec fn burn_upto<T>(
    grid: Seq<Seq<T>>,
    frame: Region,
    tile: Region,
    hit: spec_fn(Rectangle) -> bool,
    value: T,
    r: int,
    c: int,
) -> Seq<Seq<T>> {
    Seq::new(
        grid.len(),
        |i: int|
            Seq::new(
                grid[i].len(),
                |j: int|
                    if tile.contains_cell(i, j) && (i < r || (i == r && j < c)) && hit(
                        frame.pixel(i, j),
                    ) {
                        value
                    } else {
                        grid[i][j]
                    },
            ),
    )
}

impl Tile {
    /// Burns one tile: writes `burn_value` into every cell of `leaf` whose
    /// rectangle `geom` meets. `self` is the tile that covers the raster; it
    /// gives each cell its rectangle.
    ///
    /// The grid is stated for every predicate `hit` that `geom` computes.
    pub fn burn_tile<T: Copy, G: Fn(Rectangle) -> bool>(
        &self,
        leaf: &Tile,
        geom: &G,
        raster: &mut Vec<Vec<T>>,
        burn_value: T,
    )
        requires
            self.wf(),
            askable(geom),
            leaf@.region.cells_within(self@.region),
            grid_matches(grid_of(*old(raster)), self@.region),
        ensures
            same_shape(grid_of(*final(raster)), grid_of(*old(raster))),
            forall|hit: spec_fn(Rectangle) -> bool| #[trigger]
                computes(geom, hit) ==> grid_of(*final(raster)) == burn_tile_spec(
                    grid_of(*old(raster)),
                    self@.region,
                    leaf@.region,
                    hit,
                    burn_value,
                ),
    {
        proof {
            self.lemma_wf_view();
        }
        let frame = self.region();
        let tile = leaf.region();
        let ghost before = grid_of(*raster);
        let first_row: usize = tile.origin.0;
        let first_col: usize = tile.origin.1;
        let end_row: usize = first_row + tile.shape.0;
        let end_col: usize = first_col + tile.shape.1;
        let mut r: usize = first_row;
        assert forall|hit: spec_fn(Rectangle) -> bool| #[trigger]
            computes(geom, hit) implies grid_of(*raster) == burn_upto(
            before,
            frame,
            tile,
            hit,
            burn_value,
            r as int,
            first_col as int,
        ) by {
            assert(before =~~= burn_upto(
                before,
                frame,
                tile,
                hit,
                burn_value,
                r as int,
                first_col as int,
            ));
        }
        while r < end_row
            invariant
                frame.valid(),
                tile.cells_within(frame),
                askable(geom),
                first_row == tile.origin.0,
                first_col == tile.origin.1,
                end_row == first_row + tile.rows(),
                end_col == first_col + tile.cols(),
                first_row <= r <= end_row || (r == first_row && end_row <= first_row),
                grid_matches(before, frame),
                same_shape(grid_of(*raster), before),
                forall|hit: spec_fn(Rectangle) -> bool| #[trigger]
                    computes(geom, hit) ==> grid_of(*raster) == burn_upto(
                        before,
                        frame,
                        tile,
                        hit,
                        burn_value,
                        r as int,
                        first_col as int,
                    ),
            decreases end_row - r,
        {
            let mut c: usize = first_col;
            while c < end_col
                invariant
                    frame.valid(),
                    tile.cells_within(frame),
                    askable(geom),
                    first_row == tile.origin.0,
                    first_col == tile.origin.1,
                    end_row == first_row + tile.rows(),
                    end_col == first_col + tile.cols(),
                    first_row <= r < end_row,
                    first_col <= c <= end_col,
                    grid_matches(before, frame),
                    same_shape(grid_of(*raster), before),
                    forall|hit: spec_fn(Rectangle) -> bool| #[trigger]
                        computes(geom, hit) ==> grid_of(*raster) == burn_upto(
                            before,
                            frame,
                            tile,
                            hit,
                            burn_value,
                            r as int,
                            c as int,
                        ),
                decreases end_col - c,
            {
                let ghost sofar = grid_of(*raster);
                let pixel = frame.pixel_rectangle(r, c);
                let met = geom(pixel);
                if met {
                    assert(grid_of(*raster)[r as int].len() == before[r as int].len());
                    set_cell(raster, r, c, burn_value);
                }
                assert forall|hit: spec_fn(Rectangle) -> bool| #[trigger]
                    computes(geom, hit) implies grid_of(*raster) == burn_upto(
                    before,
                    frame,
                    tile,
                    hit,
                    burn_value,
                    r as int,
                    c + 1,
                ) by {
                    assert(sofar == burn_upto(
                        before,
                        frame,
                        tile,
                        hit,
                        burn_value,
                        r as int,
                        c as int,
                    ));
                    assert(met == hit(pixel));
                    assert(grid_of(*raster) =~~= burn_upto(
                        before,
                        frame,
                        tile,
                        hit,
                        burn_value,
                        r as int,
                        c + 1,
                    ));
                }
                c += 1;
            }
            assert forall|hit: spec_fn(Rectangle) -> bool| #[trigger]
                computes(geom, hit) implies grid_of(*raster) == burn_upto(
                before,
                frame,
                tile,
                hit,
                burn_value,
                r + 1,
                first_col as int,
            ) by {
                assert(burn_upto(before, frame, tile, hit, burn_value, r as int, end_col as int)
                    =~~= burn_upto(before, frame, tile, hit, burn_value, r + 1, first_col as int));
            }
            r += 1;
        }
        assert forall|hit: spec_fn(Rectangle) -> bool| #[trigger]
            computes(geom, hit) implies grid_of(*raster) == burn_tile_spec(
            before,
            frame,
            tile,
            hit,
            burn_value,
        ) by {
            assert(burn_upto(before, frame, tile, hit, burn_value, r as int, first_col as int)
                =~~= burn_tile_spec(before, frame, tile, hit, burn_value));
        }
    }

    /// Burns `burn_value` into every cell of the raster whose rectangle
    /// `geom` meets, and leaves every other cell as it is.
    ///
    /// The candidate leaves are searched with `intersects_tile`, cut into
    /// chunks for `nthreads` workers with `work_chunks`, and burned chunk by
    /// chunk with `burn_tile`, here one chunk after the other. A caller that
    /// runs the chunks side by side lets each worker list the cells of its
    /// chunk with `hit_cells` and writes the lists with `write_cells`. It
    /// gets the same grid: what a cell holds afterwards does not depend on
    /// the order in which the tiles were burned, nor on the chunks.
    ///
    /// With no worker, or with a raster that does not match the tile, nothing
    /// is written and the fault is returned. The grid after a burn is stated
    /// for every predicate `hit` that `geom` computes.
    pub fn burn<T: Copy, G: Fn(Rectangle) -> bool>(
        &self,
        geom: &G,
        raster: &mut Vec<Vec<T>>,
        burn_value: T,
        nthreads: usize,
    ) -> (done: Result<(), Fault>)
        requires
            self.wf(),
            askable(geom),
        ensures
            match done {
                Ok(_) => {
                    &&& burn_fault(grid_of(*old(raster)), self@.region, nthreads as int) is None
                    &&& same_shape(grid_of(*final(raster)), grid_of(*old(raster)))
                    &&& forall|hit: spec_fn(Rectangle) -> bool| #[trigger]
                        computes(geom, hit) ==> {
                            &&& grid_of(*final(raster)) == burn_outcome(
                                grid_of(*old(raster)),
                                self@,
                                hit,
                                burn_value,
                            )
                            &&& grid_of(*final(raster)) == burn_chunks_spec(
                                grid_of(*old(raster)),
                                self@.region,
                                self@.query(hit),
                                chunk_plan(self@.query(hit).len() as int, nthreads as int),
                                hit,
                                burn_value,
                            )
                        }
                },
                Err(fault) => {
                    &&& burn_fault(grid_of(*old(raster)), self@.region, nthreads as int) == Some(
                        fault,
                    )
                    &&& *final(raster) == *old(raster)
                },
            },
    {
        proof {
            self.lemma_wf_view();
        }
        if nthreads == 0 {
            return Err(Fault::NoWorkers);
        }
        let frame = self.region();
        if !raster_matches(raster, &frame) {
            return Err(Fault::ShapeMismatch);
        }
        let ghost before = grid_of(*raster);
        let tiles = self.intersects_tile(geom);
        let chunks = work_chunks(tiles.len(), nthreads);
        let ghost found = views(tiles@);
        let ghost plan = chunk_plan(tiles.len() as int, nthreads as int);
        proof {
            lemma_chunk_plan_consecutive(tiles.len() as int, nthreads as int);
            assert(plan.len() == chunks.len());
            assert forall|k: int| 0 <= k < plan.len() implies 0 <= (#[trigger] plan[k]).0
                <= plan[k].1 <= found.len() by {
                if found.len() >= nthreads {
                    lemma_chunk_bounds(found.len() as int, nthreads as int, k);
                }
            }
        }
        let mut k: usize = 0;
        while k < chunks.len()
            invariant
                self.wf(),
                askable(geom),
                frame == self@.region,
                found == views(tiles@),
                plan_of(chunks@) == plan,
                k <= chunks.len(),
                forall|j: int|
                    0 <= j < plan.len() ==> 0 <= (#[trigger] plan[j]).0 <= plan[j].1 <= found.len(),
                forall|i: int|
                    0 <= i < tiles.len() ==> (#[trigger] tiles[i])@.region.cells_within(
                        self@.region,
                    ),
                grid_matches(before, frame),
                same_shape(grid_of(*raster), before),
                forall|hit: spec_fn(Rectangle) -> bool| #[trigger]
                    computes(geom, hit) ==> grid_of(*raster) == burn_chunks_spec(
                        before,
                        frame,
                        found,
                        plan.take(k as int),
                        hit,
                        burn_value,
                    ),
            decreases chunks.len() - k,
        {
            let (start, stop) = chunks[k];
            let ghost sofar = grid_of(*raster);
            proof {
                assert(plan_of(chunks@)[k as int] == plan[k as int]);
            }
            let mut i: usize = start;
            assert forall|hit: spec_fn(Rectangle) -> bool| #[trigger]
                computes(geom, hit) implies grid_of(*raster) == burn_tiles_spec(
                sofar,
                frame,
                found.subrange(start as int, i as int),
                hit,
                burn_value,
            ) by {
                assert(found.subrange(start as int, i as int) =~= Seq::<TileView>::empty());
            }
            while i < stop
                invariant
                    self.wf(),
                    askable(geom),
                    frame == self@.region,
                    found == views(tiles@),
                    0 <= start <= i <= stop <= found.len(),
                    forall|i: int|
                        0 <= i < tiles.len() ==> (#[trigger] tiles[i])@.region.cells_within(
                            self@.region,
                        ),
                    grid_matches(before, frame),
                    same_shape(sofar, before),
                    same_shape(grid_of(*raster), before),
                    forall|hit: spec_fn(Rectangle) -> bool| #[trigger]
                        computes(geom, hit) ==> grid_of(*raster) == burn_tiles_spec(
                            sofar,
                            frame,
                            found.subrange(start as int, i as int),
                            hit,
                            burn_value,
                        ),
                decreases stop - i,
            {
                let ghost inner = grid_of(*raster);
                self.burn_tile(&tiles[i], geom, raster, burn_value);
                proof {
                    assert(found[i as int] == tiles[i as int]@);
                    assert(found.subrange(start as int, i + 1).drop_last() =~= found.subrange(
                        start as int,
                        i as int,
                    ));
                    assert forall|hit: spec_fn(Rectangle) -> bool| #[trigger]
                        computes(geom, hit) implies grid_of(*raster) == burn_tiles_spec(
                        sofar,
                        frame,
                        found.subrange(start as int, i + 1),
                        hit,
                        burn_value,
                    ) by {
                        assert(inner == burn_tiles_spec(
                            sofar,
                            frame,
                            found.subrange(start as int, i as int),
                            hit,
                            burn_value,
                        ));
                    }
                }
                i += 1;
            }
            proof {
                assert(plan.take(k + 1).drop_last() =~= plan.take(k as int));
                assert(plan.take(k + 1).last() == plan[k as int]);
                assert forall|hit: spec_fn(Rectangle) -> bool| #[trigger]
                    computes(geom, hit) implies grid_of(*raster) == burn_chunks_spec(
                    before,
                    frame,
                    found,
                    plan.take(k + 1),
                    hit,
                    burn_value,
                ) by {
                    assert(sofar == burn_chunks_spec(
                        before,
                        frame,
                        found,
                        plan.take(k as int),
                        hit,
                        burn_value,
                    ));
                }
            }
            k += 1;
        }
        proof {
            assert(plan.take(plan.len() as int) =~= plan);
            assert forall|hit: spec_fn(Rectangle) -> bool| #[trigger]
                computes(geom, hit) implies {
                &&& grid_of(*raster) == burn_outcome(before, self@, hit, burn_value)
                &&& grid_of(*raster) == burn_chunks_spec(
                    before,
                    self@.region,
                    self@.query(hit),
                    chunk_plan(self@.query(hit).len() as int, nthreads as int),
                    hit,
                    burn_value,
                )
            } by {
                assert(found == self@.query(hit));
                lemma_burn_chunks_outcome(before, self@, hit, burn_value, nthreads as int);
            }
        }
        Ok(())
    }
}

/// Cell (`r`, `c`) stands in the list.
pub open spec fn listed(cells: Seq<(usize, usize)>, r: int, c: int) -> bool {
    exists|k: int| 0 <= k < cells.len() && (#[trigger] cells[k]).0 == r && cells[k].1 == c
}

/// Cell `a` comes before cell `b` when the grid is read row by row.
pub open spec fn reads_before(a: (usize, usize), b: (usize, usize)) -> bool {
    a.0 < b.0 || (a.0 == b.0 && a.1 < b.1)
}

/// The list holds exactly the cells of `tile` whose rectangle `hit` accepts,
/// each once, in the order in which the grid is read row by row.
pub open spec fn is_hit_list(
    cells: Seq<(usize, usize)>,
    frame: Region,
    tile: Region,
    hit: spec_fn(Rectangle) -> bool,
) -> bool {
    &&& forall|k: int|
        0 <= k < cells.len() ==> tile.contains_cell(
            (#[trigger] cells[k]).0 as int,
            cells[k].1 as int,
        ) && hit(frame.pixel(cells[k].0 as int, cells[k].1 as int))
    &&& forall|r: int, c: int| #[trigger]
        tile.contains_cell(r, c) && hit(frame.pixel(r, c)) ==> listed(cells, r, c)
    &&& forall|k: int, l: int|
        0 <= k < l < cells.len() ==> reads_before(#[trigger] cells[k], #[trigger] cells[l])
}

/// The grid after `value` was written into the listed cells.
pub open spec fn write_cells_spec<T>(grid: Seq<Seq<T>>, cells: Seq<(usize, usize)>, value: T) -> Seq<
    Seq<T>,
> {
    Seq::new(
        grid.len(),
        |r: int|
            Seq::new(
                grid[r].len(),
                |c: int|
                    if listed(cells, r, c) {
                        value
                    } else {
                        grid[r][c]
                    },
            ),
    )
}

/// Writing `value` into the cells of a tile's hit list burns the tile.
pub proof fn lemma_write_hits_burns<T>(
    grid: Seq<Seq<T>>,
    cells: Seq<(usize, usize)>,
    frame: Region,
    tile: Region,
    hit: spec_fn(Rectangle) -> bool,
    value: T,
)
    requires
        is_hit_list(cells, frame, tile, hit),
    ensures
        write_cells_spec(grid, cells, value) == burn_tile_spec(grid, frame, tile, hit, value),
{
    assert forall|r: int, c: int| 0 <= r < grid.len() && 0 <= c < grid[r].len() implies listed(
        cells,
        r,
        c,
    ) == (tile.contains_cell(r, c) && hit(frame.pixel(r, c))) by {
        if listed(cells, r, c) {
            let k = choose|k: int|
                0 <= k < cells.len() && (#[trigger] cells[k]).0 == r && cells[k].1 == c;
            assert(tile.contains_cell(cells[k].0 as int, cells[k].1 as int));
        }
    }
    assert(write_cells_spec(grid, cells, value) =~~= burn_tile_spec(grid, frame, tile, hit, value));
}

/// Writes `value` into every listed cell of the raster.
pub fn write_cells<T: Copy>(raster: &mut Vec<Vec<T>>, cells: &Vec<(usize, usize)>, value: T)
    requires
        forall|k: int|
            0 <= k < cells.len() ==> (#[trigger] cells[k]).0 < old(raster).len() && cells[k].1
                < old(raster)[cells[k].0 as int].len(),
    ensures
        grid_of(*final(raster)) == write_cells_spec(grid_of(*old(raster)), cells@, value),
{
    let ghost before = grid_of(*raster);
    let mut n: usize = 0;
    while n < cells.len()
        invariant
            n <= cells.len(),
            before == grid_of(*old(raster)),
            forall|k: int|
                0 <= k < cells.len() ==> (#[trigger] cells[k]).0 < before.len() && cells[k].1
                    < before[cells[k].0 as int].len(),
            same_shape(grid_of(*raster), before),
            forall|i: int, j: int|
                0 <= i < before.len() && 0 <= j < before[i].len() ==> #[trigger] grid_of(
                    *raster,
                )[i][j] == (if listed(cells@.take(n as int), i, j) {
                    value
                } else {
                    before[i][j]
                }),
        decreases cells.len() - n,
    {
        let (r, c) = cells[n];
        let ghost sofar = grid_of(*raster);
        assert(sofar[r as int].len() == before[r as int].len());
        set_cell(raster, r, c, value);
        proof {
            let done = cells@.take(n as int);
            let next = cells@.take(n + 1);
            assert(next[n as int] == (r, c));
            assert forall|i: int, j: int|
                0 <= i < before.len() && 0 <= j < before[i].len() implies #[trigger] grid_of(
                *raster,
            )[i][j] == (if listed(next, i, j) {
                value
            } else {
                before[i][j]
            }) by {
                assert(sofar[i].len() == before[i].len());
                if listed(done, i, j) {
                    let k = choose|k: int|
                        0 <= k < done.len() && (#[trigger] done[k]).0 == i && done[k].1 == j;
                    assert(next[k] == done[k]);
                }
                if listed(next, i, j) && !(i == r && j == c) {
                    let k = choose|k: int|
                        0 <= k < next.len() && (#[trigger] next[k]).0 == i && next[k].1 == j;
                    assert(done[k] == next[k]);
                }
            }
        }
        n += 1;
    }
    assert(cells@.take(cells.len() as int) =~= cells@);
    assert(grid_of(*raster) =~~= write_cells_spec(before, cells@, value));
}

/// What holds of a hit list while it is made, when the cells before cell
/// (`r`, `c`) have been tested: the listed cells are accepted by `hit`, and
/// each cell of `tile` before (`r`, `c`) that `hit` accepts is listed.
spec fn hits_upto(
    cells: Seq<(usize, usize)>,
    frame: Region,
    tile: Region,
    hit: spec_fn(Rectangle) -> bool,
    r: int,
    c: int,
) -> bool {
    &&& forall|k: int|
        0 <= k < cells.len() ==> hit(frame.pixel((#[trigger] cells[k]).0 as int, cells[k].1 as int))
    &&& forall|i: int, j: int| #[trigger]
        tile.contains_cell(i, j) && hit(frame.pixel(i, j)) && (i < r || (i == r && j < c))
            ==> listed(cells, i, j)
}

impl Tile {
    /// The cells of `leaf` whose rectangle `geom` meets, in the order in
    /// which the grid is read row by row. `self` is the tile that covers the
    /// raster; it gives each cell its rectangle. Nothing is written: a
    /// worker can make the list on its own, and `write_cells` burns it.
    ///
    /// The list is stated for every predicate `hit` that `geom` computes.
    pub fn hit_cells<G: Fn(Rectangle) -> bool>(&self, leaf: &Tile, geom: &G) -> (cells: Vec<
        (usize, usize),
    >)
        requires
            self.wf(),
            askable(geom),
            leaf@.region.cells_within(self@.region),
        ensures
            forall|k: int|
                0 <= k < cells.len() ==> leaf@.region.contains_cell(
                    (#[trigger] cells[k]).0 as int,
                    cells[k].1 as int,
                ),
            forall|hit: spec_fn(Rectangle) -> bool| #[trigger]
                computes(geom, hit) ==> is_hit_list(cells@, self@.region, leaf@.region, hit),
    {
        proof {
            self.lemma_wf_view();
        }
        let frame = self.region();
        let tile = leaf.region();
        let first_row: usize = tile.origin.0;
        let first_col: usize = tile.origin.1;
        let end_row: usize = first_row + tile.shape.0;
        let end_col: usize = first_col + tile.shape.1;
        let mut cells: Vec<(usize, usize)> = Vec::new();
        let mut r: usize = first_row;
        while r < end_row
            invariant
                frame.valid(),
                tile.cells_within(frame),
                askable(geom),
                first_row == tile.origin.0,
                first_col == tile.origin.1,
                end_row == first_row + tile.rows(),
                end_col == first_col + tile.cols(),
                first_row <= r <= end_row || (r == first_row && end_row <= first_row),
                forall|k: int|
                    0 <= k < cells.len() ==> tile.contains_cell(
                        (#[trigger] cells[k]).0 as int,
                        cells[k].1 as int,
                    ) && cells[k].0 < r,
                forall|k: int, l: int|
                    0 <= k < l < cells.len() ==> reads_before(
                        #[trigger] cells[k],
                        #[trigger] cells[l],
                    ),
                forall|hit: spec_fn(Rectangle) -> bool| #[trigger]
                    computes(geom, hit) ==> hits_upto(
                        cells@,
                        frame,
                        tile,
                        hit,
                        r as int,
                        first_col as int,
                    ),
            decreases end_row - r,
        {
            let mut c: usize = first_col;
            while c < end_col
                invariant
                    frame.valid(),
                    tile.cells_within(frame),
                    askable(geom),
                    first_row == tile.origin.0,
                    first_col == tile.origin.1,
                    end_row == first_row + tile.rows(),
                    end_col == first_col + tile.cols(),
                    first_row <= r < end_row,
                    first_col <= c <= end_col,
                    forall|k: int|
                        0 <= k < cells.len() ==> tile.contains_cell(
                            (#[trigger] cells[k]).0 as int,
                            cells[k].1 as int,
                        ) && (cells[k].0 < r || (cells[k].0 == r && cells[k].1 < c)),
                    forall|k: int, l: int|
                        0 <= k < l < cells.len() ==> reads_before(
                            #[trigger] cells[k],
                            #[trigger] cells[l],
                        ),
                    forall|hit: spec_fn(Rectangle) -> bool| #[trigger]
                        computes(geom, hit) ==> hits_upto(
                            cells@,
                            frame,
                            tile,
                            hit,
                            r as int,
                            c as int,
                        ),
                decreases end_col - c,
            {
                let pixel = frame.pixel_rectangle(r, c);
                let ghost before = cells@;
                let met = geom(pixel);
                if met {
                    cells.push((r, c));
                }
                proof {
                    assert forall|hit: spec_fn(Rectangle) -> bool| #[trigger]
                        computes(geom, hit) implies hits_upto(
                        cells@,
                        frame,
                        tile,
                        hit,
                        r as int,
                        c + 1,
                    ) by {
                        assert(hits_upto(before, frame, tile, hit, r as int, c as int));
                        assert(met == hit(pixel));
                        assert forall|k: int| 0 <= k < cells.len() implies hit(
                            frame.pixel((#[trigger] cells@[k]).0 as int, cells@[k].1 as int),
                        ) by {
                            if k < before.len() {
                                assert(cells@[k] == before[k]);
                            }
                        }
                        assert forall|i: int, j: int| #[trigger]
                            tile.contains_cell(i, j) && hit(frame.pixel(i, j)) && (i < r || (i == r
                                && j < c + 1)) implies listed(cells@, i, j) by {
                            if i == r && j == c {
                                assert(cells@[before.len() as int].0 == i);
                            } else {
                                assert(listed(before, i, j));
                                let k = choose|k: int|
                                    0 <= k < before.len() && (#[trigger] before[k]).0 == i
                                        && before[k].1 == j;
                                assert(cells@[k] == before[k]);
                            }
                        }
                    }
                }
                c += 1;
            }
            assert forall|hit: spec_fn(Rectangle) -> bool| #[trigger]
                computes(geom, hit) implies hits_upto(
                cells@,
                frame,
                tile,
                hit,
                r + 1,
                first_col as int,
            ) by {
                assert(hits_upto(cells@, frame, tile, hit, r as int, end_col as int));
            }
            r += 1;
        }
        assert forall|hit: spec_fn(Rectangle) -> bool| #[trigger]
            computes(geom, hit) implies is_hit_list(cells@, frame, tile, hit) by {
            assert(hits_upto(cells@, frame, tile, hit, r as int, first_col as int));
        }
        cells
    }
}

} // verus!
