use geo::Intersects;
use raster_burn::{
    default_workers, mk_rectangle, raster_matches, work_chunks, worker_count, write_cells, Fault,
    Rectangle, Tile,
};

fn zeros(rows: usize, cols: usize) -> Vec<Vec<f64>> {
    vec![vec![0.0; cols]; rows]
}

fn unit_tile(rows: usize, cols: usize, depth: usize) -> Tile {
    let mut tile = Tile::new((rows, cols), (0, 0, cols as i64, rows as i64), (0, 0), (1, 1)).unwrap();
    tile.split(depth);
    tile
}

/// A geometry of the outside crate as a predicate on rectangles.
fn meets(shape: geo::Geometry<f64>) -> impl Fn(Rectangle) -> bool {
    move |rect: Rectangle| {
        let ring: Vec<(f64, f64)> = rect.ring().iter().map(|p| (p.0 as f64, p.1 as f64)).collect();
        geo::Polygon::new(geo::LineString::from(ring), vec![]).intersects(&shape)
    }
}

#[test]
fn top_left_block_is_burned() {
    let tile = unit_tile(4, 4, 1);
    let shape = mk_rectangle((0, 2, 2, 4));
    let mut grid = zeros(4, 4);
    tile.burn(&|rect: Rectangle| rect.overlaps(shape), &mut grid, 9.0, 2).unwrap();
    for r in 0..4 {
        for c in 0..4 {
            let expected = if r < 2 && c < 2 { 9.0 } else { 0.0 };
            assert_eq!(grid[r][c], expected, "cell ({}, {})", r, c);
        }
    }
}

#[test]
fn diagonal_line_same_for_one_and_eight_workers() {
    let line = geo::Geometry::Line(geo::Line::new((0.0, 0.0), (64.0, 64.0)));
    let geom = meets(line);
    let tile = unit_tile(64, 64, 3);
    let mut one = zeros(64, 64);
    let mut eight = zeros(64, 64);
    tile.burn(&geom, &mut one, 1.0, 1).unwrap();
    tile.burn(&geom, &mut eight, 1.0, 8).unwrap();
    assert_eq!(one, eight);
    // the line runs from the bottom left to the top right corner: it meets
    // the cells of the anti-diagonal and those that touch it
    for r in 0..64usize {
        for c in 0..64usize {
            let on_line = (c as i64 - (63 - r as i64)).abs() <= 1;
            assert_eq!(one[r][c] == 1.0, on_line, "cell ({}, {})", r, c);
        }
    }
}

#[test]
fn worker_count_does_not_change_the_grid() {
    let shape = mk_rectangle((3, 2, 11, 9));
    let geom = |rect: Rectangle| rect.overlaps(shape);
    let tile = unit_tile(13, 17, 3);
    let mut first = zeros(13, 17);
    tile.burn(&geom, &mut first, 5.0, 1).unwrap();
    for workers in [2usize, 3, 4, 7, 8, 64, 1000] {
        let mut grid = zeros(13, 17);
        tile.burn(&geom, &mut grid, 5.0, workers).unwrap();
        assert_eq!(grid, first, "{} workers", workers);
    }
}

#[test]
fn depth_does_not_change_the_grid() {
    let shape = mk_rectangle((3, 2, 11, 9));
    let geom = |rect: Rectangle| rect.overlaps(shape);
    let mut first = zeros(13, 17);
    unit_tile(13, 17, 0).burn(&geom, &mut first, 5.0, 1).unwrap();
    for depth in 1..5usize {
        let mut grid = zeros(13, 17);
        unit_tile(13, 17, depth).burn(&geom, &mut grid, 5.0, 3).unwrap();
        assert_eq!(grid, first, "depth {}", depth);
    }
}

#[test]
fn burned_cells_are_those_whose_rectangle_is_met() {
    let shape = mk_rectangle((2, 1, 5, 4));
    let geom = |rect: Rectangle| rect.overlaps(shape);
    let tile = unit_tile(6, 7, 2);
    let mut grid: Vec<Vec<f64>> = (0..6).map(|r| (0..7).map(|c| (r * 7 + c) as f64).collect()).collect();
    let before = grid.clone();
    tile.burn(&geom, &mut grid, -1.0, 4).unwrap();
    for r in 0..6usize {
        for c in 0..7usize {
            let pixel = tile.region().pixel_rectangle(r, c);
            if geom(pixel) {
                assert_eq!(grid[r][c], -1.0);
            } else {
                assert_eq!(grid[r][c], before[r][c]);
            }
        }
    }
    // rows count from the top: world y in [1, 4] is rows 2, 3, 4 of 6
    assert_eq!(grid[2][2], -1.0);
    assert_eq!(grid[4][4], -1.0);
    assert_eq!(grid[1][2], before[1][2]);
    assert_eq!(grid[5][4], before[5][4]);
    assert_eq!(grid[3][1], before[3][1]);
    assert_eq!(grid[3][5], before[3][5]);
}

#[test]
fn burn_with_a_polygon_of_the_outside_crate() {
    // a triangle with corners (0, 0), (8, 0), (0, 8), on an 8 x 8 grid
    let triangle = geo::Geometry::Polygon(geo::Polygon::new(
        geo::LineString::from(vec![(0.0, 0.0), (8.0, 0.0), (0.0, 8.0), (0.0, 0.0)]),
        vec![],
    ));
    let tile = unit_tile(8, 8, 2);
    let mut grid = zeros(8, 8);
    tile.burn(&meets(triangle), &mut grid, 2.0, 3).unwrap();
    for r in 0..8usize {
        for c in 0..8usize {
            // cell (r, c) spans x in [c, c + 1] and y in [7 - r, 8 - r]; it
            // meets the triangle if its lower left corner does: x + y <= 8
            let met = c + (7 - r) <= 8;
            assert_eq!(grid[r][c] == 2.0, met, "cell ({}, {})", r, c);
        }
    }
}

#[test]
fn burn_without_workers_is_refused() {
    let tile = unit_tile(4, 4, 1);
    let mut grid = zeros(4, 4);
    assert_eq!(tile.burn(&|_r: Rectangle| true, &mut grid, 9.0, 0), Err(Fault::NoWorkers));
    assert_eq!(grid, zeros(4, 4));
}

#[test]
fn burn_into_a_grid_of_another_shape_is_refused() {
    let tile = unit_tile(4, 4, 1);
    for (rows, cols) in [(3usize, 4usize), (4, 5), (5, 4), (0, 0)] {
        let mut grid = zeros(rows, cols);
        assert_eq!(tile.burn(&|_r: Rectangle| true, &mut grid, 9.0, 1), Err(Fault::ShapeMismatch));
        assert_eq!(grid, zeros(rows, cols));
    }
    let mut ragged = zeros(4, 4);
    ragged[2].pop();
    let copy = ragged.clone();
    assert_eq!(tile.burn(&|_r: Rectangle| true, &mut ragged, 9.0, 1), Err(Fault::ShapeMismatch));
    assert_eq!(ragged, copy);
}

#[test]
fn no_workers_is_named_before_a_wrong_shape() {
    let tile = unit_tile(4, 4, 1);
    let mut grid = zeros(2, 2);
    assert_eq!(tile.burn(&|_r: Rectangle| true, &mut grid, 9.0, 0), Err(Fault::NoWorkers));
}

#[test]
fn raster_matches_the_declared_shape_only() {
    let tile = unit_tile(3, 5, 0);
    assert!(raster_matches(&zeros(3, 5), &tile.region()));
    assert!(!raster_matches(&zeros(5, 3), &tile.region()));
    assert!(!raster_matches(&zeros(3, 4), &tile.region()));
    assert!(!raster_matches(&zeros(2, 5), &tile.region()));
}

#[test]
fn burn_of_a_window_leaves_the_rest() {
    // a tile whose first cell is cell (2, 3) of a 4 x 5 grid
    let mut tile = Tile::new((2, 2), (0, 0, 2, 2), (2, 3), (1, 1)).unwrap();
    tile.split(1);
    let mut grid = zeros(4, 5);
    tile.burn(&|_r: Rectangle| true, &mut grid, 7.0, 2).unwrap();
    for r in 0..4usize {
        for c in 0..5usize {
            let inside = r >= 2 && c >= 3;
            assert_eq!(grid[r][c] == 7.0, inside);
        }
    }
}

#[test]
fn chunks_for_fewer_tiles_than_workers() {
    assert_eq!(work_chunks(3, 8), vec![(0, 3)]);
    assert_eq!(work_chunks(0, 1), vec![(0, 0)]);
    assert_eq!(work_chunks(0, 5), vec![(0, 0)]);
}

#[test]
fn chunks_give_the_remainder_to_the_last() {
    assert_eq!(work_chunks(10, 3), vec![(0, 3), (3, 6), (6, 10)]);
    assert_eq!(work_chunks(9, 3), vec![(0, 3), (3, 6), (6, 9)]);
    assert_eq!(work_chunks(8, 8), vec![(0, 1), (1, 2), (2, 3), (3, 4), (4, 5), (5, 6), (6, 7), (7, 8)]);
    assert_eq!(work_chunks(7, 1), vec![(0, 7)]);
    assert_eq!(work_chunks(15, 4), vec![(0, 3), (3, 6), (6, 9), (9, 15)]);
}

#[test]
fn chunks_for_no_worker_are_none() {
    assert_eq!(work_chunks(5, 0), Vec::<(usize, usize)>::new());
}

#[test]
fn chunks_cover_every_place_once() {
    for tiles in 0..40usize {
        for workers in 1..12usize {
            let plan = work_chunks(tiles, workers);
            let mut next = 0usize;
            for (start, stop) in plan.iter() {
                assert_eq!(*start, next);
                assert!(start <= stop);
                next = *stop;
            }
            assert_eq!(next, tiles);
        }
    }
}

#[test]
fn hit_cells_are_listed_row_by_row() {
    let tile = unit_tile(4, 4, 1);
    let shape = mk_rectangle((1, 1, 3, 3));
    let geom = |rect: Rectangle| rect.overlaps(shape);
    let leaves = tile.intersects_tile(&geom);
    assert_eq!(leaves.len(), 4);
    assert_eq!(tile.hit_cells(&leaves[0], &geom), vec![(1, 1)]);
    assert_eq!(tile.hit_cells(&leaves[1], &geom), vec![(1, 2)]);
    assert_eq!(tile.hit_cells(&leaves[2], &geom), vec![(2, 1)]);
    assert_eq!(tile.hit_cells(&leaves[3], &geom), vec![(2, 2)]);
    assert_eq!(
        tile.hit_cells(&tile, &geom),
        vec![(1, 1), (1, 2), (2, 1), (2, 2)]
    );
}

#[test]
fn writing_the_hit_cells_is_burning_the_tile() {
    let tile = unit_tile(9, 9, 2);
    let shape = mk_rectangle((2, 3, 8, 7));
    let geom = |rect: Rectangle| rect.overlaps(shape);
    let mut burned = zeros(9, 9);
    let mut written = zeros(9, 9);
    for leaf in tile.intersects_tile(&geom).iter() {
        tile.burn_tile(leaf, &geom, &mut burned, 3.0);
        let cells = tile.hit_cells(leaf, &geom);
        write_cells(&mut written, &cells, 3.0);
    }
    assert_eq!(burned, written);
    let mut whole = zeros(9, 9);
    tile.burn(&geom, &mut whole, 3.0, 5).unwrap();
    assert_eq!(burned, whole);
}

#[test]
fn write_cells_writes_the_listed_cells_only() {
    let mut grid = zeros(2, 3);
    write_cells(&mut grid, &vec![(0, 1), (1, 2), (0, 1)], 4.0);
    assert_eq!(grid, vec![vec![0.0, 4.0, 0.0], vec![0.0, 0.0, 4.0]]);
    write_cells(&mut grid, &vec![], 8.0);
    assert_eq!(grid, vec![vec![0.0, 4.0, 0.0], vec![0.0, 0.0, 4.0]]);
}

#[test]
fn burn_tile_burns_one_leaf_only() {
    let tile = unit_tile(4, 4, 1);
    let leaves = tile.intersects_tile(&|_r: Rectangle| true);
    let mut grid = zeros(4, 4);
    tile.burn_tile(&leaves[3], &|_r: Rectangle| true, &mut grid, 1.0);
    for r in 0..4usize {
        for c in 0..4usize {
            assert_eq!(grid[r][c] == 1.0, r >= 2 && c >= 2);
        }
    }
}

#[test]
fn half_of_the_cores_work() {
    assert_eq!(worker_count(0), 1);
    assert_eq!(worker_count(1), 1);
    assert_eq!(worker_count(2), 1);
    assert_eq!(worker_count(3), 1);
    assert_eq!(worker_count(4), 2);
    assert_eq!(worker_count(9), 4);
    assert_eq!(worker_count(64), 32);
}

#[test]
fn this_machine_gives_the_workers_of_its_cores() {
    assert!(default_workers() >= 1);
    assert_eq!(default_workers(), worker_count(num_cpus::get()));
}
