use raster_burn::{mk_rectangle, split_raster_tile, Fault, RasterTile, Rectangle, Tile};

fn counted(rows: usize, cols: usize) -> Vec<Vec<f64>> {
    (0..rows).map(|r| (0..cols).map(|c| (r * cols + c) as f64).collect()).collect()
}

#[test]
fn raster_is_split_into_its_quarters() {
    let rast = counted(4, 6);
    let tiles = split_raster_tile(&rast, (4, 6), (0, 0, 12, 8), (2, 2)).unwrap();
    assert_eq!(tiles.len(), 4);
    let nw = &tiles[0];
    assert_eq!(nw.region().origin, (0, 0));
    assert_eq!(nw.region().shape, (2, 3));
    assert_eq!(nw.region().bounds, (0, 4, 6, 8));
    assert_eq!(*nw.cells(), vec![vec![0.0, 1.0, 2.0], vec![6.0, 7.0, 8.0]]);
    let ne = &tiles[1];
    assert_eq!(ne.region().origin, (0, 3));
    assert_eq!(ne.region().bounds, (6, 4, 12, 8));
    assert_eq!(*ne.cells(), vec![vec![3.0, 4.0, 5.0], vec![9.0, 10.0, 11.0]]);
    let sw = &tiles[2];
    assert_eq!(sw.region().origin, (2, 0));
    assert_eq!(sw.region().bounds, (0, 0, 6, 4));
    assert_eq!(*sw.cells(), vec![vec![12.0, 13.0, 14.0], vec![18.0, 19.0, 20.0]]);
    let se = &tiles[3];
    assert_eq!(se.region().origin, (2, 3));
    assert_eq!(se.region().bounds, (6, 0, 12, 4));
    assert_eq!(*se.cells(), vec![vec![15.0, 16.0, 17.0], vec![21.0, 22.0, 23.0]]);
    for tile in tiles.iter() {
        assert!(tile.is_leaf());
        assert_eq!(tile.region().resolution, (2, 2));
        assert_eq!(tile.rectangle().ring()[0], (tile.region().bounds.0, tile.region().bounds.1));
    }
}

#[test]
fn odd_raster_gives_the_smaller_half_first() {
    let rast = counted(3, 5);
    let tiles = split_raster_tile(&rast, (3, 5), (0, 0, 5, 3), (1, 1)).unwrap();
    assert_eq!(tiles[0].region().shape, (1, 2));
    assert_eq!(tiles[1].region().shape, (1, 3));
    assert_eq!(tiles[2].region().shape, (2, 2));
    assert_eq!(tiles[3].region().shape, (2, 3));
    assert_eq!(*tiles[0].cells(), vec![vec![0.0, 1.0]]);
    assert_eq!(*tiles[3].cells(), vec![vec![7.0, 8.0, 9.0], vec![12.0, 13.0, 14.0]]);
}

#[test]
fn raster_too_small_to_quarter_stays_whole() {
    let rast = counted(1, 4);
    let tiles = split_raster_tile(&rast, (1, 4), (0, 0, 4, 1), (1, 1)).unwrap();
    assert_eq!(tiles.len(), 1);
    assert_eq!(tiles[0].region().shape, (1, 4));
    assert_eq!(*tiles[0].cells(), rast);
}

#[test]
fn split_raster_refuses_each_fault() {
    let rast = counted(4, 4);
    assert_eq!(
        split_raster_tile(&rast, (4, 4), (0, 0, 4, 4), (0, 1)).err(),
        Some(Fault::BadResolution)
    );
    assert_eq!(
        split_raster_tile(&rast, (4, 4), (0, 0, 4, 4), (2, 1)).err(),
        Some(Fault::BoundsMismatch)
    );
    assert_eq!(
        split_raster_tile(&rast, (4, 4), (0, 0, i64::MAX, 4), (1, 1)).err(),
        Some(Fault::OutOfRange)
    );
    assert_eq!(
        split_raster_tile(&rast, (2, 8), (0, 0, 8, 2), (1, 1)).err(),
        Some(Fault::ShapeMismatch)
    );
    let mut ragged = counted(4, 4);
    ragged[1].push(0.0);
    assert_eq!(
        split_raster_tile(&ragged, (4, 4), (0, 0, 4, 4), (1, 1)).err(),
        Some(Fault::ShapeMismatch)
    );
}

#[test]
fn owning_tile_refuses_a_raster_of_another_shape() {
    assert_eq!(
        RasterTile::new(counted(3, 4), (4, 3), (0, 0, 3, 4), (0, 0), (1, 1)).err(),
        Some(Fault::ShapeMismatch)
    );
    assert!(RasterTile::new(counted(4, 3), (4, 3), (0, 0, 3, 4), (0, 0), (1, 1)).is_ok());
}

#[test]
fn split_then_recompose_gives_the_grid_back() {
    for (rows, cols) in [(1usize, 1usize), (4, 4), (5, 7), (13, 9), (16, 3), (2, 2), (0, 0)] {
        for depth in 0..5usize {
            let grid = counted(rows, cols);
            let bounds = (0, 0, 3 * cols as i64, 2 * rows as i64);
            let mut tile = RasterTile::new(grid.clone(), (rows, cols), bounds, (0, 0), (3, 2)).unwrap();
            tile.split(depth);
            assert_eq!(tile.recompose(0.0), grid, "{} x {} at depth {}", rows, cols, depth);
            assert_eq!(tile.recompose(-1.0), grid);
        }
    }
}

#[test]
fn split_moves_the_cells_into_the_leaves() {
    let mut tile = RasterTile::new(counted(4, 4), (4, 4), (0, 0, 4, 4), (0, 0), (1, 1)).unwrap();
    tile.split(1);
    assert!(!tile.is_leaf());
    assert!(tile.cells().is_empty());
    let kids = tile.parts().unwrap();
    assert_eq!(kids.len(), 4);
    assert_eq!(*kids[0].cells(), vec![vec![0.0, 1.0], vec![4.0, 5.0]]);
    assert_eq!(*kids[3].cells(), vec![vec![10.0, 11.0], vec![14.0, 15.0]]);
    tile.split(1);
    let kids = tile.parts().unwrap();
    let inner = kids[1].parts().unwrap();
    assert_eq!(inner[2].region().origin, (1, 2));
    assert_eq!(*inner[2].cells(), vec![vec![6.0]]);
}

#[test]
fn recompose_of_a_tile_with_an_origin() {
    let mut tile = RasterTile::new(counted(4, 6), (4, 6), (0, 0, 6, 4), (10, 20), (1, 1)).unwrap();
    tile.split(2);
    assert_eq!(tile.recompose(0.0), counted(4, 6));
}

#[test]
fn owned_burn_gives_the_grid_of_a_shared_burn() {
    let shape = mk_rectangle((4, 3, 17, 10));
    let geom = |rect: Rectangle| rect.overlaps(shape);
    for depth in 0..4usize {
        let grid = counted(9, 11);
        let bounds = (0, 0, 22, 18);
        let mut shared = grid.clone();
        let mut index = Tile::new((9, 11), bounds, (0, 0), (2, 2)).unwrap();
        index.split(depth);
        index.burn(&geom, &mut shared, -3.0, 4).unwrap();
        let mut owned = RasterTile::new(grid.clone(), (9, 11), bounds, (0, 0), (2, 2)).unwrap();
        owned.split(depth);
        owned.burn(&geom, -3.0);
        assert_eq!(owned.recompose(0.0), shared, "depth {}", depth);
        assert_ne!(shared, grid);
    }
}

#[test]
fn owned_burn_writes_into_the_leaves() {
    let mut tile = RasterTile::new(counted(4, 4), (4, 4), (0, 0, 4, 4), (0, 0), (1, 1)).unwrap();
    tile.split(1);
    // the top left cell only: x in [0, 1], y in [3, 4]
    let shape = mk_rectangle((0, 3, 1, 4));
    tile.burn(&|rect: Rectangle| rect.overlaps(shape), 99.0);
    let kids = tile.parts().unwrap();
    assert_eq!(*kids[0].cells(), vec![vec![99.0, 1.0], vec![4.0, 5.0]]);
    assert_eq!(*kids[1].cells(), vec![vec![2.0, 3.0], vec![6.0, 7.0]]);
    assert_eq!(*kids[2].cells(), vec![vec![8.0, 9.0], vec![12.0, 13.0]]);
    assert_eq!(*kids[3].cells(), vec![vec![10.0, 11.0], vec![14.0, 15.0]]);
}

#[test]
fn owned_burn_that_meets_nothing_changes_nothing() {
    let mut tile = RasterTile::new(counted(4, 4), (4, 4), (0, 0, 4, 4), (0, 0), (1, 1)).unwrap();
    tile.split(2);
    tile.burn(&|_rect: Rectangle| false, 1.0);
    assert_eq!(tile.recompose(0.0), counted(4, 4));
}
