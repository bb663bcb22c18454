use raster_burn::{build_index, mk_rectangle, number_of_splits, Fault, Rectangle, Tile};

fn everything(_rect: Rectangle) -> bool {
    true
}

fn leaves_of(tile: &Tile) -> Vec<Tile> {
    tile.intersects_tile(&everything)
}

fn count_covering(leaves: &[Tile], rows: usize, cols: usize) -> Vec<Vec<usize>> {
    let mut seen = vec![vec![0usize; cols]; rows];
    for leaf in leaves {
        let (r0, c0) = leaf.origin();
        let (nr, nc) = leaf.shape();
        for r in r0..r0 + nr {
            for c in c0..c0 + nc {
                seen[r][c] += 1;
            }
        }
    }
    seen
}

#[test]
fn new_tile_is_a_leaf_with_its_values() {
    let tile = Tile::new((4, 6), (0, 0, 12, 8), (0, 0), (2, 2)).unwrap();
    assert!(tile.is_leaf());
    assert!(tile.parts().is_none());
    assert_eq!(tile.shape(), (4, 6));
    assert_eq!(tile.origin(), (0, 0));
    assert_eq!(tile.bounds(), (0, 0, 12, 8));
    assert_eq!(tile.resolution(), (2, 2));
    assert_eq!(tile.rectangle(), mk_rectangle((0, 0, 12, 8)));
}

#[test]
fn new_tile_refuses_each_fault() {
    assert_eq!(Tile::new((4, 4), (0, 0, 4, 4), (0, 0), (0, 1)).err(), Some(Fault::BadResolution));
    assert_eq!(
        Tile::new((4, 4), (0, 0, 4, 4), (0, usize::MAX), (1, 1)).err(),
        Some(Fault::OutOfRange)
    );
    assert_eq!(Tile::new((4, 4), (0, 0, 4, 5), (0, 0), (1, 1)).err(), Some(Fault::BoundsMismatch));
}

#[test]
fn split_once_gives_four_quarters() {
    let mut tile = Tile::new((4, 4), (0, 0, 4, 4), (0, 0), (1, 1)).unwrap();
    tile.split(1);
    assert!(!tile.is_leaf());
    let kids = tile.parts().unwrap();
    assert_eq!(kids.len(), 4);
    assert_eq!((kids[0].origin(), kids[0].bounds()), ((0, 0), (0, 2, 2, 4)));
    assert_eq!((kids[1].origin(), kids[1].bounds()), ((0, 2), (2, 2, 4, 4)));
    assert_eq!((kids[2].origin(), kids[2].bounds()), ((2, 0), (0, 0, 2, 2)));
    assert_eq!((kids[3].origin(), kids[3].bounds()), ((2, 2), (2, 0, 4, 2)));
    for kid in kids.iter() {
        assert!(kid.is_leaf());
        assert_eq!(kid.shape(), (2, 2));
        assert_eq!(kid.resolution(), (1, 1));
        assert_eq!(kid.rectangle(), mk_rectangle(kid.bounds()));
    }
}

#[test]
fn split_zero_times_changes_nothing() {
    let mut tile = Tile::new((4, 4), (0, 0, 4, 4), (0, 0), (1, 1)).unwrap();
    tile.split(0);
    assert!(tile.is_leaf());
}

#[test]
fn split_to_depth_gives_four_to_the_depth_leaves() {
    for depth in 0..4usize {
        let mut tile = Tile::new((16, 16), (0, 0, 16, 16), (0, 0), (1, 1)).unwrap();
        tile.split(depth);
        assert_eq!(leaves_of(&tile).len(), 4usize.pow(depth as u32));
    }
}

#[test]
fn split_in_steps_is_split_at_once() {
    let mut a = Tile::new((13, 9), (0, 0, 27, 26), (0, 0), (3, 2)).unwrap();
    let mut b = Tile::new((13, 9), (0, 0, 27, 26), (0, 0), (3, 2)).unwrap();
    a.split(3);
    b.split(1);
    b.split(2);
    assert_eq!(a.export(), b.export());
    let la: Vec<_> = leaves_of(&a).iter().map(|t| (t.origin(), t.shape(), t.bounds())).collect();
    let lb: Vec<_> = leaves_of(&b).iter().map(|t| (t.origin(), t.shape(), t.bounds())).collect();
    assert_eq!(la, lb);
}

#[test]
fn odd_shape_halves_round_down_first() {
    let mut tile = Tile::new((5, 7), (0, 0, 7, 5), (0, 0), (1, 1)).unwrap();
    tile.split(1);
    let kids = tile.parts().unwrap();
    assert_eq!(kids[0].shape(), (2, 3));
    assert_eq!(kids[1].shape(), (2, 4));
    assert_eq!(kids[2].shape(), (3, 3));
    assert_eq!(kids[3].shape(), (3, 4));
    assert_eq!(kids[1].origin(), (0, 3));
    assert_eq!(kids[2].origin(), (2, 0));
    assert_eq!(kids[3].origin(), (2, 3));
}

#[test]
fn a_single_row_is_not_split() {
    let mut tile = Tile::new((1, 8), (0, 0, 8, 1), (0, 0), (1, 1)).unwrap();
    tile.split(3);
    assert!(tile.is_leaf());
    let mut tile = Tile::new((8, 1), (0, 0, 1, 8), (0, 0), (1, 1)).unwrap();
    tile.split(3);
    assert!(tile.is_leaf());
}

#[test]
fn splitting_stops_where_a_quarter_would_be_empty() {
    // 2 x 2 splits once into single cells, which stay
    let mut tile = Tile::new((2, 2), (0, 0, 2, 2), (0, 0), (1, 1)).unwrap();
    tile.split(5);
    let leaves = leaves_of(&tile);
    assert_eq!(leaves.len(), 4);
    for leaf in leaves.iter() {
        assert_eq!(leaf.shape(), (1, 1));
    }
    // 3 x 8: after one round the northern quarters have one row and stay
    let mut tile = Tile::new((3, 8), (0, 0, 8, 3), (0, 0), (1, 1)).unwrap();
    tile.split(2);
    let shapes: Vec<_> = leaves_of(&tile).iter().map(|t| t.shape()).collect();
    assert_eq!(shapes.iter().filter(|s| s.0 == 0 || s.1 == 0).count(), 0);
    assert_eq!(shapes.len(), 2 + 2 * 4);
}

#[test]
fn empty_grid_is_one_leaf() {
    let mut tile = Tile::new((0, 0), (5, 5, 5, 5), (0, 0), (1, 1)).unwrap();
    tile.split(2);
    assert!(tile.is_leaf());
    assert_eq!(leaves_of(&tile).len(), 1);
}

#[test]
fn leaves_cover_each_cell_once() {
    for (rows, cols, depth) in [(4, 4, 1), (5, 7, 2), (13, 9, 3), (16, 16, 4), (3, 8, 2), (1, 5, 2)] {
        let mut tile =
            Tile::new((rows, cols), (0, 0, 2 * cols as i64, 3 * rows as i64), (0, 0), (2, 3)).unwrap();
        tile.split(depth);
        let seen = count_covering(&leaves_of(&tile), rows, cols);
        for row in seen.iter() {
            for n in row.iter() {
                assert_eq!(*n, 1);
            }
        }
    }
}

#[test]
fn leaves_tile_the_world_rectangle() {
    let (rows, cols) = (11usize, 6usize);
    let (w, h) = (3i64, 5i64);
    let (left, bottom) = (-9i64, 4i64);
    let bounds = (left, bottom, left + w * cols as i64, bottom + h * rows as i64);
    let mut tile = Tile::new((rows, cols), bounds, (0, 0), (w, h)).unwrap();
    tile.split(3);
    let leaves = leaves_of(&tile);
    let mut area = 0i64;
    for leaf in leaves.iter() {
        let (l, b, r, t) = leaf.bounds();
        assert!(bounds.0 <= l && l < r && r <= bounds.2);
        assert!(bounds.1 <= b && b < t && t <= bounds.3);
        // the bounds are the cells
        assert_eq!(r - l, w * leaf.shape().1 as i64);
        assert_eq!(t - b, h * leaf.shape().0 as i64);
        assert_eq!(l, left + w * leaf.origin().1 as i64);
        assert_eq!(t, bounds.3 - h * leaf.origin().0 as i64);
        area += (r - l) * (t - b);
    }
    assert_eq!(area, (bounds.2 - bounds.0) * (bounds.3 - bounds.1));
    for (i, a) in leaves.iter().enumerate() {
        for b in leaves.iter().skip(i + 1) {
            assert!(!a.rectangle().overlaps(b.rectangle()));
        }
    }
}

#[test]
fn tile_with_an_origin_keeps_it() {
    let mut tile = Tile::new((4, 4), (0, 0, 4, 4), (10, 20), (1, 1)).unwrap();
    tile.split(1);
    let kids = tile.parts().unwrap();
    assert_eq!(kids[0].origin(), (10, 20));
    assert_eq!(kids[1].origin(), (10, 22));
    assert_eq!(kids[2].origin(), (12, 20));
    assert_eq!(kids[3].origin(), (12, 22));
}

#[test]
fn query_prunes_and_keeps_order() {
    let mut tile = Tile::new((4, 4), (0, 0, 4, 4), (0, 0), (1, 1)).unwrap();
    tile.split(2);
    // the western half: x in [0, 2]
    let shape = mk_rectangle((0, 0, 2, 4));
    let found = tile.intersects_tile(&|rect: Rectangle| rect.overlaps(shape));
    let origins: Vec<_> = found.iter().map(|t| t.origin()).collect();
    assert_eq!(
        origins,
        vec![(0, 0), (0, 1), (1, 0), (1, 1), (2, 0), (2, 1), (3, 0), (3, 1)]
    );
    for leaf in found.iter() {
        assert!(leaf.is_leaf());
    }
}

#[test]
fn query_of_a_geometry_outside_finds_nothing() {
    let mut tile = Tile::new((8, 8), (0, 0, 8, 8), (0, 0), (1, 1)).unwrap();
    tile.split(2);
    let shape = mk_rectangle((20, 20, 30, 30));
    assert!(tile.intersects_tile(&|rect: Rectangle| rect.overlaps(shape)).is_empty());
}

#[test]
fn query_of_an_unsplit_tile_is_the_tile_or_nothing() {
    let tile = Tile::new((8, 8), (0, 0, 8, 8), (0, 0), (1, 1)).unwrap();
    let inside = mk_rectangle((1, 1, 2, 2));
    let outside = mk_rectangle((9, 9, 12, 12));
    let found = tile.intersects_tile(&|rect: Rectangle| rect.overlaps(inside));
    assert_eq!(found.len(), 1);
    assert_eq!(found[0].bounds(), (0, 0, 8, 8));
    assert!(tile.intersects_tile(&|rect: Rectangle| rect.overlaps(outside)).is_empty());
}

#[test]
fn query_matches_brute_force_on_small_grids() {
    let shapes = [
        mk_rectangle((0, 0, 1, 1)),
        mk_rectangle((2, 1, 5, 3)),
        mk_rectangle((-3, -3, 0, 0)),
        mk_rectangle((3, 3, 4, 4)),
        mk_rectangle((0, 0, 6, 5)),
        mk_rectangle((5, 0, 9, 9)),
    ];
    for depth in 0..4usize {
        for shape in shapes.iter() {
            let mut tile = Tile::new((5, 6), (0, 0, 6, 5), (0, 0), (1, 1)).unwrap();
            tile.split(depth);
            let hit = |rect: Rectangle| rect.overlaps(*shape);
            let found: Vec<_> = tile.intersects_tile(&hit).iter().map(|t| t.bounds()).collect();
            let expected: Vec<_> = leaves_of(&tile)
                .iter()
                .filter(|t| hit(t.rectangle()))
                .map(|t| t.bounds())
                .collect();
            assert_eq!(found, expected);
            // a tile that is not split answers for the whole grid
            let whole = Tile::new((5, 6), (0, 0, 6, 5), (0, 0), (1, 1)).unwrap();
            assert_eq!(whole.intersects_tile(&hit).is_empty(), found.is_empty());
        }
    }
}

#[test]
fn export_lists_parents_before_children() {
    let mut tile = Tile::new((4, 4), (0, 0, 4, 4), (0, 0), (1, 1)).unwrap();
    assert_eq!(tile.export(), vec![mk_rectangle((0, 0, 4, 4))]);
    tile.split(1);
    assert_eq!(
        tile.export(),
        vec![
            mk_rectangle((0, 0, 4, 4)),
            mk_rectangle((0, 2, 2, 4)),
            mk_rectangle((2, 2, 4, 4)),
            mk_rectangle((0, 0, 2, 2)),
            mk_rectangle((2, 0, 4, 2)),
        ]
    );
    tile.split(1);
    let all = tile.export();
    assert_eq!(all.len(), 1 + 4 + 16);
    assert_eq!(all[1], mk_rectangle((0, 2, 2, 4)));
    assert_eq!(all[2], mk_rectangle((0, 3, 1, 4)));
}

#[test]
fn default_depth_of_small_and_large_grids() {
    // one round at least, and the count starts at one
    assert_eq!(number_of_splits(0, 0), 2);
    assert_eq!(number_of_splits(8, 8), 2);
    assert_eq!(number_of_splits(36, 36), 3);
    assert_eq!(number_of_splits(35, 1000), 2);
    assert_eq!(number_of_splits(1000, 1000), 5);
    assert_eq!(number_of_splits(1000, 40), 3);
    assert_eq!(number_of_splits(10000, 10000), 7);
}

#[test]
fn build_index_is_new_and_split() {
    let built = build_index((13, 9), (0, 0, 27, 26), (3, 2), 3).unwrap();
    let mut made = Tile::new((13, 9), (0, 0, 27, 26), (0, 0), (3, 2)).unwrap();
    made.split(3);
    assert_eq!(built.export(), made.export());
    assert_eq!(built.origin(), (0, 0));
    assert_eq!(built.shape(), (13, 9));
    assert_eq!(build_index((4, 4), (0, 0, 4, 4), (1, 1), 0).unwrap().export().len(), 1);
}

#[test]
fn build_index_refuses_each_fault() {
    assert_eq!(build_index((4, 4), (0, 0, 4, 4), (1, 0), 2).err(), Some(Fault::BadResolution));
    assert_eq!(build_index((4, 4), (0, 0, 8, 4), (1, 1), 2).err(), Some(Fault::BoundsMismatch));
    assert_eq!(
        build_index((4, 4), (i64::MIN, 0, 4, 4), (1, 1), 2).err(),
        Some(Fault::OutOfRange)
    );
}
