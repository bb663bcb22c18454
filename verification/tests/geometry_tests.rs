use raster_burn::{get_coordinates, mk_rectangle, Fault, Rectangle, Region, WORLD_LIMIT};

#[test]
fn rectangle_keeps_the_bounds() {
    let rect = mk_rectangle((1, 2, 3, 4));
    assert_eq!(rect, Rectangle { left: 1, bottom: 2, right: 3, top: 4 });
}

#[test]
fn ring_is_closed_and_starts_bottom_left() {
    let rect = mk_rectangle((-5, 2, 7, 11));
    assert_eq!(rect.ring(), vec![(-5, 2), (-5, 11), (7, 11), (7, 2), (-5, 2)]);
}

#[test]
fn overlap_needs_area() {
    let a = mk_rectangle((0, 0, 2, 2));
    assert!(a.overlaps(mk_rectangle((1, 1, 3, 3))));
    assert!(a.overlaps(mk_rectangle((-1, -1, 5, 5))));
    // touching along an edge or at a corner is no overlap
    assert!(!a.overlaps(mk_rectangle((2, 0, 4, 2))));
    assert!(!a.overlaps(mk_rectangle((2, 2, 4, 4))));
    assert!(!a.overlaps(mk_rectangle((0, 2, 2, 4))));
    assert!(!a.overlaps(mk_rectangle((5, 5, 6, 6))));
}

#[test]
fn overlap_is_symmetric_on_samples() {
    let boxes = [
        mk_rectangle((0, 0, 2, 2)),
        mk_rectangle((1, -3, 4, 1)),
        mk_rectangle((-2, -2, 0, 0)),
        mk_rectangle((1, 1, 2, 2)),
    ];
    for a in boxes.iter() {
        for b in boxes.iter() {
            assert_eq!(a.overlaps(*b), b.overlaps(*a));
        }
    }
}

#[test]
fn centre_is_returned_doubled() {
    // cell (0, 0) of a grid at (10, 20) with cells 4 wide and 6 high:
    // centre (12, 17), doubled (24, 34)
    assert_eq!(get_coordinates(0, 0, (4, 6), 10, 20), (24, 34));
    // cell (2, 3): centre x = 10 + 3 * 4 + 2 = 24, y = 20 - 2 * 6 - 3 = 5
    assert_eq!(get_coordinates(2, 3, (4, 6), 10, 20), (48, 10));
}

#[test]
fn centre_of_an_odd_cell_is_exact() {
    // cells 3 wide and 5 high: the centre of cell (0, 0) is (1.5, -2.5)
    assert_eq!(get_coordinates(0, 0, (3, 5), 0, 0), (3, -5));
    assert_eq!(get_coordinates(1, 1, (3, 5), -7, 9), (-14 + 9, 18 - 15));
}

#[test]
fn pixel_rectangle_is_the_cell() {
    let region = Region::new((3, 4), (-8, -9, 0, 0), (0, 0), (2, 3)).unwrap();
    assert_eq!(region.pixel_rectangle(0, 0), mk_rectangle((-8, -3, -6, 0)));
    assert_eq!(region.pixel_rectangle(2, 3), mk_rectangle((-2, -9, 0, -6)));
    assert_eq!(region.pixel_rectangle(1, 2), mk_rectangle((-4, -6, -2, -3)));
}

#[test]
fn pixel_rectangle_counts_from_the_origin() {
    let region = Region::new((2, 2), (10, 10, 14, 14), (5, 7), (2, 2)).unwrap();
    assert_eq!(region.pixel_rectangle(5, 7), mk_rectangle((10, 12, 12, 14)));
    assert_eq!(region.pixel_rectangle(6, 8), mk_rectangle((12, 10, 14, 12)));
}

#[test]
fn pixel_rectangle_of_odd_cells_with_negative_bounds() {
    let region = Region::new((2, 2), (-7, -11, -1, -1), (0, 0), (3, 5)).unwrap();
    assert_eq!(region.pixel_rectangle(0, 0), mk_rectangle((-7, -6, -4, -1)));
    assert_eq!(region.pixel_rectangle(1, 1), mk_rectangle((-4, -11, -1, -6)));
}

#[test]
fn quarters_of_an_odd_block() {
    let region = Region::new((5, 7), (0, 0, 70, 50), (0, 0), (10, 10)).unwrap();
    let q = region.quarter();
    assert_eq!(q.len(), 4);
    // north-west: 2 rows, 3 columns
    assert_eq!((q[0].origin, q[0].shape, q[0].bounds), ((0, 0), (2, 3), (0, 30, 30, 50)));
    // north-east: 2 rows, 4 columns, moved by the 3 columns left of it
    assert_eq!((q[1].origin, q[1].shape, q[1].bounds), ((0, 3), (2, 4), (30, 30, 70, 50)));
    // south-west: 3 rows, 3 columns, moved by the 2 rows above it
    assert_eq!((q[2].origin, q[2].shape, q[2].bounds), ((2, 0), (3, 3), (0, 0, 30, 30)));
    // south-east
    assert_eq!((q[3].origin, q[3].shape, q[3].bounds), ((2, 3), (3, 4), (30, 0, 70, 30)));
    for part in q.iter() {
        assert_eq!(part.resolution, (10, 10));
    }
}

#[test]
fn region_refuses_bad_resolution() {
    assert_eq!(Region::new((4, 4), (0, 0, 4, 4), (0, 0), (0, 1)).err(), Some(Fault::BadResolution));
    assert_eq!(Region::new((4, 4), (0, 0, 4, 4), (0, 0), (1, -1)).err(), Some(Fault::BadResolution));
}

#[test]
fn region_refuses_what_is_out_of_range() {
    assert_eq!(
        Region::new((4, 4), (0, 0, WORLD_LIMIT + 1, 4), (0, 0), (1, 1)).err(),
        Some(Fault::OutOfRange)
    );
    assert_eq!(
        Region::new((4, 4), (0, 0, 4, 4), (usize::MAX, 0), (1, 1)).err(),
        Some(Fault::OutOfRange)
    );
    assert!(Region::new((1, 1), (WORLD_LIMIT - 1, 0, WORLD_LIMIT, 1), (0, 0), (1, 1)).is_ok());
}

#[test]
fn region_refuses_bounds_that_are_not_the_cells() {
    assert_eq!(Region::new((4, 4), (0, 0, 5, 4), (0, 0), (1, 1)).err(), Some(Fault::BoundsMismatch));
    assert_eq!(Region::new((4, 4), (0, 0, 4, 4), (0, 0), (1, 2)).err(), Some(Fault::BoundsMismatch));
    assert!(Region::new((4, 4), (0, 0, 4, 8), (0, 0), (1, 2)).is_ok());
}

#[test]
fn bad_resolution_is_named_first() {
    // several things are wrong; the resolution is reported
    assert_eq!(
        Region::new((4, 4), (0, 0, WORLD_LIMIT + 1, 9), (0, 0), (0, 0)).err(),
        Some(Fault::BadResolution)
    );
    // out of range comes before a mismatch
    assert_eq!(
        Region::new((4, 4), (0, 0, WORLD_LIMIT + 1, 9), (0, 0), (1, 1)).err(),
        Some(Fault::OutOfRange)
    );
}

#[test]
fn every_fault_has_a_message() {
    let faults = [
        Fault::BadResolution,
        Fault::OutOfRange,
        Fault::BoundsMismatch,
        Fault::ShapeMismatch,
        Fault::NoWorkers,
    ];
    for (i, a) in faults.iter().enumerate() {
        assert!(!a.message().is_empty());
        for b in faults.iter().skip(i + 1) {
            assert_ne!(a.message(), b.message());
        }
    }
}

#[test]
fn fault_messages_say_what_is_wrong() {
    assert_eq!(Fault::NoWorkers.message(), "a burn needs at least one worker");
    assert_eq!(Fault::BadResolution.message(), "resolution must be positive in both directions");
    assert_eq!(
        Fault::ShapeMismatch.message(),
        "grid shape differs from the shape the tile declares"
    );
}
