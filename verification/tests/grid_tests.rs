use raster_burn::{flatten, unflatten};

#[test]
fn flatten_joins_the_rows() {
    let raster = vec![vec![1.5, 2.5, 3.5], vec![4.5, 5.5, 6.5]];
    assert_eq!(flatten(&raster), vec![1.5, 2.5, 3.5, 4.5, 5.5, 6.5]);
    assert_eq!(flatten(&Vec::<Vec<f64>>::new()), Vec::<f64>::new());
    // rows of different lengths are joined as they are
    assert_eq!(flatten(&vec![vec![1], vec![], vec![2, 3]]), vec![1, 2, 3]);
}

#[test]
fn unflatten_cuts_the_run_into_rows() {
    let flat = vec![0, 1, 2, 3, 4, 5];
    assert_eq!(unflatten(&flat, 2, 3), Some(vec![vec![0, 1, 2], vec![3, 4, 5]]));
    assert_eq!(unflatten(&flat, 3, 2), Some(vec![vec![0, 1], vec![2, 3], vec![4, 5]]));
    assert_eq!(unflatten(&flat, 6, 1).unwrap()[4], vec![4]);
    assert_eq!(unflatten(&flat, 1, 6), Some(vec![flat.clone()]));
}

#[test]
fn unflatten_refuses_a_run_of_another_length() {
    let flat = vec![0, 1, 2, 3, 4, 5];
    assert_eq!(unflatten(&flat, 2, 2), None);
    assert_eq!(unflatten(&flat, 4, 2), None);
    assert_eq!(unflatten(&flat, 0, 0), None);
    assert_eq!(unflatten(&flat, usize::MAX, 2), None);
}

#[test]
fn unflatten_of_nothing() {
    let flat: Vec<u8> = vec![];
    assert_eq!(unflatten(&flat, 0, 5), Some(vec![]));
    assert_eq!(unflatten(&flat, 3, 0), Some(vec![vec![], vec![], vec![]]));
}

#[test]
fn flatten_undoes_unflatten() {
    let flat: Vec<u32> = (0..35).collect();
    for (rows, cols) in [(5usize, 7usize), (7, 5), (1, 35), (35, 1)] {
        let raster = unflatten(&flat, rows, cols).unwrap();
        for r in 0..rows {
            for c in 0..cols {
                assert_eq!(raster[r][c], flat[r * cols + c]);
            }
        }
        assert_eq!(flatten(&raster), flat);
    }
}
