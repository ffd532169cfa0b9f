use ome_transforms::grid::{column_base_coords, row_base_coords};
use ome_transforms::ravel::Ravelled;

fn as_f64(chunks: Vec<Vec<usize>>) -> Vec<Vec<f64>> {
    chunks.into_iter().map(|c| c.into_iter().map(|v| v as f64).collect()).collect()
}

#[test]
fn test_row_base_coords() {
    let extents = vec![3, 2];
    let ravel = row_base_coords(&extents);
    let expected = vec![
        [0.0, 0.0],
        [0.0, 1.0],
        [1.0, 0.0],
        [1.0, 1.0],
        [2.0, 0.0],
        [2.0, 1.0],
    ];
    let chunks = as_f64(ravel.chunks());
    assert_eq!(chunks.len(), expected.len());
    for (actual, expected) in chunks.iter().zip(expected.iter()) {
        assert_eq!(actual, expected);
    }
}

#[test]
fn test_column_base_coords() {
    let extents = vec![3, 2];
    let ravel = column_base_coords(&extents);
    let expected = vec![
        [0.0, 0.0, 1.0, 1.0, 2.0, 2.0],
        [0.0, 1.0, 0.0, 1.0, 0.0, 1.0],
    ];
    let chunks = as_f64(ravel.chunks());
    assert_eq!(chunks.len(), expected.len());
    for (actual, expected) in chunks.iter().zip(expected.iter()) {
        assert_eq!(actual, expected);
    }
}

#[test]
fn base_coords_three_dims() {
    let rows = row_base_coords(&[2, 1, 3]).chunks();
    assert_eq!(rows.len(), 6);
    assert_eq!(rows[0], vec![0, 0, 0]);
    assert_eq!(rows[2], vec![0, 0, 2]);
    assert_eq!(rows[3], vec![1, 0, 0]);
    assert_eq!(rows[5], vec![1, 0, 2]);
    let cols = column_base_coords(&[2, 1, 3]).chunks();
    assert_eq!(cols, vec![vec![0, 0, 0, 1, 1, 1], vec![0; 6], vec![0, 1, 2, 0, 1, 2]]);
}

#[test]
fn base_coords_empty_extent() {
    let rows = row_base_coords(&[3, 0]);
    assert_eq!(rows.data().len(), 0);
    let cols = column_base_coords(&[3, 0]);
    assert_eq!(cols.data().len(), 0);
}

#[test]
fn ravelled_checks_chunking() {
    assert!(Ravelled::new_data(3, vec![1, 2, 3, 4]).is_err());
    assert!(Ravelled::<u8>::new_data(0, vec![]).is_ok());
    assert!(Ravelled::new_data(0, vec![1]).is_err());
    let r = Ravelled::new_data(2, vec![1, 2, 3, 4]).unwrap();
    assert_eq!(r.chunks(), vec![vec![1, 2], vec![3, 4]]);
    let mut f = Ravelled::new_full(2, 3, 7u8);
    f.set(2, 1, 9);
    assert_eq!(f.chunks(), vec![vec![7, 7], vec![7, 7], vec![7, 9]]);
}
