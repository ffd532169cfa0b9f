use ome_transforms::matrix::{rectify_idx, Matrix, MatrixError};
use ome_transforms::ndarr::checked_numel;

#[test]
fn row_major_construction() {
    let m = Matrix::try_new(vec![1, 2, 3, 4, 5, 6], 3).unwrap();
    assert_eq!((m.nrows(), m.ncols()), (2, 3));
    assert_eq!(m.get(1, 0), Some(&4));
    assert_eq!(m.get(0, 3), None);
    assert_eq!(m.get(2, 0), None);
    assert_eq!(Matrix::try_new(vec![1, 2, 3, 4], 3).err(), Some(MatrixError::Ragged { len: 4, minor: 3 }));
    assert!(Matrix::<u8>::try_new(vec![], 0).is_err());
}

#[test]
fn column_major_construction() {
    // columns [1, 4], [2, 5], [3, 6]
    let m = Matrix::try_new_colmaj(vec![1, 4, 2, 5, 3, 6], 2).unwrap();
    assert_eq!((m.nrows(), m.ncols()), (2, 3));
    assert_eq!(m.data(), &vec![1, 2, 3, 4, 5, 6]);
    assert!(Matrix::try_new_colmaj(vec![1, 2, 3], 2).is_err());
}

#[test]
fn transpose_swaps_indices() {
    let m = Matrix::try_new(vec![1, 2, 3, 4, 5, 6], 3).unwrap();
    let t = m.transpose();
    assert_eq!((t.nrows(), t.ncols()), (3, 2));
    assert_eq!(t.data(), &vec![1, 4, 2, 5, 3, 6]);
    assert_eq!(t.rows(), vec![vec![1, 4], vec![2, 5], vec![3, 6]]);
}

#[test]
fn builder_rows_and_columns() {
    let mut rows = Matrix::builder(true);
    rows.add_vec(&[1, 2, 3]).unwrap();
    rows.add_vec(&[4, 5, 6]).unwrap();
    assert_eq!(rows.add_vec(&[7]), Err(MatrixError::InconsistentLength { found: 1, expected: 3 }));
    let m = rows.build();
    assert_eq!((m.nrows(), m.ncols()), (2, 3));
    assert_eq!(m.data(), &vec![1, 2, 3, 4, 5, 6]);

    let mut cols = Matrix::builder(false);
    cols.add_vec(&[1, 2, 3]).unwrap();
    cols.add_vec(&[4, 5, 6]).unwrap();
    let c = cols.build();
    assert_eq!((c.nrows(), c.ncols()), (3, 2));
    assert_eq!(c.data(), &vec![1, 4, 2, 5, 3, 6]);

    let empty = Matrix::<i32>::builder(true).build();
    assert_eq!((empty.nrows(), empty.ncols()), (0, 0));
}

#[test]
fn affine_split() {
    let m = Matrix::try_new(vec![1, 0, 0, 20, 0, 1, 0, -3, 0, 0, 1, 25], 4).unwrap();
    let (lin, t) = m.split_affine(false).unwrap();
    assert_eq!((lin.nrows(), lin.ncols()), (3, 3));
    assert_eq!(lin.data(), &vec![1, 0, 0, 0, 1, 0, 0, 0, 1]);
    assert_eq!(t, vec![20, -3, 25]);
    let aug = Matrix::try_new(vec![2, 0, 5, 0, 3, 6, 0, 0, 1], 3).unwrap();
    let (lin2, t2) = aug.split_affine(true).unwrap();
    assert_eq!((lin2.nrows(), lin2.ncols()), (2, 2));
    assert_eq!(lin2.data(), &vec![2, 0, 0, 3]);
    assert_eq!(t2, vec![5, 6]);
    let none = Matrix::<i32>::builder(true).build();
    assert_eq!(none.split_affine(false).err(), Some(MatrixError::TooSmall));
}

#[test]
fn rectify_skips_removed_indices() {
    assert_eq!(rectify_idx(0, &[]), 0);
    assert_eq!(rectify_idx(0, &[0]), 1);
    assert_eq!(rectify_idx(1, &[0, 2]), 3);
    assert_eq!(rectify_idx(1, &[3]), 1);
    assert_eq!(rectify_idx(2, &[1, 2]), 4);
}

#[test]
fn element_counts() {
    assert_eq!(checked_numel(&[3, 4, 5]), Some(60));
    assert_eq!(checked_numel(&[]), Some(1));
    assert_eq!(checked_numel(&[usize::MAX, 2]), None);
    assert_eq!(checked_numel(&[usize::MAX, 2, 0]), Some(0));
}
