use ome_transforms::identity::Identity;
use ome_transforms::map_axis::{MapAxis, MapAxisError};

const SMALL_NUMBER: f64 = 1e-10;

/// Deterministic pseudo-random points in `[0, 100)`.
fn make_coords(n_pts: usize, ndim: usize) -> Vec<Vec<f64>> {
    let mut state: u64 = 1991;
    let mut out = Vec::with_capacity(n_pts);
    for _ in 0..n_pts {
        let mut pt = Vec::with_capacity(ndim);
        for _ in 0..ndim {
            state = state.wrapping_mul(6364136223846793005).wrapping_add(1442695040888963407);
            pt.push(((state >> 11) as f64 / (1u64 << 53) as f64) * 100.0);
        }
        out.push(pt);
    }
    out
}

fn transpose(coords: &[Vec<f64>]) -> Vec<Vec<f64>> {
    let ndim = coords[0].len();
    let mut columns = vec![vec![f64::NAN; coords.len()]; ndim];
    for (i, pt) in coords.iter().enumerate() {
        for (j, &v) in pt.iter().enumerate() {
            columns[j][i] = v;
        }
    }
    columns
}

fn assert_close(a: &[f64], b: &[f64]) {
    assert_eq!(a.len(), b.len());
    for (x, y) in a.iter().zip(b.iter()) {
        assert!((x - y).abs() <= SMALL_NUMBER, "{a:?} != {b:?}");
    }
}

/// The operations the shared checks need.
trait Moves: Sized {
    fn ndim_out(&self) -> usize;
    fn point(&self, pt: &[f64]) -> Vec<f64>;
    fn bulk(&self, pts: &Vec<Vec<f64>>) -> Vec<Vec<f64>>;
    fn columns(&self, cols: &Vec<Vec<f64>>) -> Vec<Vec<f64>>;
    fn inverse(&self) -> Option<Self>;
}

impl Moves for Identity {
    fn ndim_out(&self) -> usize {
        self.output_ndim()
    }
    fn point(&self, pt: &[f64]) -> Vec<f64> {
        let mut out = vec![f64::NAN; self.output_ndim()];
        self.transform_into(pt, &mut out);
        out
    }
    fn bulk(&self, pts: &Vec<Vec<f64>>) -> Vec<Vec<f64>> {
        let mut out = vec![vec![f64::NAN; self.output_ndim()]; pts.len()];
        self.bulk_transform_into(pts, &mut out);
        out
    }
    fn columns(&self, cols: &Vec<Vec<f64>>) -> Vec<Vec<f64>> {
        let mut out = vec![vec![f64::NAN; cols[0].len()]; self.output_ndim()];
        self.column_transform_into(cols, &mut out);
        out
    }
    fn inverse(&self) -> Option<Self> {
        self.invert()
    }
}

impl Moves for MapAxis {
    fn ndim_out(&self) -> usize {
        self.output_ndim()
    }
    fn point(&self, pt: &[f64]) -> Vec<f64> {
        let mut out = vec![f64::NAN; self.output_ndim()];
        self.transform_into(pt, &mut out);
        out
    }
    fn bulk(&self, pts: &Vec<Vec<f64>>) -> Vec<Vec<f64>> {
        let mut out = vec![vec![f64::NAN; self.output_ndim()]; pts.len()];
        self.bulk_transform_into(pts, &mut out);
        out
    }
    fn columns(&self, cols: &Vec<Vec<f64>>) -> Vec<Vec<f64>> {
        let mut out = vec![vec![f64::NAN; cols[0].len()]; self.output_ndim()];
        self.column_transform_into(cols, &mut out);
        out
    }
    fn inverse(&self) -> Option<Self> {
        self.invert()
    }
}

fn check_transform_bulk<T: Moves>(t: T) {
    let coords = make_coords(1000, 3);
    let many = t.bulk(&coords);
    for (orig, m) in coords.iter().zip(many.iter()) {
        assert_close(&t.point(orig), m);
    }
}

fn check_transform_col<T: Moves>(t: T) {
    let coords = make_coords(1000, 3);
    let columns = transpose(&coords);
    let out = t.columns(&columns);
    for (idx, pt) in coords.iter().enumerate() {
        let by_col: Vec<f64> = (0..t.ndim_out()).map(|d| out[d][idx]).collect();
        assert_close(&t.point(pt), &by_col);
    }
}

fn check_inverse_transform_coord<T: Moves>(t: T) {
    let Some(inv) = t.inverse() else {
        return;
    };
    for pt in make_coords(1000, 3).iter() {
        let there = t.point(pt);
        assert_close(pt, &inv.point(&there));
    }
}

fn check_inverse_transform_bulk<T: Moves>(t: T) {
    let Some(inv) = t.inverse() else {
        return;
    };
    let coords = make_coords(1000, 3);
    let back = inv.bulk(&t.bulk(&coords));
    for (orig, b) in coords.iter().zip(back.iter()) {
        assert_close(orig, b);
    }
}

fn check_inverse_transform_col<T: Moves>(t: T) {
    let Some(inv) = t.inverse() else {
        return;
    };
    let columns = transpose(&make_coords(1000, 3));
    let back = inv.columns(&t.columns(&columns));
    for (orig, b) in columns.iter().zip(back.iter()) {
        assert_close(orig, b);
    }
}

fn make_identity() -> Identity {
    Identity::new(3)
}

fn make_map_axis() -> MapAxis {
    MapAxis::try_new(&[2, 0, 1]).unwrap()
}

#[test]
fn identity_test_bulk() {
    check_transform_bulk(make_identity());
}

#[test]
fn identity_test_columns() {
    check_transform_col(make_identity());
}

#[test]
fn identity_test_inverse() {
    check_inverse_transform_coord(make_identity());
}

#[test]
fn identity_test_inverse_bulk() {
    check_inverse_transform_bulk(make_identity());
}

#[test]
fn identity_test_inverse_columns() {
    check_inverse_transform_col(make_identity());
}

#[test]
fn map_axis_test_bulk() {
    check_transform_bulk(make_map_axis());
}

#[test]
fn map_axis_test_columns() {
    check_transform_col(make_map_axis());
}

#[test]
fn map_axis_test_inverse() {
    check_inverse_transform_coord(make_map_axis());
}

#[test]
fn map_axis_test_inverse_bulk() {
    check_inverse_transform_bulk(make_map_axis());
}

#[test]
fn map_axis_test_inverse_columns() {
    check_inverse_transform_col(make_map_axis());
}

#[test]
fn identity_leaves_points_exactly() {
    let t = Identity::new(4);
    let pt = [0.1, -3.5e300, f64::MIN_POSITIVE, 7.0];
    let mut out = vec![0.0; 4];
    t.transform_into(&pt, &mut out);
    assert_eq!(out, pt.to_vec());
    assert!(t.is_identity());
    assert_eq!(t.invert(), Some(t));
    assert_eq!((t.input_ndim(), t.output_ndim()), (4, 4));
}

#[test]
fn map_axis_permutes_and_inverts() {
    let m = MapAxis::try_new(&[2, 0, 1]).unwrap();
    let mut out = vec![0.0; 3];
    m.transform_into(&[10.0, 20.0, 30.0], &mut out);
    assert_eq!(out, vec![30.0, 10.0, 20.0]);
    let inv = m.invert().unwrap();
    assert_eq!(inv.map(), &[1, 2, 0]);
    let mut back = vec![0.0; 3];
    inv.transform_into(&out, &mut back);
    assert_eq!(back, vec![10.0, 20.0, 30.0]);
    assert!(!m.is_identity());
    assert!(MapAxis::try_new(&[0, 1, 2]).unwrap().is_identity());
}

#[test]
fn map_axis_rejects_non_permutations() {
    assert_eq!(MapAxis::try_new(&[0, 0, 1]).err(), Some(MapAxisError::RepeatedAxis));
    assert_eq!(MapAxis::try_new(&[5, 5]).err(), Some(MapAxisError::RepeatedAxis));
    assert_eq!(MapAxis::try_new(&[0, 3, 1]).err(), Some(MapAxisError::MissingAxis));
    assert_eq!(MapAxis::try_new(&[1]).err(), Some(MapAxisError::MissingAxis));
    assert!(MapAxis::try_new(&[]).is_ok());
}

#[test]
fn map_axis_columns_copy_source_column() {
    let m = MapAxis::try_new(&[1, 0]).unwrap();
    let cols = vec![vec![1, 2, 3], vec![4, 5, 6]];
    let mut out = vec![vec![0; 3]; 2];
    m.column_transform_into(&cols, &mut out);
    assert_eq!(out, vec![vec![4, 5, 6], vec![1, 2, 3]]);
}
