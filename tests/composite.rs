use ome_transforms::bijection::{Bijection, BijectionError};
use ome_transforms::by_dimension::{gather, scatter, ByDimension, ByDimensionError, Part};
use ome_transforms::sequence::{Built, Sequence, SequenceBuilder, SequenceError};
use ome_transforms::stage::{Stage, TransformShape};

#[derive(Debug, Clone, PartialEq)]
enum Op {
    Translate(Vec<f64>),
    Scale(Vec<f64>),
}

impl Op {
    fn apply(&self, pt: &[f64]) -> Vec<f64> {
        match self {
            Op::Translate(v) => pt.iter().zip(v).map(|(p, t)| p + t).collect(),
            Op::Scale(v) => pt.iter().zip(v).map(|(p, s)| p * s).collect(),
        }
    }
}

fn shape(n: usize, is_identity: bool) -> TransformShape {
    TransformShape::new(n, n, is_identity)
}

#[test]
fn sequence_chains_and_builds() {
    let mut b = SequenceBuilder::new();
    b.add_transform("scale", shape(3, false)).unwrap();
    assert_eq!(
        b.add_transform("bad", TransformShape::new(2, 2, false)),
        Err(SequenceError::DimensionMismatch { expected: 3, found: 2 })
    );
    b.add_transform("translate", shape(3, false)).unwrap();
    let s = b.build().unwrap();
    assert_eq!(s.stages().len(), 2);
    assert_eq!((s.input_ndim(), s.output_ndim(), s.max_inner_ndim()), (3, 3, 3));
    assert!(!s.is_identity());
}

#[test]
fn sequence_needs_two_stages() {
    let mut b = Sequence::builder();
    b.add_transform(1u8, shape(2, false)).unwrap();
    assert_eq!(b.build().err(), Some(SequenceError::TooShort));
    assert!(matches!(SequenceBuilder::<u8>::new().build_any(), Err(SequenceError::Empty)));
}

#[test]
fn sequence_applies_stages_in_order() {
    let mut b = SequenceBuilder::new();
    b.add_transform(Op::Scale(vec![1.0, 0.5, 2.0]), shape(3, false)).unwrap();
    b.add_transform(Op::Translate(vec![10.0, -6.0, 0.5]), shape(3, false)).unwrap();
    let s = b.build().unwrap();
    let mut pt = vec![2.0, 4.0, 3.0];
    for st in s.stages() {
        pt = st.transform.apply(&pt);
    }
    assert_eq!(pt, vec![12.0, -4.0, 6.5]);
}

#[test]
fn best_effort_build_elides_identities() {
    let mut all_id = SequenceBuilder::with_capacity(2);
    all_id.add_transform('i', shape(4, true)).unwrap();
    all_id.add_transform('j', shape(4, true)).unwrap();
    match all_id.build_any().unwrap() {
        Built::Identity(id) => assert_eq!(id.input_ndim(), 4),
        _ => panic!("expected an identity"),
    }
    let mut one = SequenceBuilder::new();
    one.add_transform('i', shape(2, true)).unwrap();
    one.add_transform('t', shape(2, false)).unwrap();
    one.add_transform('j', shape(2, true)).unwrap();
    match one.build_any().unwrap() {
        Built::Single(st) => assert_eq!(st.transform, 't'),
        _ => panic!("expected the single stage"),
    }
    let mut two = SequenceBuilder::new();
    two.add_transform('a', shape(2, false)).unwrap();
    two.add_transform('i', shape(2, true)).unwrap();
    two.add_transform('b', shape(2, false)).unwrap();
    match two.build_any().unwrap() {
        Built::Sequence(s) => {
            let names: Vec<char> = s.stages().iter().map(|st| st.transform).collect();
            assert_eq!(names, vec!['a', 'b']);
        }
        _ => panic!("expected a sequence"),
    }
}

#[test]
fn sequence_inversion_reverses() {
    let mut b = SequenceBuilder::new();
    b.add_transform("f", TransformShape::new(2, 3, false)).unwrap();
    b.add_transform("g", TransformShape::new(3, 1, false)).unwrap();
    let s = b.build().unwrap();
    let inv = s
        .invert_with(vec![
            Some(Stage { transform: "f-1", shape: TransformShape::new(3, 2, false) }),
            Some(Stage { transform: "g-1", shape: TransformShape::new(1, 3, false) }),
        ])
        .unwrap();
    let names: Vec<&str> = inv.stages().iter().map(|st| st.transform).collect();
    assert_eq!(names, vec!["g-1", "f-1"]);
    assert_eq!((inv.input_ndim(), inv.output_ndim(), inv.max_inner_ndim()), (1, 2, 3));
    let none = s.invert_with(vec![Some(Stage { transform: "f-1", shape: TransformShape::new(3, 2, false) }), None]);
    assert!(none.is_none());
}

fn make_by_dimension() -> ByDimension<Op> {
    let mut builder = ByDimension::builder(3, 3);
    builder.add_transform(Op::Translate(vec![-1.0, 2.0]), &[0, 2], &[1, 0]).unwrap();
    builder.add_transform(Op::Scale(vec![100.0]), &[1], &[2]).unwrap();
    builder.build().unwrap()
}

fn apply_by_dimension(b: &ByDimension<Op>, pt: &[f64]) -> Vec<f64> {
    let mut out = vec![f64::NAN; b.output_ndim()];
    for sub in b.sub_transforms() {
        let input = gather(pt, &sub.in_dims);
        let vals = match &sub.transform {
            Part::Given(op) => op.apply(&input),
            Part::Filler(_) => input,
        };
        scatter(&vals, &sub.out_dims, &mut out);
    }
    out
}

#[test]
fn by_dimension_scatters_groups() {
    let b = make_by_dimension();
    assert_eq!(apply_by_dimension(&b, &[1.0, 2.0, 3.0]), vec![5.0, 0.0, 200.0]);
    assert_eq!(apply_by_dimension(&b, &[4.0, 5.0, 6.0]), vec![8.0, 3.0, 500.0]);
}

#[test]
fn by_dimension_inverts_by_swapping() {
    let b = make_by_dimension();
    let inv = b
        .invert_with(vec![Some(Op::Translate(vec![1.0, -2.0])), Some(Op::Scale(vec![0.01]))])
        .unwrap();
    let subs = inv.sub_transforms();
    assert_eq!(subs[0].in_dims, vec![1, 0]);
    assert_eq!(subs[0].out_dims, vec![0, 2]);
    assert_eq!(subs[1].in_dims, vec![2]);
    assert_eq!(subs[1].out_dims, vec![1]);
    let back = apply_by_dimension(&inv, &apply_by_dimension(&b, &[1.0, 2.0, 3.0]));
    for (x, y) in back.iter().zip([1.0, 2.0, 3.0].iter()) {
        assert!((x - y).abs() < 1e-10);
    }
    assert!(b.invert_with(vec![None, Some(Op::Scale(vec![0.01]))]).is_none());
}

#[test]
fn by_dimension_fills_leftovers_with_identity() {
    let mut builder = ByDimension::builder(4, 3);
    builder.add_transform(Op::Scale(vec![2.0, 3.0]), &[0, 3], &[2, 0]).unwrap();
    assert_eq!(builder.build().err(), Some(ByDimensionError::Unbalanced { inputs_left: 2, outputs_left: 1 }));

    let mut builder = ByDimension::builder(3, 3);
    builder.add_transform(Op::Scale(vec![2.0]), &[1], &[2]).unwrap();
    let b = builder.build().unwrap();
    let subs = b.sub_transforms();
    assert_eq!(subs.len(), 2);
    assert_eq!(subs[1].in_dims, vec![0, 2]);
    assert_eq!(subs[1].out_dims, vec![0, 1]);
    assert!(matches!(subs[1].transform, Part::Filler(id) if id.input_ndim() == 2));
    assert_eq!(apply_by_dimension(&b, &[1.0, 2.0, 3.0]), vec![1.0, 3.0, 4.0]);
}

#[test]
fn by_dimension_rejects_reuse() {
    let mut builder = ByDimension::builder(3, 3);
    builder.add_transform(Op::Scale(vec![2.0]), &[1], &[2]).unwrap();
    assert_eq!(builder.add_transform(Op::Scale(vec![2.0]), &[0], &[2]), Err(ByDimensionError::OutputUsed(2)));
    assert_eq!(builder.add_transform(Op::Scale(vec![2.0]), &[1], &[0]), Err(ByDimensionError::InputUsed(1)));
    assert_eq!(builder.add_transform(Op::Scale(vec![2.0]), &[0], &[7]), Err(ByDimensionError::OutputUsed(7)));
    assert_eq!(
        builder.add_transform(Op::Scale(vec![2.0, 2.0]), &[0, 2], &[1, 1]),
        Err(ByDimensionError::OutputUsed(1))
    );
    builder.add_transform(Op::Scale(vec![2.0, 2.0]), &[0, 2], &[1, 0]).unwrap();
    assert_eq!(builder.build().unwrap().sub_transforms().len(), 2);
}

fn column_apply(b: &ByDimension<Op>, cols: &[Vec<f64>]) -> Vec<Vec<f64>> {
    let n_pts = cols[0].len();
    let mut out: Vec<Vec<f64>> = (0..b.output_ndim()).map(|i| vec![i as f64; n_pts]).collect();
    let swaps = b.column_swaps();
    for (x, y) in swaps.iter() {
        out.swap(*x, *y);
    }
    let mut start = 0;
    for sub in b.sub_transforms() {
        for p in 0..n_pts {
            let pt: Vec<f64> = sub.in_dims.iter().map(|&d| cols[d][p]).collect();
            let vals = match &sub.transform {
                Part::Given(op) => op.apply(&pt),
                Part::Filler(_) => pt,
            };
            for (k, v) in vals.into_iter().enumerate() {
                out[start + k][p] = v;
            }
        }
        start += sub.out_dims.len();
    }
    for (x, y) in swaps.iter().rev() {
        out.swap(*x, *y);
    }
    out
}

#[test]
fn test_columns_manual() {
    let cols = vec![vec![1.0, 4.0], vec![2.0, 5.0], vec![3.0, 6.0]];
    let out = column_apply(&make_by_dimension(), &cols);
    let expected = vec![vec![5.0, 8.0], vec![0.0, 3.0], vec![200.0, 500.0]];
    assert_eq!(out, expected);
}

#[test]
fn column_swaps_line_up_groups() {
    let b = make_by_dimension();
    let mut order: Vec<usize> = (0..3).collect();
    for (x, y) in b.column_swaps() {
        order.swap(x, y);
    }
    assert_eq!(order, vec![1, 0, 2]);

    let mut builder = ByDimension::builder(4, 4);
    builder.add_transform(Op::Scale(vec![1.0]), &[0], &[3]).unwrap();
    builder.add_transform(Op::Scale(vec![1.0, 1.0]), &[1, 2], &[2, 0]).unwrap();
    let b2 = builder.build().unwrap();
    let mut order2: Vec<usize> = (0..4).collect();
    for (x, y) in b2.column_swaps() {
        order2.swap(x, y);
    }
    assert_eq!(order2, vec![3, 2, 0, 1]);
}

#[test]
fn bijection_checks_and_swaps() {
    let fwd = Stage { transform: "f", shape: TransformShape::new(2, 3, false) };
    let rev = Stage { transform: "g", shape: TransformShape::new(3, 2, false) };
    let b = Bijection::try_new(fwd.clone(), rev.clone()).unwrap();
    assert_eq!((b.input_ndim(), b.output_ndim()), (2, 3));
    assert!(!b.is_identity());
    let inv = b.invert();
    assert_eq!(inv.forward().transform, "g");
    assert_eq!(inv.reverse().transform, "f");
    assert_eq!((inv.input_ndim(), inv.output_ndim()), (3, 2));
    let bad = Stage { transform: "h", shape: TransformShape::new(3, 3, false) };
    assert_eq!(Bijection::try_new(fwd, bad).err(), Some(BijectionError));
    let id = Stage { transform: "i", shape: TransformShape::new(2, 2, true) };
    assert!(Bijection::try_new(id.clone(), id).unwrap().is_identity());
}
