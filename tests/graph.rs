use ome_transforms::graph::{EdgeTransform, GraphError, Route, TransformGraph};
use ome_transforms::stage::TransformShape;

/// Translation vectors as the graph's transformations.
type Tg = TransformGraph<Vec<f64>>;

fn add_translate(tg: &mut Tg, src: &str, tgt: &str, v: &[f64], cost: u64, with_inverse: bool) -> Result<bool, GraphError> {
    let shape = TransformShape::new(v.len(), v.len(), v.iter().all(|t| *t == 0.0));
    let inverse = Some(v.iter().map(|t| -t).collect());
    tg.add_edge(src, tgt, v.to_vec(), shape, inverse, cost, with_inverse)
}

/// ```text
/// a <==> b <==> c
///         \---> d
/// ```
fn make_graph() -> Tg {
    let mut tg = TransformGraph::new();
    add_translate(&mut tg, "a", "b", &[1.0, 2.0], 1, true).unwrap();
    add_translate(&mut tg, "b", "c", &[10.0, 20.0], 1, true).unwrap();
    add_translate(&mut tg, "b", "d", &[100.0, 200.0], 1, false).unwrap();
    tg
}

fn apply(tg: &Tg, route: &Route, input: &[f64]) -> Vec<f64> {
    assert_eq!(route.ndim, input.len());
    let mut pt = input.to_vec();
    for &e in route.edges.iter() {
        match &tg.edge(e).transform {
            EdgeTransform::Given(v) => {
                for (p, t) in pt.iter_mut().zip(v.iter()) {
                    *p += t;
                }
            }
            EdgeTransform::Identity(_) => panic!("identities are left out of routes"),
        }
    }
    pt
}

fn check_transform(tg: &Tg, t: Route, input: &[f64], expected: &[f64]) {
    assert_eq!(apply(tg, &t, input), expected.to_vec());
}

#[test]
fn test_forward() {
    let mut tg = make_graph();
    let t = tg.find_path("a", "c").unwrap();
    check_transform(&tg, t, &[0.0, 0.0], &[11.0, 22.0]);

    let t2 = tg.find_path("a", "d").unwrap();
    check_transform(&tg, t2, &[0.0, 0.0], &[101.0, 202.0]);
}

#[test]
fn test_reverse() {
    let mut tg = make_graph();
    let t = tg.find_path("c", "a").unwrap();
    check_transform(&tg, t, &[0.0, 0.0], &[-11.0, -22.0]);
}

#[test]
fn test_no_reverse() {
    let mut tg = make_graph();
    assert!(tg.find_path("d", "a").is_none())
}

#[test]
fn same_system_is_identity() {
    let mut tg = make_graph();
    let r = tg.find_path("c", "c").unwrap();
    assert_eq!(r.ndim, 2);
    assert!(r.edges.is_empty());
    assert!(tg.find_path("a", "nowhere").is_none());
    assert!(tg.find_path("nowhere", "a").is_none());
}

#[test]
fn inverse_edges_route_both_ways() {
    let mut tg = TransformGraph::new();
    assert_eq!(add_translate(&mut tg, "x", "y", &[3.0], 5, true), Ok(true));
    assert!(tg.find_path("x", "y").is_some());
    assert!(tg.find_path("y", "x").is_some());
    assert_eq!(add_translate(&mut tg, "y", "z", &[1.0], 1, false), Ok(false));
    assert!(tg.find_path("z", "y").is_none());
}

#[test]
fn cheaper_parallel_edge_is_used() {
    let mut tg = TransformGraph::new();
    add_translate(&mut tg, "a", "b", &[1.0], 1, false).unwrap();
    add_translate(&mut tg, "a", "b", &[2.0], 5, false).unwrap();
    let r = tg.find_path("a", "b").unwrap();
    assert_eq!(apply(&tg, &r, &[0.0]), vec![1.0]);

    let mut tg2 = TransformGraph::new();
    add_translate(&mut tg2, "a", "b", &[2.0], 5, false).unwrap();
    add_translate(&mut tg2, "b", "c", &[0.5], 1, false).unwrap();
    add_translate(&mut tg2, "a", "b", &[1.0], 1, false).unwrap();
    let r2 = tg2.find_path("a", "c").unwrap();
    assert_eq!(apply(&tg2, &r2, &[0.0]), vec![1.5]);
}

#[test]
fn cheapest_walk_is_taken() {
    let mut tg = TransformGraph::new();
    add_translate(&mut tg, "a", "b", &[1.0], 1, false).unwrap();
    add_translate(&mut tg, "b", "c", &[10.0], 1, false).unwrap();
    add_translate(&mut tg, "a", "x", &[100.0], 5, false).unwrap();
    add_translate(&mut tg, "x", "c", &[1000.0], 5, false).unwrap();
    add_translate(&mut tg, "c", "d", &[10000.0], 1, false).unwrap();
    let r = tg.find_path("a", "d").unwrap();
    assert_eq!(apply(&tg, &r, &[0.0]), vec![10011.0]);
}

#[test]
fn identity_edge_is_free_and_elided() {
    let mut tg = TransformGraph::new();
    assert_eq!(add_translate(&mut tg, "raw", "named", &[0.0, 0.0], 7, true), Ok(true));
    let r = tg.find_path("raw", "named").unwrap();
    assert!(r.edges.is_empty());
    assert_eq!(r.ndim, 2);
    assert_eq!(tg.edge(0).cost, 0);
    assert!(matches!(tg.edge(0).transform, EdgeTransform::Identity(_)));
    add_translate(&mut tg, "named", "world", &[1.0, 1.0], 1, false).unwrap();
    let r2 = tg.find_path("raw", "world").unwrap();
    assert_eq!(r2.edges.len(), 1);
    assert_eq!(apply(&tg, &r2, &[1.0, 2.0]), vec![2.0, 3.0]);
}

#[test]
fn dimensionality_is_frozen() {
    let mut tg = make_graph();
    let err = add_translate(&mut tg, "a", "e", &[1.0, 2.0, 3.0], 1, false);
    assert_eq!(err, Err(GraphError::DimensionMismatch { existing: 2, found: 3 }));
    assert_eq!(add_translate(&mut tg, "q", "q", &[1.0], 1, true), Ok(true));
    assert_eq!(tg.links().len(), 5);
}

#[test]
fn adding_an_edge_refreshes_routes() {
    let mut tg = make_graph();
    assert!(tg.find_path("d", "a").is_none());
    add_translate(&mut tg, "d", "a", &[5.0, 5.0], 1, false).unwrap();
    let r = tg.find_path("d", "a").unwrap();
    assert_eq!(apply(&tg, &r, &[0.0, 0.0]), vec![5.0, 5.0]);
}

#[test]
fn cost_overflow_is_refused() {
    let mut tg = TransformGraph::new();
    let err = add_translate(&mut tg, "a", "b", &[1.0], u64::MAX, false);
    assert_eq!(err, Err(GraphError::CostOverflow));
    assert_eq!(tg.links().len(), 0);
}
