//! Layout, geometry and mapping-boundary behavior.
use hyperdag::dag::DAG;
use hyperdag::disk_square::{
    check_mapping_request, parse_strategy, EllipticalGrid, FGSquircular, MapError, MapStrategy,
    SimpleStretching,
};
use hyperdag::layout::{AngleRange, LayoutError, PolarCoord};
use hyperdag::poincare_ball::{BallError, PoincarePoint};

/// Degrees carried by a wedge or polar angle, as a float.
fn start_deg(w: &AngleRange) -> f64 {
    w.start_num as f64 / w.den as f64
}

fn size_deg(w: &AngleRange) -> f64 {
    360.0 / w.den as f64
}

/// Cartesian coordinate a polar entry stands for.
fn cartesian(p: &PolarCoord) -> (f64, f64) {
    let r = p.radius_num as f64 / p.radius_den as f64;
    let a = (p.angle_num as f64 / p.angle_den as f64).to_radians();
    (r * a.cos(), r * a.sin())
}

#[test]
fn lib_test_simple_tree() {
    let graph = vec![(0, 1), (0, 2), (0, 3), (1, 4), (1, 5), (5, 6), (5, 7)];
    let dag = DAG::from_pairs(&graph);
    let layout = dag.hyperbolic_project(0).unwrap();
    for p in &layout.polar {
        let (x, y) = cartesian(p);
        println!("{:.2?}", (x, y));
    }
}

#[test]
fn simple_tree_scenario() {
    // edges (0,1),(0,2),(0,3),(1,4),(1,5),(5,6),(5,7), focus = 0
    let graph = vec![(0, 1), (0, 2), (0, 3), (1, 4), (1, 5), (5, 6), (5, 7)];
    let dag = DAG::from_pairs(&graph);
    let layout = dag.hyperbolic_project(0).unwrap();
    // the focus owns the full circle and sits at the origin
    assert_eq!(layout.angles[0], AngleRange { start_num: 0, den: 1 });
    let (x0, y0) = cartesian(&layout.polar[0]);
    assert_eq!((x0, y0), (0.0, 0.0));
    // nodes 1,2,3 receive equal-width wedges partitioning 360° minus the
    // reserved segment: the focus has 3 forward neighbors, so 4 segments
    // of 90° each
    assert_eq!(layout.angles[1], AngleRange { start_num: 0, den: 4 });
    assert_eq!(layout.angles[2], AngleRange { start_num: 360, den: 4 });
    assert_eq!(layout.angles[3], AngleRange { start_num: 720, den: 4 });
    assert_eq!(size_deg(&layout.angles[1]), 90.0);
    assert_eq!(start_deg(&layout.angles[2]), 90.0);
    assert_eq!(start_deg(&layout.angles[3]), 180.0);
    // the deepest nodes 6 and 7 receive the narrowest wedges, nested
    // under node 5's wedge
    assert_eq!(layout.max_depth, 3);
    let w5 = &layout.angles[5];
    let w6 = &layout.angles[6];
    let w7 = &layout.angles[7];
    assert_eq!(w5.den, 12);
    assert_eq!(w6.den, 36);
    assert_eq!(w7.den, 36);
    for j in 0..8 {
        assert!(layout.angles[j].den <= 36);
    }
    assert_eq!(start_deg(w5), 30.0);
    assert_eq!(size_deg(w5), 30.0);
    assert_eq!(start_deg(w6), 30.0);
    assert_eq!(start_deg(w7), 40.0);
    assert_eq!(size_deg(w6), 10.0);
    // nesting: both lie inside [30°, 60°)
    assert!(start_deg(w6) >= start_deg(w5));
    assert!(start_deg(w7) + size_deg(w7) <= start_deg(w5) + size_deg(w5));
}

#[test]
fn every_coordinate_stays_inside_the_unit_disk() {
    let graph = vec![(0, 1), (0, 2), (0, 3), (1, 4), (1, 5), (5, 6), (5, 7)];
    let dag = DAG::from_pairs(&graph);
    let layout = dag.hyperbolic_project(0).unwrap();
    for p in &layout.polar {
        let (x, y) = cartesian(p);
        assert!(x * x + y * y <= 1.0);
    }
    // the deepest node sits at radius 0.98, still inside
    let p6 = &layout.polar[6];
    assert_eq!(p6.radius_num, 49 * 3);
    assert_eq!(p6.radius_den, 50 * 3);
}

#[test]
fn too_deep_chain_is_rejected_exactly() {
    // a chain long enough that exact 128-bit wedge denominators overflow
    let mut dag: DAG<u64> = DAG::new();
    for v in 0..140u64 {
        dag.insert(v);
    }
    for v in 0..139usize {
        dag.insert_edge(v, v + 1);
    }
    assert_eq!(dag.hyperbolic_project(0).unwrap_err(), LayoutError::WedgeTooDeep);
    // a shorter chain still lays out fine
    let mut small: DAG<u64> = DAG::new();
    for v in 0..40u64 {
        small.insert(v);
    }
    for v in 0..39usize {
        small.insert_edge(v, v + 1);
    }
    assert!(small.hyperbolic_project(0).is_ok());
}

#[test]
fn test_mobius() {
    let f = PoincarePoint::from_raw(1, 1, 2).unwrap();
    let zero = PoincarePoint::zero();
    let sum = f.mobius_add(&zero);
    assert!(sum.value_eq_point(&f));
}

#[test]
fn mobius_add_moves_off_identity() {
    // adding a non-zero shift must change the point
    let p = PoincarePoint::from_raw(1, 0, 4).unwrap();
    let q = PoincarePoint::from_raw(1, 0, 2).unwrap();
    let sum = p.mobius_add(&q);
    assert!(!sum.value_eq_point(&p));
    // and subtracting the shift from the sum of zero and q recovers q
    let z = PoincarePoint::zero();
    assert!(z.mobius_add(&q).value_eq_point(&q));
}

#[test]
fn from_raw_rejects_bad_input() {
    assert_eq!(PoincarePoint::from_raw(0, 0, 0).unwrap_err(), BallError::BadDenominator);
    assert_eq!(PoincarePoint::from_raw(0, 0, -3).unwrap_err(), BallError::BadDenominator);
    assert_eq!(PoincarePoint::from_raw(0, 0, 1 << 21).unwrap_err(), BallError::BadDenominator);
    assert_eq!(PoincarePoint::from_raw(3, 4, 4).unwrap_err(), BallError::OutsideBall);
    // the boundary itself is accepted (closed ball)
    let boundary = PoincarePoint::from_raw(3, 4, 5).unwrap();
    assert!(boundary.is_valid());
    assert_eq!(boundary.as_ratio(), (3, 4, 5));
    assert_eq!(boundary.neg().as_ratio(), (-3, -4, 5));
}

#[test]
fn dist_is_zero_on_the_diagonal_and_symmetric() {
    let p = PoincarePoint::from_raw(1, 1, 3).unwrap();
    let q = PoincarePoint::from_raw(-1, 2, 5).unwrap();
    let (n0, d0) = p.dist_arg(&p);
    assert_eq!(n0, 0);
    assert!(d0 >= 1);
    let dist = |a: &PoincarePoint, b: &PoincarePoint| -> f64 {
        let (n, d) = a.dist_arg(b);
        (1.0 + 2.0 * (n as f64) / (d as f64)).acosh()
    };
    assert_eq!(dist(&p, &p), 0.0);
    assert_eq!(dist(&p, &q), dist(&q, &p));
    assert!(dist(&p, &q) > 0.0);
}

#[test]
fn mobius_sub_is_addition_of_the_mirror() {
    let p = hyperdag::PoincarePoint::from_raw(1, 1, 3).unwrap();
    let q = hyperdag::PoincarePoint::from_raw(-1, 2, 5).unwrap();
    let direct = p.mobius_sub(&q);
    let mirrored = p.mobius_add(&q.neg());
    assert_eq!(direct, mirrored);
    // subtracting a point from itself lands at the origin
    let z = hyperdag::PoincarePoint::zero();
    assert!(p.mobius_sub(&p).value_eq_point(&z));
}

#[test]
fn unset_ranges_are_empty_until_assigned() {
    let unset = AngleRange::default();
    assert!(unset.is_empty());
    let mut dag: DAG<u64> = DAG::new();
    dag.insert(0);
    dag.insert(1);
    dag.insert_edge(0, 1);
    let layout = dag.hyperbolic_project(0).unwrap();
    assert!(!layout.angles[0].is_empty());
    assert!(!layout.angles[1].is_empty());
}

#[test]
fn strategy_markers_name_their_tags() {
    assert_eq!(SimpleStretching.strategy(), MapStrategy::Simple);
    assert_eq!(EllipticalGrid.strategy(), MapStrategy::Elliptical);
    assert_eq!(FGSquircular.strategy(), MapStrategy::Squircular);
}

#[test]
fn strategy_keys_resolve_exactly() {
    assert_eq!(parse_strategy("simple"), Some(MapStrategy::Simple));
    assert_eq!(parse_strategy("elliptical"), Some(MapStrategy::Elliptical));
    assert_eq!(parse_strategy("squircular"), Some(MapStrategy::Squircular));
    assert_eq!(parse_strategy("squircle"), None);
    assert_eq!(parse_strategy(""), None);
    assert_eq!(check_mapping_request("simple", 4, 4), Ok(MapStrategy::Simple));
    assert_eq!(check_mapping_request("simple", 4, 5), Err(MapError::LengthMismatch));
    assert_eq!(check_mapping_request("conformal", 4, 4), Err(MapError::UnknownKey));
    assert_eq!(check_mapping_request("conformal", 4, 5), Err(MapError::LengthMismatch));
}
