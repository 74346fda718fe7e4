use annulus_mesh::boundary::seed_boundary;
use annulus_mesh::error::MeshError;
use std::f64::consts::PI;

#[derive(Clone, Copy, Debug, PartialEq)]
struct Point(f64, f64);

fn count(ratio: f64, r: f64, h: f64) -> i32 {
    (ratio * 2. * PI * r / h).round() as i32
}

fn on_circle(r: f64, i: i32, k: i32) -> Point {
    let (y, x) = (2. * PI * i as f64 / k as f64).sin_cos();
    Point(r * x, r * y)
}

fn seed(r1: f64, h: f64, ratio: f64) -> (Result<usize, MeshError>, Vec<Point>) {
    let mut ps = Vec::new();
    let res = seed_boundary(&mut ps, count(ratio, r1, h), count(ratio, 1., h), |ring: usize, i: i32, k: i32| {
        on_circle(if ring == 0 { r1 } else { 1. }, i, k)
    });
    (res, ps)
}

#[test]
fn counts_for_the_default_annulus() {
    assert_eq!(count(0.7, 0.2, 0.2), 4);
    assert_eq!(count(0.7, 1., 0.2), 22);
    let (res, ps) = seed(0.2, 0.2, 0.7);
    assert_eq!(res, Ok(26));
    assert_eq!(ps.len(), 26);
}

#[test]
fn inner_ring_comes_first() {
    let (_, ps) = seed(0.2, 0.2, 0.7);
    for p in &ps[..4] {
        assert!((p.0.hypot(p.1) - 0.2).abs() < 1e-12);
    }
    for p in &ps[4..] {
        assert!((p.0.hypot(p.1) - 1.).abs() < 1e-12);
    }
}

#[test]
fn rings_start_at_angle_zero() {
    let (_, ps) = seed(0.2, 0.2, 0.7);
    assert_eq!(ps[0], Point(0.2, 0.));
    assert_eq!(ps[4], Point(1., 0.));
}

#[test]
fn vertices_are_evenly_spaced() {
    let (_, ps) = seed(0.2, 0.2, 0.7);
    for i in 0..4 {
        assert_eq!(ps[i], on_circle(0.2, i as i32, 4));
    }
    for i in 0..22 {
        assert_eq!(ps[4 + i], on_circle(1., i as i32, 22));
    }
    // a quarter turn on the inner ring
    assert!((ps[1].0).abs() < 1e-12 && (ps[1].1 - 0.2).abs() < 1e-12);
    assert!((ps[2].0 + 0.2).abs() < 1e-12 && (ps[2].1).abs() < 1e-12);
}

#[test]
fn the_function_is_asked_for_each_vertex_once() {
    let mut ps: Vec<(usize, i32, i32)> = Vec::new();
    let res = seed_boundary(&mut ps, 3, 2, |ring: usize, i: i32, k: i32| (ring, i, k));
    assert_eq!(res, Ok(5));
    assert_eq!(ps, vec![(0, 0, 3), (0, 1, 3), (0, 2, 3), (1, 0, 2), (1, 1, 2)]);
}

#[test]
fn points_that_were_there_stay_in_front() {
    let mut ps: Vec<(usize, i32, i32)> = vec![(9, 9, 9)];
    let res = seed_boundary(&mut ps, 1, 1, |ring: usize, i: i32, k: i32| (ring, i, k));
    assert_eq!(res, Ok(3));
    assert_eq!(ps, vec![(9, 9, 9), (0, 0, 1), (1, 0, 1)]);
}

#[test]
fn a_circle_without_vertex_is_refused() {
    let mut ps: Vec<(usize, i32, i32)> = vec![(9, 9, 9)];
    let place = |ring: usize, i: i32, k: i32| (ring, i, k);
    assert_eq!(seed_boundary(&mut ps, 0, 22, place), Err(MeshError::InvalidConfiguration));
    assert_eq!(seed_boundary(&mut ps, 4, 0, place), Err(MeshError::InvalidConfiguration));
    assert_eq!(seed_boundary(&mut ps, 0, 0, place), Err(MeshError::InvalidConfiguration));
    assert_eq!(seed_boundary(&mut ps, -3, 5, place), Err(MeshError::InvalidConfiguration));
    assert_eq!(seed_boundary(&mut ps, 5, i32::MIN, place), Err(MeshError::InvalidConfiguration));
    assert_eq!(ps, vec![(9, 9, 9)]);
}

#[test]
fn degenerate_radius_or_spacing_gives_no_vertex() {
    // an inner radius of zero
    assert_eq!(seed(0., 0.2, 0.7).0, Err(MeshError::InvalidConfiguration));
    // a spacing so wide that the inner circle rounds to no vertex
    assert_eq!(count(0.7, 0.2, 2.), 0);
    assert_eq!(seed(0.2, 2., 0.7).0, Err(MeshError::InvalidConfiguration));
    // a negative spacing
    assert_eq!(seed(0.2, -0.2, 0.7).0, Err(MeshError::InvalidConfiguration));
}
