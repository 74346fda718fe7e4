use annulus_mesh::adjacency::AdjacencyTable;
use annulus_mesh::boundary::seed_boundary;
use annulus_mesh::error::MeshError;
use annulus_mesh::smoother::smooth;
use annulus_mesh::triangulation::{faces_of_run, OracleRun};
use std::f64::consts::PI;

#[derive(Clone, Copy, Debug, PartialEq)]
struct Point(f64, f64);

fn mean_of(points: &Vec<Point>, list: &Vec<usize>) -> Point {
    let mut x = 0.;
    let mut y = 0.;
    for &j in list {
        x += points[j].0;
        y += points[j].1;
    }
    let n = list.len() as f64;
    Point(x / n, y / n)
}

/// Two rings of six fixed vertices and one free vertex, which the engine
/// joins to the six vertices of the inner ring.
fn wheel(middle: Point) -> (Vec<Point>, usize) {
    let mut points = Vec::new();
    let n_fixed = seed_boundary(&mut points, 6, 6, |ring: usize, i: i32, k: i32| {
        let r = if ring == 0 { 1. } else { 2. };
        let (y, x) = (2. * PI * i as f64 / k as f64).sin_cos();
        Point(r * x, r * y)
    });
    points.push(middle);
    (points, n_fixed.unwrap())
}

fn relax(points: &mut Vec<Point>, n_fixed: usize, run: &OracleRun) -> Result<usize, MeshError> {
    let faces = faces_of_run(run)?;
    let table = AdjacencyTable::build(&faces, points.len())?;
    smooth(points, &table, n_fixed, 1, mean_of, |from: &Vec<Point>, now: &Vec<Point>| {
        let first = now.len() - from.len();
        let mut change = 0.;
        for (t, p) in from.iter().enumerate() {
            change += (p.0 - now[first + t].0).powi(2) + (p.1 - now[first + t].1).powi(2);
        }
        change.sqrt() < 1e-3
    })
}

fn answer(text: &str) -> OracleRun {
    OracleRun::Exited { success: true, output: text.as_bytes().to_vec() }
}

const WHEEL: &str = "18\n\
    12 0 1\n12 1 2\n12 2 3\n12 3 4\n12 4 5\n12 5 0\n\
    0 6 7\n0 7 1\n1 7 8\n1 8 2\n2 8 9\n2 9 3\n\
    3 9 10\n3 10 4\n4 10 11\n4 11 5\n5 11 6\n5 6 0\n";

#[test]
fn the_free_vertex_goes_to_the_middle_of_the_wheel() {
    let (mut points, n_fixed) = wheel(Point(0.4, -0.3));
    assert_eq!(n_fixed, 12);
    let before = points.clone();
    assert_eq!(relax(&mut points, n_fixed, &answer(WHEEL)), Ok(1));
    assert_eq!(points[..12], before[..12]);
    assert!(points[12].0.abs() < 1e-12 && points[12].1.abs() < 1e-12);
}

#[test]
fn an_engine_that_is_not_there_stops_the_pipeline() {
    let (mut points, n_fixed) = wheel(Point(0.4, -0.3));
    let before = points.clone();
    assert_eq!(relax(&mut points, n_fixed, &OracleRun::Unavailable), Err(MeshError::OracleUnavailable));
    assert_eq!(points, before);
}

#[test]
fn an_engine_that_fails_stops_the_pipeline() {
    let (mut points, n_fixed) = wheel(Point(0.4, -0.3));
    let failed = OracleRun::Exited { success: false, output: WHEEL.as_bytes().to_vec() };
    assert_eq!(relax(&mut points, n_fixed, &failed), Err(MeshError::OracleFailure));
}

#[test]
fn faces_that_name_a_missing_point_stop_the_pipeline() {
    let (mut points, n_fixed) = wheel(Point(0.4, -0.3));
    assert_eq!(relax(&mut points, n_fixed, &answer("1\n0 1 13\n")), Err(MeshError::OracleFailure));
}

#[test]
fn fewer_faces_than_announced_stop_the_pipeline() {
    let (mut points, n_fixed) = wheel(Point(0.4, -0.3));
    assert_eq!(relax(&mut points, n_fixed, &answer("3\n12 0 1\n12 1 2\n")), Err(MeshError::OracleFailure));
}

#[test]
fn a_free_vertex_that_the_engine_left_out_stops_the_pipeline() {
    let (mut points, n_fixed) = wheel(Point(0.4, -0.3));
    let before = points.clone();
    let rim_only = "2\n0 6 7\n0 7 1\n";
    assert_eq!(relax(&mut points, n_fixed, &answer(rim_only)), Err(MeshError::DegenerateVertex { vertex: 12 }));
    assert_eq!(points, before);
}

#[test]
fn a_circle_without_vertex_stops_the_pipeline() {
    let mut points: Vec<Point> = Vec::new();
    let res = seed_boundary(&mut points, 0, 6, |_: usize, _: i32, _: i32| Point(0., 0.));
    assert_eq!(res, Err(MeshError::InvalidConfiguration));
    assert!(points.is_empty());
}
