use annulus_mesh::blue_noise::{generate_blue_noise_cull, try_candidate};
use annulus_mesh::boundary::seed_boundary;
use annulus_mesh::error::MeshError;
use annulus_mesh::sampler::Sampler;
use mersenne_twister::MT19937_64;
use rand::{Rng, SeedableRng};
use std::f64::consts::PI;

#[derive(Clone, Copy, Debug, PartialEq)]
struct Point(f64, f64);

fn dist(a: &Point, b: &Point) -> f64 {
    ((a.0 - b.0).powi(2) + (a.1 - b.1).powi(2)).sqrt()
}

/// A generator that hands out one word, so that `rand` itself turns the
/// word into a number.
struct Word(u64);

impl Rng for Word {
    fn next_u32(&mut self) -> u32 {
        self.0 as u32
    }

    fn next_u64(&mut self) -> u64 {
        self.0
    }
}

/// A word of the generator as a number in `[0, 1)`, as `rand` makes one.
fn unit(word: u64) -> f64 {
    Word(word).next_f64()
}

/// The geometry of a square box `[-half, half]^2` and a spacing `h`.
#[derive(Clone, Copy)]
struct Plane {
    h: f64,
    half: f64,
    side: f64,
    columns: usize,
}

fn plane(h: f64, half: f64) -> Plane {
    let side = h / 2f64.sqrt();
    Plane { h, half, side, columns: (2. * half / side).ceil() as usize }
}

impl Plane {
    fn place(&self, p: &Point, a: u64, b: u64) -> Point {
        let (y, x) = (2. * PI * unit(a)).sin_cos();
        let r = self.h + self.h * unit(b);
        Point(p.0 + r * x, p.1 + r * y)
    }

    fn axis(&self, x: f64) -> Option<usize> {
        if !(-self.half <= x && x <= self.half) {
            return None;
        }
        Some((((x + self.half) / self.side).floor() as usize).min(self.columns - 1))
    }

    fn cell_of(&self, p: &Point) -> Option<(usize, usize)> {
        match (self.axis(p.0), self.axis(p.1)) {
            (Some(c), Some(r)) => Some((c, r)),
            _ => None,
        }
    }

    fn far_enough(&self, p: &Point, q: &Point) -> bool {
        dist(p, q) >= self.h
    }
}

fn boundary(r1: f64, h: f64) -> Vec<Point> {
    let mut ps = Vec::new();
    let k = |r: f64| (0.7 * 2. * PI * r / h).round() as i32;
    let res = seed_boundary(&mut ps, k(r1), k(1.), |ring: usize, i: i32, k: i32| {
        let r = if ring == 0 { r1 } else { 1. };
        let (y, x) = (2. * PI * i as f64 / k as f64).sin_cos();
        Point(r * x, r * y)
    });
    assert!(res.is_ok());
    ps
}

struct Run {
    n_fixed: usize,
    points: Vec<Point>,
    cells: Vec<(usize, usize)>,
}

fn annulus(seed: u64, r1: f64, h: f64) -> Run {
    let g = plane(h, 1.);
    let mut rng: MT19937_64 = SeedableRng::from_seed(seed);
    let mut points = boundary(r1, h);
    let n_fixed = points.len();
    let res = generate_blue_noise_cull(
        &mut rng,
        &mut points,
        g.columns,
        g.columns,
        30,
        |p: &Point, a: u64, b: u64| g.place(p, a, b),
        |p: &Point| g.cell_of(p),
        |p: &Point| {
            let d = dist(p, &Point(0., 0.));
            r1 <= d && d <= 1.
        },
        |p: &Point, q: &Point| g.far_enough(p, q),
    );
    match res {
        Ok(cells) => Run { n_fixed, points, cells },
        Err(e) => panic!("the sampler failed: {:?}", e),
    }
}

#[test]
fn no_two_points_are_closer_than_the_spacing() {
    let run = annulus(0, 0.2, 0.2);
    for i in run.n_fixed..run.points.len() {
        for j in 0..i {
            let d = dist(&run.points[i], &run.points[j]);
            assert!(d >= 0.2 - 1e-12, "points {} and {} are {} apart", i, j, d);
        }
    }
}

#[test]
fn no_two_points_are_closer_with_a_finer_spacing() {
    let run = annulus(12345, 0.3, 0.05);
    for i in run.n_fixed..run.points.len() {
        for j in 0..i {
            let d = dist(&run.points[i], &run.points[j]);
            assert!(d >= 0.05 - 1e-12, "points {} and {} are {} apart", i, j, d);
        }
    }
}

#[test]
fn every_new_point_is_in_the_annulus() {
    let run = annulus(0, 0.2, 0.2);
    for p in &run.points[run.n_fixed..] {
        let d = dist(p, &Point(0., 0.));
        assert!(0.2 <= d && d <= 1., "{:?} is outside", p);
    }
    let run = annulus(7, 0.5, 0.1);
    for p in &run.points[run.n_fixed..] {
        let d = dist(p, &Point(0., 0.));
        assert!(0.5 <= d && d <= 1., "{:?} is outside", p);
    }
}

#[test]
fn every_new_point_was_made_around_an_earlier_one() {
    let run = annulus(0, 0.2, 0.2);
    for i in run.n_fixed..run.points.len() {
        // at a distance between h and 2h
        assert!(
            (0..i).any(|j| {
                let d = dist(&run.points[i], &run.points[j]);
                0.2 - 1e-12 <= d && d <= 0.4 + 1e-12
            }),
            "point {} has no parent",
            i
        );
    }
}

#[test]
fn a_word_becomes_the_number_that_the_generator_makes_of_it() {
    let mut words: MT19937_64 = SeedableRng::from_seed(5u64);
    let mut numbers: MT19937_64 = SeedableRng::from_seed(5u64);
    for _ in 0..1000 {
        let x: f64 = numbers.gen();
        assert_eq!(unit(words.next_u64()).to_bits(), x.to_bits());
        assert!(0. <= x && x < 1.);
    }
}

#[test]
fn the_same_seed_gives_the_same_points() {
    let a = annulus(0, 0.2, 0.2);
    let b = annulus(0, 0.2, 0.2);
    assert_eq!(a.points.len(), b.points.len());
    for (p, q) in a.points.iter().zip(b.points.iter()) {
        assert_eq!(p.0.to_bits(), q.0.to_bits());
        assert_eq!(p.1.to_bits(), q.1.to_bits());
    }
    assert_eq!(a.cells, b.cells);
}

#[test]
fn another_seed_gives_other_points() {
    let a = annulus(0, 0.2, 0.2);
    let b = annulus(1, 0.2, 0.2);
    assert_eq!(a.points[..a.n_fixed], b.points[..b.n_fixed]);
    assert_ne!(a.points[a.n_fixed], b.points[b.n_fixed]);
}

#[test]
fn the_boundary_stays_where_it_was() {
    let run = annulus(0, 0.2, 0.2);
    assert_eq!(run.n_fixed, 26);
    assert_eq!(run.points[..26], boundary(0.2, 0.2)[..]);
}

#[test]
fn the_annulus_is_filled() {
    let run = annulus(0, 0.2, 0.2);
    let inside = run.points.len() - run.n_fixed;
    // discs of radius h/2 around the points do not overlap, and no disc of
    // radius 2h can be left empty on average: between 3/(4 pi h^2) and
    // 3 / (pi h^2 / 4) points, with room to spare
    assert!(inside >= 25, "only {} points", inside);
    assert!(inside <= 120, "as many as {} points", inside);
}

#[test]
fn every_point_has_its_cell() {
    let run = annulus(3, 0.2, 0.2);
    let g = plane(0.2, 1.);
    assert_eq!(run.cells.len(), run.points.len());
    for (p, cell) in run.points.iter().zip(run.cells.iter()) {
        assert_eq!(g.cell_of(p), Some(*cell));
    }
}

#[test]
fn new_points_have_a_cell_each() {
    let run = annulus(3, 0.2, 0.2);
    for i in run.n_fixed..run.points.len() {
        for j in 0..i {
            assert_ne!(run.cells[i], run.cells[j]);
        }
    }
}

#[test]
fn a_region_that_holds_nothing_gives_no_point() {
    let g = plane(0.2, 1.);
    let mut rng: MT19937_64 = SeedableRng::from_seed(0u64);
    let mut points = boundary(0.2, 0.2);
    let res = generate_blue_noise_cull(
        &mut rng,
        &mut points,
        g.columns,
        g.columns,
        30,
        |p: &Point, a: u64, b: u64| g.place(p, a, b),
        |p: &Point| g.cell_of(p),
        |_: &Point| false,
        |p: &Point, q: &Point| g.far_enough(p, q),
    );
    assert_eq!(res.map(|cells| cells.len()), Ok(26));
    assert_eq!(points, boundary(0.2, 0.2));
}

#[test]
fn no_attempts_give_no_point() {
    let g = plane(0.2, 1.);
    let mut rng: MT19937_64 = SeedableRng::from_seed(0u64);
    let mut points = boundary(0.2, 0.2);
    let res = generate_blue_noise_cull(
        &mut rng,
        &mut points,
        g.columns,
        g.columns,
        0,
        |p: &Point, a: u64, b: u64| g.place(p, a, b),
        |p: &Point| g.cell_of(p),
        |_: &Point| true,
        |p: &Point, q: &Point| g.far_enough(p, q),
    );
    assert!(res.is_ok());
    assert_eq!(points.len(), 26);
}

#[test]
fn no_seed_gives_no_point() {
    let g = plane(0.2, 1.);
    let mut rng: MT19937_64 = SeedableRng::from_seed(0u64);
    let mut points: Vec<Point> = Vec::new();
    let res = generate_blue_noise_cull(
        &mut rng,
        &mut points,
        g.columns,
        g.columns,
        30,
        |p: &Point, a: u64, b: u64| g.place(p, a, b),
        |p: &Point| g.cell_of(p),
        |_: &Point| true,
        |p: &Point, q: &Point| g.far_enough(p, q),
    );
    assert_eq!(res, Ok(vec![]));
    assert!(points.is_empty());
}

#[test]
fn one_seed_fills_the_whole_box() {
    let g = plane(0.25, 1.);
    let mut rng: MT19937_64 = SeedableRng::from_seed(42u64);
    let mut points = vec![Point(0., 0.)];
    let res = generate_blue_noise_cull(
        &mut rng,
        &mut points,
        g.columns,
        g.columns,
        30,
        |p: &Point, a: u64, b: u64| g.place(p, a, b),
        |p: &Point| g.cell_of(p),
        |_: &Point| true,
        |p: &Point, q: &Point| g.far_enough(p, q),
    );
    assert!(res.is_ok());
    assert_eq!(points[0], Point(0., 0.));
    assert!(points.len() >= 30, "only {} points", points.len());
    for i in 0..points.len() {
        assert!(points[i].0.abs() <= 1. && points[i].1.abs() <= 1.);
        for j in 0..i {
            assert!(dist(&points[i], &points[j]) >= 0.25);
        }
    }
    // candidates were made at a distance between h and 2h of a point
    for i in 1..points.len() {
        assert!((0..i).any(|j| {
            let d = dist(&points[i], &points[j]);
            0.25 <= d && d <= 0.5 + 1e-12
        }));
    }
}

#[test]
fn a_seed_outside_the_box_is_refused() {
    let g = plane(0.2, 1.);
    let mut rng: MT19937_64 = SeedableRng::from_seed(0u64);
    let mut points = vec![Point(0.5, 0.5), Point(1.5, 0.)];
    let res = generate_blue_noise_cull(
        &mut rng,
        &mut points,
        g.columns,
        g.columns,
        30,
        |p: &Point, a: u64, b: u64| g.place(p, a, b),
        |p: &Point| g.cell_of(p),
        |_: &Point| true,
        |p: &Point, q: &Point| g.far_enough(p, q),
    );
    assert_eq!(res, Err(MeshError::InvalidConfiguration));
    assert_eq!(points, vec![Point(0.5, 0.5), Point(1.5, 0.)]);
}

#[test]
fn a_seed_in_a_cell_that_the_grid_lacks_is_refused() {
    let g = plane(0.2, 1.);
    let mut rng: MT19937_64 = SeedableRng::from_seed(0u64);
    let mut points = vec![Point(0.9, 0.9)];
    let res = generate_blue_noise_cull(
        &mut rng,
        &mut points,
        g.columns - 2,
        g.columns,
        30,
        |p: &Point, a: u64, b: u64| g.place(p, a, b),
        |p: &Point| g.cell_of(p),
        |_: &Point| true,
        |p: &Point, q: &Point| g.far_enough(p, q),
    );
    assert_eq!(res, Err(MeshError::InvalidConfiguration));
    assert_eq!(points, vec![Point(0.9, 0.9)]);
}

#[test]
fn a_grid_too_large_is_refused() {
    let g = plane(0.2, 1.);
    let mut rng: MT19937_64 = SeedableRng::from_seed(0u64);
    let mut points = vec![Point(0., 0.)];
    let res = generate_blue_noise_cull(
        &mut rng,
        &mut points,
        usize::MAX,
        3,
        30,
        |p: &Point, a: u64, b: u64| g.place(p, a, b),
        |p: &Point| g.cell_of(p),
        |_: &Point| true,
        |p: &Point, q: &Point| g.far_enough(p, q),
    );
    assert_eq!(res, Err(MeshError::InvalidConfiguration));
    assert_eq!(points, vec![Point(0., 0.)]);
}

fn two_points() -> (Sampler, Vec<Point>, Plane) {
    let g = plane(0.2, 1.);
    let mut sampler = match Sampler::new(g.columns, g.columns) {
        Some(s) => s,
        None => panic!("no sampler"),
    };
    let points = vec![Point(0., 0.), Point(0.5, 0.)];
    for p in &points {
        let (c, r) = g.cell_of(p).unwrap();
        sampler.accept(c, r);
    }
    (sampler, points, g)
}

fn tried(cand: Point, inside: bool) -> Option<(usize, usize)> {
    let (sampler, points, g) = two_points();
    try_candidate(
        &sampler,
        &points,
        &cand,
        &|p: &Point| g.cell_of(p),
        &|_: &Point| inside,
        &|p: &Point, q: &Point| g.far_enough(p, q),
    )
}

#[test]
fn a_candidate_in_the_open_is_taken() {
    let g = plane(0.2, 1.);
    assert_eq!(tried(Point(0.25, 0.), true), g.cell_of(&Point(0.25, 0.)));
    assert_eq!(tried(Point(-0.9, 0.9), true), g.cell_of(&Point(-0.9, 0.9)));
    assert!(tried(Point(0.25, 0.), true).is_some());
}

#[test]
fn a_candidate_outside_the_box_is_turned_down() {
    assert_eq!(tried(Point(1.01, 0.), true), None);
    assert_eq!(tried(Point(0., -1.5), true), None);
}

#[test]
fn a_candidate_outside_the_region_is_turned_down() {
    assert_eq!(tried(Point(0.25, 0.), false), None);
}

#[test]
fn a_candidate_too_close_is_turned_down() {
    // 0.19 from the first point, in another cell
    assert_eq!(tried(Point(0.19, 0.), true), None);
    // 0.15 from the second point, on the diagonal
    assert_eq!(tried(Point(0.5 + 0.106, 0.106), true), None);
    // just far enough
    assert!(tried(Point(0.2, 0.), true).is_some());
}

#[test]
fn a_candidate_in_a_taken_cell_is_turned_down() {
    assert_eq!(tried(Point(0.01, 0.01), true), None);
}
