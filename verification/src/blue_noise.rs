//! Blue noise in a region of the plane: Bridson's algorithm.
//!
//! The sampler starts from the points that are already there, all of them
//! active. It picks an active point at random and tries a bounded number of
//! candidates around it. The first candidate that lies in the bounding box
//! and in the region, and that is far enough from every point nearby, joins
//! the point set and becomes active. A point around which every try failed
//! stops being active. The sampler ends when no point is active.
//!
//! The point type is a parameter. Four functions of the caller do the
//! geometry:
//!
//! * `place(p, a, b)` makes a candidate around `p` from two random words,
//!   one for the angle and one for the radius between `h` and `2h`;
//! * `cell_of(p)` gives the grid cell of `p`, or `None` outside the
//!   bounding box; the cells are squares of side `h / sqrt(2)`;
//! * `in_region(p)` says whether `p` belongs to the region;
//! * `far_enough(p, q)` says whether `p` and `q` are at least `h` apart.
//!
//! Two points in one cell are closer than `h`, so a candidate whose cell is
//! taken is turned down without asking `far_enough`. This is also why the
//! sampler ends: each new point takes a cell that was free.

use vstd::prelude::*;
use mersenne_twister::MT19937_64;
use rand::Rng;
use crate::error::MeshError;
use crate::sampler::{free, near, Sampler};

verus! {

/// The generator `mersenne_twister::MT19937_64`, taken as it is: nothing
/// of its state is visible here.
#[verifier::external_type_specification]
#[verifier::external_body]
pub struct ExMT19937_64(MT19937_64);

/// A random position in a list of `n` entries.
///
/// Calls `gen_range(0, n)` of `rand::Rng`. It panics unless `0 < n`. It
/// draws words until one is below a threshold that more than half of all
/// words meet, and returns that word modulo `n`. Only the range of the
/// result is claimed, not which position comes.
#[verifier::external_body]
fn draw_index(rng: &mut MT19937_64, n: usize) -> (k: usize)
    requires
        n > 0,
    ensures
        k < n,
{
    rng.gen_range(0, n)
}

/// The next word of the generator.
///
/// Calls `next_u64` of `rand::Rng`, as `MT19937_64` implements it. Nothing
/// is claimed of the word: every value is provided for.
#[verifier::external_body]
fn draw_word(rng: &mut MT19937_64) -> (word: u64) {
    rng.next_u64()
}

/// `cell_of` gives `cell` for the point `p`, and `cell` is one of a grid of
/// `columns` by `rows` cells.
pub open spec fn located<P, C: Fn(&P) -> Option<(usize, usize)>>(
    cell_of: C,
    p: P,
    cell: (usize, usize),
    columns: usize,
    rows: usize,
) -> bool {
    &&& call_ensures(cell_of, (&p,), Some(cell))
    &&& cell.0 < columns
    &&& cell.1 < rows
}

/// Every test on the candidate `cand` came out well: it has the cell
/// `cell` in the grid, that cell is free, the candidate is in the region,
/// and it is far enough from every point in a cell nearby.
pub open spec fn admissible<
    P,
    C: Fn(&P) -> Option<(usize, usize)>,
    R: Fn(&P) -> bool,
    F: Fn(&P, &P) -> bool,
>(
    points: Seq<P>,
    cells: Seq<(usize, usize)>,
    cand: P,
    cell: (usize, usize),
    columns: usize,
    rows: usize,
    cell_of: C,
    in_region: R,
    far_enough: F,
) -> bool {
    &&& located(cell_of, cand, cell, columns, rows)
    &&& free(cells, cell)
    &&& call_ensures(in_region, (&cand,), true)
    &&& forall|j: int|
        0 <= j < points.len() && near(#[trigger] cells[j], cell) ==> call_ensures(
            far_enough,
            (&cand, &points[j]),
            true,
        )
}

/// One of the tests on the candidate `cand` came out against it, where
/// `answer` is what `cell_of` said: it has no cell in the grid, or its cell
/// is taken, or it is outside the region, or it is too close to a point in
/// a cell nearby.
pub open spec fn refused<
    P,
    C: Fn(&P) -> Option<(usize, usize)>,
    R: Fn(&P) -> bool,
    F: Fn(&P, &P) -> bool,
>(
    points: Seq<P>,
    cells: Seq<(usize, usize)>,
    cand: P,
    answer: Option<(usize, usize)>,
    columns: usize,
    rows: usize,
    cell_of: C,
    in_region: R,
    far_enough: F,
) -> bool {
    &&& call_ensures(cell_of, (&cand,), answer)
    &&& answer matches Some(cell) ==> {
        ||| cell.0 >= columns
        ||| cell.1 >= rows
        ||| !free(cells, cell)
        ||| call_ensures(in_region, (&cand,), false)
        ||| exists|j: int|
            0 <= j < points.len() && near(#[trigger] cells[j], cell) && call_ensures(
                far_enough,
                (&cand, &points[j]),
                false,
            )
    }
}

/// The point `i` was made around one of the points before it.
pub open spec fn sprung<P, G: Fn(&P, u64, u64) -> P>(place: G, points: Seq<P>, i: int) -> bool {
    exists|j: int| 0 <= j < i && #[trigger] made_around(place, points[j], points[i])
}

/// Every point from `from` on was made around one of the points before it.
pub open spec fn all_sprung<P, G: Fn(&P, u64, u64) -> P>(place: G, points: Seq<P>, from: int) -> bool {
    forall|i: int| from <= i < points.len() ==> #[trigger] sprung(place, points, i)
}

/// A candidate made around one of the points joins: it has sprung from
/// that point, and the others from where they had.
proof fn lemma_sprung_by_one<P, G: Fn(&P, u64, u64) -> P>(place: G, points: Seq<P>, around: int, cand: P, from: int)
    requires
        all_sprung(place, points, from),
        0 <= around < points.len(),
        made_around(place, points[around], cand),
    ensures
        all_sprung(place, points.push(cand), from),
{
    let more = points.push(cand);
    assert forall|i: int| from <= i < more.len() implies #[trigger] sprung(place, more, i) by {
        if i < points.len() {
            assert(sprung(place, points, i));
            let j = choose|j: int| 0 <= j < i && #[trigger] made_around(place, points[j], points[i]);
            assert(more[j] == points[j] && more[i] == points[i]);
            assert(made_around(place, more[j], more[i]));
        } else {
            assert(more[around] == points[around] && more[i] == cand);
            assert(made_around(place, more[around], more[i]));
        }
    }
}

/// One of the tests came out against the candidate `cand`.
pub open spec fn turned_down<P, C: Fn(&P) -> Option<(usize, usize)>, R: Fn(&P) -> bool, F: Fn(&P, &P) -> bool>(
    points: Seq<P>,
    cells: Seq<(usize, usize)>,
    cand: P,
    columns: usize,
    rows: usize,
    cell_of: C,
    in_region: R,
    far_enough: F,
) -> bool {
    exists|answer: Option<(usize, usize)>|
        refused(points, cells, cand, answer, columns, rows, cell_of, in_region, far_enough)
}

/// Puts the candidate `cand` to the tests, in this order: the bounding box
/// and the grid, the cell being free, the region, the distance to every
/// point in a cell nearby. Gives the cell of a candidate that passed them
/// all, and `None` as soon as one test fails.
pub fn try_candidate<P, C, R, F>(
    sampler: &Sampler,
    points: &Vec<P>,
    cand: &P,
    cell_of: &C,
    in_region: &R,
    far_enough: &F,
) -> (res: Option<(usize, usize)>) where
    C: Fn(&P) -> Option<(usize, usize)>,
    R: Fn(&P) -> bool,
    F: Fn(&P, &P) -> bool,

    requires
        sampler.wf(),
        points@.len() == sampler.cells().len(),
        forall|p: &P| call_requires(*cell_of, (p,)),
        forall|p: &P| call_requires(*in_region, (p,)),
        forall|p: &P, q: &P| call_requires(*far_enough, (p, q)),
    ensures
        match res {
            Some(cell) => admissible(
                points@,
                sampler.cells(),
                *cand,
                cell,
                sampler.columns(),
                sampler.rows(),
                *cell_of,
                *in_region,
                *far_enough,
            ),
            None => turned_down(
                points@,
                sampler.cells(),
                *cand,
                sampler.columns(),
                sampler.rows(),
                *cell_of,
                *in_region,
                *far_enough,
            ),
        },
{
    let answer = cell_of(cand);
    let cell = match answer {
        None => {
            assert(refused(
                points@,
                sampler.cells(),
                *cand,
                answer,
                sampler.columns(),
                sampler.rows(),
                *cell_of,
                *in_region,
                *far_enough,
            ));
            return None;
        },
        Some(cell) => cell,
    };
    let ghost no = refused(
        points@,
        sampler.cells(),
        *cand,
        answer,
        sampler.columns(),
        sampler.rows(),
        *cell_of,
        *in_region,
        *far_enough,
    );
    if cell.0 >= sampler.column_count() || cell.1 >= sampler.row_count() {
        assert(no);
        return None;
    }
    if !sampler.is_vacant(cell.0, cell.1) {
        assert(no);
        return None;
    }
    if !in_region(cand) {
        assert(no);
        return None;
    }
    let nearby = sampler.neighbours(cell.0, cell.1);
    let mut t: usize = 0;
    while t < nearby.len()
        invariant
            t <= nearby@.len(),
            points@.len() == sampler.cells().len(),
            forall|i: int| 0 <= i < nearby@.len() ==> #[trigger] nearby@[i] < sampler.cells().len(),
            forall|p: &P, q: &P| call_requires(*far_enough, (p, q)),
            forall|i: int|
                0 <= i < t ==> call_ensures(*far_enough, (cand, &points@[(#[trigger] nearby@[i]) as int]), true),
            no == refused(
                points@,
                sampler.cells(),
                *cand,
                answer,
                sampler.columns(),
                sampler.rows(),
                *cell_of,
                *in_region,
                *far_enough,
            ),
            answer == Some(cell),
            call_ensures(*cell_of, (cand,), answer),
            forall|j: usize|
                #![trigger nearby@.contains(j)]
                #![trigger sampler.cells()[j as int]]
                nearby@.contains(j) <==> (j < sampler.cells().len() && near(sampler.cells()[j as int], cell)),
        decreases nearby@.len() - t,
    {
        let j = nearby[t];
        if !far_enough(cand, &points[j]) {
            proof {
                assert(nearby@.contains(j));
                assert(near(sampler.cells()[j as int], cell));
                assert(no);
            }
            return None;
        }
        t += 1;
    }
    proof {
        sampler.lemma_wf();
        assert forall|j: int| 0 <= j < points@.len() && near(#[trigger] sampler.cells()[j], cell) implies call_ensures(
            *far_enough,
            (cand, &points@[j]),
            true,
        ) by {
            assert(nearby@.contains(j as usize));
            let i = choose|i: int| 0 <= i < nearby@.len() && nearby@[i] == j as usize;
            assert(call_ensures(*far_enough, (cand, &points@[nearby@[i] as int]), true));
        }
    }
    Some(cell)
}

/// What holds of a point set that the sampler has grown from `before`:
/// the points of `before` are where they were; every point has its cell in
/// the grid; every new point is in the region, has a cell to itself among
/// the points before it, and is far enough from each earlier point in a
/// cell nearby.
pub open spec fn grown<P, C: Fn(&P) -> Option<(usize, usize)>, R: Fn(&P) -> bool, F: Fn(&P, &P) -> bool>(
    before: Seq<P>,
    points: Seq<P>,
    cells: Seq<(usize, usize)>,
    columns: usize,
    rows: usize,
    cell_of: C,
    in_region: R,
    far_enough: F,
) -> bool {
    &&& before.len() <= points.len()
    &&& points.len() == cells.len()
    &&& forall|i: int| 0 <= i < before.len() ==> #[trigger] points[i] == before[i]
    &&& forall|i: int| 0 <= i < points.len() ==> located(cell_of, #[trigger] points[i], cells[i], columns, rows)
    &&& forall|i: int| before.len() <= i < points.len() ==> call_ensures(in_region, (&#[trigger] points[i],), true)
    &&& forall|i: int, j: int|
        before.len() <= i < points.len() && 0 <= j < i ==> #[trigger] cells[i] != #[trigger] cells[j]
    &&& forall|i: int, j: int|
        before.len() <= i < points.len() && 0 <= j < i && near(#[trigger] cells[i], #[trigger] cells[j])
            ==> call_ensures(far_enough, (&points[i], &points[j]), true)
}

/// What the grid is good for. Let `apart` be any relation between points
/// such that `far_enough` says yes only of points that are `apart`, and
/// such that two points whose cells are not near one another are `apart`.
/// Then in a point set that the sampler has grown, every new point is
/// `apart` from every point before it: the points in cells nearby were
/// asked about, and the others need not be.
pub proof fn lemma_grown_apart<P, C: Fn(&P) -> Option<(usize, usize)>, R: Fn(&P) -> bool, F: Fn(&P, &P) -> bool>(
    before: Seq<P>,
    points: Seq<P>,
    cells: Seq<(usize, usize)>,
    columns: usize,
    rows: usize,
    cell_of: C,
    in_region: R,
    far_enough: F,
    apart: spec_fn(P, P) -> bool,
)
    requires
        grown(before, points, cells, columns, rows, cell_of, in_region, far_enough),
        forall|p: P, q: P| call_ensures(far_enough, (&p, &q), true) ==> #[trigger] apart(p, q),
        forall|i: int, j: int|
            0 <= j < i < points.len() && !near(cells[i], cells[j]) ==> #[trigger] apart(points[i], points[j]),
    ensures
        forall|i: int, j: int|
            before.len() <= i < points.len() && 0 <= j < i ==> #[trigger] apart(points[i], points[j]),
{
    assert forall|i: int, j: int| before.len() <= i < points.len() && 0 <= j < i implies #[trigger] apart(
        points[i],
        points[j],
    ) by {
        if near(cells[i], cells[j]) {
            assert(call_ensures(far_enough, (&points[i], &points[j]), true));
        }
    }
}

/// `cand` is a candidate that `place` made around the point `p`.
pub open spec fn made_around<P, G: Fn(&P, u64, u64) -> P>(place: G, p: P, cand: P) -> bool {
    exists|angle: u64, radius: u64| call_ensures(place, (&p, angle, radius), cand)
}

/// The point `i` is done with: `attempts` candidates were made around it,
/// and each of them is turned down by the point set as it now is.
pub open spec fn exhausted<
    P,
    G: Fn(&P, u64, u64) -> P,
    C: Fn(&P) -> Option<(usize, usize)>,
    R: Fn(&P) -> bool,
    F: Fn(&P, &P) -> bool,
>(
    points: Seq<P>,
    cells: Seq<(usize, usize)>,
    i: int,
    attempts: usize,
    columns: usize,
    rows: usize,
    place: G,
    cell_of: C,
    in_region: R,
    far_enough: F,
) -> bool {
    exists|tries: Seq<P>|
        all_turned_down(tries, points, cells, i, attempts, columns, rows, place, cell_of, in_region, far_enough)
}

/// `tries` are `attempts` candidates made around the point `i`, each of
/// them turned down.
pub open spec fn all_turned_down<
    P,
    G: Fn(&P, u64, u64) -> P,
    C: Fn(&P) -> Option<(usize, usize)>,
    R: Fn(&P) -> bool,
    F: Fn(&P, &P) -> bool,
>(
    tries: Seq<P>,
    points: Seq<P>,
    cells: Seq<(usize, usize)>,
    i: int,
    attempts: usize,
    columns: usize,
    rows: usize,
    place: G,
    cell_of: C,
    in_region: R,
    far_enough: F,
) -> bool {
    &&& tries.len() == attempts
    &&& forall|t: int|
        0 <= t < tries.len() ==> {
            &&& made_around(place, points[i], #[trigger] tries[t])
            &&& turned_down(points, cells, tries[t], columns, rows, cell_of, in_region, far_enough)
        }
}

/// A candidate that was turned down stays turned down when a point joins.
pub proof fn lemma_turned_down_for_good<
    P,
    C: Fn(&P) -> Option<(usize, usize)>,
    R: Fn(&P) -> bool,
    F: Fn(&P, &P) -> bool,
>(
    points: Seq<P>,
    cells: Seq<(usize, usize)>,
    p: P,
    cell: (usize, usize),
    cand: P,
    columns: usize,
    rows: usize,
    cell_of: C,
    in_region: R,
    far_enough: F,
)
    requires
        points.len() == cells.len(),
        turned_down(points, cells, cand, columns, rows, cell_of, in_region, far_enough),
    ensures
        turned_down(points.push(p), cells.push(cell), cand, columns, rows, cell_of, in_region, far_enough),
{
    let answer = choose|answer: Option<(usize, usize)>|
        refused(points, cells, cand, answer, columns, rows, cell_of, in_region, far_enough);
    let more = points.push(p);
    let wider = cells.push(cell);
    if let Some(c) = answer {
        if c.0 >= columns || c.1 >= rows {
        } else if !free(cells, c) {
            let i = choose|i: int| 0 <= i < cells.len() && cells[i] == c;
            assert(wider[i] == c);
        } else if call_ensures(in_region, (&cand,), false) {
        } else {
            let j = choose|j: int|
                0 <= j < points.len() && near(#[trigger] cells[j], c) && call_ensures(
                    far_enough,
                    (&cand, &points[j]),
                    false,
                );
            assert(wider[j] == cells[j] && more[j] == points[j]);
            assert(0 <= j < more.len() && near(wider[j], c) && call_ensures(far_enough, (&cand, &more[j]), false));
        }
    }
    assert(refused(more, wider, cand, answer, columns, rows, cell_of, in_region, far_enough));
}

/// A point that is done with stays so when a point joins.
pub proof fn lemma_exhausted_for_good<
    P,
    G: Fn(&P, u64, u64) -> P,
    C: Fn(&P) -> Option<(usize, usize)>,
    R: Fn(&P) -> bool,
    F: Fn(&P, &P) -> bool,
>(
    points: Seq<P>,
    cells: Seq<(usize, usize)>,
    p: P,
    cell: (usize, usize),
    i: int,
    attempts: usize,
    columns: usize,
    rows: usize,
    place: G,
    cell_of: C,
    in_region: R,
    far_enough: F,
)
    requires
        points.len() == cells.len(),
        0 <= i < points.len(),
        exhausted(points, cells, i, attempts, columns, rows, place, cell_of, in_region, far_enough),
    ensures
        exhausted(
            points.push(p),
            cells.push(cell),
            i,
            attempts,
            columns,
            rows,
            place,
            cell_of,
            in_region,
            far_enough,
        ),
{
    let tries = choose|tries: Seq<P>|
        all_turned_down(tries, points, cells, i, attempts, columns, rows, place, cell_of, in_region, far_enough);
    let more = points.push(p);
    let wider = cells.push(cell);
    assert forall|t: int| 0 <= t < tries.len() implies {
        &&& made_around(place, more[i], #[trigger] tries[t])
        &&& turned_down(more, wider, tries[t], columns, rows, cell_of, in_region, far_enough)
    } by {
        assert(more[i] == points[i]);
        lemma_turned_down_for_good(points, cells, p, cell, tries[t], columns, rows, cell_of, in_region, far_enough);
    }
    assert(all_turned_down(tries, more, wider, i, attempts, columns, rows, place, cell_of, in_region, far_enough));
}

/// Every point is active or done with.
pub open spec fn settled_but<
    P,
    G: Fn(&P, u64, u64) -> P,
    C: Fn(&P) -> Option<(usize, usize)>,
    R: Fn(&P) -> bool,
    F: Fn(&P, &P) -> bool,
>(
    active: Seq<usize>,
    points: Seq<P>,
    cells: Seq<(usize, usize)>,
    attempts: usize,
    columns: usize,
    rows: usize,
    place: G,
    cell_of: C,
    in_region: R,
    far_enough: F,
) -> bool {
    forall|i: int|
        0 <= i < points.len() ==> active.contains(i as usize) || #[trigger] exhausted(
            points,
            cells,
            i,
            attempts,
            columns,
            rows,
            place,
            cell_of,
            in_region,
            far_enough,
        )
}

/// A new point joins and becomes active: the others are as they were.
proof fn lemma_settled_but_after_accept<
    P,
    G: Fn(&P, u64, u64) -> P,
    C: Fn(&P) -> Option<(usize, usize)>,
    R: Fn(&P) -> bool,
    F: Fn(&P, &P) -> bool,
>(
    active: Seq<usize>,
    points: Seq<P>,
    cells: Seq<(usize, usize)>,
    p: P,
    cell: (usize, usize),
    attempts: usize,
    columns: usize,
    rows: usize,
    place: G,
    cell_of: C,
    in_region: R,
    far_enough: F,
)
    requires
        points.len() == cells.len(),
        points.len() < usize::MAX,
        settled_but(active, points, cells, attempts, columns, rows, place, cell_of, in_region, far_enough),
    ensures
        settled_but(
            active.push(points.len() as usize),
            points.push(p),
            cells.push(cell),
            attempts,
            columns,
            rows,
            place,
            cell_of,
            in_region,
            far_enough,
        ),
{
    let n = points.len() as usize;
    let more = points.push(p);
    let wider = cells.push(cell);
    let longer = active.push(n);
    assert forall|i: int| 0 <= i < more.len() implies longer.contains(i as usize) || #[trigger] exhausted(
        more,
        wider,
        i,
        attempts,
        columns,
        rows,
        place,
        cell_of,
        in_region,
        far_enough,
    ) by {
        if i == n {
            assert(longer[active.len() as int] == n);
        } else if active.contains(i as usize) {
            let k = choose|k: int| 0 <= k < active.len() && active[k] == i as usize;
            assert(longer[k] == i as usize);
        } else {
            assert(exhausted(points, cells, i, attempts, columns, rows, place, cell_of, in_region, far_enough));
            lemma_exhausted_for_good(
                points,
                cells,
                p,
                cell,
                i,
                attempts,
                columns,
                rows,
                place,
                cell_of,
                in_region,
                far_enough,
            );
        }
    }
}

/// A point that is done with leaves the active list: the others are as
/// they were.
proof fn lemma_settled_but_after_retire<
    P,
    G: Fn(&P, u64, u64) -> P,
    C: Fn(&P) -> Option<(usize, usize)>,
    R: Fn(&P) -> bool,
    F: Fn(&P, &P) -> bool,
>(
    active: Seq<usize>,
    k: int,
    points: Seq<P>,
    cells: Seq<(usize, usize)>,
    attempts: usize,
    columns: usize,
    rows: usize,
    place: G,
    cell_of: C,
    in_region: R,
    far_enough: F,
)
    requires
        0 <= k < active.len(),
        points.len() <= usize::MAX,
        settled_but(active, points, cells, attempts, columns, rows, place, cell_of, in_region, far_enough),
        exhausted(points, cells, active[k] as int, attempts, columns, rows, place, cell_of, in_region, far_enough),
    ensures
        settled_but(active.remove(k), points, cells, attempts, columns, rows, place, cell_of, in_region, far_enough),
{
    let shorter = active.remove(k);
    assert forall|i: int| 0 <= i < points.len() implies shorter.contains(i as usize) || #[trigger] exhausted(
        points,
        cells,
        i,
        attempts,
        columns,
        rows,
        place,
        cell_of,
        in_region,
        far_enough,
    ) by {
        if active.contains(i as usize) && i as usize != active[k] {
            let m = choose|m: int| 0 <= m < active.len() && active[m] == i as usize;
            if m < k {
                assert(shorter[m] == i as usize);
            } else {
                assert(shorter[m - 1] == i as usize);
            }
        }
    }
}

/// Fills the region with points by Bridson's algorithm.
///
/// The points that `points` holds at the call are the seed: each gets its
/// cell and is active from the start; none is moved or removed. New points
/// are appended. For every active point that is picked, at most `attempts`
/// candidates are made, each from two words drawn in this order: first the
/// word for the angle, then the word for the radius. The pick itself is one
/// draw of a position in the active list.
///
/// Gives the cell of every point, by index. Every new point was made
/// around a point before it. When the sampler ends, no point is active:
/// around each, `attempts` candidates in a row were turned down.
/// Fails, and leaves the points as they were, when the grid has more cells
/// than the machine word counts or when a point of the seed has no cell in
/// the grid.
pub fn generate_blue_noise_cull<P, G, C, R, F>(
    rng: &mut MT19937_64,
    points: &mut Vec<P>,
    columns: usize,
    rows: usize,
    attempts: usize,
    place: G,
    cell_of: C,
    in_region: R,
    far_enough: F,
) -> (res: Result<Vec<(usize, usize)>, MeshError>) where
    G: Fn(&P, u64, u64) -> P,
    C: Fn(&P) -> Option<(usize, usize)>,
    R: Fn(&P) -> bool,
    F: Fn(&P, &P) -> bool,

    requires
        forall|p: &P, a: u64, b: u64| call_requires(place, (p, a, b)),
        forall|p: &P| call_requires(cell_of, (p,)),
        forall|p: &P| call_requires(in_region, (p,)),
        forall|p: &P, q: &P| call_requires(far_enough, (p, q)),
    ensures
        match res {
            Ok(cells) => {
                &&& grown(old(points)@, final(points)@, cells@, columns, rows, cell_of, in_region, far_enough)
                &&& final(points)@.len() - old(points)@.len() <= columns * rows
                &&& all_sprung(place, final(points)@, old(points)@.len() as int)
                &&& forall|i: int|
                    0 <= i < final(points)@.len() ==> #[trigger] exhausted(
                        final(points)@,
                        cells@,
                        i,
                        attempts,
                        columns,
                        rows,
                        place,
                        cell_of,
                        in_region,
                        far_enough,
                    )
            },
            Err(e) => {
                &&& e == MeshError::InvalidConfiguration
                &&& final(points)@ == old(points)@
                &&& columns * rows > usize::MAX || exists|i: int, answer: Option<(usize, usize)>|
                    0 <= i < old(points)@.len() && call_ensures(cell_of, (&#[trigger] old(points)@[i],), answer)
                        && !(answer matches Some(cell) && cell.0 < columns && cell.1 < rows)
            },
        },
{
    let ghost before = points@;
    let mut sampler = match Sampler::new(columns, rows) {
        None => {
            return Err(MeshError::InvalidConfiguration);
        },
        Some(sampler) => sampler,
    };
    let seeds = points.len();
    let mut i: usize = 0;
    while i < seeds
        invariant
            i <= seeds,
            seeds == points@.len(),
            points@ == before,
            sampler.wf(),
            sampler.columns() == columns,
            sampler.rows() == rows,
            sampler.cells().len() == i,
            sampler.vacancies() <= columns * rows,
            forall|p: &P| call_requires(cell_of, (p,)),
            forall|t: int| 0 <= t < i ==> located(cell_of, #[trigger] points@[t], sampler.cells()[t], columns, rows),
            forall|t: usize| t < i ==> sampler.active().contains(t),
        decreases seeds - i,
    {
        let answer = cell_of(&points[i]);
        match answer {
            Some(cell) => {
                if cell.0 < columns && cell.1 < rows {
                    let ghost cells = sampler.cells();
                    let ghost active = sampler.active();
                    sampler.accept(cell.0, cell.1);
                    assert forall|t: int| 0 <= t < i + 1 implies located(
                        cell_of,
                        #[trigger] points@[t],
                        sampler.cells()[t],
                        columns,
                        rows,
                    ) by {
                        if t < i {
                            assert(sampler.cells()[t] == cells[t]);
                        }
                    }
                    assert forall|t: usize| t < i + 1 implies sampler.active().contains(t) by {
                        if t < i {
                            assert(active.contains(t));
                            let k = choose|k: int| 0 <= k < active.len() && active[k] == t;
                            assert(sampler.active()[k] == t);
                        } else {
                            assert(sampler.active()[active.len() as int] == i);
                        }
                    }
                } else {
                    return Err(MeshError::InvalidConfiguration);
                }
            },
            None => {
                return Err(MeshError::InvalidConfiguration);
            },
        }
        i += 1;
    }
    while sampler.active_count() > 0
        invariant
            sampler.wf(),
            sampler.columns() == columns,
            sampler.rows() == rows,
            grown(before, points@, sampler.cells(), columns, rows, cell_of, in_region, far_enough),
            points@.len() - before.len() + sampler.vacancies() <= columns * rows,
            all_sprung(place, points@, before.len() as int),
            settled_but(
                sampler.active(),
                points@,
                sampler.cells(),
                attempts,
                columns,
                rows,
                place,
                cell_of,
                in_region,
                far_enough,
            ),
            forall|p: &P, a: u64, b: u64| call_requires(place, (p, a, b)),
            forall|p: &P| call_requires(cell_of, (p,)),
            forall|p: &P| call_requires(in_region, (p,)),
            forall|p: &P, q: &P| call_requires(far_enough, (p, q)),
        decreases sampler.vacancies(), sampler.active().len(),
    {
        let k = draw_index(rng, sampler.active_count());
        let around = sampler.pick(k);
        let ghost vacancies = sampler.vacancies();
        let ghost active = sampler.active();
        let ghost tries: Seq<P> = Seq::empty();
        let mut made: usize = 0;
        let mut placed = false;
        while made < attempts && !placed
            invariant
                made <= attempts,
                sampler.wf(),
                sampler.columns() == columns,
                sampler.rows() == rows,
                grown(before, points@, sampler.cells(), columns, rows, cell_of, in_region, far_enough),
                points@.len() - before.len() + sampler.vacancies() <= columns * rows,
                all_sprung(place, points@, before.len() as int),
                settled_but(
                    sampler.active(),
                    points@,
                    sampler.cells(),
                    attempts,
                    columns,
                    rows,
                    place,
                    cell_of,
                    in_region,
                    far_enough,
                ),
                around < points@.len(),
                !placed ==> sampler.vacancies() == vacancies && sampler.active() == active,
                placed ==> sampler.vacancies() < vacancies,
                k < active.len(),
                around == active[k as int],
                !placed ==> tries.len() == made,
                !placed ==> forall|t: int|
                    0 <= t < tries.len() ==> {
                        &&& made_around(place, points@[around as int], #[trigger] tries[t])
                        &&& turned_down(
                            points@,
                            sampler.cells(),
                            tries[t],
                            columns,
                            rows,
                            cell_of,
                            in_region,
                            far_enough,
                        )
                    },
                forall|p: &P, a: u64, b: u64| call_requires(place, (p, a, b)),
                forall|p: &P| call_requires(cell_of, (p,)),
                forall|p: &P| call_requires(in_region, (p,)),
                forall|p: &P, q: &P| call_requires(far_enough, (p, q)),
            decreases attempts - made,
        {
            let angle = draw_word(rng);
            let radius = draw_word(rng);
            let cand = place(&points[around], angle, radius);
            made += 1;
            assert(made_around(place, points@[around as int], cand));
            match try_candidate(&sampler, points, &cand, &cell_of, &in_region, &far_enough) {
                None => {
                    proof {
                        let ghost so_far = tries;
                        tries = tries.push(cand);
                        assert(turned_down(
                            points@,
                            sampler.cells(),
                            cand,
                            columns,
                            rows,
                            cell_of,
                            in_region,
                            far_enough,
                        ));
                        assert forall|t: int| 0 <= t < tries.len() implies {
                            &&& made_around(place, points@[around as int], #[trigger] tries[t])
                            &&& turned_down(
                                points@,
                                sampler.cells(),
                                tries[t],
                                columns,
                                rows,
                                cell_of,
                                in_region,
                                far_enough,
                            )
                        } by {
                            if t < so_far.len() {
                                assert(tries[t] == so_far[t]);
                            }
                        }
                    }
                },
                Some(cell) => {
                    let ghost earlier = points@;
                    let ghost cells = sampler.cells();
                    proof {
                        sampler.lemma_wf();
                        assert(sampler.vacant(cell.0 as int, cell.1 as int));
                    }
                    points.push(cand);
                    assert(earlier.len() < points.len());
                    sampler.accept(cell.0, cell.1);
                    placed = true;
                    proof {
                        lemma_sprung_by_one(place, earlier, around as int, cand, before.len() as int);
                        lemma_settled_but_after_accept(
                            active,
                            earlier,
                            cells,
                            cand,
                            cell,
                            attempts,
                            columns,
                            rows,
                            place,
                            cell_of,
                            in_region,
                            far_enough,
                        );
                        lemma_grown_by_one(
                            before,
                            earlier,
                            cells,
                            cand,
                            cell,
                            columns,
                            rows,
                            cell_of,
                            in_region,
                            far_enough,
                        );
                    }
                },
            }
        }
        if !placed {
            proof {
                sampler.lemma_wf();
                assert(all_turned_down(
                    tries,
                    points@,
                    sampler.cells(),
                    around as int,
                    attempts,
                    columns,
                    rows,
                    place,
                    cell_of,
                    in_region,
                    far_enough,
                ));
                lemma_settled_but_after_retire(
                    active,
                    k as int,
                    points@,
                    sampler.cells(),
                    attempts,
                    columns,
                    rows,
                    place,
                    cell_of,
                    in_region,
                    far_enough,
                );
            }
            sampler.retire(k);
        }
    }
    proof {
        assert forall|i: int| 0 <= i < points@.len() implies #[trigger] exhausted(
            points@,
            sampler.cells(),
            i,
            attempts,
            columns,
            rows,
            place,
            cell_of,
            in_region,
            far_enough,
        ) by {
            sampler.lemma_wf();
            assert(!sampler.active().contains(i as usize));
        }
    }
    let cells = sampler.into_cells();
    Ok(cells)
}

/// An admissible candidate may join: the point set has grown by it.
proof fn lemma_grown_by_one<P, C: Fn(&P) -> Option<(usize, usize)>, R: Fn(&P) -> bool, F: Fn(&P, &P) -> bool>(
    before: Seq<P>,
    points: Seq<P>,
    cells: Seq<(usize, usize)>,
    cand: P,
    cell: (usize, usize),
    columns: usize,
    rows: usize,
    cell_of: C,
    in_region: R,
    far_enough: F,
)
    requires
        grown(before, points, cells, columns, rows, cell_of, in_region, far_enough),
        admissible(points, cells, cand, cell, columns, rows, cell_of, in_region, far_enough),
    ensures
        grown(before, points.push(cand), cells.push(cell), columns, rows, cell_of, in_region, far_enough),
{
    let now = points.push(cand);
    let where_ = cells.push(cell);
    let n = points.len() as int;
    assert forall|i: int| 0 <= i < now.len() implies located(cell_of, #[trigger] now[i], where_[i], columns, rows) by {
        if i < n {
            assert(now[i] == points[i] && where_[i] == cells[i]);
        }
    }
    assert forall|i: int| before.len() <= i < now.len() implies call_ensures(
        in_region,
        (&#[trigger] now[i],),
        true,
    ) by {
        if i < n {
            assert(now[i] == points[i]);
        }
    }
    assert forall|i: int, j: int| before.len() <= i < now.len() && 0 <= j < i implies #[trigger] where_[i]
        != #[trigger] where_[j] by {
        assert(where_[j] == cells[j]);
        if i < n {
            assert(where_[i] == cells[i]);
        }
    }
    assert forall|i: int, j: int|
        before.len() <= i < now.len() && 0 <= j < i && near(#[trigger] where_[i], #[trigger] where_[j]) implies call_ensures(
        far_enough,
        (&now[i], &now[j]),
        true,
    ) by {
        assert(where_[j] == cells[j] && now[j] == points[j]);
        if i < n {
            assert(where_[i] == cells[i] && now[i] == points[i]);
        } else {
            assert(near(cells[j], cell));
        }
    }
    assert forall|i: int| 0 <= i < before.len() implies #[trigger] now[i] == before[i] by {
        assert(now[i] == points[i]);
    }
}

} // verus!
