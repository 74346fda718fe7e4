//! Laplacian relaxation of the free vertices.
//!
//! A sweep visits the free vertices in increasing order of their index and
//! moves each to the centroid of its neighbours, reading the neighbours
//! where they are at that moment: a neighbour with a smaller index has
//! already moved in the same sweep. The fixed vertices, which come first in
//! the point set, are never moved.
//!
//! The arithmetic is the caller's. `centroid(points, list)` gives the mean
//! of the points that `list` names; `settled(from, points)` says whether a
//! sweep changed so little that relaxation may stop, given the places that
//! the free vertices left and the point set after the sweep.

use vstd::prelude::*;
use crate::adjacency::AdjacencyTable;
use crate::error::MeshError;

verus! {

/// The index of the first free vertex among `len` points, of which the
/// first `n_fixed` are fixed: `len` where all are.
pub open spec fn first_free(n_fixed: usize, len: nat) -> nat {
    if n_fixed <= len {
        n_fixed as nat
    } else {
        len
    }
}

/// The table is one for `len` points, and each of the free vertices has a
/// neighbour.
pub open spec fn fit(lists: Seq<Seq<usize>>, len: nat, n_fixed: usize) -> bool {
    &&& lists.len() == len
    &&& forall|v: int| n_fixed <= v < len ==> (#[trigger] lists[v]).len() > 0
}

/// The error that a table that does not fit is met with: a table for
/// another number of points is a wrong configuration, and otherwise the
/// first free vertex without a neighbour is named.
pub open spec fn unfit(e: MeshError, lists: Seq<Seq<usize>>, len: nat, n_fixed: usize) -> bool {
    if lists.len() != len {
        e == MeshError::InvalidConfiguration
    } else {
        exists|v: usize|
            {
                &&& e == (MeshError::DegenerateVertex { vertex: v })
                &&& n_fixed <= v < len
                &&& (#[trigger] lists[v as int]).len() == 0
                &&& forall|u: int| n_fixed <= u < v ==> (#[trigger] lists[u]).len() > 0
            }
    }
}

/// `centroid` may be asked for the mean of any non-empty list of points
/// that exist.
pub open spec fn may_average<P, M: Fn(&Vec<P>, &Vec<usize>) -> P>(centroid: M) -> bool {
    forall|points: &Vec<P>, list: &Vec<usize>|
        list@.len() > 0 && (forall|t: int| 0 <= t < list@.len() ==> #[trigger] list@[t] < points@.len())
            ==> call_requires(centroid, (points, list))
}

/// `settled` may be asked about any sweep: `from` holds one place for each
/// free vertex.
pub open spec fn may_judge<P, S: Fn(&Vec<P>, &Vec<P>) -> bool>(settled: S, n_fixed: usize) -> bool {
    forall|from: &Vec<P>, points: &Vec<P>|
        from@.len() + first_free(n_fixed, points@.len()) == points@.len() ==> call_requires(settled, (from, points))
}

/// `q` is what `centroid` gave for the points `state` and the list `list`.
pub open spec fn averaged<P, M: Fn(&Vec<P>, &Vec<usize>) -> P>(
    centroid: M,
    state: Seq<P>,
    list: Seq<usize>,
    q: P,
) -> bool {
    exists|points: Vec<P>, names: Vec<usize>|
        points@ == state && names@ == list && #[trigger] call_ensures(centroid, (&points, &names), q)
}

/// `verdict` is what `settled` said of the sweep from `start` to `end`.
pub open spec fn judged<P, S: Fn(&Vec<P>, &Vec<P>) -> bool>(
    settled: S,
    start: Seq<P>,
    end: Seq<P>,
    n_fixed: usize,
    verdict: bool,
) -> bool {
    exists|from: Vec<P>, points: Vec<P>|
        from@ == start.skip(first_free(n_fixed, start.len()) as int) && points@ == end && #[trigger] call_ensures(
            settled,
            (&from, &points),
            verdict,
        )
}

/// `end` is one sweep after `start`: the fixed vertices are where they
/// were, and each free vertex is at the centroid of its neighbours, taken
/// with the vertices before it already moved and the others not yet.
pub open spec fn relaxed<P, M: Fn(&Vec<P>, &Vec<usize>) -> P>(
    start: Seq<P>,
    end: Seq<P>,
    lists: Seq<Seq<usize>>,
    n_fixed: usize,
    centroid: M,
) -> bool {
    &&& end.len() == start.len()
    &&& forall|i: int| 0 <= i < end.len() && i < n_fixed ==> #[trigger] end[i] == start[i]
    &&& forall|i: int|
        n_fixed <= i < end.len() ==> averaged(
            centroid,
            end.take(i) + start.skip(i),
            lists[i],
            #[trigger] end[i],
        )
}

/// Whether the table fits a set of `len` points with `n_fixed` fixed ones.
pub fn check(table: &AdjacencyTable, len: usize, n_fixed: usize) -> (res: Result<(), MeshError>)
    ensures
        match res {
            Ok(_) => fit(table@, len as nat, n_fixed),
            Err(e) => unfit(e, table@, len as nat, n_fixed),
        },
{
    if table.len() != len {
        return Err(MeshError::InvalidConfiguration);
    }
    match table.first_isolated(n_fixed) {
        Some(v) => Err(MeshError::DegenerateVertex { vertex: v }),
        None => Ok(()),
    }
}

/// One sweep over the free vertices, given that the table fits. Gives the
/// places that the free vertices left, in the order of the vertices.
fn sweep_fit<P, M>(points: &mut Vec<P>, table: &AdjacencyTable, n_fixed: usize, centroid: &M) -> (from: Vec<P>) where
    M: Fn(&Vec<P>, &Vec<usize>) -> P,

    requires
        fit(table@, old(points)@.len(), n_fixed),
        may_average(*centroid),
    ensures
        relaxed(old(points)@, final(points)@, table@, n_fixed, *centroid),
        from@ == old(points)@.skip(first_free(n_fixed, old(points)@.len()) as int),
{
    let ghost start = points@;
    let len = points.len();
    let first = if n_fixed <= len {
        n_fixed
    } else {
        len
    };
    let mut from: Vec<P> = Vec::new();
    let mut i: usize = first;
    while i < len
        invariant
            first == first_free(n_fixed, len as nat),
            first <= i <= len,
            len == start.len(),
            points@.len() == len,
            fit(table@, len as nat, n_fixed),
            may_average(*centroid),
            forall|t: int| 0 <= t < first ==> #[trigger] points@[t] == start[t],
            forall|t: int| i <= t < len ==> #[trigger] points@[t] == start[t],
            forall|v: int|
                first <= v < i ==> averaged(*centroid, points@.take(v) + start.skip(v), table@[v], #[trigger] points@[v]),
            from@ == start.subrange(first as int, i as int),
        decreases len - i,
    {
        let list = table.neighbours(i);
        let ghost held = *points;
        let ghost prev = points@;
        assert(table@[i as int].len() > 0);
        assert forall|t: int| 0 <= t < list@.len() implies #[trigger] list@[t] < points@.len() by {
            assert(table@[i as int][t] < table@.len());
        }
        let q = centroid(points, list);
        points.push(q);
        let left = points.swap_remove(i);
        from.push(left);
        proof {
            assert(points@ =~= prev.update(i as int, q));
            assert(prev.take(i as int) + start.skip(i as int) =~= prev);
            assert(points@.take(i as int) =~= prev.take(i as int));
            assert(held@ == points@.take(i as int) + start.skip(i as int));
            assert(averaged(*centroid, points@.take(i as int) + start.skip(i as int), table@[i as int], q)) by {
                assert(held@ == points@.take(i as int) + start.skip(i as int) && list@ == table@[i as int]
                    && call_ensures(*centroid, (&held, list), q));
            }
            assert forall|v: int| first <= v < i + 1 implies averaged(
                *centroid,
                points@.take(v) + start.skip(v),
                table@[v],
                #[trigger] points@[v],
            ) by {
                if v < i {
                    assert(points@.take(v) =~= prev.take(v));
                    assert(points@[v] == prev[v]);
                }
            }
            assert(from@ =~= start.subrange(first as int, i + 1));
        }
        i += 1;
    }
    proof {
        assert(from@ =~= start.skip(first as int));
    }
    from
}

/// One sweep over the free vertices.
///
/// Gives the places that the free vertices left, in the order of the
/// vertices. Fails, and moves nothing, when the table is for another number
/// of points or a free vertex has no neighbour.
pub fn sweep<P, M>(points: &mut Vec<P>, table: &AdjacencyTable, n_fixed: usize, centroid: &M) -> (res: Result<
    Vec<P>,
    MeshError,
>) where M: Fn(&Vec<P>, &Vec<usize>) -> P
    requires
        may_average(*centroid),
    ensures
        match res {
            Ok(from) => {
                &&& fit(table@, old(points)@.len(), n_fixed)
                &&& relaxed(old(points)@, final(points)@, table@, n_fixed, *centroid)
                &&& from@ == old(points)@.skip(first_free(n_fixed, old(points)@.len()) as int)
            },
            Err(e) => unfit(e, table@, old(points)@.len(), n_fixed) && final(points)@ == old(points)@,
        },
{
    match check(table, points.len(), n_fixed) {
        Err(e) => Err(e),
        Ok(_) => Ok(sweep_fit(points, table, n_fixed, centroid)),
    }
}

/// The states of a relaxation that made `sweeps` sweeps: it starts at
/// `start` and ends at `end`, each state is one sweep after the one
/// before, no sweep but the last was found settled, and the last one was
/// unless the cap of `max_sweeps` was reached.
pub open spec fn relaxation<P, M: Fn(&Vec<P>, &Vec<usize>) -> P, S: Fn(&Vec<P>, &Vec<P>) -> bool>(
    states: Seq<Seq<P>>,
    start: Seq<P>,
    end: Seq<P>,
    sweeps: usize,
    max_sweeps: usize,
    lists: Seq<Seq<usize>>,
    n_fixed: usize,
    centroid: M,
    settled: S,
) -> bool {
    &&& states.len() == sweeps + 1
    &&& states[0] == start
    &&& states[sweeps as int] == end
    &&& sweeps <= max_sweeps
    &&& (sweeps == 0 <==> max_sweeps == 0)
    &&& forall|s: int| 0 <= s < sweeps ==> relaxed(#[trigger] states[s], states[s + 1], lists, n_fixed, centroid)
    &&& forall|s: int| 0 <= s < sweeps - 1 ==> judged(settled, #[trigger] states[s], states[s + 1], n_fixed, false)
    &&& 0 < sweeps < max_sweeps ==> judged(settled, states[sweeps - 1], states[sweeps as int], n_fixed, true)
}

/// `end` is what a relaxation of `sweeps` sweeps made of `start`.
pub open spec fn smoothed<P, M: Fn(&Vec<P>, &Vec<usize>) -> P, S: Fn(&Vec<P>, &Vec<P>) -> bool>(
    start: Seq<P>,
    end: Seq<P>,
    sweeps: usize,
    max_sweeps: usize,
    lists: Seq<Seq<usize>>,
    n_fixed: usize,
    centroid: M,
    settled: S,
) -> bool {
    exists|states: Seq<Seq<P>>|
        relaxation(states, start, end, sweeps, max_sweeps, lists, n_fixed, centroid, settled)
}

/// Relaxes the free vertices: sweep after sweep, until one is found
/// settled or `max_sweeps` were made. Gives the number of sweeps made.
///
/// Fails before anything is moved when the table is for another number of
/// points, or when a free vertex has no neighbour; the error names the
/// first such vertex.
pub fn smooth<P, M, S>(
    points: &mut Vec<P>,
    table: &AdjacencyTable,
    n_fixed: usize,
    max_sweeps: usize,
    centroid: M,
    settled: S,
) -> (res: Result<usize, MeshError>) where M: Fn(&Vec<P>, &Vec<usize>) -> P, S: Fn(&Vec<P>, &Vec<P>) -> bool
    requires
        may_average(centroid),
        may_judge(settled, n_fixed),
    ensures
        final(points)@.len() == old(points)@.len(),
        forall|i: int| 0 <= i < old(points)@.len() && i < n_fixed ==> #[trigger] final(points)@[i] == old(points)@[i],
        match res {
            Ok(sweeps) => {
                &&& fit(table@, old(points)@.len(), n_fixed)
                &&& smoothed(
                    old(points)@,
                    final(points)@,
                    sweeps,
                    max_sweeps,
                    table@,
                    n_fixed,
                    centroid,
                    settled,
                )
            },
            Err(e) => unfit(e, table@, old(points)@.len(), n_fixed) && final(points)@ == old(points)@,
        },
{
    let ghost start = points@;
    match check(table, points.len(), n_fixed) {
        Err(e) => {
            return Err(e);
        },
        Ok(_) => {},
    }
    let ghost mut states: Seq<Seq<P>> = seq![start];
    let mut sweeps: usize = 0;
    let mut done = false;
    while sweeps < max_sweeps && !done
        invariant
            points@.len() == start.len(),
            fit(table@, start.len(), n_fixed),
            may_average(centroid),
            may_judge(settled, n_fixed),
            sweeps <= max_sweeps,
            states.len() == sweeps + 1,
            states[0] == start,
            states[sweeps as int] == points@,
            done ==> sweeps > 0,
            forall|i: int| 0 <= i < start.len() && i < n_fixed ==> #[trigger] points@[i] == start[i],
            forall|s: int| 0 <= s < sweeps ==> relaxed(#[trigger] states[s], states[s + 1], table@, n_fixed, centroid),
            forall|s: int|
                0 <= s < sweeps - 1 ==> judged(settled, #[trigger] states[s], states[s + 1], n_fixed, false),
            sweeps > 0 ==> judged(settled, states[sweeps - 1], states[sweeps as int], n_fixed, done),
        decreases max_sweeps - sweeps,
    {
        let ghost earlier = points@;
        let ghost so_far = states;
        let from = sweep_fit(points, table, n_fixed, &centroid);
        let verdict = settled(&from, points);
        proof {
            states = states.push(points@);
            assert(judged(settled, earlier, points@, n_fixed, verdict)) by {
                assert(from@ == earlier.skip(first_free(n_fixed, earlier.len()) as int) && (*points)@ == points@
                    && call_ensures(settled, (&from, &*points), verdict));
            }
            assert forall|s: int| 0 <= s < sweeps + 1 implies relaxed(
                #[trigger] states[s],
                states[s + 1],
                table@,
                n_fixed,
                centroid,
            ) by {
                if s < sweeps {
                    assert(states[s] == so_far[s] && states[s + 1] == so_far[s + 1]);
                }
            }
            assert forall|s: int| 0 <= s < sweeps implies judged(
                settled,
                #[trigger] states[s],
                states[s + 1],
                n_fixed,
                false,
            ) by {
                assert(states[s] == so_far[s] && states[s + 1] == so_far[s + 1]);
            }
        }
        sweeps += 1;
        done = verdict;
    }
    proof {
        assert(relaxation(states, start, points@, sweeps, max_sweeps, table@, n_fixed, centroid, settled));
        assert(smoothed(start, points@, sweeps, max_sweeps, table@, n_fixed, centroid, settled));
    }
    Ok(sweeps)
}

} // verus!
