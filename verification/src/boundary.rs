//! The fixed vertices on the two boundary circles.
//!
//! Each circle gets a number of vertices, evenly spaced by angle and
//! starting at angle zero. The inner circle comes first in the point set,
//! then the outer one. These vertices are never moved afterwards, and their
//! number is what the other stages know as the number of fixed vertices.
//!
//! How many vertices a circle gets follows from its radius and the target
//! spacing, and where the `i`-th of `k` lies is trigonometry: both are the
//! caller's, who hands over the two counts and a function `vertex(ring, i,
//! k)` for the `i`-th of the `k` vertices of ring 0 (inner) or 1 (outer).

use vstd::prelude::*;
use crate::error::MeshError;

verus! {

/// `vertex` may be asked for each vertex of each of the two rings.
pub open spec fn may_place<P, V: Fn(usize, i32, i32) -> P>(vertex: V) -> bool {
    forall|ring: usize, i: i32, k: i32| ring < 2 && 0 <= i < k ==> call_requires(vertex, (ring, i, k))
}

/// The `k` points of `points` from position `from` on are the vertices of
/// the ring `ring`, in their order.
pub open spec fn ring_at<P, V: Fn(usize, i32, i32) -> P>(
    points: Seq<P>,
    from: int,
    ring: usize,
    k: i32,
    vertex: V,
) -> bool {
    forall|t: int| from <= t < from + k ==> call_ensures(vertex, (ring, (t - from) as i32, k), #[trigger] points[t])
}

/// Appends the `k` vertices of one ring.
fn seed_ring<P, V>(points: &mut Vec<P>, ring: usize, k: i32, vertex: &V) where V: Fn(usize, i32, i32) -> P
    requires
        ring < 2,
        0 < k,
        may_place(*vertex),
    ensures
        final(points)@.len() == old(points)@.len() + k,
        forall|t: int| 0 <= t < old(points)@.len() ==> #[trigger] final(points)@[t] == old(points)@[t],
        ring_at(final(points)@, old(points)@.len() as int, ring, k, *vertex),
{
    let ghost before = points@;
    let mut i: i32 = 0;
    while i < k
        invariant
            ring < 2,
            0 <= i <= k,
            may_place(*vertex),
            points@.len() == before.len() + i,
            forall|t: int| 0 <= t < before.len() ==> #[trigger] points@[t] == before[t],
            forall|t: int|
                before.len() <= t < before.len() + i ==> call_ensures(
                    *vertex,
                    (ring, (t - before.len()) as i32, k),
                    #[trigger] points@[t],
                ),
        decreases k - i,
    {
        let p = vertex(ring, i, k);
        points.push(p);
        i += 1;
    }
}

/// Places the fixed vertices: `inner` on the inner circle, then `outer` on
/// the outer one. Gives the number of points after that, which is the
/// number of fixed vertices when the point set was empty before.
///
/// A circle without a vertex is a degenerate input, such as a radius or a
/// spacing that is not positive: it is refused before any point is placed.
pub fn seed_boundary<P, V>(points: &mut Vec<P>, inner: i32, outer: i32, vertex: V) -> (res: Result<
    usize,
    MeshError,
>) where V: Fn(usize, i32, i32) -> P
    requires
        may_place(vertex),
    ensures
        match res {
            Ok(n_fixed) => {
                &&& inner > 0
                &&& outer > 0
                &&& n_fixed == old(points)@.len() + inner + outer
                &&& final(points)@.len() == n_fixed
                &&& forall|t: int| 0 <= t < old(points)@.len() ==> #[trigger] final(points)@[t] == old(points)@[t]
                &&& ring_at(final(points)@, old(points)@.len() as int, 0, inner, vertex)
                &&& ring_at(final(points)@, old(points)@.len() + inner, 1, outer, vertex)
            },
            Err(e) => {
                &&& e == MeshError::InvalidConfiguration
                &&& inner <= 0 || outer <= 0
                &&& final(points)@ == old(points)@
            },
        },
{
    if inner <= 0 || outer <= 0 {
        return Err(MeshError::InvalidConfiguration);
    }
    let ghost before = points@;
    seed_ring(points, 0, inner, &vertex);
    let ghost between = points@;
    seed_ring(points, 1, outer, &vertex);
    proof {
        assert forall|t: int| before.len() <= t < before.len() + inner implies call_ensures(
            vertex,
            (0usize, (t - before.len()) as i32, inner),
            #[trigger] points@[t],
        ) by {
            assert(points@[t] == between[t]);
        }
    }
    Ok(points.len())
}

} // verus!
