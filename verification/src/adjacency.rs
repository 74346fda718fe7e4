//! Per-vertex neighbour lists derived from the faces of a triangulation.
//!
//! A face is a cycle of vertex indices. Two vertices are neighbours when
//! they follow one another on some face, in either direction. The table
//! holds, for every vertex, its neighbours in strictly increasing order.

use vstd::prelude::*;
use crate::error::MeshError;

verus! {

/// The rows of a nested vector as sequences.
pub open spec fn rows(v: Seq<Vec<usize>>) -> Seq<Seq<usize>> {
    Seq::new(v.len(), |i: int| v[i]@)
}

/// The vertex that follows position `k` on the cycle `face`.
pub open spec fn next_on(face: Seq<usize>, k: int) -> usize {
    face[(k + 1) % (face.len() as int)]
}

/// The edge that leaves position `k` of `face` has `a` and `b` as its ends.
pub open spec fn edge_joins(face: Seq<usize>, k: int, a: usize, b: usize) -> bool {
    (face[k] == a && next_on(face, k) == b) || (face[k] == b && next_on(face, k) == a)
}

/// One of the first `upto` edges of `face` joins `a` and `b`.
pub open spec fn face_joins_upto(face: Seq<usize>, upto: int, a: usize, b: usize) -> bool {
    exists|k: int| 0 <= k < upto && #[trigger] edge_joins(face, k, a, b)
}

/// `a` and `b` follow one another on `face`.
pub open spec fn face_joins(face: Seq<usize>, a: usize, b: usize) -> bool {
    face_joins_upto(face, face.len() as int, a, b)
}

/// One of the first `upto` faces joins `a` and `b`.
pub open spec fn joined_upto(faces: Seq<Seq<usize>>, upto: int, a: usize, b: usize) -> bool {
    exists|f: int| 0 <= f < upto && #[trigger] face_joins(faces[f], a, b)
}

/// `a` and `b` are neighbours in the triangulation `faces`.
pub open spec fn joined(faces: Seq<Seq<usize>>, a: usize, b: usize) -> bool {
    joined_upto(faces, faces.len() as int, a, b)
}

/// `a` is a vertex of one of the faces.
pub open spec fn appears(faces: Seq<Seq<usize>>, a: usize) -> bool {
    exists|f: int, k: int| 0 <= f < faces.len() && 0 <= k < faces[f].len() && #[trigger] faces[f][k] == a
}

/// A face is a cycle of at least three vertices of a set of `n` points.
pub open spec fn face_valid(face: Seq<usize>, n: nat) -> bool {
    &&& face.len() >= 3
    &&& forall|k: int| 0 <= k < face.len() ==> #[trigger] face[k] < n
}

/// Every face is valid over a set of `n` points.
pub open spec fn faces_valid(faces: Seq<Seq<usize>>, n: nat) -> bool {
    forall|f: int| 0 <= f < faces.len() ==> face_valid(#[trigger] faces[f], n)
}

/// No entry is followed by a smaller one.
pub open spec fn ascending(s: Seq<usize>) -> bool {
    forall|i: int, j: int| 0 <= i <= j < s.len() ==> s[i] <= s[j]
}

/// Every entry is followed by larger ones only.
pub open spec fn strictly_ascending(s: Seq<usize>) -> bool {
    forall|i: int, j: int| 0 <= i < j < s.len() ==> s[i] < s[j]
}

/// `s` with every entry dropped that repeats the entry just before it.
pub open spec fn without_repeats(s: Seq<usize>) -> Seq<usize>
    decreases s.len(),
{
    if s.len() <= 1 {
        s
    } else if s[s.len() - 2] == s.last() {
        without_repeats(s.drop_last())
    } else {
        without_repeats(s.drop_last()).push(s.last())
    }
}

proof fn lemma_push_contains(s: Seq<usize>, x: usize, y: usize)
    ensures
        s.push(x).contains(y) <==> (s.contains(y) || y == x),
{
    let t = s.push(x);
    if s.contains(y) {
        let i = choose|i: int| 0 <= i < s.len() && s[i] == y;
        assert(t[i] == y);
    }
    if y == x {
        assert(t[s.len() as int] == y);
    }
    if t.contains(y) {
        let i = choose|i: int| 0 <= i < t.len() && t[i] == y;
        if i < s.len() {
            assert(s[i] == y);
        }
    }
}

/// On an ascending sequence, dropping repeats leaves each value once, in
/// increasing order, and loses none.
proof fn lemma_without_repeats(s: Seq<usize>)
    requires
        ascending(s),
    ensures
        strictly_ascending(without_repeats(s)),
        forall|x: usize| without_repeats(s).contains(x) <==> s.contains(x),
        s.len() > 0 ==> without_repeats(s).len() > 0 && without_repeats(s).last() == s.last(),
    decreases s.len(),
{
    let r = without_repeats(s);
    if s.len() <= 1 {
    } else {
        let p = s.drop_last();
        let rp = without_repeats(p);
        assert(ascending(p)) by {
            assert forall|i: int, j: int| 0 <= i <= j < p.len() implies p[i] <= p[j] by {
                assert(p[i] == s[i] && p[j] == s[j]);
            }
        }
        lemma_without_repeats(p);
        assert(p.last() == s[s.len() - 2]);
        assert(s =~= p.push(s.last()));
        assert forall|x: usize| r.contains(x) <==> s.contains(x) by {
            lemma_push_contains(p, s.last(), x);
            lemma_push_contains(rp, s.last(), x);
            if s[s.len() - 2] == s.last() {
                assert(p.contains(s.last())) by {
                    assert(p[p.len() - 1] == s.last());
                }
            }
        }
        if s[s.len() - 2] != s.last() {
            assert forall|i: int, j: int| 0 <= i < j < r.len() implies r[i] < r[j] by {
                if j < rp.len() {
                    assert(r[i] == rp[i] && r[j] == rp[j]);
                } else {
                    assert(r[j] == s.last());
                    assert(r[i] == rp[i]);
                    assert(rp[i] <= rp.last()) by {
                        if i < rp.len() - 1 {
                            assert(rp[i] < rp[rp.len() - 1]);
                        }
                    }
                    assert(rp.last() == p.last());
                    assert(s[s.len() - 2] <= s[s.len() - 1]);
                }
            }
        }
    }
}

/// Two strictly ascending sequences with the same entries are equal.
pub proof fn lemma_ascending_unique(s: Seq<usize>, t: Seq<usize>)
    requires
        strictly_ascending(s),
        strictly_ascending(t),
        forall|x: usize| s.contains(x) <==> t.contains(x),
    ensures
        s == t,
    decreases s.len(),
{
    if s.len() == 0 {
        if t.len() > 0 {
            assert(t.contains(t[0]));
            assert(s.contains(t[0]));
        }
        assert(s =~= t);
    } else {
        assert(s.contains(s.last()));
        assert(t.contains(s.last()));
        assert(t.len() > 0);
        assert(t.contains(t.last()));
        assert(s.contains(t.last()));
        // the largest entries agree
        let i = choose|i: int| 0 <= i < t.len() && t[i] == s.last();
        let j = choose|j: int| 0 <= j < s.len() && s[j] == t.last();
        assert(s.last() <= t.last()) by {
            if i < t.len() - 1 {
                assert(t[i] < t[t.len() - 1]);
            }
        }
        assert(t.last() <= s.last()) by {
            if j < s.len() - 1 {
                assert(s[j] < s[s.len() - 1]);
            }
        }
        let sp = s.drop_last();
        let tp = t.drop_last();
        assert(strictly_ascending(sp)) by {
            assert forall|a: int, b: int| 0 <= a < b < sp.len() implies sp[a] < sp[b] by {
                assert(sp[a] == s[a] && sp[b] == s[b]);
            }
        }
        assert(strictly_ascending(tp)) by {
            assert forall|a: int, b: int| 0 <= a < b < tp.len() implies tp[a] < tp[b] by {
                assert(tp[a] == t[a] && tp[b] == t[b]);
            }
        }
        assert forall|x: usize| sp.contains(x) <==> tp.contains(x) by {
            if sp.contains(x) {
                let a = choose|a: int| 0 <= a < sp.len() && sp[a] == x;
                assert(s[a] == x);
                assert(s[a] < s[s.len() - 1]);
                assert(s.contains(x));
                let b = choose|b: int| 0 <= b < t.len() && t[b] == x;
                assert(b < t.len() - 1);
                assert(tp[b] == x);
            }
            if tp.contains(x) {
                let b = choose|b: int| 0 <= b < tp.len() && tp[b] == x;
                assert(t[b] == x);
                assert(t[b] < t[t.len() - 1]);
                assert(t.contains(x));
                let a = choose|a: int| 0 <= a < s.len() && s[a] == x;
                assert(a < s.len() - 1);
                assert(sp[a] == x);
            }
        }
        lemma_ascending_unique(sp, tp);
        assert(s =~= sp.push(s.last()));
        assert(t =~= tp.push(t.last()));
    }
}

/// Puts a list of indices in ascending order.
///
/// Calls `sort` of the standard slice. Its documentation promises a
/// reordering of the same entries after which no entry is followed by a
/// smaller one; that is what is claimed here, and it is not proved.
#[verifier::external_body]
fn sort_indices(list: &mut Vec<usize>)
    ensures
        final(list)@.to_multiset() == old(list)@.to_multiset(),
        ascending(final(list)@),
{
    list.sort();
}

/// Drops every entry that repeats the one before it.
///
/// Calls `dedup` of the standard `Vec`. Its documentation promises that
/// consecutive repeated entries are removed and the first of each run is
/// kept; that is what is claimed here, and it is not proved.
#[verifier::external_body]
fn dedup_indices(list: &mut Vec<usize>)
    ensures
        final(list)@ == without_repeats(old(list)@),
{
    list.dedup();
}

/// For every vertex of a point set, its neighbours in the triangulation.
pub struct AdjacencyTable {
    lists: Vec<Vec<usize>>,
}

impl View for AdjacencyTable {
    type V = Seq<Seq<usize>>;

    closed spec fn view(&self) -> Seq<Seq<usize>> {
        rows(self.lists@)
    }
}

/// Every list is strictly ascending and names vertices of the table only.
pub open spec fn table_wf(t: Seq<Seq<usize>>) -> bool {
    forall|a: int|
        0 <= a < t.len() ==> {
            &&& strictly_ascending(#[trigger] t[a])
            &&& forall|i: int| 0 <= i < t[a].len() ==> #[trigger] t[a][i] < t.len()
        }
}

/// `t` is the table of the triangulation `faces` over `n` points.
pub open spec fn table_of(t: Seq<Seq<usize>>, faces: Seq<Seq<usize>>, n: nat) -> bool {
    &&& t.len() == n
    &&& table_wf(t)
    &&& forall|a: usize, b: usize| a < n ==> (#[trigger] t[a as int].contains(b) <==> joined(faces, a, b))
}

fn check_faces(faces: &Vec<Vec<usize>>, n_points: usize) -> (ok: bool)
    ensures
        ok == faces_valid(rows(faces@), n_points as nat),
{
    let ghost fs = rows(faces@);
    let mut f: usize = 0;
    while f < faces.len()
        invariant
            f <= faces.len(),
            fs == rows(faces@),
            forall|g: int| 0 <= g < f ==> face_valid(#[trigger] fs[g], n_points as nat),
        decreases faces.len() - f,
    {
        let face = &faces[f];
        assert(fs[f as int] == face@);
        if face.len() < 3 {
            return false;
        }
        let mut k: usize = 0;
        while k < face.len()
            invariant
                k <= face.len(),
                f < faces.len(),
                fs == rows(faces@),
                fs[f as int] == face@,
                forall|i: int| 0 <= i < k ==> #[trigger] face@[i] < n_points,
            decreases face.len() - k,
        {
            if face[k] >= n_points {
                assert(!face_valid(fs[f as int], n_points as nat));
                return false;
            }
            k += 1;
        }
        f += 1;
    }
    true
}

fn empty_lists(n: usize) -> (lists: Vec<Vec<usize>>)
    ensures
        lists@.len() == n,
        forall|a: int| 0 <= a < n ==> (#[trigger] lists@[a])@.len() == 0,
{
    let mut lists: Vec<Vec<usize>> = Vec::new();
    let mut a: usize = 0;
    while a < n
        invariant
            a <= n,
            lists@.len() == a,
            forall|i: int| 0 <= i < a ==> (#[trigger] lists@[i])@.len() == 0,
        decreases n - a,
    {
        lists.push(Vec::new());
        a += 1;
    }
    lists
}

/// Records `b` at the end of the list of `a`.
fn note(lists: &mut Vec<Vec<usize>>, a: usize, b: usize)
    requires
        a < old(lists)@.len(),
    ensures
        final(lists)@.len() == old(lists)@.len(),
        forall|i: int|
            0 <= i < old(lists)@.len() ==> (#[trigger] final(lists)@[i])@ == if i == a {
                old(lists)@[i]@.push(b)
            } else {
                old(lists)@[i]@
            },
{
    lists[a].push(b);
}

/// The lists after every edge of every face was recorded at both ends,
/// in the order of the faces, unsorted and with repeats.
fn gather(faces: &Vec<Vec<usize>>, n_points: usize) -> (lists: Vec<Vec<usize>>)
    requires
        faces_valid(rows(faces@), n_points as nat),
    ensures
        lists@.len() == n_points,
        forall|a: usize, b: usize|
            a < n_points ==> ((#[trigger] lists@[a as int]@.contains(b)) <==> joined(rows(faces@), a, b)),
        forall|a: int, i: int|
            0 <= a < n_points && 0 <= i < lists@[a]@.len() ==> #[trigger] lists@[a]@[i] < n_points,
{
    let ghost fs = rows(faces@);
    let mut lists = empty_lists(n_points);
    let mut f: usize = 0;
    while f < faces.len()
        invariant
            f <= faces.len(),
            fs == rows(faces@),
            faces_valid(fs, n_points as nat),
            lists@.len() == n_points,
            forall|a: usize, b: usize|
                a < n_points ==> ((#[trigger] lists@[a as int]@.contains(b)) <==> joined_upto(fs, f as int, a, b)),
            forall|a: int, i: int|
                0 <= a < n_points && 0 <= i < lists@[a]@.len() ==> #[trigger] lists@[a]@[i] < n_points,
        decreases faces.len() - f,
    {
        let face = &faces[f];
        let len = face.len();
        assert(fs[f as int] == face@);
        assert(face_valid(fs[f as int], n_points as nat));
        let mut k: usize = 0;
        while k < len
            invariant
                k <= len,
                len == face@.len(),
                len >= 3,
                f < faces.len(),
                fs == rows(faces@),
                fs[f as int] == face@,
                forall|i: int| 0 <= i < len ==> #[trigger] face@[i] < n_points,
                lists@.len() == n_points,
                forall|a: usize, b: usize|
                    a < n_points ==> ((#[trigger] lists@[a as int]@.contains(b)) <==> (joined_upto(
                        fs,
                        f as int,
                        a,
                        b,
                    ) || face_joins_upto(face@, k as int, a, b))),
                forall|a: int, i: int|
                    0 <= a < n_points && 0 <= i < lists@[a]@.len() ==> #[trigger] lists@[a]@[i] < n_points,
            decreases len - k,
        {
            let i = face[k];
            let j = if k + 1 == len {
                face[0]
            } else {
                face[k + 1]
            };
            assert(j == next_on(face@, k as int)) by {
                if k + 1 == len {
                    assert((k + 1) % (len as int) == 0);
                } else {
                    assert((k + 1) % (len as int) == k + 1) by {
                        vstd::arithmetic::div_mod::lemma_small_mod((k + 1) as nat, len as nat);
                    }
                }
            }
            let ghost before = lists@;
            note(&mut lists, i, j);
            let ghost between = lists@;
            note(&mut lists, j, i);
            proof {
                assert forall|a: usize, b: usize| a < n_points implies ((#[trigger] lists@[a as int]@.contains(b))
                    <==> (joined_upto(fs, f as int, a, b) || face_joins_upto(face@, k + 1, a, b))) by {
                    lemma_push_contains(before[a as int]@, j, b);
                    lemma_push_contains(between[a as int]@, i, b);
                    let here = (a == i && b == j) || (a == j && b == i);
                    assert(lists@[a as int]@.contains(b) <==> (before[a as int]@.contains(b) || here));
                    assert(here <==> edge_joins(face@, k as int, a, b));
                    if face_joins_upto(face@, k + 1, a, b) {
                        let e = choose|e: int| 0 <= e < k + 1 && #[trigger] edge_joins(face@, e, a, b);
                        if e < k {
                            assert(face_joins_upto(face@, k as int, a, b));
                        }
                    }
                    if face_joins_upto(face@, k as int, a, b) {
                        let e = choose|e: int| 0 <= e < k && #[trigger] edge_joins(face@, e, a, b);
                        assert(0 <= e < k + 1 && edge_joins(face@, e, a, b));
                    }
                    if here {
                        assert(0 <= k < k + 1 && edge_joins(face@, k as int, a, b));
                    }
                }
                assert forall|a: int, x: int|
                    0 <= a < n_points && 0 <= x < lists@[a]@.len() implies #[trigger] lists@[a]@[x] < n_points by {
                    if x < before[a]@.len() {
                        assert(lists@[a]@[x] == before[a]@[x]);
                    }
                }
            }
            k += 1;
        }
        proof {
            assert forall|a: usize, b: usize| a < n_points implies ((#[trigger] lists@[a as int]@.contains(b))
                <==> joined_upto(fs, f + 1, a, b)) by {
                if joined_upto(fs, f + 1, a, b) {
                    let g = choose|g: int| 0 <= g < f + 1 && #[trigger] face_joins(fs[g], a, b);
                    if g < f {
                        assert(joined_upto(fs, f as int, a, b));
                    }
                }
                if joined_upto(fs, f as int, a, b) {
                    let g = choose|g: int| 0 <= g < f && #[trigger] face_joins(fs[g], a, b);
                    assert(0 <= g < f + 1 && face_joins(fs[g], a, b));
                }
                if face_joins_upto(face@, len as int, a, b) {
                    assert(0 <= f < f + 1 && face_joins(fs[f as int], a, b));
                }
            }
        }
        f += 1;
    }
    lists
}

impl AdjacencyTable {
    /// Builds the table of a triangulation over `n_points` points.
    ///
    /// Fails when a face has fewer than three vertices or names a vertex
    /// that the point set does not have: such faces are no triangulation.
    pub fn build(faces: &Vec<Vec<usize>>, n_points: usize) -> (res: Result<AdjacencyTable, MeshError>)
        ensures
            match res {
                Ok(t) => faces_valid(rows(faces@), n_points as nat) && table_of(
                    t@,
                    rows(faces@),
                    n_points as nat,
                ),
                Err(e) => e == MeshError::OracleFailure && !faces_valid(rows(faces@), n_points as nat),
            },
    {
        if !check_faces(faces, n_points) {
            return Err(MeshError::OracleFailure);
        }
        let mut lists = gather(faces, n_points);
        let ghost fs = rows(faces@);
        let mut a: usize = 0;
        while a < n_points
            invariant
                a <= n_points,
                lists@.len() == n_points,
                forall|v: usize, b: usize|
                    v < n_points ==> ((#[trigger] lists@[v as int]@.contains(b)) <==> joined(fs, v, b)),
                forall|v: int, i: int|
                    0 <= v < n_points && 0 <= i < lists@[v]@.len() ==> #[trigger] lists@[v]@[i] < n_points,
                forall|v: int| 0 <= v < a ==> strictly_ascending(#[trigger] lists@[v]@),
            decreases n_points - a,
        {
            let ghost before = lists@;
            let ghost raw = lists@[a as int]@;
            sort_indices(&mut lists[a]);
            let ghost sorted = lists@[a as int]@;
            dedup_indices(&mut lists[a]);
            proof {
                let done = lists@[a as int]@;
                assert(done == without_repeats(sorted));
                lemma_without_repeats(sorted);
                assert forall|x: usize| done.contains(x) <==> raw.contains(x) by {
                    vstd::seq_lib::to_multiset_contains(raw, x);
                    vstd::seq_lib::to_multiset_contains(sorted, x);
                }
                assert forall|v: int| 0 <= v < n_points && v != a implies lists@[v] == before[v] by {}
                assert forall|v: int, i: int|
                    0 <= v < n_points && 0 <= i < lists@[v]@.len() implies #[trigger] lists@[v]@[i] < n_points by {
                    if v == a {
                        assert(done.contains(done[i]));
                        assert(raw.contains(done[i]));
                        let w = choose|w: int| 0 <= w < raw.len() && raw[w] == done[i];
                        assert(before[v]@[w] < n_points);
                    } else {
                        assert(lists@[v]@[i] == before[v]@[i]);
                    }
                }
            }
            a += 1;
        }
        proof {
            let t = rows(lists@);
            assert forall|v: int| 0 <= v < t.len() implies {
                &&& strictly_ascending(#[trigger] t[v])
                &&& forall|i: int| 0 <= i < t[v].len() ==> #[trigger] t[v][i] < t.len()
            } by {
                assert(t[v] == lists@[v]@);
            }
            assert forall|v: usize, b: usize| v < n_points implies (#[trigger] t[v as int].contains(b) <==> joined(
                fs,
                v,
                b,
            )) by {
                assert(t[v as int] == lists@[v as int]@);
            }
        }
        Ok(AdjacencyTable { lists })
    }

    /// Every table is well-formed: it can only be built from faces.
    #[verifier::type_invariant]
    closed spec fn inv(self) -> bool {
        table_wf(rows(self.lists@))
    }

    /// The number of vertices.
    pub fn len(&self) -> (n: usize)
        ensures
            n == self@.len(),
    {
        self.lists.len()
    }

    /// The neighbours of `vertex`, in increasing order.
    pub fn neighbours(&self, vertex: usize) -> (list: &Vec<usize>)
        requires
            vertex < self@.len(),
        ensures
            list@ == self@[vertex as int],
            table_wf(self@),
    {
        proof {
            use_type_invariant(self);
        }
        &self.lists[vertex]
    }

    /// The first vertex at or after `from` that has no neighbour at all.
    ///
    /// Such a vertex is in the point set and on no face. The table is built
    /// all the same; this is how a caller finds out.
    pub fn first_isolated(&self, from: usize) -> (found: Option<usize>)
        ensures
            match found {
                Some(v) => from <= v < self@.len() && self@[v as int].len() == 0 && forall|u: int|
                    from <= u < v ==> (#[trigger] self@[u]).len() > 0,
                None => forall|u: int| from <= u < self@.len() ==> (#[trigger] self@[u]).len() > 0,
            },
    {
        let mut v: usize = from;
        while v < self.lists.len()
            invariant
                from <= v,
                forall|u: int| from <= u < v && u < self@.len() ==> (#[trigger] self@[u]).len() > 0,
            decreases self.lists.len() - v,
        {
            assert(self@[v as int] == self.lists@[v as int]@);
            if self.lists[v].len() == 0 {
                return Some(v);
            }
            v += 1;
        }
        None
    }
}

/// `face` started `shift` places later on the same cycle.
pub open spec fn rotated(face: Seq<usize>, shift: int) -> Seq<usize> {
    Seq::new(face.len(), |k: int| face[(k + shift) % (face.len() as int)])
}

/// Neighbourhood is mutual: the table lists `b` under `a` exactly when it
/// lists `a` under `b`.
pub proof fn lemma_table_symmetric(t: Seq<Seq<usize>>, faces: Seq<Seq<usize>>, n: nat, a: usize, b: usize)
    requires
        faces_valid(faces, n),
        table_of(t, faces, n),
        a < n,
        b < n,
    ensures
        t[a as int].contains(b) <==> t[b as int].contains(a),
{
    if joined(faces, a, b) {
        lemma_joined_symmetric(faces, a, b);
    }
    if joined(faces, b, a) {
        lemma_joined_symmetric(faces, b, a);
    }
}

proof fn lemma_joined_symmetric(faces: Seq<Seq<usize>>, a: usize, b: usize)
    requires
        joined(faces, a, b),
    ensures
        joined(faces, b, a),
{
    let f = choose|f: int| 0 <= f < faces.len() && #[trigger] face_joins(faces[f], a, b);
    let k = choose|k: int| 0 <= k < faces[f].len() && #[trigger] edge_joins(faces[f], k, a, b);
    assert(edge_joins(faces[f], k, b, a));
    assert(face_joins(faces[f], b, a));
}

/// A vertex of a valid face has the next vertex of that face as a
/// neighbour, so every vertex that appears on a face has a neighbour.
pub proof fn lemma_face_vertex_has_neighbour(t: Seq<Seq<usize>>, faces: Seq<Seq<usize>>, n: nat, a: usize)
    requires
        faces_valid(faces, n),
        table_of(t, faces, n),
        appears(faces, a),
    ensures
        a < n,
        t[a as int].len() > 0,
{
    let (f, k) = choose|f: int, k: int|
        0 <= f < faces.len() && 0 <= k < faces[f].len() && #[trigger] faces[f][k] == a;
    let face = faces[f];
    assert(face_valid(face, n));
    let b = next_on(face, k);
    assert(edge_joins(face, k, a, b));
    assert(face_joins(face, a, b));
    assert(joined(faces, a, b));
    assert(t[a as int].contains(b));
}

/// A table is fixed by which pairs of vertices are neighbours: two
/// triangulations over the same points that join the same pairs have the
/// same table, whatever the order of their faces or the vertex at which a
/// face was started.
pub proof fn lemma_table_determined(
    s: Seq<Seq<usize>>,
    t: Seq<Seq<usize>>,
    faces_s: Seq<Seq<usize>>,
    faces_t: Seq<Seq<usize>>,
    n: nat,
)
    requires
        table_of(s, faces_s, n),
        table_of(t, faces_t, n),
        n <= usize::MAX,
        forall|a: usize, b: usize| a < n ==> (joined(faces_s, a, b) <==> joined(faces_t, a, b)),
    ensures
        s == t,
{
    assert forall|a: int| 0 <= a < n implies s[a] == t[a] by {
        let v = a as usize;
        assert(strictly_ascending(s[a]) && strictly_ascending(t[a]));
        assert forall|x: usize| s[a].contains(x) <==> t[a].contains(x) by {
            assert(s[v as int].contains(x) <==> joined(faces_s, v, x));
            assert(t[v as int].contains(x) <==> joined(faces_t, v, x));
        }
        lemma_ascending_unique(s[a], t[a]);
    }
    assert(s =~= t);
}

/// Starting a face at another of its vertices changes no neighbour.
pub proof fn lemma_rotation_keeps_joins(face: Seq<usize>, shift: int, a: usize, b: usize)
    requires
        face.len() > 0,
        0 <= shift,
    ensures
        face_joins(rotated(face, shift), a, b) <==> face_joins(face, a, b),
{
    let len = face.len() as int;
    let r = rotated(face, shift);
    assert forall|k: int| 0 <= k < len implies next_on(r, k) == next_on(face, (k + shift) % len) by {
        lemma_shifted_successor(k, shift, len);
    }
    if face_joins(r, a, b) {
        let k = choose|k: int| 0 <= k < len && #[trigger] edge_joins(r, k, a, b);
        let m = (k + shift) % len;
        assert(edge_joins(face, m, a, b));
    }
    if face_joins(face, a, b) {
        let m = choose|m: int| 0 <= m < len && #[trigger] edge_joins(face, m, a, b);
        // the place of the rotated face that holds position m
        let k = (m + len - shift % len) % len;
        lemma_shift_back(m, shift, len);
        assert((k + shift) % len == m);
        assert(edge_joins(r, k, a, b));
    }
}

proof fn lemma_shifted_successor(k: int, shift: int, len: int)
    requires
        0 <= k < len,
        0 <= shift,
    ensures
        ((k + 1) % len + shift) % len == ((k + shift) % len + 1) % len,
{
    vstd::arithmetic::div_mod::lemma_add_mod_noop(k + 1, shift, len);
    vstd::arithmetic::div_mod::lemma_add_mod_noop(k + shift, 1, len);
    vstd::arithmetic::div_mod::lemma_mod_twice(k + 1, len);
    vstd::arithmetic::div_mod::lemma_mod_twice(k + shift, len);
    vstd::arithmetic::div_mod::lemma_add_mod_noop((k + 1) % len, shift, len);
    vstd::arithmetic::div_mod::lemma_add_mod_noop((k + shift) % len, 1, len);
    assert((k + 1) + shift == (k + shift) + 1);
}

proof fn lemma_shift_back(m: int, shift: int, len: int)
    requires
        0 <= m < len,
        0 <= shift,
    ensures
        0 <= (m + len - shift % len) % len < len,
        ((m + len - shift % len) % len + shift) % len == m,
{
    let s = shift % len;
    let k = (m + len - s) % len;
    vstd::arithmetic::div_mod::lemma_fundamental_div_mod(shift, len);
    vstd::arithmetic::div_mod::lemma_fundamental_div_mod(m + len - s, len);
    let q1 = shift / len;
    let q2 = (m + len - s) / len;
    // k + shift == m + len * (1 + q1 - q2)
    assert(k + shift == m + len * (1 + q1 - q2)) by (nonlinear_arith)
        requires
            shift == len * q1 + s,
            m + len - s == len * q2 + k,
    ;
    vstd::arithmetic::div_mod::lemma_mod_multiples_vanish(1 + q1 - q2, m, len);
    vstd::arithmetic::div_mod::lemma_small_mod(m as nat, len as nat);
}

/// A valid face stays valid when it is started at another vertex.
pub proof fn lemma_rotation_keeps_validity(face: Seq<usize>, shift: int, n: nat)
    requires
        face_valid(face, n),
        0 <= shift,
    ensures
        face_valid(rotated(face, shift), n),
{
    let r = rotated(face, shift);
    assert forall|k: int| 0 <= k < r.len() implies #[trigger] r[k] < n by {
        let m = (k + shift) % (face.len() as int);
        assert(face[m] < n);
    }
}

/// The table does not depend on the vertex at which a face is started:
/// rotating one face of a triangulation leaves the table as it was.
pub proof fn lemma_rotation_keeps_table(
    s: Seq<Seq<usize>>,
    t: Seq<Seq<usize>>,
    faces: Seq<Seq<usize>>,
    which: int,
    shift: int,
    n: nat,
)
    requires
        0 <= which < faces.len(),
        0 <= shift,
        n <= usize::MAX,
        faces_valid(faces, n),
        table_of(s, faces, n),
        table_of(t, faces.update(which, rotated(faces[which], shift)), n),
    ensures
        s == t,
{
    let turned = faces.update(which, rotated(faces[which], shift));
    assert(face_valid(faces[which], n));
    assert forall|a: usize, b: usize| a < n implies (joined(faces, a, b) <==> joined(turned, a, b)) by {
        lemma_rotation_keeps_joins(faces[which], shift, a, b);
        if joined(faces, a, b) {
            let f = choose|f: int| 0 <= f < faces.len() && #[trigger] face_joins(faces[f], a, b);
            assert(face_joins(turned[f], a, b));
        }
        if joined(turned, a, b) {
            let f = choose|f: int| 0 <= f < turned.len() && #[trigger] face_joins(turned[f], a, b);
            assert(face_joins(faces[f], a, b));
        }
    }
    lemma_table_determined(s, t, faces, turned, n);
}

} // verus!
