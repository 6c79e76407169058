use vstd::prelude::*;
use crate::polyhedron::{FaceId, VertexId};
use super::Shape;
use super::cycles::{Cycles, sorted_faces, sorted_ids};
use super::distance::{Distance, PairFilter, diameter_of, pairs};
use super::distance::assemble::{graph_from, list_below};
use super::distance::paths::is_apsp_of;

verus! {

/// The successor of `i` around a cycle of `n`.
pub open spec fn succ(i: int, n: int) -> int {
    (i + 1) % n
}

/// The edges of the `n`-gon on the vertices `base .. base + n`.
pub open spec fn ring_edges(n: nat, base: nat) -> Seq<[usize; 2]> {
    Seq::new(n, |i: int| [(base + i) as usize, (base + succ(i, n as int)) as usize])
}

/// The edges joining vertex `i` to vertex `n + i`.
pub open spec fn rung_edges(n: nat) -> Seq<[usize; 2]> {
    Seq::new(n, |i: int| [i as usize, (n + i) as usize])
}

/// The edges of the `n`-gonal prism: bottom ring, top ring, rungs.
pub open spec fn prism_edges(n: nat) -> Seq<[usize; 2]> {
    ring_edges(n, 0) + ring_edges(n, n) + rung_edges(n)
}

/// The side quads of the `n`-gonal prism.
pub open spec fn prism_quads(n: nat) -> Seq<Seq<usize>> {
    Seq::new(
        n,
        |i: int| seq![i as usize, succ(i, n as int) as usize, (n + succ(i, n as int)) as usize, (n + i) as usize],
    )
}

/// The faces of the `n`-gonal prism: bottom, top, then the side quads.
pub open spec fn prism_faces(n: nat) -> Seq<Seq<usize>> {
    seq![Seq::new(n, |i: int| i as usize), Seq::new(n, |i: int| (n + i) as usize)] + prism_quads(n)
}

/// Next index around a cycle of `n`.
fn next_around(i: usize, n: usize) -> (j: usize)
    requires
        i < n,
    ensures
        j == succ(i as int, n as int),
        j < n,
{
    if i + 1 == n {
        assert((i as int + 1) % (n as int) == 0) by (nonlinear_arith)
            requires i + 1 == n;
        0
    } else {
        assert((i as int + 1) % (n as int) == i + 1) by (nonlinear_arith)
            requires i + 1 < n;
        i + 1
    }
}

impl Shape {
    /// The `n`-gonal prism: two `n`-gons joined by `n` quads.
    pub fn prism(n: usize) -> (s: Shape)
        requires
            3 <= n,
            2 * n <= usize::MAX,
        ensures
            s.wf(),
            is_apsp_of(s.graph(), graph_from(2 * n as nat, prism_edges(n as nat))),
            s.faces() == sorted_faces(prism_faces(n as nat)),
            s.face_ids() == sorted_ids(prism_faces(n as nat), Seq::new((n + 2) as nat, |i: int| i as usize)),
            s.next_id() == n + 2,
            s.births() == Seq::<(FaceId, FaceId)>::empty(),
            s.spring_pairs() == pairs(s.graph(), PairFilter::Springs(diameter_of(s.graph()))),
            s.ancestry() == Seq::new((2 * n) as nat, |v: int| set![v as u64]),
    {
        let ghost nn = n as nat;
        let mut list: Vec<[VertexId; 2]> = Vec::new();
        let mut i: usize = 0;
        while i < n
            invariant
                3 <= n,
                2 * n <= usize::MAX,
                nn == n,
                i <= n,
                list@ == ring_edges(nn, 0).take(i as int),
            decreases n - i,
        {
            let j = next_around(i, n);
            list.push([i, j]);
            assert(list@ =~= ring_edges(nn, 0).take(i + 1));
            i += 1;
        }
        assert(ring_edges(nn, 0).take(n as int) =~= ring_edges(nn, 0));
        let mut i: usize = 0;
        while i < n
            invariant
                3 <= n,
                2 * n <= usize::MAX,
                nn == n,
                i <= n,
                list@ == ring_edges(nn, 0) + ring_edges(nn, nn).take(i as int),
            decreases n - i,
        {
            let j = next_around(i, n);
            list.push([n + i, n + j]);
            assert(list@ =~= ring_edges(nn, 0) + ring_edges(nn, nn).take(i + 1));
            i += 1;
        }
        assert(ring_edges(nn, nn).take(n as int) =~= ring_edges(nn, nn));
        let mut i: usize = 0;
        while i < n
            invariant
                3 <= n,
                2 * n <= usize::MAX,
                nn == n,
                i <= n,
                list@ == ring_edges(nn, 0) + ring_edges(nn, nn) + rung_edges(nn).take(i as int),
            decreases n - i,
        {
            list.push([i, n + i]);
            assert(list@ =~= ring_edges(nn, 0) + ring_edges(nn, nn) + rung_edges(nn).take(i + 1));
            i += 1;
        }
        assert(rung_edges(nn).take(n as int) =~= rung_edges(nn));
        assert(list@ == prism_edges(nn));
        assert forall|k: int| 0 <= k < list@.len() implies (#[trigger] list@[k])[0] < 2 * n && list@[k][1] < 2 * n by {
            if k < n {
                assert(list@[k] == ring_edges(nn, 0)[k]);
            } else if k < 2 * n {
                assert(list@[k] == ring_edges(nn, nn)[k - n]);
            } else {
                assert(list@[k] == rung_edges(nn)[k - 2 * n]);
            }
        }
        assert(list_below(list@, 2 * nn));
        let distance = Distance::from_edges(2 * n, &list);

        let mut bottom: Vec<VertexId> = Vec::new();
        let mut top: Vec<VertexId> = Vec::new();
        let mut i: usize = 0;
        while i < n
            invariant
                2 * n <= usize::MAX,
                nn == n,
                i <= n,
                bottom@ == Seq::new(i as nat, |k: int| k as usize),
                top@ == Seq::new(i as nat, |k: int| (nn + k) as usize),
            decreases n - i,
        {
            bottom.push(i);
            top.push(n + i);
            i += 1;
            assert(bottom@ =~= Seq::new(i as nat, |k: int| k as usize));
            assert(top@ =~= Seq::new(i as nat, |k: int| (nn + k) as usize));
        }
        let mut faces: Vec<Vec<VertexId>> = Vec::new();
        let mut ids: Vec<FaceId> = Vec::new();
        faces.push(bottom);
        faces.push(top);
        ids.push(0);
        ids.push(1);
        let mut i: usize = 0;
        while i < n
            invariant
                3 <= n,
                2 * n <= usize::MAX,
                nn == n,
                i <= n,
                faces@.len() == 2 + i,
                faces@.map_values(|c: Vec<VertexId>| c@) == prism_faces(nn).take(2 + i),
                ids@ == Seq::new((2 + i) as nat, |k: int| k as usize),
            decreases n - i,
        {
            let j = next_around(i, n);
            let quad: Vec<VertexId> = vec![i, j, n + j, n + i];
            faces.push(quad);
            ids.push(i + 2);
            assert(faces@.map_values(|c: Vec<VertexId>| c@) =~= prism_faces(nn).take(2 + i + 1)) by {
                assert(prism_faces(nn)[2 + i] == prism_quads(nn)[i as int]);
            }
            assert(ids@ =~= Seq::new((2 + i + 1) as nat, |k: int| k as usize));
            i += 1;
        }
        assert(prism_faces(nn).take(2 + n) =~= prism_faces(nn));
        let mut shape = Shape {
            distance,
            cycles: Cycles::new(faces, ids),
            springs: Vec::new(),
            next_face_id: n + 2,
            birth_parents: Vec::new(),
        };
        shape.cycles.sort();
        shape.recompute_metrics();
        shape
    }
}

} // verus!
