use vstd::prelude::*;
use crate::polyhedron::{FaceId, VertexId};
use super::conway::{last_pos, lemma_last_pos, views};
use super::cycles::Cycles;
use super::edge::{EdgeSet, norm};

verus! {

/// The successor of `i` around a cycle of `n`.
pub open spec fn succ(i: int, n: int) -> int {
    (i + 1) % n
}

/// Side `k` of face `f`, as an unordered pair: from `f[k]` to the vertex after it.
pub open spec fn side(f: Seq<usize>, k: int) -> [usize; 2] {
    norm([f[k], f[succ(k, f.len() as int)]])
}

/// The first `k` sides of face `f`.
pub open spec fn face_sides(f: Seq<usize>, k: nat) -> Seq<[usize; 2]> {
    Seq::new(k, |j: int| side(f, j))
}

/// The sides of the faces below `g`, face by face.
pub open spec fn sides_upto(fs: Seq<Seq<usize>>, g: nat) -> Seq<[usize; 2]>
    decreases g,
{
    if g == 0 {
        Seq::empty()
    } else {
        sides_upto(fs, (g - 1) as nat) + face_sides(fs[g - 1], fs[g - 1].len())
    }
}

/// All sides met before side `k` of face `f`.
pub open spec fn sides_before(fs: Seq<Seq<usize>>, f: nat, k: nat) -> Seq<[usize; 2]> {
    sides_upto(fs, f) + face_sides(fs[f as int], k)
}

/// The index `idx` once for every side among the first `k` of face `f` equal to `e`.
pub open spec fn face_hits(f: Seq<usize>, idx: usize, e: [usize; 2], k: nat) -> Seq<usize>
    decreases k,
{
    if k == 0 {
        Seq::empty()
    } else {
        face_hits(f, idx, e, (k - 1) as nat) + if side(f, k - 1) == e { seq![idx] } else { Seq::empty() }
    }
}

/// The faces below `g` bordering `e`, once per bordering side, in face order.
pub open spec fn edge_faces(fs: Seq<Seq<usize>>, e: [usize; 2], g: nat) -> Seq<usize>
    decreases g,
{
    if g == 0 {
        Seq::empty()
    } else {
        edge_faces(fs, e, (g - 1) as nat) + face_hits(fs[g - 1], (g - 1) as usize, e, fs[g - 1].len())
    }
}

/// The face across `e` from `f`, when `e` borders exactly two sides.
pub open spec fn other_face(fs: Seq<Seq<usize>>, f: usize, e: [usize; 2]) -> Option<usize> {
    let ef = edge_faces(fs, e, fs.len());
    if ef.len() == 2 {
        Some(if ef[0] == f { ef[1] } else { ef[0] })
    } else {
        None
    }
}

/// The interior edges met along the first `k` sides of face `f`: `(f, a, b, g)` for the side
/// from `a` to `b`, the first time its edge is met, when it has a face `g` across.
pub open spec fn visits_in(fs: Seq<Seq<usize>>, f: nat, k: nat) -> Seq<(usize, usize, usize, usize)>
    decreases k,
{
    if k == 0 {
        Seq::empty()
    } else {
        let face = fs[f as int];
        let a = face[k - 1];
        let b = face[succ(k - 1, face.len() as int)];
        let e = side(face, k - 1);
        let rest = visits_in(fs, f, (k - 1) as nat);
        if !sides_before(fs, f, (k - 1) as nat).contains(e) && other_face(fs, f as usize, e) is Some {
            rest.push((f as usize, a, b, other_face(fs, f as usize, e).unwrap()))
        } else {
            rest
        }
    }
}

/// The interior-edge visits of the faces below `g`.
pub open spec fn visits_upto(fs: Seq<Seq<usize>>, g: nat) -> Seq<(usize, usize, usize, usize)>
    decreases g,
{
    if g == 0 {
        Seq::empty()
    } else {
        visits_upto(fs, (g - 1) as nat) + visits_in(fs, (g - 1) as nat, fs[g - 1].len())
    }
}

/// Some side of `f` is `e`.
pub open spec fn has_side(f: Seq<usize>, e: [usize; 2]) -> bool {
    exists|k: int| 0 <= k < f.len() && #[trigger] side(f, k) == e
}

/// Every listed face lies below `g` and has a side equal to `e`.
pub proof fn lemma_edge_faces(fs: Seq<Seq<usize>>, e: [usize; 2], g: nat)
    requires
        g <= fs.len(),
        fs.len() <= usize::MAX,
    ensures
        forall|i: int| #![trigger edge_faces(fs, e, g)[i]] 0 <= i < edge_faces(fs, e, g).len() ==> edge_faces(fs, e, g)[i] < g
            && has_side(fs[edge_faces(fs, e, g)[i] as int], e),
    decreases g,
{
    if g > 0 {
        lemma_edge_faces(fs, e, (g - 1) as nat);
        let a = edge_faces(fs, e, (g - 1) as nat);
        let f = fs[g - 1];
        let h = face_hits(f, (g - 1) as usize, e, f.len());
        lemma_face_hits(f, (g - 1) as usize, e, f.len());
        let ef = edge_faces(fs, e, g);
        assert(ef =~= a + h);
        assert forall|i: int| #![trigger ef[i]] 0 <= i < ef.len() implies ef[i] < g && has_side(fs[ef[i] as int], e) by {
            if i < a.len() {
                assert(ef[i] == a[i]);
                assert(a[i] < g - 1 && has_side(fs[a[i] as int], e));
            } else {
                assert(ef[i] == h[i - a.len()]);
                assert(h[i - a.len()] == (g - 1) as usize);
                assert(h.len() > 0);
                let j = choose|j: int| 0 <= j < f.len() && #[trigger] side(f, j) == e;
                assert(fs[ef[i] as int] == f);
                assert(side(fs[ef[i] as int], j) == e);
            }
        }
    }
}

/// Appending to a sequence adds the element to its set.
pub proof fn lemma_push_to_set<A>(s: Seq<A>, x: A)
    ensures
        s.push(x).to_set() == s.to_set().insert(x),
{
    assert forall|y: A| #[trigger] s.push(x).to_set().contains(y) == s.to_set().insert(x).contains(y) by {
        if s.push(x).contains(y) {
            let i = choose|i: int| 0 <= i < s.push(x).len() && s.push(x)[i] == y;
            if i < s.len() {
                assert(s[i] == y);
            }
        }
        if s.contains(y) {
            let i = choose|i: int| 0 <= i < s.len() && s[i] == y;
            assert(s.push(x)[i] == y);
        }
        if y == x {
            assert(s.push(x)[s.len() as int] == y);
        }
    }
    assert(s.push(x).to_set() =~= s.to_set().insert(x));
}

proof fn lemma_face_hits(f: Seq<usize>, idx: usize, e: [usize; 2], k: nat)
    requires
        k <= f.len(),
    ensures
        forall|i: int| 0 <= i < face_hits(f, idx, e, k).len() ==> #[trigger] face_hits(f, idx, e, k)[i] == idx,
        face_hits(f, idx, e, k).len() > 0 ==> exists|j: int| 0 <= j < k && #[trigger] side(f, j) == e,
    decreases k,
{
    if k > 0 {
        lemma_face_hits(f, idx, e, (k - 1) as nat);
        let a = face_hits(f, idx, e, (k - 1) as nat);
        assert forall|i: int| 0 <= i < face_hits(f, idx, e, k).len() implies #[trigger] face_hits(f, idx, e, k)[i] == idx by {
            if i < a.len() {
                assert(face_hits(f, idx, e, k)[i] == a[i]);
            }
        }
        if side(f, k - 1) == e {
            assert(side(f, k - 1) == e);
        }
    }
}

/// Next index around a cycle of `n`.
pub fn next_index(i: usize, n: usize) -> (j: usize)
    requires
        i < n,
    ensures
        j == succ(i as int, n as int),
        j < n,
{
    if i + 1 == n {
        assert((i as int + 1) % (n as int) == 0) by (nonlinear_arith)
            requires i + 1 == n;
        0
    } else {
        assert((i as int + 1) % (n as int) == i + 1) by (nonlinear_arith)
            requires i + 1 < n;
        i + 1
    }
}

/// Order-independent key for an undirected edge.
pub fn undirected(a: VertexId, b: VertexId) -> (r: [VertexId; 2])
    ensures
        r == norm([a, b]),
{
    if a < b { [a, b] } else { [b, a] }
}

/// Side `k` of `face`.
pub fn side_at(face: &Vec<VertexId>, k: usize) -> (r: [VertexId; 2])
    requires
        k < face@.len(),
    ensures
        r == side(face@, k as int),
{
    let j = next_index(k, face.len());
    undirected(face[k], face[j])
}

/// The faces bordering `e`, once per bordering side, in face order.
pub fn faces_of_edge(faces: &Vec<Vec<VertexId>>, e: [VertexId; 2]) -> (r: Vec<usize>)
    ensures
        r@ == edge_faces(views(faces@), e, faces@.len()),
{
    let ghost fs = views(faces@);
    let mut r: Vec<usize> = Vec::new();
    let mut g: usize = 0;
    while g < faces.len()
        invariant
            fs == views(faces@),
            g <= faces@.len(),
            r@ == edge_faces(fs, e, g as nat),
        decreases faces@.len() - g,
    {
        let face = &faces[g];
        let ghost before = r@;
        proof {
            assert(fs[g as int] == face@);
        }
        let mut k: usize = 0;
        while k < face.len()
            invariant
                k <= face@.len(),
                r@ == before + face_hits(face@, g, e, k as nat),
            decreases face@.len() - k,
        {
            let s = side_at(face, k);
            if s[0] == e[0] && s[1] == e[1] {
                proof {
                    assert(s =~= e);
                }
                r.push(g);
            } else {
                assert(s != e);
            }
            proof {
                assert(r@ =~= before + face_hits(face@, g, e, (k + 1) as nat));
            }
            k += 1;
        }
        g += 1;
    }
    r
}

/// Read-only snapshot of a shape's faces taken at the start of a Conway operation.
pub struct FaceTopology {
    /// The original faces
    pub cycles: Vec<Vec<VertexId>>,
    /// The IDs of those original faces
    pub ids: Vec<FaceId>,
}

impl FaceTopology {
    /// The faces of the snapshot.
    pub open spec fn faces(&self) -> Seq<Seq<VertexId>> {
        views(self.cycles@)
    }

    /// Takes the snapshot.
    pub fn snapshot(cycles: &Cycles) -> (t: Self)
        ensures
            t.faces() == cycles.faces(),
            t.ids@ == cycles.face_ids(),
    {
        let src = cycles.ids();
        let mut ids: Vec<FaceId> = Vec::new();
        let mut i: usize = 0;
        while i < src.len()
            invariant
                i <= src@.len(),
                ids@ == src@.take(i as int),
            decreases src@.len() - i,
        {
            ids.push(src[i]);
            i += 1;
            assert(ids@ =~= src@.take(i as int));
        }
        assert(src@.take(i as int) =~= src@);
        let raw = cycles.raw();
        proof {
            assert(views(raw@) =~= raw@.map_values(|c: Vec<VertexId>| c@));
        }
        FaceTopology { cycles: raw, ids }
    }

    /// Index of vertex `v` within face `f`; its last position when it occurs twice.
    pub fn pos(&self, f: usize, v: VertexId) -> (r: usize)
        requires
            f < self.faces().len(),
            self.faces()[f as int].contains(v),
        ensures
            r == last_pos(self.faces()[f as int], v),
    {
        let face = &self.cycles[f];
        proof {
            assert(self.faces()[f as int] == face@);
            lemma_last_pos(face@, v);
            let i = choose|i: int| 0 <= i < face@.len() && face@[i] == v;
            assert(face@.take(face@.len() as int) =~= face@);
        }
        let mut p = face.len();
        while p > 0 && face[p - 1] != v
            invariant
                p <= face@.len(),
                last_pos(face@, v) == last_pos(face@.take(p as int), v),
            decreases p,
        {
            proof {
                assert(face@.take(p as int).drop_last() =~= face@.take(p - 1));
            }
            p -= 1;
        }
        proof {
            if p == 0 {
                assert(face@.take(0).len() == 0);
            }
            assert(face@.take(p as int).last() == v);
        }
        p - 1
    }

    /// The face across the edge `{a, b}` from `f`, if that edge borders exactly two faces.
    pub fn other_face(&self, f: usize, a: VertexId, b: VertexId) -> (r: Option<usize>)
        ensures
            r == other_face(self.faces(), f, norm([a, b])),
    {
        let faces = faces_of_edge(&self.cycles, undirected(a, b));
        if faces.len() == 2 {
            Some(if faces[0] == f { faces[1] } else { faces[0] })
        } else {
            None
        }
    }

    /// Each interior original edge once, in face order then corner order: the face `f` it was
    /// found in, its endpoints `a, b` in `f`'s winding, and the opposite face `g`.
    pub fn interior_edges(&self) -> (r: Vec<(usize, VertexId, VertexId, usize)>)
        ensures
            r@ == visits_upto(self.faces(), self.faces().len()),
    {
        let ghost fs = self.faces();
        let mut seen = EdgeSet::new();
        let mut r: Vec<(usize, VertexId, VertexId, usize)> = Vec::new();
        let mut f: usize = 0;
        while f < self.cycles.len()
            invariant
                fs == self.faces(),
                fs.len() == self.cycles@.len(),
                f <= self.cycles@.len(),
                seen.wf(),
                seen@ == sides_upto(fs, f as nat).to_set(),
                r@ == visits_upto(fs, f as nat),
            decreases self.cycles@.len() - f,
        {
            let cycle = &self.cycles[f];
            let n = cycle.len();
            let ghost before = r@;
            proof {
                assert(fs[f as int] == cycle@);
                assert(sides_before(fs, f as nat, 0) =~= sides_upto(fs, f as nat));
            }
            let mut k: usize = 0;
            while k < n
                invariant
                    fs == self.faces(),
                    fs.len() == self.cycles@.len(),
                    f < fs.len(),
                    fs[f as int] == cycle@,
                    n == cycle@.len(),
                    k <= n,
                    seen.wf(),
                    seen@ == sides_before(fs, f as nat, k as nat).to_set(),
                    r@ == before + visits_in(fs, f as nat, k as nat),
                decreases n - k,
            {
                let j = next_index(k, n);
                let a = cycle[k];
                let b = cycle[j];
                let ghost e = side(cycle@, k as int);
                proof {
                    assert(norm([a, b]) == e);
                    assert(norm(e) == e);
                }
                let fresh = seen.insert([a, b]);
                proof {
                    assert(sides_before(fs, f as nat, (k + 1) as nat) =~= sides_before(fs, f as nat, k as nat).push(e));
                    lemma_push_to_set(sides_before(fs, f as nat, k as nat), e);
                }
                if fresh {
                    match self.other_face(f, a, b) {
                        Some(g) => {
                            r.push((f, a, b, g));
                        },
                        None => {},
                    }
                }
                proof {
                    assert(r@ =~= before + visits_in(fs, f as nat, (k + 1) as nat));
                }
                k += 1;
            }
            proof {
                assert(sides_before(fs, f as nat, n as nat) =~= sides_upto(fs, (f + 1) as nat));
                assert(r@ =~= visits_upto(fs, (f + 1) as nat));
            }
            f += 1;
        }
        r
    }
}

} // verus!
