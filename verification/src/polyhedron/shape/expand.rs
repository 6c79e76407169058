use vstd::prelude::*;
use crate::polyhedron::VertexId;
use crate::polyhedron::FaceId;
use super::Shape;
use super::cycles::{Cycles, sorted_faces, sorted_ids};
use super::distance::{Distance, PairFilter, diameter_of, pairs};
use super::distance::assemble::graph_from;
use super::distance::paths::is_apsp_of;
use super::topology::FaceTopology;
use super::conway::{offset, lemma_offset, views, offsets_ok, on_some_face};
use super::cycles::{first_index, lemma_first_index};
use super::edge::norm;
use super::topology::{succ, side, edge_faces, has_side, lemma_edge_faces, faces_of_edge, next_index, side_at, undirected, visits_in, visits_upto, sides_before, other_face};
use super::distance::assemble::list_below;

verus! {

/// The new vertex at position `i` of face `f`.
pub open spec fn corner_at(fs: Seq<Seq<usize>>, f: int, i: int) -> usize {
    (offset(fs, f as nat) + i) as usize
}

/// The new vertex of face `f` standing for its vertex `v`.
pub open spec fn corner_for(fs: Seq<Seq<usize>>, f: int, v: usize) -> usize {
    corner_at(fs, f, first_index(fs[f], v))
}

/// Every face as the ring of its new corner vertices.
pub open spec fn corner_faces(fs: Seq<Seq<usize>>) -> Seq<Seq<usize>> {
    Seq::new(fs.len(), |f: int| Seq::new(fs[f].len(), |i: int| corner_at(fs, f, i)))
}

/// The vertices of the faces below `g`, face after face: the origin of every new corner.
pub open spec fn flat_upto(fs: Seq<Seq<usize>>, g: nat) -> Seq<usize>
    decreases g,
{
    if g == 0 {
        Seq::empty()
    } else {
        flat_upto(fs, (g - 1) as nat) + fs[g - 1]
    }
}

/// The edges of face `f` drawn between its new corners.
pub open spec fn face_ring(fs: Seq<Seq<usize>>, f: int) -> Seq<[usize; 2]> {
    Seq::new(fs[f].len(), |k: int| [corner_at(fs, f, k), corner_at(fs, f, succ(k, fs[f].len() as int))])
}

/// The corner rings of the faces below `g`.
pub open spec fn face_rings_upto(fs: Seq<Seq<usize>>, g: nat) -> Seq<[usize; 2]>
    decreases g,
{
    if g == 0 {
        Seq::empty()
    } else {
        face_rings_upto(fs, (g - 1) as nat) + face_ring(fs, g - 1)
    }
}

/// For an edge between exactly two faces, the rungs joining the two faces' copies of each endpoint.
pub open spec fn rungs_of(fs: Seq<Seq<usize>>, e: [usize; 2]) -> Seq<[usize; 2]> {
    let ef = edge_faces(fs, e, fs.len());
    if ef.len() == 2 {
        seq![
            [corner_for(fs, ef[0] as int, e[0]), corner_for(fs, ef[1] as int, e[0])],
            [corner_for(fs, ef[0] as int, e[1]), corner_for(fs, ef[1] as int, e[1])],
        ]
    } else {
        Seq::empty()
    }
}

/// The rungs of the first `k` sides of face `f`.
pub open spec fn rungs_in(fs: Seq<Seq<usize>>, f: int, k: nat) -> Seq<[usize; 2]>
    decreases k,
{
    if k == 0 {
        Seq::empty()
    } else {
        rungs_in(fs, f, (k - 1) as nat) + rungs_of(fs, side(fs[f], k - 1))
    }
}

/// The rungs of the sides of the faces below `g`.
pub open spec fn rungs_upto(fs: Seq<Seq<usize>>, g: nat) -> Seq<[usize; 2]>
    decreases g,
{
    if g == 0 {
        Seq::empty()
    } else {
        rungs_upto(fs, (g - 1) as nat) + rungs_in(fs, g - 1, fs[g - 1].len())
    }
}

/// The quad an interior edge visit `(f, a, b, g)` spawns.
pub open spec fn quad_of(fs: Seq<Seq<usize>>, t: (usize, usize, usize, usize)) -> Seq<usize> {
    seq![
        corner_for(fs, t.0 as int, t.1),
        corner_for(fs, t.0 as int, t.2),
        corner_for(fs, t.3 as int, t.2),
        corner_for(fs, t.3 as int, t.1),
    ]
}

/// One quad per interior edge.
pub open spec fn edge_quads(fs: Seq<Seq<usize>>) -> Seq<Seq<usize>> {
    visits_upto(fs, fs.len()).map_values(|t: (usize, usize, usize, usize)| quad_of(fs, t))
}

/// The vertex before position `k` of `f`.
pub open spec fn prev_of(f: Seq<usize>, k: int) -> usize {
    f[(k + f.len() - 1) % (f.len() as int)]
}

/// Leaving face `f` around `v`: of `v`'s two sides in `f`, the one other than `entry`.
pub open spec fn exit_of(fs: Seq<Seq<usize>>, v: usize, f: int, entry: [usize; 2]) -> [usize; 2] {
    let face = fs[f];
    let k = first_index(face, v);
    let e_next = norm([face[succ(k, face.len() as int)], v]);
    let e_prev = norm([prev_of(face, k), v]);
    if e_next == entry {
        e_prev
    } else {
        e_next
    }
}

/// The face across `e` from `f`.
pub open spec fn across(fs: Seq<Seq<usize>>, f: int, e: [usize; 2]) -> int {
    let ef = edge_faces(fs, e, fs.len());
    if ef[0] == f {
        ef[1] as int
    } else {
        ef[0] as int
    }
}

/// Walking around `v` from face `f`, entered through `entry`, every edge crossed borders
/// exactly two faces and the walk is back at `f0` within `fuel` further steps.
pub open spec fn walk_ok(fs: Seq<Seq<usize>>, v: usize, f0: int, f: int, entry: [usize; 2], fuel: nat) -> bool
    decreases fuel,
{
    let exit = exit_of(fs, v, f, entry);
    let f2 = across(fs, f, exit);
    &&& edge_faces(fs, exit, fs.len()).len() == 2
    &&& (f2 == f0 || (fuel > 0 && walk_ok(fs, v, f0, f2, exit, (fuel - 1) as nat)))
}

/// The corners met walking around `v` from face `f` until back at `f0`.
pub open spec fn walk(fs: Seq<Seq<usize>>, v: usize, f0: int, f: int, entry: [usize; 2], fuel: nat) -> Seq<usize>
    decreases fuel,
{
    let exit = exit_of(fs, v, f, entry);
    let f2 = across(fs, f, exit);
    seq![corner_for(fs, f, v)] + if f2 == f0 || fuel == 0 {
        Seq::empty()
    } else {
        walk(fs, v, f0, f2, exit, (fuel - 1) as nat)
    }
}

/// Index of the first face holding `v`, or the face count when none does.
pub open spec fn first_face(fs: Seq<Seq<usize>>, v: usize) -> int
    decreases fs.len(),
{
    if fs.len() == 0 {
        0
    } else if fs[0].contains(v) {
        0
    } else {
        1 + first_face(fs.drop_first(), v)
    }
}

/// The side through which the walk around `v` enters its first face.
pub open spec fn entry_of(fs: Seq<Seq<usize>>, v: usize) -> [usize; 2] {
    let face = fs[first_face(fs, v)];
    norm([prev_of(face, first_index(face, v)), v])
}

/// The vertex figure of `v`: its corners in the faces around it, in walking order.
pub open spec fn figure_of(fs: Seq<Seq<usize>>, v: usize) -> Seq<usize> {
    let f0 = first_face(fs, v);
    walk(fs, v, f0, f0, entry_of(fs, v), 2 * fs.len())
}

/// The walk around `v` closes.
pub open spec fn closes_around(fs: Seq<Seq<usize>>, v: usize) -> bool {
    let f0 = first_face(fs, v);
    walk_ok(fs, v, f0, f0, entry_of(fs, v), 2 * fs.len())
}

/// A face holding `e` as a side holds both its endpoints.
pub proof fn lemma_side_ends(f: Seq<usize>, e: [usize; 2])
    requires
        has_side(f, e),
    ensures
        f.contains(e[0]),
        f.contains(e[1]),
{
    let k = choose|k: int| 0 <= k < f.len() && #[trigger] side(f, k) == e;
    let j = succ(k, f.len() as int);
    assert(0 <= j < f.len()) by (nonlinear_arith)
        requires 0 <= k < f.len(), j == (k + 1) % (f.len() as int);
    assert(f[k] == e[0] || f[j] == e[0]);
    assert(f[k] == e[1] || f[j] == e[1]);
}

pub proof fn lemma_first_face(fs: Seq<Seq<usize>>, v: usize)
    ensures
        0 <= first_face(fs, v) <= fs.len(),
        first_face(fs, v) < fs.len() <==> exists|i: int| 0 <= i < fs.len() && #[trigger] fs[i].contains(v),
        first_face(fs, v) < fs.len() ==> fs[first_face(fs, v)].contains(v),
        forall|k: int| 0 <= k < first_face(fs, v) ==> !(#[trigger] fs[k]).contains(v),
    decreases fs.len(),
{
    if fs.len() > 0 && !fs[0].contains(v) {
        lemma_first_face(fs.drop_first(), v);
        assert forall|k: int| 0 <= k < first_face(fs, v) implies !(#[trigger] fs[k]).contains(v) by {
            if k > 0 {
                assert(fs[k] == fs.drop_first()[k - 1]);
            }
        }
        if exists|i: int| 0 <= i < fs.len() && #[trigger] fs[i].contains(v) {
            let i = choose|i: int| 0 <= i < fs.len() && #[trigger] fs[i].contains(v);
            assert(fs.drop_first()[i - 1].contains(v));
        }
        if exists|i: int| 0 <= i < fs.drop_first().len() && #[trigger] fs.drop_first()[i].contains(v) {
            let i = choose|i: int| 0 <= i < fs.drop_first().len() && #[trigger] fs.drop_first()[i].contains(v);
            assert(fs[i + 1].contains(v));
        }
    }
}

/// Position of the first `v` in `face`.
pub fn first_pos(face: &Vec<VertexId>, v: VertexId) -> (r: usize)
    requires
        face@.contains(v),
    ensures
        r == first_index(face@, v),
        r < face@.len(),
        face@[r as int] == v,
{
    proof {
        lemma_first_index(face@, v);
    }
    let n = face.len();
    let mut p: usize = 0;
    while face[p] != v
        invariant
            n == face@.len(),
            p <= first_index(face@, v),
            first_index(face@, v) < face@.len(),
            face@[first_index(face@, v)] == v,
            forall|k: int| 0 <= k < first_index(face@, v) ==> #[trigger] face@[k] != v,
        decreases face@.len() - p,
    {
        assert(p != first_index(face@, v));
        p += 1;
    }
    p
}

/// The new vertex of face `f` at position `p`.
pub fn corner_at_exec(faces: &Vec<Vec<VertexId>>, offsets: &Vec<usize>, f: usize, p: usize) -> (r: usize)
    requires
        offsets_ok(faces@, offsets@),
        f < faces@.len(),
        p < faces@[f as int]@.len(),
    ensures
        r == corner_at(views(faces@), f as int, p as int),
        r < offset(views(faces@), faces@.len() as nat),
{
    proof {
        let fs = views(faces@);
        assert(fs[f as int] == faces@[f as int]@);
        lemma_offset(fs, f as nat, faces@.len() as nat);
    }
    offsets[f] + p
}

/// The new vertex of face `f` standing for its vertex `v`.
pub fn corner_for_exec(faces: &Vec<Vec<VertexId>>, offsets: &Vec<usize>, f: usize, v: VertexId) -> (r: usize)
    requires
        offsets_ok(faces@, offsets@),
        f < faces@.len(),
        faces@[f as int]@.contains(v),
    ensures
        r == corner_for(views(faces@), f as int, v),
        r < offset(views(faces@), faces@.len() as nat),
{
    proof {
        assert(views(faces@)[f as int] == faces@[f as int]@);
    }
    let p = first_pos(&faces[f], v);
    corner_at_exec(faces, offsets, f, p)
}

/// The number of corners before each face, and in all.
pub fn face_offsets(faces: &Vec<Vec<VertexId>>) -> (r: (Vec<usize>, usize))
    requires
        offset(views(faces@), faces@.len() as nat) <= usize::MAX,
    ensures
        offsets_ok(faces@, r.0@),
        r.1 == offset(views(faces@), faces@.len() as nat),
{
    let ghost fs = views(faces@);
    let mut offsets: Vec<usize> = Vec::new();
    let mut total: usize = 0;
    let mut f: usize = 0;
    while f < faces.len()
        invariant
            fs == views(faces@),
            offset(fs, faces@.len() as nat) <= usize::MAX,
            f <= faces@.len(),
            offsets@.len() == f,
            forall|w: int| 0 <= w < f ==> #[trigger] offsets@[w] == offset(fs, w as nat),
            total == offset(fs, f as nat),
        decreases faces@.len() - f,
    {
        proof {
            lemma_offset(fs, (f + 1) as nat, faces@.len() as nat);
            assert(fs[f as int] == faces@[f as int]@);
        }
        offsets.push(total);
        total = total + faces[f].len();
        f += 1;
    }
    (offsets, total)
}

/// Every face as the ring of its new corners.
pub fn corner_rows(faces: &Vec<Vec<VertexId>>, offsets: &Vec<usize>) -> (r: Vec<Vec<VertexId>>)
    requires
        offsets_ok(faces@, offsets@),
    ensures
        views(r@) == corner_faces(views(faces@)),
{
    let ghost fs = views(faces@);
    let mut r: Vec<Vec<VertexId>> = Vec::new();
    let mut f: usize = 0;
    while f < faces.len()
        invariant
            fs == views(faces@),
            offsets_ok(faces@, offsets@),
            f <= faces@.len(),
            r@.len() == f,
            forall|w: int| 0 <= w < f ==> #[trigger] r@[w]@ == corner_faces(fs)[w],
        decreases faces@.len() - f,
    {
        let n = faces[f].len();
        let mut row: Vec<VertexId> = Vec::new();
        let mut i: usize = 0;
        proof {
            assert(fs[f as int] == faces@[f as int]@);
        }
        while i < n
            invariant
                fs == views(faces@),
                offsets_ok(faces@, offsets@),
                f < faces@.len(),
                n == faces@[f as int]@.len(),
                n == fs[f as int].len(),
                i <= n,
                row@ == Seq::new(i as nat, |k: int| corner_at(fs, f as int, k)),
            decreases n - i,
        {
            let c = corner_at_exec(faces, offsets, f, i);
            row.push(c);
            i += 1;
            assert(row@ =~= Seq::new(i as nat, |k: int| corner_at(fs, f as int, k)));
        }
        r.push(row);
        f += 1;
    }
    assert(views(r@) =~= corner_faces(fs));
    r
}

/// The edges of every face drawn between its new corners.
pub fn face_rings(faces: &Vec<Vec<VertexId>>, offsets: &Vec<usize>) -> (r: Vec<[VertexId; 2]>)
    requires
        offsets_ok(faces@, offsets@),
    ensures
        r@ == face_rings_upto(views(faces@), faces@.len() as nat),
        list_below(r@, offset(views(faces@), faces@.len() as nat)),
{
    let ghost fs = views(faces@);
    let ghost total = offset(fs, faces@.len() as nat);
    let mut r: Vec<[VertexId; 2]> = Vec::new();
    let mut f: usize = 0;
    while f < faces.len()
        invariant
            fs == views(faces@),
            total == offset(fs, faces@.len() as nat),
            offsets_ok(faces@, offsets@),
            f <= faces@.len(),
            r@ == face_rings_upto(fs, f as nat),
            list_below(r@, total),
        decreases faces@.len() - f,
    {
        let n = faces[f].len();
        let ghost before = r@;
        let mut k: usize = 0;
        proof {
            assert(fs[f as int] == faces@[f as int]@);
        }
        while k < n
            invariant
                fs == views(faces@),
                total == offset(fs, faces@.len() as nat),
                offsets_ok(faces@, offsets@),
                f < faces@.len(),
                n == faces@[f as int]@.len(),
                n == fs[f as int].len(),
                k <= n,
                r@ == before + face_ring(fs, f as int).take(k as int),
                list_below(r@, total),
            decreases n - k,
        {
            let j = next_index(k, n);
            let a = corner_at_exec(faces, offsets, f, k);
            let b = corner_at_exec(faces, offsets, f, j);
            r.push([a, b]);
            proof {
                assert(face_ring(fs, f as int).take(k + 1) =~= face_ring(fs, f as int).take(k as int).push([a, b]));
            }
            k += 1;
        }
        proof {
            assert(face_ring(fs, f as int).take(n as int) =~= face_ring(fs, f as int));
        }
        f += 1;
    }
    r
}

/// The rungs of every side, face after face.
pub fn rungs(faces: &Vec<Vec<VertexId>>, offsets: &Vec<usize>) -> (r: Vec<[VertexId; 2]>)
    requires
        offsets_ok(faces@, offsets@),
    ensures
        r@ == rungs_upto(views(faces@), faces@.len() as nat),
        list_below(r@, offset(views(faces@), faces@.len() as nat)),
{
    let ghost fs = views(faces@);
    let ghost total = offset(fs, faces@.len() as nat);
    let nfaces = faces.len();
    let mut r: Vec<[VertexId; 2]> = Vec::new();
    let mut f: usize = 0;
    while f < faces.len()
        invariant
            fs == views(faces@),
            nfaces == faces@.len(),
            total == offset(fs, faces@.len() as nat),
            offsets_ok(faces@, offsets@),
            f <= faces@.len(),
            r@ == rungs_upto(fs, f as nat),
            list_below(r@, total),
        decreases faces@.len() - f,
    {
        let n = faces[f].len();
        let ghost before = r@;
        let mut k: usize = 0;
        proof {
            assert(fs[f as int] == faces@[f as int]@);
        }
        while k < n
            invariant
                fs == views(faces@),
                nfaces == faces@.len(),
                total == offset(fs, faces@.len() as nat),
                offsets_ok(faces@, offsets@),
                f < faces@.len(),
                n == faces@[f as int]@.len(),
                n == fs[f as int].len(),
                k <= n,
                r@ == before + rungs_in(fs, f as int, k as nat),
                list_below(r@, total),
            decreases n - k,
        {
            let e = side_at(&faces[f], k);
            let ef = faces_of_edge(faces, e);
            let ghost mid = r@;
            if ef.len() == 2 {
                let f0 = ef[0];
                let f1 = ef[1];
                proof {
                    assert(fs.len() == faces@.len());
                    lemma_edge_faces(fs, e, fs.len());
                    assert(ef@[0] == f0 && ef@[1] == f1);
                    lemma_side_ends(fs[f0 as int], e);
                    lemma_side_ends(fs[f1 as int], e);
                    assert(fs[f0 as int] == faces@[f0 as int]@);
                    assert(fs[f1 as int] == faces@[f1 as int]@);
                }
                let a0 = corner_for_exec(faces, offsets, f0, e[0]);
                let a1 = corner_for_exec(faces, offsets, f1, e[0]);
                let b0 = corner_for_exec(faces, offsets, f0, e[1]);
                let b1 = corner_for_exec(faces, offsets, f1, e[1]);
                r.push([a0, a1]);
                r.push([b0, b1]);
            }
            proof {
                assert(r@ =~= before + rungs_in(fs, f as int, (k + 1) as nat));
            }
            k += 1;
        }
        f += 1;
    }
    r
}


/// Each interior edge visit `(f, a, b, g)` has both `a` and `b` on faces `f` and `g`, below the
/// face count.
pub proof fn lemma_visits(fs: Seq<Seq<usize>>, g: nat)
    requires
        g <= fs.len(),
        fs.len() <= usize::MAX,
    ensures
        forall|i: int| #![trigger visits_upto(fs, g)[i]] 0 <= i < visits_upto(fs, g).len() ==> {
            let t = visits_upto(fs, g)[i];
            &&& t.0 < fs.len()
            &&& t.3 < fs.len()
            &&& fs[t.0 as int].contains(t.1)
            &&& fs[t.0 as int].contains(t.2)
            &&& fs[t.3 as int].contains(t.1)
            &&& fs[t.3 as int].contains(t.2)
        },
    decreases g,
{
    if g > 0 {
        lemma_visits(fs, (g - 1) as nat);
        let f = (g - 1) as nat;
        lemma_visits_in(fs, f, fs[f as int].len());
        let a = visits_upto(fs, f);
        let b = visits_in(fs, f, fs[f as int].len());
        assert(visits_upto(fs, g) =~= a + b);
        assert forall|i: int| #![trigger visits_upto(fs, g)[i]] 0 <= i < visits_upto(fs, g).len() implies {
            let t = visits_upto(fs, g)[i];
            &&& t.0 < fs.len()
            &&& t.3 < fs.len()
            &&& fs[t.0 as int].contains(t.1)
            &&& fs[t.0 as int].contains(t.2)
            &&& fs[t.3 as int].contains(t.1)
            &&& fs[t.3 as int].contains(t.2)
        } by {
            if i < a.len() {
                assert(visits_upto(fs, g)[i] == a[i]);
            } else {
                assert(visits_upto(fs, g)[i] == b[i - a.len()]);
            }
        }
    }
}

proof fn lemma_visits_in(fs: Seq<Seq<usize>>, f: nat, k: nat)
    requires
        f < fs.len(),
        k <= fs[f as int].len(),
        fs.len() <= usize::MAX,
    ensures
        forall|i: int| #![trigger visits_in(fs, f, k)[i]] 0 <= i < visits_in(fs, f, k).len() ==> {
            let t = visits_in(fs, f, k)[i];
            &&& t.0 < fs.len()
            &&& t.3 < fs.len()
            &&& fs[t.0 as int].contains(t.1)
            &&& fs[t.0 as int].contains(t.2)
            &&& fs[t.3 as int].contains(t.1)
            &&& fs[t.3 as int].contains(t.2)
        },
    decreases k,
{
    if k > 0 {
        lemma_visits_in(fs, f, (k - 1) as nat);
        let face = fs[f as int];
        let j = k - 1;
        let a = face[j];
        let nxt = succ(j, face.len() as int);
        assert(0 <= nxt < face.len()) by (nonlinear_arith)
            requires 0 <= j < face.len(), nxt == (j + 1) % (face.len() as int);
        let b = face[nxt];
        let e = side(face, j);
        let rest = visits_in(fs, f, (k - 1) as nat);
        if !sides_before(fs, f, (k - 1) as nat).contains(e) && other_face(fs, f as usize, e) is Some {
            let g = other_face(fs, f as usize, e).unwrap();
            lemma_edge_faces(fs, e, fs.len());
            let ef = edge_faces(fs, e, fs.len());
            assert(g == ef[0] || g == ef[1]);
            assert(has_side(fs[g as int], e));
            lemma_side_ends(fs[g as int], e);
            assert(e[0] == a || e[0] == b);
            assert(e[1] == a || e[1] == b);
            assert(e[0] != e[1] ==> (e[0] == a && e[1] == b) || (e[0] == b && e[1] == a));
            assert(face.contains(a) && face.contains(b)) by {
                assert(face[j] == a);
                assert(face[nxt] == b);
            }
            assert(visits_in(fs, f, k) == rest.push((f as usize, a, b, g)));
            assert forall|i: int| #![trigger visits_in(fs, f, k)[i]] 0 <= i < visits_in(fs, f, k).len() implies {
                let t = visits_in(fs, f, k)[i];
                &&& t.0 < fs.len()
                &&& t.3 < fs.len()
                &&& fs[t.0 as int].contains(t.1)
                &&& fs[t.0 as int].contains(t.2)
                &&& fs[t.3 as int].contains(t.1)
                &&& fs[t.3 as int].contains(t.2)
            } by {
                if i < rest.len() {
                    assert(visits_in(fs, f, k)[i] == rest[i]);
                }
            }
        }
    }
}

/// Appends a quad for every interior edge visit.
pub fn push_quads(
    faces: &Vec<Vec<VertexId>>,
    offsets: &Vec<usize>,
    visits: &Vec<(usize, VertexId, VertexId, usize)>,
    out: &mut Vec<Vec<VertexId>>,
)
    requires
        offsets_ok(faces@, offsets@),
        visits@ == visits_upto(views(faces@), faces@.len() as nat),
    ensures
        views(final(out)@) == views(old(out)@) + edge_quads(views(faces@)),
{
    let ghost fs = views(faces@);
    let ghost start = views(out@);
    let nfaces = faces.len();
    proof {
        assert(fs.len() == faces@.len());
        lemma_visits(fs, fs.len());
    }
    let mut i: usize = 0;
    while i < visits.len()
        invariant
            fs == views(faces@),
            nfaces == faces@.len(),
            fs.len() == faces@.len(),
            offsets_ok(faces@, offsets@),
            visits@ == visits_upto(fs, fs.len()),
            forall|q: int| #![trigger visits_upto(fs, fs.len())[q]] 0 <= q < visits_upto(fs, fs.len()).len() ==> {
                let t = visits_upto(fs, fs.len())[q];
                &&& t.0 < fs.len()
                &&& t.3 < fs.len()
                &&& fs[t.0 as int].contains(t.1)
                &&& fs[t.0 as int].contains(t.2)
                &&& fs[t.3 as int].contains(t.1)
                &&& fs[t.3 as int].contains(t.2)
            },
            i <= visits@.len(),
            views(out@) == start + edge_quads(fs).take(i as int),
        decreases visits@.len() - i,
    {
        let (f, a, b, g) = visits[i];
        proof {
            assert(visits_upto(fs, fs.len())[i as int] == (f, a, b, g));
            assert(fs[f as int] == faces@[f as int]@);
            assert(fs[g as int] == faces@[g as int]@);
        }
        let w = corner_for_exec(faces, offsets, f, a);
        let x = corner_for_exec(faces, offsets, f, b);
        let y = corner_for_exec(faces, offsets, g, b);
        let z = corner_for_exec(faces, offsets, g, a);
        let quad: Vec<VertexId> = vec![w, x, y, z];
        let ghost prev = out@;
        out.push(quad);
        proof {
            assert(views(out@) =~= views(prev).push(quad@));
            assert(edge_quads(fs)[i as int] == quad_of(fs, (f, a, b, g)));
            assert(quad@ =~= quad_of(fs, (f, a, b, g)));
            assert(edge_quads(fs).take(i + 1) =~= edge_quads(fs).take(i as int).push(quad@));
            assert(views(out@) =~= start + edge_quads(fs).take(i + 1));
        }
        i += 1;
    }
    proof {
        assert(edge_quads(fs).take(i as int) =~= edge_quads(fs));
    }
}

/// Whether `v` lies on `face`.
pub fn face_contains(face: &Vec<VertexId>, v: VertexId) -> (r: bool)
    ensures
        r == face@.contains(v),
{
    let mut i: usize = 0;
    while i < face.len()
        invariant
            i <= face@.len(),
            forall|k: int| 0 <= k < i ==> face@[k] != v,
        decreases face@.len() - i,
    {
        if face[i] == v {
            assert(face@[i as int] == v);
            return true;
        }
        i += 1;
    }
    false
}

/// Index of the first face holding `v`.
pub fn first_face_exec(faces: &Vec<Vec<VertexId>>, v: VertexId) -> (r: usize)
    requires
        on_some_face(views(faces@), v),
    ensures
        r == first_face(views(faces@), v),
        r < faces@.len(),
        views(faces@)[r as int].contains(v),
{
    let ghost fs = views(faces@);
    proof {
        lemma_first_face(fs, v);
    }
    let nf = faces.len();
    let mut f: usize = 0;
    loop
        invariant
            fs == views(faces@),
            nf == faces@.len(),
            f <= first_face(fs, v),
            first_face(fs, v) < faces@.len(),
            fs[first_face(fs, v)].contains(v),
            forall|k: int| 0 <= k < first_face(fs, v) ==> !(#[trigger] fs[k]).contains(v),
        ensures
            f == first_face(fs, v),
        decreases faces@.len() - f,
    {
        proof {
            assert(fs[f as int] == faces@[f as int]@);
        }
        let here = face_contains(&faces[f], v);
        if here {
            proof {
                if f < first_face(fs, v) {
                    assert(!fs[f as int].contains(v));
                }
            }
            break;
        }
        proof {
            if f == first_face(fs, v) {
                assert(faces@[f as int]@.contains(v));
            }
        }
        f += 1;
    }
    f
}

/// The vertex figure of `v`: walks the faces around `v`, collecting `v`'s corner in each.
pub fn figure(faces: &Vec<Vec<VertexId>>, offsets: &Vec<usize>, v: VertexId) -> (r: Vec<VertexId>)
    requires
        offsets_ok(faces@, offsets@),
        2 * faces@.len() <= usize::MAX,
        on_some_face(views(faces@), v),
        closes_around(views(faces@), v),
    ensures
        r@ == figure_of(views(faces@), v),
{
    let ghost fs = views(faces@);
    let nfaces = faces.len();
    proof {
        assert(fs.len() == faces@.len());
    }
    let f0 = first_face_exec(faces, v);
    let face0 = &faces[f0];
    proof {
        assert(fs[f0 as int] == face0@);
    }
    let k0 = first_pos(face0, v);
    let len0 = face0.len();
    let p0 = if k0 == 0 { len0 - 1 } else { k0 - 1 };
    proof {
        if k0 == 0 {
            assert((k0 + len0 - 1) % (len0 as int) == len0 - 1) by (nonlinear_arith)
                requires k0 == 0, len0 > 0;
        } else {
            assert((k0 + len0 - 1) % (len0 as int) == k0 - 1) by (nonlinear_arith)
                requires 0 < k0 < len0;
        }
    }
    let entry0 = undirected(face0[p0], v);
    let mut f = f0;
    let mut entry = entry0;
    let mut fuel: usize = 2 * nfaces;
    let mut fig: Vec<VertexId> = Vec::new();
    proof {
        assert(entry0 == entry_of(fs, v));
    }
    loop
        invariant_except_break
            walk_ok(fs, v, f0 as int, f as int, entry, fuel as nat),
            fig@ + walk(fs, v, f0 as int, f as int, entry, fuel as nat) == figure_of(fs, v),
        invariant
            fs == views(faces@),
            nfaces == faces@.len(),
            fs.len() == faces@.len(),
            offsets_ok(faces@, offsets@),
            f0 == first_face(fs, v),
            f0 < fs.len(),
            f < fs.len(),
            fs[f as int].contains(v),
        ensures
            fig@ == figure_of(fs, v),
        decreases fuel,
    {
        proof {
            assert(fs[f as int] == faces@[f as int]@);
        }
        let c = corner_for_exec(faces, offsets, f, v);
        let face = &faces[f];
        let k = first_pos(face, v);
        let len = face.len();
        let nx = next_index(k, len);
        let pv = if k == 0 { len - 1 } else { k - 1 };
        proof {
            if k == 0 {
                assert((k + len - 1) % (len as int) == len - 1) by (nonlinear_arith)
                    requires k == 0, len > 0;
            } else {
                assert((k + len - 1) % (len as int) == k - 1) by (nonlinear_arith)
                    requires 0 < k < len;
            }
        }
        let e_next = undirected(face[nx], v);
        let e_prev = undirected(face[pv], v);
        let exit = if e_next[0] == entry[0] && e_next[1] == entry[1] { e_prev } else { e_next };
        proof {
            if e_next[0] == entry[0] && e_next[1] == entry[1] {
                assert(e_next =~= entry);
            } else {
                assert(e_next != entry);
            }
            assert(exit == exit_of(fs, v, f as int, entry));
        }
        let ef = faces_of_edge(faces, exit);
        let f2 = if ef[0] == f { ef[1] } else { ef[0] };
        let ghost before = fig@;
        fig.push(c);
        proof {
            assert(f2 as int == across(fs, f as int, exit));
            lemma_edge_faces(fs, exit, fs.len());
            assert(ef@[0] == ef[0] && ef@[1] == ef[1]);
            assert(has_side(fs[f2 as int], exit));
            lemma_side_ends(fs[f2 as int], exit);
            assert(exit[0] == v || exit[1] == v);
            let w = walk(fs, v, f0 as int, f as int, entry, fuel as nat);
            if f2 == f0 || fuel == 0 {
                assert(w == seq![c]);
            } else {
                assert(w == seq![c] + walk(fs, v, f0 as int, f2 as int, exit, (fuel - 1) as nat));
            }
        }
        if f2 == f0 {
            proof {
                assert(fig@ =~= before + seq![c]);
            }
            break;
        }
        proof {
            assert(fig@ + walk(fs, v, f0 as int, f2 as int, exit, (fuel - 1) as nat) =~= before + walk(fs, v, f0 as int, f as int, entry, fuel as nat));
        }
        fuel = fuel - 1;
        f = f2;
        entry = exit;
    }
    fig
}

/// The vertices of every face, face after face.
pub fn flatten(faces: &Vec<Vec<VertexId>>) -> (r: Vec<VertexId>)
    ensures
        r@ == flat_upto(views(faces@), faces@.len() as nat),
{
    let ghost fs = views(faces@);
    let mut r: Vec<VertexId> = Vec::new();
    let mut f: usize = 0;
    while f < faces.len()
        invariant
            fs == views(faces@),
            f <= faces@.len(),
            r@ == flat_upto(fs, f as nat),
        decreases faces@.len() - f,
    {
        let face = &faces[f];
        let ghost before = r@;
        proof {
            assert(fs[f as int] == face@);
        }
        let mut i: usize = 0;
        while i < face.len()
            invariant
                i <= face@.len(),
                r@ == before + face@.take(i as int),
            decreases face@.len() - i,
        {
            r.push(face[i]);
            i += 1;
            assert(r@ =~= before + face@.take(i as int));
        }
        assert(face@.take(i as int) =~= face@);
        f += 1;
    }
    r
}

/// Faces after expansion: every face as its corner copies, one quad per interior edge, then the
/// vertex figures.
pub open spec fn expanded_faces(fs: Seq<Seq<usize>>, n: nat) -> Seq<Seq<usize>> {
    corner_faces(fs) + edge_quads(fs) + Seq::new(n, |v: int| figure_of(fs, v as usize))
}

/// Expansion keeps every face with its side count, adds a quadrilateral per interior edge
/// visit and a vertex figure per vertex.
pub proof fn law_expand_face_counts(fs: Seq<Seq<usize>>, n: nat)
    ensures
        sorted_faces(expanded_faces(fs, n)).len() == fs.len() + visits_upto(fs, fs.len()).len() + n,
        forall|f: int| 0 <= f < fs.len() ==> (#[trigger] expanded_faces(fs, n)[f]).len() == fs[f].len(),
{
}

/// `count` fresh ids from `next` on.
pub open spec fn fresh_ids(next: usize, count: nat) -> Seq<usize> {
    Seq::new(count, |i: int| (next + i) as usize)
}

/// What expansion needs: every vertex lies on a face and the walk around it closes, and the new
/// vertex and face counts fit.
pub open spec fn expand_ready(fs: Seq<Seq<usize>>, n: nat, next: usize) -> bool {
    &&& forall|v: usize| v < n ==> #[trigger] on_some_face(fs, v)
    &&& forall|v: usize| v < n ==> #[trigger] closes_around(fs, v)
    &&& offset(fs, fs.len()) <= usize::MAX
    &&& 2 * fs.len() <= usize::MAX
    &&& next + edge_quads(fs).len() + n <= usize::MAX
}

/// Appends `more` to `list`.
fn append_pairs(list: &mut Vec<[VertexId; 2]>, more: &Vec<[VertexId; 2]>)
    ensures
        final(list)@ == old(list)@ + more@,
{
    let mut i: usize = 0;
    while i < more.len()
        invariant
            i <= more@.len(),
            list@ == old(list)@ + more@.take(i as int),
        decreases more@.len() - i,
    {
        list.push(more[i]);
        i += 1;
        assert(list@ =~= old(list)@ + more@.take(i as int));
    }
    assert(more@.take(i as int) =~= more@);
}

impl Shape {
    /// `e` expand / cantellation: one new vertex per original vertex-face corner.
    /// Returns each new vertex's origin and the face-figure edges to contract for the dual.
    pub fn expand(&mut self) -> (r: (Vec<VertexId>, Vec<[VertexId; 2]>))
        requires
            old(self).wf(),
            expand_ready(old(self).faces(), old(self).graph().len(), old(self).next_id()),
        ensures
            final(self).wf(),
            ({
                let fs = old(self).faces();
                let n = old(self).graph().len();
                let list = face_rings_upto(fs, fs.len()) + rungs_upto(fs, fs.len());
                let pre_faces = expanded_faces(fs, n);
                let pre_ids = old(self).face_ids() + fresh_ids(old(self).next_id(), edge_quads(fs).len() + n);
                &&& is_apsp_of(final(self).graph(), graph_from(offset(fs, fs.len()), list))
                &&& final(self).faces() == sorted_faces(pre_faces)
                &&& final(self).face_ids() == sorted_ids(pre_faces, pre_ids)
                &&& r.0@ == flat_upto(fs, fs.len())
                &&& r.1@ == face_rings_upto(fs, fs.len())
                &&& final(self).next_id() == old(self).next_id() + edge_quads(fs).len() + n
            }),
            final(self).spring_pairs() == pairs(final(self).graph(), PairFilter::Springs(diameter_of(final(self).graph()))),
            final(self).births() == old(self).births(),
            final(self).ancestry() == Seq::new(final(self).graph().len(), |v: int| set![v as u64]),
    {
        let ghost fs = self.faces();
        let n = self.order();
        let topo = FaceTopology::snapshot(&self.cycles);
        let faces = &topo.cycles;
        let (offsets, total) = face_offsets(faces);
        let parents = flatten(faces);
        let face_edges = face_rings(faces, &offsets);
        let rung = rungs(faces, &offsets);
        let mut list = face_rings(faces, &offsets);
        append_pairs(&mut list, &rung);
        proof {
            assert(list_below(list@, total as nat)) by {
                assert forall|k: int| 0 <= k < list@.len() implies (#[trigger] list@[k])[0] < total && list@[k][1] < total by {
                    if k < face_edges@.len() {
                        assert(list@[k] == face_edges@[k]);
                    } else {
                        assert(list@[k] == rung@[k - face_edges@.len()]);
                    }
                }
            }
        }
        let distance = Distance::from_edges(total, &list);
        let mut new_cycles = corner_rows(faces, &offsets);
        let visits = topo.interior_edges();
        push_quads(faces, &offsets, &visits, &mut new_cycles);
        let ghost q = edge_quads(fs).len();
        let ghost base = views(new_cycles@);
        let mut v: usize = 0;
        while v < n
            invariant
                fs == views(faces@),
                expand_ready(fs, n as nat, self.next_id()),
                offsets_ok(faces@, offsets@),
                v <= n,
                views(new_cycles@) == base + Seq::new(v as nat, |w: int| figure_of(fs, w as usize)),
            decreases n - v,
        {
            proof {
                assert(on_some_face(fs, v));
                assert(closes_around(fs, v));
            }
            let fig = figure(faces, &offsets, v);
            let ghost prev = new_cycles@;
            new_cycles.push(fig);
            proof {
                assert(views(new_cycles@) =~= views(prev).push(fig@));
                assert(views(new_cycles@) =~= base + Seq::new((v + 1) as nat, |w: int| figure_of(fs, w as usize)));
            }
            v += 1;
        }
        let next = self.next_face_id;
        let count = visits.len() + n;
        let mut new_ids: Vec<FaceId> = Vec::new();
        let mut i: usize = 0;
        while i < topo.ids.len()
            invariant
                i <= topo.ids@.len(),
                new_ids@ == topo.ids@.take(i as int),
            decreases topo.ids@.len() - i,
        {
            new_ids.push(topo.ids[i]);
            i += 1;
            assert(new_ids@ =~= topo.ids@.take(i as int));
        }
        assert(topo.ids@.take(i as int) =~= topo.ids@);
        let mut j: usize = 0;
        while j < count
            invariant
                next + count <= usize::MAX,
                j <= count,
                new_ids@ == topo.ids@ + fresh_ids(next, j as nat),
            decreases count - j,
        {
            new_ids.push(next + j);
            j += 1;
            assert(new_ids@ =~= topo.ids@ + fresh_ids(next, j as nat));
        }
        let ghost pre_faces = expanded_faces(fs, n as nat);
        proof {
            assert(views(new_cycles@) =~= pre_faces);
            assert(new_cycles@.map_values(|c: Vec<VertexId>| c@) =~= views(new_cycles@));
        }
        self.next_face_id = next + count;
        self.distance = distance;
        self.cycles = Cycles::new(new_cycles, new_ids);
        self.cycles.sort();
        self.recompute_metrics();
        (parents, face_edges)
    }
}

} // verus!
