use vstd::prelude::*;
use crate::polyhedron::{FaceId, VertexId};
use super::{Shape, faces_below};
use super::cycles::{Cycles, connections, contract_all_faces, sorted_faces, sorted_ids};
use super::distance::conway::{contract_all, contract_all_tags, split_tags, split_corner, split_cuts, split_ring, split_spokes};
use super::distance::overlay::{overlay, lemma_overlay_connect, lemma_overlay_entry, lemma_overlay_grow};
use super::distance::{entry, rows_wf};
use super::distance::conway::lemma_rows_ext;
use super::cycles::{first_index, lemma_first_index};
use super::expand::{face_contains, first_pos};
use crate::polyhedron::merge::{edges_below, merge_sequence};
use super::distance::{Distance, PairFilter, diameter_of, pairs, lemma_pairs_upto};
use super::distance::assemble::{graph_from, list_below};
use super::distance::paths::is_apsp_of;

verus! {

/// The neighbors of each vertex `v < n` in cyclic order.
pub open spec fn orders(fs: Seq<Seq<usize>>, n: nat) -> Seq<Seq<usize>> {
    Seq::new(n, |v: int| connections(fs, v as usize))
}

/// Number of corners of the vertices below `v`.
pub open spec fn offset(ords: Seq<Seq<usize>>, v: nat) -> nat
    decreases v,
{
    if v == 0 {
        0
    } else {
        offset(ords, (v - 1) as nat) + ords[v - 1].len()
    }
}

/// Last position of `u` in `s`, or -1.
pub open spec fn last_pos(s: Seq<usize>, u: usize) -> int
    decreases s.len(),
{
    if s.len() == 0 {
        -1
    } else if s.last() == u {
        s.len() - 1
    } else {
        last_pos(s.drop_last(), u)
    }
}

/// The new vertex at the corner of `v` facing its neighbor `u`.
pub open spec fn corner(ords: Seq<Seq<usize>>, v: usize, u: usize) -> usize {
    (offset(ords, v as nat) + last_pos(ords[v as int], u)) as usize
}

/// The ring joining the corners of `v` in cyclic order.
pub open spec fn ring_of(ords: Seq<Seq<usize>>, v: usize) -> Seq<[usize; 2]> {
    let sc = ords[v as int];
    Seq::new(
        sc.len(),
        |i: int| [corner(ords, v, sc[i]), corner(ords, v, sc[(i + 1) % (sc.len() as int)])],
    )
}

/// The rings of the vertices below `v`.
pub open spec fn rings_upto(ords: Seq<Seq<usize>>, v: nat) -> Seq<[usize; 2]>
    decreases v,
{
    if v == 0 {
        Seq::empty()
    } else {
        rings_upto(ords, (v - 1) as nat) + ring_of(ords, (v - 1) as usize)
    }
}

/// Each original edge keeps its two endpoint corners joined.
pub open spec fn crossings(ords: Seq<Seq<usize>>, es: Seq<[usize; 2]>) -> Seq<[usize; 2]> {
    es.map_values(|e: [usize; 2]| [corner(ords, e[0], e[1]), corner(ords, e[1], e[0])])
}

/// The original vertex of every corner of the vertices below `v`.
pub open spec fn parents_upto(ords: Seq<Seq<usize>>, v: nat) -> Seq<usize>
    decreases v,
{
    if v == 0 {
        Seq::empty()
    } else {
        parents_upto(ords, (v - 1) as nat) + Seq::new(ords[v - 1].len(), |i: int| (v - 1) as usize)
    }
}

/// The corners met along the first `k` edges of face `f`: for the edge `(a, b)`, the corner of
/// `a` facing `b`, then the corner of `b` facing `a`.
pub open spec fn gon_upto(ords: Seq<Seq<usize>>, f: Seq<usize>, k: nat) -> Seq<usize>
    decreases k,
{
    if k == 0 {
        Seq::empty()
    } else {
        let a = f[k - 1];
        let b = f[(k as int) % (f.len() as int)];
        gon_upto(ords, f, (k - 1) as nat) + seq![corner(ords, a, b), corner(ords, b, a)]
    }
}

/// The `2n`-gon a face becomes.
pub open spec fn gon(ords: Seq<Seq<usize>>, f: Seq<usize>) -> Seq<usize> {
    gon_upto(ords, f, f.len())
}

/// The vertex-figure face of `v`: its corners in cyclic order.
pub open spec fn figure(ords: Seq<Seq<usize>>, v: usize) -> Seq<usize> {
    ords[v as int].map_values(|u: usize| corner(ords, v, u))
}

/// Faces after truncation: every face as its `2n`-gon, then the vertex figures.
pub open spec fn truncated_faces(fs: Seq<Seq<usize>>, ords: Seq<Seq<usize>>) -> Seq<Seq<usize>> {
    fs.map_values(|f: Seq<usize>| gon(ords, f)) + Seq::new(ords.len(), |v: int| figure(ords, v as usize))
}

/// Ids after truncation: the faces keep theirs, the vertex figures get fresh ones.
pub open spec fn truncated_ids(ids: Seq<usize>, next: usize, n: nat) -> Seq<usize> {
    ids + Seq::new(n, |v: int| (next + v) as usize)
}

/// Vertex `v` lies on some face.
pub open spec fn on_some_face(fs: Seq<Seq<usize>>, v: usize) -> bool {
    exists|i: int| 0 <= i < fs.len() && #[trigger] fs[i].contains(v)
}

proof fn lemma_gon_len(ords: Seq<Seq<usize>>, f: Seq<usize>, k: nat)
    ensures
        gon_upto(ords, f, k).len() == 2 * k,
    decreases k,
{
    if k > 0 {
        lemma_gon_len(ords, f, (k - 1) as nat);
    }
}

/// Truncation keeps every face, each with twice its sides, and adds one vertex figure per
/// vertex, with as many sides as the vertex has neighbors on its faces.
pub proof fn law_truncate_face_counts(fs: Seq<Seq<usize>>, ords: Seq<Seq<usize>>)
    requires
        ords.len() <= usize::MAX,
    ensures
        sorted_faces(truncated_faces(fs, ords)).len() == fs.len() + ords.len(),
        forall|f: int| 0 <= f < fs.len() ==> (#[trigger] truncated_faces(fs, ords)[f]).len() == 2 * fs[f].len(),
        forall|v: int| 0 <= v < ords.len() ==> (#[trigger] truncated_faces(fs, ords)[fs.len() + v]).len() == ords[v].len(),
{
    assert forall|f: int| 0 <= f < fs.len() implies (#[trigger] truncated_faces(fs, ords)[f]).len() == 2 * fs[f].len() by {
        lemma_gon_len(ords, fs[f], fs[f].len());
    }
    assert forall|v: int| 0 <= v < ords.len() implies (#[trigger] truncated_faces(fs, ords)[fs.len() + v]).len() == ords[v].len() by {
        assert(truncated_faces(fs, ords)[fs.len() + v] == figure(ords, v as usize));
    }
}

/// What truncation needs: every vertex lies on a face, and the corner at each end of every edge
/// and of every face side exists.
pub open spec fn truncate_ready(fs: Seq<Seq<usize>>, m: Seq<Seq<usize>>, next: usize) -> bool {
    let n = m.len();
    let ords = orders(fs, n);
    &&& faces_below(fs, n)
    &&& forall|v: usize| v < n ==> #[trigger] on_some_face(fs, v)
    &&& forall|k: int| 0 <= k < pairs(m, PairFilter::Edges).len() ==> {
        let e = #[trigger] pairs(m, PairFilter::Edges)[k];
        last_pos(ords[e[0] as int], e[1]) >= 0 && last_pos(ords[e[1] as int], e[0]) >= 0
    }
    &&& forall|i: int, k: int| 0 <= i < fs.len() && 0 <= k < fs[i].len() ==> {
        let a = #[trigger] fs[i][k];
        let b = fs[i][(k + 1) % (fs[i].len() as int)];
        last_pos(ords[a as int], b) >= 0 && last_pos(ords[b as int], a) >= 0
    }
    &&& offset(ords, n) <= usize::MAX
    &&& next + n <= usize::MAX
}

pub proof fn lemma_last_pos(s: Seq<usize>, u: usize)
    ensures
        -1 <= last_pos(s, u) < s.len(),
        last_pos(s, u) >= 0 ==> s[last_pos(s, u)] == u,
        forall|i: int| 0 <= i < s.len() && s[i] == u ==> i <= #[trigger] last_pos(s, u),
    decreases s.len(),
{
    if s.len() > 0 {
        lemma_last_pos(s.drop_last(), u);
        assert forall|i: int| 0 <= i < s.len() && s[i] == u implies i <= #[trigger] last_pos(s, u) by {
            if s.last() != u {
                assert(s.drop_last()[i] == u);
            }
        }
    }
}

pub proof fn lemma_offset(ords: Seq<Seq<usize>>, v: nat, w: nat)
    requires
        v <= w,
    ensures
        offset(ords, v) <= offset(ords, w),
        v < w ==> offset(ords, v) + ords[v as int].len() <= offset(ords, w),
    decreases w - v,
{
    if v < w {
        lemma_offset(ords, v, (w - 1) as nat);
    }
}

/// The contents of each corner list.
pub open spec fn views(ords: Seq<Vec<VertexId>>) -> Seq<Seq<usize>> {
    ords.map_values(|s: Vec<VertexId>| s@)
}

/// `offsets` holds, for each vertex, the number of corners before its own, and every corner
/// index fits in a `usize`.
pub open spec fn offsets_ok(ords: Seq<Vec<VertexId>>, offsets: Seq<usize>) -> bool {
    &&& offsets.len() == ords.len()
    &&& forall|w: int| 0 <= w < ords.len() ==> #[trigger] offsets[w] == offset(views(ords), w as nat)
    &&& offset(views(ords), ords.len() as nat) <= usize::MAX
}

/// Position of the corner of `v` facing `u`.
fn corner_of(ords: &Vec<Vec<VertexId>>, offsets: &Vec<usize>, v: VertexId, u: VertexId) -> (r: usize)
    requires
        v < ords@.len(),
        offsets_ok(ords@, offsets@),
        last_pos(ords@[v as int]@, u) >= 0,
    ensures
        r == corner(views(ords@), v, u),
        r < offset(views(ords@), ords@.len() as nat),
{
    let ghost o = views(ords@);
    let s = &ords[v];
    proof {
        assert(o[v as int] == s@);
        lemma_last_pos(s@, u);
        lemma_offset(o, v as nat, ords@.len() as nat);
        assert(s@.take(s@.len() as int) =~= s@);
    }
    let mut p = s.len();
    while p > 0 && s[p - 1] != u
        invariant
            p <= s@.len(),
            last_pos(s@, u) == last_pos(s@.take(p as int), u),
        decreases p,
    {
        proof {
            assert(s@.take(p as int).drop_last() =~= s@.take(p - 1));
        }
        p -= 1;
    }
    proof {
        if p == 0 {
            assert(s@.take(0).len() == 0);
        }
        assert(s@.take(p as int).last() == u);
    }
    offsets[v] + (p - 1)
}

/// The `2n`-gon that `face` becomes: for each side `(a, b)`, the corner of `a` facing `b`, then
/// the corner of `b` facing `a`.
#[verifier::rlimit(30)]
fn face_gon(ords: &Vec<Vec<VertexId>>, offsets: &Vec<usize>, face: &Vec<VertexId>) -> (r: Vec<VertexId>)
    requires
        offsets_ok(ords@, offsets@),
        forall|k: int| 0 <= k < face@.len() ==> {
            let a = #[trigger] face@[k];
            let b = face@[(k + 1) % (face@.len() as int)];
            &&& a < ords@.len()
            &&& b < ords@.len()
            &&& last_pos(ords@[a as int]@, b) >= 0
            &&& last_pos(ords@[b as int]@, a) >= 0
        },
    ensures
        r@ == gon(views(ords@), face@),
{
    let ghost o = views(ords@);
    let len = face.len();
    let mut g: Vec<VertexId> = Vec::new();
    let mut k: usize = 0;
    while k < len
        invariant
            k <= len,
            len == face@.len(),
            offsets_ok(ords@, offsets@),
            o == views(ords@),
            forall|q: int| 0 <= q < face@.len() ==> {
                let a = #[trigger] face@[q];
                let b = face@[(q + 1) % (face@.len() as int)];
                &&& a < ords@.len()
                &&& b < ords@.len()
                &&& last_pos(ords@[a as int]@, b) >= 0
                &&& last_pos(ords@[b as int]@, a) >= 0
            },
            g@ == gon_upto(o, face@, k as nat),
        decreases len - k,
    {
        let j = if k + 1 == len { 0 } else { k + 1 };
        proof {
            if k + 1 == len {
                assert((k as int + 1) % (len as int) == 0) by (nonlinear_arith)
                    requires k + 1 == len;
            } else {
                assert((k as int + 1) % (len as int) == k + 1) by (nonlinear_arith)
                    requires k + 1 < len;
            }
        }
        let a = face[k];
        let b = face[j];
        proof {
            assert(face@[k as int] == a);
        }
        let x = corner_of(ords, offsets, a, b);
        let y = corner_of(ords, offsets, b, a);
        g.push(x);
        g.push(y);
        proof {
            assert(g@ =~= gon_upto(o, face@, (k + 1) as nat));
        }
        k += 1;
    }
    g
}

impl Shape {
    /// `t` full truncation: one new vertex per (vertex, incident edge) corner.
    /// Returns the vertex-figure edges (so `ambo` contracts the rest) and each new vertex's origin.
    pub fn truncate(&mut self) -> (r: (Vec<[VertexId; 2]>, Vec<VertexId>))
        requires
            old(self).wf(),
            truncate_ready(old(self).faces(), old(self).graph(), old(self).next_id()),
        ensures
            final(self).wf(),
            ({
                let ords = orders(old(self).faces(), old(self).graph().len());
                let n = old(self).graph().len();
                let list = rings_upto(ords, n) + crossings(ords, pairs(old(self).graph(), PairFilter::Edges));
                let pre_faces = truncated_faces(old(self).faces(), ords);
                let pre_ids = truncated_ids(old(self).face_ids(), old(self).next_id(), n);
                &&& is_apsp_of(final(self).graph(), graph_from(offset(ords, n), list))
                &&& final(self).faces() == sorted_faces(pre_faces)
                &&& final(self).face_ids() == sorted_ids(pre_faces, pre_ids)
                &&& r.0@ == rings_upto(ords, n)
                &&& r.1@ == parents_upto(ords, n)
                &&& final(self).next_id() == old(self).next_id() + n
            }),
            final(self).spring_pairs() == pairs(final(self).graph(), PairFilter::Springs(diameter_of(final(self).graph()))),
            final(self).births() == old(self).births(),
            final(self).ancestry() == Seq::new(final(self).graph().len(), |v: int| set![v as u64]),
    {
        let ghost fs = self.faces();
        let ghost m = self.graph();
        let n = self.order();
        let ghost ords_spec = orders(fs, n as nat);
        let mut ords: Vec<Vec<VertexId>> = Vec::new();
        let mut offsets: Vec<usize> = Vec::new();
        let mut parents: Vec<VertexId> = Vec::new();
        let mut total: usize = 0;
        let mut v: usize = 0;
        while v < n
            invariant
                self.wf(),
                fs == self.faces(),
                m == self.graph(),
                n == m.len(),
                ords_spec == orders(fs, n as nat),
                truncate_ready(fs, m, self.next_id()),
                v <= n,
                ords@.len() == v,
                offsets@.len() == v,
                forall|w: int| 0 <= w < v ==> #[trigger] ords@[w]@ == ords_spec[w],
                forall|w: int| 0 <= w < v ==> #[trigger] offsets@[w] == offset(ords_spec, w as nat),
                total == offset(ords_spec, v as nat),
                parents@ == parents_upto(ords_spec, v as nat),
            decreases n - v,
        {
            proof {
                assert(self.cycles.faces() == fs);
                assert(on_some_face(fs, v));
                lemma_offset(ords_spec, (v + 1) as nat, n as nat);
            }
            offsets.push(total);
            let sc = self.cycles.sorted_connections(v);
            let d = sc.len();
            let ghost before = parents@;
            let mut i: usize = 0;
            while i < d
                invariant
                    i <= d,
                    parents@ == before + Seq::new(i as nat, |k: int| v as usize),
                decreases d - i,
            {
                parents.push(v);
                i += 1;
                assert(parents@ =~= before + Seq::new(i as nat, |k: int| v as usize));
            }
            proof {
                assert(sc@ == ords_spec[v as int]);
                assert(parents@ =~= parents_upto(ords_spec, (v + 1) as nat));
            }
            total = total + d;
            ords.push(sc);
            v += 1;
        }
        let ghost o = views(ords@);
        proof {
            assert(o =~= ords_spec);
        }
        // Vertex-figure rings; the edge list starts with them.
        let mut ring: Vec<[VertexId; 2]> = Vec::new();
        let mut list: Vec<[VertexId; 2]> = Vec::new();
        let mut v: usize = 0;
        while v < n
            invariant
                v <= n,
                n == ords@.len(),
                offsets_ok(ords@, offsets@),
                o == views(ords@),
                total == offset(o, n as nat),
                ring@ == rings_upto(o, v as nat),
                list@ == ring@,
                list_below(ring@, total as nat),
            decreases n - v,
        {
            let d = ords[v].len();
            let ghost before = ring@;
            let mut i: usize = 0;
            proof {
                assert(o[v as int] == ords@[v as int]@);
            }
            while i < d
                invariant
                    i <= d,
                    v < n,
                    n == ords@.len(),
                    d == ords@[v as int]@.len(),
                    offsets_ok(ords@, offsets@),
                    o == views(ords@),
                    total == offset(o, n as nat),
                    ring@ == before + ring_of(o, v).take(i as int),
                    list@ == ring@,
                    list_below(ring@, total as nat),
                decreases d - i,
            {
                let j = if i + 1 == d { 0 } else { i + 1 };
                proof {
                    assert(o[v as int] == ords@[v as int]@);
                    if i + 1 == d {
                        assert((i as int + 1) % (d as int) == 0) by (nonlinear_arith)
                            requires i + 1 == d;
                    } else {
                        assert((i as int + 1) % (d as int) == i + 1) by (nonlinear_arith)
                            requires i + 1 < d;
                    }
                    lemma_last_pos(o[v as int], o[v as int][i as int]);
                    lemma_last_pos(o[v as int], o[v as int][j as int]);
                }
                let a = corner_of(&ords, &offsets, v, ords[v][i]);
                let b = corner_of(&ords, &offsets, v, ords[v][j]);
                ring.push([a, b]);
                list.push([a, b]);
                proof {
                    assert(ring_of(o, v).take(i + 1) =~= ring_of(o, v).take(i as int).push([a, b]));
                    assert(ring@ =~= before + ring_of(o, v).take(i + 1));
                }
                i += 1;
            }
            proof {
                assert(ring_of(o, v).take(d as int) =~= ring_of(o, v));
            }
            v += 1;
        }
        // Original edges keep their endpoint corners joined.
        let edges = self.edges();
        proof {
            lemma_pairs_upto(m, PairFilter::Edges, n as nat);
            assert(crossings(o, edges@.take(0)) =~= Seq::<[usize; 2]>::empty());
            assert(list@ =~= ring@ + crossings(o, edges@.take(0)));
        }
        let mut k: usize = 0;
        while k < edges.len()
            invariant
                k <= edges@.len(),
                edges@ == pairs(m, PairFilter::Edges),
                truncate_ready(fs, m, self.next_id()),
                ords_spec == orders(fs, n as nat),
                n == m.len(),
                n == ords@.len(),
                offsets_ok(ords@, offsets@),
                o == views(ords@),
                o == ords_spec,
                total == offset(o, n as nat),
                list@ == ring@ + crossings(o, edges@.take(k as int)),
                list_below(list@, total as nat),
                forall|q: int| 0 <= q < edges@.len() ==> (#[trigger] edges@[q])[0] < n && edges@[q][1] < n,
            decreases edges@.len() - k,
        {
            let e = edges[k];
            proof {
                assert(edges@[k as int] == e);
                assert(pairs(m, PairFilter::Edges)[k as int] == e);
            }
            let a = corner_of(&ords, &offsets, e[0], e[1]);
            let b = corner_of(&ords, &offsets, e[1], e[0]);
            list.push([a, b]);
            proof {
                assert(edges@.take(k + 1) =~= edges@.take(k as int).push(e));
                assert(crossings(o, edges@.take(k + 1)) =~= crossings(o, edges@.take(k as int)).push([a, b]));
            }
            k += 1;
        }
        assert(edges@.take(k as int) =~= edges@);
        let distance = Distance::from_edges(total, &list);
        // Faces become 2n-gons, then one vertex figure per vertex.
        let raw = self.cycles.raw();
        let mut new_cycles: Vec<Vec<VertexId>> = Vec::new();
        let mut new_ids: Vec<FaceId> = Vec::new();
        let mut f: usize = 0;
        while f < raw.len()
            invariant
                f <= raw@.len(),
                raw@.map_values(|c: Vec<VertexId>| c@) == fs,
                self.wf(),
                fs == self.faces(),
                truncate_ready(fs, m, self.next_id()),
                ords_spec == orders(fs, n as nat),
                n == m.len(),
                n == ords@.len(),
                offsets_ok(ords@, offsets@),
                o == views(ords@),
                o == ords_spec,
                total == offset(o, n as nat),
                new_cycles@.len() == f,
                new_ids@.len() == f,
                forall|q: int| 0 <= q < f ==> #[trigger] new_cycles@[q]@ == gon(o, fs[q]),
                forall|q: int| 0 <= q < f ==> #[trigger] new_ids@[q] == self.face_ids()[q],
            decreases raw@.len() - f,
        {
            let face = &raw[f];
            proof {
                assert(fs[f as int] == face@);
                assert forall|q: int| 0 <= q < face@.len() implies {
                    let a = #[trigger] face@[q];
                    let b = face@[(q + 1) % (face@.len() as int)];
                    &&& a < ords@.len()
                    &&& b < ords@.len()
                    &&& last_pos(ords@[a as int]@, b) >= 0
                    &&& last_pos(ords@[b as int]@, a) >= 0
                } by {
                    let a = face@[q];
                    let q1 = (q + 1) % (face@.len() as int);
                    assert(0 <= q1 < face@.len()) by (nonlinear_arith)
                        requires 0 <= q < face@.len(), q1 == (q + 1) % (face@.len() as int);
                    assert(fs[f as int][q] == a);
                    assert(fs[f as int][q1] == face@[q1]);
                    assert(o[a as int] == ords@[a as int]@);
                    assert(o[face@[q1] as int] == ords@[face@[q1] as int]@);
                }
            }
            let g = face_gon(&ords, &offsets, face);
            new_cycles.push(g);
            new_ids.push(self.cycles.ids()[f]);
            f += 1;
        }
        let next = self.next_face_id;
        let mut v: usize = 0;
        while v < n
            invariant
                v <= n,
                n == ords@.len(),
                offsets_ok(ords@, offsets@),
                o == views(ords@),
                ords_spec == orders(fs, n as nat),
                o == ords_spec,
                total == offset(o, n as nat),
                next + n <= usize::MAX,
                next == self.next_id(),
                new_cycles@.len() == fs.len() + v,
                new_ids@.len() == fs.len() + v,
                forall|q: int| 0 <= q < fs.len() ==> #[trigger] new_cycles@[q]@ == gon(o, fs[q]),
                forall|q: int| 0 <= q < fs.len() ==> #[trigger] new_ids@[q] == self.face_ids()[q],
                forall|q: int| 0 <= q < v ==> #[trigger] new_cycles@[fs.len() + q]@ == figure(o, q as usize),
                forall|q: int| 0 <= q < v ==> #[trigger] new_ids@[fs.len() + q] == (next + q) as usize,
            decreases n - v,
        {
            let d = ords[v].len();
            let mut fig: Vec<VertexId> = Vec::new();
            let mut i: usize = 0;
            proof {
                assert(o[v as int] == ords@[v as int]@);
            }
            while i < d
                invariant
                    i <= d,
                    v < n,
                    n == ords@.len(),
                    d == ords@[v as int]@.len(),
                    offsets_ok(ords@, offsets@),
                    o == views(ords@),
                    total == offset(o, n as nat),
                    fig@ == figure(o, v).take(i as int),
                decreases d - i,
            {
                proof {
                    assert(o[v as int] == ords@[v as int]@);
                    lemma_last_pos(o[v as int], o[v as int][i as int]);
                }
                let c = corner_of(&ords, &offsets, v, ords[v][i]);
                fig.push(c);
                proof {
                    assert(fig@ =~= figure(o, v).take(i + 1));
                }
                i += 1;
            }
            proof {
                assert(figure(o, v).take(d as int) =~= figure(o, v));
            }
            new_cycles.push(fig);
            new_ids.push(next + v);
            v += 1;
        }
        let ghost pre_faces = truncated_faces(fs, o);
        let ghost pre_ids = truncated_ids(self.face_ids(), next, n as nat);
        proof {
            let nf = fs.len();
            assert(o.len() == n);
            assert forall|q: int| 0 <= q < nf + n implies #[trigger] new_cycles@[q]@ == pre_faces[q] by {
                if q < nf {
                    assert(new_cycles@[q]@ == gon(o, fs[q]));
                } else {
                    assert(new_cycles@[nf + (q - nf)]@ == figure(o, (q - nf) as usize));
                }
            }
            assert(new_cycles@.map_values(|c: Vec<VertexId>| c@) =~= pre_faces);
            assert forall|q: int| 0 <= q < nf + n implies #[trigger] new_ids@[q] == pre_ids[q] by {
                if q < nf {
                    assert(new_ids@[q] == self.face_ids()[q]);
                } else {
                    assert(new_ids@[nf + (q - nf)] == (next + (q - nf)) as usize);
                }
            }
            assert(new_ids@ =~= pre_ids);
        }
        self.next_face_id = next + n;
        self.distance = distance;
        self.cycles = Cycles::new(new_cycles, new_ids);
        self.cycles.sort();
        self.recompute_metrics();
        (ring, parents)
    }
}

/// A copy of a list of pairs.
pub fn copy_pairs(v: &Vec<[VertexId; 2]>) -> (r: Vec<[VertexId; 2]>)
    ensures
        r@ == v@,
{
    let mut r: Vec<[VertexId; 2]> = Vec::new();
    let mut i: usize = 0;
    while i < v.len()
        invariant
            i <= v@.len(),
            r@ == v@.take(i as int),
        decreases v@.len() - i,
    {
        r.push(v[i]);
        i += 1;
        assert(r@ =~= v@.take(i as int));
    }
    assert(v@.take(i as int) =~= v@);
    r
}

impl Shape {
    /// Contracts `edges` in order, in the graph and in the faces alike; faces that degenerate
    /// below three vertices are dropped.
    pub fn contract_edges(&mut self, edges: Vec<[VertexId; 2]>)
        requires
            old(self).wf(),
            edges_below(edges@, old(self).graph().len()),
        ensures
            final(self).wf(),
            ({
                let ms = merge_sequence(edges@);
                let (fs, ids) = contract_all_faces(old(self).faces(), old(self).face_ids(), ms);
                &&& is_apsp_of(final(self).graph(), contract_all(old(self).graph(), ms))
                &&& final(self).faces() == sorted_faces(fs)
                &&& final(self).face_ids() == sorted_ids(fs, ids)
            }),
            final(self).spring_pairs() == pairs(final(self).graph(), PairFilter::Springs(diameter_of(final(self).graph()))),
            final(self).next_id() == old(self).next_id(),
            final(self).births() == old(self).births(),
            final(self).ancestry() == contract_all_tags(old(self).ancestry(), merge_sequence(edges@)),
    {
        let copy = copy_pairs(&edges);
        self.distance.contract_edges(copy);
        // Both walks replay the same merge sequence, so the face list tracks the matrix exactly.
        self.cycles.contract_edges(edges);
        self.cycles.sort();
        self.recompute_metrics();
    }
}

/// Face `f` after splitting `v` into a ring: its first `v` is replaced by the ring vertices
/// standing for the neighbors before and after it.
pub open spec fn split_face(f: Seq<usize>, v: usize, sc: Seq<usize>, n: nat) -> Seq<usize> {
    if f.contains(v) {
        let k = first_index(f, v);
        let prev = f[(k + f.len() - 1) % (f.len() as int)];
        let next = f[(k + 1) % (f.len() as int)];
        f.take(k) + seq![split_corner(v, n, first_index(sc, prev)), split_corner(v, n, first_index(sc, next))] + f.skip(k + 1)
    } else {
        f
    }
}

/// What splitting `v` needs: `v` on a face, its neighbors in cyclic order existing vertices,
/// the neighbors before and after `v` on every face through it among them, and room for the
/// new vertices and face id.
pub open spec fn split_ready(fs: Seq<Seq<usize>>, n: nat, v: usize, next: usize) -> bool {
    let sc = connections(fs, v);
    &&& v < n
    &&& on_some_face(fs, v)
    &&& sc.len() >= 1
    &&& forall|i: int| 0 <= i < sc.len() ==> #[trigger] sc[i] < n
    &&& forall|i: int| 0 <= i < fs.len() && #[trigger] fs[i].contains(v) ==> {
        let f = fs[i];
        let k = first_index(f, v);
        &&& sc.contains(f[(k + f.len() - 1) % (f.len() as int)])
        &&& sc.contains(f[(k + 1) % (f.len() as int)])
    }
    &&& n + sc.len() - 1 <= usize::MAX
    &&& next < usize::MAX
}

/// Face `face` after splitting `v`.
fn split_face_exec(face: &Vec<VertexId>, v: VertexId, sc: &Vec<VertexId>, corners: &Vec<VertexId>, n: usize) -> (r: Vec<VertexId>)
    requires
        corners@.len() == sc@.len(),
        forall|i: int| 0 <= i < corners@.len() ==> #[trigger] corners@[i] == split_corner(v, n as nat, i),
        face@.contains(v) ==> {
            let k = first_index(face@, v);
            &&& sc@.contains(face@[(k + face@.len() - 1) % (face@.len() as int)])
            &&& sc@.contains(face@[(k + 1) % (face@.len() as int)])
        },
    ensures
        r@ == split_face(face@, v, sc@, n as nat),
{
    let mut r: Vec<VertexId> = Vec::new();
    if !face_contains(face, v) {
        let mut i: usize = 0;
        while i < face.len()
            invariant
                i <= face@.len(),
                r@ == face@.take(i as int),
            decreases face@.len() - i,
        {
            r.push(face[i]);
            i += 1;
            assert(r@ =~= face@.take(i as int));
        }
        assert(face@.take(i as int) =~= face@);
        return r;
    }
    let len = face.len();
    let k = first_pos(face, v);
    let p = if k == 0 { len - 1 } else { k - 1 };
    let q = if k + 1 == len { 0 } else { k + 1 };
    proof {
        if k == 0 {
            assert((k + len - 1) % (len as int) == len - 1) by (nonlinear_arith)
                requires k == 0, len > 0;
        } else {
            assert((k + len - 1) % (len as int) == k - 1) by (nonlinear_arith)
                requires 0 < k < len;
        }
        if k + 1 == len {
            assert((k + 1) % (len as int) == 0) by (nonlinear_arith)
                requires k + 1 == len;
        } else {
            assert((k + 1) % (len as int) == k + 1) by (nonlinear_arith)
                requires k + 1 < len;
        }
    }
    let j = first_pos(sc, face[p]);
    let mm = first_pos(sc, face[q]);
    let mut i: usize = 0;
    while i < k
        invariant
            i <= k,
            k < face@.len(),
            r@ == face@.take(i as int),
        decreases k - i,
    {
        r.push(face[i]);
        i += 1;
        assert(r@ =~= face@.take(i as int));
    }
    r.push(corners[j]);
    r.push(corners[mm]);
    let ghost mid = r@;
    let mut i: usize = k + 1;
    while i < len
        invariant
            k + 1 <= i <= len,
            len == face@.len(),
            r@ == mid + face@.subrange(k + 1, i as int),
        decreases len - i,
    {
        r.push(face[i]);
        i += 1;
        assert(r@ =~= mid + face@.subrange(k + 1, i as int));
    }
    assert(r@ =~= split_face(face@, v, sc@, n as nat));
    r
}

impl Shape {
    /// How many ring vertices `split_vertex(v)` makes: one per neighbor of `v` on its faces.
    pub fn split_size(&self, v: VertexId) -> (r: usize)
        requires
            self.wf(),
            on_some_face(self.faces(), v),
        ensures
            r == connections(self.faces(), v).len(),
    {
        assert(self.cycles.faces() == self.faces());
        self.cycles.sorted_connections(v).len()
    }

    /// Whether `split_vertex(v)` may be called: `v` is a vertex on some face, and each face
    /// through `v` runs on both sides of it to neighbors of `v`.
    pub fn can_split(&self, v: VertexId) -> (r: bool)
        requires
            self.wf(),
        ensures
            r == split_ready(self.faces(), self.graph().len(), v, self.next_id()),
    {
        let ghost fs = self.faces();
        let n = self.order();
        if v >= n || self.next_face_id == usize::MAX {
            return false;
        }
        let raw = self.cycles.raw();
        assert(raw@.len() == fs.len());
        let mut found = false;
        let mut i: usize = 0;
        while i < raw.len()
            invariant
                raw@.map_values(|c: Vec<VertexId>| c@) == fs,
                raw@.len() == fs.len(),
                i <= raw@.len(),
                found == exists|j: int| 0 <= j < i && #[trigger] fs[j].contains(v),
            decreases raw@.len() - i,
        {
            assert(fs[i as int] == raw@[i as int]@);
            if face_contains(&raw[i], v) {
                found = true;
            }
            i += 1;
        }
        if !found {
            return false;
        }
        assert(self.cycles.faces() == fs);
        let sc = self.cycles.sorted_connections(v);
        if sc.len() == 0 || sc.len() - 1 > usize::MAX - n {
            return false;
        }
        let mut i: usize = 0;
        while i < sc.len()
            invariant
                fs == self.faces(),
                n == self.graph().len(),
                sc@ == connections(fs, v),
                i <= sc@.len(),
                forall|j: int| 0 <= j < i ==> #[trigger] sc@[j] < n,
            decreases sc@.len() - i,
        {
            if sc[i] >= n {
                return false;
            }
            i += 1;
        }
        let mut f: usize = 0;
        while f < raw.len()
            invariant
                raw@.map_values(|c: Vec<VertexId>| c@) == fs,
                raw@.len() == fs.len(),
                fs == self.faces(),
                sc@ == connections(fs, v),
                f <= raw@.len(),
                forall|q: int| 0 <= q < f && #[trigger] fs[q].contains(v) ==> {
                    let g = fs[q];
                    let k = first_index(g, v);
                    &&& sc@.contains(g[(k + g.len() - 1) % (g.len() as int)])
                    &&& sc@.contains(g[(k + 1) % (g.len() as int)])
                },
            decreases raw@.len() - f,
        {
            let face = &raw[f];
            assert(fs[f as int] == face@);
            if face_contains(face, v) {
                let len = face.len();
                let k = first_pos(face, v);
                let p = if k == 0 { len - 1 } else { k - 1 };
                let q = if k + 1 == len { 0 } else { k + 1 };
                proof {
                    if k == 0 {
                        assert((k + len - 1) % (len as int) == len - 1) by (nonlinear_arith)
                            requires k == 0, len > 0;
                    } else {
                        assert((k + len - 1) % (len as int) == k - 1) by (nonlinear_arith)
                            requires 0 < k < len;
                    }
                    if k + 1 == len {
                        assert((k + 1) % (len as int) == 0) by (nonlinear_arith)
                            requires k + 1 == len;
                    } else {
                        assert((k + 1) % (len as int) == k + 1) by (nonlinear_arith)
                            requires k + 1 < len;
                    }
                }
                if !face_contains(&sc, face[p]) || !face_contains(&sc, face[q]) {
                    assert(fs[f as int].contains(v));
                    return false;
                }
            }
            f += 1;
        }
        true
    }

    /// Splits `v` into a ring of new vertices, one per neighbor in cyclic order; the ring is a
    /// new face and every face through `v` passes through the two ring vertices it borders.
    /// Returns the ring's edges.
    pub fn split_vertex(&mut self, v: VertexId) -> (r: Vec<[usize; 2]>)
        requires
            old(self).wf(),
            split_ready(old(self).faces(), old(self).graph().len(), v, old(self).next_id()),
        ensures
            final(self).wf(),
            ({
                let fs = old(self).faces();
                let m = old(self).graph();
                let n = m.len();
                let sc = connections(fs, v);
                let d = sc.len();
                let ring = Seq::new(d, |i: int| split_corner(v, n, i));
                let pre_faces = fs.map_values(|f: Seq<usize>| split_face(f, v, sc, n)).push(ring);
                let pre_ids = old(self).face_ids().push(old(self).next_id());
                &&& final(self).graph() == overlay(m, split_cuts(v, sc), seq![[v, sc[0]]], n, (n + d - 1) as nat, split_spokes(v, sc, n) + split_ring(v, d, n))
                &&& final(self).faces() == sorted_faces(pre_faces)
                &&& final(self).face_ids() == sorted_ids(pre_faces, pre_ids)
                &&& r@ == split_ring(v, d, n)
                &&& final(self).next_id() == old(self).next_id() + 1
            }),
            final(self).spring_pairs() == old(self).spring_pairs(),
            final(self).births() == old(self).births(),
            final(self).ancestry() == split_tags(old(self).ancestry(), v as int, (connections(old(self).faces(), v).len() - 1) as nat),
    {
        let ghost fs = self.faces();
        let ghost m = self.graph();
        let ghost next0 = self.next_id();
        let n = self.order();
        proof {
            assert(self.cycles.faces() == fs);
        }
        let sc = self.cycles.sorted_connections(v);
        let mut conns: Vec<VertexId> = Vec::new();
        let mut i: usize = 0;
        while i < sc.len()
            invariant
                i <= sc@.len(),
                conns@ == sc@.take(i as int),
            decreases sc@.len() - i,
        {
            conns.push(sc[i]);
            i += 1;
            assert(conns@ =~= sc@.take(i as int));
        }
        assert(sc@.take(i as int) =~= sc@);
        let edges = self.distance.split_vertex(v, conns);
        let d = sc.len();
        // The ring edges are [corner_i, corner_i+1], where corner_i stays adjacent to sc[i].
        let mut corners: Vec<VertexId> = Vec::new();
        let mut i: usize = 0;
        while i < edges.len()
            invariant
                d == sc@.len(),
                edges@ == split_ring(v, d as nat, n as nat),
                i <= d,
                corners@ == Seq::new(i as nat, |k: int| split_corner(v, n as nat, k)),
            decreases d - i,
        {
            corners.push(edges[i][0]);
            i += 1;
            assert(corners@ =~= Seq::new(i as nat, |k: int| split_corner(v, n as nat, k)));
        }
        // Faces containing v keep their id, with v replaced by prev's then next's corner.
        let raw = self.cycles.raw();
        let ghost ids = self.face_ids();
        let mut new_cycles: Vec<Vec<VertexId>> = Vec::new();
        let mut new_ids: Vec<FaceId> = Vec::new();
        let mut f: usize = 0;
        while f < raw.len()
            invariant
                raw@.map_values(|c: Vec<VertexId>| c@) == fs,
                self.wf(),
                fs == self.faces(),
                ids == self.face_ids(),
                split_ready(fs, n as nat, v, next0),
                next0 == self.next_id(),
                sc@ == connections(fs, v),
                d == sc@.len(),
                corners@ == Seq::new(d as nat, |k: int| split_corner(v, n as nat, k)),
                f <= raw@.len(),
                new_cycles@.len() == f,
                new_ids@.len() == f,
                forall|q: int| 0 <= q < f ==> #[trigger] new_cycles@[q]@ == split_face(fs[q], v, sc@, n as nat),
                forall|q: int| 0 <= q < f ==> #[trigger] new_ids@[q] == ids[q],
            decreases raw@.len() - f,
        {
            proof {
                assert(fs[f as int] == raw@[f as int]@);
                if raw@[f as int]@.contains(v) {
                    assert(fs[f as int].contains(v));
                }
            }
            let face = split_face_exec(&raw[f], v, &sc, &corners, n);
            new_cycles.push(face);
            new_ids.push(self.cycles.ids()[f]);
            f += 1;
        }
        // The corner ring itself is the new vertex-figure face.
        new_cycles.push(corners);
        new_ids.push(self.next_face_id);
        self.next_face_id = self.next_face_id + 1;
        proof {
            let ring = Seq::new(d as nat, |i: int| split_corner(v, n as nat, i));
            assert(new_cycles@.map_values(|c: Vec<VertexId>| c@) =~= fs.map_values(|g: Seq<usize>| split_face(g, v, sc@, n as nat)).push(ring));
            assert(new_ids@ =~= ids.push(old(self).next_id()));
        }
        self.cycles = Cycles::new(new_cycles, new_ids);
        self.cycles.sort();
        edges
    }
}

/// Splitting `v` with `d` neighbors on its faces turns it into a ring of `d` vertices (`v` and
/// `d - 1` new ones joined by `d` ring edges) and adds the ring as one new face.
pub proof fn law_split_vertex_counts(fs: Seq<Seq<usize>>, m: Seq<Seq<usize>>, v: usize)
    requires
        connections(fs, v).len() >= 1,
    ensures
        ({
            let n = m.len();
            let sc = connections(fs, v);
            let d = sc.len();
            let ring = Seq::new(d, |i: int| split_corner(v, n, i));
            &&& overlay(m, split_cuts(v, sc), seq![[v, sc[0]]], n, (n + d - 1) as nat, split_spokes(v, sc, n) + split_ring(v, d, n)).len() == n + d - 1
            &&& split_ring(v, d, n).len() == d
            &&& sorted_faces(fs.map_values(|f: Seq<usize>| split_face(f, v, sc, n)).push(ring)).len() == fs.len() + 1
        }),
{
}

/// Kis raises one new vertex over each face it selects.
pub proof fn law_kis_vertex_count(fs: Seq<Seq<usize>>, degree: Option<usize>, m: Seq<Seq<usize>>)
    ensures
        overlay(m, Seq::empty(), Seq::empty(), m.len(), (m.len() + kis_apexes(fs, degree, fs.len())) as nat, kis_spokes(fs, degree, m.len(), fs.len())).len()
            == m.len() + kis_apexes(fs, degree, fs.len()),
{
}

/// `kis` raises an apex over the face: every face when no degree is given, else the faces
/// with that many sides.
pub open spec fn kis_selects(f: Seq<usize>, degree: Option<usize>) -> bool {
    match degree {
        Some(d) => f.len() == d,
        None => true,
    }
}

/// The number of apexes raised over the faces below `g`.
pub open spec fn kis_apexes(fs: Seq<Seq<usize>>, degree: Option<usize>, g: nat) -> nat
    decreases g,
{
    if g == 0 {
        0
    } else {
        kis_apexes(fs, degree, (g - 1) as nat) + if kis_selects(fs[g - 1], degree) { 1nat } else { 0nat }
    }
}

/// The number of triangles the faces below `g` split into.
pub open spec fn kis_tris(fs: Seq<Seq<usize>>, degree: Option<usize>, g: nat) -> nat
    decreases g,
{
    if g == 0 {
        0
    } else {
        kis_tris(fs, degree, (g - 1) as nat) + if kis_selects(fs[g - 1], degree) { fs[g - 1].len() } else { 0nat }
    }
}

/// The triangles of face `f` under apex `a`.
pub open spec fn kis_triangles(f: Seq<usize>, a: usize) -> Seq<Seq<usize>> {
    Seq::new(f.len(), |k: int| seq![a, f[k], f[(k + 1) % (f.len() as int)]])
}

/// The faces after `kis` on the faces below `g`, the apexes numbered from `n`.
pub open spec fn kis_faces(fs: Seq<Seq<usize>>, degree: Option<usize>, n: nat, g: nat) -> Seq<Seq<usize>>
    decreases g,
{
    if g == 0 {
        Seq::empty()
    } else {
        let f = fs[g - 1];
        kis_faces(fs, degree, n, (g - 1) as nat) + if kis_selects(f, degree) {
            kis_triangles(f, (n + kis_apexes(fs, degree, (g - 1) as nat)) as usize)
        } else {
            seq![f]
        }
    }
}

/// Kis keeps each face it does not select and puts in place of each selected face as many
/// triangles as it has sides, so the face count goes down by the apexes and up by the triangles.
pub proof fn law_kis_face_count(fs: Seq<Seq<usize>>, degree: Option<usize>, n: nat, g: nat)
    requires
        g <= fs.len(),
    ensures
        kis_apexes(fs, degree, g) <= g,
        sorted_faces(kis_faces(fs, degree, n, g)).len() == g - kis_apexes(fs, degree, g) + kis_tris(fs, degree, g),
    decreases g,
{
    if g > 0 {
        law_kis_face_count(fs, degree, n, (g - 1) as nat);
    }
}

/// The ids after `kis` on the faces below `g`: untouched faces keep theirs, triangles get fresh ones.
pub open spec fn kis_ids(fs: Seq<Seq<usize>>, ids: Seq<usize>, degree: Option<usize>, next: usize, g: nat) -> Seq<usize>
    decreases g,
{
    if g == 0 {
        Seq::empty()
    } else {
        let f = fs[g - 1];
        kis_ids(fs, ids, degree, next, (g - 1) as nat) + if kis_selects(f, degree) {
            Seq::new(f.len(), |k: int| (next + kis_tris(fs, degree, (g - 1) as nat) + k) as usize)
        } else {
            seq![ids[g - 1]]
        }
    }
}

/// The `(triangle id, parent face id)` pairs recorded by `kis` on the faces below `g`.
pub open spec fn kis_births(fs: Seq<Seq<usize>>, ids: Seq<usize>, degree: Option<usize>, next: usize, g: nat) -> Seq<(usize, usize)>
    decreases g,
{
    if g == 0 {
        Seq::empty()
    } else {
        let f = fs[g - 1];
        kis_births(fs, ids, degree, next, (g - 1) as nat) + if kis_selects(f, degree) {
            Seq::new(f.len(), |k: int| ((next + kis_tris(fs, degree, (g - 1) as nat) + k) as usize, ids[g - 1]))
        } else {
            Seq::empty()
        }
    }
}

/// The edges from each apex to its face's vertices, for the faces below `g`.
pub open spec fn kis_spokes(fs: Seq<Seq<usize>>, degree: Option<usize>, n: nat, g: nat) -> Seq<[usize; 2]>
    decreases g,
{
    if g == 0 {
        Seq::empty()
    } else {
        let f = fs[g - 1];
        kis_spokes(fs, degree, n, (g - 1) as nat) + if kis_selects(f, degree) {
            Seq::new(f.len(), |k: int| [(n + kis_apexes(fs, degree, (g - 1) as nat)) as usize, f[k]])
        } else {
            Seq::empty()
        }
    }
}

/// The ancestor sets after `k` new vertices were added with fresh tags counted up from `t`.
pub open spec fn fresh_tags(tags: Seq<Set<u64>>, t: u64, k: nat) -> Seq<Set<u64>> {
    tags + Seq::new(k, |i: int| set![(t + i) as u64])
}

/// What `kis` needs: faces over existing vertices and room for the apexes, tags and ids.
pub open spec fn kis_ready(fs: Seq<Seq<usize>>, degree: Option<usize>, n: nat, next: usize, tag: u64) -> bool {
    &&& faces_below(fs, n)
    &&& n + kis_apexes(fs, degree, fs.len()) <= usize::MAX
    &&& tag + kis_apexes(fs, degree, fs.len()) <= u64::MAX
    &&& next + kis_tris(fs, degree, fs.len()) <= usize::MAX
}

proof fn lemma_kis_mono(fs: Seq<Seq<usize>>, degree: Option<usize>, g: nat, h: nat)
    requires
        g <= h,
    ensures
        kis_apexes(fs, degree, g) <= kis_apexes(fs, degree, h),
        kis_tris(fs, degree, g) <= kis_tris(fs, degree, h),
    decreases h - g,
{
    if g < h {
        lemma_kis_mono(fs, degree, g, (h - 1) as nat);
    }
}

impl Shape {
    /// `k` kis: raises an apex over every face (or every face of the given degree), splitting
    /// it into triangles that record it as their parent. Returns the edges from before.
    pub fn kis(&mut self, degree: Option<usize>) -> (r: Vec<[VertexId; 2]>)
        requires
            old(self).wf(),
            kis_ready(old(self).faces(), degree, old(self).graph().len(), old(self).next_id(), old(self).tag_counter()),
        ensures
            final(self).wf(),
            ({
                let fs = old(self).faces();
                let m = old(self).graph();
                let n = m.len();
                let g = fs.len();
                let pre_faces = kis_faces(fs, degree, n, g);
                let pre_ids = kis_ids(fs, old(self).face_ids(), degree, old(self).next_id(), g);
                &&& is_apsp_of(final(self).graph(), overlay(m, Seq::empty(), Seq::empty(), n, (n + kis_apexes(fs, degree, g)) as nat, kis_spokes(fs, degree, n, g)))
                &&& final(self).faces() == sorted_faces(pre_faces)
                &&& final(self).face_ids() == sorted_ids(pre_faces, pre_ids)
                &&& final(self).births() == old(self).births() + kis_births(fs, old(self).face_ids(), degree, old(self).next_id(), g)
                &&& final(self).next_id() == old(self).next_id() + kis_tris(fs, degree, g)
                &&& r@ == pairs(m, PairFilter::Edges)
            }),
            final(self).spring_pairs() == pairs(final(self).graph(), PairFilter::Springs(diameter_of(final(self).graph()))),
            final(self).ancestry() == fresh_tags(old(self).ancestry(), old(self).tag_counter(), kis_apexes(old(self).faces(), degree, old(self).faces().len())),
    {
        let ghost fs = self.faces();
        let ghost m = self.graph();
        let ghost ids = self.face_ids();
        let ghost next0 = self.next_id();
        let ghost births0 = self.births();
        let ghost tag0 = self.tag_counter();
        let ghost tags0 = self.ancestry();
        let n = self.order();
        let edges = self.edges();
        let raw = self.cycles.raw();
        proof {
            lemma_overlay_entry(m, Seq::empty(), Seq::empty(), n as nat, n as nat, Seq::empty());
            assert forall|x: int, y: int| 0 <= x < n && 0 <= y < n implies #[trigger] entry(m, x, y) == entry(overlay(m, Seq::empty(), Seq::empty(), n as nat, n as nat, Seq::empty()), x, y) by {}
            lemma_rows_ext(m, overlay(m, Seq::empty(), Seq::empty(), n as nat, n as nat, Seq::empty()));
            lemma_kis_mono(fs, degree, 0, fs.len());
        }
        let ghost mut list: Seq<[usize; 2]> = Seq::empty();
        let mut new_cycles: Vec<Vec<VertexId>> = Vec::new();
        let mut new_ids: Vec<FaceId> = Vec::new();
        let mut f: usize = 0;
        while f < raw.len()
            invariant
                raw@.map_values(|c: Vec<VertexId>| c@) == fs,
                self.parts_wf(),
                self.distance.wf(),
                rows_wf(m),
                m.len() == n,
                kis_ready(fs, degree, n as nat, next0, tag0),
                fs == self.faces(),
                ids == self.face_ids(),
                f <= raw@.len(),
                self.distance@ == overlay(m, Seq::empty(), Seq::empty(), n as nat, (n + kis_apexes(fs, degree, f as nat)) as nat, list),
                list == kis_spokes(fs, degree, n as nat, f as nat),
                list_below(list, (n + kis_apexes(fs, degree, f as nat)) as nat),
                self.distance.tag_counter() == tag0 + kis_apexes(fs, degree, f as nat),
                self.distance.tags() == fresh_tags(tags0, tag0, kis_apexes(fs, degree, f as nat)),
                self.next_face_id == next0 + kis_tris(fs, degree, f as nat),
                self.birth_parents@ == births0 + kis_births(fs, ids, degree, next0, f as nat),
                views(new_cycles@) == kis_faces(fs, degree, n as nat, f as nat),
                new_ids@ == kis_ids(fs, ids, degree, next0, f as nat),
                new_cycles@.len() == new_ids@.len(),
            decreases raw@.len() - f,
        {
            let face = &raw[f];
            let len = face.len();
            let id = self.cycles.ids()[f];
            proof {
                assert(fs[f as int] == face@);
                assert(ids[f as int] == id);
                lemma_kis_mono(fs, degree, (f + 1) as nat, fs.len());
            }
            let selected = match degree {
                Some(d) => len == d,
                None => true,
            };
            if !selected {
                let mut copy: Vec<VertexId> = Vec::new();
                let mut k: usize = 0;
                while k < len
                    invariant
                        k <= len,
                        len == face@.len(),
                        copy@ == face@.take(k as int),
                    decreases len - k,
                {
                    copy.push(face[k]);
                    k += 1;
                    assert(copy@ =~= face@.take(k as int));
                }
                assert(face@.take(k as int) =~= face@);
                let ghost prev = new_cycles@;
                new_cycles.push(copy);
                new_ids.push(id);
                proof {
                    assert(views(new_cycles@) =~= views(prev).push(face@));
                    assert(kis_spokes(fs, degree, n as nat, (f + 1) as nat) =~= list);
                    assert(kis_births(fs, ids, degree, next0, (f + 1) as nat) =~= kis_births(fs, ids, degree, next0, f as nat));
                }
            } else {
                let ghost base = n + kis_apexes(fs, degree, f as nat);
                let ghost tris0 = kis_tris(fs, degree, f as nat);
                let v = self.distance.insert();
                proof {
                    assert(self.distance.tags() =~= fresh_tags(tags0, tag0, kis_apexes(fs, degree, f as nat) + 1));
                    lemma_overlay_grow(m, Seq::empty(), Seq::empty(), n as nat, base as nat, list, self.distance@);
                }
                let ghost list0 = list;
                let ghost cyc0 = views(new_cycles@);
                let ghost ids0 = new_ids@;
                let ghost births1 = self.birth_parents@;
                let mut k: usize = 0;
                while k < len
                    invariant
                        self.parts_wf(),
                        self.distance.wf(),
                        rows_wf(m),
                        m.len() == n,
                        faces_below(fs, n as nat),
                        f < fs.len(),
                        fs[f as int] == face@,
                        len == face@.len(),
                        v == base,
                        n <= base,
                        base + 1 <= usize::MAX,
                        new_cycles@.len() == new_ids@.len(),
                        self.next_face_id + (len - k) <= usize::MAX,
                        k <= len,
                        self.distance@ == overlay(m, Seq::empty(), Seq::empty(), n as nat, (base + 1) as nat, list),
                        list == list0 + Seq::new(len as nat, |q: int| [v, face@[q]]).take(k as int),
                        list_below(list, (base + 1) as nat),
                        self.next_face_id == next0 + tris0 + k,
                        self.birth_parents@ == births1 + Seq::new(len as nat, |q: int| ((next0 + tris0 + q) as usize, id)).take(k as int),
                        views(new_cycles@) == cyc0 + kis_triangles(face@, v).take(k as int),
                        new_ids@ == ids0 + Seq::new(len as nat, |q: int| (next0 + tris0 + q) as usize).take(k as int),
                        fs == self.faces(),
                        ids == self.face_ids(),
                        self.distance.tag_counter() == tag0 + kis_apexes(fs, degree, f as nat) + 1,
                        self.distance.tags() == fresh_tags(tags0, tag0, kis_apexes(fs, degree, f as nat) + 1),
                    decreases len - k,
                {
                    let w = face[k];
                    proof {
                        assert(fs[f as int][k as int] == w);
                    }
                    self.distance.connect([v, w]);
                    proof {
                        lemma_overlay_connect(m, Seq::empty(), Seq::empty(), n as nat, (base + 1) as nat, list, v as int, w as int, self.distance@);
                        assert(Seq::new(len as nat, |q: int| [v, face@[q]]).take(k + 1) =~= Seq::new(len as nat, |q: int| [v, face@[q]]).take(k as int).push([v, w]));
                        list = list.push([v, w]);
                        assert(list_below(list, (base + 1) as nat)) by {
                            assert forall|q: int| 0 <= q < list.len() implies (#[trigger] list[q])[0] < base + 1 && list[q][1] < base + 1 by {
                                if q < list.len() - 1 {
                                    assert(list[q] == list.drop_last()[q]);
                                }
                            }
                        }
                    }
                    let j = if k + 1 == len { 0 } else { k + 1 };
                    proof {
                        if k + 1 == len {
                            assert((k as int + 1) % (len as int) == 0) by (nonlinear_arith)
                                requires k + 1 == len;
                        } else {
                            assert((k as int + 1) % (len as int) == k + 1) by (nonlinear_arith)
                                requires k + 1 < len;
                        }
                    }
                    let tri: Vec<VertexId> = vec![v, w, face[j]];
                    let ghost prev = new_cycles@;
                    new_cycles.push(tri);
                    let fid = self.next_face_id;
                    new_ids.push(fid);
                    self.birth_parents.push((fid, id));
                    self.next_face_id = fid + 1;
                    proof {
                        assert(views(new_cycles@) =~= views(prev).push(tri@));
                        assert(tri@ =~= kis_triangles(face@, v)[k as int]);
                        assert(kis_triangles(face@, v).take(k + 1) =~= kis_triangles(face@, v).take(k as int).push(tri@));
                    }
                    k += 1;
                    proof {
                        assert(new_ids@ =~= ids0 + Seq::new(len as nat, |q: int| (next0 + tris0 + q) as usize).take(k as int));
                        assert(self.birth_parents@ =~= births1 + Seq::new(len as nat, |q: int| ((next0 + tris0 + q) as usize, id)).take(k as int));
                    }
                }
                proof {
                    assert(Seq::new(len as nat, |q: int| [v, face@[q]]).take(len as int) =~= Seq::new(len as nat, |q: int| [v, face@[q]]));
                    assert(kis_spokes(fs, degree, n as nat, (f + 1) as nat) =~= list);
                    assert(kis_triangles(face@, v).take(len as int) =~= kis_triangles(face@, v));
                    assert(views(new_cycles@) =~= kis_faces(fs, degree, n as nat, (f + 1) as nat));
                    assert(new_ids@ =~= kis_ids(fs, ids, degree, next0, (f + 1) as nat));
                    assert(self.birth_parents@ =~= births0 + kis_births(fs, ids, degree, next0, (f + 1) as nat));
                }
            }
            f += 1;
        }
        proof {
            assert(new_cycles@.map_values(|c: Vec<VertexId>| c@) =~= views(new_cycles@));
        }
        self.cycles = Cycles::new(new_cycles, new_ids);
        self.cycles.sort();
        self.recompute_metrics();
        edges
    }
}

} // verus!
