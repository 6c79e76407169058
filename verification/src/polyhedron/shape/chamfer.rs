use vstd::prelude::*;
use crate::polyhedron::{FaceId, VertexId};
use super::{Shape, faces_below};
use super::conway::{fresh_tags, offset, lemma_offset, views, offsets_ok};
use super::cycles::{Cycles, sorted_faces, sorted_ids};
use super::distance::{PairFilter, diameter_of, entry, lemma_pairs_upto, pairs, rows_wf};
use super::distance::overlay::{overlay, lemma_overlay_connect, lemma_overlay_disconnect, lemma_overlay_entry, lemma_overlay_grow};
use super::distance::assemble::list_below;
use super::distance::conway::lemma_rows_ext;
use super::distance::paths::is_apsp_of;
use super::expand::{corner_at, corner_for, corner_for_exec, face_offsets, fresh_ids, lemma_visits};
use super::topology::{FaceTopology, next_index, succ, visits_upto};

verus! {

/// The tethers of face `f`: each vertex to its new copy.
pub open spec fn tethers(fs: Seq<Seq<usize>>, n: nat, f: int) -> Seq<[usize; 2]> {
    Seq::new(fs[f].len(), |k: int| [fs[f][k], (n + corner_at(fs, f, k)) as usize])
}

/// The ring joining the new copies of face `f`.
pub open spec fn shrunk_ring(fs: Seq<Seq<usize>>, n: nat, f: int) -> Seq<[usize; 2]> {
    Seq::new(
        fs[f].len(),
        |k: int| [(n + corner_at(fs, f, k)) as usize, (n + corner_at(fs, f, succ(k, fs[f].len() as int))) as usize],
    )
}

/// The pairs connected while chamfering the faces below `g`, in order.
pub open spec fn chamfer_list_upto(fs: Seq<Seq<usize>>, n: nat, g: nat) -> Seq<[usize; 2]>
    decreases g,
{
    if g == 0 {
        Seq::empty()
    } else {
        chamfer_list_upto(fs, n, (g - 1) as nat) + tethers(fs, n, g - 1) + shrunk_ring(fs, n, g - 1)
    }
}

/// The hexagon an interior edge visit `(f, a, b, g)` spawns.
pub open spec fn hexagon_of(fs: Seq<Seq<usize>>, n: nat, t: (usize, usize, usize, usize)) -> Seq<usize> {
    seq![
        t.1,
        (n + corner_for(fs, t.0 as int, t.1)) as usize,
        (n + corner_for(fs, t.0 as int, t.2)) as usize,
        t.2,
        (n + corner_for(fs, t.3 as int, t.2)) as usize,
        (n + corner_for(fs, t.3 as int, t.1)) as usize,
    ]
}

/// Faces after chamfering: every face as its shrunk copy, then one hexagon per interior edge.
pub open spec fn chamfered_faces(fs: Seq<Seq<usize>>, n: nat) -> Seq<Seq<usize>> {
    Seq::new(fs.len(), |f: int| Seq::new(fs[f].len(), |k: int| (n + corner_at(fs, f, k)) as usize))
        + visits_upto(fs, fs.len()).map_values(|t: (usize, usize, usize, usize)| hexagon_of(fs, n, t))
}

/// Chamfering keeps every face with its side count and adds one hexagon per interior edge
/// visit.
pub proof fn law_chamfer_face_counts(fs: Seq<Seq<usize>>, n: nat)
    ensures
        sorted_faces(chamfered_faces(fs, n)).len() == fs.len() + visits_upto(fs, fs.len()).len(),
        forall|f: int| 0 <= f < fs.len() ==> (#[trigger] chamfered_faces(fs, n)[f]).len() == fs[f].len(),
{
}

/// What chamfering needs: faces over existing vertices, and room for the new vertices, tags
/// and faces.
pub open spec fn chamfer_ready(fs: Seq<Seq<usize>>, n: nat, next: usize, tag: u64) -> bool {
    &&& faces_below(fs, n)
    &&& n + offset(fs, fs.len()) <= usize::MAX
    &&& tag + offset(fs, fs.len()) <= u64::MAX
    &&& next + visits_upto(fs, fs.len()).len() <= usize::MAX
}

impl Shape {
    /// Whether `chamfer()` may be called: every face vertex is a vertex, and the new corners,
    /// the tags they take and the fresh face ids all fit.
    pub fn can_chamfer(&self) -> (r: bool)
        requires
            self.wf(),
        ensures
            r == chamfer_ready(self.faces(), self.graph().len(), self.next_id(), self.tag_counter()),
    {
        let ghost fs = self.faces();
        let n = self.order();
        let raw = self.cycles.raw();
        assert(self.cycles.faces() == fs);
        let mut total: usize = 0;
        let mut f: usize = 0;
        while f < raw.len()
            invariant
                raw@.map_values(|c: Vec<VertexId>| c@) == fs,
                raw@.len() == fs.len(),
                fs == self.faces(),
                n == self.graph().len(),
                f <= raw@.len(),
                total == offset(fs, f as nat),
                forall|i: int, k: int| 0 <= i < f && 0 <= k < fs[i].len() ==> (#[trigger] fs[i][k]) < n,
            decreases raw@.len() - f,
        {
            let face = &raw[f];
            assert(fs[f as int] == face@);
            let mut k: usize = 0;
            while k < face.len()
                invariant
                    k <= face@.len(),
                    face@ == fs[f as int],
                    f < fs.len(),
                    fs == self.faces(),
                    n == self.graph().len(),
                    forall|j: int| 0 <= j < k ==> (#[trigger] face@[j]) < n,
                decreases face@.len() - k,
            {
                if n <= face[k] {
                    assert(fs[f as int][k as int] >= n);
                    return false;
                }
                k += 1;
            }
            if usize::MAX - total < face.len() {
                proof {
                    lemma_offset(fs, (f + 1) as nat, fs.len());
                }
                return false;
            }
            total = total + face.len();
            f += 1;
        }
        let tag = self.distance.next_tag();
        let next = self.next_face_id;
        let hexagons = FaceTopology::snapshot(&self.cycles).interior_edges().len();
        total <= usize::MAX - n && (total as u64) <= u64::MAX - tag && hexagons <= usize::MAX - next
    }

    /// `c` chamfer: every face shrinks into a new copy tethered to the original vertices, and
    /// every interior edge becomes a hexagon.
    pub fn chamfer(&mut self)
        requires
            old(self).wf(),
            chamfer_ready(old(self).faces(), old(self).graph().len(), old(self).next_id(), old(self).tag_counter()),
        ensures
            final(self).wf(),
            ({
                let fs = old(self).faces();
                let m = old(self).graph();
                let n = m.len();
                let pre_faces = chamfered_faces(fs, n);
                let pre_ids = old(self).face_ids() + fresh_ids(old(self).next_id(), visits_upto(fs, fs.len()).len());
                &&& is_apsp_of(
                    final(self).graph(),
                    overlay(m, pairs(m, PairFilter::Edges), Seq::empty(), n, n + offset(fs, fs.len()), chamfer_list_upto(fs, n, fs.len())),
                )
                &&& final(self).faces() == sorted_faces(pre_faces)
                &&& final(self).face_ids() == sorted_ids(pre_faces, pre_ids)
                &&& final(self).next_id() == old(self).next_id() + visits_upto(fs, fs.len()).len()
            }),
            final(self).spring_pairs() == pairs(final(self).graph(), PairFilter::Springs(diameter_of(final(self).graph()))),
            final(self).births() == old(self).births(),
            final(self).ancestry() == fresh_tags(old(self).ancestry(), old(self).tag_counter(), offset(old(self).faces(), old(self).faces().len())),
    {
        let ghost fs = self.faces();
        let ghost tags0 = self.ancestry();
        let ghost m = self.graph();
        let n = self.order();
        let ghost tag0 = self.tag_counter();
        let originals = self.edges();
        let topo = FaceTopology::snapshot(&self.cycles);
        let faces = &topo.cycles;
        let (offsets, total) = face_offsets(faces);
        let ghost mut list: Seq<[usize; 2]> = Seq::empty();
        proof {
            lemma_overlay_entry(m, Seq::empty(), Seq::empty(), n as nat, n as nat, list);
            assert forall|x: int, y: int| 0 <= x < n && 0 <= y < n implies #[trigger] entry(m, x, y) == entry(overlay(m, Seq::empty(), Seq::empty(), n as nat, n as nat, list), x, y) by {}
            lemma_rows_ext(m, overlay(m, Seq::empty(), Seq::empty(), n as nat, n as nat, list));
        }
        let mut f: usize = 0;
        while f < faces.len()
            invariant
                fs == views(faces@),
                fs.len() == faces@.len(),
                m.len() == n,
                rows_wf(m),
                faces_below(fs, n as nat),
                offsets_ok(faces@, offsets@),
                total == offset(fs, fs.len()),
                n + total <= usize::MAX,
                tag0 + total <= u64::MAX,
                f <= faces@.len(),
                self.parts_wf(),
                self.distance.wf(),
                self.distance@ == overlay(m, Seq::empty(), Seq::empty(), n as nat, (n + offset(fs, f as nat)) as nat, list),
                self.distance.tag_counter() == tag0 + offset(fs, f as nat),
                self.distance.tags() == fresh_tags(tags0, tag0, offset(fs, f as nat)),
                list == chamfer_list_upto(fs, n as nat, f as nat),
                list_below(list, (n + offset(fs, f as nat)) as nat),
                self.faces() == fs,
                self.face_ids() == topo.ids@,
                self.next_id() == old(self).next_id(),
                self.births() == old(self).births(),
            decreases faces@.len() - f,
        {
            let face = &faces[f];
            let len = face.len();
            let row_start = self.distance.order();
            let ghost before = list;
            proof {
                assert(fs[f as int] == face@);
                lemma_offset(fs, f as nat, fs.len());
                lemma_offset(fs, (f + 1) as nat, fs.len());
                assert(offsets@[f as int] == offset(fs, f as nat));
            }
            let mut k: usize = 0;
            while k < len
                invariant
                    fs == views(faces@),
                    fs.len() == faces@.len(),
                    m.len() == n,
                    rows_wf(m),
                    faces_below(fs, n as nat),
                    f < faces@.len(),
                    fs[f as int] == face@,
                    len == face@.len(),
                    row_start == n + offset(fs, f as nat),
                    offset(fs, (f + 1) as nat) == offset(fs, f as nat) + len,
                    n + offset(fs, (f + 1) as nat) <= usize::MAX,
                    tag0 + offset(fs, (f + 1) as nat) <= u64::MAX,
                    k <= len,
                    self.parts_wf(),
                    self.distance.wf(),
                    self.distance@ == overlay(m, Seq::empty(), Seq::empty(), n as nat, (row_start + k) as nat, list),
                    self.distance.tag_counter() == tag0 + offset(fs, f as nat) + k,
                    self.distance.tags() == fresh_tags(tags0, tag0, (offset(fs, f as nat) + k) as nat),
                    list == before + tethers(fs, n as nat, f as int).take(k as int),
                    list_below(list, (row_start + k) as nat),
                    self.faces() == fs,
                    self.face_ids() == topo.ids@,
                    self.next_id() == old(self).next_id(),
                    self.births() == old(self).births(),
                decreases len - k,
            {
                let ghost d0 = self.distance@;
                let u = self.distance.insert();
                proof {
                    assert(self.distance.tags() =~= fresh_tags(tags0, tag0, (offset(fs, f as nat) + k + 1) as nat));
                    lemma_overlay_grow(m, Seq::empty(), Seq::empty(), n as nat, (row_start + k) as nat, list, self.distance@);
                }
                let v = face[k];
                proof {
                    assert(fs[f as int][k as int] == v);
                    assert(v < n);
                }
                let ghost d1 = self.distance@;
                self.distance.connect([v, u]);
                proof {
                    lemma_overlay_connect(m, Seq::empty(), Seq::empty(), n as nat, (row_start + k + 1) as nat, list, v as int, u as int, self.distance@);
                    assert(u == n + corner_at(fs, f as int, k as int));
                    assert(tethers(fs, n as nat, f as int).take(k + 1) =~= tethers(fs, n as nat, f as int).take(k as int).push([v, u]));
                    list = list.push([v, u]);
                    assert(list_below(list, (row_start + k + 1) as nat)) by {
                        assert forall|q: int| 0 <= q < list.len() implies (#[trigger] list[q])[0] < row_start + k + 1 && list[q][1] < row_start + k + 1 by {
                            if q < list.len() - 1 {
                                assert(list[q] == list.drop_last()[q]);
                            }
                        }
                    }
                }
                k += 1;
            }
            let ghost mid = list;
            proof {
                assert(tethers(fs, n as nat, f as int).take(len as int) =~= tethers(fs, n as nat, f as int));
            }
            let mut k: usize = 0;
            while k < len
                invariant
                    fs == views(faces@),
                    fs.len() == faces@.len(),
                    m.len() == n,
                    rows_wf(m),
                    f < faces@.len(),
                    fs[f as int] == face@,
                    len == face@.len(),
                    row_start == n + offset(fs, f as nat),
                    n + offset(fs, (f + 1) as nat) <= usize::MAX,
                    offset(fs, (f + 1) as nat) == offset(fs, f as nat) + len,
                    k <= len,
                    self.parts_wf(),
                    self.distance.wf(),
                    self.distance@ == overlay(m, Seq::empty(), Seq::empty(), n as nat, (row_start + len) as nat, list),
                    self.distance.tag_counter() == tag0 + offset(fs, f as nat) + len,
                    self.distance.tags() == fresh_tags(tags0, tag0, (offset(fs, f as nat) + len) as nat),
                    list == mid + shrunk_ring(fs, n as nat, f as int).take(k as int),
                    list_below(list, (row_start + len) as nat),
                    self.faces() == fs,
                    self.face_ids() == topo.ids@,
                    self.next_id() == old(self).next_id(),
                    self.births() == old(self).births(),
                decreases len - k,
            {
                let j = next_index(k, len);
                let a = row_start + k;
                let b = row_start + j;
                self.distance.connect([a, b]);
                proof {
                    lemma_overlay_connect(m, Seq::empty(), Seq::empty(), n as nat, (row_start + len) as nat, list, a as int, b as int, self.distance@);
                    assert(shrunk_ring(fs, n as nat, f as int).take(k + 1) =~= shrunk_ring(fs, n as nat, f as int).take(k as int).push([a, b]));
                    list = list.push([a, b]);
                    assert(list_below(list, (row_start + len) as nat)) by {
                        assert forall|q: int| 0 <= q < list.len() implies (#[trigger] list[q])[0] < row_start + len && list[q][1] < row_start + len by {
                            if q < list.len() - 1 {
                                assert(list[q] == list.drop_last()[q]);
                            }
                        }
                    }
                }
                k += 1;
            }
            proof {
                assert(shrunk_ring(fs, n as nat, f as int).take(len as int) =~= shrunk_ring(fs, n as nat, f as int));
                assert(list =~= chamfer_list_upto(fs, n as nat, (f + 1) as nat));
            }
            f += 1;
        }
        // Cut every original edge.
        let ghost size = (n + total) as nat;
        let ghost mut es: Seq<[usize; 2]> = Seq::empty();
        proof {
            lemma_pairs_upto(m, PairFilter::Edges, n as nat);
        }
        let mut q: usize = 0;
        while q < originals.len()
            invariant
                originals@ == pairs(m, PairFilter::Edges),
                self.distance.tags() == fresh_tags(tags0, tag0, offset(fs, fs.len())),
                forall|i: int| 0 <= i < pairs(m, PairFilter::Edges).len() ==> {
                    &&& (#[trigger] pairs(m, PairFilter::Edges)[i])[1] < pairs(m, PairFilter::Edges)[i][0]
                    &&& pairs(m, PairFilter::Edges)[i][0] < n
                },
                m.len() == n,
                rows_wf(m),
                size == n + total,
                size <= usize::MAX,
                q <= originals@.len(),
                self.parts_wf(),
                self.distance.wf(),
                self.distance@ == overlay(m, es, Seq::empty(), n as nat, size, list),
                es == originals@.take(q as int),
                self.faces() == fs,
                self.face_ids() == topo.ids@,
                self.next_id() == old(self).next_id(),
                self.births() == old(self).births(),
            decreases originals@.len() - q,
        {
            let e = originals[q];
            proof {
                assert(pairs(m, PairFilter::Edges)[q as int] == e);
            }
            self.distance.disconnect(e);
            proof {
                lemma_overlay_disconnect(m, es, Seq::empty(), n as nat, size, list, e[0] as int, e[1] as int, self.distance@);
                assert(originals@.take(q + 1) =~= originals@.take(q as int).push(e));
                assert(e == [e[0] as usize, e[1] as usize]);
                es = es.push(e);
            }
            q += 1;
        }
        proof {
            assert(originals@.take(q as int) =~= originals@);
        }
        // Faces: the shrunk copies, then one hexagon per interior edge.
        let mut new_cycles: Vec<Vec<VertexId>> = Vec::new();
        let mut g: usize = 0;
        while g < faces.len()
            invariant
                fs == views(faces@),
                fs.len() == faces@.len(),
                offsets_ok(faces@, offsets@),
                total == offset(fs, fs.len()),
                n + total <= usize::MAX,
                g <= faces@.len(),
                new_cycles@.len() == g,
                forall|w: int| 0 <= w < g ==> #[trigger] new_cycles@[w]@ == Seq::new(fs[w].len(), |k: int| (n + corner_at(fs, w, k)) as usize),
            decreases faces@.len() - g,
        {
            let len = faces[g].len();
            let mut row: Vec<VertexId> = Vec::new();
            let mut k: usize = 0;
            proof {
                assert(fs[g as int] == faces@[g as int]@);
                lemma_offset(fs, g as nat, fs.len());
            }
            while k < len
                invariant
                    fs == views(faces@),
                    fs.len() == faces@.len(),
                    offsets_ok(faces@, offsets@),
                    total == offset(fs, fs.len()),
                    n + total <= usize::MAX,
                    g < faces@.len(),
                    len == faces@[g as int]@.len(),
                    len == fs[g as int].len(),
                    k <= len,
                    row@ == Seq::new(k as nat, |j: int| (n + corner_at(fs, g as int, j)) as usize),
                decreases len - k,
            {
                let c = super::expand::corner_at_exec(faces, &offsets, g, k);
                row.push(n + c);
                k += 1;
                assert(row@ =~= Seq::new(k as nat, |j: int| (n + corner_at(fs, g as int, j)) as usize));
            }
            new_cycles.push(row);
            g += 1;
        }
        let visits = topo.interior_edges();
        proof {
            lemma_visits(fs, fs.len());
        }
        let ghost base = views(new_cycles@);
        let ghost hexes = visits_upto(fs, fs.len()).map_values(|t: (usize, usize, usize, usize)| hexagon_of(fs, n as nat, t));
        let mut i: usize = 0;
        while i < visits.len()
            invariant
                fs == views(faces@),
                fs.len() == faces@.len(),
                offsets_ok(faces@, offsets@),
                total == offset(fs, fs.len()),
                n + total <= usize::MAX,
                visits@ == visits_upto(fs, fs.len()),
                hexes == visits_upto(fs, fs.len()).map_values(|t: (usize, usize, usize, usize)| hexagon_of(fs, n as nat, t)),
                forall|w: int| #![trigger visits_upto(fs, fs.len())[w]] 0 <= w < visits_upto(fs, fs.len()).len() ==> {
                    let t = visits_upto(fs, fs.len())[w];
                    &&& t.0 < fs.len()
                    &&& t.3 < fs.len()
                    &&& fs[t.0 as int].contains(t.1)
                    &&& fs[t.0 as int].contains(t.2)
                    &&& fs[t.3 as int].contains(t.1)
                    &&& fs[t.3 as int].contains(t.2)
                },
                i <= visits@.len(),
                views(new_cycles@) == base + hexes.take(i as int),
            decreases visits@.len() - i,
        {
            let (f, a, b, h) = visits[i];
            proof {
                assert(visits_upto(fs, fs.len())[i as int] == (f, a, b, h));
                assert(fs[f as int] == faces@[f as int]@);
                assert(fs[h as int] == faces@[h as int]@);
            }
            let w = corner_for_exec(faces, &offsets, f, a);
            let x = corner_for_exec(faces, &offsets, f, b);
            let y = corner_for_exec(faces, &offsets, h, b);
            let z = corner_for_exec(faces, &offsets, h, a);
            let hex: Vec<VertexId> = vec![a, n + w, n + x, b, n + y, n + z];
            let ghost prev = new_cycles@;
            new_cycles.push(hex);
            proof {
                assert(views(new_cycles@) =~= views(prev).push(hex@));
                assert(hexes[i as int] == hexagon_of(fs, n as nat, (f, a, b, h)));
                assert(hex@ =~= hexagon_of(fs, n as nat, (f, a, b, h)));
                assert(hexes.take(i + 1) =~= hexes.take(i as int).push(hex@));
            }
            i += 1;
        }
        proof {
            assert(hexes.take(i as int) =~= hexes);
        }
        let next = self.next_face_id;
        let count = visits.len();
        let mut new_ids: Vec<FaceId> = Vec::new();
        let mut p: usize = 0;
        while p < topo.ids.len()
            invariant
                p <= topo.ids@.len(),
                new_ids@ == topo.ids@.take(p as int),
            decreases topo.ids@.len() - p,
        {
            new_ids.push(topo.ids[p]);
            p += 1;
            assert(new_ids@ =~= topo.ids@.take(p as int));
        }
        assert(topo.ids@.take(p as int) =~= topo.ids@);
        let mut j: usize = 0;
        while j < count
            invariant
                next + count <= usize::MAX,
                j <= count,
                new_ids@ == topo.ids@ + fresh_ids(next, j as nat),
            decreases count - j,
        {
            new_ids.push(next + j);
            j += 1;
            assert(new_ids@ =~= topo.ids@ + fresh_ids(next, j as nat));
        }
        let ghost pre_faces = chamfered_faces(fs, n as nat);
        proof {
            assert(views(new_cycles@) =~= pre_faces);
            assert(new_cycles@.map_values(|c: Vec<VertexId>| c@) =~= views(new_cycles@));
        }
        self.next_face_id = next + count;
        self.cycles = Cycles::new(new_cycles, new_ids);
        self.cycles.sort();
        self.recompute_metrics();
    }
}

} // verus!
