pub mod cycle;
pub mod discover;
pub mod signature;

use vstd::prelude::*;
use crate::polyhedron::{FaceId, VertexId};
use crate::polyhedron::merge::{contract_edge_indices, lemma_merge_sequence_ordered, merge_sequence};
use crate::polyhedron::order::{FaceKey, FaceKeyExec, ascending, lemma_key_order_total, count_distinct, key_order, key_view, sort_keys, sort_values};
use cycle::{Cycle, contract_face};
use signature::{neighbor_type_signatures, signature, signatures};
use super::edge::{EdgeKey, EdgeMap, norm};

verus! {

/// The faces that survive merging `v` into `u`, each contracted, among the first `k`.
pub open spec fn kept_faces(fs: Seq<Seq<usize>>, v: usize, u: usize, k: nat) -> Seq<Seq<usize>>
    decreases k,
{
    if k == 0 {
        Seq::empty()
    } else {
        let s = kept_faces(fs, v, u, (k - 1) as nat);
        let c = contract_face(fs[k - 1], v, u);
        if c.len() >= 3 {
            s.push(c)
        } else {
            s
        }
    }
}

/// The ids of the faces that survive merging `v` into `u`, among the first `k`.
pub open spec fn kept_ids(fs: Seq<Seq<usize>>, ids: Seq<usize>, v: usize, u: usize, k: nat) -> Seq<usize>
    decreases k,
{
    if k == 0 {
        Seq::empty()
    } else {
        let s = kept_ids(fs, ids, v, u, (k - 1) as nat);
        if contract_face(fs[k - 1], v, u).len() >= 3 {
            s.push(ids[k - 1])
        } else {
            s
        }
    }
}

/// Faces and ids after the merges `ms`, faces that degenerate below 3 vertices dropped.
pub open spec fn contract_all_faces(fs: Seq<Seq<usize>>, ids: Seq<usize>, ms: Seq<(usize, usize)>) -> (Seq<Seq<usize>>, Seq<usize>)
    decreases ms.len(),
{
    if ms.len() == 0 {
        (fs, ids)
    } else {
        let (v, u) = ms[0];
        contract_all_faces(
            kept_faces(fs, v, u, fs.len()),
            kept_ids(fs, ids, v, u, fs.len()),
            ms.drop_first(),
        )
    }
}

/// The two vertices next to position `p` of face `f`.
pub open spec fn around(f: Seq<usize>, p: int) -> [usize; 2] {
    [f[(p + f.len() - 1) % (f.len() as int)], f[(p + 1) % (f.len() as int)]]
}

/// For each of the first `k` faces that holds `v`, the vertices before and after its first `v`.
pub open spec fn corners_upto(fs: Seq<Seq<usize>>, v: usize, k: nat) -> Seq<[usize; 2]>
    decreases k,
{
    if k == 0 {
        Seq::empty()
    } else {
        let s = corners_upto(fs, v, (k - 1) as nat);
        let f = fs[k - 1];
        if f.contains(v) {
            s.push(around(f, first_index(f, v)))
        } else {
            s
        }
    }
}

/// The pair holds `x`.
pub open spec fn touches(p: [usize; 2], x: usize) -> bool {
    p[0] == x || p[1] == x
}

/// Index of the first occurrence of `x` in `s`, or the length when there is none.
pub open spec fn first_index(s: Seq<usize>, x: usize) -> int
    decreases s.len(),
{
    if s.len() == 0 {
        0
    } else if s[0] == x {
        0
    } else {
        1 + first_index(s.drop_first(), x)
    }
}

pub proof fn lemma_first_index(s: Seq<usize>, x: usize)
    ensures
        0 <= first_index(s, x) <= s.len(),
        first_index(s, x) < s.len() <==> s.contains(x),
        first_index(s, x) < s.len() ==> s[first_index(s, x)] == x,
        forall|k: int| 0 <= k < first_index(s, x) ==> #[trigger] s[k] != x,
    decreases s.len(),
{
    if s.len() > 0 && s[0] != x {
        lemma_first_index(s.drop_first(), x);
        assert forall|k: int| 0 <= k < first_index(s, x) implies #[trigger] s[k] != x by {
            if k > 0 {
                assert(s[k] == s.drop_first()[k - 1]);
            }
        }
        if s.contains(x) {
            let k = choose|k: int| 0 <= k < s.len() && s[k] == x;
            assert(s.drop_first()[k - 1] == x);
        }
        if s.drop_first().contains(x) {
            let k = choose|k: int| 0 <= k < s.drop_first().len() && s.drop_first()[k] == x;
            assert(s[k + 1] == x);
        }
    } else if s.len() > 0 {
        assert(s[0] == x);
    }
}

/// Index of the first pair holding `x`, or the length when none does.
pub open spec fn first_touching(rel: Seq<[usize; 2]>, x: usize) -> int
    decreases rel.len(),
{
    if rel.len() == 0 {
        0
    } else if touches(rel[0], x) {
        0
    } else {
        1 + first_touching(rel.drop_first(), x)
    }
}

/// Walks from `prev` to the other end of the first pair holding it, removing that pair, and so on.
pub open spec fn chain(rel: Seq<[usize; 2]>, prev: usize) -> Seq<usize>
    decreases rel.len(),
{
    let i = first_touching(rel, prev);
    if 0 <= i < rel.len() {
        let p = rel[i];
        let next = if p[0] == prev { p[1] } else { p[0] };
        seq![next] + chain(rel.remove(i), next)
    } else {
        Seq::empty()
    }
}

/// The neighbors of `v` in cyclic order, read off the faces around `v`.
pub open spec fn connections(fs: Seq<Seq<usize>>, v: usize) -> Seq<usize> {
    let rel = corners_upto(fs, v, fs.len());
    chain(rel, rel[0][0])
}

/// Each corner pair around `v` among the first `k` faces, unordered, mapped to the last of those
/// faces that holds `v` between that pair.
pub open spec fn corner_map(fs: Seq<Seq<usize>>, v: usize, k: nat) -> Map<[usize; 2], usize>
    decreases k,
{
    if k == 0 {
        Map::empty()
    } else {
        let m = corner_map(fs, v, (k - 1) as nat);
        let f = fs[k - 1];
        if f.contains(v) {
            m.insert(norm(around(f, first_index(f, v))), (k - 1) as usize)
        } else {
            m
        }
    }
}

/// The distinct unordered corner pairs around `v` among the first `k` faces, in the order they
/// first appear.
pub open spec fn corner_keys(fs: Seq<Seq<usize>>, v: usize, k: nat) -> Seq<[usize; 2]>
    decreases k,
{
    if k == 0 {
        Seq::empty()
    } else {
        let s = corner_keys(fs, v, (k - 1) as nat);
        let f = fs[k - 1];
        let key = norm(around(f, first_index(f, v)));
        if f.contains(v) && !corner_map(fs, v, (k - 1) as nat).dom().contains(key) {
            s.push(key)
        } else {
            s
        }
    }
}

/// The neighbors of `v` in cyclic order, chained from its distinct corner pairs; empty when no
/// face holds `v`.
pub open spec fn link_ring(fs: Seq<Seq<usize>>, v: usize) -> Seq<usize> {
    let ks = corner_keys(fs, v, fs.len());
    if ks.len() == 0 {
        Seq::empty()
    } else {
        chain(ks, ks[0][0])
    }
}

/// The unordered pair of entry `i` of the ring and the entry after it, cyclically.
pub open spec fn ring_pair(r: Seq<usize>, i: int) -> [usize; 2] {
    norm([r[i], r[(i + 1) % (r.len() as int)]])
}

/// Every two neighbors that follow each other around `v` are the corner pair of a face.
pub open spec fn link_closed(fs: Seq<Seq<usize>>, v: usize) -> bool {
    let r = link_ring(fs, v);
    forall|i: int| 0 <= i < r.len() ==> corner_map(fs, v, fs.len()).contains_key(#[trigger] ring_pair(r, i))
}

/// The faces around `v`, one per pair of consecutive neighbors on the ring.
pub open spec fn ordered_faces(fs: Seq<Seq<usize>>, v: usize) -> Seq<usize> {
    let r = link_ring(fs, v);
    Seq::new(r.len(), |i: int| corner_map(fs, v, fs.len())[ring_pair(r, i)])
}

proof fn lemma_first_touching(rel: Seq<[usize; 2]>, x: usize)
    ensures
        0 <= first_touching(rel, x) <= rel.len(),
        first_touching(rel, x) < rel.len() ==> touches(rel[first_touching(rel, x)], x),
        forall|k: int| 0 <= k < first_touching(rel, x) ==> !touches(#[trigger] rel[k], x),
    decreases rel.len(),
{
    if rel.len() > 0 && !touches(rel[0], x) {
        lemma_first_touching(rel.drop_first(), x);
        assert forall|k: int| 0 <= k < first_touching(rel, x) implies !touches(#[trigger] rel[k], x) by {
            if k > 0 {
                assert(rel[k] == rel.drop_first()[k - 1]);
            }
        }
    }
}

/// Circular lists of vertex ids representing faces, each with a stable id.
#[derive(Debug, Clone)]
pub struct Cycles {
    cycles: Vec<Cycle>,
    ids: Vec<FaceId>,
}

impl Cycles {
    /// The faces, in order.
    pub closed spec fn faces(&self) -> Seq<Seq<VertexId>> {
        self.cycles@.map_values(|c: Cycle| c@)
    }

    /// The face ids, parallel to the faces.
    pub closed spec fn face_ids(&self) -> Seq<FaceId> {
        self.ids@
    }

    /// One id per face.
    pub open spec fn wf(&self) -> bool {
        self.faces().len() == self.face_ids().len()
    }

    proof fn lemma_view(&self)
        ensures
            self.faces().len() == self.cycles@.len(),
            forall|i: int| 0 <= i < self.cycles@.len() ==> #[trigger] self.faces()[i] == self.cycles@[i]@,
    {
    }

    /// Faces and their ids, given in parallel.
    pub fn new(cycles: Vec<Vec<VertexId>>, ids: Vec<FaceId>) -> (r: Self)
        requires
            cycles@.len() == ids@.len(),
        ensures
            r.wf(),
            r.faces() == cycles@.map_values(|c: Vec<VertexId>| c@),
            r.face_ids() == ids@,
    {
        let mut out: Vec<Cycle> = Vec::new();
        let mut cycles = cycles;
        let ghost original = cycles@;
        while cycles.len() > 0
            invariant
                out@.len() + cycles@.len() == original.len(),
                forall|k: int| 0 <= k < cycles@.len() ==> #[trigger] cycles@[k] == original[k],
                forall|k: int| 0 <= k < out@.len() ==> #[trigger] out@[k]@ == original[original.len() - 1 - k]@,
            decreases cycles@.len(),
        {
            let c = cycles.pop().unwrap();
            out.push(Cycle::from(c));
        }
        let mut ordered: Vec<Cycle> = Vec::new();
        while out.len() > 0
            invariant
                ordered@.len() + out@.len() == original.len(),
                forall|k: int| 0 <= k < out@.len() ==> #[trigger] out@[k]@ == original[original.len() - 1 - k]@,
                forall|k: int| 0 <= k < ordered@.len() ==> #[trigger] ordered@[k]@ == original[k]@,
            decreases out@.len(),
        {
            let c = out.pop().unwrap();
            ordered.push(c);
        }
        let r = Cycles { cycles: ordered, ids };
        assert(r.faces() =~= original.map_values(|c: Vec<VertexId>| c@));
        r
    }

    /// Stable face ids, parallel to the cycle list.
    pub fn ids(&self) -> (r: &[FaceId])
        ensures
            r@ == self.face_ids(),
    {
        self.ids.as_slice()
    }

    /// Number of faces.
    pub fn len(&self) -> (r: usize)
        ensures
            r == self.faces().len(),
    {
        self.cycles.len()
    }

    /// The faces, in order.
    pub fn as_slice(&self) -> (r: &[Cycle])
        ensures
            r@.len() == self.faces().len(),
            forall|i: int| 0 <= i < r@.len() ==> #[trigger] r@[i]@ == self.faces()[i],
    {
        self.cycles.as_slice()
    }

    /// Iterates over the faces in order.
    pub fn iter(&self) -> (r: std::slice::Iter<'_, Cycle>)
        ensures
            vstd::std_specs::slice::into_iter_elts(r).len() == self.faces().len(),
            forall|i: int| 0 <= i < self.faces().len() ==> #[trigger] vstd::std_specs::slice::into_iter_elts(r)[i]@ == self.faces()[i],
    {
        let s = self.cycles.as_slice();
        let r = s.iter();
        proof {
            broadcast use vstd::std_specs::slice::axiom_spec_slice_iter;
            assert(vstd::std_specs::slice::into_iter_elts(r) =~= self.cycles@);
        }
        r
    }

    /// Face at position `index`, wrapping around.
    pub fn get(&self, index: usize) -> (r: &Cycle)
        requires
            self.faces().len() > 0,
        ensures
            r@ == self.faces()[(index as int) % (self.faces().len() as int)],
    {
        &self.cycles[index % self.cycles.len()]
    }

    /// The faces as vectors.
    pub fn raw(&self) -> (r: Vec<Vec<VertexId>>)
        ensures
            r@.map_values(|c: Vec<VertexId>| c@) == self.faces(),
    {
        proof { self.lemma_view(); }
        let mut r: Vec<Vec<VertexId>> = Vec::new();
        let mut i: usize = 0;
        while i < self.cycles.len()
            invariant
                i <= self.cycles@.len(),
                r@.len() == i,
                self.faces().len() == self.cycles@.len(),
                forall|k: int| 0 <= k < self.cycles@.len() ==> #[trigger] self.faces()[k] == self.cycles@[k]@,
                forall|k: int| 0 <= k < i ==> #[trigger] r@[k]@ == self.faces()[k],
            decreases self.cycles@.len() - i,
        {
            r.push(self.cycles[i].to_vec());
            i += 1;
        }
        assert(r@.map_values(|c: Vec<VertexId>| c@) =~= self.faces());
        r
    }

    /// For each face, the sorted multiset of its edge-adjacent neighbors' side counts.
    pub fn neighbor_signatures(&self) -> (r: Vec<Vec<usize>>)
        ensures
            r@.len() == self.faces().len(),
            forall|i: int| 0 <= i < r@.len() ==> #[trigger] r@[i]@ == signatures(self.faces())[i],
    {
        let raw = self.raw();
        neighbor_type_signatures(&raw)
    }

    /// Canonical face order: more sides first, then a more uniform neighborhood, then sorted
    /// vertices; faces with equal keys keep their relative order.
    pub fn sort(&mut self)
        requires
            old(self).wf(),
        ensures
            final(self).wf(),
            final(self).faces() == sorted_faces(old(self).faces()),
            final(self).face_ids() == sorted_ids(old(self).faces(), old(self).face_ids()),
            forall|k: int| 0 <= k < old(self).faces().len() ==>
                0 <= (#[trigger] face_order(old(self).faces())[k]).3 < old(self).faces().len(),
    {
        let ghost fs = self.faces();
        let raw = self.raw();
        let sigs = neighbor_type_signatures(&raw);
        let n = raw.len();
        let ghost keys = Seq::new(fs.len(), |i: int| face_key(fs, i));
        let mut entries: Vec<FaceKeyExec> = Vec::new();
        let mut i: usize = 0;
        while i < n
            invariant
                i <= n,
                n == raw@.len(),
                n == fs.len(),
                raw@.map_values(|c: Vec<VertexId>| c@) == fs,
                sigs@.len() == n,
                forall|q: int| 0 <= q < n ==> #[trigger] sigs@[q]@ == signature(fs, q),
                keys == Seq::new(fs.len(), |i: int| face_key(fs, i)),
                entries@.len() == i,
                forall|q: int| 0 <= q < i ==> #[trigger] key_view(entries@[q]) == keys[q],
            decreases n - i,
        {
            proof {
                assert(fs[i as int] == raw@[i as int]@);
            }
            let len = raw[i].len();
            let uniformity = count_distinct(&sigs[i]);
            let vertices = sort_values(&raw[i]);
            entries.push((usize::MAX - len, uniformity, vertices, i));
            i += 1;
        }
        let ghost ev = entries@.map_values(|k: FaceKeyExec| key_view(k));
        assert(ev =~= keys);
        let sorted = sort_keys(entries);
        proof {
            broadcast use vstd::seq_lib::group_to_multiset_ensures;
            lemma_key_order_total();
            keys.lemma_sort_by_ensures(key_order());
            assert(face_order(fs).len() == keys.to_multiset().len());
        }
        let mut cycles: Vec<Cycle> = Vec::new();
        let mut ids: Vec<FaceId> = Vec::new();
        let mut k: usize = 0;
        proof { self.lemma_view(); }
        while k < sorted.len()
            invariant
                k <= sorted@.len(),
                sorted@.map_values(|k: FaceKeyExec| key_view(k)) == face_order(fs),
                face_order(fs).len() == fs.len(),
                forall|x: FaceKey| !keys.contains(x) ==> !(#[trigger] face_order(fs).contains(x)),
                keys == Seq::new(fs.len(), |i: int| face_key(fs, i)),
                fs == self.faces(),
                self.wf(),
                fs.len() == self.cycles@.len(),
                forall|q: int| 0 <= q < self.cycles@.len() ==> #[trigger] fs[q] == self.cycles@[q]@,
                cycles@.len() == k,
                ids@.len() == k,
                forall|q: int| 0 <= q < k ==> {
                    &&& 0 <= (#[trigger] face_order(fs)[q]).3 < fs.len()
                    &&& cycles@[q]@ == fs[face_order(fs)[q].3 as int]
                    &&& ids@[q] == self.face_ids()[face_order(fs)[q].3 as int]
                },
            decreases sorted@.len() - k,
        {
            let j = sorted[k].3;
            proof {
                let key = face_order(fs)[k as int];
                assert(key == key_view(sorted@[k as int]));
                assert(face_order(fs).contains(key));
                assert(keys.contains(key));
                let q = choose|q: int| 0 <= q < keys.len() && #[trigger] keys[q] == key;
                assert(keys[q].3 == q as usize);
                assert(j == q);
            }
            cycles.push(self.cycles[j].duplicate());
            ids.push(self.ids[j]);
            k += 1;
        }
        self.cycles = cycles;
        self.ids = ids;
        proof {
            self.lemma_view();
            assert(self.faces() =~= sorted_faces(fs));
        }
    }

    /// Replays the same merge sequence as `Distance::contract_edges` on the face list.
    /// Survivors keep their ids and faces that degenerate below 3 vertices are dropped.
    pub fn contract_edges(&mut self, edges: Vec<[VertexId; 2]>)
        requires
            old(self).wf(),
        ensures
            final(self).wf(),
            (final(self).faces(), final(self).face_ids()) == contract_all_faces(old(self).faces(), old(self).face_ids(), merge_sequence(edges@)),
    {
        let ghost es = edges@;
        let merges = contract_edge_indices(edges);
        let ghost ms = merges@;
        proof {
            lemma_merge_sequence_ordered(es);
        }
        let mut i: usize = 0;
        assert(ms.skip(0) =~= ms);
        while i < merges.len()
            invariant
                self.wf(),
                forall|k: int| 0 <= k < ms.len() ==> (#[trigger] ms[k]).1 < ms[k].0,
                i <= merges@.len(),
                ms == merges@,
                contract_all_faces(self.faces(), self.face_ids(), ms.skip(i as int)) == contract_all_faces(old(self).faces(), old(self).face_ids(), ms),
            decreases merges@.len() - i,
        {
            let (v, u) = merges[i];
            proof {
                assert(ms.skip(i as int)[0] == (v, u));
                assert(ms.skip(i as int).drop_first() =~= ms.skip(i + 1));
            }
            assert(ms[i as int] == (v, u));
            let ghost fs = self.faces();
            let ghost ids = self.face_ids();
            proof { self.lemma_view(); }
            let mut cycles: Vec<Cycle> = Vec::new();
            let mut new_ids: Vec<FaceId> = Vec::new();
            let mut k: usize = 0;
            while k < self.cycles.len()
                invariant
                    k <= self.cycles@.len(),
                    fs == self.faces(),
                    ids == self.face_ids(),
                    self.wf(),
                    u < v,
                    cycles@.map_values(|c: Cycle| c@) == kept_faces(fs, v, u, k as nat),
                    cycles@.len() == new_ids@.len(),
                    new_ids@ == kept_ids(fs, ids, v, u, k as nat),
                decreases self.cycles@.len() - k,
            {
                proof { self.lemma_view(); }
                let mut c = self.cycles[k].duplicate();
                let ghost before = cycles@;
                if c.contract_vertex(v, u) {
                    cycles.push(c);
                    new_ids.push(self.ids[k]);
                    assert(cycles@.map_values(|c: Cycle| c@) =~= before.map_values(|c: Cycle| c@).push(contract_face(fs[k as int], v, u)));
                }
                k += 1;
            }
            self.cycles = cycles;
            self.ids = new_ids;
            proof {
                assert(self.faces() == kept_faces(fs, v, u, fs.len()));
            }
            i += 1;
        }
        assert(ms.skip(i as int) =~= Seq::<(usize, usize)>::empty());
    }

    /// The neighbors of `v` in cyclic order around `v`, read off the faces that hold `v`.
    pub fn sorted_connections(&self, v: VertexId) -> (r: Vec<VertexId>)
        requires
            exists|i: int| 0 <= i < self.faces().len() && #[trigger] self.faces()[i].contains(v),
        ensures
            r@ == connections(self.faces(), v),
    {
        proof { self.lemma_view(); }
        let ghost fs = self.faces();
        let mut relevant: Vec<[VertexId; 2]> = Vec::new();
        let mut k: usize = 0;
        while k < self.cycles.len()
            invariant
                k <= self.cycles@.len(),
                fs == self.faces(),
                fs.len() == self.cycles@.len(),
                forall|i: int| 0 <= i < self.cycles@.len() ==> #[trigger] fs[i] == self.cycles@[i]@,
                relevant@ == corners_upto(fs, v, k as nat),
            decreases self.cycles@.len() - k,
        {
            if let Some(corner) = corner_of(&self.cycles[k], v) {
                relevant.push(corner);
            }
            k += 1;
        }
        proof {
            assert(relevant@.len() > 0) by {
                let i = choose|i: int| 0 <= i < fs.len() && #[trigger] fs[i].contains(v);
                lemma_corners_nonempty(fs, v, fs.len(), i);
            }
        }
        let first = relevant[0][0];
        chain_from(relevant, first)
    }

    /// For each pair of consecutive neighbors of `v` around `v`, the index of the face that
    /// holds `v` between them; empty when no face holds `v`.
    pub fn ordered_face_indices(&self, v: VertexId) -> (r: Vec<usize>)
        requires
            link_closed(self.faces(), v),
        ensures
            r@ == ordered_faces(self.faces(), v),
    {
        proof { self.lemma_view(); }
        let ghost fs = self.faces();
        let mut edges: EdgeMap<usize> = EdgeMap::new();
        let mut keys: Vec<[VertexId; 2]> = Vec::new();
        let mut k: usize = 0;
        while k < self.cycles.len()
            invariant
                k <= self.cycles@.len(),
                fs == self.faces(),
                fs.len() == self.cycles@.len(),
                forall|i: int| 0 <= i < self.cycles@.len() ==> #[trigger] fs[i] == self.cycles@[i]@,
                edges.wf(),
                edges@ == corner_map(fs, v, k as nat),
                keys@ == corner_keys(fs, v, k as nat),
            decreases self.cycles@.len() - k,
        {
            if let Some(corner) = corner_of(&self.cycles[k], v) {
                let key = EdgeKey::from(corner).inner();
                if !edges.contains_key(key) {
                    keys.push(key);
                }
                edges.insert(key, k);
            }
            k += 1;
        }
        let ghost ks = keys@;
        let ghost m = edges@;
        if keys.len() == 0 {
            return Vec::new();
        }
        let first = keys[0][0];
        let ring = chain_from(keys, first);
        let n = ring.len();
        let mut out: Vec<usize> = Vec::new();
        let mut i: usize = 0;
        while i < n
            invariant
                n == ring@.len(),
                ring@ == link_ring(fs, v),
                ks.len() > 0,
                m == corner_map(fs, v, fs.len()),
                edges@ == m,
                edges.wf(),
                link_closed(fs, v),
                i <= n,
                out@ == ordered_faces(fs, v).take(i as int),
            decreases n - i,
        {
            let j = if i + 1 == n { 0 } else { i + 1 };
            proof {
                if i + 1 == n {
                    assert((i + 1) % (n as int) == 0) by (nonlinear_arith)
                        requires i + 1 == n;
                } else {
                    assert((i + 1) % (n as int) == i + 1) by (nonlinear_arith)
                        requires i + 1 < n;
                }
                assert(m.contains_key(ring_pair(ring@, i as int)));
            }
            let face = *edges.get([ring[i], ring[j]]).unwrap();
            out.push(face);
            i += 1;
            assert(out@ =~= ordered_faces(fs, v).take(i as int));
        }
        assert(out@ =~= ordered_faces(fs, v));
        out
    }
}

/// The vertices before and after the first `v` of `c`, if `c` holds `v`.
fn corner_of(c: &Cycle, v: VertexId) -> (r: Option<[VertexId; 2]>)
    ensures
        r is Some <==> c@.contains(v),
        r is Some ==> r->0 == around(c@, first_index(c@, v)),
{
    let s = c.as_slice();
    let mut p: usize = 0;
    while p < s.len() && s[p] != v
        invariant
            p <= s@.len(),
            forall|q: int| 0 <= q < p ==> s@[q] != v,
        decreases s@.len() - p,
    {
        p += 1;
    }
    proof {
        lemma_first_index(c@, v);
    }
    if p < s.len() {
        let n = s.len();
        let prev = if p == 0 { s[n - 1] } else { s[p - 1] };
        let next = if p + 1 == n { s[0] } else { s[p + 1] };
        proof {
            assert(c@.contains(v)) by {
                assert(c@[p as int] == v);
            }
            assert(first_index(c@, v) == p);
            if p == 0 {
                assert((p + n - 1) % (n as int) == n - 1) by (nonlinear_arith)
                    requires p == 0, n > 0;
            } else {
                assert((p + n - 1) % (n as int) == p - 1) by (nonlinear_arith)
                    requires 0 < p < n;
            }
            if p + 1 == n {
                assert((p + 1) % (n as int) == 0) by (nonlinear_arith)
                    requires p + 1 == n, n > 0;
            } else {
                assert((p + 1) % (n as int) == p + 1) by (nonlinear_arith)
                    requires p + 1 < n;
            }
        }
        Some([prev, next])
    } else {
        None
    }
}

/// Walks the pairs from `first`, as `chain` does.
fn chain_from(relevant: Vec<[VertexId; 2]>, first: VertexId) -> (r: Vec<VertexId>)
    ensures
        r@ == chain(relevant@, first),
{
    let ghost whole = chain(relevant@, first);
    let mut relevant = relevant;
    let mut sorted: Vec<VertexId> = Vec::new();
    let mut previous = first;
    loop
        invariant
            sorted@ + chain(relevant@, previous) == whole,
        ensures
            sorted@ == whole,
        decreases relevant@.len(),
    {
        let mut i: usize = 0;
        while i < relevant.len() && relevant[i][0] != previous && relevant[i][1] != previous
            invariant
                i <= relevant@.len(),
                forall|k: int| 0 <= k < i ==> !touches(#[trigger] relevant@[k], previous),
            decreases relevant@.len() - i,
        {
            i += 1;
        }
        proof {
            lemma_first_touching(relevant@, previous);
            if i < relevant@.len() {
                if first_touching(relevant@, previous) < i {
                    let f = first_touching(relevant@, previous);
                    assert(!touches(relevant@[f], previous));
                }
                assert(first_touching(relevant@, previous) == i);
            } else {
                assert(first_touching(relevant@, previous) == relevant@.len());
            }
        }
        let ghost rel_before = relevant@;
        if i < relevant.len() {
            let pr = relevant.remove(i);
            let next = if pr[0] == previous { pr[1] } else { pr[0] };
            proof {
                assert(chain(rel_before, previous) == seq![next] + chain(relevant@, next));
            }
            sorted.push(next);
            previous = next;
            assert(sorted@ + chain(relevant@, previous) =~= whole);
        } else {
            assert(chain(relevant@, previous) =~= Seq::<usize>::empty());
            assert(sorted@ =~= whole);
            break;
        }
    }
    sorted
}

/// Sort key of face `i`: more sides first, then fewer distinct neighbor side counts, then its
/// sorted vertices, then its position.
pub open spec fn face_key(fs: Seq<Seq<usize>>, i: int) -> FaceKey {
    (
        (usize::MAX - fs[i].len()) as usize,
        signature(fs, i).to_set().len() as usize,
        fs[i].sort_by(ascending()),
        i as usize,
    )
}

/// The keys of all faces, in `key_order`.
pub open spec fn face_order(fs: Seq<Seq<usize>>) -> Seq<FaceKey> {
    Seq::new(fs.len(), |i: int| face_key(fs, i)).sort_by(key_order())
}

/// The faces in canonical order.
pub open spec fn sorted_faces(fs: Seq<Seq<usize>>) -> Seq<Seq<usize>> {
    Seq::new(fs.len(), |k: int| fs[face_order(fs)[k].3 as int])
}

/// The face ids in the canonical order of their faces.
pub open spec fn sorted_ids(fs: Seq<Seq<usize>>, ids: Seq<usize>) -> Seq<usize> {
    Seq::new(fs.len(), |k: int| ids[face_order(fs)[k].3 as int])
}

proof fn lemma_corners_nonempty(fs: Seq<Seq<usize>>, v: usize, k: nat, i: int)
    requires
        0 <= i < k <= fs.len(),
        fs[i].contains(v),
    ensures
        corners_upto(fs, v, k).len() > 0,
    decreases k,
{
    if i < k - 1 {
        lemma_corners_nonempty(fs, v, (k - 1) as nat, i);
    }
}

} // verus!
