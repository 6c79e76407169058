pub mod chamfer;
pub mod conway;
pub mod cycles;
pub mod distance;
pub mod edge;
pub mod expand;
pub mod laws;
pub mod planarity;
pub mod platonic;
pub mod schlegel;
pub mod topology;

use vstd::prelude::*;
use vstd::std_specs::cmp::PartialEqSpecImpl;
use crate::polyhedron::{FaceId, VertexId};
use cycles::Cycles;
use cycles::discover::discovered;
use cycles::{link_closed, ordered_faces};
use distance::{Distance, PairFilter, diameter_of, grow_rows, neighbors_upto, pairs, connect_rows, delete_rows, disconnect_rows, lemma_pairs_len};
use distance::paths::{is_apsp_of, lemma_same_edges_pairs, same_edges};

verus! {

/// Every vertex of every face is below `n`.
pub open spec fn faces_below(fs: Seq<Seq<usize>>, n: nat) -> bool {
    forall|i: int, k: int| 0 <= i < fs.len() && 0 <= k < fs[i].len() ==> (#[trigger] fs[i][k]) < n
}

/// The matrix with each of the pairs `es` disconnected in turn.
pub open spec fn disconnect_all(m: Seq<Seq<usize>>, es: Seq<[VertexId; 2]>) -> Seq<Seq<usize>>
    decreases es.len(),
{
    if es.len() == 0 {
        m
    } else {
        let e = es.last();
        disconnect_rows(disconnect_all(m, es.drop_last()), e[0] as int, e[1] as int)
    }
}

/// The graph, its faces, and the properties recomputed whenever its structure changes.
#[derive(Debug)]
pub struct Shape {
    /// Graph, represented as distance matrix
    distance: Distance,
    /// Faces of the graph
    pub cycles: Cycles,
    /// Vertex pairs held at a target length by springs
    pub springs: Vec<[VertexId; 2]>,
    /// Next never-used face id
    next_face_id: FaceId,
    /// For a face carved out of another, the id of the face it was carved from
    birth_parents: Vec<(FaceId, FaceId)>,
}

impl Shape {
    /// The distance matrix.
    pub closed spec fn graph(&self) -> Seq<Seq<usize>> {
        self.distance@
    }

    /// The next fresh face id.
    pub closed spec fn next_id(&self) -> FaceId {
        self.next_face_id
    }

    /// Pairs `(face, parent)` recorded for carved faces.
    pub closed spec fn births(&self) -> Seq<(FaceId, FaceId)> {
        self.birth_parents@
    }

    /// The next fresh ancestor tag of the graph.
    pub closed spec fn tag_counter(&self) -> u64 {
        self.distance.tag_counter()
    }

    /// The ancestor tag sets of the vertices.
    pub closed spec fn ancestry(&self) -> Seq<Set<u64>> {
        self.distance.tags()
    }

    /// The faces.
    pub closed spec fn faces(&self) -> Seq<Seq<VertexId>> {
        self.cycles.faces()
    }

    /// The face ids, parallel to the faces.
    pub closed spec fn face_ids(&self) -> Seq<FaceId> {
        self.cycles.face_ids()
    }

    /// The spring pairs.
    pub closed spec fn spring_pairs(&self) -> Seq<[VertexId; 2]> {
        self.springs@
    }

    pub closed spec fn parts_wf(&self) -> bool {
        self.distance.wf() && self.cycles.wf()
    }

    pub open spec fn wf(&self) -> bool {
        &&& self.parts_wf()
        &&& distance::rows_wf(self.graph())
        &&& self.faces().len() == self.face_ids().len()
    }

    /// The distance matrix, for display.
    pub fn distance(&self) -> (r: &Distance)
        requires
            self.wf(),
        ensures
            r.wf(),
            r@ == self.graph(),
    {
        &self.distance
    }

    /// Vertex count.
    pub fn order(&self) -> (r: usize)
        requires
            self.wf(),
        ensures
            r == self.graph().len(),
    {
        self.distance.order()
    }

    /// Adds an isolated vertex and returns its id.
    pub fn insert(&mut self) -> (v: usize)
        requires
            old(self).wf(),
            old(self).graph().len() < usize::MAX,
            old(self).tag_counter() < u64::MAX,
        ensures
            final(self).wf(),
            v == old(self).graph().len(),
            final(self).graph() == grow_rows(old(self).graph()),
            final(self).faces() == old(self).faces(),
            final(self).face_ids() == old(self).face_ids(),
            final(self).ancestry() == old(self).ancestry().push(set![old(self).tag_counter()]),
    {
        self.distance.insert()
    }

    /// Deletes vertex `v` from the graph.
    pub fn delete(&mut self, v: usize)
        requires
            old(self).wf(),
            v < old(self).graph().len(),
        ensures
            final(self).wf(),
            final(self).graph() == delete_rows(old(self).graph(), v as int),
            final(self).faces() == old(self).faces(),
            final(self).face_ids() == old(self).face_ids(),
            final(self).ancestry() == old(self).ancestry().remove(v as int),
    {
        self.distance.delete(v)
    }

    /// Connects two vertices.
    pub fn connect(&mut self, e: [VertexId; 2])
        requires
            old(self).wf(),
            e[0] < old(self).graph().len(),
            e[1] < old(self).graph().len(),
        ensures
            final(self).wf(),
            final(self).graph() == connect_rows(old(self).graph(), e[0] as int, e[1] as int),
            final(self).faces() == old(self).faces(),
            final(self).face_ids() == old(self).face_ids(),
            final(self).ancestry() == old(self).ancestry(),
    {
        self.distance.connect(e);
    }

    /// Number of neighbors of `v`.
    pub fn degree(&self, v: usize) -> (r: usize)
        requires
            self.wf(),
            v < self.graph().len(),
        ensures
            r == neighbors_upto(self.graph(), v as int, self.graph().len()).len(),
    {
        self.distance.neighbors(v).len()
    }

    /// The edges `[v, u]`, `u < v`, of the graph.
    pub fn edges(&self) -> (r: Vec<[VertexId; 2]>)
        requires
            self.wf(),
        ensures
            r@ == pairs(self.graph(), PairFilter::Edges),
    {
        self.distance.edges()
    }

    /// The vertex ids.
    pub fn vertices(&self) -> (r: core::ops::Range<VertexId>)
        requires
            self.wf(),
        ensures
            r.start == 0,
            r.end == self.graph().len(),
    {
        self.distance.vertices()
    }

    /// Recomputes the shortest path lengths and the springs, keeping the faces.
    pub fn recompute_metrics(&mut self)
        requires
            old(self).wf(),
        ensures
            final(self).wf(),
            is_apsp_of(final(self).graph(), old(self).graph()),
            final(self).spring_pairs() == pairs(final(self).graph(), PairFilter::Springs(diameter_of(final(self).graph()))),
            final(self).faces() == old(self).faces(),
            final(self).face_ids() == old(self).face_ids(),
            final(self).next_id() == old(self).next_id(),
            final(self).births() == old(self).births(),
            final(self).ancestry() == old(self).ancestry(),
    {
        self.distance.bfs_apsp();
        self.springs = self.distance.springs();
    }
    /// Recomputes the shortest path lengths, rediscovers the faces and recomputes the springs.
    pub fn recompute(&mut self)
        requires
            old(self).wf(),
            old(self).graph().len() * old(self).graph().len() + 2 <= i64::MAX,
        ensures
            final(self).wf(),
            is_apsp_of(final(self).graph(), old(self).graph()),
            same_edges(final(self).graph(), old(self).graph()),
            discovered(final(self).graph(), old(self).next_id(), final(self).next_id(), final(self).faces(), final(self).face_ids()),
            final(self).spring_pairs() == pairs(final(self).graph(), PairFilter::Springs(diameter_of(final(self).graph()))),
            final(self).births() == old(self).births(),
            final(self).ancestry() == old(self).ancestry(),
    {
        let ghost n = self.graph().len();
        self.distance.bfs_apsp();
        proof {
            lemma_same_edges_pairs(self.graph(), old(self).graph());
            lemma_pairs_len(self.graph(), PairFilter::Edges, n);
            assert(n <= n * n) by (nonlinear_arith);
        }
        self.cycles = Cycles::discover(&self.distance, &mut self.next_face_id);
        self.springs = self.distance.springs();
    }

    /// Disconnects each of `edges`, then recomputes.
    pub fn release(&mut self, edges: &[[VertexId; 2]])
        requires
            old(self).wf(),
            old(self).graph().len() * old(self).graph().len() + 2 <= i64::MAX,
            forall|i: int| 0 <= i < edges@.len() ==> (#[trigger] edges@[i])[0] < old(self).graph().len()
                && edges@[i][1] < old(self).graph().len(),
        ensures
            final(self).wf(),
            is_apsp_of(final(self).graph(), disconnect_all(old(self).graph(), edges@)),
            same_edges(final(self).graph(), disconnect_all(old(self).graph(), edges@)),
            discovered(final(self).graph(), old(self).next_id(), final(self).next_id(), final(self).faces(), final(self).face_ids()),
            final(self).spring_pairs() == pairs(final(self).graph(), PairFilter::Springs(diameter_of(final(self).graph()))),
            final(self).births() == old(self).births(),
            final(self).ancestry() == old(self).ancestry(),
    {
        let ghost m0 = self.graph();
        let mut i: usize = 0;
        while i < edges.len()
            invariant
                self.wf(),
                i <= edges@.len(),
                self.graph() == disconnect_all(m0, edges@.take(i as int)),
                self.graph().len() == m0.len(),
                self.next_id() == old(self).next_id(),
                self.births() == old(self).births(),
                self.ancestry() == old(self).ancestry(),
                forall|k: int| 0 <= k < edges@.len() ==> (#[trigger] edges@[k])[0] < m0.len() && edges@[k][1] < m0.len(),
            decreases edges@.len() - i,
        {
            let e = edges[i];
            self.distance.disconnect(e);
            proof {
                assert(edges@.take(i + 1).drop_last() =~= edges@.take(i as int));
            }
            i += 1;
        }
        assert(edges@.take(i as int) =~= edges@);
        self.recompute();
    }

    /// A shape on the graph of `distance`, with its faces discovered and ids minted from zero.
    pub fn from(distance: Distance) -> (r: Shape)
        requires
            distance.wf(),
            distance@.len() * distance@.len() + 2 <= i64::MAX,
        ensures
            r.wf(),
            is_apsp_of(r.graph(), distance@),
            same_edges(r.graph(), distance@),
            discovered(r.graph(), 0, r.next_id(), r.faces(), r.face_ids()),
            r.spring_pairs() == pairs(r.graph(), PairFilter::Springs(diameter_of(r.graph()))),
            r.births() == Seq::<(FaceId, FaceId)>::empty(),
    {
        let mut shape = Shape {
            distance,
            cycles: Cycles::new(Vec::new(), Vec::new()),
            springs: Vec::new(),
            next_face_id: 0,
            birth_parents: Vec::new(),
        };
        shape.recompute();
        shape
    }
    /// For each pair of consecutive neighbors of `v` around `v`, the index of the face that
    /// holds `v` between them.
    pub fn ordered_face_indices(&self, v: VertexId) -> (r: Vec<usize>)
        requires
            link_closed(self.faces(), v),
        ensures
            r@ == ordered_faces(self.faces(), v),
    {
        self.cycles.ordered_face_indices(v)
    }
}

/// Two shapes are equal when their graphs hold the same distances.
impl PartialEq for Shape {
    fn eq(&self, other: &Self) -> (r: bool) {
        self.distance.same_matrix(&other.distance)
    }
}

impl PartialEqSpecImpl for Shape {
    open spec fn obeys_eq_spec() -> bool {
        true
    }

    open spec fn eq_spec(&self, other: &Self) -> bool {
        self.graph() == other.graph()
    }
}

} // verus!