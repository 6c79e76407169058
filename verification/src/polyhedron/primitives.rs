use vstd::prelude::*;
use vstd::std_specs::cmp::PartialEqSpecImpl;
use vstd::std_specs::convert::FromSpecImpl;
use crate::polyhedron::VertexId;

verus! {

/// An edge between two vertices; equal to the same pair in the other order.
#[derive(Clone, Copy, Debug)]
pub struct Edge([VertexId; 2]);

impl View for Edge {
    type V = [VertexId; 2];

    closed spec fn view(&self) -> [VertexId; 2] {
        self.0
    }
}

/// Two pairs hold the same two vertices.
pub open spec fn same_pair(a: [usize; 2], b: [usize; 2]) -> bool {
    (a[0] == b[0] && a[1] == b[1]) || (a[1] == b[0] && a[0] == b[1])
}

impl PartialEq for Edge {
    fn eq(&self, other: &Self) -> (r: bool) {
        (self.0[0] == other.0[0] && self.0[1] == other.0[1]) || (self.0[1] == other.0[0] && self.0[0] == other.0[1])
    }
}

impl PartialEqSpecImpl for Edge {
    open spec fn obeys_eq_spec() -> bool {
        true
    }

    open spec fn eq_spec(&self, other: &Self) -> bool {
        same_pair(self@, other@)
    }
}

impl Eq for Edge {}

impl From<[VertexId; 2]> for Edge {
    fn from(e: [VertexId; 2]) -> (r: Edge)
        ensures
            r@ == e,
    {
        Edge(e)
    }
}

impl FromSpecImpl<[VertexId; 2]> for Edge {
    open spec fn obeys_from_spec() -> bool {
        true
    }

    closed spec fn from_spec(e: [VertexId; 2]) -> Edge {
        Edge(e)
    }
}

impl From<Edge> for [VertexId; 2] {
    fn from(e: Edge) -> (r: [VertexId; 2]) {
        e.0
    }
}

impl FromSpecImpl<Edge> for [VertexId; 2] {
    open spec fn obeys_from_spec() -> bool {
        true
    }

    open spec fn from_spec(e: Edge) -> [VertexId; 2] {
        e@
    }
}

impl Edge {
    /// The first endpoint.
    pub fn v(&self) -> (r: VertexId)
        ensures
            r == self@[0],
    {
        self.0[0]
    }

    /// The second endpoint.
    pub fn w(&self) -> (r: VertexId)
        ensures
            r == self@[1],
    {
        self.0[1]
    }

    /// Both endpoints, in stored order.
    pub fn inner(&self) -> (r: [VertexId; 2])
        ensures
            r == self@,
    {
        self.0
    }

    /// The smaller endpoint.
    pub fn min(&self) -> (r: VertexId)
        ensures
            r == if self@[0] <= self@[1] { self@[0] } else { self@[1] },
    {
        if self.0[0] <= self.0[1] {
            self.0[0]
        } else {
            self.0[1]
        }
    }

    /// The larger endpoint.
    pub fn max(&self) -> (r: VertexId)
        ensures
            r == if self@[0] >= self@[1] { self@[0] } else { self@[1] },
    {
        if self.0[0] >= self.0[1] {
            self.0[0]
        } else {
            self.0[1]
        }
    }
}

} // verus!
