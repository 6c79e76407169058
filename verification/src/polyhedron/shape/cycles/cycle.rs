use vstd::prelude::*;
use crate::polyhedron::VertexId;

verus! {

/// Where vertex `x` lands when `v` is merged into `u` and deleted.
pub open spec fn shift_vertex(x: usize, v: usize, u: usize) -> usize {
    if x == v {
        u
    } else if x > v {
        (x - 1) as usize
    } else {
        x
    }
}

/// Collapses runs of equal consecutive entries to one entry.
pub open spec fn collapse_runs(s: Seq<usize>) -> Seq<usize>
    decreases s.len(),
{
    if s.len() == 0 {
        s
    } else {
        let d = collapse_runs(s.drop_last());
        if d.len() > 0 && d.last() == s.last() {
            d
        } else {
            d.push(s.last())
        }
    }
}

/// Drops trailing entries equal to the first one, so the cycle does not close on a repeat.
pub open spec fn trim_wrap(s: Seq<usize>) -> Seq<usize>
    decreases s.len(),
{
    if s.len() > 1 && s[0] == s.last() {
        trim_wrap(s.drop_last())
    } else {
        s
    }
}

/// The face once `v` has been merged into `u` and deleted.
pub open spec fn contract_face(s: Seq<usize>, v: usize, u: usize) -> Seq<usize> {
    trim_wrap(collapse_runs(s.map_values(|x: usize| shift_vertex(x, v, u))))
}

/// No two cyclically consecutive entries are equal.
pub open spec fn no_repeats_around(s: Seq<usize>) -> bool {
    &&& forall|i: int| 0 <= i < s.len() - 1 ==> #[trigger] s[i] != s[i + 1]
    &&& s.len() > 1 ==> s[0] != s.last()
}

/// A circular list of vertex ids representing a face.
#[derive(Debug, Clone)]
pub struct Cycle(Vec<VertexId>);

impl View for Cycle {
    type V = Seq<VertexId>;

    closed spec fn view(&self) -> Seq<VertexId> {
        self.0@
    }
}

proof fn lemma_collapse_runs(s: Seq<usize>)
    ensures
        forall|i: int| 0 <= i < collapse_runs(s).len() - 1 ==> #[trigger] collapse_runs(s)[i] != collapse_runs(s)[i + 1],
        collapse_runs(s).len() <= s.len(),
        s.len() > 0 ==> collapse_runs(s).len() > 0 && collapse_runs(s).last() == s.last() && collapse_runs(s)[0] == s[0],
    decreases s.len(),
{
    if s.len() > 0 {
        lemma_collapse_runs(s.drop_last());
    }
}

proof fn lemma_trim_wrap(s: Seq<usize>)
    requires
        forall|i: int| 0 <= i < s.len() - 1 ==> #[trigger] s[i] != s[i + 1],
    ensures
        no_repeats_around(trim_wrap(s)),
        trim_wrap(s).len() <= s.len(),
        trim_wrap(s) == s.take(trim_wrap(s).len() as int),
        s.len() > 0 ==> trim_wrap(s).len() > 0,
    decreases s.len(),
{
    if s.len() > 1 && s[0] == s.last() {
        lemma_trim_wrap(s.drop_last());
        assert(trim_wrap(s) == trim_wrap(s.drop_last()));
        assert(s.drop_last().take(trim_wrap(s).len() as int) =~= s.take(trim_wrap(s).len() as int));
    } else {
        assert(s.take(s.len() as int) =~= s);
    }
}

/// A contracted face has no two equal consecutive vertices, even around the wrap.
pub proof fn lemma_contract_face_no_repeats(s: Seq<usize>, v: usize, u: usize)
    ensures
        no_repeats_around(contract_face(s, v, u)),
        contract_face(s, v, u).len() <= s.len(),
{
    let m = s.map_values(|x: usize| shift_vertex(x, v, u));
    lemma_collapse_runs(m);
    lemma_trim_wrap(collapse_runs(m));
}

impl Cycle {
    /// A cycle over the given vertices.
    pub fn from(vertices: Vec<VertexId>) -> (c: Self)
        ensures
            c@ == vertices@,
    {
        Cycle(vertices)
    }

    /// A copy of the cycle.
    pub fn duplicate(&self) -> (c: Self)
        ensures
            c@ == self@,
    {
        Cycle(self.0.clone())
    }

    /// The vertices as a vector.
    pub fn to_vec(&self) -> (r: Vec<VertexId>)
        ensures
            r@ == self@,
    {
        self.0.clone()
    }

    /// Number of vertices.
    pub fn len(&self) -> (r: usize)
        ensures
            r == self@.len(),
    {
        self.0.len()
    }

    /// Vertex at position `index`, wrapping around.
    pub fn get(&self, index: usize) -> (r: VertexId)
        requires
            self@.len() > 0,
        ensures
            r == self@[(index as int) % (self@.len() as int)],
    {
        self.0[index % self.0.len()]
    }

    /// The vertices in order.
    pub fn as_slice(&self) -> (r: &[VertexId])
        ensures
            r@ == self@,
    {
        self.0.as_slice()
    }

    /// Iterates over the vertices in order.
    pub fn iter(&self) -> (r: std::slice::Iter<'_, VertexId>)
        ensures
            vstd::std_specs::slice::into_iter_elts(r) == self@,
    {
        let s = self.0.as_slice();
        let r = s.iter();
        proof {
            broadcast use vstd::std_specs::slice::axiom_spec_slice_iter;
            assert(vstd::std_specs::slice::into_iter_elts(r) =~= self@);
        }
        r
    }

    /// Whether `v` lies on the cycle.
    pub fn contains(&self, v: &VertexId) -> (r: bool)
        ensures
            r == self@.contains(*v),
    {
        let mut i: usize = 0;
        while i < self.0.len()
            invariant
                i <= self.0@.len(),
                forall|k: int| 0 <= k < i ==> self.0@[k] != *v,
            decreases self.0@.len() - i,
        {
            if self.0[i] == *v {
                return true;
            }
            i += 1;
        }
        false
    }

    /// Appends a vertex.
    pub fn push(&mut self, v: VertexId)
        ensures
            final(self)@ == old(self)@.push(v),
    {
        self.0.push(v);
    }

    /// Merges deleted `v` into survivor `u < v`, shifting higher indices down and collapsing
    /// consecutive duplicates. Returns whether the face survives with at least 3 vertices.
    pub fn contract_vertex(&mut self, v: VertexId, u: VertexId) -> (survives: bool)
        requires
            u < v,
        ensures
            final(self)@ == contract_face(old(self)@, v, u),
            survives == (final(self)@.len() >= 3),
    {
        let ghost mapped = self@.map_values(|x: usize| shift_vertex(x, v, u));
        let mut out: Vec<VertexId> = Vec::new();
        let mut i: usize = 0;
        while i < self.0.len()
            invariant
                i <= self.0@.len(),
                u < v,
                mapped == self.0@.map_values(|x: usize| shift_vertex(x, v, u)),
                out@ == collapse_runs(mapped.take(i as int)),
            decreases self.0@.len() - i,
        {
            let x = self.0[i];
            let x = if x == v {
                u
            } else if x > v {
                x - 1
            } else {
                x
            };
            proof {
                assert(mapped.take(i + 1).drop_last() =~= mapped.take(i as int));
                assert(mapped.take(i + 1).last() == x);
            }
            let n = out.len();
            if n == 0 || out[n - 1] != x {
                out.push(x);
            }
            i += 1;
        }
        assert(mapped.take(i as int) =~= mapped);
        while out.len() > 1 && out[0] == out[out.len() - 1]
            invariant
                trim_wrap(out@) == contract_face(old(self)@, v, u),
            decreases out@.len(),
        {
            let ghost before = out@;
            out.pop();
            assert(out@ =~= before.drop_last());
        }
        self.0 = out;
        self.0.len() >= 3
    }
}

} // verus!
