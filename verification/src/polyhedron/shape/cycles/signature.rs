use vstd::prelude::*;
use crate::polyhedron::VertexId;
use crate::polyhedron::order::{ascending, sort_values};

verus! {

/// `{a, b}` and `{x, y}` are the same undirected edge.
pub open spec fn same_edge(a: usize, b: usize, x: usize, y: usize) -> bool {
    (a == x && b == y) || (a == y && b == x)
}

/// Face `f` runs along the undirected edge `{a, b}`.
pub open spec fn has_edge(f: Seq<usize>, a: usize, b: usize) -> bool {
    exists|k: int| 0 <= k < f.len() && #[trigger] same_edge(f[k], f[(k + 1) % (f.len() as int)], a, b)
}

/// The first face `j >= from`, other than `i`, that runs along `{a, b}`.
pub open spec fn first_across(fs: Seq<Seq<usize>>, i: int, a: usize, b: usize, from: int) -> Option<int>
    decreases fs.len() - from,
{
    if from < 0 || from >= fs.len() {
        None
    } else if from != i && has_edge(fs[from], a, b) {
        Some(from)
    } else {
        first_across(fs, i, a, b, from + 1)
    }
}

/// Side counts of the faces across the first `k` edges of face `i`, in edge order.
pub open spec fn raw_sides(fs: Seq<Seq<usize>>, i: int, k: nat) -> Seq<usize>
    decreases k,
{
    if k == 0 {
        Seq::empty()
    } else {
        let s = raw_sides(fs, i, (k - 1) as nat);
        let f = fs[i];
        match first_across(fs, i, f[k - 1], f[(k as int) % (f.len() as int)], 0) {
            Some(j) => s.push(fs[j].len() as usize),
            None => s,
        }
    }
}

/// The sorted multiset of the side counts of the faces across the edges of face `i`.
pub open spec fn signature(fs: Seq<Seq<usize>>, i: int) -> Seq<usize> {
    raw_sides(fs, i, fs[i].len()).sort_by(ascending())
}

/// The signature of every face.
pub open spec fn signatures(fs: Seq<Seq<usize>>) -> Seq<Seq<usize>> {
    Seq::new(fs.len(), |i: int| signature(fs, i))
}

/// Index of the vertex after position `k` of a face of `n` vertices.
fn next_index(k: usize, n: usize) -> (r: usize)
    requires
        k < n,
    ensures
        r == (k as int + 1) % (n as int),
        r < n,
{
    if k + 1 == n {
        proof {
            assert((k as int + 1) % (n as int) == 0) by (nonlinear_arith)
                requires k + 1 == n;
        }
        0
    } else {
        proof {
            assert((k as int + 1) % (n as int) == k + 1) by (nonlinear_arith)
                requires k + 1 < n;
        }
        k + 1
    }
}

/// Whether face `f` runs along `{a, b}`.
pub fn face_has_edge(f: &Vec<VertexId>, a: VertexId, b: VertexId) -> (r: bool)
    ensures
        r == has_edge(f@, a, b),
{
    let n = f.len();
    let mut k: usize = 0;
    while k < n
        invariant
            n == f@.len(),
            k <= n,
            forall|q: int| 0 <= q < k ==> !(#[trigger] same_edge(f@[q], f@[(q + 1) % (n as int)], a, b)),
        decreases n - k,
    {
        let x = f[k];
        let y = f[next_index(k, n)];
        if (x == a && y == b) || (x == b && y == a) {
            assert(same_edge(f@[k as int], f@[(k + 1) % (n as int)], a, b));
            return true;
        }
        k += 1;
    }
    false
}

/// The first face other than `i` that runs along `{a, b}`.
pub fn face_across(fs: &Vec<Vec<VertexId>>, i: usize, a: VertexId, b: VertexId) -> (r: Option<usize>)
    ensures
        match r {
            Some(j) => first_across(fs@.map_values(|c: Vec<VertexId>| c@), i as int, a, b, 0) == Some(j as int),
            None => first_across(fs@.map_values(|c: Vec<VertexId>| c@), i as int, a, b, 0) is None,
        },
        r matches Some(j) ==> j < fs@.len(),
{
    let ghost m = fs@.map_values(|c: Vec<VertexId>| c@);
    let mut j: usize = 0;
    while j < fs.len()
        invariant
            j <= fs@.len(),
            m == fs@.map_values(|c: Vec<VertexId>| c@),
            first_across(m, i as int, a, b, 0) == first_across(m, i as int, a, b, j as int),
        decreases fs@.len() - j,
    {
        if j != i && face_has_edge(&fs[j], a, b) {
            assert(m[j as int] == fs@[j as int]@);
            return Some(j);
        }
        assert(m[j as int] == fs@[j as int]@);
        j += 1;
    }
    None
}

/// For each face, the sorted multiset of the side counts of the faces across its edges.
pub fn neighbor_type_signatures(cycles: &Vec<Vec<VertexId>>) -> (r: Vec<Vec<usize>>)
    ensures
        r@.len() == cycles@.len(),
        forall|i: int| 0 <= i < cycles@.len() ==> #[trigger] r@[i]@ == signature(cycles@.map_values(|c: Vec<VertexId>| c@), i),
{
    let ghost m = cycles@.map_values(|c: Vec<VertexId>| c@);
    let mut out: Vec<Vec<usize>> = Vec::new();
    let mut i: usize = 0;
    while i < cycles.len()
        invariant
            i <= cycles@.len(),
            m == cycles@.map_values(|c: Vec<VertexId>| c@),
            out@.len() == i,
            forall|q: int| 0 <= q < i ==> #[trigger] out@[q]@ == signature(m, q),
        decreases cycles@.len() - i,
    {
        let f = &cycles[i];
        let n = f.len();
        let mut sides: Vec<usize> = Vec::new();
        let mut k: usize = 0;
        while k < n
            invariant
                n == f@.len(),
                k <= n,
                i < cycles@.len(),
                f == cycles@[i as int],
                m == cycles@.map_values(|c: Vec<VertexId>| c@),
                sides@ == raw_sides(m, i as int, k as nat),
            decreases n - k,
        {
            let a = f[k];
            let b = f[next_index(k, n)];
            let ghost before = sides@;
            proof {
                assert(m[i as int] == f@);
                assert(a == m[i as int][(k + 1) - 1]);
                assert(b == m[i as int][((k + 1) as int) % (m[i as int].len() as int)]);
                assert(before == raw_sides(m, i as int, ((k + 1) - 1) as nat));
            }
            let fa = face_across(cycles, i, a, b);
            match fa {
                Some(j) => {
                    proof {
                        assert(m[j as int] == cycles@[j as int]@);
                    }
                    sides.push(cycles[j].len());
                    assert(first_across(m, i as int, a, b, 0) == Some(j as int));
                },
                None => {
                    assert(first_across(m, i as int, a, b, 0) == None::<int>);
                },
            }
            k += 1;
        }
        out.push(sort_values(&sides));
        i += 1;
    }
    out
}

} // verus!
