use vstd::prelude::*;
use crate::polyhedron::VertexId;

verus! {

/// Where vertex `x` lands once `v` has been merged into `u < v` and deleted.
pub open spec fn relabel(x: usize, v: usize, u: usize) -> usize {
    if x == v {
        u
    } else if x > v {
        (x - 1) as usize
    } else {
        x
    }
}

/// An edge with both endpoints relabelled.
pub open spec fn relabel_edge(e: [usize; 2], v: usize, u: usize) -> [usize; 2] {
    [relabel(e[0], v, u), relabel(e[1], v, u)]
}

/// The merges `(v, u)`, `u < v`, that contracting `edges` in order performs: each edge merges
/// its larger endpoint into its smaller one, and the edges still to come are relabelled;
/// an edge whose endpoints already coincide is skipped.
pub open spec fn merge_sequence(edges: Seq<[usize; 2]>) -> Seq<(usize, usize)>
    decreases edges.len(),
{
    if edges.len() == 0 {
        Seq::empty()
    } else {
        let e = edges[0];
        let rest = edges.drop_first();
        if e[0] == e[1] {
            merge_sequence(rest)
        } else {
            let v = if e[0] > e[1] { e[0] } else { e[1] };
            let u = if e[0] > e[1] { e[1] } else { e[0] };
            seq![(v, u)] + merge_sequence(rest.map_values(|f: [usize; 2]| relabel_edge(f, v, u)))
        }
    }
}

/// Every endpoint lies below `n`.
pub open spec fn edges_below(edges: Seq<[usize; 2]>, n: nat) -> bool {
    forall|i: int| 0 <= i < edges.len() ==> (#[trigger] edges[i])[0] < n && edges[i][1] < n
}

/// Each merge `(v, u)` has `u < v` below the current vertex count, which then drops by one.
pub open spec fn merges_valid(ms: Seq<(usize, usize)>, n: nat) -> bool
    decreases ms.len(),
{
    ms.len() == 0 || {
        &&& ms[0].1 < ms[0].0
        &&& ms[0].0 < n
        &&& merges_valid(ms.drop_first(), (n - 1) as nat)
    }
}

/// The merges of a list of edges over `n` vertices are valid.
pub proof fn lemma_merge_sequence_valid(edges: Seq<[usize; 2]>, n: nat)
    requires
        edges_below(edges, n),
    ensures
        merges_valid(merge_sequence(edges), n),
        merge_sequence(edges).len() <= edges.len(),
    decreases edges.len(),
{
    if edges.len() > 0 {
        let e = edges[0];
        let rest = edges.drop_first();
        if e[0] == e[1] {
            lemma_merge_sequence_valid(rest, n);
        } else {
            let v = if e[0] > e[1] { e[0] } else { e[1] };
            let u = if e[0] > e[1] { e[1] } else { e[0] };
            let next = rest.map_values(|f: [usize; 2]| relabel_edge(f, v, u));
            assert(edges_below(next, (n - 1) as nat)) by {
                assert forall|i: int| 0 <= i < next.len() implies (#[trigger] next[i])[0] < n - 1 && next[i][1] < n - 1 by {
                    assert(rest[i] == edges[i + 1]);
                }
            }
            lemma_merge_sequence_valid(next, (n - 1) as nat);
            let ms = merge_sequence(edges);
            assert(ms.drop_first() =~= merge_sequence(next));
        }
    }
}

/// Every merge moves a vertex into a smaller one.
pub proof fn lemma_merge_sequence_ordered(edges: Seq<[usize; 2]>)
    ensures
        forall|k: int| 0 <= k < merge_sequence(edges).len() ==> (#[trigger] merge_sequence(edges)[k]).1 < merge_sequence(edges)[k].0,
    decreases edges.len(),
{
    if edges.len() > 0 {
        let e = edges[0];
        let rest = edges.drop_first();
        if e[0] == e[1] {
            lemma_merge_sequence_ordered(rest);
            assert(merge_sequence(edges) == merge_sequence(rest));
        } else {
            let v = if e[0] > e[1] { e[0] } else { e[1] };
            let u = if e[0] > e[1] { e[1] } else { e[0] };
            let next = rest.map_values(|f: [usize; 2]| relabel_edge(f, v, u));
            lemma_merge_sequence_ordered(next);
            let ms = merge_sequence(edges);
            assert(ms == seq![(v, u)] + merge_sequence(next));
            assert forall|k: int| 0 <= k < ms.len() implies (#[trigger] ms[k]).1 < ms[k].0 by {
                if k == 0 {
                    assert(ms[0] == (v, u));
                } else {
                    assert(ms[k] == merge_sequence(next)[k - 1]);
                }
            }
        }
    }
}

/// Replays the merge sequence of contracting `edges` in order: each pair `(v, u)` merges
/// vertex `v` into the survivor `u < v`.
pub fn contract_edge_indices(edges: Vec<[VertexId; 2]>) -> (merges: Vec<(VertexId, VertexId)>)
    ensures
        merges@ == merge_sequence(edges@),
{
    let mut pending = edges;
    let ghost original = pending@;
    let mut merges: Vec<(VertexId, VertexId)> = Vec::new();
    let len = pending.len();
    let mut i: usize = 0;
    assert(pending@.skip(0) =~= pending@);
    assert(merges@ + merge_sequence(pending@.skip(0)) =~= merge_sequence(original));
    while i < len
        invariant
            len == pending@.len(),
            i <= len,
            merges@ + merge_sequence(pending@.skip(i as int)) == merge_sequence(original),
        decreases len - i,
    {
        let e = pending[i];
        let ghost tail = pending@.skip(i as int);
        assert(tail[0] == e);
        assert(tail.drop_first() =~= pending@.skip(i + 1));
        if e[0] != e[1] {
            let v = if e[0] > e[1] { e[0] } else { e[1] };
            let u = if e[0] > e[1] { e[1] } else { e[0] };
            let ghost rest = pending@.skip(i + 1);
            let mut j: usize = i + 1;
            while j < len
                invariant
                    len == pending@.len(),
                    i < j <= len,
                    u < v,
                    pending@.skip(i + 1).len() == rest.len(),
                    forall|k: int| 0 <= k < j - i - 1 ==> #[trigger] pending@.skip(i + 1)[k] == relabel_edge(rest[k], v, u),
                    forall|k: int| j - i - 1 <= k < rest.len() ==> #[trigger] pending@.skip(i + 1)[k] == rest[k],
                    pending@[i as int] == e,
                    pending@.skip(i as int) == seq![e] + pending@.skip(i + 1),
                decreases len - j,
            {
                let f = pending[j];
                let a = if f[0] == v { u } else if f[0] > v { f[0] - 1 } else { f[0] };
                let b = if f[1] == v { u } else if f[1] > v { f[1] - 1 } else { f[1] };
                let ghost before = pending@;
                pending.set(j, [a, b]);
                proof {
                    assert(before.skip(i + 1)[j - i - 1] == f);
                    assert forall|k: int| 0 <= k < j + 1 - i - 1 implies #[trigger] pending@.skip(i + 1)[k] == relabel_edge(rest[k], v, u) by {
                        if k < j - i - 1 {
                            assert(pending@.skip(i + 1)[k] == before.skip(i + 1)[k]);
                        }
                    }
                    assert forall|k: int| j + 1 - i - 1 <= k < rest.len() implies #[trigger] pending@.skip(i + 1)[k] == rest[k] by {
                        assert(pending@.skip(i + 1)[k] == before.skip(i + 1)[k]);
                    }
                    assert(pending@.skip(i as int) =~= seq![e] + pending@.skip(i + 1));
                }
                j += 1;
            }
            proof {
                assert(pending@.skip(i + 1) =~= rest.map_values(|f: [usize; 2]| relabel_edge(f, v, u)));
                assert(tail.drop_first() =~= rest);
            }
            merges.push((v, u));
            proof {
                assert(merges@ + merge_sequence(pending@.skip(i + 1)) =~= merge_sequence(original));
            }
        }
        i += 1;
    }
    assert(pending@.skip(len as int) =~= Seq::<[usize; 2]>::empty());
    assert(merges@ =~= merge_sequence(original));
    merges
}

} // verus!
