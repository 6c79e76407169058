use vstd::prelude::*;
use crate::polyhedron::VertexId;
use super::{DISCONNECTED, Distance, empty_rows, entry, rows_wf};
use super::paths::lemma_connect_rows;
use super::conway::lemma_rows_ext;

verus! {

/// Some pair of `list` joins `x` and `y`.
pub open spec fn listed(list: Seq<[usize; 2]>, x: int, y: int) -> bool {
    exists|k: int| 0 <= k < list.len() && #[trigger] list[k] == [x as usize, y as usize] || 0 <= k < list.len() && list[k] == [y as usize, x as usize]
}

/// Every endpoint of `list` is a vertex below `n`.
pub open spec fn list_below(list: Seq<[usize; 2]>, n: nat) -> bool {
    forall|k: int| 0 <= k < list.len() ==> (#[trigger] list[k])[0] < n && list[k][1] < n
}

/// The graph on `n` vertices whose edges are the pairs of `list` between distinct vertices.
pub open spec fn graph_from(n: nat, list: Seq<[usize; 2]>) -> Seq<Seq<usize>> {
    Seq::new(
        n,
        |x: int| Seq::new((x + 1) as nat, |y: int| if x == y { 0usize } else if listed(list, x, y) { 1usize } else { DISCONNECTED }),
    )
}

pub proof fn lemma_graph_from(n: nat, list: Seq<[usize; 2]>)
    ensures
        rows_wf(graph_from(n, list)),
        graph_from(n, list).len() == n,
        forall|x: int, y: int| 0 <= x < n && 0 <= y < n ==> #[trigger] entry(graph_from(n, list), x, y) == if x == y {
            0usize
        } else if listed(list, x, y) {
            1usize
        } else {
            DISCONNECTED
        },
{
    let g = graph_from(n, list);
    assert forall|x: int, y: int| 0 <= x < n && 0 <= y < n implies #[trigger] entry(g, x, y) == if x == y {
        0usize
    } else if listed(list, x, y) {
        1usize
    } else {
        DISCONNECTED
    } by {
        if x < y {
            if listed(list, y, x) {
                let k = choose|k: int| 0 <= k < list.len() && #[trigger] list[k] == [y as usize, x as usize] || 0 <= k < list.len() && list[k] == [x as usize, y as usize];
                assert(listed(list, x, y));
            }
            if listed(list, x, y) {
                let k = choose|k: int| 0 <= k < list.len() && #[trigger] list[k] == [x as usize, y as usize] || 0 <= k < list.len() && list[k] == [y as usize, x as usize];
                assert(listed(list, y, x));
            }
        }
    }
}

impl Distance {
    /// The graph on `n` vertices holding exactly the edges of `list` (pairs of a vertex with
    /// itself are ignored), as `new` followed by `connect` on every pair.
    pub fn from_edges(n: usize, list: &Vec<[VertexId; 2]>) -> (d: Self)
        requires
            list_below(list@, n as nat),
        ensures
            d.wf(),
            d@ == graph_from(n as nat, list@),
            d.tags() == Seq::new(n as nat, |v: int| set![v as u64]),
            d.tag_counter() == n as u64,
    {
        let mut d = Distance::new(n);
        let mut k: usize = 0;
        proof {
            lemma_graph_from(n as nat, list@.take(0));
            assert forall|x: int, y: int| 0 <= x < n && 0 <= y < n implies #[trigger] entry(d@, x, y) == entry(graph_from(n as nat, list@.take(0)), x, y) by {
                assert(empty_rows(n as nat)[x].len() == x + 1);
                assert(empty_rows(n as nat)[y].len() == y + 1);
            }
            lemma_rows_ext(d@, graph_from(n as nat, list@.take(0)));
        }
        while k < list.len()
            invariant
                k <= list@.len(),
                list_below(list@, n as nat),
                d.wf(),
                d@.len() == n,
                d@ == graph_from(n as nat, list@.take(k as int)),
                d.tags() == Seq::new(n as nat, |v: int| set![v as u64]),
                d.tag_counter() == n as u64,
            decreases list@.len() - k,
        {
            let e = list[k];
            let ghost before = d@;
            d.connect(e);
            proof {
                lemma_connect_rows(before, e[0] as int, e[1] as int);
                lemma_graph_from(n as nat, list@.take(k as int));
                lemma_graph_from(n as nat, list@.take(k + 1));
                let l0 = list@.take(k as int);
                let l1 = list@.take(k + 1);
                assert forall|x: int, y: int| 0 <= x < n && 0 <= y < n implies #[trigger] entry(d@, x, y) == entry(graph_from(n as nat, l1), x, y) by {
                    assert(listed(l1, x, y) == (listed(l0, x, y) || (e == [x as usize, y as usize] || e == [y as usize, x as usize]))) by {
                        if listed(l1, x, y) {
                            let q = choose|q: int| 0 <= q < l1.len() && #[trigger] l1[q] == [x as usize, y as usize] || 0 <= q < l1.len() && l1[q] == [y as usize, x as usize];
                            if q < k {
                                assert(l0[q] == l1[q]);
                            }
                        }
                        if listed(l0, x, y) {
                            let q = choose|q: int| 0 <= q < l0.len() && #[trigger] l0[q] == [x as usize, y as usize] || 0 <= q < l0.len() && l0[q] == [y as usize, x as usize];
                            assert(l0[q] == l1[q]);
                        }
                        if e == [x as usize, y as usize] || e == [y as usize, x as usize] {
                            assert(l1[k as int] == e);
                        }
                    }
                    if (x == e[0] && y == e[1]) || (x == e[1] && y == e[0]) {
                        assert(e == [x as usize, y as usize] || e == [y as usize, x as usize]);
                    } else {
                        if e == [x as usize, y as usize] || e == [y as usize, x as usize] {
                            assert(e[0] == x as usize);
                        }
                    }
                }
                lemma_rows_ext(d@, graph_from(n as nat, l1));
            }
            k += 1;
        }
        assert(list@.take(k as int) =~= list@);
        d
    }

    /// The complete graph on four vertices.
    pub fn tetrahedron() -> (d: Self)
        ensures
            d.wf(),
            d@.len() == 4,
            forall|x: int, y: int| 0 <= x < 4 && 0 <= y < 4 ==> #[trigger] entry(d@, x, y) == if x == y { 0usize } else { 1usize },
    {
        let list: Vec<[VertexId; 2]> = vec![[0, 1], [0, 2], [0, 3], [1, 2], [1, 3], [2, 3]];
        proof {
            assert(list@[0] == [0usize, 1usize]);
            assert(list@[1] == [0usize, 2usize]);
            assert(list@[2] == [0usize, 3usize]);
            assert(list@[3] == [1usize, 2usize]);
            assert(list@[4] == [1usize, 3usize]);
            assert(list@[5] == [2usize, 3usize]);
        }
        let d = Distance::from_edges(4, &list);
        proof {
            lemma_graph_from(4, list@);
            assert forall|x: int, y: int| 0 <= x < 4 && 0 <= y < 4 implies #[trigger] entry(d@, x, y) == if x == y { 0usize } else { 1usize } by {
                if x != y {
                    assert(listed(list@, x, y));
                }
            }
        }
        d
    }
}

} // verus!
