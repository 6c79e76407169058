use vstd::prelude::*;
use crate::polyhedron::VertexId;
use super::paths::{lemma_connect_rows, lemma_disconnect_rows};
use crate::polyhedron::merge::{contract_edge_indices, edges_below, lemma_merge_sequence_valid, merge_sequence, merges_valid};
use super::{
    DISCONNECTED, Distance, parent_tags, connect_rows, delete_rows, disconnect_rows, entry, lemma_neighbors_upto,
    neighbors_upto, rows_wf,
};
use super::overlay::{overlay, lemma_overlay_connect, lemma_overlay_connect_old, lemma_overlay_disconnect, lemma_overlay_entry, lemma_overlay_grow, lemma_overlay_list_old};
use super::assemble::list_below;

verus! {

/// Entry `(x, y)` once every neighbor `w` in `ws` of `v` has been moved over to `u`:
/// `{w, v}` is disconnected and `{w, u}` connected.
pub open spec fn merged_entry(m: Seq<Seq<usize>>, v: int, u: int, ws: Seq<usize>, x: int, y: int) -> usize {
    if x != y && (x == v || y == v) && ws.contains((if x == v { y } else { x }) as usize) {
        DISCONNECTED
    } else if x != y && (x == u || y == u) && ws.contains((if x == u { y } else { x }) as usize) && entry(m, x, y) != 0 {
        1
    } else {
        entry(m, x, y)
    }
}

/// The matrix once the neighbors `ws` of `v` have been moved over to `u`.
pub open spec fn merge_rows_with(m: Seq<Seq<usize>>, v: int, u: int, ws: Seq<usize>) -> Seq<Seq<usize>> {
    Seq::new(m.len(), |x: int| Seq::new((x + 1) as nat, |y: int| merged_entry(m, v, u, ws, x, y)))
}

/// Contracting the edge `{v, u}`: `u` takes over every connection of `v`, then `v` is deleted.
pub open spec fn contract_rows(m: Seq<Seq<usize>>, v: int, u: int) -> Seq<Seq<usize>> {
    delete_rows(merge_rows_with(m, v, u, neighbors_upto(m, v, m.len())), v)
}

/// The ancestor sets after a split of `v` into itself and `k` copies: each copy carries the
/// ancestors of `v`.
pub open spec fn split_tags(tags: Seq<Set<u64>>, v: int, k: nat) -> Seq<Set<u64>> {
    tags + Seq::new(k, |i: int| tags[v])
}

/// The ancestor sets after merging `v` into `u`: `u` gains the ancestors of `v`, and `v` goes.
pub open spec fn merged_tags(tags: Seq<Set<u64>>, v: int, u: int) -> Seq<Set<u64>> {
    tags.update(u, tags[u].union(tags[v])).remove(v)
}

/// The ancestor sets after the merges `ms`, one after another.
pub open spec fn contract_all_tags(tags: Seq<Set<u64>>, ms: Seq<(usize, usize)>) -> Seq<Set<u64>>
    decreases ms.len(),
{
    if ms.len() == 0 {
        tags
    } else {
        contract_all_tags(merged_tags(tags, ms[0].0 as int, ms[0].1 as int), ms.drop_first())
    }
}

/// Performing the merges `ms` one after another.
pub open spec fn contract_all(m: Seq<Seq<usize>>, ms: Seq<(usize, usize)>) -> Seq<Seq<usize>>
    decreases ms.len(),
{
    if ms.len() == 0 {
        m
    } else {
        contract_all(contract_rows(m, ms[0].0 as int, ms[0].1 as int), ms.drop_first())
    }
}

/// Two well-formed matrices with the same entries are equal.
pub proof fn lemma_rows_ext(a: Seq<Seq<usize>>, b: Seq<Seq<usize>>)
    requires
        rows_wf(a),
        rows_wf(b),
        a.len() == b.len(),
        forall|i: int, j: int| 0 <= i < a.len() && 0 <= j < a.len() ==> #[trigger] entry(a, i, j) == entry(b, i, j),
    ensures
        a == b,
{
    assert forall|x: int| 0 <= x < a.len() implies #[trigger] a[x] == b[x] by {
        assert(a[x].len() == x + 1 && b[x].len() == x + 1);
        assert forall|y: int| 0 <= y < a[x].len() implies a[x][y] == b[x][y] by {
            assert(entry(a, x, y) == entry(b, x, y));
        }
        assert(a[x] =~= b[x]);
    }
    assert(a =~= b);
}

/// Merging keeps the matrix well formed.
proof fn lemma_merge_rows_wf(m: Seq<Seq<usize>>, v: int, u: int, ws: Seq<usize>)
    requires
        rows_wf(m),
    ensures
        rows_wf(merge_rows_with(m, v, u, ws)),
        merge_rows_with(m, v, u, ws).len() == m.len(),
        forall|x: int, y: int| 0 <= x < m.len() && 0 <= y < m.len() ==>
            #[trigger] entry(merge_rows_with(m, v, u, ws), x, y) == merged_entry(m, v, u, ws, x, y),
{
    let r = merge_rows_with(m, v, u, ws);
    assert forall|x: int| 0 <= x < r.len() implies #[trigger] r[x].len() == x + 1 && r[x][x] == 0 by {
        assert(m[x].len() == x + 1);
    }
}

impl Distance {
    /// Contracts the edge `{v, u}`: `u` takes over every connection of `v`, then `v` is deleted.
    pub fn contract_edge(&mut self, e: [VertexId; 2])
        requires
            old(self).wf(),
            e[0] < old(self)@.len(),
            e[1] < old(self)@.len(),
            e[0] != e[1],
        ensures
            final(self).wf(),
            final(self)@ == contract_rows(old(self)@, e[0] as int, e[1] as int),
            final(self).tags() == merged_tags(old(self).tags(), e[0] as int, e[1] as int),
            final(self).tag_counter() == old(self).tag_counter(),
    {
        let v = e[0];
        let u = e[1];
        let ghost m = self@;
        let n = self.order();
        let nb = self.neighbors(v);
        proof {
            lemma_neighbors_upto(m, v as int, n as nat);
            lemma_merge_rows_wf(m, v as int, u as int, nb@.take(0));
            lemma_rows_ext(m, merge_rows_with(m, v as int, u as int, nb@.take(0)));
        }
        let mut j: usize = 0;
        while j < nb.len()
            invariant
                self.wf(),
                self@.len() == n,
                m.len() == n,
                rows_wf(m),
                v < n,
                u < n,
                v != u,
                j <= nb@.len(),
                nb@ == neighbors_upto(m, v as int, n as nat),
                forall|k: int| 0 <= k < nb@.len() ==> (#[trigger] nb@[k]) < n && entry(m, v as int, nb@[k] as int) == 1,
                forall|a: int, b: int| 0 <= a < b < nb@.len() ==> (#[trigger] nb@[a]) < (#[trigger] nb@[b]),
                self@ == merge_rows_with(m, v as int, u as int, nb@.take(j as int)),
                self.tags() == old(self).tags(),
                self.tag_counter() == old(self).tag_counter(),
            decreases nb@.len() - j,
        {
            let w = nb[j];
            let ghost before = self@;
            proof {
                assert(m[v as int].len() == v + 1);
                assert(w != v);
                lemma_merge_rows_wf(m, v as int, u as int, nb@.take(j as int));
                lemma_merge_rows_wf(m, v as int, u as int, nb@.take(j + 1));
                assert(!nb@.take(j as int).contains(w)) by {
                    if nb@.take(j as int).contains(w) {
                        let k = choose|k: int| 0 <= k < j && #[trigger] nb@.take(j as int)[k] == w;
                        assert(nb@[k] < nb@[j as int]);
                    }
                }
                assert forall|q: usize| #[trigger] nb@.take(j + 1).contains(q) <==> nb@.take(j as int).contains(q) || q == w by {
                    if nb@.take(j + 1).contains(q) {
                        let k = choose|k: int| 0 <= k < j + 1 && #[trigger] nb@.take(j + 1)[k] == q;
                        if k < j {
                            assert(nb@.take(j as int)[k] == q);
                        }
                    }
                    if nb@.take(j as int).contains(q) {
                        let k = choose|k: int| 0 <= k < j && #[trigger] nb@.take(j as int)[k] == q;
                        assert(nb@.take(j + 1)[k] == q);
                    }
                    if q == w {
                        assert(nb@.take(j + 1)[j as int] == q);
                    }
                }
            }
            self.connect([w, u]);
            let ghost mid = self@;
            self.disconnect([w, v]);
            proof {
                lemma_connect_rows(before, w as int, u as int);
                lemma_disconnect_rows(mid, w as int, v as int);
                let target = merge_rows_with(m, v as int, u as int, nb@.take(j + 1));
                assert forall|x: int, y: int| 0 <= x < n && 0 <= y < n implies #[trigger] entry(self@, x, y) == entry(target, x, y) by {
                    assert(entry(before, x, y) == merged_entry(m, v as int, u as int, nb@.take(j as int), x, y));
                    assert(entry(target, x, y) == merged_entry(m, v as int, u as int, nb@.take(j + 1), x, y));
                    assert(entry(before, w as int, u as int) == entry(m, w as int, u as int));
                    assert(entry(before, w as int, v as int) == entry(m, w as int, v as int));
                    let ov = (if x == v { y } else { x }) as usize;
                    let ou = (if x == u { y } else { x }) as usize;
                    assert(nb@.take(j + 1).contains(ov) == (nb@.take(j as int).contains(ov) || ov == w));
                    assert(nb@.take(j + 1).contains(ou) == (nb@.take(j as int).contains(ou) || ou == w));
                    if (x == w && y == v) || (x == v && y == w) {
                        assert(entry(mid, x, y) == entry(before, x, y));
                        assert(entry(m, x, y) == 1);
                        assert(entry(before, x, y) == 1);
                        assert(entry(self@, x, y) == DISCONNECTED);
                        assert(nb@.take(j + 1).contains(w));
                        assert(entry(target, x, y) == DISCONNECTED);
                    } else if (x == w && y == u) || (x == u && y == w) {
                        assert(entry(mid, x, y) == entry(self@, x, y));
                        assert(entry(before, x, y) == entry(m, x, y));
                        assert(nb@.take(j + 1).contains(w));
                        if w == u {
                            assert(x == y);
                            assert(m[x].len() == x + 1);
                            assert(entry(m, x, y) == 0);
                        } else {
                            assert(x != y);
                            assert(!(x == v || y == v));
                            assert(ou == w);
                            assert(merged_entry(m, v as int, u as int, nb@.take(j + 1), x, y) == if entry(m, x, y) != 0 { 1 } else { entry(m, x, y) });
                        }
                        assert(entry(target, x, y) == entry(mid, x, y));
                    } else {
                        assert(entry(self@, x, y) == entry(mid, x, y));
                        assert(entry(mid, x, y) == entry(before, x, y));
                    }
                }
                lemma_rows_ext(self@, target);
            }
            j += 1;
        }
        proof {
            assert(nb@.take(j as int) =~= nb@);
        }
        self.merge_ancestry(v, u);
        self.delete(v);
    }

    /// Contracts every edge of `edges` in order, each merge relabelling the edges still to come.
    pub fn contract_edges(&mut self, edges: Vec<[VertexId; 2]>)
        requires
            old(self).wf(),
            edges_below(edges@, old(self)@.len()),
        ensures
            final(self).wf(),
            final(self)@ == contract_all(old(self)@, merge_sequence(edges@)),
            final(self).tags() == contract_all_tags(old(self).tags(), merge_sequence(edges@)),
            final(self).tag_counter() == old(self).tag_counter(),
    {
        let ghost es = edges@;
        proof {
            lemma_merge_sequence_valid(es, self@.len());
        }
        let merges = contract_edge_indices(edges);
        let ghost ms = merges@;
        let mut i: usize = 0;
        assert(ms.skip(0) =~= ms);
        while i < merges.len()
            invariant
                self.wf(),
                i <= merges@.len(),
                ms == merges@,
                ms == merge_sequence(es),
                merges_valid(ms.skip(i as int), self@.len()),
                contract_all(self@, ms.skip(i as int)) == contract_all(old(self)@, ms),
                contract_all_tags(self.tags(), ms.skip(i as int)) == contract_all_tags(old(self).tags(), ms),
                self.tag_counter() == old(self).tag_counter(),
            decreases merges@.len() - i,
        {
            let (v, u) = merges[i];
            let ghost before = self@;
            proof {
                assert(ms.skip(i as int)[0] == (v, u));
                assert(ms.skip(i as int).drop_first() =~= ms.skip(i + 1));
            }
            self.contract_edge([v, u]);
            i += 1;
        }
        assert(ms.skip(i as int) =~= Seq::<(usize, usize)>::empty());
    }
}

/// The vertex at position `i` of the ring `v` splits into: `v` itself, then new vertices from `n` on.
pub open spec fn split_corner(v: usize, n: nat, i: int) -> usize {
    if i == 0 {
        v
    } else {
        (n + i - 1) as usize
    }
}

/// The edges from `v` to its old neighbors, cut by the split.
pub open spec fn split_cuts(v: usize, conns: Seq<usize>) -> Seq<[usize; 2]> {
    conns.map_values(|c: usize| [v, c])
}

/// Each ring vertex joined to the neighbor it stands for.
pub open spec fn split_spokes(v: usize, conns: Seq<usize>, n: nat) -> Seq<[usize; 2]> {
    Seq::new(conns.len(), |i: int| [split_corner(v, n, i), conns[i]])
}

/// The ring of the split, in order.
pub open spec fn split_ring(v: usize, d: nat, n: nat) -> Seq<[usize; 2]> {
    Seq::new(d, |i: int| [split_corner(v, n, i), split_corner(v, n, (i + 1) % (d as int))])
}

impl Distance {
    /// Replaces `v` by a ring of as many vertices as `connections`, the `i`-th joined to
    /// `connections[i]`; `v` itself stays as the first. Returns the ring's edges.
    pub fn split_vertex(&mut self, v: VertexId, connections: Vec<VertexId>) -> (r: Vec<[VertexId; 2]>)
        requires
            old(self).wf(),
            v < old(self)@.len(),
            connections@.len() >= 1,
            forall|i: int| 0 <= i < connections@.len() ==> #[trigger] connections@[i] < old(self)@.len(),
            old(self)@.len() + connections@.len() - 1 <= usize::MAX,
        ensures
            final(self).wf(),
            ({
                let m = old(self)@;
                let n = m.len();
                let c = connections@;
                let d = c.len();
                &&& final(self)@ == overlay(m, split_cuts(v, c), seq![[v, c[0]]], n, (n + d - 1) as nat, split_spokes(v, c, n) + split_ring(v, d, n))
                &&& r@ == split_ring(v, d, n)
            }),
            final(self).tags() == split_tags(old(self).tags(), v as int, (connections@.len() - 1) as nat),
            final(self).tag_counter() == old(self).tag_counter(),
    {
        let ghost m = self@;
        let n = self.order();
        let d = connections.len();
        let ghost c = connections@;
        let ghost tag0 = self.tag_counter();
        let ghost tags0 = self.tags();
        proof {
            lemma_overlay_entry(m, Seq::empty(), Seq::empty(), n as nat, n as nat, Seq::empty());
            assert forall|x: int, y: int| 0 <= x < n && 0 <= y < n implies #[trigger] entry(m, x, y) == entry(overlay(m, Seq::empty(), Seq::empty(), n as nat, n as nat, Seq::empty()), x, y) by {}
            lemma_rows_ext(m, overlay(m, Seq::empty(), Seq::empty(), n as nat, n as nat, Seq::empty()));
        }
        let mut corners: Vec<VertexId> = Vec::new();
        corners.push(v);
        let mut i: usize = 1;
        while i < d
            invariant
                self.wf(),
                rows_wf(m),
                m.len() == n,
                v < n,
                1 <= i <= d,
                n + d - 1 <= usize::MAX,
                tags0.len() == n,
                self@ == overlay(m, Seq::empty(), Seq::empty(), n as nat, (n + i - 1) as nat, Seq::empty()),
                self.tag_counter() == tag0,
                self.tags() == split_tags(tags0, v as int, (i - 1) as nat),
                corners@ == Seq::new(i as nat, |k: int| split_corner(v, n as nat, k)),
            decreases d - i,
        {
            let one: Vec<VertexId> = vec![v];
            let ghost tb = self.tags();
            let u = self.insert_from(one.as_slice());
            proof {
                assert(one@ =~= seq![v]);
                assert(seq![v].drop_last() =~= Seq::<usize>::empty());
                assert(seq![v].last() == v);
                assert(tb[v as int] == tags0[v as int]);
                assert(parent_tags(tb, Seq::<usize>::empty()) == Set::<u64>::empty());
                assert(parent_tags(tb, seq![v]) == parent_tags(tb, Seq::<usize>::empty()).union(tb[v as int]));
                assert(parent_tags(tb, seq![v]) =~= tags0[v as int]);
                assert(self.tags() =~= split_tags(tags0, v as int, i as nat));
                lemma_overlay_grow(m, Seq::empty(), Seq::empty(), n as nat, (n + i - 1) as nat, Seq::empty(), self@);
            }
            corners.push(u);
            i += 1;
            assert(corners@ =~= Seq::new(i as nat, |k: int| split_corner(v, n as nat, k)));
        }
        let ghost size = (n + d - 1) as nat;
        let ghost mut es: Seq<[usize; 2]> = Seq::empty();
        let mut j: usize = 0;
        while j < d
            invariant
                self.wf(),
                rows_wf(m),
                m.len() == n,
                v < n,
                d == c.len(),
                c == connections@,
                forall|q: int| 0 <= q < c.len() ==> #[trigger] c[q] < n,
                size == n + d - 1,
                size <= usize::MAX,
                j <= d,
                self@ == overlay(m, es, Seq::empty(), n as nat, size, Seq::empty()),
                es == split_cuts(v, c).take(j as int),
                self.tag_counter() == tag0,
                self.tags() == split_tags(tags0, v as int, (d - 1) as nat),
            decreases d - j,
        {
            let cj = connections[j];
            self.disconnect([v, cj]);
            proof {
                lemma_overlay_disconnect(m, es, Seq::empty(), n as nat, size, Seq::empty(), v as int, cj as int, self@);
                assert(split_cuts(v, c).take(j + 1) =~= split_cuts(v, c).take(j as int).push([v, cj]));
                es = es.push([v, cj]);
            }
            j += 1;
        }
        proof {
            assert(split_cuts(v, c).take(d as int) =~= split_cuts(v, c));
        }
        let ghost mut forced: Seq<[usize; 2]> = Seq::empty();
        let ghost mut list: Seq<[usize; 2]> = Seq::empty();
        let mut k: usize = 0;
        while k < d
            invariant
                self.wf(),
                rows_wf(m),
                m.len() == n,
                v < n,
                d == c.len(),
                d >= 1,
                c == connections@,
                forall|q: int| 0 <= q < c.len() ==> #[trigger] c[q] < n,
                size == n + d - 1,
                size <= usize::MAX,
                corners@ == Seq::new(d as nat, |q: int| split_corner(v, n as nat, q)),
                k <= d,
                es == split_cuts(v, c),
                forced == (if k == 0 { Seq::<[usize; 2]>::empty() } else { seq![[v, c[0]]] }),
                list == split_spokes(v, c, n as nat).take(k as int),
                self@ == overlay(m, es, forced, n as nat, size, list),
                self.tag_counter() == tag0,
                self.tags() == split_tags(tags0, v as int, (d - 1) as nat),
            decreases d - k,
        {
            let a = corners[k];
            let b = connections[k];
            self.connect([a, b]);
            proof {
                assert(split_spokes(v, c, n as nat).take(k + 1) =~= list.push([a, b]));
                if k == 0 {
                    lemma_overlay_connect_old(m, es, forced, n as nat, size, list, a as int, b as int, self@);
                    lemma_overlay_list_old(m, es, forced.push([a, b]), n as nat, size, list, [a, b]);
                    forced = forced.push([a, b]);
                    assert(forced =~= seq![[v, c[0]]]);
                } else {
                    lemma_overlay_connect(m, es, forced, n as nat, size, list, a as int, b as int, self@);
                }
                list = list.push([a, b]);
            }
            k += 1;
        }
        proof {
            assert(split_spokes(v, c, n as nat).take(d as int) =~= split_spokes(v, c, n as nat));
        }
        let ghost spokes = list;
        let mut new_edges: Vec<[VertexId; 2]> = Vec::new();
        let mut k: usize = 0;
        while k < d
            invariant
                self.wf(),
                rows_wf(m),
                m.len() == n,
                v < n,
                d == c.len(),
                d >= 1,
                size == n + d - 1,
                size <= usize::MAX,
                corners@ == Seq::new(d as nat, |q: int| split_corner(v, n as nat, q)),
                k <= d,
                es == split_cuts(v, c),
                forced == seq![[v, c[0]]],
                spokes == split_spokes(v, c, n as nat),
                list == spokes + split_ring(v, d as nat, n as nat).take(k as int),
                new_edges@ == split_ring(v, d as nat, n as nat).take(k as int),
                self@ == overlay(m, es, forced, n as nat, size, list),
                self.tag_counter() == tag0,
                self.tags() == split_tags(tags0, v as int, (d - 1) as nat),
            decreases d - k,
        {
            let j = if k + 1 == d { 0 } else { k + 1 };
            proof {
                if k + 1 == d {
                    assert((k as int + 1) % (d as int) == 0) by (nonlinear_arith)
                        requires k + 1 == d;
                } else {
                    assert((k as int + 1) % (d as int) == k + 1) by (nonlinear_arith)
                        requires k + 1 < d;
                }
            }
            let e = [corners[k], corners[j]];
            let ghost before = self@;
            self.connect(e);
            proof {
                assert(e == split_ring(v, d as nat, n as nat)[k as int]);
                if e[0] >= n || e[1] >= n {
                    lemma_overlay_connect(m, es, forced, n as nat, size, list, e[0] as int, e[1] as int, self@);
                } else {
                    assert(k == 0 && j == 0);
                    lemma_overlay_entry(m, es, forced, n as nat, size, list);
                    assert(m[v as int].len() == v + 1);
                    assert(entry(before, v as int, v as int) == 0);
                    assert(self@ == before);
                    lemma_overlay_list_old(m, es, forced, n as nat, size, list, e);
                }
                list = list.push(e);
                assert(split_ring(v, d as nat, n as nat).take(k + 1) =~= split_ring(v, d as nat, n as nat).take(k as int).push(e));
            }
            new_edges.push(e);
            k += 1;
        }
        proof {
            assert(split_ring(v, d as nat, n as nat).take(d as int) =~= split_ring(v, d as nat, n as nat));
        }
        new_edges
    }
}

} // verus!
