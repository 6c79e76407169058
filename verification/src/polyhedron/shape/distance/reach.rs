use vstd::prelude::*;
use crate::polyhedron::VertexId;
use super::{Distance, adjacent, delete_rows, lemma_neighbors_upto, neighbors_upto};
use super::paths::{reachable, within};
use super::tags::TagSet;

verus! {

/// There is a vertex, and every vertex can be reached from vertex 0.
pub open spec fn connected(m: Seq<Seq<usize>>) -> bool {
    m.len() > 0 && forall|t: int| 0 <= t < m.len() ==> #[trigger] reachable(m, 0, t)
}

/// The vertices still to delete once `v` is gone and the ones above it moved down.
pub open spec fn shift_down(cyc: Seq<usize>, v: usize) -> Seq<usize> {
    cyc.map_values(|u: usize| if u > v { (u - 1) as usize } else { u })
}

/// Deleting the vertices of `cyc` one by one, relabelling the rest after each, stays in range.
pub open spec fn deletable(n: nat, cyc: Seq<usize>) -> bool
    decreases cyc.len(),
{
    cyc.len() == 0 || (cyc[0] < n && deletable((n - 1) as nat, shift_down(cyc.drop_first(), cyc[0])))
}

/// The matrix once the vertices of `cyc` are deleted one by one.
pub open spec fn strip(m: Seq<Seq<usize>>, cyc: Seq<usize>) -> Seq<Seq<usize>>
    decreases cyc.len(),
{
    if cyc.len() == 0 {
        m
    } else {
        strip(delete_rows(m, cyc[0] as int), shift_down(cyc.drop_first(), cyc[0]))
    }
}

/// Number of set entries.
pub open spec fn count_true(s: Seq<bool>) -> nat
    decreases s.len(),
{
    if s.len() == 0 {
        0
    } else {
        count_true(s.drop_last()) + if s.last() { 1nat } else { 0nat }
    }
}

proof fn lemma_count_true(s: Seq<bool>)
    ensures
        count_true(s) <= s.len(),
        count_true(s) == s.len() <==> forall|i: int| 0 <= i < s.len() ==> #[trigger] s[i],
    decreases s.len(),
{
    if s.len() > 0 {
        lemma_count_true(s.drop_last());
        if forall|i: int| 0 <= i < s.len() ==> #[trigger] s[i] {
            assert forall|i: int| 0 <= i < s.len() - 1 implies #[trigger] s.drop_last()[i] by {
                assert(s[i]);
            }
        }
        if count_true(s) == s.len() {
            assert forall|i: int| 0 <= i < s.len() implies #[trigger] s[i] by {
                if i < s.len() - 1 {
                    assert(s.drop_last()[i]);
                }
            }
        }
    }
}

proof fn lemma_count_true_set(s: Seq<bool>, i: int)
    requires
        0 <= i < s.len(),
        !s[i],
    ensures
        count_true(s.update(i, true)) == count_true(s) + 1,
    decreases s.len(),
{
    let t = s.update(i, true);
    if i < s.len() - 1 {
        lemma_count_true_set(s.drop_last(), i);
        assert(t.drop_last() =~= s.drop_last().update(i, true));
    } else {
        assert(t.drop_last() =~= s.drop_last());
    }
}

proof fn lemma_count_false(n: nat)
    ensures
        count_true(Seq::new(n, |k: int| false)) == 0,
    decreases n,
{
    if n > 0 {
        lemma_count_false((n - 1) as nat);
        assert(Seq::new(n, |k: int| false).drop_last() =~= Seq::new((n - 1) as nat, |k: int| false));
    }
}

/// Everything within reach of a closed set that holds the start lies in it.
proof fn lemma_closed_reach(m: Seq<Seq<usize>>, vis: Seq<bool>, t: int, k: nat)
    requires
        vis.len() == m.len(),
        vis[0],
        forall|x: int, y: int| 0 <= x < m.len() && vis[x] && #[trigger] adjacent(m, x, y) ==> vis[y],
        within(m, 0, t, k),
        0 <= t < m.len(),
    ensures
        vis[t],
    decreases k,
{
    if k > 0 {
        if within(m, 0, t, (k - 1) as nat) {
            lemma_closed_reach(m, vis, t, (k - 1) as nat);
        } else {
            let u = choose|u: int| within(m, 0, u, (k - 1) as nat) && #[trigger] adjacent(m, u, t);
            lemma_closed_reach(m, vis, u, (k - 1) as nat);
        }
    }
}

impl Distance {
    /// A copy of the graph.
    pub fn duplicate(&self) -> (d: Distance)
        requires
            self.wf(),
        ensures
            d.wf(),
            d@ == self@,
            d.tags() == self.tags(),
            d.tag_counter() == self.tag_counter(),
    {
        proof {
            self.lemma_view();
        }
        let mut rows: Vec<Vec<usize>> = Vec::new();
        let mut x: usize = 0;
        while x < self.rows.len()
            invariant
                x <= self.rows@.len(),
                rows@.len() == x,
                forall|k: int| 0 <= k < x ==> #[trigger] rows@[k]@ == self.rows@[k]@,
            decreases self.rows@.len() - x,
        {
            let src = &self.rows[x];
            let mut row: Vec<usize> = Vec::new();
            let mut y: usize = 0;
            while y < src.len()
                invariant
                    y <= src@.len(),
                    row@ == src@.take(y as int),
                decreases src@.len() - y,
            {
                row.push(src[y]);
                y += 1;
                assert(row@ =~= src@.take(y as int));
            }
            assert(src@.take(y as int) =~= src@);
            rows.push(row);
            x += 1;
        }
        let mut ancestors: Vec<TagSet> = Vec::new();
        let mut a: usize = 0;
        while a < self.ancestors.len()
            invariant
                a <= self.ancestors@.len(),
                ancestors@.len() == a,
                forall|k: int| 0 <= k < a ==> #[trigger] ancestors@[k]@ == self.ancestors@[k]@,
            decreases self.ancestors@.len() - a,
        {
            ancestors.push(self.ancestors[a].copy());
            a += 1;
        }
        let d = Distance { order: self.order, rows, ancestors, next_tag: self.next_tag };
        proof {
            d.lemma_view();
            assert(d@ =~= self@);
            assert(d.tags() =~= self.tags());
        }
        d
    }

    /// Whether every vertex can be reached from vertex 0 (false when there is none).
    pub fn is_connected(&self) -> (r: bool)
        requires
            self.wf(),
        ensures
            r == connected(self@),
    {
        let ghost m = self@;
        let n = self.order();
        if n == 0 {
            return false;
        }
        let mut visited: Vec<bool> = Vec::new();
        let mut i: usize = 0;
        while i < n
            invariant
                i <= n,
                visited@ == Seq::new(i as nat, |k: int| false),
            decreases n - i,
        {
            visited.push(false);
            i += 1;
            assert(visited@ =~= Seq::new(i as nat, |k: int| false));
        }
        proof {
            lemma_count_false(n as nat);
            lemma_count_true_set(visited@, 0);
        }
        visited.set(0, true);
        let mut count: usize = 1;
        let mut stack: Vec<VertexId> = Vec::new();
        stack.push(0);
        proof {
            assert(within(m, 0, 0, 0));
            assert forall|x: int| 0 <= x < n && #[trigger] visited@[x] implies x == 0 by {}
            assert(stack@[0] == 0);
            assert(stack@.contains(0));
        }
        while stack.len() > 0
            invariant
                self.wf(),
                m == self@,
                n == m.len(),
                n > 0,
                visited@.len() == n,
                visited@[0],
                count == count_true(visited@),
                count <= n,
                forall|x: int| 0 <= x < n && #[trigger] visited@[x] ==> reachable(m, 0, x),
                forall|q: int| 0 <= q < stack@.len() ==> #[trigger] stack@[q] < n && visited@[stack@[q] as int],
                stack@.no_duplicates(),
                forall|x: int, y: int| 0 <= x < n && visited@[x] && !stack@.contains(x as usize) && #[trigger] adjacent(m, x, y) ==> visited@[y],
            decreases n - count, stack@.len(),
        {
            let ghost st = stack@;
            let v = stack.pop().unwrap();
            let ghost rest = stack@;
            let nb = self.neighbors(v);
            proof {
                lemma_neighbors_upto(m, v as int, n as nat);
                assert(reachable(m, 0, v as int));
                assert(st == rest.push(v));
                assert(!rest.contains(v)) by {
                    if rest.contains(v) {
                        let q = choose|q: int| 0 <= q < rest.len() && rest[q] == v;
                        assert(st[q] == st[rest.len() as int]);
                    }
                }
                assert forall|x: int, y: int| 0 <= x < n && visited@[x] && !stack@.contains(x as usize) && x != v && #[trigger] adjacent(m, x, y) implies visited@[y] by {
                    if st.contains(x as usize) {
                        let q = choose|q: int| 0 <= q < st.len() && st[q] == x as usize;
                        if q < rest.len() {
                            assert(rest[q] == x as usize);
                        }
                    }
                }
            }
            let ghost count0 = count;
            let mut j: usize = 0;
            while j < nb.len()
                invariant
                    self.wf(),
                    m == self@,
                    n == m.len(),
                    v < n,
                    visited@.len() == n,
                    visited@[0],
                    visited@[v as int],
                    reachable(m, 0, v as int),
                    nb@ == neighbors_upto(m, v as int, n as nat),
                    forall|q: int| 0 <= q < nb@.len() ==> (#[trigger] nb@[q]) < n && adjacent(m, v as int, nb@[q] as int),
                    forall|x: int| 0 <= x < n && adjacent(m, v as int, x) ==> #[trigger] nb@.contains(x as usize),
                    j <= nb@.len(),
                    count == count_true(visited@),
                    count <= n,
                    count0 <= count,
                    stack@.len() >= rest.len(),
                    count == count0 ==> stack@ == rest,
                    stack@.len() <= rest.len() + (count - count0),
                    forall|x: int| 0 <= x < n && #[trigger] visited@[x] ==> reachable(m, 0, x),
                    forall|q: int| 0 <= q < stack@.len() ==> #[trigger] stack@[q] < n && visited@[stack@[q] as int],
                    stack@.no_duplicates(),
                    !stack@.contains(v),
                    forall|q: int| 0 <= q < j ==> visited@[#[trigger] nb@[q] as int],
                    forall|x: int, y: int| 0 <= x < n && visited@[x] && !stack@.contains(x as usize) && x != v && #[trigger] adjacent(m, x, y) ==> visited@[y],
                decreases nb@.len() - j,
            {
                let u = nb[j];
                if !visited[u] {
                    proof {
                        lemma_count_true_set(visited@, u as int);
                        lemma_count_true(visited@.update(u as int, true));
                        let k = choose|k: nat| #[trigger] within(m, 0, v as int, k);
                        assert(within(m, 0, u as int, k + 1));
                        assert(reachable(m, 0, u as int));
                        assert(!stack@.contains(u)) by {
                            if stack@.contains(u) {
                                let q = choose|q: int| 0 <= q < stack@.len() && stack@[q] == u;
                            }
                        }
                    }
                    let ghost s0 = stack@;
                    let ghost vis0 = visited@;
                    visited.set(u, true);
                    count += 1;
                    stack.push(u);
                    proof {
                        assert forall|a: int, b: int| 0 <= a < b < stack@.len() implies stack@[a] != stack@[b] by {
                            if b == stack@.len() - 1 {
                                assert(s0[a] != u);
                            } else {
                                assert(s0[a] != s0[b]);
                            }
                        }
                        assert(!stack@.contains(v)) by {
                            if stack@.contains(v) {
                                let q = choose|q: int| 0 <= q < stack@.len() && stack@[q] == v;
                                if q < s0.len() {
                                    assert(s0.contains(v));
                                }
                            }
                        }
                        assert forall|x: int, y: int| 0 <= x < n && visited@[x] && !stack@.contains(x as usize) && x != v && #[trigger] adjacent(m, x, y) implies visited@[y] by {
                            if x != u {
                                assert(vis0[x]);
                                if s0.contains(x as usize) {
                                    let q = choose|q: int| 0 <= q < s0.len() && s0[q] == x as usize;
                                    assert(stack@[q] == x as usize);
                                }
                                assert(vis0[y]);
                            } else {
                                assert(stack@[stack@.len() - 1] == u);
                            }
                        }
                    }
                }
                j += 1;
            }
            proof {
                assert forall|x: int, y: int| 0 <= x < n && visited@[x] && !stack@.contains(x as usize) && #[trigger] adjacent(m, x, y) implies visited@[y] by {
                    if x == v {
                        assert(nb@.contains(y as usize));
                        let q = choose|q: int| 0 <= q < nb@.len() && nb@[q] == y as usize;
                    }
                }
            }
        }
        proof {
            lemma_count_true(visited@);
            if count == n {
                assert forall|t: int| 0 <= t < m.len() implies #[trigger] reachable(m, 0, t) by {
                    assert(visited@[t]);
                }
            } else {
                let t = choose|t: int| 0 <= t < visited@.len() && !#[trigger] visited@[t];
                if reachable(m, 0, t) {
                    let k = choose|k: nat| #[trigger] within(m, 0, t, k);
                    assert forall|x: int, y: int| 0 <= x < m.len() && visited@[x] && #[trigger] adjacent(m, x, y) implies visited@[y] by {}
                    lemma_closed_reach(m, visited@, t, k);
                }
            }
        }
        count == n
    }

    /// Whether deleting the vertices of `cycle` leaves a connected graph.
    pub fn cycle_is_face(&self, cycle: Vec<VertexId>) -> (r: bool)
        requires
            self.wf(),
            deletable(self@.len(), cycle@),
        ensures
            r == connected(strip(self@, cycle@)),
    {
        let ghost original = cycle@;
        let mut dupe = self.duplicate();
        let mut cycle = cycle;
        while cycle.len() > 0
            invariant
                dupe.wf(),
                deletable(dupe@.len(), cycle@),
                strip(dupe@, cycle@) == strip(self@, original),
            decreases cycle@.len(),
        {
            let v = cycle.remove(0);
            let ghost rest = cycle@;
            dupe.delete(v);
            let mut i: usize = 0;
            while i < cycle.len()
                invariant
                    i <= cycle@.len(),
                    cycle@.len() == rest.len(),
                    cycle@ == shift_down(rest, v).take(i as int) + rest.skip(i as int),
                decreases cycle@.len() - i,
            {
                let u = cycle[i];
                proof {
                    assert(u == rest[i as int]);
                }
                if u > v {
                    cycle.set(i, u - 1);
                }
                i += 1;
                assert(cycle@ =~= shift_down(rest, v).take(i as int) + rest.skip(i as int));
            }
            assert(cycle@ =~= shift_down(rest, v));
        }
        dupe.is_connected()
    }
}

} // verus!
