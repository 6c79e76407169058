use vstd::prelude::*;
use vstd::set_lib::*;
use crate::polyhedron::VertexId;
use super::{DISCONNECTED, Distance, PairFilter, adjacent, pairs, pairs_upto, row_pairs, connect_rows, disconnect_rows, entry, lemma_neighbors_upto, neighbors_upto, rows_wf, set_entry};

verus! {

/// `t` can be reached from `s` over at most `k` edges of `m`.
pub open spec fn within(m: Seq<Seq<usize>>, s: int, t: int, k: nat) -> bool
    decreases k,
{
    if k == 0 {
        s == t
    } else {
        within(m, s, t, (k - 1) as nat) || exists|u: int|
            within(m, s, u, (k - 1) as nat) && #[trigger] adjacent(m, u, t)
    }
}

/// The shortest path from `s` to `t` has exactly `k` edges.
pub open spec fn is_dist(m: Seq<Seq<usize>>, s: int, t: int, k: nat) -> bool {
    within(m, s, t, k) && (k == 0 || !within(m, s, t, (k - 1) as nat))
}

/// Some path leads from `s` to `t`.
pub open spec fn reachable(m: Seq<Seq<usize>>, s: int, t: int) -> bool {
    exists|k: nat| #[trigger] within(m, s, t, k)
}

/// Two matrices have the same edges.
pub open spec fn same_edges(a: Seq<Seq<usize>>, b: Seq<Seq<usize>>) -> bool {
    a.len() == b.len() && forall|i: int, j: int|
        0 <= i < a.len() && 0 <= j < a.len() ==> (#[trigger] entry(a, i, j) == 1) == (entry(b, i, j) == 1)
}

/// `new` holds the shortest path lengths of `old` for connected pairs and `DISCONNECTED` for
/// every pair with no path between.
pub open spec fn is_apsp_of(new: Seq<Seq<usize>>, old: Seq<Seq<usize>>) -> bool {
    &&& new.len() == old.len()
    &&& rows_wf(new)
    &&& forall|s: int, t: int|
        0 <= s < old.len() && 0 <= t < old.len() && s != t ==> {
            &&& reachable(old, s, t) ==> is_dist(old, s, t, #[trigger] entry(new, s, t) as nat)
            &&& !reachable(old, s, t) ==> entry(new, s, t) == DISCONNECTED
        }
}

/// Longer walks reach at least as far.
#[verifier::spinoff_prover]
pub proof fn lemma_within_mono(m: Seq<Seq<usize>>, s: int, t: int, j: nat, k: nat)
    requires
        j <= k,
        within(m, s, t, j),
    ensures
        within(m, s, t, k),
    decreases k - j,
{
    if j < k {
        lemma_within_mono(m, s, t, j, (k - 1) as nat);
    }
}

/// An edge in front of a walk gives a walk one longer.
#[verifier::spinoff_prover]
pub proof fn lemma_within_prepend(m: Seq<Seq<usize>>, a: int, b: int, c: int, k: nat)
    requires
        adjacent(m, a, b),
        within(m, b, c, k),
    ensures
        within(m, a, c, k + 1),
    decreases k,
{
    if k == 0 {
        assert(within(m, a, a, 0));
    } else if within(m, b, c, (k - 1) as nat) {
        lemma_within_prepend(m, a, b, c, (k - 1) as nat);
        lemma_within_mono(m, a, c, k, k + 1);
    } else {
        let u = choose|u: int| within(m, b, u, (k - 1) as nat) && #[trigger] adjacent(m, u, c);
        lemma_within_prepend(m, a, b, u, (k - 1) as nat);
        assert(within(m, a, u, k) && adjacent(m, u, c));
    }
}

/// Walks can be followed backwards.
#[verifier::spinoff_prover]
pub proof fn lemma_within_sym(m: Seq<Seq<usize>>, s: int, t: int, k: nat)
    requires
        within(m, s, t, k),
    ensures
        within(m, t, s, k),
    decreases k,
{
    if k > 0 {
        if within(m, s, t, (k - 1) as nat) {
            lemma_within_sym(m, s, t, (k - 1) as nat);
            lemma_within_mono(m, t, s, (k - 1) as nat, k);
        } else {
            let u = choose|u: int| within(m, s, u, (k - 1) as nat) && #[trigger] adjacent(m, u, t);
            lemma_within_sym(m, s, u, (k - 1) as nat);
            assert(adjacent(m, t, u));
            lemma_within_prepend(m, t, u, s, (k - 1) as nat);
        }
    }
}

/// Reachability and exact distances do not depend on direction.
#[verifier::spinoff_prover]
pub proof fn lemma_is_dist_sym(m: Seq<Seq<usize>>, s: int, t: int, k: nat)
    ensures
        is_dist(m, s, t, k) == is_dist(m, t, s, k),
        reachable(m, s, t) == reachable(m, t, s),
{
    if within(m, s, t, k) {
        lemma_within_sym(m, s, t, k);
    }
    if within(m, t, s, k) {
        lemma_within_sym(m, t, s, k);
    }
    if k > 0 {
        if within(m, s, t, (k - 1) as nat) {
            lemma_within_sym(m, s, t, (k - 1) as nat);
        }
        if within(m, t, s, (k - 1) as nat) {
            lemma_within_sym(m, t, s, (k - 1) as nat);
        }
    }
    if reachable(m, s, t) {
        let j = choose|j: nat| #[trigger] within(m, s, t, j);
        lemma_within_sym(m, s, t, j);
    }
    if reachable(m, t, s) {
        let j = choose|j: nat| #[trigger] within(m, t, s, j);
        lemma_within_sym(m, t, s, j);
    }
}

/// The shortest path length is unique.
#[verifier::spinoff_prover]
pub proof fn lemma_is_dist_unique(m: Seq<Seq<usize>>, s: int, t: int, j: nat, k: nat)
    requires
        is_dist(m, s, t, j),
        is_dist(m, s, t, k),
    ensures
        j == k,
{
    if j < k {
        lemma_within_mono(m, s, t, j, (k - 1) as nat);
    } else if k < j {
        lemma_within_mono(m, s, t, k, (j - 1) as nat);
    }
}

/// Shortest path lengths are a fixed point: computing them again over a matrix that already
/// holds the shortest path lengths of `m0` changes nothing.
pub proof fn law_apsp_idempotent(m0: Seq<Seq<usize>>, m1: Seq<Seq<usize>>, m2: Seq<Seq<usize>>)
    requires
        rows_wf(m0),
        is_apsp_of(m1, m0),
        is_apsp_of(m2, m1),
    ensures
        m2 == m1,
{
    lemma_apsp_same_edges(m0, m1);
    let n = m1.len();
    assert forall|s: int, t: int| 0 <= s < n && 0 <= t < n && s != t implies #[trigger] entry(m2, s, t) == entry(m1, s, t) by {
        if reachable(m1, s, t) {
            let k = choose|k: nat| #[trigger] within(m1, s, t, k);
            lemma_within_same_edges(m1, m0, s, t, k);
            assert(reachable(m0, s, t));
            let d = entry(m1, s, t) as nat;
            let e = entry(m2, s, t) as nat;
            assert(is_dist(m0, s, t, d));
            lemma_within_same_edges(m1, m0, s, t, d);
            if d > 0 {
                lemma_within_same_edges(m1, m0, s, t, (d - 1) as nat);
            }
            assert(is_dist(m1, s, t, d));
            assert(is_dist(m1, s, t, e));
            lemma_is_dist_unique(m1, s, t, d, e);
        } else {
            lemma_same_edges_dist(m1, m0, s, t, 0);
        }
    }
    assert forall|x: int| 0 <= x < n implies #[trigger] m2[x] =~= m1[x] by {
        assert(m1[x].len() == x + 1 && m2[x].len() == x + 1);
        assert forall|y: int| 0 <= y < m1[x].len() implies m2[x][y] == m1[x][y] by {
            if y != x {
                assert(entry(m2, x, y) == entry(m1, x, y));
            }
        }
    }
    assert(m2 =~= m1);
}

/// Shortest path lengths keep exactly the edges: entry one is one step, and one step is entry one.
proof fn lemma_apsp_same_edges(m0: Seq<Seq<usize>>, m1: Seq<Seq<usize>>)
    requires
        rows_wf(m0),
        is_apsp_of(m1, m0),
    ensures
        same_edges(m1, m0),
{
    assert forall|i: int, j: int| 0 <= i < m1.len() && 0 <= j < m1.len() implies (#[trigger] entry(m1, i, j) == 1) == (entry(m0, i, j) == 1) by {
        if i == j {
            assert(m1[i].len() == i + 1 && m0[i].len() == i + 1);
        } else {
            if reachable(m0, i, j) {
                let d = entry(m1, i, j) as nat;
                assert(is_dist(m0, i, j, d));
                if entry(m0, i, j) == 1 {
                    assert(adjacent(m0, i, j));
                    assert(within(m0, i, i, 0));
                    assert(within(m0, i, j, 1));
                    assert(is_dist(m0, i, j, 1));
                    lemma_is_dist_unique(m0, i, j, d, 1);
                }
                if d == 1 {
                    assert(within(m0, i, j, 1));
                    assert(!within(m0, i, j, 0));
                    let u = choose|u: int| within(m0, i, u, 0) && #[trigger] adjacent(m0, u, j);
                    assert(u == i);
                }
            } else {
                if entry(m0, i, j) == 1 {
                    assert(adjacent(m0, i, j));
                    assert(within(m0, i, i, 0));
                    assert(within(m0, i, j, 1));
                }
            }
        }
    }
}

/// Once a round of walking adds nothing, longer walks add nothing either.
#[verifier::spinoff_prover]
proof fn lemma_within_fixpoint(m: Seq<Seq<usize>>, s: int, level: nat, k: nat)
    requires
        0 <= s < m.len(),
        forall|t: int| 0 <= t < m.len() && #[trigger] within(m, s, t, level + 1) ==> within(m, s, t, level),
        level <= k,
    ensures
        forall|t: int| 0 <= t < m.len() && #[trigger] within(m, s, t, k) ==> within(m, s, t, level),
    decreases k - level,
{
    if level < k {
        lemma_within_fixpoint(m, s, level, (k - 1) as nat);
        assert forall|t: int| 0 <= t < m.len() && #[trigger] within(m, s, t, k) implies within(m, s, t, level) by {
            if !within(m, s, t, (k - 1) as nat) {
                let u = choose|u: int| within(m, s, u, (k - 1) as nat) && #[trigger] adjacent(m, u, t);
                assert(within(m, s, u, level));
                assert(within(m, s, t, level + 1));
            }
        }
    }
}

/// Same edges means the same listed edges.
pub proof fn lemma_same_edges_pairs(a: Seq<Seq<usize>>, b: Seq<Seq<usize>>)
    requires
        same_edges(a, b),
    ensures
        pairs(a, PairFilter::Edges) == pairs(b, PairFilter::Edges),
{
    lemma_same_edges_pairs_upto(a, b, a.len());
}

proof fn lemma_same_edges_pairs_upto(a: Seq<Seq<usize>>, b: Seq<Seq<usize>>, k: nat)
    requires
        same_edges(a, b),
        k <= a.len(),
    ensures
        pairs_upto(a, PairFilter::Edges, k) == pairs_upto(b, PairFilter::Edges, k),
    decreases k,
{
    if k > 0 {
        lemma_same_edges_pairs_upto(a, b, (k - 1) as nat);
        lemma_same_edges_row(a, b, k - 1, (k - 1) as nat);
    }
}

proof fn lemma_same_edges_row(a: Seq<Seq<usize>>, b: Seq<Seq<usize>>, x: int, j: nat)
    requires
        same_edges(a, b),
        0 <= x < a.len(),
        j <= x,
    ensures
        row_pairs(a, PairFilter::Edges, x, j) == row_pairs(b, PairFilter::Edges, x, j),
    decreases j,
{
    if j > 0 {
        lemma_same_edges_row(a, b, x, (j - 1) as nat);
        assert((entry(a, x, j - 1) == 1) == (entry(b, x, j - 1) == 1));
    }
}

/// Matrices with the same edges have the same reachability and the same path lengths.
proof fn lemma_same_edges_dist(a: Seq<Seq<usize>>, b: Seq<Seq<usize>>, s: int, t: int, k: nat)
    requires
        same_edges(a, b),
    ensures
        reachable(a, s, t) == reachable(b, s, t),
        is_dist(a, s, t, k) == is_dist(b, s, t, k),
{
    lemma_within_same_edges(a, b, s, t, k);
    if k > 0 {
        lemma_within_same_edges(a, b, s, t, (k - 1) as nat);
    }
    if reachable(a, s, t) {
        let j = choose|j: nat| #[trigger] within(a, s, t, j);
        lemma_within_same_edges(a, b, s, t, j);
    }
    if reachable(b, s, t) {
        let j = choose|j: nat| #[trigger] within(b, s, t, j);
        lemma_within_same_edges(a, b, s, t, j);
    }
}

/// Same edges means same walks.
#[verifier::spinoff_prover]
proof fn lemma_within_same_edges(a: Seq<Seq<usize>>, b: Seq<Seq<usize>>, s: int, t: int, k: nat)
    requires
        same_edges(a, b),
    ensures
        within(a, s, t, k) == within(b, s, t, k),
    decreases k,
{
    if k > 0 {
        lemma_within_same_edges(a, b, s, t, (k - 1) as nat);
        if within(a, s, t, k) && !within(a, s, t, (k - 1) as nat) {
            let u = choose|u: int| within(a, s, u, (k - 1) as nat) && #[trigger] adjacent(a, u, t);
            lemma_within_same_edges(a, b, s, u, (k - 1) as nat);
            assert(within(b, s, u, (k - 1) as nat) && adjacent(b, u, t));
        }
        if within(b, s, t, k) && !within(b, s, t, (k - 1) as nat) {
            let u = choose|u: int| within(b, s, u, (k - 1) as nat) && #[trigger] adjacent(b, u, t);
            lemma_within_same_edges(a, b, s, u, (k - 1) as nat);
            assert(within(a, s, u, (k - 1) as nat) && adjacent(a, u, t));
        }
    }
}


/// Entries after `set_entry`.
#[verifier::spinoff_prover]
pub proof fn lemma_set_entry(m: Seq<Seq<usize>>, a: int, b: int, value: usize)
    requires
        rows_wf(m),
        0 <= a < m.len(),
        0 <= b < m.len(),
    ensures
        set_entry(m, a, b, value).len() == m.len(),
        forall|i: int, j: int|
            0 <= i < m.len() && 0 <= j < m.len() ==> #[trigger] entry(set_entry(m, a, b, value), i, j) == if (i == a
                && j == b) || (i == b && j == a) {
                value
            } else {
                entry(m, i, j)
            },
{
    let x = if a >= b { a } else { b };
    assert(m[x].len() == x + 1);
    assert forall|i: int, j: int| 0 <= i < m.len() && 0 <= j < m.len() implies #[trigger] entry(set_entry(m, a, b, value), i, j) == if (i == a
        && j == b) || (i == b && j == a) {
        value
    } else {
        entry(m, i, j)
    } by {
        assert(m[i].len() == i + 1);
        assert(m[j].len() == j + 1);
    }
}


/// Entries after `connect_rows`.
pub proof fn lemma_connect_rows(m: Seq<Seq<usize>>, a: int, b: int)
    requires
        rows_wf(m),
        0 <= a < m.len(),
        0 <= b < m.len(),
    ensures
        connect_rows(m, a, b).len() == m.len(),
        forall|i: int, j: int|
            0 <= i < m.len() && 0 <= j < m.len() ==> #[trigger] entry(connect_rows(m, a, b), i, j) == if ((i == a
                && j == b) || (i == b && j == a)) && entry(m, a, b) != 0 {
                1
            } else {
                entry(m, i, j)
            },
{
    lemma_set_entry(m, a, b, 1);
}

/// Entries after `disconnect_rows`.
pub proof fn lemma_disconnect_rows(m: Seq<Seq<usize>>, a: int, b: int)
    requires
        rows_wf(m),
        0 <= a < m.len(),
        0 <= b < m.len(),
    ensures
        disconnect_rows(m, a, b).len() == m.len(),
        forall|i: int, j: int|
            0 <= i < m.len() && 0 <= j < m.len() ==> #[trigger] entry(disconnect_rows(m, a, b), i, j) == if ((i == a
                && j == b) || (i == b && j == a)) && entry(m, a, b) == 1 {
                DISCONNECTED
            } else {
                entry(m, i, j)
            },
{
    lemma_set_entry(m, a, b, DISCONNECTED);
}

impl Distance {
    /// Breadth-first search from `s`, writing the level of each reached vertex into row `s`.
    #[verifier::spinoff_prover]
    fn bfs_from(&mut self, s: VertexId, Ghost(g): Ghost<Seq<Seq<usize>>>)
        requires
            old(self).wf(),
            s < old(self)@.len(),
            same_edges(old(self)@, g),
        ensures
            final(self).wf(),
            same_edges(final(self)@, g),
            final(self).tags() == old(self).tags(),
            final(self).tag_counter() == old(self).tag_counter(),
            forall|t: int| 0 <= t < g.len() && t != s ==> {
                &&& reachable(g, s as int, t) ==> is_dist(g, s as int, t, #[trigger] entry(final(self)@, s as int, t) as nat)
                &&& !reachable(g, s as int, t) ==> entry(final(self)@, s as int, t) == entry(old(self)@, s as int, t)
            },
            forall|i: int, j: int| 0 <= i < g.len() && 0 <= j < g.len() && i != s && j != s ==>
                #[trigger] entry(final(self)@, i, j) == entry(old(self)@, i, j),
    {
        let ghost start = self@;
        let n = self.order();
        let mut visited: Vec<bool> = Vec::new();
        let mut k: usize = 0;
        while k < n
            invariant
                k <= n,
                visited@.len() == k,
                forall|t: int| 0 <= t < k ==> visited@[t] == (t == s),
            decreases n - k,
        {
            visited.push(k == s);
            k += 1;
        }
        let mut frontier: Vec<VertexId> = Vec::new();
        frontier.push(s);
        let mut level: usize = 0;
        let ghost mut vis: Set<int> = set![s as int];
        proof {
            lemma_int_range(0, n as int);
            assert(vis =~= Set::new(|t: int| 0 <= t < n && within(g, s as int, t, 0)));
            assert(vis.contains(s as int));
            assert(vis.len() == 1);
            assert forall|t: int| 0 <= t < n && is_dist(g, s as int, t, 0) implies frontier@.contains(t as usize) by {
                assert(frontier@[0] == s);
            }
        }
        while frontier.len() > 0
            invariant
                self.wf(),
                n == self@.len(),
                n == g.len(),
                s < n,
                same_edges(self@, g),
                self.tags() == old(self).tags(),
                self.tag_counter() == old(self).tag_counter(),
                start == old(self)@,
                visited@.len() == n,
                forall|t: int| 0 <= t < n ==> (#[trigger] visited@[t] <==> within(g, s as int, t, level as nat)),
                forall|i: int| 0 <= i < frontier@.len() ==> (#[trigger] frontier@[i]) < n && is_dist(g, s as int, frontier@[i] as int, level as nat),
                forall|t: int| 0 <= t < n && #[trigger] is_dist(g, s as int, t, level as nat) ==> frontier@.contains(t as usize),
                forall|t: int| 0 <= t < n && t != s && visited@[t] ==> is_dist(g, s as int, t, #[trigger] entry(self@, s as int, t) as nat),
                forall|t: int| 0 <= t < n && t != s && !visited@[t] ==> #[trigger] entry(self@, s as int, t) == entry(start, s as int, t),
                forall|i: int, j: int| 0 <= i < n && 0 <= j < n && i != s && j != s ==> #[trigger] entry(self@, i, j) == entry(start, i, j),
                vis == Set::new(|t: int| 0 <= t < n && within(g, s as int, t, level as nat)),
                vis.finite(),
                vis.len() <= n,
                frontier@.len() > 0 ==> level + 1 <= vis.len(),
                level <= vis.len(),
                level > 0 || frontier@.len() > 0,
            decreases 2 * (n - vis.len()) + if frontier@.len() > 0 { 1int } else { 0int },
        {
            let mut next: Vec<VertexId> = Vec::new();
            let mut i: usize = 0;
            while i < frontier.len()
                invariant
                    self.wf(),
                    n == self@.len(),
                    n == g.len(),
                    s < n,
                    same_edges(self@, g),
                    self.tags() == old(self).tags(),
                    self.tag_counter() == old(self).tag_counter(),
                    start == old(self)@,
                    visited@.len() == n,
                    i <= frontier@.len(),
                    level + 1 <= vis.len(),
                    vis.len() <= n,
                    forall|k: int| 0 <= k < frontier@.len() ==> (#[trigger] frontier@[k]) < n && is_dist(g, s as int, frontier@[k] as int, level as nat),
                    forall|t: int| 0 <= t < n ==> (#[trigger] visited@[t] <==> (within(g, s as int, t, level as nat)
                        || exists|k: int| 0 <= k < i && adjacent(g, #[trigger] frontier@[k] as int, t))),
                    forall|k: int| 0 <= k < next@.len() ==> (#[trigger] next@[k]) < n && is_dist(g, s as int, next@[k] as int, (level + 1) as nat),
                    forall|t: int| 0 <= t < n && visited@[t] && !within(g, s as int, t, level as nat) ==> #[trigger] next@.contains(t as usize),
                    forall|t: int| 0 <= t < n && t != s && visited@[t] ==> is_dist(g, s as int, t, #[trigger] entry(self@, s as int, t) as nat),
                    forall|t: int| 0 <= t < n && t != s && !visited@[t] ==> #[trigger] entry(self@, s as int, t) == entry(start, s as int, t),
                    forall|i: int, j: int| 0 <= i < n && 0 <= j < n && i != s && j != s ==> #[trigger] entry(self@, i, j) == entry(start, i, j),
                decreases frontier@.len() - i,
            {
                let u = frontier[i];
                let nb = self.neighbors(u);
                proof {
                    lemma_neighbors_upto(self@, u as int, n as nat);
                }
                let mut j: usize = 0;
                while j < nb.len()
                    invariant
                        self.wf(),
                        n == self@.len(),
                        n == g.len(),
                        s < n,
                        u < n,
                        u == frontier@[i as int],
                        i < frontier@.len(),
                        is_dist(g, s as int, u as int, level as nat),
                        same_edges(self@, g),
                        self.tags() == old(self).tags(),
                        self.tag_counter() == old(self).tag_counter(),
                        start == old(self)@,
                        visited@.len() == n,
                        j <= nb@.len(),
                        level + 1 <= vis.len(),
                        vis.len() <= n,
                        forall|k: int| 0 <= k < nb@.len() ==> (#[trigger] nb@[k]) < n && adjacent(g, u as int, nb@[k] as int),
                        forall|t: int| 0 <= t < n ==> (#[trigger] visited@[t] <==> (within(g, s as int, t, level as nat)
                            || (exists|k: int| 0 <= k < i && adjacent(g, #[trigger] frontier@[k] as int, t))
                            || (exists|k: int| 0 <= k < j && #[trigger] nb@[k] == t))),
                        forall|k: int| 0 <= k < next@.len() ==> (#[trigger] next@[k]) < n && is_dist(g, s as int, next@[k] as int, (level + 1) as nat),
                        forall|t: int| 0 <= t < n && visited@[t] && !within(g, s as int, t, level as nat) ==> #[trigger] next@.contains(t as usize),
                        forall|t: int| 0 <= t < n && t != s && visited@[t] ==> is_dist(g, s as int, t, #[trigger] entry(self@, s as int, t) as nat),
                        forall|t: int| 0 <= t < n && t != s && !visited@[t] ==> #[trigger] entry(self@, s as int, t) == entry(start, s as int, t),
                        forall|i: int, j: int| 0 <= i < n && 0 <= j < n && i != s && j != s ==> #[trigger] entry(self@, i, j) == entry(start, i, j),
                    decreases nb@.len() - j,
                {
                    let w = nb[j];
                    if !visited[w] {
                        proof {
                            assert(!within(g, s as int, w as int, level as nat));
                            assert(within(g, s as int, u as int, level as nat));
                            assert(within(g, s as int, w as int, (level + 1) as nat));
                            assert(w != s) by {
                                assert(within(g, s as int, s as int, 0));
                                if level > 0 {
                                    lemma_within_mono(g, s as int, s as int, 0, level as nat);
                                }
                            }
                            if level > 0 {
                                if adjacent(g, s as int, w as int) {
                                    assert(within(g, s as int, s as int, 0));
                                    assert(within(g, s as int, w as int, 1));
                                    lemma_within_mono(g, s as int, w as int, 1, level as nat);
                                }
                            } else {
                                assert(u == s);
                            }
                        }
                        let ghost before = self@;
                        let ghost vbefore = visited@;
                        let ghost nbefore = next@;
                        visited.set(w, true);
                        self.set([s, w], level + 1);
                        next.push(w);
                        proof {
                            lemma_set_entry(before, s as int, w as int, (level + 1) as usize);
                            assert forall|t: int| 0 <= t < n && visited@[t] && !within(g, s as int, t, level as nat) implies #[trigger] next@.contains(t as usize) by {
                                if t == w {
                                    assert(next@[next@.len() - 1] == w);
                                } else {
                                    assert(vbefore[t]);
                                    assert(nbefore.contains(t as usize));
                                    let k = choose|k: int| 0 <= k < nbefore.len() && nbefore[k] == t as usize;
                                    assert(next@[k] == t as usize);
                                }
                            }
                            assert forall|a: int, b: int| 0 <= a < n && 0 <= b < n implies (#[trigger] entry(self@, a, b) == 1) == (entry(g, a, b) == 1) by {
                                if (a == s && b == w) || (a == w && b == s) {
                                } else {
                                    assert(entry(self@, a, b) == entry(before, a, b));
                                }
                            }
                        }
                    }
                    proof {
                        assert forall|t: int| 0 <= t < n implies (#[trigger] visited@[t] <==> (within(g, s as int, t, level as nat)
                            || (exists|k: int| 0 <= k < i && adjacent(g, #[trigger] frontier@[k] as int, t))
                            || (exists|k: int| 0 <= k < j + 1 && #[trigger] nb@[k] == t))) by {
                            if t == w {
                                assert(nb@[j as int] == t);
                            }
                        }
                    }
                    j += 1;
                }
                proof {
                    assert forall|t: int| 0 <= t < n implies (#[trigger] visited@[t] <==> (within(g, s as int, t, level as nat)
                        || exists|k: int| 0 <= k < i + 1 && adjacent(g, #[trigger] frontier@[k] as int, t))) by {
                        if adjacent(g, u as int, t) {
                            assert(adjacent(self@, u as int, t));
                            assert(nb@.contains(t as usize));
                            let k = choose|k: int| 0 <= k < nb@.len() && nb@[k] == t as usize;
                            assert(nb@[k] == t);
                        }
                        if exists|k: int| 0 <= k < j && #[trigger] nb@[k] == t {
                            let k = choose|k: int| 0 <= k < j && #[trigger] nb@[k] == t;
                            assert(adjacent(g, frontier@[i as int] as int, t));
                        }
                        if exists|k: int| 0 <= k < i + 1 && adjacent(g, #[trigger] frontier@[k] as int, t) {
                            let k = choose|k: int| 0 <= k < i + 1 && adjacent(g, #[trigger] frontier@[k] as int, t);
                            if k == i {
                                assert(nb@.contains(t as usize));
                                let kk = choose|kk: int| 0 <= kk < nb@.len() && nb@[kk] == t as usize;
                                assert(nb@[kk] == t);
                            }
                        }
                    }
                }
                i += 1;
            }
            let ghost old_vis = vis;
            proof {
                let ln = level as nat;
                assert forall|t: int| 0 <= t < n implies (#[trigger] visited@[t] <==> within(g, s as int, t, ln + 1)) by {
                    if visited@[t] {
                        if !within(g, s as int, t, ln) {
                            let k = choose|k: int| 0 <= k < frontier@.len() && adjacent(g, #[trigger] frontier@[k] as int, t);
                            assert(within(g, s as int, frontier@[k] as int, ln));
                        }
                    }
                    if within(g, s as int, t, ln + 1) && !within(g, s as int, t, ln) {
                        let u = choose|u: int| within(g, s as int, u, ln) && #[trigger] adjacent(g, u, t);
                        if level > 0 && within(g, s as int, u, (ln - 1) as nat) {
                            assert(within(g, s as int, t, ln));
                        } else {
                            assert(is_dist(g, s as int, u, ln));
                            assert(frontier@.contains(u as usize));
                            let k = choose|k: int| 0 <= k < frontier@.len() && frontier@[k] == u as usize;
                            assert(adjacent(g, frontier@[k] as int, t));
                        }
                    }
                }
                vis = Set::new(|t: int| 0 <= t < n && within(g, s as int, t, ln + 1));
                lemma_int_range(0, n as int);
                assert(vis.subset_of(set_int_range(0, n as int)));
                lemma_len_subset(vis, set_int_range(0, n as int));
                assert(old_vis.subset_of(vis)) by {
                    assert forall|t: int| old_vis.contains(t) implies vis.contains(t) by {
                        lemma_within_mono(g, s as int, t, ln, ln + 1);
                    }
                }
                if next@.len() > 0 {
                    let w = next@[0] as int;
                    assert(!old_vis.contains(w));
                    assert(vis.contains(w));
                    assert(old_vis.insert(w).subset_of(vis));
                    lemma_len_subset(old_vis.insert(w), vis);
                } else {
                    lemma_len_subset(old_vis, vis);
                }
                assert forall|t: int| 0 <= t < n && #[trigger] is_dist(g, s as int, t, ln + 1) implies next@.contains(t as usize) by {
                    assert(visited@[t]);
                }
            }
            frontier = next;
            level = level + 1;
        }
        proof {
            let ln = level as nat;
            assert(level > 0);
            assert forall|t: int| 0 <= t < n && #[trigger] within(g, s as int, t, ln) implies within(g, s as int, t, (ln - 1) as nat) by {
                if !within(g, s as int, t, (ln - 1) as nat) {
                    assert(is_dist(g, s as int, t, ln));
                    assert(frontier@.contains(t as usize));
                }
            }
            lemma_within_fixpoint(g, s as int, (ln - 1) as nat, ln);
            assert forall|t: int| 0 <= t < n && t != s implies {
                &&& reachable(g, s as int, t) ==> is_dist(g, s as int, t, #[trigger] entry(self@, s as int, t) as nat)
                &&& !reachable(g, s as int, t) ==> entry(self@, s as int, t) == entry(old(self)@, s as int, t)
            } by {
                if reachable(g, s as int, t) {
                    let k = choose|k: nat| #[trigger] within(g, s as int, t, k);
                    if k <= ln - 1 {
                        lemma_within_mono(g, s as int, t, k, (ln - 1) as nat);
                    } else {
                        lemma_within_fixpoint(g, s as int, (ln - 1) as nat, k);
                    }
                    lemma_within_mono(g, s as int, t, (ln - 1) as nat, ln);
                    assert(visited@[t]);
                } else {
                    assert(!within(g, s as int, t, ln));
                }
            }
        }
    }

    /// Use a simple breadth-first search to compute the shortest paths for all pairs.
    #[verifier::spinoff_prover]
    pub fn bfs_apsp(&mut self)
        requires
            old(self).wf(),
        ensures
            final(self).wf(),
            is_apsp_of(final(self)@, old(self)@),
            same_edges(final(self)@, old(self)@),
            final(self).tags() == old(self).tags(),
            final(self).tag_counter() == old(self).tag_counter(),
    {
        let ghost g0 = self@;
        let n = self.order();
        // Every pair that is not an edge starts out disconnected.
        let mut x: usize = 0;
        while x < n
            invariant
                self.wf(),
                n == self@.len(),
                x <= n,
                same_edges(self@, g0),
                self.tags() == old(self).tags(),
                self.tag_counter() == old(self).tag_counter(),
                forall|i: int, j: int| 0 <= i < n && 0 <= j < n && i != j && i < x && j < x && #[trigger] entry(self@, i, j) != 1
                    ==> entry(self@, i, j) == DISCONNECTED,
            decreases n - x,
        {
            let mut y: usize = 0;
            while y < x
                invariant
                    self.wf(),
                    n == self@.len(),
                    x < n,
                    y <= x,
                    same_edges(self@, g0),
                    self.tags() == old(self).tags(),
                    self.tag_counter() == old(self).tag_counter(),
                    forall|i: int, j: int| 0 <= i < n && 0 <= j < n && i != j && ((i < x && j < x) || (i == x && j < y) || (j == x && i < y))
                        && #[trigger] entry(self@, i, j) != 1 ==> entry(self@, i, j) == DISCONNECTED,
                decreases x - y,
            {
                if self.get([x, y]) != 1 {
                    let ghost before = self@;
                    proof {
                        lemma_set_entry(before, x as int, y as int, DISCONNECTED);
                    }
                    self.set([x, y], DISCONNECTED);
                    proof {
                        assert forall|a: int, b: int| 0 <= a < n && 0 <= b < n implies (#[trigger] entry(self@, a, b) == 1) == (entry(g0, a, b) == 1) by {
                            assert(entry(self@, a, b) == if (a == x && b == y) || (a == y && b == x) { DISCONNECTED } else { entry(before, a, b) });
                            assert((entry(before, a, b) == 1) == (entry(g0, a, b) == 1));
                        }
                        assert forall|i: int, j: int| 0 <= i < n && 0 <= j < n && i != j && ((i < x && j < x) || (i == x && j < y + 1) || (j == x && i < y + 1))
                            && #[trigger] entry(self@, i, j) != 1 implies entry(self@, i, j) == DISCONNECTED by {
                            assert(entry(self@, i, j) == if (i == x && j == y) || (i == y && j == x) { DISCONNECTED } else { entry(before, i, j) });
                        }
                    }
                }
                y += 1;
            }
            x += 1;
        }
        let ghost g = self@;
        proof {
            assert forall|i: int, j: int| 0 <= i < n && 0 <= j < n && i != j && !adjacent(g, i, j) implies #[trigger] entry(g, i, j) == DISCONNECTED by {}
        }
        let mut s: usize = 0;
        while s < n
            invariant
                self.wf(),
                n == self@.len(),
                n == g.len(),
                s <= n,
                same_edges(self@, g),
                same_edges(g, g0),
                self.tags() == old(self).tags(),
                self.tag_counter() == old(self).tag_counter(),
                g0 == old(self)@,
                forall|i: int, j: int| 0 <= i < n && 0 <= j < n && i != j && !adjacent(g, i, j) ==> #[trigger] entry(g, i, j) == DISCONNECTED,
                forall|i: int, j: int| 0 <= i < n && 0 <= j < n && i != j && (i < s || j < s) ==> {
                    &&& reachable(g, i, j) ==> is_dist(g, i, j, #[trigger] entry(self@, i, j) as nat)
                    &&& !reachable(g, i, j) ==> entry(self@, i, j) == entry(g, i, j)
                },
                forall|i: int, j: int| 0 <= i < n && 0 <= j < n && i >= s && j >= s ==> #[trigger] entry(self@, i, j) == entry(g, i, j),
            decreases n - s,
        {
            let ghost before = self@;
            self.bfs_from(s, Ghost(g));
            proof {
                assert forall|i: int, j: int| 0 <= i < n && 0 <= j < n && i != j && (i < s + 1 || j < s + 1) implies {
                    &&& reachable(g, i, j) ==> is_dist(g, i, j, #[trigger] entry(self@, i, j) as nat)
                    &&& !reachable(g, i, j) ==> entry(self@, i, j) == entry(g, i, j)
                } by {
                    if i == s {
                        assert(entry(self@, s as int, j) == entry(self@, i, j));
                        if !reachable(g, i, j) {
                            if j < s {
                                lemma_is_dist_sym(g, i, j, 0);
                                assert(entry(before, j, i) == entry(g, j, i));
                            }
                        }
                    } else if j == s {
                        let d = entry(self@, s as int, i) as nat;
                        lemma_is_dist_sym(g, i, j, d);
                        assert(entry(self@, i, j) == entry(self@, j, i));
                        if !reachable(g, i, j) {
                            if i < s {
                                assert(entry(before, i, j) == entry(g, i, j));
                            }
                        }
                    } else {
                        assert(entry(self@, i, j) == entry(before, i, j));
                    }
                }
                assert forall|i: int, j: int| 0 <= i < n && 0 <= j < n && i >= s + 1 && j >= s + 1 implies #[trigger] entry(self@, i, j) == entry(g, i, j) by {
                    assert(entry(self@, i, j) == entry(before, i, j));
                }
            }
            s += 1;
        }
        proof {
            assert forall|a: int, b: int| 0 <= a < n && 0 <= b < n implies (#[trigger] entry(self@, a, b) == 1) == (entry(g0, a, b) == 1) by {
                assert((entry(self@, a, b) == 1) == (entry(g, a, b) == 1));
                assert((entry(g, a, b) == 1) == (entry(g0, a, b) == 1));
            }
            assert forall|i: int, j: int| 0 <= i < n && 0 <= j < n && i != j implies {
                &&& reachable(g0, i, j) ==> is_dist(g0, i, j, #[trigger] entry(self@, i, j) as nat)
                &&& !reachable(g0, i, j) ==> entry(self@, i, j) == DISCONNECTED
            } by {
                lemma_same_edges_dist(g, g0, i, j, entry(self@, i, j) as nat);
                if !reachable(g0, i, j) {
                    if adjacent(g, i, j) {
                        assert(within(g, i, i, 0));
                        assert(within(g, i, j, 1));
                    }
                }
            }
        }
    }
}

} // verus!
