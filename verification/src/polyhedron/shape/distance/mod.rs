pub mod assemble;
pub mod conway;
pub mod dfs;
pub mod equality;
pub mod overlay;
pub mod paths;
pub mod reach;
pub mod tags;

use vstd::prelude::*;
use crate::polyhedron::VertexId;
use tags::TagSet;

verus! {

/// Value held by a pair of vertices that are not connected.
pub const DISCONNECTED: usize = usize::MAX;

/// Entry `(i, j)` of a jagged lower-triangular matrix, read symmetrically.
pub open spec fn entry(m: Seq<Seq<usize>>, i: int, j: int) -> usize {
    if i >= j {
        m[i][j]
    } else {
        m[j][i]
    }
}

/// Row `x` holds `x + 1` entries and the diagonal is zero.
pub open spec fn rows_wf(m: Seq<Seq<usize>>) -> bool {
    forall|x: int| 0 <= x < m.len() ==> #[trigger] m[x].len() == x + 1 && m[x][x] == 0
}

/// Two vertices are adjacent when their entry is one.
pub open spec fn adjacent(m: Seq<Seq<usize>>, i: int, j: int) -> bool {
    0 <= i < m.len() && 0 <= j < m.len() && entry(m, i, j) == 1
}

/// The matrix with the entry of the pair `{a, b}` replaced.
pub open spec fn set_entry(m: Seq<Seq<usize>>, a: int, b: int, value: usize) -> Seq<Seq<usize>> {
    let x = if a >= b { a } else { b };
    let y = if a >= b { b } else { a };
    m.update(x, m[x].update(y, value))
}

/// The matrix of `n` vertices with no edges.
pub open spec fn empty_rows(n: nat) -> Seq<Seq<usize>> {
    Seq::new(n, |x: int| Seq::new((x + 1) as nat, |y: int| if y == x { 0usize } else { DISCONNECTED }))
}


/// The pair `[v, u]` as an array.
pub open spec fn pair(v: int, u: int) -> [usize; 2] {
    [v as usize, u as usize]
}


/// `connect`: the pair becomes adjacent unless it is a vertex with itself.
pub open spec fn connect_rows(m: Seq<Seq<usize>>, v: int, u: int) -> Seq<Seq<usize>> {
    if entry(m, v, u) != 0 {
        set_entry(m, v, u, 1)
    } else {
        m
    }
}

/// `disconnect`: an adjacent pair becomes `DISCONNECTED`.
pub open spec fn disconnect_rows(m: Seq<Seq<usize>>, v: int, u: int) -> Seq<Seq<usize>> {
    if entry(m, v, u) == 1 {
        set_entry(m, v, u, DISCONNECTED)
    } else {
        m
    }
}

/// The matrix with one more, isolated, vertex.
pub open spec fn grow_rows(m: Seq<Seq<usize>>) -> Seq<Seq<usize>> {
    m.push(Seq::new(m.len(), |y: int| DISCONNECTED).push(0usize))
}

/// Index of the old vertex that ends up at `x` once `v` is removed.
pub open spec fn skip(x: int, v: int) -> int {
    if x < v {
        x
    } else {
        x + 1
    }
}

/// The matrix with vertex `v` removed and higher indices shifted down.
pub open spec fn delete_rows(m: Seq<Seq<usize>>, v: int) -> Seq<Seq<usize>> {
    Seq::new(
        (m.len() - 1) as nat,
        |x: int| Seq::new((x + 1) as nat, |y: int| m[skip(x, v)][skip(y, v)]),
    )
}

/// Union of the tag sets of `parents`.
pub open spec fn parent_tags(tags: Seq<Set<u64>>, parents: Seq<usize>) -> Set<u64>
    decreases parents.len(),
{
    if parents.len() == 0 {
        Set::empty()
    } else {
        parent_tags(tags, parents.drop_last()).union(tags[parents.last() as int])
    }
}

/// The vertices `u < k` adjacent to `v`, ascending.
pub open spec fn neighbors_upto(m: Seq<Seq<usize>>, v: int, k: nat) -> Seq<usize>
    decreases k,
{
    if k == 0 {
        Seq::empty()
    } else {
        let s = neighbors_upto(m, v, (k - 1) as nat);
        if entry(m, v, k - 1) == 1 {
            s.push((k - 1) as usize)
        } else {
            s
        }
    }
}


/// Membership and order of `neighbors_upto`.
pub proof fn lemma_neighbors_upto(m: Seq<Seq<usize>>, v: int, k: nat)
    requires
        k <= usize::MAX,
    ensures
        forall|i: int| 0 <= i < neighbors_upto(m, v, k).len() ==> {
            &&& (#[trigger] neighbors_upto(m, v, k)[i]) < k
            &&& entry(m, v, neighbors_upto(m, v, k)[i] as int) == 1
        },
        forall|i: int, j: int| 0 <= i < j < neighbors_upto(m, v, k).len() ==>
            (#[trigger] neighbors_upto(m, v, k)[i]) < (#[trigger] neighbors_upto(m, v, k)[j]),
        forall|u: int| 0 <= u < k && entry(m, v, u) == 1 ==> #[trigger] neighbors_upto(m, v, k).contains(u as usize),
        neighbors_upto(m, v, k).len() <= k,
    decreases k,
{
    if k > 0 {
        lemma_neighbors_upto(m, v, (k - 1) as nat);
        let s = neighbors_upto(m, v, (k - 1) as nat);
        let t = neighbors_upto(m, v, k);
        assert forall|i: int| 0 <= i < t.len() implies (#[trigger] t[i]) < k && entry(m, v, t[i] as int) == 1 by {
            if i < s.len() {
                assert(t[i] == s[i]);
            }
        }
        assert forall|i: int, j: int| 0 <= i < j < t.len() implies (#[trigger] t[i]) < (#[trigger] t[j]) by {
            if j < s.len() {
                assert(t[i] == s[i] && t[j] == s[j]);
            } else {
                assert(t[i] == s[i]);
                assert(s[i] < k - 1);
            }
        }
        assert forall|u: int| 0 <= u < k && entry(m, v, u) == 1 implies #[trigger] neighbors_upto(m, v, k).contains(u as usize) by {
            if u < k - 1 {
                assert(s.contains(u as usize));
                let i = choose|i: int| 0 <= i < s.len() && s[i] == u as usize;
                assert(neighbors_upto(m, v, k)[i] == u as usize);
            } else {
                assert(neighbors_upto(m, v, k)[s.len() as int] == u as usize);
            }
        }
    }
}

/// Which vertex pairs a pair listing keeps.
pub enum PairFilter {
    /// Every pair.
    All,
    /// Pairs at distance one.
    Edges,
    /// Pairs at distance at most two, or within one of the given diameter.
    Springs(usize),
}

/// Whether a pair with entry `d` is kept.
pub open spec fn keeps(f: PairFilter, d: usize) -> bool {
    match f {
        PairFilter::All => true,
        PairFilter::Edges => d == 1,
        PairFilter::Springs(diameter) => d <= 2 || d >= diameter - 1,
    }
}

/// Kept pairs `[x, y]` with `y < k` of row `x`, ascending in `y`.
pub open spec fn row_pairs(m: Seq<Seq<usize>>, f: PairFilter, x: int, k: nat) -> Seq<[usize; 2]>
    decreases k,
{
    if k == 0 {
        Seq::empty()
    } else {
        let s = row_pairs(m, f, x, (k - 1) as nat);
        if keeps(f, m[x][k - 1]) {
            s.push(pair(x, k - 1))
        } else {
            s
        }
    }
}

/// Kept pairs `[v, u]`, `u < v < k`, ordered by `v` then `u`.
pub open spec fn pairs_upto(m: Seq<Seq<usize>>, f: PairFilter, k: nat) -> Seq<[usize; 2]>
    decreases k,
{
    if k == 0 {
        Seq::empty()
    } else {
        pairs_upto(m, f, (k - 1) as nat) + row_pairs(m, f, k - 1, (k - 1) as nat)
    }
}

/// All kept pairs of the matrix.
pub open spec fn pairs(m: Seq<Seq<usize>>, f: PairFilter) -> Seq<[usize; 2]> {
    pairs_upto(m, f, m.len())
}


/// Every listed pair `[v, u]` has `u < v < k` and is kept by the filter.
pub proof fn lemma_pairs_upto(m: Seq<Seq<usize>>, f: PairFilter, k: nat)
    requires
        k <= usize::MAX,
    ensures
        forall|i: int| 0 <= i < pairs_upto(m, f, k).len() ==> {
            &&& (#[trigger] pairs_upto(m, f, k)[i])[1] < pairs_upto(m, f, k)[i][0]
            &&& pairs_upto(m, f, k)[i][0] < k
            &&& keeps(f, m[pairs_upto(m, f, k)[i][0] as int][pairs_upto(m, f, k)[i][1] as int])
        },
    decreases k,
{
    if k > 0 {
        lemma_pairs_upto(m, f, (k - 1) as nat);
        lemma_row_pairs(m, f, k - 1, (k - 1) as nat);
        let a = pairs_upto(m, f, (k - 1) as nat);
        let b = row_pairs(m, f, k - 1, (k - 1) as nat);
        assert forall|i: int| 0 <= i < pairs_upto(m, f, k).len() implies {
            &&& (#[trigger] pairs_upto(m, f, k)[i])[1] < pairs_upto(m, f, k)[i][0]
            &&& pairs_upto(m, f, k)[i][0] < k
            &&& keeps(f, m[pairs_upto(m, f, k)[i][0] as int][pairs_upto(m, f, k)[i][1] as int])
        } by {
            if i < a.len() {
                assert(pairs_upto(m, f, k)[i] == a[i]);
            } else {
                assert(pairs_upto(m, f, k)[i] == b[i - a.len()]);
            }
        }
    }
}

proof fn lemma_row_pairs(m: Seq<Seq<usize>>, f: PairFilter, x: int, k: nat)
    requires
        0 <= x <= usize::MAX,
        k <= x,
    ensures
        forall|i: int| 0 <= i < row_pairs(m, f, x, k).len() ==> {
            &&& (#[trigger] row_pairs(m, f, x, k)[i])[0] == x
            &&& row_pairs(m, f, x, k)[i][1] < k
            &&& keeps(f, m[x][row_pairs(m, f, x, k)[i][1] as int])
        },
    decreases k,
{
    if k > 0 {
        lemma_row_pairs(m, f, x, (k - 1) as nat);
        let s = row_pairs(m, f, x, (k - 1) as nat);
        let y = k - 1;
        assert(pair(x, y)[0] == x && pair(x, y)[1] == y);
        assert forall|i: int| 0 <= i < row_pairs(m, f, x, k).len() implies {
            &&& (#[trigger] row_pairs(m, f, x, k)[i])[0] == x
            &&& row_pairs(m, f, x, k)[i][1] < k
            &&& keeps(f, m[x][row_pairs(m, f, x, k)[i][1] as int])
        } by {
            if i < s.len() {
                assert(row_pairs(m, f, x, k)[i] == s[i]);
            } else {
                assert(row_pairs(m, f, x, k)[i] == pair(x, y));
            }
        }
    }
}

/// At most `k * k` pairs are listed below `k`.
pub proof fn lemma_pairs_len(m: Seq<Seq<usize>>, f: PairFilter, k: nat)
    ensures
        pairs_upto(m, f, k).len() <= k * k,
    decreases k,
{
    if k > 0 {
        lemma_pairs_len(m, f, (k - 1) as nat);
        lemma_row_pairs_len(m, f, k - 1, (k - 1) as nat);
        let j = (k - 1) as nat;
        assert(j * j + j <= k * k) by (nonlinear_arith)
            requires j + 1 == k;
    }
}

proof fn lemma_row_pairs_len(m: Seq<Seq<usize>>, f: PairFilter, x: int, k: nat)
    ensures
        row_pairs(m, f, x, k).len() <= k,
    decreases k,
{
    if k > 0 {
        lemma_row_pairs_len(m, f, x, (k - 1) as nat);
    }
}

/// Largest entry `(x, y)`, `y < k`, of row `x`; zero when there is none.
pub open spec fn row_max(m: Seq<Seq<usize>>, x: int, k: nat) -> usize
    decreases k,
{
    if k == 0 {
        0
    } else {
        let r = row_max(m, x, (k - 1) as nat);
        if m[x][k - 1] > r {
            m[x][k - 1]
        } else {
            r
        }
    }
}

/// Largest off-diagonal entry among rows `< k`; zero when there is none.
pub open spec fn max_upto(m: Seq<Seq<usize>>, k: nat) -> usize
    decreases k,
{
    if k == 0 {
        0
    } else {
        let r = max_upto(m, (k - 1) as nat);
        let s = row_max(m, k - 1, (k - 1) as nat);
        if s > r {
            s
        } else {
            r
        }
    }
}

/// The diameter: the largest off-diagonal entry, or zero.
pub open spec fn diameter_of(m: Seq<Seq<usize>>) -> usize {
    max_upto(m, m.len())
}

/// Jagged array which represents the symmetric distance matrix of a graph:
/// `DISCONNECTED` for unconnected pairs, 0 on the diagonal, otherwise a distance.
#[derive(Debug)]
pub struct Distance {
    /// The order is the number of vertices
    order: usize,
    /// Row `x` holds the entries `(x, 0) ..= (x, x)`.
    rows: Vec<Vec<usize>>,
    /// Tags each vertex descends from.
    ancestors: Vec<TagSet>,
    /// Next never-yet-used tag.
    next_tag: u64,
}

impl View for Distance {
    type V = Seq<Seq<usize>>;

    closed spec fn view(&self) -> Seq<Seq<usize>> {
        self.rows@.map_values(|r: Vec<usize>| r@)
    }
}

impl Distance {
    /// Ancestor tag sets, one per vertex as long as the ancestry is in step with the matrix.
    pub closed spec fn tags(&self) -> Seq<Set<u64>> {
        self.ancestors@.map_values(|t: TagSet| t@)
    }

    /// The next fresh tag.
    pub closed spec fn tag_counter(&self) -> u64 {
        self.next_tag
    }

    pub closed spec fn order_matches(&self) -> bool {
        self.order == self.rows@.len()
    }

    proof fn lemma_view(&self)
        ensures
            self@.len() == self.rows@.len(),
            forall|x: int| 0 <= x < self.rows@.len() ==> #[trigger] self@[x] == self.rows@[x]@,
            self.tags().len() == self.ancestors@.len(),
            forall|x: int| 0 <= x < self.ancestors@.len() ==> #[trigger] self.tags()[x] == self.ancestors@[x]@,
    {
    }

    /// The order matches the rows, the rows are well formed, and there is one ancestor set per
    /// vertex.
    pub open spec fn wf(&self) -> bool {
        &&& self.order_matches()
        &&& rows_wf(self@)
        &&& self.tags().len() == self@.len()
    }

    /// The tag the next new vertex receives.
    pub fn next_tag(&self) -> (r: u64)
        ensures
            r == self.tag_counter(),
    {
        self.next_tag
    }

    /// Number of vertices.
    pub fn order(&self) -> (r: usize)
        requires
            self.wf(),
        ensures
            r == self@.len(),
    {
        self.order
    }

    /// A graph of `n` vertices with no edges; vertex `v` carries the tag `v`.
    pub fn new(n: usize) -> (d: Self)
        ensures
            d.wf(),
            d@ == empty_rows(n as nat),
            d.tags() == Seq::new(n as nat, |v: int| set![v as u64]),
            d.tag_counter() == n as u64,
    {
        let mut rows: Vec<Vec<usize>> = Vec::new();
        let mut ancestors: Vec<TagSet> = Vec::new();
        let mut m: usize = 0;
        while m < n
            invariant
                m <= n,
                rows@.len() == m,
                ancestors@.len() == m,
                forall|x: int| 0 <= x < m ==> #[trigger] rows@[x]@ == empty_rows(n as nat)[x],
                forall|x: int| 0 <= x < m ==> #[trigger] ancestors@[x]@ == set![x as u64],
            decreases n - m,
        {
            let mut row: Vec<usize> = Vec::new();
            let mut y: usize = 0;
            while y < m
                invariant
                    y <= m,
                    row@ == Seq::new(y as nat, |k: int| DISCONNECTED),
                decreases m - y,
            {
                row.push(DISCONNECTED);
                y += 1;
                assert(row@ =~= Seq::new(y as nat, |k: int| DISCONNECTED));
            }
            row.push(0);
            assert(row@ =~= empty_rows(n as nat)[m as int]);
            rows.push(row);
            ancestors.push(TagSet::singleton(m as u64));
            m += 1;
        }
        let d = Distance { order: n, rows, ancestors, next_tag: n as u64 };
        assert(d@ =~= empty_rows(n as nat));
        assert(d.tags() =~= Seq::new(n as nat, |v: int| set![v as u64]));
        d
    }

    /// Entry of the pair `e`.
    pub fn get(&self, e: [VertexId; 2]) -> (r: usize)
        requires
            self.wf(),
            e[0] < self@.len(),
            e[1] < self@.len(),
        ensures
            r == entry(self@, e[0] as int, e[1] as int),
    {
        let a = e[0];
        let b = e[1];
        proof {
            self.lemma_view();
            assert(self@[a as int].len() == a + 1);
            assert(self@[b as int].len() == b + 1);
        }
        if a >= b {
            self.rows[a][b]
        } else {
            self.rows[b][a]
        }
    }

    /// Overwrites the entry of the pair `e`; the diagonal stays zero.
    pub fn set(&mut self, e: [VertexId; 2], value: usize)
        requires
            old(self).wf(),
            e[0] < old(self)@.len(),
            e[1] < old(self)@.len(),
            e[0] != e[1] || value == 0,
        ensures
            final(self).wf(),
            final(self)@ == set_entry(old(self)@, e[0] as int, e[1] as int, value),
            final(self).tags() == old(self).tags(),
            final(self).tag_counter() == old(self).tag_counter(),
    {
        let a = e[0];
        let b = e[1];
        let x = if a >= b { a } else { b };
        let y = if a >= b { b } else { a };
        proof {
            self.lemma_view();
            assert(self@[x as int].len() == x + 1);
        }
        self.rows[x][y] = value;
        proof { self.lemma_view(); }
        assert(self@ =~= set_entry(old(self)@, a as int, b as int, value));
        assert forall|r: int| 0 <= r < self@.len() implies #[trigger] self@[r].len() == r + 1 && self@[r][r] == 0 by {
            assert(old(self)@[r].len() == r + 1);
        }
    }

    /// Connect one vertex to another with length one, iff they are not the same point.
    pub fn connect(&mut self, e: [VertexId; 2])
        requires
            old(self).wf(),
            e[0] < old(self)@.len(),
            e[1] < old(self)@.len(),
        ensures
            final(self).wf(),
            final(self)@ == connect_rows(old(self)@, e[0] as int, e[1] as int),
            final(self).tags() == old(self).tags(),
            final(self).tag_counter() == old(self).tag_counter(),
    {
        proof {
            assert(self@[e[0] as int].len() == e[0] + 1);
        }
        if self.get(e) != 0 {
            self.set(e, 1);
        }
    }

    /// Disconnect one vertex from another iff they are neighbors.
    pub fn disconnect(&mut self, e: [VertexId; 2])
        requires
            old(self).wf(),
            e[0] < old(self)@.len(),
            e[1] < old(self)@.len(),
        ensures
            final(self).wf(),
            final(self)@ == disconnect_rows(old(self)@, e[0] as int, e[1] as int),
            final(self).tags() == old(self).tags(),
            final(self).tag_counter() == old(self).tag_counter(),
    {
        proof {
            assert(self@[e[0] as int].len() == e[0] + 1);
        }
        if self.get(e) == 1 {
            self.set(e, DISCONNECTED);
        }
    }

    /// Inserts a new vertex that is a copy of `parents`, inheriting the union of their ancestor sets.
    pub fn insert_from(&mut self, parents: &[VertexId]) -> (v: VertexId)
        requires
            old(self).wf(),
            old(self)@.len() < usize::MAX,
            forall|i: int| 0 <= i < parents@.len() ==> (#[trigger] parents@[i]) < old(self).tags().len(),
        ensures
            final(self).wf(),
            v == old(self)@.len(),
            final(self)@ == grow_rows(old(self)@),
            final(self).tags() == old(self).tags().push(parent_tags(old(self).tags(), parents@)),
            final(self).tag_counter() == old(self).tag_counter(),
    {
        proof { self.lemma_view(); }
        let mut row: Vec<usize> = Vec::new();
        let mut y: usize = 0;
        while y < self.order
            invariant
                y <= self.order,
                row@ == Seq::new(y as nat, |k: int| DISCONNECTED),
            decreases self.order - y,
        {
            row.push(DISCONNECTED);
            y += 1;
            assert(row@ =~= Seq::new(y as nat, |k: int| DISCONNECTED));
        }
        row.push(0);
        let mut acc = TagSet::empty();
        let mut i: usize = 0;
        while i < parents.len()
            invariant
                i <= parents@.len(),
                self.ancestors@ == old(self).ancestors@,
                self.tags() == old(self).tags(),
                forall|k: int| 0 <= k < parents@.len() ==> (#[trigger] parents@[k]) < old(self).tags().len(),
                acc@ == parent_tags(old(self).tags(), parents@.take(i as int)),
            decreases parents@.len() - i,
        {
            let p = parents[i];
            proof { self.lemma_view(); }
            acc.extend(&self.ancestors[p]);
            assert(parents@.take(i + 1).drop_last() =~= parents@.take(i as int));
            i += 1;
        }
        assert(parents@.take(i as int) =~= parents@);
        self.rows.push(row);
        self.ancestors.push(acc);
        self.order = self.order + 1;
        proof {
            self.lemma_view();
            assert(self@ =~= grow_rows(old(self)@));
            assert(self.tags() =~= old(self).tags().push(parent_tags(old(self).tags(), parents@)));
            assert forall|r: int| 0 <= r < self@.len() implies #[trigger] self@[r].len() == r + 1 && self@[r][r] == 0 by {
                if r < old(self)@.len() {
                    assert(old(self)@[r].len() == r + 1);
                }
            }
        }
        self.order - 1
    }

    /// Inserts a new, genuinely-unrelated vertex with a fresh ancestor tag.
    pub fn insert(&mut self) -> (v: VertexId)
        requires
            old(self).wf(),
            old(self)@.len() < usize::MAX,
            old(self).tag_counter() < u64::MAX,
        ensures
            final(self).wf(),
            v == old(self)@.len(),
            final(self)@ == grow_rows(old(self)@),
            final(self).tags() == old(self).tags().push(set![old(self).tag_counter()]),
            final(self).tag_counter() == old(self).tag_counter() + 1,
    {
        let empty: Vec<VertexId> = Vec::new();
        let none = empty.as_slice();
        assert(none@.len() == 0);
        let v = self.insert_from(none);
        proof {
            self.lemma_view();
            assert(parent_tags(old(self).tags(), none@) == Set::<u64>::empty());
            assert(self.tags()[self.ancestors@.len() - 1] == Set::<u64>::empty());
            assert(self.ancestors@[self.ancestors@.len() - 1]@ == Set::<u64>::empty());
        }
        let ghost before = self.ancestors@;
        let ghost tags_before = self.tags();
        let tag = self.next_tag;
        let last = self.ancestors.len() - 1;
        self.ancestors[last].insert(tag);
        self.next_tag = self.next_tag + 1;
        proof {
            self.lemma_view();
            assert(self.ancestors@.len() == before.len());
            assert(forall|k: int| 0 <= k < last ==> self.ancestors@[k] == before[k]);
            assert(self.ancestors@[last as int]@ =~= set![old(self).tag_counter()]);
            assert forall|k: int| 0 <= k < last implies #[trigger] self.tags()[k] == old(self).tags()[k] by {
                assert(self.tags()[k] == self.ancestors@[k]@);
                assert(tags_before[k] == before[k]@);
                assert(tags_before[k] == old(self).tags()[k]);
            }
            assert(self.tags() =~= old(self).tags().push(set![old(self).tag_counter()]));
        }
        v
    }

    /// The set of persistent tags a vertex descends from.
    pub fn ancestors(&self, v: VertexId) -> (r: &TagSet)
        requires
            v < self.tags().len(),
        ensures
            r@ == self.tags()[v as int],
    {
        proof { self.lemma_view(); }
        &self.ancestors[v]
    }

    /// Adds the ancestor tags of `v` to those of `u`.
    pub fn merge_ancestry(&mut self, v: VertexId, u: VertexId)
        requires
            old(self).wf(),
            v < old(self)@.len(),
            u < old(self)@.len(),
        ensures
            final(self).wf(),
            final(self)@ == old(self)@,
            final(self).tags() == old(self).tags().update(u as int, old(self).tags()[u as int].union(old(self).tags()[v as int])),
            final(self).tag_counter() == old(self).tag_counter(),
    {
        proof { self.lemma_view(); }
        let tv = self.ancestors[v].copy();
        let mut tu = self.ancestors[u].copy();
        tu.extend(&tv);
        self.ancestors.set(u, tu);
        proof {
            self.lemma_view();
            assert(self.tags() =~= old(self).tags().update(u as int, old(self).tags()[u as int].union(old(self).tags()[v as int])));
        }
    }

    /// Copies each vertex's ancestor set from `source`, one per entry in `parents`.
    pub fn inherit_ancestry(&mut self, source: &Distance, parents: &[VertexId])
        requires
            forall|i: int| 0 <= i < parents@.len() ==> (#[trigger] parents@[i]) < source.tags().len(),
        ensures
            final(self)@ == old(self)@,
            old(self).wf() && parents@.len() == old(self)@.len() ==> final(self).wf(),
            final(self).tags() == Seq::new(parents@.len(), |i: int| source.tags()[parents@[i] as int]),
            final(self).tag_counter() == source.tag_counter(),
    {
        let mut ancestors: Vec<TagSet> = Vec::new();
        let mut i: usize = 0;
        while i < parents.len()
            invariant
                i <= parents@.len(),
                ancestors@.len() == i,
                forall|k: int| 0 <= k < parents@.len() ==> (#[trigger] parents@[k]) < source.tags().len(),
                forall|k: int| 0 <= k < i ==> #[trigger] ancestors@[k]@ == source.tags()[parents@[k] as int],
            decreases parents@.len() - i,
        {
            proof { source.lemma_view(); }
            ancestors.push(source.ancestors[parents[i]].copy());
            i += 1;
        }
        self.ancestors = ancestors;
        self.next_tag = source.next_tag;
        proof {
            self.lemma_view();
            assert(self.tags() =~= Seq::new(parents@.len(), |i: int| source.tags()[parents@[i] as int]));
        }
    }

    /// Wipes vertex ancestry back to a fresh singleton tag per current vertex.
    pub fn reset_ancestry(&mut self)
        requires
            old(self).wf(),
        ensures
            final(self).wf(),
            final(self)@ == old(self)@,
            final(self).tags() == Seq::new(old(self)@.len(), |v: int| set![v as u64]),
            final(self).tag_counter() == old(self)@.len() as u64,
    {
        proof { self.lemma_view(); }
        let mut ancestors: Vec<TagSet> = Vec::new();
        let mut v: usize = 0;
        while v < self.order
            invariant
                v <= self.order,
                ancestors@.len() == v,
                forall|k: int| 0 <= k < v ==> #[trigger] ancestors@[k]@ == set![k as u64],
            decreases self.order - v,
        {
            ancestors.push(TagSet::singleton(v as u64));
            v += 1;
        }
        self.ancestors = ancestors;
        self.next_tag = self.order as u64;
        proof {
            self.lemma_view();
            assert(self.tags() =~= Seq::new(old(self)@.len(), |v: int| set![v as u64]));
        }
    }

    /// Deletes a vertex from the matrix, shifting higher vertices down.
    pub fn delete(&mut self, v: VertexId)
        requires
            old(self).wf(),
            v < old(self)@.len(),
        ensures
            final(self).wf(),
            final(self)@ == delete_rows(old(self)@, v as int),
            final(self).tags() == if v < old(self).tags().len() {
                old(self).tags().remove(v as int)
            } else {
                old(self).tags()
            },
            final(self).tag_counter() == old(self).tag_counter(),
    {
        proof { self.lemma_view(); }
        let ghost m = self@;
        let mut rows: Vec<Vec<usize>> = Vec::new();
        let mut i: usize = 0;
        while i < self.order
            invariant
                self@ == m,
                rows_wf(m),
                self.order == m.len(),
                v < m.len(),
                i <= m.len(),
                rows@.len() == if i <= v { i as int } else { i - 1 },
                forall|x: int| 0 <= x < rows@.len() ==> #[trigger] rows@[x]@ == delete_rows(m, v as int)[x],
            decreases self.order - i,
        {
            proof { self.lemma_view(); }
            if i != v {
                let mut row: Vec<usize> = Vec::new();
                let mut j: usize = 0;
                assert(m[i as int].len() == i + 1);
                while j <= i
                    invariant
                        self@ == m,
                        rows_wf(m),
                        self.order == m.len(),
                        i < m.len(),
                        i != v,
                        j <= i + 1,
                        m[i as int].len() == i + 1,
                        row@.len() == if j <= v { j as int } else { j - 1 },
                        forall|y: int| 0 <= y < row@.len() ==> #[trigger] row@[y] == m[i as int][skip(y, v as int)],
                    decreases i + 1 - j,
                {
                    proof { self.lemma_view(); }
                    if j != v {
                        row.push(self.rows[i][j]);
                    }
                    j += 1;
                }
                let ghost x = rows@.len() as int;
                assert(skip(x, v as int) == i);
                assert(row@ =~= delete_rows(m, v as int)[x]);
                rows.push(row);
            }
            i += 1;
        }
        let mut ancestors: Vec<TagSet> = Vec::new();
        let mut k: usize = 0;
        while k < self.ancestors.len()
            invariant
                k <= self.ancestors@.len(),
                self.ancestors@ == old(self).ancestors@,
                ancestors@.len() == if k <= v { k as int } else { k - 1 },
                forall|x: int| 0 <= x < ancestors@.len() ==> #[trigger] ancestors@[x]@ == old(self).ancestors@[skip(x, v as int)]@,
            decreases self.ancestors@.len() - k,
        {
            if k != v {
                ancestors.push(self.ancestors[k].copy());
            }
            k += 1;
        }
        self.rows = rows;
        self.ancestors = ancestors;
        self.order = self.order - 1;
        proof {
            self.lemma_view();
            old(self).lemma_view();
            assert(self@ =~= delete_rows(m, v as int));
            if v < old(self).tags().len() {
                assert(self.tags() =~= old(self).tags().remove(v as int));
            } else {
                assert(self.tags() =~= old(self).tags());
            }
            assert forall|r: int| 0 <= r < self@.len() implies #[trigger] self@[r].len() == r + 1 && self@[r][r] == 0 by {
                assert(m[skip(r, v as int)].len() == skip(r, v as int) + 1);
            }
        }
    }


    /// Enumerates the vertices connected to `v`, ascending.
    pub fn neighbors(&self, v: VertexId) -> (r: Vec<VertexId>)
        requires
            self.wf(),
            v < self@.len(),
        ensures
            r@ == neighbors_upto(self@, v as int, self@.len()),
    {
        let mut r: Vec<VertexId> = Vec::new();
        let mut u: usize = 0;
        while u < self.order()
            invariant
                self.wf(),
                v < self@.len(),
                u <= self@.len(),
                r@ == neighbors_upto(self@, v as int, u as nat),
            decreases self@.len() - u,
        {
            if self.get([v, u]) == 1 {
                r.push(u);
            }
            u += 1;
        }
        r
    }

    /// Iterable range representing vertex ids.
    pub fn vertices(&self) -> (r: core::ops::Range<VertexId>)
        requires
            self.wf(),
        ensures
            r.start == 0,
            r.end == self@.len(),
    {
        0..self.order()
    }

    /// Pairs `[v, u]` with `u < v` kept by `f`, ordered by `v` then `u`.
    pub fn pairs_where(&self, f: PairFilter) -> (r: Vec<[VertexId; 2]>)
        requires
            self.wf(),
        ensures
            r@ == pairs(self@, f),
    {
        let n = self.order();
        let mut r: Vec<[VertexId; 2]> = Vec::new();
        let mut v: usize = 0;
        while v < n
            invariant
                self.wf(),
                n == self@.len(),
                v <= n,
                r@ == pairs_upto(self@, f, v as nat),
            decreases n - v,
        {
            let ghost base = r@;
            let mut u: usize = 0;
            while u < v
                invariant
                    self.wf(),
                    n == self@.len(),
                    v < n,
                    u <= v,
                    r@ == base + row_pairs(self@, f, v as int, u as nat),
                decreases v - u,
            {
                let d = self.get([v, u]);
                let keep = match f {
                    PairFilter::All => true,
                    PairFilter::Edges => d == 1,
                    PairFilter::Springs(diameter) => d <= 2 || diameter == 0 || d >= diameter - 1,
                };
                proof {
                    assert(self@[v as int].len() == v + 1);
                }
                if keep {
                    r.push([v, u]);
                }
                proof {
                    let ghost s = row_pairs(self@, f, v as int, u as nat);
                    if keep {
                        assert(r@ =~= base + s.push(pair(v as int, u as int)));
                    }
                }
                u += 1;
            }
            v += 1;
        }
        r
    }

    /// All possible combinations `[v, u]`, `u < v`, of vertices.
    pub fn vertex_pairs(&self) -> (r: Vec<[VertexId; 2]>)
        requires
            self.wf(),
        ensures
            r@ == pairs(self@, PairFilter::All),
    {
        self.pairs_where(PairFilter::All)
    }

    /// All actual edges `[v, u]`, `u < v`, of the graph.
    pub fn edges(&self) -> (r: Vec<[VertexId; 2]>)
        requires
            self.wf(),
        ensures
            r@ == pairs(self@, PairFilter::Edges),
    {
        self.pairs_where(PairFilter::Edges)
    }

    /// Maximum distance value, zero when there are fewer than two vertices.
    pub fn diameter(&self) -> (r: usize)
        requires
            self.wf(),
        ensures
            r == diameter_of(self@),
    {
        let n = self.order();
        let mut best: usize = 0;
        let mut v: usize = 0;
        while v < n
            invariant
                self.wf(),
                n == self@.len(),
                v <= n,
                best == max_upto(self@, v as nat),
            decreases n - v,
        {
            let mut row_best: usize = 0;
            let mut u: usize = 0;
            while u < v
                invariant
                    self.wf(),
                    n == self@.len(),
                    v < n,
                    u <= v,
                    row_best == row_max(self@, v as int, u as nat),
                decreases v - u,
            {
                let d = self.get([v, u]);
                if d > row_best {
                    row_best = d;
                }
                u += 1;
            }
            if row_best > best {
                best = row_best;
            }
            v += 1;
        }
        best
    }

    /// Pairs close enough, or far enough apart, to be held by springs.
    pub fn springs(&self) -> (r: Vec<[VertexId; 2]>)
        requires
            self.wf(),
        ensures
            r@ == pairs(self@, PairFilter::Springs(diameter_of(self@))),
    {
        let diameter = self.diameter();
        self.pairs_where(PairFilter::Springs(diameter))
    }

    /// Number of faces by Euler's formula: `2 + E - V`.
    pub fn face_count(&self) -> (r: i64)
        requires
            self.wf(),
            pairs(self@, PairFilter::Edges).len() + 2 <= i64::MAX,
            self@.len() <= i64::MAX,
        ensures
            r == 2 + pairs(self@, PairFilter::Edges).len() - self@.len(),
    {
        let e = self.edges().len();
        2 + e as i64 - self.order() as i64
    }
}

} // verus!
