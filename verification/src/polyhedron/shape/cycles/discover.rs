use vstd::prelude::*;
use crate::polyhedron::{FaceId, VertexId};
use super::{Cycles, sorted_faces, sorted_ids};
use super::super::distance::{Distance, PairFilter, adjacent, entry, pairs};
use super::super::distance::reach::{connected, deletable, shift_down, strip};
use super::super::conway::views;

verus! {

/// `p` is a walk over distinct existing vertices, each adjacent to the next.
pub open spec fn simple_walk(m: Seq<Seq<usize>>, p: Seq<usize>) -> bool {
    &&& p.no_duplicates()
    &&& forall|i: int| 0 <= i < p.len() ==> #[trigger] p[i] < m.len()
    &&& forall|i: int, j: int| 0 <= i < p.len() && j == i + 1 && j < p.len() ==> #[trigger] adjacent(m, p[i] as int, p[j] as int)
}

/// `c` is a cycle of the graph: a simple walk of at least three vertices whose last vertex is
/// adjacent to its first.
pub open spec fn graph_cycle(m: Seq<Seq<usize>>, c: Seq<usize>) -> bool {
    &&& c.len() >= 3
    &&& simple_walk(m, c)
    &&& adjacent(m, c[c.len() - 1] as int, c[0] as int)
}

/// A face found by the search: a cycle that is a triangle or whose removal leaves the graph
/// connected.
pub open spec fn found_face(m: Seq<Seq<usize>>, c: Seq<usize>) -> bool {
    graph_cycle(m, c) && (c.len() == 3 || connected(strip(m, c)))
}

/// No two vertices of `c` are adjacent unless they follow each other along `c`, its last and
/// first vertex counting as following each other.
pub open spec fn chordless(m: Seq<Seq<usize>>, c: Seq<usize>) -> bool {
    forall|a: int, b: int| 0 <= a && a + 1 < b < c.len() && !(a == 0 && b == c.len() - 1)
        ==> !#[trigger] adjacent(m, c[a] as int, c[b] as int)
}

/// `c` runs from the smaller of the two vertices next to its smallest vertex `c[1]`, through
/// `c[1]`, to the larger one.
pub open spec fn from_smallest(c: Seq<usize>) -> bool {
    &&& c.len() >= 3
    &&& c[0] < c[2]
    &&& forall|i: int| 0 <= i < c.len() && i != 1 ==> c[1] < #[trigger] c[i]
}

/// A walk the search still extends: written from its smallest vertex, with no two of its
/// vertices adjacent unless they follow each other, its ends included.
pub open spec fn open_walk(m: Seq<Seq<usize>>, p: Seq<usize>) -> bool {
    &&& simple_walk(m, p)
    &&& from_smallest(p)
    &&& chordless(m, p)
    &&& !adjacent(m, p[0] as int, p[p.len() - 1] as int)
}

/// A face the search reports: a found face without chords, written from its smallest vertex.
pub open spec fn search_face(m: Seq<Seq<usize>>, c: Seq<usize>) -> bool {
    &&& found_face(m, c)
    &&& chordless(m, c)
    &&& from_smallest(c)
}

/// `p` is a proper beginning of `c`.
pub open spec fn is_prefix(p: Seq<usize>, c: Seq<usize>) -> bool {
    p.len() < c.len() && c.take(p.len() as int) == p
}

/// Every reported face that `sel` picks is in `found`, or is longer than a triangle and begins
/// with a walk in `walks`.
pub open spec fn covered_when(m: Seq<Seq<usize>>, walks: Seq<Seq<usize>>, found: Seq<Seq<usize>>, sel: spec_fn(Seq<usize>) -> bool) -> bool {
    forall|c: Seq<usize>| #![trigger search_face(m, c)] search_face(m, c) && sel(c) ==>
        found.contains(c) || (c.len() > 3 && exists|i: int| 0 <= i < walks.len() && #[trigger] is_prefix(walks[i], c))
}

/// Faces whose smallest vertex, then first vertex, then third vertex come before `(u, x, y)`.
pub open spec fn seen_before(u: int, x: int, y: int) -> spec_fn(Seq<usize>) -> bool {
    |c: Seq<usize>| c[1] < u || (c[1] == u && (c[0] < x || (c[0] == x && c[2] < y)))
}

/// Every face.
pub open spec fn every_face() -> spec_fn(Seq<usize>) -> bool {
    |c: Seq<usize>| true
}

/// `faces`, with their `ids`, are what a discovery on `m` gives when ids are minted from `start`
/// on and `next` is the next id left: the reported faces sorted, all of them unless the search
/// stopped at as many faces as a polyhedron of this size has, or none where the ids would run
/// past `usize::MAX`.
pub open spec fn discovered(m: Seq<Seq<usize>>, start: usize, next: usize, faces: Seq<Seq<VertexId>>, ids: Seq<FaceId>) -> bool {
    exists|raw: Seq<Seq<VertexId>>| {
        &&& raw.no_duplicates()
        &&& forall|i: int| 0 <= i < raw.len() ==> #[trigger] search_face(m, raw[i])
        &&& raw.len() < 2 + pairs(m, PairFilter::Edges).len() - m.len() ==>
            forall|c: Seq<VertexId>| #[trigger] search_face(m, c) ==> raw.contains(c)
        &&& if start + raw.len() <= usize::MAX {
            &&& next == start + raw.len()
            &&& faces == sorted_faces(raw)
            &&& ids == sorted_ids(raw, Seq::new(raw.len(), |i: int| (start + i) as usize))
        } else {
            &&& next == start
            &&& faces == Seq::<Seq<VertexId>>::empty()
        }
    }
}

/// `b` to the power `e`.
pub open spec fn pw(b: nat, e: nat) -> nat
    decreases e,
{
    if e == 0 {
        1
    } else {
        b * pw(b, (e - 1) as nat)
    }
}

/// The work left in a list of walks over `n` vertices: each walk of length `l` weighs
/// `(n + 1)` to the power `n + 1 - l`.
pub open spec fn potential(w: Seq<Seq<usize>>, n: nat) -> nat
    decreases w.len(),
{
    if w.len() == 0 {
        0
    } else {
        potential(w.drop_last(), n) + pw(n + 1, (n + 1 - w.last().len()) as nat)
    }
}

proof fn lemma_potential_front(w: Seq<Seq<usize>>, n: nat)
    requires
        w.len() > 0,
    ensures
        potential(w, n) == pw(n + 1, (n + 1 - w[0].len()) as nat) + potential(w.drop_first(), n),
    decreases w.len(),
{
    if w.len() > 1 {
        lemma_potential_front(w.drop_last(), n);
        assert(w.drop_last().drop_first() =~= w.drop_first().drop_last());
        assert(w.drop_first().last() == w.last());
        assert(w.drop_last()[0] == w[0]);
        assert(potential(w.drop_first(), n) == potential(w.drop_first().drop_last(), n) + pw(n + 1, (n + 1 - w.drop_first().last().len()) as nat));
        assert(potential(w, n) == potential(w.drop_last(), n) + pw(n + 1, (n + 1 - w.last().len()) as nat));
    } else {
        assert(w.last() == w[0]);
        assert(potential(w.drop_last(), n) == 0);
        assert(potential(w.drop_first(), n) == 0);
        assert(potential(w, n) == potential(w.drop_last(), n) + pw(n + 1, (n + 1 - w.last().len()) as nat));
        assert(w.drop_first().len() == 0);
        assert(w.drop_last().len() == 0);
    }
}

/// A sequence of distinct values below `n` has at most `n` elements.
proof fn lemma_distinct_below(s: Seq<usize>, n: nat)
    requires
        s.no_duplicates(),
        forall|i: int| 0 <= i < s.len() ==> #[trigger] s[i] < n,
    ensures
        s.len() <= n,
    decreases n,
{
    if n > 0 {
        let top = (n - 1) as usize;
        if s.contains(top) {
            let k = choose|k: int| 0 <= k < s.len() && s[k] == top;
            let t = s.remove(k);
            assert forall|i: int| 0 <= i < t.len() implies #[trigger] t[i] < n - 1 by {
                let j = if i < k { i } else { i + 1 };
                assert(t[i] == s[j]);
                assert(s[j] != top);
            }
            assert forall|a: int, b: int| 0 <= a < t.len() && 0 <= b < t.len() && a != b implies t[a] != t[b] by {
                let a1 = if a < k { a } else { a + 1 };
                let b1 = if b < k { b } else { b + 1 };
                assert(t[a] == s[a1] && t[b] == s[b1]);
            }
            lemma_distinct_below(t, (n - 1) as nat);
        } else {
            assert forall|i: int| 0 <= i < s.len() implies #[trigger] s[i] < n - 1 by {
                assert(s[i] != top);
            }
            lemma_distinct_below(s, (n - 1) as nat);
        }
    } else {
        if s.len() > 0 {
            assert(s[0] < 0);
        }
    }
}

/// Deleting the distinct vertices of a walk one by one stays in range.
proof fn lemma_deletable(n: nat, c: Seq<usize>)
    requires
        c.no_duplicates(),
        forall|i: int| 0 <= i < c.len() ==> #[trigger] c[i] < n,
    ensures
        deletable(n, c),
    decreases c.len(),
{
    if c.len() > 0 {
        let v = c[0];
        let rest = shift_down(c.drop_first(), v);
        assert forall|i: int| 0 <= i < rest.len() implies #[trigger] rest[i] < n - 1 by {
            assert(c.drop_first()[i] == c[i + 1]);
            assert(c[i + 1] != c[0]);
        }
        assert forall|a: int, b: int| 0 <= a < rest.len() && 0 <= b < rest.len() && a != b implies rest[a] != rest[b] by {
            assert(c.drop_first()[a] == c[a + 1] && c.drop_first()[b] == c[b + 1]);
            assert(c[a + 1] != c[b + 1]);
            assert(c[a + 1] != v && c[b + 1] != v);
        }
        lemma_deletable((n - 1) as nat, rest);
    }
}

/// Whether the list of cycles holds `c`.
fn holds_cycle(cycles: &Vec<Vec<VertexId>>, c: &Vec<VertexId>) -> (r: bool)
    ensures
        r == views(cycles@).contains(c@),
{
    let ghost vs = views(cycles@);
    let mut i: usize = 0;
    while i < cycles.len()
        invariant
            vs == views(cycles@),
            i <= cycles@.len(),
            forall|k: int| 0 <= k < i ==> vs[k] != c@,
        decreases cycles@.len() - i,
    {
        let d = &cycles[i];
        let mut same = d.len() == c.len();
        let mut j: usize = 0;
        while same && j < d.len()
            invariant
                j <= d@.len(),
                same ==> d@.len() == c@.len(),
                same ==> forall|k: int| 0 <= k < j ==> d@[k] == c@[k],
                !same ==> d@ != c@,
            decreases d@.len() - j,
        {
            if d[j] != c[j] {
                same = false;
                assert(d@[j as int] != c@[j as int]);
            }
            j += 1;
        }
        if same {
            assert(d@ =~= c@);
            assert(vs[i as int] == c@);
            return true;
        }
        assert(vs[i as int] != c@);
        i += 1;
    }
    false
}

/// Every reported face that begins with `p` and continues with a vertex of `picks` is in
/// `found`, or begins with one of `walks`.
pub open spec fn handled(m: Seq<Seq<usize>>, p: Seq<usize>, picks: Seq<usize>, walks: Seq<Seq<usize>>, found: Seq<Seq<usize>>) -> bool {
    forall|c: Seq<usize>| #![trigger search_face(m, c)] search_face(m, c) && is_prefix(p, c) && picks.contains(c[p.len() as int]) ==>
        found.contains(c) || exists|i: int| 0 <= i < walks.len() && #[trigger] is_prefix(walks[i], c)
}

/// Chordless-cycle face search over the distance matrix: triangles, and closed chordless walks
/// from a smallest vertex whose removal leaves the graph connected. Stops once as many cycles
/// are known as a polyhedron of this size has faces; short of that, every such face is found.
pub fn chordless_cycles(distance: &Distance) -> (r: Vec<Vec<VertexId>>)
    requires
        distance.wf(),
        pairs(distance@, PairFilter::Edges).len() + 2 <= i64::MAX,
        distance@.len() <= i64::MAX,
    ensures
        views(r@).no_duplicates(),
        forall|i: int| 0 <= i < r@.len() ==> #[trigger] search_face(distance@, r@[i]@),
        r@.len() < 2 + pairs(distance@, PairFilter::Edges).len() - distance@.len() ==>
            forall|c: Seq<VertexId>| #[trigger] search_face(distance@, c) ==> views(r@).contains(c),
{
    let ghost m = distance@;
    let n = distance.order();
    let (mut triplets, mut cycles) = seed_walks(distance);
    let faces = distance.face_count();
    // While there are unparsed walks.
    let ghost mut phi = potential(views(triplets@), n as nat);
    while triplets.len() > 0 && (cycles.len() as i64) < faces
        invariant
            distance.wf(),
            m == distance@,
            n == m.len(),
            faces == 2 + pairs(m, PairFilter::Edges).len() - m.len(),
            forall|i: int| 0 <= i < triplets@.len() ==> #[trigger] open_walk(m, triplets@[i]@),
            views(cycles@).no_duplicates(),
            forall|i: int| 0 <= i < cycles@.len() ==> #[trigger] search_face(m, cycles@[i]@),
            covered_when(m, views(triplets@), views(cycles@), every_face()),
            phi == potential(views(triplets@), n as nat),
        decreases phi,
    {
        let ghost w0 = views(triplets@);
        let ghost f0 = views(cycles@);
        proof {
            assert(open_walk(m, triplets@[0]@));
        }
        let p = triplets.remove(0);
        let ghost pv = p@;
        proof {
            assert(w0[0] == pv);
            lemma_potential_front(w0, n as nat);
            assert(views(triplets@) =~= w0.drop_first());
            lemma_distinct_below(pv, n as nat);
            assert(open_walk(m, pv));
        }
        let ghost base = views(triplets@);
        let ghost qb = triplets@;
        extend_walk(distance, &p, &mut triplets, &mut cycles);
        proof {
            let w1 = views(triplets@);
            let extra = w1.skip(base.len() as int);
            assert forall|q: int| 0 <= q < extra.len() implies (#[trigger] extra[q]).len() == pv.len() + 1 by {
                assert(extra[q] == triplets@[base.len() + q]@);
            }
            assert forall|i: int| 0 <= i < w1.len() implies #[trigger] w1[i] == (base + extra)[i] by {
                if i < base.len() {
                    assert(triplets@[i] == qb[i]);
                }
            }
            assert(w1 =~= base + extra);
            lemma_potential_append(base, extra, n as nat, (pv.len() + 1) as nat);
            lemma_potential_step(n as nat, pv.len() as nat, extra.len());
            phi = potential(w1, n as nat);
            let f1 = views(cycles@);
            assert forall|c: Seq<usize>| #![trigger search_face(m, c)] search_face(m, c) && every_face()(c) implies
                f1.contains(c) || (c.len() > 3 && exists|i: int| 0 <= i < w1.len() && #[trigger] is_prefix(w1[i], c)) by {
                if !f0.contains(c) {
                    let i = choose|i: int| 0 <= i < w0.len() && #[trigger] is_prefix(w0[i], c);
                    if i == 0 {
                        if !f1.contains(c) {
                            let k = choose|k: int| 0 <= k < triplets@.len() && #[trigger] is_prefix(triplets@[k]@, c);
                            assert(is_prefix(w1[k], c));
                        }
                    } else {
                        assert(base[i - 1] == w0[i]);
                        assert(triplets@[i - 1] == qb[i - 1]);
                        assert(is_prefix(w1[i - 1], c));
                    }
                }
            }
        }
    }
    proof {
        if cycles@.len() < faces {
            assert(triplets@.len() == 0);
            assert forall|c: Seq<VertexId>| #[trigger] search_face(m, c) implies views(cycles@).contains(c) by {
                assert(every_face()(c));
            }
        }
    }
    cycles
}

/// The walks of three vertices the search starts from, and the triangles: for each vertex `u`
/// and neighbors `x < y` of it above it, the triangle `[x, u, y]` when `x` and `y` are adjacent,
/// else the walk `[x, u, y]`.
fn seed_walks(distance: &Distance) -> (r: (Vec<Vec<VertexId>>, Vec<Vec<VertexId>>))
    requires
        distance.wf(),
    ensures
        forall|i: int| 0 <= i < r.0@.len() ==> #[trigger] open_walk(distance@, r.0@[i]@),
        views(r.1@).no_duplicates(),
        forall|i: int| 0 <= i < r.1@.len() ==> #[trigger] search_face(distance@, r.1@[i]@),
        covered_when(distance@, views(r.0@), views(r.1@), every_face()),
{
    let ghost m = distance@;
    let n = distance.order();
    let mut triplets: Vec<Vec<VertexId>> = Vec::new();
    let mut cycles: Vec<Vec<VertexId>> = Vec::new();
    proof {
        assert(views(cycles@) =~= Seq::<Seq<usize>>::empty());
    }
    let mut u: usize = 0;
    while u < n
        invariant
            distance.wf(),
            m == distance@,
            n == m.len(),
            u <= n,
            forall|i: int| 0 <= i < triplets@.len() ==> #[trigger] open_walk(m, triplets@[i]@),
            views(cycles@).no_duplicates(),
            forall|i: int| 0 <= i < cycles@.len() ==> #[trigger] search_face(m, cycles@[i]@),
            covered_when(m, views(triplets@), views(cycles@), seen_before(u as int, 0, 0)),
        decreases n - u,
    {
        let mut x: usize = u + 1;
        proof {
            lemma_covered_narrow(m, views(triplets@), views(cycles@), seen_before(u as int, 0, 0), seen_before(u as int, x as int, 0));
        }
        while x < n
            invariant
                distance.wf(),
                m == distance@,
                n == m.len(),
                u < n,
                u + 1 <= x <= n,
                forall|i: int| 0 <= i < triplets@.len() ==> #[trigger] open_walk(m, triplets@[i]@),
                views(cycles@).no_duplicates(),
                forall|i: int| 0 <= i < cycles@.len() ==> #[trigger] search_face(m, cycles@[i]@),
                covered_when(m, views(triplets@), views(cycles@), seen_before(u as int, x as int, 0)),
            decreases n - x,
        {
            let mut y: usize = x + 1;
            proof {
                lemma_covered_narrow(m, views(triplets@), views(cycles@), seen_before(u as int, x as int, 0), seen_before(u as int, x as int, y as int));
            }
            while y < n
                invariant
                    distance.wf(),
                    m == distance@,
                    n == m.len(),
                    u < x < n,
                    x + 1 <= y <= n,
                    forall|i: int| 0 <= i < triplets@.len() ==> #[trigger] open_walk(m, triplets@[i]@),
                    views(cycles@).no_duplicates(),
                    forall|i: int| 0 <= i < cycles@.len() ==> #[trigger] search_face(m, cycles@[i]@),
                    covered_when(m, views(triplets@), views(cycles@), seen_before(u as int, x as int, y as int)),
                decreases n - y,
            {
                let ghost q0 = views(triplets@);
                let ghost f0 = views(cycles@);
                let ghost tv = seq![x, u, y];
                let ux = distance.get([u, x]) == 1;
                let uy = distance.get([u, y]) == 1;
                let xy = distance.get([x, y]) == 1;
                if ux && uy {
                    let t: Vec<VertexId> = vec![x, u, y];
                    proof {
                        assert(t@ =~= tv);
                        assert(adjacent(m, x as int, u as int));
                        assert(adjacent(m, u as int, y as int));
                        assert forall|a: int, b: int| 0 <= a < tv.len() && 0 <= b < tv.len() && a != b implies tv[a] != tv[b] by {}
                        assert forall|a: int, b: int| 0 <= a < tv.len() && b == a + 1 && b < tv.len() implies #[trigger] adjacent(m, tv[a] as int, tv[b] as int) by {
                            if a == 0 {
                                assert(tv[a] == x && tv[b] == u);
                            } else {
                                assert(tv[a] == u && tv[b] == y);
                            }
                        }
                        assert(simple_walk(m, tv));
                        assert(from_smallest(tv));
                        assert(chordless(m, tv));
                    }
                    if xy {
                        proof {
                            assert(adjacent(m, y as int, x as int));
                            assert(search_face(m, tv));
                        }
                        let known = holds_cycle(&cycles, &t);
                        if !known {
                            let ghost before = cycles@;
                            cycles.push(t);
                            proof {
                                let vs = views(cycles@);
                                let bv = views(before);
                                assert(vs =~= bv.push(tv));
                                assert forall|a: int, b: int| 0 <= a < vs.len() && 0 <= b < vs.len() && a != b implies vs[a] != vs[b] by {
                                    if a < before.len() && b < before.len() {
                                        assert(vs[a] == bv[a] && vs[b] == bv[b]);
                                    } else if a < before.len() {
                                        assert(vs[a] == bv[a]);
                                    } else {
                                        assert(vs[b] == bv[b]);
                                    }
                                }
                                assert forall|i: int| 0 <= i < cycles@.len() implies #[trigger] search_face(m, cycles@[i]@) by {
                                    if i < before.len() {
                                        assert(cycles@[i] == before[i]);
                                    }
                                }
                                lemma_push_contains(bv, tv);
                            }
                        }
                        assert(views(cycles@).contains(tv));
                        assert(forall|c: Seq<usize>| #[trigger] f0.contains(c) ==> views(cycles@).contains(c));
                        assert(triplets@.len() == q0.len());
                    } else {
                        proof {
                            assert(open_walk(m, tv));
                        }
                        let ghost before = triplets@;
                        triplets.push(t);
                        proof {
                            assert forall|i: int| 0 <= i < triplets@.len() implies #[trigger] open_walk(m, triplets@[i]@) by {
                                if i < before.len() {
                                    assert(triplets@[i] == before[i]);
                                }
                            }
                            assert(views(triplets@)[q0.len() as int] == tv);
                        }
                    }
                }
                proof {
                    let q1 = views(triplets@);
                    let f1 = views(cycles@);
                    assert forall|i: int| 0 <= i < q0.len() implies #[trigger] q1[i] == q0[i] by {}
                    assert(forall|c: Seq<usize>| #[trigger] f0.contains(c) ==> f1.contains(c));
                    lemma_covered_grow(m, q0, f0, q1, f1, seen_before(u as int, x as int, y as int));
                    assert forall|c: Seq<usize>| #![trigger search_face(m, c)] search_face(m, c) && seen_before(u as int, x as int, y + 1)(c) implies
                        f1.contains(c) || (c.len() > 3 && exists|i: int| 0 <= i < q1.len() && #[trigger] is_prefix(q1[i], c)) by {
                        if !seen_before(u as int, x as int, y as int)(c) {
                            lemma_face_start(m, c);
                            assert(c[0] == x && c[1] == u && c[2] == y);
                            assert(ux && uy);
                            if c.len() == 3 {
                                assert(xy);
                                assert(c == tv);
                            } else {
                                assert(!xy);
                                assert(c.take(3) == tv);
                                assert(is_prefix(q1[q0.len() as int], c));
                            }
                        }
                    }
                }
                y += 1;
            }
            proof {
                lemma_covered_narrow(m, views(triplets@), views(cycles@), seen_before(u as int, x as int, n as int), seen_before(u as int, x + 1, 0));
            }
            x += 1;
        }
        proof {
            lemma_covered_narrow(m, views(triplets@), views(cycles@), seen_before(u as int, n as int, 0), seen_before(u + 1, 0, 0));
        }
        u += 1;
    }
    proof {
        lemma_covered_narrow(m, views(triplets@), views(cycles@), seen_before(n as int, 0, 0), every_face());
    }
    (triplets, cycles)
}

/// Extends the walk `p` by each neighbor of its last vertex that the search accepts: one that
/// closes a face onto the first vertex adds that face to `cycles`, any other adds the longer
/// walk to the end of `triplets`.
fn extend_walk(distance: &Distance, p: &Vec<VertexId>, triplets: &mut Vec<Vec<VertexId>>, cycles: &mut Vec<Vec<VertexId>>)
    requires
        distance.wf(),
        open_walk(distance@, p@),
        forall|i: int| 0 <= i < old(triplets)@.len() ==> #[trigger] open_walk(distance@, old(triplets)@[i]@),
        views(old(cycles)@).no_duplicates(),
        forall|i: int| 0 <= i < old(cycles)@.len() ==> #[trigger] search_face(distance@, old(cycles)@[i]@),
    ensures
        old(triplets)@.len() <= final(triplets)@.len() <= old(triplets)@.len() + distance@.len(),
        forall|i: int| 0 <= i < old(triplets)@.len() ==> #[trigger] final(triplets)@[i] == old(triplets)@[i],
        forall|i: int| old(triplets)@.len() <= i < final(triplets)@.len() ==> (#[trigger] final(triplets)@[i])@.len() == p@.len() + 1,
        forall|i: int| 0 <= i < final(triplets)@.len() ==> #[trigger] open_walk(distance@, final(triplets)@[i]@),
        views(final(cycles)@).no_duplicates(),
        forall|i: int| 0 <= i < final(cycles)@.len() ==> #[trigger] search_face(distance@, final(cycles)@[i]@),
        forall|c: Seq<usize>| #[trigger] views(old(cycles)@).contains(c) ==> views(final(cycles)@).contains(c),
        forall|c: Seq<usize>| #![trigger search_face(distance@, c)] search_face(distance@, c) && is_prefix(p@, c) ==>
            views(final(cycles)@).contains(c) || exists|i: int| 0 <= i < final(triplets)@.len() && #[trigger] is_prefix(final(triplets)@[i]@, c),
{
    let ghost m = distance@;
    let n = distance.order();
    let len = p.len();
    let ghost pv = p@;
    let ghost q0 = triplets@;
    let ghost f0 = views(cycles@);
    proof {
        lemma_distinct_below(pv, n as nat);
    }
    let last = p[len - 1];
    let nb = distance.neighbors(last);
    proof {
        super::super::distance::lemma_neighbors_upto(m, last as int, n as nat);
        assert(handled(m, pv, nb@.take(0), views(triplets@), views(cycles@)));
    }
    let mut j: usize = 0;
    while j < nb.len()
        invariant
            distance.wf(),
            m == distance@,
            n == m.len(),
            len == pv.len(),
            3 <= len <= n,
            pv == p@,
            open_walk(m, pv),
            last == pv[len - 1],
            nb@ == super::super::distance::neighbors_upto(m, last as int, n as nat),
            nb@.len() <= n,
            forall|q: int| 0 <= q < nb@.len() ==> (#[trigger] nb@[q]) < n && adjacent(m, last as int, nb@[q] as int),
            j <= nb@.len(),
            q0.len() <= triplets@.len() <= q0.len() + j,
            forall|i: int| 0 <= i < q0.len() ==> #[trigger] triplets@[i] == q0[i],
            forall|i: int| q0.len() <= i < triplets@.len() ==> (#[trigger] triplets@[i])@.len() == len + 1,
            forall|i: int| 0 <= i < triplets@.len() ==> #[trigger] open_walk(m, triplets@[i]@),
            views(cycles@).no_duplicates(),
            forall|i: int| 0 <= i < cycles@.len() ==> #[trigger] search_face(m, cycles@[i]@),
            forall|c: Seq<usize>| #[trigger] f0.contains(c) ==> views(cycles@).contains(c),
            handled(m, pv, nb@.take(j as int), views(triplets@), views(cycles@)),
        decreases nb@.len() - j,
    {
        let v = nb[j];
        let ghost t0 = triplets@;
        let ghost c0 = cycles@;
        proof {
            assert(nb@[j as int] == v);
            assert(adjacent(m, last as int, v as int));
        }
        if v > p[1] {
            // Whether v is adjacent to an inner vertex of the walk.
            let mut k: usize = 1;
            let mut clear = true;
            while k < len - 1
                invariant
                    distance.wf(),
                    m == distance@,
                    n == m.len(),
                    len == pv.len(),
                    3 <= len,
                    pv == p@,
                    open_walk(m, pv),
                    v < n,
                    1 <= k <= len - 1,
                    clear == forall|q: int| 1 <= q < k ==> !adjacent(m, v as int, #[trigger] pv[q] as int),
                decreases len - 1 - k,
            {
                if distance.get([v, p[k]]) == 1 {
                    clear = false;
                }
                k += 1;
            }
            if clear {
                proof {
                    lemma_extend(m, pv, v);
                }
                let mut new: Vec<VertexId> = Vec::new();
                let mut q: usize = 0;
                while q < len
                    invariant
                        len == pv.len(),
                        pv == p@,
                        q <= len,
                        new@ == pv.take(q as int),
                    decreases len - q,
                {
                    new.push(p[q]);
                    q += 1;
                    assert(new@ =~= pv.take(q as int));
                }
                new.push(v);
                assert(new@ =~= pv.push(v));
                if distance.get([p[0], v]) == 1 {
                    proof {
                        lemma_deletable(n as nat, new@);
                    }
                    let copy = copy_walk(&new);
                    if distance.cycle_is_face(copy) {
                        proof {
                            assert(search_face(m, new@));
                        }
                        let known = holds_cycle(&cycles, &new);
                        if !known {
                            let ghost nv = new@;
                            cycles.push(new);
                            proof {
                                let vs = views(cycles@);
                                let bv = views(c0);
                                assert(vs =~= bv.push(nv));
                                assert forall|a: int, b: int| 0 <= a < vs.len() && 0 <= b < vs.len() && a != b implies vs[a] != vs[b] by {
                                    if a < c0.len() && b < c0.len() {
                                        assert(vs[a] == bv[a] && vs[b] == bv[b]);
                                    } else if a < c0.len() {
                                        assert(vs[a] == bv[a]);
                                    } else {
                                        assert(vs[b] == bv[b]);
                                    }
                                }
                                assert forall|i: int| 0 <= i < cycles@.len() implies #[trigger] search_face(m, cycles@[i]@) by {
                                    if i < c0.len() {
                                        assert(cycles@[i] == c0[i]);
                                    }
                                }
                                lemma_push_contains(bv, nv);
                            }
                        }
                        proof {
                            assert(views(cycles@).contains(pv.push(v)));
                            assert forall|c: Seq<usize>| #![trigger search_face(m, c)] search_face(m, c) && is_prefix(pv, c) && c[len as int] == v implies
                                views(cycles@).contains(c) by {
                                lemma_next_vertex(m, pv, c);
                            }
                        }
                    } else {
                        proof {
                            assert forall|c: Seq<usize>| #![trigger search_face(m, c)] search_face(m, c) && is_prefix(pv, c) && c[len as int] == v implies
                                false by {
                                lemma_next_vertex(m, pv, c);
                                assert(c == pv.push(v));
                            }
                        }
                    }
                } else {
                    let ghost nv = new@;
                    triplets.push(new);
                    proof {
                        assert forall|i: int| 0 <= i < triplets@.len() implies #[trigger] open_walk(m, triplets@[i]@) by {
                            if i < t0.len() {
                                assert(triplets@[i] == t0[i]);
                            }
                        }
                        assert(views(triplets@)[t0.len() as int] == nv);
                        assert forall|c: Seq<usize>| #![trigger search_face(m, c)] search_face(m, c) && is_prefix(pv, c) && c[len as int] == v implies
                            is_prefix(views(triplets@)[t0.len() as int], c) by {
                            lemma_next_vertex(m, pv, c);
                        }
                    }
                }
            } else {
                proof {
                    assert forall|c: Seq<usize>| #![trigger search_face(m, c)] search_face(m, c) && is_prefix(pv, c) && c[len as int] == v implies
                        false by {
                        lemma_next_vertex(m, pv, c);
                    }
                }
            }
        } else {
            proof {
                assert forall|c: Seq<usize>| #![trigger search_face(m, c)] search_face(m, c) && is_prefix(pv, c) && c[len as int] == v implies
                    false by {
                    lemma_next_vertex(m, pv, c);
                }
            }
        }
        proof {
            let q1 = views(triplets@);
            let f1 = views(cycles@);
            let qv0 = views(t0);
            let fv0 = views(c0);
            assert(forall|c: Seq<usize>| #[trigger] fv0.contains(c) ==> f1.contains(c));
            assert forall|i: int| 0 <= i < qv0.len() implies #[trigger] q1[i] == qv0[i] by {
                assert(triplets@[i] == t0[i]);
            }
            assert(nb@.take(j + 1) =~= nb@.take(j as int).push(v));
            assert forall|c: Seq<usize>| #![trigger search_face(m, c)] search_face(m, c) && is_prefix(pv, c) && nb@.take(j + 1).contains(c[len as int]) implies
                f1.contains(c) || exists|i: int| 0 <= i < q1.len() && #[trigger] is_prefix(q1[i], c) by {
                if nb@.take(j as int).contains(c[len as int]) {
                    if !fv0.contains(c) {
                        let i = choose|i: int| 0 <= i < qv0.len() && #[trigger] is_prefix(qv0[i], c);
                        assert(is_prefix(q1[i], c));
                    }
                } else {
                    let t = nb@.take(j + 1);
                    let i = choose|i: int| 0 <= i < t.len() && #[trigger] t[i] == c[len as int];
                    if i < j {
                        assert(nb@.take(j as int)[i] == c[len as int]);
                    }
                    assert(c[len as int] == v);
                }
            }
        }
        j += 1;
    }
    proof {
        assert(nb@.take(nb@.len() as int) =~= nb@);
        assert forall|c: Seq<usize>| #![trigger search_face(m, c)] search_face(m, c) && is_prefix(pv, c) implies
            views(cycles@).contains(c) || exists|i: int| 0 <= i < triplets@.len() && #[trigger] is_prefix(triplets@[i]@, c) by {
            lemma_next_vertex(m, pv, c);
            let x = c[len as int] as int;
            assert(entry(m, last as int, x) == 1);
            assert(nb@.contains(x as usize));
            if !views(cycles@).contains(c) {
                let i = choose|i: int| 0 <= i < views(triplets@).len() && #[trigger] is_prefix(views(triplets@)[i], c);
                assert(is_prefix(triplets@[i]@, c));
            }
        }
    }
}

/// Pushing keeps what a sequence holds.
proof fn lemma_push_contains(s: Seq<Seq<usize>>, x: Seq<usize>)
    ensures
        forall|c: Seq<usize>| #[trigger] s.contains(c) ==> s.push(x).contains(c),
        s.push(x).contains(x),
{
    assert forall|c: Seq<usize>| #[trigger] s.contains(c) implies s.push(x).contains(c) by {
        let i = choose|i: int| 0 <= i < s.len() && s[i] == c;
        assert(s.push(x)[i] == c);
    }
    assert(s.push(x)[s.len() as int] == x);
}

/// Coverage survives walks and faces being added.
proof fn lemma_covered_grow(
    m: Seq<Seq<usize>>,
    w: Seq<Seq<usize>>,
    f: Seq<Seq<usize>>,
    w2: Seq<Seq<usize>>,
    f2: Seq<Seq<usize>>,
    sel: spec_fn(Seq<usize>) -> bool,
)
    requires
        covered_when(m, w, f, sel),
        w.len() <= w2.len(),
        forall|i: int| 0 <= i < w.len() ==> #[trigger] w2[i] == w[i],
        forall|c: Seq<usize>| #[trigger] f.contains(c) ==> f2.contains(c),
    ensures
        covered_when(m, w2, f2, sel),
{
    assert forall|c: Seq<usize>| #![trigger search_face(m, c)] search_face(m, c) && sel(c) implies
        f2.contains(c) || (c.len() > 3 && exists|i: int| 0 <= i < w2.len() && #[trigger] is_prefix(w2[i], c)) by {
        if !f.contains(c) {
            let i = choose|i: int| 0 <= i < w.len() && #[trigger] is_prefix(w[i], c);
            assert(w2[i] == w[i]);
            assert(is_prefix(w2[i], c));
        }
    }
}

/// Coverage of more faces gives coverage of fewer.
proof fn lemma_covered_narrow(
    m: Seq<Seq<usize>>,
    w: Seq<Seq<usize>>,
    f: Seq<Seq<usize>>,
    sel: spec_fn(Seq<usize>) -> bool,
    sel2: spec_fn(Seq<usize>) -> bool,
)
    requires
        covered_when(m, w, f, sel),
        forall|c: Seq<usize>| #![trigger search_face(m, c)] search_face(m, c) && sel2(c) ==> sel(c),
    ensures
        covered_when(m, w, f, sel2),
{
}

/// The first three vertices of a reported face: a triangle is just them, and a longer face
/// begins with them, its first and third not adjacent.
proof fn lemma_face_start(m: Seq<Seq<usize>>, c: Seq<usize>)
    requires
        search_face(m, c),
    ensures
        adjacent(m, c[0] as int, c[1] as int),
        adjacent(m, c[1] as int, c[2] as int),
        c[1] < c[0] < c[2] < m.len(),
        c.len() == 3 ==> adjacent(m, c[2] as int, c[0] as int) && c == seq![c[0], c[1], c[2]],
        c.len() > 3 ==> !adjacent(m, c[0] as int, c[2] as int) && c.take(3) == seq![c[0], c[1], c[2]],
{
    assert(c[0] < m.len() && c[2] < m.len());
    assert(adjacent(m, c[0] as int, c[1] as int));
    assert(adjacent(m, c[1] as int, c[2] as int));
    assert(c[1] < c[0]);
    if c.len() == 3 {
        assert(c =~= seq![c[0], c[1], c[2]]);
    } else {
        assert(!adjacent(m, c[0] as int, c[2] as int));
        assert(c.take(3) =~= seq![c[0], c[1], c[2]]);
    }
}

/// The vertex after a beginning `p` of a reported face extends `p` the way the search does: it
/// is adjacent to the end of `p`, above its smallest vertex, not adjacent to its inner vertices,
/// and adjacent to its first vertex exactly when it closes the face.
proof fn lemma_next_vertex(m: Seq<Seq<usize>>, p: Seq<usize>, c: Seq<usize>)
    requires
        search_face(m, c),
        is_prefix(p, c),
        p.len() >= 3,
    ensures
        c[p.len() as int] < m.len(),
        adjacent(m, p[p.len() - 1] as int, c[p.len() as int] as int),
        p[1] < c[p.len() as int],
        forall|q: int| 1 <= q < p.len() - 1 ==> !adjacent(m, c[p.len() as int] as int, #[trigger] p[q] as int),
        adjacent(m, p[0] as int, c[p.len() as int] as int) == (c.len() == p.len() + 1),
        p.push(c[p.len() as int]) == c.take(p.len() as int + 1),
        c.len() == p.len() + 1 ==> p.push(c[p.len() as int]) == c,
{
    let k = p.len() as int;
    assert(p[k - 1] == c[k - 1]);
    assert(c[k] < m.len());
    assert(adjacent(m, c[k - 1] as int, c[k] as int));
    assert(p[1] == c[1]);
    assert forall|q: int| 1 <= q < k - 1 implies !adjacent(m, c[k] as int, #[trigger] p[q] as int) by {
        assert(p[q] == c[q]);
        assert(!adjacent(m, c[q] as int, c[k] as int));
    }
    assert(p[0] == c[0]);
    if c.len() == k + 1 {
        assert(adjacent(m, c[k] as int, c[0] as int));
        assert(p.push(c[k]) =~= c);
    } else {
        assert(!adjacent(m, c[0] as int, c[k] as int));
    }
    assert(p.push(c[k]) =~= c.take(k + 1));
}

/// Extending a walk by a vertex the search accepts gives a walk to extend further, or a
/// chordless cycle when the vertex is adjacent to the first one.
proof fn lemma_extend(m: Seq<Seq<usize>>, p: Seq<usize>, v: usize)
    requires
        super::super::distance::rows_wf(m),
        open_walk(m, p),
        v < m.len(),
        adjacent(m, p[p.len() - 1] as int, v as int),
        p[1] < v,
        forall|q: int| 1 <= q < p.len() - 1 ==> !adjacent(m, v as int, #[trigger] p[q] as int),
    ensures
        simple_walk(m, p.push(v)),
        from_smallest(p.push(v)),
        adjacent(m, p[0] as int, v as int) ==> graph_cycle(m, p.push(v)) && chordless(m, p.push(v)),
        !adjacent(m, p[0] as int, v as int) ==> open_walk(m, p.push(v)),
{
    let len = p.len() as int;
    let new = p.push(v);
    assert(m[v as int].len() == v + 1);
    assert forall|a: int| 0 <= a < len implies #[trigger] p[a] != v by {
        if a == 1 {
        } else if a == len - 1 {
            assert(entry(m, v as int, v as int) == 0);
        } else if a == 0 {
            assert(adjacent(m, p[0] as int, p[1] as int));
            assert(!adjacent(m, v as int, p[1] as int));
        } else {
            assert(adjacent(m, p[a - 1] as int, p[a] as int));
            assert(!adjacent(m, v as int, p[a - 1] as int));
        }
    }
    assert forall|a: int, b: int| 0 <= a < new.len() && 0 <= b < new.len() && a != b implies new[a] != new[b] by {
        if a < len && b < len {
            assert(new[a] == p[a] && new[b] == p[b]);
        } else if a < len {
            assert(new[a] == p[a]);
        } else {
            assert(new[b] == p[b]);
        }
    }
    assert forall|i: int| 0 <= i < new.len() implies #[trigger] new[i] < m.len() by {
        if i < len {
            assert(new[i] == p[i]);
        }
    }
    assert forall|a: int, b: int| 0 <= a < new.len() && b == a + 1 && b < new.len() implies #[trigger] adjacent(m, new[a] as int, new[b] as int) by {
        if b < len {
            assert(new[a] == p[a] && new[b] == p[b]);
        } else {
            assert(new[a] == p[len - 1]);
        }
    }
    assert(simple_walk(m, new));
    assert forall|i: int| 0 <= i < new.len() && i != 1 implies new[1] < #[trigger] new[i] by {
        if i < len {
            assert(new[i] == p[i]);
        }
    }
    assert(from_smallest(new)) by {
        assert(new[0] == p[0] && new[1] == p[1] && new[2] == p[2]);
    }
    assert forall|a: int, b: int| 0 <= a && a + 1 < b < new.len() && !(a == 0 && b == new.len() - 1)
        implies !#[trigger] adjacent(m, new[a] as int, new[b] as int) by {
        assert(new[a] == p[a]);
        if b < len {
            assert(new[b] == p[b]);
            if a == 0 && b == len - 1 {
            } else {
                assert(!adjacent(m, p[a] as int, p[b] as int));
            }
        } else {
            assert(new[b] == v);
            assert(1 <= a < len - 1);
            assert(!adjacent(m, v as int, p[a] as int));
        }
    }
    if !adjacent(m, p[0] as int, v as int) {
        assert(new[0] == p[0] && new[new.len() - 1] == v);
        assert(chordless(m, new));
    } else {
        assert(new[0] == p[0] && new[new.len() - 1] == v);
        assert(chordless(m, new));
    }
}

/// A copy of a walk.
fn copy_walk(w: &Vec<VertexId>) -> (r: Vec<VertexId>)
    ensures
        r@ == w@,
{
    let mut r: Vec<VertexId> = Vec::new();
    let mut i: usize = 0;
    while i < w.len()
        invariant
            i <= w@.len(),
            r@ == w@.take(i as int),
        decreases w@.len() - i,
    {
        r.push(w[i]);
        i += 1;
        assert(r@ =~= w@.take(i as int));
    }
    assert(w@.take(i as int) =~= w@);
    r
}

/// Appending walks of one length adds their weights.
proof fn lemma_potential_append(base: Seq<Seq<usize>>, extra: Seq<Seq<usize>>, n: nat, l: nat)
    requires
        forall|q: int| 0 <= q < extra.len() ==> (#[trigger] extra[q]).len() == l,
    ensures
        potential(base + extra, n) == potential(base, n) + extra.len() * pw(n + 1, (n + 1 - l) as nat),
    decreases extra.len(),
{
    if extra.len() == 0 {
        assert(base + extra =~= base);
    } else {
        let e = extra.drop_last();
        lemma_potential_append(base, e, n, l);
        assert((base + extra).drop_last() =~= base + e);
        assert((base + extra).last() == extra.last());
        assert(extra.len() * pw(n + 1, (n + 1 - l) as nat) == e.len() * pw(n + 1, (n + 1 - l) as nat) + pw(n + 1, (n + 1 - l) as nat)) by (nonlinear_arith)
            requires extra.len() == e.len() + 1;
    }
}

/// Replacing a walk of length `l <= n` by at most `n` walks one longer lowers the potential.
proof fn lemma_potential_step(n: nat, l: nat, k: nat)
    requires
        1 <= l <= n,
        k <= n,
    ensures
        k * pw(n + 1, (n - l) as nat) < pw(n + 1, (n + 1 - l) as nat),
{
    let e = (n - l) as nat;
    assert(pw(n + 1, (e + 1) as nat) == (n + 1) * pw(n + 1, e));
    assert((n + 1 - l) as nat == e + 1);
    lemma_pw_positive(n + 1, e);
    assert(k * pw(n + 1, e) < (n + 1) * pw(n + 1, e)) by (nonlinear_arith)
        requires k <= n, pw(n + 1, e) > 0;
}

proof fn lemma_pw_positive(b: nat, e: nat)
    requires
        b > 0,
    ensures
        pw(b, e) > 0,
    decreases e,
{
    if e > 0 {
        lemma_pw_positive(b, (e - 1) as nat);
        assert(b * pw(b, (e - 1) as nat) > 0) by (nonlinear_arith)
            requires b > 0, pw(b, (e - 1) as nat) > 0;
    }
}

impl Cycles {
    /// Rediscovers faces from the distance matrix, minting fresh ids from `next_face_id` on.
    /// Should the ids run past `usize::MAX`, no face is kept and no id minted.
    pub fn discover(distance: &Distance, next_face_id: &mut FaceId) -> (r: Cycles)
        requires
            distance.wf(),
            pairs(distance@, PairFilter::Edges).len() + 2 <= i64::MAX,
            distance@.len() <= i64::MAX,
        ensures
            r.wf(),
            discovered(distance@, *old(next_face_id), *final(next_face_id), r.faces(), r.face_ids()),
    {
        let raw = chordless_cycles(distance);
        let ghost rv = views(raw@);
        let start = *next_face_id;
        if raw.len() > usize::MAX - start {
            let r = Cycles::new(Vec::new(), Vec::new());
            proof {
                assert(r.faces() =~= Seq::<Seq<VertexId>>::empty());
                assert(rv.len() == raw@.len());
            }
            return r;
        }
        let mut ids: Vec<FaceId> = Vec::new();
        let mut i: usize = 0;
        while i < raw.len()
            invariant
                start + raw@.len() <= usize::MAX,
                i <= raw@.len(),
                *next_face_id == start + i,
                ids@ == Seq::new(i as nat, |k: int| (start + k) as usize),
            decreases raw@.len() - i,
        {
            ids.push(*next_face_id);
            *next_face_id += 1;
            i += 1;
            assert(ids@ =~= Seq::new(i as nat, |k: int| (start + k) as usize));
        }
        let mut cycles = Cycles::new(raw, ids);
        cycles.sort();
        proof {
            assert(rv.len() == ids@.len());
            assert forall|k: int| 0 <= k < rv.len() implies #[trigger] search_face(distance@, rv[k]) by {
                assert(rv[k] == raw@[k]@);
            }
        }
        cycles
    }
}

} // verus!
