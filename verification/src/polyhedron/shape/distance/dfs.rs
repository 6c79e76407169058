use vstd::prelude::*;
use super::{Distance, adjacent, entry, neighbors_upto, lemma_neighbors_upto};

verus! {

/// Times and tree links recorded by a depth-first search.
#[derive(Debug)]
pub struct DfsResult {
    pub discovery_time: Vec<Option<usize>>,
    pub lowpoint: Vec<Option<usize>>,
    pub finish_time: Vec<Option<usize>>,
    pub parent: Vec<Option<usize>>,
}

/// Number of entries not yet set.
pub open spec fn count_none(s: Seq<Option<usize>>) -> nat
    decreases s.len(),
{
    if s.len() == 0 {
        0
    } else {
        count_none(s.drop_last()) + if s.last() is None { 1nat } else { 0nat }
    }
}

/// Setting entries only ever lowers the count, and setting a new one lowers it strictly.
proof fn lemma_count_none(s: Seq<Option<usize>>, t: Seq<Option<usize>>)
    requires
        s.len() == t.len(),
        forall|i: int| 0 <= i < s.len() && s[i] is Some ==> #[trigger] t[i] is Some,
    ensures
        count_none(t) <= count_none(s),
        (exists|i: int| 0 <= i < s.len() && s[i] is None && #[trigger] t[i] is Some) ==> count_none(t) < count_none(s),
        count_none(s) <= s.len(),
    decreases s.len(),
{
    if s.len() > 0 {
        let n = s.len() - 1;
        assert forall|i: int| 0 <= i < n && s.drop_last()[i] is Some implies #[trigger] t.drop_last()[i] is Some by {
            assert(s[i] is Some);
        }
        lemma_count_none(s.drop_last(), t.drop_last());
        assert(t[n] == t.last());
        if exists|i: int| 0 <= i < s.len() && s[i] is None && #[trigger] t[i] is Some {
            let i = choose|i: int| 0 <= i < s.len() && s[i] is None && #[trigger] t[i] is Some;
            if i < n {
                assert(s.drop_last()[i] is None && t.drop_last()[i] is Some);
            }
        }
    }
}

/// Every entry set.
proof fn lemma_count_none_zero(s: Seq<Option<usize>>)
    requires
        forall|i: int| 0 <= i < s.len() ==> #[trigger] s[i] is Some,
    ensures
        count_none(s) == 0,
    decreases s.len(),
{
    if s.len() > 0 {
        assert forall|i: int| 0 <= i < s.len() - 1 implies #[trigger] s.drop_last()[i] is Some by {
            assert(s[i] is Some);
        }
        lemma_count_none_zero(s.drop_last());
    }
}

/// No entry set.
proof fn lemma_count_none_all(n: nat)
    ensures
        count_none(Seq::new(n, |i: int| None::<usize>)) == n,
    decreases n,
{
    if n > 0 {
        lemma_count_none_all((n - 1) as nat);
        assert(Seq::new(n, |i: int| None::<usize>).drop_last() =~= Seq::new((n - 1) as nat, |i: int| None::<usize>));
    }
}

impl DfsResult {
    /// All four tables hold `n` entries.
    pub open spec fn sized(&self, n: nat) -> bool {
        &&& self.discovery_time@.len() == n
        &&& self.lowpoint@.len() == n
        &&& self.finish_time@.len() == n
        &&& self.parent@.len() == n
    }

    /// Discovery time of `w`.
    pub open spec fn d(&self, w: int) -> Option<usize> {
        self.discovery_time@[w]
    }

    /// Finish time of `w`.
    pub open spec fn f(&self, w: int) -> Option<usize> {
        self.finish_time@[w]
    }

    /// Lowpoint of `w`.
    pub open spec fn l(&self, w: int) -> Option<usize> {
        self.lowpoint@[w]
    }

    /// Tree parent of `w`.
    pub open spec fn p(&self, w: int) -> Option<usize> {
        self.parent@[w]
    }

    /// The recorded times lie in `1..=t`, each discovery before its finish, no two equal, and
    /// two spans from discovery to finish are nested or disjoint; a recorded parent is discovered.
    pub open spec fn consistent(&self, n: nat, t: nat) -> bool {
        &&& forall|x: int| 0 <= x < n && #[trigger] self.d(x) is Some ==> 1 <= self.d(x)->0 <= t
        &&& forall|x: int| 0 <= x < n && #[trigger] self.f(x) is Some ==> self.d(x) is Some && self.d(x)->0 < self.f(x)->0 <= t
        &&& forall|x: int, y: int| #![trigger self.d(x), self.d(y)]
            0 <= x < n && 0 <= y < n && x != y && self.d(x) is Some && self.d(y) is Some ==> self.d(x)->0 != self.d(y)->0
        &&& forall|x: int, y: int| #![trigger self.f(x), self.f(y)]
            0 <= x < n && 0 <= y < n && x != y && self.f(x) is Some && self.f(y) is Some ==> self.f(x)->0 != self.f(y)->0
        &&& forall|x: int, y: int| #![trigger self.d(x), self.f(y)]
            0 <= x < n && 0 <= y < n && self.d(x) is Some && self.f(y) is Some ==> self.d(x)->0 != self.f(y)->0
        &&& forall|x: int, y: int| #![trigger self.f(x), self.d(y)]
            0 <= x < n && 0 <= y < n && self.f(x) is Some && self.d(y) is Some && self.d(x)->0 < self.d(y)->0
            ==> self.f(x)->0 < self.d(y)->0 || (self.f(y) is Some && self.f(y)->0 < self.f(x)->0)
        &&& forall|x: int| 0 <= x < n && #[trigger] self.p(x) is Some ==> self.p(x)->0 < n && self.d(self.p(x)->0 as int) is Some
    }

    /// `b` keeps every time recorded here and records new ones only after `t`, keeps the lowpoint
    /// and parent of every finished vertex, and hands out no new child to a finished vertex.
    pub open spec fn extended_by(&self, b: &DfsResult, n: nat, t: nat) -> bool {
        &&& b.sized(n)
        &&& forall|x: int| #![trigger b.d(x)] 0 <= x < n ==> {
            &&& self.d(x) is Some ==> b.d(x) == self.d(x)
            &&& self.d(x) is None && b.d(x) is Some ==> b.d(x)->0 > t
        }
        &&& forall|x: int| #![trigger b.f(x)] 0 <= x < n ==> {
            &&& self.f(x) is Some ==> b.f(x) == self.f(x) && b.l(x) == self.l(x) && b.p(x) == self.p(x)
            &&& self.f(x) is None && b.f(x) is Some ==> b.f(x)->0 > t
        }
        &&& forall|c: int| #![trigger b.p(c)] 0 <= c < n && b.p(c) is Some && b.p(c) != self.p(c)
            ==> b.p(c)->0 < n && self.f(b.p(c)->0 as int) is None
    }

    /// Vertex `w` is discovered and finished by `time`, with `low <= discovery < finish`, and the
    /// search that did so runs as a depth-first search taking vertices in ascending order:
    /// - a tree parent is a neighbor whose span holds that of `w` with no other span in between,
    ///   and whose smaller neighbors were all discovered before `w`;
    /// - a root follows the discovery of every smaller vertex and lies in no other span;
    /// - every neighbor is discovered before `w` finishes;
    /// - the lowpoint is the least of the discovery time of `w`, of the discovery times of the
    ///   neighbors whose spans hold that of `w`, and of the lowpoints of its tree children.
    #[verifier::opaque]
    pub open spec fn settled(&self, m: Seq<Seq<usize>>, w: int, time: nat) -> bool {
        let dw = self.d(w)->0;
        let fw = self.f(w)->0;
        let lw = self.l(w)->0;
        &&& self.d(w) is Some
        &&& self.l(w) is Some
        &&& self.f(w) is Some
        &&& 1 <= dw
        &&& lw <= dw
        &&& dw < fw
        &&& fw <= time
        &&& match self.p(w) {
            Some(pu) => {
                let p = pu as int;
                &&& adjacent(m, p, w)
                &&& self.d(p) is Some
                &&& self.d(p)->0 < dw
                &&& (self.f(p) is None || fw < self.f(p)->0)
                &&& forall|x: int| #![trigger adjacent(m, p, x)] adjacent(m, p, x) && x < w ==> self.d(x) is Some && self.d(x)->0 < dw
                &&& forall|y: int| #![trigger self.d(y)]
                    0 <= y < m.len() && self.d(y) is Some && self.d(p)->0 < self.d(y)->0 && self.d(y)->0 < dw
                    ==> self.f(y) is Some && self.f(y)->0 < dw
            },
            None => {
                &&& forall|x: int| #![trigger self.d(x)] 0 <= x < w ==> self.d(x) is Some && self.d(x)->0 < dw
                &&& forall|y: int| #![trigger self.d(y)]
                    0 <= y < m.len() && self.d(y) is Some && self.d(y)->0 < dw ==> self.f(y) is Some && self.f(y)->0 < dw
            },
        }
        &&& forall|x: int| #![trigger adjacent(m, w, x)] adjacent(m, w, x) ==> self.d(x) is Some && self.d(x)->0 < fw
        &&& forall|x: int| #![trigger adjacent(m, w, x)]
            adjacent(m, w, x) && self.d(x) is Some && self.d(x)->0 < dw && (self.f(x) is None || fw < self.f(x)->0)
            ==> lw <= self.d(x)->0
        &&& forall|c: int| #![trigger self.p(c)]
            0 <= c < m.len() && self.p(c) == Some(w as usize) ==> self.f(c) is Some && self.l(c) is Some && lw <= self.l(c)->0
        &&& lw == dw
            || (exists|x: int| #![trigger adjacent(m, w, x)]
                adjacent(m, w, x) && self.d(x) is Some && self.d(x)->0 < dw && (self.f(x) is None || fw < self.f(x)->0) && lw == self.d(x)->0)
            || (exists|c: int| #![trigger self.p(c)] 0 <= c < m.len() && self.p(c) == Some(w as usize) && self.l(c) == Some(lw))
    }

    /// Entry `w` of every table is the same in both results.
    pub open spec fn same_at(&self, other: &DfsResult, w: int) -> bool {
        &&& self.discovery_time@[w] == other.discovery_time@[w]
        &&& self.lowpoint@[w] == other.lowpoint@[w]
        &&& self.finish_time@[w] == other.finish_time@[w]
        &&& self.parent@[w] == other.parent@[w]
    }

    /// Extensions compose.
    proof fn lemma_extend_trans(a: DfsResult, b: DfsResult, c: DfsResult, n: nat, t1: nat, t2: nat)
        requires
            a.sized(n),
            a.extended_by(&b, n, t1),
            b.extended_by(&c, n, t2),
            t1 <= t2,
        ensures
            a.extended_by(&c, n, t1),
    {
        assert forall|x: int| #![trigger c.d(x)] 0 <= x < n implies {
            &&& a.d(x) is Some ==> c.d(x) == a.d(x)
            &&& a.d(x) is None && c.d(x) is Some ==> c.d(x)->0 > t1
        } by {
            assert(b.d(x) == b.d(x));
        }
        assert forall|x: int| #![trigger c.f(x)] 0 <= x < n implies {
            &&& a.f(x) is Some ==> c.f(x) == a.f(x) && c.l(x) == a.l(x) && c.p(x) == a.p(x)
            &&& a.f(x) is None && c.f(x) is Some ==> c.f(x)->0 > t1
        } by {
            assert(b.f(x) == b.f(x));
        }
        assert forall|x: int| #![trigger c.p(x)] 0 <= x < n && c.p(x) is Some && c.p(x) != a.p(x) implies c.p(x)->0 < n && a.f(c.p(x)->0 as int) is None by {
            let w = c.p(x)->0 as int;
            if c.p(x) != b.p(x) {
                assert(b.f(w) is None);
                assert(0 <= w < n);
                assert(b.f(w) == b.f(w));
            } else {
                assert(b.p(x) != a.p(x));
            }
        }
    }

    /// A settled vertex stays settled as the search goes on.
    pub proof fn lemma_settled_frame(a: DfsResult, b: DfsResult, m: Seq<Seq<usize>>, w: int, t1: nat, t2: nat)
        requires
            a.sized(m.len()),
            m.len() <= usize::MAX,
            0 <= w < m.len(),
            a.settled(m, w, t1),
            a.extended_by(&b, m.len(), t1),
            t1 <= t2,
        ensures
            b.settled(m, w, t2),
    {
        reveal(DfsResult::settled);
        let n = m.len();
        assert(b.f(w) == a.f(w));
        assert(b.d(w) == a.d(w));
        let dw = a.d(w)->0;
        let fw = a.f(w)->0;
        match a.p(w) {
            Some(pu) => {
                let p = pu as int;
                assert(0 <= p < n);
                assert(b.d(p) == a.d(p));
                assert(b.f(p) == b.f(p));
                assert forall|x: int| #![trigger adjacent(m, p, x)] adjacent(m, p, x) && x < w implies b.d(x) is Some && b.d(x)->0 < dw by {
                    assert(b.d(x) == b.d(x));
                }
                assert forall|y: int| #![trigger b.d(y)]
                    0 <= y < m.len() && b.d(y) is Some && b.d(p)->0 < b.d(y)->0 && b.d(y)->0 < dw
                    implies b.f(y) is Some && b.f(y)->0 < dw by {
                    if a.d(y) is None {
                        assert(b.d(y)->0 > t1);
                    } else {
                        assert(a.d(y) is Some);
                        assert(b.f(y) == b.f(y));
                    }
                }
            },
            None => {
                assert forall|x: int| #![trigger b.d(x)] 0 <= x < w implies b.d(x) is Some && b.d(x)->0 < dw by {
                    assert(a.d(x) is Some);
                }
                assert forall|y: int| #![trigger b.d(y)]
                    0 <= y < m.len() && b.d(y) is Some && b.d(y)->0 < dw implies b.f(y) is Some && b.f(y)->0 < dw by {
                    if a.d(y) is None {
                        assert(b.d(y)->0 > t1);
                    } else {
                        assert(a.d(y) is Some);
                        assert(b.f(y) == b.f(y));
                    }
                }
            },
        }
        assert forall|x: int| #![trigger adjacent(m, w, x)] adjacent(m, w, x) implies b.d(x) is Some && b.d(x)->0 < fw by {
            assert(b.d(x) == b.d(x));
        }
        assert forall|x: int| #![trigger adjacent(m, w, x)]
            adjacent(m, w, x) && b.d(x) is Some && b.d(x)->0 < dw && (b.f(x) is None || fw < b.f(x)->0)
            implies b.l(w)->0 <= b.d(x)->0 by {
            assert(0 <= x < n);
            if a.d(x) is None {
                assert(b.d(x)->0 > t1);
            } else {
                assert(b.f(x) == b.f(x));
            }
        }
        assert forall|c: int| #![trigger b.p(c)]
            0 <= c < m.len() && b.p(c) == Some(w as usize) implies b.f(c) is Some && b.l(c) is Some && b.l(w)->0 <= b.l(c)->0 by {
            if b.p(c) != a.p(c) {
                assert(a.f(w) is None);
            } else {
                assert(a.p(c) == Some(w as usize));
                assert(b.f(c) == b.f(c));
            }
        }
        let lw = a.l(w)->0;
        if lw != dw {
            if exists|x: int| #![trigger adjacent(m, w, x)]
                adjacent(m, w, x) && a.d(x) is Some && a.d(x)->0 < dw && (a.f(x) is None || fw < a.f(x)->0) && lw == a.d(x)->0 {
                let x = choose|x: int| #![trigger adjacent(m, w, x)]
                    adjacent(m, w, x) && a.d(x) is Some && a.d(x)->0 < dw && (a.f(x) is None || fw < a.f(x)->0) && lw == a.d(x)->0;
                assert(0 <= x < n);
                assert(b.d(x) == b.d(x));
                assert(b.f(x) == b.f(x));
                assert(adjacent(m, w, x) && b.d(x) is Some && b.d(x)->0 < dw && (b.f(x) is None || fw < b.f(x)->0) && lw == b.d(x)->0);
            } else {
                let c = choose|c: int| #![trigger a.p(c)] 0 <= c < m.len() && a.p(c) == Some(w as usize) && a.l(c) == Some(lw);
                assert(a.f(c) is Some);
                assert(b.f(c) == b.f(c));
                assert(0 <= c < m.len() && b.p(c) == Some(w as usize) && b.l(c) == Some(lw));
            }
        }
    }

    /// What a settled entry tells about itself.
    pub proof fn lemma_settled_facts(a: DfsResult, m: Seq<Seq<usize>>, w: int, t: nat)
        requires
            a.settled(m, w, t),
        ensures
            a.d(w) is Some,
            a.l(w) is Some,
            a.f(w) is Some,
            1 <= a.d(w)->0 < a.f(w)->0 <= t,
            a.l(w)->0 <= a.d(w)->0,
    {
        reveal(DfsResult::settled);
    }

    fn new(num_vertices: usize) -> (r: Self)
        ensures
            r.sized(num_vertices as nat),
            r.discovery_time@ == Seq::new(num_vertices as nat, |i: int| None::<usize>),
            forall|i: int| 0 <= i < num_vertices ==> #[trigger] r.d(i) is None,
            forall|i: int| 0 <= i < num_vertices ==> #[trigger] r.f(i) is None,
            forall|i: int| 0 <= i < num_vertices ==> #[trigger] r.l(i) is None,
            forall|i: int| 0 <= i < num_vertices ==> #[trigger] r.p(i) is None,
    {
        let mut discovery_time: Vec<Option<usize>> = Vec::new();
        let mut lowpoint: Vec<Option<usize>> = Vec::new();
        let mut finish_time: Vec<Option<usize>> = Vec::new();
        let mut parent: Vec<Option<usize>> = Vec::new();
        let mut i: usize = 0;
        while i < num_vertices
            invariant
                i <= num_vertices,
                discovery_time@ == Seq::new(i as nat, |k: int| None::<usize>),
                lowpoint@ == Seq::new(i as nat, |k: int| None::<usize>),
                finish_time@ == Seq::new(i as nat, |k: int| None::<usize>),
                parent@ == Seq::new(i as nat, |k: int| None::<usize>),
            decreases num_vertices - i,
        {
            discovery_time.push(None);
            lowpoint.push(None);
            finish_time.push(None);
            parent.push(None);
            i += 1;
            assert(discovery_time@ =~= Seq::new(i as nat, |k: int| None::<usize>));
            assert(lowpoint@ =~= Seq::new(i as nat, |k: int| None::<usize>));
            assert(finish_time@ =~= Seq::new(i as nat, |k: int| None::<usize>));
            assert(parent@ =~= Seq::new(i as nat, |k: int| None::<usize>));
        }
        DfsResult { discovery_time, lowpoint, finish_time, parent }
    }
}

impl DfsResult {
    /// Recording the discovery of `u` right after `t`.
    proof fn lemma_discover(a: DfsResult, r: DfsResult, n: nat, t: nat, u: int)
        requires
            a.sized(n),
            r.sized(n),
            a.consistent(n, t),
            0 <= u < n,
            a.d(u) is None,
            r.d(u) == Some((t + 1) as usize),
            t + 1 <= usize::MAX,
            forall|x: int| 0 <= x < n && x != u ==> #[trigger] r.d(x) == a.d(x),
            forall|x: int| 0 <= x < n && x != u ==> #[trigger] r.l(x) == a.l(x),
            forall|x: int| 0 <= x < n ==> #[trigger] r.f(x) == a.f(x),
            forall|x: int| 0 <= x < n ==> #[trigger] r.p(x) == a.p(x),
        ensures
            r.consistent(n, t + 1),
            a.extended_by(&r, n, t),
    {
        assert(a.f(u) is None);
        assert forall|x: int| 0 <= x < n && #[trigger] r.f(x) is Some implies r.d(x) is Some && r.d(x)->0 < r.f(x)->0 <= t + 1 by {
            assert(a.f(x) is Some);
        }
        assert forall|x: int, y: int| #![trigger r.f(x), r.d(y)]
            0 <= x < n && 0 <= y < n && r.f(x) is Some && r.d(y) is Some && r.d(x)->0 < r.d(y)->0
            implies r.f(x)->0 < r.d(y)->0 || (r.f(y) is Some && r.f(y)->0 < r.f(x)->0) by {
            assert(a.f(x) is Some);
            if y != u {
                assert(a.d(y) is Some);
            }
        }
        assert forall|x: int| 0 <= x < n && #[trigger] r.p(x) is Some implies r.p(x)->0 < n && r.d(r.p(x)->0 as int) is Some by {
            assert(a.p(x) is Some);
        }
        assert forall|x: int| #![trigger r.d(x)] 0 <= x < n implies {
            &&& a.d(x) is Some ==> r.d(x) == a.d(x)
            &&& a.d(x) is None && r.d(x) is Some ==> r.d(x)->0 > t
        } by {}
        assert forall|x: int| #![trigger r.f(x)] 0 <= x < n implies {
            &&& a.f(x) is Some ==> r.f(x) == a.f(x) && r.l(x) == a.l(x) && r.p(x) == a.p(x)
            &&& a.f(x) is None && r.f(x) is Some ==> r.f(x)->0 > t
        } by {
            if a.f(x) is Some {
                assert(x != u);
            }
        }
    }

    /// Recording the finish of `u` right after `t`, once every vertex discovered after it is finished.
    proof fn lemma_finish(a: DfsResult, r: DfsResult, n: nat, t: nat, u: int)
        requires
            a.sized(n),
            r.sized(n),
            a.consistent(n, t),
            0 <= u < n,
            a.d(u) is Some,
            a.f(u) is None,
            r.f(u) == Some((t + 1) as usize),
            t + 1 <= usize::MAX,
            forall|y: int| 0 <= y < n && #[trigger] a.d(y) is Some && a.d(u)->0 < a.d(y)->0 ==> a.f(y) is Some,
            forall|x: int| 0 <= x < n && x != u ==> #[trigger] r.f(x) == a.f(x),
            forall|x: int| 0 <= x < n ==> #[trigger] r.d(x) == a.d(x),
            forall|x: int| 0 <= x < n ==> #[trigger] r.l(x) == a.l(x),
            forall|x: int| 0 <= x < n ==> #[trigger] r.p(x) == a.p(x),
        ensures
            r.consistent(n, t + 1),
            a.extended_by(&r, n, t),
    {
        assert forall|x: int| 0 <= x < n && #[trigger] r.d(x) is Some implies 1 <= r.d(x)->0 <= t + 1 by {
            assert(a.d(x) is Some);
        }
        assert forall|x: int| 0 <= x < n && #[trigger] r.f(x) is Some implies r.d(x) is Some && r.d(x)->0 < r.f(x)->0 <= t + 1 by {
            assert(r.d(x) == a.d(x));
            if x != u {
                assert(a.f(x) is Some);
            }
        }
        assert forall|x: int, y: int| #![trigger r.d(x), r.d(y)]
            0 <= x < n && 0 <= y < n && x != y && r.d(x) is Some && r.d(y) is Some implies r.d(x)->0 != r.d(y)->0 by {
            assert(a.d(x) is Some && a.d(y) is Some);
        }
        assert forall|x: int, y: int| #![trigger r.f(x), r.f(y)]
            0 <= x < n && 0 <= y < n && x != y && r.f(x) is Some && r.f(y) is Some implies r.f(x)->0 != r.f(y)->0 by {
            if x != u && y != u {
                assert(a.f(x) is Some && a.f(y) is Some);
            } else if x == u {
                assert(a.f(y) is Some);
            } else {
                assert(a.f(x) is Some);
            }
        }
        assert forall|x: int, y: int| #![trigger r.d(x), r.f(y)]
            0 <= x < n && 0 <= y < n && r.d(x) is Some && r.f(y) is Some implies r.d(x)->0 != r.f(y)->0 by {
            assert(a.d(x) is Some);
            if y != u {
                assert(a.f(y) is Some);
            }
        }
        assert forall|x: int, y: int| #![trigger r.f(x), r.d(y)]
            0 <= x < n && 0 <= y < n && r.f(x) is Some && r.d(y) is Some && r.d(x)->0 < r.d(y)->0
            implies r.f(x)->0 < r.d(y)->0 || (r.f(y) is Some && r.f(y)->0 < r.f(x)->0) by {
            assert(a.d(x) is Some && a.d(y) is Some);
            if x == u {
                assert(a.f(y) is Some);
                if y != u {
                    assert(r.f(y) == a.f(y));
                }
            } else {
                assert(a.f(x) is Some);
                if y == u {
                    assert(a.f(x)->0 < a.d(u)->0 || (a.f(u) is Some && a.f(u)->0 < a.f(x)->0));
                } else {
                    assert(r.f(y) == a.f(y));
                }
            }
        }
        assert forall|x: int| 0 <= x < n && #[trigger] r.p(x) is Some implies r.p(x)->0 < n && r.d(r.p(x)->0 as int) is Some by {
            assert(a.p(x) is Some);
        }
        assert forall|x: int| #![trigger r.d(x)] 0 <= x < n implies {
            &&& a.d(x) is Some ==> r.d(x) == a.d(x)
            &&& a.d(x) is None && r.d(x) is Some ==> r.d(x)->0 > t
        } by {}
        assert forall|x: int| #![trigger r.f(x)] 0 <= x < n implies {
            &&& a.f(x) is Some ==> r.f(x) == a.f(x) && r.l(x) == a.l(x) && r.p(x) == a.p(x)
            &&& a.f(x) is None && r.f(x) is Some ==> r.f(x)->0 > t
        } by {
            if x != u {
                assert(r.f(x) == a.f(x));
            }
        }
        assert forall|c: int| #![trigger r.p(c)] 0 <= c < n && r.p(c) is Some && r.p(c) != a.p(c) implies r.p(c)->0 < n && a.f(r.p(c)->0 as int) is None by {
            assert(r.p(c) == a.p(c));
        }
    }

    /// Recording `u` as the tree parent of the undiscovered `v`.
    proof fn lemma_set_parent(a: DfsResult, r: DfsResult, n: nat, t: nat, v: int, u: int)
        requires
            a.sized(n),
            r.sized(n),
            a.consistent(n, t),
            n <= usize::MAX,
            0 <= v < n,
            0 <= u < n,
            a.d(v) is None,
            a.d(u) is Some,
            a.f(u) is None,
            r.p(v) == Some(u as usize),
            forall|x: int| 0 <= x < n && x != v ==> #[trigger] r.p(x) == a.p(x),
            forall|x: int| 0 <= x < n ==> #[trigger] r.d(x) == a.d(x),
            forall|x: int| 0 <= x < n ==> #[trigger] r.f(x) == a.f(x),
            forall|x: int| 0 <= x < n ==> #[trigger] r.l(x) == a.l(x),
        ensures
            r.consistent(n, t),
            a.extended_by(&r, n, t),
    {
        assert forall|x: int| 0 <= x < n && #[trigger] r.d(x) is Some implies 1 <= r.d(x)->0 <= t by {
            assert(a.d(x) is Some);
        }
        assert forall|x: int| 0 <= x < n && #[trigger] r.f(x) is Some implies r.d(x) is Some && r.d(x)->0 < r.f(x)->0 <= t by {
            assert(a.f(x) is Some);
            assert(r.d(x) == a.d(x));
        }
        assert forall|x: int, y: int| #![trigger r.d(x), r.d(y)]
            0 <= x < n && 0 <= y < n && x != y && r.d(x) is Some && r.d(y) is Some implies r.d(x)->0 != r.d(y)->0 by {
            assert(a.d(x) is Some && a.d(y) is Some);
        }
        assert forall|x: int, y: int| #![trigger r.f(x), r.f(y)]
            0 <= x < n && 0 <= y < n && x != y && r.f(x) is Some && r.f(y) is Some implies r.f(x)->0 != r.f(y)->0 by {
            assert(a.f(x) is Some && a.f(y) is Some);
        }
        assert forall|x: int, y: int| #![trigger r.d(x), r.f(y)]
            0 <= x < n && 0 <= y < n && r.d(x) is Some && r.f(y) is Some implies r.d(x)->0 != r.f(y)->0 by {
            assert(a.d(x) is Some && a.f(y) is Some);
        }
        assert forall|x: int, y: int| #![trigger r.f(x), r.d(y)]
            0 <= x < n && 0 <= y < n && r.f(x) is Some && r.d(y) is Some && r.d(x)->0 < r.d(y)->0
            implies r.f(x)->0 < r.d(y)->0 || (r.f(y) is Some && r.f(y)->0 < r.f(x)->0) by {
            assert(a.f(x) is Some && a.d(y) is Some);
            assert(r.d(x) == a.d(x) && r.f(y) == a.f(y));
        }
        assert forall|x: int| 0 <= x < n && #[trigger] r.p(x) is Some implies r.p(x)->0 < n && r.d(r.p(x)->0 as int) is Some by {
            if x != v {
                assert(a.p(x) is Some);
            }
        }
        assert forall|x: int| #![trigger r.f(x)] 0 <= x < n implies {
            &&& a.f(x) is Some ==> r.f(x) == a.f(x) && r.l(x) == a.l(x) && r.p(x) == a.p(x)
            &&& a.f(x) is None && r.f(x) is Some ==> r.f(x)->0 > t
        } by {
            if a.f(x) is Some {
                assert(a.d(x) is Some);
                assert(x != v);
            }
        }
        assert forall|c: int| #![trigger r.p(c)] 0 <= c < n && r.p(c) is Some && r.p(c) != a.p(c) implies r.p(c)->0 < n && a.f(r.p(c)->0 as int) is None by {
            assert(c == v);
        }
    }

    /// Changing the lowpoint of the unfinished `u`.
    proof fn lemma_set_low(a: DfsResult, r: DfsResult, n: nat, t: nat, u: int)
        requires
            a.sized(n),
            r.sized(n),
            a.consistent(n, t),
            0 <= u < n,
            a.f(u) is None,
            forall|x: int| 0 <= x < n && x != u ==> #[trigger] r.l(x) == a.l(x),
            forall|x: int| 0 <= x < n ==> #[trigger] r.d(x) == a.d(x),
            forall|x: int| 0 <= x < n ==> #[trigger] r.f(x) == a.f(x),
            forall|x: int| 0 <= x < n ==> #[trigger] r.p(x) == a.p(x),
        ensures
            r.consistent(n, t),
            a.extended_by(&r, n, t),
    {
        assert forall|x: int| 0 <= x < n && #[trigger] r.d(x) is Some implies 1 <= r.d(x)->0 <= t by {
            assert(a.d(x) is Some);
        }
        assert forall|x: int| 0 <= x < n && #[trigger] r.f(x) is Some implies r.d(x) is Some && r.d(x)->0 < r.f(x)->0 <= t by {
            assert(a.f(x) is Some);
            assert(r.d(x) == a.d(x));
        }
        assert forall|x: int, y: int| #![trigger r.d(x), r.d(y)]
            0 <= x < n && 0 <= y < n && x != y && r.d(x) is Some && r.d(y) is Some implies r.d(x)->0 != r.d(y)->0 by {
            assert(a.d(x) is Some && a.d(y) is Some);
        }
        assert forall|x: int, y: int| #![trigger r.f(x), r.f(y)]
            0 <= x < n && 0 <= y < n && x != y && r.f(x) is Some && r.f(y) is Some implies r.f(x)->0 != r.f(y)->0 by {
            assert(a.f(x) is Some && a.f(y) is Some);
        }
        assert forall|x: int, y: int| #![trigger r.d(x), r.f(y)]
            0 <= x < n && 0 <= y < n && r.d(x) is Some && r.f(y) is Some implies r.d(x)->0 != r.f(y)->0 by {
            assert(a.d(x) is Some && a.f(y) is Some);
        }
        assert forall|x: int, y: int| #![trigger r.f(x), r.d(y)]
            0 <= x < n && 0 <= y < n && r.f(x) is Some && r.d(y) is Some && r.d(x)->0 < r.d(y)->0
            implies r.f(x)->0 < r.d(y)->0 || (r.f(y) is Some && r.f(y)->0 < r.f(x)->0) by {
            assert(a.f(x) is Some && a.d(y) is Some);
            assert(r.d(x) == a.d(x) && r.f(y) == a.f(y));
        }
        assert forall|x: int| 0 <= x < n && #[trigger] r.p(x) is Some implies r.p(x)->0 < n && r.d(r.p(x)->0 as int) is Some by {
            assert(a.p(x) is Some);
        }
        assert forall|x: int| #![trigger r.f(x)] 0 <= x < n implies {
            &&& a.f(x) is Some ==> r.f(x) == a.f(x) && r.l(x) == a.l(x) && r.p(x) == a.p(x)
            &&& a.f(x) is None && r.f(x) is Some ==> r.f(x)->0 > t
        } by {
            if a.f(x) is Some {
                assert(x != u);
            }
        }
        assert forall|c: int| #![trigger r.p(c)] 0 <= c < n && r.p(c) is Some && r.p(c) != a.p(c) implies r.p(c)->0 < n && a.f(r.p(c)->0 as int) is None by {
            assert(r.p(c) == a.p(c));
        }
    }
}

impl Distance {
    /// Depth-first search over all components, trying start vertices and neighbors in
    /// ascending order; each vertex gets its discovery and finish time, lowpoint and tree parent.
    pub fn dfs(&self) -> (r: DfsResult)
        requires
            self.wf(),
            2 * self@.len() <= usize::MAX,
        ensures
            r.sized(self@.len()),
            r.consistent(self@.len(), 2 * self@.len()),
            forall|w: int| 0 <= w < self@.len() ==> #[trigger] r.settled(self@, w, 2 * self@.len()),
    {
        let n = self.order();
        let ghost m = self@;
        let mut result = DfsResult::new(n);
        let mut time: usize = 0;
        proof {
            lemma_count_none_all(n as nat);
            assert(result.consistent(n as nat, 0));
        }
        let mut start: usize = 0;
        while start < n
            invariant
                self.wf(),
                m == self@,
                n == m.len(),
                2 * n <= usize::MAX,
                start <= n,
                result.sized(n as nat),
                time + 2 * count_none(result.discovery_time@) == 2 * n,
                result.consistent(n as nat, time as nat),
                forall|w: int| 0 <= w < start ==> #[trigger] result.d(w) is Some,
                forall|w: int| 0 <= w < n && result.d(w) is Some ==> #[trigger] result.settled(m, w, time as nat),
                forall|w: int| 0 <= w < n && result.d(w) is None ==> #[trigger] result.p(w) is None,
            decreases n - start,
        {
            if result.discovery_time[start].is_none() {
                let ghost before = result;
                let ghost t0 = time as nat;
                proof {
                    assert forall|y: int| 0 <= y < n && #[trigger] before.d(y) is Some implies before.f(y) is Some by {
                        DfsResult::lemma_settled_facts(before, m, y, t0);
                    }
                    assert(before.p(start as int) is None);
                }
                self.dfs_visit(start, &mut result, &mut time);
                proof {
                    assert forall|w: int| 0 <= w < n && result.d(w) is Some implies #[trigger] result.settled(m, w, time as nat) by {
                        if before.d(w) is Some {
                            DfsResult::lemma_settled_frame(before, result, m, w, t0, time as nat);
                        }
                    }
                    assert forall|w: int| 0 <= w < start + 1 implies #[trigger] result.d(w) is Some by {
                        if w < start {
                            assert(before.d(w) is Some);
                            assert(result.same_at(&before, w));
                        }
                    }
                    assert forall|w: int| 0 <= w < n && result.d(w) is None implies #[trigger] result.p(w) is None by {
                        assert(result.same_at(&before, w));
                    }
                }
            }
            start += 1;
        }
        proof {
            assert forall|i: int| 0 <= i < result.discovery_time@.len() implies #[trigger] result.discovery_time@[i] is Some by {
                assert(result.d(i) is Some);
            }
            lemma_count_none_zero(result.discovery_time@);
        }
        result
    }

    #[verifier::rlimit(60)]
    fn dfs_visit(&self, u: usize, result: &mut DfsResult, time: &mut usize)
        requires
            self.wf(),
            u < self@.len(),
            old(result).sized(self@.len()),
            old(result).consistent(self@.len(), *old(time) as nat),
            old(result).d(u as int) is None,
            *old(time) + 2 * count_none(old(result).discovery_time@) <= usize::MAX,
            match old(result).p(u as int) {
                Some(pu) => {
                    &&& adjacent(self@, pu as int, u as int)
                    &&& old(result).d(pu as int) is Some
                    &&& old(result).f(pu as int) is None
                    &&& forall|x: int| #![trigger adjacent(self@, pu as int, x)] adjacent(self@, pu as int, x) && x < u ==> old(result).d(x) is Some
                    &&& forall|y: int| #![trigger old(result).d(y)]
                        0 <= y < self@.len() && old(result).d(y) is Some && old(result).d(pu as int)->0 < old(result).d(y)->0 ==> old(result).f(y) is Some
                },
                None => {
                    &&& forall|x: int| #![trigger old(result).d(x)] 0 <= x < u ==> old(result).d(x) is Some
                    &&& forall|y: int| #![trigger old(result).d(y)] 0 <= y < self@.len() && old(result).d(y) is Some ==> old(result).f(y) is Some
                },
            },
        ensures
            final(result).sized(self@.len()),
            final(result).consistent(self@.len(), *final(time) as nat),
            old(result).extended_by(&*final(result), self@.len(), *old(time) as nat),
            *old(time) < *final(time),
            *final(time) + 2 * count_none(final(result).discovery_time@) == *old(time) + 2 * count_none(old(result).discovery_time@),
            final(result).d(u as int) == Some((*old(time) + 1) as usize),
            final(result).p(u as int) == old(result).p(u as int),
            forall|w: int| 0 <= w < self@.len() && old(result).d(w) is Some ==> #[trigger] final(result).same_at(old(result), w),
            forall|w: int| 0 <= w < self@.len() && final(result).d(w) is None ==> #[trigger] final(result).same_at(old(result), w),
            forall|w: int| 0 <= w < self@.len() && old(result).d(w) is None && final(result).d(w) is Some
                ==> #[trigger] final(result).settled(self@, w, *final(time) as nat),
            forall|c: int| 0 <= c < self@.len() && #[trigger] final(result).p(c) != old(result).p(c)
                ==> final(result).p(c) is Some && final(result).p(c)->0 < self@.len() && old(result).d(final(result).p(c)->0 as int) is None,
        decreases count_none(old(result).discovery_time@),
    {
        let ghost o = *result;
        let ghost t0 = *time as nat;
        let ghost m = self@;
        let n = self.order();
        proof {
            lemma_count_none_set(o.discovery_time@, u as int, 0);
        }
        *time += 1;
        let du = *time;
        result.discovery_time.set(u, Some(du));
        result.lowpoint.set(u, Some(du));
        proof {
            assert(result.discovery_time@ == o.discovery_time@.update(u as int, Some(du)));
            lemma_count_none_set(o.discovery_time@, u as int, du);
            DfsResult::lemma_discover(o, *result, n as nat, t0, u as int);
            assert forall|c: int| 0 <= c < n && #[trigger] result.p(c) == Some(u) implies false by {
                assert(o.p(c) is Some);
            }
        }
        let nb = self.neighbors(u);
        proof {
            lemma_neighbors_upto(m, u as int, n as nat);
        }
        let ghost mut lw_from: Option<(bool, int)> = None;
        let mut i: usize = 0;
        while i < nb.len()
            invariant
                self.wf(),
                m == self@,
                n == m.len(),
                u < n,
                nb@ == neighbors_upto(m, u as int, n as nat),
                forall|j: int| 0 <= j < nb@.len() ==> (#[trigger] nb@[j]) < n && adjacent(m, u as int, nb@[j] as int),
                forall|a: int, b: int| 0 <= a < b < nb@.len() ==> (#[trigger] nb@[a]) < (#[trigger] nb@[b]),
                forall|x: int| 0 <= x < n && entry(m, u as int, x) == 1 ==> #[trigger] nb@.contains(x as usize),
                i <= nb@.len(),
                result.sized(n as nat),
                o.sized(n as nat),
                o == *old(result),
                t0 == *old(time),
                t0 + 2 * count_none(o.discovery_time@) <= usize::MAX,
                o.consistent(n as nat, t0),
                o.d(u as int) is None,
                match o.p(u as int) {
                    Some(pu) => {
                        &&& adjacent(m, pu as int, u as int)
                        &&& o.d(pu as int) is Some
                        &&& o.f(pu as int) is None
                        &&& forall|x: int| #![trigger adjacent(m, pu as int, x)] adjacent(m, pu as int, x) && x < u ==> o.d(x) is Some
                        &&& forall|y: int| #![trigger o.d(y)]
                            0 <= y < m.len() && o.d(y) is Some && o.d(pu as int)->0 < o.d(y)->0 ==> o.f(y) is Some
                    },
                    None => {
                        &&& forall|x: int| #![trigger o.d(x)] 0 <= x < u ==> o.d(x) is Some
                        &&& forall|y: int| #![trigger o.d(y)] 0 <= y < m.len() && o.d(y) is Some ==> o.f(y) is Some
                    },
                },
                du == t0 + 1,
                *time >= du,
                *time + 2 * count_none(result.discovery_time@) + 1 == t0 + 2 * count_none(o.discovery_time@),
                result.consistent(n as nat, *time as nat),
                o.extended_by(result, n as nat, t0),
                result.d(u as int) == Some(du),
                result.f(u as int) is None,
                result.l(u as int) is Some,
                result.l(u as int)->0 <= du,
                result.p(u as int) == o.p(u as int),
                forall|w: int| 0 <= w < n && o.d(w) is Some ==> #[trigger] result.same_at(&o, w),
                forall|w: int| 0 <= w < n && result.d(w) is None ==> #[trigger] result.same_at(&o, w),
                forall|w: int| #![trigger result.settled(m, w, *time as nat)] 0 <= w < n && w != u && o.d(w) is None && result.d(w) is Some
                    ==> result.settled(m, w, *time as nat) && du < result.d(w)->0,
                forall|c: int| 0 <= c < n && #[trigger] result.p(c) != o.p(c)
                    ==> result.p(c) is Some && result.p(c)->0 < n && o.d(result.p(c)->0 as int) is None,
                forall|j: int| 0 <= j < i ==> #[trigger] result.d(nb@[j] as int) is Some,
                forall|j: int| #![trigger nb@[j]] 0 <= j < i && o.d(nb@[j] as int) is Some && o.f(nb@[j] as int) is None
                    ==> result.l(u as int)->0 <= o.d(nb@[j] as int)->0,
                forall|c: int| 0 <= c < n && #[trigger] result.p(c) == Some(u)
                    ==> result.f(c) is Some && result.l(c) is Some && result.l(u as int)->0 <= result.l(c)->0,
                match lw_from {
                    None => result.l(u as int)->0 == du,
                    Some((back, x)) => if back {
                        0 <= x < n && adjacent(m, u as int, x) && o.d(x) is Some && o.f(x) is None && result.l(u as int)->0 == o.d(x)->0
                    } else {
                        0 <= x < n && result.p(x) == Some(u) && result.l(x) == result.l(u as int)
                    },
                },
            decreases nb@.len() - i,
        {
            let v = nb[i];
            let ghost before = *result;
            let ghost tb = *time as nat;
            proof {
                assert(nb@[i as int] == v);
                assert(adjacent(m, u as int, v as int));
                assert(m[u as int].len() == u + 1);
                assert(v != u);
            }
            if result.discovery_time[v].is_none() {
                proof {
                    assert forall|k: int| 0 <= k < o.discovery_time@.len() && o.discovery_time@[k] is Some implies #[trigger] result.discovery_time@[k] is Some by {
                        assert(result.same_at(&o, k));
                    }
                    lemma_count_none(o.discovery_time@, result.discovery_time@);
                    assert(o.discovery_time@[u as int] is None && result.discovery_time@[u as int] is Some);
                    assert(o.d(v as int) is None);
                }
                result.parent.set(v, Some(u));
                let ghost pre = *result;
                proof {
                    DfsResult::lemma_set_parent(before, pre, n as nat, tb, v as int, u as int);
                    assert(pre.p(v as int) == Some(u));
                    assert forall|x: int| #![trigger adjacent(m, u as int, x)] adjacent(m, u as int, x) && x < v implies pre.d(x) is Some by {
                        assert(entry(m, u as int, x) == 1);
                        assert(nb@.contains(x as usize));
                        let j = choose|j: int| 0 <= j < nb@.len() && nb@[j] == x as usize;
                        if j >= i {
                            if j > i {
                                assert(nb@[i as int] < nb@[j]);
                            }
                        }
                        assert(before.d(nb@[j] as int) is Some);
                    }
                    assert forall|y: int| #![trigger pre.d(y)]
                        0 <= y < n && pre.d(y) is Some && pre.d(u as int)->0 < pre.d(y)->0 implies pre.f(y) is Some by {
                        if o.d(y) is Some {
                            assert(before.d(y) == o.d(y));
                        } else {
                            assert(y != u);
                            assert(before.settled(m, y, tb));
                            DfsResult::lemma_settled_facts(before, m, y, tb);
                        }
                    }
                    assert forall|c: int| 0 <= c < n && #[trigger] pre.p(c) != o.p(c)
                        implies pre.p(c) is Some && pre.p(c)->0 < n && o.d(pre.p(c)->0 as int) is None by {
                        if c != v {
                            assert(pre.p(c) == before.p(c));
                        }
                    }
                }
                self.dfs_visit(v, result, time);
                let ghost mid = *result;
                let ghost tc = *time as nat;
                proof {
                    assert(mid.same_at(&pre, u as int));
                    DfsResult::lemma_settled_facts(mid, m, v as int, tc);
                }
                let child_lowpoint = result.lowpoint[v].unwrap();
                let current_lowpoint = result.lowpoint[u].unwrap();
                let low = if current_lowpoint < child_lowpoint { current_lowpoint } else { child_lowpoint };
                result.lowpoint.set(u, Some(low));
                proof {
                    DfsResult::lemma_set_low(mid, *result, n as nat, tc, u as int);
                    DfsResult::lemma_extend_trans(before, pre, mid, n as nat, tb, tb);
                    DfsResult::lemma_extend_trans(before, mid, *result, n as nat, tb, tc);
                    DfsResult::lemma_extend_trans(o, before, *result, n as nat, t0, tb);
                    assert forall|w: int| 0 <= w < n && o.d(w) is Some implies #[trigger] result.same_at(&o, w) by {
                        assert(before.same_at(&o, w));
                        assert(w != v && w != u);
                        assert(pre.same_at(&before, w));
                        assert(mid.same_at(&pre, w));
                        assert(result.same_at(&mid, w));
                    }
                    assert forall|w: int| 0 <= w < n && result.d(w) is None implies #[trigger] result.same_at(&o, w) by {
                        assert(w != u);
                        assert(result.same_at(&mid, w));
                        assert(mid.same_at(&pre, w));
                        assert(w != v);
                        assert(pre.same_at(&before, w));
                        assert(before.same_at(&o, w));
                    }
                    assert forall|w: int| #![trigger result.settled(m, w, *time as nat)] 0 <= w < n && w != u && o.d(w) is None && result.d(w) is Some
                        implies result.settled(m, w, *time as nat) && du < result.d(w)->0 by {
                        if before.d(w) is Some {
                            assert(before.settled(m, w, tb));
                            DfsResult::lemma_settled_frame(before, *result, m, w, tb, tc);
                            assert(result.d(w) == before.d(w));
                        } else {
                            assert(mid.settled(m, w, tc));
                            DfsResult::lemma_settled_frame(mid, *result, m, w, tc, tc);
                            assert(mid.d(w)->0 > tb);
                        }
                    }
                    assert forall|c: int| 0 <= c < n && #[trigger] result.p(c) != o.p(c)
                        implies result.p(c) is Some && result.p(c)->0 < n && o.d(result.p(c)->0 as int) is None by {
                        assert(result.p(c) == mid.p(c));
                        if mid.p(c) != pre.p(c) {
                            let q = mid.p(c)->0 as int;
                            assert(pre.d(q) is None);
                            if o.d(q) is Some {
                                assert(before.d(q) == o.d(q));
                            }
                        } else {
                            assert(pre.p(c) != o.p(c));
                        }
                    }
                    assert forall|j: int| 0 <= j < i + 1 implies #[trigger] result.d(nb@[j] as int) is Some by {
                        if j < i {
                            assert(before.d(nb@[j] as int) is Some);
                            assert(result.d(nb@[j] as int) == before.d(nb@[j] as int));
                        }
                    }
                    assert forall|j: int| #![trigger nb@[j]] 0 <= j < i + 1 && o.d(nb@[j] as int) is Some && o.f(nb@[j] as int) is None
                        implies result.l(u as int)->0 <= o.d(nb@[j] as int)->0 by {
                        if j == i {
                            assert(before.d(v as int) == o.d(v as int));
                        }
                    }
                    assert forall|c: int| 0 <= c < n && #[trigger] result.p(c) == Some(u)
                        implies result.f(c) is Some && result.l(c) is Some && result.l(u as int)->0 <= result.l(c)->0 by {
                        if c != v {
                            assert(result.p(c) == mid.p(c));
                            if mid.p(c) != pre.p(c) {
                                assert(pre.d(u as int) is Some);
                                assert(false);
                            }
                            assert(before.p(c) == Some(u));
                            assert(before.f(c) is Some);
                            assert(result.f(c) == before.f(c));
                        }
                    }
                    if !(current_lowpoint < child_lowpoint) {
                        lw_from = Some((false, v as int));
                    } else {
                        match lw_from {
                            None => {},
                            Some((back, x)) => {
                                if !back {
                                    assert(before.p(x) == Some(u));
                                    assert(before.f(x) is Some);
                                    assert(result.f(x) == before.f(x));
                                }
                            },
                        }
                    }
                }
            } else {
                let v_discovery = result.discovery_time[v].unwrap();
                let current_lowpoint = result.lowpoint[u].unwrap();
                // A back edge to an unfinished ancestor lowers the lowpoint.
                let back = result.finish_time[v].is_none();
                let low = if back && v_discovery < current_lowpoint { v_discovery } else { current_lowpoint };
                result.lowpoint.set(u, Some(low));
                proof {
                    DfsResult::lemma_set_low(before, *result, n as nat, tb, u as int);
                    DfsResult::lemma_extend_trans(o, before, *result, n as nat, t0, tb);
                    if o.d(v as int) is Some {
                        assert(before.same_at(&o, v as int));
                    } else {
                        assert(before.settled(m, v as int, tb));
                        DfsResult::lemma_settled_facts(before, m, v as int, tb);
                    }
                    assert(back == (o.d(v as int) is Some && o.f(v as int) is None));
                    assert forall|w: int| 0 <= w < n && o.d(w) is Some implies #[trigger] result.same_at(&o, w) by {
                        assert(before.same_at(&o, w));
                    }
                    assert forall|w: int| 0 <= w < n && result.d(w) is None implies #[trigger] result.same_at(&o, w) by {
                        assert(before.same_at(&o, w));
                    }
                    assert forall|w: int| #![trigger result.settled(m, w, *time as nat)] 0 <= w < n && w != u && o.d(w) is None && result.d(w) is Some
                        implies result.settled(m, w, *time as nat) && du < result.d(w)->0 by {
                        assert(before.settled(m, w, tb));
                        DfsResult::lemma_settled_frame(before, *result, m, w, tb, tb);
                    }
                    assert forall|c: int| 0 <= c < n && #[trigger] result.p(c) != o.p(c)
                        implies result.p(c) is Some && result.p(c)->0 < n && o.d(result.p(c)->0 as int) is None by {
                        assert(result.p(c) == before.p(c));
                    }
                    assert forall|j: int| 0 <= j < i + 1 implies #[trigger] result.d(nb@[j] as int) is Some by {
                        assert(result.d(nb@[j] as int) == before.d(nb@[j] as int));
                    }
                    assert forall|c: int| 0 <= c < n && #[trigger] result.p(c) == Some(u)
                        implies result.f(c) is Some && result.l(c) is Some && result.l(u as int)->0 <= result.l(c)->0 by {
                        assert(result.p(c) == before.p(c));
                        assert(before.f(c) is Some);
                        assert(result.f(c) == before.f(c));
                    }
                    if back && v_discovery < current_lowpoint {
                        lw_from = Some((true, v as int));
                    } else {
                        match lw_from {
                            None => {},
                            Some((bk, x)) => {
                                if !bk {
                                    assert(before.p(x) == Some(u));
                                    assert(before.f(x) is Some);
                                    assert(result.f(x) == before.f(x));
                                }
                            },
                        }
                    }
                }
            }
            i += 1;
        }
        let ghost last = *result;
        let ghost tl = *time as nat;
        *time += 1;
        result.finish_time.set(u, Some(*time));
        proof {
            assert forall|y: int| 0 <= y < n && #[trigger] last.d(y) is Some && last.d(u as int)->0 < last.d(y)->0 implies last.f(y) is Some by {
                if o.d(y) is Some {
                    assert(last.d(y) == o.d(y));
                } else {
                    assert(y != u);
                    assert(last.settled(m, y, tl));
                    DfsResult::lemma_settled_facts(last, m, y, tl);
                }
            }
            DfsResult::lemma_finish(last, *result, n as nat, tl, u as int);
            DfsResult::lemma_extend_trans(o, last, *result, n as nat, t0, tl);
            let fin = *time;
            assert forall|w: int| 0 <= w < n && o.d(w) is Some implies #[trigger] result.same_at(&o, w) by {
                assert(last.same_at(&o, w));
                assert(w != u);
            }
            assert forall|w: int| 0 <= w < n && result.d(w) is None implies #[trigger] result.same_at(&o, w) by {
                assert(w != u);
                assert(last.same_at(&o, w));
            }
            assert forall|c: int| 0 <= c < n && #[trigger] result.p(c) != o.p(c)
                implies result.p(c) is Some && result.p(c)->0 < n && o.d(result.p(c)->0 as int) is None by {
                assert(result.p(c) == last.p(c));
            }
            assert(nb@.len() == i);
            // The search settles `u` itself.
            assert(result.settled(m, u as int, fin as nat)) by {
                reveal(DfsResult::settled);
                let r = *result;
                assert(r.d(u as int) == Some(du));
                assert(r.l(u as int) == last.l(u as int));
                assert(r.f(u as int) == Some(fin));
                match o.p(u as int) {
                    Some(pu) => {
                        let p = pu as int;
                        assert(last.same_at(&o, p));
                        assert(r.d(p) == o.d(p));
                        assert(r.f(p) == last.f(p));
                        assert(r.f(p) is None);
                        assert forall|x: int| #![trigger adjacent(m, p, x)] adjacent(m, p, x) && x < u implies r.d(x) is Some && r.d(x)->0 < du by {
                            assert(o.d(x) is Some);
                            assert(last.same_at(&o, x));
                        }
                        assert forall|y: int| #![trigger r.d(y)]
                            0 <= y < m.len() && r.d(y) is Some && r.d(p)->0 < r.d(y)->0 && r.d(y)->0 < du
                            implies r.f(y) is Some && r.f(y)->0 < du by {
                            if o.d(y) is None {
                                if y == u {
                                } else {
                                    assert(last.d(y) == r.d(y));
                                    assert(last.settled(m, y, tl));
                                }
                            } else {
                                assert(last.same_at(&o, y));
                                assert(o.f(y) is Some);
                                assert(y != u);
                                assert(r.f(y) == o.f(y));
                            }
                        }
                    },
                    None => {
                        assert forall|x: int| #![trigger r.d(x)] 0 <= x < u implies r.d(x) is Some && r.d(x)->0 < du by {
                            assert(o.d(x) is Some);
                            assert(last.same_at(&o, x));
                        }
                        assert forall|y: int| #![trigger r.d(y)]
                            0 <= y < m.len() && r.d(y) is Some && r.d(y)->0 < du implies r.f(y) is Some && r.f(y)->0 < du by {
                            if o.d(y) is None {
                                if y != u {
                                    assert(last.d(y) == r.d(y));
                                    assert(last.settled(m, y, tl));
                                }
                            } else {
                                assert(last.same_at(&o, y));
                                assert(o.f(y) is Some);
                                assert(y != u);
                                assert(r.f(y) == o.f(y));
                            }
                        }
                    },
                }
                assert forall|x: int| #![trigger adjacent(m, u as int, x)] adjacent(m, u as int, x) implies r.d(x) is Some && r.d(x)->0 < fin by {
                    assert(entry(m, u as int, x) == 1);
                    assert(nb@.contains(x as usize));
                    let j = choose|j: int| 0 <= j < nb@.len() && nb@[j] == x as usize;
                    assert(last.d(nb@[j] as int) is Some);
                    assert(r.d(x) == last.d(x));
                }
                assert forall|x: int| #![trigger adjacent(m, u as int, x)]
                    adjacent(m, u as int, x) && r.d(x) is Some && r.d(x)->0 < du && (r.f(x) is None || fin < r.f(x)->0)
                    implies r.l(u as int)->0 <= r.d(x)->0 by {
                    assert(entry(m, u as int, x) == 1);
                    assert(nb@.contains(x as usize));
                    let j = choose|j: int| 0 <= j < nb@.len() && nb@[j] == x as usize;
                    assert(r.d(x) == last.d(x));
                    if o.d(x) is None {
                        if x != u {
                            assert(last.settled(m, x, tl));
                        }
                    } else {
                        assert(last.same_at(&o, x));
                        assert(x != u);
                        assert(r.f(x) == last.f(x));
                        if r.f(x) is Some {
                            assert(r.f(x)->0 <= fin);
                        }
                        assert(o.f(x) is None);
                        assert(o.d(nb@[j] as int) is Some && o.f(nb@[j] as int) is None);
                    }
                }
                assert forall|c: int| #![trigger r.p(c)]
                    0 <= c < m.len() && r.p(c) == Some(u as usize) implies r.f(c) is Some && r.l(c) is Some && r.l(u as int)->0 <= r.l(c)->0 by {
                    assert(r.p(c) == last.p(c));
                    assert(last.f(c) is Some);
                    assert(c != u);
                    assert(r.f(c) == last.f(c));
                }
                match lw_from {
                    None => {},
                    Some((back, x)) => {
                        if back {
                            assert(last.same_at(&o, x));
                            assert(x != u);
                            assert(r.f(x) == last.f(x));
                            assert(r.d(x) == o.d(x));
                            assert(adjacent(m, u as int, x) && r.d(x) is Some && r.d(x)->0 < du && (r.f(x) is None || fin < r.f(x)->0) && r.l(u as int)->0 == r.d(x)->0);
                        } else {
                            assert(r.p(x) == last.p(x));
                            assert(last.f(x) is Some);
                            assert(x != u);
                            assert(r.l(x) == last.l(x));
                            assert(0 <= x < m.len() && r.p(x) == Some(u as usize) && r.l(x) == Some(r.l(u as int)->0));
                        }
                    },
                }
            }
            assert forall|w: int| 0 <= w < n && o.d(w) is None && result.d(w) is Some
                implies #[trigger] result.settled(m, w, fin as nat) by {
                if w != u {
                    assert(last.settled(m, w, tl));
                    DfsResult::lemma_settled_frame(last, *result, m, w, tl, fin as nat);
                }
            }
        }
    }
}

/// Setting one entry to `Some` lowers the count by at most one.
proof fn lemma_count_none_set(s: Seq<Option<usize>>, i: int, x: usize)
    requires
        0 <= i < s.len(),
    ensures
        count_none(s) <= count_none(s.update(i, Some(x))) + 1,
        s[i] is None ==> count_none(s.update(i, Some(x))) + 1 == count_none(s),
    decreases s.len(),
{
    let t = s.update(i, Some(x));
    if i < s.len() - 1 {
        lemma_count_none_set(s.drop_last(), i, x);
        assert(t.drop_last() =~= s.drop_last().update(i, Some(x)));
    } else {
        assert(t.drop_last() =~= s.drop_last());
    }
}

} // verus!
