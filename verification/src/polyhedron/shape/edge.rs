use vstd::prelude::*;
use crate::polyhedron::VertexId;

verus! {

/// The pair with its smaller vertex first.
pub open spec fn norm(e: [usize; 2]) -> [usize; 2] {
    if e[0] <= e[1] {
        e
    } else {
        [e[1], e[0]]
    }
}

/// A pair and its reverse name the same edge.
pub proof fn law_pair_order_irrelevant(a: usize, b: usize)
    ensures
        norm([a, b]) == norm([b, a]),
{
    if a == b {
        assert([a, b] =~= [b, a]);
    }
}

// --- EdgeKey ---

/// An unordered pair of vertices, stored smaller first.
#[derive(PartialEq, Eq, Structural, Hash, Clone, Copy, Debug)]
pub struct EdgeKey(VertexId, VertexId);

impl View for EdgeKey {
    type V = [VertexId; 2];

    closed spec fn view(&self) -> [VertexId; 2] {
        [self.0, self.1]
    }
}

impl EdgeKey {
    /// The key of the pair `{a, b}`.
    pub fn new(a: VertexId, b: VertexId) -> (k: Self)
        ensures
            k@ == norm([a, b]),
    {
        if a <= b {
            EdgeKey(a, b)
        } else {
            EdgeKey(b, a)
        }
    }

    /// The pair, smaller vertex first.
    pub fn inner(&self) -> (r: [VertexId; 2])
        ensures
            r == self@,
    {
        [self.0, self.1]
    }

    /// The key of a pair given as an array.
    pub fn from(e: [VertexId; 2]) -> (k: Self)
        ensures
            k@ == norm(e),
    {
        EdgeKey::new(e[0], e[1])
    }
}

// --- EdgeMap ---

/// A map from unordered vertex pairs to values.
pub struct EdgeMap<T> {
    entries: Vec<(EdgeKey, T)>,
}

impl<T> View for EdgeMap<T> {
    type V = Map<[VertexId; 2], T>;

    closed spec fn view(&self) -> Map<[VertexId; 2], T> {
        Map::new(
            |k: [VertexId; 2]| exists|i: int| 0 <= i < self.entries@.len() && (#[trigger] self.entries@[i]).0@ == k,
            |k: [VertexId; 2]| self.entries@[choose|i: int| 0 <= i < self.entries@.len() && (#[trigger] self.entries@[i]).0@ == k].1,
        )
    }
}

impl<T> EdgeMap<T> {
    /// Keys are stored smaller vertex first, each at most once.
    pub closed spec fn wf(&self) -> bool {
        &&& forall|i: int| 0 <= i < self.entries@.len() ==> norm((#[trigger] self.entries@[i]).0@) == self.entries@[i].0@
        &&& forall|i: int, j: int| 0 <= i < j < self.entries@.len() ==> (#[trigger] self.entries@[i]).0@ != (#[trigger] self.entries@[j]).0@
    }

    proof fn lemma_at(&self, i: int)
        requires
            self.wf(),
            0 <= i < self.entries@.len(),
        ensures
            self@.contains_key(self.entries@[i].0@),
            self@[self.entries@[i].0@] == self.entries@[i].1,
    {
        let k = self.entries@[i].0@;
        assert(self@.dom().contains(k));
        let j = choose|j: int| 0 <= j < self.entries@.len() && (#[trigger] self.entries@[j]).0@ == k;
        if j != i {
            if j < i {
                assert(self.entries@[j].0@ != self.entries@[i].0@);
            } else {
                assert(self.entries@[i].0@ != self.entries@[j].0@);
            }
        }
    }

    /// Changing the value at entry `i` changes the map at that entry's key alone.
    proof fn lemma_set_value(&self, i: int)
        requires
            self.wf(),
            0 <= i < self.entries@.len(),
        ensures
            forall|b: EdgeMap<T>| #![trigger b.view()]
                b.entries@.len() == self.entries@.len() && b.entries@[i].0 == self.entries@[i].0
                && (forall|j: int| 0 <= j < self.entries@.len() && j != i ==> b.entries@[j] == self.entries@[j])
                ==> b@ == self@.insert(self.entries@[i].0@, b.entries@[i].1),
    {
        assert forall|b: EdgeMap<T>| #![trigger b.view()]
            b.entries@.len() == self.entries@.len() && b.entries@[i].0 == self.entries@[i].0
            && (forall|j: int| 0 <= j < self.entries@.len() && j != i ==> b.entries@[j] == self.entries@[j])
            implies b@ == self@.insert(self.entries@[i].0@, b.entries@[i].1) by {
            assert(b.wf()) by {
                assert forall|p: int, q: int| 0 <= p < q < b.entries@.len() implies (#[trigger] b.entries@[p]).0@ != (#[trigger] b.entries@[q]).0@ by {
                    assert(self.entries@[p].0@ != self.entries@[q].0@);
                }
                assert forall|p: int| 0 <= p < b.entries@.len() implies norm((#[trigger] b.entries@[p]).0@) == b.entries@[p].0@ by {
                    assert(self.entries@[p].0@ == b.entries@[p].0@);
                }
            }
            let k = self.entries@[i].0@;
            assert forall|key: [VertexId; 2]| #[trigger] b@.contains_key(key) == self@.insert(k, b.entries@[i].1).contains_key(key) by {
                if b@.contains_key(key) {
                    let j = choose|j: int| 0 <= j < b.entries@.len() && (#[trigger] b.entries@[j]).0@ == key;
                    if j != i {
                        self.lemma_at(j);
                    }
                }
                if self@.contains_key(key) && key != k {
                    let j = choose|j: int| 0 <= j < self.entries@.len() && (#[trigger] self.entries@[j]).0@ == key;
                    assert(b.entries@[j].0@ == key);
                }
                if key == k {
                    assert(b.entries@[i].0@ == key);
                }
            }
            assert forall|key: [VertexId; 2]| #[trigger] b@.contains_key(key) implies b@[key] == self@.insert(k, b.entries@[i].1)[key] by {
                let j = choose|j: int| 0 <= j < b.entries@.len() && (#[trigger] b.entries@[j]).0@ == key;
                b.lemma_at(j);
                if j != i {
                    self.lemma_at(j);
                    assert(key != k) by {
                        if j < i {
                            assert(self.entries@[j].0@ != self.entries@[i].0@);
                        } else {
                            assert(self.entries@[i].0@ != self.entries@[j].0@);
                        }
                    }
                }
            }
            assert(b@ =~= self@.insert(k, b.entries@[i].1));
        }
    }

    /// Every key is a normalized pair.
    pub proof fn lemma_keys_normalized(&self)
        requires
            self.wf(),
        ensures
            forall|k: [VertexId; 2]| #[trigger] self@.contains_key(k) ==> norm(k) == k,
    {
    }

    /// The empty map.
    pub fn new() -> (m: Self)
        ensures
            m.wf(),
            m@ == Map::<[VertexId; 2], T>::empty(),
    {
        let m = EdgeMap { entries: Vec::new() };
        assert(m@ =~= Map::<[VertexId; 2], T>::empty());
        m
    }

    /// Position of the entry keyed `k`, if any.
    fn find(&self, k: EdgeKey) -> (r: Option<usize>)
        requires
            self.wf(),
        ensures
            match r {
                Some(i) => i < self.entries@.len() && self.entries@[i as int].0@ == k@,
                None => forall|i: int| 0 <= i < self.entries@.len() ==> (#[trigger] self.entries@[i]).0@ != k@,
            },
    {
        let mut i: usize = 0;
        while i < self.entries.len()
            invariant
                i <= self.entries@.len(),
                forall|j: int| 0 <= j < i ==> (#[trigger] self.entries@[j]).0@ != k@,
            decreases self.entries@.len() - i,
        {
            if self.entries[i].0 == k {
                return Some(i);
            }
            i += 1;
        }
        None
    }

    /// The value stored for the pair `key`, in either order.
    pub fn get(&self, key: [VertexId; 2]) -> (r: Option<&T>)
        requires
            self.wf(),
        ensures
            r == (if self@.contains_key(norm(key)) { Some(&self@[norm(key)]) } else { None }),
    {
        let k = EdgeKey::from(key);
        match self.find(k) {
            Some(i) => {
                proof {
                    self.lemma_at(i as int);
                }
                Some(&self.entries[i].1)
            },
            None => {
                assert(!self@.contains_key(norm(key)));
                None
            },
        }
    }

    /// The value stored for the pair `key`, in either order, to be changed in place.
    pub fn get_mut(&mut self, key: [VertexId; 2]) -> (r: Option<&mut T>)
        requires
            old(self).wf(),
        ensures
            final(self).wf(),
            r.is_some() == old(self)@.contains_key(norm(key)),
            r.is_some() ==> *r.unwrap() == old(self)@[norm(key)]
                && final(self)@ == old(self)@.insert(norm(key), *final(r.unwrap())),
            r.is_none() ==> final(self)@ == old(self)@,
    {
        let k = EdgeKey::from(key);
        match self.find(k) {
            Some(i) => {
                proof {
                    self.lemma_at(i as int);
                    self.lemma_set_value(i as int);
                }
                Some(&mut self.entries[i].1)
            },
            None => {
                assert(!self@.contains_key(norm(key)));
                None
            },
        }
    }

    /// Stores `value` for the pair `key`, returning the value it replaces.
    pub fn insert(&mut self, key: [VertexId; 2], value: T) -> (r: Option<T>)
        requires
            old(self).wf(),
        ensures
            final(self).wf(),
            final(self)@ == old(self)@.insert(norm(key), value),
            r == (if old(self)@.contains_key(norm(key)) { Some(old(self)@[norm(key)]) } else { None }),
    {
        let k = EdgeKey::from(key);
        match self.find(k) {
            Some(i) => {
                proof {
                    self.lemma_at(i as int);
                }
                let old_entry = self.entries.remove(i);
                self.entries.insert(i, (k, value));
                proof {
                    assert(self.entries@ == old(self).entries@.update(i as int, (k, value)));
                    assert forall|j: int| 0 <= j < self.entries@.len() && j != i implies (#[trigger] self.entries@[j]) == old(self).entries@[j] by {}
                    assert(self.wf()) by {
                        assert forall|a: int, b: int| 0 <= a < b < self.entries@.len() implies (#[trigger] self.entries@[a]).0@ != (#[trigger] self.entries@[b]).0@ by {
                            assert(old(self).entries@[a].0@ != old(self).entries@[b].0@);
                        }
                    }
                    assert forall|q: [VertexId; 2]| #[trigger] self@.contains_key(q) == old(self)@.insert(norm(key), value).contains_key(q) by {
                        if old(self)@.contains_key(q) {
                            let j = choose|j: int| 0 <= j < old(self).entries@.len() && (#[trigger] old(self).entries@[j]).0@ == q;
                            assert(self.entries@[j].0@ == q);
                        }
                        if self@.contains_key(q) {
                            let j = choose|j: int| 0 <= j < self.entries@.len() && (#[trigger] self.entries@[j]).0@ == q;
                            if j != i {
                                assert(old(self).entries@[j].0@ == q);
                            }
                        }
                    }
                    assert forall|q: [VertexId; 2]| #[trigger] self@.contains_key(q) implies self@[q] == old(self)@.insert(norm(key), value)[q] by {
                        let j = choose|j: int| 0 <= j < self.entries@.len() && (#[trigger] self.entries@[j]).0@ == q;
                        self.lemma_at(j);
                        if j != i {
                            old(self).lemma_at(j);
                        }
                    }
                    assert(self@ =~= old(self)@.insert(norm(key), value));
                }
                Some(old_entry.1)
            },
            None => {
                self.entries.push((k, value));
                proof {
                    let n = old(self).entries@.len();
                    assert forall|j: int| 0 <= j < n implies (#[trigger] self.entries@[j]) == old(self).entries@[j] by {}
                    assert(self.wf()) by {
                        assert forall|a: int, b: int| 0 <= a < b < self.entries@.len() implies (#[trigger] self.entries@[a]).0@ != (#[trigger] self.entries@[b]).0@ by {
                            if b < n {
                                assert(old(self).entries@[a].0@ != old(self).entries@[b].0@);
                            }
                        }
                    }
                    assert forall|q: [VertexId; 2]| #[trigger] self@.contains_key(q) == old(self)@.insert(norm(key), value).contains_key(q) by {
                        if old(self)@.contains_key(q) {
                            let j = choose|j: int| 0 <= j < old(self).entries@.len() && (#[trigger] old(self).entries@[j]).0@ == q;
                            assert(self.entries@[j].0@ == q);
                        }
                        if self@.contains_key(q) {
                            let j = choose|j: int| 0 <= j < self.entries@.len() && (#[trigger] self.entries@[j]).0@ == q;
                            if j < n {
                                assert(old(self).entries@[j].0@ == q);
                            }
                        }
                        if q == norm(key) {
                            assert(self.entries@[n as int].0@ == q);
                        }
                    }
                    assert forall|q: [VertexId; 2]| #[trigger] self@.contains_key(q) implies self@[q] == old(self)@.insert(norm(key), value)[q] by {
                        let j = choose|j: int| 0 <= j < self.entries@.len() && (#[trigger] self.entries@[j]).0@ == q;
                        self.lemma_at(j);
                        if j < n {
                            old(self).lemma_at(j);
                        }
                    }
                    assert(self@ =~= old(self)@.insert(norm(key), value));
                }
                None
            },
        }
    }

    /// Removes the pair `key`, returning its value.
    pub fn remove(&mut self, key: [VertexId; 2]) -> (r: Option<T>)
        requires
            old(self).wf(),
        ensures
            final(self).wf(),
            final(self)@ == old(self)@.remove(norm(key)),
            r == (if old(self)@.contains_key(norm(key)) { Some(old(self)@[norm(key)]) } else { None }),
    {
        let k = EdgeKey::from(key);
        match self.find(k) {
            Some(i) => {
                proof {
                    self.lemma_at(i as int);
                }
                let old_entry = self.entries.remove(i);
                proof {
                    let o = old(self).entries@;
                    assert(self.entries@ == o.remove(i as int));
                    assert(self.wf()) by {
                        assert forall|a: int, b: int| 0 <= a < b < self.entries@.len() implies (#[trigger] self.entries@[a]).0@ != (#[trigger] self.entries@[b]).0@ by {
                            let a1 = if a < i { a } else { a + 1 };
                            let b1 = if b < i { b } else { b + 1 };
                            assert(self.entries@[a] == o[a1]);
                            assert(self.entries@[b] == o[b1]);
                            assert(o[a1].0@ != o[b1].0@);
                        }
                        assert forall|a: int| 0 <= a < self.entries@.len() implies norm((#[trigger] self.entries@[a]).0@) == self.entries@[a].0@ by {
                            let a1 = if a < i { a } else { a + 1 };
                            assert(self.entries@[a] == o[a1]);
                        }
                    }
                    assert forall|q: [VertexId; 2]| #[trigger] self@.contains_key(q) == old(self)@.remove(norm(key)).contains_key(q) by {
                        if old(self)@.contains_key(q) && q != norm(key) {
                            let j = choose|j: int| 0 <= j < o.len() && (#[trigger] o[j]).0@ == q;
                            assert(j != i);
                            let j1 = if j < i { j } else { j - 1 };
                            assert(self.entries@[j1] == o[j]);
                        }
                        if self@.contains_key(q) {
                            let j = choose|j: int| 0 <= j < self.entries@.len() && (#[trigger] self.entries@[j]).0@ == q;
                            let j1 = if j < i { j } else { j + 1 };
                            assert(self.entries@[j] == o[j1]);
                            assert(j1 != i ==> o[j1].0@ != o[i as int].0@) by {
                                if j1 < i {
                                    assert(o[j1].0@ != o[i as int].0@);
                                } else if j1 > i {
                                    assert(o[i as int].0@ != o[j1].0@);
                                }
                            }
                        }
                    }
                    assert forall|q: [VertexId; 2]| #[trigger] self@.contains_key(q) implies self@[q] == old(self)@.remove(norm(key))[q] by {
                        let j = choose|j: int| 0 <= j < self.entries@.len() && (#[trigger] self.entries@[j]).0@ == q;
                        self.lemma_at(j);
                        let j1 = if j < i { j } else { j + 1 };
                        assert(self.entries@[j] == o[j1]);
                        old(self).lemma_at(j1);
                    }
                    assert(self@ =~= old(self)@.remove(norm(key)));
                }
                Some(old_entry.1)
            },
            None => {
                proof {
                    assert(!old(self)@.contains_key(norm(key)));
                    assert(self@ =~= old(self)@.remove(norm(key)));
                }
                None
            },
        }
    }

    /// Whether the pair `key` has a value.
    pub fn contains_key(&self, key: [VertexId; 2]) -> (r: bool)
        requires
            self.wf(),
        ensures
            r == self@.contains_key(norm(key)),
    {
        let k = EdgeKey::from(key);
        match self.find(k) {
            Some(i) => {
                proof {
                    self.lemma_at(i as int);
                }
                true
            },
            None => false,
        }
    }

    /// The stored pairs, each once, smaller vertex first.
    pub fn keys(&self) -> (r: Vec<[VertexId; 2]>)
        requires
            self.wf(),
        ensures
            r@.to_set() == self@.dom(),
            r@.no_duplicates(),
    {
        let mut r: Vec<[VertexId; 2]> = Vec::new();
        let mut i: usize = 0;
        while i < self.entries.len()
            invariant
                self.wf(),
                i <= self.entries@.len(),
                r@.len() == i,
                forall|j: int| 0 <= j < i ==> #[trigger] r@[j] == self.entries@[j].0@,
            decreases self.entries@.len() - i,
        {
            r.push(self.entries[i].0.inner());
            i += 1;
        }
        proof {
            assert forall|q: [VertexId; 2]| #[trigger] r@.to_set().contains(q) == self@.dom().contains(q) by {
                if r@.to_set().contains(q) {
                    assert(r@.contains(q));
                    let j = choose|j: int| 0 <= j < r@.len() && r@[j] == q;
                    assert(self.entries@[j].0@ == q);
                }
                if self@.dom().contains(q) {
                    let j = choose|j: int| 0 <= j < self.entries@.len() && (#[trigger] self.entries@[j]).0@ == q;
                    assert(r@[j] == q);
                    assert(r@.contains(q));
                }
            }
            assert(r@.to_set() =~= self@.dom());
            assert forall|a: int, b: int| 0 <= a < r@.len() && 0 <= b < r@.len() && a != b implies r@[a] != r@[b] by {
                if a < b {
                    assert(self.entries@[a].0@ != self.entries@[b].0@);
                } else {
                    assert(self.entries@[b].0@ != self.entries@[a].0@);
                }
            }
        }
        r
    }
}

// --- EdgeSet ---

/// A set of unordered vertex pairs.
pub struct EdgeSet {
    keys: Vec<EdgeKey>,
}

impl View for EdgeSet {
    type V = Set<[VertexId; 2]>;

    closed spec fn view(&self) -> Set<[VertexId; 2]> {
        Set::new(|k: [VertexId; 2]| exists|i: int| 0 <= i < self.keys@.len() && (#[trigger] self.keys@[i])@ == k)
    }
}

impl EdgeSet {
    /// Pairs are stored smaller vertex first, each at most once.
    pub closed spec fn wf(&self) -> bool {
        &&& forall|i: int| 0 <= i < self.keys@.len() ==> norm((#[trigger] self.keys@[i])@) == self.keys@[i]@
        &&& forall|i: int, j: int| 0 <= i < j < self.keys@.len() ==> (#[trigger] self.keys@[i])@ != (#[trigger] self.keys@[j])@
    }

    /// The empty set.
    pub fn new() -> (s: Self)
        ensures
            s.wf(),
            s@ == Set::<[VertexId; 2]>::empty(),
    {
        let s = EdgeSet { keys: Vec::new() };
        assert(s@ =~= Set::<[VertexId; 2]>::empty());
        s
    }

    fn find(&self, k: EdgeKey) -> (r: Option<usize>)
        ensures
            match r {
                Some(i) => i < self.keys@.len() && self.keys@[i as int]@ == k@,
                None => forall|i: int| 0 <= i < self.keys@.len() ==> (#[trigger] self.keys@[i])@ != k@,
            },
    {
        let mut i: usize = 0;
        while i < self.keys.len()
            invariant
                i <= self.keys@.len(),
                forall|j: int| 0 <= j < i ==> (#[trigger] self.keys@[j])@ != k@,
            decreases self.keys@.len() - i,
        {
            if self.keys[i] == k {
                return Some(i);
            }
            i += 1;
        }
        None
    }

    /// Whether the pair `key`, in either order, is in the set.
    pub fn contains(&self, key: [VertexId; 2]) -> (r: bool)
        requires
            self.wf(),
        ensures
            r == self@.contains(norm(key)),
    {
        let k = EdgeKey::from(key);
        match self.find(k) {
            Some(i) => {
                assert(self@.contains(self.keys@[i as int]@));
                true
            },
            None => false,
        }
    }

    /// Adds the pair `key`; whether it was new.
    pub fn insert(&mut self, key: [VertexId; 2]) -> (r: bool)
        requires
            old(self).wf(),
        ensures
            final(self).wf(),
            final(self)@ == old(self)@.insert(norm(key)),
            r == !old(self)@.contains(norm(key)),
    {
        let k = EdgeKey::from(key);
        match self.find(k) {
            Some(i) => {
                proof {
                    assert(self@.contains(self.keys@[i as int]@));
                    assert(self@ =~= old(self)@.insert(norm(key)));
                }
                false
            },
            None => {
                self.keys.push(k);
                proof {
                    let n = old(self).keys@.len();
                    assert forall|j: int| 0 <= j < n implies (#[trigger] self.keys@[j]) == old(self).keys@[j] by {}
                    assert(self.wf()) by {
                        assert forall|a: int, b: int| 0 <= a < b < self.keys@.len() implies (#[trigger] self.keys@[a])@ != (#[trigger] self.keys@[b])@ by {
                            if b < n {
                                assert(old(self).keys@[a]@ != old(self).keys@[b]@);
                            }
                        }
                    }
                    assert forall|q: [VertexId; 2]| #[trigger] self@.contains(q) == old(self)@.insert(norm(key)).contains(q) by {
                        if old(self)@.contains(q) {
                            let j = choose|j: int| 0 <= j < old(self).keys@.len() && (#[trigger] old(self).keys@[j])@ == q;
                            assert(self.keys@[j]@ == q);
                        }
                        if self@.contains(q) {
                            let j = choose|j: int| 0 <= j < self.keys@.len() && (#[trigger] self.keys@[j])@ == q;
                            if j < n {
                                assert(old(self).keys@[j]@ == q);
                            }
                        }
                        if q == norm(key) {
                            assert(self.keys@[n as int]@ == q);
                        }
                    }
                    assert(self@ =~= old(self)@.insert(norm(key)));
                }
                true
            },
        }
    }

    /// Removes the pair `key`; whether it was there.
    pub fn remove(&mut self, key: [VertexId; 2]) -> (r: bool)
        requires
            old(self).wf(),
        ensures
            final(self).wf(),
            final(self)@ == old(self)@.remove(norm(key)),
            r == old(self)@.contains(norm(key)),
    {
        let k = EdgeKey::from(key);
        match self.find(k) {
            Some(i) => {
                proof {
                    assert(self@.contains(self.keys@[i as int]@));
                }
                self.keys.remove(i);
                proof {
                    let o = old(self).keys@;
                    assert(self.keys@ == o.remove(i as int));
                    assert(self.wf()) by {
                        assert forall|a: int, b: int| 0 <= a < b < self.keys@.len() implies (#[trigger] self.keys@[a])@ != (#[trigger] self.keys@[b])@ by {
                            let a1 = if a < i { a } else { a + 1 };
                            let b1 = if b < i { b } else { b + 1 };
                            assert(self.keys@[a] == o[a1]);
                            assert(self.keys@[b] == o[b1]);
                            assert(o[a1]@ != o[b1]@);
                        }
                        assert forall|a: int| 0 <= a < self.keys@.len() implies norm((#[trigger] self.keys@[a])@) == self.keys@[a]@ by {
                            let a1 = if a < i { a } else { a + 1 };
                            assert(self.keys@[a] == o[a1]);
                        }
                    }
                    assert forall|q: [VertexId; 2]| #[trigger] self@.contains(q) == old(self)@.remove(norm(key)).contains(q) by {
                        if old(self)@.contains(q) && q != norm(key) {
                            let j = choose|j: int| 0 <= j < o.len() && (#[trigger] o[j])@ == q;
                            assert(j != i);
                            let j1 = if j < i { j } else { j - 1 };
                            assert(self.keys@[j1] == o[j]);
                        }
                        if self@.contains(q) {
                            let j = choose|j: int| 0 <= j < self.keys@.len() && (#[trigger] self.keys@[j])@ == q;
                            let j1 = if j < i { j } else { j + 1 };
                            assert(self.keys@[j] == o[j1]);
                            if j1 < i {
                                assert(o[j1]@ != o[i as int]@);
                            } else {
                                assert(o[i as int]@ != o[j1]@);
                            }
                        }
                    }
                    assert(self@ =~= old(self)@.remove(norm(key)));
                }
                true
            },
            None => {
                proof {
                    assert(self@ =~= old(self)@.remove(norm(key)));
                }
                false
            },
        }
    }

    /// The pairs, each once, smaller vertex first.
    pub fn iter(&self) -> (r: Vec<[VertexId; 2]>)
        requires
            self.wf(),
        ensures
            r@.to_set() == self@,
            r@.no_duplicates(),
    {
        let mut r: Vec<[VertexId; 2]> = Vec::new();
        let mut i: usize = 0;
        while i < self.keys.len()
            invariant
                i <= self.keys@.len(),
                r@.len() == i,
                forall|j: int| 0 <= j < i ==> #[trigger] r@[j] == self.keys@[j]@,
            decreases self.keys@.len() - i,
        {
            r.push(self.keys[i].inner());
            i += 1;
        }
        proof {
            assert forall|q: [VertexId; 2]| #[trigger] r@.to_set().contains(q) == self@.contains(q) by {
                if r@.to_set().contains(q) {
                    assert(r@.contains(q));
                    let j = choose|j: int| 0 <= j < r@.len() && r@[j] == q;
                    assert(self.keys@[j]@ == q);
                }
                if self@.contains(q) {
                    let j = choose|j: int| 0 <= j < self.keys@.len() && (#[trigger] self.keys@[j])@ == q;
                    assert(r@[j] == q);
                    assert(r@.contains(q));
                }
            }
            assert(r@.to_set() =~= self@);
            assert forall|a: int, b: int| 0 <= a < r@.len() && 0 <= b < r@.len() && a != b implies r@[a] != r@[b] by {
                if a < b {
                    assert(self.keys@[a]@ != self.keys@[b]@);
                } else {
                    assert(self.keys@[b]@ != self.keys@[a]@);
                }
            }
        }
        r
    }
}

} // verus!
