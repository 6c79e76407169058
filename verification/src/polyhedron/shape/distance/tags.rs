use vstd::prelude::*;

verus! {

/// The persistent tags a vertex descends from.
#[derive(Debug)]
pub struct TagSet {
    tags: std::collections::HashSet<u64>,
}

impl View for TagSet {
    type V = Set<u64>;

    closed spec fn view(&self) -> Set<u64> {
        self.tags@
    }
}

impl TagSet {
    /// The empty tag set.
    pub fn empty() -> (s: Self)
        ensures
            s@ == Set::<u64>::empty(),
    {
        TagSet { tags: std::collections::HashSet::new() }
    }

    /// The tag set holding one tag.
    pub fn singleton(tag: u64) -> (s: Self)
        ensures
            s@ == set![tag],
    {
        broadcast use vstd::std_specs::hash::group_hash_axioms;
        let mut tags = std::collections::HashSet::new();
        tags.insert(tag);
        let s = TagSet { tags };
        assert(s@ =~= set![tag]);
        s
    }

    /// Whether `tag` belongs to the set.
    pub fn contains(&self, tag: u64) -> (r: bool)
        ensures
            r == self@.contains(tag),
    {
        broadcast use vstd::std_specs::hash::group_hash_axioms;
        self.tags.contains(&tag)
    }

    /// Adds one tag.
    pub fn insert(&mut self, tag: u64)
        ensures
            final(self)@ == old(self)@.insert(tag),
    {
        broadcast use vstd::std_specs::hash::group_hash_axioms;
        self.tags.insert(tag);
    }

    /// Adds every tag of `other`.
    pub fn extend(&mut self, other: &TagSet)
        ensures
            final(self)@ == old(self)@.union(other@),
    {
        broadcast use vstd::std_specs::hash::group_hash_axioms;
        for t in it: other.tags.iter()
            invariant
                self@ == old(self)@.union(it.seq().take(it.index() as int).unref().to_set()),
                it.seq().unref().to_set() == other@,
                it.index() == it.seq().len() ==> self@ == old(self)@.union(other@),
        {
            proof {
                assert(it.seq().take(it.index() + 1).unref() =~= it.seq().take(it.index() as int).unref().push(*t));
            }
            self.tags.insert(*t);
            proof {
                it.seq().take(it.index() as int).unref().lemma_push_to_set_commute(*t);
                assert(self@ =~= old(self)@.union(it.seq().take(it.index() + 1).unref().to_set()));
                assert(it.seq().take(it.seq().len() as int) =~= it.seq());
            }
        }
    }

    /// A copy of the set.
    pub fn copy(&self) -> (s: Self)
        ensures
            s@ == self@,
    {
        let mut s = TagSet::empty();
        s.extend(self);
        assert(s@ =~= self@);
        s
    }
}

} // verus!
