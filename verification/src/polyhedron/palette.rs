use vstd::prelude::*;

verus! {

/// Each slot at most once.
pub open spec fn slots_distinct(a: Seq<(usize, usize)>) -> bool {
    forall|i: int, j: int| 0 <= i < j < a.len() ==> (#[trigger] a[i]).0 != (#[trigger] a[j]).0
}

/// The slots of an assignment list.
pub open spec fn slots_of(a: Seq<(usize, usize)>) -> Seq<usize> {
    a.map_values(|e: (usize, usize)| e.0)
}

/// Strictly ascending.
pub open spec fn strictly_ascending(s: Seq<usize>) -> bool {
    forall|i: int, j: int| 0 <= i < j < s.len() ==> s[i] < s[j]
}

/// Palette indices below `len`.
pub open spec fn below(len: usize) -> spec_fn(usize) -> bool {
    |p: usize| p < len
}

/// Assignments whose palette index is below `len`.
pub open spec fn assigned_below(len: usize) -> spec_fn((usize, usize)) -> bool {
    |e: (usize, usize)| e.1 < len
}

/// Assignments whose slot is in `present`.
pub open spec fn kept_by(present: Seq<usize>) -> spec_fn((usize, usize)) -> bool {
    |e: (usize, usize)| present.contains(e.0)
}

/// Assignments whose slot is not in `present`.
pub open spec fn gone_by(present: Seq<usize>) -> spec_fn((usize, usize)) -> bool {
    |e: (usize, usize)| !present.contains(e.0)
}

/// Slots of `present` that have no assignment in `a`.
pub open spec fn newcomers(a: Seq<(usize, usize)>, present: Seq<usize>) -> Seq<usize> {
    present.filter(|s: usize| !slots_of(a).contains(s))
}

/// The palette indices available once the vanished slots freed theirs, in hand-out order.
pub open spec fn freed(a: Seq<(usize, usize)>, free: Seq<usize>, present: Seq<usize>) -> Seq<usize> {
    free + a.filter(gone_by(present)).map_values(|e: (usize, usize)| e.1)
}

/// The palette index the `i`-th newcomer receives: the next free one, or, once none is left,
/// the number of assignments at that point.
pub open spec fn handed_out(a: Seq<(usize, usize)>, free: Seq<usize>, present: Seq<usize>, i: int) -> usize {
    let f = freed(a, free, present);
    if i < f.len() {
        f[i]
    } else {
        (a.filter(kept_by(present)).len() + i) as usize
    }
}

/// Assignments after reassigning for `present`: survivors keep theirs, then the newcomers.
pub open spec fn reassigned(a: Seq<(usize, usize)>, free: Seq<usize>, present: Seq<usize>) -> Seq<(usize, usize)> {
    let nc = newcomers(a, present);
    a.filter(kept_by(present)) + Seq::new(nc.len(), |i: int| (nc[i], handed_out(a, free, present, i)))
}

/// Free indices after reassigning for `present`.
pub open spec fn refreed(a: Seq<(usize, usize)>, free: Seq<usize>, present: Seq<usize>) -> Seq<usize> {
    let f = freed(a, free, present);
    let k = newcomers(a, present).len();
    if k <= f.len() {
        f.skip(k as int)
    } else {
        Seq::empty()
    }
}

/// The palette index of `slot` in `a`, or 0 when it has none.
pub open spec fn palette_in(a: Seq<(usize, usize)>, slot: usize) -> usize
    decreases a.len(),
{
    if a.len() == 0 {
        0
    } else if a.last().0 == slot {
        a.last().1
    } else {
        palette_in(a.drop_last(), slot)
    }
}

/// Maps ever-growing color slots onto a bounded palette of display indices.
/// A live slot keeps its index while present, and a freed index recycles last so churned
/// facetypes advance to fresh colors.
#[derive(Debug, Clone)]
pub struct PaletteAllocator {
    /// Palette index currently held by each live color slot.
    assigned: Vec<(usize, usize)>,
    /// Available palette indices in hand-out order; the front is freshest and freed entries go
    /// to the back.
    free: std::collections::VecDeque<usize>,
}

impl Default for PaletteAllocator {
    fn default() -> (r: Self)
        ensures
            r.assignments() == Seq::<(usize, usize)>::empty(),
            r.free_list() == Seq::<usize>::empty(),
    {
        PaletteAllocator { assigned: Vec::new(), free: std::collections::VecDeque::new() }
    }
}

impl PaletteAllocator {
    /// The `(slot, palette index)` assignments.
    pub closed spec fn assignments(&self) -> Seq<(usize, usize)> {
        self.assigned@
    }

    /// The free palette indices in hand-out order.
    pub closed spec fn free_list(&self) -> Seq<usize> {
        self.free@
    }

    /// Each slot holds at most one index.
    pub open spec fn wf(&self) -> bool {
        slots_distinct(self.assignments())
    }

    /// Sets how many palette entries exist, keeping existing assignments and preference order.
    /// Returns whether anything changed; growth appends new indices, shrink drops out-of-range
    /// ones for reassignment.
    pub fn set_len(&mut self, len: usize) -> (changed: bool)
        requires
            old(self).wf(),
            old(self).assignments().len() + old(self).free_list().len() <= usize::MAX,
        ensures
            final(self).wf(),
            ({
                let a = old(self).assignments();
                let f = old(self).free_list();
                let total = a.len() + f.len();
                &&& changed == (total != len)
                &&& total == len ==> final(self).assignments() == a && final(self).free_list() == f
                &&& total < len ==> final(self).assignments() == a
                    && final(self).free_list() == f + Seq::new((len - total) as nat, |i: int| (total + i) as usize)
                &&& total > len ==> final(self).assignments() == a.filter(assigned_below(len))
                    && final(self).free_list() == f.filter(below(len))
            }),
    {
        let total = self.assigned.len() + self.free.len();
        if total == len {
            return false;
        }
        if len > total {
            let ghost f0 = self.free@;
            let mut p = total;
            while p < len
                invariant
                    total <= p <= len,
                    self.free@ == f0 + Seq::new((p - total) as nat, |i: int| (total + i) as usize),
                    self.assigned@ == old(self).assigned@,
                decreases len - p,
            {
                self.free.push_back(p);
                p += 1;
                assert(self.free@ =~= f0 + Seq::new((p - total) as nat, |i: int| (total + i) as usize));
            }
        } else {
            let mut kept_free: std::collections::VecDeque<usize> = std::collections::VecDeque::new();
            let mut i: usize = 0;
            while i < self.free.len()
                invariant
                    i <= self.free@.len(),
                    kept_free@ == self.free@.take(i as int).filter(below(len)),
                decreases self.free@.len() - i,
            {
                let p = self.free[i];
                proof {
                    assert(self.free@.take(i + 1) =~= self.free@.take(i as int).push(p));
                    self.free@.take(i as int).lemma_filter_push(p, below(len));
                }
                if p < len {
                    kept_free.push_back(p);
                }
                i += 1;
            }
            assert(self.free@.take(i as int) =~= self.free@);
            let mut kept: Vec<(usize, usize)> = Vec::new();
            let mut j: usize = 0;
            while j < self.assigned.len()
                invariant
                    j <= self.assigned@.len(),
                    kept@ == self.assigned@.take(j as int).filter(assigned_below(len)),
                decreases self.assigned@.len() - j,
            {
                let e = self.assigned[j];
                proof {
                    assert(self.assigned@.take(j + 1) =~= self.assigned@.take(j as int).push(e));
                    self.assigned@.take(j as int).lemma_filter_push(e, assigned_below(len));
                }
                if e.1 < len {
                    kept.push(e);
                }
                j += 1;
            }
            assert(self.assigned@.take(j as int) =~= self.assigned@);
            proof {
                lemma_filter_distinct(self.assigned@, assigned_below(len));
            }
            self.free = kept_free;
            self.assigned = kept;
        }
        true
    }

    /// Reassigns palette indices for a new set of live slots, given in ascending order.
    /// Survivors keep their index, vanished slots free theirs to the back, and newcomers take
    /// the front.
    pub fn reassign(&mut self, present: &Vec<usize>)
        requires
            old(self).wf(),
            strictly_ascending(present@),
        ensures
            final(self).wf(),
            final(self).assignments() == reassigned(old(self).assignments(), old(self).free_list(), present@),
            final(self).free_list() == refreed(old(self).assignments(), old(self).free_list(), present@),
    {
        let ghost a0 = self.assigned@;
        let ghost f0 = self.free@;
        // Survivors stay; vanished slots free their index to the back.
        let mut kept: Vec<(usize, usize)> = Vec::new();
        let mut free = self.free.clone();
        proof {
            assert(free@ == f0);
        }
        let mut i: usize = 0;
        while i < self.assigned.len()
            invariant
                self.assigned@ == a0,
                i <= a0.len(),
                kept@ == a0.take(i as int).filter(kept_by(present@)),
                free@ == f0 + a0.take(i as int).filter(gone_by(present@)).map_values(|e: (usize, usize)| e.1),
            decreases a0.len() - i,
        {
            let e = self.assigned[i];
            let here = contains_value(present, e.0);
            proof {
                assert(a0.take(i + 1) =~= a0.take(i as int).push(e));
                a0.take(i as int).lemma_filter_push(e, kept_by(present@));
                a0.take(i as int).lemma_filter_push(e, gone_by(present@));
            }
            if here {
                kept.push(e);
            } else {
                free.push_back(e.1);
                proof {
                    let g = a0.take(i as int).filter(gone_by(present@));
                    assert(g.push(e).map_values(|e: (usize, usize)| e.1) =~= g.map_values(|e: (usize, usize)| e.1).push(e.1));
                }
            }
            i += 1;
        }
        proof {
            assert(a0.take(i as int) =~= a0);
            lemma_filter_distinct(a0, kept_by(present@));
            lemma_filter_sub(a0, kept_by(present@));
            broadcast use vstd::seq_lib::group_filter_ensures;
            assert forall|k: int| 0 <= k < kept@.len() implies present@.contains(#[trigger] kept@[k].0) by {
                assert(kept_by(present@)(kept@[k]));
            }
        }
        let ghost kept0 = kept@;
        let ghost fr = freed(a0, f0, present@);
        let ghost fresh = |s: usize| !slots_of(a0).contains(s);
        // Newcomers take the front.
        let mut j: usize = 0;
        let mut handed: usize = 0;
        while j < present.len()
            invariant
                strictly_ascending(present@),
                slots_distinct(a0),
                kept0 == a0.filter(kept_by(present@)),
                forall|k: int| 0 <= k < kept0.len() ==> a0.contains(#[trigger] kept0[k]) && present@.contains(kept0[k].0),
                fr == freed(a0, f0, present@),
                fresh == (|s: usize| !slots_of(a0).contains(s)),
                kept0.len() <= a0.len(),
                j <= present@.len(),
                handed == present@.take(j as int).filter(fresh).len(),
                handed <= j,
                kept@ == kept0 + Seq::new(handed as nat, |k: int| (present@.take(j as int).filter(fresh)[k], handed_out(a0, f0, present@, k))),
                free@ == (if handed <= fr.len() { fr.skip(handed as int) } else { Seq::<usize>::empty() }),
                slots_distinct(kept@),
                forall|k: int| kept0.len() <= k < kept@.len() ==> present@.take(j as int).contains(#[trigger] kept@[k].0),
            decreases present@.len() - j,
        {
            let s = present[j];
            let ghost pf = present@.take(j as int).filter(fresh);
            proof {
                assert(present@.take(j + 1) =~= present@.take(j as int).push(s));
                present@.take(j as int).lemma_filter_push(s, fresh);
                lemma_filter_len(present@.take(j as int), fresh);
            }
            let known = has_slot(&kept, s);
            proof {
                if slots_of(a0).contains(s) {
                    let q = choose|q: int| 0 <= q < slots_of(a0).len() && slots_of(a0)[q] == s;
                    assert(a0[q].0 == s);
                    assert(kept_by(present@)(a0[q]));
                    lemma_filter_keeps(a0, kept_by(present@), q);
                    let r = choose|r: int| 0 <= r < kept0.len() && kept0[r] == a0[q];
                    assert(kept@[r] == kept0[r]);
                    assert(slots_of(kept@)[r] == s);
                } else {
                    assert forall|k: int| 0 <= k < slots_of(kept@).len() implies slots_of(kept@)[k] != s by {
                        if k < kept0.len() {
                            assert(kept@[k] == kept0[k]);
                            assert(a0.contains(kept0[k]));
                            let q = choose|q: int| 0 <= q < a0.len() && a0[q] == kept0[k];
                            if kept0[k].0 == s {
                                assert(slots_of(a0)[q] == s);
                            }
                        } else {
                            assert(present@.take(j as int).contains(kept@[k].0));
                            let q = choose|q: int| 0 <= q < j && present@.take(j as int)[q] == kept@[k].0;
                            assert(present@[q] < present@[j as int]);
                        }
                    }
                }
            }
            if !known {
                let ghost before = kept@;
                let p = match free.pop_front() {
                    Some(x) => x,
                    None => kept.len(),
                };
                proof {
                    assert(fresh(s));
                    if handed < fr.len() {
                        assert(p == fr[handed as int]);
                    } else {
                        assert(p == kept0.len() + handed);
                    }
                    assert(p == handed_out(a0, f0, present@, handed as int));
                }
                kept.push((s, p));
                proof {
                    let pf2 = present@.take(j + 1).filter(fresh);
                    assert(pf2 == pf.push(s));
                    assert(kept@ =~= kept0 + Seq::new((handed + 1) as nat, |k: int| (pf2[k], handed_out(a0, f0, present@, k))));
                    assert forall|a: int, b: int| 0 <= a < b < kept@.len() implies (#[trigger] kept@[a]).0 != (#[trigger] kept@[b]).0 by {
                        if b == kept@.len() - 1 {
                            assert(slots_of(before)[a] == kept@[a].0);
                        } else {
                            assert(before[a] == kept@[a] && before[b] == kept@[b]);
                        }
                    }
                    assert(free@ =~= (if handed + 1 <= fr.len() { fr.skip(handed + 1) } else { Seq::<usize>::empty() }));
                }
                handed += 1;
            } else {
                proof {
                    assert(!fresh(s));
                    assert(present@.take(j + 1).filter(fresh) == pf);
                }
            }
            proof {
                assert forall|k: int| kept0.len() <= k < kept@.len() implies present@.take(j + 1).contains(#[trigger] kept@[k].0) by {
                    if k < kept@.len() - 1 || known {
                        let q = choose|q: int| 0 <= q < j && present@.take(j as int)[q] == kept@[k].0;
                        assert(present@.take(j + 1)[q] == kept@[k].0);
                    } else {
                        assert(present@.take(j + 1)[j as int] == s);
                    }
                }
            }
            j += 1;
        }
        proof {
            assert(present@.take(j as int) =~= present@);
            assert(kept@ =~= reassigned(a0, f0, present@));
        }
        self.assigned = kept;
        self.free = free;
    }

    /// Palette index a slot maps to, falling back to 0 for an unassigned slot.
    pub fn palette_of(&self, slot: usize) -> (r: usize)
        ensures
            r == palette_in(self.assignments(), slot),
    {
        let mut i = self.assigned.len();
        assert(self.assigned@.take(i as int) =~= self.assigned@);
        while i > 0
            invariant
                i <= self.assigned@.len(),
                palette_in(self.assigned@, slot) == palette_in(self.assigned@.take(i as int), slot),
            decreases i,
        {
            proof {
                assert(self.assigned@.take(i as int).drop_last() =~= self.assigned@.take(i - 1));
            }
            if self.assigned[i - 1].0 == slot {
                return self.assigned[i - 1].1;
            }
            i -= 1;
        }
        0
    }
}

/// Whether `v` holds `x`.
fn contains_value(v: &Vec<usize>, x: usize) -> (r: bool)
    ensures
        r == v@.contains(x),
{
    let mut i: usize = 0;
    while i < v.len()
        invariant
            i <= v@.len(),
            forall|k: int| 0 <= k < i ==> v@[k] != x,
        decreases v@.len() - i,
    {
        if v[i] == x {
            assert(v@[i as int] == x);
            return true;
        }
        i += 1;
    }
    false
}

/// Whether `a` assigns `slot`.
fn has_slot(a: &Vec<(usize, usize)>, slot: usize) -> (r: bool)
    ensures
        r == slots_of(a@).contains(slot),
{
    let mut i: usize = 0;
    while i < a.len()
        invariant
            i <= a@.len(),
            forall|k: int| 0 <= k < i ==> a@[k].0 != slot,
        decreases a@.len() - i,
    {
        if a[i].0 == slot {
            assert(slots_of(a@)[i as int] == slot);
            return true;
        }
        i += 1;
    }
    assert forall|k: int| 0 <= k < slots_of(a@).len() implies slots_of(a@)[k] != slot by {
        assert(a@[k].0 != slot);
    }
    false
}

/// A slot that stays present keeps its palette index when the allocator reassigns indices.
pub proof fn law_survivor_keeps_index(before: PaletteAllocator, after: PaletteAllocator, present: Seq<usize>, slot: usize)
    requires
        before.wf(),
        after.wf(),
        after.assignments() == reassigned(before.assignments(), before.free_list(), present),
        present.contains(slot),
        slots_of(before.assignments()).contains(slot),
    ensures
        palette_in(after.assignments(), slot) == palette_in(before.assignments(), slot),
{
    let a = before.assignments();
    let k = choose|k: int| 0 <= k < slots_of(a).len() && slots_of(a)[k] == slot;
    assert(a[k].0 == slot);
    lemma_palette_in_at(a, k);
    let p = kept_by(present);
    assert(p(a[k]));
    lemma_filter_keeps(a, p, k);
    let r = choose|r: int| 0 <= r < a.filter(p).len() && a.filter(p)[r] == a[k];
    let after_a = after.assignments();
    assert(after_a[r] == a[k]);
    lemma_palette_in_at(after_a, r);
}

/// With distinct slots, the index of the slot at position `k` is the one stored there.
proof fn lemma_palette_in_at(a: Seq<(usize, usize)>, k: int)
    requires
        slots_distinct(a),
        0 <= k < a.len(),
    ensures
        palette_in(a, a[k].0) == a[k].1,
    decreases a.len(),
{
    if k < a.len() - 1 {
        assert(a.last().0 != a[k].0) by {
            assert(a[a.len() - 1] == a.last());
        }
        let rest = a.drop_last();
        assert forall|i: int, j: int| 0 <= i < j < rest.len() implies (#[trigger] rest[i]).0 != (#[trigger] rest[j]).0 by {
            assert(rest[i] == a[i] && rest[j] == a[j]);
        }
        assert(rest[k] == a[k]);
        lemma_palette_in_at(rest, k);
    }
}

/// Every element a filter keeps comes from the sequence.
proof fn lemma_filter_sub<A>(a: Seq<A>, p: spec_fn(A) -> bool)
    ensures
        forall|i: int| 0 <= i < a.filter(p).len() ==> a.contains(#[trigger] a.filter(p)[i]),
        a.filter(p).len() <= a.len(),
    decreases a.len(),
{
    reveal(Seq::filter);
    if a.len() > 0 {
        let rest = a.drop_last();
        lemma_filter_sub(rest, p);
        let fr = rest.filter(p);
        assert forall|i: int| 0 <= i < a.filter(p).len() implies a.contains(#[trigger] a.filter(p)[i]) by {
            if i < fr.len() {
                assert(a.filter(p)[i] == fr[i]);
                let q = choose|q: int| 0 <= q < rest.len() && rest[q] == fr[i];
                assert(a[q] == fr[i]);
            } else {
                assert(a.filter(p)[i] == a.last());
                assert(a[a.len() - 1] == a.last());
            }
        }
    }
}

/// A filter is no longer than the sequence.
proof fn lemma_filter_len<A>(a: Seq<A>, p: spec_fn(A) -> bool)
    ensures
        a.filter(p).len() <= a.len(),
{
    lemma_filter_sub(a, p);
}

/// An element the predicate holds of is kept.
proof fn lemma_filter_keeps<A>(a: Seq<A>, p: spec_fn(A) -> bool, i: int)
    requires
        0 <= i < a.len(),
        p(a[i]),
    ensures
        exists|r: int| 0 <= r < a.filter(p).len() && a.filter(p)[r] == a[i],
{
    broadcast use vstd::seq_lib::group_filter_ensures;
    assert(a.filter(p).contains(a[i]));
}

/// Filtering keeps slots distinct.
proof fn lemma_filter_distinct(a: Seq<(usize, usize)>, p: spec_fn((usize, usize)) -> bool)
    requires
        slots_distinct(a),
    ensures
        slots_distinct(a.filter(p)),
    decreases a.len(),
{
    reveal(Seq::filter);
    if a.len() > 0 {
        let rest = a.drop_last();
        assert forall|i: int, j: int| 0 <= i < j < rest.len() implies (#[trigger] rest[i]).0 != (#[trigger] rest[j]).0 by {
            assert(rest[i] == a[i] && rest[j] == a[j]);
        }
        lemma_filter_distinct(rest, p);
        let fr = rest.filter(p);
        lemma_filter_sub(rest, p);
        if p(a.last()) {
            assert forall|i: int, j: int| 0 <= i < j < a.filter(p).len() implies (#[trigger] a.filter(p)[i]).0 != (#[trigger] a.filter(p)[j]).0 by {
                assert(a.filter(p)[i] == fr[i]);
                if j == fr.len() {
                    assert(a.filter(p)[j] == a.last());
                    assert(rest.contains(fr[i]));
                    let q = choose|q: int| 0 <= q < rest.len() && rest[q] == fr[i];
                    assert(a[q] == fr[i]);
                    assert(a[a.len() - 1] == a.last());
                } else {
                    assert(a.filter(p)[j] == fr[j]);
                }
            }
        }
    }
}

} // verus!
