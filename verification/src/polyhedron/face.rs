use vstd::prelude::*;
use vstd::std_specs::cmp::PartialEqSpecImpl;
use super::FaceId;
use super::palette::{PaletteAllocator, palette_in, reassigned, refreed, strictly_ascending};

verus! {

/// A face's "type": side count plus its neighbors' sorted side-count multiset.
/// Stable across structural changes, unlike a raw face index.
#[derive(Debug, Clone)]
pub struct FaceTypeSignature {
    pub side_count: usize,
    pub neighbor_sides: Vec<usize>,
}

impl View for FaceTypeSignature {
    type V = (usize, Seq<usize>);

    open spec fn view(&self) -> (usize, Seq<usize>) {
        (self.side_count, self.neighbor_sides@)
    }
}

impl FaceTypeSignature {
    /// Whether both signatures are equal.
    pub fn same_as(&self, other: &FaceTypeSignature) -> (r: bool)
        ensures
            r == (self@ == other@),
    {
        if self.side_count != other.side_count || self.neighbor_sides.len() != other.neighbor_sides.len() {
            return false;
        }
        let mut i: usize = 0;
        while i < self.neighbor_sides.len()
            invariant
                i <= self.neighbor_sides@.len(),
                self.neighbor_sides@.len() == other.neighbor_sides@.len(),
                forall|k: int| 0 <= k < i ==> self.neighbor_sides@[k] == other.neighbor_sides@[k],
            decreases self.neighbor_sides@.len() - i,
        {
            if self.neighbor_sides[i] != other.neighbor_sides[i] {
                assert(self.neighbor_sides@[i as int] != other.neighbor_sides@[i as int]);
                return false;
            }
            i += 1;
        }
        assert(self.neighbor_sides@ =~= other.neighbor_sides@);
        true
    }
}

impl PartialEq for FaceTypeSignature {
    fn eq(&self, other: &Self) -> (r: bool) {
        self.same_as(other)
    }
}

impl PartialEqSpecImpl for FaceTypeSignature {
    open spec fn obeys_eq_spec() -> bool {
        true
    }

    open spec fn eq_spec(&self, other: &Self) -> bool {
        self@ == other@
    }
}

/// One distinct face "type" available to project through in Schlegel mode.
#[derive(Debug, Clone)]
pub struct FaceTypeOption {
    pub face_index: usize,
    pub signature: FaceTypeSignature,
    pub count: usize,
    pub label: String,
}

/// The value paired with the last occurrence of `k`, if any.
pub open spec fn lookup(pairs: Seq<(usize, usize)>, k: usize) -> Option<usize>
    decreases pairs.len(),
{
    if pairs.len() == 0 {
        None
    } else if pairs.last().0 == k {
        Some(pairs.last().1)
    } else {
        lookup(pairs.drop_last(), k)
    }
}

/// Ids paired with colors, as far as both go.
pub open spec fn zip_pairs(ids: Seq<usize>, colors: Seq<usize>) -> Seq<(usize, usize)> {
    let n = if ids.len() <= colors.len() { ids.len() } else { colors.len() };
    Seq::new(n, |i: int| (ids[i], colors[i]))
}

/// The color each face carries over: its own id's slot, else its parent's.
pub open spec fn transferred(slots: Seq<(usize, usize)>, parents: Seq<(usize, usize)>, ids: Seq<usize>) -> Seq<Option<usize>> {
    Seq::new(
        ids.len(),
        |i: int| match lookup(slots, ids[i]) {
            Some(c) => Some(c),
            None => match lookup(parents, ids[i]) {
                Some(p) => lookup(slots, p),
                None => None,
            },
        },
    )
}

/// The distinct signatures of the faces among the first `k` that carry no color, in order of
/// first appearance.
pub open spec fn minted_sigs(pre: Seq<Option<usize>>, sigs: Seq<(usize, Seq<usize>)>, k: nat) -> Seq<(usize, Seq<usize>)>
    decreases k,
{
    if k == 0 {
        Seq::empty()
    } else {
        let s = minted_sigs(pre, sigs, (k - 1) as nat);
        if pre[k - 1] is None && !s.contains(sigs[k - 1]) {
            s.push(sigs[k - 1])
        } else {
            s
        }
    }
}

/// Index of the first `x` in `s`, or its length.
pub open spec fn position_of<A>(s: Seq<A>, x: A) -> int
    decreases s.len(),
{
    if s.len() == 0 {
        0
    } else if s[0] == x {
        0
    } else {
        1 + position_of(s.drop_first(), x)
    }
}

/// Colors before normalization: carried-over ones, and for the rest one fresh slot per new
/// signature, counting up from `next`.
pub open spec fn initial_colors(pre: Seq<Option<usize>>, sigs: Seq<(usize, Seq<usize>)>, next: usize) -> Seq<usize> {
    Seq::new(
        pre.len(),
        |i: int| match pre[i] {
            Some(c) => c,
            None => (next + position_of(minted_sigs(pre, sigs, pre.len()), sigs[i])) as usize,
        },
    )
}

/// How many faces of signature `sig` among the first `k` have color `c`.
pub open spec fn votes(colors: Seq<usize>, sigs: Seq<(usize, Seq<usize>)>, sig: (usize, Seq<usize>), c: usize, k: nat) -> nat
    decreases k,
{
    if k == 0 {
        0
    } else {
        votes(colors, sigs, sig, c, (k - 1) as nat) + if sigs[k - 1] == sig && colors[k - 1] == c { 1nat } else { 0nat }
    }
}

/// Within the faces of signature `sig`, color `a` is preferred to `b`: a color carried over
/// beats one minted now, then more members win, then the smaller slot.
pub open spec fn preferred(
    colors: Seq<usize>,
    sigs: Seq<(usize, Seq<usize>)>,
    sig: (usize, Seq<usize>),
    next: usize,
    minted: nat,
    a: usize,
    b: usize,
) -> bool {
    let ma = next <= a < next + minted;
    let mb = next <= b < next + minted;
    let va = votes(colors, sigs, sig, a, colors.len());
    let vb = votes(colors, sigs, sig, b, colors.len());
    (!ma && mb) || (ma == mb && (va > vb || (va == vb && a < b)))
}

/// The color of face `i` after normalization: among the colors of its signature's faces, the
/// one preferred to all others.
pub open spec fn normalized_at(colors: Seq<usize>, sigs: Seq<(usize, Seq<usize>)>, next: usize, minted: nat, i: int, c: usize) -> bool {
    &&& exists|j: int| 0 <= j < colors.len() && sigs[j] == sigs[i] && #[trigger] colors[j] == c
    &&& forall|j: int| 0 <= j < colors.len() && sigs[j] == sigs[i] && colors[j] != c ==>
        preferred(colors, sigs, sigs[i], next, minted, c, #[trigger] colors[j])
}

/// Normalization gives all faces of one signature one color: two faces whose signatures match
/// end with the same color.
pub proof fn law_one_color_per_signature(
    colors: Seq<usize>,
    sigs: Seq<(usize, Seq<usize>)>,
    next: usize,
    minted: nat,
    i: int,
    j: int,
    ci: usize,
    cj: usize,
)
    requires
        0 <= i < colors.len(),
        0 <= j < colors.len(),
        sigs[i] == sigs[j],
        normalized_at(colors, sigs, next, minted, i, ci),
        normalized_at(colors, sigs, next, minted, j, cj),
    ensures
        ci == cj,
{
    if ci != cj {
        let wi = choose|w: int| 0 <= w < colors.len() && sigs[w] == sigs[i] && #[trigger] colors[w] == ci;
        let wj = choose|w: int| 0 <= w < colors.len() && sigs[w] == sigs[j] && #[trigger] colors[w] == cj;
        assert(preferred(colors, sigs, sigs[i], next, minted, ci, colors[wj]));
        assert(preferred(colors, sigs, sigs[j], next, minted, cj, colors[wi]));
    }
}

/// A genuinely new facetype gets a color of its own: when no face of `i`'s signature carries a
/// color over, every carried color lies below `next`, and some face of `j`'s signature carries
/// one, the two signatures end with different colors.
pub proof fn law_new_type_gets_new_color(
    pre: Seq<Option<usize>>,
    sigs: Seq<(usize, Seq<usize>)>,
    next: usize,
    i: int,
    j: int,
    ci: usize,
    cj: usize,
)
    requires
        pre.len() == sigs.len(),
        next + pre.len() <= usize::MAX,
        forall|k: int| 0 <= k < pre.len() && (#[trigger] pre[k]) is Some ==> pre[k]->0 < next,
        0 <= i < pre.len(),
        0 <= j < pre.len(),
        forall|k: int| 0 <= k < pre.len() && sigs[k] == sigs[i] ==> (#[trigger] pre[k]) is None,
        exists|k: int| 0 <= k < pre.len() && sigs[k] == sigs[j] && (#[trigger] pre[k]) is Some,
        normalized_at(initial_colors(pre, sigs, next), sigs, next, minted_sigs(pre, sigs, pre.len()).len(), i, ci),
        normalized_at(initial_colors(pre, sigs, next), sigs, next, minted_sigs(pre, sigs, pre.len()).len(), j, cj),
    ensures
        ci != cj,
{
    let init = initial_colors(pre, sigs, next);
    let ms = minted_sigs(pre, sigs, pre.len());
    let m = ms.len();
    lemma_minted_len(pre, sigs, pre.len());
    assert forall|k: int| 0 <= k < pre.len() && (#[trigger] pre[k]) is None implies next <= init[k] < next + m by {
        lemma_minted_contains(pre, sigs, k, pre.len());
        lemma_position_of(ms, sigs[k]);
    }
    let wi = choose|w: int| 0 <= w < init.len() && sigs[w] == sigs[i] && #[trigger] init[w] == ci;
    assert(pre[wi] is None);
    let kj = choose|k: int| 0 <= k < pre.len() && sigs[k] == sigs[j] && (#[trigger] pre[k]) is Some;
    let wj = choose|w: int| 0 <= w < init.len() && sigs[w] == sigs[j] && #[trigger] init[w] == cj;
    assert(init[kj] < next);
    if pre[wj] is None {
        assert(next <= init[wj] < next + m);
        assert(cj != init[kj]);
        assert(preferred(init, sigs, sigs[j], next, m, cj, init[kj]));
    }
}

/// Where `x` goes in the ascending `s`: before the first element not below it.
pub open spec fn insert_pos(s: Seq<usize>, x: usize) -> int
    decreases s.len(),
{
    if s.len() == 0 {
        0
    } else if s[0] >= x {
        0
    } else {
        1 + insert_pos(s.drop_first(), x)
    }
}

/// The distinct values of `v`, ascending.
pub open spec fn distinct_sorted(v: Seq<usize>) -> Seq<usize>
    decreases v.len(),
{
    if v.len() == 0 {
        Seq::empty()
    } else {
        let s = distinct_sorted(v.drop_last());
        if s.contains(v.last()) {
            s
        } else {
            s.insert(insert_pos(s, v.last()), v.last())
        }
    }
}

proof fn lemma_insert_pos(s: Seq<usize>, x: usize)
    ensures
        0 <= insert_pos(s, x) <= s.len(),
        forall|k: int| 0 <= k < insert_pos(s, x) ==> #[trigger] s[k] < x,
        insert_pos(s, x) < s.len() ==> s[insert_pos(s, x)] >= x,
    decreases s.len(),
{
    if s.len() > 0 && s[0] < x {
        lemma_insert_pos(s.drop_first(), x);
        assert forall|k: int| 0 <= k < insert_pos(s, x) implies #[trigger] s[k] < x by {
            if k > 0 {
                assert(s[k] == s.drop_first()[k - 1]);
            }
        }
    }
}

/// Bookkeeping for the colors of faces, kept apart from the physical simulation since it
/// tracks facetype identity. A face id keeps its color slot for as long as it lives.
#[derive(Debug, Clone)]
pub struct FaceColoring {
    /// Color slot per current face, parallel to `shape.cycles`.
    pub colors: Vec<usize>,
    /// Next unused color slot; monotonically increasing so new facetypes get distinct colors.
    next_color_slot: usize,
    /// Cached palette index per face; derived from `colors` via `allocator`.
    pub render_indices: Vec<usize>,
    /// Maps color slots to stable, recyclable palette indices.
    allocator: PaletteAllocator,
    /// Persistent color slot per live face id; the last pair for an id counts.
    slots: Vec<(FaceId, usize)>,
}

impl Default for FaceColoring {
    fn default() -> (r: Self)
        ensures
            r.wf(),
            r.color_seq() == Seq::<usize>::empty(),
            r.render_seq() == Seq::<usize>::empty(),
            r.next_slot() == 0,
            r.slot_pairs() == Seq::<(usize, usize)>::empty(),
    {
        FaceColoring {
            colors: Vec::new(),
            next_color_slot: 0,
            render_indices: Vec::new(),
            allocator: PaletteAllocator::default(),
            slots: Vec::new(),
        }
    }
}

impl FaceColoring {
    /// The color slot of every face.
    pub closed spec fn color_seq(&self) -> Seq<usize> {
        self.colors@
    }

    /// The palette index of every face.
    pub closed spec fn render_seq(&self) -> Seq<usize> {
        self.render_indices@
    }

    /// The next unused color slot.
    pub closed spec fn next_slot(&self) -> usize {
        self.next_color_slot
    }

    /// The palette allocator.
    pub closed spec fn palette(&self) -> PaletteAllocator {
        self.allocator
    }

    /// The `(face id, slot)` pairs.
    pub closed spec fn slot_pairs(&self) -> Seq<(FaceId, usize)> {
        self.slots@
    }

    pub closed spec fn wf(&self) -> bool {
        self.allocator.wf()
    }

    /// Render indices are the palette indices of the colors under `a`.
    pub open spec fn rendered(colors: Seq<usize>, a: PaletteAllocator) -> Seq<usize> {
        colors.map_values(|c: usize| palette_in(a.assignments(), c))
    }

    /// Tells the coloring how many palette entries exist, refreshing render indices if it changed.
    pub fn set_palette_len(&mut self, len: usize)
        requires
            old(self).wf(),
            old(self).palette().assignments().len() + old(self).palette().free_list().len() <= usize::MAX,
        ensures
            final(self).wf(),
            final(self).color_seq() == old(self).color_seq(),
            final(self).next_slot() == old(self).next_slot(),
            final(self).slot_pairs() == old(self).slot_pairs(),
            ({
                let a = old(self).palette();
                let total = a.assignments().len() + a.free_list().len();
                total == len ==> {
                    &&& final(self).palette().assignments() == a.assignments()
                    &&& final(self).palette().free_list() == a.free_list()
                    &&& final(self).render_seq() == old(self).render_seq()
                }
            }),
            ({
                let a = old(self).palette();
                let total = a.assignments().len() + a.free_list().len();
                let p = distinct_sorted(old(self).color_seq());
                total != len ==> {
                    &&& final(self).render_seq() == Self::rendered(old(self).color_seq(), final(self).palette())
                    &&& final(self).palette().assignments() == reassigned(
                        if total < len { a.assignments() } else { a.assignments().filter(super::palette::assigned_below(len)) },
                        if total < len {
                            a.free_list() + Seq::new((len - total) as nat, |i: int| (total + i) as usize)
                        } else {
                            a.free_list().filter(super::palette::below(len))
                        },
                        p,
                    )
                    &&& final(self).palette().free_list() == refreed(
                        if total < len { a.assignments() } else { a.assignments().filter(super::palette::assigned_below(len)) },
                        if total < len {
                            a.free_list() + Seq::new((len - total) as nat, |i: int| (total + i) as usize)
                        } else {
                            a.free_list().filter(super::palette::below(len))
                        },
                        p,
                    )
                }
            }),
    {
        if self.allocator.set_len(len) {
            self.refresh_render_indices();
        }
    }

    /// Assigns colors fresh when there is no prior state to preserve, wiping leftover id and
    /// palette state.
    pub fn bootstrap(&mut self, face_ids: &[FaceId], colors: Vec<usize>, next_color_slot: usize)
        requires
            old(self).wf(),
        ensures
            final(self).wf(),
            final(self).slot_pairs() == zip_pairs(face_ids@, colors@),
            final(self).color_seq() == colors@,
            final(self).next_slot() == next_color_slot,
            final(self).palette().assignments() == reassigned(
                Seq::<(usize, usize)>::empty(),
                Seq::new(next_color_slot as nat, |i: int| i as usize),
                distinct_sorted(colors@),
            ),
            final(self).palette().free_list() == refreed(
                Seq::<(usize, usize)>::empty(),
                Seq::new(next_color_slot as nat, |i: int| i as usize),
                distinct_sorted(colors@),
            ),
            final(self).render_seq() == Self::rendered(colors@, final(self).palette()),
    {
        let n = if face_ids.len() <= colors.len() { face_ids.len() } else { colors.len() };
        let mut slots: Vec<(FaceId, usize)> = Vec::new();
        let mut i: usize = 0;
        while i < n
            invariant
                n <= face_ids@.len(),
                n <= colors@.len(),
                n == (if face_ids@.len() <= colors@.len() { face_ids@.len() } else { colors@.len() }),
                i <= n,
                slots@ == zip_pairs(face_ids@, colors@).take(i as int),
            decreases n - i,
        {
            slots.push((face_ids[i], colors[i]));
            i += 1;
            assert(slots@ =~= zip_pairs(face_ids@, colors@).take(i as int));
        }
        assert(zip_pairs(face_ids@, colors@).take(i as int) =~= zip_pairs(face_ids@, colors@));
        self.slots = slots;
        self.colors = colors;
        self.next_color_slot = next_color_slot;
        self.allocator = PaletteAllocator::default();
        self.allocator.set_len(next_color_slot);
        proof {
            assert(Seq::<usize>::empty() + Seq::new((next_color_slot - 0) as nat, |i: int| (0 + i) as usize)
                =~= Seq::new(next_color_slot as nat, |i: int| i as usize));
        }
        self.refresh_render_indices();
    }

    /// Reassigns palette indices for the current slots and rebuilds the cached render indices.
    pub fn refresh_render_indices(&mut self)
        requires
            old(self).wf(),
        ensures
            final(self).wf(),
            final(self).color_seq() == old(self).color_seq(),
            final(self).next_slot() == old(self).next_slot(),
            final(self).slot_pairs() == old(self).slot_pairs(),
            final(self).palette().assignments() == reassigned(
                old(self).palette().assignments(),
                old(self).palette().free_list(),
                distinct_sorted(old(self).color_seq()),
            ),
            final(self).palette().free_list() == refreed(
                old(self).palette().assignments(),
                old(self).palette().free_list(),
                distinct_sorted(old(self).color_seq()),
            ),
            final(self).render_seq() == Self::rendered(old(self).color_seq(), final(self).palette()),
    {
        let present = distinct_ascending(&self.colors);
        self.allocator.reassign(&present);
        let mut r: Vec<usize> = Vec::new();
        let mut i: usize = 0;
        while i < self.colors.len()
            invariant
                i <= self.colors@.len(),
                r@ == Self::rendered(self.colors@, self.allocator).take(i as int),
            decreases self.colors@.len() - i,
        {
            let p = self.allocator.palette_of(self.colors[i]);
            r.push(p);
            i += 1;
            assert(r@ =~= Self::rendered(self.colors@, self.allocator).take(i as int));
        }
        assert(Self::rendered(self.colors@, self.allocator).take(i as int) =~= Self::rendered(self.colors@, self.allocator));
        self.render_indices = r;
    }
}

/// The distinct values of `v`, ascending.
pub fn distinct_ascending(v: &Vec<usize>) -> (r: Vec<usize>)
    ensures
        r@ == distinct_sorted(v@),
        strictly_ascending(r@),
        r@.to_set() == v@.to_set(),
{
    let mut r: Vec<usize> = Vec::new();
    let mut i: usize = 0;
    assert(v@.take(0).to_set() =~= Set::<usize>::empty());
    assert(r@.to_set() =~= Set::<usize>::empty());
    while i < v.len()
        invariant
            i <= v@.len(),
            r@ == distinct_sorted(v@.take(i as int)),
            strictly_ascending(r@),
            r@.to_set() == v@.take(i as int).to_set(),
        decreases v@.len() - i,
    {
        let x = v[i];
        let ghost s = r@;
        proof {
            assert(v@.take(i + 1).drop_last() =~= v@.take(i as int));
            assert(v@.take(i + 1).last() == x);
            lemma_insert_pos(s, x);
        }
        let mut pos: usize = 0;
        while pos < r.len() && r[pos] < x
            invariant
                r@ == s,
                pos <= insert_pos(s, x),
                0 <= insert_pos(s, x) <= s.len(),
                forall|k: int| 0 <= k < insert_pos(s, x) ==> #[trigger] s[k] < x,
                insert_pos(s, x) < s.len() ==> s[insert_pos(s, x)] >= x,
            decreases s.len() - pos,
        {
            pos += 1;
        }
        let known = pos < r.len() && r[pos] == x;
        proof {
            assert(pos == insert_pos(s, x));
            if s.contains(x) {
                let k = choose|k: int| 0 <= k < s.len() && s[k] == x;
                if k < pos {
                    assert(s[k] < x);
                } else if k > pos {
                    assert(s[pos as int] < s[k]);
                }
            }
        }
        if !known {
            r.insert(pos, x);
            proof {
                assert(!s.contains(x));
                assert(r@ == s.insert(pos as int, x));
                assert forall|a: int, b: int| 0 <= a < b < r@.len() implies r@[a] < r@[b] by {
                    if b < pos {
                        assert(r@[a] == s[a] && r@[b] == s[b]);
                    } else if b == pos {
                        assert(r@[a] == s[a]);
                    } else if a < pos {
                        assert(r@[a] == s[a] && r@[b] == s[b - 1]);
                        assert(s[b - 1] >= x);
                    } else if a == pos {
                        assert(r@[b] == s[b - 1]);
                        assert(s[b - 1] >= s[pos as int]);
                        assert(s[pos as int] != x);
                    } else {
                        assert(r@[a] == s[a - 1] && r@[b] == s[b - 1]);
                    }
                }
                assert forall|y: usize| #[trigger] r@.to_set().contains(y) == v@.take(i + 1).to_set().contains(y) by {
                    if r@.contains(y) {
                        let k = choose|k: int| 0 <= k < r@.len() && r@[k] == y;
                        if k < pos {
                            assert(s[k] == y && s.contains(y));
                        } else if k > pos {
                            assert(s[k - 1] == y && s.contains(y));
                        }
                        if y != x {
                            assert(v@.take(i as int).to_set().contains(y));
                            let q = choose|q: int| 0 <= q < i && #[trigger] v@.take(i as int)[q] == y;
                            assert(v@.take(i + 1)[q] == y);
                        } else {
                            assert(v@.take(i + 1)[i as int] == x);
                        }
                    }
                    if v@.take(i + 1).contains(y) {
                        let q = choose|q: int| 0 <= q < i + 1 && #[trigger] v@.take(i + 1)[q] == y;
                        if q < i {
                            assert(v@.take(i as int)[q] == y);
                            assert(s.to_set().contains(y));
                            let k = choose|k: int| 0 <= k < s.len() && s[k] == y;
                            if k < pos {
                                assert(r@[k] == y);
                            } else {
                                assert(r@[k + 1] == y);
                            }
                        } else {
                            assert(r@[pos as int] == x);
                        }
                    }
                }
                assert(r@.to_set() =~= v@.take(i + 1).to_set());
            }
        } else {
            proof {
                assert(s.contains(x));
                assert forall|y: usize| #[trigger] r@.to_set().contains(y) == v@.take(i + 1).to_set().contains(y) by {
                    if v@.take(i + 1).contains(y) {
                        let q = choose|q: int| 0 <= q < i + 1 && #[trigger] v@.take(i + 1)[q] == y;
                        if q < i {
                            assert(v@.take(i as int)[q] == y);
                        } else {
                            assert(y == x);
                        }
                    }
                    if r@.contains(y) {
                        assert(v@.take(i as int).to_set().contains(y));
                        let q = choose|q: int| 0 <= q < i && #[trigger] v@.take(i as int)[q] == y;
                        assert(v@.take(i + 1)[q] == y);
                    }
                }
                assert(r@.to_set() =~= v@.take(i + 1).to_set());
            }
        }
        i += 1;
    }
    assert(v@.take(i as int) =~= v@);
    r
}

/// The views of a list of signatures.
pub open spec fn sig_views(sigs: Seq<FaceTypeSignature>) -> Seq<(usize, Seq<usize>)> {
    sigs.map_values(|g: FaceTypeSignature| g@)
}

proof fn lemma_position_of<A>(s: Seq<A>, x: A)
    ensures
        0 <= position_of(s, x) <= s.len(),
        s.contains(x) ==> position_of(s, x) < s.len() && s[position_of(s, x)] == x,
        forall|k: int| 0 <= k < position_of(s, x) ==> #[trigger] s[k] != x,
    decreases s.len(),
{
    if s.len() > 0 && s[0] != x {
        lemma_position_of(s.drop_first(), x);
        assert forall|k: int| 0 <= k < position_of(s, x) implies #[trigger] s[k] != x by {
            if k > 0 {
                assert(s[k] == s.drop_first()[k - 1]);
            }
        }
        if s.contains(x) {
            let k = choose|k: int| 0 <= k < s.len() && s[k] == x;
            assert(s.drop_first()[k - 1] == x);
        }
    }
}

/// A position found in a prefix is the position in the whole.
proof fn lemma_position_prefix<A>(a: Seq<A>, b: Seq<A>, x: A)
    requires
        a.len() <= b.len(),
        b.take(a.len() as int) == a,
        a.contains(x),
    ensures
        position_of(a, x) == position_of(b, x),
{
    lemma_position_of(a, x);
    lemma_position_of(b, x);
    let p = position_of(a, x);
    assert(b[p] == a[p]);
    let q = position_of(b, x);
    if q < p {
        assert(a[q] == b[q]);
    }
}

/// The minted signatures of a prefix of the faces are a prefix of all of them.
proof fn lemma_minted_prefix(pre: Seq<Option<usize>>, sigs: Seq<(usize, Seq<usize>)>, k: nat, n: nat)
    requires
        k <= n,
    ensures
        minted_sigs(pre, sigs, k).len() <= minted_sigs(pre, sigs, n).len(),
        minted_sigs(pre, sigs, n).take(minted_sigs(pre, sigs, k).len() as int) == minted_sigs(pre, sigs, k),
    decreases n - k,
{
    if k < n {
        lemma_minted_prefix(pre, sigs, k, (n - 1) as nat);
        let a = minted_sigs(pre, sigs, (n - 1) as nat);
        let b = minted_sigs(pre, sigs, n);
        let c = minted_sigs(pre, sigs, k);
        assert(b.take(a.len() as int) == a);
        assert(b.take(c.len() as int) =~= a.take(c.len() as int));
    } else {
        assert(minted_sigs(pre, sigs, n).take(minted_sigs(pre, sigs, n).len() as int) =~= minted_sigs(pre, sigs, n));
    }
}

/// Every face without a carried-over color has its signature minted.
proof fn lemma_minted_contains(pre: Seq<Option<usize>>, sigs: Seq<(usize, Seq<usize>)>, i: int, n: nat)
    requires
        0 <= i < n,
        pre[i] is None,
    ensures
        minted_sigs(pre, sigs, n).contains(sigs[i]),
    decreases n,
{
    if i < n - 1 {
        lemma_minted_contains(pre, sigs, i, (n - 1) as nat);
        let a = minted_sigs(pre, sigs, (n - 1) as nat);
        let j = choose|j: int| 0 <= j < a.len() && a[j] == sigs[i];
        assert(minted_sigs(pre, sigs, n)[j] == sigs[i]);
    } else {
        let a = minted_sigs(pre, sigs, (n - 1) as nat);
        if !a.contains(sigs[i]) {
            assert(minted_sigs(pre, sigs, n)[a.len() as int] == sigs[i]);
        } else {
            let j = choose|j: int| 0 <= j < a.len() && a[j] == sigs[i];
            assert(minted_sigs(pre, sigs, n)[j] == sigs[i]);
        }
    }
}

proof fn lemma_minted_len(pre: Seq<Option<usize>>, sigs: Seq<(usize, Seq<usize>)>, n: nat)
    ensures
        minted_sigs(pre, sigs, n).len() <= n,
    decreases n,
{
    if n > 0 {
        lemma_minted_len(pre, sigs, (n - 1) as nat);
    }
}

/// `preferred` is a strict total order on distinct colors.
proof fn lemma_preferred(
    colors: Seq<usize>,
    sigs: Seq<(usize, Seq<usize>)>,
    sig: (usize, Seq<usize>),
    next: usize,
    minted: nat,
    a: usize,
    b: usize,
    c: usize,
)
    ensures
        a != b ==> preferred(colors, sigs, sig, next, minted, a, b) || preferred(colors, sigs, sig, next, minted, b, a),
        preferred(colors, sigs, sig, next, minted, a, b) && preferred(colors, sigs, sig, next, minted, b, c)
            ==> preferred(colors, sigs, sig, next, minted, a, c),
        !preferred(colors, sigs, sig, next, minted, a, a),
{
}

/// The value paired with the last `k`.
fn lookup_exec(pairs: &Vec<(usize, usize)>, k: usize) -> (r: Option<usize>)
    ensures
        r == lookup(pairs@, k),
{
    let mut i = pairs.len();
    assert(pairs@.take(i as int) =~= pairs@);
    while i > 0
        invariant
            i <= pairs@.len(),
            lookup(pairs@, k) == lookup(pairs@.take(i as int), k),
        decreases i,
    {
        proof {
            assert(pairs@.take(i as int).drop_last() =~= pairs@.take(i - 1));
        }
        if pairs[i - 1].0 == k {
            return Some(pairs[i - 1].1);
        }
        i -= 1;
    }
    None
}

/// How many faces with the signature of face `i` have color `c`.
fn votes_exec(colors: &Vec<usize>, signatures: &[FaceTypeSignature], i: usize, c: usize) -> (r: usize)
    requires
        colors@.len() == signatures@.len(),
        i < signatures@.len(),
    ensures
        r == votes(colors@, sig_views(signatures@), signatures@[i as int]@, c, colors@.len() as nat),
{
    let ghost sigs = sig_views(signatures@);
    let mut count: usize = 0;
    let mut j: usize = 0;
    while j < colors.len()
        invariant
            colors@.len() == signatures@.len(),
            sigs == sig_views(signatures@),
            i < signatures@.len(),
            j <= colors@.len(),
            count == votes(colors@, sigs, signatures@[i as int]@, c, j as nat),
            count <= j,
        decreases colors@.len() - j,
    {
        let same = signatures[j].same_as(&signatures[i]);
        proof {
            assert(sigs[j as int] == signatures@[j as int]@);
        }
        if same && colors[j] == c {
            count += 1;
        }
        j += 1;
    }
    count
}

/// Position among `reps` of a face whose signature equals that of face `i`.
fn find_signature(signatures: &[FaceTypeSignature], reps: &Vec<usize>, i: usize) -> (r: Option<usize>)
    requires
        i < signatures@.len(),
        forall|q: int| 0 <= q < reps@.len() ==> #[trigger] reps@[q] < signatures@.len(),
    ensures
        match r {
            Some(k) => k < reps@.len() && signatures@[reps@[k as int] as int]@ == signatures@[i as int]@
                && forall|q: int| 0 <= q < k ==> signatures@[#[trigger] reps@[q] as int]@ != signatures@[i as int]@,
            None => forall|q: int| 0 <= q < reps@.len() ==> signatures@[#[trigger] reps@[q] as int]@ != signatures@[i as int]@,
        },
{
    let mut k: usize = 0;
    while k < reps.len()
        invariant
            i < signatures@.len(),
            forall|q: int| 0 <= q < reps@.len() ==> #[trigger] reps@[q] < signatures@.len(),
            k <= reps@.len(),
            forall|q: int| 0 <= q < k ==> signatures@[#[trigger] reps@[q] as int]@ != signatures@[i as int]@,
        decreases reps@.len() - k,
    {
        if signatures[reps[k]].same_as(&signatures[i]) {
            return Some(k);
        }
        k += 1;
    }
    None
}

impl FaceColoring {
    /// Carries colors across a structural change: surviving ids keep their slot, parented
    /// fresh ids inherit it, and remaining fresh ids get one new slot per signature.
    /// Normalization then gives all faces of a signature the same color, preferring carried-over
    /// slots over ones minted now, then most members, then the smallest slot.
    pub fn finalize(&mut self, face_ids: &[FaceId], birth_parents: &Vec<(FaceId, FaceId)>, signatures: &[FaceTypeSignature])
        requires
            old(self).wf(),
            face_ids@.len() == signatures@.len(),
            old(self).next_slot() + face_ids@.len() <= usize::MAX,
        ensures
            final(self).wf(),
            ({
                let pre = transferred(old(self).slot_pairs(), birth_parents@, face_ids@);
                let sigs = sig_views(signatures@);
                let init = initial_colors(pre, sigs, old(self).next_slot());
                let minted = minted_sigs(pre, sigs, face_ids@.len()).len();
                &&& final(self).next_slot() == old(self).next_slot() + minted
                &&& final(self).color_seq().len() == face_ids@.len()
                &&& forall|i: int| 0 <= i < face_ids@.len() ==>
                    normalized_at(init, sigs, old(self).next_slot(), minted, i, #[trigger] final(self).color_seq()[i])
            }),
            final(self).slot_pairs() == zip_pairs(face_ids@, final(self).color_seq()),
            final(self).palette().assignments() == reassigned(
                old(self).palette().assignments(),
                old(self).palette().free_list(),
                distinct_sorted(final(self).color_seq()),
            ),
            final(self).palette().free_list() == refreed(
                old(self).palette().assignments(),
                old(self).palette().free_list(),
                distinct_sorted(final(self).color_seq()),
            ),
            final(self).render_seq() == Self::rendered(final(self).color_seq(), final(self).palette()),
    {
        let n = face_ids.len();
        let ghost sigs = sig_views(signatures@);
        let ghost pre_s = transferred(self.slots@, birth_parents@, face_ids@);
        let next = self.next_color_slot;
        // Exact transfer by id, then by parent id.
        let mut pre: Vec<Option<usize>> = Vec::new();
        let mut i: usize = 0;
        while i < n
            invariant
                n == face_ids@.len(),
                pre_s == transferred(self.slots@, birth_parents@, face_ids@),
                i <= n,
                pre@ == pre_s.take(i as int),
            decreases n - i,
        {
            let id = face_ids[i];
            let own = lookup_exec(&self.slots, id);
            let t = match own {
                Some(c) => Some(c),
                None => match lookup_exec(birth_parents, id) {
                    Some(p) => lookup_exec(&self.slots, p),
                    None => None,
                },
            };
            pre.push(t);
            i += 1;
            assert(pre@ =~= pre_s.take(i as int));
        }
        assert(pre_s.take(i as int) =~= pre_s);
        // Mint for the genuinely new facetypes.
        let ghost init = initial_colors(pre_s, sigs, next);
        let ghost all = minted_sigs(pre_s, sigs, n as nat);
        let mut reps: Vec<usize> = Vec::new();
        let mut colors: Vec<usize> = Vec::new();
        proof {
            lemma_minted_len(pre_s, sigs, n as nat);
        }
        let mut i: usize = 0;
        while i < n
            invariant
                n == face_ids@.len(),
                n == signatures@.len(),
                sigs == sig_views(signatures@),
                pre@ == pre_s,
                pre_s.len() == n,
                init == initial_colors(pre_s, sigs, next),
                all == minted_sigs(pre_s, sigs, n as nat),
                all.len() <= n,
                next + n <= usize::MAX,
                i <= n,
                reps@.len() == minted_sigs(pre_s, sigs, i as nat).len(),
                forall|k: int| 0 <= k < reps@.len() ==> #[trigger] reps@[k] < n && sigs[reps@[k] as int] == minted_sigs(pre_s, sigs, i as nat)[k],
                colors@ == init.take(i as int),
            decreases n - i,
        {
            let ghost cur = minted_sigs(pre_s, sigs, i as nat);
            proof {
                lemma_minted_prefix(pre_s, sigs, i as nat, n as nat);
                lemma_minted_prefix(pre_s, sigs, (i + 1) as nat, n as nat);
                lemma_minted_len(pre_s, sigs, i as nat);
            }
            match pre[i] {
                Some(c) => {
                    colors.push(c);
                    proof {
                        assert(init[i as int] == c);
                    }
                },
                None => {
                    let found = find_signature(signatures, &reps, i);
                    proof {
                        lemma_position_of(cur, sigs[i as int]);
                        lemma_minted_contains(pre_s, sigs, i as int, n as nat);
                    }
                    if let Some(k) = found {
                        proof {
                            assert(sigs[reps@[k as int] as int] == signatures@[reps@[k as int] as int]@);
                            assert(sigs[i as int] == signatures@[i as int]@);
                            assert(cur[k as int] == sigs[i as int]);
                            assert(cur.contains(sigs[i as int]));
                            assert forall|q: int| 0 <= q < k implies cur[q] != sigs[i as int] by {
                                assert(sigs[reps@[q] as int] == signatures@[reps@[q] as int]@);
                            }
                            lemma_position_prefix(cur, all, sigs[i as int]);
                            assert(position_of(cur, sigs[i as int]) == k);
                        }
                        colors.push(next + k);
                    } else {
                        proof {
                            assert forall|q: int| 0 <= q < cur.len() implies cur[q] != sigs[i as int] by {
                                assert(sigs[reps@[q] as int] == signatures@[reps@[q] as int]@);
                                assert(sigs[i as int] == signatures@[i as int]@);
                            }
                            assert(!cur.contains(sigs[i as int]));
                            let nxt = minted_sigs(pre_s, sigs, (i + 1) as nat);
                            assert(nxt == cur.push(sigs[i as int]));
                            assert(nxt.contains(sigs[i as int])) by {
                                assert(nxt[cur.len() as int] == sigs[i as int]);
                            }
                            lemma_position_prefix(nxt, all, sigs[i as int]);
                            lemma_position_of(nxt, sigs[i as int]);
                            assert(position_of(nxt, sigs[i as int]) == cur.len()) by {
                                if position_of(nxt, sigs[i as int]) < cur.len() {
                                    assert(cur[position_of(nxt, sigs[i as int])] == sigs[i as int]);
                                }
                            }
                        }
                        let slot = next + reps.len();
                        reps.push(i);
                        colors.push(slot);
                    }
                },
            }
            proof {
                assert(colors@ =~= init.take(i + 1));
                let nxt = minted_sigs(pre_s, sigs, (i + 1) as nat);
                assert forall|q: int| 0 <= q < reps@.len() implies #[trigger] reps@[q] < n && sigs[reps@[q] as int] == nxt[q] by {
                    if q < cur.len() {
                        assert(nxt[q] == cur[q]);
                    }
                }
            }
            i += 1;
        }
        assert(init.take(i as int) =~= init);
        let minted = reps.len();
        // Normalization: one color per signature.
        let mut fin: Vec<usize> = Vec::new();
        let mut i: usize = 0;
        while i < n
            invariant
                n == face_ids@.len(),
                n == signatures@.len(),
                sigs == sig_views(signatures@),
                colors@ == init,
                init.len() == n,
                minted == all.len(),
                next + n <= usize::MAX,
                minted <= n,
                i <= n,
                fin@.len() == i,
                forall|q: int| 0 <= q < i ==> normalized_at(init, sigs, next, minted as nat, q, #[trigger] fin@[q]),
            decreases n - i,
        {
            let mut best = colors[i];
            let mut j: usize = 0;
            while j < n
                invariant
                    n == signatures@.len(),
                    sigs == sig_views(signatures@),
                    colors@ == init,
                    init.len() == n,
                    next + n <= usize::MAX,
                    minted <= n,
                    i < n,
                    j <= n,
                    exists|q: int| 0 <= q < n && sigs[q] == sigs[i as int] && #[trigger] init[q] == best,
                    forall|q: int| 0 <= q < j && sigs[q] == sigs[i as int] && init[q] != best ==>
                        preferred(init, sigs, sigs[i as int], next, minted as nat, best, #[trigger] init[q]),
                decreases n - j,
            {
                let same = signatures[j].same_as(&signatures[i]);
                proof {
                    assert(sigs[j as int] == signatures@[j as int]@);
                    assert(sigs[i as int] == signatures@[i as int]@);
                }
                let c = colors[j];
                if same && c != best {
                    let mc = next <= c && c < next + minted;
                    let mb = next <= best && best < next + minted;
                    let vc = votes_exec(&colors, signatures, i, c);
                    let vb = votes_exec(&colors, signatures, i, best);
                    if (!mc && mb) || (mc == mb && (vc > vb || (vc == vb && c < best))) {
                        proof {
                            assert(preferred(init, sigs, sigs[i as int], next, minted as nat, c, best));
                            assert forall|q: int| 0 <= q < j + 1 && sigs[q] == sigs[i as int] && init[q] != c implies
                                preferred(init, sigs, sigs[i as int], next, minted as nat, c, #[trigger] init[q]) by {
                                lemma_preferred(init, sigs, sigs[i as int], next, minted as nat, c, best, init[q]);
                            }
                        }
                        best = c;
                    } else {
                        proof {
                            assert(!preferred(init, sigs, sigs[i as int], next, minted as nat, c, best));
                            lemma_preferred(init, sigs, sigs[i as int], next, minted as nat, c, best, c);
                        }
                    }
                }
                j += 1;
            }
            fin.push(best);
            proof {
                assert(fin@[i as int] == best);
            }
            i += 1;
        }
        // Live ids adopt their final slots.
        let mut slots: Vec<(FaceId, usize)> = Vec::new();
        let mut i: usize = 0;
        while i < n
            invariant
                n == face_ids@.len(),
                fin@.len() == n,
                i <= n,
                slots@ == zip_pairs(face_ids@, fin@).take(i as int),
            decreases n - i,
        {
            slots.push((face_ids[i], fin[i]));
            i += 1;
            assert(slots@ =~= zip_pairs(face_ids@, fin@).take(i as int));
        }
        assert(zip_pairs(face_ids@, fin@).take(i as int) =~= zip_pairs(face_ids@, fin@));
        self.slots = slots;
        self.colors = fin;
        self.next_color_slot = next + minted;
        self.refresh_render_indices();
    }
}

} // verus!
