use vstd::prelude::*;
use vstd::relations::{sorted_by, total_ordering};

verus! {

broadcast use vstd::seq_lib::group_to_multiset_ensures;

/// The usual order on `usize`.
pub open spec fn usize_le(a: usize, b: usize) -> bool {
    a <= b
}

/// The usual order on `usize`, as a relation.
pub open spec fn ascending() -> spec_fn(usize, usize) -> bool {
    |a: usize, b: usize| usize_le(a, b)
}

/// `ascending` is a total order.
pub proof fn lemma_ascending_total()
    ensures
        total_ordering(ascending()),
{
}

/// The values of `v` in ascending order.
pub fn sort_values(v: &Vec<usize>) -> (r: Vec<usize>)
    ensures
        r@ == v@.sort_by(ascending()),
{
    let ghost le = ascending();
    let mut out: Vec<usize> = Vec::new();
    let mut i: usize = 0;
    assert(v@.take(0) =~= Seq::<usize>::empty());
    while i < v.len()
        invariant
            i <= v@.len(),
            le == ascending(),
            sorted_by(out@, le),
            out@.to_multiset() == v@.take(i as int).to_multiset(),
        decreases v@.len() - i,
    {
        let x = v[i];
        let mut pos: usize = 0;
        while pos < out.len() && out[pos] <= x
            invariant
                pos <= out@.len(),
                forall|k: int| 0 <= k < pos ==> out@[k] <= x,
            decreases out@.len() - pos,
        {
            pos += 1;
        }
        let ghost before = out@;
        out.insert(pos, x);
        proof {
            vstd::seq_lib::to_multiset_insert(before, pos as int, x);
            assert(v@.take(i + 1) =~= v@.take(i as int).push(x));
            vstd::seq_lib::to_multiset_build(v@.take(i as int), x);
            assert(out@ =~= before.insert(pos as int, x));
            assert(forall|a: int, b: int| 0 <= a < b < before.len() ==> before[a] <= before[b]) by {
                assert forall|a: int, b: int| 0 <= a < b < before.len() implies before[a] <= before[b] by {
                    assert(le(before[a], before[b]));
                }
            }
            assert forall|a: int, b: int| 0 <= a < b < out@.len() implies #[trigger] le(out@[a], out@[b]) by {
                if b < pos {
                    assert(out@[a] == before[a] && out@[b] == before[b]);
                } else if b == pos {
                    assert(out@[a] == before[a]);
                } else if a < pos {
                    assert(out@[a] == before[a] && out@[b] == before[b - 1]);
                    if pos < before.len() {
                        assert(le(before[a], before[b - 1]));
                    }
                } else if a == pos {
                    assert(out@[b] == before[b - 1]);
                    assert(!(before[pos as int] <= x));
                    if b - 1 > pos {
                        assert(le(before[pos as int], before[b - 1]));
                    }
                } else {
                    assert(out@[a] == before[a - 1] && out@[b] == before[b - 1]);
                }
            }
        }
        i += 1;
    }
    proof {
        assert(v@.take(i as int) =~= v@);
        lemma_ascending_total();
        v@.lemma_sort_by_ensures(le);
        vstd::seq_lib::lemma_sorted_unique(out@, v@.sort_by(le), le);
    }
    out
}

} // verus!

verus! {

/// Strict lexicographic order on sequences; a proper prefix comes first.
pub open spec fn seq_lex_lt(a: Seq<usize>, b: Seq<usize>) -> bool
    decreases a.len(),
{
    if a.len() == 0 {
        b.len() > 0
    } else if b.len() == 0 {
        false
    } else if a[0] != b[0] {
        a[0] < b[0]
    } else {
        seq_lex_lt(a.drop_first(), b.drop_first())
    }
}

/// `seq_lex_lt` is a strict total order.
pub proof fn lemma_seq_lex(a: Seq<usize>, b: Seq<usize>, c: Seq<usize>)
    ensures
        !seq_lex_lt(a, a),
        seq_lex_lt(a, b) ==> !seq_lex_lt(b, a),
        seq_lex_lt(a, b) && seq_lex_lt(b, c) ==> seq_lex_lt(a, c),
        a != b ==> seq_lex_lt(a, b) || seq_lex_lt(b, a),
    decreases a.len(),
{
    if a.len() > 0 && b.len() > 0 && c.len() > 0 {
        lemma_seq_lex(a.drop_first(), b.drop_first(), c.drop_first());
    } else if a.len() > 0 && b.len() > 0 {
        lemma_seq_lex(a.drop_first(), b.drop_first(), b.drop_first());
    } else if a.len() > 0 {
        lemma_seq_lex(a.drop_first(), a.drop_first(), a.drop_first());
    }
    if a.len() > 0 && b.len() > 0 && a[0] == b[0] && a.drop_first() == b.drop_first() {
        assert forall|i: int| 0 <= i < a.len() implies a[i] == b[i] by {
            if i > 0 {
                assert(a[i] == a.drop_first()[i - 1]);
                assert(b[i] == b.drop_first()[i - 1]);
            }
        }
        assert(a =~= b);
    }
    if a.len() == 0 && b.len() == 0 {
        assert(a =~= b);
    }
}

/// Sort key of a face: more sides first, then a more uniform neighborhood, then its sorted
/// vertices, then its position.
pub type FaceKey = (usize, usize, Seq<usize>, usize);

/// Lexicographic order on face keys.
pub open spec fn key_le(x: FaceKey, y: FaceKey) -> bool {
    x.0 < y.0 || (x.0 == y.0 && (x.1 < y.1 || (x.1 == y.1 && (seq_lex_lt(x.2, y.2) || (x.2 == y.2
        && x.3 <= y.3)))))
}

/// `key_le` as a relation.
pub open spec fn key_order() -> spec_fn(FaceKey, FaceKey) -> bool {
    |x: FaceKey, y: FaceKey| key_le(x, y)
}

proof fn lemma_key_le(x: FaceKey, y: FaceKey, z: FaceKey)
    ensures
        key_le(x, x),
        key_le(x, y) && key_le(y, x) ==> x == y,
        key_le(x, y) && key_le(y, z) ==> key_le(x, z),
        key_le(x, y) || key_le(y, x),
{
    lemma_seq_lex(x.2, y.2, z.2);
    lemma_seq_lex(y.2, x.2, z.2);
    lemma_seq_lex(x.2, z.2, y.2);
    lemma_seq_lex(z.2, y.2, x.2);
    lemma_seq_lex(y.2, z.2, x.2);
}

/// `key_order` is a total order.
pub proof fn lemma_key_order_total()
    ensures
        total_ordering(key_order()),
{
    assert forall|x: FaceKey, y: FaceKey, z: FaceKey| #[trigger] key_order()(x, y) && #[trigger] key_order()(y, z) implies key_order()(x, z) by {
        lemma_key_le(x, y, z);
    }
    assert forall|x: FaceKey, y: FaceKey| #[trigger] key_order()(x, y) && #[trigger] key_order()(y, x) implies x == y by {
        lemma_key_le(x, y, x);
    }
    assert forall|x: FaceKey, y: FaceKey| #[trigger] key_order()(x, y) || #[trigger] key_order()(y, x) by {
        lemma_key_le(x, y, x);
    }
    assert forall|x: FaceKey| #[trigger] key_order()(x, x) by {
        lemma_key_le(x, x, x);
    }
}

/// An executable face key.
pub type FaceKeyExec = (usize, usize, Vec<usize>, usize);

/// The spec key of an executable key.
pub open spec fn key_view(k: FaceKeyExec) -> FaceKey {
    (k.0, k.1, k.2@, k.3)
}

/// Whether `a` comes strictly before `b` lexicographically.
pub fn lex_lt(a: &Vec<usize>, b: &Vec<usize>) -> (r: bool)
    ensures
        r == seq_lex_lt(a@, b@),
{
    let mut i: usize = 0;
    assert(a@.skip(0) =~= a@);
    assert(b@.skip(0) =~= b@);
    while i < a.len() && i < b.len() && a[i] == b[i]
        invariant
            i <= a@.len(),
            i <= b@.len(),
            seq_lex_lt(a@, b@) == seq_lex_lt(a@.skip(i as int), b@.skip(i as int)),
        decreases a@.len() - i,
    {
        proof {
            assert(a@.skip(i as int).drop_first() =~= a@.skip(i + 1));
            assert(b@.skip(i as int).drop_first() =~= b@.skip(i + 1));
        }
        i += 1;
    }
    if i == a.len() {
        i < b.len()
    } else if i == b.len() {
        false
    } else {
        a[i] < b[i]
    }
}

/// Whether `a` comes no later than `b`.
pub fn key_le_exec(a: &FaceKeyExec, b: &FaceKeyExec) -> (r: bool)
    ensures
        r == key_le(key_view(*a), key_view(*b)),
{
    if a.0 != b.0 {
        return a.0 < b.0;
    }
    if a.1 != b.1 {
        return a.1 < b.1;
    }
    if lex_lt(&a.2, &b.2) {
        return true;
    }
    if lex_lt(&b.2, &a.2) {
        proof {
            lemma_seq_lex(a.2@, b.2@, a.2@);
            lemma_seq_lex(b.2@, a.2@, b.2@);
        }
        return false;
    }
    proof {
        lemma_seq_lex(a.2@, b.2@, a.2@);
    }
    a.3 <= b.3
}

/// The keys in `key_order`.
pub fn sort_keys(v: Vec<FaceKeyExec>) -> (r: Vec<FaceKeyExec>)
    ensures
        r@.map_values(|k: FaceKeyExec| key_view(k)) == v@.map_values(|k: FaceKeyExec| key_view(k)).sort_by(key_order()),
{
    let ghost le = key_order();
    let ghost vv = v@.map_values(|k: FaceKeyExec| key_view(k));
    let mut v = v;
    let mut out: Vec<FaceKeyExec> = Vec::new();
    let mut taken: usize = 0;
    let n = v.len();
    let mut rest: Vec<FaceKeyExec> = Vec::new();
    // Move the keys out in order.
    while v.len() > 0
        invariant
            v@.len() + rest@.len() == n,
            vv.len() == n,
            forall|k: int| 0 <= k < v@.len() ==> #[trigger] key_view(v@[k]) == vv[k],
            forall|k: int| 0 <= k < rest@.len() ==> #[trigger] key_view(rest@[k]) == vv[n - 1 - k],
        decreases v@.len(),
    {
        let k = v.pop().unwrap();
        rest.push(k);
    }
    assert(vv.take(0) =~= Seq::<FaceKey>::empty());
    while rest.len() > 0
        invariant
            le == key_order(),
            taken + rest@.len() == n,
            vv.len() == n,
            forall|k: int| 0 <= k < rest@.len() ==> #[trigger] key_view(rest@[k]) == vv[n - 1 - k],
            sorted_by(out@.map_values(|k: FaceKeyExec| key_view(k)), le),
            out@.map_values(|k: FaceKeyExec| key_view(k)).to_multiset() == vv.take(taken as int).to_multiset(),
        decreases rest@.len(),
    {
        let x = rest.pop().unwrap();
        proof {
            assert(key_view(x) == vv[taken as int]);
        }
        let mut pos: usize = 0;
        while pos < out.len() && key_le_exec(&out[pos], &x)
            invariant
                pos <= out@.len(),
                forall|k: int| 0 <= k < pos ==> key_le(key_view(out@[k]), key_view(x)),
            decreases out@.len() - pos,
        {
            pos += 1;
        }
        let ghost before = out@.map_values(|k: FaceKeyExec| key_view(k));
        let ghost xv = key_view(x);
        out.insert(pos, x);
        proof {
            let after = out@.map_values(|k: FaceKeyExec| key_view(k));
            assert(after =~= before.insert(pos as int, xv));
            vstd::seq_lib::to_multiset_insert(before, pos as int, xv);
            assert(vv.take(taken + 1) =~= vv.take(taken as int).push(xv));
            vstd::seq_lib::to_multiset_build(vv.take(taken as int), xv);
            lemma_key_order_total();
            assert forall|a: int, b: int| 0 <= a < b < after.len() implies #[trigger] le(after[a], after[b]) by {
                if b < pos {
                    assert(after[a] == before[a] && after[b] == before[b]);
                } else if b == pos {
                    assert(after[a] == before[a]);
                } else if a < pos {
                    assert(after[a] == before[a] && after[b] == before[b - 1]);
                    assert(le(before[a], before[b - 1]));
                } else if a == pos {
                    assert(after[b] == before[b - 1]);
                    assert(!key_le(before[pos as int], xv));
                    assert(key_le(xv, before[pos as int])) by {
                        lemma_key_le(xv, before[pos as int], xv);
                    }
                    if b - 1 > pos {
                        assert(le(before[pos as int], before[b - 1]));
                        lemma_key_le(xv, before[pos as int], before[b - 1]);
                    }
                } else {
                    assert(after[a] == before[a - 1] && after[b] == before[b - 1]);
                }
            }
        }
        taken += 1;
    }
    proof {
        assert(vv.take(n as int) =~= vv);
        lemma_key_order_total();
        vv.lemma_sort_by_ensures(le);
        vstd::seq_lib::lemma_sorted_unique(out@.map_values(|k: FaceKeyExec| key_view(k)), vv.sort_by(le), le);
    }
    out
}

/// Number of distinct values in `v`.
pub fn count_distinct(v: &Vec<usize>) -> (r: usize)
    ensures
        r == v@.to_set().len(),
{
    let mut seen: Vec<usize> = Vec::new();
    let mut i: usize = 0;
    assert(v@.take(0).to_set() =~= Set::<usize>::empty());
    while i < v.len()
        invariant
            i <= v@.len(),
            seen@.no_duplicates(),
            seen@.to_set() == v@.take(i as int).to_set(),
            seen@.len() <= i,
        decreases v@.len() - i,
    {
        let x = v[i];
        let mut found = false;
        let mut k: usize = 0;
        while k < seen.len()
            invariant
                k <= seen@.len(),
                found == exists|q: int| 0 <= q < k && seen@[q] == x,
            decreases seen@.len() - k,
        {
            if seen[k] == x {
                found = true;
            }
            k += 1;
        }
        let ghost before = seen@;
        if !found {
            seen.push(x);
        }
        proof {
            assert(v@.take(i + 1) =~= v@.take(i as int).push(x));
            assert(seen@.to_set() =~= v@.take(i + 1).to_set()) by {
                assert forall|y: usize| seen@.to_set().contains(y) <==> v@.take(i + 1).to_set().contains(y) by {
                    if v@.take(i + 1).contains(y) {
                        let q = choose|q: int| 0 <= q < i + 1 && #[trigger] v@.take(i + 1)[q] == y;
                        if q < i {
                            assert(v@.take(i as int)[q] == y);
                            assert(before.to_set().contains(y));
                            let p = choose|p: int| 0 <= p < before.len() && #[trigger] before[p] == y;
                            assert(seen@[p] == y);
                        } else if !found {
                            assert(seen@[seen@.len() - 1] == y);
                        } else {
                            let p = choose|p: int| 0 <= p < k && #[trigger] before[p] == x;
                            assert(seen@[p] == y);
                        }
                    }
                    if seen@.contains(y) {
                        let p = choose|p: int| 0 <= p < seen@.len() && #[trigger] seen@[p] == y;
                        if p < before.len() {
                            assert(before.to_set().contains(y));
                            assert(v@.take(i as int).contains(y));
                            let q = choose|q: int| 0 <= q < i && #[trigger] v@.take(i as int)[q] == y;
                            assert(v@.take(i + 1)[q] == y);
                        } else {
                            assert(v@.take(i + 1)[i as int] == y);
                        }
                    }
                }
            }
        }
        i += 1;
    }
    proof {
        assert(v@.take(i as int) =~= v@);
        seen@.unique_seq_to_set();
    }
    seen.len()
}

} // verus!
