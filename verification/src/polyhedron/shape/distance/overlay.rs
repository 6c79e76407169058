use vstd::prelude::*;
use super::{DISCONNECTED, connect_rows, disconnect_rows, entry, grow_rows, rows_wf};
use super::assemble::{list_below, listed};
use super::conway::lemma_rows_ext;
use super::paths::{lemma_connect_rows, lemma_disconnect_rows};

verus! {

/// The entry of an old pair once the listed edges are cut.
pub open spec fn cut_entry(m: Seq<Seq<usize>>, es: Seq<[usize; 2]>, x: int, y: int) -> usize {
    if entry(m, x, y) == 1 && listed(es, x, y) {
        DISCONNECTED
    } else {
        entry(m, x, y)
    }
}

/// The entry of an old pair once the edges `es` are cut and then the pairs `forced` joined
/// (joining leaves a zero entry alone).
pub open spec fn old_entry(m: Seq<Seq<usize>>, es: Seq<[usize; 2]>, forced: Seq<[usize; 2]>, x: int, y: int) -> usize {
    if x != y && listed(forced, x, y) && cut_entry(m, es, x, y) != 0 {
        1
    } else {
        cut_entry(m, es, x, y)
    }
}

/// The `size`-vertex matrix whose first `n` vertices keep the entries of `m` with the edges
/// `es` cut and the pairs `forced` joined, and whose other pairs are edges exactly when `list`
/// holds them.
pub open spec fn overlay(m: Seq<Seq<usize>>, es: Seq<[usize; 2]>, forced: Seq<[usize; 2]>, n: nat, size: nat, list: Seq<[usize; 2]>) -> Seq<Seq<usize>> {
    Seq::new(
        size,
        |x: int| Seq::new(
            (x + 1) as nat,
            |y: int| if x < n {
                old_entry(m, es, forced, x, y)
            } else if x == y {
                0usize
            } else if listed(list, x, y) {
                1usize
            } else {
                DISCONNECTED
            },
        ),
    )
}

/// Entries of `overlay`, read symmetrically.
pub proof fn lemma_overlay_entry(m: Seq<Seq<usize>>, es: Seq<[usize; 2]>, forced: Seq<[usize; 2]>, n: nat, size: nat, list: Seq<[usize; 2]>)
    requires
        rows_wf(m),
        m.len() == n,
        n <= size,
    ensures
        rows_wf(overlay(m, es, forced, n, size, list)),
        overlay(m, es, forced, n, size, list).len() == size,
        forall|x: int, y: int| 0 <= x < size && 0 <= y < size ==> #[trigger] entry(overlay(m, es, forced, n, size, list), x, y) == if x < n && y < n {
            old_entry(m, es, forced, x, y)
        } else if x == y {
            0usize
        } else if listed(list, x, y) {
            1usize
        } else {
            DISCONNECTED
        },
{
    let o = overlay(m, es, forced, n, size, list);
    assert forall|x: int| 0 <= x < o.len() implies #[trigger] o[x].len() == x + 1 && o[x][x] == 0 by {
        if x < n {
            assert(m[x].len() == x + 1);
        }
    }
    assert forall|x: int, y: int| 0 <= x < size && 0 <= y < size implies #[trigger] entry(o, x, y) == if x < n && y < n {
        old_entry(m, es, forced, x, y)
    } else if x == y {
        0usize
    } else if listed(list, x, y) {
        1usize
    } else {
        DISCONNECTED
    } by {
        if listed(list, x, y) {
            let k = choose|k: int| 0 <= k < list.len() && #[trigger] list[k] == [x as usize, y as usize] || 0 <= k < list.len() && list[k] == [y as usize, x as usize];
            assert(listed(list, y, x));
        }
        if listed(list, y, x) {
            let k = choose|k: int| 0 <= k < list.len() && #[trigger] list[k] == [y as usize, x as usize] || 0 <= k < list.len() && list[k] == [x as usize, y as usize];
            assert(listed(list, x, y));
        }
        if listed(es, y, x) {
            let k = choose|k: int| 0 <= k < es.len() && #[trigger] es[k] == [y as usize, x as usize] || 0 <= k < es.len() && es[k] == [x as usize, y as usize];
            assert(listed(es, x, y));
        }
        if listed(es, x, y) {
            let k = choose|k: int| 0 <= k < es.len() && #[trigger] es[k] == [x as usize, y as usize] || 0 <= k < es.len() && es[k] == [y as usize, x as usize];
            assert(listed(es, y, x));
        }
        if listed(forced, y, x) {
            let k = choose|k: int| 0 <= k < forced.len() && #[trigger] forced[k] == [y as usize, x as usize] || 0 <= k < forced.len() && forced[k] == [x as usize, y as usize];
            assert(listed(forced, x, y));
        }
        if listed(forced, x, y) {
            let k = choose|k: int| 0 <= k < forced.len() && #[trigger] forced[k] == [x as usize, y as usize] || 0 <= k < forced.len() && forced[k] == [y as usize, x as usize];
            assert(listed(forced, y, x));
        }
    }
}

/// Listing one more pair lists exactly that pair more.
pub proof fn lemma_listed_push(list: Seq<[usize; 2]>, e: [usize; 2], x: int, y: int)
    requires
        0 <= x <= usize::MAX,
        0 <= y <= usize::MAX,
    ensures
        listed(list.push(e), x, y) == (listed(list, x, y) || e == [x as usize, y as usize] || e == [y as usize, x as usize]),
{
    let l = list.push(e);
    if listed(l, x, y) {
        let k = choose|k: int| 0 <= k < l.len() && #[trigger] l[k] == [x as usize, y as usize] || 0 <= k < l.len() && l[k] == [y as usize, x as usize];
        if k < list.len() {
            assert(list[k] == l[k]);
        }
    }
    if listed(list, x, y) {
        let k = choose|k: int| 0 <= k < list.len() && #[trigger] list[k] == [x as usize, y as usize] || 0 <= k < list.len() && list[k] == [y as usize, x as usize];
        assert(l[k] == list[k]);
    }
    if e == [x as usize, y as usize] || e == [y as usize, x as usize] {
        assert(l[list.len() as int] == e);
    }
}

/// A new isolated vertex is what `overlay` gives one size up.
pub proof fn lemma_overlay_grow(m: Seq<Seq<usize>>, es: Seq<[usize; 2]>, forced: Seq<[usize; 2]>, n: nat, size: nat, list: Seq<[usize; 2]>, r: Seq<Seq<usize>>)
    requires
        rows_wf(m),
        m.len() == n,
        n <= size,
        size < usize::MAX,
        list_below(list, size),
        r == grow_rows(overlay(m, es, forced, n, size, list)),
        rows_wf(r),
    ensures
        r == overlay(m, es, forced, n, size + 1, list),
{
    let o = overlay(m, es, forced, n, size, list);
    lemma_overlay_entry(m, es, forced, n, size, list);
    lemma_overlay_entry(m, es, forced, n, size + 1, list);
    assert forall|x: int, y: int| 0 <= x < size + 1 && 0 <= y < size + 1 implies #[trigger] entry(r, x, y) == entry(overlay(m, es, forced, n, size + 1, list), x, y) by {
        if x < size && y < size {
            assert(o[x].len() == x + 1 && o[y].len() == y + 1);
            assert(entry(r, x, y) == entry(o, x, y));
        } else if x != y {
            if listed(list, x, y) {
                let k = choose|k: int| 0 <= k < list.len() && #[trigger] list[k] == [x as usize, y as usize] || 0 <= k < list.len() && list[k] == [y as usize, x as usize];
                assert(list[k][0] < size && list[k][1] < size);
            }
        }
    }
    lemma_rows_ext(r, overlay(m, es, forced, n, size + 1, list));
}

/// Connecting a pair that is not between two old vertices lists it.
pub proof fn lemma_overlay_connect(m: Seq<Seq<usize>>, es: Seq<[usize; 2]>, forced: Seq<[usize; 2]>, n: nat, size: nat, list: Seq<[usize; 2]>, a: int, b: int, r: Seq<Seq<usize>>)
    requires
        rows_wf(m),
        m.len() == n,
        n <= size,
        0 <= a < size,
        0 <= b < size,
        size <= usize::MAX,
        a >= n || b >= n,
        r == connect_rows(overlay(m, es, forced, n, size, list), a, b),
        rows_wf(r),
    ensures
        r == overlay(m, es, forced, n, size, list.push([a as usize, b as usize])),
{
    let e = [a as usize, b as usize];
    lemma_overlay_entry(m, es, forced, n, size, list);
    lemma_overlay_entry(m, es, forced, n, size, list.push(e));
    lemma_connect_rows(overlay(m, es, forced, n, size, list), a, b);
    assert forall|x: int, y: int| 0 <= x < size && 0 <= y < size implies #[trigger] entry(r, x, y) == entry(overlay(m, es, forced, n, size, list.push(e)), x, y) by {
        lemma_listed_push(list, e, x, y);
    }
    lemma_rows_ext(r, overlay(m, es, forced, n, size, list.push(e)));
}

/// Disconnecting an old pair cuts it.
pub proof fn lemma_overlay_disconnect(m: Seq<Seq<usize>>, es: Seq<[usize; 2]>, forced: Seq<[usize; 2]>, n: nat, size: nat, list: Seq<[usize; 2]>, a: int, b: int, r: Seq<Seq<usize>>)
    requires
        rows_wf(m),
        m.len() == n,
        n <= size,
        size <= usize::MAX,
        0 <= a < n,
        0 <= b < n,
        forced == Seq::<[usize; 2]>::empty(),
        r == disconnect_rows(overlay(m, es, forced, n, size, list), a, b),
        rows_wf(r),
    ensures
        r == overlay(m, es.push([a as usize, b as usize]), forced, n, size, list),
{
    let e = [a as usize, b as usize];
    lemma_overlay_entry(m, es, forced, n, size, list);
    lemma_overlay_entry(m, es.push(e), forced, n, size, list);
    lemma_disconnect_rows(overlay(m, es, forced, n, size, list), a, b);
    assert forall|x: int, y: int| 0 <= x < size && 0 <= y < size implies #[trigger] entry(r, x, y) == entry(overlay(m, es.push(e), forced, n, size, list), x, y) by {
        lemma_listed_push(es, e, x, y);
        if x < n && y < n && a == b {
            assert(m[a].len() == a + 1);
        }
    }
    lemma_rows_ext(r, overlay(m, es.push(e), forced, n, size, list));
}

/// Connecting an old pair joins it, unless its entry is zero.
pub proof fn lemma_overlay_connect_old(m: Seq<Seq<usize>>, es: Seq<[usize; 2]>, forced: Seq<[usize; 2]>, n: nat, size: nat, list: Seq<[usize; 2]>, a: int, b: int, r: Seq<Seq<usize>>)
    requires
        rows_wf(m),
        m.len() == n,
        n <= size,
        size <= usize::MAX,
        0 <= a < n,
        0 <= b < n,
        r == connect_rows(overlay(m, es, forced, n, size, list), a, b),
        rows_wf(r),
    ensures
        r == overlay(m, es, forced.push([a as usize, b as usize]), n, size, list),
{
    let e = [a as usize, b as usize];
    lemma_overlay_entry(m, es, forced, n, size, list);
    lemma_overlay_entry(m, es, forced.push(e), n, size, list);
    lemma_connect_rows(overlay(m, es, forced, n, size, list), a, b);
    assert forall|x: int, y: int| 0 <= x < size && 0 <= y < size implies #[trigger] entry(r, x, y) == entry(overlay(m, es, forced.push(e), n, size, list), x, y) by {
        lemma_listed_push(forced, e, x, y);
        if x < n && y < n && x == y {
            assert(m[x].len() == x + 1);
        }
        if a == b {
            assert(m[a].len() == a + 1);
        }
    }
    lemma_rows_ext(r, overlay(m, es, forced.push(e), n, size, list));
}

/// Listing a pair of two old vertices changes nothing.
pub proof fn lemma_overlay_list_old(m: Seq<Seq<usize>>, es: Seq<[usize; 2]>, forced: Seq<[usize; 2]>, n: nat, size: nat, list: Seq<[usize; 2]>, e: [usize; 2])
    requires
        e[0] < n,
        e[1] < n,
        size <= usize::MAX,
    ensures
        overlay(m, es, forced, n, size, list.push(e)) == overlay(m, es, forced, n, size, list),
{
    let a = overlay(m, es, forced, n, size, list.push(e));
    let b = overlay(m, es, forced, n, size, list);
    assert forall|x: int| 0 <= x < size implies #[trigger] a[x] == b[x] by {
        assert forall|y: int| 0 <= y < x + 1 implies a[x][y] == b[x][y] by {
            if x >= n && x != y {
                lemma_listed_push(list, e, x, y);
            }
        }
        assert(a[x] =~= b[x]);
    }
    assert(a =~= b);
}

} // verus!
