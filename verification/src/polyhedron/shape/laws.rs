use vstd::prelude::*;
use super::conway::{kis_apexes, kis_faces, kis_selects, kis_spokes, kis_triangles};
use super::distance::{adjacent, entry, rows_wf};
use super::distance::assemble::listed;
use super::distance::overlay::{overlay, lemma_overlay_entry};
use super::distance::assemble::{graph_from, lemma_graph_from};
use super::conway::{offset, lemma_offset};
use super::cycles::{first_index, lemma_first_index};
use super::expand::{corner_at, corner_faces, corner_for, edge_quads, face_ring, face_rings_upto, quad_of, rungs_in, rungs_of, rungs_upto};
use super::topology::{edge_faces, face_hits, lemma_edge_faces, other_face, side, succ, visits_in, visits_upto};

verus! {

/// `f` is a cycle of the graph `m`: at least three distinct vertices, each adjacent to the next
/// and the last to the first.
pub open spec fn is_cycle_of(m: Seq<Seq<usize>>, f: Seq<usize>) -> bool {
    &&& f.len() >= 3
    &&& f.no_duplicates()
    &&& forall|k: int| 0 <= k < f.len() ==> #[trigger] adjacent(m, f[k] as int, f[(k + 1) % (f.len() as int)] as int)
}

/// The graph `kis` builds on `m`: the old edges, and each apex joined to its face's vertices.
pub open spec fn kis_graph(fs: Seq<Seq<usize>>, degree: Option<usize>, m: Seq<Seq<usize>>) -> Seq<Seq<usize>> {
    overlay(
        m,
        Seq::empty(),
        Seq::empty(),
        m.len(),
        (m.len() + kis_apexes(fs, degree, fs.len())) as nat,
        kis_spokes(fs, degree, m.len(), fs.len()),
    )
}

/// The apex `kis` raises over face `i`.
pub open spec fn kis_apex(fs: Seq<Seq<usize>>, degree: Option<usize>, n: nat, i: int) -> usize {
    (n + kis_apexes(fs, degree, i as nat)) as usize
}

/// Some face after `kis` is the triangle over side `k` of face `i` under its apex.
pub open spec fn kis_side_covered(fs: Seq<Seq<usize>>, degree: Option<usize>, n: nat, i: int, k: int) -> bool {
    exists|j: int| {
        &&& 0 <= j < kis_faces(fs, degree, n, fs.len()).len()
        &&& #[trigger] kis_faces(fs, degree, n, fs.len())[j] == seq![kis_apex(fs, degree, n, i), fs[i][k], fs[i][(k + 1) % (fs[i].len() as int)]]
    }
}

/// Face `i` is still a face after `kis`.
pub open spec fn kis_face_kept(fs: Seq<Seq<usize>>, degree: Option<usize>, n: nat, i: int) -> bool {
    exists|j: int| 0 <= j < kis_faces(fs, degree, n, fs.len()).len() && #[trigger] kis_faces(fs, degree, n, fs.len())[j] == fs[i]
}

proof fn lemma_kis_keeps(fs: Seq<Seq<usize>>, degree: Option<usize>, n: nat, g: nat, i: int)
    requires
        0 <= i < g <= fs.len(),
        !kis_selects(fs[i], degree),
    ensures
        exists|j: int| 0 <= j < kis_faces(fs, degree, n, g).len() && #[trigger] kis_faces(fs, degree, n, g)[j] == fs[i],
    decreases g,
{
    let h = (g - 1) as nat;
    let prev = kis_faces(fs, degree, n, h);
    let all = kis_faces(fs, degree, n, g);
    if i < h {
        lemma_kis_keeps(fs, degree, n, h, i);
        let j = choose|j: int| 0 <= j < prev.len() && #[trigger] prev[j] == fs[i];
        assert(all[j] == prev[j]);
    } else {
        assert(all =~= prev + seq![fs[i]]);
        assert(all[prev.len() as int] == fs[i]);
    }
}

proof fn lemma_listed_sym(list: Seq<[usize; 2]>, x: int, y: int)
    requires
        listed(list, x, y),
    ensures
        listed(list, y, x),
{
    let k = choose|k: int| 0 <= k < list.len() && #[trigger] list[k] == [x as usize, y as usize] || 0 <= k < list.len() && list[k] == [y as usize, x as usize];
    assert(list[k] == [y as usize, x as usize] || list[k] == [x as usize, y as usize]);
}

proof fn lemma_apexes_mono(fs: Seq<Seq<usize>>, degree: Option<usize>, i: nat, g: nat)
    requires
        i <= g,
    ensures
        kis_apexes(fs, degree, i) <= kis_apexes(fs, degree, g),
        i < g && kis_selects(fs[i as int], degree) ==> kis_apexes(fs, degree, i) + 1 <= kis_apexes(fs, degree, g),
    decreases g - i,
{
    if i < g {
        lemma_apexes_mono(fs, degree, i, (g - 1) as nat);
    }
}

proof fn lemma_spoke_listed(fs: Seq<Seq<usize>>, degree: Option<usize>, n: nat, g: nat, i: int, k: int)
    requires
        0 <= i < g <= fs.len(),
        kis_selects(fs[i], degree),
        0 <= k < fs[i].len(),
    ensures
        listed(kis_spokes(fs, degree, n, g), kis_apex(fs, degree, n, i) as int, fs[i][k] as int),
    decreases g,
{
    let prev = kis_spokes(fs, degree, n, (g - 1) as nat);
    let whole = kis_spokes(fs, degree, n, g);
    if i == g - 1 {
        let p = prev.len() + k;
        assert(whole[p] == [kis_apex(fs, degree, n, i), fs[i][k]]);
    } else {
        lemma_spoke_listed(fs, degree, n, (g - 1) as nat, i, k);
        let q = choose|q: int| 0 <= q < prev.len() && #[trigger] prev[q] == [kis_apex(fs, degree, n, i), fs[i][k]] || 0 <= q < prev.len() && prev[q] == [fs[i][k], kis_apex(fs, degree, n, i)];
        assert(whole[q] == prev[q]);
    }
}

proof fn lemma_kis_cycles(fs: Seq<Seq<usize>>, degree: Option<usize>, m: Seq<Seq<usize>>, g: nat)
    requires
        rows_wf(m),
        g <= fs.len(),
        forall|i: int| 0 <= i < fs.len() ==> is_cycle_of(m, #[trigger] fs[i]),
        m.len() + kis_apexes(fs, degree, fs.len()) <= usize::MAX,
    ensures
        forall|j: int| 0 <= j < kis_faces(fs, degree, m.len(), g).len() ==> is_cycle_of(kis_graph(fs, degree, m), #[trigger] kis_faces(fs, degree, m.len(), g)[j]),
    decreases g,
{
    if g > 0 {
        let n = m.len();
        let h = (g - 1) as nat;
        let size = (n + kis_apexes(fs, degree, fs.len())) as nat;
        let spokes = kis_spokes(fs, degree, n, fs.len());
        let big = kis_graph(fs, degree, m);
        lemma_kis_cycles(fs, degree, m, h);
        lemma_apexes_mono(fs, degree, h, fs.len());
        lemma_overlay_entry(m, Seq::empty(), Seq::empty(), n, size, spokes);
        let prev = kis_faces(fs, degree, n, h);
        let all = kis_faces(fs, degree, n, g);
        let f = fs[h as int];
        assert(is_cycle_of(m, f));
        let len = f.len() as int;
        assert forall|j: int| 0 <= j < all.len() implies is_cycle_of(big, #[trigger] all[j]) by {
            if j < prev.len() {
                assert(all[j] == prev[j]);
            } else if !kis_selects(f, degree) {
                assert(all[j] == f);
                assert forall|k: int| 0 <= k < f.len() implies #[trigger] adjacent(big, f[k] as int, f[(k + 1) % len] as int) by {
                    assert(adjacent(m, f[k] as int, f[(k + 1) % len] as int));
                    assert(!listed(Seq::<[usize; 2]>::empty(), f[k] as int, f[(k + 1) % len] as int));
                }
            } else {
                let a = kis_apex(fs, degree, n, h as int);
                let q = j - prev.len();
                let r = (q + 1) % len;
                assert(all =~= prev + kis_triangles(f, a));
                assert(0 <= q < len);
                assert(all[j] == kis_triangles(f, a)[q]);
                if q + 1 < len {
                    assert(r == q + 1) by (nonlinear_arith)
                        requires r == (q + 1) % len, q + 1 < len, q >= 0;
                } else {
                    assert(r == 0) by (nonlinear_arith)
                        requires r == (q + 1) % len, q + 1 == len, len > 0;
                }
                let t = all[j];
                assert(t == seq![a, f[q], f[r]]);
                assert(adjacent(m, f[q] as int, f[r] as int));
                assert(f[q] < n && f[r] < n);
                assert(a >= n && a < size);
                assert(q != r);
                assert(f[q] != f[r]);
                lemma_spoke_listed(fs, degree, n, fs.len(), h as int, q);
                lemma_spoke_listed(fs, degree, n, fs.len(), h as int, r);
                lemma_listed_sym(spokes, a as int, f[r] as int);
                assert(!listed(Seq::<[usize; 2]>::empty(), f[q] as int, f[r] as int));
                assert(adjacent(big, a as int, f[q] as int));
                assert(adjacent(big, f[q] as int, f[r] as int));
                assert(adjacent(big, f[r] as int, a as int));
                assert forall|k: int| 0 <= k < t.len() implies #[trigger] adjacent(big, t[k] as int, t[(k + 1) % (t.len() as int)] as int) by {
                    if k == 0 {
                        assert(t[0] == a && t[1] == f[q]);
                    } else if k == 1 {
                        assert(t[1] == f[q] && t[2] == f[r]);
                    } else {
                        assert(t[2] == f[r] && t[0] == a);
                    }
                }
                assert(t.no_duplicates());
            }
        }
    }
}

proof fn lemma_kis_covers(fs: Seq<Seq<usize>>, degree: Option<usize>, n: nat, g: nat, i: int, k: int)
    requires
        0 <= i < g <= fs.len(),
        kis_selects(fs[i], degree),
        0 <= k < fs[i].len(),
    ensures
        exists|j: int| {
            &&& 0 <= j < kis_faces(fs, degree, n, g).len()
            &&& #[trigger] kis_faces(fs, degree, n, g)[j] == seq![kis_apex(fs, degree, n, i), fs[i][k], fs[i][(k + 1) % (fs[i].len() as int)]]
        },
    decreases g,
{
    let h = (g - 1) as nat;
    let prev = kis_faces(fs, degree, n, h);
    let all = kis_faces(fs, degree, n, g);
    let tri = seq![kis_apex(fs, degree, n, i), fs[i][k], fs[i][(k + 1) % (fs[i].len() as int)]];
    if i < h {
        lemma_kis_covers(fs, degree, n, h, i, k);
        let j = choose|j: int| 0 <= j < prev.len() && #[trigger] prev[j] == tri;
        assert(all[j] == prev[j]);
        assert(0 <= j < all.len() && all[j] == tri);
    } else {
        let a = kis_apex(fs, degree, n, i);
        let block = kis_triangles(fs[i], a);
        assert(all =~= prev + block);
        let j = prev.len() + k;
        assert(block[k] == tri);
        assert(all[j] == block[k]);
        assert(0 <= j < all.len() && all[j] == tri);
    }
}

/// Kis on faces that are cycles of the graph: every face it gives is a cycle of the new graph
/// (in particular each new triangle has three distinct, pairwise adjacent vertices), each side
/// of a selected face lies on a triangle with that face's apex, and every face it does not
/// select is kept.
pub proof fn law_kis_faces_are_cycles(fs: Seq<Seq<usize>>, degree: Option<usize>, m: Seq<Seq<usize>>)
    requires
        rows_wf(m),
        forall|i: int| 0 <= i < fs.len() ==> is_cycle_of(m, #[trigger] fs[i]),
        m.len() + kis_apexes(fs, degree, fs.len()) <= usize::MAX,
    ensures
        forall|j: int| 0 <= j < kis_faces(fs, degree, m.len(), fs.len()).len() ==> is_cycle_of(kis_graph(fs, degree, m), #[trigger] kis_faces(fs, degree, m.len(), fs.len())[j]),
        forall|i: int, k: int| 0 <= i < fs.len() && kis_selects(fs[i], degree) && 0 <= k < fs[i].len() ==> #[trigger] kis_side_covered(fs, degree, m.len(), i, k),
        forall|i: int| 0 <= i < fs.len() && !kis_selects(fs[i], degree) ==> #[trigger] kis_face_kept(fs, degree, m.len(), i),
{
    lemma_kis_cycles(fs, degree, m, fs.len());
    assert forall|i: int, k: int| 0 <= i < fs.len() && kis_selects(fs[i], degree) && 0 <= k < fs[i].len() implies #[trigger] kis_side_covered(fs, degree, m.len(), i, k) by {
        lemma_kis_covers(fs, degree, m.len(), fs.len(), i, k);
    }
    assert forall|i: int| 0 <= i < fs.len() && !kis_selects(fs[i], degree) implies #[trigger] kis_face_kept(fs, degree, m.len(), i) by {
        lemma_kis_keeps(fs, degree, m.len(), fs.len(), i);
    }
}

/// The graph `expand` builds: one vertex per face corner, each face's corners joined in a ring,
/// and rungs across the edges.
pub open spec fn expand_graph(fs: Seq<Seq<usize>>) -> Seq<Seq<usize>> {
    graph_from(offset(fs, fs.len()), face_rings_upto(fs, fs.len()) + rungs_upto(fs, fs.len()))
}

proof fn lemma_rungs_in_contain(fs: Seq<Seq<usize>>, f: int, k: int, kk: nat, x: int)
    requires
        0 <= k < kk,
        0 <= x < rungs_of(fs, side(fs[f], k)).len(),
    ensures
        rungs_in(fs, f, kk).contains(rungs_of(fs, side(fs[f], k))[x]),
    decreases kk,
{
    let prev = rungs_in(fs, f, (kk - 1) as nat);
    let whole = rungs_in(fs, f, kk);
    let item = rungs_of(fs, side(fs[f], k))[x];
    if k == kk - 1 {
        assert(whole[prev.len() + x] == item);
    } else {
        lemma_rungs_in_contain(fs, f, k, (kk - 1) as nat, x);
        let i = choose|i: int| 0 <= i < prev.len() && prev[i] == item;
        assert(whole[i] == prev[i]);
    }
}

proof fn lemma_rungs_contain(fs: Seq<Seq<usize>>, f: int, k: int, g: nat, x: int)
    requires
        0 <= f < g <= fs.len(),
        0 <= k < fs[f].len(),
        0 <= x < rungs_of(fs, side(fs[f], k)).len(),
    ensures
        rungs_upto(fs, g).contains(rungs_of(fs, side(fs[f], k))[x]),
    decreases g,
{
    let prev = rungs_upto(fs, (g - 1) as nat);
    let last = rungs_in(fs, g - 1, fs[g - 1].len());
    let whole = rungs_upto(fs, g);
    let item = rungs_of(fs, side(fs[f], k))[x];
    assert(whole =~= prev + last);
    if f == g - 1 {
        lemma_rungs_in_contain(fs, f, k, fs[f].len(), x);
        let i = choose|i: int| 0 <= i < last.len() && last[i] == item;
        assert(whole[prev.len() + i] == item);
    } else {
        lemma_rungs_contain(fs, f, k, (g - 1) as nat, x);
        let i = choose|i: int| 0 <= i < prev.len() && prev[i] == item;
        assert(whole[i] == item);
    }
}

/// The copy of `v` in face `f` is a vertex of the expanded graph, ahead of the copies of every
/// later face and behind those of every earlier one.
proof fn lemma_copy_in_range(fs: Seq<Seq<usize>>, f: int, v: usize)
    requires
        0 <= f < fs.len(),
        fs[f].contains(v),
        offset(fs, fs.len()) <= usize::MAX,
    ensures
        offset(fs, f as nat) <= corner_for(fs, f, v) < offset(fs, f as nat) + fs[f].len(),
        corner_for(fs, f, v) < offset(fs, fs.len()),
        offset(fs, f as nat) + fs[f].len() <= offset(fs, fs.len()),
{
    lemma_first_index(fs[f], v);
    lemma_offset(fs, f as nat, fs.len());
}

/// Expansion across an edge `e` shared by two different faces `p` and `q` (listed in face
/// order): for each endpoint of `e`, the copy of it in `p` is adjacent to the copy of it in `q`.
pub proof fn law_expand_joins_copies(fs: Seq<Seq<usize>>, e: [usize; 2])
    requires
        fs.len() <= usize::MAX,
        offset(fs, fs.len()) <= usize::MAX,
        edge_faces(fs, e, fs.len()).len() == 2,
        edge_faces(fs, e, fs.len())[0] != edge_faces(fs, e, fs.len())[1],
    ensures
        ({
            let p = edge_faces(fs, e, fs.len())[0] as int;
            let q = edge_faces(fs, e, fs.len())[1] as int;
            &&& adjacent(expand_graph(fs), corner_for(fs, p, e[0]) as int, corner_for(fs, q, e[0]) as int)
            &&& adjacent(expand_graph(fs), corner_for(fs, p, e[1]) as int, corner_for(fs, q, e[1]) as int)
        }),
{
    let ef = edge_faces(fs, e, fs.len());
    let p = ef[0] as int;
    let q = ef[1] as int;
    let size = offset(fs, fs.len());
    let rings = face_rings_upto(fs, fs.len());
    let rungs = rungs_upto(fs, fs.len());
    let list = rings + rungs;
    lemma_edge_faces(fs, e, fs.len());
    assert(p < fs.len() && q < fs.len());
    let jp = choose|j: int| 0 <= j < fs[p].len() && #[trigger] side(fs[p], j) == e;
    let jq = choose|j: int| 0 <= j < fs[q].len() && #[trigger] side(fs[q], j) == e;
    let fp = fs[p];
    let fq = fs[q];
    let sp = succ(jp, fp.len() as int);
    let sq = succ(jq, fq.len() as int);
    assert(0 <= sp < fp.len() && 0 <= sq < fq.len());
    assert(fp.contains(fp[jp]) && fp.contains(fp[sp]));
    assert(fq.contains(fq[jq]) && fq.contains(fq[sq]));
    assert(fp.contains(e[0]) && fp.contains(e[1]));
    assert(fq.contains(e[0]) && fq.contains(e[1]));
    lemma_copy_in_range(fs, p, e[0]);
    lemma_copy_in_range(fs, p, e[1]);
    lemma_copy_in_range(fs, q, e[0]);
    lemma_copy_in_range(fs, q, e[1]);
    if p < q {
        lemma_offset(fs, p as nat, q as nat);
    } else {
        lemma_offset(fs, q as nat, p as nat);
    }
    let r = rungs_of(fs, e);
    assert(r.len() == 2);
    lemma_rungs_contain(fs, p, jp, fs.len(), 0);
    lemma_rungs_contain(fs, p, jp, fs.len(), 1);
    lemma_graph_from(size, list);
    assert forall|x: int| 0 <= x < 2 implies listed(list, r[x][0] as int, r[x][1] as int) by {
        let i = choose|i: int| 0 <= i < rungs.len() && rungs[i] == r[x];
        assert(list[rings.len() + i] == r[x]);
        assert(list[rings.len() + i] == [r[x][0], r[x][1]]);
    }
    assert(r[0] == [corner_for(fs, p, e[0]), corner_for(fs, q, e[0])]);
    assert(r[1] == [corner_for(fs, p, e[1]), corner_for(fs, q, e[1])]);
    assert(listed(list, r[0][0] as int, r[0][1] as int));
    assert(listed(list, r[1][0] as int, r[1][1] as int));
}

proof fn lemma_face_hits_has(f: Seq<usize>, idx: usize, e: [usize; 2], kk: nat, j: int)
    requires
        0 <= j < kk,
        side(f, j) == e,
    ensures
        face_hits(f, idx, e, kk).contains(idx),
    decreases kk,
{
    let prev = face_hits(f, idx, e, (kk - 1) as nat);
    let whole = face_hits(f, idx, e, kk);
    if j == kk - 1 {
        assert(whole[prev.len() as int] == idx);
    } else {
        lemma_face_hits_has(f, idx, e, (kk - 1) as nat, j);
        let i = choose|i: int| 0 <= i < prev.len() && prev[i] == idx;
        assert(whole[i] == idx);
    }
}

proof fn lemma_edge_faces_has(fs: Seq<Seq<usize>>, e: [usize; 2], g: nat, f: int, j: int)
    requires
        0 <= f < g <= fs.len(),
        0 <= j < fs[f].len(),
        side(fs[f], j) == e,
    ensures
        edge_faces(fs, e, g).contains(f as usize),
    decreases g,
{
    let prev = edge_faces(fs, e, (g - 1) as nat);
    let hits = face_hits(fs[g - 1], (g - 1) as usize, e, fs[g - 1].len());
    let whole = edge_faces(fs, e, g);
    assert(whole =~= prev + hits);
    if f == g - 1 {
        lemma_face_hits_has(fs[f], f as usize, e, fs[f].len(), j);
        let i = choose|i: int| 0 <= i < hits.len() && hits[i] == f as usize;
        assert(whole[prev.len() + i] == f as usize);
    } else {
        lemma_edge_faces_has(fs, e, (g - 1) as nat, f, j);
        let i = choose|i: int| 0 <= i < prev.len() && prev[i] == f as usize;
        assert(whole[i] == f as usize);
    }
}

/// Visit `t = (f, a, b, g)` walks side `k` of face `f`, from `a` to `b`, and `f` and `g` are
/// the two faces bordering that side.
pub open spec fn visit_ok(fs: Seq<Seq<usize>>, t: (usize, usize, usize, usize)) -> bool {
    &&& t.0 < fs.len()
    &&& exists|k: int| {
        &&& 0 <= k < fs[t.0 as int].len()
        &&& t.1 == fs[t.0 as int][k]
        &&& t.2 == fs[t.0 as int][succ(k, fs[t.0 as int].len() as int)]
        &&& #[trigger] edge_faces(fs, side(fs[t.0 as int], k), fs.len()).len() == 2
        &&& {
            let ef = edge_faces(fs, side(fs[t.0 as int], k), fs.len());
            (ef[0] == t.0 && ef[1] == t.3) || (ef[1] == t.0 && ef[0] == t.3)
        }
    }
}

proof fn lemma_visits_in_ok(fs: Seq<Seq<usize>>, f: nat, kk: nat)
    requires
        f < fs.len(),
        kk <= fs[f as int].len(),
        fs.len() <= usize::MAX,
    ensures
        forall|i: int| 0 <= i < visits_in(fs, f, kk).len() ==> visit_ok(fs, #[trigger] visits_in(fs, f, kk)[i]),
    decreases kk,
{
    if kk > 0 {
        lemma_visits_in_ok(fs, f, (kk - 1) as nat);
        let face = fs[f as int];
        let k = kk - 1;
        let e = side(face, k);
        let prev = visits_in(fs, f, (kk - 1) as nat);
        let whole = visits_in(fs, f, kk);
        assert forall|i: int| 0 <= i < whole.len() implies visit_ok(fs, #[trigger] whole[i]) by {
            if i < prev.len() {
                assert(whole[i] == prev[i]);
            } else {
                let ef = edge_faces(fs, e, fs.len());
                lemma_edge_faces_has(fs, e, fs.len(), f as int, k);
                let p = choose|p: int| 0 <= p < ef.len() && ef[p] == f as usize;
                let t = whole[i];
                assert(other_face(fs, f as usize, e) is Some);
                assert(t == (f as usize, face[k], face[succ(k, face.len() as int)], other_face(fs, f as usize, e).unwrap()));
                assert(edge_faces(fs, side(fs[t.0 as int], k), fs.len()).len() == 2);
            }
        }
    }
}

proof fn lemma_visits_ok(fs: Seq<Seq<usize>>, g: nat)
    requires
        g <= fs.len(),
        fs.len() <= usize::MAX,
    ensures
        forall|i: int| 0 <= i < visits_upto(fs, g).len() ==> visit_ok(fs, #[trigger] visits_upto(fs, g)[i]),
    decreases g,
{
    if g > 0 {
        lemma_visits_ok(fs, (g - 1) as nat);
        lemma_visits_in_ok(fs, (g - 1) as nat, fs[g - 1].len());
        let prev = visits_upto(fs, (g - 1) as nat);
        let last = visits_in(fs, (g - 1) as nat, fs[g - 1].len());
        let whole = visits_upto(fs, g);
        assert(whole =~= prev + last);
        assert forall|i: int| 0 <= i < whole.len() implies visit_ok(fs, #[trigger] whole[i]) by {
            if i < prev.len() {
                assert(whole[i] == prev[i]);
            } else {
                assert(whole[i] == last[i - prev.len()]);
            }
        }
    }
}

proof fn lemma_rings_contain(fs: Seq<Seq<usize>>, f: int, k: int, g: nat)
    requires
        0 <= f < g <= fs.len(),
        0 <= k < fs[f].len(),
    ensures
        face_rings_upto(fs, g).contains(face_ring(fs, f)[k]),
    decreases g,
{
    let prev = face_rings_upto(fs, (g - 1) as nat);
    let last = face_ring(fs, g - 1);
    let whole = face_rings_upto(fs, g);
    assert(whole =~= prev + last);
    if f == g - 1 {
        assert(whole[prev.len() + k] == last[k]);
    } else {
        lemma_rings_contain(fs, f, k, (g - 1) as nat);
        let i = choose|i: int| 0 <= i < prev.len() && prev[i] == face_ring(fs, f)[k];
        assert(whole[i] == prev[i]);
    }
}

proof fn lemma_listed_of(list: Seq<[usize; 2]>, pair: [usize; 2])
    requires
        list.contains(pair),
    ensures
        listed(list, pair[0] as int, pair[1] as int),
        listed(list, pair[1] as int, pair[0] as int),
{
    let i = choose|i: int| 0 <= i < list.len() && list[i] == pair;
    assert(list[i] == [pair[0], pair[1]]);
}

/// In a face without repeated vertices, position `k` is where its vertex first occurs.
proof fn lemma_first_index_distinct(s: Seq<usize>, k: int)
    requires
        s.no_duplicates(),
        0 <= k < s.len(),
    ensures
        first_index(s, s[k]) == k,
{
    lemma_first_index(s, s[k]);
    assert(s.contains(s[k]));
}

proof fn lemma_succ(k: int, len: int)
    requires
        0 <= k < len,
        len >= 3,
    ensures
        0 <= succ(k, len) < len,
        succ(k, len) != k,
{
    if k + 1 < len {
        assert((k + 1) % len == k + 1) by (nonlinear_arith)
            requires k + 1 < len, k >= 0;
    } else {
        assert((k + 1) % len == 0) by (nonlinear_arith)
            requires k + 1 == len, len > 0;
    }
}

#[verifier::rlimit(100)]
proof fn lemma_quad_cycle(fs: Seq<Seq<usize>>, t: (usize, usize, usize, usize))
    requires
        fs.len() <= usize::MAX,
        offset(fs, fs.len()) <= usize::MAX,
        forall|i: int| 0 <= i < fs.len() ==> (#[trigger] fs[i]).len() >= 3 && fs[i].no_duplicates(),
        visit_ok(fs, t),
        t.0 != t.3,
    ensures
        is_cycle_of(expand_graph(fs), quad_of(fs, t)),
{
    let f = t.0 as int;
    let g = t.3 as int;
    let a = t.1;
    let b = t.2;
    let ff = fs[f];
    let k = choose|k: int| {
        &&& 0 <= k < fs[t.0 as int].len()
        &&& t.1 == fs[t.0 as int][k]
        &&& t.2 == fs[t.0 as int][succ(k, fs[t.0 as int].len() as int)]
        &&& #[trigger] edge_faces(fs, side(fs[t.0 as int], k), fs.len()).len() == 2
        &&& {
            let ef = edge_faces(fs, side(fs[t.0 as int], k), fs.len());
            (ef[0] == t.0 && ef[1] == t.3) || (ef[1] == t.0 && ef[0] == t.3)
        }
    };
    let e = side(ff, k);
    let ef = edge_faces(fs, e, fs.len());
    lemma_edge_faces(fs, e, fs.len());
    assert(g < fs.len());
    let gg = fs[g];
    assert(ff.len() >= 3 && ff.no_duplicates());
    assert(gg.len() >= 3 && gg.no_duplicates());
    let sk = succ(k, ff.len() as int);
    lemma_succ(k, ff.len() as int);
    assert(a != b);
    lemma_first_index_distinct(ff, k);
    lemma_first_index_distinct(ff, sk);
    let jg = choose|j: int| 0 <= j < gg.len() && #[trigger] side(gg, j) == e;
    let sj = succ(jg, gg.len() as int);
    lemma_succ(jg, gg.len() as int);
    lemma_first_index_distinct(gg, jg);
    lemma_first_index_distinct(gg, sj);
    assert((gg[jg] == a && gg[sj] == b) || (gg[jg] == b && gg[sj] == a));
    assert(ff.contains(a) && ff.contains(b)) by {
        assert(ff[k] == a && ff[sk] == b);
    }
    assert(gg.contains(a) && gg.contains(b)) by {
        assert(gg[jg] == a || gg[jg] == b);
        assert(gg[sj] == a || gg[sj] == b);
    }
    let qa = corner_for(fs, f, a);
    let qb = corner_for(fs, f, b);
    let qc = corner_for(fs, g, b);
    let qd = corner_for(fs, g, a);
    lemma_copy_in_range(fs, f, a);
    lemma_copy_in_range(fs, f, b);
    lemma_copy_in_range(fs, g, a);
    lemma_copy_in_range(fs, g, b);
    if f < g {
        lemma_offset(fs, f as nat, g as nat);
    } else {
        lemma_offset(fs, g as nat, f as nat);
    }
    assert(first_index(ff, a) == k && first_index(ff, b) == sk);
    assert(qa == (offset(fs, f as nat) + k) as usize && qb == (offset(fs, f as nat) + sk) as usize);
    assert(offset(fs, f as nat) + k < offset(fs, fs.len()) && offset(fs, f as nat) + sk < offset(fs, fs.len()));
    assert(qa != qb);
    assert(offset(fs, g as nat) + jg < offset(fs, fs.len()) && offset(fs, g as nat) + sj < offset(fs, fs.len()));
    assert(qc != qd) by {
        if gg[jg] == a {
            assert(first_index(gg, a) == jg && first_index(gg, b) == sj);
        } else {
            assert(first_index(gg, b) == jg && first_index(gg, a) == sj);
        }
    }
    let size = offset(fs, fs.len());
    let rings = face_rings_upto(fs, fs.len());
    let rungs = rungs_upto(fs, fs.len());
    let list = rings + rungs;
    lemma_graph_from(size, list);
    // The ring of `f` joins the copies of `a` and `b` in `f`.
    lemma_rings_contain(fs, f, k, fs.len());
    assert(face_ring(fs, f)[k] == [qa, qb]);
    let ia = choose|i: int| 0 <= i < rings.len() && rings[i] == [qa, qb];
    assert(list[ia] == [qa, qb]);
    lemma_listed_of(list, [qa, qb]);
    // The ring of `g` joins the copies of `a` and `b` in `g`.
    lemma_rings_contain(fs, g, jg, fs.len());
    let rg = face_ring(fs, g)[jg];
    assert(rg == [qd, qc] || rg == [qc, qd]);
    let ig = choose|i: int| 0 <= i < rings.len() && rings[i] == rg;
    assert(list[ig] == rg);
    lemma_listed_of(list, rg);
    // The rungs join the copies in `f` and `g` of each end.
    let r = rungs_of(fs, e);
    assert(e[0] == a || e[0] == b);
    assert(e[1] == a || e[1] == b);
    assert(e[0] != e[1]);
    lemma_rungs_contain(fs, f, k, fs.len(), 0);
    lemma_rungs_contain(fs, f, k, fs.len(), 1);
    assert forall|x: int| 0 <= x < 2 implies list.contains(#[trigger] r[x]) by {
        let i = choose|i: int| 0 <= i < rungs.len() && rungs[i] == r[x];
        assert(list[rings.len() + i] == r[x]);
    }
    lemma_listed_of(list, r[0]);
    lemma_listed_of(list, r[1]);
    assert(listed(list, qb as int, qc as int));
    assert(listed(list, qd as int, qa as int));
    let quad = quad_of(fs, t);
    assert(quad == seq![qa, qb, qc, qd]);
    assert forall|i: int| 0 <= i < quad.len() implies #[trigger] adjacent(expand_graph(fs), quad[i] as int, quad[(i + 1) % (quad.len() as int)] as int) by {
        if i == 0 {
            assert(quad[0] == qa && quad[1] == qb);
        } else if i == 1 {
            assert(quad[1] == qb && quad[2] == qc);
        } else if i == 2 {
            assert(quad[2] == qc && quad[3] == qd);
            assert(listed(list, qc as int, qd as int));
        } else {
            assert(quad[3] == qd && quad[0] == qa);
        }
    }
    assert(quad.no_duplicates());
}

/// Expansion of faces without repeated vertices: every quad it puts across an edge between two
/// different faces is a cycle of the expanded graph (the copies of the edge's ends in each face
/// are joined by that face's ring, and the copies of each end are joined across the edge).
pub proof fn law_expand_quads_are_cycles(fs: Seq<Seq<usize>>)
    requires
        fs.len() <= usize::MAX,
        offset(fs, fs.len()) <= usize::MAX,
        forall|i: int| 0 <= i < fs.len() ==> (#[trigger] fs[i]).len() >= 3 && fs[i].no_duplicates(),
    ensures
        forall|w: int| 0 <= w < edge_quads(fs).len() && visits_upto(fs, fs.len())[w].0 != visits_upto(fs, fs.len())[w].3
            ==> is_cycle_of(expand_graph(fs), #[trigger] edge_quads(fs)[w]),
{
    lemma_visits_ok(fs, fs.len());
    assert forall|w: int| 0 <= w < edge_quads(fs).len() && visits_upto(fs, fs.len())[w].0 != visits_upto(fs, fs.len())[w].3
        implies is_cycle_of(expand_graph(fs), #[trigger] edge_quads(fs)[w]) by {
        let t = visits_upto(fs, fs.len())[w];
        assert(visit_ok(fs, t));
        lemma_quad_cycle(fs, t);
        assert(edge_quads(fs)[w] == quad_of(fs, t));
    }
}

/// Expansion keeps every face (of at least three sides) as the ring of its new corners, and
/// that ring is a cycle of the expanded graph.
pub proof fn law_expand_corner_faces_are_cycles(fs: Seq<Seq<usize>>)
    requires
        fs.len() <= usize::MAX,
        offset(fs, fs.len()) <= usize::MAX,
        forall|i: int| 0 <= i < fs.len() ==> (#[trigger] fs[i]).len() >= 3,
    ensures
        forall|f: int| 0 <= f < fs.len() ==> is_cycle_of(expand_graph(fs), #[trigger] corner_faces(fs)[f]),
{
    let size = offset(fs, fs.len());
    let rings = face_rings_upto(fs, fs.len());
    let list = rings + rungs_upto(fs, fs.len());
    lemma_graph_from(size, list);
    assert forall|f: int| 0 <= f < fs.len() implies is_cycle_of(expand_graph(fs), #[trigger] corner_faces(fs)[f]) by {
        let c = corner_faces(fs)[f];
        let len = fs[f].len() as int;
        assert(fs[f].len() >= 3);
        lemma_offset(fs, f as nat, fs.len());
        assert(c.len() == len);
        assert forall|i: int| 0 <= i < len implies #[trigger] c[i] == offset(fs, f as nat) + i by {
            assert(c[i] == corner_at(fs, f, i));
        }
        assert forall|i: int, j: int| 0 <= i < c.len() && 0 <= j < c.len() && i != j implies c[i] != c[j] by {
            assert(c[i] == offset(fs, f as nat) + i && c[j] == offset(fs, f as nat) + j);
        }
        assert forall|k: int| 0 <= k < c.len() implies #[trigger] adjacent(expand_graph(fs), c[k] as int, c[(k + 1) % (c.len() as int)] as int) by {
            lemma_succ(k, len);
            let r = (k + 1) % len;
            lemma_rings_contain(fs, f, k, fs.len());
            let pair = face_ring(fs, f)[k];
            assert(pair == [c[k], c[r]]);
            let i = choose|i: int| 0 <= i < rings.len() && rings[i] == pair;
            assert(list[i] == pair);
            lemma_listed_of(list, pair);
            assert(c[r] == offset(fs, f as nat) + r);
            assert(c[k] == offset(fs, f as nat) + k);
        }
        assert(c.no_duplicates());
    }
}

} // verus!
