use vstd::prelude::*;
use vstd::string::{StrSliceExecFns, StringExecFns};
use crate::polyhedron::VertexId;
use crate::polyhedron::name::{char_width, chars_before, chars_in_bytes, on_boundary, rename, renamed};
use crate::polyhedron::merge::{edges_below, merge_sequence};
use crate::polyhedron::shape::{Shape, disconnect_all};
use crate::polyhedron::shape::chamfer::{chamfer_list_upto, chamfer_ready, chamfered_faces};
use crate::polyhedron::shape::conway::{copy_pairs, fresh_tags, offset, on_some_face, split_ready};
use crate::polyhedron::shape::cycles::{connections, contract_all_faces, sorted_faces, sorted_ids};
use crate::polyhedron::shape::cycles::discover::discovered;
use crate::polyhedron::shape::distance::{PairFilter, lemma_pairs_upto, neighbors_upto, pairs};
use crate::polyhedron::shape::distance::conway::{contract_all, contract_all_tags, split_cuts, split_ring, split_spokes, split_tags};
use crate::polyhedron::shape::distance::overlay::overlay;
use crate::polyhedron::shape::distance::paths::{is_apsp_of, same_edges};
use crate::polyhedron::shape::expand::fresh_ids;
use crate::polyhedron::shape::topology::visits_upto;

verus! {

/// A Conway operation asked of the polyhedron.
#[derive(Debug, Clone, Copy, PartialEq, Eq, Structural)]
pub enum ConwayMessage {
    Dual,
    Join,
    Ambo,
    Chamfer,
    Kis,
    SplitVertex(VertexId),
    Truncate,
    Expand,
    Snub,
    Bevel,
}

/// One entry of the queue of pending work on a polyhedron.
#[derive(Debug)]
pub enum Transaction {
    /// Contract these edges, once their springs have pulled them short.
    Contraction(Vec<[VertexId; 2]>),
    /// Disconnect these edges and recompute.
    Release(Vec<[VertexId; 2]>),
    /// Apply a Conway operation.
    Conway(ConwayMessage),
    /// Rename after the operation with this letter.
    Name(char),
    /// Drop this many leading bytes of the name.
    ShortenName(usize),
    /// Hold the queue until this moment, in milliseconds.
    Wait(u64),
    /// Stays at the head and does nothing.
    Nothing,
}

/// What the positions kept beside the shape must do after a step.
#[derive(Debug)]
pub enum StepAction {
    /// Nothing changed that the positions follow.
    Idle,
    /// These edges were contracted in the shape; merge their endpoints' positions in turn.
    ContractRender(Vec<[VertexId; 2]>),
    /// Vertex `v` became a ring: add `extra` positions copied from `v`, then size the
    /// buffers for `order` vertices.
    Split { v: VertexId, extra: usize, order: usize },
    /// Size the buffers for this many vertices.
    Resize(usize),
    /// Vertices were split in turn, each `(v, d)` into a ring of `d`: add `d - 1` positions
    /// copied from `v` for each, then size the buffers for `order` vertices.
    Splits { splits: Vec<(VertexId, usize)>, order: usize },
    /// Expansion: the first splits, then the contraction of `contracted`, then the second
    /// splits, then size the buffers for `order` vertices.
    Expanded {
        splits: Vec<(VertexId, usize)>,
        contracted: Vec<[VertexId; 2]>,
        splits2: Vec<(VertexId, usize)>,
        order: usize,
    },
    /// The operation stopped at a vertex that cannot be split; the shape is as far as it got.
    Stuck(ConwayMessage),
}

/// The largest vertex count whose square plus two fits in an `i64`, as recomputing needs.
pub const MAX_RECOMPUTE_ORDER: usize = 3037000499;

/// Milliseconds a bevel waits between its truncation and its ambo.
pub const BEVEL_PAUSE: u64 = 500;

/// The shape after `contract_edges(e)`.
pub open spec fn contracted(before: Shape, after: Shape, e: Seq<[VertexId; 2]>) -> bool {
    let ms = merge_sequence(e);
    let (fs, ids) = contract_all_faces(before.faces(), before.face_ids(), ms);
    &&& after.wf()
    &&& is_apsp_of(after.graph(), contract_all(before.graph(), ms))
    &&& after.faces() == sorted_faces(fs)
    &&& after.face_ids() == sorted_ids(fs, ids)
    &&& after.next_id() == before.next_id()
    &&& after.births() == before.births()
    &&& after.ancestry() == contract_all_tags(before.ancestry(), ms)
}

/// The shape after `release(e)`.
pub open spec fn released(before: Shape, after: Shape, e: Seq<[VertexId; 2]>) -> bool {
    &&& after.wf()
    &&& is_apsp_of(after.graph(), disconnect_all(before.graph(), e))
    &&& same_edges(after.graph(), disconnect_all(before.graph(), e))
    &&& discovered(after.graph(), before.next_id(), after.next_id(), after.faces(), after.face_ids())
    &&& after.births() == before.births()
    &&& after.ancestry() == before.ancestry()
}

/// The shape after `chamfer()`.
pub open spec fn chamfered(before: Shape, after: Shape) -> bool {
    let fs = before.faces();
    let m = before.graph();
    let n = m.len();
    let pre_faces = chamfered_faces(fs, n);
    let pre_ids = before.face_ids() + fresh_ids(before.next_id(), visits_upto(fs, fs.len()).len());
    &&& after.wf()
    &&& is_apsp_of(
        after.graph(),
        overlay(m, pairs(m, PairFilter::Edges), Seq::empty(), n, n + offset(fs, fs.len()), chamfer_list_upto(fs, n, fs.len())),
    )
    &&& after.faces() == sorted_faces(pre_faces)
    &&& after.face_ids() == sorted_ids(pre_faces, pre_ids)
    &&& after.next_id() == before.next_id() + visits_upto(fs, fs.len()).len()
    &&& after.births() == before.births()
    &&& after.ancestry() == fresh_tags(before.ancestry(), before.tag_counter(), offset(fs, fs.len()))
}

/// The graph after splitting `v` into a ring of `connections(faces, v).len()` vertices.
pub open spec fn split_graph(before: Shape, v: VertexId) -> Seq<Seq<usize>> {
    let m = before.graph();
    let n = m.len();
    let sc = connections(before.faces(), v);
    let d = sc.len();
    overlay(m, split_cuts(v, sc), seq![[v, sc[0]]], n, (n + d - 1) as nat, split_spokes(v, sc, n) + split_ring(v, d, n))
}

/// The shape after `split_vertex(v)` and `recompute()`.
pub open spec fn split_and_rediscovered(before: Shape, after: Shape, v: VertexId) -> bool {
    &&& after.wf()
    &&& is_apsp_of(after.graph(), split_graph(before, v))
    &&& same_edges(after.graph(), split_graph(before, v))
    &&& discovered(after.graph(), (before.next_id() + 1) as usize, after.next_id(), after.faces(), after.face_ids())
    &&& after.births() == before.births()
    &&& after.ancestry() == split_tags(before.ancestry(), v as int, (connections(before.faces(), v).len() - 1) as nat)
}

/// What `step` needs of its inputs: the head of the queue is work the library can do on them.
/// The operations the polyhedron does not support yet (dual, join, kis, snub) are left out.
pub open spec fn step_ready(q: Seq<Transaction>, name: String, s: Shape, settled: bool, now: u64) -> bool {
    let n = s.graph().len();
    &&& s.wf()
    &&& q.len() > 0 ==> match q[0] {
        Transaction::Contraction(e) => settled ==> edges_below(e@, n),
        Transaction::Release(e) => {
            &&& n * n + 2 <= i64::MAX
            &&& edges_below(e@, n)
        },
        Transaction::Conway(op) => match op {
            ConwayMessage::Chamfer => chamfer_ready(s.faces(), n, s.next_id(), s.tag_counter()),
            ConwayMessage::SplitVertex(v) => {
                let m = (n + connections(s.faces(), v).len() - 1) as int;
                &&& split_ready(s.faces(), n, v, s.next_id())
                &&& m * m + 2 <= i64::MAX
            },
            ConwayMessage::Bevel => now + BEVEL_PAUSE <= u64::MAX,
            ConwayMessage::Ambo | ConwayMessage::Truncate | ConwayMessage::Expand => true,
            ConwayMessage::Dual | ConwayMessage::Join | ConwayMessage::Kis | ConwayMessage::Snub => false,
        },
        Transaction::Name(c) => {
            &&& c != 'b' || on_boundary(name@, 2)
            &&& c != 'd' || (name@.len() >= 1 && char_width(name@[0]) == 1)
        },
        Transaction::ShortenName(k) => on_boundary(name@, k as nat),
        Transaction::Wait(_) | Transaction::Nothing => true,
    }
}

/// One step of the queue, from the queue `q`, name and shape before to those after, with the
/// action handed to the positions.
pub open spec fn stepped(
    q: Seq<Transaction>,
    q2: Seq<Transaction>,
    name: Seq<char>,
    name2: Seq<char>,
    s: Shape,
    s2: Shape,
    settled: bool,
    now: u64,
    action: StepAction,
) -> bool {
    let rest = q.drop_first();
    let unchanged = q2 == q && name2 == name && s2 == s && action is Idle;
    if q.len() == 0 {
        unchanged
    } else {
        match q[0] {
            Transaction::Contraction(e) => if settled {
                &&& q2 == rest
                &&& name2 == name
                &&& contracted(s, s2, e@)
                &&& action matches StepAction::ContractRender(r) && r@ == e@
            } else {
                unchanged
            },
            Transaction::Release(e) => {
                &&& q2 == rest
                &&& name2 == name
                &&& released(s, s2, e@)
                &&& action is Idle
            },
            Transaction::Conway(op) => match op {
                ConwayMessage::Chamfer => {
                    &&& q2 == seq![Transaction::Name('c')] + rest
                    &&& name2 == name
                    &&& chamfered(s, s2)
                    &&& action == StepAction::Resize(s2.graph().len() as usize)
                },
                ConwayMessage::SplitVertex(v) => {
                    &&& q2 == rest
                    &&& name2 == name
                    &&& split_and_rediscovered(s, s2, v)
                    &&& action == StepAction::Split {
                        v,
                        extra: (connections(s.faces(), v).len() - 1) as usize,
                        order: s2.graph().len() as usize,
                    }
                },
                ConwayMessage::Bevel => {
                    &&& q2 == seq![
                        Transaction::Conway(ConwayMessage::Truncate),
                        Transaction::Wait((now + BEVEL_PAUSE) as u64),
                        Transaction::Conway(ConwayMessage::Ambo),
                        Transaction::Name('b'),
                    ] + rest
                    &&& name2 == name
                    &&& s2 == s
                    &&& action == StepAction::Resize(s.graph().len() as usize)
                },
                ConwayMessage::Truncate => {
                    &&& name2 == name
                    &&& match action {
                        StepAction::Splits { splits, order } => {
                            &&& q2 == seq![Transaction::Name('t')] + rest
                            &&& truncated_all(s, s2, splits@)
                            &&& order == s2.graph().len()
                        },
                        StepAction::Stuck(o) => o == op && q2 == rest && truncation_stuck(s, s2, 0),
                        _ => false,
                    }
                },
                ConwayMessage::Ambo => {
                    &&& name2 == name
                    &&& match action {
                        StepAction::Splits { splits, order } => {
                            &&& q2.len() == rest.len() + 2
                            &&& q2.skip(2) == rest
                            &&& q2[0] matches Transaction::Contraction(c) && ambo_done(s, s2, splits@, c@)
                            &&& q2[1] == Transaction::Name('a')
                            &&& order == s2.graph().len()
                        },
                        StepAction::Stuck(o) => o == op && q2 == rest && truncation_stuck(s, s2, 0),
                        _ => false,
                    }
                },
                ConwayMessage::Expand => {
                    &&& name2 == name
                    &&& match action {
                        StepAction::Expanded { splits, contracted, splits2, order } => {
                            &&& q2.len() == rest.len() + 2
                            &&& q2.skip(2) == rest
                            &&& q2[0] matches Transaction::Contraction(c)
                                && expanded_by_ambo(s, s2, splits@, contracted@, splits2@, c@)
                            &&& q2[1] == Transaction::Name('e')
                            &&& order == s2.graph().len()
                        },
                        StepAction::Stuck(o) => o == op && q2 == rest && expand_stuck(s, s2),
                        _ => false,
                    }
                },
                _ => unchanged,
            },
            Transaction::Name(c) => {
                &&& q2 == rest
                &&& name2 == renamed(name, c)
                &&& s2 == s
                &&& action is Idle
            },
            Transaction::ShortenName(k) => {
                &&& q2 == rest
                &&& name2 == name.skip(chars_before(name, k as nat))
                &&& s2 == s
                &&& action is Idle
            },
            Transaction::Wait(t) => if now > t {
                &&& q2 == rest
                &&& name2 == name
                &&& s2 == s
                &&& action is Idle
            } else {
                unchanged
            },
            Transaction::Nothing => unchanged,
        }
    }
}

/// Takes the next step of the queue: the head is done and dropped, or replaced by the work it
/// leads to, or kept while it waits (for the springs to settle, or for its moment).
pub fn step(queue: &mut Vec<Transaction>, name: &mut String, shape: &mut Shape, springs_settled: bool, now: u64) -> (action: StepAction)
    requires
        step_ready(old(queue)@, *old(name), *old(shape), springs_settled, now),
    ensures
        stepped(old(queue)@, final(queue)@, old(name)@, final(name)@, *old(shape), *final(shape), springs_settled, now, action),
{
    if queue.len() == 0 {
        return StepAction::Idle;
    }
    let ghost q = queue@;
    let head = queue.remove(0);
    assert(queue@ =~= q.drop_first());
    match head {
        Transaction::Contraction(edges) => {
            if springs_settled {
                let copy = copy_pairs(&edges);
                shape.contract_edges(edges);
                StepAction::ContractRender(copy)
            } else {
                queue.insert(0, Transaction::Contraction(edges));
                assert(queue@ =~= q);
                StepAction::Idle
            }
        },
        Transaction::Release(edges) => {
            shape.release(edges.as_slice());
            StepAction::Idle
        },
        Transaction::Conway(op) => match op {
            ConwayMessage::Chamfer => {
                shape.chamfer();
                queue.insert(0, Transaction::Name('c'));
                assert(queue@ =~= seq![Transaction::Name('c')] + q.drop_first());
                StepAction::Resize(shape.order())
            },
            ConwayMessage::SplitVertex(v) => {
                let ring = shape.split_vertex(v);
                let extra = ring.len() - 1;
                shape.recompute();
                StepAction::Split { v, extra, order: shape.order() }
            },
            ConwayMessage::Bevel => {
                queue.insert(0, Transaction::Name('b'));
                queue.insert(0, Transaction::Conway(ConwayMessage::Ambo));
                queue.insert(0, Transaction::Wait(now + BEVEL_PAUSE));
                queue.insert(0, Transaction::Conway(ConwayMessage::Truncate));
                assert(queue@ =~= seq![
                    Transaction::Conway(ConwayMessage::Truncate),
                    Transaction::Wait((now + BEVEL_PAUSE) as u64),
                    Transaction::Conway(ConwayMessage::Ambo),
                    Transaction::Name('b'),
                ] + q.drop_first());
                StepAction::Resize(shape.order())
            },
            ConwayMessage::Truncate => match truncate_vertices(shape, 0) {
                Some((splits, rings)) => {
                    assert(truncated(*old(shape), *shape, 0, splits@, rings@));
                    assert(truncated_all(*old(shape), *shape, splits@));
                    follow_up(queue, op, Vec::new());
                    assert(queue@ =~= seq![Transaction::Name('t')] + q.drop_first());
                    StepAction::Splits { splits, order: shape.order() }
                },
                None => StepAction::Stuck(op),
            },
            ConwayMessage::Ambo => match ambo(shape) {
                Some((splits, contract)) => {
                    follow_up(queue, op, contract);
                    assert(queue@.skip(2) =~= q.drop_first());
                    StepAction::Splits { splits, order: shape.order() }
                },
                None => StepAction::Stuck(op),
            },
            ConwayMessage::Expand => match expand_by_ambo(shape) {
                Some((splits, contracted, splits2, contract)) => {
                    follow_up(queue, op, contract);
                    assert(queue@.skip(2) =~= q.drop_first());
                    StepAction::Expanded { splits, contracted, splits2, order: shape.order() }
                },
                None => StepAction::Stuck(op),
            },
            _ => {
                queue.insert(0, Transaction::Conway(op));
                assert(queue@ =~= q);
                StepAction::Idle
            },
        },
        Transaction::Name(c) => {
            let renamed_name = rename(name, c);
            *name = renamed_name;
            StepAction::Idle
        },
        Transaction::ShortenName(k) => {
            let whole = name.as_str();
            let len = whole.unicode_len();
            let j = chars_in_bytes(whole, k);
            let kept = String::from_str(whole.substring_char(j, len));
            assert(kept@ =~= old(name)@.skip(j as int));
            *name = kept;
            StepAction::Idle
        },
        Transaction::Wait(t) => {
            if now <= t {
                queue.insert(0, Transaction::Wait(t));
                assert(queue@ =~= q);
            }
            StepAction::Idle
        },
        Transaction::Nothing => {
            queue.insert(0, Transaction::Nothing);
            assert(queue@ =~= q);
            StepAction::Idle
        },
    }
}

/// The work queued after `op` (ambo, truncate or expand) was applied, given the edges it left to
/// contract: ambo and expand contract those edges, and each is named by its letter.
pub fn follow_up(queue: &mut Vec<Transaction>, op: ConwayMessage, edges: Vec<[VertexId; 2]>)
    requires
        op is Ambo || op is Truncate || op is Expand,
    ensures
        final(queue)@ == (match op {
            ConwayMessage::Ambo => seq![Transaction::Contraction(edges), Transaction::Name('a')],
            ConwayMessage::Expand => seq![Transaction::Contraction(edges), Transaction::Name('e')],
            _ => seq![Transaction::Name('t')],
        }) + old(queue)@,
{
    let ghost q = queue@;
    match op {
        ConwayMessage::Ambo => {
            queue.insert(0, Transaction::Name('a'));
            queue.insert(0, Transaction::Contraction(edges));
        },
        ConwayMessage::Expand => {
            queue.insert(0, Transaction::Name('e'));
            queue.insert(0, Transaction::Contraction(edges));
        },
        _ => {
            queue.insert(0, Transaction::Name('t'));
        },
    }
    assert(queue@ =~= (match op {
        ConwayMessage::Ambo => seq![Transaction::Contraction(edges), Transaction::Name('a')],
        ConwayMessage::Expand => seq![Transaction::Contraction(edges), Transaction::Name('e')],
        _ => seq![Transaction::Name('t')],
    }) + q);
}

/// Vertex `v` is due for truncation: every vertex is when `d` is zero, else those of degree `d`.
pub open spec fn due(s: Shape, v: VertexId, d: usize) -> bool {
    d == 0 || neighbors_upto(s.graph(), v as int, s.graph().len()).len() == d
}

/// `v` can be split, and the grown shape stays within what recomputing it needs.
pub open spec fn splittable(s: Shape, v: VertexId) -> bool {
    let n = s.graph().len();
    let m = (n + connections(s.faces(), v).len() - 1) as int;
    &&& split_ready(s.faces(), n, v, s.next_id())
    &&& m * m + 2 <= i64::MAX
}

/// The vertices visited first to last, from `n0 - 1` down, took the shape through `trace`: each
/// visit either split a due vertex into a ring and recomputed, or left the shape as it was.
/// `splits` lists each split vertex with its ring size, and `edges` the rings' edges in turn.
pub open spec fn truncation_trace(trace: Seq<Shape>, n0: nat, d: usize, splits: Seq<(VertexId, usize)>, edges: Seq<[VertexId; 2]>) -> bool
    decreases trace.len(),
{
    if trace.len() <= 1 {
        trace.len() == 1 && splits.len() == 0 && edges.len() == 0
    } else {
        let k = trace.len() - 2;
        let v = (n0 - 1 - k) as usize;
        let s = trace[k];
        let s2 = trace[k + 1];
        if due(s, v, d) {
            let dd = connections(s.faces(), v).len();
            &&& splits.len() > 0
            &&& splits.last() == (v, dd as usize)
            &&& dd <= edges.len()
            &&& edges.skip(edges.len() - dd) == split_ring(v, dd, s.graph().len())
            &&& splittable(s, v)
            &&& split_and_rediscovered(s, s2, v)
            &&& truncation_trace(trace.drop_last(), n0, d, splits.drop_last(), edges.take(edges.len() - dd))
        } else {
            &&& s2 == s
            &&& truncation_trace(trace.drop_last(), n0, d, splits, edges)
        }
    }
}

/// `after` is `before` truncated by visiting every vertex of `before` from the last down, with
/// these splits and ring edges.
pub open spec fn truncated(before: Shape, after: Shape, d: usize, splits: Seq<(VertexId, usize)>, edges: Seq<[VertexId; 2]>) -> bool {
    exists|trace: Seq<Shape>| {
        &&& trace.len() == before.graph().len() + 1
        &&& trace[0] == before
        &&& trace.last() == after
        &&& #[trigger] truncation_trace(trace, before.graph().len(), d, splits, edges)
    }
}

/// `after` is `before` with every vertex truncated, with these splits.
pub open spec fn truncated_all(before: Shape, after: Shape, splits: Seq<(VertexId, usize)>) -> bool {
    exists|rings: Seq<[VertexId; 2]>| #[trigger] truncated(before, after, 0, splits, rings)
}

/// The truncation of `before` stopped at a due vertex that cannot be split, leaving `after`.
pub open spec fn truncation_stuck(before: Shape, after: Shape, d: usize) -> bool {
    exists|trace: Seq<Shape>, splits: Seq<(VertexId, usize)>, edges: Seq<[VertexId; 2]>| {
        let v = (before.graph().len() - trace.len()) as usize;
        &&& 1 <= trace.len() <= before.graph().len()
        &&& trace[0] == before
        &&& trace.last() == after
        &&& #[trigger] truncation_trace(trace, before.graph().len(), d, splits, edges)
        &&& due(after, v, d)
        &&& !splittable(after, v)
    }
}

/// Truncates one vertex at a time, from the last vertex down: each due vertex (every vertex
/// when `d` is zero, else those of degree `d`) is split into a ring and the shape recomputed.
/// Returns the split vertices with their ring sizes, and the rings' edges; `None` when a due
/// vertex cannot be split, with the shape as the visits before it left it.
pub fn truncate_vertices(shape: &mut Shape, d: usize) -> (r: Option<(Vec<(VertexId, usize)>, Vec<[VertexId; 2]>)>)
    requires
        old(shape).wf(),
    ensures
        final(shape).wf(),
        match r {
            Some((splits, edges)) => truncated(*old(shape), *final(shape), d, splits@, edges@),
            None => truncation_stuck(*old(shape), *final(shape), d),
        },
{
    let n0 = shape.order();
    let mut splits: Vec<(VertexId, usize)> = Vec::new();
    let mut edges: Vec<[VertexId; 2]> = Vec::new();
    let ghost mut trace: Seq<Shape> = seq![*shape];
    let mut k: usize = 0;
    while k < n0
        invariant
            shape.wf(),
            n0 == old(shape).graph().len(),
            n0 <= shape.graph().len(),
            k <= n0,
            trace.len() == k + 1,
            trace[0] == *old(shape),
            trace.last() == *shape,
            truncation_trace(trace, n0 as nat, d, splits@, edges@),
        decreases n0 - k,
    {
        let v = n0 - 1 - k;
        let is_due = d == 0 || shape.degree(v) == d;
        if is_due {
            if !shape.can_split(v) {
                assert(!splittable(*shape, v));
                assert(truncation_trace(trace, n0 as nat, d, splits@, edges@));
                assert(truncation_stuck(*old(shape), *shape, d));
                return None;
            }
            let n = shape.order();
            let dd = shape.split_size(v);
            let m = n + (dd - 1);
            if m > MAX_RECOMPUTE_ORDER {
                assert(m * m + 2 > i64::MAX) by (nonlinear_arith)
                    requires m > 3037000499;
                assert(!splittable(*shape, v));
                assert(truncation_trace(trace, n0 as nat, d, splits@, edges@));
                assert(truncation_stuck(*old(shape), *shape, d));
                return None;
            }
            assert(m * m + 2 <= i64::MAX) by (nonlinear_arith)
                requires m <= 3037000499;
            let ghost before = *shape;
            let ghost edges0 = edges@;
            let ghost splits0 = splits@;
            let ghost trace0 = trace;
            let ring = shape.split_vertex(v);
            shape.recompute();
            splits.push((v, dd));
            let mut i: usize = 0;
            while i < ring.len()
                invariant
                    i <= ring@.len(),
                    edges@ == edges0 + ring@.take(i as int),
                decreases ring@.len() - i,
            {
                edges.push(ring[i]);
                i += 1;
                assert(edges@ =~= edges0 + ring@.take(i as int));
            }
            proof {
                assert(ring@.take(i as int) =~= ring@);
                trace = trace.push(*shape);
                assert(trace.drop_last() =~= trace0);
                assert(splits@.drop_last() =~= splits0);
                assert(edges@.take(edges@.len() - dd) =~= edges0);
                assert(edges@.skip(edges@.len() - dd) =~= ring@);
                assert(split_graph(before, v).len() == n + dd - 1);
            }
        } else {
            proof {
                let ghost trace0 = trace;
                trace = trace.push(*shape);
                assert(trace.drop_last() =~= trace0);
            }
        }
        k += 1;
    }
    assert(truncation_trace(trace, old(shape).graph().len(), d, splits@, edges@));
    assert(truncated(*old(shape), *shape, d, splits@, edges@));
    let r = Some((splits, edges));
    assert(r matches Some((sp, ed)) && sp@ == splits@ && ed@ == edges@);
    r
}

/// The pair `e` is one of `edges`, either way round.
pub open spec fn among(edges: Seq<[VertexId; 2]>, e: [VertexId; 2]) -> bool {
    edges.contains(e) || edges.contains([e[1], e[0]])
}

/// The pairs of `all` that are not among `rings`, in order.
pub open spec fn kept_edges(all: Seq<[VertexId; 2]>, rings: Seq<[VertexId; 2]>) -> Seq<[VertexId; 2]>
    decreases all.len(),
{
    if all.len() == 0 {
        Seq::empty()
    } else {
        let rest = kept_edges(all.drop_last(), rings);
        if among(rings, all.last()) { rest } else { rest.push(all.last()) }
    }
}

fn is_among(edges: &Vec<[VertexId; 2]>, e: [VertexId; 2]) -> (r: bool)
    ensures
        r == among(edges@, e),
{
    let ghost flipped = [e[1], e[0]];
    let mut i: usize = 0;
    while i < edges.len()
        invariant
            i <= edges@.len(),
            flipped == [e[1], e[0]],
            forall|j: int| 0 <= j < i ==> #[trigger] edges@[j] != e && edges@[j] != flipped,
        decreases edges@.len() - i,
    {
        let x = edges[i];
        if x[0] == e[0] && x[1] == e[1] {
            assert(x =~= e);
            assert(edges@[i as int] == e);
            return true;
        }
        if x[0] == e[1] && x[1] == e[0] {
            assert(x =~= flipped);
            assert(edges@[i as int] == flipped);
            return true;
        }
        assert(x != e);
        assert(x != flipped);
        i += 1;
    }
    false
}

/// `after` is the ambo of `before`: `before` truncated at every vertex, with `contract` the
/// edges of `after` off the truncation's rings.
pub open spec fn ambo_done(before: Shape, after: Shape, splits: Seq<(VertexId, usize)>, contract: Seq<[VertexId; 2]>) -> bool {
    exists|rings: Seq<[VertexId; 2]>| {
        &&& #[trigger] truncated(before, after, 0, splits, rings)
        &&& contract == kept_edges(pairs(after.graph(), PairFilter::Edges), rings)
    }
}

/// `a` ambo: truncates every vertex, then gives the edges that are not on the truncation's
/// rings, which contracting takes back to the original vertices' midpoints. Returns the split
/// vertices with their ring sizes and the edges to contract; `None` as `truncate_vertices` does.
pub fn ambo(shape: &mut Shape) -> (r: Option<(Vec<(VertexId, usize)>, Vec<[VertexId; 2]>)>)
    requires
        old(shape).wf(),
    ensures
        final(shape).wf(),
        match r {
            Some((splits, contract)) => {
                &&& ambo_done(*old(shape), *final(shape), splits@, contract@)
                &&& edges_below(contract@, final(shape).graph().len())
            },
            None => truncation_stuck(*old(shape), *final(shape), 0),
        },
{
    match truncate_vertices(shape, 0) {
        None => None,
        Some((splits, rings)) => {
            let all = shape.edges();
            proof {
                lemma_pairs_upto(shape.graph(), PairFilter::Edges, shape.graph().len());
            }
            let mut contract: Vec<[VertexId; 2]> = Vec::new();
            let mut i: usize = 0;
            while i < all.len()
                invariant
                    i <= all@.len(),
                    contract@ == kept_edges(all@.take(i as int), rings@),
                    edges_below(all@, shape.graph().len()),
                    edges_below(contract@, shape.graph().len()),
                decreases all@.len() - i,
            {
                assert(all@.take(i + 1).drop_last() =~= all@.take(i as int));
                if !is_among(&rings, all[i]) {
                    contract.push(all[i]);
                }
                i += 1;
            }
            assert(all@.take(i as int) =~= all@);
            assert(truncated(*old(shape), *shape, 0, splits@, rings@));
            let r = Some((splits, contract));
            assert(r matches Some((sp, c)) && sp@ == splits@ && c@ == kept_edges(pairs(shape.graph(), PairFilter::Edges), rings@));
            r
        },
    }
}

/// `after` is `before` expanded as ambo twice: an ambo with `splits` giving `contracted_edges`,
/// their contraction, and a second ambo with `splits2` giving `contract`.
pub open spec fn expanded_by_ambo(
    before: Shape,
    after: Shape,
    splits: Seq<(VertexId, usize)>,
    contracted_edges: Seq<[VertexId; 2]>,
    splits2: Seq<(VertexId, usize)>,
    contract: Seq<[VertexId; 2]>,
) -> bool {
    exists|mid: Shape, mid2: Shape| {
        &&& #[trigger] ambo_done(before, mid, splits, contracted_edges)
        &&& #[trigger] contracted(mid, mid2, contracted_edges)
        &&& ambo_done(mid2, after, splits2, contract)
    }
}

/// Expanding `before` as ambo twice stopped at a vertex that cannot be split, in the first ambo
/// or, after it and its contraction, in the second, leaving `after`.
pub open spec fn expand_stuck(before: Shape, after: Shape) -> bool {
    ||| truncation_stuck(before, after, 0)
    ||| exists|mid: Shape, mid2: Shape, splits: Seq<(VertexId, usize)>, c: Seq<[VertexId; 2]>| {
        &&& #[trigger] ambo_done(before, mid, splits, c)
        &&& #[trigger] contracted(mid, mid2, c)
        &&& truncation_stuck(mid2, after, 0)
    }
}

/// `e` expand, as ambo twice: ambo, contract the edges it gives, and ambo again. Returns the
/// first ambo's splits and contracted edges, then the second's splits and the edges it leaves
/// to contract; `None` when either ambo stops at a vertex that cannot be split.
pub fn expand_by_ambo(shape: &mut Shape) -> (r: Option<(Vec<(VertexId, usize)>, Vec<[VertexId; 2]>, Vec<(VertexId, usize)>, Vec<[VertexId; 2]>)>)
    requires
        old(shape).wf(),
    ensures
        final(shape).wf(),
        match r {
            Some((splits, contracted_edges, splits2, contract)) => {
                &&& expanded_by_ambo(*old(shape), *final(shape), splits@, contracted_edges@, splits2@, contract@)
                &&& edges_below(contract@, final(shape).graph().len())
            },
            None => expand_stuck(*old(shape), *final(shape)),
        },
{
    match ambo(shape) {
        None => None,
        Some((splits, first)) => {
            let ghost mid = *shape;
            let kept = copy_pairs(&first);
            shape.contract_edges(first);
            let ghost mid2 = *shape;
            proof {
                assert(ambo_done(*old(shape), mid, splits@, kept@));
                assert(contracted(mid, mid2, kept@));
            }
            match ambo(shape) {
                None => {
                    assert(truncation_stuck(mid2, *shape, 0));
                    assert(expand_stuck(*old(shape), *shape));
                    None
                },
                Some((splits2, contract)) => {
                    assert(ambo_done(mid2, *shape, splits2@, contract@));
                    assert(expanded_by_ambo(*old(shape), *shape, splits@, kept@, splits2@, contract@));
                    Some((splits, kept, splits2, contract))
                },
            }
        },
    }
}

} // verus!
