//! The search engine: priority-ordered expansion with strict cost
//! relaxation (lazy deletion of stale frontier entries), and path
//! reconstruction from the predecessor map.

use vstd::prelude::*;
use vstd::arithmetic::mul::lemma_mul_is_distributive_add;
use vstd::arithmetic::mul::lemma_mul_nonnegative;

use std::collections::HashMap;

use crate::cost::CostModel;
use crate::cost::lemma_model_bounds;
use crate::frontier::Entry;
use crate::frontier::Frontier;
use crate::heuristic::Heuristic;
use crate::topology::NodeId;
use crate::topology::Topology;
use crate::topology::edge_in;
use crate::topology::lemma_key_injective;
use crate::topology::lemma_wsum_mirror;
use crate::topology::lemma_wsum_nonneg;
use crate::topology::lemma_wsum_push;
use crate::topology::path_ok;
use crate::topology::wsum;

verus! {

broadcast use vstd::std_specs::hash::group_hash_axioms;

/// A found path from start to goal, and its realized cost in scaled cost
/// units.
pub struct SearchOutcome {
    pub path: Vec<NodeId>,
    pub cost: u64,
}

/// Rejected inputs, reported before any search work begins.
#[derive(Clone, Copy, PartialEq, Eq, Structural, Debug)]
pub enum SearchError {
    /// The start node is not part of the topology.
    StartMissing,
    /// The goal node is not part of the topology.
    GoalMissing,
}

/// Predecessor-map entry: the node itself, the node it was most cheaply
/// reached from, and the base weight of the edge used.
#[derive(Clone, Copy)]
struct PredEntry {
    node: NodeId,
    prev: NodeId,
    w: u64,
}

/// Ghost witness for a best-cost entry: a concrete path from the start
/// whose scaled base cost brackets the recorded cost.
struct WitPath {
    node: NodeId,
    path: Seq<NodeId>,
    ws: Seq<u64>,
}

/// The witness of key `k` describes a real path from the start to the
/// node of `k`, and the recorded cost `b` lies between the least and the
/// greatest realizable cost of that path.
spec fn wit_ok(t: Topology, start: NodeId, lo: int, hi: int, k: u64, wp: WitPath, b: u64) -> bool {
    &&& t.spec_has_node(wp.node)
    &&& t.spec_key(wp.node) == k
    &&& path_ok(t, wp.path, wp.ws, start, wp.node)
    &&& lo * wsum(wp.ws) <= b as int
    &&& b as int <= hi * wsum(wp.ws)
}

/// A predecessor entry records a real edge, its node is not the start,
/// best costs never increase along it, and equal costs are ordered by
/// write stamp, which makes the predecessor walk well-founded.
spec fn pred_ok(
    t: Topology,
    start: NodeId,
    lo: int,
    bm: Map<u64, u64>,
    pm: Map<u64, PredEntry>,
    sm: Map<u64, int>,
    k: u64,
) -> bool {
    let pe = pm[k];
    let kp = t.spec_key(pe.prev);
    &&& t.spec_has_node(pe.node)
    &&& t.spec_key(pe.node) == k
    &&& pe.node != start
    &&& t.spec_has_node(pe.prev)
    &&& edge_in(t, pe.prev, pe.node, pe.w)
    &&& bm.contains_key(k)
    &&& bm.contains_key(kp)
    &&& bm[kp] + lo * pe.w <= bm[k]
    &&& ((bm[k] == bm[kp] && pm.contains_key(kp)) ==> sm[kp] < sm[k])
}

/// Invariant of the mutable search state, frontier aside.
spec fn state_inv(
    t: Topology,
    start: NodeId,
    lo: int,
    hi: int,
    bm: Map<u64, u64>,
    pm: Map<u64, PredEntry>,
    sm: Map<u64, int>,
    ctr: int,
    wm: Map<u64, WitPath>,
) -> bool {
    let ks = t.spec_key(start);
    &&& t.spec_has_node(start)
    &&& bm.contains_key(ks)
    &&& bm[ks] == 0
    &&& !pm.contains_key(ks)
    &&& ctr >= 0
    &&& forall|k: u64| #[trigger]
        bm.contains_key(k) ==> wm.contains_key(k) && wit_ok(t, start, lo, hi, k, wm[k], bm[k])
    &&& forall|k: u64| #[trigger] bm.contains_key(k) ==> k == ks || pm.contains_key(k)
    &&& forall|k: u64| #[trigger]
        pm.contains_key(k) ==> bm.contains_key(k) && sm.contains_key(k) && 0 <= sm[k] < ctr
            && pred_ok(t, start, lo, bm, pm, sm, k)
}

/// The tie-break rank of a key in the predecessor-walk measure.
spec fn stamp_of(pm: Map<u64, PredEntry>, sm: Map<u64, int>, k: u64) -> int {
    if pm.contains_key(k) {
        sm[k] + 1
    } else {
        0
    }
}

/// The walk measure strictly decreases from key `ka` to key `kb`: the
/// recorded cost drops, or stays equal while the write stamp drops. Since
/// no key can be below itself, a walk along which this holds pairwise
/// never revisits a node.
spec fn walk_lt(
    bm: Map<u64, u64>,
    pm: Map<u64, PredEntry>,
    sm: Map<u64, int>,
    ka: u64,
    kb: u64,
) -> bool {
    ||| bm[kb] < bm[ka]
    ||| (bm[kb] == bm[ka] && stamp_of(pm, sm, kb) < stamp_of(pm, sm, ka))
}

/// When a goal entry is popped with the least ordering key of the
/// frontier, the goal's recorded cost is within the worst-case cost of
/// every representable path from the start.
proof fn lemma_goal_pop_minimal(
    t: Topology,
    heur: Heuristic,
    start: NodeId,
    goal: NodeId,
    hi: int,
    bm: Map<u64, u64>,
    es0: Seq<Entry>,
    e: Entry,
)
    requires
        t.wf(),
        hi >= 0,
        admissible(t, heur, goal, hi),
        frontier_ok(t, heur, goal, bm, es0),
        frontier_covers(t, hi, bm, es0),
        t.spec_has_node(start),
        bm.contains_key(t.spec_key(start)),
        bm[t.spec_key(start)] == 0,
        e.node == goal,
        entry_ok(t, heur, goal, bm, e),
        forall|j: int| 0 <= j < es0.len() ==> (#[trigger] es0[j]).f_spec() >= e.f_spec(),
    ensures
        cost_minimal(t, start, goal, hi, bm[t.spec_key(goal)] as int),
{
    reveal(cost_minimal);
    let kg = t.spec_key(goal);
    assert(e.key == kg);
    assert(heur.spec_estimate(goal, goal) == 0);
    assert(e.h == 0);
    assert(e.f_spec() == e.g);
    assert forall|p: Seq<NodeId>, ws: Seq<u64>|
        #[trigger] path_ok(t, p, ws, start, goal) && hi * wsum(ws) <= u64::MAX implies (
    bm[kg] as int) <= hi * wsum(ws) by {
        lemma_wsum_nonneg(ws);
        lemma_mul_nonnegative(hi, wsum(ws));
        lemma_path_bound(t, heur, goal, hi, bm, es0, start, p, ws, 0);
        if exists|i: int|
            0 <= i < es0.len() && (#[trigger] es0[i]).f_spec() <= 0 + hi * wsum(ws) {
            let i = choose|i: int|
                0 <= i < es0.len() && (#[trigger] es0[i]).f_spec() <= 0 + hi * wsum(ws);
            assert(e.f_spec() <= es0[i].f_spec());
            assert(bm[kg] <= e.g);
        }
    }
}

/// A frontier entry names a real node whose best cost is recorded and no
/// greater than the entry's own cost, and carries that node's honest
/// heuristic estimate.
spec fn entry_ok(t: Topology, heur: Heuristic, goal: NodeId, bm: Map<u64, u64>, e: Entry) -> bool {
    &&& t.spec_has_node(e.node)
    &&& t.spec_key(e.node) == e.key
    &&& bm.contains_key(e.key)
    &&& bm[e.key] <= e.g
    &&& e.h == heur.spec_estimate(e.node, goal)
}

spec fn frontier_ok(
    t: Topology,
    heur: Heuristic,
    goal: NodeId,
    bm: Map<u64, u64>,
    es: Seq<Entry>,
) -> bool {
    forall|i: int| 0 <= i < es.len() ==> entry_ok(t, heur, goal, bm, #[trigger] es[i])
}

/// The heuristic never claims more than `hi` times the base weight of any
/// path that remains to the goal. Expansion order then cannot starve the
/// cheapest routes, which is what the engine's cost bound rests on.
#[verifier::opaque]
pub open spec fn admissible(t: Topology, heur: Heuristic, goal: NodeId, hi: int) -> bool {
    forall|n: NodeId, p: Seq<NodeId>, ws: Seq<u64>|
        #[trigger] path_ok(t, p, ws, n, goal) ==> heur.spec_estimate(n, goal) <= hi * wsum(ws)
}

/// Some weighting of `p` joins `start` to `goal` at least cost `c / lo`.
#[verifier::opaque]
pub open spec fn cost_reached(
    t: Topology,
    start: NodeId,
    goal: NodeId,
    lo: int,
    p: Seq<NodeId>,
    c: int,
) -> bool {
    exists|ws: Seq<u64>| path_ok(t, p, ws, start, goal) && lo * wsum(ws) <= c
}

/// Some real path from `start` to `goal` brackets `c` between its least
/// and greatest realizable cost.
#[verifier::opaque]
pub open spec fn cost_bracketed(
    t: Topology,
    start: NodeId,
    goal: NodeId,
    lo: int,
    hi: int,
    c: int,
) -> bool {
    exists|p: Seq<NodeId>, ws: Seq<u64>|
        path_ok(t, p, ws, start, goal) && lo * wsum(ws) <= c <= hi * wsum(ws)
}

/// `c` is within the worst-case realizable cost of every path from
/// `start` to `goal` whose worst-case cost is representable.
#[verifier::opaque]
pub open spec fn cost_minimal(
    t: Topology,
    start: NodeId,
    goal: NodeId,
    hi: int,
    c: int,
) -> bool {
    forall|p: Seq<NodeId>, ws: Seq<u64>|
        #[trigger] path_ok(t, p, ws, start, goal) && hi * wsum(ws) <= u64::MAX ==> c <= hi * wsum(
            ws,
        )
}

/// The zero heuristic is admissible for every topology and every
/// non-negative factor bound.
pub proof fn lemma_zero_admissible(t: Topology, goal: NodeId, hi: int)
    requires
        hi >= 0,
    ensures
        admissible(t, Heuristic::Zero, goal, hi),
{
    reveal(admissible);
    assert forall|n: NodeId, p: Seq<NodeId>, ws: Seq<u64>|
        #[trigger] path_ok(t, p, ws, n, goal) implies Heuristic::Zero.spec_estimate(n, goal) <= hi
        * wsum(ws) by {
        lemma_wsum_nonneg(ws);
        lemma_mul_nonnegative(hi, wsum(ws));
    }
}

/// Key `k` has a frontier entry at exactly its recorded best cost.
spec fn open_at(es: Seq<Entry>, bm: Map<u64, u64>, k: u64) -> bool {
    exists|i: int| 0 <= i < es.len() && (#[trigger] es[i]).key == k && es[i].g == bm[k]
}

/// One outgoing edge of the node of key `k` has been accounted for: where
/// the worst-case step stays representable, the target's recorded cost is
/// within `hi` times the edge weight of `k`'s.
spec fn closed_edge(t: Topology, hi: int, bm: Map<u64, u64>, k: u64, e: (NodeId, u64)) -> bool {
    (t.spec_has_node(e.0) && bm[k] + hi * e.1 <= u64::MAX) ==> bm.contains_key(t.spec_key(e.0))
        && bm[t.spec_key(e.0)] <= bm[k] + hi * e.1
}

/// Every outgoing edge of `n` has been accounted for.
spec fn closed_at(t: Topology, hi: int, bm: Map<u64, u64>, n: NodeId) -> bool {
    forall|j: int|
        0 <= j < t.spec_neighbors(n).len() ==> closed_edge(
            t,
            hi,
            bm,
            t.spec_key(n),
            #[trigger] t.spec_neighbors(n)[j],
        )
}

/// Every discovered node is open in the frontier at its best cost, or all
/// its edges are accounted for.
spec fn frontier_covers(t: Topology, hi: int, bm: Map<u64, u64>, es: Seq<Entry>) -> bool {
    forall|n: NodeId|
        t.spec_has_node(n) && bm.contains_key(#[trigger] t.spec_key(n)) ==> open_at(
            es,
            bm,
            t.spec_key(n),
        ) || closed_at(t, hi, bm, n)
}

/// An open witness survives the removal of an entry that sits above its
/// key's best cost.
proof fn lemma_open_after_remove(es: Seq<Entry>, bm: Map<u64, u64>, i: int, k: u64)
    requires
        0 <= i < es.len(),
        open_at(es, bm, k),
        es[i].key == k ==> es[i].g != bm[k],
    ensures
        open_at(es.remove(i), bm, k),
{
    let j = choose|j: int| 0 <= j < es.len() && (#[trigger] es[j]).key == k && es[j].g == bm[k];
    if j < i {
        assert(es.remove(i)[j] == es[j]);
    } else {
        assert(j > i);
        assert(es.remove(i)[j - 1] == es[j]);
    }
}

/// Removing one entry keeps every key covered except possibly the
/// removed entry's own; if the removed entry sat above its key's best
/// cost, that key stays covered too.
proof fn lemma_covers_after_pop(
    t: Topology,
    hi: int,
    bm: Map<u64, u64>,
    es0: Seq<Entry>,
    ip: int,
)
    requires
        frontier_covers(t, hi, bm, es0),
        0 <= ip < es0.len(),
    ensures
        forall|n: NodeId|
            t.spec_has_node(n) && bm.contains_key(#[trigger] t.spec_key(n)) && t.spec_key(n)
                != es0[ip].key ==> open_at(es0.remove(ip), bm, t.spec_key(n)) || closed_at(
                t,
                hi,
                bm,
                n,
            ),
        es0[ip].g != bm[es0[ip].key] ==> frontier_covers(t, hi, bm, es0.remove(ip)),
{
    assert forall|n: NodeId|
        t.spec_has_node(n) && bm.contains_key(#[trigger] t.spec_key(n)) && (t.spec_key(n)
            != es0[ip].key || es0[ip].g != bm[es0[ip].key]) implies open_at(
        es0.remove(ip),
        bm,
        t.spec_key(n),
    ) || closed_at(t, hi, bm, n) by {
        let k = t.spec_key(n);
        if open_at(es0, bm, k) {
            lemma_open_after_remove(es0, bm, ip, k);
        }
    }
}

/// Removing one entry keeps every remaining entry well-formed.
proof fn lemma_frontier_ok_remove(
    t: Topology,
    heur: Heuristic,
    goal: NodeId,
    bm: Map<u64, u64>,
    es0: Seq<Entry>,
    ip: int,
)
    requires
        frontier_ok(t, heur, goal, bm, es0),
        0 <= ip < es0.len(),
    ensures
        frontier_ok(t, heur, goal, bm, es0.remove(ip)),
{
    assert forall|x: int| 0 <= x < es0.remove(ip).len() implies entry_ok(
        t,
        heur,
        goal,
        bm,
        #[trigger] es0.remove(ip)[x],
    ) by {
        if x < ip {
            assert(es0.remove(ip)[x] == es0[x]);
        } else {
            assert(es0.remove(ip)[x] == es0[x + 1]);
        }
    }
}

/// Once the expanded node's edges are all accounted for, the whole state
/// is covered again.
proof fn lemma_covers_closed(
    t: Topology,
    hi: int,
    bm: Map<u64, u64>,
    es: Seq<Entry>,
    u: NodeId,
)
    requires
        t.wf(),
        t.spec_has_node(u),
        closed_at(t, hi, bm, u),
        forall|n: NodeId|
            t.spec_has_node(n) && bm.contains_key(#[trigger] t.spec_key(n)) && t.spec_key(n)
                != t.spec_key(u) ==> open_at(es, bm, t.spec_key(n)) || closed_at(t, hi, bm, n),
    ensures
        frontier_covers(t, hi, bm, es),
{
    assert forall|n: NodeId|
        t.spec_has_node(n) && bm.contains_key(#[trigger] t.spec_key(n)) implies open_at(
        es,
        bm,
        t.spec_key(n),
    ) || closed_at(t, hi, bm, n) by {
        if t.spec_key(n) == t.spec_key(u) {
            lemma_key_injective(t, n, u);
        }
    }
}

/// Along any path to the goal whose worst-case cost stays representable,
/// either some frontier entry's ordering key is within that worst-case
/// cost, or the goal's recorded cost already is.
proof fn lemma_path_bound(
    t: Topology,
    heur: Heuristic,
    goal: NodeId,
    hi: int,
    bm: Map<u64, u64>,
    es: Seq<Entry>,
    n: NodeId,
    p: Seq<NodeId>,
    ws: Seq<u64>,
    b: int,
)
    requires
        t.wf(),
        hi >= 0,
        b >= 0,
        admissible(t, heur, goal, hi),
        frontier_ok(t, heur, goal, bm, es),
        frontier_covers(t, hi, bm, es),
        path_ok(t, p, ws, n, goal),
        bm.contains_key(t.spec_key(n)),
        bm[t.spec_key(n)] <= b,
        b + hi * wsum(ws) <= u64::MAX,
    ensures
        (exists|i: int|
            0 <= i < es.len() && (#[trigger] es[i]).f_spec() <= b + hi * wsum(ws)) || (
        bm.contains_key(t.spec_key(goal)) && bm[t.spec_key(goal)] <= b + hi * wsum(ws)),
    decreases p.len(),
{
    let kn = t.spec_key(n);
    reveal(admissible);
    lemma_wsum_nonneg(ws);
    lemma_mul_nonnegative(hi, wsum(ws));
    if open_at(es, bm, kn) {
        let i = choose|i: int|
            0 <= i < es.len() && (#[trigger] es[i]).key == kn && es[i].g == bm[kn];
        lemma_key_injective(t, es[i].node, n);
        assert(heur.spec_estimate(n, goal) <= hi * wsum(ws));
        assert(es[i].f_spec() <= es[i].g + es[i].h);
        assert(es[i].f_spec() <= b + hi * wsum(ws));
    } else {
        assert(closed_at(t, hi, bm, n));
        if p.len() == 1 {
            assert(n == goal);
        } else {
            let w0 = ws[0];
            let nxt = p[1];
            assert(edge_in(t, n, nxt, w0));
            let ns = t.spec_neighbors(n);
            assert(ns.contains((nxt, w0)));
            let j = choose|j: int| 0 <= j < ns.len() && #[trigger] ns[j] == (nxt, w0);
            assert(closed_edge(t, hi, bm, kn, ns[j]));
            let p2 = p.drop_first();
            let ws2 = ws.drop_first();
            lemma_wsum_nonneg(ws2);
            lemma_mul_nonnegative(hi, wsum(ws2));
            lemma_mul_nonnegative(hi, w0 as int);
            assert(wsum(ws) == w0 + wsum(ws2));
            lemma_mul_is_distributive_add(hi, w0 as int, wsum(ws2));
            assert(hi * wsum(ws) == hi * w0 + hi * wsum(ws2));
            assert(t.spec_has_node(nxt));
            assert(bm[kn] + hi * w0 <= u64::MAX);
            assert(bm.contains_key(t.spec_key(nxt)) && bm[t.spec_key(nxt)] <= bm[kn] + hi * w0);
            assert(path_ok(t, p2, ws2, nxt, goal)) by {
                assert(forall|x: int| 0 <= x < p2.len() ==> #[trigger] p2[x] == p[x + 1]);
                assert(forall|x: int| 0 <= x < ws2.len() ==> #[trigger] ws2[x] == ws[x + 1]);
            }
            lemma_path_bound(t, heur, goal, hi, bm, es, nxt, p2, ws2, b + hi * w0);
        }
    }
}

/// Relaxing an improved neighbor cost preserves the state invariant.
proof fn lemma_relax(
    t: Topology,
    start: NodeId,
    lo: int,
    hi: int,
    bm: Map<u64, u64>,
    pm: Map<u64, PredEntry>,
    sm: Map<u64, int>,
    ctr: int,
    wm: Map<u64, WitPath>,
    u: NodeId,
    ku: u64,
    gu: u64,
    v: NodeId,
    w: u64,
    cost: u64,
    tentative: u64,
)
    requires
        t.wf(),
        0 <= lo <= hi,
        state_inv(t, start, lo, hi, bm, pm, sm, ctr, wm),
        t.spec_has_node(u),
        t.spec_key(u) == ku,
        bm.contains_key(ku),
        bm[ku] == gu,
        t.spec_has_node(v),
        edge_in(t, u, v, w),
        lo * w <= cost as int,
        cost as int <= hi * w,
        tentative == gu + cost,
        bm.contains_key(t.spec_key(v)) ==> (tentative as int) < bm[t.spec_key(v)],
    ensures
        t.spec_key(v) != t.spec_key(start),
        t.spec_key(v) != ku,
        v != start,
        state_inv(
            t,
            start,
            lo,
            hi,
            bm.insert(t.spec_key(v), tentative),
            pm.insert(t.spec_key(v), (PredEntry { node: v, prev: u, w })),
            sm.insert(t.spec_key(v), ctr),
            ctr + 1,
            wm.insert(
                t.spec_key(v),
                (WitPath { node: v, path: wm[ku].path.push(v), ws: wm[ku].ws.push(w) }),
            ),
        ),
{
    let ks = t.spec_key(start);
    let kv = t.spec_key(v);
    lemma_mul_nonnegative(lo, w as int);
    // The start is never improved: its cost is already zero.
    assert(kv != ks);
    assert(v != start) by {
        if v == start {
            assert(kv == ks);
        }
    }
    // A node is never improved from itself.
    assert(kv != ku);

    let bm2 = bm.insert(kv, tentative);
    let pm2 = pm.insert(kv, (PredEntry { node: v, prev: u, w }));
    let sm2 = sm.insert(kv, ctr);
    let wm2 = wm.insert(
        kv,
        (WitPath { node: v, path: wm[ku].path.push(v), ws: wm[ku].ws.push(w) }),
    );

    // The new witness extends the witness of `u` by the edge used.
    let wpu = wm[ku];
    lemma_key_injective(t, wpu.node, u);
    let wpv = wm2[kv];
    assert(wpv.path =~= wpu.path.push(v));
    lemma_wsum_push(wpu.ws, w);
    lemma_mul_is_distributive_add(lo, wsum(wpu.ws), w as int);
    lemma_mul_is_distributive_add(hi, wsum(wpu.ws), w as int);
    assert(path_ok(t, wpv.path, wpv.ws, start, v)) by {
        assert(wpv.path[wpv.path.len() - 1] == v);
        assert(forall|i: int|
            0 <= i < wpu.path.len() ==> #[trigger] wpv.path[i] == wpu.path[i]);
        assert(forall|i: int| 0 <= i < wpu.ws.len() ==> #[trigger] wpv.ws[i] == wpu.ws[i]);
        assert(wpv.path[wpu.ws.len() as int] == wpu.path[wpu.path.len() - 1]);
        assert(edge_in(t, wpv.path[wpv.ws.len() - 1], wpv.path[wpv.ws.len() as int], wpv.ws[wpv.ws.len() - 1]));
    }
    assert(wit_ok(t, start, lo, hi, kv, wm2[kv], bm2[kv]));

    // Witnesses of other keys are untouched and their costs unchanged.
    assert(forall|k: u64| #[trigger]
        bm2.contains_key(k) ==> wm2.contains_key(k) && wit_ok(t, start, lo, hi, k, wm2[k], bm2[k]));

    // Predecessor entries: the new one records the edge just used.
    assert(pred_ok(t, start, lo, bm2, pm2, sm2, kv)) by {
        assert(bm2[ku] == gu);
        assert(bm2[ku] + lo * w <= tentative);
    }
    // Old entries survive: costs only decreased at kv, and any tie that
    // involves kv is impossible because kv strictly improved.
    assert(forall|k: u64| #[trigger]
        pm2.contains_key(k) && k != kv ==> pred_ok(t, start, lo, bm2, pm2, sm2, k)) by {
        assert forall|k: u64| #[trigger] pm2.contains_key(k) && k != kv implies pred_ok(
            t,
            start,
            lo,
            bm2,
            pm2,
            sm2,
            k,
        ) by {
            let pe = pm[k];
            let kp = t.spec_key(pe.prev);
            assert(pred_ok(t, start, lo, bm, pm, sm, k));
            lemma_mul_nonnegative(lo, pe.w as int);
            if kp == kv {
                assert(bm2[kp] < bm[kp]);
                assert(bm2[k] == bm[k]);
            }
        }
    }
    assert(state_inv(t, start, lo, hi, bm2, pm2, sm2, ctr + 1, wm2));
}

/// Walks the predecessor map back from the goal and reverses the
/// collected nodes into the forward path; the returned cost is the
/// goal's recorded best cost.
#[verifier::rlimit(100)]
fn reconstruct(
    topo: &Topology,
    best: &HashMap<u64, u64>,
    pred: &HashMap<u64, PredEntry>,
    Ghost(lo): Ghost<int>,
    Ghost(hi): Ghost<int>,
    Ghost(sm): Ghost<Map<u64, int>>,
    Ghost(ctr): Ghost<int>,
    Ghost(wm): Ghost<Map<u64, WitPath>>,
    start: NodeId,
    goal: NodeId,
    ekey: u64,
) -> (out: SearchOutcome)
    requires
        topo.wf(),
        0 <= lo <= hi,
        state_inv(*topo, start, lo, hi, best@, pred@, sm, ctr, wm),
        topo.spec_has_node(goal),
        topo.spec_key(goal) == ekey,
        best@.contains_key(ekey),
    ensures
        out.cost == best@[ekey],
        cost_reached(*topo, start, goal, lo, out.path@, out.cost as int),
        cost_bracketed(*topo, start, goal, lo, hi, out.cost as int),
        start == goal ==> out.path@ =~= seq![start] && out.cost == 0,
        forall|i: int, j: int|
            0 <= i < j < out.path@.len() ==> out.path@[i] != out.path@[j],
{
    let ghost ks: u64 = topo.spec_key(start);
    // Reconstruct the path by walking the predecessor map back to
    // the start, then reversing.
    let cost = match best.get(&ekey) {
        Some(b) => *b,
        None => {
            proof {
                assert(false);
            }
            0
        },
    };
    let mut rev_path: Vec<NodeId> = Vec::new();
    let mut rev_ws: Vec<u64> = Vec::new();
    rev_path.push(goal);
    let mut curr: NodeId = goal;
    let mut curr_key: u64 = ekey;
    let mut done = false;
    while !done
        invariant
            topo.wf(),
            topo.spec_has_node(start),
            ks == topo.spec_key(start),
            0 <= lo <= hi,
            state_inv(*topo, start, lo, hi, best@, pred@, sm, ctr, wm),
            topo.spec_has_node(curr),
            curr_key == topo.spec_key(curr),
            best@.contains_key(curr_key),
            rev_path@.len() >= 1,
            rev_path@[0] == goal,
            rev_path@[rev_path@.len() - 1] == curr,
            rev_ws@.len() + 1 == rev_path@.len(),
            forall|i: int|
                0 <= i < rev_path@.len() ==> topo.spec_has_node(#[trigger] rev_path@[i]),
            forall|i: int|
                0 <= i < rev_ws@.len() ==> edge_in(
                    *topo,
                    rev_path@[i + 1],
                    rev_path@[i],
                    #[trigger] rev_ws@[i],
                ),
            lo * wsum(rev_ws@) + best@[curr_key] <= cost as int,
            forall|i: int, j: int|
                0 <= i < j < rev_path@.len() ==> walk_lt(
                    best@,
                    pred@,
                    sm,
                    topo.spec_key(#[trigger] rev_path@[i]),
                    topo.spec_key(#[trigger] rev_path@[j]),
                ),
            done ==> curr == start,
            start == goal ==> rev_path@.len() == 1 && curr == start && cost == 0,
        decreases
            best@[curr_key],
            (if pred@.contains_key(curr_key) {
                sm[curr_key] + 1
            } else {
                0
            }),
            (if done {
                0int
            } else {
                1
            }),
    {
        let looked = pred.get(&curr_key);
        match looked {
            Some(pe_ref) => {
                let pe = *pe_ref;
                proof {
                    assert(pred@.contains_key(curr_key));
                    assert(pred_ok(*topo, start, lo, best@, pred@, sm, curr_key));
                    lemma_key_injective(*topo, pe.node, curr);
                    lemma_wsum_push(rev_ws@, pe.w);
                    lemma_mul_is_distributive_add(lo, wsum(rev_ws@), pe.w as int);
                    lemma_mul_nonnegative(lo, pe.w as int);
                    let kp = topo.spec_key(pe.prev);
                    assert(walk_lt(best@, pred@, sm, curr_key, kp));
                    assert forall|i: int| 0 <= i < rev_path@.len() - 1 implies walk_lt(
                        best@,
                        pred@,
                        sm,
                        topo.spec_key(rev_path@[i]),
                        kp,
                    ) by {
                        assert(walk_lt(
                            best@,
                            pred@,
                            sm,
                            topo.spec_key(rev_path@[i]),
                            topo.spec_key(rev_path@[rev_path@.len() - 1]),
                        ));
                    }
                }
                rev_path.push(pe.prev);
                rev_ws.push(pe.w);
                curr = pe.prev;
                let nk = topo.key(&curr);
                curr_key = nk;
            },
            None => {
                proof {
                    assert(!pred@.contains_key(curr_key));
                    assert(curr_key == ks);
                    lemma_key_injective(*topo, curr, start);
                }
                done = true;
            },
        }
    }
    // Reverse into the forward path.
    let mut path: Vec<NodeId> = Vec::new();
    let mut i: usize = rev_path.len();
    while i > 0
        invariant
            i <= rev_path@.len(),
            path@.len() + i == rev_path@.len(),
            forall|j: int|
                0 <= j < path@.len() ==> #[trigger] path@[j] == rev_path@[rev_path@.len()
                    - 1 - j],
        decreases i,
    {
        i = i - 1;
        path.push(rev_path[i]);
    }
    let mut ws: Vec<u64> = Vec::new();
    let mut i2: usize = rev_ws.len();
    while i2 > 0
        invariant
            i2 <= rev_ws@.len(),
            ws@.len() + i2 == rev_ws@.len(),
            forall|j: int|
                0 <= j < ws@.len() ==> #[trigger] ws@[j] == rev_ws@[rev_ws@.len() - 1 - j],
        decreases i2,
    {
        i2 = i2 - 1;
        ws.push(rev_ws[i2]);
    }
    proof {
        lemma_wsum_mirror(rev_ws@, ws@);
        let n = rev_path@.len() as int;
        assert(path@.len() == n);
        assert(path@[0] == rev_path@[n - 1]);
        assert(path@[n - 1] == rev_path@[0]);
        assert(path_ok(*topo, path@, ws@, start, goal)) by {
            assert(forall|i: int|
                0 <= i < n ==> topo.spec_has_node(#[trigger] path@[i]));
            assert forall|i: int| 0 <= i < ws@.len() implies edge_in(
                *topo,
                path@[i],
                path@[i + 1],
                #[trigger] ws@[i],
            ) by {
                assert(path@[i] == rev_path@[n - 1 - i]);
                assert(path@[i + 1] == rev_path@[n - 2 - i]);
                assert(ws@[i] == rev_ws@[n - 2 - i]);
                assert(edge_in(
                    *topo,
                    rev_path@[(n - 2 - i) + 1],
                    rev_path@[n - 2 - i],
                    rev_ws@[n - 2 - i],
                ));
            }
        }
        assert(lo * wsum(ws@) <= cost as int);
        // Witness path of the goal entry for the bracketing claim.
        let wpg = wm[ekey];
        lemma_key_injective(*topo, wpg.node, goal);
        assert(path_ok(*topo, wpg.path, wpg.ws, start, goal));
        assert(lo * wsum(wpg.ws) <= cost as int <= hi * wsum(wpg.ws));
        if start == goal {
            assert(cost == 0);
            assert(path@ =~= seq![start]);
        }
        assert(exists|p2: Seq<NodeId>, ws2: Seq<u64>|
            path_ok(*topo, p2, ws2, start, goal) && lo * wsum(ws2) <= cost as int <= hi
                * wsum(ws2));
        // The walk measure strictly decreases along the collected nodes,
        // so none repeats, and reversal keeps them distinct.
        assert forall|a: int, b: int| 0 <= a < b < rev_path@.len() implies rev_path@[a]
            != rev_path@[b] by {
            if rev_path@[a] == rev_path@[b] {
                assert(walk_lt(
                    best@,
                    pred@,
                    sm,
                    topo.spec_key(rev_path@[a]),
                    topo.spec_key(rev_path@[b]),
                ));
            }
        }
        assert forall|a: int, b: int| 0 <= a < b < path@.len() implies path@[a] != path@[b] by {
            assert(path@[a] == rev_path@[n - 1 - a]);
            assert(path@[b] == rev_path@[n - 1 - b]);
        }
    }
    let out = SearchOutcome { path, cost };
    proof {
        reveal(cost_reached);
        reveal(cost_bracketed);
        assert(path_ok(*topo, out.path@, ws@, start, goal));
        assert(cost_reached(*topo, start, goal, lo, out.path@, out.cost as int));
        assert(cost_bracketed(*topo, start, goal, lo, hi, out.cost as int));
    }
    out
}

/// Expands one settled entry: re-queries the cost model per edge and
/// relaxes every improved neighbor, restoring the search invariants.
#[verifier::rlimit(100)]
#[verifier::spinoff_prover]
fn expand(
    topo: &Topology,
    model: &mut CostModel,
    heur: &Heuristic,
    goal: NodeId,
    e: Entry,
    best: &mut HashMap<u64, u64>,
    pred: &mut HashMap<u64, PredEntry>,
    frontier: &mut Frontier,
    Ghost(start): Ghost<NodeId>,
    Ghost(lo): Ghost<int>,
    Ghost(hi): Ghost<int>,
    Ghost(sm0): Ghost<Map<u64, int>>,
    Ghost(ctr0): Ghost<int>,
    Ghost(wm0): Ghost<Map<u64, WitPath>>,
) -> (g2: Ghost<(Map<u64, int>, int, Map<u64, WitPath>)>)
    requires
        topo.wf(),
        topo.spec_has_node(start),
        topo.spec_has_node(goal),
        start != goal,
        old(model).wf(),
        old(model).lo_spec() == lo,
        old(model).hi_spec() == hi,
        0 <= lo <= hi,
        state_inv(*topo, start, lo, hi, old(best)@, old(pred)@, sm0, ctr0, wm0),
        frontier_ok(*topo, *heur, goal, old(best)@, old(frontier)@),
        forall|n: NodeId|
            topo.spec_has_node(n) && old(best)@.contains_key(#[trigger] topo.spec_key(n))
                && topo.spec_key(n) != e.key ==> open_at(
                old(frontier)@,
                old(best)@,
                topo.spec_key(n),
            ) || closed_at(*topo, hi, old(best)@, n),
        topo.spec_has_node(e.node),
        topo.spec_key(e.node) == e.key,
        old(best)@.contains_key(e.key),
        old(best)@[e.key] == e.g,
    ensures
        final(model).wf(),
        final(model).lo_spec() == lo,
        final(model).hi_spec() == hi,
        state_inv(*topo, start, lo, hi, final(best)@, final(pred)@, g2@.0, g2@.1, g2@.2),
        frontier_ok(*topo, *heur, goal, final(best)@, final(frontier)@),
        frontier_covers(*topo, hi, final(best)@, final(frontier)@),
{
    let ghost mut sm: Map<u64, int> = sm0;
    let ghost mut ctr: int = ctr0;
    let ghost mut wm: Map<u64, WitPath> = wm0;
    let ghost ks: u64 = topo.spec_key(start);
    let nbrs = topo.neighbors(&e.node);
    let mut idx: usize = 0;
    while idx < nbrs.len()
        invariant
            topo.wf(),
            topo.spec_has_node(start),
            topo.spec_has_node(goal),
            start != goal,
            model.wf(),
            model.lo_spec() == lo,
            model.hi_spec() == hi,
            0 <= lo <= hi,
            ks == topo.spec_key(start),
            state_inv(*topo, start, lo, hi, best@, pred@, sm, ctr, wm),
            frontier_ok(*topo, *heur, goal, best@, frontier@),
            forall|n: NodeId|
                topo.spec_has_node(n) && best@.contains_key(#[trigger] topo.spec_key(n))
                    && topo.spec_key(n) != e.key ==> open_at(
                    frontier@,
                    best@,
                    topo.spec_key(n),
                ) || closed_at(*topo, hi, best@, n),
            forall|j: int|
                0 <= j < idx ==> closed_edge(*topo, hi, best@, e.key, #[trigger] nbrs@[j]),
            idx <= nbrs@.len(),
            nbrs@ == topo.spec_neighbors(e.node),
            topo.spec_has_node(e.node),
            topo.spec_key(e.node) == e.key,
            best@.contains_key(e.key),
            best@[e.key] == e.g,
        decreases nbrs@.len() - idx,
    {
        let ghost bm_it = best@;
        let ghost es_it = frontier@;
        let pair = nbrs[idx];
        let v = pair.0;
        let w = pair.1;
        proof {
            assert(edge_in(*topo, e.node, v, w));
        }
        if topo.has_node(&v) {
            match model.edge_cost(w) {
                Some(cost) => {
                    if e.g <= u64::MAX - cost {
                        let tentative = e.g + cost;
                        let kv = topo.key(&v);
                        let improved = match best.get(&kv) {
                            Some(c) => tentative < *c,
                            None => true,
                        };
                        if improved {
                            proof {
                                lemma_relax(
                                    *topo,
                                    start,
                                    lo,
                                    hi,
                                    best@,
                                    pred@,
                                    sm,
                                    ctr,
                                    wm,
                                    e.node,
                                    e.key,
                                    e.g,
                                    v,
                                    w,
                                    cost,
                                    tentative,
                                );
                            }
                            best.insert(kv, tentative);
                            pred.insert(kv, PredEntry { node: v, prev: e.node, w });
                            proof {
                                sm = sm.insert(kv, ctr);
                                wm = wm.insert(
                                    kv,
                                    (WitPath {
                                        node: v,
                                        path: wm[e.key].path.push(v),
                                        ws: wm[e.key].ws.push(w),
                                    }),
                                );
                                ctr = ctr + 1;
                            }
                            let hv = heur.estimate(&v, &goal);
                            frontier.push(Entry { node: v, key: kv, g: tentative, h: hv });
                            proof {
                                let kvs = topo.spec_key(v);
                                assert(best@ == bm_it.insert(kvs, tentative));
                                assert(frontier@ == es_it.push(
                                    (Entry { node: v, key: kv, g: tentative, h: hv }),
                                ));
                                assert(frontier@[frontier@.len() - 1].key == kvs);
                                assert forall|x: int| 0 <= x < frontier@.len() implies
                                    entry_ok(
                                    *topo,
                                    *heur,
                                    goal,
                                    best@,
                                    #[trigger] frontier@[x],
                                ) by {
                                    if x < es_it.len() {
                                        assert(frontier@[x] == es_it[x]);
                                        assert(entry_ok(
                                            *topo,
                                            *heur,
                                            goal,
                                            bm_it,
                                            es_it[x],
                                        ));
                                    }
                                }
                                assert forall|n: NodeId|
                                    topo.spec_has_node(n) && best@.contains_key(
                                        #[trigger] topo.spec_key(n),
                                    ) && topo.spec_key(n) != e.key implies open_at(
                                    frontier@,
                                    best@,
                                    topo.spec_key(n),
                                ) || closed_at(*topo, hi, best@, n) by {
                                    let k = topo.spec_key(n);
                                    if k == kvs {
                                        assert(frontier@[frontier@.len() - 1].g == best@[k]);
                                        assert(open_at(frontier@, best@, k));
                                    } else if bm_it.contains_key(k) {
                                        if open_at(es_it, bm_it, k) {
                                            let x = choose|x: int|
                                                0 <= x < es_it.len() && (#[trigger] es_it[x]).key
                                                    == k && es_it[x].g == bm_it[k];
                                            assert(frontier@[x] == es_it[x]);
                                            assert(open_at(frontier@, best@, k));
                                        } else {
                                            assert(closed_at(*topo, hi, bm_it, n));
                                            assert forall|j2: int|
                                                0 <= j2 < topo.spec_neighbors(n).len() implies
                                                closed_edge(
                                                *topo,
                                                hi,
                                                best@,
                                                k,
                                                #[trigger] topo.spec_neighbors(n)[j2],
                                            ) by {
                                                assert(closed_edge(
                                                    *topo,
                                                    hi,
                                                    bm_it,
                                                    k,
                                                    topo.spec_neighbors(n)[j2],
                                                ));
                                            }
                                        }
                                    }
                                }
                                assert forall|j: int| 0 <= j < idx + 1 implies closed_edge(
                                    *topo,
                                    hi,
                                    best@,
                                    e.key,
                                    #[trigger] nbrs@[j],
                                ) by {
                                    if j < idx {
                                        assert(closed_edge(*topo, hi, bm_it, e.key, nbrs@[j]));
                                    } else {
                                        assert(nbrs@[j] == (v, w));
                                        assert(best@[kvs] == tentative);
                                        assert(tentative <= best@[e.key] + hi * w);
                                    }
                                }
                            }
                        }
                    }
                },
                None => {},
            }
        }
        idx = idx + 1;
    }
    proof {
        assert(closed_at(*topo, hi, best@, e.node));
        lemma_covers_closed(*topo, hi, best@, frontier@, e.node);
    }
    Ghost((sm, ctr, wm))
}

/// Finds a minimum-cost path from `start` to `goal` in `topo`, expanding
/// nodes in ascending order of accumulated realized cost plus heuristic
/// estimate, with strict cost relaxation.
///
/// On success the returned path is a contiguous path of `topo` from
/// `start` to `goal`, the returned cost is at least the least realizable
/// cost of that path, and some real path brackets the returned cost
/// between its least and greatest realizable cost; under a deterministic
/// model the two bounds coincide, so the cost is exactly [`crate::cost::SCALE`]
/// times that path's base weight. When `start == goal` the result is the
/// single-node path at cost zero.
#[verifier::rlimit(100)]
#[verifier::spinoff_prover]
pub fn search(
    topo: &Topology,
    model: &mut CostModel,
    heur: &Heuristic,
    start: NodeId,
    goal: NodeId,
) -> (r: Result<Option<SearchOutcome>, SearchError>)
    requires
        topo.wf(),
        old(model).wf(),
    ensures
        final(model).wf(),
        final(model).lo_spec() == old(model).lo_spec(),
        final(model).hi_spec() == old(model).hi_spec(),
        (r matches Err(SearchError::StartMissing)) <==> !topo.spec_has_node(start),
        (r matches Err(SearchError::GoalMissing)) <==> (topo.spec_has_node(start)
            && !topo.spec_has_node(goal)),
        (r is Ok) <==> (topo.spec_has_node(start) && topo.spec_has_node(goal)),
        (match r {
            Ok(Some(out)) => cost_reached(
                *topo,
                start,
                goal,
                old(model).lo_spec(),
                out.path@,
                out.cost as int,
            ),
            _ => true,
        }),
        (match r {
            Ok(Some(out)) => cost_bracketed(
                *topo,
                start,
                goal,
                old(model).lo_spec(),
                old(model).hi_spec(),
                out.cost as int,
            ),
            _ => true,
        }),
        (match r {
            Ok(Some(out)) => forall|i: int, j: int|
                0 <= i < j < out.path@.len() ==> out.path@[i] != out.path@[j],
            _ => true,
        }),
        (match r {
            Ok(Some(out)) => admissible(*topo, *heur, goal, old(model).hi_spec())
                ==> cost_minimal(*topo, start, goal, old(model).hi_spec(), out.cost as int),
            _ => true,
        }),
        (topo.spec_has_node(start) && start == goal) ==> (match r {
            Ok(Some(out)) => out.path@ =~= seq![start] && out.cost == 0,
            _ => false,
        }),
        (r matches Ok(None)) ==> start != goal,
{
    if !topo.has_node(&start) {
        return Err(SearchError::StartMissing);
    }
    if !topo.has_node(&goal) {
        return Err(SearchError::GoalMissing);
    }

    let ghost lo: int = model.lo_spec();
    let ghost hi: int = model.hi_spec();
    proof {
        lemma_model_bounds(*model);
    }

    let ks = topo.key(&start);
    let mut best: HashMap<u64, u64> = HashMap::new();
    let mut pred: HashMap<u64, PredEntry> = HashMap::new();
    let ghost mut sm: Map<u64, int> = Map::empty();
    let ghost mut ctr: int = 0;
    let ghost mut wm: Map<u64, WitPath> = Map::empty();
    let mut frontier = Frontier::new();

    best.insert(ks, 0);
    proof {
        wm = wm.insert(ks, (WitPath { node: start, path: seq![start], ws: Seq::empty() }));
        assert(wit_ok(*topo, start, lo, hi, ks, wm[ks], 0u64)) by {
            assert(path_ok(*topo, seq![start], Seq::empty(), start, start));
        }
    }
    let h0 = heur.estimate(&start, &goal);
    frontier.push(Entry { node: start, key: ks, g: 0, h: h0 });
    proof {
        assert(frontier@[0].key == ks && frontier@[0].g == best@[ks]);
        assert(open_at(frontier@, best@, ks));
    }

    // The step counter gives the loop its termination measure; a run of
    // 2^64 - 1 expansions is unreachable in practice.
    let mut steps: u64 = 0;

    while steps < u64::MAX && !frontier.is_empty()
        invariant
            topo.wf(),
            topo.spec_has_node(start),
            topo.spec_has_node(goal),
            model.wf(),
            model.lo_spec() == lo,
            model.hi_spec() == hi,
            lo == old(model).lo_spec(),
            hi == old(model).hi_spec(),
            0 <= lo <= hi,
            ks == topo.spec_key(start),
            state_inv(*topo, start, lo, hi, best@, pred@, sm, ctr, wm),
            frontier_ok(*topo, *heur, goal, best@, frontier@),
            frontier_covers(*topo, hi, best@, frontier@),
            start == goal ==> steps == 0 && frontier@.len() >= 1 && (forall|i: int|
                0 <= i < frontier@.len() ==> (#[trigger] frontier@[i]).node == start),
        decreases u64::MAX - steps,
    {
        steps = steps + 1;
        let ghost es0 = frontier@;
        let popped = frontier.pop_min();
        let e = match popped {
            Some(e) => e,
            None => {
                proof {
                    assert(false);
                }
                return Ok(None);
            },
        };
        let ghost ip = choose|i: int|
            {
                &&& 0 <= i < es0.len()
                &&& e == es0[i]
                &&& frontier@ == es0.remove(i)
                &&& forall|j: int|
                    0 <= j < es0.len() ==> (#[trigger] es0[j]).f_spec() >= e.f_spec()
            };
        proof {
            assert(0 <= ip < es0.len() && e == es0[ip] && frontier@ == es0.remove(ip) && (forall|
                j: int,
            | 0 <= j < es0.len() ==> (#[trigger] es0[j]).f_spec() >= e.f_spec()));
        }
        if e.node == goal {
            proof {
                // The popped goal entry has the least ordering key of the
                // pre-pop frontier, so every remaining route is at least
                // as costly in the worst case.
                if admissible(*topo, *heur, goal, hi) {
                    assert(entry_ok(*topo, *heur, goal, best@, es0[ip]));
                    lemma_goal_pop_minimal(*topo, *heur, start, goal, hi, best@, es0, e);
                }
            }
            let out = reconstruct(
                topo,
                &best,
                &pred,
                Ghost(lo),
                Ghost(hi),
                Ghost(sm),
                Ghost(ctr),
                Ghost(wm),
                start,
                goal,
                e.key,
            );
            proof {
                assert(out.cost == best@[topo.spec_key(goal)]);
            }
            return Ok(Some(out));
        }
        // Lazy deletion: a popped entry that is worse than the recorded
        // best cost of its node is discarded without expansion.
        let b_e = match best.get(&e.key) {
            Some(b) => *b,
            None => {
                proof {
                    assert(false);
                }
                0
            },
        };
        if e.g > b_e {
            proof {
                lemma_frontier_ok_remove(*topo, *heur, goal, best@, es0, ip);
                lemma_covers_after_pop(*topo, hi, best@, es0, ip);
            }
            continue;
        }
        assert(e.g == best@[e.key]);
        proof {
            lemma_frontier_ok_remove(*topo, *heur, goal, best@, es0, ip);
            lemma_covers_after_pop(*topo, hi, best@, es0, ip);
        }
        let g2 = expand(
            topo,
            model,
            heur,
            goal,
            e,
            &mut best,
            &mut pred,
            &mut frontier,
            Ghost(start),
            Ghost(lo),
            Ghost(hi),
            Ghost(sm),
            Ghost(ctr),
            Ghost(wm),
        );
        proof {
            sm = g2@.0;
            ctr = g2@.1;
            wm = g2@.2;
        }
    }
    Ok(None)
}

} // verus!
