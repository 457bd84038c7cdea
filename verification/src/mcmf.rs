//! Minimum-cost maximum flow by successive shortest paths, found either by
//! a queue-based Bellman-Ford search or by Dijkstra's algorithm on costs
//! reduced by node potentials.
use vstd::prelude::*;
use crate::flow::{flows_fit, cuts_at_least, lemma_reach_cut, 
    ArcView, residual, partner, arc_ok, pairs_ok, net_out, valid_flow, cap_sum, cut_edges, caps_of,
    closed, cut_upto, lemma_net_out_le_caps, same_network, adj_ok, listed, lemma_add_pair, pushed_on,
    lemma_push, lemma_adj_push, lemma_same_network_trans, lemma_cap_sum_network, residual_reach, reach_side,
    is_max_flow, lemma_max_flow, lemma_cut_side_same,
};
use crate::pricing::{reduced_cost, feasible_prices, has_feasible_prices, least_cost, lemma_prices_least_cost,
    lemma_least_cost_unique};
use crate::priority_queue::PriorityQueue;
use vstd::multiset::Multiset;

verus! {

/// The default value that stands for an unreachable distance.
pub const DEFAULT_INF: i64 = 2305843009213693951;

/// How shortest augmenting paths are found.
#[derive(Debug, Clone, Copy, PartialEq, Eq)]
pub enum McmfShortestPathStrategy {
    /// Queue-based Bellman-Ford on every round.
    Spfa,
    /// Bellman-Ford once for potentials, then Dijkstra on reduced costs.
    Auto,
}

/// Options for a solver.
#[derive(Debug, Clone, Copy, PartialEq, Eq)]
pub struct McmfOptions {
    /// The distance that stands for unreachable; must be positive.
    pub inf: i64,
    pub shortest_path_strategy: McmfShortestPathStrategy,
}

impl Default for McmfOptions {
    fn default() -> (r: Self)
        ensures
            r.inf == DEFAULT_INF,
            r.shortest_path_strategy == McmfShortestPathStrategy::Auto,
    {
        McmfOptions { inf: DEFAULT_INF, shortest_path_strategy: McmfShortestPathStrategy::Auto }
    }
}

/// Total cost and value of the flow found.
#[derive(Debug, Clone, Copy, PartialEq, Eq)]
pub struct McmfResult {
    pub mincost: i64,
    pub maxflow: i64,
}

/// An edge of the network with its current flow and its cost per unit.
#[derive(Debug, Clone, PartialEq, Eq)]
pub struct McmfEdge {
    pub from: usize,
    pub to: usize,
    pub cap: i64,
    pub flow: i64,
    pub cost: i64,
}

/// Why a request was refused.
#[derive(Debug, Clone, PartialEq, Eq)]
pub enum McmfError {
    InvalidInf { inf: i64 },
    InvalidNodeCount { n: usize },
    NodeOutOfRange { node: usize, n: usize },
    SourceEqualsSink { node: usize },
    NegativeCapacity { cap: i64 },
    NotInitialized,
}

/// The model of an edge without its cost.
pub open spec fn mcmf_arc(e: McmfEdge) -> ArcView {
    ArcView { from: e.from, to: e.to, cap: e.cap as int, flow: e.flow as int }
}

/// The model of a sequence of edges without their costs.
pub open spec fn mcmf_arcs(es: Seq<McmfEdge>) -> Seq<ArcView> {
    es.map_values(|e: McmfEdge| mcmf_arc(e))
}

/// The costs of a sequence of edges.
pub open spec fn mcmf_costs(es: Seq<McmfEdge>) -> Seq<int> {
    es.map_values(|e: McmfEdge| e.cost as int)
}

/// Cost of the flow over the first `m` edges, counting user edges only.
pub open spec fn flow_cost_upto(es: Seq<ArcView>, cs: Seq<int>, m: int) -> int
    decreases m,
{
    if m <= 0 {
        0
    } else {
        flow_cost_upto(es, cs, m - 1) + if (m - 1) % 2 == 0 { cs[m - 1] * es[m - 1].flow } else { 0 }
    }
}

/// Cost of the flow: the sum of cost times flow over the user edges.
pub open spec fn flow_cost(es: Seq<ArcView>, cs: Seq<int>) -> int {
    flow_cost_upto(es, cs, es.len() as int)
}

/// Each reverse edge costs the opposite of its pair.
pub open spec fn costs_paired(cs: Seq<int>) -> bool {
    forall|e: int| 0 <= e < cs.len() ==> #[trigger] cs[partner(e)] == -cs[e]
}

proof fn lemma_flow_cost_add(es: Seq<ArcView>, cs: Seq<int>, x: ArcView, y: ArcView, cx: int, cy: int)
    requires
        es.len() == cs.len(),
        es.len() % 2 == 0,
        x.flow == 0,
    ensures
        flow_cost(es.push(x).push(y), cs.push(cx).push(cy)) == flow_cost(es, cs),
{
    let es2 = es.push(x).push(y);
    let cs2 = cs.push(cx).push(cy);
    let m = es.len() as int;
    lemma_flow_cost_prefix(es, cs, es2, cs2, m);
    assert(flow_cost_upto(es2, cs2, m + 1) == flow_cost_upto(es2, cs2, m) + cs2[m] * es2[m].flow);
    assert(es2[m] == x);
    assert(cs2[m] * es2[m].flow == 0) by (nonlinear_arith)
        requires
            es2[m].flow == 0,
    ;
    assert(flow_cost_upto(es2, cs2, m + 2) == flow_cost_upto(es2, cs2, m + 1));
}

proof fn lemma_flow_cost_prefix(a: Seq<ArcView>, ca: Seq<int>, b: Seq<ArcView>, cb: Seq<int>, m: int)
    requires
        0 <= m <= a.len(),
        m <= b.len(),
        m <= ca.len(),
        m <= cb.len(),
        forall|e: int| 0 <= e < m ==> #[trigger] a[e] == b[e] && ca[e] == cb[e],
    ensures
        flow_cost_upto(a, ca, m) == flow_cost_upto(b, cb, m),
    decreases m,
{
    if m > 0 {
        lemma_flow_cost_prefix(a, ca, b, cb, m - 1);
        assert(a[m - 1] == b[m - 1]);
    }
}


/// Every valid flow on the network of `es` has a cost that fits in an `i64`.
pub open spec fn costs_fit(es: Seq<ArcView>, cs: Seq<int>, n: int, s: usize, t: usize) -> bool {
    forall|g: Seq<ArcView>| #[trigger] same_network(es, g) && valid_flow(g, n, s, t)
        ==> i64::MIN <= flow_cost(g, cs) <= i64::MAX
}

/// The edge recorded for node `v` enters it with remaining capacity from a reached node.
spec fn path_link(es: Seq<ArcView>, dist: Seq<i64>, path: Seq<usize>, inf: i64, v: int) -> bool {
    let e = path[v] as int;
    &&& 0 <= e < es.len()
    &&& es[e].to == v
    &&& residual(es, e) > 0
    &&& dist[es[e].from as int] < inf
}

/// Every reached node but the source has a recorded incoming edge.
spec fn path_ok(es: Seq<ArcView>, dist: Seq<i64>, path: Seq<usize>, n: int, s: usize, inf: i64) -> bool {
    forall|v: int| 0 <= v < n && dist[v] < inf && v != s ==> #[trigger] path_link(es, dist, path, inf, v)
}

/// Node `v` waits in `queue` at or after position `head`.
spec fn pending(queue: Seq<usize>, head: int, v: int) -> bool {
    exists|j: int| head <= j < queue.len() && queue[j] == v
}

/// The first `m` edges listed for `v` that have remaining capacity lead to
/// reached nodes.
spec fn out_closed_upto(es: Seq<ArcView>, g: Seq<Seq<usize>>, dist: Seq<i64>, inf: i64, v: int, m: int) -> bool {
    forall|k: int| 0 <= k < m && k < g[v].len() && residual(es, #[trigger] g[v][k] as int) > 0
        ==> dist[es[g[v][k] as int].to as int] < inf
}

/// Every edge listed for `v` that has remaining capacity leads to a reached node.
spec fn out_closed(es: Seq<ArcView>, g: Seq<Seq<usize>>, dist: Seq<i64>, inf: i64, v: int) -> bool {
    out_closed_upto(es, g, dist, inf, v, g[v].len() as int)
}

/// Along each of the first `m` edges listed for `v` that has remaining
/// capacity, the head's distance is at most `b` plus the edge's cost.
spec fn out_within(es: Seq<ArcView>, g: Seq<Seq<usize>>, cs: Seq<int>, dist: Seq<i64>, v: int, m: int, b: int) -> bool {
    forall|k: int| 0 <= k < m && k < g[v].len() && residual(es, #[trigger] g[v][k] as int) > 0
        ==> dist[es[g[v][k] as int].to as int] <= b + cs[g[v][k] as int]
}

/// Every reached node but the source is at least as far as the tail of its
/// recorded edge plus that edge's cost.
spec fn path_ge(es: Seq<ArcView>, cs: Seq<int>, dist: Seq<i64>, path: Seq<usize>, n: int, s: usize, inf: i64) -> bool {
    forall|v: int| 0 <= v < n && dist[v] < inf && v != s
        ==> #[trigger] dist[v] >= dist[es[path[v] as int].from as int] + cs[path[v] as int]
}

/// No edge with remaining capacity leaves a reached node for a head farther
/// than the tail plus the edge's cost.
spec fn dist_feasible(es: Seq<ArcView>, cs: Seq<int>, dist: Seq<i64>, inf: i64) -> bool {
    forall|e: int| 0 <= e < es.len() && residual(es, e) > 0 && dist[es[e].from as int] < inf
        ==> #[trigger] dist[es[e].to as int] <= dist[es[e].from as int] + cs[e]
}

proof fn lemma_out_within_mono(es: Seq<ArcView>, g: Seq<Seq<usize>>, cs: Seq<int>, n: int, d0: Seq<i64>, d1: Seq<i64>, v: int, m: int, b: int)
    requires
        adj_ok(es, g, n),
        pairs_ok(es, n),
        0 <= v < n,
        out_within(es, g, cs, d0, v, m, b),
        d0.len() == n,
        d1.len() == n,
        forall|x: int| 0 <= x < n ==> #[trigger] d1[x] <= d0[x],
    ensures
        out_within(es, g, cs, d1, v, m, b),
{
    assert forall|k: int| 0 <= k < m && k < g[v].len() && residual(es, #[trigger] g[v][k] as int) > 0
        implies d1[es[g[v][k] as int].to as int] <= b + cs[g[v][k] as int] by {
        let e = g[v][k] as int;
        assert(arc_ok(es, n, e));
        let t = es[e].to as int;
        assert(d1[t] <= d0[t]);
    }
}

/// When every reached node's listed edges obey the bound of its own distance,
/// the distances are feasible for all edges.
proof fn lemma_within_side(es: Seq<ArcView>, g: Seq<Seq<usize>>, cs: Seq<int>, dist: Seq<i64>, n: int, inf: i64)
    requires
        adj_ok(es, g, n),
        pairs_ok(es, n),
        dist.len() == n,
        forall|v: int| 0 <= v < n && dist[v] < inf ==> #[trigger] out_within(es, g, cs, dist, v, g[v].len() as int, dist[v] as int),
    ensures
        dist_feasible(es, cs, dist, inf),
{
    assert forall|e: int| 0 <= e < es.len() && residual(es, e) > 0 && dist[es[e].from as int] < inf
        implies #[trigger] dist[es[e].to as int] <= dist[es[e].from as int] + cs[e] by {
        assert(arc_ok(es, n, e));
        let f = es[e].from as int;
        assert(listed(g, f, e));
        let k = choose|k: int| 0 <= k < g[f].len() && #[trigger] g[f][k] == e;
        assert(out_within(es, g, cs, dist, f, g[f].len() as int, dist[f] as int));
        assert(g[f][k] as int == e);
    }
}

/// Every edge whose flow went down from `es0` to `es1` is the reverse of the
/// recorded edge of some reached node other than `s`.
spec fn lowered_on_path(es0: Seq<ArcView>, es1: Seq<ArcView>, dist: Seq<i64>, path: Seq<usize>, n: int, s: usize, inf: i64) -> bool {
    forall|e: int| 0 <= e < es0.len() && #[trigger] es1[e].flow < es0[e].flow ==> exists|v: int|
        0 <= v < n && v != s && dist[v] < inf && e == partner(#[trigger] path[v] as int)
}

/// Edge costs reduced by node potentials `h`.
spec fn reduced_weights(es: Seq<ArcView>, cs: Seq<int>, h: Seq<i64>) -> Seq<int> {
    Seq::new(es.len(), |e: int| cs[e] + h[es[e].from as int] - h[es[e].to as int])
}

/// A bound on the price gap needed to lift the unreached nodes above the
/// reached ones: the sum over the first `m` edges of the sizes of head
/// label, cost and tail price.
spec fn lift_bound(es: Seq<ArcView>, cs: Seq<int>, dist: Seq<i64>, h: spec_fn(usize) -> int, p: spec_fn(usize) -> int, m: int) -> int
    decreases m,
{
    if m <= 0 {
        0
    } else {
        lift_bound(es, cs, dist, h, p, m - 1) + abs_int(dist[es[m - 1].to as int] + h(es[m - 1].to)) + abs_int(cs[m - 1])
            + abs_int(p(es[m - 1].from))
    }
}

spec fn abs_int(x: int) -> int {
    if x < 0 { -x } else { x }
}

proof fn lemma_lift_bound(es: Seq<ArcView>, cs: Seq<int>, dist: Seq<i64>, h: spec_fn(usize) -> int, p: spec_fn(usize) -> int, m: int, e: int)
    requires
        0 <= e < m,
    ensures
        dist[es[e].to as int] + h(es[e].to) - cs[e] - p(es[e].from) <= lift_bound(es, cs, dist, h, p, m),
    decreases m,
{
    if e < m - 1 {
        lemma_lift_bound(es, cs, dist, h, p, m - 1, e);
    }
    lemma_lift_bound_nonneg(es, cs, dist, h, p, m - 1);
}

proof fn lemma_lift_bound_nonneg(es: Seq<ArcView>, cs: Seq<int>, dist: Seq<i64>, h: spec_fn(usize) -> int, p: spec_fn(usize) -> int, m: int)
    ensures
        lift_bound(es, cs, dist, h, p, m) >= 0,
    decreases m,
{
    if m > 0 {
        lemma_lift_bound_nonneg(es, cs, dist, h, p, m - 1);
    }
}

/// Augmenting along a path of a completed shortest-path search keeps some
/// prices feasible: the search's distances plus the potentials `h` it ran
/// with on the reached nodes, the old prices lifted by a constant on the others.
proof fn lemma_prices_after_augment(
    es1: Seq<ArcView>, es2: Seq<ArcView>, cs: Seq<int>, ws: Seq<int>, h: spec_fn(usize) -> int,
    dist: Seq<i64>, path: Seq<usize>, n: int, s: usize, inf: i64, p: spec_fn(usize) -> int,
)
    requires
        pairs_ok(es1, n),
        same_network(es1, es2),
        cs.len() == es1.len(),
        ws.len() == es1.len(),
        forall|e: int| 0 <= e < es1.len() ==> #[trigger] ws[e] == cs[e] + h(es1[e].from) - h(es1[e].to),
        costs_paired(cs),
        feasible_prices(es1, cs, p),
        dist.len() == n,
        closed(es1, finite_side(dist, n, inf)),
        dist_feasible(es1, ws, dist, inf),
        path_ge(es1, ws, dist, path, n, s, inf),
        path_ok(es1, dist, path, n, s, inf),
        lowered_on_path(es1, es2, dist, path, n, s, inf),
    ensures
        has_feasible_prices(es2, cs),
{
    let len = es1.len() as int;
    let k = lift_bound(es1, cs, dist, h, p, len);
    let fin = finite_side(dist, n, inf);
    let p2 = |v: usize| if fin(v) { dist[v as int] + h(v) } else { p(v) + k };
    assert forall|e: int| 0 <= e < es2.len() && residual(es2, e) > 0 implies #[trigger] reduced_cost(es2, cs, p2, e) >= 0 by {
        assert(es1.len() == es2.len());
        assert(es1[e].from == es2[e].from);
        assert(es1[e].cap == es2[e].cap);
        assert(arc_ok(es1, n, e));
        let u = es1[e].from;
        let w = es1[e].to;
        assert(ws[e] == cs[e] + h(u) - h(w));
        if residual(es1, e) > 0 {
            if fin(u) {
                assert(fin(w));
                assert(dist[w as int] <= dist[u as int] + ws[e]);
            } else if fin(w) {
                lemma_lift_bound(es1, cs, dist, h, p, len, e);
            } else {
                assert(reduced_cost(es1, cs, p, e) >= 0);
            }
        } else {
            assert(es2[e].flow < es1[e].flow);
            let v = choose|v: int| 0 <= v < n && v != s && dist[v] < inf && e == partner(#[trigger] path[v] as int);
            let a = path[v] as int;
            assert(path_link(es1, dist, path, inf, v));
            assert(arc_ok(es1, n, a));
            assert(partner(e) == a);
            assert(es1[e].from == es1[a].to);
            assert(es1[e].to == es1[a].from);
            assert(cs[partner(a)] == -cs[a]);
            assert(ws[a] == cs[a] + h(es1[a].from) - h(es1[a].to));
            assert(dist[v] >= dist[es1[a].from as int] + ws[a]);
            assert(dist[es1[a].to as int] <= dist[es1[a].from as int] + ws[a]);
            assert(fin(u) && fin(w));
        }
    }
    assert(feasible_prices(es2, cs, p2));
}

/// The recorded edge of reached node `v` either leaves a tail that is now
/// strictly closer than `v` less the edge's weight, or a tail reached before `v`.
spec fn pred_ok(es: Seq<ArcView>, ws: Seq<int>, dist: Seq<i64>, path: Seq<usize>, st: Seq<int>, v: int) -> bool {
    let a = path[v] as int;
    dist[v] > dist[es[a].from as int] + ws[a] || st[es[a].from as int] < st[v]
}

/// Every reached node but the source satisfies `pred_ok` under the stamps `st`.
spec fn path_ordered(es: Seq<ArcView>, ws: Seq<int>, dist: Seq<i64>, path: Seq<usize>, st: Seq<int>, n: int, s: usize, inf: i64) -> bool {
    forall|v: int| 0 <= v < n && dist[v] < inf && v != s ==> #[trigger] pred_ok(es, ws, dist, path, st, v)
}

/// Sum of `f(k)` over `i <= k < j`.
spec fn seg_sum(f: spec_fn(int) -> int, i: int, j: int) -> int
    decreases j - i,
{
    if j <= i {
        0
    } else {
        seg_sum(f, i, j - 1) + f(j - 1)
    }
}

proof fn lemma_seg_add(f: spec_fn(int) -> int, g: spec_fn(int) -> int, h: spec_fn(int) -> int, i: int, j: int)
    requires
        forall|k: int| i <= k < j ==> #[trigger] h(k) == f(k) + g(k),
    ensures
        seg_sum(h, i, j) == seg_sum(f, i, j) + seg_sum(g, i, j),
    decreases j - i,
{
    if j > i {
        lemma_seg_add(f, g, h, i, j - 1);
    }
}

proof fn lemma_seg_telescope(f: spec_fn(int) -> int, g: spec_fn(int) -> int, i: int, j: int)
    requires
        i <= j,
        forall|k: int| i <= k < j ==> #[trigger] f(k) == g(k) - g(k + 1),
    ensures
        seg_sum(f, i, j) == g(i) - g(j),
    decreases j - i,
{
    if j > i {
        lemma_seg_telescope(f, g, i, j - 1);
    }
}

proof fn lemma_seg_nonneg(f: spec_fn(int) -> int, i: int, j: int, k0: int)
    requires
        forall|k: int| i <= k < j ==> #[trigger] f(k) >= 0,
    ensures
        seg_sum(f, i, j) >= 0,
        i <= k0 < j && f(k0) > 0 ==> seg_sum(f, i, j) > 0,
    decreases j - i,
{
    if j > i {
        lemma_seg_nonneg(f, i, j - 1, k0);
    }
}

/// The node after position `k` of walk `w` has an earlier stamp.
spec fn stamp_desc(st: Seq<int>, w: Seq<usize>, k: int) -> bool {
    st[w[k + 1] as int] < st[w[k] as int]
}

proof fn lemma_stamp_chain(st: Seq<int>, w: Seq<usize>, i: int, j: int)
    requires
        i < j,
        forall|k: int| i <= k < j ==> #[trigger] stamp_desc(st, w, k),
    ensures
        st[w[j] as int] < st[w[i] as int],
    decreases j - i,
{
    assert(stamp_desc(st, w, j - 1));
    if j > i + 1 {
        lemma_stamp_chain(st, w, i, j - 1);
    }
}

/// A walk along recorded edges of reached nodes never comes back: around a cycle the
/// weights would sum below zero, while feasible prices make every cycle of
/// edges with remaining capacity cost at least zero.
proof fn lemma_no_pred_cycle(
    es: Seq<ArcView>, cs: Seq<int>, ws: Seq<int>, h: spec_fn(usize) -> int, dist: Seq<i64>, path: Seq<usize>,
    st: Seq<int>, n: int, s: usize, inf: i64, p: spec_fn(usize) -> int, w: Seq<usize>, i: int, j: int,
)
    requires
        pairs_ok(es, n),
        cs.len() == es.len(),
        ws.len() == es.len(),
        forall|e: int| 0 <= e < es.len() ==> #[trigger] ws[e] == cs[e] + h(es[e].from) - h(es[e].to),
        feasible_prices(es, cs, p),
        dist.len() == n,
        path_ok(es, dist, path, n, s, inf),
        path_ge(es, ws, dist, path, n, s, inf),
        path_ordered(es, ws, dist, path, st, n, s, inf),
        0 <= i < j < w.len(),
        forall|k: int| i <= k < j ==> #[trigger] w[k] < n && dist[w[k] as int] < inf && w[k] != s && walk_step(es, path, w, k),
    ensures
        w[i] != w[j],
{
    if w[i] == w[j] {
        lemma_pred_cycle_stamps(es, cs, ws, h, dist, path, st, n, s, inf, p, w, i, j);
    }
}

proof fn lemma_pred_cycle_stamps(
    es: Seq<ArcView>, cs: Seq<int>, ws: Seq<int>, h: spec_fn(usize) -> int, dist: Seq<i64>, path: Seq<usize>,
    st: Seq<int>, n: int, s: usize, inf: i64, p: spec_fn(usize) -> int, w: Seq<usize>, i: int, j: int,
)
    requires
        pairs_ok(es, n),
        cs.len() == es.len(),
        ws.len() == es.len(),
        forall|e: int| 0 <= e < es.len() ==> #[trigger] ws[e] == cs[e] + h(es[e].from) - h(es[e].to),
        feasible_prices(es, cs, p),
        dist.len() == n,
        path_ok(es, dist, path, n, s, inf),
        path_ge(es, ws, dist, path, n, s, inf),
        path_ordered(es, ws, dist, path, st, n, s, inf),
        0 <= i < j < w.len(),
        w[i] == w[j],
        forall|k: int| i <= k < j ==> #[trigger] w[k] < n && dist[w[k] as int] < inf && w[k] != s && walk_step(es, path, w, k),
    ensures
        st[w[j] as int] < st[w[i] as int],
{
    let a = |k: int| path[w[k] as int] as int;
    assert forall|k: int| i <= k < j implies 0 <= #[trigger] a(k) < es.len() && es[a(k)].to == w[k] && es[a(k)].from == w[k + 1]
        && residual(es, a(k)) > 0 by {
        assert(path_link(es, dist, path, inf, w[k] as int));
    }
    let fd = |k: int| dist[w[k] as int] - dist[w[k + 1] as int];
    let fw = |k: int| ws[a(k)];
    let gap = |k: int| fd(k) - fw(k);
    assert forall|k: int| i <= k < j implies #[trigger] gap(k) >= 0 by {
        assert(dist[w[k] as int] >= dist[es[a(k)].from as int] + ws[a(k)]);
    }
    let gd = |k: int| dist[w[k] as int] as int;
    assert forall|k: int| i <= k < j implies #[trigger] fd(k) == gd(k) - gd(k + 1) by {}
    lemma_seg_telescope(fd, gd, i, j);
    let negw = |k: int| -fw(k);
    assert forall|k: int| i <= k < j implies #[trigger] gap(k) == fd(k) + negw(k) by {}
    lemma_seg_add(fd, negw, gap, i, j);
    let zero = |k: int| 0int;
    assert forall|k: int| i <= k < j implies #[trigger] zero(k) == fw(k) + negw(k) by {}
    lemma_seg_add(fw, negw, zero, i, j);
    assert forall|k: int| i <= k < j implies #[trigger] zero(k) == zero(k) - zero(k + 1) by {}
    lemma_seg_telescope(zero, zero, i, j);
    assert(seg_sum(gap, i, j) == -seg_sum(fw, i, j));
    // The weights around the cycle sum to its cost.
    let fc = |k: int| cs[a(k)];
    let hd = |k: int| h(w[k + 1]) - h(w[k]);
    let gh = |k: int| -h(w[k]);
    assert forall|k: int| i <= k < j implies #[trigger] hd(k) == gh(k) - gh(k + 1) by {}
    lemma_seg_telescope(hd, gh, i, j);
    assert forall|k: int| i <= k < j implies #[trigger] fw(k) == fc(k) + hd(k) by {}
    lemma_seg_add(fc, hd, fw, i, j);
    // So do the reduced costs, which are all non-negative.
    let pd = |k: int| p(w[k + 1]) - p(w[k]);
    let gp = |k: int| -p(w[k]);
    assert forall|k: int| i <= k < j implies #[trigger] pd(k) == gp(k) - gp(k + 1) by {}
    lemma_seg_telescope(pd, gp, i, j);
    let rc = |k: int| reduced_cost(es, cs, p, a(k));
    assert forall|k: int| i <= k < j implies #[trigger] rc(k) == fc(k) + pd(k) by {}
    lemma_seg_add(fc, pd, rc, i, j);
    assert forall|k: int| i <= k < j implies #[trigger] rc(k) >= 0 by {}
    lemma_seg_nonneg(rc, i, j, i);
    // The weights sum to at least zero, so every gap is zero and the stamps
    // decrease all the way around.
    assert(seg_sum(fw, i, j) == seg_sum(fc, i, j));
    assert(seg_sum(rc, i, j) == seg_sum(fc, i, j));
    assert(seg_sum(gap, i, j) <= 0);
    assert forall|k: int| i <= k < j implies #[trigger] stamp_desc(st, w, k) by {
        lemma_seg_nonneg(gap, i, j, k);
        assert(gap(k) == 0);
        assert(pred_ok(es, ws, dist, path, st, w[k] as int));
        assert(es[a(k)].from == w[k + 1]);
    }
    lemma_stamp_chain(st, w, i, j);
}

proof fn lemma_back_reached(es: Seq<ArcView>, dist: Seq<i64>, path: Seq<usize>, n: int, s: usize, t: usize, inf: i64, k: nat)
    requires
        pairs_ok(es, n),
        path_ok(es, dist, path, n, s, inf),
        t < n,
        dist[t as int] < inf,
        forall|k2: nat| k2 < k ==> #[trigger] back_node(es, path, t, k2) != s,
    ensures
        back_node(es, path, t, k) < n,
        dist[back_node(es, path, t, k) as int] < inf,
    decreases k,
{
    if k > 0 {
        let k1 = (k - 1) as nat;
        lemma_back_reached(es, dist, path, n, s, t, inf, k1);
        let v = back_node(es, path, t, k1);
        assert(v != s);
        assert(path_link(es, dist, path, inf, v as int));
        assert(arc_ok(es, n, path[v as int] as int));
    }
}

/// After a completed search on a network with feasible prices, the recorded
/// edges lead back from any reached node to the source within `n` steps.
proof fn lemma_path_returns(
    es: Seq<ArcView>, cs: Seq<int>, ws: Seq<int>, h: spec_fn(usize) -> int, dist: Seq<i64>, path: Seq<usize>,
    st: Seq<int>, n: int, s: usize, t: usize, inf: i64, p: spec_fn(usize) -> int,
)
    requires
        pairs_ok(es, n),
        cs.len() == es.len(),
        ws.len() == es.len(),
        forall|e: int| 0 <= e < es.len() ==> #[trigger] ws[e] == cs[e] + h(es[e].from) - h(es[e].to),
        feasible_prices(es, cs, p),
        dist.len() == n,
        path_ok(es, dist, path, n, s, inf),
        path_ge(es, ws, dist, path, n, s, inf),
        path_ordered(es, ws, dist, path, st, n, s, inf),
        t < n,
        dist[t as int] < inf,
    ensures
        exists|k: nat| k <= n && #[trigger] back_node(es, path, t, k) == s,
{
    if !(exists|k: nat| k <= n && #[trigger] back_node(es, path, t, k) == s) {
        let w = Seq::new((n + 1) as nat, |k: int| back_node(es, path, t, k as nat));
        assert forall|k: int| 0 <= k <= n implies #[trigger] w[k] < n && dist[w[k] as int] < inf && w[k] != s by {
            assert forall|k2: nat| k2 < k implies #[trigger] back_node(es, path, t, k2) != s by {}
            lemma_back_reached(es, dist, path, n, s, t, inf, k as nat);
            assert(back_node(es, path, t, k as nat) != s);
        }
        assert forall|k: int| 0 <= k < n implies #[trigger] walk_step(es, path, w, k) by {
            assert(w[k + 1] == back_node(es, path, t, (k + 1) as nat));
        }
        let wi = w.map_values(|x: usize| x as int);
        let range = vstd::set_lib::set_int_range(0, n);
        if wi.no_duplicates() {
            wi.unique_seq_to_set();
            assert forall|x: int| wi.to_set().contains(x) implies range.contains(x) by {
                assert(wi.contains(x));
                let k = choose|k: int| 0 <= k < wi.len() && wi[k] == x;
                assert(w[k] < n);
            }
            vstd::set_lib::lemma_int_range(0, n);
            vstd::set_lib::lemma_len_subset(wi.to_set(), range);
        }
        let (i0, j0) = choose|i0: int, j0: int| 0 <= i0 < wi.len() && 0 <= j0 < wi.len() && i0 != j0 && wi[i0] == wi[j0];
        let i = if i0 < j0 { i0 } else { j0 };
        let j = if i0 < j0 { j0 } else { i0 };
        assert(w[i] == w[j]);
        lemma_no_pred_cycle(es, cs, ws, h, dist, path, st, n, s, inf, p, w, i, j);
    }
}

/// The largest absolute cost among the first `m` edges.
pub open spec fn max_abs_cost_upto(cs: Seq<int>, m: int) -> int
    decreases m,
{
    if m <= 0 {
        0
    } else {
        let a = if cs[m - 1] < 0 { -cs[m - 1] } else { cs[m - 1] };
        let r = max_abs_cost_upto(cs, m - 1);
        if a > r { a } else { r }
    }
}

/// The largest absolute cost of an edge.
pub open spec fn max_abs_cost(cs: Seq<int>) -> int {
    max_abs_cost_upto(cs, cs.len() as int)
}

/// The numbers of a computation stay in range: twice the square of the node
/// count times the largest absolute edge cost is below `inf`. Every distance
/// and potential then lies strictly between `-inf` and `inf`.
pub open spec fn mcmf_in_range(cs: Seq<int>, n: int, inf: int) -> bool {
    2 * n * n * max_abs_cost(cs) < inf
}

proof fn lemma_max_abs_cost(cs: Seq<int>, m: int)
    requires
        0 <= m <= cs.len(),
    ensures
        max_abs_cost_upto(cs, m) >= 0,
        forall|e: int| 0 <= e < m ==> -max_abs_cost_upto(cs, m) <= #[trigger] cs[e] <= max_abs_cost_upto(cs, m),
    decreases m,
{
    if m > 0 {
        lemma_max_abs_cost(cs, m - 1);
    }
}

/// A sum of `j - i` terms that are each at least `-b` is at least `-(j - i) * b`.
proof fn lemma_seg_lower(f: spec_fn(int) -> int, i: int, j: int, b: int)
    requires
        i <= j,
        b >= 0,
        forall|k: int| i <= k < j ==> #[trigger] f(k) >= -b,
    ensures
        seg_sum(f, i, j) >= -(j - i) * b,
    decreases j - i,
{
    if j > i {
        lemma_seg_lower(f, i, j - 1, b);
        assert(-(j - 1 - i) * b - b == -(j - i) * b) by (nonlinear_arith);
    } else {
        assert((j - i) * b == 0) by (nonlinear_arith)
            requires
                j == i,
        ;
    }
}

/// A sum of `j - i` terms that are each at most `b` is at most `(j - i) * b`.
proof fn lemma_seg_upper(f: spec_fn(int) -> int, i: int, j: int, b: int)
    requires
        i <= j,
        forall|k: int| i <= k < j ==> #[trigger] f(k) <= b,
    ensures
        seg_sum(f, i, j) <= (j - i) * b,
    decreases j - i,
{
    if j > i {
        lemma_seg_upper(f, i, j - 1, b);
        assert((j - 1 - i) * b + b == (j - i) * b) by (nonlinear_arith);
    } else {
        assert((j - i) * b == 0) by (nonlinear_arith)
            requires
                j == i,
        ;
    }
}

/// Distinct nodes below `n` number at most `n`.
proof fn lemma_distinct_len(w: Seq<usize>, n: int)
    requires
        n >= 0,
        forall|k: int| 0 <= k < w.len() ==> #[trigger] w[k] < n,
        forall|i: int, j: int| 0 <= i < j < w.len() ==> #[trigger] w[i] != #[trigger] w[j],
    ensures
        w.len() <= n,
{
    let wi = w.map_values(|x: usize| x as int);
    assert forall|i: int, j: int| 0 <= i < wi.len() && 0 <= j < wi.len() && i != j implies wi[i] != wi[j] by {
        if i < j {
            assert(w[i] != w[j]);
        } else {
            assert(w[j] != w[i]);
        }
    }
    assert(wi.no_duplicates());
    wi.unique_seq_to_set();
    let range = vstd::set_lib::set_int_range(0, n);
    assert forall|x: int| wi.to_set().contains(x) implies range.contains(x) by {
        assert(wi.contains(x));
        let k = choose|k: int| 0 <= k < wi.len() && wi[k] == x;
        assert(w[k] < n);
    }
    vstd::set_lib::lemma_int_range(0, n);
    vstd::set_lib::lemma_len_subset(wi.to_set(), range);
}

/// The first step at which following recorded edges back from `u` meets `s`.
proof fn lemma_first_hit(es: Seq<ArcView>, path: Seq<usize>, u: usize, s: usize, k: nat) -> (k0: nat)
    requires
        back_node(es, path, u, k) == s,
    ensures
        k0 <= k,
        back_node(es, path, u, k0) == s,
        forall|j: nat| j < k0 ==> #[trigger] back_node(es, path, u, j) != s,
    decreases k,
{
    if exists|j: nat| j < k && #[trigger] back_node(es, path, u, j) == s {
        let j = choose|j: nat| j < k && #[trigger] back_node(es, path, u, j) == s;
        lemma_first_hit(es, path, u, s, j)
    } else {
        k
    }
}

/// The recorded edges lead back from a reached node `u` to the source along
/// distinct reached nodes, in fewer than `n` steps.
proof fn lemma_chain(
    es: Seq<ArcView>, cs: Seq<int>, ws: Seq<int>, h: spec_fn(usize) -> int, dist: Seq<i64>, path: Seq<usize>,
    st: Seq<int>, n: int, s: usize, inf: i64, p: spec_fn(usize) -> int, u: usize,
) -> (k0: nat)
    requires
        pairs_ok(es, n),
        cs.len() == es.len(),
        ws.len() == es.len(),
        forall|e: int| 0 <= e < es.len() ==> #[trigger] ws[e] == cs[e] + h(es[e].from) - h(es[e].to),
        feasible_prices(es, cs, p),
        dist.len() == n,
        path_ok(es, dist, path, n, s, inf),
        path_ge(es, ws, dist, path, n, s, inf),
        path_ordered(es, ws, dist, path, st, n, s, inf),
        u < n,
        dist[u as int] < inf,
    ensures
        k0 < n,
        back_node(es, path, u, k0) == s,
        forall|i: nat| i < k0 ==> #[trigger] back_node(es, path, u, i) != s,
        forall|i: nat| i <= k0 ==> #[trigger] back_node(es, path, u, i) < n && dist[back_node(es, path, u, i) as int] < inf,
        forall|i: nat, j: nat| i < j <= k0 ==> #[trigger] back_node(es, path, u, i) != #[trigger] back_node(es, path, u, j),
{
    lemma_path_returns(es, cs, ws, h, dist, path, st, n, s, u, inf, p);
    let k = choose|k: nat| k <= n && #[trigger] back_node(es, path, u, k) == s;
    let k0 = lemma_first_hit(es, path, u, s, k);
    assert forall|i: nat| i <= k0 implies #[trigger] back_node(es, path, u, i) < n && dist[back_node(es, path, u, i) as int] < inf by {
        assert forall|k2: nat| k2 < i implies #[trigger] back_node(es, path, u, k2) != s by {}
        lemma_back_reached(es, dist, path, n, s, u, inf, i);
    }
    let w = Seq::new((k0 + 1) as nat, |i: int| back_node(es, path, u, i as nat));
    assert forall|i: int| 0 <= i < k0 implies #[trigger] w[i] < n && dist[w[i] as int] < inf && w[i] != s
        && walk_step(es, path, w, i) by {
        assert(back_node(es, path, u, i as nat) < n);
        assert(back_node(es, path, u, i as nat) != s);
        assert(w[i + 1] == back_node(es, path, u, (i + 1) as nat));
    }
    assert forall|i: nat, j: nat| i < j <= k0 implies #[trigger] back_node(es, path, u, i) != #[trigger] back_node(es, path, u, j) by {
        lemma_no_pred_cycle(es, cs, ws, h, dist, path, st, n, s, inf, p, w, i as int, j as int);
    }
    assert forall|k: int| 0 <= k < w.len() implies #[trigger] w[k] < n by {
        assert(back_node(es, path, u, k as nat) < n);
    }
    assert forall|i: int, j: int| 0 <= i < j < w.len() implies #[trigger] w[i] != #[trigger] w[j] by {
        assert(back_node(es, path, u, i as nat) != back_node(es, path, u, j as nat));
    }
    lemma_distinct_len(w, n);
    k0
}

/// The weights of the first `j` recorded edges followed back from `u`.
spec fn chain_sum(es: Seq<ArcView>, ws: Seq<int>, path: Seq<usize>, u: usize, j: nat) -> int
    decreases j,
{
    if j == 0 {
        0
    } else {
        chain_sum(es, ws, path, u, (j - 1) as nat) + ws[path[back_node(es, path, u, (j - 1) as nat) as int] as int]
    }
}

/// Along recorded edges the distance drops by at least each edge's weight,
/// and by exactly that much once the distances are feasible.
proof fn lemma_chain_tele(es: Seq<ArcView>, ws: Seq<int>, dist: Seq<i64>, path: Seq<usize>, n: int, s: usize, inf: i64, u: usize, j: nat)
    requires
        pairs_ok(es, n),
        path_ok(es, dist, path, n, s, inf),
        path_ge(es, ws, dist, path, n, s, inf),
        forall|i: nat| i < j ==> #[trigger] back_node(es, path, u, i) != s && back_node(es, path, u, i) < n
            && dist[back_node(es, path, u, i) as int] < inf,
    ensures
        dist[u as int] - dist[back_node(es, path, u, j) as int] >= chain_sum(es, ws, path, u, j),
        dist_feasible(es, ws, dist, inf) ==> dist[u as int] - dist[back_node(es, path, u, j) as int]
            == chain_sum(es, ws, path, u, j),
    decreases j,
{
    if j > 0 {
        let j1 = (j - 1) as nat;
        lemma_chain_tele(es, ws, dist, path, n, s, inf, u, j1);
        let v = back_node(es, path, u, j1);
        assert(back_node(es, path, u, j1) != s && back_node(es, path, u, j1) < n && dist[v as int] < inf);
        assert(path_link(es, dist, path, inf, v as int));
        let a = path[v as int] as int;
        assert(back_node(es, path, u, j) == es[a].from);
        assert(dist[v as int] >= dist[es[a].from as int] + ws[a]);
        if dist_feasible(es, ws, dist, inf) {
            assert(dist[es[a].to as int] <= dist[es[a].from as int] + ws[a]);
        }
    }
}

/// Reduced by node prices, the costs of recorded edges with remaining
/// capacity sum to no less than zero.
proof fn lemma_chain_prices(es: Seq<ArcView>, cs: Seq<int>, p: spec_fn(usize) -> int, dist: Seq<i64>, path: Seq<usize>,
    n: int, s: usize, inf: i64, u: usize, j: nat)
    requires
        feasible_prices(es, cs, p),
        path_ok(es, dist, path, n, s, inf),
        forall|i: nat| i < j ==> #[trigger] back_node(es, path, u, i) != s && back_node(es, path, u, i) < n
            && dist[back_node(es, path, u, i) as int] < inf,
    ensures
        chain_sum(es, cs, path, u, j) + p(back_node(es, path, u, j)) - p(u) >= 0,
    decreases j,
{
    if j > 0 {
        let j1 = (j - 1) as nat;
        lemma_chain_prices(es, cs, p, dist, path, n, s, inf, u, j1);
        let v = back_node(es, path, u, j1);
        assert(back_node(es, path, u, j1) != s && back_node(es, path, u, j1) < n && dist[v as int] < inf);
        assert(path_link(es, dist, path, inf, v as int));
        let a = path[v as int] as int;
        assert(reduced_cost(es, cs, p, a) >= 0);
    }
}

/// The weights of recorded edges reduced by potentials `h` are their costs
/// plus the potential difference of the chain's ends.
proof fn lemma_chain_reduced(es: Seq<ArcView>, cs: Seq<int>, ws: Seq<int>, h: spec_fn(usize) -> int, dist: Seq<i64>,
    path: Seq<usize>, n: int, s: usize, inf: i64, u: usize, j: nat)
    requires
        ws.len() == es.len(),
        forall|e: int| 0 <= e < es.len() ==> #[trigger] ws[e] == cs[e] + h(es[e].from) - h(es[e].to),
        path_ok(es, dist, path, n, s, inf),
        forall|i: nat| i < j ==> #[trigger] back_node(es, path, u, i) != s && back_node(es, path, u, i) < n
            && dist[back_node(es, path, u, i) as int] < inf,
    ensures
        chain_sum(es, ws, path, u, j) == chain_sum(es, cs, path, u, j) + h(back_node(es, path, u, j)) - h(u),
    decreases j,
{
    if j > 0 {
        let j1 = (j - 1) as nat;
        lemma_chain_reduced(es, cs, ws, h, dist, path, n, s, inf, u, j1);
        let v = back_node(es, path, u, j1);
        assert(back_node(es, path, u, j1) != s && back_node(es, path, u, j1) < n && dist[v as int] < inf);
        assert(path_link(es, dist, path, inf, v as int));
    }
}

/// Costs of at most `m` in size sum over `j` edges to at most `j * m` in size.
proof fn lemma_chain_bounds(es: Seq<ArcView>, cs: Seq<int>, dist: Seq<i64>, path: Seq<usize>, n: int, s: usize, inf: i64,
    u: usize, j: nat, m: int)
    requires
        m >= 0,
        path_ok(es, dist, path, n, s, inf),
        forall|e: int| 0 <= e < es.len() ==> -m <= #[trigger] cs[e] <= m,
        forall|i: nat| i < j ==> #[trigger] back_node(es, path, u, i) != s && back_node(es, path, u, i) < n
            && dist[back_node(es, path, u, i) as int] < inf,
    ensures
        -(j * m) <= chain_sum(es, cs, path, u, j) <= j * m,
    decreases j,
{
    if j > 0 {
        let j1 = (j - 1) as nat;
        lemma_chain_bounds(es, cs, dist, path, n, s, inf, u, j1, m);
        let v = back_node(es, path, u, j1);
        assert(back_node(es, path, u, j1) != s && back_node(es, path, u, j1) < n && dist[v as int] < inf);
        assert(path_link(es, dist, path, inf, v as int));
        assert(j1 * m + m == j * m) by (nonlinear_arith)
            requires
                j1 + 1 == j,
        ;
    } else {
        assert(j * m == 0) by (nonlinear_arith)
            requires
                j == 0,
        ;
    }
}

/// A Bellman-Ford step that lowers a distance on a network with feasible
/// prices never lowers the source, and the new distance is at least
/// `-(n - 1) * m` when no cost exceeds `m` in size.
proof fn lemma_relax_bound(
    es: Seq<ArcView>, cs: Seq<int>, dist: Seq<i64>, path: Seq<usize>, st: Seq<int>, n: int, s: usize, inf: i64,
    p: spec_fn(usize) -> int, m: int, u: usize, e: int,
)
    requires
        pairs_ok(es, n),
        cs.len() == es.len(),
        feasible_prices(es, cs, p),
        dist.len() == n,
        path_ok(es, dist, path, n, s, inf),
        path_ge(es, cs, dist, path, n, s, inf),
        path_ordered(es, cs, dist, path, st, n, s, inf),
        s < n,
        dist[s as int] == 0,
        u < n,
        dist[u as int] < inf,
        0 <= e < es.len(),
        es[e].from == u,
        residual(es, e) > 0,
        m >= 0,
        forall|x: int| 0 <= x < es.len() ==> -m <= #[trigger] cs[x] <= m,
    ensures
        dist[u as int] + cs[e] < dist[es[e].to as int] ==> es[e].to != s && dist[u as int] + cs[e] >= -(n - 1) * m,
{
    let zero = |v: usize| 0int;
    assert forall|x: int| 0 <= x < es.len() implies #[trigger] cs[x] == cs[x] + zero(es[x].from) - zero(es[x].to) by {}
    let k0 = lemma_chain(es, cs, cs, zero, dist, path, st, n, s, inf, p, u);
    let t = es[e].to;
    assert(arc_ok(es, n, e));
    if exists|j: nat| j <= k0 && #[trigger] back_node(es, path, u, j) == t {
        let j = choose|j: nat| j <= k0 && #[trigger] back_node(es, path, u, j) == t;
        assert forall|i: nat| i < j implies #[trigger] back_node(es, path, u, i) != s && back_node(es, path, u, i) < n
            && dist[back_node(es, path, u, i) as int] < inf by {
            assert(i < k0);
        }
        lemma_chain_tele(es, cs, dist, path, n, s, inf, u, j);
        lemma_chain_prices(es, cs, p, dist, path, n, s, inf, u, j);
        assert(reduced_cost(es, cs, p, e) >= 0);
        assert(reduced_cost(es, cs, p, e) == cs[e] + p(u) - p(t));
        assert(chain_sum(es, cs, path, u, j) + cs[e] >= 0);
        assert(dist[u as int] + cs[e] >= dist[t as int]);
    } else {
        assert(back_node(es, path, u, k0) != t);
        let w = Seq::new((k0 + 2) as nat, |i: int| if i <= k0 { back_node(es, path, u, i as nat) } else { t });
        assert forall|k: int| 0 <= k < w.len() implies #[trigger] w[k] < n by {
            if k <= k0 {
                assert(back_node(es, path, u, k as nat) < n);
            }
        }
        assert forall|i: int, j: int| 0 <= i < j < w.len() implies #[trigger] w[i] != #[trigger] w[j] by {
            if j <= k0 {
                assert(back_node(es, path, u, i as nat) != back_node(es, path, u, j as nat));
            } else {
                assert(back_node(es, path, u, i as nat) != t);
            }
        }
        lemma_distinct_len(w, n);
        lemma_chain_tele(es, cs, dist, path, n, s, inf, u, k0);
        lemma_chain_bounds(es, cs, dist, path, n, s, inf, u, k0, m);
        assert((k0 + 1) * m <= (n - 1) * m) by (nonlinear_arith)
            requires
                k0 + 1 <= n - 1,
                m >= 0,
        ;
        assert(k0 * m + m == (k0 + 1) * m) by (nonlinear_arith);
        assert(-(n - 1) * m == -((n - 1) * m)) by (nonlinear_arith);
        assert(w.len() == k0 + 2);
        assert(dist[u as int] >= -(k0 * m));
    }
}

/// After a completed search, a reached node's distance plus its potential is
/// the cost of a chain of fewer than `n` edges from the source.
proof fn lemma_label_bound(
    es: Seq<ArcView>, cs: Seq<int>, ws: Seq<int>, h: spec_fn(usize) -> int, dist: Seq<i64>, path: Seq<usize>,
    st: Seq<int>, n: int, s: usize, inf: i64, p: spec_fn(usize) -> int, m: int, v: usize,
)
    requires
        pairs_ok(es, n),
        cs.len() == es.len(),
        ws.len() == es.len(),
        forall|e: int| 0 <= e < es.len() ==> #[trigger] ws[e] == cs[e] + h(es[e].from) - h(es[e].to),
        feasible_prices(es, cs, p),
        dist.len() == n,
        path_ok(es, dist, path, n, s, inf),
        path_ge(es, ws, dist, path, n, s, inf),
        path_ordered(es, ws, dist, path, st, n, s, inf),
        dist_feasible(es, ws, dist, inf),
        s < n,
        dist[s as int] == 0,
        v < n,
        dist[v as int] < inf,
        m >= 0,
        forall|x: int| 0 <= x < es.len() ==> -m <= #[trigger] cs[x] <= m,
    ensures
        -((n - 1) * m) <= dist[v as int] + h(v) - h(s) <= (n - 1) * m,
{
    let k0 = lemma_chain(es, cs, ws, h, dist, path, st, n, s, inf, p, v);
    lemma_chain_tele(es, ws, dist, path, n, s, inf, v, k0);
    lemma_chain_reduced(es, cs, ws, h, dist, path, n, s, inf, v, k0);
    lemma_chain_bounds(es, cs, dist, path, n, s, inf, v, k0, m);
    assert(k0 * m <= (n - 1) * m) by (nonlinear_arith)
        requires
            k0 <= n - 1,
            m >= 0,
    ;
}

/// Under potentials `h`, no edge with remaining capacity that leaves a node
/// reachable from `s` has a negative reduced cost.
spec fn potential_ok(es: Seq<ArcView>, cs: Seq<int>, h: Seq<i64>, s: usize) -> bool {
    forall|e: int| 0 <= e < es.len() && residual(es, e) > 0 && #[trigger] residual_reach(es, s, es[e].from)
        ==> cs[e] + h[es[e].from as int] - h[es[e].to as int] >= 0
}

/// A node reachable from `s` lies in every closed side that holds `s`.
proof fn lemma_reach_in_side(es: Seq<ArcView>, s: usize, side: spec_fn(usize) -> bool, v: usize)
    requires
        residual_reach(es, s, v),
        side(s),
        closed(es, side),
    ensures
        side(v),
{
}

/// Augmenting along a path of a completed search and adding its distances to
/// the potentials of the reached nodes keeps the potentials valid on the
/// part of the network still reachable from the source.
proof fn lemma_potential_after_augment(
    es1: Seq<ArcView>, es2: Seq<ArcView>, cs: Seq<int>, h: Seq<i64>, h2: Seq<i64>, dist: Seq<i64>, path: Seq<usize>,
    n: int, s: usize, inf: i64,
)
    requires
        pairs_ok(es1, n),
        same_network(es1, es2),
        cs.len() == es1.len(),
        costs_paired(cs),
        dist.len() == n,
        h.len() == n,
        h2.len() == n,
        s < n,
        dist[s as int] < inf,
        forall|v: int| 0 <= v < n && dist[v] < inf ==> #[trigger] h2[v] == h[v] + dist[v],
        closed(es1, finite_side(dist, n, inf)),
        dist_feasible(es1, reduced_weights(es1, cs, h), dist, inf),
        path_ge(es1, reduced_weights(es1, cs, h), dist, path, n, s, inf),
        path_ok(es1, dist, path, n, s, inf),
        lowered_on_path(es1, es2, dist, path, n, s, inf),
    ensures
        potential_ok(es2, cs, h2, s),
{
    let ws = reduced_weights(es1, cs, h);
    let fin = finite_side(dist, n, inf);
    assert forall|e: int| 0 <= e < es2.len() && fin(#[trigger] es2[e].from) && residual(es2, e) > 0 implies fin(es2[e].to) by {
        assert(es1.len() == es2.len());
        assert(es1[e].from == es2[e].from);
        assert(es1[e].cap == es2[e].cap);
        assert(arc_ok(es1, n, e));
        if residual(es1, e) <= 0 {
            assert(es2[e].flow < es1[e].flow);
            let v = choose|v: int| 0 <= v < n && v != s && dist[v] < inf && e == partner(#[trigger] path[v] as int);
            let a = path[v] as int;
            assert(path_link(es1, dist, path, inf, v));
            assert(arc_ok(es1, n, a));
            assert(partner(e) == a);
        }
    }
    assert(closed(es2, fin));
    assert forall|e: int| 0 <= e < es2.len() && residual(es2, e) > 0 && #[trigger] residual_reach(es2, s, es2[e].from)
        implies cs[e] + h2[es2[e].from as int] - h2[es2[e].to as int] >= 0 by {
        assert(es1.len() == es2.len());
        assert(es1[e].from == es2[e].from);
        assert(es1[e].cap == es2[e].cap);
        assert(arc_ok(es1, n, e));
        let u = es1[e].from;
        let w = es1[e].to;
        lemma_reach_in_side(es2, s, fin, u);
        assert(fin(w));
        assert(ws[e] == cs[e] + h[u as int] - h[w as int]);
        if residual(es1, e) > 0 {
            assert(dist[w as int] <= dist[u as int] + ws[e]);
        } else {
            assert(es2[e].flow < es1[e].flow);
            let v = choose|v: int| 0 <= v < n && v != s && dist[v] < inf && e == partner(#[trigger] path[v] as int);
            let a = path[v] as int;
            assert(path_link(es1, dist, path, inf, v));
            assert(arc_ok(es1, n, a));
            assert(partner(e) == a);
            assert(es1[e].from == es1[a].to);
            assert(es1[e].to == es1[a].from);
            assert(cs[partner(a)] == -cs[a]);
            assert(ws[a] == cs[a] + h[es1[a].from as int] - h[es1[a].to as int]);
            assert(dist[v] >= dist[es1[a].from as int] + ws[a]);
            assert(dist[es1[a].to as int] <= dist[es1[a].from as int] + ws[a]);
        }
    }
}

/// The nodes below `n` that a search reached.
pub open spec fn finite_side(dist: Seq<i64>, n: int, inf: i64) -> spec_fn(usize) -> bool {
    |v: usize| v < n && dist[v as int] < inf
}

proof fn lemma_pending_push(q: Seq<usize>, head: int, x: usize, v: int)
    requires
        0 <= head,
        pending(q, head, v),
    ensures
        pending(q.push(x), head, v),
{
    let j = choose|j: int| head <= j < q.len() && q[j] == v;
    assert(q.push(x)[j] == v);
}

proof fn lemma_pending_new(q: Seq<usize>, head: int, x: usize)
    requires
        head <= q.len(),
    ensures
        pending(q.push(x), head, x as int),
{
    assert(q.push(x)[q.len() as int] == x);
}

proof fn lemma_pending_pop(q: Seq<usize>, head: int, v: int)
    requires
        0 <= head < q.len(),
        pending(q, head, v),
        q[head] != v,
    ensures
        pending(q, head + 1, v),
{
    let j = choose|j: int| head <= j < q.len() && q[j] == v;
    assert(j != head);
}

proof fn lemma_out_closed_mono(es: Seq<ArcView>, g: Seq<Seq<usize>>, n: int, d0: Seq<i64>, d1: Seq<i64>, inf: i64, v: int, m: int)
    requires
        adj_ok(es, g, n),
        pairs_ok(es, n),
        0 <= v < n,
        out_closed_upto(es, g, d0, inf, v, m),
        d0.len() == n,
        d1.len() == n,
        forall|x: int| 0 <= x < n ==> #[trigger] d1[x] <= d0[x],
    ensures
        out_closed_upto(es, g, d1, inf, v, m),
{
    assert forall|k: int| 0 <= k < m && k < g[v].len() && residual(es, #[trigger] g[v][k] as int) > 0
        implies d1[es[g[v][k] as int].to as int] < inf by {
        let e = g[v][k] as int;
        assert(arc_ok(es, n, e));
        let t = es[e].to as int;
        assert(d1[t] <= d0[t]);
    }
}

/// A reached node that no longer waits in the queue has all its edges with
/// remaining capacity leading to reached nodes, unless the search gave up on one.
spec fn spfa_settled(es: Seq<ArcView>, g: Seq<Seq<usize>>, cs: Seq<int>, dist: Seq<i64>, q: Seq<usize>, head: int, inf: i64, lost: bool, v: int) -> bool {
    dist[v] < inf && !pending(q, head, v) ==> lost || (out_closed(es, g, dist, inf, v)
        && out_within(es, g, cs, dist, v, g[v].len() as int, dist[v] as int))
}

proof fn lemma_settled_after_lower(
    es: Seq<ArcView>, g: Seq<Seq<usize>>, cs: Seq<int>, n: int, d0: Seq<i64>, d1: Seq<i64>,
    q0: Seq<usize>, q1: Seq<usize>, head: int, inf: i64, lost: bool, u: int, to: int,
)
    requires
        adj_ok(es, g, n),
        pairs_ok(es, n),
        0 <= to < n,
        0 <= head <= q0.len(),
        d0.len() == n,
        d1.len() == n,
        forall|x: int| 0 <= x < n && x != to ==> #[trigger] d1[x] == d0[x],
        d1[to] <= d0[to],
        q1 == q0 || q1 == q0.push(to as usize),
        lost || pending(q1, head, to),
        forall|v: int| 0 <= v < n && v != u ==> #[trigger] spfa_settled(es, g, cs, d0, q0, head, inf, lost, v),
    ensures
        forall|v: int| 0 <= v < n && v != u ==> #[trigger] spfa_settled(es, g, cs, d1, q1, head, inf, lost, v),
{
    assert forall|x: int| 0 <= x < n implies #[trigger] d1[x] <= d0[x] by {}
    assert forall|v: int| 0 <= v < n && v != u implies #[trigger] spfa_settled(es, g, cs, d1, q1, head, inf, lost, v) by {
        assert(spfa_settled(es, g, cs, d0, q0, head, inf, lost, v));
        if pending(q0, head, v) && q1 != q0 {
            lemma_pending_push(q0, head, to as usize, v);
        }
        if v != to && !lost && d1[v] < inf && !pending(q1, head, v) {
            lemma_out_closed_mono(es, g, n, d0, d1, inf, v, g[v].len() as int);
            lemma_out_within_mono(es, g, cs, n, d0, d1, v, g[v].len() as int, d0[v] as int);
        }
    }
}

proof fn lemma_out_within_step(es: Seq<ArcView>, g: Seq<Seq<usize>>, cs: Seq<int>, dist: Seq<i64>, v: int, k: int, b: int)
    requires
        0 <= k < g[v].len(),
        out_within(es, g, cs, dist, v, k, b),
        residual(es, g[v][k] as int) > 0 ==> dist[es[g[v][k] as int].to as int] <= b + cs[g[v][k] as int],
    ensures
        out_within(es, g, cs, dist, v, k + 1, b),
{
}

proof fn lemma_out_closed_step(es: Seq<ArcView>, g: Seq<Seq<usize>>, dist: Seq<i64>, inf: i64, v: int, k: int)
    requires
        0 <= k < g[v].len(),
        out_closed_upto(es, g, dist, inf, v, k),
        residual(es, g[v][k] as int) > 0 ==> dist[es[g[v][k] as int].to as int] < inf,
    ensures
        out_closed_upto(es, g, dist, inf, v, k + 1),
{
}

/// The heap holds the entry of node `v` at distance `d`.
spec fn queued(h: Multiset<i128>, d: int, v: int) -> bool {
    exists|key: i128| h.contains(key) && key == heap_key(d, v)
}

/// A reached node whose current entry has left the heap has all its edges with
/// remaining capacity leading to reached nodes, unless the search gave up on one.
spec fn heap_settled(es: Seq<ArcView>, g: Seq<Seq<usize>>, ws: Seq<int>, dist: Seq<i64>, h: Multiset<i128>, inf: i64, lost: bool, v: int) -> bool {
    dist[v] < inf && !queued(h, dist[v] as int, v) ==> lost || (out_closed(es, g, dist, inf, v)
        && out_within(es, g, ws, dist, v, g[v].len() as int, dist[v] as int))
}

proof fn lemma_heap_pop(es: Seq<ArcView>, g: Seq<Seq<usize>>, ws: Seq<int>, n: int, dist: Seq<i64>, h0: Multiset<i128>, key: i128,
    d0: int, u0: int, inf: i64, lost: bool)
    requires
        h0.contains(key),
        key == heap_key(d0, u0),
        0 <= u0 < n,
        n < 18446744073709551615,
        forall|v: int| 0 <= v < n ==> #[trigger] heap_settled(es, g, ws, dist, h0, inf, lost, v),
    ensures
        forall|v: int| 0 <= v < n && !(v == u0 && dist[v] == d0) ==> #[trigger] heap_settled(es, g, ws, dist, h0.remove(key), inf, lost, v),
{
    assert forall|v: int| 0 <= v < n && !(v == u0 && dist[v] == d0) implies #[trigger] heap_settled(es, g, ws, dist, h0.remove(key), inf, lost, v) by {
        assert(heap_settled(es, g, ws, dist, h0, inf, lost, v));
        if dist[v] < inf && queued(h0, dist[v] as int, v) {
            let k1 = choose|k1: i128| h0.contains(k1) && k1 == heap_key(dist[v] as int, v);
            if k1 == key {
                lemma_key_decode(dist[v] as int, v);
                lemma_key_decode(d0, u0);
            }
            assert(h0.remove(key).count(k1) == h0.count(k1));
            assert(h0.remove(key).contains(k1));
        }
    }
}

proof fn lemma_heap_lower(es: Seq<ArcView>, g: Seq<Seq<usize>>, ws: Seq<int>, n: int, d0: Seq<i64>, d1: Seq<i64>,
    h0: Multiset<i128>, newkey: i128, inf: i64, lost: bool, u: int, to: int)
    requires
        adj_ok(es, g, n),
        pairs_ok(es, n),
        0 <= to < n,
        d0.len() == n,
        d1.len() == n,
        forall|x: int| 0 <= x < n && x != to ==> #[trigger] d1[x] == d0[x],
        d1[to] <= d0[to],
        newkey == heap_key(d1[to] as int, to),
        forall|v: int| 0 <= v < n && v != u ==> #[trigger] heap_settled(es, g, ws, d0, h0, inf, lost, v),
    ensures
        forall|v: int| 0 <= v < n && v != u ==> #[trigger] heap_settled(es, g, ws, d1, h0.insert(newkey), inf, lost, v),
{
    let h1 = h0.insert(newkey);
    assert forall|x: int| 0 <= x < n implies #[trigger] d1[x] <= d0[x] by {}
    assert forall|v: int| 0 <= v < n && v != u implies #[trigger] heap_settled(es, g, ws, d1, h1, inf, lost, v) by {
        if v == to {
            assert(h1.contains(newkey));
        } else {
            assert(heap_settled(es, g, ws, d0, h0, inf, lost, v));
            if d0[v] < inf && queued(h0, d0[v] as int, v) {
                let k1 = choose|k1: i128| h0.contains(k1) && k1 == heap_key(d0[v] as int, v);
                assert(h1.contains(k1));
            }
            if !lost && d1[v] < inf && !queued(h1, d1[v] as int, v) {
                lemma_out_closed_mono(es, g, n, d0, d1, inf, v, g[v].len() as int);
                lemma_out_within_mono(es, g, ws, n, d0, d1, v, g[v].len() as int, d0[v] as int);
            }
        }
    }
}

proof fn lemma_reach_step(es: Seq<ArcView>, s: usize, u: usize, e: int, to: usize)
    requires
        residual_reach(es, s, u),
        0 <= e < es.len(),
        es[e].from == u,
        es[e].to == to,
        residual(es, e) > 0,
    ensures
        residual_reach(es, s, to),
{
    assert forall|side: spec_fn(usize) -> bool| side(s) && closed(es, side) implies #[trigger] side(to) by {
        assert(side(u));
        assert(side(es[e].from));
    }
}

/// When every reached node's edges with remaining capacity lead to reached
/// nodes, the reached nodes form a closed side.
proof fn lemma_closed_side(es: Seq<ArcView>, g: Seq<Seq<usize>>, dist: Seq<i64>, n: int, inf: i64)
    requires
        adj_ok(es, g, n),
        pairs_ok(es, n),
        dist.len() == n,
        forall|v: int| 0 <= v < n && dist[v] < inf ==> #[trigger] out_closed(es, g, dist, inf, v),
    ensures
        closed(es, finite_side(dist, n, inf)),
{
    let side = finite_side(dist, n, inf);
    assert forall|e: int| 0 <= e < es.len() && side(#[trigger] es[e].from) && residual(es, e) > 0 implies side(es[e].to) by {
        assert(arc_ok(es, n, e));
        let f = es[e].from as int;
        assert(listed(g, f, e));
        let k = choose|k: int| 0 <= k < g[f].len() && #[trigger] g[f][k] == e;
        assert(out_closed(es, g, dist, inf, f));
        assert(g[f][k] as int == e);
    }
}

/// Remaining enqueue budget of the nodes below `k`.
spec fn budget(c: Seq<usize>, n: int, k: int) -> int
    decreases k,
{
    if k <= 0 {
        0
    } else {
        budget(c, n, k - 1) + (n - c[k - 1])
    }
}

proof fn lemma_budget(c: Seq<usize>, n: int, x: int, k: int)
    requires
        0 <= x < c.len(),
        0 <= k <= c.len(),
        forall|v: int| 0 <= v < c.len() ==> #[trigger] c[v] <= n,
        c[x] < n,
        n <= usize::MAX,
    ensures
        budget(c, n, k) >= 0,
        budget(c.update(x, (c[x] + 1) as usize), n, k) == budget(c, n, k) - if x < k { 1int } else { 0 },
    decreases k,
{
    if k > 0 {
        lemma_budget(c, n, x, k - 1);
    }
}

proof fn lemma_budget_nonneg(c: Seq<usize>, n: int, k: int)
    requires
        0 <= k <= c.len(),
        forall|v: int| 0 <= v < c.len() ==> #[trigger] c[v] <= n,
    ensures
        budget(c, n, k) >= 0,
    decreases k,
{
    if k > 0 {
        lemma_budget_nonneg(c, n, k - 1);
    }
}

/// Sum of the first `k` distances.
spec fn dist_sum(d: Seq<i64>, k: int) -> int
    decreases k,
{
    if k <= 0 {
        0
    } else {
        dist_sum(d, k - 1) + d[k - 1]
    }
}

proof fn lemma_dist_sum(d: Seq<i64>, x: int, val: i64, k: int)
    requires
        0 <= x < d.len(),
        0 <= k <= d.len(),
        forall|v: int| 0 <= v < d.len() ==> #[trigger] d[v] >= 0,
    ensures
        dist_sum(d, k) >= 0,
        dist_sum(d.update(x, val), k) == dist_sum(d, k) + if x < k { val - d[x] } else { 0 },
    decreases k,
{
    if k > 0 {
        lemma_dist_sum(d, x, val, k - 1);
    }
}

/// Heap key ordering by distance, then by larger node first.
spec fn heap_key(d: int, u: int) -> int {
    d * 18446744073709551616 + (18446744073709551615 - u)
}

proof fn lemma_key_decode(d: int, u: int)
    requires
        0 <= u <= 18446744073709551615,
    ensures
        heap_key(d, u) / 18446744073709551616 == d,
        18446744073709551615 - heap_key(d, u) % 18446744073709551616 == u,
{
    vstd::arithmetic::div_mod::lemma_fundamental_div_mod_converse(heap_key(d, u), 18446744073709551616, d, 18446744073709551615 - u);
}


proof fn lemma_flow_cost_update(es: Seq<ArcView>, cs: Seq<int>, x: int, nf: int, m: int)
    requires
        0 <= x < es.len(),
        0 <= m <= es.len(),
    ensures
        flow_cost_upto(es.update(x, ArcView { flow: nf, ..es[x] }), cs, m) == flow_cost_upto(es, cs, m)
            + if x < m && x % 2 == 0 { cs[x] * nf - cs[x] * es[x].flow } else { 0 },
    decreases m,
{
    if m > 0 {
        lemma_flow_cost_update(es, cs, x, nf, m - 1);
    }
}

/// Pushing `d` along edge `e` adds `d` times its cost to the flow's cost.
proof fn lemma_flow_cost_push(es: Seq<ArcView>, cs: Seq<int>, n: int, e: int, d: int)
    requires
        pairs_ok(es, n),
        cs.len() == es.len(),
        costs_paired(cs),
        0 <= e < es.len(),
    ensures
        flow_cost(pushed_on(es, e, d), cs) == flow_cost(es, cs) + cs[e] * d,
{
    let p = partner(e);
    assert(arc_ok(es, n, e));
    let m = es.len() as int;
    let es1 = es.update(e, ArcView { flow: es[e].flow + d, ..es[e] });
    lemma_flow_cost_update(es, cs, e, es[e].flow + d, m);
    lemma_flow_cost_update(es1, cs, p, es1[p].flow - d, m);
    assert(es1[p] == es[p]);
    assert(cs[p] == -cs[e]);
    assert(cs[e] * (es[e].flow + d) - cs[e] * es[e].flow == cs[e] * d) by (nonlinear_arith);
    assert(cs[p] * (es[p].flow - d) - cs[p] * es[p].flow == cs[e] * d) by (nonlinear_arith)
        requires
            cs[p] == -cs[e],
    ;
}

/// The node reached from `t` after `k` steps back along recorded edges.
spec fn back_node(es: Seq<ArcView>, path: Seq<usize>, t: usize, k: nat) -> usize
    decreases k,
{
    if k == 0 {
        t
    } else {
        es[path[back_node(es, path, t, (k - 1) as nat) as int] as int].from
    }
}

/// The least remaining capacity over the first `k` steps back from `t`, and
/// at most `cap`.
spec fn bottleneck(es: Seq<ArcView>, path: Seq<usize>, t: usize, k: nat, cap: int) -> int
    decreases k,
{
    if k == 0 {
        cap
    } else {
        let b = bottleneck(es, path, t, (k - 1) as nat, cap);
        let r = residual(es, path[back_node(es, path, t, (k - 1) as nat) as int] as int);
        if b > r { r } else { b }
    }
}

/// Following recorded edges from `w[i]` leads to `w[i + 1]`.
spec fn walk_step(es: Seq<ArcView>, path: Seq<usize>, w: Seq<usize>, i: int) -> bool {
    w[i + 1] == es[path[w[i] as int] as int].from
}

proof fn lemma_walk_shift(es: Seq<ArcView>, path: Seq<usize>, w: Seq<usize>, i: int, j: int, t: int)
    requires
        0 <= i < j,
        0 <= t,
        j + t < w.len(),
        w[i] == w[j],
        forall|x: int| 0 <= x < w.len() - 1 ==> #[trigger] walk_step(es, path, w, x),
    ensures
        w[i + t] == w[j + t],
    decreases t,
{
    if t > 0 {
        lemma_walk_shift(es, path, w, i, j, t - 1);
        assert(walk_step(es, path, w, i + t - 1));
        assert(walk_step(es, path, w, j + t - 1));
    }
}

/// A walk that meets `s` only at its end visits no node twice.
proof fn lemma_walk_distinct(es: Seq<ArcView>, path: Seq<usize>, w: Seq<usize>, s: usize)
    requires
        w.len() >= 1,
        w.last() == s,
        forall|x: int| 0 <= x < w.len() - 1 ==> #[trigger] w[x] != s,
        forall|x: int| 0 <= x < w.len() - 1 ==> #[trigger] walk_step(es, path, w, x),
    ensures
        forall|i: int, j: int| 0 <= i < j < w.len() ==> #[trigger] w[i] != #[trigger] w[j],
{
    assert forall|i: int, j: int| 0 <= i < j < w.len() implies #[trigger] w[i] != #[trigger] w[j] by {
        if w[i] == w[j] {
            let t = w.len() - 1 - j;
            lemma_walk_shift(es, path, w, i, j, t);
            assert(w[i + t] == s);
            assert(i + t < w.len() - 1);
        }
    }
}

/// The edges leaving the nodes a search reached, in order.
pub open spec fn reached_cut(es: Seq<McmfEdge>, dist: Seq<i64>, inf: i64, m: int) -> Seq<McmfEdge>
    decreases m,
{
    if m <= 0 {
        Seq::empty()
    } else if dist[es[m - 1].from as int] != inf && dist[es[m - 1].to as int] == inf && es[m - 1].cap > 0 {
        reached_cut(es, dist, inf, m - 1).push(es[m - 1])
    } else {
        reached_cut(es, dist, inf, m - 1)
    }
}

proof fn lemma_reached_cut(edges: Seq<McmfEdge>, dist: Seq<i64>, n: int, inf: i64, m: int)
    requires
        0 <= m <= edges.len(),
        forall|e: int| 0 <= e < edges.len() ==> #[trigger] edges[e].from < n && edges[e].to < n,
        dist.len() == n,
        forall|v: int| 0 <= v < n ==> #[trigger] dist[v] <= inf,
    ensures
        mcmf_arcs(reached_cut(edges, dist, inf, m)) == cut_upto(mcmf_arcs(edges), finite_side(dist, n, inf), m),
    decreases m,
{
    if m > 0 {
        lemma_reached_cut(edges, dist, n, inf, m - 1);
        let prev = reached_cut(edges, dist, inf, m - 1);
        let x = edges[m - 1];
        assert(mcmf_arcs(edges)[m - 1] == mcmf_arc(x));
        assert(mcmf_arcs(prev.push(x)) =~= mcmf_arcs(prev).push(mcmf_arc(x)));
        assert(dist[x.from as int] <= inf);
        assert(dist[x.to as int] <= inf);
    }
}

/// `x` clamped into the range of `i64`.
spec fn clamp_i64(x: int) -> int {
    if x < i64::MIN {
        i64::MIN as int
    } else if x > i64::MAX {
        i64::MAX as int
    } else {
        x
    }
}

/// How many of the first `k` distances are `inf`.
spec fn count_unreached(d: Seq<i64>, inf: i64, k: int) -> int
    decreases k,
{
    if k <= 0 {
        0
    } else {
        count_unreached(d, inf, k - 1) + if d[k - 1] == inf { 1int } else { 0 }
    }
}

proof fn lemma_unreached(d: Seq<i64>, inf: i64, x: int, k: int)
    requires
        0 <= x < d.len(),
        0 <= k <= d.len(),
        d[x] == inf,
        inf != 0,
    ensures
        0 <= count_unreached(d, inf, k) <= k,
        count_unreached(d.update(x, 0), inf, k) == count_unreached(d, inf, k) - if x < k { 1int } else { 0 },
    decreases k,
{
    if k > 0 {
        lemma_unreached(d, inf, x, k - 1);
    }
}

proof fn lemma_unreached_set(d: Seq<i64>, inf: i64, x: int, val: i64, k: int)
    requires
        0 <= x < d.len(),
        0 <= k <= d.len(),
        val != inf,
    ensures
        count_unreached(d.update(x, val), inf, k) == count_unreached(d, inf, k) - if x < k && d[x] == inf { 1int } else { 0 },
    decreases k,
{
    if k > 0 {
        lemma_unreached_set(d, inf, x, val, k - 1);
    }
}

/// Sum of the first `k` distances measured from `base`.
spec fn shifted_sum(d: Seq<i64>, base: int, k: int) -> int
    decreases k,
{
    if k <= 0 {
        0
    } else {
        shifted_sum(d, base, k - 1) + (d[k - 1] - base)
    }
}

proof fn lemma_shifted_sum(d: Seq<i64>, base: int, x: int, val: i64, k: int)
    requires
        0 <= x < d.len(),
        0 <= k <= d.len(),
        forall|v: int| 0 <= v < d.len() ==> #[trigger] d[v] >= base,
    ensures
        shifted_sum(d, base, k) >= 0,
        shifted_sum(d.update(x, val), base, k) == shifted_sum(d, base, k) + if x < k { val - d[x] } else { 0 },
    decreases k,
{
    if k > 0 {
        lemma_shifted_sum(d, base, x, val, k - 1);
    }
}

/// In range, a Bellman-Ford candidate built from a reached distance fits in
/// an `i64` and stays below `inf`.
proof fn lemma_in_range_spfa(n: int, m: int, inf: int, reached: int, du: int, c: int)
    requires
        1 <= reached <= n,
        m >= 0,
        -((n - 1) * m) <= du <= (reached - 1) * m,
        -m <= c <= m,
        2 * n * n * m < inf,
        inf <= 9223372036854775807,
    ensures
        -9223372036854775808 < du + c <= reached * m,
        reached * m < inf,
{
    assert((reached - 1) * m + m == reached * m) by (nonlinear_arith);
    assert(reached * m <= n * m) by (nonlinear_arith)
        requires
            reached <= n,
            m >= 0,
    ;
    assert(n * m <= 2 * n * n * m) by (nonlinear_arith)
        requires
            n >= 1,
            m >= 0,
    ;
    assert((n - 1) * m + m == n * m) by (nonlinear_arith);
}

/// In range, a Dijkstra candidate built from a reached distance stays below `inf`.
proof fn lemma_in_range_dij(n: int, mm: int, inf: int, reached: int, du: int, w: int, wmax: int)
    requires
        1 <= reached <= n,
        mm >= 0,
        wmax == (2 * n - 1) * mm,
        0 <= du <= (reached - 1) * wmax,
        0 <= w <= wmax,
        2 * n * n * mm < inf,
    ensures
        du + w <= reached * wmax,
        reached * wmax < inf,
{
    assert((reached - 1) * wmax + wmax == reached * wmax) by (nonlinear_arith);
    assert(reached * wmax <= n * wmax) by (nonlinear_arith)
        requires
            reached <= n,
            wmax >= 0,
    ;
    assert(n * wmax < 2 * n * n * mm || n * wmax == 0 || n * wmax <= 2 * n * n * mm) by (nonlinear_arith)
        requires
            n >= 1,
            mm >= 0,
            wmax == (2 * n - 1) * mm,
    ;
}

proof fn lemma_all_unreached(d: Seq<i64>, inf: i64, k: int)
    requires
        0 <= k <= d.len(),
        forall|j: int| 0 <= j < d.len() ==> #[trigger] d[j] == inf,
    ensures
        count_unreached(d, inf, k) == k,
    decreases k,
{
    if k > 0 {
        lemma_all_unreached(d, inf, k - 1);
    }
}

proof fn lemma_unreached_bounds(d: Seq<i64>, inf: i64, k: int)
    requires
        0 <= k <= d.len(),
    ensures
        0 <= count_unreached(d, inf, k) <= k,
    decreases k,
{
    if k > 0 {
        lemma_unreached_bounds(d, inf, k - 1);
    }
}

proof fn lemma_back_shift(es: Seq<ArcView>, path: Seq<usize>, v: usize, k: nat)
    ensures
        back_node(es, path, v, k + 1) == back_node(es, path, es[path[v as int] as int].from, k),
    decreases k,
{
    let u = es[path[v as int] as int].from;
    if k > 0 {
        lemma_back_shift(es, path, v, (k - 1) as nat);
        assert(back_node(es, path, v, k) == back_node(es, path, u, (k - 1) as nat));
        assert(back_node(es, path, v, k + 1) == es[path[back_node(es, path, v, k) as int] as int].from);
        assert(back_node(es, path, u, k) == es[path[back_node(es, path, u, (k - 1) as nat) as int] as int].from);
    } else {
        assert(back_node(es, path, v, 1) == es[path[back_node(es, path, v, 0) as int] as int].from);
        assert(back_node(es, path, u, 0) == u);
    }
}

/// Following the recorded edges back from a reached node, each step to a node
/// queued earlier, leads to the source within as many steps as the node's
/// queue position.
proof fn lemma_back_reaches(es: Seq<ArcView>, path: Seq<usize>, dist: Seq<i64>, pos: Seq<int>, n: int, s: usize, inf: i64, v: usize)
    requires
        v < n,
        dist[v as int] < inf,
        pos.len() == n,
        forall|u: int| 0 <= u < n && dist[u] < inf ==> 0 <= #[trigger] pos[u],
        forall|u: int| 0 <= u < n && dist[u] < inf && u != s ==> #[trigger] path_link(es, dist, path, inf, u)
            && es[path[u] as int].from < n
            && pos[es[path[u] as int].from as int] < pos[u],
    ensures
        exists|k: nat| k <= pos[v as int] && #[trigger] back_node(es, path, v, k) == s,
    decreases pos[v as int],
{
    if v == s {
        assert(back_node(es, path, v, 0) == s);
    } else {
        assert(path_link(es, dist, path, inf, v as int));
        let u = es[path[v as int] as int].from;
        lemma_back_reaches(es, path, dist, pos, n, s, inf, u);
        let k = choose|k: nat| k <= pos[u as int] && #[trigger] back_node(es, path, u, k) == s;
        lemma_back_shift(es, path, v, k);
        assert(back_node(es, path, v, k + 1) == s);
    }
}

/// Minimum-cost maximum flow solver.
pub struct Mcmf {
    inf: i64,
    shortest_path_strategy: McmfShortestPathStrategy,
    inq: Vec<bool>,
    dist: Vec<i64>,
    potential: Vec<i64>,
    path: Vec<usize>,
    edges: Vec<McmfEdge>,
    graph: Vec<Vec<usize>>,
    n: usize,
    source: usize,
    sink: usize,
    maxflow_cache: i64,
    mincost_cache: i64,
    dirty: bool,
}

impl Mcmf {
    /// The edges of the network with their flows, in insertion order; edge
    /// `2k + 1` is the reverse of edge `2k`.
    pub closed spec fn spec_arcs(&self) -> Seq<ArcView> {
        mcmf_arcs(self.edges@)
    }

    /// The cost per unit of each edge, in the same order.
    pub closed spec fn spec_costs(&self) -> Seq<int> {
        mcmf_costs(self.edges@)
    }

    /// Number of nodes; 0 before initialization.
    pub closed spec fn spec_n(&self) -> nat {
        self.n as nat
    }

    pub closed spec fn spec_source(&self) -> usize {
        self.source
    }

    pub closed spec fn spec_sink(&self) -> usize {
        self.sink
    }

    /// The distance that stands for unreachable.
    pub closed spec fn spec_inf(&self) -> i64 {
        self.inf
    }

    pub closed spec fn spec_strategy(&self) -> McmfShortestPathStrategy {
        self.shortest_path_strategy
    }

    /// The edges themselves, in insertion order.
    pub closed spec fn spec_edges(&self) -> Seq<McmfEdge> {
        self.edges@
    }

    /// The flow model and the costs are those of the edges.
    pub proof fn lemma_edges_model(&self)
        ensures
            self.spec_arcs() == mcmf_arcs(self.spec_edges()),
            self.spec_costs() == mcmf_costs(self.spec_edges()),
    {
    }

    /// Distances found by the last shortest-path search (`inf` where it did not reach).
    pub closed spec fn spec_dist(&self) -> Seq<i64> {
        self.dist@
    }

    spec fn adj(&self) -> Seq<Seq<usize>> {
        self.graph@.map_values(|a: Vec<usize>| a@)
    }

    /// The flow is computed, and no edge was added and no reset made since.
    pub closed spec fn spec_solved(&self) -> bool {
        !self.dirty
    }

    /// The totals the last computation left: the cost and value of the flow.
    pub closed spec fn spec_result(&self) -> McmfResult {
        McmfResult { mincost: self.mincost_cache, maxflow: self.maxflow_cache }
    }

    /// What the last search left in `dist` when it found no path to the sink:
    /// the reached nodes are exactly those reachable from the source along
    /// edges with remaining capacity, and the sink is not among them.
    spec fn search_settled(&self) -> bool {
        &&& forall|v: int| 0 <= v < self.n ==> #[trigger] self.dist@[v] <= self.inf
        &&& self.dist@[self.source as int] < self.inf
        &&& self.dist@[self.sink as int] == self.inf
        &&& closed(self.spec_arcs(), finite_side(self.dist@, self.n as int, self.inf))
        &&& forall|v: usize| v < self.n && self.dist@[v as int] < self.inf
            ==> #[trigger] residual_reach(self.spec_arcs(), self.source, v)
    }

    /// The solver's internal invariant.
    pub closed spec fn wf(&self) -> bool {
        &&& self.inf > 0
        &&& self.n == 0 ==> self.edges.len() == 0 && self.graph.len() == 0 && self.maxflow_cache == 0
            && self.mincost_cache == 0
        &&& self.n > 0 ==> {
            &&& self.source < self.n
            &&& self.sink < self.n
            &&& self.source != self.sink
            &&& self.n < usize::MAX
            &&& self.inq.len() == self.n
            &&& self.dist.len() == self.n
            &&& self.potential.len() == self.n
            &&& self.path.len() == self.n
            &&& adj_ok(self.spec_arcs(), self.adj(), self.n as int)
            &&& valid_flow(self.spec_arcs(), self.n as int, self.source, self.sink)
            &&& costs_paired(self.spec_costs())
            &&& self.maxflow_cache == net_out(self.spec_arcs(), self.source)
            &&& self.mincost_cache == flow_cost(self.spec_arcs(), self.spec_costs())
            &&& !self.dirty ==> self.search_settled()
        }
    }


    /// A solver with the given options and no network yet.
    pub fn with_options(options: McmfOptions) -> (r: Result<Self, McmfError>)
        ensures
            options.inf <= 0 <==> r == Err::<Self, McmfError>(McmfError::InvalidInf { inf: options.inf }),
            r is Ok <==> options.inf > 0,
            r matches Ok(m) ==> m.wf() && m.spec_n() == 0 && m.spec_arcs().len() == 0 && m.spec_inf() == options.inf
                && m.spec_edges() == Seq::<McmfEdge>::empty() && m.spec_costs() == Seq::<int>::empty()
                && m.spec_strategy() == options.shortest_path_strategy,
    {
        if options.inf <= 0 {
            return Err(McmfError::InvalidInf { inf: options.inf });
        }
        let m = Mcmf {
            inf: options.inf,
            shortest_path_strategy: options.shortest_path_strategy,
            inq: Vec::new(),
            dist: Vec::new(),
            potential: Vec::new(),
            path: Vec::new(),
            edges: Vec::new(),
            graph: Vec::new(),
            n: 0,
            source: 0,
            sink: 0,
            maxflow_cache: 0,
            mincost_cache: 0,
            dirty: true,
        };
        proof {
            assert(m.spec_arcs() =~= Seq::<ArcView>::empty());
        }
        Ok(m)
    }

    /// A solver with the default options and no network yet.
    pub fn new() -> (m: Self)
        ensures
            m.wf(),
            m.spec_n() == 0,
            m.spec_arcs().len() == 0,
            m.spec_edges() == Seq::<McmfEdge>::empty(),
            m.spec_costs() == Seq::<int>::empty(),
            m.spec_inf() == DEFAULT_INF,
            m.spec_strategy() == McmfShortestPathStrategy::Auto,
    {
        let r = Self::with_options(McmfOptions::default());
        r.unwrap()
    }

    /// Starts over with `n` nodes, no edges and no flow.
    pub fn try_init(&mut self, source: usize, sink: usize, n: usize) -> (r: Result<(), McmfError>)
        requires
            old(self).wf(),
            n < usize::MAX,
        ensures
            final(self).wf(),
            n == 0 ==> r == Err::<(), McmfError>(McmfError::InvalidNodeCount { n }),
            n > 0 && source >= n ==> r == Err::<(), McmfError>(McmfError::NodeOutOfRange { node: source, n }),
            n > 0 && source < n && sink >= n ==> r == Err::<(), McmfError>(McmfError::NodeOutOfRange { node: sink, n }),
            n > 0 && source < n && sink < n && source == sink ==> r == Err::<(), McmfError>(McmfError::SourceEqualsSink { node: source }),
            r is Err ==> *final(self) == *old(self),
            r is Ok <==> (n > 0 && source < n && sink < n && source != sink),
            r is Ok ==> final(self).spec_n() == n && final(self).spec_source() == source
                && final(self).spec_sink() == sink && final(self).spec_arcs().len() == 0,
            r is Ok ==> !final(self).spec_solved(),
            r is Ok ==> final(self).spec_edges() == Seq::<McmfEdge>::empty() && final(self).spec_costs() == Seq::<int>::empty(),
    {
        if n == 0 {
            return Err(McmfError::InvalidNodeCount { n });
        }
        if source >= n {
            return Err(McmfError::NodeOutOfRange { node: source, n });
        }
        if sink >= n {
            return Err(McmfError::NodeOutOfRange { node: sink, n });
        }
        if source == sink {
            return Err(McmfError::SourceEqualsSink { node: source });
        }
        let mut inq: Vec<bool> = Vec::new();
        let mut dist: Vec<i64> = Vec::new();
        let mut potential: Vec<i64> = Vec::new();
        let mut path: Vec<usize> = Vec::new();
        let mut graph: Vec<Vec<usize>> = Vec::new();
        let mut i: usize = 0;
        while i < n
            invariant
                i <= n,
                inq.len() == i,
                dist.len() == i,
                potential.len() == i,
                path.len() == i,
                graph.len() == i,
                forall|j: int| 0 <= j < i ==> (#[trigger] graph[j])@.len() == 0,
            decreases n - i,
        {
            inq.push(false);
            dist.push(self.inf);
            potential.push(0);
            path.push(0);
            graph.push(Vec::new());
            i += 1;
        }
        self.inq = inq;
        self.dist = dist;
        self.potential = potential;
        self.path = path;
        self.graph = graph;
        self.edges = Vec::new();
        self.n = n;
        self.source = source;
        self.sink = sink;
        self.maxflow_cache = 0;
        self.mincost_cache = 0;
        self.dirty = true;
        proof {
            let es = self.spec_arcs();
            assert(es =~= Seq::<ArcView>::empty());
            assert forall|v: usize| v < n && v != source && v != sink implies #[trigger] net_out(es, v) == 0 by {}
            assert(adj_ok(es, self.adj(), n as int));
        }
        Ok(())
    }

    /// Starts over with `n` nodes; the arguments must be valid.
    pub fn init(&mut self, source: usize, sink: usize, n: usize)
        requires
            old(self).wf(),
            0 < n < usize::MAX,
            source < n,
            sink < n,
            source != sink,
        ensures
            final(self).wf(),
            final(self).spec_n() == n,
            final(self).spec_source() == source,
            final(self).spec_sink() == sink,
            final(self).spec_arcs().len() == 0,
            !final(self).spec_solved(),
            final(self).spec_edges() == Seq::<McmfEdge>::empty(),
            final(self).spec_costs() == Seq::<int>::empty(),
    {
        let r = self.try_init(source, sink, n);
        assert(r is Ok);
    }

    /// Adds an edge of capacity `cap` from `from` to `to` (and its reverse).
    pub fn try_add_edge(&mut self, from: usize, to: usize, cap: i64, cost: i64) -> (r: Result<(), McmfError>)
        requires
            old(self).wf(),
            old(self).spec_arcs().len() + 2 <= usize::MAX,
            cost > i64::MIN,
        ensures
            final(self).wf(),
            old(self).spec_n() == 0 ==> r == Err::<(), McmfError>(McmfError::NotInitialized),
            old(self).spec_n() > 0 && from >= old(self).spec_n() ==> r == Err::<(), McmfError>(
                McmfError::NodeOutOfRange { node: from, n: old(self).spec_n() as usize }),
            old(self).spec_n() > 0 && from < old(self).spec_n() && to >= old(self).spec_n() ==> r == Err::<(), McmfError>(
                McmfError::NodeOutOfRange { node: to, n: old(self).spec_n() as usize }),
            old(self).spec_n() > 0 && from < old(self).spec_n() && to < old(self).spec_n() && cap < 0 ==> r == Err::<(), McmfError>(
                McmfError::NegativeCapacity { cap }),
            r is Err ==> *final(self) == *old(self),
            r is Ok <==> (old(self).spec_n() > 0 && from < old(self).spec_n() && to < old(self).spec_n() && cap >= 0),
            final(self).spec_n() == old(self).spec_n(),
            final(self).spec_source() == old(self).spec_source(),
            final(self).spec_sink() == old(self).spec_sink(),
            r is Ok ==> final(self).spec_arcs() == old(self).spec_arcs()
                .push(ArcView { from, to, cap: cap as int, flow: 0 })
                .push(ArcView { from: to, to: from, cap: 0, flow: 0 }),
            r is Ok ==> final(self).spec_costs() == old(self).spec_costs().push(cost as int).push(-cost),
            r is Ok ==> final(self).spec_edges() == old(self).spec_edges().push(McmfEdge { from, to, cap, flow: 0, cost })
                .push(McmfEdge { from: to, to: from, cap: 0, flow: 0, cost: (-cost) as i64 }),
            r is Err ==> final(self).spec_edges() == old(self).spec_edges(),
            r is Err ==> final(self).spec_costs() == old(self).spec_costs(),
            r is Ok ==> !final(self).spec_solved(),
    {
        if self.n == 0 {
            return Err(McmfError::NotInitialized);
        }
        if from >= self.n {
            return Err(McmfError::NodeOutOfRange { node: from, n: self.n });
        }
        if to >= self.n {
            return Err(McmfError::NodeOutOfRange { node: to, n: self.n });
        }
        if cap < 0 {
            return Err(McmfError::NegativeCapacity { cap });
        }
        let ghost es0 = self.spec_arcs();
        let ghost cs0 = self.spec_costs();
        let ghost g0 = self.adj();
        let edge_id = self.edges.len();
        self.graph[from].push(edge_id);
        self.graph[to].push(edge_id + 1);
        self.edges.push(McmfEdge { from, to, cap, flow: 0, cost });
        self.edges.push(McmfEdge { from: to, to: from, cap: 0, flow: 0, cost: -cost });
        self.dirty = true;
        proof {
            let x = ArcView { from, to, cap: cap as int, flow: 0 };
            let y = ArcView { from: to, to: from, cap: 0, flow: 0 };
            let es = self.spec_arcs();
            assert(es =~= es0.push(x).push(y));
            let cs = self.spec_costs();
            assert(cs =~= cs0.push(cost as int).push(-cost));
            lemma_flow_cost_add(es0, cs0, x, y, cost as int, -cost);
            assert forall|e: int| 0 <= e < cs.len() implies #[trigger] cs[partner(e)] == -cs[e] by {
                if e < es0.len() {
                    assert(arc_ok(es0, self.n as int, e));
                }
            }
            let g = self.adj();
            let n = self.n as int;
            assert(g.len() == n);
            assert forall|u: int, k: int| 0 <= u < n && 0 <= k < g[u].len() implies #[trigger] g[u][k] < es.len() && es[g[u][k] as int].from == u by {
                if k < g0[u].len() {
                    assert(g[u][k] == g0[u][k]);
                }
            }
            if from != to {
                assert(g =~~= g0.update(from as int, g0[from as int].push(edge_id)).update(to as int, g0[to as int].push((edge_id + 1) as usize)));
            } else {
                assert(g =~~= g0.update(from as int, g0[from as int].push(edge_id).push((edge_id + 1) as usize)));
            }
            lemma_adj_push(es0, g0, n, from, to, x, y, g);
            assert forall|e: int| 0 <= e < es.len() implies #[trigger] arc_ok(es, n, e) by {
                if e < es0.len() {
                    assert(arc_ok(es0, n, e));
                    assert(partner(e) < es0.len());
                }
            }
            assert forall|v: usize| v < n && v != self.source && v != self.sink implies #[trigger] net_out(es, v) == 0 by {
                lemma_add_pair(es0, x, y, v);
            }
            lemma_add_pair(es0, x, y, self.source);
            assert(pairs_ok(es, n));
            assert(adj_ok(es, g, n));
            assert(valid_flow(es, n, self.source, self.sink));
        }
        Ok(())
    }

    /// The largest absolute cost of an edge.
    fn max_cost_size(&self) -> (m: u64)
        ensures
            m as int == max_abs_cost(self.spec_costs()),
            m <= 9223372036854775808,
    {
        let mut m: u64 = 0;
        let mut i: usize = 0;
        while i < self.edges.len()
            invariant
                i <= self.edges.len(),
                self.spec_costs().len() == self.edges.len(),
                m as int == max_abs_cost_upto(self.spec_costs(), i as int),
                m <= 9223372036854775808,
            decreases self.edges.len() - i,
        {
            let c = self.edges[i].cost;
            proof {
                assert(self.spec_costs()[i as int] == c);
            }
            let a: u64 = if c < 0 { (-(c as i128)) as u64 } else { c as u64 };
            if a > m {
                m = a;
            }
            i += 1;
        }
        m
    }

    /// Shortest distances from the source by queue-based Bellman-Ford; no
    /// distance is set below `-(n - 1)` times the largest absolute cost.
    #[verifier::rlimit(100)]
    #[verifier::spinoff_prover]
    fn bellman_ford(&mut self) -> (r: (bool, Ghost<bool>))
        requires
            old(self).n > 0,
            old(self).n < usize::MAX,
            old(self).source < old(self).n,
            old(self).sink < old(self).n,
            old(self).inf > 0,
            old(self).dist.len() == old(self).n,
            old(self).inq.len() == old(self).n,
            old(self).path.len() == old(self).n,
            adj_ok(old(self).spec_arcs(), old(self).adj(), old(self).n as int),
            pairs_ok(old(self).spec_arcs(), old(self).n as int),
        ensures
            final(self).edges == old(self).edges,
            final(self).graph == old(self).graph,
            final(self).potential == old(self).potential,
            final(self).n == old(self).n,
            final(self).source == old(self).source,
            final(self).sink == old(self).sink,
            final(self).inf == old(self).inf,
            final(self).shortest_path_strategy == old(self).shortest_path_strategy,
            final(self).maxflow_cache == old(self).maxflow_cache,
            final(self).mincost_cache == old(self).mincost_cache,
            final(self).dirty == old(self).dirty,
            final(self).dist.len() == old(self).n,
            final(self).inq.len() == old(self).n,
            final(self).path.len() == old(self).n,
            forall|v: int| 0 <= v < old(self).n ==> #[trigger] final(self).dist@[v] <= old(self).inf,
            path_ok(final(self).spec_arcs(), final(self).dist@, final(self).path@, old(self).n as int,
                old(self).source, old(self).inf),
            r.0 == (final(self).dist@[old(self).sink as int] < old(self).inf),
            final(self).dist@[old(self).source as int] < old(self).inf,
            !r.1@ ==> closed(final(self).spec_arcs(), finite_side(final(self).dist@, old(self).n as int, old(self).inf)),
            forall|v: usize| v < old(self).n && final(self).dist@[v as int] < old(self).inf
                ==> #[trigger] residual_reach(final(self).spec_arcs(), old(self).source, v),
            !r.1@ ==> dist_feasible(final(self).spec_arcs(), final(self).spec_costs(), final(self).dist@, old(self).inf),
            path_ge(final(self).spec_arcs(), final(self).spec_costs(), final(self).dist@, final(self).path@,
                old(self).n as int, old(self).source, old(self).inf),
            exists|st: Seq<int>| #[trigger] path_ordered(final(self).spec_arcs(), final(self).spec_costs(), final(self).dist@,
                final(self).path@, st, old(self).n as int, old(self).source, old(self).inf),
            has_feasible_prices(old(self).spec_arcs(), old(self).spec_costs()) ==> final(self).dist@[old(self).source as int] == 0,
            has_feasible_prices(old(self).spec_arcs(), old(self).spec_costs())
                && mcmf_in_range(old(self).spec_costs(), old(self).n as int, old(self).inf as int) ==> !r.1@,
            forall|v: int| 0 <= v < old(self).n && #[trigger] final(self).dist@[v] < old(self).inf
                ==> -((old(self).n - 1) * max_abs_cost(old(self).spec_costs())) <= final(self).dist@[v]
                <= (old(self).n - 1) * max_abs_cost(old(self).spec_costs()),
    {
        let n = self.n;
        let inf = self.inf;
        let s = self.source;
        let ghost es = self.spec_arcs();
        let ghost g = self.adj();
        let ghost cs = self.spec_costs();
        let ghost mut lost: bool = false;
        let ghost mut stamp: Seq<int> = Seq::new(self.n as nat, |i: int| 0int);
        let ghost mut clock: int = 1;
        let ghost good = has_feasible_prices(es, cs);
        let ghost inr = mcmf_in_range(cs, n as int, inf as int);
        let ghost pr = choose|p: spec_fn(usize) -> int| feasible_prices(es, cs, p);
        let m = self.max_cost_size();
        proof {
            lemma_max_abs_cost(cs, cs.len() as int);
            assert((n - 1) * (m as int) <= 18446744073709551615int * 9223372036854775808int) by (nonlinear_arith)
                requires
                    n - 1 <= 18446744073709551615int,
                    0 <= m <= 9223372036854775808int,
                    n >= 1,
            ;
        }
        let floor: i128 = -(((n - 1) as i128) * (m as i128));
        let mut v: usize = 0;
        while v < n
            invariant
                v <= n,
                n == self.n,
                inf == self.inf,
                s == self.source,
                self.dist.len() == n,
                self.inq.len() == n,
                self.path.len() == n,
                forall|j: int| 0 <= j < v ==> #[trigger] self.dist@[j] == inf,
                forall|j: int| 0 <= j < v ==> !#[trigger] self.inq@[j],
                self.edges == old(self).edges,
                self.graph == old(self).graph,
                self.potential == old(self).potential,
                self.source == old(self).source,
                self.sink == old(self).sink,
                self.inf == old(self).inf,
                self.shortest_path_strategy == old(self).shortest_path_strategy,
                self.maxflow_cache == old(self).maxflow_cache,
                self.mincost_cache == old(self).mincost_cache,
                self.dirty == old(self).dirty,
                self.n == old(self).n,
            decreases n - v,
        {
            self.dist.set(v, inf);
            self.inq.set(v, false);
            v += 1;
        }
        let mut queue: Vec<usize> = Vec::new();
        queue.push(s);
        self.dist.set(s, 0);
        self.inq.set(s, true);
        let mut head: usize = 0;
        let ghost mut reached: int = 1;
        proof {
            let d_all = self.dist@.update(s as int, inf);
            assert forall|j: int| 0 <= j < d_all.len() implies #[trigger] d_all[j] == inf by {}
            lemma_all_unreached(d_all, inf, n as int);
            assert(self.dist@ == d_all.update(s as int, 0));
            lemma_unreached_set(d_all, inf, s as int, 0, n as int);
            assert((reached - 1) * (m as int) == 0) by (nonlinear_arith)
                requires
                    reached == 1,
            ;
            if good {
                assert(feasible_prices(es, cs, pr));
            }
            assert(queue@[0] == s);
            assert(pending(queue@, 0, s as int));
            assert forall|v: int| 0 <= v < n implies #[trigger] spfa_settled(es, g, cs, self.dist@, queue@, head as int, inf, lost, v) by {
                if v == s {
                    assert(pending(queue@, 0, v));
                }
            }
        }
        while head < queue.len()
            invariant
                n == self.n,
                inf == self.inf,
                s == self.source,
                0 < inf,
                s < n,
                self.sink < n,
                self.dist.len() == n,
                self.inq.len() == n,
                self.path.len() == n,
                es == self.spec_arcs(),
                g == self.adj(),
                adj_ok(es, g, n as int),
                pairs_ok(es, n as int),
                self.edges == old(self).edges,
                self.graph == old(self).graph,
                self.potential == old(self).potential,
                self.source == old(self).source,
                self.sink == old(self).sink,
                self.inf == old(self).inf,
                self.shortest_path_strategy == old(self).shortest_path_strategy,
                self.maxflow_cache == old(self).maxflow_cache,
                self.mincost_cache == old(self).mincost_cache,
                self.dirty == old(self).dirty,
                self.n == old(self).n,
                head <= queue.len(),
                forall|j: int| 0 <= j < queue.len() ==> #[trigger] queue@[j] < n,
                forall|j: int| head <= j < queue.len() ==> self.dist@[#[trigger] queue@[j] as int] < inf,
                forall|v: int| 0 <= v < n ==> #[trigger] self.dist@[v] <= inf,
                path_ok(es, self.dist@, self.path@, n as int, s, inf),
                self.dist@[s as int] < inf,
                forall|v: int| 0 <= v < n && #[trigger] self.inq@[v] ==> pending(queue@, head as int, v),
                forall|v: int| 0 <= v < n && #[trigger] self.dist@[v] == inf ==> !self.inq@[v],
                m as int == max_abs_cost(cs),
                forall|x: int| 0 <= x < es.len() ==> -(m as int) <= #[trigger] cs[x] <= m as int,
                floor == -((n - 1) * (m as int)),
                forall|v: int| 0 <= v < n ==> floor <= #[trigger] self.dist@[v],
                reached == n - count_unreached(self.dist@, inf, n as int),
                1 <= reached <= n,
                forall|v: int| 0 <= v < n && #[trigger] self.dist@[v] < inf ==> self.dist@[v] <= (reached - 1) * (m as int),
                good ==> self.dist@[s as int] == 0,
                good ==> feasible_prices(es, cs, pr),
                good && inr ==> !lost,
                inr == mcmf_in_range(cs, n as int, inf as int),
                good == has_feasible_prices(es, cs),
                forall|v: int| 0 <= v < n ==> #[trigger] spfa_settled(es, g, cs, self.dist@, queue@, head as int, inf, lost, v),
                forall|v: usize| v < n && self.dist@[v as int] < inf ==> #[trigger] residual_reach(es, s, v),
                cs == self.spec_costs(),
                path_ge(es, cs, self.dist@, self.path@, n as int, s, inf),
                stamp.len() == n,
                forall|v: int| 0 <= v < n ==> #[trigger] stamp[v] < clock,
                path_ordered(es, cs, self.dist@, self.path@, stamp, n as int, s, inf),
            decreases shifted_sum(self.dist@, floor as int, n as int), queue.len() - head,
        {
            proof {
                lemma_shifted_sum(self.dist@, floor as int, 0, self.dist@[0], n as int);
            }
            let u = queue[head];
            let ghost h0 = head as int;
            let ghost inq0 = self.inq@;
            head += 1;
            self.inq.set(u, false);
            proof {
                assert forall|v: int| 0 <= v < n && #[trigger] self.inq@[v] implies pending(queue@, head as int, v) by {
                    assert(inq0[v]);
                    lemma_pending_pop(queue@, h0, v);
                }
                assert forall|v: int| 0 <= v < n && v != u implies #[trigger] spfa_settled(es, g, cs, self.dist@, queue@, head as int, inf, lost, v) by {
                    assert(spfa_settled(es, g, cs, self.dist@, queue@, h0, inf, lost, v));
                    if pending(queue@, h0, v) {
                        lemma_pending_pop(queue@, h0, v);
                    }
                }
            }
            let du = self.dist[u];
            let deg = self.graph[u].len();
            let ghost b0 = shifted_sum(self.dist@, floor as int, n as int);
            let ghost reached0 = reached;
            let ghost ql0 = queue.len();
            let mut k: usize = 0;
            while k < deg
                invariant
                    n == self.n,
                    inf == self.inf,
                    s == self.source,
                    0 < inf,
                    s < n,
                    self.sink < n,
                    self.dist.len() == n,
                    self.inq.len() == n,
                    self.path.len() == n,
                    es == self.spec_arcs(),
                    g == self.adj(),
                    adj_ok(es, g, n as int),
                    pairs_ok(es, n as int),
                    self.edges == old(self).edges,
                    self.graph == old(self).graph,
                    self.potential == old(self).potential,
                    self.source == old(self).source,
                    self.sink == old(self).sink,
                    self.inf == old(self).inf,
                    self.shortest_path_strategy == old(self).shortest_path_strategy,
                    self.maxflow_cache == old(self).maxflow_cache,
                    self.mincost_cache == old(self).mincost_cache,
                    self.dirty == old(self).dirty,
                    self.n == old(self).n,
                    u < n,
                    du < inf,
                    self.dist@[u as int] <= du,
                    deg == g[u as int].len(),
                    k <= deg,
                    head <= queue.len(),
                    forall|j: int| 0 <= j < queue.len() ==> #[trigger] queue@[j] < n,
                    forall|j: int| head <= j < queue.len() ==> self.dist@[#[trigger] queue@[j] as int] < inf,
                    forall|v: int| 0 <= v < n ==> #[trigger] self.dist@[v] <= inf,
                    path_ok(es, self.dist@, self.path@, n as int, s, inf),
                    queue.len() >= ql0,
                    shifted_sum(self.dist@, floor as int, n as int) <= b0,
                    shifted_sum(self.dist@, floor as int, n as int) == b0 ==> queue.len() == ql0,
                    floor <= du <= (reached - 1) * (m as int),
                    reached0 <= reached,
                    self.dist@[s as int] < inf,
                    forall|v: int| 0 <= v < n && #[trigger] self.inq@[v] ==> pending(queue@, head as int, v),
                    forall|v: int| 0 <= v < n && #[trigger] self.dist@[v] == inf ==> !self.inq@[v],
                    m as int == max_abs_cost(cs),
                    forall|x: int| 0 <= x < es.len() ==> -(m as int) <= #[trigger] cs[x] <= m as int,
                    floor == -((n - 1) * (m as int)),
                    forall|v: int| 0 <= v < n ==> floor <= #[trigger] self.dist@[v],
                    reached == n - count_unreached(self.dist@, inf, n as int),
                    1 <= reached <= n,
                    forall|v: int| 0 <= v < n && #[trigger] self.dist@[v] < inf ==> self.dist@[v] <= (reached - 1) * (m as int),
                    good ==> self.dist@[s as int] == 0,
                    good ==> feasible_prices(es, cs, pr),
                    good && inr ==> !lost,
                    inr == mcmf_in_range(cs, n as int, inf as int),
                    good == has_feasible_prices(es, cs),
                    forall|v: int| 0 <= v < n && v != u ==> #[trigger] spfa_settled(es, g, cs, self.dist@, queue@, head as int, inf, lost, v),
                    lost || (out_closed_upto(es, g, self.dist@, inf, u as int, k as int)
                        && out_within(es, g, cs, self.dist@, u as int, k as int, du as int)),
                    self.dist@[u as int] < du ==> lost || pending(queue@, head as int, u as int),
                    forall|v: usize| v < n && self.dist@[v as int] < inf ==> #[trigger] residual_reach(es, s, v),
                    cs == self.spec_costs(),
                    path_ge(es, cs, self.dist@, self.path@, n as int, s, inf),
                    stamp.len() == n,
                    forall|v: int| 0 <= v < n ==> #[trigger] stamp[v] < clock,
                    path_ordered(es, cs, self.dist@, self.path@, stamp, n as int, s, inf),
                decreases deg - k,
            {
                let e = self.graph[u][k];
                proof {
                    assert(g[u as int][k as int] == e);
                    assert(es[e as int] == mcmf_arc(self.edges@[e as int]));
                    assert(arc_ok(es, n as int, e as int));
                }
                let to = self.edges[e].to;
                let ghost d_pre = self.dist@;
                let ghost q_pre = queue@;
                let ghost lost_pre = lost;
                proof {
                    assert(es[e as int].to == to);
                    assert(cs[e as int] == self.edges@[e as int].cost);
                }
                if self.edges[e].cap != self.edges[e].flow {
                    match du.checked_add(self.edges[e].cost) {
                        Some(cand) => {
                            if self.dist[to] > cand && (cand as i128) < floor {
                                proof {
                                    if good {
                                        lemma_relax_bound(es, cs, self.dist@, self.path@, stamp, n as int, s, inf, pr,
                                            m as int, u, e as int);
                                        assert(self.dist@[u as int] + cs[e as int] < self.dist@[to as int]);
                                        assert(-(n - 1) * (m as int) == -((n - 1) * (m as int))) by (nonlinear_arith);
                                        assert(false);
                                    }
                                    lost = true;
                                }
                            } else if self.dist[to] > cand {
                                let ghost d0 = self.dist@;
                                let ghost p0 = self.path@;
                                let ghost st_pre = stamp;
                                proof {
                                    if good {
                                        lemma_relax_bound(es, cs, d0, p0, st_pre, n as int, s, inf, pr, m as int, u, e as int);
                                    }
                                    lemma_shifted_sum(d0, floor as int, to as int, cand, n as int);
                                    lemma_unreached_set(d0, inf, to as int, cand, n as int);
                                    lemma_unreached_bounds(d0, inf, n as int);
                                }
                                self.dist.set(to, cand);
                                self.path.set(to, e);
                                proof {
                                    if d0[to as int] == inf {
                                        reached = reached + 1;
                                        assert((reached - 2) * (m as int) <= (reached - 1) * (m as int)) by (nonlinear_arith)
                                            requires
                                                m >= 0,
                                        ;
                                    }
                                    lemma_unreached_bounds(self.dist@, inf, n as int);
                                    assert forall|v: int| 0 <= v < n && #[trigger] self.dist@[v] < inf implies self.dist@[v] <= (reached - 1) * (m as int) by {
                                        if v != to {
                                            assert(d0[v] == self.dist@[v]);
                                            if d0[to as int] == inf {
                                                assert((reached - 2) * (m as int) <= (reached - 1) * (m as int)) by (nonlinear_arith)
                                                    requires
                                                        m >= 0,
                                                ;
                                            }
                                        } else {
                                            assert((reached - 2) * (m as int) + (m as int) == (reached - 1) * (m as int)) by (nonlinear_arith);
                                        }
                                    }
                                    assert(residual_reach(es, s, u));
                                    lemma_reach_step(es, s, u, e as int, to);
                                    assert forall|v: usize| v < n && self.dist@[v as int] < inf implies #[trigger] residual_reach(es, s, v) by {
                                        if v != to {
                                            assert(d0[v as int] == self.dist@[v as int]);
                                        }
                                    }
                                    assert forall|x: int| 0 <= x < n && self.dist@[x] < inf && x != s
                                        implies #[trigger] path_link(es, self.dist@, self.path@, inf, x) by {
                                        if x != to {
                                            assert(d0[x] == self.dist@[x]);
                                            assert(path_link(es, d0, p0, inf, x));
                                            assert(self.path@[x] == p0[x]);
                                            assert(arc_ok(es, n as int, p0[x] as int));
                                            let f = es[p0[x] as int].from as int;
                                            assert(self.dist@[f] <= d0[f]);
                                        } else {
                                            assert(self.path@[x] == e);
                                            assert(es[e as int].to == to);
                                            assert(residual(es, e as int) > 0);
                                            assert(es[e as int].from == u);
                                        }
                                    }
                                    assert forall|x: int| 0 <= x < n && self.dist@[x] < inf && x != s
                                        implies #[trigger] self.dist@[x] >= self.dist@[es[self.path@[x] as int].from as int]
                                            + cs[self.path@[x] as int] by {
                                        if x != to {
                                            assert(d0[x] == self.dist@[x]);
                                            assert(path_link(es, d0, p0, inf, x));
                                            assert(self.path@[x] == p0[x]);
                                            assert(d0[x] >= d0[es[p0[x] as int].from as int] + cs[p0[x] as int]);
                                            assert(arc_ok(es, n as int, p0[x] as int));
                                            let f = es[p0[x] as int].from as int;
                                            assert(self.dist@[f] <= d0[f]);
                                        } else {
                                            assert(self.path@[x] == e);
                                            assert(es[e as int].from == u);
                                        }
                                    }
                                    let st0 = stamp;
                                    stamp = stamp.update(to as int, clock);
                                    clock = clock + 1;
                                    assert forall|x: int| 0 <= x < n && self.dist@[x] < inf && x != s
                                        implies #[trigger] pred_ok(es, cs, self.dist@, self.path@, stamp, x) by {
                                        if x == to {
                                            assert(self.path@[x] == e);
                                            assert(es[e as int].from == u);
                                            if u != to {
                                                assert(stamp[u as int] == st0[u as int]);
                                            }
                                        } else {
                                            assert(path_link(es, d0, p0, inf, x));
                                            assert(self.path@[x] == p0[x]);
                                            let f = es[p0[x] as int].from as int;
                                            assert(arc_ok(es, n as int, p0[x] as int));
                                            if f == to {
                                                assert(d0[x] >= d0[f] + cs[p0[x] as int]);
                                            } else {
                                                assert(pred_ok(es, cs, d0, p0, st0, x));
                                                assert(stamp[f] == st0[f]);
                                            }
                                        }
                                    }
                                }
                                let ghost inq_mid = self.inq@;
                                if !self.inq[to] {
                                    self.inq.set(to, true);
                                    queue.push(to);
                                    proof {
                                        lemma_pending_new(q_pre, head as int, to);
                                        assert forall|v: int| 0 <= v < n && #[trigger] self.inq@[v] implies pending(queue@, head as int, v) by {
                                            if v != to {
                                                assert(inq_mid[v]);
                                                lemma_pending_push(q_pre, head as int, to, v);
                                            }
                                        }
                                    }
                                } else {
                                    proof {
                                        assert(inq_mid[to as int]);
                                        assert(pending(queue@, head as int, to as int));
                                    }
                                }
                                proof {
                                    lemma_settled_after_lower(es, g, cs, n as int, d_pre, self.dist@, q_pre, queue@, head as int,
                                        inf, lost, u as int, to as int);
                                    if !lost {
                                        lemma_out_closed_mono(es, g, n as int, d_pre, self.dist@, inf, u as int, k as int);
                                        lemma_out_closed_step(es, g, self.dist@, inf, u as int, k as int);
                                        lemma_out_within_mono(es, g, cs, n as int, d_pre, self.dist@, u as int, k as int, du as int);
                                        lemma_out_within_step(es, g, cs, self.dist@, u as int, k as int, du as int);
                                    }
                                    if to != u && self.dist@[u as int] < du && !lost_pre {
                                        lemma_pending_push(q_pre, head as int, to, u as int);
                                    }
                                }
                            } else {
                                proof {
                                    if good && inr {
                                        lemma_in_range_spfa(n as int, m as int, inf as int, reached, du as int, cs[e as int]);
                                        assert(self.dist@[to as int] != inf);
                                    }
                                    lost = lost || self.dist@[to as int] == inf;
                                    if !lost {
                                        lemma_out_closed_step(es, g, self.dist@, inf, u as int, k as int);
                                        lemma_out_within_step(es, g, cs, self.dist@, u as int, k as int, du as int);
                                    }
                                }
                            }
                        }
                        None => {
                            proof {
                                if good && inr {
                                    lemma_in_range_spfa(n as int, m as int, inf as int, reached, du as int, cs[e as int]);
                                    assert(false);
                                }
                                lost = true;
                            }
                        }
                    }
                } else {
                    proof {
                        if !lost {
                            lemma_out_closed_step(es, g, self.dist@, inf, u as int, k as int);
                            lemma_out_within_step(es, g, cs, self.dist@, u as int, k as int, du as int);
                        }
                    }
                }
                proof {
                    if self.dist@ == d_pre {
                        assert forall|v: int| 0 <= v < n && v != u implies #[trigger] spfa_settled(es, g, cs, self.dist@, queue@, head as int, inf, lost, v) by {
                            assert(spfa_settled(es, g, cs, d_pre, q_pre, head as int, inf, lost_pre, v));
                        }
                    }
                }
                k += 1;
            }
            proof {
                lemma_shifted_sum(self.dist@, floor as int, 0, self.dist@[0], n as int);
                assert forall|v: int| 0 <= v < n implies #[trigger] spfa_settled(es, g, cs, self.dist@, queue@, head as int, inf, lost, v) by {
                    if v != u {
                        assert(spfa_settled(es, g, cs, self.dist@, queue@, head as int, inf, lost, v));
                    }
                }
            }
        }
        proof {
            assert((reached - 1) * (m as int) <= (n - 1) * (m as int)) by (nonlinear_arith)
                requires
                    reached <= n,
                    m >= 0,
            ;
            assert forall|v: int| 0 <= v < n && self.dist@[v] < inf implies #[trigger] out_closed(es, g, self.dist@, inf, v) || lost by {
                assert(spfa_settled(es, g, cs, self.dist@, queue@, head as int, inf, lost, v));
            }
            if !lost {
                lemma_closed_side(es, g, self.dist@, n as int, inf);
                assert forall|v: int| 0 <= v < n && self.dist@[v] < inf
                    implies #[trigger] out_within(es, g, cs, self.dist@, v, g[v].len() as int, self.dist@[v] as int) by {
                    assert(spfa_settled(es, g, cs, self.dist@, queue@, head as int, inf, lost, v));
                }
                lemma_within_side(es, g, cs, self.dist@, n as int, inf);
            }
            assert(path_ordered(es, cs, self.dist@, self.path@, stamp, n as int, s, inf));
        }
        (self.dist[self.sink] < inf, Ghost(lost))
    }

    /// The nodes reachable from the source along edges with remaining
    /// capacity, found breadth first with no regard to cost: distance 0 for
    /// reached nodes, `inf` for the others.
    #[verifier::spinoff_prover]
    fn reach_search(&mut self) -> (found: bool)
        requires
            old(self).n > 0,
            old(self).n < usize::MAX,
            old(self).source < old(self).n,
            old(self).sink < old(self).n,
            old(self).inf > 0,
            old(self).dist.len() == old(self).n,
            old(self).path.len() == old(self).n,
            adj_ok(old(self).spec_arcs(), old(self).adj(), old(self).n as int),
            pairs_ok(old(self).spec_arcs(), old(self).n as int),
        ensures
            final(self).edges == old(self).edges,
            final(self).graph == old(self).graph,
            final(self).potential == old(self).potential,
            final(self).inq == old(self).inq,
            final(self).n == old(self).n,
            final(self).source == old(self).source,
            final(self).sink == old(self).sink,
            final(self).inf == old(self).inf,
            final(self).shortest_path_strategy == old(self).shortest_path_strategy,
            final(self).maxflow_cache == old(self).maxflow_cache,
            final(self).mincost_cache == old(self).mincost_cache,
            final(self).dirty == old(self).dirty,
            final(self).dist.len() == old(self).n,
            final(self).path.len() == old(self).n,
            forall|v: int| 0 <= v < old(self).n ==> #[trigger] final(self).dist@[v] <= old(self).inf,
            final(self).dist@[old(self).source as int] < old(self).inf,
            path_ok(final(self).spec_arcs(), final(self).dist@, final(self).path@, old(self).n as int,
                old(self).source, old(self).inf),
            closed(final(self).spec_arcs(), finite_side(final(self).dist@, old(self).n as int, old(self).inf)),
            forall|v: usize| v < old(self).n && final(self).dist@[v as int] < old(self).inf
                ==> #[trigger] residual_reach(final(self).spec_arcs(), old(self).source, v),
            found == (final(self).dist@[old(self).sink as int] < old(self).inf),
            found ==> exists|k: nat| k <= old(self).n && #[trigger] back_node(final(self).spec_arcs(),
                final(self).path@, old(self).sink, k) == old(self).source,
    {
        let n = self.n;
        let inf = self.inf;
        let s = self.source;
        let ghost es = self.spec_arcs();
        let ghost g = self.adj();
        let mut v: usize = 0;
        while v < n
            invariant
                v <= n,
                n == self.n,
                inf == self.inf,
                self.dist.len() == n,
                self.path.len() == n,
                forall|j: int| 0 <= j < v ==> #[trigger] self.dist@[j] == inf,
                self.edges == old(self).edges,
                self.graph == old(self).graph,
                self.potential == old(self).potential,
                self.inq == old(self).inq,
                self.source == old(self).source,
                self.sink == old(self).sink,
                self.inf == old(self).inf,
                self.shortest_path_strategy == old(self).shortest_path_strategy,
                self.maxflow_cache == old(self).maxflow_cache,
                self.mincost_cache == old(self).mincost_cache,
                self.dirty == old(self).dirty,
                self.n == old(self).n,
            decreases n - v,
        {
            self.dist.set(v, inf);
            v += 1;
        }
        let ghost d_all = self.dist@;
        proof {
            lemma_unreached(d_all, inf, s as int, n as int);
            assert forall|k: int| 0 <= k <= n implies count_unreached(d_all, inf, k) == k by {
                lemma_all_unreached(d_all, inf, k);
            }
        }
        self.dist.set(s, 0);
        let mut queue: Vec<usize> = Vec::new();
        queue.push(s);
        let ghost mut pos: Seq<int> = Seq::new(n as nat, |i: int| 0);
        let mut head: usize = 0;
        while head < queue.len()
            invariant
                n == self.n,
                inf == self.inf,
                s == self.source,
                0 < inf,
                s < n,
                n < usize::MAX,
                self.sink < n,
                self.dist.len() == n,
                self.path.len() == n,
                es == self.spec_arcs(),
                g == self.adj(),
                adj_ok(es, g, n as int),
                pairs_ok(es, n as int),
                self.edges == old(self).edges,
                self.graph == old(self).graph,
                self.potential == old(self).potential,
                self.inq == old(self).inq,
                self.source == old(self).source,
                self.sink == old(self).sink,
                self.inf == old(self).inf,
                self.shortest_path_strategy == old(self).shortest_path_strategy,
                self.maxflow_cache == old(self).maxflow_cache,
                self.mincost_cache == old(self).mincost_cache,
                self.dirty == old(self).dirty,
                self.n == old(self).n,
                head <= queue.len(),
                queue.len() + count_unreached(self.dist@, inf, n as int) == n,
                pos.len() == n,
                self.dist@[s as int] == 0,
                pos[s as int] == 0,
                forall|v: int| 0 <= v < n ==> #[trigger] self.dist@[v] == 0 || self.dist@[v] == inf,
                forall|j: int| 0 <= j < queue.len() ==> #[trigger] queue@[j] < n && self.dist@[queue@[j] as int] == 0
                    && pos[queue@[j] as int] == j,
                forall|v: int| 0 <= v < n && #[trigger] self.dist@[v] == 0 ==> 0 <= pos[v] < queue.len()
                    && queue@[pos[v]] == v,
                forall|w: int| 0 <= w < n && self.dist@[w] < inf && w != s ==> #[trigger] path_link(es, self.dist@, self.path@, inf, w)
                    && es[self.path@[w] as int].from < n
                    && pos[es[self.path@[w] as int].from as int] + 1 <= head
                    && pos[es[self.path@[w] as int].from as int] < pos[w],
                forall|j: int| 0 <= j < head ==> #[trigger] out_closed(es, g, self.dist@, inf, queue@[j] as int),
                forall|v: usize| v < n && self.dist@[v as int] < inf ==> #[trigger] residual_reach(es, s, v),
            decreases queue.len() - head + count_unreached(self.dist@, inf, n as int),
        {
            proof {
                lemma_unreached_bounds(self.dist@, inf, n as int);
            }
            let u = queue[head];
            let deg = self.graph[u].len();
            let mut k: usize = 0;
            while k < deg
                invariant
                    n == self.n,
                    inf == self.inf,
                    s == self.source,
                    0 < inf,
                    s < n,
                    n < usize::MAX,
                    self.sink < n,
                    self.dist.len() == n,
                    self.path.len() == n,
                    es == self.spec_arcs(),
                    g == self.adj(),
                    adj_ok(es, g, n as int),
                    pairs_ok(es, n as int),
                    self.edges == old(self).edges,
                    self.graph == old(self).graph,
                    self.potential == old(self).potential,
                    self.inq == old(self).inq,
                    self.source == old(self).source,
                    self.sink == old(self).sink,
                    self.inf == old(self).inf,
                    self.shortest_path_strategy == old(self).shortest_path_strategy,
                    self.maxflow_cache == old(self).maxflow_cache,
                    self.mincost_cache == old(self).mincost_cache,
                    self.dirty == old(self).dirty,
                    self.n == old(self).n,
                    head < queue.len(),
                    u == queue@[head as int],
                    u < n,
                    deg == g[u as int].len(),
                    k <= deg,
                    queue.len() + count_unreached(self.dist@, inf, n as int) == n,
                    pos.len() == n,
                    self.dist@[s as int] == 0,
                    pos[s as int] == 0,
                    forall|v: int| 0 <= v < n ==> #[trigger] self.dist@[v] == 0 || self.dist@[v] == inf,
                    forall|j: int| 0 <= j < queue.len() ==> #[trigger] queue@[j] < n && self.dist@[queue@[j] as int] == 0
                        && pos[queue@[j] as int] == j,
                    forall|v: int| 0 <= v < n && #[trigger] self.dist@[v] == 0 ==> 0 <= pos[v] < queue.len()
                        && queue@[pos[v]] == v,
                    forall|w: int| 0 <= w < n && self.dist@[w] < inf && w != s ==> #[trigger] path_link(es, self.dist@, self.path@, inf, w)
                        && es[self.path@[w] as int].from < n
                        && pos[es[self.path@[w] as int].from as int] <= head
                        && pos[es[self.path@[w] as int].from as int] < pos[w],
                    forall|j: int| 0 <= j < head ==> #[trigger] out_closed(es, g, self.dist@, inf, queue@[j] as int),
                    out_closed_upto(es, g, self.dist@, inf, u as int, k as int),
                    forall|v: usize| v < n && self.dist@[v as int] < inf ==> #[trigger] residual_reach(es, s, v),
                decreases deg - k,
            {
                let e = self.graph[u][k];
                proof {
                    assert(g[u as int][k as int] == e);
                    assert(es[e as int] == mcmf_arc(self.edges@[e as int]));
                    assert(arc_ok(es, n as int, e as int));
                    assert(es[e as int].from == u);
                }
                let to = self.edges[e].to;
                let ghost d0 = self.dist@;
                if self.edges[e].cap != self.edges[e].flow && self.dist[to] == inf {
                    let ghost p0 = self.path@;
                    let ghost ql = queue.len() as int;
                    proof {
                        lemma_unreached(d0, inf, to as int, n as int);
                        assert(residual_reach(es, s, u));
                        lemma_reach_step(es, s, u, e as int, to);
                    }
                    self.dist.set(to, 0);
                    self.path.set(to, e);
                    queue.push(to);
                    proof {
                        pos = pos.update(to as int, ql);
                        assert forall|j: int| 0 <= j < queue.len() implies #[trigger] queue@[j] < n && self.dist@[queue@[j] as int] == 0
                            && pos[queue@[j] as int] == j by {
                            if j < ql {
                                assert(d0[queue@[j] as int] == 0);
                            }
                        }
                        assert forall|v: int| 0 <= v < n && #[trigger] self.dist@[v] == 0 implies 0 <= pos[v] < queue.len()
                            && queue@[pos[v]] == v by {
                            if v != to {
                                assert(d0[v] == 0);
                            }
                        }
                        assert forall|w: int| 0 <= w < n && self.dist@[w] < inf && w != s implies #[trigger] path_link(es, self.dist@, self.path@, inf, w)
                            && es[self.path@[w] as int].from < n
                            && pos[es[self.path@[w] as int].from as int] <= head
                            && pos[es[self.path@[w] as int].from as int] < pos[w] by {
                            if w != to {
                                assert(d0[w] == 0);
                                assert(path_link(es, d0, p0, inf, w));
                                let f = es[p0[w] as int].from as int;
                                assert(f != to);
                            } else {
                                assert(pos[u as int] == head);
                            }
                        }
                        assert forall|j: int| 0 <= j < head implies #[trigger] out_closed(es, g, self.dist@, inf, queue@[j] as int) by {
                            assert(out_closed(es, g, d0, inf, queue@[j] as int));
                            lemma_out_closed_mono(es, g, n as int, d0, self.dist@, inf, queue@[j] as int, g[queue@[j] as int].len() as int);
                        }
                        lemma_out_closed_mono(es, g, n as int, d0, self.dist@, inf, u as int, k as int);
                        assert forall|v: usize| v < n && self.dist@[v as int] < inf implies #[trigger] residual_reach(es, s, v) by {
                            if v != to {
                                assert(d0[v as int] == self.dist@[v as int]);
                            }
                        }
                    }
                }
                proof {
                    lemma_out_closed_step(es, g, self.dist@, inf, u as int, k as int);
                }
                k += 1;
            }
            let ghost h0 = head as int;
            head += 1;
            proof {
                assert forall|w: int| 0 <= w < n && self.dist@[w] < inf && w != s implies #[trigger] path_link(es, self.dist@, self.path@, inf, w)
                    && es[self.path@[w] as int].from < n
                    && pos[es[self.path@[w] as int].from as int] + 1 <= head
                    && pos[es[self.path@[w] as int].from as int] < pos[w] by {
                    assert(path_link(es, self.dist@, self.path@, inf, w));
                    assert(pos[es[self.path@[w] as int].from as int] <= h0);
                }
                assert(forall|w: int| 0 <= w < n && self.dist@[w] < inf && w != s ==> #[trigger] path_link(es, self.dist@, self.path@, inf, w));

                assert forall|j: int| 0 <= j < head implies #[trigger] out_closed(es, g, self.dist@, inf, queue@[j] as int) by {
                    if j < h0 {
                        assert(out_closed(es, g, self.dist@, inf, queue@[j] as int));
                    }
                }
            }
        }
        proof {
            assert forall|v: int| 0 <= v < n && self.dist@[v] < inf implies #[trigger] out_closed(es, g, self.dist@, inf, v) by {
                assert(self.dist@[v] == 0);
                assert(queue@[pos[v]] == v);
            }
            lemma_closed_side(es, g, self.dist@, n as int, inf);
        }
        let found = self.dist[self.sink] < inf;
        proof {
            if found {
                lemma_unreached_bounds(self.dist@, inf, n as int);
                assert(pos[self.sink as int] < queue.len());
                lemma_back_reaches(es, self.path@, self.dist@, pos, n as int, s, inf, self.sink);
                let k = choose|k: nat| k <= pos[self.sink as int] && #[trigger] back_node(es, self.path@, self.sink, k) == s;
                assert(back_node(es, self.path@, self.sink, k) == s);
            }
        }
        found
    }

    /// Shortest distances from the source by Dijkstra's algorithm on costs
    /// reduced by the node potentials (negative reduced costs count as 0).
    #[verifier::rlimit(100)]
    #[verifier::spinoff_prover]
    fn dijkstra_with_potential(&mut self) -> (r: (bool, Ghost<bool>, Ghost<bool>))
        requires
            old(self).n < usize::MAX,
            old(self).n > 0 ==> {
                &&& old(self).source < old(self).n
                &&& old(self).sink < old(self).n
                &&& old(self).dist.len() == old(self).n
                &&& old(self).path.len() == old(self).n
                &&& old(self).potential.len() == old(self).n
                &&& adj_ok(old(self).spec_arcs(), old(self).adj(), old(self).n as int)
                &&& pairs_ok(old(self).spec_arcs(), old(self).n as int)
            },
            old(self).inf > 0,
        ensures
            final(self).edges == old(self).edges,
            final(self).graph == old(self).graph,
            final(self).potential == old(self).potential,
            final(self).inq == old(self).inq,
            final(self).n == old(self).n,
            final(self).source == old(self).source,
            final(self).sink == old(self).sink,
            final(self).inf == old(self).inf,
            final(self).shortest_path_strategy == old(self).shortest_path_strategy,
            final(self).maxflow_cache == old(self).maxflow_cache,
            final(self).mincost_cache == old(self).mincost_cache,
            final(self).dirty == old(self).dirty,
            final(self).dist.len() == old(self).dist.len(),
            final(self).path.len() == old(self).path.len(),
            old(self).n == 0 ==> !r.0,
            potential_ok(old(self).spec_arcs(), old(self).spec_costs(), old(self).potential@, old(self).source) ==> !r.2@,
            old(self).n > 0 ==> final(self).dist@[old(self).source as int] == 0,
            old(self).n > 0 && potential_ok(old(self).spec_arcs(), old(self).spec_costs(), old(self).potential@, old(self).source)
                && mcmf_in_range(old(self).spec_costs(), old(self).n as int, old(self).inf as int)
                && (forall|v: int| 0 <= v < old(self).n ==> -((old(self).n - 1) * max_abs_cost(old(self).spec_costs()))
                    <= #[trigger] old(self).potential@[v] <= (old(self).n - 1) * max_abs_cost(old(self).spec_costs()))
                ==> !r.1@,
            old(self).n > 0 ==> {
                &&& forall|v: int| 0 <= v < old(self).n ==> #[trigger] final(self).dist@[v] <= old(self).inf
                &&& path_ok(final(self).spec_arcs(), final(self).dist@, final(self).path@, old(self).n as int,
                    old(self).source, old(self).inf)
                &&& r.0 == (final(self).dist@[old(self).sink as int] < old(self).inf)
                &&& final(self).dist@[old(self).source as int] < old(self).inf
                &&& !r.1@ ==> closed(final(self).spec_arcs(), finite_side(final(self).dist@, old(self).n as int, old(self).inf))
                &&& forall|v: usize| v < old(self).n && final(self).dist@[v as int] < old(self).inf
                    ==> #[trigger] residual_reach(final(self).spec_arcs(), old(self).source, v)
                &&& !r.1@ ==> dist_feasible(final(self).spec_arcs(), reduced_weights(final(self).spec_arcs(),
                    final(self).spec_costs(), final(self).potential@), final(self).dist@, old(self).inf)
                &&& path_ge(final(self).spec_arcs(), reduced_weights(final(self).spec_arcs(), final(self).spec_costs(),
                    final(self).potential@), final(self).dist@, final(self).path@, old(self).n as int, old(self).source,
                    old(self).inf)
                &&& exists|st: Seq<int>| #[trigger] path_ordered(final(self).spec_arcs(), reduced_weights(final(self).spec_arcs(),
                    final(self).spec_costs(), final(self).potential@), final(self).dist@, final(self).path@, st,
                    old(self).n as int, old(self).source, old(self).inf)
            },
    {
        if self.n == 0 {
            return (false, Ghost(true), Ghost(false));
        }
        let n = self.n;
        let inf = self.inf;
        let s = self.source;
        let ghost es = self.spec_arcs();
        let ghost g = self.adj();
        let ghost cs = self.spec_costs();
        let ghost ws = reduced_weights(es, cs, self.potential@);
        let ghost mut lost: bool = false;
        let ghost mut clamped: bool = false;
        let ghost mut stamp: Seq<int> = Seq::new(self.n as nat, |i: int| 0int);
        let ghost mut clock: int = 1;
        let ghost mm = max_abs_cost(cs);
        let ghost hb = forall|v: int| 0 <= v < n ==> -((n - 1) * mm) <= #[trigger] self.potential@[v] <= (n - 1) * mm;
        let ghost pok = potential_ok(es, cs, self.potential@, s);
        let ghost inr = mcmf_in_range(cs, n as int, inf as int);
        let ghost wmax = (2 * n - 1) * mm;
        let ghost mut reached: int = 1;
        proof {
            lemma_max_abs_cost(cs, cs.len() as int);
            assert(wmax >= 0) by (nonlinear_arith)
                requires
                    n >= 1,
                    mm >= 0,
                    wmax == (2 * n - 1) * mm,
            ;
        }
        let mut v: usize = 0;
        while v < n
            invariant
                v <= n,
                n == self.n,
                inf == self.inf,
                self.dist.len() == n,
                forall|j: int| 0 <= j < v ==> #[trigger] self.dist@[j] == inf,
                self.edges == old(self).edges,
                self.graph == old(self).graph,
                self.potential == old(self).potential,
                self.inq == old(self).inq,
                self.path == old(self).path,
                self.source == old(self).source,
                self.sink == old(self).sink,
                self.inf == old(self).inf,
                self.shortest_path_strategy == old(self).shortest_path_strategy,
                self.maxflow_cache == old(self).maxflow_cache,
                self.mincost_cache == old(self).mincost_cache,
                self.dirty == old(self).dirty,
                self.n == old(self).n,
            decreases n - v,
        {
            self.dist.set(v, inf);
            v += 1;
        }
        let mut heap: PriorityQueue<i128> = PriorityQueue::new();
        self.dist.set(s, 0);
        proof {
            lemma_key_decode(0, s as int);
        }
        heap.enqueue(0i128 * 18446744073709551616i128 + (18446744073709551615i128 - s as i128));
        proof {
            let d_all = self.dist@.update(s as int, inf);
            assert forall|j: int| 0 <= j < d_all.len() implies #[trigger] d_all[j] == inf by {}
            lemma_all_unreached(d_all, inf, n as int);
            assert(self.dist@ == d_all.update(s as int, 0));
            lemma_unreached_set(d_all, inf, s as int, 0, n as int);
            assert((reached - 1) * wmax == 0) by (nonlinear_arith)
                requires
                    reached == 1,
            ;
            let k0: i128 = (0i128 * 18446744073709551616i128 + (18446744073709551615i128 - s as i128)) as i128;
            assert(heap@.contains(k0));
            assert(queued(heap@, 0, s as int));
            assert forall|v: int| 0 <= v < n implies #[trigger] heap_settled(es, g, ws, self.dist@, heap@, inf, lost, v) by {
                if v == s {
                    assert(queued(heap@, 0, s as int));
                }
            }
        }
        loop
            invariant
                n == self.n,
                inf == self.inf,
                s == self.source,
                0 < inf,
                s < n,
                n < usize::MAX,
                self.sink < n,
                self.dist.len() == n,
                self.path.len() == n,
                self.potential.len() == n,
                es == self.spec_arcs(),
                g == self.adj(),
                adj_ok(es, g, n as int),
                pairs_ok(es, n as int),
                self.edges == old(self).edges,
                self.graph == old(self).graph,
                self.potential == old(self).potential,
                self.inq == old(self).inq,
                self.source == old(self).source,
                self.sink == old(self).sink,
                self.inf == old(self).inf,
                self.shortest_path_strategy == old(self).shortest_path_strategy,
                self.maxflow_cache == old(self).maxflow_cache,
                self.mincost_cache == old(self).mincost_cache,
                self.dirty == old(self).dirty,
                self.n == old(self).n,
                heap.wf(),
                forall|key: i128| #[trigger] heap@.contains(key) ==> exists|d: int, u: int|
                    0 <= d < inf && 0 <= u < n && key == heap_key(d, u),
                forall|v: int| 0 <= v < n ==> 0 <= #[trigger] self.dist@[v] <= inf,
                path_ok(es, self.dist@, self.path@, n as int, s, inf),
                self.dist@[s as int] < inf,
                forall|v: int| 0 <= v < n ==> #[trigger] heap_settled(es, g, ws, self.dist@, heap@, inf, lost, v),
                forall|v: usize| v < n && self.dist@[v as int] < inf ==> #[trigger] residual_reach(es, s, v),
                ws == reduced_weights(es, cs, self.potential@),
                cs == self.spec_costs(),
                path_ge(es, ws, self.dist@, self.path@, n as int, s, inf),
                stamp.len() == n,
                forall|v: int| 0 <= v < n ==> #[trigger] stamp[v] < clock,
                path_ordered(es, ws, self.dist@, self.path@, stamp, n as int, s, inf),
                potential_ok(es, cs, self.potential@, s) ==> !clamped,
                self.dist@[s as int] == 0,
                mm == max_abs_cost(cs),
                forall|x: int| 0 <= x < es.len() ==> -mm <= #[trigger] cs[x] <= mm,
                hb ==> (forall|v: int| 0 <= v < n ==> -((n - 1) * mm) <= #[trigger] self.potential@[v] <= (n - 1) * mm),
                pok ==> potential_ok(es, cs, self.potential@, s),
                inr ==> mcmf_in_range(cs, n as int, inf as int),
                wmax == (2 * n - 1) * mm,
                wmax >= 0,
                reached == n - count_unreached(self.dist@, inf, n as int),
                1 <= reached <= n,
                hb ==> forall|v: int| 0 <= v < n && #[trigger] self.dist@[v] < inf ==> self.dist@[v] <= (reached - 1) * wmax,
                pok && hb && inr ==> !lost,
            ensures
                forall|v: int| 0 <= v < n && self.dist@[v] < inf ==> lost || #[trigger] out_closed(es, g, self.dist@, inf, v),
                forall|v: int| 0 <= v < n && self.dist@[v] < inf ==> lost
                    || #[trigger] out_within(es, g, ws, self.dist@, v, g[v].len() as int, self.dist@[v] as int),
            decreases dist_sum(self.dist@, n as int), heap@.len(),
        {
            proof {
                lemma_dist_sum(self.dist@, 0, self.dist@[0], n as int);
            }
            let ghost h0 = heap@;
            let popped = heap.dequeue();
            let key = match popped {
                None => {
                    proof {
                        assert forall|v: int| 0 <= v < n && self.dist@[v] < inf implies lost || (#[trigger] out_closed(es, g, self.dist@, inf, v)
                            && out_within(es, g, ws, self.dist@, v, g[v].len() as int, self.dist@[v] as int)) by {
                            assert(heap_settled(es, g, ws, self.dist@, heap@, inf, lost, v));
                            if queued(heap@, self.dist@[v] as int, v) {
                                let k1 = choose|k1: i128| heap@.contains(k1) && k1 == heap_key(self.dist@[v] as int, v);
                                assert(h0.count(k1) > 0);
                            }
                        }
                        assert forall|v: int| 0 <= v < n && self.dist@[v] < inf implies lost
                            || #[trigger] out_within(es, g, ws, self.dist@, v, g[v].len() as int, self.dist@[v] as int) by {
                            assert(lost || (out_closed(es, g, self.dist@, inf, v)
                                && out_within(es, g, ws, self.dist@, v, g[v].len() as int, self.dist@[v] as int)));
                        }
                    }
                    break;
                },
                Some(key) => key,
            };
            proof {
                assert forall|key2: i128| #[trigger] heap@.contains(key2) implies exists|d: int, u2: int|
                    0 <= d < inf && 0 <= u2 < n && key2 == heap_key(d, u2) by {
                    assert(h0.remove(key).count(key2) <= h0.count(key2));
                    assert(h0.contains(key2));
                }
                assert(heap@.len() == h0.len() - 1);
            }
            let ghost (d0, u0) = choose|d: int, u: int| 0 <= d < inf && 0 <= u < n && key == heap_key(d, u);
            proof {
                lemma_key_decode(d0, u0);
                lemma_heap_pop(es, g, ws, n as int, self.dist@, h0, key, d0, u0, inf, lost);
            }
            let du = (key / 18446744073709551616i128) as i64;
            let u = (18446744073709551615i128 - key % 18446744073709551616i128) as usize;
            if du != self.dist[u] {
                proof {
                    assert forall|v: int| 0 <= v < n implies #[trigger] heap_settled(es, g, ws, self.dist@, heap@, inf, lost, v) by {
                        assert(!(v == u0 && self.dist@[v] == d0));
                    }
                }
                continue;
            }
            let ghost sum0 = dist_sum(self.dist@, n as int);
            let ghost len0 = heap@.len();
            let ghost reached0 = reached;
            let deg = self.graph[u].len();
            let mut k: usize = 0;
            while k < deg
                invariant
                    n == self.n,
                    inf == self.inf,
                    s == self.source,
                    0 < inf,
                    s < n,
                    n < usize::MAX,
                    self.sink < n,
                    self.dist.len() == n,
                    self.path.len() == n,
                    self.potential.len() == n,
                    es == self.spec_arcs(),
                    g == self.adj(),
                    adj_ok(es, g, n as int),
                    pairs_ok(es, n as int),
                    self.edges == old(self).edges,
                    self.graph == old(self).graph,
                    self.potential == old(self).potential,
                    self.inq == old(self).inq,
                    self.source == old(self).source,
                    self.sink == old(self).sink,
                    self.inf == old(self).inf,
                    self.shortest_path_strategy == old(self).shortest_path_strategy,
                    self.maxflow_cache == old(self).maxflow_cache,
                    self.mincost_cache == old(self).mincost_cache,
                    self.dirty == old(self).dirty,
                    self.n == old(self).n,
                    heap.wf(),
                    forall|key: i128| #[trigger] heap@.contains(key) ==> exists|d: int, u: int|
                        0 <= d < inf && 0 <= u < n && key == heap_key(d, u),
                    forall|v: int| 0 <= v < n ==> 0 <= #[trigger] self.dist@[v] <= inf,
                    path_ok(es, self.dist@, self.path@, n as int, s, inf),
                    u < n,
                    0 <= du < inf,
                    self.dist@[u as int] <= du,
                    deg == g[u as int].len(),
                    k <= deg,
                    dist_sum(self.dist@, n as int) <= sum0,
                    dist_sum(self.dist@, n as int) == sum0 ==> heap@.len() <= len0,
                    self.dist@[s as int] < inf,
                    forall|v: int| 0 <= v < n && v != u ==> #[trigger] heap_settled(es, g, ws, self.dist@, heap@, inf, lost, v),
                    lost || (out_closed_upto(es, g, self.dist@, inf, u as int, k as int)
                        && out_within(es, g, ws, self.dist@, u as int, k as int, du as int)),
                    self.dist@[u as int] == du,
                    forall|v: usize| v < n && self.dist@[v as int] < inf ==> #[trigger] residual_reach(es, s, v),
                    ws == reduced_weights(es, cs, self.potential@),
                    cs == self.spec_costs(),
                    path_ge(es, ws, self.dist@, self.path@, n as int, s, inf),
                    stamp.len() == n,
                    forall|v: int| 0 <= v < n ==> #[trigger] stamp[v] < clock,
                    path_ordered(es, ws, self.dist@, self.path@, stamp, n as int, s, inf),
                    potential_ok(es, cs, self.potential@, s) ==> !clamped,
                    self.dist@[s as int] == 0,
                    mm == max_abs_cost(cs),
                    forall|x: int| 0 <= x < es.len() ==> -mm <= #[trigger] cs[x] <= mm,
                    hb ==> (forall|v: int| 0 <= v < n ==> -((n - 1) * mm) <= #[trigger] self.potential@[v] <= (n - 1) * mm),
                    pok ==> potential_ok(es, cs, self.potential@, s),
                    inr ==> mcmf_in_range(cs, n as int, inf as int),
                    wmax == (2 * n - 1) * mm,
                    wmax >= 0,
                    reached == n - count_unreached(self.dist@, inf, n as int),
                    1 <= reached <= n,
                    reached0 <= reached,
                    hb ==> forall|v: int| 0 <= v < n && #[trigger] self.dist@[v] < inf ==> self.dist@[v] <= (reached - 1) * wmax,
                    hb ==> du <= (reached - 1) * wmax,
                    pok && hb && inr ==> !lost,
                decreases deg - k,
            {
                let e = self.graph[u][k];
                proof {
                    assert(g[u as int][k as int] == e);
                    assert(es[e as int] == mcmf_arc(self.edges@[e as int]));
                    assert(arc_ok(es, n as int, e as int));
                }
                let to = self.edges[e].to;
                let ghost d_pre = self.dist@;
                let ghost heap_pre = heap@;
                let ghost lost_pre = lost;
                proof {
                    assert(es[e as int].to == to);
                }
                if self.edges[e].cap != self.edges[e].flow {
                    let raw = self.edges[e].cost as i128 + self.potential[u] as i128 - self.potential[to] as i128;
                    proof {
                        assert(cs[e as int] == self.edges@[e as int].cost);
                        assert(es[e as int].from == u);
                        assert(ws[e as int] == raw);
                        if raw < 0 {
                            assert(residual(es, e as int) > 0);
                            assert(residual_reach(es, s, u));
                            lost = true;
                            clamped = true;
                        }
                    }
                    let reduced = if raw < 0 { 0 } else { raw };
                    let candidate = du as i128 + reduced;
                    proof {
                        assert(arc_ok(es, n as int, e as int));
                        if hb {
                            assert(-((n - 1) * mm) <= self.potential@[u as int] <= (n - 1) * mm);
                            assert(-((n - 1) * mm) <= self.potential@[to as int] <= (n - 1) * mm);
                            assert(mm + (n - 1) * mm + (n - 1) * mm == wmax) by (nonlinear_arith)
                                requires
                                    wmax == (2 * n - 1) * mm,
                            ;
                            assert(reduced <= wmax);
                            assert((reached - 1) * wmax + wmax == reached * wmax) by (nonlinear_arith);
                            if inr {
                                lemma_in_range_dij(n as int, mm, inf as int, reached, du as int, reduced as int, wmax);
                            }
                        }
                    }
                    if candidate <= i64::MAX as i128 {
                        let cand = candidate as i64;
                        if self.dist[to] > cand {
                            let ghost d_before = self.dist@;
                            let ghost p_before = self.path@;
                            proof {
                                lemma_dist_sum(d_before, to as int, cand, n as int);
                                lemma_unreached_set(d_before, inf, to as int, cand, n as int);
                                lemma_key_decode(cand as int, to as int);
                            }
                            self.dist.set(to, cand);
                            self.path.set(to, e);
                            proof {
                                lemma_unreached_bounds(self.dist@, inf, n as int);
                                if d_before[to as int] == inf {
                                    reached = reached + 1;
                                    assert((reached - 2) * wmax <= (reached - 1) * wmax) by (nonlinear_arith)
                                        requires
                                            wmax >= 0,
                                    ;
                                }
                                if hb {
                                    assert((reached0 - 1) * wmax <= (reached - 1) * wmax) by (nonlinear_arith)
                                        requires
                                            wmax >= 0,
                                            reached0 <= reached,
                                    ;
                                    assert forall|v: int| 0 <= v < n && #[trigger] self.dist@[v] < inf implies self.dist@[v] <= (reached - 1) * wmax by {
                                        if v != to {
                                            assert(d_before[v] == self.dist@[v]);
                                        }
                                    }
                                }
                                assert(residual_reach(es, s, u));
                                lemma_reach_step(es, s, u, e as int, to);
                                assert forall|v: usize| v < n && self.dist@[v as int] < inf implies #[trigger] residual_reach(es, s, v) by {
                                    if v != to {
                                        assert(d_before[v as int] == self.dist@[v as int]);
                                    }
                                }
                            }
                            let newkey = (cand as i128) * 18446744073709551616i128 + (18446744073709551615i128 - to as i128);
                            let ghost heap0 = heap@;
                            heap.enqueue(newkey);
                            proof {
                                assert forall|key2: i128| #[trigger] heap@.contains(key2) implies exists|d: int, u2: int|
                                    0 <= d < inf && 0 <= u2 < n && key2 == heap_key(d, u2) by {
                                    if key2 != newkey {
                                        assert(heap0.contains(key2));
                                    } else {
                                        assert(key2 == heap_key(cand as int, to as int));
                                    }
                                }
                                assert forall|x: int| 0 <= x < n && self.dist@[x] < inf && x != s
                                    implies #[trigger] path_link(es, self.dist@, self.path@, inf, x) by {
                                    if x != to {
                                        assert(d_before[x] == self.dist@[x]);
                                        assert(path_link(es, d_before, p_before, inf, x));
                                        assert(self.path@[x] == p_before[x]);
                                        assert(arc_ok(es, n as int, p_before[x] as int));
                                        let f = es[p_before[x] as int].from as int;
                                        assert(self.dist@[f] <= d_before[f]);
                                    } else {
                                        assert(self.path@[x] == e);
                                        assert(es[e as int].from == u);
                                    }
                                }
                                assert forall|x: int| 0 <= x < n && self.dist@[x] < inf && x != s
                                    implies #[trigger] self.dist@[x] >= self.dist@[es[self.path@[x] as int].from as int]
                                        + ws[self.path@[x] as int] by {
                                    if x != to {
                                        assert(d_before[x] == self.dist@[x]);
                                        assert(path_link(es, d_before, p_before, inf, x));
                                        assert(self.path@[x] == p_before[x]);
                                        assert(d_before[x] >= d_before[es[p_before[x] as int].from as int] + ws[p_before[x] as int]);
                                        assert(arc_ok(es, n as int, p_before[x] as int));
                                        let f = es[p_before[x] as int].from as int;
                                        assert(self.dist@[f] <= d_before[f]);
                                    } else {
                                        assert(self.path@[x] == e);
                                        assert(es[e as int].from == u);
                                    }
                                }
                                let st0 = stamp;
                                stamp = stamp.update(to as int, clock);
                                clock = clock + 1;
                                assert forall|x: int| 0 <= x < n && self.dist@[x] < inf && x != s
                                    implies #[trigger] pred_ok(es, ws, self.dist@, self.path@, stamp, x) by {
                                    if x == to {
                                        assert(self.path@[x] == e);
                                        assert(es[e as int].from == u);
                                        assert(u != to);
                                        assert(stamp[u as int] == st0[u as int]);
                                    } else {
                                        assert(path_link(es, d_before, p_before, inf, x));
                                        assert(self.path@[x] == p_before[x]);
                                        let f = es[p_before[x] as int].from as int;
                                        assert(arc_ok(es, n as int, p_before[x] as int));
                                        if f == to {
                                            assert(d_before[x] >= d_before[f] + ws[p_before[x] as int]);
                                        } else {
                                            assert(pred_ok(es, ws, d_before, p_before, st0, x));
                                            assert(stamp[f] == st0[f]);
                                        }
                                    }
                                }
                                lemma_heap_lower(es, g, ws, n as int, d_before, self.dist@, heap0, newkey, inf, lost,
                                    u as int, to as int);
                                if !lost {
                                    lemma_out_closed_mono(es, g, n as int, d_before, self.dist@, inf, u as int, k as int);
                                    lemma_out_closed_step(es, g, self.dist@, inf, u as int, k as int);
                                    lemma_out_within_mono(es, g, ws, n as int, d_before, self.dist@, u as int, k as int, du as int);
                                    lemma_out_within_step(es, g, ws, self.dist@, u as int, k as int, du as int);
                                }
                            }
                        } else {
                            proof {
                                lost = lost || self.dist@[to as int] == inf;
                                if !lost {
                                    lemma_out_closed_step(es, g, self.dist@, inf, u as int, k as int);
                                    lemma_out_within_step(es, g, ws, self.dist@, u as int, k as int, du as int);
                                }
                            }
                        }
                    } else {
                        proof {
                            lost = lost || self.dist@[to as int] == inf;
                            if !lost {
                                lemma_out_closed_step(es, g, self.dist@, inf, u as int, k as int);
                                lemma_out_within_step(es, g, ws, self.dist@, u as int, k as int, du as int);
                            }
                        }
                    }
                } else {
                    proof {
                        if !lost {
                            lemma_out_closed_step(es, g, self.dist@, inf, u as int, k as int);
                            lemma_out_within_step(es, g, ws, self.dist@, u as int, k as int, du as int);
                        }
                    }
                }
                proof {
                    if self.dist@ == d_pre {
                        assert forall|v: int| 0 <= v < n && v != u implies #[trigger] heap_settled(es, g, ws, self.dist@, heap@, inf, lost, v) by {
                            assert(heap_settled(es, g, ws, d_pre, heap_pre, inf, lost_pre, v));
                        }
                    }
                }
                k += 1;
            }
            proof {
                lemma_dist_sum(self.dist@, 0, self.dist@[0], n as int);
                assert forall|v: int| 0 <= v < n implies #[trigger] heap_settled(es, g, ws, self.dist@, heap@, inf, lost, v) by {
                    if v != u {
                        assert(heap_settled(es, g, ws, self.dist@, heap@, inf, lost, v));
                    }
                }
            }
        }
        proof {
            if !lost {
                lemma_closed_side(es, g, self.dist@, n as int, inf);
                lemma_within_side(es, g, ws, self.dist@, n as int, inf);
            }
            assert(path_ordered(es, ws, self.dist@, self.path@, stamp, n as int, s, inf));
        }
        (self.dist[self.sink] < inf, Ghost(lost), Ghost(clamped))
    }

    /// Potentials: distances of a Bellman-Ford search, 0 where it did not reach.
    fn initialize_potential_with_spfa(&mut self) -> (lost: Ghost<bool>)
        requires
            old(self).n > 0,
            old(self).n < usize::MAX,
            old(self).source < old(self).n,
            old(self).sink < old(self).n,
            old(self).inf > 0,
            old(self).dist.len() == old(self).n,
            old(self).inq.len() == old(self).n,
            old(self).path.len() == old(self).n,
            old(self).potential.len() == old(self).n,
            adj_ok(old(self).spec_arcs(), old(self).adj(), old(self).n as int),
            pairs_ok(old(self).spec_arcs(), old(self).n as int),
        ensures
            final(self).edges == old(self).edges,
            final(self).graph == old(self).graph,
            final(self).n == old(self).n,
            final(self).source == old(self).source,
            final(self).sink == old(self).sink,
            final(self).inf == old(self).inf,
            final(self).shortest_path_strategy == old(self).shortest_path_strategy,
            final(self).maxflow_cache == old(self).maxflow_cache,
            final(self).mincost_cache == old(self).mincost_cache,
            final(self).dirty == old(self).dirty,
            final(self).dist.len() == old(self).n,
            final(self).inq.len() == old(self).n,
            final(self).path.len() == old(self).n,
            final(self).potential.len() == old(self).n,
            forall|v: int| 0 <= v < old(self).n ==> #[trigger] final(self).potential@[v] == if final(self).dist@[v]
                != old(self).inf { final(self).dist@[v] } else { 0 },
            final(self).dist@[old(self).source as int] < old(self).inf,
            forall|v: usize| v < old(self).n && final(self).dist@[v as int] < old(self).inf
                ==> #[trigger] residual_reach(final(self).spec_arcs(), old(self).source, v),
            path_ok(final(self).spec_arcs(), final(self).dist@, final(self).path@, old(self).n as int,
                old(self).source, old(self).inf),
            !lost@ ==> potential_ok(final(self).spec_arcs(), final(self).spec_costs(), final(self).potential@,
                old(self).source),
            has_feasible_prices(old(self).spec_arcs(), old(self).spec_costs())
                && mcmf_in_range(old(self).spec_costs(), old(self).n as int, old(self).inf as int) ==> !lost@,
            has_feasible_prices(old(self).spec_arcs(), old(self).spec_costs())
                ==> final(self).potential@[old(self).source as int] == 0,
            forall|v: int| 0 <= v < old(self).n ==> -((old(self).n - 1) * max_abs_cost(old(self).spec_costs()))
                <= #[trigger] final(self).potential@[v] <= (old(self).n - 1) * max_abs_cost(old(self).spec_costs()),
    {
        let n = self.n;
        let mut v: usize = 0;
        while v < n
            invariant
                v <= n,
                n == self.n,
                self.potential.len() == n,
                self.edges == old(self).edges,
                self.graph == old(self).graph,
                self.dist == old(self).dist,
                self.inq == old(self).inq,
                self.path == old(self).path,
                self.source == old(self).source,
                self.sink == old(self).sink,
                self.inf == old(self).inf,
                self.shortest_path_strategy == old(self).shortest_path_strategy,
                self.maxflow_cache == old(self).maxflow_cache,
                self.mincost_cache == old(self).mincost_cache,
                self.dirty == old(self).dirty,
                self.n == old(self).n,
                forall|j: int| 0 <= j < v ==> #[trigger] self.potential@[j] == 0,
            decreases n - v,
        {
            self.potential.set(v, 0);
            v += 1;
        }
        let (_, lost) = self.bellman_ford();
        let ghost d = self.dist@;
        let ghost pth = self.path@;
        let mut v: usize = 0;
        while v < n
            invariant
                v <= n,
                n == self.n,
                self.potential.len() == n,
                self.dist.len() == n,
                self.edges == old(self).edges,
                self.graph == old(self).graph,
                self.inq.len() == n,
                self.path.len() == n,
                self.source == old(self).source,
                self.sink == old(self).sink,
                self.inf == old(self).inf,
                self.shortest_path_strategy == old(self).shortest_path_strategy,
                self.maxflow_cache == old(self).maxflow_cache,
                self.mincost_cache == old(self).mincost_cache,
                self.dirty == old(self).dirty,
                self.n == old(self).n,
                self.dist@ == d,
                self.path@ == pth,
                forall|j: int| v <= j < n ==> #[trigger] self.potential@[j] == 0,
                forall|j: int| 0 <= j < v ==> #[trigger] self.potential@[j] == if d[j] != self.inf { d[j] } else { 0 },
            decreases n - v,
        {
            if self.dist[v] != self.inf {
                let d = self.dist[v];
                self.potential.set(v, d);
            }
            v += 1;
        }
        proof {
            lemma_max_abs_cost(self.spec_costs(), self.spec_costs().len() as int);
            assert((n - 1) * max_abs_cost(self.spec_costs()) >= 0) by (nonlinear_arith)
                requires
                    n >= 1,
                    max_abs_cost(self.spec_costs()) >= 0,
            ;
            assert forall|v: int| 0 <= v < n implies -((n - 1) * max_abs_cost(self.spec_costs()))
                <= #[trigger] self.potential@[v] <= (n - 1) * max_abs_cost(self.spec_costs()) by {
                if d[v] != self.inf {
                    assert(d[v] <= self.inf);
                }
            }
            if !lost@ {
                let es = self.spec_arcs();
                let cs = self.spec_costs();
                let fin = finite_side(d, n as int, self.inf);
                assert forall|e: int| 0 <= e < es.len() && residual(es, e) > 0 && #[trigger] residual_reach(es, self.source, es[e].from)
                    implies cs[e] + self.potential@[es[e].from as int] - self.potential@[es[e].to as int] >= 0 by {
                    assert(arc_ok(es, n as int, e));
                    lemma_reach_in_side(es, self.source, fin, es[e].from);
                    assert(fin(es[e].to));
                }
            }
        }
        lost
    }

    /// Adds the last distances to the potentials of the reached nodes.
    fn update_potential_from_dist(&mut self)
        requires
            old(self).dist.len() == old(self).n,
            old(self).potential.len() == old(self).n,
        ensures
            final(self).edges == old(self).edges,
            final(self).graph == old(self).graph,
            final(self).dist == old(self).dist,
            final(self).inq == old(self).inq,
            final(self).path == old(self).path,
            final(self).n == old(self).n,
            final(self).source == old(self).source,
            final(self).sink == old(self).sink,
            final(self).inf == old(self).inf,
            final(self).shortest_path_strategy == old(self).shortest_path_strategy,
            final(self).maxflow_cache == old(self).maxflow_cache,
            final(self).mincost_cache == old(self).mincost_cache,
            final(self).dirty == old(self).dirty,
            final(self).potential.len() == old(self).n,
            forall|v: int| 0 <= v < old(self).n ==> #[trigger] final(self).potential@[v] == if old(self).dist@[v]
                != old(self).inf { clamp_i64(old(self).potential@[v] + old(self).dist@[v]) } else {
                old(self).potential@[v] as int },
    {
        let n = self.n;
        let mut v: usize = 0;
        while v < n
            invariant
                v <= n,
                n == self.n,
                self.potential.len() == n,
                self.dist.len() == n,
                self.edges == old(self).edges,
                self.graph == old(self).graph,
                self.dist == old(self).dist,
                self.inq == old(self).inq,
                self.path == old(self).path,
                self.source == old(self).source,
                self.sink == old(self).sink,
                self.inf == old(self).inf,
                self.shortest_path_strategy == old(self).shortest_path_strategy,
                self.maxflow_cache == old(self).maxflow_cache,
                self.mincost_cache == old(self).mincost_cache,
                self.dirty == old(self).dirty,
                self.n == old(self).n,
                forall|j: int| v <= j < n ==> #[trigger] self.potential@[j] == old(self).potential@[j],
                forall|j: int| 0 <= j < v ==> #[trigger] self.potential@[j] == if old(self).dist@[j]
                    != old(self).inf { clamp_i64(old(self).potential@[j] + old(self).dist@[j]) } else {
                    old(self).potential@[j] as int },
            decreases n - v,
        {
            if self.dist[v] != self.inf {
                let updated = self.potential[v] as i128 + self.dist[v] as i128;
                let clamped = if updated < i64::MIN as i128 {
                    i64::MIN
                } else if updated > i64::MAX as i128 {
                    i64::MAX
                } else {
                    updated as i64
                };
                self.potential.set(v, clamped);
            }
            v += 1;
        }
    }

    /// The strategy is Dijkstra on reduced costs.
    fn uses_potentials(&self) -> (b: bool)
        ensures
            b == (self.shortest_path_strategy == McmfShortestPathStrategy::Auto),
    {
        match self.shortest_path_strategy {
            McmfShortestPathStrategy::Auto => true,
            McmfShortestPathStrategy::Spfa => false,
        }
    }

    /// Pushes the bottleneck capacity along the recorded path back from the
    /// sink; `None` when that path does not lead to the source within `n` steps.
    fn augment_by_path(&mut self) -> (r: Option<(i64, i128)>)
        requires
            old(self).n > 0,
            old(self).n < usize::MAX,
            old(self).source < old(self).n,
            old(self).sink < old(self).n,
            old(self).source != old(self).sink,
            old(self).inf > 0,
            old(self).dist.len() == old(self).n,
            old(self).path.len() == old(self).n,
            pairs_ok(old(self).spec_arcs(), old(self).n as int),
            costs_paired(old(self).spec_costs()),
            path_ok(old(self).spec_arcs(), old(self).dist@, old(self).path@, old(self).n as int, old(self).source,
                old(self).inf),
            old(self).dist@[old(self).sink as int] < old(self).inf,
        ensures
            final(self).graph == old(self).graph,
            final(self).dist == old(self).dist,
            final(self).inq == old(self).inq,
            final(self).path == old(self).path,
            final(self).potential == old(self).potential,
            final(self).n == old(self).n,
            final(self).source == old(self).source,
            final(self).sink == old(self).sink,
            final(self).inf == old(self).inf,
            final(self).shortest_path_strategy == old(self).shortest_path_strategy,
            final(self).maxflow_cache == old(self).maxflow_cache,
            final(self).mincost_cache == old(self).mincost_cache,
            final(self).dirty == old(self).dirty,
            final(self).spec_costs() == old(self).spec_costs(),
            same_network(old(self).spec_arcs(), final(self).spec_arcs()),
            pairs_ok(final(self).spec_arcs(), old(self).n as int),
            r is None ==> final(self).spec_arcs() == old(self).spec_arcs(),
            lowered_on_path(old(self).spec_arcs(), final(self).spec_arcs(), old(self).dist@, old(self).path@,
                old(self).n as int, old(self).source, old(self).inf),
            r is None <==> forall|k: nat| k <= old(self).n ==> #[trigger] back_node(old(self).spec_arcs(),
                old(self).path@, old(self).sink, k) != old(self).source,
            r matches Some(x) ==> exists|k: nat| k <= old(self).n
                && #[trigger] back_node(old(self).spec_arcs(), old(self).path@, old(self).sink, k) == old(self).source
                && (forall|j: nat| j < k ==> back_node(old(self).spec_arcs(), old(self).path@, old(self).sink, j)
                    != old(self).source)
                && x.0 == bottleneck(old(self).spec_arcs(), old(self).path@, old(self).sink, k, old(self).inf as int),
            r matches Some(x) ==> 1 <= x.0 <= old(self).inf
                && (forall|v: usize| #[trigger] net_out(final(self).spec_arcs(), v) == net_out(old(self).spec_arcs(), v)
                    + (if v == old(self).source { x.0 as int } else if v == old(self).sink { -x.0 } else { 0 }))
                && flow_cost(final(self).spec_arcs(), final(self).spec_costs())
                    == flow_cost(old(self).spec_arcs(), old(self).spec_costs()) + x.0 * x.1,
    {
        let n = self.n;
        let s = self.source;
        let t = self.sink;
        let inf = self.inf;
        let ghost es0 = self.spec_arcs();
        let ghost cs = self.spec_costs();
        let ghost path = self.path@;
        let ghost dist = self.dist@;
        let mut mif = self.inf;
        let mut o = self.sink;
        let mut steps: usize = 0;
        let ghost mut walk: Seq<usize> = seq![t];
        while o != self.source && steps < n
            invariant
                n == self.n,
                s == self.source,
                t == self.sink,
                inf == self.inf,
                es0 == self.spec_arcs(),
                path == self.path@,
                dist == self.dist@,
                self.path.len() == n,
                self.dist.len() == n,
                pairs_ok(es0, n as int),
                path_ok(es0, dist, path, n as int, s, inf),
                walk.len() == steps + 1,
                walk[0] == t,
                walk.last() == o,
                o < n,
                forall|i: int| 0 <= i < walk.len() ==> #[trigger] walk[i] < n,
                dist[o as int] < inf,
                steps <= n,
                1 <= mif <= inf,
                forall|i: int| 0 <= i < steps ==> #[trigger] walk[i] != s,
                forall|i: int| 0 <= i < steps ==> #[trigger] walk_step(es0, path, walk, i),
                forall|i: int| 0 <= i < steps ==> #[trigger] path_link(es0, dist, path, inf, walk[i] as int),
                forall|i: int| 0 <= i < steps ==> mif <= #[trigger] residual(es0, path[walk[i] as int] as int),
                forall|i: int| 0 <= i <= steps ==> #[trigger] walk[i] == back_node(es0, path, t, i as nat),
                mif == bottleneck(es0, path, t, steps as nat, inf as int),
            decreases n - steps,
        {
            proof {
                assert(path_link(es0, dist, path, inf, o as int));
            }
            let e = self.path[o];
            proof {
                assert(es0[e as int] == mcmf_arc(self.edges@[e as int]));
                assert(arc_ok(es0, n as int, e as int));
            }
            let remain = self.edges[e].cap - self.edges[e].flow;
            if mif > remain {
                mif = remain;
            }
            let ghost w0 = walk;
            let ghost st0 = steps as nat;
            o = self.edges[e].from;
            steps += 1;
            proof {
                walk = walk.push(o);
                assert(back_node(es0, path, t, st0 + 1) == es0[path[back_node(es0, path, t, st0) as int] as int].from);
                assert forall|i: int| 0 <= i <= steps implies #[trigger] walk[i] == back_node(es0, path, t, i as nat) by {
                    if i < steps {
                        assert(walk[i] == w0[i]);
                    }
                }
                assert forall|i: int| 0 <= i < steps implies #[trigger] walk_step(es0, path, walk, i) by {
                    if i < steps - 1 {
                        assert(walk_step(es0, path, w0, i));
                    }
                }
            }
        }
        if o != self.source {
            proof {
                assert forall|k: nat| k <= n implies #[trigger] back_node(es0, path, t, k) != s by {
                    assert(walk[k as int] == back_node(es0, path, t, k));
                }
            }
            return None;
        }
        let ghost kfin = steps as nat;
        proof {
            assert(walk[steps as int] == back_node(es0, path, t, kfin));
            assert forall|x: nat| x < kfin implies back_node(es0, path, t, x) != s by {
                assert(walk[x as int] == back_node(es0, path, t, x));
            }
        }
        proof {
            lemma_walk_distinct(es0, path, walk, s);
        }
        let mut path_cost: i128 = 0;
        let mut o = self.sink;
        let ghost mut j: int = 0;
        while o != self.source
            invariant
                n == self.n,
                s == self.source,
                t == self.sink,
                inf == self.inf,
                path == self.path@,
                dist == self.dist@,
                self.path.len() == n,
                self.dist.len() == n,
                self.graph == old(self).graph,
                self.dist == old(self).dist,
                self.inq == old(self).inq,
                self.path == old(self).path,
                self.potential == old(self).potential,
                self.inf == old(self).inf,
                self.shortest_path_strategy == old(self).shortest_path_strategy,
                self.maxflow_cache == old(self).maxflow_cache,
                self.mincost_cache == old(self).mincost_cache,
                self.dirty == old(self).dirty,
                self.n == old(self).n,
                es0 == old(self).spec_arcs(),
                cs == self.spec_costs(),
                cs == old(self).spec_costs(),
                costs_paired(cs),
                pairs_ok(es0, n as int),
                n < usize::MAX,
                walk.len() == steps + 1,
                walk[0] == t,
                walk[steps as int] == s,
                forall|i: int| 0 <= i < walk.len() ==> #[trigger] walk[i] < n,
                0 <= j <= steps,
                o == walk[j],
                steps <= n,
                1 <= mif <= inf,
                forall|i: int| 0 <= i < steps ==> #[trigger] walk[i] != s,
                forall|i: int| 0 <= i < steps ==> #[trigger] walk_step(es0, path, walk, i),
                forall|i: int| 0 <= i < steps ==> #[trigger] path_link(es0, dist, path, inf, walk[i] as int),
                forall|i: int| 0 <= i < steps ==> mif <= #[trigger] residual(es0, path[walk[i] as int] as int),
                forall|i: int, k: int| 0 <= i < k < walk.len() ==> #[trigger] walk[i] != #[trigger] walk[k],
                pairs_ok(self.spec_arcs(), n as int),
                same_network(es0, self.spec_arcs()),
                forall|i: int| j <= i < steps ==> #[trigger] self.spec_arcs()[path[walk[i] as int] as int]
                    == es0[path[walk[i] as int] as int],
                forall|w: usize| #[trigger] net_out(self.spec_arcs(), w) == net_out(es0, w)
                    + (if j > 0 && w == walk[j] { mif as int } else { 0 }) - (if j > 0 && w == t { mif as int } else { 0 }),
                flow_cost(self.spec_arcs(), cs) == flow_cost(es0, cs) + mif * path_cost,
                -(j * 9223372036854775808) <= path_cost <= j * 9223372036854775808,
                dist[t as int] < inf,
                lowered_on_path(es0, self.spec_arcs(), dist, path, n as int, s, inf),
            decreases steps - j,
        {
            let ghost es1 = self.spec_arcs();
            let e = self.path[o];
            let ghost ei = e as int;
            proof {
                assert(path_link(es0, dist, path, inf, walk[j] as int));
                assert(es1[ei] == es0[ei]);
                assert(arc_ok(es1, n as int, ei));
                assert(mif <= residual(es0, path[walk[j] as int] as int));
                lemma_push(es1, n as int, ei, mif as int);
                lemma_flow_cost_push(es1, cs, n as int, ei, mif as int);
                assert(e ^ 1 == if e % 2 == 0 { (e + 1) as usize } else { (e - 1) as usize }) by (bit_vector);
                assert(cs[ei] == self.edges@[ei].cost);
            }
            let p = e ^ 1;
            let ep = &self.edges[e];
            let from = ep.from;
            let cost = ep.cost;
            let ne = McmfEdge { from: ep.from, to: ep.to, cap: ep.cap, flow: ep.flow + mif, cost: ep.cost };
            self.edges.set(e, ne);
            let pp = &self.edges[p];
            let np = McmfEdge { from: pp.from, to: pp.to, cap: pp.cap, flow: pp.flow - mif, cost: pp.cost };
            self.edges.set(p, np);
            proof {
                let es2 = self.spec_arcs();
                assert(es2 =~= pushed_on(es1, ei, mif as int));
                assert(self.spec_costs() =~= cs);
                lemma_same_network_trans(es0, es1, es2);
                let pe = partner(ei);
                assert(walk_step(es0, path, walk, j));
                assert forall|i: int| j + 1 <= i < steps implies #[trigger] es2[path[walk[i] as int] as int] == es0[path[walk[i] as int] as int] by {
                    let x = path[walk[i] as int] as int;
                    assert(path_link(es0, dist, path, inf, walk[i] as int));
                    assert(walk_step(es0, path, walk, i));
                    assert(walk[i + 1] != walk[j + 1]);
                    assert(walk[i + 1] != walk[j]);
                    assert(arc_ok(es0, n as int, ei));
                    assert(es0[pe].from == es0[ei].to);
                    assert(x != ei);
                    assert(x != pe);
                }
                assert(lowered_on_path(es0, es2, dist, path, n as int, s, inf)) by {
                    let v = walk[j] as int;
                    assert(path[v] == e);
                    if j > 0 {
                        assert(walk_step(es0, path, walk, j - 1));
                        assert(path_link(es0, dist, path, inf, walk[j - 1] as int));
                    }
                    assert(dist[v] < inf);
                    assert forall|x: int| 0 <= x < es0.len() && #[trigger] es2[x].flow < es0[x].flow implies exists|v2: int|
                        0 <= v2 < n && v2 != s && dist[v2] < inf && x == partner(#[trigger] path[v2] as int) by {
                        if x == pe {
                            assert(x == partner(path[v] as int));
                        } else if x == ei {
                            assert(es1[ei] == es0[ei]);
                        } else {
                            assert(es2[x] == es1[x]);
                        }
                    }
                }
                assert(mif * (path_cost + cost) == mif * path_cost + mif * cost) by (nonlinear_arith);
                assert(cs[ei] * mif == mif * cost) by (nonlinear_arith)
                    requires
                        cs[ei] == cost,
                ;
            }
            path_cost = path_cost + cost as i128;
            o = from;
            proof {
                j = j + 1;
            }
        }
        proof {
            assert(back_node(es0, path, t, kfin) == s);
        }
        Some((mif, path_cost))
    }

    /// The cost and value of a minimum-cost flow found by successive shortest
    /// paths from the current flow on (both 0 before initialization).
    pub fn min_cost_max_flow(&mut self) -> (r: McmfResult)
        requires
            old(self).wf(),
            flows_fit(old(self).spec_arcs(), old(self).spec_n() as int, old(self).spec_source(), old(self).spec_sink()),
            costs_fit(old(self).spec_arcs(), old(self).spec_costs(), old(self).spec_n() as int, old(self).spec_source(), old(self).spec_sink()),
        ensures
            final(self).wf(),
            final(self).spec_n() == old(self).spec_n(),
            final(self).spec_source() == old(self).spec_source(),
            final(self).spec_sink() == old(self).spec_sink(),
            final(self).spec_inf() == old(self).spec_inf(),
            final(self).spec_strategy() == old(self).spec_strategy(),
            final(self).spec_costs() == old(self).spec_costs(),
            same_network(old(self).spec_arcs(), final(self).spec_arcs()),
            old(self).spec_n() == 0 ==> (r == McmfResult { mincost: 0, maxflow: 0 }),
            old(self).spec_n() > 0 ==> r.maxflow == net_out(final(self).spec_arcs(), final(self).spec_source()),
            old(self).spec_n() > 0 ==> r.mincost == flow_cost(final(self).spec_arcs(), final(self).spec_costs()),
            old(self).spec_n() > 0 ==> is_max_flow(final(self).spec_arcs(),
                final(self).spec_n() as int, final(self).spec_source(), final(self).spec_sink()),
            old(self).spec_n() > 0 ==> !residual_reach(final(self).spec_arcs(), final(self).spec_source(),
                final(self).spec_sink()),
            old(self).spec_n() > 0 ==> cuts_at_least(final(self).spec_arcs(), final(self).spec_source(),
                final(self).spec_sink(), r.maxflow as int),
            old(self).spec_n() > 0 ==> final(self).spec_solved(),
            old(self).spec_n() > 0 && has_feasible_prices(old(self).spec_arcs(), old(self).spec_costs())
                && mcmf_in_range(old(self).spec_costs(), old(self).spec_n() as int, old(self).spec_inf() as int)
                ==> least_cost(final(self).spec_arcs(), final(self).spec_costs(), final(self).spec_n() as int,
                final(self).spec_source(), final(self).spec_sink()),
            r == final(self).spec_result(),
            old(self).spec_solved() ==> *final(self) == *old(self),
    {
        if self.n == 0 {
            return McmfResult { mincost: 0, maxflow: 0 };
        }
        let ghost es_start = self.spec_arcs();
        let ghost cs = self.spec_costs();
        if self.dirty {
            let mut maxflow = self.maxflow_cache;
            let mut mincost = self.mincost_cache as i128;
            let n = self.n;
            let ghost good = has_feasible_prices(es_start, cs) && mcmf_in_range(cs, n as int, self.inf as int);
            let ghost mut exact: bool = good;
            let ghost mm = max_abs_cost(cs);
            proof {
                lemma_max_abs_cost(cs, cs.len() as int);
            }
            if self.uses_potentials() {
                let lost0 = self.initialize_potential_with_spfa();
                proof {
                    exact = exact && !lost0@;
                }
            }
            loop
                invariant
                    self.wf(),
                    self.dirty,
                    self.n == n,
                    n > 0,
                    self.n == old(self).n,
                    self.source == old(self).source,
                    self.sink == old(self).sink,
                    self.inf == old(self).inf,
                    self.shortest_path_strategy == old(self).shortest_path_strategy,
                    self.spec_costs() == cs,
                    cs == old(self).spec_costs(),
                    es_start == old(self).spec_arcs(),
                    same_network(es_start, self.spec_arcs()),
                    flows_fit(es_start, n as int, old(self).source, old(self).sink),
                    costs_fit(es_start, cs, n as int, old(self).source, old(self).sink),
                    maxflow == self.maxflow_cache,
                    mincost == self.mincost_cache,
                    exact ==> has_feasible_prices(es_start, cs),
                    exact ==> has_feasible_prices(self.spec_arcs(), cs),
                    exact && self.shortest_path_strategy == McmfShortestPathStrategy::Auto
                        ==> potential_ok(self.spec_arcs(), cs, self.potential@, self.source),
                    good == (has_feasible_prices(es_start, cs) && mcmf_in_range(cs, n as int, self.inf as int)),
                    good ==> exact,
                    exact ==> mcmf_in_range(cs, n as int, self.inf as int),
                    mm == max_abs_cost(cs),
                    mm >= 0,
                    forall|x: int| 0 <= x < cs.len() ==> -mm <= #[trigger] cs[x] <= mm,
                    exact && self.shortest_path_strategy == McmfShortestPathStrategy::Auto
                        ==> self.potential@[self.source as int] == 0,
                    exact && self.shortest_path_strategy == McmfShortestPathStrategy::Auto
                        ==> forall|v: int| 0 <= v < n ==> -((n - 1) * mm) <= #[trigger] self.potential@[v] <= (n - 1) * mm,
                ensures
                    exact ==> !residual_reach(self.spec_arcs(), self.source, self.sink),
                decreases cap_sum(self.spec_arcs()) - net_out(self.spec_arcs(), self.source),
            {
                proof {
                    lemma_net_out_le_caps(self.spec_arcs(), n as int, self.source, self.spec_arcs().len() as int);
                }
                let ghost h0 = self.potential@;
                let found = if !self.uses_potentials() {
                    let (f, lost) = self.bellman_ford();
                    proof {
                        exact = exact && !lost@;
                    }
                    f
                } else {
                    let (f, lost, clamped) = self.dijkstra_with_potential();
                    proof {
                        if exact {
                            assert(!clamped@);
                        }
                        exact = exact && !lost@;
                    }
                    f
                };
                if !found {
                    proof {
                        if exact {
                            let side = finite_side(self.dist@, n as int, self.inf);
                            assert(side(self.source));
                            assert(!side(self.sink));
                            if residual_reach(self.spec_arcs(), self.source, self.sink) {
                                assert(side(self.sink));
                            }
                        }
                    }
                    break;
                }
                let ghost es1 = self.spec_arcs();
                let ghost dist1 = self.dist@;
                let ghost path1 = self.path@;
                let step = self.augment_by_path();
                let (delta_flow, delta_cost) = match step {
                    None => {
                        proof {
                            if exact {
                                let p = choose|p: spec_fn(usize) -> int| feasible_prices(es1, cs, p);
                                if self.shortest_path_strategy == McmfShortestPathStrategy::Spfa {
                                    let st = choose|st: Seq<int>| #[trigger] path_ordered(es1, cs, dist1, path1, st,
                                        n as int, self.source, self.inf);
                                    lemma_path_returns(es1, cs, cs, |v: usize| 0int, dist1, path1, st, n as int,
                                        self.source, self.sink, self.inf, p);
                                } else {
                                    let hp = self.potential@;
                                    let ws = reduced_weights(es1, cs, hp);
                                    let st = choose|st: Seq<int>| #[trigger] path_ordered(es1, ws, dist1, path1, st,
                                        n as int, self.source, self.inf);
                                    lemma_path_returns(es1, cs, ws, |v: usize| hp[v as int] as int, dist1, path1, st,
                                        n as int, self.source, self.sink, self.inf, p);
                                }
                                let k = choose|k: nat| k <= n && #[trigger] back_node(es1, path1, self.sink, k) == self.source;
                                assert(back_node(es1, path1, self.sink, k) != self.source);
                            }
                        }
                        break;
                    },
                    Some(x) => x,
                };
                proof {
                    let es2 = self.spec_arcs();
                    if exact {
                        let p = choose|p: spec_fn(usize) -> int| feasible_prices(es1, cs, p);
                        if self.shortest_path_strategy == McmfShortestPathStrategy::Spfa {
                            lemma_prices_after_augment(es1, es2, cs, cs, |v: usize| 0int, dist1, path1, n as int,
                                self.source, self.inf, p);
                        } else {
                            let hp = self.potential@;
                            let ws = reduced_weights(es1, cs, hp);
                            lemma_prices_after_augment(es1, es2, cs, ws, |v: usize| hp[v as int] as int, dist1, path1,
                                n as int, self.source, self.inf, p);
                        }
                    }
                    lemma_cap_sum_network(es1, es2);
                    lemma_net_out_le_caps(es2, n as int, self.source, es2.len() as int);
                    lemma_same_network_trans(es_start, es1, es2);
                    assert(net_out(es2, self.source) == net_out(es1, self.source) + delta_flow);
                    assert forall|x: usize| x < n && x != self.source && x != self.sink implies #[trigger] net_out(es2, x) == 0 by {
                        assert(net_out(es2, x) == net_out(es1, x));
                    }
                    assert(adj_ok(es2, self.adj(), n as int)) by {
                        assert forall|e2: int| 0 <= e2 < es2.len() implies #[trigger] listed(self.adj(), es2[e2].from as int, e2) by {
                            assert(listed(self.adj(), es1[e2].from as int, e2));
                            assert(es1[e2].from == es2[e2].from);
                        }
                    }
                }
                maxflow = maxflow + delta_flow;
                mincost = mincost + (delta_flow as i128) * delta_cost;
                self.maxflow_cache = maxflow;
                self.mincost_cache = mincost as i64;
                let ghost es2 = self.spec_arcs();
                let ghost h1 = self.potential@;
                if self.uses_potentials() {
                    self.update_potential_from_dist();
                    proof {
                        if exact {
                            let hf = |v: usize| h1[v as int] as int;
                            let wsr = reduced_weights(es1, cs, h1);
                            let pp = choose|p: spec_fn(usize) -> int| feasible_prices(es1, cs, p);
                            let st = choose|st: Seq<int>| #[trigger] path_ordered(es1, wsr, dist1, path1, st,
                                n as int, self.source, self.inf);
                            assert((n - 1) * mm <= 2 * n * n * mm) by (nonlinear_arith)
                                requires
                                    n >= 1,
                                    mm >= 0,
                            ;
                            assert forall|v: int| 0 <= v < n && dist1[v] < self.inf
                                implies -((n - 1) * mm) <= #[trigger] h1[v] + dist1[v] <= (n - 1) * mm by {
                                lemma_label_bound(es1, cs, wsr, hf, dist1, path1, st, n as int, self.source, self.inf, pp,
                                    mm, v as usize);
                            }
                        }
                        exact = exact && forall|v: int| 0 <= v < n && dist1[v] < self.inf
                            ==> i64::MIN <= #[trigger] h1[v] + dist1[v] <= i64::MAX;
                        if exact {
                            lemma_potential_after_augment(es1, es2, cs, h1, self.potential@, dist1, path1, n as int,
                                self.source, self.inf);
                        }
                    }
                }
            }
            // Augment along any remaining path, whatever its cost, until the
            // sink is out of reach; this finds nothing more unless a search
            // above gave up on an edge.
            loop
                invariant
                    self.wf(),
                    self.dirty,
                    self.n == n,
                    n > 0,
                    self.n == old(self).n,
                    self.source == old(self).source,
                    self.sink == old(self).sink,
                    self.inf == old(self).inf,
                    self.shortest_path_strategy == old(self).shortest_path_strategy,
                    self.spec_costs() == cs,
                    cs == old(self).spec_costs(),
                    es_start == old(self).spec_arcs(),
                    same_network(es_start, self.spec_arcs()),
                    flows_fit(es_start, n as int, old(self).source, old(self).sink),
                    costs_fit(es_start, cs, n as int, old(self).source, old(self).sink),
                    maxflow == self.maxflow_cache,
                    mincost == self.mincost_cache,
                    exact ==> has_feasible_prices(es_start, cs),
                    exact ==> has_feasible_prices(self.spec_arcs(), cs),
                    exact ==> !residual_reach(self.spec_arcs(), self.source, self.sink),
                    good ==> exact,
                ensures
                    self.search_settled(),
                decreases cap_sum(self.spec_arcs()) - net_out(self.spec_arcs(), self.source),
            {
                proof {
                    lemma_net_out_le_caps(self.spec_arcs(), n as int, self.source, self.spec_arcs().len() as int);
                }
                let found = self.reach_search();
                if !found {
                    break;
                }
                proof {
                    if exact {
                        assert(residual_reach(self.spec_arcs(), self.source, self.sink));
                    }
                    exact = false;
                }
                let ghost es1 = self.spec_arcs();
                let step = self.augment_by_path();
                let (delta_flow, delta_cost) = match step {
                    None => {
                        proof {
                            let k = choose|k: nat| k <= n && #[trigger] back_node(es1, self.path@, self.sink, k) == self.source;
                            assert(back_node(es1, self.path@, self.sink, k) != self.source);
                        }
                        break;
                    },
                    Some(x) => x,
                };
                proof {
                    let es2 = self.spec_arcs();
                    lemma_cap_sum_network(es1, es2);
                    lemma_net_out_le_caps(es2, n as int, self.source, es2.len() as int);
                    lemma_same_network_trans(es_start, es1, es2);
                    assert(net_out(es2, self.source) == net_out(es1, self.source) + delta_flow);
                    assert forall|x: usize| x < n && x != self.source && x != self.sink implies #[trigger] net_out(es2, x) == 0 by {
                        assert(net_out(es2, x) == net_out(es1, x));
                    }
                    assert(adj_ok(es2, self.adj(), n as int)) by {
                        assert forall|e2: int| 0 <= e2 < es2.len() implies #[trigger] listed(self.adj(), es2[e2].from as int, e2) by {
                            assert(listed(self.adj(), es1[e2].from as int, e2));
                            assert(es1[e2].from == es2[e2].from);
                        }
                    }
                }
                maxflow = maxflow + delta_flow;
                mincost = mincost + (delta_flow as i128) * delta_cost;
                self.maxflow_cache = maxflow;
                self.mincost_cache = mincost as i64;
            }
            proof {
                if exact {
                    let p = choose|p: spec_fn(usize) -> int| feasible_prices(self.spec_arcs(), self.spec_costs(), p);
                    lemma_prices_least_cost(self.spec_arcs(), self.spec_costs(), self.n as int, self.source, self.sink, p);
                }
            }
            self.dirty = false;
        } else {
            proof {
                if has_feasible_prices(self.spec_arcs(), self.spec_costs()) {
                    let p = choose|p: spec_fn(usize) -> int| feasible_prices(self.spec_arcs(), self.spec_costs(), p);
                    lemma_prices_least_cost(self.spec_arcs(), self.spec_costs(), self.n as int, self.source, self.sink, p);
                }
            }
        }
        proof {
            let es = self.spec_arcs();
            let side = finite_side(self.dist@, self.n as int, self.inf);
            lemma_max_flow(es, self.n as int, self.source, self.sink, side);
            if residual_reach(es, self.source, self.sink) {
                assert(side(self.sink));
            }
            lemma_reach_cut(es, self.n as int, self.source, self.sink);
        }
        McmfResult { mincost: self.mincost_cache, maxflow: self.maxflow_cache }
    }

    /// The edges with positive capacity that leave the nodes the last
    /// shortest-path search reached, in insertion order, after computing the flow.
    pub fn mincut(&mut self) -> (cut: Vec<McmfEdge>)
        requires
            old(self).wf(),
            flows_fit(old(self).spec_arcs(), old(self).spec_n() as int, old(self).spec_source(), old(self).spec_sink()),
            costs_fit(old(self).spec_arcs(), old(self).spec_costs(), old(self).spec_n() as int, old(self).spec_source(), old(self).spec_sink()),
        ensures
            final(self).wf(),
            final(self).spec_n() == old(self).spec_n(),
            final(self).spec_source() == old(self).spec_source(),
            final(self).spec_sink() == old(self).spec_sink(),
            final(self).spec_costs() == old(self).spec_costs(),
            same_network(old(self).spec_arcs(), final(self).spec_arcs()),
            old(self).spec_n() == 0 ==> cut@.len() == 0,
            old(self).spec_n() > 0 ==> cut@ == reached_cut(final(self).spec_edges(), final(self).spec_dist(),
                final(self).spec_inf(), final(self).spec_edges().len() as int),
            old(self).spec_n() > 0 ==> is_max_flow(final(self).spec_arcs(),
                final(self).spec_n() as int, final(self).spec_source(), final(self).spec_sink()),
            old(self).spec_n() > 0 ==> mcmf_arcs(cut@) == cut_edges(
                final(self).spec_arcs(), reach_side(final(self).spec_arcs(), final(self).spec_source())),
            old(self).spec_n() > 0 ==> caps_of(mcmf_arcs(cut@)) == net_out(
                final(self).spec_arcs(), final(self).spec_source()),
            old(self).spec_n() > 0 ==> !reach_side(final(self).spec_arcs(), final(self).spec_source())(
                final(self).spec_sink()),
            old(self).spec_n() > 0 ==> cuts_at_least(final(self).spec_arcs(), final(self).spec_source(),
                final(self).spec_sink(), caps_of(mcmf_arcs(cut@))),
            forall|i: int| 0 <= i < cut@.len() ==> #[trigger] cut@[i].flow == cut@[i].cap,
    {
        self.min_cost_max_flow();
        if self.n == 0 {
            return Vec::new();
        }
        let mut out: Vec<McmfEdge> = Vec::new();
        let mut i: usize = 0;
        let inf = self.inf;
        while i < self.edges.len()
            invariant
                self.wf(),
                self.n > 0,
                inf == self.inf,
                i <= self.edges.len(),
                out@ == reached_cut(self.edges@, self.dist@, inf, i as int),
                !self.dirty,
                forall|j: int| 0 <= j < out@.len() ==> #[trigger] out@[j].flow == out@[j].cap,
            decreases self.edges.len() - i,
        {
            let e = &self.edges[i];
            proof {
                assert(self.spec_arcs()[i as int] == mcmf_arc(self.edges@[i as int]));
                assert(arc_ok(self.spec_arcs(), self.n as int, i as int));
            }
            if self.dist[e.from] != inf && self.dist[e.to] == inf && e.cap > 0 {
                proof {
                    let es = self.spec_arcs();
                    let side = finite_side(self.dist@, self.n as int, inf);
                    assert(side(es[i as int].from));
                    assert(!side(es[i as int].to));
                }
                out.push(McmfEdge { from: e.from, to: e.to, cap: e.cap, flow: e.flow, cost: e.cost });
            }
            i += 1;
        }
        proof {
            {
                let es = self.spec_arcs();
                let n = self.n as int;
                let side = finite_side(self.dist@, n, inf);
                assert forall|e: int| 0 <= e < self.edges@.len() implies #[trigger] self.edges@[e].from < n
                    && self.edges@[e].to < n by {
                    assert(es[e] == mcmf_arc(self.edges@[e]));
                    assert(arc_ok(es, n, e));
                }
                lemma_reached_cut(self.edges@, self.dist@, n, inf, self.edges@.len() as int);
                assert forall|e: int| 0 <= e < es.len() implies side(#[trigger] es[e].from) == reach_side(es, self.source)(es[e].from)
                    && side(es[e].to) == reach_side(es, self.source)(es[e].to) by {
                    assert(arc_ok(es, n, e));
                    let a = es[e].from;
                    let b = es[e].to;
                    if residual_reach(es, self.source, a) {
                        assert(side(self.source));
                        assert(side(a));
                    }
                    if residual_reach(es, self.source, b) {
                        assert(side(self.source));
                        assert(side(b));
                    }
                }
                lemma_cut_side_same(es, side, reach_side(es, self.source), es.len() as int);
                lemma_max_flow(es, n, self.source, self.sink, side);
                if residual_reach(es, self.source, self.sink) {
                    assert(side(self.sink));
                }
                lemma_reach_cut(es, n, self.source, self.sink);
            }
        }
        out
    }

    /// Adds an edge; the arguments must be valid.
    pub fn add_edge(&mut self, from: usize, to: usize, cap: i64, cost: i64)
        requires
            old(self).wf(),
            old(self).spec_arcs().len() + 2 <= usize::MAX,
            cost > i64::MIN,
            old(self).spec_n() > 0,
            from < old(self).spec_n(),
            to < old(self).spec_n(),
            cap >= 0,
        ensures
            final(self).wf(),
            final(self).spec_n() == old(self).spec_n(),
            final(self).spec_source() == old(self).spec_source(),
            final(self).spec_sink() == old(self).spec_sink(),
            final(self).spec_arcs() == old(self).spec_arcs()
                .push(ArcView { from, to, cap: cap as int, flow: 0 })
                .push(ArcView { from: to, to: from, cap: 0, flow: 0 }),
            final(self).spec_costs() == old(self).spec_costs().push(cost as int).push(-cost),
            final(self).spec_edges() == old(self).spec_edges().push(McmfEdge { from, to, cap, flow: 0, cost })
                .push(McmfEdge { from: to, to: from, cap: 0, flow: 0, cost: (-cost) as i64 }),
            !final(self).spec_solved(),
    {
        let r = self.try_add_edge(from, to, cap, cost);
        assert(r is Ok);
    }
}

/// Two solvers holding one network, each having computed a maximum flow of
/// least cost, report the same totals, whichever shortest-path strategy each
/// used: `Auto` and `Spfa` agree.
pub proof fn lemma_strategies_agree(x: Mcmf, y: Mcmf)
    requires
        x.wf(),
        y.wf(),
        x.spec_n() > 0,
        y.spec_n() == x.spec_n(),
        y.spec_source() == x.spec_source(),
        y.spec_sink() == x.spec_sink(),
        y.spec_costs() == x.spec_costs(),
        same_network(x.spec_arcs(), y.spec_arcs()),
        is_max_flow(x.spec_arcs(), x.spec_n() as int, x.spec_source(), x.spec_sink()),
        is_max_flow(y.spec_arcs(), y.spec_n() as int, y.spec_source(), y.spec_sink()),
        least_cost(x.spec_arcs(), x.spec_costs(), x.spec_n() as int, x.spec_source(), x.spec_sink()),
        least_cost(y.spec_arcs(), y.spec_costs(), y.spec_n() as int, y.spec_source(), y.spec_sink()),
    ensures
        x.spec_result() == y.spec_result(),
{
    lemma_least_cost_unique(x.spec_arcs(), y.spec_arcs(), x.spec_costs(), x.spec_n() as int, x.spec_source(),
        x.spec_sink());
}

} // verus!
