//! The residual-network model shared by the flow solvers.
//!
//! Edges come in pairs: edge `2k` is an arc added by the user, edge `2k + 1`
//! its reverse with capacity 0 and the opposite flow. A flow is valid when it
//! respects every capacity and every node but the source and the sink sends
//! out as much as it receives.
use vstd::prelude::*;

verus! {

/// An arc as the model sees it.
pub struct ArcView {
    pub from: usize,
    pub to: usize,
    pub cap: int,
    pub flow: int,
}

/// Remaining capacity of edge `e`.
pub open spec fn residual(es: Seq<ArcView>, e: int) -> int {
    es[e].cap - es[e].flow
}

/// The index of the paired edge.
pub open spec fn partner(e: int) -> int {
    if e % 2 == 0 { e + 1 } else { e - 1 }
}

/// Edge `e` is well formed among the pairs of `es` over nodes `[0, n)`.
pub open spec fn arc_ok(es: Seq<ArcView>, n: int, e: int) -> bool {
    let p = partner(e);
    &&& es[e].from < n
    &&& es[e].to < n
    &&& es[e].flow <= es[e].cap
    &&& es[p].from == es[e].to
    &&& es[p].to == es[e].from
    &&& es[p].flow == -es[e].flow
    &&& (e % 2 == 0 ==> es[e].cap >= 0 && es[e].flow >= 0)
    &&& (e % 2 == 1 ==> es[e].cap == 0)
}

/// All edges come in well-formed pairs.
pub open spec fn pairs_ok(es: Seq<ArcView>, n: int) -> bool {
    &&& es.len() % 2 == 0
    &&& forall|e: int| 0 <= e < es.len() ==> #[trigger] arc_ok(es, n, e)
}

/// Flow leaving `v` over the first `m` edges (reverse edges carry negative flow).
pub open spec fn net_out_upto(es: Seq<ArcView>, v: usize, m: int) -> int
    decreases m,
{
    if m <= 0 {
        0
    } else {
        net_out_upto(es, v, m - 1) + if es[m - 1].from == v { es[m - 1].flow } else { 0 }
    }
}

/// Net flow leaving `v`.
pub open spec fn net_out(es: Seq<ArcView>, v: usize) -> int {
    net_out_upto(es, v, es.len() as int)
}

/// Every node but `s` and `t` keeps its flow balanced.
pub open spec fn conserved(es: Seq<ArcView>, n: int, s: usize, t: usize) -> bool {
    forall|v: usize| v < n && v != s && v != t ==> #[trigger] net_out(es, v) == 0
}

/// A valid flow from `s` to `t` over nodes `[0, n)`.
pub open spec fn valid_flow(es: Seq<ArcView>, n: int, s: usize, t: usize) -> bool {
    pairs_ok(es, n) && conserved(es, n, s, t)
}

/// Sum of the capacities of the first `m` edges.
pub open spec fn cap_sum_upto(es: Seq<ArcView>, m: int) -> int
    decreases m,
{
    if m <= 0 {
        0
    } else {
        cap_sum_upto(es, m - 1) + es[m - 1].cap
    }
}

/// Sum of all capacities.
pub open spec fn cap_sum(es: Seq<ArcView>) -> int {
    cap_sum_upto(es, es.len() as int)
}

/// Edge `e` leaves the node set `side` and has positive capacity.
pub open spec fn crosses(es: Seq<ArcView>, side: spec_fn(usize) -> bool, e: int) -> bool {
    side(es[e].from) && !side(es[e].to) && es[e].cap > 0
}

/// The crossing edges among the first `m`, in order.
pub open spec fn cut_upto(es: Seq<ArcView>, side: spec_fn(usize) -> bool, m: int) -> Seq<ArcView>
    decreases m,
{
    if m <= 0 {
        Seq::empty()
    } else if crosses(es, side, m - 1) {
        cut_upto(es, side, m - 1).push(es[m - 1])
    } else {
        cut_upto(es, side, m - 1)
    }
}

/// The edges that leave `side` with positive capacity, in order.
pub open spec fn cut_edges(es: Seq<ArcView>, side: spec_fn(usize) -> bool) -> Seq<ArcView> {
    cut_upto(es, side, es.len() as int)
}

/// Sum of capacities of a sequence of arcs.
pub open spec fn caps_of(s: Seq<ArcView>) -> int
    decreases s.len(),
{
    if s.len() == 0 {
        0
    } else {
        caps_of(s.drop_last()) + s.last().cap
    }
}

/// No edge with remaining capacity leaves `side`.
pub open spec fn closed(es: Seq<ArcView>, side: spec_fn(usize) -> bool) -> bool {
    forall|e: int| 0 <= e < es.len() && side(#[trigger] es[e].from) && residual(es, e) > 0 ==> side(es[e].to)
}

/// Flow leaving `side` over the first `m` edges.
spec fn out_upto(es: Seq<ArcView>, side: spec_fn(usize) -> bool, m: int) -> int
    decreases m,
{
    if m <= 0 {
        0
    } else {
        out_upto(es, side, m - 1) + if side(es[m - 1].from) { es[m - 1].flow } else { 0 }
    }
}

/// Flow leaving the members of `side` below `k` over the first `m` edges.
spec fn out_below(es: Seq<ArcView>, side: spec_fn(usize) -> bool, m: int, k: int) -> int
    decreases m,
{
    if m <= 0 {
        0
    } else {
        out_below(es, side, m - 1, k) + if side(es[m - 1].from) && es[m - 1].from < k { es[m - 1].flow } else { 0 }
    }
}

/// Sum of the net outflows of the members of `side` below `k`.
spec fn node_sum(es: Seq<ArcView>, side: spec_fn(usize) -> bool, k: int) -> int
    decreases k,
{
    if k <= 0 {
        0
    } else {
        node_sum(es, side, k - 1) + if side((k - 1) as usize) { net_out(es, (k - 1) as usize) } else { 0 }
    }
}

proof fn lemma_out_below_step(es: Seq<ArcView>, side: spec_fn(usize) -> bool, m: int, k: int)
    requires
        0 <= k <= usize::MAX,
        0 <= m <= es.len(),
    ensures
        out_below(es, side, m, k + 1) == out_below(es, side, m, k) + if side(k as usize) {
            net_out_upto(es, k as usize, m)
        } else {
            0
        },
    decreases m,
{
    if m > 0 {
        lemma_out_below_step(es, side, m - 1, k);
    }
}

proof fn lemma_node_sum(es: Seq<ArcView>, side: spec_fn(usize) -> bool, k: int)
    requires
        0 <= k <= usize::MAX + 1,
    ensures
        node_sum(es, side, k) == out_below(es, side, es.len() as int, k),
    decreases k,
{
    if k == 0 {
        lemma_out_below_zero(es, side, es.len() as int);
    } else {
        lemma_node_sum(es, side, k - 1);
        lemma_out_below_step(es, side, es.len() as int, k - 1);
    }
}

proof fn lemma_out_below_zero(es: Seq<ArcView>, side: spec_fn(usize) -> bool, m: int)
    requires
        m <= es.len(),
    ensures
        out_below(es, side, m, 0) == 0,
    decreases m,
{
    if m > 0 {
        lemma_out_below_zero(es, side, m - 1);
    }
}

proof fn lemma_out_below_all(es: Seq<ArcView>, side: spec_fn(usize) -> bool, m: int, n: int)
    requires
        0 <= m <= es.len(),
        forall|e: int| 0 <= e < es.len() ==> #[trigger] es[e].from < n,
    ensures
        out_below(es, side, m, n) == out_upto(es, side, m),
    decreases m,
{
    if m > 0 {
        lemma_out_below_all(es, side, m - 1, n);
    }
}

proof fn lemma_node_sum_conserved(es: Seq<ArcView>, n: int, s: usize, t: usize, side: spec_fn(usize) -> bool, k: int)
    requires
        conserved(es, n, s, t),
        side(s),
        !side(t),
        0 <= k <= n,
        s < n,
        n <= usize::MAX,
    ensures
        node_sum(es, side, k) == if s < k { net_out(es, s) } else { 0 },
    decreases k,
{
    if k > 0 {
        lemma_node_sum_conserved(es, n, s, t, side, k - 1);
        let v = (k - 1) as usize;
        if v != s && v != t {
            assert(net_out(es, v) == 0);
        }
    }
}

/// Flow leaving a node set that holds the source and not the sink equals the flow value.
proof fn lemma_out_is_value(es: Seq<ArcView>, n: int, s: usize, t: usize, side: spec_fn(usize) -> bool)
    requires
        valid_flow(es, n, s, t),
        side(s),
        !side(t),
        s < n,
        n <= usize::MAX,
    ensures
        out_upto(es, side, es.len() as int) == net_out(es, s),
{
    lemma_node_sum(es, side, n);
    lemma_node_sum_conserved(es, n, s, t, side, n);
    assert forall|e: int| 0 <= e < es.len() implies #[trigger] es[e].from < n by {
        assert(arc_ok(es, n, e));
    }
    lemma_out_below_all(es, side, es.len() as int, n);
}

proof fn lemma_caps_push(s: Seq<ArcView>, a: ArcView)
    ensures
        caps_of(s.push(a)) == caps_of(s) + a.cap,
{
    assert(s.push(a).drop_last() =~= s);
}

/// Over whole pairs, the flow leaving `side` is at most the capacity leaving it,
/// and equal to it when `side` is closed.
proof fn lemma_pairs_out_le_cut(es: Seq<ArcView>, n: int, side: spec_fn(usize) -> bool, k: int)
    requires
        pairs_ok(es, n),
        0 <= 2 * k <= es.len(),
    ensures
        out_upto(es, side, 2 * k) <= caps_of(cut_upto(es, side, 2 * k)),
        closed(es, side) ==> out_upto(es, side, 2 * k) == caps_of(cut_upto(es, side, 2 * k)),
    decreases k,
{
    if k > 0 {
        lemma_pairs_out_le_cut(es, n, side, k - 1);
        let e = 2 * k - 2;
        let r = 2 * k - 1;
        assert(arc_ok(es, n, e));
        assert(arc_ok(es, n, r));
        assert(partner(e) == r);
        lemma_caps_push(cut_upto(es, side, e), es[e]);
        lemma_caps_push(cut_upto(es, side, r), es[r]);
        assert(out_upto(es, side, r) == out_upto(es, side, e) + (if side(es[e].from) { es[e].flow } else { 0 }));
        assert(out_upto(es, side, r + 1) == out_upto(es, side, e)
            + (if side(es[e].from) { es[e].flow } else { 0 })
            + (if side(es[r].from) { es[r].flow } else { 0 }));
        assert(!crosses(es, side, r));
        assert(cut_upto(es, side, r + 1) == cut_upto(es, side, r));
        if closed(es, side) {
            if side(es[e].from) && !side(es[e].to) {
                assert(!(residual(es, e) > 0));
            }
            if side(es[r].from) && !side(es[r].to) {
                assert(!(residual(es, r) > 0));
            }
        }
    }
}

/// Any valid flow is at most the capacity of any cut separating source from sink.
pub proof fn lemma_flow_le_cut(es: Seq<ArcView>, n: int, s: usize, t: usize, side: spec_fn(usize) -> bool)
    requires
        valid_flow(es, n, s, t),
        s < n,
        n <= usize::MAX,
        side(s),
        !side(t),
    ensures
        net_out(es, s) <= caps_of(cut_edges(es, side)),
        closed(es, side) ==> net_out(es, s) == caps_of(cut_edges(es, side)),
{
    lemma_out_is_value(es, n, s, t, side);
    lemma_pairs_out_le_cut(es, n, side, (es.len() / 2) as int);
}

/// The net outflow of a node never exceeds the capacity sum.
pub proof fn lemma_net_out_le_caps(es: Seq<ArcView>, n: int, v: usize, m: int)
    requires
        pairs_ok(es, n),
        0 <= m <= es.len(),
    ensures
        net_out_upto(es, v, m) <= cap_sum_upto(es, m),
        cap_sum_upto(es, m) >= 0,
    decreases m,
{
    if m > 0 {
        lemma_net_out_le_caps(es, n, v, m - 1);
        assert(arc_ok(es, n, m - 1));
    }
}

/// Changing the flow of edge `e` by `d` changes the net outflow of its tail by `d`.
pub proof fn lemma_net_out_update(es: Seq<ArcView>, e: int, d: int, v: usize, m: int)
    requires
        0 <= e < es.len(),
        0 <= m <= es.len(),
    ensures
        net_out_upto(es.update(e, ArcView { flow: es[e].flow + d, ..es[e] }), v, m)
            == net_out_upto(es, v, m) + if e < m && es[e].from == v { d } else { 0 },
    decreases m,
{
    if m > 0 {
        lemma_net_out_update(es, e, d, v, m - 1);
    }
}

/// Net outflows depend only on tails and flows.
pub proof fn lemma_net_out_same(a: Seq<ArcView>, b: Seq<ArcView>, v: usize, m: int)
    requires
        0 <= m <= a.len(),
        m <= b.len(),
        forall|e: int| 0 <= e < m ==> #[trigger] a[e].from == b[e].from && a[e].flow == b[e].flow,
    ensures
        net_out_upto(a, v, m) == net_out_upto(b, v, m),
    decreases m,
{
    if m > 0 {
        lemma_net_out_same(a, b, v, m - 1);
    }
}

/// Capacity sums depend only on capacities.
pub proof fn lemma_cap_sum_same(a: Seq<ArcView>, b: Seq<ArcView>, m: int)
    requires
        0 <= m <= a.len(),
        m <= b.len(),
        forall|e: int| 0 <= e < m ==> #[trigger] a[e].cap == b[e].cap,
    ensures
        cap_sum_upto(a, m) == cap_sum_upto(b, m),
    decreases m,
{
    if m > 0 {
        lemma_cap_sum_same(a, b, m - 1);
    }
}

/// Two edge sequences describe the same network; only their flows may differ.
pub open spec fn same_network(a: Seq<ArcView>, b: Seq<ArcView>) -> bool {
    &&& a.len() == b.len()
    &&& forall|e: int| 0 <= e < a.len() ==> #[trigger] a[e].from == b[e].from && a[e].to == b[e].to && a[e].cap == b[e].cap
}

pub proof fn lemma_same_network_trans(a: Seq<ArcView>, b: Seq<ArcView>, c: Seq<ArcView>)
    requires
        same_network(a, b),
        same_network(b, c),
    ensures
        same_network(a, c),
{
    assert forall|e: int| 0 <= e < a.len() implies #[trigger] a[e].from == c[e].from && a[e].to == c[e].to && a[e].cap == c[e].cap by {
        assert(a[e].from == b[e].from);
        assert(b[e].from == c[e].from);
    }
}

pub proof fn lemma_cap_sum_network(a: Seq<ArcView>, b: Seq<ArcView>)
    requires
        same_network(a, b),
    ensures
        cap_sum(a) == cap_sum(b),
{
    assert forall|e: int| 0 <= e < a.len() implies #[trigger] a[e].cap == b[e].cap by {
        assert(a[e].from == b[e].from);
    }
    lemma_cap_sum_same(a, b, a.len() as int);
}

/// `es` is a maximum flow: valid, and no valid flow on the same network sends more.
pub open spec fn is_max_flow(es: Seq<ArcView>, n: int, s: usize, t: usize) -> bool {
    &&& valid_flow(es, n, s, t)
    &&& forall|g: Seq<ArcView>| same_network(g, es) && valid_flow(g, n, s, t) ==> #[trigger] net_out(g, s) <= net_out(es, s)
}

/// Every valid flow on the network of `es` sends at most `i64::MAX` out of
/// `s`: a maximum flow's value fits in an `i64`.
pub open spec fn flows_fit(es: Seq<ArcView>, n: int, s: usize, t: usize) -> bool {
    forall|g: Seq<ArcView>| #[trigger] same_network(es, g) && valid_flow(g, n, s, t) ==> net_out(g, s) <= i64::MAX
}

/// `v` is reachable from `s` along edges with remaining capacity: every closed
/// node set that holds `s` holds `v`.
pub open spec fn residual_reach(es: Seq<ArcView>, s: usize, v: usize) -> bool {
    forall|side: spec_fn(usize) -> bool| side(s) && closed(es, side) ==> #[trigger] side(v)
}

/// The nodes reachable from `s` along edges with remaining capacity.
pub open spec fn reach_side(es: Seq<ArcView>, s: usize) -> spec_fn(usize) -> bool {
    |v: usize| residual_reach(es, s, v)
}

/// `g[u]` lists exactly the edges leaving `u`, for every node `u < n`.
pub open spec fn adj_ok(es: Seq<ArcView>, g: Seq<Seq<usize>>, n: int) -> bool {
    &&& g.len() == n
    &&& forall|u: int, k: int| 0 <= u < n && 0 <= k < g[u].len() ==> #[trigger] g[u][k] < es.len() && es[g[u][k] as int].from == u
    &&& forall|e: int| 0 <= e < es.len() ==> #[trigger] listed(g, es[e].from as int, e)
}

/// Edge `e` appears in the list of node `u`.
pub open spec fn listed(g: Seq<Seq<usize>>, u: int, e: int) -> bool {
    exists|k: int| 0 <= k < g[u].len() && #[trigger] g[u][k] == e
}

proof fn lemma_cut_network(a: Seq<ArcView>, b: Seq<ArcView>, side: spec_fn(usize) -> bool, m: int)
    requires
        same_network(a, b),
        0 <= m <= a.len(),
    ensures
        caps_of(cut_upto(a, side, m)) == caps_of(cut_upto(b, side, m)),
    decreases m,
{
    if m > 0 {
        lemma_cut_network(a, b, side, m - 1);
        assert(a[m - 1].from == b[m - 1].from);
        lemma_caps_push(cut_upto(a, side, m - 1), a[m - 1]);
        lemma_caps_push(cut_upto(b, side, m - 1), b[m - 1]);
    }
}

/// A valid flow with a closed node set separating source from sink is a
/// maximum flow, and its value is the capacity leaving that set.
pub proof fn lemma_max_flow(es: Seq<ArcView>, n: int, s: usize, t: usize, side: spec_fn(usize) -> bool)
    requires
        valid_flow(es, n, s, t),
        s < n,
        n <= usize::MAX,
        side(s),
        !side(t),
        closed(es, side),
    ensures
        is_max_flow(es, n, s, t),
        net_out(es, s) == caps_of(cut_edges(es, side)),
{
    lemma_flow_le_cut(es, n, s, t, side);
    assert forall|g: Seq<ArcView>| same_network(g, es) && valid_flow(g, n, s, t) implies #[trigger] net_out(g, s) <= net_out(es, s) by {
        lemma_flow_le_cut(g, n, s, t, side);
        lemma_cut_network(g, es, side, es.len() as int);
    }
}

/// Every edge that leaves a closed side with positive capacity is saturated.
pub proof fn lemma_cut_saturated(es: Seq<ArcView>, n: int, side: spec_fn(usize) -> bool, m: int)
    requires
        pairs_ok(es, n),
        closed(es, side),
        0 <= m <= es.len(),
    ensures
        forall|i: int| 0 <= i < cut_upto(es, side, m).len() ==> #[trigger] cut_upto(es, side, m)[i].flow
            == cut_upto(es, side, m)[i].cap,
    decreases m,
{
    if m > 0 {
        lemma_cut_saturated(es, n, side, m - 1);
        let c = cut_upto(es, side, m - 1);
        if crosses(es, side, m - 1) {
            assert(arc_ok(es, n, m - 1));
            assert(side(es[m - 1].from));
            assert(residual(es, m - 1) <= 0);
            assert forall|i: int| 0 <= i < cut_upto(es, side, m).len() implies #[trigger] cut_upto(es, side, m)[i].flow
                == cut_upto(es, side, m)[i].cap by {
                if i < c.len() {
                    assert(cut_upto(es, side, m)[i] == c[i]);
                }
            }
        }
    }
}

/// No cut that separates `s` from `t` has less capacity than `v`.
pub open spec fn cuts_at_least(es: Seq<ArcView>, s: usize, t: usize, v: int) -> bool {
    forall|side: spec_fn(usize) -> bool| side(s) && !side(t) ==> v <= #[trigger] caps_of(cut_edges(es, side))
}

/// When the sink is out of reach, the value of a valid flow is the capacity
/// of the cut around the nodes reachable from the source, and no cut that
/// separates source from sink has less: the value is the least cut capacity.
pub proof fn lemma_reach_cut(es: Seq<ArcView>, n: int, s: usize, t: usize)
    requires
        valid_flow(es, n, s, t),
        s < n,
        n <= usize::MAX,
        !residual_reach(es, s, t),
    ensures
        net_out(es, s) == caps_of(cut_edges(es, reach_side(es, s))),
        cuts_at_least(es, s, t, net_out(es, s)),
{
    let rs = reach_side(es, s);
    assert(rs(s));
    assert(!rs(t));
    assert forall|e: int| 0 <= e < es.len() && rs(#[trigger] es[e].from) && residual(es, e) > 0 implies rs(es[e].to) by {
        let u = es[e].from;
        let v = es[e].to;
        assert forall|side: spec_fn(usize) -> bool| side(s) && closed(es, side) implies #[trigger] side(v) by {
            assert(residual_reach(es, s, u));
            assert(side(u));
            assert(side(es[e].from));
        }
    }
    assert(closed(es, rs));
    lemma_flow_le_cut(es, n, s, t, rs);
    assert forall|side: spec_fn(usize) -> bool| side(s) && !side(t) implies net_out(es, s) <= #[trigger] caps_of(cut_edges(es, side)) by {
        lemma_flow_le_cut(es, n, s, t, side);
    }
}

/// The cut depends only on which endpoints lie on the side.
pub proof fn lemma_cut_side_same(es: Seq<ArcView>, a: spec_fn(usize) -> bool, b: spec_fn(usize) -> bool, m: int)
    requires
        0 <= m <= es.len(),
        forall|e: int| 0 <= e < es.len() ==> a(#[trigger] es[e].from) == b(es[e].from) && a(es[e].to) == b(es[e].to),
    ensures
        cut_upto(es, a, m) == cut_upto(es, b, m),
    decreases m,
{
    if m > 0 {
        lemma_cut_side_same(es, a, b, m - 1);
    }
}

/// Appending a pair with no flow keeps every net outflow.
pub proof fn lemma_add_pair(es: Seq<ArcView>, x: ArcView, y: ArcView, v: usize)
    requires
        x.flow == 0,
        y.flow == 0,
    ensures
        net_out(es.push(x).push(y), v) == net_out(es, v),
        cap_sum(es.push(x).push(y)) == cap_sum(es) + x.cap + y.cap,
{
    let es2 = es.push(x).push(y);
    let m = es.len() as int;
    lemma_net_out_same(es, es2, v, m);
    lemma_cap_sum_same(es, es2, m);
    assert(es2[m] == x);
    assert(es2[m + 1] == y);
    assert(net_out_upto(es2, v, m + 2) == net_out_upto(es2, v, m + 1) + if es2[m + 1].from == v { es2[m + 1].flow } else { 0 });
    assert(net_out_upto(es2, v, m + 1) == net_out_upto(es2, v, m) + if es2[m].from == v { es2[m].flow } else { 0 });
    assert(cap_sum_upto(es2, m + 2) == cap_sum_upto(es2, m + 1) + y.cap);
    assert(cap_sum_upto(es2, m + 1) == cap_sum_upto(es2, m) + x.cap);
}

/// Pushing `f` more along edge `e` (and `-f` along its partner).
pub open spec fn pushed_on(es: Seq<ArcView>, e: int, f: int) -> Seq<ArcView> {
    let p = partner(e);
    es.update(e, ArcView { flow: es[e].flow + f, ..es[e] }).update(p, ArcView { flow: es[p].flow - f, ..es[p] })
}

pub proof fn lemma_push(es: Seq<ArcView>, n: int, e: int, f: int)
    requires
        pairs_ok(es, n),
        0 <= e < es.len(),
        0 <= f <= residual(es, e),
    ensures
        pairs_ok(pushed_on(es, e, f), n),
        same_network(es, pushed_on(es, e, f)),
        forall|v: usize| #[trigger] net_out(pushed_on(es, e, f), v) == net_out(es, v)
            + (if es[e].from == v { f } else { 0 }) - (if es[e].to == v { f } else { 0 }),
        residual(pushed_on(es, e, f), e) == residual(es, e) - f,
        forall|x: int| 0 <= x < es.len() && x != e && x != partner(e) ==> #[trigger] pushed_on(es, e, f)[x] == es[x],
{
    let p = partner(e);
    assert(arc_ok(es, n, e));
    assert(arc_ok(es, n, p));
    let es1 = es.update(e, ArcView { flow: es[e].flow + f, ..es[e] });
    let es2 = pushed_on(es, e, f);
    assert(partner(p) == e);
    assert forall|x: int| 0 <= x < es2.len() implies #[trigger] arc_ok(es2, n, x) by {
        assert(arc_ok(es, n, x));
        assert(arc_ok(es, n, partner(x)));
        if x != e && x != p && partner(x) != e && partner(x) != p {
        } else {
            assert(partner(x) == e || partner(x) == p || x == e || x == p);
        }
    }
    assert forall|v: usize| #[trigger] net_out(es2, v) == net_out(es, v)
        + (if es[e].from == v { f } else { 0 }) - (if es[e].to == v { f } else { 0 }) by {
        lemma_net_out_update(es, e, f, v, es.len() as int);
        lemma_net_out_update(es1, p, -f, v, es.len() as int);
        assert(es1[p] == es[p]);
        assert(es1.update(p, ArcView { flow: es1[p].flow + -f, ..es1[p] }) == es2);
    }
}

/// Adding a pair of edges to the adjacency lists keeps them exact.
pub proof fn lemma_adj_push(es0: Seq<ArcView>, g0: Seq<Seq<usize>>, n: int, from: usize, to: usize, x: ArcView, y: ArcView, g: Seq<Seq<usize>>)
    requires
        adj_ok(es0, g0, n),
        pairs_ok(es0, n),
        from < n,
        to < n,
        x.from == from,
        y.from == to,
        g.len() == n,
        from != to ==> g == g0.update(from as int, g0[from as int].push(es0.len() as usize)).update(to as int, g0[to as int].push((es0.len() + 1) as usize)),
        from == to ==> g == g0.update(from as int, g0[from as int].push(es0.len() as usize).push((es0.len() + 1) as usize)),
        es0.len() + 2 <= usize::MAX,
    ensures
        adj_ok(es0.push(x).push(y), g, n),
{
    let es = es0.push(x).push(y);
    let id = es0.len() as int;
    assert forall|u: int, k: int| 0 <= u < n && 0 <= k < g[u].len() implies #[trigger] g[u][k] < es.len() && es[g[u][k] as int].from == u by {
        if k < g0[u].len() {
            assert(g[u][k] == g0[u][k]);
        }
    }
    assert forall|e: int| 0 <= e < es.len() implies #[trigger] listed(g, es[e].from as int, e) by {
        if e < id {
            assert(es0[e].from == es[e].from);
            assert(arc_ok(es0, n, e));
            let f0 = es0[e].from as int;
            assert(listed(g0, f0, e));
            let k = choose|k: int| 0 <= k < g0[f0].len() && #[trigger] g0[f0][k] == e;
            assert(g[f0][k] == g0[f0][k]);
        } else if e == id {
            assert(g[from as int][g0[from as int].len() as int] == e);
        } else if from == to {
            assert(g[to as int][g0[to as int].len() + 1int] == e);
        } else {
            assert(g[to as int][g0[to as int].len() as int] == e);
        }
    }
}

} // verus!
