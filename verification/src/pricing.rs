//! Optimality of a flow's cost certified by node prices: when no edge with
//! remaining capacity has a negative reduced cost, no flow of the same value
//! on the same network costs less.
use vstd::prelude::*;
use crate::flow::{ArcView, residual, partner, arc_ok, pairs_ok, net_out, net_out_upto, valid_flow, same_network, is_max_flow};
use crate::mcmf::{flow_cost, flow_cost_upto, costs_paired};

verus! {

/// Reduced cost of edge `e` under node prices `p`.
pub open spec fn reduced_cost(es: Seq<ArcView>, cs: Seq<int>, p: spec_fn(usize) -> int, e: int) -> int {
    cs[e] + p(es[e].from) - p(es[e].to)
}

/// Under prices `p`, no edge with remaining capacity has a negative reduced
/// cost. Prices like these exist exactly when no cycle of edges with
/// remaining capacity has a negative total cost.
pub open spec fn feasible_prices(es: Seq<ArcView>, cs: Seq<int>, p: spec_fn(usize) -> int) -> bool {
    forall|e: int| 0 <= e < es.len() && residual(es, e) > 0 ==> #[trigger] reduced_cost(es, cs, p, e) >= 0
}

/// Some prices are feasible for the edges `es` with costs `cs`.
pub open spec fn has_feasible_prices(es: Seq<ArcView>, cs: Seq<int>) -> bool {
    exists|p: spec_fn(usize) -> int| feasible_prices(es, cs, p)
}

/// No valid flow of the same value on the same network costs less than `es`.
pub open spec fn least_cost(es: Seq<ArcView>, cs: Seq<int>, n: int, s: usize, t: usize) -> bool {
    forall|g: Seq<ArcView>| same_network(g, es) && valid_flow(g, n, s, t) && net_out(g, s) == net_out(es, s)
        ==> flow_cost(es, cs) <= #[trigger] flow_cost(g, cs)
}

spec fn sum(f: spec_fn(int) -> int, m: int) -> int
    decreases m,
{
    if m <= 0 {
        0
    } else {
        sum(f, m - 1) + f(m - 1)
    }
}

proof fn lemma_sum_add(f: spec_fn(int) -> int, g: spec_fn(int) -> int, h: spec_fn(int) -> int, m: int)
    requires
        forall|i: int| 0 <= i < m ==> #[trigger] h(i) == f(i) + g(i),
    ensures
        sum(h, m) == sum(f, m) + sum(g, m),
    decreases m,
{
    if m > 0 {
        lemma_sum_add(f, g, h, m - 1);
    }
}

proof fn lemma_sum_nonneg(f: spec_fn(int) -> int, m: int)
    requires
        forall|i: int| 0 <= i < m ==> #[trigger] f(i) >= 0,
    ensures
        sum(f, m) >= 0,
    decreases m,
{
    if m > 0 {
        lemma_sum_nonneg(f, m - 1);
    }
}

proof fn lemma_sum_point(f: spec_fn(int) -> int, a: int, m: int)
    requires
        forall|i: int| 0 <= i < m && i != a ==> #[trigger] f(i) == 0,
    ensures
        sum(f, m) == if 0 <= a < m { f(a) } else { 0 },
    decreases m,
{
    if m > 0 {
        lemma_sum_point(f, a, m - 1);
    }
}

proof fn lemma_sum_swap(f: spec_fn(int) -> int, g: spec_fn(int) -> int, m: int)
    requires
        m >= 0,
        m % 2 == 0,
        forall|i: int| 0 <= i < m ==> #[trigger] g(i) == f(partner(i)),
    ensures
        sum(g, m) == sum(f, m),
    decreases m,
{
    if m > 0 {
        lemma_sum_swap(f, g, m - 2);
        assert(sum(g, m - 1) == sum(g, m - 2) + g(m - 2));
        assert(sum(f, m - 1) == sum(f, m - 2) + f(m - 2));
        assert(g(m - 2) == f(m - 1));
        assert(g(m - 1) == f(m - 2));
    }
}

/// The flow leaving node `w` over the first `m` edges, as a sum.
spec fn leaving(fr: spec_fn(int) -> int, d: spec_fn(int) -> int, w: int, m: int) -> int {
    sum(|e: int| if fr(e) == w { d(e) } else { 0 }, m)
}

/// Summing prices node by node or edge by edge gives the same total.
proof fn lemma_exchange(fr: spec_fn(int) -> int, d: spec_fn(int) -> int, p: spec_fn(int) -> int, n: int, m: int)
    requires
        m >= 0,
        forall|e: int| 0 <= e < m ==> 0 <= #[trigger] fr(e) < n,
    ensures
        sum(|w: int| p(w) * leaving(fr, d, w, m), n) == sum(|e: int| p(fr(e)) * d(e), m),
    decreases m,
{
    if m == 0 {
        lemma_sum_point(|w: int| p(w) * leaving(fr, d, w, m), -1, n);
    } else {
        let k = m - 1;
        lemma_exchange(fr, d, p, n, k);
        let f0 = |w: int| p(w) * leaving(fr, d, w, k);
        let f1 = |w: int| p(w) * leaving(fr, d, w, m);
        let pt = |w: int| if w == fr(k) { p(w) * d(k) } else { 0 };
        assert forall|w: int| 0 <= w < n implies #[trigger] f1(w) == f0(w) + pt(w) by {
            let delta = if fr(k) == w { d(k) } else { 0 };
            assert(leaving(fr, d, w, m) == leaving(fr, d, w, k) + delta);
            vstd::arithmetic::mul::lemma_mul_is_distributive_add(p(w), leaving(fr, d, w, k), delta);
        }
        lemma_sum_add(f0, pt, f1, n);
        lemma_sum_point(pt, fr(k), n);
    }
}

proof fn lemma_leaving_net_out(g: Seq<ArcView>, es: Seq<ArcView>, w: usize, m: int)
    requires
        same_network(g, es),
        0 <= m <= es.len(),
    ensures
        net_out_upto(g, w, m) - net_out_upto(es, w, m) == leaving(
            |e: int| es[e].from as int, |e: int| g[e].flow - es[e].flow, w as int, m),
    decreases m,
{
    if m > 0 {
        lemma_leaving_net_out(g, es, w, m - 1);
        assert(g[m - 1].from == es[m - 1].from);
    }
}

/// Twice the cost of a flow is the sum of cost times flow over all edges.
proof fn lemma_cost_doubled(es: Seq<ArcView>, cs: Seq<int>, n: int, m: int)
    requires
        pairs_ok(es, n),
        cs.len() == es.len(),
        costs_paired(cs),
        0 <= m <= es.len(),
        m % 2 == 0,
    ensures
        sum(|e: int| cs[e] * es[e].flow, m) == 2 * flow_cost_upto(es, cs, m),
    decreases m,
{
    if m > 0 {
        lemma_cost_doubled(es, cs, n, m - 2);
        let f = |e: int| cs[e] * es[e].flow;
        assert(sum(f, m - 1) == sum(f, m - 2) + f(m - 2));
        assert(arc_ok(es, n, m - 2));
        assert(partner(m - 2) == m - 1);
        assert(cs[m - 1] == -cs[m - 2]);
        assert(es[m - 1].flow == -es[m - 2].flow);
        assert(cs[m - 1] * es[m - 1].flow == cs[m - 2] * es[m - 2].flow) by (nonlinear_arith)
            requires
                cs[m - 1] == -cs[m - 2],
                es[m - 1].flow == -es[m - 2].flow,
        ;
        assert(flow_cost_upto(es, cs, m - 1) == flow_cost_upto(es, cs, m - 2) + cs[m - 2] * es[m - 2].flow);
        assert(flow_cost_upto(es, cs, m) == flow_cost_upto(es, cs, m - 1));
    }
}

/// Reduced-cost optimality: if some node prices leave no edge with remaining
/// capacity a negative reduced cost, then no valid flow of the same value on
/// the same network costs less.
pub proof fn lemma_prices_least_cost(es: Seq<ArcView>, cs: Seq<int>, n: int, s: usize, t: usize, p: spec_fn(usize) -> int)
    requires
        valid_flow(es, n, s, t),
        n <= usize::MAX,
        cs.len() == es.len(),
        costs_paired(cs),
        feasible_prices(es, cs, p),
    ensures
        least_cost(es, cs, n, s, t),
{
    assert forall|g: Seq<ArcView>| same_network(g, es) && valid_flow(g, n, s, t) && net_out(g, s) == net_out(es, s)
        implies flow_cost(es, cs) <= #[trigger] flow_cost(g, cs) by {
        lemma_cheaper_or_equal(es, g, cs, n, s, t, p);
    }
}

/// Two maximum flows on one network, each of least cost among the flows of
/// its value, carry the same value at the same cost: an exact computation has
/// one answer, whichever shortest-path strategy found it.
pub proof fn lemma_least_cost_unique(a: Seq<ArcView>, b: Seq<ArcView>, cs: Seq<int>, n: int, s: usize, t: usize)
    requires
        same_network(a, b),
        is_max_flow(a, n, s, t),
        is_max_flow(b, n, s, t),
        least_cost(a, cs, n, s, t),
        least_cost(b, cs, n, s, t),
    ensures
        net_out(a, s) == net_out(b, s),
        flow_cost(a, cs) == flow_cost(b, cs),
{
    assert(same_network(b, a)) by {
        assert forall|e: int| 0 <= e < b.len() implies #[trigger] b[e].from == a[e].from && b[e].to == a[e].to
            && b[e].cap == a[e].cap by {
            assert(a[e].from == b[e].from);
        }
    }
    assert(net_out(b, s) <= net_out(a, s));
    assert(net_out(a, s) <= net_out(b, s));
    assert(flow_cost(a, cs) <= flow_cost(b, cs));
    assert(flow_cost(b, cs) <= flow_cost(a, cs));
}

proof fn lemma_cheaper_or_equal(es: Seq<ArcView>, g: Seq<ArcView>, cs: Seq<int>, n: int, s: usize, t: usize, p: spec_fn(usize) -> int)
    requires
        valid_flow(es, n, s, t),
        n <= usize::MAX,
        same_network(g, es),
        valid_flow(g, n, s, t),
        net_out(g, s) == net_out(es, s),
        cs.len() == es.len(),
        costs_paired(cs),
        feasible_prices(es, cs, p),
    ensures
        flow_cost(es, cs) <= flow_cost(g, cs),
{
    let len = es.len() as int;
    let fr = |e: int| es[e].from as int;
    let d = |e: int| g[e].flow - es[e].flow;
    let pi = |w: int| p(w as usize);
    let one = |w: int| 1int;
    assert forall|e: int| 0 <= e < len implies 0 <= #[trigger] fr(e) < n by {
        assert(arc_ok(es, n, e));
    }
    // Every node keeps the same net outflow under both flows.
    assert forall|w: int| 0 <= w < n && w != t implies #[trigger] leaving(fr, d, w, len) == 0 by {
        let v = w as usize;
        lemma_leaving_net_out(g, es, v, len);
        assert(net_out(g, v) == net_out(es, v));
    }
    // The differences cancel in pairs, so they sum to zero.
    let negd = |e: int| -d(e);
    assert forall|e: int| 0 <= e < len implies #[trigger] negd(e) == d(partner(e)) by {
        assert(arc_ok(es, n, e));
        assert(arc_ok(g, n, e));
    }
    lemma_sum_swap(d, negd, len);
    lemma_sum_add(d, negd, |e: int| 0int, len);
    lemma_sum_point(|e: int| 0int, -1, len);
    lemma_exchange(fr, d, one, n, len);
    let od = |e: int| one(fr(e)) * d(e);
    let zero = |e: int| 0int;
    assert forall|e: int| 0 <= e < len implies #[trigger] od(e) == d(e) + zero(e) by {}
    lemma_sum_add(d, zero, od, len);
    let ol = |w: int| one(w) * leaving(fr, d, w, len);
    assert forall|w: int| 0 <= w < n && w != t implies #[trigger] ol(w) == 0 by {}
    lemma_sum_point(ol, t as int, n);
    if 0 <= t < n {
        assert(leaving(fr, d, t as int, len) == 0);
    }
    // Prices summed over edge tails and heads both vanish.
    let pd = |e: int| pi(fr(e)) * d(e);
    lemma_exchange(fr, d, pi, n, len);
    let pl = |w: int| pi(w) * leaving(fr, d, w, len);
    assert forall|w: int| 0 <= w < n implies #[trigger] pl(w) == 0 by {
        assert(leaving(fr, d, w, len) == 0);
    }
    lemma_sum_point(pl, -1, n);
    assert(sum(pd, len) == 0);
    let qd = |e: int| p(es[e].to) * d(e);
    let negpd = |e: int| -pd(e);
    assert forall|e: int| 0 <= e < len implies #[trigger] qd(e) == negpd(partner(e)) by {
        assert(arc_ok(es, n, e));
        assert(arc_ok(g, n, e));
        let q = partner(e);
        assert(es[q].from == es[e].to);
        assert(d(q) == -d(e));
        assert(fr(q) as usize == es[e].to);
        vstd::arithmetic::mul::lemma_mul_unary_negation(p(es[e].to), d(e));
    }
    lemma_sum_swap(negpd, qd, len);
    lemma_sum_add(pd, negpd, |e: int| 0int, len);
    assert(sum(qd, len) == 0);
    // Each edge contributes a non-negative reduced cost times its change.
    let rd = |e: int| reduced_cost(es, cs, p, e) * d(e);
    assert forall|e: int| 0 <= e < len implies #[trigger] rd(e) >= 0 by {
        assert(arc_ok(es, n, e));
        assert(arc_ok(g, n, e));
        let r = reduced_cost(es, cs, p, e);
        if d(e) > 0 {
            assert(residual(es, e) > 0);
            assert(r >= 0);
            vstd::arithmetic::mul::lemma_mul_nonnegative(r, d(e));
        } else if d(e) < 0 {
            let q = partner(e);
            assert(0 <= q < len);
            assert(arc_ok(es, n, q));
            assert(arc_ok(g, n, q));
            assert(residual(es, q) > 0);
            assert(reduced_cost(es, cs, p, q) >= 0);
            assert(cs[q] == -cs[e]);
            assert(reduced_cost(es, cs, p, q) == -r);
            assert(r * d(e) >= 0) by (nonlinear_arith)
                requires
                    r <= 0,
                    d(e) < 0,
            ;
        }
    }
    lemma_sum_nonneg(rd, len);
    // Cost change = reduced part + (head prices - tail prices) part.
    let cd = |e: int| cs[e] * d(e);
    let rest = |e: int| qd(e) + negpd(e);
    assert forall|e: int| 0 <= e < len implies #[trigger] cd(e) == rd(e) + rest(e) by {
        let r = reduced_cost(es, cs, p, e);
        let a = p(es[e].from);
        let b = p(es[e].to);
        assert(pi(fr(e)) == a);
        assert(cs[e] * d(e) == r * d(e) + (b * d(e) + -(a * d(e)))) by (nonlinear_arith)
            requires
                r == cs[e] + a - b,
        ;
    }
    lemma_sum_add(rd, rest, cd, len);
    lemma_sum_add(qd, negpd, rest, len);
    // Relate to the costs of the two flows.
    assert(pairs_ok(es, n) && pairs_ok(g, n));
    lemma_cost_doubled(es, cs, n, len);
    lemma_cost_doubled(g, cs, n, len);
    let cf = |e: int| cs[e] * es[e].flow;
    let cg = |e: int| cs[e] * g[e].flow;
    assert forall|e: int| 0 <= e < len implies #[trigger] cg(e) == cf(e) + cd(e) by {
        vstd::arithmetic::mul::lemma_mul_is_distributive_add(cs[e], es[e].flow, d(e));
    }
    lemma_sum_add(cf, cd, cg, len);
    assert(g.len() == len);
}

} // verus!
