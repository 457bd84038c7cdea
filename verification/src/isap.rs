//! Maximum flow by ISAP: distance labels towards the sink, advancing along
//! admissible edges, relabeling on retreat, and stopping at a gap.
use vstd::prelude::*;
use crate::flow::{flows_fit, cuts_at_least, lemma_reach_cut, lemma_cut_saturated, 
    ArcView, residual, partner, arc_ok, pairs_ok, net_out, valid_flow, cap_sum, cut_edges, caps_of,
    closed, cut_upto, lemma_net_out_le_caps, lemma_cap_sum_same, same_network, is_max_flow, reach_side,
    residual_reach, adj_ok, listed, lemma_max_flow, lemma_cut_side_same, lemma_add_pair, pushed_on,
    lemma_push, lemma_adj_push, lemma_same_network_trans, lemma_cap_sum_network,
};

verus! {

/// An edge of the network with its current flow.
#[derive(Debug, Clone, PartialEq, Eq)]
pub struct IsapEdge {
    pub from: usize,
    pub to: usize,
    pub cap: i64,
    pub flow: i64,
}

/// Why a request was refused.
#[derive(Debug, Clone, PartialEq, Eq)]
pub enum IsapError {
    InvalidNodeCount { n: usize },
    NodeOutOfRange { node: usize, n: usize },
    SourceEqualsSink { node: usize },
    NegativeCapacity { cap: i64 },
    NotInitialized,
}

/// The model of an edge.
pub open spec fn isap_arc(e: IsapEdge) -> ArcView {
    ArcView { from: e.from, to: e.to, cap: e.cap as int, flow: e.flow as int }
}

/// The model of a sequence of edges.
pub open spec fn isap_arcs(es: Seq<IsapEdge>) -> Seq<ArcView> {
    es.map_values(|e: IsapEdge| isap_arc(e))
}

/// Number of nodes below `k` with label `x`.
spec fn count_eq(d: Seq<usize>, x: int, k: int) -> int
    decreases k,
{
    if k <= 0 {
        0
    } else {
        count_eq(d, x, k - 1) + if d[k - 1] == x { 1int } else { 0 }
    }
}

/// Number of nodes below `k` with a label below `m`.
spec fn count_lt(d: Seq<usize>, m: int, k: int) -> int
    decreases k,
{
    if k <= 0 {
        0
    } else {
        count_lt(d, m, k - 1) + if d[k - 1] < m { 1int } else { 0 }
    }
}

proof fn lemma_count_bounds(d: Seq<usize>, x: int, k: int)
    requires
        0 <= k,
    ensures
        0 <= count_eq(d, x, k) <= k,
    decreases k,
{
    if k > 0 {
        lemma_count_bounds(d, x, k - 1);
    }
}

proof fn lemma_count_update(d: Seq<usize>, u: int, new: usize, x: int, k: int)
    requires
        0 <= u < d.len(),
        0 <= k <= d.len(),
    ensures
        count_eq(d.update(u, new), x, k) == count_eq(d, x, k)
            - (if u < k && d[u] == x { 1int } else { 0 }) + (if u < k && new == x { 1int } else { 0 }),
    decreases k,
{
    if k > 0 {
        lemma_count_update(d, u, new, x, k - 1);
    }
}

proof fn lemma_count_pos(d: Seq<usize>, x: int, k: int, v: int)
    requires
        0 <= v < k,
        d[v] == x,
    ensures
        count_eq(d, x, k) >= 1,
    decreases k,
{
    lemma_count_bounds(d, x, k - 1);
    if v < k - 1 {
        lemma_count_pos(d, x, k - 1, v);
    }
}

proof fn lemma_count_all(d: Seq<usize>, x: usize, k: int)
    requires
        0 <= k <= d.len(),
        forall|j: int| 0 <= j < k ==> #[trigger] d[j] == x,
    ensures
        count_eq(d, x as int, k) == k,
    decreases k,
{
    if k > 0 {
        lemma_count_all(d, x, k - 1);
    }
}

proof fn lemma_count_lt_step(d: Seq<usize>, m: int, k: int)
    requires
        0 <= k,
    ensures
        count_lt(d, m + 1, k) == count_lt(d, m, k) + count_eq(d, m, k),
    decreases k,
{
    if k > 0 {
        lemma_count_lt_step(d, m, k - 1);
    }
}

proof fn lemma_count_lt_excl(d: Seq<usize>, m: int, k: int, s: int)
    requires
        0 <= s < k,
        d[s] >= m,
    ensures
        count_lt(d, m, k) <= k - 1,
    decreases k,
{
    if s < k - 1 {
        lemma_count_lt_excl(d, m, k - 1, s);
    } else {
        lemma_count_lt_le(d, m, k - 1);
    }
}

proof fn lemma_count_lt_le(d: Seq<usize>, m: int, k: int)
    requires
        0 <= k,
    ensures
        0 <= count_lt(d, m, k) <= k,
    decreases k,
{
    if k > 0 {
        lemma_count_lt_le(d, m, k - 1);
    }
}

proof fn lemma_count_lt_grows(d: Seq<usize>, n: int, m: int)
    requires
        0 <= m <= n,
        forall|g: int| 0 <= g < m ==> #[trigger] count_eq(d, g, n) >= 1,
    ensures
        count_lt(d, m, n) >= m,
    decreases m,
{
    lemma_count_lt_le(d, m, n);
    if m > 0 {
        lemma_count_lt_grows(d, n, m - 1);
        lemma_count_lt_step(d, m - 1, n);
        assert(count_eq(d, m - 1, n) >= 1);
    }
}

/// With the source at label `n` and the sink at label 0, some label in
/// `[1, n)` is held by no node.
proof fn lemma_gap_exists(d: Seq<usize>, n: int, s: int, t: int)
    requires
        d.len() == n,
        0 <= s < n,
        0 <= t < n,
        d[s] >= n,
        d[t] == 0,
    ensures
        exists|g: int| 1 <= g < n && #[trigger] count_eq(d, g, n) == 0,
{
    if forall|g: int| 1 <= g < n ==> #[trigger] count_eq(d, g, n) != 0 {
        lemma_count_pos(d, 0, n, t);
        assert forall|g: int| 0 <= g < n implies #[trigger] count_eq(d, g, n) >= 1 by {
            lemma_count_bounds(d, g, n);
        }
        lemma_count_lt_grows(d, n, n);
        lemma_count_lt_excl(d, n, n, s);
        assert(false);
    }
}

/// Every edge with remaining capacity goes down at most one label.
spec fn labels_valid(es: Seq<ArcView>, dist: Seq<usize>) -> bool {
    forall|e: int| 0 <= e < es.len() && residual(es, e) > 0 ==> dist[#[trigger] es[e].from as int] <= dist[es[e].to as int] + 1
}

/// Edge `e` goes down exactly one label, to a labeled node, with remaining capacity.
spec fn admissible(es: Seq<ArcView>, dist: Seq<usize>, n: int, e: int) -> bool {
    &&& residual(es, e) > 0
    &&& dist[es[e].to as int] < n
    &&& dist[es[e].from as int] == dist[es[e].to as int] + 1
}

/// The edges before each node's current arc are not admissible.
spec fn arcs_skipped(es: Seq<ArcView>, g: Seq<Seq<usize>>, dist: Seq<usize>, cur: Seq<usize>, n: int) -> bool {
    &&& cur.len() == n
    &&& forall|v: int| 0 <= v < n ==> #[trigger] cur[v] <= g[v].len()
    &&& forall|v: int, k: int| 0 <= v < n && 0 <= k < cur[v] ==> !#[trigger] admissible(es, dist, n, g[v][k] as int)
}

/// `chain` is a path of admissible edges from `s`, recorded in `path`.
spec fn chain_ok(es: Seq<ArcView>, dist: Seq<usize>, path: Seq<usize>, chain: Seq<usize>, n: int, s: usize) -> bool {
    &&& chain.len() >= 1
    &&& chain[0] == s
    &&& forall|j: int| 0 <= j < chain.len() ==> #[trigger] chain[j] < n
    &&& forall|j: int| 0 <= j < chain.len() - 1 ==> #[trigger] link_ok(es, dist, path, chain, j)
}

/// The edge recorded for `chain[j + 1]` links it admissibly to `chain[j]`.
spec fn link_ok(es: Seq<ArcView>, dist: Seq<usize>, path: Seq<usize>, chain: Seq<usize>, j: int) -> bool {
    let e = path[chain[j + 1] as int] as int;
    &&& 0 <= e < es.len()
    &&& es[e].from == chain[j]
    &&& es[e].to == chain[j + 1]
    &&& residual(es, e) > 0
    &&& dist[chain[j] as int] == dist[chain[j + 1] as int] + 1
}

proof fn lemma_chain_dist(es: Seq<ArcView>, dist: Seq<usize>, path: Seq<usize>, chain: Seq<usize>, n: int, s: usize, i: int, j: int)
    requires
        chain_ok(es, dist, path, chain, n, s),
        0 <= i <= j < chain.len(),
    ensures
        dist[chain[i] as int] == dist[chain[j] as int] + (j - i),
    decreases j - i,
{
    if i < j {
        lemma_chain_dist(es, dist, path, chain, n, s, i + 1, j);
        assert(link_ok(es, dist, path, chain, i));
    }
}

/// Sum over nodes of how far each label is below `n`.
spec fn label_room(d: Seq<usize>, n: int, k: int) -> int
    decreases k,
{
    if k <= 0 {
        0
    } else {
        label_room(d, n, k - 1) + (n - d[k - 1])
    }
}

proof fn lemma_label_room(d: Seq<usize>, n: int, u: int, new: usize, k: int)
    requires
        0 <= u < d.len(),
        0 <= k <= d.len(),
        forall|v: int| 0 <= v < d.len() ==> #[trigger] d[v] <= n,
        new <= n,
    ensures
        label_room(d, n, k) >= 0,
        label_room(d.update(u, new), n, k) == label_room(d, n, k) + if u < k { d[u] - new } else { 0 },
    decreases k,
{
    if k > 0 {
        lemma_label_room(d, n, u, new, k - 1);
    }
}


/// Labels above a value that no node holds form a closed set.
proof fn lemma_label_cut(es: Seq<ArcView>, dist: Seq<usize>, n: int, s: usize, t: usize, g: int)
    requires
        pairs_ok(es, n),
        dist.len() == n,
        labels_valid(es, dist),
        forall|v: int| 0 <= v < n ==> #[trigger] dist[v] != g,
        s < n,
        t < n,
        dist[s as int] > g,
        dist[t as int] < g,
    ensures
        !residual_reach(es, s, t),
{
    let side = |v: usize| v < n && dist[v as int] > g;
    assert forall|e: int| 0 <= e < es.len() && side(#[trigger] es[e].from) && residual(es, e) > 0 implies side(es[e].to) by {
        assert(arc_ok(es, n, e));
    }
    assert(side(s) && closed(es, side) && !side(t));
}

/// Count zero means no node below `k` holds the label.
proof fn lemma_count_zero(d: Seq<usize>, x: int, k: int)
    requires
        0 <= k <= d.len(),
        count_eq(d, x, k) == 0,
    ensures
        forall|v: int| 0 <= v < k ==> #[trigger] d[v] != x,
{
    assert forall|v: int| 0 <= v < k implies #[trigger] d[v] != x by {
        if d[v] == x {
            lemma_count_pos(d, x, k, v);
        }
    }
}

/// Node `q[j]` was reached from the earlier node `q[i]` over edge `k` of its list.
spec fn q_parent(es: Seq<ArcView>, g: Seq<Seq<usize>>, q: Seq<usize>, j: int, i: int, k: int) -> bool {
    &&& 0 <= i < j
    &&& 0 <= k < g[q[i] as int].len()
    &&& 0 <= g[q[i] as int][k] < es.len()
    &&& es[g[q[i] as int][k] as int].from == q[i]
    &&& es[g[q[i] as int][k] as int].to == q[j]
    &&& residual(es, g[q[i] as int][k] as int) > 0
}

/// Node `q[j]` was reached from some earlier node of `q`.
spec fn has_q_parent(es: Seq<ArcView>, g: Seq<Seq<usize>>, q: Seq<usize>, j: int) -> bool {
    exists|i: int, k: int| #[trigger] q_parent(es, g, q, j, i, k)
}

proof fn lemma_q_parent_push(es: Seq<ArcView>, g: Seq<Seq<usize>>, q: Seq<usize>, x: usize, j: int)
    requires
        0 < j < q.len(),
        has_q_parent(es, g, q, j),
    ensures
        has_q_parent(es, g, q.push(x), j),
{
    let (i, k) = choose|i: int, k: int| #[trigger] q_parent(es, g, q, j, i, k);
    assert(q.push(x)[i] == q[i]);
    assert(q.push(x)[j] == q[j]);
    assert(q_parent(es, g, q.push(x), j, i, k));
}

proof fn lemma_queue_reach(es: Seq<ArcView>, g: Seq<Seq<usize>>, q: Seq<usize>, s: usize, j: int)
    requires
        0 <= j < q.len(),
        q[0] == s,
        forall|j2: int| 0 < j2 < q.len() ==> #[trigger] has_q_parent(es, g, q, j2),
    ensures
        residual_reach(es, s, q[j]),
    decreases j,
{
    if j > 0 {
        assert(has_q_parent(es, g, q, j));
        let (i, k) = choose|i: int, k: int| #[trigger] q_parent(es, g, q, j, i, k);
        lemma_queue_reach(es, g, q, s, i);
        assert forall|side: spec_fn(usize) -> bool| side(s) && closed(es, side) implies #[trigger] side(q[j]) by {
            assert(side(q[i]));
            let e = g[q[i] as int][k] as int;
            assert(residual(es, e) > 0);
            assert(side(es[e].from));
            assert(side(es[e].to));
        }
    }
}

/// Counts the unmarked nodes among the first `k`.
spec fn unmarked(r: Seq<bool>, k: int) -> int
    decreases k,
{
    if k <= 0 {
        0
    } else {
        unmarked(r, k - 1) + if r[k - 1] { 0int } else { 1 }
    }
}

proof fn lemma_unmarked(r: Seq<bool>, x: int, k: int)
    requires
        0 <= x < r.len(),
        0 <= k <= r.len(),
        !r[x],
    ensures
        0 <= unmarked(r, k) <= k,
        unmarked(r.update(x, true), k) == unmarked(r, k) - if x < k { 1int } else { 0 },
        x < k ==> unmarked(r, k) >= 1,
    decreases k,
{
    if k > 0 {
        lemma_unmarked(r, x, k - 1);
    }
}

proof fn lemma_unmarked_all(r: Seq<bool>, k: int)
    requires
        0 <= k <= r.len(),
        forall|j: int| 0 <= j < k ==> !#[trigger] r[j],
    ensures
        unmarked(r, k) == k,
    decreases k,
{
    if k > 0 {
        lemma_unmarked_all(r, k - 1);
    }
}

proof fn lemma_unmarked_bounds(r: Seq<bool>, k: int)
    requires
        0 <= k,
    ensures
        0 <= unmarked(r, k) <= k,
    decreases k,
{
    if k > 0 {
        lemma_unmarked_bounds(r, k - 1);
    }
}

/// Maximum flow by ISAP.
pub struct Isap {
    cur: Vec<usize>,
    cnt: Vec<usize>,
    dist: Vec<usize>,
    path: Vec<usize>,
    edges: Vec<IsapEdge>,
    graph: Vec<Vec<usize>>,
    n: usize,
    source: usize,
    sink: usize,
    maxflow_cache: i64,
    dirty: bool,
}

impl Isap {
    /// The edges of the network with their flows, in insertion order; edge
    /// `2k + 1` is the reverse of edge `2k`.
    pub closed spec fn spec_arcs(&self) -> Seq<ArcView> {
        isap_arcs(self.edges@)
    }

    /// Number of nodes; 0 before initialization.
    pub closed spec fn spec_n(&self) -> nat {
        self.n as nat
    }

    pub closed spec fn spec_source(&self) -> usize {
        self.source
    }

    pub closed spec fn spec_sink(&self) -> usize {
        self.sink
    }

    spec fn adj(&self) -> Seq<Seq<usize>> {
        self.graph@.map_values(|a: Vec<usize>| a@)
    }

    /// The solver's internal invariant.
    pub closed spec fn wf(&self) -> bool {
        &&& self.n == 0 ==> self.edges.len() == 0 && self.graph.len() == 0 && self.maxflow_cache == 0
        &&& self.n > 0 ==> {
            &&& self.source < self.n
            &&& self.sink < self.n
            &&& self.source != self.sink
            &&& self.n < usize::MAX
            &&& self.cur.len() == self.n
            &&& self.dist.len() == self.n
            &&& self.path.len() == self.n
            &&& self.cnt.len() == self.n + 1
            &&& adj_ok(self.spec_arcs(), self.adj(), self.n as int)
            &&& valid_flow(self.spec_arcs(), self.n as int, self.source, self.sink)
            &&& self.maxflow_cache == net_out(self.spec_arcs(), self.source)
            &&& !self.dirty ==> !residual_reach(self.spec_arcs(), self.source, self.sink)
        }
    }

    /// A solver with no network yet.
    pub fn new() -> (d: Self)
        ensures
            d.wf(),
            d.spec_n() == 0,
            d.spec_arcs().len() == 0,
    {
        let d = Isap {
            cur: Vec::new(),
            cnt: Vec::new(),
            dist: Vec::new(),
            path: Vec::new(),
            edges: Vec::new(),
            graph: Vec::new(),
            n: 0,
            source: 0,
            sink: 0,
            maxflow_cache: 0,
            dirty: true,
        };
        proof {
            assert(d.spec_arcs() =~= Seq::<ArcView>::empty());
        }
        d
    }

    /// Starts over with `n` nodes, no edges and no flow.
    pub fn try_init(&mut self, source: usize, sink: usize, n: usize) -> (r: Result<(), IsapError>)
        requires
            old(self).wf(),
            n < usize::MAX,
        ensures
            final(self).wf(),
            n == 0 ==> r == Err::<(), IsapError>(IsapError::InvalidNodeCount { n }),
            n > 0 && source >= n ==> r == Err::<(), IsapError>(IsapError::NodeOutOfRange { node: source, n }),
            n > 0 && source < n && sink >= n ==> r == Err::<(), IsapError>(IsapError::NodeOutOfRange { node: sink, n }),
            n > 0 && source < n && sink < n && source == sink ==> r == Err::<(), IsapError>(IsapError::SourceEqualsSink { node: source }),
            r is Err ==> *final(self) == *old(self),
            r is Ok <==> (n > 0 && source < n && sink < n && source != sink),
            r is Ok ==> final(self).spec_n() == n && final(self).spec_source() == source
                && final(self).spec_sink() == sink && final(self).spec_arcs().len() == 0,
    {
        if n == 0 {
            return Err(IsapError::InvalidNodeCount { n });
        }
        if source >= n {
            return Err(IsapError::NodeOutOfRange { node: source, n });
        }
        if sink >= n {
            return Err(IsapError::NodeOutOfRange { node: sink, n });
        }
        if source == sink {
            return Err(IsapError::SourceEqualsSink { node: source });
        }
        let mut cur: Vec<usize> = Vec::new();
        let mut dist: Vec<usize> = Vec::new();
        let mut path: Vec<usize> = Vec::new();
        let mut cnt: Vec<usize> = Vec::new();
        let mut graph: Vec<Vec<usize>> = Vec::new();
        let mut i: usize = 0;
        while i < n
            invariant
                i <= n,
                cur.len() == i,
                dist.len() == i,
                path.len() == i,
                cnt.len() == i,
                graph.len() == i,
                forall|j: int| 0 <= j < i ==> (#[trigger] graph[j])@.len() == 0,
            decreases n - i,
        {
            cur.push(0);
            dist.push(n);
            path.push(0);
            cnt.push(0);
            graph.push(Vec::new());
            i += 1;
        }
        cnt.push(0);
        self.cur = cur;
        self.dist = dist;
        self.path = path;
        self.cnt = cnt;
        self.graph = graph;
        self.edges = Vec::new();
        self.n = n;
        self.source = source;
        self.sink = sink;
        self.maxflow_cache = 0;
        self.dirty = true;
        proof {
            let es = self.spec_arcs();
            assert(es =~= Seq::<ArcView>::empty());
            assert forall|v: usize| v < n && v != source && v != sink implies #[trigger] net_out(es, v) == 0 by {}
            assert(adj_ok(es, self.adj(), n as int));
        }
        Ok(())
    }

    /// Starts over with `n` nodes; the arguments must be valid.
    pub fn init(&mut self, source: usize, sink: usize, n: usize)
        requires
            old(self).wf(),
            0 < n < usize::MAX,
            source < n,
            sink < n,
            source != sink,
        ensures
            final(self).wf(),
            final(self).spec_n() == n,
            final(self).spec_source() == source,
            final(self).spec_sink() == sink,
            final(self).spec_arcs().len() == 0,
    {
        let r = self.try_init(source, sink, n);
        assert(r is Ok);
    }

    /// Adds an edge of capacity `cap` from `from` to `to` (and its reverse).
    pub fn try_add_edge(&mut self, from: usize, to: usize, cap: i64) -> (r: Result<(), IsapError>)
        requires
            old(self).wf(),
            old(self).spec_arcs().len() + 2 <= usize::MAX,
        ensures
            final(self).wf(),
            old(self).spec_n() == 0 ==> r == Err::<(), IsapError>(IsapError::NotInitialized),
            old(self).spec_n() > 0 && from >= old(self).spec_n() ==> r == Err::<(), IsapError>(
                IsapError::NodeOutOfRange { node: from, n: old(self).spec_n() as usize }),
            old(self).spec_n() > 0 && from < old(self).spec_n() && to >= old(self).spec_n() ==> r == Err::<(), IsapError>(
                IsapError::NodeOutOfRange { node: to, n: old(self).spec_n() as usize }),
            old(self).spec_n() > 0 && from < old(self).spec_n() && to < old(self).spec_n() && cap < 0 ==> r == Err::<(), IsapError>(
                IsapError::NegativeCapacity { cap }),
            r is Err ==> *final(self) == *old(self),
            r is Ok <==> (old(self).spec_n() > 0 && from < old(self).spec_n() && to < old(self).spec_n() && cap >= 0),
            final(self).spec_n() == old(self).spec_n(),
            final(self).spec_source() == old(self).spec_source(),
            final(self).spec_sink() == old(self).spec_sink(),
            r is Ok ==> final(self).spec_arcs() == old(self).spec_arcs()
                .push(ArcView { from, to, cap: cap as int, flow: 0 })
                .push(ArcView { from: to, to: from, cap: 0, flow: 0 }),
    {
        if self.n == 0 {
            return Err(IsapError::NotInitialized);
        }
        if from >= self.n {
            return Err(IsapError::NodeOutOfRange { node: from, n: self.n });
        }
        if to >= self.n {
            return Err(IsapError::NodeOutOfRange { node: to, n: self.n });
        }
        if cap < 0 {
            return Err(IsapError::NegativeCapacity { cap });
        }
        let ghost es0 = self.spec_arcs();
        let ghost g0 = self.adj();
        let edge_id = self.edges.len();
        self.graph[from].push(edge_id);
        self.graph[to].push(edge_id + 1);
        self.edges.push(IsapEdge { from, to, cap, flow: 0 });
        self.edges.push(IsapEdge { from: to, to: from, cap: 0, flow: 0 });
        self.dirty = true;
        proof {
            let x = ArcView { from, to, cap: cap as int, flow: 0 };
            let y = ArcView { from: to, to: from, cap: 0, flow: 0 };
            let es = self.spec_arcs();
            assert(es =~= es0.push(x).push(y));
            let g = self.adj();
            let n = self.n as int;
            assert(g.len() == n);
            assert forall|u: int, k: int| 0 <= u < n && 0 <= k < g[u].len() implies #[trigger] g[u][k] < es.len() && es[g[u][k] as int].from == u by {
                if k < g0[u].len() {
                    assert(g[u][k] == g0[u][k]);
                }
            }
            if from != to {
                assert(g =~~= g0.update(from as int, g0[from as int].push(edge_id)).update(to as int, g0[to as int].push((edge_id + 1) as usize)));
            } else {
                assert(g =~~= g0.update(from as int, g0[from as int].push(edge_id).push((edge_id + 1) as usize)));
            }
            lemma_adj_push(es0, g0, n, from, to, x, y, g);
            assert forall|e: int| 0 <= e < es.len() implies #[trigger] arc_ok(es, n, e) by {
                if e < es0.len() {
                    assert(arc_ok(es0, n, e));
                    assert(partner(e) < es0.len());
                }
            }
            assert forall|v: usize| v < n && v != self.source && v != self.sink implies #[trigger] net_out(es, v) == 0 by {
                lemma_add_pair(es0, x, y, v);
            }
            lemma_add_pair(es0, x, y, self.source);
            assert(pairs_ok(es, n));
            assert(adj_ok(es, g, n));
            assert(valid_flow(es, n, self.source, self.sink));
        }
        Ok(())
    }

    /// Distance labels: breadth-first distances to the sink over edges with
    /// remaining capacity, `n` where the sink cannot be reached.
    fn bfs_from_sink(&mut self)
        requires
            old(self).n > 0,
            old(self).n < usize::MAX,
            old(self).sink < old(self).n,
            old(self).dist.len() == old(self).n,
            adj_ok(old(self).spec_arcs(), old(self).adj(), old(self).n as int),
            pairs_ok(old(self).spec_arcs(), old(self).n as int),
        ensures
            final(self).edges == old(self).edges,
            final(self).graph == old(self).graph,
            final(self).cur == old(self).cur,
            final(self).cnt == old(self).cnt,
            final(self).path == old(self).path,
            final(self).n == old(self).n,
            final(self).source == old(self).source,
            final(self).sink == old(self).sink,
            final(self).maxflow_cache == old(self).maxflow_cache,
            final(self).dirty == old(self).dirty,
            final(self).dist.len() == old(self).n,
            final(self).dist@[old(self).sink as int] == 0,
            forall|v: int| 0 <= v < old(self).n ==> #[trigger] final(self).dist@[v] <= old(self).n,
            forall|v: int| 0 <= v < old(self).n && v != old(self).sink ==> #[trigger] final(self).dist@[v] >= 1,
            labels_valid(final(self).spec_arcs(), final(self).dist@),
    {
        let n = self.n;
        let ghost es = self.spec_arcs();
        let ghost g = self.adj();
        let mut v: usize = 0;
        while v < n
            invariant
                v <= n,
                self.dist.len() == n,
                forall|j: int| 0 <= j < v ==> #[trigger] self.dist@[j] == n,
                self.edges == old(self).edges,
                self.graph == old(self).graph,
                self.cur == old(self).cur,
                self.cnt == old(self).cnt,
                self.path == old(self).path,
                self.n == n,
                self.source == old(self).source,
                self.sink == old(self).sink,
                self.maxflow_cache == old(self).maxflow_cache,
                self.dirty == old(self).dirty,
                self.sink < n,
            decreases n - v,
        {
            self.dist.set(v, n);
            v += 1;
        }
        proof {
            lemma_count_all(self.dist@, n, n as int);
            lemma_count_update(self.dist@, self.sink as int, 0, n as int, n as int);
        }
        let mut queue: Vec<usize> = Vec::new();
        self.dist.set(self.sink, 0);
        queue.push(self.sink);
        let mut head: usize = 0;
        proof {
            assert forall|v: int| 0 <= v < n && self.dist@[v] < n implies exists|j: int| 0 <= j < queue.len() && #[trigger] queue@[j] == v by {
                assert(v == self.sink);
                assert(queue@[0] == v);
            }
        }
        while head < queue.len()
            invariant
                self.edges == old(self).edges,
                self.graph == old(self).graph,
                self.cur == old(self).cur,
                self.cnt == old(self).cnt,
                self.path == old(self).path,
                self.n == n,
                self.source == old(self).source,
                self.sink == old(self).sink,
                self.maxflow_cache == old(self).maxflow_cache,
                self.dirty == old(self).dirty,
                es == self.spec_arcs(),
                g == self.adj(),
                adj_ok(es, g, n as int),
                pairs_ok(es, n as int),
                n < usize::MAX,
                self.sink < n,
                self.dist.len() == n,
                head <= queue.len(),
                queue.len() + count_eq(self.dist@, n as int, n as int) == n,
                forall|j: int| 0 <= j < queue.len() ==> #[trigger] queue@[j] < n
                    && self.dist@[queue@[j] as int] <= j,
                forall|i: int, j: int| 0 <= i <= j < queue.len() ==> self.dist@[#[trigger] queue@[i] as int] <= self.dist@[#[trigger] queue@[j] as int],
                head > 0 ==> forall|j: int| 0 <= j < queue.len() ==> self.dist@[#[trigger] queue@[j] as int] <= self.dist@[queue@[head - 1] as int] + 1,
                head == 0 ==> queue.len() == 1,
                forall|v: int| 0 <= v < n && self.dist@[v] < n ==> exists|j: int| 0 <= j < queue.len() && #[trigger] queue@[j] == v,
                forall|v: int| 0 <= v < n ==> #[trigger] self.dist@[v] <= n,
                self.dist@[self.sink as int] == 0,
                forall|v: int| 0 <= v < n && v != self.sink ==> #[trigger] self.dist@[v] >= 1,
                forall|j: int, k: int| 0 <= j < head && 0 <= k < g[queue@[j] as int].len()
                    && residual(es, partner(#[trigger] g[queue@[j] as int][k] as int)) > 0
                    ==> self.dist@[es[g[queue@[j] as int][k] as int].to as int] <= self.dist@[queue@[j] as int] + 1,
            decreases count_eq(self.dist@, n as int, n as int), queue.len() - head,
        {
            proof {
                lemma_count_bounds(self.dist@, n as int, n as int);
            }
            let u = queue[head];
            head += 1;
            let ghost ql0 = queue.len();
            let deg = self.graph[u].len();
            let mut k: usize = 0;
            while k < deg
                invariant
                    self.edges == old(self).edges,
                    self.graph == old(self).graph,
                    self.cur == old(self).cur,
                    self.cnt == old(self).cnt,
                    self.path == old(self).path,
                    self.n == n,
                    self.source == old(self).source,
                    self.sink == old(self).sink,
                    self.maxflow_cache == old(self).maxflow_cache,
                    self.dirty == old(self).dirty,
                    es == self.spec_arcs(),
                    g == self.adj(),
                    adj_ok(es, g, n as int),
                    pairs_ok(es, n as int),
                    n < usize::MAX,
                    self.sink < n,
                    self.dist.len() == n,
                    1 <= head <= queue.len(),
                    u == queue@[head - 1],
                    u < n,
                    deg == g[u as int].len(),
                    k <= deg,
                    queue.len() >= ql0,
                    queue.len() + count_eq(self.dist@, n as int, n as int) == n,
                    forall|j: int| 0 <= j < queue.len() ==> #[trigger] queue@[j] < n
                        && self.dist@[queue@[j] as int] <= j,
                    forall|i: int, j: int| 0 <= i <= j < queue.len() ==> self.dist@[#[trigger] queue@[i] as int] <= self.dist@[#[trigger] queue@[j] as int],
                    forall|j: int| 0 <= j < queue.len() ==> self.dist@[#[trigger] queue@[j] as int] <= self.dist@[u as int] + 1,
                    forall|v: int| 0 <= v < n && self.dist@[v] < n ==> exists|j: int| 0 <= j < queue.len() && #[trigger] queue@[j] == v,
                    forall|v: int| 0 <= v < n ==> #[trigger] self.dist@[v] <= n,
                    self.dist@[self.sink as int] == 0,
                    forall|v: int| 0 <= v < n && v != self.sink ==> #[trigger] self.dist@[v] >= 1,
                    forall|j: int, k: int| 0 <= j < head - 1 && 0 <= k < g[queue@[j] as int].len()
                        && residual(es, partner(#[trigger] g[queue@[j] as int][k] as int)) > 0
                        ==> self.dist@[es[g[queue@[j] as int][k] as int].to as int] <= self.dist@[queue@[j] as int] + 1,
                    forall|k2: int| 0 <= k2 < k && residual(es, partner(#[trigger] g[u as int][k2] as int)) > 0
                        ==> self.dist@[es[g[u as int][k2] as int].to as int] <= self.dist@[u as int] + 1,
                decreases deg - k,
            {
                let ghost d_start = self.dist@;
                let ghost q_start = queue@;
                let e = self.graph[u][k];
                let rev = e ^ 1;
                proof {
                    assert(g[u as int][k as int] == e);
                    assert(arc_ok(es, n as int, e as int));
                    assert(e ^ 1 == if e % 2 == 0 { (e + 1) as usize } else { (e - 1) as usize }) by (bit_vector);
                    assert(rev == partner(e as int));
                    assert(arc_ok(es, n as int, rev as int));
                    assert(es[e as int] == isap_arc(self.edges@[e as int]));
                    assert(es[rev as int] == isap_arc(self.edges@[rev as int]));
                }
                let to = self.edges[e].to;
                if self.dist[to] == n && self.edges[rev].cap > self.edges[rev].flow {
                    let ghost d0 = self.dist@;
                    let ghost q0 = queue@;
                    proof {
                        lemma_count_bounds(self.dist@, n as int, n as int);
                        lemma_count_update(self.dist@, to as int, (self.dist@[u as int] + 1) as usize, n as int, n as int);
                        lemma_count_bounds(self.dist@.update(to as int, (self.dist@[u as int] + 1) as usize), n as int, n as int);
                        lemma_count_pos(self.dist@, n as int, n as int, to as int);
                        assert(queue.len() < n);
                        assert(self.dist@[u as int] <= head - 1);
                    }
                    let du = self.dist[u];
                    self.dist.set(to, du + 1);
                    queue.push(to);
                    proof {
                        let d = self.dist@;
                        assert forall|v: int| 0 <= v < n && d[v] < n implies exists|j: int| 0 <= j < queue.len() && #[trigger] queue@[j] == v by {
                            if v == to {
                                assert(queue@[queue.len() - 1] == v);
                            } else {
                                assert(d0[v] < n);
                                let j = choose|j: int| 0 <= j < q0.len() && #[trigger] q0[j] == v;
                                assert(queue@[j] == v);
                            }
                        }
                        assert forall|i: int, j: int| 0 <= i <= j < queue.len() implies d[#[trigger] queue@[i] as int] <= d[#[trigger] queue@[j] as int] by {
                            if j < q0.len() {
                                assert(queue@[i] == q0[i] && queue@[j] == q0[j]);
                                assert(d0[q0[i] as int] <= d0[q0[j] as int]);
                                assert(q0[i] != to && q0[j] != to);
                            } else if i < q0.len() {
                                assert(queue@[i] == q0[i]);
                                assert(d0[q0[i] as int] <= d0[u as int] + 1);
                                assert(q0[i] != to);
                            }
                        }
                        assert forall|j: int| 0 <= j < queue.len() implies d[#[trigger] queue@[j] as int] <= d[u as int] + 1 by {
                            if j < q0.len() {
                                assert(queue@[j] == q0[j]);
                                assert(q0[j] != to);
                            }
                        }
                        assert forall|j: int| 0 <= j < queue.len() implies #[trigger] queue@[j] < n && d[queue@[j] as int] <= j by {
                            if j < q0.len() {
                                assert(queue@[j] == q0[j]);
                                assert(q0[j] != to);
                            } else {
                                assert(d0[u as int] <= head - 1);
                            }
                        }
                    }
                }
                proof {
                    let d = self.dist@;
                    assert forall|y: int| 0 <= y < n && d_start[y] < n implies #[trigger] d[y] == d_start[y] by {}
                    assert forall|y: int| 0 <= y < n implies #[trigger] d[y] <= d_start[y] by {}
                    lemma_count_bounds(d_start, n as int, n as int);
                    assert forall|j: int, k3: int| 0 <= j < head - 1 && 0 <= k3 < g[queue@[j] as int].len()
                        && residual(es, partner(#[trigger] g[queue@[j] as int][k3] as int)) > 0
                        implies d[es[g[queue@[j] as int][k3] as int].to as int] <= d[queue@[j] as int] + 1 by {
                        assert(queue@[j] == q_start[j]);
                        let ee = g[q_start[j] as int][k3] as int;
                        assert(g[queue@[j] as int][k3] as int == ee);
                        assert(arc_ok(es, n as int, ee));
                        let w = es[ee].to as int;
                        assert(d_start[w] <= d_start[q_start[j] as int] + 1);
                        assert(d_start[q_start[j] as int] < n);
                        assert(d[w] <= d_start[w]);
                    }
                    assert forall|k2: int| 0 <= k2 < k + 1 && residual(es, partner(#[trigger] g[u as int][k2] as int)) > 0
                        implies d[es[g[u as int][k2] as int].to as int] <= d[u as int] + 1 by {
                        let ee = g[u as int][k2] as int;
                        assert(arc_ok(es, n as int, ee));
                        let w = es[ee].to as int;
                        if k2 < k {
                            assert(d_start[w] <= d_start[u as int] + 1);
                            assert(d[w] <= d_start[w]);
                        }
                    }
                }
                k += 1;
            }
            proof {
                lemma_count_bounds(self.dist@, n as int, n as int);
            }
        }
        proof {
            let d = self.dist@;
            assert forall|e: int| 0 <= e < es.len() && residual(es, e) > 0 implies d[#[trigger] es[e].from as int] <= d[es[e].to as int] + 1 by {
                assert(arc_ok(es, n as int, e));
                let y = es[e].to;
                let x = es[e].from;
                if d[y as int] < n {
                    let j = choose|j: int| 0 <= j < queue.len() && #[trigger] queue@[j] == y;
                    let p = partner(e);
                    assert(arc_ok(es, n as int, p));
                    assert(es[p].from == y);
                    assert(listed(g, y as int, p));
                    let k = choose|k: int| 0 <= k < g[y as int].len() && #[trigger] g[y as int][k] == p;
                    assert(partner(p) == e);
                    assert(g[queue@[j] as int][k] == p);
                    assert(es[p].to == x);
                }
            }
        }
    }

    /// Pushes the bottleneck capacity along the recorded path from the source
    /// to the sink.
    fn augment(&mut self, Ghost(chain): Ghost<Seq<usize>>) -> (delta: i64)
        requires
            old(self).n > 0,
            old(self).source != old(self).sink,
            old(self).path.len() == old(self).n,
            old(self).dist.len() == old(self).n,
            pairs_ok(old(self).spec_arcs(), old(self).n as int),
            chain_ok(old(self).spec_arcs(), old(self).dist@, old(self).path@, chain, old(self).n as int, old(self).source),
            chain.last() == old(self).sink,
        ensures
            final(self).n == old(self).n,
            final(self).source == old(self).source,
            final(self).sink == old(self).sink,
            final(self).graph == old(self).graph,
            final(self).dist == old(self).dist,
            final(self).cur == old(self).cur,
            final(self).cnt == old(self).cnt,
            final(self).path == old(self).path,
            final(self).maxflow_cache == old(self).maxflow_cache,
            final(self).dirty == old(self).dirty,
            same_network(old(self).spec_arcs(), final(self).spec_arcs()),
            pairs_ok(final(self).spec_arcs(), old(self).n as int),
            1 <= delta <= i64::MAX / 4,
            forall|v: usize| #[trigger] net_out(final(self).spec_arcs(), v) == net_out(old(self).spec_arcs(), v)
                + (if v == old(self).source { delta as int } else if v == old(self).sink { -delta } else { 0 }),
            forall|e: int| 0 <= e < old(self).spec_arcs().len()
                && #[trigger] residual(final(self).spec_arcs(), e) > residual(old(self).spec_arcs(), e)
                ==> old(self).dist@[old(self).spec_arcs()[e].to as int] == old(self).dist@[old(self).spec_arcs()[e].from as int] + 1,
    {
        let ghost es0 = self.spec_arcs();
        let ghost dist = self.dist@;
        let ghost path = self.path@;
        let ghost n = self.n as int;
        let ghost s0 = self.source;
        let ghost last = chain.len() - 1;
        proof {
            assert forall|j: int| 0 < j < chain.len() implies #[trigger] chain[j] != s0 by {
                lemma_chain_dist(es0, dist, path, chain, n, s0, 0, j);
            }
            assert forall|i: int, j: int| 0 <= i < j < chain.len() implies #[trigger] chain[i] != #[trigger] chain[j] by {
                lemma_chain_dist(es0, dist, path, chain, n, s0, i, j);
            }
        }
        let mut delta: i64 = i64::MAX / 4;
        let mut v = self.sink;
        let ghost mut j: int = last;
        while v != self.source
            invariant
                0 <= j <= last,
                last == chain.len() - 1,
                v == chain[j],
                self.spec_arcs() == es0,
                self.path@ == path,
                self.source == s0,
                chain_ok(es0, dist, path, chain, n, s0),
                pairs_ok(es0, n),
                self.path.len() == n,
                forall|j2: int| 0 < j2 < chain.len() ==> #[trigger] chain[j2] != s0,
                1 <= delta <= i64::MAX / 4,
                forall|i: int| j <= i < last ==> delta <= #[trigger] residual(es0, path[chain[i + 1] as int] as int),
            decreases j,
        {
            assert(j > 0);
            assert(link_ok(es0, dist, path, chain, j - 1));
            let e = self.path[v];
            proof {
                assert(es0[e as int] == isap_arc(self.edges@[e as int]));
                assert(arc_ok(es0, n, e as int));
            }
            let remain = self.edges[e].cap - self.edges[e].flow;
            if delta > remain {
                delta = remain;
            }
            v = self.edges[e].from;
            proof {
                j = j - 1;
            }
        }
        let mut v = self.sink;
        let ghost mut j: int = last;
        while v != self.source
            invariant
                0 <= j <= last,
                last == chain.len() - 1,
                v == chain[j],
                self.path@ == path,
                self.source == s0,
                self.sink == chain[last],
                self.n == n,
                self.graph == old(self).graph,
                self.dist == old(self).dist,
                self.cur == old(self).cur,
                self.cnt == old(self).cnt,
                self.path == old(self).path,
                self.maxflow_cache == old(self).maxflow_cache,
                self.dirty == old(self).dirty,
                chain_ok(es0, dist, path, chain, n, s0),
                pairs_ok(es0, n),
                self.path.len() == n,
                forall|j2: int| 0 < j2 < chain.len() ==> #[trigger] chain[j2] != s0,
                forall|i: int, k: int| 0 <= i < k < chain.len() ==> #[trigger] chain[i] != #[trigger] chain[k],
                1 <= delta <= i64::MAX / 4,
                forall|i: int| 0 <= i < last ==> delta <= #[trigger] residual(es0, path[chain[i + 1] as int] as int),
                pairs_ok(self.spec_arcs(), n),
                same_network(es0, self.spec_arcs()),
                forall|i: int| 0 <= i < j ==> #[trigger] self.spec_arcs()[path[chain[i + 1] as int] as int] == es0[path[chain[i + 1] as int] as int],
                forall|w: usize| #[trigger] net_out(self.spec_arcs(), w) == net_out(es0, w)
                    + (if j < last && w == chain[j] { delta as int } else { 0 }) - (if j < last && w == chain[last] { delta as int } else { 0 }),
                forall|e: int| 0 <= e < es0.len() && #[trigger] residual(self.spec_arcs(), e) > residual(es0, e)
                    ==> dist[es0[e].to as int] == dist[es0[e].from as int] + 1,
            decreases j,
        {
            assert(j > 0);
            assert(link_ok(es0, dist, path, chain, j - 1));
            let ghost es1 = self.spec_arcs();
            let e = self.path[v];
            let ghost ei = e as int;
            proof {
                assert(es1[ei] == es0[ei]);
                assert(arc_ok(es1, n, ei));
                assert(delta <= residual(es0, path[chain[j] as int] as int));
                lemma_push(es1, n, ei, delta as int);
                assert(e ^ 1 == if e % 2 == 0 { (e + 1) as usize } else { (e - 1) as usize }) by (bit_vector);
            }
            let p = e ^ 1;
            let ep = &self.edges[e];
            let from = ep.from;
            let ne = IsapEdge { from: ep.from, to: ep.to, cap: ep.cap, flow: ep.flow + delta };
            self.edges.set(e, ne);
            let pp = &self.edges[p];
            let np = IsapEdge { from: pp.from, to: pp.to, cap: pp.cap, flow: pp.flow - delta };
            self.edges.set(p, np);
            proof {
                let es2 = self.spec_arcs();
                assert(es2 =~= pushed_on(es1, ei, delta as int));
                lemma_same_network_trans(es0, es1, es2);
                let pe = partner(ei);
                assert(arc_ok(es0, n, ei));
                assert forall|i: int| 0 <= i < j - 1 implies #[trigger] es2[path[chain[i + 1] as int] as int] == es0[path[chain[i + 1] as int] as int] by {
                    let x = path[chain[i + 1] as int] as int;
                    assert(link_ok(es0, dist, path, chain, i));
                    assert(es0[x].from == chain[i]);
                    assert(chain[i] != chain[j - 1]);
                    assert(chain[i] != chain[j]);
                    assert(es0[pe].from == es0[ei].to);
                    assert(x != ei);
                    assert(x != pe);
                }
                assert forall|e2: int| 0 <= e2 < es0.len() && #[trigger] residual(es2, e2) > residual(es0, e2)
                    implies dist[es0[e2].to as int] == dist[es0[e2].from as int] + 1 by {
                    if e2 == pe {
                        assert(es0[pe].from == chain[j] && es0[pe].to == chain[j - 1]);
                    } else if e2 == ei {
                        assert(residual(es2, e2) < residual(es1, e2));
                        assert(false);
                    } else {
                        assert(es2[e2] == es1[e2]);
                        assert(residual(es1, e2) > residual(es0, e2));
                    }
                }
            }
            v = from;
            proof {
                j = j - 1;
            }
        }
        delta
    }

    /// Current arcs, label counts and recorded path back to zero.
    fn reset_state(&mut self)
        requires
            old(self).cur.len() == old(self).n,
            old(self).path.len() == old(self).n,
            old(self).cnt.len() == old(self).n + 1,
        ensures
            final(self).cur.len() == old(self).n,
            final(self).path.len() == old(self).n,
            final(self).cnt.len() == old(self).n + 1,
            forall|j: int| 0 <= j < old(self).n ==> #[trigger] final(self).cur@[j] == 0,
            forall|j: int| 0 <= j <= old(self).n ==> #[trigger] final(self).cnt@[j] == 0,
            final(self).edges == old(self).edges,
            final(self).graph == old(self).graph,
            final(self).dist == old(self).dist,
            final(self).n == old(self).n,
            final(self).source == old(self).source,
            final(self).sink == old(self).sink,
            final(self).maxflow_cache == old(self).maxflow_cache,
            final(self).dirty == old(self).dirty,
    {
        let n = self.n;
        let mut i: usize = 0;
        while i < n
            invariant
                i <= n,
                n == old(self).n,
                self.cur.len() == n,
                self.path.len() == n,
                self.cnt.len() == n + 1,
                forall|j: int| 0 <= j < i ==> #[trigger] self.cur@[j] == 0,
                forall|j: int| 0 <= j < i ==> #[trigger] self.cnt@[j] == 0,
                self.edges == old(self).edges,
                self.graph == old(self).graph,
                self.dist == old(self).dist,
                self.n == old(self).n,
                self.source == old(self).source,
                self.sink == old(self).sink,
                self.maxflow_cache == old(self).maxflow_cache,
                self.dirty == old(self).dirty,
            decreases n - i,
        {
            self.cur.set(i, 0);
            self.cnt.set(i, 0);
            self.path.set(i, 0);
            i += 1;
        }
        self.cnt.set(n, 0);
    }

    /// Counts the nodes at each label below `n`.
    fn count_labels(&mut self)
        requires
            old(self).cnt.len() == old(self).n + 1,
            old(self).dist.len() == old(self).n,
            forall|j: int| 0 <= j <= old(self).n ==> #[trigger] old(self).cnt@[j] == 0,
            forall|x: int| 0 <= x < old(self).n ==> #[trigger] old(self).dist@[x] <= old(self).n,
        ensures
            final(self).cnt.len() == old(self).n + 1,
            forall|d: int| 0 <= d < old(self).n ==> #[trigger] final(self).cnt@[d] == count_eq(old(self).dist@, d, old(self).n as int),
            final(self).cnt@[old(self).n as int] == 0,
            final(self).edges == old(self).edges,
            final(self).graph == old(self).graph,
            final(self).dist == old(self).dist,
            final(self).cur == old(self).cur,
            final(self).path == old(self).path,
            final(self).n == old(self).n,
            final(self).source == old(self).source,
            final(self).sink == old(self).sink,
            final(self).maxflow_cache == old(self).maxflow_cache,
            final(self).dirty == old(self).dirty,
    {
        let n = self.n;
        let mut v: usize = 0;
        while v < n
            invariant
                v <= n,
                n == old(self).n,
                self.cnt.len() == n + 1,
                self.dist == old(self).dist,
                self.dist.len() == n,
                forall|x: int| 0 <= x < n ==> #[trigger] self.dist@[x] <= n,
                forall|d: int| 0 <= d < n ==> #[trigger] self.cnt@[d] == count_eq(self.dist@, d, v as int),
                self.cnt@[n as int] == 0,
                self.edges == old(self).edges,
                self.graph == old(self).graph,
                self.cur == old(self).cur,
                self.path == old(self).path,
                self.n == old(self).n,
                self.source == old(self).source,
                self.sink == old(self).sink,
                self.maxflow_cache == old(self).maxflow_cache,
                self.dirty == old(self).dirty,
            decreases n - v,
        {
            let d = self.dist[v];
            proof {
                lemma_count_bounds(self.dist@, d as int, v as int);
            }
            if d < n {
                let c = self.cnt[d];
                self.cnt.set(d, c + 1);
            }
            v += 1;
        }
    }

    /// Moves the current arc of `u` to its first admissible edge, if any.
    fn advance_arc(&mut self, u: usize) -> (res: (bool, usize))
        requires
            u < old(self).n,
            old(self).cur.len() == old(self).n,
            old(self).dist.len() == old(self).n,
            adj_ok(old(self).spec_arcs(), old(self).adj(), old(self).n as int),
            pairs_ok(old(self).spec_arcs(), old(self).n as int),
            arcs_skipped(old(self).spec_arcs(), old(self).adj(), old(self).dist@, old(self).cur@, old(self).n as int),
        ensures
            final(self).edges == old(self).edges,
            final(self).graph == old(self).graph,
            final(self).dist == old(self).dist,
            final(self).cnt == old(self).cnt,
            final(self).path == old(self).path,
            final(self).n == old(self).n,
            final(self).source == old(self).source,
            final(self).sink == old(self).sink,
            final(self).maxflow_cache == old(self).maxflow_cache,
            final(self).dirty == old(self).dirty,
            final(self).cur.len() == old(self).n,
            arcs_skipped(old(self).spec_arcs(), old(self).adj(), old(self).dist@, final(self).cur@, old(self).n as int),
            res.0 ==> final(self).cur@[u as int] < old(self).adj()[u as int].len()
                && res.1 == old(self).adj()[u as int][final(self).cur@[u as int] as int]
                && admissible(old(self).spec_arcs(), old(self).dist@, old(self).n as int, res.1 as int),
            !res.0 ==> final(self).cur@[u as int] >= old(self).adj()[u as int].len(),
    {
        let ghost es = self.spec_arcs();
        let ghost g = self.adj();
        let ghost dist = self.dist@;
        let n = self.n;
        let deg = self.graph[u].len();
        while self.cur[u] < deg
            invariant
                self.edges == old(self).edges,
                self.graph == old(self).graph,
                self.dist == old(self).dist,
                self.cnt == old(self).cnt,
                self.path == old(self).path,
                self.n == old(self).n,
                self.source == old(self).source,
                self.sink == old(self).sink,
                self.maxflow_cache == old(self).maxflow_cache,
                self.dirty == old(self).dirty,
                n == self.n,
                es == self.spec_arcs(),
                g == self.adj(),
                dist == self.dist@,
                self.dist.len() == n,
                self.cur.len() == n,
                u < n,
                deg == g[u as int].len(),
                adj_ok(es, g, n as int),
                pairs_ok(es, n as int),
                arcs_skipped(es, g, dist, self.cur@, n as int),
            decreases deg - self.cur@[u as int],
        {
            let k = self.cur[u];
            let e = self.graph[u][k];
            proof {
                assert(g[u as int][k as int] == e);
                assert(es[e as int] == isap_arc(self.edges@[e as int]));
                assert(arc_ok(es, n as int, e as int));
            }
            let to = self.edges[e].to;
            let remain = self.edges[e].cap - self.edges[e].flow;
            let relabel_ok = self.dist[to] < n && self.dist[u] == self.dist[to] + 1;
            if remain > 0 && relabel_ok {
                return (true, e);
            }
            self.cur.set(u, k + 1);
        }
        (false, 0)
    }

    /// The flow is up to date: no path with remaining capacity leads from
    /// the source to the sink.
    pub closed spec fn spec_settled(&self) -> bool {
        !self.dirty
    }

    /// The value of a maximum flow from the source to the sink, computed from
    /// the current flow on (0 before initialization).
    #[verifier::rlimit(60)]
    pub fn maxflow(&mut self) -> (r: i64)
        requires
            old(self).wf(),
            flows_fit(old(self).spec_arcs(), old(self).spec_n() as int, old(self).spec_source(), old(self).spec_sink()),
        ensures
            final(self).wf(),
            final(self).spec_n() == old(self).spec_n(),
            final(self).spec_source() == old(self).spec_source(),
            final(self).spec_sink() == old(self).spec_sink(),
            same_network(old(self).spec_arcs(), final(self).spec_arcs()),
            old(self).spec_n() == 0 ==> r == 0,
            old(self).spec_n() > 0 ==> final(self).spec_settled(),
            old(self).spec_n() > 0 ==> r == net_out(final(self).spec_arcs(), final(self).spec_source()),
            old(self).spec_n() > 0 ==> is_max_flow(final(self).spec_arcs(), final(self).spec_n() as int,
                final(self).spec_source(), final(self).spec_sink()),
            old(self).spec_n() > 0 ==> !residual_reach(final(self).spec_arcs(), final(self).spec_source(),
                final(self).spec_sink()),
            old(self).spec_n() > 0 ==> r == caps_of(cut_edges(final(self).spec_arcs(),
                reach_side(final(self).spec_arcs(), final(self).spec_source()))),
            old(self).spec_n() > 0 ==> cuts_at_least(final(self).spec_arcs(), final(self).spec_source(),
                final(self).spec_sink(), r as int),
    {
        if self.n == 0 {
            return 0;
        }
        let ghost es_start = self.spec_arcs();
        if self.dirty {
            let n = self.n;
            let s = self.source;
            let t = self.sink;
            let ghost g = self.adj();
            let mut maxflow = self.maxflow_cache;
            self.reset_state();
            self.bfs_from_sink();
            self.count_labels();
            let mut u = s;
            let ghost mut chain: Seq<usize> = seq![s];
            proof {
                lemma_count_bounds(self.dist@, n as int, n as int);
            }
            loop
                invariant_except_break
                    forall|d: int| 0 <= d < n ==> #[trigger] self.cnt@[d] == count_eq(self.dist@, d, n as int),
                    self.cnt@[n as int] <= count_eq(self.dist@, n as int, n as int),
                invariant
                    self.n == n,
                    self.source == s,
                    self.sink == t,
                    g == self.adj(),
                    n > 0,
                    n < usize::MAX,
                    s < n,
                    t < n,
                    s != t,
                    self.dirty,
                    self.cur.len() == n,
                    self.dist.len() == n,
                    self.path.len() == n,
                    self.cnt.len() == n + 1,
                    adj_ok(self.spec_arcs(), g, n as int),
                    valid_flow(self.spec_arcs(), n as int, s, t),
                    same_network(es_start, self.spec_arcs()),
                    flows_fit(es_start, n as int, s, t),
                    es_start == old(self).spec_arcs(),
                    maxflow == self.maxflow_cache,
                    self.maxflow_cache == net_out(self.spec_arcs(), s),
                    forall|x: int| 0 <= x < n ==> #[trigger] self.dist@[x] <= n,
                    self.dist@[t as int] == 0,
                    forall|x: int| 0 <= x < n && x != t ==> #[trigger] self.dist@[x] >= 1,
                    labels_valid(self.spec_arcs(), self.dist@),
                    arcs_skipped(self.spec_arcs(), g, self.dist@, self.cur@, n as int),
                    chain_ok(self.spec_arcs(), self.dist@, self.path@, chain, n as int, s),
                    chain.last() == u,
                    u < n,
                ensures
                    self.n == n,
                    self.source == s,
                    self.sink == t,
                    g == self.adj(),
                    self.dirty,
                    self.cur.len() == n,
                    self.dist.len() == n,
                    self.path.len() == n,
                    self.cnt.len() == n + 1,
                    adj_ok(self.spec_arcs(), g, n as int),
                    valid_flow(self.spec_arcs(), n as int, s, t),
                    same_network(es_start, self.spec_arcs()),
                    self.maxflow_cache == net_out(self.spec_arcs(), s),
                    !residual_reach(self.spec_arcs(), s, t),
                decreases label_room(self.dist@, n as int, n as int), cap_sum(self.spec_arcs()) - net_out(self.spec_arcs(), s),
                    self.dist@[u as int],
            {
                let ghost es = self.spec_arcs();
                let ghost dist = self.dist@;
                proof {
                    lemma_label_room(dist, n as int, 0, 0, n as int);
                    lemma_net_out_le_caps(es, n as int, s, es.len() as int);
                }
                if self.dist[s] >= n {
                    proof {
                        lemma_gap_exists(dist, n as int, s as int, t as int);
                        let gv = choose|gv: int| 1 <= gv < n && #[trigger] count_eq(dist, gv, n as int) == 0;
                        lemma_count_zero(dist, gv, n as int);
                        lemma_label_cut(es, dist, n as int, s, t, gv);
                    }
                    break;
                }
                proof {
                    if u != s {
                        lemma_chain_dist(es, dist, self.path@, chain, n as int, s, 0, chain.len() - 1);
                    }
                    assert(dist[u as int] < n);
                }
                if u == t {
                    let delta = self.augment(Ghost(chain));
                    proof {
                        let es2 = self.spec_arcs();
                        lemma_cap_sum_network(es, es2);
                        lemma_net_out_le_caps(es2, n as int, s, es2.len() as int);
                        lemma_same_network_trans(es_start, es, es2);
                        assert(net_out(es2, s) == net_out(es, s) + delta);
                        assert forall|x: usize| x < n && x != s && x != t implies #[trigger] net_out(es2, x) == 0 by {
                            assert(net_out(es2, x) == net_out(es, x));
                        }
                        assert forall|e: int| 0 <= e < es2.len() && residual(es2, e) > 0
                            implies dist[#[trigger] es2[e].from as int] <= dist[es2[e].to as int] + 1 by {
                            assert(es[e].from == es2[e].from && es[e].to == es2[e].to);
                            if residual(es2, e) > residual(es, e) {
                            } else {
                                assert(residual(es, e) > 0);
                                assert(dist[es[e].from as int] <= dist[es[e].to as int] + 1);
                            }
                        }
                        assert forall|x: int, k: int| 0 <= x < n && 0 <= k < self.cur@[x]
                            implies !#[trigger] admissible(es2, dist, n as int, g[x][k] as int) by {
                            let e = g[x][k] as int;
                            assert(!admissible(es, dist, n as int, e));
                            assert(es[e].from == es2[e].from && es[e].to == es2[e].to);
                        }
                        assert(adj_ok(es2, g, n as int)) by {
                            assert forall|e2: int| 0 <= e2 < es2.len() implies #[trigger] listed(g, es2[e2].from as int, e2) by {
                                assert(listed(g, es[e2].from as int, e2));
                                assert(es[e2].from == es2[e2].from);
                            }
                        }
                        assert(pairs_ok(es2, n as int));
                        assert(same_network(es_start, es2) && valid_flow(es2, n as int, s, t));
                        assert(net_out(es2, s) <= i64::MAX);
                    }
                    maxflow = maxflow + delta;
                    self.maxflow_cache = maxflow;
                    u = s;
                    proof {
                        chain = seq![s];
                    }
                    continue;
                }
                let deg = self.graph[u].len();
                let (advanced, edge) = self.advance_arc(u);
                if advanced {
                    let to = self.edges[edge].to;
                    proof {
                        assert(es[edge as int] == isap_arc(self.edges@[edge as int]));
                        lemma_chain_dist(es, dist, self.path@, chain, n as int, s, 0, chain.len() - 1);
                        assert(arc_ok(es, n as int, edge as int));
                        assert(g[u as int][self.cur@[u as int] as int] == edge);
                        assert(es[edge as int].from == u);
                    }
                    let ghost path0 = self.path@;
                    self.path.set(to, edge);
                    proof {
                        let new_chain = chain.push(to);
                        assert forall|j: int| 0 <= j < new_chain.len() - 1 implies #[trigger] link_ok(es, dist, self.path@, new_chain, j) by {
                            if j < chain.len() - 1 {
                                assert(link_ok(es, dist, path0, chain, j));
                                lemma_chain_dist(es, dist, path0, chain, n as int, s, j + 1, chain.len() - 1);
                                assert(new_chain[j + 1] != to);
                            } else {
                                assert(new_chain[j] == u);
                                assert(new_chain[j + 1] == to);
                                assert(self.path@[to as int] == edge);
                            }
                        }
                        chain = new_chain;
                    }
                    u = to;
                    continue;
                }
                // Relabel: no admissible edge leaves u.
                let old_dist = self.dist[u];
                let mut min_dist = n - 1;
                let mut k: usize = 0;
                proof {
                    assert forall|k2: int| 0 <= k2 < deg && residual(es, #[trigger] g[u as int][k2] as int) > 0
                        implies dist[es[g[u as int][k2] as int].to as int] >= dist[u as int] by {
                        let e = g[u as int][k2] as int;
                        assert(!admissible(es, dist, n as int, e));
                        assert(es[e].from == u);
                    }
                }
                while k < deg
                    invariant
                        self.spec_arcs() == es,
                        self.dist@ == dist,
                        self.dist.len() == n,
                        g == self.adj(),
                        u < n,
                        deg == g[u as int].len(),
                        k <= deg,
                        adj_ok(es, g, n as int),
                        pairs_ok(es, n as int),
                        old_dist == dist[u as int],
                        old_dist < n,
                        old_dist <= min_dist <= n - 1,
                        forall|k2: int| 0 <= k2 < deg && residual(es, #[trigger] g[u as int][k2] as int) > 0
                            ==> dist[es[g[u as int][k2] as int].to as int] >= dist[u as int],
                        forall|k2: int| 0 <= k2 < k && residual(es, #[trigger] g[u as int][k2] as int) > 0
                            ==> min_dist <= dist[es[g[u as int][k2] as int].to as int],
                    decreases deg - k,
                {
                    let e = self.graph[u][k];
                    proof {
                        assert(g[u as int][k as int] == e);
                        assert(es[e as int] == isap_arc(self.edges@[e as int]));
                        assert(arc_ok(es, n as int, e as int));
                    }
                    if self.edges[e].cap > self.edges[e].flow {
                        let dt = self.dist[self.edges[e].to];
                        if dt < min_dist {
                            min_dist = dt;
                        }
                    }
                    k += 1;
                }
                proof {
                    lemma_count_pos(dist, old_dist as int, n as int, u as int);
                }
                let c = self.cnt[old_dist];
                self.cnt.set(old_dist, c - 1);
                if self.cnt[old_dist] == 0 {
                    proof {
                        lemma_count_update(dist, u as int, n, old_dist as int, n as int);
                        lemma_count_zero(dist.update(u as int, n), old_dist as int, n as int);
                        lemma_chain_dist(es, dist, self.path@, chain, n as int, s, 0, chain.len() - 1);
                        let side = |x: usize| x < n && dist[x as int] >= old_dist;
                        assert forall|e: int| 0 <= e < es.len() && side(#[trigger] es[e].from) && residual(es, e) > 0 implies side(es[e].to) by {
                            assert(arc_ok(es, n as int, e));
                            let x = es[e].from;
                            if x == u {
                                assert(listed(g, u as int, e));
                                let k2 = choose|k2: int| 0 <= k2 < g[u as int].len() && #[trigger] g[u as int][k2] == e;
                                assert(residual(es, g[u as int][k2] as int) > 0);
                            } else {
                                assert(dist.update(u as int, n)[x as int] != old_dist);
                            }
                        }
                        assert(side(s) && closed(es, side) && !side(t));
                    }
                    break;
                }
                let nd = if min_dist + 1 < n { min_dist + 1 } else { n };
                proof {
                    lemma_count_update(dist, u as int, nd, old_dist as int, n as int);
                    lemma_count_update(dist, u as int, nd, nd as int, n as int);
                    lemma_count_bounds(dist.update(u as int, nd), nd as int, n as int);
                    lemma_label_room(dist, n as int, u as int, nd, n as int);
                }
                self.dist.set(u, nd);
                let c2 = self.cnt[nd];
                self.cnt.set(nd, c2 + 1);
                self.cur.set(u, 0);
                proof {
                    let d2 = self.dist@;
                    assert forall|d: int| 0 <= d < n implies #[trigger] self.cnt@[d] == count_eq(d2, d, n as int) by {
                        lemma_count_update(dist, u as int, nd, d, n as int);
                    }
                    lemma_count_update(dist, u as int, nd, n as int, n as int);
                    assert forall|e: int| 0 <= e < es.len() && residual(es, e) > 0
                        implies d2[#[trigger] es[e].from as int] <= d2[es[e].to as int] + 1 by {
                        assert(arc_ok(es, n as int, e));
                        if es[e].from == u {
                            assert(listed(g, u as int, e));
                            let k2 = choose|k2: int| 0 <= k2 < g[u as int].len() && #[trigger] g[u as int][k2] == e;
                            assert(residual(es, g[u as int][k2] as int) > 0);
                        }
                    }
                    assert forall|x: int, k2: int| 0 <= x < n && 0 <= k2 < self.cur@[x]
                        implies !#[trigger] admissible(es, d2, n as int, g[x][k2] as int) by {
                        let e = g[x][k2] as int;
                        assert(x != u);
                        assert(!admissible(es, dist, n as int, e));
                        assert(es[e].from == x);
                        assert(arc_ok(es, n as int, e));
                    }
                    assert forall|x: int| 0 <= x < n implies #[trigger] self.cur@[x] <= g[x].len() by {}
                    lemma_label_room(d2, n as int, 0, 0, n as int);
                }
                if u != s {
                    let pe = self.path[u];
                    proof {
                        assert(link_ok(es, dist, self.path@, chain, chain.len() - 2));
                        assert(es[pe as int] == isap_arc(self.edges@[pe as int]));
                    }
                    u = self.edges[pe].from;
                    proof {
                        let new_chain = chain.drop_last();
                        assert forall|j: int| 0 <= j < new_chain.len() - 1 implies #[trigger] link_ok(es, self.dist@, self.path@, new_chain, j) by {
                            assert(link_ok(es, dist, self.path@, chain, j));
                            lemma_chain_dist(es, dist, self.path@, chain, n as int, s, j, chain.len() - 1);
                            lemma_chain_dist(es, dist, self.path@, chain, n as int, s, j + 1, chain.len() - 1);
                        }
                        chain = new_chain;
                    }
                } else {
                    proof {
                        assert(chain.len() == 1) by {
                            if chain.len() > 1 {
                                lemma_chain_dist(es, dist, self.path@, chain, n as int, s, 0, chain.len() - 1);
                            }
                        }
                    }
                }
            }
            self.dirty = false;
        }
        proof {
            let es = self.spec_arcs();
            let side = choose|side: spec_fn(usize) -> bool| side(self.source) && closed(es, side) && !side(self.sink);
            lemma_max_flow(es, self.n as int, self.source, self.sink, side);
            if residual_reach(es, self.source, self.sink) {
                assert(side(self.sink));
            }
            lemma_reach_cut(es, self.n as int, self.source, self.sink);
        }
        self.maxflow_cache
    }

    /// Marks the nodes reachable from the source along edges with remaining capacity.
    fn reachable_from_source(&self) -> (r: Vec<bool>)
        requires
            self.n > 0,
            self.source < self.n,
            adj_ok(self.spec_arcs(), self.adj(), self.n as int),
            pairs_ok(self.spec_arcs(), self.n as int),
        ensures
            r.len() == self.n,
            forall|v: usize| v < self.n ==> (#[trigger] r@[v as int] <==> residual_reach(self.spec_arcs(), self.source, v)),
    {
        let n = self.n;
        let s = self.source;
        let ghost es = self.spec_arcs();
        let ghost g = self.adj();
        let mut reach: Vec<bool> = Vec::new();
        let mut i: usize = 0;
        while i < n
            invariant
                i <= n,
                reach.len() == i,
                forall|j: int| 0 <= j < i ==> !#[trigger] reach@[j],
            decreases n - i,
        {
            reach.push(false);
            i += 1;
        }
        proof {
            lemma_unmarked_all(reach@, n as int);
            lemma_unmarked(reach@, s as int, n as int);
        }
        reach.set(s, true);
        let mut queue: Vec<usize> = Vec::new();
        queue.push(s);
        let mut head: usize = 0;
        proof {
            assert forall|v: int| 0 <= v < n && reach@[v] implies exists|j: int| 0 <= j < queue.len() && #[trigger] queue@[j] == v by {
                assert(queue@[0] == v);
            }
        }
        while head < queue.len()
            invariant
                n == self.n,
                s == self.source,
                es == self.spec_arcs(),
                g == self.adj(),
                adj_ok(es, g, n as int),
                pairs_ok(es, n as int),
                s < n,
                reach.len() == n,
                head <= queue.len(),
                queue.len() >= 1,
                queue.len() + unmarked(reach@, n as int) == n,
                queue@[0] == s,
                forall|j: int| 0 <= j < queue.len() ==> #[trigger] queue@[j] < n && reach@[queue@[j] as int],
                forall|v: int| 0 <= v < n && reach@[v] ==> exists|j: int| 0 <= j < queue.len() && #[trigger] queue@[j] == v,
                forall|j2: int| 0 < j2 < queue.len() ==> #[trigger] has_q_parent(es, g, queue@, j2),
                forall|j: int, k: int| 0 <= j < head && 0 <= k < g[queue@[j] as int].len() && residual(es, #[trigger] g[queue@[j] as int][k] as int) > 0
                    ==> reach@[es[g[queue@[j] as int][k] as int].to as int],
            decreases unmarked(reach@, n as int), queue.len() - head,
        {
            proof {
                lemma_unmarked_bounds(reach@, n as int);
            }
            let u = queue[head];
            head += 1;
            let ghost ql0 = queue.len();
            let deg = self.graph[u].len();
            let mut k: usize = 0;
            while k < deg
                invariant
                    n == self.n,
                    s == self.source,
                    es == self.spec_arcs(),
                    g == self.adj(),
                    adj_ok(es, g, n as int),
                    pairs_ok(es, n as int),
                    s < n,
                    reach.len() == n,
                    1 <= head <= queue.len(),
                    u == queue@[head - 1],
                    u < n,
                    deg == g[u as int].len(),
                    k <= deg,
                    queue.len() >= ql0,
                    queue.len() + unmarked(reach@, n as int) == n,
                    queue@[0] == s,
                    forall|j: int| 0 <= j < queue.len() ==> #[trigger] queue@[j] < n && reach@[queue@[j] as int],
                    forall|v: int| 0 <= v < n && reach@[v] ==> exists|j: int| 0 <= j < queue.len() && #[trigger] queue@[j] == v,
                    forall|j2: int| 0 < j2 < queue.len() ==> #[trigger] has_q_parent(es, g, queue@, j2),
                    forall|j: int, k: int| 0 <= j < head - 1 && 0 <= k < g[queue@[j] as int].len() && residual(es, #[trigger] g[queue@[j] as int][k] as int) > 0
                        ==> reach@[es[g[queue@[j] as int][k] as int].to as int],
                    forall|k2: int| 0 <= k2 < k && residual(es, #[trigger] g[u as int][k2] as int) > 0
                        ==> reach@[es[g[u as int][k2] as int].to as int],
                decreases deg - k,
            {
                let ghost q_start = queue@;
                let ghost r_start = reach@;
                let e = self.graph[u][k];
                proof {
                    assert(g[u as int][k as int] == e);
                    assert(arc_ok(es, n as int, e as int));
                    assert(es[e as int] == isap_arc(self.edges@[e as int]));
                }
                let to = self.edges[e].to;
                if !reach[to] && self.edges[e].cap > self.edges[e].flow {
                    let ghost q0 = queue@;
                    let ghost r0 = reach@;
                    proof {
                        lemma_unmarked(reach@, to as int, n as int);
                    }
                    reach.set(to, true);
                    queue.push(to);
                    proof {
                        assert forall|v: int| 0 <= v < n && reach@[v] implies exists|j: int| 0 <= j < queue.len() && #[trigger] queue@[j] == v by {
                            if v == to {
                                assert(queue@[queue.len() - 1] == v);
                            } else {
                                assert(r0[v]);
                                let j = choose|j: int| 0 <= j < q0.len() && #[trigger] q0[j] == v;
                                assert(queue@[j] == v);
                            }
                        }
                        assert forall|j2: int| 0 < j2 < queue.len() implies #[trigger] has_q_parent(es, g, queue@, j2) by {
                            if j2 == q0.len() {
                                assert(q_parent(es, g, queue@, j2, head - 1, k as int));
                            } else {
                                assert(has_q_parent(es, g, q0, j2));
                                assert(queue@ == q0.push(to));
                                lemma_q_parent_push(es, g, q0, to, j2);
                            }
                        }
                    }
                }
                proof {
                    assert forall|j: int, k3: int| 0 <= j < head - 1 && 0 <= k3 < g[queue@[j] as int].len() && residual(es, #[trigger] g[queue@[j] as int][k3] as int) > 0
                        implies reach@[es[g[queue@[j] as int][k3] as int].to as int] by {
                        assert(queue@[j] == q_start[j]);
                        assert(g[q_start[j] as int][k3] == g[queue@[j] as int][k3]);
                        assert(arc_ok(es, n as int, g[q_start[j] as int][k3] as int));
                        assert(r_start[es[g[q_start[j] as int][k3] as int].to as int]);
                    }
                    assert forall|k2: int| 0 <= k2 < k + 1 && residual(es, #[trigger] g[u as int][k2] as int) > 0
                        implies reach@[es[g[u as int][k2] as int].to as int] by {
                        assert(arc_ok(es, n as int, g[u as int][k2] as int));
                        if k2 < k {
                            assert(r_start[es[g[u as int][k2] as int].to as int]);
                        }
                    }
                }
                k += 1;
            }
            proof {
                lemma_unmarked_bounds(reach@, n as int);
            }
        }
        proof {
            assert(reach@[queue@[0] as int]);
            let side = |v: usize| v < n && reach@[v as int];
            assert forall|e: int| 0 <= e < es.len() && side(#[trigger] es[e].from) && residual(es, e) > 0 implies side(es[e].to) by {
                assert(arc_ok(es, n as int, e));
                let x = es[e].from;
                let j = choose|j: int| 0 <= j < queue.len() && #[trigger] queue@[j] == x;
                assert(listed(g, x as int, e));
                let k = choose|k: int| 0 <= k < g[x as int].len() && #[trigger] g[x as int][k] == e;
                assert(g[queue@[j] as int][k] == e);
            }
            assert forall|v: usize| v < n implies (#[trigger] reach@[v as int] <==> residual_reach(es, s, v)) by {
                if reach@[v as int] {
                    let j = choose|j: int| 0 <= j < queue.len() && #[trigger] queue@[j] == v;
                    lemma_queue_reach(es, g, queue@, s, j);
                } else {
                    assert(side(s) && closed(es, side) && !side(v));
                }
            }
        }
        reach
    }

    /// The edges of a minimum cut after computing a maximum flow: the edges
    /// with positive capacity that leave the set of nodes reachable from the
    /// source along edges with remaining capacity, in insertion order.
    pub fn mincut(&mut self) -> (cut: Vec<IsapEdge>)
        requires
            old(self).wf(),
            flows_fit(old(self).spec_arcs(), old(self).spec_n() as int, old(self).spec_source(), old(self).spec_sink()),
        ensures
            final(self).wf(),
            final(self).spec_n() == old(self).spec_n(),
            final(self).spec_source() == old(self).spec_source(),
            final(self).spec_sink() == old(self).spec_sink(),
            same_network(old(self).spec_arcs(), final(self).spec_arcs()),
            old(self).spec_n() == 0 ==> cut@.len() == 0,
            old(self).spec_n() > 0 ==> is_max_flow(final(self).spec_arcs(), final(self).spec_n() as int,
                final(self).spec_source(), final(self).spec_sink()),
            old(self).spec_n() > 0 ==> isap_arcs(cut@) == cut_edges(final(self).spec_arcs(),
                reach_side(final(self).spec_arcs(), final(self).spec_source())),
            old(self).spec_n() > 0 ==> caps_of(isap_arcs(cut@)) == net_out(final(self).spec_arcs(), final(self).spec_source()),
            old(self).spec_n() > 0 ==> !reach_side(final(self).spec_arcs(), final(self).spec_source())(
                final(self).spec_sink()),
            old(self).spec_n() > 0 ==> cuts_at_least(final(self).spec_arcs(), final(self).spec_source(),
                final(self).spec_sink(), caps_of(isap_arcs(cut@))),
            forall|i: int| 0 <= i < cut@.len() ==> #[trigger] cut@[i].flow == cut@[i].cap,
    {
        self.maxflow();
        if self.n == 0 {
            return Vec::new();
        }
        let reachable = self.reachable_from_source();
        let ghost es = self.spec_arcs();
        let ghost side = |v: usize| v < self.n && reachable@[v as int];
        let mut out: Vec<IsapEdge> = Vec::new();
        let mut i: usize = 0;
        while i < self.edges.len()
            invariant
                self.wf(),
                self.n > 0,
                es == self.spec_arcs(),
                reachable.len() == self.n,
                side == (|v: usize| v < self.n && reachable@[v as int]),
                i <= self.edges.len(),
                isap_arcs(out@) == cut_upto(es, side, i as int),
            decreases self.edges.len() - i,
        {
            let e = &self.edges[i];
            proof {
                assert(es[i as int] == isap_arc(self.edges@[i as int]));
                assert(arc_ok(es, self.n as int, i as int));
            }
            if reachable[e.from] && !reachable[e.to] && e.cap > 0 {
                let x = IsapEdge { from: e.from, to: e.to, cap: e.cap, flow: e.flow };
                proof {
                    assert(isap_arcs(out@.push(x)) =~= isap_arcs(out@).push(isap_arc(x)));
                }
                out.push(x);
            }
            i += 1;
        }
        proof {
            let n = self.n as int;
            let s = self.source;
            let rs = reach_side(es, s);
            assert forall|e: int| 0 <= e < es.len() implies side(#[trigger] es[e].from) == rs(es[e].from) && side(es[e].to) == rs(es[e].to) by {
                assert(arc_ok(es, n, e));
            }
            lemma_cut_side_same(es, side, rs, es.len() as int);
            assert forall|e: int| 0 <= e < es.len() && side(#[trigger] es[e].from) && residual(es, e) > 0 implies side(es[e].to) by {
                assert(arc_ok(es, n, e));
                let x = es[e].from;
                assert(residual_reach(es, s, x));
                assert forall|other: spec_fn(usize) -> bool| other(s) && closed(es, other) implies #[trigger] other(es[e].to) by {
                    assert(other(x));
                }
            }
            assert(!side(self.sink)) by {
                let other = choose|other: spec_fn(usize) -> bool| other(s) && closed(es, other) && !other(self.sink);
            }
            lemma_max_flow(es, n, s, self.sink, side);
            lemma_cut_saturated(es, n, side, es.len() as int);
            lemma_reach_cut(es, n, s, self.sink);
            assert forall|i: int| 0 <= i < out@.len() implies #[trigger] out@[i].flow == out@[i].cap by {
                assert(isap_arcs(out@)[i] == isap_arc(out@[i]));
                assert(cut_upto(es, side, es.len() as int)[i].flow == cut_upto(es, side, es.len() as int)[i].cap);
            }
        }
        out
    }

    /// Adds an edge; the arguments must be valid.
    pub fn add_edge(&mut self, from: usize, to: usize, cap: i64)
        requires
            old(self).wf(),
            old(self).spec_arcs().len() + 2 <= usize::MAX,
            old(self).spec_n() > 0,
            from < old(self).spec_n(),
            to < old(self).spec_n(),
            cap >= 0,
        ensures
            final(self).wf(),
            final(self).spec_n() == old(self).spec_n(),
            final(self).spec_source() == old(self).spec_source(),
            final(self).spec_sink() == old(self).spec_sink(),
            final(self).spec_arcs() == old(self).spec_arcs()
                .push(ArcView { from, to, cap: cap as int, flow: 0 })
                .push(ArcView { from: to, to: from, cap: 0, flow: 0 }),
    {
        let r = self.try_add_edge(from, to, cap);
        assert(r is Ok);
    }
}

} // verus!
