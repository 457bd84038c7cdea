//! Maximum flow by Dinic's algorithm: breadth-first levels from the source,
//! then blocking flows along level paths until the sink is unreachable.
use vstd::prelude::*;
use crate::flow::{flows_fit, cuts_at_least, lemma_reach_cut, lemma_same_network_trans, lemma_cut_saturated, 
    ArcView, residual, partner, arc_ok, pairs_ok, net_out, valid_flow, cap_sum, cut_edges, caps_of,
    closed, crosses, cut_upto, lemma_flow_le_cut, lemma_net_out_le_caps, lemma_net_out_update,
    lemma_net_out_same, lemma_cap_sum_same, same_network, is_max_flow, reach_side, residual_reach,
    adj_ok, listed, lemma_max_flow, lemma_cut_side_same, lemma_add_pair, pushed_on, lemma_push, lemma_adj_push,
};

verus! {

/// An edge of the network with its current flow.
#[derive(Debug, Clone, PartialEq, Eq)]
pub struct DinicEdge {
    pub from: usize,
    pub to: usize,
    pub cap: i64,
    pub flow: i64,
}

/// Why a request was refused.
#[derive(Debug, Clone, PartialEq, Eq)]
pub enum DinicError {
    InvalidNodeCount { n: usize },
    NodeOutOfRange { node: usize, n: usize },
    SourceEqualsSink { node: usize },
    NegativeCapacity { cap: i64 },
    NotInitialized,
}

/// The model of an edge.
pub open spec fn arc_of(e: DinicEdge) -> ArcView {
    ArcView { from: e.from, to: e.to, cap: e.cap as int, flow: e.flow as int }
}

/// The model of a sequence of edges.
pub open spec fn arcs_of(es: Seq<DinicEdge>) -> Seq<ArcView> {
    es.map_values(|e: DinicEdge| arc_of(e))
}

/// Nodes reached by the last breadth-first search.
spec fn side_of(dist: Seq<isize>) -> spec_fn(usize) -> bool {
    |v: usize| v < dist.len() && dist[v as int] != -1
}

/// Edge `e` goes one level down and still has capacity.
spec fn live(es: Seq<ArcView>, dist: Seq<isize>, e: int) -> bool {
    &&& dist[es[e].from as int] >= 0
    &&& dist[es[e].to as int] == dist[es[e].from as int] + 1
    &&& residual(es, e) > 0
}

/// A level path with at most `f` edges leads from `v` to `t`.
spec fn lvl_reach(es: Seq<ArcView>, g: Seq<Seq<usize>>, dist: Seq<isize>, t: usize, v: usize, f: nat) -> bool
    decreases f,
{
    v == t || (f > 0 && exists|k: int|
        0 <= k < g[v as int].len() && #[trigger] live(es, dist, g[v as int][k] as int)
            && lvl_reach(es, g, dist, t, es[g[v as int][k] as int].to, (f - 1) as nat))
}

/// A level path leads from `v` to `t`.
spec fn reach(es: Seq<ArcView>, g: Seq<Seq<usize>>, dist: Seq<isize>, n: int, t: usize, v: usize) -> bool {
    lvl_reach(es, g, dist, t, v, (n - dist[v as int]) as nat)
}

/// Edge `e` can carry no more flow towards `t` in this phase.
spec fn dead(es: Seq<ArcView>, g: Seq<Seq<usize>>, dist: Seq<isize>, n: int, t: usize, e: int) -> bool {
    !(live(es, dist, e) && reach(es, g, dist, n, t, es[e].to))
}

/// The edges before each node's current arc are dead.
spec fn dead_prefix(es: Seq<ArcView>, g: Seq<Seq<usize>>, dist: Seq<isize>, cur: Seq<usize>, n: int, t: usize) -> bool {
    &&& cur.len() == n
    &&& forall|v: int| 0 <= v < n ==> #[trigger] cur[v] <= g[v].len()
    &&& forall|v: int, k: int| 0 <= v < n && 0 <= k < cur[v] ==> #[trigger] dead(es, g, dist, n, t, g[v][k] as int)
}

/// Edge `k` of `u` brought `v` into the search.
spec fn has_parent(es: Seq<ArcView>, g: Seq<Seq<usize>>, dist: Seq<isize>, n: int, u: usize, k: int, v: usize) -> bool {
    &&& u < n
    &&& 0 <= k < g[u as int].len()
    &&& dist[u as int] >= 0
    &&& dist[u as int] == dist[v as int] - 1
    &&& es[g[u as int][k] as int].to == v
    &&& residual(es, g[u as int][k] as int) > 0
}

/// What a finished breadth-first search from `s` leaves in `dist`.
spec fn bfs_ok(es: Seq<ArcView>, g: Seq<Seq<usize>>, dist: Seq<isize>, n: int, s: usize) -> bool {
    &&& dist.len() == n
    &&& dist[s as int] == 0
    &&& forall|v: int| 0 <= v < n ==> -1 <= #[trigger] dist[v] < n
    &&& forall|v: int| 0 <= v < n && #[trigger] dist[v] == 0 ==> v == s
    &&& forall|v: usize| v < n && dist[v as int] > 0 ==> exists|u: usize, k: int| #[trigger] has_parent(es, g, dist, n, u, k, v)
    &&& closed(es, side_of(dist))
}

proof fn lemma_bfs_side(es: Seq<ArcView>, g: Seq<Seq<usize>>, dist: Seq<isize>, n: int, s: usize, v: usize)
    requires
        bfs_ok(es, g, dist, n, s),
        adj_ok(es, g, n),
        s < n,
    ensures
        side_of(dist)(v) <==> residual_reach(es, s, v),
    decreases if v < n && dist[v as int] >= 0 { dist[v as int] as int } else { 0 },
{
    let side = side_of(dist);
    if side(v) {
        assert forall|other: spec_fn(usize) -> bool| other(s) && closed(es, other) implies other(v) by {
            lemma_bfs_in_closed(es, g, dist, n, s, v, other);
        }
    } else {
        assert(side(s));
    }
}

proof fn lemma_bfs_in_closed(es: Seq<ArcView>, g: Seq<Seq<usize>>, dist: Seq<isize>, n: int, s: usize, v: usize, other: spec_fn(usize) -> bool)
    requires
        bfs_ok(es, g, dist, n, s),
        adj_ok(es, g, n),
        s < n,
        v < n,
        dist[v as int] != -1,
        other(s),
        closed(es, other),
    ensures
        other(v),
    decreases dist[v as int],
{
    if dist[v as int] == 0 {
        assert(v == s);
    } else {
        let (u, k) = choose|u: usize, k: int| has_parent(es, g, dist, n, u, k, v);
        lemma_bfs_in_closed(es, g, dist, n, s, u, other);
        let e = g[u as int][k] as int;
        assert(es[e].from == u);
    }
}

proof fn lemma_bfs_level(es: Seq<ArcView>, g: Seq<Seq<usize>>, dist: Seq<isize>, n: int, s: usize, t: usize, v: usize)
    requires
        bfs_ok(es, g, dist, n, s),
        adj_ok(es, g, n),
        s < n,
        v < n,
        dist[v as int] != -1,
        reach(es, g, dist, n, t, v),
    ensures
        reach(es, g, dist, n, t, s),
    decreases dist[v as int],
{
    if dist[v as int] != 0 {
        let (u, k) = choose|u: usize, k: int| has_parent(es, g, dist, n, u, k, v);
        let e = g[u as int][k] as int;
        assert(es[e].from == u);
        assert(live(es, dist, e));
        assert(reach(es, g, dist, n, t, u)) by {
            assert(n - dist[u as int] > 0);
            assert((n - dist[v as int]) as nat == ((n - dist[u as int]) as nat - 1) as nat);
        }
        lemma_bfs_level(es, g, dist, n, s, t, u);
    } else {
        assert(v == s);
    }
}

/// Level paths only disappear when level edges lose capacity.
proof fn lemma_reach_mono(a: Seq<ArcView>, b: Seq<ArcView>, g: Seq<Seq<usize>>, dist: Seq<isize>, t: usize, v: usize, f: nat)
    requires
        same_network(a, b),
        forall|e: int| 0 <= e < a.len() && live(b, dist, e) ==> #[trigger] residual(b, e) <= residual(a, e),
        forall|u: int, k: int| 0 <= u < g.len() && 0 <= k < g[u].len() ==> #[trigger] g[u][k] < a.len(),
        v < g.len(),
        forall|e: int| 0 <= e < a.len() ==> #[trigger] a[e].to < g.len(),
    ensures
        lvl_reach(b, g, dist, t, v, f) ==> lvl_reach(a, g, dist, t, v, f),
    decreases f,
{
    if v != t && f > 0 && lvl_reach(b, g, dist, t, v, f) {
        let k = choose|k: int|
            0 <= k < g[v as int].len() && #[trigger] live(b, dist, g[v as int][k] as int)
                && lvl_reach(b, g, dist, t, b[g[v as int][k] as int].to, (f - 1) as nat);
        let e = g[v as int][k] as int;
        assert(a[e].from == b[e].from);
        assert(residual(b, e) <= residual(a, e));
        lemma_reach_mono(a, b, g, dist, t, b[e].to, (f - 1) as nat);
        assert(live(a, dist, e));
    }
}

/// A node other than the sink whose edges are all dead reaches nothing.
proof fn lemma_all_dead(es: Seq<ArcView>, g: Seq<Seq<usize>>, dist: Seq<isize>, n: int, t: usize, u: usize)
    requires
        u != t,
        u < g.len(),
        dist[u as int] < n,
        forall|k: int| 0 <= k < g[u as int].len() ==> #[trigger] dead(es, g, dist, n, t, g[u as int][k] as int),
        forall|e: int| 0 <= e < es.len() && live(es, dist, e) ==> dist[es[e].to as int] == dist[es[e].from as int] + 1,
        forall|k: int| 0 <= k < g[u as int].len() ==> #[trigger] es[g[u as int][k] as int].from == u,
        forall|k: int| 0 <= k < g[u as int].len() ==> #[trigger] g[u as int][k] < es.len(),
    ensures
        !reach(es, g, dist, n, t, u),
{
    let f = (n - dist[u as int]) as nat;
    if reach(es, g, dist, n, t, u) {
        assert(f > 0);
        let k = choose|k: int|
            0 <= k < g[u as int].len() && #[trigger] live(es, dist, g[u as int][k] as int)
                && lvl_reach(es, g, dist, t, es[g[u as int][k] as int].to, (f - 1) as nat);
        let e = g[u as int][k] as int;
        assert(es[e].from == u);
        assert(dead(es, g, dist, n, t, e));
        assert(dist[es[e].to as int] == dist[u as int] + 1);
        assert((n - dist[es[e].to as int]) as nat == (f - 1) as nat);
        assert(reach(es, g, dist, n, t, es[e].to));
        assert(false);
    }
}

/// Level-edge capacities that only shrink keep dead edges dead.
proof fn lemma_dead_mono(a: Seq<ArcView>, b: Seq<ArcView>, g: Seq<Seq<usize>>, dist: Seq<isize>, cur: Seq<usize>, n: int, t: usize)
    requires
        same_network(a, b),
        adj_ok(a, g, n),
        pairs_ok(a, n),
        dist.len() == n,
        forall|e: int| 0 <= e < a.len() && live(b, dist, e) ==> #[trigger] residual(b, e) <= residual(a, e),
        dead_prefix(a, g, dist, cur, n, t),
    ensures
        dead_prefix(b, g, dist, cur, n, t),
{
    assert forall|v: int, k: int| 0 <= v < n && 0 <= k < cur[v] implies #[trigger] dead(b, g, dist, n, t, g[v][k] as int) by {
        let e = g[v][k] as int;
        assert(dead(a, g, dist, n, t, e));
        assert(a[e].from == b[e].from);
        assert(arc_ok(a, n, e));
        if live(b, dist, e) {
            assert(live(a, dist, e));
            assert forall|e2: int| 0 <= e2 < a.len() implies #[trigger] a[e2].to < g.len() by {
                assert(arc_ok(a, n, e2));
            }
            lemma_reach_mono(a, b, g, dist, t, b[e].to, (n - dist[b[e].to as int]) as nat);
        }
    }
}

/// Counts the nodes that the search has not reached among the first `m`.
spec fn unvisited(d: Seq<isize>, m: int) -> int
    decreases m,
{
    if m <= 0 {
        0
    } else {
        unvisited(d, m - 1) + if d[m - 1] == -1 { 1int } else { 0 }
    }
}

proof fn lemma_unvisited_bounds(d: Seq<isize>, m: int)
    requires
        0 <= m,
    ensures
        0 <= unvisited(d, m) <= m,
    decreases m,
{
    if m > 0 {
        lemma_unvisited_bounds(d, m - 1);
    }
}

proof fn lemma_unvisited_all(d: Seq<isize>, m: int)
    requires
        0 <= m <= d.len(),
        forall|j: int| 0 <= j < m ==> #[trigger] d[j] == -1,
    ensures
        unvisited(d, m) == m,
    decreases m,
{
    if m > 0 {
        lemma_unvisited_all(d, m - 1);
    }
}

proof fn lemma_unvisited_set(d: Seq<isize>, x: int, c: isize, m: int)
    requires
        0 <= x < d.len(),
        0 <= m <= d.len(),
        d[x] == -1,
        c != -1,
    ensures
        unvisited(d.update(x, c), m) == unvisited(d, m) - if x < m { 1int } else { 0 },
    decreases m,
{
    if m > 0 {
        lemma_unvisited_set(d, x, c, m - 1);
    }
}

/// Maximum flow by Dinic's algorithm.
pub struct Dinic {
    cur: Vec<usize>,
    dist: Vec<isize>,
    edges: Vec<DinicEdge>,
    graph: Vec<Vec<usize>>,
    n: usize,
    source: usize,
    sink: usize,
    maxflow_cache: i64,
    dirty: bool,
}

impl Dinic {
    /// The edges of the network with their flows, in insertion order; edge
    /// `2k + 1` is the reverse of edge `2k`.
    pub closed spec fn spec_arcs(&self) -> Seq<ArcView> {
        arcs_of(self.edges@)
    }

    /// Number of nodes; 0 before initialization.
    pub closed spec fn spec_n(&self) -> nat {
        self.n as nat
    }

    pub closed spec fn spec_source(&self) -> usize {
        self.source
    }

    pub closed spec fn spec_sink(&self) -> usize {
        self.sink
    }

    spec fn adj(&self) -> Seq<Seq<usize>> {
        self.graph@.map_values(|a: Vec<usize>| a@)
    }

    /// The solver's internal invariant.
    pub closed spec fn wf(&self) -> bool {
        &&& self.n == 0 ==> self.edges.len() == 0 && self.graph.len() == 0 && self.maxflow_cache == 0
        &&& self.n > 0 ==> {
            &&& self.source < self.n
            &&& self.sink < self.n
            &&& self.source != self.sink
            &&& self.n <= isize::MAX
            &&& self.cur.len() == self.n
            &&& self.dist.len() == self.n
            &&& adj_ok(self.spec_arcs(), self.adj(), self.n as int)
            &&& valid_flow(self.spec_arcs(), self.n as int, self.source, self.sink)
            &&& self.maxflow_cache == net_out(self.spec_arcs(), self.source)
            &&& !self.dirty ==> bfs_ok(self.spec_arcs(), self.adj(), self.dist@, self.n as int, self.source)
                && self.dist@[self.sink as int] == -1
        }
    }

    /// A solver with no network yet.
    pub fn new() -> (d: Self)
        ensures
            d.wf(),
            d.spec_n() == 0,
            d.spec_arcs().len() == 0,
    {
        let d = Dinic {
            cur: Vec::new(),
            dist: Vec::new(),
            edges: Vec::new(),
            graph: Vec::new(),
            n: 0,
            source: 0,
            sink: 0,
            maxflow_cache: 0,
            dirty: true,
        };
        proof {
            assert(d.spec_arcs() =~= Seq::<ArcView>::empty());
        }
        d
    }

    /// Starts over with `n` nodes, no edges and no flow.
    pub fn try_init(&mut self, source: usize, sink: usize, n: usize) -> (r: Result<(), DinicError>)
        requires
            old(self).wf(),
            n <= isize::MAX,
        ensures
            final(self).wf(),
            n == 0 ==> r == Err::<(), DinicError>(DinicError::InvalidNodeCount { n }),
            n > 0 && source >= n ==> r == Err::<(), DinicError>(DinicError::NodeOutOfRange { node: source, n }),
            n > 0 && source < n && sink >= n ==> r == Err::<(), DinicError>(DinicError::NodeOutOfRange { node: sink, n }),
            n > 0 && source < n && sink < n && source == sink ==> r == Err::<(), DinicError>(DinicError::SourceEqualsSink { node: source }),
            r is Err ==> *final(self) == *old(self),
            r is Ok <==> (n > 0 && source < n && sink < n && source != sink),
            r is Ok ==> final(self).spec_n() == n && final(self).spec_source() == source
                && final(self).spec_sink() == sink && final(self).spec_arcs().len() == 0,
    {
        if n == 0 {
            return Err(DinicError::InvalidNodeCount { n });
        }
        if source >= n {
            return Err(DinicError::NodeOutOfRange { node: source, n });
        }
        if sink >= n {
            return Err(DinicError::NodeOutOfRange { node: sink, n });
        }
        if source == sink {
            return Err(DinicError::SourceEqualsSink { node: source });
        }
        let mut cur: Vec<usize> = Vec::new();
        let mut dist: Vec<isize> = Vec::new();
        let mut graph: Vec<Vec<usize>> = Vec::new();
        let mut i: usize = 0;
        while i < n
            invariant
                i <= n,
                cur.len() == i,
                dist.len() == i,
                graph.len() == i,
                forall|j: int| 0 <= j < i ==> (#[trigger] graph[j])@.len() == 0,
            decreases n - i,
        {
            cur.push(0);
            dist.push(-1);
            graph.push(Vec::new());
            i += 1;
        }
        self.cur = cur;
        self.dist = dist;
        self.graph = graph;
        self.edges = Vec::new();
        self.n = n;
        self.source = source;
        self.sink = sink;
        self.maxflow_cache = 0;
        self.dirty = true;
        proof {
            let es = self.spec_arcs();
            assert(es =~= Seq::<ArcView>::empty());
            assert forall|v: usize| v < n && v != source && v != sink implies #[trigger] net_out(es, v) == 0 by {}
            assert(adj_ok(es, self.adj(), n as int));
        }
        Ok(())
    }

    /// Starts over with `n` nodes; the arguments must be valid.
    pub fn init(&mut self, source: usize, sink: usize, n: usize)
        requires
            old(self).wf(),
            0 < n <= isize::MAX,
            source < n,
            sink < n,
            source != sink,
        ensures
            final(self).wf(),
            final(self).spec_n() == n,
            final(self).spec_source() == source,
            final(self).spec_sink() == sink,
            final(self).spec_arcs().len() == 0,
    {
        let r = self.try_init(source, sink, n);
        assert(r is Ok);
    }

    /// Adds an edge of capacity `cap` from `from` to `to` (and its reverse).
    pub fn try_add_edge(&mut self, from: usize, to: usize, cap: i64) -> (r: Result<(), DinicError>)
        requires
            old(self).wf(),
            old(self).spec_arcs().len() + 2 <= usize::MAX,
        ensures
            final(self).wf(),
            old(self).spec_n() == 0 ==> r == Err::<(), DinicError>(DinicError::NotInitialized),
            old(self).spec_n() > 0 && from >= old(self).spec_n() ==> r == Err::<(), DinicError>(
                DinicError::NodeOutOfRange { node: from, n: old(self).spec_n() as usize }),
            old(self).spec_n() > 0 && from < old(self).spec_n() && to >= old(self).spec_n() ==> r == Err::<(), DinicError>(
                DinicError::NodeOutOfRange { node: to, n: old(self).spec_n() as usize }),
            old(self).spec_n() > 0 && from < old(self).spec_n() && to < old(self).spec_n() && cap < 0 ==> r == Err::<(), DinicError>(
                DinicError::NegativeCapacity { cap }),
            r is Err ==> *final(self) == *old(self),
            r is Ok <==> (old(self).spec_n() > 0 && from < old(self).spec_n() && to < old(self).spec_n() && cap >= 0),
            final(self).spec_n() == old(self).spec_n(),
            final(self).spec_source() == old(self).spec_source(),
            final(self).spec_sink() == old(self).spec_sink(),
            r is Ok ==> final(self).spec_arcs() == old(self).spec_arcs()
                .push(ArcView { from, to, cap: cap as int, flow: 0 })
                .push(ArcView { from: to, to: from, cap: 0, flow: 0 }),
    {
        if self.n == 0 {
            return Err(DinicError::NotInitialized);
        }
        if from >= self.n {
            return Err(DinicError::NodeOutOfRange { node: from, n: self.n });
        }
        if to >= self.n {
            return Err(DinicError::NodeOutOfRange { node: to, n: self.n });
        }
        if cap < 0 {
            return Err(DinicError::NegativeCapacity { cap });
        }
        let ghost es0 = self.spec_arcs();
        let ghost g0 = self.adj();
        let edge_id = self.edges.len();
        self.graph[from].push(edge_id);
        self.graph[to].push(edge_id + 1);
        self.edges.push(DinicEdge { from, to, cap, flow: 0 });
        self.edges.push(DinicEdge { from: to, to: from, cap: 0, flow: 0 });
        self.dirty = true;
        proof {
            let x = ArcView { from, to, cap: cap as int, flow: 0 };
            let y = ArcView { from: to, to: from, cap: 0, flow: 0 };
            let es = self.spec_arcs();
            assert(es =~= es0.push(x).push(y));
            let g = self.adj();
            let n = self.n as int;
            assert(g.len() == n);
            assert forall|u: int, k: int| 0 <= u < n && 0 <= k < g[u].len() implies #[trigger] g[u][k] < es.len() && es[g[u][k] as int].from == u by {
                if k < g0[u].len() {
                    assert(g[u][k] == g0[u][k]);
                }
            }
            if from != to {
                assert(g =~~= g0.update(from as int, g0[from as int].push(edge_id)).update(to as int, g0[to as int].push((edge_id + 1) as usize)));
            } else {
                assert(g =~~= g0.update(from as int, g0[from as int].push(edge_id).push((edge_id + 1) as usize)));
            }
            lemma_adj_push(es0, g0, n, from, to, x, y, g);
            assert forall|e: int| 0 <= e < es.len() implies #[trigger] arc_ok(es, n, e) by {
                if e < es0.len() {
                    assert(arc_ok(es0, n, e));
                    assert(partner(e) < es0.len());
                }
            }
            assert forall|v: usize| v < n && v != self.source && v != self.sink implies #[trigger] net_out(es, v) == 0 by {
                lemma_add_pair(es0, x, y, v);
            }
            lemma_add_pair(es0, x, y, self.source);
            assert(pairs_ok(es, n));
            assert(adj_ok(es, g, n));
            assert(valid_flow(es, n, self.source, self.sink));
        }
        Ok(())
    }

    /// Breadth-first levels from the source over edges with remaining capacity.
    fn bfs(&mut self) -> (found: bool)
        requires
            old(self).n > 0,
            old(self).n <= isize::MAX,
            old(self).source < old(self).n,
            old(self).sink < old(self).n,
            old(self).dist.len() == old(self).n,
            adj_ok(old(self).spec_arcs(), old(self).adj(), old(self).n as int),
            pairs_ok(old(self).spec_arcs(), old(self).n as int),
        ensures
            final(self).edges == old(self).edges,
            final(self).graph == old(self).graph,
            final(self).cur == old(self).cur,
            final(self).n == old(self).n,
            final(self).source == old(self).source,
            final(self).sink == old(self).sink,
            final(self).maxflow_cache == old(self).maxflow_cache,
            final(self).dirty == old(self).dirty,
            bfs_ok(final(self).spec_arcs(), final(self).adj(), final(self).dist@, final(self).n as int, final(self).source),
            found == (final(self).dist@[final(self).sink as int] != -1),
    {
        let n = self.n;
        let ghost es = self.spec_arcs();
        let ghost g = self.adj();
        let mut v: usize = 0;
        while v < n
            invariant
                v <= n,
                self.dist.len() == n,
                forall|j: int| 0 <= j < v ==> #[trigger] self.dist@[j] == -1,
                self.edges == old(self).edges,
                self.graph == old(self).graph,
                self.cur == old(self).cur,
                self.n == n,
                self.source == old(self).source,
                self.sink == old(self).sink,
                self.maxflow_cache == old(self).maxflow_cache,
                self.dirty == old(self).dirty,
                self.source < n,
            decreases n - v,
        {
            self.dist.set(v, -1);
            v += 1;
        }
        proof {
            lemma_unvisited_all(self.dist@, n as int);
            lemma_unvisited_set(self.dist@, self.source as int, 0, n as int);
        }
        let mut queue: Vec<usize> = Vec::new();
        self.dist.set(self.source, 0);
        queue.push(self.source);
        let mut head: usize = 0;
        proof {
            assert forall|v: int| 0 <= v < n && self.dist@[v] != -1 implies exists|j: int| 0 <= j < queue.len() && #[trigger] queue@[j] == v by {
                assert(v == self.source);
                assert(queue@[0] == v);
            }
        }
        while head < queue.len()
            invariant
                self.edges == old(self).edges,
                self.graph == old(self).graph,
                self.cur == old(self).cur,
                self.n == n,
                self.source == old(self).source,
                self.sink == old(self).sink,
                self.maxflow_cache == old(self).maxflow_cache,
                self.dirty == old(self).dirty,
                es == self.spec_arcs(),
                g == self.adj(),
                adj_ok(es, g, n as int),
                pairs_ok(es, n as int),
                n <= isize::MAX,
                self.source < n,
                self.dist.len() == n,
                head <= queue.len(),
                queue.len() + unvisited(self.dist@, n as int) == n,
                forall|j: int| 0 <= j < queue.len() ==> #[trigger] queue@[j] < n
                    && 0 <= self.dist@[queue@[j] as int] <= j,
                forall|v: int| 0 <= v < n && self.dist@[v] != -1 ==> exists|j: int| 0 <= j < queue.len() && #[trigger] queue@[j] == v,
                forall|v: int| 0 <= v < n ==> -1 <= #[trigger] self.dist@[v],
                self.dist@[self.source as int] == 0,
                forall|v: int| 0 <= v < n && #[trigger] self.dist@[v] == 0 ==> v == self.source,
                forall|v: usize| v < n && self.dist@[v as int] > 0 ==> exists|u: usize, k: int| #[trigger] has_parent(es, g, self.dist@, n as int, u, k, v),
                forall|j: int, k: int| 0 <= j < head && 0 <= k < g[queue@[j] as int].len() && residual(es, #[trigger] g[queue@[j] as int][k] as int) > 0
                    ==> self.dist@[es[g[queue@[j] as int][k] as int].to as int] != -1,
            decreases unvisited(self.dist@, n as int), queue.len() - head,
        {
            proof {
                lemma_unvisited_bounds(self.dist@, n as int);
            }
            let u = queue[head];
            head += 1;
            let ghost ql0 = queue.len();
            let deg = self.graph[u].len();
            let mut k: usize = 0;
            while k < deg
                invariant
                    self.edges == old(self).edges,
                    self.graph == old(self).graph,
                    self.cur == old(self).cur,
                    self.n == n,
                    self.source == old(self).source,
                    self.sink == old(self).sink,
                    self.maxflow_cache == old(self).maxflow_cache,
                    self.dirty == old(self).dirty,
                    es == self.spec_arcs(),
                    g == self.adj(),
                    adj_ok(es, g, n as int),
                    pairs_ok(es, n as int),
                    n <= isize::MAX,
                    self.source < n,
                    self.dist.len() == n,
                    1 <= head <= queue.len(),
                    u == queue@[head - 1],
                    u < n,
                    deg == g[u as int].len(),
                    k <= deg,
                    queue.len() >= ql0,
                    queue.len() + unvisited(self.dist@, n as int) == n,
                    forall|j: int| 0 <= j < queue.len() ==> #[trigger] queue@[j] < n
                        && 0 <= self.dist@[queue@[j] as int] <= j,
                    forall|v: int| 0 <= v < n && self.dist@[v] != -1 ==> exists|j: int| 0 <= j < queue.len() && #[trigger] queue@[j] == v,
                    forall|v: int| 0 <= v < n ==> -1 <= #[trigger] self.dist@[v],
                    self.dist@[self.source as int] == 0,
                    forall|v: int| 0 <= v < n && #[trigger] self.dist@[v] == 0 ==> v == self.source,
                    forall|v: usize| v < n && self.dist@[v as int] > 0 ==> exists|u: usize, k: int| #[trigger] has_parent(es, g, self.dist@, n as int, u, k, v),
                    forall|j: int, k: int| 0 <= j < head - 1 && 0 <= k < g[queue@[j] as int].len() && residual(es, #[trigger] g[queue@[j] as int][k] as int) > 0
                        ==> self.dist@[es[g[queue@[j] as int][k] as int].to as int] != -1,
                    forall|k2: int| 0 <= k2 < k && residual(es, #[trigger] g[u as int][k2] as int) > 0
                        ==> self.dist@[es[g[u as int][k2] as int].to as int] != -1,
                decreases deg - k,
            {
                let ghost d_start = self.dist@;
                let ghost q_start = queue@;
                let e = self.graph[u][k];
                proof {
                    assert(g[u as int][k as int] == e);
                    assert(arc_ok(es, n as int, e as int));
                }
                let to = self.edges[e].to;
                proof {
                    assert(es[e as int] == arc_of(self.edges@[e as int]));
                }
                if self.dist[to] == -1 && self.edges[e].cap > self.edges[e].flow {
                    let ghost d0 = self.dist@;
                    let ghost q0 = queue@;
                    proof {
                        lemma_unvisited_bounds(self.dist@, n as int);
                        lemma_unvisited_set(self.dist@, to as int, (self.dist@[u as int] + 1) as isize, n as int);
                        lemma_unvisited_bounds(self.dist@.update(to as int, (self.dist@[u as int] + 1) as isize), n as int);
                        assert(queue.len() < n);
                    }
                    let du = self.dist[u];
                    self.dist.set(to, du + 1);
                    queue.push(to);
                    proof {
                        let d = self.dist@;
                        assert forall|v: usize| v < n && d[v as int] > 0 implies exists|u2: usize, k2: int| #[trigger] has_parent(es, g, d, n as int, u2, k2, v) by {
                            if v == to {
                                assert(has_parent(es, g, d, n as int, u, k as int, v));
                            } else {
                                assert(d0[v as int] > 0);
                                let (u2, k2) = choose|u2: usize, k2: int| #[trigger] has_parent(es, g, d0, n as int, u2, k2, v);
                                assert(has_parent(es, g, d, n as int, u2, k2, v));
                            }
                        }
                        assert forall|v: int| 0 <= v < n && d[v] != -1 implies exists|j: int| 0 <= j < queue.len() && #[trigger] queue@[j] == v by {
                            if v == to {
                                assert(queue@[queue.len() - 1] == v);
                            } else {
                                assert(d0[v] != -1);
                                let j = choose|j: int| 0 <= j < q0.len() && #[trigger] q0[j] == v;
                                assert(queue@[j] == v);
                            }
                        }
                    }
                }
                proof {
                    let d = self.dist@;
                    assert forall|y: int| 0 <= y < n && d_start[y] != -1 implies #[trigger] d[y] != -1 by {}
                    assert forall|j: int, k3: int| 0 <= j < head - 1 && 0 <= k3 < g[queue@[j] as int].len() && residual(es, #[trigger] g[queue@[j] as int][k3] as int) > 0
                        implies d[es[g[queue@[j] as int][k3] as int].to as int] != -1 by {
                        assert(queue@[j] == q_start[j]);
                        assert(g[q_start[j] as int][k3] == g[queue@[j] as int][k3]);
                        let w = es[g[q_start[j] as int][k3] as int].to as int;
                        assert(arc_ok(es, n as int, g[q_start[j] as int][k3] as int));
                        assert(d_start[w] != -1);
                    }
                    assert forall|k2: int| 0 <= k2 < k + 1 && residual(es, #[trigger] g[u as int][k2] as int) > 0
                        implies d[es[g[u as int][k2] as int].to as int] != -1 by {
                        let w = es[g[u as int][k2] as int].to as int;
                        assert(arc_ok(es, n as int, g[u as int][k2] as int));
                        if k2 < k {
                            assert(d_start[w] != -1);
                        }
                    }
                }
                k += 1;
            }
            proof {
                lemma_unvisited_bounds(self.dist@, n as int);
            }
        }
        proof {
            let d = self.dist@;
            assert forall|e: int| 0 <= e < es.len() && side_of(d)(#[trigger] es[e].from) && residual(es, e) > 0 implies side_of(d)(es[e].to) by {
                let u = es[e].from;
                assert(arc_ok(es, n as int, e));
                let j = choose|j: int| 0 <= j < queue.len() && #[trigger] queue@[j] == u;
                assert(listed(g, u as int, e));
                let k = choose|k: int| 0 <= k < g[u as int].len() && #[trigger] g[u as int][k] == e;
                assert(g[queue@[j] as int][k] == e);
            }
            lemma_unvisited_bounds(self.dist@, n as int);
            assert forall|v: int| 0 <= v < n implies -1 <= #[trigger] d[v] < n by {
                if d[v] != -1 {
                    let j = choose|j: int| 0 <= j < queue.len() && #[trigger] queue@[j] == v;
                }
            }
        }
        self.dist[self.sink] != -1
    }

    /// Every current arc back to the first edge.
    fn reset_cur(&mut self)
        requires
            old(self).cur.len() == old(self).n,
        ensures
            final(self).cur.len() == old(self).n,
            forall|j: int| 0 <= j < old(self).n ==> #[trigger] final(self).cur@[j] == 0,
            final(self).edges == old(self).edges,
            final(self).graph == old(self).graph,
            final(self).dist == old(self).dist,
            final(self).n == old(self).n,
            final(self).source == old(self).source,
            final(self).sink == old(self).sink,
            final(self).maxflow_cache == old(self).maxflow_cache,
            final(self).dirty == old(self).dirty,
    {
        let n = self.n;
        let mut i: usize = 0;
        while i < n
            invariant
                i <= n,
                n == old(self).n,
                self.cur.len() == n,
                forall|j: int| 0 <= j < i ==> #[trigger] self.cur@[j] == 0,
                self.edges == old(self).edges,
                self.graph == old(self).graph,
                self.dist == old(self).dist,
                self.n == old(self).n,
                self.source == old(self).source,
                self.sink == old(self).sink,
                self.maxflow_cache == old(self).maxflow_cache,
                self.dirty == old(self).dirty,
            decreases n - i,
        {
            self.cur.set(i, 0);
            i += 1;
        }
    }

    /// Pushes at most `inflow` from `u` towards the sink along level paths,
    /// advancing current arcs past edges that can carry no more.
    #[verifier::rlimit(40)]
    fn dfs(&mut self, u: usize, inflow: i64) -> (r: i64)
        requires
            old(self).n > 0,
            old(self).n <= isize::MAX,
            old(self).sink < old(self).n,
            old(self).cur.len() == old(self).n,
            old(self).dist.len() == old(self).n,
            adj_ok(old(self).spec_arcs(), old(self).adj(), old(self).n as int),
            pairs_ok(old(self).spec_arcs(), old(self).n as int),
            forall|v: int| 0 <= v < old(self).n ==> -1 <= #[trigger] old(self).dist@[v] < old(self).n,
            u < old(self).n,
            old(self).dist@[u as int] >= 0,
            0 <= inflow,
            dead_prefix(old(self).spec_arcs(), old(self).adj(), old(self).dist@, old(self).cur@, old(self).n as int, old(self).sink),
        ensures
            final(self).n == old(self).n,
            final(self).source == old(self).source,
            final(self).sink == old(self).sink,
            final(self).graph == old(self).graph,
            final(self).dist@ == old(self).dist@,
            final(self).maxflow_cache == old(self).maxflow_cache,
            final(self).dirty == old(self).dirty,
            final(self).cur.len() == old(self).cur.len(),
            same_network(old(self).spec_arcs(), final(self).spec_arcs()),
            pairs_ok(final(self).spec_arcs(), final(self).n as int),
            0 <= r <= inflow,
            u == old(self).sink ==> r == inflow,
            r == 0 ==> final(self).spec_arcs() == old(self).spec_arcs(),
            forall|v: usize| #[trigger] net_out(final(self).spec_arcs(), v) == net_out(old(self).spec_arcs(), v)
                + (if u == old(self).sink { 0 } else if v == u { r as int } else if v == old(self).sink { -r } else { 0 }),
            forall|e: int| 0 <= e < old(self).spec_arcs().len() && live(final(self).spec_arcs(), old(self).dist@, e)
                ==> #[trigger] residual(final(self).spec_arcs(), e) <= residual(old(self).spec_arcs(), e),
            forall|e: int| 0 <= e < old(self).spec_arcs().len() && #[trigger] final(self).spec_arcs()[e] != old(self).spec_arcs()[e]
                ==> old(self).dist@[old(self).spec_arcs()[e].from as int] >= old(self).dist@[u as int],
            forall|v: int| 0 <= v < old(self).n && #[trigger] final(self).cur@[v] != old(self).cur@[v]
                ==> old(self).dist@[v] >= old(self).dist@[u as int],
            r < inflow && u != old(self).sink ==> !reach(final(self).spec_arcs(), old(self).adj(), old(self).dist@,
                old(self).n as int, old(self).sink, u),
            dead_prefix(final(self).spec_arcs(), old(self).adj(), old(self).dist@, final(self).cur@, old(self).n as int, old(self).sink),
        decreases old(self).n - old(self).dist@[u as int],
    {
        if u == self.sink || inflow == 0 {
            return inflow;
        }
        let ghost es0 = self.spec_arcs();
        let ghost cur0 = self.cur@;
        let ghost g = self.adj();
        let ghost dist = self.dist@;
        let ghost n = self.n as int;
        let ghost t = self.sink;
        let deg = self.graph[u].len();
        let mut pushed: i64 = 0;
        let mut rest: i64 = inflow;
        while self.cur[u] < deg
            invariant_except_break
                rest > 0,
            invariant
                self.n == n,
                self.sink == t,
                self.source == old(self).source,
                self.graph == old(self).graph,
                self.dist@ == dist,
                self.maxflow_cache == old(self).maxflow_cache,
                self.dirty == old(self).dirty,
                g == self.adj(),
                self.cur.len() == n,
                dist.len() == n,
                n == old(self).n,
                dist == old(self).dist@,
                n > 0,
                n <= isize::MAX,
                t < n,
                u < n,
                u != t,
                0 <= dist[u as int] < n,
                deg == g[u as int].len(),
                forall|v: int| 0 <= v < n ==> -1 <= #[trigger] dist[v] < n,
                adj_ok(es0, g, n),
                adj_ok(self.spec_arcs(), g, n),
                same_network(es0, self.spec_arcs()),
                pairs_ok(self.spec_arcs(), n),
                rest >= 0,
                pushed >= 0,
                pushed + rest == inflow,
                pushed == 0 ==> self.spec_arcs() == es0,
                forall|v: usize| #[trigger] net_out(self.spec_arcs(), v) == net_out(es0, v)
                    + (if v == u { pushed as int } else if v == t { -pushed } else { 0 }),
                forall|e: int| 0 <= e < es0.len() && live(self.spec_arcs(), dist, e)
                    ==> #[trigger] residual(self.spec_arcs(), e) <= residual(es0, e),
                forall|e: int| 0 <= e < es0.len() && #[trigger] self.spec_arcs()[e] != es0[e]
                    ==> dist[es0[e].from as int] >= dist[u as int],
                forall|v: int| 0 <= v < n && #[trigger] self.cur@[v] != cur0[v] ==> dist[v] >= dist[u as int],
                dead_prefix(self.spec_arcs(), g, dist, self.cur@, n, t),
            ensures
                rest == 0 || self.cur@[u as int] >= deg,
            decreases deg - self.cur@[u as int],
                if self.cur@[u as int] < deg { residual(self.spec_arcs(), g[u as int][self.cur@[u as int] as int] as int) } else { 0 },
        {
            let k = self.cur[u];
            let e = self.graph[u][k];
            let ghost es1 = self.spec_arcs();
            let ghost cur1 = self.cur@;
            proof {
                assert(g[u as int][k as int] == e);
                assert(es1[e as int] == arc_of(self.edges@[e as int]));
                assert(arc_ok(es1, n, e as int));
            }
            let to = self.edges[e].to;
            let cap = self.edges[e].cap;
            let flow = self.edges[e].flow;
            if self.dist[to] == self.dist[u] + 1 && cap > flow {
                let remain = cap - flow;
                let want = if rest < remain { rest } else { remain };
                proof {
                    assert(live(es1, dist, e as int));
                    assert(self.n - self.dist@[to as int] < old(self).n - old(self).dist@[u as int]);
                    assert(self.n - self.dist@[to as int] >= 0);
                }
                let f = self.dfs(to, want);
                let ghost es2 = self.spec_arcs();
                proof {
                    assert(es2[e as int] == es1[e as int]) by {
                        if es2[e as int] != es1[e as int] {
                            assert(dist[es1[e as int].from as int] >= dist[to as int]);
                        }
                    }
                    assert(self.cur@[u as int] == cur1[u as int]);
                }
                if f > 0 {
                    let p = e ^ 1;
                    proof {
                        assert(e ^ 1 == if e % 2 == 0 { (e + 1) as usize } else { (e - 1) as usize }) by (bit_vector);
                        assert(p == partner(e as int));
                        assert(arc_ok(es2, n, e as int));
                        lemma_push(es2, n, e as int, f as int);
                    }
                    let ep = &self.edges[e];
                    let ne = DinicEdge { from: ep.from, to: ep.to, cap: ep.cap, flow: ep.flow + f };
                    self.edges.set(e, ne);
                    let pp = &self.edges[p];
                    let np = DinicEdge { from: pp.from, to: pp.to, cap: pp.cap, flow: pp.flow - f };
                    self.edges.set(p, np);
                    pushed = pushed + f;
                    rest = rest - f;
                    proof {
                        let es3 = self.spec_arcs();
                        assert(es3 =~= pushed_on(es2, e as int, f as int));
                        assert forall|e2: int| 0 <= e2 < es0.len() && live(es3, dist, e2)
                            implies #[trigger] residual(es3, e2) <= residual(es0, e2) by {
                            if e2 == p as int {
                                assert(es3[e2].from == to);
                                assert(false);
                            } else if e2 == e as int {
                                assert(residual(es1, e2) <= residual(es0, e2));
                            } else {
                                assert(es3[e2] == es2[e2]);
                                assert(residual(es2, e2) <= residual(es1, e2));
                                assert(es1[e2].from == es2[e2].from && es1[e2].to == es2[e2].to);
                                assert(live(es1, dist, e2));
                                assert(residual(es1, e2) <= residual(es0, e2));
                            }
                        }
                        assert forall|e2: int| 0 <= e2 < es0.len() && #[trigger] es3[e2] != es0[e2]
                            implies dist[es0[e2].from as int] >= dist[u as int] by {
                            if e2 != e as int && e2 != p as int {
                                assert(es3[e2] == es2[e2]);
                            }
                            assert(es0[e2].from == es2[e2].from);
                        }
                        lemma_dead_mono(es2, es3, g, dist, self.cur@, n, t);
                        assert(adj_ok(es3, g, n)) by {
                            assert forall|e2: int| 0 <= e2 < es3.len() implies #[trigger] listed(g, es3[e2].from as int, e2) by {
                                assert(listed(g, es0[e2].from as int, e2));
                                assert(es0[e2].from == es3[e2].from);
                            }
                        }
                    }
                    if rest == 0 {
                        break;
                    }
                    continue;
                }
            } else {
                proof {
                    assert(!live(es1, dist, e as int));
                }
            }
            self.cur.set(u, k + 1);
        }
        proof {
            if rest > 0 {
                let es3 = self.spec_arcs();
                assert forall|k: int| 0 <= k < g[u as int].len() implies #[trigger] dead(es3, g, dist, n, t, g[u as int][k] as int) by {}
                assert forall|e: int| 0 <= e < es3.len() && live(es3, dist, e) implies dist[es3[e].to as int] == dist[es3[e].from as int] + 1 by {}
                lemma_all_dead(es3, g, dist, n, t, u);
            }
        }
        pushed
    }

    /// The flow is up to date: no path with remaining capacity leads from
    /// the source to the sink.
    pub closed spec fn spec_settled(&self) -> bool {
        !self.dirty
    }

    /// The value of a maximum flow from the source to the sink, computed from
    /// the current flow on (0 before initialization).
    pub fn maxflow(&mut self) -> (r: i64)
        requires
            old(self).wf(),
            flows_fit(old(self).spec_arcs(), old(self).spec_n() as int, old(self).spec_source(), old(self).spec_sink()),
        ensures
            final(self).wf(),
            final(self).spec_n() == old(self).spec_n(),
            final(self).spec_source() == old(self).spec_source(),
            final(self).spec_sink() == old(self).spec_sink(),
            same_network(old(self).spec_arcs(), final(self).spec_arcs()),
            old(self).spec_n() == 0 ==> r == 0,
            old(self).spec_n() > 0 ==> final(self).spec_settled(),
            old(self).spec_n() > 0 ==> r == net_out(final(self).spec_arcs(), final(self).spec_source()),
            old(self).spec_n() > 0 ==> is_max_flow(final(self).spec_arcs(), final(self).spec_n() as int,
                final(self).spec_source(), final(self).spec_sink()),
            old(self).spec_n() > 0 ==> !residual_reach(final(self).spec_arcs(), final(self).spec_source(),
                final(self).spec_sink()),
            old(self).spec_n() > 0 ==> r == caps_of(cut_edges(final(self).spec_arcs(),
                reach_side(final(self).spec_arcs(), final(self).spec_source()))),
            old(self).spec_n() > 0 ==> cuts_at_least(final(self).spec_arcs(), final(self).spec_source(),
                final(self).spec_sink(), r as int),
    {
        if self.n == 0 {
            return 0;
        }
        let ghost es_start = self.spec_arcs();
        if self.dirty {
            let mut maxflow = self.maxflow_cache;
            let inf: i64 = i64::MAX / 4;
            let n = self.n;
            loop
                invariant
                    self.wf(),
                    self.dirty,
                    self.n == n,
                    n > 0,
                    self.n == old(self).n,
                    self.source == old(self).source,
                    self.sink == old(self).sink,
                    inf == i64::MAX / 4,
                    maxflow == self.maxflow_cache,
                    same_network(es_start, self.spec_arcs()),
                    flows_fit(es_start, old(self).n as int, old(self).source, old(self).sink),
                    es_start == old(self).spec_arcs(),
                ensures
                    self.wf(),
                    self.n == old(self).n,
                    self.source == old(self).source,
                    self.sink == old(self).sink,
                    same_network(es_start, self.spec_arcs()),
                    bfs_ok(self.spec_arcs(), self.adj(), self.dist@, n as int, self.source),
                    self.dist@[self.sink as int] == -1,
                decreases cap_sum(self.spec_arcs()) - net_out(self.spec_arcs(), self.source),
            {
                proof {
                    lemma_net_out_le_caps(self.spec_arcs(), n as int, self.source, self.spec_arcs().len() as int);
                }
                let found = self.bfs();
                if !found {
                    break;
                }
                self.reset_cur();
                let ghost es1 = self.spec_arcs();
                let ghost g = self.adj();
                let ghost dist = self.dist@;
                proof {
                    assert(dead_prefix(es1, g, dist, self.cur@, n as int, self.sink));
                    assert(reach(es1, g, dist, n as int, self.sink, self.sink));
                    lemma_bfs_level(es1, g, dist, n as int, self.source, self.sink, self.sink);
                }
                let f = self.dfs(self.source, inf);
                proof {
                    let es2 = self.spec_arcs();
                    if f == 0 {
                        assert(es2 == es1);
                        assert(false);
                    }
                    lemma_cap_sum_same(es1, es2, es1.len() as int);
                    lemma_net_out_le_caps(es2, n as int, self.source, es2.len() as int);
                    assert(net_out(es2, self.source) == net_out(es1, self.source) + f);
                    assert forall|v: usize| v < n && v != self.source && v != self.sink implies #[trigger] net_out(es2, v) == 0 by {
                        assert(net_out(es2, v) == net_out(es1, v));
                    }
                    assert(adj_ok(es2, g, n as int)) by {
                        assert forall|e2: int| 0 <= e2 < es2.len() implies #[trigger] listed(g, es2[e2].from as int, e2) by {
                            assert(listed(g, es1[e2].from as int, e2));
                            assert(es1[e2].from == es2[e2].from);
                        }
                    }
                    lemma_same_network_trans(es_start, es1, es2);
                    assert(same_network(es_start, es2) && valid_flow(es2, n as int, self.source, self.sink));
                    assert(net_out(es2, self.source) <= i64::MAX);
                }
                maxflow = maxflow + f;
                self.maxflow_cache = maxflow;
            }
            self.dirty = false;
        }
        proof {
            let es = self.spec_arcs();
            let side = side_of(self.dist@);
            lemma_max_flow(es, self.n as int, self.source, self.sink, side);
            if residual_reach(es, self.source, self.sink) {
                assert(side(self.sink));
            }
            lemma_reach_cut(es, self.n as int, self.source, self.sink);
        }
        self.maxflow_cache
    }

    /// The edges of a minimum cut after computing a maximum flow: the edges
    /// with positive capacity that leave the set of nodes reachable from the
    /// source along edges with remaining capacity, in insertion order.
    pub fn mincut(&mut self) -> (cut: Vec<DinicEdge>)
        requires
            old(self).wf(),
            flows_fit(old(self).spec_arcs(), old(self).spec_n() as int, old(self).spec_source(), old(self).spec_sink()),
        ensures
            final(self).wf(),
            final(self).spec_n() == old(self).spec_n(),
            final(self).spec_source() == old(self).spec_source(),
            final(self).spec_sink() == old(self).spec_sink(),
            same_network(old(self).spec_arcs(), final(self).spec_arcs()),
            old(self).spec_n() == 0 ==> cut@.len() == 0,
            old(self).spec_n() > 0 ==> is_max_flow(final(self).spec_arcs(), final(self).spec_n() as int,
                final(self).spec_source(), final(self).spec_sink()),
            old(self).spec_n() > 0 ==> arcs_of(cut@) == cut_edges(final(self).spec_arcs(),
                reach_side(final(self).spec_arcs(), final(self).spec_source())),
            old(self).spec_n() > 0 ==> caps_of(arcs_of(cut@)) == net_out(final(self).spec_arcs(), final(self).spec_source()),
            old(self).spec_n() > 0 ==> !reach_side(final(self).spec_arcs(), final(self).spec_source())(
                final(self).spec_sink()),
            old(self).spec_n() > 0 ==> cuts_at_least(final(self).spec_arcs(), final(self).spec_source(),
                final(self).spec_sink(), caps_of(arcs_of(cut@))),
            forall|i: int| 0 <= i < cut@.len() ==> #[trigger] cut@[i].flow == cut@[i].cap,
    {
        self.maxflow();
        if self.n == 0 {
            return Vec::new();
        }
        let ghost es = self.spec_arcs();
        let ghost side = side_of(self.dist@);
        let mut out: Vec<DinicEdge> = Vec::new();
        let mut i: usize = 0;
        while i < self.edges.len()
            invariant
                self.wf(),
                self.n > 0,
                es == self.spec_arcs(),
                side == side_of(self.dist@),
                i <= self.edges.len(),
                arcs_of(out@) == cut_upto(es, side, i as int),
            decreases self.edges.len() - i,
        {
            let e = &self.edges[i];
            proof {
                assert(es[i as int] == arc_of(self.edges@[i as int]));
                assert(arc_ok(es, self.n as int, i as int));
            }
            if self.dist[e.from] != -1 && self.dist[e.to] == -1 && e.cap > 0 {
                let x = DinicEdge { from: e.from, to: e.to, cap: e.cap, flow: e.flow };
                proof {
                    assert(arcs_of(out@.push(x)) =~= arcs_of(out@).push(arc_of(x)));
                }
                out.push(x);
            }
            i += 1;
        }
        proof {
            let n = self.n as int;
            let s = self.source;
            let rs = reach_side(es, s);
            assert forall|e: int| 0 <= e < es.len() implies side(#[trigger] es[e].from) == rs(es[e].from) && side(es[e].to) == rs(es[e].to) by {
                lemma_bfs_side(es, self.adj(), self.dist@, n, s, es[e].from);
                lemma_bfs_side(es, self.adj(), self.dist@, n, s, es[e].to);
            }
            lemma_cut_side_same(es, side, rs, es.len() as int);
            lemma_max_flow(es, n, s, self.sink, side);
            lemma_cut_saturated(es, n, side, es.len() as int);
            lemma_bfs_side(es, self.adj(), self.dist@, n, s, self.sink);
            lemma_reach_cut(es, n, s, self.sink);
            assert forall|i: int| 0 <= i < out@.len() implies #[trigger] out@[i].flow == out@[i].cap by {
                assert(arcs_of(out@)[i] == arc_of(out@[i]));
                assert(cut_upto(es, side, es.len() as int)[i].flow == cut_upto(es, side, es.len() as int)[i].cap);
            }
        }
        out
    }

    /// Adds an edge; the arguments must be valid.
    pub fn add_edge(&mut self, from: usize, to: usize, cap: i64)
        requires
            old(self).wf(),
            old(self).spec_arcs().len() + 2 <= usize::MAX,
            old(self).spec_n() > 0,
            from < old(self).spec_n(),
            to < old(self).spec_n(),
            cap >= 0,
        ensures
            final(self).wf(),
            final(self).spec_n() == old(self).spec_n(),
            final(self).spec_source() == old(self).spec_source(),
            final(self).spec_sink() == old(self).spec_sink(),
            final(self).spec_arcs() == old(self).spec_arcs()
                .push(ArcView { from, to, cap: cap as int, flow: 0 })
                .push(ArcView { from: to, to: from, cap: 0, flow: 0 }),
    {
        let r = self.try_add_edge(from, to, cap);
        assert(r is Ok);
    }
}

} // verus!
