use rstl::{Mcmf, McmfEdge, McmfError, McmfOptions, McmfResult, McmfShortestPathStrategy};

fn next_u32(seed: &mut u64) -> u32 {
    *seed = seed
        .wrapping_mul(6364136223846793005)
        .wrapping_add(1442695040888963407);
    (*seed >> 32) as u32
}

fn normalized_edges(edges: &[McmfEdge]) -> Vec<(usize, usize, i64, i64, i64)> {
    let mut values = edges
        .iter()
        .map(|e| (e.from, e.to, e.cap, e.flow, e.cost))
        .collect::<Vec<_>>();
    values.sort_unstable();
    values
}

#[derive(Clone)]
struct RefEdge {
    to: usize,
    rev: usize,
    cap: i64,
    cost: i64,
}

fn reference_mcmf(
    n: usize,
    source: usize,
    sink: usize,
    edges: &[(usize, usize, i64, i64)],
    inf: i64,
) -> McmfResult {
    let mut graph = vec![Vec::<RefEdge>::new(); n];

    for &(u, v, cap, cost) in edges {
        let rev_u = graph[v].len();
        let rev_v = graph[u].len();
        graph[u].push(RefEdge {
            to: v,
            rev: rev_u,
            cap,
            cost,
        });
        graph[v].push(RefEdge {
            to: u,
            rev: rev_v,
            cap: 0,
            cost: -cost,
        });
    }

    let mut maxflow = 0i64;
    let mut mincost = 0i64;

    loop {
        let mut dist = vec![inf; n];
        let mut parent_node = vec![usize::MAX; n];
        let mut parent_edge = vec![usize::MAX; n];
        dist[source] = 0;

        for _ in 0..n.saturating_sub(1) {
            let mut updated = false;
            for u in 0..n {
                if dist[u] == inf {
                    continue;
                }

                for (idx, e) in graph[u].iter().enumerate() {
                    if e.cap <= 0 {
                        continue;
                    }

                    let cand = dist[u] + e.cost;
                    if dist[e.to] > cand {
                        dist[e.to] = cand;
                        parent_node[e.to] = u;
                        parent_edge[e.to] = idx;
                        updated = true;
                    }
                }
            }

            if !updated {
                break;
            }
        }

        if dist[sink] == inf {
            break;
        }

        let mut mif = inf;
        let mut v = sink;
        while v != source {
            let u = parent_node[v];
            let idx = parent_edge[v];
            mif = mif.min(graph[u][idx].cap);
            v = u;
        }

        let mut v = sink;
        while v != source {
            let u = parent_node[v];
            let idx = parent_edge[v];
            let rev = graph[u][idx].rev;
            graph[u][idx].cap -= mif;
            graph[v][rev].cap += mif;
            v = u;
        }

        maxflow += mif;
        mincost += mif * dist[sink];
    }

    McmfResult { mincost, maxflow }
}

#[test]
fn simple_case_should_match_ts_cost_and_flow() {
    let mut mcmf = Mcmf::new();
    mcmf.init(0, 1, 4);
    mcmf.add_edge(0, 2, 1, 10);
    mcmf.add_edge(0, 3, 2, 2);
    mcmf.add_edge(2, 1, 1, 9);
    mcmf.add_edge(3, 1, 1, 1);

    assert_eq!(
        mcmf.min_cost_max_flow(),
        McmfResult {
            mincost: 22,
            maxflow: 2,
        }
    );
    assert_eq!(
        normalized_edges(&mcmf.mincut()),
        vec![(0, 2, 1, 1, 10), (3, 1, 1, 1, 1)]
    );
}

#[test]
fn mcmf_mincut_should_follow_strict_reachable_partition_definition() {
    let mut mcmf = Mcmf::new();
    mcmf.init(0, 3, 4);
    mcmf.add_edge(0, 1, 10, 0);
    mcmf.add_edge(1, 3, 1, 5);
    mcmf.add_edge(1, 2, 9, 1);
    mcmf.add_edge(2, 3, 9, 2);

    assert_eq!(
        mcmf.min_cost_max_flow(),
        McmfResult {
            mincost: 32,
            maxflow: 10,
        }
    );
    assert_eq!(
        mcmf.mincut(),
        vec![McmfEdge {
            from: 0,
            to: 1,
            cap: 10,
            flow: 10,
            cost: 0,
        }]
    );
}

#[test]
fn mcmf_mincut_should_include_all_cross_edges_of_reachable_partition() {
    let mut mcmf = Mcmf::new();
    mcmf.init(0, 3, 4);
    mcmf.add_edge(0, 1, 3, 0);
    mcmf.add_edge(0, 2, 2, 0);
    mcmf.add_edge(1, 2, 7, 0);
    mcmf.add_edge(1, 3, 3, 0);
    mcmf.add_edge(2, 3, 2, 0);

    assert_eq!(
        mcmf.min_cost_max_flow(),
        McmfResult {
            mincost: 0,
            maxflow: 5,
        }
    );
    assert_eq!(
        normalized_edges(&mcmf.mincut()),
        vec![(0, 1, 3, 3, 0), (0, 2, 2, 2, 0)]
    );
}

#[test]
fn mcmf_mincut_should_ignore_zero_capacity_cross_edges() {
    let mut mcmf = Mcmf::new();
    mcmf.init(0, 1, 2);
    mcmf.add_edge(0, 1, 0, 7);

    assert_eq!(
        mcmf.min_cost_max_flow(),
        McmfResult {
            mincost: 0,
            maxflow: 0,
        }
    );
    assert!(mcmf.mincut().is_empty());
}

#[test]
fn min_cost_max_flow_should_be_cached_until_graph_changes() {
    let mut mcmf = Mcmf::new();
    mcmf.init(0, 3, 4);
    mcmf.add_edge(0, 1, 2, 1);
    mcmf.add_edge(1, 3, 2, 1);

    let first = mcmf.min_cost_max_flow();
    let second = mcmf.min_cost_max_flow();
    assert_eq!(
        first,
        McmfResult {
            mincost: 4,
            maxflow: 2,
        }
    );
    assert_eq!(second, first);

    mcmf.add_edge(0, 2, 3, 2);
    mcmf.add_edge(2, 3, 3, 2);

    assert_eq!(
        mcmf.min_cost_max_flow(),
        McmfResult {
            mincost: 16,
            maxflow: 5,
        }
    );
}

#[test]
fn min_cost_max_flow_before_init_should_be_zero() {
    let mut mcmf = Mcmf::new();
    assert_eq!(
        mcmf.min_cost_max_flow(),
        McmfResult {
            mincost: 0,
            maxflow: 0,
        }
    );
    assert!(mcmf.mincut().is_empty());
}

#[test]
fn init_should_reset_graph_and_cache_state() {
    let mut mcmf = Mcmf::new();
    mcmf.init(0, 2, 3);
    mcmf.add_edge(0, 1, 5, 2);
    mcmf.add_edge(1, 2, 5, 3);
    assert_eq!(
        mcmf.min_cost_max_flow(),
        McmfResult {
            mincost: 25,
            maxflow: 5,
        }
    );

    mcmf.init(0, 1, 2);
    mcmf.add_edge(0, 1, 3, 4);
    assert_eq!(
        mcmf.min_cost_max_flow(),
        McmfResult {
            mincost: 12,
            maxflow: 3,
        }
    );
}

#[test]
fn mcmf_checked_api_should_validate_arguments() {
    let mut mcmf = Mcmf::new();

    assert_eq!(
        mcmf.try_init(0, 0, 0),
        Err(McmfError::InvalidNodeCount { n: 0 })
    );
    assert_eq!(
        mcmf.try_init(3, 0, 3),
        Err(McmfError::NodeOutOfRange { node: 3, n: 3 })
    );
    assert_eq!(
        mcmf.try_init(0, 3, 3),
        Err(McmfError::NodeOutOfRange { node: 3, n: 3 })
    );
    assert_eq!(
        mcmf.try_init(1, 1, 3),
        Err(McmfError::SourceEqualsSink { node: 1 })
    );

    assert_eq!(
        mcmf.try_add_edge(0, 1, 1, 1),
        Err(McmfError::NotInitialized)
    );

    mcmf.try_init(0, 2, 3).expect("init should work");
    assert_eq!(
        mcmf.try_add_edge(3, 1, 1, 1),
        Err(McmfError::NodeOutOfRange { node: 3, n: 3 })
    );
    assert_eq!(
        mcmf.try_add_edge(0, 1, -1, 1),
        Err(McmfError::NegativeCapacity { cap: -1 })
    );
}

#[test]
fn with_options_should_validate_inf() {
    assert!(matches!(
        Mcmf::with_options(McmfOptions {
            inf: 0,
            ..McmfOptions::default()
        }),
        Err(McmfError::InvalidInf { inf: 0 })
    ));
    assert!(matches!(
        Mcmf::with_options(McmfOptions {
            inf: -7,
            ..McmfOptions::default()
        }),
        Err(McmfError::InvalidInf { inf: -7 })
    ));
    assert!(
        Mcmf::with_options(McmfOptions {
            inf: 123,
            ..McmfOptions::default()
        })
        .is_ok()
    );
}

#[test]
fn min_cost_max_flow_should_match_reference_on_small_graphs() {
    let mut seed: u64 = 0x1234_5678_9abc_def0;

    let inf = 1_000_000_000i64;

    for n in 2..=8usize {
        let source = 0usize;
        let sink = n - 1;

        for _case_idx in 0..80 {
            let mut edges = Vec::<(usize, usize, i64, i64)>::new();
            let mut mcmf = Mcmf::with_options(McmfOptions {
                inf,
                ..McmfOptions::default()
            })
            .expect("valid inf");
            mcmf.init(source, sink, n);

            for u in 0..n {
                for v in 0..n {
                    if u == v {
                        continue;
                    }
                    if next_u32(&mut seed) % 100 < 35 {
                        let cap = (next_u32(&mut seed) % 16) as i64;
                        let cost = (next_u32(&mut seed) % 9) as i64;
                        mcmf.add_edge(u, v, cap, cost);
                        edges.push((u, v, cap, cost));
                    }
                }
            }

            let got = mcmf.min_cost_max_flow();
            let expected = reference_mcmf(n, source, sink, &edges, inf);
            assert_eq!(
                got, expected,
                "mcmf mismatch on n={n}, expected={expected:?}, got={got:?}"
            );
        }
    }
}

#[test]
fn mcmf_mincut_capacity_should_equal_maxflow_on_small_graphs() {
    let mut seed: u64 = 0x0ddc_0ffe_e123_4567;

    for n in 2..=8usize {
        let source = 0usize;
        let sink = n - 1;

        for _case_idx in 0..80 {
            let mut mcmf = Mcmf::new();
            mcmf.init(source, sink, n);

            for u in 0..n {
                for v in 0..n {
                    if u == v {
                        continue;
                    }
                    if next_u32(&mut seed) % 100 < 35 {
                        let cap = (next_u32(&mut seed) % 16) as i64;
                        let cost = (next_u32(&mut seed) % 9) as i64;
                        mcmf.add_edge(u, v, cap, cost);
                    }
                }
            }

            let result = mcmf.min_cost_max_flow();
            let cut_cap: i64 = mcmf.mincut().iter().map(|e| e.cap).sum();
            assert_eq!(
                cut_cap, result.maxflow,
                "cut capacity mismatch on n={n}, flow={}, cut={cut_cap}",
                result.maxflow
            );
        }
    }
}

#[test]
fn options_default_should_use_auto_strategy() {
    assert_eq!(
        McmfOptions::default().shortest_path_strategy,
        McmfShortestPathStrategy::Auto
    );
}

#[test]
fn auto_and_spfa_should_match_on_small_graphs() {
    let mut seed: u64 = 0x2ddc_0ffe_e123_4567;

    for n in 2..=7usize {
        let source = 0usize;
        let sink = n - 1;

        for _case_idx in 0..40 {
            let mut edges = Vec::<(usize, usize, i64, i64)>::new();
            for u in 0..n {
                for v in 0..n {
                    if u == v {
                        continue;
                    }
                    if next_u32(&mut seed) % 100 < 35 {
                        let cap = (next_u32(&mut seed) % 16) as i64;
                        let cost = (next_u32(&mut seed) % 9) as i64;
                        edges.push((u, v, cap, cost));
                    }
                }
            }

            let mut auto = Mcmf::with_options(McmfOptions {
                shortest_path_strategy: McmfShortestPathStrategy::Auto,
                ..McmfOptions::default()
            })
            .expect("valid options");
            auto.init(source, sink, n);

            let mut spfa = Mcmf::with_options(McmfOptions {
                shortest_path_strategy: McmfShortestPathStrategy::Spfa,
                ..McmfOptions::default()
            })
            .expect("valid options");
            spfa.init(source, sink, n);

            for &(u, v, cap, cost) in &edges {
                auto.add_edge(u, v, cap, cost);
                spfa.add_edge(u, v, cap, cost);
            }

            let auto_result = auto.min_cost_max_flow();
            let spfa_result = spfa.min_cost_max_flow();
            assert_eq!(
                auto_result, spfa_result,
                "strategy mismatch on n={n}, auto={auto_result:?}, spfa={spfa_result:?}"
            );
        }
    }
}

#[test]
fn mcmf_trait_object_call_should_work() {
    let mut mcmf = Mcmf::new();
    let d: &mut dyn rstl::McmfLike = &mut mcmf;

    d.init(0, 2, 3);
    d.add_edge(0, 1, 2, 1);
    d.add_edge(1, 2, 2, 1);

    assert_eq!(
        d.min_cost_max_flow(),
        McmfResult {
            mincost: 4,
            maxflow: 2,
        }
    );
}

#[test]
fn mcmf_display_should_be_readable() {
    assert_eq!(McmfError::InvalidInf { inf: 0 }.to_string(), "[Mcmf] inf must be positive, but got (0).");
    assert_eq!(
        McmfError::InvalidNodeCount { n: 0 }.to_string(),
        "[Mcmf] node count must be positive, but got (0)."
    );
    assert_eq!(
        McmfError::NodeOutOfRange { node: 5, n: 3 }.to_string(),
        "[Mcmf] node (5) is out of range [0, 3)."
    );
    assert_eq!(
        McmfError::SourceEqualsSink { node: 7 }.to_string(),
        "[Mcmf] source and sink must be different, but both are (7)."
    );
    assert_eq!(
        McmfError::NegativeCapacity { cap: -1 }.to_string(),
        "[Mcmf] edge capacity must be non-negative, but got (-1)."
    );
    assert_eq!(McmfError::NotInitialized.to_string(), "[Mcmf] algorithm is not initialized.");
}
