use std::collections::VecDeque;

use rstl::{Dinic, DinicEdge, DinicError};

fn next_u32(seed: &mut u64) -> u32 {
    *seed = seed
        .wrapping_mul(6364136223846793005)
        .wrapping_add(1442695040888963407);
    (*seed >> 32) as u32
}

fn edmonds_karp(cap: &[Vec<i64>], source: usize, sink: usize) -> i64 {
    let n = cap.len();
    let mut residual = cap.to_vec();
    let mut maxflow = 0i64;

    loop {
        let mut parent = vec![usize::MAX; n];
        let mut q = VecDeque::with_capacity(n);
        q.push_back(source);
        parent[source] = source;

        while let Some(u) = q.pop_front() {
            if u == sink {
                break;
            }
            for (v, &c) in residual[u].iter().enumerate() {
                if parent[v] == usize::MAX && c > 0 {
                    parent[v] = u;
                    q.push_back(v);
                }
            }
        }

        if parent[sink] == usize::MAX {
            break;
        }

        let mut aug = i64::MAX;
        let mut v = sink;
        while v != source {
            let u = parent[v];
            aug = aug.min(residual[u][v]);
            v = u;
        }

        let mut v = sink;
        while v != source {
            let u = parent[v];
            residual[u][v] -= aug;
            residual[v][u] += aug;
            v = u;
        }

        maxflow += aug;
    }

    maxflow
}

fn normalized_edges(edges: &[DinicEdge]) -> Vec<(usize, usize, i64, i64)> {
    let mut values = edges
        .iter()
        .map(|e| (e.from, e.to, e.cap, e.flow))
        .collect::<Vec<_>>();
    values.sort_unstable();
    values
}

#[test]
fn dinic_simple_case_should_match_ts_behavior() {
    let mut dinic = Dinic::new();
    dinic.init(0, 1, 4);
    dinic.add_edge(0, 2, 1);
    dinic.add_edge(0, 3, 2);
    dinic.add_edge(3, 1, 1);

    assert_eq!(dinic.maxflow(), 1);
    assert_eq!(
        dinic.mincut(),
        vec![DinicEdge {
            from: 3,
            to: 1,
            cap: 1,
            flow: 1,
        }]
    );
}

#[test]
fn dinic_mincut_should_follow_strict_reachable_partition_definition() {
    // Graph:
    // s=0 -> a=1 (10)
    // a=1 -> t=3 (1)
    // a=1 -> b=2 (9)
    // b=2 -> t=3 (9)
    //
    // After maxflow=10, saturated forward edges are:
    //   (0,1), (1,3), (1,2), (2,3)
    // But strict min-cut edges are only edges crossing S->T where
    // S is reachable-from-source in residual graph. Here S={0}, so mincut={(0,1)}.
    let mut dinic = Dinic::new();
    dinic.init(0, 3, 4);
    dinic.add_edge(0, 1, 10);
    dinic.add_edge(1, 3, 1);
    dinic.add_edge(1, 2, 9);
    dinic.add_edge(2, 3, 9);

    assert_eq!(dinic.maxflow(), 10);
    assert_eq!(
        dinic.mincut(),
        vec![DinicEdge {
            from: 0,
            to: 1,
            cap: 10,
            flow: 10,
        }]
    );
}

#[test]
fn dinic_mincut_should_include_all_cross_edges_of_reachable_partition() {
    let mut dinic = Dinic::new();
    dinic.init(0, 3, 4);
    dinic.add_edge(0, 1, 3);
    dinic.add_edge(0, 2, 2);
    dinic.add_edge(1, 2, 7);
    dinic.add_edge(1, 3, 3);
    dinic.add_edge(2, 3, 2);

    assert_eq!(dinic.maxflow(), 5);
    let cut = dinic.mincut();
    assert_eq!(
        normalized_edges(&cut),
        vec![(0, 1, 3, 3), (0, 2, 2, 2)],
        "strict mincut should return all S->T cross edges"
    );
}

#[test]
fn dinic_mincut_should_ignore_zero_capacity_cross_edges() {
    let mut dinic = Dinic::new();
    dinic.init(0, 1, 2);
    dinic.add_edge(0, 1, 0);

    assert_eq!(dinic.maxflow(), 0);
    assert!(dinic.mincut().is_empty());
}

#[test]
fn dinic_mincut_should_be_stable_across_cached_maxflow_calls() {
    let mut dinic = Dinic::new();
    dinic.init(0, 3, 4);
    dinic.add_edge(0, 1, 3);
    dinic.add_edge(0, 2, 2);
    dinic.add_edge(1, 3, 3);
    dinic.add_edge(2, 3, 2);

    let first = dinic.mincut();
    let second = dinic.mincut();
    assert_eq!(normalized_edges(&first), normalized_edges(&second));
}

#[test]
fn dinic_mincut_before_init_should_return_empty() {
    let mut dinic = Dinic::new();
    assert_eq!(dinic.mincut(), Vec::<DinicEdge>::new());
}

#[test]
fn dinic_maxflow_should_be_cached_until_graph_changes() {
    let mut dinic = Dinic::new();
    dinic.init(0, 3, 4);
    dinic.add_edge(0, 1, 2);
    dinic.add_edge(1, 3, 2);

    let first = dinic.maxflow();
    let second = dinic.maxflow();
    assert_eq!(first, 2);
    assert_eq!(second, 2);

    dinic.add_edge(0, 2, 3);
    dinic.add_edge(2, 3, 3);

    assert_eq!(dinic.maxflow(), 5);
}

#[test]
fn dinic_parallel_edges_and_zero_capacity_should_work() {
    let mut dinic = Dinic::new();
    dinic.init(0, 2, 3);
    dinic.add_edge(0, 1, 2);
    dinic.add_edge(0, 1, 3);
    dinic.add_edge(1, 2, 4);
    dinic.add_edge(1, 2, 0);

    assert_eq!(dinic.maxflow(), 4);
}

#[test]
fn dinic_unreachable_sink_should_return_zero_flow_and_empty_cut() {
    let mut dinic = Dinic::new();
    dinic.init(0, 3, 4);
    dinic.add_edge(0, 1, 10);
    dinic.add_edge(1, 2, 5);

    assert_eq!(dinic.maxflow(), 0);
    assert_eq!(dinic.mincut(), Vec::<DinicEdge>::new());
}

#[test]
fn dinic_init_should_reset_graph_and_flow_state() {
    let mut dinic = Dinic::new();
    dinic.init(0, 2, 3);
    dinic.add_edge(0, 1, 5);
    dinic.add_edge(1, 2, 5);
    assert_eq!(dinic.maxflow(), 5);

    dinic.init(0, 1, 2);
    dinic.add_edge(0, 1, 3);
    assert_eq!(dinic.maxflow(), 3);
}

#[test]
fn dinic_checked_api_should_validate_arguments() {
    let mut dinic = Dinic::new();

    assert_eq!(
        dinic.try_init(0, 0, 0),
        Err(DinicError::InvalidNodeCount { n: 0 })
    );
    assert_eq!(
        dinic.try_init(3, 0, 3),
        Err(DinicError::NodeOutOfRange { node: 3, n: 3 })
    );
    assert_eq!(
        dinic.try_init(0, 3, 3),
        Err(DinicError::NodeOutOfRange { node: 3, n: 3 })
    );
    assert_eq!(
        dinic.try_init(1, 1, 3),
        Err(DinicError::SourceEqualsSink { node: 1 })
    );

    assert_eq!(dinic.try_add_edge(0, 1, 1), Err(DinicError::NotInitialized));

    dinic.try_init(0, 2, 3).expect("init should work");
    assert_eq!(
        dinic.try_add_edge(3, 1, 1),
        Err(DinicError::NodeOutOfRange { node: 3, n: 3 })
    );
    assert_eq!(
        dinic.try_add_edge(0, 1, -1),
        Err(DinicError::NegativeCapacity { cap: -1 })
    );
}

#[test]
fn dinic_maxflow_should_match_edmonds_karp_on_small_graphs() {
    // Deterministic LCG to avoid introducing an extra rand dependency.
    let mut seed: u64 = 0x1234_5678_9abc_def0;

    for n in 2..=8usize {
        let source = 0usize;
        let sink = n - 1;
        for _case_idx in 0..80 {
            let mut dinic = Dinic::new();
            dinic.init(source, sink, n);

            let mut cap = vec![vec![0i64; n]; n];
            for (u, row) in cap.iter_mut().enumerate() {
                for (v, cell) in row.iter_mut().enumerate() {
                    if u == v {
                        continue;
                    }
                    // ~35% chance to create an edge with capacity in [0, 15].
                    let roll = next_u32(&mut seed) % 100;
                    if roll < 35 {
                        let c = (next_u32(&mut seed) % 16) as i64;
                        dinic.add_edge(u, v, c);
                        *cell += c;
                    }
                }
            }

            let got = dinic.maxflow();
            let expected = edmonds_karp(&cap, source, sink);
            assert_eq!(
                got, expected,
                "maxflow mismatch on n={n}, expected={expected}, got={got}"
            );
        }
    }
}

#[test]
fn dinic_mincut_capacity_should_equal_maxflow_on_small_graphs() {
    let mut seed: u64 = 0x0ddc_0ffe_e123_4567;

    for n in 2..=8usize {
        let source = 0usize;
        let sink = n - 1;

        for _case_idx in 0..80 {
            let mut dinic = Dinic::new();
            dinic.init(source, sink, n);

            for u in 0..n {
                for v in 0..n {
                    if u == v {
                        continue;
                    }
                    if next_u32(&mut seed) % 100 < 35 {
                        let cap = (next_u32(&mut seed) % 16) as i64;
                        dinic.add_edge(u, v, cap);
                    }
                }
            }

            let flow = dinic.maxflow();
            let cut_cap: i64 = dinic.mincut().iter().map(|e| e.cap).sum();
            assert_eq!(
                cut_cap, flow,
                "cut capacity mismatch on n={n}, expected flow={flow}, got cut={cut_cap}"
            );
        }
    }
}

#[test]
fn dinic_trait_object_call_should_work() {
    let mut dinic = Dinic::new();
    let d: &mut dyn rstl::DinicLike = &mut dinic;

    d.init(0, 2, 3);
    d.add_edge(0, 1, 2);
    d.add_edge(1, 2, 2);
    assert_eq!(d.maxflow(), 2);
}
