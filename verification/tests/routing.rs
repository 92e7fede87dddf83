use beer_routing::dijkstra::Dijkstra;
use beer_routing::dijkstra::Tentative;
use beer_routing::graph::Graph;
use beer_routing::graph::Node;
use beer_routing::route::beer_route;
use beer_routing::route::find_path;
use beer_routing::route::query;

fn node(is_waypoint: bool, edges: Vec<(usize, u64)>) -> Node {
    Node { is_waypoint, edges }
}

/// The 4-node path graph 0-1-2-3 with unit weights, node 2 a waypoint.
fn path_graph() -> Graph {
    vec![
        node(false, vec![(1, 1)]),
        node(false, vec![(0, 1), (2, 1)]),
        node(true, vec![(1, 1), (3, 1)]),
        node(false, vec![(2, 1)]),
    ]
}

fn drain_collect(d: &mut Dijkstra) -> Vec<(usize, usize)> {
    let mut edges = Vec::new();
    while let Some(e) = d.advance() {
        edges.push(e);
    }
    edges
}

/// Reference shortest-path distances by Bellman-Ford relaxation.
fn brute_distances(g: &Graph, source: usize) -> Vec<Option<u64>> {
    let n = g.len();
    let mut dist: Vec<Option<u64>> = vec![None; n];
    dist[source] = Some(0);
    for _ in 0..n {
        for u in 0..n {
            if let Some(du) = dist[u] {
                for &(v, w) in &g[u].edges {
                    let cand = du + w;
                    if dist[v].map_or(true, |dv| cand < dv) {
                        dist[v] = Some(cand);
                    }
                }
            }
        }
    }
    dist
}

#[test]
fn scenario_phase1_distances() {
    let mut d = Dijkstra::new(path_graph(), 0);
    let edges = drain_collect(&mut d);
    assert_eq!(edges, vec![(0, 1), (1, 2), (2, 3)]);
    assert_eq!(d.done_distances, vec![0, 1, 2, 3]);
    for v in 0..4 {
        assert!(matches!(d.tentative[v], Tentative::Settled));
    }
}

#[test]
fn scenario_augmented_and_phase2() {
    let (first, second) = beer_route(path_graph(), 0);
    // The synthetic node 4 connects to waypoint 2 with weight 2 (its
    // phase-one distance).
    assert_eq!(second.graph.len(), 5);
    assert_eq!(second.graph[4].edges, vec![(2, 2)]);
    assert!(!second.graph[4].is_waypoint);
    // Phase-two distances from node 4.
    assert_eq!(second.done_distances[2], 2);
    assert_eq!(second.done_distances[3], 3);
    assert_eq!(second.done_distances[1], 3);
    assert_eq!(second.done_distances[0], 4);
    assert_eq!(first.done_distances, vec![0, 1, 2, 3]);
}

#[test]
fn scenario_query_target_three() {
    let (first, second) = beer_route(path_graph(), 0);
    // The phase-two chain for target 3 is 3 <- 2 <- 4, so the attaching
    // waypoint is 2; the phase-one chain from 2 is 2 <- 1 <- 0.
    assert_eq!(second.predecessors[3], Some(2));
    assert_eq!(second.predecessors[2], Some(4));
    assert_eq!(first.predecessors[2], Some(1));
    assert_eq!(first.predecessors[1], Some(0));
    let path = query(&first, &second, 3);
    assert_eq!(path, Some(vec![0, 1, 2, 3]));
}

#[test]
fn determinism_two_runs_same_edges() {
    let mut a = Dijkstra::new(path_graph(), 0);
    let mut b = Dijkstra::new(path_graph(), 0);
    assert_eq!(drain_collect(&mut a), drain_collect(&mut b));
    assert_eq!(a.done_distances, b.done_distances);
    assert_eq!(a.predecessors, b.predecessors);
}

/// A denser graph with parallel routes and a tie.
fn diamond_graph() -> Graph {
    vec![
        node(false, vec![(1, 2), (2, 2), (3, 7)]),
        node(false, vec![(0, 2), (3, 3)]),
        node(true, vec![(0, 2), (3, 3)]),
        node(false, vec![(0, 7), (1, 3), (2, 3)]),
    ]
}

#[test]
fn tie_break_lowest_index_wins() {
    let mut d = Dijkstra::new(diamond_graph(), 0);
    let edges = drain_collect(&mut d);
    // Nodes 1 and 2 both sit at distance 2: node 1 settles first, and node
    // 3 at distance 5 is reached through node 1, again by the tie-break.
    assert_eq!(edges, vec![(0, 1), (0, 2), (1, 3)]);
    assert_eq!(d.done_distances, vec![0, 2, 2, 5]);
}

#[test]
fn monotonic_settlement_order() {
    let mut d = Dijkstra::new(diamond_graph(), 3);
    let mut last = 0u64;
    while let Some((_, v)) = d.advance() {
        let dist = d.done_distances[v];
        assert!(dist >= last);
        last = dist;
    }
}

#[test]
fn single_settlement_no_repeats() {
    let mut d = Dijkstra::new(diamond_graph(), 0);
    let mut seen = vec![false; 4];
    seen[0] = true;
    while let Some((p, v)) = d.advance() {
        assert!(seen[p], "predecessor must be settled earlier");
        assert!(!seen[v], "no node settles twice");
        seen[v] = true;
    }
}

#[test]
fn distances_match_brute_force() {
    let g = vec![
        node(false, vec![(1, 4), (2, 1)]),
        node(false, vec![(0, 4), (3, 2), (4, 9)]),
        node(true, vec![(0, 1), (3, 6)]),
        node(false, vec![(1, 2), (2, 6), (4, 3)]),
        node(false, vec![(1, 9), (3, 3)]),
        node(false, vec![(6, 1)]),
        node(false, vec![(5, 1)]),
    ];
    for source in 0..g.len() {
        let mut d = Dijkstra::new(g.clone(), source);
        while d.advance().is_some() {}
        let reference = brute_distances(&g, source);
        for v in 0..g.len() {
            match reference[v] {
                Some(dist) => {
                    assert!(matches!(d.tentative[v], Tentative::Settled));
                    assert_eq!(d.done_distances[v], dist, "source {source} node {v}");
                }
                None => {
                    assert!(!matches!(d.tentative[v], Tentative::Settled));
                }
            }
        }
    }
}

#[test]
fn waypoint_route_matches_brute_force() {
    let g = vec![
        node(false, vec![(1, 4), (2, 1)]),
        node(true, vec![(0, 4), (3, 2)]),
        node(false, vec![(0, 1), (3, 6)]),
        node(true, vec![(1, 2), (2, 6), (4, 3)]),
        node(false, vec![(3, 3)]),
    ];
    let dist_from: Vec<Vec<Option<u64>>> = (0..g.len()).map(|s| brute_distances(&g, s)).collect();
    for source in 0..g.len() {
        let (first, second) = beer_route(g.clone(), source);
        for target in 0..g.len() {
            // The best source-to-target cost through any waypoint.
            let best = (0..g.len())
                .filter(|&w| g[w].is_waypoint)
                .filter_map(|w| match (dist_from[source][w], dist_from[w][target]) {
                    (Some(a), Some(b)) => Some(a + b),
                    _ => None,
                })
                .min();
            match query(&first, &second, target) {
                Some(path) => {
                    assert_eq!(path[0], source);
                    assert_eq!(*path.last().unwrap(), target);
                    assert!(path.iter().any(|&v| g[v].is_waypoint));
                    let mut cost = 0u64;
                    for pair in path.windows(2) {
                        let w = g[pair[0]]
                            .edges
                            .iter()
                            .filter(|e| e.0 == pair[1])
                            .map(|e| e.1)
                            .min()
                            .expect("path edge must exist");
                        cost += w;
                    }
                    assert_eq!(Some(cost), best, "source {source} target {target}");
                }
                None => assert_eq!(best, None, "source {source} target {target}"),
            }
        }
    }
}

#[test]
fn source_without_edges_yields_nothing() {
    let g = vec![node(false, vec![]), node(true, vec![(0, 1)])];
    let mut d = Dijkstra::new(g, 0);
    assert_eq!(d.advance(), None);
    assert_eq!(d.advance(), None);
    assert!(matches!(d.tentative[1], Tentative::Unreached));
}

#[test]
fn no_waypoints_means_unreachable() {
    let g = vec![
        node(false, vec![(1, 1)]),
        node(false, vec![(0, 1), (2, 1)]),
        node(false, vec![(1, 1)]),
    ];
    let (first, second) = beer_route(g, 0);
    for target in 0..3 {
        assert_eq!(query(&first, &second, target), None);
    }
}

#[test]
fn disconnected_node_stays_unreached() {
    let g = vec![
        node(false, vec![(1, 5)]),
        node(true, vec![(0, 5)]),
        node(false, vec![]),
    ];
    let mut d = Dijkstra::new(g.clone(), 0);
    while d.advance().is_some() {}
    assert!(matches!(d.tentative[2], Tentative::Unreached));
    let (first, second) = beer_route(g, 0);
    assert_eq!(query(&first, &second, 2), None);
    // A target equal to the waypoint itself is fine.
    assert_eq!(query(&first, &second, 1), Some(vec![0, 1]));
}

#[test]
fn requery_same_runs_multiple_targets() {
    let (first, second) = beer_route(path_graph(), 0);
    assert_eq!(query(&first, &second, 0), Some(vec![0, 1, 2, 1, 0]));
    assert_eq!(query(&first, &second, 2), Some(vec![0, 1, 2]));
    assert_eq!(query(&first, &second, 3), Some(vec![0, 1, 2, 3]));
}

#[test]
fn one_shot_find_path() {
    let g = path_graph();
    assert_eq!(find_path(&g, 0, 3), Some(vec![0, 1, 2, 3]));
    assert_eq!(find_path(&g, 3, 0), Some(vec![3, 2, 1, 0]));
    let bare = vec![node(false, vec![(1, 1)]), node(false, vec![(0, 1)])];
    assert_eq!(find_path(&bare, 0, 1), None);
}
