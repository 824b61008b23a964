use aoc24::graph::{
    add_edge, all_pairs_shortest_paths, all_paths, dijkstras, is_fully_connected, neighbors, nodes,
    paths_to_vecs, reachable, remove_edge, rev_all_paths, reverse_graph, toposort, Graph,
};
use std::collections::{BTreeMap, BTreeSet};

fn diamond() -> Graph {
    // A = 0, B = 1, C = 2, D = 3
    let mut graph = Graph::new();
    add_edge(&mut graph, 0, 1, 1);
    add_edge(&mut graph, 0, 2, 1);
    add_edge(&mut graph, 1, 3, 1);
    add_edge(&mut graph, 2, 3, 1);
    graph
}

#[test]
fn toposort_test() {
    let mut graph = Graph::new();
    for i in 1..=20usize {
        add_edge(&mut graph, i, i - 1, 1);
        add_edge(&mut graph, i, i / 2, 1);
    }

    let soln: Vec<_> = (0..=20usize).rev().collect();
    assert_eq!(soln, toposort(&graph).unwrap());
}

#[test]
fn toposort_detects_cycle() {
    let mut graph = Graph::new();
    add_edge(&mut graph, 0, 1, 1);
    add_edge(&mut graph, 1, 2, 1);
    add_edge(&mut graph, 2, 0, 1);
    assert_eq!(toposort(&graph), None);

    let mut looped = Graph::new();
    add_edge(&mut looped, 5, 5, 0);
    assert_eq!(toposort(&looped), None);
}

#[test]
fn toposort_orders_every_edge_forward() {
    let mut graph = Graph::new();
    add_edge(&mut graph, 3, 1, 2);
    add_edge(&mut graph, 1, 4, 1);
    add_edge(&mut graph, 3, 4, 7);
    add_edge(&mut graph, 2, 1, 1);
    let order = toposort(&graph).unwrap();
    assert_eq!(order.len(), 4);
    let pos = |n: usize| order.iter().position(|x| *x == n).unwrap();
    for (u, edges) in graph.iter() {
        for (v, _) in edges.iter() {
            assert!(pos(*u) < pos(*v));
        }
    }
}

#[test]
fn add_and_remove_edges() {
    let mut graph = Graph::new();
    assert!(add_edge(&mut graph, 1, 2, 3));
    assert!(!add_edge(&mut graph, 1, 2, 3));
    assert!(add_edge(&mut graph, 1, 2, 4));
    assert_eq!(neighbors(&graph, &1), vec![(2, 3), (2, 4)]);
    assert!(remove_edge(&mut graph, 1, 2, 3));
    assert!(!remove_edge(&mut graph, 1, 2, 3));
    assert_eq!(neighbors(&graph, &1), vec![(2, 4)]);
    assert_eq!(neighbors(&graph, &2), vec![]);
    // removing from an unknown node still makes it a key
    assert!(!remove_edge(&mut graph, 9, 1, 1));
    assert!(graph.contains_key(&9));
}

#[test]
fn nodes_include_sinks() {
    let mut graph = Graph::new();
    add_edge(&mut graph, 1, 2, 1);
    add_edge(&mut graph, 3, 2, 1);
    graph.insert(7, BTreeSet::new());
    let expected: BTreeSet<usize> = [1, 2, 3, 7].into_iter().collect();
    assert_eq!(nodes(&graph), expected);
}

#[test]
fn dijkstra_on_diamond() {
    let graph = diamond();
    let dist = dijkstras(&graph, &0);
    let expected: BTreeMap<usize, usize> = [(0, 0), (1, 1), (2, 1), (3, 2)].into_iter().collect();
    assert_eq!(dist, expected);
}

#[test]
fn dijkstra_prefers_lighter_longer_path() {
    let mut graph = Graph::new();
    add_edge(&mut graph, 0, 1, 10);
    add_edge(&mut graph, 0, 2, 1);
    add_edge(&mut graph, 2, 3, 1);
    add_edge(&mut graph, 3, 1, 1);
    add_edge(&mut graph, 5, 0, 1);
    let dist = dijkstras(&graph, &0);
    assert_eq!(dist.get(&1), Some(&3));
    assert_eq!(dist.get(&3), Some(&2));
    // 5 reaches 0 but is not reached from it
    assert_eq!(dist.get(&5), None);
    assert_eq!(dist.len(), 4);
}

#[test]
fn dijkstra_self_loop() {
    let mut graph = Graph::new();
    add_edge(&mut graph, 0, 0, 5);
    let dist = dijkstras(&graph, &0);
    assert_eq!(dist.get(&0), Some(&0));
    assert_eq!(dist.len(), 1);
}

#[test]
fn dijkstra_isolated_start() {
    let graph = diamond();
    let dist = dijkstras(&graph, &42);
    let expected: BTreeMap<usize, usize> = [(42, 0)].into_iter().collect();
    assert_eq!(dist, expected);
}

#[test]
fn dijkstra_zero_weight_cycle() {
    let mut graph = Graph::new();
    add_edge(&mut graph, 0, 1, 0);
    add_edge(&mut graph, 1, 0, 0);
    add_edge(&mut graph, 1, 2, 4);
    let dist = dijkstras(&graph, &0);
    let expected: BTreeMap<usize, usize> = [(0, 0), (1, 0), (2, 4)].into_iter().collect();
    assert_eq!(dist, expected);
}

#[test]
fn dijkstra_start_at_zero_and_edges_relaxed() {
    let mut graph = Graph::new();
    add_edge(&mut graph, 0, 1, 4);
    add_edge(&mut graph, 0, 2, 1);
    add_edge(&mut graph, 2, 1, 2);
    add_edge(&mut graph, 1, 3, 5);
    add_edge(&mut graph, 3, 0, 3);
    for s in 0..4usize {
        let dist = dijkstras(&graph, &s);
        assert_eq!(dist[&s], 0);
        for (u, edges) in graph.iter() {
            if let Some(du) = dist.get(u) {
                for (v, w) in edges.iter() {
                    assert!(dist[v] <= du + w);
                }
            }
        }
    }
}

#[test]
fn all_pairs_matches_dijkstra() {
    let mut graph = diamond();
    add_edge(&mut graph, 3, 0, 2);
    let all = all_pairs_shortest_paths(&graph);
    assert_eq!(all.len(), 4);
    for (a, table) in all.iter() {
        assert_eq!(*table, dijkstras(&graph, a));
    }
    assert_eq!(all[&3][&2], 3);
}

#[test]
fn reverse_graph_flips_edges() {
    let mut graph = Graph::new();
    add_edge(&mut graph, 1, 2, 5);
    add_edge(&mut graph, 1, 3, 6);
    let rev = reverse_graph(&graph);
    assert_eq!(neighbors(&rev, &2), vec![(1, 5)]);
    assert_eq!(neighbors(&rev, &3), vec![(1, 6)]);
    assert_eq!(neighbors(&rev, &1), vec![]);
}

#[test]
fn all_shortest_paths_on_diamond() {
    let graph = diamond();
    let dist = dijkstras(&graph, &0);
    let preds = rev_all_paths(&graph, &dist, 0, 3);
    assert_eq!(preds[&3], vec![1, 2]);
    assert_eq!(preds[&1], vec![0]);
    assert_eq!(preds[&2], vec![0]);
    assert_eq!(preds[&0], Vec::<usize>::new());

    let succs = all_paths(&graph, &dist, 0, 3);
    assert_eq!(succs[&0], vec![1, 2]);
    assert_eq!(succs[&1], vec![3]);
    assert_eq!(succs[&2], vec![3]);

    let mut paths = paths_to_vecs(&succs, 0, 3);
    paths.sort();
    assert_eq!(paths, vec![vec![0, 1, 3], vec![0, 2, 3]]);
}

#[test]
fn all_shortest_paths_skip_longer_routes() {
    // 0 -> 1 -> 3 costs 2, 0 -> 2 -> 3 costs 3, 0 -> 3 costs 2
    let mut graph = Graph::new();
    add_edge(&mut graph, 0, 1, 1);
    add_edge(&mut graph, 1, 3, 1);
    add_edge(&mut graph, 0, 2, 1);
    add_edge(&mut graph, 2, 3, 2);
    add_edge(&mut graph, 0, 3, 2);
    let dist = dijkstras(&graph, &0);
    let succs = all_paths(&graph, &dist, 0, 3);
    let mut paths = paths_to_vecs(&succs, 0, 3);
    paths.sort();
    assert_eq!(paths, vec![vec![0, 1, 3], vec![0, 3]]);
    for p in paths.iter() {
        let mut total = 0;
        for w in p.windows(2) {
            total += graph[&w[0]].iter().filter(|(n, _)| *n == w[1]).map(|(_, x)| *x).min().unwrap();
        }
        assert_eq!(total, dist[&3]);
    }
}

#[test]
fn all_shortest_paths_shared_middle() {
    // two routes meet at 3 and share the tail 3 -> 4 -> 6 and 3 -> 5 -> 6
    let mut graph = Graph::new();
    add_edge(&mut graph, 0, 1, 1);
    add_edge(&mut graph, 0, 2, 1);
    add_edge(&mut graph, 1, 3, 1);
    add_edge(&mut graph, 2, 3, 1);
    add_edge(&mut graph, 3, 4, 1);
    add_edge(&mut graph, 3, 5, 1);
    add_edge(&mut graph, 4, 6, 1);
    add_edge(&mut graph, 5, 6, 1);
    let dist = dijkstras(&graph, &0);
    let succs = all_paths(&graph, &dist, 0, 6);
    let mut paths = paths_to_vecs(&succs, 0, 6);
    paths.sort();
    assert_eq!(
        paths,
        vec![
            vec![0, 1, 3, 4, 6],
            vec![0, 1, 3, 5, 6],
            vec![0, 2, 3, 4, 6],
            vec![0, 2, 3, 5, 6]
        ]
    );
}

#[test]
fn all_shortest_paths_start_is_end() {
    let graph = diamond();
    let dist = dijkstras(&graph, &0);
    let preds = rev_all_paths(&graph, &dist, 0, 0);
    let expected: BTreeMap<usize, Vec<usize>> = [(0, vec![])].into_iter().collect();
    assert_eq!(preds, expected);
    assert_eq!(paths_to_vecs(&all_paths(&graph, &dist, 0, 0), 0, 0), vec![vec![0]]);
    let loops: BTreeMap<usize, Vec<usize>> = [(3, vec![4])].into_iter().collect();
    assert_eq!(paths_to_vecs(&loops, 3, 3), vec![vec![3]]);
}

#[test]
fn all_shortest_paths_unreachable_end() {
    let mut graph = diamond();
    add_edge(&mut graph, 9, 3, 1);
    let dist = dijkstras(&graph, &0);
    let preds = rev_all_paths(&graph, &dist, 0, 9);
    assert!(preds.is_empty());
    let succs = all_paths(&graph, &dist, 0, 9);
    assert!(paths_to_vecs(&succs, 0, 9).is_empty());
}

#[test]
fn reachable_and_connectivity() {
    let graph = diamond();
    let r: BTreeSet<usize> = [1, 3].into_iter().collect();
    assert_eq!(reachable(&graph, &1), r);
    assert_eq!(reachable(&graph, &8), [8].into_iter().collect());
    assert!(!is_fully_connected(&graph));

    let mut ring = Graph::new();
    add_edge(&mut ring, 0, 1, 1);
    add_edge(&mut ring, 1, 2, 1);
    add_edge(&mut ring, 2, 0, 1);
    assert!(is_fully_connected(&ring));
    let all = nodes(&ring);
    for n in all.iter() {
        assert_eq!(reachable(&ring, n), all);
    }
    assert!(is_fully_connected(&Graph::new()));
}

#[test]
fn all_shortest_paths_listed_once() {
    // A = 0, B = 1, C = 2, D = 3, E = 4: B is reached twice on the way back from E
    let mut graph = Graph::new();
    add_edge(&mut graph, 0, 1, 1);
    add_edge(&mut graph, 1, 2, 1);
    add_edge(&mut graph, 1, 3, 1);
    add_edge(&mut graph, 2, 4, 1);
    add_edge(&mut graph, 3, 4, 1);
    let dist = dijkstras(&graph, &0);
    let preds = rev_all_paths(&graph, &dist, 0, 4);
    assert_eq!(preds[&1], vec![0]);
    assert_eq!(preds[&4], vec![2, 3]);
    let succs = all_paths(&graph, &dist, 0, 4);
    assert_eq!(succs[&1], vec![2, 3]);
    let paths = paths_to_vecs(&succs, 0, 4);
    assert_eq!(paths.len(), 2);
    assert!(paths.contains(&vec![0, 1, 2, 4]));
    assert!(paths.contains(&vec![0, 1, 3, 4]));
}

#[test]
fn all_shortest_paths_with_zero_weight_edge() {
    let mut graph = Graph::new();
    add_edge(&mut graph, 0, 1, 0);
    add_edge(&mut graph, 1, 2, 1);
    add_edge(&mut graph, 0, 2, 1);
    add_edge(&mut graph, 0, 3, 5);
    let dist = dijkstras(&graph, &0);
    assert_eq!(dist[&2], 1);
    let succs = all_paths(&graph, &dist, 0, 2);
    let mut paths = paths_to_vecs(&succs, 0, 2);
    paths.sort();
    assert_eq!(paths, vec![vec![0, 1, 2], vec![0, 2]]);
}
