use std::collections::HashMap;
use tow_dispatch::frontier::{Frontier, State};
use tow_dispatch::graph::Graph;
use tow_dispatch::model::{Edge, Node};
use tow_dispatch::shortest_path::calculate_distance;

fn edge(a: i32, b: i32, w: i32) -> Edge {
    Edge { node_a_id: a, node_b_id: b, weight: w }
}

fn graph_of(nodes: &[i32], edges: &[(i32, i32, i32)]) -> Graph {
    let mut g = Graph::new();
    for n in nodes {
        g.add_node(Node { id: *n, area_id: 1 });
    }
    for (a, b, w) in edges {
        g.add_edge(edge(*a, *b, *w));
    }
    g
}

/// Cheapest costs by repeated relaxation over all edges, in wide arithmetic.
fn brute_force(edges: &[(i32, i32, i32)], start: i32) -> HashMap<i32, i64> {
    let mut best: HashMap<i32, i64> = HashMap::new();
    best.insert(start, 0);
    for _ in 0..(edges.len() + 1) {
        for (a, b, w) in edges {
            if let Some(da) = best.get(a).cloned() {
                let cand = da + (*w as i64);
                let cur = best.get(b).cloned();
                if cur.is_none() || cand < cur.unwrap() {
                    best.insert(*b, cand);
                }
            }
        }
    }
    best
}

fn assert_matches_brute_force(edges: &[(i32, i32, i32)], start: i32) {
    let g = graph_of(&[], edges);
    let got = g.dijkstra(start);
    let want = brute_force(edges, start);
    for (node, cost) in want.iter() {
        if *cost < i32::MAX as i64 {
            assert_eq!(got.get(node).cloned().map(|c| c as i64), Some(*cost));
        } else {
            assert_eq!(got.get(node), None);
        }
    }
    for node in got.keys() {
        assert!(want.contains_key(node));
    }
}

#[test]
fn new_graph_is_empty() {
    let g = Graph::new();
    assert!(g.edges.is_empty());
}

#[test]
fn add_node_registers_empty_entry() {
    let mut g = Graph::new();
    g.add_node(Node { id: 7, area_id: 2 });
    assert_eq!(g.edges.len(), 1);
    assert_eq!(g.edges.get(&7), Some(&Vec::new()));
}

#[test]
fn add_node_is_idempotent_and_keeps_edges() {
    let mut g = Graph::new();
    g.add_node(Node { id: 1, area_id: 1 });
    g.add_edge(edge(1, 2, 4));
    g.add_node(Node { id: 1, area_id: 1 });
    assert_eq!(g.edges.len(), 1);
    assert_eq!(g.edges.get(&1), Some(&vec![edge(1, 2, 4)]));
}

#[test]
fn add_edge_creates_entry_and_appends_in_order() {
    let mut g = Graph::new();
    g.add_edge(edge(1, 2, 4));
    g.add_edge(edge(1, 3, 9));
    g.add_edge(edge(1, 2, 4));
    assert_eq!(g.edges.get(&1), Some(&vec![edge(1, 2, 4), edge(1, 3, 9), edge(1, 2, 4)]));
}

#[test]
fn add_edge_is_directed() {
    let mut g = Graph::new();
    g.add_edge(edge(1, 2, 4));
    assert_eq!(g.edges.get(&2), None);
    assert_eq!(g.edges_from(2), None);
    assert_eq!(g.edges_from(1), Some(&vec![edge(1, 2, 4)]));
    let back = g.dijkstra(2);
    assert_eq!(back.get(&1), None);
}

#[test]
fn dijkstra_start_costs_nothing() {
    let g = graph_of(&[1, 2], &[(1, 2, 3), (2, 1, 1)]);
    assert_eq!(g.dijkstra(1).get(&1), Some(&0));
    assert_eq!(g.dijkstra(2).get(&2), Some(&0));
}

#[test]
fn dijkstra_start_outside_graph_has_only_itself() {
    let g = graph_of(&[1, 2], &[(1, 2, 3)]);
    let d = g.dijkstra(42);
    assert_eq!(d.len(), 1);
    assert_eq!(d.get(&42), Some(&0));
}

#[test]
fn dijkstra_chain_costs() {
    let g = graph_of(&[1, 2, 3], &[(1, 2, 4), (2, 3, 1)]);
    let d = g.dijkstra(1);
    assert_eq!(d.len(), 3);
    assert_eq!(d.get(&1), Some(&0));
    assert_eq!(d.get(&2), Some(&4));
    assert_eq!(d.get(&3), Some(&5));
}

#[test]
fn dijkstra_prefers_cheaper_detour() {
    let g = graph_of(&[], &[(1, 3, 10), (1, 2, 2), (2, 3, 3), (3, 4, 1)]);
    let d = g.dijkstra(1);
    assert_eq!(d.get(&3), Some(&5));
    assert_eq!(d.get(&4), Some(&6));
}

#[test]
fn dijkstra_omits_unreachable_nodes() {
    let g = graph_of(&[1, 2, 3, 4], &[(1, 2, 1), (3, 4, 1), (4, 1, 1)]);
    let d = g.dijkstra(1);
    assert_eq!(d.len(), 2);
    assert!(!d.contains_key(&3));
    assert!(!d.contains_key(&4));
}

#[test]
fn dijkstra_self_loop_has_no_effect() {
    let g = graph_of(&[], &[(1, 1, 5), (1, 2, 2), (2, 2, 0)]);
    let d = g.dijkstra(1);
    assert_eq!(d.get(&1), Some(&0));
    assert_eq!(d.get(&2), Some(&2));
}

#[test]
fn dijkstra_parallel_edges_take_the_cheapest() {
    let g = graph_of(&[], &[(1, 2, 9), (1, 2, 3), (1, 2, 7)]);
    assert_eq!(g.dijkstra(1).get(&2), Some(&3));
}

#[test]
fn dijkstra_zero_weight_cycle() {
    let g = graph_of(&[], &[(1, 2, 0), (2, 1, 0), (2, 3, 0)]);
    let d = g.dijkstra(1);
    assert_eq!(d.get(&1), Some(&0));
    assert_eq!(d.get(&2), Some(&0));
    assert_eq!(d.get(&3), Some(&0));
}

#[test]
fn dijkstra_cost_at_the_limit_is_out_of_reach() {
    let g = graph_of(&[], &[(1, 2, i32::MAX), (1, 3, i32::MAX - 1), (3, 4, 1), (3, 5, i32::MAX)]);
    let d = g.dijkstra(1);
    assert_eq!(d.get(&2), None);
    assert_eq!(d.get(&3), Some(&(i32::MAX - 1)));
    assert_eq!(d.get(&4), None);
    assert_eq!(d.get(&5), None);
}

#[test]
fn dijkstra_matches_brute_force_on_small_graphs() {
    assert_matches_brute_force(&[(1, 2, 4), (2, 3, 1), (1, 3, 6), (3, 1, 2)], 1);
    assert_matches_brute_force(&[(1, 2, 4), (2, 3, 1), (1, 3, 6), (3, 1, 2)], 3);
    assert_matches_brute_force(
        &[(0, 1, 7), (0, 2, 9), (0, 5, 14), (1, 2, 10), (1, 3, 15), (2, 3, 11), (2, 5, 2), (3, 4, 6), (5, 4, 9)],
        0,
    );
    assert_matches_brute_force(
        &[(5, 4, 1), (4, 3, 1), (3, 2, 1), (2, 1, 1), (5, 1, 3), (1, 5, 0), (7, 8, 2)],
        5,
    );
    assert_matches_brute_force(&[(1, 2, 2_000_000_000), (2, 3, 2_000_000_000), (1, 3, 100)], 1);
}

#[test]
fn dijkstra_matches_brute_force_on_generated_graphs() {
    let mut seed: u64 = 12345;
    for _ in 0..40 {
        let mut edges: Vec<(i32, i32, i32)> = Vec::new();
        for _ in 0..12 {
            seed = seed.wrapping_mul(6364136223846793005).wrapping_add(1442695040888963407);
            let a = ((seed >> 33) % 6) as i32;
            seed = seed.wrapping_mul(6364136223846793005).wrapping_add(1442695040888963407);
            let b = ((seed >> 33) % 6) as i32;
            seed = seed.wrapping_mul(6364136223846793005).wrapping_add(1442695040888963407);
            let w = ((seed >> 33) % 20) as i32;
            edges.push((a, b, w));
        }
        for start in 0..6 {
            assert_matches_brute_force(&edges, start);
        }
    }
}

#[test]
fn calculate_distance_of_chain_is_five() {
    let g = graph_of(&[1, 2, 3], &[(1, 2, 4), (2, 3, 1)]);
    assert_eq!(calculate_distance(&g, 1, 3), 5);
    assert_eq!(calculate_distance(&g, 1, 1), 0);
}

#[test]
fn calculate_distance_unreachable_is_max() {
    let g = graph_of(&[1, 2, 3], &[(1, 2, 4), (2, 3, 1)]);
    assert_eq!(calculate_distance(&g, 3, 1), i32::MAX);
    assert_eq!(calculate_distance(&g, 1, 99), i32::MAX);
}

#[test]
fn frontier_hands_out_cheapest_first() {
    let mut f = Frontier::new();
    assert!(f.is_empty());
    assert_eq!(f.pop(), None);
    f.push(State { node_id: 1, cost: 5 });
    f.push(State { node_id: 2, cost: 3 });
    f.push(State { node_id: 3, cost: 8 });
    f.push(State { node_id: 4, cost: 3 });
    assert!(!f.is_empty());
    let mut costs = Vec::new();
    while let Some(s) = f.pop() {
        costs.push(s.cost);
    }
    assert_eq!(costs, vec![3, 3, 5, 8]);
    assert!(f.is_empty());
}
