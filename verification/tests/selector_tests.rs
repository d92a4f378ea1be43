use std::collections::HashMap;
use tow_dispatch::dispatch::{build_area_graph, nearest_available_tow_truck, weights_are_nonnegative};
use tow_dispatch::model::{Edge, Node, TowTruck};
use tow_dispatch::selector::{select_nearest, UNREACHABLE};
use tow_dispatch::shortest_path::calculate_distance;

fn truck(id: i32, node_id: i32) -> TowTruck {
    TowTruck { id, driver_id: 100 + id, node_id, area_id: 1, status: "available".to_string() }
}

fn distances(entries: &[(i32, i32)]) -> HashMap<i32, i32> {
    let mut m = HashMap::new();
    for (k, v) in entries {
        m.insert(*k, *v);
    }
    m
}

#[test]
fn selector_picks_strictly_smallest_distance() {
    // nodes A = 1, B = 2, C = 3
    let d = distances(&[(1, 5), (2, 5), (3, 3)]);
    let picked = select_nearest(&d, vec![truck(10, 1), truck(11, 2), truck(12, 3)]);
    assert_eq!(picked, Some(truck(12, 3)));
}

#[test]
fn selector_breaks_ties_on_smaller_node_id() {
    let d = distances(&[(7, 3), (2, 3)]);
    let picked = select_nearest(&d, vec![truck(1, 7), truck(2, 2)]);
    assert_eq!(picked, Some(truck(2, 2)));
    let picked = select_nearest(&d, vec![truck(2, 2), truck(1, 7)]);
    assert_eq!(picked, Some(truck(2, 2)));
}

#[test]
fn selector_tie_break_ignores_truck_id() {
    let d = distances(&[(7, 3), (2, 3)]);
    let picked = select_nearest(&d, vec![truck(1, 7), truck(99, 2)]);
    assert_eq!(picked, Some(truck(99, 2)));
}

#[test]
fn selector_same_node_keeps_first_in_list() {
    let d = distances(&[(4, 6)]);
    let picked = select_nearest(&d, vec![truck(8, 4), truck(3, 4)]);
    assert_eq!(picked, Some(truck(8, 4)));
}

#[test]
fn selector_returns_none_for_empty_list() {
    let d = distances(&[(1, 0)]);
    assert_eq!(select_nearest(&d, Vec::new()), None);
}

#[test]
fn selector_returns_none_when_all_nodes_absent() {
    let d = distances(&[(1, 0), (2, 4)]);
    assert_eq!(select_nearest(&d, vec![truck(1, 8), truck(2, 9)]), None);
}

#[test]
fn selector_skips_absent_nodes() {
    let d = distances(&[(1, 0), (2, 4)]);
    assert_eq!(select_nearest(&d, vec![truck(1, 8), truck(2, 2), truck(3, 9)]), Some(truck(2, 2)));
}

#[test]
fn selector_never_picks_at_or_beyond_the_sentinel() {
    assert_eq!(UNREACHABLE, 10_000_001);
    let d = distances(&[(1, 10_000_001), (2, 20_000_000)]);
    assert_eq!(select_nearest(&d, vec![truck(1, 1), truck(2, 2)]), None);
    let d = distances(&[(1, 10_000_001), (2, 10_000_000)]);
    assert_eq!(select_nearest(&d, vec![truck(1, 1), truck(2, 2)]), Some(truck(2, 2)));
}

#[test]
fn selector_truck_at_order_node_wins() {
    let d = distances(&[(1, 0), (2, 1)]);
    assert_eq!(select_nearest(&d, vec![truck(5, 2), truck(6, 1)]), Some(truck(6, 1)));
}

#[test]
fn nearest_truck_end_to_end() {
    let nodes = vec![
        Node { id: 1, area_id: 1 },
        Node { id: 2, area_id: 1 },
        Node { id: 3, area_id: 1 },
    ];
    let edges = vec![
        Edge { node_a_id: 1, node_b_id: 2, weight: 4 },
        Edge { node_a_id: 2, node_b_id: 3, weight: 1 },
    ];
    assert!(weights_are_nonnegative(&edges));
    let picked = nearest_available_tow_truck(1, vec![truck(9, 3)], &nodes, &edges);
    assert_eq!(picked, Some(truck(9, 3)));
    let graph = build_area_graph(&nodes, &edges);
    assert_eq!(calculate_distance(&graph, 1, 3), 5);
    assert_eq!(graph.dijkstra(1).get(&3), Some(&5));
}

#[test]
fn nearest_truck_none_when_no_route() {
    let nodes = vec![Node { id: 1, area_id: 1 }, Node { id: 2, area_id: 1 }];
    let edges = vec![Edge { node_a_id: 2, node_b_id: 1, weight: 4 }];
    assert_eq!(nearest_available_tow_truck(1, vec![truck(9, 2)], &nodes, &edges), None);
    assert_eq!(nearest_available_tow_truck(1, Vec::new(), &nodes, &edges), None);
}

#[test]
fn nearest_truck_among_several() {
    let nodes = vec![
        Node { id: 1, area_id: 1 },
        Node { id: 2, area_id: 1 },
        Node { id: 3, area_id: 1 },
        Node { id: 4, area_id: 1 },
    ];
    let edges = vec![
        Edge { node_a_id: 1, node_b_id: 2, weight: 4 },
        Edge { node_a_id: 2, node_b_id: 3, weight: 1 },
        Edge { node_a_id: 1, node_b_id: 4, weight: 5 },
    ];
    let picked =
        nearest_available_tow_truck(1, vec![truck(1, 4), truck(2, 3), truck(3, 2)], &nodes, &edges);
    assert_eq!(picked, Some(truck(3, 2)));
    let picked = nearest_available_tow_truck(1, vec![truck(1, 4), truck(2, 3)], &nodes, &edges);
    assert_eq!(picked, Some(truck(2, 3)));
}

#[test]
fn build_area_graph_registers_nodes_and_edges() {
    let nodes = vec![Node { id: 1, area_id: 1 }, Node { id: 5, area_id: 1 }];
    let edges = vec![Edge { node_a_id: 1, node_b_id: 5, weight: 2 }];
    let graph = build_area_graph(&nodes, &edges);
    assert_eq!(graph.edges.len(), 2);
    assert_eq!(graph.edges.get(&1), Some(&edges));
    assert_eq!(graph.edges.get(&5), Some(&Vec::new()));
}

#[test]
fn negative_weight_is_detected() {
    let edges = vec![
        Edge { node_a_id: 1, node_b_id: 2, weight: 0 },
        Edge { node_a_id: 2, node_b_id: 3, weight: -1 },
    ];
    assert!(!weights_are_nonnegative(&edges));
    assert!(weights_are_nonnegative(&Vec::new()));
}
