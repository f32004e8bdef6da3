use lau_ricci_curvature_agents::{AgentGraph, FormanRicciCurvature};

#[test]
fn test_forman_complete_graph() {
    let g = AgentGraph::complete(4);
    let f = FormanRicciCurvature::default();
    // K4: each node degree 3, F = 4 - 3 - 3 = -2
    let k = f.edge_curvature(&g, 0, 1);
    assert_eq!(k, -2);
}

#[test]
fn test_forman_path_endpoints() {
    let g = AgentGraph::path(4);
    let f = FormanRicciCurvature::default();
    // Path: node 0 degree 1, node 1 degree 2 → F = 4-1-2 = 1
    let k = f.edge_curvature(&g, 0, 1);
    assert_eq!(k, 1);
}

#[test]
fn test_forman_path_middle() {
    let g = AgentGraph::path(4);
    let f = FormanRicciCurvature::default();
    // node 1 degree 2, node 2 degree 2 → F = 4-2-2 = 0
    let k = f.edge_curvature(&g, 1, 2);
    assert_eq!(k, 0);
}

#[test]
fn test_forman_cycle() {
    let g = AgentGraph::cycle(6);
    let f = FormanRicciCurvature::default();
    // Cycle: all degrees 2, F = 4-2-2 = 0
    let k = f.edge_curvature(&g, 0, 1);
    assert_eq!(k, 0);
}

#[test]
fn test_forman_star_center_edge() {
    let g = AgentGraph::star(5);
    let f = FormanRicciCurvature::default();
    // center degree 4, leaf degree 1 → F = 4-4-1 = -1
    let k = f.edge_curvature(&g, 0, 1);
    assert_eq!(k, -1);
}

#[test]
fn test_forman_all_curvatures_count() {
    let g = AgentGraph::cycle(5);
    let f = FormanRicciCurvature::default();
    let all = f.all_curvatures(&g);
    assert_eq!(all.len(), 5);
}

#[test]
fn test_forman_edges_sorted() {
    let g = AgentGraph::path(5);
    let f = FormanRicciCurvature::default();
    let sorted = f.edges_by_curvature(&g);
    // Middle edges have lower curvature than endpoint edges
    assert!(sorted[0].1 <= sorted.last().unwrap().1);
}

#[test]
fn test_forman_grid() {
    let g = AgentGraph::grid(3, 3);
    let f = FormanRicciCurvature::default();
    // Corner: degree 2, edge to degree-3 node: F = 4-2-3 = -1
    // Interior: degree 4, edge to degree-4: F = 4-4-4 = -4
    let all = f.all_curvatures(&g);
    assert!(!all.is_empty());
    assert!(f.min_curvature(&g).unwrap() < 0);
}

#[test]
fn forman_new_keeps_flag() {
    assert!(FormanRicciCurvature::new(true).weighted);
    assert!(!FormanRicciCurvature::new(false).weighted);
    assert!(!FormanRicciCurvature::default().weighted);
}

#[test]
fn forman_all_curvatures_values_in_edge_order() {
    let g = AgentGraph::path(4);
    let f = FormanRicciCurvature::default();
    let all = f.all_curvatures(&g);
    assert_eq!(all, vec![((0, 1), 1), ((1, 2), 0), ((2, 3), 1)]);
}

#[test]
fn forman_min_max_on_star_and_empty() {
    let f = FormanRicciCurvature::default();
    let g = AgentGraph::star(5);
    assert_eq!(f.min_curvature(&g), Some(-1));
    assert_eq!(f.max_curvature(&g), Some(-1));
    let empty = AgentGraph::new(3);
    assert_eq!(f.min_curvature(&empty), None);
    assert_eq!(f.max_curvature(&empty), None);
}

#[test]
fn forman_grid_exact_extremes() {
    let g = AgentGraph::grid(3, 3);
    let f = FormanRicciCurvature::default();
    // Edges from a corner (degree 2) to a side cell (degree 3): -1.
    // Edges from a side cell (degree 3) to the center (degree 4): -3.
    assert_eq!(f.max_curvature(&g), Some(-1));
    assert_eq!(f.min_curvature(&g), Some(-3));
}

#[test]
fn forman_edges_by_curvature_exact_order() {
    let g = AgentGraph::path(5);
    let f = FormanRicciCurvature::default();
    let sorted = f.edges_by_curvature(&g);
    // Middle edges (0) first in edge order, then the end edges (1).
    assert_eq!(sorted, vec![((1, 2), 0), ((2, 3), 0), ((0, 1), 1), ((3, 4), 1)]);
}

#[test]
fn forman_counts_re_added_edge_once() {
    let mut g = AgentGraph::new(3);
    g.add_edge(0, 1, 1.0f64.to_bits());
    g.add_edge(0, 1, 2.0f64.to_bits());
    g.add_edge(1, 2, 1.0f64.to_bits());
    let f = FormanRicciCurvature::default();
    // Adjacency lists: 0 -> [1], 1 -> [0, 2]
    assert_eq!(f.edge_curvature(&g, 0, 1), 4 - 1 - 2);
}

#[test]
fn forman_edge_curvature_at_most_two() {
    let f = FormanRicciCurvature::default();
    for g in [AgentGraph::grid(3, 4), AgentGraph::path(2), AgentGraph::star(6), AgentGraph::complete(5)] {
        for (_, k) in f.all_curvatures(&g) {
            assert!(k <= 2);
        }
    }
    assert_eq!(f.edge_curvature(&AgentGraph::path(2), 0, 1), 2);
}
