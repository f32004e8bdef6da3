use lau_ricci_curvature_agents::graph::UNIT_WEIGHT;
use lau_ricci_curvature_agents::AgentGraph;

fn ids(s: &[(usize, u64)]) -> Vec<usize> {
    s.iter().map(|&(x, _)| x).collect()
}

#[test]
fn unit_weight_is_one() {
    assert_eq!(UNIT_WEIGHT, 1.0f64.to_bits());
}

#[test]
fn add_edge_then_read_back() {
    let mut g = AgentGraph::new(3);
    let w = 2.5f64.to_bits();
    g.add_edge(2, 0, w);
    assert!(g.has_edge(0, 2));
    assert!(g.has_edge(2, 0));
    assert_eq!(g.edge_weight(0, 2), Some(w));
    assert_eq!(g.edge_weight(2, 0), Some(w));
    assert_eq!(g.edge_weight(0, 1), None);
    assert_eq!(g.edges(), vec![(0, 2)]);
    assert_eq!(g.num_edges(), 1);
    assert_eq!(g.neighbors(0), &[(2, w)][..]);
    assert_eq!(g.neighbors(2), &[(0, w)][..]);
    assert!(g.neighbors(9).is_empty());
    assert_eq!(g.degree(9), 0);
}

#[test]
fn self_loop_is_ignored() {
    let mut g = AgentGraph::new(2);
    g.add_edge(1, 1, UNIT_WEIGHT);
    assert_eq!(g.num_edges(), 0);
    assert_eq!(g.degree(1), 0);
}

#[test]
fn re_adding_edge_replaces_weight() {
    let mut g = AgentGraph::new(2);
    g.add_edge(0, 1, 1.0f64.to_bits());
    g.add_edge(1, 0, 3.0f64.to_bits());
    assert_eq!(g.num_edges(), 1);
    assert_eq!(g.edge_weight(0, 1), Some(3.0f64.to_bits()));
    assert_eq!(g.degree(0), 1);
    assert_eq!(g.degree(1), 1);
    assert_eq!(g.neighbors(0), &[(1, 3.0f64.to_bits())]);
    assert_eq!(g.neighbors(1), &[(0, 3.0f64.to_bits())]);
}

#[test]
fn remove_edge_drops_both_listings() {
    let mut g = AgentGraph::path(4);
    g.remove_edge(2, 1);
    assert!(!g.has_edge(1, 2));
    assert_eq!(g.num_edges(), 2);
    assert_eq!(ids(g.neighbors(1)), vec![0]);
    assert_eq!(ids(g.neighbors(2)), vec![3]);
    assert_eq!(g.edges(), vec![(0, 1), (2, 3)]);
    assert_eq!(g.distance(0, 3), None);
    g.remove_edge(0, 2);
    assert_eq!(g.num_edges(), 2);
    g.add_edge(1, 2, UNIT_WEIGHT);
    assert_eq!(g.distance(0, 3), Some(3));
}

#[test]
fn removing_a_new_edge_restores_the_graph() {
    let base = AgentGraph::cycle(5);
    let mut g = AgentGraph::cycle(5);
    g.add_edge(1, 3, 2.0f64.to_bits());
    assert_eq!(g.num_edges(), 6);
    g.remove_edge(3, 1);
    assert_eq!(g.edges(), base.edges());
    for x in 0..5 {
        assert_eq!(g.neighbors(x), base.neighbors(x));
    }
}

#[test]
fn edges_are_sorted_pairs() {
    let mut g = AgentGraph::new(5);
    g.add_edge(4, 3, UNIT_WEIGHT);
    g.add_edge(2, 0, UNIT_WEIGHT);
    g.add_edge(0, 1, UNIT_WEIGHT);
    g.add_edge(3, 1, UNIT_WEIGHT);
    assert_eq!(g.edges(), vec![(0, 1), (0, 2), (1, 3), (3, 4)]);
    assert_eq!(g.agents(), vec![0, 1, 2, 3, 4]);
}

#[test]
fn distance_on_path_and_cycle() {
    let p = AgentGraph::path(5);
    assert_eq!(p.distance(0, 4), Some(4));
    assert_eq!(p.distance(4, 0), Some(4));
    assert_eq!(p.distance(2, 2), Some(0));
    let c = AgentGraph::cycle(6);
    assert_eq!(c.distance(0, 3), Some(3));
    assert_eq!(c.distance(0, 4), Some(2));
    assert_eq!(c.distance(5, 1), Some(2));
}

#[test]
fn distance_when_unreachable() {
    let mut g = AgentGraph::new(3);
    g.add_edge(0, 1, UNIT_WEIGHT);
    assert_eq!(g.distance(0, 2), None);
    assert_eq!(g.distance(0, 9), None);
    assert_eq!(g.distance(9, 9), Some(0));
}

#[test]
fn diameter_examples() {
    assert_eq!(AgentGraph::path(5).diameter(), 4);
    assert_eq!(AgentGraph::complete(4).diameter(), 1);
    assert_eq!(AgentGraph::new(3).diameter(), 0);
    assert_eq!(AgentGraph::cycle(7).diameter(), 3);
    assert_eq!(AgentGraph::grid(3, 3).diameter(), 4);
    let mut g = AgentGraph::new(6);
    g.add_edge(0, 1, UNIT_WEIGHT);
    g.add_edge(3, 4, UNIT_WEIGHT);
    g.add_edge(4, 5, UNIT_WEIGHT);
    assert_eq!(g.diameter(), 2);
}

#[test]
fn connected_components_examples() {
    let mut g = AgentGraph::new(5);
    g.add_edge(3, 4, UNIT_WEIGHT);
    g.add_edge(0, 2, UNIT_WEIGHT);
    assert_eq!(g.connected_components(), vec![vec![0, 2], vec![1], vec![3, 4]]);
    assert_eq!(AgentGraph::path(6).connected_components().len(), 1);
    assert!(AgentGraph::new(0).connected_components().is_empty());
}

#[test]
fn components_list_agents_in_depth_first_order() {
    // Stack order: the last unseen neighbor pushed is visited first.
    let s = AgentGraph::star(4);
    assert_eq!(s.connected_components(), vec![vec![0, 3, 2, 1]]);
    let p = AgentGraph::path(4);
    assert_eq!(p.connected_components(), vec![vec![0, 1, 2, 3]]);
    let mut g = AgentGraph::new(6);
    g.add_edge(1, 4, UNIT_WEIGHT);
    g.add_edge(1, 3, UNIT_WEIGHT);
    g.add_edge(4, 5, UNIT_WEIGHT);
    assert_eq!(g.connected_components(), vec![vec![0], vec![1, 3, 4, 5], vec![2]]);
}

#[test]
fn same_component_exactly_when_distance_is_some() {
    let mut g = AgentGraph::new(6);
    g.add_edge(0, 2, UNIT_WEIGHT);
    g.add_edge(2, 5, UNIT_WEIGHT);
    g.add_edge(1, 3, UNIT_WEIGHT);
    let comps = g.connected_components();
    for x in 0..6 {
        for y in 0..6 {
            let together = comps.iter().any(|c| c.contains(&x) && c.contains(&y));
            assert_eq!(together, g.distance(x, y).is_some());
        }
    }
}

#[test]
fn builders_adjacency_order() {
    let k = AgentGraph::complete(4);
    assert_eq!(ids(k.neighbors(2)), vec![0, 1, 3]);
    assert_eq!(k.num_edges(), 6);
    let p = AgentGraph::path(4);
    assert_eq!(ids(p.neighbors(0)), vec![1]);
    assert_eq!(ids(p.neighbors(1)), vec![0, 2]);
    assert_eq!(p.num_edges(), 3);
    let c = AgentGraph::cycle(5);
    assert_eq!(ids(c.neighbors(0)), vec![1, 4]);
    assert_eq!(ids(c.neighbors(4)), vec![3, 0]);
    assert_eq!(AgentGraph::cycle(2).num_edges(), 1);
    assert_eq!(AgentGraph::cycle(3).num_edges(), 3);
    let s = AgentGraph::star(4);
    assert_eq!(ids(s.neighbors(0)), vec![1, 2, 3]);
    assert_eq!(ids(s.neighbors(2)), vec![0]);
    assert_eq!(AgentGraph::path(0).num_edges(), 0);
    assert_eq!(AgentGraph::star(0).num_agents(), 0);
}

#[test]
fn grid_layout() {
    let g = AgentGraph::grid(2, 3);
    assert_eq!(g.num_agents(), 6);
    assert_eq!(ids(g.neighbors(1)), vec![0, 2, 4]);
    assert_eq!(ids(g.neighbors(4)), vec![1, 3, 5]);
    assert_eq!(ids(g.neighbors(0)), vec![1, 3]);
    assert_eq!(g.num_edges(), 7);
    assert_eq!(AgentGraph::grid(3, 3).num_edges(), 12);
    assert_eq!(AgentGraph::grid(1, 1).num_edges(), 0);
    assert_eq!(AgentGraph::grid(0, 5).num_agents(), 0);
}

#[test]
fn builders_use_unit_weight() {
    let g = AgentGraph::grid(2, 2);
    for (a, b) in g.edges() {
        assert_eq!(g.edge_weight(a, b), Some(UNIT_WEIGHT));
    }
}

#[test]
fn cycles_and_paths_are_connected() {
    for n in 1..8 {
        assert_eq!(AgentGraph::cycle(n).connected_components().len(), 1);
        assert_eq!(AgentGraph::path(n).connected_components().len(), 1);
        let c = AgentGraph::cycle(n);
        for x in 0..n {
            assert!(c.distance(0, x).is_some());
        }
    }
}

#[test]
fn distance_is_symmetric_on_grid() {
    let g = AgentGraph::grid(3, 4);
    for a in 0..12 {
        for b in 0..12 {
            assert_eq!(g.distance(a, b), g.distance(b, a));
        }
    }
    assert_eq!(g.distance(0, 11), Some(5));
}

#[test]
fn complete_graph_distances_are_one() {
    let g = AgentGraph::complete(5);
    for a in 0..5 {
        for b in 0..5 {
            assert_eq!(g.distance(a, b), Some(if a == b { 0 } else { 1 }));
        }
    }
}
