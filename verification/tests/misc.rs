use lau_ricci_curvature_agents::bonnet_myers::{covering_count, fleet_size_bound, max_degree};
use lau_ricci_curvature_agents::ollivier_ricci::{cost_matrix, greedy_order, ground_cost};
use lau_ricci_curvature_agents::graph::UNIT_WEIGHT;
use lau_ricci_curvature_agents::{AgentGraph, BeliefSpaceCurvature, FlowStrategy};

#[test]
fn cost_matrix_hop_distances() {
    let g = AgentGraph::path(4);
    assert_eq!(cost_matrix(&g, &vec![0, 1], &vec![2, 3]), vec![vec![2, 3], vec![1, 2]]);
}

#[test]
fn cost_matrix_unreachable_costs_n_plus_one() {
    let mut g = AgentGraph::new(3);
    g.add_edge(0, 1, UNIT_WEIGHT);
    assert_eq!(ground_cost(&g, 0, 2), 4);
    assert_eq!(cost_matrix(&g, &vec![0], &vec![2, 1, 0]), vec![vec![4, 1, 0]]);
}

#[test]
fn greedy_order_by_cost_then_position() {
    let cost = vec![vec![2, 3], vec![1, 2]];
    assert_eq!(
        greedy_order(&cost, 2),
        vec![((1, 0), 1), ((0, 0), 2), ((1, 1), 2), ((0, 1), 3)]
    );
    assert!(greedy_order(&vec![], 3).is_empty());
}

#[test]
fn max_degree_and_covering() {
    assert_eq!(max_degree(&AgentGraph::star(5)), 4);
    assert_eq!(max_degree(&AgentGraph::new(0)), 0);
    assert_eq!(covering_count(&AgentGraph::complete(4)), 1);
    assert_eq!(covering_count(&AgentGraph::new(3)), 3);
    assert_eq!(covering_count(&AgentGraph::path(5)), 2);
}

#[test]
fn fleet_size_bound_examples() {
    assert_eq!(fleet_size_bound(2, 4), 16);
    assert_eq!(fleet_size_bound(0, 4), 1);
    assert_eq!(fleet_size_bound(3, 0), 0);
    assert_eq!(fleet_size_bound(5, 1), 1);
    // The radius enters as a `u32`, as `radius as u32` truncates it.
    assert_eq!(fleet_size_bound((1usize << 32) + 2, 3), 9);
}

#[test]
fn belief_space_dimension() {
    let b = BeliefSpaceCurvature::new(4);
    assert_eq!(b.categories, 4);
    assert_eq!(b.coordinate_dim(), 3);
    assert_eq!(BeliefSpaceCurvature::new(1).coordinate_dim(), 0);
    assert_eq!(BeliefSpaceCurvature::new(0).coordinate_dim(), 0);
}

#[test]
fn flow_strategy_values() {
    assert_ne!(FlowStrategy::Rewire, FlowStrategy::TriangleClosing);
    assert_eq!(FlowStrategy::NeighborhoodFilling, FlowStrategy::NeighborhoodFilling.clone());
}
