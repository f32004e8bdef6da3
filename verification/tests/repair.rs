use lau_ricci_curvature_agents::bottleneck::{apply_edge_additions, suggest_fixes};
use lau_ricci_curvature_agents::curvature_flow::{close_triangles, fill_neighborhood, fill_neighborhoods, gradient_candidates, rewire, rewire_candidates};
use lau_ricci_curvature_agents::graph::UNIT_WEIGHT;
use lau_ricci_curvature_agents::AgentGraph;

#[test]
fn suggest_fixes_cross_pairs() {
    let g = AgentGraph::path(5);
    assert_eq!(suggest_fixes(&g, 1, 2), vec![(0, 3)]);
}

#[test]
fn suggest_fixes_fallback_to_second_endpoint() {
    let g = AgentGraph::star(4);
    assert_eq!(suggest_fixes(&g, 0, 1), vec![(1, 2), (1, 3)]);
    assert!(suggest_fixes(&AgentGraph::complete(4), 0, 1).is_empty());
}

#[test]
fn suggest_fixes_stops_at_five() {
    let mut g = AgentGraph::new(9);
    g.add_edge(0, 1, UNIT_WEIGHT);
    for leaf in 2..7 {
        g.add_edge(0, leaf, UNIT_WEIGHT);
    }
    g.add_edge(1, 7, UNIT_WEIGHT);
    g.add_edge(1, 8, UNIT_WEIGHT);
    assert_eq!(suggest_fixes(&g, 0, 1), vec![(2, 7), (2, 8), (3, 7), (3, 8), (4, 7)]);
}

#[test]
fn apply_edge_additions_counts_new_edges() {
    let mut g = AgentGraph::path(4);
    let n = apply_edge_additions(&mut g, &vec![(0, 2), (0, 2), (1, 3), (0, 1)]);
    assert_eq!(n, 2);
    assert_eq!(g.num_edges(), 5);
    assert!(g.has_edge(2, 0));
    assert!(g.has_edge(3, 1));
}

#[test]
fn close_triangles_single_edge() {
    let mut g = AgentGraph::path(5);
    let added = close_triangles(&mut g, &vec![(1, 2)]);
    assert_eq!(added, vec![(0, 2)]);
    assert!(g.has_edge(0, 2));
    assert_eq!(g.num_edges(), 5);
}

#[test]
fn close_triangles_stops_at_three() {
    let mut g = AgentGraph::path(5);
    let added = close_triangles(&mut g, &vec![(1, 2), (2, 3), (0, 1)]);
    assert_eq!(added, vec![(0, 2), (1, 3), (0, 3)]);
    assert_eq!(g.num_edges(), 7);
}

#[test]
fn rewire_candidates_examples() {
    let g = AgentGraph::path(5);
    assert_eq!(rewire_candidates(&g, 0, 1), vec![2, 3, 4]);
    assert_eq!(rewire_candidates(&g, 1, 2), vec![3, 4]);
    assert_eq!(rewire_candidates(&g, 3, 4), vec![0, 1]);
    assert!(rewire_candidates(&AgentGraph::complete(4), 0, 1).is_empty());
    assert_eq!(rewire_candidates(&AgentGraph::star(4), 1, 0), vec![2, 3]);
}

#[test]
fn rewire_changes_the_graph() {
    let mut g = AgentGraph::path(5);
    let (added, removed) = rewire(&mut g, 0, 1, 3);
    assert_eq!(added, vec![(0, 3)]);
    assert_eq!(removed, vec![(0, 1)]);
    assert!(!g.has_edge(0, 1));
    assert!(g.has_edge(0, 3));
    assert_eq!(g.num_edges(), 4);
    assert_eq!(g.edge_weight(0, 3), Some(UNIT_WEIGHT));

    let mut p = AgentGraph::path(5);
    let (added, removed) = rewire(&mut p, 1, 2, 3);
    assert_eq!(removed, vec![(1, 2)]);
    assert_eq!(added, vec![(1, 3)]);
    assert!(!p.has_edge(1, 2));
    assert!(p.has_edge(1, 3));
    assert_eq!(p.edges(), vec![(0, 1), (1, 3), (2, 3), (3, 4)]);
}

#[test]
fn rewire_leaves_graph_when_not_allowed() {
    // `b` would be left without neighbors.
    let mut g = AgentGraph::path(5);
    let (added, removed) = rewire(&mut g, 3, 4, 0);
    assert!(added.is_empty() && removed.is_empty());
    assert_eq!(g.edges(), AgentGraph::path(5).edges());
    // `c` is already a neighbor of `a`, is `a` itself, or is not an agent.
    for c in [0, 1, 2, 9] {
        let mut p = AgentGraph::path(5);
        let (added, removed) = rewire(&mut p, 1, 2, c);
        assert!(added.is_empty() && removed.is_empty());
        assert_eq!(p.edges(), AgentGraph::path(5).edges());
    }
}

#[test]
fn fill_neighborhoods_walks_the_edges_in_turn() {
    let mut p = AgentGraph::path(5);
    let added = fill_neighborhoods(&mut p, &vec![(1, 2), (2, 3)]);
    assert_eq!(added, vec![(0, 3), (1, 4)]);
    assert_eq!(p.num_edges(), 6);
    assert!(p.has_edge(0, 3) && p.has_edge(1, 4));
    let mut s = AgentGraph::star(5);
    assert!(fill_neighborhoods(&mut s, &vec![(0, 1), (0, 2)]).is_empty());
    let mut q = AgentGraph::path(5);
    assert!(fill_neighborhoods(&mut q, &vec![]).is_empty());
    assert_eq!(q.num_edges(), 4);
}

#[test]
fn fill_neighborhood_stops_at_five() {
    let mut g = AgentGraph::new(8);
    g.add_edge(0, 1, UNIT_WEIGHT);
    for x in 2..5 {
        g.add_edge(0, x, UNIT_WEIGHT);
    }
    for y in 5..8 {
        g.add_edge(1, y, UNIT_WEIGHT);
    }
    let added = fill_neighborhood(&mut g, 0, 1);
    assert_eq!(added, vec![(2, 5), (2, 6), (2, 7), (3, 5), (3, 6)]);
    assert_eq!(g.num_edges(), 7 + 5);
}

#[test]
fn gradient_candidates_on_path() {
    let g = AgentGraph::path(4);
    assert_eq!(
        gradient_candidates(&g),
        vec![((0, 2), 1, 2), ((0, 3), 0, 1), ((1, 3), 1, 2)]
    );
}
