use lau_ricci_curvature_agents::fleet::initial_topology;

#[test]
fn test_initial_topology_connected() {
    // Goals: 8 agents, at most 4 links each.
    let g = initial_topology(8, 4);
    let components = g.connected_components();
    assert_eq!(components.len(), 1, "initial topology should be connected");
}

#[test]
fn initial_topology_links_next_two_around_ring() {
    let g = initial_topology(8, 4);
    assert_eq!(g.num_agents(), 8);
    for i in 0..8usize {
        assert!(g.has_edge(i, (i + 1) % 8));
        assert!(g.has_edge(i, (i + 2) % 8));
        assert!(!g.has_edge(i, (i + 3) % 8));
        assert_eq!(g.degree(i), 4);
    }
    assert_eq!(g.num_edges(), 16);
}

#[test]
fn initial_topology_degree_cap_stops_links() {
    // max degree 2: the cycle already saturates every agent.
    let g = initial_topology(6, 2);
    assert_eq!(g.num_edges(), 6);
    // tiny fleets
    assert_eq!(initial_topology(0, 4).num_agents(), 0);
    let one = initial_topology(1, 4);
    assert_eq!(one.num_edges(), 0);
}
