//! Fleet topology design: the regular starting topology that curvature flow
//! then improves. Evaluating a design needs floating-point curvatures and is
//! not part of this module.
use vstd::prelude::*;
use crate::graph::{AgentGraph, GraphView, UNIT_WEIGHT, cycle_edge, cycle_view, edge_key, lemma_cycle_connected};

verus! {

/// Number of ring neighbors on each side that the starting topology links:
/// `max(1, min(max_degree / 2, n / 2))`.
pub open spec fn ring_reach(n: nat, max_degree: nat) -> nat {
    let k = if max_degree / 2 < n / 2 { max_degree / 2 } else { n / 2 };
    if k < 1 { 1 } else { k }
}

/// Link agent `i` to agent `(i + j) mod n` unless they are adjacent already
/// or `i` has `max_degree` entries in its adjacency list.
pub open spec fn ring_step(g: GraphView, i: nat, j: nat, n: nat, max_degree: nat) -> GraphView {
    let nb = ((i + j) % n) as usize;
    if !g.adjacent(i as usize, nb) && g.nbrs(i as usize).len() < max_degree {
        g.add_edge(i as usize, nb, UNIT_WEIGHT)
    } else {
        g
    }
}

/// `ring_step` for agent `i` and `j = 1..=upto`, in order.
pub open spec fn ring_row(g: GraphView, i: nat, upto: nat, n: nat, max_degree: nat) -> GraphView
    decreases upto,
{
    if upto == 0 {
        g
    } else {
        ring_step(ring_row(g, i, (upto - 1) as nat, n, max_degree), i, upto, n, max_degree)
    }
}

/// `ring_row` for agents `0..upto`, in order.
pub open spec fn ring_rows(g: GraphView, upto: nat, k: nat, n: nat, max_degree: nat) -> GraphView
    decreases upto,
{
    if upto == 0 {
        g
    } else {
        ring_row(ring_rows(g, (upto - 1) as nat, k, n, max_degree), (upto - 1) as nat, k, n, max_degree)
    }
}

/// The starting topology for `n_agents` agents with at most `max_degree`
/// links each: the cycle, plus links from each agent to its next
/// `ring_reach` agents around the ring while its degree allows.
pub fn initial_topology(n_agents: usize, max_degree: usize) -> (g: AgentGraph)
    ensures
        g.wf(),
        g@ == ring_rows(
            cycle_view(n_agents as nat),
            n_agents as nat,
            ring_reach(n_agents as nat, max_degree as nat),
            n_agents as nat,
            max_degree as nat,
        ),
        forall|k: (usize, usize)| #[trigger] g@.weights.dom().contains(k) ==> k.0 < k.1 < n_agents && short_link(n_agents as nat, max_degree as nat, k),
        max_degree <= 3 ==> g@.weights.dom() == cycle_view(n_agents as nat).weights.dom(),
{
    proof {
        lemma_initial_topology_short(n_agents as nat, max_degree as nat);
    }
    let n = n_agents;
    let half_deg = max_degree / 2;
    let half_n = n / 2;
    let k0 = if half_deg < half_n { half_deg } else { half_n };
    let k = if k0 < 1 { 1 } else { k0 };
    let ghost kk = ring_reach(n as nat, max_degree as nat);
    let mut g = AgentGraph::cycle(n);
    let ghost c = g@;
    let mut i: usize = 0;
    while i < n
        invariant
            g.wf(),
            g@.n == n,
            k == kk,
            1 <= k,
            n >= 2 ==> k <= n / 2,
            n < 2 ==> k == 1,
            i <= n,
            c == cycle_view(n as nat),
            g@ == ring_rows(c, i as nat, kk, n as nat, max_degree as nat),
        decreases n - i,
    {
        let mut j: usize = 1;
        while j <= k
            invariant
                g.wf(),
                g@.n == n,
                k == kk,
                1 <= k,
                n >= 2 ==> k <= n / 2,
                n < 2 ==> k == 1,
                i < n,
                1 <= j <= k + 1,
                c == cycle_view(n as nat),
                g@ == ring_row(ring_rows(c, i as nat, kk, n as nat, max_degree as nat), i as nat, (j - 1) as nat, n as nat, max_degree as nat),
            decreases k + 1 - j,
        {
            let neighbor = if j >= n - i {
                j - (n - i)
            } else {
                i + j
            };
            proof {
                assert(neighbor == (i + j) % (n as int)) by (nonlinear_arith)
                    requires
                        i < n,
                        j <= n,
                        neighbor == (if j >= n - i { j - (n - i) } else { i + j }),
                ;
            }
            if !g.has_edge(i, neighbor) && g.degree(i) < max_degree {
                g.add_edge(i, neighbor, UNIT_WEIGHT);
            }
            j = j + 1;
        }
        i = i + 1;
    }
    g
}

/// `ring_step`, `ring_row` and `ring_rows` keep the agents and every edge.
pub proof fn lemma_ring_rows_grows(g: GraphView, upto: nat, k: nat, n: nat, max_degree: nat)
    ensures
        ring_rows(g, upto, k, n, max_degree).n == g.n,
        g.weights.dom().subset_of(ring_rows(g, upto, k, n, max_degree).weights.dom()),
    decreases upto,
{
    if upto > 0 {
        lemma_ring_rows_grows(g, (upto - 1) as nat, k, n, max_degree);
        lemma_ring_row_grows(ring_rows(g, (upto - 1) as nat, k, n, max_degree), (upto - 1) as nat, k, n, max_degree);
    }
}

proof fn lemma_ring_row_grows(g: GraphView, i: nat, upto: nat, n: nat, max_degree: nat)
    ensures
        ring_row(g, i, upto, n, max_degree).n == g.n,
        g.weights.dom().subset_of(ring_row(g, i, upto, n, max_degree).weights.dom()),
    decreases upto,
{
    if upto > 0 {
        lemma_ring_row_grows(g, i, (upto - 1) as nat, n, max_degree);
    }
}

/// The starting topology is connected: every agent can be reached from agent 0.
pub proof fn lemma_initial_topology_connected(n: nat, max_degree: nat, x: usize)
    requires
        x < n,
    ensures
        ring_rows(cycle_view(n), n, ring_reach(n, max_degree), n, max_degree).reachable(0, x),
{
    let c = cycle_view(n);
    let g = ring_rows(c, n, ring_reach(n, max_degree), n, max_degree);
    lemma_cycle_connected(n, x);
    let k = choose|k: nat| #[trigger] c.within(0, x, k);
    lemma_ring_rows_grows(c, n, ring_reach(n, max_degree), n, max_degree);
    c.lemma_within_supergraph(g, 0, x, k);
}

/// Distance around a ring of `n` agents between agents `u <= v`.
pub open spec fn ring_gap(n: nat, u: nat, v: nat) -> int {
    let d = v - u;
    if d <= n - d {
        d
    } else {
        n - d
    }
}

/// The edge `k` of a topology on a ring of `n` agents is a short link for the
/// degree cap `max_degree`: it joins ring neighbors, or agents at most
/// `max_degree / 2` steps apart around the ring.
pub open spec fn short_link(n: nat, max_degree: nat, k: (usize, usize)) -> bool {
    ring_gap(n, k.0 as nat, k.1 as nat) == 1 || 2 * ring_gap(n, k.0 as nat, k.1 as nat) <= max_degree
}

/// Every edge is a short link between two agents.
pub open spec fn all_short(g: GraphView, n: nat, max_degree: nat) -> bool {
    forall|k: (usize, usize)| #[trigger] g.weights.dom().contains(k) ==> k.0 < k.1 < n && short_link(n, max_degree, k)
}

proof fn lemma_ring_step_short(g: GraphView, i: nat, j: nat, n: nat, max_degree: nat)
    requires
        n <= usize::MAX,
        all_short(g, n, max_degree),
        i < n,
        1 <= j <= ring_reach(n, max_degree),
    ensures
        all_short(ring_step(g, i, j, n, max_degree), n, max_degree),
{
    let nb = ((i + j) % n) as usize;
    let r = ring_step(g, i, j, n, max_degree);
    let reach = ring_reach(n, max_degree);
    assert(reach == 1 || (reach <= max_degree / 2 && reach <= n / 2));
    assert(j <= n);
    if i + j < n {
        assert((i + j) % n == i + j) by (nonlinear_arith)
            requires
                0 <= i + j < n,
        ;
    } else {
        assert((i + j) % n == i + j - n) by (nonlinear_arith)
            requires
                n <= i + j < 2 * n,
        ;
    }
    if r != g && (i as usize) != nb {
        let k = edge_key(i as usize, nb);
        assert(r.weights == g.weights.insert(k, UNIT_WEIGHT));
        assert(ring_gap(n, k.0 as nat, k.1 as nat) <= j);
        assert(ring_gap(n, k.0 as nat, k.1 as nat) >= 1);
        if reach != 1 {
            assert(2 * j <= max_degree) by (nonlinear_arith)
                requires
                    j <= reach,
                    reach <= max_degree / 2,
            ;
        }
    }
}

proof fn lemma_ring_row_short(g: GraphView, i: nat, upto: nat, n: nat, max_degree: nat)
    requires
        n <= usize::MAX,
        all_short(g, n, max_degree),
        i < n,
        upto <= ring_reach(n, max_degree),
    ensures
        all_short(ring_row(g, i, upto, n, max_degree), n, max_degree),
    decreases upto,
{
    if upto > 0 {
        lemma_ring_row_short(g, i, (upto - 1) as nat, n, max_degree);
        lemma_ring_step_short(ring_row(g, i, (upto - 1) as nat, n, max_degree), i, upto, n, max_degree);
    }
}

proof fn lemma_ring_rows_short(g: GraphView, upto: nat, n: nat, max_degree: nat)
    requires
        n <= usize::MAX,
        all_short(g, n, max_degree),
        upto <= n,
    ensures
        all_short(ring_rows(g, upto, ring_reach(n, max_degree), n, max_degree), n, max_degree),
    decreases upto,
{
    if upto > 0 {
        lemma_ring_rows_short(g, (upto - 1) as nat, n, max_degree);
        lemma_ring_row_short(
            ring_rows(g, (upto - 1) as nat, ring_reach(n, max_degree), n, max_degree),
            (upto - 1) as nat,
            ring_reach(n, max_degree),
            n,
            max_degree,
        );
    }
}

/// The starting topology only has short links: each edge joins two agents
/// that are ring neighbors or at most `max_degree / 2` steps apart around
/// the ring. With a degree cap of at most 3 it is exactly the cycle.
pub proof fn lemma_initial_topology_short(n: nat, max_degree: nat)
    requires
        n <= usize::MAX,
    ensures
        forall|k: (usize, usize)|
            #[trigger] ring_rows(cycle_view(n), n, ring_reach(n, max_degree), n, max_degree).weights.dom().contains(k)
                ==> k.0 < k.1 < n && short_link(n, max_degree, k),
        max_degree <= 3 ==> ring_rows(cycle_view(n), n, ring_reach(n, max_degree), n, max_degree).weights.dom()
            == cycle_view(n).weights.dom(),
{
    let c = cycle_view(n);
    let g = ring_rows(c, n, ring_reach(n, max_degree), n, max_degree);
    assert forall|k: (usize, usize)| #[trigger] c.weights.dom().contains(k) implies k.0 < k.1 < n && short_link(n, max_degree, k) by {
        assert(ring_gap(n, k.0 as nat, k.1 as nat) == 1);
    }
    lemma_ring_rows_short(c, n, n, max_degree);
    lemma_ring_rows_grows(c, n, ring_reach(n, max_degree), n, max_degree);
    if max_degree <= 3 {
        assert forall|k: (usize, usize)| #[trigger] g.weights.dom().contains(k) implies c.weights.dom().contains(k) by {
            assert(short_link(n, max_degree, k));
            assert(ring_gap(n, k.0 as nat, k.1 as nat) == 1);
            assert(cycle_edge(n, k));
        }
        assert(g.weights.dom() =~= c.weights.dom());
    }
}

} // verus!
