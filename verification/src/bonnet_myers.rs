//! Bonnet-Myers bounds: the combinatorial parts. The curvature that decides
//! whether a bound applies, and the radius it gives, are floating-point
//! quantities and are not computed here.
use vstd::prelude::*;
use vstd::arithmetic::power::{pow, lemma_pow_increases};
use crate::graph::AgentGraph;

verus! {

/// Largest adjacency-list length over the agents (0 when there is no agent).
pub open spec fn is_max_degree(g: crate::graph::GraphView, m: nat) -> bool {
    &&& forall|a: usize| a < g.n ==> #[trigger] g.nbrs(a).len() <= m
    &&& (g.n == 0 ==> m == 0)
    &&& (g.n > 0 ==> exists|a: usize| a < g.n && #[trigger] g.nbrs(a).len() == m)
}

/// Largest degree over all agents (0 when there is no agent).
pub fn max_degree(graph: &AgentGraph) -> (m: usize)
    requires
        graph.wf(),
    ensures
        is_max_degree(graph@, m as nat),
{
    let n = graph.num_agents();
    let mut m: usize = 0;
    let mut i: usize = 0;
    while i < n
        invariant
            graph.wf(),
            n == graph@.n,
            i <= n,
            forall|a: usize| a < i ==> #[trigger] graph@.nbrs(a).len() <= m,
            i == 0 ==> m == 0,
            i > 0 ==> exists|a: usize| a < i && #[trigger] graph@.nbrs(a).len() == m,
        decreases n - i,
    {
        let d = graph.degree(i);
        if i == 0 || d > m {
            m = d;
        }
        i = i + 1;
    }
    m
}

/// Number of balls of the maximum-degree size needed to cover the agents:
/// `n` when no agent has a neighbor, else `(n + m) / (m + 1)` for maximum degree `m`.
pub open spec fn covering_count_spec(n: nat, m: nat) -> nat {
    if m == 0 {
        n
    } else {
        ((n + m) / (m + 1)) as nat
    }
}

/// For maximum degree `m >= 1`, the covering count is the least number of
/// balls of `m + 1` agents that together hold all `n` agents:
/// `r * (m + 1) >= n` and `(r - 1) * (m + 1) < n`.
pub proof fn lemma_covering_count_least(n: nat, m: nat)
    requires
        m >= 1,
    ensures
        covering_count_spec(n, m) * (m + 1) >= n,
        (covering_count_spec(n, m) - 1) * (m + 1) < n,
{
    let r = covering_count_spec(n, m);
    let d = (m + 1) as int;
    let s = (n + m) as int;
    assert(r == s / d);
    vstd::arithmetic::div_mod::lemma_fundamental_div_mod(s, d);
    assert(0 <= s % d < d) by {
        vstd::arithmetic::div_mod::lemma_mod_bound(s, d);
    }
    let q = s / d;
    assert(r == q);
    assert(q * d >= n && (q - 1) * d < n) by (nonlinear_arith)
        requires
            s == d * q + s % d,
            0 <= s % d < d,
            s == n + m,
            d == m + 1,
    ;
}

/// The maximum degree of a graph is unique.
pub proof fn lemma_max_degree_unique(g: crate::graph::GraphView, m1: nat, m2: nat)
    requires
        is_max_degree(g, m1),
        is_max_degree(g, m2),
    ensures
        m1 == m2,
{
    if g.n > 0 {
        let a1 = choose|a: usize| a < g.n && #[trigger] g.nbrs(a).len() == m1;
        let a2 = choose|a: usize| a < g.n && #[trigger] g.nbrs(a).len() == m2;
        assert(g.nbrs(a1).len() <= m2);
        assert(g.nbrs(a2).len() <= m1);
    }
}

/// Covering-number estimate of a graph whose curvature admits a
/// Bonnet-Myers diameter bound.
pub fn covering_count(graph: &AgentGraph) -> (r: usize)
    requires
        graph.wf(),
    ensures
        exists|m: nat| is_max_degree(graph@, m) && r == covering_count_spec(graph@.n, m),
        forall|m: nat| #[trigger] is_max_degree(graph@, m) && m >= 1 ==> r * (m + 1) >= graph@.n && (r - 1) * (m + 1) < graph@.n,
{
    let n = graph.num_agents();
    let m = max_degree(graph);
    proof {
        assert forall|m2: nat| #[trigger] is_max_degree(graph@, m2) implies m2 == m by {
            lemma_max_degree_unique(graph@, m2, m as nat);
        }
        if m >= 1 {
            lemma_covering_count_least(n as nat, m as nat);
        }
    }
    if m == 0 {
        return n;
    }
    let q = ((n as u128) + (m as u128)) / ((m as u128) + 1);
    proof {
        assert(q <= n) by (nonlinear_arith)
            requires
                q == (n + m) / (m + 1),
                m >= 1,
        ;
    }
    q as usize
}

/// Upper bound on the fleet size compatible with a diameter bound `radius`:
/// `1` for radius 0, else `max_degree` to the power of `radius` taken as a
/// `u32` (`radius as u32`).
pub fn fleet_size_bound(radius: usize, max_degree: usize) -> (r: usize)
    requires
        radius != 0 ==> pow(max_degree as int, (radius as u32) as nat) <= usize::MAX,
    ensures
        r == (if radius == 0 { 1 } else { pow(max_degree as int, (radius as u32) as nat) }),
{
    if radius == 0 {
        return 1;
    }
    let exp: u32 = radius as u32;
    let mut r: usize = 1;
    let mut t: u32 = 0;
    proof {
        reveal(pow);
    }
    while t < exp
        invariant
            t <= exp,
            r == pow(max_degree as int, t as nat),
            pow(max_degree as int, exp as nat) <= usize::MAX,
        decreases exp - t,
    {
        proof {
            reveal(pow);
            assert(pow(max_degree as int, (t + 1) as nat) == max_degree * pow(max_degree as int, t as nat));
            assert(r * max_degree == max_degree * r) by (nonlinear_arith);
            if max_degree > 0 {
                lemma_pow_increases(max_degree as nat, (t + 1) as nat, exp as nat);
            } else {
                assert(pow(max_degree as int, (t + 1) as nat) == 0);
            }
        }
        r = r * max_degree;
        t = t + 1;
    }
    r
}

} // verus!
