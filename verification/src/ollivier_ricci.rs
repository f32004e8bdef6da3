//! Ollivier-Ricci curvature: the combinatorial part of the optimal transport
//! between two neighborhood measures. The ground cost between two agents is
//! their hop distance (or `n + 1` when they are not connected), and the
//! greedy transport visits the (source, target) pairs in order of cost.
//! The transported masses are floating-point values and are not handled here.
use vstd::prelude::*;
use crate::graph::{AgentGraph, AgentId, GraphView};
use crate::forman_ricci::{curv_lt, keys_of, sort_by_curvature};
use crate::graph::strictly_sorted_keys;

verus! {

/// `c` is the ground cost between agents `x` and `y`: their hop distance,
/// or `n + 1` when `y` cannot be reached from `x`.
pub open spec fn is_ground_cost(g: GraphView, x: usize, y: usize, c: nat) -> bool {
    if g.reachable(x, y) {
        g.is_shortest(x, y, c)
    } else {
        c == g.n + 1
    }
}

/// Ground cost between two agents.
pub fn ground_cost(graph: &AgentGraph, x: AgentId, y: AgentId) -> (c: usize)
    requires
        graph.wf(),
        x < graph@.n,
        graph@.n < usize::MAX,
    ensures
        is_ground_cost(graph@, x, y, c as nat),
{
    match graph.distance(x, y) {
        Some(d) => d,
        None => graph.num_agents() + 1,
    }
}

/// Ground costs between the support points `xs` of one measure and `ys` of
/// another: `r[i][j]` is the cost from `xs[i]` to `ys[j]`.
pub fn cost_matrix(graph: &AgentGraph, xs: &Vec<AgentId>, ys: &Vec<AgentId>) -> (r: Vec<Vec<usize>>)
    requires
        graph.wf(),
        graph@.n < usize::MAX,
        forall|i: int| 0 <= i < xs@.len() ==> #[trigger] xs@[i] < graph@.n,
        forall|j: int| 0 <= j < ys@.len() ==> #[trigger] ys@[j] < graph@.n,
    ensures
        r@.len() == xs@.len(),
        forall|i: int| 0 <= i < r@.len() ==> (#[trigger] r@[i])@.len() == ys@.len(),
        forall|i: int, j: int|
            0 <= i < xs@.len() && 0 <= j < ys@.len() ==> is_ground_cost(graph@, xs@[i], ys@[j], (#[trigger] r@[i]@[j]) as nat),
{
    let mut r: Vec<Vec<usize>> = Vec::new();
    let mut i: usize = 0;
    while i < xs.len()
        invariant
            graph.wf(),
            graph@.n < usize::MAX,
            forall|i: int| 0 <= i < xs@.len() ==> #[trigger] xs@[i] < graph@.n,
            i <= xs@.len(),
            r@.len() == i,
            forall|i2: int| 0 <= i2 < r@.len() ==> (#[trigger] r@[i2])@.len() == ys@.len(),
            forall|i2: int, j: int|
                0 <= i2 < i && 0 <= j < ys@.len() ==> is_ground_cost(graph@, xs@[i2], ys@[j], (#[trigger] r@[i2]@[j]) as nat),
        decreases xs@.len() - i,
    {
        let mut row: Vec<usize> = Vec::new();
        let mut j: usize = 0;
        while j < ys.len()
            invariant
                graph.wf(),
                graph@.n < usize::MAX,
                i < xs@.len(),
                xs@[i as int] < graph@.n,
                j <= ys@.len(),
                row@.len() == j,
                forall|j2: int| 0 <= j2 < j ==> is_ground_cost(graph@, xs@[i as int], ys@[j2], (#[trigger] row@[j2]) as nat),
            decreases ys@.len() - j,
        {
            let c = ground_cost(graph, xs[i], ys[j]);
            row.push(c);
            j = j + 1;
        }
        r.push(row);
        proof {
            assert(r@[i as int] == row);
        }
        i = i + 1;
    }
    r
}

/// The order in which the greedy transport visits the pairs `(i, j)` of a
/// `cost` matrix: every pair once, by increasing cost, ties in row-major order.
/// Each entry is the pair with its cost.
pub fn greedy_order(cost: &Vec<Vec<usize>>, ny: usize) -> (r: Vec<((usize, usize), i128)>)
    requires
        forall|i: int| 0 <= i < cost@.len() ==> (#[trigger] cost@[i])@.len() == ny,
    ensures
        forall|i: int, j: int| 0 <= i < j < r@.len() ==> curv_lt(#[trigger] r@[i], #[trigger] r@[j]),
        forall|k: int| 0 <= k < r@.len() ==> {
            &&& (#[trigger] r@[k]).0.0 < cost@.len()
            &&& r@[k].0.1 < ny
            &&& r@[k].1 == cost@[r@[k].0.0 as int]@[r@[k].0.1 as int]
        },
        forall|i: usize, j: usize| i < cost@.len() && j < ny ==> #[trigger] keys_of(r@).contains((i, j)),
{
    let mut pairs: Vec<((usize, usize), i128)> = Vec::new();
    let nx = cost.len();
    let mut i: usize = 0;
    while i < nx
        invariant
            nx == cost@.len(),
            forall|i: int| 0 <= i < cost@.len() ==> (#[trigger] cost@[i])@.len() == ny,
            i <= nx,
            strictly_sorted_keys(keys_of(pairs@)),
            forall|k: int| 0 <= k < pairs@.len() ==> {
                &&& (#[trigger] pairs@[k]).0.0 < i
                &&& pairs@[k].0.1 < ny
                &&& pairs@[k].1 == cost@[pairs@[k].0.0 as int]@[pairs@[k].0.1 as int]
            },
            forall|i2: usize, j: usize| i2 < i && j < ny ==> #[trigger] keys_of(pairs@).contains((i2, j)),
        decreases nx - i,
    {
        let mut j: usize = 0;
        while j < ny
            invariant
                nx == cost@.len(),
                forall|i: int| 0 <= i < cost@.len() ==> (#[trigger] cost@[i])@.len() == ny,
                i < nx,
                j <= ny,
                strictly_sorted_keys(keys_of(pairs@)),
                forall|k: int| 0 <= k < pairs@.len() ==> {
                    &&& (#[trigger] pairs@[k]).0.0 <= i
                    &&& pairs@[k].0.1 < ny
                    &&& (pairs@[k].0.0 == i ==> pairs@[k].0.1 < j)
                    &&& pairs@[k].1 == cost@[pairs@[k].0.0 as int]@[pairs@[k].0.1 as int]
                },
                forall|i2: usize, j2: usize| (i2 < i && j2 < ny) || (i2 == i && j2 < j) ==> #[trigger] keys_of(pairs@).contains((i2, j2)),
            decreases ny - j,
        {
            let c = cost[i][j];
            let ghost old_pairs = pairs@;
            pairs.push(((i, j), c as i128));
            proof {
                assert(keys_of(pairs@) =~= keys_of(old_pairs).push((i, j)));
                assert forall|x: int, y: int| 0 <= x < y < keys_of(pairs@).len() implies crate::graph::key_lt(#[trigger] keys_of(pairs@)[x], #[trigger] keys_of(pairs@)[y]) by {
                    if y < old_pairs.len() {
                        assert(keys_of(old_pairs)[x] == keys_of(pairs@)[x]);
                        assert(keys_of(old_pairs)[y] == keys_of(pairs@)[y]);
                    } else {
                        assert(old_pairs[x] == pairs@[x]);
                    }
                }
                assert forall|i2: usize, j2: usize| (i2 < i && j2 < ny) || (i2 == i && j2 < j + 1) implies #[trigger] keys_of(pairs@).contains((i2, j2)) by {
                    if i2 == i && j2 == j {
                        assert(keys_of(pairs@)[pairs@.len() - 1] == (i2, j2));
                    } else {
                        assert(keys_of(old_pairs).contains((i2, j2)));
                        let x = choose|x: int| 0 <= x < keys_of(old_pairs).len() && keys_of(old_pairs)[x] == (i2, j2);
                        assert(keys_of(pairs@)[x] == (i2, j2));
                    }
                }
            }
            j = j + 1;
        }
        i = i + 1;
    }
    let r = sort_by_curvature(pairs);
    proof {
        assert forall|k: int| 0 <= k < r@.len() implies {
            &&& (#[trigger] r@[k]).0.0 < cost@.len()
            &&& r@[k].0.1 < ny
            &&& r@[k].1 == cost@[r@[k].0.0 as int]@[r@[k].0.1 as int]
        } by {
            assert(r@.contains(r@[k]));
            let x = choose|x: int| 0 <= x < pairs@.len() && pairs@[x] == r@[k];
            assert(pairs@[x] == r@[k]);
        }
        assert forall|i: usize, j: usize| i < cost@.len() && j < ny implies #[trigger] keys_of(r@).contains((i, j)) by {
            assert(keys_of(pairs@).contains((i, j)));
            let x = choose|x: int| 0 <= x < keys_of(pairs@).len() && keys_of(pairs@)[x] == (i, j);
            assert(pairs@.contains(pairs@[x]));
            let y = choose|y: int| 0 <= y < r@.len() && r@[y] == pairs@[x];
            assert(keys_of(r@)[y] == (i, j));
        }
    }
    r
}

} // verus!
