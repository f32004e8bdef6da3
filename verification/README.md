# lau-ricci-curvature-agents (verified core)

Curvature tools for agent interaction graphs. The library in `src/` is
written in Verus and proved against its contracts:

- `graph`: the agent graph, a simple undirected graph (adjacency lists that
  name each neighbor once, plus a sorted edge-weight table), adding and
  removing edges, its builders (complete, path, cycle, star, grid),
  breadth-first distances, diameter and connected components (in
  depth-first order), with reachability defined by walks.
- `forman_ricci`: unweighted Forman-Ricci curvature `4 - deg(u) - deg(v)`,
  per edge, extremes and edges by curvature.
- `ollivier_ricci`: ground costs between measure supports and the order in
  which the greedy transport visits (source, target) pairs.
- `bottleneck`: repairs suggested for a bottleneck edge, and adding them.
- `curvature_flow`: triangle closing, rewiring, neighborhood filling, and
  shared-neighbor counts for candidate edges.
- `bonnet_myers`: maximum degree, covering count and fleet-size bound.
- `fleet`: the ring starting topology for fleet design.
- `belief_curvature`: the dimension of the belief simplex.

Edge weights are stored as IEEE-754 bit patterns (`f64::to_bits`); the
library never computes with them.

`app/` holds what is floating point or serialization: Ollivier-Ricci
curvature (measures, Wasserstein distance, Sinkhorn), weighted Forman-Ricci
curvature, belief-space geometry, concentration and Bonnet-Myers bounds,
the curvature-flow driver, bottleneck detection, fleet design, the Laplacian
(nalgebra) and serde copies of the library's types.
