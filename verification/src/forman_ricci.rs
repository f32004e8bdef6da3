//! Forman-Ricci curvature: a combinatorial curvature of edges.
//!
//! Unweighted: F(u, v) = 4 - deg(u) - deg(v), an integer. The weighted
//! variant needs floating-point arithmetic and is not part of this module.
use vstd::prelude::*;
use crate::graph::{AgentGraph, AgentId, GraphView, edge_key, key_lt, strictly_sorted_keys};

verus! {

/// Unweighted Forman-Ricci curvature of the edge between `a` and `b`.
pub open spec fn forman_unweighted(g: GraphView, a: usize, b: usize) -> int {
    4 - g.nbrs(a).len() - g.nbrs(b).len()
}

/// The keys of a list of keyed entries.
pub open spec fn keys_of<V>(s: Seq<((usize, usize), V)>) -> Seq<(usize, usize)> {
    s.map_values(|e: ((usize, usize), V)| e.0)
}

/// Order of `(curvature, edge)` pairs: by curvature, then by edge.
pub open spec fn curv_lt(x: ((usize, usize), i128), y: ((usize, usize), i128)) -> bool {
    x.1 < y.1 || (x.1 == y.1 && key_lt(x.0, y.0))
}

/// Executable form of `curv_lt`.
pub fn curv_less(x: ((usize, usize), i128), y: ((usize, usize), i128)) -> (r: bool)
    ensures
        r == curv_lt(x, y),
{
    x.1 < y.1 || (x.1 == y.1 && (x.0.0 < y.0.0 || (x.0.0 == y.0.0 && x.0.1 < y.0.1)))
}

/// Sort entries by `curv_lt`; the entries must have distinct keys.
pub fn sort_by_curvature(v: Vec<((usize, usize), i128)>) -> (r: Vec<((usize, usize), i128)>)
    requires
        strictly_sorted_keys(keys_of(v@)),
    ensures
        r@.len() == v@.len(),
        forall|i: int, j: int| 0 <= i < j < r@.len() ==> curv_lt(#[trigger] r@[i], #[trigger] r@[j]),
        forall|e: ((usize, usize), i128)| r@.contains(e) <==> v@.contains(e),
{
    let mut r: Vec<((usize, usize), i128)> = Vec::new();
    let n = v.len();
    let mut i: usize = 0;
    while i < n
        invariant
            n == v@.len(),
            i <= n,
            strictly_sorted_keys(keys_of(v@)),
            r@.len() == i,
            forall|x: int, y: int| 0 <= x < y < r@.len() ==> curv_lt(#[trigger] r@[x], #[trigger] r@[y]),
            forall|e: ((usize, usize), i128)| r@.contains(e) <==> v@.subrange(0, i as int).contains(e),
        decreases n - i,
    {
        let e = v[i];
        let mut p: usize = 0;
        while p < r.len() && !curv_less(e, r[p])
            invariant
                p <= r@.len(),
                forall|x: int| 0 <= x < p ==> !curv_lt(e, #[trigger] r@[x]),
            decreases r@.len() - p,
        {
            p = p + 1;
        }
        proof {
            // No stored entry equals `e`: stored entries come from earlier positions, whose keys differ.
            assert forall|x: int| 0 <= x < r@.len() implies (#[trigger] r@[x]).0 != e.0 by {
                assert(r@.contains(r@[x]));
                let y = choose|y: int| 0 <= y < i && v@.subrange(0, i as int)[y] == r@[x];
                assert(keys_of(v@)[y] == v@[y].0);
                assert(keys_of(v@)[i as int] == v@[i as int].0);
                assert(key_lt(keys_of(v@)[y], keys_of(v@)[i as int]));
            }
            assert forall|x: int| 0 <= x < p implies curv_lt(#[trigger] r@[x], e) by {
                assert(!curv_lt(e, r@[x]));
                assert(r@[x].0 != e.0);
            }
        }
        let ghost old_r = r@;
        r.insert(p, e);
        proof {
            old_r.insert_ensures(p as int, e);
            assert forall|x: int, y: int| 0 <= x < y < r@.len() implies curv_lt(#[trigger] r@[x], #[trigger] r@[y]) by {
                if y < p {
                } else if y == p {
                } else if x < p {
                    assert(r@[y] == old_r[y - 1]);
                    assert(curv_lt(old_r[x], e));
                    if (p as int) < y - 1 {
                        assert(curv_lt(old_r[p as int], old_r[y - 1]));
                    }
                    assert(curv_lt(e, old_r[p as int]));
                } else if x == p {
                    assert(r@[y] == old_r[y - 1]);
                    assert(curv_lt(e, old_r[p as int]));
                    if (p as int) < y - 1 {
                        assert(curv_lt(old_r[p as int], old_r[y - 1]));
                    }
                } else {
                    assert(r@[y] == old_r[y - 1]);
                    assert(r@[x] == old_r[x - 1]);
                }
            }
            let upto = v@.subrange(0, i + 1);
            let prev = v@.subrange(0, i as int);
            assert forall|f: ((usize, usize), i128)| r@.contains(f) <==> upto.contains(f) by {
                if r@.contains(f) {
                    let x = choose|x: int| 0 <= x < r@.len() && r@[x] == f;
                    if x < p {
                        assert(old_r[x] == f);
                    } else if x > p {
                        assert(old_r[x - 1] == f);
                    }
                    if f == e {
                        assert(upto[i as int] == f);
                    } else {
                        assert(old_r.contains(f));
                        let y = choose|y: int| 0 <= y < i && prev[y] == f;
                        assert(upto[y] == f);
                    }
                }
                if upto.contains(f) {
                    let y = choose|y: int| 0 <= y < i + 1 && upto[y] == f;
                    if y == i {
                        assert(r@[p as int] == f);
                    } else {
                        assert(prev[y] == f);
                        assert(old_r.contains(f));
                        let x = choose|x: int| 0 <= x < old_r.len() && old_r[x] == f;
                        if x < p {
                            assert(r@[x] == f);
                        } else {
                            assert(r@[x + 1] == f);
                        }
                    }
                }
            }
        }
        i = i + 1;
    }
    proof {
        assert(v@.subrange(0, n as int) =~= v@);
    }
    r
}

/// On an edge of a well-formed graph both endpoints have degree at least 1,
/// so the unweighted Forman-Ricci curvature of an edge is at most 2 (and in
/// particular within the range `(-inf, 4]`).
pub proof fn lemma_forman_edge_at_most_two(g: GraphView, a: usize, b: usize)
    requires
        g.wf(),
        g.adjacent(a, b),
    ensures
        forman_unweighted(g, a, b) <= 2,
{
    g.lemma_adjacent_listed(a, b);
}

/// Forman-Ricci curvature computer.
#[derive(Debug, Clone, Copy)]
pub struct FormanRicciCurvature {
    /// Whether to use the weighted version.
    pub weighted: bool,
}

impl Default for FormanRicciCurvature {
    fn default() -> (f: Self)
        ensures
            !f.weighted,
    {
        Self { weighted: false }
    }
}

impl FormanRicciCurvature {
    pub fn new(weighted: bool) -> (f: Self)
        ensures
            f.weighted == weighted,
    {
        Self { weighted }
    }

    /// Unweighted Forman-Ricci curvature for edge `(a, b)`: `4 - deg(a) - deg(b)`.
    pub fn edge_curvature(&self, graph: &AgentGraph, a: AgentId, b: AgentId) -> (k: i128)
        requires
            !self.weighted,
            graph.wf(),
        ensures
            k == forman_unweighted(graph@, a, b),
    {
        let deg_a = graph.degree(a);
        let deg_b = graph.degree(b);
        4 - (deg_a as i128) - (deg_b as i128)
    }

    /// Curvature of every edge, edges in increasing order.
    pub fn all_curvatures(&self, graph: &AgentGraph) -> (r: Vec<((AgentId, AgentId), i128)>)
        requires
            !self.weighted,
            graph.wf(),
        ensures
            strictly_sorted_keys(keys_of(r@)),
            forall|k: (usize, usize)|
                #![trigger graph@.weights.dom().contains(k)]
                #![trigger keys_of(r@).contains(k)]
                graph@.weights.dom().contains(k) <==> keys_of(r@).contains(k),
            forall|i: int| 0 <= i < r@.len() ==> (#[trigger] r@[i]).1 == forman_unweighted(graph@, r@[i].0.0, r@[i].0.1),
            r@.len() == graph@.weights.dom().len(),
    {
        let es = graph.edges();
        let mut r: Vec<((usize, usize), i128)> = Vec::new();
        let n = es.len();
        let mut i: usize = 0;
        while i < n
            invariant
                n == es@.len(),
                i <= n,
                !self.weighted,
                graph.wf(),
                r@.len() == i,
                forall|j: int| 0 <= j < i ==> (#[trigger] r@[j]).0 == es@[j],
                forall|j: int| 0 <= j < i ==> (#[trigger] r@[j]).1 == forman_unweighted(graph@, r@[j].0.0, r@[j].0.1),
            decreases n - i,
        {
            let (a, b) = es[i];
            let k = self.edge_curvature(graph, a, b);
            r.push(((a, b), k));
            i = i + 1;
        }
        proof {
            assert(keys_of(r@) =~= es@);
        }
        r
    }

    /// Minimum curvature over all edges; `None` when there is no edge.
    pub fn min_curvature(&self, graph: &AgentGraph) -> (r: Option<i128>)
        requires
            !self.weighted,
            graph.wf(),
        ensures
            match r {
                None => graph@.weights.dom().len() == 0,
                Some(m) => {
                    &&& exists|k: (usize, usize)| #[trigger] graph@.weights.dom().contains(k) && forman_unweighted(graph@, k.0, k.1) == m
                    &&& forall|k: (usize, usize)| #[trigger] graph@.weights.dom().contains(k) ==> m <= forman_unweighted(graph@, k.0, k.1)
                },
            },
    {
        self.extreme_curvature(graph, true)
    }

    /// Maximum curvature over all edges; `None` when there is no edge.
    pub fn max_curvature(&self, graph: &AgentGraph) -> (r: Option<i128>)
        requires
            !self.weighted,
            graph.wf(),
        ensures
            match r {
                None => graph@.weights.dom().len() == 0,
                Some(m) => {
                    &&& exists|k: (usize, usize)| #[trigger] graph@.weights.dom().contains(k) && forman_unweighted(graph@, k.0, k.1) == m
                    &&& forall|k: (usize, usize)| #[trigger] graph@.weights.dom().contains(k) ==> forman_unweighted(graph@, k.0, k.1) <= m
                },
            },
    {
        self.extreme_curvature(graph, false)
    }

    fn extreme_curvature(&self, graph: &AgentGraph, smallest: bool) -> (r: Option<i128>)
        requires
            !self.weighted,
            graph.wf(),
        ensures
            match r {
                None => graph@.weights.dom().len() == 0,
                Some(m) => {
                    &&& exists|k: (usize, usize)| #[trigger] graph@.weights.dom().contains(k) && forman_unweighted(graph@, k.0, k.1) == m
                    &&& forall|k: (usize, usize)| #[trigger] graph@.weights.dom().contains(k) ==> (if smallest {
                        m <= forman_unweighted(graph@, k.0, k.1)
                    } else {
                        forman_unweighted(graph@, k.0, k.1) <= m
                    })
                },
            },
    {
        let all = self.all_curvatures(graph);
        let n = all.len();
        if n == 0 {
            return None;
        }
        let mut best = all[0].1;
        let mut i: usize = 1;
        proof {
            assert(keys_of(all@)[0] == all@[0].0);
        }
        while i < n
            invariant
                n == all@.len(),
                1 <= i <= n,
                exists|j: int| 0 <= j < i && (#[trigger] all@[j]).1 == best,
                forall|j: int| 0 <= j < i ==> (if smallest {
                    best <= (#[trigger] all@[j]).1
                } else {
                    all@[j].1 <= best
                }),
            decreases n - i,
        {
            let k = all[i].1;
            if (smallest && k < best) || (!smallest && k > best) {
                best = k;
            }
            i = i + 1;
        }
        proof {
            let j = choose|j: int| 0 <= j < n && (#[trigger] all@[j]).1 == best;
            assert(keys_of(all@)[j] == all@[j].0);
            assert(keys_of(all@).contains(all@[j].0));
            assert(graph@.weights.dom().contains(all@[j].0));
            assert forall|k: (usize, usize)| #[trigger] graph@.weights.dom().contains(k) implies (if smallest {
                best <= forman_unweighted(graph@, k.0, k.1)
            } else {
                forman_unweighted(graph@, k.0, k.1) <= best
            }) by {
                assert(keys_of(all@).contains(k));
                let x = choose|x: int| 0 <= x < keys_of(all@).len() && keys_of(all@)[x] == k;
                assert(all@[x].0 == k);
            }
        }
        Some(best)
    }

    /// Edges sorted by curvature, most negative first (ties in edge order).
    pub fn edges_by_curvature(&self, graph: &AgentGraph) -> (r: Vec<((AgentId, AgentId), i128)>)
        requires
            !self.weighted,
            graph.wf(),
        ensures
            r@.len() == graph@.weights.dom().len(),
            forall|i: int, j: int| 0 <= i < j < r@.len() ==> curv_lt(#[trigger] r@[i], #[trigger] r@[j]),
            forall|i: int| 0 <= i < r@.len() ==> graph@.weights.dom().contains((#[trigger] r@[i]).0),
            forall|i: int| 0 <= i < r@.len() ==> (#[trigger] r@[i]).1 == forman_unweighted(graph@, r@[i].0.0, r@[i].0.1),
            forall|k: (usize, usize)| graph@.weights.dom().contains(k) ==> keys_of(r@).contains(k),
    {
        let all = self.all_curvatures(graph);
        let r = sort_by_curvature(all);
        proof {
            assert forall|i: int| 0 <= i < r@.len() implies graph@.weights.dom().contains((#[trigger] r@[i]).0)
                && r@[i].1 == forman_unweighted(graph@, r@[i].0.0, r@[i].0.1) by {
                assert(r@.contains(r@[i]));
                let x = choose|x: int| 0 <= x < all@.len() && all@[x] == r@[i];
                assert(keys_of(all@)[x] == all@[x].0);
                assert(keys_of(all@).contains(all@[x].0));
            }
            assert forall|k: (usize, usize)| graph@.weights.dom().contains(k) implies keys_of(r@).contains(k) by {
                assert(keys_of(all@).contains(k));
                let x = choose|x: int| 0 <= x < keys_of(all@).len() && keys_of(all@)[x] == k;
                assert(all@.contains(all@[x]));
                let y = choose|y: int| 0 <= y < r@.len() && r@[y] == all@[x];
                assert(keys_of(r@)[y] == k);
            }
        }
        r
    }
}

} // verus!
