//! Curvature flow: topology changes that raise curvature around bottleneck
//! edges. Which edges are bottlenecks depends on the floating-point
//! curvatures; this module holds the graph changes made once they are known.
use vstd::prelude::*;
use crate::graph::{AgentGraph, AgentId, GraphView, UNIT_WEIGHT, edge_key, ids, key_lt, reweight};

verus! {

/// Strategy for topology evolution.
#[derive(Debug, Clone, Copy, PartialEq, Eq)]
pub enum FlowStrategy {
    /// Add edges between agents that share neighbors (triangle closing).
    TriangleClosing,
    /// Rewire: remove worst-curvature edge, add to improve curvature.
    Rewire,
    /// Add edges to the most negative curvature neighborhoods.
    NeighborhoodFilling,
}

/// Triangle closing around one edge: walking the neighbors `xs` of its
/// first endpoint, join each one that is not yet adjacent to `b` to `b`,
/// until `limit` edges have been added in total.
pub open spec fn close_row(
    g: GraphView,
    b: usize,
    xs: Seq<usize>,
    added: Seq<(usize, usize)>,
    limit: nat,
) -> (GraphView, Seq<(usize, usize)>)
    decreases xs.len(),
{
    if xs.len() == 0 {
        (g, added)
    } else {
        let (h, ad) = close_row(g, b, xs.drop_last(), added, limit);
        let x = xs.last();
        if ad.len() >= limit {
            (h, ad)
        } else if x != b && !h.adjacent(b, x) {
            (h.add_edge(b, x, UNIT_WEIGHT), ad.push(edge_key(b, x)))
        } else {
            (h, ad)
        }
    }
}

/// Triangle closing around each edge of `worst` in turn, at most three edges in all.
pub open spec fn close_all(g: GraphView, worst: Seq<(usize, usize)>) -> (GraphView, Seq<(usize, usize)>)
    decreases worst.len(),
{
    if worst.len() == 0 {
        (g, Seq::empty())
    } else {
        let (h, ad) = close_all(g, worst.drop_last());
        let e = worst.last();
        if ad.len() >= 3 {
            (h, ad)
        } else {
            close_row(h, e.1, ids(h.nbrs(e.0)), ad, 3)
        }
    }
}

/// Close triangles around the bottleneck edges `worst` (most negative
/// curvature first): for each edge `(a, b)`, join `b` to the neighbors of `a`
/// it is not adjacent to, until three edges have been added. Returns the
/// added edges.
pub fn close_triangles(graph: &mut AgentGraph, worst: &Vec<(AgentId, AgentId)>) -> (added: Vec<(AgentId, AgentId)>)
    requires
        old(graph).wf(),
        forall|i: int| 0 <= i < worst@.len() ==> (#[trigger] worst@[i]).1 < old(graph)@.n,
    ensures
        final(graph).wf(),
        final(graph)@ == close_all(old(graph)@, worst@).0,
        added@ == close_all(old(graph)@, worst@).1,
        added@.len() <= 3,
{
    let ghost g0 = graph@;
    let mut added: Vec<(usize, usize)> = Vec::new();
    let mut i: usize = 0;
    proof {
        assert(worst@.take(0) =~= Seq::<(usize, usize)>::empty());
    }
    while i < worst.len()
        invariant
            graph.wf(),
            graph@.n == g0.n,
            i <= worst@.len(),
            forall|i: int| 0 <= i < worst@.len() ==> (#[trigger] worst@[i]).1 < g0.n,
            graph@ == close_all(g0, worst@.take(i as int)).0,
            added@ == close_all(g0, worst@.take(i as int)).1,
            added@.len() <= 3,
        decreases worst@.len() - i,
    {
        let (a, b) = worst[i];
        proof {
            assert(worst@.take(i + 1).drop_last() =~= worst@.take(i as int));
            assert(worst@.take(i + 1).last() == worst@[i as int]);
        }
        if added.len() >= 3 {
            i = i + 1;
            continue;
        }
        let ghost h = graph@;
        let ghost ad0 = added@;
        proof {
            graph.lemma_wf();
        }
        let xs = graph.neighbor_ids(a);
        proof {
            h.lemma_wf_ids(a);
            assert(xs@.take(0) =~= Seq::<usize>::empty());
        }
        let mut j: usize = 0;
        while j < xs.len()
            invariant
                graph.wf(),
                graph@.n == g0.n,
                h.wf(),
                b < h.n,
                h.n == g0.n,
                xs@ == ids(h.nbrs(a)),
                forall|k: int| 0 <= k < xs@.len() ==> #[trigger] xs@[k] < g0.n,
                j <= xs@.len(),
                graph@ == close_row(h, b, xs@.take(j as int), ad0, 3).0,
                added@ == close_row(h, b, xs@.take(j as int), ad0, 3).1,
                added@.len() <= 3,
            decreases xs@.len() - j,
        {
            let na = xs[j];
            proof {
                assert(xs@.take(j + 1).drop_last() =~= xs@.take(j as int));
                assert(xs@.take(j + 1).last() == na);
            }
            if added.len() < 3 && na != b && !graph.has_edge(b, na) {
                graph.add_edge(b, na, UNIT_WEIGHT);
                let k = if b < na {
                    (b, na)
                } else {
                    (na, b)
                };
                added.push(k);
            }
            j = j + 1;
        }
        proof {
            assert(xs@.take(xs@.len() as int) =~= xs@);
        }
        i = i + 1;
    }
    proof {
        assert(worst@.take(worst@.len() as int) =~= worst@);
    }
    added
}

/// `c` can take the place of `b` as `a`'s partner in a rewiring: an agent
/// other than `a` and `b` that is not listed as a neighbor of `a`.
pub open spec fn is_rewire_candidate(g: GraphView, a: usize, b: usize, c: usize) -> bool {
    &&& c < g.n
    &&& c != a
    &&& c != b
    &&& !ids(g.nbrs(a)).contains(c)
}

/// The agents that can replace `b` as `a`'s partner in a rewiring of the
/// edge `(a, b)`, in increasing order. Which of them improves curvature most
/// is a floating-point question left to the caller.
pub fn rewire_candidates(graph: &AgentGraph, a: AgentId, b: AgentId) -> (cs: Vec<AgentId>)
    requires
        graph.wf(),
    ensures
        forall|i: int, j: int| 0 <= i < j < cs@.len() ==> cs@[i] < cs@[j],
        forall|c: usize| #[trigger] cs@.contains(c) <==> is_rewire_candidate(graph@, a, b, c),
{
    let ghost g = graph@;
    let mut cs: Vec<usize> = Vec::new();
    let n = graph.num_agents();
    let nba = graph.neighbors(a);
    let mut c: usize = 0;
    while c < n
        invariant
            g == graph@,
            n == g.n,
            nba@ == g.nbrs(a),
            c <= n,
            forall|i: int, j: int| 0 <= i < j < cs@.len() ==> cs@[i] < cs@[j],
            forall|i: int| 0 <= i < cs@.len() ==> cs@[i] < c,
            forall|x: usize| #[trigger] cs@.contains(x) <==> (x < c && is_rewire_candidate(g, a, b, x)),
        decreases n - c,
    {
        let ghost old_cs = cs@;
        if c != a && c != b && !contains_id(nba, c) {
            cs.push(c);
            proof {
                assert forall|x: usize| #[trigger] cs@.contains(x) <==> (x < c + 1 && is_rewire_candidate(g, a, b, x)) by {
                    if x == c {
                        assert(cs@[cs@.len() - 1] == c);
                    } else if cs@.contains(x) {
                        let i = choose|i: int| 0 <= i < cs@.len() && cs@[i] == x;
                        assert(old_cs[i] == x);
                        assert(old_cs.contains(x));
                    } else if old_cs.contains(x) {
                        let i = choose|i: int| 0 <= i < old_cs.len() && old_cs[i] == x;
                        assert(cs@[i] == x);
                    }
                }
            }
        } else {
            proof {
                assert forall|x: usize| #[trigger] cs@.contains(x) <==> (x < c + 1 && is_rewire_candidate(g, a, b, x)) by {
                    if x == c && cs@.contains(x) {
                        let i = choose|i: int| 0 <= i < cs@.len() && cs@[i] == x;
                        assert(cs@[i] < c);
                    }
                }
            }
        }
        c = c + 1;
    }
    cs
}

/// Rewire the worst edge `(a, b)` towards `c`: if `c` is a rewiring
/// candidate and `b` has more than one neighbor, remove the edge `(a, b)` and
/// add the edge `(a, c)` with the unit weight; otherwise leave the graph as it
/// is. Returns `(added, removed)`.
pub fn rewire(graph: &mut AgentGraph, a: AgentId, b: AgentId, c: AgentId) -> (r: (Vec<(AgentId, AgentId)>, Vec<(AgentId, AgentId)>))
    requires
        old(graph).wf(),
        a < old(graph)@.n,
    ensures
        final(graph).wf(),
        if is_rewire_candidate(old(graph)@, a, b, c) && old(graph)@.nbrs(b).len() > 1 {
            &&& r.0@ == seq![edge_key(a, c)]
            &&& r.1@ == seq![edge_key(a, b)]
            &&& final(graph)@ == old(graph)@.remove_edge(a, b).add_edge(a, c, UNIT_WEIGHT)
            &&& final(graph)@.weights.dom() == old(graph)@.weights.dom().remove(edge_key(a, b)).insert(edge_key(a, c))
        } else {
            r.0@.len() == 0 && r.1@.len() == 0 && final(graph)@ == old(graph)@
        },
{
    let ghost g = graph@;
    let mut added: Vec<(usize, usize)> = Vec::new();
    let mut removed: Vec<(usize, usize)> = Vec::new();
    let n = graph.num_agents();
    let ok = c < n && c != a && c != b && !contains_id(graph.neighbors(a), c) && graph.degree(b) > 1;
    if !ok {
        return (added, removed);
    }
    graph.remove_edge(a, b);
    graph.add_edge(a, c, UNIT_WEIGHT);
    let ka = if a < b {
        (a, b)
    } else {
        (b, a)
    };
    let kc = if a < c {
        (a, c)
    } else {
        (c, a)
    };
    removed.push(ka);
    added.push(kc);
    proof {
        assert(added@ =~= seq![edge_key(a, c)]);
        assert(removed@ =~= seq![edge_key(a, b)]);
        let h = g.remove_edge(a, b);
        assert(h.weights.dom() =~= g.weights.dom().remove(edge_key(a, b)));
        assert(graph@.weights.dom() =~= g.weights.dom().remove(edge_key(a, b)).insert(edge_key(a, c)));
    }
    (added, removed)
}

/// Whether an adjacency list mentions agent `x`.
pub fn contains_id(s: &[(usize, u64)], x: usize) -> (r: bool)
    ensures
        r == ids(s@).contains(x),
{
    let mut i: usize = 0;
    while i < s.len()
        invariant
            i <= s@.len(),
            forall|k: int| 0 <= k < i ==> (#[trigger] s@[k]).0 != x,
        decreases s@.len() - i,
    {
        if s[i].0 == x {
            proof {
                assert(ids(s@)[i as int] == x);
            }
            return true;
        }
        i = i + 1;
    }
    proof {
        if ids(s@).contains(x) {
            let k = choose|k: int| 0 <= k < s@.len() && ids(s@)[k] == x;
            assert(s@[k].0 == x);
        }
    }
    false
}

/// Neighborhood filling around one neighbor `x` of the first endpoint: join
/// `x` to each vertex of `ys` it differs from and is not adjacent to, until
/// `limit` edges have been added in total.
pub open spec fn fill_row(
    g: GraphView,
    x: usize,
    ys: Seq<usize>,
    added: Seq<(usize, usize)>,
    limit: nat,
) -> (GraphView, Seq<(usize, usize)>)
    decreases ys.len(),
{
    if ys.len() == 0 {
        (g, added)
    } else {
        let (h, ad) = fill_row(g, x, ys.drop_last(), added, limit);
        let y = ys.last();
        if ad.len() >= limit {
            (h, ad)
        } else if x != y && !h.adjacent(x, y) {
            (h.add_edge(x, y, UNIT_WEIGHT), ad.push(edge_key(x, y)))
        } else {
            (h, ad)
        }
    }
}

/// Neighborhood filling: join each vertex of `xs` to each vertex of `ys`,
/// row by row, until `limit` edges have been added in total.
pub open spec fn fill_cross(
    g: GraphView,
    xs: Seq<usize>,
    ys: Seq<usize>,
    added: Seq<(usize, usize)>,
    limit: nat,
) -> (GraphView, Seq<(usize, usize)>)
    decreases xs.len(),
{
    if xs.len() == 0 {
        (g, added)
    } else {
        let (h, ad) = fill_cross(g, xs.drop_last(), ys, added, limit);
        fill_row(h, xs.last(), ys, ad, limit)
    }
}

/// Neighborhood filling around each edge `(a, b)` of `worst` in turn, with
/// the neighbors of `a` and `b` as they are when that edge's turn comes, at
/// most five edges in all.
pub open spec fn fill_all(g: GraphView, worst: Seq<(usize, usize)>) -> (GraphView, Seq<(usize, usize)>)
    decreases worst.len(),
{
    if worst.len() == 0 {
        (g, Seq::empty())
    } else {
        let (h, ad) = fill_all(g, worst.drop_last());
        let e = worst.last();
        fill_cross(h, ids(h.nbrs(e.0)), ids(h.nbrs(e.1)), ad, 5)
    }
}

/// Fill the neighborhood of the worst edge `(a, b)`: connect the neighbors of
/// `a` to the neighbors of `b` (as they were before the call), stopping after
/// five added edges. Returns the added edges.
pub fn fill_neighborhood(graph: &mut AgentGraph, a: AgentId, b: AgentId) -> (added: Vec<(AgentId, AgentId)>)
    requires
        old(graph).wf(),
    ensures
        final(graph).wf(),
        final(graph)@ == fill_cross(old(graph)@, ids(old(graph)@.nbrs(a)), ids(old(graph)@.nbrs(b)), Seq::empty(), 5).0,
        added@ == fill_cross(old(graph)@, ids(old(graph)@.nbrs(a)), ids(old(graph)@.nbrs(b)), Seq::empty(), 5).1,
        added@.len() <= 5,
{
    let mut added: Vec<(usize, usize)> = Vec::new();
    fill_pairs(graph, a, b, &mut added);
    added
}

/// Fill the neighborhoods of the bottleneck edges `worst` (most negative
/// curvature first): for each edge `(a, b)` in turn, connect the neighbors of
/// `a` to the neighbors of `b`, until five edges have been added in all.
/// Returns the added edges.
pub fn fill_neighborhoods(graph: &mut AgentGraph, worst: &Vec<(AgentId, AgentId)>) -> (added: Vec<(AgentId, AgentId)>)
    requires
        old(graph).wf(),
    ensures
        final(graph).wf(),
        final(graph)@ == fill_all(old(graph)@, worst@).0,
        added@ == fill_all(old(graph)@, worst@).1,
        added@.len() <= 5,
{
    let ghost g0 = graph@;
    let mut added: Vec<(usize, usize)> = Vec::new();
    let mut i: usize = 0;
    proof {
        assert(worst@.take(0) =~= Seq::<(usize, usize)>::empty());
    }
    while i < worst.len()
        invariant
            graph.wf(),
            i <= worst@.len(),
            graph@ == fill_all(g0, worst@.take(i as int)).0,
            added@ == fill_all(g0, worst@.take(i as int)).1,
            added@.len() <= 5,
        decreases worst@.len() - i,
    {
        let (a, b) = worst[i];
        proof {
            assert(worst@.take(i + 1).drop_last() =~= worst@.take(i as int));
            assert(worst@.take(i + 1).last() == worst@[i as int]);
        }
        fill_pairs(graph, a, b, &mut added);
        i = i + 1;
    }
    proof {
        assert(worst@.take(worst@.len() as int) =~= worst@);
    }
    added
}

/// Connect the neighbors of `a` to the neighbors of `b` (as they were before
/// the call), appending each added edge to `added`, until it holds five.
fn fill_pairs(graph: &mut AgentGraph, a: AgentId, b: AgentId, added: &mut Vec<(AgentId, AgentId)>)
    requires
        old(graph).wf(),
        old(added)@.len() <= 5,
    ensures
        final(graph).wf(),
        final(graph)@ == fill_cross(old(graph)@, ids(old(graph)@.nbrs(a)), ids(old(graph)@.nbrs(b)), old(added)@, 5).0,
        final(added)@ == fill_cross(old(graph)@, ids(old(graph)@.nbrs(a)), ids(old(graph)@.nbrs(b)), old(added)@, 5).1,
        final(added)@.len() <= 5,
{
    let ghost g0 = graph@;
    let ghost a0 = added@;
    let xs = graph.neighbor_ids(a);
    let ys = graph.neighbor_ids(b);
    proof {
        graph.lemma_wf();
        g0.lemma_wf_ids(a);
        g0.lemma_wf_ids(b);
    }
    let mut i: usize = 0;
    proof {
        assert(xs@.take(0) =~= Seq::<usize>::empty());
    }
    while i < xs.len()
        invariant
            graph.wf(),
            graph@.n == g0.n,
            xs@ == ids(g0.nbrs(a)),
            ys@ == ids(g0.nbrs(b)),
            forall|k: int| 0 <= k < xs@.len() ==> #[trigger] xs@[k] < g0.n,
            forall|k: int| 0 <= k < ys@.len() ==> #[trigger] ys@[k] < g0.n,
            i <= xs@.len(),
            graph@ == fill_cross(g0, xs@.take(i as int), ys@, a0, 5).0,
            added@ == fill_cross(g0, xs@.take(i as int), ys@, a0, 5).1,
            added@.len() <= 5,
        decreases xs@.len() - i,
    {
        let na = xs[i];
        let ghost h = graph@;
        let ghost ad0 = added@;
        proof {
            assert(xs@.take(i + 1).drop_last() =~= xs@.take(i as int));
            assert(xs@.take(i + 1).last() == na);
            assert(ys@.take(0) =~= Seq::<usize>::empty());
        }
        let mut j: usize = 0;
        while j < ys.len()
            invariant
                graph.wf(),
                graph@.n == g0.n,
                ys@ == ids(g0.nbrs(b)),
                forall|k: int| 0 <= k < ys@.len() ==> #[trigger] ys@[k] < g0.n,
                na < g0.n,
                j <= ys@.len(),
                graph@ == fill_row(h, na, ys@.take(j as int), ad0, 5).0,
                added@ == fill_row(h, na, ys@.take(j as int), ad0, 5).1,
                added@.len() <= 5,
            decreases ys@.len() - j,
        {
            let nb = ys[j];
            proof {
                assert(ys@.take(j + 1).drop_last() =~= ys@.take(j as int));
                assert(ys@.take(j + 1).last() == nb);
            }
            if added.len() < 5 && na != nb && !graph.has_edge(na, nb) {
                graph.add_edge(na, nb, UNIT_WEIGHT);
                let k = if na < nb {
                    (na, nb)
                } else {
                    (nb, na)
                };
                added.push(k);
            }
            j = j + 1;
        }
        proof {
            assert(ys@.take(ys@.len() as int) =~= ys@);
        }
        i = i + 1;
    }
    proof {
        assert(xs@.take(xs@.len() as int) =~= xs@);
    }
}

/// The set of neighbors of `a`.
pub open spec fn nbr_set(g: GraphView, a: usize) -> Set<usize> {
    ids(g.nbrs(a)).to_set()
}

/// The neighbors of `a`, each once.
fn distinct_neighbors(graph: &AgentGraph, a: AgentId) -> (d: Vec<AgentId>)
    requires
        graph.wf(),
    ensures
        d@.no_duplicates(),
        d@.to_set() == nbr_set(graph@, a),
        d@.len() == nbr_set(graph@, a).len(),
{
    let xs = graph.neighbor_ids(a);
    let mut d: Vec<usize> = Vec::new();
    let mut i: usize = 0;
    while i < xs.len()
        invariant
            i <= xs@.len(),
            d@.no_duplicates(),
            forall|x: usize| d@.contains(x) <==> xs@.subrange(0, i as int).contains(x),
        decreases xs@.len() - i,
    {
        let x = xs[i];
        let ghost old_d = d@;
        let ghost pre = xs@.subrange(0, i as int);
        let ghost post = xs@.subrange(0, i + 1);
        proof {
            assert(post =~= pre.push(x));
        }
        if !contains_usize(&d, x) {
            d.push(x);
            proof {
                assert forall|p: int, q: int| 0 <= p < d@.len() && 0 <= q < d@.len() && p != q implies d@[p] != d@[q] by {
                    if p < old_d.len() && q < old_d.len() {
                        assert(old_d[p] == d@[p] && old_d[q] == d@[q]);
                    } else if p < old_d.len() {
                        assert(old_d.contains(d@[p]));
                    } else {
                        assert(old_d.contains(d@[q]));
                    }
                }
            }
        }
        proof {
            assert forall|y: usize| d@.contains(y) <==> post.contains(y) by {
                if d@.contains(y) && y != x {
                    let p = choose|p: int| 0 <= p < d@.len() && d@[p] == y;
                    assert(old_d[p] == y);
                    assert(old_d.contains(y));
                    assert(pre.contains(y));
                    let q = choose|q: int| 0 <= q < pre.len() && pre[q] == y;
                    assert(post[q] == y);
                }
                if d@.contains(y) && y == x {
                    assert(post[i as int] == y);
                }
                if post.contains(y) {
                    let q = choose|q: int| 0 <= q < post.len() && post[q] == y;
                    if q < i {
                        assert(pre[q] == y);
                        assert(old_d.contains(y));
                        let p = choose|p: int| 0 <= p < old_d.len() && old_d[p] == y;
                        assert(d@[p] == y);
                    } else {
                        if old_d.contains(y) {
                            let p = choose|p: int| 0 <= p < old_d.len() && old_d[p] == y;
                            assert(d@[p] == y);
                        } else {
                            assert(d@[d@.len() - 1] == y);
                        }
                    }
                }
            }
        }
        i = i + 1;
    }
    proof {
        assert(xs@.subrange(0, xs@.len() as int) =~= xs@);
        assert(d@.to_set() =~= nbr_set(graph@, a));
        d@.unique_seq_to_set();
    }
    d
}

/// Whether `v` contains `x`.
pub fn contains_usize(v: &Vec<usize>, x: usize) -> (r: bool)
    ensures
        r == v@.contains(x),
{
    let mut i: usize = 0;
    while i < v.len()
        invariant
            i <= v@.len(),
            forall|k: int| 0 <= k < i ==> v@[k] != x,
        decreases v@.len() - i,
    {
        if v[i] == x {
            return true;
        }
        i = i + 1;
    }
    false
}

/// Number of neighbors that `a` and `b` share.
pub fn common_neighbors(graph: &AgentGraph, a: AgentId, b: AgentId) -> (c: usize)
    requires
        graph.wf(),
    ensures
        c == nbr_set(graph@, a).intersect(nbr_set(graph@, b)).len(),
{
    let da = distinct_neighbors(graph, a);
    let db = distinct_neighbors(graph, b);
    let mut inter: Vec<usize> = Vec::new();
    let mut i: usize = 0;
    while i < da.len()
        invariant
            i <= da@.len(),
            da@.no_duplicates(),
            inter@.no_duplicates(),
            forall|x: usize| inter@.contains(x) <==> (da@.subrange(0, i as int).contains(x) && db@.contains(x)),
        decreases da@.len() - i,
    {
        let x = da[i];
        let ghost old_i = inter@;
        let ghost pre = da@.subrange(0, i as int);
        let ghost post = da@.subrange(0, i + 1);
        proof {
            assert(post =~= pre.push(x));
            if pre.contains(x) {
                let q = choose|q: int| 0 <= q < pre.len() && pre[q] == x;
                assert(da@[q] == da@[i as int]);
            }
        }
        if contains_usize(&db, x) {
            inter.push(x);
            proof {
                assert forall|p: int, q: int| 0 <= p < inter@.len() && 0 <= q < inter@.len() && p != q implies inter@[p] != inter@[q] by {
                    if p < old_i.len() && q < old_i.len() {
                        assert(old_i[p] == inter@[p] && old_i[q] == inter@[q]);
                    } else if p < old_i.len() {
                        assert(old_i.contains(inter@[p]));
                    } else {
                        assert(old_i.contains(inter@[q]));
                    }
                }
            }
        }
        proof {
            assert forall|y: usize| inter@.contains(y) <==> (post.contains(y) && db@.contains(y)) by {
                if inter@.contains(y) {
                    let p = choose|p: int| 0 <= p < inter@.len() && inter@[p] == y;
                    if p < old_i.len() {
                        assert(old_i[p] == y);
                        assert(old_i.contains(y));
                        assert(pre.contains(y));
                        let q = choose|q: int| 0 <= q < pre.len() && pre[q] == y;
                        assert(post[q] == y);
                    } else {
                        assert(post[i as int] == y);
                    }
                }
                if post.contains(y) && db@.contains(y) {
                    let q = choose|q: int| 0 <= q < post.len() && post[q] == y;
                    if q < i {
                        assert(pre[q] == y);
                        let p = choose|p: int| 0 <= p < old_i.len() && old_i[p] == y;
                        assert(inter@[p] == y);
                    } else {
                        assert(inter@[inter@.len() - 1] == y);
                    }
                }
            }
        }
        i = i + 1;
    }
    proof {
        assert(da@.subrange(0, da@.len() as int) =~= da@);
        assert(inter@.to_set() =~= nbr_set(graph@, a).intersect(nbr_set(graph@, b)));
        inter@.unique_seq_to_set();
    }
    inter.len()
}

/// Denominator of the curvature-gain estimate for joining `a` and `b`: the
/// larger of their neighbor counts, at least 1.
pub open spec fn gain_denominator(g: GraphView, a: usize, b: usize) -> nat {
    let da = if nbr_set(g, a).len() < 1 { 1 } else { nbr_set(g, a).len() };
    let db = if nbr_set(g, b).len() < 1 { 1 } else { nbr_set(g, b).len() };
    if da < db { db } else { da }
}

/// Candidate edge additions with their curvature-gain estimate as a
/// fraction: every pair `i < j` of agents that are not adjacent, in
/// increasing order, with the number of shared neighbors and the
/// `gain_denominator`.
pub fn gradient_candidates(graph: &AgentGraph) -> (r: Vec<((AgentId, AgentId), usize, usize)>)
    requires
        graph.wf(),
    ensures
        forall|x: int, y: int| 0 <= x < y < r@.len() ==> key_lt(#[trigger] r@[x].0, #[trigger] r@[y].0),
        forall|x: int| 0 <= x < r@.len() ==> {
            &&& (#[trigger] r@[x]).0.0 < r@[x].0.1 < graph@.n
            &&& !graph@.adjacent(r@[x].0.0, r@[x].0.1)
            &&& r@[x].1 == nbr_set(graph@, r@[x].0.0).intersect(nbr_set(graph@, r@[x].0.1)).len()
            &&& r@[x].2 == gain_denominator(graph@, r@[x].0.0, r@[x].0.1)
        },
        forall|i: usize, j: usize|
            i < j < graph@.n && !graph@.adjacent(i, j) ==> exists|x: int| 0 <= x < r@.len() && #[trigger] r@[x].0 == (i, j),
{
    let n = graph.num_agents();
    let mut r: Vec<((usize, usize), usize, usize)> = Vec::new();
    let mut i: usize = 0;
    while i < n
        invariant
            graph.wf(),
            n == graph@.n,
            i <= n,
            forall|x: int, y: int| 0 <= x < y < r@.len() ==> key_lt(#[trigger] r@[x].0, #[trigger] r@[y].0),
            forall|x: int| 0 <= x < r@.len() ==> {
                &&& (#[trigger] r@[x]).0.0 < r@[x].0.1 < graph@.n
                &&& r@[x].0.0 < i
                &&& !graph@.adjacent(r@[x].0.0, r@[x].0.1)
                &&& r@[x].1 == nbr_set(graph@, r@[x].0.0).intersect(nbr_set(graph@, r@[x].0.1)).len()
                &&& r@[x].2 == gain_denominator(graph@, r@[x].0.0, r@[x].0.1)
            },
            forall|i2: usize, j: usize|
                i2 < i && i2 < j < graph@.n && !graph@.adjacent(i2, j) ==> exists|x: int| 0 <= x < r@.len() && #[trigger] r@[x].0 == (i2, j),
        decreases n - i,
    {
        let mut j: usize = i + 1;
        while j < n
            invariant
                graph.wf(),
                n == graph@.n,
                i < n,
                i + 1 <= j <= n,
                forall|x: int, y: int| 0 <= x < y < r@.len() ==> key_lt(#[trigger] r@[x].0, #[trigger] r@[y].0),
                forall|x: int| 0 <= x < r@.len() ==> {
                    &&& (#[trigger] r@[x]).0.0 < r@[x].0.1 < graph@.n
                    &&& (r@[x].0.0 < i || (r@[x].0.0 == i && r@[x].0.1 < j))
                    &&& !graph@.adjacent(r@[x].0.0, r@[x].0.1)
                    &&& r@[x].1 == nbr_set(graph@, r@[x].0.0).intersect(nbr_set(graph@, r@[x].0.1)).len()
                    &&& r@[x].2 == gain_denominator(graph@, r@[x].0.0, r@[x].0.1)
                },
                forall|i2: usize, j2: usize|
                    ((i2 < i && i2 < j2) || (i2 == i && i < j2 < j)) && j2 < graph@.n && !graph@.adjacent(i2, j2) ==> exists|x: int|
                        0 <= x < r@.len() && #[trigger] r@[x].0 == (i2, j2),
            decreases n - j,
        {
            if !graph.has_edge(i, j) {
                let common = common_neighbors(graph, i, j);
                let di = distinct_neighbors(graph, i).len();
                let dj = distinct_neighbors(graph, j).len();
                let di1 = if di < 1 { 1 } else { di };
                let dj1 = if dj < 1 { 1 } else { dj };
                let denom = if di1 < dj1 { dj1 } else { di1 };
                let ghost old_r = r@;
                r.push(((i, j), common, denom));
                proof {
                    assert forall|x: int, y: int| 0 <= x < y < r@.len() implies key_lt(#[trigger] r@[x].0, #[trigger] r@[y].0) by {
                        if y < old_r.len() {
                            assert(old_r[x] == r@[x] && old_r[y] == r@[y]);
                        } else {
                            assert(old_r[x] == r@[x]);
                        }
                    }
                    assert forall|i2: usize, j2: usize|
                        ((i2 < i && i2 < j2) || (i2 == i && i < j2 < j + 1)) && j2 < graph@.n && !graph@.adjacent(i2, j2) implies exists|x: int|
                            0 <= x < r@.len() && #[trigger] r@[x].0 == (i2, j2) by {
                        if i2 == i && j2 == j {
                            assert(r@[r@.len() - 1].0 == (i2, j2));
                        } else {
                            let x = choose|x: int| 0 <= x < old_r.len() && #[trigger] old_r[x].0 == (i2, j2);
                            assert(r@[x] == old_r[x]);
                        }
                    }
                }
            }
            j = j + 1;
        }
        i = i + 1;
    }
    r
}

/// `r` extends `(g, added)`: the agents stay, every edge of `g` stays with
/// its weight, the reported list continues `added` with sorted pairs of edges
/// that were missing from `g` and are present in `r.0` with the unit weight,
/// and `r.0` has no other edges.
pub open spec fn extends(g: GraphView, added: Seq<(usize, usize)>, r: (GraphView, Seq<(usize, usize)>)) -> bool {
    &&& r.0.n == g.n
    &&& g.weights.dom().subset_of(r.0.weights.dom())
    &&& forall|k: (usize, usize)| #[trigger] g.weights.dom().contains(k) ==> r.0.weights[k] == g.weights[k]
    &&& added.len() <= r.1.len()
    &&& r.1.subrange(0, added.len() as int) == added
    &&& forall|i: int|
        added.len() <= i < r.1.len() ==> {
            &&& r.0.weights.dom().contains(#[trigger] r.1[i])
            &&& !g.weights.dom().contains(r.1[i])
            &&& r.1[i].0 < r.1[i].1
            &&& r.0.weights[r.1[i]] == UNIT_WEIGHT
        }
    &&& forall|k: (usize, usize)|
        #[trigger] r.0.weights.dom().contains(k) ==> g.weights.dom().contains(k) || exists|i: int|
            added.len() <= i < r.1.len() && #[trigger] r.1[i] == k
}

proof fn lemma_extends_trans(
    g: GraphView,
    added: Seq<(usize, usize)>,
    m: (GraphView, Seq<(usize, usize)>),
    r: (GraphView, Seq<(usize, usize)>),
)
    requires
        extends(g, added, m),
        extends(m.0, m.1, r),
    ensures
        extends(g, added, r),
{
    assert(r.1.subrange(0, added.len() as int) =~= m.1.subrange(0, added.len() as int));
    assert forall|i: int| added.len() <= i < r.1.len() implies {
        &&& r.0.weights.dom().contains(#[trigger] r.1[i])
        &&& !g.weights.dom().contains(r.1[i])
        &&& r.1[i].0 < r.1[i].1
        &&& r.0.weights[r.1[i]] == UNIT_WEIGHT
    } by {
        if i < m.1.len() {
            assert(r.1[i] == m.1[i]);
        }
    }
    assert forall|k: (usize, usize)| #[trigger] r.0.weights.dom().contains(k) implies g.weights.dom().contains(k) || exists|i: int|
        added.len() <= i < r.1.len() && #[trigger] r.1[i] == k by {
        if m.0.weights.dom().contains(k) {
            if !g.weights.dom().contains(k) {
                let i = choose|i: int| added.len() <= i < m.1.len() && #[trigger] m.1[i] == k;
                assert(r.1[i] == m.1[i]);
            }
        } else {
            let i = choose|i: int| m.1.len() <= i < r.1.len() && #[trigger] r.1[i] == k;
            assert(r.1[i] == k);
        }
    }
}

/// Adding the missing edge `(u, v)` extends the fold state by it.
proof fn lemma_extends_add(h: GraphView, ad: Seq<(usize, usize)>, u: usize, v: usize)
    requires
        u != v,
        !h.adjacent(u, v),
    ensures
        extends(h, ad, (h.add_edge(u, v, UNIT_WEIGHT), ad.push(edge_key(u, v)))),
{
    let r = (h.add_edge(u, v, UNIT_WEIGHT), ad.push(edge_key(u, v)));
    assert(r.1.subrange(0, ad.len() as int) =~= ad);
    h.lemma_add_edge_read(u, v, UNIT_WEIGHT);
    assert(r.1[ad.len() as int] == edge_key(u, v));
    assert forall|k: (usize, usize)| #[trigger] r.0.weights.dom().contains(k) implies h.weights.dom().contains(k) || exists|i: int|
        ad.len() <= i < r.1.len() && #[trigger] r.1[i] == k by {
        if k == edge_key(u, v) {
            assert(r.1[ad.len() as int] == k);
        }
    }
}

proof fn lemma_extends_refl(h: GraphView, ad: Seq<(usize, usize)>)
    ensures
        extends(h, ad, (h, ad)),
{
    assert(ad.subrange(0, ad.len() as int) =~= ad);
}

/// Triangle closing around one edge only adds missing edges, never more than the limit.
pub proof fn lemma_close_row_grows(g: GraphView, b: usize, xs: Seq<usize>, added: Seq<(usize, usize)>, limit: nat)
    ensures
        extends(g, added, close_row(g, b, xs, added, limit)),
        added.len() <= limit ==> close_row(g, b, xs, added, limit).1.len() <= limit,
    decreases xs.len(),
{
    if xs.len() == 0 {
        lemma_extends_refl(g, added);
    } else {
        lemma_close_row_grows(g, b, xs.drop_last(), added, limit);
        let m = close_row(g, b, xs.drop_last(), added, limit);
        let x = xs.last();
        if m.1.len() >= limit {
            lemma_extends_refl(m.0, m.1);
        } else if x != b && !m.0.adjacent(b, x) {
            lemma_extends_add(m.0, m.1, b, x);
        } else {
            lemma_extends_refl(m.0, m.1);
        }
        lemma_extends_trans(g, added, m, close_row(g, b, xs, added, limit));
    }
}

/// Triangle closing over all bottleneck edges only adds the edges it
/// reports: afterwards the edges are exactly the old edges, with their old
/// weights, and the reported ones; each reported pair is sorted, was missing
/// before and has the unit weight; at most three are reported.
pub proof fn lemma_close_all_grows(g: GraphView, worst: Seq<(usize, usize)>)
    ensures
        extends(g, Seq::empty(), close_all(g, worst)),
        close_all(g, worst).1.len() <= 3,
    decreases worst.len(),
{
    if worst.len() == 0 {
        lemma_extends_refl(g, Seq::empty());
    } else {
        lemma_close_all_grows(g, worst.drop_last());
        let m = close_all(g, worst.drop_last());
        let e = worst.last();
        if m.1.len() >= 3 {
            lemma_extends_refl(m.0, m.1);
        } else {
            lemma_close_row_grows(m.0, e.1, ids(m.0.nbrs(e.0)), m.1, 3);
        }
        lemma_extends_trans(g, Seq::empty(), m, close_all(g, worst));
    }
}

/// Neighborhood filling around one vertex only adds missing edges, never more than the limit.
pub proof fn lemma_fill_row_grows(g: GraphView, x: usize, ys: Seq<usize>, added: Seq<(usize, usize)>, limit: nat)
    ensures
        extends(g, added, fill_row(g, x, ys, added, limit)),
        added.len() <= limit ==> fill_row(g, x, ys, added, limit).1.len() <= limit,
    decreases ys.len(),
{
    if ys.len() == 0 {
        lemma_extends_refl(g, added);
    } else {
        lemma_fill_row_grows(g, x, ys.drop_last(), added, limit);
        let m = fill_row(g, x, ys.drop_last(), added, limit);
        let y = ys.last();
        if m.1.len() >= limit {
            lemma_extends_refl(m.0, m.1);
        } else if x != y && !m.0.adjacent(x, y) {
            lemma_extends_add(m.0, m.1, x, y);
        } else {
            lemma_extends_refl(m.0, m.1);
        }
        lemma_extends_trans(g, added, m, fill_row(g, x, ys, added, limit));
    }
}

/// Neighborhood filling only adds the edges it reports: afterwards the edges
/// are exactly the old edges, with their old weights, and the newly reported
/// ones; each newly reported pair is sorted, was missing before and has the
/// unit weight; at most `limit` are reported in all.
pub proof fn lemma_fill_cross_grows(g: GraphView, xs: Seq<usize>, ys: Seq<usize>, added: Seq<(usize, usize)>, limit: nat)
    ensures
        extends(g, added, fill_cross(g, xs, ys, added, limit)),
        added.len() <= limit ==> fill_cross(g, xs, ys, added, limit).1.len() <= limit,
    decreases xs.len(),
{
    if xs.len() == 0 {
        lemma_extends_refl(g, added);
    } else {
        lemma_fill_cross_grows(g, xs.drop_last(), ys, added, limit);
        let m = fill_cross(g, xs.drop_last(), ys, added, limit);
        lemma_fill_row_grows(m.0, xs.last(), ys, m.1, limit);
        lemma_extends_trans(g, added, m, fill_cross(g, xs, ys, added, limit));
    }
}

/// Filling the neighborhoods of all bottleneck edges only adds the edges it
/// reports: afterwards the edges are exactly the old edges, with their old
/// weights, and the reported ones; each reported pair is sorted, was missing
/// before and has the unit weight; at most five are reported.
pub proof fn lemma_fill_all_grows(g: GraphView, worst: Seq<(usize, usize)>)
    ensures
        extends(g, Seq::empty(), fill_all(g, worst)),
        fill_all(g, worst).1.len() <= 5,
    decreases worst.len(),
{
    if worst.len() == 0 {
        lemma_extends_refl(g, Seq::empty());
    } else {
        lemma_fill_all_grows(g, worst.drop_last());
        let m = fill_all(g, worst.drop_last());
        let e = worst.last();
        lemma_fill_cross_grows(m.0, ids(m.0.nbrs(e.0)), ids(m.0.nbrs(e.1)), m.1, 5);
        lemma_extends_trans(g, Seq::empty(), m, fill_all(g, worst));
    }
}

/// `h` keeps the adjacency lists of `g`: the same agents, and each list of
/// `g` is a prefix of the matching list of `h` as far as the neighbors go.
pub open spec fn keeps_lists(g: GraphView, h: GraphView) -> bool {
    &&& h.n == g.n
    &&& h.adj.len() == g.adj.len()
    &&& forall|a: int| 0 <= a < g.adj.len() ==> g.adj[a].len() <= (#[trigger] h.adj[a]).len()
    &&& forall|a: int, i: int|
        #![trigger h.adj[a][i]]
        #![trigger g.adj[a][i]]
        0 <= a < g.adj.len() && 0 <= i < g.adj[a].len() ==> h.adj[a][i].0 == g.adj[a][i].0
}

/// The adjacency lists of `g` are one per agent and name agents only.
pub open spec fn lists_in_range(g: GraphView) -> bool {
    &&& g.adj.len() == g.n
    &&& forall|a: int, i: int| 0 <= a < g.n && 0 <= i < g.adj[a].len() ==> (#[trigger] g.adj[a][i]).0 < g.n
}

proof fn lemma_keeps_lists_refl(g: GraphView)
    ensures
        keeps_lists(g, g),
{
}

proof fn lemma_keeps_lists_trans(g: GraphView, h: GraphView, k: GraphView)
    requires
        keeps_lists(g, h),
        keeps_lists(h, k),
    ensures
        keeps_lists(g, k),
{
    assert forall|a: int, i: int| 0 <= a < g.adj.len() && 0 <= i < g.adj[a].len() implies #[trigger] k.adj[a][i].0 == g.adj[a][i].0 by {
        assert(g.adj[a].len() <= h.adj[a].len());
        assert(h.adj[a][i].0 == g.adj[a][i].0);
    }
    assert forall|a: int| 0 <= a < g.adj.len() implies g.adj[a].len() <= (#[trigger] k.adj[a]).len() by {
        assert(g.adj[a].len() <= h.adj[a].len());
        assert(h.adj[a].len() <= k.adj[a].len());
    }
}

/// The neighbors that an agent lists are agents.
proof fn lemma_ids_in_range(g: GraphView, a: usize)
    requires
        lists_in_range(g),
    ensures
        forall|j: int| 0 <= j < ids(g.nbrs(a)).len() ==> #[trigger] ids(g.nbrs(a))[j] < g.n,
{
    assert forall|j: int| 0 <= j < ids(g.nbrs(a)).len() implies #[trigger] ids(g.nbrs(a))[j] < g.n by {
        assert(g.adj[a as int][j] == g.nbrs(a)[j]);
    }
}

/// Adding an edge between two agents keeps every adjacency list (it
/// appends or reweights) and names agents only.
proof fn lemma_add_edge_keeps_lists(g: GraphView, u: usize, v: usize, w: u64)
    requires
        lists_in_range(g),
        u < g.n,
        v < g.n,
    ensures
        keeps_lists(g, g.add_edge(u, v, w)),
        lists_in_range(g.add_edge(u, v, w)),
{
    let h = g.add_edge(u, v, w);
    if u != v {
        assert forall|a: int| 0 <= a < g.adj.len() implies g.adj[a].len() <= (#[trigger] h.adj[a]).len() && (forall|i: int|
            0 <= i < h.adj[a].len() ==> (#[trigger] h.adj[a][i]).0 < h.n && (i < g.adj[a].len() ==> h.adj[a][i].0 == g.adj[a][i].0)) by {
            if g.adjacent(u, v) {
                if a == u as int {
                    assert(h.adj[a] == reweight(g.adj[a], v, w));
                } else if a == v as int {
                    assert(h.adj[a] == reweight(g.adj[a], u, w));
                } else {
                    assert(h.adj[a] == g.adj[a]);
                }
            } else {
                if a == u as int {
                    assert(h.adj[a] == g.adj[a].push((v, w)));
                } else if a == v as int {
                    assert(h.adj[a] == g.adj[a].push((u, w)));
                } else {
                    assert(h.adj[a] == g.adj[a]);
                }
            }
            assert forall|i: int| 0 <= i < h.adj[a].len() implies (#[trigger] h.adj[a][i]).0 < h.n && (i < g.adj[a].len() ==> h.adj[a][i].0 == g.adj[a][i].0) by {
                if i < g.adj[a].len() {
                    assert(g.adj[a][i].0 < g.n);
                }
            }
        }
        assert forall|a: int, i: int| 0 <= a < g.adj.len() && 0 <= i < g.adj[a].len() implies #[trigger] h.adj[a][i].0 == g.adj[a][i].0 by {
            assert(g.adj[a].len() <= h.adj[a].len());
        }
        assert forall|a: int, i: int| 0 <= a < h.n && 0 <= i < h.adj[a].len() implies (#[trigger] h.adj[a][i]).0 < h.n by {
            assert(g.adj[a].len() <= h.adj[a].len());
        }
    }
}

proof fn lemma_close_row_keeps_lists(g: GraphView, b: usize, xs: Seq<usize>, added: Seq<(usize, usize)>, limit: nat)
    requires
        lists_in_range(g),
        b < g.n,
        forall|j: int| 0 <= j < xs.len() ==> #[trigger] xs[j] < g.n,
    ensures
        keeps_lists(g, close_row(g, b, xs, added, limit).0),
        lists_in_range(close_row(g, b, xs, added, limit).0),
    decreases xs.len(),
{
    if xs.len() == 0 {
        lemma_keeps_lists_refl(g);
    } else {
        assert forall|j: int| 0 <= j < xs.drop_last().len() implies #[trigger] xs.drop_last()[j] < g.n by {
            assert(xs.drop_last()[j] == xs[j]);
        }
        lemma_close_row_keeps_lists(g, b, xs.drop_last(), added, limit);
        let m = close_row(g, b, xs.drop_last(), added, limit);
        let x = xs.last();
        assert(x == xs[xs.len() - 1]);
        if m.1.len() < limit && x != b && !m.0.adjacent(b, x) {
            lemma_add_edge_keeps_lists(m.0, b, x, UNIT_WEIGHT);
            lemma_keeps_lists_trans(g, m.0, m.0.add_edge(b, x, UNIT_WEIGHT));
        }
    }
}

proof fn lemma_close_all_keeps_lists(g: GraphView, worst: Seq<(usize, usize)>)
    requires
        lists_in_range(g),
        forall|i: int| 0 <= i < worst.len() ==> (#[trigger] worst[i]).1 < g.n,
    ensures
        keeps_lists(g, close_all(g, worst).0),
        lists_in_range(close_all(g, worst).0),
    decreases worst.len(),
{
    if worst.len() == 0 {
        lemma_keeps_lists_refl(g);
    } else {
        assert forall|i: int| 0 <= i < worst.drop_last().len() implies (#[trigger] worst.drop_last()[i]).1 < g.n by {
            assert(worst.drop_last()[i] == worst[i]);
        }
        lemma_close_all_keeps_lists(g, worst.drop_last());
        let m = close_all(g, worst.drop_last());
        let e = worst.last();
        assert(e == worst[worst.len() - 1]);
        if m.1.len() < 3 {
            lemma_ids_in_range(m.0, e.0);
            lemma_close_row_keeps_lists(m.0, e.1, ids(m.0.nbrs(e.0)), m.1, 3);
            lemma_keeps_lists_trans(g, m.0, close_all(g, worst).0);
        }
    }
}

/// Triangle closing around one edge joins `b` to every entry `x != b` of
/// `xs`, unless the limit is reached.
proof fn lemma_close_row_covers(g: GraphView, b: usize, xs: Seq<usize>, added: Seq<(usize, usize)>, limit: nat, j: int)
    requires
        0 <= j < xs.len(),
        xs[j] != b,
    ensures
        close_row(g, b, xs, added, limit).0.adjacent(b, xs[j]) || close_row(g, b, xs, added, limit).1.len() >= limit,
    decreases xs.len(),
{
    let m = close_row(g, b, xs.drop_last(), added, limit);
    let r = close_row(g, b, xs, added, limit);
    let x = xs.last();
    if m.1.len() < limit && x != b && !m.0.adjacent(b, x) {
        m.0.lemma_add_edge_grows(b, x, UNIT_WEIGHT);
        m.0.lemma_add_edge_read(b, x, UNIT_WEIGHT);
    }
    if j < xs.len() - 1 {
        assert(xs.drop_last()[j] == xs[j]);
        lemma_close_row_covers(g, b, xs.drop_last(), added, limit, j);
        assert(m.0.adjacent(b, xs[j]) ==> r.0.adjacent(b, xs[j]));
    }
}

/// Triangle closing is complete: for each worst edge `(a, b)`, every agent
/// `x != b` that `a` lists as a neighbor is adjacent to `b` afterwards,
/// unless three edges were added; whether `x` is joined does not depend on
/// how `x` compares with `b`.
pub proof fn lemma_close_all_complete(g: GraphView, worst: Seq<(usize, usize)>, k: int, x: usize)
    requires
        g.wf(),
        forall|i: int| 0 <= i < worst.len() ==> (#[trigger] worst[i]).1 < g.n,
        0 <= k < worst.len(),
        ids(g.nbrs(worst[k].0)).contains(x),
        x != worst[k].1,
    ensures
        close_all(g, worst).0.adjacent(worst[k].1, x) || close_all(g, worst).1.len() == 3,
    decreases worst.len(),
{
    let m = close_all(g, worst.drop_last());
    let r = close_all(g, worst);
    let e = worst.last();
    lemma_close_all_grows(g, worst);
    lemma_close_all_grows(g, worst.drop_last());
    if m.1.len() < 3 {
        lemma_close_row_grows(m.0, e.1, ids(m.0.nbrs(e.0)), m.1, 3);
    }
    assert forall|i: int| 0 <= i < worst.drop_last().len() implies (#[trigger] worst.drop_last()[i]).1 < g.n by {
        assert(worst.drop_last()[i] == worst[i]);
    }
    if k < worst.len() - 1 {
        assert(worst.drop_last()[k] == worst[k]);
        lemma_close_all_complete(g, worst.drop_last(), k, x);
        assert(m.0.adjacent(worst[k].1, x) ==> r.0.adjacent(worst[k].1, x));
        if m.1.len() >= 3 {
            assert(r == m);
        }
    } else if m.1.len() < 3 {
        let a = e.0;
        let xs = ids(g.nbrs(a));
        let i = choose|i: int| 0 <= i < xs.len() && xs[i] == x;
        lemma_close_all_keeps_lists(g, worst.drop_last());
        assert(a < g.n);
        assert(g.adj[a as int][i].0 == x);
        assert(m.0.adj[a as int][i].0 == x);
        let ys = ids(m.0.nbrs(a));
        assert(ys[i] == x);
        lemma_close_row_covers(m.0, e.1, ys, m.1, 3, i);
    }
}

/// Neighborhood filling around one agent `x` joins it to every entry
/// `y != x` of `ys`, unless the limit is reached.
proof fn lemma_fill_row_covers(g: GraphView, x: usize, ys: Seq<usize>, added: Seq<(usize, usize)>, limit: nat, j: int)
    requires
        0 <= j < ys.len(),
        x != ys[j],
    ensures
        fill_row(g, x, ys, added, limit).0.adjacent(x, ys[j]) || fill_row(g, x, ys, added, limit).1.len() >= limit,
    decreases ys.len(),
{
    let m = fill_row(g, x, ys.drop_last(), added, limit);
    let r = fill_row(g, x, ys, added, limit);
    let y = ys.last();
    if m.1.len() < limit && x != y && !m.0.adjacent(x, y) {
        m.0.lemma_add_edge_grows(x, y, UNIT_WEIGHT);
        m.0.lemma_add_edge_read(x, y, UNIT_WEIGHT);
    }
    if j < ys.len() - 1 {
        assert(ys.drop_last()[j] == ys[j]);
        lemma_fill_row_covers(g, x, ys.drop_last(), added, limit, j);
        assert(m.0.adjacent(x, ys[j]) ==> r.0.adjacent(x, ys[j]));
    }
}

proof fn lemma_fill_cross_covers(g: GraphView, xs: Seq<usize>, ys: Seq<usize>, added: Seq<(usize, usize)>, limit: nat, i: int, j: int)
    requires
        0 <= i < xs.len(),
        0 <= j < ys.len(),
        xs[i] != ys[j],
    ensures
        fill_cross(g, xs, ys, added, limit).0.adjacent(xs[i], ys[j]) || fill_cross(g, xs, ys, added, limit).1.len() >= limit,
    decreases xs.len(),
{
    let m = fill_cross(g, xs.drop_last(), ys, added, limit);
    let r = fill_cross(g, xs, ys, added, limit);
    lemma_fill_row_grows(m.0, xs.last(), ys, m.1, limit);
    if i < xs.len() - 1 {
        assert(xs.drop_last()[i] == xs[i]);
        lemma_fill_cross_covers(g, xs.drop_last(), ys, added, limit, i, j);
        assert(m.0.adjacent(xs[i], ys[j]) ==> r.0.adjacent(xs[i], ys[j]));
    } else {
        lemma_fill_row_covers(m.0, xs.last(), ys, m.1, limit, j);
    }
}

/// Neighborhood filling of `(a, b)` is complete: every neighbor `x` of `a`
/// and every neighbor `y` of `b` with `x != y` are adjacent afterwards,
/// unless the limit of added edges was reached; whether a pair is joined is
/// symmetric in `x` and `y`.
pub proof fn lemma_fill_neighborhood_complete(
    g: GraphView,
    a: usize,
    b: usize,
    added: Seq<(usize, usize)>,
    limit: nat,
    x: usize,
    y: usize,
)
    requires
        added.len() <= limit,
        ids(g.nbrs(a)).contains(x),
        ids(g.nbrs(b)).contains(y),
        x != y,
    ensures
        fill_cross(g, ids(g.nbrs(a)), ids(g.nbrs(b)), added, limit).0.adjacent(x, y)
            || fill_cross(g, ids(g.nbrs(a)), ids(g.nbrs(b)), added, limit).1.len() == limit,
{
    let xs = ids(g.nbrs(a));
    let ys = ids(g.nbrs(b));
    let i = choose|i: int| 0 <= i < xs.len() && xs[i] == x;
    let j = choose|j: int| 0 <= j < ys.len() && ys[j] == y;
    lemma_fill_cross_covers(g, xs, ys, added, limit, i, j);
    lemma_fill_cross_grows(g, xs, ys, added, limit);
}

} // verus!
