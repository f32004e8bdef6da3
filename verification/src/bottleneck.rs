//! Bottleneck repair: which edges to add around a bottleneck edge, and
//! adding them. Finding the bottleneck edges themselves needs the
//! floating-point curvatures and is not part of this module.
use vstd::prelude::*;
use crate::graph::{AgentGraph, AgentId, GraphView, UNIT_WEIGHT, edge_key, ids};

verus! {

/// `p` is a prefix of `s`.
pub open spec fn is_prefix(p: Seq<(usize, usize)>, s: Seq<(usize, usize)>) -> bool {
    p.len() <= s.len() && s.subrange(0, p.len() as int) == p
}

/// Whether joining `x` (a neighbor of `a`) and `y` (a neighbor of `b`) is a
/// candidate repair of the bottleneck edge `(a, b)`.
pub open spec fn cross_candidate(g: GraphView, x: usize, y: usize, a: usize, b: usize) -> bool {
    x != y && !g.adjacent(x, y) && x != b && y != a
}

/// Candidate repairs joining `x` to the vertices of `ys`, in order.
pub open spec fn fix_row(g: GraphView, x: usize, ys: Seq<usize>, a: usize, b: usize) -> Seq<(usize, usize)>
    decreases ys.len(),
{
    if ys.len() == 0 {
        Seq::empty()
    } else {
        let rest = fix_row(g, x, ys.drop_last(), a, b);
        if cross_candidate(g, x, ys.last(), a, b) {
            rest.push(edge_key(x, ys.last()))
        } else {
            rest
        }
    }
}

/// Candidate repairs joining the vertices of `xs` to those of `ys`, row by row.
pub open spec fn fix_cross(g: GraphView, xs: Seq<usize>, ys: Seq<usize>, a: usize, b: usize) -> Seq<(usize, usize)>
    decreases xs.len(),
{
    if xs.len() == 0 {
        Seq::empty()
    } else {
        fix_cross(g, xs.drop_last(), ys, a, b) + fix_row(g, xs.last(), ys, a, b)
    }
}

/// Fallback repairs: join the vertices of `xs` to `b` directly.
pub open spec fn fix_fallback(g: GraphView, xs: Seq<usize>, b: usize) -> Seq<(usize, usize)>
    decreases xs.len(),
{
    if xs.len() == 0 {
        Seq::empty()
    } else {
        let rest = fix_fallback(g, xs.drop_last(), b);
        if !g.adjacent(xs.last(), b) && xs.last() != b {
            rest.push(edge_key(xs.last(), b))
        } else {
            rest
        }
    }
}

/// The repairs suggested for the bottleneck edge `(a, b)`: the first five
/// candidate edges between a neighbor of `a` and a neighbor of `b`; if there
/// is none, the first three edges joining a neighbor of `a` to `b`.
pub open spec fn suggested_fixes(g: GraphView, a: usize, b: usize) -> Seq<(usize, usize)> {
    let xs = ids(g.nbrs(a));
    let ys = ids(g.nbrs(b));
    let cross = fix_cross(g, xs, ys, a, b);
    let fallback = fix_fallback(g, xs, b);
    if cross.len() > 0 {
        cross.take(if cross.len() < 5 { cross.len() as int } else { 5 })
    } else {
        fallback.take(if fallback.len() < 3 { fallback.len() as int } else { 3 })
    }
}

proof fn lemma_prefix_trans(p: Seq<(usize, usize)>, q: Seq<(usize, usize)>, s: Seq<(usize, usize)>)
    requires
        is_prefix(p, q),
        is_prefix(q, s),
    ensures
        is_prefix(p, s),
{
    assert(s.subrange(0, p.len() as int) =~= q.subrange(0, p.len() as int));
}

proof fn lemma_fix_row_prefix(g: GraphView, x: usize, ys: Seq<usize>, j: int, a: usize, b: usize)
    requires
        0 <= j <= ys.len(),
    ensures
        is_prefix(fix_row(g, x, ys.take(j), a, b), fix_row(g, x, ys, a, b)),
    decreases ys.len(),
{
    if j == ys.len() {
        assert(ys.take(j) =~= ys);
        assert(fix_row(g, x, ys, a, b).subrange(0, fix_row(g, x, ys, a, b).len() as int) =~= fix_row(g, x, ys, a, b));
    } else {
        assert(ys.take(j) =~= ys.drop_last().take(j));
        lemma_fix_row_prefix(g, x, ys.drop_last(), j, a, b);
        let mid = fix_row(g, x, ys.drop_last(), a, b);
        let full = fix_row(g, x, ys, a, b);
        assert(is_prefix(mid, full)) by {
            assert(full.subrange(0, mid.len() as int) =~= mid);
        }
        lemma_prefix_trans(fix_row(g, x, ys.take(j), a, b), mid, full);
    }
}

proof fn lemma_fix_cross_prefix(g: GraphView, xs: Seq<usize>, ys: Seq<usize>, i: int, a: usize, b: usize)
    requires
        0 <= i <= xs.len(),
    ensures
        is_prefix(fix_cross(g, xs.take(i), ys, a, b), fix_cross(g, xs, ys, a, b)),
    decreases xs.len(),
{
    if i == xs.len() {
        assert(xs.take(i) =~= xs);
        assert(fix_cross(g, xs, ys, a, b).subrange(0, fix_cross(g, xs, ys, a, b).len() as int) =~= fix_cross(g, xs, ys, a, b));
    } else {
        assert(xs.take(i) =~= xs.drop_last().take(i));
        lemma_fix_cross_prefix(g, xs.drop_last(), ys, i, a, b);
        let mid = fix_cross(g, xs.drop_last(), ys, a, b);
        let full = fix_cross(g, xs, ys, a, b);
        assert(is_prefix(mid, full)) by {
            assert(full.subrange(0, mid.len() as int) =~= mid);
        }
        lemma_prefix_trans(fix_cross(g, xs.take(i), ys, a, b), mid, full);
    }
}

proof fn lemma_fix_fallback_prefix(g: GraphView, xs: Seq<usize>, i: int, b: usize)
    requires
        0 <= i <= xs.len(),
    ensures
        is_prefix(fix_fallback(g, xs.take(i), b), fix_fallback(g, xs, b)),
    decreases xs.len(),
{
    if i == xs.len() {
        assert(xs.take(i) =~= xs);
        assert(fix_fallback(g, xs, b).subrange(0, fix_fallback(g, xs, b).len() as int) =~= fix_fallback(g, xs, b));
    } else {
        assert(xs.take(i) =~= xs.drop_last().take(i));
        lemma_fix_fallback_prefix(g, xs.drop_last(), i, b);
        let mid = fix_fallback(g, xs.drop_last(), b);
        let full = fix_fallback(g, xs, b);
        assert(is_prefix(mid, full)) by {
            assert(full.subrange(0, mid.len() as int) =~= mid);
        }
        lemma_prefix_trans(fix_fallback(g, xs.take(i), b), mid, full);
    }
}

/// Every entry of `fix_row` is a sorted pair of distinct, non-adjacent agents.
proof fn lemma_fix_row_valid(g: GraphView, x: usize, ys: Seq<usize>, a: usize, b: usize)
    ensures
        forall|i: int| 0 <= i < fix_row(g, x, ys, a, b).len() ==> {
            &&& (#[trigger] fix_row(g, x, ys, a, b)[i]).0 < fix_row(g, x, ys, a, b)[i].1
            &&& !g.adjacent(fix_row(g, x, ys, a, b)[i].0, fix_row(g, x, ys, a, b)[i].1)
        },
    decreases ys.len(),
{
    if ys.len() > 0 {
        lemma_fix_row_valid(g, x, ys.drop_last(), a, b);
        let y = ys.last();
        let rest = fix_row(g, x, ys.drop_last(), a, b);
        let full = fix_row(g, x, ys, a, b);
        assert forall|i: int| 0 <= i < full.len() implies {
            &&& (#[trigger] full[i]).0 < full[i].1
            &&& !g.adjacent(full[i].0, full[i].1)
        } by {
            if i < rest.len() {
                assert(full[i] == rest[i]);
            } else {
                assert(full[i] == edge_key(x, y));
                assert(edge_key(edge_key(x, y).0, edge_key(x, y).1) == edge_key(x, y));
            }
        }
    }
}

/// Every entry of `fix_cross` is a sorted pair of distinct, non-adjacent agents.
proof fn lemma_fix_cross_valid(g: GraphView, xs: Seq<usize>, ys: Seq<usize>, a: usize, b: usize)
    ensures
        forall|i: int| 0 <= i < fix_cross(g, xs, ys, a, b).len() ==> {
            &&& (#[trigger] fix_cross(g, xs, ys, a, b)[i]).0 < fix_cross(g, xs, ys, a, b)[i].1
            &&& !g.adjacent(fix_cross(g, xs, ys, a, b)[i].0, fix_cross(g, xs, ys, a, b)[i].1)
        },
    decreases xs.len(),
{
    if xs.len() > 0 {
        lemma_fix_cross_valid(g, xs.drop_last(), ys, a, b);
        lemma_fix_row_valid(g, xs.last(), ys, a, b);
        let left = fix_cross(g, xs.drop_last(), ys, a, b);
        let right = fix_row(g, xs.last(), ys, a, b);
        assert forall|i: int| 0 <= i < fix_cross(g, xs, ys, a, b).len() implies {
            &&& (#[trigger] fix_cross(g, xs, ys, a, b)[i]).0 < fix_cross(g, xs, ys, a, b)[i].1
            &&& !g.adjacent(fix_cross(g, xs, ys, a, b)[i].0, fix_cross(g, xs, ys, a, b)[i].1)
        } by {
            if i < left.len() {
                assert(fix_cross(g, xs, ys, a, b)[i] == left[i]);
            } else {
                assert(fix_cross(g, xs, ys, a, b)[i] == right[i - left.len()]);
            }
        }
    }
}

/// Every entry of `fix_fallback` is a sorted pair of distinct, non-adjacent agents.
proof fn lemma_fix_fallback_valid(g: GraphView, xs: Seq<usize>, b: usize)
    ensures
        forall|i: int| 0 <= i < fix_fallback(g, xs, b).len() ==> {
            &&& (#[trigger] fix_fallback(g, xs, b)[i]).0 < fix_fallback(g, xs, b)[i].1
            &&& !g.adjacent(fix_fallback(g, xs, b)[i].0, fix_fallback(g, xs, b)[i].1)
        },
    decreases xs.len(),
{
    if xs.len() > 0 {
        lemma_fix_fallback_valid(g, xs.drop_last(), b);
        let x = xs.last();
        let rest = fix_fallback(g, xs.drop_last(), b);
        let full = fix_fallback(g, xs, b);
        assert forall|i: int| 0 <= i < full.len() implies {
            &&& (#[trigger] full[i]).0 < full[i].1
            &&& !g.adjacent(full[i].0, full[i].1)
        } by {
            if i < rest.len() {
                assert(full[i] == rest[i]);
            } else {
                assert(full[i] == edge_key(x, b));
                assert(edge_key(edge_key(x, b).0, edge_key(x, b).1) == edge_key(x, b));
            }
        }
    }
}

/// Entries of `fix_row` join agents below `m` when its inputs are below `m`.
proof fn lemma_fix_row_bound(g: GraphView, x: usize, ys: Seq<usize>, a: usize, b: usize, m: nat)
    requires
        x < m,
        forall|j: int| 0 <= j < ys.len() ==> #[trigger] ys[j] < m,
    ensures
        forall|i: int| 0 <= i < fix_row(g, x, ys, a, b).len() ==> (#[trigger] fix_row(g, x, ys, a, b)[i]).1 < m,
    decreases ys.len(),
{
    if ys.len() > 0 {
        lemma_fix_row_bound(g, x, ys.drop_last(), a, b, m);
        assert(ys.last() == ys[ys.len() - 1]);
        let rest = fix_row(g, x, ys.drop_last(), a, b);
        let full = fix_row(g, x, ys, a, b);
        assert forall|i: int| 0 <= i < full.len() implies (#[trigger] full[i]).1 < m by {
            if i < rest.len() {
                assert(full[i] == rest[i]);
            }
        }
    }
}

/// Entries of `fix_cross` join agents below `m` when its inputs are below `m`.
proof fn lemma_fix_cross_bound(g: GraphView, xs: Seq<usize>, ys: Seq<usize>, a: usize, b: usize, m: nat)
    requires
        forall|j: int| 0 <= j < xs.len() ==> #[trigger] xs[j] < m,
        forall|j: int| 0 <= j < ys.len() ==> #[trigger] ys[j] < m,
    ensures
        forall|i: int| 0 <= i < fix_cross(g, xs, ys, a, b).len() ==> (#[trigger] fix_cross(g, xs, ys, a, b)[i]).1 < m,
    decreases xs.len(),
{
    if xs.len() > 0 {
        lemma_fix_cross_bound(g, xs.drop_last(), ys, a, b, m);
        assert(xs.last() == xs[xs.len() - 1]);
        lemma_fix_row_bound(g, xs.last(), ys, a, b, m);
        let left = fix_cross(g, xs.drop_last(), ys, a, b);
        let right = fix_row(g, xs.last(), ys, a, b);
        assert forall|i: int| 0 <= i < fix_cross(g, xs, ys, a, b).len() implies (#[trigger] fix_cross(g, xs, ys, a, b)[i]).1 < m by {
            if i < left.len() {
                assert(fix_cross(g, xs, ys, a, b)[i] == left[i]);
            } else {
                assert(fix_cross(g, xs, ys, a, b)[i] == right[i - left.len()]);
            }
        }
    }
}

/// Entries of `fix_fallback` join agents below `m` when its inputs are below `m`.
proof fn lemma_fix_fallback_bound(g: GraphView, xs: Seq<usize>, b: usize, m: nat)
    requires
        b < m,
        forall|j: int| 0 <= j < xs.len() ==> #[trigger] xs[j] < m,
    ensures
        forall|i: int| 0 <= i < fix_fallback(g, xs, b).len() ==> (#[trigger] fix_fallback(g, xs, b)[i]).1 < m,
    decreases xs.len(),
{
    if xs.len() > 0 {
        lemma_fix_fallback_bound(g, xs.drop_last(), b, m);
        assert(xs.last() == xs[xs.len() - 1]);
        let rest = fix_fallback(g, xs.drop_last(), b);
        let full = fix_fallback(g, xs, b);
        assert forall|i: int| 0 <= i < full.len() implies (#[trigger] full[i]).1 < m by {
            if i < rest.len() {
                assert(full[i] == rest[i]);
            }
        }
    }
}

/// The suggested repairs of a bottleneck edge `(a, b)` are at most five
/// edges, each joining two distinct agents that are not adjacent yet, given
/// as sorted pairs.
pub proof fn lemma_suggested_fixes_valid(g: GraphView, a: usize, b: usize)
    requires
        g.wf(),
        g.adjacent(a, b),
    ensures
        suggested_fixes(g, a, b).len() <= 5,
        forall|i: int| 0 <= i < suggested_fixes(g, a, b).len() ==> {
            &&& (#[trigger] suggested_fixes(g, a, b)[i]).0 < suggested_fixes(g, a, b)[i].1
            &&& suggested_fixes(g, a, b)[i].1 < g.n
            &&& !g.adjacent(suggested_fixes(g, a, b)[i].0, suggested_fixes(g, a, b)[i].1)
        },
{
    let xs = ids(g.nbrs(a));
    let ys = ids(g.nbrs(b));
    g.lemma_adjacent_listed(a, b);
    g.lemma_wf_ids(a);
    g.lemma_wf_ids(b);
    lemma_fix_cross_valid(g, xs, ys, a, b);
    lemma_fix_fallback_valid(g, xs, b);
    lemma_fix_cross_bound(g, xs, ys, a, b, g.n);
    lemma_fix_fallback_bound(g, xs, b, g.n);
    let r = suggested_fixes(g, a, b);
    let cross = fix_cross(g, xs, ys, a, b);
    let fb = fix_fallback(g, xs, b);
    assert forall|i: int| 0 <= i < r.len() implies {
        &&& (#[trigger] r[i]).0 < r[i].1
        &&& r[i].1 < g.n
        &&& !g.adjacent(r[i].0, r[i].1)
    } by {
        if cross.len() > 0 {
            assert(r[i] == cross[i]);
        } else {
            assert(r[i] == fb[i]);
        }
    }
}

/// Every pair of `x` (a neighbor of `a`) and an entry `y` of `ys` with
/// `x != y`, `x != b`, `y != a` and `x`, `y` not adjacent is in `fix_row`.
proof fn lemma_fix_row_has(g: GraphView, x: usize, ys: Seq<usize>, a: usize, b: usize, j: int)
    requires
        0 <= j < ys.len(),
        x != ys[j],
        x != b,
        ys[j] != a,
        !g.adjacent(x, ys[j]),
    ensures
        fix_row(g, x, ys, a, b).contains(edge_key(x, ys[j])),
    decreases ys.len(),
{
    let rest = fix_row(g, x, ys.drop_last(), a, b);
    let full = fix_row(g, x, ys, a, b);
    if j == ys.len() - 1 {
        assert(full[full.len() - 1] == edge_key(x, ys[j]));
    } else {
        assert(ys.drop_last()[j] == ys[j]);
        lemma_fix_row_has(g, x, ys.drop_last(), a, b, j);
        let k = choose|k: int| 0 <= k < rest.len() && rest[k] == edge_key(x, ys[j]);
        assert(full[k] == rest[k]);
    }
}

proof fn lemma_fix_cross_has(g: GraphView, xs: Seq<usize>, ys: Seq<usize>, a: usize, b: usize, i: int, j: int)
    requires
        0 <= i < xs.len(),
        0 <= j < ys.len(),
        xs[i] != ys[j],
        xs[i] != b,
        ys[j] != a,
        !g.adjacent(xs[i], ys[j]),
    ensures
        fix_cross(g, xs, ys, a, b).contains(edge_key(xs[i], ys[j])),
    decreases xs.len(),
{
    let left = fix_cross(g, xs.drop_last(), ys, a, b);
    let right = fix_row(g, xs.last(), ys, a, b);
    let full = fix_cross(g, xs, ys, a, b);
    assert(full == left + right);
    if i == xs.len() - 1 {
        lemma_fix_row_has(g, xs.last(), ys, a, b, j);
        let k = choose|k: int| 0 <= k < right.len() && right[k] == edge_key(xs[i], ys[j]);
        assert(full[left.len() + k] == right[k]);
    } else {
        assert(xs.drop_last()[i] == xs[i]);
        lemma_fix_cross_has(g, xs.drop_last(), ys, a, b, i, j);
        let k = choose|k: int| 0 <= k < left.len() && left[k] == edge_key(xs[i], ys[j]);
        assert(full[k] == left[k]);
    }
}

/// Completeness of the suggested repairs of `(a, b)`: every pair of a
/// neighbor `x` of `a` and a neighbor `y` of `b` with `x != y`, `x != b`,
/// `y != a` and `x`, `y` not adjacent is suggested, as its sorted pair,
/// unless five repairs are suggested already. Whether a pair qualifies does
/// not depend on the order of `x` and `y`.
pub proof fn lemma_suggested_fixes_complete(g: GraphView, a: usize, b: usize, x: usize, y: usize)
    requires
        ids(g.nbrs(a)).contains(x),
        ids(g.nbrs(b)).contains(y),
        x != y,
        x != b,
        y != a,
        !g.adjacent(x, y),
    ensures
        suggested_fixes(g, a, b).contains(edge_key(x, y)) || suggested_fixes(g, a, b).len() == 5,
{
    let xs = ids(g.nbrs(a));
    let ys = ids(g.nbrs(b));
    let i = choose|i: int| 0 <= i < xs.len() && xs[i] == x;
    let j = choose|j: int| 0 <= j < ys.len() && ys[j] == y;
    lemma_fix_cross_has(g, xs, ys, a, b, i, j);
    let cross = fix_cross(g, xs, ys, a, b);
    let k = choose|k: int| 0 <= k < cross.len() && cross[k] == edge_key(x, y);
    if cross.len() < 5 {
        assert(cross.take(cross.len() as int) =~= cross);
        assert(suggested_fixes(g, a, b)[k] == edge_key(x, y));
    }
}

/// A nonempty `fix_row` comes from a qualifying pair.
proof fn lemma_fix_row_source(g: GraphView, x: usize, ys: Seq<usize>, a: usize, b: usize)
    requires
        fix_row(g, x, ys, a, b).len() > 0,
    ensures
        exists|j: int| 0 <= j < ys.len() && x != #[trigger] ys[j] && x != b && ys[j] != a && !g.adjacent(x, ys[j]),
    decreases ys.len(),
{
    let rest = fix_row(g, x, ys.drop_last(), a, b);
    if rest.len() > 0 {
        lemma_fix_row_source(g, x, ys.drop_last(), a, b);
        let j = choose|j: int| 0 <= j < ys.drop_last().len() && x != #[trigger] ys.drop_last()[j] && x != b && ys.drop_last()[j] != a
            && !g.adjacent(x, ys.drop_last()[j]);
        assert(ys[j] == ys.drop_last()[j]);
    } else {
        assert(ys[ys.len() - 1] == ys.last());
    }
}

/// A nonempty `fix_cross` comes from a qualifying pair.
proof fn lemma_fix_cross_source(g: GraphView, xs: Seq<usize>, ys: Seq<usize>, a: usize, b: usize)
    requires
        fix_cross(g, xs, ys, a, b).len() > 0,
    ensures
        exists|i: int, j: int|
            0 <= i < xs.len() && 0 <= j < ys.len() && #[trigger] xs[i] != #[trigger] ys[j] && xs[i] != b && ys[j] != a
                && !g.adjacent(xs[i], ys[j]),
    decreases xs.len(),
{
    let left = fix_cross(g, xs.drop_last(), ys, a, b);
    if left.len() > 0 {
        lemma_fix_cross_source(g, xs.drop_last(), ys, a, b);
        let (i, j) = choose|i: int, j: int|
            0 <= i < xs.drop_last().len() && 0 <= j < ys.len() && #[trigger] xs.drop_last()[i] != #[trigger] ys[j] && xs.drop_last()[i]
                != b && ys[j] != a && !g.adjacent(xs.drop_last()[i], ys[j]);
        assert(xs[i] == xs.drop_last()[i]);
    } else {
        lemma_fix_row_source(g, xs.last(), ys, a, b);
        let j = choose|j: int| 0 <= j < ys.len() && xs.last() != #[trigger] ys[j] && xs.last() != b && ys[j] != a && !g.adjacent(xs.last(), ys[j]);
        assert(xs[xs.len() - 1] == xs.last());
    }
}

proof fn lemma_fix_fallback_has(g: GraphView, xs: Seq<usize>, b: usize, i: int)
    requires
        0 <= i < xs.len(),
        xs[i] != b,
        !g.adjacent(xs[i], b),
    ensures
        fix_fallback(g, xs, b).contains(edge_key(xs[i], b)),
    decreases xs.len(),
{
    let rest = fix_fallback(g, xs.drop_last(), b);
    let full = fix_fallback(g, xs, b);
    if i == xs.len() - 1 {
        assert(full[full.len() - 1] == edge_key(xs[i], b));
    } else {
        assert(xs.drop_last()[i] == xs[i]);
        lemma_fix_fallback_has(g, xs.drop_last(), b, i);
        let k = choose|k: int| 0 <= k < rest.len() && rest[k] == edge_key(xs[i], b);
        assert(full[k] == rest[k]);
    }
}

/// The fallback repairs of `(a, b)`: when no pair of a neighbor of `a` and a
/// neighbor of `b` qualifies, every neighbor `x != b` of `a` that is not
/// adjacent to `b` is joined to `b` in the suggestions, unless three
/// repairs are suggested already.
pub proof fn lemma_suggested_fixes_fallback(g: GraphView, a: usize, b: usize, x: usize)
    requires
        forall|x2: usize, y2: usize|
            ids(g.nbrs(a)).contains(x2) && ids(g.nbrs(b)).contains(y2) ==> !(x2 != y2 && x2 != b && y2 != a && !g.adjacent(x2, y2)),
        ids(g.nbrs(a)).contains(x),
        x != b,
        !g.adjacent(x, b),
    ensures
        suggested_fixes(g, a, b).contains(edge_key(x, b)) || suggested_fixes(g, a, b).len() == 3,
{
    let xs = ids(g.nbrs(a));
    let ys = ids(g.nbrs(b));
    let cross = fix_cross(g, xs, ys, a, b);
    if cross.len() > 0 {
        lemma_fix_cross_source(g, xs, ys, a, b);
        let (i, j) = choose|i: int, j: int|
            0 <= i < xs.len() && 0 <= j < ys.len() && #[trigger] xs[i] != #[trigger] ys[j] && xs[i] != b && ys[j] != a
                && !g.adjacent(xs[i], ys[j]);
        assert(xs.contains(xs[i]));
        assert(ys.contains(ys[j]));
    }
    let i = choose|i: int| 0 <= i < xs.len() && xs[i] == x;
    lemma_fix_fallback_has(g, xs, b, i);
    let fb = fix_fallback(g, xs, b);
    let k = choose|k: int| 0 <= k < fb.len() && fb[k] == edge_key(x, b);
    if fb.len() < 3 {
        assert(fb.take(fb.len() as int) =~= fb);
        assert(suggested_fixes(g, a, b)[k] == edge_key(x, b));
    }
}

/// Adding missing edges only adds: the agents stay, every edge stays, and
/// when no edge of `fixes` is a self-loop the count is exactly the number of
/// new edges.
pub proof fn lemma_add_missing_count(g: GraphView, fixes: Seq<(usize, usize)>)
    requires
        g.weights.dom().finite(),
    ensures
        add_missing(g, fixes).0.n == g.n,
        g.weights.dom().subset_of(add_missing(g, fixes).0.weights.dom()),
        add_missing(g, fixes).0.weights.dom().finite(),
        (forall|i: int| 0 <= i < fixes.len() ==> (#[trigger] fixes[i]).0 != fixes[i].1) ==> add_missing(g, fixes).0.weights.dom().len()
            == g.weights.dom().len() + add_missing(g, fixes).1,
    decreases fixes.len(),
{
    if fixes.len() > 0 {
        let rest = fixes.drop_last();
        lemma_add_missing_count(g, rest);
        let (h, c) = add_missing(g, rest);
        let e = fixes.last();
        if !h.adjacent(e.0, e.1) {
            h.lemma_add_edge_grows(e.0, e.1, UNIT_WEIGHT);
            if forall|i: int| 0 <= i < fixes.len() ==> (#[trigger] fixes[i]).0 != fixes[i].1 {
                assert(fixes[fixes.len() - 1] == e);
                assert forall|i: int| 0 <= i < rest.len() implies (#[trigger] rest[i]).0 != rest[i].1 by {
                    assert(rest[i] == fixes[i]);
                }
            }
        } else {
            if forall|i: int| 0 <= i < fixes.len() ==> (#[trigger] fixes[i]).0 != fixes[i].1 {
                assert forall|i: int| 0 <= i < rest.len() implies (#[trigger] rest[i]).0 != rest[i].1 by {
                    assert(rest[i] == fixes[i]);
                }
            }
        }
    }
}

/// Suggest edge additions to fix a bottleneck at edge `(a, b)`.
pub fn suggest_fixes(graph: &AgentGraph, a: AgentId, b: AgentId) -> (fixes: Vec<(AgentId, AgentId)>)
    requires
        graph.wf(),
    ensures
        fixes@ == suggested_fixes(graph@, a, b),
{
    let ghost g = graph@;
    let nba = graph.neighbors(a);
    let nbb = graph.neighbors(b);
    let ghost xs = ids(g.nbrs(a));
    let ghost ys = ids(g.nbrs(b));
    let mut fixes: Vec<(usize, usize)> = Vec::new();
    let la = nba.len();
    let lb = nbb.len();
    let mut i: usize = 0;
    proof {
        assert(xs.take(0) =~= Seq::<usize>::empty());
    }
    while i < la
        invariant
            g == graph@,
            graph.wf(),
            nba@ == g.nbrs(a),
            nbb@ == g.nbrs(b),
            xs == ids(g.nbrs(a)),
            ys == ids(g.nbrs(b)),
            la == xs.len(),
            lb == ys.len(),
            i <= la,
            fixes@ == fix_cross(g, xs.take(i as int), ys, a, b),
            fixes@.len() < 5,
        decreases la - i,
    {
        let na = nba[i].0;
        let mut j: usize = 0;
        proof {
            assert(ys.take(0) =~= Seq::<usize>::empty());
            assert(xs[i as int] == na);
        }
        while j < lb
            invariant
                g == graph@,
                graph.wf(),
                nba@ == g.nbrs(a),
                nbb@ == g.nbrs(b),
                xs == ids(g.nbrs(a)),
                ys == ids(g.nbrs(b)),
                la == xs.len(),
                lb == ys.len(),
                i < la,
                xs[i as int] == na,
                j <= lb,
                fixes@ == fix_cross(g, xs.take(i as int), ys, a, b) + fix_row(g, na, ys.take(j as int), a, b),
                fixes@.len() < 5,
            decreases lb - j,
        {
            let nb = nbb[j].0;
            proof {
                assert(ys[j as int] == nb);
                assert(ys.take(j + 1).drop_last() =~= ys.take(j as int));
                assert(ys.take(j + 1).last() == nb);
            }
            if na != nb && !graph.has_edge(na, nb) && na != b && nb != a {
                let k = if na < nb {
                    (na, nb)
                } else {
                    (nb, na)
                };
                fixes.push(k);
                proof {
                    let pre = fix_cross(g, xs.take(i as int), ys, a, b);
                    assert(fixes@ =~= pre + fix_row(g, na, ys.take(j + 1), a, b));
                }
                if fixes.len() >= 5 {
                    proof {
                        let pre = fix_cross(g, xs.take(i as int), ys, a, b);
                        let cross = fix_cross(g, xs, ys, a, b);
                        lemma_fix_row_prefix(g, na, ys, j + 1, a, b);
                        assert(xs.take(i + 1).drop_last() =~= xs.take(i as int));
                        assert(fix_cross(g, xs.take(i + 1), ys, a, b) == pre + fix_row(g, na, ys, a, b));
                        lemma_fix_cross_prefix(g, xs, ys, i + 1, a, b);
                        let whole = fix_cross(g, xs.take(i + 1), ys, a, b);
                        assert(is_prefix(fixes@, whole)) by {
                            let row = fix_row(g, na, ys, a, b);
                            let rowp = fix_row(g, na, ys.take(j + 1), a, b);
                            assert(row.subrange(0, rowp.len() as int) == rowp);
                            assert(whole.subrange(0, fixes@.len() as int) =~= fixes@);
                        }
                        lemma_prefix_trans(fixes@, whole, cross);
                        assert(cross.take(5) =~= fixes@);
                    }
                    return fixes;
                }
            } else {
                proof {
                    let pre = fix_cross(g, xs.take(i as int), ys, a, b);
                    assert(fixes@ =~= pre + fix_row(g, na, ys.take(j + 1), a, b));
                }
            }
            j = j + 1;
        }
        proof {
            assert(ys.take(lb as int) =~= ys);
            assert(xs.take(i + 1).drop_last() =~= xs.take(i as int));
            assert(fixes@ =~= fix_cross(g, xs.take(i + 1), ys, a, b));
        }
        i = i + 1;
    }
    proof {
        assert(xs.take(la as int) =~= xs);
        let cross = fix_cross(g, xs, ys, a, b);
        assert(cross.take(cross.len() as int) =~= cross);
    }
    if fixes.len() == 0 {
        let mut i: usize = 0;
        proof {
            assert(xs.take(0) =~= Seq::<usize>::empty());
        }
        while i < la
            invariant
                g == graph@,
                graph.wf(),
                nba@ == g.nbrs(a),
                xs == ids(g.nbrs(a)),
                la == xs.len(),
                i <= la,
                fixes@ == fix_fallback(g, xs.take(i as int), b),
                fixes@.len() < 3,
                ys == ids(g.nbrs(b)),
                fix_cross(g, xs, ys, a, b).len() == 0,
            decreases la - i,
        {
            let na = nba[i].0;
            proof {
                assert(xs[i as int] == na);
                assert(xs.take(i + 1).drop_last() =~= xs.take(i as int));
                assert(xs.take(i + 1).last() == na);
            }
            if !graph.has_edge(na, b) && na != b {
                let k = if na < b {
                    (na, b)
                } else {
                    (b, na)
                };
                fixes.push(k);
                if fixes.len() >= 3 {
                    proof {
                        let fb = fix_fallback(g, xs, b);
                        lemma_fix_fallback_prefix(g, xs, i + 1, b);
                        assert(fixes@ == fix_fallback(g, xs.take(i + 1), b));
                        assert(fb.take(3) =~= fixes@);
                    }
                    return fixes;
                }
            }
            i = i + 1;
        }
        proof {
            assert(xs.take(la as int) =~= xs);
            let fb = fix_fallback(g, xs, b);
            assert(fb.take(fb.len() as int) =~= fb);
        }
    }
    fixes
}

/// The graph and the number of edges added after adding, in order, each
/// edge of `fixes` that is not yet present (with unit weight).
pub open spec fn add_missing(g: GraphView, fixes: Seq<(usize, usize)>) -> (GraphView, nat)
    decreases fixes.len(),
{
    if fixes.len() == 0 {
        (g, 0)
    } else {
        let (h, c) = add_missing(g, fixes.drop_last());
        let e = fixes.last();
        if h.adjacent(e.0, e.1) {
            (h, c)
        } else {
            (h.add_edge(e.0, e.1, UNIT_WEIGHT), c + 1)
        }
    }
}

/// Adding missing edges changes nothing else: afterwards the edges are the
/// old edges, with their old weights, and the edges of `fixes` that are not
/// self-loops, where new with the unit weight.
pub proof fn lemma_add_missing_edges(g: GraphView, fixes: Seq<(usize, usize)>)
    ensures
        forall|k: (usize, usize)| #[trigger] add_missing(g, fixes).0.weights.dom().contains(k) <==> (g.weights.dom().contains(k)
            || exists|i: int| 0 <= i < fixes.len() && (#[trigger] fixes[i]).0 != fixes[i].1 && edge_key(fixes[i].0, fixes[i].1) == k),
        forall|k: (usize, usize)| #[trigger] add_missing(g, fixes).0.weights.dom().contains(k) ==> add_missing(g, fixes).0.weights[k] == (
        if g.weights.dom().contains(k) {
            g.weights[k]
        } else {
            UNIT_WEIGHT
        }),
    decreases fixes.len(),
{
    if fixes.len() > 0 {
        let rest = fixes.drop_last();
        lemma_add_missing_edges(g, rest);
        let (h, c) = add_missing(g, rest);
        let e = fixes.last();
        let r = add_missing(g, fixes).0;
        assert(fixes[fixes.len() - 1] == e);
        assert forall|k: (usize, usize)| #[trigger] r.weights.dom().contains(k) <==> (g.weights.dom().contains(k)
            || exists|i: int| 0 <= i < fixes.len() && (#[trigger] fixes[i]).0 != fixes[i].1 && edge_key(fixes[i].0, fixes[i].1) == k) by {
            if exists|i: int| 0 <= i < fixes.len() && (#[trigger] fixes[i]).0 != fixes[i].1 && edge_key(fixes[i].0, fixes[i].1) == k {
                let i = choose|i: int| 0 <= i < fixes.len() && (#[trigger] fixes[i]).0 != fixes[i].1 && edge_key(fixes[i].0, fixes[i].1) == k;
                if i < rest.len() {
                    assert(rest[i] == fixes[i]);
                }
            }
            if h.weights.dom().contains(k) && !g.weights.dom().contains(k) {
                let i = choose|i: int| 0 <= i < rest.len() && (#[trigger] rest[i]).0 != rest[i].1 && edge_key(rest[i].0, rest[i].1) == k;
                assert(fixes[i] == rest[i]);
            }
        }
    }
}

/// Add every edge of `fixes` that is not yet present; returns how many were added.
pub fn apply_edge_additions(graph: &mut AgentGraph, fixes: &Vec<(AgentId, AgentId)>) -> (count: usize)
    requires
        old(graph).wf(),
        forall|i: int| 0 <= i < fixes@.len() ==> (#[trigger] fixes@[i]).0 < old(graph)@.n && fixes@[i].1 < old(graph)@.n,
    ensures
        final(graph).wf(),
        final(graph)@ == add_missing(old(graph)@, fixes@).0,
        count == add_missing(old(graph)@, fixes@).1,
{
    let ghost g0 = graph@;
    let mut count: usize = 0;
    let mut i: usize = 0;
    proof {
        assert(fixes@.take(0) =~= Seq::<(usize, usize)>::empty());
    }
    while i < fixes.len()
        invariant
            graph.wf(),
            graph@.n == g0.n,
            i <= fixes@.len(),
            forall|i: int| 0 <= i < fixes@.len() ==> (#[trigger] fixes@[i]).0 < g0.n && fixes@[i].1 < g0.n,
            graph@ == add_missing(g0, fixes@.take(i as int)).0,
            count == add_missing(g0, fixes@.take(i as int)).1,
            count <= i,
        decreases fixes@.len() - i,
    {
        let (a, b) = fixes[i];
        proof {
            assert(fixes@.take(i + 1).drop_last() =~= fixes@.take(i as int));
            assert(fixes@.take(i + 1).last() == fixes@[i as int]);
        }
        if !graph.has_edge(a, b) {
            graph.add_edge(a, b, UNIT_WEIGHT);
            count = count + 1;
        }
        i = i + 1;
    }
    proof {
        assert(fixes@.take(fixes@.len() as int) =~= fixes@);
    }
    count
}

} // verus!
