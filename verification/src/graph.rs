//! Agent interaction graph: agents are the nodes `0..n`, interactions are
//! undirected weighted edges.
//!
//! Edge weights are carried as the bit pattern of an IEEE-754 binary64 value
//! (`f64::to_bits`). The graph logic never does arithmetic on them; it only
//! stores them and hands them back.
use vstd::prelude::*;

verus! {

/// Unique identifier for an agent node.
pub type AgentId = usize;

/// Unique identifier for an edge: the sorted pair of its endpoints.
pub type EdgeId = (AgentId, AgentId);

/// Bit pattern of an edge weight (an IEEE-754 binary64 value).
pub type WeightBits = u64;

/// Bit pattern of the weight 1.0, the weight that the builders give every edge.
pub const UNIT_WEIGHT: u64 = 0x3FF0_0000_0000_0000u64;

/// The sorted pair that identifies the edge between `a` and `b`.
pub open spec fn edge_key(a: usize, b: usize) -> (usize, usize) {
    if a < b {
        (a, b)
    } else {
        (b, a)
    }
}

/// Lexicographic order on edge keys.
pub open spec fn key_lt(x: (usize, usize), y: (usize, usize)) -> bool {
    x.0 < y.0 || (x.0 == y.0 && x.1 < y.1)
}

/// A sequence of keyed entries whose keys strictly increase.
pub open spec fn strictly_sorted_entries(s: Seq<((usize, usize), u64)>) -> bool {
    forall|i: int, j: int| 0 <= i < j < s.len() ==> key_lt(#[trigger] s[i].0, #[trigger] s[j].0)
}

/// A sequence of edge keys that strictly increases.
pub open spec fn strictly_sorted_keys(s: Seq<(usize, usize)>) -> bool {
    forall|i: int, j: int| 0 <= i < j < s.len() ==> key_lt(#[trigger] s[i], #[trigger] s[j])
}

/// The map from keys to weights that a sequence of keyed entries denotes
/// (a later entry for the same key wins).
pub open spec fn map_of(s: Seq<((usize, usize), u64)>) -> Map<(usize, usize), u64>
    decreases s.len(),
{
    if s.len() == 0 {
        Map::empty()
    } else {
        map_of(s.drop_last()).insert(s.last().0, s.last().1)
    }
}

pub proof fn lemma_map_of_dom(s: Seq<((usize, usize), u64)>)
    ensures
        map_of(s).dom().finite(),
        forall|k: (usize, usize)|
            #[trigger] map_of(s).dom().contains(k) <==> exists|i: int|
                0 <= i < s.len() && #[trigger] s[i].0 == k,
    decreases s.len(),
{
    if s.len() > 0 {
        lemma_map_of_dom(s.drop_last());
        assert forall|k: (usize, usize)|
            #[trigger] map_of(s).dom().contains(k) implies exists|i: int|
                0 <= i < s.len() && #[trigger] s[i].0 == k by {
            if k != s.last().0 {
                let i = choose|i: int| 0 <= i < s.drop_last().len() && #[trigger] s.drop_last()[i].0 == k;
                assert(s[i].0 == k);
            } else {
                assert(s[s.len() - 1].0 == k);
            }
        }
        assert forall|k: (usize, usize)|
            (exists|i: int| 0 <= i < s.len() && #[trigger] s[i].0 == k) implies #[trigger] map_of(s).dom().contains(k) by {
            let i = choose|i: int| 0 <= i < s.len() && #[trigger] s[i].0 == k;
            if i < s.len() - 1 {
                assert(s.drop_last()[i].0 == k);
            }
        }
    }
}

pub proof fn lemma_map_of_value(s: Seq<((usize, usize), u64)>, i: int)
    requires
        strictly_sorted_entries(s),
        0 <= i < s.len(),
    ensures
        map_of(s).dom().contains(s[i].0),
        map_of(s)[s[i].0] == s[i].1,
    decreases s.len(),
{
    if i < s.len() - 1 {
        assert(key_lt(s[i].0, s[s.len() - 1].0));
        assert(strictly_sorted_entries(s.drop_last())) by {
            assert forall|x: int, y: int| 0 <= x < y < s.drop_last().len() implies key_lt(
                #[trigger] s.drop_last()[x].0,
                #[trigger] s.drop_last()[y].0,
            ) by {
                assert(key_lt(s[x].0, s[y].0));
            }
        }
        lemma_map_of_value(s.drop_last(), i);
        assert(s.drop_last()[i] == s[i]);
    }
}

pub proof fn lemma_map_of_len(s: Seq<((usize, usize), u64)>)
    requires
        strictly_sorted_entries(s),
    ensures
        map_of(s).dom().len() == s.len(),
    decreases s.len(),
{
    if s.len() > 0 {
        let t = s.drop_last();
        assert(strictly_sorted_entries(t)) by {
            assert forall|x: int, y: int| 0 <= x < y < t.len() implies key_lt(
                #[trigger] t[x].0,
                #[trigger] t[y].0,
            ) by {
                assert(key_lt(s[x].0, s[y].0));
            }
        }
        lemma_map_of_len(t);
        lemma_map_of_dom(t);
        if map_of(t).dom().contains(s.last().0) {
            let i = choose|i: int| 0 <= i < t.len() && #[trigger] t[i].0 == s.last().0;
            assert(key_lt(s[i].0, s[s.len() - 1].0));
        }
    }
}

pub proof fn lemma_map_of_insert(s: Seq<((usize, usize), u64)>, pos: int, e: ((usize, usize), u64))
    requires
        strictly_sorted_entries(s),
        0 <= pos <= s.len(),
        forall|i: int| 0 <= i < pos ==> key_lt(#[trigger] s[i].0, e.0),
        pos < s.len() ==> key_lt(e.0, s[pos].0),
    ensures
        strictly_sorted_entries(s.insert(pos, e)),
        map_of(s.insert(pos, e)) == map_of(s).insert(e.0, e.1),
{
    let t = s.insert(pos, e);
    s.insert_ensures(pos, e);
    assert forall|i: int, j: int| 0 <= i < j < t.len() implies key_lt(#[trigger] t[i].0, #[trigger] t[j].0) by {
        if j < pos {
            assert(key_lt(s[i].0, s[j].0));
        } else if j == pos {
        } else if i < pos {
            assert(key_lt(s[i].0, e.0));
            assert(key_lt(e.0, s[pos].0));
            if pos < j - 1 {
                assert(key_lt(s[pos].0, s[j - 1].0));
            }
            assert(t[j] == s[j - 1]);
        } else if i == pos {
            if pos < j - 1 {
                assert(key_lt(s[pos].0, s[j - 1].0));
            }
            assert(t[j] == s[j - 1]);
        } else {
            assert(key_lt(s[i - 1].0, s[j - 1].0));
            assert(t[j] == s[j - 1]);
            assert(t[i] == s[i - 1]);
        }
    }
    lemma_map_of_dom(s);
    lemma_map_of_dom(t);
    let m = map_of(s).insert(e.0, e.1);
    assert forall|k: (usize, usize)| #[trigger] map_of(t).dom().contains(k) <==> m.dom().contains(k) by {
        if map_of(t).dom().contains(k) {
            let i = choose|i: int| 0 <= i < t.len() && #[trigger] t[i].0 == k;
            if i < pos {
                assert(s[i].0 == k);
            } else if i > pos {
                assert(s[i - 1].0 == k);
            }
        }
        if map_of(s).dom().contains(k) {
            let i = choose|i: int| 0 <= i < s.len() && #[trigger] s[i].0 == k;
            if i < pos {
                assert(t[i].0 == k);
            } else {
                assert(t[i + 1].0 == k);
            }
        }
        if k == e.0 {
            assert(t[pos].0 == k);
        }
    }
    assert forall|k: (usize, usize)| #[trigger] map_of(t).dom().contains(k) implies map_of(t)[k] == m[k] by {
        let i = choose|i: int| 0 <= i < t.len() && #[trigger] t[i].0 == k;
        lemma_map_of_value(t, i);
        if i < pos {
            lemma_map_of_value(s, i);
            assert(key_lt(s[i].0, e.0));
        } else if i > pos {
            lemma_map_of_value(s, i - 1);
            assert(key_lt(e.0, s[pos].0));
            if pos < i - 1 {
                assert(key_lt(s[pos].0, s[i - 1].0));
            }
        }
    }
    assert(map_of(t) =~= m);
}

pub proof fn lemma_map_of_update(s: Seq<((usize, usize), u64)>, pos: int, e: ((usize, usize), u64))
    requires
        strictly_sorted_entries(s),
        0 <= pos < s.len(),
        s[pos].0 == e.0,
    ensures
        strictly_sorted_entries(s.update(pos, e)),
        map_of(s.update(pos, e)) == map_of(s).insert(e.0, e.1),
{
    let t = s.update(pos, e);
    assert forall|i: int, j: int| 0 <= i < j < t.len() implies key_lt(#[trigger] t[i].0, #[trigger] t[j].0) by {
        assert(key_lt(s[i].0, s[j].0));
    }
    lemma_map_of_dom(s);
    lemma_map_of_dom(t);
    let m = map_of(s).insert(e.0, e.1);
    assert forall|k: (usize, usize)| #[trigger] map_of(t).dom().contains(k) <==> m.dom().contains(k) by {
        if map_of(t).dom().contains(k) {
            let i = choose|i: int| 0 <= i < t.len() && #[trigger] t[i].0 == k;
            assert(s[i].0 == k);
        }
        if map_of(s).dom().contains(k) {
            let i = choose|i: int| 0 <= i < s.len() && #[trigger] s[i].0 == k;
            assert(t[i].0 == k);
        }
        if k == e.0 {
            assert(t[pos].0 == k);
        }
    }
    assert forall|k: (usize, usize)| #[trigger] map_of(t).dom().contains(k) implies map_of(t)[k] == m[k] by {
        let i = choose|i: int| 0 <= i < t.len() && #[trigger] t[i].0 == k;
        lemma_map_of_value(t, i);
        if i != pos {
            lemma_map_of_value(s, i);
        }
    }
    assert(map_of(t) =~= m);
}

pub proof fn lemma_map_of_remove(s: Seq<((usize, usize), u64)>, pos: int)
    requires
        strictly_sorted_entries(s),
        0 <= pos < s.len(),
    ensures
        strictly_sorted_entries(s.remove(pos)),
        map_of(s.remove(pos)) == map_of(s).remove(s[pos].0),
{
    let t = s.remove(pos);
    let e = s[pos];
    assert forall|i: int, j: int| 0 <= i < j < t.len() implies key_lt(#[trigger] t[i].0, #[trigger] t[j].0) by {
        let si = if i < pos { i } else { i + 1 };
        let sj = if j < pos { j } else { j + 1 };
        assert(t[i] == s[si]);
        assert(t[j] == s[sj]);
        assert(key_lt(s[si].0, s[sj].0));
    }
    lemma_map_of_dom(s);
    lemma_map_of_dom(t);
    let m = map_of(s).remove(e.0);
    assert forall|k: (usize, usize)| #[trigger] map_of(t).dom().contains(k) <==> m.dom().contains(k) by {
        if map_of(t).dom().contains(k) {
            let i = choose|i: int| 0 <= i < t.len() && #[trigger] t[i].0 == k;
            let si = if i < pos { i } else { i + 1 };
            assert(t[i] == s[si]);
            assert(s[si].0 == k);
            if si < pos {
                assert(key_lt(s[si].0, s[pos].0));
            } else {
                assert(key_lt(s[pos].0, s[si].0));
            }
        }
        if m.dom().contains(k) {
            let i = choose|i: int| 0 <= i < s.len() && #[trigger] s[i].0 == k;
            if i < pos {
                assert(t[i].0 == k);
            } else {
                assert(i != pos);
                assert(t[i - 1].0 == k);
            }
        }
    }
    assert forall|k: (usize, usize)| #[trigger] map_of(t).dom().contains(k) implies map_of(t)[k] == m[k] by {
        let i = choose|i: int| 0 <= i < t.len() && #[trigger] t[i].0 == k;
        let si = if i < pos { i } else { i + 1 };
        assert(t[i] == s[si]);
        lemma_map_of_value(t, i);
        lemma_map_of_value(s, si);
        if si < pos {
            assert(key_lt(s[si].0, s[pos].0));
        } else {
            assert(key_lt(s[pos].0, s[si].0));
        }
    }
    assert(map_of(t) =~= m);
}

/// Executable lexicographic comparison of edge keys.
pub fn key_less(x: (usize, usize), y: (usize, usize)) -> (r: bool)
    ensures
        r == key_lt(x, y),
{
    x.0 < y.0 || (x.0 == y.0 && x.1 < y.1)
}

/// Number of `true` entries.
pub open spec fn count_true(s: Seq<bool>) -> nat
    decreases s.len(),
{
    if s.len() == 0 {
        0
    } else {
        count_true(s.drop_last()) + if s.last() {
            1nat
        } else {
            0nat
        }
    }
}

pub proof fn lemma_count_true_le(s: Seq<bool>)
    ensures
        count_true(s) <= s.len(),
    decreases s.len(),
{
    if s.len() > 0 {
        lemma_count_true_le(s.drop_last());
    }
}

pub proof fn lemma_count_true_set(s: Seq<bool>, i: int)
    requires
        0 <= i < s.len(),
        !s[i],
    ensures
        count_true(s.update(i, true)) == count_true(s) + 1,
    decreases s.len(),
{
    let t = s.update(i, true);
    if i < s.len() - 1 {
        assert(t.drop_last() =~= s.drop_last().update(i, true));
        lemma_count_true_set(s.drop_last(), i);
    } else {
        assert(t.drop_last() =~= s.drop_last());
    }
}

/// A vector of `n` copies of `false`.
fn all_false(n: usize) -> (v: Vec<bool>)
    ensures
        v@.len() == n,
        forall|i: int| 0 <= i < n ==> !(#[trigger] v@[i]),
        count_true(v@) == 0,
{
    let mut v: Vec<bool> = Vec::new();
    let mut i: usize = 0;
    while i < n
        invariant
            i <= n,
            v@.len() == i,
            forall|j: int| 0 <= j < i ==> !(#[trigger] v@[j]),
            count_true(v@) == 0,
        decreases n - i,
    {
        proof {
            assert(v@.push(false).drop_last() =~= v@);
        }
        v.push(false);
        i = i + 1;
    }
    v
}

/// The agent ids of an adjacency list.
pub open spec fn ids(s: Seq<(usize, u64)>) -> Seq<usize> {
    s.map_values(|e: (usize, u64)| e.0)
}

/// `s` with every entry for neighbor `b` carrying weight `w`.
pub open spec fn reweight(s: Seq<(usize, u64)>, b: usize, w: u64) -> Seq<(usize, u64)> {
    s.map_values(|e: (usize, u64)| if e.0 == b { (b, w) } else { e })
}

/// No neighbor occurs twice in the adjacency list `s`.
pub open spec fn distinct_ids(s: Seq<(usize, u64)>) -> bool {
    forall|i: int, j: int| 0 <= i < j < s.len() ==> (#[trigger] s[i]).0 != (#[trigger] s[j]).0
}

/// The adjacency list `s` has an entry for neighbor `b`.
pub open spec fn has_id(s: Seq<(usize, u64)>, b: usize) -> bool {
    exists|j: int| 0 <= j < s.len() && #[trigger] s[j].0 == b
}

/// Position of the entry for neighbor `b` in `s` (meaningful where `has_id(s, b)`).
pub open spec fn id_index(s: Seq<(usize, u64)>, b: usize) -> int {
    choose|j: int| 0 <= j < s.len() && #[trigger] s[j].0 == b
}

/// `s` without its entry for neighbor `b`, where it has one.
pub open spec fn drop_id(s: Seq<(usize, u64)>, b: usize) -> Seq<(usize, u64)> {
    if has_id(s, b) {
        s.remove(id_index(s, b))
    } else {
        s
    }
}

/// In a list without repeated neighbors, the entry for `b` is the one at any
/// position that holds `b`, and dropping it leaves a list without `b` whose
/// neighbors are the other neighbors of `s`.
pub proof fn lemma_drop_id(s: Seq<(usize, u64)>, b: usize, j: int)
    requires
        distinct_ids(s),
        0 <= j < s.len(),
        s[j].0 == b,
    ensures
        has_id(s, b),
        id_index(s, b) == j,
        drop_id(s, b) == s.remove(j),
        distinct_ids(drop_id(s, b)),
        !has_id(drop_id(s, b), b),
        forall|i: int| 0 <= i < drop_id(s, b).len() ==> #[trigger] drop_id(s, b)[i] == (if i < j { s[i] } else { s[i + 1] }),
{
    assert(s[j].0 == b);
    let k = id_index(s, b);
    if k != j {
        if k < j {
            assert(s[k].0 != s[j].0);
        } else {
            assert(s[j].0 != s[k].0);
        }
    }
    let t = s.remove(j);
    assert forall|x: int, y: int| 0 <= x < y < t.len() implies (#[trigger] t[x]).0 != (#[trigger] t[y]).0 by {
        let xs = if x < j { x } else { x + 1 };
        let ys = if y < j { y } else { y + 1 };
        assert(t[x] == s[xs]);
        assert(t[y] == s[ys]);
        assert(s[xs].0 != s[ys].0);
    }
    if has_id(t, b) {
        let i = choose|i: int| 0 <= i < t.len() && #[trigger] t[i].0 == b;
        let si = if i < j { i } else { i + 1 };
        assert(t[i] == s[si]);
        if si < j {
            assert(s[si].0 != s[j].0);
        } else {
            assert(s[j].0 != s[si].0);
        }
    }
}

/// Some list of `comps` contains `x`.
pub open spec fn in_some(comps: Seq<Vec<usize>>, x: usize) -> bool {
    exists|c: int| 0 <= c < comps.len() && (#[trigger] comps[c])@.contains(x)
}

/// The first `len` agents other than `a`, in increasing order, each with the unit weight.
pub open spec fn others_prefix(a: int, len: nat) -> Seq<(usize, u64)> {
    Seq::new(len, |k: int| ((if k < a { k } else { k + 1 }) as usize, UNIT_WEIGHT))
}

/// Adjacency list of agent `a` in the path on `n` agents, restricted to the
/// edges `(k, k + 1)` with `k < m`.
pub open spec fn path_prefix_adj(a: int, m: int) -> Seq<(usize, u64)> {
    (if 0 < a <= m { seq![((a - 1) as usize, UNIT_WEIGHT)] } else { Seq::empty() }) + (if a < m {
        seq![((a + 1) as usize, UNIT_WEIGHT)]
    } else {
        Seq::empty()
    })
}

/// Adjacency list of agent `a` in the path on `n` agents.
pub open spec fn path_adj(n: nat, a: int) -> Seq<(usize, u64)> {
    path_prefix_adj(a, n - 1)
}

/// Adjacency list of agent `a` in the cycle on `n` agents.
pub open spec fn cycle_adj(n: nat, a: int) -> Seq<(usize, u64)> {
    if n > 2 && a == 0 {
        path_adj(n, a).push(((n - 1) as usize, UNIT_WEIGHT))
    } else if n > 2 && a == n - 1 {
        path_adj(n, a).push((0usize, UNIT_WEIGHT))
    } else {
        path_adj(n, a)
    }
}

/// `k` is an edge of the cycle on `n` agents.
pub open spec fn cycle_edge(n: nat, k: (usize, usize)) -> bool {
    (k.1 == k.0 + 1 && k.1 < n) || (n > 2 && k == (0usize, (n - 1) as usize))
}

/// The cycle on `n` agents (the path for `n <= 2`), with unit weights.
pub open spec fn cycle_view(n: nat) -> GraphView {
    GraphView {
        n,
        adj: Seq::new(n, |a: int| cycle_adj(n, a)),
        weights: Map::new(|k: (usize, usize)| cycle_edge(n, k), |k: (usize, usize)| UNIT_WEIGHT),
    }
}

/// Adjacency list of agent `a` in the star on `n` agents centered at 0.
pub open spec fn star_adj(n: nat, a: int) -> Seq<(usize, u64)> {
    if a == 0 {
        Seq::new((n - 1) as nat, |k: int| ((k + 1) as usize, UNIT_WEIGHT))
    } else {
        seq![(0usize, UNIT_WEIGHT)]
    }
}

/// Cell `(r2, c2)` comes before cell `(r, c)` in row-major order.
pub open spec fn cell_before(r2: int, c2: int, r: int, c: int) -> bool {
    r2 < r || (r2 == r && c2 < c)
}

/// Adjacency list of cell `(r2, c2)` of a `rows x cols` grid once the cells
/// before `(r, c)` have been joined to their right and lower neighbors.
pub open spec fn grid_partial_adj(rows: int, cols: int, r2: int, c2: int, r: int, c: int) -> Seq<(usize, u64)> {
    let idx = r2 * cols + c2;
    (if r2 > 0 && cell_before(r2 - 1, c2, r, c) {
        seq![((idx - cols) as usize, UNIT_WEIGHT)]
    } else {
        Seq::empty()
    }) + (if c2 > 0 && cell_before(r2, c2 - 1, r, c) {
        seq![((idx - 1) as usize, UNIT_WEIGHT)]
    } else {
        Seq::empty()
    }) + (if c2 + 1 < cols && cell_before(r2, c2, r, c) {
        seq![((idx + 1) as usize, UNIT_WEIGHT)]
    } else {
        Seq::empty()
    }) + (if r2 + 1 < rows && cell_before(r2, c2, r, c) {
        seq![((idx + cols) as usize, UNIT_WEIGHT)]
    } else {
        Seq::empty()
    })
}

/// Adjacency list of cell `(r, c)` of a `rows x cols` grid: the cells above,
/// to the left, to the right and below, in that order, where they exist.
pub open spec fn grid_adj(rows: int, cols: int, r: int, c: int) -> Seq<(usize, u64)> {
    grid_partial_adj(rows, cols, r, c, rows, 0)
}

/// `k` is the edge from cell `(r2, c2)` to its right or lower neighbor.
pub open spec fn grid_cell_edge(rows: int, cols: int, r2: int, c2: int, k: (usize, usize)) -> bool {
    let idx = r2 * cols + c2;
    ||| (c2 + 1 < cols && k.0 == idx && k.1 == idx + 1)
    ||| (r2 + 1 < rows && k.0 == idx && k.1 == idx + cols)
}

/// `k` is an edge of the `rows x cols` grid contributed by a cell before `(r, c)`.
pub open spec fn grid_edge_upto(rows: int, cols: int, k: (usize, usize), r: int, c: int) -> bool {
    exists|r2: int, c2: int|
        0 <= r2 < rows && 0 <= c2 < cols && cell_before(r2, c2, r, c) && #[trigger] grid_cell_edge(rows, cols, r2, c2, k)
}

proof fn lemma_cell_index(rows: int, cols: int, r: int, c: int)
    requires
        0 <= r < rows,
        0 <= c < cols,
    ensures
        0 <= r * cols + c < rows * cols,
        (r + 1) * cols == r * cols + cols,
{
    assert(0 <= r * cols) by (nonlinear_arith)
        requires
            0 <= r,
            0 <= cols,
    ;
    assert((r + 1) * cols == r * cols + cols) by (nonlinear_arith);
    assert((r + 1) * cols <= rows * cols) by (nonlinear_arith)
        requires
            r + 1 <= rows,
            0 <= cols,
    ;
}

proof fn lemma_cell_order(cols: int, r1: int, c1: int, r2: int, c2: int)
    requires
        0 <= r1,
        0 <= r2,
        0 <= c1 < cols,
        0 <= c2 < cols,
    ensures
        (r1 * cols + c1 < r2 * cols + c2) <==> cell_before(r1, c1, r2, c2),
        (r1 * cols + c1 == r2 * cols + c2) <==> (r1 == r2 && c1 == c2),
{
    if r1 < r2 {
        assert(r1 * cols + cols <= r2 * cols) by (nonlinear_arith)
            requires
                r1 < r2,
                0 <= cols,
        ;
    } else if r2 < r1 {
        assert(r2 * cols + cols <= r1 * cols) by (nonlinear_arith)
            requires
                r2 < r1,
                0 <= cols,
        ;
    }
}

/// The grid after joining cell `(r, c)` to its right and lower neighbors.
pub open spec fn grid_step(g: GraphView, rows: int, cols: int, r: int, c: int) -> GraphView {
    let u = (r * cols + c) as usize;
    let g1 = if c + 1 < cols {
        g.add_edge(u, (u + 1) as usize, UNIT_WEIGHT)
    } else {
        g
    };
    if r + 1 < rows {
        g1.add_edge(u, (u + cols) as usize, UNIT_WEIGHT)
    } else {
        g1
    }
}

/// Before cell `(rr, cc)` is joined to its neighbors, every edge starts at
/// an earlier cell.
proof fn lemma_grid_fresh(g0: GraphView, nr: int, nc: int, rr: int, cc: int)
    requires
        0 <= rr < nr,
        0 <= cc < nc,
        forall|k: (usize, usize)| #[trigger] g0.weights.dom().contains(k) <==> grid_edge_upto(nr, nc, k, rr, cc),
    ensures
        forall|k: (usize, usize)| #[trigger] g0.weights.dom().contains(k) ==> k.0 < rr * nc + cc,
{
    assert forall|k: (usize, usize)| #[trigger] g0.weights.dom().contains(k) implies k.0 < rr * nc + cc by {
        let (r2, c2) = choose|r2: int, c2: int|
            0 <= r2 < nr && 0 <= c2 < nc && cell_before(r2, c2, rr, cc) && #[trigger] grid_cell_edge(nr, nc, r2, c2, k);
        lemma_cell_order(nc, r2, c2, rr, cc);
    }
}

#[verifier::rlimit(30)]
proof fn lemma_grid_adj_step(g0: GraphView, g: GraphView, nr: int, nc: int, rr: int, cc: int)
    requires
        0 <= rr < nr,
        0 <= cc < nc,
        nr * nc <= usize::MAX,
        g0.adj.len() == nr * nc,
        g == grid_step(g0, nr, nc, rr, cc),
        forall|k: (usize, usize)| #[trigger] g0.weights.dom().contains(k) <==> grid_edge_upto(nr, nc, k, rr, cc),
        forall|r2: int, c2: int|
            0 <= r2 < nr && 0 <= c2 < nc ==> #[trigger] g0.adj[r2 * nc + c2] == grid_partial_adj(nr, nc, r2, c2, rr, cc),
    ensures
        forall|r2: int, c2: int|
            0 <= r2 < nr && 0 <= c2 < nc ==> #[trigger] g.adj[r2 * nc + c2] == grid_partial_adj(nr, nc, r2, c2, rr, cc + 1),
{
    lemma_cell_index(nr, nc, rr, cc);
    if rr + 1 < nr {
        lemma_cell_index(nr, nc, rr + 1, cc);
    }
    let u = rr * nc + cc;
    lemma_grid_fresh(g0, nr, nc, rr, cc);
    let uu = u as usize;
    let g1 = if cc + 1 < nc { g0.add_edge(uu, (uu + 1) as usize, UNIT_WEIGHT) } else { g0 };
    if cc + 1 < nc {
        assert(!g0.weights.dom().contains(edge_key(uu, (uu + 1) as usize)));
    }
    if rr + 1 < nr {
        assert(!g0.weights.dom().contains(edge_key(uu, (uu + nc) as usize)));
        assert(!g1.weights.dom().contains(edge_key(uu, (uu + nc) as usize)));
    }
    assert forall|r2: int, c2: int|
        0 <= r2 < nr && 0 <= c2 < nc implies #[trigger] g.adj[r2 * nc + c2] == grid_partial_adj(nr, nc, r2, c2, rr, cc + 1) by {
        lemma_cell_index(nr, nc, r2, c2);
        let a = r2 * nc + c2;
        lemma_cell_order(nc, r2, c2, rr, cc);
        if a == u {
            assert(g.adj[a] =~= grid_partial_adj(nr, nc, r2, c2, rr, cc + 1));
        } else if cc + 1 < nc && a == u + 1 {
            lemma_cell_order(nc, r2, c2, rr, cc + 1);
            assert(g.adj[a] =~= grid_partial_adj(nr, nc, r2, c2, rr, cc + 1));
        } else if rr + 1 < nr && a == u + nc {
            lemma_cell_order(nc, r2, c2, rr + 1, cc);
            assert(g.adj[a] =~= grid_partial_adj(nr, nc, r2, c2, rr, cc + 1));
        } else {
            assert(g.adj[a] == g0.adj[a]);
            if r2 > 0 {
                lemma_cell_index(nr, nc, r2 - 1, c2);
                lemma_cell_order(nc, r2 - 1, c2, rr, cc);
                if r2 - 1 == rr && c2 == cc {
                    assert(a == u + nc);
                }
            }
            if c2 > 0 {
                lemma_cell_order(nc, r2, c2 - 1, rr, cc);
            }
            assert(g.adj[a] =~= grid_partial_adj(nr, nc, r2, c2, rr, cc + 1));
        }
    }
}

proof fn lemma_grid_weights_step(g0: GraphView, g: GraphView, nr: int, nc: int, rr: int, cc: int)
    requires
        0 <= rr < nr,
        0 <= cc < nc,
        nr * nc <= usize::MAX,
        g == grid_step(g0, nr, nc, rr, cc),
        forall|k: (usize, usize)| #[trigger] g0.weights.dom().contains(k) <==> grid_edge_upto(nr, nc, k, rr, cc),
        forall|k: (usize, usize)| #[trigger] g0.weights.dom().contains(k) ==> g0.weights[k] == UNIT_WEIGHT,
    ensures
        forall|k: (usize, usize)| #[trigger] g.weights.dom().contains(k) <==> grid_edge_upto(nr, nc, k, rr, cc + 1),
        forall|k: (usize, usize)| #[trigger] g.weights.dom().contains(k) ==> g.weights[k] == UNIT_WEIGHT,
{
    lemma_cell_index(nr, nc, rr, cc);
    if rr + 1 < nr {
        lemma_cell_index(nr, nc, rr + 1, cc);
    }
    assert forall|k: (usize, usize)| #[trigger] g.weights.dom().contains(k) <==> grid_edge_upto(nr, nc, k, rr, cc + 1) by {
        if g.weights.dom().contains(k) {
            if g0.weights.dom().contains(k) {
                let (r2, c2) = choose|r2: int, c2: int|
                    0 <= r2 < nr && 0 <= c2 < nc && cell_before(r2, c2, rr, cc) && #[trigger] grid_cell_edge(nr, nc, r2, c2, k);
                assert(cell_before(r2, c2, rr, cc + 1));
            } else {
                assert(grid_cell_edge(nr, nc, rr, cc, k));
            }
        }
        if grid_edge_upto(nr, nc, k, rr, cc + 1) {
            let (r2, c2) = choose|r2: int, c2: int|
                0 <= r2 < nr && 0 <= c2 < nc && cell_before(r2, c2, rr, cc + 1) && #[trigger] grid_cell_edge(nr, nc, r2, c2, k);
            if r2 == rr && c2 == cc {
            } else {
                assert(grid_edge_upto(nr, nc, k, rr, cc));
            }
        }
    }
}

/// The cycle (and the path) on `n` agents is connected: every agent can be
/// reached from agent 0.
pub proof fn lemma_cycle_connected(n: nat, x: usize)
    requires
        x < n,
    ensures
        cycle_view(n).reachable(0, x),
{
    let c = cycle_view(n);
    assert forall|k: usize| k < usize::MAX && k + 1 < c.n implies #[trigger] c.adjacent(k, (k + 1) as usize) by {
        assert(edge_key(k, (k + 1) as usize) == (k, (k + 1) as usize));
        assert(cycle_edge(n, edge_key(k, (k + 1) as usize)));
    }
    c.lemma_chain_reaches(x);
}

/// State of a depth-first exploration: which agents have been seen, the
/// stack of agents still to visit, and the agents visited so far, in order.
pub struct DfsState {
    pub visited: Seq<bool>,
    pub stack: Seq<usize>,
    pub order: Seq<usize>,
}

/// Push onto `stack`, in list order, each agent of `nbrs` not yet seen,
/// marking it seen.
pub open spec fn push_unseen(visited: Seq<bool>, stack: Seq<usize>, nbrs: Seq<(usize, u64)>) -> (Seq<bool>, Seq<usize>)
    decreases nbrs.len(),
{
    if nbrs.len() == 0 {
        (visited, stack)
    } else {
        let (v, st) = push_unseen(visited, stack, nbrs.drop_last());
        let x = nbrs.last().0;
        if v[x as int] {
            (v, st)
        } else {
            (v.update(x as int, true), st.push(x))
        }
    }
}

/// One step of the exploration: pop the agent on top of the stack, visit it,
/// and push its unseen neighbors in adjacency-list order.
pub open spec fn dfs_step(g: GraphView, s: DfsState) -> DfsState {
    let u = s.stack.last();
    let (v, st) = push_unseen(s.visited, s.stack.drop_last(), g.nbrs(u));
    DfsState { visited: v, stack: st, order: s.order.push(u) }
}

/// At most `fuel` steps of the exploration, stopping once the stack is empty.
pub open spec fn dfs_run(g: GraphView, s: DfsState, fuel: nat) -> DfsState
    decreases fuel,
{
    if fuel == 0 || s.stack.len() == 0 {
        s
    } else {
        dfs_run(g, dfs_step(g, s), (fuel - 1) as nat)
    }
}

/// The agents that a depth-first exploration from `start` visits, in order,
/// when the agents marked in `visited` count as seen already (`2 n + 1`
/// steps are more than the exploration takes).
pub open spec fn dfs_order(g: GraphView, visited: Seq<bool>, start: usize) -> Seq<usize> {
    dfs_run(
        g,
        DfsState { visited: visited.update(start as int, true), stack: seq![start], order: Seq::empty() },
        2 * g.n + 1,
    ).order
}

/// Abstract state of an agent graph.
pub struct GraphView {
    /// Number of agents; the agents are `0..n`.
    pub n: nat,
    /// For each agent, its adjacency list: each neighbor once, in the order
    /// the edges were first added, with the edge's latest weight.
    pub adj: Seq<Seq<(usize, u64)>>,
    /// Edge weights, keyed by the sorted pair of endpoints.
    pub weights: Map<(usize, usize), u64>,
}

impl GraphView {
    /// `a` and `b` are joined by an edge.
    pub open spec fn adjacent(self, a: usize, b: usize) -> bool {
        self.weights.dom().contains(edge_key(a, b))
    }

    /// The adjacency list of `a` mentions `b`.
    pub open spec fn lists(self, a: usize, b: usize) -> bool {
        exists|i: int| 0 <= i < self.adj[a as int].len() && #[trigger] self.adj[a as int][i].0 == b
    }

    /// The adjacency list of `a` (empty for an id that is not an agent).
    pub open spec fn nbrs(self, a: usize) -> Seq<(usize, u64)> {
        if a < self.n {
            self.adj[a as int]
        } else {
            Seq::empty()
        }
    }

    /// Well-formedness: the adjacency lists and the weight map describe the
    /// same undirected, loop-free graph on `0..n`.
    pub open spec fn wf(self) -> bool {
        &&& self.adj.len() == self.n
        &&& self.weights.dom().finite()
        &&& forall|k: (usize, usize)|
            #[trigger] self.weights.dom().contains(k) ==> {
                &&& k.0 < k.1 < self.n
                &&& self.lists(k.0, k.1)
                &&& self.lists(k.1, k.0)
            }
        &&& forall|a: int, i: int|
            0 <= a < self.n && 0 <= i < self.adj[a].len() ==> {
                &&& (#[trigger] self.adj[a][i]).0 < self.n
                &&& self.adj[a][i].0 != a
                &&& self.weights.dom().contains(edge_key(a as usize, self.adj[a][i].0))
            }
        &&& forall|a: int| 0 <= a < self.n ==> distinct_ids(#[trigger] self.adj[a])
    }

    /// Consecutive vertices `p[i]` and `p[i + 1]` are adjacent.
    pub open spec fn path_step(self, p: Seq<usize>, i: int) -> bool {
        self.adjacent(p[i], p[i + 1])
    }

    /// `p` is a walk: a nonempty sequence of vertices, each adjacent to the next.
    pub open spec fn is_walk(self, p: Seq<usize>) -> bool {
        p.len() > 0 && forall|i: int| 0 <= i < p.len() - 1 ==> #[trigger] self.path_step(p, i)
    }

    /// `p` is a walk from `a` to `x` along at most `k` edges.
    pub open spec fn walk_within(self, p: Seq<usize>, a: usize, x: usize, k: nat) -> bool {
        self.is_walk(p) && p[0] == a && p.last() == x && p.len() <= k + 1
    }

    /// `x` can be reached from `a` along at most `k` edges.
    pub open spec fn within(self, a: usize, x: usize, k: nat) -> bool {
        exists|p: Seq<usize>| #[trigger] self.walk_within(p, a, x, k)
    }

    /// `x` can be reached from `a` at all.
    pub open spec fn reachable(self, a: usize, x: usize) -> bool {
        exists|k: nat| #[trigger] self.within(a, x, k)
    }

    /// `d` is the length of a shortest path from `a` to `b`.
    pub open spec fn is_shortest(self, a: usize, b: usize, d: nat) -> bool {
        self.within(a, b, d) && (d == 0 || !self.within(a, b, (d - 1) as nat))
    }

    /// Within zero steps of `a` lies `a` alone.
    pub proof fn lemma_within_zero(self, a: usize, x: usize)
        ensures
            self.within(a, x, 0) <==> x == a,
            self.within(a, a, 0),
    {
        assert(self.walk_within(seq![a], a, a, 0));
    }

    /// One more step: a neighbor of a vertex within `k` is within `k + 1`.
    pub proof fn lemma_within_extend(self, a: usize, u: usize, x: usize, k: nat)
        requires
            self.within(a, u, k),
            self.adjacent(u, x),
        ensures
            self.within(a, x, k + 1),
    {
        let p = choose|p: Seq<usize>| #[trigger] self.walk_within(p, a, u, k);
        let q = p.push(x);
        assert forall|i: int| 0 <= i < q.len() - 1 implies #[trigger] self.path_step(q, i) by {
            if i < p.len() - 1 {
                assert(self.path_step(p, i));
            }
        }
        assert(self.walk_within(q, a, x, k + 1));
    }

    /// A vertex within `k + 1` other than `a` has a neighbor within `k`.
    pub proof fn lemma_within_pred(self, a: usize, x: usize, k: nat) -> (u: usize)
        requires
            self.within(a, x, k + 1),
            x != a,
        ensures
            self.within(a, u, k),
            self.adjacent(u, x),
    {
        let p = choose|p: Seq<usize>| #[trigger] self.walk_within(p, a, x, k + 1);
        let q = p.drop_last();
        assert(p.len() >= 2);
        assert forall|i: int| 0 <= i < q.len() - 1 implies #[trigger] self.path_step(q, i) by {
            assert(self.path_step(p, i));
        }
        assert(self.walk_within(q, a, q.last(), k));
        assert(self.path_step(p, p.len() - 2));
        q.last()
    }

    /// Reachability within `j` steps implies reachability within any `k >= j` steps.
    pub proof fn lemma_within_mono(self, a: usize, x: usize, j: nat, k: nat)
        requires
            self.within(a, x, j),
            j <= k,
        ensures
            self.within(a, x, k),
    {
        let p = choose|p: Seq<usize>| #[trigger] self.walk_within(p, a, x, j);
        assert(self.walk_within(p, a, x, k));
    }

    /// Reachability within `k` steps is monotone in `k`.
    pub proof fn lemma_within_step(self, a: usize, x: usize, k: nat)
        requires
            self.within(a, x, k),
        ensures
            self.within(a, x, k + 1),
    {
        self.lemma_within_mono(a, x, k, k + 1);
    }

    /// Only agents are reachable from an agent.
    pub proof fn lemma_within_agent(self, a: usize, x: usize, k: nat)
        requires
            self.wf(),
            a < self.n,
            self.within(a, x, k),
        ensures
            x < self.n,
    {
        if x != a {
            let p = choose|p: Seq<usize>| #[trigger] self.walk_within(p, a, x, k);
            assert(self.path_step(p, p.len() - 2));
            assert(self.weights.dom().contains(edge_key(p[p.len() - 2], x)));
        }
    }

    /// Adjacency is symmetric.
    pub proof fn lemma_adjacent_symmetric(self, a: usize, b: usize)
        ensures
            self.adjacent(a, b) == self.adjacent(b, a),
    {
        assert(edge_key(a, b) == edge_key(b, a) || a == b);
    }

    /// In a well-formed graph, each entry of an adjacency list is an edge.
    pub proof fn lemma_entry_adjacent(self, u: usize, i: int)
        requires
            self.wf(),
            u < self.n,
            0 <= i < self.adj[u as int].len(),
        ensures
            self.adjacent(u, self.adj[u as int][i].0),
            self.adj[u as int][i].0 < self.n,
            self.adj[u as int][i].0 != u,
    {
        assert(self.adj[u as int][i] == self.adj[u as int][i]);
    }

    /// In a well-formed graph, adjacency lists mention agents other than their owner.
    pub proof fn lemma_wf_ids(self, a: usize)
        requires
            self.wf(),
        ensures
            forall|k: int| 0 <= k < ids(self.nbrs(a)).len() ==> #[trigger] ids(self.nbrs(a))[k] < self.n && ids(self.nbrs(a))[k] != a,
    {
        assert forall|k: int| 0 <= k < ids(self.nbrs(a)).len() implies #[trigger] ids(self.nbrs(a))[k] < self.n && ids(self.nbrs(a))[k] != a by {
            self.lemma_entry_adjacent(a, k);
        }
    }

    /// In a well-formed graph, each edge is listed in both adjacency lists.
    pub proof fn lemma_adjacent_listed(self, u: usize, v: usize)
        requires
            self.wf(),
            self.adjacent(u, v),
        ensures
            u < self.n,
            v < self.n,
            u != v,
            self.lists(u, v),
            self.lists(v, u),
    {
        assert(self.weights.dom().contains(edge_key(u, v)));
    }

    /// If the ball of radius `l` around `a` does not grow, no farther agent is reachable.
    pub proof fn lemma_within_stable(self, a: usize, l: nat, x: usize, k: nat)
        requires
            forall|y: usize| #[trigger] self.within(a, y, l + 1) ==> self.within(a, y, l),
            self.within(a, x, k),
        ensures
            self.within(a, x, l),
        decreases k,
    {
        if k <= l {
            self.lemma_within_mono(a, x, k, l);
        } else if x != a {
            let u = self.lemma_within_pred(a, x, (k - 1) as nat);
            self.lemma_within_stable(a, l, u, (k - 1) as nat);
            self.lemma_within_extend(a, u, x, l);
        } else {
            self.lemma_within_zero(a, a);
            self.lemma_within_mono(a, a, 0, l);
        }
    }

    /// A vertex has at most one shortest-path length from `a`.
    pub proof fn lemma_shortest_unique(self, a: usize, b: usize, d1: nat, d2: nat)
        requires
            self.is_shortest(a, b, d1),
            self.is_shortest(a, b, d2),
        ensures
            d1 == d2,
    {
        if d1 < d2 {
            self.lemma_within_mono(a, b, d1, (d2 - 1) as nat);
        } else if d2 < d1 {
            self.lemma_within_mono(a, b, d2, (d1 - 1) as nat);
        }
    }

    /// A list of vertices that contains `a` and every neighbor of each of its
    /// vertices contains everything reachable from `a`.
    pub proof fn lemma_closed_contains(self, s: Seq<usize>, a: usize, x: usize, k: nat)
        requires
            s.contains(a),
            forall|i: int, y: usize| 0 <= i < s.len() && #[trigger] self.adjacent(s[i], y) ==> s.contains(y),
            self.within(a, x, k),
        ensures
            s.contains(x),
        decreases k,
    {
        if x != a {
            if k == 0 {
                self.lemma_within_zero(a, x);
            } else {
                let u = self.lemma_within_pred(a, x, (k - 1) as nat);
                self.lemma_closed_contains(s, a, u, (k - 1) as nat);
                let i = choose|i: int| 0 <= i < s.len() && s[i] == u;
                assert(self.adjacent(s[i], x));
            }
        }
    }

    /// Reachability is symmetric.
    pub proof fn lemma_reachable_symmetric_k(self, a: usize, x: usize, k: nat)
        requires
            self.within(a, x, k),
        ensures
            self.within(x, a, k),
    {
        let p = choose|p: Seq<usize>| #[trigger] self.walk_within(p, a, x, k);
        let q = p.reverse();
        assert forall|i: int| 0 <= i < q.len() - 1 implies #[trigger] self.path_step(q, i) by {
            let j = p.len() - 2 - i;
            assert(self.path_step(p, j));
            self.lemma_adjacent_symmetric(p[j], p[j + 1]);
        }
        assert(self.walk_within(q, x, a, k));
    }

    /// Reading back a written edge: after `add_edge(a, b, w)` with `a != b`,
    /// `a` and `b` are adjacent (in both orders) with weight `w`, and every
    /// other edge keeps its presence and weight.
    pub proof fn lemma_add_edge_read(self, a: usize, b: usize, w: u64)
        requires
            a != b,
        ensures
            self.add_edge(a, b, w).adjacent(a, b),
            self.add_edge(a, b, w).adjacent(b, a),
            self.add_edge(a, b, w).weights[edge_key(a, b)] == w,
            self.add_edge(a, b, w).weights[edge_key(b, a)] == w,
            forall|k: (usize, usize)|
                k != edge_key(a, b) ==> (#[trigger] self.add_edge(a, b, w).weights.dom().contains(k)
                    == self.weights.dom().contains(k)),
            forall|k: (usize, usize)|
                k != edge_key(a, b) && self.weights.dom().contains(k) ==> #[trigger] self.add_edge(a, b, w).weights[k]
                    == self.weights[k],
    {
        assert(edge_key(a, b) == edge_key(b, a));
    }

    /// Adding an edge keeps the agents and every existing edge.
    pub proof fn lemma_add_edge_grows(self, a: usize, b: usize, w: u64)
        ensures
            self.add_edge(a, b, w).n == self.n,
            self.weights.dom().subset_of(self.add_edge(a, b, w).weights.dom()),
    {
    }

    /// Shortest-path distance is symmetric.
    pub proof fn lemma_shortest_symmetric(self, a: usize, b: usize, d: nat)
        requires
            self.is_shortest(a, b, d),
        ensures
            self.is_shortest(b, a, d),
    {
        self.lemma_reachable_symmetric_k(a, b, d);
        if d > 0 && self.within(b, a, (d - 1) as nat) {
            self.lemma_reachable_symmetric_k(b, a, (d - 1) as nat);
        }
    }

    /// Reachability survives adding edges: a walk in `self` is a walk in any
    /// graph with at least its edges.
    pub proof fn lemma_within_supergraph(self, h: GraphView, a: usize, x: usize, k: nat)
        requires
            self.weights.dom().subset_of(h.weights.dom()),
            self.within(a, x, k),
        ensures
            h.within(a, x, k),
    {
        let p = choose|p: Seq<usize>| #[trigger] self.walk_within(p, a, x, k);
        assert forall|i: int| 0 <= i < p.len() - 1 implies #[trigger] h.path_step(p, i) by {
            assert(self.path_step(p, i));
        }
        assert(h.walk_within(p, a, x, k));
    }

    /// In a graph where every two distinct agents are adjacent, every two
    /// distinct agents are at distance 1, and an agent is at distance 0 from itself.
    pub proof fn lemma_complete_distances(self, a: usize, b: usize)
        requires
            forall|k: (usize, usize)| #[trigger] self.weights.dom().contains(k) <==> k.0 < k.1 < self.n,
            a < self.n,
            b < self.n,
        ensures
            self.is_shortest(a, b, if a == b { 0 } else { 1 }),
    {
        self.lemma_within_zero(a, b);
        if a != b {
            self.lemma_within_zero(a, a);
            assert(self.weights.dom().contains(edge_key(a, b)));
            self.lemma_within_extend(a, a, b, 0);
        }
    }

    /// Along a chain of edges `k -- k + 1` for all `k + 1 < n`, every agent
    /// `x < n` can be reached from agent 0 in `x` steps.
    pub proof fn lemma_chain_reaches(self, x: usize)
        requires
            forall|k: usize| k < usize::MAX && k + 1 < self.n ==> #[trigger] self.adjacent(k, (k + 1) as usize),
            x < self.n,
        ensures
            self.within(0, x, x as nat),
        decreases x,
    {
        if x == 0 {
            self.lemma_within_zero(0, 0);
        } else {
            self.lemma_chain_reaches((x - 1) as usize);
            assert(self.adjacent((x - 1) as usize, (((x - 1) as usize) + 1) as usize));
            self.lemma_within_extend(0, (x - 1) as usize, x, (x - 1) as nat);
        }
    }

    /// `comps` lists the connected components: each is a nonempty list of
    /// distinct agents that starts with its smallest agent and holds exactly
    /// the agents reachable from that first agent; the lists are disjoint,
    /// cover all agents, and are ordered by their first agents.
    pub open spec fn is_component_list(self, comps: Seq<Vec<usize>>) -> bool {
        &&& forall|c: int| 0 <= c < comps.len() ==> (#[trigger] comps[c])@.len() > 0
        &&& forall|c: int, i: int|
            0 <= c < comps.len() && 0 <= i < comps[c]@.len() ==> {
                &&& (#[trigger] comps[c]@[i]) < self.n
                &&& comps[c]@[0] <= comps[c]@[i]
                &&& self.reachable(comps[c]@[0], comps[c]@[i])
            }
        &&& forall|c: int, x: usize|
            0 <= c < comps.len() && #[trigger] self.reachable(comps[c]@[0], x) ==> comps[c]@.contains(x)
        &&& forall|x: usize| x < self.n ==> #[trigger] in_some(comps, x)
        &&& forall|c1: int, c2: int| 0 <= c1 < c2 < comps.len() ==> (#[trigger] comps[c1])@[0] < (#[trigger] comps[c2])@[0]
        &&& forall|c: int, i: int, j: int|
            0 <= c < comps.len() && 0 <= i < j < comps[c]@.len() ==> (#[trigger] comps[c]@[i]) != (#[trigger] comps[c]@[j])
        &&& forall|c1: int, c2: int, i: int, j: int|
            0 <= c1 < comps.len() && 0 <= c2 < comps.len() && c1 != c2 && 0 <= i < comps[c1]@.len() && 0 <= j < comps[c2]@.len()
                ==> (#[trigger] comps[c1]@[i]) != (#[trigger] comps[c2]@[j])
    }

    /// Reachability is transitive: steps add up along a chain of walks.
    pub proof fn lemma_within_trans(self, a: usize, b: usize, c: usize, k1: nat, k2: nat)
        requires
            self.within(a, b, k1),
            self.within(b, c, k2),
        ensures
            self.within(a, c, k1 + k2),
        decreases k2,
    {
        if c == b {
            self.lemma_within_mono(a, c, k1, k1 + k2);
        } else if k2 == 0 {
            self.lemma_within_zero(b, c);
        } else {
            let u = self.lemma_within_pred(b, c, (k2 - 1) as nat);
            self.lemma_within_trans(a, b, u, k1, (k2 - 1) as nat);
            self.lemma_within_extend(a, u, c, (k1 + k2 - 1) as nat);
        }
    }

    /// An agent that can be reached can be reached by a shortest path.
    pub proof fn lemma_reachable_shortest(self, a: usize, b: usize, k: nat)
        requires
            self.within(a, b, k),
        ensures
            exists|d: nat| #[trigger] self.is_shortest(a, b, d),
        decreases k,
    {
        if k == 0 || !self.within(a, b, (k - 1) as nat) {
            assert(self.is_shortest(a, b, k));
        } else {
            self.lemma_reachable_shortest(a, b, (k - 1) as nat);
        }
    }

    /// Given a listing of the connected components, two agents lie in one
    /// listed component exactly when one can be reached from the other, which
    /// is exactly when a shortest path joins them (when `distance` gives
    /// `Some`).
    pub proof fn lemma_same_component_iff_reachable(self, comps: Seq<Vec<usize>>, x: usize, y: usize)
        requires
            self.is_component_list(comps),
            x < self.n,
            y < self.n,
        ensures
            (exists|c: int| 0 <= c < comps.len() && (#[trigger] comps[c])@.contains(x) && comps[c]@.contains(y))
                <==> self.reachable(x, y),
            self.reachable(x, y) <==> exists|d: nat| #[trigger] self.is_shortest(x, y, d),
    {
        if exists|c: int| 0 <= c < comps.len() && (#[trigger] comps[c])@.contains(x) && comps[c]@.contains(y) {
            let c = choose|c: int| 0 <= c < comps.len() && (#[trigger] comps[c])@.contains(x) && comps[c]@.contains(y);
            let i = choose|i: int| 0 <= i < comps[c]@.len() && comps[c]@[i] == x;
            let j = choose|j: int| 0 <= j < comps[c]@.len() && comps[c]@[j] == y;
            let f = comps[c]@[0];
            assert(self.reachable(f, comps[c]@[i]));
            assert(self.reachable(f, comps[c]@[j]));
            let kx = choose|k: nat| #[trigger] self.within(f, x, k);
            let ky = choose|k: nat| #[trigger] self.within(f, y, k);
            self.lemma_reachable_symmetric_k(f, x, kx);
            self.lemma_within_trans(x, f, y, kx, ky);
        }
        if self.reachable(x, y) {
            assert(in_some(comps, x));
            let c = choose|c: int| 0 <= c < comps.len() && (#[trigger] comps[c])@.contains(x);
            let i = choose|i: int| 0 <= i < comps[c]@.len() && comps[c]@[i] == x;
            let f = comps[c]@[0];
            assert(self.reachable(f, comps[c]@[i]));
            let kx = choose|k: nat| #[trigger] self.within(f, x, k);
            let ky = choose|k: nat| #[trigger] self.within(x, y, k);
            self.lemma_within_trans(f, x, y, kx, ky);
            assert(self.reachable(f, y));
            assert(comps[c]@.contains(y));
            self.lemma_reachable_shortest(x, y, ky);
        }
    }

    /// A graph in which every agent can be reached from agent 0 has exactly
    /// one connected component.
    pub proof fn lemma_connected_one_component(self, comps: Seq<Vec<usize>>)
        requires
            self.n > 0,
            self.is_component_list(comps),
            forall|x: usize| x < self.n ==> #[trigger] self.reachable(0, x),
        ensures
            comps.len() == 1,
    {
        assert(in_some(comps, 0));
        let c0 = choose|c: int| 0 <= c < comps.len() && (#[trigger] comps[c])@.contains(0usize);
        if comps.len() != 1 {
            let c1: int = if c0 == 0 { 1 } else { 0 };
            let f = comps[c1]@[0];
            assert(f < self.n);
            assert(self.reachable(0, f));
            let k = choose|k: nat| #[trigger] self.within(0, f, k);
            self.lemma_reachable_symmetric_k(0, f, k);
            assert(self.reachable(f, 0));
            assert(comps[c1]@.contains(0usize));
            let i = choose|i: int| 0 <= i < comps[c1]@.len() && comps[c1]@[i] == 0usize;
            let j = choose|j: int| 0 <= j < comps[c0]@.len() && comps[c0]@[j] == 0usize;
            assert(comps[c1]@[i] == comps[c0]@[j]);
        }
    }

    /// The graph after `add_edge(a, b, w)`: a self-loop changes nothing; an
    /// existing edge gets weight `w`, in the weight map and in both adjacency
    /// lists; a new edge is appended to both adjacency lists.
    pub open spec fn add_edge(self, a: usize, b: usize, w: u64) -> GraphView {
        if a == b {
            self
        } else if self.adjacent(a, b) {
            GraphView {
                n: self.n,
                adj: self.adj.update(a as int, reweight(self.adj[a as int], b, w)).update(
                    b as int,
                    reweight(self.adj[b as int], a, w),
                ),
                weights: self.weights.insert(edge_key(a, b), w),
            }
        } else {
            GraphView {
                n: self.n,
                adj: self.adj.update(a as int, self.adj[a as int].push((b, w))).update(
                    b as int,
                    self.adj[b as int].push((a, w)),
                ),
                weights: self.weights.insert(edge_key(a, b), w),
            }
        }
    }

    /// The graph after `remove_edge(a, b)`: the edge leaves the weight map and
    /// each endpoint leaves the other's adjacency list; without such an edge
    /// nothing changes.
    pub open spec fn remove_edge(self, a: usize, b: usize) -> GraphView {
        if self.adjacent(a, b) {
            GraphView {
                n: self.n,
                adj: self.adj.update(a as int, drop_id(self.adj[a as int], b)).update(
                    b as int,
                    drop_id(self.adj[b as int], a),
                ),
                weights: self.weights.remove(edge_key(a, b)),
            }
        } else {
            self
        }
    }

    /// Removing a newly added edge gives the graph back as it was.
    pub proof fn lemma_remove_undoes_add(self, a: usize, b: usize, w: u64)
        requires
            self.wf(),
            a < self.n,
            b < self.n,
            a != b,
            !self.adjacent(a, b),
        ensures
            self.add_edge(a, b, w).remove_edge(a, b) == self,
    {
        let h = self.add_edge(a, b, w);
        let k = edge_key(a, b);
        assert(h.adjacent(a, b));
        lemma_push_new_id(self, a, b, w);
        lemma_push_new_id(self, b, a, w);
        let sa = self.adj[a as int].push((b, w));
        let sb = self.adj[b as int].push((a, w));
        lemma_drop_id(sa, b, sa.len() - 1);
        lemma_drop_id(sb, a, sb.len() - 1);
        assert(sa.remove(sa.len() - 1) =~= self.adj[a as int]);
        assert(sb.remove(sb.len() - 1) =~= self.adj[b as int]);
        let r = h.remove_edge(a, b);
        assert(r.adj =~= self.adj);
        assert(r.weights =~= self.weights);
    }

    /// Adding an edge twice is adding it once with the second weight: the
    /// graph stays simple.
    pub proof fn lemma_add_twice(self, a: usize, b: usize, w1: u64, w2: u64)
        requires
            self.wf(),
            a < self.n,
            b < self.n,
        ensures
            self.add_edge(a, b, w1).add_edge(a, b, w2) == self.add_edge(a, b, w2),
    {
        if a != b {
            let h = self.add_edge(a, b, w1);
            assert(h.adjacent(a, b));
            if self.adjacent(a, b) {
                assert(reweight(reweight(self.adj[a as int], b, w1), b, w2) =~= reweight(self.adj[a as int], b, w2));
                assert(reweight(reweight(self.adj[b as int], a, w1), a, w2) =~= reweight(self.adj[b as int], a, w2));
            } else {
                lemma_push_new_id(self, a, b, w1);
                lemma_push_new_id(self, b, a, w1);
                assert(reweight(self.adj[a as int].push((b, w1)), b, w2) =~= self.adj[a as int].push((b, w2)));
                assert(reweight(self.adj[b as int].push((a, w1)), a, w2) =~= self.adj[b as int].push((a, w2)));
            }
            assert(h.add_edge(a, b, w2).adj =~= self.add_edge(a, b, w2).adj);
            assert(h.add_edge(a, b, w2).weights =~= self.add_edge(a, b, w2).weights);
        }
    }

    /// Each agent's adjacency list names each of its neighbors exactly once,
    /// so the degree of `x` is the number of agents adjacent to `x`.
    pub proof fn lemma_degree_counts_neighbors(self, x: usize)
        requires
            self.wf(),
            x < self.n,
        ensures
            ids(self.nbrs(x)).no_duplicates(),
            ids(self.nbrs(x)).to_set() == Set::new(|y: usize| self.adjacent(x, y)),
            self.nbrs(x).len() == Set::new(|y: usize| self.adjacent(x, y)).len(),
    {
        let s = self.nbrs(x);
        let t = ids(s);
        assert(distinct_ids(self.adj[x as int]));
        assert forall|i: int, j: int| 0 <= i < t.len() && 0 <= j < t.len() && i != j implies t[i] != t[j] by {
            if i < j {
                assert(s[i].0 != s[j].0);
            } else {
                assert(s[j].0 != s[i].0);
            }
        }
        let ys = Set::new(|y: usize| self.adjacent(x, y));
        assert forall|y: usize| #[trigger] t.to_set().contains(y) <==> ys.contains(y) by {
            if t.to_set().contains(y) {
                let i = choose|i: int| 0 <= i < t.len() && t[i] == y;
                self.lemma_entry_adjacent(x, i);
            }
            if ys.contains(y) {
                self.lemma_adjacent_listed(x, y);
                let i = choose|i: int| 0 <= i < self.adj[x as int].len() && #[trigger] self.adj[x as int][i].0 == y;
                assert(t[i] == y);
            }
        }
        assert(t.to_set() =~= ys);
        t.unique_seq_to_set();
    }
}

/// A view whose adjacency lists name the same neighbors, in the same
/// places, as those of a well-formed view, over the same edges, is well formed.
proof fn lemma_view_same_ids(g: GraphView, h: GraphView)
    requires
        g.wf(),
        h.n == g.n,
        h.adj.len() == g.adj.len(),
        h.weights.dom() == g.weights.dom(),
        forall|x: int| 0 <= x < g.n ==> #[trigger] h.adj[x].len() == g.adj[x].len(),
        forall|x: int, i: int| 0 <= x < g.n && 0 <= i < g.adj[x].len() ==> #[trigger] h.adj[x][i].0 == g.adj[x][i].0,
    ensures
        h.wf(),
{
    assert forall|k: (usize, usize)| #[trigger] h.weights.dom().contains(k) implies {
        &&& k.0 < k.1 < h.n
        &&& h.lists(k.0, k.1)
        &&& h.lists(k.1, k.0)
    } by {
        assert(g.weights.dom().contains(k));
        let i = choose|i: int| 0 <= i < g.adj[k.0 as int].len() && #[trigger] g.adj[k.0 as int][i].0 == k.1;
        assert(h.adj[k.0 as int][i].0 == k.1);
        let j = choose|j: int| 0 <= j < g.adj[k.1 as int].len() && #[trigger] g.adj[k.1 as int][j].0 == k.0;
        assert(h.adj[k.1 as int][j].0 == k.0);
    }
    assert forall|x: int, i: int| 0 <= x < h.n && 0 <= i < h.adj[x].len() implies {
        &&& (#[trigger] h.adj[x][i]).0 < h.n
        &&& h.adj[x][i].0 != x
        &&& h.weights.dom().contains(edge_key(x as usize, h.adj[x][i].0))
    } by {
        assert(h.adj[x][i].0 == g.adj[x][i].0);
        assert(g.adj[x][i] == g.adj[x][i]);
    }
    assert forall|x: int| 0 <= x < h.n implies distinct_ids(#[trigger] h.adj[x]) by {
        assert(distinct_ids(g.adj[x]));
        assert forall|i: int, j: int| 0 <= i < j < h.adj[x].len() implies (#[trigger] h.adj[x][i]).0 != (#[trigger] h.adj[x][j]).0 by {
            assert(h.adj[x][i].0 == g.adj[x][i].0);
            assert(h.adj[x][j].0 == g.adj[x][j].0);
        }
    }
}

/// Removing the edge `a -- b` keeps every other listing `u -> v`.
proof fn lemma_list_survives_drop(g: GraphView, a: usize, b: usize, u: usize, v: usize)
    requires
        g.wf(),
        g.adjacent(a, b),
        g.lists(u, v),
        u < g.n,
        edge_key(u, v) != edge_key(a, b),
    ensures
        g.remove_edge(a, b).lists(u, v),
{
    g.lemma_adjacent_listed(a, b);
    let h = g.remove_edge(a, b);
    let i = choose|i: int| 0 <= i < g.adj[u as int].len() && #[trigger] g.adj[u as int][i].0 == v;
    if u == a || u == b {
        let o = if u == a { b } else { a };
        let s = g.adj[u as int];
        assert(distinct_ids(s));
        let j = choose|j: int| 0 <= j < s.len() && #[trigger] s[j].0 == o;
        lemma_drop_id(s, o, j);
        assert(v != o);
        assert(i != j);
        let ni = if i < j { i } else { i - 1 };
        assert(h.adj[u as int] == drop_id(s, o));
        assert(h.adj[u as int][ni] == s[i]);
    } else {
        assert(h.adj[u as int] == g.adj[u as int]);
    }
}

/// Appending a neighbor `b` that `a` is not adjacent to keeps the adjacency
/// list of `a` free of repeats, and no earlier entry names `b`.
proof fn lemma_push_new_id(g: GraphView, a: usize, b: usize, w: u64)
    requires
        g.wf(),
        a < g.n,
        !g.adjacent(a, b),
    ensures
        distinct_ids(g.adj[a as int].push((b, w))),
        forall|i: int| 0 <= i < g.adj[a as int].len() ==> (#[trigger] g.adj[a as int][i]).0 != b,
{
    let s = g.adj[a as int];
    let t = s.push((b, w));
    assert(distinct_ids(s));
    assert forall|i: int| 0 <= i < s.len() implies (#[trigger] s[i]).0 != b by {
        g.lemma_entry_adjacent(a, i);
    }
    assert forall|i: int, j: int| 0 <= i < j < t.len() implies (#[trigger] t[i]).0 != (#[trigger] t[j]).0 by {
        assert(t[i] == s[i]);
        if j < s.len() {
            assert(t[j] == s[j]);
        }
    }
}

/// A copy of `row` in which every entry for neighbor `b` carries weight `w`.
fn reweighted(row: &Vec<(AgentId, WeightBits)>, b: AgentId, w: WeightBits) -> (r: Vec<(AgentId, WeightBits)>)
    ensures
        r@ == reweight(row@, b, w),
{
    let mut r: Vec<(AgentId, WeightBits)> = Vec::new();
    let mut i: usize = 0;
    while i < row.len()
        invariant
            i <= row@.len(),
            r@.len() == i,
            forall|k: int| 0 <= k < i ==> #[trigger] r@[k] == (if row@[k].0 == b { (b, w) } else { row@[k] }),
        decreases row@.len() - i,
    {
        let e = row[i];
        if e.0 == b {
            r.push((b, w));
        } else {
            r.push(e);
        }
        i = i + 1;
    }
    assert(r@ =~= reweight(row@, b, w));
    r
}

/// Position of the entry for neighbor `b` in `row`, which has one.
fn position_of(row: &Vec<(AgentId, WeightBits)>, b: AgentId) -> (j: usize)
    requires
        has_id(row@, b),
    ensures
        j < row@.len(),
        row@[j as int].0 == b,
{
    let mut j: usize = 0;
    while j < row.len() && row[j].0 != b
        invariant
            j <= row@.len(),
            forall|k: int| 0 <= k < j ==> (#[trigger] row@[k]).0 != b,
        decreases row@.len() - j,
    {
        j = j + 1;
    }
    proof {
        if j == row@.len() {
            let k = choose|k: int| 0 <= k < row@.len() && #[trigger] row@[k].0 == b;
            assert(row@[k].0 != b);
        }
    }
    j
}

/// An agent interaction graph: agents are nodes, interactions are weighted edges.
#[derive(Debug, Clone)]
pub struct AgentGraph {
    /// Number of agents (nodes are `0..n`).
    n: usize,
    /// Adjacency: agent -> list of (neighbor, weight bits), each neighbor once.
    adj: Vec<Vec<(AgentId, WeightBits)>>,
    /// Edge weights, strictly sorted by key.
    edge_list: Vec<(EdgeId, WeightBits)>,
}

impl View for AgentGraph {
    type V = GraphView;

    closed spec fn view(&self) -> GraphView {
        GraphView {
            n: self.n as nat,
            adj: self.adj@.map_values(|v: Vec<(usize, u64)>| v@),
            weights: map_of(self.edge_list@),
        }
    }
}

impl AgentGraph {
    /// Representation invariant.
    pub closed spec fn wf(&self) -> bool {
        &&& self@.wf()
        &&& self.adj@.len() == self.n
        &&& strictly_sorted_entries(self.edge_list@)
    }

    /// A well-formed graph has a well-formed abstract state, on at most
    /// `usize::MAX` agents.
    pub proof fn lemma_wf(&self)
        requires
            self.wf(),
        ensures
            self@.wf(),
            self@.n <= usize::MAX,
    {
    }

    /// Create an empty graph with `n` agents and no edges.
    pub fn new(n: usize) -> (g: Self)
        ensures
            g.wf(),
            g@.n == n,
            g@.weights.dom() =~= Set::<(usize, usize)>::empty(),
            forall|a: int| 0 <= a < n ==> (#[trigger] g@.adj[a]).len() == 0,
    {
        let mut adj: Vec<Vec<(usize, u64)>> = Vec::new();
        let mut i: usize = 0;
        while i < n
            invariant
                i <= n,
                adj@.len() == i,
                forall|a: int| 0 <= a < i ==> (#[trigger] adj@[a])@.len() == 0,
            decreases n - i,
        {
            adj.push(Vec::new());
            i = i + 1;
        }
        let g = AgentGraph { n, adj, edge_list: Vec::new() };
        assert(g@.weights.dom() =~= Set::<(usize, usize)>::empty());
        g
    }

    /// Number of agents.
    pub fn num_agents(&self) -> (r: usize)
        ensures
            r == self@.n,
    {
        self.n
    }

    /// Number of edges.
    pub fn num_edges(&self) -> (r: usize)
        requires
            self.wf(),
        ensures
            r == self@.weights.dom().len(),
    {
        proof {
            lemma_map_of_len(self.edge_list@);
        }
        self.edge_list.len()
    }

    /// Position of the first stored edge whose key is not below `k`, and
    /// whether that edge has key `k`.
    fn locate(&self, k: (usize, usize)) -> (r: (bool, usize))
        requires
            self.wf(),
        ensures
            r.1 <= self.edge_list@.len(),
            forall|i: int| 0 <= i < r.1 ==> key_lt(#[trigger] self.edge_list@[i].0, k),
            r.1 < self.edge_list@.len() ==> !key_lt(self.edge_list@[r.1 as int].0, k),
            r.0 <==> (r.1 < self.edge_list@.len() && self.edge_list@[r.1 as int].0 == k),
            r.0 <==> self@.weights.dom().contains(k),
            r.0 ==> self@.weights[k] == self.edge_list@[r.1 as int].1,
    {
        let len = self.edge_list.len();
        let mut i: usize = 0;
        while i < len && key_less(self.edge_list[i].0, k)
            invariant
                len == self.edge_list@.len(),
                i <= len,
                forall|j: int| 0 <= j < i ==> key_lt(#[trigger] self.edge_list@[j].0, k),
            decreases len - i,
        {
            i = i + 1;
        }
        let found = i < len && self.edge_list[i].0.0 == k.0 && self.edge_list[i].0.1 == k.1;
        proof {
            lemma_map_of_dom(self.edge_list@);
            if found {
                lemma_map_of_value(self.edge_list@, i as int);
            }
            if self@.weights.dom().contains(k) {
                let j = choose|j: int| 0 <= j < self.edge_list@.len() && #[trigger] self.edge_list@[j].0 == k;
                if j < i {
                    assert(key_lt(self.edge_list@[j].0, k));
                } else if j > i {
                    assert(key_lt(self.edge_list@[i as int].0, self.edge_list@[j].0));
                }
            }
        }
        (found, i)
    }

    /// Get edge weight.
    pub fn edge_weight(&self, a: AgentId, b: AgentId) -> (r: Option<WeightBits>)
        requires
            self.wf(),
        ensures
            r == (if self@.adjacent(a, b) {
                Some(self@.weights[edge_key(a, b)])
            } else {
                None
            }),
    {
        let k = if a < b {
            (a, b)
        } else {
            (b, a)
        };
        let (found, pos) = self.locate(k);
        if found {
            Some(self.edge_list[pos].1)
        } else {
            None
        }
    }

    /// Check if edge exists.
    pub fn has_edge(&self, a: AgentId, b: AgentId) -> (r: bool)
        requires
            self.wf(),
        ensures
            r == self@.adjacent(a, b),
    {
        let k = if a < b {
            (a, b)
        } else {
            (b, a)
        };
        let (found, _pos) = self.locate(k);
        found
    }
    /// Add an undirected edge with weight `w`. A self-loop is ignored.
    /// Adding an edge that exists already only replaces its weight, in the
    /// weight map and in both adjacency lists.
    pub fn add_edge(&mut self, a: AgentId, b: AgentId, w: WeightBits)
        requires
            old(self).wf(),
            a < old(self)@.n,
            b < old(self)@.n,
        ensures
            final(self).wf(),
            final(self)@ == old(self)@.add_edge(a, b, w),
    {
        if a == b {
            return;
        }
        let ghost old_view = self@;
        let k = if a < b {
            (a, b)
        } else {
            (b, a)
        };
        let (found, pos) = self.locate(k);
        proof {
            lemma_map_of_dom(self.edge_list@);
        }
        if found {
            proof {
                lemma_map_of_update(self.edge_list@, pos as int, (k, w));
            }
            self.edge_list.set(pos, (k, w));
            let ra = reweighted(&self.adj[a], b, w);
            let rb = reweighted(&self.adj[b], a, w);
            self.adj.set(a, ra);
            self.adj.set(b, rb);
            proof {
                lemma_map_of_dom(self.edge_list@);
                let nv = old_view.add_edge(a, b, w);
                assert(self@.adj =~= nv.adj);
                assert(self@.weights == nv.weights);
                assert(self@ == nv);
                assert(nv.weights.dom() =~= old_view.weights.dom());
                assert forall|x: int| 0 <= x < nv.n implies #[trigger] nv.adj[x].len() == old_view.adj[x].len() by {}
                assert forall|x: int, i: int| 0 <= x < nv.n && 0 <= i < old_view.adj[x].len() implies
                    #[trigger] nv.adj[x][i].0 == old_view.adj[x][i].0 by {}
                lemma_view_same_ids(old_view, nv);
            }
        } else {
            proof {
                if pos < self.edge_list@.len() {
                    assert(self.edge_list@[pos as int].0 != k);
                }
                lemma_map_of_insert(self.edge_list@, pos as int, (k, w));
            }
            self.edge_list.insert(pos, (k, w));
            self.adj[a].push((b, w));
            self.adj[b].push((a, w));
            proof {
                lemma_map_of_dom(self.edge_list@);
                let nv = old_view.add_edge(a, b, w);
                assert(self@.adj =~= nv.adj);
                assert(self@ == nv);
                assert forall|kk: (usize, usize)| #[trigger] nv.weights.dom().contains(kk) implies {
                    &&& kk.0 < kk.1 < nv.n
                    &&& nv.lists(kk.0, kk.1)
                    &&& nv.lists(kk.1, kk.0)
                } by {
                    if kk == k {
                        assert(nv.adj[a as int][nv.adj[a as int].len() - 1].0 == b);
                        assert(nv.adj[b as int][nv.adj[b as int].len() - 1].0 == a);
                    } else {
                        assert(old_view.weights.dom().contains(kk));
                        let i = choose|i: int| 0 <= i < old_view.adj[kk.0 as int].len() && #[trigger] old_view.adj[kk.0 as int][i].0 == kk.1;
                        assert(nv.adj[kk.0 as int][i] == old_view.adj[kk.0 as int][i]);
                        let j = choose|j: int| 0 <= j < old_view.adj[kk.1 as int].len() && #[trigger] old_view.adj[kk.1 as int][j].0 == kk.0;
                        assert(nv.adj[kk.1 as int][j] == old_view.adj[kk.1 as int][j]);
                    }
                }
                assert forall|x: int, i: int| 0 <= x < nv.n && 0 <= i < nv.adj[x].len() implies {
                    &&& (#[trigger] nv.adj[x][i]).0 < nv.n
                    &&& nv.adj[x][i].0 != x
                    &&& nv.weights.dom().contains(edge_key(x as usize, nv.adj[x][i].0))
                } by {
                    if x == a && i == old_view.adj[x].len() {
                    } else if x == b && i == old_view.adj[x].len() {
                    } else {
                        assert(nv.adj[x][i] == old_view.adj[x][i]);
                    }
                }
                assert forall|x: int| 0 <= x < nv.n implies distinct_ids(#[trigger] nv.adj[x]) by {
                    assert(distinct_ids(old_view.adj[x]));
                    if x == a || x == b {
                        let o = if x == a { b } else { a };
                        assert forall|i: int, j: int| 0 <= i < j < nv.adj[x].len() implies (#[trigger] nv.adj[x][i]).0 != (#[trigger] nv.adj[x][j]).0 by {
                            assert(nv.adj[x][i] == old_view.adj[x][i]);
                            if j < old_view.adj[x].len() {
                                assert(nv.adj[x][j] == old_view.adj[x][j]);
                            } else {
                                assert(nv.adj[x][j].0 == o);
                                old_view.lemma_entry_adjacent(x as usize, i);
                                old_view.lemma_adjacent_symmetric(a, b);
                            }
                        }
                    }
                }
            }
        }
    }

    /// Remove the edge between `a` and `b`, if there is one, from the weight
    /// map and from both adjacency lists.
    pub fn remove_edge(&mut self, a: AgentId, b: AgentId)
        requires
            old(self).wf(),
        ensures
            final(self).wf(),
            final(self)@ == old(self)@.remove_edge(a, b),
    {
        let ghost old_view = self@;
        let k = if a < b {
            (a, b)
        } else {
            (b, a)
        };
        let (found, pos) = self.locate(k);
        if !found {
            return;
        }
        proof {
            old_view.lemma_adjacent_listed(a, b);
            lemma_map_of_remove(self.edge_list@, pos as int);
        }
        self.edge_list.remove(pos);
        let ja = position_of(&self.adj[a], b);
        let jb = position_of(&self.adj[b], a);
        proof {
            lemma_drop_id(old_view.adj[a as int], b, ja as int);
            lemma_drop_id(old_view.adj[b as int], a, jb as int);
        }
        self.adj[a].remove(ja);
        self.adj[b].remove(jb);
        proof {
            lemma_map_of_dom(self.edge_list@);
            let nv = old_view.remove_edge(a, b);
            assert(self@.adj =~= nv.adj);
            assert(self@.weights =~= nv.weights);
            assert(self@ == nv);
            assert forall|kk: (usize, usize)| #[trigger] nv.weights.dom().contains(kk) implies {
                &&& kk.0 < kk.1 < nv.n
                &&& nv.lists(kk.0, kk.1)
                &&& nv.lists(kk.1, kk.0)
            } by {
                assert(old_view.weights.dom().contains(kk));
                lemma_list_survives_drop(old_view, a, b, kk.0, kk.1);
                lemma_list_survives_drop(old_view, a, b, kk.1, kk.0);
            }
            assert forall|x: int, i: int| 0 <= x < nv.n && 0 <= i < nv.adj[x].len() implies {
                &&& (#[trigger] nv.adj[x][i]).0 < nv.n
                &&& nv.adj[x][i].0 != x
                &&& nv.weights.dom().contains(edge_key(x as usize, nv.adj[x][i].0))
            } by {
                let oi = if (x == a && i >= ja) || (x == b && i >= jb) { i + 1 } else { i };
                assert(nv.adj[x][i] == old_view.adj[x][oi]);
                if x == a {
                    assert(old_view.adj[x][oi].0 != b);
                } else if x == b {
                    assert(old_view.adj[x][oi].0 != a);
                }
            }
            assert forall|x: int| 0 <= x < nv.n implies distinct_ids(#[trigger] nv.adj[x]) by {
                assert(distinct_ids(old_view.adj[x]));
            }
        }
    }

    /// Get neighbors of agent `a`, with the weight of each edge.
    pub fn neighbors(&self, a: AgentId) -> (r: &[(AgentId, WeightBits)])
        requires
            self.wf(),
        ensures
            r@ == self@.nbrs(a),
    {
        if a < self.n {
            self.adj[a].as_slice()
        } else {
            &[]
        }
    }

    /// The agent ids of the adjacency list of `a`, in order.
    pub fn neighbor_ids(&self, a: AgentId) -> (xs: Vec<AgentId>)
        requires
            self.wf(),
        ensures
            xs@ == ids(self@.nbrs(a)),
    {
        let nba = self.neighbors(a);
        let mut xs: Vec<usize> = Vec::new();
        let mut j: usize = 0;
        while j < nba.len()
            invariant
                j <= nba@.len(),
                xs@.len() == j,
                forall|k: int| 0 <= k < j ==> #[trigger] xs@[k] == nba@[k].0,
            decreases nba@.len() - j,
        {
            xs.push(nba[j].0);
            j = j + 1;
        }
        proof {
            assert(xs@ =~= ids(self@.nbrs(a)));
        }
        xs
    }

    /// Degree of agent `a` (the length of its adjacency list).
    pub fn degree(&self, a: AgentId) -> (r: usize)
        requires
            self.wf(),
        ensures
            r == self@.nbrs(a).len(),
    {
        if a < self.n {
            self.adj[a].len()
        } else {
            0
        }
    }

    /// All edges as sorted pairs, in increasing order.
    pub fn edges(&self) -> (r: Vec<EdgeId>)
        requires
            self.wf(),
        ensures
            strictly_sorted_keys(r@),
            forall|k: (usize, usize)|
                #![trigger self@.weights.dom().contains(k)]
                #![trigger r@.contains(k)]
                self@.weights.dom().contains(k) <==> r@.contains(k),
            r@.len() == self@.weights.dom().len(),
    {
        let mut r: Vec<(usize, usize)> = Vec::new();
        let len = self.edge_list.len();
        let mut i: usize = 0;
        while i < len
            invariant
                len == self.edge_list@.len(),
                i <= len,
                r@.len() == i,
                forall|j: int| 0 <= j < i ==> #[trigger] r@[j] == self.edge_list@[j].0,
            decreases len - i,
        {
            r.push(self.edge_list[i].0);
            i = i + 1;
        }
        proof {
            lemma_map_of_dom(self.edge_list@);
            lemma_map_of_len(self.edge_list@);
            assert forall|x: int, y: int| 0 <= x < y < r@.len() implies key_lt(#[trigger] r@[x], #[trigger] r@[y]) by {
                assert(key_lt(self.edge_list@[x].0, self.edge_list@[y].0));
            }
            assert forall|k: (usize, usize)| self@.weights.dom().contains(k) <==> r@.contains(k) by {
                if self@.weights.dom().contains(k) {
                    let j = choose|j: int| 0 <= j < self.edge_list@.len() && #[trigger] self.edge_list@[j].0 == k;
                    assert(r@[j] == k);
                }
                if r@.contains(k) {
                    let j = choose|j: int| 0 <= j < r@.len() && r@[j] == k;
                    assert(self.edge_list@[j].0 == k);
                }
            }
        }
        r
    }

    /// All agent IDs, `0..n` in order.
    pub fn agents(&self) -> (r: Vec<AgentId>)
        ensures
            r@.len() == self@.n,
            forall|i: int| 0 <= i < r@.len() ==> #[trigger] r@[i] == i,
    {
        let mut r: Vec<usize> = Vec::new();
        let mut i: usize = 0;
        while i < self.n
            invariant
                i <= self.n,
                r@.len() == i,
                forall|j: int| 0 <= j < i ==> #[trigger] r@[j] == j,
            decreases self.n - i,
        {
            r.push(i);
            i = i + 1;
        }
        r
    }
    /// Shortest path distance (unweighted BFS); `None` when `b` cannot be
    /// reached from `a`.
    pub fn distance(&self, a: AgentId, b: AgentId) -> (r: Option<usize>)
        requires
            self.wf(),
            a < self@.n || a == b,
        ensures
            match r {
                Some(d) => self@.is_shortest(a, b, d as nat),
                None => !self@.reachable(a, b),
            },
    {
        if a == b {
            proof {
                self@.lemma_within_zero(a, b);
            }
            return Some(0);
        }
        let ghost g = self@;
        let n = self.n;
        let mut visited = all_false(n);
        proof {
            lemma_count_true_set(visited@, a as int);
        }
        visited.set(a, true);
        let mut frontier: Vec<usize> = Vec::new();
        frontier.push(a);
        let mut level: usize = 0;
        proof {
            g.lemma_within_zero(a, b);
            assert forall|x: usize| x < n implies (visited@[x as int] <==> g.within(a, x, 0)) by {
                g.lemma_within_zero(a, x);
            }
            assert forall|x: usize| #[trigger] g.is_shortest(a, x, 0) implies frontier@.contains(x) by {
                g.lemma_within_zero(a, x);
                assert(frontier@[0] == a);
            }
        }
        loop
            invariant
                g == self@,
                g.wf(),
                self.wf(),
                n == g.n,
                a < n,
                a != b,
                visited@.len() == n,
                forall|x: usize| x < n ==> (visited@[x as int] <==> #[trigger] g.within(a, x, level as nat)),
                forall|i: int|
                    0 <= i < frontier@.len() ==> #[trigger] frontier@[i] < n && g.is_shortest(
                        a,
                        frontier@[i],
                        level as nat,
                    ),
                forall|x: usize| #[trigger] g.is_shortest(a, x, level as nat) ==> frontier@.contains(x),
                !g.within(a, b, level as nat),
                count_true(visited@) >= level + 1,
                level < n,
            decreases n - level,
        {
            let ghost start_count = count_true(visited@);
            let mut next: Vec<usize> = Vec::new();
            let mut i: usize = 0;
            while i < frontier.len()
                invariant
                    g == self@,
                    g.wf(),
                    self.wf(),
                    n == g.n,
                    a < n,
                    a != b,
                    visited@.len() == n,
                    level < n,
                    i <= frontier@.len(),
                    forall|i: int|
                        0 <= i < frontier@.len() ==> #[trigger] frontier@[i] < n && g.is_shortest(
                            a,
                            frontier@[i],
                            level as nat,
                        ),
                    forall|x: usize|
                        x < n ==> (visited@[x as int] <==> (#[trigger] g.within(a, x, level as nat)
                            || next@.contains(x))),
                    forall|k: int|
                        0 <= k < next@.len() ==> #[trigger] next@[k] < n && g.is_shortest(
                            a,
                            next@[k],
                            (level + 1) as nat,
                        ),
                    count_true(visited@) == start_count + next@.len(),
                    forall|i2: int, v: usize|
                        0 <= i2 < i && #[trigger] g.adjacent(frontier@[i2], v) ==> v < n
                            && visited@[v as int],
                    !g.within(a, b, level as nat),
                    b < n ==> !visited@[b as int],
                decreases frontier@.len() - i,
            {
                let u = frontier[i];
                let nb = &self.adj[u];
                let m = nb.len();
                let mut j: usize = 0;
                proof {
                    assert(nb@ == g.adj[u as int]);
                }
                while j < m
                    invariant
                        g == self@,
                        g.wf(),
                        self.wf(),
                        n == g.n,
                        a < n,
                        a != b,
                        visited@.len() == n,
                        level < n,
                        i < frontier@.len(),
                        u == frontier@[i as int],
                        u < n,
                        g.is_shortest(a, u, level as nat),
                        nb@ == g.adj[u as int],
                        m == nb@.len(),
                        j <= m,
                        forall|x: usize|
                            x < n ==> (visited@[x as int] <==> (#[trigger] g.within(
                                a,
                                x,
                                level as nat,
                            ) || next@.contains(x))),
                        forall|k: int|
                            0 <= k < next@.len() ==> #[trigger] next@[k] < n && g.is_shortest(
                                a,
                                next@[k],
                                (level + 1) as nat,
                            ),
                        count_true(visited@) == start_count + next@.len(),
                        forall|j2: int| 0 <= j2 < j ==> visited@[(#[trigger] nb@[j2]).0 as int],
                        forall|i2: int, v: usize|
                            0 <= i2 < i && #[trigger] g.adjacent(frontier@[i2], v) ==> v < n
                                && visited@[v as int],
                        !g.within(a, b, level as nat),
                        b < n ==> !visited@[b as int],
                    decreases m - j,
                {
                    let v = nb[j].0;
                    proof {
                        g.lemma_entry_adjacent(u, j as int);
                    }
                    if !visited[v] {
                        proof {
                            lemma_count_true_set(visited@, v as int);
                            assert(!g.within(a, v, level as nat));
                            g.lemma_within_extend(a, u, v, level as nat);
                        }
                        let ghost old_vis = visited@;
                        let ghost old_next = next@;
                        visited.set(v, true);
                        if v == b {
                            return Some(level + 1);
                        }
                        next.push(v);
                        proof {
                            assert(next@[next@.len() - 1] == v);
                            assert forall|x: usize|
                                x < n implies (visited@[x as int] <==> (#[trigger] g.within(
                                    a,
                                    x,
                                    level as nat,
                                ) || next@.contains(x))) by {
                                if x != v {
                                    assert(visited@[x as int] == old_vis[x as int]);
                                    if next@.contains(x) {
                                        let k = choose|k: int| 0 <= k < next@.len() && next@[k] == x;
                                        assert(old_next[k] == x);
                                    }
                                    if old_next.contains(x) {
                                        let k = choose|k: int| 0 <= k < old_next.len() && old_next[k] == x;
                                        assert(next@[k] == x);
                                    }
                                } else {
                                    assert(next@[next@.len() - 1] == v);
                                }
                            }
                        }
                    }
                    j = j + 1;
                }
                proof {
                    assert forall|i2: int, v: usize|
                        0 <= i2 < i + 1 && #[trigger] g.adjacent(frontier@[i2], v) implies v < n
                            && visited@[v as int] by {
                        if i2 == i {
                            g.lemma_adjacent_listed(u, v);
                            let j2 = choose|j2: int| 0 <= j2 < g.adj[u as int].len() && #[trigger] g.adj[u as int][j2].0 == v;
                            assert(nb@[j2].0 == v);
                        }
                    }
                }
                i = i + 1;
            }
            proof {
                // The ball of radius level + 1 is the ball of radius level plus `next`.
                assert forall|x: usize| #[trigger] g.within(a, x, (level + 1) as nat) implies g.within(
                    a,
                    x,
                    level as nat,
                ) || next@.contains(x) by {
                    if x == a {
                        g.lemma_within_zero(a, a);
                        g.lemma_within_mono(a, a, 0, level as nat);
                    } else {
                        let u = g.lemma_within_pred(a, x, level as nat);
                        if level > 0 && g.within(a, u, (level - 1) as nat) {
                            g.lemma_within_extend(a, u, x, (level - 1) as nat);
                        } else {
                            assert(g.is_shortest(a, u, level as nat));
                            assert(frontier@.contains(u));
                            let i2 = choose|i2: int| 0 <= i2 < frontier@.len() && frontier@[i2] == u;
                            assert(g.adjacent(frontier@[i2], x));
                            g.lemma_adjacent_listed(u, x);
                        }
                    }
                }
            }
            if next.len() == 0 {
                proof {
                    assert forall|k: nat| !#[trigger] g.within(a, b, k) by {
                        if g.within(a, b, k) {
                            g.lemma_within_stable(a, level as nat, b, k);
                        }
                    }
                }
                return None;
            }
            proof {
                lemma_count_true_le(visited@);
                assert forall|x: usize| x < n implies (visited@[x as int] <==> #[trigger] g.within(
                    a,
                    x,
                    (level + 1) as nat,
                )) by {
                    if visited@[x as int] {
                        if g.within(a, x, level as nat) {
                            g.lemma_within_step(a, x, level as nat);
                        } else {
                            let k = choose|k: int| 0 <= k < next@.len() && next@[k] == x;
                            assert(g.is_shortest(a, next@[k], (level + 1) as nat));
                        }
                    }
                }
                assert forall|x: usize| #[trigger] g.is_shortest(a, x, (level + 1) as nat) implies next@.contains(x) by {
                    assert(g.within(a, x, (level + 1) as nat));
                }
                if g.within(a, b, (level + 1) as nat) {
                    g.lemma_within_agent(a, b, (level + 1) as nat);
                    assert(!next@.contains(b));
                }
            }
            frontier = next;
            level = level + 1;
        }
    }
    /// Graph diameter: the longest shortest-path length between two agents
    /// that are connected (0 when no two distinct agents are).
    pub fn diameter(&self) -> (r: usize)
        requires
            self.wf(),
        ensures
            forall|i: usize, j: usize, d: nat|
                i < j < self@.n && #[trigger] self@.is_shortest(i, j, d) ==> d <= r,
            r == 0 || exists|i: usize, j: usize| i < j < self@.n && #[trigger] self@.is_shortest(i, j, r as nat),
    {
        let n = self.n;
        let ghost g = self@;
        let mut max_d: usize = 0;
        let mut i: usize = 0;
        while i < n
            invariant
                g == self@,
                self.wf(),
                n == g.n,
                i <= n,
                forall|i2: usize, j2: usize, d: nat|
                    i2 < i && i2 < j2 < n && #[trigger] g.is_shortest(i2, j2, d) ==> d <= max_d,
                max_d == 0 || exists|i2: usize, j2: usize| i2 < j2 < n && #[trigger] g.is_shortest(i2, j2, max_d as nat),
            decreases n - i,
        {
            let mut j: usize = i + 1;
            while j < n
                invariant
                    g == self@,
                    self.wf(),
                    n == g.n,
                    i < n,
                    i + 1 <= j <= n,
                    forall|i2: usize, j2: usize, d: nat|
                        (i2 < i || (i2 == i && j2 < j)) && i2 < j2 < n && #[trigger] g.is_shortest(i2, j2, d)
                            ==> d <= max_d,
                    max_d == 0 || exists|i2: usize, j2: usize| i2 < j2 < n && #[trigger] g.is_shortest(i2, j2, max_d as nat),
                decreases n - j,
            {
                let dij = self.distance(i, j);
                proof {
                    assert forall|d: nat| #[trigger] g.is_shortest(i, j, d) implies d <= (match dij {
                        Some(d0) => d0 as nat,
                        None => 0nat,
                    }) by {
                        match dij {
                            Some(d0) => {
                                g.lemma_shortest_unique(i, j, d, d0 as nat);
                            },
                            None => {
                                assert(g.within(i, j, d));
                            },
                        }
                    }
                }
                match dij {
                    Some(d) => {
                        if d > max_d {
                            max_d = d;
                        }
                    },
                    None => {},
                }
                j = j + 1;
            }
            i = i + 1;
        }
        max_d
    }

    /// Connected components, ordered by their smallest agent; each component
    /// starts with its smallest agent.
    pub fn connected_components(&self) -> (comps: Vec<Vec<AgentId>>)
        requires
            self.wf(),
        ensures
            self@.is_component_list(comps@),
            forall|c: int|
                0 <= c < comps@.len() ==> (#[trigger] comps@[c])@ == dfs_order(
                    self@,
                    Seq::new(self@.n, |x: int| in_some(comps@.subrange(0, c), x as usize)),
                    comps@[c]@[0],
                ),
    {
        let n = self.n;
        let ghost g = self@;
        let mut visited = all_false(n);
        let mut comps: Vec<Vec<usize>> = Vec::new();
        let mut start: usize = 0;
        while start < n
            invariant
                g == self@,
                self.wf(),
                g.wf(),
                n == g.n,
                start <= n,
                visited@.len() == n,
                forall|x: usize| x < n ==> (visited@[x as int] <==> #[trigger] in_some(comps@, x)),
                forall|x: usize| x < start ==> #[trigger] visited@[x as int],
                forall|c: int| 0 <= c < comps@.len() ==> (#[trigger] comps@[c])@.len() > 0,
                forall|c: int| 0 <= c < comps@.len() ==> (#[trigger] comps@[c])@[0] < start,
                forall|c: int, i: int|
                    0 <= c < comps@.len() && 0 <= i < comps@[c]@.len() ==> {
                        &&& (#[trigger] comps@[c]@[i]) < n
                        &&& comps@[c]@[0] <= comps@[c]@[i]
                        &&& g.reachable(comps@[c]@[0], comps@[c]@[i])
                    },
                forall|c: int, i: int, y: usize|
                    0 <= c < comps@.len() && 0 <= i < comps@[c]@.len() && #[trigger] g.adjacent(comps@[c]@[i], y)
                        ==> comps@[c]@.contains(y),
                forall|c1: int, c2: int| 0 <= c1 < c2 < comps@.len() ==> (#[trigger] comps@[c1])@[0] < (#[trigger] comps@[c2])@[0],
                forall|c: int, i: int, j: int|
                    0 <= c < comps@.len() && 0 <= i < j < comps@[c]@.len() ==> (#[trigger] comps@[c]@[i]) != (#[trigger] comps@[c]@[j]),
                forall|c1: int, c2: int, i: int, j: int|
                    0 <= c1 < comps@.len() && 0 <= c2 < comps@.len() && c1 != c2 && 0 <= i < comps@[c1]@.len() && 0 <= j < comps@[c2]@.len()
                        ==> (#[trigger] comps@[c1]@[i]) != (#[trigger] comps@[c2]@[j]),
                forall|c: int|
                    0 <= c < comps@.len() ==> (#[trigger] comps@[c])@ == dfs_order(
                        g,
                        Seq::new(g.n, |x: int| in_some(comps@.subrange(0, c), x as usize)),
                        comps@[c]@[0],
                    ),
            decreases n - start,
        {
            if !visited[start] {
                let ghost vis_before = visited@;
                proof {
                    assert(comps@.subrange(0, comps@.len() as int) =~= comps@);
                    assert(vis_before =~= Seq::new(g.n, |x: int| in_some(comps@.subrange(0, comps@.len() as int), x as usize)));
                }
                let comp = self.explore(start, &mut visited, Ghost(comps@));
                proof {
                    assert(comp@[0] == start);
                    assert(visited@[start as int]);
                    assert forall|x: usize| x < start implies #[trigger] visited@[x as int] by {
                        assert(vis_before[x as int]);
                        assert(in_some(comps@, x));
                    }
                }
                let ghost old_comps = comps@;
                comps.push(comp);
                proof {
                    let last = comps@.len() - 1;
                    assert(comps@[last] == comp);
                    assert forall|x: usize| x < n implies (visited@[x as int] <==> #[trigger] in_some(comps@, x)) by {
                        if in_some(old_comps, x) {
                            let c = choose|c: int| 0 <= c < old_comps.len() && (#[trigger] old_comps[c])@.contains(x);
                            assert(comps@[c] == old_comps[c]);
                        }
                        if in_some(comps@, x) {
                            let c = choose|c: int| 0 <= c < comps@.len() && (#[trigger] comps@[c])@.contains(x);
                            if c < last {
                                assert(comps@[c] == old_comps[c]);
                                assert(in_some(old_comps, x));
                            }
                        }
                        if comp@.contains(x) {
                            assert(comps@[last]@.contains(x));
                        }
                    }
                    assert forall|c: int, i: int, y: usize|
                        0 <= c < comps@.len() && 0 <= i < comps@[c]@.len() && #[trigger] g.adjacent(comps@[c]@[i], y)
                            implies comps@[c]@.contains(y) by {
                        if c < last {
                            assert(comps@[c] == old_comps[c]);
                        }
                    }
                    assert forall|c: int|
                        0 <= c < comps@.len() implies (#[trigger] comps@[c])@ == dfs_order(
                            g,
                            Seq::new(g.n, |x: int| in_some(comps@.subrange(0, c), x as usize)),
                            comps@[c]@[0],
                        ) by {
                        if c < last {
                            assert(comps@[c] == old_comps[c]);
                            assert(comps@.subrange(0, c) =~= old_comps.subrange(0, c));
                        } else {
                            assert(comps@.subrange(0, c) =~= old_comps.subrange(0, old_comps.len() as int));
                        }
                    }
                    assert forall|c1: int, c2: int, i: int, j: int|
                        0 <= c1 < comps@.len() && 0 <= c2 < comps@.len() && c1 != c2 && 0 <= i < comps@[c1]@.len() && 0 <= j < comps@[c2]@.len()
                            implies (#[trigger] comps@[c1]@[i]) != (#[trigger] comps@[c2]@[j]) by {
                        if c1 == last {
                            assert(comps@[c2] == old_comps[c2]);
                            assert(old_comps[c2]@.contains(comps@[c2]@[j]));
                            assert(in_some(old_comps, comps@[c2]@[j]));
                        } else if c2 == last {
                            assert(comps@[c1] == old_comps[c1]);
                            assert(old_comps[c1]@.contains(comps@[c1]@[i]));
                            assert(in_some(old_comps, comps@[c1]@[i]));
                        } else {
                            assert(comps@[c1] == old_comps[c1]);
                            assert(comps@[c2] == old_comps[c2]);
                        }
                    }
                }
            }
            start = start + 1;
        }
        proof {
            assert forall|c: int, x: usize|
                0 <= c < comps@.len() && #[trigger] g.reachable(comps@[c]@[0], x) implies comps@[c]@.contains(x) by {
                let k = choose|k: nat| #[trigger] g.within(comps@[c]@[0], x, k);
                assert(comps@[c]@.contains(comps@[c]@[0]));
                g.lemma_closed_contains(comps@[c]@, comps@[c]@[0], x, k);
            }
        }
        comps
    }

    /// Depth-first exploration of the component of the unvisited agent
    /// `start`; marks it visited and returns its agents in visiting order.
    fn explore(&self, start: usize, visited: &mut Vec<bool>, Ghost(comps): Ghost<Seq<Vec<usize>>>) -> (comp: Vec<usize>)
        requires
            self.wf(),
            start < self@.n,
            old(visited)@.len() == self@.n,
            !old(visited)@[start as int],
            forall|x: usize| x < self@.n ==> (old(visited)@[x as int] <==> #[trigger] in_some(comps, x)),
            forall|x: usize| x < start ==> #[trigger] old(visited)@[x as int],
            forall|c: int, i: int, y: usize|
                0 <= c < comps.len() && 0 <= i < comps[c]@.len() && #[trigger] self@.adjacent(comps[c]@[i], y)
                    ==> comps[c]@.contains(y),
        ensures
            final(visited)@.len() == self@.n,
            forall|x: usize| x < self@.n ==> (final(visited)@[x as int] <==> (in_some(comps, x) || comp@.contains(x))),
            comp@.len() > 0,
            comp@[0] == start,
            forall|i: int| 0 <= i < comp@.len() ==> {
                &&& (#[trigger] comp@[i]) < self@.n
                &&& start <= comp@[i]
                &&& !in_some(comps, comp@[i])
                &&& self@.reachable(start, comp@[i])
            },
            forall|i: int, y: usize| 0 <= i < comp@.len() && #[trigger] self@.adjacent(comp@[i], y) ==> comp@.contains(y),
            forall|i: int, j: int| 0 <= i < j < comp@.len() ==> comp@[i] != comp@[j],
            comp@ == dfs_order(self@, old(visited)@, start),
    {
        let n = self.n;
        let ghost g = self@;
        let ghost init = DfsState { visited: old(visited)@.update(start as int, true), stack: seq![start], order: Seq::empty() };
        let ghost mut fuel: nat = (2 * n + 1) as nat;
        let mut comp: Vec<usize> = Vec::new();
        let mut stack: Vec<usize> = Vec::new();
        proof {
            lemma_count_true_set(visited@, start as int);
            g.lemma_within_zero(start, start);
        }
        let ghost vis0 = visited@;
        visited.set(start, true);
        stack.push(start);
        proof {
            lemma_count_true_le(visited@);
            assert(stack@[0] == start);
            assert(stack@ =~= seq![start]);
            assert(DfsState { visited: visited@, stack: stack@, order: comp@ } == init);
            assert forall|x: usize| x < n implies (visited@[x as int] <==> (#[trigger] in_some(comps, x) || comp@.contains(x) || stack@.contains(x))) by {
                if x != start {
                    assert(visited@[x as int] == vis0[x as int]);
                }
            }
        }
        while stack.len() > 0
            invariant
                g == self@,
                self.wf(),
                g.wf(),
                n == g.n,
                start < n,
                visited@.len() == n,
                forall|x: usize| x < start ==> #[trigger] visited@[x as int],
                forall|x: usize| x < n ==> (visited@[x as int] <==> (#[trigger] in_some(comps, x) || comp@.contains(x) || stack@.contains(x))),
                forall|c: int, i: int, y: usize|
                    0 <= c < comps.len() && 0 <= i < comps[c]@.len() && #[trigger] g.adjacent(comps[c]@[i], y)
                        ==> comps[c]@.contains(y),
                comp@.len() == 0 ==> stack@ == seq![start],
                comp@.len() > 0 ==> comp@[0] == start,
                forall|i: int| 0 <= i < comp@.len() ==> {
                    &&& (#[trigger] comp@[i]) < n
                    &&& start <= comp@[i]
                    &&& !in_some(comps, comp@[i])
                    &&& g.reachable(start, comp@[i])
                },
                forall|i: int| 0 <= i < stack@.len() ==> {
                    &&& (#[trigger] stack@[i]) < n
                    &&& start <= stack@[i]
                    &&& !in_some(comps, stack@[i])
                    &&& g.reachable(start, stack@[i])
                },
                forall|i: int, y: usize| 0 <= i < comp@.len() && #[trigger] g.adjacent(comp@[i], y) ==> y < n && visited@[y as int],
                forall|i: int, j: int| 0 <= i < j < comp@.len() ==> comp@[i] != comp@[j],
                forall|i: int, j: int| 0 <= i < j < stack@.len() ==> stack@[i] != stack@[j],
                forall|i: int, j: int| 0 <= i < comp@.len() && 0 <= j < stack@.len() ==> comp@[i] != stack@[j],
                count_true(visited@) <= n,
                fuel >= 2 * (n - count_true(visited@)) + stack@.len(),
                dfs_run(g, DfsState { visited: visited@, stack: stack@, order: comp@ }, fuel) == dfs_run(g, init, 2 * g.n + 1),
            decreases 2 * (n - count_true(visited@)) + stack@.len(),
        {
            let ghost measure = 2 * (n - count_true(visited@)) + stack@.len();
            let ghost old_stack = stack@;
            let ghost old_comp = comp@;
            let ghost s0 = DfsState { visited: visited@, stack: stack@, order: comp@ };
            let u = stack.pop().unwrap();
            comp.push(u);
            let ghost vis1 = visited@;
            let ghost st1 = stack@;
            proof {
                assert(stack@ == old_stack.drop_last());
                assert(u == old_stack.last());
                assert forall|x: usize| x < n implies (visited@[x as int] <==> (#[trigger] in_some(comps, x) || comp@.contains(x) || stack@.contains(x))) by {
                    if old_comp.contains(x) {
                        let i = choose|i: int| 0 <= i < old_comp.len() && old_comp[i] == x;
                        assert(comp@[i] == x);
                    }
                    if old_stack.contains(x) {
                        let i = choose|i: int| 0 <= i < old_stack.len() && old_stack[i] == x;
                        if i == old_stack.len() - 1 {
                            assert(comp@[comp@.len() - 1] == x);
                        } else {
                            assert(stack@[i] == x);
                        }
                    }
                    if comp@.contains(x) {
                        let i = choose|i: int| 0 <= i < comp@.len() && comp@[i] == x;
                        if i < old_comp.len() {
                            assert(old_comp[i] == x);
                        } else {
                            assert(old_stack[old_stack.len() - 1] == x);
                        }
                    }
                    if stack@.contains(x) {
                        let i = choose|i: int| 0 <= i < stack@.len() && stack@[i] == x;
                        assert(old_stack[i] == x);
                    }
                }
                assert forall|i: int| 0 <= i < comp@.len() implies {
                    &&& (#[trigger] comp@[i]) < n
                    &&& start <= comp@[i]
                    &&& !in_some(comps, comp@[i])
                    &&& g.reachable(start, comp@[i])
                } by {
                    if i == comp@.len() - 1 {
                        assert(old_stack[old_stack.len() - 1] == u);
                    } else {
                        assert(comp@[i] == old_comp[i]);
                    }
                }
                assert forall|i: int, j: int| 0 <= i < j < comp@.len() implies comp@[i] != comp@[j] by {
                    if j == comp@.len() - 1 {
                        assert(comp@[i] == old_comp[i]);
                        assert(old_stack[old_stack.len() - 1] == u);
                    } else {
                        assert(comp@[i] == old_comp[i]);
                        assert(comp@[j] == old_comp[j]);
                    }
                }
                assert forall|i: int, j: int| 0 <= i < comp@.len() && 0 <= j < stack@.len() implies comp@[i] != stack@[j] by {
                    assert(stack@[j] == old_stack[j]);
                    if i == comp@.len() - 1 {
                        assert(old_stack[old_stack.len() - 1] == u);
                    } else {
                        assert(comp@[i] == old_comp[i]);
                    }
                }
                if old_comp.len() == 0 {
                    assert(comp@[0] == start);
                }
            }
            let nb = &self.adj[u];
            let m = nb.len();
            let mut j: usize = 0;
            proof {
                assert(nb@ == g.adj[u as int]);
                assert(nb@.take(0) =~= Seq::<(usize, u64)>::empty());
            }
            while j < m
                invariant
                    g == self@,
                    self.wf(),
                    g.wf(),
                    n == g.n,
                    start < n,
                    u < n,
                    comp@.len() > 0,
                    comp@[comp@.len() - 1] == u,
                    comp@[0] == start,
                    nb@ == g.adj[u as int],
                    m == nb@.len(),
                    j <= m,
                    visited@.len() == n,
                    forall|x: usize| x < start ==> #[trigger] visited@[x as int],
                    forall|x: usize| x < n ==> (visited@[x as int] <==> (#[trigger] in_some(comps, x) || comp@.contains(x) || stack@.contains(x))),
                    forall|c: int, i: int, y: usize|
                        0 <= c < comps.len() && 0 <= i < comps[c]@.len() && #[trigger] g.adjacent(comps[c]@[i], y)
                            ==> comps[c]@.contains(y),
                    forall|i: int| 0 <= i < comp@.len() ==> {
                        &&& (#[trigger] comp@[i]) < n
                        &&& start <= comp@[i]
                        &&& !in_some(comps, comp@[i])
                        &&& g.reachable(start, comp@[i])
                    },
                    forall|i: int| 0 <= i < stack@.len() ==> {
                        &&& (#[trigger] stack@[i]) < n
                        &&& start <= stack@[i]
                        &&& !in_some(comps, stack@[i])
                        &&& g.reachable(start, stack@[i])
                    },
                    forall|i: int, y: usize|
                        0 <= i < comp@.len() - 1 && #[trigger] g.adjacent(comp@[i], y) ==> y < n && visited@[y as int],
                    forall|j2: int| 0 <= j2 < j ==> visited@[(#[trigger] nb@[j2]).0 as int],
                    forall|i: int, j: int| 0 <= i < j < comp@.len() ==> comp@[i] != comp@[j],
                    forall|i: int, j: int| 0 <= i < j < stack@.len() ==> stack@[i] != stack@[j],
                    forall|i: int, j: int| 0 <= i < comp@.len() && 0 <= j < stack@.len() ==> comp@[i] != stack@[j],
                    count_true(visited@) <= n,
                    2 * (n - count_true(visited@)) + stack@.len() < measure,
                    (visited@, stack@) == push_unseen(vis1, st1, nb@.take(j as int)),
                decreases m - j,
            {
                let v = nb[j].0;
                proof {
                    g.lemma_entry_adjacent(u, j as int);
                    assert(nb@.take(j + 1).drop_last() =~= nb@.take(j as int));
                    assert(nb@.take(j + 1).last() == nb@[j as int]);
                }
                if !visited[v] {
                    let ghost old_vis = visited@;
                    let ghost old_stack2 = stack@;
                    proof {
                        lemma_count_true_set(visited@, v as int);
                        lemma_count_true_le(visited@.update(v as int, true));
                        let k = choose|k: nat| #[trigger] g.within(start, u, k);
                        g.lemma_within_extend(start, u, v, k);
                        assert(!in_some(comps, v));
                        if v < start {
                            assert(visited@[v as int]);
                        }
                    }
                    visited.set(v, true);
                    stack.push(v);
                    proof {
                        assert(stack@[stack@.len() - 1] == v);
                        assert forall|x: usize| x < n implies (visited@[x as int] <==> (#[trigger] in_some(comps, x) || comp@.contains(x) || stack@.contains(x))) by {
                            if x != v {
                                assert(visited@[x as int] == old_vis[x as int]);
                                if stack@.contains(x) {
                                    let i = choose|i: int| 0 <= i < stack@.len() && stack@[i] == x;
                                    assert(old_stack2[i] == x);
                                }
                                if old_stack2.contains(x) {
                                    let i = choose|i: int| 0 <= i < old_stack2.len() && old_stack2[i] == x;
                                    assert(stack@[i] == x);
                                }
                            }
                        }
                        assert forall|i: int| 0 <= i < stack@.len() implies {
                            &&& (#[trigger] stack@[i]) < n
                            &&& start <= stack@[i]
                            &&& !in_some(comps, stack@[i])
                            &&& g.reachable(start, stack@[i])
                        } by {
                            if i < stack@.len() - 1 {
                                assert(stack@[i] == old_stack2[i]);
                            }
                        }
                        assert forall|i: int, j: int| 0 <= i < j < stack@.len() implies stack@[i] != stack@[j] by {
                            assert(stack@[i] == old_stack2[i]);
                            if j < stack@.len() - 1 {
                                assert(stack@[j] == old_stack2[j]);
                            } else {
                                assert(old_vis[stack@[i] as int]);
                            }
                        }
                        assert forall|i: int, j: int| 0 <= i < comp@.len() && 0 <= j < stack@.len() implies comp@[i] != stack@[j] by {
                            if j < stack@.len() - 1 {
                                assert(stack@[j] == old_stack2[j]);
                            } else {
                                assert(old_vis[comp@[i] as int]);
                            }
                        }
                    }
                }
                j = j + 1;
            }
            proof {
                assert(nb@.take(m as int) =~= nb@);
                assert(DfsState { visited: visited@, stack: stack@, order: comp@ } == dfs_step(g, s0));
                fuel = (fuel - 1) as nat;
                assert forall|i: int, y: usize| 0 <= i < comp@.len() && #[trigger] g.adjacent(comp@[i], y) implies y < n && visited@[y as int] by {
                    if i == comp@.len() - 1 {
                        g.lemma_adjacent_listed(u, y);
                        let j2 = choose|j2: int| 0 <= j2 < g.adj[u as int].len() && #[trigger] g.adj[u as int][j2].0 == y;
                        assert(nb@[j2].0 == y);
                    }
                }
            }
        }
        proof {
            assert forall|i: int, y: usize| 0 <= i < comp@.len() && #[trigger] g.adjacent(comp@[i], y) implies comp@.contains(y) by {
                assert(visited@[y as int]);
                if in_some(comps, y) {
                    let c = choose|c: int| 0 <= c < comps.len() && (#[trigger] comps[c])@.contains(y);
                    let i2 = choose|i2: int| 0 <= i2 < comps[c]@.len() && comps[c]@[i2] == y;
                    g.lemma_adjacent_symmetric(comp@[i], y);
                    assert(g.adjacent(comps[c]@[i2], comp@[i]));
                    assert(in_some(comps, comp@[i]));
                }
            }
            assert(dfs_run(g, DfsState { visited: visited@, stack: stack@, order: comp@ }, fuel) == DfsState { visited: visited@, stack: stack@, order: comp@ });
        }
        comp
    }
    /// Build a complete graph on `n` agents (unit weights).
    pub fn complete(n: usize) -> (g: Self)
        ensures
            g.wf(),
            g@.n == n,
            forall|a: int| 0 <= a < n ==> #[trigger] g@.adj[a] == others_prefix(a, (n - 1) as nat),
            forall|k: (usize, usize)| #[trigger] g@.weights.dom().contains(k) <==> k.0 < k.1 < n,
            forall|k: (usize, usize)| #[trigger] g@.weights.dom().contains(k) ==> g@.weights[k] == UNIT_WEIGHT,
    {
        let mut g = Self::new(n);
        let mut i: usize = 0;
        proof {
            assert forall|a: int| 0 <= a < n implies #[trigger] g@.adj[a] == others_prefix(a, 0) by {
                assert(g@.adj[a] =~= others_prefix(a, 0));
            }
        }
        while i < n
            invariant
                g.wf(),
                g@.n == n,
                i <= n,
                forall|a: int| 0 <= a < n ==> #[trigger] g@.adj[a] == others_prefix(a, if a < i { (n - 1) as nat } else { i as nat }),
                forall|k: (usize, usize)| #[trigger] g@.weights.dom().contains(k) <==> (k.0 < k.1 < n && k.0 < i),
                forall|k: (usize, usize)| #[trigger] g@.weights.dom().contains(k) ==> g@.weights[k] == UNIT_WEIGHT,
            decreases n - i,
        {
            let mut j: usize = i + 1;
            while j < n
                invariant
                    g.wf(),
                    g@.n == n,
                    i < n,
                    i + 1 <= j <= n,
                    forall|a: int| 0 <= a < n ==> #[trigger] g@.adj[a] == others_prefix(a, if a < i {
                        (n - 1) as nat
                    } else if a == i {
                        (j - 1) as nat
                    } else if a < j {
                        (i + 1) as nat
                    } else {
                        i as nat
                    }),
                    forall|k: (usize, usize)| #[trigger] g@.weights.dom().contains(k) <==> (k.0 < k.1 < n && (k.0 < i || (k.0 == i && k.1 < j))),
                    forall|k: (usize, usize)| #[trigger] g@.weights.dom().contains(k) ==> g@.weights[k] == UNIT_WEIGHT,
                decreases n - j,
            {
                let ghost old_g = g@;
                g.add_edge(i, j, UNIT_WEIGHT);
                proof {
                    assert forall|a: int| 0 <= a < n implies #[trigger] g@.adj[a] == others_prefix(a, if a < i {
                        (n - 1) as nat
                    } else if a == i {
                        j as nat
                    } else if a < j + 1 {
                        (i + 1) as nat
                    } else {
                        i as nat
                    }) by {
                        if a == i {
                            assert(g@.adj[a] =~= others_prefix(a, j as nat));
                        } else if a == j {
                            assert(g@.adj[a] =~= others_prefix(a, (i + 1) as nat));
                        }
                    }
                }
                j = j + 1;
            }
            i = i + 1;
        }
        g
    }

    /// Build a path graph on `n` agents (unit weights).
    pub fn path(n: usize) -> (g: Self)
        ensures
            g.wf(),
            g@.n == n,
            forall|a: int| 0 <= a < n ==> #[trigger] g@.adj[a] == path_adj(n as nat, a),
            forall|k: (usize, usize)| #[trigger] g@.weights.dom().contains(k) <==> (k.1 == k.0 + 1 && k.1 < n),
            forall|k: (usize, usize)| #[trigger] g@.weights.dom().contains(k) ==> g@.weights[k] == UNIT_WEIGHT,
    {
        let mut g = Self::new(n);
        let m: usize = if n > 0 { n - 1 } else { 0 };
        let mut i: usize = 0;
        proof {
            assert forall|a: int| 0 <= a < n implies #[trigger] g@.adj[a] == path_prefix_adj(a, 0) by {
                assert(g@.adj[a] =~= path_prefix_adj(a, 0));
            }
        }
        while i < m
            invariant
                g.wf(),
                g@.n == n,
                m == (if n > 0 { n - 1 } else { 0 }),
                i <= m,
                forall|a: int| 0 <= a < n ==> #[trigger] g@.adj[a] == path_prefix_adj(a, i as int),
                forall|k: (usize, usize)| #[trigger] g@.weights.dom().contains(k) <==> (k.1 == k.0 + 1 && k.0 < i),
                forall|k: (usize, usize)| #[trigger] g@.weights.dom().contains(k) ==> g@.weights[k] == UNIT_WEIGHT,
            decreases m - i,
        {
            g.add_edge(i, i + 1, UNIT_WEIGHT);
            proof {
                assert forall|a: int| 0 <= a < n implies #[trigger] g@.adj[a] == path_prefix_adj(a, i + 1) by {
                    assert(g@.adj[a] =~= path_prefix_adj(a, i + 1));
                }
            }
            i = i + 1;
        }
        proof {
            assert forall|a: int| 0 <= a < n implies #[trigger] g@.adj[a] == path_adj(n as nat, a) by {
                assert(path_adj(n as nat, a) == path_prefix_adj(a, m as int));
            }
        }
        g
    }

    /// Build a cycle graph on `n` agents (unit weights); for `n <= 2` this is the path.
    pub fn cycle(n: usize) -> (g: Self)
        ensures
            g.wf(),
            g@ == cycle_view(n as nat),
            g@.n == n,
            forall|a: int| 0 <= a < n ==> #[trigger] g@.adj[a] == cycle_adj(n as nat, a),
            forall|k: (usize, usize)| #[trigger] g@.weights.dom().contains(k) <==> ((k.1 == k.0 + 1 && k.1 < n) || (
            n > 2 && k == (0usize, (n - 1) as usize))),
            forall|k: (usize, usize)| #[trigger] g@.weights.dom().contains(k) ==> g@.weights[k] == UNIT_WEIGHT,
    {
        let mut g = Self::path(n);
        if n > 2 {
            g.add_edge(0, n - 1, UNIT_WEIGHT);
            proof {
                assert forall|a: int| 0 <= a < n implies #[trigger] g@.adj[a] == cycle_adj(n as nat, a) by {
                    assert(g@.adj[a] =~= cycle_adj(n as nat, a));
                }
            }
        }
        proof {
            let c = cycle_view(n as nat);
            assert(g@.adj =~= c.adj);
            assert(g@.weights =~= c.weights);
        }
        g
    }

    /// Build a star graph: agent 0 connected to all others (unit weights).
    pub fn star(n: usize) -> (g: Self)
        ensures
            g.wf(),
            g@.n == n,
            forall|a: int| 0 <= a < n ==> #[trigger] g@.adj[a] == star_adj(n as nat, a),
            forall|k: (usize, usize)| #[trigger] g@.weights.dom().contains(k) <==> (k.0 == 0 && 0 < k.1 < n),
            forall|k: (usize, usize)| #[trigger] g@.weights.dom().contains(k) ==> g@.weights[k] == UNIT_WEIGHT,
    {
        let mut g = Self::new(n);
        if n == 0 {
            return g;
        }
        let mut i: usize = 1;
        proof {
            assert forall|a: int| 0 <= a < n implies #[trigger] g@.adj[a] == (if a == 0 {
                Seq::new(0, |k: int| ((k + 1) as usize, UNIT_WEIGHT))
            } else {
                Seq::<(usize, u64)>::empty()
            }) by {
                assert(g@.adj[a] =~= (if a == 0 {
                    Seq::new(0, |k: int| ((k + 1) as usize, UNIT_WEIGHT))
                } else {
                    Seq::<(usize, u64)>::empty()
                }));
            }
        }
        while i < n
            invariant
                g.wf(),
                g@.n == n,
                1 <= i <= n,
                forall|a: int| 0 <= a < n ==> #[trigger] g@.adj[a] == (if a == 0 {
                    Seq::new((i - 1) as nat, |k: int| ((k + 1) as usize, UNIT_WEIGHT))
                } else if a < i {
                    seq![(0usize, UNIT_WEIGHT)]
                } else {
                    Seq::<(usize, u64)>::empty()
                }),
                forall|k: (usize, usize)| #[trigger] g@.weights.dom().contains(k) <==> (k.0 == 0 && 0 < k.1 < i),
                forall|k: (usize, usize)| #[trigger] g@.weights.dom().contains(k) ==> g@.weights[k] == UNIT_WEIGHT,
            decreases n - i,
        {
            g.add_edge(0, i, UNIT_WEIGHT);
            proof {
                assert forall|a: int| 0 <= a < n implies #[trigger] g@.adj[a] == (if a == 0 {
                    Seq::new(i as nat, |k: int| ((k + 1) as usize, UNIT_WEIGHT))
                } else if a < i + 1 {
                    seq![(0usize, UNIT_WEIGHT)]
                } else {
                    Seq::<(usize, u64)>::empty()
                }) by {
                    if a == 0 {
                        assert(g@.adj[a] =~= Seq::new(i as nat, |k: int| ((k + 1) as usize, UNIT_WEIGHT)));
                    } else if a == i {
                        assert(g@.adj[a] =~= seq![(0usize, UNIT_WEIGHT)]);
                    }
                }
            }
            i = i + 1;
        }
        proof {
            assert forall|a: int| 0 <= a < n implies #[trigger] g@.adj[a] == star_adj(n as nat, a) by {}
        }
        g
    }
    /// Build a grid graph (`rows x cols`, unit weights); the agent of cell
    /// `(r, c)` is `r * cols + c`.
    pub fn grid(rows: usize, cols: usize) -> (g: Self)
        requires
            rows * cols <= usize::MAX,
        ensures
            g.wf(),
            g@.n == rows * cols,
            forall|r: int, c: int|
                0 <= r < rows && 0 <= c < cols ==> #[trigger] g@.adj[r * cols + c] == grid_adj(rows as int, cols as int, r, c),
            forall|k: (usize, usize)|
                #[trigger] g@.weights.dom().contains(k) <==> grid_edge_upto(rows as int, cols as int, k, rows as int, 0),
            forall|k: (usize, usize)| #[trigger] g@.weights.dom().contains(k) ==> g@.weights[k] == UNIT_WEIGHT,
    {
        let n = rows * cols;
        let mut g = Self::new(n);
        let ghost nr = rows as int;
        let ghost nc = cols as int;
        let mut r: usize = 0;
        proof {
            assert forall|r2: int, c2: int| 0 <= r2 < nr && 0 <= c2 < nc implies #[trigger] g@.adj[r2 * nc + c2] == grid_partial_adj(nr, nc, r2, c2, 0, 0) by {
                lemma_cell_index(nr, nc, r2, c2);
                assert(g@.adj[r2 * nc + c2] =~= grid_partial_adj(nr, nc, r2, c2, 0, 0));
            }
        }
        while r < rows
            invariant
                g.wf(),
                g@.n == n,
                n == rows * cols,
                nr == rows,
                nc == cols,
                r <= rows,
                forall|r2: int, c2: int|
                    0 <= r2 < nr && 0 <= c2 < nc ==> #[trigger] g@.adj[r2 * nc + c2] == grid_partial_adj(nr, nc, r2, c2, r as int, 0),
                forall|k: (usize, usize)| #[trigger] g@.weights.dom().contains(k) <==> grid_edge_upto(nr, nc, k, r as int, 0),
                forall|k: (usize, usize)| #[trigger] g@.weights.dom().contains(k) ==> g@.weights[k] == UNIT_WEIGHT,
            decreases rows - r,
        {
            let mut c: usize = 0;
            while c < cols
                invariant
                    g.wf(),
                    g@.n == n,
                    n == rows * cols,
                    nr == rows,
                    nc == cols,
                    r < rows,
                    c <= cols,
                    forall|r2: int, c2: int|
                        0 <= r2 < nr && 0 <= c2 < nc ==> #[trigger] g@.adj[r2 * nc + c2] == grid_partial_adj(nr, nc, r2, c2, r as int, c as int),
                    forall|k: (usize, usize)| #[trigger] g@.weights.dom().contains(k) <==> grid_edge_upto(nr, nc, k, r as int, c as int),
                    forall|k: (usize, usize)| #[trigger] g@.weights.dom().contains(k) ==> g@.weights[k] == UNIT_WEIGHT,
                decreases cols - c,
            {
                proof {
                    lemma_cell_index(nr, nc, r as int, c as int);
                    if r + 1 < rows {
                        lemma_cell_index(nr, nc, r as int + 1, c as int);
                    }
                }
                let u = r * cols + c;
                let ghost g0 = g@;
                if c + 1 < cols {
                    g.add_edge(u, u + 1, UNIT_WEIGHT);
                }
                if r + 1 < rows {
                    g.add_edge(u, u + cols, UNIT_WEIGHT);
                }
                proof {
                    lemma_grid_adj_step(g0, g@, nr, nc, r as int, c as int);
                    lemma_grid_weights_step(g0, g@, nr, nc, r as int, c as int);
                }
                c = c + 1;
            }
            proof {
                let rr = r as int;
                assert forall|r2: int, c2: int|
                    0 <= r2 < nr && 0 <= c2 < nc implies #[trigger] g@.adj[r2 * nc + c2] == grid_partial_adj(nr, nc, r2, c2, rr + 1, 0) by {
                    assert(grid_partial_adj(nr, nc, r2, c2, rr, nc) =~= grid_partial_adj(nr, nc, r2, c2, rr + 1, 0));
                }
                assert forall|k: (usize, usize)| #[trigger] g@.weights.dom().contains(k) <==> grid_edge_upto(nr, nc, k, rr + 1, 0) by {
                    if grid_edge_upto(nr, nc, k, rr + 1, 0) {
                        let (r2, c2) = choose|r2: int, c2: int|
                            0 <= r2 < nr && 0 <= c2 < nc && cell_before(r2, c2, rr + 1, 0) && #[trigger] grid_cell_edge(nr, nc, r2, c2, k);
                        assert(cell_before(r2, c2, rr, nc));
                    }
                    if grid_edge_upto(nr, nc, k, rr, nc) {
                        let (r2, c2) = choose|r2: int, c2: int|
                            0 <= r2 < nr && 0 <= c2 < nc && cell_before(r2, c2, rr, nc) && #[trigger] grid_cell_edge(nr, nc, r2, c2, k);
                        assert(cell_before(r2, c2, rr + 1, 0));
                    }
                }
            }
            r = r + 1;
        }
        g
    }
}

} // verus!
