//! Why the transpose cleanup lowers the crossing count: swapping two
//! adjacent nodes changes the crossings between their layer and each
//! neighboring layer by exactly the difference of the local counts that
//! the cleanup compares, so every swap it makes lowers
//! `count_total_crossings`.
use vstd::prelude::*;
use crate::types::{LayoutNode, LayoutEdge, NodeId};
use crate::crossings::{
    crosses, crossings_with, crossing_pairs, local_cross, count_below, ord_of, rank_val, first_pos, lemma_first_pos,
    layer_segments, neighbor_lists, edge_problem, orders_consistent, listed_once, OrderState, TState, swap_step,
    layer_crossings, total_crossings, all_crossings, lemma_swap_step_consistent, lemma_swap_step_keeps, layer_sweep,
    transpose_layers, transpose_spec,
};
use crate::dummy_nodes::{single_rank_edges, rank_at};

verus! {

/// How many segments of `s` cross segment `x`.
pub open spec fn cross_count(s: Seq<(int, int)>, x: (int, int)) -> int
    decreases s.len(),
{
    if s.len() == 0 {
        0
    } else {
        cross_count(s.drop_last(), x) + if crosses(s.last(), x) {
            1int
        } else {
            0int
        }
    }
}

/// The crossing pairs of `s`, counted segment by segment against the
/// segments before it.
pub open spec fn pair_count(s: Seq<(int, int)>) -> int
    decreases s.len(),
{
    if s.len() == 0 {
        0
    } else {
        pair_count(s.drop_last()) + cross_count(s.drop_last(), s.last())
    }
}

/// Exchanges the positions `c` and `c + 1`.
pub open spec fn swap_pos(u: int, c: int) -> int {
    if u == c {
        c + 1
    } else if u == c + 1 {
        c
    } else {
        u
    }
}

/// The segment with its upper end moved by exchanging positions `c` and
/// `c + 1`.
pub open spec fn swap_upper(x: (int, int), c: int) -> (int, int) {
    (swap_pos(x.0, c), x.1)
}

/// The segments with their upper ends moved by exchanging positions `c`
/// and `c + 1`.
pub open spec fn swap_uppers(s: Seq<(int, int)>, c: int) -> Seq<(int, int)> {
    s.map_values(|x: (int, int)| swap_upper(x, c))
}

/// +1 when `p < q`, -1 when `p > q`, else 0.
pub open spec fn order_sign(p: int, q: int) -> int {
    if p < q {
        1
    } else if p > q {
        -1
    } else {
        0
    }
}

/// The lower ends of the segments of `s` whose upper end is at `c`.
pub open spec fn lowers_at(s: Seq<(int, int)>, c: int) -> Seq<int>
    decreases s.len(),
{
    if s.len() == 0 {
        Seq::empty()
    } else if s.last().0 == c {
        lowers_at(s.drop_last(), c).push(s.last().1)
    } else {
        lowers_at(s.drop_last(), c)
    }
}

/// The sum of `order_sign(p, q)` over the `q` of `b`.
pub open spec fn sign_row(p: int, b: Seq<int>) -> int
    decreases b.len(),
{
    if b.len() == 0 {
        0
    } else {
        sign_row(p, b.drop_last()) + order_sign(p, b.last())
    }
}

/// The sum of `order_sign(p, q)` over the pairs of `p` in `a` and `q` in
/// `b`.
pub open spec fn sign_sum(a: Seq<int>, b: Seq<int>) -> int
    decreases a.len(),
{
    if a.len() == 0 {
        0
    } else {
        sign_sum(a.drop_last(), b) + sign_row(a.last(), b)
    }
}

/// Moving the upper ends of two segments changes whether they cross only
/// when one sits at `c` and the other at `c + 1`.
proof fn lemma_swap_changes_crossing(x: (int, int), z: (int, int), c: int)
    ensures
        (if crosses(swap_upper(x, c), swap_upper(z, c)) {
            1int
        } else {
            0int
        }) - (if crosses(x, z) {
            1int
        } else {
            0int
        }) == (if x.0 == c && z.0 == c + 1 {
            order_sign(x.1, z.1)
        } else {
            0
        }) + (if x.0 == c + 1 && z.0 == c {
            order_sign(z.1, x.1)
        } else {
            0
        }),
{
}

/// How the crossings against one segment change when the upper positions
/// `c` and `c + 1` are exchanged.
proof fn lemma_cross_count_swap(s: Seq<(int, int)>, z: (int, int), c: int)
    ensures
        cross_count(swap_uppers(s, c), swap_upper(z, c)) - cross_count(s, z) == (if z.0 == c + 1 {
            sign_col(lowers_at(s, c), z.1)
        } else {
            0
        }) + (if z.0 == c {
            sign_row(z.1, lowers_at(s, c + 1))
        } else {
            0
        }),
    decreases s.len(),
{
    if s.len() > 0 {
        let init = s.drop_last();
        let x = s.last();
        lemma_cross_count_swap(init, z, c);
        assert(swap_uppers(s, c).drop_last() =~= swap_uppers(init, c));
        assert(swap_uppers(s, c).last() == swap_upper(x, c));
        lemma_swap_changes_crossing(x, z, c);
        if x.0 == c {
            assert(lowers_at(s, c) == lowers_at(init, c).push(x.1));
            assert(lowers_at(s, c).drop_last() =~= lowers_at(init, c));
            assert(lowers_at(s, c + 1) == lowers_at(init, c + 1));
        } else if x.0 == c + 1 {
            assert(lowers_at(s, c + 1) == lowers_at(init, c + 1).push(x.1));
            assert(lowers_at(s, c + 1).drop_last() =~= lowers_at(init, c + 1));
            assert(lowers_at(s, c) == lowers_at(init, c));
        } else {
            assert(lowers_at(s, c) == lowers_at(init, c));
            assert(lowers_at(s, c + 1) == lowers_at(init, c + 1));
        }
    }
}

/// The sum of `order_sign(p, q)` over the `p` of `a`.
pub open spec fn sign_col(a: Seq<int>, q: int) -> int
    decreases a.len(),
{
    if a.len() == 0 {
        0
    } else {
        sign_col(a.drop_last(), q) + order_sign(a.last(), q)
    }
}

proof fn lemma_sign_sum_push_right(a: Seq<int>, b: Seq<int>, q: int)
    ensures
        sign_sum(a, b.push(q)) == sign_sum(a, b) + sign_col(a, q),
    decreases a.len(),
{
    if a.len() > 0 {
        lemma_sign_sum_push_right(a.drop_last(), b, q);
        assert(b.push(q).drop_last() =~= b);
    }
}

/// Exchanging the upper positions `c` and `c + 1` changes the crossing
/// pairs by the sum of `order_sign` over the pairs of a segment at `c` and
/// a segment at `c + 1`, taken by their lower ends.
proof fn lemma_pair_count_swap(s: Seq<(int, int)>, c: int)
    ensures
        pair_count(swap_uppers(s, c)) - pair_count(s) == sign_sum(lowers_at(s, c), lowers_at(s, c + 1)),
    decreases s.len(),
{
    if s.len() > 0 {
        let init = s.drop_last();
        let z = s.last();
        lemma_pair_count_swap(init, c);
        assert(swap_uppers(s, c).drop_last() =~= swap_uppers(init, c));
        assert(swap_uppers(s, c).last() == swap_upper(z, c));
        lemma_cross_count_swap(init, z, c);
        if z.0 == c {
            assert(lowers_at(s, c) == lowers_at(init, c).push(z.1));
            assert(lowers_at(s, c + 1) == lowers_at(init, c + 1));
            assert(lowers_at(s, c).drop_last() =~= lowers_at(init, c));
        } else if z.0 == c + 1 {
            assert(lowers_at(s, c) == lowers_at(init, c));
            assert(lowers_at(s, c + 1) == lowers_at(init, c + 1).push(z.1));
            lemma_sign_sum_push_right(lowers_at(init, c), lowers_at(init, c + 1), z.1);
        }
    }
}


proof fn lemma_crossings_with_push_prefix(s: Seq<(int, int)>, y: (int, int), i: int, j: int)
    requires
        0 <= i,
        j <= s.len(),
    ensures
        crossings_with(s.push(y), i, j) == crossings_with(s, i, j),
    decreases j - i,
{
    if j > i + 1 {
        lemma_crossings_with_push_prefix(s, y, i, j - 1);
        assert(s.push(y)[j - 1] == s[j - 1]);
        assert(s.push(y)[i] == s[i]);
    }
}

proof fn lemma_crossing_pairs_push(s: Seq<(int, int)>, y: (int, int), k: int)
    requires
        0 <= k <= s.len(),
    ensures
        crossing_pairs(s.push(y), k) == crossing_pairs(s, k) + cross_count(s.take(k), y),
    decreases k,
{
    if k > 0 {
        let t = s.push(y);
        lemma_crossing_pairs_push(s, y, k - 1);
        lemma_crossings_with_push_prefix(s, y, k - 1, s.len() as int);
        assert(t[k - 1] == s[k - 1]);
        assert(t[s.len() as int] == y);
        assert(crossings_with(t, k - 1, t.len() as int) == crossings_with(t, k - 1, s.len() as int) + if crosses(
            t[k - 1],
            t[s.len() as int],
        ) {
            1int
        } else {
            0int
        });
        assert(s.take(k).drop_last() =~= s.take(k - 1));
        assert(s.take(k).last() == s[k - 1]);
    } else {
        assert(s.take(0) =~= Seq::<(int, int)>::empty());
    }
}

/// Counting by pairs of positions and counting segment by segment agree.
pub(crate) proof fn lemma_pair_count_is_crossing_pairs(s: Seq<(int, int)>)
    ensures
        pair_count(s) == crossing_pairs(s, s.len() as int),
    decreases s.len(),
{
    if s.len() > 0 {
        let init = s.drop_last();
        let y = s.last();
        lemma_pair_count_is_crossing_pairs(init);
        assert(s == init.push(y));
        lemma_crossing_pairs_push(init, y, init.len() as int);
        assert(init.take(init.len() as int) =~= init);
        assert(crossings_with(s, init.len() as int, s.len() as int) == 0);
    }
}

/// The segments with their two ends exchanged.
pub open spec fn mirror(s: Seq<(int, int)>) -> Seq<(int, int)> {
    s.map_values(|x: (int, int)| (x.1, x.0))
}

/// The segments with their lower ends moved by exchanging positions `c`
/// and `c + 1`.
pub open spec fn swap_lowers(s: Seq<(int, int)>, c: int) -> Seq<(int, int)> {
    s.map_values(|x: (int, int)| (x.0, swap_pos(x.1, c)))
}

proof fn lemma_cross_count_mirror(s: Seq<(int, int)>, x: (int, int))
    ensures
        cross_count(mirror(s), (x.1, x.0)) == cross_count(s, x),
    decreases s.len(),
{
    if s.len() > 0 {
        lemma_cross_count_mirror(s.drop_last(), x);
        assert(mirror(s).drop_last() =~= mirror(s.drop_last()));
    }
}

proof fn lemma_pair_count_mirror(s: Seq<(int, int)>)
    ensures
        pair_count(mirror(s)) == pair_count(s),
    decreases s.len(),
{
    if s.len() > 0 {
        lemma_pair_count_mirror(s.drop_last());
        lemma_cross_count_mirror(s.drop_last(), s.last());
        assert(mirror(s).drop_last() =~= mirror(s.drop_last()));
    }
}

/// Exchanging the lower positions `c` and `c + 1` changes the crossing
/// pairs by the sum of `order_sign` over the pairs of a segment ending at
/// `c` and one ending at `c + 1`, taken by their upper ends.
proof fn lemma_pair_count_swap_lowers(s: Seq<(int, int)>, c: int)
    ensures
        pair_count(swap_lowers(s, c)) - pair_count(s) == sign_sum(lowers_at(mirror(s), c), lowers_at(mirror(s), c + 1)),
{
    let m = mirror(s);
    lemma_pair_count_swap(m, c);
    assert(swap_lowers(s, c) =~= mirror(swap_uppers(m, c)));
    assert(mirror(m) =~= s);
    lemma_pair_count_mirror(swap_uppers(m, c));
    lemma_pair_count_mirror(m);
}

/// The order values of the nodes of `s`.
pub open spec fn ords(nodes: Seq<LayoutNode>, s: Seq<NodeId>) -> Seq<int> {
    s.map_values(|v: NodeId| ord_of(nodes, v as int))
}

/// How many nodes of `s` have an order above `x`.
pub open spec fn count_above(nodes: Seq<LayoutNode>, x: int, s: Seq<NodeId>) -> int
    decreases s.len(),
{
    if s.len() == 0 {
        0
    } else {
        count_above(nodes, x, s.drop_last()) + if ord_of(nodes, s.last() as int) > x {
            1int
        } else {
            0int
        }
    }
}

proof fn lemma_sign_row_counts(nodes: Seq<LayoutNode>, p: int, rs: Seq<NodeId>)
    ensures
        sign_row(p, ords(nodes, rs)) == count_above(nodes, p, rs) - count_below(nodes, p, rs),
    decreases rs.len(),
{
    if rs.len() > 0 {
        lemma_sign_row_counts(nodes, p, rs.drop_last());
        assert(ords(nodes, rs).drop_last() =~= ords(nodes, rs.drop_last()));
    }
}

proof fn lemma_local_cross_push_right(
    nodes: Seq<LayoutNode>,
    rs: Seq<NodeId>,
    ls: Seq<NodeId>,
    p: NodeId,
)
    ensures
        local_cross(nodes, rs, ls.push(p)) == local_cross(nodes, rs, ls) + count_above(nodes, ord_of(nodes, p as int), rs),
    decreases rs.len(),
{
    if rs.len() > 0 {
        lemma_local_cross_push_right(nodes, rs.drop_last(), ls, p);
        assert(ls.push(p).drop_last() =~= ls);
    }
}

/// The pairs of a node of `ls` and a node of `rs`, summed by
/// `order_sign` of their orders, are the crossings with `rs` on the left
/// less those with `ls` on the left.
proof fn lemma_sign_sum_is_local_difference(
    nodes: Seq<LayoutNode>,
    ls: Seq<NodeId>,
    rs: Seq<NodeId>,
)
    ensures
        sign_sum(ords(nodes, ls), ords(nodes, rs)) == local_cross(nodes, rs, ls) - local_cross(nodes, ls, rs),
    decreases ls.len(),
{
    if ls.len() > 0 {
        let init = ls.drop_last();
        let p = ls.last();
        lemma_sign_sum_is_local_difference(nodes, init, rs);
        assert(ords(nodes, ls).drop_last() =~= ords(nodes, init));
        lemma_sign_row_counts(nodes, ord_of(nodes, p as int), rs);
        assert(ls == init.push(p));
        lemma_local_cross_push_right(nodes, rs, init, p);
    } else {
        assert(ords(nodes, ls) =~= Seq::<int>::empty());
        lemma_local_cross_empty_right(nodes, rs, ls);
    }
}

proof fn lemma_local_cross_empty_right(nodes: Seq<LayoutNode>, rs: Seq<NodeId>, ls: Seq<NodeId>)
    requires
        ls.len() == 0,
    ensures
        local_cross(nodes, rs, ls) == 0,
    decreases rs.len(),
{
    if rs.len() > 0 {
        lemma_local_cross_empty_right(nodes, rs.drop_last(), ls);
    }
}

/// A layering as crossing reduction works on it: every edge joins adjacent
/// ranks going down, every node has a rank and is listed in the layer of
/// that rank, only there and only once, and every listed node's order is
/// its position.
pub open spec fn counted_layering(nodes: Seq<LayoutNode>, edges: Seq<LayoutEdge>, layers: Seq<Seq<NodeId>>) -> bool {
    &&& single_rank_edges(nodes, edges)
    &&& orders_consistent(OrderState { nodes, layers })
    &&& forall|r: int| 0 <= r < layers.len() ==> (#[trigger] layers[r]).len() <= usize::MAX
    &&& layers_match_ranks(nodes, layers)
}

/// Every node has a rank and is listed in the layer of that rank, and
/// every listed node has the rank of its layer.
pub open spec fn layers_match_ranks(nodes: Seq<LayoutNode>, layers: Seq<Seq<NodeId>>) -> bool {
    &&& forall|r: int, p: int|
        0 <= r < layers.len() && 0 <= p < layers[r].len() ==> rank_val(nodes, #[trigger] layers[r][p] as int) == r
    &&& forall|v: int|
        0 <= v < nodes.len() ==> {
            &&& (#[trigger] nodes[v]).rank is Some
            &&& rank_val(nodes, v) < layers.len()
            &&& layers[rank_val(nodes, v)].contains(v as usize)
        }
}

/// The position of a node listed once is its only position.
proof fn lemma_first_pos_of_listed(layers: Seq<Seq<NodeId>>, r: int, p: int)
    requires
        listed_once(layers),
        0 <= r < layers.len(),
        0 <= p < layers[r].len(),
    ensures
        first_pos(layers[r], layers[r][p]) == p,
{
    assert forall|j: int| 0 <= j < p implies #[trigger] layers[r][j] != layers[r][p] by {
        assert(layers[r][j] != layers[r][p]);
    }
    lemma_first_pos(layers[r], layers[r][p], p);
}

/// In a counted layering, the position of a listed node is its order.
proof fn lemma_first_pos_is_order(nodes: Seq<LayoutNode>, edges: Seq<LayoutEdge>, layers: Seq<Seq<NodeId>>, r: int, x: NodeId)
    requires
        counted_layering(nodes, edges, layers),
        0 <= r < layers.len(),
        layers[r].contains(x),
    ensures
        first_pos(layers[r], x) == ord_of(nodes, x as int),
        0 <= first_pos(layers[r], x) < layers[r].len(),
        layers[r][first_pos(layers[r], x)] == x,
{
    let p = choose|p: int| 0 <= p < layers[r].len() && layers[r][p] == x;
    lemma_first_pos_of_listed(layers, r, p);
    assert(layers[r].len() <= usize::MAX);
    assert(nodes[layers[r][p] as int].order == Some(p as usize));
}

/// Exchanging two adjacent entries moves the position of every entry
/// accordingly.
proof fn lemma_first_pos_after_swap(s: Seq<NodeId>, c: int, x: NodeId)
    requires
        s.no_duplicates(),
        0 <= c,
        c + 1 < s.len(),
        s.contains(x),
    ensures
        first_pos(s.update(c, s[c + 1]).update(c + 1, s[c]), x) == swap_pos(first_pos(s, x), c),
{
    let t = s.update(c, s[c + 1]).update(c + 1, s[c]);
    let p = choose|p: int| 0 <= p < s.len() && s[p] == x;
    assert forall|j: int| 0 <= j < p implies #[trigger] s[j] != x by {
        assert(s[j] != s[p]);
    }
    lemma_first_pos(s, x, p);
    let q = swap_pos(p, c);
    assert(t[q] == x);
    assert forall|j: int| 0 <= j < q implies #[trigger] t[j] != x by {
        let k = swap_pos(j, c);
        assert(t[j] == s[k]);
        assert(k != p);
        assert(s[k] != s[p]);
    }
    lemma_first_pos(t, x, q);
}

proof fn lemma_edge_is_clean(nodes: Seq<LayoutNode>, edges: Seq<LayoutEdge>, k: int)
    requires
        single_rank_edges(nodes, edges),
        0 <= k < edges.len(),
    ensures
        edge_problem(nodes, edges[k]) is None,
        edges[k].from < nodes.len(),
        edges[k].to < nodes.len(),
        rank_val(nodes, edges[k].to as int) == rank_val(nodes, edges[k].from as int) + 1,
{
    let e = edges[k];
    assert(rank_at(nodes, e.to as int) == rank_at(nodes, e.from as int) + 1);
}

/// The lower ends of the segments leaving position `c` of layer `l` are
/// the orders of that node's neighbors one rank below, in edge order.
proof fn lemma_lowers_at_are_down_neighbors(
    nodes: Seq<LayoutNode>,
    edges: Seq<LayoutEdge>,
    layers: Seq<Seq<NodeId>>,
    l: int,
    c: int,
    k: int,
)
    requires
        counted_layering(nodes, edges, layers),
        0 <= l,
        l + 1 < layers.len(),
        0 <= c < layers[l].len(),
        0 <= k <= edges.len(),
    ensures
        lowers_at(layer_segments(nodes, edges, layers[l], layers[l + 1], l, k), c) == ords(
            nodes,
            neighbor_lists(nodes, edges, k, true)[layers[l][c] as int],
        ),
    decreases k,
{
    let a = layers[l][c];
    assert(a < nodes.len());
    if k > 0 {
        lemma_lowers_at_are_down_neighbors(nodes, edges, layers, l, c, k - 1);
        lemma_edge_is_clean(nodes, edges, k - 1);
        let e = edges[k - 1];
        let prev_segs = layer_segments(nodes, edges, layers[l], layers[l + 1], l, k - 1);
        let prev_nl = neighbor_lists(nodes, edges, k - 1, true);
        crate::crossings::lemma_neighbor_lists_in_range(nodes, edges, k - 1, true);
        assert(rank_val(nodes, a as int) == l);
        if rank_val(nodes, e.from as int) == l {
            assert(layers[rank_val(nodes, e.from as int)].contains(e.from));
            lemma_first_pos_is_order(nodes, edges, layers, l, e.from);
            let pf = first_pos(layers[l], e.from);
            lemma_first_pos_of_listed(layers, l, c);
            assert(layers[rank_val(nodes, e.to as int)].contains(e.to));
            lemma_first_pos_is_order(nodes, edges, layers, l + 1, e.to);
            let seg = (pf, first_pos(layers[l + 1], e.to));
            let segs = prev_segs.push(seg);
            assert(layer_segments(nodes, edges, layers[l], layers[l + 1], l, k) == segs);
            assert(segs.drop_last() =~= prev_segs);
            let nl = prev_nl.update(e.from as int, prev_nl[e.from as int].push(e.to));
            assert(neighbor_lists(nodes, edges, k, true) == nl);
            if e.from == a {
                assert(pf == c);
                assert(lowers_at(segs, c) == lowers_at(prev_segs, c).push(seg.1));
                assert(nl[a as int] == prev_nl[a as int].push(e.to));
                assert(ords(nodes, prev_nl[a as int].push(e.to)) =~= ords(nodes, prev_nl[a as int]).push(
                    ord_of(nodes, e.to as int),
                ));
            } else {
                assert(pf != c);
                assert(lowers_at(segs, c) == lowers_at(prev_segs, c));
                assert(nl[a as int] == prev_nl[a as int]);
            }
        } else {
            assert(e.from != a);
            assert(layer_segments(nodes, edges, layers[l], layers[l + 1], l, k) == prev_segs);
            let nl = prev_nl.update(e.from as int, prev_nl[e.from as int].push(e.to));
            assert(neighbor_lists(nodes, edges, k, true) == nl);
            assert(nl[a as int] == prev_nl[a as int]);
        }
    } else {
        assert(ords(nodes, Seq::<NodeId>::empty()) =~= Seq::<int>::empty());
    }
}

/// The upper ends of the segments arriving at position `c` of layer `l`
/// are the orders of that node's neighbors one rank above, in edge order.
proof fn lemma_uppers_at_are_up_neighbors(
    nodes: Seq<LayoutNode>,
    edges: Seq<LayoutEdge>,
    layers: Seq<Seq<NodeId>>,
    l: int,
    c: int,
    k: int,
)
    requires
        counted_layering(nodes, edges, layers),
        1 <= l < layers.len(),
        0 <= c < layers[l].len(),
        0 <= k <= edges.len(),
    ensures
        lowers_at(mirror(layer_segments(nodes, edges, layers[l - 1], layers[l], l - 1, k)), c) == ords(
            nodes,
            neighbor_lists(nodes, edges, k, false)[layers[l][c] as int],
        ),
    decreases k,
{
    let a = layers[l][c];
    assert(a < nodes.len());
    if k > 0 {
        lemma_uppers_at_are_up_neighbors(nodes, edges, layers, l, c, k - 1);
        lemma_edge_is_clean(nodes, edges, k - 1);
        let e = edges[k - 1];
        let prev_segs = layer_segments(nodes, edges, layers[l - 1], layers[l], l - 1, k - 1);
        let prev_nl = neighbor_lists(nodes, edges, k - 1, false);
        crate::crossings::lemma_neighbor_lists_in_range(nodes, edges, k - 1, false);
        assert(rank_val(nodes, a as int) == l);
        if rank_val(nodes, e.from as int) == l - 1 {
            assert(layers[rank_val(nodes, e.from as int)].contains(e.from));
            lemma_first_pos_is_order(nodes, edges, layers, l - 1, e.from);
            assert(layers[rank_val(nodes, e.to as int)].contains(e.to));
            lemma_first_pos_is_order(nodes, edges, layers, l, e.to);
            let pt = first_pos(layers[l], e.to);
            lemma_first_pos_of_listed(layers, l, c);
            let seg = (first_pos(layers[l - 1], e.from), pt);
            let segs = prev_segs.push(seg);
            assert(layer_segments(nodes, edges, layers[l - 1], layers[l], l - 1, k) == segs);
            let ms = mirror(prev_segs).push((pt, first_pos(layers[l - 1], e.from)));
            assert(mirror(segs) =~= ms);
            assert(ms.drop_last() =~= mirror(prev_segs));
            let nl = prev_nl.update(e.to as int, prev_nl[e.to as int].push(e.from));
            assert(neighbor_lists(nodes, edges, k, false) == nl);
            if e.to == a {
                assert(pt == c);
                assert(lowers_at(ms, c) == lowers_at(mirror(prev_segs), c).push(first_pos(layers[l - 1], e.from)));
                assert(nl[a as int] == prev_nl[a as int].push(e.from));
                assert(ords(nodes, prev_nl[a as int].push(e.from)) =~= ords(nodes, prev_nl[a as int]).push(
                    ord_of(nodes, e.from as int),
                ));
            } else {
                assert(pt != c);
                assert(lowers_at(ms, c) == lowers_at(mirror(prev_segs), c));
                assert(nl[a as int] == prev_nl[a as int]);
            }
        } else {
            assert(e.to != a);
            assert(layer_segments(nodes, edges, layers[l - 1], layers[l], l - 1, k) == prev_segs);
            let nl = prev_nl.update(e.to as int, prev_nl[e.to as int].push(e.from));
            assert(neighbor_lists(nodes, edges, k, false) == nl);
            assert(nl[a as int] == prev_nl[a as int]);
        }
    } else {
        assert(mirror(Seq::<(int, int)>::empty()) =~= Seq::<(int, int)>::empty());
        assert(ords(nodes, Seq::<NodeId>::empty()) =~= Seq::<int>::empty());
    }
}

/// Moving the ends of the segments: when the ranks stay and every source
/// and target position moves by `fu` and `fw`, the segments move alike.
proof fn lemma_segments_moved(
    nodes: Seq<LayoutNode>,
    nodes2: Seq<LayoutNode>,
    edges: Seq<LayoutEdge>,
    u1: Seq<NodeId>,
    w1: Seq<NodeId>,
    u2: Seq<NodeId>,
    w2: Seq<NodeId>,
    l: int,
    k: int,
    fu: spec_fn(int) -> int,
    fw: spec_fn(int) -> int,
)
    requires
        0 <= k <= edges.len(),
        forall|j: int| 0 <= j < k ==> rank_val(nodes2, (#[trigger] edges[j]).from as int) == rank_val(nodes, edges[j].from as int),
        forall|j: int|
            0 <= j < k && rank_val(nodes, (#[trigger] edges[j]).from as int) == l ==> first_pos(u2, edges[j].from) == fu(
                first_pos(u1, edges[j].from),
            ) && first_pos(w2, edges[j].to) == fw(first_pos(w1, edges[j].to)),
    ensures
        layer_segments(nodes2, edges, u2, w2, l, k) == layer_segments(nodes, edges, u1, w1, l, k).map_values(
            |x: (int, int)| (fu(x.0), fw(x.1)),
        ),
    decreases k,
{
    let g = |x: (int, int)| (fu(x.0), fw(x.1));
    if k > 0 {
        lemma_segments_moved(nodes, nodes2, edges, u1, w1, u2, w2, l, k - 1, fu, fw);
        let e = edges[k - 1];
        let prev = layer_segments(nodes, edges, u1, w1, l, k - 1);
        if rank_val(nodes, e.from as int) == l {
            let seg = (first_pos(u1, e.from), first_pos(w1, e.to));
            assert(prev.push(seg).map_values(g) =~= prev.map_values(g).push(g(seg)));
        }
    } else {
        assert(Seq::<(int, int)>::empty().map_values(g) =~= Seq::<(int, int)>::empty());
    }
}

/// A bottom-layer node has no neighbors below it.
proof fn lemma_bottom_has_no_down_neighbors(
    nodes: Seq<LayoutNode>,
    edges: Seq<LayoutEdge>,
    layers: Seq<Seq<NodeId>>,
    v: int,
    k: int,
)
    requires
        counted_layering(nodes, edges, layers),
        0 <= v < nodes.len(),
        rank_val(nodes, v) == layers.len() - 1,
        0 <= k <= edges.len(),
    ensures
        neighbor_lists(nodes, edges, k, true)[v].len() == 0,
    decreases k,
{
    if k > 0 {
        lemma_bottom_has_no_down_neighbors(nodes, edges, layers, v, k - 1);
        lemma_edge_is_clean(nodes, edges, k - 1);
        crate::crossings::lemma_neighbor_lists_in_range(nodes, edges, k - 1, true);
        let e = edges[k - 1];
        assert(nodes[e.to as int].rank is Some);
        assert(rank_val(nodes, e.to as int) < layers.len());
        assert(e.from != v);
    } else {
    }
}

/// A top-layer node has no neighbors above it.
proof fn lemma_top_has_no_up_neighbors(nodes: Seq<LayoutNode>, edges: Seq<LayoutEdge>, layers: Seq<Seq<NodeId>>, v: int, k: int)
    requires
        counted_layering(nodes, edges, layers),
        0 <= v < nodes.len(),
        rank_val(nodes, v) == 0,
        0 <= k <= edges.len(),
    ensures
        neighbor_lists(nodes, edges, k, false)[v].len() == 0,
    decreases k,
{
    if k > 0 {
        lemma_top_has_no_up_neighbors(nodes, edges, layers, v, k - 1);
        lemma_edge_is_clean(nodes, edges, k - 1);
        crate::crossings::lemma_neighbor_lists_in_range(nodes, edges, k - 1, false);
        let e = edges[k - 1];
        assert(rank_val(nodes, e.from as int) >= 0);
        assert(e.to != v);
    } else {
    }
}

proof fn lemma_total_crossings_diff(
    nodes: Seq<LayoutNode>,
    nodes2: Seq<LayoutNode>,
    edges: Seq<LayoutEdge>,
    layers: Seq<Seq<NodeId>>,
    layers2: Seq<Seq<NodeId>>,
    l: int,
    m: int,
)
    requires
        forall|j: int| 0 <= j < edges.len() ==> rank_val(nodes2, (#[trigger] edges[j]).from as int) == rank_val(nodes, edges[j].from as int),
        layers2.len() == layers.len(),
        0 <= l < layers.len(),
        forall|k: int| 0 <= k < layers.len() && k != l ==> #[trigger] layers2[k] == layers[k],
        m <= layers.len() - 1,
    ensures
        total_crossings(nodes2, edges, layers2, m) - total_crossings(nodes, edges, layers, m) == (if l < m {
            layer_crossings(nodes2, edges, layers2, l) - layer_crossings(nodes, edges, layers, l)
        } else {
            0
        }) + (if 1 <= l && l - 1 < m {
            layer_crossings(nodes2, edges, layers2, l - 1) - layer_crossings(nodes, edges, layers, l - 1)
        } else {
            0
        }),
    decreases m,
{
    if m > 0 {
        lemma_total_crossings_diff(nodes, nodes2, edges, layers, layers2, l, m - 1);
        let k = m - 1;
        if k != l && k != l - 1 {
            let id = |i: int| i;
            assert(layers2[k] == layers[k]);
            assert(layers2[k + 1] == layers[k + 1]);
            let segs = layer_segments(nodes, edges, layers[k], layers[k + 1], k, edges.len() as int);
            lemma_segments_moved(
                nodes,
                nodes2,
                edges,
                layers[k],
                layers[k + 1],
                layers[k],
                layers[k + 1],
                k,
                edges.len() as int,
                id,
                id,
            );
            assert(segs.map_values(|x: (int, int)| (id(x.0), id(x.1))) =~= segs);
        }
    }
}

/// Swapping two adjacent nodes as the transpose cleanup does changes the
/// crossing count by exactly the difference of the local counts it
/// compares: so every swap it makes lowers `count_total_crossings`, and a
/// layering stays one it can count and keep working on.
pub proof fn lemma_transpose_swap_lowers_crossings(st: TState, edges: Seq<LayoutEdge>, l: int, c: int)
    requires
        counted_layering(st.nodes, edges, st.layers),
        0 <= l < st.layers.len(),
        0 <= c,
        c + 1 < st.layers[l].len(),
    ensures
        ({
            let up = neighbor_lists(st.nodes, edges, edges.len() as int, false);
            let down = neighbor_lists(st.nodes, edges, edges.len() as int, true);
            let t = swap_step(st, l, c, up, down);
            &&& counted_layering(t.nodes, edges, t.layers)
            &&& all_crossings(t.nodes, edges, t.layers) <= all_crossings(st.nodes, edges, st.layers)
            &&& t != st ==> all_crossings(t.nodes, edges, t.layers) < all_crossings(st.nodes, edges, st.layers)
        }),
{
    let nodes = st.nodes;
    let layers = st.layers;
    let n = nodes.len() as int;
    let m = edges.len() as int;
    let up = neighbor_lists(nodes, edges, m, false);
    let down = neighbor_lists(nodes, edges, m, true);
    let t = swap_step(st, l, c, up, down);
    let a = layers[l][c];
    let b = layers[l][c + 1];
    let before = local_cross(nodes, up[a as int], up[b as int]) + local_cross(nodes, down[a as int], down[b as int]);
    let after = local_cross(nodes, up[b as int], up[a as int]) + local_cross(nodes, down[b as int], down[a as int]);
    if after < before {
        let big_l = layers.len() as int;
        let sw = |u: int| swap_pos(u, c);
        let id = |u: int| u;
        lemma_swap_step_consistent(st, l, c, up, down);
        lemma_swap_step_keeps(st, l, c, up, down);
        assert(a != b);
        assert(a < n && b < n);
        let new_l = layers[l].update(c, b).update(c + 1, a);
        assert(t.layers == layers.update(l, new_l));
        assert forall|v: int| 0 <= v < n implies rank_val(t.nodes, v) == rank_val(nodes, v) && (#[trigger] t.nodes[v]).rank
            == nodes[v].rank by {
        }
        assert(layers[l].no_duplicates()) by {
            assert forall|i: int, j: int| 0 <= i < layers[l].len() && 0 <= j < layers[l].len() && i != j implies layers[l][i]
                != layers[l][j] by {
                assert(layers[l][i] != layers[l][j]);
            }
        }
        // The layering after the swap is still a counted one.
        assert forall|k: int| 0 <= k < edges.len() implies {
            &&& (#[trigger] edges[k]).from < t.nodes.len()
            &&& edges[k].to < t.nodes.len()
            &&& t.nodes[edges[k].from as int].rank is Some
            &&& t.nodes[edges[k].to as int].rank is Some
            &&& rank_at(t.nodes, edges[k].to as int) == rank_at(t.nodes, edges[k].from as int) + 1
        } by {
            lemma_edge_is_clean(nodes, edges, k);
            assert(rank_at(nodes, edges[k].to as int) == rank_at(nodes, edges[k].from as int) + 1);
        }
        assert forall|r: int| 0 <= r < t.layers.len() implies (#[trigger] t.layers[r]).len() <= usize::MAX by {
            assert(layers[r].len() <= usize::MAX);
        }
        assert forall|r: int, p: int| 0 <= r < t.layers.len() && 0 <= p < t.layers[r].len() implies rank_val(
            t.nodes,
            #[trigger] t.layers[r][p] as int,
        ) == r by {
            if r == l {
                assert(t.layers[r][p] == layers[l][swap_pos(p, c)]);
                assert(rank_val(nodes, layers[l][swap_pos(p, c)] as int) == l);
            } else {
                assert(t.layers[r] == layers[r]);
                assert(rank_val(nodes, layers[r][p] as int) == r);
            }
        }
        assert forall|v: int| 0 <= v < t.nodes.len() implies {
            &&& (#[trigger] t.nodes[v]).rank is Some
            &&& rank_val(t.nodes, v) < t.layers.len()
            &&& t.layers[rank_val(t.nodes, v)].contains(v as usize)
        } by {
            let r = rank_val(nodes, v);
            assert(layers[r].contains(v as usize));
            let p = choose|p: int| 0 <= p < layers[r].len() && layers[r][p] == v as usize;
            if r == l {
                assert(t.layers[r][swap_pos(p, c)] == v as usize);
            } else {
                assert(t.layers[r] == layers[r]);
            }
        }
        assert(counted_layering(t.nodes, edges, t.layers));
        // How the crossing count changes.
        assert forall|j: int| 0 <= j < edges.len() implies rank_val(t.nodes, (#[trigger] edges[j]).from as int) == rank_val(
            nodes,
            edges[j].from as int,
        ) by {
            lemma_edge_is_clean(nodes, edges, j);
        }
        assert forall|k: int| 0 <= k < layers.len() && k != l implies #[trigger] t.layers[k] == layers[k] by {
        }
        lemma_total_crossings_diff(nodes, t.nodes, edges, layers, t.layers, l, big_l - 1);
        crate::crossings::lemma_neighbor_lists_in_range(nodes, edges, m, true);
        crate::crossings::lemma_neighbor_lists_in_range(nodes, edges, m, false);
        if l + 1 < big_l {
            let segs = layer_segments(nodes, edges, layers[l], layers[l + 1], l, m);
            assert forall|j: int|
                0 <= j < m && rank_val(nodes, (#[trigger] edges[j]).from as int) == l implies first_pos(
                t.layers[l],
                edges[j].from,
            ) == sw(first_pos(layers[l], edges[j].from)) && first_pos(t.layers[l + 1], edges[j].to) == id(
                first_pos(layers[l + 1], edges[j].to),
            ) by {
                lemma_edge_is_clean(nodes, edges, j);
                assert(layers[rank_val(nodes, edges[j].from as int)].contains(edges[j].from));
                lemma_first_pos_after_swap(layers[l], c, edges[j].from);
                assert(t.layers[l + 1] == layers[l + 1]);
            }
            lemma_segments_moved(nodes, t.nodes, edges, layers[l], layers[l + 1], t.layers[l], t.layers[l + 1], l, m, sw, id);
            assert(segs.map_values(|x: (int, int)| (sw(x.0), id(x.1))) =~= swap_uppers(segs, c));
            lemma_pair_count_is_crossing_pairs(segs);
            lemma_pair_count_is_crossing_pairs(swap_uppers(segs, c));
            lemma_pair_count_swap(segs, c);
            lemma_lowers_at_are_down_neighbors(nodes, edges, layers, l, c, m);
            lemma_lowers_at_are_down_neighbors(nodes, edges, layers, l, c + 1, m);
            lemma_sign_sum_is_local_difference(nodes, down[a as int], down[b as int]);
        } else {
            assert(rank_val(nodes, a as int) == l);
            assert(rank_val(nodes, b as int) == l);
            lemma_bottom_has_no_down_neighbors(nodes, edges, layers, a as int, m);
            lemma_bottom_has_no_down_neighbors(nodes, edges, layers, b as int, m);
            lemma_local_cross_empty_right(nodes, down[a as int], down[b as int]);
            lemma_local_cross_empty_right(nodes, down[b as int], down[a as int]);
        }
        if l >= 1 {
            let segs = layer_segments(nodes, edges, layers[l - 1], layers[l], l - 1, m);
            assert forall|j: int|
                0 <= j < m && rank_val(nodes, (#[trigger] edges[j]).from as int) == l - 1 implies first_pos(
                t.layers[l - 1],
                edges[j].from,
            ) == id(first_pos(layers[l - 1], edges[j].from)) && first_pos(t.layers[l], edges[j].to) == sw(
                first_pos(layers[l], edges[j].to),
            ) by {
                lemma_edge_is_clean(nodes, edges, j);
                assert(layers[rank_val(nodes, edges[j].to as int)].contains(edges[j].to));
                lemma_first_pos_after_swap(layers[l], c, edges[j].to);
                assert(t.layers[l - 1] == layers[l - 1]);
            }
            lemma_segments_moved(nodes, t.nodes, edges, layers[l - 1], layers[l], t.layers[l - 1], t.layers[l], l - 1, m, id, sw);
            assert(segs.map_values(|x: (int, int)| (id(x.0), sw(x.1))) =~= swap_lowers(segs, c));
            lemma_pair_count_is_crossing_pairs(segs);
            lemma_pair_count_is_crossing_pairs(swap_lowers(segs, c));
            lemma_pair_count_swap_lowers(segs, c);
            lemma_uppers_at_are_up_neighbors(nodes, edges, layers, l, c, m);
            lemma_uppers_at_are_up_neighbors(nodes, edges, layers, l, c + 1, m);
            lemma_sign_sum_is_local_difference(nodes, up[a as int], up[b as int]);
        } else {
            assert(rank_val(nodes, a as int) == 0);
            assert(rank_val(nodes, b as int) == 0);
            lemma_top_has_no_up_neighbors(nodes, edges, layers, a as int, m);
            lemma_top_has_no_up_neighbors(nodes, edges, layers, b as int, m);
            lemma_local_cross_empty_right(nodes, up[a as int], up[b as int]);
            lemma_local_cross_empty_right(nodes, up[b as int], up[a as int]);
        }
    }
}

/// The neighbor lists depend on the nodes only through their ranks.
proof fn lemma_neighbor_lists_same_ranks(nodes: Seq<LayoutNode>, nodes2: Seq<LayoutNode>, edges: Seq<LayoutEdge>, k: int, down: bool)
    requires
        nodes2.len() == nodes.len(),
        forall|v: int| 0 <= v < nodes.len() ==> (#[trigger] nodes2[v]).rank == nodes[v].rank,
        0 <= k <= edges.len(),
    ensures
        neighbor_lists(nodes2, edges, k, down) == neighbor_lists(nodes, edges, k, down),
    decreases k,
{
    if k > 0 {
        lemma_neighbor_lists_same_ranks(nodes, nodes2, edges, k - 1, down);
        let e = edges[k - 1];
        if e.from < nodes.len() {
            assert(nodes2[e.from as int].rank == nodes[e.from as int].rank);
        }
        if e.to < nodes.len() {
            assert(nodes2[e.to as int].rank == nodes[e.to as int].rank);
        }
    } else {
        assert(neighbor_lists(nodes2, edges, 0, down) =~= neighbor_lists(nodes, edges, 0, down));
    }
}

proof fn lemma_swap_keeps_ranks(st: TState, l: int, c: int, up: Seq<Seq<NodeId>>, down: Seq<Seq<NodeId>>)
    requires
        0 <= l < st.layers.len(),
        0 <= c,
        c + 1 < st.layers[l].len(),
        crate::crossings::layers_in_range(st.layers, st.nodes.len() as int),
    ensures
        swap_step(st, l, c, up, down).nodes.len() == st.nodes.len(),
        forall|v: int| 0 <= v < st.nodes.len() ==> (#[trigger] swap_step(st, l, c, up, down).nodes[v]).rank == st.nodes[v].rank,
{
    lemma_swap_step_keeps(st, l, c, up, down);
}

/// The first `k` swap steps of layer `l` never raise the crossing count,
/// and lower it when they swap.
proof fn lemma_layer_sweep_lowers(st: TState, edges: Seq<LayoutEdge>, l: int, k: int)
    requires
        counted_layering(st.nodes, edges, st.layers),
        0 <= l < st.layers.len(),
        k <= st.layers[l].len() - 1,
    ensures
        ({
            let up = neighbor_lists(st.nodes, edges, edges.len() as int, false);
            let down = neighbor_lists(st.nodes, edges, edges.len() as int, true);
            let t = layer_sweep(st, l, k, up, down);
            &&& counted_layering(t.nodes, edges, t.layers)
            &&& t.nodes.len() == st.nodes.len()
            &&& forall|v: int| 0 <= v < st.nodes.len() ==> (#[trigger] t.nodes[v]).rank == st.nodes[v].rank
            &&& t.layers.len() == st.layers.len()
            &&& forall|r: int| 0 <= r < st.layers.len() ==> (#[trigger] t.layers[r]).len() == st.layers[r].len()
            &&& st.improved ==> t.improved
            &&& all_crossings(t.nodes, edges, t.layers) <= all_crossings(st.nodes, edges, st.layers)
            &&& !st.improved && t.improved ==> all_crossings(t.nodes, edges, t.layers) < all_crossings(
                st.nodes,
                edges,
                st.layers,
            )
        }),
    decreases k,
{
    let up = neighbor_lists(st.nodes, edges, edges.len() as int, false);
    let down = neighbor_lists(st.nodes, edges, edges.len() as int, true);
    if k > 0 {
        lemma_layer_sweep_lowers(st, edges, l, k - 1);
        let s = layer_sweep(st, l, k - 1, up, down);
        lemma_neighbor_lists_same_ranks(st.nodes, s.nodes, edges, edges.len() as int, false);
        lemma_neighbor_lists_same_ranks(st.nodes, s.nodes, edges, edges.len() as int, true);
        lemma_transpose_swap_lowers_crossings(s, edges, l, k - 1);
        lemma_swap_keeps_ranks(s, l, k - 1, up, down);
        lemma_swap_step_keeps(s, l, k - 1, up, down);
        let t = swap_step(s, l, k - 1, up, down);
        assert forall|v: int| 0 <= v < st.nodes.len() implies (#[trigger] t.nodes[v]).rank == st.nodes[v].rank by {
            assert(s.nodes[v].rank == st.nodes[v].rank);
        }
        assert forall|r: int| 0 <= r < st.layers.len() implies (#[trigger] t.layers[r]).len() == st.layers[r].len() by {
            assert(s.layers[r].len() == st.layers[r].len());
        }
        if t != s {
            assert(t.improved);
        }
    }
}

/// One transpose pass over the first `k` layers never raises the crossing
/// count, and lowers it when it swaps.
proof fn lemma_transpose_layers_lowers(st: TState, edges: Seq<LayoutEdge>, k: int)
    requires
        counted_layering(st.nodes, edges, st.layers),
        k <= st.layers.len(),
    ensures
        ({
            let up = neighbor_lists(st.nodes, edges, edges.len() as int, false);
            let down = neighbor_lists(st.nodes, edges, edges.len() as int, true);
            let t = transpose_layers(st, k, up, down);
            &&& counted_layering(t.nodes, edges, t.layers)
            &&& t.nodes.len() == st.nodes.len()
            &&& forall|v: int| 0 <= v < st.nodes.len() ==> (#[trigger] t.nodes[v]).rank == st.nodes[v].rank
            &&& t.layers.len() == st.layers.len()
            &&& forall|r: int| 0 <= r < st.layers.len() ==> (#[trigger] t.layers[r]).len() == st.layers[r].len()
            &&& st.improved ==> t.improved
            &&& all_crossings(t.nodes, edges, t.layers) <= all_crossings(st.nodes, edges, st.layers)
            &&& !st.improved && t.improved ==> all_crossings(t.nodes, edges, t.layers) < all_crossings(
                st.nodes,
                edges,
                st.layers,
            )
        }),
    decreases k,
{
    let up = neighbor_lists(st.nodes, edges, edges.len() as int, false);
    let down = neighbor_lists(st.nodes, edges, edges.len() as int, true);
    if k > 0 {
        lemma_transpose_layers_lowers(st, edges, k - 1);
        let s = transpose_layers(st, k - 1, up, down);
        lemma_neighbor_lists_same_ranks(st.nodes, s.nodes, edges, edges.len() as int, false);
        lemma_neighbor_lists_same_ranks(st.nodes, s.nodes, edges, edges.len() as int, true);
        lemma_layer_sweep_lowers(s, edges, k - 1, s.layers[k - 1].len() - 1);
        let t = layer_sweep(s, k - 1, s.layers[k - 1].len() - 1, up, down);
        assert forall|v: int| 0 <= v < st.nodes.len() implies (#[trigger] t.nodes[v]).rank == st.nodes[v].rank by {
            assert(s.nodes[v].rank == st.nodes[v].rank);
        }
        assert forall|r: int| 0 <= r < st.layers.len() implies (#[trigger] t.layers[r]).len() == st.layers[r].len() by {
            assert(s.layers[r].len() == st.layers[r].len());
        }
    }
}

/// The transpose cleanup never raises the crossing count of a layering it
/// can count, and each of its passes that makes a swap lowers it; the
/// layering stays one it can count.
pub proof fn lemma_transpose_cleanup_never_raises_crossings(st: OrderState, edges: Seq<LayoutEdge>, passes: nat)
    requires
        counted_layering(st.nodes, edges, st.layers),
    ensures
        ({
            let up = neighbor_lists(st.nodes, edges, edges.len() as int, false);
            let down = neighbor_lists(st.nodes, edges, edges.len() as int, true);
            let r = transpose_spec(st, up, down, passes);
            &&& counted_layering(r.nodes, edges, r.layers)
            &&& all_crossings(r.nodes, edges, r.layers) <= all_crossings(st.nodes, edges, st.layers)
        }),
    decreases passes,
{
    let up = neighbor_lists(st.nodes, edges, edges.len() as int, false);
    let down = neighbor_lists(st.nodes, edges, edges.len() as int, true);
    if passes > 0 {
        let ts = TState { nodes: st.nodes, layers: st.layers, improved: false };
        lemma_transpose_layers_lowers(ts, edges, st.layers.len() as int);
        let t = transpose_layers(ts, st.layers.len() as int, up, down);
        let s = OrderState { nodes: t.nodes, layers: t.layers };
        if t.improved {
            lemma_transpose_cleanup_never_raises_crossings(s, edges, (passes - 1) as nat);
            lemma_neighbor_lists_same_ranks(st.nodes, s.nodes, edges, edges.len() as int, false);
            lemma_neighbor_lists_same_ranks(st.nodes, s.nodes, edges, edges.len() as int, true);
        }
    }
}

/// Each transpose pass that makes a swap lowers the crossing count, which
/// is never negative: so the passes would stop on their own.
pub proof fn lemma_transpose_pass_that_swaps_lowers_crossings(st: OrderState, edges: Seq<LayoutEdge>)
    requires
        counted_layering(st.nodes, edges, st.layers),
    ensures
        ({
            let up = neighbor_lists(st.nodes, edges, edges.len() as int, false);
            let down = neighbor_lists(st.nodes, edges, edges.len() as int, true);
            let t = transpose_layers(
                TState { nodes: st.nodes, layers: st.layers, improved: false },
                st.layers.len() as int,
                up,
                down,
            );
            &&& all_crossings(t.nodes, edges, t.layers) <= all_crossings(st.nodes, edges, st.layers)
            &&& t.improved ==> all_crossings(t.nodes, edges, t.layers) < all_crossings(st.nodes, edges, st.layers)
            &&& 0 <= all_crossings(t.nodes, edges, t.layers)
        }),
{
    let ts = TState { nodes: st.nodes, layers: st.layers, improved: false };
    lemma_transpose_layers_lowers(ts, edges, st.layers.len() as int);
    let up = neighbor_lists(st.nodes, edges, edges.len() as int, false);
    let down = neighbor_lists(st.nodes, edges, edges.len() as int, true);
    let t = transpose_layers(ts, st.layers.len() as int, up, down);
    crate::crossings::lemma_total_crossings_nonneg(t.nodes, edges, t.layers, t.layers.len() - 1);
}

/// Rearranging nodes within their layers and changing only their orders
/// keeps every node listed in the layer of its rank.
pub proof fn lemma_rearranging_keeps_layers_matching_ranks(
    nodes: Seq<LayoutNode>,
    layers: Seq<Seq<NodeId>>,
    nodes2: Seq<LayoutNode>,
    layers2: Seq<Seq<NodeId>>,
)
    requires
        layers_match_ranks(nodes, layers),
        crate::crossings::layers_in_range(layers, nodes.len() as int),
        crate::crossings::same_but_order(nodes, nodes2),
        crate::crossings::same_layer_contents(layers, layers2),
    ensures
        layers_match_ranks(nodes2, layers2),
{
    assert forall|v: int| 0 <= v < nodes.len() implies rank_val(nodes2, v) == rank_val(nodes, v) && (#[trigger] nodes2[v]).rank
        == nodes[v].rank by {
        assert(nodes2[v] == (LayoutNode { order: nodes2[v].order, ..nodes[v] }));
    }
    assert forall|r: int, p: int| 0 <= r < layers2.len() && 0 <= p < layers2[r].len() implies rank_val(
        nodes2,
        #[trigger] layers2[r][p] as int,
    ) == r by {
        let x = layers2[r][p];
        assert(layers2[r].contains(x));
        vstd::seq_lib::to_multiset_contains(layers2[r], x);
        vstd::seq_lib::to_multiset_contains(layers[r], x);
        let q = choose|q: int| 0 <= q < layers[r].len() && layers[r][q] == x;
        assert(rank_val(nodes, layers[r][q] as int) == r);
        assert(x < nodes.len());
        assert(nodes2[x as int] == (LayoutNode { order: nodes2[x as int].order, ..nodes[x as int] }));
    }
    assert forall|v: int| 0 <= v < nodes2.len() implies {
        &&& (#[trigger] nodes2[v]).rank is Some
        &&& rank_val(nodes2, v) < layers2.len()
        &&& layers2[rank_val(nodes2, v)].contains(v as usize)
    } by {
        let r = rank_val(nodes, v);
        assert(layers[r].contains(v as usize));
        vstd::seq_lib::to_multiset_contains(layers2[r], v as usize);
        vstd::seq_lib::to_multiset_contains(layers[r], v as usize);
    }
}

/// A counted layering is one `count_total_crossings` can count.
pub proof fn lemma_counted_layering_is_countable(nodes: Seq<LayoutNode>, edges: Seq<LayoutEdge>, layers: Seq<Seq<NodeId>>)
    requires
        counted_layering(nodes, edges, layers),
    ensures
        crate::crossings::crossings_countable(nodes, edges, layers),
{
    assert forall|k: int| 0 <= k < edges.len() implies {
        let e = #[trigger] edges[k];
        &&& e.from < nodes.len()
        &&& nodes[e.from as int].rank is Some
        &&& rank_val(nodes, e.from as int) < layers.len() - 1 ==> {
            &&& layers[rank_val(nodes, e.from as int)].contains(e.from)
            &&& layers[rank_val(nodes, e.from as int) + 1].contains(e.to)
        }
    } by {
        lemma_edge_is_clean(nodes, edges, k);
        let e = edges[k];
        assert(nodes[e.from as int].rank is Some);
        assert(layers[rank_val(nodes, e.to as int)].contains(e.to));
    }
}
} // verus!
