//! What the crossing count does not depend on: the order in which the
//! edges are listed, and the direction in which every layer is read.
use vstd::prelude::*;
use crate::types::{LayoutNode, LayoutEdge, NodeId};
use crate::crossings::{
    crosses, layer_segments, layer_crossings, total_crossings, all_crossings, rank_val, first_pos, crossings_countable,
};
use crate::crossing_laws::{cross_count, pair_count, lemma_pair_count_is_crossing_pairs};

verus! {

broadcast use vstd::seq_lib::group_to_multiset_ensures, vstd::multiset::group_multiset_axioms;

/// 1 if `a` and `b` cross, else 0.
spec fn crossing(a: (int, int), b: (int, int)) -> int {
    if crosses(a, b) {
        1
    } else {
        0
    }
}

proof fn lemma_cross_count_remove(s: Seq<(int, int)>, x: (int, int), i: int)
    requires
        0 <= i < s.len(),
    ensures
        cross_count(s, x) == cross_count(s.remove(i), x) + crossing(s[i], x),
    decreases s.len(),
{
    if i == s.len() - 1 {
        assert(s.remove(i) =~= s.drop_last());
    } else {
        let init = s.drop_last();
        lemma_cross_count_remove(init, x, i);
        assert(s.remove(i).drop_last() =~= init.remove(i));
        assert(s.remove(i).last() == s.last());
    }
}

proof fn lemma_cross_count_permuted(s1: Seq<(int, int)>, s2: Seq<(int, int)>, x: (int, int))
    requires
        s1.to_multiset() == s2.to_multiset(),
    ensures
        cross_count(s1, x) == cross_count(s2, x),
    decreases s1.len(),
{
    if s1.len() == 0 {
        vstd::seq_lib::to_multiset_len(s1);
        vstd::seq_lib::to_multiset_len(s2);
        assert(s2.len() == 0);
    } else {
        let y = s1.last();
        let init = s1.drop_last();
        assert(s1 =~= init.push(y));
        assert(s2.to_multiset().count(y) > 0);
        assert(s2.contains(y));
        let i = choose|i: int| 0 <= i < s2.len() && s2[i] == y;
        assert(init.to_multiset() =~= s2.remove(i).to_multiset());
        lemma_cross_count_permuted(init, s2.remove(i), x);
        lemma_cross_count_remove(s2, x, i);
    }
}

proof fn lemma_pair_count_remove(s: Seq<(int, int)>, i: int)
    requires
        0 <= i < s.len(),
    ensures
        pair_count(s) == pair_count(s.remove(i)) + cross_count(s.remove(i), s[i]),
    decreases s.len(),
{
    if i == s.len() - 1 {
        assert(s.remove(i) =~= s.drop_last());
    } else {
        let init = s.drop_last();
        let y = s.last();
        lemma_pair_count_remove(init, i);
        lemma_cross_count_remove(init, y, i);
        assert(s.remove(i).drop_last() =~= init.remove(i));
        assert(s.remove(i).last() == y);
        assert(s.remove(i) =~= init.remove(i).push(y));
        assert(init.remove(i).push(y).drop_last() =~= init.remove(i));
        assert(crosses(init[i], y) == crosses(y, init[i]));
    }
}

/// Two lists of segments with the same members have the same number of
/// crossing pairs.
proof fn lemma_pair_count_permuted(s1: Seq<(int, int)>, s2: Seq<(int, int)>)
    requires
        s1.to_multiset() == s2.to_multiset(),
    ensures
        pair_count(s1) == pair_count(s2),
    decreases s1.len(),
{
    if s1.len() == 0 {
        vstd::seq_lib::to_multiset_len(s1);
        vstd::seq_lib::to_multiset_len(s2);
        assert(s2.len() == 0);
    } else {
        let y = s1.last();
        let init = s1.drop_last();
        assert(s1 =~= init.push(y));
        assert(s2.to_multiset().count(y) > 0);
        assert(s2.contains(y));
        let i = choose|i: int| 0 <= i < s2.len() && s2[i] == y;
        assert(init.to_multiset() =~= s2.remove(i).to_multiset());
        lemma_pair_count_permuted(init, s2.remove(i));
        lemma_cross_count_permuted(init, s2.remove(i), y);
        lemma_pair_count_remove(s2, i);
    }
}

/// The segments depend on the first `k` edges only.
proof fn lemma_segments_prefix(
    nodes: Seq<LayoutNode>,
    e1: Seq<LayoutEdge>,
    e2: Seq<LayoutEdge>,
    upper: Seq<NodeId>,
    lower: Seq<NodeId>,
    l: int,
    k: int,
)
    requires
        0 <= k <= e1.len(),
        k <= e2.len(),
        forall|j: int| 0 <= j < k ==> e1[j] == e2[j],
    ensures
        layer_segments(nodes, e1, upper, lower, l, k) == layer_segments(nodes, e2, upper, lower, l, k),
    decreases k,
{
    if k > 0 {
        lemma_segments_prefix(nodes, e1, e2, upper, lower, l, k - 1);
        assert(e1[k - 1] == e2[k - 1]);
    }
}

/// The segment that edge `e` draws between the layers, if it leaves layer `l`.
spec fn segment(nodes: Seq<LayoutNode>, e: LayoutEdge, upper: Seq<NodeId>, lower: Seq<NodeId>) -> (int, int) {
    (first_pos(upper, e.from), first_pos(lower, e.to))
}

proof fn lemma_segments_remove(
    nodes: Seq<LayoutNode>,
    es: Seq<LayoutEdge>,
    upper: Seq<NodeId>,
    lower: Seq<NodeId>,
    l: int,
    i: int,
)
    requires
        0 <= i < es.len(),
    ensures
        ({
            let whole = layer_segments(nodes, es, upper, lower, l, es.len() as int).to_multiset();
            let rest = layer_segments(nodes, es.remove(i), upper, lower, l, es.len() - 1).to_multiset();
            if rank_val(nodes, es[i].from as int) == l {
                whole == rest.insert(segment(nodes, es[i], upper, lower))
            } else {
                whole == rest
            }
        }),
    decreases es.len(),
{
    let k = es.len() as int;
    let init = es.drop_last();
    lemma_segments_prefix(nodes, es, init, upper, lower, l, k - 1);
    if i == k - 1 {
        assert(es.remove(i) =~= init);
    } else {
        lemma_segments_remove(nodes, init, upper, lower, l, i);
        let r = es.remove(i);
        assert(r.drop_last() =~= init.remove(i));
        assert(r[k - 2] == es[k - 1]);
        lemma_segments_prefix(nodes, r, init.remove(i), upper, lower, l, k - 2);
    }
}

/// Edge lists with the same members draw the same segments between two
/// layers, as multisets.
proof fn lemma_segments_permuted(
    nodes: Seq<LayoutNode>,
    e1: Seq<LayoutEdge>,
    e2: Seq<LayoutEdge>,
    upper: Seq<NodeId>,
    lower: Seq<NodeId>,
    l: int,
)
    requires
        e1.to_multiset() == e2.to_multiset(),
    ensures
        layer_segments(nodes, e1, upper, lower, l, e1.len() as int).to_multiset()
            == layer_segments(nodes, e2, upper, lower, l, e2.len() as int).to_multiset(),
    decreases e1.len(),
{
    if e1.len() == 0 {
        vstd::seq_lib::to_multiset_len(e1);
        vstd::seq_lib::to_multiset_len(e2);
        assert(e2.len() == 0);
    } else {
        let y = e1.last();
        let init = e1.drop_last();
        assert(e1 =~= init.push(y));
        assert(e2.to_multiset().count(y) > 0);
        assert(e2.contains(y));
        let i = choose|i: int| 0 <= i < e2.len() && e2[i] == y;
        assert(init.to_multiset() =~= e2.remove(i).to_multiset());
        lemma_segments_permuted(nodes, init, e2.remove(i), upper, lower, l);
        lemma_segments_remove(nodes, e2, upper, lower, l, i);
        lemma_segments_prefix(nodes, e1, init, upper, lower, l, init.len() as int);
    }
}

proof fn lemma_total_crossings_edge_order(
    nodes: Seq<LayoutNode>,
    e1: Seq<LayoutEdge>,
    e2: Seq<LayoutEdge>,
    layers: Seq<Seq<NodeId>>,
    l: int,
)
    requires
        e1.to_multiset() == e2.to_multiset(),
    ensures
        total_crossings(nodes, e2, layers, l) == total_crossings(nodes, e1, layers, l),
    decreases l,
{
    if l > 0 {
        lemma_total_crossings_edge_order(nodes, e1, e2, layers, l - 1);
        let s1 = layer_segments(nodes, e1, layers[l - 1], layers[l], l - 1, e1.len() as int);
        let s2 = layer_segments(nodes, e2, layers[l - 1], layers[l], l - 1, e2.len() as int);
        lemma_segments_permuted(nodes, e1, e2, layers[l - 1], layers[l], l - 1);
        lemma_pair_count_permuted(s1, s2);
        lemma_pair_count_is_crossing_pairs(s1);
        lemma_pair_count_is_crossing_pairs(s2);
        assert(layer_crossings(nodes, e1, layers, l - 1) == layer_crossings(nodes, e2, layers, l - 1));
    }
}

/// The crossing count does not depend on the order in which the edges are
/// listed: two edge lists with the same members (a permutation of each
/// other) have the same count.
pub proof fn lemma_crossings_ignore_edge_order(
    nodes: Seq<LayoutNode>,
    edges: Seq<LayoutEdge>,
    permuted: Seq<LayoutEdge>,
    layers: Seq<Seq<NodeId>>,
)
    requires
        permuted.to_multiset() == edges.to_multiset(),
    ensures
        all_crossings(nodes, permuted, layers) == all_crossings(nodes, edges, layers),
{
    lemma_total_crossings_edge_order(nodes, edges, permuted, layers, layers.len() - 1);
}

/// Every layer read from its other end.
pub open spec fn reversed_layers(layers: Seq<Seq<NodeId>>) -> Seq<Seq<NodeId>> {
    layers.map_values(|s: Seq<NodeId>| s.reverse())
}

proof fn lemma_first_pos_at(s: Seq<NodeId>, p: int)
    requires
        s.no_duplicates(),
        0 <= p < s.len(),
    ensures
        first_pos(s, s[p]) == p,
{
    assert(0 <= p < s.len() && s[p] == s[p] && forall|j: int| 0 <= j < p ==> #[trigger] s[j] != s[p]);
    let i = first_pos(s, s[p]);
    assert(0 <= i < s.len() && s[i] == s[p]);
}

proof fn lemma_first_pos_reversed(s: Seq<NodeId>, x: NodeId)
    requires
        s.no_duplicates(),
        s.contains(x),
    ensures
        first_pos(s.reverse(), x) == s.len() - 1 - first_pos(s, x),
{
    let p = choose|p: int| 0 <= p < s.len() && s[p] == x;
    lemma_first_pos_at(s, p);
    let r = s.reverse();
    assert forall|i: int, j: int| 0 <= i < r.len() && 0 <= j < r.len() && i != j implies r[i] != r[j] by {
        assert(r[i] == s[s.len() - 1 - i]);
        assert(r[j] == s[s.len() - 1 - j]);
    }
    assert(r.no_duplicates());
    assert(r[s.len() - 1 - p] == x);
    lemma_first_pos_at(r, s.len() - 1 - p);
}

/// A segment between layers of `u` and `w` nodes, with both layers read
/// from their other ends.
spec fn flipped(x: (int, int), u: int, w: int) -> (int, int) {
    (u - 1 - x.0, w - 1 - x.1)
}

proof fn lemma_segments_reversed(
    nodes: Seq<LayoutNode>,
    edges: Seq<LayoutEdge>,
    upper: Seq<NodeId>,
    lower: Seq<NodeId>,
    l: int,
    k: int,
)
    requires
        0 <= k <= edges.len(),
        upper.no_duplicates(),
        lower.no_duplicates(),
        forall|j: int|
            0 <= j < k && rank_val(nodes, (#[trigger] edges[j]).from as int) == l ==> upper.contains(edges[j].from)
                && lower.contains(edges[j].to),
    ensures
        layer_segments(nodes, edges, upper.reverse(), lower.reverse(), l, k) == layer_segments(
            nodes,
            edges,
            upper,
            lower,
            l,
            k,
        ).map_values(|x: (int, int)| flipped(x, upper.len() as int, lower.len() as int)),
    decreases k,
{
    let f = |x: (int, int)| flipped(x, upper.len() as int, lower.len() as int);
    if k == 0 {
        assert(layer_segments(nodes, edges, upper, lower, l, 0).map_values(f) =~= Seq::<(int, int)>::empty());
    } else {
        lemma_segments_reversed(nodes, edges, upper, lower, l, k - 1);
        let prev = layer_segments(nodes, edges, upper, lower, l, k - 1);
        let e = edges[k - 1];
        if rank_val(nodes, e.from as int) == l {
            lemma_first_pos_reversed(upper, e.from);
            lemma_first_pos_reversed(lower, e.to);
            assert(prev.push((first_pos(upper, e.from), first_pos(lower, e.to))).map_values(f) =~= prev.map_values(f).push(
                f((first_pos(upper, e.from), first_pos(lower, e.to))),
            ));
        }
    }
}

proof fn lemma_pair_count_flipped(s: Seq<(int, int)>, u: int, w: int)
    ensures
        pair_count(s.map_values(|x: (int, int)| flipped(x, u, w))) == pair_count(s),
    decreases s.len(),
{
    let f = |x: (int, int)| flipped(x, u, w);
    if s.len() > 0 {
        let init = s.drop_last();
        lemma_pair_count_flipped(init, u, w);
        lemma_cross_count_flipped(init, s.last(), u, w);
        assert(s.map_values(f).drop_last() =~= init.map_values(f));
    }
}

proof fn lemma_cross_count_flipped(s: Seq<(int, int)>, x: (int, int), u: int, w: int)
    ensures
        cross_count(s.map_values(|y: (int, int)| flipped(y, u, w)), flipped(x, u, w)) == cross_count(s, x),
    decreases s.len(),
{
    let f = |y: (int, int)| flipped(y, u, w);
    if s.len() > 0 {
        let init = s.drop_last();
        lemma_cross_count_flipped(init, x, u, w);
        assert(s.map_values(f).drop_last() =~= init.map_values(f));
    }
}

proof fn lemma_total_crossings_reversed(
    nodes: Seq<LayoutNode>,
    edges: Seq<LayoutEdge>,
    layers: Seq<Seq<NodeId>>,
    l: int,
)
    requires
        l <= layers.len() - 1,
        crossings_countable(nodes, edges, layers),
        forall|r: int| 0 <= r < layers.len() ==> (#[trigger] layers[r]).no_duplicates(),
    ensures
        total_crossings(nodes, edges, reversed_layers(layers), l) == total_crossings(nodes, edges, layers, l),
    decreases l,
{
    if l > 0 {
        lemma_total_crossings_reversed(nodes, edges, layers, l - 1);
        let upper = layers[l - 1];
        let lower = layers[l];
        let rev = reversed_layers(layers);
        assert(rev[l - 1] == upper.reverse());
        assert(rev[l] == lower.reverse());
        assert forall|j: int|
            0 <= j < edges.len() && rank_val(nodes, (#[trigger] edges[j]).from as int) == l - 1 implies upper.contains(
            edges[j].from,
        ) && lower.contains(edges[j].to) by {
            assert(layers.len() >= 2);
        }
        lemma_segments_reversed(nodes, edges, upper, lower, l - 1, edges.len() as int);
        let segs = layer_segments(nodes, edges, upper, lower, l - 1, edges.len() as int);
        let rsegs = layer_segments(nodes, edges, rev[l - 1], rev[l], l - 1, edges.len() as int);
        lemma_pair_count_flipped(segs, upper.len() as int, lower.len() as int);
        lemma_pair_count_is_crossing_pairs(segs);
        lemma_pair_count_is_crossing_pairs(rsegs);
        assert(layer_crossings(nodes, edges, rev, l - 1) == layer_crossings(nodes, edges, layers, l - 1));
    }
}

/// The crossing count does not depend on the direction in which the
/// layers are read: with every layer reversed it is the same, on a
/// layering it can count whose layers list no node twice.
pub proof fn lemma_crossings_ignore_layer_direction(
    nodes: Seq<LayoutNode>,
    edges: Seq<LayoutEdge>,
    layers: Seq<Seq<NodeId>>,
)
    requires
        crossings_countable(nodes, edges, layers),
        forall|r: int| 0 <= r < layers.len() ==> (#[trigger] layers[r]).no_duplicates(),
    ensures
        all_crossings(nodes, edges, reversed_layers(layers)) == all_crossings(nodes, edges, layers),
{
    lemma_total_crossings_reversed(nodes, edges, layers, layers.len() - 1);
}

} // verus!
