//! Layer Ordering (Crossing Reduction)
//!
//! The barycenter heuristic with alternating sweeps, each followed by a
//! bounded transpose cleanup, to reduce edge crossings between adjacent
//! layers.
use vstd::prelude::*;
use crate::types::{LayoutGraph, LayoutNode, LayoutEdge, LayoutError, RankSystem, NodeId, RankId};
use crate::crossing_laws::{counted_layering, lemma_transpose_cleanup_never_raises_crossings};
use crate::binary32::{quotient_bits, mean_bits, natural_pattern, mean_pattern};

verus! {

/// Upper bound on transpose sweeps per transpose cleanup.
pub const MAX_TRANSPOSE_PASSES: usize = 100;

/// The order value the heuristics use for node `v` (0 when none is set).
pub open spec fn ord_of(nodes: Seq<LayoutNode>, v: int) -> int {
    match nodes[v].order {
        Some(o) => o as int,
        None => 0,
    }
}

/// The rank of node `v` (0 when none is set).
pub open spec fn rank_val(nodes: Seq<LayoutNode>, v: int) -> int {
    match nodes[v].rank {
        Some(r) => r as int,
        None => 0,
    }
}

/// What is wrong with edge `e`, if anything: a missing endpoint, else a
/// source without rank, else a target without rank.
pub open spec fn edge_problem(nodes: Seq<LayoutNode>, e: LayoutEdge) -> Option<LayoutError> {
    if e.from >= nodes.len() || e.to >= nodes.len() {
        Some(LayoutError::DanglingEdge { from: e.from, to: e.to })
    } else if nodes[e.from as int].rank is None {
        Some(LayoutError::MissingRank(e.from))
    } else if nodes[e.to as int].rank is None {
        Some(LayoutError::MissingRank(e.to))
    } else {
        None
    }
}

/// The problem of the first faulty edge among the first `k`.
pub open spec fn first_problem(nodes: Seq<LayoutNode>, edges: Seq<LayoutEdge>, k: int) -> Option<LayoutError>
    decreases k,
{
    if k <= 0 {
        None
    } else {
        match first_problem(nodes, edges, k - 1) {
            Some(err) => Some(err),
            None => edge_problem(nodes, edges[k - 1]),
        }
    }
}

proof fn lemma_first_problem_absorbs(nodes: Seq<LayoutNode>, edges: Seq<LayoutEdge>, k: int, j: int)
    requires
        0 <= k <= j,
        first_problem(nodes, edges, k) is Some,
    ensures
        first_problem(nodes, edges, j) == first_problem(nodes, edges, k),
    decreases j,
{
    if j > k {
        lemma_first_problem_absorbs(nodes, edges, k, j - 1);
    }
}

/// The neighbor lists built from the first `k` edges: with `down`, each
/// node's neighbors one rank below it, else those one rank above it, in
/// edge order.
pub open spec fn neighbor_lists(nodes: Seq<LayoutNode>, edges: Seq<LayoutEdge>, k: int, down: bool) -> Seq<Seq<NodeId>>
    decreases k,
{
    if k <= 0 {
        Seq::new(nodes.len(), |v: int| Seq::<NodeId>::empty())
    } else {
        let prev = neighbor_lists(nodes, edges, k - 1, down);
        let e = edges[k - 1];
        let rf = rank_val(nodes, e.from as int);
        let rt = rank_val(nodes, e.to as int);
        if edge_problem(nodes, e) is Some {
            prev
        } else if rt == rf + 1 {
            if down {
                prev.update(e.from as int, prev[e.from as int].push(e.to))
            } else {
                prev.update(e.to as int, prev[e.to as int].push(e.from))
            }
        } else if rf == rt + 1 {
            if down {
                prev.update(e.to as int, prev[e.to as int].push(e.from))
            } else {
                prev.update(e.from as int, prev[e.from as int].push(e.to))
            }
        } else {
            prev
        }
    }
}

/// The lists as sequences.
pub open spec fn lists_view(lists: Seq<Vec<NodeId>>) -> Seq<Seq<NodeId>> {
    lists.map_values(|l: Vec<NodeId>| l@)
}

/// Every listed neighbor is an existing node.
pub open spec fn lists_in_range(lists: Seq<Seq<NodeId>>, n: int) -> bool {
    &&& lists.len() == n
    &&& forall|v: int, p: int| 0 <= v < n && 0 <= p < lists[v].len() ==> #[trigger] lists[v][p] < n
}

pub(crate) proof fn lemma_neighbor_lists_in_range(nodes: Seq<LayoutNode>, edges: Seq<LayoutEdge>, k: int, down: bool)
    requires
        0 <= k <= edges.len(),
    ensures
        lists_in_range(neighbor_lists(nodes, edges, k, down), nodes.len() as int),
    decreases k,
{
    if k > 0 {
        lemma_neighbor_lists_in_range(nodes, edges, k - 1, down);
        let prev = neighbor_lists(nodes, edges, k - 1, down);
        let cur = neighbor_lists(nodes, edges, k, down);
        assert forall|v: int, p: int| 0 <= v < nodes.len() && 0 <= p < cur[v].len() implies #[trigger] cur[v][p]
            < nodes.len() by {
            if cur[v] != prev[v] {
                if p < prev[v].len() {
                    assert(cur[v][p] == prev[v][p]);
                }
            }
        }
    }
}

/// Builds the up and down neighbor lists, reporting the first faulty edge.
fn build_neighbors(graph: &LayoutGraph) -> (result: Result<(Vec<Vec<NodeId>>, Vec<Vec<NodeId>>), LayoutError>)
    ensures
        match result {
            Err(e) => first_problem(graph.nodes@, graph.edges@, graph.edges@.len() as int) == Some(e),
            Ok((up, down)) => {
                &&& first_problem(graph.nodes@, graph.edges@, graph.edges@.len() as int) is None
                &&& lists_view(up@) == neighbor_lists(graph.nodes@, graph.edges@, graph.edges@.len() as int, false)
                &&& lists_view(down@) == neighbor_lists(graph.nodes@, graph.edges@, graph.edges@.len() as int, true)
            },
        },
{
    let n = graph.nodes.len();
    let m = graph.edges.len();
    let ghost nodes = graph.nodes@;
    let ghost edges = graph.edges@;
    let mut up_neighbors: Vec<Vec<NodeId>> = Vec::new();
    let mut down_neighbors: Vec<Vec<NodeId>> = Vec::new();
    for i in 0..n
        invariant
            up_neighbors@.len() == i,
            down_neighbors@.len() == i,
            forall|j: int| 0 <= j < i ==> (#[trigger] up_neighbors@[j])@.len() == 0,
            forall|j: int| 0 <= j < i ==> (#[trigger] down_neighbors@[j])@.len() == 0,
    {
        up_neighbors.push(Vec::new());
        down_neighbors.push(Vec::new());
    }
    proof {
        assert forall|j: int| 0 <= j < n implies #[trigger] lists_view(up_neighbors@)[j] =~= Seq::<NodeId>::empty() by {}
        assert forall|j: int| 0 <= j < n implies #[trigger] lists_view(down_neighbors@)[j] =~= Seq::<NodeId>::empty() by {}
        assert(lists_view(up_neighbors@) =~= neighbor_lists(nodes, edges, 0, false));
        assert(lists_view(down_neighbors@) =~= neighbor_lists(nodes, edges, 0, true));
    }
    for k in 0..m
        invariant
            n == nodes.len(),
            m == edges.len(),
            nodes == graph.nodes@,
            edges == graph.edges@,
            first_problem(nodes, edges, k as int) is None,
            lists_view(up_neighbors@) == neighbor_lists(nodes, edges, k as int, false),
            lists_view(down_neighbors@) == neighbor_lists(nodes, edges, k as int, true),
    {
        let edge = graph.edges[k];
        proof {
            assert(edges[k as int] == edge);
            assert(first_problem(nodes, edges, k + 1) == edge_problem(nodes, edge));
            if edge_problem(nodes, edge) is Some {
                lemma_first_problem_absorbs(nodes, edges, k + 1, m as int);
            }
        }
        if edge.from >= n || edge.to >= n {
            return Err(LayoutError::DanglingEdge { from: edge.from, to: edge.to });
        }
        let rank_from = match graph.nodes[edge.from].rank {
            Some(r) => r,
            None => {
                return Err(LayoutError::MissingRank(edge.from));
            },
        };
        let rank_to = match graph.nodes[edge.to].rank {
            Some(r) => r,
            None => {
                return Err(LayoutError::MissingRank(edge.to));
            },
        };
        let ghost up0 = lists_view(up_neighbors@);
        let ghost down0 = lists_view(down_neighbors@);
        proof {
            assert(rank_val(nodes, edge.from as int) == rank_from);
            assert(rank_val(nodes, edge.to as int) == rank_to);
            lemma_neighbor_lists_in_range(nodes, edges, k as int, false);
            lemma_neighbor_lists_in_range(nodes, edges, k as int, true);
            assert(up0.len() == n);
            assert(up_neighbors@.len() == n);
            assert(down_neighbors@.len() == n);
        }
        if rank_to > rank_from && rank_to - rank_from == 1 {
            down_neighbors[edge.from].push(edge.to);
            up_neighbors[edge.to].push(edge.from);
        } else if rank_from > rank_to && rank_from - rank_to == 1 {
            down_neighbors[edge.to].push(edge.from);
            up_neighbors[edge.from].push(edge.to);
        }
        proof {
            assert(lists_view(up_neighbors@) =~= neighbor_lists(nodes, edges, k + 1, false));
            assert(lists_view(down_neighbors@) =~= neighbor_lists(nodes, edges, k + 1, true));
        }
    }
    Ok((up_neighbors, down_neighbors))
}

/// The sum of the order values of the nodes in `s`.
pub open spec fn order_sum(nodes: Seq<LayoutNode>, s: Seq<NodeId>) -> int
    decreases s.len(),
{
    if s.len() == 0 {
        0
    } else {
        order_sum(nodes, s.drop_last()) + ord_of(nodes, s.last() as int)
    }
}

/// The barycenter score of node `v`: the mean order of its neighbors (their
/// order sum and their count each converted to single precision, then
/// divided), or its own order in single precision when it has none; as
/// the bit pattern of that non-negative value (larger quotients never get
/// smaller patterns: `lemma_rounding_is_monotone`).
pub open spec fn bary_score(nodes: Seq<LayoutNode>, nbrs: Seq<NodeId>, v: int) -> int {
    if nbrs.len() == 0 {
        quotient_bits(ord_of(nodes, v) as nat, 1) as int
    } else {
        mean_bits(order_sum(nodes, nbrs) as nat, nbrs.len()) as int
    }
}

/// A node id with its barycenter score.
pub type Scored = (NodeId, int);

/// `a`'s barycenter is at most `b`'s.
pub open spec fn key_le(a: Scored, b: Scored) -> bool {
    a.1 <= b.1
}

/// Inserts `x` after the trailing run of entries whose key exceeds `x`'s.
pub open spec fn insert_stable(s: Seq<Scored>, x: Scored) -> Seq<Scored>
    decreases s.len(),
{
    if s.len() == 0 {
        seq![x]
    } else if key_le(s.last(), x) {
        s.push(x)
    } else {
        insert_stable(s.drop_last(), x).push(s.last())
    }
}

/// The stable sort of `s` by barycenter.
pub open spec fn stable_sort(s: Seq<Scored>) -> Seq<Scored>
    decreases s.len(),
{
    if s.len() == 0 {
        s
    } else {
        insert_stable(stable_sort(s.drop_last()), s.last())
    }
}

/// The layer's nodes with their barycenters.
pub open spec fn scored_layer(nodes: Seq<LayoutNode>, layer: Seq<NodeId>, nbrs: Seq<Seq<NodeId>>) -> Seq<Scored> {
    layer.map_values(
        |v: NodeId| (v, bary_score(nodes, nbrs[v as int], v as int)),
    )
}

/// The nodes after the first `k` nodes of `ids` get their positions in
/// `ids` as order.
pub open spec fn set_positions(nodes: Seq<LayoutNode>, ids: Seq<NodeId>, k: int) -> Seq<LayoutNode>
    decreases k,
{
    if k <= 0 {
        nodes
    } else {
        let prev = set_positions(nodes, ids, k - 1);
        let v = ids[k - 1] as int;
        prev.update(v, LayoutNode { order: Some((k - 1) as usize), ..prev[v] })
    }
}

/// The nodes and the layers, as crossing reduction sees them.
pub struct OrderState {
    pub nodes: Seq<LayoutNode>,
    pub layers: Seq<Seq<NodeId>>,
}

/// Reordering layer `idx` by barycenter: a stable sort of its nodes by the
/// barycenter of their neighbors in `nbrs`, after which each node's order
/// is its new position.
pub open spec fn reorder_spec(st: OrderState, idx: int, nbrs: Seq<Seq<NodeId>>) -> OrderState {
    let sorted = stable_sort(scored_layer(st.nodes, st.layers[idx], nbrs)).map_values(|t: Scored| t.0);
    OrderState { nodes: set_positions(st.nodes, sorted, sorted.len() as int), layers: st.layers.update(idx, sorted) }
}

proof fn lemma_insert_stable_at(s: Seq<Scored>, x: Scored, j: int)
    requires
        0 <= j <= s.len(),
        forall|q: int| j <= q < s.len() ==> !key_le(#[trigger] s[q], x),
        j > 0 ==> key_le(s[j - 1], x),
    ensures
        insert_stable(s, x) == s.insert(j, x),
    decreases s.len() - j,
{
    if s.len() == 0 {
        assert(s.insert(j, x) =~= seq![x]);
    } else if j == s.len() {
        assert(s.insert(j, x) =~= s.push(x));
    } else {
        let t = s.drop_last();
        assert forall|q: int| j <= q < t.len() implies !key_le(#[trigger] t[q], x) by {
            assert(t[q] == s[q]);
        }
        assert(s[s.len() - 1] == s.last());
        lemma_insert_stable_at(t, x, j);
        assert(t.insert(j, x).push(s.last()) =~= s.insert(j, x));
    }
}

/// The scored entries as mathematical pairs.
pub open spec fn scored_view(s: Seq<(NodeId, u32)>) -> Seq<Scored> {
    s.map_values(|t: (NodeId, u32)| (t.0, t.1 as int))
}

proof fn lemma_stable_sort_len(s: Seq<Scored>)
    ensures
        stable_sort(s).len() == s.len(),
    decreases s.len(),
{
    if s.len() > 0 {
        lemma_stable_sort_len(s.drop_last());
        lemma_insert_stable_len(stable_sort(s.drop_last()), s.last());
    }
}

proof fn lemma_insert_stable_len(s: Seq<Scored>, x: Scored)
    ensures
        insert_stable(s, x).len() == s.len() + 1,
    decreases s.len(),
{
    if s.len() > 0 && !key_le(s.last(), x) {
        lemma_insert_stable_len(s.drop_last(), x);
    }
}

/// The order value of node `v` (0 when none is set).
fn order_value(nodes: &Vec<LayoutNode>, v: NodeId) -> (o: usize)
    requires
        v < nodes@.len(),
    ensures
        o == ord_of(nodes@, v as int),
{
    match nodes[v].order {
        Some(o) => o,
        None => 0,
    }
}

/// The barycenter score of node `v` with neighbor list `adj`.
fn barycenter(nodes: &Vec<LayoutNode>, adj: &Vec<NodeId>, v: NodeId) -> (key: (NodeId, u32))
    requires
        v < nodes@.len(),
        forall|q: int| 0 <= q < adj@.len() ==> #[trigger] adj@[q] < nodes@.len(),
    ensures
        key.0 == v,
        key.1 == bary_score(nodes@, adj@, v as int),
{
    let len = adj.len();
    if len == 0 {
        let o = order_value(nodes, v);
        return (v, natural_pattern(o as u64));
    }
    let mut sum: u128 = 0;
    for q in 0..len
        invariant
            len == adj@.len(),
            forall|r: int| 0 <= r < adj@.len() ==> #[trigger] adj@[r] < nodes@.len(),
            sum == order_sum(nodes@, adj@.take(q as int)),
            sum <= q * 0xffff_ffff_ffff_ffffu128,
    {
        let o = order_value(nodes, adj[q]);
        proof {
            assert(adj@.take(q + 1).drop_last() =~= adj@.take(q as int));
            assert(o <= 0xffff_ffff_ffff_ffffu128);
            assert(sum + o <= (q + 1) * 0xffff_ffff_ffff_ffffu128) by (nonlinear_arith)
                requires
                    sum <= q * 0xffff_ffff_ffff_ffffu128,
                    o <= 0xffff_ffff_ffff_ffffu128,
            ;
            assert((q + 1) * 0xffff_ffff_ffff_ffffu128 <= 0xffff_ffff_ffff_ffffu128 * 0xffff_ffff_ffff_ffffu128) by (nonlinear_arith)
                requires
                    q + 1 <= 0xffff_ffff_ffff_ffffu128,
            ;
        }
        sum = sum + o as u128;
    }
    proof {
        assert(adj@.take(len as int) =~= adj@);
    }
    (v, mean_pattern(sum, len as u64))
}

/// Reorders one layer by the barycenter of each node's neighbors in
/// `neighbors` (stable, so ties keep their current relative order), then
/// records every node's new position as its order.
fn reorder_layer_by_barycenter(
    graph: &mut LayoutGraph,
    ranks: &mut RankSystem,
    layer_idx: RankId,
    neighbors: &Vec<Vec<NodeId>>,
)
    requires
        layer_idx < old(ranks).layers@.len(),
        forall|p: int|
            0 <= p < old(ranks).layers@[layer_idx as int]@.len() ==> #[trigger] old(ranks).layers@[layer_idx as int]@[p]
                < old(graph).nodes@.len(),
        lists_in_range(lists_view(neighbors@), old(graph).nodes@.len() as int),
        layers_in_range(old(ranks)@, old(graph).nodes@.len() as int),
    ensures
        final(graph).edges@ == old(graph).edges@,
        final(graph).nodes@.len() == old(graph).nodes@.len(),
        final(ranks)@.len() == old(ranks)@.len(),
        layers_in_range(final(ranks)@, final(graph).nodes@.len() as int),
        (OrderState { nodes: final(graph).nodes@, layers: final(ranks)@ }) == reorder_spec(
            OrderState { nodes: old(graph).nodes@, layers: old(ranks)@ },
            layer_idx as int,
            lists_view(neighbors@),
        ),
{
    let ghost nodes0 = graph.nodes@;
    let ghost layers0 = ranks@;
    let ghost nbrs = lists_view(neighbors@);
    let ghost layer = layers0[layer_idx as int];
    let ghost target = scored_layer(nodes0, layer, nbrs);
    let layer_len = ranks.layers[layer_idx].len();
    assert(layer =~= ranks.layers@[layer_idx as int]@);
    let mut scored: Vec<(NodeId, u32)> = Vec::new();
    for p in 0..layer_len
        invariant
            layer_len == layer.len(),
            layer == ranks.layers@[layer_idx as int]@,
            layer_idx < ranks.layers@.len(),
            nodes0 == graph.nodes@,
            nbrs == lists_view(neighbors@),
            target == scored_layer(nodes0, layer, nbrs),
            forall|q: int| 0 <= q < layer.len() ==> #[trigger] layer[q] < nodes0.len(),
            lists_in_range(nbrs, nodes0.len() as int),
            scored@.len() == p,
            forall|q: int| 0 <= q < p ==> #[trigger] scored_view(scored@)[q] == target[q],
    {
        let node_id = ranks.layers[layer_idx][p];
        let adj = &neighbors[node_id];
        proof {
            assert(layer[p as int] == node_id);
            assert(nbrs[node_id as int] == adj@);
            assert forall|q: int| 0 <= q < adj@.len() implies #[trigger] adj@[q] < graph.nodes@.len() by {
                assert(nbrs[node_id as int][q] == adj@[q]);
            }
        }
        let key = barycenter(&graph.nodes, adj, node_id);
        let ghost s0 = scored@;
        scored.push(key);
        proof {
            assert forall|q: int| 0 <= q < p + 1 implies #[trigger] scored_view(scored@)[q] == target[q] by {
                if q < p {
                    assert(scored@[q] == s0[q]);
                    assert(scored_view(s0)[q] == target[q]);
                }
            }
        }
    }
    let mut sorted: Vec<(NodeId, u32)> = Vec::new();
    proof {
        assert(scored_view(scored@) =~= target);
        assert(target.take(0) =~= Seq::<Scored>::empty());
        assert(scored_view(sorted@) =~= stable_sort(target.take(0)));
    }
    for i in 0..layer_len
        invariant
            layer_len == scored@.len(),
            scored_view(scored@) == target,
            scored_view(sorted@) == stable_sort(target.take(i as int)),
            sorted@.len() == i,
    {
        let x = scored[i];
        let mut j = sorted.len();
        let mut searching = true;
        while searching && j > 0
            invariant
                j <= sorted@.len(),
                forall|q: int| j <= q < sorted@.len() ==> !key_le(#[trigger] scored_view(sorted@)[q], scored_view(scored@)[i as int]),
                !searching ==> j > 0 && key_le(scored_view(sorted@)[j - 1], scored_view(scored@)[i as int]),
                i < scored@.len(),
                x == scored@[i as int],
            decreases j + (if searching { 1int } else { 0int }),
        {
            proof {
                assert(scored_view(sorted@)[j - 1] == (sorted@[j - 1].0, sorted@[j - 1].1 as int));
                assert(scored_view(scored@)[i as int] == (x.0, x.1 as int));
            }
            if sorted[j - 1].1 <= x.1 {
                searching = false;
            } else {
                j = j - 1;
            }
        }
        let ghost before = scored_view(sorted@);
        proof {
            assert(target.take(i + 1).drop_last() =~= target.take(i as int));
            assert(target.take(i + 1).last() == scored_view(scored@)[i as int]);
            lemma_insert_stable_at(before, scored_view(scored@)[i as int], j as int);
        }
        sorted.insert(j, x);
        proof {
            assert(scored_view(sorted@) =~= before.insert(j as int, scored_view(scored@)[i as int]));
        }
    }
    proof {
        assert(target.take(layer_len as int) =~= target);
    }
    let mut new_layer: Vec<NodeId> = Vec::new();
    for p in 0..layer_len
        invariant
            layer_len == sorted@.len(),
            new_layer@.len() == p,
            forall|q: int| 0 <= q < p ==> #[trigger] new_layer@[q] == sorted@[q].0,
    {
        new_layer.push(sorted[p].0);
    }
    let ghost sorted_ids = stable_sort(target).map_values(|t: Scored| t.0);
    proof {
        assert(new_layer@ =~= sorted_ids);
        lemma_stable_sort_len(target);
        lemma_stable_sort_members(target);
        assert forall|q: int| 0 <= q < new_layer@.len() implies #[trigger] new_layer@[q] < nodes0.len() by {
            let t = stable_sort(target)[q];
            assert(stable_sort(target).contains(t));
            assert(target.contains(t));
            let k = choose|k: int| 0 <= k < target.len() && target[k] == t;
            assert(layer[k] < nodes0.len());
        }
    }
    for p in 0..layer_len
        invariant
            layer_len == new_layer@.len(),
            graph.nodes@.len() == nodes0.len(),
            forall|q: int| 0 <= q < new_layer@.len() ==> #[trigger] new_layer@[q] < nodes0.len(),
            graph.nodes@ == set_positions(nodes0, new_layer@, p as int),
            graph.edges@ == old(graph).edges@,
    {
        let id = new_layer[p];
        let mut node = graph.nodes[id];
        node.order = Some(p);
        graph.nodes.set(id, node);
    }
    ranks.layers.set(layer_idx, new_layer);
    proof {
        assert(ranks@ =~= layers0.update(layer_idx as int, sorted_ids));
        lemma_set_positions_len(nodes0, new_layer@, layer_len as int);
        assert forall|r: int, p: int| 0 <= r < ranks@.len() && 0 <= p < ranks@[r].len() implies #[trigger] ranks@[r][p] < graph.nodes@.len() by {
            if r != layer_idx {
                assert(ranks@[r] == layers0[r]);
            }
        }
    }
}

proof fn lemma_set_positions_len(nodes: Seq<LayoutNode>, ids: Seq<NodeId>, k: int)
    requires
        0 <= k <= ids.len(),
        forall|q: int| 0 <= q < ids.len() ==> #[trigger] ids[q] < nodes.len(),
    ensures
        set_positions(nodes, ids, k).len() == nodes.len(),
    decreases k,
{
    if k > 0 {
        lemma_set_positions_len(nodes, ids, k - 1);
    }
}

proof fn lemma_insert_stable_members(s: Seq<Scored>, x: Scored)
    ensures
        forall|t: Scored| #[trigger] insert_stable(s, x).contains(t) ==> t == x || s.contains(t),
    decreases s.len(),
{
    if s.len() > 0 && !key_le(s.last(), x) {
        lemma_insert_stable_members(s.drop_last(), x);
        assert forall|t: Scored| #[trigger] insert_stable(s, x).contains(t) implies t == x || s.contains(t) by {
            let r = insert_stable(s.drop_last(), x);
            let k = choose|k: int| 0 <= k < insert_stable(s, x).len() && insert_stable(s, x)[k] == t;
            if k < r.len() {
                assert(r[k] == t);
                assert(r.contains(t));
                if t != x {
                    let k2 = choose|k2: int| 0 <= k2 < s.drop_last().len() && s.drop_last()[k2] == t;
                    assert(s[k2] == t);
                }
            } else {
                assert(t == s.last());
                assert(s[s.len() - 1] == t);
            }
        }
    } else if s.len() > 0 {
        assert forall|t: Scored| #[trigger] insert_stable(s, x).contains(t) implies t == x || s.contains(t) by {
            let k = choose|k: int| 0 <= k < s.push(x).len() && s.push(x)[k] == t;
            if k < s.len() {
                assert(s[k] == t);
            }
        }
    }
}

proof fn lemma_stable_sort_members(s: Seq<Scored>)
    ensures
        forall|t: Scored| #[trigger] stable_sort(s).contains(t) ==> s.contains(t),
    decreases s.len(),
{
    if s.len() > 0 {
        lemma_stable_sort_members(s.drop_last());
        lemma_insert_stable_members(stable_sort(s.drop_last()), s.last());
        assert forall|t: Scored| #[trigger] stable_sort(s).contains(t) implies s.contains(t) by {
            if t == s.last() {
                assert(s[s.len() - 1] == t);
            } else {
                assert(stable_sort(s.drop_last()).contains(t));
                assert(s.drop_last().contains(t));
                let k = choose|k: int| 0 <= k < s.drop_last().len() && s.drop_last()[k] == t;
                assert(s[k] == t);
            }
        }
    }
}

/// How many nodes of `s` have an order below `x`.
pub open spec fn count_below(nodes: Seq<LayoutNode>, x: int, s: Seq<NodeId>) -> int
    decreases s.len(),
{
    if s.len() == 0 {
        0
    } else {
        count_below(nodes, x, s.drop_last()) + if x > ord_of(nodes, s.last() as int) {
            1int
        } else {
            0
        }
    }
}

/// Crossings between the edges from a node with neighbors `ls` placed to
/// the left of a node with neighbors `rs`: the pairs of neighbors whose
/// orders are the other way round.
pub open spec fn local_cross(nodes: Seq<LayoutNode>, ls: Seq<NodeId>, rs: Seq<NodeId>) -> int
    decreases ls.len(),
{
    if ls.len() == 0 {
        0
    } else {
        local_cross(nodes, ls.drop_last(), rs) + count_below(nodes, ord_of(nodes, ls.last() as int), rs)
    }
}

proof fn lemma_count_below_bounds(nodes: Seq<LayoutNode>, x: int, s: Seq<NodeId>)
    ensures
        0 <= count_below(nodes, x, s) <= s.len(),
    decreases s.len(),
{
    if s.len() > 0 {
        lemma_count_below_bounds(nodes, x, s.drop_last());
    }
}

/// Counts crossings between two adjacent nodes' edges toward a shared
/// layer.
fn local_crossings(nodes: &Vec<LayoutNode>, left: NodeId, right: NodeId, neighbors: &Vec<Vec<NodeId>>) -> (c: u128)
    requires
        lists_in_range(lists_view(neighbors@), nodes@.len() as int),
        left < nodes@.len(),
        right < nodes@.len(),
    ensures
        c == local_cross(nodes@, neighbors@[left as int]@, neighbors@[right as int]@),
{
    let ls = &neighbors[left];
    let rs = &neighbors[right];
    proof {
        assert(lists_view(neighbors@)[left as int] == ls@);
        assert(lists_view(neighbors@)[right as int] == rs@);
    }
    let ls_len = ls.len();
    let rs_len = rs.len();
    let mut crossings: u128 = 0;
    for p in 0..ls_len
        invariant
            ls_len == ls@.len(),
            rs_len == rs@.len(),
            ls@ == neighbors@[left as int]@,
            rs@ == neighbors@[right as int]@,
            lists_in_range(lists_view(neighbors@), nodes@.len() as int),
            left < nodes@.len(),
            right < nodes@.len(),
            crossings == local_cross(nodes@, ls@.take(p as int), rs@),
            crossings <= p * rs_len,
    {
        proof {
            assert(lists_view(neighbors@)[left as int][p as int] == ls@[p as int]);
        }
        let l_order = order_value(nodes, ls[p]);
        let mut below: u128 = 0;
        for q in 0..rs_len
            invariant
                rs_len == rs@.len(),
                rs@ == neighbors@[right as int]@,
                lists_in_range(lists_view(neighbors@), nodes@.len() as int),
                right < nodes@.len(),
                below == count_below(nodes@, l_order as int, rs@.take(q as int)),
                below <= q,
        {
            proof {
                assert(lists_view(neighbors@)[right as int][q as int] == rs@[q as int]);
                assert(rs@.take(q + 1).drop_last() =~= rs@.take(q as int));
            }
            let r_order = order_value(nodes, rs[q]);
            if l_order > r_order {
                below = below + 1;
            }
        }
        proof {
            assert(rs@.take(rs_len as int) =~= rs@);
            assert(ls@.take(p + 1).drop_last() =~= ls@.take(p as int));
            assert(crossings + below <= (p + 1) * rs_len) by (nonlinear_arith)
                requires
                    crossings <= p * rs_len,
                    below <= rs_len,
            ;
            assert((p + 1) * rs_len <= 0xffff_ffff_ffff_ffffu128 * 0xffff_ffff_ffff_ffffu128) by (nonlinear_arith)
                requires
                    p + 1 <= ls_len,
                    ls_len <= 0xffff_ffff_ffff_ffffu128,
                    rs_len <= 0xffff_ffff_ffff_ffffu128,
            ;
        }
        crossings = crossings + below;
    }
    proof {
        assert(ls@.take(ls_len as int) =~= ls@);
    }
    crossings
}

/// Decides `c + d < a + b` without overflow.
fn sum_less(c: u128, d: u128, a: u128, b: u128) -> (less: bool)
    ensures
        less == (c + d < a + b),
{
    if c <= a {
        if d <= b {
            c < a || d < b
        } else {
            d - b < a - c
        }
    } else {
        if d <= b {
            c - a < b - d
        } else {
            false
        }
    }
}

/// The transpose cleanup's state: the nodes, the layers, and whether a
/// swap was made in the current pass.
pub struct TState {
    pub nodes: Seq<LayoutNode>,
    pub layers: Seq<Seq<NodeId>>,
    pub improved: bool,
}

/// Considering the adjacent pair at positions `i` and `i + 1` of layer
/// `l`: they are swapped, and their orders updated, when that strictly
/// reduces their crossings toward both neighboring layers.
pub open spec fn swap_step(st: TState, l: int, i: int, up: Seq<Seq<NodeId>>, down: Seq<Seq<NodeId>>) -> TState {
    let a = st.layers[l][i];
    let b = st.layers[l][i + 1];
    let before = local_cross(st.nodes, up[a as int], up[b as int]) + local_cross(st.nodes, down[a as int], down[b as int]);
    let after = local_cross(st.nodes, up[b as int], up[a as int]) + local_cross(st.nodes, down[b as int], down[a as int]);
    if after < before {
        let nodes1 = st.nodes.update(a as int, LayoutNode { order: Some((i + 1) as usize), ..st.nodes[a as int] });
        let nodes2 = nodes1.update(b as int, LayoutNode { order: Some(i as usize), ..nodes1[b as int] });
        TState {
            nodes: nodes2,
            layers: st.layers.update(l, st.layers[l].update(i, b).update(i + 1, a)),
            improved: true,
        }
    } else {
        st
    }
}

/// The first `k` adjacent pairs of layer `l`, left to right.
pub open spec fn layer_sweep(st: TState, l: int, k: int, up: Seq<Seq<NodeId>>, down: Seq<Seq<NodeId>>) -> TState
    decreases k,
{
    if k <= 0 {
        st
    } else {
        swap_step(layer_sweep(st, l, k - 1, up, down), l, k - 1, up, down)
    }
}

/// One transpose pass over the first `k` layers.
pub open spec fn transpose_layers(st: TState, k: int, up: Seq<Seq<NodeId>>, down: Seq<Seq<NodeId>>) -> TState
    decreases k,
{
    if k <= 0 {
        st
    } else {
        let s = transpose_layers(st, k - 1, up, down);
        layer_sweep(s, k - 1, s.layers[k - 1].len() - 1, up, down)
    }
}

/// Transpose passes, at most `passes` of them, until one makes no swap.
pub open spec fn transpose_spec(st: OrderState, up: Seq<Seq<NodeId>>, down: Seq<Seq<NodeId>>, passes: nat) -> OrderState
    decreases passes,
{
    if passes == 0 {
        st
    } else {
        let t = transpose_layers(
            TState { nodes: st.nodes, layers: st.layers, improved: false },
            st.layers.len() as int,
            up,
            down,
        );
        let s = OrderState { nodes: t.nodes, layers: t.layers };
        if t.improved {
            transpose_spec(s, up, down, (passes - 1) as nat)
        } else {
            s
        }
    }
}

/// Every listed node exists.
pub open spec fn layers_in_range(layers: Seq<Seq<NodeId>>, n: int) -> bool {
    forall|r: int, p: int| 0 <= r < layers.len() && 0 <= p < layers[r].len() ==> #[trigger] layers[r][p] < n
}

pub(crate) proof fn lemma_swap_step_keeps(st: TState, l: int, i: int, up: Seq<Seq<NodeId>>, down: Seq<Seq<NodeId>>)
    requires
        0 <= l < st.layers.len(),
        0 <= i,
        i + 1 < st.layers[l].len(),
        layers_in_range(st.layers, st.nodes.len() as int),
    ensures
        swap_step(st, l, i, up, down).layers.len() == st.layers.len(),
        swap_step(st, l, i, up, down).nodes.len() == st.nodes.len(),
        forall|r: int| 0 <= r < st.layers.len() ==> (#[trigger] swap_step(st, l, i, up, down).layers[r]).len() == st.layers[r].len(),
        layers_in_range(swap_step(st, l, i, up, down).layers, st.nodes.len() as int),
        st.improved ==> swap_step(st, l, i, up, down).improved,
{
    let t = swap_step(st, l, i, up, down);
    assert forall|r: int, p: int| 0 <= r < t.layers.len() && 0 <= p < t.layers[r].len() implies #[trigger] t.layers[r][p] < st.nodes.len() by {
        if r == l {
            assert(st.layers[l][i] < st.nodes.len());
            assert(st.layers[l][i + 1] < st.nodes.len());
            assert(st.layers[l][p] < st.nodes.len());
        } else {
            assert(t.layers[r] == st.layers[r]);
        }
    }
}

/// The transpose cleanup: at most `MAX_TRANSPOSE_PASSES` passes over every
/// layer, each swapping adjacent nodes wherever that strictly lowers the
/// crossings toward both neighboring layers, until a pass swaps nothing.
/// With the neighbor lists of the edges, on a layering whose edges all
/// join adjacent ranks and whose orders are the positions, it never raises
/// the crossing count and keeps the layering so: each layer is rearranged,
/// and every order is still its node's position.
pub fn transpose_pass(
    graph: &mut LayoutGraph,
    ranks: &mut RankSystem,
    up_neighbors: &Vec<Vec<NodeId>>,
    down_neighbors: &Vec<Vec<NodeId>>,
)
    requires
        layers_in_range(old(ranks)@, old(graph).nodes@.len() as int),
        lists_in_range(lists_view(up_neighbors@), old(graph).nodes@.len() as int),
        lists_in_range(lists_view(down_neighbors@), old(graph).nodes@.len() as int),
    ensures
        final(graph).edges@ == old(graph).edges@,
        (OrderState { nodes: final(graph).nodes@, layers: final(ranks)@ }) == transpose_spec(
            OrderState { nodes: old(graph).nodes@, layers: old(ranks)@ },
            lists_view(up_neighbors@),
            lists_view(down_neighbors@),
            MAX_TRANSPOSE_PASSES as nat,
        ),
        layers_in_range(final(ranks)@, final(graph).nodes@.len() as int),
        final(graph).nodes@.len() == old(graph).nodes@.len(),
        final(ranks)@.len() == old(ranks)@.len(),
        same_but_order(old(graph).nodes@, final(graph).nodes@),
        same_layer_contents(old(ranks)@, final(ranks)@),
        lists_view(up_neighbors@) == neighbor_lists(old(graph).nodes@, old(graph).edges@, old(graph).edges@.len() as int, false)
            && lists_view(down_neighbors@) == neighbor_lists(old(graph).nodes@, old(graph).edges@, old(graph).edges@.len() as int, true)
            && counted_layering(old(graph).nodes@, old(graph).edges@, old(ranks)@) ==> {
            &&& counted_layering(final(graph).nodes@, final(graph).edges@, final(ranks)@)
            &&& all_crossings(final(graph).nodes@, final(graph).edges@, final(ranks)@) <= all_crossings(
                old(graph).nodes@,
                old(graph).edges@,
                old(ranks)@,
            )
        },
{
    let ghost st = OrderState { nodes: graph.nodes@, layers: ranks@ };
    let ghost edges = graph.edges@;
    transpose_until_settled(graph, ranks, up_neighbors, down_neighbors);
    proof {
        lemma_transpose_spec_keeps(st, lists_view(up_neighbors@), lists_view(down_neighbors@), MAX_TRANSPOSE_PASSES as nat);
        if lists_view(up_neighbors@) == neighbor_lists(st.nodes, edges, edges.len() as int, false)
            && lists_view(down_neighbors@) == neighbor_lists(st.nodes, edges, edges.len() as int, true)
            && counted_layering(st.nodes, edges, st.layers) {
            lemma_transpose_cleanup_never_raises_crossings(st, edges, MAX_TRANSPOSE_PASSES as nat);
        }
    }
}

/// Swaps adjacent nodes within layers while that strictly reduces their
/// crossings toward both neighboring layers, for at most
/// `MAX_TRANSPOSE_PASSES` passes, stopping after a pass without a swap.
fn transpose_until_settled(
    graph: &mut LayoutGraph,
    ranks: &mut RankSystem,
    up_neighbors: &Vec<Vec<NodeId>>,
    down_neighbors: &Vec<Vec<NodeId>>,
)
    requires
        layers_in_range(old(ranks)@, old(graph).nodes@.len() as int),
        lists_in_range(lists_view(up_neighbors@), old(graph).nodes@.len() as int),
        lists_in_range(lists_view(down_neighbors@), old(graph).nodes@.len() as int),
    ensures
        final(graph).edges@ == old(graph).edges@,
        (OrderState { nodes: final(graph).nodes@, layers: final(ranks)@ }) == transpose_spec(
            OrderState { nodes: old(graph).nodes@, layers: old(ranks)@ },
            lists_view(up_neighbors@),
            lists_view(down_neighbors@),
            MAX_TRANSPOSE_PASSES as nat,
        ),
        layers_in_range(final(ranks)@, final(graph).nodes@.len() as int),
        final(graph).nodes@.len() == old(graph).nodes@.len(),
        final(ranks)@.len() == old(ranks)@.len(),
{
    let ghost up = lists_view(up_neighbors@);
    let ghost down = lists_view(down_neighbors@);
    let ghost n = graph.nodes@.len();
    let ghost goal = transpose_spec(
        OrderState { nodes: graph.nodes@, layers: ranks@ },
        up,
        down,
        MAX_TRANSPOSE_PASSES as nat,
    );
    let mut improved = true;
    let mut pass: usize = 0;
    while improved && pass < MAX_TRANSPOSE_PASSES
        invariant
            pass <= MAX_TRANSPOSE_PASSES,
            up == lists_view(up_neighbors@),
            down == lists_view(down_neighbors@),
            graph.nodes@.len() == n,
            lists_in_range(up, n as int),
            lists_in_range(down, n as int),
            layers_in_range(ranks@, n as int),
            graph.edges@ == old(graph).edges@,
            ranks@.len() == old(ranks)@.len(),
            goal == if improved {
                transpose_spec(
                    OrderState { nodes: graph.nodes@, layers: ranks@ },
                    up,
                    down,
                    (MAX_TRANSPOSE_PASSES - pass) as nat,
                )
            } else {
                OrderState { nodes: graph.nodes@, layers: ranks@ }
            },
        decreases MAX_TRANSPOSE_PASSES - pass,
    {
        let ghost start = TState { nodes: graph.nodes@, layers: ranks@, improved: false };
        improved = false;
        pass = pass + 1;
        let num_layers = ranks.layers.len();
        for layer_idx in 0..num_layers
            invariant
                num_layers == ranks@.len(),
                num_layers == start.layers.len(),
                up == lists_view(up_neighbors@),
                down == lists_view(down_neighbors@),
                graph.nodes@.len() == n,
                lists_in_range(up, n as int),
                lists_in_range(down, n as int),
                layers_in_range(ranks@, n as int),
                graph.edges@ == old(graph).edges@,
                (TState { nodes: graph.nodes@, layers: ranks@, improved }) == transpose_layers(start, layer_idx as int, up, down),
        {
            let len = ranks.layers[layer_idx].len();
            let ghost s0 = TState { nodes: graph.nodes@, layers: ranks@, improved };
            let limit = if len > 0 { len - 1 } else { 0 };
            proof {
                assert(ranks.layers@[layer_idx as int]@ == ranks@[layer_idx as int]);
            }
            for i in 0..limit
                invariant
                    num_layers == ranks@.len(),
                    layer_idx < num_layers,
                    len == ranks@[layer_idx as int].len(),
                    limit == if len > 0 { len - 1 } else { 0 },
                    up == lists_view(up_neighbors@),
                    down == lists_view(down_neighbors@),
                    graph.nodes@.len() == n,
                    lists_in_range(up, n as int),
                    lists_in_range(down, n as int),
                    layers_in_range(ranks@, n as int),
                    graph.edges@ == old(graph).edges@,
                    (TState { nodes: graph.nodes@, layers: ranks@, improved }) == layer_sweep(s0, layer_idx as int, i as int, up, down),
            {
                let ghost cur = TState { nodes: graph.nodes@, layers: ranks@, improved };
                proof {
                    assert(ranks.layers@[layer_idx as int]@ == ranks@[layer_idx as int]);
                    assert(ranks@[layer_idx as int][i as int] < n);
                    assert(ranks@[layer_idx as int][i + 1] < n);
                    lemma_swap_step_keeps(cur, layer_idx as int, i as int, up, down);
                }
                let a = ranks.layers[layer_idx][i];
                let b = ranks.layers[layer_idx][i + 1];
                let before_up = local_crossings(&graph.nodes, a, b, up_neighbors);
                let before_down = local_crossings(&graph.nodes, a, b, down_neighbors);
                let after_up = local_crossings(&graph.nodes, b, a, up_neighbors);
                let after_down = local_crossings(&graph.nodes, b, a, down_neighbors);
                if sum_less(after_up, after_down, before_up, before_down) {
                    ranks.layers[layer_idx].set(i, b);
                    ranks.layers[layer_idx].set(i + 1, a);
                    let mut node_a = graph.nodes[a];
                    node_a.order = Some(i + 1);
                    graph.nodes.set(a, node_a);
                    let mut node_b = graph.nodes[b];
                    node_b.order = Some(i);
                    graph.nodes.set(b, node_b);
                    improved = true;
                    proof {
                        assert(ranks@ =~= cur.layers.update(
                            layer_idx as int,
                            cur.layers[layer_idx as int].update(i as int, b).update(i + 1, a),
                        )) by {
                            assert(ranks@[layer_idx as int] =~= cur.layers[layer_idx as int].update(i as int, b).update(i + 1, a));
                        }
                    }
                }
                proof {
                    assert(layer_sweep(s0, layer_idx as int, i + 1, up, down) == swap_step(cur, layer_idx as int, i as int, up, down));
                }
            }
            proof {
                assert(transpose_layers(start, layer_idx + 1, up, down) == layer_sweep(s0, layer_idx as int, s0.layers[layer_idx as int].len() - 1, up, down));
                if len == 0 {
                    assert(layer_sweep(s0, layer_idx as int, -1, up, down) == s0);
                }
            }
        }
    }
}

/// A downward sweep over the layers `1..k`: each reordered by its upper
/// neighbors.
pub open spec fn down_sweep(st: OrderState, up: Seq<Seq<NodeId>>, k: int) -> OrderState
    decreases k,
{
    if k <= 1 {
        st
    } else {
        reorder_spec(down_sweep(st, up, k - 1), k - 1, up)
    }
}

/// An upward sweep over the `k` layers `total - 2`, `total - 3`, …, each
/// reordered by its lower neighbors.
pub open spec fn up_sweep(st: OrderState, down: Seq<Seq<NodeId>>, k: int, total: int) -> OrderState
    decreases k,
{
    if k <= 0 {
        st
    } else {
        reorder_spec(up_sweep(st, down, k - 1, total), total - 1 - k, down)
    }
}

/// Sweep number `s`: downward when `s` is even, upward when odd, followed
/// by the transpose cleanup.
pub open spec fn sweep_once(st: OrderState, up: Seq<Seq<NodeId>>, down: Seq<Seq<NodeId>>, s: int) -> OrderState {
    let total = st.layers.len() as int;
    let swept = if s % 2 == 0 {
        down_sweep(st, up, total)
    } else {
        up_sweep(st, down, total - 1, total)
    };
    transpose_spec(swept, up, down, MAX_TRANSPOSE_PASSES as nat)
}

/// The first `k` sweeps.
pub open spec fn order_spec(st: OrderState, up: Seq<Seq<NodeId>>, down: Seq<Seq<NodeId>>, k: int) -> OrderState
    decreases k,
{
    if k <= 0 {
        st
    } else {
        sweep_once(order_spec(st, up, down, k - 1), up, down, k - 1)
    }
}

/// `b` differs from `a` at most in the nodes' orders.
pub open spec fn same_but_order(a: Seq<LayoutNode>, b: Seq<LayoutNode>) -> bool {
    &&& a.len() == b.len()
    &&& forall|v: int| 0 <= v < a.len() ==> #[trigger] b[v] == (LayoutNode { order: b[v].order, ..a[v] })
}

/// Each layer of `b` holds the nodes of the same layer of `a`, possibly
/// rearranged.
pub open spec fn same_layer_contents(a: Seq<Seq<NodeId>>, b: Seq<Seq<NodeId>>) -> bool {
    &&& a.len() == b.len()
    &&& forall|l: int| 0 <= l < a.len() ==> (#[trigger] b[l]).to_multiset() == a[l].to_multiset()
}

/// The node ids of scored entries.
pub open spec fn ids_of_scored(s: Seq<Scored>) -> Seq<NodeId> {
    s.map_values(|t: Scored| t.0)
}

proof fn lemma_set_positions_keeps(nodes: Seq<LayoutNode>, ids: Seq<NodeId>, k: int)
    requires
        0 <= k <= ids.len(),
        forall|q: int| 0 <= q < ids.len() ==> #[trigger] ids[q] < nodes.len(),
    ensures
        same_but_order(nodes, set_positions(nodes, ids, k)),
    decreases k,
{
    if k > 0 {
        lemma_set_positions_keeps(nodes, ids, k - 1);
        let prev = set_positions(nodes, ids, k - 1);
        let v = ids[k - 1] as int;
        let cur = set_positions(nodes, ids, k);
        assert forall|w: int| 0 <= w < nodes.len() implies #[trigger] cur[w] == (LayoutNode { order: cur[w].order, ..nodes[w] }) by {
            assert(prev[w] == (LayoutNode { order: prev[w].order, ..nodes[w] }));
        }
    }
}

proof fn lemma_insert_stable_ids(s: Seq<Scored>, x: Scored)
    ensures
        ids_of_scored(insert_stable(s, x)).to_multiset() == ids_of_scored(s).to_multiset().insert(x.0),
    decreases s.len(),
{
    broadcast use vstd::seq_lib::group_to_multiset_ensures, vstd::multiset::group_multiset_axioms;

    if s.len() == 0 {
        assert(ids_of_scored(insert_stable(s, x)) =~= Seq::<NodeId>::empty().push(x.0));
        assert(ids_of_scored(s) =~= Seq::<NodeId>::empty());
    } else if key_le(s.last(), x) {
        assert(ids_of_scored(s.push(x)) =~= ids_of_scored(s).push(x.0));
    } else {
        let init = s.drop_last();
        lemma_insert_stable_ids(init, x);
        assert(ids_of_scored(insert_stable(init, x).push(s.last())) =~= ids_of_scored(insert_stable(init, x)).push(
            s.last().0,
        ));
        assert(ids_of_scored(s) =~= ids_of_scored(init).push(s.last().0));
        assert(ids_of_scored(insert_stable(s, x)).to_multiset() =~= ids_of_scored(s).to_multiset().insert(x.0));
    }
}

proof fn lemma_stable_sort_ids(s: Seq<Scored>)
    ensures
        ids_of_scored(stable_sort(s)).to_multiset() == ids_of_scored(s).to_multiset(),
    decreases s.len(),
{
    broadcast use vstd::seq_lib::group_to_multiset_ensures;

    if s.len() > 0 {
        let init = s.drop_last();
        lemma_stable_sort_ids(init);
        lemma_insert_stable_ids(stable_sort(init), s.last());
        assert(ids_of_scored(s) =~= ids_of_scored(init).push(s.last().0));
    }
}

proof fn lemma_reorder_keeps(st: OrderState, idx: int, nbrs: Seq<Seq<NodeId>>)
    requires
        0 <= idx < st.layers.len(),
        layers_in_range(st.layers, st.nodes.len() as int),
    ensures
        same_but_order(st.nodes, reorder_spec(st, idx, nbrs).nodes),
        same_layer_contents(st.layers, reorder_spec(st, idx, nbrs).layers),
        layers_in_range(reorder_spec(st, idx, nbrs).layers, st.nodes.len() as int),
{
    let scored = scored_layer(st.nodes, st.layers[idx], nbrs);
    let sorted = stable_sort(scored).map_values(|t: Scored| t.0);
    lemma_stable_sort_len(scored);
    lemma_stable_sort_members(scored);
    assert forall|q: int| 0 <= q < sorted.len() implies #[trigger] sorted[q] < st.nodes.len() by {
        let t = stable_sort(scored)[q];
        assert(stable_sort(scored).contains(t));
        let k = choose|k: int| 0 <= k < scored.len() && scored[k] == t;
        assert(st.layers[idx][k] < st.nodes.len());
    }
    lemma_set_positions_keeps(st.nodes, sorted, sorted.len() as int);
    lemma_stable_sort_ids(scored);
    assert(ids_of_scored(scored) =~= st.layers[idx]);
    assert(ids_of_scored(stable_sort(scored)) == sorted);
    let r = reorder_spec(st, idx, nbrs);
    assert forall|l: int| 0 <= l < st.layers.len() implies (#[trigger] r.layers[l]).to_multiset() == st.layers[l].to_multiset() by {
        if l == idx {
            assert(r.layers[l] == sorted);
        }
    }
    assert forall|l: int, p: int| 0 <= l < r.layers.len() && 0 <= p < r.layers[l].len() implies #[trigger] r.layers[l][p]
        < st.nodes.len() by {
        if l != idx {
            assert(r.layers[l] == st.layers[l]);
        }
    }
}

pub(crate) proof fn lemma_swap_step_contents(st: TState, l: int, i: int, up: Seq<Seq<NodeId>>, down: Seq<Seq<NodeId>>)
    requires
        0 <= l < st.layers.len(),
        0 <= i,
        i + 1 < st.layers[l].len(),
        layers_in_range(st.layers, st.nodes.len() as int),
    ensures
        same_but_order(st.nodes, swap_step(st, l, i, up, down).nodes),
        same_layer_contents(st.layers, swap_step(st, l, i, up, down).layers),
{
    broadcast use vstd::seq_lib::to_multiset_update, vstd::multiset::group_multiset_axioms;

    let t = swap_step(st, l, i, up, down);
    if t != st {
        let s = st.layers[l];
        let a = s[i];
        let b = s[i + 1];
        assert(st.layers[l][i] < st.nodes.len());
        assert(st.layers[l][i + 1] < st.nodes.len());
        let s1 = s.update(i, b);
        assert(s1[i + 1] == b);
        let m = s.to_multiset();
        assert(s.contains(a));
        vstd::seq_lib::to_multiset_contains(s, a);
        assert(m.count(a) > 0);
        assert(s1.to_multiset() == m.insert(b).remove(a));
        assert(s1.update(i + 1, a).to_multiset() == s1.to_multiset().insert(a).remove(b));
        assert(m.insert(b).remove(a).insert(a).remove(b) =~= m);
        assert(s1.update(i + 1, a).to_multiset() =~= s.to_multiset());
        assert forall|r: int| 0 <= r < st.layers.len() implies (#[trigger] t.layers[r]).to_multiset() == st.layers[r].to_multiset() by {
            if r == l {
                assert(t.layers[r] == s1.update(i + 1, a));
            }
        }
    }
}

proof fn lemma_layer_sweep_keeps(st: TState, l: int, k: int, up: Seq<Seq<NodeId>>, down: Seq<Seq<NodeId>>)
    requires
        0 <= l < st.layers.len(),
        k <= st.layers[l].len() - 1,
        layers_in_range(st.layers, st.nodes.len() as int),
    ensures
        same_but_order(st.nodes, layer_sweep(st, l, k, up, down).nodes),
        same_layer_contents(st.layers, layer_sweep(st, l, k, up, down).layers),
        layers_in_range(layer_sweep(st, l, k, up, down).layers, st.nodes.len() as int),
        forall|r: int| 0 <= r < st.layers.len() ==> (#[trigger] layer_sweep(st, l, k, up, down).layers[r]).len() == st.layers[r].len(),
    decreases k,
{
    if k > 0 {
        lemma_layer_sweep_keeps(st, l, k - 1, up, down);
        let s = layer_sweep(st, l, k - 1, up, down);
        lemma_swap_step_keeps(s, l, k - 1, up, down);
        lemma_swap_step_contents(s, l, k - 1, up, down);
        let t = swap_step(s, l, k - 1, up, down);
        assert forall|r: int| 0 <= r < st.layers.len() implies (#[trigger] t.layers[r]).to_multiset() == st.layers[r].to_multiset() by {
            assert(s.layers[r].to_multiset() == st.layers[r].to_multiset());
        }
        assert forall|v: int| 0 <= v < st.nodes.len() implies #[trigger] t.nodes[v] == (LayoutNode { order: t.nodes[v].order, ..st.nodes[v] }) by {
            assert(s.nodes[v] == (LayoutNode { order: s.nodes[v].order, ..st.nodes[v] }));
        }
        assert forall|r: int| 0 <= r < st.layers.len() implies (#[trigger] t.layers[r]).len() == st.layers[r].len() by {
            assert(s.layers[r].len() == st.layers[r].len());
        }
    }
}

proof fn lemma_transpose_layers_keeps(st: TState, k: int, up: Seq<Seq<NodeId>>, down: Seq<Seq<NodeId>>)
    requires
        k <= st.layers.len(),
        layers_in_range(st.layers, st.nodes.len() as int),
    ensures
        same_but_order(st.nodes, transpose_layers(st, k, up, down).nodes),
        same_layer_contents(st.layers, transpose_layers(st, k, up, down).layers),
        layers_in_range(transpose_layers(st, k, up, down).layers, st.nodes.len() as int),
    decreases k,
{
    if k > 0 {
        lemma_transpose_layers_keeps(st, k - 1, up, down);
        let s = transpose_layers(st, k - 1, up, down);
        lemma_layer_sweep_keeps(s, k - 1, s.layers[k - 1].len() - 1, up, down);
        let t = transpose_layers(st, k, up, down);
        assert forall|r: int| 0 <= r < st.layers.len() implies (#[trigger] t.layers[r]).to_multiset() == st.layers[r].to_multiset() by {
            assert(s.layers[r].to_multiset() == st.layers[r].to_multiset());
        }
        assert forall|v: int| 0 <= v < st.nodes.len() implies #[trigger] t.nodes[v] == (LayoutNode { order: t.nodes[v].order, ..st.nodes[v] }) by {
            assert(s.nodes[v] == (LayoutNode { order: s.nodes[v].order, ..st.nodes[v] }));
        }
    }
}

proof fn lemma_transpose_spec_keeps(st: OrderState, up: Seq<Seq<NodeId>>, down: Seq<Seq<NodeId>>, passes: nat)
    requires
        layers_in_range(st.layers, st.nodes.len() as int),
    ensures
        same_but_order(st.nodes, transpose_spec(st, up, down, passes).nodes),
        same_layer_contents(st.layers, transpose_spec(st, up, down, passes).layers),
        layers_in_range(transpose_spec(st, up, down, passes).layers, st.nodes.len() as int),
    decreases passes,
{
    if passes > 0 {
        let ts = TState { nodes: st.nodes, layers: st.layers, improved: false };
        lemma_transpose_layers_keeps(ts, st.layers.len() as int, up, down);
        let t = transpose_layers(ts, st.layers.len() as int, up, down);
        let s = OrderState { nodes: t.nodes, layers: t.layers };
        if t.improved {
            lemma_transpose_spec_keeps(s, up, down, (passes - 1) as nat);
            let f = transpose_spec(s, up, down, (passes - 1) as nat);
            assert forall|r: int| 0 <= r < st.layers.len() implies (#[trigger] f.layers[r]).to_multiset() == st.layers[r].to_multiset() by {
                assert(s.layers[r].to_multiset() == st.layers[r].to_multiset());
            }
            assert forall|v: int| 0 <= v < st.nodes.len() implies #[trigger] f.nodes[v] == (LayoutNode { order: f.nodes[v].order, ..st.nodes[v] }) by {
                assert(s.nodes[v] == (LayoutNode { order: s.nodes[v].order, ..st.nodes[v] }));
            }
        }
    }
}

proof fn lemma_keeps_trans(a: OrderState, b: OrderState, c: OrderState)
    requires
        same_but_order(a.nodes, b.nodes),
        same_layer_contents(a.layers, b.layers),
        same_but_order(b.nodes, c.nodes),
        same_layer_contents(b.layers, c.layers),
    ensures
        same_but_order(a.nodes, c.nodes),
        same_layer_contents(a.layers, c.layers),
{
    assert forall|r: int| 0 <= r < a.layers.len() implies (#[trigger] c.layers[r]).to_multiset() == a.layers[r].to_multiset() by {
        assert(b.layers[r].to_multiset() == a.layers[r].to_multiset());
    }
    assert forall|v: int| 0 <= v < a.nodes.len() implies #[trigger] c.nodes[v] == (LayoutNode { order: c.nodes[v].order, ..a.nodes[v] }) by {
        assert(b.nodes[v] == (LayoutNode { order: b.nodes[v].order, ..a.nodes[v] }));
    }
}

proof fn lemma_down_sweep_keeps(st: OrderState, up: Seq<Seq<NodeId>>, k: int)
    requires
        k <= st.layers.len(),
        layers_in_range(st.layers, st.nodes.len() as int),
    ensures
        same_but_order(st.nodes, down_sweep(st, up, k).nodes),
        same_layer_contents(st.layers, down_sweep(st, up, k).layers),
        layers_in_range(down_sweep(st, up, k).layers, st.nodes.len() as int),
    decreases k,
{
    if k > 1 {
        lemma_down_sweep_keeps(st, up, k - 1);
        let s = down_sweep(st, up, k - 1);
        lemma_reorder_keeps(s, k - 1, up);
        lemma_keeps_trans(st, s, reorder_spec(s, k - 1, up));
    }
}

proof fn lemma_up_sweep_keeps(st: OrderState, down: Seq<Seq<NodeId>>, k: int, total: int)
    requires
        total == st.layers.len(),
        k <= total - 1,
        layers_in_range(st.layers, st.nodes.len() as int),
    ensures
        same_but_order(st.nodes, up_sweep(st, down, k, total).nodes),
        same_layer_contents(st.layers, up_sweep(st, down, k, total).layers),
        layers_in_range(up_sweep(st, down, k, total).layers, st.nodes.len() as int),
    decreases k,
{
    if k > 0 {
        lemma_up_sweep_keeps(st, down, k - 1, total);
        let s = up_sweep(st, down, k - 1, total);
        lemma_reorder_keeps(s, total - 1 - k, down);
        lemma_keeps_trans(st, s, reorder_spec(s, total - 1 - k, down));
    }
}

/// Every sweep only rearranges the nodes within their layers and changes
/// nothing of a node but its order.
pub proof fn lemma_ordering_rearranges_layers(st: OrderState, up: Seq<Seq<NodeId>>, down: Seq<Seq<NodeId>>, k: int)
    requires
        layers_in_range(st.layers, st.nodes.len() as int),
    ensures
        same_but_order(st.nodes, order_spec(st, up, down, k).nodes),
        same_layer_contents(st.layers, order_spec(st, up, down, k).layers),
        layers_in_range(order_spec(st, up, down, k).layers, st.nodes.len() as int),
    decreases k,
{
    if k > 0 {
        lemma_ordering_rearranges_layers(st, up, down, k - 1);
        let s = order_spec(st, up, down, k - 1);
        let total = s.layers.len() as int;
        let swept = if (k - 1) % 2 == 0 {
            down_sweep(s, up, total)
        } else {
            up_sweep(s, down, total - 1, total)
        };
        if (k - 1) % 2 == 0 {
            lemma_down_sweep_keeps(s, up, total);
        } else {
            lemma_up_sweep_keeps(s, down, total - 1, total);
        }
        lemma_keeps_trans(st, s, swept);
        lemma_transpose_spec_keeps(swept, up, down, MAX_TRANSPOSE_PASSES as nat);
        lemma_keeps_trans(st, swept, transpose_spec(swept, up, down, MAX_TRANSPOSE_PASSES as nat));
    }
}

/// No node is listed twice, in one layer or across layers.
pub open spec fn listed_once(layers: Seq<Seq<NodeId>>) -> bool {
    forall|r1: int, p1: int, r2: int, p2: int|
        0 <= r1 < layers.len() && 0 <= p1 < layers[r1].len() && 0 <= r2 < layers.len() && 0 <= p2 < layers[r2].len()
            && (r1 != r2 || p1 != p2) ==> #[trigger] layers[r1][p1] != #[trigger] layers[r2][p2]
}

/// Every listed node's order is its position in its layer.
pub open spec fn orders_match_positions(nodes: Seq<LayoutNode>, layers: Seq<Seq<NodeId>>) -> bool {
    forall|r: int, p: int|
        0 <= r < layers.len() && 0 <= p < layers[r].len() ==> nodes[#[trigger] layers[r][p] as int].order == Some(
            p as usize,
        )
}

/// The layers are listed once each, in range, and every listed node's
/// order is its position.
pub open spec fn orders_consistent(st: OrderState) -> bool {
    &&& layers_in_range(st.layers, st.nodes.len() as int)
    &&& listed_once(st.layers)
    &&& orders_match_positions(st.nodes, st.layers)
}

proof fn lemma_set_positions_at(nodes: Seq<LayoutNode>, ids: Seq<NodeId>, k: int)
    requires
        0 <= k <= ids.len(),
        ids.no_duplicates(),
        forall|q: int| 0 <= q < ids.len() ==> #[trigger] ids[q] < nodes.len(),
    ensures
        set_positions(nodes, ids, k).len() == nodes.len(),
        forall|q: int| 0 <= q < k ==> set_positions(nodes, ids, k)[#[trigger] ids[q] as int].order == Some(q as usize),
        forall|v: int| 0 <= v < nodes.len() && !ids.take(k).contains(v as usize) ==> #[trigger] set_positions(nodes, ids, k)[v]
            == nodes[v],
    decreases k,
{
    if k > 0 {
        lemma_set_positions_at(nodes, ids, k - 1);
        let prev = set_positions(nodes, ids, k - 1);
        let cur = set_positions(nodes, ids, k);
        let w = ids[k - 1] as int;
        assert forall|q: int| 0 <= q < k implies cur[#[trigger] ids[q] as int].order == Some(q as usize) by {
            if q < k - 1 {
                assert(ids[q] != ids[k - 1]);
            }
        }
        assert forall|v: int| 0 <= v < nodes.len() && !ids.take(k).contains(v as usize) implies #[trigger] cur[v] == nodes[v] by {
            assert(ids.take(k)[k - 1] == ids[k - 1]);
            assert(v != w);
            if ids.take(k - 1).contains(v as usize) {
                let j = choose|j: int| 0 <= j < k - 1 && #[trigger] ids.take(k - 1)[j] == v as usize;
                assert(ids.take(k)[j] == v as usize);
            }
        }
    }
}

proof fn lemma_multiset_same_members(a: Seq<NodeId>, b: Seq<NodeId>, x: NodeId)
    requires
        a.to_multiset() == b.to_multiset(),
    ensures
        a.contains(x) <==> b.contains(x),
{
    vstd::seq_lib::to_multiset_contains(a, x);
    vstd::seq_lib::to_multiset_contains(b, x);
}

proof fn lemma_reorder_consistent(st: OrderState, idx: int, nbrs: Seq<Seq<NodeId>>)
    requires
        0 <= idx < st.layers.len(),
        orders_consistent(st),
    ensures
        orders_consistent(reorder_spec(st, idx, nbrs)),
{
    let layer = st.layers[idx];
    let scored = scored_layer(st.nodes, layer, nbrs);
    let sorted = stable_sort(scored).map_values(|t: Scored| t.0);
    let r = reorder_spec(st, idx, nbrs);
    lemma_reorder_keeps(st, idx, nbrs);
    lemma_stable_sort_len(scored);
    lemma_stable_sort_ids(scored);
    assert(ids_of_scored(scored) =~= layer);
    assert(ids_of_scored(stable_sort(scored)) == sorted);
    assert(r.layers[idx] == sorted);
    assert(layer.no_duplicates()) by {
        assert forall|i: int, j: int| 0 <= i < layer.len() && 0 <= j < layer.len() && i != j implies layer[i] != layer[j] by {
            assert(st.layers[idx][i] != st.layers[idx][j]);
        }
    }
    layer.lemma_multiset_has_no_duplicates();
    assert forall|x: NodeId| sorted.to_multiset().contains(x) implies sorted.to_multiset().count(x) == 1 by {
        assert(layer.to_multiset().contains(x));
    }
    sorted.lemma_multiset_has_no_duplicates_conv();
    assert forall|q: int| 0 <= q < sorted.len() implies #[trigger] sorted[q] < st.nodes.len() by {
        assert(r.layers[idx][q] < st.nodes.len());
    }
    lemma_set_positions_at(st.nodes, sorted, sorted.len() as int);
    assert(sorted.take(sorted.len() as int) =~= sorted);
    assert forall|r1: int, p1: int, r2: int, p2: int|
        0 <= r1 < r.layers.len() && 0 <= p1 < r.layers[r1].len() && 0 <= r2 < r.layers.len() && 0 <= p2
            < r.layers[r2].len() && (r1 != r2 || p1 != p2) implies #[trigger] r.layers[r1][p1] != #[trigger] r.layers[r2][p2] by {
        if r1 == idx && r2 == idx {
        } else if r1 == idx {
            assert(r.layers[r2] == st.layers[r2]);
            if sorted[p1] == st.layers[r2][p2] {
                assert(sorted.contains(sorted[p1]));
                lemma_multiset_same_members(sorted, layer, sorted[p1]);
                let j = choose|j: int| 0 <= j < layer.len() && layer[j] == sorted[p1];
                assert(st.layers[idx][j] != st.layers[r2][p2]);
            }
        } else if r2 == idx {
            assert(r.layers[r1] == st.layers[r1]);
            if sorted[p2] == st.layers[r1][p1] {
                assert(sorted.contains(sorted[p2]));
                lemma_multiset_same_members(sorted, layer, sorted[p2]);
                let j = choose|j: int| 0 <= j < layer.len() && layer[j] == sorted[p2];
                assert(st.layers[idx][j] != st.layers[r1][p1]);
            }
        } else {
            assert(r.layers[r1] == st.layers[r1]);
            assert(r.layers[r2] == st.layers[r2]);
        }
    }
    assert forall|l: int, p: int| 0 <= l < r.layers.len() && 0 <= p < r.layers[l].len() implies r.nodes[#[trigger] r.layers[l][p] as int].order
        == Some(p as usize) by {
        if l == idx {
        } else {
            let v = st.layers[l][p];
            assert(r.layers[l] == st.layers[l]);
            if sorted.contains(v) {
                lemma_multiset_same_members(sorted, layer, v);
                let j = choose|j: int| 0 <= j < layer.len() && layer[j] == v;
                assert(st.layers[idx][j] != st.layers[l][p]);
            }
            assert(r.nodes[v as int] == st.nodes[v as int]);
        }
    }
}

pub(crate) proof fn lemma_swap_step_consistent(st: TState, l: int, i: int, up: Seq<Seq<NodeId>>, down: Seq<Seq<NodeId>>)
    requires
        0 <= l < st.layers.len(),
        0 <= i,
        i + 1 < st.layers[l].len(),
        orders_consistent(OrderState { nodes: st.nodes, layers: st.layers }),
    ensures
        orders_consistent(
            OrderState { nodes: swap_step(st, l, i, up, down).nodes, layers: swap_step(st, l, i, up, down).layers },
        ),
{
    let t = swap_step(st, l, i, up, down);
    lemma_swap_step_keeps(st, l, i, up, down);
    if t != st {
        let a = st.layers[l][i];
        let b = st.layers[l][i + 1];
        assert(a != b);
        assert(a < st.nodes.len() && b < st.nodes.len());
        let nl = st.layers[l].update(i, b).update(i + 1, a);
        assert(t.layers[l] == nl);
        assert forall|r1: int, p1: int, r2: int, p2: int|
            0 <= r1 < t.layers.len() && 0 <= p1 < t.layers[r1].len() && 0 <= r2 < t.layers.len() && 0 <= p2
                < t.layers[r2].len() && (r1 != r2 || p1 != p2) implies #[trigger] t.layers[r1][p1] != #[trigger] t.layers[r2][p2] by {
            let q1 = if r1 == l && p1 == i {
                i + 1
            } else if r1 == l && p1 == i + 1 {
                i
            } else {
                p1
            };
            let q2 = if r2 == l && p2 == i {
                i + 1
            } else if r2 == l && p2 == i + 1 {
                i
            } else {
                p2
            };
            assert(t.layers[r1][p1] == st.layers[r1][q1]);
            assert(t.layers[r2][p2] == st.layers[r2][q2]);
            assert(st.layers[r1][q1] != st.layers[r2][q2]);
        }
        assert forall|r: int, p: int| 0 <= r < t.layers.len() && 0 <= p < t.layers[r].len() implies t.nodes[#[trigger] t.layers[r][p] as int].order
            == Some(p as usize) by {
            if r == l && p == i {
                assert(t.layers[r][p] == b);
            } else if r == l && p == i + 1 {
                assert(t.layers[r][p] == a);
            } else {
                let v = st.layers[r][p];
                assert(t.layers[r][p] == v);
                assert(v != a && v != b);
            }
        }
    }
}

proof fn lemma_layer_sweep_consistent(st: TState, l: int, k: int, up: Seq<Seq<NodeId>>, down: Seq<Seq<NodeId>>)
    requires
        0 <= l < st.layers.len(),
        k <= st.layers[l].len() - 1,
        orders_consistent(OrderState { nodes: st.nodes, layers: st.layers }),
    ensures
        orders_consistent(
            OrderState { nodes: layer_sweep(st, l, k, up, down).nodes, layers: layer_sweep(st, l, k, up, down).layers },
        ),
    decreases k,
{
    if k > 0 {
        lemma_layer_sweep_consistent(st, l, k - 1, up, down);
        lemma_layer_sweep_keeps(st, l, k - 1, up, down);
        let s = layer_sweep(st, l, k - 1, up, down);
        lemma_swap_step_consistent(s, l, k - 1, up, down);
    }
}

proof fn lemma_transpose_layers_consistent(st: TState, k: int, up: Seq<Seq<NodeId>>, down: Seq<Seq<NodeId>>)
    requires
        k <= st.layers.len(),
        orders_consistent(OrderState { nodes: st.nodes, layers: st.layers }),
    ensures
        orders_consistent(
            OrderState { nodes: transpose_layers(st, k, up, down).nodes, layers: transpose_layers(st, k, up, down).layers },
        ),
    decreases k,
{
    if k > 0 {
        lemma_transpose_layers_consistent(st, k - 1, up, down);
        lemma_transpose_layers_keeps(st, k - 1, up, down);
        let s = transpose_layers(st, k - 1, up, down);
        lemma_layer_sweep_consistent(s, k - 1, s.layers[k - 1].len() - 1, up, down);
    }
}

proof fn lemma_transpose_spec_consistent(st: OrderState, up: Seq<Seq<NodeId>>, down: Seq<Seq<NodeId>>, passes: nat)
    requires
        orders_consistent(st),
    ensures
        orders_consistent(transpose_spec(st, up, down, passes)),
    decreases passes,
{
    if passes > 0 {
        let ts = TState { nodes: st.nodes, layers: st.layers, improved: false };
        lemma_transpose_layers_consistent(ts, st.layers.len() as int, up, down);
        let t = transpose_layers(ts, st.layers.len() as int, up, down);
        let s = OrderState { nodes: t.nodes, layers: t.layers };
        if t.improved {
            lemma_transpose_spec_consistent(s, up, down, (passes - 1) as nat);
        }
    }
}

proof fn lemma_down_sweep_consistent(st: OrderState, up: Seq<Seq<NodeId>>, k: int)
    requires
        k <= st.layers.len(),
        orders_consistent(st),
    ensures
        orders_consistent(down_sweep(st, up, k)),
    decreases k,
{
    if k > 1 {
        lemma_down_sweep_consistent(st, up, k - 1);
        lemma_down_sweep_keeps(st, up, k - 1);
        lemma_reorder_consistent(down_sweep(st, up, k - 1), k - 1, up);
    }
}

proof fn lemma_up_sweep_consistent(st: OrderState, down: Seq<Seq<NodeId>>, k: int, total: int)
    requires
        total == st.layers.len(),
        k <= total - 1,
        orders_consistent(st),
    ensures
        orders_consistent(up_sweep(st, down, k, total)),
    decreases k,
{
    if k > 0 {
        lemma_up_sweep_consistent(st, down, k - 1, total);
        lemma_up_sweep_keeps(st, down, k - 1, total);
        lemma_reorder_consistent(up_sweep(st, down, k - 1, total), total - 1 - k, down);
    }
}

/// Crossing reduction keeps every layered node's order equal to its
/// position in its layer, provided that held before and no node is listed
/// twice.
pub proof fn lemma_ordering_keeps_orders_consistent(st: OrderState, up: Seq<Seq<NodeId>>, down: Seq<Seq<NodeId>>, k: int)
    requires
        orders_consistent(st),
    ensures
        orders_consistent(order_spec(st, up, down, k)),
    decreases k,
{
    if k > 0 {
        lemma_ordering_keeps_orders_consistent(st, up, down, k - 1);
        lemma_ordering_rearranges_layers(st, up, down, k - 1);
        let s = order_spec(st, up, down, k - 1);
        let total = s.layers.len() as int;
        if (k - 1) % 2 == 0 {
            lemma_down_sweep_consistent(s, up, total);
            lemma_transpose_spec_consistent(down_sweep(s, up, total), up, down, MAX_TRANSPOSE_PASSES as nat);
        } else {
            lemma_up_sweep_consistent(s, down, total - 1, total);
            lemma_transpose_spec_consistent(up_sweep(s, down, total - 1, total), up, down, MAX_TRANSPOSE_PASSES as nat);
        }
    }
}

/// The first layer lists one id only, and no node has it. Crossing
/// reduction with one sweep, or with one layer, never reads that layer.
pub open spec fn lone_stray_first(layers: Seq<Seq<NodeId>>, n: int) -> bool {
    layers.len() >= 1 && layers[0].len() == 1 && layers[0][0] >= n
}

/// The layers with the first one emptied.
pub open spec fn without_first(layers: Seq<Seq<NodeId>>) -> Seq<Seq<NodeId>> {
    layers.update(0, Seq::<NodeId>::empty())
}

/// What `k` sweeps of crossing reduction leave: `order_spec`, where a lone
/// stray id in the first layer is set aside and put back afterwards.
pub open spec fn ordering_outcome(st: OrderState, up: Seq<Seq<NodeId>>, down: Seq<Seq<NodeId>>, k: int) -> OrderState {
    if lone_stray_first(st.layers, st.nodes.len() as int) {
        let r = order_spec(OrderState { nodes: st.nodes, layers: without_first(st.layers) }, up, down, k);
        OrderState { nodes: r.nodes, layers: r.layers.update(0, st.layers[0]) }
    } else {
        order_spec(st, up, down, k)
    }
}

/// Orders nodes within each layer to reduce edge crossings.
///
/// Runs `sweeps` barycenter sweeps, alternating downward (each layer from
/// the second on, reordered by its upper neighbors) and upward (each layer
/// but the last, from the bottom up, reordered by its lower neighbors),
/// each followed by the transpose cleanup. Neighbors are taken from the
/// edges that join adjacent ranks.
///
/// Every id in a layer that the sweeps read must be a node's. One sweep,
/// or a single layer, never reads a first layer of one entry; an unknown id
/// there is left in place.
///
/// # Errors
/// `LayoutError::DanglingEdge` for an edge that references a node id
/// outside `graph.nodes`, or `LayoutError::MissingRank` for an edge endpoint
/// without a rank (the first such edge); nothing is changed then.
pub fn order_layers(graph: &mut LayoutGraph, ranks: &mut RankSystem, sweeps: usize) -> (result: Result<(), LayoutError>)
    requires
        sweeps > 0 && first_problem(old(graph).nodes@, old(graph).edges@, old(graph).edges@.len() as int) is None
            ==> layers_in_range(old(ranks)@, old(graph).nodes@.len() as int) || (lone_stray_first(
            old(ranks)@,
            old(graph).nodes@.len() as int,
        ) && layers_in_range(without_first(old(ranks)@), old(graph).nodes@.len() as int) && (sweeps == 1
            || old(ranks)@.len() == 1)),
    ensures
        final(graph).edges@ == old(graph).edges@,
        match result {
            Err(e) => {
                &&& first_problem(old(graph).nodes@, old(graph).edges@, old(graph).edges@.len() as int) == Some(e)
                &&& final(graph).nodes@ == old(graph).nodes@
                &&& final(ranks)@ == old(ranks)@
            },
            Ok(()) => {
                &&& first_problem(old(graph).nodes@, old(graph).edges@, old(graph).edges@.len() as int) is None
                &&& (OrderState { nodes: final(graph).nodes@, layers: final(ranks)@ }) == ordering_outcome(
                    OrderState { nodes: old(graph).nodes@, layers: old(ranks)@ },
                    neighbor_lists(old(graph).nodes@, old(graph).edges@, old(graph).edges@.len() as int, false),
                    neighbor_lists(old(graph).nodes@, old(graph).edges@, old(graph).edges@.len() as int, true),
                    sweeps as int,
                )
                &&& same_but_order(old(graph).nodes@, final(graph).nodes@)
                &&& same_layer_contents(old(ranks)@, final(ranks)@)
                &&& layers_in_range(old(ranks)@, old(graph).nodes@.len() as int) ==> layers_in_range(
                    final(ranks)@,
                    old(graph).nodes@.len() as int,
                )
                &&& orders_consistent(OrderState { nodes: old(graph).nodes@, layers: old(ranks)@ })
                    ==> orders_consistent(OrderState { nodes: final(graph).nodes@, layers: final(ranks)@ })
            },
        },
{
    let (up_neighbors, down_neighbors) = match build_neighbors(graph) {
        Err(e) => {
            return Err(e);
        },
        Ok(lists) => lists,
    };
    let ghost nodes0 = graph.nodes@;
    let ghost edges0 = graph.edges@;
    let ghost n = nodes0.len() as int;
    let ghost up = lists_view(up_neighbors@);
    let ghost down = lists_view(down_neighbors@);
    let ghost given = OrderState { nodes: graph.nodes@, layers: ranks@ };
    // A lone stray id in the first layer is set aside while the sweeps run.
    let stray = ranks.layers.len() > 0 && ranks.layers[0].len() == 1 && ranks.layers[0][0] >= graph.nodes.len();
    let mut stray_id: NodeId = 0;
    if stray {
        stray_id = ranks.layers[0][0];
        ranks.layers.set(0, Vec::new());
    }
    let ghost st0 = OrderState { nodes: graph.nodes@, layers: ranks@ };
    proof {
        assert(stray == lone_stray_first(given.layers, n));
        if stray {
            assert(ranks@ =~= without_first(given.layers));
        } else {
            assert(ranks@ =~= given.layers);
        }
    }
    proof {
        lemma_neighbor_lists_in_range(nodes0, edges0, edges0.len() as int, false);
        lemma_neighbor_lists_in_range(nodes0, edges0, edges0.len() as int, true);
    }
    let layer_count = ranks.layers.len();
    for sweep in 0..sweeps
        invariant
            up == lists_view(up_neighbors@),
            down == lists_view(down_neighbors@),
            lists_in_range(up, n),
            lists_in_range(down, n),
            graph.nodes@.len() == n,
            graph.edges@ == edges0,
            ranks@.len() == layer_count,
            sweep > 0 ==> layers_in_range(ranks@, n),
            sweeps > 0 ==> layers_in_range(st0.layers, n),
            (OrderState { nodes: graph.nodes@, layers: ranks@ }) == order_spec(st0, up, down, sweep as int),
    {
        let ghost before = OrderState { nodes: graph.nodes@, layers: ranks@ };
        proof {
            if sweep == 0 {
                assert(before == st0);
            }
        }
        if sweep % 2 == 0 {
            let mut layer_idx: usize = 1;
            while layer_idx < layer_count
                invariant
                    up == lists_view(up_neighbors@),
                    lists_in_range(up, n),
                    graph.nodes@.len() == n,
                    graph.edges@ == edges0,
                    ranks@.len() == layer_count,
                    layers_in_range(ranks@, n),
                    1 <= layer_idx,
                    layer_idx <= layer_count || layer_idx == 1,
                    (OrderState { nodes: graph.nodes@, layers: ranks@ }) == down_sweep(before, up, layer_idx as int),
                decreases layer_count - layer_idx,
            {
                proof {
                    assert(ranks.layers@[layer_idx as int]@ == ranks@[layer_idx as int]);
                    assert forall|p: int| 0 <= p < ranks.layers@[layer_idx as int]@.len() implies #[trigger] ranks.layers@[layer_idx as int]@[p] < graph.nodes@.len() by {
                        assert(ranks@[layer_idx as int][p] < n);
                    }
                }
                reorder_layer_by_barycenter(graph, ranks, layer_idx, &up_neighbors);
                layer_idx = layer_idx + 1;
            }
            proof {
                if layer_count <= 1 {
                    assert(down_sweep(before, up, layer_count as int) == before);
                    assert(down_sweep(before, up, 1) == before);
                }
            }
        } else {
            let mut k: usize = 0;
            while k + 1 < layer_count
                invariant
                    down == lists_view(down_neighbors@),
                    lists_in_range(down, n),
                    graph.nodes@.len() == n,
                    graph.edges@ == edges0,
                    ranks@.len() == layer_count,
                    layers_in_range(ranks@, n),
                    k + 1 <= layer_count || k == 0,
                    (OrderState { nodes: graph.nodes@, layers: ranks@ }) == up_sweep(before, down, k as int, layer_count as int),
                decreases layer_count - k,
            {
                let layer_idx = layer_count - 2 - k;
                proof {
                    assert(ranks.layers@[layer_idx as int]@ == ranks@[layer_idx as int]);
                    assert forall|p: int| 0 <= p < ranks.layers@[layer_idx as int]@.len() implies #[trigger] ranks.layers@[layer_idx as int]@[p] < graph.nodes@.len() by {
                        assert(ranks@[layer_idx as int][p] < n);
                    }
                }
                reorder_layer_by_barycenter(graph, ranks, layer_idx, &down_neighbors);
                k = k + 1;
            }
            proof {
                assert(up_sweep(before, down, layer_count - 1, layer_count as int) == up_sweep(before, down, k as int, layer_count as int)) by {
                    if layer_count == 0 {
                        assert(up_sweep(before, down, -1, 0) == before);
                    }
                }
            }
        }
        transpose_pass(graph, ranks, &up_neighbors, &down_neighbors);
    }
    let ghost swept = OrderState { nodes: graph.nodes@, layers: ranks@ };
    proof {
        if sweeps > 0 {
            lemma_ordering_rearranges_layers(st0, up, down, sweeps as int);
            if orders_consistent(st0) {
                lemma_ordering_keeps_orders_consistent(st0, up, down, sweeps as int);
            }
        }
    }
    if stray {
        let mut first: Vec<NodeId> = Vec::new();
        first.push(stray_id);
        ranks.layers.set(0, first);
        proof {
            assert(first@ =~= given.layers[0]);
            assert(ranks@ =~= swept.layers.update(0, given.layers[0]));
            assert forall|l: int| 0 <= l < given.layers.len() implies (#[trigger] ranks@[l]).to_multiset()
                == given.layers[l].to_multiset() by {
                if l != 0 {
                    assert(st0.layers[l] == given.layers[l]);
                }
            }
        }
    }
    proof {
        if !stray {
            assert(st0 == given);
        }
    }
    Ok(())
}


/// The position of the first occurrence of `x` in `s`.
pub open spec fn first_pos(s: Seq<NodeId>, x: NodeId) -> int {
    choose|i: int| 0 <= i < s.len() && s[i] == x && forall|j: int| 0 <= j < i ==> #[trigger] s[j] != x
}

pub(crate) proof fn lemma_first_pos(s: Seq<NodeId>, x: NodeId, i: int)
    requires
        0 <= i < s.len(),
        s[i] == x,
        forall|j: int| 0 <= j < i ==> #[trigger] s[j] != x,
    ensures
        first_pos(s, x) == i,
{
    let k = first_pos(s, x);
    assert(0 <= k < s.len() && s[k] == x && forall|j: int| 0 <= j < k ==> #[trigger] s[j] != x);
    if k < i {
        assert(s[k] != x);
    } else if k > i {
        assert(s[i] != x);
    }
}

/// The position of the first occurrence of `x` in `s`, which holds it.
fn position_of(s: &Vec<NodeId>, x: NodeId) -> (p: usize)
    requires
        s@.contains(x),
    ensures
        p == first_pos(s@, x),
        p < s@.len(),
{
    let mut i: usize = 0;
    while i < s.len()
        invariant
            0 <= i <= s@.len(),
            s@.contains(x),
            forall|j: int| 0 <= j < i ==> #[trigger] s@[j] != x,
        decreases s@.len() - i,
    {
        if s[i] == x {
            proof {
                lemma_first_pos(s@, x, i as int);
            }
            return i;
        }
        i = i + 1;
    }
    proof {
        let j = choose|j: int| 0 <= j < s@.len() && s@[j] == x;
        assert(s@[j] != x);
    }
    0
}

/// The segments between layers `l` and `l + 1` drawn by the first `k`
/// edges whose source lies in rank `l`: for each, the position of its
/// source in `upper` and of its target in `lower`.
pub open spec fn layer_segments(
    nodes: Seq<LayoutNode>,
    edges: Seq<LayoutEdge>,
    upper: Seq<NodeId>,
    lower: Seq<NodeId>,
    l: int,
    k: int,
) -> Seq<(int, int)>
    decreases k,
{
    if k <= 0 {
        Seq::empty()
    } else {
        let prev = layer_segments(nodes, edges, upper, lower, l, k - 1);
        let e = edges[k - 1];
        if rank_val(nodes, e.from as int) == l {
            prev.push((first_pos(upper, e.from), first_pos(lower, e.to)))
        } else {
            prev
        }
    }
}

/// Two segments cross when their ends are in opposite orders.
pub open spec fn crosses(a: (int, int), b: (int, int)) -> bool {
    (a.0 < b.0 && a.1 > b.1) || (a.0 > b.0 && a.1 < b.1)
}

/// How many of the segments at positions `i + 1 .. j` cross segment `i`.
pub open spec fn crossings_with(segs: Seq<(int, int)>, i: int, j: int) -> int
    decreases j - i,
{
    if j <= i + 1 {
        0
    } else {
        crossings_with(segs, i, j - 1) + if crosses(segs[i], segs[j - 1]) { 1int } else { 0int }
    }
}

/// How many crossing pairs there are whose first segment is among the
/// first `i`.
pub open spec fn crossing_pairs(segs: Seq<(int, int)>, i: int) -> int
    decreases i,
{
    if i <= 0 {
        0
    } else {
        crossing_pairs(segs, i - 1) + crossings_with(segs, i - 1, segs.len() as int)
    }
}

/// The crossings between layers `l` and `l + 1`.
pub open spec fn layer_crossings(nodes: Seq<LayoutNode>, edges: Seq<LayoutEdge>, layers: Seq<Seq<NodeId>>, l: int) -> int {
    let segs = layer_segments(nodes, edges, layers[l], layers[l + 1], l, edges.len() as int);
    crossing_pairs(segs, segs.len() as int)
}

/// The crossings between the adjacent layer pairs starting at layers
/// `0 .. l`.
pub open spec fn total_crossings(nodes: Seq<LayoutNode>, edges: Seq<LayoutEdge>, layers: Seq<Seq<NodeId>>, l: int) -> int
    decreases l,
{
    if l <= 0 {
        0
    } else {
        total_crossings(nodes, edges, layers, l - 1) + layer_crossings(nodes, edges, layers, l - 1)
    }
}

/// The crossings of the whole layering.
pub open spec fn all_crossings(nodes: Seq<LayoutNode>, edges: Seq<LayoutEdge>, layers: Seq<Seq<NodeId>>) -> int {
    total_crossings(nodes, edges, layers, layers.len() - 1)
}

/// Counting can place every segment: when there are two layers or more,
/// every edge source is a node with a rank, and an edge whose source lies
/// in a rank with a layer below it has its source in that rank's layer and
/// its target in the next.
pub open spec fn crossings_countable(nodes: Seq<LayoutNode>, edges: Seq<LayoutEdge>, layers: Seq<Seq<NodeId>>) -> bool {
    layers.len() >= 2 ==> forall|k: int|
        0 <= k < edges.len() ==> {
            let e = #[trigger] edges[k];
            &&& e.from < nodes.len()
            &&& nodes[e.from as int].rank is Some
            &&& rank_val(nodes, e.from as int) < layers.len() - 1 ==> {
                &&& layers[rank_val(nodes, e.from as int)].contains(e.from)
                &&& layers[rank_val(nodes, e.from as int) + 1].contains(e.to)
            }
        }
}

proof fn lemma_crossings_with_mono(segs: Seq<(int, int)>, i: int, j: int, j2: int)
    requires
        j <= j2,
    ensures
        0 <= crossings_with(segs, i, j) <= crossings_with(segs, i, j2),
    decreases j2 - j,
{
    if j < j2 {
        lemma_crossings_with_mono(segs, i, j, j2 - 1);
    } else {
        lemma_crossings_with_nonneg(segs, i, j);
    }
}

proof fn lemma_crossings_with_nonneg(segs: Seq<(int, int)>, i: int, j: int)
    ensures
        0 <= crossings_with(segs, i, j),
    decreases j - i,
{
    if j > i + 1 {
        lemma_crossings_with_nonneg(segs, i, j - 1);
    }
}

proof fn lemma_crossing_pairs_mono(segs: Seq<(int, int)>, i: int, i2: int)
    requires
        i <= i2,
    ensures
        0 <= crossing_pairs(segs, i) <= crossing_pairs(segs, i2),
    decreases i2 - i,
{
    if i < i2 {
        lemma_crossing_pairs_mono(segs, i, i2 - 1);
        lemma_crossings_with_nonneg(segs, i2 - 1, segs.len() as int);
    } else {
        lemma_crossing_pairs_nonneg(segs, i);
    }
}

proof fn lemma_crossing_pairs_nonneg(segs: Seq<(int, int)>, i: int)
    ensures
        0 <= crossing_pairs(segs, i),
    decreases i,
{
    if i > 0 {
        lemma_crossing_pairs_nonneg(segs, i - 1);
        lemma_crossings_with_nonneg(segs, i - 1, segs.len() as int);
    }
}

proof fn lemma_total_crossings_mono(nodes: Seq<LayoutNode>, edges: Seq<LayoutEdge>, layers: Seq<Seq<NodeId>>, l: int, l2: int)
    requires
        l <= l2,
    ensures
        0 <= total_crossings(nodes, edges, layers, l) <= total_crossings(nodes, edges, layers, l2),
    decreases l2 - l,
{
    if l < l2 {
        lemma_total_crossings_mono(nodes, edges, layers, l, l2 - 1);
        let segs = layer_segments(nodes, edges, layers[l2 - 1], layers[l2], l2 - 1, edges.len() as int);
        lemma_crossing_pairs_nonneg(segs, segs.len() as int);
    } else {
        lemma_total_crossings_nonneg(nodes, edges, layers, l);
    }
}

pub(crate) proof fn lemma_total_crossings_nonneg(nodes: Seq<LayoutNode>, edges: Seq<LayoutEdge>, layers: Seq<Seq<NodeId>>, l: int)
    ensures
        0 <= total_crossings(nodes, edges, layers, l),
    decreases l,
{
    if l > 0 {
        lemma_total_crossings_nonneg(nodes, edges, layers, l - 1);
        let segs = layer_segments(nodes, edges, layers[l - 1], layers[l], l - 1, edges.len() as int);
        lemma_crossing_pairs_nonneg(segs, segs.len() as int);
    }
}

/// The segments as pairs of integers.
pub open spec fn segs_view(s: Seq<(usize, usize)>) -> Seq<(int, int)> {
    s.map_values(|t: (usize, usize)| (t.0 as int, t.1 as int))
}

/// Counts the edge crossings between all adjacent layer pairs: for each
/// pair, the segments drawn by the edges whose source lies in the upper
/// layer's rank, and among them the pairs whose ends are in opposite
/// orders.
#[verifier::spinoff_prover]
#[verifier::rlimit(40)]
pub fn count_total_crossings(graph: &LayoutGraph, ranks: &RankSystem) -> (total: usize)
    requires
        crossings_countable(graph.nodes@, graph.edges@, ranks@),
        all_crossings(graph.nodes@, graph.edges@, ranks@) <= usize::MAX,
    ensures
        total == all_crossings(graph.nodes@, graph.edges@, ranks@),
{
    let ghost nodes = graph.nodes@;
    let ghost edges = graph.edges@;
    let ghost layers = ranks@;
    let num_layers = ranks.layers.len();
    let limit = if num_layers > 0 { num_layers - 1 } else { 0 };
    let ghost bound = all_crossings(nodes, edges, layers);
    let mut total: usize = 0;
    proof {
        if num_layers == 0 {
            assert(bound == 0);
        }
    }
    for layer_idx in 0..limit
        invariant
            nodes == graph.nodes@,
            edges == graph.edges@,
            layers == ranks@,
            num_layers == layers.len(),
            limit == if num_layers > 0 { num_layers - 1 } else { 0 },
            crossings_countable(nodes, edges, layers),
            bound == all_crossings(nodes, edges, layers),
            bound <= usize::MAX,
            total == total_crossings(nodes, edges, layers, layer_idx as int),
    {
        let upper = &ranks.layers[layer_idx];
        let lower = &ranks.layers[layer_idx + 1];
        proof {
            assert(upper@ == layers[layer_idx as int]);
            assert(lower@ == layers[layer_idx + 1]);
        }
        let mut segments: Vec<(usize, usize)> = Vec::new();
        let num_edges = graph.edges.len();
        for k in 0..num_edges
            invariant
                nodes == graph.nodes@,
                edges == graph.edges@,
                layers == ranks@,
                num_edges == edges.len(),
                num_layers == layers.len(),
                layer_idx + 1 < num_layers,
                upper@ == layers[layer_idx as int],
                lower@ == layers[layer_idx + 1],
                crossings_countable(nodes, edges, layers),
                segs_view(segments@) == layer_segments(nodes, edges, upper@, lower@, layer_idx as int, k as int),
        {
            let edge = graph.edges[k];
            proof {
                assert(edges[k as int] == edge);
            }
            let from_rank = graph.nodes[edge.from].rank.unwrap();
            if from_rank == layer_idx {
                let u_pos = position_of(upper, edge.from);
                let l_pos = position_of(lower, edge.to);
                segments.push((u_pos, l_pos));
                proof {
                    assert(segs_view(segments@) =~= layer_segments(nodes, edges, upper@, lower@, layer_idx as int, k as int).push(
                        (first_pos(upper@, edge.from), first_pos(lower@, edge.to)),
                    ));
                }
            }
        }
        let ghost segs = segs_view(segments@);
        let ghost base = total as int;
        proof {
            lemma_total_crossings_mono(nodes, edges, layers, layer_idx + 1, layers.len() - 1);
            assert(total_crossings(nodes, edges, layers, layer_idx + 1) == base + crossing_pairs(segs, segs.len() as int));
        }
        let seg_len = segments.len();
        for i in 0..seg_len
            invariant
                seg_len == segments@.len(),
                segs == segs_view(segments@),
                base + crossing_pairs(segs, seg_len as int) <= usize::MAX,
                total == base + crossing_pairs(segs, i as int),
        {
            proof {
                lemma_crossing_pairs_mono(segs, i + 1, seg_len as int);
            }
            for j in (i + 1)..seg_len
                invariant
                    seg_len == segments@.len(),
                    segs == segs_view(segments@),
                    i < seg_len,
                    base + crossing_pairs(segs, i + 1) <= usize::MAX,
                    crossing_pairs(segs, i + 1) == crossing_pairs(segs, i as int) + crossings_with(segs, i as int, seg_len as int),
                    total == base + crossing_pairs(segs, i as int) + crossings_with(segs, i as int, j as int),
            {
                let (u1, l1) = segments[i];
                let (u2, l2) = segments[j];
                proof {
                    assert(segs[i as int] == (u1 as int, l1 as int));
                    assert(segs[j as int] == (u2 as int, l2 as int));
                    lemma_crossings_with_mono(segs, i as int, j + 1, seg_len as int);
                }
                if (u1 < u2 && l1 > l2) || (u1 > u2 && l1 < l2) {
                    total = total + 1;
                }
            }
        }
    }
    total
}

} // verus!
