//! The logic behind the batched foreign-language entry point: a graph keyed
//! by the caller's own `u64` node ids is checked, translated to dense ids
//! and taken through every combinatorial phase in one call; and each routed
//! edge's waypoints are split into drawing primitives.
//!
//! As elsewhere in this crate, sizes are carried as `f32` bit patterns.
use vstd::prelude::*;
use std::collections::HashMap;
use crate::types::{
    LayoutGraph, LayoutNode, LayoutEdge, LayoutError, NodeType, RankSystem, EdgeChain, ChainModel, NodeId,
    CoordAlgorithm, RoutingStyle, LayoutDirection, is_self_loop, is_not_self_loop, layers_view,
};
use crate::validate::{well_formed, dense_ids};
use crate::cycles::{break_cycles, lemma_cycle_breaking_leaves_graph_acyclic, cycle_breaking};
use crate::ranks::{
    assign_ranks, ranked, lemma_ranking_points_edges_down, lemma_ranking_orders_consistent, lemma_ranking_layers_match_ranks,
    lemma_ranking_is_determined,
};
use crate::dummy_nodes::{
    insert_dummy_nodes, dummy_fold, DummyState, single_rank_edges, chain_models, rank_at, reseeded, lemma_fold_shape, lemma_dummy_insertion_yields_single_rank_edges,
    lemma_dummy_insertion_keeps_orders_consistent, lemma_dummy_insertion_keeps_layers_matching_ranks,
};
use crate::crossings::{
    order_layers, first_problem, edge_problem, layers_in_range, orders_consistent, OrderState, order_spec, neighbor_lists,
};
use crate::messages::{decimal, decimal_spec, layout_error_message};
use crate::crossing_laws::{counted_layering, lemma_rearranging_keeps_layers_matching_ranks};

verus! {

broadcast use vstd::std_specs::hash::group_hash_axioms;

/// Mirrors [`CoordAlgorithm`] across the foreign-language boundary.
#[derive(Debug, Clone, Copy, PartialEq, Eq, Structural)]
pub enum FfiAlgorithm {
    /// Weighted median relaxation with compaction.
    MedianRelax,
    /// Brandes-Köpf-inspired alignment averaging.
    BrandesKopf,
}

impl From<FfiAlgorithm> for CoordAlgorithm {
    fn from(a: FfiAlgorithm) -> (r: Self) {
        match a {
            FfiAlgorithm::MedianRelax => CoordAlgorithm::MedianRelax,
            FfiAlgorithm::BrandesKopf => CoordAlgorithm::BrandesKopf,
        }
    }
}

impl vstd::std_specs::convert::FromSpecImpl<FfiAlgorithm> for CoordAlgorithm {
    open spec fn obeys_from_spec() -> bool {
        true
    }

    open spec fn from_spec(a: FfiAlgorithm) -> CoordAlgorithm {
        match a {
            FfiAlgorithm::MedianRelax => CoordAlgorithm::MedianRelax,
            FfiAlgorithm::BrandesKopf => CoordAlgorithm::BrandesKopf,
        }
    }
}

/// Mirrors [`RoutingStyle`] across the foreign-language boundary.
#[derive(Debug, Clone, Copy, PartialEq, Eq, Structural)]
pub enum FfiRoutingStyle {
    /// Straight line, 2 points only.
    Straight,
    /// Right-angle polyline through dummy midpoints.
    Orthogonal,
    /// Smooth cubic bezier through dummy waypoints.
    Bezier,
}

impl From<FfiRoutingStyle> for RoutingStyle {
    fn from(s: FfiRoutingStyle) -> (r: Self) {
        match s {
            FfiRoutingStyle::Straight => RoutingStyle::Straight,
            FfiRoutingStyle::Orthogonal => RoutingStyle::Orthogonal,
            FfiRoutingStyle::Bezier => RoutingStyle::Bezier,
        }
    }
}

impl vstd::std_specs::convert::FromSpecImpl<FfiRoutingStyle> for RoutingStyle {
    open spec fn obeys_from_spec() -> bool {
        true
    }

    open spec fn from_spec(s: FfiRoutingStyle) -> RoutingStyle {
        match s {
            FfiRoutingStyle::Straight => RoutingStyle::Straight,
            FfiRoutingStyle::Orthogonal => RoutingStyle::Orthogonal,
            FfiRoutingStyle::Bezier => RoutingStyle::Bezier,
        }
    }
}

/// Mirrors [`LayoutDirection`] across the foreign-language boundary.
#[derive(Debug, Clone, Copy, PartialEq, Eq, Structural)]
pub enum FfiDirection {
    /// Rank 0 at the top, increasing ranks flow downward.
    TopToBottom,
    /// Rank 0 at the left, increasing ranks flow rightward.
    LeftToRight,
}

impl From<FfiDirection> for LayoutDirection {
    fn from(d: FfiDirection) -> (r: Self) {
        match d {
            FfiDirection::TopToBottom => LayoutDirection::TopToBottom,
            FfiDirection::LeftToRight => LayoutDirection::LeftToRight,
        }
    }
}

impl vstd::std_specs::convert::FromSpecImpl<FfiDirection> for LayoutDirection {
    open spec fn obeys_from_spec() -> bool {
        true
    }

    open spec fn from_spec(d: FfiDirection) -> LayoutDirection {
        match d {
            FfiDirection::TopToBottom => LayoutDirection::TopToBottom,
            FfiDirection::LeftToRight => LayoutDirection::LeftToRight,
        }
    }
}

/// A node keyed by the caller's own id (not necessarily dense or
/// zero-based).
#[derive(Debug, Clone, Copy)]
pub struct FfiNode {
    /// The caller's own id for this node.
    pub id: u64,
    /// Visual width (bit pattern of an `f32`).
    pub width: u32,
    /// Visual height (bit pattern of an `f32`).
    pub height: u32,
}

/// An edge referencing nodes by the caller's own ids.
#[derive(Debug, Clone, Copy)]
pub struct FfiEdge {
    /// Source node's caller-assigned id.
    pub from: u64,
    /// Target node's caller-assigned id.
    pub to: u64,
    /// Optional label width (bit pattern of an `f32`).
    pub label_width: Option<u32>,
    /// Optional label height (bit pattern of an `f32`).
    pub label_height: Option<u32>,
}

/// Everything that can go wrong in a batched layout call.
#[derive(Debug, Clone)]
pub enum FfiLayoutError {
    /// The input graph itself was invalid: a duplicate or unknown node id,
    /// or a problem a phase reported.
    InvalidGraph(String),
    /// The layout engine failed internally: a bug, not bad input.
    Internal(String),
}

impl FfiLayoutError {
    /// The error's message.
    pub fn to_string(&self) -> (s: String)
        ensures
            s@ == match self {
                FfiLayoutError::InvalidGraph(m) => "invalid graph: "@ + m@,
                FfiLayoutError::Internal(m) => "internal layout engine error: "@ + m@,
            },
    {
        match self {
            FfiLayoutError::InvalidGraph(m) => {
                let mut s = String::from_str("invalid graph: ");
                s.append(m.as_str());
                s
            },
            FfiLayoutError::Internal(m) => {
                let mut s = String::from_str("internal layout engine error: ");
                s.append(m.as_str());
                s
            },
        }
    }

    /// The error reporting a phase's [`LayoutError`]: an invalid graph,
    /// described by the phase error's message.
    pub fn from_layout_error(e: LayoutError) -> (r: Self)
        ensures
            r matches FfiLayoutError::InvalidGraph(m) && m@ == layout_error_message(e),
    {
        FfiLayoutError::InvalidGraph(e.to_string())
    }
}

/// The caller ids of the nodes, in order.
pub open spec fn ids_of(nodes: Seq<FfiNode>) -> Seq<u64> {
    nodes.map_values(|n: FfiNode| n.id)
}

/// The first id among the first `k` that repeats an earlier one.
pub open spec fn first_duplicate(ids: Seq<u64>, k: int) -> Option<u64>
    decreases k,
{
    if k <= 0 {
        None
    } else {
        match first_duplicate(ids, k - 1) {
            Some(x) => Some(x),
            None => if ids.take(k - 1).contains(ids[k - 1]) {
                Some(ids[k - 1])
            } else {
                None
            },
        }
    }
}

/// The first endpoint of the first `k` edges (source before target) that
/// is no node's id.
pub open spec fn first_unknown(ids: Seq<u64>, edges: Seq<FfiEdge>, k: int) -> Option<u64>
    decreases k,
{
    if k <= 0 {
        None
    } else {
        match first_unknown(ids, edges, k - 1) {
            Some(x) => Some(x),
            None => if !ids.contains(edges[k - 1].from) {
                Some(edges[k - 1].from)
            } else if !ids.contains(edges[k - 1].to) {
                Some(edges[k - 1].to)
            } else {
                None
            },
        }
    }
}

/// What is wrong with the input, if anything: the first duplicate node id,
/// else the first unknown edge endpoint.
pub open spec fn input_problem(nodes: Seq<FfiNode>, edges: Seq<FfiEdge>) -> Option<Seq<char>> {
    let ids = ids_of(nodes);
    match first_duplicate(ids, ids.len() as int) {
        Some(x) => Some("duplicate node id "@ + decimal_spec(x as nat)),
        None => match first_unknown(ids, edges, edges.len() as int) {
            Some(x) => Some("edge references unknown node id "@ + decimal_spec(x as nat)),
            None => None,
        },
    }
}

/// The dense id of the node with caller id `x`.
pub open spec fn id_index(ids: Seq<u64>, x: u64) -> int {
    choose|i: int| 0 <= i < ids.len() && ids[i] == x
}

/// The node built for the `i`-th input node.
pub open spec fn built_node(n: FfiNode, i: int) -> LayoutNode {
    LayoutNode {
        id: i as usize,
        node_type: NodeType::Normal,
        width: n.width,
        height: n.height,
        x: 0,
        y: 0,
        rank: None,
        order: None,
    }
}

/// An edge's label size: both dimensions, when both are given.
pub open spec fn label_of(e: FfiEdge) -> Option<(u32, u32)> {
    match (e.label_width, e.label_height) {
        (Some(w), Some(h)) => Some((w, h)),
        _ => None,
    }
}

/// The edge built for an input edge.
pub open spec fn built_edge(ids: Seq<u64>, e: FfiEdge) -> LayoutEdge {
    LayoutEdge {
        from: id_index(ids, e.from) as usize,
        to: id_index(ids, e.to) as usize,
        reversed: false,
        label_size: label_of(e),
    }
}

/// The graph built from the input, with dense ids.
pub open spec fn built_graph_nodes(nodes: Seq<FfiNode>) -> Seq<LayoutNode> {
    Seq::new(nodes.len(), |i: int| built_node(nodes[i], i))
}

/// The edges built from the input.
pub open spec fn built_graph_edges(ids: Seq<u64>, edges: Seq<FfiEdge>) -> Seq<LayoutEdge> {
    edges.map_values(|e: FfiEdge| built_edge(ids, e))
}

/// A self-loop as reported back to the caller: its endpoint's caller id and
/// its label dimensions, both or neither.
pub open spec fn reported_loop(e: FfiEdge) -> FfiEdge {
    FfiEdge {
        from: e.from,
        to: e.to,
        label_width: match label_of(e) {
            Some(wh) => Some(wh.0),
            None => None,
        },
        label_height: match label_of(e) {
            Some(wh) => Some(wh.1),
            None => None,
        },
    }
}

/// The self-loops of the input, as reported back, in input order.
pub open spec fn reported_loops(edges: Seq<FfiEdge>) -> Seq<FfiEdge> {
    edges.filter(|e: FfiEdge| e.from == e.to).map_values(|e: FfiEdge| reported_loop(e))
}

/// The chain that routes a self-loop edge.
pub open spec fn loop_chain(e: LayoutEdge) -> ChainModel {
    ChainModel {
        source: e.from,
        target: e.to,
        reversed: false,
        is_self_loop: true,
        label_size: e.label_size,
        chain: seq![e.from],
    }
}

/// The chains routing the input's self-loops, in input order.
pub open spec fn loop_chains(ids: Seq<u64>, edges: Seq<FfiEdge>) -> Seq<ChainModel> {
    edges.filter(|e: FfiEdge| e.from == e.to).map_values(|e: FfiEdge| loop_chain(built_edge(ids, e)))
}

/// What the combinatorial phases leave for coordinate assignment and edge
/// routing.
pub struct PipelineState {
    /// The graph with dense ids, its self-loops taken out, cycles broken,
    /// ranks assigned, dummies inserted and layers ordered.
    pub graph: LayoutGraph,
    /// The ordered layers.
    pub ranks: RankSystem,
    /// One chain per edge to route, the self-loops' chains last.
    pub chains: Vec<EdgeChain>,
    /// The caller id of each original node, by dense id.
    pub external_ids: Vec<u64>,
    /// The self-loops taken out, as given by the caller.
    pub self_loops: Vec<FfiEdge>,
}


proof fn lemma_filter_map_commute<A, B>(s: Seq<A>, f: spec_fn(A) -> B, p: spec_fn(A) -> bool, q: spec_fn(B) -> bool)
    requires
        forall|i: int| 0 <= i < s.len() ==> p(#[trigger] s[i]) == q(f(s[i])),
    ensures
        s.map_values(f).filter(q) == s.filter(p).map_values(f),
    decreases s.len(),
{
    if s.len() > 0 {
        let init = s.drop_last();
        assert forall|i: int| 0 <= i < init.len() implies p(#[trigger] init[i]) == q(f(init[i])) by {
            assert(init[i] == s[i]);
        }
        lemma_filter_map_commute(init, f, p, q);
        assert(s == init.push(s.last()));
        assert(s.map_values(f) =~= init.map_values(f).push(f(s.last())));
        init.map_values(f).lemma_filter_push(f(s.last()), q);
        init.lemma_filter_push(s.last(), p);
        assert(p(s[s.len() - 1]) == q(f(s[s.len() - 1])));
        if p(s.last()) {
            assert(init.filter(p).push(s.last()).map_values(f) =~= init.filter(p).map_values(f).push(f(s.last())));
        }
    } else {
        assert(s.map_values(f).filter(q) =~= Seq::<B>::empty());
        assert(s.filter(p).map_values(f) =~= Seq::<B>::empty());
    }
}

proof fn lemma_filter_split<A>(s: Seq<A>, p: spec_fn(A) -> bool, q: spec_fn(A) -> bool)
    requires
        forall|x: A| #[trigger] q(x) == !p(x),
    ensures
        s.filter(p).len() + s.filter(q).len() == s.len(),
    decreases s.len(),
{
    if s.len() > 0 {
        let init = s.drop_last();
        lemma_filter_split(init, p, q);
        assert(s == init.push(s.last()));
        init.lemma_filter_push(s.last(), p);
        init.lemma_filter_push(s.last(), q);
    } else {
        assert(s.filter(p) =~= Seq::<A>::empty());
        assert(s.filter(q) =~= Seq::<A>::empty());
    }
}

/// No edge of a graph whose edges all join ranked nodes is faulty.
proof fn lemma_no_faulty_edge(nodes: Seq<LayoutNode>, edges: Seq<LayoutEdge>, k: int)
    requires
        0 <= k <= edges.len(),
        single_rank_edges(nodes, edges),
    ensures
        first_problem(nodes, edges, k) is None,
    decreases k,
{
    if k > 0 {
        lemma_no_faulty_edge(nodes, edges, k - 1);
        assert(edge_problem(nodes, edges[k - 1]) is None);
    }
}

/// The message of an invalid input.
fn invalid_input(prefix: &str, x: u64) -> (e: FfiLayoutError)
    ensures
        e matches FfiLayoutError::InvalidGraph(m) && m@ == prefix@ + decimal_spec(x as nat),
{
    let mut s = String::from_str(prefix);
    let d = decimal(x);
    s.append(d.as_str());
    FfiLayoutError::InvalidGraph(s)
}

/// Checks the caller's node ids and translates the graph to dense ids:
/// node `i` gets id `i`, and each edge refers to its endpoints' dense ids.
///
/// # Errors
/// `FfiLayoutError::InvalidGraph` for the first node id that repeats an
/// earlier one, else for the first edge endpoint that is no node's id.
fn translate_graph(nodes: &Vec<FfiNode>, edges: &Vec<FfiEdge>) -> (result: Result<(LayoutGraph, Vec<u64>), FfiLayoutError>)
    ensures
        match result {
            Err(e) => input_problem(nodes@, edges@) matches Some(msg) && e matches FfiLayoutError::InvalidGraph(m)
                && m@ == msg,
            Ok((graph, external_ids)) => {
                &&& input_problem(nodes@, edges@) is None
                &&& external_ids@ == ids_of(nodes@)
                &&& graph.nodes@ == built_graph_nodes(nodes@)
                &&& graph.edges@ == built_graph_edges(ids_of(nodes@), edges@)
                &&& forall|a: int, b: int| 0 <= a < b < nodes@.len() ==> ids_of(nodes@)[a] != ids_of(nodes@)[b]
                &&& forall|k: int|
                    0 <= k < edges@.len() ==> ids_of(nodes@).contains((#[trigger] edges@[k]).from) && ids_of(
                        nodes@,
                    ).contains(edges@[k].to)
            },
        },
{
    let ghost ids = ids_of(nodes@);
    let n = nodes.len();
    let mut id_map: HashMap<u64, NodeId> = HashMap::with_capacity(n);
    let mut external_ids: Vec<u64> = Vec::with_capacity(n);
    let mut graph = LayoutGraph::default();
    for i in 0..n
        invariant
            n == nodes@.len(),
            ids == ids_of(nodes@),
            graph.nodes@ == built_graph_nodes(nodes@.take(i as int)),
            graph.edges@.len() == 0,
            external_ids@ == ids.take(i as int),
            first_duplicate(ids, i as int) is None,
            forall|a: int, b: int| 0 <= a < b < i ==> ids[a] != ids[b],
            forall|x: u64| #[trigger] id_map@.contains_key(x) <==> ids.take(i as int).contains(x),
            forall|j: int| 0 <= j < i ==> id_map@[#[trigger] ids[j]] == j,
    {
        let node = nodes[i];
        assert(ids[i as int] == node.id);
        if id_map.contains_key(&node.id) {
            proof {
                assert(first_duplicate(ids, i + 1) == Some(node.id));
                assert forall|k: int| i + 1 <= k <= ids.len() implies first_duplicate(ids, k) == Some(node.id) by {
                    lemma_first_duplicate_absorbs(ids, i + 1, k);
                }
            }
            return Err(invalid_input("duplicate node id ", node.id));
        }
        let internal = graph.add_node(
            LayoutNode {
                id: 0,
                node_type: NodeType::Normal,
                width: node.width,
                height: node.height,
                x: 0,
                y: 0,
                rank: None,
                order: None,
            },
        );
        id_map.insert(node.id, internal);
        external_ids.push(node.id);
        proof {
            assert(ids.take(i + 1) =~= ids.take(i as int).push(node.id));
            assert(built_graph_nodes(nodes@.take(i + 1)) =~= built_graph_nodes(nodes@.take(i as int)).push(
                built_node(node, i as int),
            ));
            assert forall|x: u64| #[trigger] id_map@.contains_key(x) <==> ids.take(i + 1).contains(x) by {
                if ids.take(i + 1).contains(x) {
                    let j = choose|j: int| 0 <= j < i + 1 && #[trigger] ids.take(i + 1)[j] == x;
                    if j < i {
                        assert(ids.take(i as int)[j] == x);
                    }
                }
                if ids.take(i as int).contains(x) {
                    let j = choose|j: int| 0 <= j < i && #[trigger] ids.take(i as int)[j] == x;
                    assert(ids.take(i + 1)[j] == x);
                }
                assert(ids.take(i + 1)[i as int] == node.id);
            }
            assert forall|a: int, b: int| 0 <= a < b < i + 1 implies ids[a] != ids[b] by {
                if b == i {
                    assert(ids.take(i as int)[a] == ids[a]);
                }
            }
            assert forall|j: int| 0 <= j < i + 1 implies id_map@[#[trigger] ids[j]] == j by {
                if j < i {
                    assert(ids[j] != ids[i as int]);
                }
            }
        }
    }
    proof {
        assert(ids.take(n as int) =~= ids);
        assert(nodes@.take(n as int) =~= nodes@);
    }
    let m = edges.len();
    for k in 0..m
        invariant
            n == nodes@.len(),
            m == edges@.len(),
            ids == ids_of(nodes@),
            ids.len() == n,
            graph.nodes@ == built_graph_nodes(nodes@),
            graph.edges@ == built_graph_edges(ids, edges@.take(k as int)),
            external_ids@ == ids,
            first_duplicate(ids, n as int) is None,
            first_unknown(ids, edges@, k as int) is None,
            forall|a: int, b: int| 0 <= a < b < n ==> ids[a] != ids[b],
            forall|x: u64| #[trigger] id_map@.contains_key(x) <==> ids.contains(x),
            forall|j: int| 0 <= j < n ==> id_map@[#[trigger] ids[j]] == j,
    {
        let e = edges[k];
        let from = match id_map.get(&e.from) {
            Some(v) => *v,
            None => {
                proof {
                    assert(first_unknown(ids, edges@, k + 1) == Some(e.from));
                    assert forall|j: int| k + 1 <= j <= edges@.len() implies first_unknown(ids, edges@, j) == Some(e.from) by {
                        lemma_first_unknown_absorbs(ids, edges@, k + 1, j);
                    }
                }
                return Err(invalid_input("edge references unknown node id ", e.from));
            },
        };
        let to = match id_map.get(&e.to) {
            Some(v) => *v,
            None => {
                proof {
                    assert(first_unknown(ids, edges@, k + 1) == Some(e.to));
                    assert forall|j: int| k + 1 <= j <= edges@.len() implies first_unknown(ids, edges@, j) == Some(e.to) by {
                        lemma_first_unknown_absorbs(ids, edges@, k + 1, j);
                    }
                }
                return Err(invalid_input("edge references unknown node id ", e.to));
            },
        };
        let label_size = match (e.label_width, e.label_height) {
            (Some(w), Some(h)) => Some((w, h)),
            _ => None,
        };
        graph.edges.push(LayoutEdge { from, to, reversed: false, label_size });
        proof {
            lemma_id_index(ids, e.from, from as int);
            lemma_id_index(ids, e.to, to as int);
            assert(graph.edges@ =~= built_graph_edges(ids, edges@.take(k + 1))) by {
                assert(edges@.take(k + 1) =~= edges@.take(k as int).push(e));
            }
        }
    }
    proof {
        assert(edges@.take(m as int) =~= edges@);
        assert(input_problem(nodes@, edges@) is None);
        lemma_no_unknown(ids, edges@, m as int);
    }
    Ok((graph, external_ids))
}

/// The result of rank assignment on a graph (there is exactly one: see
/// `lemma_ranking_is_determined`).
pub open spec fn ranking(nodes: Seq<LayoutNode>, edges: Seq<LayoutEdge>) -> (Seq<LayoutNode>, Seq<Vec<NodeId>>) {
    choose|r: (Seq<LayoutNode>, Seq<Vec<NodeId>>)| ranked(nodes, edges, r.0, r.1)
}

/// What the combinatorial phases leave.
pub struct PhasesOutcome {
    pub nodes: Seq<LayoutNode>,
    pub edges: Seq<LayoutEdge>,
    pub layers: Seq<Seq<NodeId>>,
    pub chains: Seq<ChainModel>,
}

/// The phases on a graph: cycle breaking, rank assignment, dummy insertion
/// (after which every listed node's order is its position), then `sweeps`
/// ordering sweeps with the neighbor lists of the resulting edges.
pub open spec fn phases_outcome(nodes: Seq<LayoutNode>, edges: Seq<LayoutEdge>, sweeps: int) -> PhasesOutcome {
    let broken = cycle_breaking(edges, nodes.len() as int).edges;
    let r = ranking(nodes, broken);
    let fin = dummy_fold(
        DummyState { nodes: r.0, layers: layers_view(r.1), chains: Seq::empty(), edges: Seq::empty(), error: None },
        broken,
    );
    let seeded = reseeded(fin.nodes, fin.layers);
    let ordered = order_spec(
        OrderState { nodes: seeded, layers: fin.layers },
        neighbor_lists(seeded, fin.edges, fin.edges.len() as int, false),
        neighbor_lists(seeded, fin.edges, fin.edges.len() as int, true),
        sweeps,
    );
    PhasesOutcome { nodes: ordered.nodes, edges: fin.edges, layers: ordered.layers, chains: fin.chains }
}

/// Breaks cycles, assigns ranks, inserts dummy nodes and orders the layers
/// with `sweeps` sweeps. On a graph with dense ids, no dangling edge and no
/// self-loop none of these phases fails. Afterwards the original nodes keep
/// everything but their rank and order, the nodes after them are dummies,
/// every edge joins adjacent ranks going down, the layers list only
/// existing nodes, and there is one chain per original edge.
pub fn run_phases(graph: &mut LayoutGraph, sweeps: usize) -> (result: Result<(RankSystem, Vec<EdgeChain>), LayoutError>)
    requires
        well_formed(old(graph).nodes@, old(graph).edges@),
    ensures
        result matches Ok(out) && {
            let (ranks, chains) = out;
            &&& chains@.len() == old(graph).edges@.len()
            &&& final(graph).nodes@.len() >= old(graph).nodes@.len()
            &&& forall|v: int|
                0 <= v < old(graph).nodes@.len() ==> #[trigger] final(graph).nodes@[v] == (LayoutNode {
                    rank: final(graph).nodes@[v].rank,
                    order: final(graph).nodes@[v].order,
                    ..old(graph).nodes@[v]
                })
            &&& forall|v: int|
                old(graph).nodes@.len() <= v < final(graph).nodes@.len() ==> (#[trigger] final(graph).nodes@[v]).node_type
                    == NodeType::Dummy
            &&& single_rank_edges(final(graph).nodes@, final(graph).edges@)
            &&& layers_in_range(ranks@, final(graph).nodes@.len() as int)
            &&& orders_consistent(OrderState { nodes: final(graph).nodes@, layers: ranks@ })
            &&& counted_layering(final(graph).nodes@, final(graph).edges@, ranks@)
            &&& final(graph).nodes@ == phases_outcome(old(graph).nodes@, old(graph).edges@, sweeps as int).nodes
            &&& final(graph).edges@ == phases_outcome(old(graph).nodes@, old(graph).edges@, sweeps as int).edges
            &&& ranks@ == phases_outcome(old(graph).nodes@, old(graph).edges@, sweeps as int).layers
            &&& chain_models(chains@) == phases_outcome(old(graph).nodes@, old(graph).edges@, sweeps as int).chains
        },
{
    let ghost nodes0 = graph.nodes@;
    let ghost edges0 = graph.edges@;
    let reversed = break_cycles(graph);
    proof {
        lemma_cycle_breaking_leaves_graph_acyclic(nodes0, edges0, graph.edges@, reversed@);
    }
    let ghost edges_b = graph.edges@;
    let mut ranks = match assign_ranks(graph) {
        Ok(r) => r,
        Err(e) => {
            return Err(e);
        },
    };
    let ghost nodes_r = graph.nodes@;
    let ghost layers_r = ranks@;
    let ghost ranks_after_ranking = ranks.layers@;
    proof {
        lemma_ranking_points_edges_down(nodes0, edges_b, nodes_r, ranks.layers@);
        lemma_fold_shape(nodes_r, layers_r, edges_b);
    }
    let chains = match insert_dummy_nodes(graph, &mut ranks) {
        Ok(c) => c,
        Err(e) => {
            return Err(e);
        },
    };
    let total = graph.nodes.len();
    let ghost nodes_d = graph.nodes@;
    proof {
        lemma_dummy_insertion_yields_single_rank_edges(nodes_r, layers_r, edges_b);
        lemma_ranking_orders_consistent(nodes0, edges_b, nodes_r, ranks_after_ranking);
        lemma_dummy_insertion_keeps_orders_consistent(nodes_r, layers_r, edges_b);
        lemma_ranking_layers_match_ranks(nodes0, edges_b, nodes_r, ranks_after_ranking);
        lemma_dummy_insertion_keeps_layers_matching_ranks(nodes_r, layers_r, edges_b);
        let witness = (nodes_r, ranks_after_ranking);
        assert(ranked(nodes0, edges_b, witness.0, witness.1));
        let chosen = ranking(nodes0, edges_b);
        assert(ranked(nodes0, edges_b, chosen.0, chosen.1));
        lemma_ranking_is_determined(nodes0, edges_b, chosen.0, chosen.1, nodes_r, ranks_after_ranking);
        lemma_no_faulty_edge(graph.nodes@, graph.edges@, graph.edges@.len() as int);
        let fin = dummy_fold(
            DummyState { nodes: nodes_r, layers: layers_r, chains: Seq::empty(), edges: Seq::empty(), error: None },
            edges_b,
        );
        assert forall|v: int| 0 <= v < nodes0.len() implies #[trigger] nodes_d[v] == (LayoutNode {
            rank: nodes_d[v].rank,
            order: nodes_d[v].order,
            ..nodes0[v]
        }) by {
            assert(nodes_r[v] == (LayoutNode { rank: nodes_r[v].rank, order: nodes_r[v].order, ..nodes0[v] }));
            assert(fin.nodes[v] == nodes_r[v]);
        }
        assert forall|v: int| nodes0.len() <= v < nodes_d.len() implies (#[trigger] nodes_d[v]).node_type == NodeType::Dummy by {
            assert(fin.nodes[v].node_type == NodeType::Dummy);
        }
    }
    let ghost layers_d = ranks@;
    match order_layers(graph, &mut ranks, sweeps) {
        Ok(()) => {},
        Err(e) => {
            return Err(e);
        },
    }
    proof {
        let fin_nodes = graph.nodes@;
        lemma_rearranging_keeps_layers_matching_ranks(nodes_d, layers_d, fin_nodes, ranks@);
        assert forall|r: int| 0 <= r < ranks@.len() implies (#[trigger] ranks@[r]).len() <= usize::MAX by {
            assert(ranks@[r] == ranks.layers@[r]@);
            assert(ranks.layers@[r].len() == ranks.layers@[r]@.len());
        }
        assert forall|v: int| 0 <= v < nodes0.len() implies #[trigger] fin_nodes[v] == (LayoutNode {
            rank: fin_nodes[v].rank,
            order: fin_nodes[v].order,
            ..nodes0[v]
        }) by {
            assert(fin_nodes[v] == (LayoutNode { order: fin_nodes[v].order, ..nodes_d[v] }));
            assert(nodes_d[v] == (LayoutNode { rank: nodes_d[v].rank, order: nodes_d[v].order, ..nodes0[v] }));
        }
        assert forall|v: int| nodes0.len() <= v < fin_nodes.len() implies (#[trigger] fin_nodes[v]).node_type == NodeType::Dummy by {
            assert(fin_nodes[v] == (LayoutNode { order: fin_nodes[v].order, ..nodes_d[v] }));
        }
        assert forall|k: int| 0 <= k < graph.edges@.len() implies {
            &&& (#[trigger] graph.edges@[k]).from < fin_nodes.len()
            &&& graph.edges@[k].to < fin_nodes.len()
            &&& fin_nodes[graph.edges@[k].from as int].rank is Some
            &&& fin_nodes[graph.edges@[k].to as int].rank is Some
            &&& rank_at(fin_nodes, graph.edges@[k].to as int) == rank_at(fin_nodes, graph.edges@[k].from as int) + 1
        } by {
            let e = graph.edges@[k];
            assert(fin_nodes[e.from as int] == (LayoutNode { order: fin_nodes[e.from as int].order, ..nodes_d[e.from as int] }));
            assert(fin_nodes[e.to as int] == (LayoutNode { order: fin_nodes[e.to as int].order, ..nodes_d[e.to as int] }));
        }
        assert(chains@.len() == edges0.len());
        assert(fin_nodes.len() >= nodes0.len());
        assert(single_rank_edges(fin_nodes, graph.edges@));
        assert(layers_in_range(ranks@, fin_nodes.len() as int));
    }
    Ok((ranks, chains))
}

/// The phases on an input with caller ids: its graph with dense ids, the
/// self-loops taken out, through `phases_outcome`; then one chain per
/// self-loop, after the others.
pub open spec fn pipeline_outcome(nodes: Seq<FfiNode>, edges: Seq<FfiEdge>, sweeps: int) -> PhasesOutcome {
    let kept = built_graph_edges(ids_of(nodes), edges).filter(|e: LayoutEdge| is_not_self_loop(e));
    let p = phases_outcome(built_graph_nodes(nodes), kept, sweeps);
    PhasesOutcome { chains: p.chains + loop_chains(ids_of(nodes), edges), ..p }
}

/// Takes a graph keyed by the caller's own node ids through the
/// combinatorial phases: checks the ids and translates them to dense ones,
/// takes the self-loops out (they are routed by chains of their own, added
/// last), then breaks cycles, assigns ranks, inserts dummy nodes and orders
/// the layers with `sweeps` sweeps.
///
/// # Errors
/// `FfiLayoutError::InvalidGraph` for the first node id that repeats an
/// earlier one, else for the first edge endpoint that is no node's id; on
/// any other input the phases succeed.
pub fn run_pipeline(nodes: &Vec<FfiNode>, edges: &Vec<FfiEdge>, sweeps: u32) -> (result: Result<PipelineState, FfiLayoutError>)
    ensures
        match result {
            Err(e) => input_problem(nodes@, edges@) matches Some(msg) && e matches FfiLayoutError::InvalidGraph(m)
                && m@ == msg,
            Ok(st) => {
                &&& input_problem(nodes@, edges@) is None
                &&& st.external_ids@ == ids_of(nodes@)
                &&& st.self_loops@ == reported_loops(edges@)
                &&& st.chains@.len() == edges@.len()
                &&& chain_models(st.chains@).skip(st.chains@.len() - loop_chains(ids_of(nodes@), edges@).len())
                    == loop_chains(ids_of(nodes@), edges@)
                &&& st.graph.nodes@.len() >= nodes@.len()
                &&& forall|v: int|
                    0 <= v < nodes@.len() ==> {
                        let x = #[trigger] st.graph.nodes@[v];
                        &&& x.id == v
                        &&& x.node_type == NodeType::Normal
                        &&& x.width == nodes@[v].width
                        &&& x.height == nodes@[v].height
                    }
                &&& forall|v: int|
                    nodes@.len() <= v < st.graph.nodes@.len() ==> (#[trigger] st.graph.nodes@[v]).node_type
                        == NodeType::Dummy
                &&& single_rank_edges(st.graph.nodes@, st.graph.edges@)
                &&& layers_in_range(st.ranks@, st.graph.nodes@.len() as int)
                &&& orders_consistent(OrderState { nodes: st.graph.nodes@, layers: st.ranks@ })
                &&& counted_layering(st.graph.nodes@, st.graph.edges@, st.ranks@)
                &&& st.graph.nodes@ == pipeline_outcome(nodes@, edges@, sweeps as int).nodes
                &&& st.graph.edges@ == pipeline_outcome(nodes@, edges@, sweeps as int).edges
                &&& st.ranks@ == pipeline_outcome(nodes@, edges@, sweeps as int).layers
                &&& chain_models(st.chains@) == pipeline_outcome(nodes@, edges@, sweeps as int).chains
            },
        },
{
    let ghost ids = ids_of(nodes@);
    let n = nodes.len();
    let (mut graph, external_ids) = match translate_graph(nodes, edges) {
        Ok(t) => t,
        Err(e) => {
            return Err(e);
        },
    };
    let ghost loop_pred = |e: FfiEdge| e.from == e.to;
    let ghost built_nodes = graph.nodes@;
    let ghost built_edges = graph.edges@;
    proof {
        assert forall|k: int| 0 <= k < built_edges.len() implies !crate::validate::is_dangling(#[trigger] built_edges[k], n as int) by {
            assert(ids.contains(edges@[k].from));
            assert(ids.contains(edges@[k].to));
        }
        assert(dense_ids(built_nodes));
        assert forall|i: int| 0 <= i < edges@.len() implies loop_pred(#[trigger] edges@[i]) == is_self_loop(
            built_edge(ids, edges@[i]),
        ) by {
            let e = edges@[i];
            assert(ids.contains(e.from) && ids.contains(e.to));
            assert(ids[id_index(ids, e.from)] == e.from);
            assert(ids[id_index(ids, e.to)] == e.to);
        }
        lemma_filter_map_commute(edges@, |e: FfiEdge| built_edge(ids, e), loop_pred, |e: LayoutEdge| is_self_loop(e));
        lemma_filter_split(built_edges, |e: LayoutEdge| is_self_loop(e), |e: LayoutEdge| is_not_self_loop(e));
    }
    let raw_self_loops = graph.extract_self_loops();
    let ghost kept = graph.edges@;
    let ghost raw = raw_self_loops@;
    proof {
        assert(raw == edges@.filter(loop_pred).map_values(|e: FfiEdge| built_edge(ids, e)));
        assert forall|k: int| 0 <= k < raw.len() implies (#[trigger] raw[k]).from < n && raw[k].to < n by {
            built_edges.lemma_filter_contains_rev(|e: LayoutEdge| is_self_loop(e), raw[k]);
        }
        assert forall|k: int| 0 <= k < kept.len() implies !crate::validate::is_dangling(#[trigger] kept[k], n as int) by {
            built_edges.lemma_filter_contains_rev(|e: LayoutEdge| is_not_self_loop(e), kept[k]);
        }
        assert(well_formed(built_nodes, kept));
    }
    let self_loops = report_self_loops(&raw_self_loops, &external_ids);
    proof {
        let filtered = edges@.filter(loop_pred);
        assert forall|j: int| 0 <= j < filtered.len() implies caller_loop(ids, built_edge(ids, #[trigger] filtered[j]))
            == reported_loop(filtered[j]) by {
            edges@.lemma_filter_contains_rev(loop_pred, filtered[j]);
            let i = choose|i: int| 0 <= i < edges@.len() && edges@[i] == filtered[j];
            assert(ids.contains(edges@[i].from) && ids.contains(edges@[i].to));
            assert(ids[id_index(ids, filtered[j].from)] == filtered[j].from);
            assert(ids[id_index(ids, filtered[j].to)] == filtered[j].to);
        }
        assert(self_loops@ =~= reported_loops(edges@));
    }
    let (ranks, mut chains) = match run_phases(&mut graph, sweeps as usize) {
        Ok(out) => out,
        Err(e) => {
            return Err(FfiLayoutError::from_layout_error(e));
        },
    };
    let ghost dummy_chains = chain_models(chains@);
    let num_loops = raw_self_loops.len();
    for k in 0..num_loops
        invariant
            num_loops == raw.len(),
            raw == raw_self_loops@,
            chain_models(chains@) == dummy_chains + raw.take(k as int).map_values(|e: LayoutEdge| loop_chain(e)),
    {
        let e = raw_self_loops[k];
        assert(e == raw[k as int]);
        let mut chain: Vec<NodeId> = Vec::new();
        chain.push(e.from);
        let ghost c0 = chains@;
        chains.push(
            EdgeChain {
                source: e.from,
                target: e.to,
                reversed: false,
                is_self_loop: true,
                label_size: e.label_size,
                chain,
            },
        );
        proof {
            assert(raw.take(k + 1) =~= raw.take(k as int).push(e));
            assert(chains@.last()@.chain =~= seq![e.from]);
            assert(chains@.last()@ == loop_chain(e));
            assert(chain_models(chains@) =~= chain_models(c0).push(loop_chain(e)));
            assert(chain_models(chains@) =~= dummy_chains + raw.take(k + 1).map_values(|e: LayoutEdge| loop_chain(e)));
        }
    }
    proof {
        assert(raw.take(num_loops as int) =~= raw);
        let lc = loop_chains(ids, edges@);
        assert(raw.map_values(|e: LayoutEdge| loop_chain(e)) =~= lc);
        assert(chain_models(chains@).skip(chains@.len() - lc.len()) =~= lc);
        assert(chain_models(chains@) =~= pipeline_outcome(nodes@, edges@, sweeps as int).chains);
        assert forall|v: int| 0 <= v < nodes@.len() implies {
            let x = #[trigger] graph.nodes@[v];
            &&& x.id == v
            &&& x.node_type == NodeType::Normal
            &&& x.width == nodes@[v].width
            &&& x.height == nodes@[v].height
        } by {
            assert(graph.nodes@[v] == (LayoutNode {
                rank: graph.nodes@[v].rank,
                order: graph.nodes@[v].order,
                ..built_nodes[v]
            }));
        }
    }
    Ok(PipelineState { graph, ranks, chains, external_ids, self_loops })
}

/// The self-loops as reported back to the caller.
fn report_self_loops(raw_self_loops: &Vec<LayoutEdge>, external_ids: &Vec<u64>) -> (self_loops: Vec<FfiEdge>)
    requires
        forall|j: int|
            0 <= j < raw_self_loops@.len() ==> (#[trigger] raw_self_loops@[j]).from < external_ids@.len()
                && raw_self_loops@[j].to < external_ids@.len(),
    ensures
        self_loops@ == raw_self_loops@.map_values(|e: LayoutEdge| caller_loop(external_ids@, e)),
{
    let ghost raw = raw_self_loops@;
    let ghost ids = external_ids@;
    let mut self_loops: Vec<FfiEdge> = Vec::new();
    let num_loops = raw_self_loops.len();
    for k in 0..num_loops
        invariant
            num_loops == raw.len(),
            raw == raw_self_loops@,
            ids == external_ids@,
            forall|j: int| 0 <= j < raw.len() ==> (#[trigger] raw[j]).from < ids.len() && raw[j].to < ids.len(),
            self_loops@ == raw.take(k as int).map_values(|e: LayoutEdge| caller_loop(ids, e)),
    {
        let e = raw_self_loops[k];
        assert(e == raw[k as int]);
        self_loops.push(
            FfiEdge {
                from: external_ids[e.from],
                to: external_ids[e.to],
                label_width: match e.label_size {
                    Some(wh) => Some(wh.0),
                    None => None,
                },
                label_height: match e.label_size {
                    Some(wh) => Some(wh.1),
                    None => None,
                },
            },
        );
        proof {
            assert(raw.take(k + 1) =~= raw.take(k as int).push(e));
            assert(self_loops@ =~= raw.take(k + 1).map_values(|e: LayoutEdge| caller_loop(ids, e)));
        }
    }
    proof {
        assert(raw.take(num_loops as int) =~= raw);
    }
    self_loops
}

/// A self-loop as reported back to the caller, from its edge with dense ids.
pub open spec fn caller_loop(ids: Seq<u64>, e: LayoutEdge) -> FfiEdge {
    FfiEdge {
        from: ids[e.from as int],
        to: ids[e.to as int],
        label_width: match e.label_size {
            Some(wh) => Some(wh.0),
            None => None,
        },
        label_height: match e.label_size {
            Some(wh) => Some(wh.1),
            None => None,
        },
    }
}

proof fn lemma_no_unknown(ids: Seq<u64>, edges: Seq<FfiEdge>, k: int)
    requires
        0 <= k <= edges.len(),
        first_unknown(ids, edges, k) is None,
    ensures
        forall|j: int| 0 <= j < k ==> ids.contains((#[trigger] edges[j]).from) && ids.contains(edges[j].to),
    decreases k,
{
    if k > 0 {
        lemma_no_unknown(ids, edges, k - 1);
    }
}

proof fn lemma_first_duplicate_absorbs(ids: Seq<u64>, k: int, j: int)
    requires
        0 <= k <= j,
        first_duplicate(ids, k) is Some,
    ensures
        first_duplicate(ids, j) == first_duplicate(ids, k),
    decreases j - k,
{
    if j > k {
        lemma_first_duplicate_absorbs(ids, k, j - 1);
    }
}

proof fn lemma_first_unknown_absorbs(ids: Seq<u64>, edges: Seq<FfiEdge>, k: int, j: int)
    requires
        0 <= k <= j,
        first_unknown(ids, edges, k) is Some,
    ensures
        first_unknown(ids, edges, j) == first_unknown(ids, edges, k),
    decreases j - k,
{
    if j > k {
        lemma_first_unknown_absorbs(ids, edges, k, j - 1);
    }
}

proof fn lemma_id_index(ids: Seq<u64>, x: u64, i: int)
    requires
        0 <= i < ids.len(),
        ids[i] == x,
        forall|a: int, b: int| 0 <= a < b < ids.len() ==> ids[a] != ids[b],
    ensures
        id_index(ids, x) == i,
{
    let j = id_index(ids, x);
    assert(0 <= j < ids.len() && ids[j] == x);
    if j < i {
        assert(ids[j] != ids[i]);
    } else if j > i {
        assert(ids[i] != ids[j]);
    }
}

/// One drawing primitive of a routed edge's path, by positions in its
/// waypoint list.
#[derive(Debug, Clone, Copy, PartialEq, Eq, Structural)]
pub enum SegmentPlan {
    /// A straight line between two waypoints.
    Line {
        /// Position of the start point.
        start: usize,
        /// Position of the end point.
        end: usize,
    },
    /// A cubic bezier curve between two waypoints with two control points.
    CubicCurve {
        /// Position of the start point.
        start: usize,
        /// Position of the first control point.
        control1: usize,
        /// Position of the second control point.
        control2: usize,
        /// Position of the end point.
        end: usize,
    },
}

/// Whether `n` waypoints drawn in `routing` style are packed cubic curves:
/// a start point followed by (control, control, end) triples.
pub open spec fn packs_cubics(n: int, routing: FfiRoutingStyle) -> bool {
    routing == FfiRoutingStyle::Bezier && n >= 4 && (n - 1) % 3 == 0
}

/// The drawing primitives for `n` waypoints in `routing` style: one curve
/// per packed triple when the waypoints pack cubic curves, else one line
/// between each two consecutive waypoints.
pub open spec fn segment_plan(n: int, routing: FfiRoutingStyle) -> Seq<SegmentPlan> {
    if packs_cubics(n, routing) {
        Seq::new(
            ((n - 1) / 3) as nat,
            |s: int|
                SegmentPlan::CubicCurve {
                    start: (3 * s) as usize,
                    control1: (3 * s + 1) as usize,
                    control2: (3 * s + 2) as usize,
                    end: (3 * s + 3) as usize,
                },
        )
    } else {
        Seq::new(
            (if n >= 1 {
                n - 1
            } else {
                0
            }) as nat,
            |i: int| SegmentPlan::Line { start: i as usize, end: (i + 1) as usize },
        )
    }
}

/// Splits a route of `num_points` waypoints into drawing primitives. Every
/// route with a start and an end gets at least one primitive, and every
/// primitive refers to existing waypoints.
pub fn plan_segments(num_points: usize, routing: FfiRoutingStyle) -> (plan: Vec<SegmentPlan>)
    ensures
        plan@ == segment_plan(num_points as int, routing),
        num_points >= 2 ==> plan@.len() >= 1,
{
    let mut plan: Vec<SegmentPlan> = Vec::new();
    let cubic = match routing {
        FfiRoutingStyle::Bezier => num_points >= 4 && (num_points - 1) % 3 == 0,
        _ => false,
    };
    if cubic {
        let num_segments = (num_points - 1) / 3;
        proof {
            assert(3 * num_segments + 1 == num_points) by (nonlinear_arith)
                requires
                    num_segments == (num_points - 1) / 3,
                    (num_points - 1) % 3 == 0,
                    num_points >= 4,
            ;
        }
        for s in 0..num_segments
            invariant
                3 * num_segments + 1 == num_points,
                packs_cubics(num_points as int, routing),
                num_segments == (num_points - 1) / 3,
                plan@ == segment_plan(num_points as int, routing).take(s as int),
        {
            plan.push(
                SegmentPlan::CubicCurve { start: 3 * s, control1: 3 * s + 1, control2: 3 * s + 2, end: 3 * s + 3 },
            );
            proof {
                assert(plan@ =~= segment_plan(num_points as int, routing).take(s + 1));
            }
        }
        proof {
            assert(segment_plan(num_points as int, routing).take(num_segments as int) =~= segment_plan(
                num_points as int,
                routing,
            ));
        }
    } else {
        let num_lines = if num_points >= 1 {
            num_points - 1
        } else {
            0
        };
        for i in 0..num_lines
            invariant
                !packs_cubics(num_points as int, routing),
                num_lines == (if num_points >= 1 {
                    num_points - 1
                } else {
                    0
                }),
                plan@ == segment_plan(num_points as int, routing).take(i as int),
        {
            plan.push(SegmentPlan::Line { start: i, end: i + 1 });
            proof {
                assert(plan@ =~= segment_plan(num_points as int, routing).take(i + 1));
            }
        }
        proof {
            assert(segment_plan(num_points as int, routing).take(num_lines as int) =~= segment_plan(
                num_points as int,
                routing,
            ));
        }
    }
    plan
}

/// A node's final position, keyed by the caller's own id (coordinates as
/// `f32` bit patterns).
#[derive(Debug, Clone, Copy)]
pub struct FfiPosition {
    /// The caller's own id for this node.
    pub id: u64,
    /// Assigned x coordinate (bit pattern of an `f32`).
    pub x: u32,
    /// Assigned y coordinate (bit pattern of an `f32`).
    pub y: u32,
}

/// A node of the caller's graph, as opposed to a dummy waypoint.
pub open spec fn is_normal(n: LayoutNode) -> bool {
    n.node_type == NodeType::Normal
}

/// The position reported for a node.
pub open spec fn position_of_node(external_ids: Seq<u64>, n: LayoutNode) -> FfiPosition {
    FfiPosition { id: external_ids[n.id as int], x: n.x, y: n.y }
}

/// The positions of the caller's nodes, in node order, keyed by the
/// caller's ids; dummy nodes are not reported.
pub fn report_positions(nodes: &Vec<LayoutNode>, external_ids: &Vec<u64>) -> (positions: Vec<FfiPosition>)
    requires
        forall|v: int|
            0 <= v < nodes@.len() && is_normal(#[trigger] nodes@[v]) ==> nodes@[v].id < external_ids@.len(),
    ensures
        positions@ == nodes@.filter(|n: LayoutNode| is_normal(n)).map_values(
            |n: LayoutNode| position_of_node(external_ids@, n),
        ),
{
    let ghost pred = |n: LayoutNode| is_normal(n);
    let ghost f = |n: LayoutNode| position_of_node(external_ids@, n);
    let mut positions: Vec<FfiPosition> = Vec::new();
    let len = nodes.len();
    for v in 0..len
        invariant
            len == nodes@.len(),
            pred == (|n: LayoutNode| is_normal(n)),
            f == (|n: LayoutNode| position_of_node(external_ids@, n)),
            forall|w: int| 0 <= w < nodes@.len() && is_normal(#[trigger] nodes@[w]) ==> nodes@[w].id < external_ids@.len(),
            positions@ == nodes@.take(v as int).filter(pred).map_values(f),
    {
        let node = nodes[v];
        proof {
            assert(nodes@.take(v + 1) =~= nodes@.take(v as int).push(node));
            nodes@.take(v as int).lemma_filter_push(node, pred);
        }
        if node.node_type == NodeType::Normal {
            positions.push(FfiPosition { id: external_ids[node.id], x: node.x, y: node.y });
            proof {
                assert(nodes@.take(v as int).filter(pred).push(node).map_values(f) =~= positions@);
            }
        }
    }
    proof {
        assert(nodes@.take(len as int) =~= nodes@);
    }
    positions
}
} // verus!
