//! Graph validation utilities.
use vstd::prelude::*;
use crate::types::{LayoutGraph, LayoutError, LayoutNode, LayoutEdge, is_not_self_loop};

verus! {

/// `i` is the first position whose node does not carry its own index as id.
pub open spec fn first_misnumbered(nodes: Seq<LayoutNode>, i: int) -> bool {
    &&& 0 <= i < nodes.len()
    &&& nodes[i].id != i
    &&& forall|j: int| 0 <= j < i ==> #[trigger] nodes[j].id == j
}

/// Every node's id equals its position.
pub open spec fn dense_ids(nodes: Seq<LayoutNode>) -> bool {
    forall|i: int| 0 <= i < nodes.len() ==> #[trigger] nodes[i].id == i
}

/// The edge references a node that does not exist among `n` nodes.
pub open spec fn is_dangling(e: LayoutEdge, n: int) -> bool {
    e.from >= n || e.to >= n
}

/// `k` is the first edge that references a missing node.
pub open spec fn first_dangling(edges: Seq<LayoutEdge>, n: int, k: int) -> bool {
    &&& 0 <= k < edges.len()
    &&& is_dangling(edges[k], n)
    &&& forall|j: int| 0 <= j < k ==> !is_dangling(#[trigger] edges[j], n)
}

/// Every edge references existing nodes.
pub open spec fn endpoints_in_range(edges: Seq<LayoutEdge>, n: int) -> bool {
    forall|j: int| 0 <= j < edges.len() ==> !is_dangling(#[trigger] edges[j], n)
}

/// `k` is the first self-loop edge.
pub open spec fn first_self_loop(edges: Seq<LayoutEdge>, k: int) -> bool {
    &&& 0 <= k < edges.len()
    &&& edges[k].from == edges[k].to
    &&& forall|j: int| 0 <= j < k ==> #[trigger] edges[j].from != edges[j].to
}

/// No edge is a self-loop.
pub open spec fn no_self_loops(edges: Seq<LayoutEdge>) -> bool {
    forall|j: int| 0 <= j < edges.len() ==> #[trigger] edges[j].from != edges[j].to
}

/// A graph in the state every phase relies on: dense ids, no dangling
/// edge, no self-loop.
pub open spec fn well_formed(nodes: Seq<LayoutNode>, edges: Seq<LayoutEdge>) -> bool {
    &&& dense_ids(nodes)
    &&& endpoints_in_range(edges, nodes.len() as int)
    &&& no_self_loops(edges)
}

/// What validation reports for a graph: the first problem found, checking
/// node ids first, then dangling edges, then self-loops.
pub open spec fn validation_result(nodes: Seq<LayoutNode>, edges: Seq<LayoutEdge>) -> Result<(), LayoutError> {
    if exists|i: int| first_misnumbered(nodes, i) {
        let i = choose|i: int| first_misnumbered(nodes, i);
        Err(LayoutError::InvalidNodeId { index: i as usize, id: nodes[i].id })
    } else if exists|k: int| first_dangling(edges, nodes.len() as int, k) {
        let k = choose|k: int| first_dangling(edges, nodes.len() as int, k);
        Err(LayoutError::DanglingEdge { from: edges[k].from, to: edges[k].to })
    } else if exists|k: int| first_self_loop(edges, k) {
        let k = choose|k: int| first_self_loop(edges, k);
        Err(LayoutError::SelfLoop(edges[k].from))
    } else {
        Ok(())
    }
}

/// Validation succeeds exactly on well-formed graphs.
pub proof fn lemma_validation_ok_iff_well_formed(nodes: Seq<LayoutNode>, edges: Seq<LayoutEdge>)
    ensures
        validation_result(nodes, edges) is Ok <==> well_formed(nodes, edges),
{
    if !dense_ids(nodes) {
        let i = lemma_first_misnumbered_exists(nodes, nodes.len() as int);
        assert(first_misnumbered(nodes, i));
    } else if !endpoints_in_range(edges, nodes.len() as int) {
        let k = lemma_first_dangling_exists(edges, nodes.len() as int, edges.len() as int);
        assert(first_dangling(edges, nodes.len() as int, k));
        assert(!exists|i: int| first_misnumbered(nodes, i));
    } else if !no_self_loops(edges) {
        let k = lemma_first_self_loop_exists(edges, edges.len() as int);
        assert(first_self_loop(edges, k));
        assert(!exists|i: int| first_misnumbered(nodes, i));
        assert(!exists|k: int| first_dangling(edges, nodes.len() as int, k));
    } else {
        assert(!exists|i: int| first_misnumbered(nodes, i));
        assert(!exists|k: int| first_dangling(edges, nodes.len() as int, k));
        assert(!exists|k: int| first_self_loop(edges, k));
    }
}

/// Nodes added with `LayoutGraph::add_node` keep the ids dense: the new
/// node carries the id of its own position.
pub proof fn lemma_add_node_keeps_ids_dense(nodes: Seq<LayoutNode>, node: LayoutNode)
    requires
        dense_ids(nodes),
        nodes.len() < usize::MAX,
    ensures
        dense_ids(nodes.push(LayoutNode { id: nodes.len() as usize, ..node })),
{
    let after = nodes.push(LayoutNode { id: nodes.len() as usize, ..node });
    assert forall|i: int| 0 <= i < after.len() implies #[trigger] after[i].id == i by {
        if i < nodes.len() {
            assert(after[i] == nodes[i]);
        }
    }
}

/// Taking the self-loops out of a graph with dense ids and no dangling edge
/// (as `LayoutGraph::extract_self_loops` does) leaves a graph that passes
/// validation.
pub proof fn lemma_extracting_self_loops_leaves_valid_graph(nodes: Seq<LayoutNode>, edges: Seq<LayoutEdge>)
    requires
        dense_ids(nodes),
        endpoints_in_range(edges, nodes.len() as int),
    ensures
        validation_result(nodes, edges.filter(|e: LayoutEdge| is_not_self_loop(e))) is Ok,
{
    let pred = |e: LayoutEdge| is_not_self_loop(e);
    let kept = edges.filter(pred);
    assert forall|k: int| 0 <= k < kept.len() implies !is_dangling(#[trigger] kept[k], nodes.len() as int) && kept[k].from
        != kept[k].to by {
        edges.lemma_filter_contains_rev(pred, kept[k]);
        edges.lemma_filter_pred(pred, k);
    }
    lemma_validation_ok_iff_well_formed(nodes, kept);
}

proof fn lemma_first_misnumbered_exists(nodes: Seq<LayoutNode>, bound: int) -> (i: int)
    requires
        0 <= bound <= nodes.len(),
        exists|j: int| 0 <= j < bound && nodes[j].id != j,
    ensures
        first_misnumbered(nodes, i),
    decreases bound,
{
    if forall|j: int| 0 <= j < bound - 1 ==> #[trigger] nodes[j].id == j {
        bound - 1
    } else {
        lemma_first_misnumbered_exists(nodes, bound - 1)
    }
}

proof fn lemma_first_dangling_exists(edges: Seq<LayoutEdge>, n: int, bound: int) -> (k: int)
    requires
        0 <= bound <= edges.len(),
        exists|j: int| 0 <= j < bound && is_dangling(edges[j], n),
    ensures
        first_dangling(edges, n, k),
    decreases bound,
{
    if forall|j: int| 0 <= j < bound - 1 ==> !is_dangling(#[trigger] edges[j], n) {
        bound - 1
    } else {
        lemma_first_dangling_exists(edges, n, bound - 1)
    }
}

proof fn lemma_first_self_loop_exists(edges: Seq<LayoutEdge>, bound: int) -> (k: int)
    requires
        0 <= bound <= edges.len(),
        exists|j: int| 0 <= j < bound && edges[j].from == edges[j].to,
    ensures
        first_self_loop(edges, k),
    decreases bound,
{
    if forall|j: int| 0 <= j < bound - 1 ==> #[trigger] edges[j].from != edges[j].to {
        bound - 1
    } else {
        lemma_first_self_loop_exists(edges, bound - 1)
    }
}

/// Validates that the graph is in a consistent state.
///
/// Checks, in order:
/// 1. Every node's `id` matches its position in `graph.nodes`.
/// 2. Every edge's `from`/`to` reference an existing node.
/// 3. No edge is a self-loop (`from == to`).
///
/// This does *not* check for cycles.
pub fn validate_graph(graph: &LayoutGraph) -> (result: Result<(), LayoutError>)
    ensures
        result == validation_result(graph.nodes@, graph.edges@),
        result is Ok <==> well_formed(graph.nodes@, graph.edges@),
{
    proof {
        lemma_validation_ok_iff_well_formed(graph.nodes@, graph.edges@);
    }
    let n = graph.nodes.len();
    let ghost nodes = graph.nodes@;
    let ghost edges = graph.edges@;

    for i in 0..n
        invariant
            n == nodes.len(),
            nodes == graph.nodes@,
            forall|j: int| 0 <= j < i ==> #[trigger] nodes[j].id == j,
    {
        if graph.nodes[i].id != i {
            proof {
                assert(first_misnumbered(nodes, i as int));
                assert forall|j: int| first_misnumbered(nodes, j) implies j == i by {
                    if j < i {
                    } else if j > i {
                        assert(nodes[i as int].id == i);
                    }
                }
            }
            return Err(LayoutError::InvalidNodeId { index: i, id: graph.nodes[i].id });
        }
    }
    assert(!exists|i: int| first_misnumbered(nodes, i));

    let m = graph.edges.len();
    for k in 0..m
        invariant
            n == nodes.len(),
            m == edges.len(),
            edges == graph.edges@,
            nodes == graph.nodes@,
            dense_ids(nodes),
            forall|j: int| 0 <= j < k ==> !is_dangling(#[trigger] edges[j], n as int),
    {
        let edge = graph.edges[k];
        if edge.from >= n || edge.to >= n {
            proof {
                assert(first_dangling(edges, n as int, k as int));
                assert forall|j: int| first_dangling(edges, n as int, j) implies j == k by {
                    if j < k {
                    } else if j > k {
                        assert(is_dangling(edges[k as int], n as int));
                    }
                }
            }
            return Err(LayoutError::DanglingEdge { from: edge.from, to: edge.to });
        }
    }
    assert(!exists|k: int| first_dangling(edges, n as int, k));

    for k in 0..m
        invariant
            n == nodes.len(),
            m == edges.len(),
            edges == graph.edges@,
            nodes == graph.nodes@,
            dense_ids(nodes),
            endpoints_in_range(edges, n as int),
            forall|j: int| 0 <= j < k ==> #[trigger] edges[j].from != edges[j].to,
    {
        let edge = graph.edges[k];
        if edge.from == edge.to {
            proof {
                assert(first_self_loop(edges, k as int));
                assert forall|j: int| first_self_loop(edges, j) implies j == k by {
                    if j < k {
                    } else if j > k {
                        assert(edges[k as int].from == edges[k as int].to);
                    }
                }
            }
            return Err(LayoutError::SelfLoop(edge.from));
        }
    }
    assert(!exists|k: int| first_self_loop(edges, k));
    Ok(())
}

} // verus!
