//! Shared types for the layout engine.
//!
//! Geometric quantities (widths, heights, coordinates, label sizes) are
//! floating-point values in a rendered layout.  The verified phases never
//! compute with them: they only carry them through.  So every such field
//! holds the IEEE-754 bit pattern of an `f32` (as produced by
//! `f32::to_bits`); the geometry code outside this crate converts with
//! `f32::from_bits`.  The bit pattern of `0.0` is `0`.
use vstd::prelude::*;

verus! {

/// Dense, zero-based index into [`LayoutGraph::nodes`]. Every phase indexes
/// nodes directly by this value, so `graph.nodes[id].id == id` must always
/// hold — see [`LayoutGraph::add_node`].
pub type NodeId = usize;

/// Index of a layer within [`RankSystem::layers`], assigned by
/// `assign_ranks`.
pub type RankId = usize;

/// Whether a [`LayoutNode`] is part of the original input graph, or was
/// synthesized by `insert_dummy_nodes` as a waypoint for an edge spanning
/// more than one rank.
#[derive(Debug, Clone, Copy, PartialEq, Eq, Structural)]
#[non_exhaustive]
pub enum NodeType {
    /// A node from the original input graph.
    Normal,
    /// A synthesized waypoint node inserted by `insert_dummy_nodes`.
    Dummy,
}

impl Default for NodeType {
    fn default() -> (t: Self)
        ensures
            t == NodeType::Normal,
    {
        NodeType::Normal
    }
}

/// A single node in the graph being laid out.
#[derive(Debug, Clone, Copy)]
pub struct LayoutNode {
    /// This node's id — must equal its own index in [`LayoutGraph::nodes`].
    pub id: NodeId,
    /// Whether this is an original node or a dummy waypoint.
    pub node_type: NodeType,
    /// Visual width (bit pattern of an `f32`).
    pub width: u32,
    /// Visual height (bit pattern of an `f32`).
    pub height: u32,
    /// Assigned x-coordinate (bit pattern of an `f32`); meaningless until
    /// coordinates have been assigned.
    pub x: u32,
    /// Assigned y-coordinate (bit pattern of an `f32`); meaningless until
    /// coordinates have been assigned.
    pub y: u32,
    /// Which layer this node belongs to. `None` until `assign_ranks` has run.
    pub rank: Option<RankId>,
    /// Position of this node within its rank's layer. `None` until
    /// `assign_ranks` has run.
    pub order: Option<usize>,
}

impl Default for LayoutNode {
    fn default() -> (node: Self)
        ensures
            node.id == 0,
            node.node_type == NodeType::Normal,
            node.width == 0,
            node.height == 0,
            node.x == 0,
            node.y == 0,
            node.rank is None,
            node.order is None,
    {
        LayoutNode {
            id: 0,
            node_type: NodeType::Normal,
            width: 0,
            height: 0,
            x: 0,
            y: 0,
            rank: None,
            order: None,
        }
    }
}

/// A single edge in the graph being laid out.
#[derive(Debug, Clone, Copy)]
pub struct LayoutEdge {
    /// Source node id.
    pub from: NodeId,
    /// Target node id.
    pub to: NodeId,
    /// True if this edge was reversed by `break_cycles` and should be drawn
    /// with its arrowhead at the visually higher end.
    pub reversed: bool,
    /// Optional label width and height (bit patterns of `f32`s).
    pub label_size: Option<(u32, u32)>,
}

/// A graph to lay out: a dense, zero-indexed node list plus a set of edges
/// between them.
#[derive(Debug, Clone)]
pub struct LayoutGraph {
    /// All nodes, indexed by [`NodeId`].
    pub nodes: Vec<LayoutNode>,
    /// All edges between those nodes.
    pub edges: Vec<LayoutEdge>,
}

impl Default for LayoutGraph {
    fn default() -> (g: Self)
        ensures
            g.nodes@.len() == 0,
            g.edges@.len() == 0,
    {
        LayoutGraph { nodes: Vec::new(), edges: Vec::new() }
    }
}

/// An edge whose two endpoints coincide.
pub open spec fn is_self_loop(e: LayoutEdge) -> bool {
    e.from == e.to
}

/// An edge whose two endpoints differ.
pub open spec fn is_not_self_loop(e: LayoutEdge) -> bool {
    e.from != e.to
}

impl LayoutGraph {
    /// Appends a new node and returns its `NodeId`, which is the node's
    /// position in `nodes`; the node's own `id` field is overwritten with it.
    pub fn add_node(&mut self, node: LayoutNode) -> (id: NodeId)
        ensures
            id == old(self).nodes@.len(),
            final(self).nodes@ == old(self).nodes@.push(LayoutNode { id: id, ..node }),
            final(self).edges@ == old(self).edges@,
    {
        let id = self.nodes.len();
        let mut node = node;
        node.id = id;
        self.nodes.push(node);
        id
    }

    /// Removes and returns all self-loop edges (`from == to`), keeping the
    /// relative order of both the removed and the remaining edges.
    pub fn extract_self_loops(&mut self) -> (self_loops: Vec<LayoutEdge>)
        ensures
            self_loops@ == old(self).edges@.filter(|e: LayoutEdge| is_self_loop(e)),
            final(self).edges@ == old(self).edges@.filter(|e: LayoutEdge| is_not_self_loop(e)),
            final(self).nodes@ == old(self).nodes@,
            forall|i: int|
                0 <= i < final(self).edges@.len() ==> #[trigger] final(self).edges@[i].from
                    != final(self).edges@[i].to,
    {
        let ghost loops_pred = |e: LayoutEdge| is_self_loop(e);
        let ghost keep_pred = |e: LayoutEdge| is_not_self_loop(e);
        let ghost orig = self.edges@;
        let mut self_loops: Vec<LayoutEdge> = Vec::new();
        let mut kept: Vec<LayoutEdge> = Vec::new();
        let len = self.edges.len();
        for i in 0..len
            invariant
                len == self.edges@.len(),
                self.edges@ == orig,
                loops_pred == (|e: LayoutEdge| is_self_loop(e)),
                keep_pred == (|e: LayoutEdge| is_not_self_loop(e)),
                self_loops@ == orig.take(i as int).filter(loops_pred),
                kept@ == orig.take(i as int).filter(keep_pred),
        {
            let e = self.edges[i];
            proof {
                assert(orig.take(i as int + 1) =~= orig.take(i as int).push(e));
                assert(loops_pred(e) == (e.from == e.to));
                assert(keep_pred(e) == (e.from != e.to));
                orig.take(i as int).lemma_filter_push(e, loops_pred);
                orig.take(i as int).lemma_filter_push(e, keep_pred);
            }
            if e.from == e.to {
                self_loops.push(e);
            } else {
                kept.push(e);
            }
        }
        proof {
            assert(orig.take(len as int) == orig);
        }
        self.edges = kept;
        proof {
            assert forall|i: int| 0 <= i < self.edges@.len() implies #[trigger] self.edges@[i].from
                != self.edges@[i].to by {
                orig.lemma_filter_pred(keep_pred, i);
            }
        }
        self_loops
    }
}

/// The graph's nodes grouped by rank, in intra-layer order.
#[derive(Debug, Clone)]
pub struct RankSystem {
    /// `layers[rank]` is the ordered list of node ids in that layer.
    pub layers: Vec<Vec<NodeId>>,
}

impl Default for RankSystem {
    fn default() -> (r: Self)
        ensures
            r.layers@.len() == 0,
    {
        RankSystem { layers: Vec::new() }
    }
}

/// Everything that can go wrong running the layout pipeline. Every variant
/// describes a problem with the input to some phase.
#[derive(Debug, PartialEq, Eq, Clone, Copy, Structural)]
#[non_exhaustive]
pub enum LayoutError {
    /// The input graph has a cycle that survived cycle breaking.
    CyclicGraph,
    /// `graph.nodes[index].id != index`.
    InvalidNodeId {
        /// The node's actual position in `graph.nodes`.
        index: usize,
        /// The mismatched id found at that position.
        id: NodeId,
    },
    /// An edge references a node id that doesn't exist in `graph.nodes`.
    DanglingEdge {
        /// The edge's source id.
        from: NodeId,
        /// The edge's target id.
        to: NodeId,
    },
    /// A self-loop (`from == to`) was found.
    SelfLoop(NodeId),
    /// A phase that requires `LayoutNode::rank` to be set encountered a node
    /// with `rank == None`.
    MissingRank(NodeId),
}

/// Layout direction.
#[derive(Debug, Clone, Copy, PartialEq, Eq, Structural)]
#[non_exhaustive]
pub enum LayoutDirection {
    /// Rank 0 at the top, increasing ranks flow downward.
    TopToBottom,
    /// Rank 0 at the left, increasing ranks flow rightward.
    LeftToRight,
}

impl Default for LayoutDirection {
    fn default() -> (d: Self)
        ensures
            d == LayoutDirection::TopToBottom,
    {
        LayoutDirection::TopToBottom
    }
}

/// Tracks how a single original (possibly long) edge was decomposed into a
/// chain of single-rank segments.
#[derive(Debug, Clone)]
pub struct EdgeChain {
    /// Original edge's source node id.
    pub source: NodeId,
    /// Original edge's target node id.
    pub target: NodeId,
    /// Mirrored from the originating [`LayoutEdge::reversed`].
    pub reversed: bool,
    /// Whether this chain represents a self-loop (`source == target`).
    pub is_self_loop: bool,
    /// Optional label width/height (bit patterns of `f32`s), mirrored from
    /// the originating [`LayoutEdge::label_size`].
    pub label_size: Option<(u32, u32)>,
    /// All waypoint nodes in order: [source, dummy₁, dummy₂, …, target].
    pub chain: Vec<NodeId>,
}

/// The mathematical content of an [`EdgeChain`].
pub struct ChainModel {
    pub source: NodeId,
    pub target: NodeId,
    pub reversed: bool,
    pub is_self_loop: bool,
    pub label_size: Option<(u32, u32)>,
    pub chain: Seq<NodeId>,
}

impl View for EdgeChain {
    type V = ChainModel;

    open spec fn view(&self) -> ChainModel {
        ChainModel {
            source: self.source,
            target: self.target,
            reversed: self.reversed,
            is_self_loop: self.is_self_loop,
            label_size: self.label_size,
            chain: self.chain@,
        }
    }
}

/// The layers as sequences of node ids.
pub open spec fn layers_view(layers: Seq<Vec<NodeId>>) -> Seq<Seq<NodeId>> {
    layers.map_values(|l: Vec<NodeId>| l@)
}

impl View for RankSystem {
    type V = Seq<Seq<NodeId>>;

    open spec fn view(&self) -> Seq<Seq<NodeId>> {
        layers_view(self.layers@)
    }
}

/// Routing style for edge drawing.
#[derive(Debug, Clone, Copy, PartialEq, Eq, Structural)]
#[non_exhaustive]
pub enum RoutingStyle {
    /// Straight line, 2 points only — ignores any dummy waypoints.
    Straight,
    /// Right-angle polyline through dummy midpoints.
    Orthogonal,
    /// Smooth cubic bezier through dummy waypoints.
    Bezier,
}

impl Default for RoutingStyle {
    fn default() -> (s: Self)
        ensures
            s == RoutingStyle::Bezier,
    {
        RoutingStyle::Bezier
    }
}

/// Algorithm selection for x-coordinate assignment.
#[derive(Debug, Clone, Copy, PartialEq, Eq, Structural)]
pub enum CoordAlgorithm {
    /// Weighted median relaxation with compaction.
    MedianRelax,
    /// Brandes-Köpf-inspired four-pass alignment averaging.
    BrandesKopf,
}

impl Default for CoordAlgorithm {
    fn default() -> (a: Self)
        ensures
            a == CoordAlgorithm::MedianRelax,
    {
        CoordAlgorithm::MedianRelax
    }
}

} // verus!
