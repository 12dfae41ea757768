//! Hierarchical (Sugiyama-style) layout engine for directed graphs: the
//! combinatorial phases — validation, cycle breaking, rank assignment,
//! dummy-node insertion and crossing reduction — with their contracts, the
//! laws that tie them together, and the logic of the batched
//! foreign-language entry point.
pub mod types;
pub mod validate;
pub mod cycles;
pub mod ranks;
pub mod dummy_nodes;
pub mod crossings;
pub mod messages;
pub mod ffi;
pub mod crossing_laws;
pub mod binary32;
pub mod crossing_symmetry;

pub use types::{
    NodeId, RankId, NodeType, LayoutNode, LayoutEdge, LayoutGraph, RankSystem, LayoutError,
    LayoutDirection, EdgeChain, RoutingStyle, CoordAlgorithm,
};
pub use validate::validate_graph;
pub use cycles::break_cycles;
pub use ranks::{assign_ranks, LayoutPipeline};
pub use dummy_nodes::insert_dummy_nodes;
pub use crossings::{order_layers, count_total_crossings};
