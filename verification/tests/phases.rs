use layout::{
    assign_ranks, break_cycles, insert_dummy_nodes, validate_graph, LayoutEdge, LayoutError,
    LayoutGraph, LayoutNode, NodeId, NodeType, RankSystem,
};
use layout::ranks::LayoutPipeline;

fn node(id: NodeId) -> LayoutNode {
    LayoutNode {
        id,
        node_type: NodeType::Normal,
        width: 20.0f32.to_bits(),
        height: 20.0f32.to_bits(),
        x: 0.0f32.to_bits(),
        y: 0.0f32.to_bits(),
        rank: None,
        order: None,
    }
}

fn edge(from: NodeId, to: NodeId) -> LayoutEdge {
    LayoutEdge { from, to, reversed: false, label_size: None }
}

// ---- validation ----

#[test]
fn valid_graph_passes_validation() {
    let graph = LayoutGraph { nodes: vec![node(0), node(1)], edges: vec![edge(0, 1)] };
    assert!(validate_graph(&graph).is_ok());
}

#[test]
fn invalid_edge_endpoint_fails_validation() {
    let graph = LayoutGraph { nodes: vec![node(0)], edges: vec![edge(0, 5)] };
    assert!(validate_graph(&graph).is_err());
}

#[test]
fn self_loop_fails_validation_with_specific_error() {
    let graph = LayoutGraph { nodes: vec![node(0), node(1)], edges: vec![edge(0, 1), edge(1, 1)] };
    match validate_graph(&graph) {
        Err(LayoutError::SelfLoop(id)) => assert_eq!(id, 1),
        other => panic!("expected LayoutError::SelfLoop(1), got {other:?}"),
    }
}

#[test]
fn extract_self_loops_removes_them_and_leaves_graph_valid() {
    let mut graph = LayoutGraph { nodes: vec![node(0), node(1)], edges: vec![edge(0, 1), edge(1, 1)] };
    let loops = graph.extract_self_loops();
    assert_eq!(loops.len(), 1);
    assert_eq!(loops[0].from, 1);
    assert!(validate_graph(&graph).is_ok());
}

#[test]
fn add_node_assigns_dense_ids() {
    let mut graph = LayoutGraph::default();
    let a = graph.add_node(node(999));
    let b = graph.add_node(node(0));
    assert_eq!(a, 0);
    assert_eq!(b, 1);
    assert!(validate_graph(&graph).is_ok());
}

// ---- cycle breaking ----

#[test]
fn acyclic_graph_unchanged() {
    let mut graph = LayoutGraph { nodes: vec![node(0), node(1), node(2)], edges: vec![edge(0, 1), edge(1, 2)] };
    let reversed = break_cycles(&mut graph);
    assert!(reversed.is_empty());
    assert_eq!(graph.edges[0].from, 0);
    assert_eq!(graph.edges[0].to, 1);
    assert!(!graph.edges[0].reversed);
}

#[test]
fn simple_cycle_is_broken() {
    let mut graph = LayoutGraph {
        nodes: vec![node(0), node(1), node(2)],
        edges: vec![edge(0, 1), edge(1, 2), edge(2, 0)],
    };
    let reversed = break_cycles(&mut graph);
    assert_eq!(reversed.len(), 1);
    let reversed_count = graph.edges.iter().filter(|e| e.reversed).count();
    assert_eq!(reversed_count, 1);
}

#[test]
fn diamond_graph_unchanged() {
    let mut graph = LayoutGraph {
        nodes: vec![node(0), node(1), node(2), node(3)],
        edges: vec![edge(0, 1), edge(0, 2), edge(1, 3), edge(2, 3)],
    };
    let reversed = break_cycles(&mut graph);
    assert!(reversed.is_empty());
}

// ---- rank assignment ----

#[test]
fn diamond_graph_ranks_correctly_regardless_of_storage_order() {
    let mut graph = LayoutGraph {
        nodes: vec![node(0), node(3), node(1), node(2)],
        edges: vec![edge(0, 1), edge(0, 2), edge(1, 3), edge(2, 3)],
    };
    graph.nodes.sort_by_key(|n| n.id);
    let ranks = LayoutPipeline::assign_ranks(&mut graph).unwrap();
    assert_eq!(graph.nodes[0].rank, Some(0));
    assert_eq!(graph.nodes[1].rank, Some(1));
    assert_eq!(graph.nodes[2].rank, Some(1));
    assert_eq!(graph.nodes[3].rank, Some(2));
    assert_eq!(ranks.layers.len(), 3);
}

#[test]
fn cyclic_graph_is_rejected() {
    let mut graph = LayoutGraph {
        nodes: vec![node(0), node(1), node(2)],
        edges: vec![edge(0, 1), edge(1, 2), edge(2, 0)],
    };
    let result = LayoutPipeline::assign_ranks(&mut graph);
    assert_eq!(result.unwrap_err(), LayoutError::CyclicGraph);
}

#[test]
fn linear_chain_ranks_correctly() {
    let mut graph = LayoutGraph {
        nodes: vec![node(0), node(1), node(2), node(3)],
        edges: vec![edge(0, 1), edge(1, 2), edge(2, 3)],
    };
    let ranks = LayoutPipeline::assign_ranks(&mut graph).unwrap();
    assert_eq!(graph.nodes[0].rank, Some(0));
    assert_eq!(graph.nodes[1].rank, Some(1));
    assert_eq!(graph.nodes[2].rank, Some(2));
    assert_eq!(graph.nodes[3].rank, Some(3));
    assert_eq!(ranks.layers.len(), 4);
}

// ---- dummy node insertion ----

#[test]
fn short_edge_unchanged() {
    let mut graph = LayoutGraph { nodes: vec![node(0), node(1)], edges: vec![edge(0, 1)] };
    let mut ranks = RankSystem { layers: vec![vec![0], vec![1]] };
    graph.nodes[0].rank = Some(0);
    graph.nodes[1].rank = Some(1);
    let chains = insert_dummy_nodes(&mut graph, &mut ranks).unwrap();
    assert_eq!(chains.len(), 1);
    assert_eq!(chains[0].chain, vec![0, 1]);
    assert_eq!(graph.edges.len(), 1);
    assert_eq!(graph.nodes.len(), 2);
}

#[test]
fn long_edge_gets_dummies() {
    let mut graph = LayoutGraph { nodes: vec![node(0), node(1)], edges: vec![edge(0, 1)] };
    let mut ranks = RankSystem { layers: vec![vec![0], vec![], vec![], vec![1]] };
    graph.nodes[0].rank = Some(0);
    graph.nodes[1].rank = Some(3);
    let chains = insert_dummy_nodes(&mut graph, &mut ranks).unwrap();
    assert_eq!(chains.len(), 1);
    assert_eq!(chains[0].chain.len(), 4);
    assert_eq!(chains[0].chain[0], 0);
    assert_eq!(chains[0].chain[3], 1);
    assert_eq!(graph.edges.len(), 3);
    assert_eq!(graph.nodes.len(), 4);
}

#[test]
fn mixed_short_and_long_edges() {
    let mut graph = LayoutGraph {
        nodes: vec![node(0), node(1), node(2), node(3)],
        edges: vec![edge(0, 1), edge(0, 3)],
    };
    let mut ranks = RankSystem { layers: vec![vec![0], vec![1], vec![], vec![3]] };
    graph.nodes[0].rank = Some(0);
    graph.nodes[1].rank = Some(1);
    graph.nodes[3].rank = Some(3);
    let chains = insert_dummy_nodes(&mut graph, &mut ranks).unwrap();
    assert_eq!(chains.len(), 2);
    assert_eq!(chains[0].chain, vec![0, 1]);
    assert_eq!(chains[1].chain.len(), 4);
}

#[test]
fn missing_rank_returns_error_instead_of_panicking() {
    let mut graph = LayoutGraph { nodes: vec![node(0), node(1)], edges: vec![edge(0, 1)] };
    let mut ranks = RankSystem { layers: vec![] };
    match insert_dummy_nodes(&mut graph, &mut ranks) {
        Err(LayoutError::MissingRank(_)) => {}
        other => panic!("expected LayoutError::MissingRank, got {other:?}"),
    }
}

#[test]
fn sources_stay_on_the_lowest_rank() {
    // 0 -> 1 <- 2: both sources sit on rank 0, the sink on rank 1.
    let mut graph = LayoutGraph { nodes: vec![node(0), node(1), node(2)], edges: vec![edge(0, 1), edge(2, 1)] };
    let ranks = assign_ranks(&mut graph).unwrap();
    assert_eq!(graph.nodes[0].rank, Some(0));
    assert_eq!(graph.nodes[1].rank, Some(1));
    assert_eq!(graph.nodes[2].rank, Some(0));
    assert_eq!(ranks.layers, vec![vec![0, 2], vec![1]]);
    assert_eq!(graph.nodes[2].order, Some(1));
}

#[test]
fn ranking_reports_validation_errors_first() {
    let mut graph = LayoutGraph { nodes: vec![node(0), node(7)], edges: vec![edge(0, 1)] };
    assert_eq!(assign_ranks(&mut graph).unwrap_err(), LayoutError::InvalidNodeId { index: 1, id: 7 });
    let mut graph = LayoutGraph { nodes: vec![node(0), node(1)], edges: vec![edge(0, 1), edge(1, 1)] };
    assert_eq!(assign_ranks(&mut graph).unwrap_err(), LayoutError::SelfLoop(1));
    assert!(graph.nodes.iter().all(|n| n.rank.is_none()), "a failed ranking leaves the graph unchanged");
}

#[test]
fn validation_reports_dangling_edge() {
    let graph = LayoutGraph { nodes: vec![node(0)], edges: vec![edge(0, 1)] };
    assert_eq!(validate_graph(&graph), Err(LayoutError::DanglingEdge { from: 0, to: 1 }));
}

#[test]
fn reversed_edges_point_backwards_along_a_cycle() {
    let mut graph = LayoutGraph {
        nodes: vec![node(0), node(1), node(2)],
        edges: vec![edge(0, 1), edge(1, 2), edge(2, 0)],
    };
    let reversed = break_cycles(&mut graph);
    assert_eq!(reversed, vec![2]);
    assert_eq!(graph.edges[2].from, 0);
    assert_eq!(graph.edges[2].to, 2);
    assert!(graph.edges[2].reversed);
    // The graph is now rankable.
    assert!(assign_ranks(&mut graph).is_ok());
}

#[test]
fn dummy_chain_records_original_direction_of_reversed_edge() {
    let mut graph = LayoutGraph { nodes: vec![node(0), node(1)], edges: vec![edge(0, 1)] };
    graph.edges[0].reversed = true;
    let mut ranks = RankSystem { layers: vec![vec![0], vec![], vec![1]] };
    graph.nodes[0].rank = Some(0);
    graph.nodes[1].rank = Some(2);
    let chains = insert_dummy_nodes(&mut graph, &mut ranks).unwrap();
    assert_eq!(chains[0].source, 1);
    assert_eq!(chains[0].target, 0);
    assert!(chains[0].reversed);
    assert_eq!(chains[0].chain, vec![0, 2, 1]);
    assert_eq!(graph.nodes[2].node_type, NodeType::Dummy);
    assert_eq!(graph.nodes[2].rank, Some(1));
    assert_eq!(ranks.layers[1], vec![2]);
    assert_eq!(graph.nodes[2].order, Some(0));
}

#[test]
fn self_loop_survives_cycle_breaking_unchanged() {
    let mut graph = LayoutGraph { nodes: vec![node(0)], edges: vec![edge(0, 0)] };
    let reversed = break_cycles(&mut graph);
    assert!(reversed.is_empty());
    assert_eq!(graph.edges[0].from, 0);
    assert_eq!(graph.edges[0].to, 0);
    assert!(!graph.edges[0].reversed);
}

#[test]
fn self_loop_beside_a_cycle_is_left_alone() {
    let mut graph = LayoutGraph {
        nodes: vec![node(0), node(1)],
        edges: vec![edge(0, 1), edge(1, 1), edge(1, 0)],
    };
    let reversed = break_cycles(&mut graph);
    assert_eq!(reversed, vec![2]);
    assert!(!graph.edges[1].reversed);
    assert_eq!((graph.edges[1].from, graph.edges[1].to), (1, 1));
    assert!(graph.edges[2].reversed);
    assert_eq!((graph.edges[2].from, graph.edges[2].to), (0, 1));
}

#[test]
fn dummies_take_their_own_ids_and_keep_old_layers_as_prefixes() {
    let mut graph = LayoutGraph {
        nodes: vec![node(0), node(1), node(2)],
        edges: vec![edge(0, 2), edge(0, 1)],
    };
    graph.nodes[0].rank = Some(0);
    graph.nodes[1].rank = Some(1);
    graph.nodes[2].rank = Some(3);
    graph.nodes[0].order = Some(0);
    graph.nodes[1].order = Some(0);
    graph.nodes[2].order = Some(0);
    let mut ranks = RankSystem { layers: vec![vec![0], vec![1], vec![], vec![2]] };
    insert_dummy_nodes(&mut graph, &mut ranks).unwrap();
    assert_eq!(graph.nodes.len(), 5);
    for (k, r) in [(3usize, 1usize), (4, 2)] {
        let d = &graph.nodes[k];
        assert_eq!(d.id, k);
        assert_eq!(d.node_type, NodeType::Dummy);
        assert_eq!((f32::from_bits(d.width), f32::from_bits(d.height)), (0.0, 0.0));
        assert_eq!(d.rank, Some(r));
        assert!(ranks.layers[r].contains(&k));
    }
    assert_eq!(ranks.layers, vec![vec![0], vec![1, 3], vec![4], vec![2]]);
    for (r, layer) in ranks.layers.iter().enumerate() {
        for (p, &v) in layer.iter().enumerate() {
            assert_eq!(graph.nodes[v].order, Some(p));
            assert_eq!(graph.nodes[v].rank, Some(r));
        }
    }
}
