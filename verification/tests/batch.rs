use layout::ffi::{
    plan_segments, report_positions, run_phases, run_pipeline, FfiAlgorithm, FfiDirection, FfiEdge,
    FfiLayoutError, FfiNode, FfiRoutingStyle, SegmentPlan,
};
use layout::messages::decimal;
use layout::{
    CoordAlgorithm, LayoutDirection, LayoutEdge, LayoutError, LayoutGraph, LayoutNode, NodeType,
    RoutingStyle,
};

fn ffi_node(id: u64) -> FfiNode {
    FfiNode { id, width: 40.0f32.to_bits(), height: 20.0f32.to_bits() }
}

fn ffi_edge(from: u64, to: u64) -> FfiEdge {
    FfiEdge { from, to, label_width: None, label_height: None }
}

fn invalid_message(e: FfiLayoutError) -> String {
    match e {
        FfiLayoutError::InvalidGraph(m) => m,
        FfiLayoutError::Internal(m) => panic!("expected an invalid-graph error, got internal: {m}"),
    }
}

#[test]
fn pipeline_translates_ids_and_extracts_self_loops() {
    let nodes = vec![ffi_node(100), ffi_node(200), ffi_node(300)];
    let edges = vec![ffi_edge(100, 200), ffi_edge(200, 300), ffi_edge(100, 100)];
    let st = run_pipeline(&nodes, &edges, 4).unwrap();
    assert_eq!(st.external_ids, vec![100, 200, 300]);
    assert_eq!(st.self_loops.len(), 1);
    assert_eq!(st.self_loops[0].from, 100);
    assert_eq!(st.self_loops[0].to, 100);
    // One chain per input edge; the self-loop's chain comes last.
    assert_eq!(st.chains.len(), 3);
    let last = &st.chains[2];
    assert!(last.is_self_loop);
    assert_eq!(last.source, 0);
    assert_eq!(last.target, 0);
    assert_eq!(last.chain, vec![0]);
    // Ranks follow the chain 100 -> 200 -> 300.
    assert_eq!(st.graph.nodes[0].rank, Some(0));
    assert_eq!(st.graph.nodes[1].rank, Some(1));
    assert_eq!(st.graph.nodes[2].rank, Some(2));
    assert_eq!(st.graph.nodes.len(), 3);
    for (i, n) in st.graph.nodes.iter().enumerate() {
        assert_eq!(n.id, i);
        assert_eq!(n.node_type, NodeType::Normal);
    }
}

#[test]
fn pipeline_rejects_duplicate_node_id() {
    let nodes = vec![ffi_node(7), ffi_node(8), ffi_node(7)];
    let edges = vec![ffi_edge(7, 8)];
    let err = run_pipeline(&nodes, &edges, 4).err().unwrap();
    assert_eq!(invalid_message(err), "duplicate node id 7");
}

#[test]
fn pipeline_rejects_unknown_endpoint_source_first() {
    let nodes = vec![ffi_node(1), ffi_node(2)];
    let edges = vec![ffi_edge(1, 2), ffi_edge(9, 5)];
    let err = run_pipeline(&nodes, &edges, 4).err().unwrap();
    assert_eq!(invalid_message(err), "edge references unknown node id 9");
    let edges = vec![ffi_edge(2, 42)];
    let err = run_pipeline(&nodes, &edges, 4).err().unwrap();
    assert_eq!(invalid_message(err), "edge references unknown node id 42");
}

#[test]
fn pipeline_reports_duplicates_before_unknown_endpoints() {
    let nodes = vec![ffi_node(3), ffi_node(3)];
    let edges = vec![ffi_edge(3, 99)];
    let err = run_pipeline(&nodes, &edges, 4).err().unwrap();
    assert_eq!(invalid_message(err), "duplicate node id 3");
}

#[test]
fn pipeline_breaks_cycles_and_inserts_dummies() {
    // 1 -> 2 -> 3 -> 1 is a cycle, and 1 -> 3 may span two ranks.
    let nodes = vec![ffi_node(1), ffi_node(2), ffi_node(3)];
    let edges = vec![ffi_edge(1, 2), ffi_edge(2, 3), ffi_edge(3, 1), ffi_edge(1, 3)];
    let st = run_pipeline(&nodes, &edges, 2).unwrap();
    assert_eq!(st.chains.len(), 4);
    assert!(st.self_loops.is_empty());
    // Every edge now joins adjacent ranks, going down.
    for e in &st.graph.edges {
        let rf = st.graph.nodes[e.from].rank.unwrap();
        let rt = st.graph.nodes[e.to].rank.unwrap();
        assert_eq!(rt, rf + 1);
    }
    // Dummies come after the caller's nodes.
    for n in &st.graph.nodes[3..] {
        assert_eq!(n.node_type, NodeType::Dummy);
    }
}

#[test]
fn self_loop_label_needs_both_dimensions() {
    let nodes = vec![ffi_node(5)];
    let edges = vec![
        FfiEdge { from: 5, to: 5, label_width: Some(3), label_height: None },
        FfiEdge { from: 5, to: 5, label_width: Some(3), label_height: Some(4) },
    ];
    let st = run_pipeline(&nodes, &edges, 1).unwrap();
    assert_eq!(st.self_loops.len(), 2);
    assert_eq!(st.self_loops[0].label_width, None);
    assert_eq!(st.self_loops[0].label_height, None);
    assert_eq!(st.self_loops[1].label_width, Some(3));
    assert_eq!(st.self_loops[1].label_height, Some(4));
    assert_eq!(st.chains[0].label_size, None);
    assert_eq!(st.chains[1].label_size, Some((3, 4)));
}

#[test]
fn phases_succeed_on_a_well_formed_graph() {
    let mut graph = LayoutGraph::default();
    for _ in 0..4 {
        graph.add_node(LayoutNode::default());
    }
    graph.edges.push(LayoutEdge { from: 0, to: 3, reversed: false, label_size: None });
    graph.edges.push(LayoutEdge { from: 3, to: 0, reversed: false, label_size: None });
    graph.edges.push(LayoutEdge { from: 1, to: 2, reversed: false, label_size: None });
    let (ranks, chains) = run_phases(&mut graph, 3).unwrap();
    assert_eq!(chains.len(), 3);
    assert!(!ranks.layers.is_empty());
}

#[test]
fn positions_skip_dummy_nodes() {
    let mut nodes = vec![LayoutNode::default(), LayoutNode::default(), LayoutNode::default()];
    nodes[0].id = 0;
    nodes[0].x = 1.5f32.to_bits();
    nodes[1].id = 1;
    nodes[1].y = 2.5f32.to_bits();
    nodes[2].id = 2;
    nodes[2].node_type = NodeType::Dummy;
    let positions = report_positions(&nodes, &vec![10, 20]);
    assert_eq!(positions.len(), 2);
    assert_eq!(positions[0].id, 10);
    assert_eq!(f32::from_bits(positions[0].x), 1.5);
    assert_eq!(positions[1].id, 20);
    assert_eq!(f32::from_bits(positions[1].y), 2.5);
}

#[test]
fn bezier_waypoints_pack_cubic_curves() {
    let plan = plan_segments(7, FfiRoutingStyle::Bezier);
    assert_eq!(
        plan,
        vec![
            SegmentPlan::CubicCurve { start: 0, control1: 1, control2: 2, end: 3 },
            SegmentPlan::CubicCurve { start: 3, control1: 4, control2: 5, end: 6 },
        ]
    );
}

#[test]
fn unpacked_waypoints_become_lines() {
    assert_eq!(plan_segments(2, FfiRoutingStyle::Bezier), vec![SegmentPlan::Line { start: 0, end: 1 }]);
    assert_eq!(
        plan_segments(3, FfiRoutingStyle::Bezier),
        vec![SegmentPlan::Line { start: 0, end: 1 }, SegmentPlan::Line { start: 1, end: 2 }]
    );
    assert_eq!(plan_segments(4, FfiRoutingStyle::Orthogonal).len(), 3);
    assert_eq!(plan_segments(4, FfiRoutingStyle::Straight).len(), 3);
    assert!(plan_segments(1, FfiRoutingStyle::Straight).is_empty());
    assert!(plan_segments(0, FfiRoutingStyle::Bezier).is_empty());
}

#[test]
fn ffi_enums_convert() {
    assert_eq!(CoordAlgorithm::from(FfiAlgorithm::MedianRelax), CoordAlgorithm::MedianRelax);
    assert_eq!(CoordAlgorithm::from(FfiAlgorithm::BrandesKopf), CoordAlgorithm::BrandesKopf);
    assert_eq!(RoutingStyle::from(FfiRoutingStyle::Straight), RoutingStyle::Straight);
    assert_eq!(RoutingStyle::from(FfiRoutingStyle::Orthogonal), RoutingStyle::Orthogonal);
    assert_eq!(RoutingStyle::from(FfiRoutingStyle::Bezier), RoutingStyle::Bezier);
    assert_eq!(LayoutDirection::from(FfiDirection::TopToBottom), LayoutDirection::TopToBottom);
    assert_eq!(LayoutDirection::from(FfiDirection::LeftToRight), LayoutDirection::LeftToRight);
}

#[test]
fn error_messages() {
    assert_eq!(LayoutError::CyclicGraph.to_string(), "graph contains a cycle");
    assert_eq!(
        LayoutError::InvalidNodeId { index: 2, id: 15 }.to_string(),
        "node at index 2 has id 15; ids must match their position in `nodes` (use LayoutGraph::add_node)"
    );
    assert_eq!(
        LayoutError::DanglingEdge { from: 0, to: 9 }.to_string(),
        "edge (0 -> 9) references a node id that doesn't exist"
    );
    assert_eq!(
        LayoutError::SelfLoop(4).to_string(),
        "node 4 has a self-loop edge; remove it with LayoutGraph::extract_self_loops before ranking"
    );
    assert_eq!(
        LayoutError::MissingRank(31).to_string(),
        "node 31 has no rank assigned; call assign_ranks before this phase"
    );
    let e = FfiLayoutError::from_layout_error(LayoutError::CyclicGraph);
    assert_eq!(e.to_string(), "invalid graph: graph contains a cycle");
    assert_eq!(
        FfiLayoutError::Internal("boom".to_string()).to_string(),
        "internal layout engine error: boom"
    );
}

#[test]
fn decimal_notation() {
    assert_eq!(decimal(0), "0");
    assert_eq!(decimal(7), "7");
    assert_eq!(decimal(10), "10");
    assert_eq!(decimal(1234567890), "1234567890");
    assert_eq!(decimal(u64::MAX), "18446744073709551615");
}

#[test]
fn pipeline_leaves_orders_equal_to_positions() {
    let nodes: Vec<FfiNode> = (1..=6).map(ffi_node).collect();
    let edges = vec![
        ffi_edge(1, 4),
        ffi_edge(2, 3),
        ffi_edge(1, 6),
        ffi_edge(3, 5),
        ffi_edge(6, 2),
        ffi_edge(5, 1),
    ];
    let st = run_pipeline(&nodes, &edges, 4).unwrap();
    let mut seen = vec![0usize; st.graph.nodes.len()];
    for (r, layer) in st.ranks.layers.iter().enumerate() {
        for (p, &id) in layer.iter().enumerate() {
            assert_eq!(st.graph.nodes[id].order, Some(p));
            assert_eq!(st.graph.nodes[id].rank, Some(r));
            seen[id] += 1;
        }
    }
    assert!(seen.iter().all(|&c| c == 1), "every node is listed exactly once");
}

#[test]
fn pipeline_result_can_be_counted() {
    let nodes: Vec<FfiNode> = (0..6).map(ffi_node).collect();
    // Two sources wired crosswise to two sinks through a long edge.
    let edges = vec![ffi_edge(0, 3), ffi_edge(1, 2), ffi_edge(0, 5), ffi_edge(2, 4), ffi_edge(3, 4)];
    let st = run_pipeline(&nodes, &edges, 4).unwrap();
    let crossings = layout::count_total_crossings(&st.graph, &st.ranks);
    assert_eq!(crossings, 0);
}

#[test]
fn pipeline_is_deterministic() {
    let nodes: Vec<FfiNode> = (10..18).map(ffi_node).collect();
    let edges = vec![
        ffi_edge(10, 13),
        ffi_edge(11, 12),
        ffi_edge(13, 10),
        ffi_edge(12, 17),
        ffi_edge(14, 14),
        ffi_edge(15, 11),
        ffi_edge(16, 10),
        ffi_edge(17, 15),
    ];
    let first = run_pipeline(&nodes, &edges, 4).unwrap();
    let second = run_pipeline(&nodes, &edges, 4).unwrap();
    assert_eq!(format!("{:?}", first.graph), format!("{:?}", second.graph));
    assert_eq!(format!("{:?}", first.ranks), format!("{:?}", second.ranks));
    assert_eq!(format!("{:?}", first.chains), format!("{:?}", second.chains));
    assert_eq!(format!("{:?}", first.self_loops), format!("{:?}", second.self_loops));
}

#[test]
fn ffi_layout_pipeline_produces_valid_result() {
    // The library side of the batched call: the combinatorial phases, the
    // positions reported back and the segment plans of the routes. The
    // coordinates, routes and bounds themselves are floating point.
    let nodes = vec![ffi_node(100), ffi_node(200), ffi_node(300)];
    let edges = vec![ffi_edge(100, 200), ffi_edge(200, 300), ffi_edge(100, 100)];
    let st = run_pipeline(&nodes, &edges, 4).unwrap();

    let positions = report_positions(&st.graph.nodes, &st.external_ids);
    assert_eq!(positions.len(), 3);
    let ids: Vec<u64> = positions.iter().map(|p| p.id).collect();
    assert_eq!(ids, vec![100, 200, 300]);

    assert_eq!(st.self_loops.len(), 1);
    assert_eq!(st.self_loops[0].from, 100);

    // The self-loop has a chain of its own, and it maps back to 100 -> 100.
    let self_loop_chain = st.chains.iter().find(|c| c.is_self_loop);
    assert!(self_loop_chain.is_some());
    let c = self_loop_chain.unwrap();
    assert_eq!(st.external_ids[c.source], 100);
    assert_eq!(st.external_ids[c.target], 100);

    // Every route (a chain's waypoints, at least two) gets segments.
    for c in &st.chains {
        let waypoints = (c.chain.len() + 1).max(2);
        assert!(!plan_segments(waypoints, FfiRoutingStyle::Bezier).is_empty());
    }
}
