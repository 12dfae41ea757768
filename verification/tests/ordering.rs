use layout::{
    count_total_crossings, order_layers, LayoutEdge, LayoutError, LayoutGraph, LayoutNode, NodeId,
    NodeType, RankSystem,
};

fn node(id: NodeId) -> LayoutNode {
    LayoutNode {
        id,
        node_type: NodeType::Normal,
        width: 20.0f32.to_bits(),
        height: 20.0f32.to_bits(),
        x: 0.0f32.to_bits(),
        y: 0.0f32.to_bits(),
        rank: None,
        order: None,
    }
}

fn edge(from: NodeId, to: NodeId) -> LayoutEdge {
    LayoutEdge { from, to, reversed: false, label_size: None }
}

/// Sets each node's rank and order from the layers.
fn place(graph: &mut LayoutGraph, ranks: &RankSystem) {
    for (r, layer) in ranks.layers.iter().enumerate() {
        for (pos, &id) in layer.iter().enumerate() {
            graph.nodes[id].rank = Some(r);
            graph.nodes[id].order = Some(pos);
        }
    }
}

#[test]
fn barycenter_sweeps_reduce_crossings() {
    let mut graph = LayoutGraph {
        nodes: vec![node(0), node(1), node(2), node(3)],
        edges: vec![edge(0, 3), edge(1, 2)],
    };
    graph.nodes[0].rank = Some(0);
    graph.nodes[1].rank = Some(0);
    graph.nodes[2].rank = Some(1);
    graph.nodes[3].rank = Some(1);
    let mut ranks = RankSystem { layers: vec![vec![0, 1], vec![2, 3]] };
    for layer in &ranks.layers {
        for (pos, &id) in layer.iter().enumerate() {
            graph.nodes[id].order = Some(pos);
        }
    }
    let before = count_total_crossings(&graph, &ranks);
    order_layers(&mut graph, &mut ranks, 4).unwrap();
    let after = count_total_crossings(&graph, &ranks);
    assert!(before >= 1, "test setup should start with a crossing");
    assert_eq!(after, 0, "transpose pass should fully untangle a simple X");
}

#[test]
fn no_crossings_unchanged() {
    let mut graph = LayoutGraph {
        nodes: vec![node(0), node(1), node(2), node(3)],
        edges: vec![edge(0, 2), edge(1, 3)],
    };
    graph.nodes[0].rank = Some(0);
    graph.nodes[1].rank = Some(0);
    graph.nodes[2].rank = Some(1);
    graph.nodes[3].rank = Some(1);
    let mut ranks = RankSystem { layers: vec![vec![0, 1], vec![2, 3]] };
    for layer in &ranks.layers {
        for (pos, &id) in layer.iter().enumerate() {
            graph.nodes[id].order = Some(pos);
        }
    }
    let before = count_total_crossings(&graph, &ranks);
    order_layers(&mut graph, &mut ranks, 4).unwrap();
    let after = count_total_crossings(&graph, &ranks);
    assert_eq!(before, 0);
    assert_eq!(after, 0);
}

#[test]
fn single_node_per_layer_unchanged() {
    let mut graph = LayoutGraph { nodes: vec![node(0), node(1)], edges: vec![edge(0, 1)] };
    graph.nodes[0].rank = Some(0);
    graph.nodes[1].rank = Some(1);
    let mut ranks = RankSystem { layers: vec![vec![0], vec![1]] };
    for layer in &ranks.layers {
        for (pos, &id) in layer.iter().enumerate() {
            graph.nodes[id].order = Some(pos);
        }
    }
    order_layers(&mut graph, &mut ranks, 4).unwrap();
    assert_eq!(count_total_crossings(&graph, &ranks), 0);
}

#[test]
fn crossing_count_of_a_full_bipartite_reversal() {
    // Three sources wired to three targets in reverse: every pair crosses.
    let mut graph = LayoutGraph {
        nodes: (0..6).map(node).collect(),
        edges: vec![edge(0, 5), edge(1, 4), edge(2, 3)],
    };
    let ranks = RankSystem { layers: vec![vec![0, 1, 2], vec![3, 4, 5]] };
    place(&mut graph, &ranks);
    assert_eq!(count_total_crossings(&graph, &ranks), 3);
}

#[test]
fn crossing_count_ignores_edges_leaving_the_last_layer_and_single_layers() {
    let mut graph = LayoutGraph { nodes: vec![node(0), node(1)], edges: vec![edge(0, 1)] };
    let ranks = RankSystem { layers: vec![vec![0, 1]] };
    place(&mut graph, &ranks);
    assert_eq!(count_total_crossings(&graph, &ranks), 0);
    let empty = RankSystem { layers: vec![] };
    assert_eq!(count_total_crossings(&graph, &empty), 0);
}

#[test]
fn ordering_untangles_a_reversed_bipartite_graph() {
    let mut graph = LayoutGraph {
        nodes: (0..6).map(node).collect(),
        edges: vec![edge(0, 5), edge(1, 4), edge(2, 3)],
    };
    let mut ranks = RankSystem { layers: vec![vec![0, 1, 2], vec![3, 4, 5]] };
    place(&mut graph, &ranks);
    order_layers(&mut graph, &mut ranks, 4).unwrap();
    assert_eq!(count_total_crossings(&graph, &ranks), 0);
    // Every layer keeps the same nodes, and each node's order is its position.
    let mut upper = ranks.layers[0].clone();
    upper.sort();
    assert_eq!(upper, vec![0, 1, 2]);
    let mut lower = ranks.layers[1].clone();
    lower.sort();
    assert_eq!(lower, vec![3, 4, 5]);
    for layer in &ranks.layers {
        for (pos, &id) in layer.iter().enumerate() {
            assert_eq!(graph.nodes[id].order, Some(pos));
        }
    }
}

#[test]
fn downward_sweep_sorts_by_barycenter() {
    // Upper layer [0, 1]; node 2 hangs under 1, node 3 under 0.
    // One downward sweep puts 3 (barycenter 0) before 2 (barycenter 1).
    let mut graph = LayoutGraph {
        nodes: (0..4).map(node).collect(),
        edges: vec![edge(1, 2), edge(0, 3)],
    };
    let mut ranks = RankSystem { layers: vec![vec![0, 1], vec![2, 3]] };
    place(&mut graph, &ranks);
    order_layers(&mut graph, &mut ranks, 1).unwrap();
    assert_eq!(ranks.layers, vec![vec![0, 1], vec![3, 2]]);
    assert_eq!(graph.nodes[3].order, Some(0));
    assert_eq!(graph.nodes[2].order, Some(1));
}

#[test]
fn zero_sweeps_change_nothing() {
    let mut graph = LayoutGraph {
        nodes: (0..4).map(node).collect(),
        edges: vec![edge(0, 3), edge(1, 2)],
    };
    let mut ranks = RankSystem { layers: vec![vec![0, 1], vec![2, 3]] };
    place(&mut graph, &ranks);
    order_layers(&mut graph, &mut ranks, 0).unwrap();
    assert_eq!(ranks.layers, vec![vec![0, 1], vec![2, 3]]);
    assert_eq!(count_total_crossings(&graph, &ranks), 1);
}

#[test]
fn ordering_reports_dangling_edge() {
    let mut graph = LayoutGraph { nodes: vec![node(0)], edges: vec![edge(0, 7)] };
    graph.nodes[0].rank = Some(0);
    let mut ranks = RankSystem { layers: vec![vec![0]] };
    assert_eq!(
        order_layers(&mut graph, &mut ranks, 2),
        Err(LayoutError::DanglingEdge { from: 0, to: 7 })
    );
}

#[test]
fn ordering_reports_missing_rank() {
    let mut graph = LayoutGraph { nodes: vec![node(0), node(1)], edges: vec![edge(0, 1)] };
    graph.nodes[0].rank = Some(0);
    let mut ranks = RankSystem { layers: vec![vec![0]] };
    assert_eq!(order_layers(&mut graph, &mut ranks, 2), Err(LayoutError::MissingRank(1)));
}

#[test]
fn lone_unknown_id_in_first_layer_is_left_in_place() {
    // One sweep never reads the first layer, and a one-entry layer has
    // nothing to transpose.
    let mut graph = LayoutGraph { nodes: vec![], edges: vec![] };
    let mut ranks = RankSystem { layers: vec![vec![99]] };
    assert_eq!(order_layers(&mut graph, &mut ranks, 1), Ok(()));
    assert_eq!(ranks.layers, vec![vec![99]]);

    let mut graph = LayoutGraph { nodes: vec![node(0), node(1)], edges: vec![edge(0, 1)] };
    graph.nodes[0].rank = Some(1);
    graph.nodes[1].rank = Some(2);
    let mut ranks = RankSystem { layers: vec![vec![99], vec![0], vec![1]] };
    place(&mut graph, &RankSystem { layers: vec![vec![], vec![0], vec![1]] });
    assert_eq!(order_layers(&mut graph, &mut ranks, 1), Ok(()));
    assert_eq!(ranks.layers, vec![vec![99], vec![0], vec![1]]);
    assert_eq!(graph.nodes[0].order, Some(0));
}

/// A layering with crossings: two layers of three, edges wired crosswise.
fn crossed() -> (LayoutGraph, RankSystem) {
    let mut graph = LayoutGraph {
        nodes: (0..6).map(node).collect(),
        edges: vec![edge(0, 5), edge(1, 3), edge(2, 4), edge(0, 4)],
    };
    let ranks = RankSystem { layers: vec![vec![0, 1, 2], vec![3, 4, 5]] };
    place(&mut graph, &ranks);
    (graph, ranks)
}

#[test]
fn crossing_count_ignores_layer_direction_and_edge_order() {
    let (graph, ranks) = crossed();
    let count = count_total_crossings(&graph, &ranks);
    assert_eq!(count, 3);
    let reversed = RankSystem {
        layers: ranks.layers.iter().map(|l| l.iter().rev().copied().collect()).collect(),
    };
    assert_eq!(count_total_crossings(&graph, &reversed), count);
    let mut permuted = graph.clone();
    permuted.edges.reverse();
    permuted.edges.swap(0, 2);
    assert_eq!(count_total_crossings(&permuted, &ranks), count);
}

#[test]
fn transpose_pass_never_raises_the_crossing_count() {
    let (mut graph, mut ranks) = crossed();
    let before = count_total_crossings(&graph, &ranks);
    let mut up: Vec<Vec<NodeId>> = vec![Vec::new(); 6];
    let mut down: Vec<Vec<NodeId>> = vec![Vec::new(); 6];
    for e in &graph.edges {
        down[e.from].push(e.to);
        up[e.to].push(e.from);
    }
    layout::crossings::transpose_pass(&mut graph, &mut ranks, &up, &down);
    let after = count_total_crossings(&graph, &ranks);
    assert!(after < before, "{after} < {before}");
    for layer in &ranks.layers {
        for (p, &v) in layer.iter().enumerate() {
            assert_eq!(graph.nodes[v].order, Some(p));
        }
    }
}
