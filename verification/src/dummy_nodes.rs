//! Dummy Node Insertion
//!
//! Splits long edges (edges spanning several ranks) into chains of
//! single-rank edges by inserting dummy nodes, as crossing reduction only
//! handles edges between adjacent layers.
use vstd::prelude::*;
use crate::types::{
    LayoutGraph, LayoutNode, NodeType, LayoutEdge, EdgeChain, LayoutError, RankSystem, NodeId,
    ChainModel, layers_view,
};
use crate::crossings::{layers_in_range, listed_once, orders_match_positions, orders_consistent, OrderState};

verus! {

/// What insertion has built so far, edge by edge.
pub struct DummyState {
    /// The nodes, original ones followed by the dummies inserted so far.
    pub nodes: Seq<LayoutNode>,
    /// The layers, with the dummies inserted so far.
    pub layers: Seq<Seq<NodeId>>,
    /// One chain per edge processed.
    pub chains: Seq<ChainModel>,
    /// The single-rank edges that replace the processed edges.
    pub edges: Seq<LayoutEdge>,
    /// The first problem met, after which nothing changes.
    pub error: Option<LayoutError>,
}

/// A dummy waypoint node with the given id and rank.
pub open spec fn dummy_node(id: int, rank: int) -> LayoutNode {
    LayoutNode {
        id: id as usize,
        node_type: NodeType::Dummy,
        width: 0,
        height: 0,
        x: 0,
        y: 0,
        rank: Some(rank as usize),
        order: None,
    }
}

/// The rank of node `v`.
pub open spec fn rank_at(nodes: Seq<LayoutNode>, v: int) -> int {
    match nodes[v].rank {
        Some(r) => r as int,
        None => 0,
    }
}

/// `layers` after the first `i` dummies of an edge leaving rank `ra` were
/// added (ids `base`, `base + 1`, …, on ranks `ra + 1`, `ra + 2`, …); the
/// layer list is extended with empty layers where needed.
pub open spec fn layers_with_dummies(layers: Seq<Seq<NodeId>>, ra: int, i: int, base: int) -> Seq<Seq<NodeId>> {
    let len = if i > 0 && ra + 1 + i > layers.len() {
        ra + 1 + i
    } else {
        layers.len() as int
    };
    Seq::new(
        len as nat,
        |r: int|
            (if r < layers.len() {
                layers[r]
            } else {
                Seq::empty()
            }) + (if ra < r <= ra + i {
                seq![(base + r - ra - 1) as usize]
            } else {
                Seq::empty()
            }),
    )
}

/// The waypoints of a long edge from `a` to `b` through the dummies
/// `base`, …, `base + k - 1`.
pub open spec fn long_path(a: int, b: int, base: int, k: int) -> Seq<NodeId> {
    seq![a as usize] + Seq::new(k as nat, |i: int| (base + i) as usize) + seq![b as usize]
}

/// The single-rank edges between consecutive waypoints of `path`.
pub open spec fn segments(path: Seq<NodeId>) -> Seq<LayoutEdge> {
    Seq::new(
        (path.len() - 1) as nat,
        |i: int| LayoutEdge { from: path[i], to: path[i + 1], reversed: false, label_size: None },
    )
}

/// Processing one edge.
pub open spec fn dummy_step(st: DummyState, e: LayoutEdge) -> DummyState {
    let n = st.nodes.len();
    if st.error is Some {
        st
    } else if e.from >= n || e.to >= n {
        DummyState { error: Some(LayoutError::DanglingEdge { from: e.from, to: e.to }), ..st }
    } else if st.nodes[e.from as int].rank is None {
        DummyState { error: Some(LayoutError::MissingRank(e.from)), ..st }
    } else if st.nodes[e.to as int].rank is None {
        DummyState { error: Some(LayoutError::MissingRank(e.to)), ..st }
    } else {
        let ra = rank_at(st.nodes, e.from as int);
        let rb = rank_at(st.nodes, e.to as int);
        let source = if e.reversed {
            e.to
        } else {
            e.from
        };
        let target = if e.reversed {
            e.from
        } else {
            e.to
        };
        if e.from == e.to {
            DummyState {
                chains: st.chains.push(
                    ChainModel {
                        source,
                        target,
                        reversed: false,
                        is_self_loop: true,
                        label_size: e.label_size,
                        chain: seq![e.from],
                    },
                ),
                edges: st.edges.push(LayoutEdge { reversed: false, ..e }),
                ..st
            }
        } else if rb > ra + 1 {
            let k = rb - ra - 1;
            let base = n as int;
            let path = long_path(e.from as int, e.to as int, base, k);
            DummyState {
                nodes: st.nodes + Seq::new(k as nat, |i: int| dummy_node(base + i, ra + 1 + i)),
                layers: layers_with_dummies(st.layers, ra, k, base),
                chains: st.chains.push(
                    ChainModel {
                        source,
                        target,
                        reversed: e.reversed,
                        is_self_loop: false,
                        label_size: e.label_size,
                        chain: path,
                    },
                ),
                edges: st.edges + segments(path),
                error: None,
            }
        } else {
            DummyState {
                chains: st.chains.push(
                    ChainModel {
                        source,
                        target,
                        reversed: e.reversed,
                        is_self_loop: false,
                        label_size: e.label_size,
                        chain: seq![e.from, e.to],
                    },
                ),
                edges: st.edges.push(e),
                ..st
            }
        }
    }
}

/// Processing the edges in order.
pub open spec fn dummy_fold(st: DummyState, edges: Seq<LayoutEdge>) -> DummyState
    decreases edges.len(),
{
    if edges.len() == 0 {
        st
    } else {
        dummy_step(dummy_fold(st, edges.drop_last()), edges.last())
    }
}

/// The chains as models.
pub open spec fn chain_models(chains: Seq<EdgeChain>) -> Seq<ChainModel> {
    chains.map_values(|c: EdgeChain| c@)
}

/// The state held by the exec variables.
pub open spec fn current_state(
    nodes: Seq<LayoutNode>,
    layers: Seq<Vec<NodeId>>,
    chains: Seq<EdgeChain>,
    edges: Seq<LayoutEdge>,
) -> DummyState {
    DummyState {
        nodes,
        layers: layers_view(layers),
        chains: chain_models(chains),
        edges,
        error: None,
    }
}

proof fn lemma_segments_push(path: Seq<NodeId>, x: NodeId)
    requires
        path.len() >= 1,
    ensures
        segments(path.push(x)) == segments(path).push(
            LayoutEdge { from: path.last(), to: x, reversed: false, label_size: None },
        ),
{
    assert(segments(path.push(x)) =~= segments(path).push(
        LayoutEdge { from: path.last(), to: x, reversed: false, label_size: None },
    ));
}

/// Processes one edge: validates it, then records its chain and the
/// single-rank edges replacing it, inserting dummies for a long edge.
#[verifier::rlimit(40)]
fn split_edge(
    nodes: &mut Vec<LayoutNode>,
    ranks: &mut RankSystem,
    chains: &mut Vec<EdgeChain>,
    new_edges: &mut Vec<LayoutEdge>,
    edge: LayoutEdge,
) -> (result: Result<(), LayoutError>)
    ensures
        ({
            let st = current_state(old(nodes)@, old(ranks).layers@, old(chains)@, old(new_edges)@);
            let st2 = dummy_step(st, edge);
            match result {
                Err(e) => {
                    &&& st2.error == Some(e)
                    &&& final(nodes)@ == old(nodes)@
                    &&& final(ranks).layers@ == old(ranks).layers@
                }
                Ok(()) => {
                    &&& st2.error is None
                    &&& current_state(final(nodes)@, final(ranks).layers@, final(chains)@, final(new_edges)@) == st2
                }
            }
        }),
{
    let ghost st = current_state(nodes@, ranks.layers@, chains@, new_edges@);
    let n = nodes.len();
    if edge.from >= n || edge.to >= n {
        return Err(LayoutError::DanglingEdge { from: edge.from, to: edge.to });
    }
    let rank_from = match nodes[edge.from].rank {
        Some(r) => r,
        None => {
            return Err(LayoutError::MissingRank(edge.from));
        },
    };
    let rank_to = match nodes[edge.to].rank {
        Some(r) => r,
        None => {
            return Err(LayoutError::MissingRank(edge.to));
        },
    };
    let orig_source = if edge.reversed {
        edge.to
    } else {
        edge.from
    };
    let orig_target = if edge.reversed {
        edge.from
    } else {
        edge.to
    };
    let ghost chains0 = chains@;
    if edge.from == edge.to {
        let mut chain: Vec<NodeId> = Vec::new();
        chain.push(edge.from);
        chains.push(
            EdgeChain {
                source: orig_source,
                target: orig_target,
                reversed: false,
                is_self_loop: true,
                label_size: edge.label_size,
                chain,
            },
        );
        new_edges.push(LayoutEdge { from: edge.from, to: edge.to, reversed: false, label_size: edge.label_size });
        proof {
            assert(chain_models(chains@) =~= chain_models(chains0).push(chains@.last()@));
            assert(chains@.last()@.chain =~= seq![edge.from]);
        }
    } else if rank_to > rank_from && rank_to - rank_from > 1 {
        let ghost base = n as int;
        let ghost ra = rank_from as int;
        let ghost layers0 = layers_view(ranks.layers@);
        let ghost nodes0 = nodes@;
        let ghost edges0 = new_edges@;
        let mut chain: Vec<NodeId> = Vec::new();
        chain.push(edge.from);
        let mut prev = edge.from;
        proof {
            assert(nodes@ =~= nodes0 + Seq::new(0, |i: int| dummy_node(base + i, ra + 1 + i)));
            assert(layers_view(ranks.layers@) =~= layers_with_dummies(layers0, ra, 0, base));
            assert(segments(chain@) =~= Seq::<LayoutEdge>::empty());
            assert(new_edges@ =~= edges0 + segments(chain@));
            assert(chain@ =~= seq![edge.from] + Seq::new(0, |i: int| (base + i) as usize));
        }
        for r in rank_from + 1..rank_to
            invariant
                base == n,
                nodes0.len() == n,
                ra == rank_from,
                rank_from + 1 < rank_to,
                nodes@ == nodes0 + Seq::new(
                    (r - ra - 1) as nat,
                    |i: int| dummy_node(base + i, ra + 1 + i),
                ),
                layers_view(ranks.layers@) == layers_with_dummies(layers0, ra, r - ra - 1, base),
                chain@ == seq![edge.from] + Seq::new((r - ra - 1) as nat, |i: int| (base + i) as usize),
                new_edges@ == edges0 + segments(chain@),
                prev == chain@.last(),
                chains@ == chains0,
        {
            let dummy_id = nodes.len();
            let ghost i = r - ra - 1;
            let ghost nodes1 = nodes@;
            let ghost layers1 = layers_view(ranks.layers@);
            let ghost chain1 = chain@;
            let ghost ne1 = new_edges@;
            assert(dummy_id == base + i);
            nodes.push(
                LayoutNode {
                    id: dummy_id,
                    node_type: NodeType::Dummy,
                    width: 0,
                    height: 0,
                    x: 0,
                    y: 0,
                    rank: Some(r),
                    order: None,
                },
            );
            while ranks.layers.len() <= r
                invariant
                    ranks.layers@.len() == layers1.len() || ranks.layers@.len() <= r + 1,
                    forall|q: int| 0 <= q < layers1.len() ==> #[trigger] ranks.layers@[q]@ == layers1[q],
                    ranks.layers@.len() >= layers1.len(),
                    forall|q: int| layers1.len() <= q < ranks.layers@.len() ==> (#[trigger] ranks.layers@[q])@.len() == 0,
                decreases r + 1 - ranks.layers@.len(),
            {
                ranks.layers.push(Vec::new());
            }
            let ghost layers2 = ranks.layers@;
            ranks.layers[r].push(dummy_id);
            new_edges.push(LayoutEdge { from: prev, to: dummy_id, reversed: false, label_size: None });
            chain.push(dummy_id);
            prev = dummy_id;
            proof {
                assert(nodes@ =~= nodes0 + Seq::new((i + 1) as nat, |j: int| dummy_node(base + j, ra + 1 + j)));
                assert(layers_view(ranks.layers@) =~= layers_with_dummies(layers0, ra, i + 1, base)) by {
                    let lw = layers_with_dummies(layers0, ra, i + 1, base);
                    assert forall|q: int| 0 <= q < lw.len() implies #[trigger] layers_view(ranks.layers@)[q] == lw[q] by {
                        if q != r {
                            assert(ranks.layers@[q] == layers2[q]);
                            if q < layers1.len() {
                                assert(layers1[q] == layers_with_dummies(layers0, ra, i, base)[q]);
                            }
                            assert(layers_view(ranks.layers@)[q] =~= lw[q]);
                        } else {
                            if q < layers1.len() {
                                assert(layers1[q] == layers_with_dummies(layers0, ra, i, base)[q]);
                            }
                            assert(layers_view(ranks.layers@)[q] =~= lw[q]);
                        }
                    }
                }
                assert(chain@ =~= seq![edge.from] + Seq::new((i + 1) as nat, |j: int| (base + j) as usize));
                lemma_segments_push(chain1, dummy_id);
                assert(new_edges@ =~= edges0 + segments(chain@));
            }
        }
        let ghost chain1 = chain@;
        new_edges.push(LayoutEdge { from: prev, to: edge.to, reversed: false, label_size: None });
        chain.push(edge.to);
        chains.push(
            EdgeChain {
                source: orig_source,
                target: orig_target,
                reversed: edge.reversed,
                is_self_loop: false,
                label_size: edge.label_size,
                chain,
            },
        );
        proof {
            let k = rank_to - rank_from - 1;
            lemma_segments_push(chain1, edge.to);
            assert(chains@.last()@.chain =~= long_path(edge.from as int, edge.to as int, base, k as int));
            assert(new_edges@ =~= edges0 + segments(long_path(edge.from as int, edge.to as int, base, k as int)));
            assert(chain_models(chains@) =~= chain_models(chains0).push(chains@.last()@));
        }
    } else {
        let mut chain: Vec<NodeId> = Vec::new();
        chain.push(edge.from);
        chain.push(edge.to);
        chains.push(
            EdgeChain {
                source: orig_source,
                target: orig_target,
                reversed: edge.reversed,
                is_self_loop: false,
                label_size: edge.label_size,
                chain,
            },
        );
        new_edges.push(edge);
        proof {
            assert(chain_models(chains@) =~= chain_models(chains0).push(chains@.last()@));
            assert(chains@.last()@.chain =~= seq![edge.from, edge.to]);
        }
    }
    Ok(())
}

/// The position of the last occurrence of `v` among the first `k` entries of `s`.
pub open spec fn last_index_in(s: Seq<NodeId>, v: int, k: int) -> Option<usize>
    decreases k,
{
    if k <= 0 {
        None
    } else if s[k - 1] == v {
        Some((k - 1) as usize)
    } else {
        last_index_in(s, v, k - 1)
    }
}

/// The position of `v` in the last of the first `r` layers that lists it.
pub open spec fn last_place(layers: Seq<Seq<NodeId>>, v: int, r: int) -> Option<usize>
    decreases r,
{
    if r <= 0 {
        None
    } else {
        match last_index_in(layers[r - 1], v, layers[r - 1].len() as int) {
            Some(q) => Some(q),
            None => last_place(layers, v, r - 1),
        }
    }
}

/// The position of `v` in the last place it is listed, scanning the layers
/// before `r` and then the first `p` entries of layer `r`.
pub open spec fn placed(layers: Seq<Seq<NodeId>>, v: int, r: int, p: int) -> Option<usize> {
    match (if 0 <= r < layers.len() {
        last_index_in(layers[r], v, p)
    } else {
        None
    }) {
        Some(q) => Some(q),
        None => last_place(layers, v, r),
    }
}

/// `node` with its order set to `o`, if any.
pub open spec fn with_order(node: LayoutNode, o: Option<usize>) -> LayoutNode {
    match o {
        Some(q) => LayoutNode { order: Some(q), ..node },
        None => node,
    }
}

/// The nodes after every node listed in the layers has its order set to its
/// position there (its last position, should it be listed several times).
pub open spec fn reseeded(nodes: Seq<LayoutNode>, layers: Seq<Seq<NodeId>>) -> Seq<LayoutNode> {
    Seq::new(nodes.len(), |v: int| with_order(nodes[v], last_place(layers, v, layers.len() as int)))
}

/// Sets the order of every node listed in the layers to its position there.
fn reseed_orders(nodes: &mut Vec<LayoutNode>, layers: &Vec<Vec<NodeId>>)
    ensures
        final(nodes)@ == reseeded(old(nodes)@, layers_view(layers@)),
{
    let ghost nodes0 = nodes@;
    let ghost lv = layers_view(layers@);
    let n = nodes.len();
    let num_layers = layers.len();
    for r in 0..num_layers
        invariant
            n == nodes@.len(),
            n == nodes0.len(),
            num_layers == layers@.len(),
            lv == layers_view(layers@),
            forall|v: int| 0 <= v < n ==> #[trigger] nodes@[v] == with_order(nodes0[v], placed(lv, v, r as int, 0)),
    {
        let layer = &layers[r];
        let len = layer.len();
        for p in 0..len
            invariant
                n == nodes@.len(),
                n == nodes0.len(),
                num_layers == layers@.len(),
                lv == layers_view(layers@),
                r < num_layers,
                layer@ == lv[r as int],
                len == layer@.len(),
                forall|v: int| 0 <= v < n ==> #[trigger] nodes@[v] == with_order(nodes0[v], placed(lv, v, r as int, p as int)),
        {
            let id = layer[p];
            if id < n {
                let mut node = nodes[id];
                node.order = Some(p);
                nodes.set(id, node);
            }
            proof {
                assert forall|v: int| 0 <= v < n implies #[trigger] nodes@[v] == with_order(nodes0[v], placed(lv, v, r as int, p + 1)) by {
                    if v == id {
                        assert(last_index_in(lv[r as int], v, p + 1) == Some(p));
                    } else {
                        assert(last_index_in(lv[r as int], v, p + 1) == last_index_in(lv[r as int], v, p as int));
                    }
                }
            }
        }
        proof {
            assert forall|v: int| 0 <= v < n implies #[trigger] nodes@[v] == with_order(nodes0[v], placed(lv, v, r + 1, 0)) by {
                assert(placed(lv, v, r as int, len as int) == last_place(lv, v, r + 1));
            }
        }
    }
    proof {
        assert(nodes@ =~= reseeded(nodes0, lv));
    }
}

/// After an error, processing further edges changes nothing.
proof fn lemma_error_absorbs(st: DummyState, edges: Seq<LayoutEdge>, k: int, j: int)
    requires
        0 <= k <= j <= edges.len(),
        dummy_fold(st, edges.take(k)).error is Some,
    ensures
        dummy_fold(st, edges.take(j)) == dummy_fold(st, edges.take(k)),
    decreases j,
{
    if j > k {
        lemma_error_absorbs(st, edges, k, j - 1);
        assert(edges.take(j).drop_last() =~= edges.take(j - 1));
    }
}

/// Inserts dummy nodes for edges that span more than one rank.
///
/// Edges are processed in order. A self-loop yields a one-node chain; an
/// edge from rank `a` to rank `b > a + 1` gets `b - a - 1` new dummy nodes
/// (appended to `graph.nodes` and to their layers, which are created as
/// needed) and is replaced by the single-rank edges along
/// `[from, dummy₁, …, to]`; any other edge is kept as it is. Finally every
/// node listed in the layers gets its position there as `order`.
///
/// Returns one `EdgeChain` per edge, tracking its decomposition.
///
/// # Errors
/// `LayoutError::DanglingEdge` for an edge that references a node id
/// outside `graph.nodes`, or `LayoutError::MissingRank` for an edge endpoint
/// without a rank; the first such edge stops the phase, leaving the dummies
/// inserted for earlier edges in place and `graph.edges` unchanged.
pub fn insert_dummy_nodes(graph: &mut LayoutGraph, ranks: &mut RankSystem) -> (result: Result<Vec<EdgeChain>, LayoutError>)
    ensures
        ({
            let fin = dummy_fold(
                DummyState {
                    nodes: old(graph).nodes@,
                    layers: old(ranks)@,
                    chains: Seq::empty(),
                    edges: Seq::empty(),
                    error: None,
                },
                old(graph).edges@,
            );
            &&& final(ranks)@ == fin.layers
            &&& match result {
                Ok(chains) => {
                    &&& fin.error is None
                    &&& chain_models(chains@) == fin.chains
                    &&& final(graph).edges@ == fin.edges
                    &&& final(graph).nodes@ == reseeded(fin.nodes, fin.layers)
                    &&& chains@.len() == old(graph).edges@.len()
                    &&& edge_ends(final(graph).edges@) == all_hops(chain_models(chains@))
                    &&& forall|k: int|
                        #![trigger old(graph).edges@[k]]
                        #![trigger chains@[k]]
                        0 <= k < old(graph).edges@.len() ==> chain_follows_edge(
                            chains@[k]@,
                            old(graph).edges@[k],
                            old(graph).nodes@.len() as int,
                            final(graph).nodes@,
                        )
                },
                Err(e) => {
                    &&& fin.error == Some(e)
                    &&& final(graph).edges@ == old(graph).edges@
                    &&& final(graph).nodes@ == fin.nodes
                },
            }
        }),
{
    let ghost st0 = DummyState {
        nodes: graph.nodes@,
        layers: ranks@,
        chains: Seq::empty(),
        edges: Seq::empty(),
        error: None,
    };
    let ghost edges = graph.edges@;
    let mut chains: Vec<EdgeChain> = Vec::new();
    let mut new_edges: Vec<LayoutEdge> = Vec::new();
    let m = graph.edges.len();
    proof {
        assert(edges.take(0) =~= Seq::<LayoutEdge>::empty());
        assert(chain_models(chains@) =~= Seq::<ChainModel>::empty());
        assert(current_state(graph.nodes@, ranks.layers@, chains@, new_edges@) == st0);
    }
    for k in 0..m
        invariant
            m == edges.len(),
            graph.edges@ == edges,
            edges == old(graph).edges@,
            st0 == (DummyState {
                nodes: old(graph).nodes@,
                layers: old(ranks)@,
                chains: Seq::empty(),
                edges: Seq::empty(),
                error: None,
            }),
            current_state(graph.nodes@, ranks.layers@, chains@, new_edges@) == dummy_fold(st0, edges.take(k as int)),
    {
        let edge = graph.edges[k];
        let ghost before = current_state(graph.nodes@, ranks.layers@, chains@, new_edges@);
        let r = split_edge(&mut graph.nodes, ranks, &mut chains, &mut new_edges, edge);
        proof {
            assert(edges.take(k + 1).drop_last() =~= edges.take(k as int));
            assert(edges.take(k + 1).last() == edge);
        }
        match r {
            Err(e) => {
                proof {
                    assert(dummy_fold(st0, edges.take(k + 1)) == dummy_step(before, edge));
                    assert(dummy_fold(st0, edges.take(k + 1)).nodes == graph.nodes@);
                    assert(dummy_fold(st0, edges.take(k + 1)).layers == ranks@);
                    lemma_error_absorbs(st0, edges, k + 1, m as int);
                    assert(edges.take(m as int) =~= edges);
                    let fin = dummy_fold(st0, edges);
                    assert(fin.error == Some(e));
                    assert(ranks@ == fin.layers);
                    assert(graph.nodes@ == fin.nodes);
                }
                return Err(e);
            },
            Ok(()) => {},
        }
    }
    proof {
        assert(edges.take(m as int) =~= edges);
    }
    graph.edges = new_edges;
    let ghost folded = graph.nodes@;
    let total = graph.nodes.len();
    reseed_orders(&mut graph.nodes, &ranks.layers);
    proof {
        let fin = dummy_fold(st0, edges);
        assert(folded == fin.nodes);
        assert(fin.nodes.len() == total);
        lemma_chains_follow_edges(st0.nodes, st0.layers, edges);
        lemma_edges_follow_chains(st0.nodes, st0.layers, edges);
        assert forall|k: int|
            #![trigger edges[k]]
            #![trigger chains@[k]]
            0 <= k < edges.len() implies chain_follows_edge(chains@[k]@, edges[k], st0.nodes.len() as int, graph.nodes@) by {
            assert(chain_models(chains@)[k] == chains@[k]@);
            lemma_chain_follows_reseeded(chains@[k]@, edges[k], st0.nodes.len() as int, fin.nodes, fin.layers);
        }
    }
    Ok(chains)
}

/// Reseeding the orders keeps a chain following its edge.
proof fn lemma_chain_follows_reseeded(c: ChainModel, e: LayoutEdge, n: int, nodes: Seq<LayoutNode>, layers: Seq<Seq<NodeId>>)
    requires
        chain_follows_edge(c, e, n, nodes),
        e.from < nodes.len(),
        e.to < nodes.len(),
    ensures
        chain_follows_edge(c, e, n, reseeded(nodes, layers)),
{
    let b = reseeded(nodes, layers);
    assert forall|v: int| 0 <= v < nodes.len() implies #[trigger] b[v].rank == nodes[v].rank && b[v].node_type
        == nodes[v].node_type by {
        assert(b[v] == with_order(nodes[v], last_place(layers, v, layers.len() as int)));
    }
    assert(b[e.from as int].rank == nodes[e.from as int].rank);
    assert(b[e.to as int].rank == nodes[e.to as int].rank);
    assert forall|i: int| 0 < i < c.chain.len() - 1 implies {
        &&& n <= #[trigger] c.chain[i] < b.len()
        &&& b[c.chain[i] as int].node_type == NodeType::Dummy
        &&& rank_at(b, c.chain[i] as int) == rank_at(b, e.from as int) + i
    } by {
        assert(b[c.chain[i] as int].rank == nodes[c.chain[i] as int].rank);
    }
}

/// Every edge joins two existing ranked nodes and leads to a strictly
/// higher rank (as after `assign_ranks`).
pub open spec fn downward_edges(nodes: Seq<LayoutNode>, edges: Seq<LayoutEdge>) -> bool {
    forall|k: int|
        0 <= k < edges.len() ==> {
            &&& (#[trigger] edges[k]).from < nodes.len()
            &&& edges[k].to < nodes.len()
            &&& nodes[edges[k].from as int].rank is Some
            &&& nodes[edges[k].to as int].rank is Some
            &&& rank_at(nodes, edges[k].to as int) > rank_at(nodes, edges[k].from as int)
        }
}

/// Every edge joins two existing ranked nodes on adjacent ranks, going down.
pub open spec fn single_rank_edges(nodes: Seq<LayoutNode>, edges: Seq<LayoutEdge>) -> bool {
    forall|k: int|
        0 <= k < edges.len() ==> {
            &&& (#[trigger] edges[k]).from < nodes.len()
            &&& edges[k].to < nodes.len()
            &&& nodes[edges[k].from as int].rank is Some
            &&& nodes[edges[k].to as int].rank is Some
            &&& rank_at(nodes, edges[k].to as int) == rank_at(nodes, edges[k].from as int) + 1
        }
}

/// How many dummies the edges need: one per rank strictly between the
/// endpoints of each downward edge.
pub open spec fn dummy_count(nodes: Seq<LayoutNode>, edges: Seq<LayoutEdge>) -> int
    decreases edges.len(),
{
    if edges.len() == 0 {
        0
    } else {
        let e = edges.last();
        let gap = rank_at(nodes, e.to as int) - rank_at(nodes, e.from as int) - 1;
        dummy_count(nodes, edges.drop_last()) + if gap > 0 {
            gap
        } else {
            0
        }
    }
}

proof fn lemma_fold_downward(nodes: Seq<LayoutNode>, layers: Seq<Seq<NodeId>>, edges: Seq<LayoutEdge>)
    requires
        downward_edges(nodes, edges),
        nodes.len() + dummy_count(nodes, edges) <= usize::MAX,
    ensures
        ({
            let fin = dummy_fold(
                DummyState { nodes, layers, chains: Seq::empty(), edges: Seq::empty(), error: None },
                edges,
            );
            &&& fin.error is None
            &&& fin.nodes.len() == nodes.len() + dummy_count(nodes, edges)
            &&& dummy_count(nodes, edges) >= 0
            &&& forall|v: int| 0 <= v < nodes.len() ==> #[trigger] fin.nodes[v] == nodes[v]
            &&& single_rank_edges(fin.nodes, fin.edges)
        }),
    decreases edges.len(),
{
    let st0 = DummyState { nodes, layers, chains: Seq::empty(), edges: Seq::empty(), error: None };
    if edges.len() > 0 {
        let init = edges.drop_last();
        assert forall|k: int| 0 <= k < init.len() implies {
            &&& (#[trigger] init[k]).from < nodes.len()
            &&& init[k].to < nodes.len()
            &&& nodes[init[k].from as int].rank is Some
            &&& nodes[init[k].to as int].rank is Some
            &&& rank_at(nodes, init[k].to as int) > rank_at(nodes, init[k].from as int)
        } by {
            assert(init[k] == edges[k]);
        }
        assert(dummy_count(nodes, init) <= dummy_count(nodes, edges));
        lemma_fold_downward(nodes, layers, init);
        let st = dummy_fold(st0, init);
        let e = edges.last();
        assert(e == edges[edges.len() - 1]);
        assert(st.nodes[e.from as int] == nodes[e.from as int]);
        assert(st.nodes[e.to as int] == nodes[e.to as int]);
        let fin = dummy_step(st, e);
        let ra = rank_at(st.nodes, e.from as int);
        let rb = rank_at(st.nodes, e.to as int);
        if rb > ra + 1 {
            let k = rb - ra - 1;
            let base = st.nodes.len() as int;
            let path = long_path(e.from as int, e.to as int, base, k);
            let segs = segments(path);
            assert forall|v: int| 0 <= v < nodes.len() implies #[trigger] fin.nodes[v] == nodes[v] by {
                assert(fin.nodes[v] == st.nodes[v]);
            }
            assert forall|q: int| 0 <= q < fin.edges.len() implies {
                &&& (#[trigger] fin.edges[q]).from < fin.nodes.len()
                &&& fin.edges[q].to < fin.nodes.len()
                &&& fin.nodes[fin.edges[q].from as int].rank is Some
                &&& fin.nodes[fin.edges[q].to as int].rank is Some
                &&& rank_at(fin.nodes, fin.edges[q].to as int) == rank_at(fin.nodes, fin.edges[q].from as int) + 1
            } by {
                if q < st.edges.len() {
                    assert(fin.edges[q] == st.edges[q]);
                    assert(fin.nodes[st.edges[q].from as int] == st.nodes[st.edges[q].from as int]);
                    assert(fin.nodes[st.edges[q].to as int] == st.nodes[st.edges[q].to as int]);
                } else {
                    let i = q - st.edges.len();
                    assert(fin.edges[q] == segs[i]);
                    if i > 0 {
                        assert(path[i] == (base + i - 1) as usize);
                        assert(fin.nodes[base + i - 1] == dummy_node(base + i - 1, ra + i));
                    } else {
                        assert(path[0] == e.from);
                    }
                    if i < k {
                        assert(path[i + 1] == (base + i) as usize);
                        assert(fin.nodes[base + i] == dummy_node(base + i, ra + 1 + i));
                    } else {
                        assert(path[i + 1] == e.to);
                    }
                }
            }
        } else {
            assert forall|q: int| 0 <= q < fin.edges.len() implies {
                &&& (#[trigger] fin.edges[q]).from < fin.nodes.len()
                &&& fin.edges[q].to < fin.nodes.len()
                &&& fin.nodes[fin.edges[q].from as int].rank is Some
                &&& fin.nodes[fin.edges[q].to as int].rank is Some
                &&& rank_at(fin.nodes, fin.edges[q].to as int) == rank_at(fin.nodes, fin.edges[q].from as int) + 1
            } by {
                if q < st.edges.len() {
                    assert(fin.edges[q] == st.edges[q]);
                }
            }
        }
    }
}

/// Dummy insertion on a graph whose edges all lead to strictly higher ranks
/// (as `assign_ranks` leaves it) succeeds, and afterwards every edge joins
/// adjacent ranks: the input that `order_layers` expects.
pub proof fn lemma_dummy_insertion_yields_single_rank_edges(
    nodes: Seq<LayoutNode>,
    layers: Seq<Seq<NodeId>>,
    edges: Seq<LayoutEdge>,
)
    requires
        downward_edges(nodes, edges),
        nodes.len() + dummy_count(nodes, edges) <= usize::MAX,
    ensures
        ({
            let fin = dummy_fold(
                DummyState { nodes, layers, chains: Seq::empty(), edges: Seq::empty(), error: None },
                edges,
            );
            &&& fin.error is None
            &&& single_rank_edges(reseeded(fin.nodes, fin.layers), fin.edges)
        }),
{
    lemma_fold_downward(nodes, layers, edges);
    let fin = dummy_fold(
        DummyState { nodes, layers, chains: Seq::empty(), edges: Seq::empty(), error: None },
        edges,
    );
    let rs = reseeded(fin.nodes, fin.layers);
    assert forall|v: int| 0 <= v < fin.nodes.len() implies #[trigger] rs[v].rank == fin.nodes[v].rank by {}
    assert forall|q: int| 0 <= q < fin.edges.len() implies {
        &&& (#[trigger] fin.edges[q]).from < rs.len()
        &&& fin.edges[q].to < rs.len()
        &&& rs[fin.edges[q].from as int].rank is Some
        &&& rs[fin.edges[q].to as int].rank is Some
        &&& rank_at(rs, fin.edges[q].to as int) == rank_at(rs, fin.edges[q].from as int) + 1
    } by {
        assert(rs[fin.edges[q].from as int].rank == fin.nodes[fin.edges[q].from as int].rank);
        assert(rs[fin.edges[q].to as int].rank == fin.nodes[fin.edges[q].to as int].rank);
    }
}


/// Dummy insertion on edges that each lead from a ranked node to a node of
/// strictly higher rank meets no error, whatever the number of dummies: it
/// keeps the existing nodes, appends one dummy per rank strictly between the
/// endpoints of each edge, records one chain per edge, and lists only
/// existing nodes in its layers when the given layers do.
pub(crate) proof fn lemma_fold_shape(nodes: Seq<LayoutNode>, layers: Seq<Seq<NodeId>>, edges: Seq<LayoutEdge>)
    requires
        downward_edges(nodes, edges),
        layers_in_range(layers, nodes.len() as int),
    ensures
        ({
            let fin = dummy_fold(
                DummyState { nodes, layers, chains: Seq::empty(), edges: Seq::empty(), error: None },
                edges,
            );
            &&& fin.error is None
            &&& dummy_count(nodes, edges) >= 0
            &&& fin.nodes.len() == nodes.len() + dummy_count(nodes, edges)
            &&& forall|v: int| 0 <= v < nodes.len() ==> #[trigger] fin.nodes[v] == nodes[v]
            &&& forall|v: int| nodes.len() <= v < fin.nodes.len() ==> (#[trigger] fin.nodes[v]).node_type == NodeType::Dummy
            &&& layers_in_range(fin.layers, fin.nodes.len() as int)
            &&& fin.chains.len() == edges.len()
        }),
    decreases edges.len(),
{
    let st0 = DummyState { nodes, layers, chains: Seq::empty(), edges: Seq::empty(), error: None };
    if edges.len() > 0 {
        let init = edges.drop_last();
        assert forall|k: int| 0 <= k < init.len() implies {
            &&& (#[trigger] init[k]).from < nodes.len()
            &&& init[k].to < nodes.len()
            &&& nodes[init[k].from as int].rank is Some
            &&& nodes[init[k].to as int].rank is Some
            &&& rank_at(nodes, init[k].to as int) > rank_at(nodes, init[k].from as int)
        } by {
            assert(init[k] == edges[k]);
        }
        lemma_fold_shape(nodes, layers, init);
        let st = dummy_fold(st0, init);
        let e = edges.last();
        assert(e == edges[edges.len() - 1]);
        assert(st.nodes[e.from as int] == nodes[e.from as int]);
        assert(st.nodes[e.to as int] == nodes[e.to as int]);
        let fin = dummy_step(st, e);
        let ra = rank_at(st.nodes, e.from as int);
        let rb = rank_at(st.nodes, e.to as int);
        if rb > ra + 1 {
            let k = rb - ra - 1;
            let base = st.nodes.len() as int;
            assert forall|v: int| 0 <= v < nodes.len() implies #[trigger] fin.nodes[v] == nodes[v] by {
                assert(fin.nodes[v] == st.nodes[v]);
            }
            assert forall|v: int| nodes.len() <= v < fin.nodes.len() implies (#[trigger] fin.nodes[v]).node_type
                == NodeType::Dummy by {
                if v < base {
                    assert(fin.nodes[v] == st.nodes[v]);
                } else {
                    assert(fin.nodes[v] == dummy_node(v, ra + 1 + (v - base)));
                }
            }
            assert forall|r: int, p: int| 0 <= r < fin.layers.len() && 0 <= p < fin.layers[r].len() implies #[trigger] fin.layers[r][p]
                < fin.nodes.len() by {
                let old_part = if r < st.layers.len() {
                    st.layers[r]
                } else {
                    Seq::empty()
                };
                let new_part = if ra < r <= ra + k {
                    seq![(base + r - ra - 1) as usize]
                } else {
                    Seq::<usize>::empty()
                };
                assert(fin.layers[r] == old_part + new_part);
                if p < old_part.len() {
                    assert(fin.layers[r][p] == st.layers[r][p]);
                } else {
                    assert(fin.layers[r][p] == (base + r - ra - 1) as usize);
                }
            }
        } else {
            assert(fin.nodes == st.nodes);
            assert(fin.layers == st.layers);
        }
    }
}

proof fn lemma_last_index_found(s: Seq<NodeId>, v: int, k: int, p: int)
    requires
        0 <= p < k <= s.len(),
        s[p] == v,
        forall|q: int| 0 <= q < k && q != p ==> #[trigger] s[q] != v,
    ensures
        last_index_in(s, v, k) == Some(p as usize),
    decreases k,
{
    if k - 1 > p {
        assert(s[k - 1] != v);
        lemma_last_index_found(s, v, k - 1, p);
    }
}

proof fn lemma_last_index_absent(s: Seq<NodeId>, v: int, k: int)
    requires
        0 <= k <= s.len(),
        forall|q: int| 0 <= q < k ==> #[trigger] s[q] != v,
    ensures
        last_index_in(s, v, k) is None,
    decreases k,
{
    if k > 0 {
        assert(s[k - 1] != v);
        lemma_last_index_absent(s, v, k - 1);
    }
}

proof fn lemma_last_place_found(layers: Seq<Seq<NodeId>>, v: int, bound: int, r: int, p: int)
    requires
        listed_once(layers),
        0 <= r < bound <= layers.len(),
        0 <= p < layers[r].len(),
        layers[r][p] == v,
    ensures
        last_place(layers, v, bound) == Some(p as usize),
    decreases bound,
{
    let l = bound - 1;
    if l > r {
        assert forall|q: int| 0 <= q < layers[l].len() implies #[trigger] layers[l][q] != v by {
            assert(layers[l][q] != layers[r][p]);
        }
        lemma_last_index_absent(layers[l], v, layers[l].len() as int);
        lemma_last_place_found(layers, v, bound - 1, r, p);
    } else {
        assert forall|q: int| 0 <= q < layers[r].len() && q != p implies #[trigger] layers[r][q] != v by {
            assert(layers[r][q] != layers[r][p]);
        }
        lemma_last_index_found(layers[r], v, layers[r].len() as int, p);
    }
}

/// Re-seeding orders from layers that list each node once, and only
/// existing nodes, sets every listed node's order to its position.
proof fn lemma_reseeded_orders_match(nodes: Seq<LayoutNode>, layers: Seq<Seq<NodeId>>)
    requires
        listed_once(layers),
        layers_in_range(layers, nodes.len() as int),
    ensures
        orders_match_positions(reseeded(nodes, layers), layers),
{
    let re = reseeded(nodes, layers);
    assert forall|r: int, p: int| 0 <= r < layers.len() && 0 <= p < layers[r].len() implies re[#[trigger] layers[r][p] as int].order
        == Some(p as usize) by {
        lemma_last_place_found(layers, layers[r][p] as int, layers.len() as int, r, p);
    }
}

proof fn lemma_fold_listed_once(nodes: Seq<LayoutNode>, layers: Seq<Seq<NodeId>>, edges: Seq<LayoutEdge>)
    requires
        downward_edges(nodes, edges),
        layers_in_range(layers, nodes.len() as int),
        listed_once(layers),
        nodes.len() + dummy_count(nodes, edges) <= usize::MAX,
    ensures
        listed_once(
            dummy_fold(
                DummyState { nodes, layers, chains: Seq::empty(), edges: Seq::empty(), error: None },
                edges,
            ).layers,
        ),
    decreases edges.len(),
{
    let st0 = DummyState { nodes, layers, chains: Seq::empty(), edges: Seq::empty(), error: None };
    if edges.len() > 0 {
        let init = edges.drop_last();
        assert forall|k: int| 0 <= k < init.len() implies {
            &&& (#[trigger] init[k]).from < nodes.len()
            &&& init[k].to < nodes.len()
            &&& nodes[init[k].from as int].rank is Some
            &&& nodes[init[k].to as int].rank is Some
            &&& rank_at(nodes, init[k].to as int) > rank_at(nodes, init[k].from as int)
        } by {
            assert(init[k] == edges[k]);
        }
        lemma_fold_shape(nodes, layers, init);
        lemma_fold_shape(nodes, layers, edges);
        lemma_fold_listed_once(nodes, layers, init);
        let st = dummy_fold(st0, init);
        let e = edges.last();
        assert(e == edges[edges.len() - 1]);
        assert(st.nodes[e.from as int] == nodes[e.from as int]);
        assert(st.nodes[e.to as int] == nodes[e.to as int]);
        let fin = dummy_step(st, e);
        let ra = rank_at(st.nodes, e.from as int);
        let rb = rank_at(st.nodes, e.to as int);
        if rb > ra + 1 {
            let k = rb - ra - 1;
            let base = st.nodes.len() as int;
            assert(base + k <= usize::MAX);
            let entry = |r: int, p: int| -> NodeId {
                if p < (if r < st.layers.len() { st.layers[r].len() as int } else { 0 }) {
                    st.layers[r][p]
                } else {
                    (base + r - ra - 1) as usize
                }
            };
            assert forall|r: int, p: int| 0 <= r < fin.layers.len() && 0 <= p < fin.layers[r].len() implies #[trigger] fin.layers[r][p]
                == entry(r, p) && (p >= (if r < st.layers.len() { st.layers[r].len() as int } else { 0 }) ==> ra < r <= ra + k
                && p == (if r < st.layers.len() { st.layers[r].len() as int } else { 0 })) by {
                let old_part = if r < st.layers.len() {
                    st.layers[r]
                } else {
                    Seq::empty()
                };
                let new_part = if ra < r <= ra + k {
                    seq![(base + r - ra - 1) as usize]
                } else {
                    Seq::<usize>::empty()
                };
                assert(fin.layers[r] == old_part + new_part);
            }
            assert forall|r1: int, p1: int, r2: int, p2: int|
                0 <= r1 < fin.layers.len() && 0 <= p1 < fin.layers[r1].len() && 0 <= r2 < fin.layers.len() && 0 <= p2
                    < fin.layers[r2].len() && (r1 != r2 || p1 != p2) implies #[trigger] fin.layers[r1][p1]
                != #[trigger] fin.layers[r2][p2] by {
                let old1 = p1 < (if r1 < st.layers.len() { st.layers[r1].len() as int } else { 0 });
                let old2 = p2 < (if r2 < st.layers.len() { st.layers[r2].len() as int } else { 0 });
                if old1 && old2 {
                    assert(st.layers[r1][p1] != st.layers[r2][p2]);
                } else if old1 {
                    assert(st.layers[r1][p1] < base);
                } else if old2 {
                    assert(st.layers[r2][p2] < base);
                }
            }
        } else {
            assert(fin.layers == st.layers);
        }
    }
}

/// Dummy insertion after rank assignment (every edge leading to a strictly
/// higher rank, each node listed once in the layers and every listed
/// node's order its position) keeps every listed node's order equal to its
/// position, each node listed once; `n + dummies` must fit in a `usize`.
pub proof fn lemma_dummy_insertion_keeps_orders_consistent(
    nodes: Seq<LayoutNode>,
    layers: Seq<Seq<NodeId>>,
    edges: Seq<LayoutEdge>,
)
    requires
        downward_edges(nodes, edges),
        orders_consistent(OrderState { nodes, layers }),
        nodes.len() + dummy_count(nodes, edges) <= usize::MAX,
    ensures
        ({
            let fin = dummy_fold(
                DummyState { nodes, layers, chains: Seq::empty(), edges: Seq::empty(), error: None },
                edges,
            );
            orders_consistent(OrderState { nodes: reseeded(fin.nodes, fin.layers), layers: fin.layers })
        }),
{
    let fin = dummy_fold(
        DummyState { nodes, layers, chains: Seq::empty(), edges: Seq::empty(), error: None },
        edges,
    );
    lemma_fold_shape(nodes, layers, edges);
    lemma_fold_listed_once(nodes, layers, edges);
    lemma_reseeded_orders_match(fin.nodes, fin.layers);
}

/// Dummy insertion after rank assignment keeps every node listed in the
/// layer of its rank, and every listed node of the rank of its layer; the
/// dummies are listed in the layers of their ranks. `n + dummies` must fit
/// in a `usize`.
#[verifier::spinoff_prover]
#[verifier::rlimit(60)]
pub proof fn lemma_dummy_insertion_keeps_layers_matching_ranks(
    nodes: Seq<LayoutNode>,
    layers: Seq<Seq<NodeId>>,
    edges: Seq<LayoutEdge>,
)
    requires
        downward_edges(nodes, edges),
        layers_in_range(layers, nodes.len() as int),
        crate::crossing_laws::layers_match_ranks(nodes, layers),
        nodes.len() + dummy_count(nodes, edges) <= usize::MAX,
    ensures
        ({
            let fin = dummy_fold(
                DummyState { nodes, layers, chains: Seq::empty(), edges: Seq::empty(), error: None },
                edges,
            );
            &&& crate::crossing_laws::layers_match_ranks(fin.nodes, fin.layers)
            &&& crate::crossing_laws::layers_match_ranks(reseeded(fin.nodes, fin.layers), fin.layers)
        }),
    decreases edges.len(),
{
    let st0 = DummyState { nodes, layers, chains: Seq::empty(), edges: Seq::empty(), error: None };
    let fin = dummy_fold(st0, edges);
    if edges.len() > 0 {
        let init = edges.drop_last();
        assert forall|k: int| 0 <= k < init.len() implies {
            &&& (#[trigger] init[k]).from < nodes.len()
            &&& init[k].to < nodes.len()
            &&& nodes[init[k].from as int].rank is Some
            &&& nodes[init[k].to as int].rank is Some
            &&& rank_at(nodes, init[k].to as int) > rank_at(nodes, init[k].from as int)
        } by {
            assert(init[k] == edges[k]);
        }
        lemma_fold_shape(nodes, layers, init);
        lemma_fold_shape(nodes, layers, edges);
        lemma_dummy_insertion_keeps_layers_matching_ranks(nodes, layers, init);
        let st = dummy_fold(st0, init);
        let e = edges.last();
        assert(e == edges[edges.len() - 1]);
        assert(st.nodes[e.from as int] == nodes[e.from as int]);
        assert(st.nodes[e.to as int] == nodes[e.to as int]);
        let ra = rank_at(st.nodes, e.from as int);
        let rb = rank_at(st.nodes, e.to as int);
        if rb > ra + 1 {
            let k = rb - ra - 1;
            let base = st.nodes.len() as int;
            assert(base + k <= usize::MAX);
            assert(rb < st.layers.len());
            assert forall|r: int, p: int| 0 <= r < fin.layers.len() && 0 <= p < fin.layers[r].len() implies crate::crossings::rank_val(
                fin.nodes,
                #[trigger] fin.layers[r][p] as int,
            ) == r by {
                let old_part = if r < st.layers.len() {
                    st.layers[r]
                } else {
                    Seq::empty()
                };
                let new_part = if ra < r <= ra + k {
                    seq![(base + r - ra - 1) as usize]
                } else {
                    Seq::<usize>::empty()
                };
                assert(fin.layers[r] == old_part + new_part);
                if p < old_part.len() {
                    assert(fin.layers[r][p] == st.layers[r][p]);
                    assert(st.layers[r][p] < base);
                    assert(fin.nodes[st.layers[r][p] as int] == st.nodes[st.layers[r][p] as int]);
                } else {
                    let d = base + r - ra - 1;
                    assert(fin.layers[r][p] == d as usize);
                    assert(fin.nodes[d] == dummy_node(d, ra + 1 + (d - base)));
                }
            }
            assert forall|v: int| 0 <= v < fin.nodes.len() implies {
                &&& (#[trigger] fin.nodes[v]).rank is Some
                &&& crate::crossings::rank_val(fin.nodes, v) < fin.layers.len()
                &&& fin.layers[crate::crossings::rank_val(fin.nodes, v)].contains(v as usize)
            } by {
                if v < base {
                    assert(fin.nodes[v] == st.nodes[v]);
                    let r = crate::crossings::rank_val(st.nodes, v);
                    assert(st.layers[r].contains(v as usize));
                    let p = choose|p: int| 0 <= p < st.layers[r].len() && st.layers[r][p] == v as usize;
                    let new_part = if ra < r <= ra + k {
                        seq![(base + r - ra - 1) as usize]
                    } else {
                        Seq::<usize>::empty()
                    };
                    assert(fin.layers[r] == st.layers[r] + new_part);
                    assert(fin.layers[r][p] == v as usize);
                } else {
                    let i = v - base;
                    assert(fin.nodes[v] == dummy_node(v, ra + 1 + i));
                    let r = ra + 1 + i;
                    let old_part = if r < st.layers.len() {
                        st.layers[r]
                    } else {
                        Seq::empty()
                    };
                    assert(fin.layers[r] == old_part + seq![(base + r - ra - 1) as usize]);
                    assert(fin.layers[r][old_part.len() as int] == v as usize);
                }
            }
        } else {
            assert(fin.nodes == st.nodes);
            assert(fin.layers == st.layers);
        }
    }
    let re = reseeded(fin.nodes, fin.layers);
    assert forall|v: int| 0 <= v < fin.nodes.len() implies #[trigger] re[v].rank == fin.nodes[v].rank by {
    }
}
/// The dummies that the fold appends are `dummy_node(v, r)` for their own
/// id `v` and some rank `r`, and every given layer stays a prefix of its
/// layer afterwards.
proof fn lemma_fold_dummies(nodes: Seq<LayoutNode>, layers: Seq<Seq<NodeId>>, edges: Seq<LayoutEdge>)
    requires
        downward_edges(nodes, edges),
        layers_in_range(layers, nodes.len() as int),
    ensures
        ({
            let fin = dummy_fold(
                DummyState { nodes, layers, chains: Seq::empty(), edges: Seq::empty(), error: None },
                edges,
            );
            &&& forall|v: int|
                nodes.len() <= v < fin.nodes.len() ==> #[trigger] fin.nodes[v] == dummy_node(v, rank_at(fin.nodes, v))
            &&& fin.layers.len() >= layers.len()
            &&& forall|r: int| 0 <= r < layers.len() ==> layers[r].is_prefix_of(#[trigger] fin.layers[r])
        }),
    decreases edges.len(),
{
    let st0 = DummyState { nodes, layers, chains: Seq::empty(), edges: Seq::empty(), error: None };
    if edges.len() == 0 {
        assert forall|r: int| 0 <= r < layers.len() implies layers[r].is_prefix_of(#[trigger] layers[r]) by {
            assert(layers[r].subrange(0, layers[r].len() as int) =~= layers[r]);
        }
    } else {
        let init = edges.drop_last();
        assert forall|k: int| 0 <= k < init.len() implies {
            &&& (#[trigger] init[k]).from < nodes.len()
            &&& init[k].to < nodes.len()
            &&& nodes[init[k].from as int].rank is Some
            &&& nodes[init[k].to as int].rank is Some
            &&& rank_at(nodes, init[k].to as int) > rank_at(nodes, init[k].from as int)
        } by {
            assert(init[k] == edges[k]);
        }
        lemma_fold_dummies(nodes, layers, init);
        lemma_fold_shape(nodes, layers, init);
        let st = dummy_fold(st0, init);
        let e = edges.last();
        assert(e == edges[edges.len() - 1]);
        assert(st.nodes[e.from as int] == nodes[e.from as int]);
        assert(st.nodes[e.to as int] == nodes[e.to as int]);
        let fin = dummy_step(st, e);
        let ra = rank_at(st.nodes, e.from as int);
        let rb = rank_at(st.nodes, e.to as int);
        if e.from != e.to && rb > ra + 1 {
            let k = rb - ra - 1;
            let base = st.nodes.len() as int;
            assert forall|v: int| nodes.len() <= v < fin.nodes.len() implies #[trigger] fin.nodes[v] == dummy_node(
                v,
                rank_at(fin.nodes, v),
            ) by {
                if v < base {
                    assert(fin.nodes[v] == st.nodes[v]);
                } else {
                    assert(fin.nodes[v] == dummy_node(v, ra + 1 + (v - base)));
                }
            }
            assert forall|r: int| 0 <= r < layers.len() implies layers[r].is_prefix_of(#[trigger] fin.layers[r]) by {
                assert(st.layers[r].subrange(0, layers[r].len() as int) =~= layers[r]);
                assert(fin.layers[r].subrange(0, st.layers[r].len() as int) =~= st.layers[r]);
                assert(fin.layers[r].subrange(0, layers[r].len() as int) =~= layers[r]);
            }
        }
    }
}

/// Dummy insertion after rank assignment, as a whole: it succeeds; the
/// existing nodes keep everything but their order; each node after them is
/// a dummy with its own id as id, no size and no coordinates, a rank, and
/// a place in the layer of that rank; every given layer stays a prefix of
/// its layer; and the layers still list each node once, in the layer of its
/// rank, with its position as its order. `n + dummies` must fit in a
/// `usize`.
pub proof fn lemma_dummy_insertion_shape(nodes: Seq<LayoutNode>, layers: Seq<Seq<NodeId>>, edges: Seq<LayoutEdge>)
    requires
        downward_edges(nodes, edges),
        orders_consistent(OrderState { nodes, layers }),
        crate::crossing_laws::layers_match_ranks(nodes, layers),
        nodes.len() + dummy_count(nodes, edges) <= usize::MAX,
    ensures
        ({
            let fin = dummy_fold(
                DummyState { nodes, layers, chains: Seq::empty(), edges: Seq::empty(), error: None },
                edges,
            );
            let out = reseeded(fin.nodes, fin.layers);
            &&& fin.error is None
            &&& out.len() >= nodes.len()
            &&& forall|v: int|
                0 <= v < nodes.len() ==> #[trigger] out[v] == (LayoutNode { order: out[v].order, ..nodes[v] })
            &&& forall|v: int|
                nodes.len() <= v < out.len() ==> {
                    &&& (#[trigger] out[v]).id == v
                    &&& out[v].node_type == NodeType::Dummy
                    &&& out[v].width == 0 && out[v].height == 0 && out[v].x == 0 && out[v].y == 0
                    &&& out[v].rank is Some
                    &&& fin.layers[rank_at(out, v)].contains(v as usize)
                }
            &&& fin.layers.len() >= layers.len()
            &&& forall|r: int| 0 <= r < layers.len() ==> layers[r].is_prefix_of(#[trigger] fin.layers[r])
            &&& orders_consistent(OrderState { nodes: out, layers: fin.layers })
            &&& crate::crossing_laws::layers_match_ranks(out, fin.layers)
        }),
{
    let fin = dummy_fold(
        DummyState { nodes, layers, chains: Seq::empty(), edges: Seq::empty(), error: None },
        edges,
    );
    let out = reseeded(fin.nodes, fin.layers);
    lemma_fold_shape(nodes, layers, edges);
    lemma_fold_dummies(nodes, layers, edges);
    lemma_dummy_insertion_keeps_orders_consistent(nodes, layers, edges);
    lemma_dummy_insertion_keeps_layers_matching_ranks(nodes, layers, edges);
    assert forall|v: int| 0 <= v < nodes.len() implies #[trigger] out[v] == (LayoutNode { order: out[v].order, ..nodes[v] }) by {
        assert(fin.nodes[v] == nodes[v]);
    }
    assert forall|v: int| nodes.len() <= v < out.len() implies {
        &&& (#[trigger] out[v]).id == v
        &&& out[v].node_type == NodeType::Dummy
        &&& out[v].width == 0 && out[v].height == 0 && out[v].x == 0 && out[v].y == 0
        &&& out[v].rank is Some
        &&& fin.layers[rank_at(out, v)].contains(v as usize)
    } by {
        assert(fin.nodes[v] == dummy_node(v, rank_at(fin.nodes, v)));
        assert(out[v].rank == fin.nodes[v].rank);
        assert(crate::crossings::rank_val(out, v) == rank_at(out, v));
    }
}

/// The chain of edge `e`, with `n` nodes before insertion and `nodes` after
/// it: it runs from `e.from` to `e.to`, one waypoint per rank, through new
/// dummies only (on the ranks strictly between the endpoints of a long
/// edge), and it carries the edge's original direction (the one before
/// cycle breaking reversed it), its label, and whether it was reversed or
/// is a self-loop.
pub open spec fn chain_follows_edge(c: ChainModel, e: LayoutEdge, n: int, nodes: Seq<LayoutNode>) -> bool {
    let span = rank_at(nodes, e.to as int) - rank_at(nodes, e.from as int);
    &&& c.source == (if e.reversed { e.to } else { e.from })
    &&& c.target == (if e.reversed { e.from } else { e.to })
    &&& c.is_self_loop == (e.from == e.to)
    &&& c.reversed == (e.reversed && e.from != e.to)
    &&& c.label_size == e.label_size
    &&& c.chain.len() == (if e.from == e.to {
        1
    } else if span > 1 {
        span + 1
    } else {
        2
    })
    &&& c.chain[0] == e.from
    &&& c.chain[c.chain.len() - 1] == e.to
    &&& forall|i: int|
        0 < i < c.chain.len() - 1 ==> {
            &&& n <= #[trigger] c.chain[i] < nodes.len()
            &&& nodes[c.chain[i] as int].node_type == NodeType::Dummy
            &&& rank_at(nodes, c.chain[i] as int) == rank_at(nodes, e.from as int) + i
        }
}

/// The fold only appends nodes.
proof fn lemma_fold_extends(st: DummyState, edges: Seq<LayoutEdge>)
    ensures
        dummy_fold(st, edges).nodes.len() >= st.nodes.len(),
        forall|v: int| 0 <= v < st.nodes.len() ==> #[trigger] dummy_fold(st, edges).nodes[v] == st.nodes[v],
    decreases edges.len(),
{
    if edges.len() > 0 {
        lemma_fold_extends(st, edges.drop_last());
    }
}

/// A chain that follows its edge keeps doing so when nodes are appended.
proof fn lemma_chain_follows_after_append(c: ChainModel, e: LayoutEdge, n: int, a: Seq<LayoutNode>, b: Seq<LayoutNode>)
    requires
        chain_follows_edge(c, e, n, a),
        e.from < a.len(),
        e.to < a.len(),
        b.len() >= a.len(),
        forall|v: int| 0 <= v < a.len() ==> #[trigger] b[v] == a[v],
    ensures
        chain_follows_edge(c, e, n, b),
{
    assert(b[e.from as int] == a[e.from as int]);
    assert(b[e.to as int] == a[e.to as int]);
    assert forall|i: int| 0 < i < c.chain.len() - 1 implies {
        &&& n <= #[trigger] c.chain[i] < b.len()
        &&& b[c.chain[i] as int].node_type == NodeType::Dummy
        &&& rank_at(b, c.chain[i] as int) == rank_at(b, e.from as int) + i
    } by {
        assert(b[c.chain[i] as int] == a[c.chain[i] as int]);
    }
}

/// Every chain that dummy insertion records follows its edge: it starts at
/// the edge's source and ends at its target, goes through one new dummy
/// per rank in between, and reports the edge's original direction, label,
/// reversal and self-loop flag.
pub proof fn lemma_chains_follow_edges(nodes: Seq<LayoutNode>, layers: Seq<Seq<NodeId>>, edges: Seq<LayoutEdge>)
    requires
        dummy_fold(
            DummyState { nodes, layers, chains: Seq::empty(), edges: Seq::empty(), error: None },
            edges,
        ).error is None,
        dummy_fold(
            DummyState { nodes, layers, chains: Seq::empty(), edges: Seq::empty(), error: None },
            edges,
        ).nodes.len() <= usize::MAX,
    ensures
        ({
            let fin = dummy_fold(
                DummyState { nodes, layers, chains: Seq::empty(), edges: Seq::empty(), error: None },
                edges,
            );
            &&& fin.chains.len() == edges.len()
            &&& forall|k: int|
                #![trigger edges[k]]
                #![trigger fin.chains[k]]
                0 <= k < edges.len() ==> {
                    &&& edges[k].from < fin.nodes.len()
                    &&& edges[k].to < fin.nodes.len()
                    &&& chain_follows_edge(fin.chains[k], edges[k], nodes.len() as int, fin.nodes)
                }
        }),
    decreases edges.len(),
{
    let st0 = DummyState { nodes, layers, chains: Seq::empty(), edges: Seq::empty(), error: None };
    if edges.len() > 0 {
        let init = edges.drop_last();
        let st = dummy_fold(st0, init);
        let e = edges.last();
        let fin = dummy_step(st, e);
        assert(dummy_fold(st0, edges) == fin);
        assert(st.error is None);
        lemma_fold_extends(st0, init);
        assert(fin.nodes.len() >= st.nodes.len());
        lemma_chains_follow_edges(nodes, layers, init);
        let ra = rank_at(st.nodes, e.from as int);
        let rb = rank_at(st.nodes, e.to as int);
        assert(e.from < st.nodes.len() && e.to < st.nodes.len());
        assert(fin.nodes.len() >= st.nodes.len());
        assert forall|v: int| 0 <= v < st.nodes.len() implies #[trigger] fin.nodes[v] == st.nodes[v] by {
        }
        assert(fin.chains.len() == edges.len());
        assert forall|k: int|
            #![trigger edges[k]]
            #![trigger fin.chains[k]]
            0 <= k < edges.len() implies {
            &&& edges[k].from < fin.nodes.len()
            &&& edges[k].to < fin.nodes.len()
            &&& chain_follows_edge(fin.chains[k], edges[k], nodes.len() as int, fin.nodes)
        } by {
            if k < init.len() {
                assert(st.chains[k] == st.chains[k]);
                assert(init[k] == edges[k]);
                assert(fin.chains[k] == st.chains[k]);
                lemma_chain_follows_after_append(st.chains[k], edges[k], nodes.len() as int, st.nodes, fin.nodes);
            } else {
                assert(edges[k] == e);
                let c = fin.chains[k];
                assert(rank_at(fin.nodes, e.from as int) == ra);
                assert(rank_at(fin.nodes, e.to as int) == rb);
                if e.from != e.to && rb > ra + 1 {
                    let base = st.nodes.len() as int;
                    let cnt = rb - ra - 1;
                    assert(c.chain == long_path(e.from as int, e.to as int, base, cnt));
                    assert forall|i: int| 0 < i < c.chain.len() - 1 implies {
                        &&& nodes.len() <= #[trigger] c.chain[i] < fin.nodes.len()
                        &&& fin.nodes[c.chain[i] as int].node_type == NodeType::Dummy
                        &&& rank_at(fin.nodes, c.chain[i] as int) == rank_at(fin.nodes, e.from as int) + i
                    } by {
                        let mid = Seq::new(cnt as nat, |j: int| (base + j) as usize);
                        let left = seq![e.from] + mid;
                        assert(c.chain =~= left + seq![e.to]);
                        assert(c.chain[i] == left[i]);
                        assert(left[i] == mid[i - 1]);
                        assert(c.chain[i] == base + i - 1);
                        assert(fin.nodes[base + i - 1] == dummy_node(base + i - 1, ra + 1 + (i - 1)));
                    }
                }
                assert(c.chain[0] == e.from);
                assert(c.chain[c.chain.len() - 1] == e.to);
                assert(chain_follows_edge(c, e, nodes.len() as int, fin.nodes));
            }
        }
        assert(fin.chains.len() == edges.len());
        let whole = dummy_fold(st0, edges);
        assert(whole.chains.len() == edges.len());
        assert forall|k: int|
            #![trigger edges[k]]
            #![trigger whole.chains[k]]
            0 <= k < edges.len() implies {
            &&& edges[k].from < whole.nodes.len()
            &&& edges[k].to < whole.nodes.len()
            &&& chain_follows_edge(whole.chains[k], edges[k], nodes.len() as int, whole.nodes)
        } by {
            assert(whole.chains[k] == fin.chains[k]);
        }
    } else {
        assert(dummy_fold(st0, edges) == st0);
    }
}

/// The hops of a chain: its consecutive waypoints, or the loop on its one
/// waypoint; a hop is marked reversed only when it is the whole of a
/// reversed edge (a hop to or from a dummy never is, nor a loop).
pub open spec fn chain_hops(c: ChainModel) -> Seq<(NodeId, NodeId, bool)> {
    if c.chain.len() <= 1 {
        seq![(c.chain[0], c.chain[0], false)]
    } else {
        Seq::new(
            (c.chain.len() - 1) as nat,
            |i: int| (c.chain[i], c.chain[i + 1], c.chain.len() == 2 && c.reversed),
        )
    }
}

/// The hops of the chains, chain after chain.
pub open spec fn all_hops(chains: Seq<ChainModel>) -> Seq<(NodeId, NodeId, bool)>
    decreases chains.len(),
{
    if chains.len() == 0 {
        Seq::empty()
    } else {
        all_hops(chains.drop_last()) + chain_hops(chains.last())
    }
}

/// The endpoints and the reversal flag of each edge.
pub open spec fn edge_ends(edges: Seq<LayoutEdge>) -> Seq<(NodeId, NodeId, bool)> {
    edges.map_values(|e: LayoutEdge| (e.from, e.to, e.reversed))
}

/// The edges that replace the input are exactly the hops of the chains,
/// chain after chain: every replacement edge joins two consecutive
/// waypoints of one chain, and every such pair is joined once.
pub proof fn lemma_edges_follow_chains(nodes: Seq<LayoutNode>, layers: Seq<Seq<NodeId>>, edges: Seq<LayoutEdge>)
    requires
        dummy_fold(
            DummyState { nodes, layers, chains: Seq::empty(), edges: Seq::empty(), error: None },
            edges,
        ).error is None,
    ensures
        ({
            let fin = dummy_fold(
                DummyState { nodes, layers, chains: Seq::empty(), edges: Seq::empty(), error: None },
                edges,
            );
            edge_ends(fin.edges) == all_hops(fin.chains)
        }),
    decreases edges.len(),
{
    let st0 = DummyState { nodes, layers, chains: Seq::empty(), edges: Seq::empty(), error: None };
    if edges.len() == 0 {
        assert(edge_ends(st0.edges) =~= Seq::<(NodeId, NodeId, bool)>::empty());
    } else {
        let init = edges.drop_last();
        let st = dummy_fold(st0, init);
        let e = edges.last();
        let fin = dummy_step(st, e);
        assert(dummy_fold(st0, edges) == fin);
        assert(st.error is None);
        lemma_edges_follow_chains(nodes, layers, init);
        assert(fin.chains.drop_last() =~= st.chains);
        let c = fin.chains.last();
        let added = fin.edges.subrange(st.edges.len() as int, fin.edges.len() as int);
        assert(fin.edges =~= st.edges + added);
        assert(edge_ends(st.edges + added) =~= edge_ends(st.edges) + edge_ends(added));
        assert(edge_ends(added) =~= chain_hops(c));
    }
}

} // verus!
