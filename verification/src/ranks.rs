//! Rank Assignment
//!
//! Assigns ranks to nodes using Kahn's algorithm for topological sorting
//! combined with longest-path relaxation, so that every node sits on the
//! lowest layer its predecessors allow (minimum height).
use vstd::prelude::*;
use std::collections::VecDeque;
use vstd::set_lib::{set_int_range, lemma_int_range, lemma_len_subset};
use crate::types::{LayoutGraph, LayoutEdge, LayoutNode, LayoutError, RankSystem, NodeId, RankId};
use crate::validate::{validate_graph, validation_result, well_formed, dense_ids, endpoints_in_range, no_self_loops, is_dangling};
use crate::cycles::{acyclic, is_strict_potential, joins_existing};
use crate::dummy_nodes::{downward_edges, rank_at};
use crate::crossings::{layers_in_range, orders_consistent, OrderState};

verus! {

/// The edges into `v` whose source is not in `done`, leaving out the edges
/// from `u` that sit below position `j` of `u`'s out-list.
pub open spec fn pending_in(edges: Seq<LayoutEdge>, v: int, done: Set<int>, u: int, j: int, opos: Seq<int>) -> Set<int> {
    Set::new(
        |e: int|
            0 <= e < edges.len() && edges[e].to == v && !done.contains(edges[e].from as int) && !(
            edges[e].from == u && opos[e] < j),
    )
}

proof fn lemma_pending_finite(edges: Seq<LayoutEdge>, v: int, done: Set<int>, u: int, j: int, opos: Seq<int>)
    ensures
        pending_in(edges, v, done, u, j, opos).finite(),
        pending_in(edges, v, done, u, j, opos).len() <= edges.len(),
{
    lemma_int_range(0, edges.len() as int);
    lemma_len_subset(pending_in(edges, v, done, u, j, opos), set_int_range(0, edges.len() as int));
}

/// `out[u]` lists the targets of the edges leaving `u`, in edge order;
/// `oe[u][j]` is the index of the edge behind `out[u][j]` and `opos` maps
/// each edge back to its position.
pub open spec fn out_wf(out: Seq<Vec<usize>>, edges: Seq<LayoutEdge>, n: int, oe: Seq<Seq<int>>, opos: Seq<int>) -> bool {
    &&& out.len() == n
    &&& oe.len() == n
    &&& opos.len() == edges.len()
    &&& forall|u: int| 0 <= u < n ==> (#[trigger] oe[u]).len() == out[u]@.len()
    &&& forall|u: int, j: int|
        0 <= u < n && 0 <= j < out[u]@.len() ==> {
            let e = #[trigger] oe[u][j];
            &&& 0 <= e < edges.len()
            &&& edges[e].from == u
            &&& edges[e].to == out[u]@[j]
            &&& opos[e] == j
        }
    &&& forall|e: int|
        0 <= e < edges.len() ==> {
            &&& 0 <= #[trigger] opos[e] < out[edges[e].from as int]@.len()
            &&& oe[edges[e].from as int][opos[e]] == e
        }
}

/// Builds the out-lists and in-degrees of a well-formed graph.
fn build_adjacency(graph: &LayoutGraph) -> (res: (Vec<Vec<NodeId>>, Vec<usize>, Ghost<(Seq<Seq<int>>, Seq<int>)>))
    requires
        well_formed(graph.nodes@, graph.edges@),
    ensures
        out_wf(res.0@, graph.edges@, graph.nodes@.len() as int, res.2@.0, res.2@.1),
        res.1@.len() == graph.nodes@.len(),
        forall|v: int|
            0 <= v < graph.nodes@.len() ==> #[trigger] res.1@[v] == pending_in(
                graph.edges@,
                v,
                Set::empty(),
                -1,
                0,
                res.2@.1,
            ).len(),
{
    let n = graph.nodes.len();
    let m = graph.edges.len();
    let ghost edges = graph.edges@;
    let mut out_edges: Vec<Vec<NodeId>> = Vec::new();
    let mut in_degree: Vec<usize> = Vec::new();
    for i in 0..n
        invariant
            out_edges@.len() == i,
            in_degree@.len() == i,
            forall|j: int| 0 <= j < i ==> (#[trigger] out_edges@[j])@.len() == 0,
            forall|j: int| 0 <= j < i ==> #[trigger] in_degree@[j] == 0,
    {
        out_edges.push(Vec::new());
        in_degree.push(0);
    }
    let ghost mut oe: Seq<Seq<int>> = Seq::new(n as nat, |u: int| Seq::<int>::empty());
    let ghost mut opos: Seq<int> = Seq::new(m as nat, |e: int| 0);
    proof {
        assert forall|v: int| 0 <= v < n implies #[trigger] in_degree@[v] == Set::new(
            |e: int| 0 <= e < 0 && edges[e].to == v,
        ).len() by {
            assert(Set::new(|e: int| 0 <= e < 0 && edges[e].to == v) =~= Set::empty());
        }
    }
    for idx in 0..m
        invariant
            n == graph.nodes@.len(),
            m == edges.len(),
            edges == graph.edges@,
            well_formed(graph.nodes@, edges),
            out_edges@.len() == n,
            in_degree@.len() == n,
            oe.len() == n,
            opos.len() == m,
            forall|u: int| 0 <= u < n ==> (#[trigger] oe[u]).len() == out_edges@[u]@.len(),
            forall|u: int, j: int|
                0 <= u < n && 0 <= j < out_edges@[u]@.len() ==> {
                    let e = #[trigger] oe[u][j];
                    &&& 0 <= e < idx
                    &&& edges[e].from == u
                    &&& edges[e].to == out_edges@[u]@[j]
                    &&& opos[e] == j
                },
            forall|e: int|
                0 <= e < idx ==> {
                    &&& 0 <= #[trigger] opos[e] < out_edges@[edges[e].from as int]@.len()
                    &&& oe[edges[e].from as int][opos[e]] == e
                },
            forall|v: int|
                0 <= v < n ==> #[trigger] in_degree@[v] == Set::new(
                    |e: int| 0 <= e < idx && edges[e].to == v,
                ).len(),
    {
        let edge = graph.edges[idx];
        assert(!is_dangling(edges[idx as int], n as int));
        let ghost out0 = out_edges@;
        let ghost oe0 = oe;
        let ghost opos0 = opos;
        let ghost deg0 = in_degree@;
        let ghost s_old = Set::new(|e: int| 0 <= e < idx && edges[e].to == edge.to);
        proof {
            lemma_int_range(0, idx as int);
            lemma_len_subset(s_old, set_int_range(0, idx as int));
            assert(Set::new(|e: int| 0 <= e < idx + 1 && edges[e].to == edge.to) =~= s_old.insert(idx as int));
            opos = opos.update(idx as int, out_edges@[edge.from as int]@.len() as int);
            oe = oe.update(edge.from as int, oe[edge.from as int].push(idx as int));
        }
        out_edges[edge.from].push(edge.to);
        in_degree.set(edge.to, in_degree[edge.to] + 1);
        proof {
            assert forall|u: int, j: int|
                0 <= u < n && 0 <= j < out_edges@[u]@.len() implies {
                    let e = #[trigger] oe[u][j];
                    &&& 0 <= e < idx + 1
                    &&& edges[e].from == u
                    &&& edges[e].to == out_edges@[u]@[j]
                    &&& opos[e] == j
                } by {
                if u != edge.from || j < out0[u]@.len() {
                    assert(oe[u][j] == oe0[u][j]);
                    assert(out_edges@[u]@[j] == out0[u]@[j]);
                    assert(oe0[u][j] < idx);
                }
            }
            assert forall|e: int|
                0 <= e < idx + 1 implies {
                    &&& 0 <= #[trigger] opos[e] < out_edges@[edges[e].from as int]@.len()
                    &&& oe[edges[e].from as int][opos[e]] == e
                } by {
                if e < idx {
                    assert(opos[e] == opos0[e]);
                    assert(oe0[edges[e].from as int][opos0[e]] == e);
                }
            }
            assert forall|v: int| 0 <= v < n implies #[trigger] in_degree@[v] == Set::new(
                |e: int| 0 <= e < idx + 1 && edges[e].to == v,
            ).len() by {
                if v != edge.to {
                    assert(Set::new(|e: int| 0 <= e < idx + 1 && edges[e].to == v) =~= Set::new(
                        |e: int| 0 <= e < idx && edges[e].to == v,
                    ));
                }
            }
        }
    }
    proof {
        assert forall|v: int| 0 <= v < n implies #[trigger] in_degree@[v] == pending_in(
            edges,
            v,
            Set::empty(),
            -1,
            0,
            opos,
        ).len() by {
            assert(pending_in(edges, v, Set::empty(), -1, 0, opos) =~= Set::new(
                |e: int| 0 <= e < m && edges[e].to == v,
            ));
        }
    }
    (out_edges, in_degree, Ghost((oe, opos)))
}

/// A node outside `done` on which `pot` is least among those below `k`.
proof fn lemma_least_outside(pot: Seq<int>, done: Set<int>, k: int) -> (x: int)
    requires
        0 <= k <= pot.len(),
        exists|y: int| 0 <= y < k && !done.contains(y),
    ensures
        0 <= x < k,
        !done.contains(x),
        forall|y: int| 0 <= y < k && !done.contains(y) ==> pot[x] <= pot[y],
    decreases k,
{
    if exists|y: int| 0 <= y < k - 1 && !done.contains(y) {
        let x1 = lemma_least_outside(pot, done, k - 1);
        if !done.contains(k - 1) && pot[k - 1] < pot[x1] {
            k - 1
        } else {
            x1
        }
    } else {
        k - 1
    }
}

/// Kahn's algorithm: repeatedly takes a node all of whose predecessors have
/// been taken, in first-in first-out order starting from the sources in id
/// order. Returns the nodes taken, and for each taken node its position.
fn kahn_order(
    n: usize,
    out_edges: &Vec<Vec<NodeId>>,
    in_degree: Vec<usize>,
    Ghost(edges): Ghost<Seq<LayoutEdge>>,
    Ghost(oe): Ghost<Seq<Seq<int>>>,
    Ghost(opos): Ghost<Seq<int>>,
) -> (res: (Vec<NodeId>, Ghost<Seq<int>>))
    requires
        out_wf(out_edges@, edges, n as int, oe, opos),
        endpoints_in_range(edges, n as int),
        no_self_loops(edges),
        in_degree@.len() == n,
        forall|v: int|
            0 <= v < n ==> #[trigger] in_degree@[v] == pending_in(edges, v, Set::empty(), -1, 0, opos).len(),
    ensures
        res.0@.len() <= n,
        res.1@.len() == n,
        forall|i: int| 0 <= i < res.0@.len() ==> #[trigger] res.0@[i] < n && res.1@[res.0@[i] as int] == i,
        (res.0@.len() == n) == acyclic(edges, n as int),
        res.0@.len() == n ==> forall|x: int| 0 <= x < n ==> 0 <= #[trigger] res.1@[x] < n && res.0@[res.1@[x]] == x,
        res.0@.len() == n ==> forall|e: int|
            0 <= e < edges.len() ==> res.1@[(#[trigger] edges[e]).from as int] < res.1@[edges[e].to as int],
{
    let ghost m = edges.len() as int;
    let mut in_degree = in_degree;
    let mut queue: VecDeque<NodeId> = VecDeque::new();
    for id in 0..n
        invariant
            in_degree@.len() == n,
            forall|i: int| 0 <= i < queue@.len() ==> #[trigger] queue@[i] < id && in_degree@[queue@[i] as int] == 0,
            forall|i: int, j: int| 0 <= i < j < queue@.len() ==> #[trigger] queue@[i] < #[trigger] queue@[j],
            forall|v: int| 0 <= v < id && #[trigger] in_degree@[v] == 0 ==> queue@.contains(v as usize),
    {
        if in_degree[id] == 0 {
            let ghost q0 = queue@;
            queue.push_back(id);
            proof {
                assert forall|v: int| 0 <= v < id + 1 && #[trigger] in_degree@[v] == 0 implies queue@.contains(v as usize) by {
                    if v < id {
                        let k = choose|k: int| 0 <= k < q0.len() && q0[k] == v as usize;
                        assert(queue@[k] == v as usize);
                    } else {
                        assert(queue@[q0.len() as int] == v as usize);
                    }
                }
            }
        }
    }
    proof {
        assert(queue@.no_duplicates()) by {
            assert forall|i: int, j: int| 0 <= i < queue@.len() && 0 <= j < queue@.len() && i != j implies queue@[i] != queue@[j] by {
                if i < j {
                    assert(queue@[i] < queue@[j]);
                } else {
                    assert(queue@[j] < queue@[i]);
                }
            }
        }
        assert forall|v: int| 0 <= v < n implies #[trigger] in_degree@[v] == pending_in(edges, v, Set::<int>::empty(), -1, 0, opos).len() by {}
    }
    let mut topo_order: Vec<NodeId> = Vec::with_capacity(n);
    let ghost mut done: Set<int> = Set::empty();
    let ghost mut pos: Seq<int> = Seq::new(n as nat, |i: int| -1);
    while queue.len() > 0
        invariant
            m == edges.len(),
            out_wf(out_edges@, edges, n as int, oe, opos),
            endpoints_in_range(edges, n as int),
            no_self_loops(edges),
            in_degree@.len() == n,
            forall|v: int|
                0 <= v < n ==> #[trigger] in_degree@[v] == pending_in(edges, v, done, -1, 0, opos).len(),
            done.finite(),
            done.len() == topo_order@.len(),
            pos.len() == n,
            forall|x: int| #[trigger] done.contains(x) ==> 0 <= x < n && 0 <= pos[x] < topo_order@.len() && topo_order@[pos[x]] == x,
            forall|i: int| 0 <= i < topo_order@.len() ==> #[trigger] topo_order@[i] < n && done.contains(topo_order@[i] as int) && pos[topo_order@[i] as int] == i,
            forall|i: int|
                0 <= i < queue@.len() ==> #[trigger] queue@[i] < n && !done.contains(queue@[i] as int) && in_degree@[queue@[i] as int] == 0,
            queue@.no_duplicates(),
            forall|v: int| 0 <= v < n && !done.contains(v) && #[trigger] in_degree@[v] == 0 ==> queue@.contains(v as usize),
            forall|e: int|
                0 <= e < m && #[trigger] done.contains(edges[e].to as int) ==> done.contains(edges[e].from as int) && pos[edges[e].from as int] < pos[edges[e].to as int],
        decreases n - topo_order@.len(),
    {
        proof {
            lemma_int_range(0, n as int);
            lemma_len_subset(done, set_int_range(0, n as int));
        }
        let ghost q0 = queue@;
        let u = queue.pop_front().unwrap();
        let ghost done0 = done;
        let ghost deg0 = in_degree@;
        assert(q0[0] == u);
        assert(!done.contains(u as int));
        proof {
            lemma_pending_finite(edges, u as int, done0, -1, 0, opos);
            assert forall|e: int| 0 <= e < m && edges[e].to == u implies done0.contains(edges[e].from as int) by {
                if !done0.contains(edges[e].from as int) {
                    assert(pending_in(edges, u as int, done0, -1, 0, opos).contains(e));
                    assert(pending_in(edges, u as int, done0, -1, 0, opos).len() != 0);
                }
            }
            assert(done.len() < n) by {
                lemma_len_subset(done.insert(u as int), set_int_range(0, n as int));
            }
        }
        topo_order.push(u);
        proof {
            pos = pos.update(u as int, topo_order@.len() - 1);
            done = done.insert(u as int);
            assert forall|v: int| 0 <= v < n implies #[trigger] in_degree@[v] == pending_in(edges, v, done0, u as int, 0, opos).len() by {
                assert(pending_in(edges, v, done0, u as int, 0, opos) =~= pending_in(edges, v, done0, -1, 0, opos));
            }
            assert forall|i: int| 0 <= i < queue@.len() implies #[trigger] queue@[i] < n && !done.contains(queue@[i] as int) && in_degree@[queue@[i] as int] == 0 by {
                assert(queue@[i] == q0[i + 1]);
                assert(q0[i + 1] != q0[0]);
            }
            assert forall|v: int| 0 <= v < n && !done.contains(v) && #[trigger] in_degree@[v] == 0 implies queue@.contains(v as usize) by {
                assert(q0.contains(v as usize));
                let k = choose|k: int| 0 <= k < q0.len() && q0[k] == v as usize;
                assert(k != 0);
                assert(queue@[k - 1] == v as usize);
            }
        }
        let out_u = &out_edges[u];
        let len_u = out_u.len();
        for j in 0..len_u
            invariant
                m == edges.len(),
                out_wf(out_edges@, edges, n as int, oe, opos),
                endpoints_in_range(edges, n as int),
                no_self_loops(edges),
                u < n,
                out_u@ == out_edges@[u as int]@,
                len_u == out_u@.len(),
                !done0.contains(u as int),
                done == done0.insert(u as int),
                in_degree@.len() == n,
                forall|v: int|
                    0 <= v < n ==> #[trigger] in_degree@[v] == pending_in(edges, v, done0, u as int, j as int, opos).len(),
                forall|i: int|
                    0 <= i < queue@.len() ==> #[trigger] queue@[i] < n && !done.contains(queue@[i] as int) && in_degree@[queue@[i] as int] == 0,
                queue@.no_duplicates(),
                forall|v: int| 0 <= v < n && !done.contains(v) && #[trigger] in_degree@[v] == 0 ==> queue@.contains(v as usize),
                forall|e: int|
                    0 <= e < m && #[trigger] done0.contains(edges[e].to as int) ==> done0.contains(edges[e].from as int),
        {
            let succ = out_u[j];
            let ghost e_star = oe[u as int][j as int];
            let ghost deg1 = in_degree@;
            let ghost q1 = queue@;
            proof {
                assert(oe[u as int][j as int] == e_star);
                assert(edges[e_star].from == u && edges[e_star].to == succ && opos[e_star] == j);
                assert(succ != u);
                assert(!done0.contains(succ as int));
                lemma_pending_finite(edges, succ as int, done0, u as int, j as int, opos);
                let s_j = pending_in(edges, succ as int, done0, u as int, j as int, opos);
                assert(s_j.contains(e_star));
                assert(pending_in(edges, succ as int, done0, u as int, j as int + 1, opos) =~= s_j.remove(e_star)) by {
                    assert forall|e: int| #[trigger] s_j.contains(e) && e != e_star implies !(edges[e].from == u && opos[e] == j) by {
                        if edges[e].from == u && opos[e] == j {
                            assert(oe[u as int][opos[e]] == e);
                        }
                    }
                }
                assert(s_j.len() > 0);
            }
            in_degree.set(succ, in_degree[succ] - 1);
            if in_degree[succ] == 0 {
                queue.push_back(succ);
            }
            proof {
                assert forall|v: int| 0 <= v < n implies #[trigger] in_degree@[v] == pending_in(edges, v, done0, u as int, j as int + 1, opos).len() by {
                    if v != succ {
                        assert(pending_in(edges, v, done0, u as int, j as int + 1, opos) =~= pending_in(edges, v, done0, u as int, j as int, opos)) by {
                            assert forall|e: int| #[trigger] pending_in(edges, v, done0, u as int, j as int, opos).contains(e) implies !(edges[e].from == u && opos[e] == j) by {
                                if edges[e].from == u && opos[e] == j {
                                    assert(oe[u as int][opos[e]] == e);
                                }
                            }
                        }
                    }
                }
                assert(!q1.contains(succ)) by {
                    if q1.contains(succ) {
                        let k = choose|k: int| 0 <= k < q1.len() && q1[k] == succ;
                        assert(deg1[succ as int] == 0);
                    }
                }
                assert forall|i: int| 0 <= i < queue@.len() implies #[trigger] queue@[i] < n && !done.contains(queue@[i] as int) && in_degree@[queue@[i] as int] == 0 by {
                    if i < q1.len() {
                        assert(queue@[i] == q1[i]);
                    }
                }
                assert forall|v: int| 0 <= v < n && !done.contains(v) && #[trigger] in_degree@[v] == 0 implies queue@.contains(v as usize) by {
                    if v == succ {
                        assert(queue@[q1.len() as int] == succ);
                    } else {
                        assert(q1.contains(v as usize));
                        let k = choose|k: int| 0 <= k < q1.len() && q1[k] == v as usize;
                        assert(queue@[k] == v as usize);
                    }
                }
            }
        }
        proof {
            assert forall|v: int| 0 <= v < n implies #[trigger] in_degree@[v] == pending_in(edges, v, done, -1, 0, opos).len() by {
                assert(pending_in(edges, v, done, -1, 0, opos) =~= pending_in(edges, v, done0, u as int, len_u as int, opos));
            }
            assert forall|x: int| #[trigger] done.contains(x) implies 0 <= x < n && 0 <= pos[x] < topo_order@.len() && topo_order@[pos[x]] == x by {
                if x != u {
                    assert(done0.contains(x));
                }
            }
            assert forall|e: int|
                0 <= e < m && #[trigger] done.contains(edges[e].to as int) implies done.contains(edges[e].from as int) && pos[edges[e].from as int] < pos[edges[e].to as int] by {
                if edges[e].to == u {
                    assert(done0.contains(edges[e].from as int));
                }
            }
        }
    }
    proof {
        lemma_int_range(0, n as int);
        lemma_len_subset(done, set_int_range(0, n as int));
        if topo_order@.len() == n {
            assert forall|x: int| 0 <= x < n implies done.contains(x) by {
                if !done.contains(x) {
                    lemma_len_subset(done, set_int_range(0, n as int).remove(x));
                }
            }
            assert forall|k: int| 0 <= k < edges.len() && joins_existing(#[trigger] edges[k], n as int)
                implies pos[edges[k].from as int] < pos[edges[k].to as int] by {
                assert(done.contains(edges[k].to as int));
            }
            assert(is_strict_potential(edges, n as int, pos));
            assert forall|x: int| 0 <= x < n implies 0 <= #[trigger] pos[x] < n && topo_order@[pos[x]] == x by {
                assert(done.contains(x));
            }
        } else {
            assert(exists|y: int| 0 <= y < n && !done.contains(y)) by {
                if forall|y: int| 0 <= y < n ==> done.contains(y) {
                    assert(set_int_range(0, n as int) =~= done);
                }
            }
            if acyclic(edges, n as int) {
                let pot = choose|pot: Seq<int>| is_strict_potential(edges, n as int, pot);
                let x = lemma_least_outside(pot, done, n as int);
                lemma_pending_finite(edges, x, done, -1, 0, opos);
                assert(in_degree@[x] != 0) by {
                    if in_degree@[x] == 0 {
                        assert(queue@.contains(x as usize));
                    }
                }
                let pset = pending_in(edges, x, done, -1, 0, opos);
                assert(pset.len() != 0);
                vstd::set_lib::lemma_set_empty_equivalency_len(pset);
                let e = choose|e: int| pset.contains(e);
                assert(joins_existing(edges[e], n as int));
                assert(pot[edges[e].from as int] < pot[edges[e].to as int]);
                assert(false);
            }
        }
    }
    (topo_order, Ghost(pos))
}

/// The rank carried by node `v` (0 when none is set).
pub open spec fn rank_of(nodes: Seq<LayoutNode>, v: int) -> int {
    match nodes[v].rank {
        Some(r) => r as int,
        None => 0,
    }
}

/// The ranks carried by the nodes.
pub open spec fn ranks_of(nodes: Seq<LayoutNode>) -> Seq<int> {
    Seq::new(nodes.len(), |v: int| rank_of(nodes, v))
}

/// Longest-path layering: every edge climbs at least one rank, and every
/// node above rank 0 sits exactly one rank above some predecessor.
pub open spec fn is_longest_path_ranking(edges: Seq<LayoutEdge>, n: int, r: Seq<int>) -> bool {
    &&& r.len() == n
    &&& forall|v: int| 0 <= v < n ==> #[trigger] r[v] >= 0
    &&& forall|e: int|
        0 <= e < edges.len() ==> r[(#[trigger] edges[e]).to as int] >= r[edges[e].from as int] + 1
    &&& forall|v: int|
        0 <= v < n && #[trigger] r[v] > 0 ==> exists|e: int|
            0 <= e < edges.len() && (#[trigger] edges[e]).to == v && r[v] == r[edges[e].from as int] + 1
}

/// A layering: every node has a rank of at least 0 and every edge climbs
/// at least one rank.
pub open spec fn is_layering(edges: Seq<LayoutEdge>, n: int, r: Seq<int>) -> bool {
    &&& r.len() == n
    &&& forall|v: int| 0 <= v < n ==> #[trigger] r[v] >= 0
    &&& forall|e: int| 0 <= e < edges.len() ==> r[(#[trigger] edges[e]).to as int] >= r[edges[e].from as int] + 1
}

proof fn lemma_ranking_dominates(edges: Seq<LayoutEdge>, n: int, r1: Seq<int>, r2: Seq<int>, k: int)
    requires
        is_layering(edges, n, r1),
        is_longest_path_ranking(edges, n, r2),
        endpoints_in_range(edges, n),
    ensures
        forall|v: int| 0 <= v < n && r2[v] <= k ==> r1[v] >= #[trigger] r2[v],
    decreases k,
{
    if k > 0 {
        lemma_ranking_dominates(edges, n, r1, r2, k - 1);
        assert forall|v: int| 0 <= v < n && r2[v] <= k implies r1[v] >= #[trigger] r2[v] by {
            if r2[v] == k {
                let e = choose|e: int|
                    0 <= e < edges.len() && (#[trigger] edges[e]).to == v && r2[v] == r2[edges[e].from as int] + 1;
                assert(!is_dangling(edges[e], n));
                assert(r1[edges[e].from as int] >= r2[edges[e].from as int]);
            }
        }
    }
}

/// The longest-path layering puts every node as low as any layering can:
/// no rank is higher than in any other layering, so it uses as few layers
/// as possible.
pub proof fn lemma_longest_path_ranking_is_lowest(edges: Seq<LayoutEdge>, n: int, r: Seq<int>, other: Seq<int>)
    requires
        endpoints_in_range(edges, n),
        is_longest_path_ranking(edges, n, r),
        is_layering(edges, n, other),
    ensures
        forall|v: int| 0 <= v < n ==> #[trigger] r[v] <= other[v],
{
    assert forall|v: int| 0 <= v < n implies #[trigger] r[v] <= other[v] by {
        lemma_ranking_dominates(edges, n, other, r, r[v]);
    }
}

/// There is only one longest-path layering of a graph: the ranks that
/// `assign_ranks` reports are determined by the edges alone.
pub proof fn lemma_longest_path_ranking_unique(edges: Seq<LayoutEdge>, n: int, r1: Seq<int>, r2: Seq<int>)
    requires
        endpoints_in_range(edges, n),
        is_longest_path_ranking(edges, n, r1),
        is_longest_path_ranking(edges, n, r2),
    ensures
        r1 == r2,
{
    assert forall|v: int| 0 <= v < n implies r1[v] == r2[v] by {
        lemma_ranking_dominates(edges, n, r1, r2, r2[v]);
        lemma_ranking_dominates(edges, n, r2, r1, r1[v]);
    }
    assert(r1 =~= r2);
}

/// Sets every node's rank to its longest-path rank, processing the nodes in
/// the topological order `topo`. Returns the largest rank.
fn relax_longest_paths(
    graph: &mut LayoutGraph,
    topo: &Vec<NodeId>,
    out_edges: &Vec<Vec<NodeId>>,
    Ghost(pos): Ghost<Seq<int>>,
    Ghost(oe): Ghost<Seq<Seq<int>>>,
    Ghost(opos): Ghost<Seq<int>>,
) -> (max_rank: RankId)
    requires
        well_formed(old(graph).nodes@, old(graph).edges@),
        out_wf(out_edges@, old(graph).edges@, old(graph).nodes@.len() as int, oe, opos),
        topo@.len() == old(graph).nodes@.len(),
        pos.len() == old(graph).nodes@.len(),
        forall|i: int| 0 <= i < topo@.len() ==> #[trigger] topo@[i] < topo@.len() && pos[topo@[i] as int] == i,
        forall|x: int| 0 <= x < topo@.len() ==> 0 <= #[trigger] pos[x] < topo@.len() && topo@[pos[x]] == x,
        forall|e: int|
            0 <= e < old(graph).edges@.len() ==> pos[(#[trigger] old(graph).edges@[e]).from as int] < pos[old(graph).edges@[e].to as int],
    ensures
        final(graph).edges@ == old(graph).edges@,
        final(graph).nodes@.len() == old(graph).nodes@.len(),
        forall|v: int|
            0 <= v < final(graph).nodes@.len() ==> (#[trigger] final(graph).nodes@[v]).rank is Some && final(graph).nodes@[v]
                == (LayoutNode { rank: final(graph).nodes@[v].rank, ..old(graph).nodes@[v] }),
        is_longest_path_ranking(final(graph).edges@, final(graph).nodes@.len() as int, ranks_of(final(graph).nodes@)),
        forall|v: int| 0 <= v < final(graph).nodes@.len() ==> rank_of(final(graph).nodes@, v) <= max_rank,
        forall|v: int| 0 <= v < final(graph).nodes@.len() ==> rank_of(final(graph).nodes@, v) < final(graph).nodes@.len(),
        max_rank == 0 || exists|v: int| 0 <= v < final(graph).nodes@.len() && rank_of(final(graph).nodes@, v) == max_rank,
{
    let n = graph.nodes.len();
    let ghost nodes0 = graph.nodes@;
    let ghost edges = graph.edges@;
    let ghost m = edges.len() as int;
    for v in 0..n
        invariant
            n == graph.nodes@.len(),
            graph.edges@ == edges,
            forall|w: int| 0 <= w < v ==> #[trigger] graph.nodes@[w] == (LayoutNode { rank: Some(0), ..nodes0[w] }),
            forall|w: int| v <= w < n ==> #[trigger] graph.nodes@[w] == nodes0[w],
    {
        let mut node = graph.nodes[v];
        node.rank = Some(0);
        graph.nodes.set(v, node);
    }
    let mut max_rank: RankId = 0;
    for i in 0..n
        invariant
            n == graph.nodes@.len(),
            n == topo@.len(),
            m == edges.len(),
            graph.edges@ == edges,
            nodes0.len() == n,
            well_formed(nodes0, edges),
            out_wf(out_edges@, edges, n as int, oe, opos),
            pos.len() == n,
            forall|k: int| 0 <= k < topo@.len() ==> #[trigger] topo@[k] < topo@.len() && pos[topo@[k] as int] == k,
            forall|x: int| 0 <= x < topo@.len() ==> 0 <= #[trigger] pos[x] < topo@.len() && topo@[pos[x]] == x,
            forall|e: int| 0 <= e < m ==> pos[(#[trigger] edges[e]).from as int] < pos[edges[e].to as int],
            forall|w: int|
                0 <= w < n ==> (#[trigger] graph.nodes@[w]).rank is Some && graph.nodes@[w] == (LayoutNode {
                    rank: graph.nodes@[w].rank,
                    ..nodes0[w]
                }) && rank_of(graph.nodes@, w) <= pos[w],
            forall|e: int|
                0 <= e < m && pos[(#[trigger] edges[e]).from as int] < i ==> rank_of(graph.nodes@, edges[e].to as int)
                    >= rank_of(graph.nodes@, edges[e].from as int) + 1,
            forall|w: int|
                0 <= w < n && #[trigger] rank_of(graph.nodes@, w) > 0 ==> exists|e: int|
                    0 <= e < m && pos[(#[trigger] edges[e]).from as int] < i && edges[e].to == w && rank_of(graph.nodes@, w)
                        == rank_of(graph.nodes@, edges[e].from as int) + 1,
            forall|w: int| 0 <= w < n ==> #[trigger] rank_of(graph.nodes@, w) <= max_rank,
            max_rank == 0 || exists|w: int| 0 <= w < n && rank_of(graph.nodes@, w) == max_rank,
    {
        let u = topo[i];
        let current_rank = graph.nodes[u].rank.unwrap();
        let ghost nodes_i = graph.nodes@;
        assert(pos[u as int] == i);
        let out_u = &out_edges[u];
        let len_u = out_u.len();
        for j in 0..len_u
            invariant
                n == graph.nodes@.len(),
                n == topo@.len(),
                m == edges.len(),
                graph.edges@ == edges,
                nodes0.len() == n,
                well_formed(nodes0, edges),
                out_wf(out_edges@, edges, n as int, oe, opos),
                u < n,
                out_u@ == out_edges@[u as int]@,
                len_u == out_u@.len(),
                pos.len() == n,
                pos[u as int] == i,
                current_rank == rank_of(graph.nodes@, u as int),
                forall|x: int| 0 <= x < topo@.len() ==> 0 <= #[trigger] pos[x] < topo@.len() && topo@[pos[x]] == x,
                forall|e: int| 0 <= e < m ==> pos[(#[trigger] edges[e]).from as int] < pos[edges[e].to as int],
                forall|w: int|
                    0 <= w < n ==> (#[trigger] graph.nodes@[w]).rank is Some && graph.nodes@[w] == (LayoutNode {
                        rank: graph.nodes@[w].rank,
                        ..nodes0[w]
                    }) && rank_of(graph.nodes@, w) <= pos[w],
                forall|w: int| 0 <= w < n && pos[w] <= i ==> #[trigger] graph.nodes@[w] == nodes_i[w],
                forall|e: int|
                    0 <= e < m && (pos[(#[trigger] edges[e]).from as int] < i || (edges[e].from == u && opos[e] < j))
                        ==> rank_of(graph.nodes@, edges[e].to as int) >= rank_of(graph.nodes@, edges[e].from as int) + 1,
                forall|w: int|
                    0 <= w < n && #[trigger] rank_of(graph.nodes@, w) > 0 ==> exists|e: int|
                        0 <= e < m && pos[(#[trigger] edges[e]).from as int] <= i && edges[e].to == w && rank_of(graph.nodes@, w)
                            == rank_of(graph.nodes@, edges[e].from as int) + 1,
                forall|w: int| 0 <= w < n ==> #[trigger] rank_of(graph.nodes@, w) <= max_rank,
                max_rank == 0 || exists|w: int| 0 <= w < n && rank_of(graph.nodes@, w) == max_rank,
        {
            let succ = out_u[j];
            let ghost e_star = oe[u as int][j as int];
            let ghost nodes_j = graph.nodes@;
            proof {
                assert(oe[u as int][j as int] == e_star);
                assert(edges[e_star].from == u && edges[e_star].to == succ && opos[e_star] == j);
                assert(!is_dangling(edges[e_star], n as int));
                assert(pos[u as int] < pos[succ as int]);
                assert(current_rank <= pos[u as int]);
            }
            let candidate = current_rank + 1;
            if candidate > graph.nodes[succ].rank.unwrap() {
                let mut node = graph.nodes[succ];
                node.rank = Some(candidate);
                graph.nodes.set(succ, node);
            }
            if candidate > max_rank {
                max_rank = candidate;
            }
            proof {
                assert(rank_of(graph.nodes@, succ as int) >= candidate);
                assert forall|w: int| 0 <= w < n && w != succ implies #[trigger] graph.nodes@[w] == nodes_j[w] by {}
                assert forall|e: int|
                    0 <= e < m && (pos[(#[trigger] edges[e]).from as int] < i || (edges[e].from == u && opos[e] < j + 1))
                        implies rank_of(graph.nodes@, edges[e].to as int) >= rank_of(graph.nodes@, edges[e].from as int) + 1 by {
                    assert(edges[e].from != succ);
                    if edges[e].from == u && opos[e] == j {
                        assert(oe[u as int][opos[e]] == e);
                    }
                }
                assert forall|w: int|
                    0 <= w < n && #[trigger] rank_of(graph.nodes@, w) > 0 implies exists|e: int|
                        0 <= e < m && pos[(#[trigger] edges[e]).from as int] <= i && edges[e].to == w && rank_of(graph.nodes@, w)
                            == rank_of(graph.nodes@, edges[e].from as int) + 1 by {
                    if w == succ && rank_of(graph.nodes@, w) != rank_of(nodes_j, w) {
                        assert(edges[e_star].to == w);
                    } else {
                        assert(rank_of(graph.nodes@, w) == rank_of(nodes_j, w));
                        let e = choose|e: int|
                            0 <= e < m && pos[(#[trigger] edges[e]).from as int] <= i && edges[e].to == w && rank_of(nodes_j, w)
                                == rank_of(nodes_j, edges[e].from as int) + 1;
                        assert(edges[e].from != succ);
                        assert(rank_of(graph.nodes@, edges[e].from as int) == rank_of(nodes_j, edges[e].from as int));
                    }
                }
                assert forall|w: int| 0 <= w < n implies #[trigger] rank_of(graph.nodes@, w) <= max_rank by {
                    if w != succ {
                        assert(rank_of(graph.nodes@, w) == rank_of(nodes_j, w));
                    }
                }
                if max_rank != 0 && !(exists|w: int| 0 <= w < n && rank_of(graph.nodes@, w) == max_rank) {
                    if max_rank == candidate {
                        assert(rank_of(graph.nodes@, succ as int) == max_rank);
                    } else {
                        let w = choose|w: int| 0 <= w < n && rank_of(nodes_j, w) == max_rank;
                        if w != succ {
                            assert(rank_of(graph.nodes@, w) == rank_of(nodes_j, w));
                        } else {
                            assert(rank_of(graph.nodes@, succ as int) == max_rank);
                        }
                    }
                }
            }
        }
        proof {
            assert forall|e: int|
                0 <= e < m && pos[(#[trigger] edges[e]).from as int] < i + 1 implies rank_of(graph.nodes@, edges[e].to as int)
                    >= rank_of(graph.nodes@, edges[e].from as int) + 1 by {
                if pos[edges[e].from as int] == i {
                    assert(!is_dangling(edges[e], n as int));
                    assert(topo@[pos[edges[e].from as int]] == edges[e].from);
                    assert(0 <= opos[e] < out_edges@[edges[e].from as int]@.len());
                }
            }
            assert forall|w: int|
                0 <= w < n && #[trigger] rank_of(graph.nodes@, w) > 0 implies exists|e: int|
                    0 <= e < m && pos[(#[trigger] edges[e]).from as int] < i + 1 && edges[e].to == w && rank_of(graph.nodes@, w)
                        == rank_of(graph.nodes@, edges[e].from as int) + 1 by {
                let e = choose|e: int|
                    0 <= e < m && pos[(#[trigger] edges[e]).from as int] <= i && edges[e].to == w && rank_of(graph.nodes@, w)
                        == rank_of(graph.nodes@, edges[e].from as int) + 1;
            }
        }
    }
    proof {
        let r = ranks_of(graph.nodes@);
        assert forall|e: int| 0 <= e < m implies r[(#[trigger] edges[e]).to as int] >= r[edges[e].from as int] + 1 by {
            assert(!is_dangling(edges[e], n as int));
        }
        assert forall|w: int| 0 <= w < n && #[trigger] r[w] > 0 implies exists|e: int|
            0 <= e < m && (#[trigger] edges[e]).to == w && r[w] == r[edges[e].from as int] + 1 by {
            assert(rank_of(graph.nodes@, w) > 0);
            let e = choose|e: int|
                0 <= e < m && pos[(#[trigger] edges[e]).from as int] < n && edges[e].to == w && rank_of(graph.nodes@, w)
                    == rank_of(graph.nodes@, edges[e].from as int) + 1;
            assert(!is_dangling(edges[e], n as int));
        }
        assert forall|w: int| 0 <= w < n implies #[trigger] r[w] >= 0 by {}
        assert forall|w: int| 0 <= w < n implies rank_of(graph.nodes@, w) < n by {
            assert(graph.nodes@[w].rank is Some);
        }
    }
    max_rank
}

/// `layers[r]` lists, in increasing id order, exactly the nodes of rank `r`.
pub open spec fn layers_partition(layers: Seq<Vec<NodeId>>, nodes: Seq<LayoutNode>) -> bool {
    &&& forall|v: int| 0 <= v < nodes.len() ==> #[trigger] rank_of(nodes, v) < layers.len()
    &&& forall|r: int, p: int, q: int|
        0 <= r < layers.len() && 0 <= p < q < layers[r]@.len() ==> #[trigger] layers[r]@[p] < #[trigger] layers[r]@[q]
    &&& forall|r: int, p: int|
        0 <= r < layers.len() && 0 <= p < layers[r]@.len() ==> #[trigger] layers[r]@[p] < nodes.len() && rank_of(
            nodes,
            layers[r]@[p] as int,
        ) == r
    &&& forall|v: int| 0 <= v < nodes.len() ==> layers[#[trigger] rank_of(nodes, v)]@.contains(v as usize)
}

/// Groups the node ids by rank, each layer in increasing id order.
fn build_layers(nodes: &Vec<LayoutNode>, max_rank: RankId) -> (layers: Vec<Vec<NodeId>>)
    requires
        dense_ids(nodes@),
        forall|v: int| 0 <= v < nodes@.len() ==> (#[trigger] nodes@[v]).rank is Some,
        forall|v: int| 0 <= v < nodes@.len() ==> rank_of(nodes@, v) <= max_rank,
        max_rank < usize::MAX,
    ensures
        layers@.len() == max_rank + 1,
        layers_partition(layers@, nodes@),
{
    let n = nodes.len();
    let mut layers: Vec<Vec<NodeId>> = Vec::new();
    for r in 0..max_rank + 1
        invariant
            layers@.len() == r,
            forall|k: int| 0 <= k < r ==> (#[trigger] layers@[k])@.len() == 0,
    {
        layers.push(Vec::new());
    }
    for v in 0..n
        invariant
            n == nodes@.len(),
            dense_ids(nodes@),
            forall|w: int| 0 <= w < n ==> (#[trigger] nodes@[w]).rank is Some,
            forall|w: int| 0 <= w < n ==> rank_of(nodes@, w) <= max_rank,
            layers@.len() == max_rank + 1,
            forall|r: int, p: int, q: int|
                0 <= r < layers@.len() && 0 <= p < q < layers@[r]@.len() ==> #[trigger] layers@[r]@[p]
                    < #[trigger] layers@[r]@[q],
            forall|r: int, p: int|
                0 <= r < layers@.len() && 0 <= p < layers@[r]@.len() ==> #[trigger] layers@[r]@[p] < v && rank_of(
                    nodes@,
                    layers@[r]@[p] as int,
                ) == r,
            forall|w: int| 0 <= w < v ==> layers@[#[trigger] rank_of(nodes@, w)]@.contains(w as usize),
    {
        let r = nodes[v].rank.unwrap();
        let id = nodes[v].id;
        assert(id == v);
        assert(r == rank_of(nodes@, v as int));
        let ghost layers0 = layers@;
        layers[r].push(id);
        proof {
            assert forall|r2: int, p: int, q: int|
                0 <= r2 < layers@.len() && 0 <= p < q < layers@[r2]@.len() implies #[trigger] layers@[r2]@[p]
                    < #[trigger] layers@[r2]@[q] by {
                if r2 == r && q == layers0[r2]@.len() {
                    assert(layers@[r2]@[p] == layers0[r2]@[p]);
                } else {
                    assert(layers@[r2]@[p] == layers0[r2]@[p]);
                    assert(layers@[r2]@[q] == layers0[r2]@[q]);
                }
            }
            assert forall|r2: int, p: int|
                0 <= r2 < layers@.len() && 0 <= p < layers@[r2]@.len() implies #[trigger] layers@[r2]@[p] < v + 1
                    && rank_of(nodes@, layers@[r2]@[p] as int) == r2 by {
                if !(r2 == r && p == layers0[r2]@.len()) {
                    assert(layers@[r2]@[p] == layers0[r2]@[p]);
                }
            }
            assert forall|w: int| 0 <= w < v + 1 implies layers@[#[trigger] rank_of(nodes@, w)]@.contains(w as usize) by {
                let rw = rank_of(nodes@, w);
                if w < v {
                    assert(layers0[rw]@.contains(w as usize));
                    let k = choose|k: int| 0 <= k < layers0[rw]@.len() && layers0[rw]@[k] == w as usize;
                    assert(layers@[rw]@[k] == w as usize);
                } else {
                    assert(layers@[rw]@[layers0[rw]@.len() as int] == w as usize);
                }
            }
        }
    }
    layers
}

/// Records in every node its position within its layer.
fn seed_orders(graph: &mut LayoutGraph, layers: &Vec<Vec<NodeId>>)
    requires
        layers_partition(layers@, old(graph).nodes@),
    ensures
        final(graph).edges@ == old(graph).edges@,
        final(graph).nodes@.len() == old(graph).nodes@.len(),
        forall|v: int|
            0 <= v < final(graph).nodes@.len() ==> #[trigger] final(graph).nodes@[v] == (LayoutNode {
                order: final(graph).nodes@[v].order,
                ..old(graph).nodes@[v]
            }),
        forall|r: int, p: int|
            0 <= r < layers@.len() && 0 <= p < layers@[r]@.len() ==> final(graph).nodes@[#[trigger] layers@[r]@[p] as int].order
                == Some(p as usize),
{
    let ghost nodes0 = graph.nodes@;
    let num_layers = layers.len();
    for r in 0..num_layers
        invariant
            num_layers == layers@.len(),
            layers_partition(layers@, nodes0),
            graph.edges@ == old(graph).edges@,
            graph.nodes@.len() == nodes0.len(),
            forall|v: int|
                0 <= v < nodes0.len() ==> #[trigger] graph.nodes@[v] == (LayoutNode {
                    order: graph.nodes@[v].order,
                    ..nodes0[v]
                }),
            forall|r2: int, p: int|
                0 <= r2 < r && 0 <= p < layers@[r2]@.len() ==> graph.nodes@[#[trigger] layers@[r2]@[p] as int].order
                    == Some(p as usize),
    {
        let layer = &layers[r];
        let len = layer.len();
        for p in 0..len
            invariant
                num_layers == layers@.len(),
                r < num_layers,
                layer@ == layers@[r as int]@,
                len == layer@.len(),
                layers_partition(layers@, nodes0),
                graph.edges@ == old(graph).edges@,
                graph.nodes@.len() == nodes0.len(),
                forall|v: int|
                    0 <= v < nodes0.len() ==> #[trigger] graph.nodes@[v] == (LayoutNode {
                        order: graph.nodes@[v].order,
                        ..nodes0[v]
                    }),
                forall|r2: int, q: int|
                    0 <= r2 < r && 0 <= q < layers@[r2]@.len() ==> graph.nodes@[#[trigger] layers@[r2]@[q] as int].order
                        == Some(q as usize),
                forall|q: int| 0 <= q < p ==> graph.nodes@[#[trigger] layer@[q] as int].order == Some(q as usize),
        {
            let id = layer[p];
            assert(layers@[r as int]@[p as int] == id);
            let ghost before = graph.nodes@;
            let mut node = graph.nodes[id];
            node.order = Some(p);
            graph.nodes.set(id, node);
            proof {
                assert forall|r2: int, q: int|
                    0 <= r2 < r && 0 <= q < layers@[r2]@.len() implies graph.nodes@[#[trigger] layers@[r2]@[q] as int].order
                        == Some(q as usize) by {
                    assert(rank_of(nodes0, layers@[r2]@[q] as int) == r2);
                    assert(rank_of(before, id as int) == rank_of(nodes0, id as int));
                    assert(rank_of(before, layers@[r2]@[q] as int) == rank_of(nodes0, layers@[r2]@[q] as int));
                }
                assert forall|q: int| 0 <= q < p + 1 implies graph.nodes@[#[trigger] layer@[q] as int].order == Some(q as usize) by {
                    if q < p {
                        assert(layers@[r as int]@[q] < layers@[r as int]@[p as int]);
                    }
                }
            }
        }
    }
}

/// Longest-path layering, with each layer listed in increasing id order and
/// every node's `order` set to its position in its layer.
pub open spec fn ranked(old_nodes: Seq<LayoutNode>, edges: Seq<LayoutEdge>, nodes: Seq<LayoutNode>, layers: Seq<Vec<NodeId>>) -> bool {
    &&& nodes.len() == old_nodes.len()
    &&& forall|v: int|
        0 <= v < nodes.len() ==> {
            &&& (#[trigger] nodes[v]).rank is Some
            &&& nodes[v].order is Some
            &&& nodes[v] == (LayoutNode { rank: nodes[v].rank, order: nodes[v].order, ..old_nodes[v] })
        }
    &&& is_longest_path_ranking(edges, nodes.len() as int, ranks_of(nodes))
    &&& layers.len() >= 1
    &&& (layers.len() == 1 || exists|v: int| 0 <= v < nodes.len() && rank_of(nodes, v) == layers.len() - 1)
    &&& layers_partition(layers, nodes)
    &&& forall|r: int, p: int|
        0 <= r < layers.len() && 0 <= p < layers[r]@.len() ==> nodes[#[trigger] layers[r]@[p] as int].order == Some(
            p as usize,
        )
}

/// Holder of the rank-assignment phase.
pub struct LayoutPipeline;

impl LayoutPipeline {
    /// Assigns ranks to all nodes: validates the graph, orders it with
    /// Kahn's algorithm, then gives each node its longest-path rank, groups
    /// the nodes into layers (increasing id order within a layer) and seeds
    /// each node's `order` with its position in its layer.
    ///
    /// # Errors
    /// The error `validate_graph` reports for a malformed graph, else
    /// `LayoutError::CyclicGraph` if the graph contains a cycle. On an error
    /// the graph is left unchanged.
    pub fn assign_ranks(graph: &mut LayoutGraph) -> (result: Result<RankSystem, LayoutError>)
        ensures
            result is Ok <==> well_formed(old(graph).nodes@, old(graph).edges@) && acyclic(
                old(graph).edges@,
                old(graph).nodes@.len() as int,
            ),
            !well_formed(old(graph).nodes@, old(graph).edges@) ==> (result matches Err(e)
                && validation_result(old(graph).nodes@, old(graph).edges@) == Err::<(), LayoutError>(e)),
            well_formed(old(graph).nodes@, old(graph).edges@) && !acyclic(
                old(graph).edges@,
                old(graph).nodes@.len() as int,
            ) ==> result == Err::<RankSystem, LayoutError>(LayoutError::CyclicGraph),
            result is Err ==> *final(graph) == *old(graph),
            final(graph).edges@ == old(graph).edges@,
            result matches Ok(ranks) ==> ranked(
                old(graph).nodes@,
                old(graph).edges@,
                final(graph).nodes@,
                ranks.layers@,
            ),
    {
        let ghost g0 = *graph;
        match validate_graph(graph) {
            Err(e) => {
                return Err(e);
            },
            Ok(()) => {},
        }
        let n = graph.nodes.len();
        let (out_edges, in_degree, Ghost(adj_ghost)) = build_adjacency(graph);
        let (topo_order, Ghost(pos)) = kahn_order(
            n,
            &out_edges,
            in_degree,
            Ghost(graph.edges@),
            Ghost(adj_ghost.0),
            Ghost(adj_ghost.1),
        );
        if topo_order.len() != n {
            return Err(LayoutError::CyclicGraph);
        }
        let max_rank = relax_longest_paths(
            graph,
            &topo_order,
            &out_edges,
            Ghost(pos),
            Ghost(adj_ghost.0),
            Ghost(adj_ghost.1),
        );
        let ghost ranked_nodes = graph.nodes@;
        proof {
            assert forall|v: int| 0 <= v < n implies #[trigger] graph.nodes@[v].id == v by {
                assert(graph.nodes@[v] == (LayoutNode { rank: graph.nodes@[v].rank, ..g0.nodes@[v] }));
            }
        }
        let layers = build_layers(&graph.nodes, max_rank);
        seed_orders(graph, &layers);
        proof {
            assert forall|v: int| 0 <= v < n implies #[trigger] rank_of(graph.nodes@, v) == rank_of(ranked_nodes, v) by {
                assert(graph.nodes@[v] == (LayoutNode { order: graph.nodes@[v].order, ..ranked_nodes[v] }));
            }
            assert(ranks_of(graph.nodes@) =~= ranks_of(ranked_nodes));
            assert forall|v: int| 0 <= v < n implies {
                &&& (#[trigger] graph.nodes@[v]).rank is Some
                &&& graph.nodes@[v].order is Some
                &&& graph.nodes@[v] == (LayoutNode {
                    rank: graph.nodes@[v].rank,
                    order: graph.nodes@[v].order,
                    ..g0.nodes@[v]
                })
            } by {
                assert(graph.nodes@[v] == (LayoutNode { order: graph.nodes@[v].order, ..ranked_nodes[v] }));
                assert(ranked_nodes[v] == (LayoutNode { rank: ranked_nodes[v].rank, ..g0.nodes@[v] }));
                let r = rank_of(ranked_nodes, v);
                assert(layers@[r]@.contains(v as usize));
                let p = choose|p: int| 0 <= p < layers@[r]@.len() && layers@[r]@[p] == v as usize;
                assert(graph.nodes@[layers@[r]@[p] as int].order == Some(p as usize));
            }
            assert(layers_partition(layers@, graph.nodes@));
        }
        Ok(RankSystem { layers })
    }
}

/// Assigns ranks to nodes; see [`LayoutPipeline::assign_ranks`].
pub fn assign_ranks(graph: &mut LayoutGraph) -> (result: Result<RankSystem, LayoutError>)
    ensures
        result is Ok <==> well_formed(old(graph).nodes@, old(graph).edges@) && acyclic(
            old(graph).edges@,
            old(graph).nodes@.len() as int,
        ),
        !well_formed(old(graph).nodes@, old(graph).edges@) ==> (result matches Err(e)
            && validation_result(old(graph).nodes@, old(graph).edges@) == Err::<(), LayoutError>(e)),
        well_formed(old(graph).nodes@, old(graph).edges@) && !acyclic(
            old(graph).edges@,
            old(graph).nodes@.len() as int,
        ) ==> result == Err::<RankSystem, LayoutError>(LayoutError::CyclicGraph),
        result is Err ==> *final(graph) == *old(graph),
        final(graph).edges@ == old(graph).edges@,
        result matches Ok(ranks) ==> ranked(
            old(graph).nodes@,
            old(graph).edges@,
            final(graph).nodes@,
            ranks.layers@,
        ),
{
    LayoutPipeline::assign_ranks(graph)
}

/// After rank assignment every edge leads from a ranked node to a node of
/// strictly higher rank, and the layers list only existing nodes: the input
/// that dummy insertion expects.
pub proof fn lemma_ranking_points_edges_down(old_nodes: Seq<LayoutNode>, edges: Seq<LayoutEdge>, nodes: Seq<LayoutNode>, layers: Seq<Vec<NodeId>>)
    requires
        ranked(old_nodes, edges, nodes, layers),
        endpoints_in_range(edges, nodes.len() as int),
    ensures
        downward_edges(nodes, edges),
        layers_in_range(crate::types::layers_view(layers), nodes.len() as int),
{
    let r = ranks_of(nodes);
    assert forall|k: int| 0 <= k < edges.len() implies {
        &&& (#[trigger] edges[k]).from < nodes.len()
        &&& edges[k].to < nodes.len()
        &&& nodes[edges[k].from as int].rank is Some
        &&& nodes[edges[k].to as int].rank is Some
        &&& rank_at(nodes, edges[k].to as int) > rank_at(nodes, edges[k].from as int)
    } by {
        assert(!is_dangling(edges[k], nodes.len() as int));
        assert(r[edges[k].to as int] >= r[edges[k].from as int] + 1);
        assert(nodes[edges[k].from as int].rank is Some);
        assert(nodes[edges[k].to as int].rank is Some);
    }
    let lv = crate::types::layers_view(layers);
    assert forall|q: int, p: int| 0 <= q < lv.len() && 0 <= p < lv[q].len() implies #[trigger] lv[q][p] < nodes.len() by {
        assert(lv[q] == layers[q]@);
    }
}


/// After rank assignment each node is listed once in the layers, only
/// existing nodes are listed, and every listed node's order is its
/// position in its layer.
pub proof fn lemma_ranking_orders_consistent(old_nodes: Seq<LayoutNode>, edges: Seq<LayoutEdge>, nodes: Seq<LayoutNode>, layers: Seq<Vec<NodeId>>)
    requires
        ranked(old_nodes, edges, nodes, layers),
    ensures
        orders_consistent(OrderState { nodes, layers: crate::types::layers_view(layers) }),
{
    let lv = crate::types::layers_view(layers);
    assert forall|r: int, p: int| 0 <= r < lv.len() && 0 <= p < lv[r].len() implies #[trigger] lv[r][p] < nodes.len() by {
        assert(lv[r] == layers[r]@);
    }
    assert forall|r1: int, p1: int, r2: int, p2: int|
        0 <= r1 < lv.len() && 0 <= p1 < lv[r1].len() && 0 <= r2 < lv.len() && 0 <= p2 < lv[r2].len() && (r1 != r2
            || p1 != p2) implies #[trigger] lv[r1][p1] != #[trigger] lv[r2][p2] by {
        assert(lv[r1] == layers[r1]@);
        assert(lv[r2] == layers[r2]@);
        assert(rank_of(nodes, layers[r1]@[p1] as int) == r1);
        assert(rank_of(nodes, layers[r2]@[p2] as int) == r2);
        if r1 == r2 {
            if p1 < p2 {
                assert(layers[r1]@[p1] < layers[r1]@[p2]);
            } else {
                assert(layers[r1]@[p2] < layers[r1]@[p1]);
            }
        }
    }
    assert forall|r: int, p: int| 0 <= r < lv.len() && 0 <= p < lv[r].len() implies nodes[#[trigger] lv[r][p] as int].order
        == Some(p as usize) by {
        assert(lv[r] == layers[r]@);
    }
}

/// After rank assignment every node has a rank and is listed in the layer
/// of that rank, and every listed node has the rank of its layer.
pub proof fn lemma_ranking_layers_match_ranks(old_nodes: Seq<LayoutNode>, edges: Seq<LayoutEdge>, nodes: Seq<LayoutNode>, layers: Seq<Vec<NodeId>>)
    requires
        ranked(old_nodes, edges, nodes, layers),
    ensures
        crate::crossing_laws::layers_match_ranks(nodes, crate::types::layers_view(layers)),
{
    let lv = crate::types::layers_view(layers);
    assert forall|r: int, p: int| 0 <= r < lv.len() && 0 <= p < lv[r].len() implies crate::crossings::rank_val(
        nodes,
        #[trigger] lv[r][p] as int,
    ) == r by {
        assert(lv[r] == layers[r]@);
        assert(rank_of(nodes, layers[r]@[p] as int) == r);
    }
    assert forall|v: int| 0 <= v < nodes.len() implies {
        &&& (#[trigger] nodes[v]).rank is Some
        &&& crate::crossings::rank_val(nodes, v) < lv.len()
        &&& lv[crate::crossings::rank_val(nodes, v)].contains(v as usize)
    } by {
        assert(layers[rank_of(nodes, v)]@.contains(v as usize));
        assert(lv[rank_of(nodes, v)] == layers[rank_of(nodes, v)]@);
    }
}

proof fn lemma_increasing_unique(s1: Seq<NodeId>, s2: Seq<NodeId>)
    requires
        forall|p: int, q: int| 0 <= p < q < s1.len() ==> #[trigger] s1[p] < #[trigger] s1[q],
        forall|p: int, q: int| 0 <= p < q < s2.len() ==> #[trigger] s2[p] < #[trigger] s2[q],
        forall|x: NodeId| s1.contains(x) <==> s2.contains(x),
    ensures
        s1 == s2,
    decreases s1.len() + s2.len(),
{
    if s1.len() == 0 {
        if s2.len() > 0 {
            assert(s2.contains(s2[0]));
        }
        assert(s1 =~= s2);
    } else if s2.len() == 0 {
        assert(s1.contains(s1[0]));
    } else {
        assert(s1.contains(s1[0]));
        let j = choose|j: int| 0 <= j < s2.len() && s2[j] == s1[0];
        if j > 0 {
            assert(s2[0] < s2[j]);
        }
        assert(s2.contains(s2[0]));
        let i = choose|i: int| 0 <= i < s1.len() && s1[i] == s2[0];
        if i > 0 {
            assert(s1[0] < s1[i]);
        }
        assert(s1[0] == s2[0]);
        let t1 = s1.drop_first();
        let t2 = s2.drop_first();
        assert forall|x: NodeId| t1.contains(x) <==> t2.contains(x) by {
            if t1.contains(x) {
                let k = choose|k: int| 0 <= k < t1.len() && t1[k] == x;
                assert(s1[k + 1] == x);
                assert(s1[0] < s1[k + 1]);
                assert(s2.contains(x));
                let k2 = choose|k2: int| 0 <= k2 < s2.len() && s2[k2] == x;
                assert(k2 != 0);
                assert(t2[k2 - 1] == x);
            }
            if t2.contains(x) {
                let k = choose|k: int| 0 <= k < t2.len() && t2[k] == x;
                assert(s2[k + 1] == x);
                assert(s2[0] < s2[k + 1]);
                assert(s1.contains(x));
                let k1 = choose|k1: int| 0 <= k1 < s1.len() && s1[k1] == x;
                assert(k1 != 0);
                assert(t1[k1 - 1] == x);
            }
        }
        assert forall|p: int, q: int| 0 <= p < q < t1.len() implies #[trigger] t1[p] < #[trigger] t1[q] by {
            assert(s1[p + 1] < s1[q + 1]);
        }
        assert forall|p: int, q: int| 0 <= p < q < t2.len() implies #[trigger] t2[p] < #[trigger] t2[q] by {
            assert(s2[p + 1] < s2[q + 1]);
        }
        lemma_increasing_unique(t1, t2);
        assert(s1 =~= seq![s1[0]] + t1);
        assert(s2 =~= seq![s2[0]] + t2);
    }
}

proof fn lemma_same_layers(
    nodes1: Seq<LayoutNode>,
    layers1: Seq<Vec<NodeId>>,
    nodes2: Seq<LayoutNode>,
    layers2: Seq<Vec<NodeId>>,
)
    requires
        nodes1.len() == nodes2.len(),
        forall|v: int| 0 <= v < nodes1.len() ==> #[trigger] rank_of(nodes1, v) == rank_of(nodes2, v),
        layers1.len() == layers2.len(),
        layers_partition(layers1, nodes1),
        layers_partition(layers2, nodes2),
    ensures
        crate::types::layers_view(layers1) == crate::types::layers_view(layers2),
{
    assert forall|r: int| 0 <= r < layers1.len() implies #[trigger] layers1[r]@ == layers2[r]@ by {
        assert forall|x: NodeId| layers1[r]@.contains(x) <==> layers2[r]@.contains(x) by {
            if layers1[r]@.contains(x) {
                let p = choose|p: int| 0 <= p < layers1[r]@.len() && layers1[r]@[p] == x;
                assert(x < nodes1.len() && rank_of(nodes1, layers1[r]@[p] as int) == r);
                assert(layers2[rank_of(nodes2, x as int)]@.contains(x));
            }
            if layers2[r]@.contains(x) {
                let p = choose|p: int| 0 <= p < layers2[r]@.len() && layers2[r]@[p] == x;
                assert(x < nodes2.len() && rank_of(nodes2, layers2[r]@[p] as int) == r);
                assert(layers1[rank_of(nodes1, x as int)]@.contains(x));
            }
        }
        lemma_increasing_unique(layers1[r]@, layers2[r]@);
    }
    assert(crate::types::layers_view(layers1) =~= crate::types::layers_view(layers2));
}

proof fn lemma_same_layer_count(nodes1: Seq<LayoutNode>, layers1: Seq<Vec<NodeId>>, nodes2: Seq<LayoutNode>, layers2: Seq<Vec<NodeId>>)
    requires
        nodes1.len() == nodes2.len(),
        forall|v: int| 0 <= v < nodes1.len() ==> #[trigger] rank_of(nodes1, v) == rank_of(nodes2, v),
        layers1.len() >= 1,
        layers2.len() >= 1,
        layers1.len() == 1 || exists|v: int| 0 <= v < nodes1.len() && rank_of(nodes1, v) == layers1.len() - 1,
        layers2.len() == 1 || exists|v: int| 0 <= v < nodes2.len() && rank_of(nodes2, v) == layers2.len() - 1,
        forall|v: int| 0 <= v < nodes1.len() ==> #[trigger] rank_of(nodes1, v) < layers1.len(),
        forall|v: int| 0 <= v < nodes2.len() ==> #[trigger] rank_of(nodes2, v) < layers2.len(),
    ensures
        layers1.len() == layers2.len(),
{
    if layers1.len() < layers2.len() {
        let v = choose|v: int| 0 <= v < nodes2.len() && rank_of(nodes2, v) == layers2.len() - 1;
        assert(rank_of(nodes1, v) < layers1.len());
    }
    if layers2.len() < layers1.len() {
        let v = choose|v: int| 0 <= v < nodes1.len() && rank_of(nodes1, v) == layers1.len() - 1;
        assert(rank_of(nodes2, v) < layers2.len());
    }
}

proof fn lemma_same_nodes(
    old_nodes: Seq<LayoutNode>,
    nodes1: Seq<LayoutNode>,
    layers1: Seq<Vec<NodeId>>,
    nodes2: Seq<LayoutNode>,
    layers2: Seq<Vec<NodeId>>,
)
    requires
        nodes1.len() == old_nodes.len(),
        nodes2.len() == old_nodes.len(),
        old_nodes.len() <= usize::MAX,
        forall|v: int| 0 <= v < nodes1.len() ==> #[trigger] rank_of(nodes1, v) == rank_of(nodes2, v),
        forall|v: int|
            0 <= v < nodes1.len() ==> {
                &&& (#[trigger] nodes1[v]).rank is Some
                &&& nodes1[v].order is Some
                &&& nodes1[v] == (LayoutNode { rank: nodes1[v].rank, order: nodes1[v].order, ..old_nodes[v] })
            },
        forall|v: int|
            0 <= v < nodes2.len() ==> {
                &&& (#[trigger] nodes2[v]).rank is Some
                &&& nodes2[v].order is Some
                &&& nodes2[v] == (LayoutNode { rank: nodes2[v].rank, order: nodes2[v].order, ..old_nodes[v] })
            },
        layers_partition(layers1, nodes1),
        forall|r: int, p: int|
            0 <= r < layers1.len() && 0 <= p < layers1[r]@.len() ==> nodes1[#[trigger] layers1[r]@[p] as int].order == Some(
                p as usize,
            ),
        forall|r: int, p: int|
            0 <= r < layers2.len() && 0 <= p < layers2[r]@.len() ==> nodes2[#[trigger] layers2[r]@[p] as int].order == Some(
                p as usize,
            ),
        crate::types::layers_view(layers1) == crate::types::layers_view(layers2),
    ensures
        nodes1 == nodes2,
{
    assert forall|v: int| 0 <= v < nodes1.len() implies #[trigger] nodes1[v] == nodes2[v] by {
        let r = rank_of(nodes1, v);
        assert(r < layers1.len());
        assert(layers1[r]@.contains(v as usize));
        let p = choose|p: int| 0 <= p < layers1[r]@.len() && layers1[r]@[p] == v as usize;
        assert(crate::types::layers_view(layers1).len() == layers1.len());
        assert(crate::types::layers_view(layers2).len() == layers2.len());
        assert(crate::types::layers_view(layers1)[r] == layers1[r]@);
        assert(crate::types::layers_view(layers2)[r] == layers2[r]@);
        assert(layers2[r]@[p] == v as usize);
        assert(nodes1[layers1[r]@[p] as int].order == Some(p as usize));
        assert(nodes2[layers2[r]@[p] as int].order == Some(p as usize));
        assert(nodes1[v].rank is Some && nodes2[v].rank is Some);
        assert(rank_of(nodes1, v) == rank_of(nodes2, v));
        assert(nodes1[v].rank == nodes2[v].rank);
        assert(nodes1[v] == (LayoutNode { rank: nodes1[v].rank, order: nodes1[v].order, ..old_nodes[v] }));
        assert(nodes2[v] == (LayoutNode { rank: nodes2[v].rank, order: nodes2[v].order, ..old_nodes[v] }));
    }
    assert(nodes1 =~= nodes2);
}

/// What rank assignment produces is determined by its input: two results
/// of it on the same graph have the same nodes and the same layers.
pub proof fn lemma_ranking_is_determined(
    old_nodes: Seq<LayoutNode>,
    edges: Seq<LayoutEdge>,
    nodes1: Seq<LayoutNode>,
    layers1: Seq<Vec<NodeId>>,
    nodes2: Seq<LayoutNode>,
    layers2: Seq<Vec<NodeId>>,
)
    requires
        old_nodes.len() <= usize::MAX,
        endpoints_in_range(edges, old_nodes.len() as int),
        ranked(old_nodes, edges, nodes1, layers1),
        ranked(old_nodes, edges, nodes2, layers2),
    ensures
        nodes1 == nodes2,
        crate::types::layers_view(layers1) == crate::types::layers_view(layers2),
{
    let n = old_nodes.len() as int;
    lemma_ranks_agree(old_nodes, edges, nodes1, layers1, nodes2, layers2);
    lemma_same_layer_count(nodes1, layers1, nodes2, layers2);
    lemma_same_layers(nodes1, layers1, nodes2, layers2);
    lemma_same_nodes(old_nodes, nodes1, layers1, nodes2, layers2);
}

proof fn lemma_ranks_agree(
    old_nodes: Seq<LayoutNode>,
    edges: Seq<LayoutEdge>,
    nodes1: Seq<LayoutNode>,
    layers1: Seq<Vec<NodeId>>,
    nodes2: Seq<LayoutNode>,
    layers2: Seq<Vec<NodeId>>,
)
    requires
        endpoints_in_range(edges, old_nodes.len() as int),
        ranked(old_nodes, edges, nodes1, layers1),
        ranked(old_nodes, edges, nodes2, layers2),
    ensures
        forall|v: int| 0 <= v < nodes1.len() ==> #[trigger] rank_of(nodes1, v) == rank_of(nodes2, v),
{
    let n = old_nodes.len() as int;
    lemma_longest_path_ranking_unique(edges, n, ranks_of(nodes1), ranks_of(nodes2));
    assert forall|v: int| 0 <= v < nodes1.len() implies #[trigger] rank_of(nodes1, v) == rank_of(nodes2, v) by {
        assert(ranks_of(nodes1)[v] == ranks_of(nodes2)[v]);
    }
}

} // verus!
