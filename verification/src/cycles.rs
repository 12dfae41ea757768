//! Cycle Breaking
//!
//! Converts a potentially cyclic graph into one whose edges between distinct
//! nodes form a DAG, by reversing the back-edges found by a depth-first
//! search. Reversed edges are marked so they can be drawn with their
//! arrowheads at the visually higher end.
use vstd::prelude::*;
use vstd::set_lib::{set_int_range, lemma_int_range, lemma_len_subset};
use crate::types::{LayoutGraph, LayoutEdge, LayoutNode};
use crate::validate::{well_formed, is_dangling};

verus! {

/// The edge `e` turned around and marked as reversed.
pub open spec fn reversal_of(e: LayoutEdge) -> LayoutEdge {
    LayoutEdge { from: e.to, to: e.from, reversed: true, label_size: e.label_size }
}

/// Both endpoints of `e` are among the `n` nodes.
pub open spec fn joins_existing(e: LayoutEdge, n: int) -> bool {
    e.from < n && e.to < n
}

/// `e` joins two distinct nodes among the `n`: the edges the search
/// follows (a self-loop is left as it is).
pub open spec fn is_followed(e: LayoutEdge, n: int) -> bool {
    joins_existing(e, n) && e.from != e.to
}

/// `pot` numbers the `n` nodes so that it strictly increases along every
/// edge between two distinct existing nodes.
pub open spec fn is_potential(edges: Seq<LayoutEdge>, n: int, pot: Seq<int>) -> bool {
    &&& pot.len() == n
    &&& forall|k: int|
        0 <= k < edges.len() && joins_existing(#[trigger] edges[k], n) && edges[k].from != edges[k].to
            ==> pot[edges[k].from as int] < pot[edges[k].to as int]
}

/// `pot` numbers the `n` nodes so that it strictly increases along every
/// edge between existing nodes (which rules out self-loops too).
pub open spec fn is_strict_potential(edges: Seq<LayoutEdge>, n: int, pot: Seq<int>) -> bool {
    &&& pot.len() == n
    &&& forall|k: int|
        0 <= k < edges.len() && joins_existing(#[trigger] edges[k], n) ==> pot[edges[k].from as int]
            < pot[edges[k].to as int]
}

/// The edges between distinct existing nodes have no directed cycle: they
/// admit a topological numbering.
pub open spec fn acyclic_except_self_loops(edges: Seq<LayoutEdge>, n: int) -> bool {
    exists|pot: Seq<int>| #[trigger] is_potential(edges, n, pot)
}

/// The edges between existing nodes have no directed cycle at all (no
/// self-loop either): they admit a topological numbering.
pub open spec fn acyclic(edges: Seq<LayoutEdge>, n: int) -> bool {
    exists|pot: Seq<int>| #[trigger] is_strict_potential(edges, n, pot)
}

/// Some edge leads from `a` to `b`.
pub open spec fn has_edge(edges: Seq<LayoutEdge>, a: int, b: int) -> bool {
    exists|k: int| #![trigger edges[k]] 0 <= k < edges.len() && edges[k].from == a && edges[k].to == b
}

/// Some edge leads from the `i`-th to the `i+1`-th node of `path`.
pub open spec fn path_step(edges: Seq<LayoutEdge>, path: Seq<usize>, i: int) -> bool {
    has_edge(edges, path[i] as int, path[i + 1] as int)
}

/// `path` is a nonempty walk along `edges`.
pub open spec fn is_path(edges: Seq<LayoutEdge>, path: Seq<usize>) -> bool {
    &&& path.len() >= 1
    &&& forall|i: int| 0 <= i < path.len() - 1 ==> #[trigger] path_step(edges, path, i)
}

/// A walk along `edges` leads back from the target of `e` to its source, so
/// `e` closes a directed cycle (a self-loop is a cycle by itself).
pub open spec fn lies_on_cycle(edges: Seq<LayoutEdge>, e: LayoutEdge) -> bool {
    exists|path: Seq<usize>|
        #![trigger is_path(edges, path)]
        is_path(edges, path) && path[0] == e.to && path[path.len() - 1] == e.from
}

/// The adjacency lists the search follows, built from the first `k`
/// edges: for each of the `n` nodes, its edges to other existing nodes as
/// (target, edge index), in edge order.
pub open spec fn adjacency(orig: Seq<LayoutEdge>, n: int, k: int) -> Seq<Seq<(usize, usize)>>
    decreases k,
{
    if k <= 0 {
        Seq::new(n as nat, |u: int| Seq::<(usize, usize)>::empty())
    } else {
        let prev = adjacency(orig, n, k - 1);
        let e = orig[k - 1];
        if is_followed(e, n) {
            prev.update(e.from as int, prev[e.from as int].push((e.to, (k - 1) as usize)))
        } else {
            prev
        }
    }
}

/// The adjacency lists as sequences.
pub open spec fn adj_view(adj: Seq<Vec<(usize, usize)>>) -> Seq<Seq<(usize, usize)>> {
    adj.map_values(|l: Vec<(usize, usize)>| l@)
}

/// The visible state of the search: the edges, the colors (0 white, 1
/// gray, 2 black), the stack of gray nodes with the next adjacency entry
/// each will examine, and the indices of the reversed edges.
pub struct SearchState {
    pub edges: Seq<LayoutEdge>,
    pub color: Seq<u8>,
    pub stack: Seq<(usize, usize)>,
    pub reversed: Seq<usize>,
}

/// One step of the search: the node on top of the stack examines its next
/// edge (a white target is pushed, a gray one makes the edge a back-edge,
/// which is reversed, a black one is passed over), or, when it has none
/// left, turns black and leaves the stack.
pub open spec fn search_step(adj: Seq<Seq<(usize, usize)>>, s: SearchState) -> SearchState {
    if s.stack.len() == 0 {
        s
    } else {
        let top = s.stack.len() - 1;
        let u = s.stack[top].0;
        let ei = s.stack[top].1;
        if ei < adj[u as int].len() {
            let v = adj[u as int][ei as int].0;
            let e = adj[u as int][ei as int].1;
            let stack1 = s.stack.update(top, (u, (ei + 1) as usize));
            if s.color[v as int] == 0 {
                SearchState { color: s.color.update(v as int, 1), stack: stack1.push((v, 0usize)), ..s }
            } else if s.color[v as int] == 1 {
                SearchState {
                    edges: s.edges.update(e as int, reversal_of(s.edges[e as int])),
                    stack: stack1,
                    reversed: s.reversed.push(e),
                    ..s
                }
            } else {
                SearchState { stack: stack1, ..s }
            }
        } else {
            SearchState { color: s.color.update(u as int, 2), stack: s.stack.drop_last(), ..s }
        }
    }
}

/// `k` steps of the search.
pub open spec fn search_steps(adj: Seq<Seq<(usize, usize)>>, s: SearchState, k: nat) -> SearchState
    decreases k,
{
    if k == 0 {
        s
    } else {
        search_step(adj, search_steps(adj, s, (k - 1) as nat))
    }
}

/// The search from the white node `start`, for at most `bound` steps.
pub open spec fn visit_from(adj: Seq<Seq<(usize, usize)>>, s: SearchState, start: int, bound: nat) -> SearchState {
    search_steps(adj, SearchState { color: s.color.update(start, 1), stack: seq![(start as usize, 0usize)], ..s }, bound)
}

/// The searches started from the nodes `0 .. k` that are still white
/// when their turn comes.
pub open spec fn search_all(adj: Seq<Seq<(usize, usize)>>, s: SearchState, k: int, bound: nat) -> SearchState
    decreases k,
{
    if k <= 0 {
        s
    } else {
        let prev = search_all(adj, s, k - 1, bound);
        if prev.color[k - 1] == 0 {
            visit_from(adj, prev, k - 1, bound)
        } else {
            prev
        }
    }
}

/// What cycle breaking does to `orig` among `n` nodes: a search started
/// from every node in turn; `orig.len() + 2 * n` steps are enough for each.
pub open spec fn cycle_breaking(orig: Seq<LayoutEdge>, n: int) -> SearchState {
    search_all(
        adjacency(orig, n, orig.len() as int),
        SearchState {
            edges: orig,
            color: Seq::new(n as nat, |i: int| 0u8),
            stack: Seq::empty(),
            reversed: Seq::empty(),
        },
        n,
        (orig.len() + 2 * n) as nat,
    )
}

proof fn lemma_search_settled(adj: Seq<Seq<(usize, usize)>>, s: SearchState, k: nat, j: nat)
    requires
        k <= j,
        search_steps(adj, s, k).stack.len() == 0,
    ensures
        search_steps(adj, s, j) == search_steps(adj, s, k),
    decreases j,
{
    if j > k {
        lemma_search_settled(adj, s, k, (j - 1) as nat);
    }
}

/// Ghost bookkeeping of the depth-first search.
pub struct DfsGhost {
    /// Stack position of each gray node.
    pub spos: Seq<int>,
    /// Finishing time of each black node.
    pub fin: Seq<int>,
    /// Next finishing time to hand out.
    pub counter: int,
    /// Indices of the edges the search has examined.
    pub processed: Set<int>,
    /// Nodes that are gray or black.
    pub visited: Set<int>,
    /// Nodes that are black.
    pub black: Set<int>,
}

/// Entry `p` of the adjacency list of node `u` describes edge `entry.1`.
pub open spec fn entry_ok(entry: (usize, usize), u: int, p: int, orig: Seq<LayoutEdge>, n: int, epos: Seq<int>) -> bool {
    &&& entry.1 < orig.len()
    &&& orig[entry.1 as int].from == u
    &&& orig[entry.1 as int].to == entry.0
    &&& entry.0 < n
    &&& entry.0 != u
    &&& epos[entry.1 as int] == p
}

/// Edge `e` is listed at position `epos[e]` of its source's adjacency list.
pub open spec fn listed(adj: Seq<Vec<(usize, usize)>>, orig: Seq<LayoutEdge>, e: int, epos: Seq<int>) -> bool {
    &&& 0 <= epos[e] < adj[orig[e].from as int]@.len()
    &&& adj[orig[e].from as int]@[epos[e]].1 == e
}

/// `adj` lists, for every node, the edges leaving it, and exactly those.
pub open spec fn adj_wf(adj: Seq<Vec<(usize, usize)>>, orig: Seq<LayoutEdge>, n: int, epos: Seq<int>) -> bool {
    &&& adj.len() == n
    &&& epos.len() == orig.len()
    &&& forall|u: int, p: int|
        0 <= u < n && 0 <= p < adj[u]@.len() ==> #[trigger] entry_ok(adj[u]@[p], u, p, orig, n, epos)
    &&& forall|e: int| 0 <= e < orig.len() && is_followed(#[trigger] orig[e], n) ==> listed(adj, orig, e, epos)
}

/// How many entries of `u`'s adjacency list the search has examined.
pub open spec fn done(u: int, adj: Seq<Vec<(usize, usize)>>, color: Seq<u8>, stack: Seq<(usize, usize)>, spos: Seq<int>) -> int {
    if color[u] == 0 {
        0
    } else if color[u] == 2 {
        adj[u]@.len() as int
    } else {
        stack[spos[u]].1 as int
    }
}

/// The orientation invariant of an examined edge from `a` to `b`.
pub open spec fn ord_ok(a: int, b: int, color: Seq<u8>, spos: Seq<int>, fin: Seq<int>) -> bool {
    &&& color[a] != 0
    &&& ((color[b] == 2 && (color[a] == 2 ==> fin[a] > fin[b])) || (color[a] == 1 && color[b] == 1
        && spos[a] < spos[b]))
}

/// The invariant of the depth-first search.
pub open spec fn dfs_inv(
    n: int,
    orig: Seq<LayoutEdge>,
    cur: Seq<LayoutEdge>,
    adj: Seq<Vec<(usize, usize)>>,
    color: Seq<u8>,
    stack: Seq<(usize, usize)>,
    g: DfsGhost,
    reversed: Seq<usize>,
    dag: bool,
    pot: Seq<int>,
) -> bool {
    &&& color.len() == n
    &&& g.spos.len() == n
    &&& g.fin.len() == n
    &&& forall|v: int| 0 <= v < n ==> #[trigger] color[v] <= 2
    // the stack holds exactly the gray nodes
    &&& forall|k: int|
        0 <= k < stack.len() ==> {
            &&& (#[trigger] stack[k]).0 < n
            &&& color[stack[k].0 as int] == 1
            &&& g.spos[stack[k].0 as int] == k
            &&& stack[k].1 <= adj[stack[k].0 as int]@.len()
        }
    &&& forall|v: int|
        0 <= v < n && #[trigger] color[v] == 1 ==> 0 <= g.spos[v] < stack.len() && stack[g.spos[v]].0
            == v
    // examined edges
    &&& g.processed.finite()
    &&& forall|e: int| #[trigger]
        g.processed.contains(e) ==> 0 <= e < orig.len() && is_followed(orig[e], n)
    &&& forall|u: int, p: int|
        0 <= u < n && 0 <= p < adj[u]@.len() ==> (g.processed.contains(
            (#[trigger] adj[u]@[p]).1 as int,
        ) <==> p < done(u, adj, color, stack, g.spos))
    // current edges: the original ones, with the recorded ones reversed
    &&& cur.len() == orig.len()
    &&& forall|e: int|
        0 <= e < orig.len() ==> #[trigger] cur[e] == if reversed.contains(e as usize) {
            reversal_of(orig[e])
        } else {
            orig[e]
        }
    &&& reversed.no_duplicates()
    &&& forall|i: int| 0 <= i < reversed.len() ==> g.processed.contains(#[trigger] reversed[i] as int)
    &&& forall|i: int| 0 <= i < reversed.len() ==> lies_on_cycle(orig, orig[#[trigger] reversed[i] as int])
    // orientation of the examined edges
    &&& forall|e: int| #[trigger]
        g.processed.contains(e) && cur[e].from != cur[e].to ==> ord_ok(
            cur[e].from as int,
            cur[e].to as int,
            color,
            g.spos,
            g.fin,
        )
    // finishing times
    &&& forall|v: int| 0 <= v < n && #[trigger] color[v] == 2 ==> g.fin[v] < g.counter
    // progress measure
    &&& g.visited.finite()
    &&& g.black.finite()
    &&& forall|v: int| #[trigger] g.visited.contains(v) <==> (0 <= v < n && color[v] != 0)
    &&& forall|v: int| #[trigger] g.black.contains(v) <==> (0 <= v < n && color[v] == 2)
    // on an acyclic input nothing is reversed
    &&& dag ==> {
        &&& is_strict_potential(orig, n, pot)
        &&& reversed.len() == 0
        &&& forall|k: int, l: int|
            0 <= k < l < stack.len() ==> pot[(#[trigger] stack[k]).0 as int] < pot[(#[trigger] stack[l]).0 as int]
    }
}

proof fn lemma_measure_bounds(n: int, m: int, g: DfsGhost)
    requires
        0 <= n,
        0 <= m,
        g.processed.finite(),
        g.visited.finite(),
        g.black.finite(),
        forall|e: int| #[trigger] g.processed.contains(e) ==> 0 <= e < m,
        forall|v: int| #[trigger] g.visited.contains(v) ==> 0 <= v < n,
        forall|v: int| #[trigger] g.black.contains(v) ==> 0 <= v < n,
    ensures
        g.processed.len() <= m,
        g.visited.len() <= n,
        g.black.len() <= n,
{
    lemma_int_range(0, m);
    lemma_int_range(0, n);
    lemma_len_subset(g.processed, set_int_range(0, m));
    lemma_len_subset(g.visited, set_int_range(0, n));
    lemma_len_subset(g.black, set_int_range(0, n));
}

/// A back-edge from the top of the search stack to a node lower on it closes
/// a cycle along the stack.
proof fn lemma_back_edge_closes_cycle(
    orig: Seq<LayoutEdge>,
    stack: Seq<(usize, usize)>,
    sv: int,
    top: int,
    e: int,
)
    requires
        0 <= sv <= top < stack.len(),
        0 <= e < orig.len(),
        forall|k: int| 0 < k < stack.len() ==> has_edge(orig, stack[k - 1].0 as int, (#[trigger] stack[k]).0 as int),
        orig[e].to == stack[sv].0,
        orig[e].from == stack[top].0,
    ensures
        lies_on_cycle(orig, orig[e]),
{
    let path = stack.subrange(sv, top + 1).map_values(|x: (usize, usize)| x.0);
    assert forall|i: int| 0 <= i < path.len() - 1 implies #[trigger] path_step(orig, path, i) by {
        assert(stack[sv + i + 1] == stack[sv + i + 1]);
    }
    assert(is_path(orig, path));
}

/// The amount of work the search has done.
pub open spec fn measure(g: DfsGhost) -> int {
    (g.processed.len() + g.visited.len() + g.black.len()) as int
}

/// The fixed parameters of one depth-first search.
pub struct DfsCtx {
    pub n: int,
    pub orig: Seq<LayoutEdge>,
    pub adj: Seq<Vec<(usize, usize)>>,
    pub epos: Seq<int>,
    pub color0: Seq<u8>,
    pub start: int,
    pub dag: bool,
    pub pot: Seq<int>,
}

/// The state of one depth-first search.
pub struct DfsState {
    pub edges: Seq<LayoutEdge>,
    pub color: Seq<u8>,
    pub stack: Seq<(usize, usize)>,
    pub g: DfsGhost,
    pub reversed: Seq<usize>,
}

/// The invariant of the search loop started from `c.start`.
#[verifier::opaque]
pub open spec fn visit_inv(c: DfsCtx, s: DfsState) -> bool {
    &&& adj_wf(c.adj, c.orig, c.n, c.epos)
    &&& c.orig.len() <= usize::MAX
    &&& c.color0.len() == c.n
    &&& dfs_inv(c.n, c.orig, s.edges, c.adj, s.color, s.stack, s.g, s.reversed, c.dag, c.pot)
    &&& 0 <= c.start < c.n
    &&& s.color[c.start] != 0
    &&& s.stack.len() > 0 ==> s.stack[0].0 == c.start
    &&& forall|k: int|
        0 < k < s.stack.len() ==> has_edge(c.orig, s.stack[k - 1].0 as int, (#[trigger] s.stack[k]).0 as int)
    &&& s.stack.len() == 0 ==> s.color[c.start] == 2
    &&& forall|v: int| 0 <= v < c.n && c.color0[v] != 0 ==> #[trigger] s.color[v] != 0
}

/// What the loop body may rely on.
proof fn lemma_step_facts(c: DfsCtx, s: DfsState)
    requires
        visit_inv(c, s),
        s.stack.len() > 0,
    ensures
        s.color.len() == c.n,
        c.adj.len() == c.n,
        s.edges.len() == c.orig.len(),
        s.stack[s.stack.len() - 1].0 < c.n,
        s.stack[s.stack.len() - 1].1 <= c.adj[s.stack[s.stack.len() - 1].0 as int]@.len(),
        0 <= measure(s.g) <= c.orig.len() + 2 * c.n,
        s.stack[s.stack.len() - 1].1 < c.adj[s.stack[s.stack.len() - 1].0 as int]@.len() ==> {
            let u = s.stack[s.stack.len() - 1].0 as int;
            let entry = c.adj[u]@[s.stack[s.stack.len() - 1].1 as int];
            &&& entry.0 < c.n
            &&& entry.1 < c.orig.len()
        },
{
    reveal(visit_inv);
    let top = s.stack.len() - 1;
    assert(s.stack[top] == s.stack[top]);
    let u = s.stack[top].0 as int;
    if s.stack[top].1 < c.adj[u]@.len() {
        assert(entry_ok(c.adj[u]@[s.stack[top].1 as int], u, s.stack[top].1 as int, c.orig, c.n, c.epos));
    }
    lemma_measure_bounds(c.n, c.orig.len() as int, s.g);
}

/// Shared hypotheses of the steps that examine the next edge of the top node.
pub open spec fn examine_pre(c: DfsCtx, s: DfsState, u: int, ei: int, v: int, e: int) -> bool {
    &&& visit_inv(c, s)
    &&& s.stack.len() > 0
    &&& s.stack[s.stack.len() - 1].0 == u
    &&& s.stack[s.stack.len() - 1].1 == ei
    &&& 0 <= ei < c.adj[u]@.len()
    &&& c.adj[u]@[ei].0 == v
    &&& c.adj[u]@[ei].1 == e
}

/// Examining a tree edge to the white node `v`, which is pushed.
proof fn lemma_tree_step(c: DfsCtx, s: DfsState, u: int, ei: int, v: int, e: int, t: DfsState)
    requires
        examine_pre(c, s, u, ei, v, e),
        s.color[v] == 0,
        t.edges == s.edges,
        t.reversed == s.reversed,
        t.color == s.color.update(v, 1),
        t.stack == s.stack.update(s.stack.len() - 1, (u as usize, (ei + 1) as usize)).push(
            (v as usize, 0usize),
        ),
        t.g == (DfsGhost {
            processed: s.g.processed.insert(e),
            spos: s.g.spos.update(v, s.stack.len() as int),
            visited: s.g.visited.insert(v),
            ..s.g
        }),
    ensures
        visit_inv(c, t),
        measure(s.g) < measure(t.g) <= c.orig.len() + 2 * c.n,
{
    reveal(visit_inv);
    let n = c.n;
    let orig = c.orig;
    let adj = c.adj;
    let top = s.stack.len() - 1;
    assert(s.stack[top] == s.stack[top]);
    assert(entry_ok(adj[u]@[ei], u, ei, orig, n, c.epos));
    assert(!s.g.processed.contains(e));
    assert(!s.g.visited.contains(v));
    assert(!s.reversed.contains(e as usize)) by {
        if s.reversed.contains(e as usize) {
            let i = choose|i: int| 0 <= i < s.reversed.len() && s.reversed[i] == e as usize;
            assert(s.g.processed.contains(s.reversed[i] as int));
        }
    }
    assert(s.edges[e] == orig[e]);
    assert forall|u2: int, p: int|
        0 <= u2 < n && 0 <= p < adj[u2]@.len() implies (t.g.processed.contains(
        (#[trigger] adj[u2]@[p]).1 as int,
    ) <==> p < done(u2, adj, t.color, t.stack, t.g.spos)) by {
        assert(entry_ok(adj[u2]@[p], u2, p, orig, n, c.epos));
        if u2 != u && u2 != v {
            if s.color[u2] == 1 {
                assert(s.stack[s.g.spos[u2]].0 == u2);
                assert(t.stack[t.g.spos[u2]] == s.stack[s.g.spos[u2]]);
            }
            assert(done(u2, adj, t.color, t.stack, t.g.spos) == done(u2, adj, s.color, s.stack, s.g.spos));
        } else if u2 == u {
            assert(ei + 1 <= adj[u].len());
            assert(t.stack[top] == (u as usize, (ei + 1) as usize));
            assert(done(u2, adj, t.color, t.stack, t.g.spos) == ei + 1);
        }
    }
    assert forall|e2: int| #[trigger]
        t.g.processed.contains(e2) && t.edges[e2].from != t.edges[e2].to implies ord_ok(
        t.edges[e2].from as int,
        t.edges[e2].to as int,
        t.color,
        t.g.spos,
        t.g.fin,
    ) by {
        if e2 != e {
            assert(ord_ok(s.edges[e2].from as int, s.edges[e2].to as int, s.color, s.g.spos, s.g.fin));
        }
    }
    assert forall|k: int|
        0 < k < t.stack.len() implies has_edge(orig, t.stack[k - 1].0 as int, (#[trigger] t.stack[k]).0 as int) by {
        if k == t.stack.len() - 1 {
            assert(orig[e] == orig[e]);
        } else {
            assert(s.stack[k] == s.stack[k]);
        }
    }
    lemma_measure_bounds(n, orig.len() as int, s.g);
    lemma_measure_bounds(n, orig.len() as int, t.g);
}

/// Examining a back-edge to the gray node `v`, which gets reversed.
proof fn lemma_back_step(c: DfsCtx, s: DfsState, u: int, ei: int, v: int, e: int, t: DfsState)
    requires
        examine_pre(c, s, u, ei, v, e),
        s.color[v] == 1,
        t.edges == s.edges.update(e, reversal_of(s.edges[e])),
        t.reversed == s.reversed.push(e as usize),
        t.color == s.color,
        t.stack == s.stack.update(s.stack.len() - 1, (u as usize, (ei + 1) as usize)),
        t.g == (DfsGhost { processed: s.g.processed.insert(e), ..s.g }),
    ensures
        visit_inv(c, t),
        measure(s.g) < measure(t.g) <= c.orig.len() + 2 * c.n,
{
    reveal(visit_inv);
    let n = c.n;
    let orig = c.orig;
    let adj = c.adj;
    let top = s.stack.len() - 1;
    assert(s.stack[top] == s.stack[top]);
    assert(entry_ok(adj[u]@[ei], u, ei, orig, n, c.epos));
    assert(!s.g.processed.contains(e));
    assert(!s.reversed.contains(e as usize)) by {
        if s.reversed.contains(e as usize) {
            let i = choose|i: int| 0 <= i < s.reversed.len() && s.reversed[i] == e as usize;
            assert(s.g.processed.contains(s.reversed[i] as int));
        }
    }
    assert(s.edges[e] == orig[e]);
    assert forall|e2: int| 0 <= e2 < orig.len() implies #[trigger] t.edges[e2] == if t.reversed.contains(
        e2 as usize,
    ) {
        reversal_of(orig[e2])
    } else {
        orig[e2]
    } by {
        assert(e2 as usize as int == e2);
        if e2 != e {
            if s.reversed.contains(e2 as usize) {
                let i = choose|i: int| 0 <= i < s.reversed.len() && s.reversed[i] == e2 as usize;
                assert(t.reversed[i] == e2 as usize);
            }
            if t.reversed.contains(e2 as usize) {
                let i = choose|i: int| 0 <= i < t.reversed.len() && t.reversed[i] == e2 as usize;
                assert(i < s.reversed.len());
                assert(s.reversed[i] == e2 as usize);
            }
        } else {
            assert(t.reversed[s.reversed.len() as int] == e as usize);
        }
    }
    let sv = s.g.spos[v];
    lemma_back_edge_closes_cycle(orig, s.stack, sv, top, e);
    assert forall|i: int| 0 <= i < t.reversed.len() implies lies_on_cycle(
        orig,
        orig[#[trigger] t.reversed[i] as int],
    ) by {
        if i < s.reversed.len() {
            assert(t.reversed[i] == s.reversed[i]);
        }
    }
    assert forall|i: int| 0 <= i < t.reversed.len() implies t.g.processed.contains(
        #[trigger] t.reversed[i] as int,
    ) by {
        if i < s.reversed.len() {
            assert(t.reversed[i] == s.reversed[i]);
        }
    }
    assert forall|u2: int, p: int|
        0 <= u2 < n && 0 <= p < adj[u2]@.len() implies (t.g.processed.contains(
        (#[trigger] adj[u2]@[p]).1 as int,
    ) <==> p < done(u2, adj, t.color, t.stack, t.g.spos)) by {
        assert(entry_ok(adj[u2]@[p], u2, p, orig, n, c.epos));
        if u2 != u {
            if s.color[u2] == 1 {
                assert(s.stack[s.g.spos[u2]].0 == u2);
                assert(t.stack[t.g.spos[u2]] == s.stack[s.g.spos[u2]]);
            }
            assert(done(u2, adj, t.color, t.stack, t.g.spos) == done(u2, adj, s.color, s.stack, s.g.spos));
        } else {
            assert(ei + 1 <= adj[u].len());
            assert(t.stack[top] == (u as usize, (ei + 1) as usize));
            assert(done(u2, adj, t.color, t.stack, t.g.spos) == ei + 1);
        }
    }
    assert forall|e2: int| #[trigger]
        t.g.processed.contains(e2) && t.edges[e2].from != t.edges[e2].to implies ord_ok(
        t.edges[e2].from as int,
        t.edges[e2].to as int,
        t.color,
        t.g.spos,
        t.g.fin,
    ) by {
        if e2 != e {
            assert(ord_ok(s.edges[e2].from as int, s.edges[e2].to as int, s.color, s.g.spos, s.g.fin));
        } else {
            assert(s.stack[sv].0 == v);
        }
    }
    assert forall|k: int|
        0 < k < t.stack.len() implies has_edge(orig, t.stack[k - 1].0 as int, (#[trigger] t.stack[k]).0 as int) by {
        assert(s.stack[k] == s.stack[k]);
    }
    if c.dag {
        assert(is_followed(orig[e], n));
        if sv < top {
            assert(c.pot[s.stack[sv].0 as int] < c.pot[s.stack[top].0 as int]);
        }
        assert(false);
    }
    lemma_measure_bounds(n, orig.len() as int, s.g);
    lemma_measure_bounds(n, orig.len() as int, t.g);
}

/// Examining a forward or cross edge to the black node `v`.
proof fn lemma_cross_step(c: DfsCtx, s: DfsState, u: int, ei: int, v: int, e: int, t: DfsState)
    requires
        examine_pre(c, s, u, ei, v, e),
        s.color[v] == 2,
        t.edges == s.edges,
        t.reversed == s.reversed,
        t.color == s.color,
        t.stack == s.stack.update(s.stack.len() - 1, (u as usize, (ei + 1) as usize)),
        t.g == (DfsGhost { processed: s.g.processed.insert(e), ..s.g }),
    ensures
        visit_inv(c, t),
        measure(s.g) < measure(t.g) <= c.orig.len() + 2 * c.n,
{
    reveal(visit_inv);
    let n = c.n;
    let orig = c.orig;
    let adj = c.adj;
    let top = s.stack.len() - 1;
    assert(s.stack[top] == s.stack[top]);
    assert(entry_ok(adj[u]@[ei], u, ei, orig, n, c.epos));
    assert(!s.g.processed.contains(e));
    assert(!s.reversed.contains(e as usize)) by {
        if s.reversed.contains(e as usize) {
            let i = choose|i: int| 0 <= i < s.reversed.len() && s.reversed[i] == e as usize;
            assert(s.g.processed.contains(s.reversed[i] as int));
        }
    }
    assert(s.edges[e] == orig[e]);
    assert forall|u2: int, p: int|
        0 <= u2 < n && 0 <= p < adj[u2]@.len() implies (t.g.processed.contains(
        (#[trigger] adj[u2]@[p]).1 as int,
    ) <==> p < done(u2, adj, t.color, t.stack, t.g.spos)) by {
        assert(entry_ok(adj[u2]@[p], u2, p, orig, n, c.epos));
        if u2 != u {
            if s.color[u2] == 1 {
                assert(s.stack[s.g.spos[u2]].0 == u2);
                assert(t.stack[t.g.spos[u2]] == s.stack[s.g.spos[u2]]);
            }
            assert(done(u2, adj, t.color, t.stack, t.g.spos) == done(u2, adj, s.color, s.stack, s.g.spos));
        } else {
            assert(ei + 1 <= adj[u].len());
            assert(t.stack[top] == (u as usize, (ei + 1) as usize));
            assert(done(u2, adj, t.color, t.stack, t.g.spos) == ei + 1);
        }
    }
    assert forall|e2: int| #[trigger]
        t.g.processed.contains(e2) && t.edges[e2].from != t.edges[e2].to implies ord_ok(
        t.edges[e2].from as int,
        t.edges[e2].to as int,
        t.color,
        t.g.spos,
        t.g.fin,
    ) by {
        if e2 != e {
            assert(ord_ok(s.edges[e2].from as int, s.edges[e2].to as int, s.color, s.g.spos, s.g.fin));
        }
    }
    assert forall|k: int|
        0 < k < t.stack.len() implies has_edge(orig, t.stack[k - 1].0 as int, (#[trigger] t.stack[k]).0 as int) by {
        assert(s.stack[k] == s.stack[k]);
    }
    lemma_measure_bounds(n, orig.len() as int, s.g);
    lemma_measure_bounds(n, orig.len() as int, t.g);
}

/// Finishing the top node `u`, whose edges have all been examined.
proof fn lemma_pop_step(c: DfsCtx, s: DfsState, u: int, t: DfsState)
    requires
        visit_inv(c, s),
        s.stack.len() > 0,
        s.stack[s.stack.len() - 1].0 == u,
        s.stack[s.stack.len() - 1].1 >= c.adj[u]@.len(),
        t.edges == s.edges,
        t.reversed == s.reversed,
        t.color == s.color.update(u, 2),
        t.stack == s.stack.drop_last(),
        t.g == (DfsGhost {
            fin: s.g.fin.update(u, s.g.counter),
            counter: s.g.counter + 1,
            black: s.g.black.insert(u),
            ..s.g
        }),
    ensures
        visit_inv(c, t),
        measure(s.g) < measure(t.g) <= c.orig.len() + 2 * c.n,
{
    reveal(visit_inv);
    let n = c.n;
    let orig = c.orig;
    let adj = c.adj;
    let top = s.stack.len() - 1;
    assert(s.stack[top] == s.stack[top]);
    assert forall|k: int| 0 <= k < t.stack.len() implies #[trigger] t.stack[k].0 != u by {
        assert(s.stack[k] == t.stack[k]);
    }
    assert forall|u2: int, p: int|
        0 <= u2 < n && 0 <= p < adj[u2]@.len() implies (t.g.processed.contains(
        (#[trigger] adj[u2]@[p]).1 as int,
    ) <==> p < done(u2, adj, t.color, t.stack, t.g.spos)) by {
        assert(done(u2, adj, t.color, t.stack, t.g.spos) == done(u2, adj, s.color, s.stack, s.g.spos));
    }
    assert forall|e2: int| #[trigger]
        t.g.processed.contains(e2) && t.edges[e2].from != t.edges[e2].to implies ord_ok(
        t.edges[e2].from as int,
        t.edges[e2].to as int,
        t.color,
        t.g.spos,
        t.g.fin,
    ) by {
        assert(ord_ok(s.edges[e2].from as int, s.edges[e2].to as int, s.color, s.g.spos, s.g.fin));
    }
    assert forall|k: int|
        0 < k < t.stack.len() implies has_edge(orig, t.stack[k - 1].0 as int, (#[trigger] t.stack[k]).0 as int) by {
        assert(s.stack[k] == s.stack[k]);
    }
    assert(t.g.black.len() == s.g.black.len() + 1);
    lemma_measure_bounds(n, orig.len() as int, t.g);
}

/// Runs the depth-first search from the white node `start` until it is
/// black again, reversing every back-edge it meets.
fn dfs_visit(
    start: usize,
    edges: &mut Vec<LayoutEdge>,
    adj: &Vec<Vec<(usize, usize)>>,
    color: &mut Vec<u8>,
    reversed: &mut Vec<usize>,
    Ghost(orig): Ghost<Seq<LayoutEdge>>,
    Ghost(epos): Ghost<Seq<int>>,
    Ghost(g0): Ghost<DfsGhost>,
    Ghost(dag): Ghost<bool>,
    Ghost(pot): Ghost<Seq<int>>,
) -> (g1: Ghost<DfsGhost>)
    requires
        adj_wf(adj@, orig, old(color)@.len() as int, epos),
        dfs_inv(
            old(color)@.len() as int,
            orig,
            old(edges)@,
            adj@,
            old(color)@,
            Seq::empty(),
            g0,
            old(reversed)@,
            dag,
            pot,
        ),
        start < old(color)@.len(),
        old(color)@[start as int] == 0,
    ensures
        final(color)@.len() == old(color)@.len(),
        dfs_inv(
            old(color)@.len() as int,
            orig,
            final(edges)@,
            adj@,
            final(color)@,
            Seq::empty(),
            g1@,
            final(reversed)@,
            dag,
            pot,
        ),
        final(color)@[start as int] == 2,
        forall|v: int| 0 <= v < old(color)@.len() && old(color)@[v] != 0 ==> #[trigger] final(color)@[v] != 0,
        (SearchState { edges: final(edges)@, color: final(color)@, stack: Seq::empty(), reversed: final(reversed)@ })
            == visit_from(
            adj_view(adj@),
            SearchState { edges: old(edges)@, color: old(color)@, stack: Seq::empty(), reversed: old(reversed)@ },
            start as int,
            (orig.len() + 2 * old(color)@.len()) as nat,
        ),
{
    let ghost n = color@.len() as int;
    let ghost m = orig.len() as int;
    let ghost color0 = color@;
    let ghost mut g = g0;
    let ghost ctx = DfsCtx { n, orig, adj: adj@, epos, color0, start: start as int, dag, pot };
    let ghost adjv = adj_view(adj@);
    let ghost bound = (orig.len() + 2 * color@.len()) as nat;
    let mut stack: Vec<(usize, usize)> = Vec::new();
    color.set(start, 1);
    stack.push((start, 0));
    let ghost s_init = SearchState { edges: edges@, color: color@, stack: stack@, reversed: reversed@ };
    let ghost mut steps: nat = 0;
    proof {
        assert(stack@ =~= seq![(start as usize, 0usize)]);
        g = DfsGhost {
            spos: g.spos.update(start as int, 0),
            visited: g.visited.insert(start as int),
            ..g
        };
        assert forall|u: int, p: int|
            0 <= u < n && 0 <= p < adj@[u]@.len() implies (g.processed.contains(
            (#[trigger] adj@[u]@[p]).1 as int,
        ) <==> p < done(u, adj@, color@, stack@, g.spos)) by {
            if u == start {
                assert(!g.processed.contains(adj@[u]@[p].1 as int));
            } else {
                assert(color@[u] == color0[u]);
            }
        }
        assert forall|e: int| #[trigger]
            g.processed.contains(e) && edges@[e].from != edges@[e].to implies ord_ok(
            edges@[e].from as int,
            edges@[e].to as int,
            color@,
            g.spos,
            g.fin,
        ) by {
            assert(ord_ok(edges@[e].from as int, edges@[e].to as int, color0, g0.spos, g0.fin));
        }
        reveal(visit_inv);
        assert(orig.len() == edges@.len());
        assert(edges@.len() == edges.len());
        assert(adj_wf(ctx.adj, ctx.orig, ctx.n, ctx.epos));
        assert(dfs_inv(n, orig, edges@, adj@, color@, stack@, g, reversed@, dag, pot));
        assert(forall|v: int| 0 <= v < n && color0[v] != 0 ==> #[trigger] color@[v] != 0);
        assert(stack@.len() == 1 && stack@[0].0 == start);
        assert(color@[start as int] != 0);
        assert(forall|k: int|
            0 < k < stack@.len() ==> has_edge(orig, stack@[k - 1].0 as int, (#[trigger] stack@[k]).0 as int));
        let s0 = DfsState { edges: edges@, color: color@, stack: stack@, g, reversed: reversed@ };
        assert(s0.color[ctx.start] != 0);
        assert(s0.stack[0].0 == ctx.start);
        assert(ctx.color0.len() == ctx.n);
        assert(ctx.orig.len() <= usize::MAX);
        assert(dfs_inv(ctx.n, ctx.orig, s0.edges, ctx.adj, s0.color, s0.stack, s0.g, s0.reversed, ctx.dag, ctx.pot));
        assert(visit_inv(ctx, s0));
        lemma_measure_bounds(n, m, g);
    }
    let ghost g_start = g;
    while stack.len() > 0
        invariant
            n == color@.len(),
            m == orig.len(),
            adj@ == ctx.adj,
            adjv == adj_view(adj@),
            ctx == (DfsCtx { n, orig, adj: adj@, epos, color0, start: start as int, dag, pot }),
            visit_inv(ctx, DfsState { edges: edges@, color: color@, stack: stack@, g, reversed: reversed@ }),
            (SearchState { edges: edges@, color: color@, stack: stack@, reversed: reversed@ }) == search_steps(adjv, s_init, steps),
            steps <= measure(g) - measure(g_start),
            measure(g) <= m + 2 * n,
        decreases (m + 2 * n) - measure(g),
    {
        let ghost cur = SearchState { edges: edges@, color: color@, stack: stack@, reversed: reversed@ };
        let ghost s = DfsState { edges: edges@, color: color@, stack: stack@, g, reversed: reversed@ };
        proof {
            lemma_step_facts(ctx, s);
        }
        let top = stack.len() - 1;
        let (u, ei) = stack[top];
        if ei < adj[u].len() {
            let (v, e_idx) = adj[u][ei];
            stack.set(top, (u, ei + 1));
            if color[v] == 0 {
                // tree edge
                color.set(v, 1);
                stack.push((v, 0));
                proof {
                    g = DfsGhost {
                        processed: g.processed.insert(e_idx as int),
                        spos: g.spos.update(v as int, top + 1),
                        visited: g.visited.insert(v as int),
                        ..g
                    };
                    lemma_tree_step(ctx, s, u as int, ei as int, v as int, e_idx as int,
                        DfsState { edges: edges@, color: color@, stack: stack@, g, reversed: reversed@ });
                }
            } else if color[v] == 1 {
                // back-edge: reverse it
                let mut edge = edges[e_idx];
                let t = edge.from;
                edge.from = edge.to;
                edge.to = t;
                edge.reversed = true;
                edges.set(e_idx, edge);
                reversed.push(e_idx);
                proof {
                    g = DfsGhost { processed: g.processed.insert(e_idx as int), ..g };
                    lemma_back_step(ctx, s, u as int, ei as int, v as int, e_idx as int,
                        DfsState { edges: edges@, color: color@, stack: stack@, g, reversed: reversed@ });
                }
            } else {
                // forward or cross edge to a finished node
                proof {
                    reveal(visit_inv);
                    g = DfsGhost { processed: g.processed.insert(e_idx as int), ..g };
                    lemma_cross_step(ctx, s, u as int, ei as int, v as int, e_idx as int,
                        DfsState { edges: edges@, color: color@, stack: stack@, g, reversed: reversed@ });
                }
            }
        } else {
            color.set(u, 2);
            stack.pop();
            proof {
                g = DfsGhost {
                    fin: g.fin.update(u as int, g.counter),
                    counter: g.counter + 1,
                    black: g.black.insert(u as int),
                    ..g
                };
                lemma_pop_step(ctx, s, u as int,
                    DfsState { edges: edges@, color: color@, stack: stack@, g, reversed: reversed@ });
            }
        }
        proof {
            assert(adjv[u as int] == adj@[u as int]@);
            assert((SearchState { edges: edges@, color: color@, stack: stack@, reversed: reversed@ }) =~= search_step(adjv, cur));
            steps = steps + 1;
        }
    }
    proof {
        reveal(visit_inv);
        assert(measure(g_start) >= 0);
        assert(stack@ =~= Seq::<(usize, usize)>::empty());
        lemma_search_settled(adjv, s_init, steps, bound);
        assert(s_init == (SearchState {
            color: old(color)@.update(start as int, 1),
            stack: seq![(start as usize, 0usize)],
            ..SearchState { edges: old(edges)@, color: old(color)@, stack: Seq::empty(), reversed: old(reversed)@ }
        }));
    }
    Ghost(g)
}

/// Breaks cycles in the graph by reversing the back-edges found by an
/// iterative three-color depth-first search (started from every node in
/// turn, following each node's outgoing edges in edge order). Returns the
/// indices of the edges that were reversed, in the order they were found.
///
/// A reversed edge has its endpoints swapped and its `reversed` flag set.
/// Afterwards the edges between distinct existing nodes form a DAG. A
/// self-loop is not followed: it survives unchanged and its index is never
/// returned. Edges that reference a missing node are ignored.
pub fn break_cycles(graph: &mut LayoutGraph) -> (reversed_indices: Vec<usize>)
    ensures
        final(graph).nodes@ == old(graph).nodes@,
        final(graph).edges@.len() == old(graph).edges@.len(),
        reversed_indices@.no_duplicates(),
        forall|i: int|
            0 <= i < reversed_indices@.len() ==> #[trigger] reversed_indices@[i] < old(graph).edges@.len()
                && is_followed(
                old(graph).edges@[reversed_indices@[i] as int],
                old(graph).nodes@.len() as int,
            ),
        forall|k: int|
            0 <= k < old(graph).edges@.len() && old(graph).edges@[k].from == old(graph).edges@[k].to ==> {
                &&& #[trigger] final(graph).edges@[k] == old(graph).edges@[k]
                &&& !reversed_indices@.contains(k as usize)
            },
        forall|k: int|
            0 <= k < old(graph).edges@.len() ==> #[trigger] final(graph).edges@[k] == if reversed_indices@.contains(
                k as usize,
            ) {
                reversal_of(old(graph).edges@[k])
            } else {
                old(graph).edges@[k]
            },
        forall|i: int|
            0 <= i < reversed_indices@.len() ==> lies_on_cycle(
                old(graph).edges@,
                old(graph).edges@[#[trigger] reversed_indices@[i] as int],
            ),
        acyclic_except_self_loops(final(graph).edges@, final(graph).nodes@.len() as int),
        acyclic(old(graph).edges@, old(graph).nodes@.len() as int) ==> reversed_indices@.len() == 0,
        final(graph).edges@ == cycle_breaking(old(graph).edges@, old(graph).nodes@.len() as int).edges,
        reversed_indices@ == cycle_breaking(old(graph).edges@, old(graph).nodes@.len() as int).reversed,
{
    let n = graph.nodes.len();
    let ghost orig = graph.edges@;
    let ghost nodes0 = graph.nodes@;
    if n == 0 {
        proof {
            assert(is_potential(graph.edges@, 0, Seq::empty()));
        }
        let empty: Vec<usize> = Vec::new();
        proof {
            assert(empty@ =~= cycle_breaking(orig, 0).reversed);
        }
        return empty;
    }
    let m = graph.edges.len();

    // Adjacency lists: node -> [(neighbor, edge index)], in edge order.
    let mut adj: Vec<Vec<(usize, usize)>> = Vec::new();
    for i in 0..n
        invariant
            adj@.len() == i,
            forall|j: int| 0 <= j < i ==> (#[trigger] adj@[j])@.len() == 0,
    {
        adj.push(Vec::new());
    }
    let ghost mut epos: Seq<int> = Seq::new(m as nat, |e: int| 0);
    proof {
        assert forall|u: int| 0 <= u < n implies #[trigger] adj_view(adj@)[u] =~= adjacency(orig, n as int, 0)[u] by {
            assert(adj@[u]@.len() == 0);
        }
        assert(adj_view(adj@) =~= adjacency(orig, n as int, 0));
    }
    for idx in 0..m
        invariant
            n == graph.nodes@.len(),
            m == orig.len(),
            graph.edges@ == orig,
            adj@.len() == n,
            epos.len() == m,
            forall|u: int, p: int|
                0 <= u < n && 0 <= p < adj@[u]@.len() ==> entry_ok(#[trigger] adj@[u]@[p], u, p, orig, n as int, epos)
                    && adj@[u]@[p].1 < idx,
            forall|e: int|
                0 <= e < idx && is_followed(#[trigger] orig[e], n as int) ==> listed(adj@, orig, e, epos),
            adj_view(adj@) == adjacency(orig, n as int, idx as int),
    {
        let edge = graph.edges[idx];
        let ghost av0 = adj_view(adj@);
        if edge.from < n && edge.to < n && edge.from != edge.to {
            let ghost adj0 = adj@;
            let ghost epos0 = epos;
            proof {
                epos = epos.update(idx as int, adj@[edge.from as int]@.len() as int);
            }
            adj[edge.from].push((edge.to, idx));
            proof {
                assert forall|u: int, p: int|
                    0 <= u < n && 0 <= p < adj@[u]@.len() implies entry_ok(#[trigger] adj@[u]@[p], u, p, orig, n as int, epos)
                        && adj@[u]@[p].1 < idx + 1 by {
                    if u != edge.from || p < adj0[u]@.len() {
                        assert(adj@[u]@[p] == adj0[u]@[p]);
                        assert(entry_ok(adj0[u]@[p], u, p, orig, n as int, epos0));
                        assert(adj0[u]@[p].1 < idx);
                        assert(adj0[u]@[p].1 != idx);
                        assert(epos[adj0[u]@[p].1 as int] == epos0[adj0[u]@[p].1 as int]);
                    } else {
                        assert(adj@[u]@[p] == (edge.to, idx));
                        assert(orig[idx as int] == edge);
                        assert(epos[idx as int] == p);
                        assert(entry_ok(adj@[u]@[p], u, p, orig, n as int, epos));
                    }
                    assert(entry_ok(adj@[u]@[p], u, p, orig, n as int, epos));
                }
                assert forall|e: int|
                    0 <= e < idx + 1 && is_followed(#[trigger] orig[e], n as int) implies listed(adj@, orig, e, epos) by {
                    if e < idx {
                        assert(listed(adj0, orig, e, epos0));
                        let u = orig[e].from as int;
                        assert(entry_ok(adj0[u]@[epos0[e]], u, epos0[e], orig, n as int, epos0));
                        assert(adj@[u]@[epos0[e]] == adj0[u]@[epos0[e]]);
                    }
                }
                assert(orig[idx as int] == edge);
                assert(adj_view(adj@) =~= av0.update(edge.from as int, av0[edge.from as int].push((edge.to, idx))));
            }
        } else {
            assert(orig[idx as int] == edge);
            assert(forall|u: int, p: int|
                0 <= u < n && 0 <= p < adj@[u]@.len() ==> entry_ok(#[trigger] adj@[u]@[p], u, p, orig, n as int, epos)
                    && adj@[u]@[p].1 < idx + 1);
        }
    }

    // 0 = white (unvisited), 1 = gray (on the stack), 2 = black (finished)
    let mut color: Vec<u8> = Vec::new();
    for i in 0..n
        invariant
            color@.len() == i,
            forall|j: int| 0 <= j < i ==> #[trigger] color@[j] == 0,
    {
        color.push(0);
    }
    let mut reversed_indices: Vec<usize> = Vec::new();
    let ghost init = SearchState {
        edges: orig,
        color: Seq::new(n as nat, |i: int| 0u8),
        stack: Seq::empty(),
        reversed: Seq::empty(),
    };
    proof {
        assert(color@ =~= init.color);
        assert(reversed_indices@ =~= init.reversed);
    }
    let ghost dag = acyclic(orig, n as int);
    let ghost pot = if dag {
        choose|pot: Seq<int>| is_strict_potential(orig, n as int, pot)
    } else {
        Seq::empty()
    };
    let ghost mut g = DfsGhost {
        spos: Seq::new(n as nat, |i: int| 0),
        fin: Seq::new(n as nat, |i: int| 0),
        counter: 0,
        processed: Set::empty(),
        visited: Set::empty(),
        black: Set::empty(),
    };
    proof {
        assert(adj_wf(adj@, orig, n as int, epos));
        assert forall|u: int, p: int|
            0 <= u < n && 0 <= p < adj@[u]@.len() implies (g.processed.contains(
            (#[trigger] adj@[u]@[p]).1 as int,
        ) <==> p < done(u, adj@, color@, Seq::empty(), g.spos)) by {}
        assert forall|v: int| #[trigger] g.visited.contains(v) <==> (0 <= v < n && color@[v] != 0) by {}
        assert forall|v: int| #[trigger] g.black.contains(v) <==> (0 <= v < n && color@[v] == 2) by {}
        assert(reversed_indices@.no_duplicates());
    }
    for start in 0..n
        invariant
            n == graph.nodes@.len(),
            graph.nodes@ == nodes0,
            m == orig.len(),
            color@.len() == n,
            adj_wf(adj@, orig, n as int, epos),
            dfs_inv(n as int, orig, graph.edges@, adj@, color@, Seq::empty(), g, reversed_indices@, dag, pot),
            forall|v: int| 0 <= v < start ==> #[trigger] color@[v] != 0,
            adj_view(adj@) == adjacency(orig, n as int, m as int),
            (SearchState { edges: graph.edges@, color: color@, stack: Seq::empty(), reversed: reversed_indices@ })
                == search_all(adj_view(adj@), init, start as int, (m + 2 * n) as nat),
    {
        if color[start] == 0 {
            let gh = dfs_visit(
                start,
                &mut graph.edges,
                &adj,
                &mut color,
                &mut reversed_indices,
                Ghost(orig),
                Ghost(epos),
                Ghost(g),
                Ghost(dag),
                Ghost(pot),
            );
            proof {
                g = gh@;
            }
        }
    }
    proof {
        assert(orig.len() == m);
    }

    proof {
        let ghost cur = graph.edges@;
        // every node is black, so every edge between existing nodes was examined
        assert forall|v: int| 0 <= v < n implies #[trigger] color@[v] == 2 by {
            if color@[v] == 1 {
                assert(0 <= g.spos[v] < 0);
            }
        }
        let fin_pot = Seq::new(n as nat, |v: int| -g.fin[v]);
        assert forall|k: int|
            0 <= k < cur.len() && joins_existing(#[trigger] cur[k], n as int) && cur[k].from != cur[k].to
            implies fin_pot[cur[k].from as int] < fin_pot[cur[k].to as int] by {
            assert(joins_existing(orig[k], n as int));
            assert(listed(adj@, orig, k, epos));
            let u = orig[k].from as int;
            assert(color@[u] == 2);
            assert(g.processed.contains(adj@[u]@[epos[k]].1 as int));
            assert(ord_ok(cur[k].from as int, cur[k].to as int, color@, g.spos, g.fin));
        }
        assert(is_potential(cur, n as int, fin_pot));
    }
    reversed_indices
}

/// Cycle breaking makes a well-formed graph (dense ids, no dangling edge,
/// no self-loop) acyclic and keeps it well-formed: a graph whose every edge
/// is its original or its reversal, and in which only self-loops could
/// still close a cycle, has none left. Rank assignment then succeeds.
pub proof fn lemma_cycle_breaking_leaves_graph_acyclic(
    nodes: Seq<LayoutNode>,
    before: Seq<LayoutEdge>,
    after: Seq<LayoutEdge>,
    rev: Seq<usize>,
)
    requires
        well_formed(nodes, before),
        after.len() == before.len(),
        forall|k: int|
            0 <= k < before.len() ==> #[trigger] after[k] == if rev.contains(k as usize) {
                reversal_of(before[k])
            } else {
                before[k]
            },
        acyclic_except_self_loops(after, nodes.len() as int),
    ensures
        well_formed(nodes, after),
        acyclic(after, nodes.len() as int),
{
    let n = nodes.len() as int;
    assert forall|k: int| 0 <= k < after.len() implies !is_dangling(#[trigger] after[k], n)
        && after[k].from != after[k].to by {
        assert(!is_dangling(before[k], n));
        assert(before[k].from != before[k].to);
    }
    let pot = choose|pot: Seq<int>| #[trigger] is_potential(after, n, pot);
    assert(is_strict_potential(after, n, pot));
}

} // verus!
