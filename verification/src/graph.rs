//! Directed graphs of blocks, kept in `petgraph` graphs.
//!
//! A node is named by its number. The mathematical model of a graph is the
//! sequence of its node weights and the sequence of its edges, both in the
//! order in which they were added.
use vstd::prelude::*;

use petgraph::graph::{DiGraph, EdgeIndex, NodeIndex};
use petgraph::visit::{DfsPostOrder, EdgeRef, Walker};
use petgraph::Direction;

use crate::cfg::{BasicBlock, EdgeKind};
use crate::ssa::SsaBlock;

verus! {

/// The graph type of `petgraph`.
#[verifier::external_type_specification]
#[verifier::external_body]
#[verifier::reject_recursive_types(N)]
#[verifier::reject_recursive_types(E)]
#[verifier::reject_recursive_types(Ty)]
#[verifier::reject_recursive_types(Ix)]
pub struct ExGraph<N, E, Ty, Ix>(petgraph::Graph<N, E, Ty, Ix>);

/// The marker of directed graphs of `petgraph`.
#[verifier::external_type_specification]
#[verifier::external_body]
pub struct ExDirected(petgraph::Directed);

/// An edge: source node, target node and kind.
pub type Edge = (usize, usize, EdgeKind);

/// The node weights of a control-flow graph, in the order of their numbers.
pub uninterp spec fn cfg_nodes(g: DiGraph<BasicBlock, EdgeKind>) -> Seq<BasicBlock>;

/// The edges of a control-flow graph, in the order in which they were added.
pub uninterp spec fn cfg_edges(g: DiGraph<BasicBlock, EdgeKind>) -> Seq<Edge>;

/// Outgoing edges of a node, the most recently added one first.
pub open spec fn out_edges(edges: Seq<Edge>, node: usize) -> Seq<(usize, EdgeKind)>
    decreases edges.len(),
{
    if edges.len() == 0 {
        Seq::empty()
    } else {
        let rest = out_edges(edges.drop_last(), node);
        let (a, b, kind) = edges.last();
        if a == node {
            seq![(b, kind)] + rest
        } else {
            rest
        }
    }
}

/// The outgoing edges of a node are edges of the graph.
pub proof fn lemma_out_edges(edges: Seq<Edge>, node: usize, i: int)
    requires
        0 <= i < out_edges(edges, node).len(),
    ensures
        edges.contains((node, out_edges(edges, node)[i].0, out_edges(edges, node)[i].1)),
    decreases edges.len(),
{
    let (a, b, kind) = edges.last();
    if a == node {
        if i == 0 {
            assert(edges[edges.len() - 1] == (a, b, kind));
        } else {
            lemma_out_edges(edges.drop_last(), node, i - 1);
            let e = (node, out_edges(edges, node)[i].0, out_edges(edges, node)[i].1);
            let k = edges.drop_last().index_of(e);
            assert(edges[k] == e);
        }
    } else {
        lemma_out_edges(edges.drop_last(), node, i);
        let e = (node, out_edges(edges, node)[i].0, out_edges(edges, node)[i].1);
        let k = edges.drop_last().index_of(e);
        assert(edges[k] == e);
    }
}

/// A node that another node reaches is that node, or the target of an edge.
pub proof fn lemma_reachable_target(edges: Seq<Edge>, a: usize, b: usize)
    requires
        reachable(edges, a, b),
        a != b,
    ensures
        exists|i: int| 0 <= i < edges.len() && (#[trigger] edges[i]).1 == b,
{
    let p = choose|p: Seq<usize>| #[trigger] is_path(edges, p) && p[0] == a && p.last() == b;
    assert(p.len() > 1);
    assert(has_edge(edges, p[p.len() - 2], p[p.len() - 1]));
}

/// Sources of the incoming edges of a node, the most recently added one
/// first.
pub open spec fn predecessors(edges: Seq<Edge>, node: usize) -> Seq<usize>
    decreases edges.len(),
{
    if edges.len() == 0 {
        Seq::empty()
    } else {
        let rest = predecessors(edges.drop_last(), node);
        let (a, b, kind) = edges.last();
        if b == node {
            seq![a] + rest
        } else {
            rest
        }
    }
}

/// Whether there is an edge between two nodes.
pub open spec fn has_edge(edges: Seq<Edge>, a: usize, b: usize) -> bool {
    exists|i: int| 0 <= i < edges.len() && (#[trigger] edges[i]).0 == a && edges[i].1 == b
}

/// Whether consecutive nodes of a sequence are joined by edges.
pub open spec fn is_path(edges: Seq<Edge>, p: Seq<usize>) -> bool {
    &&& p.len() > 0
    &&& forall|i: int| 0 <= i < p.len() - 1 ==> has_edge(edges, #[trigger] p[i], p[i + 1])
}

/// Whether a path leads from one node to another.
pub open spec fn reachable(edges: Seq<Edge>, a: usize, b: usize) -> bool {
    exists|p: Seq<usize>| #[trigger] is_path(edges, p) && p[0] == a && p.last() == b
}

/// Whether a node lies on a directed cycle.
pub open spec fn on_cycle(edges: Seq<Edge>, node: usize) -> bool {
    exists|p: Seq<usize>| #[trigger]
        is_path(edges, p) && p.len() > 1 && p[0] == node && p.last() == node
}

/// The order in which a depth-first search from a node finishes nodes, for a
/// graph with the given number of nodes and edges.
pub uninterp spec fn postorder(nodes: nat, edges: Seq<Edge>, start: usize) -> Seq<usize>;

/// Calls `Graph::with_capacity`: an empty graph.
#[verifier::external_body]
pub(crate) fn cfg_graph(nodes: usize, edges: usize) -> (g: DiGraph<BasicBlock, EdgeKind>)
    ensures
        cfg_nodes(g) == Seq::<BasicBlock>::empty(),
        cfg_edges(g) == Seq::<Edge>::empty(),
{
    DiGraph::with_capacity(nodes, edges)
}

/// Calls `Graph::add_node`: the node gets the next number. The index type
/// has room for `u32::MAX` nodes.
#[verifier::external_body]
pub(crate) fn cfg_add_node(g: &mut DiGraph<BasicBlock, EdgeKind>, weight: BasicBlock) -> (r: usize)
    requires
        cfg_nodes(*old(g)).len() < u32::MAX,
    ensures
        r == cfg_nodes(*old(g)).len(),
        cfg_nodes(*final(g)) == cfg_nodes(*old(g)).push(weight),
        cfg_edges(*final(g)) == cfg_edges(*old(g)),
{
    g.add_node(weight).index()
}

/// Calls `Graph::add_edge` on nodes that exist. The index type has room for
/// `u32::MAX` edges.
#[verifier::external_body]
pub(crate) fn cfg_add_edge(g: &mut DiGraph<BasicBlock, EdgeKind>, a: usize, b: usize, kind: EdgeKind)
    requires
        a < cfg_nodes(*old(g)).len(),
        b < cfg_nodes(*old(g)).len(),
        cfg_edges(*old(g)).len() < u32::MAX,
    ensures
        cfg_nodes(*final(g)) == cfg_nodes(*old(g)),
        cfg_edges(*final(g)) == cfg_edges(*old(g)).push((a, b, kind)),
{
    g.add_edge(NodeIndex::new(a), NodeIndex::new(b), kind);
}

/// Calls `Graph::node_count`.
#[verifier::external_body]
pub(crate) fn cfg_node_count(g: &DiGraph<BasicBlock, EdgeKind>) -> (r: usize)
    ensures
        r == cfg_nodes(*g).len(),
{
    g.node_count()
}

/// Calls `Graph::index` on a node that exists: its weight.
#[verifier::external_body]
pub(crate) fn cfg_block(g: &DiGraph<BasicBlock, EdgeKind>, node: usize) -> (r: BasicBlock)
    requires
        node < cfg_nodes(*g).len(),
    ensures
        r == cfg_nodes(*g)[node as int],
{
    g[NodeIndex::new(node)]
}

/// Calls `Graph::edge_count`.
#[verifier::external_body]
pub(crate) fn cfg_edge_count(g: &DiGraph<BasicBlock, EdgeKind>) -> (r: usize)
    ensures
        r == cfg_edges(*g).len(),
{
    g.edge_count()
}

/// Calls `Graph::edge_endpoints` on an edge that exists: its nodes.
#[verifier::external_body]
pub(crate) fn cfg_endpoints(g: &DiGraph<BasicBlock, EdgeKind>, edge: usize) -> (r: Option<
    (usize, usize),
>)
    requires
        edge < cfg_edges(*g).len(),
    ensures
        r == Some((cfg_edges(*g)[edge as int].0, cfg_edges(*g)[edge as int].1)),
{
    g.edge_endpoints(EdgeIndex::new(edge)).map(|(a, b)| (a.index(), b.index()))
}

/// Calls `Graph::edge_weight` on an edge that exists: its kind.
#[verifier::external_body]
pub(crate) fn cfg_edge_kind(g: &DiGraph<BasicBlock, EdgeKind>, edge: usize) -> (r: Option<EdgeKind>)
    requires
        edge < cfg_edges(*g).len(),
    ensures
        r == Some(cfg_edges(*g)[edge as int].2),
{
    g.edge_weight(EdgeIndex::new(edge)).copied()
}

/// Calls `Graph::edges` on a node that exists: its outgoing edges, the most
/// recently added one first.
#[verifier::external_body]
pub(crate) fn cfg_out_edges(g: &DiGraph<BasicBlock, EdgeKind>, node: usize) -> (r: Vec<
    (usize, EdgeKind),
>)
    requires
        node < cfg_nodes(*g).len(),
    ensures
        r@ == out_edges(cfg_edges(*g), node),
{
    g.edges(NodeIndex::new(node)).map(|e| (e.target().index(), *e.weight())).collect()
}

/// Calls `Graph::neighbors_directed` for the incoming edges of a node that
/// exists: their sources, the most recently added edge first.
#[verifier::external_body]
pub(crate) fn cfg_predecessors(g: &DiGraph<BasicBlock, EdgeKind>, node: usize) -> (r: Vec<usize>)
    requires
        node < cfg_nodes(*g).len(),
    ensures
        r@ == predecessors(cfg_edges(*g), node),
{
    g.neighbors_directed(NodeIndex::new(node), Direction::Incoming).map(|n| n.index()).collect()
}

/// Walks a `DfsPostOrder` from a node that exists: every node that can be
/// reached from it, once each, the start node last. A node finishes after the
/// targets of its edges, but for those that it was reached from.
#[verifier::external_body]
pub(crate) fn cfg_postorder(g: &DiGraph<BasicBlock, EdgeKind>, start: usize) -> (r: Vec<usize>)
    requires
        start < cfg_nodes(*g).len(),
    ensures
        r@ == postorder(cfg_nodes(*g).len(), cfg_edges(*g), start),
        r@.no_duplicates(),
        r@.len() > 0,
        r@.last() == start,
        forall|n: usize| #[trigger] r@.contains(n) <==> reachable(cfg_edges(*g), start, n),
        forall|i: int, j: int|
            0 <= i < j < r@.len() && #[trigger] has_edge(cfg_edges(*g), r@[i], r@[j]) ==> reachable(
                cfg_edges(*g),
                r@[j],
                r@[i],
            ),
{
    DfsPostOrder::new(g, NodeIndex::new(start)).iter(g).map(|n| n.index()).collect()
}

/// Calls `petgraph::algo::is_cyclic_directed`: whether some node lies on a
/// directed cycle.
#[verifier::external_body]
pub(crate) fn cfg_is_cyclic(g: &DiGraph<BasicBlock, EdgeKind>) -> (r: bool)
    ensures
        r == exists|n: usize| #[trigger] on_cycle(cfg_edges(*g), n),
{
    petgraph::algo::is_cyclic_directed(g)
}

/// The node weights of an SSA graph, in the order of their numbers.
pub uninterp spec fn ssa_nodes(g: DiGraph<SsaBlock, EdgeKind>) -> Seq<SsaBlock>;

/// The edges of an SSA graph, in the order in which they were added.
pub uninterp spec fn ssa_edges(g: DiGraph<SsaBlock, EdgeKind>) -> Seq<Edge>;

/// Calls `Graph::with_capacity`: an empty graph.
#[verifier::external_body]
pub(crate) fn ssa_graph(nodes: usize, edges: usize) -> (g: DiGraph<SsaBlock, EdgeKind>)
    ensures
        ssa_nodes(g) == Seq::<SsaBlock>::empty(),
        ssa_edges(g) == Seq::<Edge>::empty(),
{
    DiGraph::with_capacity(nodes, edges)
}

/// Calls `Graph::add_node`: the node gets the next number. The index type
/// has room for `u32::MAX` nodes.
#[verifier::external_body]
pub(crate) fn ssa_add_node(g: &mut DiGraph<SsaBlock, EdgeKind>, weight: SsaBlock) -> (r: usize)
    requires
        ssa_nodes(*old(g)).len() < u32::MAX,
    ensures
        r == ssa_nodes(*old(g)).len(),
        ssa_nodes(*final(g)) == ssa_nodes(*old(g)).push(weight),
        ssa_edges(*final(g)) == ssa_edges(*old(g)),
{
    g.add_node(weight).index()
}

/// Calls `Graph::add_edge` on nodes that exist. The index type has room for
/// `u32::MAX` edges.
#[verifier::external_body]
pub(crate) fn ssa_add_edge(g: &mut DiGraph<SsaBlock, EdgeKind>, a: usize, b: usize, kind: EdgeKind)
    requires
        a < ssa_nodes(*old(g)).len(),
        b < ssa_nodes(*old(g)).len(),
        ssa_edges(*old(g)).len() < u32::MAX,
    ensures
        ssa_nodes(*final(g)) == ssa_nodes(*old(g)),
        ssa_edges(*final(g)) == ssa_edges(*old(g)).push((a, b, kind)),
{
    g.add_edge(NodeIndex::new(a), NodeIndex::new(b), kind);
}

/// Calls `Graph::node_count`.
#[verifier::external_body]
pub(crate) fn ssa_node_count(g: &DiGraph<SsaBlock, EdgeKind>) -> (r: usize)
    ensures
        r == ssa_nodes(*g).len(),
{
    g.node_count()
}

/// Calls `Graph::index` on a node that exists: its weight.
#[verifier::external_body]
pub(crate) fn ssa_block(g: &DiGraph<SsaBlock, EdgeKind>, node: usize) -> (r: SsaBlock)
    requires
        node < ssa_nodes(*g).len(),
    ensures
        r == ssa_nodes(*g)[node as int],
{
    g[NodeIndex::new(node)]
}

/// Calls `Graph::index_mut` on a node that exists: replaces its weight.
#[verifier::external_body]
pub(crate) fn ssa_set_block(g: &mut DiGraph<SsaBlock, EdgeKind>, node: usize, weight: SsaBlock)
    requires
        node < ssa_nodes(*old(g)).len(),
    ensures
        ssa_nodes(*final(g)) == ssa_nodes(*old(g)).update(node as int, weight),
        ssa_edges(*final(g)) == ssa_edges(*old(g)),
{
    g[NodeIndex::new(node)] = weight;
}

/// Calls `Graph::edges` on a node that exists: its outgoing edges, the most
/// recently added one first.
#[verifier::external_body]
pub(crate) fn ssa_out_edges(g: &DiGraph<SsaBlock, EdgeKind>, node: usize) -> (r: Vec<
    (usize, EdgeKind),
>)
    requires
        node < ssa_nodes(*g).len(),
    ensures
        r@ == out_edges(ssa_edges(*g), node),
{
    g.edges(NodeIndex::new(node)).map(|e| (e.target().index(), *e.weight())).collect()
}

/// Calls `Graph::contains_edge` on nodes that exist.
#[verifier::external_body]
pub(crate) fn ssa_contains_edge(g: &DiGraph<SsaBlock, EdgeKind>, a: usize, b: usize) -> (r: bool)
    requires
        a < ssa_nodes(*g).len(),
        b < ssa_nodes(*g).len(),
    ensures
        r == has_edge(ssa_edges(*g), a, b),
{
    g.contains_edge(NodeIndex::new(a), NodeIndex::new(b))
}

/// The members of components.
pub open spec fn components_of(r: Seq<Vec<usize>>) -> Seq<Seq<usize>> {
    r.map_values(|c: Vec<usize>| c@)
}

/// Whether some component holds a node.
pub open spec fn in_some(comps: Seq<Seq<usize>>, n: usize) -> bool {
    exists|c: int| 0 <= c < comps.len() && (#[trigger] comps[c]).contains(n)
}

/// Whether components are the strongly connected components of a graph: they
/// hold every node once, and two nodes share a component exactly when each
/// can be reached from the other.
pub open spec fn are_components(comps: Seq<Seq<usize>>, nodes: nat, edges: Seq<Edge>) -> bool {
    &&& forall|c: int| 0 <= c < comps.len() ==> (#[trigger] comps[c]).no_duplicates()
    &&& forall|c: int, i: int|
        0 <= c < comps.len() && 0 <= i < comps[c].len() ==> (#[trigger] comps[c][i]) < nodes
    &&& forall|n: usize| n < nodes ==> #[trigger] in_some(comps, n)
    &&& forall|c: int, a: usize, b: usize|
        0 <= c < comps.len() && #[trigger] comps[c].contains(a) && #[trigger] comps[c].contains(b)
            ==> reachable(edges, a, b)
    &&& forall|c: int, a: usize, b: usize|
        0 <= c < comps.len() && #[trigger] comps[c].contains(a) && b < nodes && reachable(
            edges,
            a,
            b,
        ) && #[trigger] reachable(edges, b, a) ==> comps[c].contains(b)
}

/// Calls `petgraph::algo::tarjan_scc`: the strongly connected components.
#[verifier::external_body]
pub(crate) fn ssa_components(g: &DiGraph<SsaBlock, EdgeKind>) -> (r: Vec<Vec<usize>>)
    ensures
        are_components(components_of(r@), ssa_nodes(*g).len(), ssa_edges(*g)),
{
    petgraph::algo::tarjan_scc(g).into_iter().map(
        |c| c.into_iter().map(|n| n.index()).collect(),
    ).collect()
}

} // verus!
