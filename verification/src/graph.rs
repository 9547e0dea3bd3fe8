//! The directed graph of lattice points that a crop walks, kept in a
//! `petgraph` graph map.
//!
//! Each item here calls one method of `petgraph::graphmap::GraphMap`. What
//! the graph holds is given by two names: its nodes and its edges. The order
//! in which the graph hands out its nodes, edges or neighbours is not stated:
//! it follows the insertion order of the maps inside the graph, as changed by
//! their removals, which the names do not record.

use vstd::prelude::*;
use petgraph::graphmap::GraphMap;
use petgraph::Directed;
use std::hash::RandomState;

verus! {

/// The graph map type of `petgraph`.
#[verifier::external_type_specification]
#[verifier::external_body]
#[verifier::reject_recursive_types(N)]
#[verifier::reject_recursive_types(E)]
#[verifier::reject_recursive_types(Ty)]
#[verifier::reject_recursive_types(S)]
pub struct ExGraphMap<N, E, Ty, S: core::hash::BuildHasher>(GraphMap<N, E, Ty, S>);

/// The marker type of `petgraph` for directed graphs.
#[verifier::external_type_specification]
#[verifier::external_body]
pub struct ExDirected(Directed);

/// The nodes of a graph.
pub uninterp spec fn graph_nodes(g: GraphMap<(i32, i32), (), Directed, RandomState>) -> Set<(i32, i32)>;

/// The edges of a graph, each from its first node to its second.
pub uninterp spec fn graph_edges(g: GraphMap<(i32, i32), (), Directed, RandomState>) -> Set<((i32, i32), (i32, i32))>;

/// Which way an edge is followed from a node.
#[derive(Debug, Clone, Copy, PartialEq, Eq, Structural)]
pub enum EdgeDir {
    /// Along the edges that leave the node.
    Outgoing,
    /// Against the edges that enter the node.
    Incoming,
}

/// The nodes reached from `a` along one edge in direction `dir`.
pub open spec fn neighbors_spec(edges: Set<((i32, i32), (i32, i32))>, a: (i32, i32), dir: EdgeDir) -> Set<(i32, i32)> {
    match dir {
        EdgeDir::Outgoing => Set::new(|b: (i32, i32)| edges.contains((a, b))),
        EdgeDir::Incoming => Set::new(|b: (i32, i32)| edges.contains((b, a))),
    }
}

/// `GraphMap::new`: a graph with no nodes and no edges.
#[verifier::external_body]
pub(crate) fn graph_new() -> (g: GraphMap<(i32, i32), (), Directed, RandomState>)
    ensures
        graph_nodes(g) == Set::<(i32, i32)>::empty(),
        graph_edges(g) == Set::<((i32, i32), (i32, i32))>::empty(),
{
    GraphMap::new()
}

/// `GraphMap::add_node`: adds `n` to the nodes (if it is not there yet) and
/// returns it; the edges stay.
#[verifier::external_body]
pub(crate) fn graph_add_node(g: &mut GraphMap<(i32, i32), (), Directed, RandomState>, n: (i32, i32)) -> (r: (i32, i32))
    ensures
        r == n,
        graph_nodes(*final(g)) == graph_nodes(*old(g)).insert(n),
        graph_edges(*final(g)) == graph_edges(*old(g)),
{
    g.add_node(n)
}

/// `GraphMap::add_edge`: adds the edge from `a` to `b`, and both nodes; the
/// result is some exactly when the edge was there already.
#[verifier::external_body]
pub(crate) fn graph_add_edge(g: &mut GraphMap<(i32, i32), (), Directed, RandomState>, a: (i32, i32), b: (i32, i32)) -> (r: Option<()>)
    ensures
        r is Some <==> graph_edges(*old(g)).contains((a, b)),
        graph_nodes(*final(g)) == graph_nodes(*old(g)).insert(a).insert(b),
        graph_edges(*final(g)) == graph_edges(*old(g)).insert((a, b)),
{
    g.add_edge(a, b, ())
}

/// `GraphMap::remove_node`: removes `n` and every edge that leaves or enters
/// it; the result says whether `n` was a node.
#[verifier::external_body]
pub(crate) fn graph_remove_node(g: &mut GraphMap<(i32, i32), (), Directed, RandomState>, n: (i32, i32)) -> (r: bool)
    ensures
        r == graph_nodes(*old(g)).contains(n),
        graph_nodes(*final(g)) == graph_nodes(*old(g)).remove(n),
        graph_edges(*final(g)) == graph_edges(*old(g)).filter(|e: ((i32, i32), (i32, i32))| e.0 != n && e.1 != n),
{
    g.remove_node(n)
}

/// `GraphMap::remove_edge`: removes the edge from `a` to `b`; the nodes stay;
/// the result is some exactly when the edge was there.
#[verifier::external_body]
pub(crate) fn graph_remove_edge(g: &mut GraphMap<(i32, i32), (), Directed, RandomState>, a: (i32, i32), b: (i32, i32)) -> (r: Option<()>)
    ensures
        r is Some <==> graph_edges(*old(g)).contains((a, b)),
        graph_nodes(*final(g)) == graph_nodes(*old(g)),
        graph_edges(*final(g)) == graph_edges(*old(g)).remove((a, b)),
{
    g.remove_edge(a, b)
}

/// `GraphMap::contains_edge`: whether the edge from `a` to `b` is there.
#[verifier::external_body]
pub(crate) fn graph_contains_edge(g: &GraphMap<(i32, i32), (), Directed, RandomState>, a: (i32, i32), b: (i32, i32)) -> (r: bool)
    ensures
        r == graph_edges(*g).contains((a, b)),
{
    g.contains_edge(a, b)
}

/// `GraphMap::nodes`, collected: each node once.
#[verifier::external_body]
pub(crate) fn graph_nodes_vec(g: &GraphMap<(i32, i32), (), Directed, RandomState>) -> (r: Vec<(i32, i32)>)
    ensures
        r@.no_duplicates(),
        r@.to_set() == graph_nodes(*g),
{
    g.nodes().collect()
}

/// `GraphMap::all_edges`, collected as pairs of nodes: each edge once.
#[verifier::external_body]
pub(crate) fn graph_edges_vec(g: &GraphMap<(i32, i32), (), Directed, RandomState>) -> (r: Vec<((i32, i32), (i32, i32))>)
    ensures
        r@.no_duplicates(),
        r@.to_set() == graph_edges(*g),
{
    g.all_edges().map(|e| (e.0, e.1)).collect()
}

/// `GraphMap::neighbors_directed`, collected: each node reached from `a`
/// along one edge in direction `dir`, once.
#[verifier::external_body]
pub(crate) fn graph_neighbors(g: &GraphMap<(i32, i32), (), Directed, RandomState>, a: (i32, i32), dir: EdgeDir) -> (r: Vec<(i32, i32)>)
    ensures
        r@.no_duplicates(),
        r@.to_set() == neighbors_spec(graph_edges(*g), a, dir),
{
    match dir {
        EdgeDir::Outgoing => g.neighbors_directed(a, petgraph::Direction::Outgoing).collect(),
        EdgeDir::Incoming => g.neighbors_directed(a, petgraph::Direction::Incoming).collect(),
    }
}

/// `GraphMap::clone`: a graph with the same nodes and edges.
#[verifier::external_body]
pub(crate) fn graph_clone(g: &GraphMap<(i32, i32), (), Directed, RandomState>) -> (r: GraphMap<(i32, i32), (), Directed, RandomState>)
    ensures
        graph_nodes(r) == graph_nodes(*g),
        graph_edges(r) == graph_edges(*g),
{
    g.clone()
}

/// `GraphMap::node_count`: how many nodes there are.
#[verifier::external_body]
pub(crate) fn graph_node_count(g: &GraphMap<(i32, i32), (), Directed, RandomState>) -> (r: usize)
    ensures
        r == graph_nodes(*g).len(),
{
    g.node_count()
}

} // verus!
