//! The graph of resolved packages.
//!
//! The graph is a `DiGraphMap` of the `petgraph` crate whose nodes are numbers. Two names stand
//! for what a graph holds: [`graph_nodes`] and [`graph_edges`].

use petgraph::graphmap::{DiGraphMap, GraphMap};
use petgraph::Directed;
use std::hash::BuildHasher;
use vstd::prelude::*;

verus! {

/// `petgraph::Directed`, the marker of a graph with directed edges.
#[verifier::external_type_specification]
#[verifier::external_body]
pub struct ExDirected(Directed);

/// `petgraph::graphmap::GraphMap`, the type behind `DiGraphMap`.
#[verifier::external_type_specification]
#[verifier::external_body]
#[verifier::reject_recursive_types(N)]
#[verifier::reject_recursive_types(E)]
#[verifier::reject_recursive_types(Ty)]
#[verifier::reject_recursive_types(S)]
pub struct ExGraphMap<N, E, Ty, S>(GraphMap<N, E, Ty, S>) where S: BuildHasher;

/// The nodes of a graph, each once, in the order in which the graph walks them.
pub uninterp spec fn graph_nodes(graph: DiGraphMap<usize, ()>) -> Seq<usize>;

/// The edges of a graph.
pub uninterp spec fn graph_edges(graph: DiGraphMap<usize, ()>) -> Set<(usize, usize)>;

/// The nodes `nodes` once `node` has been added: a node that is there already stays where it is.
pub open spec fn with_node<A>(nodes: Seq<A>, node: A) -> Seq<A> {
    if nodes.contains(node) {
        nodes
    } else {
        nodes.push(node)
    }
}

/// Calls `DiGraphMap::new`: the new graph has neither nodes nor edges.
#[verifier::external_body]
pub(crate) fn new_graph() -> (graph: DiGraphMap<usize, ()>)
    ensures
        graph_nodes(graph) == Seq::<usize>::empty(),
        graph_edges(graph) == Set::<(usize, usize)>::empty(),
{
    DiGraphMap::new()
}

/// Calls `DiGraphMap::add_node`: the node is added behind the others unless it is there already,
/// and the edges stay as they are.
#[verifier::external_body]
pub(crate) fn add_node(graph: &mut DiGraphMap<usize, ()>, node: usize)
    ensures
        graph_nodes(*final(graph)) == with_node(graph_nodes(*old(graph)), node),
        graph_edges(*final(graph)) == graph_edges(*old(graph)),
{
    graph.add_node(node);
}

/// Calls `DiGraphMap::add_edge`: the edge from `from` to `to` is in the graph afterwards, and of
/// its two ends those that were missing have become nodes, `from` before `to`.
#[verifier::external_body]
pub(crate) fn add_edge(graph: &mut DiGraphMap<usize, ()>, from: usize, to: usize)
    ensures
        graph_nodes(*final(graph)) == with_node(with_node(graph_nodes(*old(graph)), from), to),
        graph_edges(*final(graph)) == graph_edges(*old(graph)).insert((from, to)),
{
    graph.add_edge(from, to, ());
}

/// Calls `DiGraphMap::nodes` and collects what it yields: the nodes, in the order in which the graph
/// walks them.
#[verifier::external_body]
pub(crate) fn nodes(graph: &DiGraphMap<usize, ()>) -> (nodes: Vec<usize>)
    ensures
        nodes@ == graph_nodes(*graph),
{
    graph.nodes().collect()
}

} // verus!
