//! The graph store: `petgraph`'s stable graph and what its operations do.

use crate::model::{Arrow, GraphView};
use crate::node::{EdgeType, GraphNodeType, NodeLabel};
use itertools::Itertools;
use petgraph::stable_graph::{NodeIndex, StableDiGraph, StableGraph};
use petgraph::visit::{EdgeRef, IntoNodeReferences};
use petgraph::{Directed, EdgeDirection};
use vstd::prelude::*;

verus! {

/// `petgraph`'s graph with stable indices.
#[verifier::external_type_specification]
#[verifier::external_body]
#[verifier::reject_recursive_types(N)]
#[verifier::reject_recursive_types(E)]
#[verifier::reject_recursive_types(Ty)]
#[verifier::reject_recursive_types(Ix)]
pub struct ExStableGraph<N, E, Ty, Ix>(StableGraph<N, E, Ty, Ix>);

/// `petgraph`'s marker for directed graphs.
#[verifier::external_type_specification]
#[verifier::external_body]
pub struct ExDirected(Directed);

/// A flowchart.
pub type Graph = StableDiGraph<GraphNodeType, EdgeType>;

/// The node slots of a graph by index, `None` for a vacant one.
pub uninterp spec fn graph_nodes(graph: Graph) -> Seq<Option<NodeLabel>>;

/// For each node slot the edges that leave it, the most recently added first; none for a
/// vacant slot.
pub uninterp spec fn graph_out(graph: Graph) -> Seq<Seq<Arrow>>;

/// For each node slot the edges that enter it, the most recently added first; none for a
/// vacant slot.
pub uninterp spec fn graph_inc(graph: Graph) -> Seq<Seq<Arrow>>;

/// What a graph holds.
pub open spec fn graph_view(graph: Graph) -> GraphView {
    GraphView { nodes: graph_nodes(graph), out: graph_out(graph), inc: graph_inc(graph) }
}

/// Calls `StableGraph::new`: the graph has no nodes and no edges.
#[verifier::external_body]
pub(crate) fn new_graph() -> (graph: Graph)
    ensures
        graph_nodes(graph) == Seq::<Option<NodeLabel>>::empty(),
        graph_out(graph) == Seq::<Seq<Arrow>>::empty(),
        graph_inc(graph) == Seq::<Seq<Arrow>>::empty(),
{
    Graph::new()
}

/// Calls `StableGraph::clone`: the copy has the same slots, and in them copies of the weights and
/// the same lists of edges.
#[verifier::external_body]
pub(crate) fn clone_graph(graph: &Graph) -> (copy: Graph)
    ensures
        graph_view(copy) == graph_view(*graph),
{
    graph.clone()
}

/// Calls `StableGraph::add_node`: while no slot is vacant, the node gets the next index and has
/// no edges. It panics when all indices below `u32::MAX` are taken.
#[verifier::external_body]
pub(crate) fn add_node(graph: &mut Graph, weight: GraphNodeType) -> (index: u32)
    requires
        graph_view(*old(graph)).full(),
        graph_nodes(*old(graph)).len() < u32::MAX,
    ensures
        index == graph_nodes(*old(graph)).len(),
        graph_view(*final(graph)) == graph_view(*old(graph)).add_node(weight@),
{
    graph.add_node(weight).index() as u32
}

/// Calls `StableGraph::add_edge`: the edge comes first in the list of edges that leave `a` and in
/// the list of edges that enter `b`. It panics where `a` or `b` is not a node, and when there are
/// `u32::MAX` edges already.
#[verifier::external_body]
pub(crate) fn add_edge(graph: &mut Graph, a: u32, b: u32, weight: EdgeType)
    requires
        graph_view(*old(graph)).live(a as int),
        graph_view(*old(graph)).live(b as int),
        graph_view(*old(graph)).edge_count() < u32::MAX,
    ensures
        graph_view(*final(graph)) == graph_view(*old(graph)).add_edge(a as int, b as int, weight),
{
    graph.add_edge(NodeIndex::from(a), NodeIndex::from(b), weight);
}

/// Calls `StableGraph::remove_node`: a node leaves its slot vacant and takes its edges along, the
/// rest of each list keeps its order; where there is no such node nothing happens.
#[verifier::external_body]
pub(crate) fn remove_node(graph: &mut Graph, a: u32) -> (weight: Option<GraphNodeType>)
    ensures
        graph_view(*old(graph)).live(a as int) ==> {
            &&& weight matches Some(w) && graph_nodes(*old(graph))[a as int] == Some(w@)
            &&& graph_view(*final(graph)) == graph_view(*old(graph)).remove_node(a as int)
        },
        !graph_view(*old(graph)).live(a as int) ==> {
            &&& weight is None
            &&& graph_view(*final(graph)) == graph_view(*old(graph))
        },
{
    graph.remove_node(NodeIndex::from(a))
}

/// Calls `StableGraph::node_indices`: the indices of all nodes in ascending order.
#[verifier::external_body]
pub(crate) fn node_indices(graph: &Graph) -> (indices: Vec<u32>)
    ensures
        forall|j: int|
            0 <= j < indices@.len() ==> graph_view(*graph).live(#[trigger] indices@[j] as int),
        forall|j: int, k: int| 0 <= j < k < indices@.len() ==> indices@[j] < indices@[k],
        forall|i: int| #[trigger]
            graph_view(*graph).live(i) ==> exists|j: int|
                0 <= j < indices@.len() && #[trigger] indices@[j] == i,
{
    graph.node_indices().map(|index| index.index() as u32).collect_vec()
}

/// Calls `StableGraph::node_weight`: the weight of a node, or `None` where there is no such node.
#[verifier::external_body]
pub(crate) fn node_weight(graph: &Graph, a: u32) -> (weight: Option<&GraphNodeType>)
    ensures
        match weight {
            Some(w) => graph_view(*graph).live(a as int) && graph_nodes(*graph)[a as int] == Some(
                w@,
            ),
            None => !graph_view(*graph).live(a as int),
        },
{
    graph.node_weight(NodeIndex::from(a))
}

/// Calls `StableGraph::node_references`: all nodes with their weights, by ascending index.
#[verifier::external_body]
pub(crate) fn node_references(graph: &Graph) -> (nodes: Vec<(u32, &GraphNodeType)>)
    ensures
        forall|j: int|
            0 <= j < nodes@.len() ==> graph_view(*graph).live((#[trigger] nodes@[j]).0 as int)
                && graph_nodes(*graph)[nodes@[j].0 as int] == Some(nodes@[j].1@),
        forall|j: int, k: int| 0 <= j < k < nodes@.len() ==> nodes@[j].0 < nodes@[k].0,
        forall|i: int| #[trigger]
            graph_view(*graph).live(i) ==> exists|j: int|
                0 <= j < nodes@.len() && (#[trigger] nodes@[j]).0 == i,
{
    graph.node_references().map(|(index, weight)| (index.index() as u32, weight)).collect_vec()
}

/// Calls `StableGraph::edges_directed` for the incoming edges: where they come from and their
/// weights, in the list's order.
#[verifier::external_body]
pub(crate) fn incoming_edges(graph: &Graph, a: u32) -> (edges: Vec<(u32, EdgeType)>)
    requires
        graph_view(*graph).live(a as int),
    ensures
        edges@.len() == graph_inc(*graph)[a as int].len(),
        forall|j: int|
            0 <= j < edges@.len() ==> #[trigger] graph_inc(*graph)[a as int][j] == (Arrow {
                node: edges@[j].0 as int,
                kind: edges@[j].1,
            }),
{
    graph.edges_directed(NodeIndex::from(a), EdgeDirection::Incoming).map(
        |edge| (edge.source().index() as u32, *edge.weight()),
    ).collect_vec()
}

/// Calls `StableGraph::neighbors_directed` for the outgoing edges: where they go, in the list's
/// order, as often as there are edges.
#[verifier::external_body]
pub(crate) fn outgoing_neighbors(graph: &Graph, a: u32) -> (neighbors: Vec<u32>)
    requires
        graph_view(*graph).live(a as int),
    ensures
        neighbors@.len() == graph_out(*graph)[a as int].len(),
        forall|j: int|
            0 <= j < neighbors@.len() ==> (#[trigger] graph_out(*graph)[a as int][j]).node
                == neighbors@[j],
{
    graph.neighbors_directed(NodeIndex::from(a), EdgeDirection::Outgoing).map(
        |index| index.index() as u32,
    ).collect_vec()
}

} // verus!
