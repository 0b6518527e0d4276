//! From a syntax tree to its flowchart.

use crate::ast::Ast;
use crate::draw::{build_graph, GraphContext};
use crate::error::Error;
use crate::flow::{blank, draft, outermost, Fault};
use crate::growth::{lemma_blank, lemma_build};
use crate::laws::{
    contracting_removes_picked, contracting_stops_at_first_picked, pruning_removes_orphans,
};
use crate::limits::{drawing_stops_at_first_fault, fault_of};
use crate::model::GraphView;
use crate::node::{GraphNodeType, NodeLabel};
use crate::simplify::{remove_orphans, take_out};
use crate::store::{graph_view, Graph};
use crate::tidy::{contract, contract_fits, prune, Stuck};
use std::rc::Rc;
use vstd::prelude::*;

verus! {

/// Whether a node is a joint.
pub open spec fn joints() -> spec_fn(int, NodeLabel) -> bool {
    |i: int, label: NodeLabel| label is Dummy
}

/// Whether a node is a statement without text.
pub open spec fn blanks() -> spec_fn(int, NodeLabel) -> bool {
    |i: int, label: NodeLabel| label matches NodeLabel::Node(text) && text.len() == 0
}

/// Why a tree has no flowchart.
pub enum Failure {
    /// The tree cannot be drawn.
    Fault(Fault),
    /// What was drawn cannot be tidied up.
    Stuck(Stuck),
}

/// The flowchart of a tree: its draft, from which the joints without an incoming edge are removed
/// and then all joints and all statements without text are taken out.
pub open spec fn flowchart(ast: &Ast) -> Result<GraphView, Failure> {
    match draft(ast).fault {
        Some(fault) => Err(Failure::Fault(fault)),
        None => match contract(prune(draft(ast).net.graph), joints()) {
            Err(stuck) => Err(Failure::Stuck(stuck)),
            Ok(graph) => match contract(graph, blanks()) {
                Err(stuck) => Err(Failure::Stuck(stuck)),
                Ok(graph) => Ok(graph),
            },
        },
    }
}

/// Whether a tree can be handled: no switch without a case to test comes before the first fault,
/// and the store has room for the nodes and edges on the way.
pub open spec fn drawable(ast: &Ast) -> bool {
    let drawn = draft(ast);
    &&& !(drawn.fault matches Some(Fault::NoCase))
    &&& drawn.net.fits()
    &&& drawn.fault is None ==> {
        &&& contract_fits(prune(drawn.net.graph), joints())
        &&& contract(prune(drawn.net.graph), joints()) matches Ok(graph) ==> contract_fits(
            graph,
            blanks(),
        )
    }
}

fn is_joint(_index: u32, weight: &GraphNodeType) -> (holds: bool)
    ensures
        holds == joints()(_index as int, weight@),
{
    match weight {
        GraphNodeType::Dummy => true,
        _ => false,
    }
}

fn is_blank(_index: u32, weight: &GraphNodeType) -> (holds: bool)
    ensures
        holds == blanks()(_index as int, weight@),
{
    match weight {
        GraphNodeType::Node(text) => text.as_str().is_empty(),
        _ => false,
    }
}

/// Where a drawn tree cannot be tidied up, that is because of a joint or a statement without text
/// that does not have exactly one edge that leaves it.
proof fn lemma_stuck(ast: &Ast)
    ensures
        flowchart(ast) matches Err(Failure::Stuck(stuck)) ==> {
            &&& stuck.graph.live(stuck.node)
            &&& match stuck.graph.nodes[stuck.node]->0 {
                NodeLabel::Dummy => true,
                NodeLabel::Node(text) => text.len() == 0,
                _ => false,
            }
            &&& stuck.graph.out[stuck.node].len() != 1
        },
{
    lemma_blank();
    lemma_build(ast, outermost(), blank());
    let pruned = prune(draft(ast).net.graph);
    pruning_removes_orphans(draft(ast).net.graph);
    contracting_stops_at_first_picked(pruned, joints());
    contracting_removes_picked(pruned, joints());
    if let Ok(graph) = contract(pruned, joints()) {
        contracting_stops_at_first_picked(graph, blanks());
    }
}

/// What an error about a node says of the node's neighbors.
proof fn lemma_neighbors(error: Error, d: int, stuck: GraphView)
    requires
        error.tells_stuck(d, stuck),
    ensures
        error matches Error::UnexpectedOutgoingEdges { node_index, neighbors, graph } && {
            &&& node_index == d
            &&& graph_view(graph) == stuck
            &&& neighbors@.len() == stuck.out[d].len()
            &&& forall|j: int|
                0 <= j < neighbors@.len() ==> #[trigger] neighbors@[j] == stuck.out[d][j].node
        },
{
    if let Error::UnexpectedOutgoingEdges { node_index, neighbors, graph } = error {
        let mapped = neighbors@.map_values(|v: u32| v as int);
        let arrows = stuck.successors(d);
        assert(mapped.len() == arrows.len());
        assert forall|j: int| 0 <= j < neighbors@.len() implies #[trigger] neighbors@[j]
            == stuck.out[d][j].node by {
            assert(mapped[j] == neighbors@[j] as int);
            assert(arrows[j] == stuck.out[d][j].node);
        }
    }
}

/// Draws the flowchart of a tree.
///
/// `source` is the text that the tree was read from and `file_name` the name of its file; errors
/// quote them. An error about a statement tells the first fault of the tree, one about a node tells
/// all nodes that it leads to, and that these are not just one.
pub fn from_ast(ast: Rc<Ast>, source: &str, file_name: &str) -> (result: Result<Graph, Error>)
    requires
        drawable(&*ast),
    ensures
        match flowchart(&*ast) {
            Ok(chart) => result matches Ok(graph) && graph_view(graph) == chart,
            Err(Failure::Fault(fault)) => result matches Err(error) && error.tells_fault(
                fault,
                source@,
                file_name@,
            ),
            Err(Failure::Stuck(stuck)) => result matches Err(error) && error.tells_stuck(
                stuck.node,
                stuck.graph,
            ),
        },
        match result {
            Ok(_) => fault_of(&*ast, false, false) is None,
            Err(Error::UnexpectedDummyAstNode { file_name: name, source: text, range }) => {
                &&& name@ == file_name@ && text@ == source@
                &&& fault_of(&*ast, false, false) == Some(Fault::DummyNode(range))
            },
            Err(Error::UnexpectedContinue { file_name: name, source: text, range }) => {
                &&& name@ == file_name@ && text@ == source@
                &&& fault_of(&*ast, false, false) == Some(Fault::Continue(range))
            },
            Err(Error::UnexpectedBreak { file_name: name, source: text, range }) => {
                &&& name@ == file_name@ && text@ == source@
                &&& fault_of(&*ast, false, false) == Some(Fault::Break(range))
            },
            Err(Error::UnexpectedOutgoingEdges { node_index, neighbors, graph }) => {
                let left = graph_view(graph);
                &&& fault_of(&*ast, false, false) is None
                &&& left.live(node_index as int)
                &&& match left.nodes[node_index as int]->0 {
                    NodeLabel::Dummy => true,
                    NodeLabel::Node(text) => text.len() == 0,
                    _ => false,
                }
                &&& neighbors@.len() != 1
                &&& neighbors@.len() == left.out[node_index as int].len()
                &&& forall|j: int|
                    0 <= j < neighbors@.len() ==> #[trigger] neighbors@[j]
                        == left.out[node_index as int][j].node
            },
        },
{
    proof {
        drawing_stops_at_first_fault(&*ast, outermost(), blank());
        lemma_stuck(&*ast);
    }
    let mut context = GraphContext::new();
    proof {
        lemma_blank();
        lemma_build(&*ast, context.frame(), context.net());
    }
    match build_graph(&ast, &mut context, source, file_name) {
        Ok(()) => {},
        Err(error) => {
            return Err(error);
        },
    }
    let mut graph = context.graph;
    remove_orphans(&mut graph);
    match take_out(&mut graph, is_joint, Ghost(joints())) {
        Ok(()) => {},
        Err(error) => {
            proof {
                let stuck = flowchart(&*ast)->Err_0->Stuck_0;
                lemma_neighbors(error, stuck.node, stuck.graph);
            }
            return Err(error);
        },
    }
    match take_out(&mut graph, is_blank, Ghost(blanks())) {
        Ok(()) => {},
        Err(error) => {
            proof {
                let stuck = flowchart(&*ast)->Err_0->Stuck_0;
                lemma_neighbors(error, stuck.node, stuck.graph);
            }
            return Err(error);
        },
    }
    Ok(graph)
}

} // verus!
