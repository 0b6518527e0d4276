//! What can go wrong.

use crate::flow::Fault;
use crate::model::GraphView;
use crate::store::{graph_view, Graph};
use std::ops::Range;
use vstd::prelude::*;

verus! {

/// Why a tree has no flowchart.
#[derive(Debug)]
pub enum Error {
    /// A placeholder stands where a statement should.
    UnexpectedDummyAstNode { file_name: String, source: String, range: Range<usize> },
    /// `continue` outside of a loop.
    UnexpectedContinue { file_name: String, source: String, range: Range<usize> },
    /// `break` outside of a loop or switch.
    UnexpectedBreak { file_name: String, source: String, range: Range<usize> },
    /// A node that has to be taken out does not lead to exactly one other node.
    UnexpectedOutgoingEdges { node_index: u32, neighbors: Vec<u32>, graph: Graph },
}

impl Error {
    /// Whether the error tells of a fault in the tree.
    pub open spec fn tells_fault(self, fault: Fault, text: Seq<char>, name: Seq<char>) -> bool {
        match self {
            Error::UnexpectedDummyAstNode { file_name, source, range } => fault
                == Fault::DummyNode(range) && source@ == text && file_name@ == name,
            Error::UnexpectedContinue { file_name, source, range } => fault == Fault::Continue(
                range,
            ) && source@ == text && file_name@ == name,
            Error::UnexpectedBreak { file_name, source, range } => fault == Fault::Break(range)
                && source@ == text && file_name@ == name,
            Error::UnexpectedOutgoingEdges { .. } => false,
        }
    }

    /// Whether the error tells that node `d` of a graph cannot be taken out.
    pub open spec fn tells_stuck(self, d: int, stuck: GraphView) -> bool {
        match self {
            Error::UnexpectedOutgoingEdges { node_index, neighbors, graph } => {
                &&& node_index == d
                &&& neighbors@.map_values(|v: u32| v as int) == stuck.successors(d)
                &&& graph_view(graph) == stuck
            },
            _ => false,
        }
    }
}

} // verus!
