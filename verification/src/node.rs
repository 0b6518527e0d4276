//! What a flowchart is made of: the nodes' weights and the edges' weights.

use vstd::prelude::*;

verus! {

/// The weight of a node.
#[derive(Debug, PartialEq)]
pub enum GraphNodeType {
    /// A joint that only carries edges while the chart is being drawn.
    Dummy,
    /// Where the program starts.
    Begin,
    /// Where the program stops.
    End,
    /// A statement.
    Node(String),
    /// A condition, with one edge per answer.
    Choice(String),
}

/// The weight of an edge.
#[derive(Debug, Clone, Copy)]
pub enum EdgeType {
    /// Control simply moves on.
    Normal,
    /// Control moves on when the condition has this value.
    Branch(bool),
}

/// A [`GraphNodeType`] with its text as a sequence of characters.
pub enum NodeLabel {
    Dummy,
    Begin,
    End,
    Node(Seq<char>),
    Choice(Seq<char>),
}

impl View for GraphNodeType {
    type V = NodeLabel;

    open spec fn view(&self) -> NodeLabel {
        match *self {
            GraphNodeType::Dummy => NodeLabel::Dummy,
            GraphNodeType::Begin => NodeLabel::Begin,
            GraphNodeType::End => NodeLabel::End,
            GraphNodeType::Node(text) => NodeLabel::Node(text@),
            GraphNodeType::Choice(text) => NodeLabel::Choice(text@),
        }
    }
}

impl Clone for GraphNodeType {
    fn clone(&self) -> (copy: Self)
        ensures
            copy@ == self@,
    {
        match self {
            GraphNodeType::Dummy => GraphNodeType::Dummy,
            GraphNodeType::Begin => GraphNodeType::Begin,
            GraphNodeType::End => GraphNodeType::End,
            GraphNodeType::Node(text) => GraphNodeType::Node(text.clone()),
            GraphNodeType::Choice(text) => GraphNodeType::Choice(text.clone()),
        }
    }
}

} // verus!
