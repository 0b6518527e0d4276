//! The syntax tree that a flowchart is drawn from.

use std::ops::Range;
use std::rc::Rc;
use vstd::prelude::*;

verus! {

/// A statement with its labels and its place in the source text.
#[derive(Debug)]
pub struct Ast {
    pub label: Option<Vec<String>>,
    pub node: AstNode,
    pub range: Range<usize>,
}

/// A statement.
#[derive(Debug)]
pub enum AstNode {
    /// A placeholder; no finished tree holds one.
    Dummy,
    Compound(Vec<Rc<Ast>>),
    Stat(String),
    Continue(String),
    Break(String),
    Return(String),
    If { cond: String, body: Rc<Ast>, otherwise: Option<Rc<Ast>> },
    While { cond: String, body: Rc<Ast> },
    DoWhile { cond: String, body: Rc<Ast> },
    For { init: String, cond: String, upd: String, body: Rc<Ast> },
    /// `cases` names the case labels that occur in `body`; `default` is one of them if there
    /// is such a label.
    Switch { cond: String, body: Rc<Ast>, cases: Vec<String> },
    Goto(String),
}

impl Ast {
    /// The labels of the statement.
    pub open spec fn labels(self) -> Seq<Seq<char>> {
        match self.label {
            Some(names) => texts(names@),
            None => Seq::empty(),
        }
    }
}

/// The strings as sequences of characters.
pub open spec fn texts(strings: Seq<String>) -> Seq<Seq<char>> {
    strings.map_values(|s: String| s@)
}

} // verus!
