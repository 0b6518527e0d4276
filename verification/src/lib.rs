//! Flowcharts of structured programs, drawn as directed graphs.
//!
//! [`from_ast`] turns a syntax tree into a graph whose nodes are the program's statements and
//! conditions. It first draws every statement between two joints, which makes jumps easy to
//! place, and then takes the joints out again.
//!
//! * [`ast`], [`node`] and [`error`] hold the types; [`store`] and [`scopes`] hold the two outside
//!   collections, a stable graph and a chain of maps, and say what their operations do.
//! * [`model`], [`flow`] and [`tidy`] say what a graph is, what the draft of a tree is, and what
//!   taking the joints out of it comes to; [`graph`] puts these together.
//! * [`laws`] says what holds of every flowchart, on the grounds of [`growth`], [`degrees`],
//!   [`paths`] and [`branches`]; and [`limits`] which trees can be handled.
//! * [`additions`], [`entries`] and [`widening`] say what drawing a statement adds to a draft: the
//!   edges that start and end at older nodes, and the labels. [`wording`] says which texts a
//!   flowchart shows, [`counting`] how many nodes and edges it has.
//! * [`meaning`] says what it is for control to move as the statements of a tree say, and that it
//!   does in every draft; [`faithful`] that it does in every flowchart; [`places`] what that comes
//!   to for a statement anywhere in a tree. [`arrivals`] and [`bearers`] count the edges that a
//!   statement adds, [`faults`] says which trees have a fault.
//! * [`structured`] says which trees are sure to have a flowchart that loses no edge, on the
//!   grounds of [`ranks`] and [`strays`]; [`plain`] that those without jumps and switches come to
//!   an end, on the grounds of [`descent`]; and [`regrouping`] that a block in a block changes only
//!   the numbers of the nodes, where both trees have a flowchart, on the grounds of [`twins`] and
//!   [`nesting`].

pub mod additions;
pub mod arrivals;
pub mod ast;
pub mod bearers;
pub mod branches;
mod cases;
pub mod counting;
pub mod degrees;
pub mod descent;
mod draw;
pub mod entries;
pub mod error;
pub mod faithful;
pub mod faults;
pub mod flow;
pub mod graph;
pub mod growth;
pub mod laws;
pub mod limits;
pub mod meaning;
pub mod model;
pub mod nesting;
pub mod node;
pub mod paths;
pub mod places;
pub mod plain;
pub mod ranks;
pub mod regrouping;
pub mod scopes;
mod simplify;
pub mod store;
pub mod strays;
pub mod structured;
pub mod tidy;
pub mod twins;
pub mod widening;
pub mod wording;

pub use ast::{Ast, AstNode};
pub use error::Error;
pub use graph::from_ast;
pub use limits::is_drawable;
pub use node::{EdgeType, GraphNodeType};
pub use store::Graph;
