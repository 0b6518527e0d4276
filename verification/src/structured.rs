//! Programs without `goto`, whose case labels mark one statement each, have a flowchart.

use crate::ast::{texts, Ast, AstNode};
use crate::branches::pruning_makes_chains;
use crate::counting::{complete_flowcharts_add_up, conditions, statements};
use crate::flow::{blank, draft, lookup, outermost};
use crate::graph::flowchart;
use crate::growth::{lemma_blank, lemma_build};
use crate::laws::{complete, flowchart_is_complete, passing};
use crate::limits::{drawing_stops_at_first_fault, fault_of};
use crate::node::NodeLabel;
use crate::ranks::{height, labels_ready, rank_build};
use crate::strays::outer_joints_are_orphans;
use crate::tidy::{live_count, prune};
use std::rc::Rc;
use vstd::prelude::*;

verus! {

/// How often a name occurs among the first `k` names.
pub open spec fn occurrences(names: Seq<Seq<char>>, k: nat, name: Seq<char>) -> nat
    decreases k,
{
    if k == 0 {
        0
    } else {
        occurrences(names, (k - 1) as nat, name) + if names[k - 1] == name {
            1nat
        } else {
            0nat
        }
    }
}

/// How many statements bear a label, but for those inside of a switch that has a case of that
/// name.
pub open spec fn marks(ast: &Ast, name: Seq<char>) -> nat
    decreases ast, 1nat,
{
    occurrences(ast.labels(), ast.labels().len(), name) + marks_inside(ast, name)
}

/// As [`marks`], without the statement itself.
pub open spec fn marks_inside(ast: &Ast, name: Seq<char>) -> nat
    decreases ast, 0nat,
{
    match &ast.node {
        AstNode::Compound(v) => chain_marks(v@, v@.len(), name),
        AstNode::If { cond, body, otherwise } => marks(&**body, name) + match otherwise {
            Some(t) => marks(&**t, name),
            None => 0,
        },
        AstNode::While { cond, body } => marks(&**body, name),
        AstNode::DoWhile { cond, body } => marks(&**body, name),
        AstNode::For { init, cond, upd, body } => marks(&**body, name),
        AstNode::Switch { cond, body, cases } => if texts(cases@).contains(name) {
            0
        } else {
            marks(&**body, name)
        },
        _ => 0,
    }
}

/// How many of the first `k` statements of a block, and of those in them, bear a label.
pub open spec fn chain_marks(v: Seq<Rc<Ast>>, k: nat, name: Seq<char>) -> nat
    decreases v, k,
{
    if k == 0 || k > v.len() {
        0
    } else {
        chain_marks(v, (k - 1) as nat, name) + marks(&*v[k - 1], name)
    }
}

/// Whether a tree is made without `goto`, and the cases of each of its switches differ and mark one
/// statement of its body each. Other labels do not matter.
pub open spec fn structured(ast: &Ast) -> bool
    decreases ast, 0nat,
{
    match &ast.node {
        AstNode::Compound(v) => structured_chain(v@, v@.len()),
        AstNode::If { cond, body, otherwise } => structured(&**body) && match otherwise {
            Some(t) => structured(&**t),
            None => true,
        },
        AstNode::While { cond, body } => structured(&**body),
        AstNode::DoWhile { cond, body } => structured(&**body),
        AstNode::For { init, cond, upd, body } => structured(&**body),
        AstNode::Switch { cond, body, cases } => {
            let names = texts(cases@);
            &&& names.no_duplicates()
            &&& forall|j: int| 0 <= j < names.len() ==> marks(&**body, #[trigger] names[j]) == 1
            &&& structured(&**body)
        },
        AstNode::Goto(_) => false,
        _ => true,
    }
}

/// Whether the first `k` statements of a block are so made.
pub open spec fn structured_chain(v: Seq<Rc<Ast>>, k: nat) -> bool
    decreases v, k,
{
    k == 0 || k > v.len() || (structured_chain(v, (k - 1) as nat) && structured(&*v[k - 1]))
}

/// A tree that is made without `goto`, whose switches have different cases that mark one statement
/// each, has a flowchart exactly if it has no fault, whatever other labels its statements bear. In
/// the flowchart one edge leaves each statement and `Begin`, one per answer leaves each condition,
/// and none leaves `End`; and it has as many nodes and edges as these make.
pub proof fn structured_trees_have_flowcharts(ast: &Ast)
    requires
        structured(ast),
    ensures
        flowchart(ast) is Ok <==> fault_of(ast, false, false) is None,
        flowchart(ast) matches Ok(chart) ==> {
            &&& forall|u: int| #[trigger] chart.live(u) ==> complete(chart, u)
            &&& live_count(chart.nodes) == 2 + statements(chart.nodes) + conditions(chart.nodes)
            &&& chart.edge_count() == 1 + statements(chart.nodes) + 2 * conditions(chart.nodes)
        },
{
    drawing_stops_at_first_fault(ast, outermost(), blank());
    if draft(ast).fault is None {
        let rank = lemma_draft_chains(ast);
        flowchart_is_complete(ast, rank, 0);
        let chart = flowchart(ast)->Ok_0;
        assert forall|u: int| #[trigger] chart.live(u) implies complete(chart, u) by {
            flowchart_is_complete(ast, rank, u);
        }
        complete_flowcharts_add_up(ast);
    }
}

/// The joints and the statements without text of such a tree's draft form chains once the joints
/// that no edge enters are gone.
proof fn lemma_draft_chains(ast: &Ast) -> (rank: spec_fn(int) -> nat)
    requires
        structured(ast),
        draft(ast).fault is None,
    ensures
        prune(draft(ast).net.graph).chained(|i: int, label: NodeLabel| passing(label), rank),
{
    let high = height(ast);
    let zero = |i: int| 0nat;
    let all = |i: int, label: NodeLabel| passing(label);
    let drawn = draft(ast).net.graph;
    lemma_blank();
    lemma_build(ast, outermost(), blank());
    assert forall|name: Seq<char>| #[trigger] lookup(blank().scopes, name) is None by {
        assert(blank().scopes.drop_last() =~= Seq::empty());
        assert(lookup(blank().scopes.drop_last(), name) is None);
    }
    assert(labels_ready(blank(), 0, zero, high));
    let rank = rank_build(ast, outermost(), blank(), zero, 0, high);
    assert forall|i: int| #[trigger] drawn.picked(all, i) && !drawn.orphan(i) implies {
        &&& drawn.out[i].len() == 1
        &&& drawn.picked(all, drawn.out[i][0].node) ==> rank(drawn.out[i][0].node) < rank(i)
    } by {
        assert(drawn.nodes[0] == blank().graph.nodes[0]);
        assert(drawn.nodes[1] == blank().graph.nodes[1]);
        if draft(ast).net.outer(i) {
            outer_joints_are_orphans(ast, i);
        }
        assert(drawn.descends(rank, i));
    }
    pruning_makes_chains(drawn, all, rank);
    rank
}

} // verus!
