//! Which trees can be handled, told from the tree alone.

use crate::ast::{texts, Ast, AstNode};
use crate::branches::{lemma_contract_fits, lemma_prune_edges};
use crate::cases::tested_cases;
use crate::draw::range_of;
use crate::flow::{
    blank, build, build_block, build_chain, build_node, build_switch, draft, outermost, tested,
    Fault, Frame, Net,
};
use crate::graph::{blanks, drawable, joints};
use crate::growth::{
    lemma_bind, lemma_blank, lemma_build, lemma_build_chain, lemma_edge, lemma_grows_numbers,
    lemma_joints, lemma_jump, lemma_labelled, lemma_node, lemma_open_block, lemma_open_do_while,
    lemma_open_else, lemma_open_for, lemma_open_if, lemma_open_switch, lemma_open_while, lemma_step,
};
use crate::laws::{contracting_removes_picked, pruning_removes_orphans};
use crate::node::{EdgeType, NodeLabel};
use crate::tidy::{contract, prune};
use std::rc::Rc;
use vstd::prelude::*;

verus! {

/// The first fault of a statement, in the order of the text: a placeholder, a `break` or
/// `continue` that has nowhere to go, or a switch without a case to test.
pub open spec fn fault_of(ast: &Ast, can_break: bool, can_continue: bool) -> Option<Fault>
    decreases ast, 0nat,
{
    match &ast.node {
        AstNode::Dummy => Some(Fault::DummyNode(ast.range)),
        AstNode::Compound(v) => chain_fault(v@, v@.len(), can_break, can_continue),
        AstNode::Stat(_) => None,
        AstNode::Continue(_) => if can_continue {
            None
        } else {
            Some(Fault::Continue(ast.range))
        },
        AstNode::Break(_) => if can_break {
            None
        } else {
            Some(Fault::Break(ast.range))
        },
        AstNode::Return(_) => None,
        AstNode::If { cond, body, otherwise } => match fault_of(&**body, can_break, can_continue) {
            Some(fault) => Some(fault),
            None => match otherwise {
                Some(t) => fault_of(&**t, can_break, can_continue),
                None => None,
            },
        },
        AstNode::While { cond, body } => fault_of(&**body, true, true),
        AstNode::DoWhile { cond, body } => fault_of(&**body, true, true),
        AstNode::For { init, cond, upd, body } => fault_of(&**body, true, true),
        AstNode::Switch { cond, body, cases } => if tested(texts(cases@)).len() == 0 {
            Some(Fault::NoCase)
        } else {
            fault_of(&**body, true, false)
        },
        AstNode::Goto(_) => None,
    }
}

/// The first fault of the first `k` statements of a block.
pub open spec fn chain_fault(
    v: Seq<Rc<Ast>>,
    k: nat,
    can_break: bool,
    can_continue: bool,
) -> Option<Fault>
    decreases v, k,
{
    if k == 0 || k > v.len() {
        None
    } else {
        match chain_fault(v, (k - 1) as nat, can_break, can_continue) {
            Some(fault) => Some(fault),
            None => fault_of(&*v[k - 1], can_break, can_continue),
        }
    }
}

/// Whether and why drawing stops can be told from the tree: it is the first fault. Where it stops,
/// it does so in the frame of some statement.
pub proof fn drawing_stops_at_first_fault(ast: &Ast, frame: Frame, net: Net)
    ensures
        build(ast, frame, net).fault == fault_of(
            ast,
            frame.break_target is Some,
            frame.continue_target is Some,
        ),
        build(ast, frame, net).stop is Some <==> build(ast, frame, net).fault is Some,
    decreases ast, 0nat,
{
    let n = net.labelled(ast.labels(), ast.labels().len(), frame.source);
    let c = n.next();
    assert(build(ast, frame, net) == build_node(ast, frame, n));
    match &ast.node {
        AstNode::Compound(v) => {
            assert(build_node(ast, frame, n) == build_block(v@, frame, n));
            lemma_chain_fault(v@, v@.len(), frame, n.open_block(frame), c);
        },
        AstNode::If { cond, body, otherwise } => {
            let inner = frame.between(c + 1, c + 2);
            let opened = n.open_if(frame, cond@);
            drawing_stops_at_first_fault(&**body, inner, opened);
            let first = build(&**body, inner, opened);
            match otherwise {
                Some(t) => {
                    drawing_stops_at_first_fault(
                        &**t,
                        frame.between(first.net.next(), c + 2),
                        first.net.open_else(c),
                    );
                },
                None => {},
            }
        },
        AstNode::While { cond, body } => {
            drawing_stops_at_first_fault(
                &**body,
                frame.looping(c + 1, c + 2, c),
                n.open_while(frame, cond@),
            );
        },
        AstNode::DoWhile { cond, body } => {
            drawing_stops_at_first_fault(
                &**body,
                frame.looping(c, c + 1, c + 2),
                n.open_do_while(frame, cond@),
            );
        },
        AstNode::For { init, cond, upd, body } => {
            drawing_stops_at_first_fault(
                &**body,
                frame.looping(c, c + 1, c + 4),
                n.open_for(frame, init@, cond@, upd@),
            );
        },
        AstNode::Switch { cond, body, cases } => {
            let opened = n.open_switch(frame, cond@, texts(cases@));
            let d = opened.next() - 2;
            assert(build_node(ast, frame, n) == build_switch(cond@, *body, texts(cases@), frame, n));
            drawing_stops_at_first_fault(&**body, frame.switching(d, d + 1), opened);
        },
        _ => {},
    }
}

proof fn lemma_chain_fault(v: Seq<Rc<Ast>>, k: nat, frame: Frame, net: Net, c: int)
    ensures
        build_chain(v, k, frame, net, c).built.fault == chain_fault(
            v,
            k,
            frame.break_target is Some,
            frame.continue_target is Some,
        ),
        build_chain(v, k, frame, net, c).built.stop is Some <==> build_chain(
            v,
            k,
            frame,
            net,
            c,
        ).built.fault is Some,
    decreases v, k,
{
    if k > 0 && k <= v.len() {
        lemma_chain_fault(v, (k - 1) as nat, frame, net, c);
        let before = build_chain(v, (k - 1) as nat, frame, net, c);
        if before.built.fault is None {
            drawing_stops_at_first_fault(
                &*v[k - 1],
                frame.between(before.source, before.sink),
                before.built.net,
            );
        }
    }
}

/// The first fault of a statement, in the order of the text.
pub fn first_fault(ast: &Ast, can_break: bool, can_continue: bool) -> (fault: Option<Fault>)
    ensures
        fault == fault_of(ast, can_break, can_continue),
    decreases ast, 0nat,
{
    match &ast.node {
        AstNode::Dummy => Some(Fault::DummyNode(range_of(ast))),
        AstNode::Compound(v) => {
            let mut k: usize = 0;
            while k < v.len()
                invariant
                    k <= v@.len(),
                    chain_fault(v@, k as nat, can_break, can_continue) is None,
                    ast.node == AstNode::Compound(*v),
                decreases v.len() - k,
            {
                let fault = first_fault(&v[k], can_break, can_continue);
                proof {
                    lemma_chain_fault_stays(
                        v@,
                        (k + 1) as nat,
                        v@.len(),
                        can_break,
                        can_continue,
                    );
                }
                if fault.is_some() {
                    return fault;
                }
                k += 1;
            }
            None
        },
        AstNode::Stat(_) => None,
        AstNode::Continue(_) => if can_continue {
            None
        } else {
            Some(Fault::Continue(range_of(ast)))
        },
        AstNode::Break(_) => if can_break {
            None
        } else {
            Some(Fault::Break(range_of(ast)))
        },
        AstNode::Return(_) => None,
        AstNode::If { cond: _, body, otherwise } => {
            let fault = first_fault(body, can_break, can_continue);
            if fault.is_some() {
                return fault;
            }
            match otherwise {
                Some(t) => first_fault(t, can_break, can_continue),
                None => None,
            }
        },
        AstNode::While { cond: _, body } => first_fault(body, true, true),
        AstNode::DoWhile { cond: _, body } => first_fault(body, true, true),
        AstNode::For { init: _, cond: _, upd: _, body } => first_fault(body, true, true),
        AstNode::Switch { cond: _, body, cases } => {
            let names = tested_cases(cases);
            assert(names@.len() == texts(names@).len());
            if names.len() == 0 {
                Some(Fault::NoCase)
            } else {
                first_fault(body, true, false)
            }
        },
        AstNode::Goto(_) => None,
    }
}

proof fn lemma_chain_fault_stays(
    v: Seq<Rc<Ast>>,
    k: nat,
    m: nat,
    can_break: bool,
    can_continue: bool,
)
    requires
        k <= m <= v.len(),
    ensures
        chain_fault(v, k, can_break, can_continue) is Some ==> chain_fault(
            v,
            m,
            can_break,
            can_continue,
        ) == chain_fault(v, k, can_break, can_continue),
    decreases m,
{
    if k < m {
        lemma_chain_fault_stays(v, k, (m - 1) as nat, can_break, can_continue);
    }
}

/// An upper bound on the nodes, and on the edges, that a statement adds to a chart.
pub open spec fn cost(ast: &Ast) -> nat
    decreases ast, 0nat,
{
    ast.labels().len() + match &ast.node {
        AstNode::Dummy => 0,
        AstNode::Compound(v) => 3 + chain_cost(v@, v@.len()),
        AstNode::Stat(_) => 2,
        AstNode::Continue(_) => 2,
        AstNode::Break(_) => 2,
        AstNode::Return(_) => 2,
        AstNode::If { cond, body, otherwise } => 4 + cost(&**body) + match otherwise {
            Some(t) => cost(&**t),
            None => 0,
        },
        AstNode::While { cond, body } => 4 + cost(&**body),
        AstNode::DoWhile { cond, body } => 4 + cost(&**body),
        AstNode::For { init, cond, upd, body } => 6 + cost(&**body),
        AstNode::Switch { cond, body, cases } => 2 + 2 * cases@.len() + cost(&**body),
        AstNode::Goto(_) => 1,
    }
}

/// The cost of the first `k` statements of a block.
pub open spec fn chain_cost(v: Seq<Rc<Ast>>, k: nat) -> nat
    decreases v, k,
{
    if k == 0 || k > v.len() {
        0
    } else {
        chain_cost(v, (k - 1) as nat) + cost(&*v[k - 1]) + 1
    }
}

/// Whether `later` has at most `amount` nodes and at most `amount` edges more.
pub open spec fn within_cost(net: Net, later: Net, amount: nat) -> bool {
    &&& later.next() <= net.next() + amount
    &&& later.graph.edge_count() <= net.graph.edge_count() + amount
}

proof fn lemma_labelled_cost(net: Net, names: Seq<Seq<char>>, k: nat, source: int)
    requires
        net.ok(),
        0 <= source < net.next(),
    ensures
        within_cost(net, net.labelled(names, k, source), k),
    decreases k,
{
    if k > 0 {
        let before = net.labelled(names, (k - 1) as nat, source);
        let name = names[k - 1];
        lemma_labelled_cost(net, names, (k - 1) as nat, source);
        lemma_labelled(net, names, (k - 1) as nat, source);
        lemma_grows_numbers(net, before);
        lemma_bind(before, name);
        lemma_grows_numbers(before, before.bind(name));
        lemma_edge(before.bind(name), before.joint(name), source, EdgeType::Normal);
    }
}

/// Drawing a statement adds no more nodes and no more edges than it costs.
pub proof fn drawing_stays_within_cost(ast: &Ast, frame: Frame, net: Net)
    requires
        net.ok(),
        frame.within(net),
    ensures
        within_cost(net, build(ast, frame, net).net, cost(ast)),
    decreases ast, 0nat,
{
    let labels = ast.labels();
    let n = net.labelled(labels, labels.len(), frame.source);
    let c = n.next();
    let after = build(ast, frame, net).net;
    assert(build(ast, frame, net) == build_node(ast, frame, n));
    lemma_labelled(net, labels, labels.len(), frame.source);
    lemma_labelled_cost(net, labels, labels.len(), frame.source);
    lemma_grows_numbers(net, n);
    match &ast.node {
        AstNode::Dummy => {},
        AstNode::Compound(v) => {
            assert(build_node(ast, frame, n) == build_block(v@, frame, n));
            let opened = n.open_block(frame);
            lemma_open_block(n, frame);
            lemma_chain_cost(v@, v@.len(), frame, opened, c);
            let chain = build_chain(v@, v@.len(), frame, opened, c);
            lemma_build_chain(v@, v@.len(), frame, opened, c);
            lemma_grows_numbers(opened, chain.built.net);
            lemma_edge(chain.built.net, chain.sink, frame.sink, EdgeType::Normal);
            lemma_edge(opened, c, c + 1, EdgeType::Normal);
            lemma_edge(opened.normal(c, c + 1), c + 1, frame.sink, EdgeType::Normal);
        },
        AstNode::Stat(s) => {
            lemma_step(n, frame, s@, frame.sink);
        },
        AstNode::Continue(s) => {
            lemma_enter_cost(n, frame, s@);
            if let Some(target) = frame.continue_target {
                lemma_step(n, frame, s@, target);
            }
        },
        AstNode::Break(s) => {
            lemma_enter_cost(n, frame, s@);
            if let Some(target) = frame.break_target {
                lemma_step(n, frame, s@, target);
            }
        },
        AstNode::Return(s) => {
            lemma_step(n, frame, s@, frame.end);
        },
        AstNode::If { cond, body, otherwise } => {
            let inner = frame.between(c + 1, c + 2);
            let opened = n.open_if(frame, cond@);
            let first = build(&**body, inner, opened);
            lemma_open_if(n, frame, cond@);
            drawing_stays_within_cost(&**body, inner, opened);
            lemma_build(&**body, inner, opened);
            lemma_grows_numbers(opened, first.net);
            match otherwise {
                Some(t) => {
                    lemma_open_else(first.net, c);
                    drawing_stays_within_cost(
                        &**t,
                        frame.between(first.net.next(), c + 2),
                        first.net.open_else(c),
                    );
                },
                None => {
                    lemma_edge(first.net, c, frame.sink, EdgeType::Branch(false));
                },
            }
        },
        AstNode::While { cond, body } => {
            lemma_open_while(n, frame, cond@);
            drawing_stays_within_cost(
                &**body,
                frame.looping(c + 1, c + 2, c),
                n.open_while(frame, cond@),
            );
        },
        AstNode::DoWhile { cond, body } => {
            lemma_open_do_while(n, frame, cond@);
            drawing_stays_within_cost(
                &**body,
                frame.looping(c, c + 1, c + 2),
                n.open_do_while(frame, cond@),
            );
        },
        AstNode::For { init, cond, upd, body } => {
            lemma_open_for(n, frame, init@, cond@, upd@);
            drawing_stays_within_cost(
                &**body,
                frame.looping(c, c + 1, c + 4),
                n.open_for(frame, init@, cond@, upd@),
            );
        },
        AstNode::Switch { cond, body, cases } => {
            let names = texts(cases@);
            let opened = n.open_switch(frame, cond@, names);
            let d = opened.next() - 2;
            assert(build_node(ast, frame, n) == build_switch(cond@, *body, names, frame, n));
            if tested(names).len() == 0 {
                lemma_joints(n, names.len());
            } else {
                lemma_open_switch(n, frame, cond@, names);
                names.lemma_filter_len(|name: Seq<char>| name != "default"@);
                drawing_stays_within_cost(&**body, frame.switching(d, d + 1), opened);
            }
        },
        AstNode::Goto(name) => {
            lemma_jump(n, frame, name@);
        },
    }
}

proof fn lemma_enter_cost(n: Net, frame: Frame, text: Seq<char>)
    requires
        n.ok(),
        frame.within(n),
    ensures
        within_cost(n, n.enter(frame, text), 1),
{
    let named = n.node(NodeLabel::Node(text));
    lemma_node(n, NodeLabel::Node(text));
    lemma_edge(named, frame.source, n.next(), EdgeType::Normal);
}

proof fn lemma_chain_cost(v: Seq<Rc<Ast>>, k: nat, frame: Frame, net: Net, c: int)
    requires
        net.ok(),
        frame.within(net),
        0 <= c,
        c + 1 < net.next(),
    ensures
        within_cost(net, build_chain(v, k, frame, net, c).built.net, chain_cost(v, k)),
    decreases v, k,
{
    if k > 0 && k <= v.len() {
        let before = build_chain(v, (k - 1) as nat, frame, net, c);
        lemma_chain_cost(v, (k - 1) as nat, frame, net, c);
        lemma_build_chain(v, (k - 1) as nat, frame, net, c);
        lemma_grows_numbers(net, before.built.net);
        if before.built.fault is None {
            let inner = frame.between(before.source, before.sink);
            let built = build(&*v[k - 1], inner, before.built.net);
            drawing_stays_within_cost(&*v[k - 1], inner, before.built.net);
            lemma_build(&*v[k - 1], inner, before.built.net);
            lemma_node(built.net, NodeLabel::Dummy);
        }
    }
}

/// The cost of the largest trees that are known to fit.
pub const BUDGET: u32 = 0x7fff_ffff;

/// A tree without a switch that has no case to test, and of moderate size, can be handled.
pub proof fn moderate_trees_are_drawable(ast: &Ast)
    requires
        !(fault_of(ast, false, false) matches Some(Fault::NoCase)),
        cost(ast) <= BUDGET,
    ensures
        drawable(ast),
{
    let drawn = draft(ast).net.graph;
    lemma_blank();
    drawing_stops_at_first_fault(ast, outermost(), blank());
    drawing_stays_within_cost(ast, outermost(), blank());
    lemma_build(ast, outermost(), blank());
    pruning_removes_orphans(drawn);
    lemma_prune_edges(drawn);
    lemma_contract_fits(prune(drawn), joints());
    contracting_removes_picked(prune(drawn), joints());
    if let Ok(graph) = contract(prune(drawn), joints()) {
        lemma_contract_fits(graph, blanks());
    }
}

/// How many statements, labels and cases a tree has.
pub open spec fn size(ast: &Ast) -> nat
    decreases ast, 0nat,
{
    1 + ast.labels().len() + match &ast.node {
        AstNode::Compound(v) => chain_size(v@, v@.len()),
        AstNode::If { cond, body, otherwise } => size(&**body) + match otherwise {
            Some(t) => size(&**t),
            None => 0,
        },
        AstNode::While { cond, body } => size(&**body),
        AstNode::DoWhile { cond, body } => size(&**body),
        AstNode::For { init, cond, upd, body } => size(&**body),
        AstNode::Switch { cond, body, cases } => cases@.len() + size(&**body),
        _ => 0,
    }
}

/// How many there are in the first `k` statements of a block.
pub open spec fn chain_size(v: Seq<Rc<Ast>>, k: nat) -> nat
    decreases v, k,
{
    if k == 0 || k > v.len() {
        0
    } else {
        chain_size(v, (k - 1) as nat) + size(&*v[k - 1])
    }
}

proof fn lemma_cost_of_size(ast: &Ast)
    ensures
        cost(ast) + 1 <= 7 * size(ast),
    decreases ast, 0nat,
{
    match &ast.node {
        AstNode::Compound(v) => {
            lemma_chain_cost_of_size(v@, v@.len());
        },
        AstNode::If { cond, body, otherwise } => {
            lemma_cost_of_size(&**body);
            if let Some(t) = otherwise {
                lemma_cost_of_size(&**t);
            }
        },
        AstNode::While { cond, body } => {
            lemma_cost_of_size(&**body);
        },
        AstNode::DoWhile { cond, body } => {
            lemma_cost_of_size(&**body);
        },
        AstNode::For { init, cond, upd, body } => {
            lemma_cost_of_size(&**body);
        },
        AstNode::Switch { cond, body, cases } => {
            lemma_cost_of_size(&**body);
        },
        _ => {},
    }
}

proof fn lemma_chain_cost_of_size(v: Seq<Rc<Ast>>, k: nat)
    ensures
        chain_cost(v, k) <= 7 * chain_size(v, k),
    decreases v, k,
{
    if k > 0 && k <= v.len() {
        lemma_chain_cost_of_size(v, (k - 1) as nat);
        lemma_cost_of_size(&*v[k - 1]);
    }
}

/// Every tree of up to three hundred million statements, labels and cases, in which no switch
/// without a case to test comes before the first fault, can be handled.
pub proof fn trees_can_be_large(ast: &Ast)
    requires
        !(fault_of(ast, false, false) matches Some(Fault::NoCase)),
        size(ast) <= 300_000_000,
    ensures
        drawable(ast),
        cost(ast) <= BUDGET,
{
    lemma_cost_of_size(ast);
    moderate_trees_are_drawable(ast);
}

/// What is left of a budget after a statement has been paid for, if it suffices.
fn pay(ast: &Ast, budget: u32) -> (left: Option<u32>)
    ensures
        match left {
            Some(rest) => rest + cost(ast) == budget,
            None => cost(ast) > budget,
        },
    decreases ast, 0nat,
{
    let budget = match &ast.label {
        Some(labels) => {
            if labels.len() > budget as usize {
                return None;
            }
            budget - labels.len() as u32
        },
        None => budget,
    };
    match &ast.node {
        AstNode::Dummy => Some(budget),
        AstNode::Compound(v) => match budget.checked_sub(3) {
            Some(rest) => pay_all(v, rest),
            None => None,
        },
        AstNode::Stat(_) => budget.checked_sub(2),
        AstNode::Continue(_) => budget.checked_sub(2),
        AstNode::Break(_) => budget.checked_sub(2),
        AstNode::Return(_) => budget.checked_sub(2),
        AstNode::If { cond: _, body, otherwise } => match budget.checked_sub(4) {
            Some(rest) => match pay(body, rest) {
                Some(rest) => match otherwise {
                    Some(t) => pay(t, rest),
                    None => Some(rest),
                },
                None => None,
            },
            None => None,
        },
        AstNode::While { cond: _, body } => match budget.checked_sub(4) {
            Some(rest) => pay(body, rest),
            None => None,
        },
        AstNode::DoWhile { cond: _, body } => match budget.checked_sub(4) {
            Some(rest) => pay(body, rest),
            None => None,
        },
        AstNode::For { init: _, cond: _, upd: _, body } => match budget.checked_sub(6) {
            Some(rest) => pay(body, rest),
            None => None,
        },
        AstNode::Switch { cond: _, body, cases } => {
            if cases.len() > 0x7fff_ffff {
                return None;
            }
            let for_cases = 2 * cases.len() as u32;
            match budget.checked_sub(2) {
                Some(rest) => match rest.checked_sub(for_cases) {
                    Some(rest) => pay(body, rest),
                    None => None,
                },
                None => None,
            }
        },
        AstNode::Goto(_) => budget.checked_sub(1),
    }
}

/// What is left of a budget after the statements of a block have been paid for, if it suffices.
fn pay_all(v: &Vec<Rc<Ast>>, budget: u32) -> (left: Option<u32>)
    ensures
        match left {
            Some(rest) => rest + chain_cost(v@, v@.len()) == budget,
            None => chain_cost(v@, v@.len()) > budget,
        },
    decreases v@, 1nat,
{
    let mut left = budget;
    let mut k: usize = 0;
    while k < v.len()
        invariant
            k <= v@.len(),
            left + chain_cost(v@, k as nat) == budget,
        decreases v.len() - k,
    {
        proof {
            lemma_chain_cost_mono(v@, (k + 1) as nat, v@.len());
        }
        match pay(&v[k], left) {
            Some(rest) => {
                if rest == 0 {
                    return None;
                }
                left = rest - 1;
            },
            None => {
                return None;
            },
        }
        k += 1;
    }
    Some(left)
}

proof fn lemma_chain_cost_mono(v: Seq<Rc<Ast>>, k: nat, m: nat)
    requires
        k <= m <= v.len(),
    ensures
        chain_cost(v, k) <= chain_cost(v, m),
    decreases m,
{
    if k < m {
        lemma_chain_cost_mono(v, k, (m - 1) as nat);
    }
}

/// Tells whether a tree is known to be one that can be handled: no switch without a case to test
/// comes before the first fault, and the tree is of moderate size.
pub fn is_drawable(ast: &Ast) -> (known: bool)
    ensures
        known == (!(fault_of(ast, false, false) matches Some(Fault::NoCase)) && cost(ast)
            <= BUDGET),
        known ==> drawable(ast),
{
    let lacks_case = match first_fault(ast, false, false) {
        Some(Fault::NoCase) => true,
        _ => false,
    };
    let known = !lacks_case && pay(ast, BUDGET).is_some();
    proof {
        if known {
            moderate_trees_are_drawable(ast);
        }
    }
    known
}

} // verus!
