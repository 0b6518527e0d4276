//! How many edges a statement adds to each node around it.

use crate::additions::{
    lemma_bind_adds, lemma_build_adds, lemma_held_same, lemma_labelled_adds, lemma_switch_adds,
};
use crate::ast::{texts, Ast, AstNode};
use crate::flow::{
    build, build_block, build_chain, build_node, build_switch, case_joints, case_test, tested,
    Frame, Net,
};
use crate::growth::{
    lemma_bind, lemma_build, lemma_build_chain, lemma_case_joints, lemma_edge, lemma_grows_numbers,
    lemma_joints, lemma_jump_table, lemma_labelled, lemma_node, lemma_open_block,
    lemma_open_do_while, lemma_open_else, lemma_open_for, lemma_open_if, lemma_open_switch,
    lemma_open_while, lemma_tested, with_table,
};
use crate::model::lemma_lists;
use crate::node::{EdgeType, NodeLabel};
use std::rc::Rc;
use vstd::prelude::*;

verus! {

/// A way to leave a statement by a jump that needs no label.
pub enum Jump {
    Return,
    Break,
    Continue,
}

/// How many jumps of this kind a statement makes to the outside: every `return` in it, and every
/// `break` and `continue` that is not inside of a loop or switch in it.
pub open spec fn jumps(ast: &Ast, jump: Jump) -> nat
    decreases ast, 0nat,
{
    match &ast.node {
        AstNode::Compound(v) => jumps_among(v@, v@.len(), jump),
        AstNode::Continue(_) => if jump is Continue {
            1
        } else {
            0
        },
        AstNode::Break(_) => if jump is Break {
            1
        } else {
            0
        },
        AstNode::Return(_) => if jump is Return {
            1
        } else {
            0
        },
        AstNode::If { cond, body, otherwise } => jumps(&**body, jump) + match otherwise {
            Some(t) => jumps(&**t, jump),
            None => 0,
        },
        AstNode::While { cond, body } => if jump is Return {
            jumps(&**body, jump)
        } else {
            0
        },
        AstNode::DoWhile { cond, body } => if jump is Return {
            jumps(&**body, jump)
        } else {
            0
        },
        AstNode::For { init, cond, upd, body } => if jump is Return {
            jumps(&**body, jump)
        } else {
            0
        },
        AstNode::Switch { cond, body, cases } => if jump is Return {
            jumps(&**body, jump)
        } else {
            0
        },
        _ => 0,
    }
}

/// How many jumps of this kind the first `k` statements of a block make to the outside.
pub open spec fn jumps_among(v: Seq<Rc<Ast>>, k: nat, jump: Jump) -> nat
    decreases v, k,
{
    if k == 0 || k > v.len() {
        0
    } else {
        jumps_among(v, (k - 1) as nat, jump) + jumps(&*v[k - 1], jump)
    }
}

/// In how many ways control goes on behind a statement: a loop is left when its condition fails and
/// by each `break`, a condition without a second branch has two ways on, and a switch without
/// `default` may fit no case.
pub open spec fn ways_on(ast: &Ast) -> nat {
    match &ast.node {
        AstNode::Compound(_) => 1,
        AstNode::Stat(_) => 1,
        AstNode::If { cond, body, otherwise } => if otherwise is Some {
            1
        } else {
            2
        },
        AstNode::While { cond, body } => 1 + jumps(&**body, Jump::Break),
        AstNode::DoWhile { cond, body } => 1 + jumps(&**body, Jump::Break),
        AstNode::For { init, cond, upd, body } => 1 + jumps(&**body, Jump::Break),
        AstNode::Switch { cond, body, cases } => 1 + jumps(&**body, Jump::Break) + if texts(
            cases@,
        ).contains("default"@) {
            0nat
        } else {
            1nat
        },
        _ => 0,
    }
}

/// `count` if the condition holds, else 0.
pub open spec fn when(holds: bool, count: nat) -> nat {
    if holds {
        count
    } else {
        0
    }
}

/// How many edges a statement, but for its labels, adds to node `i`: as many as it has ways on if
/// that is where it goes on, and one for each jump that goes there.
pub open spec fn arrivals(ast: &Ast, frame: Frame, i: int) -> nat {
    when(i == frame.sink, ways_on(ast)) + when(i == frame.end, jumps(ast, Jump::Return)) + when(
        frame.break_target == Some(i),
        jumps(ast, Jump::Break),
    ) + when(frame.continue_target == Some(i), jumps(ast, Jump::Continue))
}

/// A drawn statement adds to each node that was there, but for joints of labels, as many edges as
/// its text says: where it goes on, where `return` goes to, where `break` and `continue` go to, and
/// from each of its labels to where it is entered.
pub proof fn drawing_arrives_as_told(ast: &Ast, frame: Frame, net: Net, i: int)
    requires
        net.ok(),
        frame.within(net),
        build(ast, frame, net).fault is None,
        0 <= i < net.next(),
        !net.held(i),
    ensures
        build(ast, frame, net).net.graph.inc[i].len() == net.graph.inc[i].len() + arrivals(
            ast,
            frame,
            i,
        ) + when(i == frame.source, ast.labels().len()),
    decreases ast, 2nat,
{
    let labels = ast.labels();
    let n = net.labelled(labels, labels.len(), frame.source);
    assert(build(ast, frame, net) == build_node(ast, frame, n));
    lemma_labelled(net, labels, labels.len(), frame.source);
    lemma_labelled_adds(net, labels, labels.len(), frame.source);
    lemma_labels_arrive(net, labels, labels.len(), frame.source, i);
    lemma_grows_numbers(net, n);
    lemma_node_arrives(ast, frame, n, i);
}

proof fn lemma_labels_arrive(net: Net, names: Seq<Seq<char>>, k: nat, source: int, i: int)
    requires
        net.ok(),
        0 <= source < net.next(),
        0 <= i < net.next(),
        !net.held(i),
    ensures
        net.labelled(names, k, source).graph.inc[i].len() == net.graph.inc[i].len() + when(
            i == source,
            k,
        ),
    decreases k,
{
    if k > 0 {
        let before = net.labelled(names, (k - 1) as nat, source);
        let bound = before.bind(names[k - 1]);
        lemma_labels_arrive(net, names, (k - 1) as nat, source, i);
        lemma_labelled(net, names, (k - 1) as nat, source);
        lemma_grows_numbers(net, before);
        lemma_bind(before, names[k - 1]);
        lemma_lists(before.graph);
        lemma_lists(bound.graph);
        assert(bound.graph.inc[i] == before.graph.inc[i]);
    }
}

/// What the starts of statements add to a node that was there.
proof fn lemma_open_arrives(
    n: Net,
    frame: Frame,
    init: Seq<char>,
    cond: Seq<char>,
    upd: Seq<char>,
    i: int,
)
    requires
        n.ok(),
        frame.within(n),
        0 <= i < n.next(),
    ensures
        n.open_block(frame).graph.inc[i].len() == n.graph.inc[i].len(),
        n.open_if(frame, cond).graph.inc[i].len() == n.graph.inc[i].len() + when(
            i == frame.sink,
            1,
        ),
        n.open_while(frame, cond).graph.inc[i].len() == n.graph.inc[i].len() + when(
            i == frame.sink,
            1,
        ),
        n.open_do_while(frame, cond).graph.inc[i].len() == n.graph.inc[i].len() + when(
            i == frame.sink,
            1,
        ),
        n.open_for(frame, init, cond, upd).graph.inc[i].len() == n.graph.inc[i].len() + when(
            i == frame.sink,
            1,
        ),
{
    lemma_lists(n.graph);
}

proof fn lemma_step_arrives(n: Net, frame: Frame, text: Seq<char>, target: int, i: int)
    requires
        n.ok(),
        frame.within(n),
        0 <= i < n.next(),
        0 <= target < n.next(),
    ensures
        n.step(frame, text, target).graph.inc[i].len() == n.graph.inc[i].len() + when(
            i == target,
            1,
        ),
{
    lemma_lists(n.graph);
}

proof fn lemma_table_arrives(
    net: Net,
    cond: Seq<char>,
    names: Seq<Seq<char>>,
    k: int,
    joints: Map<Seq<char>, int>,
    otherwise: int,
    i: int,
)
    requires
        net.ok(),
        0 <= k < names.len(),
        0 <= otherwise < net.next(),
        0 <= i < net.next(),
        forall|j: int|
            k <= j < names.len() ==> 0 <= joints[#[trigger] names[j]] < net.next()
                && joints[names[j]] != i,
    ensures
        with_table(net, cond, names, k, joints, otherwise).graph.inc[i].len()
            == net.graph.inc[i].len() + when(i == otherwise, 1),
    decreases names.len() - k,
{
    broadcast use {lemma_node, lemma_edge};

    let cur = net.next();
    let n1 = net.node(NodeLabel::Choice(case_test(cond, names[k])));
    let asked = n1.edge(cur, joints[names[k]], EdgeType::Branch(true));
    let full = with_table(net, cond, names, k, joints, otherwise);
    lemma_lists(net.graph);
    lemma_lists(asked.graph);
    if k + 1 < names.len() {
        let rest = with_table(asked, cond, names, k + 1, joints, otherwise);
        lemma_jump_table(asked, cond, names, k + 1, joints, otherwise);
        lemma_table_arrives(asked, cond, names, k + 1, joints, otherwise, i);
        lemma_lists(rest.graph);
        assert(full == rest.edge(cur, cur + 1, EdgeType::Branch(false)));
    } else {
        assert(full == asked.edge(cur, otherwise, EdgeType::Branch(false)));
    }
}

proof fn lemma_joints_arrive(net: Net, k: nat, i: int)
    requires
        net.ok(),
        0 <= i < net.next(),
    ensures
        net.joints(k).graph.inc[i] == net.graph.inc[i],
    decreases k,
{
    lemma_lists(net.graph);
    if k > 0 {
        lemma_joints(net, (k - 1) as nat);
        lemma_joints_arrive(net, (k - 1) as nat, i);
        lemma_lists(net.joints((k - 1) as nat).graph);
    }
}

/// What the start of a switch adds to a node that was there.
proof fn lemma_switch_arrives(
    n: Net,
    frame: Frame,
    cond: Seq<char>,
    names: Seq<Seq<char>>,
    i: int,
)
    requires
        n.ok(),
        frame.within(n),
        tested(names).len() > 0,
        0 <= i < n.next(),
    ensures
        n.open_switch(frame, cond, names).graph.inc[i].len() == n.graph.inc[i].len() + when(
            i == frame.sink,
            if names.contains("default"@) {
                1
            } else {
                2
            },
        ),
{
    let base = n.next();
    let cases = case_joints(names, names.len(), base);
    let other = n.otherwise(frame, names);
    let n1 = n.joints(names.len());
    let after = n.open_switch(frame, cond, names);
    lemma_open_switch(n, frame, cond, names);
    lemma_joints(n, names.len());
    lemma_joints_arrive(n, names.len(), i);
    lemma_case_joints(names, names.len(), base);
    lemma_tested(names);
    if names.contains("default"@) {
        let j = names.index_of("default"@);
        assert(cases.contains_key(names[j]));
    }
    assert forall|j: int| 0 <= j < tested(names).len() implies 0 <= cases[
        #[trigger] tested(names)[j]] < n1.next() && cases[tested(names)[j]] != i by {
        let m = names.index_of(tested(names)[j]);
        assert(cases.contains_key(names[m]));
    }
    lemma_jump_table(n1, cond, tested(names), 0, cases, other);
    lemma_table_arrives(n1, cond, tested(names), 0, cases, other, i);
    let n2 = with_table(n1, cond, tested(names), 0, cases, other);
    lemma_lists(n2.graph);
    lemma_lists(after.graph);
}

/// The body of a statement, of which the frame leads to node `i` as told.
proof fn lemma_body_arrives(body: &Ast, inner: Frame, opened: Net, i: int)
    requires
        opened.ok(),
        inner.within(opened),
        build(body, inner, opened).fault is None,
        0 <= i < opened.next(),
        !opened.held(i),
        i != inner.source,
    ensures
        build(body, inner, opened).net.graph.inc[i].len() == opened.graph.inc[i].len() + arrivals(
            body,
            inner,
            i,
        ),
    decreases body, 3nat,
{
    drawing_arrives_as_told(body, inner, opened, i);
}

proof fn lemma_node_arrives(ast: &Ast, frame: Frame, n: Net, i: int)
    requires
        n.ok(),
        frame.within(n),
        build_node(ast, frame, n).fault is None,
        0 <= i < n.next(),
        !n.held(i),
    ensures
        build_node(ast, frame, n).net.graph.inc[i].len() == n.graph.inc[i].len() + arrivals(
            ast,
            frame,
            i,
        ),
    decreases ast, 1nat,
{
    let c = n.next();
    match &ast.node {
        AstNode::Dummy => {},
        AstNode::Compound(v) => {
            lemma_block_arrives(v@, frame, n, i);
        },
        AstNode::Stat(s) => {
            lemma_step_arrives(n, frame, s@, frame.sink, i);
        },
        AstNode::Continue(s) => {
            lemma_step_arrives(n, frame, s@, frame.continue_target->0, i);
        },
        AstNode::Break(s) => {
            lemma_step_arrives(n, frame, s@, frame.break_target->0, i);
        },
        AstNode::Return(s) => {
            lemma_step_arrives(n, frame, s@, frame.end, i);
        },
        AstNode::If { cond, body, otherwise } => {
            let opened = n.open_if(frame, cond@);
            let inner = frame.between(c + 1, c + 2);
            let first = build(&**body, inner, opened).net;
            lemma_open_if(n, frame, cond@);
            lemma_open_arrives(n, frame, cond@, cond@, cond@, i);
            lemma_held_same(n, opened);
            lemma_build(&**body, inner, opened);
            lemma_build_adds(&**body, inner, opened);
            lemma_grows_numbers(opened, first);
            lemma_body_arrives(&**body, inner, opened, i);
            lemma_lists(first.graph);
            match otherwise {
                Some(t) => {
                    let second = first.open_else(c);
                    lemma_open_else(first, c);
                    lemma_held_same(first, second);
                    assert(second.graph.inc[i] == first.graph.inc[i]);
                    lemma_body_arrives(&**t, frame.between(first.next(), c + 2), second, i);
                },
                None => {},
            }
        },
        AstNode::While { cond, body } => {
            let opened = n.open_while(frame, cond@);
            lemma_open_while(n, frame, cond@);
            lemma_open_arrives(n, frame, cond@, cond@, cond@, i);
            lemma_held_same(n, opened);
            lemma_body_arrives(&**body, frame.looping(c + 1, c + 2, c), opened, i);
        },
        AstNode::DoWhile { cond, body } => {
            let opened = n.open_do_while(frame, cond@);
            lemma_open_do_while(n, frame, cond@);
            lemma_open_arrives(n, frame, cond@, cond@, cond@, i);
            lemma_held_same(n, opened);
            lemma_body_arrives(&**body, frame.looping(c, c + 1, c + 2), opened, i);
        },
        AstNode::For { init, cond, upd, body } => {
            let opened = n.open_for(frame, init@, cond@, upd@);
            lemma_open_for(n, frame, init@, cond@, upd@);
            lemma_open_arrives(n, frame, init@, cond@, upd@, i);
            lemma_held_same(n, opened);
            lemma_body_arrives(&**body, frame.looping(c, c + 1, c + 4), opened, i);
        },
        AstNode::Switch { cond, body, cases } => {
            let names = texts(cases@);
            let opened = n.open_switch(frame, cond@, names);
            let d = opened.next() - 2;
            assert(build_node(ast, frame, n) == build_switch(cond@, *body, names, frame, n));
            lemma_open_switch(n, frame, cond@, names);
            lemma_switch_adds(n, frame, cond@, names);
            lemma_switch_arrives(n, frame, cond@, names, i);
            lemma_grows_numbers(n, opened);
            lemma_body_arrives(&**body, frame.switching(d, d + 1), opened, i);
        },
        AstNode::Goto(name) => {
            let bound = n.bind(name@);
            lemma_bind(n, name@);
            lemma_bind_adds(n, name@);
            lemma_lists(n.graph);
            lemma_lists(bound.graph);
            assert(n.joint(name@) != i);
            assert(bound.graph.inc[i] == n.graph.inc[i]);
        },
    }
}

proof fn lemma_block_arrives(v: Seq<Rc<Ast>>, frame: Frame, n: Net, i: int)
    requires
        n.ok(),
        frame.within(n),
        build_block(v, frame, n).fault is None,
        0 <= i < n.next(),
        !n.held(i),
    ensures
        build_block(v, frame, n).net.graph.inc[i].len() == n.graph.inc[i].len() + when(
            i == frame.sink,
            1,
        ) + when(i == frame.end, jumps_among(v, v.len(), Jump::Return)) + when(
            frame.break_target == Some(i),
            jumps_among(v, v.len(), Jump::Break),
        ) + when(
            frame.continue_target == Some(i),
            jumps_among(v, v.len(), Jump::Continue),
        ),
    decreases v, v.len() + 1,
{
    let c = n.next();
    let opened = n.open_block(frame);
    lemma_open_block(n, frame);
    lemma_open_arrives(n, frame, Seq::empty(), Seq::empty(), Seq::empty(), i);
    lemma_held_same(n, opened);
    lemma_lists(opened.graph);
    if v.len() > 0 {
        let chain = build_chain(v, v.len(), frame, opened, c);
        lemma_chain_arrives(v, v.len(), frame, opened, c, n, i);
        lemma_build_chain(v, v.len(), frame, opened, c);
        lemma_grows_numbers(opened, chain.built.net);
        lemma_lists(chain.built.net.graph);
    }
}

proof fn lemma_chain_arrives(
    v: Seq<Rc<Ast>>,
    k: nat,
    frame: Frame,
    net: Net,
    c: int,
    n: Net,
    i: int,
)
    requires
        net.ok(),
        frame.within(net),
        n.next() <= c,
        c + 1 < net.next(),
        build_chain(v, k, frame, net, c).built.fault is None,
        0 <= i < n.next(),
        !net.held(i),
    ensures
        build_chain(v, k, frame, net, c).built.net.graph.inc[i].len() == net.graph.inc[i].len()
            + when(i == frame.end, jumps_among(v, k, Jump::Return)) + when(
            frame.break_target == Some(i),
            jumps_among(v, k, Jump::Break),
        ) + when(frame.continue_target == Some(i), jumps_among(v, k, Jump::Continue)),
        !build_chain(v, k, frame, net, c).built.net.held(i),
        n.next() <= build_chain(v, k, frame, net, c).source,
        n.next() <= build_chain(v, k, frame, net, c).sink,
    decreases v, k,
{
    if k > 0 && k <= v.len() {
        let before = build_chain(v, (k - 1) as nat, frame, net, c);
        let inner = frame.between(before.source, before.sink);
        let drawn = build(&*v[k - 1], inner, before.built.net).net;
        lemma_chain_arrives(v, (k - 1) as nat, frame, net, c, n, i);
        lemma_build_chain(v, (k - 1) as nat, frame, net, c);
        lemma_grows_numbers(net, before.built.net);
        lemma_build(&*v[k - 1], inner, before.built.net);
        lemma_build_adds(&*v[k - 1], inner, before.built.net);
        lemma_grows_numbers(before.built.net, drawn);
        lemma_body_arrives(&*v[k - 1], inner, before.built.net, i);
        if k < v.len() {
            lemma_lists(drawn.graph);
            lemma_held_same(drawn, drawn.node(NodeLabel::Dummy));
        }
    }
}

/// Whether two frames differ only in where jumps go that a statement does not make.
pub open spec fn same_for(ast: &Ast, f: Frame, g: Frame) -> bool {
    &&& f.source == g.source
    &&& f.sink == g.sink
    &&& jumps(ast, Jump::Return) == 0 || f.end == g.end
    &&& jumps(ast, Jump::Break) == 0 || f.break_target == g.break_target
    &&& jumps(ast, Jump::Continue) == 0 || f.continue_target == g.continue_target
}

/// Where jumps go that a statement does not make does not matter to it: the drawings in two frames
/// that differ in nothing else are equal. So a loop does not care where the loop around it is left
/// or repeated, and a statement without `return` does not care where `End` is.
pub proof fn unused_targets_do_not_matter(ast: &Ast, f: Frame, g: Frame, net: Net)
    requires
        same_for(ast, f, g),
    ensures
        build(ast, f, net).net == build(ast, g, net).net,
        build(ast, f, net).fault == build(ast, g, net).fault,
    decreases ast, 0nat,
{
    let n = net.labelled(ast.labels(), ast.labels().len(), f.source);
    let c = n.next();
    assert(build(ast, f, net) == build_node(ast, f, n));
    assert(build(ast, g, net) == build_node(ast, g, n));
    match &ast.node {
        AstNode::Compound(v) => {
            assert(build_node(ast, f, n) == build_block(v@, f, n));
            assert(build_node(ast, g, n) == build_block(v@, g, n));
            assert(n.open_block(f) == n.open_block(g));
            lemma_chain_same(v@, v@.len(), f, g, n.open_block(f), c);
        },
        AstNode::If { cond, body, otherwise } => {
            let opened = n.open_if(f, cond@);
            let first = build(&**body, f.between(c + 1, c + 2), opened).net;
            unused_targets_do_not_matter(
                &**body,
                f.between(c + 1, c + 2),
                g.between(c + 1, c + 2),
                opened,
            );
            if let Some(t) = otherwise {
                unused_targets_do_not_matter(
                    &**t,
                    f.between(first.next(), c + 2),
                    g.between(first.next(), c + 2),
                    first.open_else(c),
                );
            }
        },
        AstNode::While { cond, body } => {
            unused_targets_do_not_matter(
                &**body,
                f.looping(c + 1, c + 2, c),
                g.looping(c + 1, c + 2, c),
                n.open_while(f, cond@),
            );
        },
        AstNode::DoWhile { cond, body } => {
            unused_targets_do_not_matter(
                &**body,
                f.looping(c, c + 1, c + 2),
                g.looping(c, c + 1, c + 2),
                n.open_do_while(f, cond@),
            );
        },
        AstNode::For { init, cond, upd, body } => {
            unused_targets_do_not_matter(
                &**body,
                f.looping(c, c + 1, c + 4),
                g.looping(c, c + 1, c + 4),
                n.open_for(f, init@, cond@, upd@),
            );
        },
        AstNode::Switch { cond, body, cases } => {
            let names = texts(cases@);
            let opened = n.open_switch(f, cond@, names);
            let d = opened.next() - 2;
            assert(build_node(ast, f, n) == build_switch(cond@, *body, names, f, n));
            assert(build_node(ast, g, n) == build_switch(cond@, *body, names, g, n));
            assert(n.open_switch(g, cond@, names) == opened);
            unused_targets_do_not_matter(
                &**body,
                f.switching(d, d + 1),
                g.switching(d, d + 1),
                opened,
            );
        },
        _ => {},
    }
}

proof fn lemma_chain_same(v: Seq<Rc<Ast>>, k: nat, f: Frame, g: Frame, net: Net, c: int)
    requires
        jumps_among(v, k, Jump::Return) == 0 || f.end == g.end,
        jumps_among(v, k, Jump::Break) == 0 || f.break_target == g.break_target,
        jumps_among(v, k, Jump::Continue) == 0 || f.continue_target == g.continue_target,
    ensures
        build_chain(v, k, f, net, c).built.net == build_chain(v, k, g, net, c).built.net,
        build_chain(v, k, f, net, c).built.fault == build_chain(v, k, g, net, c).built.fault,
        build_chain(v, k, f, net, c).source == build_chain(v, k, g, net, c).source,
        build_chain(v, k, f, net, c).sink == build_chain(v, k, g, net, c).sink,
    decreases v, k,
{
    if k > 0 && k <= v.len() {
        let before = build_chain(v, (k - 1) as nat, f, net, c);
        lemma_chain_same(v, (k - 1) as nat, f, g, net, c);
        unused_targets_do_not_matter(
            &*v[k - 1],
            f.between(before.source, before.sink),
            g.between(before.source, before.sink),
            before.built.net,
        );
    }
}

} // verus!
