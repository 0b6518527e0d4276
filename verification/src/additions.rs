//! Where the edges that a statement adds to a chart start.

use crate::ast::{texts, Ast, AstNode};
use crate::flow::{
    build, build_block, build_chain, build_node, build_switch, case_joints, lookup, tested, Frame,
    Net,
};
use crate::growth::{
    lemma_bind, lemma_build, lemma_build_chain, lemma_case_joints, lemma_grows_numbers,
    lemma_joints, lemma_labelled, lemma_node, lemma_open_block, lemma_open_do_while,
    lemma_open_else, lemma_open_for, lemma_open_if, lemma_open_switch, lemma_open_while,
};
use crate::model::lemma_lists;
use crate::node::{EdgeType, NodeLabel};
use crate::ranks::lemma_switch_shape;
use std::rc::Rc;
use vstd::prelude::*;

verus! {

impl Net {
    /// Whether node `i` is the joint of a label in some scope.
    pub open spec fn held(self, i: int) -> bool {
        exists|s: int, name: Seq<char>|
            0 <= s < self.scopes.len() && #[trigger] self.scopes[s].contains_key(name)
                && self.scopes[s][name] == i
    }

    /// Whether the edges that `later` has in addition start at new nodes, at `source` or at joints
    /// of labels, and no other old node has become a joint of a label.
    pub open spec fn adds_to(self, later: Net, source: int) -> bool {
        &&& self.next() <= later.next()
        &&& later.graph.out.len() == later.graph.nodes.len()
        &&& forall|i: int|
            0 <= i < self.next() && i != source && !self.held(i) ==> #[trigger] later.graph.out[i]
                == self.graph.out[i]
        &&& forall|i: int| 0 <= i < self.next() && #[trigger] later.held(i) ==> self.held(i)
    }

    /// Whether `later` has exactly one more edge from `source`, a normal one, unless that is the
    /// joint of a label.
    pub open spec fn leaves(self, later: Net, source: int) -> bool {
        !self.held(source) ==> {
            &&& later.graph.out[source].len() == self.graph.out[source].len() + 1
            &&& later.graph.out[source][0].kind == EdgeType::Normal
        }
    }
}

/// Nets with the same labels have the same joints of labels.
pub proof fn lemma_held_same(net: Net, later: Net)
    requires
        later.scopes == net.scopes,
    ensures
        forall|i: int| #[trigger] later.held(i) == net.held(i),
{
}

/// Two stretches of drawing make one.
pub proof fn lemma_adds_then(a: Net, b: Net, c: Net, source: int, inner: int)
    requires
        a.adds_to(b, source),
        b.adds_to(c, inner),
        inner == source || a.next() <= inner || inner < 0,
    ensures
        a.adds_to(c, source),
        a.leaves(b, source) && inner != source && 0 <= source < a.next() ==> a.leaves(c, source),
{
    assert forall|i: int|
        0 <= i < a.next() && i != source && !a.held(i) implies #[trigger] c.graph.out[i]
        == a.graph.out[i] by {
        assert(!b.held(i));
        assert(b.graph.out[i] == a.graph.out[i]);
    }
    assert forall|i: int| 0 <= i < a.next() && #[trigger] c.held(i) implies a.held(i) by {
        assert(b.held(i));
    }
    if 0 <= source < a.next() && inner != source && !a.held(source) {
        assert(!b.held(source));
        assert(c.graph.out[source] == b.graph.out[source]);
    }
}

pub proof fn lemma_bind_adds(net: Net, name: Seq<char>)
    requires
        net.ok(),
    ensures
        net.adds_to(net.bind(name), -1),
        net.joint(name) < net.next() ==> net.held(net.joint(name)),
{
    let after = net.bind(name);
    lemma_bind(net, name);
    lemma_lists(net.graph);
    lemma_lists(after.graph);
    if lookup(net.scopes, name) is Some {
        lemma_lookup_held(net, name);
    } else {
        assert forall|i: int| 0 <= i < net.next() && #[trigger] after.held(i) implies net.held(
            i,
        ) by {
            let (s, k) = choose|s: int, k: Seq<char>|
                0 <= s < after.scopes.len() && #[trigger] after.scopes[s].contains_key(k)
                    && after.scopes[s][k] == i;
            assert(net.scopes[s].contains_key(k) && net.scopes[s][k] == i);
        }
    }
}

proof fn lemma_lookup_held(net: Net, name: Seq<char>)
    ensures
        lookup(net.scopes, name) matches Some(v) ==> net.held(v),
    decreases net.scopes.len(),
{
    if net.scopes.len() > 0 {
        if net.scopes.last().contains_key(name) {
            assert(net.scopes[net.scopes.len() - 1].contains_key(name));
        } else {
            let outer = net.leave();
            lemma_lookup_held(outer, name);
            if let Some(v) = lookup(outer.scopes, name) {
                let (s, k) = choose|s: int, k: Seq<char>|
                    0 <= s < outer.scopes.len() && #[trigger] outer.scopes[s].contains_key(k)
                        && outer.scopes[s][k] == v;
                assert(net.scopes[s].contains_key(k));
            }
        }
    }
}

pub proof fn lemma_labelled_adds(net: Net, names: Seq<Seq<char>>, k: nat, source: int)
    requires
        net.ok(),
        0 <= source < net.next(),
    ensures
        net.adds_to(net.labelled(names, k, source), -1),
    decreases k,
{
    lemma_lists(net.graph);
    if k > 0 {
        let before = net.labelled(names, (k - 1) as nat, source);
        let name = names[k - 1];
        let bound = before.bind(name);
        let after = net.labelled(names, k, source);
        lemma_labelled(net, names, (k - 1) as nat, source);
        lemma_labelled_adds(net, names, (k - 1) as nat, source);
        lemma_bind(before, name);
        lemma_bind_adds(before, name);
        lemma_lists(bound.graph);
        lemma_adds_then(net, before, bound, -1, -1);
        lemma_held_same(bound, after);
        assert forall|i: int|
            0 <= i < net.next() && !net.held(i) implies #[trigger] after.graph.out[i]
            == net.graph.out[i] by {
            assert(!before.held(i));
            assert(bound.graph.out[i] == net.graph.out[i]);
        }
        assert forall|i: int| 0 <= i < net.next() && #[trigger] after.held(i) implies net.held(
            i,
        ) by {
            assert(bound.held(i));
        }
    }
}

proof fn lemma_step_adds(n: Net, frame: Frame, text: Seq<char>, target: int)
    requires
        n.ok(),
        frame.within(n),
        0 <= target < n.next(),
    ensures
        n.adds_to(n.enter(frame, text), frame.source),
        n.adds_to(n.step(frame, text, target), frame.source),
        n.leaves(n.step(frame, text, target), frame.source),
{
    lemma_lists(n.graph);
    lemma_held_same(n, n.enter(frame, text));
    lemma_held_same(n, n.step(frame, text, target));
}

proof fn lemma_jump_adds(n: Net, frame: Frame, name: Seq<char>)
    requires
        n.ok(),
        frame.within(n),
    ensures
        n.adds_to(n.jump(frame, name), frame.source),
        n.leaves(n.jump(frame, name), frame.source),
{
    let bound = n.bind(name);
    let after = n.jump(frame, name);
    lemma_bind(n, name);
    lemma_bind_adds(n, name);
    lemma_lists(n.graph);
    lemma_lists(bound.graph);
    lemma_grows_numbers(n, bound);
    lemma_held_same(bound, after);
    assert(bound.adds_to(after, frame.source));
    assert(n.adds_to(bound, frame.source));
    lemma_adds_then(n, bound, after, frame.source, frame.source);
    if !n.held(frame.source) {
        assert(bound.graph.out[frame.source] == n.graph.out[frame.source]);
    }
}

pub proof fn lemma_open_adds(n: Net, frame: Frame, init: Seq<char>, cond: Seq<char>, upd: Seq<char>)
    requires
        n.ok(),
        frame.within(n),
    ensures
        n.adds_to(n.open_block(frame), frame.source),
        n.leaves(n.open_block(frame), frame.source),
        n.adds_to(n.open_if(frame, cond), frame.source),
        n.leaves(n.open_if(frame, cond), frame.source),
        n.adds_to(n.open_while(frame, cond), frame.source),
        n.leaves(n.open_while(frame, cond), frame.source),
        n.adds_to(n.open_do_while(frame, cond), frame.source),
        n.leaves(n.open_do_while(frame, cond), frame.source),
        n.adds_to(n.open_for(frame, init, cond, upd), frame.source),
        n.leaves(n.open_for(frame, init, cond, upd), frame.source),
{
    lemma_lists(n.graph);
    lemma_held_same(n, n.open_block(frame));
    lemma_held_same(n, n.open_if(frame, cond));
    lemma_held_same(n, n.open_while(frame, cond));
    lemma_held_same(n, n.open_do_while(frame, cond));
    lemma_held_same(n, n.open_for(frame, init, cond, upd));
}

pub proof fn lemma_switch_adds(n: Net, frame: Frame, cond: Seq<char>, names: Seq<Seq<char>>)
    requires
        n.ok(),
        frame.within(n),
        tested(names).len() > 0,
    ensures
        n.adds_to(n.open_switch(frame, cond, names), frame.source),
        n.leaves(n.open_switch(frame, cond, names), frame.source),
{
    let c = n.next();
    let cases = case_joints(names, names.len(), c);
    let after = n.open_switch(frame, cond, names);
    lemma_open_switch(n, frame, cond, names);
    lemma_switch_shape(n, frame, cond, names);
    lemma_case_joints(names, names.len(), c);
    assert(after.scopes == n.scopes.push(cases));
    assert forall|i: int| 0 <= i < c && #[trigger] after.held(i) implies n.held(i) by {
        let (s, k) = choose|s: int, k: Seq<char>|
            0 <= s < after.scopes.len() && #[trigger] after.scopes[s].contains_key(k)
                && after.scopes[s][k] == i;
        if s < n.scopes.len() {
            assert(n.scopes[s].contains_key(k));
        } else {
            assert(cases.contains_key(k));
        }
    }
}

proof fn lemma_leave_adds(n: Net)
    requires
        n.graph.wf(),
        n.scopes.len() >= 1,
    ensures
        n.adds_to(n.leave(), -1),
{
    let after = n.leave();
    lemma_lists(n.graph);
    assert forall|i: int| 0 <= i < n.next() && #[trigger] after.held(i) implies n.held(i) by {
        let (s, k) = choose|s: int, k: Seq<char>|
            0 <= s < after.scopes.len() && #[trigger] after.scopes[s].contains_key(k)
                && after.scopes[s][k] == i;
        assert(n.scopes[s].contains_key(k));
    }
}

/// The edges that drawing a statement adds, up to the first fault if there is one, start at new
/// nodes, at the frame's source or at joints of labels. Once the statement is drawn, exactly one
/// of them, a normal one, starts at the source, unless that is the joint of a label.
pub proof fn lemma_build_adds(ast: &Ast, frame: Frame, net: Net)
    requires
        net.ok(),
        frame.within(net),
    ensures
        net.adds_to(build(ast, frame, net).net, frame.source),
        build(ast, frame, net).fault is None ==> net.leaves(
            build(ast, frame, net).net,
            frame.source,
        ),
    decreases ast, 1nat,
{
    let n = net.labelled(ast.labels(), ast.labels().len(), frame.source);
    let after = build(ast, frame, net).net;
    assert(build(ast, frame, net) == build_node(ast, frame, n));
    lemma_labelled(net, ast.labels(), ast.labels().len(), frame.source);
    lemma_labelled_adds(net, ast.labels(), ast.labels().len(), frame.source);
    lemma_grows_numbers(net, n);
    lemma_node_adds(ast, frame, n);
    assert(net.adds_to(n, frame.source));
    lemma_adds_then(net, n, after, frame.source, frame.source);
    if !net.held(frame.source) {
        assert(!n.held(frame.source));
        assert(n.graph.out[frame.source] == net.graph.out[frame.source]);
    }
}

/// A statement whose inner statement is drawn last.
proof fn lemma_body_adds(body: &Ast, frame: Frame, inner: Frame, n: Net, opened: Net)
    requires
        opened.ok(),
        inner.within(opened),
        0 <= frame.source < n.next() <= inner.source,
        n.adds_to(opened, frame.source),
        n.leaves(opened, frame.source),
    ensures
        n.adds_to(build(body, inner, opened).net, frame.source),
        n.leaves(build(body, inner, opened).net, frame.source),
    decreases body, 2nat,
{
    lemma_build_adds(body, inner, opened);
    lemma_adds_then(n, opened, build(body, inner, opened).net, frame.source, inner.source);
}

proof fn lemma_node_adds(ast: &Ast, frame: Frame, n: Net)
    requires
        n.ok(),
        frame.within(n),
    ensures
        n.adds_to(build_node(ast, frame, n).net, frame.source),
        build_node(ast, frame, n).fault is None ==> n.leaves(
            build_node(ast, frame, n).net,
            frame.source,
        ),
    decreases ast, 0nat,
{
    let c = n.next();
    lemma_lists(n.graph);
    match &ast.node {
        AstNode::Dummy => {},
        AstNode::Compound(v) => {
            lemma_block_adds(v@, frame, n);
        },
        AstNode::Stat(s) => {
            lemma_step_adds(n, frame, s@, frame.sink);
        },
        AstNode::Continue(s) => {
            lemma_step_adds(n, frame, s@, frame.sink);
            if let Some(target) = frame.continue_target {
                lemma_step_adds(n, frame, s@, target);
            }
        },
        AstNode::Break(s) => {
            lemma_step_adds(n, frame, s@, frame.sink);
            if let Some(target) = frame.break_target {
                lemma_step_adds(n, frame, s@, target);
            }
        },
        AstNode::Return(s) => {
            lemma_step_adds(n, frame, s@, frame.end);
        },
        AstNode::If { cond, body, otherwise } => {
            let opened = n.open_if(frame, cond@);
            let inner = frame.between(c + 1, c + 2);
            let first = build(&**body, inner, opened);
            lemma_open_if(n, frame, cond@);
            lemma_open_adds(n, frame, cond@, cond@, cond@);
            lemma_build(&**body, inner, opened);
            lemma_grows_numbers(opened, first.net);
            lemma_body_adds(&**body, frame, inner, n, opened);
            lemma_lists(first.net.graph);
            match otherwise {
                Some(t) => {
                    let opened2 = first.net.open_else(c);
                    lemma_open_else(first.net, c);
                    lemma_lists(opened2.graph);
                    lemma_held_same(first.net, opened2);
                    assert(first.net.adds_to(opened2, c));
                    lemma_adds_then(n, first.net, opened2, frame.source, c);
                    lemma_body_adds(
                        &**t,
                        frame,
                        frame.between(first.net.next(), c + 2),
                        n,
                        opened2,
                    );
                },
                None => {
                    let after = first.net.edge(c, frame.sink, EdgeType::Branch(false));
                    lemma_held_same(first.net, after);
                    assert(first.net.adds_to(after, c));
                    lemma_adds_then(n, first.net, after, frame.source, c);
                },
            }
        },
        AstNode::While { cond, body } => {
            lemma_open_while(n, frame, cond@);
            lemma_open_adds(n, frame, cond@, cond@, cond@);
            lemma_body_adds(
                &**body,
                frame,
                frame.looping(c + 1, c + 2, c),
                n,
                n.open_while(frame, cond@),
            );
        },
        AstNode::DoWhile { cond, body } => {
            lemma_open_do_while(n, frame, cond@);
            lemma_open_adds(n, frame, cond@, cond@, cond@);
            lemma_body_adds(
                &**body,
                frame,
                frame.looping(c, c + 1, c + 2),
                n,
                n.open_do_while(frame, cond@),
            );
        },
        AstNode::For { init, cond, upd, body } => {
            lemma_open_for(n, frame, init@, cond@, upd@);
            lemma_open_adds(n, frame, init@, cond@, upd@);
            lemma_body_adds(
                &**body,
                frame,
                frame.looping(c, c + 1, c + 4),
                n,
                n.open_for(frame, init@, cond@, upd@),
            );
        },
        AstNode::Switch { cond, body, cases } => {
            let names = texts(cases@);
            assert(build_node(ast, frame, n) == build_switch(cond@, *body, names, frame, n));
            if tested(names).len() == 0 {
                lemma_joints_adds(n, names.len());
            } else {
                let opened = n.open_switch(frame, cond@, names);
                let d = opened.next() - 2;
                let inner = frame.switching(d, d + 1);
                let drawn = build(&**body, inner, opened);
                lemma_open_switch(n, frame, cond@, names);
                lemma_switch_adds(n, frame, cond@, names);
                lemma_body_adds(&**body, frame, inner, n, opened);
                lemma_build(&**body, inner, opened);
                if drawn.fault is None {
                    lemma_leave_adds(drawn.net);
                    lemma_adds_then(n, drawn.net, drawn.net.leave(), frame.source, -1);
                }
            }
        },
        AstNode::Goto(name) => {
            lemma_jump_adds(n, frame, name@);
        },
    }
}

proof fn lemma_joints_adds(net: Net, k: nat)
    requires
        net.ok(),
    ensures
        net.adds_to(net.joints(k), -1),
    decreases k,
{
    lemma_lists(net.graph);
    if k > 0 {
        let before = net.joints((k - 1) as nat);
        lemma_joints(net, (k - 1) as nat);
        lemma_joints_adds(net, (k - 1) as nat);
        lemma_lists(before.graph);
        lemma_held_same(before, net.joints(k));
        assert(before.adds_to(net.joints(k), -1));
        lemma_adds_then(net, before, net.joints(k), -1, -1);
    }
}

proof fn lemma_block_adds(v: Seq<Rc<Ast>>, frame: Frame, n: Net)
    requires
        n.ok(),
        frame.within(n),
    ensures
        n.adds_to(build_block(v, frame, n).net, frame.source),
        build_block(v, frame, n).fault is None ==> n.leaves(
            build_block(v, frame, n).net,
            frame.source,
        ),
    decreases v, v.len() + 1,
{
    let c = n.next();
    let opened = n.open_block(frame);
    let after = build_block(v, frame, n).net;
    lemma_open_block(n, frame);
    lemma_open_adds(n, frame, Seq::empty(), Seq::empty(), Seq::empty());
    lemma_lists(opened.graph);
    if v.len() == 0 {
        lemma_held_same(opened, after);
        lemma_held_same(n, after);
        lemma_lists(n.graph);
        assert forall|i: int|
            0 <= i < c && i != frame.source && !n.held(i) implies #[trigger] after.graph.out[i]
            == n.graph.out[i] by {
            assert(opened.graph.out[i] == n.graph.out[i]);
        }
    } else {
        let chain = build_chain(v, v.len(), frame, opened, c);
        let net = chain.built.net;
        lemma_chain_adds(v, v.len(), frame, opened, c, n);
        lemma_build_chain(v, v.len(), frame, opened, c);
        lemma_lists(net.graph);
        if chain.built.fault is None {
            lemma_held_same(net, after);
            assert(net.adds_to(after, chain.sink));
            lemma_adds_then(n, net, after, frame.source, chain.sink);
        }
    }
}

proof fn lemma_chain_adds(v: Seq<Rc<Ast>>, k: nat, frame: Frame, net: Net, c: int, n: Net)
    requires
        net.ok(),
        frame.within(net),
        0 <= frame.source < n.next() <= c,
        c + 1 < net.next(),
        n.adds_to(net, frame.source),
        n.leaves(net, frame.source),
    ensures
        n.adds_to(build_chain(v, k, frame, net, c).built.net, frame.source),
        n.leaves(build_chain(v, k, frame, net, c).built.net, frame.source),
        n.next() <= build_chain(v, k, frame, net, c).source,
        n.next() <= build_chain(v, k, frame, net, c).sink,
    decreases v, k,
{
    if k > 0 && k <= v.len() {
        let before = build_chain(v, (k - 1) as nat, frame, net, c);
        lemma_chain_adds(v, (k - 1) as nat, frame, net, c, n);
        lemma_build_chain(v, (k - 1) as nat, frame, net, c);
        lemma_grows_numbers(net, before.built.net);
        if before.built.fault is None {
            let inner = frame.between(before.source, before.sink);
            let built = build(&*v[k - 1], inner, before.built.net);
            lemma_build(&*v[k - 1], inner, before.built.net);
            lemma_build_adds(&*v[k - 1], inner, before.built.net);
            lemma_adds_then(n, before.built.net, built.net, frame.source, inner.source);
            if built.fault is None && k != v.len() {
                let after = built.net.node(NodeLabel::Dummy);
                lemma_node(built.net, NodeLabel::Dummy);
                lemma_lists(built.net.graph);
                lemma_held_same(built.net, after);
                assert(built.net.adds_to(after, -1));
                lemma_adds_then(n, built.net, after, frame.source, -1);
            }
        }
    }
}

} // verus!
