//! Labels that no jump names: no edge enters their joints.

use crate::ast::{texts, Ast, AstNode};
use crate::degrees::lemma_build_degrees;
use crate::entries::lemma_switch_enters;
use crate::flow::{
    blank, build, build_block, build_chain, build_node, build_switch, draft, lookup, outermost,
    tested, Frame, Net,
};
use crate::growth::{
    lemma_bind, lemma_blank, lemma_build, lemma_build_chain, lemma_edge, lemma_grows_numbers,
    lemma_labelled, lemma_node, lemma_open_block, lemma_open_do_while, lemma_open_else,
    lemma_open_for, lemma_open_if, lemma_open_switch, lemma_open_while,
};
use crate::model::lemma_lists;
use crate::node::{EdgeType, NodeLabel};
use crate::structured::{structured, structured_chain};
use crate::widening::{drawing_widens_labels, lemma_bind_widens, lemma_outer_old, lemma_outer_stays};
use std::rc::Rc;
use vstd::prelude::*;

verus! {

impl Net {
    /// Whether no edge enters the joint of a label in the outermost scope.
    #[verifier::opaque]
    pub open spec fn unentered(self) -> bool {
        forall|i: int| #[trigger] self.outer(i) ==> self.graph.inc[i].len() == 0
    }
}

impl Frame {
    /// Whether none of the frame's nodes is the joint of a label in the outermost scope.
    pub open spec fn apart(self, net: Net) -> bool {
        &&& !net.outer(self.source)
        &&& !net.outer(self.sink)
        &&& !net.outer(self.end)
        &&& self.break_target matches Some(t) ==> !net.outer(t)
        &&& self.continue_target matches Some(t) ==> !net.outer(t)
    }
}

/// The joint of a label in the outermost scope is a node.
proof fn lemma_outer(net: Net)
    requires
        net.ok(),
    ensures
        forall|i: int| #[trigger] net.outer(i) ==> 0 <= i < net.next(),
{
    reveal(Net::scoped);
    assert forall|i: int| #[trigger] net.outer(i) implies 0 <= i < net.next() by {
        let name = choose|name: Seq<char>| #[trigger]
            net.scopes[0].contains_key(name) && net.scopes[0][name] == i;
        assert(net.scopes[0].contains_key(name));
    }
}

proof fn lemma_outer_same(net: Net, later: Net, i: int)
    requires
        later.scopes[0] == net.scopes[0],
    ensures
        later.outer(i) == net.outer(i),
{
}

broadcast proof fn lemma_outer_node(net: Net, label: NodeLabel, i: int)
    ensures
        #[trigger] net.node(label).outer(i) == net.outer(i),
{
    lemma_outer_same(net, net.node(label), i);
}

broadcast proof fn lemma_outer_edge(net: Net, a: int, b: int, kind: EdgeType, i: int)
    ensures
        #[trigger] net.edge(a, b, kind).outer(i) == net.outer(i),
{
    lemma_outer_same(net, net.edge(a, b, kind), i);
}

broadcast proof fn lemma_node_unentered(net: Net, label: NodeLabel)
    requires
        net.ok(),
        net.unentered(),
    ensures
        #[trigger] net.node(label).unentered(),
        !net.node(label).outer(net.next()),
{
    broadcast use lemma_outer_node;

    reveal(Net::unentered);
    lemma_lists(net.graph);
    lemma_outer(net);
}

broadcast proof fn lemma_edge_unentered(net: Net, a: int, b: int, kind: EdgeType)
    requires
        net.ok(),
        0 <= a < net.next(),
        0 <= b < net.next(),
        net.unentered(),
        !net.outer(b),
    ensures
        #[trigger] net.edge(a, b, kind).unentered(),
{
    broadcast use lemma_outer_edge;

    reveal(Net::unentered);
    lemma_lists(net.graph);
    lemma_outer(net);
}

proof fn lemma_bind_unentered(net: Net, name: Seq<char>)
    requires
        net.ok(),
        net.unentered(),
    ensures
        net.bind(name).unentered(),
        forall|i: int| 0 <= i < net.next() ==> #[trigger] net.bind(name).outer(i) == net.outer(i),
{
    let after = net.bind(name);
    reveal(Net::unentered);
    lemma_lists(net.graph);
    lemma_outer(net);
    lemma_bind(net, name);
    lemma_bind_widens(net, name);
    lemma_outer(after);
    assert forall|i: int| 0 <= i < net.next() implies #[trigger] after.outer(i) == net.outer(i) by {
        if after.outer(i) {
            lemma_outer_old(net, after, i);
        }
        if net.outer(i) {
            lemma_outer_stays(net, after, i);
        }
    }
    if lookup(net.scopes, name) is None {
        assert(after.graph == net.node(NodeLabel::Dummy).graph);
    }
}

proof fn lemma_labelled_unentered(net: Net, names: Seq<Seq<char>>, k: nat, source: int)
    requires
        net.ok(),
        0 <= source < net.next(),
        net.unentered(),
        !net.outer(source),
    ensures
        net.labelled(names, k, source).unentered(),
        forall|i: int|
            0 <= i < net.next() ==> #[trigger] net.labelled(names, k, source).outer(i)
                == net.outer(i),
    decreases k,
{
    broadcast use lemma_outer_edge;

    if k > 0 {
        let before = net.labelled(names, (k - 1) as nat, source);
        let name = names[k - 1];
        let bound = before.bind(name);
        let joint = before.joint(name);
        let after = net.labelled(names, k, source);
        lemma_labelled(net, names, (k - 1) as nat, source);
        lemma_labelled_unentered(net, names, (k - 1) as nat, source);
        lemma_grows_numbers(net, before);
        lemma_bind(before, name);
        lemma_bind_unentered(before, name);
        lemma_edge_unentered(bound, joint, source, EdgeType::Normal);
        assert(after == bound.edge(joint, source, EdgeType::Normal));
        assert forall|i: int| 0 <= i < net.next() implies #[trigger] after.outer(i) == net.outer(
            i,
        ) by {
            assert(before.outer(i) == net.outer(i));
            assert(bound.outer(i) == before.outer(i));
        }
    }
}

/// The starts of statements enter no joint of an outermost label.
proof fn lemma_open_unentered(
    n: Net,
    frame: Frame,
    init: Seq<char>,
    cond: Seq<char>,
    upd: Seq<char>,
)
    requires
        n.ok(),
        frame.within(n),
        n.unentered(),
        frame.apart(n),
    ensures
        n.open_block(frame).unentered(),
        n.open_if(frame, cond).unentered(),
        n.open_while(frame, cond).unentered(),
        n.open_do_while(frame, cond).unentered(),
        n.open_for(frame, init, cond, upd).unentered(),
        forall|i: int| #[trigger] n.open_block(frame).outer(i) == n.outer(i),
        forall|i: int| #[trigger] n.open_if(frame, cond).outer(i) == n.outer(i),
        forall|i: int| #[trigger] n.open_while(frame, cond).outer(i) == n.outer(i),
        forall|i: int| #[trigger] n.open_do_while(frame, cond).outer(i) == n.outer(i),
        forall|i: int| #[trigger] n.open_for(frame, init, cond, upd).outer(i) == n.outer(i),
{
    broadcast use {
        lemma_node,
        lemma_edge,
        lemma_node_unentered,
        lemma_edge_unentered,
        lemma_outer_node,
        lemma_outer_edge,
    };

    lemma_outer(n);
}

proof fn lemma_step_unentered(n: Net, frame: Frame, text: Seq<char>, target: int)
    requires
        n.ok(),
        frame.within(n),
        n.unentered(),
        0 <= target < n.next(),
        !n.outer(target),
    ensures
        n.step(frame, text, target).unentered(),
{
    broadcast use {
        lemma_node,
        lemma_edge,
        lemma_node_unentered,
        lemma_edge_unentered,
        lemma_outer_node,
        lemma_outer_edge,
    };

    lemma_outer(n);
}

/// The tests of a switch enter no joint of an outermost label.
proof fn lemma_switch_unentered(n: Net, frame: Frame, cond: Seq<char>, names: Seq<Seq<char>>)
    requires
        n.ok(),
        frame.within(n),
        tested(names).len() > 0,
        n.unentered(),
        frame.apart(n),
    ensures
        n.open_switch(frame, cond, names).unentered(),
        forall|i: int| #[trigger] n.open_switch(frame, cond, names).outer(i) == n.outer(i),
{
    let opened = n.open_switch(frame, cond, names);
    reveal(Net::unentered);
    lemma_outer(n);
    lemma_switch_enters(n, frame, cond, names);
    assert(opened.scopes[0] == n.scopes[0]);
    assert forall|i: int| #[trigger] opened.outer(i) == n.outer(i) by {
        lemma_outer_same(n, opened, i);
    }
}

/// What is not the joint of an outermost label does not become one.
proof fn lemma_apart_kept(frame: Frame, n: Net, after: Net)
    requires
        frame.within(n),
        frame.apart(n),
        n.widened(after),
    ensures
        frame.apart(after),
{
    assert forall|i: int| 0 <= i < n.next() && !n.outer(i) implies !#[trigger] after.outer(i) by {
        if after.outer(i) {
            lemma_outer_old(n, after, i);
        }
    }
}

/// Drawing a tree without `goto` enters no joint of an outermost label.
proof fn lemma_build_unentered(ast: &Ast, frame: Frame, net: Net)
    requires
        structured(ast),
        net.ok(),
        frame.within(net),
        net.unentered(),
        frame.apart(net),
        build(ast, frame, net).fault is None,
    ensures
        build(ast, frame, net).net.unentered(),
    decreases ast, 1nat,
{
    broadcast use {
        lemma_node,
        lemma_edge,
        lemma_node_unentered,
        lemma_edge_unentered,
        lemma_outer_node,
        lemma_outer_edge,
    };

    let n = net.labelled(ast.labels(), ast.labels().len(), frame.source);
    let c = n.next();
    assert(build(ast, frame, net) == build_node(ast, frame, n));
    lemma_labelled(net, ast.labels(), ast.labels().len(), frame.source);
    lemma_labelled_unentered(net, ast.labels(), ast.labels().len(), frame.source);
    lemma_grows_numbers(net, n);
    lemma_outer(n);
    assert(frame.apart(n));
    match &ast.node {
        AstNode::Compound(v) => {
            assert(build_node(ast, frame, n) == build_block(v@, frame, n));
            let opened = n.open_block(frame);
            lemma_open_block(n, frame);
            lemma_open_unentered(n, frame, Seq::empty(), Seq::empty(), Seq::empty());
            assert(frame.apart(opened));
            lemma_chain_unentered(v@, v@.len(), frame, opened, c);
            lemma_build_chain(v@, v@.len(), frame, opened, c);
            lemma_grows_numbers(opened, build_chain(v@, v@.len(), frame, opened, c).built.net);
        },
        AstNode::Stat(s) => {
            lemma_step_unentered(n, frame, s@, frame.sink);
        },
        AstNode::Continue(s) => {
            lemma_step_unentered(n, frame, s@, frame.continue_target->0);
        },
        AstNode::Break(s) => {
            lemma_step_unentered(n, frame, s@, frame.break_target->0);
        },
        AstNode::Return(s) => {
            lemma_step_unentered(n, frame, s@, frame.end);
        },
        AstNode::If { cond, body, otherwise } => {
            let opened = n.open_if(frame, cond@);
            let inner = frame.between(c + 1, c + 2);
            let first = build(&**body, inner, opened).net;
            lemma_open_if(n, frame, cond@);
            lemma_open_unentered(n, frame, cond@, cond@, cond@);
            lemma_build(&**body, inner, opened);
            lemma_grows_numbers(opened, first);
            assert(inner.apart(opened));
            assert(frame.apart(opened));
            lemma_build_unentered(&**body, inner, opened);
            drawing_widens_labels(&**body, inner, opened);
            lemma_apart_kept(inner, opened, first);
            lemma_apart_kept(frame, opened, first);
            match otherwise {
                Some(t) => {
                    lemma_open_else(first, c);
                    lemma_outer(first);
                    let inner2 = frame.between(first.next(), c + 2);
                    assert(inner2.apart(first.open_else(c)));
                    lemma_build_unentered(&**t, inner2, first.open_else(c));
                },
                None => {},
            }
        },
        AstNode::While { cond, body } => {
            let opened = n.open_while(frame, cond@);
            let inner = frame.looping(c + 1, c + 2, c);
            lemma_open_while(n, frame, cond@);
            lemma_open_unentered(n, frame, cond@, cond@, cond@);
            assert(inner.apart(opened));
            lemma_build_unentered(&**body, inner, opened);
        },
        AstNode::DoWhile { cond, body } => {
            let opened = n.open_do_while(frame, cond@);
            let inner = frame.looping(c, c + 1, c + 2);
            lemma_open_do_while(n, frame, cond@);
            lemma_open_unentered(n, frame, cond@, cond@, cond@);
            assert(inner.apart(opened));
            lemma_build_unentered(&**body, inner, opened);
        },
        AstNode::For { init, cond, upd, body } => {
            let opened = n.open_for(frame, init@, cond@, upd@);
            let inner = frame.looping(c, c + 1, c + 4);
            lemma_open_for(n, frame, init@, cond@, upd@);
            lemma_open_unentered(n, frame, init@, cond@, upd@);
            assert(inner.apart(opened));
            lemma_build_unentered(&**body, inner, opened);
        },
        AstNode::Switch { cond, body, cases } => {
            let names = texts(cases@);
            let opened = n.open_switch(frame, cond@, names);
            let d = opened.next() - 2;
            let inner = frame.switching(d, d + 1);
            let drawn = build(&**body, inner, opened).net;
            assert(build_node(ast, frame, n) == build_switch(cond@, *body, names, frame, n));
            lemma_open_switch(n, frame, cond@, names);
            lemma_switch_unentered(n, frame, cond@, names);
            assert(inner.apart(opened));
            lemma_build_unentered(&**body, inner, opened);
            drawing_widens_labels(&**body, inner, opened);
            lemma_left_unentered(n, opened, drawn);
        },
        _ => {},
    }
}

/// Leaving a switch enters nothing.
proof fn lemma_left_unentered(n: Net, opened: Net, drawn: Net)
    requires
        drawn.unentered(),
        opened.widened(drawn),
        opened.scopes.drop_last() == n.scopes,
        opened.scopes.len() >= 2,
    ensures
        drawn.leave().unentered(),
{
    reveal(Net::unentered);
    reveal(Net::widened);
    let after = drawn.leave();
    assert(after.scopes[0] == drawn.scopes[0]);
    assert forall|i: int| #[trigger] after.outer(i) implies after.graph.inc[i].len() == 0 by {
        lemma_outer_same(drawn, after, i);
    }
}

proof fn lemma_chain_unentered(v: Seq<Rc<Ast>>, k: nat, frame: Frame, net: Net, c: int)
    requires
        structured_chain(v, k),
        net.ok(),
        frame.within(net),
        0 <= c,
        c + 1 < net.next(),
        !net.outer(c),
        !net.outer(c + 1),
        net.unentered(),
        frame.apart(net),
        build_chain(v, k, frame, net, c).built.fault is None,
    ensures
        build_chain(v, k, frame, net, c).built.net.unentered(),
        frame.apart(build_chain(v, k, frame, net, c).built.net),
        !build_chain(v, k, frame, net, c).built.net.outer(build_chain(v, k, frame, net, c).source),
        !build_chain(v, k, frame, net, c).built.net.outer(build_chain(v, k, frame, net, c).sink),
    decreases v, k,
{
    broadcast use {lemma_node, lemma_node_unentered, lemma_outer_node};

    if k > 0 && k <= v.len() {
        let before = build_chain(v, (k - 1) as nat, frame, net, c);
        let inner = frame.between(before.source, before.sink);
        let ast = &*v[k - 1];
        let after = build(ast, inner, before.built.net).net;
        lemma_chain_unentered(v, (k - 1) as nat, frame, net, c);
        lemma_build_chain(v, (k - 1) as nat, frame, net, c);
        lemma_grows_numbers(net, before.built.net);
        lemma_build(ast, inner, before.built.net);
        lemma_grows_numbers(before.built.net, after);
        lemma_build_unentered(ast, inner, before.built.net);
        drawing_widens_labels(ast, inner, before.built.net);
        lemma_apart_kept(frame, before.built.net, after);
        lemma_apart_kept(inner, before.built.net, after);
        lemma_outer(after);
        assert(after.node(NodeLabel::Dummy).outer(after.next()) == after.outer(after.next()));
    }
}

/// In the draft of a tree without `goto`, whose switches have different cases that mark one
/// statement each, the joints of all labels that are no cases are joints that no edge enters.
pub proof fn outer_joints_are_orphans(ast: &Ast, i: int)
    requires
        structured(ast),
        draft(ast).fault is None,
        draft(ast).net.outer(i),
    ensures
        draft(ast).net.graph.orphan(i),
{
    let net = draft(ast).net;
    lemma_blank();
    assert(forall|i: int| !#[trigger] blank().outer(i));
    assert(blank().unentered()) by {
        reveal(Net::unentered);
    }
    lemma_build_unentered(ast, outermost(), blank());
    reveal(Net::jointed);
    lemma_build_degrees(ast, outermost(), blank());
    reveal(Net::unentered);
    let name = choose|name: Seq<char>| #[trigger]
        net.scopes[0].contains_key(name) && net.scopes[0][name] == i;
    drawing_widens_labels(ast, outermost(), blank());
    assert(net.scopes.len() >= 1) by {
        reveal(Net::widened);
    }
    assert(net.scopes[0].contains_key(name));
}

} // verus!
