//! How many edges leave each node of a draft.

use crate::ast::{texts, Ast, AstNode};
use crate::flow::{
    build, build_block, build_chain, build_node, case_joints, case_test, lookup, tested, Frame, Net,
};
use crate::growth::{
    lemma_bind, lemma_build, lemma_build_chain, lemma_case_joints, lemma_edge, lemma_grows_numbers,
    lemma_joints, lemma_jump_table, lemma_labelled, lemma_node, lemma_open_block,
    lemma_open_do_while, lemma_open_else, lemma_open_for, lemma_open_if, lemma_open_switch,
    lemma_open_while, lemma_tested, with_table,
};
use crate::model::{lemma_lists, GraphView};
use crate::node::{EdgeType, NodeLabel};
use std::rc::Rc;
use vstd::prelude::*;

verus! {

impl GraphView {
    /// Whether as many edges leave node `i` as its label calls for: one from a statement, one per
    /// answer from a condition.
    pub open spec fn regular(self, i: int) -> bool {
        match self.nodes[i] {
            Some(NodeLabel::Node(_)) => self.out[i].len() == 1 && self.out[i][0].kind
                == EdgeType::Normal,
            Some(NodeLabel::Choice(_)) => {
                &&& self.out[i].len() == 2
                &&& self.out[i][0].kind == EdgeType::Branch(false)
                &&& self.out[i][1].kind == EdgeType::Branch(true)
            },
            Some(NodeLabel::Dummy) => true,
            _ => false,
        }
    }

    /// Whether all nodes from number `low` on are regular.
    pub open spec fn regular_from(self, low: int) -> bool {
        forall|i: int| low <= i < self.nodes.len() ==> #[trigger] self.regular(i)
    }

    pub open spec fn is_joint(self, i: int) -> bool {
        0 <= i < self.nodes.len() && self.nodes[i] == Some(NodeLabel::Dummy)
    }
}

impl Net {
    /// Whether every label in scope stands for a joint.
    #[verifier::opaque]
    pub open spec fn jointed(self) -> bool {
        forall|s: int, name: Seq<char>|
            0 <= s < self.scopes.len() && #[trigger] self.scopes[s].contains_key(name)
                ==> self.graph.is_joint(self.scopes[s][name])
    }

    /// Whether `later` has the same nodes, and the same edges from those that are no joints, but
    /// for node `except`.
    pub open spec fn quiet(self, later: Net, except: int) -> bool {
        &&& self.next() <= later.next()
        &&& later.graph.out.len() == later.graph.nodes.len()
        &&& forall|i: int|
            0 <= i < self.next() ==> #[trigger] later.graph.nodes[i] == self.graph.nodes[i]
        &&& forall|i: int|
            0 <= i < self.next() && i != except && !self.graph.is_joint(i)
                ==> #[trigger] later.graph.out[i] == self.graph.out[i]
    }

    /// Whether `later` has one more edge from `source`, a normal one, unless that is a joint.
    pub open spec fn advances(self, later: Net, source: int) -> bool {
        !self.graph.is_joint(source) ==> {
            &&& later.graph.out[source].len() == self.graph.out[source].len() + 1
            &&& later.graph.out[source][0].kind == EdgeType::Normal
        }
    }
}

proof fn lemma_lookup_joint(net: Net, name: Seq<char>)
    requires
        net.jointed(),
    ensures
        lookup(net.scopes, name) matches Some(v) ==> net.graph.is_joint(v),
    decreases net.scopes.len(),
{
    reveal(Net::jointed);
    if net.scopes.len() > 0 {
        if net.scopes.last().contains_key(name) {
            assert(net.scopes[net.scopes.len() - 1].contains_key(name));
        } else {
            let outer = net.leave();
            assert forall|s: int, k: Seq<char>|
                0 <= s < outer.scopes.len() && #[trigger] outer.scopes[s].contains_key(
                    k,
                ) implies outer.graph.is_joint(outer.scopes[s][k]) by {
                assert(net.scopes[s].contains_key(k));
            }
            lemma_lookup_joint(outer, name);
        }
    }
}

/// A net with the same labels keeps standing for joints.
proof fn lemma_jointed_kept(net: Net, later: Net)
    requires
        net.jointed(),
        later.scopes == net.scopes,
        net.next() <= later.next(),
        forall|i: int|
            0 <= i < net.next() ==> #[trigger] later.graph.nodes[i] == net.graph.nodes[i],
    ensures
        later.jointed(),
{
    reveal(Net::jointed);
    assert forall|s: int, k: Seq<char>|
        0 <= s < later.scopes.len() && #[trigger] later.scopes[s].contains_key(
            k,
        ) implies later.graph.is_joint(later.scopes[s][k]) by {
        assert(net.scopes[s].contains_key(k));
        assert(net.graph.is_joint(net.scopes[s][k]));
    }
}

proof fn lemma_bind_degrees(net: Net, name: Seq<char>)
    requires
        net.ok(),
        net.jointed(),
    ensures
        net.bind(name).jointed(),
        net.quiet(net.bind(name), -1),
        net.bind(name).graph.is_joint(net.joint(name)),
        net.bind(name).graph.regular_from(net.next()),
{
    lemma_lists(net.graph);
    lemma_lookup_joint(net, name);
    lemma_bind(net, name);
    lemma_lists(net.bind(name).graph);
    if lookup(net.scopes, name) is None {
        let after = net.bind(name);
        reveal(Net::jointed);
        assert forall|s: int, k: Seq<char>|
            0 <= s < after.scopes.len() && #[trigger] after.scopes[s].contains_key(
                k,
            ) implies after.graph.is_joint(after.scopes[s][k]) by {
            if s > 0 || k != name {
                assert(net.scopes[s].contains_key(k));
                assert(net.graph.is_joint(net.scopes[s][k]));
            }
        }
    }
}

proof fn lemma_labelled_degrees(net: Net, names: Seq<Seq<char>>, k: nat, source: int)
    requires
        net.ok(),
        net.jointed(),
        0 <= source < net.next(),
    ensures
        net.labelled(names, k, source).jointed(),
        net.quiet(net.labelled(names, k, source), -1),
        net.labelled(names, k, source).graph.regular_from(net.next()),
    decreases k,
{
    lemma_lists(net.graph);
    if k > 0 {
        let before = net.labelled(names, (k - 1) as nat, source);
        let name = names[k - 1];
        let bound = before.bind(name);
        let after = net.labelled(names, k, source);
        lemma_labelled(net, names, (k - 1) as nat, source);
        lemma_labelled_degrees(net, names, (k - 1) as nat, source);
        lemma_bind(before, name);
        lemma_bind_degrees(before, name);
        lemma_lists(before.graph);
        lemma_lists(bound.graph);
        lemma_jointed_kept(bound, after);
        assert forall|i: int|
            0 <= i < net.next() && !net.graph.is_joint(
                i,
            ) implies #[trigger] after.graph.out[i] == net.graph.out[i] by {
            assert(before.graph.nodes[i] == net.graph.nodes[i]);
            assert(bound.graph.nodes[i] == before.graph.nodes[i]);
            assert(before.graph.out[i] == net.graph.out[i]);
            assert(bound.graph.out[i] == before.graph.out[i]);
        }
        assert forall|i: int| 0 <= i < net.next() implies #[trigger] after.graph.nodes[i]
            == net.graph.nodes[i] by {
            assert(before.graph.nodes[i] == net.graph.nodes[i]);
            assert(bound.graph.nodes[i] == before.graph.nodes[i]);
        }
        assert forall|i: int| net.next() <= i < after.graph.nodes.len() implies #[trigger]
            after.graph.regular(i) by {
            if i < before.next() {
                assert(before.graph.regular(i));
                assert(bound.graph.nodes[i] == before.graph.nodes[i]);
                if !before.graph.is_joint(i) {
                    assert(bound.graph.out[i] == before.graph.out[i]);
                }
            } else {
                assert(bound.graph.regular(i));
            }
        }
    }
}

/// Two stretches of drawing make one.
proof fn lemma_then(a: Net, b: Net, c: Net, except: int, inner: int)
    requires
        a.quiet(b, except),
        b.quiet(c, inner),
        b.graph.regular_from(a.next()),
        c.graph.regular_from(b.next()),
        inner == except && inner < a.next() || inner < 0 || b.graph.is_joint(inner),
    ensures
        a.quiet(c, except),
        c.graph.regular_from(a.next()),
{
    assert forall|i: int| 0 <= i < a.next() implies #[trigger] c.graph.nodes[i]
        == a.graph.nodes[i] by {
        assert(b.graph.nodes[i] == a.graph.nodes[i]);
    }
    assert forall|i: int|
        0 <= i < a.next() && i != except && !a.graph.is_joint(
            i,
        ) implies #[trigger] c.graph.out[i] == a.graph.out[i] by {
        assert(b.graph.nodes[i] == a.graph.nodes[i]);
        assert(b.graph.out[i] == a.graph.out[i]);
    }
    assert forall|i: int| a.next() <= i < c.graph.nodes.len() implies #[trigger]
        c.graph.regular(i) by {
        if i < b.next() {
            assert(b.graph.regular(i));
            assert(c.graph.nodes[i] == b.graph.nodes[i]);
            if !b.graph.is_joint(i) {
                assert(c.graph.out[i] == b.graph.out[i]);
            }
        }
    }
}

proof fn lemma_table_degrees(
    net: Net,
    cond: Seq<char>,
    names: Seq<Seq<char>>,
    k: int,
    joints: Map<Seq<char>, int>,
    otherwise: int,
)
    requires
        net.ok(),
        0 <= k < names.len(),
        0 <= otherwise < net.next(),
        forall|j: int| k <= j < names.len() ==> 0 <= joints[#[trigger] names[j]] < net.next(),
    ensures
        net.quiet(with_table(net, cond, names, k, joints, otherwise), -1),
        with_table(net, cond, names, k, joints, otherwise).graph.regular_from(net.next()),
    decreases names.len() - k,
{
    broadcast use {lemma_node, lemma_edge};

    let cur = net.next();
    let n1 = net.node(NodeLabel::Choice(case_test(cond, names[k])));
    let asked = n1.edge(cur, joints[names[k]], EdgeType::Branch(true));
    let full = with_table(net, cond, names, k, joints, otherwise);
    lemma_lists(net.graph);
    lemma_lists(asked.graph);
    if k + 1 < names.len() {
        let rest = with_table(asked, cond, names, k + 1, joints, otherwise);
        lemma_jump_table(asked, cond, names, k + 1, joints, otherwise);
        lemma_table_degrees(asked, cond, names, k + 1, joints, otherwise);
        lemma_lists(rest.graph);
        assert(full == rest.edge(cur, cur + 1, EdgeType::Branch(false)));
        assert(rest.graph.nodes[cur] == asked.graph.nodes[cur]);
        assert(rest.graph.out[cur] == asked.graph.out[cur]);
        assert forall|i: int| 0 <= i < net.next() implies #[trigger] full.graph.nodes[i]
            == net.graph.nodes[i] by {
            assert(rest.graph.nodes[i] == asked.graph.nodes[i]);
        }
        assert forall|i: int|
            0 <= i < net.next() && !net.graph.is_joint(
                i,
            ) implies #[trigger] full.graph.out[i] == net.graph.out[i] by {
            assert(rest.graph.out[i] == asked.graph.out[i]);
        }
        assert forall|i: int| net.next() <= i < full.graph.nodes.len() implies #[trigger]
            full.graph.regular(i) by {
            if i > cur {
                assert(rest.graph.regular(i));
            }
        }
    } else {
        assert(full == asked.edge(cur, otherwise, EdgeType::Branch(false)));
    }
}

proof fn lemma_joints_degrees(net: Net, k: nat)
    requires
        net.ok(),
    ensures
        net.quiet(net.joints(k), -1),
        forall|i: int|
            net.next() <= i < net.joints(k).next() ==> net.joints(k).graph.nodes[i] == Some(
                NodeLabel::Dummy,
            ),
    decreases k,
{
    lemma_lists(net.graph);
    if k > 0 {
        lemma_joints(net, (k - 1) as nat);
        lemma_joints_degrees(net, (k - 1) as nat);
    }
}

proof fn lemma_switch_degrees(net: Net, frame: Frame, cond: Seq<char>, names: Seq<Seq<char>>)
    requires
        net.ok(),
        net.jointed(),
        frame.within(net),
        tested(names).len() > 0,
    ensures
        net.open_switch(frame, cond, names).jointed(),
        net.quiet(net.open_switch(frame, cond, names), frame.source),
        net.advances(net.open_switch(frame, cond, names), frame.source),
        net.open_switch(frame, cond, names).graph.regular_from(net.next()),
        net.open_switch(frame, cond, names).graph.is_joint(
            net.open_switch(frame, cond, names).next() - 2,
        ),
{
    let base = net.next();
    let cases = case_joints(names, names.len(), base);
    let other = net.otherwise(frame, names);
    let n1 = net.joints(names.len());
    let after = net.open_switch(frame, cond, names);
    lemma_open_switch(net, frame, cond, names);
    lemma_joints(net, names.len());
    lemma_joints_degrees(net, names.len());
    lemma_case_joints(names, names.len(), base);
    lemma_tested(names);
    if names.contains("default"@) {
        let j = names.index_of("default"@);
        assert(cases.contains_key(names[j]));
    }
    assert forall|j: int| 0 <= j < tested(names).len() implies 0 <= cases[
        #[trigger] tested(names)[j]] < n1.next() by {
        let m = names.index_of(tested(names)[j]);
        assert(cases.contains_key(names[m]));
    }
    lemma_jump_table(n1, cond, tested(names), 0, cases, other);
    lemma_table_degrees(n1, cond, tested(names), 0, cases, other);
    let n2 = with_table(n1, cond, tested(names), 0, cases, other);
    lemma_lists(net.graph);
    lemma_lists(n1.graph);
    lemma_lists(n2.graph);
    assert(n1.graph.regular_from(net.next()));
    lemma_then(net, n1, n2, -1, -1);
    assert(n2.quiet(after, frame.source)) by {
        lemma_lists(after.graph);
    }
    assert forall|i: int| net.next() <= i < after.graph.nodes.len() implies #[trigger]
        after.graph.regular(i) by {
        if i < n2.next() {
            assert(n2.graph.regular(i));
        }
    }
    assert forall|i: int| 0 <= i < net.next() implies #[trigger] after.graph.nodes[i]
        == net.graph.nodes[i] by {
        assert(n2.graph.nodes[i] == net.graph.nodes[i]);
    }
    assert forall|i: int|
        0 <= i < net.next() && i != frame.source && !net.graph.is_joint(
            i,
        ) implies #[trigger] after.graph.out[i] == net.graph.out[i] by {
        assert(n2.graph.out[i] == net.graph.out[i]);
    }
    if !net.graph.is_joint(frame.source) {
        assert(n2.graph.out[frame.source] == net.graph.out[frame.source]);
    }
    reveal(Net::jointed);
    assert forall|s: int, k: Seq<char>|
        0 <= s < after.scopes.len() && #[trigger] after.scopes[s].contains_key(
            k,
        ) implies after.graph.is_joint(after.scopes[s][k]) by {
        if s < net.scopes.len() {
            assert(net.scopes[s].contains_key(k));
            assert(net.graph.is_joint(net.scopes[s][k]));
            assert(after.graph.nodes[net.scopes[s][k]] == net.graph.nodes[net.scopes[s][k]]);
        } else {
            assert(cases.contains_key(k));
            assert(n2.graph.nodes[cases[k]] == n1.graph.nodes[cases[k]]);
            assert(n2.quiet(after, frame.source));
            assert(after.graph.nodes[cases[k]] == n2.graph.nodes[cases[k]]);
        }
    }
}

proof fn lemma_while_degrees(net: Net, frame: Frame, cond: Seq<char>)
    requires
        net.ok(),
        net.jointed(),
        frame.within(net),
    ensures
        net.open_while(frame, cond).jointed(),
        net.quiet(net.open_while(frame, cond), frame.source),
        net.advances(net.open_while(frame, cond), frame.source),
        net.open_while(frame, cond).graph.regular_from(net.next()),
        net.open_while(frame, cond).graph.is_joint(net.next() + 1),
{
    broadcast use {lemma_node, lemma_edge};

    lemma_lists(net.graph);
    let after = net.open_while(frame, cond);
    lemma_jointed_kept(net, after);
}

proof fn lemma_do_while_degrees(net: Net, frame: Frame, cond: Seq<char>)
    requires
        net.ok(),
        net.jointed(),
        frame.within(net),
    ensures
        net.open_do_while(frame, cond).jointed(),
        net.quiet(net.open_do_while(frame, cond), frame.source),
        net.advances(net.open_do_while(frame, cond), frame.source),
        net.open_do_while(frame, cond).graph.regular_from(net.next()),
        net.open_do_while(frame, cond).graph.is_joint(net.next()),
{
    broadcast use {lemma_node, lemma_edge};

    lemma_lists(net.graph);
    let after = net.open_do_while(frame, cond);
    lemma_jointed_kept(net, after);
}

proof fn lemma_for_degrees(net: Net, frame: Frame, init: Seq<char>, cond: Seq<char>, upd: Seq<char>)
    requires
        net.ok(),
        net.jointed(),
        frame.within(net),
    ensures
        net.open_for(frame, init, cond, upd).jointed(),
        net.quiet(net.open_for(frame, init, cond, upd), frame.source),
        net.advances(net.open_for(frame, init, cond, upd), frame.source),
        net.open_for(frame, init, cond, upd).graph.regular_from(net.next()),
        net.open_for(frame, init, cond, upd).graph.is_joint(net.next()),
{
    broadcast use {lemma_node, lemma_edge};

    lemma_lists(net.graph);
    let after = net.open_for(frame, init, cond, upd);
    lemma_jointed_kept(net, after);
}

/// A drawn statement adds one edge to the node that it is entered from, none to other nodes but
/// joints, and from each new node there are as many edges as its label calls for.
pub proof fn lemma_build_degrees(ast: &Ast, frame: Frame, net: Net)
    requires
        net.ok(),
        net.jointed(),
        frame.within(net),
        build(ast, frame, net).fault is None,
    ensures
        build(ast, frame, net).net.jointed(),
        net.quiet(build(ast, frame, net).net, frame.source),
        net.advances(build(ast, frame, net).net, frame.source),
        build(ast, frame, net).net.graph.regular_from(net.next()),
    decreases ast, 1nat,
{
    let n = net.labelled(ast.labels(), ast.labels().len(), frame.source);
    let after = build(ast, frame, net).net;
    lemma_labelled(net, ast.labels(), ast.labels().len(), frame.source);
    lemma_labelled_degrees(net, ast.labels(), ast.labels().len(), frame.source);
    lemma_grows_numbers(net, n);
    lemma_node_degrees(ast, frame, n);
    lemma_lists(net.graph);
    assert(net.quiet(n, frame.source));
    lemma_then(net, n, after, frame.source, frame.source);
    assert(n.graph.nodes[frame.source] == net.graph.nodes[frame.source]);
    if !net.graph.is_joint(frame.source) {
        assert(n.graph.out[frame.source] == net.graph.out[frame.source]);
    }
}

proof fn lemma_body_degrees(
    body: &Ast,
    frame: Frame,
    inner: Frame,
    n: Net,
    opened: Net,
)
    requires
        opened.ok(),
        opened.jointed(),
        inner.within(opened),
        0 <= frame.source < n.next(),
        build(body, inner, opened).fault is None,
        n.quiet(opened, frame.source),
        n.advances(opened, frame.source),
        opened.graph.regular_from(n.next()),
        opened.graph.is_joint(inner.source),
    ensures
        build(body, inner, opened).net.jointed(),
        n.quiet(build(body, inner, opened).net, frame.source),
        n.advances(build(body, inner, opened).net, frame.source),
        build(body, inner, opened).net.graph.regular_from(n.next()),
    decreases body, 2nat,
{
    let after = build(body, inner, opened).net;
    lemma_build_degrees(body, inner, opened);
    lemma_then(n, opened, after, frame.source, inner.source);
    assert(opened.graph.nodes[frame.source] == n.graph.nodes[frame.source]);
    if !n.graph.is_joint(frame.source) {
        assert(after.graph.out[frame.source] == opened.graph.out[frame.source]);
    }
}

proof fn lemma_node_degrees(ast: &Ast, frame: Frame, n: Net)
    requires
        n.ok(),
        n.jointed(),
        frame.within(n),
        build_node(ast, frame, n).fault is None,
    ensures
        build_node(ast, frame, n).net.jointed(),
        n.quiet(build_node(ast, frame, n).net, frame.source),
        n.advances(build_node(ast, frame, n).net, frame.source),
        build_node(ast, frame, n).net.graph.regular_from(n.next()),
    decreases ast, 0nat,
{
    let c = n.next();
    let after = build_node(ast, frame, n).net;
    lemma_lists(n.graph);
    match &ast.node {
        AstNode::Dummy => {},
        AstNode::Compound(v) => {
            lemma_block_degrees(v@, frame, n);
        },
        AstNode::Stat(s) => {
            lemma_step_degrees(n, frame, s@, frame.sink);
        },
        AstNode::Continue(s) => {
            lemma_step_degrees(n, frame, s@, frame.continue_target->0);
        },
        AstNode::Break(s) => {
            lemma_step_degrees(n, frame, s@, frame.break_target->0);
        },
        AstNode::Return(s) => {
            lemma_step_degrees(n, frame, s@, frame.end);
        },
        AstNode::If { cond, body, otherwise } => {
            let opened = n.open_if(frame, cond@);
            let inner = frame.between(c + 1, c + 2);
            let first = build(&**body, inner, opened);
            lemma_open_if(n, frame, cond@);
            lemma_if_degrees(n, frame, cond@);
            lemma_build(&**body, inner, opened);
            lemma_build_degrees(&**body, inner, opened);
            lemma_answer_degrees(n, frame, cond@, first.net);
            match otherwise {
                Some(t) => {
                    lemma_body_degrees(
                        &**t,
                        frame,
                        frame.between(first.net.next(), c + 2),
                        n,
                        first.net.open_else(c),
                    );
                },
                None => {},
            }
        },
        AstNode::While { cond, body } => {
            lemma_open_while(n, frame, cond@);
            lemma_while_degrees(n, frame, cond@);
            lemma_body_degrees(
                &**body,
                frame,
                frame.looping(c + 1, c + 2, c),
                n,
                n.open_while(frame, cond@),
            );
        },
        AstNode::DoWhile { cond, body } => {
            lemma_open_do_while(n, frame, cond@);
            lemma_do_while_degrees(n, frame, cond@);
            lemma_body_degrees(
                &**body,
                frame,
                frame.looping(c, c + 1, c + 2),
                n,
                n.open_do_while(frame, cond@),
            );
        },
        AstNode::For { init, cond, upd, body } => {
            lemma_open_for(n, frame, init@, cond@, upd@);
            lemma_for_degrees(n, frame, init@, cond@, upd@);
            lemma_body_degrees(
                &**body,
                frame,
                frame.looping(c, c + 1, c + 4),
                n,
                n.open_for(frame, init@, cond@, upd@),
            );
        },
        AstNode::Switch { cond, body, cases } => {
            let names = texts(cases@);
            let opened = n.open_switch(frame, cond@, names);
            let d = opened.next() - 2;
            let inner = build(&**body, frame.switching(d, d + 1), opened);
            lemma_open_switch(n, frame, cond@, names);
            lemma_switch_degrees(n, frame, cond@, names);
            lemma_body_degrees(&**body, frame, frame.switching(d, d + 1), n, opened);
            lemma_build(&**body, frame.switching(d, d + 1), opened);
            reveal(Net::jointed);
            assert forall|s: int, k: Seq<char>|
                0 <= s < after.scopes.len() && #[trigger] after.scopes[s].contains_key(
                    k,
                ) implies after.graph.is_joint(after.scopes[s][k]) by {
                assert(inner.net.scopes[s].contains_key(k));
            }
        },
        AstNode::Goto(name) => {
            lemma_jump_degrees(n, frame, name@);
        },
    }
}

proof fn lemma_jump_degrees(n: Net, frame: Frame, name: Seq<char>)
    requires
        n.ok(),
        n.jointed(),
        frame.within(n),
    ensures
        n.jump(frame, name).jointed(),
        n.quiet(n.jump(frame, name), frame.source),
        n.advances(n.jump(frame, name), frame.source),
        n.jump(frame, name).graph.regular_from(n.next()),
{
    let c = n.next();
    let after = n.jump(frame, name);
    lemma_lists(n.graph);
    let bound = n.bind(name);
    lemma_bind(n, name);
    lemma_bind_degrees(n, name);
    lemma_grows_numbers(n, bound);
    lemma_lists(bound.graph);
    lemma_edge(bound, frame.source, n.joint(name), EdgeType::Normal);
    lemma_jointed_kept(bound, after);
    assert(bound.graph.nodes[frame.source] == n.graph.nodes[frame.source]);
    assert forall|i: int| 0 <= i < c implies #[trigger] after.graph.nodes[i]
        == n.graph.nodes[i] by {
        assert(bound.graph.nodes[i] == n.graph.nodes[i]);
    }
    assert forall|i: int|
        0 <= i < c && i != frame.source && !n.graph.is_joint(
            i,
        ) implies #[trigger] after.graph.out[i] == n.graph.out[i] by {
        assert(bound.graph.out[i] == n.graph.out[i]);
    }
    if !n.graph.is_joint(frame.source) {
        assert(bound.graph.out[frame.source] == n.graph.out[frame.source]);
    }
    assert forall|i: int| c <= i < after.graph.nodes.len() implies #[trigger]
        after.graph.regular(i) by {
        assert(bound.graph.regular(i));
    }
}

/// The second answer of a condition, after the statement that the first answer leads to.
proof fn lemma_answer_degrees(n: Net, frame: Frame, cond: Seq<char>, first: Net)
    requires
        n.ok(),
        n.jointed(),
        frame.within(n),
        n.open_if(frame, cond).quiet(first, n.next() + 1),
        first.graph.regular_from(n.next() + 3),
        first.ok(),
        first.jointed(),
    ensures
        first.open_else(n.next()).ok(),
        first.open_else(n.next()).jointed(),
        n.quiet(first.open_else(n.next()), frame.source),
        n.advances(first.open_else(n.next()), frame.source),
        first.open_else(n.next()).graph.regular_from(n.next()),
        first.edge(n.next(), frame.sink, EdgeType::Branch(false)).jointed(),
        n.quiet(first.edge(n.next(), frame.sink, EdgeType::Branch(false)), frame.source),
        n.advances(first.edge(n.next(), frame.sink, EdgeType::Branch(false)), frame.source),
        first.edge(n.next(), frame.sink, EdgeType::Branch(false)).graph.regular_from(n.next()),
{
    let c = n.next();
    let opened = n.open_if(frame, cond);
    let with = first.open_else(c);
    let without = first.edge(c, frame.sink, EdgeType::Branch(false));
    lemma_open_if(n, frame, cond);
    lemma_if_degrees(n, frame, cond);
    lemma_lists(n.graph);
    lemma_lists(opened.graph);
    lemma_lists(first.graph);
    lemma_open_else(first, c);
    lemma_edge(first, c, frame.sink, EdgeType::Branch(false));
    lemma_lists(with.graph);
    lemma_lists(without.graph);
    lemma_jointed_kept(first, with);
    lemma_jointed_kept(first, without);
    assert(first.graph.nodes[c] == opened.graph.nodes[c]);
    assert(first.graph.out[c] == opened.graph.out[c]);
    assert forall|i: int| c < i < first.next() implies first.graph.regular(i) by {
        if i < opened.next() {
            assert(first.graph.nodes[i] == opened.graph.nodes[i]);
        }
    }
    assert forall|i: int| c <= i < with.graph.nodes.len() implies #[trigger] with.graph.regular(
        i,
    ) by {
        if c < i < first.next() {
            assert(first.graph.regular(i));
        }
    }
    assert forall|i: int| c <= i < without.graph.nodes.len() implies #[trigger]
        without.graph.regular(i) by {
        if c < i {
            assert(first.graph.regular(i));
        }
    }
    assert forall|i: int| 0 <= i < c implies first.graph.nodes[i] == n.graph.nodes[i] by {
        assert(first.graph.nodes[i] == opened.graph.nodes[i]);
    }
    assert forall|i: int|
        0 <= i < c && i != frame.source && !n.graph.is_joint(i) implies first.graph.out[i]
        == n.graph.out[i] by {
        assert(first.graph.out[i] == opened.graph.out[i]);
    }
    if !n.graph.is_joint(frame.source) {
        assert(first.graph.out[frame.source] == opened.graph.out[frame.source]);
    }
}

proof fn lemma_step_degrees(n: Net, frame: Frame, text: Seq<char>, target: int)
    requires
        n.ok(),
        n.jointed(),
        frame.within(n),
        0 <= target < n.next(),
    ensures
        n.step(frame, text, target).jointed(),
        n.quiet(n.step(frame, text, target), frame.source),
        n.advances(n.step(frame, text, target), frame.source),
        n.step(frame, text, target).graph.regular_from(n.next()),
{
    lemma_lists(n.graph);
    lemma_jointed_kept(n, n.step(frame, text, target));
}

proof fn lemma_if_degrees(n: Net, frame: Frame, cond: Seq<char>)
    requires
        n.ok(),
        n.jointed(),
        frame.within(n),
    ensures
        n.open_if(frame, cond).jointed(),
        n.quiet(n.open_if(frame, cond), frame.source),
        n.advances(n.open_if(frame, cond), frame.source),
        n.open_if(frame, cond).graph.nodes[n.next()] == Some(NodeLabel::Choice(cond)),
        n.open_if(frame, cond).graph.out[n.next()].len() == 1,
        n.open_if(frame, cond).graph.out[n.next()][0].kind == EdgeType::Branch(true),
        n.open_if(frame, cond).graph.is_joint(n.next() + 1),
        n.open_if(frame, cond).graph.is_joint(n.next() + 2),
{
    lemma_lists(n.graph);
    lemma_jointed_kept(n, n.open_if(frame, cond));
}

proof fn lemma_block_degrees(v: Seq<Rc<Ast>>, frame: Frame, n: Net)
    requires
        n.ok(),
        n.jointed(),
        frame.within(n),
        build_block(v, frame, n).fault is None,
    ensures
        build_block(v, frame, n).net.jointed(),
        n.quiet(build_block(v, frame, n).net, frame.source),
        n.advances(build_block(v, frame, n).net, frame.source),
        build_block(v, frame, n).net.graph.regular_from(n.next()),
    decreases v, v.len() + 1,
{
    let c = n.next();
    let opened = n.open_block(frame);
    let after = build_block(v, frame, n).net;
    lemma_lists(n.graph);
    lemma_open_block(n, frame);
    lemma_lists(opened.graph);
    lemma_jointed_kept(n, opened);
    if v.len() == 0 {
        lemma_jointed_kept(opened, after);
    } else {
        let chain = build_chain(v, v.len(), frame, opened, c);
        let net = chain.built.net;
        lemma_chain_degrees(v, v.len(), frame, opened, c);
        lemma_build_chain(v, v.len(), frame, opened, c);
        lemma_grows_numbers(opened, net);
        lemma_lists(net.graph);
        lemma_edge(net, chain.sink, frame.sink, EdgeType::Normal);
        lemma_lists(after.graph);
        lemma_jointed_kept(net, after);
        lemma_then(n, opened, net, frame.source, -1);
        assert(net.quiet(after, -1));
        assert(after.graph.regular_from(net.next()));
        lemma_then(n, net, after, frame.source, -1);
        assert(opened.graph.nodes[frame.source] == n.graph.nodes[frame.source]);
        assert(net.graph.nodes[frame.source] == opened.graph.nodes[frame.source]);
        if !n.graph.is_joint(frame.source) {
            assert(net.graph.out[frame.source] == opened.graph.out[frame.source]);
            assert(after.graph.out[frame.source] == net.graph.out[frame.source]);
        }
    }
}

proof fn lemma_chain_degrees(v: Seq<Rc<Ast>>, k: nat, frame: Frame, net: Net, c: int)
    requires
        net.ok(),
        net.jointed(),
        frame.within(net),
        net.graph.is_joint(c),
        net.graph.is_joint(c + 1),
        build_chain(v, k, frame, net, c).built.fault is None,
    ensures
        build_chain(v, k, frame, net, c).built.net.jointed(),
        build_chain(v, k, frame, net, c).built.net.graph.is_joint(
            build_chain(v, k, frame, net, c).source,
        ),
        build_chain(v, k, frame, net, c).built.net.graph.is_joint(
            build_chain(v, k, frame, net, c).sink,
        ),
        net.quiet(build_chain(v, k, frame, net, c).built.net, -1),
        build_chain(v, k, frame, net, c).built.net.graph.regular_from(net.next()),
    decreases v, k,
{
    lemma_lists(net.graph);
    if k > 0 && k <= v.len() {
        let before = build_chain(v, (k - 1) as nat, frame, net, c);
        let old = before.built.net;
        let inner = frame.between(before.source, before.sink);
        let built = build(&*v[k - 1], inner, old);
        lemma_chain_degrees(v, (k - 1) as nat, frame, net, c);
        lemma_build_chain(v, (k - 1) as nat, frame, net, c);
        lemma_grows_numbers(net, old);
        lemma_build(&*v[k - 1], inner, old);
        lemma_build_degrees(&*v[k - 1], inner, old);
        lemma_grows_numbers(old, built.net);
        lemma_then(net, old, built.net, -1, before.source);
        assert(built.net.graph.nodes[before.source] == old.graph.nodes[before.source]);
        assert(built.net.graph.nodes[before.sink] == old.graph.nodes[before.sink]);
        if k != v.len() {
            let after = built.net.node(NodeLabel::Dummy);
            lemma_node(built.net, NodeLabel::Dummy);
            lemma_lists(built.net.graph);
            lemma_jointed_kept(built.net, after);
            assert(built.net.quiet(after, -1));
            assert(after.graph.regular_from(built.net.next()));
            lemma_then(net, built.net, after, -1, -1);
        }
    }
}

} // verus!
