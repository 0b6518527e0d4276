//! Drawing only ever adds to a chart, and keeps it well formed.

use crate::ast::{texts, Ast, AstNode};
use crate::flow::{
    blank, build, build_block, build_chain, build_node, case_joints, jump_table, lookup, outermost,
    tested, Frame, Net,
};
use crate::model::{lemma_add_edge, lemma_add_node, tail_of, GraphView};
use crate::node::{EdgeType, NodeLabel};
use std::rc::Rc;
use vstd::prelude::*;

verus! {

impl Net {
    /// Whether every label in scope stands for a node.
    #[verifier::opaque]
    pub open spec fn scoped(self) -> bool {
        forall|s: int, name: Seq<char>|
            0 <= s < self.scopes.len() && #[trigger] self.scopes[s].contains_key(name) ==> 0
                <= self.scopes[s][name] < self.next()
    }

    /// Whether the net is fit to be drawn on.
    pub open spec fn ok(self) -> bool {
        &&& self.graph.wf()
        &&& self.graph.full()
        &&& self.scopes.len() >= 1
        &&& self.scoped()
    }

    /// Whether `later` holds all of this net's nodes, edges and outermost labels: each old list of
    /// edges is the end of the new one.
    #[verifier::opaque]
    pub open spec fn grows_to(self, later: Net) -> bool {
        &&& self.next() <= later.next()
        &&& self.graph.edge_count() <= later.graph.edge_count()
        &&& forall|i: int|
            0 <= i < self.next() ==> #[trigger] later.graph.nodes[i] == self.graph.nodes[i]
        &&& forall|i: int|
            0 <= i < self.next() ==> tail_of(self.graph.out[i], #[trigger] later.graph.out[i])
        &&& forall|i: int|
            0 <= i < self.next() ==> tail_of(self.graph.inc[i], #[trigger] later.graph.inc[i])
        &&& forall|name: Seq<char>| #[trigger]
            self.scopes[0].contains_key(name) ==> later.scopes[0].contains_key(name)
                && later.scopes[0][name] == self.scopes[0][name]
    }

    /// Whether the scopes are the same but for new labels in the outermost one.
    pub open spec fn same_scopes(self, later: Net) -> bool {
        &&& later.scopes.len() == self.scopes.len()
        &&& forall|s: int| 1 <= s < self.scopes.len() ==> #[trigger] later.scopes[s] == self.scopes[s]
    }

    /// Whether the chart fits in the store.
    pub open spec fn fits(self) -> bool {
        self.next() <= u32::MAX && self.graph.edge_count() <= u32::MAX
    }
}

impl Frame {
    /// Whether the frame's targets are nodes of the net.
    pub open spec fn within(self, net: Net) -> bool {
        &&& 0 <= self.source < net.next()
        &&& 0 <= self.sink < net.next()
        &&& 0 <= self.end < net.next()
        &&& self.break_target matches Some(t) ==> 0 <= t < net.next()
        &&& self.continue_target matches Some(t) ==> 0 <= t < net.next()
    }
}

/// Growing is transitive.
pub broadcast proof fn lemma_grows_trans(a: Net, b: Net, c: Net)
    requires
        #[trigger] a.grows_to(b),
        #[trigger] b.grows_to(c),
    ensures
        a.grows_to(c),
{
    reveal(Net::grows_to);
    assert forall|i: int| 0 <= i < a.next() implies #[trigger] c.graph.nodes[i]
        == a.graph.nodes[i] by {
        assert(b.graph.nodes[i] == a.graph.nodes[i]);
    }
    assert forall|i: int| 0 <= i < a.next() implies tail_of(
        a.graph.out[i],
        #[trigger] c.graph.out[i],
    ) by {
        assert(tail_of(a.graph.out[i], b.graph.out[i]));
    }
    assert forall|i: int| 0 <= i < a.next() implies tail_of(
        a.graph.inc[i],
        #[trigger] c.graph.inc[i],
    ) by {
        assert(tail_of(a.graph.inc[i], b.graph.inc[i]));
    }
}

pub proof fn lemma_grows_numbers(a: Net, b: Net)
    requires
        a.grows_to(b),
    ensures
        a.next() <= b.next(),
        a.graph.edge_count() <= b.graph.edge_count(),
{
    reveal(Net::grows_to);
}

pub broadcast proof fn lemma_node(net: Net, label: NodeLabel)
    requires
        net.ok(),
    ensures
        (#[trigger] net.node(label)).ok(),
        net.grows_to(net.node(label)),
        net.node(label).graph.edge_count() == net.graph.edge_count(),
{
    reveal(Net::scoped);
    reveal(Net::grows_to);
    reveal(GraphView::wf);
    lemma_add_node(net.graph, label);
}

pub broadcast proof fn lemma_edge(net: Net, a: int, b: int, kind: EdgeType)
    requires
        net.ok(),
        0 <= a < net.next(),
        0 <= b < net.next(),
    ensures
        (#[trigger] net.edge(a, b, kind)).ok(),
        net.grows_to(net.edge(a, b, kind)),
        net.edge(a, b, kind).graph.edge_count() == net.graph.edge_count() + 1,
{
    reveal(Net::scoped);
    reveal(Net::grows_to);
    reveal(GraphView::wf);
    lemma_add_edge(net.graph, a, b, kind);
}

/// A label in scope stands for a node.
pub proof fn lemma_lookup(net: Net, name: Seq<char>)
    requires
        net.scoped(),
    ensures
        lookup(net.scopes, name) matches Some(v) ==> 0 <= v < net.next(),
    decreases net.scopes.len(),
{
    reveal(Net::scoped);
    if net.scopes.len() > 0 {
        if net.scopes.last().contains_key(name) {
            assert(net.scopes[net.scopes.len() - 1].contains_key(name));
        } else {
            let outer = net.leave();
            assert forall|s: int, k: Seq<char>|
                0 <= s < outer.scopes.len() && #[trigger] outer.scopes[s].contains_key(k) implies 0
                <= outer.scopes[s][k] < outer.next() by {
                assert(net.scopes[s].contains_key(k));
            }
            lemma_lookup(outer, name);
        }
    }
}

/// A label that no scope has is new to the outermost one too.
pub proof fn lemma_lookup_none(scopes: Seq<Map<Seq<char>, int>>, name: Seq<char>)
    requires
        lookup(scopes, name) is None,
    ensures
        forall|s: int| 0 <= s < scopes.len() ==> !(#[trigger] scopes[s]).contains_key(name),
    decreases scopes.len(),
{
    if scopes.len() > 0 {
        lemma_lookup_none(scopes.drop_last(), name);
        assert forall|s: int| 0 <= s < scopes.len() implies !(
        #[trigger] scopes[s]).contains_key(name) by {
            if s < scopes.len() - 1 {
                assert(scopes.drop_last()[s] == scopes[s]);
            }
        }
    }
}

pub proof fn lemma_bind(net: Net, name: Seq<char>)
    requires
        net.ok(),
    ensures
        net.bind(name).ok(),
        net.grows_to(net.bind(name)),
        net.same_scopes(net.bind(name)),
        0 <= net.joint(name) < net.bind(name).next(),
        net.bind(name).graph.edge_count() == net.graph.edge_count(),
{
    lemma_lookup(net, name);
    reveal(Net::grows_to);
    if lookup(net.scopes, name) is None {
        let after = net.bind(name);
        lemma_node(net, NodeLabel::Dummy);
        lemma_lookup_none(net.scopes, name);
        reveal(Net::scoped);
        assert forall|s: int, k: Seq<char>|
            0 <= s < after.scopes.len() && #[trigger] after.scopes[s].contains_key(k) implies 0
            <= after.scopes[s][k] < after.next() by {
            if s > 0 || k != name {
                assert(net.scopes[s].contains_key(k));
            }
        }
        assert(!net.scopes[0].contains_key(name));
    }
}

pub proof fn lemma_labelled(net: Net, names: Seq<Seq<char>>, k: nat, source: int)
    requires
        net.ok(),
        0 <= source < net.next(),
    ensures
        net.labelled(names, k, source).ok(),
        net.grows_to(net.labelled(names, k, source)),
        net.same_scopes(net.labelled(names, k, source)),
    decreases k,
{
    if k == 0 {
        reveal(Net::grows_to);
    } else {
        let before = net.labelled(names, (k - 1) as nat, source);
        lemma_labelled(net, names, (k - 1) as nat, source);
        lemma_grows_numbers(net, before);
        let name = names[k - 1];
        lemma_bind(before, name);
        lemma_grows_numbers(before, before.bind(name));
        lemma_edge(before.bind(name), before.joint(name), source, EdgeType::Normal);
        lemma_grows_trans(net, before, before.bind(name));
        lemma_grows_trans(net, before.bind(name), net.labelled(names, k, source));
    }
}

pub proof fn lemma_step(net: Net, frame: Frame, text: Seq<char>, target: int)
    requires
        net.ok(),
        frame.within(net),
        0 <= target < net.next(),
    ensures
        net.enter(frame, text).ok(),
        net.grows_to(net.enter(frame, text)),
        net.step(frame, text, target).ok(),
        net.grows_to(net.step(frame, text, target)),
        net.step(frame, text, target).graph.edge_count() == net.graph.edge_count() + 2,
{
    let n1 = net.node(NodeLabel::Node(text));
    let n2 = net.enter(frame, text);
    lemma_node(net, NodeLabel::Node(text));
    lemma_edge(n1, frame.source, net.next(), EdgeType::Normal);
    lemma_edge(n2, net.next(), target, EdgeType::Normal);
    lemma_grows_trans(net, n1, n2);
    lemma_grows_trans(net, n2, net.step(frame, text, target));
}

pub proof fn lemma_jump(net: Net, frame: Frame, name: Seq<char>)
    requires
        net.ok(),
        frame.within(net),
    ensures
        net.jump(frame, name).ok(),
        net.grows_to(net.jump(frame, name)),
        net.same_scopes(net.jump(frame, name)),
        net.jump(frame, name).graph.edge_count() == net.graph.edge_count() + 1,
{
    lemma_bind(net, name);
    lemma_grows_numbers(net, net.bind(name));
    lemma_edge(net.bind(name), frame.source, net.joint(name), EdgeType::Normal);
    lemma_grows_trans(net, net.bind(name), net.jump(frame, name));
}

pub proof fn lemma_open_block(net: Net, frame: Frame)
    requires
        net.ok(),
        frame.within(net),
    ensures
        net.open_block(frame).ok(),
        net.grows_to(net.open_block(frame)),
        net.open_block(frame).next() == net.next() + 2,
        net.open_block(frame).graph.edge_count() == net.graph.edge_count() + 1,
{
    let n1 = net.node(NodeLabel::Dummy);
    let n2 = n1.node(NodeLabel::Dummy);
    lemma_node(net, NodeLabel::Dummy);
    lemma_node(n1, NodeLabel::Dummy);
    lemma_edge(n2, frame.source, net.next(), EdgeType::Normal);
    lemma_grows_trans(net, n1, n2);
    lemma_grows_trans(net, n2, net.open_block(frame));
}

pub proof fn lemma_open_if(net: Net, frame: Frame, cond: Seq<char>)
    requires
        net.ok(),
        frame.within(net),
    ensures
        net.open_if(frame, cond).ok(),
        net.grows_to(net.open_if(frame, cond)),
        net.open_if(frame, cond).next() == net.next() + 3,
        net.open_if(frame, cond).graph.edge_count() == net.graph.edge_count() + 3,
{
    broadcast use {lemma_node, lemma_edge, lemma_grows_trans};

}

pub proof fn lemma_open_while(net: Net, frame: Frame, cond: Seq<char>)
    requires
        net.ok(),
        frame.within(net),
    ensures
        net.open_while(frame, cond).ok(),
        net.grows_to(net.open_while(frame, cond)),
        net.open_while(frame, cond).next() == net.next() + 3,
        net.open_while(frame, cond).graph.edge_count() == net.graph.edge_count() + 4,
{
    broadcast use {lemma_node, lemma_edge, lemma_grows_trans};

}

pub proof fn lemma_open_do_while(net: Net, frame: Frame, cond: Seq<char>)
    requires
        net.ok(),
        frame.within(net),
    ensures
        net.open_do_while(frame, cond).ok(),
        net.grows_to(net.open_do_while(frame, cond)),
        net.open_do_while(frame, cond).next() == net.next() + 3,
        net.open_do_while(frame, cond).graph.edge_count() == net.graph.edge_count() + 4,
{
    broadcast use {lemma_node, lemma_edge, lemma_grows_trans};

}

pub proof fn lemma_open_for(net: Net, frame: Frame, init: Seq<char>, cond: Seq<char>, upd: Seq<char>)
    requires
        net.ok(),
        frame.within(net),
    ensures
        net.open_for(frame, init, cond, upd).ok(),
        net.grows_to(net.open_for(frame, init, cond, upd)),
        net.open_for(frame, init, cond, upd).next() == net.next() + 5,
        net.open_for(frame, init, cond, upd).graph.edge_count() == net.graph.edge_count() + 6,
{
    broadcast use {lemma_node, lemma_edge, lemma_grows_trans};

}

pub proof fn lemma_open_else(net: Net, cond: int)
    requires
        net.ok(),
        0 <= cond < net.next(),
    ensures
        net.open_else(cond).ok(),
        net.grows_to(net.open_else(cond)),
        net.open_else(cond).next() == net.next() + 1,
        net.open_else(cond).graph.edge_count() == net.graph.edge_count() + 1,
{
    broadcast use {lemma_node, lemma_edge, lemma_grows_trans};

}

pub proof fn lemma_joints(net: Net, k: nat)
    requires
        net.ok(),
    ensures
        net.joints(k).ok(),
        net.grows_to(net.joints(k)),
        net.joints(k).scopes == net.scopes,
        net.joints(k).next() == net.next() + k,
        net.joints(k).graph.edge_count() == net.graph.edge_count(),
    decreases k,
{
    if k == 0 {
        reveal(Net::grows_to);
    } else {
        lemma_joints(net, (k - 1) as nat);
        lemma_node(net.joints((k - 1) as nat), NodeLabel::Dummy);
        lemma_grows_trans(net, net.joints((k - 1) as nat), net.joints(k));
    }
}

pub proof fn lemma_case_joints(names: Seq<Seq<char>>, k: nat, base: int)
    requires
        k <= names.len(),
    ensures
        forall|name: Seq<char>| #[trigger]
            case_joints(names, k, base).contains_key(name) ==> base <= case_joints(
                names,
                k,
                base,
            )[name] < base + k,
        forall|j: int|
            0 <= j < k ==> case_joints(names, k, base).contains_key(#[trigger] names[j]),
    decreases k,
{
    if k > 0 {
        let before = case_joints(names, (k - 1) as nat, base);
        lemma_case_joints(names, (k - 1) as nat, base);
        assert forall|name: Seq<char>| #[trigger]
            case_joints(names, k, base).contains_key(name) implies base <= case_joints(
            names,
            k,
            base,
        )[name] < base + k by {
            if name != names[k - 1] {
                assert(before.contains_key(name));
            }
        }
    }
}

/// The tested labels are case labels.
pub proof fn lemma_tested(names: Seq<Seq<char>>)
    ensures
        forall|j: int|
            0 <= j < tested(names).len() ==> names.contains(#[trigger] tested(names)[j])
                && tested(names)[j] != "default"@,
{
    let pred = |name: Seq<char>| name != "default"@;
    assert forall|j: int| 0 <= j < tested(names).len() implies names.contains(
        #[trigger] tested(names)[j],
    ) && tested(names)[j] != "default"@ by {
        names.lemma_filter_pred(pred, j);
        names.lemma_filter_contains_rev(pred, tested(names)[j]);
    }
}

/// A net with the jump table's graph in place of its own.
pub open spec fn with_table(
    net: Net,
    cond: Seq<char>,
    names: Seq<Seq<char>>,
    k: int,
    joints: Map<Seq<char>, int>,
    otherwise: int,
) -> Net {
    Net { graph: jump_table(net.graph, cond, names, k, joints, otherwise), ..net }
}

pub proof fn lemma_jump_table(
    net: Net,
    cond: Seq<char>,
    names: Seq<Seq<char>>,
    k: int,
    joints: Map<Seq<char>, int>,
    otherwise: int,
)
    requires
        net.ok(),
        0 <= k < names.len(),
        0 <= otherwise < net.next(),
        forall|j: int| k <= j < names.len() ==> 0 <= joints[#[trigger] names[j]] < net.next(),
    ensures
        with_table(net, cond, names, k, joints, otherwise).ok(),
        net.grows_to(with_table(net, cond, names, k, joints, otherwise)),
        with_table(net, cond, names, k, joints, otherwise).next() == net.next() + names.len() - k,
        with_table(net, cond, names, k, joints, otherwise).graph.edge_count()
            == net.graph.edge_count() + 2 * (names.len() - k),
    decreases names.len() - k,
{
    broadcast use {lemma_node, lemma_edge};

    let cur = net.next();
    let n1 = net.node(NodeLabel::Choice(crate::flow::case_test(cond, names[k])));
    let asked = n1.edge(cur, joints[names[k]], EdgeType::Branch(true));
    let full = with_table(net, cond, names, k, joints, otherwise);
    lemma_grows_trans(net, n1, asked);
    if k + 1 < names.len() {
        lemma_jump_table(asked, cond, names, k + 1, joints, otherwise);
        let rest = with_table(asked, cond, names, k + 1, joints, otherwise);
        assert(full == rest.edge(cur, cur + 1, EdgeType::Branch(false)));
        lemma_grows_trans(net, asked, rest);
        lemma_grows_trans(net, rest, full);
    } else {
        assert(full == asked.edge(cur, otherwise, EdgeType::Branch(false)));
        lemma_grows_trans(net, asked, full);
    }
}

/// A new innermost scope whose labels stand for nodes keeps the net fit to be drawn on.
pub proof fn lemma_scope(net: Net, scope: Map<Seq<char>, int>)
    requires
        net.ok(),
        forall|name: Seq<char>| #[trigger]
            scope.contains_key(name) ==> 0 <= scope[name] < net.next(),
    ensures
        (Net { scopes: net.scopes.push(scope), ..net }).ok(),
{
    reveal(Net::scoped);
    let after = Net { scopes: net.scopes.push(scope), ..net };
    assert forall|s: int, name: Seq<char>|
        0 <= s < after.scopes.len() && #[trigger] after.scopes[s].contains_key(name) implies 0
        <= after.scopes[s][name] < after.next() by {
        if s < net.scopes.len() {
            assert(net.scopes[s].contains_key(name));
        }
    }
}

pub proof fn lemma_open_switch(net: Net, frame: Frame, cond: Seq<char>, names: Seq<Seq<char>>)
    requires
        net.ok(),
        frame.within(net),
        tested(names).len() > 0,
    ensures
        net.open_switch(frame, cond, names).ok(),
        net.grows_to(net.open_switch(frame, cond, names)),
        net.grows_to(net.joints(names.len())),
        net.joints(names.len()).grows_to(net.open_switch(frame, cond, names)),
        net.open_switch(frame, cond, names).next() == net.next() + names.len() + tested(names).len()
            + 2,
        net.open_switch(frame, cond, names).graph.edge_count() == net.graph.edge_count() + 2
            * tested(names).len() + 2,
        net.open_switch(frame, cond, names).leave().scopes == net.scopes,
{
    let base = net.next();
    let cases = case_joints(names, names.len(), base);
    let other = net.otherwise(frame, names);
    let n1 = net.joints(names.len());
    lemma_joints(net, names.len());
    lemma_case_joints(names, names.len(), base);
    lemma_tested(names);
    if names.contains("default"@) {
        let j = names.index_of("default"@);
        assert(cases.contains_key(names[j]));
    }
    assert forall|j: int| 0 <= j < tested(names).len() implies 0 <= cases[
        #[trigger] tested(names)[j]] < n1.next() by {
        let m = names.index_of(tested(names)[j]);
        assert(cases.contains_key(names[m]));
    }
    lemma_jump_table(n1, cond, tested(names), 0, cases, other);
    let n2 = with_table(n1, cond, tested(names), 0, cases, other);
    lemma_grows_trans(net, n1, n2);
    reveal(Net::grows_to);
    assert forall|name: Seq<char>| #[trigger] cases.contains_key(name) implies 0 <= cases[name]
        < n2.next() by {}
    lemma_scope(n2, cases);
    broadcast use {lemma_node, lemma_edge};

    let after = net.open_switch(frame, cond, names);
    assert(after.ok());
    assert(after.leave().scopes =~= net.scopes);
    assert(n2.grows_to(after));
    lemma_grows_trans(net, n2, after);
    lemma_grows_trans(n1, n2, after);
}

/// Leaving a switch keeps the net fit to be drawn on.
pub proof fn lemma_leave(net: Net)
    requires
        net.ok(),
        net.scopes.len() >= 2,
    ensures
        net.leave().ok(),
        net.grows_to(net.leave()),
{
    reveal(Net::grows_to);
    reveal(Net::scoped);
    let after = net.leave();
    assert forall|s: int, name: Seq<char>|
        0 <= s < after.scopes.len() && #[trigger] after.scopes[s].contains_key(name) implies 0
        <= after.scopes[s][name] < after.next() by {
        assert(net.scopes[s].contains_key(name));
    }
}

/// Drawing a statement adds to the net and keeps it fit to be drawn on; once it is drawn, the
/// scopes are those that there were, but for new labels in the outermost one.
pub proof fn lemma_build(ast: &Ast, frame: Frame, net: Net)
    requires
        net.ok(),
        frame.within(net),
    ensures
        build(ast, frame, net).net.ok(),
        net.grows_to(build(ast, frame, net).net),
        build(ast, frame, net).fault is None ==> net.same_scopes(build(ast, frame, net).net),
    decreases ast, 1nat,
{
    let n = net.labelled(ast.labels(), ast.labels().len(), frame.source);
    lemma_labelled(net, ast.labels(), ast.labels().len(), frame.source);
    lemma_grows_numbers(net, n);
    lemma_build_node(ast, frame, n);
    lemma_grows_trans(net, n, build(ast, frame, net).net);
}

/// As [`lemma_build`], once the labels are placed.
pub proof fn lemma_build_node(ast: &Ast, frame: Frame, n: Net)
    requires
        n.ok(),
        frame.within(n),
    ensures
        build_node(ast, frame, n).net.ok(),
        n.grows_to(build_node(ast, frame, n).net),
        build_node(ast, frame, n).fault is None ==> n.same_scopes(build_node(ast, frame, n).net),
    decreases ast, 0nat,
{
    let c = n.next();
    let after = build_node(ast, frame, n);
    match &ast.node {
        AstNode::Dummy => {
            reveal(Net::grows_to);
        },
        AstNode::Compound(v) => {
            lemma_build_block(v@, frame, n);
        },
        AstNode::Stat(s) => {
            lemma_step(n, frame, s@, frame.sink);
        },
        AstNode::Continue(s) => {
            lemma_step(n, frame, s@, frame.sink);
            if let Some(target) = frame.continue_target {
                lemma_step(n, frame, s@, target);
            }
        },
        AstNode::Break(s) => {
            lemma_step(n, frame, s@, frame.sink);
            if let Some(target) = frame.break_target {
                lemma_step(n, frame, s@, target);
            }
        },
        AstNode::Return(s) => {
            lemma_step(n, frame, s@, frame.end);
        },
        AstNode::If { cond, body, otherwise } => {
            let opened = n.open_if(frame, cond@);
            lemma_open_if(n, frame, cond@);
            let first = build(&**body, frame.between(c + 1, c + 2), opened);
            lemma_build(&**body, frame.between(c + 1, c + 2), opened);
            lemma_grows_trans(n, opened, first.net);
            lemma_grows_numbers(opened, first.net);
            if first.fault is None {
                match otherwise {
                    Some(t) => {
                        let opened2 = first.net.open_else(c);
                        lemma_open_else(first.net, c);
                        lemma_grows_trans(n, first.net, opened2);
                        lemma_build(&**t, frame.between(first.net.next(), c + 2), opened2);
                        lemma_grows_trans(n, opened2, after.net);
                    },
                    None => {
                        lemma_edge(first.net, c, frame.sink, EdgeType::Branch(false));
                        lemma_grows_trans(n, first.net, after.net);
                    },
                }
            }
        },
        AstNode::While { cond, body } => {
            let opened = n.open_while(frame, cond@);
            lemma_open_while(n, frame, cond@);
            lemma_build(&**body, frame.looping(c + 1, c + 2, c), opened);
            lemma_grows_trans(n, opened, after.net);
        },
        AstNode::DoWhile { cond, body } => {
            let opened = n.open_do_while(frame, cond@);
            lemma_open_do_while(n, frame, cond@);
            lemma_build(&**body, frame.looping(c, c + 1, c + 2), opened);
            lemma_grows_trans(n, opened, after.net);
        },
        AstNode::For { init, cond, upd, body } => {
            let opened = n.open_for(frame, init@, cond@, upd@);
            lemma_open_for(n, frame, init@, cond@, upd@);
            lemma_build(&**body, frame.looping(c, c + 1, c + 4), opened);
            lemma_grows_trans(n, opened, after.net);
        },
        AstNode::Switch { cond, body, cases } => {
            if tested(texts(cases@)).len() == 0 {
                lemma_joints(n, cases@.len());
            } else {
                let opened = n.open_switch(frame, cond@, texts(cases@));
                lemma_open_switch(n, frame, cond@, texts(cases@));
                let d = opened.next() - 2;
                let inner = build(&**body, frame.switching(d, d + 1), opened);
                lemma_build(&**body, frame.switching(d, d + 1), opened);
                lemma_grows_trans(n, opened, inner.net);
                if inner.fault is None {
                    lemma_leave(inner.net);
                    lemma_grows_trans(n, inner.net, after.net);
                    assert forall|s: int| 1 <= s < n.scopes.len() implies
                        #[trigger] after.net.scopes[s] == n.scopes[s] by {
                        assert(opened.leave().scopes[s] == n.scopes[s]);
                        assert(inner.net.scopes[s] == opened.scopes[s]);
                    }
                }
            }
        },
        AstNode::Goto(name) => {
            lemma_jump(n, frame, name@);
        },
    }
}

/// As [`lemma_build`], for a block.
pub proof fn lemma_build_block(v: Seq<Rc<Ast>>, frame: Frame, n: Net)
    requires
        n.ok(),
        frame.within(n),
    ensures
        build_block(v, frame, n).net.ok(),
        n.grows_to(build_block(v, frame, n).net),
        build_block(v, frame, n).fault is None ==> n.same_scopes(build_block(v, frame, n).net),
    decreases v, v.len() + 1,
{
    let c = n.next();
    let opened = n.open_block(frame);
    let after = build_block(v, frame, n);
    lemma_open_block(n, frame);
    if v.len() == 0 {
        let n1 = opened.normal(c, c + 1);
        lemma_edge(opened, c, c + 1, EdgeType::Normal);
        lemma_edge(n1, c + 1, frame.sink, EdgeType::Normal);
        lemma_grows_trans(n, opened, n1);
        lemma_grows_trans(n, n1, after.net);
    } else {
        let chain = build_chain(v, v.len(), frame, opened, c);
        lemma_build_chain(v, v.len(), frame, opened, c);
        lemma_grows_trans(n, opened, chain.built.net);
        lemma_grows_numbers(n, chain.built.net);
        if chain.built.fault is None {
            lemma_edge(chain.built.net, chain.sink, frame.sink, EdgeType::Normal);
            lemma_grows_trans(n, chain.built.net, after.net);
        }
    }
}

/// As [`lemma_build`], for the first `k` statements of a block.
pub proof fn lemma_build_chain(v: Seq<Rc<Ast>>, k: nat, frame: Frame, net: Net, c: int)
    requires
        net.ok(),
        frame.within(net),
        0 <= c,
        c + 1 < net.next(),
    ensures
        build_chain(v, k, frame, net, c).built.net.ok(),
        net.grows_to(build_chain(v, k, frame, net, c).built.net),
        0 <= build_chain(v, k, frame, net, c).source < build_chain(
            v,
            k,
            frame,
            net,
            c,
        ).built.net.next(),
        0 <= build_chain(v, k, frame, net, c).sink < build_chain(
            v,
            k,
            frame,
            net,
            c,
        ).built.net.next(),
        build_chain(v, k, frame, net, c).built.fault is None ==> net.same_scopes(
            build_chain(v, k, frame, net, c).built.net,
        ),
    decreases v, k,
{
    if k == 0 || k > v.len() {
        reveal(Net::grows_to);
    } else {
        let before = build_chain(v, (k - 1) as nat, frame, net, c);
        lemma_build_chain(v, (k - 1) as nat, frame, net, c);
        lemma_grows_numbers(net, before.built.net);
        if before.built.fault is None {
            let inner = frame.between(before.source, before.sink);
            let built = build(&*v[k - 1], inner, before.built.net);
            lemma_build(&*v[k - 1], inner, before.built.net);
            lemma_grows_numbers(before.built.net, built.net);
            lemma_grows_trans(net, before.built.net, built.net);
            if built.fault is None && k != v.len() {
                lemma_node(built.net, NodeLabel::Dummy);
                lemma_grows_trans(net, built.net, built.net.node(NodeLabel::Dummy));
            }
        }
    }
}

/// A block only grows as its statements are drawn, and a fault ends it.
pub proof fn lemma_chain_mono(v: Seq<Rc<Ast>>, k: nat, m: nat, frame: Frame, net: Net, c: int)
    requires
        net.ok(),
        frame.within(net),
        0 <= c,
        c + 1 < net.next(),
        k <= m <= v.len(),
    ensures
        build_chain(v, k, frame, net, c).built.net.grows_to(
            build_chain(v, m, frame, net, c).built.net,
        ),
        build_chain(v, k, frame, net, c).built.fault is Some ==> build_chain(v, m, frame, net, c)
            == build_chain(v, k, frame, net, c),
    decreases m,
{
    let chain = build_chain(v, k, frame, net, c);
    if k == m {
        reveal(Net::grows_to);
    } else {
        let before = build_chain(v, (m - 1) as nat, frame, net, c);
        lemma_chain_mono(v, k, (m - 1) as nat, frame, net, c);
        lemma_build_chain(v, (m - 1) as nat, frame, net, c);
        lemma_grows_numbers(net, before.built.net);
        if before.built.fault is None {
            let inner = frame.between(before.source, before.sink);
            let built = build(&*v[m - 1], inner, before.built.net);
            lemma_build(&*v[m - 1], inner, before.built.net);
            lemma_grows_trans(chain.built.net, before.built.net, built.net);
            if built.fault is None && m != v.len() {
                lemma_node(built.net, NodeLabel::Dummy);
                lemma_grows_trans(
                    chain.built.net,
                    built.net,
                    built.net.node(NodeLabel::Dummy),
                );
            }
        }
    }
}

/// Labels are placed one after the other.
pub proof fn lemma_labelled_mono(net: Net, names: Seq<Seq<char>>, k: nat, m: nat, source: int)
    requires
        net.ok(),
        0 <= source < net.next(),
        k <= m,
    ensures
        net.labelled(names, k, source).grows_to(net.labelled(names, m, source)),
    decreases m,
{
    if k == m {
        reveal(Net::grows_to);
    } else {
        let before = net.labelled(names, (m - 1) as nat, source);
        lemma_labelled_mono(net, names, k, (m - 1) as nat, source);
        lemma_labelled(net, names, (m - 1) as nat, source);
        lemma_grows_numbers(net, before);
        let name = names[m - 1];
        lemma_bind(before, name);
        lemma_grows_numbers(before, before.bind(name));
        lemma_edge(before.bind(name), before.joint(name), source, EdgeType::Normal);
        lemma_grows_trans(net.labelled(names, k, source), before, before.bind(name));
        lemma_grows_trans(
            net.labelled(names, k, source),
            before.bind(name),
            net.labelled(names, m, source),
        );
    }
}

/// The net that every chart starts from is fit to be drawn on.
pub proof fn lemma_blank()
    ensures
        blank().ok(),
        outermost().within(blank()),
        blank().next() == 2,
        blank().graph.edge_count() == 0,
{
    reveal(GraphView::wf);
    reveal(Net::scoped);
    let empty = GraphView::empty();
    assert(empty.wf());
    lemma_add_node(empty, NodeLabel::Begin);
    lemma_add_node(empty.add_node(NodeLabel::Begin), NodeLabel::End);
}

} // verus!
