//! Programs without jumps and switches: their flowcharts exist, add up and come to an end.

use crate::additions::{lemma_build_adds, lemma_held_same};
use crate::ast::{Ast, AstNode};
use crate::counting::{conditions, statements};
use crate::degrees::lemma_build_degrees;
use crate::descent::{depth, slope_build};
use crate::flow::{
    blank, build, build_block, build_chain, build_node, draft, lookup, outermost, Frame, Net,
};
use crate::graph::flowchart;
use crate::growth::{
    lemma_bind, lemma_blank, lemma_build, lemma_build_chain, lemma_edge, lemma_grows_numbers,
    lemma_labelled, lemma_node, lemma_open_block, lemma_open_do_while, lemma_open_else,
    lemma_open_for, lemma_open_if, lemma_open_while,
};
use crate::laws::{complete, flowchart_keeps_flow, flowchart_keeps_nodes, passing, passing_nodes};
use crate::limits::fault_of;
use crate::model::{lemma_lists, Arrow, GraphView};
use crate::node::{EdgeType, NodeLabel};
use crate::paths::{lemma_arrow_live, lemma_both_lists, lemma_first_arrow};
use crate::structured::{structured, structured_chain, structured_trees_have_flowcharts};
use crate::tidy::live_count;
use std::rc::Rc;
use vstd::prelude::*;

verus! {

/// Whether a tree is made without jumps and switches. It may have labels.
pub open spec fn plain(ast: &Ast) -> bool
    decreases ast, 0nat,
{
    match &ast.node {
        AstNode::Compound(v) => plain_chain(v@, v@.len()),
        AstNode::If { cond, body, otherwise } => plain(&**body) && match otherwise {
            Some(t) => plain(&**t),
            None => true,
        },
        AstNode::While { cond, body } => plain(&**body),
        AstNode::DoWhile { cond, body } => plain(&**body),
        AstNode::For { init, cond, upd, body } => plain(&**body),
        AstNode::Switch { cond, body, cases } => false,
        AstNode::Goto(_) => false,
        _ => true,
    }
}

/// Whether the first `k` statements of a block are so made.
pub open spec fn plain_chain(v: Seq<Rc<Ast>>, k: nat) -> bool
    decreases v, k,
{
    k == 0 || k > v.len() || (plain_chain(v, (k - 1) as nat) && plain(&*v[k - 1]))
}

impl Net {
    /// Whether no edge enters the joint of a label, and only joints of labels lead to node 0.
    #[verifier::opaque]
    pub open spec fn tame(self) -> bool {
        &&& self.scopes.len() == 1
        &&& forall|i: int| #[trigger] self.held(i) ==> self.graph.inc[i].len() == 0
        &&& forall|j: int|
            0 <= j < self.graph.inc[0].len() ==> self.held((#[trigger] self.graph.inc[0][j]).node)
    }

    /// Whether `i` is a node that edges may go to.
    pub open spec fn open_to(self, i: int) -> bool {
        i != 0 && !self.held(i)
    }
}

impl Frame {
    /// Whether the frame's targets are nodes that edges may go to.
    pub open spec fn clear(self, net: Net) -> bool {
        &&& !net.held(self.source)
        &&& net.open_to(self.sink)
        &&& net.open_to(self.end)
        &&& self.break_target matches Some(t) ==> net.open_to(t)
        &&& self.continue_target matches Some(t) ==> net.open_to(t)
    }
}

/// The joint of a label is a node.
pub proof fn lemma_held(net: Net)
    requires
        net.scoped(),
    ensures
        forall|i: int| #[trigger] net.held(i) ==> 0 <= i < net.next(),
{
    reveal(Net::scoped);
}

broadcast proof fn lemma_held_node(net: Net, label: NodeLabel, i: int)
    ensures
        #[trigger] net.node(label).held(i) == net.held(i),
{
    lemma_held_same(net, net.node(label));
}

broadcast proof fn lemma_held_edge(net: Net, a: int, b: int, kind: EdgeType, i: int)
    ensures
        #[trigger] net.edge(a, b, kind).held(i) == net.held(i),
{
    lemma_held_same(net, net.edge(a, b, kind));
}

broadcast proof fn lemma_node_tame(net: Net, label: NodeLabel)
    requires
        net.ok(),
        net.next() > 0,
        net.tame(),
    ensures
        #[trigger] net.node(label).tame(),
        !net.node(label).held(net.next()),
{
    broadcast use lemma_held_node;

    reveal(Net::tame);
    lemma_lists(net.graph);
    lemma_held(net);
}

broadcast proof fn lemma_edge_tame(net: Net, a: int, b: int, kind: EdgeType)
    requires
        net.ok(),
        0 <= a < net.next(),
        0 <= b < net.next(),
        net.tame(),
        !net.held(b),
        b != 0 || net.held(a),
    ensures
        #[trigger] net.edge(a, b, kind).tame(),
{
    broadcast use lemma_held_edge;

    reveal(Net::tame);
    lemma_lists(net.graph);
    lemma_held(net);
    let after = net.edge(a, b, kind);
    assert forall|j: int| 0 <= j < after.graph.inc[0].len() implies after.held(
        (#[trigger] after.graph.inc[0][j]).node,
    ) by {
        if b == 0 {
            if j > 0 {
                assert(after.graph.inc[0][j] == net.graph.inc[0][j - 1]);
            }
        } else {
            assert(after.graph.inc[0][j] == net.graph.inc[0][j]);
        }
    }
}

proof fn lemma_bind_tame(net: Net, name: Seq<char>)
    requires
        net.ok(),
        net.next() > 0,
        net.tame(),
    ensures
        net.bind(name).tame(),
        net.bind(name).held(net.joint(name)),
        forall|i: int| 0 <= i < net.next() ==> #[trigger] net.bind(name).held(i) == net.held(i),
{
    reveal(Net::tame);
    let after = net.bind(name);
    lemma_lists(net.graph);
    lemma_held(net);
    lemma_bind(net, name);
    assert(net.scopes.drop_last() =~= Seq::empty());
    assert(lookup(net.scopes.drop_last(), name) is None);
    if lookup(net.scopes, name) is Some {
        assert(net.scopes[0].contains_key(name));
    } else {
        assert(after.scopes[0].contains_key(name));
        assert forall|i: int| #[trigger] after.held(i) implies net.held(i) || i == net.next() by {
            let (s, k) = choose|s: int, k: Seq<char>|
                0 <= s < after.scopes.len() && #[trigger] after.scopes[s].contains_key(k)
                    && after.scopes[s][k] == i;
            if k != name {
                assert(net.scopes[s].contains_key(k));
            }
        }
        assert forall|i: int| #[trigger] net.held(i) implies after.held(i) by {
            let (s, k) = choose|s: int, k: Seq<char>|
                0 <= s < net.scopes.len() && #[trigger] net.scopes[s].contains_key(k)
                    && net.scopes[s][k] == i;
            assert(after.scopes[s].contains_key(k));
        }
        assert forall|j: int| 0 <= j < after.graph.inc[0].len() implies after.held(
            (#[trigger] after.graph.inc[0][j]).node,
        ) by {
            assert(after.graph.inc[0][j] == net.graph.inc[0][j]);
        }
    }
}

proof fn lemma_labelled_tame(net: Net, names: Seq<Seq<char>>, k: nat, source: int)
    requires
        net.ok(),
        0 <= source < net.next(),
        net.tame(),
        !net.held(source),
    ensures
        net.labelled(names, k, source).tame(),
        forall|i: int|
            0 <= i < net.next() ==> #[trigger] net.labelled(names, k, source).held(i) == net.held(i),
        forall|i: int|
            net.next() <= i < net.labelled(names, k, source).next() ==> #[trigger] net.labelled(
                names,
                k,
                source,
            ).held(i),
    decreases k,
{
    broadcast use lemma_held_edge;

    if k > 0 {
        let before = net.labelled(names, (k - 1) as nat, source);
        let name = names[k - 1];
        let bound = before.bind(name);
        let joint = before.joint(name);
        let after = net.labelled(names, k, source);
        lemma_labelled(net, names, (k - 1) as nat, source);
        lemma_labelled_tame(net, names, (k - 1) as nat, source);
        lemma_grows_numbers(net, before);
        lemma_bind(before, name);
        lemma_bind_tame(before, name);
        lemma_edge_tame(bound, joint, source, EdgeType::Normal);
        assert(after == bound.edge(joint, source, EdgeType::Normal));
        assert forall|i: int| 0 <= i < net.next() implies #[trigger] after.held(i) == net.held(
            i,
        ) by {
            assert(before.held(i) == net.held(i));
            assert(bound.held(i) == before.held(i));
        }
        assert forall|i: int| net.next() <= i < after.next() implies #[trigger] after.held(i) by {
            if i < before.next() {
                assert(before.held(i));
                assert(bound.held(i));
            }
        }
    }
}

/// The starts of statements keep a net tame.
proof fn lemma_open_tame(n: Net, frame: Frame, init: Seq<char>, cond: Seq<char>, upd: Seq<char>)
    requires
        n.ok(),
        frame.within(n),
        n.tame(),
        frame.clear(n),
    ensures
        n.open_block(frame).tame(),
        n.open_if(frame, cond).tame(),
        n.open_while(frame, cond).tame(),
        n.open_do_while(frame, cond).tame(),
        n.open_for(frame, init, cond, upd).tame(),
        forall|i: int| #[trigger] n.open_block(frame).held(i) == n.held(i),
        forall|i: int| #[trigger] n.open_if(frame, cond).held(i) == n.held(i),
        forall|i: int| #[trigger] n.open_while(frame, cond).held(i) == n.held(i),
        forall|i: int| #[trigger] n.open_do_while(frame, cond).held(i) == n.held(i),
        forall|i: int| #[trigger] n.open_for(frame, init, cond, upd).held(i) == n.held(i),
{
    broadcast use {
        lemma_node,
        lemma_edge,
        lemma_node_tame,
        lemma_edge_tame,
        lemma_held_node,
        lemma_held_edge,
    };

    lemma_held(n);
    lemma_held_same(n, n.open_block(frame));
    lemma_held_same(n, n.open_if(frame, cond));
    lemma_held_same(n, n.open_while(frame, cond));
    lemma_held_same(n, n.open_do_while(frame, cond));
    lemma_held_same(n, n.open_for(frame, init, cond, upd));
}

proof fn lemma_step_tame(n: Net, frame: Frame, text: Seq<char>, target: int)
    requires
        n.ok(),
        frame.within(n),
        n.tame(),
        0 <= target < n.next(),
        n.open_to(target),
    ensures
        n.step(frame, text, target).tame(),
{
    broadcast use {
        lemma_node,
        lemma_edge,
        lemma_node_tame,
        lemma_edge_tame,
        lemma_held_node,
        lemma_held_edge,
    };

    lemma_held(n);
}

/// What edges may go to stays so.
proof fn lemma_clear_kept(frame: Frame, n: Net, after: Net, source: int)
    requires
        frame.within(n),
        frame.clear(n),
        n.adds_to(after, source),
    ensures
        frame.clear(after),
{
}

/// Drawing a tree without jumps and switches keeps a net tame.
proof fn lemma_build_tame(ast: &Ast, frame: Frame, net: Net)
    requires
        plain(ast),
        net.ok(),
        frame.within(net),
        net.tame(),
        frame.clear(net),
        build(ast, frame, net).fault is None,
    ensures
        build(ast, frame, net).net.tame(),
    decreases ast, 1nat,
{
    broadcast use {
        lemma_node,
        lemma_edge,
        lemma_node_tame,
        lemma_edge_tame,
        lemma_held_node,
        lemma_held_edge,
    };

    let n = net.labelled(ast.labels(), ast.labels().len(), frame.source);
    let c = n.next();
    assert(build(ast, frame, net) == build_node(ast, frame, n));
    lemma_labelled(net, ast.labels(), ast.labels().len(), frame.source);
    lemma_labelled_tame(net, ast.labels(), ast.labels().len(), frame.source);
    lemma_grows_numbers(net, n);
    lemma_held(n);
    assert(frame.clear(n));
    match &ast.node {
        AstNode::Compound(v) => {
            assert(build_node(ast, frame, n) == build_block(v@, frame, n));
            let opened = n.open_block(frame);
            lemma_open_block(n, frame);
            lemma_open_tame(n, frame, Seq::empty(), Seq::empty(), Seq::empty());
            assert(frame.clear(opened));
            lemma_chain_tame(v@, v@.len(), frame, opened, c);
            lemma_build_chain(v@, v@.len(), frame, opened, c);
            lemma_grows_numbers(opened, build_chain(v@, v@.len(), frame, opened, c).built.net);
        },
        AstNode::Stat(s) => {
            lemma_step_tame(n, frame, s@, frame.sink);
        },
        AstNode::Continue(s) => {
            lemma_step_tame(n, frame, s@, frame.continue_target->0);
        },
        AstNode::Break(s) => {
            lemma_step_tame(n, frame, s@, frame.break_target->0);
        },
        AstNode::Return(s) => {
            lemma_step_tame(n, frame, s@, frame.end);
        },
        AstNode::If { cond, body, otherwise } => {
            let opened = n.open_if(frame, cond@);
            let inner = frame.between(c + 1, c + 2);
            let first = build(&**body, inner, opened).net;
            lemma_open_if(n, frame, cond@);
            lemma_open_tame(n, frame, cond@, cond@, cond@);
            lemma_build(&**body, inner, opened);
            lemma_grows_numbers(opened, first);
            lemma_build_adds(&**body, inner, opened);
            lemma_build_tame(&**body, inner, opened);
            assert(inner.clear(first));
            assert(frame.clear(opened));
            lemma_clear_kept(frame, opened, first, inner.source);
            match otherwise {
                Some(t) => {
                    lemma_open_else(first, c);
                    lemma_held(first);
                    let inner2 = frame.between(first.next(), c + 2);
                    assert(inner2.clear(first.open_else(c)));
                    lemma_build_tame(&**t, inner2, first.open_else(c));
                },
                None => {},
            }
        },
        AstNode::While { cond, body } => {
            let opened = n.open_while(frame, cond@);
            let inner = frame.looping(c + 1, c + 2, c);
            lemma_open_while(n, frame, cond@);
            lemma_open_tame(n, frame, cond@, cond@, cond@);
            assert(inner.clear(opened));
            lemma_build_tame(&**body, inner, opened);
        },
        AstNode::DoWhile { cond, body } => {
            let opened = n.open_do_while(frame, cond@);
            let inner = frame.looping(c, c + 1, c + 2);
            lemma_open_do_while(n, frame, cond@);
            lemma_open_tame(n, frame, cond@, cond@, cond@);
            assert(inner.clear(opened));
            lemma_build_tame(&**body, inner, opened);
        },
        AstNode::For { init, cond, upd, body } => {
            let opened = n.open_for(frame, init@, cond@, upd@);
            let inner = frame.looping(c, c + 1, c + 4);
            lemma_open_for(n, frame, init@, cond@, upd@);
            lemma_open_tame(n, frame, init@, cond@, upd@);
            assert(inner.clear(opened));
            lemma_build_tame(&**body, inner, opened);
        },
        _ => {},
    }
}

proof fn lemma_chain_tame(v: Seq<Rc<Ast>>, k: nat, frame: Frame, net: Net, c: int)
    requires
        plain_chain(v, k),
        net.ok(),
        frame.within(net),
        0 < c,
        c + 1 < net.next(),
        !net.held(c),
        !net.held(c + 1),
        net.tame(),
        frame.clear(net),
        build_chain(v, k, frame, net, c).built.fault is None,
    ensures
        build_chain(v, k, frame, net, c).built.net.tame(),
        frame.clear(build_chain(v, k, frame, net, c).built.net),
        build_chain(v, k, frame, net, c).built.net.open_to(build_chain(v, k, frame, net, c).source),
        build_chain(v, k, frame, net, c).built.net.open_to(build_chain(v, k, frame, net, c).sink),
    decreases v, k,
{
    broadcast use {lemma_node, lemma_node_tame, lemma_held_node};

    if k > 0 && k <= v.len() {
        let before = build_chain(v, (k - 1) as nat, frame, net, c);
        let inner = frame.between(before.source, before.sink);
        let ast = &*v[k - 1];
        let after = build(ast, inner, before.built.net).net;
        lemma_chain_tame(v, (k - 1) as nat, frame, net, c);
        lemma_build_chain(v, (k - 1) as nat, frame, net, c);
        lemma_grows_numbers(net, before.built.net);
        lemma_build(ast, inner, before.built.net);
        lemma_grows_numbers(before.built.net, after);
        lemma_build_adds(ast, inner, before.built.net);
        lemma_build_tame(ast, inner, before.built.net);
        lemma_clear_kept(frame, before.built.net, after, inner.source);
        lemma_clear_kept(inner, before.built.net, after, inner.source);
        lemma_held(after);
        assert(after.node(NodeLabel::Dummy).held(after.next()) == after.held(after.next()));
    }
}

/// What a fault-free plain tree's draft is like: heights from which every node but `End` and the
/// joints of labels leads downwards.
proof fn lemma_draft_slopes(ast: &Ast) -> (height: spec_fn(int) -> nat)
    requires
        plain(ast),
        draft(ast).fault is None,
    ensures
        draft(ast).net.ok(),
        draft(ast).net.tame(),
        draft(ast).net.jointed(),
        draft(ast).net.next() >= 2,
        draft(ast).net.graph.nodes[0] == Some(NodeLabel::Begin),
        draft(ast).net.graph.nodes[1] == Some(NodeLabel::End),
        !draft(ast).net.held(0),
        forall|i: int|
            0 <= i < draft(ast).net.next() && i != 1 && !draft(ast).net.held(i)
                ==> #[trigger] draft(ast).net.graph.slopes(height, i),
{
    let net = draft(ast).net;
    let top = depth(ast) + 1;
    let old = |i: int|
        if i == 0 {
            top
        } else {
            0
        };
    lemma_blank();
    lemma_build(ast, outermost(), blank());
    lemma_build_adds(ast, outermost(), blank());
    reveal(Net::jointed);
    lemma_build_degrees(ast, outermost(), blank());
    assert(forall|i: int| !#[trigger] blank().held(i));
    assert(blank().tame()) by {
        reveal(Net::tame);
    }
    lemma_build_tame(ast, outermost(), blank());
    let height = slope_build(ast, outermost(), blank(), old, 0);
    assert(net.graph.nodes[0] == blank().graph.nodes[0]);
    assert(net.graph.nodes[1] == blank().graph.nodes[1]);
    height
}

/// A joint of a label is an orphaned joint.
proof fn lemma_held_orphan(net: Net, i: int)
    requires
        net.tame(),
        net.jointed(),
        net.held(i),
    ensures
        net.graph.orphan(i),
{
    reveal(Net::tame);
    reveal(Net::jointed);
    let (s, name) = choose|s: int, name: Seq<char>|
        0 <= s < net.scopes.len() && #[trigger] net.scopes[s].contains_key(name)
            && net.scopes[s][name] == i;
    assert(net.scopes[s].contains_key(name));
}

/// A tree without jumps and switches has a flowchart exactly if it has no fault, that is no
/// placeholder and no `break` or `continue` outside of a loop. In the flowchart one edge leaves
/// each statement and `Begin`, one per answer leaves each condition, and none leaves `End`; and it
/// has as many nodes and edges as these make: one node for each statement and condition and two
/// more, and one edge for each statement, two for each condition and one more.
pub proof fn plain_trees_have_flowcharts(ast: &Ast)
    requires
        plain(ast),
    ensures
        flowchart(ast) is Ok <==> fault_of(ast, false, false) is None,
        flowchart(ast) matches Ok(chart) ==> {
            &&& forall|u: int| #[trigger] chart.live(u) ==> complete(chart, u)
            &&& live_count(chart.nodes) == 2 + statements(chart.nodes) + conditions(chart.nodes)
            &&& chart.edge_count() == 1 + statements(chart.nodes) + 2 * conditions(chart.nodes)
        },
{
    plain_trees_are_structured(ast);
    structured_trees_have_flowcharts(ast);
}

/// A tree without jumps and switches is structured.
pub proof fn plain_trees_are_structured(ast: &Ast)
    requires
        plain(ast),
    ensures
        structured(ast),
    decreases ast, 0nat,
{
    match &ast.node {
        AstNode::Compound(v) => {
            lemma_plain_chain(v@, v@.len());
        },
        AstNode::If { cond, body, otherwise } => {
            plain_trees_are_structured(&**body);
            if let Some(t) = otherwise {
                plain_trees_are_structured(&**t);
            }
        },
        AstNode::While { cond, body } => {
            plain_trees_are_structured(&**body);
        },
        AstNode::DoWhile { cond, body } => {
            plain_trees_are_structured(&**body);
        },
        AstNode::For { init, cond, upd, body } => {
            plain_trees_are_structured(&**body);
        },
        _ => {},
    }
}

proof fn lemma_plain_chain(v: Seq<Rc<Ast>>, k: nat)
    requires
        plain_chain(v, k),
    ensures
        structured_chain(v, k),
    decreases v, k,
{
    if k > 0 && k <= v.len() {
        lemma_plain_chain(v, (k - 1) as nat);
        plain_trees_are_structured(&*v[k - 1]);
    }
}

impl GraphView {
    /// Whether each node of a trail leads to the next one.
    pub open spec fn trail(self, nodes: Seq<int>) -> bool {
        &&& nodes.len() > 0
        &&& forall|k: int|
            0 <= k < nodes.len() - 1 ==> self.adjacent(#[trigger] nodes[k], nodes[k + 1])
    }
}

/// Control that is at a node of a draft comes down to one that stays.
proof fn lemma_comes_down(net: Net, height: spec_fn(int) -> nat, pre: int, v: int) -> (w: int)
    requires
        net.ok(),
        net.tame(),
        net.jointed(),
        net.graph.adjacent(pre, v),
        forall|i: int|
            0 <= i < net.next() && i != 1 && !net.held(i) ==> #[trigger] net.graph.slopes(
                height,
                i,
            ),
        1 < net.next(),
        net.graph.nodes[1] == Some(NodeLabel::End),
    ensures
        net.graph.leads(passing_nodes(net.graph), v, w),
        net.graph.live(w),
        !passing(net.graph.nodes[w]->0),
        height(w) <= height(v),
    decreases height(v),
{
    let graph = net.graph;
    let gone = passing_nodes(graph);
    let kind = choose|kind: EdgeType| graph.arrow(pre, v, kind);
    lemma_arrow_live(graph, pre, v, kind);
    if !gone(v) {
        assert(graph.passes(gone, v, v, 0));
        v
    } else {
        if net.held(v) {
            lemma_held_orphan(net, v);
            lemma_both_lists(graph, pre, v, kind);
        }
        assert(graph.slopes(height, v));
        let x = graph.out[v][0].node;
        lemma_lists(net.graph);
        lemma_first_arrow(graph, v);
        let w = lemma_comes_down(net, height, v, x);
        let n = choose|n: nat| graph.passes(gone, x, w, n);
        assert(graph.adjacent(v, x) && graph.passes(gone, x, w, (n + 1 - 1) as nat));
        assert(graph.passes(gone, v, w, n + 1));
        w
    }
}

/// From every node of a flowchart a trail leads to `End`.
proof fn lemma_trail(ast: &Ast, height: spec_fn(int) -> nat, u: int) -> (nodes: Seq<int>)
    requires
        plain(ast),
        draft(ast).fault is None,
        flowchart(ast) is Ok,
        flowchart(ast)->Ok_0.live(u),
        draft(ast).net.ok(),
        draft(ast).net.tame(),
        draft(ast).net.jointed(),
        draft(ast).net.next() >= 2,
        draft(ast).net.graph.nodes[1] == Some(NodeLabel::End),
        forall|i: int|
            0 <= i < draft(ast).net.next() && i != 1 && !draft(ast).net.held(i)
                ==> #[trigger] draft(ast).net.graph.slopes(height, i),
    ensures
        flowchart(ast)->Ok_0.trail(nodes),
        nodes[0] == u,
        nodes.last() == 1,
    decreases height(u),
{
    let chart = flowchart(ast)->Ok_0;
    let net = draft(ast).net;
    let graph = net.graph;
    let gone = passing_nodes(graph);
    flowchart_keeps_nodes(ast);
    if u == 1 {
        seq![1]
    } else {
        if net.held(u) {
            lemma_held_orphan(net, u);
        }
        assert(graph.slopes(height, u));
        lemma_lists(net.graph);
        lemma_first_arrow(graph, u);
        let v = graph.out[u][0].node;
        let kind = graph.out[u][0].kind;
        let w = lemma_comes_down(net, height, u, v);
        assert(graph.arrow(u, v, kind) && graph.leads(gone, v, w));
        assert(graph.flows(gone, u, w, kind));
        flowchart_keeps_flow(ast, u, w, kind);
        assert(chart.adjacent(u, w));
        let rest = lemma_trail(ast, height, w);
        let nodes = seq![u] + rest;
        assert forall|k: int| 0 <= k < nodes.len() - 1 implies chart.adjacent(
            #[trigger] nodes[k],
            nodes[k + 1],
        ) by {
            if k > 0 {
                assert(chart.adjacent(rest[k - 1], rest[k]));
            }
        }
        nodes
    }
}

/// Control that has left a node that is no joint of a label does not come to node 0.
proof fn lemma_never_back(net: Net, pre: int, v: int, n: nat)
    requires
        net.ok(),
        net.tame(),
        net.jointed(),
        net.next() > 0,
        net.graph.adjacent(pre, v),
        !net.held(pre),
    ensures
        !net.graph.passes(passing_nodes(net.graph), v, 0, n),
    decreases n,
{
    let graph = net.graph;
    let gone = passing_nodes(graph);
    let kind = choose|kind: EdgeType| graph.arrow(pre, v, kind);
    lemma_arrow_live(graph, pre, v, kind);
    lemma_both_lists(graph, pre, v, kind);
    if v == 0 {
        reveal(Net::tame);
        let j = graph.inc[0].index_of(Arrow { node: pre, kind });
        assert(net.held(graph.inc[0][j].node));
    }
    if net.held(v) {
        lemma_held_orphan(net, v);
    }
    if n > 0 && graph.passes(gone, v, 0, n) {
        let x = choose|x: int| #[trigger]
            graph.adjacent(v, x) && graph.passes(gone, x, 0, (n - 1) as nat);
        lemma_never_back(net, v, x, (n - 1) as nat);
    }
}

/// In the flowchart of a tree without jumps and switches, `End` can be reached from every node,
/// and no edge enters `Begin`.
pub proof fn plain_flowcharts_come_to_an_end(ast: &Ast, u: int)
    requires
        plain(ast),
    ensures
        flowchart(ast) matches Ok(chart) ==> {
            &&& chart.live(u) ==> exists|nodes: Seq<int>| #[trigger]
                chart.trail(nodes) && nodes[0] == u && nodes.last() == 1
            &&& chart.inc[0].len() == 0
        },
{
    if let Ok(chart) = flowchart(ast) {
        let net = draft(ast).net;
        let graph = net.graph;
        let gone = passing_nodes(graph);
        let height = lemma_draft_slopes(ast);
        if chart.live(u) {
            let nodes = lemma_trail(ast, height, u);
            assert(chart.trail(nodes));
        }
        if chart.inc[0].len() > 0 {
            flowchart_keeps_nodes(ast);
            reveal(GraphView::wf);
            let arrow = chart.inc[0][0];
            let a = arrow.node;
            assert(chart.live(a));
            assert(arrow == Arrow { node: a, kind: arrow.kind });
            lemma_both_lists(chart, a, 0, arrow.kind);
            flowchart_keeps_flow(ast, a, 0, arrow.kind);
            let v = choose|v: int| #[trigger]
                graph.arrow(a, v, arrow.kind) && graph.leads(gone, v, 0);
            let n = choose|n: nat| graph.passes(gone, v, 0, n);
            if net.held(a) {
                lemma_held_orphan(net, a);
            }
            assert(graph.adjacent(a, v));
            lemma_never_back(net, a, v, n);
        }
    }
}

} // verus!
