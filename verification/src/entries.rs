//! Where the edges that a statement adds to a chart end.

use crate::additions::{
    lemma_adds_then, lemma_bind_adds, lemma_build_adds, lemma_held_same, lemma_labelled_adds,
    lemma_open_adds, lemma_switch_adds,
};
use crate::ast::{texts, Ast, AstNode};
use crate::flow::{
    blank, build, build_block, build_chain, build_node, build_switch, case_joints, case_test, draft,
    outermost, tested, Frame, Net,
};
use crate::graph::flowchart;
use crate::growth::{
    lemma_bind, lemma_blank, lemma_build, lemma_build_chain, lemma_case_joints, lemma_edge,
    lemma_grows_numbers, lemma_joints, lemma_jump_table, lemma_labelled, lemma_node,
    lemma_open_block, lemma_open_do_while, lemma_open_else, lemma_open_for, lemma_open_if,
    lemma_open_switch, lemma_open_while, lemma_tested, with_table,
};
use crate::laws::{flowchart_keeps_flow, flowchart_keeps_nodes, passing_nodes};
use crate::model::{lemma_lists, Arrow, GraphView};
use crate::node::{EdgeType, NodeLabel};
use crate::paths::lemma_both_lists;
use std::rc::Rc;
use vstd::prelude::*;

verus! {

impl Frame {
    /// Whether control may leave a statement in this frame to node `i`.
    pub open spec fn targets(self, i: int) -> bool {
        ||| i == self.sink
        ||| i == self.end
        ||| self.break_target == Some(i)
        ||| self.continue_target == Some(i)
    }
}

impl Net {
    /// Whether the edges that `later` has in addition end at new nodes, at nodes that `way` holds
    /// of or at joints of labels.
    pub open spec fn enters(self, later: Net, way: spec_fn(int) -> bool) -> bool {
        &&& later.graph.inc.len() == later.graph.nodes.len()
        &&& forall|i: int|
            0 <= i < self.next() && !way(i) && !self.held(i) ==> #[trigger] later.graph.inc[i]
                == self.graph.inc[i]
    }
}

/// Where the edges of a statement may end: at the frame's targets, and at the source if the
/// statement bears a label.
pub open spec fn ways(frame: Frame, labelled: bool) -> spec_fn(int) -> bool {
    |i: int| frame.targets(i) || (labelled && i == frame.source)
}

/// Two stretches of drawing make one.
proof fn lemma_enters_then(
    a: Net,
    b: Net,
    c: Net,
    source: int,
    first: spec_fn(int) -> bool,
    second: spec_fn(int) -> bool,
    way: spec_fn(int) -> bool,
)
    requires
        a.adds_to(b, source),
        a.enters(b, first),
        b.enters(c, second),
        forall|i: int| 0 <= i < a.next() && first(i) ==> #[trigger] way(i),
        forall|i: int| 0 <= i < a.next() && second(i) ==> #[trigger] way(i),
    ensures
        a.enters(c, way),
{
    assert forall|i: int|
        0 <= i < a.next() && !way(i) && !a.held(i) implies #[trigger] c.graph.inc[i]
        == a.graph.inc[i] by {
        assert(!b.held(i));
        assert(b.graph.inc[i] == a.graph.inc[i]);
    }
}

proof fn lemma_labelled_enters(net: Net, names: Seq<Seq<char>>, k: nat, source: int)
    requires
        net.ok(),
        0 <= source < net.next(),
    ensures
        net.enters(net.labelled(names, k, source), |i: int| k > 0 && i == source),
    decreases k,
{
    lemma_lists(net.graph);
    if k > 0 {
        let before = net.labelled(names, (k - 1) as nat, source);
        let name = names[k - 1];
        let bound = before.bind(name);
        let after = net.labelled(names, k, source);
        lemma_labelled(net, names, (k - 1) as nat, source);
        lemma_labelled_enters(net, names, (k - 1) as nat, source);
        lemma_grows_numbers(net, before);
        lemma_bind(before, name);
        lemma_lists(before.graph);
        lemma_lists(bound.graph);
        assert forall|i: int|
            0 <= i < net.next() && i != source && !net.held(i) implies #[trigger]
            after.graph.inc[i] == net.graph.inc[i] by {
            assert(before.graph.inc[i] == net.graph.inc[i]);
            assert(bound.graph.inc[i] == before.graph.inc[i]);
        }
    }
}

proof fn lemma_step_enters(n: Net, frame: Frame, text: Seq<char>, target: int)
    requires
        n.ok(),
        frame.within(n),
        0 <= target < n.next(),
    ensures
        n.enters(n.enter(frame, text), ways(frame, false)),
        frame.targets(target) ==> n.enters(n.step(frame, text, target), ways(frame, false)),
{
    lemma_lists(n.graph);
}

proof fn lemma_jump_enters(n: Net, frame: Frame, name: Seq<char>)
    requires
        n.ok(),
        frame.within(n),
    ensures
        n.enters(n.jump(frame, name), ways(frame, false)),
{
    let bound = n.bind(name);
    let after = n.jump(frame, name);
    lemma_lists(n.graph);
    lemma_bind(n, name);
    lemma_bind_adds(n, name);
    lemma_lists(bound.graph);
    assert forall|i: int|
        0 <= i < n.next() && !ways(frame, false)(i) && !n.held(i) implies #[trigger]
        after.graph.inc[i] == n.graph.inc[i] by {
        assert(bound.graph.inc[i] == n.graph.inc[i]);
    }
}

proof fn lemma_open_enters(n: Net, frame: Frame, init: Seq<char>, cond: Seq<char>, upd: Seq<char>)
    requires
        n.ok(),
        frame.within(n),
    ensures
        n.enters(n.open_block(frame), ways(frame, false)),
        n.enters(n.open_if(frame, cond), ways(frame, false)),
        n.enters(n.open_while(frame, cond), ways(frame, false)),
        n.enters(n.open_do_while(frame, cond), ways(frame, false)),
        n.enters(n.open_for(frame, init, cond, upd), ways(frame, false)),
{
    lemma_lists(n.graph);
}

proof fn lemma_joints_enters(net: Net, k: nat)
    requires
        net.ok(),
    ensures
        forall|i: int|
            0 <= i < net.next() ==> #[trigger] net.joints(k).graph.inc[i] == net.graph.inc[i],
        net.joints(k).graph.inc.len() == net.joints(k).graph.nodes.len(),
    decreases k,
{
    lemma_lists(net.graph);
    if k > 0 {
        lemma_joints(net, (k - 1) as nat);
        lemma_joints_enters(net, (k - 1) as nat);
        lemma_lists(net.joints((k - 1) as nat).graph);
    }
}

/// The tests of a switch lead to the joints of its cases and to `otherwise`.
proof fn lemma_table_enters(
    net: Net,
    cond: Seq<char>,
    names: Seq<Seq<char>>,
    k: int,
    joints: Map<Seq<char>, int>,
    otherwise: int,
    low: int,
)
    requires
        net.ok(),
        0 <= k < names.len(),
        0 <= otherwise < net.next(),
        low <= net.next(),
        forall|j: int|
            k <= j < names.len() ==> 0 <= joints[#[trigger] names[j]] < net.next()
                && joints[names[j]] >= low,
    ensures
        forall|i: int|
            0 <= i < low && i != otherwise ==> #[trigger] with_table(
                net,
                cond,
                names,
                k,
                joints,
                otherwise,
            ).graph.inc[i] == net.graph.inc[i],
    decreases names.len() - k,
{
    broadcast use {lemma_node, lemma_edge};

    let cur = net.next();
    let n1 = net.node(NodeLabel::Choice(case_test(cond, names[k])));
    let asked = n1.edge(cur, joints[names[k]], EdgeType::Branch(true));
    let full = with_table(net, cond, names, k, joints, otherwise);
    lemma_lists(net.graph);
    lemma_lists(asked.graph);
    if k + 1 < names.len() {
        let rest = with_table(asked, cond, names, k + 1, joints, otherwise);
        lemma_jump_table(asked, cond, names, k + 1, joints, otherwise);
        lemma_table_enters(asked, cond, names, k + 1, joints, otherwise, low);
        lemma_lists(rest.graph);
        assert(full == rest.edge(cur, cur + 1, EdgeType::Branch(false)));
        assert forall|i: int| 0 <= i < low && i != otherwise implies #[trigger] full.graph.inc[i]
            == net.graph.inc[i] by {
            assert(rest.graph.inc[i] == asked.graph.inc[i]);
        }
    } else {
        assert(full == asked.edge(cur, otherwise, EdgeType::Branch(false)));
    }
}

pub proof fn lemma_switch_enters(n: Net, frame: Frame, cond: Seq<char>, names: Seq<Seq<char>>)
    requires
        n.ok(),
        frame.within(n),
        tested(names).len() > 0,
    ensures
        n.enters(n.open_switch(frame, cond, names), ways(frame, false)),
        forall|i: int|
            0 <= i < n.next() && i != frame.sink ==> #[trigger] n.open_switch(
                frame,
                cond,
                names,
            ).graph.inc[i] == n.graph.inc[i],
{
    let base = n.next();
    let cases = case_joints(names, names.len(), base);
    let other = n.otherwise(frame, names);
    let n1 = n.joints(names.len());
    let after = n.open_switch(frame, cond, names);
    lemma_open_switch(n, frame, cond, names);
    lemma_joints(n, names.len());
    lemma_joints_enters(n, names.len());
    lemma_case_joints(names, names.len(), base);
    lemma_tested(names);
    if names.contains("default"@) {
        let j = names.index_of("default"@);
        assert(cases.contains_key(names[j]));
    }
    assert forall|j: int| 0 <= j < tested(names).len() implies 0 <= cases[
        #[trigger] tested(names)[j]] < n1.next() && cases[tested(names)[j]] >= base by {
        let m = names.index_of(tested(names)[j]);
        assert(cases.contains_key(names[m]));
    }
    lemma_jump_table(n1, cond, tested(names), 0, cases, other);
    lemma_table_enters(n1, cond, tested(names), 0, cases, other, base);
    let n2 = with_table(n1, cond, tested(names), 0, cases, other);
    lemma_lists(n.graph);
    lemma_lists(n2.graph);
    lemma_lists(after.graph);
    assert forall|i: int| 0 <= i < base && i != frame.sink implies #[trigger] after.graph.inc[i]
        == n.graph.inc[i] by {
        assert(n2.graph.inc[i] == n1.graph.inc[i]);
        assert(n1.graph.inc[i] == n.graph.inc[i]);
    }
}

/// The edges that drawing a statement adds, up to the first fault if there is one, end at new
/// nodes, at the frame's targets or at joints of labels; and, if the statement bears a label, at
/// the frame's source.
pub proof fn drawing_enters_targets_only(ast: &Ast, frame: Frame, net: Net)
    requires
        net.ok(),
        frame.within(net),
    ensures
        net.enters(build(ast, frame, net).net, ways(frame, ast.labels().len() > 0)),
    decreases ast, 1nat,
{
    let labels = ast.labels();
    let n = net.labelled(labels, labels.len(), frame.source);
    assert(build(ast, frame, net) == build_node(ast, frame, n));
    lemma_labelled(net, labels, labels.len(), frame.source);
    lemma_labelled_adds(net, labels, labels.len(), frame.source);
    lemma_labelled_enters(net, labels, labels.len(), frame.source);
    lemma_grows_numbers(net, n);
    lemma_node_enters(ast, frame, n);
    lemma_enters_then(
        net,
        n,
        build(ast, frame, net).net,
        -1,
        |i: int| labels.len() > 0 && i == frame.source,
        ways(frame, false),
        ways(frame, labels.len() > 0),
    );
}

/// A statement whose inner statement is drawn last.
proof fn lemma_body_enters(body: &Ast, frame: Frame, inner: Frame, n: Net, opened: Net, source: int)
    requires
        opened.ok(),
        inner.within(opened),
        n.next() <= inner.source,
        n.adds_to(opened, source),
        n.enters(opened, ways(frame, false)),
        forall|i: int| 0 <= i < n.next() && #[trigger] inner.targets(i) ==> frame.targets(i),
    ensures
        n.enters(build(body, inner, opened).net, ways(frame, false)),
    decreases body, 2nat,
{
    drawing_enters_targets_only(body, inner, opened);
    lemma_enters_then(
        n,
        opened,
        build(body, inner, opened).net,
        source,
        ways(frame, false),
        ways(inner, body.labels().len() > 0),
        ways(frame, false),
    );
}

proof fn lemma_node_enters(ast: &Ast, frame: Frame, n: Net)
    requires
        n.ok(),
        frame.within(n),
    ensures
        n.enters(build_node(ast, frame, n).net, ways(frame, false)),
    decreases ast, 0nat,
{
    let c = n.next();
    lemma_lists(n.graph);
    match &ast.node {
        AstNode::Dummy => {},
        AstNode::Compound(v) => {
            lemma_block_enters(v@, frame, n);
        },
        AstNode::Stat(s) => {
            lemma_step_enters(n, frame, s@, frame.sink);
        },
        AstNode::Continue(s) => {
            lemma_step_enters(n, frame, s@, frame.sink);
            if let Some(target) = frame.continue_target {
                lemma_step_enters(n, frame, s@, target);
            }
        },
        AstNode::Break(s) => {
            lemma_step_enters(n, frame, s@, frame.sink);
            if let Some(target) = frame.break_target {
                lemma_step_enters(n, frame, s@, target);
            }
        },
        AstNode::Return(s) => {
            lemma_step_enters(n, frame, s@, frame.end);
        },
        AstNode::If { cond, body, otherwise } => {
            let opened = n.open_if(frame, cond@);
            let inner = frame.between(c + 1, c + 2);
            let first = build(&**body, inner, opened);
            lemma_open_if(n, frame, cond@);
            lemma_open_adds(n, frame, cond@, cond@, cond@);
            lemma_open_enters(n, frame, cond@, cond@, cond@);
            lemma_build(&**body, inner, opened);
            lemma_grows_numbers(opened, first.net);
            lemma_build_adds(&**body, inner, opened);
            lemma_body_enters(&**body, frame, inner, n, opened, frame.source);
            lemma_lists(first.net.graph);
            lemma_adds_then(n, opened, first.net, frame.source, inner.source);
            match otherwise {
                Some(t) => {
                    let opened2 = first.net.open_else(c);
                    lemma_open_else(first.net, c);
                    lemma_lists(opened2.graph);
                    lemma_held_same(first.net, opened2);
                    assert(first.net.adds_to(opened2, c));
                    lemma_adds_then(n, first.net, opened2, frame.source, c);
                    assert(first.net.enters(opened2, |i: int| false));
                    lemma_enters_then(
                        n,
                        first.net,
                        opened2,
                        frame.source,
                        ways(frame, false),
                        |i: int| false,
                        ways(frame, false),
                    );
                    lemma_body_enters(
                        &**t,
                        frame,
                        frame.between(first.net.next(), c + 2),
                        n,
                        opened2,
                        frame.source,
                    );
                },
                None => {
                    let after = first.net.edge(c, frame.sink, EdgeType::Branch(false));
                    assert(first.net.enters(after, |i: int| i == frame.sink));
                    lemma_enters_then(
                        n,
                        first.net,
                        after,
                        frame.source,
                        ways(frame, false),
                        |i: int| i == frame.sink,
                        ways(frame, false),
                    );
                },
            }
        },
        AstNode::While { cond, body } => {
            lemma_open_while(n, frame, cond@);
            lemma_open_adds(n, frame, cond@, cond@, cond@);
            lemma_open_enters(n, frame, cond@, cond@, cond@);
            lemma_body_enters(
                &**body,
                frame,
                frame.looping(c + 1, c + 2, c),
                n,
                n.open_while(frame, cond@),
                frame.source,
            );
        },
        AstNode::DoWhile { cond, body } => {
            lemma_open_do_while(n, frame, cond@);
            lemma_open_adds(n, frame, cond@, cond@, cond@);
            lemma_open_enters(n, frame, cond@, cond@, cond@);
            lemma_body_enters(
                &**body,
                frame,
                frame.looping(c, c + 1, c + 2),
                n,
                n.open_do_while(frame, cond@),
                frame.source,
            );
        },
        AstNode::For { init, cond, upd, body } => {
            lemma_open_for(n, frame, init@, cond@, upd@);
            lemma_open_adds(n, frame, init@, cond@, upd@);
            lemma_open_enters(n, frame, init@, cond@, upd@);
            lemma_body_enters(
                &**body,
                frame,
                frame.looping(c, c + 1, c + 4),
                n,
                n.open_for(frame, init@, cond@, upd@),
                frame.source,
            );
        },
        AstNode::Switch { cond, body, cases } => {
            let names = texts(cases@);
            assert(build_node(ast, frame, n) == build_switch(cond@, *body, names, frame, n));
            if tested(names).len() == 0 {
                lemma_joints_enters(n, names.len());
            } else {
                let opened = n.open_switch(frame, cond@, names);
                let d = opened.next() - 2;
                lemma_open_switch(n, frame, cond@, names);
                lemma_switch_adds(n, frame, cond@, names);
                lemma_switch_enters(n, frame, cond@, names);
                lemma_body_enters(
                    &**body,
                    frame,
                    frame.switching(d, d + 1),
                    n,
                    opened,
                    frame.source,
                );
            }
        },
        AstNode::Goto(name) => {
            lemma_jump_enters(n, frame, name@);
        },
    }
}

proof fn lemma_block_enters(v: Seq<Rc<Ast>>, frame: Frame, n: Net)
    requires
        n.ok(),
        frame.within(n),
    ensures
        n.enters(build_block(v, frame, n).net, ways(frame, false)),
    decreases v, v.len() + 1,
{
    let c = n.next();
    let opened = n.open_block(frame);
    let after = build_block(v, frame, n).net;
    lemma_open_block(n, frame);
    lemma_open_adds(n, frame, Seq::empty(), Seq::empty(), Seq::empty());
    lemma_open_enters(n, frame, Seq::empty(), Seq::empty(), Seq::empty());
    lemma_lists(opened.graph);
    if v.len() == 0 {
        assert(opened.enters(after, |i: int| i == c + 1 || i == frame.sink));
        lemma_enters_then(
            n,
            opened,
            after,
            frame.source,
            ways(frame, false),
            |i: int| i == c + 1 || i == frame.sink,
            ways(frame, false),
        );
    } else {
        let chain = build_chain(v, v.len(), frame, opened, c);
        let net = chain.built.net;
        lemma_chain_enters(v, v.len(), frame, opened, c, n);
        lemma_build_chain(v, v.len(), frame, opened, c);
        lemma_lists(net.graph);
        if chain.built.fault is None {
            assert(net.enters(after, |i: int| i == frame.sink));
            lemma_enters_then(
                n,
                net,
                after,
                frame.source,
                ways(frame, false),
                |i: int| i == frame.sink,
                ways(frame, false),
            );
        }
    }
}

proof fn lemma_chain_enters(v: Seq<Rc<Ast>>, k: nat, frame: Frame, net: Net, c: int, n: Net)
    requires
        net.ok(),
        frame.within(net),
        n.next() <= c,
        c + 1 < net.next(),
        n.adds_to(net, frame.source),
        n.enters(net, ways(frame, false)),
    ensures
        n.adds_to(build_chain(v, k, frame, net, c).built.net, frame.source),
        n.enters(build_chain(v, k, frame, net, c).built.net, ways(frame, false)),
        n.next() <= build_chain(v, k, frame, net, c).source,
        n.next() <= build_chain(v, k, frame, net, c).sink,
    decreases v, k,
{
    if k > 0 && k <= v.len() {
        let before = build_chain(v, (k - 1) as nat, frame, net, c);
        lemma_chain_enters(v, (k - 1) as nat, frame, net, c, n);
        lemma_build_chain(v, (k - 1) as nat, frame, net, c);
        lemma_grows_numbers(net, before.built.net);
        if before.built.fault is None {
            let inner = frame.between(before.source, before.sink);
            let built = build(&*v[k - 1], inner, before.built.net);
            lemma_build(&*v[k - 1], inner, before.built.net);
            lemma_grows_numbers(before.built.net, built.net);
            lemma_build_adds(&*v[k - 1], inner, before.built.net);
            lemma_body_enters(
                &*v[k - 1],
                frame,
                inner,
                n,
                before.built.net,
                frame.source,
            );
            lemma_adds_then(n, before.built.net, built.net, frame.source, inner.source);
            if built.fault is None && k != v.len() {
                let after = built.net.node(NodeLabel::Dummy);
                lemma_node(built.net, NodeLabel::Dummy);
                lemma_lists(built.net.graph);
                lemma_held_same(built.net, after);
                assert(built.net.adds_to(after, built.net.next()));
                lemma_adds_then(n, built.net, after, frame.source, built.net.next());
                assert(built.net.enters(after, |i: int| false));
                lemma_enters_then(
                    n,
                    built.net,
                    after,
                    frame.source,
                    ways(frame, false),
                    |i: int| false,
                    ways(frame, false),
                );
            }
        }
    }
}

/// No edge enters `Begin` in the flowchart of a tree that does not bear a label.
pub proof fn nothing_enters_begin(ast: &Ast)
    requires
        ast.labels().len() == 0,
    ensures
        flowchart(ast) matches Ok(chart) ==> chart.inc[0].len() == 0,
{
    if let Ok(chart) = flowchart(ast) {
        let drawn = draft(ast).net.graph;
        lemma_blank();
        lemma_build(ast, outermost(), blank());
        drawing_enters_targets_only(ast, outermost(), blank());
        assert(!blank().held(0));
        assert(drawn.inc[0] == blank().graph.inc[0]);
        flowchart_keeps_nodes(ast);
        if chart.inc[0].len() > 0 {
            reveal(GraphView::wf);
            let arrow = chart.inc[0][0];
            let a = arrow.node;
            assert(chart.live(a));
            assert(arrow == Arrow { node: a, kind: arrow.kind });
            lemma_both_lists(chart, a, 0, arrow.kind);
            flowchart_keeps_flow(ast, a, 0, arrow.kind);
            let gone = passing_nodes(drawn);
            let v = choose|v: int| #[trigger]
                drawn.arrow(a, v, arrow.kind) && drawn.leads(gone, v, 0);
            let n = choose|n: nat| drawn.passes(gone, v, 0, n);
            assert(drawn.adjacent(a, v));
            lemma_never_entered(drawn, a, v, n);
        }
    }
}

/// Control does not come to a node that nothing leads to.
proof fn lemma_never_entered(graph: GraphView, pre: int, v: int, n: nat)
    requires
        graph.wf(),
        graph.nodes.len() > 0,
        graph.inc[0].len() == 0,
        graph.adjacent(pre, v),
    ensures
        !graph.passes(passing_nodes(graph), v, 0, n),
    decreases n,
{
    let gone = passing_nodes(graph);
    let kind = choose|kind: EdgeType| graph.arrow(pre, v, kind);
    if v == 0 {
        reveal(GraphView::wf);
        lemma_both_lists(graph, pre, 0, kind);
    }
    if n > 0 && graph.passes(gone, v, 0, n) {
        let x = choose|x: int| #[trigger]
            graph.adjacent(v, x) && graph.passes(gone, x, 0, (n - 1) as nat);
        lemma_never_entered(graph, v, x, (n - 1) as nat);
    }
}

} // verus!
