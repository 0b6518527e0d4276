//! What stands in a flowchart: the texts of the program, each as often as it occurs there.

use crate::ast::{texts, Ast, AstNode};
use crate::flow::{
    blank, build, build_block, build_chain, build_node, build_switch, case_joints, case_test, draft,
    jump_table, outermost, tested, Frame, Net,
};
use crate::graph::flowchart;
use crate::laws::{flowchart_keeps_nodes, passing};
use crate::model::GraphView;
use crate::node::{EdgeType, NodeLabel};
use std::rc::Rc;
use vstd::prelude::*;

verus! {

/// 1 for equal labels, else 0.
pub open spec fn one(a: NodeLabel, b: NodeLabel) -> nat {
    if a == b {
        1
    } else {
        0
    }
}

/// How many slots hold a label.
pub open spec fn shows(nodes: Seq<Option<NodeLabel>>, label: NodeLabel) -> nat
    decreases nodes.len(),
{
    if nodes.len() == 0 {
        0
    } else {
        shows(nodes.drop_last(), label) + match nodes.last() {
            Some(last) => one(last, label),
            None => 0,
        }
    }
}

/// How often a label is called for by a tree: as `Node`s by the texts of its statements and of
/// what its `for` loops start and go on with, as `Choice`s by its conditions and by the tests of
/// its switches, one for each case but `default`.
pub open spec fn calls_for(ast: &Ast, label: NodeLabel) -> nat
    decreases ast, 0nat,
{
    match &ast.node {
        AstNode::Dummy => 0,
        AstNode::Compound(v) => chain_calls_for(v@, v@.len(), label),
        AstNode::Stat(s) => one(NodeLabel::Node(s@), label),
        AstNode::Continue(s) => one(NodeLabel::Node(s@), label),
        AstNode::Break(s) => one(NodeLabel::Node(s@), label),
        AstNode::Return(s) => one(NodeLabel::Node(s@), label),
        AstNode::If { cond, body, otherwise } => one(NodeLabel::Choice(cond@), label) + calls_for(
            &**body,
            label,
        ) + match otherwise {
            Some(t) => calls_for(&**t, label),
            None => 0,
        },
        AstNode::While { cond, body } => one(NodeLabel::Choice(cond@), label) + calls_for(
            &**body,
            label,
        ),
        AstNode::DoWhile { cond, body } => one(NodeLabel::Choice(cond@), label) + calls_for(
            &**body,
            label,
        ),
        AstNode::For { init, cond, upd, body } => one(NodeLabel::Node(init@), label) + one(
            NodeLabel::Choice(cond@),
            label,
        ) + one(NodeLabel::Node(upd@), label) + calls_for(&**body, label),
        AstNode::Switch { cond, body, cases } => tests_call_for(
            cond@,
            texts(cases@).filter(|name: Seq<char>| name != "default"@),
            0,
            label,
        ) + calls_for(&**body, label),
        AstNode::Goto(_) => 0,
    }
}

/// How often a label is called for by the first `k` statements of a block.
pub open spec fn chain_calls_for(v: Seq<Rc<Ast>>, k: nat, label: NodeLabel) -> nat
    decreases v, k,
{
    if k == 0 || k > v.len() {
        0
    } else {
        chain_calls_for(v, (k - 1) as nat, label) + calls_for(&*v[k - 1], label)
    }
}

/// How often a label is called for by the tests from the `k`th on.
pub open spec fn tests_call_for(
    cond: Seq<char>,
    names: Seq<Seq<char>>,
    k: int,
    label: NodeLabel,
) -> nat
    decreases names.len() - k,
{
    if k >= names.len() {
        0
    } else {
        one(NodeLabel::Choice(cond + " == "@ + names[k]), label) + tests_call_for(
            cond,
            names,
            k + 1,
            label,
        )
    }
}

broadcast proof fn lemma_shows_push(
    nodes: Seq<Option<NodeLabel>>,
    slot: Option<NodeLabel>,
    label: NodeLabel,
)
    ensures
        #[trigger] shows(nodes.push(slot), label) == shows(nodes, label) + match slot {
            Some(last) => one(last, label),
            None => 0,
        },
{
    assert(nodes.push(slot).drop_last() =~= nodes);
}

/// Slots that agree on a label show it equally often.
proof fn lemma_shows_same(
    a: Seq<Option<NodeLabel>>,
    b: Seq<Option<NodeLabel>>,
    label: NodeLabel,
)
    requires
        a.len() == b.len(),
        forall|i: int|
            0 <= i < a.len() ==> (#[trigger] a[i] == Some(label) <==> b[i] == Some(label)),
    ensures
        shows(a, label) == shows(b, label),
    decreases a.len(),
{
    if a.len() > 0 {
        assert forall|i: int| 0 <= i < a.drop_last().len() implies (#[trigger] a.drop_last()[i]
            == Some(label) <==> b.drop_last()[i] == Some(label)) by {
            assert(a[i] == Some(label) <==> b[i] == Some(label));
        }
        lemma_shows_same(a.drop_last(), b.drop_last(), label);
        assert(a[a.len() - 1] == Some(label) <==> b[a.len() - 1] == Some(label));
    }
}

proof fn lemma_labels_show(
    net: Net,
    names: Seq<Seq<char>>,
    k: nat,
    source: int,
    label: NodeLabel,
)
    requires
        !passing(label),
    ensures
        shows(net.labelled(names, k, source).graph.nodes, label) == shows(net.graph.nodes, label),
    decreases k,
{
    broadcast use lemma_shows_push;

    if k > 0 {
        lemma_labels_show(net, names, (k - 1) as nat, source, label);
    }
}

proof fn lemma_joints_show(net: Net, k: nat, label: NodeLabel)
    requires
        !passing(label),
    ensures
        shows(net.joints(k).graph.nodes, label) == shows(net.graph.nodes, label),
    decreases k,
{
    broadcast use lemma_shows_push;

    if k > 0 {
        lemma_joints_show(net, (k - 1) as nat, label);
    }
}

proof fn lemma_tests_show(
    graph: GraphView,
    cond: Seq<char>,
    names: Seq<Seq<char>>,
    k: int,
    joints: Map<Seq<char>, int>,
    otherwise: int,
    label: NodeLabel,
)
    requires
        0 <= k < names.len(),
    ensures
        shows(jump_table(graph, cond, names, k, joints, otherwise).nodes, label) == shows(
            graph.nodes,
            label,
        ) + tests_call_for(cond, names, k, label),
    decreases names.len() - k,
{
    broadcast use lemma_shows_push;

    let cur = graph.nodes.len() as int;
    let asked = graph.add_node(NodeLabel::Choice(case_test(cond, names[k]))).add_edge(
        cur,
        joints[names[k]],
        EdgeType::Branch(true),
    );
    assert(tests_call_for(cond, names, names.len() as int, label) == 0);
    if k + 1 < names.len() {
        lemma_tests_show(asked, cond, names, k + 1, joints, otherwise, label);
    }
}

/// A drawn statement adds the labels that it calls for.
pub proof fn drawing_shows_texts(ast: &Ast, frame: Frame, net: Net, label: NodeLabel)
    requires
        !passing(label),
        build(ast, frame, net).fault is None,
    ensures
        shows(build(ast, frame, net).net.graph.nodes, label) == shows(net.graph.nodes, label)
            + calls_for(ast, label),
    decreases ast, 0nat,
{
    broadcast use lemma_shows_push;

    let n = net.labelled(ast.labels(), ast.labels().len(), frame.source);
    let c = n.next();
    lemma_labels_show(net, ast.labels(), ast.labels().len(), frame.source, label);
    assert(build(ast, frame, net) == build_node(ast, frame, n));
    match &ast.node {
        AstNode::Compound(v) => {
            assert(build_node(ast, frame, n) == build_block(v@, frame, n));
            lemma_chain_shows(v@, v@.len(), frame, n.open_block(frame), c, label);
        },
        AstNode::If { cond, body, otherwise } => {
            let inner = frame.between(c + 1, c + 2);
            let opened = n.open_if(frame, cond@);
            drawing_shows_texts(&**body, inner, opened, label);
            let first = build(&**body, inner, opened);
            match otherwise {
                Some(t) => {
                    drawing_shows_texts(
                        &**t,
                        frame.between(first.net.next(), c + 2),
                        first.net.open_else(c),
                        label,
                    );
                },
                None => {},
            }
        },
        AstNode::While { cond, body } => {
            drawing_shows_texts(
                &**body,
                frame.looping(c + 1, c + 2, c),
                n.open_while(frame, cond@),
                label,
            );
        },
        AstNode::DoWhile { cond, body } => {
            drawing_shows_texts(
                &**body,
                frame.looping(c, c + 1, c + 2),
                n.open_do_while(frame, cond@),
                label,
            );
        },
        AstNode::For { init, cond, upd, body } => {
            drawing_shows_texts(
                &**body,
                frame.looping(c, c + 1, c + 4),
                n.open_for(frame, init@, cond@, upd@),
                label,
            );
        },
        AstNode::Switch { cond, body, cases } => {
            let names = texts(cases@);
            let opened = n.open_switch(frame, cond@, names);
            let d = opened.next() - 2;
            assert(build_node(ast, frame, n) == build_switch(cond@, *body, names, frame, n));
            lemma_joints_show(n, names.len(), label);
            lemma_tests_show(
                n.joints(names.len()).graph,
                cond@,
                tested(names),
                0,
                case_joints(names, names.len(), n.next()),
                n.otherwise(frame, names),
                label,
            );
            drawing_shows_texts(&**body, frame.switching(d, d + 1), opened, label);
        },
        _ => {},
    }
}

proof fn lemma_chain_shows(
    v: Seq<Rc<Ast>>,
    k: nat,
    frame: Frame,
    net: Net,
    c: int,
    label: NodeLabel,
)
    requires
        !passing(label),
        build_chain(v, k, frame, net, c).built.fault is None,
    ensures
        shows(build_chain(v, k, frame, net, c).built.net.graph.nodes, label) == shows(
            net.graph.nodes,
            label,
        ) + chain_calls_for(v, k, label),
    decreases v, k,
{
    broadcast use lemma_shows_push;

    if k > 0 && k <= v.len() {
        let before = build_chain(v, (k - 1) as nat, frame, net, c);
        lemma_chain_shows(v, (k - 1) as nat, frame, net, c, label);
        drawing_shows_texts(
            &*v[k - 1],
            frame.between(before.source, before.sink),
            before.built.net,
            label,
        );
    }
}

/// No statement calls for `Begin` or `End`.
proof fn lemma_ends_uncalled(ast: &Ast, label: NodeLabel)
    requires
        label is Begin || label is End,
    ensures
        calls_for(ast, label) == 0,
    decreases ast, 0nat,
{
    match &ast.node {
        AstNode::Compound(v) => {
            lemma_ends_uncalled_among(v@, v@.len(), label);
        },
        AstNode::If { cond, body, otherwise } => {
            lemma_ends_uncalled(&**body, label);
            if let Some(t) = otherwise {
                lemma_ends_uncalled(&**t, label);
            }
        },
        AstNode::While { cond, body } => {
            lemma_ends_uncalled(&**body, label);
        },
        AstNode::DoWhile { cond, body } => {
            lemma_ends_uncalled(&**body, label);
        },
        AstNode::For { init, cond, upd, body } => {
            lemma_ends_uncalled(&**body, label);
        },
        AstNode::Switch { cond, body, cases } => {
            lemma_ends_uncalled(&**body, label);
            lemma_tests_uncalled(cond@, tested(texts(cases@)), 0, label);
        },
        _ => {},
    }
}

proof fn lemma_ends_uncalled_among(v: Seq<Rc<Ast>>, k: nat, label: NodeLabel)
    requires
        label is Begin || label is End,
    ensures
        chain_calls_for(v, k, label) == 0,
    decreases v, k,
{
    if k > 0 && k <= v.len() {
        lemma_ends_uncalled_among(v, (k - 1) as nat, label);
        lemma_ends_uncalled(&*v[k - 1], label);
    }
}

proof fn lemma_tests_uncalled(cond: Seq<char>, names: Seq<Seq<char>>, k: int, label: NodeLabel)
    requires
        label is Begin || label is End,
    ensures
        tests_call_for(cond, names, k, label) == 0,
    decreases names.len() - k,
{
    if k < names.len() {
        lemma_tests_uncalled(cond, names, k + 1, label);
    }
}

/// A flowchart shows `Begin` and `End` once each, and every statement with text and every
/// condition as often as the tree calls for it: nothing is dropped, merged or made up.
pub proof fn flowchart_shows_texts(ast: &Ast, label: NodeLabel)
    ensures
        flowchart(ast) matches Ok(chart) ==> shows(chart.nodes, label) == match label {
            NodeLabel::Dummy => 0,
            NodeLabel::Begin => 1,
            NodeLabel::End => 1,
            NodeLabel::Node(text) => if text.len() == 0 {
                0
            } else {
                calls_for(ast, label)
            },
            NodeLabel::Choice(_) => calls_for(ast, label),
        },
{
    broadcast use lemma_shows_push;

    if let Ok(chart) = flowchart(ast) {
        flowchart_keeps_nodes(ast);
        if passing(label) {
            let none = Seq::new(chart.nodes.len(), |i: int| None::<NodeLabel>);
            lemma_shows_same(chart.nodes, none, label);
            lemma_shows_none(none, label);
        } else {
            lemma_shows_same(chart.nodes, draft(ast).net.graph.nodes, label);
            drawing_shows_texts(ast, outermost(), blank(), label);
            if label is Begin || label is End {
                lemma_ends_uncalled(ast, label);
            }
            assert(shows(Seq::<Option<NodeLabel>>::empty(), label) == 0);
        }
    }
}

proof fn lemma_shows_none(nodes: Seq<Option<NodeLabel>>, label: NodeLabel)
    requires
        forall|i: int| 0 <= i < nodes.len() ==> (#[trigger] nodes[i]) is None,
    ensures
        shows(nodes, label) == 0,
    decreases nodes.len(),
{
    if nodes.len() > 0 {
        lemma_shows_none(nodes.drop_last(), label);
    }
}

} // verus!
