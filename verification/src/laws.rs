//! What holds of every flowchart.

use crate::additions::lemma_build_adds;
use crate::ast::Ast;
use crate::branches::{
    chains_can_be_contracted, chains_keep_kinds, contracting_keeps_kinds, kind_count, lemma_kinds,
    pruning_keeps_kinds,
};
use crate::degrees::lemma_build_degrees;
use crate::flow::{blank, build, draft, outermost, Frame, Net};
use crate::graph::{blanks, flowchart, joints};
use crate::growth::{lemma_blank, lemma_build};
use crate::model::{tail_of, Arrow, GraphView};
use crate::node::{EdgeType, NodeLabel};
use crate::paths::{contracting_keeps_flow, flow_is_edges, pruning_keeps_flow};
use crate::tidy::{
    contract, lemma_bypass, lemma_bypass_count, lemma_orphan, lemma_picked, lemma_prune_step,
    live_count, prune, Stuck,
};
use vstd::prelude::*;

verus! {

/// Whether a node with this label is only there while the chart is drawn.
pub open spec fn passing(label: NodeLabel) -> bool {
    label is Dummy || (label matches NodeLabel::Node(text) && text.len() == 0)
}

/// Pruning ends in a graph without orphaned joints, keeps the graph well formed, and removes
/// nothing but joints.
pub proof fn pruning_removes_orphans(graph: GraphView)
    requires
        graph.wf(),
    ensures
        prune(graph).wf(),
        prune(graph).nodes.len() == graph.nodes.len(),
        forall|i: int| !#[trigger] prune(graph).orphan(i),
        forall|i: int|
            0 <= i < graph.nodes.len() ==> (#[trigger] prune(graph).nodes[i] == graph.nodes[i] || (
            prune(graph).nodes[i] is None && graph.nodes[i] == Some(NodeLabel::Dummy))),
    decreases live_count(graph.nodes),
{
    lemma_orphan(graph);
    lemma_prune_step(graph);
    if let Some(d) = graph.first_orphan() {
        pruning_removes_orphans(graph.remove_node(d));
    }
}

/// Taking nodes out succeeds only when none is left, keeps the graph well formed, and removes the
/// picked nodes and no others.
pub proof fn contracting_removes_picked(graph: GraphView, pick: spec_fn(int, NodeLabel) -> bool)
    requires
        graph.wf(),
    ensures
        contract(graph, pick) matches Ok(rest) ==> {
            &&& rest.wf()
            &&& rest.nodes.len() == graph.nodes.len()
            &&& forall|i: int| !#[trigger] rest.picked(pick, i)
            &&& forall|i: int|
                0 <= i < graph.nodes.len() ==> #[trigger] rest.nodes[i] == if graph.picked(
                    pick,
                    i,
                ) {
                    None
                } else {
                    graph.nodes[i]
                }
        },
    decreases live_count(graph.nodes),
{
    lemma_picked(graph, pick);
    if let Some(d) = graph.first_picked(pick) {
        if graph.out[d].len() == 1 {
            lemma_bypass(graph, d);
            lemma_bypass_count(graph, d);
            contracting_removes_picked(graph.bypass(d), pick);
            if let Ok(rest) = contract(graph, pick) {
                assert forall|i: int| 0 <= i < graph.nodes.len() implies #[trigger] rest.nodes[i]
                    == if graph.picked(pick, i) {
                    None
                } else {
                    graph.nodes[i]
                } by {
                    assert(i != d ==> graph.bypass(d).picked(pick, i) == graph.picked(pick, i));
                    assert(!graph.bypass(d).picked(pick, d));
                }
            }
        }
    }
}

/// Where taking nodes out fails, it does so at the first node that is still to be taken out, which
/// does not have exactly one edge that leaves it. Up to then nothing has been removed but nodes
/// that had to be.
pub proof fn contracting_stops_at_first_picked(
    graph: GraphView,
    pick: spec_fn(int, NodeLabel) -> bool,
)
    requires
        graph.wf(),
    ensures
        contract(graph, pick) matches Err(stuck) ==> {
            &&& stuck.graph.wf()
            &&& stuck.graph.nodes.len() == graph.nodes.len()
            &&& stuck.graph.picked(pick, stuck.node)
            &&& stuck.graph.out[stuck.node].len() != 1
            &&& forall|i: int| 0 <= i < stuck.node ==> !#[trigger] stuck.graph.picked(pick, i)
            &&& forall|i: int|
                0 <= i < graph.nodes.len() ==> #[trigger] stuck.graph.nodes[i] == graph.nodes[i] || (
                graph.picked(pick, i) && stuck.graph.nodes[i] is None && i < stuck.node)
        },
    decreases live_count(graph.nodes),
{
    lemma_picked(graph, pick);
    if let Some(d) = graph.first_picked(pick) {
        if graph.out[d].len() == 1 {
            lemma_bypass(graph, d);
            lemma_bypass_count(graph, d);
            contracting_stops_at_first_picked(graph.bypass(d), pick);
            if let Err(stuck) = contract(graph, pick) {
                let next = graph.bypass(d);
                assert forall|i: int| 0 <= i < graph.nodes.len() implies #[trigger]
                    stuck.graph.nodes[i] == graph.nodes[i] || (graph.picked(pick, i)
                    && stuck.graph.nodes[i] is None && i < stuck.node) by {
                    if i != d {
                        assert(next.nodes[i] == graph.nodes[i]);
                    } else {
                        assert(next.nodes[d] is None);
                        assert(stuck.graph.nodes[d] is None);
                        assert(graph.picked(pick, stuck.node)) by {
                            assert(stuck.graph.nodes[stuck.node] == next.nodes[stuck.node]);
                        }
                    }
                }
            }
        }
    }
}

/// Simplifying a graph that is simple already changes nothing.
pub proof fn simplifying_is_idempotent(graph: GraphView, pick: spec_fn(int, NodeLabel) -> bool)
    requires
        graph.wf(),
    ensures
        prune(prune(graph)) == prune(graph),
        contract(graph, pick) matches Ok(rest) ==> contract(rest, pick) == Ok::<GraphView, Stuck>(
            rest,
        ),
{
    pruning_removes_orphans(graph);
    lemma_orphan(prune(graph));
    contracting_removes_picked(graph, pick);
    if let Ok(rest) = contract(graph, pick) {
        lemma_picked(rest, pick);
    }
}

/// A flowchart has the nodes of the draft, under their numbers, but for the joints and the
/// statements without text; so it has none of these, `Begin` is node 0 and `End` is node 1.
pub proof fn flowchart_keeps_nodes(ast: &Ast)
    ensures
        flowchart(ast) matches Ok(chart) ==> {
            &&& chart.wf()
            &&& chart.nodes.len() == draft(ast).net.graph.nodes.len()
            &&& forall|i: int|
                0 <= i < chart.nodes.len() ==> #[trigger] chart.nodes[i] == (
                match draft(ast).net.graph.nodes[i] {
                    Some(label) => if passing(label) {
                        None
                    } else {
                        Some(label)
                    },
                    None => None,
                })
            &&& chart.nodes.len() >= 2
            &&& chart.nodes[0] == Some(NodeLabel::Begin)
            &&& chart.nodes[1] == Some(NodeLabel::End)
        },
{
    lemma_blank();
    lemma_build(ast, outermost(), blank());
    reveal(Net::grows_to);
    let drawn = draft(ast).net.graph;
    assert(drawn.nodes[0] == blank().graph.nodes[0]);
    assert(drawn.nodes[1] == blank().graph.nodes[1]);
    pruning_removes_orphans(drawn);
    let pruned = prune(drawn);
    contracting_removes_picked(pruned, joints());
    if let Ok(graph) = contract(pruned, joints()) {
        contracting_removes_picked(graph, blanks());
        if let Ok(chart) = contract(graph, blanks()) {
            assert forall|i: int| 0 <= i < chart.nodes.len() implies #[trigger] chart.nodes[i] == (
            match drawn.nodes[i] {
                Some(label) => if passing(label) {
                    None
                } else {
                    Some(label)
                },
                None => None,
            }) by {
                assert(pruned.nodes[i] == drawn.nodes[i] || pruned.nodes[i] is None);
            }
        }
    }
}

/// The nodes of a graph that are only there while the chart is drawn.
pub open spec fn passing_nodes(graph: GraphView) -> spec_fn(int) -> bool {
    |i: int| graph.live(i) && passing(graph.nodes[i]->0)
}

/// A flowchart has an edge exactly where, in the draft, control that leaves a node that stays by
/// an edge of that kind comes next to another node that stays, through joints and statements
/// without text only.
pub proof fn flowchart_keeps_flow(ast: &Ast, u: int, w: int, kind: EdgeType)
    ensures
        flowchart(ast) matches Ok(chart) ==> (chart.arrow(u, w, kind) <==> draft(
            ast,
        ).net.graph.flows(passing_nodes(draft(ast).net.graph), u, w, kind)),
{
    lemma_blank();
    lemma_build(ast, outermost(), blank());
    let drawn = draft(ast).net.graph;
    let gone = passing_nodes(drawn);
    let pruned = prune(drawn);
    pruning_removes_orphans(drawn);
    contracting_removes_picked(pruned, joints());
    if let Ok(graph) = contract(pruned, joints()) {
        contracting_removes_picked(graph, blanks());
        if let Ok(chart) = contract(graph, blanks()) {
            pruning_keeps_flow(drawn, gone, u, w, kind);
            assert forall|i: int| #[trigger] pruned.picked(joints(), i) implies gone(i) by {
                assert(pruned.nodes[i] == drawn.nodes[i]);
            }
            contracting_keeps_flow(pruned, joints(), gone, u, w, kind);
            assert forall|i: int| #[trigger] graph.picked(blanks(), i) implies gone(i) by {
                assert(graph.nodes[i] == pruned.nodes[i]);
                assert(pruned.nodes[i] == drawn.nodes[i]);
            }
            contracting_keeps_flow(graph, blanks(), gone, u, w, kind);
            flowchart_keeps_nodes(ast);
            flow_is_edges(chart, gone, u, w, kind);
        }
    }
}

/// In a draft one normal edge leaves each statement and `Begin`, one edge per answer leaves each
/// condition, and none leaves `End`.
pub proof fn draft_is_regular(ast: &Ast)
    requires
        draft(ast).fault is None,
    ensures
        forall|i: int|
            2 <= i < draft(ast).net.graph.nodes.len() ==> #[trigger] draft(ast).net.graph.regular(
                i,
            ),
        draft(ast).net.graph.out[0].len() == 1,
        draft(ast).net.graph.out[0][0].kind == EdgeType::Normal,
        draft(ast).net.graph.out[1].len() == 0,
{
    lemma_blank();
    reveal(Net::jointed);
    lemma_build_degrees(ast, outermost(), blank());
    let drawn = draft(ast).net.graph;
    assert(drawn.out[1] == blank().graph.out[1]);
    assert(drawn.regular_from(2));
}

/// In a flowchart at most one edge leaves each statement and `Begin`, and it is a normal one; at
/// most one edge per answer and no normal one leaves each condition; and none leaves `End`.
pub proof fn flowchart_is_regular(ast: &Ast, u: int)
    ensures
        flowchart(ast) matches Ok(chart) ==> chart.live(u) ==> match chart.nodes[u] {
            Some(NodeLabel::Choice(_)) => {
                &&& kind_count(chart.out[u], EdgeType::Normal) == 0
                &&& kind_count(chart.out[u], EdgeType::Branch(true)) <= 1
                &&& kind_count(chart.out[u], EdgeType::Branch(false)) <= 1
            },
            Some(NodeLabel::End) => chart.out[u].len() == 0,
            _ => {
                &&& chart.out[u].len() <= 1
                &&& kind_count(chart.out[u], EdgeType::Normal) == chart.out[u].len()
            },
        },
{
    if let Ok(chart) = flowchart(ast) {
        if chart.live(u) {
            let drawn = draft(ast).net.graph;
            flowchart_keeps_nodes(ast);
            draft_is_regular(ast);
            flowchart_keeps_kinds(ast, u, EdgeType::Normal);
            flowchart_keeps_kinds(ast, u, EdgeType::Branch(true));
            flowchart_keeps_kinds(ast, u, EdgeType::Branch(false));
            lemma_kinds(chart.out[u]);
            lemma_kinds(drawn.out[u]);
            assert(u >= 2 ==> drawn.regular(u));
            lemma_regular_kinds(drawn.out[u]);
        }
    }
}

/// The kinds in lists of one and of two arrows.
proof fn lemma_regular_kinds(list: Seq<Arrow>)
    ensures
        list.len() == 1 ==> kind_count(list, list[0].kind) == 1,
        list.len() == 2 && list[0].kind != list[1].kind ==> kind_count(list, list[0].kind) == 1
            && kind_count(list, list[1].kind) == 1,
{
    reveal_with_fuel(kind_count, 3);
    if list.len() == 2 {
        assert(list.drop_last().last() == list[0]);
    }
}

/// Of each kind, no more edges leave a node of a flowchart than leave it in the draft.
pub proof fn flowchart_keeps_kinds(ast: &Ast, u: int, kind: EdgeType)
    ensures
        flowchart(ast) matches Ok(chart) ==> chart.live(u) ==> kind_count(chart.out[u], kind)
            <= kind_count(draft(ast).net.graph.out[u], kind),
{
    lemma_blank();
    lemma_build(ast, outermost(), blank());
    let drawn = draft(ast).net.graph;
    let pruned = prune(drawn);
    pruning_removes_orphans(drawn);
    contracting_removes_picked(pruned, joints());
    if let Ok(graph) = contract(pruned, joints()) {
        contracting_removes_picked(graph, blanks());
        if let Ok(chart) = contract(graph, blanks()) {
            if chart.live(u) {
                assert(chart.nodes[u] == graph.nodes[u]);
                assert(graph.nodes[u] == pruned.nodes[u]);
                pruning_keeps_kinds(drawn, u, kind);
                contracting_keeps_kinds(pruned, joints(), u, kind);
                contracting_keeps_kinds(graph, blanks(), u, kind);
            }
        }
    }
}

/// A tree without faults has a flowchart if, in its pruned draft, exactly one edge leaves each
/// joint and each statement without text, and these nodes form no cycle of their own.
pub proof fn flowchart_exists(ast: &Ast, rank: spec_fn(int) -> nat)
    requires
        draft(ast).fault is None,
        prune(draft(ast).net.graph).chained(|i: int, label: NodeLabel| passing(label), rank),
    ensures
        flowchart(ast) is Ok,
{
    lemma_blank();
    lemma_build(ast, outermost(), blank());
    let drawn = draft(ast).net.graph;
    let pruned = prune(drawn);
    let all = |i: int, label: NodeLabel| passing(label);
    pruning_removes_orphans(drawn);
    chains_can_be_contracted(pruned, joints(), all, rank);
    contracting_removes_picked(pruned, joints());
    chains_can_be_contracted(contract(pruned, joints())->Ok_0, blanks(), all, rank);
}

/// Whether one normal edge leaves node `u` if it is a statement or `Begin`, one edge per answer if
/// it is a condition, and none if it is `End`.
pub open spec fn complete(chart: GraphView, u: int) -> bool {
    match chart.nodes[u] {
        Some(NodeLabel::Choice(_)) => {
            &&& chart.out[u].len() == 2
            &&& kind_count(chart.out[u], EdgeType::Branch(true)) == 1
            &&& kind_count(chart.out[u], EdgeType::Branch(false)) == 1
        },
        Some(NodeLabel::End) => chart.out[u].len() == 0,
        _ => chart.out[u].len() == 1 && kind_count(chart.out[u], EdgeType::Normal) == 1,
    }
}

/// Under the same conditions the flowchart loses no edge: one leaves each statement and `Begin`,
/// one per answer leaves each condition, and none leaves `End`.
pub proof fn flowchart_is_complete(ast: &Ast, rank: spec_fn(int) -> nat, u: int)
    requires
        draft(ast).fault is None,
        prune(draft(ast).net.graph).chained(|i: int, label: NodeLabel| passing(label), rank),
    ensures
        flowchart(ast) matches Ok(chart) && (chart.live(u) ==> complete(chart, u)),
{
    flowchart_exists(ast, rank);
    lemma_blank();
    lemma_build(ast, outermost(), blank());
    let drawn = draft(ast).net.graph;
    let pruned = prune(drawn);
    let all = |i: int, label: NodeLabel| passing(label);
    let graph = contract(pruned, joints())->Ok_0;
    let chart = contract(graph, blanks())->Ok_0;
    pruning_removes_orphans(drawn);
    contracting_removes_picked(pruned, joints());
    contracting_removes_picked(graph, blanks());
    chains_can_be_contracted(pruned, joints(), all, rank);
    if chart.live(u) {
        assert(chart.nodes[u] == graph.nodes[u]);
        assert(graph.nodes[u] == pruned.nodes[u]);
        assert(pruned.nodes[u] == drawn.nodes[u]);
        assert forall|kind: EdgeType| #[trigger] kind_count(chart.out[u], kind) == kind_count(
            drawn.out[u],
            kind,
        ) by {
            pruning_keeps_kinds(drawn, u, kind);
            chains_keep_kinds(pruned, joints(), all, rank, u, kind);
            chains_keep_kinds(graph, blanks(), all, rank, u, kind);
        }
        lemma_kinds(chart.out[u]);
        lemma_kinds(drawn.out[u]);
        lemma_regular_kinds(drawn.out[u]);
        flowchart_keeps_nodes(ast);
        draft_is_regular(ast);
        assert(u >= 2 ==> drawn.regular(u));
    }
}

/// Drawing a statement, up to its first fault if there is one, removes nothing: nodes keep their
/// numbers and their texts, edges their ends, their kinds and their order, and labels in the
/// outermost scope their joints. Every new edge starts at a new node, at the frame's source or at
/// the joint of a label. Once the statement is drawn, the scopes of the switches around it are as
/// before.
pub proof fn drawing_only_adds(ast: &Ast, frame: Frame, net: Net)
    requires
        net.ok(),
        frame.within(net),
    ensures
        build(ast, frame, net).net.ok(),
        net.grows_to(build(ast, frame, net).net),
        net.adds_to(build(ast, frame, net).net, frame.source),
        build(ast, frame, net).fault is None ==> net.same_scopes(build(ast, frame, net).net),
{
    lemma_build(ast, frame, net);
    lemma_build_adds(ast, frame, net);
}

/// A drawn statement, whatever its kind, adds exactly one edge from its frame's source, a normal
/// one, and none from the frame's sink and from where `return`, `break` and `continue` jump to;
/// but for joints of labels.
pub proof fn drawing_leaves_source_once(ast: &Ast, frame: Frame, net: Net)
    requires
        net.ok(),
        frame.within(net),
        build(ast, frame, net).fault is None,
    ensures
        ({
            let after = build(ast, frame, net).net.graph;
            let quiet = |t: int|
                t != frame.source && !net.held(t) ==> after.out[t] == net.graph.out[t];
            &&& !net.held(frame.source) ==> {
                &&& after.out[frame.source].len() == net.graph.out[frame.source].len() + 1
                &&& after.out[frame.source][0].kind == EdgeType::Normal
                &&& tail_of(net.graph.out[frame.source], after.out[frame.source])
            }
            &&& quiet(frame.sink)
            &&& quiet(frame.end)
            &&& frame.break_target matches Some(t) ==> quiet(t)
            &&& frame.continue_target matches Some(t) ==> quiet(t)
        }),
{
    lemma_build(ast, frame, net);
    lemma_build_adds(ast, frame, net);
    reveal(Net::grows_to);
}

} // verus!
