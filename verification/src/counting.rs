//! How many nodes and edges a graph has.

use crate::ast::Ast;
use crate::flow::draft;
use crate::graph::flowchart;
use crate::laws::{complete, draft_is_regular, flowchart_keeps_nodes};
use crate::model::{count, total, Arrow, GraphView};
use crate::node::{EdgeType, NodeLabel};
use crate::tidy::live_count;
use vstd::prelude::*;

verus! {

/// How many arrows of a list end in `b`.
pub open spec fn ends_in(list: Seq<Arrow>, b: int) -> nat
    decreases list.len(),
{
    if list.len() == 0 {
        0
    } else {
        ends_in(list.drop_last(), b) + if list.last().node == b {
            1nat
        } else {
            0nat
        }
    }
}

/// How many arrows of a list end in a number below `n`.
pub open spec fn ends_below(list: Seq<Arrow>, n: nat) -> nat
    decreases n,
{
    if n == 0 {
        0
    } else {
        ends_below(list, (n - 1) as nat) + ends_in(list, n - 1)
    }
}

/// How many arrows of all lists end in `b`.
pub open spec fn all_end_in(lists: Seq<Seq<Arrow>>, b: int) -> nat
    decreases lists.len(),
{
    if lists.len() == 0 {
        0
    } else {
        all_end_in(lists.drop_last(), b) + ends_in(lists.last(), b)
    }
}

/// How many arrows of all lists end in a number below `n`.
pub open spec fn all_end_below(lists: Seq<Seq<Arrow>>, n: nat) -> nat
    decreases n,
{
    if n == 0 {
        0
    } else {
        all_end_below(lists, (n - 1) as nat) + all_end_in(lists, n - 1)
    }
}

proof fn lemma_ends_kinds(list: Seq<Arrow>, b: int)
    ensures
        ends_in(list, b) == count(list, Arrow { node: b, kind: EdgeType::Normal }) + count(
            list,
            Arrow { node: b, kind: EdgeType::Branch(true) },
        ) + count(list, Arrow { node: b, kind: EdgeType::Branch(false) }),
    decreases list.len(),
{
    if list.len() > 0 {
        lemma_ends_kinds(list.drop_last(), b);
        match list.last().kind {
            EdgeType::Normal => {},
            EdgeType::Branch(answer) => {
                if answer {
                } else {
                }
            },
        }
    }
}

/// The last arrow of a list ends somewhere.
proof fn lemma_ends_below_step(list: Seq<Arrow>, n: nat)
    requires
        list.len() > 0,
        0 <= list.last().node,
    ensures
        ends_below(list, n) == ends_below(list.drop_last(), n) + if list.last().node < n {
            1nat
        } else {
            0nat
        },
    decreases n,
{
    if n > 0 {
        lemma_ends_below_step(list, (n - 1) as nat);
    }
}

proof fn lemma_ends_below(list: Seq<Arrow>, n: nat)
    requires
        forall|j: int| 0 <= j < list.len() ==> 0 <= (#[trigger] list[j]).node < n,
    ensures
        ends_below(list, n) == list.len(),
    decreases list.len(),
{
    if list.len() == 0 {
        lemma_ends_below_empty(list, n);
    } else {
        assert(0 <= list[list.len() - 1].node < n);
        assert forall|j: int| 0 <= j < list.drop_last().len() implies 0 <= (
        #[trigger] list.drop_last()[j]).node < n by {
            assert(0 <= list[j].node < n);
        }
        lemma_ends_below(list.drop_last(), n);
        lemma_ends_below_step(list, n);
    }
}

proof fn lemma_ends_below_empty(list: Seq<Arrow>, n: nat)
    requires
        list.len() == 0,
    ensures
        ends_below(list, n) == 0,
    decreases n,
{
    if n > 0 {
        lemma_ends_below_empty(list, (n - 1) as nat);
    }
}

proof fn lemma_all_below_step(lists: Seq<Seq<Arrow>>, n: nat)
    requires
        lists.len() > 0,
    ensures
        all_end_below(lists, n) == all_end_below(lists.drop_last(), n) + ends_below(
            lists.last(),
            n,
        ),
    decreases n,
{
    if n > 0 {
        lemma_all_below_step(lists, (n - 1) as nat);
    }
}

proof fn lemma_all_below(lists: Seq<Seq<Arrow>>, n: nat)
    requires
        forall|i: int, j: int|
            0 <= i < lists.len() && 0 <= j < lists[i].len() ==> 0 <= (#[trigger] lists[i][j]).node
                < n,
    ensures
        all_end_below(lists, n) == total(lists),
    decreases lists.len(),
{
    if lists.len() == 0 {
        lemma_all_below_empty(lists, n);
    } else {
        let rest = lists.drop_last();
        let last = lists.last();
        assert forall|i: int, j: int| 0 <= i < rest.len() && 0 <= j < rest[i].len() implies 0 <= (
        #[trigger] rest[i][j]).node < n by {
            assert(0 <= lists[i][j].node < n);
        }
        assert forall|j: int| 0 <= j < last.len() implies 0 <= (#[trigger] last[j]).node < n by {
            assert(0 <= lists[lists.len() - 1][j].node < n);
        }
        lemma_all_below(rest, n);
        lemma_ends_below(last, n);
        lemma_all_below_step(lists, n);
    }
}

proof fn lemma_all_below_empty(lists: Seq<Seq<Arrow>>, n: nat)
    requires
        lists.len() == 0,
    ensures
        all_end_below(lists, n) == 0,
    decreases n,
{
    if n > 0 {
        lemma_all_below_empty(lists, (n - 1) as nat);
    }
}

/// As many edges enter a node as end in it.
proof fn lemma_column(graph: GraphView, b: int, k: nat)
    requires
        graph.wf(),
        0 <= b < graph.nodes.len(),
        k <= graph.nodes.len(),
    ensures
        all_end_in(graph.out.take(k as int), b) == ends_below(graph.inc[b], k),
    decreases k,
{
    reveal(GraphView::wf);
    if k > 0 {
        lemma_column(graph, b, (k - 1) as nat);
        let a = k - 1;
        let lists = graph.out.take(k as int);
        assert(lists.drop_last() =~= graph.out.take(a));
        assert(lists.last() == graph.out[a]);
        lemma_ends_kinds(graph.out[a], b);
        lemma_ends_kinds(graph.inc[b], a);
        assert(forall|kind: EdgeType| #[trigger]
            count(graph.out[a], Arrow { node: b, kind }) == count(
                graph.inc[b],
                Arrow { node: a, kind },
            ));
    }
}

proof fn lemma_columns(graph: GraphView, m: nat)
    requires
        graph.wf(),
        m <= graph.nodes.len(),
    ensures
        all_end_below(graph.out, m) == total(graph.inc.take(m as int)),
    decreases m,
{
    reveal(GraphView::wf);
    if m > 0 {
        let b = m - 1;
        let n = graph.nodes.len();
        lemma_columns(graph, (m - 1) as nat);
        lemma_column(graph, b, n);
        assert(graph.out.take(n as int) =~= graph.out);
        assert forall|j: int| 0 <= j < graph.inc[b].len() implies 0 <= (
        #[trigger] graph.inc[b][j]).node < n by {
            assert(graph.live(graph.inc[b][j].node));
        }
        lemma_ends_below(graph.inc[b], n);
        assert(graph.inc.take(m as int).drop_last() =~= graph.inc.take(b));
        assert(graph.inc.take(m as int).last() == graph.inc[b]);
    }
}

/// Every edge leaves one node and enters one: both ways of counting edges agree.
pub proof fn edges_leave_and_enter(graph: GraphView)
    requires
        graph.wf(),
    ensures
        total(graph.out) == graph.edge_count(),
{
    reveal(GraphView::wf);
    let n = graph.nodes.len();
    assert forall|i: int, j: int|
        0 <= i < graph.out.len() && 0 <= j < graph.out[i].len() implies 0 <= (
    #[trigger] graph.out[i][j]).node < n by {
        assert(graph.live(graph.out[i][j].node));
    }
    lemma_all_below(graph.out, n);
    lemma_columns(graph, n);
    assert(graph.inc.take(n as int) =~= graph.inc);
}

/// How many nodes are statements.
pub open spec fn statements(nodes: Seq<Option<NodeLabel>>) -> nat
    decreases nodes.len(),
{
    if nodes.len() == 0 {
        0
    } else {
        statements(nodes.drop_last()) + if nodes.last() matches Some(NodeLabel::Node(_)) {
            1nat
        } else {
            0nat
        }
    }
}

/// How many nodes are conditions.
pub open spec fn conditions(nodes: Seq<Option<NodeLabel>>) -> nat
    decreases nodes.len(),
{
    if nodes.len() == 0 {
        0
    } else {
        conditions(nodes.drop_last()) + if nodes.last() matches Some(NodeLabel::Choice(_)) {
            1nat
        } else {
            0nat
        }
    }
}

/// The numbers of nodes and edges among the first `k` nodes.
proof fn lemma_totals(chart: GraphView, k: nat)
    requires
        chart.out.len() == chart.nodes.len(),
        2 <= k <= chart.nodes.len(),
        chart.nodes[0] == Some(NodeLabel::Begin),
        chart.nodes[1] == Some(NodeLabel::End),
        chart.out[0].len() == 1,
        chart.out[1].len() == 0,
        forall|i: int|
            2 <= i < chart.nodes.len() ==> (match #[trigger] chart.nodes[i] {
                Some(NodeLabel::Node(_)) => chart.out[i].len() == 1,
                Some(NodeLabel::Choice(_)) => chart.out[i].len() == 2,
                Some(_) => false,
                None => chart.out[i].len() == 0,
            }),
    ensures
        live_count(chart.nodes.take(k as int)) == 2 + statements(chart.nodes.take(k as int))
            + conditions(chart.nodes.take(k as int)),
        total(chart.out.take(k as int)) == 1 + statements(chart.nodes.take(k as int)) + 2
            * conditions(chart.nodes.take(k as int)),
    decreases k,
{
    let nodes = chart.nodes.take(k as int);
    let lists = chart.out.take(k as int);
    assert(nodes.drop_last() =~= chart.nodes.take(k - 1));
    assert(lists.drop_last() =~= chart.out.take(k - 1));
    assert(nodes.last() == chart.nodes[k - 1]);
    assert(lists.last() == chart.out[k - 1]);
    if k == 2 {
        let first = chart.nodes.take(1);
        let lone = chart.out.take(1);
        assert(first.drop_last() =~= Seq::empty());
        assert(lone.drop_last() =~= Seq::empty());
        assert(first.last() == chart.nodes[0]);
        assert(lone.last() == chart.out[0]);
        assert(live_count(first.drop_last()) == 0);
        assert(statements(first.drop_last()) == 0);
        assert(conditions(first.drop_last()) == 0);
        assert(total(lone.drop_last()) == 0);
        assert(live_count(first) == 1 && statements(first) == 0 && conditions(first) == 0);
        assert(total(lone) == 1);
        assert(live_count(nodes) == 2);
        assert(statements(nodes) == 0 && conditions(nodes) == 0);
    } else {
        lemma_totals(chart, (k - 1) as nat);
        let slot = chart.nodes[k - 1];
        assert(live_count(nodes) == live_count(nodes.drop_last()) + if slot is Some {
            1nat
        } else {
            0nat
        });
    }
}

/// A graph in which one edge leaves `Begin` and each statement, and two leave each condition, has
/// one node for each statement and each condition and two more, and one edge for each statement,
/// two for each condition and one more.
pub proof fn complete_graphs_add_up(chart: GraphView)
    requires
        chart.wf(),
        2 <= chart.nodes.len(),
        chart.nodes[0] == Some(NodeLabel::Begin),
        chart.nodes[1] == Some(NodeLabel::End),
        chart.out[0].len() == 1,
        chart.out[1].len() == 0,
        forall|i: int|
            2 <= i < chart.nodes.len() ==> (match #[trigger] chart.nodes[i] {
                Some(NodeLabel::Node(_)) => chart.out[i].len() == 1,
                Some(NodeLabel::Choice(_)) => chart.out[i].len() == 2,
                Some(_) => false,
                None => chart.out[i].len() == 0,
            }),
    ensures
        live_count(chart.nodes) == 2 + statements(chart.nodes) + conditions(chart.nodes),
        chart.edge_count() == 1 + statements(chart.nodes) + 2 * conditions(chart.nodes),
{
    reveal(GraphView::wf);
    let n = chart.nodes.len();
    lemma_totals(chart, n);
    edges_leave_and_enter(chart);
    assert(chart.nodes.take(n as int) =~= chart.nodes);
    assert(chart.out.take(n as int) =~= chart.out);
}

/// A flowchart that loses no edge has one node for each statement and condition and two more, and
/// one edge for each statement, two for each condition and one more.
pub proof fn complete_flowcharts_add_up(ast: &Ast)
    requires
        flowchart(ast) matches Ok(chart) && forall|u: int| #[trigger]
            chart.live(u) ==> complete(chart, u),
    ensures
        flowchart(ast) matches Ok(chart) && {
            &&& live_count(chart.nodes) == 2 + statements(chart.nodes) + conditions(chart.nodes)
            &&& chart.edge_count() == 1 + statements(chart.nodes) + 2 * conditions(chart.nodes)
        },
{
    let chart = flowchart(ast)->Ok_0;
    flowchart_keeps_nodes(ast);
    draft_is_regular(ast);
    assert(chart.live(0) && chart.live(1));
    assert(complete(chart, 0) && complete(chart, 1));
    assert forall|i: int| 2 <= i < chart.nodes.len() implies (match #[trigger] chart.nodes[i] {
        Some(NodeLabel::Node(_)) => chart.out[i].len() == 1,
        Some(NodeLabel::Choice(_)) => chart.out[i].len() == 2,
        Some(_) => false,
        None => chart.out[i].len() == 0,
    }) by {
        assert(draft(ast).net.graph.regular(i));
        if chart.live(i) {
            assert(complete(chart, i));
        } else {
            reveal(GraphView::wf);
            if chart.out[i].len() > 0 {
                assert(chart.live(chart.out[i][0].node));
            }
        }
    }
    complete_graphs_add_up(chart);
}

} // verus!
