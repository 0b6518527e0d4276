//! A directed graph as mathematics: numbered slots and two lists of arrows per slot.

use crate::node::{EdgeType, NodeLabel};
use vstd::prelude::*;

verus! {

/// One end of an edge as it is seen from the other end.
pub struct Arrow {
    pub node: int,
    pub kind: EdgeType,
}

/// A directed multigraph whose node numbers never change.
#[verifier::ext_equal]
pub struct GraphView {
    /// The label of each node; a removed node leaves `None` behind.
    pub nodes: Seq<Option<NodeLabel>>,
    /// For each node the edges that leave it, the newest first.
    pub out: Seq<Seq<Arrow>>,
    /// For each node the edges that enter it, the newest first.
    pub inc: Seq<Seq<Arrow>>,
}

impl GraphView {
    /// The graph without nodes.
    pub open spec fn empty() -> GraphView {
        GraphView { nodes: Seq::empty(), out: Seq::empty(), inc: Seq::empty() }
    }

    /// Whether `i` is the number of a node.
    pub open spec fn live(self, i: int) -> bool {
        0 <= i < self.nodes.len() && self.nodes[i] is Some
    }

    /// Where the edges that leave `i` go, the newest first.
    pub open spec fn successors(self, i: int) -> Seq<int> {
        self.out[i].map_values(|arrow: Arrow| arrow.node)
    }

    /// The graph with one more node, which gets the next number.
    pub open spec fn add_node(self, label: NodeLabel) -> GraphView {
        GraphView {
            nodes: self.nodes.push(Some(label)),
            out: self.out.push(Seq::empty()),
            inc: self.inc.push(Seq::empty()),
        }
    }

    /// The graph with one more edge, from `a` to `b`.
    pub open spec fn add_edge(self, a: int, b: int, kind: EdgeType) -> GraphView {
        GraphView {
            nodes: self.nodes,
            out: self.out.update(a, seq![Arrow { node: b, kind }] + self.out[a]),
            inc: self.inc.update(b, seq![Arrow { node: a, kind }] + self.inc[b]),
        }
    }

    /// The graph without node `d` and without the edges that touch it.
    pub open spec fn remove_node(self, d: int) -> GraphView {
        GraphView {
            nodes: self.nodes.update(d, None),
            out: lists_without(self.out, d),
            inc: lists_without(self.inc, d),
        }
    }
}

impl GraphView {
    /// Whether no node was ever removed.
    pub open spec fn full(self) -> bool {
        forall|i: int| 0 <= i < self.nodes.len() ==> (#[trigger] self.nodes[i]) is Some
    }

    /// The number of edges.
    pub open spec fn edge_count(self) -> nat {
        total(self.inc)
    }

    /// Whether the two lists of each slot tell of the same edges, all of them between nodes.
    #[verifier::opaque]
    pub open spec fn wf(self) -> bool {
        &&& self.out.len() == self.nodes.len()
        &&& self.inc.len() == self.nodes.len()
        &&& forall|i: int, j: int|
            0 <= i < self.out.len() && 0 <= j < self.out[i].len() ==> self.live(i) && self.live(
                (#[trigger] self.out[i][j]).node,
            )
        &&& forall|i: int, j: int|
            0 <= i < self.inc.len() && 0 <= j < self.inc[i].len() ==> self.live(i) && self.live(
                (#[trigger] self.inc[i][j]).node,
            )
        &&& forall|a: int, b: int, kind: EdgeType|
            0 <= a < self.nodes.len() && 0 <= b < self.nodes.len() ==> #[trigger] count(
                self.out[a],
                Arrow { node: b, kind },
            ) == #[trigger] count(self.inc[b], Arrow { node: a, kind })
    }
}

/// A graph has two lists for each slot.
pub proof fn lemma_lists(graph: GraphView)
    requires
        graph.wf(),
    ensures
        graph.out.len() == graph.nodes.len(),
        graph.inc.len() == graph.nodes.len(),
{
    reveal(GraphView::wf);
}

/// Whether `later` ends in `list`: it is the same list with newer arrows in front.
pub open spec fn tail_of(list: Seq<Arrow>, later: Seq<Arrow>) -> bool {
    &&& list.len() <= later.len()
    &&& forall|j: int|
        0 <= j < list.len() ==> later[later.len() - list.len() + j] == #[trigger] list[j]
}

/// The sum of the lists' lengths.
pub open spec fn total(lists: Seq<Seq<Arrow>>) -> nat
    decreases lists.len(),
{
    if lists.len() == 0 {
        0
    } else {
        total(lists.drop_last()) + lists.last().len()
    }
}

/// How often an arrow occurs in a list.
pub open spec fn count(list: Seq<Arrow>, arrow: Arrow) -> nat
    decreases list.len(),
{
    if list.len() == 0 {
        0
    } else {
        count(list.drop_last(), arrow) + if list.last() == arrow {
            1nat
        } else {
            0nat
        }
    }
}

/// The arrows of `list` that do not end in `d`, in the same order.
pub open spec fn without(list: Seq<Arrow>, d: int) -> Seq<Arrow> {
    list.filter(|arrow: Arrow| arrow.node != d)
}

/// The lists without the one of `d` and without the arrows that end in `d`.
pub open spec fn lists_without(lists: Seq<Seq<Arrow>>, d: int) -> Seq<Seq<Arrow>> {
    Seq::new(lists.len(), |i: int| if i == d { Seq::empty() } else { without(lists[i], d) })
}

pub proof fn lemma_total_push(lists: Seq<Seq<Arrow>>, list: Seq<Arrow>)
    ensures
        total(lists.push(list)) == total(lists) + list.len(),
{
    assert(lists.push(list).drop_last() =~= lists);
}

pub proof fn lemma_total_update(lists: Seq<Seq<Arrow>>, i: int, list: Seq<Arrow>)
    requires
        0 <= i < lists.len(),
    ensures
        total(lists.update(i, list)) == total(lists) - lists[i].len() + list.len(),
    decreases lists.len(),
{
    if i == lists.len() - 1 {
        assert(lists.update(i, list).drop_last() =~= lists.drop_last());
    } else {
        lemma_total_update(lists.drop_last(), i, list);
        assert(lists.update(i, list).drop_last() =~= lists.drop_last().update(i, list));
    }
}

pub proof fn lemma_total_le(small: Seq<Seq<Arrow>>, large: Seq<Seq<Arrow>>)
    requires
        small.len() == large.len(),
        forall|i: int| 0 <= i < small.len() ==> (#[trigger] small[i]).len() <= large[i].len(),
    ensures
        total(small) <= total(large),
    decreases small.len(),
{
    if small.len() > 0 {
        assert forall|i: int| 0 <= i < small.len() - 1 implies (
        #[trigger] small.drop_last()[i]).len() <= large.drop_last()[i].len() by {
            assert(small[i].len() <= large[i].len());
        }
        lemma_total_le(small.drop_last(), large.drop_last());
        assert(small[small.len() - 1].len() <= large[small.len() - 1].len());
    }
}

pub proof fn lemma_count_front(list: Seq<Arrow>, first: Arrow, arrow: Arrow)
    ensures
        count(seq![first] + list, arrow) == count(list, arrow) + if first == arrow {
            1nat
        } else {
            0nat
        },
    decreases list.len(),
{
    let longer = seq![first] + list;
    if list.len() == 0 {
        assert(longer.drop_last() =~= Seq::empty());
        assert(longer.last() == first);
        assert(count(longer.drop_last(), arrow) == 0);
    } else {
        assert(longer.drop_last() =~= seq![first] + list.drop_last());
        assert(longer.last() == list.last());
        lemma_count_front(list.drop_last(), first, arrow);
    }
}

pub proof fn lemma_count_contains(list: Seq<Arrow>, arrow: Arrow)
    ensures
        count(list, arrow) > 0 <==> list.contains(arrow),
    decreases list.len(),
{
    if list.len() > 0 {
        lemma_count_contains(list.drop_last(), arrow);
        if list.contains(arrow) {
            let j = list.index_of(arrow);
            if j < list.len() - 1 {
                assert(list.drop_last()[j] == arrow);
            }
        }
        if list.drop_last().contains(arrow) {
            let j = list.drop_last().index_of(arrow);
            assert(list[j] == arrow);
        }
        if list.last() == arrow {
            assert(list[list.len() - 1] == arrow);
        }
    }
}

pub proof fn lemma_count_without(list: Seq<Arrow>, d: int, arrow: Arrow)
    ensures
        count(without(list, d), arrow) == if arrow.node == d {
            0
        } else {
            count(list, arrow)
        },
    decreases list.len(),
{
    reveal(Seq::filter);
    if list.len() > 0 {
        lemma_count_without(list.drop_last(), d, arrow);
        let rest = without(list.drop_last(), d);
        if list.last().node != d {
            assert(without(list, d) == rest.push(list.last()));
            assert(rest.push(list.last()).drop_last() =~= rest);
        }
    }
}

pub proof fn lemma_without_len(list: Seq<Arrow>, d: int)
    ensures
        without(list, d).len() <= list.len(),
        forall|j: int|
            0 <= j < without(list, d).len() ==> (#[trigger] without(list, d)[j]).node != d
                && list.contains(without(list, d)[j]),
    decreases list.len(),
{
    list.lemma_filter_len(|arrow: Arrow| arrow.node != d);
    assert forall|j: int| 0 <= j < without(list, d).len() implies (
    #[trigger] without(list, d)[j]).node != d && list.contains(without(list, d)[j]) by {
        list.lemma_filter_pred(|arrow: Arrow| arrow.node != d, j);
        list.lemma_filter_contains_rev(|arrow: Arrow| arrow.node != d, without(list, d)[j]);
    }
}

/// Adding a node keeps the graph well formed.
pub proof fn lemma_add_node(graph: GraphView, label: NodeLabel)
    requires
        graph.wf(),
    ensures
        graph.add_node(label).wf(),
        graph.add_node(label).edge_count() == graph.edge_count(),
        graph.full() ==> graph.add_node(label).full(),
{
    reveal(GraphView::wf);
    lemma_total_push(graph.inc, Seq::empty());
    let after = graph.add_node(label);
    let n = graph.nodes.len() as int;
    assert forall|i: int, j: int| 0 <= i < after.out.len() && 0 <= j < after.out[i].len() implies after.live(
        i,
    ) && after.live((#[trigger] after.out[i][j]).node) by {
        assert(after.out[i] == graph.out[i]);
        assert(graph.live(graph.out[i][j].node));
    }
    assert forall|i: int, j: int| 0 <= i < after.inc.len() && 0 <= j < after.inc[i].len() implies after.live(
        i,
    ) && after.live((#[trigger] after.inc[i][j]).node) by {
        assert(after.inc[i] == graph.inc[i]);
        assert(graph.live(graph.inc[i][j].node));
    }
    assert forall|a: int, b: int, kind: EdgeType|
        0 <= a < after.nodes.len() && 0 <= b < after.nodes.len() implies #[trigger] count(
        after.out[a],
        Arrow { node: b, kind },
    ) == #[trigger] count(after.inc[b], Arrow { node: a, kind }) by {
        lemma_count_contains(after.out[a], Arrow { node: b, kind });
        lemma_count_contains(after.inc[b], Arrow { node: a, kind });
        if a < n && b < n {
            assert(count(graph.out[a], Arrow { node: b, kind }) == count(
                graph.inc[b],
                Arrow { node: a, kind },
            ));
        } else if a < n {
            if graph.out[a].contains(Arrow { node: b, kind }) {
                let j = graph.out[a].index_of(Arrow { node: b, kind });
                assert(graph.live(graph.out[a][j].node));
            }
        } else if b < n {
            if graph.inc[b].contains(Arrow { node: a, kind }) {
                let j = graph.inc[b].index_of(Arrow { node: a, kind });
                assert(graph.live(graph.inc[b][j].node));
            }
        }
    }
}

/// Adding an edge between nodes keeps the graph well formed.
pub proof fn lemma_add_edge(graph: GraphView, from: int, to: int, kind: EdgeType)
    requires
        graph.wf(),
        graph.live(from),
        graph.live(to),
    ensures
        graph.add_edge(from, to, kind).wf(),
        graph.add_edge(from, to, kind).edge_count() == graph.edge_count() + 1,
{
    reveal(GraphView::wf);
    let after = graph.add_edge(from, to, kind);
    lemma_total_update(graph.inc, to, seq![Arrow { node: from, kind }] + graph.inc[to]);
    assert forall|i: int, j: int| 0 <= i < after.out.len() && 0 <= j < after.out[i].len() implies after.live(
        i,
    ) && after.live((#[trigger] after.out[i][j]).node) by {
        if i == from {
            if j > 0 {
                assert(after.out[i][j] == graph.out[i][j - 1]);
            }
        } else {
            assert(after.out[i][j] == graph.out[i][j]);
        }
    }
    assert forall|i: int, j: int| 0 <= i < after.inc.len() && 0 <= j < after.inc[i].len() implies after.live(
        i,
    ) && after.live((#[trigger] after.inc[i][j]).node) by {
        if i == to {
            if j > 0 {
                assert(after.inc[i][j] == graph.inc[i][j - 1]);
            }
        } else {
            assert(after.inc[i][j] == graph.inc[i][j]);
        }
    }
    assert forall|a: int, b: int, k: EdgeType|
        0 <= a < after.nodes.len() && 0 <= b < after.nodes.len() implies #[trigger] count(
        after.out[a],
        Arrow { node: b, kind: k },
    ) == #[trigger] count(after.inc[b], Arrow { node: a, kind: k }) by {
        assert(count(graph.out[a], Arrow { node: b, kind: k }) == count(
            graph.inc[b],
            Arrow { node: a, kind: k },
        ));
        lemma_count_front(graph.out[from], Arrow { node: to, kind }, Arrow { node: b, kind: k });
        lemma_count_front(graph.inc[to], Arrow { node: from, kind }, Arrow { node: a, kind: k });
    }
}

/// Removing a node keeps the graph well formed.
pub proof fn lemma_remove_node(graph: GraphView, d: int)
    requires
        graph.wf(),
        graph.live(d),
    ensures
        graph.remove_node(d).wf(),
        graph.remove_node(d).edge_count() + graph.inc[d].len() <= graph.edge_count(),
{
    reveal(GraphView::wf);
    let after = graph.remove_node(d);
    assert forall|i: int| 0 <= i < after.inc.len() implies (#[trigger] after.inc[i]).len()
        <= graph.inc.update(d, Seq::empty())[i].len() by {
        lemma_without_len(graph.inc[i], d);
    }
    lemma_total_le(after.inc, graph.inc.update(d, Seq::empty()));
    lemma_total_update(graph.inc, d, Seq::empty());
    assert forall|i: int, j: int| 0 <= i < after.out.len() && 0 <= j < after.out[i].len() implies after.live(
        i,
    ) && after.live((#[trigger] after.out[i][j]).node) by {
        lemma_without_len(graph.out[i], d);
        let m = graph.out[i].index_of(after.out[i][j]);
        assert(graph.out[i][m] == after.out[i][j]);
    }
    assert forall|i: int, j: int| 0 <= i < after.inc.len() && 0 <= j < after.inc[i].len() implies after.live(
        i,
    ) && after.live((#[trigger] after.inc[i][j]).node) by {
        lemma_without_len(graph.inc[i], d);
        let m = graph.inc[i].index_of(after.inc[i][j]);
        assert(graph.inc[i][m] == after.inc[i][j]);
    }
    assert forall|a: int, b: int, k: EdgeType|
        0 <= a < after.nodes.len() && 0 <= b < after.nodes.len() implies #[trigger] count(
        after.out[a],
        Arrow { node: b, kind: k },
    ) == #[trigger] count(after.inc[b], Arrow { node: a, kind: k }) by {
        assert(count(graph.out[a], Arrow { node: b, kind: k }) == count(
            graph.inc[b],
            Arrow { node: a, kind: k },
        ));
        lemma_count_without(graph.out[a], d, Arrow { node: b, kind: k });
        lemma_count_without(graph.inc[b], d, Arrow { node: a, kind: k });
    }
}

} // verus!
