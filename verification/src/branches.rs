//! What taking nodes out does to the edges that leave the others, and when it succeeds.

use crate::model::{
    count, lemma_count_contains, lemma_count_front, lemma_count_without, lemma_remove_node,
    lemma_total_update, lemma_without_len, total, without, Arrow, GraphView,
};
use crate::node::{EdgeType, NodeLabel};
use crate::paths::lemma_arrow_bypass;
use crate::tidy::{
    contract, contract_fits, lemma_bypass, lemma_bypass_count, lemma_ends, lemma_orphan,
    lemma_picked, lemma_prune_step, lemma_redirect, live_count, prune,
};
use vstd::prelude::*;

verus! {

/// How many arrows of a list are of a kind.
pub open spec fn kind_count(list: Seq<Arrow>, kind: EdgeType) -> nat
    decreases list.len(),
{
    if list.len() == 0 {
        0
    } else {
        kind_count(list.drop_last(), kind) + if list.last().kind == kind {
            1nat
        } else {
            0nat
        }
    }
}

pub proof fn lemma_kind_front(list: Seq<Arrow>, first: Arrow, kind: EdgeType)
    ensures
        kind_count(seq![first] + list, kind) == kind_count(list, kind) + if first.kind == kind {
            1nat
        } else {
            0nat
        },
    decreases list.len(),
{
    let longer = seq![first] + list;
    if list.len() == 0 {
        assert(longer.drop_last() =~= Seq::empty());
        assert(longer.last() == first);
        assert(kind_count(longer.drop_last(), kind) == 0);
    } else {
        assert(longer.drop_last() =~= seq![first] + list.drop_last());
        lemma_kind_front(list.drop_last(), first, kind);
    }
}

pub proof fn lemma_kind_without(list: Seq<Arrow>, d: int, kind: EdgeType)
    ensures
        kind_count(without(list, d), kind) + count(list, Arrow { node: d, kind }) == kind_count(
            list,
            kind,
        ),
    decreases list.len(),
{
    reveal(Seq::filter);
    if list.len() > 0 {
        lemma_kind_without(list.drop_last(), d, kind);
        let rest = without(list.drop_last(), d);
        if list.last().node != d {
            assert(without(list, d) == rest.push(list.last()));
            assert(rest.push(list.last()).drop_last() =~= rest);
        }
    }
}

/// A list is made of arrows of three kinds.
pub proof fn lemma_kinds(list: Seq<Arrow>)
    ensures
        list.len() == kind_count(list, EdgeType::Normal) + kind_count(list, EdgeType::Branch(true))
            + kind_count(list, EdgeType::Branch(false)),
    decreases list.len(),
{
    if list.len() > 0 {
        lemma_kinds(list.drop_last());
        match list.last().kind {
            EdgeType::Normal => {},
            EdgeType::Branch(answer) => {
                if answer {
                } else {
                }
            },
        }
    }
}

proof fn lemma_redirect_counts(
    graph: GraphView,
    arrows: Seq<Arrow>,
    k: nat,
    to: int,
    u: int,
    kind: EdgeType,
)
    requires
        k <= arrows.len(),
        0 <= u < graph.out.len(),
        forall|j: int| 0 <= j < k ==> 0 <= (#[trigger] arrows[j]).node < graph.out.len(),
    ensures
        graph.redirect(arrows, k, to).out.len() == graph.out.len(),
        kind_count(graph.redirect(arrows, k, to).out[u], kind) == kind_count(graph.out[u], kind)
            + count(arrows.take(k as int), Arrow { node: u, kind }),
        forall|x: int| #[trigger]
            count(graph.redirect(arrows, k, to).out[u], Arrow { node: x, kind }) == count(
                graph.out[u],
                Arrow { node: x, kind },
            ) + if x == to {
                count(arrows.take(k as int), Arrow { node: u, kind })
            } else {
                0
            },
    decreases k,
{
    if k == 0 {
        assert(arrows.take(0) =~= Seq::empty());
        assert(count(arrows.take(0), Arrow { node: u, kind }) == 0);
    } else {
        let before = graph.redirect(arrows, (k - 1) as nat, to);
        let after = graph.redirect(arrows, k, to);
        let last = arrows[k - 1];
        let first = Arrow { node: to, kind: last.kind };
        lemma_redirect_counts(graph, arrows, (k - 1) as nat, to, u, kind);
        assert(arrows.take(k as int).drop_last() =~= arrows.take(k - 1));
        assert(arrows.take(k as int).last() == last);
        if u == last.node {
            assert(after.out[u] == seq![first] + before.out[u]);
            lemma_kind_front(before.out[u], first, kind);
        } else {
            assert(after.out[u] == before.out[u]);
        }
        assert forall|x: int| #[trigger] count(after.out[u], Arrow { node: x, kind }) == count(
            graph.out[u],
            Arrow { node: x, kind },
        ) + if x == to {
            count(arrows.take(k as int), Arrow { node: u, kind })
        } else {
            0
        } by {
            assert(count(before.out[u], Arrow { node: x, kind }) == count(
                graph.out[u],
                Arrow { node: x, kind },
            ) + if x == to {
                count(arrows.take(k - 1), Arrow { node: u, kind })
            } else {
                0
            });
            if u == last.node {
                lemma_count_front(before.out[u], first, Arrow { node: x, kind });
            }
        }
    }
}

/// Taking a node out does not add to the edges of any kind that leave another node, and keeps
/// their number where the node does not lead to itself.
pub proof fn bypass_keeps_kinds(graph: GraphView, d: int, u: int, kind: EdgeType)
    requires
        graph.wf(),
        graph.live(d),
        graph.out[d].len() == 1,
        0 <= u < graph.nodes.len(),
        u != d,
    ensures
        kind_count(graph.bypass(d).out[u], kind) <= kind_count(graph.out[u], kind),
        graph.out[d][0].node != d ==> kind_count(graph.bypass(d).out[u], kind) == kind_count(
            graph.out[u],
            kind,
        ),
{
    reveal(GraphView::wf);
    let to = graph.out[d][0].node;
    let arrows = graph.inc[d];
    lemma_ends(graph, d);
    assert forall|j: int| 0 <= j < arrows.len() implies 0 <= (#[trigger] arrows[j]).node
        < graph.out.len() by {
        assert(graph.live(arrows[j].node));
    }
    let redirected = graph.redirect(arrows, arrows.len(), to);
    lemma_redirect_counts(graph, arrows, arrows.len(), to, u, kind);
    assert(arrows.take(arrows.len() as int) =~= arrows);
    lemma_kind_without(redirected.out[u], d, kind);
    assert(count(graph.out[u], Arrow { node: d, kind }) == count(
        graph.inc[d],
        Arrow { node: u, kind },
    ));
    assert(count(redirected.out[u], Arrow { node: d, kind }) == count(
        graph.out[u],
        Arrow { node: d, kind },
    ) + if d == to {
        count(arrows, Arrow { node: u, kind })
    } else {
        0
    });
    assert(graph.bypass(d).out[u] == without(redirected.out[u], d));
}

/// Taking node `d` out moves the edges that end in it to where it leads, and leaves those between
/// other nodes as they are.
pub proof fn bypass_moves_edges(graph: GraphView, d: int, u: int, w: int, kind: EdgeType)
    requires
        graph.wf(),
        graph.live(d),
        graph.out[d].len() == 1,
        0 <= u < graph.nodes.len(),
        u != d,
        w != d,
    ensures
        count(graph.bypass(d).out[u], Arrow { node: w, kind }) == count(
            graph.out[u],
            Arrow { node: w, kind },
        ) + if w == graph.out[d][0].node {
            count(graph.out[u], Arrow { node: d, kind })
        } else {
            0
        },
{
    reveal(GraphView::wf);
    let to = graph.out[d][0].node;
    let arrows = graph.inc[d];
    lemma_ends(graph, d);
    assert forall|j: int| 0 <= j < arrows.len() implies 0 <= (#[trigger] arrows[j]).node
        < graph.out.len() by {
        assert(graph.live(arrows[j].node));
    }
    let redirected = graph.redirect(arrows, arrows.len(), to);
    lemma_redirect_counts(graph, arrows, arrows.len(), to, u, kind);
    assert(arrows.take(arrows.len() as int) =~= arrows);
    assert(count(graph.out[u], Arrow { node: d, kind }) == count(
        graph.inc[d],
        Arrow { node: u, kind },
    ));
    lemma_count_without(redirected.out[u], d, Arrow { node: w, kind });
    assert(graph.bypass(d).out[u] == without(redirected.out[u], d));
}

/// A list without an arrow to `d` loses nothing.
proof fn lemma_without_none(list: Seq<Arrow>, d: int)
    requires
        forall|j: int| 0 <= j < list.len() ==> (#[trigger] list[j]).node != d,
    ensures
        without(list, d) == list,
    decreases list.len(),
{
    reveal(Seq::filter);
    if list.len() > 0 {
        let rest = list.drop_last();
        assert forall|j: int| 0 <= j < rest.len() implies (#[trigger] rest[j]).node != d by {
            assert(list[j].node != d);
        }
        lemma_without_none(rest, d);
        assert(list[list.len() - 1].node != d);
        assert(without(list, d) == without(rest, d).push(list.last()));
        assert(rest.push(list.last()) =~= list);
    }
}

/// Pruning keeps all edges that leave a node that stays, in their order.
pub proof fn pruning_keeps_edges(graph: GraphView, u: int)
    requires
        graph.wf(),
        0 <= u < graph.nodes.len(),
    ensures
        prune(graph).live(u) ==> prune(graph).out[u] == graph.out[u],
    decreases live_count(graph.nodes),
{
    lemma_orphan(graph);
    lemma_prune_step(graph);
    if let Some(d) = graph.first_orphan() {
        let after = graph.remove_node(d);
        crate::laws::pruning_removes_orphans(after);
        assert(prune(after).nodes[d] == after.nodes[d] || prune(after).nodes[d] is None);
        pruning_keeps_edges(after, u);
        if u != d {
            reveal(GraphView::wf);
            assert forall|j: int| 0 <= j < graph.out[u].len() implies (
            #[trigger] graph.out[u][j]).node != d by {
                let arrow = graph.out[u][j];
                if arrow.node == d {
                    assert(arrow == Arrow { node: d, kind: arrow.kind });
                    assert(graph.out[u].contains(arrow));
                    lemma_count_contains(graph.out[u], Arrow { node: d, kind: arrow.kind });
                    assert(count(graph.out[u], Arrow { node: d, kind: arrow.kind }) == count(
                        graph.inc[d],
                        Arrow { node: u, kind: arrow.kind },
                    ));
                }
            }
            lemma_without_none(graph.out[u], d);
        }
    }
}

/// Removing an orphaned joint keeps the edges that leave another node.
pub proof fn orphan_keeps_kinds(graph: GraphView, d: int, u: int, kind: EdgeType)
    requires
        graph.wf(),
        graph.orphan(d),
        0 <= u < graph.nodes.len(),
        u != d,
    ensures
        kind_count(graph.remove_node(d).out[u], kind) == kind_count(graph.out[u], kind),
{
    reveal(GraphView::wf);
    lemma_kind_without(graph.out[u], d, kind);
    assert(count(graph.out[u], Arrow { node: d, kind }) == count(
        graph.inc[d],
        Arrow { node: u, kind },
    ));
    assert(graph.remove_node(d).out[u] == without(graph.out[u], d));
}

/// Pruning keeps the number of edges of each kind that leave a node.
pub proof fn pruning_keeps_kinds(graph: GraphView, u: int, kind: EdgeType)
    requires
        graph.wf(),
        prune(graph).live(u),
        0 <= u < graph.nodes.len(),
    ensures
        kind_count(prune(graph).out[u], kind) == kind_count(graph.out[u], kind),
    decreases live_count(graph.nodes),
{
    lemma_orphan(graph);
    lemma_prune_step(graph);
    if let Some(d) = graph.first_orphan() {
        let after = graph.remove_node(d);
        crate::laws::pruning_removes_orphans(after);
        assert(prune(after).nodes[d] == after.nodes[d] || prune(after).nodes[d] is None);
        orphan_keeps_kinds(graph, d, u, kind);
        pruning_keeps_kinds(after, u, kind);
    }
}

/// Taking nodes out does not add to the edges of any kind that leave a node.
pub proof fn contracting_keeps_kinds(
    graph: GraphView,
    pick: spec_fn(int, NodeLabel) -> bool,
    u: int,
    kind: EdgeType,
)
    requires
        graph.wf(),
        0 <= u < graph.nodes.len(),
    ensures
        contract(graph, pick) matches Ok(rest) ==> rest.live(u) ==> kind_count(rest.out[u], kind)
            <= kind_count(graph.out[u], kind),
    decreases live_count(graph.nodes),
{
    lemma_picked(graph, pick);
    if let Some(d) = graph.first_picked(pick) {
        if graph.out[d].len() == 1 {
            let after = graph.bypass(d);
            lemma_bypass(graph, d);
            lemma_bypass_count(graph, d);
            contracting_keeps_kinds(after, pick, u, kind);
            crate::laws::contracting_removes_picked(after, pick);
            if let Ok(rest) = contract(after, pick) {
                assert(rest.nodes[d] is None);
                if u != d {
                    bypass_keeps_kinds(graph, d, u, kind);
                }
            }
        }
    }
}

impl GraphView {
    /// Whether each picked node has exactly one outgoing edge, and the rank falls along every edge
    /// from a picked node to another: no cycle is made of picked nodes alone.
    pub open spec fn chained(
        self,
        pick: spec_fn(int, NodeLabel) -> bool,
        rank: spec_fn(int) -> nat,
    ) -> bool {
        forall|i: int| #[trigger]
            self.picked(pick, i) ==> {
                &&& self.out[i].len() == 1
                &&& self.picked(pick, self.out[i][0].node) ==> rank(self.out[i][0].node) < rank(i)
            }
    }
}

proof fn lemma_bypass_chained(
    graph: GraphView,
    pick: spec_fn(int, NodeLabel) -> bool,
    rank: spec_fn(int) -> nat,
    d: int,
)
    requires
        graph.wf(),
        graph.chained(pick, rank),
        graph.picked(pick, d),
    ensures
        graph.bypass(d).chained(pick, rank),
{
    let after = graph.bypass(d);
    let to = graph.out[d][0].node;
    lemma_bypass(graph, d);
    assert forall|i: int| #[trigger] after.picked(pick, i) implies {
        &&& after.out[i].len() == 1
        &&& after.picked(pick, after.out[i][0].node) ==> rank(after.out[i][0].node) < rank(i)
    } by {
        assert(graph.picked(pick, i));
        assert(to != d);
        bypass_keeps_kinds(graph, d, i, EdgeType::Normal);
        bypass_keeps_kinds(graph, d, i, EdgeType::Branch(true));
        bypass_keeps_kinds(graph, d, i, EdgeType::Branch(false));
        lemma_kinds(graph.out[i]);
        lemma_kinds(after.out[i]);
        let arrow = after.out[i][0];
        let x = arrow.node;
        assert(after.out[i].contains(arrow));
        assert(arrow == Arrow { node: x, kind: arrow.kind });
        assert(after.out.len() == after.nodes.len()) by {
            reveal(GraphView::wf);
        }
        assert(after.arrow(i, x, arrow.kind));
        lemma_arrow_bypass(graph, d, i, x, arrow.kind);
        let next = graph.out[i][0].node;
        if after.picked(pick, x) {
            assert(graph.picked(pick, x));
            if graph.arrow(i, x, arrow.kind) {
                let j = graph.out[i].index_of(arrow);
                assert(next == x);
            } else {
                let j = graph.out[i].index_of(Arrow { node: d, kind: arrow.kind });
                assert(next == d);
                assert(x == to);
                assert(rank(d) < rank(i));
                assert(rank(to) < rank(d));
            }
        }
    }
}

/// Where picked nodes have one outgoing edge each and form no cycle, taking some of them out
/// succeeds and leaves the others so.
pub proof fn chains_can_be_contracted(
    graph: GraphView,
    pick: spec_fn(int, NodeLabel) -> bool,
    all: spec_fn(int, NodeLabel) -> bool,
    rank: spec_fn(int) -> nat,
)
    requires
        graph.wf(),
        graph.chained(all, rank),
        forall|i: int, label: NodeLabel| #[trigger] pick(i, label) ==> all(i, label),
    ensures
        contract(graph, pick) matches Ok(rest) && rest.chained(all, rank),
    decreases live_count(graph.nodes),
{
    lemma_picked(graph, pick);
    if let Some(d) = graph.first_picked(pick) {
        assert(graph.picked(all, d));
        lemma_bypass(graph, d);
        lemma_bypass_count(graph, d);
        lemma_bypass_chained(graph, all, rank, d);
        chains_can_be_contracted(graph.bypass(d), pick, all, rank);
    }
}

/// Where picked nodes have one outgoing edge each and form no cycle, taking some of them out keeps
/// the number of edges of each kind that leave a node that stays.
pub proof fn chains_keep_kinds(
    graph: GraphView,
    pick: spec_fn(int, NodeLabel) -> bool,
    all: spec_fn(int, NodeLabel) -> bool,
    rank: spec_fn(int) -> nat,
    u: int,
    kind: EdgeType,
)
    requires
        graph.wf(),
        graph.chained(all, rank),
        forall|i: int, label: NodeLabel| #[trigger] pick(i, label) ==> all(i, label),
        0 <= u < graph.nodes.len(),
    ensures
        contract(graph, pick) matches Ok(rest) ==> rest.live(u) ==> kind_count(rest.out[u], kind)
            == kind_count(graph.out[u], kind),
    decreases live_count(graph.nodes),
{
    lemma_picked(graph, pick);
    if let Some(d) = graph.first_picked(pick) {
        let after = graph.bypass(d);
        assert(graph.picked(all, d));
        lemma_bypass(graph, d);
        lemma_bypass_count(graph, d);
        lemma_bypass_chained(graph, all, rank, d);
        chains_keep_kinds(after, pick, all, rank, u, kind);
        crate::laws::contracting_removes_picked(after, pick);
        if let Ok(rest) = contract(after, pick) {
            assert(rest.nodes[d] is None);
            if u != d {
                bypass_keeps_kinds(graph, d, u, kind);
            }
        }
    }
}

/// If picked nodes have one outgoing edge each and form no cycle, but for orphaned joints, then
/// after pruning they all do.
pub proof fn pruning_makes_chains(
    graph: GraphView,
    all: spec_fn(int, NodeLabel) -> bool,
    rank: spec_fn(int) -> nat,
)
    requires
        graph.wf(),
        forall|i: int| #[trigger]
            graph.picked(all, i) && !graph.orphan(i) ==> {
                &&& graph.out[i].len() == 1
                &&& graph.picked(all, graph.out[i][0].node) ==> rank(graph.out[i][0].node) < rank(
                    i,
                )
            },
    ensures
        prune(graph).chained(all, rank),
    decreases live_count(graph.nodes),
{
    lemma_orphan(graph);
    lemma_prune_step(graph);
    if let Some(d) = graph.first_orphan() {
        let after = graph.remove_node(d);
        assert(after.out.len() == after.nodes.len()) by {
            reveal(GraphView::wf);
        }
        assert forall|i: int| #[trigger] after.picked(all, i) && !after.orphan(i) implies {
            &&& after.out[i].len() == 1
            &&& after.picked(all, after.out[i][0].node) ==> rank(after.out[i][0].node) < rank(i)
        } by {
            assert(graph.picked(all, i));
            lemma_without_len(graph.inc[i], d);
            assert(after.inc[i] == without(graph.inc[i], d)) by {
                reveal(GraphView::wf);
            }
            assert(!graph.orphan(i));
            orphan_keeps_kinds(graph, d, i, EdgeType::Normal);
            orphan_keeps_kinds(graph, d, i, EdgeType::Branch(true));
            orphan_keeps_kinds(graph, d, i, EdgeType::Branch(false));
            lemma_kinds(graph.out[i]);
            lemma_kinds(after.out[i]);
            lemma_without_len(graph.out[i], d);
            assert(after.out[i] == without(graph.out[i], d));
            let x = after.out[i][0].node;
            assert(graph.out[i].contains(after.out[i][0]));
            if after.picked(all, x) {
                assert(graph.picked(all, x));
            }
        }
        pruning_makes_chains(after, all, rank);
    }
}

proof fn lemma_total_item(lists: Seq<Seq<Arrow>>, i: int)
    requires
        0 <= i < lists.len(),
    ensures
        lists[i].len() <= total(lists),
{
    lemma_total_update(lists, i, Seq::empty());
}

/// Taking a node out does not add to the number of edges.
proof fn lemma_bypass_edges(graph: GraphView, d: int)
    requires
        graph.wf(),
        graph.live(d),
        graph.out[d].len() == 1,
    ensures
        graph.bypass(d).edge_count() <= graph.edge_count(),
        graph.inc[d].len() <= graph.edge_count(),
{
    reveal(GraphView::wf);
    let to = graph.out[d][0].node;
    let redirected = graph.redirect(graph.inc[d], graph.inc[d].len(), to);
    assert(graph.live(to));
    lemma_ends(graph, d);
    lemma_redirect(graph, graph.inc[d], graph.inc[d].len(), to);
    lemma_remove_node(redirected, d);
    lemma_redirect_grows(graph, graph.inc[d], graph.inc[d].len(), to, d);
    lemma_total_item(graph.inc, d);
}

proof fn lemma_redirect_grows(graph: GraphView, arrows: Seq<Arrow>, k: nat, to: int, d: int)
    requires
        0 <= d < graph.inc.len(),
        0 <= to < graph.inc.len(),
    ensures
        graph.redirect(arrows, k, to).inc.len() == graph.inc.len(),
        graph.inc[d].len() <= graph.redirect(arrows, k, to).inc[d].len(),
    decreases k,
{
    if k > 0 {
        lemma_redirect_grows(graph, arrows, (k - 1) as nat, to, d);
    }
}

/// With half of the store to spare, there is room to take nodes out; and no edges are gained.
pub proof fn lemma_contract_fits(graph: GraphView, pick: spec_fn(int, NodeLabel) -> bool)
    requires
        graph.wf(),
        2 * graph.edge_count() <= u32::MAX,
    ensures
        contract_fits(graph, pick),
        contract(graph, pick) matches Ok(rest) ==> rest.edge_count() <= graph.edge_count(),
    decreases live_count(graph.nodes),
{
    lemma_picked(graph, pick);
    if let Some(d) = graph.first_picked(pick) {
        if graph.out[d].len() == 1 {
            lemma_bypass(graph, d);
            lemma_bypass_count(graph, d);
            lemma_bypass_edges(graph, d);
            lemma_contract_fits(graph.bypass(d), pick);
        }
    }
}

/// Pruning gains no edges.
pub proof fn lemma_prune_edges(graph: GraphView)
    requires
        graph.wf(),
    ensures
        prune(graph).edge_count() <= graph.edge_count(),
    decreases live_count(graph.nodes),
{
    lemma_orphan(graph);
    lemma_prune_step(graph);
    if let Some(d) = graph.first_orphan() {
        lemma_remove_node(graph, d);
        lemma_prune_edges(graph.remove_node(d));
    }
}

} // verus!
