//! What taking the joints out of a chart comes to.

use crate::model::{lemma_add_edge, lemma_remove_node, Arrow, GraphView};
use crate::node::NodeLabel;
use vstd::prelude::*;

verus! {

/// The smallest number below `n` that `p` holds of.
pub open spec fn least(p: spec_fn(int) -> bool, n: nat) -> Option<int>
    decreases n,
{
    if n == 0 {
        None
    } else {
        match least(p, (n - 1) as nat) {
            Some(i) => Some(i),
            None => if p(n - 1) {
                Some(n - 1)
            } else {
                None
            },
        }
    }
}

pub proof fn lemma_least(p: spec_fn(int) -> bool, n: nat)
    ensures
        match least(p, n) {
            Some(d) => 0 <= d < n && p(d) && forall|j: int| 0 <= j < d ==> !(#[trigger] p(j)),
            None => forall|j: int| 0 <= j < n ==> !(#[trigger] p(j)),
        },
    decreases n,
{
    if n > 0 {
        lemma_least(p, (n - 1) as nat);
    }
}

/// There is only one smallest number.
pub proof fn lemma_least_is(p: spec_fn(int) -> bool, n: nat, d: int)
    requires
        0 <= d < n,
        p(d),
        forall|j: int| 0 <= j < d ==> !(#[trigger] p(j)),
    ensures
        least(p, n) == Some(d),
{
    lemma_least(p, n);
}

/// How many slots are occupied.
pub open spec fn live_count(nodes: Seq<Option<NodeLabel>>) -> nat
    decreases nodes.len(),
{
    if nodes.len() == 0 {
        0
    } else {
        live_count(nodes.drop_last()) + if nodes.last() is Some {
            1nat
        } else {
            0nat
        }
    }
}

pub proof fn lemma_live_count(nodes: Seq<Option<NodeLabel>>, d: int)
    requires
        0 <= d < nodes.len(),
        nodes[d] is Some,
    ensures
        live_count(nodes.update(d, None)) + 1 == live_count(nodes),
    decreases nodes.len(),
{
    if d == nodes.len() - 1 {
        assert(nodes.update(d, None).drop_last() =~= nodes.drop_last());
    } else {
        assert(nodes.update(d, None).drop_last() =~= nodes.drop_last().update(d, None));
        lemma_live_count(nodes.drop_last(), d);
    }
}

impl GraphView {
    /// Whether node `i` is a joint that no edge enters.
    pub open spec fn orphan(self, i: int) -> bool {
        &&& 0 <= i < self.nodes.len()
        &&& self.nodes[i] == Some(NodeLabel::Dummy)
        &&& self.inc[i].len() == 0
    }

    /// The first joint that no edge enters.
    pub open spec fn first_orphan(self) -> Option<int> {
        least(|i: int| self.orphan(i), self.nodes.len())
    }

    /// Whether `i` is a node that `pick` holds of.
    pub open spec fn picked(self, pick: spec_fn(int, NodeLabel) -> bool, i: int) -> bool {
        self.live(i) && pick(i, self.nodes[i]->0)
    }

    /// The first node that `pick` holds of.
    pub open spec fn first_picked(self, pick: spec_fn(int, NodeLabel) -> bool) -> Option<int> {
        least(|i: int| self.picked(pick, i), self.nodes.len())
    }

    /// The graph with an edge to `to` for each of the first `k` arrows, from where the arrow
    /// points to.
    pub open spec fn redirect(self, arrows: Seq<Arrow>, k: nat, to: int) -> GraphView
        decreases k,
    {
        if k == 0 {
            self
        } else {
            self.redirect(arrows, (k - 1) as nat, to).add_edge(
                arrows[k - 1].node,
                to,
                arrows[k - 1].kind,
            )
        }
    }

    /// The graph without node `d`, whose incoming edges go on to where its first outgoing edge
    /// goes.
    pub open spec fn bypass(self, d: int) -> GraphView {
        self.redirect(self.inc[d], self.inc[d].len(), self.out[d][0].node).remove_node(d)
    }
}

pub proof fn lemma_redirect_nodes(graph: GraphView, arrows: Seq<Arrow>, k: nat, to: int)
    ensures
        graph.redirect(arrows, k, to).nodes == graph.nodes,
    decreases k,
{
    if k > 0 {
        lemma_redirect_nodes(graph, arrows, (k - 1) as nat, to);
    }
}

/// The graph after orphaned joints have been removed, the first one first, until there are none.
pub open spec fn prune(graph: GraphView) -> GraphView
    decreases live_count(graph.nodes),
{
    match graph.first_orphan() {
        Some(d) => {
            proof {
                lemma_least(|i: int| graph.orphan(i), graph.nodes.len());
                lemma_live_count(graph.nodes, d);
            }
            prune(graph.remove_node(d))
        },
        None => graph,
    }
}

/// A graph with a node that cannot be taken out.
pub struct Stuck {
    pub node: int,
    pub graph: GraphView,
}

/// The graph after the nodes that `pick` holds of have been taken out, the first one first; or
/// the first graph on the way in which the next one does not have exactly one outgoing edge.
pub open spec fn contract(graph: GraphView, pick: spec_fn(int, NodeLabel) -> bool) -> Result<
    GraphView,
    Stuck,
>
    decreases live_count(graph.nodes),
{
    match graph.first_picked(pick) {
        Some(d) => if graph.out[d].len() != 1 {
            Err(Stuck { node: d, graph })
        } else {
            proof {
                lemma_picked(graph, pick);
                lemma_bypass_count(graph, d);
            }
            contract(graph.bypass(d), pick)
        },
        None => Ok(graph),
    }
}

/// Whether the store has room for the edges that come in while nodes are taken out.
pub open spec fn contract_fits(graph: GraphView, pick: spec_fn(int, NodeLabel) -> bool) -> bool
    decreases live_count(graph.nodes),
{
    match graph.first_picked(pick) {
        Some(d) => graph.out[d].len() == 1 ==> {
            proof {
                lemma_picked(graph, pick);
                lemma_bypass_count(graph, d);
            }
            &&& graph.edge_count() + graph.inc[d].len() <= u32::MAX
            &&& contract_fits(graph.bypass(d), pick)
        },
        None => true,
    }
}

pub proof fn lemma_picked(graph: GraphView, pick: spec_fn(int, NodeLabel) -> bool)
    ensures
        match graph.first_picked(pick) {
            Some(d) => graph.picked(pick, d) && forall|j: int|
                0 <= j < d ==> !#[trigger] graph.picked(pick, j),
            None => forall|j: int| !#[trigger] graph.picked(pick, j),
        },
{
    let p = |i: int| graph.picked(pick, i);
    lemma_least(p, graph.nodes.len());
    assert(forall|j: int| #[trigger] graph.picked(pick, j) == p(j));
}

pub proof fn lemma_orphan(graph: GraphView)
    ensures
        match graph.first_orphan() {
            Some(d) => graph.orphan(d) && forall|j: int| 0 <= j < d ==> !#[trigger] graph.orphan(j),
            None => forall|j: int| !#[trigger] graph.orphan(j),
        },
{
    let p = |i: int| graph.orphan(i);
    lemma_least(p, graph.nodes.len());
    assert(forall|j: int| #[trigger] graph.orphan(j) == p(j));
}

pub proof fn lemma_bypass_count(graph: GraphView, d: int)
    requires
        graph.live(d),
    ensures
        live_count(graph.bypass(d).nodes) + 1 == live_count(graph.nodes),
{
    lemma_redirect_nodes(graph, graph.inc[d], graph.inc[d].len(), graph.out[d][0].node);
    lemma_live_count(graph.nodes, d);
}

/// Redirecting edges between nodes keeps the graph well formed.
pub proof fn lemma_redirect(graph: GraphView, arrows: Seq<Arrow>, k: nat, to: int)
    requires
        graph.wf(),
        k <= arrows.len(),
        graph.live(to),
        forall|j: int| 0 <= j < k ==> graph.live((#[trigger] arrows[j]).node),
    ensures
        graph.redirect(arrows, k, to).wf(),
        graph.redirect(arrows, k, to).edge_count() == graph.edge_count() + k,
        graph.redirect(arrows, k, to).nodes == graph.nodes,
    decreases k,
{
    if k > 0 {
        lemma_redirect(graph, arrows, (k - 1) as nat, to);
        lemma_add_edge(
            graph.redirect(arrows, (k - 1) as nat, to),
            arrows[k - 1].node,
            to,
            arrows[k - 1].kind,
        );
    }
}

/// The ends of a node's edges are nodes.
pub proof fn lemma_ends(graph: GraphView, d: int)
    requires
        graph.wf(),
        graph.live(d),
    ensures
        forall|j: int| 0 <= j < graph.inc[d].len() ==> graph.live((#[trigger] graph.inc[d][j]).node),
        forall|j: int| 0 <= j < graph.out[d].len() ==> graph.live((#[trigger] graph.out[d][j]).node),
{
    reveal(GraphView::wf);
}

/// Taking a node out keeps the graph well formed.
pub proof fn lemma_bypass(graph: GraphView, d: int)
    requires
        graph.wf(),
        graph.live(d),
        graph.out[d].len() == 1,
    ensures
        graph.bypass(d).wf(),
        graph.bypass(d).nodes == graph.nodes.update(d, None),
{
    lemma_ends(graph, d);
    lemma_redirect(graph, graph.inc[d], graph.inc[d].len(), graph.out[d][0].node);
    lemma_remove_node(
        graph.redirect(graph.inc[d], graph.inc[d].len(), graph.out[d][0].node),
        d,
    );
}

/// Removing one orphaned joint makes the graph smaller and keeps it well formed.
pub proof fn lemma_prune_step(graph: GraphView)
    requires
        graph.wf(),
    ensures
        graph.first_orphan() matches Some(d) ==> graph.remove_node(d).wf() && live_count(
            graph.remove_node(d).nodes,
        ) + 1 == live_count(graph.nodes),
{
    lemma_orphan(graph);
    if let Some(d) = graph.first_orphan() {
        lemma_live_count(graph.nodes, d);
        lemma_remove_node(graph, d);
    }
}

} // verus!
