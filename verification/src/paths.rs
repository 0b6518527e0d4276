//! How control moves through a chart, and that taking nodes out does not change it.

use crate::model::{count, lemma_count_contains, lemma_without_len, without, Arrow, GraphView};
use crate::node::{EdgeType, NodeLabel};
use crate::tidy::{
    contract, lemma_bypass, lemma_bypass_count, lemma_ends, lemma_orphan, lemma_picked,
    lemma_prune_step, live_count, prune,
};
use vstd::prelude::*;

verus! {

impl GraphView {
    /// Whether an edge of this kind leads from `a` to `b`.
    pub open spec fn arrow(self, a: int, b: int, kind: EdgeType) -> bool {
        0 <= a < self.out.len() && self.out[a].contains(Arrow { node: b, kind })
    }

    /// Whether an edge leads from `a` to `b`.
    pub open spec fn adjacent(self, a: int, b: int) -> bool {
        exists|kind: EdgeType| self.arrow(a, b, kind)
    }

    /// Whether control that is at `v` comes to `w`, which is not gone, through `n` nodes that are
    /// gone.
    pub open spec fn passes(self, gone: spec_fn(int) -> bool, v: int, w: int, n: nat) -> bool
        decreases n,
    {
        if n == 0 {
            v == w && !gone(w)
        } else {
            gone(v) && exists|x: int| #[trigger]
                self.adjacent(v, x) && self.passes(gone, x, w, (n - 1) as nat)
        }
    }

    /// Whether control that is at `v` comes to `w`, which is not gone, through nodes that are gone
    /// only.
    pub open spec fn leads(self, gone: spec_fn(int) -> bool, v: int, w: int) -> bool {
        exists|n: nat| self.passes(gone, v, w, n)
    }

    /// Whether control that leaves `u`, which is not gone, by an edge of this kind comes next to
    /// `w`, when nodes that are gone do not count.
    pub open spec fn flows(
        self,
        gone: spec_fn(int) -> bool,
        u: int,
        w: int,
        kind: EdgeType,
    ) -> bool {
        !gone(u) && exists|v: int| #[trigger]
            self.arrow(u, v, kind) && self.leads(gone, v, w)
    }
}

/// An edge is in both lists.
pub proof fn lemma_both_lists(graph: GraphView, a: int, b: int, kind: EdgeType)
    requires
        graph.wf(),
        0 <= a < graph.nodes.len(),
        0 <= b < graph.nodes.len(),
    ensures
        graph.out[a].contains(Arrow { node: b, kind }) <==> graph.inc[b].contains(
            Arrow { node: a, kind },
        ),
{
    reveal(GraphView::wf);
    lemma_count_contains(graph.out[a], Arrow { node: b, kind });
    lemma_count_contains(graph.inc[b], Arrow { node: a, kind });
    assert(count(graph.out[a], Arrow { node: b, kind }) == count(
        graph.inc[b],
        Arrow { node: a, kind },
    ));
}

/// Edges lead from nodes to nodes.
pub proof fn lemma_arrow_live(graph: GraphView, a: int, b: int, kind: EdgeType)
    requires
        graph.wf(),
        graph.arrow(a, b, kind),
    ensures
        graph.live(a),
        graph.live(b),
{
    reveal(GraphView::wf);
    let j = graph.out[a].index_of(Arrow { node: b, kind });
    assert(graph.out[a][j] == Arrow { node: b, kind });
}

pub proof fn lemma_arrow_redirect(
    graph: GraphView,
    arrows: Seq<Arrow>,
    k: nat,
    to: int,
    a: int,
    b: int,
    kind: EdgeType,
)
    requires
        k <= arrows.len(),
        forall|j: int| 0 <= j < k ==> 0 <= (#[trigger] arrows[j]).node < graph.out.len(),
    ensures
        graph.redirect(arrows, k, to).out.len() == graph.out.len(),
        graph.redirect(arrows, k, to).arrow(a, b, kind) <==> graph.arrow(a, b, kind) || (b == to
            && exists|j: int| 0 <= j < k && arrows[j] == Arrow { node: a, kind }),
    decreases k,
{
    if k > 0 {
        lemma_arrow_redirect(graph, arrows, (k - 1) as nat, to, a, b, kind);
        let before = graph.redirect(arrows, (k - 1) as nat, to);
        let after = graph.redirect(arrows, k, to);
        let first = Arrow { node: to, kind: arrows[k - 1].kind };
        let target = Arrow { node: b, kind };
        if 0 <= a < graph.out.len() {
            if a == arrows[k - 1].node {
                assert(after.out[a] == seq![first] + before.out[a]);
                if before.out[a].contains(target) {
                    let j = before.out[a].index_of(target);
                    assert(after.out[a][j + 1] == target);
                }
                if first == target {
                    assert(after.out[a][0] == target);
                }
                if after.out[a].contains(target) && first != target {
                    let j = after.out[a].index_of(target);
                    assert(before.out[a][j - 1] == target);
                }
            } else {
                assert(after.out[a] == before.out[a]);
            }
        }
        assert(after.arrow(a, b, kind) <==> before.arrow(a, b, kind) || (b == to && arrows[k - 1]
            == Arrow { node: a, kind }));
    }
}

pub proof fn lemma_arrow_remove(graph: GraphView, d: int, a: int, b: int, kind: EdgeType)
    ensures
        graph.remove_node(d).arrow(a, b, kind) <==> a != d && b != d && graph.arrow(a, b, kind),
{
    let after = graph.remove_node(d);
    let target = Arrow { node: b, kind };
    let keep = |arrow: Arrow| arrow.node != d;
    if 0 <= a < graph.out.len() && a != d {
        assert(after.out[a] == without(graph.out[a], d));
        if after.out[a].contains(target) {
            let j = after.out[a].index_of(target);
            lemma_without_len(graph.out[a], d);
            assert(without(graph.out[a], d)[j] == target);
        }
        if graph.out[a].contains(target) && b != d {
            let j = graph.out[a].index_of(target);
            graph.out[a].lemma_filter_contains(keep, j);
        }
    }
}

/// The edges after a node has been taken out.
pub proof fn lemma_arrow_bypass(graph: GraphView, d: int, a: int, b: int, kind: EdgeType)
    requires
        graph.wf(),
        graph.live(d),
        graph.out[d].len() == 1,
    ensures
        graph.bypass(d).arrow(a, b, kind) <==> a != d && b != d && (graph.arrow(a, b, kind) || (b
            == graph.out[d][0].node && graph.arrow(a, d, kind))),
{
    reveal(GraphView::wf);
    let n = graph.out[d][0].node;
    let arrows = graph.inc[d];
    lemma_ends(graph, d);
    assert forall|j: int| 0 <= j < arrows.len() implies 0 <= (#[trigger] arrows[j]).node
        < graph.out.len() by {
        assert(graph.live(arrows[j].node));
    }
    lemma_arrow_redirect(graph, arrows, arrows.len(), n, a, b, kind);
    lemma_arrow_remove(graph.redirect(arrows, arrows.len(), n), d, a, b, kind);
    if 0 <= a < graph.nodes.len() {
        lemma_both_lists(graph, a, d, kind);
    }
    let from_a = Arrow { node: a, kind };
    if exists|j: int| 0 <= j < arrows.len() && arrows[j] == from_a {
        let j = choose|j: int| 0 <= j < arrows.len() && arrows[j] == from_a;
        assert(arrows.contains(from_a));
        assert(graph.live(arrows[j].node));
    }
    if graph.arrow(a, d, kind) {
        let j = arrows.index_of(from_a);
        assert(arrows[j] == from_a);
    }
}

/// Where control at `v` comes to before `d` is taken out, it still comes to afterwards, and from
/// `d` it comes there through the node that `d` leads to.
proof fn lemma_pass_bypass(
    graph: GraphView,
    d: int,
    gone: spec_fn(int) -> bool,
    v: int,
    w: int,
    n: nat,
)
    requires
        graph.wf(),
        graph.live(d),
        graph.out[d].len() == 1,
        gone(d),
        graph.passes(gone, v, w, n),
    ensures
        v != d ==> graph.bypass(d).leads(gone, v, w),
        v == d ==> graph.out[d][0].node != d && graph.bypass(d).leads(
            gone,
            graph.out[d][0].node,
            w,
        ),
    decreases n,
{
    let after = graph.bypass(d);
    let next = graph.out[d][0].node;
    if n == 0 {
        assert(after.passes(gone, v, w, 0));
    } else {
        let x = choose|x: int| #[trigger]
            graph.adjacent(v, x) && graph.passes(gone, x, w, (n - 1) as nat);
        let kind = choose|kind: EdgeType| graph.arrow(v, x, kind);
        lemma_pass_bypass(graph, d, gone, x, w, (n - 1) as nat);
        if v == d {
            let j = graph.out[d].index_of(Arrow { node: x, kind });
            assert(x == next);
        } else {
            let y = if x == d {
                next
            } else {
                x
            };
            lemma_arrow_bypass(graph, d, v, y, kind);
            assert(after.arrow(v, y, kind));
            assert(after.adjacent(v, y));
            let m = choose|m: nat| after.passes(gone, y, w, m);
            assert(after.passes(gone, v, w, m + 1));
        }
    }
}

/// Where control at `v` comes to after `d` is taken out, it came to before.
proof fn lemma_pass_unbypass(
    graph: GraphView,
    d: int,
    gone: spec_fn(int) -> bool,
    v: int,
    w: int,
    n: nat,
)
    requires
        graph.wf(),
        graph.live(d),
        graph.out[d].len() == 1,
        gone(d),
        graph.bypass(d).passes(gone, v, w, n),
    ensures
        graph.leads(gone, v, w),
    decreases n,
{
    let after = graph.bypass(d);
    let next = graph.out[d][0].node;
    if n == 0 {
        assert(graph.passes(gone, v, w, 0));
    } else {
        let x = choose|x: int| #[trigger]
            after.adjacent(v, x) && after.passes(gone, x, w, (n - 1) as nat);
        let kind = choose|kind: EdgeType| after.arrow(v, x, kind);
        lemma_pass_unbypass(graph, d, gone, x, w, (n - 1) as nat);
        lemma_arrow_bypass(graph, d, v, x, kind);
        let m = choose|m: nat| graph.passes(gone, x, w, m);
        if graph.arrow(v, x, kind) {
            assert(graph.adjacent(v, x));
            assert(graph.passes(gone, v, w, m + 1));
        } else {
            lemma_first_arrow(graph, d);
            assert(graph.adjacent(d, x));
            assert(graph.passes(gone, d, w, m + 1));
            assert(graph.adjacent(v, d));
            assert(graph.passes(gone, v, w, m + 2));
        }
    }
}

pub proof fn lemma_first_arrow(graph: GraphView, d: int)
    requires
        graph.wf(),
        graph.live(d),
        graph.out[d].len() >= 1,
    ensures
        graph.arrow(d, graph.out[d][0].node, graph.out[d][0].kind),
        graph.adjacent(d, graph.out[d][0].node),
{
    reveal(GraphView::wf);
    let first = graph.out[d][0];
    assert(first == Arrow { node: first.node, kind: first.kind });
    assert(graph.out[d].contains(first));
    assert(graph.arrow(d, first.node, first.kind));
}

/// Taking one node out does not change where control comes to.
pub proof fn bypass_keeps_flow(
    graph: GraphView,
    d: int,
    gone: spec_fn(int) -> bool,
    u: int,
    w: int,
    kind: EdgeType,
)
    requires
        graph.wf(),
        graph.live(d),
        graph.out[d].len() == 1,
        gone(d),
    ensures
        graph.bypass(d).flows(gone, u, w, kind) <==> graph.flows(gone, u, w, kind),
{
    let after = graph.bypass(d);
    let next = graph.out[d][0].node;
    if graph.flows(gone, u, w, kind) {
        let v = choose|v: int| #[trigger] graph.arrow(u, v, kind) && graph.leads(gone, v, w);
        let n = choose|n: nat| graph.passes(gone, v, w, n);
        lemma_pass_bypass(graph, d, gone, v, w, n);
        let y = if v == d {
            next
        } else {
            v
        };
        lemma_arrow_bypass(graph, d, u, y, kind);
        assert(after.arrow(u, y, kind) && after.leads(gone, y, w));
    }
    if after.flows(gone, u, w, kind) {
        let v = choose|v: int| #[trigger] after.arrow(u, v, kind) && after.leads(gone, v, w);
        let n = choose|n: nat| after.passes(gone, v, w, n);
        lemma_pass_unbypass(graph, d, gone, v, w, n);
        lemma_arrow_bypass(graph, d, u, v, kind);
        if !graph.arrow(u, v, kind) {
            lemma_first_arrow(graph, d);
            let m = choose|m: nat| graph.passes(gone, v, w, m);
            assert(graph.passes(gone, d, w, m + 1));
            assert(graph.arrow(u, d, kind) && graph.leads(gone, d, w));
        }
    }
}

proof fn lemma_pass_orphan(
    graph: GraphView,
    d: int,
    gone: spec_fn(int) -> bool,
    v: int,
    w: int,
    n: nat,
)
    requires
        graph.wf(),
        graph.orphan(d),
        v != d,
    ensures
        graph.remove_node(d).passes(gone, v, w, n) <==> graph.passes(gone, v, w, n),
    decreases n,
{
    let after = graph.remove_node(d);
    if n > 0 {
        if graph.passes(gone, v, w, n) {
            let x = choose|x: int| #[trigger]
                graph.adjacent(v, x) && graph.passes(gone, x, w, (n - 1) as nat);
            let kind = choose|kind: EdgeType| graph.arrow(v, x, kind);
            lemma_no_arrow_to_orphan(graph, d, v, kind);
            lemma_arrow_remove(graph, d, v, x, kind);
            lemma_pass_orphan(graph, d, gone, x, w, (n - 1) as nat);
            assert(after.arrow(v, x, kind));
            assert(after.adjacent(v, x));
        }
        if after.passes(gone, v, w, n) {
            let x = choose|x: int| #[trigger]
                after.adjacent(v, x) && after.passes(gone, x, w, (n - 1) as nat);
            let kind = choose|kind: EdgeType| after.arrow(v, x, kind);
            lemma_arrow_remove(graph, d, v, x, kind);
            lemma_pass_orphan(graph, d, gone, x, w, (n - 1) as nat);
            assert(graph.adjacent(v, x));
        }
    }
}

proof fn lemma_no_arrow_to_orphan(graph: GraphView, d: int, a: int, kind: EdgeType)
    requires
        graph.wf(),
        graph.orphan(d),
    ensures
        !graph.arrow(a, d, kind),
{
    reveal(GraphView::wf);
    if 0 <= a < graph.nodes.len() {
        lemma_both_lists(graph, a, d, kind);
    }
}

/// Removing an orphaned joint does not change where control comes to.
pub proof fn orphan_keeps_flow(
    graph: GraphView,
    d: int,
    gone: spec_fn(int) -> bool,
    u: int,
    w: int,
    kind: EdgeType,
)
    requires
        graph.wf(),
        graph.orphan(d),
        gone(d),
    ensures
        graph.remove_node(d).flows(gone, u, w, kind) <==> graph.flows(gone, u, w, kind),
{
    let after = graph.remove_node(d);
    if graph.flows(gone, u, w, kind) {
        let v = choose|v: int| #[trigger] graph.arrow(u, v, kind) && graph.leads(gone, v, w);
        let n = choose|n: nat| graph.passes(gone, v, w, n);
        lemma_no_arrow_to_orphan(graph, d, u, kind);
        lemma_arrow_remove(graph, d, u, v, kind);
        lemma_pass_orphan(graph, d, gone, v, w, n);
        assert(after.arrow(u, v, kind) && after.leads(gone, v, w));
    }
    if after.flows(gone, u, w, kind) {
        let v = choose|v: int| #[trigger] after.arrow(u, v, kind) && after.leads(gone, v, w);
        let n = choose|n: nat| after.passes(gone, v, w, n);
        lemma_arrow_remove(graph, d, u, v, kind);
        lemma_pass_orphan(graph, d, gone, v, w, n);
        assert(graph.arrow(u, v, kind) && graph.leads(gone, v, w));
    }
}

/// Pruning does not change where control comes to.
pub proof fn pruning_keeps_flow(
    graph: GraphView,
    gone: spec_fn(int) -> bool,
    u: int,
    w: int,
    kind: EdgeType,
)
    requires
        graph.wf(),
        forall|i: int|
            0 <= i < graph.nodes.len() && #[trigger] graph.nodes[i] == Some(NodeLabel::Dummy)
                ==> gone(i),
    ensures
        prune(graph).flows(gone, u, w, kind) <==> graph.flows(gone, u, w, kind),
    decreases live_count(graph.nodes),
{
    lemma_orphan(graph);
    lemma_prune_step(graph);
    if let Some(d) = graph.first_orphan() {
        orphan_keeps_flow(graph, d, gone, u, w, kind);
        let after = graph.remove_node(d);
        assert forall|i: int|
            0 <= i < after.nodes.len() && #[trigger] after.nodes[i] == Some(
                NodeLabel::Dummy,
            ) implies gone(i) by {
            assert(graph.nodes[i] == after.nodes[i]);
        }
        pruning_keeps_flow(after, gone, u, w, kind);
    }
}

/// Taking nodes out does not change where control comes to.
pub proof fn contracting_keeps_flow(
    graph: GraphView,
    pick: spec_fn(int, NodeLabel) -> bool,
    gone: spec_fn(int) -> bool,
    u: int,
    w: int,
    kind: EdgeType,
)
    requires
        graph.wf(),
        forall|i: int| #[trigger] graph.picked(pick, i) ==> gone(i),
    ensures
        contract(graph, pick) matches Ok(rest) ==> (rest.flows(gone, u, w, kind) <==> graph.flows(
            gone,
            u,
            w,
            kind,
        )),
    decreases live_count(graph.nodes),
{
    lemma_picked(graph, pick);
    if let Some(d) = graph.first_picked(pick) {
        if graph.out[d].len() == 1 {
            lemma_bypass(graph, d);
            lemma_bypass_count(graph, d);
            bypass_keeps_flow(graph, d, gone, u, w, kind);
            let after = graph.bypass(d);
            assert forall|i: int| #[trigger] after.picked(pick, i) implies gone(i) by {
                assert(graph.picked(pick, i));
            }
            contracting_keeps_flow(after, pick, gone, u, w, kind);
        }
    }
}

/// Where no node is gone, control comes to where the edges lead.
pub proof fn flow_is_edges(
    graph: GraphView,
    gone: spec_fn(int) -> bool,
    u: int,
    w: int,
    kind: EdgeType,
)
    requires
        graph.wf(),
        forall|i: int| #[trigger] graph.live(i) ==> !gone(i),
    ensures
        graph.flows(gone, u, w, kind) <==> graph.arrow(u, w, kind),
{
    if graph.arrow(u, w, kind) {
        lemma_arrow_live(graph, u, w, kind);
        assert(graph.passes(gone, w, w, 0));
        assert(graph.leads(gone, w, w));
    }
    if graph.flows(gone, u, w, kind) {
        let v = choose|v: int| #[trigger] graph.arrow(u, v, kind) && graph.leads(gone, v, w);
        let n = choose|n: nat| graph.passes(gone, v, w, n);
        lemma_arrow_live(graph, u, v, kind);
        if n > 0 {
            assert(!gone(v));
        }
    }
}

} // verus!
