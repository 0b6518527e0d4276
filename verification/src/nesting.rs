//! Blocks inside of blocks: how their drafts compare, and what that means for their flowcharts.

use crate::additions::{lemma_build_adds, lemma_held_same};
use crate::ast::{Ast, AstNode};
use crate::branches::{kind_count, lemma_kinds};
use crate::flow::{
    blank, build, build_block, build_chain, build_node, draft, outermost, Built, Chain, Frame, Net,
};
use crate::graph::flowchart;
use crate::growth::{
    lemma_blank, lemma_build, lemma_edge, lemma_grows_numbers, lemma_grows_trans, lemma_node,
    lemma_open_block,
};
use crate::laws::{flowchart_is_regular, flowchart_keeps_flow, flowchart_keeps_nodes, passing_nodes};
use crate::model::{count, lemma_count_contains, Arrow, GraphView};
use crate::node::{EdgeType, NodeLabel};
use crate::twins::{
    alike, exits, idle_in, lemma_alike, lemma_frames_kept, lemma_twin_block, lemma_twin_edge,
    lemma_twin_hop, lemma_twin_node, lemma_twin_spare, lemma_twin_swap, mirrors, relays, same_names,
    twin_frames, twin_statement, twins, waits, Twin,
};
use std::rc::Rc;
use vstd::prelude::*;

verus! {

impl GraphView {
    /// Whether `other` is the same graph with node `up[i]` in the place of each node `i`: the
    /// labels are the same, and between any two nodes there are as many edges of each kind.
    pub open spec fn renumbered(self, other: GraphView, up: Seq<int>) -> bool {
        &&& up.len() == self.nodes.len()
        &&& forall|i: int| #[trigger]
            self.live(i) ==> other.live(up[i]) && other.nodes[up[i]] == self.nodes[i]
        &&& forall|i: int, j: int|
            #[trigger] self.live(i) && #[trigger] self.live(j) && up[i] == up[j] ==> i == j
        &&& forall|x: int| #[trigger]
            other.live(x) ==> exists|i: int| #[trigger] self.live(i) && up[i] == x
        &&& forall|i: int, j: int, kind: EdgeType|
            self.live(i) && self.live(j) ==> #[trigger] count(
                other.out[up[i]],
                Arrow { node: up[j], kind },
            ) == count(self.out[i], Arrow { node: j, kind })
    }
}

/// Control that has come to a node that stands for another one goes on to where that is left.
proof fn lemma_relay(a: GraphView, b: GraphView, twin: Twin, x: int, w: int)
    requires
        alike(a, b, twin),
        twin.busy(x),
        b.leads(passing_nodes(b), twin.up[twin.down[x]], w),
    ensures
        b.leads(passing_nodes(b), x, w),
    decreases twin.span - twin.order[x],
{
    reveal(alike);
    let gone = passing_nodes(b);
    if !exits(twin, x) {
        let y = b.out[x][0].node;
        assert(relays(b, a, twin, x));
        lemma_relay(a, b, twin, y, w);
        let n = choose|n: nat| b.passes(gone, y, w, n);
        lemma_first(b, x);
        assert(b.adjacent(x, y) && b.passes(gone, y, w, (n + 1 - 1) as nat));
        assert(b.passes(gone, x, w, n + 1));
    }
}

proof fn lemma_first(b: GraphView, x: int)
    requires
        0 <= x < b.out.len(),
        b.out[x].len() > 0,
    ensures
        b.adjacent(x, b.out[x][0].node),
{
    let first = b.out[x][0];
    assert(first == Arrow { node: first.node, kind: first.kind });
    assert(b.out[x].contains(first));
    assert(b.arrow(x, first.node, first.kind));
}

proof fn lemma_lead_up(a: GraphView, b: GraphView, twin: Twin, x: int, w: int, n: nat)
    requires
        alike(a, b, twin),
        twin.busy(x),
        a.passes(passing_nodes(a), twin.down[x], w, n),
    ensures
        b.leads(passing_nodes(b), x, twin.up[w]),
    decreases n,
{
    reveal(alike);
    let gone = passing_nodes(b);
    let v = twin.down[x];
    let e = twin.up[v];
    assert(twin.busy(e));
    if n == 0 {
        if !exits(twin, x) {
            assert(relays(b, a, twin, x));
        }
        assert(b.passes(gone, x, twin.up[w], 0));
    } else {
        let y = choose|y: int| #[trigger]
            a.adjacent(v, y) && a.passes(passing_nodes(a), y, w, (n - 1) as nat);
        let kind = choose|kind: EdgeType| a.arrow(v, y, kind);
        let j = a.out[v].index_of(Arrow { node: y, kind });
        assert(mirrors(a.out[v], b.out[e], twin));
        let z = b.out[e][j].node;
        assert(twin.busy(z) && twin.down[z] == y);
        lemma_lead_up(a, b, twin, z, w, (n - 1) as nat);
        let m = choose|m: nat| b.passes(gone, z, twin.up[w], m);
        assert(b.out[e].contains(b.out[e][j]));
        assert(b.out[e][j] == Arrow { node: z, kind: b.out[e][j].kind });
        assert(b.arrow(e, z, b.out[e][j].kind));
        assert(b.adjacent(e, z) && b.passes(gone, z, twin.up[w], (m + 1 - 1) as nat));
        assert(b.passes(gone, e, twin.up[w], m + 1));
        lemma_relay(a, b, twin, x, twin.up[w]);
    }
}

proof fn lemma_lead_down(a: GraphView, b: GraphView, twin: Twin, x: int, w: int, n: nat)
    requires
        alike(a, b, twin),
        twin.busy(x),
        b.passes(passing_nodes(b), x, w, n),
    ensures
        twin.busy(w),
        a.leads(passing_nodes(a), twin.down[x], twin.down[w]),
    decreases n,
{
    reveal(alike);
    let gone = passing_nodes(a);
    let v = twin.down[x];
    if n == 0 {
        if !exits(twin, x) {
            assert(relays(b, a, twin, x));
        }
        assert(twin.busy(twin.up[v]));
        assert(a.passes(gone, v, v, 0));
    } else {
        let y = choose|y: int| #[trigger]
            b.adjacent(x, y) && b.passes(passing_nodes(b), y, w, (n - 1) as nat);
        let kind = choose|kind: EdgeType| b.arrow(x, y, kind);
        let j = b.out[x].index_of(Arrow { node: y, kind });
        if exits(twin, x) {
            assert(twin.busy(twin.up[v]));
            assert(mirrors(a.out[v], b.out[x], twin));
            assert(twin.busy(b.out[x][j].node));
            lemma_lead_down(a, b, twin, y, w, (n - 1) as nat);
            let u = twin.down[y];
            let m = choose|m: nat| a.passes(gone, u, twin.down[w], m);
            assert(a.out[v].contains(a.out[v][j]));
            assert(a.out[v][j] == Arrow { node: u, kind: a.out[v][j].kind });
            assert(a.arrow(v, u, a.out[v][j].kind));
            assert(a.adjacent(v, u) && a.passes(gone, u, twin.down[w], (m + 1 - 1) as nat));
            assert(a.passes(gone, v, twin.down[w], m + 1));
        } else {
            assert(relays(b, a, twin, x));
            assert(b.out[x][j] == b.out[x][0]);
            lemma_lead_down(a, b, twin, y, w, (n - 1) as nat);
        }
    }
}

/// Control flows alike in graphs that are alike.
proof fn lemma_flows_alike(a: GraphView, b: GraphView, twin: Twin, u: int, w: int, kind: EdgeType)
    requires
        alike(a, b, twin),
        0 <= u < a.nodes.len(),
        0 <= w < a.nodes.len(),
    ensures
        a.flows(passing_nodes(a), u, w, kind) <==> b.flows(
            passing_nodes(b),
            twin.up[u],
            twin.up[w],
            kind,
        ),
{
    reveal(alike);
    let e = twin.up[u];
    assert(twin.busy(e) && twin.busy(twin.up[w]));
    assert(mirrors(a.out[u], b.out[e], twin));
    if a.flows(passing_nodes(a), u, w, kind) {
        let v = choose|v: int| #[trigger]
            a.arrow(u, v, kind) && a.leads(passing_nodes(a), v, w);
        let n = choose|n: nat| a.passes(passing_nodes(a), v, w, n);
        let j = a.out[u].index_of(Arrow { node: v, kind });
        let z = b.out[e][j].node;
        assert(twin.busy(z) && twin.down[z] == v);
        lemma_lead_up(a, b, twin, z, w, n);
        assert(b.out[e].contains(b.out[e][j]));
        assert(b.out[e][j] == Arrow { node: z, kind });
        assert(b.arrow(e, z, kind) && b.leads(passing_nodes(b), z, twin.up[w]));
    }
    if b.flows(passing_nodes(b), e, twin.up[w], kind) {
        let z = choose|z: int| #[trigger]
            b.arrow(e, z, kind) && b.leads(passing_nodes(b), z, twin.up[w]);
        let n = choose|n: nat| b.passes(passing_nodes(b), z, twin.up[w], n);
        let j = b.out[e].index_of(Arrow { node: z, kind });
        assert(twin.busy(b.out[e][j].node));
        lemma_lead_down(a, b, twin, z, twin.up[w], n);
        let v = twin.down[z];
        assert(a.out[u].contains(a.out[u][j]));
        assert(a.out[u][j] == Arrow { node: v, kind });
        assert(a.arrow(u, v, kind) && a.leads(passing_nodes(a), v, w));
    }
}

proof fn lemma_count_kind(list: Seq<Arrow>, node: int, kind: EdgeType)
    ensures
        count(list, Arrow { node, kind }) <= kind_count(list, kind),
    decreases list.len(),
{
    if list.len() > 0 {
        lemma_count_kind(list.drop_last(), node, kind);
    }
}

/// In a flowchart at most one edge of each kind leads from one node to another.
proof fn lemma_single(ast: &Ast, u: int, w: int, kind: EdgeType)
    requires
        flowchart(ast) is Ok,
        flowchart(ast)->Ok_0.live(u),
    ensures
        count(flowchart(ast)->Ok_0.out[u], Arrow { node: w, kind }) <= 1,
{
    let chart = flowchart(ast)->Ok_0;
    flowchart_is_regular(ast, u);
    lemma_count_kind(chart.out[u], w, kind);
    lemma_kinds(chart.out[u]);
}

/// Trees with drafts that are alike have the same flowchart, up to the numbers of its nodes.
pub proof fn lemma_same_chart(one: &Ast, other: &Ast, twin: Twin)
    requires
        flowchart(one) is Ok,
        flowchart(other) is Ok,
        twins(draft(one).net, draft(other).net, twin),
        twin.idle == Set::<int>::empty(),
    ensures
        flowchart(one)->Ok_0.renumbered(flowchart(other)->Ok_0, twin.up),
{
    let c = flowchart(one)->Ok_0;
    let d = flowchart(other)->Ok_0;
    let a = draft(one).net.graph;
    let b = draft(other).net.graph;
    flowchart_keeps_nodes(one);
    flowchart_keeps_nodes(other);
    assert(alike(a, b, twin));
    reveal(alike);
    assert forall|i: int| #[trigger] c.live(i) implies d.live(twin.up[i]) && d.nodes[twin.up[i]]
        == c.nodes[i] by {
        assert(twin.busy(twin.up[i]));
    }
    assert forall|i: int, j: int|
        #[trigger] c.live(i) && #[trigger] c.live(j) && twin.up[i] == twin.up[j] implies i == j by {
        assert(twin.busy(twin.up[i]) && twin.busy(twin.up[j]));
    }
    assert forall|x: int| #[trigger] d.live(x) implies exists|i: int| #[trigger]
        c.live(i) && twin.up[i] == x by {
        assert(twin.busy(x));
        if !exits(twin, x) {
            assert(relays(b, a, twin, x));
        }
        assert(twin.busy(twin.up[twin.down[x]]));
        assert(c.live(twin.down[x]));
    }
    assert forall|i: int, j: int, kind: EdgeType| c.live(i) && c.live(j) implies #[trigger] count(
        d.out[twin.up[i]],
        Arrow { node: twin.up[j], kind },
    ) == count(c.out[i], Arrow { node: j, kind }) by {
        let p = twin.up[i];
        let q = twin.up[j];
        assert(d.live(p) && d.live(q));
        lemma_flows_alike(a, b, twin, i, j, kind);
        flowchart_keeps_flow(one, i, j, kind);
        flowchart_keeps_flow(other, p, q, kind);
        lemma_single(one, i, j, kind);
        lemma_single(other, p, q, kind);
        lemma_count_contains(c.out[i], Arrow { node: j, kind });
        lemma_count_contains(d.out[p], Arrow { node: q, kind });
        assert(c.out.len() == c.nodes.len() && d.out.len() == d.nodes.len()) by {
            reveal(GraphView::wf);
        }
    }
}

/// The block after one more statement and a joint behind it.
pub open spec fn onward(ast: &Ast, frame: Frame, chain: Chain) -> Chain {
    let drawn = build(ast, frame.between(chain.source, chain.sink), chain.built.net);
    if drawn.fault is Some {
        Chain { built: drawn, ..chain }
    } else {
        Chain {
            built: Built::done(drawn.net.node(NodeLabel::Dummy)),
            source: chain.sink,
            sink: drawn.net.next(),
        }
    }
}

/// The block after `k` statements, with a joint behind each.
pub open spec fn run(w: Seq<Rc<Ast>>, k: nat, frame: Frame, start: Chain) -> Chain
    decreases k,
{
    if k == 0 || k > w.len() {
        start
    } else {
        let before = run(w, (k - 1) as nat, frame, start);
        if before.built.fault is Some {
            before
        } else {
            onward(&*w[k - 1], frame, before)
        }
    }
}

/// The last statement of a block of which the others have been drawn.
pub open spec fn last_of(w: Seq<Rc<Ast>>, frame: Frame, start: Chain) -> Built {
    let before = run(w, (w.len() - 1) as nat, frame, start);
    build(&*w[w.len() - 1], frame.between(before.source, before.sink), before.built.net)
}

/// The block after its last statements, which is led on to the frame's sink.
pub open spec fn finish(w: Seq<Rc<Ast>>, frame: Frame, start: Chain) -> Net {
    let before = run(w, (w.len() - 1) as nat, frame, start);
    last_of(w, frame, start).net.normal(before.sink, frame.sink)
}

/// Whether the last statements of a block have no fault.
pub open spec fn finishes(w: Seq<Rc<Ast>>, frame: Frame, start: Chain) -> bool {
    &&& run(w, (w.len() - 1) as nat, frame, start).built.fault is None
    &&& last_of(w, frame, start).fault is None
}

/// A block that starts at node `c`.
pub open spec fn started(net: Net, c: int) -> Chain {
    Chain { built: Built::done(net), source: c, sink: c + 1 }
}

proof fn lemma_chain_is_run(v: Seq<Rc<Ast>>, k: nat, frame: Frame, net: Net, c: int)
    requires
        k < v.len(),
    ensures
        build_chain(v, k, frame, net, c) == run(v, k, frame, started(net, c)),
    decreases k,
{
    if k > 0 {
        lemma_chain_is_run(v, (k - 1) as nat, frame, net, c);
    }
}

proof fn lemma_block_finishes(v: Seq<Rc<Ast>>, frame: Frame, n: Net)
    requires
        v.len() > 0,
        build_block(v, frame, n).fault is None,
    ensures
        finishes(v, frame, started(n.open_block(frame), n.next())),
        build_block(v, frame, n).net == finish(
            v,
            frame,
            started(n.open_block(frame), n.next()),
        ),
{
    let c = n.next();
    let opened = n.open_block(frame);
    lemma_chain_is_run(v, (v.len() - 1) as nat, frame, opened, c);
    let before = build_chain(v, (v.len() - 1) as nat, frame, opened, c);
    let all = build_chain(v, v.len(), frame, opened, c);
    assert(before.built.fault is None);
    assert(all.sink == before.sink);
}

proof fn lemma_run_concat(
    p: Seq<Rc<Ast>>,
    w: Seq<Rc<Ast>>,
    j: nat,
    frame: Frame,
    start: Chain,
)
    requires
        j <= w.len(),
    ensures
        run(p + w, p.len() + j, frame, start) == run(w, j, frame, run(p, p.len(), frame, start)),
    decreases j,
{
    if j == 0 {
        lemma_run_prefix(p, w, p.len(), frame, start);
    } else {
        lemma_run_concat(p, w, (j - 1) as nat, frame, start);
        assert((p + w)[p.len() + j - 1] == w[j - 1]);
    }
}

proof fn lemma_run_prefix(p: Seq<Rc<Ast>>, w: Seq<Rc<Ast>>, k: nat, frame: Frame, start: Chain)
    requires
        k <= p.len(),
    ensures
        run(p + w, k, frame, start) == run(p, k, frame, start),
    decreases k,
{
    if k > 0 {
        lemma_run_prefix(p, w, (k - 1) as nat, frame, start);
    }
}

/// A fault ends a block.
proof fn lemma_run_faultless(w: Seq<Rc<Ast>>, k: nat, m: nat, frame: Frame, start: Chain)
    requires
        k <= m <= w.len(),
        run(w, m, frame, start).built.fault is None,
    ensures
        run(w, k, frame, start).built.fault is None,
    decreases m,
{
    if k < m {
        lemma_run_faultless(w, k, (m - 1) as nat, frame, start);
    }
}

proof fn lemma_finish_split(p: Seq<Rc<Ast>>, w: Seq<Rc<Ast>>, frame: Frame, start: Chain)
    requires
        w.len() > 0,
        finishes(p + w, frame, start),
    ensures
        run(p, p.len(), frame, start).built.fault is None,
        finishes(w, frame, run(p, p.len(), frame, start)),
        finish(p + w, frame, start) == finish(w, frame, run(p, p.len(), frame, start)),
{
    let v = p + w;
    lemma_run_concat(p, w, (w.len() - 1) as nat, frame, start);
    assert(p.len() + (w.len() - 1) as nat == (v.len() - 1) as nat);
    assert(v[v.len() - 1] == w[w.len() - 1]);
    lemma_run_prefix(p, w, p.len(), frame, start);
    lemma_run_faultless(v, p.len(), (v.len() - 1) as nat, frame, start);
}

/// Only where a frame jumps to matters to the statements of a block.
proof fn lemma_run_frame(
    w: Seq<Rc<Ast>>,
    k: nat,
    frame: Frame,
    source: int,
    sink: int,
    start: Chain,
)
    ensures
        run(w, k, frame.between(source, sink), start) == run(w, k, frame, start),
    decreases k,
{
    if k > 0 && k <= w.len() {
        lemma_run_frame(w, (k - 1) as nat, frame, source, sink, start);
        let before = run(w, (k - 1) as nat, frame, start);
        assert(frame.between(source, sink).between(before.source, before.sink) == frame.between(
            before.source,
            before.sink,
        ));
    }
}

/// Whether no edge leads to node `i`.
pub open spec fn unentered(net: Net, i: int) -> bool {
    forall|y: int, j: int|
        0 <= y < net.next() && 0 <= j < net.graph.out[y].len() ==> (
        #[trigger] net.graph.out[y][j]).node != i
}

/// Whether two blocks have got equally far: the joint before the next statement and the one after
/// it stand for each other and lead nowhere yet.
pub open spec fn level(
    f: Frame,
    g: Frame,
    a0: Net,
    b0: Net,
    ca: Chain,
    cb: Chain,
    twin: Twin,
) -> bool {
    &&& ca.built.fault is None
    &&& cb.built.fault is None
    &&& ca.built.net.ok()
    &&& cb.built.net.ok()
    &&& f.within(a0)
    &&& g.within(b0)
    &&& a0.grows_to(ca.built.net)
    &&& b0.grows_to(cb.built.net)
    &&& twins(ca.built.net, cb.built.net, twin)
    &&& idle_in(twin)
    &&& twin_frames(f, g, twin)
    &&& a0.next() <= ca.source
    &&& a0.next() <= ca.sink
    &&& b0.next() <= cb.source < cb.built.net.next()
    &&& b0.next() <= cb.sink < cb.built.net.next()
    &&& ca.source != ca.sink
    &&& twin.up[ca.source] == cb.source
    &&& twin.up[ca.sink] == cb.sink
    &&& waits(ca.built.net, ca.source)
    &&& waits(ca.built.net, ca.sink)
    &&& unentered(cb.built.net, cb.sink)
    &&& forall|x: int| #[trigger]
        twin.idle.contains(x) ==> b0.next() <= x && waits(cb.built.net, x)
}

proof fn lemma_waits_kept(net: Net, later: Net, source: int, i: int)
    requires
        waits(net, i),
        i != source,
        net.grows_to(later),
        net.adds_to(later, source),
    ensures
        waits(later, i),
{
    reveal(Net::grows_to);
}

proof fn lemma_unentered_new(net: Net)
    requires
        net.ok(),
    ensures
        unentered(net.node(NodeLabel::Dummy), net.next()),
        waits(net.node(NodeLabel::Dummy), net.next()),
{
    let after = net.node(NodeLabel::Dummy);
    reveal(GraphView::wf);
    reveal(Net::scoped);
    lemma_held_same(net, after);
    assert forall|y: int, j: int|
        0 <= y < after.next() && 0 <= j < after.graph.out[y].len() implies (
    #[trigger] after.graph.out[y][j]).node != net.next() by {
        assert(after.graph.out[y] == net.graph.out[y]);
        assert(net.graph.live(net.graph.out[y][j].node));
    }
}

/// One more statement, without a joint behind it.
proof fn level_last(
    ast: &Ast,
    f: Frame,
    g: Frame,
    a0: Net,
    b0: Net,
    ca: Chain,
    cb: Chain,
    twin: Twin,
) -> (later: Twin)
    requires
        level(f, g, a0, b0, ca, cb, twin),
        build(ast, f.between(ca.source, ca.sink), ca.built.net).fault is None,
        build(ast, g.between(cb.source, cb.sink), cb.built.net).fault is None,
    ensures
        ({
            let a = build(ast, f.between(ca.source, ca.sink), ca.built.net).net;
            let b = build(ast, g.between(cb.source, cb.sink), cb.built.net).net;
            &&& twins(a, b, later)
            &&& twin.kept_by(later)
            &&& idle_in(later)
            &&& twin_frames(f, g, later)
            &&& a.ok()
            &&& b.ok()
            &&& ca.built.net.grows_to(a)
            &&& cb.built.net.grows_to(b)
            &&& a0.grows_to(a)
            &&& b0.grows_to(b)
            &&& waits(a, ca.sink)
            &&& later.up[ca.sink] == cb.sink
            &&& forall|x: int| #[trigger]
                later.idle.contains(x) ==> b0.next() <= x && waits(b, x)
        }),
        twin.agrees(later, a0.next(), b0.next()),
{
    let f1 = f.between(ca.source, ca.sink);
    let g1 = g.between(cb.source, cb.sink);
    let a = build(ast, f1, ca.built.net).net;
    let b = build(ast, g1, cb.built.net).net;
    lemma_alike(ca.built.net, cb.built.net, twin);
    lemma_grows_numbers(a0, ca.built.net);
    lemma_grows_numbers(b0, cb.built.net);
    lemma_build(ast, f1, ca.built.net);
    lemma_build(ast, g1, cb.built.net);
    lemma_build_adds(ast, f1, ca.built.net);
    lemma_build_adds(ast, g1, cb.built.net);
    lemma_grows_trans(a0, ca.built.net, a);
    lemma_grows_trans(b0, cb.built.net, b);
    let later = twin_statement(
        ast,
        f,
        g,
        twin,
        ca.built.net,
        cb.built.net,
        ca.source,
        cb.source,
        ca.sink,
        cb.sink,
        a0,
        b0,
        twin,
    );
    lemma_frames_kept(f, g, twin, later);
    lemma_waits_kept(ca.built.net, a, ca.source, ca.sink);
    assert forall|x: int| #[trigger] later.idle.contains(x) implies b0.next() <= x && waits(
        b,
        x,
    ) by {
        assert(twin.busy(twin.up[ca.source]));
        lemma_waits_kept(cb.built.net, b, cb.source, x);
    }
    later
}

/// One more statement and a joint behind it.
proof fn level_step(
    ast: &Ast,
    f: Frame,
    g: Frame,
    a0: Net,
    b0: Net,
    ca: Chain,
    cb: Chain,
    twin: Twin,
) -> (later: Twin)
    requires
        level(f, g, a0, b0, ca, cb, twin),
        build(ast, f.between(ca.source, ca.sink), ca.built.net).fault is None,
        build(ast, g.between(cb.source, cb.sink), cb.built.net).fault is None,
    ensures
        level(f, g, a0, b0, onward(ast, f, ca), onward(ast, g, cb), later),
        later.idle == twin.idle,
        twin.agrees(later, a0.next(), b0.next()),
{
    let a = build(ast, f.between(ca.source, ca.sink), ca.built.net).net;
    let b = build(ast, g.between(cb.source, cb.sink), cb.built.net).net;
    let mid = level_last(ast, f, g, a0, b0, ca, cb, twin);
    lemma_grows_numbers(cb.built.net, b);
    level_joint(f, g, a0, b0, a, b, ca.sink, cb.sink, mid)
}

/// A joint behind a statement.
proof fn level_joint(
    f: Frame,
    g: Frame,
    a0: Net,
    b0: Net,
    a: Net,
    b: Net,
    sink_a: int,
    sink_b: int,
    twin: Twin,
) -> (later: Twin)
    requires
        a.ok(),
        b.ok(),
        f.within(a0),
        g.within(b0),
        a0.grows_to(a),
        b0.grows_to(b),
        twins(a, b, twin),
        idle_in(twin),
        twin_frames(f, g, twin),
        waits(a, sink_a),
        a0.next() <= sink_a,
        b0.next() <= sink_b < b.next(),
        twin.up[sink_a] == sink_b,
        forall|x: int| #[trigger] twin.idle.contains(x) ==> b0.next() <= x && waits(b, x),
    ensures
        level(
            f,
            g,
            a0,
            b0,
            Chain {
                built: Built::done(a.node(NodeLabel::Dummy)),
                source: sink_a,
                sink: a.next(),
            },
            Chain {
                built: Built::done(b.node(NodeLabel::Dummy)),
                source: sink_b,
                sink: b.next(),
            },
            later,
        ),
        later.idle == twin.idle,
        twin.kept_by(later),
        twin.agrees(later, a0.next(), b0.next()),
{
    let a1 = a.node(NodeLabel::Dummy);
    let b1 = b.node(NodeLabel::Dummy);
    let later = twin.pushed();
    lemma_alike(a, b, twin);
    lemma_node(a, NodeLabel::Dummy);
    lemma_node(b, NodeLabel::Dummy);
    lemma_grows_numbers(a0, a);
    lemma_grows_numbers(b0, b);
    lemma_grows_trans(a0, a, a1);
    lemma_grows_trans(b0, b, b1);
    lemma_twin_node(a, b, twin, NodeLabel::Dummy);
    lemma_unentered_new(a);
    lemma_unentered_new(b);
    lemma_frames_kept(f, g, twin, later);
    lemma_node_adds(a);
    lemma_node_adds(b);
    lemma_waits_kept(a, a1, -1, sink_a);
    assert forall|x: int| #[trigger] later.idle.contains(x) implies b0.next() <= x && waits(
        b1,
        x,
    ) by {
        lemma_waits_kept(b, b1, -1, x);
    }
    later
}

proof fn lemma_node_adds(net: Net)
    requires
        net.ok(),
    ensures
        net.adds_to(net.node(NodeLabel::Dummy), -1),
{
    reveal(GraphView::wf);
    lemma_held_same(net, net.node(NodeLabel::Dummy));
}

proof fn level_run(
    w: Seq<Rc<Ast>>,
    k: nat,
    f: Frame,
    g: Frame,
    a0: Net,
    b0: Net,
    ca: Chain,
    cb: Chain,
    twin: Twin,
) -> (later: Twin)
    requires
        level(f, g, a0, b0, ca, cb, twin),
        k <= w.len(),
        run(w, k, f, ca).built.fault is None,
        run(w, k, g, cb).built.fault is None,
    ensures
        level(f, g, a0, b0, run(w, k, f, ca), run(w, k, g, cb), later),
        later.idle == twin.idle,
        twin.agrees(later, a0.next(), b0.next()),
    decreases k,
{
    if k == 0 {
        twin
    } else {
        let before = level_run(w, (k - 1) as nat, f, g, a0, b0, ca, cb, twin);
        level_step(
            &*w[k - 1],
            f,
            g,
            a0,
            b0,
            run(w, (k - 1) as nat, f, ca),
            run(w, (k - 1) as nat, g, cb),
            before,
        )
    }
}

/// The rest of two blocks that have got equally far.
proof fn level_finish(
    w: Seq<Rc<Ast>>,
    f: Frame,
    g: Frame,
    a0: Net,
    b0: Net,
    ca: Chain,
    cb: Chain,
    twin: Twin,
) -> (later: Twin)
    requires
        level(f, g, a0, b0, ca, cb, twin),
        w.len() > 0,
        finishes(w, f, ca),
        finishes(w, g, cb),
    ensures
        twins(finish(w, f, ca), finish(w, g, cb), later),
        later.idle == twin.idle,
        twin.agrees(later, a0.next(), b0.next()),
{
    let k = (w.len() - 1) as nat;
    let mid = level_run(w, k, f, g, a0, b0, ca, cb, twin);
    let ra = run(w, k, f, ca);
    let rb = run(w, k, g, cb);
    let later = level_last(&*w[w.len() - 1], f, g, a0, b0, ra, rb, mid);
    let a = last_of(w, f, ca).net;
    let b = last_of(w, g, cb).net;
    lemma_alike(a, b, later);
    lemma_twin_edge(a, b, later, ra.sink, f.sink, rb.sink, g.sink, EdgeType::Normal);
    later
}

proof fn lemma_normal(net: Net, from: int, to: int)
    requires
        net.ok(),
        0 <= from < net.next(),
        0 <= to < net.next(),
    ensures
        net.normal(from, to).ok(),
        net.grows_to(net.normal(from, to)),
        net.adds_to(net.normal(from, to), from),
{
    reveal(GraphView::wf);
    lemma_edge(net, from, to, EdgeType::Normal);
    lemma_held_same(net, net.normal(from, to));
}

/// An idle joint is added; what waits goes on waiting.
proof fn level_spare(a: Net, b: Net, twin: Twin)
    requires
        b.ok(),
        twins(a, b, twin),
        idle_in(twin),
        forall|x: int| #[trigger] twin.idle.contains(x) ==> waits(b, x),
    ensures
        b.node(NodeLabel::Dummy).ok(),
        b.grows_to(b.node(NodeLabel::Dummy)),
        twins(a, b.node(NodeLabel::Dummy), twin.spared()),
        idle_in(twin.spared()),
        forall|x: int| #[trigger]
            twin.spared().idle.contains(x) ==> waits(b.node(NodeLabel::Dummy), x),
        twin.spared().idle.contains(b.next()),
{
    let b1 = b.node(NodeLabel::Dummy);
    lemma_alike(a, b, twin);
    lemma_node(b, NodeLabel::Dummy);
    lemma_node_adds(b);
    lemma_unentered_new(b);
    lemma_twin_spare(a, b, twin);
    assert forall|x: int| #[trigger] twin.spared().idle.contains(x) implies waits(b1, x) by {
        if x != b.next() {
            lemma_waits_kept(b, b1, -1, x);
        }
    }
}

/// A waiting joint is led on to an idle one; the other idle ones go on waiting.
proof fn level_hop(a: Net, b: Net, twin: Twin, i: int, x: int)
    requires
        b.ok(),
        twins(a, b, twin),
        idle_in(twin),
        waits(a, i),
        twin.idle.contains(x),
        forall|y: int| #[trigger] twin.idle.contains(y) ==> waits(b, y),
    ensures
        b.normal(twin.up[i], x).ok(),
        b.grows_to(b.normal(twin.up[i], x)),
        twins(a, b.normal(twin.up[i], x), twin.hopped(i, x)),
        idle_in(twin.hopped(i, x)),
        forall|y: int| #[trigger]
            twin.hopped(i, x).idle.contains(y) ==> waits(b.normal(twin.up[i], x), y),
{
    let b1 = b.normal(twin.up[i], x);
    lemma_alike(a, b, twin);
    assert(twin.busy(twin.up[i]));
    assert(waits(b, x));
    lemma_normal(b, twin.up[i], x);
    lemma_twin_hop(a, b, twin, i, x);
    assert forall|y: int| #[trigger] twin.hopped(i, x).idle.contains(y) implies waits(b1, y) by {
        assert(twin.idle.contains(y));
        lemma_waits_kept(b, b1, twin.up[i], y);
    }
}

/// How a nested block with statements in it begins.
proof fn level_open(f: Frame, g: Frame, a0: Net, b0: Net, ca: Chain, cb: Chain, twin: Twin) -> (later:
    Twin)
    requires
        level(f, g, a0, b0, ca, cb, twin),
        twin.idle == Set::<int>::empty(),
    ensures
        ({
            let b = cb.built.net;
            let opened = b.open_block(g.between(cb.source, cb.sink));
            &&& level(f, g, a0, b0, ca, started(opened, b.next()), later)
            &&& later.idle == Set::<int>::empty().insert(cb.sink)
        }),
        twin.agrees(later, a0.next(), b0.next()),
{
    let a = ca.built.net;
    let b = cb.built.net;
    let d = b.next();
    let b1 = b.node(NodeLabel::Dummy);
    let b2 = b1.node(NodeLabel::Dummy);
    let b3 = b2.normal(cb.source, d);
    let t1 = twin.spared();
    let t2 = t1.spared();
    let t3 = t2.hopped(ca.source, d);
    let t4 = t3.swapped(ca.sink, d + 1);
    lemma_alike(a, b, twin);
    lemma_grows_numbers(a0, a);
    lemma_grows_numbers(b0, b);
    level_spare(a, b, twin);
    level_spare(a, b1, t1);
    level_hop(a, b2, t2, ca.source, d);
    lemma_grows_trans(b0, b, b1);
    lemma_grows_trans(b0, b1, b2);
    lemma_grows_trans(b0, b2, b3);
    assert(b3 == b.open_block(g.between(cb.source, cb.sink)));
    assert(unentered(b3, cb.sink) && unentered(b3, d + 1)) by {
        reveal(GraphView::wf);
        assert forall|y: int, j: int|
            0 <= y < b3.next() && 0 <= j < b3.graph.out[y].len() implies (
        #[trigger] b3.graph.out[y][j]).node != cb.sink && b3.graph.out[y][j].node != d + 1 by {
            if y == cb.source {
                if j > 0 {
                    assert(b3.graph.out[y][j] == b.graph.out[y][j - 1]);
                    assert(b.graph.live(b.graph.out[y][j - 1].node));
                }
            } else if y < d {
                assert(b3.graph.out[y] == b.graph.out[y]);
                assert(b.graph.live(b.graph.out[y][j].node));
            }
        }
    }
    assert(waits(b3, d + 1));
    assert(t3.up[ca.sink] == cb.sink);
    lemma_twin_swap(a, b3, t3, ca.sink, d + 1);
    assert(t4.idle =~= Set::<int>::empty().insert(cb.sink));
    assert(waits(b3, cb.sink)) by {
        lemma_names_held(a, b, twin, ca.sink);
        lemma_held_same(b, b3);
    }
    assert(twin_frames(f, g, t4));
    t4
}

/// What stands for a joint that is not the joint of a label is not one either.
proof fn lemma_names_held(a: Net, b: Net, twin: Twin, i: int)
    requires
        a.scoped(),
        twins(a, b, twin),
        0 <= i < a.next(),
        !a.held(i),
    ensures
        !b.held(twin.up[i]),
{
    reveal(same_names);
    lemma_alike(a, b, twin);
    if b.held(twin.up[i]) {
        let (s, name) = choose|s: int, name: Seq<char>|
            0 <= s < b.scopes.len() && #[trigger] b.scopes[s].contains_key(name)
                && b.scopes[s][name] == twin.up[i];
        assert(a.scopes[s].contains_key(name));
        let v = a.scopes[s][name];
        assert(twin.busy(twin.up[v]) && twin.busy(twin.up[i]));
        assert(a.held(v));
    }
}

/// The end of a nested block with statements in it: the joint behind it stands for the same joint
/// as the one behind its last statement.
proof fn level_close(
    a: Net,
    b: Net,
    twin: Twin,
    sink_a: int,
    sink_b: int,
    t: int,
    f: Frame,
    g: Frame,
    a0: Net,
    b0: Net,
) -> (later: Twin)
    requires
        b.ok(),
        twins(a, b, twin),
        idle_in(twin),
        twin_frames(f, g, twin),
        waits(a, sink_a),
        f.source != sink_a,
        a0.next() <= sink_a,
        g.within(b0),
        b0.next() <= t,
        twin.up[sink_a] == sink_b,
        twin.idle == Set::<int>::empty().insert(t),
        waits(b, t),
    ensures
        b.normal(sink_b, t).ok(),
        b.grows_to(b.normal(sink_b, t)),
        twins(a, b.normal(sink_b, t), later),
        idle_in(later),
        later.idle == Set::<int>::empty(),
        later.up[sink_a] == t,
        twin_frames(f, g, later),
        twin.agrees(later, a0.next(), b0.next()),
{
    assert(twin.idle.contains(t));
    level_hop(a, b, twin, sink_a, t);
    let later = twin.hopped(sink_a, t);
    lemma_alike(a, b, twin);
    assert(later.idle =~= Set::<int>::empty());
    later
}

/// The drafts of a block and of one with some of its statements in a block of their own, from
/// where the statements before these have been drawn; the inner block is not empty.
proof fn nest_some(
    inner: Rc<Ast>,
    q: Seq<Rc<Ast>>,
    r: Seq<Rc<Ast>>,
    f: Frame,
    g: Frame,
    a0: Net,
    b0: Net,
    ca: Chain,
    cb: Chain,
    twin: Twin,
) -> (later: Twin)
    requires
        level(f, g, a0, b0, ca, cb, twin),
        twin.idle == Set::<int>::empty(),
        q.len() > 0,
        inner.labels().len() == 0,
        inner.node matches AstNode::Compound(v) && v@ == q,
        finishes(q + r, f, ca),
        finishes(seq![inner] + r, g, cb),
    ensures
        twins(finish(q + r, f, ca), finish(seq![inner] + r, g, cb), later),
        later.idle == Set::<int>::empty(),
        twin.agrees(later, a0.next(), b0.next()),
{
    let b = cb.built.net;
    let g1 = g.between(cb.source, cb.sink);
    let opened = b.open_block(g1);
    let d = b.next();
    let ch = started(opened, d);
    let mid = level_open(f, g, a0, b0, ca, cb, twin);
    let head = seq![inner];
    assert(run(head, 0, g, cb) == cb);
    assert(run(head, 1, g, cb) == onward(&*inner, g, cb));
    if r.len() > 0 {
        lemma_finish_split(head, r, g, cb);
    } else {
        assert(head + r =~= head);
    }
    let drawn = build(&*inner, g1, b);
    assert(drawn.fault is None);
    assert(b.labelled(inner.labels(), 0, g1.source) == b);
    assert(drawn == build_node(&*inner, g1, b));
    assert(drawn == build_block(q, g1, b));
    lemma_block_finishes(q, g1, b);
    let k = (q.len() - 1) as nat;
    lemma_run_frame(q, k, g, cb.source, cb.sink, ch);
    let rb = run(q, k, g, ch);
    assert(g1.between(rb.source, rb.sink) == g.between(rb.source, rb.sink));
    let last = q[q.len() - 1];
    if r.len() > 0 {
        lemma_finish_split(q, r, f, ca);
        lemma_run_faultless(q, k, q.len(), f, ca);
    } else {
        assert(q + r =~= q);
    }
    let ra = run(q, k, f, ca);
    let t1 = level_run(q, k, f, g, a0, b0, ca, ch, mid);
    let t2 = level_last(&*last, f, g, a0, b0, ra, rb, t1);
    let a3 = build(&*last, f.between(ra.source, ra.sink), ra.built.net).net;
    let b3 = build(&*last, g.between(rb.source, rb.sink), rb.built.net).net;
    assert(t2.idle.contains(cb.sink));
    let t3 = level_close(a3, b3, t2, ra.sink, rb.sink, cb.sink, f, g, a0, b0);
    let b4 = b3.normal(rb.sink, cb.sink);
    assert(drawn.net == b4);
    lemma_grows_trans(b0, b3, b4);
    if r.len() > 0 {
        let t4 = level_joint(f, g, a0, b0, a3, b4, ra.sink, cb.sink, t3);
        assert(run(q, q.len(), f, ca) == onward(&*last, f, ra));
        level_finish(r, f, g, a0, b0, run(q, q.len(), f, ca), onward(&*inner, g, cb), t4)
    } else {
        lemma_alike(a3, b4, t3);
        lemma_twin_edge(a3, b4, t3, ra.sink, f.sink, cb.sink, g.sink, EdgeType::Normal);
        t3
    }
}

/// An empty block between two joints.
pub open spec fn gap(net: Net, from: int, to: int) -> Net {
    let d = net.next();
    net.node(NodeLabel::Dummy).node(NodeLabel::Dummy).normal(from, d).normal(d, d + 1).normal(
        d + 1,
        to,
    )
}

proof fn lemma_gap(inner: &Ast, frame: Frame, net: Net)
    requires
        inner.labels().len() == 0,
        inner.node matches AstNode::Compound(v) && v@.len() == 0,
    ensures
        build(inner, frame, net).fault is None,
        build(inner, frame, net).net == gap(net, frame.source, frame.sink),
{
    assert(net.labelled(inner.labels(), 0, frame.source) == net);
    assert(build(inner, frame, net) == build_node(inner, frame, net));
    assert(build_node(inner, frame, net) == build_block(
        inner.node->Compound_0@,
        frame,
        net,
    ));
}

/// A joint may as well be added first.
proof fn lemma_gap_late(net: Net, from: int, to: int)
    requires
        net.ok(),
        0 <= from < net.next(),
        0 <= to < net.next(),
    ensures
        ({
            let d = net.next();
            gap(net, from, to).node(NodeLabel::Dummy) == net.node(NodeLabel::Dummy).node(
                NodeLabel::Dummy,
            ).node(NodeLabel::Dummy).normal(from, d).normal(d, d + 1).normal(d + 1, to)
        }),
{
    reveal(GraphView::wf);
    let d = net.next();
    let one = gap(net, from, to).node(NodeLabel::Dummy);
    let other = net.node(NodeLabel::Dummy).node(NodeLabel::Dummy).node(NodeLabel::Dummy).normal(
        from,
        d,
    ).normal(d, d + 1).normal(d + 1, to);
    assert(one.graph.nodes =~= other.graph.nodes);
    assert(one.graph.out =~= other.graph.out);
    assert(one.graph.inc =~= other.graph.inc);
}

/// An empty block before other statements.
proof fn nest_none(
    inner: Rc<Ast>,
    r: Seq<Rc<Ast>>,
    f: Frame,
    g: Frame,
    a0: Net,
    b0: Net,
    ca: Chain,
    cb: Chain,
    twin: Twin,
) -> (later: Twin)
    requires
        level(f, g, a0, b0, ca, cb, twin),
        twin.idle == Set::<int>::empty(),
        r.len() > 0,
        inner.labels().len() == 0,
        inner.node matches AstNode::Compound(v) && v@.len() == 0,
        finishes(r, f, ca),
        finishes(seq![inner] + r, g, cb),
    ensures
        twins(finish(r, f, ca), finish(seq![inner] + r, g, cb), later),
        later.idle == Set::<int>::empty(),
        twin.agrees(later, a0.next(), b0.next()),
{
    let a = ca.built.net;
    let b = cb.built.net;
    let d = b.next();
    let head = seq![inner];
    assert(run(head, 0, g, cb) == cb);
    assert(run(head, 1, g, cb) == onward(&*inner, g, cb));
    lemma_finish_split(head, r, g, cb);
    lemma_gap(&*inner, g.between(cb.source, cb.sink), b);
    lemma_alike(a, b, twin);
    lemma_grows_numbers(a0, a);
    lemma_grows_numbers(b0, b);
    let b1 = b.node(NodeLabel::Dummy);
    let b2 = b1.node(NodeLabel::Dummy);
    let b3 = b2.node(NodeLabel::Dummy);
    let b4 = b3.normal(cb.source, d);
    let b5 = b4.normal(d, d + 1);
    let b6 = b5.normal(d + 1, cb.sink);
    let t1 = twin.spared();
    let t2 = t1.spared();
    let t3 = t2.spared();
    let s3 = t3.swapped(ca.sink, d + 2);
    let t4 = s3.hopped(ca.source, d);
    let t5 = t4.hopped(ca.source, d + 1);
    let t6 = t5.hopped(ca.source, cb.sink);
    lemma_gap_late(b, cb.source, cb.sink);
    level_spare(a, b, twin);
    level_spare(a, b1, t1);
    level_spare(a, b2, t2);
    assert(unentered(b3, cb.sink)) by {
        reveal(GraphView::wf);
        assert forall|y: int, j: int|
            0 <= y < b3.next() && 0 <= j < b3.graph.out[y].len() implies (
        #[trigger] b3.graph.out[y][j]).node != cb.sink by {
            assert(b3.graph.out[y] == b.graph.out[y]);
            assert(b.graph.out[y][j].node != cb.sink);
        }
    }
    assert(t3.idle.contains(d + 2));
    assert(waits(b3, d + 2));
    lemma_twin_swap(a, b3, t3, ca.sink, d + 2);
    assert(waits(b3, cb.sink)) by {
        lemma_names_held(a, b, twin, ca.sink);
        lemma_held_same(b, b3);
    }
    level_hop(a, b3, s3, ca.source, d);
    level_hop(a, b4, t4, ca.source, d + 1);
    level_hop(a, b5, t5, ca.source, cb.sink);
    lemma_grows_trans(b0, b, b1);
    lemma_grows_trans(b0, b1, b2);
    lemma_grows_trans(b0, b2, b3);
    lemma_grows_trans(b0, b3, b4);
    lemma_grows_trans(b0, b4, b5);
    lemma_grows_trans(b0, b5, b6);
    assert(t6.idle =~= Set::<int>::empty());
    assert(unentered(b6, d + 2)) by {
        reveal(GraphView::wf);
        assert forall|y: int, j: int|
            0 <= y < b6.next() && 0 <= j < b6.graph.out[y].len() implies (
        #[trigger] b6.graph.out[y][j]).node != d + 2 by {
            if y == cb.source {
                if j > 0 {
                    assert(b6.graph.out[y][j] == b.graph.out[y][j - 1]);
                    assert(b.graph.live(b.graph.out[y][j - 1].node));
                }
            } else if y < d {
                assert(b6.graph.out[y] == b.graph.out[y]);
                assert(b.graph.live(b.graph.out[y][j].node));
            }
        }
    }
    assert(twin_frames(f, g, t6));
    let after = onward(&*inner, g, cb);
    assert(after.built.net == b6);
    assert(level(f, g, a0, b0, ca, after, t6));
    level_finish(r, f, g, a0, b0, ca, after, t6)
}

/// An empty block behind the last statement.
proof fn nest_last(
    inner: Rc<Ast>,
    p: Seq<Rc<Ast>>,
    f: Frame,
    g: Frame,
    a0: Net,
    b0: Net,
    ca: Chain,
    cb: Chain,
    twin: Twin,
) -> (later: Twin)
    requires
        level(f, g, a0, b0, ca, cb, twin),
        twin.idle == Set::<int>::empty(),
        p.len() > 0,
        inner.labels().len() == 0,
        inner.node matches AstNode::Compound(v) && v@.len() == 0,
        finishes(p, f, ca),
        finishes(p + seq![inner], g, cb),
    ensures
        twins(finish(p, f, ca), finish(p + seq![inner], g, cb), later),
        later.idle == Set::<int>::empty(),
        twin.agrees(later, a0.next(), b0.next()),
{
    let k = (p.len() - 1) as nat;
    let head = seq![inner];
    lemma_finish_split(p, head, g, cb);
    lemma_run_faultless(p, k, p.len(), g, cb);
    let ra = run(p, k, f, ca);
    let rb = run(p, k, g, cb);
    let t0 = level_run(p, k, f, g, a0, b0, ca, cb, twin);
    let last = p[p.len() - 1];
    let mid = level_last(&*last, f, g, a0, b0, ra, rb, t0);
    let a = build(&*last, f.between(ra.source, ra.sink), ra.built.net).net;
    let b = build(&*last, g.between(rb.source, rb.sink), rb.built.net).net;
    let t = b.next();
    let d = t + 1;
    let b1 = b.node(NodeLabel::Dummy);
    let b2 = b1.node(NodeLabel::Dummy);
    let b3 = b2.node(NodeLabel::Dummy);
    let b4 = b3.normal(rb.sink, d);
    let b5 = b4.normal(d, d + 1);
    let b6 = b5.normal(d + 1, t);
    let t1 = mid.spared();
    let t2 = t1.spared();
    let t3 = t2.spared();
    let t4 = t3.hopped(ra.sink, d);
    let t5 = t4.hopped(ra.sink, d + 1);
    let t6 = t5.hopped(ra.sink, t);
    lemma_alike(a, b, mid);
    lemma_grows_numbers(a0, a);
    lemma_grows_numbers(b0, b);
    level_spare(a, b, mid);
    level_spare(a, b1, t1);
    level_spare(a, b2, t2);
    level_hop(a, b3, t3, ra.sink, d);
    level_hop(a, b4, t4, ra.sink, d + 1);
    level_hop(a, b5, t5, ra.sink, t);
    assert(t6.idle =~= Set::<int>::empty());
    let full = run(p, p.len(), g, cb);
    assert(full == onward(&*last, g, rb));
    assert(run(head, 0, g, full) == full);
    lemma_gap(&*inner, g.between(full.source, full.sink), full.built.net);
    assert(finish(head, g, full) == b6.normal(t, g.sink));
    assert(t6.busy(g.sink) && t6.down[g.sink] == f.sink);
    lemma_twin_edge(a, b6, t6, ra.sink, f.sink, t, g.sink, EdgeType::Normal);
    t6
}

/// An empty block in an empty block.
proof fn nest_empty(f: Frame, g: Frame, a0: Net, b0: Net, ca: Chain, cb: Chain, twin: Twin) -> (later:
    Twin)
    requires
        level(f, g, a0, b0, ca, cb, twin),
        twin.idle == Set::<int>::empty(),
    ensures
        twins(
            ca.built.net.normal(ca.source, ca.sink).normal(ca.sink, f.sink),
            gap(cb.built.net, cb.source, cb.sink).normal(cb.sink, g.sink),
            later,
        ),
        later.idle == Set::<int>::empty(),
        twin.agrees(later, a0.next(), b0.next()),
{
    let a = ca.built.net;
    let b = cb.built.net;
    let d = b.next();
    let b1 = b.node(NodeLabel::Dummy);
    let b2 = b1.node(NodeLabel::Dummy);
    let b3 = b2.normal(cb.source, d);
    let b4 = b3.normal(d, d + 1);
    let t1 = twin.spared();
    let t2 = t1.spared();
    let t3 = t2.hopped(ca.source, d);
    let t4 = t3.hopped(ca.source, d + 1);
    lemma_alike(a, b, twin);
    lemma_grows_numbers(b0, b);
    level_spare(a, b, twin);
    level_spare(a, b1, t1);
    level_hop(a, b2, t2, ca.source, d);
    level_hop(a, b3, t3, ca.source, d + 1);
    assert(t4.idle =~= Set::<int>::empty());
    assert(twin.busy(twin.up[ca.sink]));
    assert(t4.busy(cb.sink) && t4.down[cb.sink] == ca.sink);
    lemma_twin_edge(a, b4, t4, ca.source, ca.sink, d + 1, cb.sink, EdgeType::Normal);
    assert(t4.busy(g.sink) && t4.down[g.sink] == f.sink);
    lemma_twin_edge(
        a.normal(ca.source, ca.sink),
        b4.normal(d + 1, cb.sink),
        t4,
        ca.sink,
        f.sink,
        cb.sink,
        g.sink,
        EdgeType::Normal,
    );
    t4
}

/// How two blocks begin.
proof fn level_start(f: Frame, g: Frame, a: Net, b: Net, twin: Twin)
    requires
        a.ok(),
        b.ok(),
        f.within(a),
        g.within(b),
        twins(a, b, twin),
        twin.idle == Set::<int>::empty(),
        twin_frames(f, g, twin),
    ensures
        level(
            f,
            g,
            a,
            b,
            started(a.open_block(f), a.next()),
            started(b.open_block(g), b.next()),
            twin.pushed().pushed(),
        ),
        twin.pushed().pushed().idle == Set::<int>::empty(),
        twin.agrees(twin.pushed().pushed(), a.next(), b.next()),
{
    let oa = a.open_block(f);
    let ob = b.open_block(g);
    let later = twin.pushed().pushed();
    lemma_alike(a, b, twin);
    lemma_open_block(a, f);
    lemma_open_block(b, g);
    lemma_twin_block(a, b, twin, f, g);
    lemma_frames_kept(f, g, twin, later);
    lemma_open_waits(a, f);
    lemma_open_waits(b, g);
    assert(later.idle =~= Set::<int>::empty());
}

/// The joints at the ends of a new block wait.
proof fn lemma_open_waits(net: Net, frame: Frame)
    requires
        net.ok(),
        frame.within(net),
    ensures
        waits(net.open_block(frame), net.next()),
        waits(net.open_block(frame), net.next() + 1),
        unentered(net.open_block(frame), net.next() + 1),
{
    let c = net.next();
    let opened = net.open_block(frame);
    reveal(GraphView::wf);
    reveal(Net::scoped);
    lemma_held_same(net, opened);
    assert forall|y: int, j: int|
        0 <= y < opened.next() && 0 <= j < opened.graph.out[y].len() implies (
    #[trigger] opened.graph.out[y][j]).node != c + 1 by {
        if y == frame.source {
            if j > 0 {
                assert(opened.graph.out[y][j] == net.graph.out[y][j - 1]);
                assert(net.graph.live(net.graph.out[y][j - 1].node));
            }
        } else if y < c {
            assert(opened.graph.out[y] == net.graph.out[y]);
            assert(net.graph.live(net.graph.out[y][j].node));
        }
    }
}

/// Drafts of a block and of one with some of its statements in a block of their own are alike.
pub proof fn nest(
    inner: Rc<Ast>,
    p: Seq<Rc<Ast>>,
    q: Seq<Rc<Ast>>,
    r: Seq<Rc<Ast>>,
    f: Frame,
    g: Frame,
    a: Net,
    b: Net,
    twin: Twin,
) -> (later: Twin)
    requires
        a.ok(),
        b.ok(),
        f.within(a),
        g.within(b),
        twins(a, b, twin),
        twin.idle == Set::<int>::empty(),
        twin_frames(f, g, twin),
        inner.labels().len() == 0,
        inner.node matches AstNode::Compound(v) && v@ == q,
        build_block(p + (q + r), f, a).fault is None,
        build_block(p + (seq![inner] + r), g, b).fault is None,
    ensures
        twins(
            build_block(p + (q + r), f, a).net,
            build_block(p + (seq![inner] + r), g, b).net,
            later,
        ),
        later.idle == Set::<int>::empty(),
        twin.agrees(later, a.next(), b.next()),
{
    let ca = started(a.open_block(f), a.next());
    let cb = started(b.open_block(g), b.next());
    let first = twin.pushed().pushed();
    let rest = seq![inner] + r;
    level_start(f, g, a, b, twin);
    lemma_block_finishes(p + rest, g, b);
    lemma_finish_split(p, rest, g, cb);
    if q.len() + r.len() > 0 {
        lemma_block_finishes(p + (q + r), f, a);
        lemma_finish_split(p, q + r, f, ca);
        let mid = level_run(p, p.len(), f, g, a, b, ca, cb, first);
        let ra = run(p, p.len(), f, ca);
        let rb = run(p, p.len(), g, cb);
        if q.len() > 0 {
            nest_some(inner, q, r, f, g, a, b, ra, rb, mid)
        } else {
            assert(q + r =~= r);
            nest_none(inner, r, f, g, a, b, ra, rb, mid)
        }
    } else {
        assert(p + (q + r) =~= p);
        assert(rest =~= seq![inner]);
        if p.len() > 0 {
            lemma_block_finishes(p, f, a);
            nest_last(inner, p, f, g, a, b, ca, cb, first)
        } else {
            assert(p + rest =~= rest);
            assert(run(rest, 0, g, cb) == cb);
            lemma_gap(&*inner, g.between(b.next(), b.next() + 1), cb.built.net);
            nest_empty(f, g, a, b, ca, cb, first)
        }
    }
}

/// The net of a whole program, before it is drawn, stands for itself.
pub proof fn level_own() -> (own: Twin)
    ensures
        twins(blank(), blank(), own),
        own.idle == Set::<int>::empty(),
        twin_frames(outermost(), outermost(), own),
{
    let own = Twin {
        down: seq![0, 1],
        up: seq![0, 1],
        order: seq![0, 0],
        span: 0,
        idle: Set::empty(),
    };
    lemma_blank();
    reveal(alike);
    reveal(same_names);
    reveal(GraphView::wf);
    assert forall|i: int| 0 <= i < 2 implies {
        &&& own.busy(#[trigger] own.up[i])
        &&& own.down[own.up[i]] == i
        &&& blank().graph.nodes[own.up[i]] == blank().graph.nodes[i]
        &&& mirrors(blank().graph.out[i], blank().graph.out[own.up[i]], own)
    } by {
        assert(blank().graph.out[i].len() == 0);
    }
    assert forall|x: int| #[trigger] own.busy(x) implies 0 <= own.down[x] < 2 && exits(own, x) by {
        assert(x == 0 || x == 1);
    }
    assert(own.busy(1));
    own
}

} // verus!
