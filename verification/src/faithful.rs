//! What every flowchart says of its program: control moves in it as the statements say.

use crate::ast::{texts, Ast, AstNode};
use crate::degrees::lemma_build_degrees;
use crate::flow::{blank, draft, outermost, Frame, Net};
use crate::graph::flowchart;
use crate::growth::{lemma_blank, lemma_build};
use crate::laws::{draft_is_regular, flowchart_keeps_flow, flowchart_keeps_nodes, passing_nodes};
use crate::meaning::{
    drawing_obeys, joints_of, obeys, obeys_in_turn, obeys_inside, parts, within_switch, Course,
};
use crate::model::{lemma_lists, Arrow, GraphView};
use crate::node::{EdgeType, NodeLabel};
use crate::paths::lemma_arrow_live;
use std::rc::Rc;
use vstd::prelude::*;

verus! {

/// The frame of a loop's body that runs from `a` to `b`.
pub open spec fn repeated(frame: Frame, a: int, b: int, again: int) -> Frame {
    Frame {
        source: a,
        sink: b,
        break_target: Some(frame.sink),
        continue_target: Some(again),
        end: frame.end,
    }
}

/// The frame of a switch's body that runs from `a` to `b`.
pub open spec fn selected(frame: Frame, a: int, b: int) -> Frame {
    Frame {
        source: a,
        sink: b,
        break_target: Some(frame.sink),
        continue_target: None,
        end: frame.end,
    }
}

/// The frame of a statement from `a` to `b`.
pub open spec fn moved(frame: Frame, a: int, b: int) -> Frame {
    Frame { source: a, sink: b, ..frame }
}

pub proof fn witness_block(
    ast: &Ast,
    course: Course,
    names: spec_fn(Seq<char>) -> int,
    frame: Frame,
    lo: int,
    hi: int,
) -> (w: (int, int))
    requires
        ast.node is Compound,
        obeys_inside(ast, course, names, frame, lo, hi),
    ensures
        ({
            let (first, last) = w;
            course.spans(frame.source, first, last, frame.sink) && if ast.node->Compound_0@.len() == 0 {
                course.on(first, last)
            } else {
                obeys_in_turn(
                    ast.node->Compound_0@,
                    ast.node->Compound_0@.len(),
                    course,
                    names,
                    frame,
                    first,
                    last,
                    lo,
                    hi,
                )
            }
        }),
{
    choose|first: int, last: int| #[trigger]
            course.spans(frame.source, first, last, frame.sink) && if ast.node->Compound_0@.len() == 0 {
                course.on(first, last)
            } else {
                obeys_in_turn(
                    ast.node->Compound_0@,
                    ast.node->Compound_0@.len(),
                    course,
                    names,
                    frame,
                    first,
                    last,
                    lo,
                    hi,
                )
            }
}

pub proof fn witness_if(
    ast: &Ast,
    course: Course,
    names: spec_fn(Seq<char>) -> int,
    frame: Frame,
    lo: int,
    hi: int,
) -> (w: (int, int, int, int, int))
    requires
        ast.node is If,
        obeys_inside(ast, course, names, frame, lo, hi),
    ensures
        ({
            let (n, a, b, m, k) = w;
            course.decides(frame.source, n, a, b, frame.sink, ast.node->If_cond@, lo, m, k, hi) && obeys(
                &*ast.node->If_body,
                course,
                names,
                moved(frame, a, b),
                m,
                k,
            ) && match ast.node->otherwise {
                Some(t) => exists|e: int| #[trigger]
                    course.no(n, e) && course.bare(e) && obeys(&*t, course, names, moved(frame, e, b), k, hi),
                None => course.no(n, frame.sink),
            }
        }),
{
    choose|n: int, a: int, b: int, m: int, k: int| #[trigger]
            course.decides(frame.source, n, a, b, frame.sink, ast.node->If_cond@, lo, m, k, hi) && obeys(
                &*ast.node->If_body,
                course,
                names,
                moved(frame, a, b),
                m,
                k,
            ) && match ast.node->otherwise {
                Some(t) => exists|e: int| #[trigger]
                    course.no(n, e) && course.bare(e) && obeys(&*t, course, names, moved(frame, e, b), k, hi),
                None => course.no(n, frame.sink),
            }
}

pub proof fn witness_while(
    ast: &Ast,
    course: Course,
    names: spec_fn(Seq<char>) -> int,
    frame: Frame,
    lo: int,
    hi: int,
) -> (w: (int, int, int, int))
    requires
        ast.node is While,
        obeys_inside(ast, course, names, frame, lo, hi),
    ensures
        ({
            let (n, a, b, m) = w;
            course.repeats(n, a, b, n, frame.sink, ast.node->While_cond@, lo, m, hi) && course.on(
                frame.source,
                n,
            ) && obeys(
                &*ast.node->While_body,
                course,
                names,
                repeated(frame, a, b, n),
                m,
                hi,
            )
        }),
{
    choose|n: int, a: int, b: int, m: int| #[trigger]
            course.repeats(n, a, b, n, frame.sink, ast.node->While_cond@, lo, m, hi) && course.on(
                frame.source,
                n,
            ) && obeys(
                &*ast.node->While_body,
                course,
                names,
                repeated(frame, a, b, n),
                m,
                hi,
            )
}

pub proof fn witness_do_while(
    ast: &Ast,
    course: Course,
    names: spec_fn(Seq<char>) -> int,
    frame: Frame,
    lo: int,
    hi: int,
) -> (w: (int, int, int, int))
    requires
        ast.node is DoWhile,
        obeys_inside(ast, course, names, frame, lo, hi),
    ensures
        ({
            let (n, a, b, m) = w;
            course.repeats(n, a, b, n, frame.sink, ast.node->DoWhile_cond@, lo, m, hi) && course.on(
                frame.source,
                a,
            ) && obeys(
                &*ast.node->DoWhile_body,
                course,
                names,
                repeated(frame, a, b, n),
                m,
                hi,
            )
        }),
{
    choose|n: int, a: int, b: int, m: int| #[trigger]
            course.repeats(n, a, b, n, frame.sink, ast.node->DoWhile_cond@, lo, m, hi) && course.on(
                frame.source,
                a,
            ) && obeys(
                &*ast.node->DoWhile_body,
                course,
                names,
                repeated(frame, a, b, n),
                m,
                hi,
            )
}

pub proof fn witness_for(
    ast: &Ast,
    course: Course,
    names: spec_fn(Seq<char>) -> int,
    frame: Frame,
    lo: int,
    hi: int,
) -> (w: (int, int, int, int, int, int))
    requires
        ast.node is For,
        obeys_inside(ast, course, names, frame, lo, hi),
    ensures
        ({
            let (i, n, u, a, b, m) = w;
            course.counts(
                frame.source,
                i,
                n,
                u,
                a,
                b,
                frame.sink,
                ast.node->init@,
                ast.node->For_cond@,
                ast.node->upd@,
                lo,
                m,
                hi,
            ) && obeys(
                &*ast.node->For_body,
                course,
                names,
                repeated(frame, a, b, u),
                m,
                hi,
            )
        }),
{
    choose|i: int, n: int, u: int, a: int, b: int, m: int| #[trigger]
            course.counts(
                frame.source,
                i,
                n,
                u,
                a,
                b,
                frame.sink,
                ast.node->init@,
                ast.node->For_cond@,
                ast.node->upd@,
                lo,
                m,
                hi,
            ) && obeys(
                &*ast.node->For_body,
                course,
                names,
                repeated(frame, a, b, u),
                m,
                hi,
            )
}

pub proof fn witness_switch(
    ast: &Ast,
    course: Course,
    names: spec_fn(Seq<char>) -> int,
    frame: Frame,
    lo: int,
    hi: int,
) -> (w: (Map<Seq<char>, int>, Seq<int>, int, int, int))
    requires
        ast.node is Switch,
        obeys_inside(ast, course, names, frame, lo, hi),
    ensures
        ({
            let (at, asks, a, b, m) = w;
            course.selects(
                frame.source,
                at,
                asks,
                a,
                b,
                frame.sink,
                ast.node->Switch_cond@,
                texts(ast.node->cases@),
                lo,
                m,
                hi,
            ) && obeys(
                &*ast.node->Switch_body,
                course,
                within_switch(at, names),
                selected(frame, a, b),
                m,
                hi,
            )
        }),
{
    choose|at: Map<Seq<char>, int>, asks: Seq<int>, a: int, b: int, m: int| #[trigger]
            course.selects(
                frame.source,
                at,
                asks,
                a,
                b,
                frame.sink,
                ast.node->Switch_cond@,
                texts(ast.node->cases@),
                lo,
                m,
                hi,
            ) && obeys(
                &*ast.node->Switch_body,
                course,
                within_switch(at, names),
                selected(frame, a, b),
                m,
                hi,
            )
}

/// Whether one course says all that another one says.
pub open spec fn covers(one: Course, other: Course) -> bool {
    &&& forall|n: int, label: NodeLabel| #[trigger] (one.shows)(n, label) ==> (other.shows)(n, label)
    &&& forall|a: int, b: int, kind: EdgeType| #[trigger]
        (one.goes)(a, b, kind) ==> (other.goes)(a, b, kind)
}

/// What holds of a course holds of one that says more.
proof fn lemma_covers(
    ast: &Ast,
    one: Course,
    other: Course,
    names: spec_fn(Seq<char>) -> int,
    frame: Frame,
    lo: int,
    hi: int,
)
    requires
        covers(one, other),
        obeys(ast, one, names, frame, lo, hi),
    ensures
        obeys(ast, other, names, frame, lo, hi),
    decreases ast, 1nat,
{
    assert forall|j: int| 0 <= j < ast.labels().len() implies other.bare(
        names(#[trigger] ast.labels()[j]),
    ) && other.on(names(ast.labels()[j]), frame.source) by {
        assert(one.on(names(ast.labels()[j]), frame.source));
    }
    let from = frame.source;
    let to = frame.sink;
    match &ast.node {
        AstNode::Compound(v) => {
            let (first, last) = witness_block(ast, one, names, frame, lo, hi);
            if v@.len() > 0 {
                lemma_covers_turn(v@, v@.len(), one, other, names, frame, first, last, lo, hi);
            }
            assert(other.spans(from, first, last, to));
        },
        AstNode::Stat(s) => {
            let n = choose|n: int| #[trigger] one.acts(from, n, s@, lo, hi) && one.on(n, to);
            assert(other.acts(from, n, s@, lo, hi));
        },
        AstNode::Continue(s) => {
            let n = choose|n: int| #[trigger]
                one.acts(from, n, s@, lo, hi) && one.on(n, frame.continue_target->0);
            assert(other.acts(from, n, s@, lo, hi));
        },
        AstNode::Break(s) => {
            let n = choose|n: int| #[trigger]
                one.acts(from, n, s@, lo, hi) && one.on(n, frame.break_target->0);
            assert(other.acts(from, n, s@, lo, hi));
        },
        AstNode::Return(s) => {
            let n = choose|n: int| #[trigger]
                one.acts(from, n, s@, lo, hi) && one.on(n, frame.end);
            assert(other.acts(from, n, s@, lo, hi));
        },
        AstNode::If { cond, body, otherwise } => {
            let (n, a, b, m, k) = witness_if(ast, one, names, frame, lo, hi);
            lemma_covers(&**body, one, other, names, moved(frame, a, b), m, k);
            if let Some(t) = otherwise {
                let e = choose|e: int| #[trigger]
                    one.no(n, e) && one.bare(e) && obeys(&**t, one, names, moved(frame, e, b), k, hi);
                lemma_covers(&**t, one, other, names, moved(frame, e, b), k, hi);
                assert(other.no(n, e));
            }
            assert(other.decides(from, n, a, b, to, cond@, lo, m, k, hi));
        },
        AstNode::While { cond, body } => {
            let (n, a, b, m) = witness_while(ast, one, names, frame, lo, hi);
            lemma_covers(&**body, one, other, names, repeated(frame, a, b, n), m, hi);
            assert(other.repeats(n, a, b, n, to, cond@, lo, m, hi));
        },
        AstNode::DoWhile { cond, body } => {
            let (n, a, b, m) = witness_do_while(ast, one, names, frame, lo, hi);
            lemma_covers(&**body, one, other, names, repeated(frame, a, b, n), m, hi);
            assert(other.repeats(n, a, b, n, to, cond@, lo, m, hi));
        },
        AstNode::For { init, cond, upd, body } => {
            let (i, n, u, a, b, m) = witness_for(ast, one, names, frame, lo, hi);
            lemma_covers(&**body, one, other, names, repeated(frame, a, b, u), m, hi);
            assert(other.counts(from, i, n, u, a, b, to, init@, cond@, upd@, lo, m, hi));
        },
        AstNode::Switch { cond, body, cases } => {
            let (at, asks, a, b, m) = witness_switch(ast, one, names, frame, lo, hi);
            let inside = within_switch(at, names);
            lemma_covers(&**body, one, other, inside, selected(frame, a, b), m, hi);
            assert(other.selects(from, at, asks, a, b, to, cond@, texts(cases@), lo, m, hi));
        },
        _ => {},
    }
}

proof fn lemma_covers_turn(
    v: Seq<Rc<Ast>>,
    k: nat,
    one: Course,
    other: Course,
    names: spec_fn(Seq<char>) -> int,
    frame: Frame,
    first: int,
    last: int,
    lo: int,
    hi: int,
)
    requires
        covers(one, other),
        obeys_in_turn(v, k, one, names, frame, first, last, lo, hi),
    ensures
        obeys_in_turn(v, k, other, names, frame, first, last, lo, hi),
    decreases v, k,
{
    if k > 0 && k <= v.len() {
        let (p, m) = witness_turn(v, k, one, names, frame, first, last, lo, hi);
        lemma_covers_turn(v, (k - 1) as nat, one, other, names, frame, first, p, lo, m);
        lemma_covers(&*v[k - 1], one, other, names, moved(frame, p, last), m, hi);
        assert(parts(lo, m, hi, p));
    }
}

pub proof fn witness_turn(
    v: Seq<Rc<Ast>>,
    k: nat,
    course: Course,
    names: spec_fn(Seq<char>) -> int,
    frame: Frame,
    first: int,
    last: int,
    lo: int,
    hi: int,
) -> (w: (int, int))
    requires
        0 < k <= v.len(),
        obeys_in_turn(v, k, course, names, frame, first, last, lo, hi),
    ensures
        parts(lo, w.1, hi, w.0),
        course.bare(w.0),
        obeys_in_turn(v, (k - 1) as nat, course, names, frame, first, w.0, lo, w.1),
        obeys(&*v[k - 1], course, names, moved(frame, w.0, last), w.1, hi),
{
    choose|p: int, m: int| #[trigger]
        parts(lo, m, hi, p) && course.bare(p) && obeys_in_turn(
            v,
            (k - 1) as nat,
            course,
            names,
            frame,
            first,
            p,
            lo,
            m,
        ) && obeys(&*v[k - 1], course, names, moved(frame, p, last), m, hi)
}

impl GraphView {
    /// How control moves in a flowchart, when `land` tells the nodes that control gets to from a
    /// point. From a node it moves along edges of the right kind, and by no others. A point that
    /// is not a node is passed on the way; so is a statement without text.
    pub open spec fn tour(self, land: spec_fn(int, int) -> bool) -> Course {
        Course {
            shows: |n: int, label: NodeLabel|
                match label {
                    NodeLabel::Dummy => !self.live(n),
                    NodeLabel::Node(text) => if text.len() == 0 {
                        !self.live(n)
                    } else {
                        self.live(n) && self.nodes[n] == Some(label)
                    },
                    _ => self.live(n) && self.nodes[n] == Some(label),
                },
            goes: |a: int, b: int, kind: EdgeType|
                if self.live(a) {
                    forall|w: int| self.arrow(a, w, kind) <==> #[trigger] land(b, w)
                } else {
                    forall|w: int| #[trigger] land(b, w) ==> land(a, w)
                },
        }
    }

    /// Whether control that is at a node is at that node and at no other.
    pub open spec fn grounded(self, land: spec_fn(int, int) -> bool) -> bool {
        forall|a: int, w: int| self.live(a) ==> (#[trigger] land(a, w) <==> a == w)
    }
}

/// Where control gets to in a flowchart from a point of its draft.
spec fn landing(chart: GraphView, drawn: GraphView) -> spec_fn(int, int) -> bool {
    |a: int, w: int| chart.live(w) && drawn.leads(passing_nodes(drawn), a, w)
}

/// In a flowchart control moves as the statements of the program say: from `Begin` through the
/// tree, one statement after the other, to `End`; a branch goes on where its condition does, a
/// loop asks again or goes on, `break` and `continue` leave and repeat the innermost loop, `return`
/// goes to `End`, and a jump goes to the statement that bears its label. The result tells the nodes
/// that control gets to from a point, and the points of the labels.
pub proof fn flowchart_obeys(ast: &Ast) -> (way: (
    spec_fn(int, int) -> bool,
    spec_fn(Seq<char>) -> int,
))
    ensures
        flowchart(ast) matches Ok(chart) ==> {
            &&& chart.grounded(way.0)
            &&& obeys(
                ast,
                chart.tour(way.0),
                way.1,
                Frame { source: 0, sink: 1, break_target: None, continue_target: None, end: 1 },
                2,
                chart.nodes.len() as int,
            )
        },
{
    let net = draft(ast).net;
    let drawn = net.graph;
    let names = joints_of(net.scopes);
    if let Ok(chart) = flowchart(ast) {
        let land = landing(chart, drawn);
        lemma_blank();
        lemma_build(ast, outermost(), blank());
        assert(net.grows_to(net)) by {
            reveal(Net::grows_to);
        }
        reveal(Net::jointed);
        lemma_build_degrees(ast, outermost(), blank());
        drawing_obeys(ast, outermost(), blank(), net);
        flowchart_keeps_nodes(ast);
        lemma_grounded(ast);
        lemma_tour(ast);
        lemma_covers(ast, drawn.course(), chart.tour(land), names, outermost(), 2, net.next());
        (land, names)
    } else {
        (|a: int, w: int| a == w, names)
    }
}

proof fn lemma_grounded(ast: &Ast)
    requires
        flowchart(ast) is Ok,
    ensures
        flowchart(ast)->Ok_0.grounded(landing(flowchart(ast)->Ok_0, draft(ast).net.graph)),
{
    let chart = flowchart(ast)->Ok_0;
    let drawn = draft(ast).net.graph;
    let gone = passing_nodes(drawn);
    let land = landing(chart, drawn);
    flowchart_keeps_nodes(ast);
    assert forall|a: int, w: int| chart.live(a) implies (#[trigger] land(a, w) <==> a == w) by {
        assert(!gone(a));
        if land(a, w) {
            let n = choose|n: nat| drawn.passes(gone, a, w, n);
            assert(n == 0);
        }
        if a == w {
            assert(drawn.passes(gone, a, w, 0));
        }
    }
}

/// What the draft says, the flowchart says.
proof fn lemma_tour(ast: &Ast)
    requires
        flowchart(ast) is Ok,
    ensures
        covers(
            draft(ast).net.graph.course(),
            flowchart(ast)->Ok_0.tour(landing(flowchart(ast)->Ok_0, draft(ast).net.graph)),
        ),
{
    let chart = flowchart(ast)->Ok_0;
    let drawn = draft(ast).net.graph;
    let gone = passing_nodes(drawn);
    let land = landing(chart, drawn);
    let tour = chart.tour(land);
    flowchart_keeps_nodes(ast);
    lemma_blank();
    lemma_build(ast, outermost(), blank());
    assert forall|a: int, b: int, kind: EdgeType| #[trigger]
        (drawn.course().goes)(a, b, kind) implies (tour.goes)(a, b, kind) by {
        lemma_arrow_live(drawn, a, b, kind);
        if chart.live(a) {
            assert forall|w: int| chart.arrow(a, w, kind) <==> #[trigger] land(b, w) by {
                flowchart_keeps_flow(ast, a, w, kind);
                if land(b, w) {
                    assert(drawn.arrow(a, b, kind) && drawn.leads(gone, b, w));
                }
                if chart.arrow(a, w, kind) {
                    lemma_arrow_live(chart, a, w, kind);
                    let v = choose|v: int| #[trigger]
                        drawn.arrow(a, v, kind) && drawn.leads(gone, v, w);
                    lemma_one_way(ast, a, b, v, kind);
                }
            }
        } else {
            assert forall|w: int| #[trigger] land(b, w) implies land(a, w) by {
                let n = choose|n: nat| drawn.passes(gone, b, w, n);
                assert(drawn.adjacent(a, b) && drawn.passes(gone, b, w, (n + 1 - 1) as nat));
                assert(drawn.passes(gone, a, w, n + 1));
            }
        }
    }
}

/// At most one edge of each kind leaves a node of a draft that stays.
proof fn lemma_one_way(ast: &Ast, a: int, b: int, c: int, kind: EdgeType)
    requires
        flowchart(ast) is Ok,
        flowchart(ast)->Ok_0.live(a),
        draft(ast).net.graph.arrow(a, b, kind),
        draft(ast).net.graph.arrow(a, c, kind),
    ensures
        b == c,
{
    let drawn = draft(ast).net.graph;
    flowchart_keeps_nodes(ast);
    draft_is_regular(ast);
    lemma_blank();
    lemma_build(ast, outermost(), blank());
    lemma_lists(drawn);
    let i = drawn.out[a].index_of(Arrow { node: b, kind });
    let j = drawn.out[a].index_of(Arrow { node: c, kind });
    assert(a >= 2 ==> drawn.regular(a));
}

} // verus!
