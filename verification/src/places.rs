//! Where statements stand in a tree, and what a flowchart says of them there.

use crate::ast::{Ast, AstNode};
use crate::faithful::{
    flowchart_obeys, moved, repeated, selected, witness_block, witness_do_while, witness_for,
    witness_if, witness_switch, witness_turn, witness_while,
};
use crate::flow::Frame;
use crate::graph::flowchart;
use crate::laws::{flowchart_is_regular, flowchart_keeps_nodes};
use crate::meaning::{obeys, obeys_in_turn, within_switch, Course};
use crate::model::{Arrow, GraphView};
use crate::node::{EdgeType, NodeLabel};
use std::rc::Rc;
use vstd::prelude::*;

verus! {

/// Whether a statement stands somewhere in a tree; if `own`, then not inside of a loop or switch
/// that stands in the tree, too.
pub open spec fn holds(ast: &Ast, sub: &Ast, own: bool) -> bool
    decreases ast, 0nat,
{
    ||| *ast == *sub
    ||| match &ast.node {
        AstNode::Compound(v) => holds_among(v@, v@.len(), sub, own),
        AstNode::If { cond, body, otherwise } => holds(&**body, sub, own) || match otherwise {
            Some(t) => holds(&**t, sub, own),
            None => false,
        },
        AstNode::While { cond, body } => !own && holds(&**body, sub, own),
        AstNode::DoWhile { cond, body } => !own && holds(&**body, sub, own),
        AstNode::For { init, cond, upd, body } => !own && holds(&**body, sub, own),
        AstNode::Switch { cond, body, cases } => !own && holds(&**body, sub, own),
        _ => false,
    }
}

/// Whether a statement stands in one of the first `k` statements of a block.
pub open spec fn holds_among(v: Seq<Rc<Ast>>, k: nat, sub: &Ast, own: bool) -> bool
    decreases v, k,
{
    k > 0 && k <= v.len() && (holds_among(v, (k - 1) as nat, sub, own) || holds(
        &*v[k - 1],
        sub,
        own,
    ))
}

pub open spec fn is_loop(ast: &Ast) -> bool {
    ast.node is While || ast.node is DoWhile || ast.node is For
}

/// The condition of a loop.
pub open spec fn loop_cond(ast: &Ast) -> Seq<char> {
    match &ast.node {
        AstNode::While { cond, body } => cond@,
        AstNode::DoWhile { cond, body } => cond@,
        AstNode::For { init, cond, upd, body } => cond@,
        _ => Seq::empty(),
    }
}

/// The body of a loop.
pub open spec fn loop_body(ast: &Ast) -> &Ast {
    match &ast.node {
        AstNode::While { cond, body } => &**body,
        AstNode::DoWhile { cond, body } => &**body,
        AstNode::For { init, cond, upd, body } => &**body,
        _ => ast,
    }
}

/// How a statement that stands somewhere in a tree is set into the course.
struct Site {
    names: spec_fn(Seq<char>) -> int,
    frame: Frame,
    lo: int,
    hi: int,
}

/// Wherever a statement stands in a tree, control moves through it as it says, and `return` goes
/// to the same point as in the whole tree. If no loop or switch is in between, `break` and
/// `continue` do so, too.
proof fn find(
    ast: &Ast,
    sub: &Ast,
    own: bool,
    course: Course,
    names: spec_fn(Seq<char>) -> int,
    frame: Frame,
    lo: int,
    hi: int,
) -> (site: Site)
    requires
        obeys(ast, course, names, frame, lo, hi),
        holds(ast, sub, own),
    ensures
        obeys(sub, course, site.names, site.frame, site.lo, site.hi),
        site.frame.end == frame.end,
        own ==> site.frame.break_target == frame.break_target && site.frame.continue_target
            == frame.continue_target,
    decreases ast, 0nat,
{
    if *ast == *sub {
        Site { names, frame, lo, hi }
    } else {
        match &ast.node {
            AstNode::Compound(v) => {
                let (first, last) = witness_block(ast, course, names, frame, lo, hi);
                find_among(v@, v@.len(), sub, own, course, names, frame, first, last, lo, hi)
            },
            AstNode::If { cond, body, otherwise } => {
                let (n, a, b, m, k) = witness_if(ast, course, names, frame, lo, hi);
                if holds(&**body, sub, own) {
                    find(&**body, sub, own, course, names, moved(frame, a, b), m, k)
                } else {
                    let t = otherwise->0;
                    let e = choose|e: int| #[trigger]
                        course.no(n, e) && course.bare(e) && obeys(&*t, course, names, moved(frame, e, b), k, hi);
                    find(&*t, sub, own, course, names, moved(frame, e, b), k, hi)
                }
            },
            AstNode::While { cond, body } => {
                let (n, a, b, m) = witness_while(ast, course, names, frame, lo, hi);
                find(&**body, sub, own, course, names, repeated(frame, a, b, n), m, hi)
            },
            AstNode::DoWhile { cond, body } => {
                let (n, a, b, m) = witness_do_while(ast, course, names, frame, lo, hi);
                find(&**body, sub, own, course, names, repeated(frame, a, b, n), m, hi)
            },
            AstNode::For { init, cond, upd, body } => {
                let (i, n, u, a, b, m) = witness_for(ast, course, names, frame, lo, hi);
                find(&**body, sub, own, course, names, repeated(frame, a, b, u), m, hi)
            },
            AstNode::Switch { cond, body, cases } => {
                let (at, asks, a, b, m) = witness_switch(ast, course, names, frame, lo, hi);
                let inside = within_switch(at, names);
                find(&**body, sub, own, course, inside, selected(frame, a, b), m, hi)
            },
            _ => Site { names, frame, lo, hi },
        }
    }
}

proof fn find_among(
    v: Seq<Rc<Ast>>,
    k: nat,
    sub: &Ast,
    own: bool,
    course: Course,
    names: spec_fn(Seq<char>) -> int,
    frame: Frame,
    first: int,
    last: int,
    lo: int,
    hi: int,
) -> (site: Site)
    requires
        obeys_in_turn(v, k, course, names, frame, first, last, lo, hi),
        holds_among(v, k, sub, own),
    ensures
        obeys(sub, course, site.names, site.frame, site.lo, site.hi),
        site.frame.end == frame.end,
        own ==> site.frame.break_target == frame.break_target && site.frame.continue_target
            == frame.continue_target,
    decreases v, k,
{
    let (p, m) = witness_turn(v, k, course, names, frame, first, last, lo, hi);
    if holds_among(v, (k - 1) as nat, sub, own) {
        find_among(v, (k - 1) as nat, sub, own, course, names, frame, first, p, lo, m)
    } else {
        find(&*v[k - 1], sub, own, course, names, moved(frame, p, last), m, hi)
    }
}

/// Two statements of a block that follow each other: the second one is where the first one goes
/// on.
proof fn find_pair(
    v: Seq<Rc<Ast>>,
    k: nat,
    i: int,
    course: Course,
    names: spec_fn(Seq<char>) -> int,
    frame: Frame,
    first: int,
    last: int,
    lo: int,
    hi: int,
) -> (pair: (Site, Site))
    requires
        obeys_in_turn(v, k, course, names, frame, first, last, lo, hi),
        0 <= i,
        i + 2 <= k <= v.len(),
    ensures
        obeys(&*v[i], course, pair.0.names, pair.0.frame, pair.0.lo, pair.0.hi),
        obeys(&*v[i + 1], course, pair.1.names, pair.1.frame, pair.1.lo, pair.1.hi),
        pair.0.frame.sink == pair.1.frame.source,
        course.bare(pair.1.frame.source),
    decreases k,
{
    let (p, m) = witness_turn(v, k, course, names, frame, first, last, lo, hi);
    if i + 2 < k {
        find_pair(v, (k - 1) as nat, i, course, names, frame, first, p, lo, m)
    } else {
        let (q, l) = witness_turn(v, (k - 1) as nat, course, names, frame, first, p, lo, m);
        (
            Site { names, frame: moved(frame, q, p), lo: l, hi: m },
            Site { names, frame: moved(frame, p, last), lo: m, hi },
        )
    }
}

/// The point where a loop asks, and that it goes on from there on no.
proof fn find_exit(
    ast: &Ast,
    course: Course,
    names: spec_fn(Seq<char>) -> int,
    frame: Frame,
    lo: int,
    hi: int,
) -> (exit: (int, Site))
    requires
        is_loop(ast),
        obeys(ast, course, names, frame, lo, hi),
    ensures
        ({
            let cond = loop_cond(ast);
            let body = loop_body(ast);
            let (n, site) = exit;
            &&& (course.shows)(n, NodeLabel::Choice(cond))
            &&& course.no(n, frame.sink)
            &&& course.yes(n, site.frame.source)
            &&& obeys(body, course, site.names, site.frame, site.lo, site.hi)
            &&& site.frame.break_target == Some(frame.sink)
            &&& site.frame.continue_target is Some
            &&& match &ast.node {
                AstNode::For { init, cond, upd, body } => (course.shows)(
                    site.frame.continue_target->0,
                    NodeLabel::Node(upd@),
                ) && course.on(site.frame.continue_target->0, n),
                _ => site.frame.continue_target->0 == n,
            }
        }),
{
    match &ast.node {
        AstNode::While { cond, body } => {
            let (n, a, b, m) = witness_while(ast, course, names, frame, lo, hi);
            (n, Site { names, frame: repeated(frame, a, b, n), lo: m, hi })
        },
        AstNode::DoWhile { cond, body } => {
            let (n, a, b, m) = witness_do_while(ast, course, names, frame, lo, hi);
            (n, Site { names, frame: repeated(frame, a, b, n), lo: m, hi })
        },
        _ => {
            let (i, n, u, a, b, m) = witness_for(ast, course, names, frame, lo, hi);
            (n, Site { names, frame: repeated(frame, a, b, u), lo: m, hi })
        },
    }
}

/// The point of a statement with a text.
proof fn find_point(
    ast: &Ast,
    text: Seq<char>,
    course: Course,
    names: spec_fn(Seq<char>) -> int,
    frame: Frame,
    lo: int,
    hi: int,
) -> (n: int)
    requires
        obeys(ast, course, names, frame, lo, hi),
        match &ast.node {
            AstNode::Stat(s) => s@ == text,
            AstNode::Continue(s) => s@ == text,
            AstNode::Break(s) => s@ == text,
            AstNode::Return(s) => s@ == text,
            _ => false,
        },
    ensures
        course.acts(frame.source, n, text, lo, hi),
        match &ast.node {
            AstNode::Stat(s) => course.on(n, frame.sink),
            AstNode::Continue(s) => frame.continue_target is Some && course.on(
                n,
                frame.continue_target->0,
            ),
            AstNode::Break(s) => frame.break_target is Some && course.on(n, frame.break_target->0),
            _ => course.on(n, frame.end),
        },
{
    let from = frame.source;
    match &ast.node {
        AstNode::Stat(s) => choose|n: int| #[trigger]
            course.acts(from, n, text, lo, hi) && course.on(n, frame.sink),
        AstNode::Continue(s) => choose|n: int| #[trigger]
            course.acts(from, n, text, lo, hi) && course.on(n, frame.continue_target->0),
        AstNode::Break(s) => choose|n: int| #[trigger]
            course.acts(from, n, text, lo, hi) && course.on(n, frame.break_target->0),
        _ => choose|n: int| #[trigger]
            course.acts(from, n, text, lo, hi) && course.on(n, frame.end),
    }
}

/// Whether a graph has a statement with a text as node `n`.
pub open spec fn states(graph: GraphView, n: int, text: Seq<char>) -> bool {
    graph.live(n) && graph.nodes[n] == Some(NodeLabel::Node(text))
}

/// Whether a graph has a condition as node `n`.
pub open spec fn asks(graph: GraphView, n: int, text: Seq<char>) -> bool {
    graph.live(n) && graph.nodes[n] == Some(NodeLabel::Choice(text))
}

/// Wherever a `return` with a text stands in a program, in loops, branches and switches as well,
/// the flowchart has a node for it from which the only edge leads to `End`.
pub proof fn returns_lead_to_end(ast: &Ast, sub: &Ast, text: Seq<char>)
    requires
        holds(ast, sub, false),
        sub.node matches AstNode::Return(s) && s@ == text,
        text.len() > 0,
    ensures
        flowchart(ast) matches Ok(chart) ==> exists|n: int| #[trigger]
            states(chart, n, text) && chart.out[n] == seq![
                Arrow { node: 1, kind: EdgeType::Normal },
            ],
{
    let (land, names) = flowchart_obeys(ast);
    if let Ok(chart) = flowchart(ast) {
        let tour = chart.tour(land);
        let site = whole(ast, sub, chart, land, names);
        let n = find_point(sub, text, tour, site.names, site.frame, site.lo, site.hi);
        assert(land(1, 1)) by {
            flowchart_keeps_nodes(ast);
        }
        assert(chart.arrow(n, 1, EdgeType::Normal));
        flowchart_is_regular(ast, n);
        assert(chart.out[n].len() == 1);
        assert(chart.out[n][0] == Arrow { node: 1, kind: EdgeType::Normal });
        assert(chart.out[n] =~= seq![Arrow { node: 1, kind: EdgeType::Normal }]);
        assert(states(chart, n, text));
    }
}

/// A statement that stands somewhere in a program, in the program's flowchart.
proof fn whole(
    ast: &Ast,
    sub: &Ast,
    chart: GraphView,
    land: spec_fn(int, int) -> bool,
    names: spec_fn(Seq<char>) -> int,
) -> (site: Site)
    requires
        holds(ast, sub, false),
        obeys(
            ast,
            chart.tour(land),
            names,
            Frame { source: 0, sink: 1, break_target: None, continue_target: None, end: 1 },
            2,
            chart.nodes.len() as int,
        ),
    ensures
        obeys(sub, chart.tour(land), site.names, site.frame, site.lo, site.hi),
        site.frame.end == 1,
{
    find(
        ast,
        sub,
        false,
        chart.tour(land),
        names,
        Frame { source: 0, sink: 1, break_target: None, continue_target: None, end: 1 },
        2,
        chart.nodes.len() as int,
    )
}

/// A `break` with a text leaves the innermost loop around it, and that loop only: in the flowchart
/// it goes where that loop's condition goes on no, and nowhere else.
pub proof fn breaks_leave_innermost_loop(ast: &Ast, around: &Ast, sub: &Ast, text: Seq<char>)
    requires
        holds(ast, around, false),
        is_loop(around),
        holds(loop_body(around), sub, true),
        sub.node matches AstNode::Break(s) && s@ == text,
        text.len() > 0,
    ensures
        flowchart(ast) matches Ok(chart) ==> exists|n: int, q: int| #[trigger]
            states(chart, n, text) && #[trigger] asks(chart, q, loop_cond(around)) && (
            forall|w: int| #[trigger]
                chart.arrow(n, w, EdgeType::Normal) <==> chart.arrow(
                    q,
                    w,
                    EdgeType::Branch(false),
                )),
{
    let (land, names) = flowchart_obeys(ast);
    if let Ok(chart) = flowchart(ast) {
        let tour = chart.tour(land);
        let body = loop_body(around);
        let site = whole(ast, around, chart, land, names);
        let (q, inner) = find_exit(around, tour, site.names, site.frame, site.lo, site.hi);
        let spot = find(
            body,
            sub,
            true,
            tour,
            inner.names,
            inner.frame,
            inner.lo,
            inner.hi,
        );
        let n = find_point(sub, text, tour, spot.names, spot.frame, spot.lo, spot.hi);
        assert forall|w: int| #[trigger] chart.arrow(n, w, EdgeType::Normal) <==> chart.arrow(
            q,
            w,
            EdgeType::Branch(false),
        ) by {
            assert(land(site.frame.sink, w) <==> chart.arrow(n, w, EdgeType::Normal));
            assert(land(site.frame.sink, w) <==> chart.arrow(q, w, EdgeType::Branch(false)));
        }
        assert(states(chart, n, text) && asks(chart, q, loop_cond(around)));
    }
}

/// A `continue` with a text repeats the innermost loop around it: in the flowchart it leads to that
/// loop's condition, or to what that loop goes on with if this has a text.
pub proof fn continues_repeat_innermost_loop(ast: &Ast, around: &Ast, sub: &Ast, text: Seq<char>)
    requires
        holds(ast, around, false),
        is_loop(around),
        holds(loop_body(around), sub, true),
        sub.node matches AstNode::Continue(s) && s@ == text,
        text.len() > 0,
    ensures
        flowchart(ast) matches Ok(chart) ==> exists|n: int, q: int| #[trigger]
            states(chart, n, text) && #[trigger] asks(chart, q, loop_cond(around)) && (
            match &around.node {
                AstNode::For { init, cond, upd, body } => if upd@.len() > 0 {
                    exists|u: int| #[trigger]
                        states(chart, u, upd@) && chart.arrow(n, u, EdgeType::Normal)
                            && chart.arrow(u, q, EdgeType::Normal)
                } else {
                    chart.arrow(n, q, EdgeType::Normal)
                },
                _ => chart.arrow(n, q, EdgeType::Normal),
            }),
{
    let (land, names) = flowchart_obeys(ast);
    if let Ok(chart) = flowchart(ast) {
        let tour = chart.tour(land);
        let body = loop_body(around);
        let site = whole(ast, around, chart, land, names);
        let (q, inner) = find_exit(around, tour, site.names, site.frame, site.lo, site.hi);
        let spot = find(
            body,
            sub,
            true,
            tour,
            inner.names,
            inner.frame,
            inner.lo,
            inner.hi,
        );
        let n = find_point(sub, text, tour, spot.names, spot.frame, spot.lo, spot.hi);
        let u = inner.frame.continue_target->0;
        assert(land(q, q));
        assert(states(chart, n, text) && asks(chart, q, loop_cond(around)));
        match &around.node {
            AstNode::For { init, cond, upd, body } => {
                if upd@.len() > 0 {
                    assert(land(u, u));
                    assert(states(chart, u, upd@));
                } else {
                    assert(land(u, q));
                }
            },
            _ => {},
        }
    }
}

/// A loop in a block goes on with the statement that follows it in the block, wherever the block
/// stands: on no its condition leads there.
pub proof fn loops_go_on_with_next(ast: &Ast, block: &Ast, i: int, text: Seq<char>)
    requires
        holds(ast, block, false),
        block.node matches AstNode::Compound(v) && {
            &&& 0 <= i < v@.len() - 1
            &&& is_loop(&*v@[i])
            &&& v@[i + 1].node matches AstNode::Stat(s) && s@ == text
        },
        text.len() > 0,
    ensures
        flowchart(ast) matches Ok(chart) ==> exists|q: int, n: int| #[trigger]
            asks(chart, q, loop_cond(&*block.node->Compound_0@[i])) && #[trigger] states(
                chart,
                n,
                text,
            ) && chart.arrow(q, n, EdgeType::Branch(false)),
{
    let (land, names) = flowchart_obeys(ast);
    if let Ok(chart) = flowchart(ast) {
        let tour = chart.tour(land);
        let v = block.node->Compound_0@;
        let (one, two) = whole_pair(ast, block, i, chart, land, names);
        let (q, inner) = find_exit(&*v[i], tour, one.names, one.frame, one.lo, one.hi);
        let n = find_point(&*v[i + 1], text, tour, two.names, two.frame, two.lo, two.hi);
        assert(land(n, n));
        lemma_reaches(chart, land, two.frame.source, n);
        assert(asks(chart, q, loop_cond(&*v[i])) && states(chart, n, text));
    }
}

/// What is at a point, control gets to from what leads to the point.
proof fn lemma_reaches(chart: GraphView, land: spec_fn(int, int) -> bool, a: int, n: int)
    requires
        chart.grounded(land),
        chart.live(n),
        !chart.live(a),
        chart.tour(land).on(a, n),
    ensures
        land(a, n),
{
    assert(land(n, n));
}

/// Two statements that follow each other in a block somewhere in a program, in the program's
/// flowchart.
proof fn whole_pair(
    ast: &Ast,
    block: &Ast,
    i: int,
    chart: GraphView,
    land: spec_fn(int, int) -> bool,
    names: spec_fn(Seq<char>) -> int,
) -> (pair: (Site, Site))
    requires
        holds(ast, block, false),
        block.node matches AstNode::Compound(v) && 0 <= i < v@.len() - 1,
        obeys(
            ast,
            chart.tour(land),
            names,
            Frame { source: 0, sink: 1, break_target: None, continue_target: None, end: 1 },
            2,
            chart.nodes.len() as int,
        ),
    ensures
        ({
            let v = block.node->Compound_0@;
            let (one, two) = pair;
            &&& obeys(&*v[i], chart.tour(land), one.names, one.frame, one.lo, one.hi)
            &&& obeys(&*v[i + 1], chart.tour(land), two.names, two.frame, two.lo, two.hi)
            &&& one.frame.sink == two.frame.source
            &&& !chart.live(two.frame.source)
        }),
{
    let tour = chart.tour(land);
    let v = block.node->Compound_0@;
    let site = whole(ast, block, chart, land, names);
    let (first, last) = witness_block(block, tour, site.names, site.frame, site.lo, site.hi);
    find_pair(
        v,
        v.len(),
        i,
        tour,
        site.names,
        site.frame,
        first,
        last,
        site.lo,
        site.hi,
    )
}

/// A branch of a condition in a block goes on with the statement that follows the condition in the
/// block, wherever the block stands: from the branch an edge leads there.
pub proof fn branches_meet_at_next(
    ast: &Ast,
    block: &Ast,
    i: int,
    branch: Seq<char>,
    text: Seq<char>,
)
    requires
        holds(ast, block, false),
        block.node matches AstNode::Compound(v) && {
            &&& 0 <= i < v@.len() - 1
            &&& v@[i].node matches AstNode::If { cond, body, otherwise } && {
                ||| body.node matches AstNode::Stat(s) && s@ == branch
                ||| otherwise matches Some(t) && t.node matches AstNode::Stat(s) && s@ == branch
            }
            &&& v@[i + 1].node matches AstNode::Stat(s) && s@ == text
        },
        branch.len() > 0,
        text.len() > 0,
    ensures
        flowchart(ast) matches Ok(chart) ==> exists|q: int, n: int| #[trigger]
            states(chart, q, branch) && #[trigger] states(chart, n, text) && chart.arrow(
                q,
                n,
                EdgeType::Normal,
            ),
{
    let (land, names) = flowchart_obeys(ast);
    if let Ok(chart) = flowchart(ast) {
        let tour = chart.tour(land);
        let v = block.node->Compound_0@;
        let (one, two) = whole_pair(ast, block, i, chart, land, names);
        let (c, a, b, m, k) = witness_if(&*v[i], tour, one.names, one.frame, one.lo, one.hi);
        let n = find_point(&*v[i + 1], text, tour, two.names, two.frame, two.lo, two.hi);
        let inner = moved(one.frame, a, b);
        let q = match &v[i].node {
            AstNode::If { cond, body, otherwise } => {
                if body.node matches AstNode::Stat(s) && s@ == branch {
                    find_point(&**body, branch, tour, one.names, inner, m, k)
                } else {
                    match otherwise {
                        Some(t) => {
                            let e = choose|e: int| #[trigger]
                                tour.no(c, e) && tour.bare(e) && obeys(
                                    &**t,
                                    tour,
                                    one.names,
                                    moved(one.frame, e, b),
                                    k,
                                    one.hi,
                                );
                            let other = moved(one.frame, e, b);
                            find_point(&**t, branch, tour, one.names, other, k, one.hi)
                        },
                        None => n,
                    }
                }
            },
            _ => n,
        };
        lemma_reaches(chart, land, two.frame.source, n);
        assert(land(b, n));
        assert(states(chart, q, branch) && states(chart, n, text));
    }
}

pub open spec fn is_switch(ast: &Ast) -> bool {
    ast.node is Switch
}

/// The body of a loop or switch.
pub open spec fn broken_body(ast: &Ast) -> &Ast {
    match &ast.node {
        AstNode::Switch { cond, body, cases } => &**body,
        _ => loop_body(ast),
    }
}

/// A `break` of a loop or switch in a block goes on with the statement that follows the loop or
/// switch in the block, wherever the block stands and however deep in it the `break` does.
pub proof fn breaks_go_on_with_next(
    ast: &Ast,
    block: &Ast,
    i: int,
    sub: &Ast,
    jump: Seq<char>,
    text: Seq<char>,
)
    requires
        holds(ast, block, false),
        block.node matches AstNode::Compound(v) && {
            &&& 0 <= i < v@.len() - 1
            &&& is_loop(&*v@[i]) || is_switch(&*v@[i])
            &&& holds(broken_body(&*v@[i]), sub, true)
            &&& v@[i + 1].node matches AstNode::Stat(s) && s@ == text
        },
        sub.node matches AstNode::Break(s) && s@ == jump,
        jump.len() > 0,
        text.len() > 0,
    ensures
        flowchart(ast) matches Ok(chart) ==> exists|q: int, n: int| #[trigger]
            states(chart, q, jump) && #[trigger] states(chart, n, text) && chart.out[q] == seq![
                Arrow { node: n, kind: EdgeType::Normal },
            ],
{
    let (land, names) = flowchart_obeys(ast);
    if let Ok(chart) = flowchart(ast) {
        let tour = chart.tour(land);
        let v = block.node->Compound_0@;
        let (one, two) = whole_pair(ast, block, i, chart, land, names);
        let n = find_point(&*v[i + 1], text, tour, two.names, two.frame, two.lo, two.hi);
        let inner = if is_switch(&*v[i]) {
            let (at, asks, a, b, m) = witness_switch(
                &*v[i],
                tour,
                one.names,
                one.frame,
                one.lo,
                one.hi,
            );
            Site {
                names: within_switch(at, one.names),
                frame: selected(one.frame, a, b),
                lo: m,
                hi: one.hi,
            }
        } else {
            let (p, site) = find_exit(&*v[i], tour, one.names, one.frame, one.lo, one.hi);
            site
        };
        let spot = find(
            broken_body(&*v[i]),
            sub,
            true,
            tour,
            inner.names,
            inner.frame,
            inner.lo,
            inner.hi,
        );
        let q = find_point(sub, jump, tour, spot.names, spot.frame, spot.lo, spot.hi);
        lemma_reaches(chart, land, two.frame.source, n);
        assert(chart.arrow(q, n, EdgeType::Normal));
        flowchart_is_regular(ast, q);
        assert(chart.out[q].len() == 1);
        assert(chart.out[q] =~= seq![Arrow { node: n, kind: EdgeType::Normal }]);
        assert(states(chart, q, jump) && states(chart, n, text));
    }
}

} // verus!
