//! What a chart says of a program: where control goes from each of its statements.

use crate::ast::{texts, Ast, AstNode};
use crate::flow::{
    build, build_block, build_chain, build_node, build_switch, case_joints, case_test, lookup,
    tested, Frame, Net,
};
use crate::growth::{
    lemma_bind, lemma_build, lemma_build_chain, lemma_build_node, lemma_case_joints, lemma_edge,
    lemma_grows_numbers, lemma_grows_trans, lemma_joints, lemma_jump_table, lemma_labelled,
    lemma_leave, lemma_node, lemma_open_block, lemma_open_do_while, lemma_open_else, lemma_open_for,
    lemma_open_if, lemma_open_switch, lemma_open_while, lemma_scope, lemma_tested, with_table,
};
use crate::model::{lemma_lists, tail_of, Arrow, GraphView};
use crate::node::{EdgeType, NodeLabel};
use crate::ranks::lemma_bound_lookup;
use crate::widening::{
    drawing_widens_labels, lemma_bind_widens, lemma_node_widens, lemma_widened_lookup,
    lemma_widened_same, lemma_widened_then,
};
use std::rc::Rc;
use vstd::prelude::*;

verus! {

/// How control moves between numbered points, and what stands at them.
pub struct Course {
    /// Whether a point stands for a statement or a condition.
    pub shows: spec_fn(int, NodeLabel) -> bool,
    /// Whether control that leaves one point in this way comes to another one.
    pub goes: spec_fn(int, int, EdgeType) -> bool,
}

impl Course {
    /// Nothing stands at a point; control only passes it.
    pub open spec fn bare(self, p: int) -> bool {
        (self.shows)(p, NodeLabel::Dummy)
    }

    /// Control simply moves on from `a` to `b`.
    pub open spec fn on(self, a: int, b: int) -> bool {
        (self.goes)(a, b, EdgeType::Normal)
    }

    /// When the answer at `a` is yes, control moves to `b`.
    pub open spec fn yes(self, a: int, b: int) -> bool {
        (self.goes)(a, b, EdgeType::Branch(true))
    }

    /// When the answer at `a` is no, control moves to `b`.
    pub open spec fn no(self, a: int, b: int) -> bool {
        (self.goes)(a, b, EdgeType::Branch(false))
    }

    /// From `from` control comes to point `n`, whose number is in the range and where a statement
    /// with this text stands.
    pub open spec fn acts(self, from: int, n: int, text: Seq<char>, lo: int, hi: int) -> bool {
        &&& lo <= n < hi
        &&& (self.shows)(n, NodeLabel::Node(text))
        &&& self.on(from, n)
    }

    /// At point `n`, whose number is in the range, a condition stands.
    pub open spec fn asks(self, n: int, text: Seq<char>, lo: int, hi: int) -> bool {
        lo <= n < hi && (self.shows)(n, NodeLabel::Choice(text))
    }

    /// Control enters a block at `first` and leaves it from `last`.
    pub open spec fn spans(self, from: int, first: int, last: int, to: int) -> bool {
        &&& self.on(from, first)
        &&& self.on(last, to)
        &&& self.bare(first)
        &&& self.bare(last)
    }

    /// A condition at `n`: on yes control goes to `a`; a branch that ends at `b` goes on to `to`.
    pub open spec fn decides(
        self,
        from: int,
        n: int,
        a: int,
        b: int,
        to: int,
        cond: Seq<char>,
        lo: int,
        m: int,
        k: int,
        hi: int,
    ) -> bool {
        &&& m <= k <= hi
        &&& self.asks(n, cond, lo, m)
        &&& self.on(from, n)
        &&& self.yes(n, a)
        &&& self.on(b, to)
        &&& self.bare(a)
        &&& self.bare(b)
    }

    /// A loop that asks at `n` and repeats what runs from `a` to `b`: on yes control goes to `a`,
    /// on no to `to`, and from `b` to `back`.
    pub open spec fn repeats(
        self,
        n: int,
        a: int,
        b: int,
        back: int,
        to: int,
        cond: Seq<char>,
        lo: int,
        m: int,
        hi: int,
    ) -> bool {
        &&& m <= hi
        &&& self.asks(n, cond, lo, m)
        &&& self.yes(n, a)
        &&& self.no(n, to)
        &&& self.on(b, back)
        &&& self.bare(a)
        &&& self.bare(b)
    }

    /// A loop that starts at `i`, then asks at `n`; after what runs from `a` to `b` it goes on with
    /// `u`, then asks again.
    pub open spec fn counts(
        self,
        from: int,
        i: int,
        n: int,
        u: int,
        a: int,
        b: int,
        to: int,
        init: Seq<char>,
        cond: Seq<char>,
        upd: Seq<char>,
        lo: int,
        m: int,
        hi: int,
    ) -> bool {
        &&& self.repeats(n, a, b, u, to, cond, lo, m, hi)
        &&& self.acts(from, i, init, lo, m)
        &&& self.on(i, n)
        &&& self.acts(b, u, upd, lo, m)
        &&& self.on(u, n)
        &&& i != u
    }

    /// The tests at the points `asks`, in this order: a test that holds leads to where its case
    /// is, one that does not leads to the next one, and the last one to `other`.
    pub open spec fn sorts(
        self,
        asks: Seq<int>,
        cond: Seq<char>,
        names: Seq<Seq<char>>,
        at: Map<Seq<char>, int>,
        other: int,
        lo: int,
        hi: int,
    ) -> bool {
        &&& asks.len() == names.len() > 0
        &&& forall|j: int|
            0 <= j < asks.len() ==> {
                &&& self.asks(#[trigger] asks[j], cond + " == "@ + names[j], lo, hi)
                &&& self.yes(asks[j], at[names[j]])
                &&& self.no(
                    asks[j],
                    if j + 1 < asks.len() {
                        asks[j + 1]
                    } else {
                        other
                    },
                )
            }
        &&& forall|i: int, j: int| 0 <= i < j < asks.len() ==> asks[i] < asks[j]
    }

    /// A switch: control comes to the tests first, which stand in the order of the cases but for
    /// `default`; when none holds it goes to the case `default`, or to `to` if there is none. What
    /// runs from `a` to `b` has the cases in it, and goes on to `to`.
    pub open spec fn selects(
        self,
        from: int,
        at: Map<Seq<char>, int>,
        asks: Seq<int>,
        a: int,
        b: int,
        to: int,
        cond: Seq<char>,
        cases: Seq<Seq<char>>,
        lo: int,
        m: int,
        hi: int,
    ) -> bool {
        let other = if cases.contains("default"@) {
            at["default"@]
        } else {
            to
        };
        &&& m <= hi
        &&& forall|name: Seq<char>| #[trigger] at.contains_key(name) <==> cases.contains(name)
        &&& forall|name: Seq<char>| #[trigger] at.contains_key(name) ==> self.bare(at[name])
        &&& self.sorts(
            asks,
            cond,
            cases.filter(|name: Seq<char>| name != "default"@),
            at,
            other,
            lo,
            m,
        )
        &&& self.on(from, asks[0])
        &&& self.on(b, to)
        &&& self.bare(a)
        &&& self.bare(b)
    }
}

/// Whether `m` lies between, where `p` is the point that control has come to.
pub open spec fn parts(lo: int, m: int, hi: int, p: int) -> bool {
    lo <= m <= hi
}

/// What a label means inside of a switch: a case of the switch, or what it means outside.
pub open spec fn within_switch(
    at: Map<Seq<char>, int>,
    names: spec_fn(Seq<char>) -> int,
) -> spec_fn(Seq<char>) -> int {
    |name: Seq<char>|
        if at.contains_key(name) {
            at[name]
        } else {
            names(name)
        }
}

/// Whether control moves through a statement as the statement says, when it comes from
/// `frame.source` and the label `name` stands for the point `names(name)`. What follows the
/// statement is at `frame.sink`; `break`, `continue` and `return` go to the frame's other points.
/// Labels lead to the statement. The points of its own have numbers from `lo` to `hi`, in the order
/// of the text and apart from those of other statements.
pub open spec fn obeys(
    ast: &Ast,
    course: Course,
    names: spec_fn(Seq<char>) -> int,
    frame: Frame,
    lo: int,
    hi: int,
) -> bool
    decreases ast, 1nat,
{
    &&& forall|j: int|
        0 <= j < ast.labels().len() ==> {
            &&& course.bare(names(#[trigger] ast.labels()[j]))
            &&& course.on(names(ast.labels()[j]), frame.source)
        }
    &&& obeys_inside(ast, course, names, frame, lo, hi)
}

/// As [`obeys`], but for the labels of the statement itself.
pub open spec fn obeys_inside(
    ast: &Ast,
    course: Course,
    names: spec_fn(Seq<char>) -> int,
    frame: Frame,
    lo: int,
    hi: int,
) -> bool
    decreases ast, 0nat,
{
    let from = frame.source;
    let to = frame.sink;
    match &ast.node {
        AstNode::Dummy => false,
        AstNode::Compound(v) => exists|first: int, last: int| #[trigger]
            course.spans(from, first, last, to) && if v@.len() == 0 {
                course.on(first, last)
            } else {
                obeys_in_turn(v@, v@.len(), course, names, frame, first, last, lo, hi)
            },
        AstNode::Stat(s) => exists|n: int| #[trigger]
            course.acts(from, n, s@, lo, hi) && course.on(n, to),
        AstNode::Continue(s) => frame.continue_target is Some && exists|n: int| #[trigger]
            course.acts(from, n, s@, lo, hi) && course.on(n, frame.continue_target->0),
        AstNode::Break(s) => frame.break_target is Some && exists|n: int| #[trigger]
            course.acts(from, n, s@, lo, hi) && course.on(n, frame.break_target->0),
        AstNode::Return(s) => exists|n: int| #[trigger]
            course.acts(from, n, s@, lo, hi) && course.on(n, frame.end),
        AstNode::If { cond, body, otherwise } => exists|
            n: int,
            a: int,
            b: int,
            m: int,
            k: int,
        | #[trigger]
            course.decides(from, n, a, b, to, cond@, lo, m, k, hi) && obeys(
                &**body,
                course,
                names,
                Frame { source: a, sink: b, ..frame },
                m,
                k,
            ) && match otherwise {
                Some(t) => exists|e: int| #[trigger]
                    course.no(n, e) && course.bare(e) && obeys(
                        &**t,
                        course,
                        names,
                        Frame { source: e, sink: b, ..frame },
                        k,
                        hi,
                    ),
                None => course.no(n, to),
            },
        AstNode::While { cond, body } => exists|n: int, a: int, b: int, m: int| #[trigger]
            course.repeats(n, a, b, n, to, cond@, lo, m, hi) && course.on(from, n) && obeys(
                &**body,
                course,
                names,
                Frame {
                    source: a,
                    sink: b,
                    break_target: Some(to),
                    continue_target: Some(n),
                    end: frame.end,
                },
                m,
                hi,
            ),
        AstNode::DoWhile { cond, body } => exists|n: int, a: int, b: int, m: int| #[trigger]
            course.repeats(n, a, b, n, to, cond@, lo, m, hi) && course.on(from, a) && obeys(
                &**body,
                course,
                names,
                Frame {
                    source: a,
                    sink: b,
                    break_target: Some(to),
                    continue_target: Some(n),
                    end: frame.end,
                },
                m,
                hi,
            ),
        AstNode::For { init, cond, upd, body } => exists|
            i: int,
            n: int,
            u: int,
            a: int,
            b: int,
            m: int,
        | #[trigger]
            course.counts(from, i, n, u, a, b, to, init@, cond@, upd@, lo, m, hi) && obeys(
                &**body,
                course,
                names,
                Frame {
                    source: a,
                    sink: b,
                    break_target: Some(to),
                    continue_target: Some(u),
                    end: frame.end,
                },
                m,
                hi,
            ),
        AstNode::Switch { cond, body, cases } => exists|
            at: Map<Seq<char>, int>,
            asks: Seq<int>,
            a: int,
            b: int,
            m: int,
        | #[trigger]
            course.selects(from, at, asks, a, b, to, cond@, texts(cases@), lo, m, hi) && obeys(
                &**body,
                course,
                within_switch(at, names),
                Frame {
                    source: a,
                    sink: b,
                    break_target: Some(to),
                    continue_target: None,
                    end: frame.end,
                },
                m,
                hi,
            ),
        AstNode::Goto(name) => course.bare(names(name@)) && course.on(from, names(name@)),
    }
}

/// Whether control moves through the first `k` statements of a block one after the other, from
/// `first` to `last`.
pub open spec fn obeys_in_turn(
    v: Seq<Rc<Ast>>,
    k: nat,
    course: Course,
    names: spec_fn(Seq<char>) -> int,
    frame: Frame,
    first: int,
    last: int,
    lo: int,
    hi: int,
) -> bool
    decreases v, k,
{
    if k == 0 || k > v.len() {
        first == last
    } else {
        exists|p: int, m: int| #[trigger]
            parts(lo, m, hi, p) && course.bare(p) && obeys_in_turn(
                v,
                (k - 1) as nat,
                course,
                names,
                frame,
                first,
                p,
                lo,
                m,
            ) && obeys(
                &*v[k - 1],
                course,
                names,
                Frame { source: p, sink: last, ..frame },
                m,
                hi,
            )
    }
}

impl GraphView {
    /// How control moves in a graph: along its edges.
    pub open spec fn course(self) -> Course {
        Course {
            shows: |n: int, label: NodeLabel| self.live(n) && self.nodes[n] == Some(label),
            goes: |a: int, b: int, kind: EdgeType| self.arrow(a, b, kind),
        }
    }
}

impl Net {
    /// Whether the labels in scope stand for the same nodes in `later`.
    pub open spec fn recalls(self, later: Net) -> bool {
        forall|name: Seq<char>|
            (#[trigger] lookup(self.scopes, name)) is Some ==> lookup(later.scopes, name) == lookup(
                self.scopes,
                name,
            )
    }
}

proof fn lemma_recalls(net: Net, mid: Net, later: Net)
    requires
        net.widened(mid),
        mid.recalls(later),
    ensures
        net.recalls(later),
{
    assert forall|name: Seq<char>| (#[trigger] lookup(net.scopes, name)) is Some implies lookup(
        later.scopes,
        name,
    ) == lookup(net.scopes, name) by {
        lemma_widened_lookup(net, mid, name);
        assert(lookup(mid.scopes, name) is Some);
    }
}

/// What the labels in scope stand for.
pub open spec fn joints_of(scopes: Seq<Map<Seq<char>, int>>) -> spec_fn(Seq<char>) -> int {
    |name: Seq<char>| lookup(scopes, name)->0
}

broadcast proof fn lemma_edge_arrow(
    net: Net,
    a: int,
    b: int,
    kind: EdgeType,
    x: int,
    y: int,
    k: EdgeType,
)
    requires
        0 <= a < net.graph.out.len(),
    ensures
        #[trigger] net.edge(a, b, kind).graph.arrow(x, y, k) <==> net.graph.arrow(x, y, k) || (x
            == a && y == b && k == kind),
{
    let old = net.graph.out[a];
    let new = seq![Arrow { node: b, kind }] + old;
    assert(net.edge(a, b, kind).graph.out[a] == new);
    assert(new[0] == Arrow { node: b, kind });
    let arrow = Arrow { node: y, kind: k };
    if old.contains(arrow) {
        let j = old.index_of(arrow);
        assert(new[j + 1] == arrow);
    }
    if new.contains(arrow) {
        let j = new.index_of(arrow);
        if j > 0 {
            assert(old[j - 1] == arrow);
        }
    }
}

broadcast proof fn lemma_node_arrow(net: Net, label: NodeLabel, x: int, y: int, k: EdgeType)
    ensures
        #[trigger] net.node(label).graph.arrow(x, y, k) <==> net.graph.arrow(x, y, k),
{
}

/// Edges stay.
proof fn lemma_arrow_stays(net: Net, later: Net, a: int, b: int, kind: EdgeType)
    requires
        net.ok(),
        later.ok(),
        net.grows_to(later),
        net.graph.arrow(a, b, kind),
    ensures
        later.graph.arrow(a, b, kind),
{
    reveal(Net::grows_to);
    lemma_lists(net.graph);
    lemma_lists(later.graph);
    let old = net.graph.out[a];
    let new = later.graph.out[a];
    let j = old.index_of(Arrow { node: b, kind });
    assert(tail_of(old, new));
    assert(new[new.len() - old.len() + j] == old[j]);
}

/// What a net has, a later one has, too.
proof fn lemma_course_stays(net: Net, later: Net)
    requires
        net.ok(),
        later.ok(),
        net.grows_to(later),
    ensures
        forall|a: int, b: int, kind: EdgeType| #[trigger]
            net.graph.arrow(a, b, kind) ==> (later.graph.course().goes)(a, b, kind),
        forall|n: int, label: NodeLabel|
            0 <= n < net.next() && net.graph.nodes[n] == Some(label) ==> #[trigger] (
            later.graph.course().shows)(n, label),
{
    assert forall|a: int, b: int, kind: EdgeType| #[trigger]
        net.graph.arrow(a, b, kind) implies (later.graph.course().goes)(a, b, kind) by {
        lemma_arrow_stays(net, later, a, b, kind);
    }
    reveal(Net::grows_to);
}

/// The edges that the starts of statements add.
proof fn lemma_open_arrows(n: Net, frame: Frame, init: Seq<char>, cond: Seq<char>, upd: Seq<char>)
    requires
        n.ok(),
        frame.within(n),
    ensures
        ({
            let c = n.next();
            let block = n.open_block(frame).graph;
            let choice = n.open_if(frame, cond).graph;
            let before = n.open_while(frame, cond).graph;
            let after = n.open_do_while(frame, cond).graph;
            let full = n.open_for(frame, init, cond, upd).graph;
            &&& block.arrow(frame.source, c, EdgeType::Normal)
            &&& choice.arrow(frame.source, c, EdgeType::Normal)
            &&& choice.arrow(c, c + 1, EdgeType::Branch(true))
            &&& choice.arrow(c + 2, frame.sink, EdgeType::Normal)
            &&& before.arrow(frame.source, c, EdgeType::Normal)
            &&& before.arrow(c, c + 1, EdgeType::Branch(true))
            &&& before.arrow(c, frame.sink, EdgeType::Branch(false))
            &&& before.arrow(c + 2, c, EdgeType::Normal)
            &&& after.arrow(frame.source, c, EdgeType::Normal)
            &&& after.arrow(c + 1, c + 2, EdgeType::Normal)
            &&& after.arrow(c + 2, c, EdgeType::Branch(true))
            &&& after.arrow(c + 2, frame.sink, EdgeType::Branch(false))
            &&& full.arrow(frame.source, c + 3, EdgeType::Normal)
            &&& full.arrow(c + 3, c + 2, EdgeType::Normal)
            &&& full.arrow(c + 2, c, EdgeType::Branch(true))
            &&& full.arrow(c + 2, frame.sink, EdgeType::Branch(false))
            &&& full.arrow(c + 1, c + 4, EdgeType::Normal)
            &&& full.arrow(c + 4, c + 2, EdgeType::Normal)
        }),
{
    broadcast use {lemma_edge_arrow, lemma_node_arrow};

    lemma_lists(n.graph);
}

proof fn lemma_step_obeys(
    n: Net,
    frame: Frame,
    text: Seq<char>,
    target: int,
    later: Net,
    lo: int,
    hi: int,
)
    requires
        n.ok(),
        later.ok(),
        frame.within(n),
        0 <= target < n.next(),
        lo <= n.next() < hi,
        n.step(frame, text, target).grows_to(later),
    ensures
        later.graph.course().acts(frame.source, n.next(), text, lo, hi),
        later.graph.course().on(n.next(), target),
{
    broadcast use {lemma_node, lemma_edge, lemma_edge_arrow, lemma_node_arrow};

    let after = n.step(frame, text, target);
    lemma_lists(n.graph);
    lemma_course_stays(after, later);
    assert(after.graph.arrow(frame.source, n.next(), EdgeType::Normal));
    assert(after.graph.arrow(n.next(), target, EdgeType::Normal));
    assert(after.graph.nodes[n.next()] == Some(NodeLabel::Node(text)));
}

/// The joints of labels lead to the statement that bears them.
proof fn lemma_labels_obey(net: Net, names: Seq<Seq<char>>, k: nat, source: int, later: Net)
    requires
        net.ok(),
        later.ok(),
        later.jointed(),
        0 <= source < net.next(),
        k <= names.len(),
        net.labelled(names, k, source).grows_to(later),
        net.labelled(names, k, source).recalls(later),
    ensures
        forall|j: int|
            0 <= j < k ==> {
                &&& later.graph.course().bare(joints_of(later.scopes)(#[trigger] names[j]))
                &&& later.graph.course().on(joints_of(later.scopes)(names[j]), source)
            },
    decreases k,
{
    if k > 0 {
        let before = net.labelled(names, (k - 1) as nat, source);
        let name = names[k - 1];
        let bound = before.bind(name);
        let joint = before.joint(name);
        let after = net.labelled(names, k, source);
        lemma_labelled(net, names, (k - 1) as nat, source);
        lemma_labelled(net, names, k, source);
        lemma_grows_numbers(net, before);
        lemma_bind(before, name);
        lemma_edge(bound, joint, source, EdgeType::Normal);
        lemma_grows_trans(before, bound, after);
        lemma_grows_trans(before, after, later);
        lemma_bind_widens(before, name);
        lemma_widened_same(bound, after);
        lemma_widened_then(before, bound, after);
        lemma_recalls(before, after, later);
        lemma_labels_obey(net, names, (k - 1) as nat, source, later);
        lemma_lists(bound.graph);
        lemma_edge_arrow(bound, joint, source, EdgeType::Normal, joint, source, EdgeType::Normal);
        lemma_arrow_stays(after, later, joint, source, EdgeType::Normal);
        lemma_bound(before, name);
        assert(lookup(after.scopes, name) == Some(joint));
        lemma_bare(later, name);
    }
}

/// Nothing stands at the joint of a label.
proof fn lemma_bare(net: Net, name: Seq<char>)
    requires
        net.jointed(),
        lookup(net.scopes, name) is Some,
    ensures
        net.graph.course().bare(joints_of(net.scopes)(name)),
    decreases net.scopes.len(),
{
    reveal(Net::jointed);
    let last = net.scopes.len() - 1;
    if net.scopes[last].contains_key(name) {
        assert(net.graph.is_joint(net.scopes[last][name]));
    } else {
        lemma_bare(net.leave(), name);
    }
}

/// A label that has been bound stands for its joint.
proof fn lemma_bound(net: Net, name: Seq<char>)
    requires
        net.ok(),
    ensures
        lookup(net.bind(name).scopes, name) == Some(net.joint(name)),
{
    if lookup(net.scopes, name) is None {
        lemma_bound_lookup(net, name);
    }
}

/// The tests of a switch lead where they should.
proof fn lemma_table_arrows(
    net: Net,
    cond: Seq<char>,
    names: Seq<Seq<char>>,
    k: int,
    joints: Map<Seq<char>, int>,
    otherwise: int,
)
    requires
        net.ok(),
        0 <= k < names.len(),
        0 <= otherwise < net.next(),
        forall|j: int| k <= j < names.len() ==> 0 <= joints[#[trigger] names[j]] < net.next(),
    ensures
        ({
            let full = with_table(net, cond, names, k, joints, otherwise).graph;
            forall|j: int|
                k <= j < names.len() ==> {
                    let n = net.next() + j - k;
                    let next = if j + 1 < names.len() {
                        n + 1
                    } else {
                        otherwise
                    };
                    &&& full.nodes[n] == Some(
                        NodeLabel::Choice(cond + " == "@ + #[trigger] names[j]),
                    )
                    &&& full.arrow(n, joints[names[j]], EdgeType::Branch(true))
                    &&& full.arrow(n, next, EdgeType::Branch(false))
                }
        }),
    decreases names.len() - k,
{
    broadcast use {lemma_node, lemma_edge, lemma_edge_arrow, lemma_node_arrow};

    let cur = net.next();
    let n1 = net.node(NodeLabel::Choice(case_test(cond, names[k])));
    let asked = n1.edge(cur, joints[names[k]], EdgeType::Branch(true));
    let full = with_table(net, cond, names, k, joints, otherwise);
    lemma_lists(net.graph);
    assert(asked.graph.arrow(cur, joints[names[k]], EdgeType::Branch(true)));
    assert(asked.graph.nodes[cur] == Some(NodeLabel::Choice(cond + " == "@ + names[k])));
    if k + 1 < names.len() {
        let rest = with_table(asked, cond, names, k + 1, joints, otherwise);
        lemma_jump_table(asked, cond, names, k + 1, joints, otherwise);
        lemma_table_arrows(asked, cond, names, k + 1, joints, otherwise);
        lemma_lists(rest.graph);
        lemma_grows_numbers(asked, rest);
        assert(full == rest.edge(cur, cur + 1, EdgeType::Branch(false)));
        lemma_arrow_stays(asked, rest, cur, joints[names[k]], EdgeType::Branch(true));
        assert(rest.graph.nodes[cur] == asked.graph.nodes[cur]) by {
            reveal(Net::grows_to);
        }
        assert forall|j: int| k <= j < names.len() implies {
            let n = net.next() + j - k;
            let next = if j + 1 < names.len() {
                n + 1
            } else {
                otherwise
            };
            &&& full.graph.nodes[n] == Some(NodeLabel::Choice(cond + " == "@ + #[trigger] names[j]))
            &&& full.graph.arrow(n, joints[names[j]], EdgeType::Branch(true))
            &&& full.graph.arrow(n, next, EdgeType::Branch(false))
        } by {
            if j > k {
                let n = asked.next() + j - (k + 1);
                assert(rest.graph.nodes[n] == Some(
                    NodeLabel::Choice(cond + " == "@ + names[j]),
                ));
            }
        }
    } else {
        assert(full == asked.edge(cur, otherwise, EdgeType::Branch(false)));
    }
}

/// The edges that the start of a switch adds.
proof fn lemma_switch_arrows(n: Net, frame: Frame, cond: Seq<char>, names: Seq<Seq<char>>)
    requires
        n.ok(),
        frame.within(n),
        tested(names).len() > 0,
    ensures
        ({
            let opened = n.open_switch(frame, cond, names);
            let tests = tested(names);
            let cases = case_joints(names, names.len(), n.next());
            let start = n.next() + names.len();
            &&& opened.graph.arrow(frame.source, start, EdgeType::Normal)
            &&& opened.graph.arrow(opened.next() - 1, frame.sink, EdgeType::Normal)
            &&& opened.graph.nodes[opened.next() - 2] == Some(NodeLabel::Dummy)
            &&& opened.graph.nodes[opened.next() - 1] == Some(NodeLabel::Dummy)
            &&& forall|i: int|
                n.next() <= i < start ==> #[trigger] opened.graph.nodes[i] == Some(NodeLabel::Dummy)
            &&& forall|j: int|
                0 <= j < tests.len() ==> {
                    let m = start + j;
                    let next = if j + 1 < tests.len() {
                        m + 1
                    } else {
                        n.otherwise(frame, names)
                    };
                    &&& opened.graph.nodes[m] == Some(
                        NodeLabel::Choice(cond + " == "@ + #[trigger] tests[j]),
                    )
                    &&& opened.graph.arrow(m, cases[tests[j]], EdgeType::Branch(true))
                    &&& opened.graph.arrow(m, next, EdgeType::Branch(false))
                }
        }),
{
    let base = n.next();
    let tests = tested(names);
    let cases = case_joints(names, names.len(), base);
    let other = n.otherwise(frame, names);
    let n1 = n.joints(names.len());
    let start = base + names.len();
    let opened = n.open_switch(frame, cond, names);
    lemma_open_switch(n, frame, cond, names);
    lemma_joints(n, names.len());
    lemma_case_joints(names, names.len(), base);
    lemma_tested(names);
    if names.contains("default"@) {
        let j = names.index_of("default"@);
        assert(cases.contains_key(names[j]));
    }
    assert forall|j: int| 0 <= j < tests.len() implies 0 <= cases[#[trigger] tests[j]]
        < n1.next() by {
        let m = names.index_of(tests[j]);
        assert(cases.contains_key(names[m]));
    }
    lemma_jump_table(n1, cond, tests, 0, cases, other);
    lemma_table_arrows(n1, cond, tests, 0, cases, other);
    let n2 = with_table(n1, cond, tests, 0, cases, other);
    let n3 = Net { scopes: n.scopes.push(cases), ..n2 };
    let d = n3.next();
    lemma_lists(n2.graph);
    lemma_finish_arrows(n3, frame.source, start, frame.sink);
    lemma_joints_bare(n, names.len());
    assert forall|i: int| base <= i < start implies #[trigger] opened.graph.nodes[i] == Some(
        NodeLabel::Dummy,
    ) by {
        assert(n2.graph.nodes[i] == n1.graph.nodes[i]) by {
            reveal(Net::grows_to);
        }
        assert(n3.graph.nodes[i] == n2.graph.nodes[i]);
    }
    assert(opened == n3.normal(frame.source, start).node(NodeLabel::Dummy).node(
        NodeLabel::Dummy,
    ).normal(d + 1, frame.sink));
    assert forall|j: int| 0 <= j < tests.len() implies {
        let m = start + j;
        let next = if j + 1 < tests.len() {
            m + 1
        } else {
            other
        };
        &&& opened.graph.nodes[m] == Some(NodeLabel::Choice(cond + " == "@ + #[trigger] tests[j]))
        &&& opened.graph.arrow(m, cases[tests[j]], EdgeType::Branch(true))
        &&& opened.graph.arrow(m, next, EdgeType::Branch(false))
    } by {
        let m = n1.next() + j - 0;
        assert(n2.graph.nodes[m] == Some(NodeLabel::Choice(cond + " == "@ + tests[j])));
        assert(n3.graph.arrow(m, cases[tests[j]], EdgeType::Branch(true)));
    }
}

proof fn lemma_joints_bare(net: Net, k: nat)
    ensures
        net.joints(k).next() == net.next() + k,
        forall|i: int|
            net.next() <= i < net.next() + k ==> #[trigger] net.joints(k).graph.nodes[i] == Some(
                NodeLabel::Dummy,
            ),
    decreases k,
{
    if k > 0 {
        lemma_joints_bare(net, (k - 1) as nat);
    }
}

proof fn lemma_finish_arrows(n: Net, source: int, start: int, sink: int)
    requires
        n.graph.out.len() == n.graph.nodes.len(),
        0 <= source < n.next(),
    ensures
        ({
            let after = n.normal(source, start).node(NodeLabel::Dummy).node(
                NodeLabel::Dummy,
            ).normal(n.next() + 1, sink);
            &&& after.graph.arrow(source, start, EdgeType::Normal)
            &&& after.graph.arrow(n.next() + 1, sink, EdgeType::Normal)
            &&& after.next() == n.next() + 2
            &&& after.graph.nodes[n.next()] == Some(NodeLabel::Dummy)
            &&& after.graph.nodes[n.next() + 1] == Some(NodeLabel::Dummy)
            &&& forall|a: int, b: int, kind: EdgeType| #[trigger]
                n.graph.arrow(a, b, kind) ==> after.graph.arrow(a, b, kind)
            &&& forall|i: int|
                0 <= i < n.next() ==> #[trigger] after.graph.nodes[i] == n.graph.nodes[i]
        }),
{
    broadcast use {lemma_edge_arrow, lemma_node_arrow};

}

/// The start of a switch leads where it should.
proof fn lemma_switch_obeys(
    n: Net,
    frame: Frame,
    cond: Seq<char>,
    names: Seq<Seq<char>>,
    later: Net,
    lo: int,
    hi: int,
)
    requires
        n.ok(),
        later.ok(),
        frame.within(n),
        tested(names).len() > 0,
        n.open_switch(frame, cond, names).grows_to(later),
        lo <= n.next(),
        n.open_switch(frame, cond, names).next() <= hi,
    ensures
        ({
            let opened = n.open_switch(frame, cond, names);
            let d = opened.next() - 2;
            later.graph.course().selects(
                frame.source,
                case_joints(names, names.len(), n.next()),
                Seq::new(tested(names).len(), |j: int| n.next() + names.len() + j),
                d,
                d + 1,
                frame.sink,
                cond,
                names,
                lo,
                opened.next(),
                hi,
            )
        }),
{
    let base = n.next();
    let tests = tested(names);
    let cases = case_joints(names, names.len(), base);
    let other = n.otherwise(frame, names);
    let start = base + names.len();
    let opened = n.open_switch(frame, cond, names);
    let d = opened.next() - 2;
    let course = later.graph.course();
    let asks = Seq::new(tests.len(), |j: int| base + names.len() + j);
    lemma_open_switch(n, frame, cond, names);
    lemma_switch_arrows(n, frame, cond, names);
    lemma_case_keys(names, names.len(), base);
    lemma_course_stays(opened, later);
    assert forall|j: int| 0 <= j < asks.len() implies {
        &&& course.asks(#[trigger] asks[j], cond + " == "@ + tests[j], lo, opened.next())
        &&& course.yes(asks[j], cases[tests[j]])
        &&& course.no(
            asks[j],
            if j + 1 < asks.len() {
                asks[j + 1]
            } else {
                other
            },
        )
    } by {
        let m = start + j;
        assert(asks[j] == m);
        assert(opened.graph.nodes[m] == Some(NodeLabel::Choice(cond + " == "@ + tests[j])));
        if j + 1 < asks.len() {
            assert(asks[j + 1] == m + 1);
        }
    }
    assert(asks[0] == start);
    assert(tests == names.filter(|name: Seq<char>| name != "default"@));
    assert(course.sorts(asks, cond, tests, cases, other, lo, opened.next()));
    lemma_case_joints(names, names.len(), base);
    assert forall|name: Seq<char>| #[trigger] cases.contains_key(name) implies course.bare(
        cases[name],
    ) by {
        assert(opened.graph.nodes[cases[name]] == Some(NodeLabel::Dummy));
    }
    assert(course.bare(d) && course.bare(d + 1));
}

/// Just the cases have joints.
pub proof fn lemma_case_keys(names: Seq<Seq<char>>, k: nat, base: int)
    requires
        k <= names.len(),
    ensures
        forall|name: Seq<char>| #[trigger]
            case_joints(names, k, base).contains_key(name) <==> names.take(k as int).contains(name),
        names.take(names.len() as int) == names,
    decreases k,
{
    assert(names.take(names.len() as int) =~= names);
    if k > 0 {
        let before = names.take(k - 1);
        let all = names.take(k as int);
        lemma_case_keys(names, (k - 1) as nat, base);
        assert(all =~= before.push(names[k - 1]));
        assert forall|name: Seq<char>| #[trigger]
            case_joints(names, k, base).contains_key(name) <==> all.contains(name) by {
            assert(case_joints(names, (k - 1) as nat, base).contains_key(name)
                <==> before.contains(name));
            if before.contains(name) {
                let j = before.index_of(name);
                assert(all[j] == name);
            }
            if name == names[k - 1] {
                assert(all[k - 1] == name);
            }
            if all.contains(name) && name != names[k - 1] {
                let j = all.index_of(name);
                assert(before[j] == name);
            }
        }
    }
}

/// Control moves through a drawn statement as the statement says: from the frame's source, where
/// the labels that it bears lead to, through its own nodes, to the frame's sink or to where it
/// jumps; whatever the frame is, and whatever is added to the chart later.
pub proof fn drawing_obeys(ast: &Ast, frame: Frame, net: Net, later: Net)
    requires
        net.ok(),
        frame.within(net),
        build(ast, frame, net).fault is None,
        later.ok(),
        later.jointed(),
        build(ast, frame, net).net.grows_to(later),
        build(ast, frame, net).net.recalls(later),
    ensures
        obeys(
            ast,
            later.graph.course(),
            joints_of(later.scopes),
            frame,
            net.next(),
            build(ast, frame, net).net.next(),
        ),
{
    lemma_build_obeys(
        ast,
        frame,
        net,
        later,
        net.next(),
        build(ast, frame, net).net.next(),
    );
}

/// As [`drawing_obeys`], with any number from which on the statement's own nodes are counted.
proof fn lemma_build_obeys(ast: &Ast, frame: Frame, net: Net, later: Net, lo: int, hi: int)
    requires
        net.ok(),
        frame.within(net),
        build(ast, frame, net).fault is None,
        later.ok(),
        later.jointed(),
        build(ast, frame, net).net.grows_to(later),
        build(ast, frame, net).net.recalls(later),
        lo <= net.next(),
        build(ast, frame, net).net.next() <= hi,
    ensures
        obeys(
            ast,
            later.graph.course(),
            joints_of(later.scopes),
            frame,
            lo,
            hi,
        ),
    decreases ast, 2nat,
{
    let labels = ast.labels();
    let n = net.labelled(labels, labels.len(), frame.source);
    let after = build(ast, frame, net).net;
    assert(build(ast, frame, net) == build_node(ast, frame, n));
    lemma_labelled(net, labels, labels.len(), frame.source);
    lemma_grows_numbers(net, n);
    lemma_build_node(ast, frame, n);
    lemma_grows_trans(n, after, later);
    lemma_node_widens(ast, frame, n);
    lemma_recalls(n, after, later);
    lemma_labels_obey(net, labels, labels.len(), frame.source, later);
    lemma_node_obeys(ast, frame, n, later, lo, hi);
}

proof fn lemma_node_obeys(ast: &Ast, frame: Frame, n: Net, later: Net, lo: int, hi: int)
    requires
        n.ok(),
        frame.within(n),
        build_node(ast, frame, n).fault is None,
        later.ok(),
        later.jointed(),
        build_node(ast, frame, n).net.grows_to(later),
        build_node(ast, frame, n).net.recalls(later),
        lo <= n.next(),
        build_node(ast, frame, n).net.next() <= hi,
    ensures
        obeys_inside(
            ast,
            later.graph.course(),
            joints_of(later.scopes),
            frame,
            lo,
            hi,
        ),
    decreases ast, 1nat,
{
    let after = build_node(ast, frame, n).net;
    match &ast.node {
        AstNode::Dummy => {},
        AstNode::Compound(v) => {
            lemma_block_obeys(v@, frame, n, later, lo, hi);
        },
        AstNode::Stat(s) => {
            lemma_step_obeys(n, frame, s@, frame.sink, later, lo, hi);
        },
        AstNode::Continue(s) => {
            lemma_step_obeys(n, frame, s@, frame.continue_target->0, later, lo, hi);
        },
        AstNode::Break(s) => {
            lemma_step_obeys(n, frame, s@, frame.break_target->0, later, lo, hi);
        },
        AstNode::Return(s) => {
            lemma_step_obeys(n, frame, s@, frame.end, later, lo, hi);
        },
        AstNode::If { cond, body, otherwise } => {
            lemma_if_obeys(ast, cond@, *body, *otherwise, frame, n, later, lo, hi);
        },
        AstNode::While { cond, body } => {
            lemma_while_obeys(ast, frame, n, later, lo, hi);
        },
        AstNode::DoWhile { cond, body } => {
            lemma_do_while_obeys(ast, frame, n, later, lo, hi);
        },
        AstNode::For { init, cond, upd, body } => {
            lemma_for_obeys(ast, frame, n, later, lo, hi);
        },
        AstNode::Switch { cond, body, cases } => {
            lemma_body_obeys(ast, cond@, *body, texts(cases@), frame, n, later, lo, hi);
        },
        AstNode::Goto(name) => {
            let bound = n.bind(name@);
            let joint = n.joint(name@);
            lemma_bind(n, name@);
            lemma_lists(bound.graph);
            lemma_edge(bound, frame.source, joint, EdgeType::Normal);
            lemma_edge_arrow(
                bound,
                frame.source,
                joint,
                EdgeType::Normal,
                frame.source,
                joint,
                EdgeType::Normal,
            );
            lemma_arrow_stays(after, later, frame.source, joint, EdgeType::Normal);
            lemma_bound(n, name@);
            assert(lookup(after.scopes, name@) == Some(joint));
            lemma_bare(later, name@);
        },
    }
}

proof fn lemma_while_obeys(ast: &Ast, frame: Frame, n: Net, later: Net, lo: int, hi: int)
    requires
        n.ok(),
        frame.within(n),
        build_node(ast, frame, n).fault is None,
        later.ok(),
        later.jointed(),
        build_node(ast, frame, n).net.grows_to(later),
        build_node(ast, frame, n).net.recalls(later),
        lo <= n.next(),
        build_node(ast, frame, n).net.next() <= hi,
        ast.node is While,
    ensures
        obeys_inside(ast, later.graph.course(), joints_of(later.scopes), frame, lo, hi),
    decreases ast, 0nat,
{
    let c = n.next();
    let course = later.graph.course();
    let after = build_node(ast, frame, n).net;
    match &ast.node {
        AstNode::While { cond, body } => {
            let opened = n.open_while(frame, cond@);
            let inner = frame.looping(c + 1, c + 2, c);
            lemma_open_while(n, frame, cond@);
            lemma_open_arrows(n, frame, cond@, cond@, cond@);
            lemma_build(&**body, inner, opened);
            lemma_grows_numbers(opened, after);
            lemma_grows_trans(opened, after, later);
            lemma_course_stays(opened, later);
            lemma_build_obeys(&**body, inner, opened, later, opened.next(), hi);
            assert(opened.graph.nodes[c + 1] == Some(NodeLabel::Dummy));
            assert(opened.graph.nodes[c + 2] == Some(NodeLabel::Dummy));
            assert(opened.graph.nodes[c] == Some(NodeLabel::Choice(cond@)));
            assert(course.repeats(c, c + 1, c + 2, c, frame.sink, cond@, lo, opened.next(), hi));
        },
        _ => {},
    }
}

proof fn lemma_do_while_obeys(ast: &Ast, frame: Frame, n: Net, later: Net, lo: int, hi: int)
    requires
        n.ok(),
        frame.within(n),
        build_node(ast, frame, n).fault is None,
        later.ok(),
        later.jointed(),
        build_node(ast, frame, n).net.grows_to(later),
        build_node(ast, frame, n).net.recalls(later),
        lo <= n.next(),
        build_node(ast, frame, n).net.next() <= hi,
        ast.node is DoWhile,
    ensures
        obeys_inside(ast, later.graph.course(), joints_of(later.scopes), frame, lo, hi),
    decreases ast, 0nat,
{
    let c = n.next();
    let course = later.graph.course();
    let after = build_node(ast, frame, n).net;
    match &ast.node {
        AstNode::DoWhile { cond, body } => {
            let opened = n.open_do_while(frame, cond@);
            let inner = frame.looping(c, c + 1, c + 2);
            lemma_open_do_while(n, frame, cond@);
            lemma_open_arrows(n, frame, cond@, cond@, cond@);
            lemma_build(&**body, inner, opened);
            lemma_grows_numbers(opened, after);
            lemma_grows_trans(opened, after, later);
            lemma_course_stays(opened, later);
            lemma_build_obeys(&**body, inner, opened, later, opened.next(), hi);
            assert(opened.graph.nodes[c] == Some(NodeLabel::Dummy));
            assert(opened.graph.nodes[c + 1] == Some(NodeLabel::Dummy));
            assert(opened.graph.nodes[c + 2] == Some(NodeLabel::Choice(cond@)));
            assert(course.repeats(
                c + 2,
                c,
                c + 1,
                c + 2,
                frame.sink,
                cond@,
                lo,
                opened.next(),
                hi,
            ));
        },
        _ => {},
    }
}

proof fn lemma_for_obeys(ast: &Ast, frame: Frame, n: Net, later: Net, lo: int, hi: int)
    requires
        n.ok(),
        frame.within(n),
        build_node(ast, frame, n).fault is None,
        later.ok(),
        later.jointed(),
        build_node(ast, frame, n).net.grows_to(later),
        build_node(ast, frame, n).net.recalls(later),
        lo <= n.next(),
        build_node(ast, frame, n).net.next() <= hi,
        ast.node is For,
    ensures
        obeys_inside(ast, later.graph.course(), joints_of(later.scopes), frame, lo, hi),
    decreases ast, 0nat,
{
    let c = n.next();
    let course = later.graph.course();
    let after = build_node(ast, frame, n).net;
    match &ast.node {
        AstNode::For { init, cond, upd, body } => {
            let opened = n.open_for(frame, init@, cond@, upd@);
            let inner = frame.looping(c, c + 1, c + 4);
            lemma_open_for(n, frame, init@, cond@, upd@);
            lemma_open_arrows(n, frame, init@, cond@, upd@);
            lemma_build(&**body, inner, opened);
            lemma_grows_numbers(opened, after);
            lemma_grows_trans(opened, after, later);
            lemma_course_stays(opened, later);
            lemma_build_obeys(&**body, inner, opened, later, opened.next(), hi);
            assert(opened.graph.nodes[c] == Some(NodeLabel::Dummy));
            assert(opened.graph.nodes[c + 1] == Some(NodeLabel::Dummy));
            assert(opened.graph.nodes[c + 2] == Some(NodeLabel::Choice(cond@)));
            assert(opened.graph.nodes[c + 3] == Some(NodeLabel::Node(init@)));
            assert(opened.graph.nodes[c + 4] == Some(NodeLabel::Node(upd@)));
            assert(course.counts(
                frame.source,
                c + 3,
                c + 2,
                c + 4,
                c,
                c + 1,
                frame.sink,
                init@,
                cond@,
                upd@,
                lo,
                opened.next(),
                hi,
            ));
        },
        _ => {},
    }
}

proof fn lemma_if_obeys(
    ast: &Ast,
    cond: Seq<char>,
    body: Rc<Ast>,
    otherwise: Option<Rc<Ast>>,
    frame: Frame,
    n: Net,
    later: Net,
    lo: int,
    hi: int,
)
    requires
        ast.node matches AstNode::If { cond: text, body: b, otherwise: o } && text@ == cond && b
            == body && o == otherwise,
        n.ok(),
        frame.within(n),
        build_node(ast, frame, n).fault is None,
        later.ok(),
        later.jointed(),
        build_node(ast, frame, n).net.grows_to(later),
        build_node(ast, frame, n).net.recalls(later),
        lo <= n.next(),
        build_node(ast, frame, n).net.next() <= hi,
    ensures
        obeys_inside(
            ast,
            later.graph.course(),
            joints_of(later.scopes),
            frame,
            lo,
            hi,
        ),
    decreases ast, 0nat,
{
    let c = n.next();
    let course = later.graph.course();
    let after = build_node(ast, frame, n).net;
    let opened = n.open_if(frame, cond);
    let inner = frame.between(c + 1, c + 2);
    let first = build(&*body, inner, opened).net;
    lemma_open_if(n, frame, cond);
    lemma_open_arrows(n, frame, cond, cond, cond);
    lemma_build(&*body, inner, opened);
    lemma_grows_numbers(opened, first);
    lemma_lists(first.graph);
    assert(opened.graph.nodes[c + 1] == Some(NodeLabel::Dummy));
    assert(opened.graph.nodes[c + 2] == Some(NodeLabel::Dummy));
    assert(opened.graph.nodes[c] == Some(NodeLabel::Choice(cond)));
    match otherwise {
        Some(t) => {
            let second = first.open_else(c);
            let e = first.next();
            let inner2 = frame.between(e, c + 2);
            lemma_open_else(first, c);
            lemma_build(&*t, inner2, second);
            lemma_grows_numbers(second, after);
            drawing_widens_labels(&*t, inner2, second);
            lemma_widened_same(first, second);
            lemma_widened_then(first, second, after);
            lemma_grows_trans(first, second, after);
            lemma_grows_trans(second, after, later);
            lemma_node(first, NodeLabel::Dummy);
            lemma_lists(first.node(NodeLabel::Dummy).graph);
            lemma_edge_arrow(
                first.node(NodeLabel::Dummy),
                c,
                e,
                EdgeType::Branch(false),
                c,
                e,
                EdgeType::Branch(false),
            );
            lemma_arrow_stays(second, later, c, e, EdgeType::Branch(false));
            lemma_build_obeys(&*t, inner2, second, later, first.next(), hi);
            lemma_course_stays(second, later);
            assert(second.graph.nodes[e] == Some(NodeLabel::Dummy));
            assert(course.no(c, e) && course.bare(e));
        },
        None => {
            lemma_edge(first, c, frame.sink, EdgeType::Branch(false));
            lemma_widened_same(first, after);
            lemma_edge_arrow(
                first,
                c,
                frame.sink,
                EdgeType::Branch(false),
                c,
                frame.sink,
                EdgeType::Branch(false),
            );
            lemma_arrow_stays(after, later, c, frame.sink, EdgeType::Branch(false));
        },
    }
    lemma_recalls(first, after, later);
    lemma_grows_trans(first, after, later);
    lemma_grows_trans(opened, first, later);
    lemma_course_stays(opened, later);
    lemma_build_obeys(&*body, inner, opened, later, opened.next(), first.next());
    assert(course.decides(
        frame.source,
        c,
        c + 1,
        c + 2,
        frame.sink,
        cond,
        lo,
        opened.next(),
        first.next(),
        hi,
    ));
}

proof fn lemma_body_obeys(
    ast: &Ast,
    cond: Seq<char>,
    body: Rc<Ast>,
    cases: Seq<Seq<char>>,
    frame: Frame,
    n: Net,
    later: Net,
    lo: int,
    hi: int,
)
    requires
        ast.node matches AstNode::Switch { cond: text, body: b, cases: names } && text@ == cond && b
            == body && texts(names@) == cases,
        n.ok(),
        frame.within(n),
        build_node(ast, frame, n).fault is None,
        later.ok(),
        later.jointed(),
        build_node(ast, frame, n).net.grows_to(later),
        build_node(ast, frame, n).net.recalls(later),
        lo <= n.next(),
        build_node(ast, frame, n).net.next() <= hi,
    ensures
        obeys_inside(
            ast,
            later.graph.course(),
            joints_of(later.scopes),
            frame,
            lo,
            hi,
        ),
    decreases ast, 0nat,
{
    let course = later.graph.course();
    let opened = n.open_switch(frame, cond, cases);
    let d = opened.next() - 2;
    let inner = frame.switching(d, d + 1);
    let drawn = build(&*body, inner, opened).net;
    let after = build_node(ast, frame, n).net;
    let at = case_joints(cases, cases.len(), n.next());
    let deep = Net { scopes: later.scopes.push(at), ..later };
    let asks = Seq::new(tested(cases).len(), |j: int| n.next() + cases.len() + j);
    assert(build_node(ast, frame, n) == build_switch(cond, body, cases, frame, n));
    lemma_open_switch(n, frame, cond, cases);
    lemma_build(&*body, inner, opened);
    lemma_grows_numbers(opened, drawn);
    drawing_widens_labels(&*body, inner, opened);
    assert(opened.scopes == n.scopes.push(at));
    assert(opened.scopes.drop_last() =~= n.scopes);
    assert(drawn.scopes.len() == opened.scopes.len() && drawn.scopes.last() == at) by {
        reveal(Net::widened);
        let s = opened.scopes.len() - 1;
        assert(drawn.scopes[s] == opened.scopes[s]);
    }
    assert(after == drawn.leave());
    lemma_leave(drawn);
    lemma_grows_trans(drawn, after, later);
    lemma_grows_trans(opened, drawn, later);
    lemma_deepen(drawn, later, deep, at);
    lemma_case_joints(cases, cases.len(), n.next());
    lemma_deep_ok(n, frame, cond, cases, later, deep);
    lemma_build_obeys(&*body, inner, opened, deep, opened.next(), hi);
    lemma_switch_obeys(n, frame, cond, cases, later, lo, hi);
    assert(joints_of(deep.scopes) =~= within_switch(at, joints_of(later.scopes))) by {
        assert forall|name: Seq<char>| #[trigger] joints_of(deep.scopes)(name) == within_switch(
            at,
            joints_of(later.scopes),
        )(name) by {
            assert(deep.scopes.drop_last() =~= later.scopes);
        }
    }
    assert(course.selects(
        frame.source,
        at,
        asks,
        d,
        d + 1,
        frame.sink,
        cond,
        cases,
        lo,
        opened.next(),
        hi,
    ));
}

/// What is later than a switch that has been left is, with its cases, later than its body.
proof fn lemma_deepen(drawn: Net, later: Net, deep: Net, at: Map<Seq<char>, int>)
    requires
        drawn.scopes.len() >= 2,
        drawn.scopes.last() == at,
        drawn.grows_to(later),
        drawn.leave().recalls(later),
        deep == (Net { scopes: later.scopes.push(at), ..later }),
        later.scopes.len() >= 1,
    ensures
        drawn.grows_to(deep),
        drawn.recalls(deep),
{
    assert(drawn.grows_to(deep)) by {
        reveal(Net::grows_to);
    }
    assert forall|name: Seq<char>| (#[trigger] lookup(drawn.scopes, name)) is Some implies lookup(
        deep.scopes,
        name,
    ) == lookup(drawn.scopes, name) by {
        assert(deep.scopes.drop_last() =~= later.scopes);
        if !at.contains_key(name) {
            assert(lookup(drawn.leave().scopes, name) == lookup(drawn.scopes, name));
        }
    }
}

proof fn lemma_deep_ok(
    n: Net,
    frame: Frame,
    cond: Seq<char>,
    cases: Seq<Seq<char>>,
    later: Net,
    deep: Net,
)
    requires
        n.ok(),
        frame.within(n),
        tested(cases).len() > 0,
        later.ok(),
        later.jointed(),
        n.open_switch(frame, cond, cases).grows_to(later),
        deep == (Net {
            scopes: later.scopes.push(case_joints(cases, cases.len(), n.next())),
            ..later
        }),
    ensures
        deep.ok(),
        deep.jointed(),
{
    let opened = n.open_switch(frame, cond, cases);
    let at = case_joints(cases, cases.len(), n.next());
    lemma_open_switch(n, frame, cond, cases);
    lemma_switch_arrows(n, frame, cond, cases);
    lemma_case_joints(cases, cases.len(), n.next());
    lemma_grows_numbers(opened, later);
    lemma_scope(later, at);
    lemma_course_stays(opened, later);
    reveal(Net::jointed);
    assert forall|s: int, name: Seq<char>|
        0 <= s < deep.scopes.len() && #[trigger] deep.scopes[s].contains_key(
            name,
        ) implies deep.graph.is_joint(deep.scopes[s][name]) by {
        if s < later.scopes.len() {
            assert(later.scopes[s].contains_key(name));
        } else {
            let i = at[name];
            assert(opened.graph.nodes[i] == Some(NodeLabel::Dummy));
            assert((later.graph.course().shows)(i, NodeLabel::Dummy));
        }
    }
}

proof fn lemma_block_obeys(v: Seq<Rc<Ast>>, frame: Frame, n: Net, later: Net, lo: int, hi: int)
    requires
        n.ok(),
        frame.within(n),
        build_block(v, frame, n).fault is None,
        later.ok(),
        later.jointed(),
        build_block(v, frame, n).net.grows_to(later),
        build_block(v, frame, n).net.recalls(later),
        lo <= n.next(),
        build_block(v, frame, n).net.next() <= hi,
    ensures
        exists|first: int, last: int| #[trigger]
            later.graph.course().spans(frame.source, first, last, frame.sink) && if v.len() == 0 {
                later.graph.course().on(first, last)
            } else {
                obeys_in_turn(
                    v,
                    v.len(),
                    later.graph.course(),
                    joints_of(later.scopes),
                    frame,
                    first,
                    last,
                    lo,
                    hi,
                )
            },
    decreases v, v.len() + 1,
{
    broadcast use {lemma_edge_arrow, lemma_node_arrow};

    let c = n.next();
    let course = later.graph.course();
    let opened = n.open_block(frame);
    let after = build_block(v, frame, n).net;
    lemma_open_block(n, frame);
    lemma_open_arrows(n, frame, Seq::empty(), Seq::empty(), Seq::empty());
    lemma_lists(opened.graph);
    if v.len() == 0 {
        let one = opened.normal(c, c + 1);
        lemma_edge(opened, c, c + 1, EdgeType::Normal);
        lemma_edge(one, c + 1, frame.sink, EdgeType::Normal);
        lemma_lists(one.graph);
        lemma_course_stays(after, later);
        assert(after.graph.arrow(frame.source, c, EdgeType::Normal));
        assert(after.graph.arrow(c, c + 1, EdgeType::Normal));
        assert(after.graph.arrow(c + 1, frame.sink, EdgeType::Normal));
        assert(after.graph.nodes[c] == Some(NodeLabel::Dummy));
        assert(after.graph.nodes[c + 1] == Some(NodeLabel::Dummy));
        assert(course.spans(frame.source, c, c + 1, frame.sink));
    } else {
        let chain = build_chain(v, v.len(), frame, opened, c);
        let net = chain.built.net;
        lemma_build_chain(v, v.len(), frame, opened, c);
        lemma_grows_numbers(opened, net);
        lemma_lists(net.graph);
        lemma_edge(net, chain.sink, frame.sink, EdgeType::Normal);
        lemma_widened_edge(net, chain.sink, frame.sink);
        lemma_recalls(net, after, later);
        lemma_grows_trans(net, after, later);
        lemma_grows_trans(opened, net, later);
        lemma_arrow_stays(opened, later, frame.source, c, EdgeType::Normal);
        lemma_arrow_stays(after, later, chain.sink, frame.sink, EdgeType::Normal);
        lemma_course_stays(opened, later);
        assert(opened.graph.nodes[c] == Some(NodeLabel::Dummy));
        assert(opened.graph.nodes[c + 1] == Some(NodeLabel::Dummy));
        lemma_chain_obeys(v, v.len(), frame, opened, c, later, lo, hi);
        assert(course.spans(frame.source, c, chain.sink, frame.sink));
    }
}

proof fn lemma_widened_edge(net: Net, a: int, b: int)
    requires
        net.ok(),
    ensures
        net.widened(net.normal(a, b)),
{
    lemma_widened_same(net, net.normal(a, b));
}

/// Where control is behind the first `k` statements of a block.
pub open spec fn reached(v: Seq<Rc<Ast>>, k: nat, source: int, sink: int) -> int {
    if k == v.len() {
        sink
    } else {
        source
    }
}

proof fn lemma_chain_obeys(
    v: Seq<Rc<Ast>>,
    k: nat,
    frame: Frame,
    net: Net,
    c: int,
    later: Net,
    lo: int,
    hi: int,
)
    requires
        k <= v.len(),
        v.len() > 0,
        net.ok(),
        frame.within(net),
        0 <= c,
        c + 1 < net.next(),
        build_chain(v, k, frame, net, c).built.fault is None,
        later.ok(),
        later.jointed(),
        build_chain(v, k, frame, net, c).built.net.grows_to(later),
        build_chain(v, k, frame, net, c).built.net.recalls(later),
        lo <= net.next(),
        later.graph.course().bare(c),
        later.graph.course().bare(c + 1),
        build_chain(v, k, frame, net, c).built.net.next() <= hi,
    ensures
        obeys_in_turn(
            v,
            k,
            later.graph.course(),
            joints_of(later.scopes),
            frame,
            c,
            reached(
                v,
                k,
                build_chain(v, k, frame, net, c).source,
                build_chain(v, k, frame, net, c).sink,
            ),
            lo,
            hi,
        ),
        later.graph.course().bare(build_chain(v, k, frame, net, c).source),
        later.graph.course().bare(build_chain(v, k, frame, net, c).sink),
    decreases v, k,
{
    if k > 0 {
        let before = build_chain(v, (k - 1) as nat, frame, net, c);
        let chain = build_chain(v, k, frame, net, c);
        let inner = frame.between(before.source, before.sink);
        let ast = &*v[k - 1];
        let drawn = build(ast, inner, before.built.net).net;
        lemma_build_chain(v, (k - 1) as nat, frame, net, c);
        lemma_grows_numbers(net, before.built.net);
        lemma_build(ast, inner, before.built.net);
        lemma_grows_numbers(before.built.net, drawn);
        drawing_widens_labels(ast, inner, before.built.net);
        if k < v.len() {
            lemma_node(drawn, NodeLabel::Dummy);
            lemma_widened_same(drawn, chain.built.net);
            lemma_recalls(drawn, chain.built.net, later);
            lemma_grows_trans(drawn, chain.built.net, later);
            lemma_course_stays(chain.built.net, later);
            assert(chain.built.net.graph.nodes[drawn.next()] == Some(NodeLabel::Dummy));
        }
        lemma_recalls(before.built.net, drawn, later);
        lemma_grows_trans(before.built.net, drawn, later);
        lemma_chain_obeys(
            v,
            (k - 1) as nat,
            frame,
            net,
            c,
            later,
            lo,
            before.built.net.next(),
        );
        lemma_build_obeys(ast, inner, before.built.net, later, before.built.net.next(), hi);
        assert(parts(lo, before.built.net.next(), hi, before.source));
    }
}

} // verus!
