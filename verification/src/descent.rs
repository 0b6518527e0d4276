//! A way to the end from every node of a draft, for programs without jumps and switches.

use crate::additions::{lemma_build_adds, lemma_held_same, lemma_labelled_adds};
use crate::ast::{Ast, AstNode};
use crate::flow::{build, build_block, build_chain, build_node, Chain, Frame, Net};
use crate::growth::{
    lemma_bind, lemma_build, lemma_build_chain, lemma_build_node, lemma_edge, lemma_grows_numbers,
    lemma_labelled, lemma_node, lemma_open_block, lemma_open_do_while, lemma_open_else,
    lemma_open_for, lemma_open_if, lemma_open_while,
};
use crate::model::{lemma_lists, GraphView};
use crate::node::{EdgeType, NodeLabel};
use crate::plain::{lemma_held, plain, plain_chain};
use std::rc::Rc;
use vstd::prelude::*;

verus! {

/// How many heights the nodes of a tree need.
pub open spec fn depth(ast: &Ast) -> nat
    decreases ast, 0nat,
{
    match &ast.node {
        AstNode::Compound(v) => 2 + chain_depth(v@, v@.len()),
        AstNode::If { cond, body, otherwise } => 3 + depth(&**body) + match otherwise {
            Some(t) => depth(&**t),
            None => 0,
        },
        AstNode::While { cond, body } => 3 + depth(&**body),
        AstNode::DoWhile { cond, body } => 3 + depth(&**body),
        AstNode::For { init, cond, upd, body } => 4 + depth(&**body),
        _ => 1,
    }
}

/// How many heights the first `k` statements of a block need, with a joint after each.
pub open spec fn chain_depth(v: Seq<Rc<Ast>>, k: nat) -> nat
    decreases v, k,
{
    if k == 0 || k > v.len() {
        0
    } else {
        chain_depth(v, (k - 1) as nat) + depth(&*v[k - 1]) + 1
    }
}

impl GraphView {
    /// Whether the newest edge from node `i` leads to a lower node, and is the only one if control
    /// just passes through `i`.
    pub open spec fn slopes(self, height: spec_fn(int) -> nat, i: int) -> bool {
        &&& self.out[i].len() > 0
        &&& height(self.out[i][0].node) < height(i)
        &&& self.passes_through(i) ==> self.out[i].len() == 1
    }
}

/// Whether heights stay as they are below `next`.
pub open spec fn same_heights(
    old: spec_fn(int) -> nat,
    new: spec_fn(int) -> nat,
    next: int,
) -> bool {
    forall|i: int| 0 <= i < next ==> #[trigger] new(i) == old(i)
}

/// Whether the frame's source, which leads nowhere yet, is so high above the frame's targets that
/// there is room for a statement of this depth.
pub open spec fn has_slope(
    net: Net,
    frame: Frame,
    height: spec_fn(int) -> nat,
    low: nat,
    room: nat,
) -> bool {
    &&& height(frame.sink) <= low
    &&& height(frame.end) <= low
    &&& frame.break_target matches Some(t) ==> height(t) <= low
    &&& frame.continue_target matches Some(t) ==> height(t) <= low
    &&& low + room < height(frame.source)
    &&& net.graph.out[frame.source].len() == 0
    &&& !net.held(frame.source)
}

/// What a drawn statement leaves behind: the source and all new nodes lead downwards, but for
/// joints of labels.
pub open spec fn sloped(
    net: Net,
    after: Net,
    source: int,
    old: spec_fn(int) -> nat,
    height: spec_fn(int) -> nat,
) -> bool {
    &&& same_heights(old, height, net.next())
    &&& after.graph.slopes(height, source)
    &&& forall|i: int|
        net.next() <= i < after.next() && !after.held(i) ==> #[trigger] after.graph.slopes(
            height,
            i,
        )
}

/// As [`sloped`], but for the statement that runs from node `inner`, which is not drawn yet.
spec fn begun(
    net: Net,
    opened: Net,
    source: int,
    inner: int,
    old: spec_fn(int) -> nat,
    mid: spec_fn(int) -> nat,
) -> bool {
    &&& same_heights(old, mid, net.next())
    &&& !opened.held(source)
    &&& opened.graph.slopes(mid, source)
    &&& forall|i: int|
        net.next() <= i < opened.next() && !opened.held(i) && i != inner
            ==> #[trigger] opened.graph.slopes(mid, i)
}

/// A node whose edges stay as they are keeps leading downwards.
proof fn lemma_slopes_kept(
    net: Net,
    later: Net,
    old: spec_fn(int) -> nat,
    height: spec_fn(int) -> nat,
    i: int,
)
    requires
        net.ok(),
        0 <= i < net.next(),
        net.grows_to(later),
        later.graph.out[i] == net.graph.out[i],
        same_heights(old, height, net.next()),
        net.graph.slopes(old, i),
    ensures
        later.graph.slopes(height, i),
{
    reveal(Net::grows_to);
    reveal(GraphView::wf);
    let t = net.graph.out[i][0].node;
    assert(net.graph.live(t));
    assert(later.graph.nodes[i] == net.graph.nodes[i]);
    assert(height(t) == old(t));
    assert(height(i) == old(i));
}

/// A statement that is drawn inside of another one, from a joint that the outer one has made.
proof fn lemma_inner_slopes(
    net: Net,
    opened: Net,
    after: Net,
    source: int,
    inner: int,
    old: spec_fn(int) -> nat,
    mid: spec_fn(int) -> nat,
    height: spec_fn(int) -> nat,
)
    requires
        0 <= source < net.next() <= inner < opened.next(),
        opened.ok(),
        after.ok(),
        opened.scopes.len() == 1,
        opened.grows_to(after),
        opened.adds_to(after, inner),
        begun(net, opened, source, inner, old, mid),
        sloped(opened, after, inner, mid, height),
    ensures
        sloped(net, after, source, old, height),
{
    assert forall|i: int| 0 <= i < net.next() implies #[trigger] height(i) == old(i) by {
        assert(mid(i) == old(i));
    }
    lemma_slopes_kept(opened, after, mid, height, source);
    assert forall|i: int|
        net.next() <= i < after.next() && !after.held(i) implies #[trigger] after.graph.slopes(
        height,
        i,
    ) by {
        if i < opened.next() && i != inner {
            if opened.held(i) {
                lemma_held_stays(opened, after, i);
            }
            lemma_slopes_kept(opened, after, mid, height, i);
        }
    }
}

/// In nets with one scope, the joint of a label stays one.
proof fn lemma_held_stays(net: Net, later: Net, i: int)
    requires
        net.held(i),
        net.grows_to(later),
        net.scopes.len() == 1,
        later.scopes.len() >= 1,
    ensures
        later.held(i),
{
    reveal(Net::grows_to);
    let (s, name) = choose|s: int, name: Seq<char>|
        0 <= s < net.scopes.len() && #[trigger] net.scopes[s].contains_key(name)
            && net.scopes[s][name] == i;
    assert(net.scopes[0].contains_key(name));
    assert(later.scopes[0].contains_key(name));
}

/// The heights with another one for node `at`.
spec fn with_height(height: spec_fn(int) -> nat, at: int, value: nat) -> spec_fn(int) -> nat {
    |i: int|
        if i == at {
            value
        } else {
            height(i)
        }
}

/// The heights of a condition that two joints follow, when the first branch has depth `h` and the
/// second one `g`.
spec fn if_slopes(old: spec_fn(int) -> nat, c: int, low: nat, h: nat, g: nat) -> spec_fn(int) -> nat {
    with_height(with_height(with_height(old, c, low + g + 3), c + 1, low + h + 2), c + 2, low + 1)
}

/// The heights of the condition of a `while` and the two joints that follow.
spec fn while_slopes(old: spec_fn(int) -> nat, c: int, low: nat, h: nat) -> spec_fn(int) -> nat {
    with_height(with_height(with_height(old, c, low + 1), c + 1, low + h + 3), c + 2, low + 2)
}

/// The heights of two joints and the condition after them.
spec fn do_slopes(old: spec_fn(int) -> nat, c: int, low: nat, h: nat) -> spec_fn(int) -> nat {
    with_height(with_height(with_height(old, c, low + h + 3), c + 1, low + 2), c + 2, low + 1)
}

/// The heights of two joints, a condition and the two statements around it.
spec fn for_slopes(old: spec_fn(int) -> nat, c: int, low: nat, h: nat) -> spec_fn(int) -> nat {
    with_height(
        with_height(
            with_height(do_slopes(old, c, low, h + 1), c + 1, low + 3),
            c + 3,
            low + 2,
        ),
        c + 4,
        low + 2,
    )
}

proof fn lemma_while_slopes(
    n: Net,
    frame: Frame,
    cond: Seq<char>,
    old: spec_fn(int) -> nat,
    low: nat,
    h: nat,
)
    requires
        n.ok(),
        frame.within(n),
        has_slope(n, frame, old, low, h + 3),
    ensures
        begun(
            n,
            n.open_while(frame, cond),
            frame.source,
            n.next() + 1,
            old,
            while_slopes(old, n.next(), low, h),
        ),
        has_slope(
            n.open_while(frame, cond),
            frame.looping(n.next() + 1, n.next() + 2, n.next()),
            while_slopes(old, n.next(), low, h),
            low + 2,
            h,
        ),
{
    let opened = n.open_while(frame, cond);
    lemma_lists(n.graph);
    lemma_held(n);
    lemma_held_same(n, opened);
}

proof fn lemma_do_while_slopes(
    n: Net,
    frame: Frame,
    cond: Seq<char>,
    old: spec_fn(int) -> nat,
    low: nat,
    h: nat,
)
    requires
        n.ok(),
        frame.within(n),
        has_slope(n, frame, old, low, h + 3),
    ensures
        begun(
            n,
            n.open_do_while(frame, cond),
            frame.source,
            n.next(),
            old,
            do_slopes(old, n.next(), low, h),
        ),
        has_slope(
            n.open_do_while(frame, cond),
            frame.looping(n.next(), n.next() + 1, n.next() + 2),
            do_slopes(old, n.next(), low, h),
            low + 2,
            h,
        ),
{
    let opened = n.open_do_while(frame, cond);
    lemma_lists(n.graph);
    lemma_held(n);
    lemma_held_same(n, opened);
}

proof fn lemma_for_slopes(
    n: Net,
    frame: Frame,
    init: Seq<char>,
    cond: Seq<char>,
    upd: Seq<char>,
    old: spec_fn(int) -> nat,
    low: nat,
    h: nat,
)
    requires
        n.ok(),
        frame.within(n),
        has_slope(n, frame, old, low, h + 4),
    ensures
        begun(
            n,
            n.open_for(frame, init, cond, upd),
            frame.source,
            n.next(),
            old,
            for_slopes(old, n.next(), low, h),
        ),
        has_slope(
            n.open_for(frame, init, cond, upd),
            frame.looping(n.next(), n.next() + 1, n.next() + 4),
            for_slopes(old, n.next(), low, h),
            low + 3,
            h,
        ),
{
    let opened = n.open_for(frame, init, cond, upd);
    lemma_lists(n.graph);
    lemma_held(n);
    lemma_held_same(n, opened);
}

/// A statement that is one node.
proof fn lemma_step_slopes(
    n: Net,
    frame: Frame,
    text: Seq<char>,
    target: int,
    old: spec_fn(int) -> nat,
    low: nat,
) -> (height: spec_fn(int) -> nat)
    requires
        n.ok(),
        frame.within(n),
        has_slope(n, frame, old, low, 1),
        0 <= target < n.next(),
        old(target) <= low,
    ensures
        sloped(n, n.step(frame, text, target), frame.source, old, height),
{
    lemma_lists(n.graph);
    with_height(old, n.next(), low + 1)
}

proof fn lemma_chain_depth(v: Seq<Rc<Ast>>, k: nat, m: nat)
    requires
        k <= m <= v.len(),
    ensures
        chain_depth(v, k) <= chain_depth(v, m),
    decreases m,
{
    if k < m {
        lemma_chain_depth(v, k, (m - 1) as nat);
    }
}

proof fn lemma_if_slopes(
    n: Net,
    frame: Frame,
    cond: Seq<char>,
    old: spec_fn(int) -> nat,
    low: nat,
    h: nat,
    g: nat,
)
    requires
        n.ok(),
        frame.within(n),
        has_slope(n, frame, old, low, h + g + 3),
    ensures
        same_heights(old, if_slopes(old, n.next(), low, h, g), n.next()),
        n.open_if(frame, cond).graph.slopes(if_slopes(old, n.next(), low, h, g), frame.source),
        n.open_if(frame, cond).graph.slopes(if_slopes(old, n.next(), low, h, g), n.next() + 2),
        !n.open_if(frame, cond).graph.passes_through(n.next()),
        has_slope(
            n.open_if(frame, cond),
            frame.between(n.next() + 1, n.next() + 2),
            if_slopes(old, n.next(), low, h, g),
            low + 1,
            h,
        ),
{
    lemma_lists(n.graph);
    lemma_held(n);
    lemma_held_same(n, n.open_if(frame, cond));
}

/// In nets with one scope, the nodes that placing labels makes are joints of labels.
proof fn lemma_labelled_held(net: Net, names: Seq<Seq<char>>, k: nat, source: int)
    requires
        net.ok(),
        net.scopes.len() == 1,
        0 <= source < net.next(),
    ensures
        net.labelled(names, k, source).scopes.len() == 1,
        forall|i: int|
            net.next() <= i < net.labelled(names, k, source).next() ==> #[trigger] net.labelled(
                names,
                k,
                source,
            ).held(i),
    decreases k,
{
    if k > 0 {
        let before = net.labelled(names, (k - 1) as nat, source);
        let name = names[k - 1];
        let bound = before.bind(name);
        let after = net.labelled(names, k, source);
        lemma_labelled(net, names, (k - 1) as nat, source);
        lemma_labelled_held(net, names, (k - 1) as nat, source);
        lemma_grows_numbers(net, before);
        lemma_bind(before, name);
        lemma_held_same(bound, after);
        assert forall|i: int| net.next() <= i < after.next() implies #[trigger] after.held(i) by {
            if i < before.next() {
                assert(before.held(i));
                lemma_held_stays(before, bound, i);
            } else {
                assert(bound.scopes[0].contains_key(name));
            }
            assert(bound.held(i));
        }
    }
}

/// The heights of a tree's nodes, from which every node but the joints of labels leads downwards.
pub proof fn slope_build(
    ast: &Ast,
    frame: Frame,
    net: Net,
    old: spec_fn(int) -> nat,
    low: nat,
) -> (height: spec_fn(int) -> nat)
    requires
        plain(ast),
        net.ok(),
        frame.within(net),
        build(ast, frame, net).fault is None,
        net.scopes.len() == 1,
        has_slope(net, frame, old, low, depth(ast)),
    ensures
        sloped(net, build(ast, frame, net).net, frame.source, old, height),
    decreases ast, 1nat,
{
    let labels = ast.labels();
    let n = net.labelled(labels, labels.len(), frame.source);
    let after = build(ast, frame, net).net;
    assert(build(ast, frame, net) == build_node(ast, frame, n));
    lemma_labelled(net, labels, labels.len(), frame.source);
    lemma_labelled_adds(net, labels, labels.len(), frame.source);
    lemma_labelled_held(net, labels, labels.len(), frame.source);
    lemma_grows_numbers(net, n);
    assert(n.graph.out[frame.source] == net.graph.out[frame.source]);
    let height = slope_node(ast, frame, n, old, low);
    lemma_build_node(ast, frame, n);
    assert forall|i: int|
        net.next() <= i < after.next() && !after.held(i) implies #[trigger] after.graph.slopes(
        height,
        i,
    ) by {
        if i < n.next() {
            assert(n.held(i));
            lemma_held_stays(n, after, i);
        }
    }
    height
}

/// A statement whose inner statement is drawn last.
proof fn slope_body(
    body: &Ast,
    frame: Frame,
    inner: Frame,
    n: Net,
    opened: Net,
    old: spec_fn(int) -> nat,
    mid: spec_fn(int) -> nat,
    low: nat,
) -> (height: spec_fn(int) -> nat)
    requires
        plain(body),
        n.ok(),
        frame.within(n),
        opened.ok(),
        opened.scopes.len() == 1,
        inner.within(opened),
        n.next() <= inner.source,
        build(body, inner, opened).fault is None,
        begun(n, opened, frame.source, inner.source, old, mid),
        has_slope(opened, inner, mid, low, depth(body)),
    ensures
        sloped(n, build(body, inner, opened).net, frame.source, old, height),
    decreases body, 2nat,
{
    let height = slope_build(body, inner, opened, mid, low);
    let after = build(body, inner, opened).net;
    lemma_build(body, inner, opened);
    lemma_build_adds(body, inner, opened);
    lemma_inner_slopes(n, opened, after, frame.source, inner.source, old, mid, height);
    height
}

proof fn slope_node(
    ast: &Ast,
    frame: Frame,
    n: Net,
    old: spec_fn(int) -> nat,
    low: nat,
) -> (height: spec_fn(int) -> nat)
    requires
        plain(ast),
        n.ok(),
        frame.within(n),
        build_node(ast, frame, n).fault is None,
        n.scopes.len() == 1,
        has_slope(n, frame, old, low, depth(ast)),
    ensures
        sloped(n, build_node(ast, frame, n).net, frame.source, old, height),
    decreases ast, 0nat,
{
    let c = n.next();
    lemma_lists(n.graph);
    match &ast.node {
        AstNode::Compound(v) => slope_block(v@, frame, n, old, low),
        AstNode::Stat(s) => lemma_step_slopes(n, frame, s@, frame.sink, old, low),
        AstNode::Continue(s) => {
            lemma_step_slopes(n, frame, s@, frame.continue_target->0, old, low)
        },
        AstNode::Break(s) => lemma_step_slopes(n, frame, s@, frame.break_target->0, old, low),
        AstNode::Return(s) => lemma_step_slopes(n, frame, s@, frame.end, old, low),
        AstNode::If { cond, body, otherwise } => {
            let h = depth(&**body);
            let g = match otherwise {
                Some(t) => depth(&**t),
                None => 0,
            };
            let opened = n.open_if(frame, cond@);
            let inner = frame.between(c + 1, c + 2);
            let mid = if_slopes(old, c, low, h, g);
            let first = build(&**body, inner, opened).net;
            lemma_open_if(n, frame, cond@);
            lemma_if_slopes(n, frame, cond@, old, low, h, g);
            let one = slope_build(&**body, inner, opened, mid, low + 1);
            lemma_build(&**body, inner, opened);
            lemma_build_adds(&**body, inner, opened);
            lemma_first_slopes(n, frame, cond@, first, old, mid, one, low, g);
            match otherwise {
                Some(t) => {
                    let e = first.next();
                    let two = with_height(one, e, low + g + 2);
                    lemma_open_else(first, c);
                    slope_body(
                        &**t,
                        frame,
                        frame.between(e, c + 2),
                        n,
                        first.open_else(c),
                        old,
                        two,
                        low + 1,
                    )
                },
                None => one,
            }
        },
        AstNode::While { cond, body } => {
            let h = depth(&**body);
            lemma_open_while(n, frame, cond@);
            lemma_while_slopes(n, frame, cond@, old, low, h);
            slope_body(
                &**body,
                frame,
                frame.looping(c + 1, c + 2, c),
                n,
                n.open_while(frame, cond@),
                old,
                while_slopes(old, c, low, h),
                low + 2,
            )
        },
        AstNode::DoWhile { cond, body } => {
            let h = depth(&**body);
            lemma_open_do_while(n, frame, cond@);
            lemma_do_while_slopes(n, frame, cond@, old, low, h);
            slope_body(
                &**body,
                frame,
                frame.looping(c, c + 1, c + 2),
                n,
                n.open_do_while(frame, cond@),
                old,
                do_slopes(old, c, low, h),
                low + 2,
            )
        },
        AstNode::For { init, cond, upd, body } => {
            let h = depth(&**body);
            lemma_open_for(n, frame, init@, cond@, upd@);
            lemma_for_slopes(n, frame, init@, cond@, upd@, old, low, h);
            slope_body(
                &**body,
                frame,
                frame.looping(c, c + 1, c + 4),
                n,
                n.open_for(frame, init@, cond@, upd@),
                old,
                for_slopes(old, c, low, h),
                low + 3,
            )
        },
        _ => old,
    }
}

/// The second answer of a condition, after the statement that the first answer leads to.
proof fn lemma_first_slopes(
    n: Net,
    frame: Frame,
    cond: Seq<char>,
    first: Net,
    old: spec_fn(int) -> nat,
    mid: spec_fn(int) -> nat,
    one: spec_fn(int) -> nat,
    low: nat,
    g: nat,
)
    requires
        n.ok(),
        n.scopes.len() == 1,
        frame.within(n),
        old(frame.sink) <= low,
        old(frame.end) <= low,
        frame.break_target matches Some(t) ==> old(t) <= low,
        frame.continue_target matches Some(t) ==> old(t) <= low,
        !n.held(frame.source),
        same_heights(old, mid, n.next()),
        mid(n.next()) == low + g + 3,
        mid(n.next() + 2) == low + 1,
        n.open_if(frame, cond).graph.slopes(mid, frame.source),
        n.open_if(frame, cond).graph.slopes(mid, n.next() + 2),
        first.ok(),
        n.open_if(frame, cond).grows_to(first),
        n.open_if(frame, cond).adds_to(first, n.next() + 1),
        sloped(n.open_if(frame, cond), first, n.next() + 1, mid, one),
    ensures
        sloped(
            n,
            first.edge(n.next(), frame.sink, EdgeType::Branch(false)),
            frame.source,
            old,
            one,
        ),
        begun(
            n,
            first.open_else(n.next()),
            frame.source,
            first.next(),
            old,
            with_height(one, first.next(), low + g + 2),
        ),
        has_slope(
            first.open_else(n.next()),
            frame.between(first.next(), n.next() + 2),
            with_height(one, first.next(), low + g + 2),
            low + 1,
            g,
        ),
{
    let c = n.next();
    let opened = n.open_if(frame, cond);
    let with = first.open_else(c);
    let without = first.edge(c, frame.sink, EdgeType::Branch(false));
    let two = with_height(one, first.next(), low + g + 2);
    lemma_open_if(n, frame, cond);
    lemma_open_else(first, c);
    lemma_edge(first, c, frame.sink, EdgeType::Branch(false));
    lemma_lists(n.graph);
    lemma_lists(first.graph);
    lemma_grows_numbers(opened, first);
    lemma_held(n);
    lemma_held(first);
    lemma_held_same(n, opened);
    lemma_held_same(first, with);
    lemma_held_same(first, without);
    assert(!first.held(frame.source) && !first.held(c) && !first.held(c + 2));
    assert(first.graph.nodes[c] == opened.graph.nodes[c]) by {
        reveal(Net::grows_to);
    }
    assert forall|i: int| 0 <= i < c + 3 implies #[trigger] one(i) == mid(i) by {}
    lemma_slopes_kept(opened, first, mid, one, frame.source);
    lemma_slopes_kept(opened, first, mid, one, c + 2);
    lemma_slopes_kept(first, with, one, two, frame.source);
    lemma_slopes_kept(first, without, one, one, frame.source);
    assert forall|i: int|
        c < i < first.next() && !first.held(i) implies first.graph.slopes(one, i) by {}
    assert forall|i: int|
        c <= i < with.next() && !with.held(i) && i != first.next() implies #[trigger]
        with.graph.slopes(two, i) by {
        if i != c {
            assert(first.graph.slopes(one, i));
            lemma_slopes_kept(first, with, one, two, i);
        }
    }
    assert forall|i: int| c <= i < without.next() && !without.held(i) implies #[trigger]
        without.graph.slopes(one, i) by {
        if i != c {
            assert(first.graph.slopes(one, i));
            lemma_slopes_kept(first, without, one, one, i);
        }
    }
}

/// The heights of the two joints that a block starts with.
spec fn block_slopes(v: Seq<Rc<Ast>>, old: spec_fn(int) -> nat, c: int, low: nat) -> spec_fn(
    int,
) -> nat {
    let top = low + 2 + chain_depth(v, v.len());
    with_height(
        with_height(old, c, top),
        c + 1,
        if v.len() == 0 {
            low + 1
        } else {
            (top - chain_depth(v, 1)) as nat
        },
    )
}

/// What the first `k` statements of a block leave behind that starts at node `c`: the joint after
/// them, and the one before the next statement if there is one, do not lead anywhere yet.
spec fn chain_sloped(
    v: Seq<Rc<Ast>>,
    k: nat,
    net: Net,
    chain: Chain,
    c: int,
    low: nat,
    old: spec_fn(int) -> nat,
    height: spec_fn(int) -> nat,
) -> bool {
    let after = chain.built.net;
    let top = low + 2 + chain_depth(v, v.len());
    &&& same_heights(old, height, net.next())
    &&& after.scopes.len() == 1
    &&& net.next() <= after.next()
    &&& forall|i: int| 0 <= i < c && !net.held(i) ==> #[trigger] after.graph.out[i]
        == net.graph.out[i]
    &&& forall|i: int| 0 <= i < net.next() && #[trigger] after.held(i) ==> net.held(i)
    &&& c <= chain.source < after.next()
    &&& c <= chain.sink < after.next()
    &&& chain.source != chain.sink
    &&& after.graph.out[chain.sink].len() == 0
    &&& !after.held(chain.sink)
    &&& height(chain.sink) == top - chain_depth(
        v,
        if k < v.len() {
            k + 1
        } else {
            k
        },
    )
    &&& k < v.len() ==> {
        &&& after.graph.out[chain.source].len() == 0
        &&& !after.held(chain.source)
        &&& height(chain.source) == top - chain_depth(v, k)
    }
    &&& forall|i: int|
        c <= i < after.next() && !after.held(i) && i != chain.sink && !(k < v.len() && i
            == chain.source) ==> #[trigger] after.graph.slopes(height, i)
}

proof fn slope_chain(
    v: Seq<Rc<Ast>>,
    k: nat,
    frame: Frame,
    net: Net,
    c: int,
    old: spec_fn(int) -> nat,
    low: nat,
) -> (height: spec_fn(int) -> nat)
    requires
        net.ok(),
        net.scopes.len() == 1,
        frame.within(net),
        0 <= c,
        net.next() == c + 2,
        0 < v.len(),
        k <= v.len(),
        plain_chain(v, k),
        build_chain(v, k, frame, net, c).built.fault is None,
        net.graph.out[c].len() == 0,
        net.graph.out[c + 1].len() == 0,
        !net.held(c),
        !net.held(c + 1),
        old(c) == low + 2 + chain_depth(v, v.len()),
        old(c + 1) == low + 2 + chain_depth(v, v.len()) - chain_depth(v, 1),
        old(frame.end) <= low,
        frame.break_target matches Some(t) ==> old(t) <= low,
        frame.continue_target matches Some(t) ==> old(t) <= low,
    ensures
        chain_sloped(v, k, net, build_chain(v, k, frame, net, c), c, low, old, height),
    decreases v, k,
{
    lemma_lists(net.graph);
    if k == 0 {
        old
    } else {
        let top = low + 2 + chain_depth(v, v.len());
        let before = build_chain(v, (k - 1) as nat, frame, net, c);
        let mid = slope_chain(v, (k - 1) as nat, frame, net, c, old, low);
        let n1 = before.built.net;
        let inner = frame.between(before.source, before.sink);
        let ast = &*v[k - 1];
        let n2 = build(ast, inner, n1).net;
        lemma_build_chain(v, (k - 1) as nat, frame, net, c);
        lemma_chain_depth(v, k, v.len());
        lemma_build(ast, inner, n1);
        lemma_build_adds(ast, inner, n1);
        let after = slope_build(ast, inner, n1, mid, mid(before.sink));
        lemma_lists(n2.graph);
        assert forall|i: int|
            c <= i < n2.next() && !n2.held(i) && i != before.sink implies #[trigger]
            n2.graph.slopes(after, i) by {
            if i < n1.next() && i != before.source {
                if n1.held(i) {
                    lemma_held_stays(n1, n2, i);
                }
                assert(n1.graph.slopes(mid, i));
                lemma_slopes_kept(n1, n2, mid, after, i);
            }
        }
        assert forall|i: int| 0 <= i < c && !net.held(i) implies #[trigger] n2.graph.out[i]
            == net.graph.out[i] by {
            assert(n1.graph.out[i] == net.graph.out[i]);
            assert(!n1.held(i));
        }
        assert forall|i: int| 0 <= i < net.next() && #[trigger] n2.held(i) implies net.held(i) by {
            assert(n1.held(i));
        }
        assert forall|i: int| 0 <= i < net.next() implies #[trigger] after(i) == old(i) by {
            assert(mid(i) == old(i));
        }
        assert(n2.graph.out[before.sink] == n1.graph.out[before.sink]);
        assert(after(before.sink) == mid(before.sink));
        if k == v.len() {
            after
        } else {
            let n3 = n2.node(NodeLabel::Dummy);
            lemma_chain_depth(v, k + 1, v.len());
            let height = with_height(after, n2.next(), (top - chain_depth(v, k + 1)) as nat);
            lemma_node(n2, NodeLabel::Dummy);
            lemma_held(n2);
            lemma_held_same(n2, n3);
            assert forall|i: int|
                c <= i < n3.next() && !n3.held(i) && i != before.sink && i
                    != n2.next() implies #[trigger] n3.graph.slopes(height, i) by {
                assert(n2.graph.slopes(after, i));
                lemma_slopes_kept(n2, n3, after, height, i);
            }
            height
        }
    }
}

proof fn slope_block(
    v: Seq<Rc<Ast>>,
    frame: Frame,
    n: Net,
    old: spec_fn(int) -> nat,
    low: nat,
) -> (height: spec_fn(int) -> nat)
    requires
        plain_chain(v, v.len()),
        n.ok(),
        n.scopes.len() == 1,
        frame.within(n),
        build_block(v, frame, n).fault is None,
        has_slope(n, frame, old, low, 2 + chain_depth(v, v.len())),
    ensures
        sloped(n, build_block(v, frame, n).net, frame.source, old, height),
    decreases v, v.len() + 1,
{
    let c = n.next();
    let opened = n.open_block(frame);
    let after = build_block(v, frame, n).net;
    let mid = block_slopes(v, old, c, low);
    lemma_lists(n.graph);
    lemma_held(n);
    lemma_open_block(n, frame);
    lemma_held_same(n, opened);
    if v.len() == 0 {
        mid
    } else {
        lemma_chain_depth(v, 1, v.len());
        let chain = build_chain(v, v.len(), frame, opened, c);
        let net = chain.built.net;
        let height = slope_chain(v, v.len(), frame, opened, c, mid, low);
        lemma_build_chain(v, v.len(), frame, opened, c);
        lemma_lists(net.graph);
        lemma_edge(net, chain.sink, frame.sink, EdgeType::Normal);
        lemma_held_same(net, after);
        assert(opened.graph.slopes(mid, frame.source));
        lemma_slopes_kept(opened, net, mid, height, frame.source);
        lemma_slopes_kept(net, after, height, height, frame.source);
        assert forall|i: int| c <= i < after.next() && !after.held(i) implies #[trigger]
            after.graph.slopes(height, i) by {
            if i == chain.sink {
                assert(height(frame.sink) == mid(frame.sink));
            } else {
                assert(net.graph.slopes(height, i));
                lemma_slopes_kept(net, after, height, height, i);
            }
        }
        assert forall|i: int| 0 <= i < c implies #[trigger] height(i) == old(i) by {
            assert(mid(i) == old(i));
        }
        height
    }
}

} // verus!
