//! Blocks inside of blocks: they do not change a flowchart.

use crate::ast::{texts, Ast, AstNode};
use crate::flow::{
    blank, build, build_block, build_chain, build_node, build_switch, outermost, Frame, Net,
};
use crate::graph::flowchart;
use crate::growth::{
    lemma_blank, lemma_build, lemma_build_chain, lemma_grows_numbers, lemma_labelled,
    lemma_open_block, lemma_open_do_while, lemma_open_else, lemma_open_for, lemma_open_if,
    lemma_open_switch, lemma_open_while,
};
use crate::limits::{chain_fault, fault_of};
use crate::nesting::{lemma_same_chart, level_own, nest};
use crate::node::{EdgeType, NodeLabel};
use crate::structured::{
    chain_marks, marks, marks_inside, structured, structured_chain,
    structured_trees_have_flowcharts,
};
use crate::twins::{
    lemma_alike, lemma_frames_kept, lemma_names_leave, lemma_twin_block, lemma_twin_do_while,
    lemma_twin_edge, lemma_twin_else, lemma_twin_for, lemma_twin_if, lemma_twin_labelled,
    lemma_twin_node, lemma_twin_switch, lemma_twin_while, twin_frames, twin_node, twins, Twin,
};
use std::rc::Rc;
use vstd::prelude::*;

verus! {

/// Whether the statements `w` are the statements `v` with those of `q`, or none, put into the
/// block `inner` of their own, which bears no label.
pub open spec fn puts_into(
    v: Seq<Rc<Ast>>,
    w: Seq<Rc<Ast>>,
    p: Seq<Rc<Ast>>,
    q: Seq<Rc<Ast>>,
    r: Seq<Rc<Ast>>,
    inner: Rc<Ast>,
) -> bool {
    &&& v == p + (q + r)
    &&& w == p + (seq![inner] + r)
    &&& inner.labels().len() == 0
    &&& inner.node matches AstNode::Compound(u) && u@ == q
}

/// Whether the statements `w` are the statements `v` with some that follow each other, or none,
/// put into a block of their own.
pub open spec fn nests(v: Seq<Rc<Ast>>, w: Seq<Rc<Ast>>) -> bool {
    exists|p: Seq<Rc<Ast>>, q: Seq<Rc<Ast>>, r: Seq<Rc<Ast>>, inner: Rc<Ast>| #[trigger]
        puts_into(v, w, p, q, r, inner)
}

/// Whether two trees are the same, but for blocks in which some statements that follow each other,
/// or none, are put into a block of their own in `nested`. Where in the text they stand does not
/// matter.
pub open spec fn regrouped(flat: &Ast, nested: &Ast) -> bool
    decreases flat, 0nat,
{
    &&& flat.labels() == nested.labels()
    &&& match &flat.node {
        AstNode::Dummy => nested.node is Dummy,
        AstNode::Compound(v) => nested.node matches AstNode::Compound(w) && (nests(v@, w@) || (
        v@.len() == w@.len() && regrouped_chain(v@, w@, v@.len()))),
        AstNode::Stat(s) => nested.node matches AstNode::Stat(t) && s@ == t@,
        AstNode::Continue(s) => nested.node matches AstNode::Continue(t) && s@ == t@,
        AstNode::Break(s) => nested.node matches AstNode::Break(t) && s@ == t@,
        AstNode::Return(s) => nested.node matches AstNode::Return(t) && s@ == t@,
        AstNode::If { cond, body, otherwise } => {
            &&& nested.node matches AstNode::If { cond: c, body: t, otherwise: o }
            &&& cond@ == c@
            &&& regrouped(&**body, &*t)
            &&& match otherwise {
                Some(s) => o matches Some(u) && regrouped(&**s, &*u),
                None => o is None,
            }
        },
        AstNode::While { cond, body } => nested.node matches AstNode::While { cond: c, body: t }
            && cond@ == c@ && regrouped(&**body, &*t),
        AstNode::DoWhile { cond, body } => nested.node matches AstNode::DoWhile {
            cond: c,
            body: t,
        } && cond@ == c@ && regrouped(&**body, &*t),
        AstNode::For { init, cond, upd, body } => nested.node matches AstNode::For {
            init: i,
            cond: c,
            upd: u,
            body: t,
        } && init@ == i@ && cond@ == c@ && upd@ == u@ && regrouped(&**body, &*t),
        AstNode::Switch { cond, body, cases } => nested.node matches AstNode::Switch {
            cond: c,
            body: t,
            cases: k,
        } && cond@ == c@ && texts(cases@) == texts(k@) && regrouped(&**body, &*t),
        AstNode::Goto(s) => nested.node matches AstNode::Goto(t) && s@ == t@,
    }
}

/// Whether the first `k` statements of two blocks are so related.
pub open spec fn regrouped_chain(v: Seq<Rc<Ast>>, w: Seq<Rc<Ast>>, k: nat) -> bool
    decreases v, k,
{
    k == 0 || k > v.len() || (regrouped_chain(v, w, (k - 1) as nat) && regrouped(
        &*v[k - 1],
        &*w[k - 1],
    ))
}

/// Trees that are so related leave twins behind when they are drawn on twins.
proof fn regroup_build(
    flat: &Ast,
    nested: &Ast,
    f: Frame,
    g: Frame,
    a: Net,
    b: Net,
    twin: Twin,
) -> (later: Twin)
    requires
        regrouped(flat, nested),
        a.ok(),
        b.ok(),
        f.within(a),
        g.within(b),
        twins(a, b, twin),
        twin.idle == Set::<int>::empty(),
        twin_frames(f, g, twin),
        build(flat, f, a).fault is None,
        build(nested, g, b).fault is None,
    ensures
        twins(build(flat, f, a).net, build(nested, g, b).net, later),
        twin.kept_by(later),
    decreases flat, 1nat,
{
    let labels = flat.labels();
    let m = a.labelled(labels, labels.len(), f.source);
    let n = b.labelled(labels, labels.len(), g.source);
    lemma_alike(a, b, twin);
    lemma_labelled(a, labels, labels.len(), f.source);
    lemma_labelled(b, labels, labels.len(), g.source);
    lemma_grows_numbers(a, m);
    lemma_grows_numbers(b, n);
    let mid = lemma_twin_labelled(a, b, twin, labels, labels.len(), f.source, g.source);
    lemma_frames_kept(f, g, twin, mid);
    assert(build(flat, f, a) == build_node(flat, f, m));
    assert(build(nested, g, b) == build_node(nested, g, n));
    regroup_node(flat, nested, f, g, m, n, mid)
}

proof fn regroup_node(
    flat: &Ast,
    nested: &Ast,
    f: Frame,
    g: Frame,
    a: Net,
    b: Net,
    twin: Twin,
) -> (later: Twin)
    requires
        regrouped(flat, nested),
        a.ok(),
        b.ok(),
        f.within(a),
        g.within(b),
        twins(a, b, twin),
        twin.idle == Set::<int>::empty(),
        twin_frames(f, g, twin),
        build_node(flat, f, a).fault is None,
        build_node(nested, g, b).fault is None,
    ensures
        twins(build_node(flat, f, a).net, build_node(nested, g, b).net, later),
        twin.kept_by(later),
    decreases flat, 0nat,
{
    let c = a.next();
    let d = b.next();
    lemma_alike(a, b, twin);
    match &flat.node {
        AstNode::Compound(v) => regroup_block(v@, nested.node->Compound_0@, f, g, a, b, twin),
        AstNode::If { cond, body, otherwise } => {
            let body2 = nested.node->If_body;
            let mid = twin.pushed().pushed().pushed();
            let f1 = f.between(c + 1, c + 2);
            let g1 = g.between(d + 1, d + 2);
            let oa = a.open_if(f, cond@);
            let ob = b.open_if(g, cond@);
            lemma_open_if(a, f, cond@);
            lemma_open_if(b, g, cond@);
            lemma_twin_if(a, b, twin, f, g, cond@);
            assert(twin_frames(f1, g1, mid));
            let one = regroup_build(&**body, &*body2, f1, g1, oa, ob, mid);
            let fa = build(&**body, f1, oa).net;
            let fb = build(&*body2, g1, ob).net;
            lemma_build(&**body, f1, oa);
            lemma_build(&*body2, g1, ob);
            lemma_grows_numbers(oa, fa);
            lemma_grows_numbers(ob, fb);
            lemma_alike(fa, fb, one);
            lemma_frames_kept(f, g, twin, one);
            lemma_frames_kept(f1, g1, mid, one);
            assert(one.up[c] == mid.up[c]);
            match otherwise {
                Some(t) => {
                    let t2 = nested.node->otherwise->0;
                    let e = fa.next();
                    let k = fb.next();
                    lemma_open_else(fa, c);
                    lemma_open_else(fb, d);
                    lemma_twin_else(fa, fb, one, c, d);
                    let two = one.pushed();
                    let f2 = f.between(e, c + 2);
                    let g2 = g.between(k, d + 2);
                    assert(twin_frames(f2, g2, two));
                    regroup_build(&**t, &*t2, f2, g2, fa.open_else(c), fb.open_else(d), two)
                },
                None => {
                    lemma_twin_edge(fa, fb, one, c, f.sink, d, g.sink, EdgeType::Branch(false));
                    one
                },
            }
        },
        AstNode::While { cond, body } => {
            let body2 = nested.node->While_body;
            let mid = twin.pushed().pushed().pushed();
            let f1 = f.looping(c + 1, c + 2, c);
            let g1 = g.looping(d + 1, d + 2, d);
            let oa = a.open_while(f, cond@);
            let ob = b.open_while(g, cond@);
            lemma_open_while(a, f, cond@);
            lemma_open_while(b, g, cond@);
            lemma_twin_while(a, b, twin, f, g, cond@);
            assert(twin_frames(f1, g1, mid));
            regroup_build(&**body, &*body2, f1, g1, oa, ob, mid)
        },
        AstNode::DoWhile { cond, body } => {
            let body2 = nested.node->DoWhile_body;
            let mid = twin.pushed().pushed().pushed();
            let f1 = f.looping(c, c + 1, c + 2);
            let g1 = g.looping(d, d + 1, d + 2);
            let oa = a.open_do_while(f, cond@);
            let ob = b.open_do_while(g, cond@);
            lemma_open_do_while(a, f, cond@);
            lemma_open_do_while(b, g, cond@);
            lemma_twin_do_while(a, b, twin, f, g, cond@);
            assert(twin_frames(f1, g1, mid));
            regroup_build(&**body, &*body2, f1, g1, oa, ob, mid)
        },
        AstNode::For { init, cond, upd, body } => {
            let body2 = nested.node->For_body;
            let mid = twin.pushed().pushed().pushed().pushed().pushed();
            let f1 = f.looping(c, c + 1, c + 4);
            let g1 = g.looping(d, d + 1, d + 4);
            let oa = a.open_for(f, init@, cond@, upd@);
            let ob = b.open_for(g, init@, cond@, upd@);
            lemma_open_for(a, f, init@, cond@, upd@);
            lemma_open_for(b, g, init@, cond@, upd@);
            lemma_twin_for(a, b, twin, f, g, init@, cond@, upd@);
            assert(twin_frames(f1, g1, mid));
            regroup_build(&**body, &*body2, f1, g1, oa, ob, mid)
        },
        AstNode::Switch { cond, body, cases } => {
            let body2 = nested.node->Switch_body;
            let names = texts(cases@);
            let oa = a.open_switch(f, cond@, names);
            let ob = b.open_switch(g, cond@, names);
            let p = oa.next() - 2;
            let q = ob.next() - 2;
            let f1 = f.switching(p, p + 1);
            let g1 = g.switching(q, q + 1);
            assert(build_node(flat, f, a) == build_switch(cond@, *body, names, f, a));
            assert(build_node(nested, g, b) == build_switch(cond@, body2, names, g, b));
            lemma_open_switch(a, f, cond@, names);
            lemma_open_switch(b, g, cond@, names);
            let mid = lemma_twin_switch(a, b, twin, f, g, cond@, names);
            lemma_alike(oa, ob, mid);
            lemma_frames_kept(f, g, twin, mid);
            assert(mid.busy(mid.up[p + 1]));
            assert(twin_frames(f1, g1, mid));
            let later = regroup_build(&**body, &*body2, f1, g1, oa, ob, mid);
            let fa = build(&**body, f1, oa).net;
            let fb = build(&*body2, g1, ob).net;
            lemma_build(&**body, f1, oa);
            lemma_build(&*body2, g1, ob);
            lemma_names_leave(fa.scopes, fb.scopes, later);
            later
        },
        _ => {
            assert(build_node(nested, g, b) == build_node(flat, g, b));
            twin_node(flat, f, g, a, b, twin)
        },
    }
}

proof fn regroup_block(
    v: Seq<Rc<Ast>>,
    w: Seq<Rc<Ast>>,
    f: Frame,
    g: Frame,
    a: Net,
    b: Net,
    twin: Twin,
) -> (later: Twin)
    requires
        nests(v, w) || (v.len() == w.len() && regrouped_chain(v, w, v.len())),
        a.ok(),
        b.ok(),
        f.within(a),
        g.within(b),
        twins(a, b, twin),
        twin.idle == Set::<int>::empty(),
        twin_frames(f, g, twin),
        build_block(v, f, a).fault is None,
        build_block(w, g, b).fault is None,
    ensures
        twins(build_block(v, f, a).net, build_block(w, g, b).net, later),
        twin.kept_by(later),
    decreases v, v.len() + 1,
{
    lemma_alike(a, b, twin);
    if nests(v, w) {
        let (p, q, r, inner) = choose|
            p: Seq<Rc<Ast>>,
            q: Seq<Rc<Ast>>,
            r: Seq<Rc<Ast>>,
            inner: Rc<Ast>,
        | #[trigger]
            puts_into(v, w, p, q, r, inner);
        let later = nest(inner, p, q, r, f, g, a, b, twin);
        lemma_alike(build_block(v, f, a).net, build_block(w, g, b).net, later);
        lemma_block_grows(v, f, a);
        lemma_block_grows(w, g, b);
        later
    } else {
        let c = a.next();
        let d = b.next();
        let oa = a.open_block(f);
        let ob = b.open_block(g);
        let mid = twin.pushed().pushed();
        lemma_open_block(a, f);
        lemma_open_block(b, g);
        lemma_twin_block(a, b, twin, f, g);
        assert(mid.idle =~= Set::<int>::empty());
        if v.len() == 0 {
            lemma_twin_edge(oa, ob, mid, c, c + 1, d, d + 1, EdgeType::Normal);
            let oa1 = oa.normal(c, c + 1);
            let ob1 = ob.normal(d, d + 1);
            lemma_twin_edge(oa1, ob1, mid, c + 1, f.sink, d + 1, g.sink, EdgeType::Normal);
            mid
        } else {
            lemma_frames_kept(f, g, twin, mid);
            let later = regroup_chain(v, w, v.len(), f, g, oa, ob, c, d, mid);
            let ca = build_chain(v, v.len(), f, oa, c);
            let cb = build_chain(w, w.len(), g, ob, d);
            lemma_frames_kept(f, g, mid, later);
            lemma_build_chain(v, v.len(), f, oa, c);
            lemma_alike(ca.built.net, cb.built.net, later);
            lemma_twin_edge(
                ca.built.net,
                cb.built.net,
                later,
                ca.sink,
                f.sink,
                cb.sink,
                g.sink,
                EdgeType::Normal,
            );
            later
        }
    }
}

proof fn lemma_block_grows(v: Seq<Rc<Ast>>, frame: Frame, net: Net)
    requires
        net.ok(),
        frame.within(net),
    ensures
        net.next() <= build_block(v, frame, net).net.next(),
{
    let opened = net.open_block(frame);
    lemma_open_block(net, frame);
    lemma_build_chain(v, v.len(), frame, opened, net.next());
    lemma_grows_numbers(net, opened);
    lemma_grows_numbers(opened, build_chain(v, v.len(), frame, opened, net.next()).built.net);
}

proof fn regroup_chain(
    v: Seq<Rc<Ast>>,
    w: Seq<Rc<Ast>>,
    k: nat,
    f: Frame,
    g: Frame,
    a: Net,
    b: Net,
    c: int,
    d: int,
    twin: Twin,
) -> (later: Twin)
    requires
        v.len() == w.len(),
        regrouped_chain(v, w, k),
        a.ok(),
        b.ok(),
        f.within(a),
        g.within(b),
        twins(a, b, twin),
        twin.idle == Set::<int>::empty(),
        twin_frames(f, g, twin),
        0 <= c,
        c + 1 < a.next(),
        0 <= d,
        d + 1 < b.next(),
        twin.up[c] == d,
        twin.up[c + 1] == d + 1,
        build_chain(v, k, f, a, c).built.fault is None,
        build_chain(w, k, g, b, d).built.fault is None,
    ensures
        twins(build_chain(v, k, f, a, c).built.net, build_chain(w, k, g, b, d).built.net, later),
        twin.kept_by(later),
        later.up[build_chain(v, k, f, a, c).source] == build_chain(w, k, g, b, d).source,
        later.up[build_chain(v, k, f, a, c).sink] == build_chain(w, k, g, b, d).sink,
    decreases v, k,
{
    lemma_alike(a, b, twin);
    if k == 0 || k > v.len() {
        twin
    } else {
        let before = regroup_chain(v, w, (k - 1) as nat, f, g, a, b, c, d, twin);
        let ca = build_chain(v, (k - 1) as nat, f, a, c);
        let cb = build_chain(w, (k - 1) as nat, g, b, d);
        let f1 = f.between(ca.source, ca.sink);
        let g1 = g.between(cb.source, cb.sink);
        lemma_build_chain(v, (k - 1) as nat, f, a, c);
        lemma_build_chain(w, (k - 1) as nat, g, b, d);
        lemma_alike(ca.built.net, cb.built.net, before);
        lemma_grows_numbers(a, ca.built.net);
        lemma_grows_numbers(b, cb.built.net);
        lemma_frames_kept(f, g, twin, before);
        assert(before.busy(before.up[ca.sink]));
        assert(twin_frames(f1, g1, before));
        let later = regroup_build(
            &*v[k - 1],
            &*w[k - 1],
            f1,
            g1,
            ca.built.net,
            cb.built.net,
            before,
        );
        let na = build(&*v[k - 1], f1, ca.built.net).net;
        let nb = build(&*w[k - 1], g1, cb.built.net).net;
        assert(later.up[ca.sink] == before.up[ca.sink]);
        assert(later.up[ca.source] == before.up[ca.source]);
        if k == v.len() {
            later
        } else {
            lemma_alike(na, nb, later);
            lemma_twin_node(na, nb, later, NodeLabel::Dummy);
            later.pushed()
        }
    }
}

/// A block in a block does not change the flowchart but for the numbers of its nodes: a tree has
/// the same flowchart as the tree in which, in any of its blocks, some statements that follow each
/// other are put into a block of their own, or an empty block is put in; where both have one.
pub proof fn nesting_keeps_flowcharts(flat: &Ast, nested: &Ast)
    requires
        regrouped(flat, nested),
        flowchart(flat) is Ok,
        flowchart(nested) is Ok,
    ensures
        exists|up: Seq<int>| #[trigger]
            flowchart(flat)->Ok_0.renumbered(flowchart(nested)->Ok_0, up),
{
    let own = level_own();
    lemma_blank();
    let twin = regroup_build(flat, nested, outermost(), outermost(), blank(), blank(), own);
    lemma_same_chart(flat, nested, twin);
}

proof fn lemma_marks_concat(p: Seq<Rc<Ast>>, w: Seq<Rc<Ast>>, k: nat, name: Seq<char>)
    requires
        k <= w.len(),
    ensures
        chain_marks(p + w, p.len() + k, name) == chain_marks(p, p.len(), name) + chain_marks(
            w,
            k,
            name,
        ),
    decreases k,
{
    if k == 0 {
        lemma_marks_prefix(p, w, p.len(), name);
    } else {
        lemma_marks_concat(p, w, (k - 1) as nat, name);
        assert((p + w)[p.len() + k - 1] == w[k - 1]);
    }
}

proof fn lemma_marks_prefix(p: Seq<Rc<Ast>>, w: Seq<Rc<Ast>>, k: nat, name: Seq<char>)
    requires
        k <= p.len(),
    ensures
        chain_marks(p + w, k, name) == chain_marks(p, k, name),
    decreases k,
{
    if k > 0 {
        lemma_marks_prefix(p, w, (k - 1) as nat, name);
        assert((p + w)[k - 1] == p[k - 1]);
    }
}

/// As many statements bear a label.
proof fn lemma_same_marks(flat: &Ast, nested: &Ast, name: Seq<char>)
    requires
        regrouped(flat, nested),
    ensures
        marks(flat, name) == marks(nested, name),
    decreases flat, 0nat,
{
    assert(marks_inside(flat, name) == marks_inside(nested, name)) by {
        match &flat.node {
            AstNode::Compound(v) => {
                let w = nested.node->Compound_0;
                if nests(v@, w@) {
                    let (p, q, r, inner) = choose|
                        p: Seq<Rc<Ast>>,
                        q: Seq<Rc<Ast>>,
                        r: Seq<Rc<Ast>>,
                        inner: Rc<Ast>,
                    | #[trigger]
                        puts_into(v@, w@, p, q, r, inner);
                    let head = seq![inner];
                    lemma_marks_concat(p, q + r, (q + r).len(), name);
                    lemma_marks_concat(q, r, r.len(), name);
                    lemma_marks_concat(p, head + r, (head + r).len(), name);
                    lemma_marks_concat(head, r, r.len(), name);
                    assert(chain_marks(head, 0, name) == 0);
                    assert(chain_marks(head, 1, name) == marks(&*inner, name));
                    assert(marks(&*inner, name) == marks_inside(&*inner, name));
                } else {
                    lemma_same_chain_marks(v@, w@, v@.len(), name);
                }
            },
            AstNode::If { cond, body, otherwise } => {
                lemma_same_marks(&**body, &*nested.node->If_body, name);
                if let Some(t) = otherwise {
                    lemma_same_marks(&**t, &*nested.node->otherwise->0, name);
                }
            },
            AstNode::While { cond, body } => {
                lemma_same_marks(&**body, &*nested.node->While_body, name);
            },
            AstNode::DoWhile { cond, body } => {
                lemma_same_marks(&**body, &*nested.node->DoWhile_body, name);
            },
            AstNode::For { init, cond, upd, body } => {
                lemma_same_marks(&**body, &*nested.node->For_body, name);
            },
            AstNode::Switch { cond, body, cases } => {
                lemma_same_marks(&**body, &*nested.node->Switch_body, name);
            },
            _ => {},
        }
    }
}

proof fn lemma_same_chain_marks(v: Seq<Rc<Ast>>, w: Seq<Rc<Ast>>, k: nat, name: Seq<char>)
    requires
        v.len() == w.len(),
        regrouped_chain(v, w, k),
    ensures
        chain_marks(v, k, name) == chain_marks(w, k, name),
    decreases v, k,
{
    if k > 0 && k <= v.len() {
        lemma_same_chain_marks(v, w, (k - 1) as nat, name);
        lemma_same_marks(&*v[k - 1], &*w[k - 1], name);
    }
}

proof fn lemma_structured_items(v: Seq<Rc<Ast>>, k: nat)
    requires
        k <= v.len(),
    ensures
        structured_chain(v, k) <==> forall|i: int| 0 <= i < k ==> structured(&*#[trigger] v[i]),
    decreases k,
{
    if k > 0 {
        lemma_structured_items(v, (k - 1) as nat);
    }
}

proof fn lemma_fault_items(v: Seq<Rc<Ast>>, k: nat, can_break: bool, can_continue: bool)
    requires
        k <= v.len(),
    ensures
        chain_fault(v, k, can_break, can_continue) is None <==> forall|i: int|
            0 <= i < k ==> fault_of(&*#[trigger] v[i], can_break, can_continue) is None,
    decreases k,
{
    if k > 0 {
        lemma_fault_items(v, (k - 1) as nat, can_break, can_continue);
    }
}

/// What holds of all statements of a block, but for the inner one, holds of them in both.
proof fn lemma_same_items(
    v: Seq<Rc<Ast>>,
    w: Seq<Rc<Ast>>,
    p: Seq<Rc<Ast>>,
    q: Seq<Rc<Ast>>,
    r: Seq<Rc<Ast>>,
    inner: Rc<Ast>,
    good: spec_fn(Rc<Ast>) -> bool,
)
    requires
        puts_into(v, w, p, q, r, inner),
        good(inner) <==> forall|i: int| 0 <= i < q.len() ==> good(#[trigger] q[i]),
    ensures
        (forall|i: int| 0 <= i < v.len() ==> good(#[trigger] v[i])) <==> (forall|i: int|
            0 <= i < w.len() ==> good(#[trigger] w[i])),
{
    assert forall|i: int| 0 <= i < v.len() && !good(#[trigger] v[i]) implies exists|j: int|
        0 <= j < w.len() && !good(#[trigger] w[j]) by {
        if i < p.len() {
            assert(w[i] == v[i]);
        } else if i < p.len() + q.len() {
            assert(v[i] == q[i - p.len()]);
            assert(w[p.len() as int] == inner);
        } else {
            assert(w[i - q.len() + 1] == v[i]);
        }
    }
    assert forall|j: int| 0 <= j < w.len() && !good(#[trigger] w[j]) implies exists|i: int|
        0 <= i < v.len() && !good(#[trigger] v[i]) by {
        if j < p.len() {
            assert(w[j] == v[j]);
        } else if j == p.len() {
            assert(w[j] == inner);
            let k = choose|k: int| 0 <= k < q.len() && !good(#[trigger] q[k]);
            assert(v[p.len() + k] == q[k]);
        } else {
            assert(w[j] == v[j - 1 + q.len()]);
        }
    }
}

/// Both are structured or neither is.
proof fn lemma_same_structure(flat: &Ast, nested: &Ast)
    requires
        regrouped(flat, nested),
    ensures
        structured(flat) == structured(nested),
    decreases flat, 0nat,
{
    match &flat.node {
        AstNode::Compound(v) => {
            let w = nested.node->Compound_0;
            if nests(v@, w@) {
                let (p, q, r, inner) = choose|
                    p: Seq<Rc<Ast>>,
                    q: Seq<Rc<Ast>>,
                    r: Seq<Rc<Ast>>,
                    inner: Rc<Ast>,
                | #[trigger]
                    puts_into(v@, w@, p, q, r, inner);
                let good = |a: Rc<Ast>| structured(&*a);
                lemma_structured_items(v@, v@.len());
                lemma_structured_items(w@, w@.len());
                lemma_structured_items(q, q.len());
                assert(structured(&*inner) == structured_chain(q, q.len()));
                lemma_same_items(v@, w@, p, q, r, inner, good);
            } else {
                lemma_same_chain_structure(v@, w@, v@.len());
            }
        },
        AstNode::If { cond, body, otherwise } => {
            lemma_same_structure(&**body, &*nested.node->If_body);
            if let Some(t) = otherwise {
                lemma_same_structure(&**t, &*nested.node->otherwise->0);
            }
        },
        AstNode::While { cond, body } => {
            lemma_same_structure(&**body, &*nested.node->While_body);
        },
        AstNode::DoWhile { cond, body } => {
            lemma_same_structure(&**body, &*nested.node->DoWhile_body);
        },
        AstNode::For { init, cond, upd, body } => {
            lemma_same_structure(&**body, &*nested.node->For_body);
        },
        AstNode::Switch { cond, body, cases } => {
            let body2 = nested.node->Switch_body;
            let names = texts(cases@);
            lemma_same_structure(&**body, &*body2);
            assert forall|j: int| 0 <= j < names.len() implies marks(&**body, #[trigger] names[j])
                == marks(&*body2, names[j]) by {
                lemma_same_marks(&**body, &*body2, names[j]);
            }
        },
        _ => {},
    }
}

proof fn lemma_same_chain_structure(v: Seq<Rc<Ast>>, w: Seq<Rc<Ast>>, k: nat)
    requires
        v.len() == w.len(),
        regrouped_chain(v, w, k),
    ensures
        structured_chain(v, k) == structured_chain(w, k),
    decreases v, k,
{
    if k > 0 && k <= v.len() {
        lemma_same_chain_structure(v, w, (k - 1) as nat);
        lemma_same_structure(&*v[k - 1], &*w[k - 1]);
    }
}

/// Both have a fault or neither has.
proof fn lemma_same_faults(flat: &Ast, nested: &Ast, can_break: bool, can_continue: bool)
    requires
        regrouped(flat, nested),
    ensures
        fault_of(flat, can_break, can_continue) is None <==> fault_of(
            nested,
            can_break,
            can_continue,
        ) is None,
    decreases flat, 0nat,
{
    match &flat.node {
        AstNode::Compound(v) => {
            let w = nested.node->Compound_0;
            if nests(v@, w@) {
                let (p, q, r, inner) = choose|
                    p: Seq<Rc<Ast>>,
                    q: Seq<Rc<Ast>>,
                    r: Seq<Rc<Ast>>,
                    inner: Rc<Ast>,
                | #[trigger]
                    puts_into(v@, w@, p, q, r, inner);
                let good = |a: Rc<Ast>| fault_of(&*a, can_break, can_continue) is None;
                lemma_fault_items(v@, v@.len(), can_break, can_continue);
                lemma_fault_items(w@, w@.len(), can_break, can_continue);
                lemma_fault_items(q, q.len(), can_break, can_continue);
                assert(fault_of(&*inner, can_break, can_continue) == chain_fault(
                    q,
                    q.len(),
                    can_break,
                    can_continue,
                ));
                lemma_same_items(v@, w@, p, q, r, inner, good);
            } else {
                lemma_same_chain_faults(v@, w@, v@.len(), can_break, can_continue);
            }
        },
        AstNode::If { cond, body, otherwise } => {
            lemma_same_faults(&**body, &*nested.node->If_body, can_break, can_continue);
            if let Some(t) = otherwise {
                lemma_same_faults(&**t, &*nested.node->otherwise->0, can_break, can_continue);
            }
        },
        AstNode::While { cond, body } => {
            lemma_same_faults(&**body, &*nested.node->While_body, true, true);
        },
        AstNode::DoWhile { cond, body } => {
            lemma_same_faults(&**body, &*nested.node->DoWhile_body, true, true);
        },
        AstNode::For { init, cond, upd, body } => {
            lemma_same_faults(&**body, &*nested.node->For_body, true, true);
        },
        AstNode::Switch { cond, body, cases } => {
            lemma_same_faults(&**body, &*nested.node->Switch_body, true, false);
        },
        _ => {},
    }
}

proof fn lemma_same_chain_faults(
    v: Seq<Rc<Ast>>,
    w: Seq<Rc<Ast>>,
    k: nat,
    can_break: bool,
    can_continue: bool,
)
    requires
        v.len() == w.len(),
        regrouped_chain(v, w, k),
    ensures
        chain_fault(v, k, can_break, can_continue) is None <==> chain_fault(
            w,
            k,
            can_break,
            can_continue,
        ) is None,
    decreases v, k,
{
    if k > 0 && k <= v.len() {
        lemma_same_chain_faults(v, w, (k - 1) as nat, can_break, can_continue);
        lemma_same_faults(&*v[k - 1], &*w[k - 1], can_break, can_continue);
    }
}

/// Without `goto`, and with switches whose cases differ and mark one statement each, the nested
/// tree has a flowchart exactly if the flat one has: the same one, up to the numbers of the nodes.
pub proof fn nesting_keeps_structured_flowcharts(flat: &Ast, nested: &Ast)
    requires
        regrouped(flat, nested),
        structured(flat),
    ensures
        flowchart(nested) is Ok <==> flowchart(flat) is Ok,
        flowchart(flat) is Ok ==> exists|up: Seq<int>| #[trigger]
            flowchart(flat)->Ok_0.renumbered(flowchart(nested)->Ok_0, up),
{
    lemma_same_structure(flat, nested);
    lemma_same_faults(flat, nested, false, false);
    structured_trees_have_flowcharts(flat);
    structured_trees_have_flowcharts(nested);
    if flowchart(flat) is Ok {
        nesting_keeps_flowcharts(flat, nested);
    }
}

} // verus!
