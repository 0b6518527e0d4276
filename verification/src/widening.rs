//! How the labels in scope change while a statement is drawn: only new ones come in, in the
//! outermost scope, and each gets a new joint.

use crate::ast::{texts, Ast, AstNode};
use crate::flow::{build, build_block, build_chain, build_node, build_switch, lookup, Frame, Net};
use crate::growth::{
    lemma_bind, lemma_build, lemma_build_chain, lemma_grows_numbers, lemma_labelled, lemma_lookup,
    lemma_lookup_none, lemma_open_block, lemma_open_do_while, lemma_open_else, lemma_open_for,
    lemma_open_if, lemma_open_switch, lemma_open_while,
};
use crate::node::NodeLabel;
use std::rc::Rc;
use vstd::prelude::*;

verus! {

impl Net {
    /// Whether node `i` is the joint of a label in the outermost scope.
    pub open spec fn outer(self, i: int) -> bool {
        exists|name: Seq<char>| #[trigger]
            self.scopes[0].contains_key(name) && self.scopes[0][name] == i
    }

    /// Whether `later` has the same labels, but for new ones in the outermost scope, which stand
    /// for new nodes of their own.
    #[verifier::opaque]
    pub open spec fn widened(self, later: Net) -> bool {
        &&& self.next() <= later.next()
        &&& 1 <= self.scopes.len() == later.scopes.len()
        &&& forall|s: int|
            1 <= s < self.scopes.len() ==> #[trigger] later.scopes[s] == self.scopes[s]
        &&& forall|name: Seq<char>| #[trigger]
            self.scopes[0].contains_key(name) ==> later.scopes[0].contains_key(name)
                && later.scopes[0][name] == self.scopes[0][name]
        &&& forall|name: Seq<char>| #[trigger]
            later.scopes[0].contains_key(name) && !self.scopes[0].contains_key(name) ==> {
                &&& self.next() <= later.scopes[0][name] < later.next()
                &&& lookup(self.scopes, name) is None
            }
        &&& forall|one: Seq<char>, other: Seq<char>| #[trigger]
            later.scopes[0].contains_key(one) && #[trigger] later.scopes[0].contains_key(other)
                && !self.scopes[0].contains_key(one) && one != other ==> later.scopes[0][one]
                != later.scopes[0][other]
    }
}

/// Whether different labels stand for different nodes.
pub open spec fn injective(scopes: Seq<Map<Seq<char>, int>>) -> bool {
    forall|a: Seq<char>, b: Seq<char>|
        (#[trigger] lookup(scopes, a)) is Some && lookup(scopes, a) == #[trigger] lookup(scopes, b)
            ==> a == b
}

pub proof fn lemma_widened_same(net: Net, later: Net)
    requires
        later.scopes == net.scopes,
        net.scopes.len() >= 1,
        net.next() <= later.next(),
    ensures
        net.widened(later),
{
    reveal(Net::widened);
}

/// A label that is found outside of the outermost scope is found there in any case.
proof fn lemma_lookup_inner(
    a: Seq<Map<Seq<char>, int>>,
    b: Seq<Map<Seq<char>, int>>,
    name: Seq<char>,
)
    requires
        1 <= a.len() == b.len(),
        forall|s: int| 1 <= s < a.len() ==> #[trigger] b[s] == a[s],
    ensures
        lookup(a, name) == lookup(b, name) || (lookup(a, name) == lookup(a.take(1), name) && lookup(
            b,
            name,
        ) == lookup(b.take(1), name)),
    decreases a.len(),
{
    if a.len() == 1 {
        assert(a.take(1) =~= a);
        assert(b.take(1) =~= b);
    } else {
        let s = a.len() - 1;
        assert(b[s] == a[s]);
        if !a[s].contains_key(name) {
            assert forall|t: int| 1 <= t < a.drop_last().len() implies #[trigger] b.drop_last()[t]
                == a.drop_last()[t] by {
                assert(b[t] == a[t]);
            }
            lemma_lookup_inner(a.drop_last(), b.drop_last(), name);
            assert(a.drop_last().take(1) =~= a.take(1));
            assert(b.drop_last().take(1) =~= b.take(1));
        }
    }
}

proof fn lemma_lookup_first(scopes: Seq<Map<Seq<char>, int>>, name: Seq<char>)
    requires
        scopes.len() >= 1,
    ensures
        lookup(scopes.take(1), name) == if scopes[0].contains_key(name) {
            Some(scopes[0][name])
        } else {
            None::<int>
        },
{
    let first = scopes.take(1);
    assert(first.last() == scopes[0]);
    assert(first.drop_last() =~= Seq::empty());
    assert(lookup(first.drop_last(), name) is None);
}

/// A label keeps what it stands for; a new one stands for a new node.
pub proof fn lemma_widened_lookup(net: Net, later: Net, name: Seq<char>)
    requires
        net.widened(later),
    ensures
        lookup(net.scopes, name) is Some ==> lookup(later.scopes, name) == lookup(net.scopes, name),
        lookup(net.scopes, name) is None ==> (lookup(later.scopes, name) matches Some(v)
            ==> net.next() <= v < later.next() && later.outer(v)
            && later.scopes[0].contains_key(name) && later.scopes[0][name] == v),
{
    reveal(Net::widened);
    lemma_lookup_inner(net.scopes, later.scopes, name);
    lemma_lookup_first(net.scopes, name);
    lemma_lookup_first(later.scopes, name);
}

/// Different labels keep standing for different nodes.
pub proof fn lemma_widened_injective(net: Net, later: Net)
    requires
        net.widened(later),
        net.scoped(),
        injective(net.scopes),
    ensures
        injective(later.scopes),
{
    assert forall|a: Seq<char>, b: Seq<char>|
        (#[trigger] lookup(later.scopes, a)) is Some && lookup(later.scopes, a)
            == #[trigger] lookup(later.scopes, b) implies a == b by {
        lemma_widened_lookup(net, later, a);
        lemma_widened_lookup(net, later, b);
        lemma_lookup(net, a);
        lemma_lookup(net, b);
        if lookup(net.scopes, a) is None {
            reveal(Net::widened);
            lemma_lookup_none_first(net.scopes, a);
            assert(later.scopes[0].contains_key(a) && later.scopes[0].contains_key(b));
        }
    }
}

proof fn lemma_lookup_none_first(scopes: Seq<Map<Seq<char>, int>>, name: Seq<char>)
    requires
        scopes.len() >= 1,
        lookup(scopes, name) is None,
    ensures
        !scopes[0].contains_key(name),
{
    lemma_lookup_none(scopes, name);
    assert(!scopes[0].contains_key(name));
}

pub proof fn lemma_widened_then(a: Net, b: Net, c: Net)
    requires
        a.widened(b),
        b.widened(c),
    ensures
        a.widened(c),
{
    assert forall|name: Seq<char>| #[trigger]
        c.scopes[0].contains_key(name) && !a.scopes[0].contains_key(name) implies a.next()
        <= c.scopes[0][name] < c.next() && lookup(a.scopes, name) is None by {
        lemma_widened_lookup(a, b, name);
        reveal(Net::widened);
    }
    reveal(Net::widened);
    assert forall|s: int| 1 <= s < a.scopes.len() implies #[trigger] c.scopes[s] == a.scopes[s] by {
        assert(b.scopes[s] == a.scopes[s]);
    }
    assert forall|one: Seq<char>, other: Seq<char>| #[trigger]
        c.scopes[0].contains_key(one) && #[trigger] c.scopes[0].contains_key(other)
            && !a.scopes[0].contains_key(one) && one != other implies c.scopes[0][one]
        != c.scopes[0][other] by {
        if b.scopes[0].contains_key(one) {
            if b.scopes[0].contains_key(other) {
                assert(b.scopes[0][one] != b.scopes[0][other]);
            } else {
                assert(c.scopes[0][other] != c.scopes[0][one]);
            }
        }
    }
}

/// The joint of an outermost label stays one.
pub proof fn lemma_outer_stays(net: Net, later: Net, i: int)
    requires
        net.widened(later),
        net.outer(i),
    ensures
        later.outer(i),
{
    reveal(Net::widened);
    let name = choose|name: Seq<char>| #[trigger]
        net.scopes[0].contains_key(name) && net.scopes[0][name] == i;
    assert(later.scopes[0].contains_key(name));
}

/// No old node becomes the joint of an outermost label.
pub proof fn lemma_outer_old(net: Net, later: Net, i: int)
    requires
        net.widened(later),
        0 <= i < net.next(),
        later.outer(i),
    ensures
        net.outer(i),
{
    reveal(Net::widened);
    let name = choose|name: Seq<char>| #[trigger]
        later.scopes[0].contains_key(name) && later.scopes[0][name] == i;
    assert(net.scopes[0].contains_key(name));
}

pub proof fn lemma_bind_widens(net: Net, name: Seq<char>)
    requires
        net.ok(),
    ensures
        net.widened(net.bind(name)),
{
    let after = net.bind(name);
    lemma_bind(net, name);
    if lookup(net.scopes, name) is Some {
        lemma_widened_same(net, after);
    } else {
        reveal(Net::widened);
        reveal(Net::scoped);
        lemma_lookup_none_first(net.scopes, name);
        assert forall|one: Seq<char>, other: Seq<char>| #[trigger]
            after.scopes[0].contains_key(one) && #[trigger] after.scopes[0].contains_key(other)
                && !net.scopes[0].contains_key(one) && one != other implies after.scopes[0][one]
            != after.scopes[0][other] by {
            assert(one == name);
            assert(net.scopes[0].contains_key(other));
        }
    }
}

pub proof fn lemma_labelled_widens(net: Net, names: Seq<Seq<char>>, k: nat, source: int)
    requires
        net.ok(),
        0 <= source < net.next(),
    ensures
        net.widened(net.labelled(names, k, source)),
    decreases k,
{
    if k == 0 {
        lemma_widened_same(net, net);
    } else {
        let before = net.labelled(names, (k - 1) as nat, source);
        let name = names[k - 1];
        let bound = before.bind(name);
        let after = net.labelled(names, k, source);
        lemma_labelled(net, names, (k - 1) as nat, source);
        lemma_labelled_widens(net, names, (k - 1) as nat, source);
        lemma_bind(before, name);
        lemma_bind_widens(before, name);
        lemma_widened_same(bound, after);
        lemma_widened_then(net, before, bound);
        lemma_widened_then(net, bound, after);
    }
}

/// What comes in while the body of a switch is drawn stays when the switch is left.
pub proof fn lemma_leave_widens(n: Net, opened: Net, inner: Net)
    requires
        opened.widened(inner),
        opened.scopes.len() == n.scopes.len() + 1,
        opened.scopes.drop_last() == n.scopes,
        n.scopes.len() >= 1,
        n.next() <= opened.next(),
    ensures
        n.widened(inner.leave()),
{
    reveal(Net::widened);
    let after = inner.leave();
    assert(opened.scopes[0] == n.scopes[0]);
    assert forall|s: int| 1 <= s < n.scopes.len() implies #[trigger] after.scopes[s]
        == n.scopes[s] by {
        assert(inner.scopes[s] == opened.scopes[s]);
        assert(opened.scopes.drop_last()[s] == opened.scopes[s]);
    }
    assert forall|name: Seq<char>| #[trigger]
        after.scopes[0].contains_key(name) && !n.scopes[0].contains_key(name) implies n.next()
        <= after.scopes[0][name] < after.next() && lookup(n.scopes, name) is None by {
        assert(inner.scopes[0].contains_key(name));
    }
    assert forall|one: Seq<char>, other: Seq<char>| #[trigger]
        after.scopes[0].contains_key(one) && #[trigger] after.scopes[0].contains_key(other)
            && !n.scopes[0].contains_key(one) && one != other implies after.scopes[0][one]
        != after.scopes[0][other] by {
        assert(inner.scopes[0].contains_key(one) && inner.scopes[0].contains_key(other));
    }
}

/// Drawing a statement brings in new labels only, in the outermost scope, and each with a new node
/// of its own.
pub proof fn drawing_widens_labels(ast: &Ast, frame: Frame, net: Net)
    requires
        net.ok(),
        frame.within(net),
        build(ast, frame, net).fault is None,
    ensures
        net.widened(build(ast, frame, net).net),
    decreases ast, 1nat,
{
    let n = net.labelled(ast.labels(), ast.labels().len(), frame.source);
    assert(build(ast, frame, net) == build_node(ast, frame, n));
    lemma_labelled(net, ast.labels(), ast.labels().len(), frame.source);
    lemma_labelled_widens(net, ast.labels(), ast.labels().len(), frame.source);
    lemma_grows_numbers(net, n);
    lemma_node_widens(ast, frame, n);
    lemma_widened_then(net, n, build(ast, frame, net).net);
}

/// A statement whose inner statement is drawn last.
proof fn lemma_body_widens(body: &Ast, inner: Frame, n: Net, opened: Net)
    requires
        n.ok(),
        opened.ok(),
        inner.within(opened),
        n.next() <= opened.next(),
        opened.scopes == n.scopes,
        build(body, inner, opened).fault is None,
    ensures
        n.widened(build(body, inner, opened).net),
    decreases body, 2nat,
{
    drawing_widens_labels(body, inner, opened);
    lemma_widened_same(n, opened);
    lemma_widened_then(n, opened, build(body, inner, opened).net);
}

pub proof fn lemma_node_widens(ast: &Ast, frame: Frame, n: Net)
    requires
        n.ok(),
        frame.within(n),
        build_node(ast, frame, n).fault is None,
    ensures
        n.widened(build_node(ast, frame, n).net),
    decreases ast, 0nat,
{
    let c = n.next();
    let after = build_node(ast, frame, n).net;
    match &ast.node {
        AstNode::Compound(v) => {
            lemma_block_widens(v@, frame, n);
        },
        AstNode::If { cond, body, otherwise } => {
            let opened = n.open_if(frame, cond@);
            let inner = frame.between(c + 1, c + 2);
            let first = build(&**body, inner, opened).net;
            lemma_open_if(n, frame, cond@);
            lemma_body_widens(&**body, inner, n, opened);
            lemma_build(&**body, inner, opened);
            lemma_grows_numbers(opened, first);
            match otherwise {
                Some(t) => {
                    let inner2 = frame.between(first.next(), c + 2);
                    lemma_open_else(first, c);
                    assert(after == build(&**t, inner2, first.open_else(c)).net);
                    lemma_body_widens(&**t, inner2, first, first.open_else(c));
                    lemma_widened_then(n, first, after);
                },
                None => {
                    lemma_widened_same(first, after);
                    lemma_widened_then(n, first, after);
                },
            }
        },
        AstNode::While { cond, body } => {
            lemma_open_while(n, frame, cond@);
            lemma_body_widens(
                &**body,
                frame.looping(c + 1, c + 2, c),
                n,
                n.open_while(frame, cond@),
            );
        },
        AstNode::DoWhile { cond, body } => {
            lemma_open_do_while(n, frame, cond@);
            lemma_body_widens(
                &**body,
                frame.looping(c, c + 1, c + 2),
                n,
                n.open_do_while(frame, cond@),
            );
        },
        AstNode::For { init, cond, upd, body } => {
            lemma_open_for(n, frame, init@, cond@, upd@);
            lemma_body_widens(
                &**body,
                frame.looping(c, c + 1, c + 4),
                n,
                n.open_for(frame, init@, cond@, upd@),
            );
        },
        AstNode::Switch { cond, body, cases } => {
            let names = texts(cases@);
            let opened = n.open_switch(frame, cond@, names);
            let d = opened.next() - 2;
            let inner = frame.switching(d, d + 1);
            assert(build_node(ast, frame, n) == build_switch(cond@, *body, names, frame, n));
            lemma_open_switch(n, frame, cond@, names);
            drawing_widens_labels(&**body, inner, opened);
            lemma_leave_widens(n, opened, build(&**body, inner, opened).net);
        },
        AstNode::Goto(name) => {
            lemma_bind(n, name@);
            lemma_bind_widens(n, name@);
            lemma_widened_same(n.bind(name@), after);
            lemma_widened_then(n, n.bind(name@), after);
        },
        _ => {
            lemma_widened_same(n, after);
        },
    }
}

proof fn lemma_block_widens(v: Seq<Rc<Ast>>, frame: Frame, n: Net)
    requires
        n.ok(),
        frame.within(n),
        build_block(v, frame, n).fault is None,
    ensures
        n.widened(build_block(v, frame, n).net),
    decreases v, v.len() + 1,
{
    let c = n.next();
    let after = build_block(v, frame, n).net;
    let opened = n.open_block(frame);
    lemma_open_block(n, frame);
    lemma_widened_same(n, opened);
    if v.len() == 0 {
        lemma_widened_same(n, after);
    } else {
        let chain = build_chain(v, v.len(), frame, opened, c);
        lemma_chain_widens(v, v.len(), frame, opened, c);
        lemma_widened_same_graph(chain.built.net, chain.sink, frame.sink, opened);
        lemma_widened_then(n, opened, after);
    }
}

/// An edge does not change the labels.
proof fn lemma_widened_same_graph(net: Net, from: int, to: int, first: Net)
    requires
        first.widened(net),
    ensures
        first.widened(net.normal(from, to)),
{
    reveal(Net::widened);
}

proof fn lemma_chain_widens(v: Seq<Rc<Ast>>, k: nat, frame: Frame, net: Net, c: int)
    requires
        net.ok(),
        frame.within(net),
        0 <= c,
        c + 1 < net.next(),
        build_chain(v, k, frame, net, c).built.fault is None,
    ensures
        net.widened(build_chain(v, k, frame, net, c).built.net),
    decreases v, k,
{
    if k == 0 || k > v.len() {
        lemma_widened_same(net, net);
    } else {
        let before = build_chain(v, (k - 1) as nat, frame, net, c);
        let inner = frame.between(before.source, before.sink);
        let built = build(&*v[k - 1], inner, before.built.net).net;
        lemma_chain_widens(v, (k - 1) as nat, frame, net, c);
        lemma_build_chain(v, (k - 1) as nat, frame, net, c);
        lemma_grows_numbers(net, before.built.net);
        drawing_widens_labels(&*v[k - 1], inner, before.built.net);
        lemma_widened_then(net, before.built.net, built);
        if k != v.len() {
            lemma_build(&*v[k - 1], inner, before.built.net);
            lemma_widened_same(built, built.node(NodeLabel::Dummy));
            lemma_widened_then(net, built, built.node(NodeLabel::Dummy));
        }
    }
}

} // verus!
