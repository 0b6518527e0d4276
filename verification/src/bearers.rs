//! Where labels lead: to the statements that bear them, and nowhere else.

use crate::ast::{texts, Ast, AstNode};
use crate::flow::{
    blank, build, build_block, build_chain, build_node, build_switch, case_joints, draft, lookup,
    outermost, Frame, Net,
};
use crate::growth::{
    lemma_bind, lemma_blank, lemma_build, lemma_build_chain, lemma_case_joints, lemma_edge,
    lemma_grows_numbers, lemma_labelled, lemma_open_block, lemma_open_do_while, lemma_open_else,
    lemma_open_for, lemma_open_if, lemma_open_switch, lemma_open_while,
};
use crate::meaning::lemma_case_keys;
use crate::model::lemma_lists;
use crate::node::{EdgeType, NodeLabel};
use crate::ranks::{
    lemma_bound_lookup, lemma_new_name, lemma_pushed, lemma_switch_shape, lemma_visible,
    lemma_widened_visible, visible,
};
use crate::structured::{chain_marks, marks, marks_inside, occurrences};
use crate::widening::{
    drawing_widens_labels, injective, lemma_bind_widens, lemma_leave_widens,
    lemma_widened_injective, lemma_widened_lookup,
};
use std::rc::Rc;
use vstd::prelude::*;

verus! {

/// What edges are counted at: what a label stands for, or a node.
pub enum Spot {
    Label(Seq<char>),
    Node(int),
}

/// How many edges leave a spot.
pub open spec fn load(net: Net, spot: Spot) -> nat {
    match spot {
        Spot::Label(name) => match lookup(net.scopes, name) {
            Some(s) => net.graph.out[s].len(),
            None => 0,
        },
        Spot::Node(s) => net.graph.out[s].len(),
    }
}

/// Whether a spot is a label, or a node that is there and that no label stands for.
pub open spec fn apart(net: Net, spot: Spot) -> bool {
    spot matches Spot::Node(s) ==> 0 <= s < net.next() && !visible(net.scopes, s)
}

/// How many of the statements in a tree bear the label.
pub open spec fn borne(ast: &Ast, spot: Spot) -> nat {
    match spot {
        Spot::Label(name) => marks(ast, name),
        Spot::Node(_) => 0,
    }
}

spec fn borne_inside(ast: &Ast, spot: Spot) -> nat {
    match spot {
        Spot::Label(name) => marks_inside(ast, name),
        Spot::Node(_) => 0,
    }
}

spec fn borne_among(v: Seq<Rc<Ast>>, k: nat, spot: Spot) -> nat {
    match spot {
        Spot::Label(name) => chain_marks(v, k, name),
        Spot::Node(_) => 0,
    }
}

/// Whether a statement may be drawn from a node: no label stands for it.
spec fn free(net: Net, source: int, spot: Spot) -> bool {
    &&& injective(net.scopes)
    &&& 0 <= source < net.next()
    &&& !visible(net.scopes, source)
    &&& apart(net, spot)
    &&& spot != Spot::Node(source)
}

/// Edges from nodes that no label stands for do not count.
proof fn lemma_same_load(net: Net, later: Net, source: int, spot: Spot)
    requires
        net.ok(),
        free(net, source, spot),
        later.scopes == net.scopes,
        net.next() <= later.next(),
        forall|i: int|
            0 <= i < net.next() && i != source ==> #[trigger] later.graph.out[i]
                == net.graph.out[i],
    ensures
        load(later, spot) == load(net, spot),
        injective(later.scopes),
        apart(later, spot),
        forall|i: int| net.next() <= i ==> !#[trigger] visible(later.scopes, i),
{
    lemma_visible(net);
    if let Spot::Label(name) = spot {
        if let Some(s) = lookup(net.scopes, name) {
            assert(visible(net.scopes, s));
        }
    }
}

/// What is known of a net stays known.
proof fn lemma_later(net: Net, later: Net, source: int, spot: Spot)
    requires
        net.ok(),
        net.widened(later),
        injective(net.scopes),
        0 <= source < net.next(),
        !visible(net.scopes, source),
        apart(net, spot),
    ensures
        injective(later.scopes),
        !visible(later.scopes, source),
        net.next() <= later.next() ==> apart(later, spot),
{
    lemma_widened_injective(net, later);
    lemma_widened_visible(net, later);
}

proof fn lemma_labels_load(net: Net, names: Seq<Seq<char>>, k: nat, source: int, spot: Spot)
    requires
        net.ok(),
        free(net, source, spot),
        k <= names.len(),
    ensures
        free(net.labelled(names, k, source), source, spot),
        load(net.labelled(names, k, source), spot) == load(net, spot) + match spot {
            Spot::Label(name) => occurrences(names, k, name),
            Spot::Node(_) => 0,
        },
    decreases k,
{
    if k > 0 {
        let before = net.labelled(names, (k - 1) as nat, source);
        let name = names[k - 1];
        let bound = before.bind(name);
        let joint = before.joint(name);
        lemma_labels_load(net, names, (k - 1) as nat, source, spot);
        lemma_labelled(net, names, (k - 1) as nat, source);
        lemma_grows_numbers(net, before);
        lemma_bind(before, name);
        lemma_bind_widens(before, name);
        lemma_later(before, bound, source, spot);
        lemma_lists(before.graph);
        lemma_lists(bound.graph);
        lemma_visible(before);
        lemma_visible(bound);
        assert(lookup(bound.scopes, name) == Some(joint)) by {
            if lookup(before.scopes, name) is None {
                lemma_bound_lookup(before, name);
            }
        }
        assert(visible(bound.scopes, joint));
        match spot {
            Spot::Label(other) => {
                lemma_widened_lookup(before, bound, other);
                if lookup(before.scopes, other) is None && lookup(bound.scopes, other) is Some {
                    assert(lookup(bound.scopes, other)->0 == before.next());
                }
                if other != name {
                    assert(lookup(bound.scopes, other) != Some(joint));
                }
            },
            Spot::Node(s) => {
                assert(bound.graph.out[s] == before.graph.out[s]);
                assert(s != joint);
            },
        }
    }
}

/// What the starts of statements leave as it is.
proof fn lemma_open_outs(n: Net, frame: Frame, init: Seq<char>, cond: Seq<char>, upd: Seq<char>)
    requires
        n.ok(),
        frame.within(n),
    ensures
        forall|i: int|
            0 <= i < n.next() && i != frame.source
                ==> #[trigger] n.open_block(frame).graph.out[i] == n.graph.out[i],
        forall|i: int|
            0 <= i < n.next() && i != frame.source
                ==> #[trigger] n.open_if(frame, cond).graph.out[i] == n.graph.out[i],
        forall|i: int|
            0 <= i < n.next() && i != frame.source
                ==> #[trigger] n.open_while(frame, cond).graph.out[i] == n.graph.out[i],
        forall|i: int|
            0 <= i < n.next() && i != frame.source
                ==> #[trigger] n.open_do_while(frame, cond).graph.out[i] == n.graph.out[i],
        forall|i: int|
            0 <= i < n.next() && i != frame.source
                ==> #[trigger] n.open_for(frame, init, cond, upd).graph.out[i] == n.graph.out[i],
{
    lemma_lists(n.graph);
}

/// A drawn statement leads the label's joint to each statement in it that bears the label, and
/// nowhere else; and it adds no edge to a node that no label stands for, but for its source.
proof fn lemma_build_load(ast: &Ast, frame: Frame, net: Net, spot: Spot)
    requires
        net.ok(),
        frame.within(net),
        build(ast, frame, net).fault is None,
        free(net, frame.source, spot),
    ensures
        load(build(ast, frame, net).net, spot) == load(net, spot) + borne(ast, spot),
    decreases ast, 2nat,
{
    let labels = ast.labels();
    let n = net.labelled(labels, labels.len(), frame.source);
    assert(build(ast, frame, net) == build_node(ast, frame, n));
    lemma_labelled(net, labels, labels.len(), frame.source);
    lemma_grows_numbers(net, n);
    lemma_labels_load(net, labels, labels.len(), frame.source, spot);
    lemma_node_load(ast, frame, n, spot);
}

/// A statement whose inner statement is drawn last.
proof fn lemma_body_load(body: &Ast, inner: Frame, n: Net, source: int, opened: Net, spot: Spot)
    requires
        n.ok(),
        opened.ok(),
        inner.within(opened),
        build(body, inner, opened).fault is None,
        free(n, source, spot),
        opened.scopes == n.scopes,
        n.next() <= inner.source,
        n.next() <= opened.next(),
        forall|i: int|
            0 <= i < n.next() && i != source ==> #[trigger] opened.graph.out[i] == n.graph.out[i],
    ensures
        load(build(body, inner, opened).net, spot) == load(n, spot) + borne(body, spot),
    decreases body, 3nat,
{
    lemma_same_load(n, opened, source, spot);
    lemma_build_load(body, inner, opened, spot);
}

proof fn lemma_node_load(ast: &Ast, frame: Frame, n: Net, spot: Spot)
    requires
        n.ok(),
        frame.within(n),
        build_node(ast, frame, n).fault is None,
        free(n, frame.source, spot),
    ensures
        load(build_node(ast, frame, n).net, spot) == load(n, spot) + borne_inside(ast, spot),
    decreases ast, 1nat,
{
    let c = n.next();
    let after = build_node(ast, frame, n).net;
    lemma_lists(n.graph);
    match &ast.node {
        AstNode::Dummy => {},
        AstNode::Compound(v) => {
            lemma_block_load(v@, frame, n, spot);
        },
        AstNode::If { cond, body, otherwise } => {
            let opened = n.open_if(frame, cond@);
            let inner = frame.between(c + 1, c + 2);
            let first = build(&**body, inner, opened).net;
            lemma_open_if(n, frame, cond@);
            lemma_open_outs(n, frame, cond@, cond@, cond@);
            lemma_body_load(&**body, inner, n, frame.source, opened, spot);
            lemma_same_load(n, opened, frame.source, spot);
            lemma_build(&**body, inner, opened);
            lemma_grows_numbers(opened, first);
            drawing_widens_labels(&**body, inner, opened);
            lemma_later(opened, first, c, spot);
            lemma_lists(first.graph);
            match otherwise {
                Some(t) => {
                    let second = first.open_else(c);
                    let inner2 = frame.between(first.next(), c + 2);
                    lemma_open_else(first, c);
                    lemma_body_load(&**t, inner2, first, c, second, spot);
                },
                None => {
                    lemma_same_load(first, after, c, spot);
                },
            }
        },
        AstNode::While { cond, body } => {
            let opened = n.open_while(frame, cond@);
            let inner = frame.looping(c + 1, c + 2, c);
            lemma_open_while(n, frame, cond@);
            lemma_open_outs(n, frame, cond@, cond@, cond@);
            lemma_body_load(&**body, inner, n, frame.source, opened, spot);
        },
        AstNode::DoWhile { cond, body } => {
            let opened = n.open_do_while(frame, cond@);
            let inner = frame.looping(c, c + 1, c + 2);
            lemma_open_do_while(n, frame, cond@);
            lemma_open_outs(n, frame, cond@, cond@, cond@);
            lemma_body_load(&**body, inner, n, frame.source, opened, spot);
        },
        AstNode::For { init, cond, upd, body } => {
            let opened = n.open_for(frame, init@, cond@, upd@);
            let inner = frame.looping(c, c + 1, c + 4);
            lemma_open_for(n, frame, init@, cond@, upd@);
            lemma_open_outs(n, frame, init@, cond@, upd@);
            lemma_body_load(&**body, inner, n, frame.source, opened, spot);
        },
        AstNode::Switch { cond, body, cases } => {
            lemma_switch_load(ast, frame, n, spot);
        },
        AstNode::Goto(name) => {
            let bound = n.bind(name@);
            lemma_bind(n, name@);
            lemma_bind_widens(n, name@);
            lemma_later(n, bound, frame.source, spot);
            lemma_lists(bound.graph);
            lemma_visible(n);
            lemma_visible(bound);
            if let Spot::Label(other) = spot {
                lemma_widened_lookup(n, bound, other);
            }
            lemma_same_load(bound, after, frame.source, spot);
        },
        _ => {
            lemma_same_load(n, after, frame.source, spot);
        },
    }
}

proof fn lemma_case_apart(names: Seq<Seq<char>>, k: nat, base: int, a: Seq<char>, b: Seq<char>)
    requires
        k <= names.len(),
        case_joints(names, k, base).contains_key(a),
        case_joints(names, k, base).contains_key(b),
        a != b,
    ensures
        case_joints(names, k, base)[a] != case_joints(names, k, base)[b],
    decreases k,
{
    if k > 0 {
        let before = case_joints(names, (k - 1) as nat, base);
        lemma_case_joints(names, (k - 1) as nat, base);
        if a == names[k - 1] {
            assert(before.contains_key(b));
        } else if b == names[k - 1] {
            assert(before.contains_key(a));
        } else {
            lemma_case_apart(names, (k - 1) as nat, base, a, b);
        }
    }
}

/// Inside of a switch, its cases stand for nodes of their own.
proof fn lemma_switch_injective(n: Net, names: Seq<Seq<char>>, cases: Map<Seq<char>, int>)
    requires
        n.ok(),
        injective(n.scopes),
        cases == case_joints(names, names.len(), n.next()),
    ensures
        injective(n.scopes.push(cases)),
        forall|i: int|
            0 <= i < n.next() && #[trigger] visible(n.scopes.push(cases), i) ==> visible(
                n.scopes,
                i,
            ),
{
    let scopes = n.scopes.push(cases);
    lemma_visible(n);
    lemma_case_joints(names, names.len(), n.next());
    assert forall|a: Seq<char>, b: Seq<char>|
        (#[trigger] lookup(scopes, a)) is Some && lookup(scopes, a) == #[trigger] lookup(
            scopes,
            b,
        ) implies a == b by {
        lemma_pushed(n.scopes, cases, a);
        lemma_pushed(n.scopes, cases, b);
        if a != b && cases.contains_key(a) && cases.contains_key(b) {
            lemma_case_apart(names, names.len(), n.next(), a, b);
        }
    }
    assert forall|i: int| 0 <= i < n.next() && #[trigger] visible(scopes, i) implies visible(
        n.scopes,
        i,
    ) by {
        let name = choose|name: Seq<char>| #[trigger] lookup(scopes, name) == Some(i);
        lemma_pushed(n.scopes, cases, name);
        assert(lookup(n.scopes, name) == Some(i));
    }
}

proof fn lemma_switch_load(ast: &Ast, frame: Frame, n: Net, spot: Spot)
    requires
        ast.node is Switch,
        n.ok(),
        frame.within(n),
        build_node(ast, frame, n).fault is None,
        free(n, frame.source, spot),
    ensures
        load(build_node(ast, frame, n).net, spot) == load(n, spot) + borne_inside(ast, spot),
    decreases ast, 0nat,
{
    match &ast.node {
        AstNode::Switch { cond, body, cases } => {
            let names = texts(cases@);
            let opened = n.open_switch(frame, cond@, names);
            let at = case_joints(names, names.len(), n.next());
            let d = opened.next() - 2;
            let inner = frame.switching(d, d + 1);
            let drawn = build(&**body, inner, opened).net;
            let after = drawn.leave();
            assert(build_node(ast, frame, n) == build_switch(cond@, *body, names, frame, n));
            lemma_open_switch(n, frame, cond@, names);
            lemma_switch_shape(n, frame, cond@, names);
            lemma_switch_injective(n, names, at);
            lemma_case_joints(names, names.len(), n.next());
            lemma_case_keys(names, names.len(), n.next());
            lemma_visible(n);
            assert(opened.scopes == n.scopes.push(at));
            assert(opened.scopes.drop_last() =~= n.scopes);
            lemma_build(&**body, inner, opened);
            lemma_grows_numbers(opened, drawn);
            drawing_widens_labels(&**body, inner, opened);
            lemma_leave_widens(n, opened, drawn);
            assert(drawn.scopes.last() == at && drawn.scopes.len() == opened.scopes.len()) by {
                reveal(Net::widened);
                let s = opened.scopes.len() - 1;
                assert(drawn.scopes[s] == opened.scopes[s]);
            }
            assert(!visible(opened.scopes, d)) by {
                if visible(opened.scopes, d) {
                    let name = choose|name: Seq<char>| #[trigger] lookup(opened.scopes, name)
                        == Some(d);
                    lemma_pushed(n.scopes, at, name);
                }
            }
            match spot {
                Spot::Label(name) => {
                    lemma_pushed(n.scopes, at, name);
                    if names.contains(name) {
                        lemma_widened_lookup(n, after, name);
                        if let Some(s) = lookup(n.scopes, name) {
                            assert(visible(n.scopes, s));
                            assert(!visible(opened.scopes, s)) by {
                                if visible(opened.scopes, s) {
                                    let other = choose|other: Seq<char>| #[trigger]
                                        lookup(opened.scopes, other) == Some(s);
                                    lemma_pushed(n.scopes, at, other);
                                    assert(lookup(n.scopes, other) == Some(s));
                                }
                            }
                            lemma_build_load(&**body, inner, opened, Spot::Node(s));
                        } else if lookup(after.scopes, name) is Some {
                            lemma_new_name(n, opened, drawn, name);
                        }
                    } else {
                        lemma_build_load(&**body, inner, opened, spot);
                        assert(lookup(after.scopes, name) == lookup(drawn.scopes, name));
                    }
                },
                Spot::Node(s) => {
                    lemma_build_load(&**body, inner, opened, spot);
                },
            }
        },
        _ => {},
    }
}

proof fn lemma_block_load(v: Seq<Rc<Ast>>, frame: Frame, n: Net, spot: Spot)
    requires
        n.ok(),
        frame.within(n),
        build_block(v, frame, n).fault is None,
        free(n, frame.source, spot),
    ensures
        load(build_block(v, frame, n).net, spot) == load(n, spot) + borne_among(v, v.len(), spot),
    decreases v, v.len() + 1,
{
    let c = n.next();
    let opened = n.open_block(frame);
    let after = build_block(v, frame, n).net;
    lemma_open_block(n, frame);
    lemma_open_outs(n, frame, Seq::empty(), Seq::empty(), Seq::empty());
    lemma_same_load(n, opened, frame.source, spot);
    lemma_lists(opened.graph);
    if v.len() == 0 {
        let one = opened.normal(c, c + 1);
        assert(free(opened, c, spot));
        lemma_same_load(opened, one, c, spot);
        lemma_same_load_more(opened, one, after, c, c + 1, spot);
    } else {
        let chain = build_chain(v, v.len(), frame, opened, c);
        lemma_chain_load(v, v.len(), frame, opened, c, spot);
        lemma_build_chain(v, v.len(), frame, opened, c);
        lemma_grows_numbers(opened, chain.built.net);
        lemma_lists(chain.built.net.graph);
        lemma_same_load(chain.built.net, after, chain.sink, spot);
    }
}

/// One more edge, from another node that no label stands for.
proof fn lemma_same_load_more(net: Net, one: Net, two: Net, a: int, b: int, spot: Spot)
    requires
        net.ok(),
        one == net.normal(a, b),
        0 <= a < net.next(),
        0 <= b < net.next(),
        free(net, a, spot),
        free(net, b, spot),
        one.scopes == net.scopes,
        two.scopes == one.scopes,
        two.next() == one.next(),
        forall|i: int|
            0 <= i < one.next() && i != b ==> #[trigger] two.graph.out[i] == one.graph.out[i],
    ensures
        load(two, spot) == load(one, spot),
{
    lemma_edge(net, a, b, EdgeType::Normal);
    lemma_same_load(one, two, b, spot);
}

proof fn lemma_chain_load(v: Seq<Rc<Ast>>, k: nat, frame: Frame, net: Net, c: int, spot: Spot)
    requires
        net.ok(),
        frame.within(net),
        0 <= c,
        c + 1 < net.next(),
        build_chain(v, k, frame, net, c).built.fault is None,
        free(net, c, spot),
        free(net, c + 1, spot),
    ensures
        load(build_chain(v, k, frame, net, c).built.net, spot) == load(net, spot) + borne_among(
            v,
            k,
            spot,
        ),
        free(
            build_chain(v, k, frame, net, c).built.net,
            build_chain(v, k, frame, net, c).source,
            spot,
        ),
        free(
            build_chain(v, k, frame, net, c).built.net,
            build_chain(v, k, frame, net, c).sink,
            spot,
        ),
    decreases v, k,
{
    if k > 0 && k <= v.len() {
        let before = build_chain(v, (k - 1) as nat, frame, net, c);
        let inner = frame.between(before.source, before.sink);
        let drawn = build(&*v[k - 1], inner, before.built.net).net;
        lemma_chain_load(v, (k - 1) as nat, frame, net, c, spot);
        lemma_build_chain(v, (k - 1) as nat, frame, net, c);
        lemma_grows_numbers(net, before.built.net);
        lemma_build(&*v[k - 1], inner, before.built.net);
        lemma_grows_numbers(before.built.net, drawn);
        lemma_build_load(&*v[k - 1], inner, before.built.net, spot);
        drawing_widens_labels(&*v[k - 1], inner, before.built.net);
        lemma_later(before.built.net, drawn, before.source, spot);
        lemma_later(before.built.net, drawn, before.sink, spot);
        if k < v.len() {
            lemma_lists(drawn.graph);
            lemma_same_load(drawn, drawn.node(NodeLabel::Dummy), before.sink, spot);
        }
    }
}

/// A label that statements or jumps of a program name leads in its draft to as many statements as
/// bear it, and nowhere else; but for cases of switches, which belong to their switch. So a jump to
/// a label that no statement bears leads nowhere, and none leads to a statement that does not bear
/// its label.
pub proof fn labels_lead_to_bearers_only(ast: &Ast, name: Seq<char>)
    requires
        draft(ast).fault is None,
    ensures
        lookup(draft(ast).net.scopes, name) matches Some(s) ==> draft(ast).net.graph.out[s].len()
            == marks(ast, name),
{
    lemma_blank();
    assert forall|name: Seq<char>| #[trigger] lookup(blank().scopes, name) is None by {
        assert(blank().scopes.drop_last() =~= Seq::empty());
        assert(lookup(blank().scopes.drop_last(), name) is None);
    }
    lemma_build_load(ast, outermost(), blank(), Spot::Label(name));
}

} // verus!
