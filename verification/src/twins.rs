//! Two nets that are drawn alike, one of which has more joints in a row where the other has one.

use crate::ast::{texts, Ast, AstNode};
use crate::flow::{
    build, build_block, build_chain, build_node, build_switch, case_joints, case_test, lookup,
    tested, Frame, Net,
};
use crate::growth::{
    lemma_build, lemma_build_chain, lemma_case_joints, lemma_edge, lemma_grows_numbers,
    lemma_joints, lemma_labelled, lemma_node, lemma_open_block, lemma_open_do_while,
    lemma_open_else, lemma_open_for, lemma_open_if, lemma_open_switch, lemma_open_while,
    lemma_tested, with_table,
};
use crate::model::{Arrow, GraphView};
use crate::node::{EdgeType, NodeLabel};
use std::rc::Rc;
use vstd::prelude::*;

verus! {

/// How the nodes of a net `b` stand for the nodes of a net `a`.
pub struct Twin {
    /// For each node of `b` the node of `a` that it stands for.
    pub down: Seq<int>,
    /// For each node of `a` the node of `b` that control leaves by where it leaves that node.
    pub up: Seq<int>,
    /// Numbers that rise along the joints that stand for one node.
    pub order: Seq<nat>,
    /// A bound on these numbers.
    pub span: nat,
    /// The nodes of `b` that do not stand for anything yet.
    pub idle: Set<int>,
}

impl Twin {
    /// Node `x` is in use.
    pub open spec fn busy(self, x: int) -> bool {
        0 <= x < self.down.len() && !self.idle.contains(x)
    }

    /// With one more node on either side, which stand for each other.
    pub open spec fn pushed(self) -> Twin {
        Twin {
            down: self.down.push(self.up.len() as int),
            up: self.up.push(self.down.len() as int),
            order: self.order.push(0),
            span: self.span,
            idle: self.idle,
        }
    }

    /// Whether `later` says the same of all nodes that this twin speaks of.
    pub open spec fn kept_by(self, later: Twin) -> bool {
        &&& self.down.len() <= later.down.len()
        &&& self.up.len() <= later.up.len()
        &&& later.idle == self.idle
        &&& forall|b: int| 0 <= b < self.down.len() ==> #[trigger] later.down[b] == self.down[b]
        &&& forall|a: int| 0 <= a < self.up.len() ==> #[trigger] later.up[a] == self.up[a]
    }

    /// Whether `later` says the same of the first `m` nodes of `a` and the first `n` nodes of `b`.
    pub open spec fn agrees(self, later: Twin, m: int, n: int) -> bool {
        &&& forall|i: int| 0 <= i < m ==> #[trigger] later.up[i] == self.up[i]
        &&& forall|x: int| 0 <= x < n ==> #[trigger] later.down[x] == self.down[x]
    }
}

/// Whether two lists have arrows of the same kinds to nodes that stand for each other.
pub open spec fn mirrors(one: Seq<Arrow>, other: Seq<Arrow>, twin: Twin) -> bool {
    &&& one.len() == other.len()
    &&& forall|j: int|
        0 <= j < one.len() ==> {
            &&& (#[trigger] other[j]).kind == one[j].kind
            &&& twin.busy(other[j].node)
            &&& twin.down[other[j].node] == one[j].node
        }
}

/// Whether a node is one that control leaves by.
pub open spec fn exits(twin: Twin, x: int) -> bool {
    twin.up[twin.down[x]] == x
}

/// Whether node `x` of `b` is a joint that leads on to a later one for the same node.
pub open spec fn relays(b: GraphView, a: GraphView, twin: Twin, x: int) -> bool {
    let y = b.out[x][0].node;
    &&& b.nodes[x] == Some(NodeLabel::Dummy)
    &&& a.nodes[twin.down[x]] == Some(NodeLabel::Dummy)
    &&& b.out[x].len() == 1
    &&& twin.busy(y)
    &&& twin.down[y] == twin.down[x]
    &&& twin.order[x] < twin.order[y] <= twin.span
}

/// Whether graph `b` is graph `a` with more joints in a row in the place of some joints.
#[verifier::opaque]
pub open spec fn alike(a: GraphView, b: GraphView, twin: Twin) -> bool {
    &&& twin.down.len() == b.nodes.len()
    &&& twin.order.len() == b.nodes.len()
    &&& twin.up.len() == a.nodes.len()
    &&& a.out.len() == a.nodes.len()
    &&& b.out.len() == b.nodes.len()
    &&& forall|x: int| 0 <= x < twin.order.len() ==> #[trigger] twin.order[x] <= twin.span
    &&& forall|i: int|
        0 <= i < a.nodes.len() ==> {
            &&& twin.busy(#[trigger] twin.up[i])
            &&& twin.down[twin.up[i]] == i
            &&& b.nodes[twin.up[i]] == a.nodes[i]
            &&& mirrors(a.out[i], b.out[twin.up[i]], twin)
        }
    &&& forall|x: int| #[trigger]
        twin.busy(x) ==> 0 <= twin.down[x] < a.nodes.len() && (exits(twin, x) || relays(
            b,
            a,
            twin,
            x,
        ))
}

/// Whether labels stand for nodes that stand for each other.
#[verifier::opaque]
pub open spec fn same_names(
    a: Seq<Map<Seq<char>, int>>,
    b: Seq<Map<Seq<char>, int>>,
    twin: Twin,
) -> bool {
    &&& a.len() == b.len()
    &&& forall|s: int, name: Seq<char>|
        0 <= s < a.len() ==> (#[trigger] b[s].contains_key(name) == a[s].contains_key(name))
    &&& forall|s: int, name: Seq<char>|
        0 <= s < a.len() && #[trigger] a[s].contains_key(name) ==> 0 <= a[s][name] < twin.up.len()
            && b[s][name] == twin.up[a[s][name]]
}

/// Whether two nets are drawn alike.
pub open spec fn twins(a: Net, b: Net, twin: Twin) -> bool {
    alike(a.graph, b.graph, twin) && same_names(a.scopes, b.scopes, twin)
}

/// Whether two frames stand for each other.
pub open spec fn twin_frames(f: Frame, g: Frame, twin: Twin) -> bool {
    &&& 0 <= f.source < twin.up.len()
    &&& twin.up[f.source] == g.source
    &&& twin.busy(g.sink) && twin.down[g.sink] == f.sink
    &&& twin.busy(g.end) && twin.down[g.end] == f.end
    &&& match (f.break_target, g.break_target) {
        (Some(s), Some(t)) => twin.busy(t) && twin.down[t] == s,
        (None, None) => true,
        _ => false,
    }
    &&& match (f.continue_target, g.continue_target) {
        (Some(s), Some(t)) => twin.busy(t) && twin.down[t] == s,
        (None, None) => true,
        _ => false,
    }
}

/// What the nodes of twins have to do with each other.
pub proof fn lemma_alike(a: Net, b: Net, twin: Twin)
    requires
        twins(a, b, twin),
    ensures
        twin.down.len() == b.next(),
        twin.up.len() == a.next(),
        forall|i: int|
            0 <= i < a.next() ==> twin.busy(#[trigger] twin.up[i]) && twin.down[twin.up[i]] == i,
{
    reveal(alike);
}

pub proof fn lemma_frames_kept(f: Frame, g: Frame, twin: Twin, later: Twin)
    requires
        twin_frames(f, g, twin),
        twin.kept_by(later),
    ensures
        twin_frames(f, g, later),
{
}

pub broadcast proof fn lemma_twin_node(a: Net, b: Net, twin: Twin, label: NodeLabel)
    requires
        twins(a, b, twin),
        idle_in(twin),
    ensures
        #[trigger] twins(a.node(label), b.node(label), twin.pushed()),
{
    reveal(alike);
    reveal(same_names);
    let later = twin.pushed();
    let a2 = a.graph.add_node(label);
    let b2 = b.graph.add_node(label);
    assert forall|i: int| 0 <= i < a2.nodes.len() implies {
        &&& later.busy(#[trigger] later.up[i])
        &&& later.down[later.up[i]] == i
        &&& b2.nodes[later.up[i]] == a2.nodes[i]
        &&& mirrors(a2.out[i], b2.out[later.up[i]], later)
    } by {
        if i < a.next() {
            assert(twin.busy(twin.up[i]));
        }
    }
    assert forall|x: int| #[trigger] later.busy(x) implies 0 <= later.down[x] < a2.nodes.len() && (
    exits(later, x) || relays(b2, a2, later, x)) by {
        if x < b.next() {
            assert(twin.busy(x));
        }
    }
}

pub broadcast proof fn lemma_twin_edge(
    a: Net,
    b: Net,
    twin: Twin,
    from_a: int,
    to_a: int,
    from_b: int,
    to_b: int,
    kind: EdgeType,
)
    requires
        twins(a, b, twin),
        0 <= from_a < twin.up.len(),
        twin.up[from_a] == from_b,
        twin.busy(to_b),
        twin.down[to_b] == to_a,
    ensures
        #[trigger] twins(a.edge(from_a, to_a, kind), b.edge(from_b, to_b, kind), twin),
{
    reveal(alike);
    let a2 = a.graph.add_edge(from_a, to_a, kind);
    let b2 = b.graph.add_edge(from_b, to_b, kind);
    assert(twin.busy(twin.up[from_a]));
    assert forall|i: int| 0 <= i < a2.nodes.len() implies {
        &&& twin.busy(#[trigger] twin.up[i])
        &&& twin.down[twin.up[i]] == i
        &&& b2.nodes[twin.up[i]] == a2.nodes[i]
        &&& mirrors(a2.out[i], b2.out[twin.up[i]], twin)
    } by {
        if i != from_a {
            assert(twin.up[i] != from_b);
            assert(b2.out[twin.up[i]] == b.graph.out[twin.up[i]]);
        } else {
            let one = a2.out[i];
            let other = b2.out[from_b];
            assert forall|j: int| 0 <= j < one.len() implies {
                &&& (#[trigger] other[j]).kind == one[j].kind
                &&& twin.busy(other[j].node)
                &&& twin.down[other[j].node] == one[j].node
            } by {
                if j > 0 {
                    assert(other[j] == b.graph.out[from_b][j - 1]);
                    assert(one[j] == a.graph.out[i][j - 1]);
                }
            }
        }
    }
    assert forall|x: int| #[trigger] twin.busy(x) implies 0 <= twin.down[x] < a2.nodes.len() && (
    exits(twin, x) || relays(b2, a2, twin, x)) by {
        if !exits(twin, x) {
            assert(x != from_b);
            assert(relays(b.graph, a.graph, twin, x));
        }
    }
}

proof fn lemma_twin_lookup(
    a: Seq<Map<Seq<char>, int>>,
    b: Seq<Map<Seq<char>, int>>,
    twin: Twin,
    name: Seq<char>,
)
    requires
        same_names(a, b, twin),
    ensures
        match lookup(a, name) {
            Some(v) => 0 <= v < twin.up.len() && lookup(b, name) == Some(twin.up[v]),
            None => lookup(b, name) is None,
        },
    decreases a.len(),
{
    reveal(same_names);
    if a.len() > 0 {
        let s = a.len() - 1;
        assert(b[s].contains_key(name) == a[s].contains_key(name));
        if a[s].contains_key(name) {
        } else {
            lemma_names_leave(a, b, twin);
            lemma_twin_lookup(a.drop_last(), b.drop_last(), twin, name);
        }
    }
}

pub proof fn lemma_names_leave(
    a: Seq<Map<Seq<char>, int>>,
    b: Seq<Map<Seq<char>, int>>,
    twin: Twin,
)
    requires
        same_names(a, b, twin),
        a.len() > 0,
    ensures
        same_names(a.drop_last(), b.drop_last(), twin),
{
    reveal(same_names);
    let a2 = a.drop_last();
    let b2 = b.drop_last();
    assert forall|s: int, name: Seq<char>| 0 <= s < a2.len() implies (
    #[trigger] b2[s].contains_key(name) == a2[s].contains_key(name)) by {
        assert(b[s].contains_key(name) == a[s].contains_key(name));
    }
    assert forall|s: int, name: Seq<char>|
        0 <= s < a2.len() && #[trigger] a2[s].contains_key(name) implies 0 <= a2[s][name]
        < twin.up.len() && b2[s][name] == twin.up[a2[s][name]] by {
        assert(a[s].contains_key(name));
    }
}

proof fn lemma_names_kept(
    a: Seq<Map<Seq<char>, int>>,
    b: Seq<Map<Seq<char>, int>>,
    twin: Twin,
    later: Twin,
)
    requires
        same_names(a, b, twin),
        twin.kept_by(later),
    ensures
        same_names(a, b, later),
{
    reveal(same_names);
}

/// The label `name` has joints that stand for each other.
proof fn lemma_twin_bind(a: Net, b: Net, twin: Twin, name: Seq<char>) -> (later: Twin)
    requires
        a.ok(),
        b.ok(),
        twins(a, b, twin),
        idle_in(twin),
    ensures
        twins(a.bind(name), b.bind(name), later),
        twin.kept_by(later),
        0 <= a.joint(name) < later.up.len(),
        later.up[a.joint(name)] == b.joint(name),
{
    lemma_twin_lookup(a.scopes, b.scopes, twin, name);
    lemma_alike(a, b, twin);
    if lookup(a.scopes, name) is Some {
        twin
    } else {
        let later = twin.pushed();
        let a2 = a.bind(name);
        let b2 = b.bind(name);
        lemma_twin_node(a, b, twin, NodeLabel::Dummy);
        lemma_names_kept(a.scopes, b.scopes, twin, later);
        reveal(same_names);
        assert forall|s: int, k: Seq<char>| 0 <= s < a2.scopes.len() implies (
        #[trigger] b2.scopes[s].contains_key(k) == a2.scopes[s].contains_key(k)) by {
            assert(b.scopes[s].contains_key(k) == a.scopes[s].contains_key(k));
        }
        assert forall|s: int, k: Seq<char>|
            0 <= s < a2.scopes.len() && #[trigger] a2.scopes[s].contains_key(k) implies 0
            <= a2.scopes[s][k] < later.up.len() && b2.scopes[s][k] == later.up[a2.scopes[s][k]] by {
            if s > 0 || k != name {
                assert(a.scopes[s].contains_key(k));
            }
        }
        later
    }
}

/// Whether the idle nodes are nodes.
pub open spec fn idle_in(twin: Twin) -> bool {
    forall|x: int| #[trigger] twin.idle.contains(x) ==> x < twin.down.len()
}

pub proof fn lemma_twin_labelled(
    a: Net,
    b: Net,
    twin: Twin,
    names: Seq<Seq<char>>,
    k: nat,
    s: int,
    t: int,
) -> (later: Twin)
    requires
        a.ok(),
        b.ok(),
        twins(a, b, twin),
        idle_in(twin),
        0 <= s < a.next(),
        0 <= t < b.next(),
        twin.up[s] == t,
    ensures
        twins(a.labelled(names, k, s), b.labelled(names, k, t), later),
        twin.kept_by(later),
    decreases k,
{
    lemma_alike(a, b, twin);
    if k == 0 {
        twin
    } else {
        let before = lemma_twin_labelled(a, b, twin, names, (k - 1) as nat, s, t);
        let a1 = a.labelled(names, (k - 1) as nat, s);
        let b1 = b.labelled(names, (k - 1) as nat, t);
        let name = names[k - 1];
        lemma_labelled(a, names, (k - 1) as nat, s);
        lemma_labelled(b, names, (k - 1) as nat, t);
        let later = lemma_twin_bind(a1, b1, before, name);
        assert(twin.busy(twin.up[s]));
        assert(later.busy(t) && later.down[t] == s);
        lemma_twin_edge(
            a1.bind(name),
            b1.bind(name),
            later,
            a1.joint(name),
            s,
            b1.joint(name),
            t,
            EdgeType::Normal,
        );
        later
    }
}

/// A statement that is one node.
proof fn lemma_twin_step(
    a: Net,
    b: Net,
    twin: Twin,
    f: Frame,
    g: Frame,
    text: Seq<char>,
    s: int,
    t: int,
)
    requires
        twins(a, b, twin),
        idle_in(twin),
        twin_frames(f, g, twin),
        twin.busy(t),
        twin.down[t] == s,
    ensures
        twins(a.step(f, text, s), b.step(g, text, t), twin.pushed()),
{
    broadcast use {lemma_twin_node, lemma_twin_edge};

    lemma_alike(a, b, twin);
    let later = twin.pushed();
    let a1 = a.node(NodeLabel::Node(text));
    let b1 = b.node(NodeLabel::Node(text));
    lemma_twin_edge(a1, b1, later, f.source, a.next(), g.source, b.next(), EdgeType::Normal);
    lemma_twin_edge(
        a.enter(f, text),
        b.enter(g, text),
        later,
        a.next(),
        s,
        b.next(),
        t,
        EdgeType::Normal,
    );
}

pub proof fn lemma_twin_block(a: Net, b: Net, twin: Twin, f: Frame, g: Frame)
    requires
        twins(a, b, twin),
        idle_in(twin),
        twin_frames(f, g, twin),
    ensures
        twins(a.open_block(f), b.open_block(g), twin.pushed().pushed()),
{
    broadcast use {lemma_twin_node, lemma_twin_edge};

    lemma_alike(a, b, twin);
    assert(idle_in(twin.pushed()));
    let a2 = a.node(NodeLabel::Dummy).node(NodeLabel::Dummy);
    let b2 = b.node(NodeLabel::Dummy).node(NodeLabel::Dummy);
    lemma_twin_edge(
        a2,
        b2,
        twin.pushed().pushed(),
        f.source,
        a.next(),
        g.source,
        b.next(),
        EdgeType::Normal,
    );
}

/// A condition and two joints.
proof fn lemma_twin_three(
    a: Net,
    b: Net,
    twin: Twin,
    one: NodeLabel,
    two: NodeLabel,
    three: NodeLabel,
)
    requires
        twins(a, b, twin),
        idle_in(twin),
    ensures
        twins(
            a.node(one).node(two).node(three),
            b.node(one).node(two).node(three),
            twin.pushed().pushed().pushed(),
        ),
        idle_in(twin.pushed()),
        idle_in(twin.pushed().pushed()),
        idle_in(twin.pushed().pushed().pushed()),
{
    lemma_twin_node(a, b, twin, one);
    lemma_twin_node(a.node(one), b.node(one), twin.pushed(), two);
    lemma_twin_node(a.node(one).node(two), b.node(one).node(two), twin.pushed().pushed(), three);
}

pub proof fn lemma_twin_if(a: Net, b: Net, twin: Twin, f: Frame, g: Frame, cond: Seq<char>)
    requires
        twins(a, b, twin),
        idle_in(twin),
        twin_frames(f, g, twin),
    ensures
        twins(a.open_if(f, cond), b.open_if(g, cond), twin.pushed().pushed().pushed()),
{
    let later = twin.pushed().pushed().pushed();
    let c = a.next();
    let d = b.next();
    lemma_alike(a, b, twin);
    lemma_twin_three(a, b, twin, NodeLabel::Choice(cond), NodeLabel::Dummy, NodeLabel::Dummy);
    let a3 = a.node(NodeLabel::Choice(cond)).node(NodeLabel::Dummy).node(NodeLabel::Dummy);
    let b3 = b.node(NodeLabel::Choice(cond)).node(NodeLabel::Dummy).node(NodeLabel::Dummy);
    lemma_twin_edge(a3, b3, later, f.source, c, g.source, d, EdgeType::Normal);
    let a4 = a3.normal(f.source, c);
    let b4 = b3.normal(g.source, d);
    lemma_twin_edge(a4, b4, later, c, c + 1, d, d + 1, EdgeType::Branch(true));
    let a5 = a4.edge(c, c + 1, EdgeType::Branch(true));
    let b5 = b4.edge(d, d + 1, EdgeType::Branch(true));
    lemma_twin_edge(a5, b5, later, c + 2, f.sink, d + 2, g.sink, EdgeType::Normal);
}

pub proof fn lemma_twin_else(a: Net, b: Net, twin: Twin, c: int, d: int)
    requires
        twins(a, b, twin),
        idle_in(twin),
        0 <= c < a.next(),
        twin.up[c] == d,
    ensures
        twins(a.open_else(c), b.open_else(d), twin.pushed()),
{
    lemma_alike(a, b, twin);
    lemma_twin_node(a, b, twin, NodeLabel::Dummy);
    lemma_twin_edge(
        a.node(NodeLabel::Dummy),
        b.node(NodeLabel::Dummy),
        twin.pushed(),
        c,
        a.next(),
        d,
        b.next(),
        EdgeType::Branch(false),
    );
}

pub proof fn lemma_twin_while(a: Net, b: Net, twin: Twin, f: Frame, g: Frame, cond: Seq<char>)
    requires
        twins(a, b, twin),
        idle_in(twin),
        twin_frames(f, g, twin),
    ensures
        twins(a.open_while(f, cond), b.open_while(g, cond), twin.pushed().pushed().pushed()),
{
    let later = twin.pushed().pushed().pushed();
    let c = a.next();
    let d = b.next();
    lemma_alike(a, b, twin);
    lemma_twin_three(a, b, twin, NodeLabel::Choice(cond), NodeLabel::Dummy, NodeLabel::Dummy);
    let a3 = a.node(NodeLabel::Choice(cond)).node(NodeLabel::Dummy).node(NodeLabel::Dummy);
    let b3 = b.node(NodeLabel::Choice(cond)).node(NodeLabel::Dummy).node(NodeLabel::Dummy);
    lemma_twin_edge(a3, b3, later, f.source, c, g.source, d, EdgeType::Normal);
    let a4 = a3.normal(f.source, c);
    let b4 = b3.normal(g.source, d);
    lemma_twin_edge(a4, b4, later, c, c + 1, d, d + 1, EdgeType::Branch(true));
    let a5 = a4.edge(c, c + 1, EdgeType::Branch(true));
    let b5 = b4.edge(d, d + 1, EdgeType::Branch(true));
    lemma_twin_edge(a5, b5, later, c, f.sink, d, g.sink, EdgeType::Branch(false));
    let a6 = a5.edge(c, f.sink, EdgeType::Branch(false));
    let b6 = b5.edge(d, g.sink, EdgeType::Branch(false));
    lemma_twin_edge(a6, b6, later, c + 2, c, d + 2, d, EdgeType::Normal);
}

pub proof fn lemma_twin_do_while(a: Net, b: Net, twin: Twin, f: Frame, g: Frame, cond: Seq<char>)
    requires
        twins(a, b, twin),
        idle_in(twin),
        twin_frames(f, g, twin),
    ensures
        twins(a.open_do_while(f, cond), b.open_do_while(g, cond), twin.pushed().pushed().pushed()),
{
    let later = twin.pushed().pushed().pushed();
    let c = a.next();
    let d = b.next();
    lemma_alike(a, b, twin);
    lemma_twin_three(a, b, twin, NodeLabel::Dummy, NodeLabel::Dummy, NodeLabel::Choice(cond));
    let a3 = a.node(NodeLabel::Dummy).node(NodeLabel::Dummy).node(NodeLabel::Choice(cond));
    let b3 = b.node(NodeLabel::Dummy).node(NodeLabel::Dummy).node(NodeLabel::Choice(cond));
    lemma_twin_edge(a3, b3, later, f.source, c, g.source, d, EdgeType::Normal);
    let a4 = a3.normal(f.source, c);
    let b4 = b3.normal(g.source, d);
    lemma_twin_edge(a4, b4, later, c + 1, c + 2, d + 1, d + 2, EdgeType::Normal);
    let a5 = a4.normal(c + 1, c + 2);
    let b5 = b4.normal(d + 1, d + 2);
    lemma_twin_edge(a5, b5, later, c + 2, c, d + 2, d, EdgeType::Branch(true));
    let a6 = a5.edge(c + 2, c, EdgeType::Branch(true));
    let b6 = b5.edge(d + 2, d, EdgeType::Branch(true));
    lemma_twin_edge(a6, b6, later, c + 2, f.sink, d + 2, g.sink, EdgeType::Branch(false));
}

pub proof fn lemma_twin_for(
    a: Net,
    b: Net,
    twin: Twin,
    f: Frame,
    g: Frame,
    init: Seq<char>,
    cond: Seq<char>,
    upd: Seq<char>,
)
    requires
        twins(a, b, twin),
        idle_in(twin),
        twin_frames(f, g, twin),
    ensures
        twins(
            a.open_for(f, init, cond, upd),
            b.open_for(g, init, cond, upd),
            twin.pushed().pushed().pushed().pushed().pushed(),
        ),
{
    let three = twin.pushed().pushed().pushed();
    let later = three.pushed().pushed();
    let c = a.next();
    let d = b.next();
    lemma_alike(a, b, twin);
    lemma_twin_three(a, b, twin, NodeLabel::Dummy, NodeLabel::Dummy, NodeLabel::Choice(cond));
    let a1 = a.node(NodeLabel::Dummy).node(NodeLabel::Dummy).node(NodeLabel::Choice(cond));
    let b1 = b.node(NodeLabel::Dummy).node(NodeLabel::Dummy).node(NodeLabel::Choice(cond));
    let a2 = a1.node(NodeLabel::Node(init));
    let b2 = b1.node(NodeLabel::Node(init));
    let a3 = a2.node(NodeLabel::Node(upd));
    let b3 = b2.node(NodeLabel::Node(upd));
    lemma_twin_node(a1, b1, three, NodeLabel::Node(init));
    assert(idle_in(three.pushed()));
    lemma_twin_node(a2, b2, three.pushed(), NodeLabel::Node(upd));
    lemma_twin_edge(a3, b3, later, f.source, c + 3, g.source, d + 3, EdgeType::Normal);
    let a4 = a3.normal(f.source, c + 3);
    let b4 = b3.normal(g.source, d + 3);
    lemma_twin_edge(a4, b4, later, c + 3, c + 2, d + 3, d + 2, EdgeType::Normal);
    let a5 = a4.normal(c + 3, c + 2);
    let b5 = b4.normal(d + 3, d + 2);
    lemma_twin_edge(a5, b5, later, c + 2, c, d + 2, d, EdgeType::Branch(true));
    let a6 = a5.edge(c + 2, c, EdgeType::Branch(true));
    let b6 = b5.edge(d + 2, d, EdgeType::Branch(true));
    lemma_twin_edge(a6, b6, later, c + 2, f.sink, d + 2, g.sink, EdgeType::Branch(false));
    let a7 = a6.edge(c + 2, f.sink, EdgeType::Branch(false));
    let b7 = b6.edge(d + 2, g.sink, EdgeType::Branch(false));
    lemma_twin_edge(a7, b7, later, c + 1, c + 4, d + 1, d + 4, EdgeType::Normal);
    let a8 = a7.normal(c + 1, c + 4);
    let b8 = b7.normal(d + 1, d + 4);
    lemma_twin_edge(a8, b8, later, c + 4, c + 2, d + 4, d + 2, EdgeType::Normal);
}

/// Joints for case labels.
proof fn lemma_twin_joints(a: Net, b: Net, twin: Twin, k: nat) -> (later: Twin)
    requires
        a.ok(),
        b.ok(),
        twins(a, b, twin),
        idle_in(twin),
    ensures
        twins(a.joints(k), b.joints(k), later),
        twin.kept_by(later),
        forall|j: int|
            a.next() <= j < a.next() + k ==> #[trigger] later.up[j] == b.next() + j - a.next(),
    decreases k,
{
    lemma_alike(a, b, twin);
    if k == 0 {
        twin
    } else {
        let before = lemma_twin_joints(a, b, twin, (k - 1) as nat);
        lemma_joints(a, (k - 1) as nat);
        lemma_joints(b, (k - 1) as nat);
        lemma_alike(a.joints((k - 1) as nat), b.joints((k - 1) as nat), before);
        lemma_twin_node(
            a.joints((k - 1) as nat),
            b.joints((k - 1) as nat),
            before,
            NodeLabel::Dummy,
        );
        before.pushed()
    }
}

/// The joints of equal case labels are equally far from the first one.
proof fn lemma_case_offsets(names: Seq<Seq<char>>, k: nat, base: int, other: int)
    requires
        k <= names.len(),
    ensures
        forall|name: Seq<char>| #[trigger]
            case_joints(names, k, other).contains_key(name) == case_joints(
                names,
                k,
                base,
            ).contains_key(name),
        forall|name: Seq<char>| #[trigger]
            case_joints(names, k, base).contains_key(name) ==> case_joints(names, k, other)[name]
                == case_joints(names, k, base)[name] + other - base,
    decreases k,
{
    if k > 0 {
        let before = case_joints(names, (k - 1) as nat, base);
        let before2 = case_joints(names, (k - 1) as nat, other);
        lemma_case_offsets(names, (k - 1) as nat, base, other);
        assert forall|name: Seq<char>| #[trigger]
            case_joints(names, k, other).contains_key(name) == case_joints(
            names,
            k,
            base,
        ).contains_key(name) by {
            assert(before2.contains_key(name) == before.contains_key(name));
        }
        assert forall|name: Seq<char>| #[trigger]
            case_joints(names, k, base).contains_key(name) implies case_joints(
            names,
            k,
            other,
        )[name] == case_joints(names, k, base)[name] + other - base by {
            if name != names[k - 1] {
                assert(before.contains_key(name));
            }
        }
    }
}

/// The tests of a switch.
proof fn lemma_twin_table(
    a: Net,
    b: Net,
    twin: Twin,
    cond: Seq<char>,
    names: Seq<Seq<char>>,
    k: int,
    joints_a: Map<Seq<char>, int>,
    joints_b: Map<Seq<char>, int>,
    other_a: int,
    other_b: int,
) -> (later: Twin)
    requires
        a.ok(),
        b.ok(),
        twins(a, b, twin),
        idle_in(twin),
        0 <= k < names.len(),
        twin.busy(other_b),
        twin.down[other_b] == other_a,
        forall|j: int| #![trigger names[j]]
            k <= j < names.len() ==> twin.busy(joints_b[names[j]])
                && twin.down[joints_b[names[j]]] == joints_a[names[j]],
    ensures
        twins(
            with_table(a, cond, names, k, joints_a, other_a),
            with_table(b, cond, names, k, joints_b, other_b),
            later,
        ),
        twin.kept_by(later),
        later.up.len() > a.next(),
        later.up[a.next()] == b.next(),
    decreases names.len() - k,
{
    lemma_alike(a, b, twin);
    let c = a.next();
    let d = b.next();
    let label = NodeLabel::Choice(case_test(cond, names[k]));
    let a1 = a.node(label);
    let b1 = b.node(label);
    let asked_a = a1.edge(c, joints_a[names[k]], EdgeType::Branch(true));
    let asked_b = b1.edge(d, joints_b[names[k]], EdgeType::Branch(true));
    let next = twin.pushed();
    lemma_twin_node(a, b, twin, label);
    lemma_twin_edge(
        a1,
        b1,
        next,
        c,
        joints_a[names[k]],
        d,
        joints_b[names[k]],
        EdgeType::Branch(true),
    );
    lemma_alike(asked_a, asked_b, next);
    lemma_down_range(a, b, twin);
    lemma_node(a, label);
    lemma_node(b, label);
    lemma_edge(a1, c, joints_a[names[k]], EdgeType::Branch(true));
    lemma_edge(b1, d, joints_b[names[k]], EdgeType::Branch(true));
    if k + 1 < names.len() {
        let later = lemma_twin_table(
            asked_a,
            asked_b,
            next,
            cond,
            names,
            k + 1,
            joints_a,
            joints_b,
            other_a,
            other_b,
        );
        let rest_a = with_table(asked_a, cond, names, k + 1, joints_a, other_a);
        let rest_b = with_table(asked_b, cond, names, k + 1, joints_b, other_b);
        lemma_alike(rest_a, rest_b, later);
        assert(later.busy(later.up[c + 1]));
        assert(later.up[c] == next.up[c]);
        lemma_twin_edge(rest_a, rest_b, later, c, c + 1, d, d + 1, EdgeType::Branch(false));
        assert(with_table(a, cond, names, k, joints_a, other_a) == rest_a.edge(
            c,
            c + 1,
            EdgeType::Branch(false),
        ));
        assert(with_table(b, cond, names, k, joints_b, other_b) == rest_b.edge(
            d,
            d + 1,
            EdgeType::Branch(false),
        ));
        later
    } else {
        lemma_twin_edge(asked_a, asked_b, next, c, other_a, d, other_b, EdgeType::Branch(false));
        assert(with_table(a, cond, names, k, joints_a, other_a) == asked_a.edge(
            c,
            other_a,
            EdgeType::Branch(false),
        ));
        assert(with_table(b, cond, names, k, joints_b, other_b) == asked_b.edge(
            d,
            other_b,
            EdgeType::Branch(false),
        ));
        next
    }
}

proof fn lemma_down_range(a: Net, b: Net, twin: Twin)
    requires
        twins(a, b, twin),
    ensures
        forall|x: int| #[trigger] twin.busy(x) ==> 0 <= twin.down[x] < a.next(),
{
    reveal(alike);
}

/// A switch up to its body.
pub proof fn lemma_twin_switch(
    a: Net,
    b: Net,
    twin: Twin,
    f: Frame,
    g: Frame,
    cond: Seq<char>,
    names: Seq<Seq<char>>,
) -> (later: Twin)
    requires
        a.ok(),
        b.ok(),
        twins(a, b, twin),
        idle_in(twin),
        twin_frames(f, g, twin),
        f.within(a),
        g.within(b),
        tested(names).len() > 0,
    ensures
        twins(a.open_switch(f, cond, names), b.open_switch(g, cond, names), later),
        twin.kept_by(later),
        later.up[a.open_switch(f, cond, names).next() - 2] == b.open_switch(g, cond, names).next()
            - 2,
        later.up[a.open_switch(f, cond, names).next() - 1] == b.open_switch(g, cond, names).next()
            - 1,
{
    let c = a.next();
    let d = b.next();
    let m = names.len();
    let cases_a = case_joints(names, m, c);
    let cases_b = case_joints(names, m, d);
    let other_a = a.otherwise(f, names);
    let other_b = b.otherwise(g, names);
    let a1 = a.joints(m);
    let b1 = b.joints(m);
    lemma_open_switch(a, f, cond, names);
    lemma_open_switch(b, g, cond, names);
    lemma_joints(a, m);
    lemma_joints(b, m);
    lemma_case_joints(names, m, c);
    lemma_case_joints(names, m, d);
    lemma_case_offsets(names, m, c, d);
    lemma_tested(names);
    let one = lemma_twin_joints(a, b, twin, m);
    lemma_alike(a1, b1, one);
    assert forall|name: Seq<char>| #[trigger] cases_a.contains_key(name) implies one.busy(
        cases_b[name],
    ) && one.down[cases_b[name]] == cases_a[name] && one.up[cases_a[name]] == cases_b[name] by {
        let v = cases_a[name];
        assert(one.up[v] == d + v - c);
        assert(one.busy(one.up[v]));
    }
    if names.contains("default"@) {
        let j = names.index_of("default"@);
        assert(cases_a.contains_key(names[j]));
    }
    assert forall|j: int| #![trigger tested(names)[j]]
        0 <= j < tested(names).len() implies one.busy(cases_b[tested(names)[j]])
        && one.down[cases_b[tested(names)[j]]] == cases_a[tested(names)[j]] by {
        let i = names.index_of(tested(names)[j]);
        assert(cases_a.contains_key(names[i]));
    }
    let two = lemma_twin_table(
        a1,
        b1,
        one,
        cond,
        tested(names),
        0,
        cases_a,
        cases_b,
        other_a,
        other_b,
    );
    let a2 = with_table(a1, cond, tested(names), 0, cases_a, other_a);
    let b2 = with_table(b1, cond, tested(names), 0, cases_b, other_b);
    lemma_alike(a2, b2, two);
    let a3 = Net { scopes: a.scopes.push(cases_a), ..a2 };
    let b3 = Net { scopes: b.scopes.push(cases_b), ..b2 };
    assert(twins(a3, b3, two)) by {
        reveal(same_names);
        assert(a2.scopes == a.scopes);
        assert(b2.scopes == b.scopes);
        assert forall|s: int, name: Seq<char>| 0 <= s < a3.scopes.len() implies (
        #[trigger] b3.scopes[s].contains_key(name) == a3.scopes[s].contains_key(name)) by {
            if s < a.scopes.len() {
                assert(b2.scopes[s].contains_key(name) == a2.scopes[s].contains_key(name));
            } else {
                assert(cases_b.contains_key(name) == cases_a.contains_key(name));
            }
        }
        assert forall|s: int, name: Seq<char>|
            0 <= s < a3.scopes.len() && #[trigger] a3.scopes[s].contains_key(name) implies 0
            <= a3.scopes[s][name] < two.up.len() && b3.scopes[s][name]
            == two.up[a3.scopes[s][name]] by {
            if s < a.scopes.len() {
                assert(a2.scopes[s].contains_key(name));
            } else {
                assert(cases_a.contains_key(name));
            }
        }
    }
    let start_a = c + m;
    let start_b = d + m;
    assert(two.busy(two.up[start_a]));
    assert(twin.up[f.source] == g.source && two.up[f.source] == one.up[f.source]);
    lemma_twin_edge(a3, b3, two, f.source, start_a, g.source, start_b, EdgeType::Normal);
    let a4 = a3.normal(f.source, start_a);
    let b4 = b3.normal(g.source, start_b);
    lemma_twin_node(a4, b4, two, NodeLabel::Dummy);
    let a5 = a4.node(NodeLabel::Dummy);
    let b5 = b4.node(NodeLabel::Dummy);
    assert(idle_in(two.pushed()));
    lemma_twin_node(a5, b5, two.pushed(), NodeLabel::Dummy);
    let later = two.pushed().pushed();
    let a6 = a5.node(NodeLabel::Dummy);
    let b6 = b5.node(NodeLabel::Dummy);
    assert(twin.down[g.sink] == f.sink && one.down[g.sink] == f.sink && two.down[g.sink] == f.sink);
    lemma_twin_edge(
        a6,
        b6,
        later,
        a2.next() + 1,
        f.sink,
        b2.next() + 1,
        g.sink,
        EdgeType::Normal,
    );
    assert(twin.kept_by(two));
    later
}

/// Statements that are drawn on twins leave twins behind.
pub proof fn twin_build(ast: &Ast, f: Frame, g: Frame, a: Net, b: Net, twin: Twin) -> (later: Twin)
    requires
        a.ok(),
        b.ok(),
        f.within(a),
        g.within(b),
        twins(a, b, twin),
        idle_in(twin),
        twin_frames(f, g, twin),
        build(ast, f, a).fault is None,
        build(ast, g, b).fault is None,
    ensures
        twins(build(ast, f, a).net, build(ast, g, b).net, later),
        twin.kept_by(later),
    decreases ast, 1nat,
{
    let labels = ast.labels();
    let m = a.labelled(labels, labels.len(), f.source);
    let n = b.labelled(labels, labels.len(), g.source);
    lemma_alike(a, b, twin);
    lemma_labelled(a, labels, labels.len(), f.source);
    lemma_labelled(b, labels, labels.len(), g.source);
    lemma_grows_numbers(a, m);
    lemma_grows_numbers(b, n);
    let mid = lemma_twin_labelled(a, b, twin, labels, labels.len(), f.source, g.source);
    lemma_frames_kept(f, g, twin, mid);
    assert(build(ast, f, a) == build_node(ast, f, m));
    assert(build(ast, g, b) == build_node(ast, g, n));
    twin_node(ast, f, g, m, n, mid)
}

pub proof fn twin_node(ast: &Ast, f: Frame, g: Frame, a: Net, b: Net, twin: Twin) -> (later: Twin)
    requires
        a.ok(),
        b.ok(),
        f.within(a),
        g.within(b),
        twins(a, b, twin),
        idle_in(twin),
        twin_frames(f, g, twin),
        build_node(ast, f, a).fault is None,
        build_node(ast, g, b).fault is None,
    ensures
        twins(build_node(ast, f, a).net, build_node(ast, g, b).net, later),
        twin.kept_by(later),
    decreases ast, 0nat,
{
    let c = a.next();
    let d = b.next();
    lemma_alike(a, b, twin);
    match &ast.node {
        AstNode::Dummy => twin,
        AstNode::Compound(v) => twin_block(v@, f, g, a, b, twin),
        AstNode::Stat(s) => {
            lemma_twin_step(a, b, twin, f, g, s@, f.sink, g.sink);
            twin.pushed()
        },
        AstNode::Continue(s) => {
            lemma_twin_step(a, b, twin, f, g, s@, f.continue_target->0, g.continue_target->0);
            twin.pushed()
        },
        AstNode::Break(s) => {
            lemma_twin_step(a, b, twin, f, g, s@, f.break_target->0, g.break_target->0);
            twin.pushed()
        },
        AstNode::Return(s) => {
            lemma_twin_step(a, b, twin, f, g, s@, f.end, g.end);
            twin.pushed()
        },
        AstNode::If { cond, body, otherwise } => {
            let mid = twin.pushed().pushed().pushed();
            let f1 = f.between(c + 1, c + 2);
            let g1 = g.between(d + 1, d + 2);
            let oa = a.open_if(f, cond@);
            let ob = b.open_if(g, cond@);
            lemma_open_if(a, f, cond@);
            lemma_open_if(b, g, cond@);
            lemma_twin_if(a, b, twin, f, g, cond@);
            assert(twin_frames(f1, g1, mid));
            let one = twin_build(&**body, f1, g1, oa, ob, mid);
            let fa = build(&**body, f1, oa).net;
            let fb = build(&**body, g1, ob).net;
            lemma_build(&**body, f1, oa);
            lemma_build(&**body, g1, ob);
            lemma_grows_numbers(oa, fa);
            lemma_grows_numbers(ob, fb);
            lemma_alike(fa, fb, one);
            lemma_frames_kept(f, g, twin, one);
            lemma_frames_kept(f1, g1, mid, one);
            assert(one.up[c] == mid.up[c]);
            match otherwise {
                Some(t) => {
                    let e = fa.next();
                    let k = fb.next();
                    lemma_open_else(fa, c);
                    lemma_open_else(fb, d);
                    lemma_twin_else(fa, fb, one, c, d);
                    let two = one.pushed();
                    let f2 = f.between(e, c + 2);
                    let g2 = g.between(k, d + 2);
                    assert(twin_frames(f2, g2, two));
                    twin_build(&**t, f2, g2, fa.open_else(c), fb.open_else(d), two)
                },
                None => {
                    lemma_twin_edge(fa, fb, one, c, f.sink, d, g.sink, EdgeType::Branch(false));
                    one
                },
            }
        },
        AstNode::While { cond, body } => {
            let mid = twin.pushed().pushed().pushed();
            let f1 = f.looping(c + 1, c + 2, c);
            let g1 = g.looping(d + 1, d + 2, d);
            lemma_open_while(a, f, cond@);
            lemma_open_while(b, g, cond@);
            lemma_twin_while(a, b, twin, f, g, cond@);
            assert(twin_frames(f1, g1, mid));
            twin_build(&**body, f1, g1, a.open_while(f, cond@), b.open_while(g, cond@), mid)
        },
        AstNode::DoWhile { cond, body } => {
            let mid = twin.pushed().pushed().pushed();
            let f1 = f.looping(c, c + 1, c + 2);
            let g1 = g.looping(d, d + 1, d + 2);
            lemma_open_do_while(a, f, cond@);
            lemma_open_do_while(b, g, cond@);
            lemma_twin_do_while(a, b, twin, f, g, cond@);
            assert(twin_frames(f1, g1, mid));
            twin_build(&**body, f1, g1, a.open_do_while(f, cond@), b.open_do_while(g, cond@), mid)
        },
        AstNode::For { init, cond, upd, body } => {
            let mid = twin.pushed().pushed().pushed().pushed().pushed();
            let f1 = f.looping(c, c + 1, c + 4);
            let g1 = g.looping(d, d + 1, d + 4);
            let oa = a.open_for(f, init@, cond@, upd@);
            let ob = b.open_for(g, init@, cond@, upd@);
            lemma_open_for(a, f, init@, cond@, upd@);
            lemma_open_for(b, g, init@, cond@, upd@);
            lemma_twin_for(a, b, twin, f, g, init@, cond@, upd@);
            assert(twin_frames(f1, g1, mid));
            twin_build(&**body, f1, g1, oa, ob, mid)
        },
        AstNode::Switch { cond, body, cases } => {
            let names = texts(cases@);
            let oa = a.open_switch(f, cond@, names);
            let ob = b.open_switch(g, cond@, names);
            let p = oa.next() - 2;
            let q = ob.next() - 2;
            let f1 = f.switching(p, p + 1);
            let g1 = g.switching(q, q + 1);
            assert(build_node(ast, f, a) == build_switch(cond@, *body, names, f, a));
            assert(build_node(ast, g, b) == build_switch(cond@, *body, names, g, b));
            lemma_open_switch(a, f, cond@, names);
            lemma_open_switch(b, g, cond@, names);
            let mid = lemma_twin_switch(a, b, twin, f, g, cond@, names);
            lemma_alike(oa, ob, mid);
            lemma_frames_kept(f, g, twin, mid);
            assert(mid.busy(mid.up[p + 1]));
            assert(twin_frames(f1, g1, mid));
            let later = twin_build(&**body, f1, g1, oa, ob, mid);
            let fa = build(&**body, f1, oa).net;
            let fb = build(&**body, g1, ob).net;
            lemma_build(&**body, f1, oa);
            lemma_build(&**body, g1, ob);
            lemma_names_leave(fa.scopes, fb.scopes, later);
            later
        },
        AstNode::Goto(name) => {
            let later = lemma_twin_bind(a, b, twin, name@);
            lemma_frames_kept(f, g, twin, later);
            lemma_alike(a.bind(name@), b.bind(name@), later);
            assert(later.busy(later.up[a.joint(name@)]));
            lemma_twin_edge(
                a.bind(name@),
                b.bind(name@),
                later,
                f.source,
                a.joint(name@),
                g.source,
                b.joint(name@),
                EdgeType::Normal,
            );
            later
        },
    }
}

proof fn twin_block(v: Seq<Rc<Ast>>, f: Frame, g: Frame, a: Net, b: Net, twin: Twin) -> (later:
    Twin)
    requires
        a.ok(),
        b.ok(),
        f.within(a),
        g.within(b),
        twins(a, b, twin),
        idle_in(twin),
        twin_frames(f, g, twin),
        build_block(v, f, a).fault is None,
        build_block(v, g, b).fault is None,
    ensures
        twins(build_block(v, f, a).net, build_block(v, g, b).net, later),
        twin.kept_by(later),
    decreases v, v.len() + 1,
{
    let c = a.next();
    let d = b.next();
    let oa = a.open_block(f);
    let ob = b.open_block(g);
    let mid = twin.pushed().pushed();
    lemma_alike(a, b, twin);
    lemma_open_block(a, f);
    lemma_open_block(b, g);
    lemma_twin_block(a, b, twin, f, g);
    assert(idle_in(mid));
    assert(mid.busy(d) && mid.busy(d + 1) && mid.busy(g.sink)) by {
        assert(!twin.idle.contains(d));
        assert(!twin.idle.contains(d + 1));
    }
    if v.len() == 0 {
        lemma_twin_edge(oa, ob, mid, c, c + 1, d, d + 1, EdgeType::Normal);
        let oa1 = oa.normal(c, c + 1);
        let ob1 = ob.normal(d, d + 1);
        lemma_twin_edge(oa1, ob1, mid, c + 1, f.sink, d + 1, g.sink, EdgeType::Normal);
        mid
    } else {
        lemma_frames_kept(f, g, twin, mid);
        let later = twin_chain(v, v.len(), f, g, oa, ob, c, d, mid);
        let ca = build_chain(v, v.len(), f, oa, c);
        let cb = build_chain(v, v.len(), g, ob, d);
        lemma_frames_kept(f, g, mid, later);
        lemma_build_chain(v, v.len(), f, oa, c);
        lemma_alike(ca.built.net, cb.built.net, later);
        lemma_twin_edge(
            ca.built.net,
            cb.built.net,
            later,
            ca.sink,
            f.sink,
            cb.sink,
            g.sink,
            EdgeType::Normal,
        );
        later
    }
}

proof fn twin_chain(
    v: Seq<Rc<Ast>>,
    k: nat,
    f: Frame,
    g: Frame,
    a: Net,
    b: Net,
    c: int,
    d: int,
    twin: Twin,
) -> (later: Twin)
    requires
        a.ok(),
        b.ok(),
        f.within(a),
        g.within(b),
        twins(a, b, twin),
        idle_in(twin),
        twin_frames(f, g, twin),
        0 <= c,
        c + 1 < a.next(),
        0 <= d,
        d + 1 < b.next(),
        twin.up[c] == d,
        twin.up[c + 1] == d + 1,
        build_chain(v, k, f, a, c).built.fault is None,
        build_chain(v, k, g, b, d).built.fault is None,
    ensures
        twins(build_chain(v, k, f, a, c).built.net, build_chain(v, k, g, b, d).built.net, later),
        twin.kept_by(later),
        later.up[build_chain(v, k, f, a, c).source] == build_chain(v, k, g, b, d).source,
        later.up[build_chain(v, k, f, a, c).sink] == build_chain(v, k, g, b, d).sink,
    decreases v, k,
{
    lemma_alike(a, b, twin);
    if k == 0 || k > v.len() {
        twin
    } else {
        let before = twin_chain(v, (k - 1) as nat, f, g, a, b, c, d, twin);
        let ca = build_chain(v, (k - 1) as nat, f, a, c);
        let cb = build_chain(v, (k - 1) as nat, g, b, d);
        lemma_build_chain(v, (k - 1) as nat, f, a, c);
        lemma_build_chain(v, (k - 1) as nat, g, b, d);
        let later = twin_statement(
            &*v[k - 1],
            f,
            g,
            twin,
            ca.built.net,
            cb.built.net,
            ca.source,
            cb.source,
            ca.sink,
            cb.sink,
            a,
            b,
            before,
        );
        let na = build(&*v[k - 1], f.between(ca.source, ca.sink), ca.built.net).net;
        let nb = build(&*v[k - 1], g.between(cb.source, cb.sink), cb.built.net).net;
        lemma_alike(ca.built.net, cb.built.net, before);
        assert(later.up[ca.sink] == before.up[ca.sink]);
        assert(later.up[ca.source] == before.up[ca.source]);
        if k == v.len() {
            later
        } else {
            lemma_alike(na, nb, later);
            lemma_twin_node(na, nb, later, NodeLabel::Dummy);
            later.pushed()
        }
    }
}

/// One statement of a block.
pub proof fn twin_statement(
    ast: &Ast,
    f: Frame,
    g: Frame,
    first: Twin,
    a: Net,
    b: Net,
    source_a: int,
    source_b: int,
    sink_a: int,
    sink_b: int,
    start_a: Net,
    start_b: Net,
    twin: Twin,
) -> (later: Twin)
    requires
        a.ok(),
        b.ok(),
        f.within(start_a),
        g.within(start_b),
        start_a.grows_to(a),
        start_b.grows_to(b),
        twin_frames(f, g, first),
        first.kept_by(twin),
        twins(a, b, twin),
        idle_in(twin),
        0 <= source_a < a.next(),
        0 <= sink_a < a.next(),
        0 <= source_b < b.next(),
        0 <= sink_b < b.next(),
        twin.up[source_a] == source_b,
        twin.up[sink_a] == sink_b,
        build(ast, f.between(source_a, sink_a), a).fault is None,
        build(ast, g.between(source_b, sink_b), b).fault is None,
    ensures
        twins(
            build(ast, f.between(source_a, sink_a), a).net,
            build(ast, g.between(source_b, sink_b), b).net,
            later,
        ),
        twin.kept_by(later),
    decreases ast, 2nat,
{
    let f1 = f.between(source_a, sink_a);
    let g1 = g.between(source_b, sink_b);
    lemma_alike(a, b, twin);
    lemma_grows_numbers(start_a, a);
    lemma_grows_numbers(start_b, b);
    lemma_frames_kept(f, g, first, twin);
    assert(twin.busy(twin.up[sink_a]));
    assert(twin_frames(f1, g1, twin));
    twin_build(ast, f1, g1, a, b, twin)
}

impl Twin {
    /// With one more node on the side with more joints, which does not stand for anything yet.
    pub open spec fn spared(self) -> Twin {
        Twin {
            down: self.down.push(0),
            up: self.up,
            order: self.order.push(0),
            span: self.span,
            idle: self.idle.insert(self.down.len() as int),
        }
    }

    /// With an idle node that control leaves node `i` by in the place of the one before.
    pub open spec fn hopped(self, i: int, x: int) -> Twin {
        Twin {
            down: self.down.update(x, i),
            up: self.up.update(i, x),
            order: self.order.update(x, self.order[self.up[i]] + 1),
            span: self.span + 1,
            idle: self.idle.remove(x),
        }
    }

    /// With an idle node that stands for node `i` in the place of the one before, which gets idle.
    pub open spec fn swapped(self, i: int, x: int) -> Twin {
        Twin {
            down: self.down.update(x, i),
            up: self.up.update(i, x),
            order: self.order,
            span: self.span,
            idle: self.idle.remove(x).insert(self.up[i]),
        }
    }
}

/// Whether node `i` is a joint that leads nowhere yet and is not the joint of a label.
pub open spec fn waits(net: Net, i: int) -> bool {
    &&& 0 <= i < net.next()
    &&& net.graph.nodes[i] == Some(NodeLabel::Dummy)
    &&& net.graph.out[i].len() == 0
    &&& !net.held(i)
}

/// An idle joint may be added on one side.
pub proof fn lemma_twin_spare(a: Net, b: Net, twin: Twin)
    requires
        twins(a, b, twin),
        idle_in(twin),
    ensures
        twins(a, b.node(NodeLabel::Dummy), twin.spared()),
        idle_in(twin.spared()),
{
    reveal(alike);
    reveal(same_names);
    let later = twin.spared();
    let b2 = b.graph.add_node(NodeLabel::Dummy);
    assert forall|i: int| 0 <= i < a.next() implies {
        &&& later.busy(#[trigger] later.up[i])
        &&& later.down[later.up[i]] == i
        &&& b2.nodes[later.up[i]] == a.graph.nodes[i]
        &&& mirrors(a.graph.out[i], b2.out[later.up[i]], later)
    } by {
        assert(twin.busy(twin.up[i]));
        assert(forall|x: int| #[trigger] twin.busy(x) ==> later.busy(x) && later.down[x]
            == twin.down[x]);
    }
    assert forall|x: int| #[trigger] later.busy(x) implies 0 <= later.down[x] < a.next() && (exits(
        later,
        x,
    ) || relays(b2, a.graph, later, x)) by {
        assert(twin.busy(x));
        if !exits(twin, x) {
            assert(relays(b.graph, a.graph, twin, x));
            assert(twin.busy(b.graph.out[x][0].node));
        }
    }
}

/// Where a joint waits, an idle one may be put behind the one that stands for it.
pub proof fn lemma_twin_hop(a: Net, b: Net, twin: Twin, i: int, x: int)
    requires
        twins(a, b, twin),
        idle_in(twin),
        waits(a, i),
        twin.idle.contains(x),
        0 <= x < b.next(),
        b.graph.nodes[x] == Some(NodeLabel::Dummy),
        b.graph.out[x].len() == 0,
    ensures
        twins(a, b.normal(twin.up[i], x), twin.hopped(i, x)),
        idle_in(twin.hopped(i, x)),
{
    reveal(alike);
    let e = twin.up[i];
    let later = twin.hopped(i, x);
    let b2 = b.graph.add_edge(e, x, EdgeType::Normal);
    assert(twin.busy(e));
    assert(e != x);
    assert(forall|y: int| #[trigger] twin.busy(y) ==> later.busy(y) && later.down[y]
        == twin.down[y]);
    assert forall|k: int| 0 <= k < a.next() implies {
        &&& later.busy(#[trigger] later.up[k])
        &&& later.down[later.up[k]] == k
        &&& b2.nodes[later.up[k]] == a.graph.nodes[k]
        &&& mirrors(a.graph.out[k], b2.out[later.up[k]], later)
    } by {
        if k != i {
            assert(twin.busy(twin.up[k]));
            assert(twin.up[k] != e);
            assert(b2.out[twin.up[k]] == b.graph.out[twin.up[k]]);
        }
    }
    assert forall|y: int| #[trigger] later.busy(y) implies 0 <= later.down[y] < a.next() && (exits(
        later,
        y,
    ) || relays(b2, a.graph, later, y)) by {
        if y != x {
            assert(twin.busy(y));
            if y == e {
                assert(b2.out[e][0].node == x);
                assert(relays(b2, a.graph, later, y));
            } else if !exits(twin, y) {
                assert(relays(b.graph, a.graph, twin, y));
                assert(twin.busy(b.graph.out[y][0].node));
                assert(relays(b2, a.graph, later, y));
            } else {
                assert(twin.down[y] != i);
            }
        }
    }
    lemma_names_moved(a, b, twin, later, i);
}

/// Labels that do not stand for node `i` stand for the same nodes.
proof fn lemma_names_moved(a: Net, b: Net, twin: Twin, later: Twin, i: int)
    requires
        same_names(a.scopes, b.scopes, twin),
        !a.held(i),
        later.up.len() == twin.up.len(),
        forall|k: int| 0 <= k < twin.up.len() && k != i ==> #[trigger] later.up[k] == twin.up[k],
    ensures
        same_names(a.scopes, b.scopes, later),
{
    reveal(same_names);
    assert forall|s: int, name: Seq<char>|
        0 <= s < a.scopes.len() && #[trigger] a.scopes[s].contains_key(name) implies 0
        <= a.scopes[s][name] < later.up.len() && b.scopes[s][name]
        == later.up[a.scopes[s][name]] by {
        assert(a.held(a.scopes[s][name]));
    }
}

/// Where a joint waits that nothing leads to, an idle one may take the place of the one that
/// stands for it.
pub proof fn lemma_twin_swap(a: Net, b: Net, twin: Twin, i: int, x: int)
    requires
        twins(a, b, twin),
        idle_in(twin),
        waits(a, i),
        twin.idle.contains(x),
        0 <= x < b.next(),
        b.graph.nodes[x] == Some(NodeLabel::Dummy),
        b.graph.out[x].len() == 0,
        forall|y: int, j: int|
            0 <= y < b.next() && 0 <= j < b.graph.out[y].len() ==> (
            #[trigger] b.graph.out[y][j]).node != twin.up[i],
    ensures
        twins(a, b, twin.swapped(i, x)),
        idle_in(twin.swapped(i, x)),
        b.graph.nodes[twin.up[i]] == Some(NodeLabel::Dummy),
        b.graph.out[twin.up[i]].len() == 0,
{
    reveal(alike);
    let e = twin.up[i];
    let later = twin.swapped(i, x);
    assert(twin.busy(e));
    assert(e != x);
    assert(forall|y: int| #[trigger] twin.busy(y) && y != e ==> later.busy(y) && later.down[y]
        == twin.down[y]);
    assert forall|k: int| 0 <= k < a.next() implies {
        &&& later.busy(#[trigger] later.up[k])
        &&& later.down[later.up[k]] == k
        &&& b.graph.nodes[later.up[k]] == a.graph.nodes[k]
        &&& mirrors(a.graph.out[k], b.graph.out[later.up[k]], later)
    } by {
        if k != i {
            assert(twin.busy(twin.up[k]));
            assert(twin.up[k] != e);
            let one = a.graph.out[k];
            let other = b.graph.out[twin.up[k]];
            assert forall|j: int| 0 <= j < one.len() implies {
                &&& (#[trigger] other[j]).kind == one[j].kind
                &&& later.busy(other[j].node)
                &&& later.down[other[j].node] == one[j].node
            } by {
                assert(b.graph.out[twin.up[k]][j].node != e);
                assert(twin.busy(other[j].node));
            }
        }
    }
    assert forall|y: int| #[trigger] later.busy(y) implies 0 <= later.down[y] < a.next() && (exits(
        later,
        y,
    ) || relays(b.graph, a.graph, later, y)) by {
        if y != x {
            assert(twin.busy(y));
            assert(y != e);
            if !exits(twin, y) {
                assert(relays(b.graph, a.graph, twin, y));
                assert(b.graph.out[y][0].node != e);
                assert(twin.busy(b.graph.out[y][0].node));
                assert(relays(b.graph, a.graph, later, y));
            } else {
                assert(twin.down[y] != i);
            }
        }
    }
    lemma_names_moved(a, b, twin, later, i);
}

} // verus!
