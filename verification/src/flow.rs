//! What the flowchart of a syntax tree is, before its joints are taken out.

use crate::ast::{texts, Ast, AstNode};
use crate::model::GraphView;
use crate::node::{EdgeType, NodeLabel};
use std::ops::Range;
use std::rc::Rc;
use vstd::prelude::*;

verus! {

/// Where control comes from and where it goes to, around one statement.
pub struct Frame {
    /// The node that control enters the statement from.
    pub source: int,
    /// The node that control leaves the statement to.
    pub sink: int,
    /// The node that `break` jumps to.
    pub break_target: Option<int>,
    /// The node that `continue` jumps to.
    pub continue_target: Option<int>,
    /// The node that `return` jumps to.
    pub end: int,
}

/// A chart that is being drawn, and the joints that stand for its jump labels.
#[verifier::ext_equal]
pub struct Net {
    pub graph: GraphView,
    /// The labels in scope, from the outermost scope to the innermost one.
    pub scopes: Seq<Map<Seq<char>, int>>,
}

/// Why a tree has no chart.
pub enum Fault {
    /// A placeholder stands where a statement should.
    DummyNode(Range<usize>),
    /// `break` outside of a loop or switch.
    Break(Range<usize>),
    /// `continue` outside of a loop.
    Continue(Range<usize>),
    /// A switch without a case other than `default`.
    NoCase,
}

/// A chart drawn up to the first fault, if there is one.
pub struct Built {
    pub net: Net,
    pub fault: Option<Fault>,
    /// The frame of the statement with the fault, if there is one.
    pub stop: Option<Frame>,
}

/// A block of statements of which some have been drawn.
pub struct Chain {
    pub built: Built,
    pub source: int,
    pub sink: int,
}

/// The innermost meaning of a label.
pub open spec fn lookup(scopes: Seq<Map<Seq<char>, int>>, name: Seq<char>) -> Option<int>
    decreases scopes.len(),
{
    if scopes.len() == 0 {
        None
    } else if scopes.last().contains_key(name) {
        Some(scopes.last()[name])
    } else {
        lookup(scopes.drop_last(), name)
    }
}

/// The joints of the first `k` case labels, when the first joint is node `base`; of equal labels
/// the last one counts.
pub open spec fn case_joints(names: Seq<Seq<char>>, k: nat, base: int) -> Map<Seq<char>, int>
    decreases k,
{
    if k == 0 {
        Map::empty()
    } else {
        case_joints(names, (k - 1) as nat, base).insert(names[k - 1], base + k - 1)
    }
}

/// The case labels that are tested one after the other: all but `default`.
pub open spec fn tested(names: Seq<Seq<char>>) -> Seq<Seq<char>> {
    names.filter(|name: Seq<char>| name != "default"@)
}

/// The text of the test for a case.
pub open spec fn case_test(cond: Seq<char>, name: Seq<char>) -> Seq<char> {
    cond + " == "@ + name
}

/// The tests of a switch from the `k`th on: each leads to its case's joint or to the next test,
/// the last one to `otherwise`.
pub open spec fn jump_table(
    graph: GraphView,
    cond: Seq<char>,
    names: Seq<Seq<char>>,
    k: int,
    joints: Map<Seq<char>, int>,
    otherwise: int,
) -> GraphView
    decreases names.len() - k,
{
    let cur = graph.nodes.len() as int;
    let asked = graph.add_node(NodeLabel::Choice(case_test(cond, names[k]))).add_edge(
        cur,
        joints[names[k]],
        EdgeType::Branch(true),
    );
    if k + 1 < names.len() {
        jump_table(asked, cond, names, k + 1, joints, otherwise).add_edge(
            cur,
            cur + 1,
            EdgeType::Branch(false),
        )
    } else {
        asked.add_edge(cur, otherwise, EdgeType::Branch(false))
    }
}

impl Net {
    /// The number that the next node gets.
    pub open spec fn next(self) -> int {
        self.graph.nodes.len() as int
    }

    pub open spec fn node(self, label: NodeLabel) -> Net {
        Net { graph: self.graph.add_node(label), ..self }
    }

    pub open spec fn edge(self, a: int, b: int, kind: EdgeType) -> Net {
        Net { graph: self.graph.add_edge(a, b, kind), ..self }
    }

    pub open spec fn normal(self, a: int, b: int) -> Net {
        self.edge(a, b, EdgeType::Normal)
    }

    /// The joint of a label: the one it has, or the node that [`Net::bind`] makes.
    pub open spec fn joint(self, name: Seq<char>) -> int {
        match lookup(self.scopes, name) {
            Some(v) => v,
            None => self.next(),
        }
    }

    /// Gives a label that has no joint one, in the outermost scope.
    pub open spec fn bind(self, name: Seq<char>) -> Net {
        match lookup(self.scopes, name) {
            Some(v) => self,
            None => Net {
                graph: self.graph.add_node(NodeLabel::Dummy),
                scopes: self.scopes.update(0, self.scopes[0].insert(name, self.next())),
            },
        }
    }

    /// Leads the joints of the first `k` labels to the statement that bears them.
    pub open spec fn labelled(self, names: Seq<Seq<char>>, k: nat, source: int) -> Net
        decreases k,
    {
        if k == 0 {
            self
        } else {
            let before = self.labelled(names, (k - 1) as nat, source);
            before.bind(names[k - 1]).normal(before.joint(names[k - 1]), source)
        }
    }

    /// `source -> text`
    pub open spec fn enter(self, frame: Frame, text: Seq<char>) -> Net {
        self.node(NodeLabel::Node(text)).normal(frame.source, self.next())
    }

    /// `source -> text -> target`
    pub open spec fn step(self, frame: Frame, text: Seq<char>, target: int) -> Net {
        self.enter(frame, text).normal(self.next(), target)
    }

    /// `source -> joint`
    pub open spec fn jump(self, frame: Frame, name: Seq<char>) -> Net {
        self.bind(name).normal(frame.source, self.joint(name))
    }

    /// `source -> c`, where the first statement runs from `c` to `c + 1`
    pub open spec fn open_block(self, frame: Frame) -> Net {
        let c = self.next();
        self.node(NodeLabel::Dummy).node(NodeLabel::Dummy).normal(frame.source, c)
    }

    /// `source -> cond -Y-> c + 1`, and `c + 2 -> sink`
    pub open spec fn open_if(self, frame: Frame, cond: Seq<char>) -> Net {
        let c = self.next();
        self.node(NodeLabel::Choice(cond)).node(NodeLabel::Dummy).node(NodeLabel::Dummy).normal(
            frame.source,
            c,
        ).edge(c, c + 1, EdgeType::Branch(true)).normal(c + 2, frame.sink)
    }

    /// `cond -N-> e`, where `e` is the joint that the second branch starts from
    pub open spec fn open_else(self, cond: int) -> Net {
        self.node(NodeLabel::Dummy).edge(cond, self.next(), EdgeType::Branch(false))
    }

    /// `source -> cond -Y-> c + 1`, `cond -N-> sink`, and `c + 2 -> cond`
    pub open spec fn open_while(self, frame: Frame, cond: Seq<char>) -> Net {
        let c = self.next();
        self.node(NodeLabel::Choice(cond)).node(NodeLabel::Dummy).node(NodeLabel::Dummy).normal(
            frame.source,
            c,
        ).edge(c, c + 1, EdgeType::Branch(true)).edge(c, frame.sink, EdgeType::Branch(false)).normal(
            c + 2,
            c,
        )
    }

    /// `source -> c`, and `c + 1 -> cond -Y-> c`, `cond -N-> sink`
    pub open spec fn open_do_while(self, frame: Frame, cond: Seq<char>) -> Net {
        let c = self.next();
        self.node(NodeLabel::Dummy).node(NodeLabel::Dummy).node(NodeLabel::Choice(cond)).normal(
            frame.source,
            c,
        ).normal(c + 1, c + 2).edge(c + 2, c, EdgeType::Branch(true)).edge(
            c + 2,
            frame.sink,
            EdgeType::Branch(false),
        )
    }

    /// `source -> init -> cond -Y-> c`, `cond -N-> sink`, and `c + 1 -> upd -> cond`
    pub open spec fn open_for(
        self,
        frame: Frame,
        init: Seq<char>,
        cond: Seq<char>,
        upd: Seq<char>,
    ) -> Net {
        let c = self.next();
        self.node(NodeLabel::Dummy).node(NodeLabel::Dummy).node(NodeLabel::Choice(cond)).node(
            NodeLabel::Node(init),
        ).node(NodeLabel::Node(upd)).normal(frame.source, c + 3).normal(c + 3, c + 2).edge(
            c + 2,
            c,
            EdgeType::Branch(true),
        ).edge(c + 2, frame.sink, EdgeType::Branch(false)).normal(c + 1, c + 4).normal(c + 4, c + 2)
    }

    /// One joint for each of `k` case labels.
    pub open spec fn joints(self, k: nat) -> Net
        decreases k,
    {
        if k == 0 {
            self
        } else {
            self.joints((k - 1) as nat).node(NodeLabel::Dummy)
        }
    }

    /// Where a switch goes when no test holds.
    pub open spec fn otherwise(self, frame: Frame, names: Seq<Seq<char>>) -> int {
        if names.contains("default"@) {
            case_joints(names, names.len(), self.next())["default"@]
        } else {
            frame.sink
        }
    }

    /// `source -> tests`, and `d + 1 -> sink`, where the body runs from `d` to `d + 1` with the
    /// case labels in scope
    pub open spec fn open_switch(self, frame: Frame, cond: Seq<char>, names: Seq<Seq<char>>) -> Net {
        let cases = case_joints(names, names.len(), self.next());
        let graph = jump_table(
            self.joints(names.len()).graph,
            cond,
            tested(names),
            0,
            cases,
            self.otherwise(frame, names),
        );
        let d = graph.nodes.len() as int;
        Net { graph, scopes: self.scopes.push(cases) }.normal(
            frame.source,
            self.next() + names.len(),
        ).node(NodeLabel::Dummy).node(NodeLabel::Dummy).normal(d + 1, frame.sink)
    }

    /// The net without the innermost scope.
    pub open spec fn leave(self) -> Net {
        Net { scopes: self.scopes.drop_last(), ..self }
    }
}

impl Frame {
    /// The frame of a statement that runs from `source` to `sink`.
    pub open spec fn between(self, source: int, sink: int) -> Frame {
        Frame { source, sink, ..self }
    }

    /// The frame of a loop's body.
    pub open spec fn looping(self, source: int, sink: int, continue_target: int) -> Frame {
        Frame {
            source,
            sink,
            break_target: Some(self.sink),
            continue_target: Some(continue_target),
            end: self.end,
        }
    }

    /// The frame of a switch's body.
    pub open spec fn switching(self, source: int, sink: int) -> Frame {
        Frame {
            source,
            sink,
            break_target: Some(self.sink),
            continue_target: None,
            end: self.end,
        }
    }
}

impl Built {
    pub open spec fn done(net: Net) -> Built {
        Built { net, fault: None, stop: None }
    }

    pub open spec fn failed(net: Net, fault: Fault, frame: Frame) -> Built {
        Built { net, fault: Some(fault), stop: Some(frame) }
    }

    /// The frame at hand after a statement in `frame` is drawn: that frame again, or the one that
    /// the drawing stopped in.
    pub open spec fn leaves_in(self, frame: Frame) -> Frame {
        if self.fault is Some {
            self.stop->0
        } else {
            frame
        }
    }
}

/// Draws one statement with its labels inside of a frame.
pub open spec fn build(ast: &Ast, frame: Frame, net: Net) -> Built
    decreases ast, 1nat,
{
    build_node(ast, frame, net.labelled(ast.labels(), ast.labels().len(), frame.source))
}

/// Draws one statement inside of a frame.
pub open spec fn build_node(ast: &Ast, frame: Frame, n: Net) -> Built
    decreases ast, 0nat,
{
    let c = n.next();
    match &ast.node {
        AstNode::Dummy => Built::failed(n, Fault::DummyNode(ast.range), frame),
        AstNode::Compound(v) => build_block(v@, frame, n),
        AstNode::Stat(s) => Built::done(n.step(frame, s@, frame.sink)),
        AstNode::Continue(s) => match frame.continue_target {
            Some(target) => Built::done(n.step(frame, s@, target)),
            None => Built::failed(n.enter(frame, s@), Fault::Continue(ast.range), frame),
        },
        AstNode::Break(s) => match frame.break_target {
            Some(target) => Built::done(n.step(frame, s@, target)),
            None => Built::failed(n.enter(frame, s@), Fault::Break(ast.range), frame),
        },
        AstNode::Return(s) => Built::done(n.step(frame, s@, frame.end)),
        AstNode::If { cond, body, otherwise } => {
            let first = build(&**body, frame.between(c + 1, c + 2), n.open_if(frame, cond@));
            if first.fault is Some {
                first
            } else {
                match otherwise {
                    Some(t) => build(
                        &**t,
                        frame.between(first.net.next(), c + 2),
                        first.net.open_else(c),
                    ),
                    None => Built::done(first.net.edge(c, frame.sink, EdgeType::Branch(false))),
                }
            }
        },
        AstNode::While { cond, body } => build(
            &**body,
            frame.looping(c + 1, c + 2, c),
            n.open_while(frame, cond@),
        ),
        AstNode::DoWhile { cond, body } => build(
            &**body,
            frame.looping(c, c + 1, c + 2),
            n.open_do_while(frame, cond@),
        ),
        AstNode::For { init, cond, upd, body } => build(
            &**body,
            frame.looping(c, c + 1, c + 4),
            n.open_for(frame, init@, cond@, upd@),
        ),
        AstNode::Switch { cond, body, cases } => build_switch(cond@, *body, texts(cases@), frame, n),
        AstNode::Goto(name) => Built::done(n.jump(frame, name@)),
    }
}

/// Draws a switch.
pub open spec fn build_switch(
    cond: Seq<char>,
    body: Rc<Ast>,
    cases: Seq<Seq<char>>,
    frame: Frame,
    n: Net,
) -> Built
    decreases body, 2nat,
{
    if tested(cases).len() == 0 {
        Built::failed(n.joints(cases.len()), Fault::NoCase, frame)
    } else {
        let opened = n.open_switch(frame, cond, cases);
        let d = opened.next() - 2;
        let inner = build(&*body, frame.switching(d, d + 1), opened);
        if inner.fault is Some {
            inner
        } else {
            Built::done(inner.net.leave())
        }
    }
}

/// Draws a block: `source -> c -> ... -> sink`.
pub open spec fn build_block(v: Seq<Rc<Ast>>, frame: Frame, n: Net) -> Built
    decreases v, v.len() + 1,
{
    let c = n.next();
    let opened = n.open_block(frame);
    if v.len() == 0 {
        Built::done(opened.normal(c, c + 1).normal(c + 1, frame.sink))
    } else {
        let chain = build_chain(v, v.len(), frame, opened, c);
        if chain.built.fault is Some {
            chain.built
        } else {
            Built::done(chain.built.net.normal(chain.sink, frame.sink))
        }
    }
}

/// Draws the first `k` statements of a block that starts at node `c`; after each but the last one
/// of the block a new joint follows.
pub open spec fn build_chain(v: Seq<Rc<Ast>>, k: nat, frame: Frame, net: Net, c: int) -> Chain
    decreases v, k,
{
    if k == 0 || k > v.len() {
        Chain { built: Built::done(net), source: c, sink: c + 1 }
    } else {
        let before = build_chain(v, (k - 1) as nat, frame, net, c);
        if before.built.fault is Some {
            before
        } else {
            let built = build(
                &*v[k - 1],
                frame.between(before.source, before.sink),
                before.built.net,
            );
            if built.fault is Some || k == v.len() {
                Chain { built, ..before }
            } else {
                Chain {
                    built: Built::done(built.net.node(NodeLabel::Dummy)),
                    source: before.sink,
                    sink: built.net.next(),
                }
            }
        }
    }
}

/// The net that every chart starts from: `Begin` is node 0 and `End` is node 1.
pub open spec fn blank() -> Net {
    Net {
        graph: GraphView::empty().add_node(NodeLabel::Begin).add_node(NodeLabel::End),
        scopes: seq![Map::empty()],
    }
}

/// The frame of a whole program: it runs from `Begin` to `End`.
pub open spec fn outermost() -> Frame {
    Frame { source: 0, sink: 1, break_target: None, continue_target: None, end: 1 }
}

/// The chart of a program with all its joints.
pub open spec fn draft(ast: &Ast) -> Built {
    build(ast, outermost(), blank())
}

} // verus!
