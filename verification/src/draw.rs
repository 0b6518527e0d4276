//! Draws the flowchart of a syntax tree, joints and all.

use crate::ast::{texts, Ast, AstNode};
use crate::cases::{distinct, enter_case, has_default, joint_of, tested_cases};
use crate::error::Error;
use crate::flow::{
    blank, build, build_block, build_chain, build_node, build_switch, case_joints, outermost,
    tested, Fault, Frame, Net,
};
use crate::growth::{
    lemma_bind, lemma_build, lemma_build_chain, lemma_build_node, lemma_case_joints,
    lemma_chain_mono, lemma_edge, lemma_grows_numbers, lemma_joints, lemma_jump, lemma_jump_table,
    lemma_labelled, lemma_labelled_mono, lemma_node, lemma_open_block, lemma_open_do_while,
    lemma_open_else, lemma_open_for, lemma_open_if, lemma_open_switch, lemma_open_while,
    lemma_scope, lemma_step, lemma_tested, with_table,
};
use crate::model::GraphView;
use crate::node::{EdgeType, GraphNodeType, NodeLabel};
use crate::scopes::{
    get, insert_at, new_child_with, new_scopes, remove_child, scope_maps, table_map, Scopes,
};
use crate::store::{add_edge, add_node, graph_view, new_graph, Graph};
use std::ops::Range;
use std::rc::Rc;
use vstd::prelude::*;

verus! {

/// The chart that is being drawn, and where the statement at hand fits in.
pub(crate) struct GraphContext {
    pub graph: Graph,
    pub break_target: Option<u32>,
    pub continue_target: Option<u32>,
    pub goto_target: Scopes,
    pub global_end: u32,
    pub local_source: u32,
    pub local_sink: u32,
}

impl GraphContext {
    /// The chart and the labels so far.
    pub(crate) open spec fn net(&self) -> Net {
        Net { graph: graph_view(self.graph), scopes: scope_maps(self.goto_target) }
    }

    /// Where the statement at hand fits in.
    pub(crate) open spec fn frame(&self) -> Frame {
        Frame {
            source: self.local_source as int,
            sink: self.local_sink as int,
            break_target: match self.break_target {
                Some(t) => Some(t as int),
                None => None,
            },
            continue_target: match self.continue_target {
                Some(t) => Some(t as int),
                None => None,
            },
            end: self.global_end as int,
        }
    }

    /// Whether the next statement can be drawn.
    pub(crate) open spec fn ready(&self) -> bool {
        self.net().ok() && self.frame().within(self.net())
    }

    /// A context for a whole program.
    pub(crate) fn new() -> (context: GraphContext)
        ensures
            context.net() == blank(),
            context.frame() == outermost(),
    {
        let mut graph = new_graph();
        assert(graph_view(graph) == GraphView::empty());
        let begin = add_node(&mut graph, GraphNodeType::Begin);
        let end = add_node(&mut graph, GraphNodeType::End);
        GraphContext {
            graph,
            break_target: None,
            continue_target: None,
            goto_target: new_scopes(),
            global_end: end,
            local_source: begin,
            local_sink: end,
        }
    }

    /// Adds a node.
    fn node(&mut self, weight: GraphNodeType) -> (index: u32)
        requires
            old(self).net().ok(),
            old(self).net().next() < u32::MAX,
        ensures
            index == old(self).net().next(),
            final(self).net() == old(self).net().node(weight@),
            final(self).frame() == old(self).frame(),
    {
        add_node(&mut self.graph, weight)
    }

    /// Adds an edge from `a` to `b`.
    fn edge(&mut self, a: u32, b: u32, kind: EdgeType)
        requires
            old(self).net().ok(),
            a < old(self).net().next(),
            b < old(self).net().next(),
            old(self).net().graph.edge_count() < u32::MAX,
        ensures
            final(self).net() == old(self).net().edge(a as int, b as int, kind),
            final(self).frame() == old(self).frame(),
    {
        add_edge(&mut self.graph, a, b, kind);
    }

    /// The joint of a label; a label without one gets it here, in the outermost scope.
    fn bind(&mut self, name: &String) -> (joint: u32)
        requires
            old(self).net().ok(),
            old(self).net().bind(name@).next() <= u32::MAX,
        ensures
            joint == old(self).net().joint(name@),
            final(self).net() == old(self).net().bind(name@),
            final(self).frame() == old(self).frame(),
    {
        match get(&self.goto_target, name) {
            Some(v) => v,
            None => {
                let v = self.node(GraphNodeType::Dummy);
                let _ = insert_at(&mut self.goto_target, 0, name.clone(), v);
                v
            },
        }
    }

    /// Leads the joints of a statement's labels to the statement.
    fn place_labels(&mut self, names: &Vec<String>)
        requires
            old(self).ready(),
            old(self).net().labelled(
                texts(names@),
                names@.len(),
                old(self).frame().source,
            ).fits(),
        ensures
            final(self).net() == old(self).net().labelled(
                texts(names@),
                names@.len(),
                old(self).frame().source,
            ),
            final(self).frame() == old(self).frame(),
    {
        let ghost net = self.net();
        let ghost frame = self.frame();
        let ghost all = texts(names@);
        let mut k: usize = 0;
        while k < names.len()
            invariant
                net.ok(),
                frame.within(net),
                net.labelled(all, all.len(), frame.source).fits(),
                all == texts(names@),
                k <= names@.len(),
                self.net() == net.labelled(all, k as nat, frame.source),
                self.frame() == frame,
            decreases names.len() - k,
        {
            proof {
                lemma_labelled(net, all, k as nat, frame.source);
                lemma_labelled_mono(net, all, (k + 1) as nat, all.len(), frame.source);
                lemma_grows_numbers(net, self.net());
                lemma_grows_numbers(
                    net.labelled(all, (k + 1) as nat, frame.source),
                    net.labelled(all, all.len(), frame.source),
                );
                lemma_bind(self.net(), all[k as int]);
                lemma_grows_numbers(self.net(), self.net().bind(all[k as int]));
                lemma_edge(
                    self.net().bind(all[k as int]),
                    self.net().joint(all[k as int]),
                    frame.source,
                    EdgeType::Normal,
                );
            }
            assert(names@[k as int]@ == all[k as int]);
            let source = self.local_source;
            let joint = self.bind(&names[k]);
            self.edge(joint, source, EdgeType::Normal);
            k += 1;
        }
    }

    /// `source -> text`
    fn enter(&mut self, text: &String) -> (current: u32)
        requires
            old(self).ready(),
            old(self).net().enter(old(self).frame(), text@).fits(),
        ensures
            current == old(self).net().next(),
            final(self).net() == old(self).net().enter(old(self).frame(), text@),
            final(self).frame() == old(self).frame(),
    {
        broadcast use {lemma_node, lemma_edge};

        let source = self.local_source;
        let current = self.node(GraphNodeType::Node(text.clone()));
        self.edge(source, current, EdgeType::Normal);
        current
    }

    /// `source -> text -> target`
    fn step(&mut self, text: &String, target: u32)
        requires
            old(self).ready(),
            target < old(self).net().next(),
            old(self).net().step(old(self).frame(), text@, target as int).fits(),
        ensures
            final(self).net() == old(self).net().step(old(self).frame(), text@, target as int),
            final(self).frame() == old(self).frame(),
    {
        broadcast use {lemma_node, lemma_edge};

        proof {
            lemma_step(self.net(), self.frame(), text@, target as int);
        }
        let current = self.enter(text);
        self.edge(current, target, EdgeType::Normal);
    }

    /// `source -> joint`
    fn jump(&mut self, name: &String)
        requires
            old(self).ready(),
            old(self).net().jump(old(self).frame(), name@).fits(),
        ensures
            final(self).net() == old(self).net().jump(old(self).frame(), name@),
            final(self).frame() == old(self).frame(),
    {
        proof {
            lemma_jump(self.net(), self.frame(), name@);
            lemma_bind(self.net(), name@);
            lemma_grows_numbers(self.net(), self.net().bind(name@));
        }
        let source = self.local_source;
        let joint = self.bind(name);
        self.edge(source, joint, EdgeType::Normal);
    }

    /// `source -> c`, where the first statement runs from `c` to `c + 1`
    fn open_block(&mut self) -> (c: u32)
        requires
            old(self).ready(),
            old(self).net().open_block(old(self).frame()).fits(),
        ensures
            c == old(self).net().next(),
            final(self).net() == old(self).net().open_block(old(self).frame()),
            final(self).frame() == old(self).frame(),
    {
        broadcast use {lemma_node, lemma_edge};

        proof {
            lemma_open_block(self.net(), self.frame());
        }
        let source = self.local_source;
        let sub_source = self.node(GraphNodeType::Dummy);
        let _ = self.node(GraphNodeType::Dummy);
        self.edge(source, sub_source, EdgeType::Normal);
        sub_source
    }

    /// `source -> cond -Y-> c + 1`, and `c + 2 -> sink`, where `c` is `cond`
    fn open_if(&mut self, cond: &String) -> (c: u32)
        requires
            old(self).ready(),
            old(self).net().open_if(old(self).frame(), cond@).fits(),
        ensures
            c == old(self).net().next(),
            final(self).net() == old(self).net().open_if(old(self).frame(), cond@),
            final(self).frame() == old(self).frame(),
    {
        broadcast use {lemma_node, lemma_edge};

        proof {
            lemma_open_if(self.net(), self.frame(), cond@);
        }
        let source = self.local_source;
        let sink = self.local_sink;
        let cond = self.node(GraphNodeType::Choice(cond.clone()));
        let sub_source = self.node(GraphNodeType::Dummy);
        let sub_sink = self.node(GraphNodeType::Dummy);
        self.edge(source, cond, EdgeType::Normal);
        self.edge(cond, sub_source, EdgeType::Branch(true));
        self.edge(sub_sink, sink, EdgeType::Normal);
        cond
    }

    /// `cond -N-> joint`, where the second branch starts from `joint`
    fn open_else(&mut self, cond: u32) -> (joint: u32)
        requires
            old(self).net().ok(),
            cond < old(self).net().next(),
            old(self).net().open_else(cond as int).fits(),
        ensures
            joint == old(self).net().next(),
            final(self).net() == old(self).net().open_else(cond as int),
            final(self).frame() == old(self).frame(),
    {
        broadcast use {lemma_node, lemma_edge};

        proof {
            lemma_open_else(self.net(), cond as int);
        }
        let sub_source = self.node(GraphNodeType::Dummy);
        self.edge(cond, sub_source, EdgeType::Branch(false));
        sub_source
    }

    /// `source -> cond -Y-> c + 1`, `cond -N-> sink`, and `c + 2 -> cond`, where `c` is `cond`
    fn open_while(&mut self, cond: &String) -> (c: u32)
        requires
            old(self).ready(),
            old(self).net().open_while(old(self).frame(), cond@).fits(),
        ensures
            c == old(self).net().next(),
            final(self).net() == old(self).net().open_while(old(self).frame(), cond@),
            final(self).frame() == old(self).frame(),
    {
        broadcast use {lemma_node, lemma_edge};

        proof {
            lemma_open_while(self.net(), self.frame(), cond@);
        }
        let source = self.local_source;
        let sink = self.local_sink;
        let cond = self.node(GraphNodeType::Choice(cond.clone()));
        let sub_source = self.node(GraphNodeType::Dummy);
        let sub_sink = self.node(GraphNodeType::Dummy);
        self.edge(source, cond, EdgeType::Normal);
        self.edge(cond, sub_source, EdgeType::Branch(true));
        self.edge(cond, sink, EdgeType::Branch(false));
        self.edge(sub_sink, cond, EdgeType::Normal);
        cond
    }

    /// `source -> c`, and `c + 1 -> cond -Y-> c`, `cond -N-> sink`
    fn open_do_while(&mut self, cond: &String) -> (c: u32)
        requires
            old(self).ready(),
            old(self).net().open_do_while(old(self).frame(), cond@).fits(),
        ensures
            c == old(self).net().next(),
            final(self).net() == old(self).net().open_do_while(old(self).frame(), cond@),
            final(self).frame() == old(self).frame(),
    {
        broadcast use {lemma_node, lemma_edge};

        proof {
            lemma_open_do_while(self.net(), self.frame(), cond@);
        }
        let source = self.local_source;
        let sink = self.local_sink;
        let sub_source = self.node(GraphNodeType::Dummy);
        let sub_sink = self.node(GraphNodeType::Dummy);
        let cond = self.node(GraphNodeType::Choice(cond.clone()));
        self.edge(source, sub_source, EdgeType::Normal);
        self.edge(sub_sink, cond, EdgeType::Normal);
        self.edge(cond, sub_source, EdgeType::Branch(true));
        self.edge(cond, sink, EdgeType::Branch(false));
        sub_source
    }

    /// `source -> init -> cond -Y-> c`, `cond -N-> sink`, and `c + 1 -> upd -> cond`
    fn open_for(&mut self, init: &String, cond: &String, upd: &String) -> (c: u32)
        requires
            old(self).ready(),
            old(self).net().open_for(old(self).frame(), init@, cond@, upd@).fits(),
        ensures
            c == old(self).net().next(),
            final(self).net() == old(self).net().open_for(old(self).frame(), init@, cond@, upd@),
            final(self).frame() == old(self).frame(),
    {
        broadcast use {lemma_node, lemma_edge};

        proof {
            lemma_open_for(self.net(), self.frame(), init@, cond@, upd@);
        }
        let source = self.local_source;
        let sink = self.local_sink;
        let sub_source = self.node(GraphNodeType::Dummy);
        let sub_sink = self.node(GraphNodeType::Dummy);
        let cond = self.node(GraphNodeType::Choice(cond.clone()));
        let init = self.node(GraphNodeType::Node(init.clone()));
        let upd = self.node(GraphNodeType::Node(upd.clone()));
        self.edge(source, init, EdgeType::Normal);
        self.edge(init, cond, EdgeType::Normal);
        self.edge(cond, sub_source, EdgeType::Branch(true));
        self.edge(cond, sink, EdgeType::Branch(false));
        self.edge(sub_sink, upd, EdgeType::Normal);
        self.edge(upd, cond, EdgeType::Normal);
        sub_source
    }

    /// One joint for each case label.
    fn case_table(&mut self, cases: &Vec<String>) -> (table: Vec<(String, u32)>)
        requires
            old(self).net().ok(),
            old(self).net().joints(cases@.len()).fits(),
        ensures
            final(self).net() == old(self).net().joints(cases@.len()),
            final(self).frame() == old(self).frame(),
            distinct(table@),
            table_map(table@) == case_joints(
                texts(cases@),
                cases@.len(),
                old(self).net().next(),
            ),
    {
        let ghost net = self.net();
        let ghost frame = self.frame();
        let ghost names = texts(cases@);
        proof {
            lemma_joints(net, cases@.len());
        }
        let mut table: Vec<(String, u32)> = Vec::new();
        let mut k: usize = 0;
        while k < cases.len()
            invariant
                net.ok(),
                net.next() + cases@.len() <= u32::MAX,
                names == texts(cases@),
                k <= cases@.len(),
                self.net() == net.joints(k as nat),
                self.frame() == frame,
                distinct(table@),
                table_map(table@) == case_joints(names, k as nat, net.next()),
            decreases cases.len() - k,
        {
            proof {
                lemma_joints(net, k as nat);
            }
            assert(names[k as int] == cases@[k as int]@);
            let joint = self.node(GraphNodeType::Dummy);
            enter_case(&mut table, &cases[k], joint);
            k += 1;
        }
        table
    }

    /// The tests of a switch from the `k`th on.
    fn generate_jump_table(
        &mut self,
        cond: &String,
        names: &Vec<String>,
        k: usize,
        table: &Vec<(String, u32)>,
        otherwise: u32,
    ) -> (start: u32)
        requires
            old(self).net().ok(),
            k < names@.len(),
            otherwise < old(self).net().next(),
            distinct(table@),
            forall|j: int|
                0 <= j < names@.len() ==> table_map(table@).contains_key(
                    #[trigger] texts(names@)[j],
                ) && 0 <= table_map(table@)[texts(names@)[j]] < old(self).net().next(),
            with_table(
                old(self).net(),
                cond@,
                texts(names@),
                k as int,
                table_map(table@),
                otherwise as int,
            ).fits(),
        ensures
            start == old(self).net().next(),
            final(self).net() == with_table(
                old(self).net(),
                cond@,
                texts(names@),
                k as int,
                table_map(table@),
                otherwise as int,
            ),
            final(self).frame() == old(self).frame(),
        decreases names@.len() - k,
    {
        broadcast use {lemma_node, lemma_edge};

        proof {
            lemma_jump_table(
                self.net(),
                cond@,
                texts(names@),
                k as int,
                table_map(table@),
                otherwise as int,
            );
        }
        let ghost net = self.net();
        assert(texts(names@)[k as int] == names@[k as int]@);
        let text = cond.clone().concat(" == ").concat(names[k].as_str());
        let cur = self.node(GraphNodeType::Choice(text));
        let joint = joint_of(table, &names[k]);
        self.edge(cur, joint, EdgeType::Branch(true));
        if names.len() - k > 1 {
            proof {
                lemma_jump_table(
                    self.net(),
                    cond@,
                    texts(names@),
                    k + 1,
                    table_map(table@),
                    otherwise as int,
                );
            }
            let next = self.generate_jump_table(cond, names, k + 1, table, otherwise);
            self.edge(cur, next, EdgeType::Branch(false));
        } else {
            self.edge(cur, otherwise, EdgeType::Branch(false));
        }
        cur
    }

    /// `source -> tests`, and `d + 1 -> sink`, where the body runs from `d` to `d + 1` with the
    /// case labels in scope
    fn open_switch(&mut self, cond: &String, cases: &Vec<String>) -> (d: u32)
        requires
            old(self).ready(),
            tested(texts(cases@)).len() > 0,
            old(self).net().open_switch(old(self).frame(), cond@, texts(cases@)).fits(),
        ensures
            d == final(self).net().next() - 2,
            final(self).net() == old(self).net().open_switch(
                old(self).frame(),
                cond@,
                texts(cases@),
            ),
            final(self).frame() == old(self).frame(),
    {
        broadcast use {lemma_node, lemma_edge};

        let ghost net = self.net();
        let ghost names = texts(cases@);
        proof {
            lemma_open_switch(net, self.frame(), cond@, names);
            lemma_joints(net, names.len());
            lemma_case_joints(names, names.len(), net.next());
            lemma_tested(names);
        }
        let source = self.local_source;
        let sink = self.local_sink;
        let table = self.case_table(cases);
        let tests = tested_cases(cases);
        let otherwise = if has_default(cases) {
            proof {
                let j = names.index_of("default"@);
                assert(table_map(table@).contains_key(names[j]));
            }
            joint_of(&table, &"default".to_owned())
        } else {
            sink
        };
        assert(otherwise == net.otherwise(self.frame(), names));
        proof {
            assert forall|j: int| 0 <= j < tests@.len() implies table_map(table@).contains_key(
                #[trigger] texts(tests@)[j],
            ) && 0 <= table_map(table@)[texts(tests@)[j]] < self.net().next() by {
                let m = names.index_of(tested(names)[j]);
                assert(table_map(table@).contains_key(names[m]));
            }
            lemma_jump_table(
                self.net(),
                cond@,
                tested(names),
                0,
                table_map(table@),
                otherwise as int,
            );
        }
        let start = self.generate_jump_table(cond, &tests, 0, &table, otherwise);
        self.edge(source, start, EdgeType::Normal);
        let sub_source = self.node(GraphNodeType::Dummy);
        let sub_sink = self.node(GraphNodeType::Dummy);
        proof {
            lemma_scope(self.net(), table_map(table@));
        }
        new_child_with(&mut self.goto_target, table);
        self.edge(sub_sink, sink, EdgeType::Normal);
        sub_source
    }
}

/// The place of a statement.
pub(crate) fn range_of(ast: &Ast) -> (range: Range<usize>)
    ensures
        range == ast.range,
{
    Range { start: ast.range.start, end: ast.range.end }
}

/// Whether the result of drawing tells whether and why the drawing stopped.
pub(crate) open spec fn told(
    result: Result<(), Error>,
    fault: Option<Fault>,
    source: Seq<char>,
    file_name: Seq<char>,
) -> bool {
    match fault {
        None => result is Ok,
        Some(fault) => result matches Err(error) && error.tells_fault(fault, source, file_name),
    }
}

/// Draws one statement with its labels into the context's frame. Where that works out, the frame
/// and the inner scopes are afterwards what they were before; else the context is left in the frame
/// of the statement with the fault.
pub(crate) fn build_graph(
    ast: &Ast,
    context: &mut GraphContext,
    source: &str,
    file_name: &str,
) -> (result: Result<(), Error>)
    requires
        old(context).ready(),
        build(ast, old(context).frame(), old(context).net()).net.fits(),
        !(build(ast, old(context).frame(), old(context).net()).fault matches Some(
            Fault::NoCase,
        )),
    ensures
        final(context).net() == build(ast, old(context).frame(), old(context).net()).net,
        told(
            result,
            build(ast, old(context).frame(), old(context).net()).fault,
            source@,
            file_name@,
        ),
        final(context).frame() == build(ast, old(context).frame(), old(context).net()).leaves_in(
            old(context).frame(),
        ),
        result is Ok ==> old(context).net().same_scopes(final(context).net()),
    decreases ast, 2nat,
{
    let ghost frame = context.frame();
    let ghost net = context.net();
    let ghost n = net.labelled(ast.labels(), ast.labels().len(), frame.source);
    proof {
        lemma_labelled(net, ast.labels(), ast.labels().len(), frame.source);
        lemma_grows_numbers(net, n);
        lemma_build_node(ast, frame, n);
        lemma_grows_numbers(n, build(ast, frame, net).net);
        lemma_build(ast, frame, net);
    }
    if let Some(labels) = &ast.label {
        context.place_labels(labels);
    }
    assert(context.net() == n);
    draw_node(ast, context, source, file_name)
}

/// Draws one statement into the context's frame.
fn draw_node(ast: &Ast, context: &mut GraphContext, source: &str, file_name: &str) -> (result:
    Result<(), Error>)
    requires
        old(context).ready(),
        build_node(ast, old(context).frame(), old(context).net()).net.fits(),
        !(build_node(ast, old(context).frame(), old(context).net()).fault matches Some(
            Fault::NoCase,
        )),
    ensures
        final(context).net() == build_node(ast, old(context).frame(), old(context).net()).net,
        told(
            result,
            build_node(ast, old(context).frame(), old(context).net()).fault,
            source@,
            file_name@,
        ),
        final(context).frame() == build_node(ast, old(context).frame(), old(context).net()).leaves_in(
            old(context).frame(),
        ),
    decreases ast, 1nat,
{
    let ghost frame = context.frame();
    let ghost n = context.net();
    match &ast.node {
        AstNode::Dummy => Err(
            Error::UnexpectedDummyAstNode {
                file_name: file_name.to_owned(),
                source: source.to_owned(),
                range: range_of(ast),
            },
        ),
        AstNode::Compound(v) => draw_block(v, context, source, file_name),
        AstNode::Stat(s) => {
            let target = context.local_sink;
            context.step(s, target);
            Ok(())
        },
        AstNode::Continue(s) => match context.continue_target {
            Some(target) => {
                context.step(s, target);
                Ok(())
            },
            None => {
                let _ = context.enter(s);
                Err(
                    Error::UnexpectedContinue {
                        file_name: file_name.to_owned(),
                        source: source.to_owned(),
                        range: range_of(ast),
                    },
                )
            },
        },
        AstNode::Break(s) => match context.break_target {
            Some(target) => {
                context.step(s, target);
                Ok(())
            },
            None => {
                let _ = context.enter(s);
                Err(
                    Error::UnexpectedBreak {
                        file_name: file_name.to_owned(),
                        source: source.to_owned(),
                        range: range_of(ast),
                    },
                )
            },
        },
        AstNode::Return(s) => {
            let target = context.global_end;
            context.step(s, target);
            Ok(())
        },
        AstNode::If { cond, body, otherwise } => draw_if(
            ast,
            cond,
            body,
            otherwise,
            context,
            source,
            file_name,
        ),
        AstNode::While { cond, body } => {
            proof {
                lemma_open_while(n, frame, cond@);
                lemma_build(
                    &**body,
                    frame.looping(n.next() + 1, n.next() + 2, n.next()),
                    n.open_while(frame, cond@),
                );
                lemma_grows_numbers(
                    n.open_while(frame, cond@),
                    build_node(ast, frame, n).net,
                );
            }
            let cond = context.open_while(cond);
            draw_loop(body, cond + 1, cond + 2, cond, context, source, file_name)
        },
        AstNode::DoWhile { cond, body } => {
            proof {
                lemma_open_do_while(n, frame, cond@);
                lemma_build(
                    &**body,
                    frame.looping(n.next(), n.next() + 1, n.next() + 2),
                    n.open_do_while(frame, cond@),
                );
                lemma_grows_numbers(
                    n.open_do_while(frame, cond@),
                    build_node(ast, frame, n).net,
                );
            }
            let sub_source = context.open_do_while(cond);
            draw_loop(
                body,
                sub_source,
                sub_source + 1,
                sub_source + 2,
                context,
                source,
                file_name,
            )
        },
        AstNode::For { init, cond, upd, body } => {
            proof {
                lemma_open_for(n, frame, init@, cond@, upd@);
                lemma_build(
                    &**body,
                    frame.looping(n.next(), n.next() + 1, n.next() + 4),
                    n.open_for(frame, init@, cond@, upd@),
                );
                lemma_grows_numbers(
                    n.open_for(frame, init@, cond@, upd@),
                    build_node(ast, frame, n).net,
                );
            }
            let sub_source = context.open_for(init, cond, upd);
            draw_loop(
                body,
                sub_source,
                sub_source + 1,
                sub_source + 4,
                context,
                source,
                file_name,
            )
        },
        AstNode::Switch { cond, body, cases } => draw_switch(
            cond,
            body,
            cases,
            context,
            source,
            file_name,
        ),
        AstNode::Goto(name) => {
            context.jump(name);
            Ok(())
        },
    }
}

/// Draws the body of a loop from `sub_source` to `sub_sink`: `break` leaves to where the loop
/// leaves to.
fn draw_loop(
    body: &Rc<Ast>,
    sub_source: u32,
    sub_sink: u32,
    on_continue: u32,
    context: &mut GraphContext,
    source: &str,
    file_name: &str,
) -> (result: Result<(), Error>)
    requires
        old(context).ready(),
        sub_source < old(context).net().next(),
        sub_sink < old(context).net().next(),
        on_continue < old(context).net().next(),
        build(
            &**body,
            old(context).frame().looping(sub_source as int, sub_sink as int, on_continue as int),
            old(context).net(),
        ).net.fits(),
        !(build(
            &**body,
            old(context).frame().looping(sub_source as int, sub_sink as int, on_continue as int),
            old(context).net(),
        ).fault matches Some(Fault::NoCase)),
    ensures
        final(context).net() == build(
            &**body,
            old(context).frame().looping(sub_source as int, sub_sink as int, on_continue as int),
            old(context).net(),
        ).net,
        told(
            result,
            build(
                &**body,
                old(context).frame().looping(
                    sub_source as int,
                    sub_sink as int,
                    on_continue as int,
                ),
                old(context).net(),
            ).fault,
            source@,
            file_name@,
        ),
        final(context).frame() == build(
            &**body,
            old(context).frame().looping(sub_source as int, sub_sink as int, on_continue as int),
            old(context).net(),
        ).leaves_in(old(context).frame()),
    decreases **body, 3nat,
{
    let local_source = context.local_source;
    let local_sink = context.local_sink;
    let break_target = context.break_target;
    let continue_target = context.continue_target;
    context.continue_target = Some(on_continue);
    context.break_target = Some(local_sink);
    context.local_source = sub_source;
    context.local_sink = sub_sink;
    match build_graph(body, context, source, file_name) {
        Ok(()) => {},
        Err(error) => {
            return Err(error);
        },
    }
    context.continue_target = continue_target;
    context.break_target = break_target;
    context.local_source = local_source;
    context.local_sink = local_sink;
    Ok(())
}

/// Draws a condition and its branches into the context's frame.
fn draw_if(
    ast: &Ast,
    cond: &String,
    body: &Rc<Ast>,
    otherwise: &Option<Rc<Ast>>,
    context: &mut GraphContext,
    source: &str,
    file_name: &str,
) -> (result: Result<(), Error>)
    requires
        ast.node == (AstNode::If { cond: *cond, body: *body, otherwise: *otherwise }),
        old(context).ready(),
        build_node(ast, old(context).frame(), old(context).net()).net.fits(),
        !(build_node(ast, old(context).frame(), old(context).net()).fault matches Some(
            Fault::NoCase,
        )),
    ensures
        final(context).net() == build_node(ast, old(context).frame(), old(context).net()).net,
        told(
            result,
            build_node(ast, old(context).frame(), old(context).net()).fault,
            source@,
            file_name@,
        ),
        final(context).frame() == build_node(ast, old(context).frame(), old(context).net()).leaves_in(
            old(context).frame(),
        ),
    decreases ast, 0nat,
{
    let ghost frame = context.frame();
    let ghost n = context.net();
    let ghost built = build_node(ast, frame, n);
    let ghost c0 = n.next();
    let ghost opened = n.open_if(frame, cond@);
    let ghost first = build(&**body, frame.between(c0 + 1, c0 + 2), opened);
    let local_source = context.local_source;
    let local_sink = context.local_sink;
    proof {
        lemma_open_if(n, frame, cond@);
        lemma_build(&**body, frame.between(c0 + 1, c0 + 2), opened);
        lemma_grows_numbers(opened, first.net);
        if first.fault is None {
            match otherwise {
                Some(t) => {
                    lemma_open_else(first.net, c0);
                    lemma_build(
                        &**t,
                        frame.between(first.net.next(), c0 + 2),
                        first.net.open_else(c0),
                    );
                    lemma_grows_numbers(first.net.open_else(c0), built.net);
                },
                None => {
                    lemma_edge(first.net, c0, frame.sink, EdgeType::Branch(false));
                },
            }
        }
    }
    let cond = context.open_if(cond);
    context.local_source = cond + 1;
    context.local_sink = cond + 2;
    match build_graph(body, context, source, file_name) {
        Ok(()) => {},
        Err(error) => {
            return Err(error);
        },
    }
    context.local_source = local_source;
    context.local_sink = local_sink;
    match otherwise {
        Some(t) => {
            let sub_source = context.open_else(cond);
            context.local_source = sub_source;
            context.local_sink = cond + 2;
            match build_graph(t, context, source, file_name) {
                Ok(()) => {},
                Err(error) => {
                    return Err(error);
                },
            }
            context.local_source = local_source;
            context.local_sink = local_sink;
        },
        None => {
            context.edge(cond, local_sink, EdgeType::Branch(false));
        },
    }
    Ok(())
}

/// Draws a switch into the context's frame.
fn draw_switch(
    cond: &String,
    body: &Rc<Ast>,
    cases: &Vec<String>,
    context: &mut GraphContext,
    source: &str,
    file_name: &str,
) -> (result: Result<(), Error>)
    requires
        old(context).ready(),
        build_switch(
            cond@,
            *body,
            texts(cases@),
            old(context).frame(),
            old(context).net(),
        ).net.fits(),
        !(build_switch(
            cond@,
            *body,
            texts(cases@),
            old(context).frame(),
            old(context).net(),
        ).fault matches Some(Fault::NoCase)),
    ensures
        final(context).net() == build_switch(
            cond@,
            *body,
            texts(cases@),
            old(context).frame(),
            old(context).net(),
        ).net,
        told(
            result,
            build_switch(
                cond@,
                *body,
                texts(cases@),
                old(context).frame(),
                old(context).net(),
            ).fault,
            source@,
            file_name@,
        ),
        final(context).frame() == build_switch(
            cond@,
            *body,
            texts(cases@),
            old(context).frame(),
            old(context).net(),
        ).leaves_in(old(context).frame()),
    decreases **body, 3nat,
{
    let ghost frame = context.frame();
    let ghost n = context.net();
    let ghost names = texts(cases@);
    let ghost opened = n.open_switch(frame, cond@, names);
    let ghost d0 = opened.next() - 2;
    let ghost inner = build(&**body, frame.switching(d0, d0 + 1), opened);
    proof {
        lemma_open_switch(n, frame, cond@, names);
        lemma_build(&**body, frame.switching(d0, d0 + 1), opened);
        lemma_grows_numbers(opened, inner.net);
    }
    let local_source = context.local_source;
    let local_sink = context.local_sink;
    let break_target = context.break_target;
    let continue_target = context.continue_target;
    let d = context.open_switch(cond, cases);
    context.local_source = d;
    context.local_sink = d + 1;
    context.break_target = Some(local_sink);
    context.continue_target = None;
    match build_graph(body, context, source, file_name) {
        Ok(()) => {},
        Err(error) => {
            return Err(error);
        },
    }
    context.local_source = local_source;
    context.local_sink = local_sink;
    context.break_target = break_target;
    context.continue_target = continue_target;
    remove_child(&mut context.goto_target);
    Ok(())
}

/// Draws the statements of a block one after the other into the context's frame.
fn draw_block(v: &Vec<Rc<Ast>>, context: &mut GraphContext, source: &str, file_name: &str) -> (result:
    Result<(), Error>)
    requires
        old(context).ready(),
        build_block(v@, old(context).frame(), old(context).net()).net.fits(),
        !(build_block(v@, old(context).frame(), old(context).net()).fault matches Some(
            Fault::NoCase,
        )),
    ensures
        final(context).net() == build_block(v@, old(context).frame(), old(context).net()).net,
        told(
            result,
            build_block(v@, old(context).frame(), old(context).net()).fault,
            source@,
            file_name@,
        ),
        final(context).frame() == build_block(v@, old(context).frame(), old(context).net()).leaves_in(
            old(context).frame(),
        ),
    decreases v@, v@.len() + 1,
{
    let ghost frame = context.frame();
    let ghost n = context.net();
    let ghost c0 = n.next();
    let ghost opened = n.open_block(frame);
    let ghost all = build_chain(v@, v@.len(), frame, opened, c0);
    let ghost built = build_block(v@, frame, n);
    let local_source = context.local_source;
    let local_sink = context.local_sink;
    proof {
        lemma_open_block(n, frame);
        lemma_build_chain(v@, v@.len(), frame, opened, c0);
        lemma_grows_numbers(opened, all.built.net);
        if v@.len() == 0 {
            lemma_edge(opened, c0, c0 + 1, EdgeType::Normal);
            lemma_edge(opened.normal(c0, c0 + 1), c0 + 1, frame.sink, EdgeType::Normal);
        } else if all.built.fault is None {
            lemma_edge(all.built.net, all.sink, frame.sink, EdgeType::Normal);
        }
    }
    let c = context.open_block();
    let mut sub_source = c;
    let mut sub_sink = c + 1;
    if v.len() == 0 {
        context.edge(sub_source, sub_sink, EdgeType::Normal);
    } else {
        let mut k: usize = 0;
        while k < v.len()
            invariant
                v@.len() > 0,
                frame == old(context).frame(),
                n == old(context).net(),
                c0 == n.next(),
                opened == n.open_block(frame),
                opened.ok(),
                frame.within(opened),
                c0 + 1 < opened.next(),
                all == build_chain(v@, v@.len(), frame, opened, c0),
                all.built.net.fits(),
                !(all.built.fault matches Some(Fault::NoCase)),
                k <= v@.len(),
                context.net() == build_chain(v@, k as nat, frame, opened, c0).built.net,
                build_chain(v@, k as nat, frame, opened, c0).built.fault is None,
                sub_source == build_chain(v@, k as nat, frame, opened, c0).source,
                sub_sink == build_chain(v@, k as nat, frame, opened, c0).sink,
                context.frame() == frame.between(context.frame().source, context.frame().sink),
            decreases v.len() - k,
        {
            let ghost before = build_chain(v@, k as nat, frame, opened, c0);
            let ghost inner = frame.between(before.source, before.sink);
            let ghost drawn = build(&*v@[k as int], inner, before.built.net);
            let ghost chain = build_chain(v@, (k + 1) as nat, frame, opened, c0);
            proof {
                lemma_build_chain(v@, k as nat, frame, opened, c0);
                lemma_grows_numbers(opened, before.built.net);
                lemma_build(&*v@[k as int], inner, before.built.net);
                lemma_chain_mono(v@, (k + 1) as nat, v@.len(), frame, opened, c0);
                lemma_grows_numbers(chain.built.net, all.built.net);
                lemma_node(drawn.net, NodeLabel::Dummy);
            }
            context.local_source = sub_source;
            context.local_sink = sub_sink;
            match build_graph(&v[k], context, source, file_name) {
                Ok(()) => {},
                Err(error) => {
                    return Err(error);
                },
            }
            if v.len() - k > 1 {
                sub_source = sub_sink;
                sub_sink = context.node(GraphNodeType::Dummy);
            }
            k += 1;
        }
    }
    context.edge(sub_sink, local_sink, EdgeType::Normal);
    context.local_source = local_source;
    context.local_sink = local_sink;
    Ok(())
}

} // verus!
