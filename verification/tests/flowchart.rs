use flowgraph::flow::Fault;
use flowgraph::limits::first_fault;
use flowgraph::{from_ast, is_drawable, Ast, AstNode, EdgeType, Error, Graph, GraphNodeType};
use petgraph::stable_graph::NodeIndex;
use petgraph::visit::{EdgeRef, IntoEdgeReferences, IntoNodeReferences};
use petgraph::EdgeDirection;
use std::rc::Rc;

fn tree(node: AstNode) -> Rc<Ast> {
    Rc::new(Ast { label: None, node, range: 0..0 })
}

fn at(node: AstNode, start: usize, end: usize) -> Rc<Ast> {
    Rc::new(Ast { label: None, node, range: start..end })
}

fn labelled(names: &[&str], node: AstNode) -> Rc<Ast> {
    let label = names.iter().map(|name| name.to_string()).collect();
    Rc::new(Ast { label: Some(label), node, range: 0..0 })
}

fn stat(text: &str) -> Rc<Ast> {
    tree(AstNode::Stat(text.to_string()))
}

fn block(statements: Vec<Rc<Ast>>) -> Rc<Ast> {
    tree(AstNode::Compound(statements))
}

fn goto(name: &str) -> Rc<Ast> {
    tree(AstNode::Goto(name.to_string()))
}

fn break_out() -> Rc<Ast> {
    tree(AstNode::Break("break".to_string()))
}

fn go_on() -> Rc<Ast> {
    tree(AstNode::Continue("continue".to_string()))
}

fn if_then(cond: &str, body: Rc<Ast>, otherwise: Option<Rc<Ast>>) -> Rc<Ast> {
    tree(AstNode::If { cond: cond.to_string(), body, otherwise })
}

fn while_loop(cond: &str, body: Rc<Ast>) -> Rc<Ast> {
    tree(AstNode::While { cond: cond.to_string(), body })
}

fn do_while(cond: &str, body: Rc<Ast>) -> Rc<Ast> {
    tree(AstNode::DoWhile { cond: cond.to_string(), body })
}

fn for_loop(init: &str, cond: &str, upd: &str, body: Rc<Ast>) -> Rc<Ast> {
    tree(AstNode::For {
        init: init.to_string(),
        cond: cond.to_string(),
        upd: upd.to_string(),
        body,
    })
}

fn switch(cond: &str, cases: &[&str], body: Rc<Ast>) -> Rc<Ast> {
    tree(AstNode::Switch {
        cond: cond.to_string(),
        body,
        cases: cases.iter().map(|name| name.to_string()).collect(),
    })
}

fn chart(ast: Rc<Ast>) -> Graph {
    assert!(is_drawable(&ast));
    match from_ast(ast, "text", "file.c") {
        Ok(graph) => graph,
        Err(_) => panic!("no flowchart"),
    }
}

fn failure(ast: Rc<Ast>) -> Error {
    assert!(is_drawable(&ast));
    match from_ast(ast, "text", "file.c") {
        Ok(_) => panic!("a flowchart"),
        Err(error) => error,
    }
}

fn name(weight: &GraphNodeType) -> String {
    match weight {
        GraphNodeType::Dummy => "dummy".to_string(),
        GraphNodeType::Begin => "begin".to_string(),
        GraphNodeType::End => "end".to_string(),
        GraphNodeType::Node(text) => text.clone(),
        GraphNodeType::Choice(text) => format!("{}?", text),
    }
}

/// The nodes in the order of their indices, as `index:text`.
fn nodes(graph: &Graph) -> Vec<String> {
    graph
        .node_references()
        .map(|(index, weight)| format!("{}:{}", index.index(), name(weight)))
        .collect()
}

/// The edges in alphabetical order, as `from -> to`, with the answer in between.
fn edges(graph: &Graph) -> Vec<String> {
    let mut found: Vec<String> = graph
        .edge_references()
        .map(|edge| {
            let arrow = match edge.weight() {
                EdgeType::Normal => "->",
                EdgeType::Branch(true) => "-Y->",
                EdgeType::Branch(false) => "-N->",
            };
            format!("{} {} {}", name(&graph[edge.source()]), arrow, name(&graph[edge.target()]))
        })
        .collect();
    found.sort();
    found
}

#[test]
fn one_statement_stands_between_begin_and_end() {
    let graph = chart(stat("a"));
    assert_eq!(nodes(&graph), vec!["0:begin", "1:end", "2:a"]);
    assert_eq!(edges(&graph), vec!["a -> end", "begin -> a"]);
}

#[test]
fn statements_of_a_block_follow_each_other() {
    let graph = chart(block(vec![stat("a"), stat("b"), stat("c")]));
    assert_eq!(nodes(&graph), vec!["0:begin", "1:end", "4:a", "6:b", "8:c"]);
    assert_eq!(edges(&graph), vec!["a -> b", "b -> c", "begin -> a", "c -> end"]);
}

#[test]
fn an_empty_block_leads_from_begin_to_end() {
    let graph = chart(block(vec![]));
    assert_eq!(nodes(&graph), vec!["0:begin", "1:end"]);
    assert_eq!(edges(&graph), vec!["begin -> end"]);
}

#[test]
fn if_without_else_goes_on_when_the_condition_fails() {
    let graph = chart(if_then("x", stat("a"), None));
    assert_eq!(nodes(&graph), vec!["0:begin", "1:end", "2:x?", "5:a"]);
    assert_eq!(edges(&graph), vec!["a -> end", "begin -> x?", "x? -N-> end", "x? -Y-> a"]);
}

#[test]
fn if_with_else_joins_both_branches() {
    let graph = chart(block(vec![if_then("x", stat("a"), Some(stat("b"))), stat("c")]));
    assert_eq!(
        edges(&graph),
        vec!["a -> c", "b -> c", "begin -> x?", "c -> end", "x? -N-> b", "x? -Y-> a"]
    );
}

#[test]
fn both_answers_may_lead_to_the_same_node() {
    let graph = chart(if_then("x", block(vec![]), Some(block(vec![]))));
    assert_eq!(edges(&graph), vec!["begin -> x?", "x? -N-> end", "x? -Y-> end"]);
}

#[test]
fn while_comes_back_to_its_condition() {
    let graph = chart(block(vec![while_loop("x", stat("a")), stat("b")]));
    assert_eq!(
        edges(&graph),
        vec!["a -> x?", "b -> end", "begin -> x?", "x? -N-> b", "x? -Y-> a"]
    );
}

#[test]
fn break_and_continue_leave_and_repeat_a_while() {
    let body = block(vec![if_then("p", break_out(), None), if_then("q", go_on(), None), stat("a")]);
    let graph = chart(block(vec![while_loop("x", body), stat("b")]));
    assert_eq!(
        edges(&graph),
        vec![
            "a -> x?",
            "b -> end",
            "begin -> x?",
            "break -> b",
            "continue -> x?",
            "p? -N-> q?",
            "p? -Y-> break",
            "q? -N-> a",
            "q? -Y-> continue",
            "x? -N-> b",
            "x? -Y-> p?"
        ]
    );
}

#[test]
fn do_while_tests_after_the_body() {
    let body = block(vec![stat("a"), if_then("q", go_on(), None), stat("c")]);
    let graph = chart(do_while("x", body));
    assert_eq!(
        edges(&graph),
        vec![
            "a -> q?",
            "begin -> a",
            "c -> x?",
            "continue -> x?",
            "q? -N-> c",
            "q? -Y-> continue",
            "x? -N-> end",
            "x? -Y-> a"
        ]
    );
}

#[test]
fn continue_in_a_for_goes_to_the_update() {
    let graph = chart(for_loop("i = 0", "i < n", "i++", if_then("p", go_on(), Some(break_out()))));
    assert_eq!(
        edges(&graph),
        vec![
            "begin -> i = 0",
            "break -> end",
            "continue -> i++",
            "i < n? -N-> end",
            "i < n? -Y-> p?",
            "i = 0 -> i < n?",
            "i++ -> i < n?",
            "p? -N-> break",
            "p? -Y-> continue"
        ]
    );
}

#[test]
fn statements_without_text_are_taken_out() {
    let graph = chart(for_loop("", "true", "", stat("a")));
    assert_eq!(nodes(&graph), vec!["0:begin", "1:end", "4:true?", "7:a"]);
    assert_eq!(
        edges(&graph),
        vec!["a -> true?", "begin -> true?", "true? -N-> end", "true? -Y-> a"]
    );
}

#[test]
fn return_goes_to_the_end() {
    let ast = block(vec![
        while_loop("x", tree(AstNode::Return("return 1".to_string()))),
        stat("a"),
    ]);
    let graph = chart(ast);
    assert_eq!(
        edges(&graph),
        vec!["a -> end", "begin -> x?", "return 1 -> end", "x? -N-> a", "x? -Y-> return 1"]
    );
}

#[test]
fn statements_that_are_never_reached_stay() {
    let graph = chart(block(vec![tree(AstNode::Return("return".to_string())), stat("a")]));
    assert_eq!(nodes(&graph), vec!["0:begin", "1:end", "4:return", "6:a"]);
    assert_eq!(edges(&graph), vec!["a -> end", "begin -> return", "return -> end"]);
}

fn three_cases() -> Rc<Ast> {
    block(vec![
        labelled(&["1"], AstNode::Stat("one".to_string())),
        break_out(),
        labelled(&["2"], AstNode::Stat("two".to_string())),
        labelled(&["default"], AstNode::Stat("other".to_string())),
    ])
}

#[test]
fn switch_tests_its_cases_in_order() {
    let graph = chart(block(vec![switch("v", &["1", "2", "default"], three_cases()), stat("z")]));
    assert_eq!(
        edges(&graph),
        vec![
            "begin -> v == 1?",
            "break -> z",
            "one -> break",
            "other -> z",
            "two -> other",
            "v == 1? -N-> v == 2?",
            "v == 1? -Y-> one",
            "v == 2? -N-> other",
            "v == 2? -Y-> two",
            "z -> end"
        ]
    );
}

#[test]
fn switch_without_default_leaves_when_no_case_fits() {
    let body = block(vec![
        labelled(&["1", "2"], AstNode::Stat("few".to_string())),
        labelled(&["3"], AstNode::Stat("three".to_string())),
    ]);
    let graph = chart(switch("v", &["1", "2", "3"], body));
    assert_eq!(
        edges(&graph),
        vec![
            "begin -> v == 1?",
            "few -> three",
            "three -> end",
            "v == 1? -N-> v == 2?",
            "v == 1? -Y-> few",
            "v == 2? -N-> v == 3?",
            "v == 2? -Y-> few",
            "v == 3? -N-> end",
            "v == 3? -Y-> three"
        ]
    );
}

#[test]
fn default_may_come_first() {
    let body = block(vec![
        labelled(&["default"], AstNode::Stat("other".to_string())),
        labelled(&["1"], AstNode::Stat("one".to_string())),
    ]);
    let graph = chart(switch("v", &["default", "1"], body));
    assert_eq!(
        edges(&graph),
        vec![
            "begin -> v == 1?",
            "one -> end",
            "other -> one",
            "v == 1? -N-> other",
            "v == 1? -Y-> one"
        ]
    );
}

#[test]
fn a_case_that_is_named_twice_is_tested_twice() {
    let body = block(vec![labelled(&["1"], AstNode::Stat("one".to_string()))]);
    let graph = chart(switch("v", &["1", "1"], body));
    assert_eq!(
        edges(&graph),
        vec![
            "begin -> v == 1?",
            "one -> end",
            "v == 1? -N-> end",
            "v == 1? -N-> v == 1?",
            "v == 1? -Y-> one",
            "v == 1? -Y-> one"
        ]
    );
}

#[test]
fn case_labels_belong_to_the_innermost_switch() {
    let inner = block(vec![labelled(&["1"], AstNode::Stat("inner".to_string()))]);
    let body = block(vec![
        switch("w", &["1"], inner),
        labelled(&["1"], AstNode::Stat("outer".to_string())),
    ]);
    let graph = chart(switch("v", &["1"], body));
    assert_eq!(
        edges(&graph),
        vec![
            "begin -> v == 1?",
            "inner -> outer",
            "outer -> end",
            "v == 1? -N-> end",
            "v == 1? -Y-> outer",
            "w == 1? -N-> outer",
            "w == 1? -Y-> inner"
        ]
    );
}

#[test]
fn goto_jumps_back_to_a_label() {
    let graph = chart(block(vec![
        labelled(&["again"], AstNode::Stat("a".to_string())),
        if_then("x", goto("again"), None),
    ]));
    assert_eq!(edges(&graph), vec!["a -> x?", "begin -> a", "x? -N-> end", "x? -Y-> a"]);
}

#[test]
fn goto_jumps_ahead_to_a_label() {
    let graph = chart(block(vec![
        goto("out"),
        stat("a"),
        labelled(&["out"], AstNode::Stat("b".to_string())),
    ]));
    assert_eq!(edges(&graph), vec!["a -> b", "b -> end", "begin -> b"]);
}

#[test]
fn a_label_inside_of_a_switch_is_known_outside() {
    let body = block(vec![
        labelled(&["1"], AstNode::Stat("one".to_string())),
        labelled(&["far"], AstNode::Stat("two".to_string())),
    ]);
    let graph = chart(block(vec![switch("v", &["1"], body), if_then("x", goto("far"), None)]));
    assert_eq!(
        edges(&graph),
        vec![
            "begin -> v == 1?",
            "one -> two",
            "two -> x?",
            "v == 1? -N-> x?",
            "v == 1? -Y-> one",
            "x? -N-> end",
            "x? -Y-> two"
        ]
    );
}

#[test]
fn control_that_falls_into_an_empty_loop_goes_nowhere() {
    let graph = chart(labelled(&["l"], AstNode::Goto("l".to_string())));
    assert_eq!(nodes(&graph), vec!["0:begin", "1:end"]);
    assert_eq!(edges(&graph), vec!["begin -> begin"]);
    let graph = chart(block(vec![
        stat("a"),
        labelled(&["l"], AstNode::Stat("".to_string())),
        goto("l"),
    ]));
    assert_eq!(nodes(&graph), vec!["0:begin", "1:end", "4:a"]);
    assert_eq!(edges(&graph), vec!["begin -> a"]);
}

#[test]
fn edges_are_listed_from_the_newest_to_the_oldest() {
    let graph = chart(if_then("x", stat("a"), Some(stat("b"))));
    let leaving: Vec<usize> = graph
        .neighbors_directed(NodeIndex::new(2), EdgeDirection::Outgoing)
        .map(|index| index.index())
        .collect();
    let entering: Vec<usize> = graph
        .neighbors_directed(NodeIndex::new(1), EdgeDirection::Incoming)
        .map(|index| index.index())
        .collect();
    assert_eq!(nodes(&graph), vec!["0:begin", "1:end", "2:x?", "5:a", "7:b"]);
    assert_eq!(leaving, vec![7, 5]);
    assert_eq!(entering, vec![5, 7]);
}

#[test]
fn a_placeholder_is_an_error() {
    match failure(block(vec![stat("a"), at(AstNode::Dummy, 3, 7)])) {
        Error::UnexpectedDummyAstNode { file_name, source, range } => {
            assert_eq!(file_name, "file.c");
            assert_eq!(source, "text");
            assert_eq!(range, 3..7);
        }
        _ => panic!("another error"),
    }
}

#[test]
fn break_outside_of_a_loop_is_an_error() {
    match failure(block(vec![at(AstNode::Break("break".to_string()), 1, 6)])) {
        Error::UnexpectedBreak { file_name, source, range } => {
            assert_eq!(file_name, "file.c");
            assert_eq!(source, "text");
            assert_eq!(range, 1..6);
        }
        _ => panic!("another error"),
    }
}

#[test]
fn continue_outside_of_a_loop_is_an_error() {
    match failure(at(AstNode::Continue("continue".to_string()), 2, 10)) {
        Error::UnexpectedContinue { file_name, source, range } => {
            assert_eq!(file_name, "file.c");
            assert_eq!(source, "text");
            assert_eq!(range, 2..10);
        }
        _ => panic!("another error"),
    }
}

#[test]
fn continue_in_a_switch_is_an_error_even_inside_of_a_loop() {
    let body = block(vec![labelled(&["1"], AstNode::Continue("continue".to_string()))]);
    match failure(while_loop("x", switch("v", &["1"], body))) {
        Error::UnexpectedContinue { range, .. } => assert_eq!(range, 0..0),
        _ => panic!("another error"),
    }
}

#[test]
fn loops_are_left_with_their_targets_restored() {
    let ast = block(vec![while_loop("x", break_out()), at(AstNode::Break("break".to_string()), 5, 9)]);
    match failure(ast) {
        Error::UnexpectedBreak { range, .. } => assert_eq!(range, 5..9),
        _ => panic!("another error"),
    }
}

#[test]
fn a_jump_to_an_unknown_label_is_an_error() {
    match failure(goto("nowhere")) {
        Error::UnexpectedOutgoingEdges { node_index, neighbors, graph } => {
            assert_eq!(node_index, 2);
            assert_eq!(neighbors, Vec::<u32>::new());
            assert_eq!(nodes(&graph), vec!["0:begin", "1:end", "2:dummy"]);
            assert_eq!(edges(&graph), vec!["begin -> dummy"]);
        }
        _ => panic!("another error"),
    }
}

#[test]
fn a_label_on_two_statements_is_an_error() {
    let ast = block(vec![
        labelled(&["l"], AstNode::Stat("a".to_string())),
        labelled(&["l"], AstNode::Stat("b".to_string())),
        goto("l"),
    ]);
    match failure(ast) {
        Error::UnexpectedOutgoingEdges { node_index, neighbors, graph } => {
            assert_eq!(node_index, 4);
            assert_eq!(neighbors, vec![7, 5]);
            assert_eq!(
                nodes(&graph),
                vec!["0:begin", "1:end", "4:dummy", "5:a", "6:dummy", "7:b"]
            );
            assert_eq!(
                edges(&graph),
                vec![
                    "a -> b",
                    "b -> dummy",
                    "begin -> a",
                    "dummy -> a",
                    "dummy -> b",
                    "dummy -> dummy"
                ]
            );
        }
        _ => panic!("another error"),
    }
}

#[test]
fn a_case_without_its_label_is_an_error() {
    match failure(switch("v", &["1"], stat("a"))) {
        Error::UnexpectedOutgoingEdges { neighbors, .. } => assert!(neighbors.is_empty()),
        _ => panic!("another error"),
    }
}

#[test]
fn a_label_that_nothing_jumps_to_does_no_harm() {
    let ast = block(vec![
        labelled(&["l"], AstNode::Stat("a".to_string())),
        labelled(&["l"], AstNode::Stat("b".to_string())),
    ]);
    assert_eq!(edges(&chart(ast)), vec!["a -> b", "b -> end", "begin -> a"]);
}

#[test]
fn a_switch_without_a_case_to_test_cannot_be_handled() {
    assert!(!is_drawable(&switch("v", &[], stat("a"))));
    assert!(!is_drawable(&switch("v", &["default"], three_cases())));
    assert!(!is_drawable(&while_loop("x", switch("v", &["default"], stat("a")))));
    assert!(is_drawable(&block(vec![break_out(), switch("v", &[], stat("a"))])));
}

#[test]
fn the_first_fault_is_told() {
    let ast = block(vec![
        if_then("x", stat("a"), Some(at(AstNode::Break("break".to_string()), 4, 5))),
        at(AstNode::Dummy, 6, 7),
    ]);
    assert!(matches!(first_fault(&ast, false, false), Some(Fault::Break(range)) if range == (4..5)));
    assert!(
        matches!(first_fault(&ast, true, false), Some(Fault::DummyNode(range)) if range == (6..7))
    );
    assert!(first_fault(&do_while("x", go_on()), false, false).is_none());
    let lacks_case = switch("v", &["default"], stat("a"));
    assert!(matches!(first_fault(&lacks_case, false, false), Some(Fault::NoCase)));
}

/// How many edges of each kind leave a node: normal ones, those for "yes", those for "no".
fn ways_on(graph: &Graph, index: NodeIndex) -> (usize, usize, usize) {
    let mut ways = (0, 0, 0);
    for edge in graph.edges_directed(index, EdgeDirection::Outgoing) {
        match edge.weight() {
            EdgeType::Normal => ways.0 += 1,
            EdgeType::Branch(true) => ways.1 += 1,
            EdgeType::Branch(false) => ways.2 += 1,
        }
    }
    ways
}

#[test]
fn structured_programs_keep_every_way_on() {
    let cases = switch(
        "x",
        &["1", "default", "2"],
        block(vec![
            labelled(&["1"], AstNode::Stat("one".to_string())),
            if_then("p", labelled(&["2"], AstNode::Stat("two".to_string())), Some(break_out())),
            labelled(&["default"], AstNode::Compound(vec![])),
            switch(
                "y",
                &["1"],
                while_loop("q", labelled(&["1"], AstNode::Break("break".to_string()))),
            ),
        ]),
    );
    let program = for_loop(
        "",
        "r",
        "",
        block(vec![
            do_while("s", if_then("t", go_on(), None)),
            cases,
            tree(AstNode::Return("return".to_string())),
        ]),
    );
    let graph = chart(program);
    for (index, weight) in graph.node_references() {
        let expected = match weight {
            GraphNodeType::Choice(_) => (0, 1, 1),
            GraphNodeType::End => (0, 0, 0),
            _ => (1, 0, 0),
        };
        assert_eq!(ways_on(&graph, index), expected, "{}", name(weight));
    }
    let choices = nodes(&graph).iter().filter(|node| node.ends_with('?')).count();
    assert_eq!(choices, 8);
}

#[test]
fn nested_blocks_do_not_change_the_chart() {
    let body = || vec![stat("a"), if_then("x", goto("l"), None), stat("b"), stat("c")];
    let last = || labelled(&["l"], AstNode::Stat("d".to_string()));
    let mut flat = body();
    flat.push(last());
    let one = chart(block(flat));
    let other = chart(block(vec![stat("a"), block(body().split_off(1)), block(vec![]), last()]));
    assert_eq!(edges(&one), edges(&other));
    assert_eq!(one.node_count(), other.node_count());
    let deep = |body| while_loop("y", if_then("z", body, Some(break_out())));
    let one = chart(deep(block(vec![stat("a"), go_on(), stat("b")])));
    let other = chart(deep(block(vec![block(vec![stat("a"), go_on()]), stat("b"), block(vec![])])));
    assert_eq!(edges(&one), edges(&other));
    assert_eq!(one.node_count(), other.node_count());
    assert_eq!(edges(&chart(block(vec![block(vec![])]))), ["begin -> end"]);
    assert_eq!(edges(&chart(block(vec![stat("a"), block(vec![])]))), ["a -> end", "begin -> a"]);
}

#[test]
fn a_nested_block_may_end_in_a_jump_that_goes_nowhere() {
    let jump = || if_then("x", goto("m"), None);
    let trap = || labelled(&["m"], AstNode::Goto("m".to_string()));
    let flat = chart(block(vec![jump(), stat("a"), stat("b"), trap()]));
    assert_eq!(edges(&flat), ["a -> b", "begin -> x?", "x? -N-> a"]);
    let error = failure(block(vec![jump(), block(vec![stat("a"), stat("b")]), trap()]));
    match error {
        Error::UnexpectedOutgoingEdges { neighbors, .. } => assert!(neighbors.is_empty()),
        _ => panic!("another error"),
    }
}

/// A program without jumps and switches, with labels, statements without text and repeated texts.
fn plain_program() -> Rc<Ast> {
    block(vec![
        labelled(&["l", "m"], AstNode::Stat("a".to_string())),
        labelled(&["l"], AstNode::Stat(String::new())),
        while_loop(
            "x",
            block(vec![
                if_then("y", break_out(), Some(go_on())),
                labelled(&["m"], AstNode::Stat("a".to_string())),
            ]),
        ),
        for_loop("i", "x", "", do_while("z", stat("b"))),
        tree(AstNode::Return("return".to_string())),
        stat("c"),
    ])
}

#[test]
fn the_texts_of_a_program_all_stand_in_its_chart() {
    let graph = chart(plain_program());
    let mut found: Vec<String> = graph.node_references().map(|(_, weight)| name(weight)).collect();
    found.sort();
    let expected = [
        "a", "a", "b", "begin", "break", "c", "continue", "end", "i", "return", "x?", "x?", "y?",
        "z?",
    ];
    assert_eq!(found, expected);
    let tests = chart(switch(
        "v",
        &["1", "default", "1"],
        block(vec![
            labelled(&["1"], AstNode::Stat("a".to_string())),
            labelled(&["default"], AstNode::Break("break".to_string())),
        ]),
    ));
    let mut found: Vec<String> = tests.node_references().map(|(_, weight)| name(weight)).collect();
    found.sort();
    assert_eq!(found, ["a", "begin", "break", "end", "v == 1?", "v == 1?"]);
}

#[test]
fn plain_programs_add_up() {
    let graph = chart(plain_program());
    let statements = graph
        .node_references()
        .filter(|(_, weight)| matches!(weight, GraphNodeType::Node(_)))
        .count();
    let conditions = graph
        .node_references()
        .filter(|(_, weight)| matches!(weight, GraphNodeType::Choice(_)))
        .count();
    assert_eq!((statements, conditions), (8, 4));
    assert_eq!(graph.node_count(), 2 + statements + conditions);
    assert_eq!(graph.edge_count(), 1 + statements + 2 * conditions);
}

#[test]
fn plain_programs_come_to_an_end() {
    let graph = chart(plain_program());
    let mut reached = vec![NodeIndex::new(1)];
    let mut seen = 0;
    while seen < reached.len() {
        for before in graph.neighbors_directed(reached[seen], EdgeDirection::Incoming) {
            if !reached.contains(&before) {
                reached.push(before);
            }
        }
        seen += 1;
    }
    assert_eq!(reached.len(), graph.node_count());
}

fn ways_in(graph: &Graph, index: usize) -> usize {
    graph.edges_directed(NodeIndex::new(index), EdgeDirection::Incoming).count()
}

#[test]
fn begin_is_entered_only_through_a_label_of_the_whole_program() {
    assert_eq!(ways_in(&chart(plain_program()), 0), 0);
    let inner = labelled(&["l"], AstNode::Compound(vec![stat("a"), goto("l")]));
    assert_eq!(ways_in(&chart(block(vec![inner])), 0), 0);
    let root = labelled(&["l"], AstNode::Compound(vec![stat("a"), goto("l")]));
    let graph = chart(root);
    assert_eq!(ways_in(&graph, 0), 1);
    assert_eq!(edges(&graph), ["a -> begin", "begin -> a"]);
}

#[test]
fn labels_without_a_jump_do_no_harm_in_a_switch() {
    let program = switch(
        "v",
        &["1", "2"],
        block(vec![
            labelled(&["1", "l"], AstNode::Stat("a".to_string())),
            labelled(&["l", "l"], AstNode::Break("break".to_string())),
            labelled(&["2"], AstNode::Stat("b".to_string())),
        ]),
    );
    let expected = [
        "a -> break",
        "b -> end",
        "begin -> v == 1?",
        "break -> end",
        "v == 1? -N-> v == 2?",
        "v == 1? -Y-> a",
        "v == 2? -N-> end",
        "v == 2? -Y-> b",
    ];
    assert_eq!(edges(&chart(program)), expected);
}
