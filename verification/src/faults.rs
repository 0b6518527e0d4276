//! Which trees have a fault, and which fault that is.

use crate::ast::{texts, Ast, AstNode};
use crate::flow::{tested, Fault};
use crate::limits::{chain_fault, fault_of};
use crate::places::{holds, holds_among};
use std::rc::Rc;
use vstd::prelude::*;

verus! {

/// Whether a switch has a case other than `default`.
pub open spec fn has_case(cases: Seq<Seq<char>>) -> bool {
    exists|j: int| 0 <= j < cases.len() && #[trigger] cases[j] != "default"@
}

/// Whether a statement is none that is wrong wherever it stands: a placeholder, a switch without a
/// case to test, or a switch with a `continue` of its own.
pub open spec fn fine(sub: &Ast) -> bool {
    match &sub.node {
        AstNode::Dummy => false,
        AstNode::Switch { cond, body, cases } => {
            &&& has_case(texts(cases@))
            &&& forall|t: Ast| #[trigger] holds(&**body, &t, true) ==> !(t.node is Continue)
        },
        _ => true,
    }
}

/// Whether the statements of a tree stand where they may: `break` in a loop or switch, `continue`
/// in a loop with no switch in between; unless the tree as a whole stands there.
pub open spec fn well_placed(ast: &Ast, can_break: bool, can_continue: bool) -> bool {
    &&& forall|sub: Ast| #[trigger] holds(ast, &sub, false) ==> fine(&sub)
    &&& can_break || forall|sub: Ast| #[trigger] holds(ast, &sub, true) ==> !(sub.node is Break)
    &&& can_continue || forall|sub: Ast| #[trigger]
        holds(ast, &sub, true) ==> !(sub.node is Continue)
}

/// As [`well_placed`], of the first `k` statements of a block.
spec fn all_placed(v: Seq<Rc<Ast>>, k: nat, can_break: bool, can_continue: bool) -> bool {
    &&& forall|sub: Ast| #[trigger] holds_among(v, k, &sub, false) ==> fine(&sub)
    &&& can_break || forall|sub: Ast| #[trigger]
        holds_among(v, k, &sub, true) ==> !(sub.node is Break)
    &&& can_continue || forall|sub: Ast| #[trigger]
        holds_among(v, k, &sub, true) ==> !(sub.node is Continue)
}

proof fn lemma_has_case(cases: Seq<Seq<char>>)
    ensures
        tested(cases).len() > 0 <==> has_case(cases),
{
    let pred = |name: Seq<char>| name != "default"@;
    let tests = tested(cases);
    if tests.len() > 0 {
        cases.lemma_filter_pred(pred, 0);
        cases.lemma_filter_contains_rev(pred, tests[0]);
        let j = cases.index_of(tests[0]);
        assert(cases[j] != "default"@);
    }
    if has_case(cases) {
        let j = choose|j: int| 0 <= j < cases.len() && #[trigger] cases[j] != "default"@;
        cases.lemma_filter_contains(pred, j);
    }
}

/// A tree has no fault exactly if its statements stand where they may.
pub proof fn faults_are_misplaced_statements(ast: &Ast, can_break: bool, can_continue: bool)
    ensures
        fault_of(ast, can_break, can_continue) is None <==> well_placed(
            ast,
            can_break,
            can_continue,
        ),
    decreases ast, 0nat,
{
    assert(holds(ast, ast, false) && holds(ast, ast, true));
    match &ast.node {
        AstNode::Compound(v) => {
            lemma_all_placed(v@, v@.len(), can_break, can_continue);
            lemma_same_places_block(ast, can_break, can_continue);
        },
        AstNode::If { cond, body, otherwise } => {
            faults_are_misplaced_statements(&**body, can_break, can_continue);
            if let Some(t) = otherwise {
                faults_are_misplaced_statements(&**t, can_break, can_continue);
            }
            lemma_same_places_if(ast, can_break, can_continue);
        },
        AstNode::While { cond, body } => {
            faults_are_misplaced_statements(&**body, true, true);
            lemma_same_places_loop(ast, &**body, can_break, can_continue);
        },
        AstNode::DoWhile { cond, body } => {
            faults_are_misplaced_statements(&**body, true, true);
            lemma_same_places_loop(ast, &**body, can_break, can_continue);
        },
        AstNode::For { init, cond, upd, body } => {
            faults_are_misplaced_statements(&**body, true, true);
            lemma_same_places_loop(ast, &**body, can_break, can_continue);
        },
        AstNode::Switch { cond, body, cases } => {
            lemma_has_case(texts(cases@));
            faults_are_misplaced_statements(&**body, true, false);
            lemma_same_places_switch(ast, can_break, can_continue);
        },
        _ => {
            assert(forall|sub: Ast, own: bool| #[trigger] holds(ast, &sub, own) ==> sub == *ast);
        },
    }
}

/// How a tree's statements follow from those of its parts.
proof fn lemma_placed_from(
    ast: &Ast,
    can_break: bool,
    can_continue: bool,
    parts: spec_fn(Ast, bool) -> bool,
)
    requires
        forall|sub: Ast, own: bool| #[trigger]
            holds(ast, &sub, own) <==> sub == *ast || parts(sub, own),
        !(ast.node is Break),
        !(ast.node is Continue),
    ensures
        well_placed(ast, can_break, can_continue) <==> {
            &&& fine(ast)
            &&& forall|sub: Ast| #[trigger] parts(sub, false) ==> fine(&sub)
            &&& can_break || forall|sub: Ast| #[trigger] parts(sub, true) ==> !(sub.node is Break)
            &&& can_continue || forall|sub: Ast| #[trigger]
                parts(sub, true) ==> !(sub.node is Continue)
        },
{
    assert(holds(ast, ast, false));
    if well_placed(ast, can_break, can_continue) {
        assert forall|sub: Ast| #[trigger] parts(sub, false) implies fine(&sub) by {
            assert(holds(ast, &sub, false));
        }
        assert forall|sub: Ast| #[trigger] parts(sub, true) implies (can_break
            || !(sub.node is Break)) && (can_continue || !(sub.node is Continue)) by {
            assert(holds(ast, &sub, true));
        }
    }
    if {
        &&& fine(ast)
        &&& forall|sub: Ast| #[trigger] parts(sub, false) ==> fine(&sub)
        &&& can_break || forall|sub: Ast| #[trigger] parts(sub, true) ==> !(sub.node is Break)
        &&& can_continue || forall|sub: Ast| #[trigger]
            parts(sub, true) ==> !(sub.node is Continue)
    } {
        assert forall|sub: Ast| #[trigger] holds(ast, &sub, false) implies fine(&sub) by {
            if sub != *ast {
                assert(parts(sub, false));
            }
        }
        assert forall|sub: Ast| #[trigger] holds(ast, &sub, true) implies (can_break
            || !(sub.node is Break)) && (can_continue || !(sub.node is Continue)) by {
            if sub != *ast {
                assert(parts(sub, true));
            }
        }
    }
}

proof fn lemma_same_places_block(ast: &Ast, can_break: bool, can_continue: bool)
    requires
        ast.node is Compound,
    ensures
        well_placed(ast, can_break, can_continue) <==> all_placed(
            ast.node->Compound_0@,
            ast.node->Compound_0@.len(),
            can_break,
            can_continue,
        ),
{
    let v = ast.node->Compound_0@;
    let parts = |sub: Ast, own: bool| holds_among(v, v.len(), &sub, own);
    assert(forall|sub: Ast, own: bool| #[trigger]
        parts(sub, own) == holds_among(v, v.len(), &sub, own));
    lemma_placed_from(ast, can_break, can_continue, parts);
    lemma_parts_among(v, v.len(), can_break, can_continue, parts);
}

proof fn lemma_parts_among(
    v: Seq<Rc<Ast>>,
    k: nat,
    can_break: bool,
    can_continue: bool,
    parts: spec_fn(Ast, bool) -> bool,
)
    requires
        forall|sub: Ast, own: bool| #[trigger] parts(sub, own) == holds_among(v, k, &sub, own),
    ensures
        all_placed(v, k, can_break, can_continue) <==> {
            &&& forall|sub: Ast| #[trigger] parts(sub, false) ==> fine(&sub)
            &&& can_break || forall|sub: Ast| #[trigger] parts(sub, true) ==> !(sub.node is Break)
            &&& can_continue || forall|sub: Ast| #[trigger]
                parts(sub, true) ==> !(sub.node is Continue)
        },
{
    if {
        &&& forall|sub: Ast| #[trigger] parts(sub, false) ==> fine(&sub)
        &&& can_break || forall|sub: Ast| #[trigger] parts(sub, true) ==> !(sub.node is Break)
        &&& can_continue || forall|sub: Ast| #[trigger]
            parts(sub, true) ==> !(sub.node is Continue)
    } {
        assert forall|sub: Ast| #[trigger] holds_among(v, k, &sub, false) implies fine(&sub) by {
            assert(parts(sub, false));
        }
        assert forall|sub: Ast| #[trigger] holds_among(v, k, &sub, true) implies (can_break
            || !(sub.node is Break)) && (can_continue || !(sub.node is Continue)) by {
            assert(parts(sub, true));
        }
    }
}

/// What holds of the statements in two trees holds of those in either.
proof fn lemma_parts_both(
    a: &Ast,
    b: &Ast,
    can_break: bool,
    can_continue: bool,
    parts: spec_fn(Ast, bool) -> bool,
)
    requires
        forall|sub: Ast, own: bool| #[trigger]
            parts(sub, own) <==> holds(a, &sub, own) || holds(b, &sub, own),
    ensures
        well_placed(a, can_break, can_continue) && well_placed(b, can_break, can_continue) <==> {
            &&& forall|sub: Ast| #[trigger] parts(sub, false) ==> fine(&sub)
            &&& can_break || forall|sub: Ast| #[trigger] parts(sub, true) ==> !(sub.node is Break)
            &&& can_continue || forall|sub: Ast| #[trigger]
                parts(sub, true) ==> !(sub.node is Continue)
        },
{
    if {
        &&& forall|sub: Ast| #[trigger] parts(sub, false) ==> fine(&sub)
        &&& can_break || forall|sub: Ast| #[trigger] parts(sub, true) ==> !(sub.node is Break)
        &&& can_continue || forall|sub: Ast| #[trigger]
            parts(sub, true) ==> !(sub.node is Continue)
    } {
        assert forall|sub: Ast| #[trigger] holds(a, &sub, false) implies fine(&sub) by {
            assert(parts(sub, false));
        }
        assert forall|sub: Ast| #[trigger] holds(b, &sub, false) implies fine(&sub) by {
            assert(parts(sub, false));
        }
        assert forall|sub: Ast| #[trigger] holds(a, &sub, true) implies (can_break
            || !(sub.node is Break)) && (can_continue || !(sub.node is Continue)) by {
            assert(parts(sub, true));
        }
        assert forall|sub: Ast| #[trigger] holds(b, &sub, true) implies (can_break
            || !(sub.node is Break)) && (can_continue || !(sub.node is Continue)) by {
            assert(parts(sub, true));
        }
    }
}

proof fn lemma_same_places_if(ast: &Ast, can_break: bool, can_continue: bool)
    requires
        ast.node is If,
    ensures
        well_placed(ast, can_break, can_continue) <==> {
            &&& well_placed(&*ast.node->If_body, can_break, can_continue)
            &&& ast.node->otherwise matches Some(t) ==> well_placed(&*t, can_break, can_continue)
        },
{
    match &ast.node {
        AstNode::If { cond, body, otherwise } => {
            let a = &**body;
            let b = match otherwise {
                Some(t) => &**t,
                None => &**body,
            };
            let parts = |sub: Ast, own: bool| holds(a, &sub, own) || holds(b, &sub, own);
            lemma_placed_from(ast, can_break, can_continue, parts);
            lemma_parts_both(a, b, can_break, can_continue, parts);
        },
        _ => {},
    }
}

proof fn lemma_same_places_loop(ast: &Ast, body: &Ast, can_break: bool, can_continue: bool)
    requires
        match &ast.node {
            AstNode::While { cond, body: b } => **b == *body,
            AstNode::DoWhile { cond, body: b } => **b == *body,
            AstNode::For { init, cond, upd, body: b } => **b == *body,
            _ => false,
        },
    ensures
        well_placed(ast, can_break, can_continue) <==> well_placed(body, true, true),
{
    let parts = |sub: Ast, own: bool| !own && holds(body, &sub, own);
    lemma_placed_from(ast, can_break, can_continue, parts);
    if well_placed(ast, can_break, can_continue) {
        assert forall|sub: Ast| #[trigger] holds(body, &sub, false) implies fine(&sub) by {
            assert(parts(sub, false));
        }
    }
}

proof fn lemma_same_places_switch(ast: &Ast, can_break: bool, can_continue: bool)
    requires
        ast.node is Switch,
    ensures
        well_placed(ast, can_break, can_continue) <==> has_case(texts(ast.node->cases@))
            && well_placed(&*ast.node->Switch_body, true, false),
{
    match &ast.node {
        AstNode::Switch { cond, body, cases } => {
            let b = &**body;
            let parts = |sub: Ast, own: bool| !own && holds(b, &sub, own);
            lemma_placed_from(ast, can_break, can_continue, parts);
            if well_placed(ast, can_break, can_continue) {
                assert forall|sub: Ast| #[trigger] holds(b, &sub, false) implies fine(&sub) by {
                    assert(parts(sub, false));
                }
            }
        },
        _ => {},
    }
}

proof fn lemma_all_placed(v: Seq<Rc<Ast>>, k: nat, can_break: bool, can_continue: bool)
    requires
        k <= v.len(),
    ensures
        chain_fault(v, k, can_break, can_continue) is None <==> all_placed(
            v,
            k,
            can_break,
            can_continue,
        ),
    decreases v, k,
{
    if k > 0 {
        let before = (k - 1) as nat;
        let last = &*v[k - 1];
        lemma_all_placed(v, before, can_break, can_continue);
        faults_are_misplaced_statements(last, can_break, can_continue);
        if all_placed(v, k, can_break, can_continue) {
            assert forall|sub: Ast| #[trigger] holds_among(v, before, &sub, false) implies fine(
                &sub,
            ) by {
                assert(holds_among(v, k, &sub, false));
            }
            assert forall|sub: Ast| #[trigger] holds_among(v, before, &sub, true) implies (can_break
                || !(sub.node is Break)) && (can_continue || !(sub.node is Continue)) by {
                assert(holds_among(v, k, &sub, true));
            }
            assert forall|sub: Ast| #[trigger] holds(last, &sub, false) implies fine(&sub) by {
                assert(holds_among(v, k, &sub, false));
            }
            assert forall|sub: Ast| #[trigger] holds(last, &sub, true) implies (can_break
                || !(sub.node is Break)) && (can_continue || !(sub.node is Continue)) by {
                assert(holds_among(v, k, &sub, true));
            }
        }
        if all_placed(v, before, can_break, can_continue) && well_placed(
            last,
            can_break,
            can_continue,
        ) {
            assert forall|sub: Ast| #[trigger] holds_among(v, k, &sub, false) implies fine(&sub) by {
                assert(holds_among(v, before, &sub, false) || holds(last, &sub, false));
            }
            assert forall|sub: Ast| #[trigger] holds_among(v, k, &sub, true) implies (can_break
                || !(sub.node is Break)) && (can_continue || !(sub.node is Continue)) by {
                assert(holds_among(v, before, &sub, true) || holds(last, &sub, true));
            }
        }
    }
}

/// The fault of a block is the fault of its first statement that has one.
pub proof fn blocks_have_their_first_fault(
    v: Seq<Rc<Ast>>,
    k: nat,
    can_break: bool,
    can_continue: bool,
)
    requires
        k <= v.len(),
    ensures
        chain_fault(v, k, can_break, can_continue) matches Some(fault) ==> exists|i: int|
            0 <= i < k && #[trigger] fault_of(&*v[i], can_break, can_continue) == Some(fault)
                && forall|j: int|
                0 <= j < i ==> #[trigger] fault_of(&*v[j], can_break, can_continue) is None,
        chain_fault(v, k, can_break, can_continue) is None ==> forall|j: int|
            0 <= j < k ==> #[trigger] fault_of(&*v[j], can_break, can_continue) is None,
    decreases k,
{
    if k > 0 {
        blocks_have_their_first_fault(v, (k - 1) as nat, can_break, can_continue);
        if chain_fault(v, (k - 1) as nat, can_break, can_continue) is None && fault_of(
            &*v[k - 1],
            can_break,
            can_continue,
        ) is Some {
            let fault = fault_of(&*v[k - 1], can_break, can_continue)->0;
            assert(fault_of(&*v[k - 1], can_break, can_continue) == Some(fault));
        }
    }
}

/// The fault of a condition is that of its first branch, or else that of its second one.
pub proof fn conditions_have_their_first_fault(ast: &Ast, can_break: bool, can_continue: bool)
    requires
        ast.node is If,
    ensures
        ({
            let first = fault_of(&*ast.node->If_body, can_break, can_continue);
            let whole = fault_of(ast, can_break, can_continue);
            &&& first is Some ==> whole == first
            &&& first is None ==> match ast.node->otherwise {
                Some(t) => whole == fault_of(&*t, can_break, can_continue),
                None => whole is None,
            }
        }),
{
}

/// Whether a fault tells of a statement that stands in a tree where it may not.
pub open spec fn blames(
    ast: &Ast,
    fault: Fault,
    sub: &Ast,
    can_break: bool,
    can_continue: bool,
) -> bool {
    match fault {
        Fault::DummyNode(range) => holds(ast, sub, false) && sub.node is Dummy && sub.range == range,
        Fault::Break(range) => !can_break && holds(ast, sub, true) && sub.node is Break && sub.range
            == range,
        Fault::Continue(range) => sub.node is Continue && sub.range == range && {
            ||| !can_continue && holds(ast, sub, true)
            ||| exists|s: Ast| #[trigger]
                holds(ast, &s, false) && (s.node matches AstNode::Switch { cond, body, cases }
                    && holds(&*body, sub, true))
        },
        Fault::NoCase => holds(ast, sub, false) && (sub.node matches AstNode::Switch {
            cond,
            body,
            cases,
        } && !has_case(texts(cases@))),
    }
}

/// The fault that is told of stands in the tree.
pub proof fn faults_stand_in_the_tree(ast: &Ast, can_break: bool, can_continue: bool) -> (sub: Ast)
    requires
        fault_of(ast, can_break, can_continue) is Some,
    ensures
        blames(ast, fault_of(ast, can_break, can_continue)->0, &sub, can_break, can_continue),
    decreases ast, 0nat,
{
    let fault = fault_of(ast, can_break, can_continue)->0;
    assert(holds(ast, ast, false) && holds(ast, ast, true));
    match &ast.node {
        AstNode::Compound(v) => {
            let sub = lemma_chain_blames(v@, v@.len(), can_break, can_continue);
            if let Fault::Continue(range) = fault {
                if !holds(ast, &sub, true) || can_continue {
                    let s = choose|s: Ast| #[trigger]
                        holds_among(v@, v@.len(), &s, false) && (s.node matches AstNode::Switch {
                            cond,
                            body,
                            cases,
                        } && holds(&*body, &sub, true));
                    assert(holds(ast, &s, false));
                }
            }
            sub
        },
        AstNode::If { cond, body, otherwise } => {
            if fault_of(&**body, can_break, can_continue) is Some {
                let sub = faults_stand_in_the_tree(&**body, can_break, can_continue);
                lemma_blames_up(ast, &**body, fault, &sub, can_break, can_continue);
                sub
            } else {
                match otherwise {
                    Some(t) => {
                        let sub = faults_stand_in_the_tree(&**t, can_break, can_continue);
                        lemma_blames_up(ast, &**t, fault, &sub, can_break, can_continue);
                        sub
                    },
                    None => *ast,
                }
            }
        },
        AstNode::While { cond, body } => {
            let sub = faults_stand_in_the_tree(&**body, true, true);
            lemma_blames_out(ast, &**body, fault, &sub, true, can_break, can_continue);
            sub
        },
        AstNode::DoWhile { cond, body } => {
            let sub = faults_stand_in_the_tree(&**body, true, true);
            lemma_blames_out(ast, &**body, fault, &sub, true, can_break, can_continue);
            sub
        },
        AstNode::For { init, cond, upd, body } => {
            let sub = faults_stand_in_the_tree(&**body, true, true);
            lemma_blames_out(ast, &**body, fault, &sub, true, can_break, can_continue);
            sub
        },
        AstNode::Switch { cond, body, cases } => {
            lemma_has_case(texts(cases@));
            if tested(texts(cases@)).len() == 0 {
                *ast
            } else {
                let sub = faults_stand_in_the_tree(&**body, true, false);
                lemma_blames_out(ast, &**body, fault, &sub, false, can_break, can_continue);
                sub
            }
        },
        _ => *ast,
    }
}

/// A statement of a condition's branch.
proof fn lemma_blames_up(
    ast: &Ast,
    part: &Ast,
    fault: Fault,
    sub: &Ast,
    can_break: bool,
    can_continue: bool,
)
    requires
        blames(part, fault, sub, can_break, can_continue),
        forall|s: Ast, own: bool| #[trigger] holds(part, &s, own) ==> holds(ast, &s, own),
    ensures
        blames(ast, fault, sub, can_break, can_continue),
{
    assert(holds(part, sub, true) ==> holds(ast, sub, true));
    assert(holds(part, sub, false) ==> holds(ast, sub, false));
    if let Fault::Continue(range) = fault {
        if can_continue || !holds(part, sub, true) {
            let s = choose|s: Ast| #[trigger]
                holds(part, &s, false) && (s.node matches AstNode::Switch { cond, body, cases }
                    && holds(&*body, sub, true));
            assert(holds(ast, &s, false));
        }
    }
}

/// A statement of the body of a loop or switch.
proof fn lemma_blames_out(
    ast: &Ast,
    part: &Ast,
    fault: Fault,
    sub: &Ast,
    inner: bool,
    can_break: bool,
    can_continue: bool,
)
    requires
        blames(part, fault, sub, true, inner),
        forall|s: Ast| #[trigger] holds(part, &s, false) ==> holds(ast, &s, false),
        inner || (ast.node matches AstNode::Switch { cond, body, cases } && *body == *part),
        holds(ast, ast, false),
    ensures
        blames(ast, fault, sub, can_break, can_continue),
{
    assert(holds(part, sub, false) ==> holds(ast, sub, false));
    if let Fault::Continue(range) = fault {
        if inner || !holds(part, sub, true) {
            let s = choose|s: Ast| #[trigger]
                holds(part, &s, false) && (s.node matches AstNode::Switch { cond, body, cases }
                    && holds(&*body, sub, true));
            assert(holds(ast, &s, false));
        } else {
            let s = *ast;
            assert(holds(ast, &s, false));
        }
    }
}

proof fn lemma_chain_blames(
    v: Seq<Rc<Ast>>,
    k: nat,
    can_break: bool,
    can_continue: bool,
) -> (sub: Ast)
    requires
        chain_fault(v, k, can_break, can_continue) is Some,
    ensures
        match chain_fault(v, k, can_break, can_continue)->0 {
            Fault::DummyNode(range) => holds_among(v, k, &sub, false) && sub.node is Dummy
                && sub.range == range,
            Fault::Break(range) => !can_break && holds_among(v, k, &sub, true) && sub.node is Break
                && sub.range == range,
            Fault::Continue(range) => sub.node is Continue && sub.range == range && {
                ||| !can_continue && holds_among(v, k, &sub, true)
                ||| exists|s: Ast| #[trigger]
                    holds_among(v, k, &s, false) && (s.node matches AstNode::Switch {
                        cond,
                        body,
                        cases,
                    } && holds(&*body, &sub, true))
            },
            Fault::NoCase => holds_among(v, k, &sub, false) && (
            sub.node matches AstNode::Switch { cond, body, cases } && !has_case(texts(cases@))),
        },
    decreases v, k,
{
    let fault = chain_fault(v, k, can_break, can_continue)->0;
    if chain_fault(v, (k - 1) as nat, can_break, can_continue) is Some {
        let sub = lemma_chain_blames(v, (k - 1) as nat, can_break, can_continue);
        if let Fault::Continue(range) = fault {
            if can_continue || !holds_among(v, (k - 1) as nat, &sub, true) {
                let s = choose|s: Ast| #[trigger]
                    holds_among(v, (k - 1) as nat, &s, false) && (
                    s.node matches AstNode::Switch { cond, body, cases } && holds(
                        &*body,
                        &sub,
                        true,
                    ));
                assert(holds_among(v, k, &s, false));
            }
        }
        sub
    } else {
        let sub = faults_stand_in_the_tree(&*v[k - 1], can_break, can_continue);
        if let Fault::Continue(range) = fault {
            if can_continue || !holds(&*v[k - 1], &sub, true) {
                let s = choose|s: Ast| #[trigger]
                    holds(&*v[k - 1], &s, false) && (s.node matches AstNode::Switch {
                        cond,
                        body,
                        cases,
                    } && holds(&*body, &sub, true));
                assert(holds_among(v, k, &s, false));
            }
        }
        sub
    }
}

} // verus!
