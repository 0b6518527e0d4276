//! Ranks that fall along the joints of a draft, for programs without `goto`.

use crate::ast::{texts, Ast, AstNode};
use crate::flow::{
    build, build_block, build_chain, build_node, build_switch, case_joints, case_test, lookup,
    tested, Chain, Frame, Net,
};
use crate::growth::{
    lemma_bind, lemma_build, lemma_build_chain, lemma_case_joints, lemma_edge, lemma_grows_numbers,
    lemma_joints, lemma_jump_table, lemma_labelled, lemma_lookup, lemma_lookup_none, lemma_node,
    lemma_open_block, lemma_open_do_while, lemma_open_else, lemma_open_for, lemma_open_if,
    lemma_open_switch, lemma_open_while, lemma_tested, with_table,
};
use crate::laws::passing;
use crate::model::{lemma_lists, GraphView};
use crate::node::{EdgeType, NodeLabel};
use crate::structured::{
    chain_marks, marks, marks_inside, occurrences, structured, structured_chain,
};
use crate::widening::{
    drawing_widens_labels, injective, lemma_bind_widens, lemma_labelled_widens, lemma_leave_widens,
    lemma_outer_stays, lemma_widened_injective, lemma_widened_lookup, lemma_widened_same,
    lemma_widened_then,
};
use std::rc::Rc;
use vstd::prelude::*;

verus! {

/// How many ranks the joints and statements of a tree need.
pub open spec fn height(ast: &Ast) -> nat
    decreases ast, 0nat,
{
    match &ast.node {
        AstNode::Compound(v) => 2 + chain_height(v@, v@.len()),
        AstNode::If { cond, body, otherwise } => 2 + height(&**body) + match otherwise {
            Some(t) => height(&**t),
            None => 0,
        },
        AstNode::While { cond, body } => 2 + height(&**body),
        AstNode::DoWhile { cond, body } => 2 + height(&**body),
        AstNode::For { init, cond, upd, body } => 3 + height(&**body),
        AstNode::Switch { cond, body, cases } => 2 + height(&**body),
        _ => 1,
    }
}

/// How many ranks the first `k` statements of a block need, with a joint after each.
pub open spec fn chain_height(v: Seq<Rc<Ast>>, k: nat) -> nat
    decreases v, k,
{
    if k == 0 || k > v.len() {
        0
    } else {
        chain_height(v, (k - 1) as nat) + height(&*v[k - 1]) + 1
    }
}

impl GraphView {
    /// Whether `i` is a node that is only there while the chart is drawn.
    pub open spec fn passes_through(self, i: int) -> bool {
        self.live(i) && passing(self.nodes[i]->0)
    }

    /// Whether node `i`, if control just passes through it, leads on to one node, and that one has
    /// a lower rank if control just passes through it too.
    pub open spec fn descends(self, rank: spec_fn(int) -> nat, i: int) -> bool {
        self.passes_through(i) ==> {
            &&& self.out[i].len() == 1
            &&& self.passes_through(self.out[i][0].node) ==> rank(self.out[i][0].node) < rank(i)
        }
    }
}

/// Whether node `i` is what a label stands for.
pub open spec fn visible(scopes: Seq<Map<Seq<char>, int>>, i: int) -> bool {
    exists|name: Seq<char>| #[trigger] lookup(scopes, name) == Some(i)
}

/// Whether ranks stay as they are below `next`.
pub open spec fn same_ranks(old: spec_fn(int) -> nat, new: spec_fn(int) -> nat, next: int) -> bool {
    forall|i: int| 0 <= i < next ==> #[trigger] new(i) == old(i)
}

/// Whether the rank of `i` is not above `high`, if control just passes through `i`.
pub open spec fn below(net: Net, rank: spec_fn(int) -> nat, high: nat, i: int) -> bool {
    net.graph.passes_through(i) ==> rank(i) <= high
}

/// Whether labels lead to ranks that are not above `high`.
pub open spec fn safe(net: Net, rank: spec_fn(int) -> nat, high: nat) -> bool {
    forall|s: int, j: int|
        visible(net.scopes, s) && 0 <= j < net.graph.out[s].len() ==> below(
            net,
            rank,
            high,
            (#[trigger] net.graph.out[s][j]).node,
        )
}

impl Net {
    /// Whether `later` has the same labels and nodes, and the same edges from them but for node
    /// `except`.
    pub open spec fn steady(self, later: Net, except: int) -> bool {
        &&& later.scopes == self.scopes
        &&& self.next() <= later.next()
        &&& later.graph.out.len() == later.graph.nodes.len()
        &&& forall|i: int|
            0 <= i < self.next() ==> #[trigger] later.graph.nodes[i] == self.graph.nodes[i]
        &&& forall|i: int|
            0 <= i < self.next() && i != except ==> #[trigger] later.graph.out[i]
                == self.graph.out[i]
    }

    /// Whether `later` has the same nodes and the same edges from them, but for node `except`, and
    /// but for new edges from the nodes that labels stand for; and new labels only in the
    /// outermost scope.
    pub open spec fn marked(
        self,
        later: Net,
        except: int,
        counts: spec_fn(Seq<char>) -> nat,
    ) -> bool {
        &&& self.widened(later)
        &&& self.next() <= later.next()
        &&& later.graph.out.len() == later.graph.nodes.len()
        &&& forall|i: int|
            0 <= i < self.next() ==> #[trigger] later.graph.nodes[i] == self.graph.nodes[i]
        &&& forall|i: int|
            0 <= i < self.next() && i != except && !visible(self.scopes, i)
                ==> #[trigger] later.graph.out[i] == self.graph.out[i]
        &&& forall|name: Seq<char>| #[trigger]
            lookup(self.scopes, name) matches Some(s) ==> later.graph.out[s].len()
                == self.graph.out[s].len() + counts(name)
    }
}

/// Whether there is room below the rank of the frame's source, and not above `high`, for a
/// statement of this height, and the frame's targets are below that room.
pub open spec fn has_room(
    net: Net,
    frame: Frame,
    rank: spec_fn(int) -> nat,
    low: nat,
    room: nat,
    high: nat,
) -> bool {
    &&& rank(frame.sink) <= low
    &&& rank(frame.end) <= low
    &&& frame.break_target matches Some(t) ==> rank(t) <= low
    &&& frame.continue_target matches Some(t) ==> rank(t) <= low
    &&& low + room <= high
    &&& net.graph.passes_through(frame.source) ==> {
        &&& low + room < rank(frame.source) <= high
        &&& net.graph.out[frame.source].len() == 0
    }
}

/// Whether the labels in scope are fit for a statement that is entered from `source`.
pub open spec fn labels_ready(
    net: Net,
    source: int,
    rank: spec_fn(int) -> nat,
    high: nat,
) -> bool {
    &&& injective(net.scopes)
    &&& safe(net, rank, high)
    &&& !visible(net.scopes, source)
}

/// What a drawn statement leaves behind: edges from the source, from new nodes and from labels
/// only, all of them downwards but for those from labels in the outermost scope.
pub open spec fn settled(
    net: Net,
    after: Net,
    source: int,
    old: spec_fn(int) -> nat,
    rank: spec_fn(int) -> nat,
    high: nat,
    counts: spec_fn(Seq<char>) -> nat,
) -> bool {
    &&& same_ranks(old, rank, net.next())
    &&& net.marked(after, source, counts)
    &&& safe(after, rank, high)
    &&& after.graph.descends(rank, source)
    &&& forall|i: int|
        net.next() <= i < after.next() && !after.outer(i) ==> #[trigger] after.graph.descends(
            rank,
            i,
        )
}

/// As [`settled`], but for the statement that runs from node `inner`, which is not drawn yet.
pub open spec fn prepared(
    net: Net,
    opened: Net,
    source: int,
    inner: int,
    old: spec_fn(int) -> nat,
    mid: spec_fn(int) -> nat,
    high: nat,
    counts: spec_fn(Seq<char>) -> nat,
) -> bool {
    &&& same_ranks(old, mid, net.next())
    &&& net.marked(opened, source, counts)
    &&& safe(opened, mid, high)
    &&& opened.graph.descends(mid, source)
    &&& forall|i: int|
        net.next() <= i < opened.next() && i != inner && !opened.outer(i)
            ==> #[trigger] opened.graph.descends(mid, i)
}

/// What the start of a statement leaves behind for the statement inside of it.
pub open spec fn opens(
    net: Net,
    opened: Net,
    source: int,
    inner: int,
    old: spec_fn(int) -> nat,
    mid: spec_fn(int) -> nat,
) -> bool {
    &&& same_ranks(old, mid, net.next())
    &&& net.steady(opened, source)
    &&& opened.graph.descends(mid, source)
    &&& forall|i: int|
        net.next() <= i < opened.next() && i != inner ==> #[trigger] opened.graph.descends(mid, i)
}

/// No marks.
pub open spec fn unmarked() -> spec_fn(Seq<char>) -> nat {
    |name: Seq<char>| 0
}

/// The ranks with another one for node `at`.
pub open spec fn with_rank(rank: spec_fn(int) -> nat, at: int, value: nat) -> spec_fn(int) -> nat {
    |i: int|
        if i == at {
            value
        } else {
            rank(i)
        }
}

/// What a label stands for is a node.
pub proof fn lemma_visible(net: Net)
    requires
        net.scoped(),
    ensures
        forall|i: int| #[trigger] visible(net.scopes, i) ==> 0 <= i < net.next(),
        forall|name: Seq<char>| #[trigger]
            lookup(net.scopes, name) matches Some(s) ==> 0 <= s < net.next() && visible(
                net.scopes,
                s,
            ),
{
    assert forall|name: Seq<char>| (#[trigger] lookup(net.scopes, name)) is Some implies 0
        <= lookup(net.scopes, name)->0 < net.next() && visible(
        net.scopes,
        lookup(net.scopes, name)->0,
    ) by {
        lemma_lookup(net, name);
    }
    assert forall|i: int| #[trigger] visible(net.scopes, i) implies 0 <= i < net.next() by {
        let name = choose|name: Seq<char>| #[trigger] lookup(net.scopes, name) == Some(i);
        lemma_lookup(net, name);
    }
}

/// What new labels stand for is new.
pub proof fn lemma_widened_visible(net: Net, later: Net)
    requires
        net.scoped(),
        net.widened(later),
    ensures
        forall|i: int|
            0 <= i < net.next() ==> #[trigger] visible(later.scopes, i) == visible(net.scopes, i),
        forall|i: int|
            net.next() <= i && #[trigger] visible(later.scopes, i) ==> later.outer(i),
        forall|name: Seq<char>|
            lookup(net.scopes, name) is Some ==> #[trigger] lookup(later.scopes, name) == lookup(
                net.scopes,
                name,
            ),
{
    assert forall|name: Seq<char>| lookup(net.scopes, name) is Some implies #[trigger] lookup(
        later.scopes,
        name,
    ) == lookup(net.scopes, name) by {
        lemma_widened_lookup(net, later, name);
    }
    assert forall|i: int| 0 <= i < net.next() implies #[trigger] visible(later.scopes, i)
        == visible(net.scopes, i) by {
        if visible(later.scopes, i) {
            let name = choose|name: Seq<char>| #[trigger] lookup(later.scopes, name) == Some(i);
            lemma_widened_lookup(net, later, name);
            assert(lookup(net.scopes, name) == Some(i));
        }
        if visible(net.scopes, i) {
            let name = choose|name: Seq<char>| #[trigger] lookup(net.scopes, name) == Some(i);
            assert(lookup(later.scopes, name) == Some(i));
        }
    }
    assert forall|i: int| net.next() <= i && #[trigger] visible(later.scopes, i) implies later.outer(
        i,
    ) by {
        let name = choose|name: Seq<char>| #[trigger] lookup(later.scopes, name) == Some(i);
        lemma_widened_lookup(net, later, name);
        lemma_lookup(net, name);
    }
}

/// A node whose edges stay as they are keeps leading downwards.
proof fn lemma_kept(
    net: Net,
    later: Net,
    old: spec_fn(int) -> nat,
    rank: spec_fn(int) -> nat,
    i: int,
)
    requires
        net.graph.wf(),
        0 <= i < net.next() <= later.next(),
        forall|j: int|
            0 <= j < net.next() ==> #[trigger] later.graph.nodes[j] == net.graph.nodes[j],
        later.graph.out[i] == net.graph.out[i],
        same_ranks(old, rank, net.next()),
        net.graph.descends(old, i),
    ensures
        later.graph.descends(rank, i),
{
    reveal(GraphView::wf);
    assert(later.graph.nodes[i] == net.graph.nodes[i]);
    if later.graph.passes_through(i) {
        let t = net.graph.out[i][0].node;
        assert(net.graph.live(t));
        assert(later.graph.nodes[t] == net.graph.nodes[t]);
        assert(rank(t) == old(t));
        assert(rank(i) == old(i));
    }
}

/// Labels whose edges stay as they are keep leading to the same ranks.
proof fn lemma_safe_kept(
    net: Net,
    later: Net,
    old: spec_fn(int) -> nat,
    rank: spec_fn(int) -> nat,
    high: nat,
)
    requires
        net.ok(),
        later.scopes == net.scopes,
        net.next() <= later.next(),
        forall|j: int|
            0 <= j < net.next() ==> #[trigger] later.graph.nodes[j] == net.graph.nodes[j],
        forall|s: int| #[trigger]
            visible(net.scopes, s) ==> later.graph.out[s] == net.graph.out[s],
        same_ranks(old, rank, net.next()),
        safe(net, old, high),
    ensures
        safe(later, rank, high),
{
    lemma_visible(net);
    assert forall|s: int, j: int|
        visible(later.scopes, s) && 0 <= j < later.graph.out[s].len() implies below(
        later,
        rank,
        high,
        (#[trigger] later.graph.out[s][j]).node,
    ) by {
        assert(visible(net.scopes, s));
        let t = net.graph.out[s][j].node;
        assert(below(net, old, high, t));
        assert(net.graph.live(t)) by {
            reveal(GraphView::wf);
        }
        assert(later.graph.nodes[t] == net.graph.nodes[t]);
        assert(rank(t) == old(t));
    }
}

/// The start of a statement leaves the labels as they are.
proof fn lemma_opens(
    net: Net,
    opened: Net,
    source: int,
    inner: int,
    old: spec_fn(int) -> nat,
    mid: spec_fn(int) -> nat,
    high: nat,
)
    requires
        net.ok(),
        net.next() <= inner,
        opens(net, opened, source, inner, old, mid),
        labels_ready(net, source, old, high),
    ensures
        prepared(net, opened, source, inner, old, mid, high, unmarked()),
        labels_ready(opened, inner, mid, high),
{
    lemma_visible(net);
    assert forall|s: int| #[trigger] visible(net.scopes, s) implies opened.graph.out[s]
        == net.graph.out[s] by {
        assert(s != source);
    }
    lemma_safe_kept(net, opened, old, mid, high);
    lemma_widened_same(net, opened);
    assert forall|name: Seq<char>| (#[trigger] lookup(net.scopes, name)) is Some implies {
        let s = lookup(net.scopes, name)->0;
        opened.graph.out[s].len() == net.graph.out[s].len() + unmarked()(name)
    } by {
        assert(visible(net.scopes, lookup(net.scopes, name)->0));
    }
}

/// A statement that is drawn inside of another one, from a joint that the outer one has made.
proof fn lemma_inner(
    net: Net,
    opened: Net,
    after: Net,
    source: int,
    inner: int,
    old: spec_fn(int) -> nat,
    mid: spec_fn(int) -> nat,
    rank: spec_fn(int) -> nat,
    high: nat,
    first: spec_fn(Seq<char>) -> nat,
    second: spec_fn(Seq<char>) -> nat,
    counts: spec_fn(Seq<char>) -> nat,
)
    requires
        0 <= source < net.next() <= inner < opened.next(),
        net.ok(),
        opened.graph.wf(),
        !visible(net.scopes, source),
        prepared(net, opened, source, inner, old, mid, high, first),
        settled(opened, after, inner, mid, rank, high, second),
        forall|name: Seq<char>| #[trigger] counts(name) == first(name) + second(name),
    ensures
        settled(net, after, source, old, rank, high, counts),
{
    lemma_visible(net);
    lemma_widened_visible(net, opened);
    lemma_widened_then(net, opened, after);
    assert forall|i: int| 0 <= i < net.next() implies #[trigger] rank(i) == old(i) by {
        assert(mid(i) == old(i));
    }
    assert forall|i: int| 0 <= i < net.next() implies #[trigger] after.graph.nodes[i]
        == net.graph.nodes[i] by {
        assert(opened.graph.nodes[i] == net.graph.nodes[i]);
    }
    assert forall|i: int|
        0 <= i < net.next() && i != source && !visible(
            net.scopes,
            i,
        ) implies #[trigger] after.graph.out[i] == net.graph.out[i] by {
        assert(opened.graph.out[i] == net.graph.out[i]);
    }
    assert forall|name: Seq<char>| (#[trigger] lookup(net.scopes, name)) is Some implies {
        let s = lookup(net.scopes, name)->0;
        after.graph.out[s].len() == net.graph.out[s].len() + counts(name)
    } by {
        assert(lookup(opened.scopes, name) == lookup(net.scopes, name));
    }
    assert(!visible(opened.scopes, source));
    lemma_kept(opened, after, mid, rank, source);
    assert forall|i: int|
        net.next() <= i < after.next() && !after.outer(i) implies #[trigger] after.graph.descends(
        rank,
        i,
    ) by {
        if i < opened.next() && i != inner {
            if opened.outer(i) {
                lemma_outer_stays(opened, after, i);
            }
            assert(!visible(opened.scopes, i));
            lemma_kept(opened, after, mid, rank, i);
        }
    }
}

/// A statement that is one node.
proof fn lemma_step_rank(
    n: Net,
    frame: Frame,
    text: Seq<char>,
    target: int,
    old: spec_fn(int) -> nat,
    low: nat,
    high: nat,
) -> (rank: spec_fn(int) -> nat)
    requires
        n.ok(),
        frame.within(n),
        has_room(n, frame, old, low, 1, high),
        labels_ready(n, frame.source, old, high),
        0 <= target < n.next(),
        old(target) <= low,
    ensures
        settled(n, n.step(frame, text, target), frame.source, old, rank, high, unmarked()),
{
    let c = n.next();
    let rank = with_rank(old, c, low + 1);
    let after = n.step(frame, text, target);
    lemma_lists(n.graph);
    assert(opens(n, after, frame.source, c, old, rank));
    lemma_opens(n, after, frame.source, c, old, rank, high);
    rank
}

/// The ranks of a condition that two joints follow.
pub open spec fn choice_ranks(old: spec_fn(int) -> nat, c: int, low: nat, h: nat) -> spec_fn(int) -> nat {
    |i: int|
        if i == c {
            0
        } else if i == c + 1 {
            low + h + 2
        } else if i == c + 2 {
            low + 1
        } else {
            old(i)
        }
}

/// The ranks of a condition after two joints.
pub open spec fn do_ranks(old: spec_fn(int) -> nat, c: int, low: nat, h: nat) -> spec_fn(int) -> nat {
    |i: int|
        if i == c {
            low + h + 2
        } else if i == c + 1 {
            low + 1
        } else if i == c + 2 {
            0
        } else {
            old(i)
        }
}

/// The ranks of two joints, a condition and the two statements around it.
pub open spec fn for_ranks(old: spec_fn(int) -> nat, c: int, low: nat, h: nat) -> spec_fn(int) -> nat {
    |i: int|
        if i == c {
            low + h + 3
        } else if i == c + 1 {
            low + 2
        } else if i == c + 2 {
            0
        } else if i == c + 3 {
            low + 1
        } else if i == c + 4 {
            low + 1
        } else {
            old(i)
        }
}

proof fn lemma_if_rank(
    n: Net,
    frame: Frame,
    cond: Seq<char>,
    old: spec_fn(int) -> nat,
    low: nat,
    h: nat,
    high: nat,
)
    requires
        n.ok(),
        frame.within(n),
        has_room(n, frame, old, low, h + 2, high),
        labels_ready(n, frame.source, old, high),
    ensures
        prepared(
            n,
            n.open_if(frame, cond),
            frame.source,
            n.next() + 1,
            old,
            choice_ranks(old, n.next(), low, h),
            high,
            unmarked(),
        ),
        labels_ready(
            n.open_if(frame, cond),
            n.next() + 1,
            choice_ranks(old, n.next(), low, h),
            high,
        ),
        has_room(
            n.open_if(frame, cond),
            frame.between(n.next() + 1, n.next() + 2),
            choice_ranks(old, n.next(), low, h),
            low + 1,
            h,
            high,
        ),
{
    let mid = choice_ranks(old, n.next(), low, h);
    let opened = n.open_if(frame, cond);
    lemma_lists(n.graph);
    assert(opens(n, opened, frame.source, n.next() + 1, old, mid));
    lemma_opens(n, opened, frame.source, n.next() + 1, old, mid, high);
}

proof fn lemma_while_rank(
    n: Net,
    frame: Frame,
    cond: Seq<char>,
    old: spec_fn(int) -> nat,
    low: nat,
    h: nat,
    high: nat,
)
    requires
        n.ok(),
        frame.within(n),
        has_room(n, frame, old, low, h + 2, high),
        labels_ready(n, frame.source, old, high),
    ensures
        prepared(
            n,
            n.open_while(frame, cond),
            frame.source,
            n.next() + 1,
            old,
            choice_ranks(old, n.next(), low, h),
            high,
            unmarked(),
        ),
        labels_ready(
            n.open_while(frame, cond),
            n.next() + 1,
            choice_ranks(old, n.next(), low, h),
            high,
        ),
        has_room(
            n.open_while(frame, cond),
            frame.looping(n.next() + 1, n.next() + 2, n.next()),
            choice_ranks(old, n.next(), low, h),
            low + 1,
            h,
            high,
        ),
{
    let mid = choice_ranks(old, n.next(), low, h);
    let opened = n.open_while(frame, cond);
    lemma_lists(n.graph);
    assert(opens(n, opened, frame.source, n.next() + 1, old, mid));
    lemma_opens(n, opened, frame.source, n.next() + 1, old, mid, high);
}

proof fn lemma_do_while_rank(
    n: Net,
    frame: Frame,
    cond: Seq<char>,
    old: spec_fn(int) -> nat,
    low: nat,
    h: nat,
    high: nat,
)
    requires
        n.ok(),
        frame.within(n),
        has_room(n, frame, old, low, h + 2, high),
        labels_ready(n, frame.source, old, high),
    ensures
        prepared(
            n,
            n.open_do_while(frame, cond),
            frame.source,
            n.next(),
            old,
            do_ranks(old, n.next(), low, h),
            high,
            unmarked(),
        ),
        labels_ready(
            n.open_do_while(frame, cond),
            n.next(),
            do_ranks(old, n.next(), low, h),
            high,
        ),
        has_room(
            n.open_do_while(frame, cond),
            frame.looping(n.next(), n.next() + 1, n.next() + 2),
            do_ranks(old, n.next(), low, h),
            low + 1,
            h,
            high,
        ),
{
    let mid = do_ranks(old, n.next(), low, h);
    let opened = n.open_do_while(frame, cond);
    lemma_lists(n.graph);
    assert(opens(n, opened, frame.source, n.next(), old, mid));
    lemma_opens(n, opened, frame.source, n.next(), old, mid, high);
}

proof fn lemma_for_rank(
    n: Net,
    frame: Frame,
    init: Seq<char>,
    cond: Seq<char>,
    upd: Seq<char>,
    old: spec_fn(int) -> nat,
    low: nat,
    h: nat,
    high: nat,
)
    requires
        n.ok(),
        frame.within(n),
        has_room(n, frame, old, low, h + 3, high),
        labels_ready(n, frame.source, old, high),
    ensures
        prepared(
            n,
            n.open_for(frame, init, cond, upd),
            frame.source,
            n.next(),
            old,
            for_ranks(old, n.next(), low, h),
            high,
            unmarked(),
        ),
        labels_ready(
            n.open_for(frame, init, cond, upd),
            n.next(),
            for_ranks(old, n.next(), low, h),
            high,
        ),
        has_room(
            n.open_for(frame, init, cond, upd),
            frame.looping(n.next(), n.next() + 1, n.next() + 4),
            for_ranks(old, n.next(), low, h),
            low + 2,
            h,
            high,
        ),
{
    let mid = for_ranks(old, n.next(), low, h);
    let opened = n.open_for(frame, init, cond, upd);
    lemma_lists(n.graph);
    assert(opens(n, opened, frame.source, n.next(), old, mid));
    lemma_opens(n, opened, frame.source, n.next(), old, mid, high);
}

/// Labels lead to the statement that bears them.
proof fn lemma_labelled_rank(
    net: Net,
    names: Seq<Seq<char>>,
    k: nat,
    source: int,
    rank: spec_fn(int) -> nat,
    high: nat,
)
    requires
        net.ok(),
        0 <= source < net.next(),
        labels_ready(net, source, rank, high),
        below(net, rank, high, source),
        k <= names.len(),
    ensures
        net.marked(
            net.labelled(names, k, source),
            -1,
            |name: Seq<char>| occurrences(names, k, name),
        ),
        safe(net.labelled(names, k, source), rank, high),
        forall|i: int|
            net.next() <= i < net.labelled(names, k, source).next() ==> #[trigger] net.labelled(
                names,
                k,
                source,
            ).outer(i),
    decreases k,
{
    lemma_visible(net);
    lemma_lists(net.graph);
    lemma_labelled_widens(net, names, k, source);
    if k > 0 {
        let name = names[k - 1];
        let before = net.labelled(names, (k - 1) as nat, source);
        let bound = before.bind(name);
        let after = net.labelled(names, k, source);
        let s = before.joint(name);
        lemma_labelled_rank(net, names, (k - 1) as nat, source, rank, high);
        lemma_labelled(net, names, (k - 1) as nat, source);
        lemma_bind(before, name);
        lemma_bind_widens(before, name);
        lemma_lists(before.graph);
        lemma_lists(bound.graph);
        lemma_visible(before);
        lemma_visible(bound);
        lemma_widened_visible(net, before);
        lemma_widened_visible(before, bound);
        lemma_widened_injective(net, before);
        lemma_widened_injective(before, bound);
        assert(after == bound.normal(s, source));
        assert(lookup(bound.scopes, name) == Some(s)) by {
            if lookup(before.scopes, name) is None {
                lemma_bound_lookup(before, name);
            }
        }
        assert(visible(bound.scopes, s));
        assert forall|i: int| 0 <= i < net.next() implies #[trigger] after.graph.nodes[i]
            == net.graph.nodes[i] by {
            assert(before.graph.nodes[i] == net.graph.nodes[i]);
        }
        assert forall|i: int|
            0 <= i < net.next() && !visible(net.scopes, i) implies #[trigger] after.graph.out[i]
            == net.graph.out[i] by {
            assert(!visible(before.scopes, i));
            assert(!visible(bound.scopes, i));
            assert(before.graph.out[i] == net.graph.out[i]);
        }
        assert forall|other: Seq<char>| (#[trigger] lookup(net.scopes, other)) is Some implies {
            let t = lookup(net.scopes, other)->0;
            after.graph.out[t].len() == net.graph.out[t].len() + occurrences(names, k, other)
        } by {
            let t = lookup(net.scopes, other)->0;
            assert(before.graph.out[t].len() == net.graph.out[t].len() + occurrences(
                names,
                (k - 1) as nat,
                other,
            ));
            assert(lookup(before.scopes, other) == Some(t));
            assert(lookup(bound.scopes, other) == Some(t));
        }
        assert forall|t: int, j: int|
            visible(after.scopes, t) && 0 <= j < after.graph.out[t].len() implies below(
            after,
            rank,
            high,
            (#[trigger] after.graph.out[t][j]).node,
        ) by {
            lemma_labelled_safe(net, before, bound, after, s, source, rank, high, t, j);
        }
        assert forall|i: int| net.next() <= i < after.next() implies #[trigger] after.outer(i) by {
            if i < before.next() {
                assert(before.outer(i));
                lemma_outer_stays(before, bound, i);
            } else {
                assert(bound.scopes[0].contains_key(name));
            }
            assert(bound.outer(i));
            lemma_widened_same(bound, after);
            lemma_outer_stays(bound, after, i);
        }
    }
}

proof fn lemma_labelled_safe(
    net: Net,
    before: Net,
    bound: Net,
    after: Net,
    s: int,
    source: int,
    rank: spec_fn(int) -> nat,
    high: nat,
    t: int,
    j: int,
)
    requires
        before.ok(),
        bound.ok(),
        0 <= source < net.next() <= before.next() <= bound.next(),
        forall|i: int|
            0 <= i < net.next() ==> #[trigger] before.graph.nodes[i] == net.graph.nodes[i],
        forall|i: int|
            0 <= i < before.next() ==> #[trigger] bound.graph.nodes[i] == before.graph.nodes[i],
        forall|i: int|
            0 <= i < before.next() ==> #[trigger] bound.graph.out[i] == before.graph.out[i],
        forall|i: int|
            before.next() <= i < bound.next() ==> (#[trigger] bound.graph.out[i]).len() == 0,
        forall|i: int|
            0 <= i < before.next() ==> #[trigger] visible(bound.scopes, i) == visible(
                before.scopes,
                i,
            ),
        after == bound.normal(s, source),
        0 <= s < bound.next(),
        safe(before, rank, high),
        below(net, rank, high, source),
        visible(after.scopes, t),
        0 <= t < bound.next(),
        0 <= j < after.graph.out[t].len(),
    ensures
        below(after, rank, high, after.graph.out[t][j].node),
{
    reveal(GraphView::wf);
    assert(after.graph.nodes == bound.graph.nodes);
    if t == s && j == 0 {
        assert(before.graph.nodes[source] == net.graph.nodes[source]);
        assert(bound.graph.nodes[source] == before.graph.nodes[source]);
    } else {
        let m = if t == s {
            j - 1
        } else {
            j
        };
        assert(after.graph.out[t][j] == bound.graph.out[t][m]);
        assert(t < before.next());
        assert(visible(bound.scopes, t));
        assert(visible(before.scopes, t));
        let x = before.graph.out[t][m].node;
        assert(below(before, rank, high, x));
        assert(before.graph.live(x));
        assert(bound.graph.nodes[x] == before.graph.nodes[x]);
    }
}

/// A label that is bound stands for its joint.
pub proof fn lemma_bound_lookup(net: Net, name: Seq<char>)
    requires
        net.ok(),
        lookup(net.scopes, name) is None,
    ensures
        lookup(net.bind(name).scopes, name) == Some(net.next()),
{
    lemma_bind_widens(net, name);
    lemma_lookup_set(net.scopes, name, net.next());
}

proof fn lemma_lookup_set(scopes: Seq<Map<Seq<char>, int>>, name: Seq<char>, v: int)
    requires
        scopes.len() >= 1,
        lookup(scopes, name) is None,
    ensures
        lookup(scopes.update(0, scopes[0].insert(name, v)), name) == Some(v),
    decreases scopes.len(),
{
    let after = scopes.update(0, scopes[0].insert(name, v));
    if scopes.len() > 1 {
        lemma_lookup_set(scopes.drop_last(), name, v);
        assert(after.drop_last() =~= scopes.drop_last().update(
            0,
            scopes.drop_last()[0].insert(name, v),
        ));
        assert(after.last() == scopes.last());
    }
}

/// A statement that is drawn after its labels are placed.
proof fn lemma_after_labels(
    net: Net,
    n: Net,
    after: Net,
    source: int,
    old: spec_fn(int) -> nat,
    rank: spec_fn(int) -> nat,
    high: nat,
    first: spec_fn(Seq<char>) -> nat,
    second: spec_fn(Seq<char>) -> nat,
    counts: spec_fn(Seq<char>) -> nat,
)
    requires
        net.ok(),
        net.marked(n, -1, first),
        forall|i: int| net.next() <= i < n.next() ==> #[trigger] n.outer(i),
        settled(n, after, source, old, rank, high, second),
        forall|name: Seq<char>| #[trigger] counts(name) == first(name) + second(name),
    ensures
        settled(net, after, source, old, rank, high, counts),
{
    lemma_visible(net);
    lemma_widened_visible(net, n);
    lemma_widened_then(net, n, after);
    assert forall|i: int| 0 <= i < net.next() implies #[trigger] after.graph.nodes[i]
        == net.graph.nodes[i] by {
        assert(n.graph.nodes[i] == net.graph.nodes[i]);
    }
    assert forall|i: int|
        0 <= i < net.next() && i != source && !visible(
            net.scopes,
            i,
        ) implies #[trigger] after.graph.out[i] == net.graph.out[i] by {
        assert(n.graph.out[i] == net.graph.out[i]);
        assert(!visible(n.scopes, i));
    }
    assert forall|name: Seq<char>| (#[trigger] lookup(net.scopes, name)) is Some implies {
        let s = lookup(net.scopes, name)->0;
        after.graph.out[s].len() == net.graph.out[s].len() + counts(name)
    } by {
        assert(lookup(n.scopes, name) == lookup(net.scopes, name));
    }
    assert forall|i: int|
        net.next() <= i < after.next() && !after.outer(i) implies #[trigger] after.graph.descends(
        rank,
        i,
    ) by {
        if i < n.next() {
            assert(n.outer(i));
            lemma_outer_stays(n, after, i);
        }
    }
}

/// What an innermost scope adds to the labels.
pub proof fn lemma_pushed(
    scopes: Seq<Map<Seq<char>, int>>,
    scope: Map<Seq<char>, int>,
    name: Seq<char>,
)
    ensures
        lookup(scopes.push(scope), name) == if scope.contains_key(name) {
            Some(scope[name])
        } else {
            lookup(scopes, name)
        },
{
    assert(scopes.push(scope).drop_last() =~= scopes);
}

/// Cases that differ have a joint each.
proof fn lemma_case_numbers(names: Seq<Seq<char>>, k: nat, base: int)
    requires
        names.no_duplicates(),
        k <= names.len(),
    ensures
        forall|j: int| #![trigger names[j]]
            0 <= j < k ==> case_joints(names, k, base).contains_key(names[j]) && case_joints(
                names,
                k,
                base,
            )[names[j]] == base + j,
        forall|name: Seq<char>| #[trigger]
            case_joints(names, k, base).contains_key(name) ==> {
                let j = case_joints(names, k, base)[name] - base;
                0 <= j < k && names[j] == name
            },
    decreases k,
{
    if k > 0 {
        let before = case_joints(names, (k - 1) as nat, base);
        let cases = case_joints(names, k, base);
        lemma_case_numbers(names, (k - 1) as nat, base);
        assert forall|name: Seq<char>| #[trigger] cases.contains_key(name) implies {
            let j = cases[name] - base;
            0 <= j < k && names[j] == name
        } by {
            if name != names[k - 1] {
                assert(before.contains_key(name));
            }
        }
    }
}

/// A jump table adds conditions, and no edges from the nodes that there were.
proof fn lemma_table_shape(
    net: Net,
    cond: Seq<char>,
    names: Seq<Seq<char>>,
    k: int,
    joints: Map<Seq<char>, int>,
    otherwise: int,
)
    requires
        net.ok(),
        0 <= k < names.len(),
        0 <= otherwise < net.next(),
        forall|j: int| k <= j < names.len() ==> 0 <= joints[#[trigger] names[j]] < net.next(),
    ensures
        net.steady(with_table(net, cond, names, k, joints, otherwise), -1),
        forall|i: int|
            net.next() <= i < with_table(net, cond, names, k, joints, otherwise).next()
                ==> !#[trigger] with_table(
                net,
                cond,
                names,
                k,
                joints,
                otherwise,
            ).graph.passes_through(i),
    decreases names.len() - k,
{
    broadcast use {lemma_node, lemma_edge};

    let cur = net.next();
    let n1 = net.node(NodeLabel::Choice(case_test(cond, names[k])));
    let asked = n1.edge(cur, joints[names[k]], EdgeType::Branch(true));
    let full = with_table(net, cond, names, k, joints, otherwise);
    lemma_lists(net.graph);
    lemma_lists(asked.graph);
    if k + 1 < names.len() {
        let rest = with_table(asked, cond, names, k + 1, joints, otherwise);
        lemma_jump_table(asked, cond, names, k + 1, joints, otherwise);
        lemma_table_shape(asked, cond, names, k + 1, joints, otherwise);
        lemma_lists(rest.graph);
        assert(full == rest.edge(cur, cur + 1, EdgeType::Branch(false)));
        assert(rest.graph.nodes[cur] == asked.graph.nodes[cur]);
        assert forall|i: int| 0 <= i < net.next() implies #[trigger] full.graph.nodes[i]
            == net.graph.nodes[i] by {
            assert(rest.graph.nodes[i] == asked.graph.nodes[i]);
        }
        assert forall|i: int| 0 <= i < net.next() implies #[trigger] full.graph.out[i]
            == net.graph.out[i] by {
            assert(rest.graph.out[i] == asked.graph.out[i]);
        }
        assert forall|i: int| net.next() <= i < full.next() implies !#[trigger]
            full.graph.passes_through(i) by {
            if i > cur {
                assert(!rest.graph.passes_through(i));
            }
        }
    } else {
        assert(full == asked.edge(cur, otherwise, EdgeType::Branch(false)));
    }
}

/// New joints lead nowhere.
proof fn lemma_joints_shape(net: Net, k: nat)
    requires
        net.ok(),
    ensures
        net.steady(net.joints(k), -1),
        forall|i: int|
            net.next() <= i < net.joints(k).next() ==> #[trigger] net.joints(k).graph.nodes[i]
                == Some(NodeLabel::Dummy),
        forall|i: int|
            net.next() <= i < net.joints(k).next() ==> (#[trigger] net.joints(
                k,
            ).graph.out[i]).len() == 0,
    decreases k,
{
    lemma_lists(net.graph);
    if k > 0 {
        lemma_joints(net, (k - 1) as nat);
        lemma_joints_shape(net, (k - 1) as nat);
        lemma_lists(net.joints((k - 1) as nat).graph);
    }
}

/// The ranks of a switch with `m` cases whose body runs from node `d`.
pub open spec fn switch_ranks(
    old: spec_fn(int) -> nat,
    c: int,
    m: nat,
    d: int,
    low: nat,
    h: nat,
    high: nat,
) -> spec_fn(int) -> nat {
    |i: int|
        if i < c {
            old(i)
        } else if i < c + m {
            high + 1
        } else if i == d {
            low + h + 2
        } else {
            low + 1
        }
}

/// The nodes and edges that a switch starts with.
pub proof fn lemma_switch_shape(n: Net, frame: Frame, cond: Seq<char>, names: Seq<Seq<char>>)
    requires
        n.ok(),
        frame.within(n),
        tested(names).len() > 0,
    ensures
        ({
            let c = n.next();
            let opened = n.open_switch(frame, cond, names);
            let d = opened.next() - 2;
            &&& c + names.len() < d
            &&& opened.graph.out.len() == opened.graph.nodes.len()
            &&& forall|i: int| 0 <= i < c ==> #[trigger] opened.graph.nodes[i] == n.graph.nodes[i]
            &&& forall|i: int|
                0 <= i < c && i != frame.source ==> #[trigger] opened.graph.out[i] == n.graph.out[i]
            &&& opened.graph.out[frame.source].len() == n.graph.out[frame.source].len() + 1
            &&& opened.graph.out[frame.source][0].node == c + names.len()
            &&& opened.graph.out[frame.source][0].kind == EdgeType::Normal
            &&& forall|i: int|
                c <= i < c + names.len() ==> (#[trigger] opened.graph.out[i]).len() == 0
            &&& forall|i: int|
                c + names.len() <= i < d ==> !#[trigger] opened.graph.passes_through(i)
            &&& opened.graph.out[d].len() == 0
            &&& opened.graph.out[d + 1].len() == 1
            &&& opened.graph.out[d + 1][0].node == frame.sink
        }),
{
    let c = n.next();
    let cases = case_joints(names, names.len(), c);
    let other = n.otherwise(frame, names);
    let n1 = n.joints(names.len());
    let opened = n.open_switch(frame, cond, names);
    lemma_open_switch(n, frame, cond, names);
    lemma_joints(n, names.len());
    lemma_joints_shape(n, names.len());
    lemma_case_joints(names, names.len(), c);
    lemma_tested(names);
    if names.contains("default"@) {
        let j = names.index_of("default"@);
        assert(cases.contains_key(names[j]));
    }
    assert forall|j: int| 0 <= j < tested(names).len() implies 0 <= cases[
        #[trigger] tested(names)[j]] < n1.next() by {
        let m = names.index_of(tested(names)[j]);
        assert(cases.contains_key(names[m]));
    }
    lemma_jump_table(n1, cond, tested(names), 0, cases, other);
    lemma_table_shape(n1, cond, tested(names), 0, cases, other);
    let n2 = with_table(n1, cond, tested(names), 0, cases, other);
    let d = n2.next();
    lemma_lists(n.graph);
    lemma_lists(n1.graph);
    lemma_lists(n2.graph);
    lemma_lists(opened.graph);
    assert forall|i: int| 0 <= i < c implies #[trigger] opened.graph.nodes[i]
        == n.graph.nodes[i] by {
        assert(n2.graph.nodes[i] == n1.graph.nodes[i]);
        assert(n1.graph.nodes[i] == n.graph.nodes[i]);
    }
    assert forall|i: int| 0 <= i < c implies n2.graph.out[i] == n.graph.out[i] by {
        assert(n2.graph.out[i] == n1.graph.out[i]);
    }
    assert forall|i: int| c <= i < c + names.len() implies (
    #[trigger] opened.graph.out[i]).len() == 0 by {
        assert(n2.graph.out[i] == n1.graph.out[i]);
    }
    assert forall|i: int| c + names.len() <= i < d implies !#[trigger]
        opened.graph.passes_through(i) by {
        assert(!n2.graph.passes_through(i));
    }
}

/// The labels in the body of a switch.
proof fn lemma_switch_scopes(n: Net, frame: Frame, cond: Seq<char>, names: Seq<Seq<char>>)
    requires
        n.ok(),
        names.no_duplicates(),
    ensures
        ({
            let c = n.next();
            let scopes = n.open_switch(frame, cond, names).scopes;
            &&& scopes.drop_last() == n.scopes
            &&& forall|j: int|
                0 <= j < names.len() ==> lookup(scopes, #[trigger] names[j]) == Some(c + j)
            &&& forall|name: Seq<char>|
                !names.contains(name) ==> #[trigger] lookup(scopes, name) == lookup(n.scopes, name)
            &&& forall|i: int|
                0 <= i < c && visible(scopes, i) ==> #[trigger] visible(n.scopes, i)
            &&& injective(n.scopes) ==> injective(scopes)
        }),
{
    let c = n.next();
    let cases = case_joints(names, names.len(), c);
    let scopes = n.open_switch(frame, cond, names).scopes;
    lemma_visible(n);
    lemma_case_numbers(names, names.len(), c);
    assert(scopes == n.scopes.push(cases));
    assert(scopes.drop_last() =~= n.scopes);
    assert forall|j: int| 0 <= j < names.len() implies lookup(scopes, #[trigger] names[j]) == Some(
        c + j,
    ) by {
        lemma_pushed(n.scopes, cases, names[j]);
    }
    assert forall|name: Seq<char>| !names.contains(name) implies #[trigger] lookup(scopes, name)
        == lookup(n.scopes, name) by {
        lemma_pushed(n.scopes, cases, name);
        if cases.contains_key(name) {
            assert(names[cases[name] - c] == name);
        }
    }
    assert forall|i: int| 0 <= i < c && visible(scopes, i) implies #[trigger] visible(
        n.scopes,
        i,
    ) by {
        let name = choose|name: Seq<char>| #[trigger] lookup(scopes, name) == Some(i);
        if names.contains(name) {
            let j = names.index_of(name);
            assert(lookup(scopes, names[j]) == Some(c + j));
        }
        assert(lookup(n.scopes, name) == Some(i));
    }
    if injective(n.scopes) {
        assert forall|a: Seq<char>, b: Seq<char>|
            (#[trigger] lookup(scopes, a)) is Some && lookup(scopes, a) == #[trigger] lookup(
                scopes,
                b,
            ) implies a == b by {
            if names.contains(a) {
                let i = names.index_of(a);
                assert(lookup(scopes, names[i]) == Some(c + i));
                if names.contains(b) {
                    let j = names.index_of(b);
                    assert(lookup(scopes, names[j]) == Some(c + j));
                } else {
                    assert(lookup(n.scopes, b) == Some(c + i));
                }
            } else if names.contains(b) {
                let j = names.index_of(b);
                assert(lookup(scopes, names[j]) == Some(c + j));
                assert(lookup(n.scopes, a) == Some(c + j));
            } else {
                assert(lookup(n.scopes, a) == lookup(n.scopes, b));
            }
        }
    }
}

/// The body of a switch can be drawn.
proof fn lemma_switch_ready(
    n: Net,
    frame: Frame,
    cond: Seq<char>,
    names: Seq<Seq<char>>,
    old: spec_fn(int) -> nat,
    low: nat,
    h: nat,
    high: nat,
)
    requires
        n.ok(),
        frame.within(n),
        tested(names).len() > 0,
        names.no_duplicates(),
        has_room(n, frame, old, low, h + 2, high),
        labels_ready(n, frame.source, old, high),
    ensures
        ({
            let opened = n.open_switch(frame, cond, names);
            let d = opened.next() - 2;
            let mid = switch_ranks(old, n.next(), names.len(), d, low, h, high);
            &&& labels_ready(opened, d, mid, high)
            &&& has_room(opened, frame.switching(d, d + 1), mid, low + 1, h, high)
        }),
{
    let c = n.next();
    let opened = n.open_switch(frame, cond, names);
    let d = opened.next() - 2;
    let mid = switch_ranks(old, c, names.len(), d, low, h, high);
    lemma_switch_shape(n, frame, cond, names);
    lemma_switch_scopes(n, frame, cond, names);
    lemma_visible(n);
    assert forall|i: int| #[trigger] visible(opened.scopes, i) implies 0 <= i < c + names.len() by {
        let name = choose|name: Seq<char>| #[trigger] lookup(opened.scopes, name) == Some(i);
        if names.contains(name) {
            let j = names.index_of(name);
            assert(lookup(opened.scopes, names[j]) == Some(c + j));
        } else {
            assert(lookup(n.scopes, name) == Some(i));
        }
    }
    assert forall|s: int, j: int|
        visible(opened.scopes, s) && 0 <= j < opened.graph.out[s].len() implies below(
        opened,
        mid,
        high,
        (#[trigger] opened.graph.out[s][j]).node,
    ) by {
        assert(s < c);
        assert(visible(n.scopes, s));
        assert(opened.graph.out[s] == n.graph.out[s]);
        let t = n.graph.out[s][j].node;
        assert(below(n, old, high, t));
        assert(n.graph.live(t)) by {
            reveal(GraphView::wf);
        }
        assert(opened.graph.nodes[t] == n.graph.nodes[t]);
    }
}

/// A switch, once its body is drawn.
proof fn lemma_switch_rank(
    n: Net,
    frame: Frame,
    cond: Seq<char>,
    names: Seq<Seq<char>>,
    inner: Net,
    old: spec_fn(int) -> nat,
    rank: spec_fn(int) -> nat,
    low: nat,
    h: nat,
    high: nat,
    within: spec_fn(Seq<char>) -> nat,
    counts: spec_fn(Seq<char>) -> nat,
)
    requires
        n.ok(),
        frame.within(n),
        tested(names).len() > 0,
        names.no_duplicates(),
        has_room(n, frame, old, low, h + 2, high),
        labels_ready(n, frame.source, old, high),
        ({
            let opened = n.open_switch(frame, cond, names);
            let d = opened.next() - 2;
            let mid = switch_ranks(old, n.next(), names.len(), d, low, h, high);
            settled(opened, inner, d, mid, rank, high, within)
        }),
        forall|j: int| 0 <= j < names.len() ==> within(#[trigger] names[j]) == 1,
        forall|name: Seq<char>| #[trigger]
            counts(name) == if names.contains(name) {
                0
            } else {
                within(name)
            },
    ensures
        settled(n, inner.leave(), frame.source, old, rank, high, counts),
{
    let c = n.next();
    let opened = n.open_switch(frame, cond, names);
    let d = opened.next() - 2;
    let mid = switch_ranks(old, c, names.len(), d, low, h, high);
    let after = inner.leave();
    let source = frame.source;
    lemma_open_switch(n, frame, cond, names);
    lemma_switch_shape(n, frame, cond, names);
    lemma_switch_scopes(n, frame, cond, names);
    lemma_visible(n);
    lemma_lists(n.graph);
    lemma_grows_numbers(n, opened);
    lemma_leave_widens(n, opened, inner);
    lemma_widened_visible(opened, inner);
    lemma_widened_visible(n, after);
    assert forall|i: int| 0 <= i < c implies #[trigger] rank(i) == old(i) by {
        assert(rank(i) == mid(i));
    }
    assert forall|i: int| 0 <= i < c implies #[trigger] after.graph.nodes[i]
        == n.graph.nodes[i] by {
        assert(inner.graph.nodes[i] == opened.graph.nodes[i]);
        assert(opened.graph.nodes[i] == n.graph.nodes[i]);
    }
    assert forall|i: int|
        0 <= i < c && i != source && !visible(
            n.scopes,
            i,
        ) implies #[trigger] after.graph.out[i] == n.graph.out[i] by {
        assert(!visible(opened.scopes, i));
        assert(inner.graph.out[i] == opened.graph.out[i]);
        assert(opened.graph.out[i] == n.graph.out[i]);
    }
    assert forall|name: Seq<char>|
        names.contains(name) && (#[trigger] lookup(n.scopes, name)) is Some implies {
        let s = lookup(n.scopes, name)->0;
        after.graph.out[s] == n.graph.out[s]
    } by {
        let s = lookup(n.scopes, name)->0;
        assert(visible(n.scopes, s));
        if visible(opened.scopes, s) {
            let other = choose|other: Seq<char>| #[trigger]
                lookup(opened.scopes, other) == Some(s);
            if names.contains(other) {
                let j = names.index_of(other);
                assert(lookup(opened.scopes, names[j]) == Some(c + j));
            }
            assert(lookup(n.scopes, other) == lookup(n.scopes, name));
        }
        assert(inner.graph.out[s] == opened.graph.out[s]);
        assert(opened.graph.out[s] == n.graph.out[s]);
    }
    assert forall|name: Seq<char>| (#[trigger] lookup(n.scopes, name)) is Some implies {
        let s = lookup(n.scopes, name)->0;
        after.graph.out[s].len() == n.graph.out[s].len() + counts(name)
    } by {
        let s = lookup(n.scopes, name)->0;
        if !names.contains(name) {
            assert(lookup(opened.scopes, name) == Some(s));
            assert(visible(n.scopes, s));
            assert(opened.graph.out[s] == n.graph.out[s]);
        }
    }
    assert forall|s: int, j: int|
        visible(after.scopes, s) && 0 <= j < after.graph.out[s].len() implies below(
        after,
        rank,
        high,
        (#[trigger] after.graph.out[s][j]).node,
    ) by {
        let name = choose|name: Seq<char>| #[trigger] lookup(after.scopes, name) == Some(s);
        lemma_widened_lookup(n, after, name);
        if lookup(n.scopes, name) is None {
            lemma_new_name(n, opened, inner, name);
            lemma_pushed(after.scopes, inner.scopes.last(), name);
            assert(after.scopes.push(inner.scopes.last()) =~= inner.scopes);
            assert(lookup(inner.scopes, name) == Some(s));
            assert(visible(inner.scopes, s));
            assert(below(inner, rank, high, inner.graph.out[s][j].node));
        } else if names.contains(name) {
            let t = n.graph.out[s][j].node;
            assert(after.graph.out[s] == n.graph.out[s]);
            assert(below(n, old, high, t));
            assert(n.graph.live(t)) by {
                reveal(GraphView::wf);
            }
            assert(after.graph.nodes[t] == n.graph.nodes[t]);
            assert(rank(t) == old(t));
        } else {
            assert(lookup(opened.scopes, name) == Some(s));
            assert(lookup(inner.scopes, name) == Some(s));
            assert(visible(inner.scopes, s));
            assert(below(inner, rank, high, inner.graph.out[s][j].node));
        }
    }
    assert(!visible(opened.scopes, source));
    assert(opened.graph.nodes[source] == n.graph.nodes[source]);
    assert(!opened.graph.passes_through(c + names.len()));
    assert(opened.graph.descends(mid, source));
    lemma_kept(opened, inner, mid, rank, source);
    assert(after.scopes[0] == inner.scopes[0]) by {
        reveal(Net::widened);
    }
    assert forall|i: int|
        c <= i < after.next() && !after.outer(i) implies #[trigger] after.graph.descends(
        rank,
        i,
    ) by {
        if i < c + names.len() {
            let name = names[i - c];
            assert(lookup(opened.scopes, name) == Some(i));
            assert(lookup(inner.scopes, name) == Some(i));
            assert(inner.graph.out[i].len() == 1);
            assert(visible(inner.scopes, i));
            assert(below(inner, rank, high, inner.graph.out[i][0].node));
            assert(rank(i) == mid(i));
        } else if i < d {
            assert(!opened.graph.passes_through(i));
            assert(inner.graph.nodes[i] == opened.graph.nodes[i]);
        } else {
            if i == d + 1 {
                if visible(opened.scopes, i) {
                    let name = choose|name: Seq<char>| #[trigger]
                        lookup(opened.scopes, name) == Some(i);
                    if names.contains(name) {
                        let j = names.index_of(name);
                        assert(lookup(opened.scopes, names[j]) == Some(c + j));
                    } else {
                        assert(lookup(n.scopes, name) == Some(i));
                    }
                }
                assert(opened.graph.descends(mid, i));
                lemma_kept(opened, inner, mid, rank, i);
            } else {
                assert(!inner.outer(i));
            }
            assert(inner.graph.descends(rank, i));
        }
    }
}

/// A label that is new after a switch is no case of it.
pub proof fn lemma_new_name(n: Net, opened: Net, inner: Net, name: Seq<char>)
    requires
        opened.widened(inner),
        opened.scopes.len() == n.scopes.len() + 1,
        opened.scopes.drop_last() == n.scopes,
        n.scopes.len() >= 1,
        n.widened(inner.leave()),
        lookup(n.scopes, name) is None,
        lookup(inner.leave().scopes, name) is Some,
    ensures
        !inner.scopes.last().contains_key(name),
        inner.leave().scopes.push(inner.scopes.last()) == inner.scopes,
{
    let after = inner.leave();
    lemma_widened_lookup(n, after, name);
    reveal(Net::widened);
    assert(after.scopes[0].contains_key(name));
    assert(inner.scopes[0].contains_key(name));
    assert(opened.scopes[0] == n.scopes[0]);
    lemma_lookup_none(n.scopes, name);
    assert(!n.scopes[0].contains_key(name));
    assert(lookup(opened.scopes, name) is None);
    lemma_lookup_none(opened.scopes, name);
    let last = opened.scopes.len() - 1;
    assert(!opened.scopes[last].contains_key(name));
    assert(inner.scopes[last] == opened.scopes[last]);
    assert(after.scopes.push(inner.scopes.last()) =~= inner.scopes);
}

proof fn lemma_chain_height(v: Seq<Rc<Ast>>, k: nat, m: nat)
    requires
        k <= m <= v.len(),
    ensures
        chain_height(v, k) <= chain_height(v, m),
    decreases m,
{
    if k < m {
        lemma_chain_height(v, k, (m - 1) as nat);
    }
}

/// The second answer of a condition, after the statement that the first answer leads to.
proof fn lemma_answer_rank(
    n: Net,
    frame: Frame,
    first: Net,
    old: spec_fn(int) -> nat,
    rank: spec_fn(int) -> nat,
    low: nat,
    h: nat,
    high: nat,
    counts: spec_fn(Seq<char>) -> nat,
)
    requires
        n.ok(),
        frame.within(n),
        first.ok(),
        n.next() + 2 < first.next(),
        first.graph.nodes[n.next()] matches Some(NodeLabel::Choice(_)),
        has_room(n, frame, old, low, h + 2, high),
        labels_ready(n, frame.source, old, high),
        settled(n, first, frame.source, old, rank, high, counts),
        !visible(first.scopes, n.next()),
        rank(n.next() + 2) == low + 1,
    ensures
        settled(
            n,
            first.edge(n.next(), frame.sink, EdgeType::Branch(false)),
            frame.source,
            old,
            rank,
            high,
            counts,
        ),
        prepared(
            n,
            first.open_else(n.next()),
            frame.source,
            first.next(),
            old,
            with_rank(rank, first.next(), low + h + 2),
            high,
            counts,
        ),
        labels_ready(
            first.open_else(n.next()),
            first.next(),
            with_rank(rank, first.next(), low + h + 2),
            high,
        ),
        has_room(
            first.open_else(n.next()),
            frame.between(first.next(), n.next() + 2),
            with_rank(rank, first.next(), low + h + 2),
            low + 1,
            h,
            high,
        ),
{
    let c = n.next();
    let with = first.open_else(c);
    let without = first.edge(c, frame.sink, EdgeType::Branch(false));
    let mid = with_rank(rank, first.next(), low + h + 2);
    lemma_lists(first.graph);
    lemma_visible(n);
    lemma_visible(first);
    lemma_widened_visible(n, first);
    lemma_widened_injective(n, first);
    lemma_widened_same(first, with);
    lemma_widened_same(first, without);
    lemma_widened_then(n, first, with);
    lemma_widened_then(n, first, without);
    lemma_kept(first, with, rank, mid, frame.source);
    lemma_kept(first, without, rank, rank, frame.source);
    assert forall|s: int| #[trigger] visible(first.scopes, s) implies with.graph.out[s]
        == first.graph.out[s] && without.graph.out[s] == first.graph.out[s] by {
        assert(s != c);
    }
    lemma_safe_kept(first, with, rank, mid, high);
    lemma_safe_kept(first, without, rank, rank, high);
    assert forall|i: int|
        c <= i < first.next() && !with.outer(i) implies #[trigger] with.graph.descends(mid, i) by {
        assert(!first.outer(i));
        if i != c {
            assert(first.graph.descends(rank, i));
            lemma_kept(first, with, rank, mid, i);
        }
    }
    assert forall|i: int|
        c <= i < first.next() && !without.outer(i) implies #[trigger] without.graph.descends(
        rank,
        i,
    ) by {
        assert(!first.outer(i));
        if i != c {
            assert(first.graph.descends(rank, i));
            lemma_kept(first, without, rank, rank, i);
        }
    }
}

/// The nodes of a statement can be ranked such that control falls from rank to rank while it
/// passes joints and statements without text.
pub proof fn rank_build(
    ast: &Ast,
    frame: Frame,
    net: Net,
    old: spec_fn(int) -> nat,
    low: nat,
    high: nat,
) -> (rank: spec_fn(int) -> nat)
    requires
        structured(ast),
        net.ok(),
        frame.within(net),
        build(ast, frame, net).fault is None,
        has_room(net, frame, old, low, height(ast), high),
        labels_ready(net, frame.source, old, high),
    ensures
        settled(
            net,
            build(ast, frame, net).net,
            frame.source,
            old,
            rank,
            high,
            |name: Seq<char>| marks(ast, name),
        ),
    decreases ast, 1nat,
{
    let labels = ast.labels();
    let n = net.labelled(labels, labels.len(), frame.source);
    assert(build(ast, frame, net) == build_node(ast, frame, n));
    lemma_labelled(net, labels, labels.len(), frame.source);
    lemma_labelled_rank(net, labels, labels.len(), frame.source, old, high);
    lemma_labelled_widens(net, labels, labels.len(), frame.source);
    lemma_widened_visible(net, n);
    lemma_widened_injective(net, n);
    assert(n.graph.out[frame.source] == net.graph.out[frame.source]);
    let rank = rank_node(ast, frame, n, old, low, high);
    lemma_after_labels(
        net,
        n,
        build(ast, frame, net).net,
        frame.source,
        old,
        rank,
        high,
        |name: Seq<char>| occurrences(labels, labels.len(), name),
        |name: Seq<char>| marks_inside(ast, name),
        |name: Seq<char>| marks(ast, name),
    );
    rank
}

proof fn rank_node(
    ast: &Ast,
    frame: Frame,
    n: Net,
    old: spec_fn(int) -> nat,
    low: nat,
    high: nat,
) -> (rank: spec_fn(int) -> nat)
    requires
        structured(ast),
        n.ok(),
        frame.within(n),
        build_node(ast, frame, n).fault is None,
        has_room(n, frame, old, low, height(ast), high),
        labels_ready(n, frame.source, old, high),
    ensures
        settled(
            n,
            build_node(ast, frame, n).net,
            frame.source,
            old,
            rank,
            high,
            |name: Seq<char>| marks_inside(ast, name),
        ),
    decreases ast, 0nat,
{
    let c = n.next();
    lemma_lists(n.graph);
    match &ast.node {
        AstNode::Compound(v) => rank_block(v@, frame, n, old, low, high),
        AstNode::Stat(s) => lemma_step_rank(n, frame, s@, frame.sink, old, low, high),
        AstNode::Continue(s) => {
            let target = frame.continue_target->0;
            lemma_step_rank(n, frame, s@, target, old, low, high)
        },
        AstNode::Break(s) => {
            let target = frame.break_target->0;
            lemma_step_rank(n, frame, s@, target, old, low, high)
        },
        AstNode::Return(s) => lemma_step_rank(n, frame, s@, frame.end, old, low, high),
        AstNode::If { cond, body, otherwise } => {
            let h1 = height(&**body);
            let h2 = match otherwise {
                Some(t) => height(&**t),
                None => 0,
            };
            let opened = n.open_if(frame, cond@);
            let inner = frame.between(c + 1, c + 2);
            let mid = choice_ranks(old, c, low, h1);
            let first = build(&**body, inner, opened);
            let counts = |name: Seq<char>| marks(&**body, name);
            lemma_open_if(n, frame, cond@);
            lemma_if_rank(n, frame, cond@, old, low, h1, high);
            let one = rank_body(&**body, frame, inner, n, opened, old, mid, low + 1, high);
            lemma_build(&**body, inner, opened);
            lemma_grows_numbers(opened, first.net);
            assert(first.net.graph.nodes[c] == opened.graph.nodes[c]);
            assert(one(c + 2) == mid(c + 2));
            assert(!visible(first.net.scopes, c)) by {
                lemma_visible(n);
                drawing_widens_labels(&**body, inner, opened);
                lemma_widened_visible(opened, first.net);
            }
            lemma_answer_rank(n, frame, first.net, old, one, low, h2, high, counts);
            match otherwise {
                Some(t) => {
                    let e = first.net.next();
                    let two = with_rank(one, e, low + h2 + 2);
                    let opened2 = first.net.open_else(c);
                    let inner2 = frame.between(e, c + 2);
                    lemma_open_else(first.net, c);
                    let rank = rank_build(&**t, inner2, opened2, two, low + 1, high);
                    lemma_inner(
                        n,
                        opened2,
                        build(&**t, inner2, opened2).net,
                        frame.source,
                        e,
                        old,
                        two,
                        rank,
                        high,
                        counts,
                        |name: Seq<char>| marks(&**t, name),
                        |name: Seq<char>| marks_inside(ast, name),
                    );
                    rank
                },
                None => one,
            }
        },
        AstNode::While { cond, body } => {
            let h = height(&**body);
            let opened = n.open_while(frame, cond@);
            let mid = choice_ranks(old, c, low, h);
            lemma_open_while(n, frame, cond@);
            lemma_while_rank(n, frame, cond@, old, low, h, high);
            rank_body(
                &**body,
                frame,
                frame.looping(c + 1, c + 2, c),
                n,
                opened,
                old,
                mid,
                low + 1,
                high,
            )
        },
        AstNode::DoWhile { cond, body } => {
            let h = height(&**body);
            let opened = n.open_do_while(frame, cond@);
            let mid = do_ranks(old, c, low, h);
            lemma_open_do_while(n, frame, cond@);
            lemma_do_while_rank(n, frame, cond@, old, low, h, high);
            rank_body(
                &**body,
                frame,
                frame.looping(c, c + 1, c + 2),
                n,
                opened,
                old,
                mid,
                low + 1,
                high,
            )
        },
        AstNode::For { init, cond, upd, body } => {
            let h = height(&**body);
            let opened = n.open_for(frame, init@, cond@, upd@);
            let mid = for_ranks(old, c, low, h);
            lemma_open_for(n, frame, init@, cond@, upd@);
            lemma_for_rank(n, frame, init@, cond@, upd@, old, low, h, high);
            rank_body(
                &**body,
                frame,
                frame.looping(c, c + 1, c + 4),
                n,
                opened,
                old,
                mid,
                low + 2,
                high,
            )
        },
        AstNode::Switch { cond, body, cases } => {
            let names = texts(cases@);
            let h = height(&**body);
            let opened = n.open_switch(frame, cond@, names);
            let d = opened.next() - 2;
            let inner = frame.switching(d, d + 1);
            let mid = switch_ranks(old, c, names.len(), d, low, h, high);
            assert(build_node(ast, frame, n) == build_switch(cond@, *body, names, frame, n));
            lemma_open_switch(n, frame, cond@, names);
            lemma_switch_ready(n, frame, cond@, names, old, low, h, high);
            let rank = rank_build(&**body, inner, opened, mid, low + 1, high);
            let within = |name: Seq<char>| marks(&**body, name);
            let counts = |name: Seq<char>| marks_inside(ast, name);
            lemma_switch_rank(
                n,
                frame,
                cond@,
                names,
                build(&**body, inner, opened).net,
                old,
                rank,
                low,
                h,
                high,
                within,
                counts,
            );
            rank
        },
        _ => old,
    }
}

/// A statement whose inner statement is drawn last.
proof fn rank_body(
    body: &Ast,
    frame: Frame,
    inner: Frame,
    n: Net,
    opened: Net,
    old: spec_fn(int) -> nat,
    mid: spec_fn(int) -> nat,
    low: nat,
    high: nat,
) -> (rank: spec_fn(int) -> nat)
    requires
        structured(body),
        n.ok(),
        frame.within(n),
        opened.ok(),
        inner.within(opened),
        n.next() <= inner.source,
        build(body, inner, opened).fault is None,
        !visible(n.scopes, frame.source),
        prepared(n, opened, frame.source, inner.source, old, mid, high, unmarked()),
        labels_ready(opened, inner.source, mid, high),
        has_room(opened, inner, mid, low, height(body), high),
    ensures
        settled(
            n,
            build(body, inner, opened).net,
            frame.source,
            old,
            rank,
            high,
            |name: Seq<char>| marks(body, name),
        ),
        same_ranks(mid, rank, opened.next()),
        forall|i: int|
            0 <= i < opened.next() ==> #[trigger] build(body, inner, opened).net.graph.nodes[i]
                == opened.graph.nodes[i],
    decreases body, 2nat,
{
    let rank = rank_build(body, inner, opened, mid, low, high);
    let counts = |name: Seq<char>| marks(body, name);
    lemma_inner(
        n,
        opened,
        build(body, inner, opened).net,
        frame.source,
        inner.source,
        old,
        mid,
        rank,
        high,
        unmarked(),
        counts,
        counts,
    );
    rank
}

/// The ranks of the two joints that a block starts with.
pub open spec fn block_ranks(v: Seq<Rc<Ast>>, old: spec_fn(int) -> nat, c: int, low: nat) -> spec_fn(
    int,
) -> nat {
    let top = low + 2 + chain_height(v, v.len());
    with_rank(
        with_rank(old, c, top),
        c + 1,
        if v.len() == 0 {
            low + 1
        } else {
            (top - chain_height(v, 1)) as nat
        },
    )
}

/// Whether node `i` is a joint that does not lead anywhere yet.
pub open spec fn pending(net: Net, i: int) -> bool {
    net.graph.is_joint(i) && net.graph.out[i].len() == 0
}

/// What the first `k` statements of a block leave behind that starts at node `c`: the joint after
/// them, and the one before the next statement if there is one, do not lead anywhere yet.
pub open spec fn chain_settled(
    v: Seq<Rc<Ast>>,
    k: nat,
    net: Net,
    chain: Chain,
    c: int,
    low: nat,
    old: spec_fn(int) -> nat,
    rank: spec_fn(int) -> nat,
    high: nat,
) -> bool {
    let after = chain.built.net;
    let top = low + 2 + chain_height(v, v.len());
    &&& same_ranks(old, rank, net.next())
    &&& net.widened(after)
    &&& net.next() <= after.next()
    &&& after.graph.out.len() == after.graph.nodes.len()
    &&& forall|i: int|
        0 <= i < net.next() ==> #[trigger] after.graph.nodes[i] == net.graph.nodes[i]
    &&& forall|i: int|
        0 <= i < c && !visible(net.scopes, i) ==> #[trigger] after.graph.out[i] == net.graph.out[i]
    &&& forall|name: Seq<char>| #[trigger]
        lookup(net.scopes, name) matches Some(s) ==> after.graph.out[s].len()
            == net.graph.out[s].len() + chain_marks(v, k, name)
    &&& safe(after, rank, high)
    &&& c <= chain.source < after.next()
    &&& c <= chain.sink < after.next()
    &&& chain.source != chain.sink
    &&& pending(after, chain.sink)
    &&& !visible(after.scopes, chain.sink)
    &&& rank(chain.sink) == top - chain_height(
        v,
        if k < v.len() {
            k + 1
        } else {
            k
        },
    )
    &&& k < v.len() ==> {
        &&& pending(after, chain.source)
        &&& !visible(after.scopes, chain.source)
        &&& rank(chain.source) == top - chain_height(v, k)
    }
    &&& forall|i: int|
        c <= i < after.next() && i != chain.sink && !(k < v.len() && i == chain.source)
            && !after.outer(i) ==> #[trigger] after.graph.descends(rank, i)
}

proof fn rank_chain(
    v: Seq<Rc<Ast>>,
    k: nat,
    frame: Frame,
    net: Net,
    c: int,
    old: spec_fn(int) -> nat,
    low: nat,
    high: nat,
) -> (rank: spec_fn(int) -> nat)
    requires
        net.ok(),
        frame.within(net),
        0 <= c,
        net.next() == c + 2,
        0 < v.len(),
        k <= v.len(),
        structured_chain(v, k),
        build_chain(v, k, frame, net, c).built.fault is None,
        pending(net, c),
        pending(net, c + 1),
        low + 2 + chain_height(v, v.len()) <= high,
        old(c) == low + 2 + chain_height(v, v.len()),
        old(c + 1) == low + 2 + chain_height(v, v.len()) - chain_height(v, 1),
        old(frame.end) <= low,
        frame.break_target matches Some(t) ==> old(t) <= low,
        frame.continue_target matches Some(t) ==> old(t) <= low,
        labels_ready(net, c, old, high),
        forall|i: int| c <= i ==> !#[trigger] visible(net.scopes, i),
    ensures
        chain_settled(v, k, net, build_chain(v, k, frame, net, c), c, low, old, rank, high),
    decreases v, k,
{
    lemma_lists(net.graph);
    if k == 0 {
        lemma_widened_same(net, net);
        old
    } else {
        let top = low + 2 + chain_height(v, v.len());
        let before = build_chain(v, (k - 1) as nat, frame, net, c);
        let mid = rank_chain(v, (k - 1) as nat, frame, net, c, old, low, high);
        let n1 = before.built.net;
        let inner = frame.between(before.source, before.sink);
        let ast = &*v[k - 1];
        let n2 = build(ast, inner, n1).net;
        lemma_build_chain(v, (k - 1) as nat, frame, net, c);
        lemma_chain_height(v, k, v.len());
        lemma_build(ast, inner, n1);
        lemma_visible(net);
        lemma_widened_visible(net, n1);
        lemma_widened_injective(net, n1);
        let after = rank_build(ast, inner, n1, mid, mid(before.sink), high);
        lemma_lists(n2.graph);
        lemma_visible(n2);
        lemma_widened_visible(n1, n2);
        lemma_widened_then(net, n1, n2);
        assert forall|i: int|
            c <= i < n2.next() && i != before.sink && !n2.outer(i) implies #[trigger]
            n2.graph.descends(after, i) by {
            if i < n1.next() && i != before.source {
                if n1.outer(i) {
                    lemma_outer_stays(n1, n2, i);
                }
                assert(n1.graph.descends(mid, i));
                assert(!visible(n1.scopes, i)) by {
                    if i < net.next() {
                        assert(!visible(net.scopes, i));
                    }
                }
                lemma_kept(n1, n2, mid, after, i);
            }
        }
        assert forall|i: int| 0 <= i < net.next() implies #[trigger] n2.graph.nodes[i]
            == net.graph.nodes[i] by {
            assert(n1.graph.nodes[i] == net.graph.nodes[i]);
        }
        assert forall|i: int|
            0 <= i < c && !visible(net.scopes, i) implies #[trigger] n2.graph.out[i]
            == net.graph.out[i] by {
            assert(n1.graph.out[i] == net.graph.out[i]);
            assert(!visible(n1.scopes, i));
        }
        assert forall|i: int| 0 <= i < net.next() implies #[trigger] after(i) == old(i) by {
            assert(mid(i) == old(i));
        }
        assert forall|name: Seq<char>| (#[trigger] lookup(net.scopes, name)) is Some implies {
            let s = lookup(net.scopes, name)->0;
            n2.graph.out[s].len() == net.graph.out[s].len() + chain_marks(v, k, name)
        } by {
            assert(lookup(n1.scopes, name) == lookup(net.scopes, name));
        }
        assert(pending(n2, before.sink)) by {
            assert(!visible(n1.scopes, before.sink));
            assert(n2.graph.nodes[before.sink] == n1.graph.nodes[before.sink]);
            assert(n2.graph.out[before.sink] == n1.graph.out[before.sink]);
        }
        assert(after(before.sink) == mid(before.sink));
        assert(!visible(n2.scopes, before.sink));
        if k == v.len() {
            after
        } else {
            let n3 = n2.node(NodeLabel::Dummy);
            lemma_chain_height(v, k + 1, v.len());
            let rank = with_rank(after, n2.next(), (top - chain_height(v, k + 1)) as nat);
            lemma_node(n2, NodeLabel::Dummy);
            lemma_lists(n3.graph);
            assert forall|s: int| #[trigger] visible(n2.scopes, s) implies n3.graph.out[s]
                == n2.graph.out[s] by {
                assert(0 <= s < n2.next());
            }
            lemma_safe_kept(n2, n3, after, rank, high);
            lemma_widened_same(n2, n3);
            lemma_widened_then(net, n2, n3);
            assert(!visible(n3.scopes, n2.next()));
            assert forall|i: int|
                c <= i < n3.next() && i != before.sink && i != n2.next() && !n3.outer(
                    i,
                ) implies #[trigger] n3.graph.descends(rank, i) by {
                assert(!n2.outer(i));
                assert(n2.graph.descends(after, i));
                lemma_kept(n2, n3, after, rank, i);
            }
            rank
        }
    }
}

proof fn rank_block(
    v: Seq<Rc<Ast>>,
    frame: Frame,
    n: Net,
    old: spec_fn(int) -> nat,
    low: nat,
    high: nat,
) -> (rank: spec_fn(int) -> nat)
    requires
        structured_chain(v, v.len()),
        n.ok(),
        frame.within(n),
        build_block(v, frame, n).fault is None,
        has_room(n, frame, old, low, 2 + chain_height(v, v.len()), high),
        labels_ready(n, frame.source, old, high),
    ensures
        settled(
            n,
            build_block(v, frame, n).net,
            frame.source,
            old,
            rank,
            high,
            |name: Seq<char>| chain_marks(v, v.len(), name),
        ),
    decreases v, v.len() + 1,
{
    let c = n.next();
    let opened = n.open_block(frame);
    let after = build_block(v, frame, n).net;
    let mid = block_ranks(v, old, c, low);
    lemma_lists(n.graph);
    lemma_open_block(n, frame);
    lemma_visible(n);
    if v.len() == 0 {
        assert(opens(n, after, frame.source, c, old, mid));
        lemma_opens(n, after, frame.source, c, old, mid, high);
        mid
    } else {
        lemma_chain_height(v, 1, v.len());
        assert forall|s: int| #[trigger] visible(n.scopes, s) implies opened.graph.out[s]
            == n.graph.out[s] by {
            assert(s != frame.source);
        }
        lemma_safe_kept(n, opened, old, mid, high);
        let chain = build_chain(v, v.len(), frame, opened, c);
        let net = chain.built.net;
        let rank = rank_chain(v, v.len(), frame, opened, c, mid, low, high);
        lemma_build_chain(v, v.len(), frame, opened, c);
        lemma_lists(net.graph);
        lemma_visible(net);
        assert(opened.graph.descends(mid, frame.source));
        lemma_widened_same(n, opened);
        lemma_widened_visible(n, opened);
        lemma_widened_visible(opened, net);
        lemma_widened_same(net, after);
        lemma_widened_then(opened, net, after);
        lemma_widened_then(n, opened, after);
        lemma_kept(opened, net, mid, rank, frame.source);
        lemma_kept(net, after, rank, rank, frame.source);
        assert forall|s: int| #[trigger] visible(net.scopes, s) implies after.graph.out[s]
            == net.graph.out[s] by {
            assert(s != chain.sink);
        }
        lemma_safe_kept(net, after, rank, rank, high);
        assert forall|i: int|
            c <= i < after.next() && !after.outer(i) implies #[trigger] after.graph.descends(
            rank,
            i,
        ) by {
            if i == chain.sink {
                assert(rank(frame.sink) == mid(frame.sink));
            } else {
                assert(!net.outer(i));
                assert(net.graph.descends(rank, i));
                lemma_kept(net, after, rank, rank, i);
            }
        }
        assert forall|i: int| 0 <= i < c implies #[trigger] rank(i) == old(i) by {
            assert(mid(i) == old(i));
        }
        assert forall|name: Seq<char>| (#[trigger] lookup(n.scopes, name)) is Some implies {
            let s = lookup(n.scopes, name)->0;
            after.graph.out[s].len() == n.graph.out[s].len() + chain_marks(v, v.len(), name)
        } by {
            let s = lookup(n.scopes, name)->0;
            assert(lookup(opened.scopes, name) == Some(s));
            assert(visible(n.scopes, s));
        }
        rank
    }
}

} // verus!
