//! Takes the joints out of a chart.

use crate::error::Error;
use crate::model::Arrow;
use crate::node::{GraphNodeType, NodeLabel};
use crate::store::{
    add_edge, clone_graph, graph_view, incoming_edges, node_indices, node_references, node_weight,
    outgoing_neighbors, remove_node, Graph,
};
use crate::tidy::{
    contract, contract_fits, lemma_bypass, lemma_bypass_count, lemma_ends, lemma_least,
    lemma_least_is, lemma_orphan, lemma_picked, lemma_prune_step, lemma_redirect, live_count, prune,
};
use vstd::prelude::*;

verus! {

/// Removes the first joint that no edge enters, and tells whether there was one.
pub(crate) fn remove_zero_in_degree_nodes(graph: &mut Graph) -> (removed: bool)
    ensures
        match graph_view(*old(graph)).first_orphan() {
            Some(d) => removed && graph_view(*final(graph)) == graph_view(*old(graph)).remove_node(
                d,
            ),
            None => !removed && graph_view(*final(graph)) == graph_view(*old(graph)),
        },
{
    let ghost view = graph_view(*graph);
    proof {
        lemma_orphan(view);
    }
    let indices = node_indices(graph);
    let mut k: usize = 0;
    while k < indices.len()
        invariant
            graph_view(*graph) == view,
            view == graph_view(*old(graph)),
            k <= indices@.len(),
            forall|j: int|
                0 <= j < indices@.len() ==> view.live(#[trigger] indices@[j] as int),
            forall|j: int, m: int| 0 <= j < m < indices@.len() ==> indices@[j] < indices@[m],
            forall|i: int| #[trigger]
                view.live(i) ==> exists|j: int|
                    0 <= j < indices@.len() && #[trigger] indices@[j] == i,
            forall|j: int| 0 <= j < k ==> !view.orphan(#[trigger] indices@[j] as int),
        decreases indices.len() - k,
    {
        let i = indices[k];
        let is_dummy = match node_weight(graph, i) {
            Some(GraphNodeType::Dummy) => true,
            _ => false,
        };
        if is_dummy && incoming_edges(graph, i).len() == 0 {
            proof {
                assert(view.orphan(i as int));
                assert forall|j: int| 0 <= j < i implies !view.orphan(j) by {
                    if view.orphan(j) {
                        assert(view.live(j));
                        let m = choose|m: int| 0 <= m < indices@.len() && #[trigger] indices@[m] == j;
                        assert(indices@[m] == j);
                    }
                }
                lemma_least_is(|j: int| view.orphan(j), view.nodes.len(), i as int);
            }
            let _ = remove_node(graph, i);
            return true;
        }
        assert(!view.orphan(i as int));
        k += 1;
    }
    proof {
        assert forall|j: int| !view.orphan(j) by {
            if view.orphan(j) {
                assert(view.live(j));
                let m = choose|m: int| 0 <= m < indices@.len() && #[trigger] indices@[m] == j;
                assert(indices@[m] == j);
            }
        }
        lemma_least(|j: int| view.orphan(j), view.nodes.len());
    }
    false
}

/// Takes out the first node that the predicate holds of: its incoming edges go on to where its
/// outgoing edge goes.
///
/// It tells whether there was such a node. One that does not have exactly one outgoing edge is an
/// error and stays where it is.
pub(crate) fn remove_single_node<F>(
    graph: &mut Graph,
    predicate: F,
    Ghost(pick): Ghost<spec_fn(int, NodeLabel) -> bool>,
) -> (removed: Result<bool, Error>) where F: Fn(u32, &GraphNodeType) -> bool
    requires
        graph_view(*old(graph)).wf(),
        forall|i: u32, weight: &GraphNodeType| #[trigger] predicate.requires((i, weight)),
        forall|i: u32, weight: &GraphNodeType, holds: bool| #[trigger]
            predicate.ensures((i, weight), holds) ==> holds == pick(i as int, weight@),
        graph_view(*old(graph)).first_picked(pick) matches Some(d) ==> graph_view(
            *old(graph),
        ).out[d].len() == 1 ==> graph_view(*old(graph)).edge_count() + graph_view(
            *old(graph),
        ).inc[d].len() <= u32::MAX,
    ensures
        match graph_view(*old(graph)).first_picked(pick) {
            Some(d) => if graph_view(*old(graph)).out[d].len() == 1 {
                removed == Ok::<bool, Error>(true) && graph_view(*final(graph)) == graph_view(
                    *old(graph),
                ).bypass(d)
            } else {
                (removed matches Err(error) && error.tells_stuck(d, graph_view(*old(graph))))
                    && graph_view(*final(graph)) == graph_view(*old(graph))
            },
            None => removed == Ok::<bool, Error>(false) && graph_view(*final(graph)) == graph_view(
                *old(graph),
            ),
        },
{
    let ghost view = graph_view(*graph);
    proof {
        lemma_picked(view, pick);
    }
    let found = find_node(graph, predicate, Ghost(pick));
    match found {
        Some(node_index) => {
            let ghost d = node_index as int;
            let incoming = incoming_edges(graph, node_index);
            let neighbors = outgoing_neighbors(graph, node_index);
            if neighbors.len() != 1 {
                let copy = clone_graph(graph);
                assert(neighbors@.map_values(|v: u32| v as int) =~= view.successors(d));
                return Err(
                    Error::UnexpectedOutgoingEdges { node_index, neighbors, graph: copy },
                );
            }
            let next_node = neighbors[0];
            proof {
                lemma_ends(view, d);
                assert(view.out[d][0].node == next_node);
            }
            let mut k: usize = 0;
            while k < incoming.len()
                invariant
                    view.wf(),
                    view.live(next_node as int),
                    view.edge_count() + view.inc[d].len() <= u32::MAX,
                    incoming@.len() == view.inc[d].len(),
                    forall|j: int|
                        0 <= j < incoming@.len() ==> #[trigger] view.inc[d][j] == (Arrow {
                            node: incoming@[j].0 as int,
                            kind: incoming@[j].1,
                        }),
                    forall|j: int|
                        0 <= j < view.inc[d].len() ==> view.live(
                            (#[trigger] view.inc[d][j]).node,
                        ),
                    k <= incoming@.len(),
                    graph_view(*graph) == view.redirect(view.inc[d], k as nat, next_node as int),
                decreases incoming.len() - k,
            {
                proof {
                    lemma_redirect(view, view.inc[d], k as nat, next_node as int);
                    assert(view.live(view.inc[d][k as int].node));
                }
                let (src, edge_type) = incoming[k];
                add_edge(graph, src, next_node, edge_type);
                k += 1;
            }
            proof {
                lemma_redirect(view, view.inc[d], k as nat, next_node as int);
            }
            let _ = remove_node(graph, node_index);
            Ok(true)
        },
        None => Ok(false),
    }
}

/// The first node that the predicate holds of.
fn find_node<F>(
    graph: &Graph,
    predicate: F,
    Ghost(pick): Ghost<spec_fn(int, NodeLabel) -> bool>,
) -> (found: Option<u32>) where F: Fn(u32, &GraphNodeType) -> bool
    requires
        forall|i: u32, weight: &GraphNodeType| #[trigger] predicate.requires((i, weight)),
        forall|i: u32, weight: &GraphNodeType, holds: bool| #[trigger]
            predicate.ensures((i, weight), holds) ==> holds == pick(i as int, weight@),
    ensures
        graph_view(*graph).first_picked(pick) == (match found {
            Some(d) => Some(d as int),
            None => None,
        }),
{
    let ghost view = graph_view(*graph);
    let nodes = node_references(graph);
    let mut k: usize = 0;
    while k < nodes.len()
        invariant
            view == graph_view(*graph),
            forall|i: u32, weight: &GraphNodeType| #[trigger] predicate.requires((i, weight)),
            forall|i: u32, weight: &GraphNodeType, holds: bool| #[trigger]
                predicate.ensures((i, weight), holds) ==> holds == pick(i as int, weight@),
            k <= nodes@.len(),
            forall|j: int|
                0 <= j < nodes@.len() ==> view.live((#[trigger] nodes@[j]).0 as int)
                    && view.nodes[nodes@[j].0 as int] == Some(nodes@[j].1@),
            forall|j: int, m: int| 0 <= j < m < nodes@.len() ==> nodes@[j].0 < nodes@[m].0,
            forall|i: int| #[trigger]
                view.live(i) ==> exists|j: int|
                    0 <= j < nodes@.len() && (#[trigger] nodes@[j]).0 == i,
            forall|j: int| 0 <= j < k ==> !view.picked(pick, (#[trigger] nodes@[j]).0 as int),
        decreases nodes.len() - k,
    {
        let (i, weight) = nodes[k];
        assert(view.live(nodes@[k as int].0 as int));
        if predicate(i, weight) {
            proof {
                assert(view.picked(pick, i as int));
                assert forall|j: int| 0 <= j < i implies !view.picked(pick, j) by {
                    if view.picked(pick, j) {
                        assert(view.live(j));
                        let m = choose|m: int|
                            0 <= m < nodes@.len() && (#[trigger] nodes@[m]).0 == j;
                        assert(nodes@[m].0 == j);
                    }
                }
                lemma_least_is(|j: int| view.picked(pick, j), view.nodes.len(), i as int);
            }
            return Some(i);
        }
        k += 1;
    }
    proof {
        assert forall|j: int| !view.picked(pick, j) by {
            if view.picked(pick, j) {
                assert(view.live(j));
                let m = choose|m: int| 0 <= m < nodes@.len() && (#[trigger] nodes@[m]).0 == j;
                assert(nodes@[m].0 == j);
            }
        }
        lemma_least(|j: int| view.picked(pick, j), view.nodes.len());
    }
    None
}

/// Removes joints that no edge enters, until there are none.
pub(crate) fn remove_orphans(graph: &mut Graph)
    requires
        graph_view(*old(graph)).wf(),
    ensures
        graph_view(*final(graph)) == prune(graph_view(*old(graph))),
        graph_view(*final(graph)).wf(),
{
    let ghost before = graph_view(*graph);
    let mut removed = true;
    while removed
        invariant
            graph_view(*graph).wf(),
            prune(graph_view(*graph)) == prune(before),
            !removed ==> graph_view(*graph).first_orphan() is None,
        decreases
            live_count(graph_view(*graph).nodes),
            (if removed {
                1nat
            } else {
                0nat
            }),
    {
        proof {
            lemma_prune_step(graph_view(*graph));
        }
        removed = remove_zero_in_degree_nodes(graph);
    }
}

/// Takes out the nodes that the predicate holds of, until there are none.
pub(crate) fn take_out<F>(
    graph: &mut Graph,
    predicate: F,
    Ghost(pick): Ghost<spec_fn(int, NodeLabel) -> bool>,
) -> (result: Result<(), Error>) where F: Fn(u32, &GraphNodeType) -> bool + Copy
    requires
        graph_view(*old(graph)).wf(),
        contract_fits(graph_view(*old(graph)), pick),
        forall|i: u32, weight: &GraphNodeType| #[trigger] predicate.requires((i, weight)),
        forall|i: u32, weight: &GraphNodeType, holds: bool| #[trigger]
            predicate.ensures((i, weight), holds) ==> holds == pick(i as int, weight@),
    ensures
        match contract(graph_view(*old(graph)), pick) {
            Ok(rest) => result is Ok && graph_view(*final(graph)) == rest && rest.wf(),
            Err(stuck) => {
                &&& result matches Err(error) && error.tells_stuck(stuck.node, stuck.graph)
                &&& graph_view(*final(graph)) == stuck.graph
            },
        },
{
    let ghost before = graph_view(*graph);
    let mut removed = true;
    while removed
        invariant
            before == graph_view(*old(graph)),
            graph_view(*graph).wf(),
            contract(graph_view(*graph), pick) == contract(before, pick),
            contract_fits(graph_view(*graph), pick),
            !removed ==> graph_view(*graph).first_picked(pick) is None,
            forall|i: u32, weight: &GraphNodeType| #[trigger] predicate.requires((i, weight)),
            forall|i: u32, weight: &GraphNodeType, holds: bool| #[trigger]
                predicate.ensures((i, weight), holds) ==> holds == pick(i as int, weight@),
        decreases
            live_count(graph_view(*graph).nodes),
            (if removed {
                1nat
            } else {
                0nat
            }),
    {
        let ghost view = graph_view(*graph);
        proof {
            lemma_picked(view, pick);
            if let Some(d) = view.first_picked(pick) {
                lemma_bypass_count(view, d);
                if view.out[d].len() == 1 {
                    lemma_bypass(view, d);
                }
            }
        }
        match remove_single_node(graph, predicate, Ghost(pick)) {
            Ok(more) => {
                removed = more;
            },
            Err(error) => {
                return Err(error);
            },
        }
    }
    Ok(())
}

} // verus!
