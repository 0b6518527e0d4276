//! The scopes of jump labels: `hash_chain`'s chain of maps and what its operations do.

use crate::flow::lookup;
use hash_chain::ChainMap;
use std::collections::HashMap;
use vstd::prelude::*;

verus! {

/// `hash_chain`'s chain of maps.
#[verifier::external_type_specification]
#[verifier::external_body]
#[verifier::reject_recursive_types(K)]
#[verifier::reject_recursive_types(V)]
#[verifier::reject_recursive_types(S)]
pub struct ExChainMap<K, V, S>(ChainMap<K, V, S>);

/// Jump labels and the nodes that stand for them.
pub type Scopes = ChainMap<String, u32>;

/// The maps of a chain, the outermost one first.
pub uninterp spec fn scope_maps(scopes: Scopes) -> Seq<Map<Seq<char>, int>>;

/// The entries of a table as a map; of entries with the same name the last one counts.
pub open spec fn table_map(table: Seq<(String, u32)>) -> Map<Seq<char>, int>
    decreases table.len(),
{
    if table.len() == 0 {
        Map::empty()
    } else {
        table_map(table.drop_last()).insert(table.last().0@, table.last().1 as int)
    }
}

/// Calls `ChainMap::new` with an empty map: it is the chain's only one.
#[verifier::external_body]
pub(crate) fn new_scopes() -> (scopes: Scopes)
    ensures
        scope_maps(scopes) == seq![Map::<Seq<char>, int>::empty()],
{
    ChainMap::new(HashMap::new())
}

/// Calls `ChainMap::get`: what the innermost map that has the name gives for it.
#[verifier::external_body]
pub(crate) fn get(scopes: &Scopes, name: &String) -> (node: Option<u32>)
    ensures
        lookup(scope_maps(*scopes), name@) == (match node {
            Some(v) => Some(v as int),
            None => None,
        }),
{
    scopes.get(name).copied()
}

/// Calls `ChainMap::insert_at`: the map at an index of the chain gets the entry and gives back
/// the one that it had; for an index beyond the chain there is `None` and nothing changes.
#[verifier::external_body]
pub(crate) fn insert_at(scopes: &mut Scopes, at: usize, name: String, node: u32) -> (replaced: Option<
    Option<u32>,
>)
    ensures
        replaced is Some <==> at < scope_maps(*old(scopes)).len(),
        replaced matches Some(before) ==> {
            &&& scope_maps(*final(scopes)) == scope_maps(*old(scopes)).update(
                at as int,
                scope_maps(*old(scopes))[at as int].insert(name@, node as int),
            )
            &&& match before {
                Some(v) => scope_maps(*old(scopes))[at as int].contains_key(name@) && scope_maps(
                    *old(scopes),
                )[at as int][name@] == v,
                None => !scope_maps(*old(scopes))[at as int].contains_key(name@),
            }
        },
        replaced is None ==> scope_maps(*final(scopes)) == scope_maps(*old(scopes)),
{
    scopes.insert_at(at, name, node).ok()
}

/// Calls `ChainMap::new_child_with`: the map becomes the innermost one of the chain.
#[verifier::external_body]
pub(crate) fn new_child_with(scopes: &mut Scopes, table: Vec<(String, u32)>)
    requires
        forall|i: int, j: int| 0 <= i < j < table@.len() ==> table@[i].0@ != table@[j].0@,
    ensures
        scope_maps(*final(scopes)) == scope_maps(*old(scopes)).push(table_map(table@)),
{
    scopes.new_child_with(table.into_iter().collect());
}

/// Calls `ChainMap::remove_child` on a chain of several maps: the innermost one goes.
#[verifier::external_body]
pub(crate) fn remove_child(scopes: &mut Scopes)
    requires
        scope_maps(*old(scopes)).len() >= 2,
    ensures
        scope_maps(*final(scopes)) == scope_maps(*old(scopes)).drop_last(),
{
    scopes.remove_child();
}

} // verus!
