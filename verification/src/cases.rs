//! The case labels of a switch.

use crate::ast::texts;
use crate::flow::tested;
use crate::scopes::table_map;
use vstd::prelude::*;

verus! {

/// Whether no name occurs twice in a table.
pub open spec fn distinct(table: Seq<(String, u32)>) -> bool {
    forall|i: int, j: int| 0 <= i < j < table.len() ==> table[i].0@ != table[j].0@
}

/// What a table without repetitions holds as a map.
pub proof fn lemma_table_map(table: Seq<(String, u32)>)
    requires
        distinct(table),
    ensures
        forall|i: int|
            0 <= i < table.len() ==> table_map(table).contains_key((#[trigger] table[i]).0@)
                && table_map(table)[table[i].0@] == table[i].1,
        forall|name: Seq<char>| #[trigger]
            table_map(table).contains_key(name) ==> exists|i: int|
                0 <= i < table.len() && (#[trigger] table[i]).0@ == name,
    decreases table.len(),
{
    if table.len() > 0 {
        let rest = table.drop_last();
        lemma_table_map(rest);
        assert forall|i: int| 0 <= i < table.len() implies table_map(table).contains_key(
            (#[trigger] table[i]).0@,
        ) && table_map(table)[table[i].0@] == table[i].1 by {
            if i < table.len() - 1 {
                assert(rest[i] == table[i]);
            }
        }
        assert forall|name: Seq<char>| #[trigger]
            table_map(table).contains_key(name) implies exists|i: int|
            0 <= i < table.len() && (#[trigger] table[i]).0@ == name by {
            if name == table.last().0@ {
                assert(table[table.len() - 1].0@ == name);
            } else {
                assert(table_map(rest).contains_key(name));
                let i = choose|i: int| 0 <= i < rest.len() && (#[trigger] rest[i]).0@ == name;
                assert(table[i].0@ == name);
            }
        }
    }
}

/// Where a name stands in a table.
fn position(table: &Vec<(String, u32)>, name: &String) -> (found: Option<usize>)
    ensures
        match found {
            Some(i) => i < table@.len() && table@[i as int].0@ == name@,
            None => forall|i: int| 0 <= i < table@.len() ==> (#[trigger] table@[i]).0@ != name@,
        },
{
    let mut i: usize = 0;
    while i < table.len()
        invariant
            i <= table@.len(),
            forall|j: int| 0 <= j < i ==> (#[trigger] table@[j]).0@ != name@,
        decreases table.len() - i,
    {
        if table[i].0 == *name {
            return Some(i);
        }
        i += 1;
    }
    None
}

/// The node of a name that the table has.
pub(crate) fn joint_of(table: &Vec<(String, u32)>, name: &String) -> (joint: u32)
    requires
        distinct(table@),
        table_map(table@).contains_key(name@),
    ensures
        joint == table_map(table@)[name@],
{
    proof {
        lemma_table_map(table@);
    }
    match position(table, name) {
        Some(i) => table[i].1,
        None => {
            assert(false);
            0
        },
    }
}

/// Enters a name, in place of the entry that it may have.
pub(crate) fn enter_case(table: &mut Vec<(String, u32)>, name: &String, joint: u32)
    requires
        distinct(old(table)@),
    ensures
        distinct(final(table)@),
        table_map(final(table)@) == table_map(old(table)@).insert(name@, joint as int),
{
    let ghost before = table@;
    proof {
        lemma_table_map(before);
    }
    match position(table, name) {
        Some(i) => {
            table.set(i, (name.clone(), joint));
            proof {
                let after = table@;
                assert(forall|j: int| 0 <= j < after.len() ==> (#[trigger] after[j]).0@ == before[j].0@);
                lemma_table_map(after);
                let map = table_map(before).insert(name@, joint as int);
                assert forall|k: Seq<char>|
                    table_map(after).contains_key(k) <==> map.contains_key(k) by {
                    if table_map(after).contains_key(k) {
                        let j = choose|j: int|
                            0 <= j < after.len() && (#[trigger] after[j]).0@ == k;
                        assert(before[j].0@ == k);
                    }
                    if map.contains_key(k) {
                        if k == name@ {
                            assert(after[i as int].0@ == k);
                        } else {
                            let j = choose|j: int|
                                0 <= j < before.len() && (#[trigger] before[j]).0@ == k;
                            assert(after[j].0@ == k);
                        }
                    }
                }
                assert forall|k: Seq<char>|
                    table_map(after).contains_key(k) implies table_map(after)[k] == map[k] by {
                    let j = choose|j: int| 0 <= j < after.len() && (#[trigger] after[j]).0@ == k;
                    assert(before[j].0@ == k);
                    if j != i {
                        assert(after[j] == before[j]);
                    }
                }
                assert(table_map(after) =~= map);
            }
        },
        None => {
            table.push((name.clone(), joint));
            assert(table@.drop_last() =~= before);
        },
    }
}

/// Whether `default` is among the case labels.
pub(crate) fn has_default(cases: &Vec<String>) -> (found: bool)
    ensures
        found == texts(cases@).contains("default"@),
{
    let default = "default".to_owned();
    let mut k: usize = 0;
    while k < cases.len()
        invariant
            k <= cases@.len(),
            default@ == "default"@,
            forall|j: int| 0 <= j < k ==> #[trigger] texts(cases@)[j] != "default"@,
        decreases cases.len() - k,
    {
        assert(texts(cases@)[k as int] == cases@[k as int]@);
        if cases[k] == default {
            return true;
        }
        k += 1;
    }
    false
}

/// The case labels that are tested, all but `default`.
pub(crate) fn tested_cases(cases: &Vec<String>) -> (names: Vec<String>)
    ensures
        texts(names@) == tested(texts(cases@)),
{
    let default = "default".to_owned();
    let ghost all = texts(cases@);
    let mut names: Vec<String> = Vec::new();
    let mut k: usize = 0;
    assert(texts(names@) =~= tested(all.take(0))) by {
        reveal(Seq::filter);
    }
    while k < cases.len()
        invariant
            k <= cases@.len(),
            all == texts(cases@),
            default@ == "default"@,
            texts(names@) == tested(all.take(k as int)),
        decreases cases.len() - k,
    {
        assert(all.take(k + 1).drop_last() =~= all.take(k as int));
        assert(all.take(k + 1).last() == cases@[k as int]@);
        proof {
            reveal(Seq::filter);
        }
        let ghost before = names@;
        if cases[k] != default {
            names.push(cases[k].clone());
            assert(texts(names@) =~= texts(before).push(all[k as int]));
        }
        k += 1;
    }
    assert(all.take(k as int) =~= all);
    names
}

} // verus!
