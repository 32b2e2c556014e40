//! Walking the keys of a hash map.
//!
//! A hash map promises nothing about the order in which its keys come. The
//! functions of this crate that depend on that order take it as an argument.

use std::collections::HashMap;
use vstd::prelude::*;

verus! {

/// `order` lists each key of `dom` exactly once.
pub open spec fn is_walk(order: Seq<u64>, dom: Set<u64>) -> bool {
    &&& order.no_duplicates()
    &&& forall|k: u64| #[trigger] order.contains(k) <==> dom.contains(k)
}

/// The first key in `order` that satisfies `p`.
pub open spec fn first_where(order: Seq<u64>, p: spec_fn(u64) -> bool) -> Option<u64>
    decreases order.len(),
{
    if order.len() == 0 {
        None
    } else if p(order[0]) {
        Some(order[0])
    } else {
        first_where(order.drop_first(), p)
    }
}

/// The first key is at the first index that satisfies `p`.
pub proof fn lemma_first_where_at(order: Seq<u64>, p: spec_fn(u64) -> bool, i: int)
    requires
        0 <= i < order.len(),
        p(order[i]),
        forall|j: int| 0 <= j < i ==> !p(#[trigger] order[j]),
    ensures
        first_where(order, p) == Some(order[i]),
    decreases order.len(),
{
    if i > 0 {
        assert(!p(order[0]));
        let rest = order.drop_first();
        assert forall|j: int| 0 <= j < i - 1 implies !p(#[trigger] rest[j]) by {
            assert(rest[j] == order[j + 1]);
        }
        lemma_first_where_at(rest, p, i - 1);
    }
}

/// No key is found exactly when none satisfies `p`.
pub proof fn lemma_first_where_none(order: Seq<u64>, p: spec_fn(u64) -> bool)
    ensures
        first_where(order, p) is None <==> forall|j: int|
            0 <= j < order.len() ==> !p(#[trigger] order[j]),
    decreases order.len(),
{
    if order.len() > 0 {
        let rest = order.drop_first();
        lemma_first_where_none(rest, p);
        if forall|j: int| 0 <= j < order.len() ==> !p(#[trigger] order[j]) {
            assert forall|j: int| 0 <= j < rest.len() implies !p(#[trigger] rest[j]) by {
                assert(rest[j] == order[j + 1]);
            }
        }
        if !p(order[0]) && forall|j: int| 0 <= j < rest.len() ==> !p(#[trigger] rest[j]) {
            assert forall|j: int| 0 <= j < order.len() implies !p(#[trigger] order[j]) by {
                if j > 0 {
                    assert(order[j] == rest[j - 1]);
                }
            }
        }
    }
}

/// A key that is found stands in `order` and satisfies `p`.
pub proof fn lemma_first_where_some(order: Seq<u64>, p: spec_fn(u64) -> bool)
    ensures
        first_where(order, p) matches Some(k) ==> order.contains(k) && p(k),
    decreases order.len(),
{
    if order.len() > 0 {
        if p(order[0]) {
            assert(order.contains(order[0]));
        } else {
            let rest = order.drop_first();
            lemma_first_where_some(rest, p);
            if let Some(k) = first_where(rest, p) {
                let j = choose|j: int| 0 <= j < rest.len() && rest[j] == k;
                assert(order[j + 1] == k);
            }
        }
    }
}

/// The keys of the map, each once, in the order in which the map hands them out.
pub fn keys_of<V>(map: &HashMap<u64, V>) -> (order: Vec<u64>)
    ensures
        is_walk(order@, map@.dom()),
{
    broadcast use vstd::std_specs::hash::group_hash_axioms;

    let mut order: Vec<u64> = Vec::new();
    for k in it: map.keys()
        invariant
            order@ =~= it.seq().unref().take(it.index() as int),
            is_walk(it.seq().unref(), map@.dom()),
            it.index() == it.seq().len() ==> is_walk(order@, map@.dom()),
    {
        order.push(*k);
        assert(it.index() + 1 == it.seq().len() ==> order@ =~= it.seq().unref());
    }
    order
}

/// A walk passes each key at exactly one index, and passes nothing else; so it is as long as
/// there are keys.
pub proof fn law_walk_passes_each_key_once(order: Seq<u64>, dom: Set<u64>)
    ensures
        is_walk(order, dom) <==> {
            &&& forall|i: int, j: int|
                0 <= i < j < order.len() ==> #[trigger] order[i] != #[trigger] order[j]
            &&& forall|i: int| 0 <= i < order.len() ==> dom.contains(#[trigger] order[i])
            &&& forall|k: u64| #[trigger]
                dom.contains(k) ==> exists|i: int| 0 <= i < order.len() && #[trigger] order[i] == k
        },
        is_walk(order, dom) ==> dom.finite() && order.len() == dom.len(),
{
    if is_walk(order, dom) {
        assert forall|i: int| 0 <= i < order.len() implies dom.contains(#[trigger] order[i]) by {
            assert(order.contains(order[i]));
        }
        assert forall|k: u64| #[trigger] dom.contains(k) implies exists|i: int|
            0 <= i < order.len() && #[trigger] order[i] == k by {
            assert(order.contains(k));
        }
        assert(order.to_set() =~= dom);
        order.unique_seq_to_set();
    }
}

} // verus!
