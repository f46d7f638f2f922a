//! Trusted interface to the insertion-ordered map of the `indexmap` crate,
//! instantiated with string keys and core expressions as values.
//!
//! The map is opaque; its contents are named by `index_map_entries`: the
//! entries in insertion order, each key by its characters and each value by
//! its view.
use vstd::prelude::*;
use indexmap::IndexMap;
use crate::ast::{CoreExpr, ExprV};

verus! {

#[verifier::external_type_specification]
#[verifier::external_body]
#[verifier::reject_recursive_types(K)]
#[verifier::reject_recursive_types(V)]
#[verifier::reject_recursive_types(S)]
pub struct ExIndexMap<K, V, S>(IndexMap<K, V, S>);

/// The entries of a map, in insertion order.
pub uninterp spec fn index_map_entries(m: IndexMap<String, CoreExpr>) -> Seq<(Seq<char>, ExprV)>;

/// Whether some entry has key `k`.
pub open spec fn has_key(entries: Seq<(Seq<char>, ExprV)>, k: Seq<char>) -> bool {
    exists|i: int| 0 <= i < entries.len() && entries[i].0 == k
}

/// Whether no two entries share a key.
pub open spec fn distinct_keys(entries: Seq<(Seq<char>, ExprV)>) -> bool {
    forall|i: int, j: int|
        0 <= i < entries.len() && 0 <= j < entries.len() && i != j ==> entries[i].0
            != entries[j].0
}

/// Calls `IndexMap::new`. Trusted: the new map has no entries.
#[verifier::external_body]
pub(crate) fn index_map_new() -> (m: IndexMap<String, CoreExpr>)
    ensures
        index_map_entries(m) == Seq::<(Seq<char>, ExprV)>::empty(),
{
    IndexMap::new()
}

/// Calls `IndexMap::contains_key`. Trusted: the result says whether an entry
/// has the key.
#[verifier::external_body]
pub(crate) fn index_map_contains_key(m: &IndexMap<String, CoreExpr>, key: &String) -> (r: bool)
    ensures
        r == has_key(index_map_entries(*m), key@),
{
    m.contains_key(key)
}

/// Calls `IndexMap::insert`. Trusted, as its documentation states: a new key
/// is added last in order; an existing key keeps its place and gets the new
/// value. An `IndexMap` never holds a key twice. The replaced value that
/// `insert` returns is dropped.
#[verifier::external_body]
pub(crate) fn index_map_insert(m: &mut IndexMap<String, CoreExpr>, key: String, value: CoreExpr)
    ensures
        !has_key(index_map_entries(*old(m)), key@) ==> index_map_entries(*final(m))
            == index_map_entries(*old(m)).push((key@, value@)),
        forall|i: int|
            0 <= i < index_map_entries(*old(m)).len() && index_map_entries(*old(m))[i].0
                == key@ ==> index_map_entries(*final(m)) == index_map_entries(*old(m)).update(
                i,
                (key@, value@),
            ),
        distinct_keys(index_map_entries(*final(m))),
{
    m.insert(key, value);
}

/// Consumes the map through its `IntoIterator` impl and collects the
/// entries. Trusted: the entries come out in insertion order.
#[verifier::external_body]
pub(crate) fn index_map_into_entries(m: IndexMap<String, CoreExpr>) -> (r: Vec<(String, CoreExpr)>)
    ensures
        r@.len() == index_map_entries(m).len(),
        forall|i: int|
            0 <= i < r@.len() ==> r@[i].0@ == index_map_entries(m)[i].0 && r@[i].1@
                == index_map_entries(m)[i].1,
{
    m.into_iter().collect()
}

} // verus!
