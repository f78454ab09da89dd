//! The table of registered fields, a concurrent map of `dashmap` keyed by field id.
use std::collections::hash_map::RandomState;

use dashmap::DashMap;
use vstd::prelude::*;

use super::RawField;

verus! {

#[verifier::external_type_specification]
#[verifier::external_body]
#[verifier::reject_recursive_types(K)]
#[verifier::reject_recursive_types(V)]
#[verifier::reject_recursive_types(S)]
pub struct ExDashMap<K, V, S>(DashMap<K, V, S>);

/// A table of fields by id.
pub type FieldTable = DashMap<u64, RawField, RandomState>;

/// The entries of a field table.
pub uninterp spec fn table_contents(m: DashMap<u64, RawField, RandomState>) -> Map<u64, RawField>;

/// `DashMap::new`: an empty table.
#[verifier::external_body]
pub(crate) fn table_new() -> (r: FieldTable)
    ensures
        table_contents(r).dom() == Set::<u64>::empty(),
{
    DashMap::new()
}

/// `DashMap::insert`: sets the entry of `k`, returning the entry it replaces.
#[verifier::external_body]
pub(crate) fn table_insert(m: &mut FieldTable, k: u64, v: RawField) -> (r: Option<RawField>)
    ensures
        table_contents(*final(m)) == table_contents(*old(m)).insert(k, v),
        r == (if table_contents(*old(m)).contains_key(k) {
            Some(table_contents(*old(m))[k])
        } else {
            None::<RawField>
        }),
{
    m.insert(k, v)
}

/// `DashMap::remove`: removes the entry of `k`, returning it.
#[verifier::external_body]
pub(crate) fn table_remove(m: &mut FieldTable, k: u64) -> (r: Option<RawField>)
    ensures
        table_contents(*final(m)) == table_contents(*old(m)).remove(k),
        r == (if table_contents(*old(m)).contains_key(k) {
            Some(table_contents(*old(m))[k])
        } else {
            None::<RawField>
        }),
{
    m.remove(&k).map(|(_, v)| v)
}

/// `DashMap::get`, with the entry copied out of its guard.
#[verifier::external_body]
pub(crate) fn table_get(m: &FieldTable, k: u64) -> (r: Option<RawField>)
    ensures
        r == (if table_contents(*m).contains_key(k) {
            Some(table_contents(*m)[k])
        } else {
            None::<RawField>
        }),
{
    m.get(&k).map(|e| e.value().clone())
}

} // verus!
