//! The concurrent map of the `dashmap` crate, as the routing of packets sees it.
//!
//! A map stands for what it holds. It is only changed through an exclusive reference here, so
//! what it holds changes only where a contract says so.
use dashmap::DashMap;
use vstd::prelude::*;

verus! {

/// `dashmap::DashMap`: a concurrent map.
#[verifier::external_type_specification]
#[verifier::external_body]
#[verifier::reject_recursive_types(K)]
#[verifier::reject_recursive_types(V)]
#[verifier::reject_recursive_types(S)]
pub struct ExDashMap<K, V, S>(dashmap::DashMap<K, V, S>);

/// What a map holds.
pub uninterp spec fn routes_of(m: DashMap<u64, u64>) -> Map<u64, u64>;

/// `DashMap::new`: an empty map.
#[verifier::external_body]
pub(crate) fn no_routes() -> (r: DashMap<u64, u64>)
    ensures
        forall|k: u64| !(#[trigger] routes_of(r).dom().contains(k)),
{
    DashMap::new()
}

/// `DashMap::insert`: the key has this value from now on. The value that it had is dropped.
#[verifier::external_body]
pub(crate) fn set_route(m: &mut DashMap<u64, u64>, key: u64, value: u64)
    ensures
        routes_of(*final(m)) == routes_of(*old(m)).insert(key, value),
{
    m.insert(key, value);
}

/// `DashMap::remove`: the key has no value from now on.
#[verifier::external_body]
pub(crate) fn drop_route(m: &mut DashMap<u64, u64>, key: u64)
    ensures
        routes_of(*final(m)) == routes_of(*old(m)).remove(key),
{
    m.remove(&key);
}

/// `DashMap::get`: the value of the key, if it has one.
#[verifier::external_body]
pub(crate) fn find_route(m: &DashMap<u64, u64>, key: u64) -> (r: Option<u64>)
    ensures
        r == (if routes_of(*m).dom().contains(key) {
            Some(routes_of(*m)[key])
        } else {
            None
        }),
{
    m.get(&key).map(|entry| *entry.value())
}

/// `DashMap::iter`: every key with its value, once, in no particular order.
#[verifier::external_body]
pub(crate) fn all_routes(m: &DashMap<u64, u64>) -> (r: Vec<(u64, u64)>)
    ensures
        forall|i: int|
            0 <= i < r@.len() ==> routes_of(*m).dom().contains((#[trigger] r@[i]).0)
                && routes_of(*m)[r@[i].0] == r@[i].1,
        forall|i: int, j: int|
            0 <= i < j < r@.len() ==> (#[trigger] r@[i]).0 != (#[trigger] r@[j]).0,
        forall|k: u64| #[trigger]
            routes_of(*m).dom().contains(k) ==> exists|i: int|
                0 <= i < r@.len() && (#[trigger] r@[i]).0 == k,
{
    m.iter().map(|entry| (*entry.key(), *entry.value())).collect()
}

} // verus!
