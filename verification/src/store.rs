//! The concurrent maps and sets of the `dashmap` crate that the servers keep their
//! state in, with what each operation the servers use does to their contents.
//!
//! `DashMap` and `DashSet` change through `&self`; every wrapper below that changes
//! one takes it by `&mut`, so that the change shows in the contracts.
use vstd::prelude::*;
use dashmap::{DashMap, DashSet};

verus! {

#[verifier::external_type_specification]
#[verifier::external_body]
#[verifier::reject_recursive_types(K)]
#[verifier::reject_recursive_types(V)]
#[verifier::reject_recursive_types(S)]
pub struct ExDashMap<K, V, S>(dashmap::DashMap<K, V, S>);

#[verifier::external_type_specification]
#[verifier::external_body]
#[verifier::reject_recursive_types(K)]
#[verifier::reject_recursive_types(S)]
pub struct ExDashSet<K, S>(dashmap::DashSet<K, S>);

// ---------------------------------------------------------------------------
// The application's key-value table
// ---------------------------------------------------------------------------

/// What a key-value table holds: each key's view mapped to its value's view.
pub uninterp spec fn table_contents(m: DashMap<String, String>) -> Map<Seq<char>, Seq<char>>;

/// `DashMap::new`: an empty table.
#[verifier::external_body]
pub fn table_new() -> (m: DashMap<String, String>)
    ensures
        table_contents(m).is_empty(),
{
    DashMap::new()
}

/// `DashMap::get` on the table, the value copied out of the guard: the value held
/// for `key`, or `None` when the table holds no entry for `key`.
#[verifier::external_body]
pub fn table_get(m: &DashMap<String, String>, key: &String) -> (r: Option<String>)
    ensures
        r is Some <==> table_contents(*m).dom().contains(key@),
        r is Some ==> r->0@ == table_contents(*m)[key@],
{
    match m.get(key) {
        Some(entry) => Some(entry.value().clone()),
        None => None,
    }
}

/// `DashMap::contains_key` on the table.
#[verifier::external_body]
pub fn table_contains(m: &DashMap<String, String>, key: &String) -> (r: bool)
    ensures
        r == table_contents(*m).dom().contains(key@),
{
    m.contains_key(key)
}

/// `DashMap::insert` on the table: `key` now holds `value`, every other key is unchanged.
#[verifier::external_body]
pub fn table_insert(m: &mut DashMap<String, String>, key: String, value: String)
    ensures
        table_contents(*final(m)) == table_contents(*old(m)).insert(key@, value@),
{
    m.insert(key, value);
}

// ---------------------------------------------------------------------------
// Votes: for each slot, the set of servers that accepted it
// ---------------------------------------------------------------------------

/// What a set of voters holds.
pub uninterp spec fn voter_set_contents(s: DashSet<u32>) -> Set<u32>;

/// What the vote table holds: each slot mapped to the set of its voters.
pub uninterp spec fn votes_contents(m: DashMap<u32, DashSet<u32>>) -> Map<u32, Set<u32>>;

/// `DashSet::new`: an empty set of voters.
#[verifier::external_body]
pub fn voter_set_new() -> (s: DashSet<u32>)
    ensures
        voter_set_contents(s).is_empty(),
{
    DashSet::new()
}

/// `DashSet::insert`: `voter` is now in the set.
#[verifier::external_body]
pub fn voter_set_insert(s: &mut DashSet<u32>, voter: u32)
    ensures
        voter_set_contents(*final(s)) == voter_set_contents(*old(s)).insert(voter),
{
    s.insert(voter);
}

/// `DashMap::new`: an empty vote table.
#[verifier::external_body]
pub fn votes_new() -> (m: DashMap<u32, DashSet<u32>>)
    ensures
        votes_contents(m).is_empty(),
{
    DashMap::new()
}

/// `DashMap::insert` on the vote table: `slot` now has the voters of `set`.
#[verifier::external_body]
pub fn votes_insert(m: &mut DashMap<u32, DashSet<u32>>, slot: u32, set: DashSet<u32>)
    ensures
        votes_contents(*final(m)) == votes_contents(*old(m)).insert(slot, voter_set_contents(set)),
{
    m.insert(slot, set);
}

/// `DashMap::contains_key` on the vote table: whether `slot` has a set of voters.
#[verifier::external_body]
pub fn votes_contains(m: &DashMap<u32, DashSet<u32>>, slot: u32) -> (r: bool)
    ensures
        r == votes_contents(*m).dom().contains(slot),
{
    m.contains_key(&slot)
}

/// `DashMap::get` of `slot`'s voters, then `DashSet::insert` of `voter` into them:
/// `voter` is now among `slot`'s voters.
#[verifier::external_body]
pub fn votes_record(m: &mut DashMap<u32, DashSet<u32>>, slot: u32, voter: u32)
    requires
        votes_contents(*old(m)).dom().contains(slot),
    ensures
        votes_contents(*final(m)) == votes_contents(*old(m)).insert(
            slot,
            votes_contents(*old(m))[slot].insert(voter),
        ),
{
    match m.get(&slot) {
        Some(set) => {
            set.insert(voter);
        },
        None => {},
    }
}

/// `DashMap::get` of `slot`'s voters, then `DashSet::len`: how many servers voted for `slot`.
#[verifier::external_body]
pub fn votes_count(m: &DashMap<u32, DashSet<u32>>, slot: u32) -> (r: usize)
    requires
        votes_contents(*m).dom().contains(slot),
    ensures
        r == votes_contents(*m)[slot].len(),
{
    match m.get(&slot) {
        Some(set) => set.len(),
        None => 0,
    }
}

// ---------------------------------------------------------------------------
// Addresses of the servers, by id
// ---------------------------------------------------------------------------

/// What an address table holds: each server id mapped to its address's view.
pub uninterp spec fn address_contents(m: DashMap<u32, String>) -> Map<u32, Seq<char>>;

/// `DashMap::new`: an empty address table.
#[verifier::external_body]
pub fn address_new() -> (m: DashMap<u32, String>)
    ensures
        address_contents(m).is_empty(),
{
    DashMap::new()
}

/// `DashMap::insert` on the address table: `id` now has `addr`.
#[verifier::external_body]
pub fn address_insert(m: &mut DashMap<u32, String>, id: u32, addr: String)
    ensures
        address_contents(*final(m)) == address_contents(*old(m)).insert(id, addr@),
{
    m.insert(id, addr);
}

/// `DashMap::get` on the address table, the address copied out of the guard.
#[verifier::external_body]
pub fn address_get(m: &DashMap<u32, String>, id: u32) -> (r: Option<String>)
    ensures
        r is Some <==> address_contents(*m).dom().contains(id),
        r is Some ==> r->0@ == address_contents(*m)[id],
{
    match m.get(&id) {
        Some(entry) => Some(entry.value().clone()),
        None => None,
    }
}

} // verus!
