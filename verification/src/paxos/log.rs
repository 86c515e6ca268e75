//! The Paxos log: a `dashmap::DashMap` from slot numbers to requests.
use vstd::prelude::*;
use dashmap::DashMap;
use crate::paxos::request::ClientRequest;

verus! {

/// What a log holds: each slot mapped to its request.
pub uninterp spec fn log_contents(m: DashMap<u32, ClientRequest>) -> Map<u32, ClientRequest>;

/// `DashMap::new`: an empty log.
#[verifier::external_body]
pub fn log_new() -> (m: DashMap<u32, ClientRequest>)
    ensures
        log_contents(m).is_empty(),
{
    DashMap::new()
}

/// `DashMap::insert` on the log: `slot` now holds `request`.
#[verifier::external_body]
pub fn log_insert(m: &mut DashMap<u32, ClientRequest>, slot: u32, request: ClientRequest)
    ensures
        log_contents(*final(m)) == log_contents(*old(m)).insert(slot, request),
{
    m.insert(slot, request);
}

/// `DashMap::get` on the log, the request copied out of the guard.
#[verifier::external_body]
pub fn log_get(m: &DashMap<u32, ClientRequest>, slot: u32) -> (r: Option<ClientRequest>)
    ensures
        r is Some <==> log_contents(*m).dom().contains(slot),
        r is Some ==> r->0 == log_contents(*m)[slot],
{
    match m.get(&slot) {
        Some(entry) => Some(entry.value().clone()),
        None => None,
    }
}

} // verus!
