use vstd::prelude::*;
use core::cmp::Ordering;
use vstd::std_specs::cmp::PartialEqSpecImpl;
use vstd::std_specs::cmp::PartialOrdSpecImpl;

verus! {

/// A client's command as the Mencius servers carry it: a read of `key`
/// when `value` is empty, a write of `value` to `key` otherwise.
/// `worker_addr` is where the reply goes; `sn` numbers the client's requests.
#[derive(Debug)]
pub struct ClientRequest {
    pub key: String,
    pub value: String,
    pub sn: u32,
    pub worker_addr: String,
    pub time_sent: u64,
}

/// The answer to one client request, sent to the request's worker.
#[derive(Debug)]
pub struct ClientResponse {
    pub result: String,
    pub sn: u32,
    pub time_sent: u64,
}

impl Clone for ClientRequest {
    fn clone(&self) -> (r: Self)
        ensures
            r == *self,
    {
        ClientRequest {
            key: self.key.clone(),
            value: self.value.clone(),
            sn: self.sn,
            worker_addr: self.worker_addr.clone(),
            time_sent: self.time_sent,
        }
    }
}

/// Two requests are the same request when they carry the same sequence number.
impl PartialEq for ClientRequest {
    fn eq(&self, other: &Self) -> (r: bool) {
        self.sn == other.sn
    }
}

impl PartialEqSpecImpl for ClientRequest {
    open spec fn obeys_eq_spec() -> bool {
        true
    }

    open spec fn eq_spec(&self, other: &Self) -> bool {
        self.sn == other.sn
    }
}

impl Eq for ClientRequest {}

/// Requests are ordered by their sequence numbers.
impl PartialOrd for ClientRequest {
    fn partial_cmp(&self, other: &Self) -> (r: Option<Ordering>) {
        if self.sn < other.sn {
            Some(Ordering::Less)
        } else if self.sn == other.sn {
            Some(Ordering::Equal)
        } else {
            Some(Ordering::Greater)
        }
    }
}

impl PartialOrdSpecImpl for ClientRequest {
    open spec fn obeys_partial_cmp_spec() -> bool {
        true
    }

    open spec fn partial_cmp_spec(&self, other: &Self) -> Option<Ordering> {
        if self.sn < other.sn {
            Some(Ordering::Less)
        } else if self.sn == other.sn {
            Some(Ordering::Equal)
        } else {
            Some(Ordering::Greater)
        }
    }
}

} // verus!
