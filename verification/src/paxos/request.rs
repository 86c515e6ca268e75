use vstd::prelude::*;

verus! {

/// A client's command as the Paxos servers carry it: a read of `key` when `value` is
/// empty, a write of `value` to `key` otherwise; the reply goes to `worker_addr`.
#[derive(Debug)]
pub struct ClientRequest {
    pub key: String,
    pub value: String,
    pub sn: u32,
    pub worker_addr: String,
}

/// The answer to one client request.
#[derive(Debug)]
pub struct ClientResponse {
    pub result: String,
    pub sn: u32,
}

impl Clone for ClientRequest {
    fn clone(&self) -> (r: Self)
        ensures
            r == *self,
    {
        ClientRequest {
            key: self.key.clone(),
            value: self.value.clone(),
            sn: self.sn,
            worker_addr: self.worker_addr.clone(),
        }
    }
}

/// A proposal of slot `slot_num` from the leader.
#[derive(Debug)]
pub struct P2a {
    pub slot_num: u32,
}

/// An acceptance of slot `slot_num` by server `server_id`.
#[derive(Debug)]
pub struct P2b {
    pub slot_num: u32,
    pub server_id: u32,
}

} // verus!
