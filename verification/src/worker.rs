//! The workload worker, which receives the servers' replies.
use vstd::prelude::*;

verus! {

/// A worker that takes the replies to the client's requests; it keeps no state.
pub struct WorkloadWorker {}

} // verus!
