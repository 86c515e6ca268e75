//! The workload client's choices: which key each message touches and which server
//! it goes to.
use vstd::prelude::*;
use rand::Rng;

verus! {

/// `rand::Rng::gen_range(0..bound)` on `rand::thread_rng()`: a number drawn uniformly
/// from `0 .. bound`. Which number comes out is left open.
#[verifier::external_body]
fn random_below(bound: u64) -> (r: u64)
    requires
        bound > 0,
    ensures
        r < bound,
{
    rand::thread_rng().gen_range(0..bound)
}

/// Picks, at random, the key of the next message among `0 .. num_keys` and the server
/// it is sent to among `0 .. num_servers`.
pub fn choose_key_and_server(num_keys: u32, num_servers: usize) -> (r: (u32, usize))
    requires
        num_keys > 0,
        num_servers > 0,
    ensures
        r.0 < num_keys,
        r.1 < num_servers,
{
    let key = random_below(num_keys as u64) as u32;
    let server = random_below(num_servers as u64) as usize;
    (key, server)
}

} // verus!
