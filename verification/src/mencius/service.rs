//! One Mencius server: the state it keeps and how each message changes it.
//!
//! The slots are shared out round-robin: of `n` servers, server `i` coordinates the
//! slots `s` with `s % n == i`. A server proposes a client's request in its next own
//! slot and asks the others to accept it; a slot it coordinates is chosen once a
//! majority accepted it, a slot another server coordinates once its request arrived.
//! Chosen slots are executed in order, cut into a trace whose cuts may each run in
//! parallel.
use vstd::prelude::*;
use dashmap::{DashMap, DashSet};
use crate::kv::Table;
use vstd::arithmetic::div_mod::{lemma_fundamental_div_mod, lemma_small_mod, lemma_mod_decreases, lemma_mod_add_multiples_vanish};
use crate::store::{
    table_contents, table_new, votes_contents, votes_new, votes_contains, votes_insert, votes_record, votes_count,
    voter_set_new, voter_set_insert, voter_set_contents, address_contents, address_new,
    address_insert, address_get,
};
use crate::mencius::request::{ClientRequest, ClientResponse};
use crate::mencius::log::{log_contents, log_new, log_insert, log_get, log_contains};
use crate::mencius::trace::{
    build_trace, run_serial, serial_outcomes, reads_defined, cuts_have_distinct_keys,
    cut_keys_distinct, lemma_trace_matches_serial,
};
use crate::mencius::execute::{
    cuts_view, is_reply_to, place_request, flatten_trace, run_requests, check_reads,
};

verus! {

broadcast use vstd::seq_lib::group_seq_properties;

/// A proposal from the coordinator of `slot_num` (server `server_id`): `data` holds the
/// request, encoded.
#[derive(Debug)]
pub struct P2a {
    pub slot_num: u32,
    pub server_id: u32,
    pub data: Vec<u8>,
}

/// An acceptance by server `server_id` of the proposal for `slot_num`.
#[derive(Debug)]
pub struct P2b {
    pub slot_num: u32,
    pub server_id: u32,
    pub data: Vec<u8>,
}

/// The server that coordinates `slot` among `n` servers.
pub open spec fn coordinator(slot: int, n: int) -> int {
    slot % n
}

/// How many acceptances choose a slot among `n` servers: a strict majority.
pub open spec fn majority(n: int) -> int {
    n / 2 + 1
}

/// Whether `slot` can be executed by server `id` of `n`: a slot of its own once a
/// majority accepted it, another server's slot once its request is in the log.
pub open spec fn ready_to_execute(
    log: Map<u32, ClientRequest>,
    votes: Map<u32, Set<u32>>,
    n: int,
    id: int,
    slot: int,
) -> bool {
    if coordinator(slot, n) == id {
        votes.dom().contains(slot as u32) && votes[slot as u32].len() >= majority(n)
    } else {
        log.dom().contains(slot as u32)
    }
}

/// Two different slots with the same coordinator are at least `n` apart.
pub proof fn lemma_same_coordinator_apart(a: int, b: int, n: int)
    requires
        0 < n,
        0 <= a < b,
        coordinator(a, n) == coordinator(b, n),
    ensures
        a + n <= b,
{
    lemma_fundamental_div_mod(a, n);
    lemma_fundamental_div_mod(b, n);
    let qa = a / n;
    let qb = b / n;
    let r = a % n;
    assert(a + n <= b) by (nonlinear_arith)
        requires
            a == n * qa + r,
            b == n * qb + r,
            a < b,
            n > 0,
    ;
}

pub struct MenciusService {
    application: DashMap<String, String>,
    log: DashMap<u32, ClientRequest>,
    slot_votes: DashMap<u32, DashSet<u32>>,
    slot_in: u32,
    slot_out: u32,
    server_id: u32,
    server_addrs: Vec<String>,
    server_addr_map: DashMap<u32, String>,
}

impl MenciusService {
    /// The application's table.
    pub closed spec fn app(&self) -> Table {
        table_contents(self.application)
    }

    /// The log: each slot known to this server mapped to its request.
    pub closed spec fn log(&self) -> Map<u32, ClientRequest> {
        log_contents(self.log)
    }

    /// The acceptances of each slot this server coordinates.
    pub closed spec fn votes(&self) -> Map<u32, Set<u32>> {
        votes_contents(self.slot_votes)
    }

    /// The next slot this server will propose in.
    pub closed spec fn slot_in(&self) -> int {
        self.slot_in as int
    }

    /// The first slot not yet executed.
    pub closed spec fn slot_out(&self) -> int {
        self.slot_out as int
    }

    pub closed spec fn server_id(&self) -> int {
        self.server_id as int
    }

    /// The servers' addresses, by id.
    pub closed spec fn addrs(&self) -> Seq<String> {
        self.server_addrs@
    }

    /// How many servers there are.
    pub open spec fn n(&self) -> int {
        self.addrs().len() as int
    }

    /// The address table, by id.
    pub closed spec fn addr_map(&self) -> Map<u32, Seq<char>> {
        address_contents(self.server_addr_map)
    }

    /// The requests of the slots `start .. end`, in slot order.
    pub open spec fn log_range(&self, start: int, end: int) -> Seq<ClientRequest> {
        Seq::new(
            if start <= end {
                (end - start) as nat
            } else {
                0
            },
            |i: int| self.log()[(start + i) as u32],
        )
    }

    /// The server's invariant.
    pub closed spec fn wf(&self) -> bool {
        let n = self.server_addrs.len() as int;
        let id = self.server_id as int;
        let log = log_contents(self.log);
        let votes = votes_contents(self.slot_votes);
        let addr_map = address_contents(self.server_addr_map);
        &&& 0 < n <= u32::MAX
        &&& id < n
        &&& coordinator(self.slot_in as int, n) == id
        &&& self.slot_out <= self.slot_in
        &&& forall|i: u32| #[trigger] addr_map.dom().contains(i) <==> i < n
        &&& forall|i: u32| i < n ==> #[trigger] addr_map[i] == self.server_addrs@[i as int]@
        &&& forall|s: u32|
            s < self.slot_in && coordinator(s as int, n) == id ==> #[trigger] log.dom().contains(s)
        &&& forall|s: u32|
            s < self.slot_in && coordinator(s as int, n) == id ==> #[trigger] votes.dom().contains(s)
        &&& forall|s: u32| #[trigger]
            votes.dom().contains(s) ==> s < self.slot_in && coordinator(s as int, n) == id
                && votes[s].finite()
        &&& id <= self.slot_out
        &&& forall|s: u32| id <= s < self.slot_out ==> #[trigger] log.dom().contains(s)
    }

    /// A server of `server_addrs` (the one at index `server_id`) with nothing proposed,
    /// accepted or executed; its first own slot is `server_id`.
    pub fn new(server_id: u32, server_addrs: Vec<String>) -> (s: Self)
        requires
            server_id < server_addrs.len(),
            server_addrs.len() <= u32::MAX,
        ensures
            s.wf(),
            s.app().is_empty(),
            s.log().is_empty(),
            s.votes().is_empty(),
            s.slot_in() == server_id,
            s.slot_out() == server_id,
            s.server_id() == server_id,
            s.addrs() == server_addrs@,
            forall|i: u32| #[trigger] s.addr_map().dom().contains(i) <==> i < server_addrs.len(),
            forall|i: u32| i < server_addrs.len() ==> #[trigger] s.addr_map()[i] == server_addrs@[i as int]@,
    {
        let mut addr_map = address_new();
        let mut i: usize = 0;
        while i < server_addrs.len()
            invariant
                i <= server_addrs.len() <= u32::MAX,
                forall|j: u32| #[trigger] address_contents(addr_map).dom().contains(j) <==> j < i,
                forall|j: u32| j < i ==> #[trigger] address_contents(addr_map)[j] == server_addrs@[j as int]@,
            decreases server_addrs.len() - i,
        {
            address_insert(&mut addr_map, i as u32, server_addrs[i].clone());
            i = i + 1;
        }
        proof {
            lemma_small_mod(server_id as nat, server_addrs.len() as nat);
            assert forall|s: u32| s < server_id implies coordinator(s as int, server_addrs.len() as int) != server_id by {
                lemma_mod_decreases(s as nat, server_addrs.len() as nat);
            }
        }
        MenciusService {
            application: table_new(),
            log: log_new(),
            slot_votes: votes_new(),
            slot_in: server_id,
            slot_out: server_id,
            server_id,
            server_addrs,
            server_addr_map: addr_map,
        }
    }

    /// How many servers there are.
    pub fn server_count(&self) -> (r: usize)
        ensures
            r == self.n(),
    {
        self.server_addrs.len()
    }

    /// The next slot this server will propose in.
    pub fn next_proposal_slot(&self) -> (r: u32)
        ensures
            r == self.slot_in(),
    {
        self.slot_in
    }

    /// Whether this server counts acceptances for `slot`, that is, proposed in it.
    pub fn awaits_votes(&self, slot: u32) -> (r: bool)
        ensures
            r == self.votes().dom().contains(slot),
    {
        votes_contains(&self.slot_votes, slot)
    }

    /// A client's request arrives: it is logged in this server's next own slot, which
    /// this server accepts at once, and the slot moves on by `n`. Returns the slot and
    /// the addresses of the other servers, in id order, which are to be sent the
    /// proposal.
    pub fn handle_client_request(&mut self, request: ClientRequest) -> (r: (u32, Vec<String>))
        requires
            old(self).wf(),
            old(self).slot_in() + old(self).n() <= u32::MAX,
        ensures
            final(self).wf(),
            proposal_step(*old(self), *final(self), r.0, request),
            r.0 == old(self).slot_in(),
            coordinator(r.0 as int, old(self).n()) == old(self).server_id(),
            final(self).slot_in() == old(self).slot_in() + old(self).n(),
            final(self).log() == old(self).log().insert(r.0, request),
            final(self).votes() == old(self).votes().insert(r.0, set![old(self).server_id() as u32]),
            r.1@ == old(self).addrs().remove(old(self).server_id()),
            final(self).app() == old(self).app(),
            final(self).slot_out() == old(self).slot_out(),
            final(self).server_id() == old(self).server_id(),
            final(self).addrs() == old(self).addrs(),
            final(self).addr_map() == old(self).addr_map(),
    {
        let n = self.server_addrs.len() as u32;
        let s_in = self.slot_in;
        self.slot_in = self.slot_in + n;
        log_insert(&mut self.log, s_in, request);
        let mut voters = voter_set_new();
        voter_set_insert(&mut voters, self.server_id);
        proof {
            assert(voter_set_contents(voters) =~= set![self.server_id]);
        }
        votes_insert(&mut self.slot_votes, s_in, voters);
        let mut targets: Vec<String> = Vec::new();
        let mut i: usize = 0;
        while i < self.server_addrs.len()
            invariant
                i <= self.server_addrs.len() <= u32::MAX,
                self.server_id < self.server_addrs.len(),
                targets@ == if i <= self.server_id {
                    self.server_addrs@.take(i as int)
                } else {
                    self.server_addrs@.take(i as int).remove(self.server_id as int)
                },
            decreases self.server_addrs.len() - i,
        {
            if i as u32 != self.server_id {
                targets.push(self.server_addrs[i].clone());
            }
            proof {
                let a = self.server_addrs@;
                if i < self.server_id {
                    assert(a.take(i + 1) =~= a.take(i as int).push(a[i as int]));
                } else if i == self.server_id {
                    assert(a.take(i + 1).remove(i as int) =~= a.take(i as int));
                } else {
                    assert(a.take(i + 1).remove(self.server_id as int) =~= a.take(i as int).remove(
                        self.server_id as int,
                    ).push(a[i as int]));
                }
            }
            i = i + 1;
        }
        proof {
            let nn = self.server_addrs.len() as int;
            lemma_mod_add_multiples_vanish(s_in as int, nn);
            assert forall|s: u32| s < self.slot_in && coordinator(s as int, nn) == self.server_id implies s <= s_in by {
                if s > s_in {
                    lemma_same_coordinator_apart(s_in as int, s as int, nn);
                }
            }
            assert(self.server_addrs@.take(self.server_addrs.len() as int) =~= self.server_addrs@);
            assert forall|s: u32| #[trigger] self.votes().dom().contains(s) implies self.votes()[s].finite() by {
                if s != s_in {
                    assert(old(self).votes().dom().contains(s));
                }
            }
        }
        (s_in, targets)
    }

    /// A proposal arrives from the coordinator of its slot: its request (decoded from
    /// `p2a.data`) is logged in the slot. Returns the coordinator's address and the
    /// acceptance to send it, which carries the proposal's slot and data.
    pub fn handle_p2a(&mut self, p2a: P2a, request: ClientRequest) -> (r: (String, P2b))
        requires
            old(self).wf(),
            p2a.server_id < old(self).n(),
        ensures
            final(self).wf(),
            final(self).log() == old(self).log().insert(p2a.slot_num, request),
            r.0@ == old(self).addrs()[p2a.server_id as int]@,
            r.1.slot_num == p2a.slot_num,
            r.1.server_id == old(self).server_id(),
            r.1.data == p2a.data,
            final(self).app() == old(self).app(),
            final(self).votes() == old(self).votes(),
            final(self).slot_in() == old(self).slot_in(),
            final(self).slot_out() == old(self).slot_out(),
            final(self).server_id() == old(self).server_id(),
            final(self).addrs() == old(self).addrs(),
            final(self).addr_map() == old(self).addr_map(),
    {
        log_insert(&mut self.log, p2a.slot_num, request);
        let target = address_get(&self.server_addr_map, p2a.server_id).unwrap();
        let response = P2b { slot_num: p2a.slot_num, server_id: self.server_id, data: p2a.data };
        (target, response)
    }

    /// An acceptance of one of this server's slots arrives: it is recorded, and the
    /// first unexecuted slot moves past every slot that is ready, up to the first that
    /// is not (or to the next own slot). Returns the trace of the slots passed.
    pub fn handle_p2b(&mut self, p2b: P2b) -> (trace: Vec<Vec<ClientRequest>>)
        requires
            old(self).wf(),
            old(self).votes().dom().contains(p2b.slot_num),
        ensures
            final(self).wf(),
            acceptance_step(*old(self), *final(self), p2b),
            final(self).votes() == old(self).votes().insert(
                p2b.slot_num,
                old(self).votes()[p2b.slot_num].insert(p2b.server_id),
            ),
            old(self).slot_out() <= final(self).slot_out() <= final(self).slot_in(),
            forall|s: int|
                old(self).slot_out() <= s < final(self).slot_out() ==> #[trigger] ready_to_execute(
                    final(self).log(),
                    final(self).votes(),
                    final(self).n(),
                    final(self).server_id(),
                    s,
                ),
            final(self).slot_out() < final(self).slot_in() ==> !ready_to_execute(
                final(self).log(),
                final(self).votes(),
                final(self).n(),
                final(self).server_id(),
                final(self).slot_out(),
            ),
            forall|s: int|
                old(self).slot_out() <= s < final(self).slot_out() && coordinator(s, final(self).n())
                    == final(self).server_id() ==> final(self).votes().dom().contains(s as u32) && 2 * (
                #[trigger] final(self).votes()[s as u32]).len() > final(self).n(),
            cuts_view(trace@) == build_trace(
                final(self).log_range(old(self).slot_out(), final(self).slot_out()),
            ),
            final(self).app() == old(self).app(),
            final(self).log() == old(self).log(),
            final(self).slot_in() == old(self).slot_in(),
            final(self).server_id() == old(self).server_id(),
            final(self).addrs() == old(self).addrs(),
            final(self).addr_map() == old(self).addr_map(),
    {
        votes_record(&mut self.slot_votes, p2b.slot_num, p2b.server_id);
        let ghost pre = *self;
        let old_slot_out = self.slot_out;
        let n = self.server_addrs.len() as u32;
        let needed = self.server_addrs.len() / 2 + 1;
        while self.slot_out < self.slot_in
            invariant_except_break
                self.wf(),
                self.votes() == pre.votes(),
                self.log() == pre.log(),
                self.app() == pre.app(),
                self.slot_in == pre.slot_in,
                self.server_id == pre.server_id,
                self.server_addrs == pre.server_addrs,
                self.server_addr_map == pre.server_addr_map,
                n == self.server_addrs.len(),
                needed == majority(self.n()),
                old_slot_out <= self.slot_out <= self.slot_in,
                forall|s: int| old_slot_out <= s < self.slot_out ==> #[trigger] ready_to_execute(log_contents(pre.log), votes_contents(pre.slot_votes), pre.server_addrs.len() as int, pre.server_id as int, s),
            ensures
                self.wf(),
                self.votes() == pre.votes(),
                self.log() == pre.log(),
                self.app() == pre.app(),
                self.slot_in == pre.slot_in,
                self.server_id == pre.server_id,
                self.server_addrs == pre.server_addrs,
                self.server_addr_map == pre.server_addr_map,
                old_slot_out <= self.slot_out <= self.slot_in,
                forall|s: int| old_slot_out <= s < self.slot_out ==> #[trigger] ready_to_execute(log_contents(pre.log), votes_contents(pre.slot_votes), pre.server_addrs.len() as int, pre.server_id as int, s),
                self.slot_out < self.slot_in ==> !ready_to_execute(log_contents(pre.log), votes_contents(pre.slot_votes), pre.server_addrs.len() as int, pre.server_id as int, self.slot_out as int),
            decreases self.slot_in - self.slot_out,
        {
            let s = self.slot_out;
            if s % n == self.server_id {
                if votes_count(&self.slot_votes, s) < needed {
                    break;
                }
            } else {
                if !log_contains(&self.log, s) {
                    break;
                }
            }
            self.slot_out = s + 1;
        }
        let trace = self.get_trace(old_slot_out, self.slot_out);
        proof {
            assert forall|s: int|
                old_slot_out <= s < self.slot_out && coordinator(s, self.n()) == self.server_id() implies self.votes().dom().contains(s as u32)
                    && 2 * (#[trigger] self.votes()[s as u32]).len() > self.n() by {
                assert(ready_to_execute(self.log(), self.votes(), self.n(), self.server_id(), s));
                lemma_majority_is_strict(self.n());
            }
        }
        trace
    }

    /// The trace of the slots `start .. end`: each slot's request, in slot order, placed
    /// into the first cut that holds no request on its key.
    pub fn get_trace(&self, start_slot: u32, end_slot: u32) -> (trace: Vec<Vec<ClientRequest>>)
        requires
            forall|s: u32| start_slot <= s < end_slot ==> #[trigger] self.log().dom().contains(s),
        ensures
            cuts_view(trace@) == build_trace(self.log_range(start_slot as int, end_slot as int)),
    {
        let mut trace: Vec<Vec<ClientRequest>> = Vec::new();
        let mut slot = start_slot;
        proof {
            assert(self.log_range(start_slot as int, start_slot as int) =~= Seq::<ClientRequest>::empty());
            assert(cuts_view(trace@) =~= Seq::<Seq<ClientRequest>>::empty());
        }
        if start_slot >= end_slot {
            proof {
                assert(self.log_range(start_slot as int, end_slot as int) =~= Seq::<ClientRequest>::empty());
            }
            return trace;
        }
        while slot < end_slot
            invariant
                start_slot <= slot <= end_slot,
                forall|s: u32| start_slot <= s < end_slot ==> #[trigger] self.log().dom().contains(s),
                cuts_view(trace@) == build_trace(self.log_range(start_slot as int, slot as int)),
            decreases end_slot - slot,
        {
            let request = log_get(&self.log, slot).unwrap();
            proof {
                let rs = self.log_range(start_slot as int, slot + 1);
                assert(rs.drop_last() =~= self.log_range(start_slot as int, slot as int));
                assert(rs.last() == request);
            }
            place_request(&mut trace, request);
            slot = slot + 1;
        }
        trace
    }

    /// Runs a trace on the application, cut after cut. Returns, for each request in
    /// that order, its worker's address and its answer.
    pub fn execute_trace(&mut self, trace: Vec<Vec<ClientRequest>>) -> (replies: Vec<
        (String, ClientResponse),
    >)
        requires
            cuts_have_distinct_keys(cuts_view(trace@)),
            reads_defined(old(self).app(), cuts_view(trace@).flatten()),
        ensures
            final(self).app() == run_serial(old(self).app(), cuts_view(trace@).flatten()),
            replies.len() == cuts_view(trace@).flatten().len(),
            forall|i: int|
                0 <= i < replies.len() ==> is_reply_to(
                    #[trigger] replies[i],
                    cuts_view(trace@).flatten()[i],
                    serial_outcomes(old(self).app(), cuts_view(trace@).flatten())[i].1,
                ),
            forall|i: int|
                0 <= i < replies.len() ==> (#[trigger] replies[i]).0@ == cuts_view(trace@).flatten()[i].worker_addr@
                    && replies[i].1.sn == cuts_view(trace@).flatten()[i].sn,
            old(self).wf() ==> final(self).wf(),
            final(self).log() == old(self).log(),
            final(self).votes() == old(self).votes(),
            final(self).slot_in() == old(self).slot_in(),
            final(self).slot_out() == old(self).slot_out(),
            final(self).server_id() == old(self).server_id(),
            final(self).addrs() == old(self).addrs(),
            final(self).addr_map() == old(self).addr_map(),
    {
        let flat = flatten_trace(&trace);
        run_requests(&mut self.application, &flat)
    }

    /// Runs one cut of a trace on the application, its requests one after another.
    /// Returns, for each request in that order, its worker's address and its answer.
    pub fn execute_cut(&mut self, cut: Vec<ClientRequest>) -> (replies: Vec<(String, ClientResponse)>)
        requires
            cut_keys_distinct(cut@),
            reads_defined(old(self).app(), cut@),
        ensures
            final(self).app() == run_serial(old(self).app(), cut@),
            replies.len() == cut.len(),
            forall|i: int|
                0 <= i < replies.len() ==> is_reply_to(
                    #[trigger] replies[i],
                    cut[i],
                    serial_outcomes(old(self).app(), cut@)[i].1,
                ),
            forall|i: int|
                0 <= i < replies.len() ==> (#[trigger] replies[i]).0@ == cut[i].worker_addr@
                    && replies[i].1.sn == cut[i].sn,
            old(self).wf() ==> final(self).wf(),
            final(self).log() == old(self).log(),
            final(self).votes() == old(self).votes(),
            final(self).slot_in() == old(self).slot_in(),
            final(self).slot_out() == old(self).slot_out(),
            final(self).server_id() == old(self).server_id(),
            final(self).addrs() == old(self).addrs(),
            final(self).addr_map() == old(self).addr_map(),
    {
        run_requests(&mut self.application, &cut)
    }

    /// Whether every read of the cut, run in order on the application, finds its key.
    pub fn cut_reads_defined(&self, cut: &Vec<ClientRequest>) -> (r: bool)
        ensures
            r == reads_defined(self.app(), cut@),
    {
        check_reads(&self.application, cut)
    }

    /// The whole of an acceptance: it is recorded, the first unexecuted slot moves past
    /// the ready slots (as `handle_p2b` does), and the trace of the slots passed runs on the
    /// application, cut after cut. When some read of those slots, run in slot order, would
    /// not find its key, nothing runs and the result is `None`; otherwise it is the replies,
    /// for each request of the trace in order, its worker's address and its answer.
    pub fn handle_p2b_and_execute(&mut self, p2b: P2b) -> (r: Option<Vec<(String, ClientResponse)>>)
        requires
            old(self).wf(),
            old(self).votes().dom().contains(p2b.slot_num),
        ensures
            final(self).wf(),
            final(self).votes() == old(self).votes().insert(
                p2b.slot_num,
                old(self).votes()[p2b.slot_num].insert(p2b.server_id),
            ),
            old(self).slot_out() <= final(self).slot_out() <= final(self).slot_in(),
            forall|s: int|
                old(self).slot_out() <= s < final(self).slot_out() ==> #[trigger] ready_to_execute(
                    final(self).log(),
                    final(self).votes(),
                    final(self).n(),
                    final(self).server_id(),
                    s,
                ),
            final(self).slot_out() < final(self).slot_in() ==> !ready_to_execute(
                final(self).log(),
                final(self).votes(),
                final(self).n(),
                final(self).server_id(),
                final(self).slot_out(),
            ),
            forall|s: int|
                old(self).slot_out() <= s < final(self).slot_out() && coordinator(s, final(self).n())
                    == final(self).server_id() ==> final(self).votes().dom().contains(s as u32) && 2 * (
                #[trigger] final(self).votes()[s as u32]).len() > final(self).n(),
            r is Some <==> reads_defined(
                old(self).app(),
                final(self).log_range(old(self).slot_out(), final(self).slot_out()),
            ),
            r is Some ==> final(self).app() == run_serial(
                old(self).app(),
                final(self).log_range(old(self).slot_out(), final(self).slot_out()),
            ),
            r is Some ==> r->0.len() == build_trace(
                final(self).log_range(old(self).slot_out(), final(self).slot_out()),
            ).flatten().len(),
            r is Some ==> forall|i: int|
                0 <= i < r->0.len() ==> is_reply_to(
                    #[trigger] r->0[i],
                    build_trace(final(self).log_range(old(self).slot_out(), final(self).slot_out())).flatten()[i],
                    serial_outcomes(
                        old(self).app(),
                        build_trace(final(self).log_range(old(self).slot_out(), final(self).slot_out())).flatten(),
                    )[i].1,
                ),
            r is Some ==> forall|i: int|
                0 <= i < r->0.len() ==> (#[trigger] r->0[i]).0@ == build_trace(
                    final(self).log_range(old(self).slot_out(), final(self).slot_out()),
                ).flatten()[i].worker_addr@,
            r is None ==> final(self).app() == old(self).app(),
            final(self).log() == old(self).log(),
            final(self).slot_in() == old(self).slot_in(),
            final(self).server_id() == old(self).server_id(),
            final(self).addrs() == old(self).addrs(),
            final(self).addr_map() == old(self).addr_map(),
    {
        let ghost app0 = self.app();
        let ghost out0 = self.slot_out();
        let trace = self.handle_p2b(p2b);
        let ghost mid = *self;
        let ghost range = self.log_range(out0, self.slot_out());
        proof {
            lemma_trace_matches_serial(app0, range);
            crate::mencius::trace::lemma_trace_shape(range);
        }
        let r = if self.trace_reads_defined(&trace) {
            let replies = self.execute_trace(trace);
            Some(replies)
        } else {
            None
        };
        proof {
            assert forall|s: int| out0 <= s < self.slot_out() implies #[trigger] ready_to_execute(
                self.log(),
                self.votes(),
                self.n(),
                self.server_id(),
                s,
            ) by {
                assert(ready_to_execute(mid.log(), mid.votes(), mid.n(), mid.server_id(), s));
            }
            assert forall|s: int|
                out0 <= s < self.slot_out() && coordinator(s, self.n()) == self.server_id() implies self.votes().dom().contains(s as u32)
                    && 2 * (#[trigger] self.votes()[s as u32]).len() > self.n() by {
                assert(mid.votes()[s as u32] == self.votes()[s as u32]);
            }
        }
        r
    }

    /// Whether every read of the trace, run cut after cut, finds its key.
    pub fn trace_reads_defined(&self, trace: &Vec<Vec<ClientRequest>>) -> (r: bool)
        ensures
            r == reads_defined(self.app(), cuts_view(trace@).flatten()),
    {
        let flat = flatten_trace(trace);
        check_reads(&self.application, &flat)
    }
}


/// Servers of one group never propose in the same slot: a slot has one coordinator,
/// and a server proposes only in the slots it coordinates.
pub proof fn lemma_proposals_never_collide(slot1: int, id1: int, slot2: int, id2: int, n: int)
    requires
        0 < n,
        coordinator(slot1, n) == id1,
        coordinator(slot2, n) == id2,
        id1 != id2,
    ensures
        slot1 != slot2,
{
}

/// Every slot a server coordinates below its next proposal slot holds a request in its
/// log and has its acceptances counted; its next proposal slot is its own.
pub proof fn lemma_own_slots_proposed(s: &MenciusService, slot: u32)
    requires
        s.wf(),
        slot < s.slot_in(),
        coordinator(slot as int, s.n()) == s.server_id(),
    ensures
        s.log().dom().contains(slot),
        s.votes().dom().contains(slot),
        coordinator(s.slot_in(), s.n()) == s.server_id(),
{
}

/// Execution never runs ahead of proposals, and every slot a server executed holds a
/// request in its log.
pub proof fn lemma_executed_slots_logged(s: &MenciusService, slot: u32)
    requires
        s.wf(),
        s.server_id() <= slot < s.slot_out(),
    ensures
        s.log().dom().contains(slot),
        s.server_id() <= s.slot_out() <= s.slot_in(),
{
}


/// What one `handle_client_request` does to a server: `request` is logged in `slot`,
/// which was the next proposal slot and is accepted by the server itself, and the next
/// proposal slot moves on by the number of servers.
pub open spec fn proposal_step(pre: MenciusService, post: MenciusService, slot: u32, request: ClientRequest) -> bool {
    &&& slot == pre.slot_in()
    &&& post.slot_in() == pre.slot_in() + pre.n()
    &&& post.log() == pre.log().insert(slot, request)
    &&& post.votes() == pre.votes().insert(slot, set![pre.server_id() as u32])
    &&& post.addrs() == pre.addrs()
    &&& post.server_id() == pre.server_id()
    &&& post.slot_out() == pre.slot_out()
    &&& post.app() == pre.app()
}

/// What one `handle_p2b` does to a server: the vote is recorded, and the first
/// unexecuted slot moves past the ready slots up to the first one that is not.
pub open spec fn acceptance_step(pre: MenciusService, post: MenciusService, p2b: P2b) -> bool {
    &&& post.votes() == pre.votes().insert(p2b.slot_num, pre.votes()[p2b.slot_num].insert(p2b.server_id))
    &&& pre.slot_out() <= post.slot_out() <= post.slot_in()
    &&& forall|s: int|
        pre.slot_out() <= s < post.slot_out() ==> #[trigger] ready_to_execute(
            post.log(),
            post.votes(),
            post.n(),
            post.server_id(),
            s,
        )
    &&& post.slot_out() < post.slot_in() ==> !ready_to_execute(
        post.log(),
        post.votes(),
        post.n(),
        post.server_id(),
        post.slot_out(),
    )
    &&& post.log() == pre.log()
    &&& post.app() == pre.app()
    &&& post.slot_in() == pre.slot_in()
    &&& post.server_id() == pre.server_id()
    &&& post.addrs() == pre.addrs()
}

/// The ranges of a server's numbers: its id is below the number of servers, which fits
/// in a `u32`, and it executes from its id on, never past its next proposal slot, which
/// fits in a `u32`.
pub proof fn lemma_state_ranges(s: &MenciusService)
    requires
        s.wf(),
    ensures
        0 <= s.server_id() < s.n() <= u32::MAX,
        s.server_id() <= s.slot_out() <= s.slot_in() <= u32::MAX,
{
}

/// Successive proposals of one server take the slots `s, s + n, s + 2n, ...` from its
/// next proposal slot `s` on: each request stays logged in its own slot, no two share
/// one, and the next proposal slot ends `n` times the number of proposals further on.
pub proof fn lemma_successive_proposals(
    states: Seq<MenciusService>,
    slots: Seq<u32>,
    requests: Seq<ClientRequest>,
)
    requires
        states.len() == slots.len() + 1,
        requests.len() == slots.len(),
        states[0].wf(),
        forall|j: int|
            0 <= j < slots.len() ==> #[trigger] proposal_step(states[j], states[j + 1], slots[j], requests[j]),
    ensures
        forall|j: int|
            0 <= j < slots.len() ==> #[trigger] slots[j] == states[0].slot_in() + j * states[0].n(),
        states.last().slot_in() == states[0].slot_in() + slots.len() * states[0].n(),
        states.last().n() == states[0].n(),
        states.last().server_id() == states[0].server_id(),
        forall|i: int, j: int| 0 <= i < j < slots.len() ==> #[trigger] slots[i] < #[trigger] slots[j],
        forall|j: int|
            0 <= j < slots.len() ==> #[trigger] states.last().log().dom().contains(slots[j])
                && states.last().log()[slots[j]] == requests[j],
        forall|j: int|
            0 <= j < slots.len() ==> #[trigger] states.last().votes().dom().contains(slots[j])
                && states.last().votes()[slots[j]].contains(states[0].server_id() as u32),
    decreases slots.len(),
{
    let k = slots.len() as int;
    let n = states[0].n();
    let s0 = states[0].slot_in();
    if k > 0 {
        let st = states.drop_last();
        let sl = slots.drop_last();
        let rq = requests.drop_last();
        assert forall|j: int| 0 <= j < sl.len() implies #[trigger] proposal_step(st[j], st[j + 1], sl[j], rq[j]) by {
            assert(proposal_step(states[j], states[j + 1], slots[j], requests[j]));
        }
        lemma_successive_proposals(st, sl, rq);
        assert(st[0] == states[0]);
        assert forall|j: int| 0 <= j < k - 1 implies #[trigger] slots[j] == s0 + j * n && states[k - 1].log().dom().contains(slots[j])
            && states[k - 1].log()[slots[j]] == requests[j] by {
            assert(sl[j] == slots[j] && rq[j] == requests[j]);
            assert(sl[j] == st[0].slot_in() + j * st[0].n());
            assert(st.last().log().dom().contains(sl[j]));
            assert(st.last().votes().dom().contains(sl[j]));
        }
        let prev = states[k - 1];
        assert(st.last() == prev);
        assert(proposal_step(states[k - 1], states[k], slots[k - 1], requests[k - 1]));
        assert(states.last() == states[k]);
        assert(slots[k - 1] == s0 + (k - 1) * n);
        assert(s0 + (k - 1) * n + n == s0 + k * n) by (nonlinear_arith);
        assert(n > 0);
        assert forall|i: int, j: int| 0 <= i < j < slots.len() implies #[trigger] slots[i] < #[trigger] slots[j] by {
            if j < k - 1 {
                assert(sl[i] == slots[i] && sl[j] == slots[j]);
                assert(sl[i] < sl[j]);
            } else {
                assert(slots[i] == s0 + i * n);
                assert(s0 + i * n < s0 + (k - 1) * n) by (nonlinear_arith)
                    requires
                        i < k - 1,
                        n > 0,
                ;
            }
        }
        assert forall|j: int| 0 <= j < slots.len() implies #[trigger] states.last().log().dom().contains(slots[j])
            && states.last().log()[slots[j]] == requests[j] by {
            if j < k - 1 {
                assert(slots[j] < slots[k - 1]);
            }
        }
        assert forall|j: int| 0 <= j < slots.len() implies #[trigger] states.last().votes().dom().contains(slots[j])
            && states.last().votes()[slots[j]].contains(states[0].server_id() as u32) by {
            if j < k - 1 {
                assert(sl[j] == slots[j]);
                assert(st.last().votes().dom().contains(sl[j]) && st.last().votes()[sl[j]].contains(
                    st[0].server_id() as u32,
                ));
                assert(slots[j] < slots[k - 1]);
            } else {
                assert(set![states[k - 1].server_id() as u32].contains(states[k - 1].server_id() as u32));
            }
        }
    }
}

/// However the handlers are called one after another, the first unexecuted slot never
/// moves back, so the slot ranges that successive calls execute never overlap and follow
/// one another in slot order.
pub proof fn lemma_executed_ranges_follow_each_other(states: Seq<MenciusService>)
    requires
        forall|j: int| 0 <= j < states.len() - 1 ==> #[trigger] states[j].slot_out() <= states[j + 1].slot_out(),
    ensures
        forall|i: int, j: int|
            0 <= i <= j < states.len() ==> #[trigger] states[i].slot_out() <= #[trigger] states[j].slot_out(),
    decreases states.len(),
{
    if states.len() > 1 {
        let st = states.drop_last();
        assert forall|j: int| 0 <= j < st.len() - 1 implies #[trigger] st[j].slot_out() <= st[j + 1].slot_out() by {
            assert(states[j].slot_out() <= states[j + 1].slot_out());
        }
        lemma_executed_ranges_follow_each_other(st);
        let last = states.len() - 1;
        assert forall|i: int, j: int|
            0 <= i <= j < states.len() implies #[trigger] states[i].slot_out() <= #[trigger] states[j].slot_out() by {
            if j == last && i < last {
                assert(st[i].slot_out() <= st[last - 1].slot_out());
                assert(states[last - 1].slot_out() <= states[last].slot_out());
            } else if j < last {
                assert(st[i].slot_out() <= st[j].slot_out());
            }
        }
    }
}

/// Delivering the same proposal a second time leaves the log as the first delivery did.
pub proof fn lemma_p2a_redelivery(
    pre: MenciusService,
    mid: MenciusService,
    post: MenciusService,
    slot: u32,
    request: ClientRequest,
)
    requires
        mid.log() == pre.log().insert(slot, request),
        post.log() == mid.log().insert(slot, request),
    ensures
        post.log() == mid.log(),
{
    assert(post.log() =~= mid.log());
}

/// Delivering the same acceptance again right away changes nothing: the votes stay,
/// the first unexecuted slot stays, and the trace of the slots passed is empty.
pub proof fn lemma_p2b_redelivery(pre: MenciusService, mid: MenciusService, post: MenciusService, p2b: P2b)
    requires
        pre.votes().dom().contains(p2b.slot_num),
        acceptance_step(pre, mid, p2b),
        acceptance_step(mid, post, p2b),
    ensures
        post.votes() == mid.votes(),
        post.slot_out() == mid.slot_out(),
        build_trace(post.log_range(mid.slot_out(), post.slot_out())) == Seq::<Seq<ClientRequest>>::empty(),
{
    assert(mid.votes()[p2b.slot_num].insert(p2b.server_id) =~= mid.votes()[p2b.slot_num]);
    assert(post.votes() =~= mid.votes());
    if post.slot_out() > mid.slot_out() {
        assert(ready_to_execute(post.log(), post.votes(), post.n(), post.server_id(), mid.slot_out()));
        assert(mid.slot_out() < mid.slot_in());
    }
    assert(post.log_range(mid.slot_out(), post.slot_out()) =~= Seq::<ClientRequest>::empty());
}


/// The number of acceptances that chooses a slot is a strict majority of the servers,
/// and no more than all of them: two sets of that many servers out of `n` share one.
pub proof fn lemma_majority_is_strict(n: int)
    requires
        n > 0,
    ensures
        2 * majority(n) > n,
        majority(n) <= n,
{
}

/// A slot that a server coordinates is executed only once more than half of the servers
/// accepted it: in any acceptance step, every own slot passed has a vote set larger than
/// half the number of servers.
pub proof fn lemma_passed_own_slots_have_majority(pre: MenciusService, post: MenciusService, p2b: P2b)
    requires
        acceptance_step(pre, post, p2b),
        post.n() > 0,
    ensures
        forall|s: int|
            pre.slot_out() <= s < post.slot_out() && coordinator(s, post.n()) == post.server_id()
                ==> #[trigger] post.votes().dom().contains(s as u32),
        forall|s: int|
            pre.slot_out() <= s < post.slot_out() && coordinator(s, post.n()) == post.server_id()
                ==> 2 * (#[trigger] post.votes()[s as u32]).len() > post.n(),
{
    lemma_majority_is_strict(post.n());
    assert forall|s: int|
        pre.slot_out() <= s < post.slot_out() && coordinator(s, post.n()) == post.server_id() implies #[trigger] post.votes().dom().contains(
        s as u32,
    ) by {
        assert(ready_to_execute(post.log(), post.votes(), post.n(), post.server_id(), s));
    }
    assert forall|s: int|
        pre.slot_out() <= s < post.slot_out() && coordinator(s, post.n()) == post.server_id() implies 2 * (
        #[trigger] post.votes()[s as u32]).len() > post.n() by {
        assert(ready_to_execute(post.log(), post.votes(), post.n(), post.server_id(), s));
    }
}

} // verus!
