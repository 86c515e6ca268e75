//! One Paxos server: a leader (id 0) numbers the clients' requests into consecutive
//! slots and asks its followers to accept each; a slot is executed, in slot order,
//! once more than one server accepted it.
use vstd::prelude::*;
use vstd::string::StringExecFns;
use dashmap::{DashMap, DashSet};
use crate::kv::Table;
use crate::store::{
    table_contents, table_new, votes_contents, votes_new, votes_contains, votes_insert, votes_record, votes_count,
    voter_set_new, voter_set_insert, voter_set_contents, address_contents, address_new,
    address_insert, address_get,
};
use crate::paxos::request::{ClientRequest, ClientResponse, P2a, P2b};
use crate::paxos::log::{log_contents, log_new, log_insert, log_get};
use crate::paxos::execute::{run_serial, serial_outcomes, reads_defined, is_reply_to, run_requests, check_reads};

verus! {

/// The address table shared by the servers: the leader's address under id 0, and the
/// `i`-th follower's under id `i + 1`.
pub fn address_map(server_addr: String, follower_addrs: &Vec<String>) -> (m: DashMap<u32, String>)
    requires
        follower_addrs.len() < u32::MAX,
    ensures
        forall|i: u32| #[trigger] address_contents(m).dom().contains(i) <==> i <= follower_addrs.len(),
        address_contents(m)[0] == server_addr@,
        forall|i: u32| i < follower_addrs.len() ==> #[trigger] address_contents(m)[(i + 1) as u32] == follower_addrs[i as int]@,
{
    let mut m = address_new();
    let ghost leader = server_addr@;
    address_insert(&mut m, 0, server_addr);
    let mut i: usize = 0;
    while i < follower_addrs.len()
        invariant
            i <= follower_addrs.len() < u32::MAX,
            forall|j: u32| #[trigger] address_contents(m).dom().contains(j) <==> j <= i,
            address_contents(m)[0] == leader,
            forall|j: u32| j < i ==> #[trigger] address_contents(m)[(j + 1) as u32] == follower_addrs[j as int]@,
        decreases follower_addrs.len() - i,
    {
        address_insert(&mut m, (i + 1) as u32, follower_addrs[i].clone());
        i = i + 1;
    }
    m
}

pub struct PaxosService {
    application: DashMap<String, String>,
    log: DashMap<u32, ClientRequest>,
    slot_votes: DashMap<u32, DashSet<u32>>,
    slot_in: u32,
    slot_out: u32,
    server_id: u32,
    follower_addrs: Vec<String>,
    server_addr_map: DashMap<u32, String>,
}

impl PaxosService {
    /// The application's table.
    pub closed spec fn app(&self) -> Table {
        table_contents(self.application)
    }

    /// The log: each slot mapped to its request.
    pub closed spec fn log(&self) -> Map<u32, ClientRequest> {
        log_contents(self.log)
    }

    /// The acceptances of each slot.
    pub closed spec fn votes(&self) -> Map<u32, Set<u32>> {
        votes_contents(self.slot_votes)
    }

    /// The next slot to propose in.
    pub closed spec fn slot_in(&self) -> int {
        self.slot_in as int
    }

    /// The first slot not yet executed.
    pub closed spec fn slot_out(&self) -> int {
        self.slot_out as int
    }

    pub closed spec fn server_id(&self) -> int {
        self.server_id as int
    }

    /// The followers this server proposes to.
    pub closed spec fn followers(&self) -> Seq<String> {
        self.follower_addrs@
    }

    /// The address table, by id.
    pub closed spec fn addr_map(&self) -> Map<u32, Seq<char>> {
        address_contents(self.server_addr_map)
    }

    /// The requests of the slots `start .. end`, in slot order.
    pub open spec fn log_range(&self, start: int, end: int) -> Seq<ClientRequest> {
        Seq::new(
            if start <= end {
                (end - start) as nat
            } else {
                0
            },
            |i: int| self.log()[(start + i) as u32],
        )
    }

    /// The server's invariant: every slot proposed so far is logged and has its
    /// acceptances; none is executed before it is proposed.
    pub closed spec fn wf(&self) -> bool {
        let log = log_contents(self.log);
        let votes = votes_contents(self.slot_votes);
        &&& self.slot_out <= self.slot_in
        &&& forall|s: u32| s < self.slot_in ==> #[trigger] log.dom().contains(s)
        &&& forall|s: u32| s < self.slot_in ==> #[trigger] votes.dom().contains(s)
        &&& forall|s: u32| #[trigger] votes.dom().contains(s) ==> votes[s].finite()
    }

    /// A server with nothing proposed, accepted or executed.
    pub fn new(server_id: u32, follower_addrs: Vec<String>, server_addr_map: DashMap<u32, String>) -> (s:
        Self)
        ensures
            s.wf(),
            s.app().is_empty(),
            s.log().is_empty(),
            s.votes().is_empty(),
            s.slot_in() == 0,
            s.slot_out() == 0,
            s.server_id() == server_id,
            s.followers() == follower_addrs@,
            s.addr_map() == address_contents(server_addr_map),
    {
        PaxosService {
            application: table_new(),
            log: log_new(),
            slot_votes: votes_new(),
            slot_in: 0,
            slot_out: 0,
            server_id,
            follower_addrs,
            server_addr_map,
        }
    }

    /// Greets `name`.
    pub fn say_hello(&self, name: String) -> (message: String)
        ensures
            message@ == "Hello, "@ + name@ + "!"@,
    {
        String::from_str("Hello, ").concat(name.as_str()).concat("!")
    }

    /// The next slot this server will propose in.
    pub fn next_proposal_slot(&self) -> (r: u32)
        ensures
            r == self.slot_in(),
    {
        self.slot_in
    }

    /// Whether this server counts acceptances for `slot`, that is, proposed in it.
    pub fn awaits_votes(&self, slot: u32) -> (r: bool)
        ensures
            r == self.votes().dom().contains(slot),
    {
        votes_contains(&self.slot_votes, slot)
    }

    /// Whether the address table holds the leader's address (id 0).
    pub fn knows_leader(&self) -> (r: bool)
        ensures
            r == self.addr_map().dom().contains(0),
    {
        address_get(&self.server_addr_map, 0).is_some()
    }

    /// A client's request arrives: it is logged in the next slot, which this server
    /// accepts at once, and the next slot moves on by one. Returns the slot and the
    /// followers' addresses, which are to be sent the proposal.
    pub fn handle_client_request(&mut self, request: ClientRequest) -> (r: (u32, Vec<String>))
        requires
            old(self).wf(),
            old(self).slot_in() < u32::MAX,
        ensures
            final(self).wf(),
            proposal_step(*old(self), *final(self), r.0, request),
            r.0 == old(self).slot_in(),
            final(self).slot_in() == old(self).slot_in() + 1,
            final(self).log() == old(self).log().insert(r.0, request),
            final(self).votes() == old(self).votes().insert(r.0, set![old(self).server_id() as u32]),
            r.1@ == old(self).followers(),
            final(self).app() == old(self).app(),
            final(self).slot_out() == old(self).slot_out(),
            final(self).server_id() == old(self).server_id(),
            final(self).followers() == old(self).followers(),
            final(self).addr_map() == old(self).addr_map(),
    {
        let s_in = self.slot_in;
        self.slot_in = self.slot_in + 1;
        log_insert(&mut self.log, s_in, request);
        let mut voters = voter_set_new();
        voter_set_insert(&mut voters, self.server_id);
        proof {
            assert(voter_set_contents(voters) =~= set![self.server_id]);
        }
        votes_insert(&mut self.slot_votes, s_in, voters);
        let targets = self.follower_addrs.clone();
        proof {
            assert(targets@ =~= self.follower_addrs@);
            assert forall|s: u32| #[trigger] votes_contents(self.slot_votes).dom().contains(s) implies votes_contents(self.slot_votes)[s].finite() by {
                if s != s_in {
                    assert(votes_contents(old(self).slot_votes).dom().contains(s));
                }
            }
        }
        (s_in, targets)
    }

    /// A proposal arrives: it is accepted. Returns the leader's address (id 0) and the
    /// acceptance to send it.
    pub fn handle_p2a(&self, p2a: P2a) -> (r: (String, P2b))
        requires
            self.addr_map().dom().contains(0),
        ensures
            r.0@ == self.addr_map()[0],
            r.1.slot_num == p2a.slot_num,
            r.1.server_id == self.server_id(),
    {
        let target = address_get(&self.server_addr_map, 0).unwrap();
        (target, P2b { slot_num: p2a.slot_num, server_id: self.server_id })
    }

    /// An acceptance arrives: it is recorded, and the first unexecuted slot moves past
    /// every slot accepted by more than one server, up to the first that is not (or to
    /// the next slot to propose). Returns the requests of the slots passed, in order.
    pub fn handle_p2b(&mut self, p2b: P2b) -> (decided: Vec<ClientRequest>)
        requires
            old(self).wf(),
            old(self).votes().dom().contains(p2b.slot_num),
        ensures
            final(self).wf(),
            acceptance_step(*old(self), *final(self), p2b),
            final(self).votes() == old(self).votes().insert(
                p2b.slot_num,
                old(self).votes()[p2b.slot_num].insert(p2b.server_id),
            ),
            old(self).slot_out() <= final(self).slot_out() <= final(self).slot_in(),
            forall|s: u32|
                old(self).slot_out() <= s < final(self).slot_out() ==> #[trigger] final(self).votes()[s].len() > 1,
            final(self).slot_out() < final(self).slot_in() ==> final(self).votes()[final(self).slot_out() as u32].len() <= 1,
            decided@ == final(self).log_range(old(self).slot_out(), final(self).slot_out()),
            final(self).app() == old(self).app(),
            final(self).log() == old(self).log(),
            final(self).slot_in() == old(self).slot_in(),
            final(self).server_id() == old(self).server_id(),
            final(self).followers() == old(self).followers(),
            final(self).addr_map() == old(self).addr_map(),
    {
        votes_record(&mut self.slot_votes, p2b.slot_num, p2b.server_id);
        let ghost votes1 = votes_contents(self.slot_votes);
        let old_slot_out = self.slot_out;
        let mut decided: Vec<ClientRequest> = Vec::new();
        proof {
            assert(decided@ =~= self.log_range(old_slot_out as int, self.slot_out as int));
        }
        while self.slot_out < self.slot_in && votes_count(&self.slot_votes, self.slot_out) > 1
            invariant
                self.wf(),
                old_slot_out <= self.slot_out <= self.slot_in,
                self.slot_in == old(self).slot_in,
                self.log == old(self).log,
                self.application == old(self).application,
                votes_contents(self.slot_votes) == votes1,
                self.server_id == old(self).server_id,
                self.follower_addrs == old(self).follower_addrs,
                self.server_addr_map == old(self).server_addr_map,
                forall|s: u32|
                    old_slot_out <= s < self.slot_out ==> #[trigger] votes_contents(self.slot_votes)[s].len() > 1,
                decided@ == self.log_range(old_slot_out as int, self.slot_out as int),
            decreases self.slot_in - self.slot_out,
        {
            let request = log_get(&self.log, self.slot_out).unwrap();
            decided.push(request);
            proof {
                assert(decided@ =~= self.log_range(old_slot_out as int, self.slot_out + 1));
            }
            self.slot_out = self.slot_out + 1;
        }
        decided
    }

    /// Runs the requests on the application, one after another. Returns, for each
    /// request in order, its worker's address and its answer.
    pub fn execute_requests(&mut self, requests: Vec<ClientRequest>) -> (replies: Vec<
        (String, ClientResponse),
    >)
        requires
            reads_defined(old(self).app(), requests@),
        ensures
            final(self).app() == run_serial(old(self).app(), requests@),
            replies.len() == requests.len(),
            forall|i: int|
                0 <= i < replies.len() ==> is_reply_to(
                    #[trigger] replies[i],
                    requests[i],
                    serial_outcomes(old(self).app(), requests@)[i].1,
                ),
            forall|i: int|
                0 <= i < replies.len() ==> (#[trigger] replies[i]).0@ == requests[i].worker_addr@
                    && replies[i].1.sn == requests[i].sn,
            old(self).wf() ==> final(self).wf(),
            final(self).log() == old(self).log(),
            final(self).votes() == old(self).votes(),
            final(self).slot_in() == old(self).slot_in(),
            final(self).slot_out() == old(self).slot_out(),
            final(self).server_id() == old(self).server_id(),
            final(self).followers() == old(self).followers(),
            final(self).addr_map() == old(self).addr_map(),
    {
        run_requests(&mut self.application, &requests)
    }

    /// The whole of an acceptance: it is recorded, the first unexecuted slot moves past
    /// the slots accepted by more than one server (as `handle_p2b` does), and their
    /// requests run on the application in slot order. When some read of them would not
    /// find its key, nothing runs and the result is `None`; otherwise it is the replies,
    /// for each request in slot order, its worker's address and its answer.
    pub fn handle_p2b_and_execute(&mut self, p2b: P2b) -> (r: Option<Vec<(String, ClientResponse)>>)
        requires
            old(self).wf(),
            old(self).votes().dom().contains(p2b.slot_num),
        ensures
            final(self).wf(),
            final(self).votes() == old(self).votes().insert(
                p2b.slot_num,
                old(self).votes()[p2b.slot_num].insert(p2b.server_id),
            ),
            old(self).slot_out() <= final(self).slot_out() <= final(self).slot_in(),
            forall|s: u32|
                old(self).slot_out() <= s < final(self).slot_out() ==> #[trigger] final(self).votes()[s].len() > 1,
            final(self).slot_out() < final(self).slot_in() ==> final(self).votes()[final(self).slot_out() as u32].len() <= 1,
            r is Some <==> reads_defined(
                old(self).app(),
                final(self).log_range(old(self).slot_out(), final(self).slot_out()),
            ),
            r is Some ==> final(self).app() == run_serial(
                old(self).app(),
                final(self).log_range(old(self).slot_out(), final(self).slot_out()),
            ),
            r is Some ==> r->0.len() == final(self).slot_out() - old(self).slot_out(),
            r is Some ==> forall|i: int|
                0 <= i < r->0.len() ==> is_reply_to(
                    #[trigger] r->0[i],
                    final(self).log_range(old(self).slot_out(), final(self).slot_out())[i],
                    serial_outcomes(
                        old(self).app(),
                        final(self).log_range(old(self).slot_out(), final(self).slot_out()),
                    )[i].1,
                ),
            r is Some ==> forall|i: int|
                0 <= i < r->0.len() ==> (#[trigger] r->0[i]).0@ == final(self).log_range(
                    old(self).slot_out(),
                    final(self).slot_out(),
                )[i].worker_addr@,
            r is None ==> final(self).app() == old(self).app(),
            final(self).log() == old(self).log(),
            final(self).slot_in() == old(self).slot_in(),
            final(self).server_id() == old(self).server_id(),
            final(self).followers() == old(self).followers(),
            final(self).addr_map() == old(self).addr_map(),
    {
        let decided = self.handle_p2b(p2b);
        if self.requests_reads_defined(&decided) {
            let replies = self.execute_requests(decided);
            Some(replies)
        } else {
            None
        }
    }

    /// Whether every read of the requests, run one after another, finds its key.
    pub fn requests_reads_defined(&self, requests: &Vec<ClientRequest>) -> (r: bool)
        ensures
            r == reads_defined(self.app(), requests@),
    {
        check_reads(&self.application, requests)
    }
}


/// Every slot below the next proposal slot holds a request in the log and has its
/// acceptances counted, and execution never runs ahead of proposals.
pub proof fn lemma_proposed_slots_logged(s: &PaxosService, slot: u32)
    requires
        s.wf(),
        slot < s.slot_in(),
    ensures
        s.log().dom().contains(slot),
        s.votes().dom().contains(slot),
        s.slot_out() <= s.slot_in(),
{
}


/// What one `handle_client_request` does to a server: `request` is logged in `slot`,
/// which was the next proposal slot and is accepted by the server itself, and the next
/// proposal slot moves on by one.
pub open spec fn proposal_step(pre: PaxosService, post: PaxosService, slot: u32, request: ClientRequest) -> bool {
    &&& slot == pre.slot_in()
    &&& post.slot_in() == pre.slot_in() + 1
    &&& post.log() == pre.log().insert(slot, request)
    &&& post.votes() == pre.votes().insert(slot, set![pre.server_id() as u32])
    &&& post.server_id() == pre.server_id()
    &&& post.slot_out() == pre.slot_out()
    &&& post.app() == pre.app()
}

/// What one `handle_p2b` does to a server: the vote is recorded, and the first
/// unexecuted slot moves past the slots accepted by more than one server up to the
/// first that is not.
pub open spec fn acceptance_step(pre: PaxosService, post: PaxosService, p2b: P2b) -> bool {
    &&& post.votes() == pre.votes().insert(p2b.slot_num, pre.votes()[p2b.slot_num].insert(p2b.server_id))
    &&& pre.slot_out() <= post.slot_out() <= post.slot_in()
    &&& forall|s: int| pre.slot_out() <= s < post.slot_out() ==> #[trigger] post.votes()[s as u32].len() > 1
    &&& post.slot_out() < post.slot_in() ==> post.votes()[post.slot_out() as u32].len() <= 1
    &&& post.log() == pre.log()
    &&& post.app() == pre.app()
    &&& post.slot_in() == pre.slot_in()
    &&& post.server_id() == pre.server_id()
}

/// The ranges of a server's numbers: its id and its slots are `u32` values, and it never
/// executes past its next proposal slot.
pub proof fn lemma_state_ranges(s: &PaxosService)
    requires
        s.wf(),
    ensures
        0 <= s.server_id() <= u32::MAX,
        0 <= s.slot_out() <= s.slot_in() <= u32::MAX,
{
}

/// Successive proposals of one server take the consecutive slots `s, s + 1, ...` from
/// its next proposal slot `s` on: each request stays logged in its own slot and the
/// next proposal slot ends the number of proposals further on.
pub proof fn lemma_successive_proposals(states: Seq<PaxosService>, slots: Seq<u32>, requests: Seq<ClientRequest>)
    requires
        states.len() == slots.len() + 1,
        requests.len() == slots.len(),
        forall|j: int|
            0 <= j < slots.len() ==> #[trigger] proposal_step(states[j], states[j + 1], slots[j], requests[j]),
    ensures
        forall|j: int| 0 <= j < slots.len() ==> #[trigger] slots[j] == states[0].slot_in() + j,
        states.last().slot_in() == states[0].slot_in() + slots.len(),
        forall|j: int|
            0 <= j < slots.len() ==> #[trigger] states.last().log().dom().contains(slots[j])
                && states.last().log()[slots[j]] == requests[j]
                && states.last().votes().dom().contains(slots[j])
                && states.last().votes()[slots[j]].contains(states[0].server_id() as u32),
        states.last().server_id() == states[0].server_id(),
    decreases slots.len(),
{
    let k = slots.len() as int;
    if k > 0 {
        let st = states.drop_last();
        let sl = slots.drop_last();
        let rq = requests.drop_last();
        assert forall|j: int| 0 <= j < sl.len() implies #[trigger] proposal_step(st[j], st[j + 1], sl[j], rq[j]) by {
            assert(proposal_step(states[j], states[j + 1], slots[j], requests[j]));
        }
        lemma_successive_proposals(st, sl, rq);
        assert(st[0] == states[0]);
        assert(st.last() == states[k - 1]);
        assert forall|j: int| 0 <= j < k - 1 implies #[trigger] slots[j] == states[0].slot_in() + j by {
            assert(sl[j] == slots[j]);
        }
        assert(proposal_step(states[k - 1], states[k], slots[k - 1], requests[k - 1]));
        assert(states.last() == states[k]);
        assert forall|j: int| 0 <= j < slots.len() implies #[trigger] states.last().log().dom().contains(slots[j])
            && states.last().log()[slots[j]] == requests[j]
            && states.last().votes().dom().contains(slots[j])
            && states.last().votes()[slots[j]].contains(states[0].server_id() as u32) by {
            if j < k - 1 {
                assert(sl[j] == slots[j]);
                assert(st.last().log().dom().contains(sl[j]) && st.last().log()[sl[j]] == rq[j]);
                assert(st.last().votes().dom().contains(sl[j]) && st.last().votes()[sl[j]].contains(
                    st[0].server_id() as u32,
                ));
            } else {
                assert(set![states[k - 1].server_id() as u32].contains(states[k - 1].server_id() as u32));
            }
        }
    }
}

/// However the handlers are called one after another, the first unexecuted slot never
/// moves back, so the slot ranges that successive calls execute never overlap and follow
/// one another in slot order.
pub proof fn lemma_executed_ranges_follow_each_other(states: Seq<PaxosService>)
    requires
        forall|j: int| 0 <= j < states.len() - 1 ==> #[trigger] states[j].slot_out() <= states[j + 1].slot_out(),
    ensures
        forall|i: int, j: int|
            0 <= i <= j < states.len() ==> #[trigger] states[i].slot_out() <= #[trigger] states[j].slot_out(),
    decreases states.len(),
{
    if states.len() > 1 {
        let st = states.drop_last();
        assert forall|j: int| 0 <= j < st.len() - 1 implies #[trigger] st[j].slot_out() <= st[j + 1].slot_out() by {
            assert(states[j].slot_out() <= states[j + 1].slot_out());
        }
        lemma_executed_ranges_follow_each_other(st);
        let last = states.len() - 1;
        assert forall|i: int, j: int|
            0 <= i <= j < states.len() implies #[trigger] states[i].slot_out() <= #[trigger] states[j].slot_out() by {
            if j == last && i < last {
                assert(st[i].slot_out() <= st[last - 1].slot_out());
                assert(states[last - 1].slot_out() <= states[last].slot_out());
            } else if j < last {
                assert(st[i].slot_out() <= st[j].slot_out());
            }
        }
    }
}

/// Delivering the same acceptance again right away changes nothing: the votes stay,
/// the first unexecuted slot stays, and no request is decided.
pub proof fn lemma_p2b_redelivery(pre: PaxosService, mid: PaxosService, post: PaxosService, p2b: P2b)
    requires
        mid.wf(),
        pre.votes().dom().contains(p2b.slot_num),
        acceptance_step(pre, mid, p2b),
        acceptance_step(mid, post, p2b),
    ensures
        post.votes() == mid.votes(),
        post.slot_out() == mid.slot_out(),
        post.log_range(mid.slot_out(), post.slot_out()) == Seq::<ClientRequest>::empty(),
{
    assert(mid.votes()[p2b.slot_num].insert(p2b.server_id) =~= mid.votes()[p2b.slot_num]);
    assert(post.votes() =~= mid.votes());
    lemma_state_ranges(&mid);
    if post.slot_out() > mid.slot_out() {
        assert(post.votes()[mid.slot_out() as u32].len() > 1);
        assert(mid.slot_out() < mid.slot_in());
    }
    assert(post.log_range(mid.slot_out(), post.slot_out()) =~= Seq::<ClientRequest>::empty());
}

} // verus!
