use mencius::paxos::request::{ClientRequest, ClientResponse, P2a, P2b};
use mencius::paxos::service::{address_map, PaxosService};

fn req(key: &str, value: &str, sn: u32) -> ClientRequest {
    ClientRequest { key: key.to_string(), value: value.to_string(), sn, worker_addr: String::from("w:1") }
}

fn results(replies: &Vec<(String, ClientResponse)>) -> Vec<(u32, String)> {
    replies.iter().map(|(_, r)| (r.sn, r.result.clone())).collect()
}

fn leader() -> PaxosService {
    let followers = vec![String::from("f1:1"), String::from("f2:1")];
    let map = address_map(String::from("l:1"), &followers);
    PaxosService::new(0, followers, map)
}

#[test]
fn hello_greets_by_name() {
    let s = leader();
    assert_eq!(s.say_hello(String::from("Tonic")), "Hello, Tonic!");
    assert_eq!(s.say_hello(String::new()), "Hello, !");
}

#[test]
fn leader_numbers_requests_consecutively() {
    let mut s = leader();
    let (slot, targets) = s.handle_client_request(req("a", "1", 1));
    assert_eq!(slot, 0);
    assert_eq!(targets, vec![String::from("f1:1"), String::from("f2:1")]);
    let (slot, _) = s.handle_client_request(req("a", "2", 2));
    assert_eq!(slot, 1);
}

#[test]
fn followers_answer_the_leader() {
    let followers = vec![String::from("f1:1")];
    let map = address_map(String::from("l:1"), &followers);
    let f = PaxosService::new(1, Vec::new(), map);
    let (target, p2b) = f.handle_p2a(P2a { slot_num: 9 });
    assert_eq!(target, "l:1");
    assert_eq!(p2b.slot_num, 9);
    assert_eq!(p2b.server_id, 1);
}

#[test]
fn slots_run_in_order_once_accepted_twice() {
    let mut s = leader();
    s.handle_client_request(req("a", "1", 1));
    s.handle_client_request(req("a", "", 2));
    s.handle_client_request(req("b", "", 3));
    // slot 1 accepted first: nothing runs, slot 0 is still waiting
    let decided = s.handle_p2b(P2b { slot_num: 1, server_id: 1 });
    assert!(decided.is_empty());
    let decided = s.handle_p2b(P2b { slot_num: 0, server_id: 2 });
    assert_eq!(decided.iter().map(|r| r.sn).collect::<Vec<_>>(), vec![1, 2]);
    assert!(s.requests_reads_defined(&decided));
    let replies = s.execute_requests(decided);
    assert_eq!(results(&replies), vec![(1, String::from("Put ok")), (2, String::from("1"))]);
    assert_eq!(replies[1].0, "w:1");
    let decided = s.handle_p2b(P2b { slot_num: 2, server_id: 1 });
    assert_eq!(decided.len(), 1);
    assert!(!s.requests_reads_defined(&decided));
}

#[test]
fn address_map_holds_leader_then_followers() {
    let followers = vec![String::from("f1:1"), String::from("f2:1")];
    let map = address_map(String::from("l:1"), &followers);
    assert_eq!(map.len(), 3);
    assert_eq!(*map.get(&0).unwrap(), "l:1");
    assert_eq!(*map.get(&2).unwrap(), "f2:1");
}

#[test]
fn repeated_acceptance_decides_nothing_more() {
    let mut s = leader();
    s.handle_client_request(req("a", "1", 1));
    let first = s.handle_p2b(P2b { slot_num: 0, server_id: 1 });
    assert_eq!(first.len(), 1);
    let again = s.handle_p2b(P2b { slot_num: 0, server_id: 1 });
    assert!(again.is_empty());
}

#[test]
fn paxos_whole_acceptance_step_runs_or_refuses() {
    let mut s = leader();
    s.handle_client_request(req("a", "1", 1));
    s.handle_client_request(req("a", "", 2));
    s.handle_client_request(req("nope", "", 3));
    s.handle_p2b(P2b { slot_num: 1, server_id: 1 });
    let replies = s.handle_p2b_and_execute(P2b { slot_num: 0, server_id: 1 }).unwrap();
    assert_eq!(results(&replies), vec![(1, String::from("Put ok")), (2, String::from("1"))]);
    assert!(s.handle_p2b_and_execute(P2b { slot_num: 2, server_id: 1 }).is_none());
}
