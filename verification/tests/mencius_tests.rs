use mencius::mencius::request::{ClientRequest, ClientResponse};
use mencius::mencius::service::{MenciusService, P2a, P2b};
use std::cmp::Ordering;

fn addrs() -> Vec<String> {
    vec![String::from("10.0.0.1:50050"), String::from("10.0.0.2:50051"), String::from("10.0.0.3:50052")]
}

fn put(key: &str, value: &str, sn: u32) -> ClientRequest {
    ClientRequest {
        key: key.to_string(),
        value: value.to_string(),
        sn,
        worker_addr: String::from("10.0.0.9:60000"),
        time_sent: 1000 + sn as u64,
    }
}

fn get(key: &str, sn: u32) -> ClientRequest {
    put(key, "", sn)
}

fn keys(cut: &Vec<ClientRequest>) -> Vec<(String, u32)> {
    cut.iter().map(|r| (r.key.clone(), r.sn)).collect()
}

fn results(replies: &Vec<(String, ClientResponse)>) -> Vec<(u32, String)> {
    replies.iter().map(|(_, r)| (r.sn, r.result.clone())).collect()
}

#[test]
fn proposals_take_own_slots_and_skip_self() {
    let mut s = MenciusService::new(1, addrs());
    let (slot, targets) = s.handle_client_request(put("a", "1", 1));
    assert_eq!(slot, 1);
    assert_eq!(targets, vec![String::from("10.0.0.1:50050"), String::from("10.0.0.3:50052")]);
    let (slot, _) = s.handle_client_request(put("b", "2", 2));
    assert_eq!(slot, 4);
    let (slot, _) = s.handle_client_request(put("c", "3", 3));
    assert_eq!(slot, 7);
}

#[test]
fn servers_never_propose_in_the_same_slot() {
    let mut slots = Vec::new();
    for id in 0..3u32 {
        let mut s = MenciusService::new(id, addrs());
        for sn in 0..5u32 {
            let (slot, _) = s.handle_client_request(put("k", "v", sn));
            assert_eq!(slot % 3, id);
            slots.push(slot);
        }
    }
    let mut sorted = slots.clone();
    sorted.sort();
    sorted.dedup();
    assert_eq!(sorted.len(), slots.len());
}

#[test]
fn p2a_logs_and_answers_the_coordinator() {
    let mut s = MenciusService::new(2, addrs());
    let p2a = P2a { slot_num: 1, server_id: 1, data: vec![7, 8, 9] };
    let (target, p2b) = s.handle_p2a(p2a, put("x", "y", 4));
    assert_eq!(target, String::from("10.0.0.2:50051"));
    assert_eq!(p2b.slot_num, 1);
    assert_eq!(p2b.server_id, 2);
    assert_eq!(p2b.data, vec![7, 8, 9]);
    let trace = s.get_trace(1, 2);
    assert_eq!(trace.len(), 1);
    assert_eq!(keys(&trace[0]), vec![(String::from("x"), 4)]);
}

#[test]
fn majority_then_other_logged_slots_are_executed() {
    // server 0 of 3: its own slot 0, then slot 1 (server 1's) which it has heard of,
    // then slot 2 (server 2's) which it has not.
    let mut s = MenciusService::new(0, addrs());
    s.handle_client_request(put("a", "1", 1));
    s.handle_p2a(P2a { slot_num: 1, server_id: 1, data: vec![] }, put("b", "2", 2));
    let trace = s.handle_p2b(P2b { slot_num: 0, server_id: 1, data: vec![] });
    assert_eq!(trace.len(), 1);
    assert_eq!(keys(&trace[0]), vec![(String::from("a"), 1), (String::from("b"), 2)]);
    assert!(s.trace_reads_defined(&trace));
    let replies = s.execute_trace(trace);
    assert_eq!(results(&replies), vec![(1, String::from("Put ok")), (2, String::from("Put ok"))]);
    assert_eq!(replies[0].0, String::from("10.0.0.9:60000"));
    assert_eq!(replies[0].1.time_sent, 1001);
    // server 2's slot arrives: slots 2 and 3 stay blocked on it and on server 0's next slot
    s.handle_p2a(P2a { slot_num: 2, server_id: 2, data: vec![] }, get("a", 3));
    s.handle_client_request(put("c", "4", 4));
    let trace = s.handle_p2b(P2b { slot_num: 0, server_id: 2, data: vec![] });
    // slot 2 is now known, slot 3 (own) has only its own vote
    assert_eq!(trace.len(), 1);
    assert_eq!(keys(&trace[0]), vec![(String::from("a"), 3)]);
    let replies = s.execute_trace(trace);
    assert_eq!(results(&replies), vec![(3, String::from("1"))]);
    let trace = s.handle_p2b(P2b { slot_num: 3, server_id: 1, data: vec![] });
    assert_eq!(trace.len(), 1);
    assert_eq!(keys(&trace[0]), vec![(String::from("c"), 4)]);
}

#[test]
fn no_majority_no_execution() {
    // five servers: a majority is three
    let five: Vec<String> = (0..5).map(|i| format!("10.0.1.{}:1", i)).collect();
    let mut s = MenciusService::new(0, five);
    s.handle_client_request(put("a", "1", 1));
    let trace = s.handle_p2b(P2b { slot_num: 0, server_id: 1, data: vec![] });
    assert!(trace.is_empty());
    let trace = s.handle_p2b(P2b { slot_num: 0, server_id: 1, data: vec![] });
    assert!(trace.is_empty());
    let trace = s.handle_p2b(P2b { slot_num: 0, server_id: 3, data: vec![] });
    assert_eq!(trace.len(), 1);
}

#[test]
fn trace_puts_each_key_in_successive_cuts() {
    let mut s = MenciusService::new(0, vec![String::from("only")]);
    let reqs = vec![put("a", "1", 1), put("b", "2", 2), get("a", 3), put("b", "4", 5), put("a", "6", 6), put("c", "7", 7)];
    for r in reqs {
        s.handle_client_request(r);
    }
    let trace = s.get_trace(0, 6);
    assert_eq!(trace.len(), 3);
    assert_eq!(keys(&trace[0]), vec![(String::from("a"), 1), (String::from("b"), 2), (String::from("c"), 7)]);
    assert_eq!(keys(&trace[1]), vec![(String::from("a"), 3), (String::from("b"), 5)]);
    assert_eq!(keys(&trace[2]), vec![(String::from("a"), 6)]);
    assert!(s.get_trace(3, 3).is_empty());
    assert!(s.get_trace(4, 2).is_empty());
}

#[test]
fn trace_execution_matches_running_in_slot_order() {
    let mut s = MenciusService::new(0, vec![String::from("only")]);
    let reqs = vec![put("a", "1", 1), get("a", 2), put("a", "2", 3), put("b", "x", 4), get("a", 5), get("b", 6)];
    for r in reqs {
        s.handle_client_request(r);
    }
    let trace = s.handle_p2b(P2b { slot_num: 5, server_id: 0, data: vec![] });
    assert!(s.trace_reads_defined(&trace));
    let mut replies = results(&s.execute_trace(trace));
    replies.sort();
    assert_eq!(
        replies,
        vec![
            (1, String::from("Put ok")),
            (2, String::from("1")),
            (3, String::from("Put ok")),
            (4, String::from("Put ok")),
            (5, String::from("2")),
            (6, String::from("x")),
        ]
    );
}

#[test]
fn distinct_keys_in_a_cut_commute() {
    let mut s1 = MenciusService::new(0, vec![String::from("only")]);
    let mut s2 = MenciusService::new(0, vec![String::from("only")]);
    let r1 = s1.execute_trace(vec![vec![put("a", "1", 1), put("b", "2", 2)], vec![get("a", 3), get("b", 4)]]);
    let r2 = s2.execute_trace(vec![vec![put("b", "2", 2), put("a", "1", 1)], vec![get("b", 4), get("a", 3)]]);
    let mut a = results(&r1);
    let mut b = results(&r2);
    a.sort();
    b.sort();
    assert_eq!(a, b);
}

#[test]
fn read_of_a_missing_key_is_flagged() {
    let mut s = MenciusService::new(0, vec![String::from("only")]);
    s.handle_client_request(get("nothing", 1));
    let trace = s.handle_p2b(P2b { slot_num: 0, server_id: 0, data: vec![] });
    assert_eq!(trace.len(), 1);
    assert!(!s.trace_reads_defined(&trace));
    assert!(s.trace_reads_defined(&vec![vec![put("nothing", "v", 2)], vec![get("nothing", 1)]]));
    assert!(!s.trace_reads_defined(&vec![vec![get("nothing", 1), put("nothing", "v", 2)]]));
}

#[test]
fn requests_compare_by_sequence_number() {
    let a = put("a", "1", 5);
    let b = put("b", "2", 5);
    let c = get("a", 6);
    assert!(a == b);
    assert!(a != c);
    assert_eq!(a.partial_cmp(&c), Some(Ordering::Less));
    assert_eq!(c.partial_cmp(&a), Some(Ordering::Greater));
    assert_eq!(a.partial_cmp(&b), Some(Ordering::Equal));
    assert!(a < c);
    let d = c.clone();
    assert_eq!(d.key, c.key);
    assert_eq!(d.value, c.value);
    assert_eq!(d.time_sent, c.time_sent);
}

#[test]
fn repeated_acceptance_changes_nothing() {
    let mut s = MenciusService::new(0, addrs());
    s.handle_client_request(put("a", "1", 1));
    let first = s.handle_p2b(P2b { slot_num: 0, server_id: 1, data: vec![] });
    assert_eq!(first.len(), 1);
    let again = s.handle_p2b(P2b { slot_num: 0, server_id: 1, data: vec![] });
    assert!(again.is_empty());
}

#[test]
fn repeated_proposal_leaves_the_log_as_one_does() {
    let mut s = MenciusService::new(2, addrs());
    s.handle_p2a(P2a { slot_num: 1, server_id: 1, data: vec![] }, put("x", "y", 4));
    s.handle_p2a(P2a { slot_num: 1, server_id: 1, data: vec![] }, put("x", "y", 4));
    let trace = s.get_trace(1, 2);
    assert_eq!(trace.len(), 1);
    assert_eq!(keys(&trace[0]), vec![(String::from("x"), 4)]);
}

#[test]
fn cuts_run_one_at_a_time_like_the_whole_trace() {
    let mut s1 = MenciusService::new(0, vec![String::from("only")]);
    let mut s2 = MenciusService::new(0, vec![String::from("only")]);
    let reqs = vec![put("a", "1", 1), get("a", 2), put("b", "x", 3), get("b", 4)];
    for r in reqs.iter() {
        s1.handle_client_request(r.clone());
        s2.handle_client_request(r.clone());
    }
    let t1 = s1.handle_p2b(P2b { slot_num: 3, server_id: 0, data: vec![] });
    let t2 = s2.handle_p2b(P2b { slot_num: 3, server_id: 0, data: vec![] });
    let whole = results(&s1.execute_trace(t1));
    let mut by_cut = Vec::new();
    for cut in t2 {
        assert!(s2.cut_reads_defined(&cut));
        by_cut.extend(results(&s2.execute_cut(cut)));
    }
    assert_eq!(whole, by_cut);
    assert!(!s2.cut_reads_defined(&vec![get("zzz", 9)]));
}

#[test]
fn mencius_whole_acceptance_step_runs_or_refuses() {
    let mut s = MenciusService::new(0, vec![String::from("only")]);
    s.handle_client_request(put("a", "1", 1));
    s.handle_client_request(get("a", 2));
    let replies = s.handle_p2b_and_execute(P2b { slot_num: 1, server_id: 0, data: vec![] }).unwrap();
    let mut got = results(&replies);
    got.sort();
    assert_eq!(got, vec![(1, String::from("Put ok")), (2, String::from("1"))]);
    s.handle_client_request(get("missing", 3));
    assert!(s.handle_p2b_and_execute(P2b { slot_num: 2, server_id: 0, data: vec![] }).is_none());
}
