//! Running requests on the application's table, and building and flattening traces.
use vstd::prelude::*;
use dashmap::DashMap;
use crate::kv::{Table, is_read, execute_op};
use crate::store::{table_contents, table_contains};
use crate::mencius::request::{ClientRequest, ClientResponse};
use crate::mencius::trace::{
    run_serial, serial_outcomes, reads_defined, cut_has_key, first_free_from, place,
};

verus! {

broadcast use vstd::seq_lib::group_seq_properties;

/// The cuts of a trace, each seen as a sequence of requests.
pub open spec fn cuts_view(trace: Seq<Vec<ClientRequest>>) -> Seq<Seq<ClientRequest>> {
    trace.map_values(|c: Vec<ClientRequest>| c@)
}

/// Whether `reply` is what the worker of `r` is sent when `r` is answered `result`.
pub open spec fn is_reply_to(reply: (String, ClientResponse), r: ClientRequest, result: Seq<char>) -> bool {
    &&& reply.0@ == r.worker_addr@
    &&& reply.1.result@ == result
    &&& reply.1.sn == r.sn
    &&& reply.1.time_sent == r.time_sent
}

proof fn lemma_take_succ(rs: Seq<ClientRequest>, i: int)
    requires
        0 <= i < rs.len(),
    ensures
        rs.take(i + 1).drop_last() == rs.take(i),
        rs.take(i + 1).last() == rs[i],
{
    assert(rs.take(i + 1).drop_last() =~= rs.take(i));
}

/// Reads that are defined on a run are defined on each of its prefixes.
pub proof fn lemma_reads_defined_prefix(app: Table, rs: Seq<ClientRequest>, m: int)
    requires
        reads_defined(app, rs),
        0 <= m <= rs.len(),
    ensures
        reads_defined(app, rs.take(m)),
    decreases rs.len(),
{
    if m < rs.len() {
        let pre = rs.drop_last();
        assert(pre.take(m) =~= rs.take(m));
        lemma_reads_defined_prefix(app, pre, m);
    } else {
        assert(rs.take(m) =~= rs);
    }
}

/// A key is in the table after a run exactly when it was there before or some write
/// of the run stored it.
pub proof fn lemma_run_serial_contains(app: Table, rs: Seq<ClientRequest>, k: Seq<char>)
    ensures
        run_serial(app, rs).dom().contains(k) <==> (app.dom().contains(k) || exists|j: int|
            0 <= j < rs.len() && !is_read(#[trigger] rs[j].value@) && rs[j].key@ == k),
    decreases rs.len(),
{
    if rs.len() > 0 {
        let pre = rs.drop_last();
        lemma_run_serial_contains(app, pre, k);
        if exists|j: int| 0 <= j < pre.len() && !is_read(#[trigger] pre[j].value@) && pre[j].key@ == k {
            let j = choose|j: int| 0 <= j < pre.len() && !is_read(#[trigger] pre[j].value@) && pre[j].key@ == k;
            assert(rs[j] == pre[j]);
        }
        if exists|j: int| 0 <= j < rs.len() && !is_read(#[trigger] rs[j].value@) && rs[j].key@ == k {
            let j = choose|j: int| 0 <= j < rs.len() && !is_read(#[trigger] rs[j].value@) && rs[j].key@ == k;
            if j < pre.len() {
                assert(pre[j] == rs[j]);
            }
        }
    }
}

/// Runs the requests one after another on the table, answering each.
pub fn run_requests(table: &mut DashMap<String, String>, reqs: &Vec<ClientRequest>) -> (replies: Vec<
    (String, ClientResponse),
>)
    requires
        reads_defined(table_contents(*old(table)), reqs@),
    ensures
        table_contents(*final(table)) == run_serial(table_contents(*old(table)), reqs@),
        replies.len() == reqs.len(),
        forall|i: int|
            0 <= i < reqs.len() ==> is_reply_to(
                #[trigger] replies[i],
                reqs[i],
                serial_outcomes(table_contents(*old(table)), reqs@)[i].1,
            ),
        forall|i: int|
            0 <= i < reqs.len() ==> (#[trigger] replies[i]).0@ == reqs[i].worker_addr@ && replies[i].1.sn
                == reqs[i].sn && replies[i].1.time_sent == reqs[i].time_sent,
{
    let ghost app0 = table_contents(*table);
    let mut replies: Vec<(String, ClientResponse)> = Vec::new();
    let mut i: usize = 0;
    while i < reqs.len()
        invariant
            i <= reqs.len(),
            reads_defined(app0, reqs@),
            table_contents(*table) == run_serial(app0, reqs@.take(i as int)),
            serial_outcomes(app0, reqs@.take(i as int)).len() == i,
            replies.len() == i,
            forall|j: int|
                0 <= j < i ==> is_reply_to(
                    #[trigger] replies[j],
                    reqs[j],
                    serial_outcomes(app0, reqs@.take(i as int))[j].1,
                ),
        decreases reqs.len() - i,
    {
        let r = &reqs[i];
        proof {
            lemma_take_succ(reqs@, i as int);
            lemma_reads_defined_prefix(app0, reqs@, i + 1);
        }
        let result = execute_op(table, &r.key, &r.value);
        let response = ClientResponse { result, sn: r.sn, time_sent: r.time_sent };
        replies.push((r.worker_addr.clone(), response));
        i = i + 1;
    }
    proof {
        assert(reqs@.take(reqs.len() as int) =~= reqs@);
    }
    replies
}

/// Whether some string in `v` has the view of `s`.
fn contains_string(v: &Vec<String>, s: &String) -> (r: bool)
    ensures
        r == exists|j: int| 0 <= j < v.len() && #[trigger] v[j]@ == s@,
{
    let mut i: usize = 0;
    while i < v.len()
        invariant
            i <= v.len(),
            forall|j: int| 0 <= j < i ==> #[trigger] v[j]@ != s@,
        decreases v.len() - i,
    {
        if v[i] == *s {
            return true;
        }
        i = i + 1;
    }
    false
}

/// Whether some string of `v` has view `x`.
pub open spec fn has_string(v: Seq<String>, x: Seq<char>) -> bool {
    exists|j: int| 0 <= j < v.len() && #[trigger] v[j]@ == x
}

/// Whether one of the first `i` requests writes key `x`.
pub open spec fn written_before(rs: Seq<ClientRequest>, i: int, x: Seq<char>) -> bool {
    exists|j: int| 0 <= j < i && !is_read(#[trigger] rs[j].value@) && rs[j].key@ == x
}

/// Whether every read of the requests, run one after another on the table, finds its key.
pub fn check_reads(table: &DashMap<String, String>, reqs: &Vec<ClientRequest>) -> (r: bool)
    ensures
        r == reads_defined(table_contents(*table), reqs@),
{
    let ghost app = table_contents(*table);
    let mut written: Vec<String> = Vec::new();
    let mut i: usize = 0;
    while i < reqs.len()
        invariant
            i <= reqs.len(),
            app == table_contents(*table),
            reads_defined(app, reqs@.take(i as int)),
            forall|x: Seq<char>| #[trigger] has_string(written@, x) <==> written_before(reqs@, i as int, x),
        decreases reqs.len() - i,
    {
        let r = &reqs[i];
        proof {
            lemma_take_succ(reqs@, i as int);
            lemma_run_serial_contains(app, reqs@.take(i as int), r.key@);
            assert forall|j: int| 0 <= j < i implies reqs@.take(i as int)[j] == reqs[j] by {}
            assert(written_before(reqs@, i as int, r.key@) == (exists|j: int|
                0 <= j < i && !is_read(#[trigger] reqs@.take(i as int)[j].value@) && reqs@.take(
                    i as int,
                )[j].key@ == r.key@));
        }
        if r.value.as_str().is_empty() {
            let known = table_contains(table, &r.key) || contains_string(&written, &r.key);
            proof {
                assert(has_string(written@, r.key@) == written_before(reqs@, i as int, r.key@));
            }
            if !known {
                proof {
                    if reads_defined(app, reqs@) {
                        lemma_reads_defined_prefix(app, reqs@, i + 1);
                    }
                }
                return false;
            }
        } else {
            let ghost old_written = written@;
            written.push(r.key.clone());
            proof {
                assert forall|x: Seq<char>|
                    #[trigger] has_string(written@, x) <==> written_before(reqs@, i + 1, x) by {
                    if has_string(written@, x) {
                        let j = choose|j: int| 0 <= j < written.len() && #[trigger] written[j]@ == x;
                        if j < old_written.len() {
                            assert(old_written[j] == written[j]);
                            assert(has_string(old_written, x));
                        }
                    }
                    if written_before(reqs@, i as int, x) {
                        assert(has_string(old_written, x));
                        let j = choose|j: int| 0 <= j < old_written.len() && #[trigger] old_written[j]@ == x;
                        assert(written[j] == old_written[j]);
                    }
                    if x == r.key@ {
                        assert(written[old_written.len() as int]@ == x);
                    }
                    if written_before(reqs@, i + 1, x) && x != r.key@ {
                        let j = choose|j: int| 0 <= j < i + 1 && !is_read(#[trigger] reqs[j].value@) && reqs[j].key@ == x;
                        assert(written_before(reqs@, i as int, x));
                    }
                }
            }
        }
        i = i + 1;
    }
    proof {
        assert(reqs@.take(reqs.len() as int) =~= reqs@);
    }
    true
}

/// Whether some request in the cut is on `key`.
pub fn cut_contains_key(cut: &Vec<ClientRequest>, key: &String) -> (r: bool)
    ensures
        r == cut_has_key(cut@, key@),
{
    let mut i: usize = 0;
    while i < cut.len()
        invariant
            i <= cut.len(),
            forall|j: int| 0 <= j < i ==> #[trigger] cut@[j].key@ != key@,
        decreases cut.len() - i,
    {
        if cut[i].key == *key {
            return true;
        }
        i = i + 1;
    }
    false
}

/// Puts the request into the first cut of the trace that holds no request on its key,
/// or into a new cut at the end when every cut holds one.
pub fn place_request(trace: &mut Vec<Vec<ClientRequest>>, request: ClientRequest)
    ensures
        cuts_view(final(trace)@) == place(cuts_view(old(trace)@), request),
{
    let ghost t0 = cuts_view(trace@);
    let mut i: usize = 0;
    while i < trace.len() && cut_contains_key(&trace[i], &request.key)
        invariant
            i <= trace.len(),
            cuts_view(trace@) == t0,
            first_free_from(t0, request.key@, 0) == first_free_from(t0, request.key@, i as int),
        decreases trace.len() - i,
    {
        i = i + 1;
    }
    if i == trace.len() {
        let mut cut = Vec::new();
        cut.push(request);
        trace.push(cut);
        proof {
            assert(cuts_view(trace@) =~= t0.push(seq![request]));
        }
    } else {
        let mut cut = trace.remove(i);
        cut.push(request);
        trace.insert(i, cut);
        proof {
            assert(cuts_view(trace@) =~= t0.update(i as int, t0[i as int].push(request)));
        }
    }
}

/// The requests of a trace, cut after cut.
pub fn flatten_trace(trace: &Vec<Vec<ClientRequest>>) -> (flat: Vec<ClientRequest>)
    ensures
        flat@ == cuts_view(trace@).flatten(),
{
    let mut flat: Vec<ClientRequest> = Vec::new();
    let mut c: usize = 0;
    while c < trace.len()
        invariant
            c <= trace.len(),
            flat@ == cuts_view(trace@).take(c as int).flatten(),
        decreases trace.len() - c,
    {
        let cut = &trace[c];
        let ghost before = flat@;
        let mut j: usize = 0;
        while j < cut.len()
            invariant
                j <= cut.len(),
                flat@ == before + cut@.take(j as int),
            decreases cut.len() - j,
        {
            flat.push(cut[j].clone());
            proof {
                assert(before + cut@.take(j + 1) =~= (before + cut@.take(j as int)).push(cut@[j as int]));
            }
            j = j + 1;
        }
        proof {
            let cv = cuts_view(trace@);
            assert(cut@.take(j as int) =~= cut@);
            assert(cv.take(c + 1) =~= cv.take(c as int).push(cv[c as int]));
            cv.take(c as int).lemma_flatten_push(cv[c as int]);
        }
        c = c + 1;
    }
    proof {
        assert(cuts_view(trace@).take(trace.len() as int) =~= cuts_view(trace@));
    }
    flat
}


// ---------------------------------------------------------------------------
// What running requests in order does
// ---------------------------------------------------------------------------

/// A write stores its value under its key, whatever the key held before: after running
/// `rs` and then the write, the table maps the write's key to the write's value.
pub proof fn lemma_write_is_stored(app: Table, rs: Seq<ClientRequest>, w: ClientRequest)
    requires
        !is_read(w.value@),
    ensures
        run_serial(app, rs.push(w)).dom().contains(w.key@),
        run_serial(app, rs.push(w))[w.key@] == w.value@,
        forall|k: Seq<char>|
            k != w.key@ ==> #[trigger] run_serial(app, rs.push(w)).dom().contains(k) == run_serial(app, rs).dom().contains(k)
                && run_serial(app, rs.push(w))[k] == run_serial(app, rs)[k],
{
    assert(rs.push(w).drop_last() =~= rs);
}

/// A read leaves the table as it was and answers what the table holds for its key.
pub proof fn lemma_read_answers_table(app: Table, rs: Seq<ClientRequest>, r: ClientRequest)
    requires
        is_read(r.value@),
    ensures
        run_serial(app, rs.push(r)) == run_serial(app, rs),
        serial_outcomes(app, rs.push(r)).last().0 == r,
        run_serial(app, rs).dom().contains(r.key@) ==> serial_outcomes(app, rs.push(r)).last().1
            == run_serial(app, rs)[r.key@],
        reads_defined(app, rs.push(r)) == (reads_defined(app, rs) && run_serial(app, rs).dom().contains(r.key@)),
{
    assert(rs.push(r).drop_last() =~= rs);
}

/// A write is answered "Put ok".
pub proof fn lemma_write_answered_put_ok(app: Table, rs: Seq<ClientRequest>, w: ClientRequest)
    requires
        !is_read(w.value@),
    ensures
        serial_outcomes(app, rs.push(w)).last() == (w, "Put ok"@),
{
    assert(rs.push(w).drop_last() =~= rs);
}

/// A read right after a write to its key answers that write's value.
pub proof fn lemma_read_after_write_answers_it(
    app: Table,
    rs: Seq<ClientRequest>,
    w: ClientRequest,
    r: ClientRequest,
)
    requires
        !is_read(w.value@),
        is_read(r.value@),
        r.key@ == w.key@,
    ensures
        serial_outcomes(app, rs.push(w).push(r)).last().1 == w.value@,
        run_serial(app, rs.push(w).push(r)) == run_serial(app, rs.push(w)),
        reads_defined(app, rs.push(w)) ==> reads_defined(app, rs.push(w).push(r)),
{
    lemma_write_is_stored(app, rs, w);
    lemma_read_answers_table(app, rs.push(w), r);
}

/// The answers of a run, request by request: the `i`-th answer belongs to the `i`-th
/// request; a write answers "Put ok", and a read that finds its key answers what the
/// table held for it after the requests before it.
pub proof fn lemma_outcomes_by_position(app: Table, rs: Seq<ClientRequest>)
    ensures
        serial_outcomes(app, rs).len() == rs.len(),
        forall|i: int|
            0 <= i < rs.len() ==> (#[trigger] serial_outcomes(app, rs)[i]).0 == rs[i]
                && (!is_read(rs[i].value@) ==> serial_outcomes(app, rs)[i].1 == "Put ok"@)
                && (is_read(rs[i].value@) && run_serial(app, rs.take(i)).dom().contains(rs[i].key@)
                    ==> serial_outcomes(app, rs)[i].1 == run_serial(app, rs.take(i))[rs[i].key@]),
    decreases rs.len(),
{
    if rs.len() > 0 {
        let pre = rs.drop_last();
        lemma_outcomes_by_position(app, pre);
        assert forall|i: int|
            0 <= i < rs.len() implies (#[trigger] serial_outcomes(app, rs)[i]).0 == rs[i]
            && (!is_read(rs[i].value@) ==> serial_outcomes(app, rs)[i].1 == "Put ok"@)
            && (is_read(rs[i].value@) && run_serial(app, rs.take(i)).dom().contains(rs[i].key@)
                ==> serial_outcomes(app, rs)[i].1 == run_serial(app, rs.take(i))[rs[i].key@]) by {
            if i < pre.len() {
                assert(serial_outcomes(app, rs)[i] == serial_outcomes(app, pre)[i]);
                assert(pre[i] == rs[i]);
                assert(pre.take(i) =~= rs.take(i));
            } else {
                assert(rs.take(i) =~= pre);
            }
        }
    }
}

/// Whether the reads of a run are defined, said directly: every read finds its key in
/// the table it starts from or written by an earlier request of the run.
pub proof fn lemma_reads_defined_iff(app: Table, rs: Seq<ClientRequest>)
    ensures
        reads_defined(app, rs) <==> forall|i: int|
            0 <= i < rs.len() && is_read(#[trigger] rs[i].value@) ==> (app.dom().contains(rs[i].key@)
                || written_before(rs, i, rs[i].key@)),
    decreases rs.len(),
{
    if rs.len() > 0 {
        let pre = rs.drop_last();
        let x = rs.last();
        let m = pre.len() as int;
        lemma_reads_defined_iff(app, pre);
        lemma_run_serial_contains(app, pre, x.key@);
        assert(rs[m] == x);
        assert(written_before(rs, m, x.key@) == written_before(pre, m, x.key@)) by {
            if written_before(rs, m, x.key@) {
                let j = choose|j: int| 0 <= j < m && !is_read(#[trigger] rs[j].value@) && rs[j].key@ == x.key@;
                assert(pre[j] == rs[j]);
            }
            if written_before(pre, m, x.key@) {
                let j = choose|j: int| 0 <= j < m && !is_read(#[trigger] pre[j].value@) && pre[j].key@ == x.key@;
                assert(pre[j] == rs[j]);
            }
        }
        assert forall|i: int| 0 <= i < m implies #[trigger] written_before(rs, i, rs[i].key@) == written_before(
            pre,
            i,
            pre[i].key@,
        ) by {
            assert(pre[i] == rs[i]);
            if written_before(rs, i, rs[i].key@) {
                let j = choose|j: int| 0 <= j < i && !is_read(#[trigger] rs[j].value@) && rs[j].key@ == rs[i].key@;
                assert(pre[j] == rs[j]);
            }
            if written_before(pre, i, pre[i].key@) {
                let j = choose|j: int| 0 <= j < i && !is_read(#[trigger] pre[j].value@) && pre[j].key@ == pre[i].key@;
                assert(pre[j] == rs[j]);
            }
        }
        if reads_defined(app, rs) {
            assert forall|i: int|
                0 <= i < rs.len() && is_read(#[trigger] rs[i].value@) implies (app.dom().contains(rs[i].key@)
                || written_before(rs, i, rs[i].key@)) by {
                if i < m {
                    assert(pre[i] == rs[i]);
                    assert(is_read(pre[i].value@));
                    assert(written_before(rs, i, rs[i].key@) == written_before(pre, i, pre[i].key@));
                }
            }
        }
        if forall|i: int|
            0 <= i < rs.len() && is_read(#[trigger] rs[i].value@) ==> (app.dom().contains(rs[i].key@)
                || written_before(rs, i, rs[i].key@)) {
            assert forall|i: int|
                0 <= i < pre.len() && is_read(#[trigger] pre[i].value@) implies (app.dom().contains(pre[i].key@)
                || written_before(pre, i, pre[i].key@)) by {
                assert(pre[i] == rs[i]);
                assert(is_read(rs[i].value@));
                assert(written_before(rs, i, rs[i].key@) == written_before(pre, i, pre[i].key@));
            }
            if is_read(x.value@) {
                assert(is_read(rs[m].value@));
            }
        }
    }
}

/// A read whose key is already in the table is defined on its own.
pub proof fn lemma_read_of_stored_key_defined(app: Table, r: ClientRequest)
    requires
        is_read(r.value@),
        app.dom().contains(r.key@),
    ensures
        reads_defined(app, seq![r]),
{
    lemma_reads_defined_iff(app, seq![r]);
    assert(seq![r][0] == r);
}

} // verus!
