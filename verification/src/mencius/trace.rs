use vstd::prelude::*;
use vstd::multiset::Multiset;
use crate::kv::{Table, is_read, lookup, apply_op, value_result, op_result, value_step, lemma_lookup_apply};
use crate::mencius::request::ClientRequest;

verus! {

broadcast use vstd::seq_lib::group_seq_properties;

// ---------------------------------------------------------------------------
// Serial execution of requests on the table
// ---------------------------------------------------------------------------

/// The table after one request.
pub open spec fn apply_request(app: Table, r: ClientRequest) -> Table {
    apply_op(app, r.key@, r.value@)
}

/// The table after the requests, one after another, in order.
pub open spec fn run_serial(app: Table, rs: Seq<ClientRequest>) -> Table
    decreases rs.len(),
{
    if rs.len() == 0 {
        app
    } else {
        apply_request(run_serial(app, rs.drop_last()), rs.last())
    }
}

/// Each request paired with its answer, when the requests run one after another in order.
pub open spec fn serial_outcomes(app: Table, rs: Seq<ClientRequest>) -> Seq<(ClientRequest, Seq<char>)>
    decreases rs.len(),
{
    if rs.len() == 0 {
        Seq::empty()
    } else {
        let before = run_serial(app, rs.drop_last());
        serial_outcomes(app, rs.drop_last()).push(
            (rs.last(), op_result(before, rs.last().key@, rs.last().value@)),
        )
    }
}

/// Whether every read, run in order, finds its key in the table.
pub open spec fn reads_defined(app: Table, rs: Seq<ClientRequest>) -> bool
    decreases rs.len(),
{
    if rs.len() == 0 {
        true
    } else {
        &&& reads_defined(app, rs.drop_last())
        &&& (is_read(rs.last().value@) ==> run_serial(app, rs.drop_last()).dom().contains(
            rs.last().key@,
        ))
    }
}

// ---------------------------------------------------------------------------
// The same, seen from one key
// ---------------------------------------------------------------------------

pub open spec fn has_key(k: Seq<char>) -> spec_fn(ClientRequest) -> bool {
    |r: ClientRequest| r.key@ == k
}

pub open spec fn outcome_has_key(k: Seq<char>) -> spec_fn((ClientRequest, Seq<char>)) -> bool {
    |o: (ClientRequest, Seq<char>)| o.0.key@ == k
}

/// What one key holds after the requests (all on that key), from `held`.
pub open spec fn key_fold(held: Option<Seq<char>>, rs: Seq<ClientRequest>) -> Option<Seq<char>>
    decreases rs.len(),
{
    if rs.len() == 0 {
        held
    } else {
        value_step(key_fold(held, rs.drop_last()), rs.last().value@)
    }
}

/// The requests on one key paired with their answers, from `held`.
pub open spec fn key_outcomes(held: Option<Seq<char>>, rs: Seq<ClientRequest>) -> Seq<
    (ClientRequest, Seq<char>),
>
    decreases rs.len(),
{
    if rs.len() == 0 {
        Seq::empty()
    } else {
        key_outcomes(held, rs.drop_last()).push(
            (rs.last(), value_result(key_fold(held, rs.drop_last()), rs.last().value@)),
        )
    }
}

/// Whether every read among the requests on one key finds a value, from `held`.
pub open spec fn key_reads_defined(held: Option<Seq<char>>, rs: Seq<ClientRequest>) -> bool
    decreases rs.len(),
{
    if rs.len() == 0 {
        true
    } else {
        &&& key_reads_defined(held, rs.drop_last())
        &&& (is_read(rs.last().value@) ==> key_fold(held, rs.drop_last()) is Some)
    }
}

proof fn lemma_filter_push_key(rs: Seq<ClientRequest>, r: ClientRequest, k: Seq<char>)
    ensures
        rs.push(r).filter(has_key(k)) == if r.key@ == k {
            rs.filter(has_key(k)).push(r)
        } else {
            rs.filter(has_key(k))
        },
        rs.push(r).drop_last() == rs,
{
    rs.lemma_filter_push(r, has_key(k));
    assert(rs.push(r).drop_last() =~= rs);
}

/// What a key holds after running requests in order depends only on the requests on that key.
pub proof fn lemma_lookup_run_serial(app: Table, rs: Seq<ClientRequest>, k: Seq<char>)
    ensures
        lookup(run_serial(app, rs), k) == key_fold(lookup(app, k), rs.filter(has_key(k))),
    decreases rs.len(),
{
    if rs.len() == 0 {
        reveal(Seq::filter);
    } else {
        let pre = rs.drop_last();
        let r = rs.last();
        assert(rs == pre.push(r));
        lemma_lookup_run_serial(app, pre, k);
        lemma_filter_push_key(pre, r, k);
        lemma_lookup_apply(run_serial(app, pre), r.key@, r.value@, k);
        if r.key@ == k {
            assert(pre.filter(has_key(k)).push(r).drop_last() == pre.filter(has_key(k)));
        }
    }
}

proof fn lemma_outcome_filter_push(
    os: Seq<(ClientRequest, Seq<char>)>,
    o: (ClientRequest, Seq<char>),
    k: Seq<char>,
)
    ensures
        os.push(o).filter(outcome_has_key(k)) == if o.0.key@ == k {
            os.filter(outcome_has_key(k)).push(o)
        } else {
            os.filter(outcome_has_key(k))
        },
{
    os.lemma_filter_push(o, outcome_has_key(k));
}

/// The answers to the requests on one key depend only on the requests on that key.
pub proof fn lemma_outcomes_by_key(app: Table, rs: Seq<ClientRequest>, k: Seq<char>)
    ensures
        serial_outcomes(app, rs).filter(outcome_has_key(k)) == key_outcomes(
            lookup(app, k),
            rs.filter(has_key(k)),
        ),
    decreases rs.len(),
{
    if rs.len() == 0 {
        reveal(Seq::filter);
    } else {
        let pre = rs.drop_last();
        let r = rs.last();
        assert(rs == pre.push(r));
        lemma_outcomes_by_key(app, pre, k);
        lemma_lookup_run_serial(app, pre, k);
        lemma_filter_push_key(pre, r, k);
        let o = (r, op_result(run_serial(app, pre), r.key@, r.value@));
        lemma_outcome_filter_push(serial_outcomes(app, pre), o, k);
        if r.key@ == k {
            assert(pre.filter(has_key(k)).push(r).drop_last() == pre.filter(has_key(k)));
        }
    }
}

/// Whether the reads find their keys depends, key by key, only on the requests on that key.
pub proof fn lemma_reads_defined_by_key(app: Table, rs: Seq<ClientRequest>)
    ensures
        reads_defined(app, rs) <==> forall|k: Seq<char>|
            key_reads_defined(lookup(app, k), #[trigger] rs.filter(has_key(k))),
    decreases rs.len(),
{
    if rs.len() == 0 {
        reveal(Seq::filter);
    } else {
        let pre = rs.drop_last();
        let r = rs.last();
        assert(rs == pre.push(r));
        lemma_reads_defined_by_key(app, pre);
        lemma_lookup_run_serial(app, pre, r.key@);
        assert forall|k: Seq<char>| #[trigger]
            rs.filter(has_key(k)) == if r.key@ == k {
                pre.filter(has_key(k)).push(r)
            } else {
                pre.filter(has_key(k))
            } by {
            lemma_filter_push_key(pre, r, k);
        }
        assert(pre.filter(has_key(r.key@)).push(r).drop_last() == pre.filter(has_key(r.key@)));
        if reads_defined(app, rs) {
            assert forall|k: Seq<char>|
                key_reads_defined(lookup(app, k), #[trigger] rs.filter(has_key(k))) by {
                assert(key_reads_defined(lookup(app, k), pre.filter(has_key(k))));
            }
        }
        if forall|k: Seq<char>| key_reads_defined(lookup(app, k), #[trigger] rs.filter(has_key(k))) {
            assert forall|k: Seq<char>|
                key_reads_defined(lookup(app, k), #[trigger] pre.filter(has_key(k))) by {
                assert(key_reads_defined(lookup(app, k), rs.filter(has_key(k))));
            }
            assert(key_reads_defined(lookup(app, r.key@), rs.filter(has_key(r.key@))));
        }
    }
}

/// Two request sequences that agree key by key run to the same table, give the
/// same answers key by key, and find every read defined alike.
pub proof fn lemma_same_per_key(app: Table, a: Seq<ClientRequest>, b: Seq<ClientRequest>)
    requires
        forall|k: Seq<char>| #[trigger] a.filter(has_key(k)) == b.filter(has_key(k)),
    ensures
        run_serial(app, a) == run_serial(app, b),
        forall|k: Seq<char>|
            #[trigger] serial_outcomes(app, a).filter(outcome_has_key(k)) == serial_outcomes(
                app,
                b,
            ).filter(outcome_has_key(k)),
        reads_defined(app, a) == reads_defined(app, b),
{
    assert forall|k: Seq<char>|
        lookup(run_serial(app, a), k) == lookup(run_serial(app, b), k) by {
        lemma_lookup_run_serial(app, a, k);
        lemma_lookup_run_serial(app, b, k);
        assert(a.filter(has_key(k)) == b.filter(has_key(k)));
    }
    assert forall|k: Seq<char>|
        run_serial(app, a).dom().contains(k) == run_serial(app, b).dom().contains(k) by {
        assert(lookup(run_serial(app, a), k) == lookup(run_serial(app, b), k));
    }
    assert forall|k: Seq<char>| run_serial(app, a).dom().contains(k) implies run_serial(
        app,
        a,
    )[k] == run_serial(app, b)[k] by {
        assert(lookup(run_serial(app, a), k) == lookup(run_serial(app, b), k));
    }
    assert(run_serial(app, a) =~= run_serial(app, b));
    assert forall|k: Seq<char>|
        #[trigger] serial_outcomes(app, a).filter(outcome_has_key(k)) == serial_outcomes(
            app,
            b,
        ).filter(outcome_has_key(k)) by {
        lemma_outcomes_by_key(app, a, k);
        lemma_outcomes_by_key(app, b, k);
        assert(a.filter(has_key(k)) == b.filter(has_key(k)));
    }
    lemma_reads_defined_by_key(app, a);
    lemma_reads_defined_by_key(app, b);
    if reads_defined(app, a) {
        assert forall|k: Seq<char>|
            key_reads_defined(lookup(app, k), #[trigger] b.filter(has_key(k))) by {
            assert(a.filter(has_key(k)) == b.filter(has_key(k)));
            assert(key_reads_defined(lookup(app, k), a.filter(has_key(k))));
        }
    }
    if reads_defined(app, b) {
        assert forall|k: Seq<char>|
            key_reads_defined(lookup(app, k), #[trigger] a.filter(has_key(k))) by {
            assert(a.filter(has_key(k)) == b.filter(has_key(k)));
            assert(key_reads_defined(lookup(app, k), b.filter(has_key(k))));
        }
    }
}


// ---------------------------------------------------------------------------
// Cutting a run of requests into a trace
// ---------------------------------------------------------------------------

/// Whether some request in the cut is on key `k`.
pub open spec fn cut_has_key(cut: Seq<ClientRequest>, k: Seq<char>) -> bool {
    exists|j: int| 0 <= j < cut.len() && #[trigger] cut[j].key@ == k
}

/// The first cut, from `i` on, that holds no request on `k`; the number of cuts if
/// every one of them does.
pub open spec fn first_free_from(trace: Seq<Seq<ClientRequest>>, k: Seq<char>, i: int) -> int
    decreases trace.len() - i,
{
    if i >= trace.len() {
        trace.len() as int
    } else if !cut_has_key(trace[i], k) {
        i
    } else {
        first_free_from(trace, k, i + 1)
    }
}

/// Puts a request into the first cut that holds no request on its key, or into a
/// new cut at the end when there is none.
pub open spec fn place(trace: Seq<Seq<ClientRequest>>, r: ClientRequest) -> Seq<Seq<ClientRequest>> {
    let i = first_free_from(trace, r.key@, 0);
    if i < trace.len() {
        trace.update(i, trace[i].push(r))
    } else {
        trace.push(seq![r])
    }
}

/// The trace of a run of requests: each request, in order, placed into the first cut
/// that holds no request on its key.
pub open spec fn build_trace(rs: Seq<ClientRequest>) -> Seq<Seq<ClientRequest>>
    decreases rs.len(),
{
    if rs.len() == 0 {
        Seq::empty()
    } else {
        place(build_trace(rs.drop_last()), rs.last())
    }
}

/// No cut holds two requests on the same key.
pub open spec fn cuts_have_distinct_keys(trace: Seq<Seq<ClientRequest>>) -> bool {
    forall|c: int, i: int, j: int|
        0 <= c < trace.len() && 0 <= i < j < trace[c].len() ==> #[trigger] trace[c][i].key@
            != #[trigger] trace[c][j].key@
}

/// The cuts that hold a request on a key come first.
pub open spec fn keys_layered(trace: Seq<Seq<ClientRequest>>) -> bool {
    forall|k: Seq<char>, c1: int, c2: int|
        0 <= c1 < c2 < trace.len() && #[trigger] cut_has_key(trace[c2], k) ==> #[trigger] cut_has_key(
            trace[c1],
            k,
        )
}

proof fn lemma_first_free(trace: Seq<Seq<ClientRequest>>, k: Seq<char>, i: int)
    requires
        0 <= i <= trace.len(),
    ensures
        i <= first_free_from(trace, k, i) <= trace.len(),
        forall|c: int| i <= c < first_free_from(trace, k, i) ==> cut_has_key(#[trigger] trace[c], k),
        first_free_from(trace, k, i) < trace.len() ==> !cut_has_key(
            trace[first_free_from(trace, k, i)],
            k,
        ),
    decreases trace.len() - i,
{
    if i < trace.len() && cut_has_key(trace[i], k) {
        lemma_first_free(trace, k, i + 1);
    }
}

proof fn lemma_filter_without_key(cut: Seq<ClientRequest>, k: Seq<char>)
    requires
        !cut_has_key(cut, k),
    ensures
        cut.filter(has_key(k)) == Seq::<ClientRequest>::empty(),
    decreases cut.len(),
{
    reveal(Seq::filter);
    if cut.len() > 0 {
        let pre = cut.drop_last();
        assert forall|j: int| 0 <= j < pre.len() implies #[trigger] pre[j].key@ != k by {
            assert(cut[j] == pre[j]);
        }
        lemma_filter_without_key(pre, k);
        assert(cut[cut.len() - 1] == cut.last());
    }
}

/// Adding `r` to cut `i` adds `r` at the end of what the flattened trace holds on `r`'s key,
/// when no later cut holds that key, and changes nothing on any other key.
proof fn lemma_flatten_filter_update(
    t: Seq<Seq<ClientRequest>>,
    i: int,
    r: ClientRequest,
    k: Seq<char>,
)
    requires
        0 <= i < t.len(),
        r.key@ == k ==> forall|c: int| i < c < t.len() ==> !cut_has_key(#[trigger] t[c], k),
    ensures
        t.update(i, t[i].push(r)).flatten().filter(has_key(k)) == if r.key@ == k {
            t.flatten().filter(has_key(k)).push(r)
        } else {
            t.flatten().filter(has_key(k))
        },
    decreases t.len(),
{
    let f = has_key(k);
    let t2 = t.update(i, t[i].push(r));
    let pre = t.drop_last();
    let pre2 = t2.drop_last();
    assert(t == pre.push(t.last()));
    assert(t2 == pre2.push(t2.last()));
    pre.lemma_flatten_push(t.last());
    pre2.lemma_flatten_push(t2.last());
    if i == t.len() - 1 {
        assert(pre2 == pre);
        Seq::filter_distributes_over_add(pre.flatten(), t[i].push(r), f);
        Seq::filter_distributes_over_add(pre.flatten(), t[i], f);
        lemma_filter_push_key(t[i], r, k);
        if r.key@ == k {
            assert(pre.flatten().filter(f) + t[i].filter(f).push(r) == (pre.flatten().filter(f)
                + t[i].filter(f)).push(r));
        }
    } else {
        assert(pre2 == pre.update(i, pre[i].push(r)));
        assert(t2.last() == t.last());
        lemma_flatten_filter_update(pre, i, r, k);
        Seq::filter_distributes_over_add(pre2.flatten(), t.last(), f);
        Seq::filter_distributes_over_add(pre.flatten(), t.last(), f);
        if r.key@ == k {
            assert(!cut_has_key(t[t.len() - 1], k));
            lemma_filter_without_key(t.last(), k);
            assert(pre.flatten().filter(f).push(r) + t.last().filter(f) == (pre.flatten().filter(f)
                + t.last().filter(f)).push(r));
        }
    }
}

/// Adding `r` in a new last cut adds `r` at the end of what the flattened trace holds on
/// `r`'s key, and changes nothing on any other key.
proof fn lemma_flatten_filter_push(t: Seq<Seq<ClientRequest>>, r: ClientRequest, k: Seq<char>)
    ensures
        t.push(seq![r]).flatten().filter(has_key(k)) == if r.key@ == k {
            t.flatten().filter(has_key(k)).push(r)
        } else {
            t.flatten().filter(has_key(k))
        },
{
    let f = has_key(k);
    t.lemma_flatten_push(seq![r]);
    Seq::filter_distributes_over_add(t.flatten(), seq![r], f);
    assert(Seq::<ClientRequest>::empty().push(r) == seq![r]);
    lemma_filter_push_key(Seq::<ClientRequest>::empty(), r, k);
    reveal(Seq::filter);
    assert(Seq::<ClientRequest>::empty().filter(f) == Seq::<ClientRequest>::empty());
}

proof fn lemma_place_keeps_shape(t: Seq<Seq<ClientRequest>>, r: ClientRequest)
    requires
        cuts_have_distinct_keys(t),
        keys_layered(t),
    ensures
        cuts_have_distinct_keys(place(t, r)),
        keys_layered(place(t, r)),
        forall|k: Seq<char>|
            #[trigger] place(t, r).flatten().filter(has_key(k)) == if r.key@ == k {
                t.flatten().filter(has_key(k)).push(r)
            } else {
                t.flatten().filter(has_key(k))
            },
{
    let kr = r.key@;
    let i = first_free_from(t, kr, 0);
    lemma_first_free(t, kr, 0);
    let t2 = place(t, r);
    if i < t.len() {
        assert(t2 == t.update(i, t[i].push(r)));
        assert forall|c: int| i < c < t.len() implies !cut_has_key(#[trigger] t[c], kr) by {
            if cut_has_key(t[c], kr) {
                assert(cut_has_key(t[i], kr));
            }
        }
        assert forall|k: Seq<char>|
            #[trigger] t2.flatten().filter(has_key(k)) == if kr == k {
                t.flatten().filter(has_key(k)).push(r)
            } else {
                t.flatten().filter(has_key(k))
            } by {
            lemma_flatten_filter_update(t, i, r, k);
        }
        // a cut of the new trace holds a key exactly when the old cut did, or it is cut i and the key is r's
        assert forall|c: int, k: Seq<char>| 0 <= c < t2.len() implies #[trigger] cut_has_key(t2[c], k)
            == (cut_has_key(t[c], k) || (c == i && k == kr)) by {
            if c == i {
                if cut_has_key(t2[c], k) && !(k == kr) {
                    let j = choose|j: int| 0 <= j < t2[c].len() && #[trigger] t2[c][j].key@ == k;
                    assert(t[c][j] == t2[c][j]);
                }
                if cut_has_key(t[c], k) {
                    let j = choose|j: int| 0 <= j < t[c].len() && #[trigger] t[c][j].key@ == k;
                    assert(t2[c][j] == t[c][j]);
                }
                if k == kr {
                    assert(t2[c][t[c].len() as int] == r);
                }
            }
        }
        assert forall|c: int, a: int, b: int|
            0 <= c < t2.len() && 0 <= a < b < t2[c].len() implies #[trigger] t2[c][a].key@
            != #[trigger] t2[c][b].key@ by {
            if c == i && b == t[c].len() {
                assert(t2[c][a] == t[c][a]);
                assert(!cut_has_key(t[c], kr));
            }
        }
        assert forall|k: Seq<char>, c1: int, c2: int|
            0 <= c1 < c2 < t2.len() && #[trigger] cut_has_key(t2[c2], k) implies #[trigger] cut_has_key(
            t2[c1],
            k,
        ) by {
            assert(cut_has_key(t2[c2], k) == (cut_has_key(t[c2], k) || (c2 == i && k == kr)));
            assert(cut_has_key(t2[c1], k) == (cut_has_key(t[c1], k) || (c1 == i && k == kr)));
            if c2 == i && k == kr {
                assert(cut_has_key(t[c1], kr));
            } else {
                assert(cut_has_key(t[c1], k));
            }
        }
    } else {
        assert(t2 == t.push(seq![r]));
        assert forall|k: Seq<char>|
            #[trigger] t2.flatten().filter(has_key(k)) == if kr == k {
                t.flatten().filter(has_key(k)).push(r)
            } else {
                t.flatten().filter(has_key(k))
            } by {
            lemma_flatten_filter_push(t, r, k);
        }
        assert forall|k: Seq<char>, c1: int, c2: int|
            0 <= c1 < c2 < t2.len() && #[trigger] cut_has_key(t2[c2], k) implies #[trigger] cut_has_key(
            t2[c1],
            k,
        ) by {
            if c2 == t.len() {
                let j = choose|j: int| 0 <= j < t2[c2].len() && #[trigger] t2[c2][j].key@ == k;
                assert(t2[c2][j] == r);
                assert(cut_has_key(t[c1], kr));
            } else {
                assert(t2[c2] == t[c2]);
            }
            assert(t2[c1] == t[c1]);
        }
    }
}

/// The shape of a trace: no cut holds two requests on one key, and, key by key, the
/// flattened trace holds the same requests in the same order as the run it was cut from.
pub proof fn lemma_trace_shape(rs: Seq<ClientRequest>)
    ensures
        cuts_have_distinct_keys(build_trace(rs)),
        keys_layered(build_trace(rs)),
        forall|k: Seq<char>|
            #[trigger] build_trace(rs).flatten().filter(has_key(k)) == rs.filter(has_key(k)),
    decreases rs.len(),
{
    if rs.len() == 0 {
        reveal(Seq::filter);
        assert(build_trace(rs).flatten() == Seq::<ClientRequest>::empty());
    } else {
        let pre = rs.drop_last();
        let r = rs.last();
        assert(rs == pre.push(r));
        lemma_trace_shape(pre);
        lemma_place_keeps_shape(build_trace(pre), r);
        assert forall|k: Seq<char>|
            #[trigger] build_trace(rs).flatten().filter(has_key(k)) == rs.filter(has_key(k)) by {
            lemma_filter_push_key(pre, r, k);
            assert(place(build_trace(pre), r).flatten().filter(has_key(k)) == if r.key@ == k {
                build_trace(pre).flatten().filter(has_key(k)).push(r)
            } else {
                build_trace(pre).flatten().filter(has_key(k))
            });
        }
    }
}

proof fn lemma_multiset_concat(a: Seq<ClientRequest>, b: Seq<ClientRequest>)
    ensures
        (a + b).to_multiset() =~= a.to_multiset().add(b.to_multiset()),
    decreases b.len(),
{
    broadcast use vstd::seq_lib::group_to_multiset_ensures;

    if b.len() == 0 {
        assert(a + b =~= a);
        assert(b.to_multiset() =~= Multiset::<ClientRequest>::empty());
    } else {
        lemma_multiset_concat(a, b.drop_last());
        assert(a + b =~= (a + b.drop_last()).push(b.last()));
        assert(b =~= b.drop_last().push(b.last()));
    }
}

/// Adding `r` to a cut adds `r` to the requests of the flattened trace.
proof fn lemma_flatten_update_multiset(t: Seq<Seq<ClientRequest>>, i: int, r: ClientRequest)
    requires
        0 <= i < t.len(),
    ensures
        t.update(i, t[i].push(r)).flatten().to_multiset() =~= t.flatten().to_multiset().insert(r),
    decreases t.len(),
{
    broadcast use vstd::seq_lib::group_to_multiset_ensures;

    let t2 = t.update(i, t[i].push(r));
    let pre = t.drop_last();
    let pre2 = t2.drop_last();
    assert(t == pre.push(t.last()));
    assert(t2 == pre2.push(t2.last()));
    pre.lemma_flatten_push(t.last());
    pre2.lemma_flatten_push(t2.last());
    if i == t.len() - 1 {
        assert(pre2 == pre);
        lemma_multiset_concat(pre.flatten(), t[i].push(r));
        lemma_multiset_concat(pre.flatten(), t[i]);
    } else {
        assert(pre2 == pre.update(i, pre[i].push(r)));
        assert(t2.last() == t.last());
        lemma_flatten_update_multiset(pre, i, r);
        lemma_multiset_concat(pre2.flatten(), t.last());
        lemma_multiset_concat(pre.flatten(), t.last());
    }
}

/// The flattened trace holds every request of the run it was cut from, each as
/// often as the run does.
pub proof fn lemma_trace_is_permutation(rs: Seq<ClientRequest>)
    ensures
        build_trace(rs).flatten().to_multiset() =~= rs.to_multiset(),
        build_trace(rs).flatten().len() == rs.len(),
    decreases rs.len(),
{
    broadcast use vstd::seq_lib::group_to_multiset_ensures;

    if rs.len() == 0 {
        assert(build_trace(rs).flatten() =~= Seq::<ClientRequest>::empty());
        assert(rs =~= Seq::<ClientRequest>::empty());
    } else {
        let pre = rs.drop_last();
        let r = rs.last();
        assert(rs == pre.push(r));
        lemma_trace_is_permutation(pre);
        let t = build_trace(pre);
        let i = first_free_from(t, r.key@, 0);
        lemma_first_free(t, r.key@, 0);
        if i < t.len() {
            lemma_flatten_update_multiset(t, i, r);
        } else {
            t.lemma_flatten_push(seq![r]);
            assert(seq![r] == Seq::<ClientRequest>::empty().push(r));
            lemma_multiset_concat(t.flatten(), seq![r]);
        }
    }
    assert(build_trace(rs).flatten().to_multiset().len() == rs.to_multiset().len());
}

/// Running a trace cut after cut is running its requests in order: it leaves the table
/// as the run it was cut from does, answers every key's requests alike and in the same
/// order, and finds its reads defined exactly when that run does.
pub proof fn lemma_trace_matches_serial(app: Table, rs: Seq<ClientRequest>)
    ensures
        run_serial(app, build_trace(rs).flatten()) == run_serial(app, rs),
        forall|k: Seq<char>|
            #[trigger] serial_outcomes(app, build_trace(rs).flatten()).filter(outcome_has_key(k))
                == serial_outcomes(app, rs).filter(outcome_has_key(k)),
        reads_defined(app, build_trace(rs).flatten()) == reads_defined(app, rs),
{
    lemma_trace_shape(rs);
    lemma_same_per_key(app, build_trace(rs).flatten(), rs);
}


// ---------------------------------------------------------------------------
// Running the requests inside each cut in any order
// ---------------------------------------------------------------------------

/// `t2` has the cuts of `t`, in the same order, each with its requests in some order.
pub open spec fn reorders_within_cuts(t2: Seq<Seq<ClientRequest>>, t: Seq<Seq<ClientRequest>>) -> bool {
    &&& t2.len() == t.len()
    &&& forall|c: int| 0 <= c < t.len() ==> #[trigger] t2[c].to_multiset() == t[c].to_multiset()
}

proof fn lemma_filter_multiset(s: Seq<ClientRequest>, k: Seq<char>)
    ensures
        s.filter(has_key(k)).to_multiset() =~= s.to_multiset().filter(has_key(k)),
    decreases s.len(),
{
    broadcast use vstd::seq_lib::group_to_multiset_ensures;
    broadcast use vstd::multiset::group_multiset_axioms;

    if s.len() == 0 {
        reveal(Seq::filter);
        assert(s.to_multiset() =~= Multiset::<ClientRequest>::empty());
        assert(s.filter(has_key(k)) =~= s);
    } else {
        let pre = s.drop_last();
        let x = s.last();
        assert(s == pre.push(x));
        lemma_filter_multiset(pre, k);
        lemma_filter_push_key(pre, x, k);
    }
}

/// A cut without two requests on one key holds at most one request on any key.
proof fn lemma_distinct_cut_filter_len(cut: Seq<ClientRequest>, k: Seq<char>)
    requires
        forall|i: int, j: int| 0 <= i < j < cut.len() ==> #[trigger] cut[i].key@ != #[trigger] cut[j].key@,
    ensures
        cut.filter(has_key(k)).len() <= 1,
    decreases cut.len(),
{
    reveal(Seq::filter);
    if cut.len() > 0 {
        let pre = cut.drop_last();
        let x = cut.last();
        assert(cut == pre.push(x));
        assert forall|i: int, j: int| 0 <= i < j < pre.len() implies #[trigger] pre[i].key@ != #[trigger] pre[j].key@ by {
            assert(pre[i] == cut[i] && pre[j] == cut[j]);
        }
        lemma_distinct_cut_filter_len(pre, k);
        lemma_filter_push_key(pre, x, k);
        if x.key@ == k {
            assert forall|j: int| 0 <= j < pre.len() implies #[trigger] pre[j].key@ != k by {
                assert(pre[j] == cut[j]);
                assert(cut[j].key@ != cut[cut.len() - 1].key@);
            }
            lemma_filter_without_key(pre, k);
        }
    }
}

/// Two orders of a cut without two requests on one key hold, key by key, the same requests.
proof fn lemma_reordered_cut_filter(c1: Seq<ClientRequest>, c2: Seq<ClientRequest>, k: Seq<char>)
    requires
        forall|i: int, j: int| 0 <= i < j < c1.len() ==> #[trigger] c1[i].key@ != #[trigger] c1[j].key@,
        c2.to_multiset() == c1.to_multiset(),
    ensures
        c2.filter(has_key(k)) == c1.filter(has_key(k)),
{
    broadcast use vstd::seq_lib::group_to_multiset_ensures;
    broadcast use vstd::multiset::group_multiset_axioms;

    let f1 = c1.filter(has_key(k));
    let f2 = c2.filter(has_key(k));
    lemma_filter_multiset(c1, k);
    lemma_filter_multiset(c2, k);
    lemma_distinct_cut_filter_len(c1, k);
    assert(f1.to_multiset() == f2.to_multiset());
    assert(f1.to_multiset().len() == f2.to_multiset().len());
    if f1.len() == 1 {
        assert(f1.contains(f1[0]));
        assert(f2.to_multiset().count(f1[0]) > 0);
        assert(f2.contains(f1[0]));
        assert(f2 =~= f1);
    } else {
        assert(f1 =~= f2);
    }
}

/// Running the cuts of a trace in order, with the requests inside each cut in any order,
/// leaves the same table, gives every key's requests the same answers in the same order,
/// and finds its reads defined exactly when running the trace as built does.
pub proof fn lemma_any_order_within_cuts(app: Table, t: Seq<Seq<ClientRequest>>, t2: Seq<Seq<ClientRequest>>)
    requires
        cuts_have_distinct_keys(t),
        reorders_within_cuts(t2, t),
    ensures
        forall|k: Seq<char>| #[trigger] t2.flatten().filter(has_key(k)) == t.flatten().filter(has_key(k)),
        run_serial(app, t2.flatten()) == run_serial(app, t.flatten()),
        forall|k: Seq<char>|
            #[trigger] serial_outcomes(app, t2.flatten()).filter(outcome_has_key(k)) == serial_outcomes(
                app,
                t.flatten(),
            ).filter(outcome_has_key(k)),
        reads_defined(app, t2.flatten()) == reads_defined(app, t.flatten()),
    decreases t.len(),
{
    if t.len() > 0 {
        let pre = t.drop_last();
        let pre2 = t2.drop_last();
        assert(t == pre.push(t.last()));
        assert(t2 == pre2.push(t2.last()));
        assert(cuts_have_distinct_keys(pre)) by {
            assert forall|c: int, i: int, j: int|
                0 <= c < pre.len() && 0 <= i < j < pre[c].len() implies #[trigger] pre[c][i].key@
                != #[trigger] pre[c][j].key@ by {
                assert(pre[c] == t[c]);
            }
        }
        assert forall|c: int| 0 <= c < pre.len() implies #[trigger] pre2[c].to_multiset() == pre[c].to_multiset() by {
            assert(pre2[c] == t2[c] && pre[c] == t[c]);
        }
        lemma_any_order_within_cuts(app, pre, pre2);
        pre.lemma_flatten_push(t.last());
        pre2.lemma_flatten_push(t2.last());
        let last = t.last();
        assert forall|i: int, j: int| 0 <= i < j < last.len() implies #[trigger] last[i].key@ != #[trigger] last[j].key@ by {
            assert(last == t[t.len() - 1]);
        }
        assert(t2.last().to_multiset() == last.to_multiset()) by {
            assert(t2.last() == t2[t.len() - 1]);
        }
        assert forall|k: Seq<char>| #[trigger] t2.flatten().filter(has_key(k)) == t.flatten().filter(has_key(k)) by {
            Seq::filter_distributes_over_add(pre.flatten(), last, has_key(k));
            Seq::filter_distributes_over_add(pre2.flatten(), t2.last(), has_key(k));
            lemma_reordered_cut_filter(last, t2.last(), k);
            assert(pre2.flatten().filter(has_key(k)) == pre.flatten().filter(has_key(k)));
        }
    } else {
        assert(t2.flatten() =~= t.flatten());
    }
    lemma_same_per_key(app, t2.flatten(), t.flatten());
}

/// A trace run cut after cut, with the requests inside each cut in any order, is the run
/// of its slots in order: the same table, the same answers key by key, and reads defined
/// exactly when that run's are.
pub proof fn lemma_trace_any_order_matches_serial(app: Table, rs: Seq<ClientRequest>, t2: Seq<Seq<ClientRequest>>)
    requires
        reorders_within_cuts(t2, build_trace(rs)),
    ensures
        run_serial(app, t2.flatten()) == run_serial(app, rs),
        forall|k: Seq<char>|
            #[trigger] serial_outcomes(app, t2.flatten()).filter(outcome_has_key(k)) == serial_outcomes(
                app,
                rs,
            ).filter(outcome_has_key(k)),
        reads_defined(app, t2.flatten()) == reads_defined(app, rs),
{
    lemma_trace_shape(rs);
    lemma_any_order_within_cuts(app, build_trace(rs), t2);
    assert forall|k: Seq<char>| #[trigger] t2.flatten().filter(has_key(k)) == rs.filter(has_key(k)) by {
        assert(t2.flatten().filter(has_key(k)) == build_trace(rs).flatten().filter(has_key(k)));
        assert(build_trace(rs).flatten().filter(has_key(k)) == rs.filter(has_key(k)));
    }
    lemma_same_per_key(app, t2.flatten(), rs);
}


// ---------------------------------------------------------------------------
// Running a trace one cut at a time
// ---------------------------------------------------------------------------

/// No two requests of the cut are on the same key.
pub open spec fn cut_keys_distinct(cut: Seq<ClientRequest>) -> bool {
    forall|i: int, j: int| 0 <= i < j < cut.len() ==> #[trigger] cut[i].key@ != #[trigger] cut[j].key@
}

/// The table after running the cuts one after another, each cut's requests in order.
pub open spec fn run_cuts(app: Table, t: Seq<Seq<ClientRequest>>) -> Table
    decreases t.len(),
{
    if t.len() == 0 {
        app
    } else {
        run_serial(run_cuts(app, t.drop_last()), t.last())
    }
}

/// The requests paired with their answers when the cuts run one after another.
pub open spec fn cuts_outcomes(app: Table, t: Seq<Seq<ClientRequest>>) -> Seq<(ClientRequest, Seq<char>)>
    decreases t.len(),
{
    if t.len() == 0 {
        Seq::empty()
    } else {
        cuts_outcomes(app, t.drop_last()) + serial_outcomes(run_cuts(app, t.drop_last()), t.last())
    }
}

/// Whether each cut, run after the ones before it, finds all its reads defined.
pub open spec fn cuts_reads_defined(app: Table, t: Seq<Seq<ClientRequest>>) -> bool
    decreases t.len(),
{
    if t.len() == 0 {
        true
    } else {
        cuts_reads_defined(app, t.drop_last()) && reads_defined(run_cuts(app, t.drop_last()), t.last())
    }
}

/// Running `a` then `b` is running `a + b`: the same table, the answers of `a` followed
/// by those of `b`, and reads defined exactly when both parts find theirs.
pub proof fn lemma_run_serial_concat(app: Table, a: Seq<ClientRequest>, b: Seq<ClientRequest>)
    ensures
        run_serial(app, a + b) == run_serial(run_serial(app, a), b),
        serial_outcomes(app, a + b) == serial_outcomes(app, a) + serial_outcomes(run_serial(app, a), b),
        reads_defined(app, a + b) == (reads_defined(app, a) && reads_defined(run_serial(app, a), b)),
    decreases b.len(),
{
    if b.len() == 0 {
        assert(a + b =~= a);
        assert(serial_outcomes(app, a) + serial_outcomes(run_serial(app, a), b) =~= serial_outcomes(app, a));
    } else {
        let pre = b.drop_last();
        lemma_run_serial_concat(app, a, pre);
        assert((a + b).drop_last() =~= a + pre);
        assert((a + b).last() == b.last());
        let mid = run_serial(app, a);
        assert(serial_outcomes(app, a) + serial_outcomes(mid, b) =~= (serial_outcomes(app, a)
            + serial_outcomes(mid, pre)).push(
            (b.last(), op_result(run_serial(mid, pre), b.last().key@, b.last().value@)),
        ));
    }
}

/// Running the cuts one after another is running the flattened trace: the same table,
/// the same answers in the same order, and reads defined in the same cases.
pub proof fn lemma_cuts_one_after_another(app: Table, t: Seq<Seq<ClientRequest>>)
    ensures
        run_cuts(app, t) == run_serial(app, t.flatten()),
        cuts_outcomes(app, t) == serial_outcomes(app, t.flatten()),
        cuts_reads_defined(app, t) == reads_defined(app, t.flatten()),
    decreases t.len(),
{
    if t.len() == 0 {
        assert(t.flatten() =~= Seq::<ClientRequest>::empty());
    } else {
        let pre = t.drop_last();
        lemma_cuts_one_after_another(app, pre);
        assert(t == pre.push(t.last()));
        pre.lemma_flatten_push(t.last());
        lemma_run_serial_concat(app, pre.flatten(), t.last());
    }
}

} // verus!
