use vstd::prelude::*;
use vstd::string::StringExecFns;
use dashmap::DashMap;
use crate::store::{table_contents, table_get, table_insert};

verus! {

/// The replicated application is a key-value table: keys and values are strings,
/// seen through their views.
pub type Table = Map<Seq<char>, Seq<char>>;

/// A request whose value is empty reads its key; any other request writes its value.
pub open spec fn is_read(value: Seq<char>) -> bool {
    value.len() == 0
}

/// What the table holds for `key`, if anything.
pub open spec fn lookup(app: Table, key: Seq<char>) -> Option<Seq<char>> {
    if app.dom().contains(key) {
        Some(app[key])
    } else {
        None
    }
}

/// The table after one operation: a read leaves it alone, a write stores the value.
pub open spec fn apply_op(app: Table, key: Seq<char>, value: Seq<char>) -> Table {
    if is_read(value) {
        app
    } else {
        app.insert(key, value)
    }
}

/// The answer to one operation given what the key held before it: a read answers the
/// value held, a write answers "Put ok".
pub open spec fn value_result(held: Option<Seq<char>>, value: Seq<char>) -> Seq<char> {
    if is_read(value) {
        held.unwrap()
    } else {
        "Put ok"@
    }
}

/// The answer to one operation on the table.
pub open spec fn op_result(app: Table, key: Seq<char>, value: Seq<char>) -> Seq<char> {
    value_result(lookup(app, key), value)
}

/// What a key holds after one operation on it, given what it held before.
pub open spec fn value_step(held: Option<Seq<char>>, value: Seq<char>) -> Option<Seq<char>> {
    if is_read(value) {
        held
    } else {
        Some(value)
    }
}

pub proof fn lemma_lookup_apply(app: Table, key: Seq<char>, value: Seq<char>, other: Seq<char>)
    ensures
        lookup(apply_op(app, key, value), other) == if other == key {
            value_step(lookup(app, key), value)
        } else {
            lookup(app, other)
        },
{
}

/// Two operations on different keys commute: applied in either order they leave the
/// same table, and each gets the same answer as it would have got first.
pub proof fn lemma_ops_on_distinct_keys_commute(
    app: Table,
    k1: Seq<char>,
    v1: Seq<char>,
    k2: Seq<char>,
    v2: Seq<char>,
)
    requires
        k1 != k2,
    ensures
        apply_op(apply_op(app, k1, v1), k2, v2) == apply_op(apply_op(app, k2, v2), k1, v1),
        op_result(apply_op(app, k1, v1), k2, v2) == op_result(app, k2, v2),
        op_result(apply_op(app, k2, v2), k1, v1) == op_result(app, k1, v1),
{
    assert(apply_op(apply_op(app, k1, v1), k2, v2) =~= apply_op(apply_op(app, k2, v2), k1, v1));
}


/// Runs one operation on the application's table: a read answers the value held for
/// `key`, a write stores `value` under `key` and answers "Put ok".
pub fn execute_op(table: &mut DashMap<String, String>, key: &String, value: &String) -> (result:
    String)
    requires
        is_read(value@) ==> table_contents(*old(table)).dom().contains(key@),
    ensures
        table_contents(*final(table)) == apply_op(table_contents(*old(table)), key@, value@),
        result@ == op_result(table_contents(*old(table)), key@, value@),
{
    if value.as_str().is_empty() {
        table_get(table, key).unwrap()
    } else {
        table_insert(table, key.clone(), value.clone());
        String::from_str("Put ok")
    }
}


/// A read answers what the last write to its key stored.
pub proof fn lemma_read_after_write(app: Table, key: Seq<char>, value: Seq<char>, read: Seq<char>)
    requires
        !is_read(value),
        is_read(read),
    ensures
        op_result(apply_op(app, key, value), key, read) == value,
        apply_op(apply_op(app, key, value), key, read) == apply_op(app, key, value),
{
}

} // verus!
