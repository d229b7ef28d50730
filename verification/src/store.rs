//! Where the coordinator keeps its records in the key-value store, and how
//! it reads the answers of the store.

use vstd::prelude::*;

verus! {

/// The prefix of every key of this layout of the store.
pub const DB_VERSION: &'static str = "v1";

/// The character of a decimal digit.
pub open spec fn digit_char(d: int) -> char {
    if d == 0 {
        '0'
    } else if d == 1 {
        '1'
    } else if d == 2 {
        '2'
    } else if d == 3 {
        '3'
    } else if d == 4 {
        '4'
    } else if d == 5 {
        '5'
    } else if d == 6 {
        '6'
    } else if d == 7 {
        '7'
    } else if d == 8 {
        '8'
    } else {
        '9'
    }
}

/// The decimal digits of a natural number, most significant first.
pub open spec fn digits(v: nat) -> Seq<char>
    decreases v,
{
    if v < 10 {
        seq![digit_char(v as int)]
    } else {
        digits(v / 10).push(digit_char((v % 10) as int))
    }
}

/// An integer written in decimal, with a minus sign when negative.
pub open spec fn decimal(v: int) -> Seq<char> {
    if v < 0 {
        seq!['-'] + digits((-v) as nat)
    } else {
        digits(v as nat)
    }
}

fn digit_str(d: u64) -> (r: &'static str)
    requires
        d < 10,
    ensures
        r@ == seq![digit_char(d as int)],
{
    proof {
        reveal_strlit("0");
        reveal_strlit("1");
        reveal_strlit("2");
        reveal_strlit("3");
        reveal_strlit("4");
        reveal_strlit("5");
        reveal_strlit("6");
        reveal_strlit("7");
        reveal_strlit("8");
        reveal_strlit("9");
    }
    match d {
        0 => "0",
        1 => "1",
        2 => "2",
        3 => "3",
        4 => "4",
        5 => "5",
        6 => "6",
        7 => "7",
        8 => "8",
        _ => "9",
    }
}

fn append_digits(s: &mut String, v: u64)
    ensures
        final(s)@ == old(s)@ + digits(v as nat),
    decreases v,
{
    if v >= 10 {
        append_digits(s, v / 10);
    }
    let d = digit_str(v % 10);
    s.append(d);
    proof {
        if v >= 10 {
            assert(final(s)@ =~= old(s)@ + digits(v as nat));
        } else {
            assert(final(s)@ =~= old(s)@ + digits(v as nat));
        }
    }
}

fn append_decimal(s: &mut String, v: i64)
    ensures
        final(s)@ == old(s)@ + decimal(v as int),
{
    if v < 0 {
        proof {
            reveal_strlit("-");
        }
        s.append("-");
        let m: u64 = ((-(v + 1)) as u64) + 1;
        append_digits(s, m);
        assert(final(s)@ =~= old(s)@ + decimal(v as int));
    } else {
        append_digits(s, v as u64);
    }
}

/// The key of a task: `{DB_VERSION}/task/{task_id}`.
pub fn task_key(task_id: i64) -> (r: String)
    ensures
        r@ == DB_VERSION@ + "/task/"@ + decimal(task_id as int),
{
    let mut s = String::from_str(DB_VERSION);
    s.append("/task/");
    append_decimal(&mut s, task_id);
    s
}

/// The prefix of every task key: `{DB_VERSION}/task/`.
pub fn task_prefix() -> (r: String)
    ensures
        r@ == DB_VERSION@ + "/task/"@,
{
    let mut s = String::from_str(DB_VERSION);
    s.append("/task/");
    s
}

/// The prefix of the nodes registered for a task: `{DB_VERSION}/node/{task_id}/`.
pub fn node_prefix(task_id: i64) -> (r: String)
    ensures
        r@ == DB_VERSION@ + "/node/"@ + decimal(task_id as int) + "/"@,
{
    let mut s = String::from_str(DB_VERSION);
    s.append("/node/");
    append_decimal(&mut s, task_id);
    s.append("/");
    s
}

/// The key of a node registered for a task: `{DB_VERSION}/node/{task_id}/{code}`.
pub fn node_key(task_id: i64, code: &str) -> (r: String)
    ensures
        r@ == DB_VERSION@ + "/node/"@ + decimal(task_id as int) + "/"@ + code@,
{
    let mut s = node_prefix(task_id);
    s.append(code);
    s
}

/// The key of the slot assignment of a task: `{DB_VERSION}/slot/{task_id}`.
pub fn slot_key(task_id: i64) -> (r: String)
    ensures
        r@ == DB_VERSION@ + "/slot/"@ + decimal(task_id as int),
{
    let mut s = String::from_str(DB_VERSION);
    s.append("/slot/");
    append_decimal(&mut s, task_id);
    s
}

/// The key of a named lock: `{DB_VERSION}/lock/{name}`.
pub fn lock_key(name: &str) -> (r: String)
    ensures
        r@ == DB_VERSION@ + "/lock/"@ + name@,
{
    let mut s = String::from_str(DB_VERSION);
    s.append("/lock/");
    s.append(name);
    s
}

/// One entry of a range read: the stored bytes and how many times the key
/// was written.
#[derive(Debug, Clone)]
pub struct KeyValue {
    pub value: Vec<u8>,
    pub version: i64,
}

/// The record that a read of one key found: the first entry's bytes, or
/// "record not found".
pub fn record(kvs: Vec<KeyValue>) -> (r: Result<Vec<u8>, String>)
    ensures
        kvs@.len() > 0 ==> (r is Ok && r->Ok_0@ == kvs@[0].value@),
        kvs@.len() == 0 ==> (r is Err && r->Err_0@ == "record not found"@),
{
    proof {
        reveal_strlit("record not found");
    }
    if kvs.len() > 0 {
        let mut kvs = kvs;
        let kv = kvs.swap_remove(0);
        Ok(kv.value)
    } else {
        Err(String::from_str("record not found"))
    }
}

/// The slot assignment that a read found: its version and bytes, or nothing
/// yet (version 0, no node).
pub fn slot_record(kvs: Vec<KeyValue>) -> (r: Option<(i64, Vec<u8>)>)
    ensures
        kvs@.len() > 0 ==> (r matches Some(p) && p.0 == kvs@[0].version && p.1@ == kvs@[0].value@),
        kvs@.len() == 0 ==> r is None,
{
    if kvs.len() > 0 {
        let mut kvs = kvs;
        let kv = kvs.swap_remove(0);
        Some((kv.version, kv.value))
    } else {
        None
    }
}

/// The version of the slot assignment that a read found, or "slot revision
/// not found".
pub fn slot_revision(kvs: &Vec<KeyValue>) -> (r: Result<i64, String>)
    ensures
        kvs@.len() > 0 ==> r == Ok::<i64, String>(kvs@[0].version),
        kvs@.len() == 0 ==> (r is Err && r->Err_0@ == "slot revision not found"@),
{
    proof {
        reveal_strlit("slot revision not found");
    }
    if kvs.len() > 0 {
        Ok(kvs[0].version)
    } else {
        Err(String::from_str("slot revision not found"))
    }
}

/// Whether the store is reached with credentials: only when both the user
/// and the password are given.
pub fn use_credentials(user: &str, passwd: &str) -> (r: bool)
    ensures
        r == (user@.len() > 0 && passwd@.len() > 0),
{
    !passwd.is_empty() && !user.is_empty()
}

} // verus!
