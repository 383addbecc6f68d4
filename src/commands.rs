//! The command executor: turns a request array into a keyspace operation and a reply.

use vstd::prelude::*;
use vstd::utf8::*;
use crate::db::{
    Database, DataType, DbValue, Payload, Stored, expired, kept, lemma_failed_offers_evicted,
    lemma_fan_out_keeps_all, subscribers_of,
};
use crate::resp::{
    Frame, Value, copy_range, frame_of, frames_of, lemma_frames_of, line_u64, parse_u64_text, same_bytes,
    text_from_utf8,
};

verus! {

/// What a request yields: a reply, or the switch of the connection into
/// subscriber mode on a channel.
#[derive(Debug)]
pub enum CommandResult {
    Value(Value),
    Subscribe(String),
}

impl PartialEq for CommandResult {
    fn eq(&self, other: &CommandResult) -> (r: bool)
        ensures
            r == same_result(*self, *other),
    {
        match self {
            CommandResult::Value(a) => match other {
                CommandResult::Value(b) => a.eq(b),
                _ => false,
            },
            CommandResult::Subscribe(a) => match other {
                CommandResult::Subscribe(b) => a.eq(b),
                _ => false,
            },
        }
    }
}

impl vstd::std_specs::cmp::PartialEqSpecImpl for CommandResult {
    open spec fn obeys_eq_spec() -> bool {
        true
    }

    open spec fn eq_spec(&self, other: &CommandResult) -> bool {
        same_result(*self, *other)
    }
}

/// Two results say the same thing.
pub open spec fn same_result(a: CommandResult, b: CommandResult) -> bool {
    match (a, b) {
        (CommandResult::Value(x), CommandResult::Value(y)) => x@ == y@,
        (CommandResult::Subscribe(x), CommandResult::Subscribe(y)) => x@ == y@,
        _ => false,
    }
}

// ---------------------------------------------------------------------------
// Requests
// ---------------------------------------------------------------------------

pub open spec fn upper(c: u8) -> u8 {
    if 97 <= c <= 122 {
        (c - 32) as u8
    } else {
        c
    }
}

/// `arg` spells `name` (upper case ASCII) up to ASCII case.
pub open spec fn names(arg: Seq<u8>, name: Seq<u8>) -> bool {
    arg.len() == name.len() && forall|i: int| 0 <= i < arg.len() ==> upper(#[trigger] arg[i]) == name[i]
}

/// `PING`
pub open spec fn ping_name() -> Seq<u8> {
    seq![80u8, 73u8, 78u8, 71u8]
}

/// `SET`
pub open spec fn set_name() -> Seq<u8> {
    seq![83u8, 69u8, 84u8]
}

/// `GET`
pub open spec fn get_name() -> Seq<u8> {
    seq![71u8, 69u8, 84u8]
}

/// `DEL`
pub open spec fn del_name() -> Seq<u8> {
    seq![68u8, 69u8, 76u8]
}

/// `SUBSCRIBE`
pub open spec fn subscribe_name() -> Seq<u8> {
    seq![83u8, 85u8, 66u8, 83u8, 67u8, 82u8, 73u8, 66u8, 69u8]
}

/// `PUBLISH`
pub open spec fn publish_name() -> Seq<u8> {
    seq![80u8, 85u8, 66u8, 76u8, 73u8, 83u8, 72u8]
}

/// `EX`, the time-to-live option of `SET` (matched exactly).
pub open spec fn ex_name() -> Seq<u8> {
    seq![69u8, 88u8]
}

pub open spec fn all_bulk(args: Seq<Frame>) -> bool {
    forall|i: int| 0 <= i < args.len() ==> #[trigger] args[i] is Bulk
}

pub open spec fn bulk(f: Frame) -> Seq<u8> {
    f->Bulk_0
}

/// A recognised command with its arguments.
pub enum Request {
    Ping,
    /// Key, value, and the time to live in seconds when one was given and parses.
    SetValue(Seq<u8>, Seq<u8>, Option<nat>),
    GetValue(Seq<u8>),
    Delete(Seq<u8>),
    Subscribe(Seq<u8>),
    Publish(Seq<u8>, Seq<u8>),
}

/// The command that a request array spells, if any. Every element must be a
/// bulk string, the name is matched up to ASCII case, each command takes its
/// exact number of arguments, and keys and channel names must be UTF-8.
pub open spec fn request_of(args: Seq<Frame>) -> Option<Request> {
    if args.len() == 0 || !all_bulk(args) {
        None
    } else {
        let name = bulk(args[0]);
        let n = args.len();
        if names(name, ping_name()) && n == 1 {
            Some(Request::Ping)
        } else if names(name, set_name()) && (n == 3 || (n == 5 && bulk(args[3]) == ex_name()))
            && valid_utf8(bulk(args[1])) {
            Some(
                Request::SetValue(
                    bulk(args[1]),
                    bulk(args[2]),
                    if n == 5 {
                        line_u64(bulk(args[4]))
                    } else {
                        None
                    },
                ),
            )
        } else if names(name, get_name()) && n == 2 && valid_utf8(bulk(args[1])) {
            Some(Request::GetValue(bulk(args[1])))
        } else if names(name, del_name()) && n == 2 && valid_utf8(bulk(args[1])) {
            Some(Request::Delete(bulk(args[1])))
        } else if names(name, subscribe_name()) && n == 2 && valid_utf8(bulk(args[1])) {
            Some(Request::Subscribe(bulk(args[1])))
        } else if names(name, publish_name()) && n == 3 && valid_utf8(bulk(args[1])) {
            Some(Request::Publish(bulk(args[1]), bulk(args[2])))
        } else {
            None
        }
    }
}

// ---------------------------------------------------------------------------
// Effects and replies
// ---------------------------------------------------------------------------

/// The deadline `secs` seconds after `now` (in nanoseconds), saturated at the clock's end.
pub open spec fn deadline(now: u64, secs: nat) -> u64 {
    if now + secs * 1_000_000_000 > u64::MAX {
        u64::MAX
    } else {
        (now + secs * 1_000_000_000) as u64
    }
}

/// The entry that `SET` stores.
pub open spec fn stored_for(v: Seq<u8>, ttl: Option<nat>, now: u64) -> Stored {
    Stored {
        payload: Payload::Text(v),
        expiry: match ttl {
            Some(secs) => Some(deadline(now, secs)),
            None => None,
        },
    }
}

/// The keyspace after `SET k v` at `now`.
pub open spec fn after_set(m: Map<Seq<u8>, Stored>, k: Seq<u8>, v: Seq<u8>, ttl: Option<nat>, now: u64) -> Map<Seq<u8>, Stored> {
    m.insert(k, stored_for(v, ttl, now))
}

/// The reply to `GET k` at `now`: the byte string when it is stored and live, `Null` otherwise.
pub open spec fn get_reply(m: Map<Seq<u8>, Stored>, k: Seq<u8>, now: u64) -> Frame {
    if m.contains_key(k) && !expired(m[k], now) {
        match m[k].payload {
            Payload::Text(b) => Frame::Bulk(b),
            Payload::Items(_) => Frame::Nil,
        }
    } else {
        Frame::Nil
    }
}

/// The keyspace after `GET k` at `now`: an expired entry is gone.
pub open spec fn after_get(m: Map<Seq<u8>, Stored>, k: Seq<u8>, now: u64) -> Map<Seq<u8>, Stored> {
    if m.contains_key(k) && expired(m[k], now) {
        m.remove(k)
    } else {
        m
    }
}

/// The reply to `DEL k`.
pub open spec fn del_reply(m: Map<Seq<u8>, Stored>, k: Seq<u8>) -> Frame {
    Frame::Int(
        if m.contains_key(k) {
            1
        } else {
            0
        },
    )
}

/// The keyspace after `DEL k`.
pub open spec fn after_del(m: Map<Seq<u8>, Stored>, k: Seq<u8>) -> Map<Seq<u8>, Stored> {
    m.remove(k)
}

/// The count that `PUBLISH` replies with, capped at the largest `i64`.
pub open spec fn publish_count(n: nat) -> int {
    if n > i64::MAX {
        i64::MAX as int
    } else {
        n as int
    }
}

/// `r` is a reply whose value is `f`.
pub open spec fn replies(r: Option<CommandResult>, f: Frame) -> bool {
    r matches Some(CommandResult::Value(v)) && v@ == f
}

/// What executing `req` does: `r` is the reply, the keyspace goes from `d0` to
/// `d1`, and the channel registry from `s0` to `s1`.
pub open spec fn executes(
    req: Option<Request>,
    r: Option<CommandResult>,
    d0: Map<Seq<u8>, Stored>,
    s0: Map<Seq<u8>, Seq<tokio::sync::mpsc::Sender<Vec<u8>>>>,
    d1: Map<Seq<u8>, Stored>,
    s1: Map<Seq<u8>, Seq<tokio::sync::mpsc::Sender<Vec<u8>>>>,
    now: u64,
) -> bool {
    match req {
        None => r is None && d1 == d0 && s1 == s0,
        Some(Request::Ping) => replies(r, Frame::Simple("PONG"@)) && d1 == d0 && s1 == s0,
        Some(Request::SetValue(k, v, ttl)) => replies(r, Frame::Simple("OK"@)) && d1 == after_set(d0, k, v, ttl, now)
            && s1 == s0,
        Some(Request::GetValue(k)) => replies(r, get_reply(d0, k, now)) && d1 == after_get(d0, k, now) && s1 == s0,
        Some(Request::Delete(k)) => replies(r, del_reply(d0, k)) && d1 == after_del(d0, k) && s1 == s0,
        Some(Request::Subscribe(c)) => (r matches Some(CommandResult::Subscribe(s)) && s@ == decode_utf8(c))
            && d1 == d0 && s1 == s0,
        Some(Request::Publish(c, _m)) => replies(r, Frame::Int(publish_count(subscribers_of(s0, c).len())))
            && d1 == d0 && (!s0.contains_key(c) ==> s1 == s0) && (s0.contains_key(c) ==> exists|d: Seq<bool>|
            d.len() == subscribers_of(s0, c).len() && s1 == s0.insert(c, #[trigger] kept(s0[c], d))),
    }
}

// ---------------------------------------------------------------------------
// Execution
// ---------------------------------------------------------------------------

/// The arguments of a request that consists of bulk strings only.
pub open spec fn bulk_request(cmd: Seq<Value>) -> bool {
    &&& cmd.len() >= 1
    &&& all_bulk(frames_of(cmd))
    &&& frames_of(cmd).len() == cmd.len()
    &&& forall|i: int| 0 <= i < cmd.len() ==> #[trigger] frames_of(cmd)[i] == frame_of(cmd[i])
}

pub open spec fn command_name(cmd: Seq<Value>) -> Seq<u8> {
    bulk(frames_of(cmd)[0])
}

/// A spelling matches at most one name.
proof fn lemma_one_name(x: Seq<u8>, a: Seq<u8>)
    requires
        names(x, a),
    ensures
        forall|b: Seq<u8>| #[trigger] names(x, b) ==> b == a,
        set_name() != get_name() && set_name() != del_name() && get_name() != del_name(),
{
    assert forall|b: Seq<u8>| #[trigger] names(x, b) implies b == a by {
        assert forall|i: int| 0 <= i < b.len() implies b[i] == a[i] by {
            assert(upper(x[i]) == a[i]);
        }
        assert(b =~= a);
    }
    assert(set_name()[0] != get_name()[0]);
    assert(set_name()[0] != del_name()[0]);
    assert(get_name()[0] != del_name()[0]);
}

fn is_name(arg: &Vec<u8>, name: &[u8]) -> (r: bool)
    ensures
        r == names(arg@, name@),
{
    if arg.len() != name.len() {
        return false;
    }
    let mut i: usize = 0;
    while i < arg.len()
        invariant
            arg.len() == name.len(),
            i <= arg.len(),
            forall|j: int| 0 <= j < i ==> upper(#[trigger] arg@[j]) == name@[j],
        decreases arg.len() - i,
    {
        let c = arg[i];
        let u = if 97 <= c && c <= 122 {
            c - 32
        } else {
            c
        };
        if u != name[i] {
            return false;
        }
        i = i + 1;
    }
    true
}

/// The text of a bulk string argument, when it is UTF-8.
fn extract_string(value: &Value) -> (r: Option<String>)
    ensures
        match value@ {
            Frame::Bulk(b) => (r is Some <==> valid_utf8(b)) && (r is Some ==> r->0@ == decode_utf8(b)),
            _ => r is None,
        },
{
    match value {
        Value::BulkString(bs) => text_from_utf8(copy_range(bs.as_slice(), 0, bs.len())),
        _ => None,
    }
}

/// The bytes of a bulk string argument.
fn extract_bytes(value: &Value) -> (r: Option<Vec<u8>>)
    ensures
        match value@ {
            Frame::Bulk(b) => r is Some && r->0@ == b,
            _ => r is None,
        },
{
    match value {
        Value::BulkString(bs) => Some(copy_range(bs.as_slice(), 0, bs.len())),
        _ => None,
    }
}

fn deadline_after(now: u64, secs: u64) -> (r: u64)
    ensures
        r == deadline(now, secs as nat),
{
    let t: u128 = (now as u128) + (secs as u128) * 1_000_000_000u128;
    if t > u64::MAX as u128 {
        u64::MAX
    } else {
        t as u64
    }
}

pub fn handle_set(db: &mut Database, cmd: &[Value], now: u64) -> (r: Option<CommandResult>)
    requires
        old(db).wf(),
        bulk_request(cmd@),
        names(command_name(cmd@), set_name()),
    ensures
        final(db).wf(),
        executes(request_of(frames_of(cmd@)), r, old(db).data(), old(db).subscribers(), final(db).data(), final(db).subscribers(), now),
{
    proof {
        lemma_one_name(command_name(cmd@), set_name());
    }
    let n = cmd.len();
    if n != 3 && n != 5 {
        return None;
    }
    if n == 5 {
        match extract_bytes(&cmd[3]) {
            Some(option) => {
                if !same_bytes(option.as_slice(), &[69u8, 88u8]) {
                    return None;
                }
            },
            None => {
                return None;
            },
        }
    }
    if extract_string(&cmd[1]).is_none() {
        return None;
    }
    let key = match extract_bytes(&cmd[1]) {
        Some(k) => k,
        None => {
            return None;
        },
    };
    let value = match extract_bytes(&cmd[2]) {
        Some(v) => v,
        None => {
            return None;
        },
    };
    let mut expiry: Option<u64> = None;
    if n == 5 {
        match extract_bytes(&cmd[4]) {
            Some(text) => match parse_u64_text(&text) {
                Some(secs) => {
                    expiry = Some(deadline_after(now, secs));
                },
                None => {},
            },
            None => {},
        }
    }
    db.put(key, DbValue { data: DataType::String(value), expiry });
    let reply = Value::SimpleString("OK".to_owned());
    Some(CommandResult::Value(reply))
}

pub fn handle_get(db: &mut Database, cmd: &[Value], now: u64) -> (r: Option<CommandResult>)
    requires
        old(db).wf(),
        bulk_request(cmd@),
        names(command_name(cmd@), get_name()),
    ensures
        final(db).wf(),
        executes(request_of(frames_of(cmd@)), r, old(db).data(), old(db).subscribers(), final(db).data(), final(db).subscribers(), now),
{
    proof {
        lemma_one_name(command_name(cmd@), get_name());
    }
    if cmd.len() != 2 || extract_string(&cmd[1]).is_none() {
        return None;
    }
    let key = match extract_bytes(&cmd[1]) {
        Some(k) => k,
        None => {
            return None;
        },
    };
    let reply = match db.get(&key, now) {
        Some(DataType::String(b)) => Value::BulkString(b),
        Some(DataType::List(_)) => Value::Null,
        None => Value::Null,
    };
    assert(final(db).data() =~= after_get(old(db).data(), key@, now));
    Some(CommandResult::Value(reply))
}

pub fn handle_del(db: &mut Database, cmd: &[Value], now: u64) -> (r: Option<CommandResult>)
    requires
        old(db).wf(),
        bulk_request(cmd@),
        names(command_name(cmd@), del_name()),
    ensures
        final(db).wf(),
        executes(request_of(frames_of(cmd@)), r, old(db).data(), old(db).subscribers(), final(db).data(), final(db).subscribers(), now),
{
    proof {
        lemma_one_name(command_name(cmd@), del_name());
    }
    if cmd.len() != 2 || extract_string(&cmd[1]).is_none() {
        return None;
    }
    let key = match extract_bytes(&cmd[1]) {
        Some(k) => k,
        None => {
            return None;
        },
    };
    let count = db.delete(&key);
    Some(CommandResult::Value(Value::Integer(count as i64)))
}

pub fn handle_subscribe(db: &Database, cmd: &[Value], now: u64) -> (r: Option<CommandResult>)
    requires
        db.wf(),
        bulk_request(cmd@),
        names(command_name(cmd@), subscribe_name()),
    ensures
        executes(request_of(frames_of(cmd@)), r, db.data(), db.subscribers(), db.data(), db.subscribers(), now),
{
    proof {
        lemma_one_name(command_name(cmd@), subscribe_name());
    }
    if cmd.len() != 2 {
        return None;
    }
    match extract_string(&cmd[1]) {
        Some(channel) => Some(CommandResult::Subscribe(channel)),
        None => None,
    }
}

pub fn handle_publish(db: &mut Database, cmd: &[Value], now: u64) -> (r: Option<CommandResult>)
    requires
        old(db).wf(),
        bulk_request(cmd@),
        names(command_name(cmd@), publish_name()),
    ensures
        final(db).wf(),
        executes(request_of(frames_of(cmd@)), r, old(db).data(), old(db).subscribers(), final(db).data(), final(db).subscribers(), now),
{
    proof {
        lemma_one_name(command_name(cmd@), publish_name());
    }
    if cmd.len() != 3 || extract_string(&cmd[1]).is_none() {
        return None;
    }
    let channel = match extract_bytes(&cmd[1]) {
        Some(c) => c,
        None => {
            return None;
        },
    };
    let message = match extract_bytes(&cmd[2]) {
        Some(m) => m,
        None => {
            return None;
        },
    };
    let count = db.publish(&channel, &message);
    let n: i64 = if count as u64 > i64::MAX as u64 {
        i64::MAX
    } else {
        count as i64
    };
    Some(CommandResult::Value(Value::Integer(n)))
}

/// Executes one request array against `db` at time `now` (nanoseconds on the
/// caller's monotonic clock). Gives `None` when the array is not a recognised
/// command form.
pub fn handle_command(db: &mut Database, cmd: &[Value], now: u64) -> (r: Option<CommandResult>)
    requires
        old(db).wf(),
    ensures
        final(db).wf(),
        executes(request_of(frames_of(cmd@)), r, old(db).data(), old(db).subscribers(), final(db).data(), final(db).subscribers(), now),
{
    proof {
        lemma_frames_of(cmd@);
    }
    let ghost args = frames_of(cmd@);
    if cmd.len() == 0 {
        return None;
    }
    let mut i: usize = 0;
    while i < cmd.len()
        invariant
            i <= cmd.len(),
            args == frames_of(cmd@),
            args.len() == cmd.len(),
            forall|j: int| 0 <= j < cmd.len() ==> #[trigger] args[j] == frame_of(cmd@[j]),
            forall|j: int| 0 <= j < i ==> #[trigger] args[j] is Bulk,
            db.wf(),
            *db == *old(db),
        decreases cmd.len() - i,
    {
        if !matches!(cmd[i], Value::BulkString(_)) {
            assert(!(args[i as int] is Bulk));
            return None;
        }
        i = i + 1;
    }
    let name = match &cmd[0] {
        Value::BulkString(b) => b,
        _ => {
            return None;
        },
    };
    assert(name@ == command_name(cmd@));
    if is_name(name, &[80u8, 73u8, 78u8, 71u8]) {
        if cmd.len() == 1 {
            Some(CommandResult::Value(Value::SimpleString("PONG".to_owned())))
        } else {
            None
        }
    } else if is_name(name, &[83u8, 69u8, 84u8]) {
        handle_set(db, cmd, now)
    } else if is_name(name, &[71u8, 69u8, 84u8]) {
        handle_get(db, cmd, now)
    } else if is_name(name, &[68u8, 69u8, 76u8]) {
        handle_del(db, cmd, now)
    } else if is_name(name, &[83u8, 85u8, 66u8, 83u8, 67u8, 82u8, 73u8, 66u8, 69u8]) {
        handle_subscribe(db, cmd, now)
    } else if is_name(name, &[80u8, 85u8, 66u8, 76u8, 73u8, 83u8, 72u8]) {
        handle_publish(db, cmd, now)
    } else {
        None
    }
}

// ---------------------------------------------------------------------------
// Laws of the keyspace commands
// ---------------------------------------------------------------------------

/// Write-then-read: after `SET k v` at `t`, a `GET k` at any `t2` up to the
/// deadline (at any time when no time to live was given) replies with `v` and
/// leaves the keyspace as it was.
pub proof fn lemma_write_then_read(
    m: Map<Seq<u8>, Stored>,
    k: Seq<u8>,
    v: Seq<u8>,
    ttl: Option<nat>,
    t: u64,
    t2: u64,
)
    requires
        ttl matches Some(secs) ==> t2 <= deadline(t, secs),
    ensures
        get_reply(after_set(m, k, v, ttl, t), k, t2) == Frame::Bulk(v),
        after_get(after_set(m, k, v, ttl, t), k, t2) == after_set(m, k, v, ttl, t),
{
}

/// Write-then-read holds until `k` itself changes: `SET`, `DEL` and `GET` on
/// another key leave the reply to `GET k` as it was.
pub proof fn lemma_other_keys_undisturbed(
    m: Map<Seq<u8>, Stored>,
    k: Seq<u8>,
    k2: Seq<u8>,
    v2: Seq<u8>,
    ttl: Option<nat>,
    t: u64,
    now: u64,
)
    requires
        k2 != k,
    ensures
        get_reply(after_set(m, k2, v2, ttl, t), k, now) == get_reply(m, k, now),
        get_reply(after_del(m, k2), k, now) == get_reply(m, k, now),
        get_reply(after_get(m, k2, t), k, now) == get_reply(m, k, now),
{
}

/// Delete idempotence: when `DEL k` removed an entry, a second `DEL k` removes
/// nothing and `GET k` replies `Null`.
pub proof fn lemma_delete_idempotent(m: Map<Seq<u8>, Stored>, k: Seq<u8>, now: u64)
    requires
        del_reply(m, k) == Frame::Int(1),
    ensures
        del_reply(after_del(m, k), k) == Frame::Int(0),
        get_reply(after_del(m, k), k, now) == Frame::Nil,
{
}

/// Lazy expiry: `GET k` on an entry that is expired at `now` replies `Null` and
/// removes the entry.
pub proof fn lemma_expired_entry_read(m: Map<Seq<u8>, Stored>, k: Seq<u8>, now: u64)
    requires
        m.contains_key(k),
        expired(m[k], now),
    ensures
        get_reply(m, k, now) == Frame::Nil,
        !after_get(m, k, now).contains_key(k),
{
}

/// Lazy expiry: after `SET k v EX 0` at `t`, a `GET k` at any later `t2`
/// replies `Null` and leaves no entry for `k`.
pub proof fn lemma_zero_ttl_expires(m: Map<Seq<u8>, Stored>, k: Seq<u8>, v: Seq<u8>, t: u64, t2: u64)
    requires
        t2 > t,
    ensures
        get_reply(after_set(m, k, v, Some(0), t), k, t2) == Frame::Nil,
        !after_get(after_set(m, k, v, Some(0), t), k, t2).contains_key(k),
{
    lemma_expired_entry_read(after_set(m, k, v, Some(0), t), k, t2);
}

/// Slow-subscriber eviction: when every subscriber of `c` refused a message,
/// the next `PUBLISH` on `c` replies 0.
pub proof fn lemma_refusing_channel_empties(
    s0: Map<Seq<u8>, Seq<tokio::sync::mpsc::Sender<Vec<u8>>>>,
    c: Seq<u8>,
    delivered: Seq<bool>,
)
    requires
        s0.contains_key(c),
        delivered.len() == s0[c].len(),
        forall|i: int| 0 <= i < delivered.len() ==> !#[trigger] delivered[i],
    ensures
        publish_count(subscribers_of(s0.insert(c, kept(s0[c], delivered)), c).len()) == 0,
{
    lemma_failed_offers_evicted(s0[c], delivered);
}

/// Fan-out: with every offer accepted, `PUBLISH` on `c` replies with the number
/// of subscribers and keeps them all.
pub proof fn lemma_publish_fan_out(
    s0: Map<Seq<u8>, Seq<tokio::sync::mpsc::Sender<Vec<u8>>>>,
    c: Seq<u8>,
    delivered: Seq<bool>,
)
    requires
        s0.contains_key(c),
        s0[c].len() <= i64::MAX,
        delivered.len() == s0[c].len(),
        forall|i: int| 0 <= i < delivered.len() ==> #[trigger] delivered[i],
    ensures
        publish_count(subscribers_of(s0, c).len()) == s0[c].len(),
        s0.insert(c, kept(s0[c], delivered)) == s0,
{
    lemma_fan_out_keeps_all(s0[c], delivered);
    assert(s0.insert(c, kept(s0[c], delivered)) =~= s0);
}

} // verus!
