use redust::commands::{handle_command, handle_del, handle_get, handle_publish, CommandResult};
use redust::connection::{connection_step, message_frame, subscribe_confirmation, Step};
use redust::db::{new_db, Database, DbValue};
use redust::resp::{serialize_value, Value};

fn bulk(s: &str) -> Value {
    Value::BulkString(s.as_bytes().to_vec())
}

fn cmd(parts: &[&str]) -> Vec<Value> {
    parts.iter().map(|p| bulk(p)).collect()
}

const NOW: u64 = 1_000_000_000_000;

#[test]
fn test_set_get() {
    let mut db = new_db();
    let c = cmd(&["SET", "key", "value"]);
    let resp = handle_command(&mut db, &c, NOW);
    assert_eq!(resp, Some(CommandResult::Value(Value::SimpleString("OK".to_string()))));

    let cmd_get = cmd(&["GET", "key"]);
    let resp_get = handle_command(&mut db, &cmd_get, NOW);
    assert_eq!(resp_get, Some(CommandResult::Value(Value::BulkString(b"value".to_vec()))));
}

#[test]
fn test_set_with_ttl() {
    let mut db = new_db();
    let c = cmd(&["SET", "key", "value", "EX", "1"]);
    let resp = handle_command(&mut db, &c, NOW);
    assert_eq!(resp, Some(CommandResult::Value(Value::SimpleString("OK".to_string()))));

    // Check expiry is set
    if let Some(db_val) = db.lookup(&b"key".to_vec()) {
        assert!(db_val.expiry.is_some());
        assert_eq!(db_val.expiry, Some(NOW + 1_000_000_000));
    } else {
        panic!("Key not found");
    }
}

#[test]
fn test_get_expired() {
    let mut db = new_db();
    // Manually insert expired value
    let mut val = DbValue::new_string(b"value".to_vec());
    val.expiry = Some(NOW - 1_000_000_000);
    db.put(b"key".to_vec(), val);

    let cmd_get = cmd(&["GET", "key"]);
    let resp_get = handle_command(&mut db, &cmd_get, NOW);
    assert_eq!(resp_get, Some(CommandResult::Value(Value::Null)));
}

#[test]
fn test_del() {
    let mut db = new_db();
    handle_command(&mut db, &cmd(&["SET", "key", "value"]), NOW);

    let resp = handle_command(&mut db, &cmd(&["DEL", "key"]), NOW);
    assert_eq!(resp, Some(CommandResult::Value(Value::Integer(1))));

    let resp_get = handle_command(&mut db, &cmd(&["GET", "key"]), NOW);
    assert_eq!(resp_get, Some(CommandResult::Value(Value::Null)));
}

#[test]
fn test_ping() {
    let mut db = new_db();
    let resp = handle_command(&mut db, &cmd(&["PING"]), NOW);
    assert_eq!(resp, Some(CommandResult::Value(Value::SimpleString("PONG".to_string()))));
}

#[test]
fn names_match_up_to_ascii_case() {
    let mut db = new_db();
    assert_eq!(
        handle_command(&mut db, &cmd(&["pInG"]), NOW),
        Some(CommandResult::Value(Value::SimpleString("PONG".to_string())))
    );
    handle_command(&mut db, &cmd(&["set", "k", "v"]), NOW);
    assert_eq!(
        handle_command(&mut db, &cmd(&["Get", "k"]), NOW),
        Some(CommandResult::Value(bulk("v")))
    );
}

#[test]
fn malformed_commands_get_no_reply() {
    let mut db = new_db();
    assert_eq!(handle_command(&mut db, &[], NOW), None);
    assert_eq!(handle_command(&mut db, &cmd(&["FLUSHALL"]), NOW), None);
    assert_eq!(handle_command(&mut db, &cmd(&["PING", "x"]), NOW), None);
    assert_eq!(handle_command(&mut db, &cmd(&["GET"]), NOW), None);
    assert_eq!(handle_command(&mut db, &cmd(&["GET", "a", "b"]), NOW), None);
    assert_eq!(handle_command(&mut db, &cmd(&["SET", "k"]), NOW), None);
    assert_eq!(handle_command(&mut db, &cmd(&["SET", "k", "v", "EX"]), NOW), None);
    assert_eq!(handle_command(&mut db, &cmd(&["SET", "k", "v", "PX", "5"]), NOW), None);
    assert_eq!(handle_command(&mut db, &[Value::Integer(1)], NOW), None);
    assert_eq!(handle_command(&mut db, &[bulk("GET"), Value::Integer(1)], NOW), None);
    assert_eq!(
        handle_command(&mut db, &[bulk("GET"), Value::BulkString(vec![0xff, 0xfe])], NOW),
        None
    );
    assert!(db.lookup(&b"k".to_vec()).is_none());
}

#[test]
fn unparsable_ttl_stores_immortal_entry() {
    let mut db = new_db();
    for ttl in ["soon", "-1", "18446744073709551616"] {
        let resp = handle_command(&mut db, &cmd(&["SET", "k", "v", "EX", ttl]), NOW);
        assert_eq!(resp, Some(CommandResult::Value(Value::SimpleString("OK".to_string()))));
        assert_eq!(db.lookup(&b"k".to_vec()).unwrap().expiry, None);
    }
}

#[test]
fn huge_ttl_saturates() {
    let mut db = new_db();
    handle_command(&mut db, &cmd(&["SET", "k", "v", "EX", "18446744073709551615"]), NOW);
    assert_eq!(db.lookup(&b"k".to_vec()).unwrap().expiry, Some(u64::MAX));
}

#[test]
fn write_then_read_until_deadline() {
    let mut db = new_db();
    handle_command(&mut db, &cmd(&["SET", "k", "v", "EX", "10"]), NOW);
    let deadline = NOW + 10_000_000_000;
    assert_eq!(
        handle_command(&mut db, &cmd(&["GET", "k"]), deadline),
        Some(CommandResult::Value(bulk("v")))
    );
    assert_eq!(
        handle_command(&mut db, &cmd(&["GET", "k"]), deadline + 1),
        Some(CommandResult::Value(Value::Null))
    );
}

#[test]
fn delete_is_idempotent() {
    let mut db = new_db();
    handle_command(&mut db, &cmd(&["SET", "k", "v"]), NOW);
    assert_eq!(handle_command(&mut db, &cmd(&["DEL", "k"]), NOW), Some(CommandResult::Value(Value::Integer(1))));
    assert_eq!(handle_command(&mut db, &cmd(&["DEL", "k"]), NOW), Some(CommandResult::Value(Value::Integer(0))));
    assert_eq!(handle_command(&mut db, &cmd(&["GET", "k"]), NOW), Some(CommandResult::Value(Value::Null)));
}

#[test]
fn zero_ttl_expires_lazily() {
    let mut db = new_db();
    handle_command(&mut db, &cmd(&["SET", "k", "v", "EX", "0"]), NOW);
    assert!(db.lookup(&b"k".to_vec()).is_some());
    assert_eq!(handle_command(&mut db, &cmd(&["GET", "k"]), NOW + 1), Some(CommandResult::Value(Value::Null)));
    assert!(db.lookup(&b"k".to_vec()).is_none());
}

#[test]
fn subscribe_switches_mode() {
    let mut db = new_db();
    assert_eq!(
        handle_command(&mut db, &cmd(&["SUBSCRIBE", "news"]), NOW),
        Some(CommandResult::Subscribe("news".to_string()))
    );
    assert_eq!(handle_command(&mut db, &cmd(&["SUBSCRIBE"]), NOW), None);
}

fn subscribed(db: &mut Database, channel: &str) -> tokio::sync::mpsc::Receiver<Vec<u8>> {
    let (tx, rx) = tokio::sync::mpsc::channel(redust::connection::SUBSCRIBER_QUEUE_CAPACITY);
    db.subscribe(channel.as_bytes().to_vec(), tx);
    rx
}

#[test]
fn publish_fans_out_to_every_subscriber() {
    let mut db = new_db();
    let mut a = subscribed(&mut db, "ch");
    let mut b = subscribed(&mut db, "ch");
    let _other = subscribed(&mut db, "elsewhere");
    assert_eq!(
        handle_command(&mut db, &cmd(&["PUBLISH", "ch", "hi"]), NOW),
        Some(CommandResult::Value(Value::Integer(2)))
    );
    assert_eq!(a.try_recv().unwrap(), b"hi".to_vec());
    assert_eq!(b.try_recv().unwrap(), b"hi".to_vec());
    assert!(a.try_recv().is_err());
    assert!(b.try_recv().is_err());
    assert_eq!(
        handle_command(&mut db, &cmd(&["PUBLISH", "nobody", "hi"]), NOW),
        Some(CommandResult::Value(Value::Integer(0)))
    );
}

#[test]
fn slow_subscriber_is_evicted() {
    let mut db = new_db();
    let _slow = subscribed(&mut db, "ch");
    for _ in 0..100 {
        assert_eq!(db.publish(&b"ch".to_vec(), &b"m".to_vec()), 1);
    }
    // The queue is full: the count is taken before the drop.
    assert_eq!(db.publish(&b"ch".to_vec(), &b"m".to_vec()), 1);
    assert_eq!(db.publish(&b"ch".to_vec(), &b"m".to_vec()), 0);
}

#[test]
fn closed_subscriber_is_evicted() {
    let mut db = new_db();
    let gone = subscribed(&mut db, "ch");
    drop(gone);
    let mut live = subscribed(&mut db, "ch");
    assert_eq!(db.publish(&b"ch".to_vec(), &b"x".to_vec()), 2);
    assert_eq!(db.publish(&b"ch".to_vec(), &b"y".to_vec()), 1);
    assert_eq!(live.try_recv().unwrap(), b"x".to_vec());
    assert_eq!(live.try_recv().unwrap(), b"y".to_vec());
}

fn run(db: &mut Database, wire: &[u8]) -> Vec<u8> {
    let mut buf = wire.to_vec();
    match connection_step(db, &mut buf, NOW) {
        Step::Executed(Some(CommandResult::Value(v))) => serialize_value(&v),
        other => panic!("unexpected {:?}", other),
    }
}

#[test]
fn wire_scenarios() {
    let mut db = new_db();
    assert_eq!(run(&mut db, b"*1\r\n$4\r\nPING\r\n"), b"+PONG\r\n".to_vec());
    assert_eq!(run(&mut db, b"*3\r\n$3\r\nSET\r\n$1\r\nk\r\n$1\r\nv\r\n"), b"+OK\r\n".to_vec());
    assert_eq!(run(&mut db, b"*2\r\n$3\r\nGET\r\n$1\r\nk\r\n"), b"$1\r\nv\r\n".to_vec());
    assert_eq!(run(&mut db, b"*2\r\n$3\r\nGET\r\n$1\r\nx\r\n"), b"$-1\r\n".to_vec());
    assert_eq!(run(&mut db, b"*2\r\n$3\r\nDEL\r\n$1\r\nk\r\n"), b":1\r\n".to_vec());
}

#[test]
fn wire_publish_scenario() {
    let mut db = new_db();
    let mut a = subscribed(&mut db, "ch");
    let mut b = subscribed(&mut db, "ch");
    assert_eq!(run(&mut db, b"*3\r\n$7\r\nPUBLISH\r\n$2\r\nch\r\n$2\r\nhi\r\n"), b":2\r\n".to_vec());
    let expected = b"*3\r\n$7\r\nmessage\r\n$2\r\nch\r\n$2\r\nhi\r\n".to_vec();
    for rx in [&mut a, &mut b] {
        let m = rx.try_recv().unwrap();
        assert_eq!(serialize_value(&message_frame(&"ch".to_string(), &m)), expected);
    }
}

#[test]
fn subscribe_confirmation_frame() {
    assert_eq!(
        serialize_value(&subscribe_confirmation(&"ch".to_string())),
        b"*3\r\n$9\r\nsubscribe\r\n$2\r\nch\r\n:1\r\n".to_vec()
    );
}

#[test]
fn connection_step_outcomes() {
    let mut db = new_db();
    let mut partial = b"*1\r\n$4\r\nPI".to_vec();
    assert!(matches!(connection_step(&mut db, &mut partial, NOW), Step::Wait));
    assert_eq!(partial, b"*1\r\n$4\r\nPI".to_vec());
    partial.extend_from_slice(b"NG\r\n:5\r\n");
    assert!(matches!(
        connection_step(&mut db, &mut partial, NOW),
        Step::Executed(Some(CommandResult::Value(Value::SimpleString(_))))
    ));
    assert!(matches!(connection_step(&mut db, &mut partial, NOW), Step::Ignored));
    assert!(partial.is_empty());
    let mut bad = b"hello\r\n".to_vec();
    assert!(matches!(connection_step(&mut db, &mut bad, NOW), Step::Close));
    let mut unknown = b"*1\r\n$4\r\nNOPE\r\n".to_vec();
    assert!(matches!(connection_step(&mut db, &mut unknown, NOW), Step::Executed(None)));
}

#[test]
fn other_keys_do_not_disturb_a_read() {
    let mut db = new_db();
    handle_command(&mut db, &cmd(&["SET", "k", "v"]), NOW);
    handle_command(&mut db, &cmd(&["SET", "k2", "w"]), NOW);
    handle_command(&mut db, &cmd(&["DEL", "k2"]), NOW);
    handle_command(&mut db, &cmd(&["GET", "k3"]), NOW);
    assert_eq!(handle_command(&mut db, &cmd(&["GET", "k"]), NOW), Some(CommandResult::Value(bulk("v"))));
}

#[test]
fn handlers_called_directly() {
    let mut db = new_db();
    handle_command(&mut db, &cmd(&["SET", "k", "v"]), NOW);
    assert_eq!(handle_get(&mut db, &cmd(&["GET", "k"]), NOW), Some(CommandResult::Value(bulk("v"))));
    assert_eq!(handle_del(&mut db, &cmd(&["DEL", "k"]), NOW), Some(CommandResult::Value(Value::Integer(1))));
    assert_eq!(handle_del(&mut db, &cmd(&["DEL", "k"]), NOW), Some(CommandResult::Value(Value::Integer(0))));
    assert_eq!(handle_get(&mut db, &cmd(&["GET", "k"]), NOW), Some(CommandResult::Value(Value::Null)));
    assert_eq!(
        handle_publish(&mut db, &cmd(&["PUBLISH", "c", "m"]), NOW),
        Some(CommandResult::Value(Value::Integer(0)))
    );
}
