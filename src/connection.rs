//! The decisions of a connection: what to do with the bytes received so far,
//! and the frames written in subscriber mode. Reading and writing the socket is
//! left to the caller.

use vstd::prelude::*;
use vstd::utf8::*;
use crate::commands::{CommandResult, executes, handle_command, request_of};
use crate::db::Database;
use crate::resp::{Frame, Parsed, Value, copy_range, frame_at_front, frames_of, lemma_frames_of, parse_value};

verus! {

/// Capacity of the queue that feeds a subscriber.
pub const SUBSCRIBER_QUEUE_CAPACITY: usize = 100;

/// How many keys each round of active expiry looks at.
pub const EXPIRE_SAMPLE_SIZE: usize = 20;

/// Interval between two rounds of active expiry, in milliseconds.
pub const EXPIRE_INTERVAL_MS: u64 = 100;

/// What the connection does after looking at its buffer.
#[derive(Debug)]
pub enum Step {
    /// No complete frame yet: read more bytes.
    Wait,
    /// The buffer does not start with a well-framed value: close the connection.
    Close,
    /// A frame other than an array was read and dropped.
    Ignored,
    /// A request array was executed, with this result.
    Executed(Option<CommandResult>),
}

/// Takes the frame at the front of `buf`, if there is a complete one, and
/// executes it at time `now`.
pub fn connection_step(db: &mut Database, buf: &mut Vec<u8>, now: u64) -> (r: Step)
    requires
        old(db).wf(),
    ensures
        final(db).wf(),
        match frame_at_front(old(buf)@) {
            Parsed::Incomplete => r is Wait && final(buf)@ == old(buf)@ && final(db).data() == old(db).data()
                && final(db).subscribers() == old(db).subscribers(),
            Parsed::Invalid => r is Close && final(buf)@ == old(buf)@ && final(db).data() == old(db).data()
                && final(db).subscribers() == old(db).subscribers(),
            Parsed::Done(f, e) => final(buf)@ == old(buf)@.subrange(e, old(buf)@.len() as int) && match f {
                Frame::Arr(items) => r matches Step::Executed(res) && executes(
                    request_of(items),
                    res,
                    old(db).data(),
                    old(db).subscribers(),
                    final(db).data(),
                    final(db).subscribers(),
                    now,
                ),
                _ => r is Ignored && final(db).data() == old(db).data() && final(db).subscribers() == old(
                    db,
                ).subscribers(),
            },
        },
{
    match parse_value(buf) {
        Ok(Value::Array(items)) => {
            let res = handle_command(db, items.as_slice(), now);
            Step::Executed(res)
        },
        Ok(_) => Step::Ignored,
        Err(crate::resp::ParseError::Incomplete) => Step::Wait,
        Err(crate::resp::ParseError::InvalidFormat) => Step::Close,
    }
}

/// `subscribe`
pub open spec fn subscribe_word() -> Seq<u8> {
    seq![115u8, 117u8, 98u8, 115u8, 99u8, 114u8, 105u8, 98u8, 101u8]
}

/// `message`
pub open spec fn message_word() -> Seq<u8> {
    seq![109u8, 101u8, 115u8, 115u8, 97u8, 103u8, 101u8]
}

fn text_bytes(s: &String) -> (r: Vec<u8>)
    ensures
        r@ == encode_utf8(s@),
{
    let b = s.as_str().as_bytes();
    copy_range(b, 0, b.len())
}

fn three(a: Value, b: Value, c: Value) -> (r: Value)
    ensures
        r@ == Frame::Arr(seq![a@, b@, c@]),
{
    let mut items: Vec<Value> = Vec::new();
    items.push(a);
    items.push(b);
    items.push(c);
    proof {
        lemma_frames_of(items@);
    }
    let r = Value::Array(items);
    assert(frames_of(items@) =~= seq![a@, b@, c@]);
    r
}

/// The frame that confirms a subscription to `channel`.
pub fn subscribe_confirmation(channel: &String) -> (r: Value)
    ensures
        r@ == Frame::Arr(seq![Frame::Bulk(subscribe_word()), Frame::Bulk(encode_utf8(channel@)), Frame::Int(1)]),
{
    let word: Vec<u8> = vec![115u8, 117u8, 98u8, 115u8, 99u8, 114u8, 105u8, 98u8, 101u8];
    assert(word@ =~= subscribe_word());
    three(Value::BulkString(word), Value::BulkString(text_bytes(channel)), Value::Integer(1))
}

/// The frame that carries a published `message` to a subscriber of `channel`.
pub fn message_frame(channel: &String, message: &Vec<u8>) -> (r: Value)
    ensures
        r@ == Frame::Arr(seq![Frame::Bulk(message_word()), Frame::Bulk(encode_utf8(channel@)), Frame::Bulk(message@)]),
{
    let word: Vec<u8> = vec![109u8, 101u8, 115u8, 115u8, 97u8, 103u8, 101u8];
    assert(word@ =~= message_word());
    three(Value::BulkString(word), Value::BulkString(text_bytes(channel)), Value::BulkString(copy_range(message.as_slice(), 0, message.len())))
}

} // verus!
