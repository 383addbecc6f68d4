//! The RESP frame codec: a resumable decoder and a canonical encoder.

use vstd::prelude::*;
use vstd::utf8::*;

verus! {

broadcast use vstd::seq::group_seq_axioms;

/// Why a buffer did not yield a frame.
#[derive(Debug, Clone, Copy, PartialEq, Eq, Structural)]
pub enum ParseError {
    /// The buffer holds the start of a frame but not all of it yet.
    Incomplete,
    /// The buffer does not start with a well-framed value.
    InvalidFormat,
}

/// A RESP value.
#[derive(Debug)]
pub enum Value {
    SimpleString(String),
    Error(String),
    Integer(i64),
    BulkString(Vec<u8>),
    Array(Vec<Value>),
    Null,
}

/// The mathematical content of a `Value`.
pub enum Frame {
    Simple(Seq<char>),
    Fault(Seq<char>),
    Int(int),
    Bulk(Seq<u8>),
    Arr(Seq<Frame>),
    Nil,
}

pub open spec fn frame_of(v: Value) -> Frame
    decreases v,
{
    match v {
        Value::SimpleString(s) => Frame::Simple(s@),
        Value::Error(s) => Frame::Fault(s@),
        Value::Integer(n) => Frame::Int(n as int),
        Value::BulkString(b) => Frame::Bulk(b@),
        Value::Array(a) => Frame::Arr(frames_of(a@)),
        Value::Null => Frame::Nil,
    }
}

pub open spec fn frames_of(s: Seq<Value>) -> Seq<Frame>
    decreases s,
{
    if s.len() == 0 {
        Seq::empty()
    } else {
        frames_of(s.subrange(0, s.len() - 1)).push(frame_of(s[s.len() - 1]))
    }
}

impl View for Value {
    type V = Frame;

    open spec fn view(&self) -> Frame {
        frame_of(*self)
    }
}

pub proof fn lemma_frames_of(s: Seq<Value>)
    ensures
        frames_of(s).len() == s.len(),
        forall|i: int| 0 <= i < s.len() ==> #[trigger] frames_of(s)[i] == frame_of(s[i]),
    decreases s.len(),
{
    if s.len() > 0 {
        lemma_frames_of(s.subrange(0, s.len() - 1));
    }
}

// ---------------------------------------------------------------------------
// Encoding
// ---------------------------------------------------------------------------

pub open spec fn crlf() -> Seq<u8> {
    seq![13u8, 10u8]
}

/// Decimal digits of a natural number, most significant first, no leading zeros.
pub open spec fn nat_digits(n: nat) -> Seq<u8>
    decreases n,
{
    if n < 10 {
        seq![(48 + n) as u8]
    } else {
        nat_digits(n / 10).push((48 + n % 10) as u8)
    }
}

/// Canonical decimal text of an integer.
pub open spec fn int_digits(n: int) -> Seq<u8> {
    if n < 0 {
        seq![45u8] + nat_digits((-n) as nat)
    } else {
        nat_digits(n as nat)
    }
}

/// The canonical wire form of a frame. `Nil` is written as the null bulk string.
pub open spec fn frame_bytes(f: Frame) -> Seq<u8>
    decreases f,
{
    match f {
        Frame::Simple(s) => seq![43u8] + encode_utf8(s) + crlf(),
        Frame::Fault(s) => seq![45u8] + encode_utf8(s) + crlf(),
        Frame::Int(n) => seq![58u8] + int_digits(n) + crlf(),
        Frame::Bulk(b) => seq![36u8] + nat_digits(b.len()) + crlf() + b + crlf(),
        Frame::Arr(items) => seq![42u8] + nat_digits(items.len()) + crlf() + items_bytes(items),
        Frame::Nil => seq![36u8, 45u8, 49u8, 13u8, 10u8],
    }
}

/// The wire forms of a sequence of frames, one after the other.
pub open spec fn items_bytes(items: Seq<Frame>) -> Seq<u8>
    decreases items,
{
    if items.len() == 0 {
        Seq::empty()
    } else {
        items_bytes(items.subrange(0, items.len() - 1)) + frame_bytes(items[items.len() - 1])
    }
}

// ---------------------------------------------------------------------------
// Decoding
// ---------------------------------------------------------------------------

/// Number of bytes from `pos` up to the first CR (or to the end of `b` when there is none).
pub open spec fn cr_offset(b: Seq<u8>, pos: int) -> nat
    decreases b.len() - pos,
{
    if pos >= b.len() {
        0
    } else if b[pos] == 13 {
        0
    } else {
        1 + cr_offset(b, pos + 1)
    }
}

pub open spec fn is_digits(s: Seq<u8>) -> bool {
    s.len() > 0 && forall|i: int| 0 <= i < s.len() ==> 48 <= #[trigger] s[i] <= 57
}

pub open spec fn digits_value(s: Seq<u8>) -> nat
    decreases s.len(),
{
    if s.len() == 0 {
        0
    } else {
        digits_value(s.drop_last()) * 10 + (s.last() - 48) as nat
    }
}

/// A decimal integer line as std's integer parsing reads it: an optional sign, then digits.
pub open spec fn signed_decimal(s: Seq<u8>) -> Option<int> {
    if s.len() > 0 && s[0] == 45 {
        if is_digits(s.drop_first()) {
            Some(-(digits_value(s.drop_first()) as int))
        } else {
            None
        }
    } else if s.len() > 0 && s[0] == 43 {
        if is_digits(s.drop_first()) {
            Some(digits_value(s.drop_first()) as int)
        } else {
            None
        }
    } else if is_digits(s) {
        Some(digits_value(s) as int)
    } else {
        None
    }
}

/// A decimal line that fits an `i64`.
pub open spec fn line_i64(s: Seq<u8>) -> Option<int> {
    match signed_decimal(s) {
        Some(n) => if i64::MIN <= n <= i64::MAX {
            Some(n)
        } else {
            None
        },
        None => None,
    }
}

/// A decimal line that fits a `usize` (no minus sign).
pub open spec fn line_usize(s: Seq<u8>) -> Option<nat> {
    if s.len() > 0 && s[0] == 45 {
        None
    } else {
        match signed_decimal(s) {
            Some(n) => if 0 <= n <= usize::MAX {
                Some(n as nat)
            } else {
                None
            },
            None => None,
        }
    }
}

/// The outcome of reading one frame.
pub enum Parsed {
    /// A frame, and the position just past it.
    Done(Frame, int),
    Incomplete,
    Invalid,
}

pub open spec fn is_tag(t: u8) -> bool {
    t == 43 || t == 45 || t == 58 || t == 36 || t == 42
}

/// Reads one frame of `b` starting at `pos`.
pub open spec fn parse_at(b: Seq<u8>, pos: int) -> Parsed
    decreases b.len() - pos, 0int,
{
    if pos < 0 || pos >= b.len() {
        Parsed::Incomplete
    } else if !is_tag(b[pos]) {
        Parsed::Invalid
    } else {
        let tag = b[pos];
        let cr = pos + 1 + cr_offset(b, pos + 1);
        if cr + 1 >= b.len() {
            Parsed::Incomplete
        } else if b[cr + 1] != 10 {
            Parsed::Invalid
        } else {
            let line = b.subrange(pos + 1, cr);
            let next = cr + 2;
            if tag == 43 || tag == 45 {
                if valid_utf8(line) {
                    if tag == 43 {
                        Parsed::Done(Frame::Simple(decode_utf8(line)), next)
                    } else {
                        Parsed::Done(Frame::Fault(decode_utf8(line)), next)
                    }
                } else {
                    Parsed::Invalid
                }
            } else if tag == 58 {
                match line_i64(line) {
                    Some(n) => Parsed::Done(Frame::Int(n), next),
                    None => Parsed::Invalid,
                }
            } else if line == seq![45u8, 49u8] {
                Parsed::Done(Frame::Nil, next)
            } else {
                match line_usize(line) {
                    None => Parsed::Invalid,
                    Some(n) => if tag == 36 {
                        bulk_at(b, next, n as int)
                    } else {
                        parse_items(b, next, n, Seq::empty())
                    },
                }
            }
        }
    }
}

/// Reads the `n` payload bytes of a bulk string starting at `next`, and the CRLF after them.
pub open spec fn bulk_at(b: Seq<u8>, next: int, n: int) -> Parsed {
    if b.len() - next < n + 2 {
        Parsed::Incomplete
    } else if b[next + n] == 13 && b[next + n + 1] == 10 {
        Parsed::Done(Frame::Bulk(b.subrange(next, next + n)), next + n + 2)
    } else {
        Parsed::Invalid
    }
}

/// Reads `count` more array elements starting at `p`, after the elements `acc`.
pub open spec fn parse_items(b: Seq<u8>, p: int, count: nat, acc: Seq<Frame>) -> Parsed
    decreases b.len() - p, count + 1,
{
    if count == 0 {
        Parsed::Done(Frame::Arr(acc), p)
    } else {
        match parse_at(b, p) {
            Parsed::Done(f, e) => if p < e <= b.len() {
                parse_items(b, e, (count - 1) as nat, acc.push(f))
            } else {
                Parsed::Invalid
            },
            other => other,
        }
    }
}

/// What decoding the front of `b` gives.
pub open spec fn frame_at_front(b: Seq<u8>) -> Parsed {
    parse_at(b, 0)
}

pub open spec fn outcome(r: Result<(Value, usize), ParseError>) -> Parsed {
    match r {
        Ok((v, e)) => Parsed::Done(v@, e as int),
        Err(ParseError::Incomplete) => Parsed::Incomplete,
        Err(ParseError::InvalidFormat) => Parsed::Invalid,
    }
}

/// Relies on `String::from_utf8`: it accepts exactly the well-formed UTF-8 byte
/// sequences, and the string it returns holds the characters that the bytes encode.
#[verifier::external_body]
pub(crate) fn text_from_utf8(bytes: Vec<u8>) -> (r: Option<String>)
    ensures
        r is Some <==> valid_utf8(bytes@),
        r is Some ==> r->0@ == decode_utf8(bytes@),
{
    String::from_utf8(bytes).ok()
}

pub(crate) fn copy_range(buf: &[u8], start: usize, end: usize) -> (r: Vec<u8>)
    requires
        start <= end <= buf.len(),
    ensures
        r@ == buf@.subrange(start as int, end as int),
        start == 0 && end == buf.len() ==> r@ == buf@,
{
    let mut r: Vec<u8> = Vec::new();
    let mut i: usize = start;
    while i < end
        invariant
            start <= i <= end <= buf.len(),
            r@ == buf@.subrange(start as int, i as int),
        decreases end - i,
    {
        r.push(buf[i]);
        i = i + 1;
    }
    assert(buf@.subrange(0, buf@.len() as int) =~= buf@);
    r
}

/// Position of the first CR at or after `start`, or the length of `buf`.
fn find_cr(buf: &Vec<u8>, start: usize) -> (r: usize)
    requires
        start <= buf.len(),
    ensures
        r == start + cr_offset(buf@, start as int),
{
    let mut i: usize = start;
    while i < buf.len() && buf[i] != 13
        invariant
            start <= i <= buf.len(),
            cr_offset(buf@, start as int) == (i - start) + cr_offset(buf@, i as int),
        decreases buf.len() - i,
    {
        i = i + 1;
    }
    i
}

/// The value of the digits `buf[start..end]` when they are all digits and the value is at most `limit`.
fn read_digits(buf: &Vec<u8>, start: usize, end: usize, limit: u64) -> (r: Option<u64>)
    requires
        start <= end <= buf.len(),
    ensures
        ({
            let s = buf@.subrange(start as int, end as int);
            match r {
                Some(v) => is_digits(s) && v == digits_value(s) && v <= limit,
                None => !is_digits(s) || digits_value(s) > limit,
            }
        }),
{
    if start == end {
        return None;
    }
    let mut acc: u64 = 0;
    let mut over = false;
    let mut i: usize = start;
    while i < end
        invariant
            start <= i <= end <= buf.len(),
            forall|j: int| start <= j < i ==> 48 <= #[trigger] buf@[j] <= 57,
            !over ==> acc == digits_value(buf@.subrange(start as int, i as int)) && acc <= limit,
            over ==> digits_value(buf@.subrange(start as int, i as int)) > limit,
        decreases end - i,
    {
        let c = buf[i];
        if c < 48 || c > 57 {
            proof {
                let s = buf@.subrange(start as int, end as int);
                assert(s[i - start] == c);
            }
            return None;
        }
        proof {
            let s1 = buf@.subrange(start as int, i as int + 1);
            assert(s1.drop_last() =~= buf@.subrange(start as int, i as int));
            assert(s1.last() == c);
        }
        if !over {
            let next: u128 = (acc as u128) * 10 + ((c - 48) as u128);
            if next > limit as u128 {
                over = true;
            } else {
                acc = next as u64;
            }
        }
        i = i + 1;
    }
    proof {
        let s = buf@.subrange(start as int, end as int);
        assert forall|j: int| 0 <= j < s.len() implies 48 <= #[trigger] s[j] <= 57 by {
            assert(s[j] == buf@[start + j]);
        }
    }
    if over {
        None
    } else {
        Some(acc)
    }
}

fn parse_i64_line(buf: &Vec<u8>, start: usize, end: usize) -> (r: Option<i64>)
    requires
        start <= end <= buf.len(),
    ensures
        ({
            let s = buf@.subrange(start as int, end as int);
            match r {
                Some(n) => line_i64(s) == Some(n as int),
                None => line_i64(s) is None,
            }
        }),
{
    let ghost s = buf@.subrange(start as int, end as int);
    if start < end && (buf[start] == 45 || buf[start] == 43) {
        assert(s.drop_first() =~= buf@.subrange(start + 1, end as int));
        if buf[start] == 45 {
            match read_digits(buf, start + 1, end, 9223372036854775808u64) {
                Some(m) => if m == 9223372036854775808u64 {
                    Some(i64::MIN)
                } else {
                    Some(-(m as i64))
                },
                None => None,
            }
        } else {
            match read_digits(buf, start + 1, end, 9223372036854775807u64) {
                Some(m) => Some(m as i64),
                None => None,
            }
        }
    } else {
        match read_digits(buf, start, end, 9223372036854775807u64) {
            Some(m) => Some(m as i64),
            None => None,
        }
    }
}

fn parse_usize_line(buf: &Vec<u8>, start: usize, end: usize) -> (r: Option<usize>)
    requires
        start <= end <= buf.len(),
    ensures
        ({
            let s = buf@.subrange(start as int, end as int);
            match r {
                Some(n) => line_usize(s) == Some(n as nat),
                None => line_usize(s) is None,
            }
        }),
{
    let ghost s = buf@.subrange(start as int, end as int);
    if start < end && buf[start] == 45 {
        return None;
    }
    let first = if start < end && buf[start] == 43 {
        assert(s.drop_first() =~= buf@.subrange(start + 1, end as int));
        start + 1
    } else {
        start
    };
    match read_digits(buf, first, end, usize::MAX as u64) {
        Some(m) => Some(m as usize),
        None => None,
    }
}

/// A decimal line that fits a `u64` (no minus sign).
pub open spec fn line_u64(s: Seq<u8>) -> Option<nat> {
    if s.len() > 0 && s[0] == 45 {
        None
    } else {
        match signed_decimal(s) {
            Some(n) => if 0 <= n <= u64::MAX {
                Some(n as nat)
            } else {
                None
            },
            None => None,
        }
    }
}

/// Reads `text` as a decimal `u64`, as std's integer parsing does.
pub fn parse_u64_text(text: &Vec<u8>) -> (r: Option<u64>)
    ensures
        match r {
            Some(n) => line_u64(text@) == Some(n as nat),
            None => line_u64(text@) is None,
        },
{
    let ghost s = text@;
    assert(text@.subrange(0, text@.len() as int) =~= s);
    let end = text.len();
    if 0 < end && text[0] == 45 {
        return None;
    }
    let first: usize = if 0 < end && text[0] == 43 {
        assert(s.drop_first() =~= text@.subrange(1, end as int));
        1
    } else {
        0
    };
    read_digits(text, first, end, u64::MAX)
}

/// Finds the end of the line that starts at `start`: the position of its CR,
/// which must be followed by LF.
fn read_line(buf: &Vec<u8>, start: usize) -> (r: Result<usize, ParseError>)
    requires
        start <= buf.len(),
    ensures
        ({
            let cr = start + cr_offset(buf@, start as int);
            if cr + 1 >= buf.len() {
                r == Err::<usize, ParseError>(ParseError::Incomplete)
            } else if buf@[cr + 1] != 10 {
                r == Err::<usize, ParseError>(ParseError::InvalidFormat)
            } else {
                r == Ok::<usize, ParseError>(cr as usize)
            }
        }),
{
    let cr = find_cr(buf, start);
    if cr >= buf.len() || cr + 1 >= buf.len() {
        return Err(ParseError::Incomplete);
    }
    if buf[cr + 1] != 10 {
        return Err(ParseError::InvalidFormat);
    }
    Ok(cr)
}

/// Reads the `n` payload bytes of a bulk string at `next` and the CRLF after them.
fn parse_bulk_string(buf: &Vec<u8>, next: usize, n: usize) -> (r: Result<(Value, usize), ParseError>)
    requires
        next <= buf.len(),
    ensures
        outcome(r) == bulk_at(buf@, next as int, n as int),
        r matches Ok((_, e)) ==> next < e <= buf.len(),
{
    if buf.len() - next < 2 || buf.len() - next - 2 < n {
        Err(ParseError::Incomplete)
    } else if buf[next + n] == 13 && buf[next + n + 1] == 10 {
        let data = copy_range(buf.as_slice(), next, next + n);
        Ok((Value::BulkString(data), next + n + 2))
    } else {
        Err(ParseError::InvalidFormat)
    }
}

/// Reads the `n` elements of an array starting at `next`.
fn parse_array(buf: &Vec<u8>, next: usize, n: usize) -> (r: Result<(Value, usize), ParseError>)
    requires
        next <= buf.len(),
    ensures
        outcome(r) == parse_items(buf@, next as int, n as nat, Seq::empty()),
        r matches Ok((_, e)) ==> next <= e <= buf.len(),
    decreases buf.len() - next, 1int,
{
    let ghost b = buf@;
    let mut items: Vec<Value> = Vec::new();
    let mut p: usize = next;
    let mut k: usize = 0;
    assert(frames_of(items@) =~= Seq::<Frame>::empty());
    while k < n
        invariant
            next <= p <= buf.len(),
            k <= n,
            b == buf@,
            parse_items(b, next as int, n as nat, Seq::empty()) == parse_items(
                b,
                p as int,
                (n - k) as nat,
                frames_of(items@),
            ),
        decreases n - k,
    {
        match parse_from(buf, p) {
            Ok((v, e)) => {
                proof {
                    let old_items = items@;
                    assert(old_items.push(v).subrange(0, old_items.len() as int) =~= old_items);
                }
                items.push(v);
                p = e;
                k = k + 1;
            },
            Err(x) => {
                return Err(x);
            },
        }
    }
    Ok((Value::Array(items), p))
}

/// Reads one frame of `buf` starting at `pos`.
fn parse_from(buf: &Vec<u8>, pos: usize) -> (r: Result<(Value, usize), ParseError>)
    requires
        pos <= buf.len(),
    ensures
        outcome(r) == parse_at(buf@, pos as int),
        r matches Ok((_, e)) ==> pos < e <= buf.len(),
    decreases buf.len() - pos, 0int,
{
    let ghost b = buf@;
    if pos >= buf.len() {
        return Err(ParseError::Incomplete);
    }
    let tag = buf[pos];
    if !(tag == 43 || tag == 45 || tag == 58 || tag == 36 || tag == 42) {
        return Err(ParseError::InvalidFormat);
    }
    let cr = match read_line(buf, pos + 1) {
        Ok(cr) => cr,
        Err(x) => {
            return Err(x);
        },
    };
    let next = cr + 2;
    let ghost line = b.subrange(pos + 1, cr as int);
    if tag == 43 || tag == 45 {
        let bytes = copy_range(buf.as_slice(), pos + 1, cr);
        match text_from_utf8(bytes) {
            Some(text) => {
                if tag == 43 {
                    Ok((Value::SimpleString(text), next))
                } else {
                    Ok((Value::Error(text), next))
                }
            },
            None => Err(ParseError::InvalidFormat),
        }
    } else if tag == 58 {
        match parse_i64_line(buf, pos + 1, cr) {
            Some(n) => Ok((Value::Integer(n), next)),
            None => Err(ParseError::InvalidFormat),
        }
    } else if cr == pos + 3 && buf[pos + 1] == 45 && buf[pos + 2] == 49 {
        assert(line =~= seq![45u8, 49u8]);
        Ok((Value::Null, next))
    } else {
        assert(line != seq![45u8, 49u8]) by {
            if line == seq![45u8, 49u8] {
                assert(line.len() == 2);
                assert(line[0] == buf@[pos + 1]);
                assert(line[1] == buf@[pos + 2]);
            }
        }
        match parse_usize_line(buf, pos + 1, cr) {
            None => Err(ParseError::InvalidFormat),
            Some(n) => {
                if tag == 36 {
                    parse_bulk_string(buf, next, n)
                } else {
                    parse_array(buf, next, n)
                }
            },
        }
    }
}

/// Decodes the frame at the front of `buf`, giving the value and the number of bytes it takes.
pub fn decode(buf: &Vec<u8>) -> (r: Result<(Value, usize), ParseError>)
    ensures
        outcome(r) == frame_at_front(buf@),
{
    parse_from(buf, 0)
}

/// Decodes the frame at the front of `buf` and removes its bytes. On `Incomplete`
/// and `InvalidFormat` the buffer is left as it was.
pub fn parse_value(buf: &mut Vec<u8>) -> (r: Result<Value, ParseError>)
    ensures
        match frame_at_front(old(buf)@) {
            Parsed::Done(f, e) => r matches Ok(v) && v@ == f && final(buf)@ == old(buf)@.subrange(e, old(buf)@.len() as int),
            Parsed::Incomplete => r == Err::<Value, ParseError>(ParseError::Incomplete) && final(buf)@ == old(buf)@,
            Parsed::Invalid => r == Err::<Value, ParseError>(ParseError::InvalidFormat) && final(buf)@ == old(buf)@,
        },
{
    match parse_from(buf, 0) {
        Ok((v, e)) => {
            let rest = copy_range(buf.as_slice(), e, buf.len());
            *buf = rest;
            Ok(v)
        },
        Err(x) => Err(x),
    }
}

// ---------------------------------------------------------------------------
// Equality
// ---------------------------------------------------------------------------

/// Byte-for-byte equality.
pub(crate) fn same_bytes(a: &[u8], b: &[u8]) -> (r: bool)
    ensures
        r == (a@ == b@),
{
    if a.len() != b.len() {
        return false;
    }
    let mut i: usize = 0;
    while i < a.len()
        invariant
            a.len() == b.len(),
            i <= a.len(),
            forall|j: int| 0 <= j < i ==> a@[j] == b@[j],
        decreases a.len() - i,
    {
        if a[i] != b[i] {
            return false;
        }
        i = i + 1;
    }
    assert(a@ =~= b@);
    true
}

fn value_eq(a: &Value, b: &Value) -> (r: bool)
    ensures
        r == (a@ == b@),
    decreases a,
{
    match a {
        Value::SimpleString(x) => match b {
            Value::SimpleString(y) => x.eq(y),
            _ => false,
        },
        Value::Error(x) => match b {
            Value::Error(y) => x.eq(y),
            _ => false,
        },
        Value::Integer(x) => match b {
            Value::Integer(y) => *x == *y,
            _ => false,
        },
        Value::BulkString(x) => match b {
            Value::BulkString(y) => same_bytes(x.as_slice(), y.as_slice()),
            _ => false,
        },
        Value::Null => match b {
            Value::Null => true,
            _ => false,
        },
        Value::Array(x) => match b {
            Value::Array(y) => {
                proof {
                    lemma_frames_of(x@);
                    lemma_frames_of(y@);
                }
                assert(a@ == Frame::Arr(frames_of(x@)));
                assert(b@ == Frame::Arr(frames_of(y@)));
                if x.len() != y.len() {
                    return false;
                }
                let mut i: usize = 0;
                while i < x.len()
                    invariant
                        x.len() == y.len(),
                        i <= x.len(),
                        *a == Value::Array(*x),
                        a@ == Frame::Arr(frames_of(x@)),
                        b@ == Frame::Arr(frames_of(y@)),
                        frames_of(x@).len() == x.len(),
                        frames_of(y@).len() == y.len(),
                        forall|j: int| 0 <= j < i ==> frame_of(#[trigger] x@[j]) == frame_of(y@[j]),
                        forall|j: int| 0 <= j < x.len() ==> #[trigger] frames_of(x@)[j] == frame_of(x@[j]),
                        forall|j: int| 0 <= j < y.len() ==> #[trigger] frames_of(y@)[j] == frame_of(y@[j]),
                    decreases x.len() - i,
                {
                    proof {
                        assert(decreases_to!(*a => (*a)->Array_0));
                        assert(decreases_to!(*x => x@));
                        assert(decreases_to!(x@ => x@[i as int]));
                    }
                    if !value_eq(&x[i], &y[i]) {
                        assert(frames_of(x@)[i as int] != frames_of(y@)[i as int]);
                        return false;
                    }
                    i = i + 1;
                }
                assert(frames_of(x@) =~= frames_of(y@));
                true
            },
            _ => false,
        },
    }
}

impl PartialEq for Value {
    fn eq(&self, other: &Value) -> (r: bool)
        ensures
            r == (self@ == other@),
    {
        value_eq(self, other)
    }
}

impl vstd::std_specs::cmp::PartialEqSpecImpl for Value {
    open spec fn obeys_eq_spec() -> bool {
        true
    }

    open spec fn eq_spec(&self, other: &Value) -> bool {
        self@ == other@
    }
}

// ---------------------------------------------------------------------------
// Encoding (executable)
// ---------------------------------------------------------------------------

fn push_slice(out: &mut Vec<u8>, bytes: &[u8])
    ensures
        final(out)@ == old(out)@ + bytes@,
{
    let ghost start = out@;
    let mut i: usize = 0;
    while i < bytes.len()
        invariant
            i <= bytes.len(),
            out@ == start + bytes@.subrange(0, i as int),
        decreases bytes.len() - i,
    {
        out.push(bytes[i]);
        i = i + 1;
        assert(out@ =~= start + bytes@.subrange(0, i as int));
    }
    assert(bytes@.subrange(0, bytes@.len() as int) =~= bytes@);
}

fn push_digits(out: &mut Vec<u8>, m: u64)
    ensures
        final(out)@ == old(out)@ + nat_digits(m as nat),
    decreases m,
{
    if m >= 10 {
        push_digits(out, m / 10);
    }
    let d: u8 = (m % 10) as u8;
    out.push(48 + d);
    proof {
        if m >= 10 {
            assert(nat_digits(m as nat) == nat_digits((m / 10) as nat).push((48 + m % 10) as u8));
        }
    }
    assert(final(out)@ =~= old(out)@ + nat_digits(m as nat));
}

fn push_crlf(out: &mut Vec<u8>)
    ensures
        final(out)@ == old(out)@ + crlf(),
{
    out.push(13);
    out.push(10);
    assert(final(out)@ =~= old(out)@ + crlf());
}

fn encode_into(v: &Value, out: &mut Vec<u8>)
    ensures
        final(out)@ == old(out)@ + frame_bytes(v@),
    decreases v,
{
    let ghost start = out@;
    match v {
        Value::SimpleString(s) => {
            out.push(43);
            push_slice(out, s.as_str().as_bytes());
            push_crlf(out);
        },
        Value::Error(s) => {
            out.push(45);
            push_slice(out, s.as_str().as_bytes());
            push_crlf(out);
        },
        Value::Integer(n) => {
            out.push(58);
            if *n < 0 {
                out.push(45);
                let m: u64 = if *n == i64::MIN {
                    9223372036854775808u64
                } else {
                    (-*n) as u64
                };
                push_digits(out, m);
                assert(int_digits(*n as int) == seq![45u8] + nat_digits(m as nat));
            } else {
                push_digits(out, *n as u64);
            }
            push_crlf(out);
        },
        Value::BulkString(b) => {
            out.push(36);
            push_digits(out, b.len() as u64);
            push_crlf(out);
            push_slice(out, b.as_slice());
            push_crlf(out);
        },
        Value::Array(items) => {
            out.push(42);
            push_digits(out, items.len() as u64);
            push_crlf(out);
            let ghost head = out@;
            assert(*v == Value::Array(*items));
            proof {
                lemma_frames_of(items@);
                assert(frames_of(items@).subrange(0, 0) =~= Seq::<Frame>::empty());
                assert(head =~= head + items_bytes(frames_of(items@).subrange(0, 0)));
            }
            let mut i: usize = 0;
            while i < items.len()
                invariant
                    i <= items.len(),
                    *v == Value::Array(*items),
                    frames_of(items@).len() == items.len(),
                    forall|j: int| 0 <= j < items.len() ==> #[trigger] frames_of(items@)[j] == frame_of(items@[j]),
                    out@ == head + items_bytes(frames_of(items@).subrange(0, i as int)),
                decreases items.len() - i,
            {
                proof {
                    assert(decreases_to!(*v => (*v)->Array_0));
                    assert(decreases_to!(*items => items@));
                    assert(decreases_to!(items@ => items@[i as int]));
                }
                encode_into(&items[i], out);
                proof {
                    let fs = frames_of(items@);
                    assert(fs.subrange(0, i + 1).subrange(0, i as int) =~= fs.subrange(0, i as int));
                }
                i = i + 1;
                assert(out@ =~= head + items_bytes(frames_of(items@).subrange(0, i as int)));
            }
            assert(frames_of(items@).subrange(0, items.len() as int) =~= frames_of(items@));
        },
        Value::Null => {
            out.push(36);
            out.push(45);
            out.push(49);
            out.push(13);
            out.push(10);
        },
    }
    assert(out@ =~= start + frame_bytes(v@));
}

/// The canonical RESP bytes of `v`; `Null` is written as the null bulk string.
pub fn serialize_value(v: &Value) -> (r: Vec<u8>)
    ensures
        r@ == frame_bytes(v@),
{
    let mut out: Vec<u8> = Vec::new();
    encode_into(v, &mut out);
    assert(out@ =~= frame_bytes(v@));
    out
}

// ---------------------------------------------------------------------------
// Laws of the codec
// ---------------------------------------------------------------------------

/// A frame the encoder writes so that the decoder reads it back: text holds no
/// CR or LF, and every length fits a `usize`.
pub open spec fn well_formed(f: Frame) -> bool
    decreases f,
{
    match f {
        Frame::Simple(s) => !s.contains('\r') && !s.contains('\n'),
        Frame::Fault(s) => !s.contains('\r') && !s.contains('\n'),
        Frame::Int(n) => i64::MIN <= n <= i64::MAX,
        Frame::Bulk(b) => b.len() <= usize::MAX,
        Frame::Arr(items) => items.len() <= usize::MAX && all_well_formed(items),
        Frame::Nil => true,
    }
}

pub open spec fn all_well_formed(items: Seq<Frame>) -> bool
    decreases items,
{
    if items.len() == 0 {
        true
    } else {
        all_well_formed(items.subrange(0, items.len() - 1)) && well_formed(items[items.len() - 1])
    }
}

proof fn lemma_all_well_formed(items: Seq<Frame>, k: int)
    requires
        all_well_formed(items),
        0 <= k < items.len(),
    ensures
        well_formed(items[k]),
    decreases items.len(),
{
    if k < items.len() - 1 {
        let front = items.subrange(0, items.len() - 1);
        lemma_all_well_formed(front, k);
        assert(front[k] == items[k]);
    }
}

pub open spec fn no_cr(s: Seq<u8>) -> bool {
    forall|k: int| 0 <= k < s.len() ==> #[trigger] s[k] != 13
}

pub open spec fn frame_tag(f: Frame) -> u8 {
    match f {
        Frame::Simple(_) => 43u8,
        Frame::Fault(_) => 45u8,
        Frame::Int(_) => 58u8,
        Frame::Bulk(_) => 36u8,
        Frame::Arr(_) => 42u8,
        Frame::Nil => 36u8,
    }
}

pub open spec fn frame_line(f: Frame) -> Seq<u8> {
    match f {
        Frame::Simple(s) => encode_utf8(s),
        Frame::Fault(s) => encode_utf8(s),
        Frame::Int(n) => int_digits(n),
        Frame::Bulk(b) => nat_digits(b.len()),
        Frame::Arr(items) => nat_digits(items.len()),
        Frame::Nil => seq![45u8, 49u8],
    }
}

pub open spec fn frame_body(f: Frame) -> Seq<u8> {
    match f {
        Frame::Bulk(b) => b + crlf(),
        Frame::Arr(items) => items_bytes(items),
        _ => Seq::empty(),
    }
}

proof fn lemma_frame_shape(f: Frame)
    ensures
        frame_bytes(f) =~= seq![frame_tag(f)] + frame_line(f) + crlf() + frame_body(f),
{
}

proof fn lemma_nat_digits(n: nat)
    ensures
        is_digits(nat_digits(n)),
        digits_value(nat_digits(n)) == n,
        no_cr(nat_digits(n)),
    decreases n,
{
    let s = nat_digits(n);
    if n < 10 {
        assert(s.drop_last() =~= Seq::<u8>::empty());
        assert(s.last() == (48 + n) as u8);
        assert(digits_value(Seq::<u8>::empty()) == 0);
        assert(digits_value(s) == digits_value(s.drop_last()) * 10 + (s.last() - 48) as nat);
    } else {
        lemma_nat_digits(n / 10);
        assert(s.drop_last() =~= nat_digits(n / 10));
        assert(s.last() == (48 + n % 10) as u8);
        assert(((48 + n % 10) as u8) as int == 48 + n % 10);
        assert(digits_value(s) == digits_value(s.drop_last()) * 10 + (s.last() - 48) as nat);
        assert((n / 10) * 10 + n % 10 == n);
        assert forall|k: int| 0 <= k < s.len() implies 48 <= #[trigger] s[k] <= 57 by {
            if k < s.len() - 1 {
                assert(s[k] == nat_digits(n / 10)[k]);
            }
        }
    }
}

proof fn lemma_line_numbers(f: Frame)
    requires
        well_formed(f),
    ensures
        no_cr(frame_line(f)),
        f is Int ==> line_i64(frame_line(f)) == Some(f->Int_0),
        f is Bulk ==> line_usize(frame_line(f)) == Some(f->Bulk_0.len()),
        f is Arr ==> line_usize(frame_line(f)) == Some(f->Arr_0.len()),
        (f is Bulk || f is Arr) ==> frame_line(f) != seq![45u8, 49u8],
{
    match f {
        Frame::Int(n) => {
            if n < 0 {
                lemma_nat_digits((-n) as nat);
                let s = int_digits(n);
                assert(s.drop_first() =~= nat_digits((-n) as nat));
                assert forall|k: int| 0 <= k < s.len() implies #[trigger] s[k] != 13 by {
                    if k > 0 {
                        assert(s[k] == nat_digits((-n) as nat)[k - 1]);
                    }
                }
            } else {
                lemma_nat_digits(n as nat);
            }
        },
        Frame::Bulk(b) => {
            lemma_nat_digits(b.len());
        },
        Frame::Arr(items) => {
            lemma_nat_digits(items.len());
        },
        Frame::Nil => {},
        _ => {
            lemma_text_no_cr(f);
        },
    }
}

proof fn lemma_high_bytes(x: u8)
    by (bit_vector)
    ensures
        (0x80u8 | x) != 13u8,
        (0xC0u8 | x) != 13u8,
        (0xE0u8 | x) != 13u8,
        (0xF0u8 | x) != 13u8,
{
}

proof fn lemma_ascii_byte(c: u32)
    by (bit_vector)
    requires
        c <= 0x7F,
        c != 13,
    ensures
        (c & 0x7F) as u8 != 13u8,
{
}

proof fn lemma_scalar_no_cr(c: char)
    requires
        c != '\r',
    ensures
        no_cr(encode_scalar(c as u32)),
{
    let u = c as u32;
    char_is_scalar(c);
    if u == 13 {
        char_u32_cast(c, u);
        char_u32_cast('\r', '\r' as u32);
        assert(false);
    }
    lemma_high_bytes(((u >> 6) & 0x1F) as u8);
    lemma_high_bytes(((u >> 12) & 0x0F) as u8);
    lemma_high_bytes(((u >> 18) & 0x7) as u8);
    lemma_high_bytes((u & 0x3F) as u8);
    lemma_high_bytes(((u >> 6) & 0x3F) as u8);
    lemma_high_bytes(((u >> 12) & 0x3F) as u8);
    if has_width_1_encoding(u) {
        lemma_ascii_byte(u);
    }
}

proof fn lemma_utf8_no_cr(s: Seq<char>)
    requires
        !s.contains('\r'),
    ensures
        no_cr(encode_utf8(s)),
    decreases s.len(),
{
    if s.len() > 0 {
        let rest = s.drop_first();
        assert(!rest.contains('\r')) by {
            if rest.contains('\r') {
                let k = choose|k: int| 0 <= k < rest.len() && rest[k] == '\r';
                assert(s[k + 1] == '\r');
            }
        }
        lemma_utf8_no_cr(rest);
        assert(s[0] != '\r');
        lemma_scalar_no_cr(s[0]);
        let e = encode_scalar(s[0] as u32);
        let all = encode_utf8(s);
        assert(all == e + encode_utf8(rest));
        assert forall|k: int| 0 <= k < all.len() implies #[trigger] all[k] != 13 by {
            if k < e.len() {
                assert(all[k] == e[k]);
            } else {
                assert(all[k] == encode_utf8(rest)[k - e.len()]);
            }
        }
    }
}

proof fn lemma_text_no_cr(f: Frame)
    requires
        well_formed(f),
        f is Simple || f is Fault,
    ensures
        no_cr(frame_line(f)),
{
    match f {
        Frame::Simple(s) => lemma_utf8_no_cr(s),
        Frame::Fault(s) => lemma_utf8_no_cr(s),
        _ => {},
    }
}

/// `cr_offset` finds the CR that ends a line with no CR in it.
proof fn lemma_cr_scan(b: Seq<u8>, q: int, n: int)
    requires
        0 <= q,
        0 <= n,
        q + n <= b.len(),
        forall|k: int| q <= k < q + n ==> b[k] != 13,
        q + n == b.len() || b[q + n] == 13,
    ensures
        cr_offset(b, q) == n,
    decreases n,
{
    if n > 0 {
        lemma_cr_scan(b, q + 1, n - 1);
    }
}

pub open spec fn prefix_len(items: Seq<Frame>, k: int) -> int {
    items_bytes(items.subrange(0, k)).len() as int
}

proof fn lemma_items_prefix(items: Seq<Frame>, k: int, m: int)
    requires
        0 <= k <= m <= items.len(),
    ensures
        items_bytes(items.subrange(0, m)).subrange(0, prefix_len(items, k)) == items_bytes(
            items.subrange(0, k),
        ),
        prefix_len(items, k) <= prefix_len(items, m),
    decreases m - k,
{
    if k < m {
        lemma_items_prefix(items, k, m - 1);
        let s = items.subrange(0, m);
        assert(s.subrange(0, m - 1) =~= items.subrange(0, m - 1));
        let whole = items_bytes(s);
        assert(whole == items_bytes(items.subrange(0, m - 1)) + frame_bytes(items[m - 1]));
        assert(whole.subrange(0, prefix_len(items, k)) =~= items_bytes(items.subrange(0, m - 1)).subrange(
            0,
            prefix_len(items, k),
        ));
    } else {
        assert(items_bytes(items.subrange(0, m)).subrange(0, prefix_len(items, k)) =~= items_bytes(
            items.subrange(0, k),
        ));
    }
}

proof fn lemma_item_at(items: Seq<Frame>, k: int)
    requires
        0 <= k < items.len(),
    ensures
        prefix_len(items, k + 1) == prefix_len(items, k) + frame_bytes(items[k]).len(),
        items_bytes(items).subrange(prefix_len(items, k), prefix_len(items, k + 1)) == frame_bytes(
            items[k],
        ),
{
    let s = items.subrange(0, k + 1);
    assert(s.subrange(0, k) =~= items.subrange(0, k));
    assert(s[k] == items[k]);
    lemma_items_prefix(items, k + 1, items.len() as int);
    assert(items.subrange(0, items.len() as int) =~= items);
    let whole = items_bytes(items);
    let pre = items_bytes(s);
    assert(whole.subrange(0, prefix_len(items, k + 1)) == pre);
    assert(whole.subrange(prefix_len(items, k), prefix_len(items, k + 1)) =~= pre.subrange(
        prefix_len(items, k),
        prefix_len(items, k + 1),
    ));
    assert(pre.subrange(prefix_len(items, k), prefix_len(items, k + 1)) =~= frame_bytes(items[k]));
}

proof fn lemma_frame_nonempty(f: Frame)
    ensures
        frame_bytes(f).len() >= 3,
{
    lemma_frame_shape(f);
}

pub open spec fn arr_measure(f: Frame) -> nat {
    match f {
        Frame::Arr(items) => items.len() + 1,
        _ => 0,
    }
}

/// A complete encoding at `p` decodes to its frame and ends where the encoding ends.
proof fn lemma_parse_complete(b: Seq<u8>, p: int, f: Frame)
    requires
        well_formed(f),
        0 <= p,
        p + frame_bytes(f).len() <= b.len(),
        b.subrange(p, p + frame_bytes(f).len()) == frame_bytes(f),
    ensures
        parse_at(b, p) == Parsed::Done(f, p + frame_bytes(f).len()),
    decreases f, arr_measure(f),
{
    let fb = frame_bytes(f);
    let line = frame_line(f);
    lemma_frame_shape(f);
    lemma_line_numbers(f);
    let cr = p + 1 + line.len();
    assert(b[p] == fb[0]);
    assert forall|k: int| p + 1 <= k < cr implies b[k] != 13 by {
        assert(b[k] == fb[k - p]);
        assert(fb[k - p] == line[k - p - 1]);
    }
    assert(b[cr] == fb[cr - p]);
    assert(b[cr + 1] == fb[cr + 1 - p]);
    lemma_cr_scan(b, p + 1, line.len() as int);
    assert forall|k: int| 0 <= k < line.len() implies b.subrange(p + 1, cr)[k] == line[k] by {
        assert(b[p + 1 + k] == fb[1 + k]);
    }
    assert(b.subrange(p + 1, cr) =~= line);
    let next = cr + 2;
    match f {
        Frame::Simple(s) => {
            encode_utf8_valid_utf8(s);
            encode_utf8_decode_utf8(s);
        },
        Frame::Fault(s) => {
            encode_utf8_valid_utf8(s);
            encode_utf8_decode_utf8(s);
        },
        Frame::Int(_) => {},
        Frame::Nil => {},
        Frame::Bulk(d) => {
            let n = d.len() as int;
            assert(b[next + n] == fb[next + n - p]);
            assert(b[next + n + 1] == fb[next + n + 1 - p]);
            assert forall|k: int| 0 <= k < n implies b.subrange(next, next + n)[k] == d[k] by {
                assert(b[next + k] == fb[next - p + k]);
            }
            assert(b.subrange(next, next + n) =~= d);
        },
        Frame::Arr(items) => {
            let n = items.len() as int;
            assert(items.subrange(0, n) =~= items);
            let body = items_bytes(items);
            assert forall|k: int| 0 <= k < body.len() implies b.subrange(next, next + body.len())[k] == body[k] by {
                assert(b[next + k] == fb[next - p + k]);
            }
            assert(b.subrange(next, next + prefix_len(items, n)) =~= items_bytes(items));
            assert(items.subrange(0, 0) =~= Seq::<Frame>::empty());
            lemma_parse_items_complete(b, next, f, 0);
            assert(items.subrange(0, n) =~= items);
        },
    }
}

proof fn lemma_parse_items_complete(b: Seq<u8>, q: int, f: Frame, k: int)
    requires
        f is Arr,
        well_formed(f),
        0 <= q,
        0 <= k <= f->Arr_0.len(),
        q + prefix_len(f->Arr_0, f->Arr_0.len() as int) <= b.len(),
        b.subrange(q, q + prefix_len(f->Arr_0, f->Arr_0.len() as int)) == items_bytes(f->Arr_0),
    ensures
        parse_items(b, q + prefix_len(f->Arr_0, k), (f->Arr_0.len() - k) as nat, f->Arr_0.subrange(0, k))
            == Parsed::Done(
            Frame::Arr(f->Arr_0.subrange(0, f->Arr_0.len() as int)),
            q + prefix_len(f->Arr_0, f->Arr_0.len() as int),
        ),
    decreases f, f->Arr_0.len() - k,
{
    let items = f->Arr_0;
    let n = items.len() as int;
    assert(f == Frame::Arr(items));
    if k < n {
        lemma_item_at(items, k);
        lemma_items_prefix(items, k + 1, n);
        assert(items.subrange(0, n) =~= items);
        let start = q + prefix_len(items, k);
        let end = q + prefix_len(items, k + 1);
        let whole = items_bytes(items);
        assert(b.subrange(start, end) =~= whole.subrange(prefix_len(items, k), prefix_len(items, k + 1)));
        lemma_all_well_formed(items, k);
        assert(decreases_to!(f => f->Arr_0));
        assert(decreases_to!(items => items[k]));
        lemma_parse_complete(b, start, items[k]);
        lemma_frame_nonempty(items[k]);
        assert(items.subrange(0, k).push(items[k]) =~= items.subrange(0, k + 1));
        lemma_parse_items_complete(b, q, f, k + 1);
    }
}

/// Encoding then decoding gives back the value, and the decoder takes exactly
/// the encoded bytes, whatever follows them.
pub proof fn lemma_round_trip(v: Value, rest: Seq<u8>)
    requires
        well_formed(v@),
    ensures
        frame_at_front(frame_bytes(v@) + rest) == Parsed::Done(v@, frame_bytes(v@).len() as int),
{
    let b = frame_bytes(v@) + rest;
    assert(b.subrange(0, frame_bytes(v@).len() as int) =~= frame_bytes(v@));
    lemma_parse_complete(b, 0, v@);
}

/// A buffer that ends inside an encoding at `p` reads as `Incomplete`.
proof fn lemma_parse_partial(b: Seq<u8>, p: int, f: Frame)
    requires
        well_formed(f),
        0 <= p <= b.len(),
        b.len() < p + frame_bytes(f).len(),
        forall|j: int| p <= j < b.len() ==> b[j] == frame_bytes(f)[j - p],
    ensures
        parse_at(b, p) == Parsed::Incomplete,
    decreases f, arr_measure(f),
{
    if p < b.len() {
        let fb = frame_bytes(f);
        let line = frame_line(f);
        lemma_frame_shape(f);
        lemma_line_numbers(f);
        let cr = p + 1 + line.len();
        assert(b[p] == fb[0]);
        if b.len() <= cr + 1 {
            let n = if b.len() <= cr {
                b.len() - p - 1
            } else {
                line.len() as int
            };
            assert forall|k: int| p + 1 <= k < p + 1 + n implies b[k] != 13 by {
                assert(b[k] == fb[k - p]);
                assert(fb[k - p] == line[k - p - 1]);
            }
            if b.len() > cr {
                assert(b[cr] == fb[cr - p]);
            }
            lemma_cr_scan(b, p + 1, n);
        } else {
            assert forall|k: int| p + 1 <= k < cr implies b[k] != 13 by {
                assert(b[k] == fb[k - p]);
                assert(fb[k - p] == line[k - p - 1]);
            }
            assert(b[cr] == fb[cr - p]);
            assert(b[cr + 1] == fb[cr + 1 - p]);
            lemma_cr_scan(b, p + 1, line.len() as int);
            assert forall|k: int| 0 <= k < line.len() implies b.subrange(p + 1, cr)[k] == line[k] by {
                assert(b[p + 1 + k] == fb[1 + k]);
            }
            assert(b.subrange(p + 1, cr) =~= line);
            let next = cr + 2;
            match f {
                Frame::Arr(items) => {
                    let n = items.len() as int;
                    assert(items.subrange(0, n) =~= items);
                    assert(items.subrange(0, 0) =~= Seq::<Frame>::empty());
                    assert forall|j: int| next <= j < b.len() implies b[j] == items_bytes(items)[j - next] by {
                        assert(b[j] == fb[j - p]);
                    }
                    lemma_parse_items_partial(b, next, f, 0);
                },
                _ => {},
            }
        }
    }
}

proof fn lemma_parse_items_partial(b: Seq<u8>, q: int, f: Frame, k: int)
    requires
        f is Arr,
        well_formed(f),
        0 <= q,
        0 <= k <= f->Arr_0.len(),
        q + prefix_len(f->Arr_0, k) <= b.len() < q + prefix_len(f->Arr_0, f->Arr_0.len() as int),
        forall|j: int| q <= j < b.len() ==> b[j] == items_bytes(f->Arr_0)[j - q],
    ensures
        parse_items(b, q + prefix_len(f->Arr_0, k), (f->Arr_0.len() - k) as nat, f->Arr_0.subrange(0, k))
            == Parsed::Incomplete,
    decreases f, f->Arr_0.len() - k,
{
    let items = f->Arr_0;
    let n = items.len() as int;
    assert(f == Frame::Arr(items));
    assert(items.subrange(0, n) =~= items);
    if k < n {
        lemma_item_at(items, k);
        lemma_items_prefix(items, k + 1, n);
        lemma_all_well_formed(items, k);
        let start = q + prefix_len(items, k);
        let end = q + prefix_len(items, k + 1);
        let whole = items_bytes(items);
        let fk = frame_bytes(items[k]);
        assert forall|j: int| start <= j < end && j < b.len() implies b[j] == fk[j - start] by {
            assert(whole.subrange(prefix_len(items, k), prefix_len(items, k + 1))[j - start] == whole[j - q]);
        }
        assert(decreases_to!(f => f->Arr_0));
        assert(decreases_to!(items => items[k]));
        if b.len() >= end {
            assert(b.subrange(start, end) =~= fk);
            lemma_parse_complete(b, start, items[k]);
            lemma_frame_nonempty(items[k]);
            assert(items.subrange(0, k).push(items[k]) =~= items.subrange(0, k + 1));
            lemma_parse_items_partial(b, q, f, k + 1);
        } else {
            lemma_parse_partial(b, start, items[k]);
        }
    } else {
        assert(false);
    }
}

/// Resumability: a buffer cut anywhere inside an encoding reads as `Incomplete`,
/// and once the rest of the bytes is appended the value decodes.
pub proof fn lemma_resume(v: Value, k: int)
    requires
        well_formed(v@),
        0 <= k < frame_bytes(v@).len(),
    ensures
        frame_at_front(frame_bytes(v@).subrange(0, k)) == Parsed::Incomplete,
        frame_at_front(frame_bytes(v@).subrange(0, k) + frame_bytes(v@).subrange(k, frame_bytes(v@).len() as int))
            == Parsed::Done(v@, frame_bytes(v@).len() as int),
{
    let fb = frame_bytes(v@);
    lemma_parse_partial(fb.subrange(0, k), 0, v@);
    assert(fb.subrange(0, k) + fb.subrange(k, fb.len() as int) =~= fb + Seq::<u8>::empty());
    lemma_round_trip(v, Seq::<u8>::empty());
}

} // verus!
