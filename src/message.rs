//! Frames of the wire protocol: their shape, how they are read from bytes and
//! how they are written back.
use vstd::prelude::*;
use vstd::utf8::{
    decode_utf8, encode_utf8, encode_utf8_decode_utf8, encode_utf8_valid_utf8, valid_utf8,
};
use crate::decimal::{
    all_digits, decimal, digits_value, is_digit, lemma_decimal, parse_digits, push_decimal,
};
use vstd::string::StrSliceExecFns;

verus! {

/// Why a buffer does not start with a frame.
#[derive(Debug, Clone, Copy, PartialEq, Eq, Structural)]
pub enum ProtocolError {
    /// The buffer ends before the frame does: more input is needed.
    NeedMoreData,
    /// The bytes cannot begin a frame, whatever follows them.
    Malformed,
}

/// The mathematical shape of a message: arrays of messages, and bulk strings
/// that are either null or hold text.
pub enum Frame {
    Array(Seq<Frame>),
    Bulk(Option<Seq<char>>),
}

/// A message of the protocol: an array of messages or a bulk string.
#[derive(Debug)]
pub enum RedisMessage {
    Array(RedisArrayMessage),
    BulkString(RedisBulkStringMessage),
}

/// A bulk string: text, or null where there is none (a missing key).
#[derive(Debug)]
pub struct RedisBulkStringMessage {
    pub content: Option<String>,
}

/// An array: the messages it holds, in order.
#[derive(Debug)]
pub struct RedisArrayMessage {
    pub messages: Vec<RedisMessage>,
}

impl From<String> for RedisBulkStringMessage {
    fn from(content: String) -> Self {
        RedisBulkStringMessage { content: Some(content) }
    }
}

impl vstd::std_specs::convert::FromSpecImpl<String> for RedisBulkStringMessage {
    open spec fn obeys_from_spec() -> bool {
        true
    }

    open spec fn from_spec(v: String) -> Self {
        RedisBulkStringMessage { content: Some(v) }
    }
}

impl From<Option<String>> for RedisBulkStringMessage {
    fn from(content: Option<String>) -> Self {
        RedisBulkStringMessage { content }
    }
}

impl vstd::std_specs::convert::FromSpecImpl<Option<String>> for RedisBulkStringMessage {
    open spec fn obeys_from_spec() -> bool {
        true
    }

    open spec fn from_spec(v: Option<String>) -> Self {
        RedisBulkStringMessage { content: v }
    }
}

/// The shapes of a sequence of messages.
pub open spec fn frames_of(items: Seq<RedisMessage>) -> Seq<Frame>
    decreases items,
{
    Seq::new(
        items.len(),
        |i: int|
            if 0 <= i < items.len() {
                items[i].frame()
            } else {
                Frame::Bulk(None)
            },
    )
}

/// The text that an optional string holds.
pub open spec fn text_of(content: Option<String>) -> Option<Seq<char>> {
    match content {
        Some(s) => Some(s@),
        None => None,
    }
}

impl RedisMessage {
    /// The shape of this message.
    pub open spec fn frame(&self) -> Frame
        decreases self,
    {
        match self {
            RedisMessage::Array(a) => Frame::Array(frames_of(a.messages@)),
            RedisMessage::BulkString(b) => Frame::Bulk(text_of(b.content)),
        }
    }
}

/// The line terminator CR LF.
pub open spec fn crlf() -> Seq<u8> {
    seq![13u8, 10u8]
}

/// The bytes of a frame on the wire.
pub open spec fn encode(f: Frame) -> Seq<u8>
    decreases f,
{
    match f {
        Frame::Bulk(None) => seq![36u8, 45u8, 49u8] + crlf() + crlf(),
        Frame::Bulk(Some(s)) => seq![36u8] + decimal(encode_utf8(s).len()) + crlf() + encode_utf8(s)
            + crlf(),
        Frame::Array(items) => seq![42u8] + decimal(items.len()) + crlf() + encode_all(items),
    }
}

/// The bytes of a sequence of frames, one after the other.
pub open spec fn encode_all(items: Seq<Frame>) -> Seq<u8>
    decreases items,
{
    if items.len() == 0 {
        Seq::empty()
    } else {
        encode_all(items.drop_last()) + encode(items.last())
    }
}

/// The first position at or after `p` that holds no digit (or the end).
pub open spec fn digits_end(buf: Seq<u8>, p: int) -> int
    decreases buf.len() - p,
{
    if p < 0 || p >= buf.len() || !is_digit(buf[p]) {
        p
    } else {
        digits_end(buf, p + 1)
    }
}

/// A decimal length followed by CR LF at `p`: the length and the position after the LF.
pub open spec fn length_at(buf: Seq<u8>, p: int) -> Result<(int, int), ProtocolError> {
    let q = digits_end(buf, p);
    if q >= buf.len() {
        Err(ProtocolError::NeedMoreData)
    } else if buf[q] != 13 || q == p {
        Err(ProtocolError::Malformed)
    } else if q + 1 >= buf.len() {
        Err(ProtocolError::NeedMoreData)
    } else if buf[q + 1] != 10 {
        Err(ProtocolError::Malformed)
    } else if digits_value(buf.subrange(p, q)) > usize::MAX {
        Err(ProtocolError::Malformed)
    } else {
        Ok((digits_value(buf.subrange(p, q)) as int, q + 2))
    }
}

/// The body of a bulk string whose `$` stands just before `p`: the length, the
/// payload of that many bytes read as UTF-8, and two bytes of terminator that
/// are skipped.
pub open spec fn bulk_at(buf: Seq<u8>, p: int) -> Result<(Frame, int), ProtocolError> {
    match length_at(buf, p) {
        Err(e) => Err(e),
        Ok((n, s)) => if s + n + 2 > buf.len() {
            Err(ProtocolError::NeedMoreData)
        } else if !valid_utf8(buf.subrange(s, s + n)) {
            Err(ProtocolError::Malformed)
        } else {
            Ok((Frame::Bulk(Some(decode_utf8(buf.subrange(s, s + n)))), s + n + 2))
        },
    }
}

/// The frame that starts at `i`, and the position just after it.
pub open spec fn parse_at(buf: Seq<u8>, i: int) -> Result<(Frame, int), ProtocolError>
    decreases buf.len() - i, 1int, 0int,
{
    if i < 0 || i >= buf.len() {
        Err(ProtocolError::NeedMoreData)
    } else if buf[i] == 36 {
        bulk_at(buf, i + 1)
    } else if buf[i] == 42 {
        array_at(buf, i + 1)
    } else {
        Err(ProtocolError::Malformed)
    }
}

/// The body of an array whose `*` stands just before `p`: the count, then that
/// many frames.
pub open spec fn array_at(buf: Seq<u8>, p: int) -> Result<(Frame, int), ProtocolError>
    decreases buf.len() - p + 1, 0int, 0int,
{
    match length_at(buf, p) {
        Err(e) => Err(e),
        Ok((n, s)) => if p <= s <= buf.len() && n >= 0 {
            match items_at(buf, s, n as nat) {
                Ok((fs, e)) => Ok((Frame::Array(fs), e)),
                Err(x) => Err(x),
            }
        } else {
            Err(ProtocolError::Malformed)
        },
    }
}

/// `n` frames one after the other from `p`, and the position after the last.
pub open spec fn items_at(buf: Seq<u8>, p: int, n: nat) -> Result<(Seq<Frame>, int), ProtocolError>
    decreases buf.len() - p, 2int, n,
{
    if n == 0 {
        Ok((Seq::empty(), p))
    } else if p < 0 || p >= buf.len() {
        Err(ProtocolError::NeedMoreData)
    } else {
        match parse_at(buf, p) {
            Err(x) => Err(x),
            Ok((f, q)) => if p < q <= buf.len() {
                match items_at(buf, q, (n - 1) as nat) {
                    Ok((fs, e)) => Ok((seq![f] + fs, e)),
                    Err(x) => Err(x),
                }
            } else {
                Err(ProtocolError::Malformed)
            },
        }
    }
}


/// Puts `pre` in front of the frames of a successful read.
pub open spec fn prepend(pre: Seq<Frame>, r: Result<(Seq<Frame>, int), ProtocolError>) -> Result<
    (Seq<Frame>, int),
    ProtocolError,
> {
    match r {
        Ok((fs, e)) => Ok((pre + fs, e)),
        Err(x) => Err(x),
    }
}

/// The result of an executable read, as positions and frames.
pub open spec fn read_as<T>(r: Result<(T, usize), ProtocolError>, shape: spec_fn(T) -> Frame) -> Result<
    (Frame, int),
    ProtocolError,
> {
    match r {
        Ok((m, e)) => Ok((shape(m), e as int)),
        Err(x) => Err(x),
    }
}

/// Relies on `std::str::from_utf8`: it accepts exactly the valid UTF-8 byte
/// sequences, and the text it returns is what those bytes encode.
#[verifier::external_body]
fn decode_text(b: &[u8]) -> (r: Option<String>)
    ensures
        match r {
            Some(s) => valid_utf8(b@) && s@ == decode_utf8(b@),
            None => !valid_utf8(b@),
        },
{
    match std::str::from_utf8(b) {
        Ok(s) => Some(s.to_string()),
        Err(_) => None,
    }
}

proof fn lemma_digits_end(buf: Seq<u8>, p: int)
    requires
        0 <= p <= buf.len(),
    ensures
        p <= digits_end(buf, p) <= buf.len(),
        all_digits(buf.subrange(p, digits_end(buf, p))),
    decreases buf.len() - p,
{
    if p < buf.len() && is_digit(buf[p]) {
        lemma_digits_end(buf, p + 1);
        let q = digits_end(buf, p);
        assert forall|k: int| 0 <= k < q - p implies is_digit(#[trigger] buf.subrange(p, q)[k]) by {
            if k > 0 {
                assert(buf.subrange(p, q)[k] == buf.subrange(p + 1, q)[k - 1]);
            }
        }
    }
}

/// The first position at or after `start` that holds no digit, or the length of `slice`.
fn scan_digits(slice: &[u8], start: usize) -> (r: usize)
    requires
        start <= slice@.len(),
    ensures
        r as int == digits_end(slice@, start as int),
{
    let mut i: usize = start;
    while i < slice.len() && 48 <= slice[i] && slice[i] <= 57
        invariant
            start <= i <= slice@.len(),
            digits_end(slice@, start as int) == digits_end(slice@, i as int),
        decreases slice@.len() - i,
    {
        i = i + 1;
    }
    i
}

/// Reads a decimal length and its CR LF at `start`: the length and the position after the LF.
pub fn parse_length(slice: &[u8], start: usize) -> (r: Result<(usize, usize), ProtocolError>)
    requires
        start <= slice@.len(),
    ensures
        match r {
            Ok((n, e)) => length_at(slice@, start as int) == Ok::<(int, int), ProtocolError>(
                (n as int, e as int),
            ),
            Err(x) => length_at(slice@, start as int) == Err::<(int, int), ProtocolError>(x),
        },
        r matches Ok((n, e)) ==> start + 2 <= e <= slice@.len(),
{
    proof {
        lemma_digits_end(slice@, start as int);
    }
    let q = scan_digits(slice, start);
    if q >= slice.len() {
        return Err(ProtocolError::NeedMoreData);
    }
    if slice[q] != 13 || q == start {
        return Err(ProtocolError::Malformed);
    }
    if q + 1 >= slice.len() {
        return Err(ProtocolError::NeedMoreData);
    }
    if slice[q + 1] != 10 {
        return Err(ProtocolError::Malformed);
    }
    match parse_digits(slice, start, q) {
        Some(v) => {
            if v > usize::MAX as u128 {
                Err(ProtocolError::Malformed)
            } else {
                Ok((v as usize, q + 2))
            }
        },
        None => Err(ProtocolError::Malformed),
    }
}

impl RedisBulkStringMessage {
    /// Reads the body of a bulk string whose `$` stands just before `start`.
    pub fn parse_slice(slice: &[u8], start: usize) -> (r: Result<(Self, usize), ProtocolError>)
        requires
            start <= slice@.len(),
        ensures
            read_as(r, |b: Self| Frame::Bulk(text_of(b.content))) == bulk_at(slice@, start as int),
            r matches Ok((b, e)) ==> start < e <= slice@.len(),
    {
        let (size, from) = match parse_length(slice, start) {
            Ok(p) => p,
            Err(e) => return Err(e),
        };
        if size > slice.len() - from || slice.len() - from - size < 2 {
            return Err(ProtocolError::NeedMoreData);
        }
        let to = from + size;
        let payload = &slice[from..to];
        assert(payload@ == slice@.subrange(from as int, to as int));
        match decode_text(payload) {
            Some(text) => Ok((RedisBulkStringMessage { content: Some(text) }, to + 2)),
            None => Err(ProtocolError::Malformed),
        }
    }

    /// The bytes of this bulk string on the wire.
    pub fn to_message(&self) -> (r: Vec<u8>)
        ensures
            r@ == encode(Frame::Bulk(text_of(self.content))),
    {
        match &self.content {
            None => {
                let r = vec![36u8, 45u8, 49u8, 13u8, 10u8, 13u8, 10u8];
                assert(r@ =~= encode(Frame::Bulk(text_of(self.content))));
                r
            },
            Some(x) => {
                let mut body = x.as_str().as_bytes_vec();
                let mut out: Vec<u8> = vec![36u8];
                push_decimal(&mut out, body.len());
                out.push(13u8);
                out.push(10u8);
                out.append(&mut body);
                out.push(13u8);
                out.push(10u8);
                assert(out@ =~= encode(Frame::Bulk(text_of(self.content))));
                out
            },
        }
    }
}

impl RedisArrayMessage {
    /// Reads the body of an array whose `*` stands just before `start`: the
    /// count, then that many messages, each from where the last one ended.
    pub fn parse_slice(slice: &[u8], start: usize) -> (r: Result<(Self, usize), ProtocolError>)
        requires
            1 <= start <= slice@.len(),
        ensures
            read_as(r, |a: Self| Frame::Array(frames_of(a.messages@))) == array_at(
                slice@,
                start as int,
            ),
            r matches Ok((a, e)) ==> start < e <= slice@.len(),
        decreases slice@.len() - start + 1, 0int,
    {
        let (size, from) = match parse_length(slice, start) {
            Ok(p) => p,
            Err(e) => return Err(e),
        };
        let ghost buf = slice@;
        assert(length_at(buf, start as int) == Ok::<(int, int), ProtocolError>(
            (size as int, from as int),
        ));
        assert(array_at(buf, start as int) == match items_at(buf, from as int, size as nat) {
            Ok((fs, e)) => Ok((Frame::Array(fs), e)),
            Err(x) => Err(x),
        });
        let mut messages: Vec<RedisMessage> = Vec::new();
        let mut pos: usize = from;
        let mut k: usize = 0;
        while k < size
            invariant
                start < from <= pos <= buf.len(),
                buf == slice@,
                array_at(buf, start as int) == match items_at(buf, from as int, size as nat) {
                    Ok((fs, e)) => Ok((Frame::Array(fs), e)),
                    Err(x) => Err(x),
                },
                k <= size,
                messages@.len() == k,
                items_at(buf, from as int, size as nat) == prepend(
                    frames_of(messages@),
                    items_at(buf, pos as int, (size - k) as nat),
                ),
            decreases size - k,
        {
            let ghost before = messages@;
            match RedisMessage::parse_slice(slice, pos) {
                Ok((m, e)) => {
                    messages.push(m);
                    proof {
                        assert(frames_of(messages@) =~= frames_of(before).push(m.frame()));
                        assert(frames_of(before) + (seq![m.frame()] + Seq::<Frame>::empty())
                            =~= frames_of(messages@));
                        let rest = items_at(buf, e as int, (size - k - 1) as nat);
                        match rest {
                            Ok((fs, x)) => {
                                assert(frames_of(before) + (seq![m.frame()] + fs) =~= frames_of(
                                    messages@,
                                ) + fs);
                            },
                            Err(_) => {},
                        }
                    }
                    pos = e;
                },
                Err(x) => {
                    assert(items_at(buf, pos as int, (size - k) as nat) == Err::<
                        (Seq<Frame>, int),
                        ProtocolError,
                    >(x));
                    return Err(x);
                },
            }
            k = k + 1;
        }
        assert(frames_of(messages@) + Seq::<Frame>::empty() =~= frames_of(messages@));
        Ok((RedisArrayMessage { messages }, pos))
    }

    /// The bytes of this array on the wire: the count, then each message.
    pub fn to_message(&self) -> (r: Vec<u8>)
        ensures
            r@ == encode(Frame::Array(frames_of(self.messages@))),
        decreases self,
    {
        let ghost items = frames_of(self.messages@);
        let mut out: Vec<u8> = vec![42u8];
        push_decimal(&mut out, self.messages.len());
        out.push(13u8);
        out.push(10u8);
        let ghost head = out@;
        let mut i: usize = 0;
        while i < self.messages.len()
            invariant
                i <= self.messages@.len(),
                items == frames_of(self.messages@),
                out@ == head + encode_all(items.take(i as int)),
            decreases self.messages@.len() - i,
        {
            let mut part = self.messages[i].to_message();
            out.append(&mut part);
            proof {
                assert(items.take(i + 1).drop_last() =~= items.take(i as int));
                assert(items.take(i + 1).last() == items[i as int]);
            }
            i = i + 1;
        }
        assert(items.take(i as int) =~= items);
        assert(out@ =~= encode(Frame::Array(items)));
        out
    }
}

impl RedisMessage {
    /// Reads the message that starts at `start`, and the position just after it.
    pub fn parse_slice(slice: &[u8], start: usize) -> (r: Result<(Self, usize), ProtocolError>)
        ensures
            read_as(r, |m: Self| m.frame()) == parse_at(slice@, start as int),
            r matches Ok((m, e)) ==> start < e <= slice@.len(),
        decreases slice@.len() - start, 1int,
    {
        if start >= slice.len() {
            return Err(ProtocolError::NeedMoreData);
        }
        let tag = slice[start];
        if tag == 36 {
            match RedisBulkStringMessage::parse_slice(slice, start + 1) {
                Ok((b, e)) => Ok((RedisMessage::BulkString(b), e)),
                Err(x) => Err(x),
            }
        } else if tag == 42 {
            match RedisArrayMessage::parse_slice(slice, start + 1) {
                Ok((a, e)) => Ok((RedisMessage::Array(a), e)),
                Err(x) => Err(x),
            }
        } else {
            Err(ProtocolError::Malformed)
        }
    }

    /// The bytes of this message on the wire.
    pub fn to_message(&self) -> (r: Vec<u8>)
        ensures
            r@ == encode(self.frame()),
        decreases self,
    {
        match self {
            RedisMessage::Array(a) => a.to_message(),
            RedisMessage::BulkString(b) => b.to_message(),
        }
    }
}

proof fn lemma_digits_end_at(buf: Seq<u8>, p: int, q: int)
    requires
        0 <= p <= q < buf.len(),
        forall|k: int| p <= k < q ==> is_digit(#[trigger] buf[k]),
        !is_digit(buf[q]),
    ensures
        digits_end(buf, p) == q,
    decreases q - p,
{
    if p < q {
        lemma_digits_end_at(buf, p + 1, q);
    }
}

/// A decimal length with its CR LF reads back as that length, whatever follows.
proof fn lemma_length_encoded(n: nat, pre: Seq<u8>, post: Seq<u8>)
    requires
        n <= usize::MAX,
    ensures
        length_at(pre + decimal(n) + crlf() + post, pre.len() as int) == Ok::<(int, int), ProtocolError>(
            (n as int, pre.len() + decimal(n).len() + 2int),
        ),
{
    let d = decimal(n);
    lemma_decimal(n);
    let buf = pre + d + crlf() + post;
    let p = pre.len() as int;
    let q = p + d.len();
    assert forall|k: int| p <= k < q implies is_digit(#[trigger] buf[k]) by {
        assert(buf[k] == d[k - p]);
    }
    assert(buf[q] == 13);
    lemma_digits_end_at(buf, p, q);
    assert(buf.subrange(p, q) =~= d);
    assert(buf[q + 1] == 10);
}

/// Every bulk string in the frame holds text, and every length fits in a `usize`.
pub open spec fn writable(f: Frame) -> bool
    decreases f,
{
    match f {
        Frame::Bulk(Some(s)) => encode_utf8(s).len() <= usize::MAX,
        Frame::Bulk(None) => false,
        Frame::Array(items) => items.len() <= usize::MAX && forall|j: int|
            0 <= j < items.len() ==> writable(#[trigger] items[j]),
    }
}

proof fn lemma_encode_all_front(items: Seq<Frame>)
    requires
        items.len() > 0,
    ensures
        encode_all(items) == encode(items[0]) + encode_all(items.drop_first()),
    decreases items.len(),
{
    if items.len() == 1 {
        assert(items.drop_last() =~= Seq::<Frame>::empty());
        assert(items.drop_first() =~= Seq::<Frame>::empty());
        assert(encode_all(items) =~= encode(items[0]) + encode_all(items.drop_first()));
    } else {
        lemma_encode_all_front(items.drop_last());
        assert(items.drop_last().drop_first() =~= items.drop_first().drop_last());
        assert(items.drop_first().last() == items.last());
        assert(encode_all(items) =~= encode(items[0]) + encode_all(items.drop_first()));
    }
}

proof fn lemma_encode_nonempty(f: Frame)
    ensures
        encode(f).len() > 0,
{
    match f {
        Frame::Bulk(None) => {},
        Frame::Bulk(Some(s)) => {},
        Frame::Array(items) => {},
    }
}

/// Reading the bytes of a frame, wherever they stand, gives the frame back and
/// ends just after them.
pub proof fn lemma_round_trip(f: Frame, pre: Seq<u8>, post: Seq<u8>)
    requires
        writable(f),
    ensures
        parse_at(pre + encode(f) + post, pre.len() as int) == Ok::<(Frame, int), ProtocolError>(
            (f, (pre.len() + encode(f).len()) as int),
        ),
    decreases f,
{
    let buf = pre + encode(f) + post;
    let p = pre.len() as int;
    match f {
        Frame::Bulk(Some(s)) => {
            let b = encode_utf8(s);
            let n = b.len();
            let d = decimal(n);
            encode_utf8_valid_utf8(s);
            encode_utf8_decode_utf8(s);
            assert(buf =~= (pre + seq![36u8]) + d + crlf() + (b + crlf() + post));
            lemma_length_encoded(n, pre + seq![36u8], b + crlf() + post);
            let st = p + 1 + d.len() + 2;
            assert(buf.subrange(st, st + n) =~= b);
        },
        Frame::Array(items) => {
            let n = items.len();
            let d = decimal(n);
            assert(buf =~= (pre + seq![42u8]) + d + crlf() + (encode_all(items) + post));
            lemma_length_encoded(n, pre + seq![42u8], encode_all(items) + post);
            let pre2 = pre + seq![42u8] + d + crlf();
            assert(buf =~= pre2 + encode_all(items) + post);
            lemma_items_round_trip(items, pre2, post);
        },
        Frame::Bulk(None) => {},
    }
}

/// Reading the bytes of a sequence of frames gives each frame back in turn.
pub proof fn lemma_items_round_trip(items: Seq<Frame>, pre: Seq<u8>, post: Seq<u8>)
    requires
        forall|j: int| 0 <= j < items.len() ==> writable(#[trigger] items[j]),
    ensures
        items_at(pre + encode_all(items) + post, pre.len() as int, items.len()) == Ok::<
            (Seq<Frame>, int),
            ProtocolError,
        >((items, (pre.len() + encode_all(items).len()) as int)),
    decreases items,
{
    let buf = pre + encode_all(items) + post;
    let p = pre.len() as int;
    if items.len() == 0 {
        assert(items =~= Seq::<Frame>::empty());
    } else {
        let rest = items.drop_first();
        lemma_encode_all_front(items);
        lemma_encode_nonempty(items[0]);
        assert(buf =~= pre + encode(items[0]) + (encode_all(rest) + post));
        lemma_round_trip(items[0], pre, encode_all(rest) + post);
        let pre2 = pre + encode(items[0]);
        assert(buf =~= pre2 + encode_all(rest) + post);
        assert forall|j: int| 0 <= j < rest.len() implies writable(#[trigger] rest[j]) by {
            assert(rest[j] == items[j + 1]);
        }
        lemma_items_round_trip(rest, pre2, post);
        assert(seq![items[0]] + rest =~= items);
    }
}

/// Writing a bulk string and reading the bytes back gives the same text, and
/// the read ends exactly at the end of what was written.
pub proof fn lemma_bulk_round_trip(s: Seq<char>)
    requires
        encode_utf8(s).len() <= usize::MAX,
    ensures
        parse_at(encode(Frame::Bulk(Some(s))), 0) == Ok::<(Frame, int), ProtocolError>(
            (Frame::Bulk(Some(s)), encode(Frame::Bulk(Some(s))).len() as int),
        ),
{
    let e = encode(Frame::Bulk(Some(s)));
    lemma_round_trip(Frame::Bulk(Some(s)), Seq::empty(), Seq::empty());
    assert(Seq::<u8>::empty() + e + Seq::<u8>::empty() =~= e);
}

/// Where the `j`-th of the frames that follow one another from `p` starts.
pub open spec fn child_start(buf: Seq<u8>, p: int, j: int) -> int
    decreases j,
{
    if j <= 0 {
        p
    } else {
        match parse_at(buf, child_start(buf, p, j - 1)) {
            Ok((_, q)) => q,
            Err(_) => -1,
        }
    }
}

proof fn lemma_child_start_shift(buf: Seq<u8>, p: int, q: int, f: Frame, j: int)
    requires
        parse_at(buf, p) == Ok::<(Frame, int), ProtocolError>((f, q)),
        0 <= j,
    ensures
        child_start(buf, p, j + 1) == child_start(buf, q, j),
    decreases j,
{
    assert(child_start(buf, p, 0) == p);
    assert(child_start(buf, q, 0) == q);
    if j > 0 {
        lemma_child_start_shift(buf, p, q, f, j - 1);
    }
}

proof fn lemma_items_arity(buf: Seq<u8>, p: int, n: nat)
    requires
        items_at(buf, p, n) is Ok,
    ensures
        match items_at(buf, p, n) {
            Ok((fs, e)) => fs.len() == n && e == child_start(buf, p, n as int) && forall|j: int|
                0 <= j < n ==> parse_at(buf, #[trigger] child_start(buf, p, j)) == Ok::<
                    (Frame, int),
                    ProtocolError,
                >((fs[j], child_start(buf, p, j + 1))),
            Err(_) => false,
        },
    decreases n,
{
    if n > 0 {
        match parse_at(buf, p) {
            Ok((f, q)) => {
                lemma_items_arity(buf, q, (n - 1) as nat);
                let fs = items_at(buf, p, n)->Ok_0.0;
                let rest = items_at(buf, q, (n - 1) as nat)->Ok_0.0;
                assert(fs == seq![f] + rest);
                lemma_child_start_shift(buf, p, q, f, (n - 1) as int);
                assert forall|j: int| 0 <= j < n implies parse_at(
                    buf,
                    #[trigger] child_start(buf, p, j),
                ) == Ok::<(Frame, int), ProtocolError>((fs[j], child_start(buf, p, j + 1))) by {
                    lemma_child_start_shift(buf, p, q, f, j);
                    if j > 0 {
                        lemma_child_start_shift(buf, p, q, f, j - 1);
                        assert(child_start(buf, q, j - 1) == child_start(buf, p, j));
                        assert(fs[j] == rest[j - 1]);
                    }
                }
            },
            Err(_) => {},
        }
    }
}

/// A successful read of an array holds exactly as many frames as its count
/// says, each read from where the one before it ended, and the read ends just
/// past the last of them.
pub proof fn lemma_array_arity(buf: Seq<u8>, i: int)
    requires
        0 <= i < buf.len(),
        buf[i] == 42,
        parse_at(buf, i) is Ok,
    ensures
        match (length_at(buf, i + 1), parse_at(buf, i)) {
            (Ok((n, s)), Ok((Frame::Array(items), e))) => items.len() == n && e == child_start(
                buf,
                s,
                n,
            ) && forall|j: int|
                0 <= j < n ==> parse_at(buf, #[trigger] child_start(buf, s, j)) == Ok::<
                    (Frame, int),
                    ProtocolError,
                >((items[j], child_start(buf, s, j + 1))),
            _ => false,
        },
{
    match length_at(buf, i + 1) {
        Ok((n, s)) => {
            lemma_items_arity(buf, s, n as nat);
        },
        Err(_) => {},
    }
}

} // verus!
