//! Commands: which one a request names, and the reply it gets.
use vstd::prelude::*;
use vstd::utf8::encode_utf8;
use crate::decimal::{all_digits, digits_value, parse_digits};
use crate::message::{
    encode, frames_of, text_of, Frame, RedisBulkStringMessage, RedisMessage,
};
use crate::state::{entry_of, live, Entry, RedisState};

verus! {

/// A request, as the store sees it.
#[derive(Debug)]
pub enum Command {
    /// Reply with this bulk string.
    Echo(Option<String>),
    /// Reply with the value under this key.
    Get(String),
    /// Store a value under a key, with an optional time-to-live in milliseconds.
    Put(String, String, Option<u128>),
    /// Anything else: reply with the liveness status.
    Ping,
}

/// The shape of a command, over text.
pub enum Cmd {
    Echo(Option<Seq<char>>),
    Get(Seq<char>),
    Put(Seq<char>, Seq<char>, Option<u128>),
    Ping,
}

impl View for Command {
    type V = Cmd;

    open spec fn view(&self) -> Cmd {
        match self {
            Command::Echo(c) => Cmd::Echo(text_of(*c)),
            Command::Get(k) => Cmd::Get(k@),
            Command::Put(k, v, t) => Cmd::Put(k@, v@, *t),
            Command::Ping => Cmd::Ping,
        }
    }
}

/// An ASCII lower-case letter turned upper-case; every other byte kept.
pub open spec fn upper(b: u8) -> u8 {
    if 97 <= b <= 122 {
        (b - 32) as u8
    } else {
        b
    }
}

/// `w` spells the upper-case word `kw`, in any mix of cases.
pub open spec fn is_word(w: Seq<u8>, kw: Seq<u8>) -> bool {
    w.len() == kw.len() && forall|i: int| 0 <= i < w.len() ==> upper(#[trigger] w[i]) == kw[i]
}

/// The command names and the option keyword, upper-case.
pub open spec fn word_echo() -> Seq<u8> {
    seq![69u8, 67u8, 72u8, 79u8]
}

pub open spec fn word_get() -> Seq<u8> {
    seq![71u8, 69u8, 84u8]
}

pub open spec fn word_set() -> Seq<u8> {
    seq![83u8, 69u8, 84u8]
}

pub open spec fn word_px() -> Seq<u8> {
    seq![80u8, 88u8]
}

/// A time-to-live written as unsigned decimal digits that fit in a `u128`.
pub open spec fn ttl_of(t: Seq<char>) -> Option<u128> {
    let b = encode_utf8(t);
    if b.len() >= 1 && all_digits(b) && digits_value(b) <= u128::MAX {
        Some(digits_value(b) as u128)
    } else {
        None
    }
}

/// `SET key value` or `SET key value PX ttl`.
pub open spec fn set_of(items: Seq<Frame>) -> Cmd {
    if items.len() >= 3 {
        match (items[1], items[2]) {
            (Frame::Bulk(Some(k)), Frame::Bulk(Some(v))) => if items.len() == 3 {
                Cmd::Put(k, v, None)
            } else if items.len() == 5 {
                match (items[3], items[4]) {
                    (Frame::Bulk(Some(o)), Frame::Bulk(Some(t))) => if is_word(
                        encode_utf8(o),
                        word_px(),
                    ) && ttl_of(t) is Some {
                        Cmd::Put(k, v, ttl_of(t))
                    } else {
                        Cmd::Ping
                    },
                    _ => Cmd::Ping,
                }
            } else {
                Cmd::Ping
            },
            _ => Cmd::Ping,
        }
    } else {
        Cmd::Ping
    }
}

/// The command that a request names: an array whose first element is a bulk
/// string with the command's name in any case, followed by its arguments.
pub open spec fn command_of(f: Frame) -> Cmd {
    match f {
        Frame::Array(items) => if items.len() >= 1 {
            match items[0] {
                Frame::Bulk(Some(name)) => {
                    let w = encode_utf8(name);
                    if is_word(w, word_echo()) {
                        if items.len() >= 2 {
                            match items[1] {
                                Frame::Bulk(c) => Cmd::Echo(c),
                                _ => Cmd::Ping,
                            }
                        } else {
                            Cmd::Ping
                        }
                    } else if is_word(w, word_get()) {
                        if items.len() >= 2 {
                            match items[1] {
                                Frame::Bulk(Some(k)) => Cmd::Get(k),
                                _ => Cmd::Ping,
                            }
                        } else {
                            Cmd::Ping
                        }
                    } else if is_word(w, word_set()) {
                        set_of(items)
                    } else {
                        Cmd::Ping
                    }
                },
                _ => Cmd::Ping,
            }
        } else {
            Cmd::Ping
        },
        _ => Cmd::Ping,
    }
}

/// The liveness status `+PONG` CR LF.
pub open spec fn pong() -> Seq<u8> {
    seq![43u8, 80u8, 79u8, 78u8, 71u8, 13u8, 10u8]
}

/// The reply to a command on a store whose contents are `m`, at `now`.
pub open spec fn reply_of(c: Cmd, m: Map<Seq<char>, Entry>, now: u128) -> Seq<u8> {
    match c {
        Cmd::Echo(x) => encode(Frame::Bulk(x)),
        Cmd::Get(k) => encode(Frame::Bulk(live(m, k, now))),
        Cmd::Put(_, _, _) => encode(Frame::Bulk(Some(seq!['O', 'K']))),
        Cmd::Ping => pong(),
    }
}

/// The store's contents after a command at `now`.
pub open spec fn after(c: Cmd, m: Map<Seq<char>, Entry>, now: u128) -> Map<Seq<char>, Entry> {
    match c {
        Cmd::Put(k, v, ttl) => m.insert(k, entry_of(v, ttl, now)),
        _ => m,
    }
}

/// `w` spells the upper-case word `kw`, in any mix of cases.
fn is_word_exec(w: &[u8], kw: &[u8]) -> (r: bool)
    ensures
        r == is_word(w@, kw@),
{
    if w.len() != kw.len() {
        return false;
    }
    let mut i: usize = 0;
    while i < w.len()
        invariant
            i <= w@.len() == kw@.len(),
            forall|j: int| 0 <= j < i ==> upper(#[trigger] w@[j]) == kw@[j],
        decreases w@.len() - i,
    {
        let b = w[i];
        let u = if 97 <= b && b <= 122 {
            b - 32
        } else {
            b
        };
        if u != kw[i] {
            return false;
        }
        i = i + 1;
    }
    true
}

/// Reads a time-to-live written as unsigned decimal digits.
pub fn parse_ttl(t: &String) -> (r: Option<u128>)
    ensures
        r == ttl_of(t@),
{
    let b = t.as_str().as_bytes();
    assert(b@ == encode_utf8(t@));
    if b.len() == 0 {
        return None;
    }
    let mut i: usize = 0;
    while i < b.len()
        invariant
            i <= b@.len(),
            b@ == encode_utf8(t@),
            forall|j: int| 0 <= j < i ==> crate::decimal::is_digit(#[trigger] b@[j]),
        decreases b@.len() - i,
    {
        if b[i] < 48 || b[i] > 57 {
            assert(!crate::decimal::is_digit(b@[i as int]));
            return None;
        }
        i = i + 1;
    }
    assert(b@.subrange(0, b@.len() as int) =~= b@);
    parse_digits(b, 0, b.len())
}

/// The text of a bulk string that holds one.
fn text_in(m: &RedisMessage) -> (r: Option<&String>)
    ensures
        match r {
            Some(t) => m.frame() == Frame::Bulk(Some(t@)),
            None => !(m.frame() matches Frame::Bulk(Some(_))),
        },
{
    match m {
        RedisMessage::BulkString(b) => match &b.content {
            Some(t) => Some(t),
            None => None,
        },
        RedisMessage::Array(_) => None,
    }
}

fn copy_text(t: &String) -> (r: String)
    ensures
        r@ == t@,
{
    t.clone()
}

/// Tells which command a request names and takes its arguments out of it.
pub fn classify(msg: &RedisMessage) -> (r: Command)
    ensures
        r@ == command_of(msg.frame()),
{
    let a = match msg {
        RedisMessage::Array(a) => a,
        RedisMessage::BulkString(_) => return Command::Ping,
    };
    let ghost items = frames_of(a.messages@);
    let n = a.messages.len();
    if n == 0 {
        return Command::Ping;
    }
    assert(forall|i: int| 0 <= i < n ==> #[trigger] items[i] == a.messages@[i].frame());
    let name = match text_in(&a.messages[0]) {
        Some(t) => t,
        None => return Command::Ping,
    };
    let w = name.as_str().as_bytes();
    let echo: Vec<u8> = vec![69u8, 67u8, 72u8, 79u8];
    let get: Vec<u8> = vec![71u8, 69u8, 84u8];
    let set: Vec<u8> = vec![83u8, 69u8, 84u8];
    assert(echo@ =~= word_echo());
    assert(get@ =~= word_get());
    assert(set@ =~= word_set());
    if is_word_exec(w, echo.as_slice()) {
        if n < 2 {
            return Command::Ping;
        }
        match &a.messages[1] {
            RedisMessage::BulkString(b) => match &b.content {
                Some(t) => Command::Echo(Some(copy_text(t))),
                None => Command::Echo(None),
            },
            RedisMessage::Array(_) => Command::Ping,
        }
    } else if is_word_exec(w, get.as_slice()) {
        if n < 2 {
            return Command::Ping;
        }
        match text_in(&a.messages[1]) {
            Some(k) => Command::Get(copy_text(k)),
            None => Command::Ping,
        }
    } else if is_word_exec(w, set.as_slice()) {
        if n < 3 {
            return Command::Ping;
        }
        let key = match text_in(&a.messages[1]) {
            Some(k) => k,
            None => return Command::Ping,
        };
        let value = match text_in(&a.messages[2]) {
            Some(v) => v,
            None => return Command::Ping,
        };
        if n == 3 {
            return Command::Put(copy_text(key), copy_text(value), None);
        }
        if n != 5 {
            return Command::Ping;
        }
        let opt = match text_in(&a.messages[3]) {
            Some(o) => o,
            None => return Command::Ping,
        };
        let ttl = match text_in(&a.messages[4]) {
            Some(t) => t,
            None => return Command::Ping,
        };
        let px: Vec<u8> = vec![80u8, 88u8];
        assert(px@ =~= word_px());
        if !is_word_exec(opt.as_str().as_bytes(), px.as_slice()) {
            return Command::Ping;
        }
        match parse_ttl(ttl) {
            Some(d) => Command::Put(copy_text(key), copy_text(value), Some(d)),
            None => Command::Ping,
        }
    } else {
        Command::Ping
    }
}

/// The liveness status.
fn pong_reply() -> (r: Vec<u8>)
    ensures
        r@ == pong(),
{
    let r = vec![43u8, 80u8, 79u8, 78u8, 71u8, 13u8, 10u8];
    assert(r@ =~= pong());
    r
}

/// The acknowledgement of a write: the bulk string `OK`.
fn ok_reply() -> (r: Vec<u8>)
    ensures
        r@ == encode(Frame::Bulk(Some(seq!['O', 'K']))),
{
    let text = "OK".to_string();
    proof {
        reveal_strlit("OK");
    }
    assert(text@ =~= seq!['O', 'K']);
    let b = RedisBulkStringMessage { content: Some(text) };
    b.to_message()
}

/// Carries out a command on the store at `now` and returns the reply.
pub fn apply(cmd: Command, state: &mut RedisState, now: u128) -> (r: Vec<u8>)
    requires
        old(state).wf(),
    ensures
        final(state).wf(),
        final(state)@ == after(cmd@, old(state)@, now),
        r@ == reply_of(cmd@, old(state)@, now),
{
    match cmd {
        Command::Put(k, v, ttl) => {
            state.set_at(k, v, ttl, now);
            ok_reply()
        },
        Command::Echo(c) => RedisBulkStringMessage { content: c }.to_message(),
        Command::Get(k) => RedisBulkStringMessage { content: state.get_at(&k, now) }.to_message(),
        Command::Ping => pong_reply(),
    }
}

/// Replies to a command that only reads the store; a write gets `None`.
pub fn answer(cmd: &Command, state: &RedisState, now: u128) -> (r: Option<Vec<u8>>)
    requires
        state.wf(),
    ensures
        r is None <==> cmd@ is Put,
        r matches Some(b) ==> b@ == reply_of(cmd@, state@, now),
{
    match cmd {
        Command::Put(_, _, _) => None,
        Command::Echo(c) => {
            let content = match c {
                Some(t) => Some(copy_text(t)),
                None => None,
            };
            Some(RedisBulkStringMessage { content }.to_message())
        },
        Command::Get(k) => Some(RedisBulkStringMessage { content: state.get_at(k, now) }.to_message()),
        Command::Ping => Some(pong_reply()),
    }
}

} // verus!
