//! The command dispatcher: reads a request frame as a command name and its
//! arguments, checks them, runs the command against the store, and builds
//! the reply frame.
use vstd::prelude::*;
use vstd::string::StrSliceExecFns;
use vstd::utf8::encode_utf8;
use crate::db::{
    count_live, delete_all, incr_at, later, live, purge, purge_all, seconds_ms, ttl_at, value_at,
    Database, Space,
};
use crate::decimal::{parse_i64, parse_i64_spec};
use crate::resp::{
    frame_of, frames_of, lemma_frames_of_index, lemma_frames_of_len, push_bytes, text_from_bytes,
    text_of, Frame, RespValue,
};

verus! {

/// An error reply: the code `ERR`, then `msg`.
pub open spec fn err_frame(msg: Seq<char>) -> Frame {
    Frame::Error("ERR "@ + msg)
}

pub open spec fn ok_frame() -> Frame {
    Frame::Simple("OK"@)
}

/// The text an argument stands for: a bulk string read as text, or a simple
/// string.
pub open spec fn arg_text(f: Frame) -> Option<Seq<char>> {
    match f {
        Frame::Bulk(Some(b)) => Some(text_of(b)),
        Frame::Simple(s) => Some(s),
        _ => None,
    }
}

/// The bytes an argument stands for: a bulk string's payload, or a simple
/// string's UTF-8 encoding.
pub open spec fn arg_bytes(f: Frame) -> Option<Seq<u8>> {
    match f {
        Frame::Bulk(Some(b)) => Some(b),
        Frame::Simple(s) => Some(encode_utf8(s)),
        _ => None,
    }
}

/// ASCII upper case to lower case; every other character stays.
pub open spec fn lower_char(c: char) -> char {
    if 'A' <= c <= 'Z' {
        ((c as u32 + 32) as u8) as char
    } else {
        c
    }
}

/// The command name that a frame spells, in lower case: each byte of a bulk
/// string read as a character, or the characters of a simple string.
pub open spec fn command_name(f: Frame) -> Option<Seq<char>> {
    match f {
        Frame::Bulk(Some(b)) => Some(Seq::new(b.len(), |i: int| lower_char(b[i] as char))),
        Frame::Simple(s) => Some(Seq::new(s.len(), |i: int| lower_char(s[i]))),
        _ => None,
    }
}

/// The texts among `args`, in order; other arguments are passed over.
pub open spec fn texts_of(args: Seq<Frame>) -> Seq<Seq<char>>
    decreases args.len(),
{
    if args.len() == 0 {
        Seq::empty()
    } else {
        let prev = texts_of(args.drop_last());
        match arg_text(args.last()) {
            Some(t) => prev.push(t),
            None => prev,
        }
    }
}

/// The arguments of a request: every item after the command name.
pub open spec fn args_of(items: Seq<RespValue>) -> Seq<Frame> {
    frames_of(items).drop_first()
}

/// The reply to `PING`.
pub open spec fn ping_cmd(args: Seq<Frame>) -> Frame {
    if args.len() == 0 {
        Frame::Simple("PONG"@)
    } else if args.len() == 1 && arg_bytes(args[0]) is Some {
        Frame::Bulk(arg_bytes(args[0]))
    } else {
        err_frame("wrong number of arguments for 'ping' command"@)
    }
}

/// The reply to `ECHO`.
pub open spec fn echo_cmd(args: Seq<Frame>) -> Frame {
    if args.len() != 1 {
        err_frame("wrong number of arguments for 'echo' command"@)
    } else {
        Frame::Bulk(arg_bytes(args[0]))
    }
}

/// The time to live that `SET ... EX s` asks for, in milliseconds: none
/// below zero seconds.
pub open spec fn ex_ms(secs: i64) -> u64 {
    if secs < 0 {
        0
    } else {
        seconds_ms(secs as u64)
    }
}

/// Whether `t` is `EX` in any case.
pub open spec fn is_ex(t: Seq<char>) -> bool {
    t.len() == 2 && lower_char(t[0]) == 'e' && lower_char(t[1]) == 'x'
}

/// What `SET` reads from its arguments: key, value and time to live in
/// milliseconds, or the error reply.
pub open spec fn set_args(args: Seq<Frame>) -> Result<(Seq<char>, Seq<u8>, Option<u64>), Frame> {
    if args.len() < 2 {
        Err(err_frame("wrong number of arguments for 'set' command"@))
    } else if arg_text(args[0]) is None {
        Err(err_frame("invalid key"@))
    } else if arg_bytes(args[1]) is None {
        Err(err_frame("invalid value"@))
    } else if args.len() == 2 {
        Ok((arg_text(args[0])->0, arg_bytes(args[1])->0, None))
    } else if args.len() == 4 && is_ex(
        match arg_text(args[2]) {
            Some(t) => t,
            None => Seq::empty(),
        },
    ) {
        let secs_text = match arg_text(args[3]) {
            Some(t) => t,
            None => Seq::empty(),
        };
        match parse_i64_spec(encode_utf8(secs_text)) {
            Some(secs) => Ok((arg_text(args[0])->0, arg_bytes(args[1])->0, Some(ex_ms(secs)))),
            None => Err(err_frame("value is not an integer or out of range"@)),
        }
    } else {
        Err(err_frame("syntax error"@))
    }
}

/// The store and reply after `SET`.
pub open spec fn set_cmd(m: Space, args: Seq<Frame>, now: u64) -> (Space, Frame) {
    match set_args(args) {
        Ok((k, v, ttl)) => (
            m.insert(
                k,
                (
                    v,
                    match ttl {
                        Some(t) => Some(later(now, t)),
                        None => None,
                    },
                ),
            ),
            ok_frame(),
        ),
        Err(e) => (m, e),
    }
}

/// The store and reply after `GET`.
pub open spec fn get_cmd(m: Space, args: Seq<Frame>, now: u64) -> (Space, Frame) {
    if args.len() != 1 {
        (m, err_frame("wrong number of arguments for 'get' command"@))
    } else {
        match arg_text(args[0]) {
            None => (m, err_frame("invalid key"@)),
            Some(k) => (purge(m, k, now), Frame::Bulk(value_at(m, k, now))),
        }
    }
}

/// The store and reply after `DEL`.
pub open spec fn del_cmd(m: Space, args: Seq<Frame>, now: u64) -> (Space, Frame) {
    if args.len() == 0 {
        (m, err_frame("wrong number of arguments for 'del' command"@))
    } else {
        let (m1, c) = delete_all(m, texts_of(args), now);
        (m1, Frame::Integer(c as i64))
    }
}

/// The store and the values after reading each argument of `MGET` in
/// turn; an argument that is no text reads the empty key.
pub open spec fn mget_all(m: Space, args: Seq<Frame>, now: u64) -> (Space, Seq<Frame>)
    decreases args.len(),
{
    if args.len() == 0 {
        (m, Seq::empty())
    } else {
        let (m1, out) = mget_all(m, args.drop_last(), now);
        let k = match arg_text(args.last()) {
            Some(t) => t,
            None => Seq::empty(),
        };
        (purge(m1, k, now), out.push(Frame::Bulk(value_at(m1, k, now))))
    }
}

/// The store and reply after `MGET`.
pub open spec fn mget_cmd(m: Space, args: Seq<Frame>, now: u64) -> (Space, Frame) {
    let (m1, out) = mget_all(m, args, now);
    (m1, Frame::Array(Some(out)))
}

/// The first argument pair of `MSET` that cannot be stored, as the error
/// reply, if any.
pub open spec fn mset_check(args: Seq<Frame>) -> Option<Frame>
    decreases args.len(),
{
    if args.len() < 2 {
        None
    } else if arg_text(args[0]) is None {
        Some(err_frame("invalid key"@))
    } else if arg_bytes(args[1]) is None {
        Some(err_frame("invalid value"@))
    } else {
        mset_check(args.subrange(2, args.len() as int))
    }
}

/// `m` after storing each pair of `args` in turn, with no deadline.
pub open spec fn mset_apply(m: Space, args: Seq<Frame>) -> Space
    decreases args.len(),
{
    if args.len() < 2 {
        m
    } else {
        mset_apply(
            m.insert(arg_text(args[0])->0, (arg_bytes(args[1])->0, None)),
            args.subrange(2, args.len() as int),
        )
    }
}

/// The store and reply after `MSET`: nothing is stored unless every pair
/// can be.
pub open spec fn mset_cmd(m: Space, args: Seq<Frame>) -> (Space, Frame) {
    if args.len() == 0 || args.len() % 2 != 0 {
        (m, err_frame("wrong number of arguments for 'mset' command"@))
    } else {
        match mset_check(args) {
            Some(e) => (m, e),
            None => (mset_apply(m, args), ok_frame()),
        }
    }
}

/// The store and reply after `EXISTS`.
pub open spec fn exists_cmd(m: Space, args: Seq<Frame>, now: u64) -> (Space, Frame) {
    if args.len() == 0 {
        (m, err_frame("wrong number of arguments for 'exists' command"@))
    } else {
        (purge_all(m, texts_of(args), now), Frame::Integer(count_live(m, texts_of(args), now) as i64))
    }
}

/// The store and reply after `INCR` (`delta` 1) or `DECR` (`delta` -1).
pub open spec fn incr_cmd(m: Space, args: Seq<Frame>, delta: i64, now: u64, arity: Frame) -> (Space, Frame) {
    if args.len() != 1 {
        (m, arity)
    } else {
        match arg_text(args[0]) {
            None => (m, err_frame("invalid key"@)),
            Some(k) => {
                let (m1, r) = incr_at(m, k, delta, now);
                (
                    m1,
                    match r {
                        Some(n) => Frame::Integer(n),
                        None => err_frame("value is not an integer or out of range"@),
                    },
                )
            },
        }
    }
}

/// The store and reply after `EXPIRE`.
pub open spec fn expire_cmd(m: Space, args: Seq<Frame>, now: u64) -> (Space, Frame) {
    if args.len() != 2 {
        (m, err_frame("wrong number of arguments for 'expire' command"@))
    } else {
        match arg_text(args[0]) {
            None => (m, err_frame("invalid key"@)),
            Some(k) => match arg_text(args[1]) {
                None => (m, err_frame("value is not an integer or out of range"@)),
                Some(t) => match parse_i64_spec(encode_utf8(t)) {
                    None => (m, err_frame("value is not an integer or out of range"@)),
                    Some(secs) => if !live(m, k, now) {
                        (purge(m, k, now), Frame::Integer(0))
                    } else if secs < 0 {
                        (m.remove(k), Frame::Integer(1))
                    } else {
                        (
                            m.insert(k, (m[k].0, Some(later(now, seconds_ms(secs as u64))))),
                            Frame::Integer(1),
                        )
                    },
                },
            },
        }
    }
}

/// The store and reply after `TTL`.
pub open spec fn ttl_cmd(m: Space, args: Seq<Frame>, now: u64) -> (Space, Frame) {
    if args.len() != 1 {
        (m, err_frame("wrong number of arguments for 'ttl' command"@))
    } else {
        match arg_text(args[0]) {
            None => (m, err_frame("invalid key"@)),
            Some(k) => (purge(m, k, now), Frame::Integer(ttl_at(m, k, now))),
        }
    }
}

/// The store and reply after `PERSIST`.
pub open spec fn persist_cmd(m: Space, args: Seq<Frame>, now: u64) -> (Space, Frame) {
    if args.len() != 1 {
        (m, err_frame("wrong number of arguments for 'persist' command"@))
    } else {
        match arg_text(args[0]) {
            None => (m, err_frame("invalid key"@)),
            Some(k) => if live(m, k, now) {
                (m.insert(k, (m[k].0, None)), Frame::Integer(1))
            } else {
                (purge(m, k, now), Frame::Integer(0))
            },
        }
    }
}

/// The store and reply after `FLUSHDB`.
pub open spec fn flush_cmd(m: Space, args: Seq<Frame>) -> (Space, Frame) {
    if args.len() != 0 {
        (m, err_frame("wrong number of arguments for 'flushdb' command"@))
    } else {
        (Map::empty(), ok_frame())
    }
}

/// The reply to a command that does not exist.
pub open spec fn unknown_reply(name: Seq<char>) -> Frame {
    err_frame("unknown command '"@ + name + "'"@)
}

/// The store and reply after the command `name` with `args`.
pub open spec fn run(m: Space, name: Seq<char>, args: Seq<Frame>, now: u64) -> (Space, Frame) {
    if name == "ping"@ {
        (m, ping_cmd(args))
    } else if name == "echo"@ {
        (m, echo_cmd(args))
    } else if name == "set"@ {
        set_cmd(m, args, now)
    } else if name == "get"@ {
        get_cmd(m, args, now)
    } else if name == "del"@ {
        del_cmd(m, args, now)
    } else if name == "mget"@ {
        mget_cmd(m, args, now)
    } else if name == "mset"@ {
        mset_cmd(m, args)
    } else if name == "exists"@ {
        exists_cmd(m, args, now)
    } else if name == "incr"@ {
        incr_cmd(m, args, 1, now, err_frame("wrong number of arguments for 'incr' command"@))
    } else if name == "decr"@ {
        incr_cmd(m, args, -1i64, now, err_frame("wrong number of arguments for 'decr' command"@))
    } else if name == "expire"@ {
        expire_cmd(m, args, now)
    } else if name == "ttl"@ {
        ttl_cmd(m, args, now)
    } else if name == "persist"@ {
        persist_cmd(m, args, now)
    } else if name == "flushdb"@ {
        flush_cmd(m, args)
    } else {
        (m, unknown_reply(name))
    }
}

/// The store and reply after the request `f` at `now`.
pub open spec fn dispatch(m: Space, f: Frame, now: u64) -> (Space, Frame) {
    match f {
        Frame::Array(Some(items)) => if items.len() == 0 {
            (m, err_frame("protocol error: empty command"@))
        } else {
            match command_name(items[0]) {
                None => (m, err_frame("invalid command name"@)),
                Some(name) => run(m, name, items.drop_first(), now),
            }
        },
        _ => (m, err_frame("protocol error: expected command array"@)),
    }
}

/// `MSET` with an odd number of arguments changes nothing in the store and
/// replies with an error.
pub proof fn lemma_mset_odd_rejected(m: Space, args: Seq<Frame>, now: u64)
    requires
        args.len() % 2 == 1,
    ensures
        run(m, "mset"@, args, now) == (m, err_frame("wrong number of arguments for 'mset' command"@)),
{
    reveal_strlit("ping");
    reveal_strlit("echo");
    reveal_strlit("set");
    reveal_strlit("get");
    reveal_strlit("del");
    reveal_strlit("mget");
    reveal_strlit("mset");
    assert("mset"@ != "ping"@ && "mset"@ != "echo"@ && "mset"@ != "mget"@) by {
        assert("mset"@[1] != "ping"@[1]);
        assert("mset"@[0] != "echo"@[0]);
        assert("mset"@[1] != "mget"@[1]);
    }
    assert("mset"@.len() != "set"@.len() && "mset"@.len() != "get"@.len() && "mset"@.len() != "del"@.len());
}

/// Relies on `FromIterator<char>` for `String`: the characters in order.
#[verifier::external_body]
pub(crate) fn string_from_chars(v: &Vec<char>) -> (r: String)
    ensures
        r@ == v@,
{
    v.iter().collect()
}

pub(crate) fn push_chars(out: &mut Vec<char>, s: &str)
    ensures
        final(out)@ == old(out)@ + s@,
{
    let n = s.unicode_len();
    let mut i: usize = 0;
    while i < n
        invariant
            n == s@.len(),
            i <= n,
            out@ == old(out)@ + s@.subrange(0, i as int),
        decreases n - i,
    {
        out.push(s.get_char(i));
        i = i + 1;
        assert(out@ =~= old(out)@ + s@.subrange(0, i as int));
    }
    assert(s@.subrange(0, n as int) =~= s@);
}

fn resp_ok() -> (r: RespValue)
    ensures
        r@ == ok_frame(),
{
    RespValue::SimpleString("OK".to_string())
}

/// An error reply with the code `ERR` and the message `msg`.
fn resp_err(msg: &str) -> (r: RespValue)
    ensures
        r@ == err_frame(msg@),
{
    let mut text: Vec<char> = Vec::new();
    push_chars(&mut text, "ERR ");
    push_chars(&mut text, msg);
    RespValue::Error(string_from_chars(&text))
}

fn resp_pong() -> (r: RespValue)
    ensures
        r@ == Frame::Simple("PONG"@),
{
    RespValue::SimpleString("PONG".to_string())
}

fn lower_char_of(c: char) -> (r: char)
    ensures
        r == lower_char(c),
{
    if 'A' <= c && c <= 'Z' {
        ((c as u32 + 32) as u8) as char
    } else {
        c
    }
}

/// Each byte read as a character, in lower case.
fn lower_ascii(bytes: &[u8]) -> (r: String)
    ensures
        r@ == Seq::new(bytes@.len(), |i: int| lower_char(bytes@[i] as char)),
{
    let mut out: Vec<char> = Vec::new();
    let mut i: usize = 0;
    while i < bytes.len()
        invariant
            i <= bytes@.len(),
            out@ == Seq::new(i as nat, |j: int| lower_char(bytes@[j] as char)),
        decreases bytes@.len() - i,
    {
        out.push(lower_char_of(bytes[i] as char));
        i = i + 1;
        assert(out@ =~= Seq::new(i as nat, |j: int| lower_char(bytes@[j] as char)));
    }
    string_from_chars(&out)
}

/// The characters of `s`, in lower case.
fn lower_text(s: &String) -> (r: String)
    ensures
        r@ == Seq::new(s@.len(), |i: int| lower_char(s@[i])),
{
    let t = s.as_str();
    let n = t.unicode_len();
    let mut out: Vec<char> = Vec::new();
    let mut i: usize = 0;
    while i < n
        invariant
            n == s@.len(),
            t@ == s@,
            i <= n,
            out@ == Seq::new(i as nat, |j: int| lower_char(s@[j])),
        decreases n - i,
    {
        out.push(lower_char_of(t.get_char(i)));
        i = i + 1;
        assert(out@ =~= Seq::new(i as nat, |j: int| lower_char(s@[j])));
    }
    string_from_chars(&out)
}

/// Whether `name` is exactly `w`.
fn name_is(name: &String, w: &str) -> (r: bool)
    ensures
        r == (name@ == w@),
{
    let t = name.as_str();
    let n = t.unicode_len();
    if n != w.unicode_len() {
        return false;
    }
    let mut i: usize = 0;
    while i < n
        invariant
            n == name@.len() == w@.len(),
            t@ == name@,
            i <= n,
            forall|j: int| 0 <= j < i ==> name@[j] == w@[j],
        decreases n - i,
    {
        if t.get_char(i) != w.get_char(i) {
            return false;
        }
        i = i + 1;
    }
    assert(name@ =~= w@);
    true
}

/// The text an argument stands for.
fn bulk_to_string_lossy(arg: &RespValue) -> (r: Option<String>)
    ensures
        match r {
            Some(t) => arg_text(arg@) == Some(t@),
            None => arg_text(arg@) is None,
        },
{
    match arg {
        RespValue::BulkString(Some(b)) => Some(text_from_bytes(b.as_slice())),
        RespValue::SimpleString(s) => Some(s.clone()),
        _ => None,
    }
}

/// The bytes an argument stands for.
fn bulk_to_bytes(arg: &RespValue) -> (r: Option<Vec<u8>>)
    ensures
        match r {
            Some(b) => arg_bytes(arg@) == Some(b@),
            None => arg_bytes(arg@) is None,
        },
{
    match arg {
        RespValue::BulkString(Some(b)) => {
            let mut out: Vec<u8> = Vec::new();
            push_bytes(&mut out, b.as_slice());
            assert(out@ =~= b@);
            Some(out)
        },
        RespValue::SimpleString(s) => {
            let mut out: Vec<u8> = Vec::new();
            push_bytes(&mut out, s.as_str().as_bytes());
            assert(out@ =~= encode_utf8(s@));
            Some(out)
        },
        _ => None,
    }
}

/// The lower-case command name that a request starts with.
fn command_to_string(items: &Vec<RespValue>) -> (r: Option<String>)
    requires
        items@.len() > 0,
    ensures
        match r {
            Some(t) => command_name(items@[0]@) == Some(t@),
            None => command_name(items@[0]@) is None,
        },
{
    match &items[0] {
        RespValue::BulkString(Some(b)) => Some(lower_ascii(b.as_slice())),
        RespValue::SimpleString(s) => Some(lower_text(s)),
        _ => None,
    }
}

proof fn lemma_args(items: Seq<RespValue>)
    requires
        items.len() >= 1,
    ensures
        args_of(items).len() == items.len() - 1,
        forall|i: int| 1 <= i < items.len() ==> args_of(items)[i - 1] == #[trigger] items[i]@,
{
    lemma_frames_of_len(items);
    assert forall|i: int| 1 <= i < items.len() implies args_of(items)[i - 1] == #[trigger] items[i]@ by {
        lemma_frames_of_index(items, i);
    }
}

fn is_ex_token(t: &String) -> (r: bool)
    ensures
        r == is_ex(t@),
{
    let s = t.as_str();
    if s.unicode_len() != 2 {
        return false;
    }
    lower_char_of(s.get_char(0)) == 'e' && lower_char_of(s.get_char(1)) == 'x'
}

/// Reads the arguments of `SET`: key, value, and time to live in
/// milliseconds.
fn parse_set_ttl(items: &Vec<RespValue>) -> (r: Result<(String, Vec<u8>, Option<u64>), RespValue>)
    requires
        items@.len() >= 1,
    ensures
        match r {
            Ok((k, v, t)) => set_args(args_of(items@)) == Ok::<(Seq<char>, Seq<u8>, Option<u64>), Frame>(
                (k@, v@, t),
            ),
            Err(e) => set_args(args_of(items@)) == Err::<(Seq<char>, Seq<u8>, Option<u64>), Frame>(e@),
        },
{
    proof {
        lemma_args(items@);
    }
    let n = items.len() - 1;
    if n < 2 {
        return Err(resp_err("wrong number of arguments for 'set' command"));
    }
    let key = match bulk_to_string_lossy(&items[1]) {
        Some(k) => k,
        None => return Err(resp_err("invalid key")),
    };
    let val = match bulk_to_bytes(&items[2]) {
        Some(v) => v,
        None => return Err(resp_err("invalid value")),
    };
    if n == 2 {
        return Ok((key, val, None));
    }
    if n == 4 {
        let opt = match bulk_to_string_lossy(&items[3]) {
            Some(t) => t,
            None => String::new(),
        };
        if is_ex_token(&opt) {
            let secs_text = match bulk_to_string_lossy(&items[4]) {
                Some(t) => t,
                None => String::new(),
            };
            let secs = match parse_i64(secs_text.as_str().as_bytes()) {
                Some(v) => v,
                None => return Err(resp_err("value is not an integer or out of range")),
            };
            let ms: u64 = if secs < 0 {
                0
            } else if secs as u64 > u64::MAX / 1000 {
                u64::MAX
            } else {
                secs as u64 * 1000
            };
            return Ok((key, val, Some(ms)));
        }
    }
    Err(resp_err("syntax error"))
}

fn cmd_ping(items: &Vec<RespValue>) -> (r: RespValue)
    requires
        items@.len() >= 1,
    ensures
        r@ == ping_cmd(args_of(items@)),
{
    proof {
        lemma_args(items@);
    }
    let n = items.len() - 1;
    if n == 0 {
        resp_pong()
    } else if n == 1 {
        match bulk_to_bytes(&items[1]) {
            Some(b) => RespValue::BulkString(Some(b)),
            None => resp_err("wrong number of arguments for 'ping' command"),
        }
    } else {
        resp_err("wrong number of arguments for 'ping' command")
    }
}

fn cmd_echo(items: &Vec<RespValue>) -> (r: RespValue)
    requires
        items@.len() >= 1,
    ensures
        r@ == echo_cmd(args_of(items@)),
{
    proof {
        lemma_args(items@);
    }
    if items.len() != 2 {
        return resp_err("wrong number of arguments for 'echo' command");
    }
    match bulk_to_bytes(&items[1]) {
        Some(b) => RespValue::BulkString(Some(b)),
        None => RespValue::BulkString(None),
    }
}

fn cmd_set(db: &mut Database, items: &Vec<RespValue>, now: u64) -> (r: RespValue)
    requires
        items@.len() >= 1,
    ensures
        (final(db)@, r@) == set_cmd(old(db)@, args_of(items@), now),
{
    match parse_set_ttl(items) {
        Ok((key, val, ttl)) => {
            db.set(key, val, ttl, now);
            resp_ok()
        },
        Err(e) => e,
    }
}

fn cmd_get(db: &mut Database, items: &Vec<RespValue>, now: u64) -> (r: RespValue)
    requires
        items@.len() >= 1,
    ensures
        (final(db)@, r@) == get_cmd(old(db)@, args_of(items@), now),
{
    proof {
        lemma_args(items@);
    }
    if items.len() != 2 {
        return resp_err("wrong number of arguments for 'get' command");
    }
    let key = match bulk_to_string_lossy(&items[1]) {
        Some(k) => k,
        None => return resp_err("invalid key"),
    };
    match db.get(key.as_str(), now) {
        Some(v) => RespValue::BulkString(Some(v)),
        None => RespValue::BulkString(None),
    }
}

/// The texts among the arguments, in order.
fn arg_texts(items: &Vec<RespValue>) -> (r: Vec<String>)
    requires
        items@.len() >= 1,
    ensures
        r@.map_values(|k: String| k@) == texts_of(args_of(items@)),
        r@.len() <= items@.len(),
{
    proof {
        lemma_args(items@);
    }
    let ghost args = args_of(items@);
    let mut keys: Vec<String> = Vec::new();
    let mut i: usize = 1;
    while i < items.len()
        invariant
            1 <= i <= items@.len(),
            args == args_of(items@),
            args.len() == items@.len() - 1,
            forall|j: int| 1 <= j < items@.len() ==> args[j - 1] == #[trigger] items@[j]@,
            keys@.map_values(|k: String| k@) == texts_of(args.subrange(0, i - 1)),
            keys@.len() < i,
        decreases items@.len() - i,
    {
        let ghost prefix = args.subrange(0, i - 1);
        let ghost next = args.subrange(0, i as int);
        proof {
            assert(next.drop_last() =~= prefix);
            assert(next.last() == items@[i as int]@);
        }
        match bulk_to_string_lossy(&items[i]) {
            Some(k) => {
                let ghost before = keys@;
                keys.push(k);
                assert(keys@.map_values(|k: String| k@) =~= before.map_values(|k: String| k@).push(k@));
            },
            None => {},
        }
        i = i + 1;
    }
    proof {
        assert(args.subrange(0, i - 1) =~= args);
    }
    keys
}

fn cmd_del(db: &mut Database, items: &Vec<RespValue>, now: u64) -> (r: RespValue)
    requires
        items@.len() >= 1,
    ensures
        (final(db)@, r@) == del_cmd(old(db)@, args_of(items@), now),
{
    proof {
        lemma_args(items@);
    }
    if items.len() == 1 {
        return resp_err("wrong number of arguments for 'del' command");
    }
    let keys = arg_texts(items);
    let n = db.del(keys.as_slice(), now);
    RespValue::Integer(n as i64)
}

fn cmd_exists(db: &mut Database, items: &Vec<RespValue>, now: u64) -> (r: RespValue)
    requires
        items@.len() >= 1,
    ensures
        (final(db)@, r@) == exists_cmd(old(db)@, args_of(items@), now),
{
    proof {
        lemma_args(items@);
    }
    if items.len() == 1 {
        return resp_err("wrong number of arguments for 'exists' command");
    }
    let keys = arg_texts(items);
    let n = db.exists_keys(keys.as_slice(), now);
    RespValue::Integer(n as i64)
}

fn cmd_mget(db: &mut Database, items: &Vec<RespValue>, now: u64) -> (r: RespValue)
    requires
        items@.len() >= 1,
    ensures
        (final(db)@, r@) == mget_cmd(old(db)@, args_of(items@), now),
{
    proof {
        lemma_args(items@);
    }
    let ghost args = args_of(items@);
    let mut out: Vec<RespValue> = Vec::new();
    let mut i: usize = 1;
    while i < items.len()
        invariant
            1 <= i <= items@.len(),
            args == args_of(items@),
            args.len() == items@.len() - 1,
            forall|j: int| 1 <= j < items@.len() ==> args[j - 1] == #[trigger] items@[j]@,
            (db@, frames_of(out@)) == mget_all(old(db)@, args.subrange(0, i - 1), now),
        decreases items@.len() - i,
    {
        let ghost prefix = args.subrange(0, i - 1);
        let ghost next = args.subrange(0, i as int);
        proof {
            assert(next.drop_last() =~= prefix);
            assert(next.last() == items@[i as int]@);
        }
        let key = match bulk_to_string_lossy(&items[i]) {
            Some(s) => s,
            None => String::new(),
        };
        let v = match db.get(key.as_str(), now) {
            Some(v) => RespValue::BulkString(Some(v)),
            None => RespValue::BulkString(None),
        };
        let ghost before = out@;
        out.push(v);
        proof {
            assert(out@.drop_last() =~= before);
            assert(out@.last() == v);
            assert(frames_of(out@) == frames_of(before).push(frame_of(v)));
            let k = match arg_text(next.last()) {
                Some(t) => t,
                None => Seq::empty(),
            };
            assert(k == key@);
            assert(mget_all(old(db)@, next, now) == (
                purge(mget_all(old(db)@, prefix, now).0, k, now),
                mget_all(old(db)@, prefix, now).1.push(Frame::Bulk(value_at(mget_all(old(db)@, prefix, now).0, k, now))),
            ));
        }
        i = i + 1;
    }
    proof {
        assert(args.subrange(0, i - 1) =~= args);
    }
    RespValue::Array(Some(out))
}

fn cmd_mset(db: &mut Database, items: &Vec<RespValue>, now: u64) -> (r: RespValue)
    requires
        items@.len() >= 1,
    ensures
        (final(db)@, r@) == mset_cmd(old(db)@, args_of(items@)),
{
    proof {
        lemma_args(items@);
    }
    let ghost args = args_of(items@);
    let n = items.len() - 1;
    if n == 0 || n % 2 != 0 {
        return resp_err("wrong number of arguments for 'mset' command");
    }
    proof {
        assert(args.subrange(0, args.len() as int) =~= args);
    }
    let mut i: usize = 1;
    while i < items.len()
        invariant
            1 <= i <= items@.len(),
            (i - 1) % 2 == 0,
            args == args_of(items@),
            args.len() == items@.len() - 1,
            args.len() % 2 == 0,
            forall|j: int| 1 <= j < items@.len() ==> args[j - 1] == #[trigger] items@[j]@,
            mset_check(args) == mset_check(args.subrange(i - 1, args.len() as int)),
        decreases items@.len() - i,
    {
        let ghost rest = args.subrange(i - 1, args.len() as int);
        proof {
            assert(rest.subrange(2, rest.len() as int) =~= args.subrange(i + 1, args.len() as int));
            assert(rest[0] == items@[i as int]@);
            assert(rest[1] == items@[i + 1]@);
        }
        match bulk_to_string_lossy(&items[i]) {
            Some(_) => {},
            None => return resp_err("invalid key"),
        }
        match bulk_to_bytes(&items[i + 1]) {
            Some(_) => {},
            None => return resp_err("invalid value"),
        }
        i = i + 2;
    }
    proof {
        assert(args.subrange(i - 1, args.len() as int) =~= Seq::<Frame>::empty());
    }
    let mut i: usize = 1;
    while i < items.len()
        invariant
            1 <= i <= items@.len(),
            (i - 1) % 2 == 0,
            args == args_of(items@),
            args.len() == items@.len() - 1,
            args.len() % 2 == 0,
            forall|j: int| 1 <= j < items@.len() ==> args[j - 1] == #[trigger] items@[j]@,
            mset_check(args.subrange(i - 1, args.len() as int)) is None,
            mset_apply(old(db)@, args) == mset_apply(db@, args.subrange(i - 1, args.len() as int)),
        decreases items@.len() - i,
    {
        let ghost rest = args.subrange(i - 1, args.len() as int);
        proof {
            assert(rest.subrange(2, rest.len() as int) =~= args.subrange(i + 1, args.len() as int));
            assert(rest[0] == items@[i as int]@);
            assert(rest[1] == items@[i + 1]@);
        }
        let key = match bulk_to_string_lossy(&items[i]) {
            Some(k) => k,
            None => String::new(),
        };
        let val = match bulk_to_bytes(&items[i + 1]) {
            Some(v) => v,
            None => Vec::new(),
        };
        db.set(key, val, None, now);
        i = i + 2;
    }
    proof {
        assert(args.subrange(0, args.len() as int) =~= args);
        assert(args.subrange(i - 1, args.len() as int) =~= Seq::<Frame>::empty());
    }
    resp_ok()
}

fn cmd_incr(db: &mut Database, items: &Vec<RespValue>, delta: i64, now: u64, arity: &str) -> (r: RespValue)
    requires
        items@.len() >= 1,
    ensures
        (final(db)@, r@) == incr_cmd(old(db)@, args_of(items@), delta, now, err_frame(arity@)),
{
    proof {
        lemma_args(items@);
    }
    if items.len() != 2 {
        return resp_err(arity);
    }
    let key = match bulk_to_string_lossy(&items[1]) {
        Some(k) => k,
        None => return resp_err("invalid key"),
    };
    match db.incr_by(key, delta, now) {
        Ok(v) => RespValue::Integer(v),
        Err(_) => resp_err("value is not an integer or out of range"),
    }
}

fn cmd_expire(db: &mut Database, items: &Vec<RespValue>, now: u64) -> (r: RespValue)
    requires
        items@.len() >= 1,
    ensures
        (final(db)@, r@) == expire_cmd(old(db)@, args_of(items@), now),
{
    proof {
        lemma_args(items@);
    }
    if items.len() != 3 {
        return resp_err("wrong number of arguments for 'expire' command");
    }
    let key = match bulk_to_string_lossy(&items[1]) {
        Some(k) => k,
        None => return resp_err("invalid key"),
    };
    let secs_text = match bulk_to_string_lossy(&items[2]) {
        Some(t) => t,
        None => return resp_err("value is not an integer or out of range"),
    };
    let secs = match parse_i64(secs_text.as_str().as_bytes()) {
        Some(v) => v,
        None => return resp_err("value is not an integer or out of range"),
    };
    if db.expire_seconds(key.as_str(), secs, now) {
        RespValue::Integer(1)
    } else {
        RespValue::Integer(0)
    }
}

fn cmd_ttl(db: &mut Database, items: &Vec<RespValue>, now: u64) -> (r: RespValue)
    requires
        items@.len() >= 1,
    ensures
        (final(db)@, r@) == ttl_cmd(old(db)@, args_of(items@), now),
{
    proof {
        lemma_args(items@);
    }
    if items.len() != 2 {
        return resp_err("wrong number of arguments for 'ttl' command");
    }
    let key = match bulk_to_string_lossy(&items[1]) {
        Some(k) => k,
        None => return resp_err("invalid key"),
    };
    RespValue::Integer(db.ttl_seconds(key.as_str(), now))
}

fn cmd_persist(db: &mut Database, items: &Vec<RespValue>, now: u64) -> (r: RespValue)
    requires
        items@.len() >= 1,
    ensures
        (final(db)@, r@) == persist_cmd(old(db)@, args_of(items@), now),
{
    proof {
        lemma_args(items@);
    }
    if items.len() != 2 {
        return resp_err("wrong number of arguments for 'persist' command");
    }
    let key = match bulk_to_string_lossy(&items[1]) {
        Some(k) => k,
        None => return resp_err("invalid key"),
    };
    if db.persist(key.as_str(), now) {
        RespValue::Integer(1)
    } else {
        RespValue::Integer(0)
    }
}

fn cmd_flushdb(db: &mut Database, items: &Vec<RespValue>) -> (r: RespValue)
    requires
        items@.len() >= 1,
    ensures
        (final(db)@, r@) == flush_cmd(old(db)@, args_of(items@)),
{
    proof {
        lemma_args(items@);
    }
    if items.len() != 1 {
        return resp_err("wrong number of arguments for 'flushdb' command");
    }
    db.flushdb();
    resp_ok()
}

fn unknown_command(name: &String) -> (r: RespValue)
    ensures
        r@ == unknown_reply(name@),
{
    let mut text: Vec<char> = Vec::new();
    push_chars(&mut text, "unknown command '");
    push_chars(&mut text, name.as_str());
    push_chars(&mut text, "'");
    let msg = string_from_chars(&text);
    resp_err(msg.as_str())
}

/// Runs one request against the store at time `now` (milliseconds of a
/// monotonic clock) and returns the reply. Every failure is a reply.
pub fn process_command(db: &mut Database, frame: RespValue, now: u64) -> (r: RespValue)
    ensures
        (final(db)@, r@) == dispatch(old(db)@, frame@, now),
{
    let items = match frame {
        RespValue::Array(Some(items)) => items,
        _ => return resp_err("protocol error: expected command array"),
    };
    proof {
        lemma_frames_of_len(items@);
    }
    if items.len() == 0 {
        return resp_err("protocol error: empty command");
    }
    proof {
        lemma_frames_of_index(items@, 0);
        assert(frames_of(items@).drop_first() == args_of(items@));
    }
    let name = match command_to_string(&items) {
        Some(c) => c,
        None => return resp_err("invalid command name"),
    };
    if name_is(&name, "ping") {
        cmd_ping(&items)
    } else if name_is(&name, "echo") {
        cmd_echo(&items)
    } else if name_is(&name, "set") {
        cmd_set(db, &items, now)
    } else if name_is(&name, "get") {
        cmd_get(db, &items, now)
    } else if name_is(&name, "del") {
        cmd_del(db, &items, now)
    } else if name_is(&name, "mget") {
        cmd_mget(db, &items, now)
    } else if name_is(&name, "mset") {
        cmd_mset(db, &items, now)
    } else if name_is(&name, "exists") {
        cmd_exists(db, &items, now)
    } else if name_is(&name, "incr") {
        cmd_incr(db, &items, 1, now, "wrong number of arguments for 'incr' command")
    } else if name_is(&name, "decr") {
        cmd_incr(db, &items, -1, now, "wrong number of arguments for 'decr' command")
    } else if name_is(&name, "expire") {
        cmd_expire(db, &items, now)
    } else if name_is(&name, "ttl") {
        cmd_ttl(db, &items, now)
    } else if name_is(&name, "persist") {
        cmd_persist(db, &items, now)
    } else if name_is(&name, "flushdb") {
        cmd_flushdb(db, &items)
    } else {
        unknown_command(&name)
    }
}

} // verus!
