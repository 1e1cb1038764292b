//! The command layer: translating a decoded protocol value into a typed
//! command (case-insensitive names, with the wire format's documented
//! fallbacks for missing or non-string arguments), executing a command
//! against the store, and turning the response back into a protocol value.
//! A request that is no array, an empty array, or an unrecognized command
//! name produces the `unknown command` error and leaves the store untouched.
use crate::bytes::bytes_eq;
use crate::bytes::copy_bytes;
use crate::kvstore::KvStatus;
use crate::kvstore::KvStore;
use crate::kvstore::ValueV;
use crate::kvstore::current_time;
use crate::kvstore::fresh;
use crate::kvstore::get_matches;
use crate::numbers::parse_uint;
use crate::resp::Resp;
use crate::resp::RespV;
use crate::resp::lemma_seq_view;
use crate::resp::seq_view;
use vstd::prelude::*;

verus! {

broadcast use vstd::seq::group_seq_axioms, vstd::std_specs::vec::group_vec_axioms;

/// One typed client request.
#[derive(Debug, PartialEq)]
pub enum Command {
    Ping,
    Echo(Vec<u8>),
    SetKey(Vec<u8>, Vec<u8>, Option<u64>),
    Get(Vec<u8>),
}

/// The model of a command.
pub enum CommandV {
    Ping,
    Echo(Seq<u8>),
    SetKey(Seq<u8>, Seq<u8>, Option<u64>),
    Get(Seq<u8>),
}

impl Command {
    pub open spec fn view(self) -> CommandV {
        match self {
            Command::Ping => CommandV::Ping,
            Command::Echo(s) => CommandV::Echo(s@),
            Command::SetKey(k, v, ttl) => CommandV::SetKey(k@, v@, ttl),
            Command::Get(k) => CommandV::Get(k@),
        }
    }
}

/// One typed reply, pure data until encoded.
#[derive(Debug, PartialEq)]
pub enum Response {
    Pong,
    Echo(Vec<u8>),
    Okay,
    Value(Vec<u8>),
    Error(Vec<u8>),
    Null,
}

/// The model of a response.
pub enum ResponseV {
    Pong,
    Echo(Seq<u8>),
    Okay,
    Value(Seq<u8>),
    Error(Seq<u8>),
    Null,
}

impl Response {
    pub open spec fn view(self) -> ResponseV {
        match self {
            Response::Pong => ResponseV::Pong,
            Response::Echo(s) => ResponseV::Echo(s@),
            Response::Okay => ResponseV::Okay,
            Response::Value(s) => ResponseV::Value(s@),
            Response::Error(s) => ResponseV::Error(s@),
            Response::Null => ResponseV::Null,
        }
    }
}

/// The bytes of `PING`.
pub open spec fn ping_text() -> Seq<u8> {
    seq![80u8, 73u8, 78u8, 71u8]
}

/// The bytes of `ECHO`.
pub open spec fn echo_text() -> Seq<u8> {
    seq![69u8, 67u8, 72u8, 79u8]
}

/// The bytes of `SET`.
pub open spec fn set_text() -> Seq<u8> {
    seq![83u8, 69u8, 84u8]
}

/// The bytes of `GET`.
pub open spec fn get_text() -> Seq<u8> {
    seq![71u8, 69u8, 84u8]
}

/// The bytes of `PONG`.
pub open spec fn pong_text() -> Seq<u8> {
    seq![80u8, 79u8, 78u8, 71u8]
}

/// The bytes of `OK`.
pub open spec fn ok_text() -> Seq<u8> {
    seq![79u8, 75u8]
}

/// The bytes of `key not found`.
pub open spec fn key_not_found_text() -> Seq<u8> {
    seq![107u8, 101u8, 121u8, 32u8, 110u8, 111u8, 116u8, 32u8, 102u8, 111u8, 117u8, 110u8, 100u8]
}

/// The bytes of `unknown command`.
pub open spec fn unknown_command_text() -> Seq<u8> {
    seq![117u8, 110u8, 107u8, 110u8, 111u8, 119u8, 110u8, 32u8, 99u8, 111u8, 109u8, 109u8, 97u8, 110u8, 100u8]
}

/// The bytes of `PONG`.
fn pong_vec() -> (r: Vec<u8>)
    ensures
        r@ == pong_text(),
{
    let mut v: Vec<u8> = Vec::new();
    v.push(80);
    v.push(79);
    v.push(78);
    v.push(71);
    proof {
        assert(v@ =~= pong_text());
    }
    v
}

/// The bytes of `OK`.
fn ok_vec() -> (r: Vec<u8>)
    ensures
        r@ == ok_text(),
{
    let mut v: Vec<u8> = Vec::new();
    v.push(79);
    v.push(75);
    proof {
        assert(v@ =~= ok_text());
    }
    v
}

/// The bytes of `key not found`.
fn key_not_found_vec() -> (r: Vec<u8>)
    ensures
        r@ == key_not_found_text(),
{
    let mut v: Vec<u8> = Vec::new();
    v.push(107);
    v.push(101);
    v.push(121);
    v.push(32);
    v.push(110);
    v.push(111);
    v.push(116);
    v.push(32);
    v.push(102);
    v.push(111);
    v.push(117);
    v.push(110);
    v.push(100);
    proof {
        assert(v@ =~= key_not_found_text());
    }
    v
}

/// The bytes of `unknown command`.
fn unknown_command_vec() -> (r: Vec<u8>)
    ensures
        r@ == unknown_command_text(),
{
    let mut v: Vec<u8> = Vec::new();
    v.push(117);
    v.push(110);
    v.push(107);
    v.push(110);
    v.push(111);
    v.push(119);
    v.push(110);
    v.push(32);
    v.push(99);
    v.push(111);
    v.push(109);
    v.push(109);
    v.push(97);
    v.push(110);
    v.push(100);
    proof {
        assert(v@ =~= unknown_command_text());
    }
    v
}

/// The bytes of `PING`.
fn ping_vec() -> (r: Vec<u8>)
    ensures
        r@ == ping_text(),
{
    let mut v: Vec<u8> = Vec::new();
    v.push(80);
    v.push(73);
    v.push(78);
    v.push(71);
    proof {
        assert(v@ =~= ping_text());
    }
    v
}

/// The bytes of `ECHO`.
fn echo_vec() -> (r: Vec<u8>)
    ensures
        r@ == echo_text(),
{
    let mut v: Vec<u8> = Vec::new();
    v.push(69);
    v.push(67);
    v.push(72);
    v.push(79);
    proof {
        assert(v@ =~= echo_text());
    }
    v
}

/// The bytes of `SET`.
fn set_vec() -> (r: Vec<u8>)
    ensures
        r@ == set_text(),
{
    let mut v: Vec<u8> = Vec::new();
    v.push(83);
    v.push(69);
    v.push(84);
    proof {
        assert(v@ =~= set_text());
    }
    v
}

/// The bytes of `GET`.
fn get_vec() -> (r: Vec<u8>)
    ensures
        r@ == get_text(),
{
    let mut v: Vec<u8> = Vec::new();
    v.push(71);
    v.push(69);
    v.push(84);
    proof {
        assert(v@ =~= get_text());
    }
    v
}

/// A byte's upper-case form, for the ASCII letters alone.
pub open spec fn to_upper(b: u8) -> u8 {
    if 97 <= b <= 122 {
        (b - 32) as u8
    } else {
        b
    }
}

/// A byte string with each ASCII letter upper-cased.
pub open spec fn upper_of(s: Seq<u8>) -> Seq<u8> {
    s.map_values(|b: u8| to_upper(b))
}

/// The text a protocol value carries, where it is string-like: a simple
/// string or a present bulk string.
pub open spec fn str_of(v: RespV) -> Option<Seq<u8>> {
    match v {
        RespV::SimpleString(s) => Some(s),
        RespV::BulkString(Some(s)) => Some(s),
        _ => None,
    }
}

/// The text of the element at `i`, or empty where the element is missing or
/// not string-like: the documented fallback for command arguments.
pub open spec fn arg_or_empty(elems: Seq<RespV>, i: int) -> Seq<u8> {
    if 0 <= i < elems.len() {
        match str_of(elems[i]) {
            Some(s) => s,
            None => Seq::empty(),
        }
    } else {
        Seq::empty()
    }
}

/// The time-to-live of a store request: the element at index four read as an
/// unsigned count of milliseconds; none when it is absent, not a bulk
/// string, or not a number.
pub open spec fn ttl_of(elems: Seq<RespV>) -> Option<u64> {
    if elems.len() >= 5 {
        match elems[4] {
            RespV::BulkString(Some(e)) => match parse_uint(e) {
                Some(n) => Some(n as u64),
                None => None,
            },
            _ => None,
        }
    } else {
        None
    }
}

/// The command a protocol value denotes, if any: a non-empty array whose
/// first element is string-like and names one of the four commands,
/// case-insensitively. Anything else denotes no command.
pub open spec fn spec_command(v: RespV) -> Option<CommandV> {
    match v {
        RespV::Array(Some(elems)) => if elems.len() == 0 {
            None
        } else {
            match str_of(elems[0]) {
                None => None,
                Some(name) => {
                    let up = upper_of(name);
                    if up == ping_text() {
                        Some(CommandV::Ping)
                    } else if up == echo_text() {
                        Some(CommandV::Echo(arg_or_empty(elems, 1)))
                    } else if up == set_text() {
                        Some(
                            CommandV::SetKey(
                                arg_or_empty(elems, 1),
                                arg_or_empty(elems, 2),
                                ttl_of(elems),
                            ),
                        )
                    } else if up == get_text() {
                        Some(CommandV::Get(arg_or_empty(elems, 1)))
                    } else {
                        None
                    }
                },
            }
        },
        _ => None,
    }
}

/// The protocol value that carries a response to the client.
pub open spec fn resp_of(r: ResponseV) -> RespV {
    match r {
        ResponseV::Pong => RespV::SimpleString(pong_text()),
        ResponseV::Echo(s) => RespV::BulkString(Some(s)),
        ResponseV::Okay => RespV::SimpleString(ok_text()),
        ResponseV::Value(s) => RespV::BulkString(Some(s)),
        ResponseV::Error(s) => RespV::Error(s),
        ResponseV::Null => RespV::BulkString(None),
    }
}

/// A byte string with each ASCII letter upper-cased.
fn upper_bytes(v: &Vec<u8>) -> (r: Vec<u8>)
    ensures
        r@ == upper_of(v@),
{
    let mut r: Vec<u8> = Vec::new();
    let mut i: usize = 0;
    while i < v.len()
        invariant
            i <= v@.len(),
            r@ == upper_of(v@.take(i as int)),
        decreases v@.len() - i,
    {
        let b = v[i];
        let u: u8 = if 97 <= b && b <= 122 {
            b - 32
        } else {
            b
        };
        r.push(u);
        proof {
            assert(upper_of(v@.take(i as int + 1)) =~= upper_of(v@.take(i as int)).push(
                to_upper(v@[i as int]),
            ));
        }
        i = i + 1;
    }
    proof {
        assert(v@.take(v@.len() as int) =~= v@);
    }
    r
}

/// The text of the element at `i`, or empty: the argument fallback.
fn arg_at(elems: &Vec<Resp>, i: usize) -> (r: Vec<u8>)
    ensures
        r@ == arg_or_empty(seq_view(elems@), i as int),
{
    proof {
        lemma_seq_view(elems@);
    }
    if i < elems.len() {
        match &elems[i] {
            Resp::SimpleString(s) => copy_bytes(s),
            Resp::BulkString(Some(s)) => copy_bytes(s),
            _ => Vec::new(),
        }
    } else {
        Vec::new()
    }
}

impl Command {
    /// The command the decoded request denotes, exactly as `spec_command`
    /// describes; `None` where the request is no command at all.
    pub fn from_resp(v: &Resp) -> (r: Option<Command>)
        ensures
            match r {
                Some(c) => spec_command(v@) == Some(c@),
                None => spec_command(v@) is None,
            },
    {
        match v {
            Resp::Array(Some(elems)) => {
                proof {
                    lemma_seq_view(elems@);
                }
                if elems.len() == 0 {
                    return None;
                }
                let name: &Vec<u8> = match &elems[0] {
                    Resp::SimpleString(s) => s,
                    Resp::BulkString(Some(s)) => s,
                    _ => {
                        return None;
                    },
                };
                let up = upper_bytes(name);
                if bytes_eq(&up, &ping_vec()) {
                    Some(Command::Ping)
                } else if bytes_eq(&up, &echo_vec()) {
                    Some(Command::Echo(arg_at(elems, 1)))
                } else if bytes_eq(&up, &set_vec()) {
                    let key = arg_at(elems, 1);
                    let value = arg_at(elems, 2);
                    let ttl: Option<u64> = if elems.len() >= 5 {
                        match &elems[4] {
                            Resp::BulkString(Some(e)) => {
                                let p = crate::numbers::parse_u64_bytes(e, 0, e.len());
                                proof {
                                    assert(e@.subrange(0, e@.len() as int) =~= e@);
                                }
                                p
                            },
                            _ => None,
                        }
                    } else {
                        None
                    };
                    Some(Command::SetKey(key, value, ttl))
                } else if bytes_eq(&up, &get_vec()) {
                    Some(Command::Get(arg_at(elems, 1)))
                } else {
                    None
                }
            },
            _ => None,
        }
    }
}

impl Response {
    /// The protocol value that carries this response, as `resp_of` says.
    pub fn to_resp(self) -> (r: Resp)
        ensures
            r@ == resp_of(self@),
    {
        match self {
            Response::Pong => Resp::SimpleString(pong_vec()),
            Response::Echo(s) => Resp::BulkString(Some(s)),
            Response::Okay => Resp::SimpleString(ok_vec()),
            Response::Value(s) => Resp::BulkString(Some(s)),
            Response::Error(s) => Resp::Error(s),
            Response::Null => Resp::BulkString(None),
        }
    }
}

/// What executing one command does to the store and answers, at clock
/// reading `now`: ping and echo answer without touching the store; a store
/// request inserts or overwrites and answers `Okay`; a read leaves the store
/// as it is and answers the value while fresh, `key not found` for an absent
/// key, and the null marker once expired.
pub open spec fn command_matches(
    cmd: CommandV,
    pre: Map<Seq<u8>, ValueV>,
    post: Map<Seq<u8>, ValueV>,
    r: ResponseV,
    now: u128,
) -> bool {
    match cmd {
        CommandV::Ping => r == ResponseV::Pong && post == pre,
        CommandV::Echo(s) => r == ResponseV::Echo(s) && post == pre,
        CommandV::SetKey(k, v, ttl) => r == ResponseV::Okay && post == pre.insert(
            k,
            ValueV { value: v, timestamp: now, expiry: ttl },
        ),
        CommandV::Get(k) => post == pre && (match r {
            ResponseV::Value(v) => pre.contains_key(k) && fresh(pre[k], now) && v == pre[k].value,
            ResponseV::Error(m) => !pre.contains_key(k) && m == key_not_found_text(),
            ResponseV::Null => pre.contains_key(k) && !fresh(pre[k], now),
            _ => false,
        }),
    }
}

/// What one full dispatch cycle does: a request that denotes no command
/// answers the `unknown command` error and leaves the store untouched; a
/// command is executed as `command_matches` says and its response encoded
/// as `resp_of` says.
pub open spec fn dispatch_matches(
    v: RespV,
    pre: Map<Seq<u8>, ValueV>,
    post: Map<Seq<u8>, ValueV>,
    out: RespV,
    now: u128,
) -> bool {
    match spec_command(v) {
        None => out == RespV::Error(unknown_command_text()) && post == pre,
        Some(c) => exists|r: ResponseV| command_matches(c, pre, post, r, now) && out == resp_of(r),
    }
}

/// The dispatcher: stateless but for the store it executes commands against.
pub struct Redis {
    kvstore: KvStore,
}

impl Redis {
    /// The store the dispatcher holds, as a map.
    pub closed spec fn view(self) -> Map<Seq<u8>, ValueV> {
        self.kvstore@
    }

    /// A dispatcher over an empty store.
    pub fn init() -> (r: Redis)
        ensures
            r@ == Map::<Seq<u8>, ValueV>::empty(),
    {
        Redis { kvstore: KvStore::new() }
    }

    /// Executes one command against the store at clock reading `now`.
    pub fn handle_command_at(&mut self, input: Command, now: u128) -> (r: Response)
        ensures
            command_matches(input@, old(self)@, final(self)@, r@, now),
    {
        match input {
            Command::Ping => Response::Pong,
            Command::Echo(s) => Response::Echo(s),
            Command::SetKey(key, value, ttl) => {
                self.kvstore.set_at(key, value, ttl, now);
                Response::Okay
            },
            Command::Get(key) => {
                let st = self.kvstore.get_at(&key, now);
                proof {
                    assert(get_matches(st, self@, key@, now));
                }
                match st {
                    KvStatus::Found(v) => Response::Value(v),
                    KvStatus::KeyNotFound => Response::Error(key_not_found_vec()),
                    KvStatus::KeyExpired => Response::Null,
                }
            },
        }
    }

    /// Executes one command, stamping and judging expiry by the wall clock
    /// read at call time.
    pub fn handle_command(&mut self, input: Command) -> (r: Response)
        ensures
            exists|now: u128| command_matches(input@, old(self)@, final(self)@, r@, now),
    {
        let now = current_time();
        let r = self.handle_command_at(input, now);
        r
    }

    /// One full dispatch cycle at clock reading `now`: translate the decoded
    /// request, execute it, and answer with a protocol value.
    pub fn handle_resp_at(&mut self, v: &Resp, now: u128) -> (r: Resp)
        ensures
            dispatch_matches(v@, old(self)@, final(self)@, r@, now),
    {
        match Command::from_resp(v) {
            None => Resp::Error(unknown_command_vec()),
            Some(c) => {
                let ghost cv = c@;
                let resp = self.handle_command_at(c, now);
                let ghost rv = resp@;
                let out = resp.to_resp();
                proof {
                    assert(command_matches(cv, old(self)@, self@, rv, now) && out@ == resp_of(rv));
                }
                out
            },
        }
    }

    /// One full dispatch cycle against the wall clock read at call time.
    pub fn handle_resp(&mut self, v: &Resp) -> (r: Resp)
        ensures
            exists|now: u128| dispatch_matches(v@, old(self)@, final(self)@, r@, now),
    {
        let now = current_time();
        let r = self.handle_resp_at(v, now);
        r
    }
}

} // verus!
