//! Commands: checks the name and arity of a request, runs it on the keyspace,
//! and gives the typed reply.
use vstd::prelude::*;
use crate::codec::{
    crlf, decode, decodes_to, encode, has_bad_text, protocol_error_text, reply_bytes, request_at, texts,
    Decoded, Reply,
};
use vstd::utf8::encode_utf8;
use crate::database::{
    add_result, expire_result, live, lists_selected, lookup, not_an_integer, opt_text, persist_result,
    purged, ttl_of, Keyspace, DB,
};
use crate::text::{equal_ignore_case, eq_ignore_case, i64_of_text, parse_i64};

verus! {

/// What a command answers, before it is put in a reply.
pub enum Answer {
    Status(Seq<char>),
    Failure(Seq<char>),
    Number(int),
    Text(Option<Seq<char>>),
    /// The live keys that a pattern selects.
    Keys(Seq<char>),
}

/// Whether reply `r` carries answer `a`, keys read from keyspace `m` at `now`.
pub open spec fn answers(r: Reply, a: Answer, m: Keyspace, now: u64) -> bool {
    match a {
        Answer::Status(s) => match r {
            Reply::SimpleString(t) => t@ == s,
            _ => false,
        },
        Answer::Failure(s) => match r {
            Reply::Error(t) => t@ == s,
            _ => false,
        },
        Answer::Number(n) => match r {
            Reply::Integer(v) => v == n,
            _ => false,
        },
        Answer::Text(s) => match r {
            Reply::BulkString(t) => opt_text(t) == s,
            _ => false,
        },
        Answer::Keys(p) => match r {
            Reply::Array(Some(v)) => exists|ks: Seq<String>| #[trigger] bulk_list(v@, ks) && lists_selected(ks, m, p, now),
            _ => false,
        },
    }
}

/// Whether `v` holds the bulk strings `ks`, in order.
pub open spec fn bulk_list(v: Seq<Reply>, ks: Seq<String>) -> bool {
    ks.len() == v.len() && forall|i: int| 0 <= i < ks.len() ==> v[i] == Reply::BulkString(Some(#[trigger] ks[i]))
}

pub open spec fn arity_error(name: Seq<char>) -> Seq<char> {
    "wrong number of arguments for '"@ + name + "' command"@
}

pub open spec fn unknown_command(name: Seq<char>) -> Seq<char> {
    "unknown command '"@ + name + "'"@
}

pub open spec fn flag(b: bool) -> int {
    if b {
        1
    } else {
        0
    }
}

/// The keyspace after the command `args` (name first) at `now`, and its answer.
pub open spec fn outcome(m: Keyspace, args: Seq<Seq<char>>, now: u64) -> (Keyspace, Answer) {
    let name = args[0];
    let n = args.len() - 1;
    if eq_ignore_case(name, "GET"@) {
        if n != 1 {
            (m, Answer::Failure(arity_error("GET"@)))
        } else {
            (purged(m, args[1], now), Answer::Text(lookup(m, args[1], now)))
        }
    } else if eq_ignore_case(name, "SET"@) {
        if n != 2 {
            (m, Answer::Failure(arity_error("SET"@)))
        } else {
            (m.insert(args[1], (args[2], None)), Answer::Status("OK"@))
        }
    } else if eq_ignore_case(name, "DEL"@) {
        if n != 1 {
            (m, Answer::Failure(arity_error("DEL"@)))
        } else {
            (m.remove(args[1]), Answer::Number(flag(live(m, args[1], now))))
        }
    } else if eq_ignore_case(name, "EXISTS"@) {
        if n != 1 {
            (m, Answer::Failure(arity_error("EXISTS"@)))
        } else {
            (m, Answer::Number(flag(live(m, args[1], now))))
        }
    } else if eq_ignore_case(name, "INCR"@) || eq_ignore_case(name, "DECR"@) {
        let up = eq_ignore_case(name, "INCR"@);
        if n != 1 {
            (m, Answer::Failure(arity_error(if up { "INCR"@ } else { "DECR"@ })))
        } else {
            let res = add_result(m, args[1], if up { 1 } else { -1 }, now);
            match res.1 {
                Some(v) => (res.0, Answer::Number(v as int)),
                None => (res.0, Answer::Failure(not_an_integer())),
            }
        }
    } else if eq_ignore_case(name, "KEYS"@) {
        if n != 1 {
            (m, Answer::Failure(arity_error("KEYS"@)))
        } else {
            (m, Answer::Keys(args[1]))
        }
    } else if eq_ignore_case(name, "EXPIRE"@) {
        if n != 2 {
            (m, Answer::Failure(arity_error("EXPIRE"@)))
        } else {
            match i64_of_text(args[2]) {
                Some(s) => if s >= 0 {
                    let res = expire_result(m, args[1], s as u64, now);
                    (res.0, Answer::Number(flag(res.1)))
                } else {
                    (m, Answer::Failure(not_an_integer()))
                },
                None => (m, Answer::Failure(not_an_integer())),
            }
        }
    } else if eq_ignore_case(name, "TTL"@) {
        if n != 1 {
            (m, Answer::Failure(arity_error("TTL"@)))
        } else {
            (purged(m, args[1], now), Answer::Number(ttl_of(m, args[1], now)))
        }
    } else if eq_ignore_case(name, "PERSIST"@) {
        if n != 1 {
            (m, Answer::Failure(arity_error("PERSIST"@)))
        } else {
            let res = persist_result(m, args[1], now);
            (res.0, Answer::Number(flag(res.1)))
        }
    } else {
        (m, Answer::Failure(unknown_command(name)))
    }
}

fn error_reply(before: &str, name: &str, after: &str) -> (r: Reply)
    ensures
        r == Reply::Error(r->Error_0),
        r->Error_0@ == before@ + name@ + after@,
{
    let mut s = String::from_str(before);
    s.append(name);
    s.append(after);
    Reply::Error(s)
}

fn arity_reply(name: &str) -> (r: Reply)
    ensures
        answers(r, Answer::Failure(arity_error(name@)), Map::empty(), 0),
{
    error_reply("wrong number of arguments for '", name, "' command")
}

fn not_an_integer_reply() -> (r: Reply)
    ensures
        answers(r, Answer::Failure(not_an_integer()), Map::empty(), 0),
{
    Reply::Error(String::from_str("value is not an integer or out of range"))
}

fn number_reply(b: bool) -> (r: Reply)
    ensures
        answers(r, Answer::Number(flag(b)), Map::empty(), 0),
{
    Reply::Integer(if b { 1 } else { 0 })
}

/// Runs commands on a keyspace that it owns.
pub struct Interpreter {
    db: DB,
}

impl View for Interpreter {
    type V = Keyspace;

    closed spec fn view(&self) -> Keyspace {
        self.db@
    }
}

impl Interpreter {
    pub closed spec fn wf(&self) -> bool {
        self.db.wf()
    }

    pub fn new(db: DB) -> (r: Interpreter)
        requires
            db.wf(),
        ensures
            r.wf(),
            r@ == db@,
    {
        Interpreter { db }
    }

    /// The clock reading of the keyspace, in milliseconds.
    pub fn now(&self) -> u64 {
        self.db.now()
    }

    /// Runs the command `args` (its name first) at clock reading `now`.
    pub fn exec_args_at(&mut self, args: Vec<String>, now: u64) -> (r: Reply)
        requires
            old(self).wf(),
            args@.len() >= 1,
        ensures
            final(self).wf(),
            final(self)@ == outcome(old(self)@, texts(args@), now).0,
            answers(r, outcome(old(self)@, texts(args@), now).1, old(self)@, now),
    {
        let ghost a = texts(args@);
        assert(a[0] == args@[0]@);
        assert(a.len() == args@.len());
        let n = args.len() - 1;
        let name = args[0].as_str();
        if n >= 1 {
            assert(a[1] == args@[1]@);
        }
        if n >= 2 {
            assert(a[2] == args@[2]@);
        }
        if equal_ignore_case(name, "GET") {
            if n != 1 {
                return arity_reply("GET");
            }
            let v = self.db.get_at(args[1].clone(), now);
            Reply::BulkString(v)
        } else if equal_ignore_case(name, "SET") {
            if n != 2 {
                return arity_reply("SET");
            }
            self.db.set(args[1].clone(), args[2].clone());
            Reply::SimpleString(String::from_str("OK"))
        } else if equal_ignore_case(name, "DEL") {
            if n != 1 {
                return arity_reply("DEL");
            }
            let existed = self.db.exists_at(args[1].clone(), now);
            self.db.del(args[1].clone());
            number_reply(existed)
        } else if equal_ignore_case(name, "EXISTS") {
            if n != 1 {
                return arity_reply("EXISTS");
            }
            number_reply(self.db.exists_at(args[1].clone(), now))
        } else if equal_ignore_case(name, "INCR") || equal_ignore_case(name, "DECR") {
            let up = equal_ignore_case(name, "INCR");
            if n != 1 {
                return if up {
                    arity_reply("INCR")
                } else {
                    arity_reply("DECR")
                };
            }
            let res = if up {
                self.db.incr_at(args[1].clone(), now)
            } else {
                self.db.decr_at(args[1].clone(), now)
            };
            match res {
                Ok(v) => Reply::Integer(v),
                Err(_) => not_an_integer_reply(),
            }
        } else if equal_ignore_case(name, "KEYS") {
            if n != 1 {
                return arity_reply("KEYS");
            }
            let ks = self.db.keys_at(args[1].clone(), now);
            let mut v: Vec<Reply> = Vec::new();
            let mut i: usize = 0;
            while i < ks.len()
                invariant
                    i <= ks@.len(),
                    v@.len() == i,
                    forall|j: int| 0 <= j < i ==> v@[j] == Reply::BulkString(Some(#[trigger] ks@[j])),
                decreases ks@.len() - i,
            {
                v.push(Reply::BulkString(Some(ks[i].clone())));
                i = i + 1;
            }
            let ghost vv = v@;
            let r = Reply::Array(Some(v));
            assert(lists_selected(ks@, old(self)@, a[1], now));
            assert(bulk_list(vv, ks@));
            assert(r is Array && r->Array_0 is Some);
            assert(r->Array_0->Some_0@ == vv);
            assert(bulk_list(r->Array_0->Some_0@, ks@) && lists_selected(ks@, old(self)@, a[1], now));
            assert(answers(r, Answer::Keys(a[1]), old(self)@, now));
            r
        } else if equal_ignore_case(name, "EXPIRE") {
            if n != 2 {
                return arity_reply("EXPIRE");
            }
            match parse_i64(args[2].as_str()) {
                Some(s) => {
                    if s < 0 {
                        return not_an_integer_reply();
                    }
                    number_reply(self.db.expire_at(args[1].clone(), s as u64, now))
                },
                None => not_an_integer_reply(),
            }
        } else if equal_ignore_case(name, "TTL") {
            if n != 1 {
                return arity_reply("TTL");
            }
            Reply::Integer(self.db.ttl_at(args[1].clone(), now))
        } else if equal_ignore_case(name, "PERSIST") {
            if n != 1 {
                return arity_reply("PERSIST");
            }
            number_reply(self.db.persist_at(args[1].clone(), now))
        } else {
            let r = error_reply("unknown command '", name, "'");
            assert(answers(r, Answer::Failure(unknown_command(a[0])), old(self)@, now));
            r
        }
    }

    /// Runs the command `args` (its name first) at the current clock reading.
    pub fn exec_args(&mut self, args: Vec<String>) -> (r: Reply)
        requires
            old(self).wf(),
            args@.len() >= 1,
        ensures
            final(self).wf(),
            exists|now: u64|
                final(self)@ == (#[trigger] outcome(old(self)@, texts(args@), now)).0 && answers(
                    r,
                    outcome(old(self)@, texts(args@), now).1,
                    old(self)@,
                    now,
                ),
    {
        let now = self.db.now();
        self.exec_args_at(args, now)
    }

    /// Handles the request at the start of `buf` at clock reading `now`.
    pub fn step_at(&mut self, buf: &[u8], now: u64) -> (r: Step)
        requires
            old(self).wf(),
        ensures
            final(self).wf(),
            match r {
                Step::Wait => request_at(buf@) is More && final(self)@ == old(self)@,
                Step::Close(out) => (request_at(buf@) is Bad || has_bad_text(buf@)) && final(self)@ == old(self)@
                    && out@ == seq![45u8] + encode_utf8("Protocol error: "@ + protocol_error_text(buf@)) + crlf(),
                Step::Skip(n) => decodes_to(buf@, Seq::empty(), n as int) && final(self)@ == old(self)@,
                Step::Respond(out, n) => exists|args: Seq<Seq<char>>, rep: Reply|
                    #[trigger] responds(buf@, n as int, out@, old(self)@, final(self)@, now, args, rep),
            },
    {
        match decode(buf) {
            Decoded::Incomplete => {
                assert(request_at(buf@) is More);
                Step::Wait
            },
            Decoded::ProtocolError(msg) => {
                let mut text = String::from_str("Protocol error: ");
                text.append(msg.as_str());
                let rep = Reply::Error(text);
                let out = encode(&rep);
                assert(out@ == seq![45u8] + encode_utf8("Protocol error: "@ + protocol_error_text(buf@)) + crlf());
                Step::Close(out)
            },
            Decoded::Parsed(args, n) => {
                if args.len() == 0 {
                    assert(texts(args@) =~= Seq::<Seq<char>>::empty());
                    assert(decodes_to(buf@, Seq::empty(), n as int));
                    return Step::Skip(n);
                }
                let ghost a = texts(args@);
                assert(a.len() == args@.len());
                let rep = self.exec_args_at(args, now);
                let out = encode(&rep);
                let ghost out_view = out@;
                assert(responds(buf@, n as int, out_view, old(self)@, self@, now, a, rep));
                let r = Step::Respond(out, n);
                assert(r->Respond_0@ == out_view);
                assert(r->Respond_1 == n);
                assert(exists|args: Seq<Seq<char>>, rep: Reply|
                    #[trigger] responds(buf@, r->Respond_1 as int, r->Respond_0@, old(self)@, self@, now, args, rep));
                r
            },
        }
    }
}

/// Whether `out` answers the request `args` that starts `buf` and is `n`
/// bytes long: reply `rep` on the wire, keyspace `m0` becoming `m1`.
pub open spec fn responds(
    buf: Seq<u8>,
    n: int,
    out: Seq<u8>,
    m0: Keyspace,
    m1: Keyspace,
    now: u64,
    args: Seq<Seq<char>>,
    rep: Reply,
) -> bool {
    &&& decodes_to(buf, args, n)
    &&& args.len() >= 1
    &&& out == reply_bytes(rep)
    &&& m1 == outcome(m0, args, now).0
    &&& answers(rep, outcome(m0, args, now).1, m0, now)
}

/// What to do after looking at the start of a buffer of received bytes.
pub enum Step {
    /// Send these bytes; the request took this many bytes.
    Respond(Vec<u8>, usize),
    /// A request with no arguments took this many bytes; send nothing.
    Skip(usize),
    /// Receive more bytes first.
    Wait,
    /// Send these bytes and close the connection.
    Close(Vec<u8>),
}

} // verus!
