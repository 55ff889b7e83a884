//! The per-connection session step: a growable receive buffer plus the
//! loop that decodes every complete pipelined request in it, dispatches
//! each in arrival order, and concatenates the framed replies.
//!
//! The whole step is a pure function of the buffered bytes, the store
//! contents and one clock sample, captured by [`spec_session`]: a buffer
//! that ends mid-request leaves the unconsumed bytes for the next read,
//! and a protocol error closes the connection after the replies to the
//! requests that preceded it.

use vstd::prelude::*;

use crate::command::{CommandParse, CommandV, lemma_parse_command_extend, spec_parse_command,
    parse_redis_command};
use crate::dispatch::{dispatcher, entry_of_set, spec_reply, spec_store_after};
use crate::resp::{MAX_BULK_LEN, SpecParse, append_bytes, array_frame, bulk_frame, drop_prefix,
    lemma_array_frame_parse, lemma_parse_array_bounds, ok_reply, pong_reply};
use crate::store::{EntryV, Store};

verus! {

/// What one session step does, at the specification level: the framed
/// replies it emits, the bytes it leaves buffered, the store contents it
/// leaves behind, and whether a protocol error closes the connection.
#[verifier::ext_equal]
pub struct SessionStep {
    pub replies: Seq<u8>,
    pub rest: Seq<u8>,
    pub store: Map<Seq<u8>, EntryV>,
    pub close: bool,
}

/// A complete request at the start of the buffer occupies at least one
/// byte and ends within it.
pub proof fn lemma_parse_command_bounds(s: Seq<u8>)
    requires
        spec_parse_command(s) is Done,
    ensures
        1 <= spec_parse_command(s)->Done_end <= s.len(),
{
    lemma_parse_array_bounds(s, 0);
}

/// Processes every complete request at the front of `buf` in order:
/// dispatch it against `m` at time `now`, emit its reply, and continue on
/// the remaining bytes with the updated contents; stop when the buffer
/// ends mid-request, or close on a protocol error.
pub open spec fn spec_session(buf: Seq<u8>, m: Map<Seq<u8>, EntryV>, now: u64) -> SessionStep
    decreases buf.len(),
    via spec_session_decreases
{
    match spec_parse_command(buf) {
        SpecParse::More => SessionStep {
            replies: Seq::empty(),
            rest: buf,
            store: m,
            close: false,
        },
        SpecParse::Fail => SessionStep { replies: Seq::empty(), rest: buf, store: m, close: true },
        SpecParse::Done { val: c, end } => {
            let t = spec_session(buf.skip(end), spec_store_after(c, m, now), now);
            SessionStep {
                replies: spec_reply(c, m, now) + t.replies,
                rest: t.rest,
                store: t.store,
                close: t.close,
            }
        },
    }
}

#[via_fn]
proof fn spec_session_decreases(buf: Seq<u8>, m: Map<Seq<u8>, EntryV>, now: u64) {
    if spec_parse_command(buf) is Done {
        lemma_parse_command_bounds(buf);
    }
}

/// Prepends already-emitted replies to the outcome of the remaining
/// session work.
pub open spec fn session_prepend(pre: Seq<u8>, s: SessionStep) -> SessionStep {
    SessionStep { replies: pre + s.replies, rest: s.rest, store: s.store, close: s.close }
}

/// The per-connection state: the growable accumulator of bytes received
/// but not yet consumed by a complete request.
pub struct Conn {
    buf: Vec<u8>,
}

impl View for Conn {
    type V = Seq<u8>;

    closed spec fn view(&self) -> Seq<u8> {
        self.buf@
    }
}

impl Conn {
    /// A fresh connection with an empty buffer.
    pub fn new() -> (r: Conn)
        ensures
            r@ == Seq::<u8>::empty(),
    {
        Conn { buf: Vec::new() }
    }
}

/// Appends the newly received `input` to the connection's buffer and
/// processes every complete request now buffered, per [`spec_session`]:
/// returns the concatenated framed replies, in arrival order, and whether
/// a protocol error requires the connection to be closed without further
/// replies.
#[verifier::loop_isolation(false)]
pub fn handle_input(conn: &mut Conn, store: &mut Store, input: &[u8], now: u64) -> (r: (
    Vec<u8>,
    bool,
))
    requires
        old(store).wf(),
    ensures
        final(store).wf(),
        ({
            let s = spec_session(old(conn)@ + input@, old(store)@, now);
            r.0@ == s.replies && r.1 == s.close && final(conn)@ == s.rest && final(store)@
                == s.store
        }),
{
    let ghost m0 = store@;
    append_bytes(&mut conn.buf, input);
    proof {
        assert(conn.buf@ == old(conn)@ + input@);
    }
    let ghost whole = conn.buf@;
    let mut replies: Vec<u8> = Vec::new();
    proof {
        assert(spec_session(whole, m0, now) =~= session_prepend(
            replies@,
            spec_session(conn.buf@, store@, now),
        ));
    }
    loop
        invariant
            store.wf(),
            spec_session(whole, m0, now) == session_prepend(
                replies@,
                spec_session(conn.buf@, store@, now),
            ),
        decreases conn.buf@.len(),
    {
        let parsed = parse_redis_command(conn.buf.as_slice());
        match parsed {
            CommandParse::Incomplete => {
                proof {
                    assert(spec_session(whole, m0, now) =~= session_prepend(
                        replies@,
                        spec_session(conn.buf@, store@, now),
                    ));
                    assert(spec_session(whole, m0, now).replies =~= replies@);
                }
                return (replies, false);
            },
            CommandParse::Error => {
                proof {
                    assert(spec_session(whole, m0, now).replies =~= replies@);
                }
                return (replies, true);
            },
            CommandParse::Complete { command, end } => {
                proof {
                    lemma_parse_command_bounds(conn.buf@);
                }
                let ghost buf_before = conn.buf@;
                let ghost m_before = store@;
                let ghost replies_before = replies@;
                let reply = dispatcher(&command, store, now);
                append_bytes(&mut replies, reply.as_slice());
                let remaining = drop_prefix(&conn.buf, end);
                conn.buf = remaining;
                proof {
                    let t = spec_session(conn.buf@, store@, now);
                    assert(spec_session(buf_before, m_before, now) =~= session_prepend(
                        reply@,
                        t,
                    ));
                    assert(session_prepend(replies_before, session_prepend(reply@, t))
                        =~= session_prepend(replies@, t));
                }
            },
        }
    }
}

/// Framing tolerance: however the incoming bytes are split across reads,
/// the session emits the same replies in the same order and leaves the
/// same store behind. Processing `b1` and then its leftover together with
/// `b2` equals processing `b1 + b2` at once, as long as `b1` alone did not
/// already close the connection.
pub proof fn lemma_session_split(b1: Seq<u8>, b2: Seq<u8>, m: Map<Seq<u8>, EntryV>, now: u64)
    ensures
        ({
            let s1 = spec_session(b1, m, now);
            let s2 = spec_session(s1.rest + b2, s1.store, now);
            !s1.close ==> spec_session(b1 + b2, m, now) == session_prepend(s1.replies, s2)
        }),
    decreases b1.len(),
{
    let s1 = spec_session(b1, m, now);
    match spec_parse_command(b1) {
        SpecParse::More => {
            let s2 = spec_session(b1 + b2, m, now);
            assert(session_prepend(s1.replies, s2) =~= s2);
        },
        SpecParse::Fail => {},
        SpecParse::Done { val: c, end } => {
            lemma_parse_command_bounds(b1);
            lemma_parse_command_extend(b1, b2);
            let m2 = spec_store_after(c, m, now);
            assert((b1 + b2).skip(end) =~= b1.skip(end) + b2);
            lemma_session_split(b1.skip(end), b2, m2, now);
            let t1 = spec_session(b1.skip(end), m2, now);
            if !s1.close {
                let s2 = spec_session(s1.rest + b2, s1.store, now);
                assert(spec_session(b1 + b2, m, now) =~= session_prepend(s1.replies, s2));
            }
        },
    }
}

/// Pipelining: when the buffer starts with one complete request, the
/// session replies to it first and then continues on the remaining bytes
/// with the updated store, in order.
pub proof fn lemma_session_pipeline(req: Seq<u8>, rest: Seq<u8>, m: Map<Seq<u8>, EntryV>, now: u64)
    requires
        spec_parse_command(req) is Done,
        spec_parse_command(req)->Done_end == req.len(),
    ensures
        ({
            let c = spec_parse_command(req)->Done_val;
            spec_session(req + rest, m, now) == session_prepend(
                spec_reply(c, m, now),
                spec_session(rest, spec_store_after(c, m, now), now),
            )
        }),
{
    lemma_parse_command_extend(req, rest);
    assert((req + rest).skip(req.len() as int) =~= rest);
}

/// `n` copies of `s`, concatenated.
pub open spec fn repeat_bytes(s: Seq<u8>, n: nat) -> Seq<u8>
    decreases n,
{
    if n == 0 {
        Seq::empty()
    } else {
        s + repeat_bytes(s, (n - 1) as nat)
    }
}

/// The wire bytes of a PING request: `*1\r\n$4\r\nPING\r\n`.
pub open spec fn ping_request() -> Seq<u8> {
    seq![
        42u8,
        49u8,
        13u8,
        10u8,
        36u8,
        52u8,
        13u8,
        10u8,
        80u8,
        73u8,
        78u8,
        71u8,
        13u8,
        10u8,
    ]
}

/// A buffer beginning with the PING request parses to the PING command,
/// consuming exactly its fourteen bytes.
pub proof fn lemma_ping_request_parses(rest: Seq<u8>)
    ensures
        spec_parse_command(ping_request() + rest) == (SpecParse::Done::<CommandV> {
            val: CommandV::Ping,
            end: 14,
        }),
{
    let word = seq![80u8, 73u8, 78u8, 71u8];
    let elems = seq![word];
    let s = ping_request() + rest;
    assert(crate::resp::dec_digits(1) =~= seq![49u8]);
    assert(crate::resp::dec_digits(4) =~= seq![52u8]);
    assert(crate::resp::bulk_frames(elems) =~= crate::resp::bulk_frame(word)) by {
        assert(elems.len() == 1);
        assert(elems[0] == word);
        assert(elems.skip(1) =~= Seq::<Seq<u8>>::empty());
        assert(crate::resp::bulk_frames(Seq::<Seq<u8>>::empty()) == Seq::<u8>::empty());
        assert(crate::resp::bulk_frames(elems) == crate::resp::bulk_frame(word)
            + crate::resp::bulk_frames(elems.skip(1)));
        assert(crate::resp::bulk_frame(word) + Seq::<u8>::empty() =~= crate::resp::bulk_frame(
            word,
        ));
    }
    assert(crate::resp::array_frame(elems) =~= ping_request());
    crate::resp::lemma_array_frame_parse(s, elems);
    assert(crate::command::ascii_lower(word) =~= crate::command::word_ping());
}

/// PING idempotence: `n` consecutive PING requests yield exactly `n` PONG
/// replies, in order, and leave the store untouched.
pub proof fn lemma_ping_idempotent(n: nat, m: Map<Seq<u8>, EntryV>, now: u64)
    ensures
        spec_session(repeat_bytes(ping_request(), n), m, now) == (SessionStep {
            replies: repeat_bytes(pong_reply(), n),
            rest: Seq::<u8>::empty(),
            store: m,
            close: false,
        }),
    decreases n,
{
    if n == 0 {
        assert(spec_parse_command(Seq::empty()) is More);
        assert(spec_session(repeat_bytes(ping_request(), n), m, now) =~= (SessionStep {
            replies: repeat_bytes(pong_reply(), n),
            rest: Seq::<u8>::empty(),
            store: m,
            close: false,
        }));
    } else {
        let tail = repeat_bytes(ping_request(), (n - 1) as nat);
        lemma_ping_request_parses(tail);
        lemma_ping_idempotent((n - 1) as nat, m, now);
        lemma_parse_command_bounds(ping_request() + tail);
        assert((ping_request() + tail).skip(14) =~= tail);
        assert(spec_session(repeat_bytes(ping_request(), n), m, now) =~= (SessionStep {
            replies: repeat_bytes(pong_reply(), n),
            rest: Seq::<u8>::empty(),
            store: m,
            close: false,
        }));
    }
}

/// The wire bytes of `SET k v` (no expiry): an array of `SET`, the key and
/// the value.
pub open spec fn set_request(k: Seq<u8>, v: Seq<u8>) -> Seq<u8> {
    array_frame(seq![seq![83u8, 69u8, 84u8], k, v])
}

/// The wire bytes of `GET k`: an array of `GET` and the key.
pub open spec fn get_request(k: Seq<u8>) -> Seq<u8> {
    array_frame(seq![seq![71u8, 69u8, 84u8], k])
}

/// A buffer holding exactly `SET k v` parses to that command.
proof fn lemma_set_request_parses(k: Seq<u8>, v: Seq<u8>)
    requires
        k.len() <= MAX_BULK_LEN,
        v.len() <= MAX_BULK_LEN,
    ensures
        spec_parse_command(set_request(k, v)) == (SpecParse::Done::<CommandV> {
            val: CommandV::SetKv { key: k, value: v, expiry_ms: None },
            end: set_request(k, v).len() as int,
        }),
{
    let w = seq![83u8, 69u8, 84u8];
    let elems = seq![w, k, v];
    lemma_array_frame_parse(set_request(k, v), elems);
    assert(crate::command::ascii_lower(w) =~= crate::command::word_set());
    assert(crate::command::word_set() != crate::command::word_ping());
    assert(crate::command::word_set() != crate::command::word_echo());
    assert(crate::command::word_set() != crate::command::word_get()) by {
        assert(crate::command::word_set()[0] != crate::command::word_get()[0]);
    }
}

/// A buffer holding exactly `GET k` parses to that command.
proof fn lemma_get_request_parses(k: Seq<u8>)
    requires
        k.len() <= MAX_BULK_LEN,
    ensures
        spec_parse_command(get_request(k)) == (SpecParse::Done::<CommandV> {
            val: CommandV::Get { key: k },
            end: get_request(k).len() as int,
        }),
{
    let w = seq![71u8, 69u8, 84u8];
    let elems = seq![w, k];
    lemma_array_frame_parse(get_request(k), elems);
    assert(crate::command::ascii_lower(w) =~= crate::command::word_get());
    assert(crate::command::word_get() != crate::command::word_ping());
    assert(crate::command::word_get() != crate::command::word_echo());
    assert(crate::command::word_get() != crate::command::word_set()) by {
        assert(crate::command::word_get()[0] != crate::command::word_set()[0]);
    }
}

/// Cross-connection visibility: once one connection's `SET k v` has been
/// answered with `+OK\r\n`, a fresh connection reading the store those
/// bytes left behind has its `GET k` answered with the bulk-framed `v`.
pub proof fn lemma_cross_connection_visibility(
    k: Seq<u8>,
    v: Seq<u8>,
    m: Map<Seq<u8>, EntryV>,
    now1: u64,
    now2: u64,
)
    requires
        k.len() <= MAX_BULK_LEN,
        v.len() <= MAX_BULK_LEN,
    ensures
        ({
            let sa = spec_session(set_request(k, v), m, now1);
            let sb = spec_session(get_request(k), sa.store, now2);
            sa.replies == ok_reply() && !sa.close && sb.replies == bulk_frame(v) && !sb.close
        }),
{
    lemma_set_request_parses(k, v);
    let sreq = set_request(k, v);
    lemma_parse_command_bounds(sreq);
    assert(sreq.skip(sreq.len() as int) =~= Seq::<u8>::empty());
    assert(spec_parse_command(Seq::<u8>::empty()) is More);
    let c = CommandV::SetKv { key: k, value: v, expiry_ms: None };
    let m2 = spec_store_after(c, m, now1);
    let t = spec_session(Seq::<u8>::empty(), m2, now1);
    assert(t == (SessionStep {
        replies: Seq::<u8>::empty(),
        rest: Seq::<u8>::empty(),
        store: m2,
        close: false,
    }));
    let sa = spec_session(sreq, m, now1);
    assert(sa == (SessionStep {
        replies: spec_reply(c, m, now1) + t.replies,
        rest: t.rest,
        store: t.store,
        close: t.close,
    }));
    assert(sa.replies =~= ok_reply());
    assert(sa.store == m.insert(k, entry_of_set(v, None, now1)));
    lemma_get_request_parses(k);
    let greq = get_request(k);
    lemma_parse_command_bounds(greq);
    assert(greq.skip(greq.len() as int) =~= Seq::<u8>::empty());
    let g = CommandV::Get { key: k };
    let m3 = spec_store_after(g, sa.store, now2);
    let t2 = spec_session(Seq::<u8>::empty(), m3, now2);
    assert(t2 == (SessionStep {
        replies: Seq::<u8>::empty(),
        rest: Seq::<u8>::empty(),
        store: m3,
        close: false,
    }));
    let sb = spec_session(greq, sa.store, now2);
    assert(sb == (SessionStep {
        replies: spec_reply(g, sa.store, now2) + t2.replies,
        rest: t2.rest,
        store: t2.store,
        close: t2.close,
    }));
    assert(crate::store::live_lookup(sa.store, k, now2) == Some(v));
    assert(sb.replies =~= bulk_frame(v));
}

} // verus!
