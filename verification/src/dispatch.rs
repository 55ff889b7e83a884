//! The command dispatcher: a pure function of command, store contents and
//! wall clock, computing the framed reply and the new store contents.
//!
//! PING replies `+PONG\r\n`; ECHO replies its message as a bulk string;
//! SET installs the entry (computing an absolute expiry with saturation)
//! and replies `+OK\r\n`; GET replies the live value as a bulk string or
//! the null bulk `$-1\r\n`.

use vstd::prelude::*;

use crate::command::{Command, CommandV};
use crate::resp::{MAX_BULK_LEN, SpecParse, bulk_frame, encode_bulk, encode_null, encode_ok,
    encode_pong, lemma_bulk_frame_at, null_reply, ok_reply, pong_reply, spec_parse_bulk};
use crate::store::{EntryV, Store, after_lookup, live_lookup};

verus! {

/// The absolute expiry for a SET issued at `now` with relative expiry `ms`:
/// their sum, saturating at the top of the timestamp domain, so that an
/// overflowing deadline means "effectively never".
pub open spec fn expiry_at(now: u64, ms: u64) -> u64 {
    if now + ms > u64::MAX {
        u64::MAX
    } else {
        (now + ms) as u64
    }
}

/// The entry a SET with operands `value` and `expiry_ms`, issued at `now`,
/// installs.
pub open spec fn entry_of_set(value: Seq<u8>, expiry_ms: Option<u64>, now: u64) -> EntryV {
    EntryV {
        value,
        expires_at: match expiry_ms {
            Some(ms) => Some(expiry_at(now, ms)),
            None => None,
        },
    }
}

/// The store contents after dispatching `c` at time `now` against contents
/// `m`: SET installs its entry, GET may drop an entry it observed as
/// expired, PING and ECHO leave the store alone.
pub open spec fn spec_store_after(c: CommandV, m: Map<Seq<u8>, EntryV>, now: u64) -> Map<
    Seq<u8>,
    EntryV,
> {
    match c {
        CommandV::Ping => m,
        CommandV::Echo { msg } => m,
        CommandV::Get { key } => after_lookup(m, key, now),
        CommandV::SetKv { key, value, expiry_ms } => m.insert(
            key,
            entry_of_set(value, expiry_ms, now),
        ),
    }
}

/// The framed reply to dispatching `c` at time `now` against contents `m`.
pub open spec fn spec_reply(c: CommandV, m: Map<Seq<u8>, EntryV>, now: u64) -> Seq<u8> {
    match c {
        CommandV::Ping => pong_reply(),
        CommandV::Echo { msg } => bulk_frame(msg),
        CommandV::Get { key } => match live_lookup(m, key, now) {
            Some(v) => bulk_frame(v),
            None => null_reply(),
        },
        CommandV::SetKv { key, value, expiry_ms } => ok_reply(),
    }
}

/// Dispatches one command against the store, observing the single clock
/// sample `now`, and returns the framed reply bytes.
pub fn dispatcher(command: &Command, store: &mut Store, now: u64) -> (reply: Vec<u8>)
    requires
        old(store).wf(),
    ensures
        final(store).wf(),
        reply@ == spec_reply(command@, old(store)@, now),
        final(store)@ == spec_store_after(command@, old(store)@, now),
{
    match command {
        Command::Ping => encode_pong(),
        Command::Echo { msg } => encode_bulk(msg.as_slice()),
        Command::Get { key } => {
            let r = store.get(key.as_slice(), now);
            match r {
                Some(v) => encode_bulk(v.as_slice()),
                None => encode_null(),
            }
        },
        Command::SetKv { key, value, expiry_ms } => {
            let expires_at = match expiry_ms {
                Some(ms) => Some(
                    match now.checked_add(*ms) {
                        Some(t) => t,
                        None => u64::MAX,
                    },
                ),
                None => None,
            };
            let k = crate::resp::copy_bytes(key.as_slice());
            let v = crate::resp::copy_bytes(value.as_slice());
            store.set(k, v, expires_at);
            encode_ok()
        },
    }
}

/// A GET right after a SET without expiry returns the bulk-framed value,
/// whenever each command is dispatched.
pub proof fn lemma_get_after_set(
    k: Seq<u8>,
    v: Seq<u8>,
    m: Map<Seq<u8>, EntryV>,
    now1: u64,
    now2: u64,
)
    ensures
        spec_reply(
            CommandV::Get { key: k },
            spec_store_after(CommandV::SetKv { key: k, value: v, expiry_ms: None }, m, now1),
            now2,
        ) == bulk_frame(v),
{
}

/// A GET strictly before the deadline of a SET with expiry returns the
/// bulk-framed value.
pub proof fn lemma_get_before_deadline(
    k: Seq<u8>,
    v: Seq<u8>,
    ms: u64,
    m: Map<Seq<u8>, EntryV>,
    now1: u64,
    now2: u64,
)
    requires
        now2 < now1 + ms,
    ensures
        spec_reply(
            CommandV::Get { key: k },
            spec_store_after(CommandV::SetKv { key: k, value: v, expiry_ms: Some(ms) }, m, now1),
            now2,
        ) == bulk_frame(v),
{
}

/// A GET strictly after the deadline of a SET with expiry returns the null
/// bulk.
pub proof fn lemma_get_after_deadline(
    k: Seq<u8>,
    v: Seq<u8>,
    ms: u64,
    m: Map<Seq<u8>, EntryV>,
    now1: u64,
    now2: u64,
)
    requires
        now2 > now1 + ms,
    ensures
        spec_reply(
            CommandV::Get { key: k },
            spec_store_after(CommandV::SetKv { key: k, value: v, expiry_ms: Some(ms) }, m, now1),
            now2,
        ) == null_reply(),
{
}

/// Overwriting a key with a SET without expiry clears any earlier expiry:
/// however late the GET comes, it returns the new value.
pub proof fn lemma_overwrite_clears_expiry(
    k: Seq<u8>,
    v1: Seq<u8>,
    v2: Seq<u8>,
    ms: u64,
    m: Map<Seq<u8>, EntryV>,
    now1: u64,
    now2: u64,
    now3: u64,
)
    ensures
        spec_reply(
            CommandV::Get { key: k },
            spec_store_after(
                CommandV::SetKv { key: k, value: v2, expiry_ms: None },
                spec_store_after(
                    CommandV::SetKv { key: k, value: v1, expiry_ms: Some(ms) },
                    m,
                    now1,
                ),
                now2,
            ),
            now3,
        ) == bulk_frame(v2),
{
}

/// A GET for a key never set returns the null bulk.
pub proof fn lemma_get_never_set(k: Seq<u8>, now: u64)
    ensures
        spec_reply(CommandV::Get { key: k }, Map::<Seq<u8>, EntryV>::empty(), now)
            == null_reply(),
{
}

/// The reply to an ECHO decodes back to exactly the message sent,
/// whatever the message's bytes.
pub proof fn lemma_echo_round_trip(msg: Seq<u8>, m: Map<Seq<u8>, EntryV>, now: u64)
    requires
        msg.len() <= MAX_BULK_LEN,
    ensures
        spec_parse_bulk(spec_reply(CommandV::Echo { msg }, m, now), 0) == (SpecParse::Done::<
            Seq<u8>,
        > { val: msg, end: spec_reply(CommandV::Echo { msg }, m, now).len() as int }),
{
    lemma_bulk_frame_at(bulk_frame(msg), 0, msg);
}

/// A GET hit replies with a frame that decodes back to exactly the stored
/// value.
pub proof fn lemma_get_round_trip(k: Seq<u8>, m: Map<Seq<u8>, EntryV>, now: u64)
    requires
        live_lookup(m, k, now) is Some,
        live_lookup(m, k, now)->0.len() <= MAX_BULK_LEN,
    ensures
        spec_parse_bulk(spec_reply(CommandV::Get { key: k }, m, now), 0) == (SpecParse::Done::<
            Seq<u8>,
        > {
            val: live_lookup(m, k, now)->0,
            end: spec_reply(CommandV::Get { key: k }, m, now).len() as int,
        }),
{
    lemma_bulk_frame_at(bulk_frame(live_lookup(m, k, now)->0), 0, live_lookup(m, k, now)->0);
}

} // verus!
