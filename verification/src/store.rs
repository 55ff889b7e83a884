//! The keyed store: a mapping from byte-string key to value with an
//! optional absolute expiry timestamp, milliseconds since the Unix epoch.
//!
//! Expiration is lazy: an entry whose timestamp lies strictly before the
//! observed clock behaves as absent, and is physically removed by the first
//! read that notices. The store is modelled as a `Map` from key bytes to
//! entries.

use vstd::prelude::*;

use crate::resp::{bytes_eq, copy_bytes};

verus! {

/// A stored entry, at the specification level: the value bytes and the
/// optional absolute expiry.
pub struct EntryV {
    pub value: Seq<u8>,
    pub expires_at: Option<u64>,
}

/// One key together with its entry, as laid out in the store.
pub struct Slot {
    pub key: Vec<u8>,
    pub value: Vec<u8>,
    pub expires_at: Option<u64>,
}

impl Slot {
    /// The entry this slot holds.
    pub open spec fn entry(&self) -> EntryV {
        EntryV { value: self.value@, expires_at: self.expires_at }
    }
}

/// The mapping denoted by a sequence of slots; later slots win, though a
/// well-formed store never repeats a key.
pub open spec fn map_of(s: Seq<Slot>) -> Map<Seq<u8>, EntryV>
    decreases s.len(),
{
    if s.len() == 0 {
        Map::empty()
    } else {
        map_of(s.drop_last()).insert(s.last().key@, s.last().entry())
    }
}

/// The value a read at time `now` observes for `k` in `m`: present and
/// unexpired entries yield their value, everything else is absent. An entry
/// whose expiry equals `now` is still live; it dies one millisecond later.
pub open spec fn live_lookup(m: Map<Seq<u8>, EntryV>, k: Seq<u8>, now: u64) -> Option<Seq<u8>> {
    if m.contains_key(k) {
        match m[k].expires_at {
            Some(t) => if now > t {
                None
            } else {
                Some(m[k].value)
            },
            None => Some(m[k].value),
        }
    } else {
        None
    }
}

/// The mapping after a read of `k` at time `now`: unchanged, except that an
/// entry the read observed as expired is removed.
pub open spec fn after_lookup(m: Map<Seq<u8>, EntryV>, k: Seq<u8>, now: u64) -> Map<
    Seq<u8>,
    EntryV,
> {
    if m.contains_key(k) && (m[k].expires_at is Some) && now > m[k].expires_at->0 {
        m.remove(k)
    } else {
        m
    }
}

/// The in-memory keyed store. Its contents are the mapping [`Store::view`];
/// a well-formed store holds each key at most once.
pub struct Store {
    slots: Vec<Slot>,
}

impl View for Store {
    type V = Map<Seq<u8>, EntryV>;

    closed spec fn view(&self) -> Map<Seq<u8>, EntryV> {
        map_of(self.slots@)
    }
}

/// `map_of` contains exactly the keys that some slot holds.
proof fn lemma_map_of_contains(s: Seq<Slot>, k: Seq<u8>)
    ensures
        map_of(s).contains_key(k) <==> exists|i: int| 0 <= i < s.len() && s[i].key@ == k,
    decreases s.len(),
{
    if s.len() > 0 {
        lemma_map_of_contains(s.drop_last(), k);
        if s.last().key@ == k {
            assert(s[s.len() - 1].key@ == k);
        } else if map_of(s).contains_key(k) {
            let i = choose|i: int| 0 <= i < s.drop_last().len() && s.drop_last()[i].key@ == k;
            assert(s[i].key@ == k);
        } else {
            assert forall|i: int| 0 <= i < s.len() implies s[i].key@ != k by {
                if i < s.len() - 1 {
                    assert(s.drop_last()[i].key@ == s[i].key@);
                }
            }
        }
    }
}

/// In a store without repeated keys, `map_of` sends each slot's key to that
/// slot's entry.
proof fn lemma_map_of_index(s: Seq<Slot>, i: int)
    requires
        0 <= i < s.len(),
        forall|p: int, q: int| 0 <= p < q < s.len() ==> s[p].key@ != s[q].key@,
    ensures
        map_of(s).contains_key(s[i].key@),
        map_of(s)[s[i].key@] == s[i].entry(),
    decreases s.len(),
{
    if i == s.len() - 1 {
        assert(s.last() == s[i]);
    } else {
        assert(forall|p: int, q: int|
            0 <= p < q < s.drop_last().len() ==> s.drop_last()[p].key@ != s.drop_last()[q].key@);
        lemma_map_of_index(s.drop_last(), i);
        assert(s.drop_last()[i] == s[i]);
        assert(s.last().key@ != s[i].key@);
    }
}

/// Replacing the slot at `i` by one with the same key updates the mapping
/// at that key alone.
proof fn lemma_map_of_update(s: Seq<Slot>, i: int, slot: Slot)
    requires
        0 <= i < s.len(),
        forall|p: int, q: int| 0 <= p < q < s.len() ==> s[p].key@ != s[q].key@,
        s[i].key@ == slot.key@,
    ensures
        map_of(s.update(i, slot)) == map_of(s).insert(slot.key@, slot.entry()),
    decreases s.len(),
{
    let t = s.update(i, slot);
    if i == s.len() - 1 {
        assert(t.drop_last() =~= s.drop_last());
        assert(t.last() == slot);
        assert(map_of(t) == map_of(s.drop_last()).insert(slot.key@, slot.entry()));
        assert(map_of(s).insert(slot.key@, slot.entry()) =~= map_of(s.drop_last()).insert(
            slot.key@,
            slot.entry(),
        ));
    } else {
        assert(forall|p: int, q: int|
            0 <= p < q < s.drop_last().len() ==> s.drop_last()[p].key@ != s.drop_last()[q].key@);
        lemma_map_of_update(s.drop_last(), i, slot);
        assert(t.drop_last() =~= s.drop_last().update(i, slot));
        assert(t.last() == s.last());
        assert(s.last().key@ != slot.key@);
        assert(map_of(t) == map_of(s.drop_last()).insert(slot.key@, slot.entry()).insert(
            s.last().key@,
            s.last().entry(),
        ));
        assert(map_of(s).insert(slot.key@, slot.entry()) =~= map_of(s.drop_last()).insert(
            slot.key@,
            slot.entry(),
        ).insert(s.last().key@, s.last().entry()));
    }
}

/// Removing the slot at `i` removes exactly its key from the mapping, in a
/// store without repeated keys.
proof fn lemma_map_of_remove(s: Seq<Slot>, i: int)
    requires
        0 <= i < s.len(),
        forall|p: int, q: int| 0 <= p < q < s.len() ==> s[p].key@ != s[q].key@,
    ensures
        map_of(s.remove(i)) == map_of(s).remove(s[i].key@),
    decreases s.len(),
{
    let t = s.remove(i);
    if i == s.len() - 1 {
        assert(t =~= s.drop_last());
        lemma_map_of_contains(s.drop_last(), s[i].key@);
        assert forall|j: int| 0 <= j < s.drop_last().len() implies s.drop_last()[j].key@
            != s[i].key@ by {
            assert(s.drop_last()[j].key@ == s[j].key@);
        }
        assert(!map_of(s.drop_last()).contains_key(s[i].key@));
        assert(map_of(t) =~= map_of(s).remove(s[i].key@));
    } else {
        assert(forall|p: int, q: int|
            0 <= p < q < s.drop_last().len() ==> s.drop_last()[p].key@ != s.drop_last()[q].key@);
        lemma_map_of_remove(s.drop_last(), i);
        assert(t.drop_last() =~= s.drop_last().remove(i));
        assert(t.last() == s.last());
        assert(map_of(t) == map_of(s.drop_last().remove(i)).insert(
            s.last().key@,
            s.last().entry(),
        ));
        assert(s.last().key@ != s[i].key@);
        assert(map_of(t) =~= map_of(s).remove(s[i].key@));
    }
}

impl Store {
    /// Whether no key occurs in two slots.
    pub closed spec fn wf(&self) -> bool {
        forall|p: int, q: int|
            0 <= p < q < self.slots@.len() ==> self.slots@[p].key@ != self.slots@[q].key@
    }

    /// Creates an empty store.
    pub fn new() -> (r: Store)
        ensures
            r.wf(),
            r@ == Map::<Seq<u8>, EntryV>::empty(),
    {
        Store { slots: Vec::new() }
    }

    /// Finds the index of the slot holding `key`, if any.
    fn find(&self, key: &[u8]) -> (r: Option<usize>)
        ensures
            match r {
                Some(i) => i < self.slots@.len() && self.slots@[i as int].key@ == key@,
                None => forall|i: int| 0 <= i < self.slots@.len() ==> self.slots@[i].key@ != key@,
            },
    {
        let mut i: usize = 0;
        while i < self.slots.len()
            invariant
                i <= self.slots@.len(),
                forall|j: int| 0 <= j < i ==> self.slots@[j].key@ != key@,
            decreases self.slots@.len() - i,
        {
            if bytes_eq(self.slots[i].key.as_slice(), key) {
                return Some(i);
            }
            i += 1;
        }
        None
    }

    /// Unconditionally installs `(value, expires_at)` under `key`, replacing
    /// any earlier entry for that key, expiry included.
    pub fn set(&mut self, key: Vec<u8>, value: Vec<u8>, expires_at: Option<u64>)
        requires
            old(self).wf(),
        ensures
            final(self).wf(),
            final(self)@ == old(self)@.insert(
                key@,
                EntryV { value: value@, expires_at },
            ),
    {
        let found = self.find(key.as_slice());
        let slot = Slot { key, value, expires_at };
        match found {
            Some(i) => {
                proof {
                    lemma_map_of_update(self.slots@, i as int, slot);
                }
                self.slots[i] = slot;
            },
            None => {
                proof {
                    assert(self.slots@.push(slot).drop_last() =~= self.slots@);
                }
                self.slots.push(slot);
            },
        }
    }

    /// Returns the value stored under `key` as a read at time `now`
    /// observes it, removing the entry if that read finds it expired.
    pub fn get(&mut self, key: &[u8], now: u64) -> (r: Option<Vec<u8>>)
        requires
            old(self).wf(),
        ensures
            final(self).wf(),
            final(self)@ == after_lookup(old(self)@, key@, now),
            match r {
                Some(v) => live_lookup(old(self)@, key@, now) == Some(v@),
                None => live_lookup(old(self)@, key@, now) is None,
            },
    {
        let found = self.find(key);
        match found {
            Some(i) => {
                proof {
                    lemma_map_of_index(self.slots@, i as int);
                }
                let expired = match self.slots[i].expires_at {
                    Some(t) => now > t,
                    None => false,
                };
                if expired {
                    proof {
                        lemma_map_of_remove(self.slots@, i as int);
                    }
                    self.slots.remove(i);
                    None
                } else {
                    Some(copy_bytes(self.slots[i].value.as_slice()))
                }
            },
            None => {
                proof {
                    lemma_map_of_contains(self.slots@, key@);
                }
                None
            },
        }
    }
}

} // verus!
