//! The plain engine: opaque bytes under string keys, with expirations and snapshots
//! of the first version, and nothing else.

use vstd::prelude::*;
use crate::bytes::{blob, le32, le64, put_all, put_bytes, put_u32, put_u64, text_blob};
use crate::clock::{clock_reads, now_ms};
use crate::errors::SnapshotError;
use crate::expiry::{
    expire_at_from_ttl, expiry_in, expiry_of_ttl, keys_of, live, live_keys, purge_key, purged,
    sweep_map, time_in, time_left, ttl_of,
};
use crate::mutate::{apply_del, apply_expire, apply_persist, apply_set, with_bytes, with_expiry};
use crate::order::{compare_bytes, Place};
use crate::ranges::views;
use crate::record::expiry_field;
use crate::snapshot::{
    entry_step, load_body, parse_body, take_entry, take_n, take_u32, MAGIC, SnapshotFault,
};
use crate::sorted_map::{ordered, Item, SortedMap};
use crate::value::{Entry, EntryView, State, Value};

verus! {

/// The version of the snapshots.
pub const VERSION: u8 = 1;

/// Whether every key holds plain bytes.
pub open spec fn all_bytes(m: State) -> bool {
    forall|k: Seq<char>| #[trigger] m.contains_key(k) ==> m[k].value is Bytes
}

/// The bytes of a key.
pub open spec fn plain_at(m: State, key: Seq<char>) -> Option<Seq<u8>> {
    if m.contains_key(key) {
        Some(m[key].value->Bytes_0)
    } else {
        None
    }
}

/// An entry in a snapshot of the first version.
pub open spec fn plain_entry(key: Seq<char>, e: EntryView) -> Seq<u8> {
    text_blob(key) + le64(expiry_field(e.expire_at)) + blob(e.value->Bytes_0)
}

/// The entries of a snapshot of the first version.
pub open spec fn plain_entries(l: Seq<(Seq<char>, EntryView)>) -> Seq<u8>
    decreases l.len(),
{
    if l.len() == 0 {
        Seq::empty()
    } else {
        plain_entries(l.drop_last()) + plain_entry(l.last().0, l.last().1)
    }
}

/// What stands before the entries of a snapshot of the first version.
pub open spec fn plain_header(count: nat) -> Seq<u8> {
    MAGIC@ + seq![VERSION, 0u8] + le32(count as u32)
}

/// A snapshot of the first version: it has no checksum.
pub open spec fn plain_snapshot(m: State) -> Seq<u8> {
    plain_header(m.dom().len()) + plain_entries(ordered::<String, EntryView>(m))
}

/// The state that a snapshot of the first version holds, or why it cannot be parsed.
pub open spec fn parse_plain(d: Seq<u8>) -> Result<State, SnapshotFault> {
    if d.len() < 10 {
        Err(SnapshotFault::TooSmall)
    } else if d.take(4) != MAGIC@ {
        Err(SnapshotFault::BadMagic)
    } else if d[4] != VERSION {
        Err(SnapshotFault::BadVersion)
    } else {
        parse_body(d, VERSION)
    }
}

/// Entries of the first version hold plain bytes.
proof fn entries_are_bytes(d: Seq<u8>, pos: int, n: nat)
    ensures
        take_n(entry_step(d, VERSION), Map::empty(), pos, n) matches Ok((m, _)) ==> all_bytes(m),
    decreases n,
{
    if n > 0 {
        entries_are_bytes(d, pos, (n - 1) as nat);
        match take_n(entry_step(d, VERSION), Map::empty(), pos, (n - 1) as nat) {
            Ok((m, at)) => {
                assert(take_entry(d, at, VERSION) matches Ok(((k, e), _)) ==> e.value is Bytes);
            },
            Err(_) => {},
        }
    }
}

/// A store of opaque bytes.
pub struct Strenor {
    map: SortedMap<String, Entry>,
}

impl View for Strenor {
    type V = State;

    closed spec fn view(&self) -> State {
        self.map@
    }
}

impl Default for Strenor {
    fn default() -> (s: Self)
        ensures
            s@ == Map::<Seq<char>, EntryView>::empty(),
    {
        Strenor::new()
    }
}

impl Strenor {
    #[verifier::type_invariant]
    spec fn holds_bytes(self) -> bool {
        all_bytes(self.map@)
    }

    /// An empty store.
    pub fn new() -> (s: Self)
        ensures
            s@ == Map::<Seq<char>, EntryView>::empty(),
    {
        Strenor { map: SortedMap::new() }
    }

    /// Take the map out, to be put back changed.
    fn take(&mut self) -> (map: SortedMap<String, Entry>)
        ensures
            map@ == old(self)@,
            all_bytes(map@),
            final(self)@ == Map::<Seq<char>, EntryView>::empty(),
    {
        proof {
            use_type_invariant(&*self);
        }
        let mut whole = Strenor::new();
        std::mem::swap(&mut whole, self);
        let Strenor { map } = whole;
        map
    }

    /// Give a key bytes at the time `now`.
    pub fn set_at(&mut self, key: String, value: Vec<u8>, ttl_ms: Option<i64>, now: u64)
        ensures
            final(self)@ == with_bytes(old(self)@, key@, value@, expiry_of_ttl(ttl_ms, now)),
    {
        let mut map = self.take();
        apply_set(&mut map, key, value, expire_at_from_ttl(ttl_ms, now));
        *self = Strenor { map };
    }

    /// Give a key bytes. A positive `ttl_ms` lets it expire so many milliseconds from now;
    /// else it never expires, whatever was set before.
    pub fn set(&mut self, key: String, value: Vec<u8>, ttl_ms: Option<i64>)
        ensures
            exists|now: u64|
                clock_reads(now) && final(self)@ == with_bytes(
                    old(self)@,
                    key@,
                    value@,
                    #[trigger] expiry_of_ttl(ttl_ms, now),
                ),
    {
        let now: u64 = now_ms();
        self.set_at(key, value, ttl_ms, now);
    }

    /// The bytes of a key at the time `now`.
    pub fn get_at(&mut self, key: &str, now: u64) -> (out: Option<Vec<u8>>)
        ensures
            final(self)@ == purged(old(self)@, key@, now),
            out is Some == final(self)@.contains_key(key@),
            out matches Some(b) ==> plain_at(final(self)@, key@) == Some(b@),
    {
        let mut map = self.take();
        purge_key(&mut map, key, now);
        *self = Strenor { map };
        proof {
            use_type_invariant(&*self);
        }
        match self.map.get(key) {
            Some(e) => match &e.value {
                Value::Bytes(b) => Some(b.dup()),
                _ => None,
            },
            None => None,
        }
    }

    /// The bytes of a key. A key that has expired is taken out.
    pub fn get(&mut self, key: &str) -> (out: Option<Vec<u8>>)
        ensures
            exists|now: u64|
                clock_reads(now) && final(self)@ == #[trigger] purged(old(self)@, key@, now),
            out is Some == final(self)@.contains_key(key@),
            out matches Some(b) ==> plain_at(final(self)@, key@) == Some(b@),
    {
        let now: u64 = now_ms();
        self.get_at(key, now)
    }

    /// Take a key out: whether it was there.
    pub fn del(&mut self, key: &str) -> (was: bool)
        ensures
            was == old(self)@.contains_key(key@),
            final(self)@ == old(self)@.remove(key@),
    {
        let mut map = self.take();
        let was = apply_del(&mut map, key);
        *self = Strenor { map };
        was
    }

    /// Whether a key is there at the time `now`.
    pub fn key_exists_at(&mut self, key: &str, now: u64) -> (yes: bool)
        ensures
            final(self)@ == purged(old(self)@, key@, now),
            yes == final(self)@.contains_key(key@),
    {
        let mut map = self.take();
        purge_key(&mut map, key, now);
        *self = Strenor { map };
        self.map.contains(key)
    }

    /// Whether a key is there. A key that has expired is taken out.
    pub fn key_exists(&mut self, key: &str) -> (yes: bool)
        ensures
            exists|now: u64|
                clock_reads(now) && final(self)@ == #[trigger] purged(old(self)@, key@, now),
            yes == final(self)@.contains_key(key@),
    {
        let now: u64 = now_ms();
        self.key_exists_at(key, now)
    }

    /// Let a key expire `ttl_ms` milliseconds from the time `now`: whether it is there.
    pub fn expire_at(&mut self, key: &str, ttl_ms: i64, now: u64) -> (ok: bool)
        ensures
            ok == old(self)@.contains_key(key@),
            final(self)@ == with_expiry(old(self)@, key@, Some(expiry_in(ttl_ms, now))),
    {
        let mut map = self.take();
        let ok = apply_expire(&mut map, key, time_in(ttl_ms, now));
        *self = Strenor { map };
        ok
    }

    /// Let a key expire `ttl_ms` milliseconds from now: whether it is there.
    pub fn expire(&mut self, key: &str, ttl_ms: i64) -> (ok: bool)
        ensures
            ok == old(self)@.contains_key(key@),
            exists|now: u64|
                clock_reads(now) && final(self)@ == with_expiry(
                    old(self)@,
                    key@,
                    Some(#[trigger] expiry_in(ttl_ms, now)),
                ),
    {
        let now: u64 = now_ms();
        self.expire_at(key, ttl_ms, now)
    }

    /// Let a key never expire: whether it is there.
    pub fn persist(&mut self, key: &str) -> (ok: bool)
        ensures
            ok == old(self)@.contains_key(key@),
            final(self)@ == with_expiry(old(self)@, key@, None),
    {
        let mut map = self.take();
        let ok = apply_persist(&mut map, key);
        *self = Strenor { map };
        ok
    }

    /// The milliseconds that a key has left at the time `now`.
    pub fn ttl_at(&mut self, key: &str, now: u64) -> (ms: i64)
        ensures
            final(self)@ == purged(old(self)@, key@, now),
            ms == ttl_of(final(self)@, key@, now),
    {
        let mut map = self.take();
        purge_key(&mut map, key, now);
        *self = Strenor { map };
        time_left(&self.map, key, now)
    }

    /// The milliseconds that a key has left: -1 if it never expires, -2 if it is missing.
    pub fn ttl(&mut self, key: &str) -> (ms: i64)
        ensures
            exists|now: u64|
                clock_reads(now) && final(self)@ == #[trigger]
                    purged(old(self)@, key@, now) && ms == ttl_of(
                    final(self)@,
                    key@,
                    now,
                ),
    {
        let now: u64 = now_ms();
        self.ttl_at(key, now)
    }

    /// The keys that have not expired at the time `now`, in order.
    pub fn keys_at(&self, now: u64) -> (out: Vec<String>)
        ensures
            views(out@) == keys_of(live(self@, now)),
    {
        live_keys(&self.map, now)
    }

    /// The keys that have not expired, in order.
    pub fn keys(&self) -> (out: Vec<String>)
        ensures
            exists|now: u64|
                clock_reads(now) && views(out@) == keys_of(#[trigger] live(self@, now)),
    {
        let now: u64 = now_ms();
        self.keys_at(now)
    }

    /// How many keys there are, counting those that have expired and not yet been taken
    /// out.
    pub fn size(&self) -> (n: u32)
        ensures
            n == self@.dom().len() as u32,
            self@.dom().finite(),
            all_bytes(self@),
    {
        proof {
            use_type_invariant(self);
        }
        self.map.len() as u32
    }

    /// Take every key out.
    pub fn clear(&mut self)
        ensures
            final(self)@ == Map::<Seq<char>, EntryView>::empty(),
    {
        *self = Strenor::new();
    }

    /// Take out every key that has expired at the time `now`: how many.
    pub fn sweep_at(&mut self, now: u64) -> (n: u32)
        ensures
            final(self)@ == live(old(self)@, now),
            n == (old(self)@.dom().len() - final(self)@.dom().len()) as u32,
            final(self)@.dom().len() <= old(self)@.dom().len(),
    {
        let mut map = self.take();
        let n: u32 = sweep_map(&mut map, now);
        *self = Strenor { map };
        n
    }

    /// Take out every key that has expired: how many.
    pub fn sweep(&mut self) -> (n: u32)
        ensures
            exists|now: u64|
                clock_reads(now) && final(self)@ == #[trigger] live(old(self)@, now),
            n == (old(self)@.dom().len() - final(self)@.dom().len()) as u32,
            final(self)@.dom().len() <= old(self)@.dom().len(),
    {
        let now: u64 = now_ms();
        self.sweep_at(now)
    }

    /// The state as a snapshot of the first version.
    pub fn dump(&self) -> (buf: Vec<u8>)
        ensures
            buf@ == plain_snapshot(self@),
            all_bytes(self@),
    {
        proof {
            use_type_invariant(self);
        }
        let ghost s = ordered::<String, EntryView>(self.map@);
        let n: usize = self.map.len();
        let mut buf: Vec<u8> = Vec::new();
        put_all(&mut buf, MAGIC.as_slice());
        buf.push(VERSION);
        buf.push(0u8);
        put_u32(&mut buf, n as u32);
        proof {
            assert(buf@ =~= plain_header(n as nat));
            assert(buf@ =~= plain_header(n as nat) + plain_entries(s.take(0)));
            assert forall|j: int| 0 <= j < s.len() implies (#[trigger] s[j]).1.value is Bytes by {
                assert(self.map@.contains_key(s[j].0));
            }
        }
        let mut i: usize = 0;
        while i < n
            invariant
                i <= n,
                n == s.len(),
                s == ordered::<String, EntryView>(self.map@),
                buf@ == plain_header(n as nat) + plain_entries(s.take(i as int)),
                forall|j: int| 0 <= j < s.len() ==> (#[trigger] s[j]).1.value is Bytes,
            decreases n - i,
        {
            put_bytes(&mut buf, self.map.key_at(i).as_str().as_bytes());
            let e = self.map.val_at(i);
            let t: u64 = match e.expire_at {
                Some(t) => t,
                None => 0,
            };
            put_u64(&mut buf, t);
            proof {
                assert(s[i as int].1.value is Bytes);
            }
            match &e.value {
                Value::Bytes(b) => put_bytes(&mut buf, b.as_slice()),
                _ => {},
            }
            proof {
                assert(s.take(i + 1).drop_last() =~= s.take(i as int));
                assert(buf@ =~= plain_header(n as nat) + plain_entries(s.take(i + 1)));
            }
            i += 1;
        }
        proof {
            assert(s.take(i as int) =~= s);
        }
        buf
    }

    /// Load a snapshot of the first version in place of the whole state. One that cannot
    /// be parsed changes nothing.
    pub fn load(&mut self, data: &[u8]) -> (out: Result<(), SnapshotError>)
        ensures
            match parse_plain(data@) {
                Ok(m) => out is Ok && final(self)@ == m,
                Err(f) => out is Err && out->Err_0.0@ == f.text() && final(self)@ == old(self)@,
            },
    {
        if data.len() < 10 {
            return Err(SnapshotFault::TooSmall.error());
        }
        proof {
            assert(data@.subrange(0, 4) =~= data@.take(4));
        }
        if compare_bytes(&data[0..4], MAGIC.as_slice()) != Place::Same {
            return Err(SnapshotFault::BadMagic.error());
        }
        if data[4] != VERSION {
            return Err(SnapshotFault::BadVersion.error());
        }
        match load_body(data, VERSION) {
            Ok(map) => {
                proof {
                    match take_u32(data@, 6) {
                        Ok((count, at)) => entries_are_bytes(data@, at, count as nat),
                        Err(_) => {},
                    }
                }
                *self = Strenor { map };
                Ok(())
            },
            Err(f) => Err(f.error()),
        }
    }
}

} // verus!
