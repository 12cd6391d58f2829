//! The store.

pub mod hashes;
pub mod lists;
pub mod maintenance;
pub mod sets;
pub mod transactions;
pub mod zsets;

use vstd::prelude::*;
use crate::clock::{clock_reads, now_ms};
use crate::errors::{IoError, Recovery, WrongType};
use crate::log::{read_records, records_from, Aof, LogBase, LogWrite, LogWriteView};
use crate::expiry::{
    expire_at_from_ttl, expired_keys, keys_of, live, live_keys, purged, time_in, time_left, ttl_of,
};
use crate::model::{
    bytes_at, clear_op, close_op, del_op, expire_op, lookup, open_op, persist_op, purge_each,
    set_op, sweep_map_is_live, sweep_op, StoreView, TxView,
};
use crate::mutate::{apply_del, apply_expire, apply_persist, apply_set};
use crate::ranges::views;
use crate::record::{rec_clear, rec_expire, rec_key_only, rec_set, OP_DEL, OP_PERSIST};
use crate::replay::{readable, replay_all};
use crate::sorted_map::{is_ordered, ordered, Item, SortedMap};
use crate::value::{is_expired, Entry, EntryView, Value};

verus! {

/// What a key held before a transaction touched it.
struct Before {
    entry: Option<Entry>,
}

impl View for Before {
    type V = Option<EntryView>;

    closed spec fn view(&self) -> Option<EntryView> {
        match self.entry {
            Some(e) => Some(e@),
            None => None,
        }
    }
}

impl Item for Before {
    fn dup(&self) -> (copy: Self) {
        match &self.entry {
            Some(e) => Before { entry: Some(e.dup()) },
            None => Before { entry: None },
        }
    }
}

/// An open transaction: the records that wait for the commit, and what each touched
/// key held before. Only the first touch of a key is noted, so the cost of a rollback
/// grows with the keys changed, not with the size of the state.
struct Tx {
    staged: Vec<Vec<u8>>,
    undo: SortedMap<String, Before>,
}

impl View for Tx {
    type V = TxView;

    closed spec fn view(&self) -> TxView {
        TxView { staged: views(self.staged@), undo: self.undo@ }
    }
}

/// An in-memory store of typed values, with an optional append-only log.
///
/// The log file itself is the caller's: after each operation, the caller takes what
/// is owed to it and carries it out, before the next operation.
pub struct Store {
    map: SortedMap<String, Entry>,
    log: Option<Aof>,
    owed: LogWrite,
    closed: bool,
    had_log: bool,
    tx: Option<Tx>,
}

impl View for Store {
    type V = StoreView;

    closed spec fn view(&self) -> StoreView {
        StoreView {
            map: self.map@,
            log: self.log,
            owed: self.owed@,
            closed: self.closed,
            had_log: self.had_log,
            tx: match self.tx {
                Some(t) => Some(t@),
                None => None,
            },
        }
    }
}

impl Default for Store {
    fn default() -> (s: Self)
        ensures
            s@ == StoreView::empty(),
    {
        Store::new()
    }
}

/// The blob that was read, by its view.
pub open spec fn blob_view<E>(out: Result<Option<Vec<u8>>, E>) -> Result<Option<Seq<u8>>, E> {
    match out {
        Ok(Some(b)) => Ok(Some(b@)),
        Ok(None) => Ok(None),
        Err(e) => Err(e),
    }
}

/// The blobs that were read, by their views.
pub open spec fn list_view(out: Result<Vec<Vec<u8>>, WrongType>) -> Result<
    Seq<Seq<u8>>,
    WrongType,
> {
    match out {
        Ok(l) => Ok(views(l@)),
        Err(e) => Err(e),
    }
}

impl Store {
    /// An empty store without a log.
    pub fn new() -> (s: Self)
        ensures
            s@ == StoreView::empty(),
    {
        Store {
            map: SortedMap::new(),
            log: None,
            owed: LogWrite::none(),
            closed: false,
            had_log: false,
            tx: None,
        }
    }

    /// Open a store on the contents of a log file, replaying them first. A torn tail is
    /// dropped: it is reported, and the log is owed its removal. It is no error, but
    /// what a crash in the middle of a write leaves behind.
    pub fn with_aof(data: &[u8], fsync: bool) -> (out: (Self, Recovery))
        ensures
            out.0@ == open_op(data@, fsync),
            out.1.applied == readable(records_from(data@, 0).0) % 0x1_0000_0000,
            out.1.truncated == records_from(data@, 0).1 is Some,
    {
        let (records, damaged) = read_records(data);
        let (map, applied) = replay_all(&records);
        let (size, owed) = match damaged {
            Some(at) => (
                at,
                LogWrite { base: LogBase::Prefix(at), bytes: Vec::new(), sync: true },
            ),
            None => (data.len() as u64, LogWrite::none()),
        };
        let store = Store {
            map,
            log: Some(Aof { fsync, size }),
            owed,
            closed: false,
            had_log: false,
            tx: None,
        };
        proof {
            assert(store@ =~= open_op(data@, fsync));
        }
        (store, Recovery { applied, truncated: damaged.is_some() })
    }

    /// Take what is owed to the log file.
    pub fn take_log_write(&mut self) -> (w: LogWrite)
        ensures
            w@ == old(self)@.owed,
            final(self)@ == (StoreView { owed: LogWriteView::none(), ..old(self)@ }),
    {
        let mut w = LogWrite::none();
        std::mem::swap(&mut w, &mut self.owed);
        w
    }

    /// Journal a record. In a transaction it waits for the commit, so that a rollback
    /// leaves the log as it was.
    fn journal(&mut self, payload: Vec<u8>)
        ensures
            final(self)@ == old(self)@.journal_record(payload@),
    {
        if self.closed {
            return;
        }
        match &mut self.tx {
            Some(t) => {
                let ghost before = t.staged@;
                t.staged.push(payload);
                proof {
                    assert(views(t.staged@) =~= views(before).push(payload@));
                }
            },
            None => match &mut self.log {
                Some(a) => {
                    a.append(&mut self.owed, payload.as_slice());
                },
                None => {},
            },
        }
    }

    /// Note what a key holds before a mutation touches it in a transaction, the first
    /// time.
    fn record_undo(&mut self, key: &str)
        ensures
            final(self)@ == old(self)@.note(key@),
    {
        match &mut self.tx {
            Some(t) => {
                if !t.undo.contains(key) {
                    let before = match self.map.get(key) {
                        Some(e) => Before { entry: Some(e.dup()) },
                        None => Before { entry: None },
                    };
                    proof {
                        assert(before@ == lookup(self.map@, key@));
                    }
                    t.undo.insert(key.to_owned(), before);
                }
            },
            None => {},
        }
    }

    /// Take a key out that has expired, and journal that it is gone.
    fn purge(&mut self, key: &str, now: u64)
        ensures
            final(self)@ == old(self)@.purge(key@, now),
            final(self)@.map == purged(old(self)@.map, key@, now),
    {
        let gone = match self.map.get(key) {
            Some(e) => is_expired(e, now),
            None => false,
        };
        if gone {
            self.record_undo(key);
            self.map.remove(key);
            self.journal(rec_key_only(OP_DEL, key));
        }
    }

    /// Refuse mutations on a closed store: they would never reach the log.
    fn ensure_open(&self) -> (out: Result<(), IoError>)
        ensures
            out == (if self@.closed {
                Err::<(), IoError>(IoError::StoreClosed)
            } else {
                Ok(())
            }),
    {
        if self.closed {
            return Err(IoError::StoreClosed);
        }
        Ok(())
    }

    /// Close the store and let the log go. Closing again does nothing more. Mutations
    /// are refused from then on; what was read before can still be read.
    pub fn close(&mut self)
        ensures
            final(self)@ == close_op(old(self)@),
    {
        self.closed = true;
        self.had_log = self.had_log || self.log.is_some();
        self.log = None;
    }

    /// Whether the store has been closed.
    pub fn is_closed(&self) -> (yes: bool)
        ensures
            yes == self@.closed,
    {
        self.closed
    }

    /// Give a key plain bytes, whatever it held, at the time `now`.
    pub fn set_at(
        &mut self,
        key: String,
        value: Vec<u8>,
        ttl_ms: Option<i64>,
        now: u64,
    ) -> (out: Result<(), IoError>)
        ensures
            (final(self)@, out) == set_op(old(self)@, key@, value@, ttl_ms, now),
    {
        let expire_at = expire_at_from_ttl(ttl_ms, now);
        match self.ensure_open() {
            Ok(()) => {},
            Err(e) => return Err(e),
        }
        self.record_undo(key.as_str());
        let rec = rec_set(key.as_str(), value.as_slice(), expire_at);
        apply_set(&mut self.map, key, value, expire_at);
        self.journal(rec);
        Ok(())
    }

    /// Give a key plain bytes, whatever it held. A positive `ttl_ms` lets it expire so
    /// many milliseconds from now.
    pub fn set(&mut self, key: String, value: Vec<u8>, ttl_ms: Option<i64>) -> (out: Result<
        (),
        IoError,
    >)
        ensures
            exists|now: u64|
                clock_reads(now) && (final(self)@, out) == #[trigger]
                    set_op(old(self)@, key@, value@, ttl_ms, now),
    {
        let now: u64 = now_ms();
        self.set_at(key, value, ttl_ms, now)
    }

    /// The bytes of a key, at the time `now`.
    pub fn get_at(&mut self, key: &str, now: u64) -> (out: Result<Option<Vec<u8>>, WrongType>)
        ensures
            final(self)@ == old(self)@.purge(key@, now),
            blob_view(out) == bytes_at(final(self)@.map, key@),
    {
        self.purge(key, now);
        match self.map.get(key) {
            Some(e) => match &e.value {
                Value::Bytes(bytes) => Ok(Some(bytes.dup())),
                _ => Err(WrongType),
            },
            None => Ok(None),
        }
    }

    /// The bytes of a key. A key that has expired is taken out.
    pub fn get(&mut self, key: &str) -> (out: Result<Option<Vec<u8>>, WrongType>)
        ensures
            exists|now: u64|
                clock_reads(now) && final(self)@ == #[trigger] old(self)@.purge(key@, now),
            blob_view(out) == bytes_at(final(self)@.map, key@),
    {
        let now: u64 = now_ms();
        self.get_at(key, now)
    }

    /// Take a key out: whether it was there.
    pub fn del(&mut self, key: &str) -> (out: Result<bool, IoError>)
        ensures
            (final(self)@, out) == del_op(old(self)@, key@),
    {
        match self.ensure_open() {
            Ok(()) => {},
            Err(e) => return Err(e),
        }
        self.record_undo(key);
        let ghost mid = self@;
        let existed = apply_del(&mut self.map, key);
        if existed {
            self.journal(rec_key_only(OP_DEL, key));
        } else {
            proof {
                assert(mid.map.remove(key@) =~= mid.map);
            }
        }
        Ok(existed)
    }

    /// Whether a key is there, at the time `now`.
    pub fn key_exists_at(&mut self, key: &str, now: u64) -> (yes: bool)
        ensures
            final(self)@ == old(self)@.purge(key@, now),
            yes == final(self)@.map.contains_key(key@),
    {
        self.purge(key, now);
        self.map.contains(key)
    }

    /// Whether a key is there. A key that has expired is taken out.
    pub fn key_exists(&mut self, key: &str) -> (yes: bool)
        ensures
            exists|now: u64|
                clock_reads(now) && final(self)@ == #[trigger] old(self)@.purge(key@, now),
            yes == final(self)@.map.contains_key(key@),
    {
        let now: u64 = now_ms();
        self.key_exists_at(key, now)
    }

    /// Let a key expire `ttl_ms` milliseconds from the time `now`: whether it is there.
    pub fn expire_at(&mut self, key: &str, ttl_ms: i64, now: u64) -> (out: Result<bool, IoError>)
        ensures
            (final(self)@, out) == expire_op(old(self)@, key@, ttl_ms, now),
    {
        let at: u64 = time_in(ttl_ms, now);
        match self.ensure_open() {
            Ok(()) => {},
            Err(e) => return Err(e),
        }
        self.record_undo(key);
        let ok = apply_expire(&mut self.map, key, at);
        if ok {
            self.journal(rec_expire(key, at));
        }
        Ok(ok)
    }

    /// Let a key expire `ttl_ms` milliseconds from now: whether it is there.
    pub fn expire(&mut self, key: &str, ttl_ms: i64) -> (out: Result<bool, IoError>)
        ensures
            exists|now: u64|
                clock_reads(now) && (final(self)@, out) == #[trigger]
                    expire_op(old(self)@, key@, ttl_ms, now),
    {
        let now: u64 = now_ms();
        self.expire_at(key, ttl_ms, now)
    }

    /// Let a key never expire: whether it is there.
    pub fn persist(&mut self, key: &str) -> (out: Result<bool, IoError>)
        ensures
            (final(self)@, out) == persist_op(old(self)@, key@),
    {
        match self.ensure_open() {
            Ok(()) => {},
            Err(e) => return Err(e),
        }
        self.record_undo(key);
        let ok = apply_persist(&mut self.map, key);
        if ok {
            self.journal(rec_key_only(OP_PERSIST, key));
        }
        Ok(ok)
    }

    /// The milliseconds that a key has left at the time `now`: -1 if it never expires, -2
    /// if it is missing.
    pub fn ttl_at(&mut self, key: &str, now: u64) -> (ms: i64)
        ensures
            final(self)@ == old(self)@.purge(key@, now),
            ms == ttl_of(final(self)@.map, key@, now),
    {
        self.purge(key, now);
        time_left(&self.map, key, now)
    }

    /// The milliseconds that a key has left: -1 if it never expires, -2 if it is missing.
    pub fn ttl(&mut self, key: &str) -> (ms: i64)
        ensures
            exists|now: u64|
                clock_reads(now) && final(self)@ == #[trigger]
                    old(self)@.purge(key@, now) && ms == ttl_of(
                    final(self)@.map,
                    key@,
                    now,
                ),
    {
        let now: u64 = now_ms();
        self.ttl_at(key, now)
    }

    /// The keys that have not expired at the time `now`, in order.
    pub fn keys_at(&self, now: u64) -> (out: Vec<String>)
        ensures
            views(out@) == keys_of(live(self@.map, now)),
    {
        live_keys(&self.map, now)
    }

    /// The keys that have not expired, in order.
    pub fn keys(&self) -> (out: Vec<String>)
        ensures
            exists|now: u64|
                clock_reads(now) && views(out@) == keys_of(#[trigger] live(self@.map, now)),
    {
        let now: u64 = now_ms();
        self.keys_at(now)
    }

    /// How many keys there are, counting those that have expired and not yet been taken
    /// out.
    pub fn size(&self) -> (n: u32)
        ensures
            n == self@.map.dom().len() as u32,
            self@.map.dom().finite(),
    {
        self.map.len() as u32
    }

    /// Note what every key holds before all of them are taken out in a transaction.
    fn record_undo_all(&mut self)
        ensures
            final(self)@ == old(self)@.note_all(),
    {
        match &mut self.tx {
            Some(t) => {
                let ghost undo = t.undo@;
                let ghost staged = t.staged@;
                let ghost m = self.map@;
                let ghost s = ordered::<String, EntryView>(m);
                let n: usize = self.map.len();
                let mut i: usize = 0;
                while i < n
                    invariant
                        i <= n,
                        n == s.len(),
                        m == self.map@,
                        s == ordered::<String, EntryView>(m),
                        is_ordered::<String, EntryView>(s, m),
                        t.staged@ == staged,
                        forall|k: Seq<char>| #[trigger]
                            t.undo@.contains_key(k) <==> undo.contains_key(k) || exists|j: int|
                                0 <= j < i && #[trigger] s[j].0 == k,
                        forall|k: Seq<char>| #[trigger]
                            t.undo@.contains_key(k) ==> t.undo@[k] == (if undo.contains_key(k) {
                                undo[k]
                            } else {
                                lookup(m, k)
                            }),
                    decreases n - i,
                {
                    let key = self.map.key_at(i);
                    let ghost last = t.undo@;
                    proof {
                        assert(m.contains_key(s[i as int].0));
                    }
                    if !t.undo.contains(key.as_str()) {
                        let before = Before { entry: Some(self.map.val_at(i).dup()) };
                        t.undo.insert(key.dup(), before);
                    }
                    proof {
                        assert forall|k: Seq<char>| #[trigger] t.undo@.contains_key(k) implies
                            undo.contains_key(k) || exists|j: int|
                            0 <= j < i + 1 && #[trigger] s[j].0 == k by {
                            if k == s[i as int].0 {
                            } else {
                                assert(last.contains_key(k));
                            }
                        }
                        assert forall|k: Seq<char>|
                            undo.contains_key(k) || (exists|j: int|
                                0 <= j < i + 1 && #[trigger] s[j].0 == k) implies #[trigger]
                            t.undo@.contains_key(k) by {
                            if undo.contains_key(k) {
                                assert(last.contains_key(k));
                            } else {
                                let j = choose|j: int| 0 <= j < i + 1 && #[trigger] s[j].0 == k;
                                if j < i {
                                    assert(last.contains_key(k));
                                }
                            }
                        }
                    }
                    i += 1;
                }
                proof {
                    assert forall|k: Seq<char>| m.contains_key(k) implies #[trigger]
                        t.undo@.contains_key(k) by {
                        let j = choose|j: int| 0 <= j < s.len() && #[trigger] s[j].0 == k;
                    }
                    let want = Map::new(
                        |k: Seq<char>| undo.contains_key(k) || m.contains_key(k),
                        |k: Seq<char>|
                            if undo.contains_key(k) {
                                undo[k]
                            } else {
                                lookup(m, k)
                            },
                    );
                    assert(t.undo@ =~= want) by {
                        assert forall|k: Seq<char>| #[trigger] t.undo@.contains_key(k) implies
                            want.contains_key(k) by {
                            if !undo.contains_key(k) {
                                let j = choose|j: int| 0 <= j < s.len() && #[trigger] s[j].0 == k;
                                assert(m.contains_key(s[j].0));
                            }
                        }
                    }
                }
            },
            None => {},
        }
    }

    /// Take every key out.
    pub fn clear(&mut self) -> (out: Result<(), IoError>)
        ensures
            (final(self)@, out) == clear_op(old(self)@),
    {
        match self.ensure_open() {
            Ok(()) => {},
            Err(e) => return Err(e),
        }
        self.record_undo_all();
        self.map.clear();
        self.journal(rec_clear());
        Ok(())
    }

    /// Take out every key that has expired at the time `now`: how many.
    pub fn sweep_at(&mut self, now: u64) -> (n: u32)
        ensures
            final(self)@ == sweep_op(old(self)@, now),
            final(self)@.map == live(old(self)@.map, now),
            n == (old(self)@.map.dom().len() - final(self)@.map.dom().len()) as u32,
            final(self)@.map.dom().len() <= old(self)@.map.dom().len(),
    {
        let ghost v = self@;
        let before: usize = self.map.len();
        let gone = expired_keys(&self.map, now);
        let ghost keys = views(gone@);
        let mut i: usize = gone.len();
        proof {
            assert(keys.take(i as int) =~= keys);
        }
        while i > 0
            invariant
                i <= gone@.len(),
                keys == views(gone@),
                purge_each(self@, keys.take(i as int), now) == purge_each(v, keys, now),
            decreases i,
        {
            i -= 1;
            proof {
                assert(keys.take(i + 1).drop_last() =~= keys.take(i as int));
                assert(keys.take(i + 1).last() == gone@[i as int]@);
            }
            self.purge(gone[i].as_str(), now);
        }
        proof {
            sweep_map_is_live(v, now);
            assert(self@.map.dom().subset_of(v.map.dom()));
            vstd::set_lib::lemma_len_subset(self@.map.dom(), v.map.dom());
        }
        let left: usize = self.map.len();
        (before - left) as u32
    }

    /// Take out every key that has expired: how many.
    pub fn sweep(&mut self) -> (n: u32)
        ensures
            exists|now: u64|
                clock_reads(now) && final(self)@ == #[trigger]
                    sweep_op(old(self)@, now) && final(self)@.map == live(
                    old(self)@.map,
                    now,
                ),
            n == (old(self)@.map.dom().len() - final(self)@.map.dom().len()) as u32,
            final(self)@.map.dom().len() <= old(self)@.map.dom().len(),
    {
        let now: u64 = now_ms();
        self.sweep_at(now)
    }
}

} // verus!
