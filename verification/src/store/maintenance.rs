//! The log and the snapshots of a store.

use vstd::prelude::*;
use crate::clock::{clock_reads, now_ms};
use crate::compact::{
    compact_op, compact_records, entry_records, forget, forget_each, forget_each_keeps, records_of,
    renewal_ops, without_dead,
};
use crate::errors::{IoError, SnapshotError};
use crate::expiry::{expired_keys, sweep_map};
use crate::model::lookup;
use crate::ranges::views;
use crate::record::{rec_key_only, Op, OP_DEL};
use crate::snapshot::{dump, parse, parse_snapshot, snapshot};
use crate::sorted_map::Item;
use crate::store::transactions::restore;
use crate::store::{Before, Store};
use crate::value::{is_expired, sound};

verus! {

impl Store {
    /// Whether a log is attached.
    pub fn has_aof(&self) -> (yes: bool)
        ensures
            yes == self@.log is Some,
    {
        self.log.is_some()
    }

    /// How many bytes the log has: 0 without a log.
    pub fn aof_size(&self) -> (n: u64)
        ensures
            n == (match self@.log {
                Some(a) => a.size,
                None => 0,
            }),
    {
        match &self.log {
            Some(a) => a.size,
            None => 0,
        }
    }

    /// In a transaction, no longer hold a key to have been there before it: record in full
    /// what it holds now, for the commit, and take it out if that has expired.
    fn forget(&mut self, key: &str, now: u64)
        ensures
            final(self)@ == forget(old(self)@, key@, now),
    {
        let ghost v = self@;
        match &mut self.tx {
            Some(t) => {
                let ghost staged = t.staged@;
                let mut records: Vec<Vec<u8>> = Vec::new();
                records.push(rec_key_only(OP_DEL, key));
                let ghost first = seq![Op::Del { key: key@ }];
                proof {
                    assert(views(records@) =~= records_of(first));
                }
                let mut gone = false;
                match self.map.get(key) {
                    Some(e) => if is_expired(e, now) {
                        gone = true;
                    } else {
                        entry_records(&mut records, key, e, Ghost(first));
                    },
                    None => {},
                }
                proof {
                    assert(first + Seq::<Op>::empty() =~= first);
                    assert(views(records@) == records_of(
                        renewal_ops(key@, lookup(self.map@, key@), now),
                    ));
                    assert(views(staged + records@) =~= views(staged) + views(records@));
                }
                t.staged.append(&mut records);
                t.undo.insert(key.to_owned(), Before { entry: None });
                if gone {
                    self.map.remove(key);
                }
                proof {
                    assert(self@ =~= forget(v, key@, now));
                }
            },
            None => {},
        }
    }

    /// Compact the log at the time `now`: its new size.
    pub fn compact_at(&mut self, now: u64) -> (out: Result<u64, IoError>)
        ensures
            (final(self)@, out) == compact_op(old(self)@, now),
    {
        let ghost v = self@;
        match self.ensure_open() {
            Ok(()) => {},
            Err(e) => return Err(e),
        }
        if self.log.is_none() {
            return Ok(0);
        }
        let records: Vec<Vec<u8>>;
        match &self.tx {
            Some(t) => {
                let mut before = self.map.dup();
                restore(&mut before, &t.undo);
                let gone = expired_keys(&before, now);
                sweep_map(&mut before, now);
                records = compact_records(&before);
                let ghost keys = views(gone@);
                let mut i: usize = gone.len();
                proof {
                    assert(keys.take(i as int) =~= keys);
                }
                while i > 0
                    invariant
                        i <= gone@.len(),
                        keys == views(gone@),
                        forget_each(self@, keys.take(i as int), now) == forget_each(v, keys, now),
                    decreases i,
                {
                    i -= 1;
                    proof {
                        assert(keys.take(i + 1).drop_last() =~= keys.take(i as int));
                        assert(keys.take(i + 1).last() == gone@[i as int]@);
                    }
                    self.forget(gone[i].as_str(), now);
                }
                proof {
                    forget_each_keeps(v, keys, now);
                }
            },
            None => {
                sweep_map(&mut self.map, now);
                records = compact_records(&self.map);
            },
        }
        proof {
            assert(self@ == without_dead(v, now));
        }
        match &mut self.log {
            Some(a) => {
                a.rewrite(&mut self.owed, &records);
                Ok(a.size)
            },
            None => Ok(0),
        }
    }

    /// Rewrite the log as the shortest run of records that comes to the present state:
    /// its new size, 0 without a log. Keys that have expired are taken out. While a
    /// transaction is open, the log is rewritten to what has not expired of the state
    /// before it.
    pub fn compact(&mut self) -> (out: Result<u64, IoError>)
        ensures
            exists|now: u64|
                clock_reads(now) && (final(self)@, out) == #[trigger] compact_op(old(self)@, now),
    {
        let now: u64 = now_ms();
        self.compact_at(now)
    }

    /// The state as a snapshot.
    pub fn dump_bytes(&self) -> (data: Vec<u8>)
        ensures
            data@ == snapshot(self@.map),
            sound(self@.map),
    {
        dump(&self.map)
    }

    /// Load a snapshot in place of the whole state. One that cannot be parsed changes
    /// nothing.
    pub fn load_bytes(&mut self, data: &[u8]) -> (out: Result<(), SnapshotError>)
        ensures
            match parse(data@) {
                Ok(m) => out is Ok && final(self)@ == old(self)@.with_map(m),
                Err(f) => out is Err && out->Err_0.0@ == f.text() && final(self)@ == old(self)@,
            },
    {
        match parse_snapshot(data) {
            Ok(map) => {
                self.map = map;
                Ok(())
            },
            Err(e) => Err(e),
        }
    }
}

} // verus!
