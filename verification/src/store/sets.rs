//! Sets of blobs.

use vstd::prelude::*;
use crate::clock::{clock_reads, now_ms};
use crate::errors::{ListError, WrongType};
use crate::model::{sadd_op, scard_of, sismember_of, smembers_of, srem_op};
use crate::mutate::{apply_sadd, apply_srem};
use crate::ranges::views;
use crate::record::{rec_smember, OP_SADD, OP_SREM};
use crate::snapshot::{listed_members, unit_map};
use crate::sorted_map::{ordered, ordered_exists, ordered_len, Item};
use crate::store::{list_view, Store};
use crate::value::Value;

verus! {

/// No member is listed of an empty set.
proof fn no_members()
    ensures
        listed_members(Set::empty()) == Seq::<Seq<u8>>::empty(),
{
    let m = unit_map(Set::empty());
    assert(m.dom() =~= Set::<Seq<u8>>::empty());
    ordered_exists::<Vec<u8>, ()>(m);
    ordered_len::<Vec<u8>, ()>(ordered::<Vec<u8>, ()>(m), m);
    assert(listed_members(Set::empty()) =~= Seq::<Seq<u8>>::empty());
}

impl Store {
    /// Put a member into a set at the time `now`: whether it is new.
    pub fn sadd_at(&mut self, key: &str, member: Vec<u8>, now: u64) -> (out: Result<
        bool,
        ListError,
    >)
        ensures
            (final(self)@, out) == sadd_op(old(self)@, key@, member@, now),
    {
        match self.ensure_open() {
            Ok(()) => {},
            Err(e) => return Err(ListError::Io(e)),
        }
        self.purge(key, now);
        self.record_undo(key);
        let rec = rec_smember(OP_SADD, key, member.as_slice());
        match apply_sadd(&mut self.map, key, member) {
            Ok(new) => {
                self.journal(rec);
                Ok(new)
            },
            Err(_) => Err(ListError::WrongType),
        }
    }

    /// Put a member into a set, which is created if missing: whether it is new.
    pub fn sadd(&mut self, key: &str, member: Vec<u8>) -> (out: Result<bool, ListError>)
        ensures
            exists|now: u64|
                clock_reads(now) && (final(self)@, out) == #[trigger]
                    sadd_op(old(self)@, key@, member@, now),
    {
        let now: u64 = now_ms();
        self.sadd_at(key, member, now)
    }

    /// Take a member out of a set at the time `now`: whether it was there.
    pub fn srem_at(&mut self, key: &str, member: &[u8], now: u64) -> (out: Result<bool, ListError>)
        ensures
            (final(self)@, out) == srem_op(old(self)@, key@, member@, now),
    {
        match self.ensure_open() {
            Ok(()) => {},
            Err(e) => return Err(ListError::Io(e)),
        }
        self.purge(key, now);
        self.record_undo(key);
        match apply_srem(&mut self.map, key, member) {
            Ok(removed) => {
                if removed {
                    self.journal(rec_smember(OP_SREM, key, member));
                }
                Ok(removed)
            },
            Err(_) => Err(ListError::WrongType),
        }
    }

    /// Take a member out of a set: whether it was there. A set that has become empty goes
    /// with its key.
    pub fn srem(&mut self, key: &str, member: &[u8]) -> (out: Result<bool, ListError>)
        ensures
            exists|now: u64|
                clock_reads(now) && (final(self)@, out) == #[trigger]
                    srem_op(old(self)@, key@, member@, now),
    {
        let now: u64 = now_ms();
        self.srem_at(key, member, now)
    }

    /// Whether a set has a member at the time `now`.
    pub fn sismember_at(&mut self, key: &str, member: &[u8], now: u64) -> (out: Result<
        bool,
        WrongType,
    >)
        ensures
            final(self)@ == old(self)@.purge(key@, now),
            out == sismember_of(final(self)@.map, key@, member@),
    {
        self.purge(key, now);
        match self.map.get(key) {
            Some(e) => match &e.value {
                Value::Members(set) => Ok(set.contains(member)),
                _ => Err(WrongType),
            },
            None => Ok(false),
        }
    }

    /// Whether a set has a member.
    pub fn sismember(&mut self, key: &str, member: &[u8]) -> (out: Result<bool, WrongType>)
        ensures
            exists|now: u64|
                clock_reads(now) && final(self)@ == #[trigger] old(self)@.purge(key@, now),
            out == sismember_of(final(self)@.map, key@, member@),
    {
        let now: u64 = now_ms();
        self.sismember_at(key, member, now)
    }

    /// The members of a set at the time `now`, in the order of their bytes.
    pub fn smembers_at(&mut self, key: &str, now: u64) -> (out: Result<Vec<Vec<u8>>, WrongType>)
        ensures
            final(self)@ == old(self)@.purge(key@, now),
            list_view(out) == smembers_of(final(self)@.map, key@),
    {
        self.purge(key, now);
        match self.map.get(key) {
            Some(e) => match &e.value {
                Value::Members(set) => {
                    let ghost s = listed_members(set@.dom());
                    let n: usize = set.len();
                    let mut out: Vec<Vec<u8>> = Vec::new();
                    let mut i: usize = 0;
                    proof {
                        assert(unit_map(set@.dom()) =~= set@);
                        assert(views(out@) =~= s.take(0));
                    }
                    while i < n
                        invariant
                            i <= n,
                            n == s.len(),
                            n == ordered::<Vec<u8>, ()>(set@).len(),
                            unit_map(set@.dom()) == set@,
                            s == listed_members(set@.dom()),
                            views(out@) == s.take(i as int),
                        decreases n - i,
                    {
                        let member = set.key_at(i).dup();
                        let ghost was = out@;
                        out.push(member);
                        proof {
                            assert(views(out@) =~= views(was).push(member@));
                            assert(s.take(i + 1) =~= s.take(i as int).push(member@));
                        }
                        i += 1;
                    }
                    proof {
                        assert(s.take(i as int) =~= s);
                    }
                    Ok(out)
                },
                _ => Err(WrongType),
            },
            None => {
                let out: Vec<Vec<u8>> = Vec::new();
                proof {
                    no_members();
                    assert(views(out@) =~= Seq::empty());
                }
                Ok(out)
            },
        }
    }

    /// The members of a set, in the order of their bytes; none if the key is missing.
    pub fn smembers(&mut self, key: &str) -> (out: Result<Vec<Vec<u8>>, WrongType>)
        ensures
            exists|now: u64|
                clock_reads(now) && final(self)@ == #[trigger] old(self)@.purge(key@, now),
            list_view(out) == smembers_of(final(self)@.map, key@),
    {
        let now: u64 = now_ms();
        self.smembers_at(key, now)
    }

    /// How many members a set has at the time `now`.
    pub fn scard_at(&mut self, key: &str, now: u64) -> (out: Result<u32, WrongType>)
        ensures
            final(self)@ == old(self)@.purge(key@, now),
            out == scard_of(final(self)@.map, key@),
    {
        self.purge(key, now);
        match self.map.get(key) {
            Some(e) => match &e.value {
                Value::Members(set) => Ok(set.len() as u32),
                _ => Err(WrongType),
            },
            None => Ok(0),
        }
    }

    /// How many members a set has: 0 if the key is missing.
    pub fn scard(&mut self, key: &str) -> (out: Result<u32, WrongType>)
        ensures
            exists|now: u64|
                clock_reads(now) && final(self)@ == #[trigger] old(self)@.purge(key@, now),
            out == scard_of(final(self)@.map, key@),
    {
        let now: u64 = now_ms();
        self.scard_at(key, now)
    }
}

} // verus!
