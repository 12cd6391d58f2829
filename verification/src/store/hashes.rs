//! Hashes: fields with a blob each.

use vstd::prelude::*;
use crate::clock::{clock_reads, now_ms};
use crate::errors::{ListError, WrongType};
use crate::expiry::first_parts;
use crate::model::{hdel_op, hexists_of, hget_of, hgetall_of, hkeys_of, hlen_of, hset_op};
use crate::mutate::{apply_hdel, apply_hset};
use crate::ranges::views;
use crate::record::{rec_hdel, rec_hset};
use crate::sorted_map::{ordered, ordered_exists, ordered_len, Item};
use crate::store::{blob_view, Store};
use crate::value::Value;

verus! {

/// The fields that were read with their values, by their views.
pub open spec fn pairs_view(l: Seq<(String, Vec<u8>)>) -> Seq<(Seq<char>, Seq<u8>)> {
    Seq::new(l.len(), |i: int| (l[i].0@, l[i].1@))
}

/// No field is listed of no fields.
proof fn no_fields()
    ensures
        ordered::<String, Seq<u8>>(Map::empty()) == Seq::<(Seq<char>, Seq<u8>)>::empty(),
{
    let m = Map::<Seq<char>, Seq<u8>>::empty();
    assert(m.dom() =~= Set::<Seq<char>>::empty());
    ordered_exists::<String, Seq<u8>>(m);
    ordered_len::<String, Seq<u8>>(ordered::<String, Seq<u8>>(m), m);
    assert(ordered::<String, Seq<u8>>(m) =~= Seq::empty());
}

impl Store {
    /// Give a field of a hash a value at the time `now`: whether the field is new.
    pub fn hset_at(&mut self, key: &str, field: String, value: Vec<u8>, now: u64) -> (out: Result<
        bool,
        ListError,
    >)
        ensures
            (final(self)@, out) == hset_op(old(self)@, key@, field@, value@, now),
    {
        match self.ensure_open() {
            Ok(()) => {},
            Err(e) => return Err(ListError::Io(e)),
        }
        self.purge(key, now);
        self.record_undo(key);
        let rec = rec_hset(key, field.as_str(), value.as_slice());
        match apply_hset(&mut self.map, key, field, value) {
            Ok(new) => {
                self.journal(rec);
                Ok(new)
            },
            Err(_) => Err(ListError::WrongType),
        }
    }

    /// Give a field of a hash, which is created if missing, a value: whether the field is
    /// new.
    pub fn hset(&mut self, key: &str, field: String, value: Vec<u8>) -> (out: Result<
        bool,
        ListError,
    >)
        ensures
            exists|now: u64|
                clock_reads(now) && (final(self)@, out) == #[trigger]
                    hset_op(old(self)@, key@, field@, value@, now),
    {
        let now: u64 = now_ms();
        self.hset_at(key, field, value, now)
    }

    /// The value of a field of a hash at the time `now`.
    pub fn hget_at(&mut self, key: &str, field: &str, now: u64) -> (out: Result<
        Option<Vec<u8>>,
        WrongType,
    >)
        ensures
            final(self)@ == old(self)@.purge(key@, now),
            blob_view(out) == hget_of(final(self)@.map, key@, field@),
    {
        self.purge(key, now);
        match self.map.get(key) {
            Some(e) => match &e.value {
                Value::Hash(h) => match h.get(field) {
                    Some(v) => Ok(Some(v.dup())),
                    None => Ok(None),
                },
                _ => Err(WrongType),
            },
            None => Ok(None),
        }
    }

    /// The value of a field of a hash; none if the key or the field is missing.
    pub fn hget(&mut self, key: &str, field: &str) -> (out: Result<Option<Vec<u8>>, WrongType>)
        ensures
            exists|now: u64|
                clock_reads(now) && final(self)@ == #[trigger] old(self)@.purge(key@, now),
            blob_view(out) == hget_of(final(self)@.map, key@, field@),
    {
        let now: u64 = now_ms();
        self.hget_at(key, field, now)
    }

    /// Take a field out of a hash at the time `now`: whether it was there.
    pub fn hdel_at(&mut self, key: &str, field: &str, now: u64) -> (out: Result<bool, ListError>)
        ensures
            (final(self)@, out) == hdel_op(old(self)@, key@, field@, now),
    {
        match self.ensure_open() {
            Ok(()) => {},
            Err(e) => return Err(ListError::Io(e)),
        }
        self.purge(key, now);
        self.record_undo(key);
        match apply_hdel(&mut self.map, key, field) {
            Ok(existed) => {
                if existed {
                    self.journal(rec_hdel(key, field));
                }
                Ok(existed)
            },
            Err(_) => Err(ListError::WrongType),
        }
    }

    /// Take a field out of a hash: whether it was there. A hash that has become empty
    /// goes with its key.
    pub fn hdel(&mut self, key: &str, field: &str) -> (out: Result<bool, ListError>)
        ensures
            exists|now: u64|
                clock_reads(now) && (final(self)@, out) == #[trigger]
                    hdel_op(old(self)@, key@, field@, now),
    {
        let now: u64 = now_ms();
        self.hdel_at(key, field, now)
    }

    /// Whether a hash has a field at the time `now`.
    pub fn hexists_at(&mut self, key: &str, field: &str, now: u64) -> (out: Result<
        bool,
        WrongType,
    >)
        ensures
            final(self)@ == old(self)@.purge(key@, now),
            out == hexists_of(final(self)@.map, key@, field@),
    {
        self.purge(key, now);
        match self.map.get(key) {
            Some(e) => match &e.value {
                Value::Hash(h) => Ok(h.contains(field)),
                _ => Err(WrongType),
            },
            None => Ok(false),
        }
    }

    /// Whether a hash has a field.
    pub fn hexists(&mut self, key: &str, field: &str) -> (out: Result<bool, WrongType>)
        ensures
            exists|now: u64|
                clock_reads(now) && final(self)@ == #[trigger] old(self)@.purge(key@, now),
            out == hexists_of(final(self)@.map, key@, field@),
    {
        let now: u64 = now_ms();
        self.hexists_at(key, field, now)
    }

    /// The fields of a hash at the time `now`, in order.
    pub fn hkeys_at(&mut self, key: &str, now: u64) -> (out: Result<Vec<String>, WrongType>)
        ensures
            final(self)@ == old(self)@.purge(key@, now),
            match out {
                Ok(l) => hkeys_of(final(self)@.map, key@) == Ok::<Seq<Seq<char>>, WrongType>(
                    views(l@),
                ),
                Err(e) => hkeys_of(final(self)@.map, key@) == Err::<Seq<Seq<char>>, WrongType>(e),
            },
    {
        self.purge(key, now);
        match self.map.get(key) {
            Some(e) => match &e.value {
                Value::Hash(h) => {
                    let ghost s = ordered::<String, Seq<u8>>(h@);
                    let n: usize = h.len();
                    let mut out: Vec<String> = Vec::new();
                    let mut i: usize = 0;
                    proof {
                        assert(views(out@) =~= first_parts(s.take(0)));
                    }
                    while i < n
                        invariant
                            i <= n,
                            n == s.len(),
                            s == ordered::<String, Seq<u8>>(h@),
                            views(out@) == first_parts(s.take(i as int)),
                        decreases n - i,
                    {
                        let field = h.key_at(i).dup();
                        let ghost was = out@;
                        out.push(field);
                        proof {
                            assert(views(out@) =~= views(was).push(field@));
                            assert(first_parts(s.take(i + 1)) =~= first_parts(
                                s.take(i as int),
                            ).push(field@));
                        }
                        i += 1;
                    }
                    proof {
                        assert(s.take(i as int) =~= s);
                    }
                    Ok(out)
                },
                _ => Err(WrongType),
            },
            None => {
                let out: Vec<String> = Vec::new();
                proof {
                    no_fields();
                    assert(views(out@) =~= first_parts(Seq::<(Seq<char>, Seq<u8>)>::empty()));
                }
                Ok(out)
            },
        }
    }

    /// The fields of a hash, in order; none if the key is missing.
    pub fn hkeys(&mut self, key: &str) -> (out: Result<Vec<String>, WrongType>)
        ensures
            exists|now: u64|
                clock_reads(now) && final(self)@ == #[trigger] old(self)@.purge(key@, now),
            match out {
                Ok(l) => hkeys_of(final(self)@.map, key@) == Ok::<Seq<Seq<char>>, WrongType>(
                    views(l@),
                ),
                Err(e) => hkeys_of(final(self)@.map, key@) == Err::<Seq<Seq<char>>, WrongType>(e),
            },
    {
        let now: u64 = now_ms();
        self.hkeys_at(key, now)
    }

    /// How many fields a hash has at the time `now`.
    pub fn hlen_at(&mut self, key: &str, now: u64) -> (out: Result<u32, WrongType>)
        ensures
            final(self)@ == old(self)@.purge(key@, now),
            out == hlen_of(final(self)@.map, key@),
    {
        self.purge(key, now);
        match self.map.get(key) {
            Some(e) => match &e.value {
                Value::Hash(h) => Ok(h.len() as u32),
                _ => Err(WrongType),
            },
            None => {
                proof {
                    assert(Map::<Seq<char>, Seq<u8>>::empty().dom() =~= Set::<Seq<char>>::empty());
                }
                Ok(0)
            },
        }
    }

    /// How many fields a hash has: 0 if the key is missing.
    pub fn hlen(&mut self, key: &str) -> (out: Result<u32, WrongType>)
        ensures
            exists|now: u64|
                clock_reads(now) && final(self)@ == #[trigger] old(self)@.purge(key@, now),
            out == hlen_of(final(self)@.map, key@),
    {
        let now: u64 = now_ms();
        self.hlen_at(key, now)
    }

    /// The fields of a hash with their values at the time `now`, in the order of the
    /// fields.
    pub fn hgetall_at(&mut self, key: &str, now: u64) -> (out: Result<
        Vec<(String, Vec<u8>)>,
        WrongType,
    >)
        ensures
            final(self)@ == old(self)@.purge(key@, now),
            match out {
                Ok(l) => hgetall_of(final(self)@.map, key@) == Ok::<
                    Seq<(Seq<char>, Seq<u8>)>,
                    WrongType,
                >(pairs_view(l@)),
                Err(e) => hgetall_of(final(self)@.map, key@) == Err::<
                    Seq<(Seq<char>, Seq<u8>)>,
                    WrongType,
                >(e),
            },
    {
        self.purge(key, now);
        match self.map.get(key) {
            Some(e) => match &e.value {
                Value::Hash(h) => {
                    let ghost s = ordered::<String, Seq<u8>>(h@);
                    let n: usize = h.len();
                    let mut out: Vec<(String, Vec<u8>)> = Vec::new();
                    let mut i: usize = 0;
                    proof {
                        assert(pairs_view(out@) =~= s.take(0));
                    }
                    while i < n
                        invariant
                            i <= n,
                            n == s.len(),
                            s == ordered::<String, Seq<u8>>(h@),
                            pairs_view(out@) == s.take(i as int),
                        decreases n - i,
                    {
                        let pair = (h.key_at(i).dup(), h.val_at(i).dup());
                        let ghost was = out@;
                        out.push(pair);
                        proof {
                            assert(pairs_view(out@) =~= pairs_view(was).push(s[i as int]));
                            assert(s.take(i + 1) =~= s.take(i as int).push(s[i as int]));
                        }
                        i += 1;
                    }
                    proof {
                        assert(s.take(i as int) =~= s);
                    }
                    Ok(out)
                },
                _ => Err(WrongType),
            },
            None => {
                let out: Vec<(String, Vec<u8>)> = Vec::new();
                proof {
                    no_fields();
                    assert(pairs_view(out@) =~= Seq::empty());
                }
                Ok(out)
            },
        }
    }

    /// The fields of a hash with their values, in the order of the fields; none if the
    /// key is missing.
    pub fn hgetall(&mut self, key: &str) -> (out: Result<Vec<(String, Vec<u8>)>, WrongType>)
        ensures
            exists|now: u64|
                clock_reads(now) && final(self)@ == #[trigger] old(self)@.purge(key@, now),
            match out {
                Ok(l) => hgetall_of(final(self)@.map, key@) == Ok::<
                    Seq<(Seq<char>, Seq<u8>)>,
                    WrongType,
                >(pairs_view(l@)),
                Err(e) => hgetall_of(final(self)@.map, key@) == Err::<
                    Seq<(Seq<char>, Seq<u8>)>,
                    WrongType,
                >(e),
            },
    {
        let now: u64 = now_ms();
        self.hgetall_at(key, now)
    }
}

} // verus!
