//! Sorted sets: members ranked by a score.

use vstd::prelude::*;
use crate::clock::{clock_reads, now_ms};
use crate::errors::{ListError, WrongType, ZAddError};
use crate::model::{
    zadd_op, zcard_of, zincr_base_of, zincrby_op, zrange_of, zrange_scored_of, zrank_of, zrem_op,
    zscore_of,
};
use crate::mutate::{apply_zadd, apply_zrem};
use crate::ranges::{range_of, views};
use crate::record::{rec_zadd, rec_zrem};
use crate::score::OrderedF64;
use crate::sorted_map::Item;
use crate::store::{list_view, Store};
use crate::value::{Entry, Value};
use crate::zset::{members, ranking, ranking_exists, ranking_len, Scored, ZSet};

verus! {

/// The score that was read, by its bits.
pub open spec fn score_view(out: Result<Option<OrderedF64>, WrongType>) -> Result<
    Option<u64>,
    WrongType,
> {
    match out {
        Ok(Some(s)) => Ok(Some(s@)),
        Ok(None) => Ok(None),
        Err(e) => Err(e),
    }
}

/// The members that were read with their scores, by their views.
pub open spec fn scored_view(out: Result<Vec<Scored>, WrongType>) -> Result<
    Seq<(Seq<u8>, u64)>,
    WrongType,
> {
    match out {
        Ok(l) => Ok(views(l@)),
        Err(e) => Err(e),
    }
}

/// No members have an empty ranking.
proof fn no_ranking()
    ensures
        ranking(Map::empty()) == Seq::<(Seq<u8>, u64)>::empty(),
{
    let m = Map::<Seq<u8>, u64>::empty();
    assert(m.dom() =~= Set::<Seq<u8>>::empty());
    ranking_exists(m);
    ranking_len(ranking(m), m);
    assert(ranking(m) =~= Seq::empty());
}

impl Store {
    /// Give a member of a sorted set a score at the time `now`: whether the member is new.
    pub fn zadd_at(&mut self, key: &str, score: OrderedF64, member: Vec<u8>, now: u64) -> (out:
        Result<bool, ZAddError>)
        ensures
            (final(self)@, out) == zadd_op(old(self)@, key@, score@, member@, now),
    {
        match self.ensure_open() {
            Ok(()) => {},
            Err(e) => return Err(ZAddError::Io(e)),
        }
        self.purge(key, now);
        self.record_undo(key);
        let rec = rec_zadd(key, score, member.as_slice());
        match apply_zadd(&mut self.map, key, score, member) {
            Ok(new) => {
                self.journal(rec);
                Ok(new)
            },
            Err(e) => Err(e),
        }
    }

    /// Give a member of a sorted set, which is created if missing, a score: whether the
    /// member is new. A score that is no number is refused.
    pub fn zadd(&mut self, key: &str, score: OrderedF64, member: Vec<u8>) -> (out: Result<
        bool,
        ZAddError,
    >)
        ensures
            exists|now: u64|
                clock_reads(now) && (final(self)@, out) == #[trigger] zadd_op(
                    old(self)@,
                    key@,
                    score@,
                    member@,
                    now,
                ),
    {
        let now: u64 = now_ms();
        self.zadd_at(key, score, member, now)
    }

    /// The score that an increment of a member starts from at the time `now`.
    pub fn zincr_base_at(&mut self, key: &str, member: &[u8], now: u64) -> (out: Result<
        Option<OrderedF64>,
        WrongType,
    >)
        ensures
            final(self)@ == old(self)@.purge(key@, now),
            score_view(out) == zincr_base_of(final(self)@.map, key@, member@),
    {
        self.purge(key, now);
        match self.map.get(key) {
            Some(e) => match &e.value {
                Value::ZSet(z) => Ok(Some(z.incr_base(member))),
                _ => Err(WrongType),
            },
            None => Ok(None),
        }
    }

    /// The score that an increment of a member starts from: 0 for a new member, none for
    /// a missing key.
    pub fn zincr_base(&mut self, key: &str, member: &[u8]) -> (out: Result<
        Option<OrderedF64>,
        WrongType,
    >)
        ensures
            exists|now: u64|
                clock_reads(now) && final(self)@ == #[trigger] old(self)@.purge(key@, now),
            score_view(out) == zincr_base_of(final(self)@.map, key@, member@),
    {
        let now: u64 = now_ms();
        self.zincr_base_at(key, member, now)
    }

    /// Increment the score of a member at the time `now`: the new score.
    pub fn zincrby_at(
        &mut self,
        key: &str,
        delta: OrderedF64,
        sum: OrderedF64,
        member: Vec<u8>,
        now: u64,
    ) -> (out: Result<OrderedF64, ZAddError>)
        ensures
            ({
                let (v, want) = zincrby_op(old(self)@, key@, delta@, sum@, member@, now);
                &&& final(self)@ == v
                &&& match out {
                    Ok(s) => want == Ok::<u64, ZAddError>(s@),
                    Err(e) => want == Err::<u64, ZAddError>(e),
                }
            }),
    {
        match self.ensure_open() {
            Ok(()) => {},
            Err(e) => return Err(ZAddError::Io(e)),
        }
        self.purge(key, now);
        self.record_undo(key);
        let copy = member.dup();
        let score = match self.map.get_mut(key) {
            Some(e) => match &mut e.value {
                Value::ZSet(z) => match z.incr_by(copy, sum) {
                    Ok(next) => next,
                    Err(_) => return Err(ZAddError::BadScore),
                },
                _ => return Err(ZAddError::WrongType),
            },
            None => {
                if !delta.is_finite() {
                    return Err(ZAddError::BadScore);
                }
                let mut z = ZSet::new();
                match z.add(copy, delta) {
                    Ok(_) => {},
                    Err(_) => return Err(ZAddError::BadScore),
                }
                self.map.insert(key.to_owned(), Entry { value: Value::ZSet(z), expire_at: None });
                delta
            },
        };
        self.journal(rec_zadd(key, score, member.as_slice()));
        Ok(score)
    }

    /// Increment the score of a member by `delta`: the new score. `sum` is the sum of
    /// `delta` and the score that `zincr_base` gives; a missing key begins with `delta`.
    /// A score that is not finite is refused.
    pub fn zincrby(
        &mut self,
        key: &str,
        delta: OrderedF64,
        sum: OrderedF64,
        member: Vec<u8>,
    ) -> (out: Result<OrderedF64, ZAddError>)
        ensures
            exists|now: u64|
                clock_reads(now) && ({
                    let (v, want) = #[trigger] zincrby_op(
                        old(self)@,
                        key@,
                        delta@,
                        sum@,
                        member@,
                        now,
                    );
                    &&& final(self)@ == v
                    &&& match out {
                        Ok(s) => want == Ok::<u64, ZAddError>(s@),
                        Err(e) => want == Err::<u64, ZAddError>(e),
                    }
                }),
    {
        let now: u64 = now_ms();
        self.zincrby_at(key, delta, sum, member, now)
    }

    /// Take a member out of a sorted set at the time `now`: whether it was there.
    pub fn zrem_at(&mut self, key: &str, member: &[u8], now: u64) -> (out: Result<bool, ListError>)
        ensures
            (final(self)@, out) == zrem_op(old(self)@, key@, member@, now),
    {
        match self.ensure_open() {
            Ok(()) => {},
            Err(e) => return Err(ListError::Io(e)),
        }
        self.purge(key, now);
        self.record_undo(key);
        match apply_zrem(&mut self.map, key, member) {
            Ok(removed) => {
                if removed {
                    self.journal(rec_zrem(key, member));
                }
                Ok(removed)
            },
            Err(_) => Err(ListError::WrongType),
        }
    }

    /// Take a member out of a sorted set: whether it was there. A sorted set that has
    /// become empty goes with its key.
    pub fn zrem(&mut self, key: &str, member: &[u8]) -> (out: Result<bool, ListError>)
        ensures
            exists|now: u64|
                clock_reads(now) && (final(self)@, out) == #[trigger]
                    zrem_op(old(self)@, key@, member@, now),
    {
        let now: u64 = now_ms();
        self.zrem_at(key, member, now)
    }

    /// The score of a member at the time `now`.
    pub fn zscore_at(&mut self, key: &str, member: &[u8], now: u64) -> (out: Result<
        Option<OrderedF64>,
        WrongType,
    >)
        ensures
            final(self)@ == old(self)@.purge(key@, now),
            score_view(out) == zscore_of(final(self)@.map, key@, member@),
    {
        self.purge(key, now);
        match self.map.get(key) {
            Some(e) => match &e.value {
                Value::ZSet(z) => Ok(z.score(member)),
                _ => Err(WrongType),
            },
            None => Ok(None),
        }
    }

    /// The score of a member; none if the key or the member is missing.
    pub fn zscore(&mut self, key: &str, member: &[u8]) -> (out: Result<
        Option<OrderedF64>,
        WrongType,
    >)
        ensures
            exists|now: u64|
                clock_reads(now) && final(self)@ == #[trigger] old(self)@.purge(key@, now),
            score_view(out) == zscore_of(final(self)@.map, key@, member@),
    {
        let now: u64 = now_ms();
        self.zscore_at(key, member, now)
    }

    /// The rank of a member at the time `now`.
    pub fn zrank_at(&mut self, key: &str, member: &[u8], now: u64) -> (out: Result<
        Option<u32>,
        WrongType,
    >)
        ensures
            final(self)@ == old(self)@.purge(key@, now),
            out == zrank_of(final(self)@.map, key@, member@),
    {
        self.purge(key, now);
        match self.map.get(key) {
            Some(e) => match &e.value {
                Value::ZSet(z) => Ok(z.rank(member)),
                _ => Err(WrongType),
            },
            None => Ok(None),
        }
    }

    /// The rank of a member, counted from 0, the lowest score first; none if the key or
    /// the member is missing.
    pub fn zrank(&mut self, key: &str, member: &[u8]) -> (out: Result<Option<u32>, WrongType>)
        ensures
            exists|now: u64|
                clock_reads(now) && final(self)@ == #[trigger] old(self)@.purge(key@, now),
            out == zrank_of(final(self)@.map, key@, member@),
    {
        let now: u64 = now_ms();
        self.zrank_at(key, member, now)
    }

    /// How many members a sorted set has at the time `now`.
    pub fn zcard_at(&mut self, key: &str, now: u64) -> (out: Result<u32, WrongType>)
        ensures
            final(self)@ == old(self)@.purge(key@, now),
            out == zcard_of(final(self)@.map, key@),
    {
        self.purge(key, now);
        match self.map.get(key) {
            Some(e) => match &e.value {
                Value::ZSet(z) => Ok(z.len() as u32),
                _ => Err(WrongType),
            },
            None => {
                proof {
                    assert(Map::<Seq<u8>, u64>::empty().dom() =~= Set::<Seq<u8>>::empty());
                }
                Ok(0)
            },
        }
    }

    /// How many members a sorted set has: 0 if the key is missing.
    pub fn zcard(&mut self, key: &str) -> (out: Result<u32, WrongType>)
        ensures
            exists|now: u64|
                clock_reads(now) && final(self)@ == #[trigger] old(self)@.purge(key@, now),
            out == zcard_of(final(self)@.map, key@),
    {
        let now: u64 = now_ms();
        self.zcard_at(key, now)
    }

    /// The members of a sorted set from rank `start` to rank `stop` at the time `now`.
    pub fn zrange_at(&mut self, key: &str, start: i64, stop: i64, now: u64) -> (out: Result<
        Vec<Vec<u8>>,
        WrongType,
    >)
        ensures
            final(self)@ == old(self)@.purge(key@, now),
            list_view(out) == zrange_of(final(self)@.map, key@, start, stop),
    {
        self.purge(key, now);
        match self.map.get(key) {
            Some(e) => match &e.value {
                Value::ZSet(z) => Ok(z.range(start, stop)),
                _ => Err(WrongType),
            },
            None => {
                let out: Vec<Vec<u8>> = Vec::new();
                proof {
                    no_ranking();
                    assert(views(out@) =~= members(
                        range_of(Seq::<(Seq<u8>, u64)>::empty(), start as int, stop as int),
                    ));
                }
                Ok(out)
            },
        }
    }

    /// The members of a sorted set from rank `start` to rank `stop`, both included, the
    /// lowest score first. A negative rank counts from the end, and one out of range is
    /// clamped.
    pub fn zrange(&mut self, key: &str, start: i64, stop: i64) -> (out: Result<
        Vec<Vec<u8>>,
        WrongType,
    >)
        ensures
            exists|now: u64|
                clock_reads(now) && final(self)@ == #[trigger] old(self)@.purge(key@, now),
            list_view(out) == zrange_of(final(self)@.map, key@, start, stop),
    {
        let now: u64 = now_ms();
        self.zrange_at(key, start, stop, now)
    }

    /// The members of a sorted set from rank `start` to rank `stop`, with their scores, at
    /// the time `now`.
    pub fn zrange_scored_at(&mut self, key: &str, start: i64, stop: i64, now: u64) -> (out: Result<
        Vec<Scored>,
        WrongType,
    >)
        ensures
            final(self)@ == old(self)@.purge(key@, now),
            scored_view(out) == zrange_scored_of(final(self)@.map, key@, start, stop),
    {
        self.purge(key, now);
        match self.map.get(key) {
            Some(e) => match &e.value {
                Value::ZSet(z) => Ok(z.range_scored(start, stop)),
                _ => Err(WrongType),
            },
            None => {
                let out: Vec<Scored> = Vec::new();
                proof {
                    no_ranking();
                    assert(views(out@) =~= range_of(
                        Seq::<(Seq<u8>, u64)>::empty(),
                        start as int,
                        stop as int,
                    ));
                }
                Ok(out)
            },
        }
    }

    /// The members of a sorted set from rank `start` to rank `stop`, both included, with
    /// their scores.
    pub fn zrange_scored(&mut self, key: &str, start: i64, stop: i64) -> (out: Result<
        Vec<Scored>,
        WrongType,
    >)
        ensures
            exists|now: u64|
                clock_reads(now) && final(self)@ == #[trigger] old(self)@.purge(key@, now),
            scored_view(out) == zrange_scored_of(final(self)@.map, key@, start, stop),
    {
        let now: u64 = now_ms();
        self.zrange_scored_at(key, start, stop, now)
    }
}

} // verus!
