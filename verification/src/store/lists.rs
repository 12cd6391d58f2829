//! Lists of blobs.

use vstd::prelude::*;
use crate::clock::{clock_reads, now_ms};
use crate::errors::{ListError, WrongType};
use crate::model::{llen_of, lrange_of, pop_op, push_op};
use crate::mutate::{apply_pop, apply_push};
use crate::ranges::{range_bounds, range_of, views};
use crate::record::{rec_key_only, rec_push, OP_POP_BACK, OP_POP_FRONT, OP_PUSH_BACK, OP_PUSH_FRONT};
use crate::sorted_map::Item;
use crate::store::{blob_view, list_view, Store};
use crate::value::Value;

verus! {

impl Store {
    fn push(&mut self, key: &str, value: Vec<u8>, front: bool, now: u64) -> (out: Result<
        u32,
        ListError,
    >)
        ensures
            (final(self)@, out) == push_op(old(self)@, key@, value@, front, now),
    {
        match self.ensure_open() {
            Ok(()) => {},
            Err(e) => return Err(ListError::Io(e)),
        }
        self.purge(key, now);
        self.record_undo(key);
        let rec = rec_push(
            if front {
                OP_PUSH_FRONT
            } else {
                OP_PUSH_BACK
            },
            key,
            value.as_slice(),
        );
        match apply_push(&mut self.map, key, value, front) {
            Ok(len) => {
                self.journal(rec);
                Ok(len)
            },
            Err(_) => Err(ListError::WrongType),
        }
    }

    /// Put an element at the front of a list at the time `now`: the new length.
    pub fn push_front_at(&mut self, key: &str, value: Vec<u8>, now: u64) -> (out: Result<
        u32,
        ListError,
    >)
        ensures
            (final(self)@, out) == push_op(old(self)@, key@, value@, true, now),
    {
        self.push(key, value, true, now)
    }

    /// Put an element at the front of a list, which is created if missing: the new
    /// length.
    pub fn push_front(&mut self, key: &str, value: Vec<u8>) -> (out: Result<u32, ListError>)
        ensures
            exists|now: u64|
                clock_reads(now) && (final(self)@, out) == #[trigger]
                    push_op(old(self)@, key@, value@, true, now),
    {
        let now: u64 = now_ms();
        self.push(key, value, true, now)
    }

    /// Put an element at the back of a list at the time `now`: the new length.
    pub fn push_back_at(&mut self, key: &str, value: Vec<u8>, now: u64) -> (out: Result<
        u32,
        ListError,
    >)
        ensures
            (final(self)@, out) == push_op(old(self)@, key@, value@, false, now),
    {
        self.push(key, value, false, now)
    }

    /// Put an element at the back of a list, which is created if missing: the new length.
    pub fn push_back(&mut self, key: &str, value: Vec<u8>) -> (out: Result<u32, ListError>)
        ensures
            exists|now: u64|
                clock_reads(now) && (final(self)@, out) == #[trigger]
                    push_op(old(self)@, key@, value@, false, now),
    {
        let now: u64 = now_ms();
        self.push(key, value, false, now)
    }

    fn pop(&mut self, key: &str, front: bool, now: u64) -> (out: Result<
        Option<Vec<u8>>,
        ListError,
    >)
        ensures
            (final(self)@, blob_view(out)) == pop_op(old(self)@, key@, front, now),
    {
        match self.ensure_open() {
            Ok(()) => {},
            Err(e) => return Err(ListError::Io(e)),
        }
        self.purge(key, now);
        self.record_undo(key);
        match apply_pop(&mut self.map, key, front) {
            Ok(Some(item)) => {
                self.journal(
                    rec_key_only(
                        if front {
                            OP_POP_FRONT
                        } else {
                            OP_POP_BACK
                        },
                        key,
                    ),
                );
                Ok(Some(item))
            },
            Ok(None) => Ok(None),
            Err(_) => Err(ListError::WrongType),
        }
    }

    /// Take the first element of a list at the time `now`.
    pub fn pop_front_at(&mut self, key: &str, now: u64) -> (out: Result<
        Option<Vec<u8>>,
        ListError,
    >)
        ensures
            (final(self)@, blob_view(out)) == pop_op(old(self)@, key@, true, now),
    {
        self.pop(key, true, now)
    }

    /// Take the first element of a list; none if the key is missing.
    pub fn pop_front(&mut self, key: &str) -> (out: Result<Option<Vec<u8>>, ListError>)
        ensures
            exists|now: u64|
                clock_reads(now) && (final(self)@, blob_view(out)) == #[trigger]
                    pop_op(old(self)@, key@, true, now),
    {
        let now: u64 = now_ms();
        self.pop(key, true, now)
    }

    /// Take the last element of a list at the time `now`.
    pub fn pop_back_at(&mut self, key: &str, now: u64) -> (out: Result<
        Option<Vec<u8>>,
        ListError,
    >)
        ensures
            (final(self)@, blob_view(out)) == pop_op(old(self)@, key@, false, now),
    {
        self.pop(key, false, now)
    }

    /// Take the last element of a list; none if the key is missing.
    pub fn pop_back(&mut self, key: &str) -> (out: Result<Option<Vec<u8>>, ListError>)
        ensures
            exists|now: u64|
                clock_reads(now) && (final(self)@, blob_view(out)) == #[trigger]
                    pop_op(old(self)@, key@, false, now),
    {
        let now: u64 = now_ms();
        self.pop(key, false, now)
    }

    /// How long a list is at the time `now`.
    pub fn llen_at(&mut self, key: &str, now: u64) -> (out: Result<u32, WrongType>)
        ensures
            final(self)@ == old(self)@.purge(key@, now),
            out == llen_of(final(self)@.map, key@),
    {
        self.purge(key, now);
        match self.map.get(key) {
            Some(e) => match &e.value {
                Value::List(l) => Ok(l.len() as u32),
                _ => Err(WrongType),
            },
            None => Ok(0),
        }
    }

    /// How long a list is: 0 if the key is missing.
    pub fn llen(&mut self, key: &str) -> (out: Result<u32, WrongType>)
        ensures
            exists|now: u64|
                clock_reads(now) && final(self)@ == #[trigger] old(self)@.purge(key@, now),
            out == llen_of(final(self)@.map, key@),
    {
        let now: u64 = now_ms();
        self.llen_at(key, now)
    }

    /// The elements of a list from index `start` to index `stop` at the time `now`.
    pub fn lrange_at(&mut self, key: &str, start: i64, stop: i64, now: u64) -> (out: Result<
        Vec<Vec<u8>>,
        WrongType,
    >)
        ensures
            final(self)@ == old(self)@.purge(key@, now),
            list_view(out) == lrange_of(final(self)@.map, key@, start, stop),
    {
        self.purge(key, now);
        match self.map.get(key) {
            Some(e) => match &e.value {
                Value::List(l) => {
                    let (from, to) = range_bounds(l.len(), start, stop);
                    let mut out: Vec<Vec<u8>> = Vec::new();
                    let mut i: usize = from;
                    while i < to
                        invariant
                            from <= i <= to <= l@.len(),
                            views(out@) == views(l@).subrange(from as int, i as int),
                        decreases to - i,
                    {
                        let item = l[i].dup();
                        let ghost was = out@;
                        out.push(item);
                        proof {
                            assert(views(out@) =~= views(was).push(item@));
                            assert(views(l@).subrange(from as int, i + 1) =~= views(l@).subrange(
                                from as int,
                                i as int,
                            ).push(item@));
                        }
                        i += 1;
                    }
                    proof {
                        assert(views(l@).subrange(from as int, to as int) =~= range_of(
                            views(l@),
                            start as int,
                            stop as int,
                        ));
                    }
                    Ok(out)
                },
                _ => Err(WrongType),
            },
            None => {
                let out: Vec<Vec<u8>> = Vec::new();
                proof {
                    assert(views(out@) =~= range_of(
                        Seq::<Seq<u8>>::empty(),
                        start as int,
                        stop as int,
                    ));
                }
                Ok(out)
            },
        }
    }

    /// The elements of a list from index `start` to index `stop`, both included. A
    /// negative index counts from the end, and one out of range is clamped.
    pub fn lrange(&mut self, key: &str, start: i64, stop: i64) -> (out: Result<
        Vec<Vec<u8>>,
        WrongType,
    >)
        ensures
            exists|now: u64|
                clock_reads(now) && final(self)@ == #[trigger] old(self)@.purge(key@, now),
            list_view(out) == lrange_of(final(self)@.map, key@, start, stop),
    {
        let now: u64 = now_ms();
        self.lrange_at(key, start, stop, now)
    }
}

} // verus!
