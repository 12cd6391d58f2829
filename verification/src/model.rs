//! The model of a store, and what each operation does to it.

use vstd::prelude::*;
use crate::errors::{IoError, ListError, TxError, WrongType, ZAddError};
use crate::expiry::{
    dead_keys, dead_keys_are, expiry_in, expiry_of_ttl, first_parts, live, purged,
};
use crate::log::{frame, frames, records_from, Aof, LogBase, LogWriteView};
use crate::mutate::{
    hash_at, hdel_step, hset_step, list_at, pop_step, push_step, sadd_step, set_at, srem_step,
    with_bytes, with_expiry, with_value, zadd_step, zrem_step, zset_at,
};
use crate::ranges::range_of;
use crate::record::{record, Op};
use crate::replay::replayed;
use crate::score::is_finite;
use crate::snapshot::listed_members;
use crate::sorted_map::{is_ordered, ordered};
use crate::value::{expired, EntryView, State, ValueView};
use crate::zset::{incr_base_of, members, rank_of, ranking};

verus! {

/// The model of an open transaction: the records that wait for the commit, and what
/// each touched key held before the transaction.
#[verifier::ext_equal]
pub struct TxView {
    pub staged: Seq<Seq<u8>>,
    pub undo: Map<Seq<char>, Option<EntryView>>,
}

/// The model of a store.
#[verifier::ext_equal]
pub struct StoreView {
    /// What the keys hold.
    pub map: State,
    /// The attached log.
    pub log: Option<Aof>,
    /// What is owed to the log file.
    pub owed: LogWriteView,
    /// Whether the store has been closed.
    pub closed: bool,
    /// Whether it had a log when it was closed.
    pub had_log: bool,
    /// The open transaction.
    pub tx: Option<TxView>,
}

/// What a key holds, if anything.
pub open spec fn lookup(m: State, key: Seq<char>) -> Option<EntryView> {
    if m.contains_key(key) {
        Some(m[key])
    } else {
        None
    }
}

/// What touched keys are restored to: what each held before, or nothing.
pub open spec fn restored(m: State, undo: Map<Seq<char>, Option<EntryView>>) -> State {
    Map::new(
        |k: Seq<char>|
            if undo.contains_key(k) {
                undo[k] is Some
            } else {
                m.contains_key(k)
            },
        |k: Seq<char>|
            if undo.contains_key(k) {
                undo[k].unwrap()
            } else {
                m[k]
            },
    )
}

impl StoreView {
    /// An empty store without a log.
    pub open spec fn empty() -> StoreView {
        StoreView {
            map: Map::empty(),
            log: None,
            owed: LogWriteView::none(),
            closed: false,
            had_log: false,
            tx: None,
        }
    }

    /// The store with another state.
    pub open spec fn with_map(self, map: State) -> StoreView {
        StoreView { map, ..self }
    }

    /// The store with another transaction.
    pub open spec fn with_tx(self, tx: Option<TxView>) -> StoreView {
        StoreView { tx, ..self }
    }

    /// A record is journalled: it waits for the commit of an open transaction, else it
    /// is owed to the log at once, if there is one. A closed store journals nothing.
    pub open spec fn journal_record(self, payload: Seq<u8>) -> StoreView {
        if self.closed {
            self
        } else {
            match self.tx {
                Some(t) => self.with_tx(
                    Some(TxView { staged: t.staged.push(payload), undo: t.undo }),
                ),
                None => match self.log {
                    Some(a) => StoreView {
                        log: Some(a.grown(frame(payload).len())),
                        owed: self.owed.and(frame(payload), a.fsync),
                        ..self
                    },
                    None => self,
                },
            }
        }
    }

    /// A mutation is journalled.
    pub open spec fn journal(self, op: Op) -> StoreView {
        self.journal_record(record(op))
    }

    /// A key is about to be touched: an open transaction notes what it holds, the first
    /// time.
    pub open spec fn note(self, key: Seq<char>) -> StoreView {
        match self.tx {
            Some(t) => if t.undo.contains_key(key) {
                self
            } else {
                self.with_tx(
                    Some(
                        TxView {
                            staged: t.staged,
                            undo: t.undo.insert(key, lookup(self.map, key)),
                        },
                    ),
                )
            },
            None => self,
        }
    }

    /// All keys are about to be touched.
    pub open spec fn note_all(self) -> StoreView {
        match self.tx {
            Some(t) => self.with_tx(
                Some(
                    TxView {
                        staged: t.staged,
                        undo: Map::new(
                            |k: Seq<char>| t.undo.contains_key(k) || self.map.contains_key(k),
                            |k: Seq<char>|
                                if t.undo.contains_key(k) {
                                    t.undo[k]
                                } else {
                                    lookup(self.map, k)
                                },
                        ),
                    },
                ),
            ),
            None => self,
        }
    }

    /// A key that has expired is taken out, as if it were deleted: an open transaction
    /// notes what it held, and that it is gone is journalled.
    pub open spec fn purge(self, key: Seq<char>, now: u64) -> StoreView {
        if self.map.contains_key(key) && expired(self.map[key], now) {
            let w = self.note(key);
            w.with_map(w.map.remove(key)).journal(Op::Del { key })
        } else {
            self
        }
    }
}

/// What the keys come back to if the open transaction is rolled back; what they hold if
/// none is open.
pub open spec fn rolled_back(v: StoreView) -> State {
    match v.tx {
        Some(t) => restored(v.map, t.undo),
        None => v.map,
    }
}

/// Those of the listed keys are taken out that have expired, the last one first.
pub open spec fn purge_each(v: StoreView, keys: Seq<Seq<char>>, now: u64) -> StoreView
    decreases keys.len(),
{
    if keys.len() == 0 {
        v
    } else {
        purge_each(v.purge(keys.last(), now), keys.drop_last(), now)
    }
}

/// Taking out every key that has expired.
pub open spec fn sweep_op(v: StoreView, now: u64) -> StoreView {
    purge_each(v, dead_keys(ordered::<String, EntryView>(v.map), now), now)
}

/// Taking a key out leaves the rest of the state as it was.
pub proof fn purge_map(v: StoreView, key: Seq<char>, now: u64)
    ensures
        v.purge(key, now).map == purged(v.map, key, now),
        v.purge(key, now).closed == v.closed,
        v.purge(key, now).tx is Some == v.tx is Some,
{
}

/// Taking keys out leaves the rest of the state as it was.
pub proof fn purge_each_map(v: StoreView, keys: Seq<Seq<char>>, now: u64)
    ensures
        ({
            let n = purge_each(v, keys, now).map;
            &&& forall|k: Seq<char>| #[trigger]
                n.contains_key(k) <==> v.map.contains_key(k) && !(expired(v.map[k], now)
                    && keys.contains(k))
            &&& forall|k: Seq<char>| #[trigger] n.contains_key(k) ==> n[k] == v.map[k]
        }),
        purge_each(v, keys, now).closed == v.closed,
        purge_each(v, keys, now).tx is Some == v.tx is Some,
    decreases keys.len(),
{
    if keys.len() > 0 {
        let key = keys.last();
        let init = keys.drop_last();
        let w = v.purge(key, now);
        purge_map(v, key, now);
        purge_each_map(w, init, now);
        let n = purge_each(v, keys, now).map;
        assert forall|k: Seq<char>| #[trigger] n.contains_key(k) <==> v.map.contains_key(k) && !(
        expired(v.map[k], now) && keys.contains(k)) by {
            if init.contains(k) {
                let i = choose|i: int| 0 <= i < init.len() && init[i] == k;
                assert(keys[i] == k);
            }
            if keys.contains(k) && k != key {
                let i = choose|i: int| 0 <= i < keys.len() && keys[i] == k;
                assert(init[i] == k);
            }
            assert(keys[keys.len() - 1] == key);
        }
    }
}

/// Sweeping leaves what has not expired.
pub proof fn sweep_map_is_live(v: StoreView, now: u64)
    requires
        is_ordered::<String, EntryView>(ordered::<String, EntryView>(v.map), v.map),
    ensures
        sweep_op(v, now).map == live(v.map, now),
{
    let l = ordered::<String, EntryView>(v.map);
    let keys = dead_keys(l, now);
    purge_each_map(v, keys, now);
    dead_keys_are(l, now);
    let n = sweep_op(v, now).map;
    assert forall|k: Seq<char>| n.contains_key(k) == live(v.map, now).contains_key(k) by {
        if v.map.contains_key(k) && expired(v.map[k], now) {
            let i = choose|i: int| 0 <= i < l.len() && #[trigger] l[i].0 == k;
            assert(l[i].1 == v.map[k]);
            assert(keys.contains(k));
        }
    }
    assert(n =~= live(v.map, now));
}

/// Opening a store on the contents of a log file.
pub open spec fn open_op(data: Seq<u8>, fsync: bool) -> StoreView {
    let (records, damaged) = records_from(data, 0);
    let size = match damaged {
        Some(at) => at,
        None => data.len() as int,
    };
    StoreView {
        map: replayed(Map::empty(), records),
        log: Some(Aof { fsync, size: size as u64 }),
        owed: match damaged {
            Some(at) => LogWriteView {
                base: LogBase::Prefix(at as u64),
                bytes: Seq::empty(),
                sync: true,
            },
            None => LogWriteView::none(),
        },
        closed: false,
        had_log: false,
        tx: None,
    }
}

/// Closing.
pub open spec fn close_op(v: StoreView) -> StoreView {
    StoreView { log: None, closed: true, had_log: v.had_log || v.log is Some, ..v }
}

/// Giving a key plain bytes.
pub open spec fn set_op(
    v: StoreView,
    key: Seq<char>,
    value: Seq<u8>,
    ttl_ms: Option<i64>,
    now: u64,
) -> (StoreView, Result<(), IoError>) {
    if v.closed {
        (v, Err(IoError::StoreClosed))
    } else {
        let expire_at = expiry_of_ttl(ttl_ms, now);
        let w = v.note(key);
        (
            w.with_map(with_bytes(w.map, key, value, expire_at)).journal(
                Op::Put { key, value, expire_at },
            ),
            Ok(()),
        )
    }
}

/// The plain bytes at a key.
pub open spec fn bytes_at(m: State, key: Seq<char>) -> Result<Option<Seq<u8>>, WrongType> {
    if m.contains_key(key) {
        match m[key].value {
            ValueView::Bytes(b) => Ok(Some(b)),
            _ => Err(WrongType),
        }
    } else {
        Ok(None)
    }
}

/// Taking a key out.
pub open spec fn del_op(v: StoreView, key: Seq<char>) -> (StoreView, Result<bool, IoError>) {
    if v.closed {
        (v, Err(IoError::StoreClosed))
    } else if v.map.contains_key(key) {
        let w = v.note(key);
        (w.with_map(w.map.remove(key)).journal(Op::Del { key }), Ok(true))
    } else {
        (v.note(key), Ok(false))
    }
}

/// Setting when a key expires.
pub open spec fn expire_op(v: StoreView, key: Seq<char>, ttl_ms: i64, now: u64) -> (
    StoreView,
    Result<bool, IoError>,
) {
    if v.closed {
        (v, Err(IoError::StoreClosed))
    } else if v.map.contains_key(key) {
        let at = expiry_in(ttl_ms, now);
        let w = v.note(key);
        (w.with_map(with_expiry(w.map, key, Some(at))).journal(Op::Expire { key, at }), Ok(true))
    } else {
        (v.note(key), Ok(false))
    }
}

/// Letting a key never expire.
pub open spec fn persist_op(v: StoreView, key: Seq<char>) -> (StoreView, Result<bool, IoError>) {
    if v.closed {
        (v, Err(IoError::StoreClosed))
    } else if v.map.contains_key(key) {
        let w = v.note(key);
        (w.with_map(with_expiry(w.map, key, None)).journal(Op::Persist { key }), Ok(true))
    } else {
        (v.note(key), Ok(false))
    }
}

/// Taking every key out.
pub open spec fn clear_op(v: StoreView) -> (StoreView, Result<(), IoError>) {
    if v.closed {
        (v, Err(IoError::StoreClosed))
    } else {
        (v.note_all().with_map(Map::empty()).journal(Op::Clear), Ok(()))
    }
}

/// Putting an element at an end of a list.
pub open spec fn push_op(
    v: StoreView,
    key: Seq<char>,
    value: Seq<u8>,
    front: bool,
    now: u64,
) -> (StoreView, Result<u32, ListError>) {
    if v.closed {
        (v, Err(ListError::Io(IoError::StoreClosed)))
    } else {
        let w = v.purge(key, now).note(key);
        let (map, out) = push_step(w.map, key, value, front);
        match out {
            Ok(n) => (w.with_map(map).journal(Op::Push { key, value, front }), Ok(n)),
            Err(_) => (w, Err(ListError::WrongType)),
        }
    }
}

/// Taking an element from an end of a list.
pub open spec fn pop_op(v: StoreView, key: Seq<char>, front: bool, now: u64) -> (
    StoreView,
    Result<Option<Seq<u8>>, ListError>,
) {
    if v.closed {
        (v, Err(ListError::Io(IoError::StoreClosed)))
    } else {
        let w = v.purge(key, now).note(key);
        let (map, out) = pop_step(w.map, key, front);
        match out {
            Ok(Some(item)) => (w.with_map(map).journal(Op::Pop { key, front }), Ok(Some(item))),
            Ok(None) => (w.with_map(map), Ok(None)),
            Err(_) => (w, Err(ListError::WrongType)),
        }
    }
}

/// How long the list at a key is.
pub open spec fn llen_of(m: State, key: Seq<char>) -> Result<u32, WrongType> {
    match list_at(m, key) {
        Some(l) => Ok(l.len() as u32),
        None => Err(WrongType),
    }
}

/// The elements of the list at a key from index `start` to index `stop`.
pub open spec fn lrange_of(m: State, key: Seq<char>, start: i64, stop: i64) -> Result<
    Seq<Seq<u8>>,
    WrongType,
> {
    match list_at(m, key) {
        Some(l) => Ok(range_of(l, start as int, stop as int)),
        None => Err(WrongType),
    }
}

/// Giving a field of a hash a value.
pub open spec fn hset_op(
    v: StoreView,
    key: Seq<char>,
    field: Seq<char>,
    value: Seq<u8>,
    now: u64,
) -> (StoreView, Result<bool, ListError>) {
    if v.closed {
        (v, Err(ListError::Io(IoError::StoreClosed)))
    } else {
        let w = v.purge(key, now).note(key);
        let (map, out) = hset_step(w.map, key, field, value);
        match out {
            Ok(new) => (w.with_map(map).journal(Op::HSet { key, field, value }), Ok(new)),
            Err(_) => (w, Err(ListError::WrongType)),
        }
    }
}

/// Taking a field out of a hash.
pub open spec fn hdel_op(v: StoreView, key: Seq<char>, field: Seq<char>, now: u64) -> (
    StoreView,
    Result<bool, ListError>,
) {
    if v.closed {
        (v, Err(ListError::Io(IoError::StoreClosed)))
    } else {
        let w = v.purge(key, now).note(key);
        let (map, out) = hdel_step(w.map, key, field);
        match out {
            Ok(true) => (w.with_map(map).journal(Op::HDel { key, field }), Ok(true)),
            Ok(false) => (w.with_map(map), Ok(false)),
            Err(_) => (w, Err(ListError::WrongType)),
        }
    }
}

/// The value of a field of the hash at a key.
pub open spec fn hget_of(m: State, key: Seq<char>, field: Seq<char>) -> Result<
    Option<Seq<u8>>,
    WrongType,
> {
    match hash_at(m, key) {
        Some(h) => Ok(
            if h.contains_key(field) {
                Some(h[field])
            } else {
                None
            },
        ),
        None => Err(WrongType),
    }
}

/// Whether the hash at a key has a field.
pub open spec fn hexists_of(m: State, key: Seq<char>, field: Seq<char>) -> Result<bool, WrongType> {
    match hash_at(m, key) {
        Some(h) => Ok(h.contains_key(field)),
        None => Err(WrongType),
    }
}

/// How many fields the hash at a key has.
pub open spec fn hlen_of(m: State, key: Seq<char>) -> Result<u32, WrongType> {
    match hash_at(m, key) {
        Some(h) => Ok(h.dom().len() as u32),
        None => Err(WrongType),
    }
}

/// The fields of the hash at a key with their values, in the order of the fields.
pub open spec fn hgetall_of(m: State, key: Seq<char>) -> Result<
    Seq<(Seq<char>, Seq<u8>)>,
    WrongType,
> {
    match hash_at(m, key) {
        Some(h) => Ok(ordered::<String, Seq<u8>>(h)),
        None => Err(WrongType),
    }
}

/// The fields of the hash at a key, in order.
pub open spec fn hkeys_of(m: State, key: Seq<char>) -> Result<Seq<Seq<char>>, WrongType> {
    match hgetall_of(m, key) {
        Ok(l) => Ok(first_parts(l)),
        Err(e) => Err(e),
    }
}

/// Putting a member into a set.
pub open spec fn sadd_op(v: StoreView, key: Seq<char>, member: Seq<u8>, now: u64) -> (
    StoreView,
    Result<bool, ListError>,
) {
    if v.closed {
        (v, Err(ListError::Io(IoError::StoreClosed)))
    } else {
        let w = v.purge(key, now).note(key);
        let (map, out) = sadd_step(w.map, key, member);
        match out {
            Ok(new) => (w.with_map(map).journal(Op::SAdd { key, member }), Ok(new)),
            Err(_) => (w, Err(ListError::WrongType)),
        }
    }
}

/// Taking a member out of a set.
pub open spec fn srem_op(v: StoreView, key: Seq<char>, member: Seq<u8>, now: u64) -> (
    StoreView,
    Result<bool, ListError>,
) {
    if v.closed {
        (v, Err(ListError::Io(IoError::StoreClosed)))
    } else {
        let w = v.purge(key, now).note(key);
        let (map, out) = srem_step(w.map, key, member);
        match out {
            Ok(true) => (w.with_map(map).journal(Op::SRem { key, member }), Ok(true)),
            Ok(false) => (w.with_map(map), Ok(false)),
            Err(_) => (w, Err(ListError::WrongType)),
        }
    }
}

/// Whether the set at a key has a member.
pub open spec fn sismember_of(m: State, key: Seq<char>, member: Seq<u8>) -> Result<
    bool,
    WrongType,
> {
    match set_at(m, key) {
        Some(s) => Ok(s.contains(member)),
        None => Err(WrongType),
    }
}

/// The members of the set at a key, in the order of their bytes.
pub open spec fn smembers_of(m: State, key: Seq<char>) -> Result<Seq<Seq<u8>>, WrongType> {
    match set_at(m, key) {
        Some(s) => Ok(listed_members(s)),
        None => Err(WrongType),
    }
}

/// How many members the set at a key has.
pub open spec fn scard_of(m: State, key: Seq<char>) -> Result<u32, WrongType> {
    match set_at(m, key) {
        Some(s) => Ok(s.len() as u32),
        None => Err(WrongType),
    }
}

/// Giving a member of a sorted set a score.
pub open spec fn zadd_op(
    v: StoreView,
    key: Seq<char>,
    score: u64,
    member: Seq<u8>,
    now: u64,
) -> (StoreView, Result<bool, ZAddError>) {
    if v.closed {
        (v, Err(ZAddError::Io(IoError::StoreClosed)))
    } else {
        let w = v.purge(key, now).note(key);
        let (map, out) = zadd_step(w.map, key, score, member);
        match out {
            Ok(new) => (w.with_map(map).journal(Op::ZAdd { key, score, member }), Ok(new)),
            Err(e) => (w, Err(e)),
        }
    }
}

/// The score that an increment of a member starts from; none for a missing key.
pub open spec fn zincr_base_of(m: State, key: Seq<char>, member: Seq<u8>) -> Result<
    Option<u64>,
    WrongType,
> {
    match zset_at(m, key) {
        Some(z) => Ok(
            if m.contains_key(key) {
                Some(incr_base_of(z, member))
            } else {
                None
            },
        ),
        None => Err(WrongType),
    }
}

/// Incrementing the score of a member by `delta`, where `sum` is that of its base and
/// `delta`. A new key begins with `delta` itself. A score that is not finite is refused.
/// The record holds the resulting score.
pub open spec fn zincrby_op(
    v: StoreView,
    key: Seq<char>,
    delta: u64,
    sum: u64,
    member: Seq<u8>,
    now: u64,
) -> (StoreView, Result<u64, ZAddError>) {
    if v.closed {
        (v, Err(ZAddError::Io(IoError::StoreClosed)))
    } else {
        let w = v.purge(key, now).note(key);
        let score = if w.map.contains_key(key) {
            sum
        } else {
            delta
        };
        match zset_at(w.map, key) {
            Some(z) => if !is_finite(score) {
                (w, Err(ZAddError::BadScore))
            } else {
                (
                    w.with_map(
                        with_value(w.map, key, ValueView::ZSet(z.insert(member, score))),
                    ).journal(Op::ZAdd { key, score, member }),
                    Ok(score),
                )
            },
            None => (w, Err(ZAddError::WrongType)),
        }
    }
}

/// Taking a member out of a sorted set.
pub open spec fn zrem_op(v: StoreView, key: Seq<char>, member: Seq<u8>, now: u64) -> (
    StoreView,
    Result<bool, ListError>,
) {
    if v.closed {
        (v, Err(ListError::Io(IoError::StoreClosed)))
    } else {
        let w = v.purge(key, now).note(key);
        let (map, out) = zrem_step(w.map, key, member);
        match out {
            Ok(true) => (w.with_map(map).journal(Op::ZRem { key, member }), Ok(true)),
            Ok(false) => (w.with_map(map), Ok(false)),
            Err(_) => (w, Err(ListError::WrongType)),
        }
    }
}

/// The score of a member of the sorted set at a key.
pub open spec fn zscore_of(m: State, key: Seq<char>, member: Seq<u8>) -> Result<
    Option<u64>,
    WrongType,
> {
    match zset_at(m, key) {
        Some(z) => Ok(
            if z.contains_key(member) {
                Some(z[member])
            } else {
                None
            },
        ),
        None => Err(WrongType),
    }
}

/// The rank of a member of the sorted set at a key.
pub open spec fn zrank_of(m: State, key: Seq<char>, member: Seq<u8>) -> Result<
    Option<u32>,
    WrongType,
> {
    match zset_at(m, key) {
        Some(z) => Ok(
            if z.contains_key(member) {
                Some(rank_of(z, member) as u32)
            } else {
                None
            },
        ),
        None => Err(WrongType),
    }
}

/// How many members the sorted set at a key has.
pub open spec fn zcard_of(m: State, key: Seq<char>) -> Result<u32, WrongType> {
    match zset_at(m, key) {
        Some(z) => Ok(z.dom().len() as u32),
        None => Err(WrongType),
    }
}

/// The members of the sorted set at a key from rank `start` to rank `stop`, with their
/// scores.
pub open spec fn zrange_scored_of(m: State, key: Seq<char>, start: i64, stop: i64) -> Result<
    Seq<(Seq<u8>, u64)>,
    WrongType,
> {
    match zset_at(m, key) {
        Some(z) => Ok(range_of(ranking(z), start as int, stop as int)),
        None => Err(WrongType),
    }
}

/// The members of the sorted set at a key from rank `start` to rank `stop`.
pub open spec fn zrange_of(m: State, key: Seq<char>, start: i64, stop: i64) -> Result<
    Seq<Seq<u8>>,
    WrongType,
> {
    match zrange_scored_of(m, key, start, stop) {
        Ok(l) => Ok(members(l)),
        Err(e) => Err(e),
    }
}

/// Beginning a transaction.
pub open spec fn tx_begin_op(v: StoreView) -> (StoreView, Result<(), IoError>) {
    if v.closed {
        (v, Err(IoError::StoreClosed))
    } else if v.tx is Some {
        (v, Err(IoError::TransactionOpen))
    } else {
        (v.with_tx(Some(TxView { staged: Seq::empty(), undo: Map::empty() })), Ok(()))
    }
}

/// Committing a transaction: its records are owed to the log in one write. A closed store
/// that had a log refuses a transaction that has changed something, since its records
/// would not reach that log: it is rolled back.
pub open spec fn tx_commit_op(v: StoreView) -> (StoreView, Result<(), IoError>) {
    match v.tx {
        Some(t) => if v.closed && v.had_log && t.staged.len() > 0 {
            (tx_rollback_op(v).0, Err(IoError::StoreClosed))
        } else {
            (
                match v.log {
                    Some(a) => StoreView {
                        log: Some(a.grown(frames(t.staged).len())),
                        owed: v.owed.and(frames(t.staged), a.fsync && t.staged.len() > 0),
                        tx: None,
                        ..v
                    },
                    None => v.with_tx(None),
                },
                Ok(()),
            )
        },
        None => (v, Err(IoError::NoTransaction)),
    }
}

/// Rolling a transaction back: the touched keys are restored, and its records are
/// dropped.
pub open spec fn tx_rollback_op(v: StoreView) -> (StoreView, Result<(), IoError>) {
    match v.tx {
        Some(t) => (v.with_map(restored(v.map, t.undo)).with_tx(None), Ok(())),
        None => (v, Err(IoError::NoTransaction)),
    }
}

/// Ending a transaction by what its body returned.
pub open spec fn tx_finish_op<T, E>(v: StoreView, result: Result<T, E>) -> (
    StoreView,
    Result<T, TxError<E>>,
) {
    match result {
        Ok(value) => match tx_commit_op(v) {
            (w, Ok(())) => (w, Ok(value)),
            (w, Err(e)) => (w, Err(TxError::Io(e))),
        },
        Err(error) => match tx_rollback_op(v) {
            (w, Ok(())) => (w, Err(TxError::User(error))),
            (w, Err(e)) => (w, Err(TxError::Io(e))),
        },
    }
}

} // verus!
