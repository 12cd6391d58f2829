//! Compaction: the shortest run of records that comes to the present state.

use std::collections::VecDeque;
use vstd::prelude::*;
use crate::errors::IoError;
use crate::expiry::{dead_keys, live, purged};
use crate::log::{frames, Aof, LogBase, LogWriteView};
use crate::model::{lookup, rolled_back, StoreView, TxView};
use crate::ranges::views;
use crate::record::{
    expiry_field, field_expiry, rec_expire, rec_hset, rec_push, rec_set, rec_smember, rec_zadd,
    record, OP_PUSH_BACK, OP_SADD, Op,
};
use crate::snapshot::{listed_members, unit_map};
use crate::sorted_map::{ordered, SortedMap};
use crate::value::{expired, Entry, EntryView, State, Value, ValueView};
use crate::zset::{ranking, ZSet};

verus! {

/// The record that restores a time of expiry, where the others carry none.
pub open spec fn expire_ops(key: Seq<char>, expire_at: Option<u64>) -> Seq<Op> {
    match expire_at {
        Some(at) => seq![Op::Expire { key, at }],
        None => Seq::empty(),
    }
}

/// The time of expiry that the record of plain bytes carries: 0 stands for none in it.
pub open spec fn put_expiry(e: EntryView) -> Option<u64> {
    field_expiry(expiry_field(e.expire_at))
}

/// The records that come to the value of an entry.
pub open spec fn value_ops(key: Seq<char>, e: EntryView) -> Seq<Op> {
    match e.value {
        ValueView::Bytes(value) => seq![Op::Put { key, value, expire_at: put_expiry(e) }],
        ValueView::List(l) => Seq::new(
            l.len(),
            |i: int| Op::Push { key, value: l[i], front: false },
        ),
        ValueView::Hash(h) => {
            let l = ordered::<String, Seq<u8>>(h);
            Seq::new(l.len(), |i: int| Op::HSet { key, field: l[i].0, value: l[i].1 })
        },
        ValueView::Members(s) => {
            let l = listed_members(s);
            Seq::new(l.len(), |i: int| Op::SAdd { key, member: l[i] })
        },
        ValueView::ZSet(z) => {
            let l = ranking(z);
            Seq::new(l.len(), |i: int| Op::ZAdd { key, score: l[i].1, member: l[i].0 })
        },
    }
}

/// The records that come to an entry.
pub open spec fn entry_ops(key: Seq<char>, e: EntryView) -> Seq<Op> {
    if e.value is Bytes && put_expiry(e) == e.expire_at {
        value_ops(key, e)
    } else {
        value_ops(key, e) + expire_ops(key, e.expire_at)
    }
}

/// The records that come to the listed entries.
pub open spec fn compact_ops(l: Seq<(Seq<char>, EntryView)>) -> Seq<Op>
    decreases l.len(),
{
    if l.len() == 0 {
        Seq::empty()
    } else {
        compact_ops(l.drop_last()) + entry_ops(l.last().0, l.last().1)
    }
}

/// The bytes of each record.
pub open spec fn records_of(ops: Seq<Op>) -> Seq<Seq<u8>> {
    Seq::new(ops.len(), |i: int| record(ops[i]))
}

/// The log that holds a state and nothing else.
pub open spec fn compacted_log(m: State) -> Seq<u8> {
    frames(records_of(compact_ops(ordered::<String, EntryView>(m))))
}

/// What a compacted log holds: what has not expired of the state; while a transaction is
/// open, of the state before it, since its records follow when it is committed.
pub open spec fn kept_by_compaction(v: StoreView, now: u64) -> State {
    live(rolled_back(v), now)
}

/// The mutations that come to what a key holds, whatever it held: nothing, if that has
/// expired.
pub open spec fn renewal_ops(key: Seq<char>, e: Option<EntryView>, now: u64) -> Seq<Op> {
    seq![Op::Del { key }] + match e {
        Some(e) => if expired(e, now) {
            Seq::empty()
        } else {
            entry_ops(key, e)
        },
        None => Seq::empty(),
    }
}

/// In a transaction, a key is no longer held to have been there before it. What it holds
/// now is recorded in full, for the commit, and goes if it has expired.
pub open spec fn forget(v: StoreView, key: Seq<char>, now: u64) -> StoreView {
    match v.tx {
        Some(t) => v.with_map(purged(v.map, key, now)).with_tx(
            Some(
                TxView {
                    staged: t.staged + records_of(renewal_ops(key, lookup(v.map, key), now)),
                    undo: t.undo.insert(key, None),
                },
            ),
        ),
        None => v,
    }
}

/// The same for several keys, the last one first.
pub open spec fn forget_each(v: StoreView, keys: Seq<Seq<char>>, now: u64) -> StoreView
    decreases keys.len(),
{
    if keys.len() == 0 {
        v
    } else {
        forget_each(forget(v, keys.last(), now), keys.drop_last(), now)
    }
}

/// What has expired goes from the store, as it goes from the log: in a transaction, what
/// had been there before it.
pub open spec fn without_dead(v: StoreView, now: u64) -> StoreView {
    match v.tx {
        Some(_) => forget_each(
            v,
            dead_keys(ordered::<String, EntryView>(rolled_back(v)), now),
            now,
        ),
        None => v.with_map(live(v.map, now)),
    }
}

/// Compacting: the log is owed its replacement; the result is its new size, 0 without a
/// log.
pub open spec fn compact_op(v: StoreView, now: u64) -> (StoreView, Result<u64, IoError>) {
    if v.closed {
        (v, Err(IoError::StoreClosed))
    } else {
        match v.log {
            Some(a) => {
                let bytes = compacted_log(kept_by_compaction(v, now));
                (
                    StoreView {
                        log: Some(Aof { fsync: a.fsync, size: bytes.len() as u64 }),
                        owed: LogWriteView { base: LogBase::Nothing, bytes, sync: true },
                        ..without_dead(v, now)
                    },
                    Ok(bytes.len() as u64),
                )
            },
            None => (v, Ok(0)),
        }
    }
}

/// Forgetting keys is about the state and the transaction alone.
pub proof fn forget_each_keeps(v: StoreView, keys: Seq<Seq<char>>, now: u64)
    ensures
        ({
            let w = forget_each(v, keys, now);
            &&& w.log == v.log && w.owed == v.owed
            &&& w.closed == v.closed && w.had_log == v.had_log
            &&& w.tx is Some == v.tx is Some
        }),
    decreases keys.len(),
{
    if keys.len() > 0 {
        forget_each_keeps(forget(v, keys.last(), now), keys.drop_last(), now);
    }
}

/// One more record.
proof fn one_more(recs: Seq<Vec<u8>>, rec: Vec<u8>, ops: Seq<Op>, op: Op)
    requires
        views(recs) == records_of(ops),
        rec@ == record(op),
    ensures
        views(recs.push(rec)) == records_of(ops.push(op)),
{
    assert(views(recs.push(rec)) =~= views(recs).push(rec@));
    assert(records_of(ops.push(op)) =~= records_of(ops).push(record(op)));
}

fn list_records(
    out: &mut Vec<Vec<u8>>,
    key: &str,
    l: &VecDeque<Vec<u8>>,
    Ghost(ops): Ghost<Seq<Op>>,
)
    requires
        views(old(out)@) == records_of(ops),
    ensures
        views(final(out)@) == records_of(
            ops + Seq::new(
                l@.len(),
                |i: int| Op::Push { key: key@, value: l@[i]@, front: false },
            ),
        ),
{
    let mut i: usize = 0;
    let ghost f = |i: int| Op::Push { key: key@, value: l@[i]@, front: false };
    proof {
        assert(ops + Seq::new(0, f) =~= ops);
    }
    while i < l.len()
        invariant
            i <= l@.len(),
            f == (|i: int| Op::Push { key: key@, value: l@[i]@, front: false }),
            views(out@) == records_of(ops + Seq::new(i as nat, f)),
        decreases l@.len() - i,
    {
        let rec = rec_push(OP_PUSH_BACK, key, l[i].as_slice());
        proof {
            one_more(out@, rec, ops + Seq::new(i as nat, f), f(i as int));
            assert((ops + Seq::new(i as nat, f)).push(f(i as int)) =~= ops + Seq::new(
                (i + 1) as nat,
                f,
            ));
        }
        out.push(rec);
        i += 1;
    }
}

fn hash_records(
    out: &mut Vec<Vec<u8>>,
    key: &str,
    h: &SortedMap<String, Vec<u8>>,
    Ghost(ops): Ghost<Seq<Op>>,
)
    requires
        views(old(out)@) == records_of(ops),
    ensures
        ({
            let l = ordered::<String, Seq<u8>>(h@);
            views(final(out)@) == records_of(
                ops + Seq::new(
                    l.len(),
                    |i: int| Op::HSet { key: key@, field: l[i].0, value: l[i].1 },
                ),
            )
        }),
{
    let ghost l = ordered::<String, Seq<u8>>(h@);
    let n: usize = h.len();
    let mut i: usize = 0;
    let ghost f = |i: int| Op::HSet { key: key@, field: l[i].0, value: l[i].1 };
    proof {
        assert(ops + Seq::new(0, f) =~= ops);
    }
    while i < n
        invariant
            i <= n,
            n == l.len(),
            l == ordered::<String, Seq<u8>>(h@),
            f == (|i: int| Op::HSet { key: key@, field: l[i].0, value: l[i].1 }),
            views(out@) == records_of(ops + Seq::new(i as nat, f)),
        decreases n - i,
    {
        let rec = rec_hset(key, h.key_at(i).as_str(), h.val_at(i).as_slice());
        proof {
            one_more(out@, rec, ops + Seq::new(i as nat, f), f(i as int));
            assert((ops + Seq::new(i as nat, f)).push(f(i as int)) =~= ops + Seq::new(
                (i + 1) as nat,
                f,
            ));
        }
        out.push(rec);
        i += 1;
    }
}

fn set_records(
    out: &mut Vec<Vec<u8>>,
    key: &str,
    s: &SortedMap<Vec<u8>, ()>,
    Ghost(ops): Ghost<Seq<Op>>,
)
    requires
        views(old(out)@) == records_of(ops),
    ensures
        ({
            let l = listed_members(s@.dom());
            views(final(out)@) == records_of(
                ops + Seq::new(l.len(), |i: int| Op::SAdd { key: key@, member: l[i] }),
            )
        }),
{
    let ghost l = listed_members(s@.dom());
    let n: usize = s.len();
    let mut i: usize = 0;
    let ghost f = |i: int| Op::SAdd { key: key@, member: l[i] };
    proof {
        assert(unit_map(s@.dom()) =~= s@);
        assert(ops + Seq::new(0, f) =~= ops);
    }
    while i < n
        invariant
            i <= n,
            n == l.len(),
            n == ordered::<Vec<u8>, ()>(s@).len(),
            unit_map(s@.dom()) == s@,
            l == listed_members(s@.dom()),
            f == (|i: int| Op::SAdd { key: key@, member: l[i] }),
            views(out@) == records_of(ops + Seq::new(i as nat, f)),
        decreases n - i,
    {
        let rec = rec_smember(OP_SADD, key, s.key_at(i).as_slice());
        proof {
            one_more(out@, rec, ops + Seq::new(i as nat, f), f(i as int));
            assert((ops + Seq::new(i as nat, f)).push(f(i as int)) =~= ops + Seq::new(
                (i + 1) as nat,
                f,
            ));
        }
        out.push(rec);
        i += 1;
    }
}

fn zset_records(out: &mut Vec<Vec<u8>>, key: &str, z: &ZSet, Ghost(ops): Ghost<Seq<Op>>)
    requires
        views(old(out)@) == records_of(ops),
    ensures
        ({
            let l = ranking(z@);
            views(final(out)@) == records_of(
                ops + Seq::new(
                    l.len(),
                    |i: int| Op::ZAdd { key: key@, score: l[i].1, member: l[i].0 },
                ),
            )
        }),
{
    let ghost l = ranking(z@);
    let list = z.entries();
    let mut i: usize = 0;
    let ghost f = |i: int| Op::ZAdd { key: key@, score: l[i].1, member: l[i].0 };
    proof {
        assert(ops + Seq::new(0, f) =~= ops);
    }
    while i < list.len()
        invariant
            i <= list@.len(),
            views(list@) == l,
            f == (|i: int| Op::ZAdd { key: key@, score: l[i].1, member: l[i].0 }),
            views(out@) == records_of(ops + Seq::new(i as nat, f)),
        decreases list@.len() - i,
    {
        let rec = rec_zadd(key, list[i].score, list[i].member.as_slice());
        proof {
            assert(views(list@)[i as int] == list@[i as int]@);
            one_more(out@, rec, ops + Seq::new(i as nat, f), f(i as int));
            assert((ops + Seq::new(i as nat, f)).push(f(i as int)) =~= ops + Seq::new(
                (i + 1) as nat,
                f,
            ));
        }
        out.push(rec);
        i += 1;
    }
}

/// Append the records that come to an entry.
pub(crate) fn entry_records(
    out: &mut Vec<Vec<u8>>,
    key: &str,
    e: &Entry,
    Ghost(ops): Ghost<Seq<Op>>,
)
    requires
        views(old(out)@) == records_of(ops),
    ensures
        views(final(out)@) == records_of(ops + entry_ops(key@, e@)),
{
    let ghost all = ops + value_ops(key@, e@);
    match &e.value {
        Value::Bytes(b) => {
            let rec = rec_set(key, b.as_slice(), e.expire_at);
            proof {
                let op = Op::Put { key: key@, value: b@, expire_at: put_expiry(e@) };
                one_more(out@, rec, ops, op);
                assert(ops.push(op) =~= ops + value_ops(key@, e@));
            }
            out.push(rec);
            match e.expire_at {
                Some(t) => if t != 0 {
                    return;
                },
                None => return,
            }
        },
        Value::List(l) => {
            list_records(out, key, l, Ghost(ops));
            proof {
                assert(value_ops(key@, e@) =~= Seq::new(
                    l@.len(),
                    |i: int| Op::Push { key: key@, value: l@[i]@, front: false },
                ));
            }
        },
        Value::Hash(h) => hash_records(out, key, h, Ghost(ops)),
        Value::Members(s) => set_records(out, key, s, Ghost(ops)),
        Value::ZSet(z) => zset_records(out, key, z, Ghost(ops)),
    }
    match e.expire_at {
        Some(at) => {
            let rec = rec_expire(key, at);
            proof {
                let op = Op::Expire { key: key@, at };
                one_more(out@, rec, all, op);
                assert(all.push(op) =~= ops + entry_ops(key@, e@));
            }
            out.push(rec);
        },
        None => {
            proof {
                assert(all =~= ops + entry_ops(key@, e@));
            }
        },
    }
}

/// The records that come to a state.
pub fn compact_records(map: &SortedMap<String, Entry>) -> (out: Vec<Vec<u8>>)
    ensures
        views(out@) == records_of(compact_ops(ordered::<String, EntryView>(map@))),
{
    let ghost s = ordered::<String, EntryView>(map@);
    let n: usize = map.len();
    let mut out: Vec<Vec<u8>> = Vec::new();
    let mut i: usize = 0;
    proof {
        assert(views(out@) =~= records_of(compact_ops(s.take(0))));
    }
    while i < n
        invariant
            i <= n,
            n == s.len(),
            s == ordered::<String, EntryView>(map@),
            views(out@) == records_of(compact_ops(s.take(i as int))),
        decreases n - i,
    {
        proof {
            assert(s.take(i + 1).drop_last() =~= s.take(i as int));
        }
        entry_records(
            &mut out,
            map.key_at(i).as_str(),
            map.val_at(i),
            Ghost(compact_ops(s.take(i as int))),
        );
        i += 1;
    }
    proof {
        assert(s.take(i as int) =~= s);
    }
    out
}

} // verus!
