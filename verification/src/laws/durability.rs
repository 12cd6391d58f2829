//! What the log promises: what a store holds is what it recovers from its log.

use vstd::prelude::*;
use crate::bytes::field_of_number;
use crate::compact::compact_op;
use crate::errors::IoError;
use crate::expiry::dead_keys;
use crate::laws::commands::{
    all_filled, apply_op_filled, cleaned, closed_store_refuses, effect, effect_replays, is_mutation,
    journal_opt, noted, purged_key, run, run_all, run_shape, Command,
};
use crate::laws::transactions::{effect_can_be_rolled_back, noted_key_can_change};
use crate::log::{
    cut_log_is_clean, frame, frames, frames_join, frames_one, log_roundtrip, read_frame,
    records_fit, records_from, LogBase, LogWriteView,
};
use crate::model::{
    close_op, open_op, purge_each, restored, rolled_back, tx_begin_op, tx_commit_op,
    tx_rollback_op, StoreView,
};
use crate::record::{decode, op_fits, record, record_roundtrip, Op};
use crate::replay::{apply_op, replay_step, replayed, replayed_join};
use crate::sorted_map::ordered;
use crate::value::{expired, sound, EntryView, State};

verus! {

/// Whether the log file, once what is owed to it has been carried out, holds the records
/// `recs`, and these come to what the store holds: without the changes of a transaction
/// that is still open, which its staged records come to.
pub open spec fn log_holds(v: StoreView, disk: Seq<u8>, recs: Seq<Seq<u8>>) -> bool {
    &&& v.owed.applied(disk) == frames(recs)
    &&& records_fit(recs)
    &&& replayed(Map::empty(), recs) == rolled_back(v)
    &&& v.tx matches Some(t) ==> records_fit(t.staged) && replayed(rolled_back(v), t.staged)
        == v.map
}

/// Whether the store can be recovered from its log file, once what is owed to it has
/// been carried out.
pub open spec fn durable(v: StoreView, disk: Seq<u8>) -> bool {
    exists|recs: Seq<Seq<u8>>| log_holds(v, disk, recs)
}

/// A durable store is recovered from its log: opening the log file gives what the store
/// holds, without the changes of a transaction that has not been committed, and finds
/// no damage.
pub proof fn durable_store_is_recovered(v: StoreView, disk: Seq<u8>, fsync: bool)
    requires
        durable(v, disk),
    ensures
        ({
            let file = v.owed.applied(disk);
            &&& open_op(file, fsync).map == rolled_back(v)
            &&& v.tx is None ==> open_op(file, fsync).map == v.map
            &&& records_from(file, 0).1 is None
            &&& open_op(file, fsync).owed == LogWriteView::none()
        }),
{
    let recs = choose|recs: Seq<Seq<u8>>| log_holds(v, disk, recs);
    log_roundtrip(recs);
}

/// Bytes that are owed in addition stand behind what was owed before.
pub proof fn applied_and(w: LogWriteView, bytes: Seq<u8>, sync: bool, disk: Seq<u8>)
    ensures
        w.and(bytes, sync).applied(disk) == w.applied(disk) + bytes,
{
    match w.base {
        LogBase::Whole => assert(disk + (w.bytes + bytes) =~= (disk + w.bytes) + bytes),
        LogBase::Prefix(n) => assert(disk.take(n as int) + (w.bytes + bytes) =~= (disk.take(
            n as int,
        ) + w.bytes) + bytes),
        LogBase::Nothing => {},
    }
}

/// Carrying out what is owed keeps a store durable.
pub proof fn settling_keeps_durable(v: StoreView, disk: Seq<u8>)
    requires
        durable(v, disk),
    ensures
        durable(
            StoreView { owed: LogWriteView::none(), ..v },
            v.owed.applied(disk),
        ),
{
    let recs = choose|recs: Seq<Seq<u8>>| log_holds(v, disk, recs);
    let w = StoreView { owed: LogWriteView::none(), ..v };
    let file = v.owed.applied(disk);
    assert(file + Seq::<u8>::empty() =~= file);
    assert(rolled_back(w) == rolled_back(v));
    assert(log_holds(w, file, recs));
}

/// Whether the record of a mutation can be read back: its lengths fit their fields.
pub open spec fn op_writable(op: Op) -> bool {
    op_fits(op) && record(op).len() <= u32::MAX
}

/// Whether what an operation journals can be read back: that keys are gone which have
/// expired, and what it changes itself.
pub open spec fn journals_well(v: StoreView, c: Command, now: u64) -> bool {
    &&& match purged_key(c) {
        Some(key) => v.map.contains_key(key) && expired(v.map[key], now) ==> op_writable(
            Op::Del { key },
        ),
        None => c is Sweep ==> forall|k: Seq<char>| #[trigger]
            v.map.contains_key(k) && expired(v.map[k], now) ==> op_writable(Op::Del { key: k }),
    }
    &&& effect(cleaned(v, c, now).map, c, now).1 matches Some(op) ==> op_writable(op)
}

/// A record that can be read back comes to what its mutation does.
proof fn written_op_replays(m: State, op: Op)
    requires
        op_writable(op),
    ensures
        replay_step(m, record(op)) == apply_op(m, op),
{
    record_roundtrip(op);
}

/// Records that fit, and one more.
proof fn one_more_fits(recs: Seq<Seq<u8>>, p: Seq<u8>)
    requires
        records_fit(recs),
        p.len() <= u32::MAX,
    ensures
        records_fit(recs.push(p)),
{
    let all = recs.push(p);
    assert forall|i: int| 0 <= i < all.len() implies (#[trigger] all[i]).len() <= u32::MAX by {
        if i < recs.len() {
            assert(all[i] == recs[i]);
        }
    }
}

/// Records of two runs that fit.
pub proof fn both_fit(a: Seq<Seq<u8>>, b: Seq<Seq<u8>>)
    requires
        records_fit(a),
        records_fit(b),
    ensures
        records_fit(a + b),
{
    let all = a + b;
    assert forall|i: int| 0 <= i < all.len() implies (#[trigger] all[i]).len() <= u32::MAX by {
        if i < a.len() {
            assert(all[i] == a[i]);
        } else {
            assert(all[i] == b[i - a.len()]);
        }
    }
}

/// Journalling a record that comes to the new state is durable, and so is journalling
/// nothing where the state stays as it was.
proof fn journal_is_durable(
    v: StoreView,
    w: StoreView,
    n: State,
    op: Option<Op>,
    disk: Seq<u8>,
)
    requires
        v.log is Some,
        !v.closed,
        durable(v, disk),
        w.log == v.log,
        w.owed == v.owed,
        w.closed == v.closed,
        match (v.tx, w.tx) {
            (Some(t), Some(u)) => u.staged == t.staged && restored(n, u.undo) == rolled_back(v),
            (None, None) => true,
            _ => false,
        },
        match op {
            Some(op) => op_writable(op) && apply_op(v.map, op) == n,
            None => n == v.map,
        },
    ensures
        durable(journal_opt(w.with_map(n), op), disk),
{
    let recs = choose|recs: Seq<Seq<u8>>| log_holds(v, disk, recs);
    let r = journal_opt(w.with_map(n), op);
    match op {
        Some(op) => {
            let p = record(op);
            written_op_replays(v.map, op);
            match v.tx {
                Some(t) => {
                    let s = t.staged.push(p);
                    one_more_fits(t.staged, p);
                    assert(s.drop_last() =~= t.staged);
                    assert(log_holds(r, disk, recs));
                },
                None => {
                    let all = recs.push(p);
                    one_more_fits(recs, p);
                    assert(all =~= recs + seq![p]);
                    frames_join(recs, seq![p]);
                    frames_one(p);
                    applied_and(v.owed, frame(p), v.log.unwrap().fsync, disk);
                    assert(all.drop_last() =~= recs);
                    assert(log_holds(r, disk, all));
                },
            }
        },
        None => {
            assert(log_holds(r, disk, recs));
        },
    }
}

/// Taking out a key that has expired is durable.
proof fn purge_is_durable(v: StoreView, key: Seq<char>, now: u64, disk: Seq<u8>)
    requires
        v.log is Some,
        !v.closed,
        durable(v, disk),
        v.map.contains_key(key) && expired(v.map[key], now) ==> op_writable(Op::Del { key }),
    ensures
        v.purge(key, now).log is Some,
        !v.purge(key, now).closed,
        durable(v.purge(key, now), disk),
{
    if v.map.contains_key(key) && expired(v.map[key], now) {
        let n = v.map.remove(key);
        noted_key_can_change(v, key, n);
        journal_is_durable(v, v.note(key), n, Some(Op::Del { key }), disk);
    }
}

proof fn purges_are_durable(v: StoreView, keys: Seq<Seq<char>>, now: u64, disk: Seq<u8>)
    requires
        v.log is Some,
        !v.closed,
        durable(v, disk),
        forall|k: Seq<char>| #[trigger]
            v.map.contains_key(k) && expired(v.map[k], now) ==> op_writable(Op::Del { key: k }),
    ensures
        purge_each(v, keys, now).log is Some,
        !purge_each(v, keys, now).closed,
        durable(purge_each(v, keys, now), disk),
    decreases keys.len(),
{
    if keys.len() > 0 {
        purge_is_durable(v, keys.last(), now, disk);
        purges_are_durable(v.purge(keys.last(), now), keys.drop_last(), now, disk);
    }
}

/// Every operation of an open store with a log is durable: what it changes, it owes to
/// the log, or to the commit of the open transaction.
#[verifier::rlimit(40)]
pub proof fn step_is_durable(v: StoreView, c: Command, now: u64, disk: Seq<u8>)
    requires
        v.log is Some,
        !v.closed,
        durable(v, disk),
        journals_well(v, c, now),
    ensures
        run(v, c, now).log is Some,
        !run(v, c, now).closed,
        durable(run(v, c, now), disk),
{
    run_shape(v, c, now);
    match purged_key(c) {
        Some(key) => purge_is_durable(v, key, now, disk),
        None => if c is Sweep {
            purges_are_durable(
                v,
                dead_keys(ordered::<String, EntryView>(v.map), now),
                now,
                disk,
            );
        },
    }
    let w = cleaned(v, c, now);
    let (n, op) = effect(w.map, c, now);
    durable_store_is_filled(w, disk);
    effect_replays(w.map, c, now);
    effect_can_be_rolled_back(w, c, now);
    journal_is_durable(w, noted(w, c), n, op, disk);
}

/// Whether what several operations journal can be read back.
pub open spec fn all_journal_well(v: StoreView, cs: Seq<(Command, u64)>) -> bool
    decreases cs.len(),
{
    cs.len() > 0 ==> all_journal_well(v, cs.drop_last()) && journals_well(
        run_all(v, cs.drop_last()),
        cs.last().0,
        cs.last().1,
    )
}

/// Any run of operations of an open store with a log is durable.
pub proof fn run_is_durable(v: StoreView, cs: Seq<(Command, u64)>, disk: Seq<u8>)
    requires
        v.log is Some,
        !v.closed,
        durable(v, disk),
        all_journal_well(v, cs),
    ensures
        run_all(v, cs).log is Some,
        !run_all(v, cs).closed,
        durable(run_all(v, cs), disk),
    decreases cs.len(),
{
    if cs.len() > 0 {
        run_is_durable(v, cs.drop_last(), disk);
        step_is_durable(run_all(v, cs.drop_last()), cs.last().0, cs.last().1, disk);
    }
}

/// Beginning a transaction keeps a store durable.
pub proof fn begin_is_durable(v: StoreView, disk: Seq<u8>)
    requires
        durable(v, disk),
    ensures
        durable(tx_begin_op(v).0, disk),
{
    let recs = choose|recs: Seq<Seq<u8>>| log_holds(v, disk, recs);
    let w = tx_begin_op(v).0;
    if tx_begin_op(v).1 is Ok {
        assert(rolled_back(w) =~= v.map);
    }
    assert(log_holds(w, disk, recs));
}

/// A committed transaction is durable: all its changes are recovered.
pub proof fn commit_is_durable(v: StoreView, disk: Seq<u8>)
    requires
        v.log is Some,
        !v.closed,
        durable(v, disk),
    ensures
        durable(tx_commit_op(v).0, disk),
        tx_commit_op(v).0.map == v.map,
{
    let recs = choose|recs: Seq<Seq<u8>>| log_holds(v, disk, recs);
    match v.tx {
        Some(t) => {
            frames_join(recs, t.staged);
            both_fit(recs, t.staged);
            applied_and(
                v.owed,
                frames(t.staged),
                v.log.unwrap().fsync && t.staged.len() > 0,
                disk,
            );
            replayed_join(Map::empty(), recs, t.staged);
            assert(log_holds(tx_commit_op(v).0, disk, recs + t.staged));
        },
        None => {},
    }
}

/// Closing keeps a store durable.
pub proof fn closing_is_durable(v: StoreView, disk: Seq<u8>)
    requires
        durable(v, disk),
    ensures
        durable(close_op(v), disk),
{
    let recs = choose|recs: Seq<Seq<u8>>| log_holds(v, disk, recs);
    assert(log_holds(close_op(v), disk, recs));
}

/// A closed store that is asked to commit what it can no longer journal says so, and holds
/// what its log comes to: nothing that was not recorded stands.
pub proof fn refused_commit_is_durable(v: StoreView, disk: Seq<u8>)
    requires
        v.closed,
        v.had_log,
        v.tx matches Some(t) && t.staged.len() > 0,
        durable(v, disk),
    ensures
        tx_commit_op(v).1 == Err::<(), IoError>(IoError::StoreClosed),
        tx_commit_op(v).0.map == rolled_back(v),
        durable(tx_commit_op(v).0, disk),
{
    rollback_is_durable(v, disk);
}

/// A rolled-back transaction leaves a store durable: none of its changes is recovered.
pub proof fn rollback_is_durable(v: StoreView, disk: Seq<u8>)
    requires
        durable(v, disk),
    ensures
        durable(tx_rollback_op(v).0, disk),
        tx_rollback_op(v).0.map == rolled_back(v),
{
    let recs = choose|recs: Seq<Seq<u8>>| log_holds(v, disk, recs);
    assert(log_holds(tx_rollback_op(v).0, disk, recs));
}

/// An intact frame is the frame of its payload.
pub proof fn frame_is_canonical(d: Seq<u8>, pos: int)
    requires
        0 <= pos,
        read_frame(d, pos) is Some,
    ensures
        ({
            let (payload, next) = read_frame(d, pos).unwrap();
            &&& pos < next <= d.len()
            &&& payload.len() <= u32::MAX
            &&& d.subrange(pos, next) == frame(payload)
        }),
{
    let (payload, next) = read_frame(d, pos).unwrap();
    field_of_number(d.subrange(pos, pos + 4));
    field_of_number(d.subrange(pos + 4, pos + 8));
    assert(d.subrange(pos, next) =~= d.subrange(pos, pos + 4) + d.subrange(pos + 4, pos + 8)
        + payload);
}

/// What was read from a log, written again, is the log up to its end or to where it is
/// damaged; and no frame begins where it is damaged.
pub proof fn log_is_canonical(d: Seq<u8>, pos: int)
    requires
        0 <= pos <= d.len(),
    ensures
        ({
            let (recs, damaged) = records_from(d, pos);
            let end = match damaged {
                Some(at) => at,
                None => d.len() as int,
            };
            &&& pos <= end <= d.len()
            &&& d.subrange(pos, end) == frames(recs)
            &&& records_fit(recs)
            &&& damaged is Some ==> end < d.len() && read_frame(d, end) is None
        }),
    decreases d.len() - pos,
{
    if pos >= d.len() {
        assert(d.subrange(pos, d.len() as int) =~= Seq::<u8>::empty());
    } else if read_frame(d, pos) is None {
        assert(d.subrange(pos, pos) =~= Seq::<u8>::empty());
    } else {
        frame_is_canonical(d, pos);
        let (payload, next) = read_frame(d, pos).unwrap();
        log_is_canonical(d, next);
        let (rest, damaged) = records_from(d, next);
        let end = match damaged {
            Some(at) => at,
            None => d.len() as int,
        };
        frames_join(seq![payload], rest);
        frames_one(payload);
        assert(d.subrange(pos, end) =~= d.subrange(pos, next) + d.subrange(next, end));
        assert(records_fit(seq![payload]));
        both_fit(seq![payload], rest);
    }
}

/// A store that was opened on a log file is durable, also where the file had a torn
/// tail; and it holds no empty collection.
pub proof fn opened_store_is_durable(disk: Seq<u8>, fsync: bool)
    requires
        disk.len() <= u64::MAX,
    ensures
        durable(open_op(disk, fsync), disk),
        all_filled(open_op(disk, fsync).map),
{
    let v = open_op(disk, fsync);
    let (recs, damaged) = records_from(disk, 0);
    replayed_filled(Map::empty(), recs);
    log_is_canonical(disk, 0);
    match damaged {
        Some(at) => {
            assert(disk.take(at) + Seq::<u8>::empty() =~= disk.subrange(0, at));
        },
        None => {
            assert(disk + Seq::<u8>::empty() =~= disk.subrange(0, disk.len() as int));
        },
    }
    assert(log_holds(v, disk, recs));
}

/// A torn tail is dropped once: when what is owed for it has been carried out, opening
/// the log again finds the same state and no damage.
pub proof fn reopening_is_clean(disk: Seq<u8>, fsync: bool)
    requires
        disk.len() <= u64::MAX,
    ensures
        ({
            let v = open_op(disk, fsync);
            let file = v.owed.applied(disk);
            &&& open_op(file, fsync).map == v.map
            &&& open_op(file, fsync).owed == LogWriteView::none()
            &&& records_from(file, 0) == (records_from(disk, 0).0, None::<int>)
        }),
{
    let v = open_op(disk, fsync);
    opened_store_is_durable(disk, fsync);
    durable_store_is_recovered(v, disk, fsync);
    match records_from(disk, 0).1 {
        Some(at) => {
            cut_log_is_clean(disk);
            assert(disk.take(at) + Seq::<u8>::empty() =~= disk.take(at));
        },
        None => {
            assert(disk + Seq::<u8>::empty() =~= disk);
        },
    }
}

/// Replaying records comes to a state without empty collections.
pub proof fn replayed_filled(m: State, payloads: Seq<Seq<u8>>)
    requires
        all_filled(m),
    ensures
        all_filled(replayed(m, payloads)),
        m.dom().finite() ==> replayed(m, payloads).dom().finite(),
    decreases payloads.len(),
{
    if payloads.len() > 0 {
        replayed_filled(m, payloads.drop_last());
        match decode(payloads.last()) {
            Some(op) => apply_op_filled(replayed(m, payloads.drop_last()), op),
            None => {},
        }
    }
}

/// A durable store is finite, and no key of it holds an empty collection, nor would one
/// after a rollback.
pub proof fn durable_store_is_filled(v: StoreView, disk: Seq<u8>)
    requires
        durable(v, disk),
    ensures
        all_filled(v.map),
        all_filled(rolled_back(v)),
        sound(v.map),
        sound(rolled_back(v)),
{
    let recs = choose|recs: Seq<Seq<u8>>| log_holds(v, disk, recs);
    assert(Map::<Seq<char>, EntryView>::empty().dom() =~= Set::<Seq<char>>::empty());
    replayed_filled(Map::empty(), recs);
    match v.tx {
        Some(t) => replayed_filled(rolled_back(v), t.staged),
        None => {},
    }
}

/// Whether the size that a store knows of its log is that of the log file, once what is
/// owed to it has been carried out.
pub open spec fn size_tracked(v: StoreView, disk: Seq<u8>) -> bool {
    let len = v.owed.applied(disk).len();
    v.log matches Some(a) ==> len <= u64::MAX ==> a.size == len
}

/// The size of the log is right when a store is opened, and every operation keeps it so.
pub proof fn size_stays_tracked(v: StoreView, c: Command, now: u64, disk: Seq<u8>, fsync: bool)
    requires
        size_tracked(v, disk),
    ensures
        size_tracked(run(v, c, now), disk),
        size_tracked(tx_begin_op(v).0, disk),
        size_tracked(tx_commit_op(v).0, disk),
        size_tracked(tx_rollback_op(v).0, disk),
        size_tracked(compact_op(v, now).0, disk),
        disk.len() <= u64::MAX ==> size_tracked(open_op(disk, fsync), disk),
{
    if v.closed && is_mutation(c) {
        closed_store_refuses(v, c, now);
    } else {
        run_shape(v, c, now);
        match purged_key(c) {
            Some(key) => purge_keeps_size(v, key, now, disk),
            None => if c is Sweep {
                purges_keep_size(v, dead_keys(ordered::<String, EntryView>(v.map), now), now, disk);
            },
        }
        let w = cleaned(v, c, now);
        let (n, op) = effect(w.map, c, now);
        effect_can_be_rolled_back(w, c, now);
        journal_keeps_size(noted(w, c).with_map(n), op, disk);
    }
    match v.tx {
        Some(t) => match v.log {
            Some(a) => applied_and(
                v.owed,
                frames(t.staged),
                a.fsync && t.staged.len() > 0,
                disk,
            ),
            None => {},
        },
        None => {},
    }
    if disk.len() <= u64::MAX {
        match records_from(disk, 0).1 {
            Some(at) => {
                cut_log_is_clean(disk);
                assert(disk.take(at) + Seq::<u8>::empty() =~= disk.take(at));
            },
            None => {
                assert(disk + Seq::<u8>::empty() =~= disk);
            },
        }
    }
}

proof fn journal_keeps_size(v: StoreView, op: Option<Op>, disk: Seq<u8>)
    requires
        size_tracked(v, disk),
    ensures
        size_tracked(journal_opt(v, op), disk),
{
    match (op, v.log) {
        (Some(op), Some(a)) => applied_and(v.owed, frame(record(op)), a.fsync, disk),
        _ => {},
    }
}

proof fn purge_keeps_size(v: StoreView, key: Seq<char>, now: u64, disk: Seq<u8>)
    requires
        size_tracked(v, disk),
    ensures
        size_tracked(v.purge(key, now), disk),
{
    let n = v.map.remove(key);
    noted_key_can_change(v, key, n);
    journal_keeps_size(v.note(key).with_map(n), Some(Op::Del { key }), disk);
}

proof fn purges_keep_size(v: StoreView, keys: Seq<Seq<char>>, now: u64, disk: Seq<u8>)
    requires
        size_tracked(v, disk),
    ensures
        size_tracked(purge_each(v, keys, now), disk),
    decreases keys.len(),
{
    if keys.len() > 0 {
        purge_keeps_size(v, keys.last(), now, disk);
        purges_keep_size(v.purge(keys.last(), now), keys.drop_last(), now, disk);
    }
}

/// Whether what is owed is as it was, or is to be forced to the disk.
pub open spec fn forced(v: StoreView, w: StoreView) -> bool {
    w.owed == v.owed || w.owed.sync
}

/// Where every write is to be forced to the disk, each one that an operation or a commit
/// owes is.
pub proof fn fsync_forces_every_write(v: StoreView, c: Command, now: u64)
    requires
        v.log matches Some(a) && a.fsync,
    ensures
        forced(v, run(v, c, now)),
        forced(v, tx_commit_op(v).0),
{
    if v.closed && is_mutation(c) {
        closed_store_refuses(v, c, now);
    } else {
        run_shape(v, c, now);
        match purged_key(c) {
            Some(key) => purge_is_forced(v, key, now),
            None => if c is Sweep {
                purges_are_forced(v, dead_keys(ordered::<String, EntryView>(v.map), now), now);
            },
        }
        effect_can_be_rolled_back(cleaned(v, c, now), c, now);
    }
    match v.tx {
        Some(t) => if t.staged.len() == 0 {
            assert(v.owed.bytes + frames(t.staged) =~= v.owed.bytes);
        },
        None => {},
    }
}

proof fn purge_is_forced(v: StoreView, key: Seq<char>, now: u64)
    requires
        v.log matches Some(a) && a.fsync,
    ensures
        forced(v, v.purge(key, now)),
        v.purge(key, now).log matches Some(a) && a.fsync,
{
    noted_key_can_change(v, key, v.map.remove(key));
}

proof fn purges_are_forced(v: StoreView, keys: Seq<Seq<char>>, now: u64)
    requires
        v.log matches Some(a) && a.fsync,
    ensures
        forced(v, purge_each(v, keys, now)),
        purge_each(v, keys, now).log matches Some(a) && a.fsync,
    decreases keys.len(),
{
    if keys.len() > 0 {
        purge_is_forced(v, keys.last(), now);
        purges_are_forced(v.purge(keys.last(), now), keys.drop_last(), now);
    }
}

/// Where writes are not to be forced to the disk, no operation and no commit forces one.
pub proof fn without_fsync_nothing_is_forced(v: StoreView, c: Command, now: u64)
    requires
        v.log matches Some(a) ==> !a.fsync,
    ensures
        run(v, c, now).owed.sync == v.owed.sync,
        tx_commit_op(v).0.owed.sync == v.owed.sync,
{
    if v.closed && is_mutation(c) {
        closed_store_refuses(v, c, now);
    } else {
        run_shape(v, c, now);
        match purged_key(c) {
            Some(key) => purge_is_not_forced(v, key, now),
            None => if c is Sweep {
                purges_are_not_forced(v, dead_keys(ordered::<String, EntryView>(v.map), now), now);
            },
        }
        effect_can_be_rolled_back(cleaned(v, c, now), c, now);
    }
}

proof fn purge_is_not_forced(v: StoreView, key: Seq<char>, now: u64)
    requires
        v.log matches Some(a) ==> !a.fsync,
    ensures
        v.purge(key, now).owed.sync == v.owed.sync,
        v.purge(key, now).log matches Some(a) ==> !a.fsync,
{
    noted_key_can_change(v, key, v.map.remove(key));
}

proof fn purges_are_not_forced(v: StoreView, keys: Seq<Seq<char>>, now: u64)
    requires
        v.log matches Some(a) ==> !a.fsync,
    ensures
        purge_each(v, keys, now).owed.sync == v.owed.sync,
        purge_each(v, keys, now).log matches Some(a) ==> !a.fsync,
    decreases keys.len(),
{
    if keys.len() > 0 {
        purge_is_not_forced(v, keys.last(), now);
        purges_are_not_forced(v.purge(keys.last(), now), keys.drop_last(), now);
    }
}

/// A store that is opened has the log that it was opened on, forces its writes as it was
/// asked to, is open, and is in no transaction. A torn tail is owed its removal.
pub proof fn opened_store_is_as_asked(data: Seq<u8>, fsync: bool)
    requires
        data.len() <= u64::MAX,
    ensures
        ({
            let v = open_op(data, fsync);
            &&& v.log matches Some(a) && a.fsync == fsync && a.size == v.owed.applied(data).len()
            &&& !v.closed
            &&& v.tx is None
            &&& records_from(data, 0).1 is None ==> v.owed == LogWriteView::none()
            &&& records_from(data, 0).1 matches Some(at) ==> v.owed.base == LogBase::Prefix(
                at as u64,
            ) && v.owed.bytes.len() == 0 && v.owed.sync
        }),
{
    log_is_canonical(data, 0);
    assert(data + Seq::<u8>::empty() =~= data);
}

} // verus!
