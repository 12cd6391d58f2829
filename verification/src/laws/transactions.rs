//! What a transaction promises: a commit is as if its operations had run without it,
//! and a rollback is as if they had not run at all.

use vstd::prelude::*;
use crate::errors::{IoError, TxError};
use crate::expiry::dead_keys;
use crate::laws::commands::{
    cleaned, closed_store_refuses, effect, effect_keeps_others, is_mutation, key_of, noted,
    purged_key, run, run_all, run_shape, same_but, Command,
};
use crate::log::{frame, frames, frames_join, frames_one, Aof};
use crate::model::{
    purge_each, rolled_back, tx_begin_op, tx_commit_op, tx_finish_op, tx_rollback_op, StoreView,
};
use crate::record::{record, Op};
use crate::sorted_map::ordered;
use crate::value::{expired, EntryView, State};

verus! {

/// A key that has been noted can change, and nothing of what a rollback comes back to does.
pub proof fn noted_key_can_change(v: StoreView, key: Seq<char>, n: State)
    requires
        same_but(v.map, n, key),
    ensures
        ({
            let w = v.note(key).with_map(n);
            &&& v.tx is Some ==> rolled_back(w) == rolled_back(v)
            &&& v.tx is None ==> w == v.with_map(n)
            &&& w.log == v.log && w.owed == v.owed && w.closed == v.closed && w.had_log == v.had_log
            &&& w.tx is Some == v.tx is Some
            &&& v.tx matches Some(t) ==> w.tx.unwrap().staged == t.staged
        }),
{
    if v.tx is Some {
        assert(rolled_back(v.note(key).with_map(n)) =~= rolled_back(v));
    }
}

/// Once all keys have been noted, all of them can change.
pub proof fn noted_keys_can_change(v: StoreView)
    ensures
        ({
            let w = v.note_all().with_map(Map::empty());
            &&& v.tx is Some ==> rolled_back(w) == rolled_back(v)
            &&& v.tx is None ==> w == v.with_map(Map::empty())
            &&& w.log == v.log && w.owed == v.owed && w.closed == v.closed && w.had_log == v.had_log
            &&& w.tx is Some == v.tx is Some
            &&& v.tx matches Some(t) ==> w.tx.unwrap().staged == t.staged
        }),
{
    if v.tx is Some {
        assert(rolled_back(v.note_all().with_map(Map::empty())) =~= rolled_back(v));
    }
}

/// What an operation notes and then changes is none of what a rollback comes back to.
#[verifier::rlimit(40)]
pub proof fn effect_can_be_rolled_back(v: StoreView, c: Command, now: u64)
    ensures
        ({
            let w = noted(v, c).with_map(effect(v.map, c, now).0);
            &&& v.tx is Some ==> rolled_back(w) == rolled_back(v)
            &&& v.tx is None ==> w == v.with_map(effect(v.map, c, now).0)
            &&& w.log == v.log && w.owed == v.owed && w.closed == v.closed && w.had_log == v.had_log
            &&& w.tx is Some == v.tx is Some
            &&& v.tx matches Some(t) ==> w.tx.unwrap().staged == t.staged
        }),
{
    let n = effect(v.map, c, now).0;
    assert(v.with_map(v.map) =~= v);
    match key_of(c) {
        Some(key) => {
            effect_keeps_others(v.map, c, now, key);
            noted_key_can_change(v, key, n);
        },
        None => noted_keys_can_change(v),
    }
}

/// Taking out a key that has expired changes nothing of what a rollback comes back to.
pub proof fn purge_can_be_rolled_back(v: StoreView, key: Seq<char>, now: u64)
    requires
        v.tx is Some,
    ensures
        ({
            let w = v.purge(key, now);
            &&& rolled_back(w) == rolled_back(v)
            &&& w.tx is Some && w.log == v.log && w.owed == v.owed && w.closed == v.closed
            &&& w.had_log == v.had_log
        }),
{
    noted_key_can_change(v, key, v.map.remove(key));
}

proof fn purges_can_be_rolled_back(v: StoreView, keys: Seq<Seq<char>>, now: u64)
    requires
        v.tx is Some,
    ensures
        ({
            let w = purge_each(v, keys, now);
            &&& rolled_back(w) == rolled_back(v)
            &&& w.tx is Some && w.log == v.log && w.owed == v.owed && w.closed == v.closed
            &&& w.had_log == v.had_log
        }),
    decreases keys.len(),
{
    if keys.len() > 0 {
        purge_can_be_rolled_back(v, keys.last(), now);
        purges_can_be_rolled_back(v.purge(keys.last(), now), keys.drop_last(), now);
    }
}

/// An operation in a transaction changes nothing of what a rollback comes back to, and the
/// log is owed nothing of it.
#[verifier::rlimit(40)]
pub proof fn step_can_be_rolled_back(v: StoreView, c: Command, now: u64)
    requires
        v.tx is Some,
    ensures
        rolled_back(run(v, c, now)) == rolled_back(v),
        run(v, c, now).tx is Some,
        run(v, c, now).log == v.log,
        run(v, c, now).owed == v.owed,
        run(v, c, now).closed == v.closed,
        run(v, c, now).had_log == v.had_log,
{
    if v.closed && is_mutation(c) {
        closed_store_refuses(v, c, now);
    } else {
        run_shape(v, c, now);
        match purged_key(c) {
            Some(key) => purge_can_be_rolled_back(v, key, now),
            None => if c is Sweep {
                purges_can_be_rolled_back(
                    v,
                    dead_keys(ordered::<String, EntryView>(v.map), now),
                    now,
                );
            },
        }
        effect_can_be_rolled_back(cleaned(v, c, now), c, now);
    }
}

/// The store after the operations of a transaction.
proof fn steps_can_be_rolled_back(v: StoreView, cs: Seq<(Command, u64)>)
    requires
        v.tx is Some,
    ensures
        rolled_back(run_all(v, cs)) == rolled_back(v),
        run_all(v, cs).tx is Some,
        run_all(v, cs).log == v.log,
        run_all(v, cs).owed == v.owed,
        run_all(v, cs).closed == v.closed,
        run_all(v, cs).had_log == v.had_log,
    decreases cs.len(),
{
    if cs.len() > 0 {
        steps_can_be_rolled_back(v, cs.drop_last());
        step_can_be_rolled_back(run_all(v, cs.drop_last()), cs.last().0, cs.last().1);
    }
}

/// A rollback is as if the operations of the transaction had not run: the store is what it
/// was before.
pub proof fn rollback_restores(v: StoreView, cs: Seq<(Command, u64)>)
    requires
        !v.closed,
        v.tx is None,
    ensures
        ({
            let begun = tx_begin_op(v);
            let ended = tx_rollback_op(run_all(begun.0, cs));
            &&& begun.1 is Ok && ended.1 is Ok
            &&& ended.0 == v
        }),
{
    let b = tx_begin_op(v).0;
    assert(rolled_back(b) =~= v.map);
    steps_can_be_rolled_back(b, cs);
    assert(tx_rollback_op(run_all(b, cs)).0 =~= v);
}

/// The counts of bytes add up.
proof fn grown_twice(a: Aof, m: nat, n: nat)
    ensures
        a.grown(m).grown(n) == a.grown(m + n),
{
}

/// What a store with staged records comes to when they are committed.
pub open spec fn committed(v: StoreView) -> StoreView {
    tx_commit_op(v).0
}

/// Committing after a record was staged is owing it to the log after the commit.
proof fn commit_staged(v: StoreView, op: Op)
    requires
        v.tx is Some,
        !v.closed,
    ensures
        committed(v.journal(op)) == committed(v).journal(op),
{
    let t = v.tx.unwrap();
    let p = record(op);
    frames_join(t.staged, seq![p]);
    frames_one(p);
    assert(t.staged.push(p) =~= t.staged + seq![p]);
    match v.log {
        Some(a) => {
            grown_twice(a, frames(t.staged).len(), frame(p).len());
            assert((v.owed.bytes + frames(t.staged)) + frame(p) =~= v.owed.bytes + (frames(
                t.staged,
            ) + frame(p)));
            assert(committed(v.journal(op)) =~= committed(v).journal(op));
        },
        None => {
            assert(committed(v.journal(op)) =~= committed(v).journal(op));
        },
    }
}

/// Taking out a key before a commit is taking it out after it.
proof fn purge_commutes_with_commit(v: StoreView, key: Seq<char>, now: u64)
    requires
        v.tx is Some,
        !v.closed,
    ensures
        committed(v.purge(key, now)) == committed(v).purge(key, now),
        v.purge(key, now).tx is Some,
        !v.purge(key, now).closed,
{
    if v.map.contains_key(key) && expired(v.map[key], now) {
        let n = v.map.remove(key);
        let x = v.note(key).with_map(n);
        noted_key_can_change(v, key, n);
        noted_key_can_change(committed(v), key, n);
        assert(committed(x) =~= committed(v).with_map(n));
        commit_staged(x, Op::Del { key });
    }
}

proof fn purges_commute_with_commit(v: StoreView, keys: Seq<Seq<char>>, now: u64)
    requires
        v.tx is Some,
        !v.closed,
    ensures
        committed(purge_each(v, keys, now)) == purge_each(committed(v), keys, now),
        purge_each(v, keys, now).tx is Some,
        !purge_each(v, keys, now).closed,
    decreases keys.len(),
{
    if keys.len() > 0 {
        purge_commutes_with_commit(v, keys.last(), now);
        purges_commute_with_commit(v.purge(keys.last(), now), keys.drop_last(), now);
    }
}

/// An operation before a commit is the same operation after it.
#[verifier::rlimit(40)]
pub proof fn step_commutes_with_commit(v: StoreView, c: Command, now: u64)
    requires
        v.tx is Some,
        !v.closed,
    ensures
        committed(run(v, c, now)) == run(committed(v), c, now),
        run(v, c, now).tx is Some,
        !run(v, c, now).closed,
{
    let z = committed(v);
    run_shape(v, c, now);
    run_shape(z, c, now);
    let x = cleaned(v, c, now);
    match purged_key(c) {
        Some(key) => purge_commutes_with_commit(v, key, now),
        None => if c is Sweep {
            purges_commute_with_commit(v, dead_keys(ordered::<String, EntryView>(v.map), now), now);
        },
    }
    assert(committed(x) == cleaned(z, c, now));
    effect_can_be_rolled_back(x, c, now);
    effect_can_be_rolled_back(committed(x), c, now);
    let (n, op) = effect(x.map, c, now);
    let w = noted(x, c).with_map(n);
    assert(committed(w) =~= committed(x).with_map(n));
    match op {
        Some(op) => commit_staged(w, op),
        None => {},
    }
}

/// A commit is as if the operations of the transaction had run without it: the state,
/// the log and what is owed to it are the same.
pub proof fn commit_is_as_without(v: StoreView, cs: Seq<(Command, u64)>)
    requires
        !v.closed,
        v.tx is None,
    ensures
        ({
            let begun = tx_begin_op(v);
            let ended = tx_commit_op(run_all(begun.0, cs));
            &&& begun.1 is Ok && ended.1 is Ok
            &&& ended.0 == run_all(v, cs)
        }),
    decreases cs.len(),
{
    let b = tx_begin_op(v).0;
    if cs.len() == 0 {
        match v.log {
            Some(a) => {
                assert(v.owed.bytes + Seq::<u8>::empty() =~= v.owed.bytes);
                assert(committed(b) =~= v);
            },
            None => {
                assert(committed(b) =~= v);
            },
        }
    } else {
        let init = cs.drop_last();
        commit_is_as_without(v, init);
        steps_can_be_rolled_back(b, init);
        step_commutes_with_commit(run_all(b, init), cs.last().0, cs.last().1);
    }
}

/// A transaction ends by what its body returned: after an error the store is what it was
/// before, with its log and all that is owed to it; after a value it is as if the operations
/// had run without the transaction. The error or the value is handed on.
pub proof fn transaction_ends_by_its_result<T, E>(
    v: StoreView,
    cs: Seq<(Command, u64)>,
    value: T,
    error: E,
)
    requires
        !v.closed,
        v.tx is None,
    ensures
        ({
            let run = run_all(tx_begin_op(v).0, cs);
            &&& tx_finish_op::<T, E>(run, Err(error)) == (
                v,
                Err::<T, TxError<E>>(TxError::User(error)),
            )
            &&& tx_finish_op::<T, E>(run, Ok(value)) == (
                run_all(v, cs),
                Ok::<T, TxError<E>>(value),
            )
        }),
{
    rollback_restores(v, cs);
    commit_is_as_without(v, cs);
}

/// Whatever happened in a transaction, an error of its body puts every key back to what was
/// noted of it, and leaves the log and what is owed to it alone. Without a transaction
/// nothing ends.
pub proof fn error_puts_back<T, E>(v: StoreView, key: Seq<char>, value: T, error: E)
    ensures
        ({
            let (w, out) = tx_finish_op::<T, E>(v, Err(error));
            match v.tx {
                Some(t) => {
                    &&& out == Err::<T, TxError<E>>(TxError::User(error))
                    &&& w.tx is None
                    &&& w.log == v.log && w.owed == v.owed && w.closed == v.closed
                    &&& !t.undo.contains_key(key) ==> w.map.contains_key(key)
                        == v.map.contains_key(key)
                    &&& !t.undo.contains_key(key) && v.map.contains_key(key) ==> w.map[key]
                        == v.map[key]
                    &&& t.undo.contains_key(key) ==> w.map.contains_key(key)
                        == t.undo[key] is Some
                    &&& t.undo.contains_key(key) && t.undo[key] is Some ==> w.map[key]
                        == t.undo[key].unwrap()
                },
                None => {
                    &&& out == Err::<T, TxError<E>>(TxError::Io(IoError::NoTransaction))
                    &&& w == v
                    &&& tx_finish_op::<T, E>(v, Ok(value)) == (
                        v,
                        Err::<T, TxError<E>>(TxError::Io(IoError::NoTransaction)),
                    )
                },
            }
        }),
{
}

/// A commit keeps every key as it is, and owes the staged records to the log, if there is
/// one, behind all that was owed to it before.
pub proof fn commit_owes_what_was_staged(v: StoreView)
    requires
        !v.closed,
        v.tx is Some,
    ensures
        ({
            let (w, out) = tx_commit_op(v);
            &&& out == Ok::<(), IoError>(())
            &&& w.map == v.map
            &&& w.tx is None
            &&& !w.closed
            &&& w.owed.base == v.owed.base
            &&& w.owed.bytes == (if v.log is Some {
                v.owed.bytes + frames(v.tx.unwrap().staged)
            } else {
                v.owed.bytes
            })
            &&& w.log is Some == v.log is Some
            &&& w.owed.sync == (v.owed.sync || v.log is Some && v.log.unwrap().fsync
                && v.tx.unwrap().staged.len() > 0)
            &&& v.log matches Some(a) ==> w.log.unwrap().fsync == a.fsync
        }),
{
}

/// A transaction whose body returned a value ends as a commit does: with the value, or with
/// the error of the commit.
pub proof fn value_commits<T, E>(v: StoreView, value: T)
    ensures
        tx_finish_op::<T, E>(v, Ok(value)).0 == tx_commit_op(v).0,
        tx_commit_op(v).1 is Ok ==> tx_finish_op::<T, E>(v, Ok(value)).1 == Ok::<T, TxError<E>>(
            value,
        ),
        tx_commit_op(v).1 matches Err(e) ==> tx_finish_op::<T, E>(v, Ok(value)).1 == Err::<
            T,
            TxError<E>,
        >(TxError::Io(e)),
        rolled_back(v) == tx_rollback_op(v).0.map,
{
}

/// There is no transaction in a transaction, and none ends that was not begun.
pub proof fn transactions_do_not_nest(v: StoreView)
    ensures
        v.tx is Some ==> tx_begin_op(v).1 is Err && tx_begin_op(v).0 == v,
        !v.closed && v.tx is Some ==> tx_begin_op(v).1 == Err::<(), IoError>(
            IoError::TransactionOpen,
        ),
        !v.closed && v.tx is None ==> tx_begin_op(v).1 is Ok && tx_begin_op(v).0.tx is Some
            && tx_begin_op(v).0.map == v.map,
        v.tx is None ==> tx_commit_op(v) == (v, Err::<(), IoError>(IoError::NoTransaction)),
        v.tx is None ==> tx_rollback_op(v) == (v, Err::<(), IoError>(IoError::NoTransaction)),
        v.tx is Some ==> tx_rollback_op(v).1 is Ok,
        tx_commit_op(v).0.tx is None,
        tx_rollback_op(v).0.tx is None,
{
}

} // verus!
