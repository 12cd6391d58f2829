//! What the operations on keys and structures promise of one another.

use vstd::prelude::*;
use crate::errors::{IoError, ListError, WrongType, ZAddError};
use crate::expiry::{dead_keys, expiry_in, expiry_of_ttl, keys_of, live, ttl_of};
use crate::laws::commands::{
    all_filled, cleaned, closed_store_refuses, effect_filled, is_mutation, purged_key, run,
    run_shape, Command,
};
use crate::laws::transactions::{effect_can_be_rolled_back, step_can_be_rolled_back};
use crate::model::{
    bytes_at, clear_op, close_op, del_op, expire_op, hdel_op, hexists_of, hget_of, hset_op,
    persist_op, pop_op, purge_each_map, purge_map, push_op, rolled_back, sadd_op,
    set_op, sismember_of, srem_op, sweep_map_is_live, sweep_op, tx_begin_op, tx_commit_op,
    tx_rollback_op, zadd_op, zincrby_op, zrange_scored_of, zrem_op, zscore_of, StoreView,
};
use crate::mutate::{
    hash_at, hdel_step, hset_step, list_at, pop_step, push_step, sadd_step, set_at, srem_step,
    zadd_step, zset_at,
};
use crate::compact::compact_op;
use crate::ranges::range_of;
use crate::score::is_nan;
use crate::sorted_map::{ordered, ordered_exists, Key};
use crate::value::{expired, EntryView, State, ValueView};
use crate::zset::{rank_is, rank_of, ranking, ranking_exists, ranking_len, ranks_before};

verus! {

/// A key that has expired is missing to everyone who looks for it.
pub proof fn expired_key_is_missing(v: StoreView, key: Seq<char>, now: u64)
    requires
        v.map.contains_key(key),
        expired(v.map[key], now),
    ensures
        !v.purge(key, now).map.contains_key(key),
        bytes_at(v.purge(key, now).map, key) == Ok::<Option<Seq<u8>>, WrongType>(None),
        ttl_of(v.purge(key, now).map, key, now) == -2,
        !live(v.map, now).contains_key(key),
{
}

/// What was set is read, until it expires, whatever the key held before.
pub proof fn set_is_read(
    v: StoreView,
    key: Seq<char>,
    value: Seq<u8>,
    ttl_ms: Option<i64>,
    now: u64,
    t: u64,
)
    requires
        !v.closed,
        expiry_of_ttl(ttl_ms, now) matches Some(at) ==> t < at,
    ensures
        ({
            let w = set_op(v, key, value, ttl_ms, now).0;
            bytes_at(w.purge(key, t).map, key) == Ok::<Option<Seq<u8>>, WrongType>(Some(value))
        }),
{
}

/// What was deleted is missing, and deleting it again says so.
pub proof fn deleted_is_missing(v: StoreView, key: Seq<char>)
    requires
        !v.closed,
    ensures
        !del_op(v, key).0.map.contains_key(key),
        del_op(del_op(v, key).0, key).1 == Ok::<bool, IoError>(false),
{
}

/// A time to live runs down: until it is over, a key has what is left of it; then the key
/// is missing.
pub proof fn ttl_runs_down(v: StoreView, key: Seq<char>, ms: i64, now: u64, t: u64)
    requires
        !v.closed,
        v.map.contains_key(key),
        ms > 0,
        now + ms <= u64::MAX,
        now <= t,
    ensures
        ({
            let w = expire_op(v, key, ms, now).0;
            if t < now + ms {
                ttl_of(w.purge(key, t).map, key, t) == now + ms - t
            } else {
                !w.purge(key, t).map.contains_key(key) && ttl_of(w.purge(key, t).map, key, t) == -2
            }
        }),
{
    assert(expiry_in(ms, now) == now + ms);
}

/// A key that was made persistent never expires and keeps its value.
pub proof fn persisted_never_expires(v: StoreView, key: Seq<char>, t: u64)
    requires
        !v.closed,
        v.map.contains_key(key),
    ensures
        ({
            let w = persist_op(v, key).0;
            &&& ttl_of(w.purge(key, t).map, key, t) == -1
            &&& w.map[key].value == v.map[key].value
        }),
{
}

/// An element that was put at an end of a list is the next one taken there, and then
/// all is as before.
pub proof fn push_then_pop(m: State, key: Seq<char>, value: Seq<u8>, front: bool)
    requires
        list_at(m, key) is Some,
        m.contains_key(key) ==> list_at(m, key).unwrap().len() > 0,
    ensures
        pop_step(push_step(m, key, value, front).0, key, front) == (
            m,
            Ok::<Option<Seq<u8>>, WrongType>(Some(value)),
        ),
{
    let l = list_at(m, key).unwrap();
    let n = push_step(m, key, value, front).0;
    if front {
        assert((seq![value] + l).drop_first() =~= l);
    } else {
        assert(l.push(value).drop_last() =~= l);
    }
    if m.contains_key(key) {
        assert(pop_step(n, key, front).0 =~= m);
    } else {
        assert(l.len() == 0);
        assert(pop_step(n, key, front).0 =~= m);
    }
}

/// The state after elements were put at the back of a list, one after the other.
pub open spec fn pushed_all(m: State, key: Seq<char>, values: Seq<Seq<u8>>) -> State
    decreases values.len(),
{
    if values.len() == 0 {
        m
    } else {
        push_step(pushed_all(m, key, values.drop_last()), key, values.last(), false).0
    }
}

/// A list holds what was put into it, in that order.
proof fn pushed_all_is(m: State, key: Seq<char>, values: Seq<Seq<u8>>)
    requires
        !m.contains_key(key),
    ensures
        pushed_all(m, key, values) == (if values.len() == 0 {
            m
        } else {
            m.insert(key, EntryView { value: ValueView::List(values), expire_at: None })
        }),
    decreases values.len(),
{
    if values.len() > 0 {
        let init = values.drop_last();
        pushed_all_is(m, key, init);
        assert(init.push(values.last()) =~= values);
        if init.len() == 0 {
            assert(Seq::<Seq<u8>>::empty().push(values.last()) =~= values);
        }
        assert(pushed_all(m, key, values) =~= m.insert(
            key,
            EntryView { value: ValueView::List(values), expire_at: None },
        ));
    }
}

/// A list is a queue: what was put in at the back first is taken at the front first.
pub proof fn list_is_fifo(m: State, key: Seq<char>, values: Seq<Seq<u8>>)
    requires
        !m.contains_key(key),
        values.len() > 0,
    ensures
        pop_step(pushed_all(m, key, values), key, true) == (
            pushed_all(m, key, values.drop_first()),
            Ok::<Option<Seq<u8>>, WrongType>(Some(values[0])),
        ),
{
    pushed_all_is(m, key, values);
    pushed_all_is(m, key, values.drop_first());
    assert(pop_step(pushed_all(m, key, values), key, true).0 =~= pushed_all(
        m,
        key,
        values.drop_first(),
    ));
}

/// A list is a stack too: what was put in at the back last is taken at the back first.
pub proof fn list_is_lifo(m: State, key: Seq<char>, values: Seq<Seq<u8>>)
    requires
        !m.contains_key(key),
        values.len() > 0,
    ensures
        pop_step(pushed_all(m, key, values), key, false) == (
            pushed_all(m, key, values.drop_last()),
            Ok::<Option<Seq<u8>>, WrongType>(Some(values.last())),
        ),
{
    pushed_all_is(m, key, values);
    pushed_all_is(m, key, values.drop_last());
    assert(pop_step(pushed_all(m, key, values), key, false).0 =~= pushed_all(
        m,
        key,
        values.drop_last(),
    ));
}

/// The range from the first index to the last is the whole, and a range that begins
/// behind its end or behind the last index is empty.
pub proof fn whole_and_empty_ranges<A>(s: Seq<A>, start: int, stop: int)
    ensures
        range_of(s, 0, -1) == s,
        0 <= stop < start ==> range_of(s, start, stop) == Seq::<A>::empty(),
        start >= s.len() ==> range_of(s, start, stop) == Seq::<A>::empty(),
        0 <= start <= stop < s.len() ==> range_of(s, start, stop) == s.subrange(start, stop + 1),
        -s.len() <= start <= stop < 0 ==> range_of(s, start, stop) == s.subrange(
            s.len() + start,
            s.len() + stop + 1,
        ),
{
    assert(range_of(s, 0, -1) =~= s);
}

/// A field that was given a value has it, and no other field has changed.
pub proof fn hset_is_read(
    m: State,
    key: Seq<char>,
    field: Seq<char>,
    value: Seq<u8>,
    other: Seq<char>,
)
    requires
        hash_at(m, key) is Some,
    ensures
        ({
            let n = hset_step(m, key, field, value).0;
            &&& hget_of(n, key, field) == Ok::<Option<Seq<u8>>, WrongType>(Some(value))
            &&& hexists_of(n, key, field) == Ok::<bool, WrongType>(true)
            &&& other != field ==> hget_of(n, key, other) == hget_of(m, key, other)
        }),
{
}

/// A field that was taken out is missing, and no other field has changed.
pub proof fn hdel_is_missing(m: State, key: Seq<char>, field: Seq<char>, other: Seq<char>)
    requires
        hash_at(m, key) matches Some(h) && h.dom().finite(),
    ensures
        ({
            let n = hdel_step(m, key, field).0;
            &&& hget_of(n, key, field) == Ok::<Option<Seq<u8>>, WrongType>(None)
            &&& other != field ==> hget_of(n, key, other) == hget_of(m, key, other)
        }),
{
    let h = hash_at(m, key).unwrap();
    let rest = h.remove(field);
    assert(rest.dom() =~= h.dom().remove(field));
    if rest.dom().len() == 0 {
        assert(rest.dom() =~= Set::<Seq<char>>::empty());
        assert(other != field ==> (h.contains_key(other) ==> rest.dom().contains(other)));
    }
}

/// Adding a member to a set makes it a member; adding it again changes nothing and says
/// so.
pub proof fn sadd_is_idempotent(m: State, key: Seq<char>, member: Seq<u8>)
    requires
        set_at(m, key) is Some,
    ensures
        ({
            let n = sadd_step(m, key, member).0;
            &&& sismember_of(n, key, member) == Ok::<bool, WrongType>(true)
            &&& sadd_step(n, key, member) == (n, Ok::<bool, WrongType>(false))
        }),
{
    let s = set_at(m, key).unwrap();
    let n = sadd_step(m, key, member).0;
    assert(s.insert(member).insert(member) =~= s.insert(member));
    assert(sadd_step(n, key, member).0 =~= n);
}

/// A member that was taken out of a set is none any more.
pub proof fn srem_is_missing(m: State, key: Seq<char>, member: Seq<u8>)
    requires
        set_at(m, key) is Some,
    ensures
        sismember_of(srem_step(m, key, member).0, key, member) == Ok::<
            bool,
            WrongType,
        >(false),
{
}

/// A member of a sorted set has the score that it was given last.
pub proof fn zadd_is_read(m: State, key: Seq<char>, score: u64, member: Seq<u8>)
    requires
        zset_at(m, key) is Some,
        !is_nan(score),
    ensures
        zscore_of(zadd_step(m, key, score, member).0, key, member) == Ok::<
            Option<u64>,
            WrongType,
        >(Some(score)),
{
}

/// A range of a sorted set stands in rank order: by score, and among equal scores by the
/// bytes of the member; and each member stands at its rank.
pub proof fn ranges_stand_in_rank_order(m: State, key: Seq<char>, i: int, j: int)
    requires
        zset_at(m, key) matches Some(z) && z.dom().finite(),
        0 <= i < j < zset_at(m, key).unwrap().dom().len(),
    ensures
        ({
            let z = zset_at(m, key).unwrap();
            &&& zrange_scored_of(m, key, 0, (-1) as i64) == Ok::<Seq<(Seq<u8>, u64)>, WrongType>(
                ranking(z),
            )
            &&& ranking(z).len() == z.dom().len()
            &&& ranks_before(ranking(z)[i], ranking(z)[j])
            &&& z.contains_key(ranking(z)[i].0) && z[ranking(z)[i].0] == ranking(z)[i].1
            &&& rank_of(z, ranking(z)[i].0) == i
        }),
{
    let z = zset_at(m, key).unwrap();
    ranking_exists(z);
    ranking_len(ranking(z), z);
    assert(range_of(ranking(z), 0, -1) =~= ranking(z));
    assert(z.contains_key(ranking(z)[i].0));
    rank_is(z, ranking(z)[i].0, i);
}

/// Every member of a sorted set has a rank, and stands there.
pub proof fn every_member_has_a_rank(z: Map<Seq<u8>, u64>, member: Seq<u8>)
    requires
        z.dom().finite(),
        z.contains_key(member),
    ensures
        0 <= rank_of(z, member) < z.dom().len(),
        ranking(z)[rank_of(z, member)] == (member, z[member]),
{
    ranking_exists(z);
    ranking_len(ranking(z), z);
    let s = ranking(z);
    let i = choose|i: int| 0 <= i < s.len() && #[trigger] s[i].0 == member;
    rank_is(z, member, i);
}

/// Whether a refused operation has left the state and the log as they were.
pub open spec fn left_alone(v: StoreView, w: StoreView) -> bool {
    &&& w.map == v.map
    &&& w.log == v.log
    &&& w.owed == v.owed
    &&& w.closed == v.closed
    &&& match (v.tx, w.tx) {
        (Some(t), Some(u)) => u.staged == t.staged,
        (None, None) => true,
        _ => false,
    }
}

/// An operation on a key that holds another type is refused, changes nothing, and
/// journals nothing.
pub proof fn wrong_type_changes_nothing(
    v: StoreView,
    key: Seq<char>,
    field: Seq<char>,
    blob: Seq<u8>,
    score: u64,
    sum: u64,
    front: bool,
    now: u64,
)
    ensures
        push_op(v, key, blob, front, now).1 == Err::<u32, ListError>(ListError::WrongType)
            ==> left_alone(v, push_op(v, key, blob, front, now).0),
        pop_op(v, key, front, now).1 == Err::<Option<Seq<u8>>, ListError>(ListError::WrongType)
            ==> left_alone(v, pop_op(v, key, front, now).0),
        hset_op(v, key, field, blob, now).1 == Err::<bool, ListError>(ListError::WrongType)
            ==> left_alone(v, hset_op(v, key, field, blob, now).0),
        hdel_op(v, key, field, now).1 == Err::<bool, ListError>(ListError::WrongType)
            ==> left_alone(v, hdel_op(v, key, field, now).0),
        sadd_op(v, key, blob, now).1 == Err::<bool, ListError>(ListError::WrongType)
            ==> left_alone(v, sadd_op(v, key, blob, now).0),
        srem_op(v, key, blob, now).1 == Err::<bool, ListError>(ListError::WrongType)
            ==> left_alone(v, srem_op(v, key, blob, now).0),
        zadd_op(v, key, score, blob, now).1 == Err::<bool, ZAddError>(ZAddError::WrongType)
            ==> left_alone(v, zadd_op(v, key, score, blob, now).0),
        zincrby_op(v, key, score, sum, blob, now).1 == Err::<u64, ZAddError>(ZAddError::WrongType)
            ==> left_alone(v, zincrby_op(v, key, score, sum, blob, now).0),
        zrem_op(v, key, blob, now).1 == Err::<bool, ListError>(ListError::WrongType)
            ==> left_alone(v, zrem_op(v, key, blob, now).0),
{
}

/// A closed store says of every mutation that it is closed, and stays as it is. So it does
/// of a commit of changes that were to go to its log, and these are rolled back; where there
/// never was a log, the commit stands.
pub proof fn closed_store_says_so(
    v: StoreView,
    key: Seq<char>,
    field: Seq<char>,
    blob: Seq<u8>,
    score: u64,
    sum: u64,
    ttl_ms: Option<i64>,
    ms: i64,
    front: bool,
    now: u64,
)
    requires
        v.closed,
    ensures
        set_op(v, key, blob, ttl_ms, now) == (v, Err::<(), IoError>(IoError::StoreClosed)),
        del_op(v, key) == (v, Err::<bool, IoError>(IoError::StoreClosed)),
        expire_op(v, key, ms, now) == (v, Err::<bool, IoError>(IoError::StoreClosed)),
        persist_op(v, key) == (v, Err::<bool, IoError>(IoError::StoreClosed)),
        clear_op(v) == (v, Err::<(), IoError>(IoError::StoreClosed)),
        compact_op(v, now) == (v, Err::<u64, IoError>(IoError::StoreClosed)),
        tx_begin_op(v) == (v, Err::<(), IoError>(IoError::StoreClosed)),
        v.tx matches Some(t) && v.had_log && t.staged.len() > 0 ==> tx_commit_op(v) == (
            v.with_map(rolled_back(v)).with_tx(None),
            Err::<(), IoError>(IoError::StoreClosed),
        ),
        v.tx is Some && !v.had_log && v.log is None ==> tx_commit_op(v) == (
            v.with_tx(None),
            Ok::<(), IoError>(()),
        ),
        push_op(v, key, blob, front, now) == (
            v,
            Err::<u32, ListError>(ListError::Io(IoError::StoreClosed)),
        ),
        pop_op(v, key, front, now) == (
            v,
            Err::<Option<Seq<u8>>, ListError>(ListError::Io(IoError::StoreClosed)),
        ),
        hset_op(v, key, field, blob, now) == (
            v,
            Err::<bool, ListError>(ListError::Io(IoError::StoreClosed)),
        ),
        hdel_op(v, key, field, now) == (
            v,
            Err::<bool, ListError>(ListError::Io(IoError::StoreClosed)),
        ),
        sadd_op(v, key, blob, now) == (
            v,
            Err::<bool, ListError>(ListError::Io(IoError::StoreClosed)),
        ),
        srem_op(v, key, blob, now) == (
            v,
            Err::<bool, ListError>(ListError::Io(IoError::StoreClosed)),
        ),
        zadd_op(v, key, score, blob, now) == (
            v,
            Err::<bool, ZAddError>(ZAddError::Io(IoError::StoreClosed)),
        ),
        zincrby_op(v, key, score, sum, blob, now) == (
            v,
            Err::<u64, ZAddError>(ZAddError::Io(IoError::StoreClosed)),
        ),
        zrem_op(v, key, blob, now) == (
            v,
            Err::<bool, ListError>(ListError::Io(IoError::StoreClosed)),
        ),
{
}

/// Closing keeps what the keys hold, an open transaction and what is owed to the log, and
/// whether there was one; closing again does nothing more.
pub proof fn closing_is_idempotent(v: StoreView)
    ensures
        close_op(v).had_log == (v.had_log || v.log is Some),
        close_op(v).map == v.map,
        close_op(v).tx == v.tx,
        close_op(v).owed == v.owed,
        close_op(v).closed && close_op(v).log is None,
        close_op(close_op(v)) == close_op(v),
{
}

/// No operation leaves an empty collection behind, and neither does a rollback: a key
/// whose collection has become empty is gone.
pub proof fn no_empty_collections(v: StoreView, c: Command, now: u64)
    requires
        all_filled(v.map),
        all_filled(rolled_back(v)),
    ensures
        all_filled(run(v, c, now).map),
        all_filled(rolled_back(run(v, c, now))),
        all_filled(tx_rollback_op(v).0.map),
{
    if v.closed && is_mutation(c) {
        closed_store_refuses(v, c, now);
    } else {
        run_shape(v, c, now);
        match purged_key(c) {
            Some(key) => purge_map(v, key, now),
            None => if c is Sweep {
                purge_each_map(v, dead_keys(ordered::<String, EntryView>(v.map), now), now);
            },
        }
        let w = cleaned(v, c, now);
        assert(all_filled(w.map));
        effect_filled(w.map, c, now);
        effect_can_be_rolled_back(w, c, now);
        if v.tx is Some {
            step_can_be_rolled_back(v, c, now);
        }
    }
}

/// The keys that are listed are those that have not expired, each once and in order.
pub proof fn keys_are_live(m: State, now: u64, i: int, j: int, key: Seq<char>)
    requires
        m.dom().finite(),
    ensures
        keys_of(live(m, now)).contains(key) <==> m.contains_key(key) && !expired(m[key], now),
        0 <= i < j < keys_of(live(m, now)).len() ==> <String as Key>::before(
            keys_of(live(m, now))[i],
            keys_of(live(m, now))[j],
        ),
{
    let lv = live(m, now);
    assert(lv.dom().subset_of(m.dom()));
    vstd::set_lib::lemma_set_subset_finite(m.dom(), lv.dom());
    ordered_exists::<String, EntryView>(lv);
    let o = ordered::<String, EntryView>(lv);
    let ks = keys_of(lv);
    if ks.contains(key) {
        let a = choose|a: int| 0 <= a < ks.len() && ks[a] == key;
        assert(lv.contains_key(o[a].0));
    }
    if lv.contains_key(key) {
        let a = choose|a: int| 0 <= a < o.len() && #[trigger] o[a].0 == key;
        assert(ks[a] == key);
    }
    if 0 <= i < j < ks.len() {
        assert(<String as Key>::before(o[i].0, o[j].0));
    }
}

/// Sweeping takes out what no reader could see.
pub proof fn sweeping_is_unseen(v: StoreView, now: u64, t: u64)
    requires
        v.map.dom().finite(),
        now <= t,
    ensures
        sweep_op(v, now).map == live(v.map, now),
        live(sweep_op(v, now).map, t) == live(v.map, t),
{
    ordered_exists::<String, EntryView>(v.map);
    sweep_map_is_live(v, now);
    assert(live(live(v.map, now), t) =~= live(v.map, t));
}

} // verus!
