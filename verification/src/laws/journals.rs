//! What the operations journal: each mutation that changes something is recorded once, and
//! nothing else is.

use vstd::prelude::*;
use crate::expiry::{dead_keys, dead_keys_are, expiry_in, expiry_of_ttl};
use crate::laws::commands::{run, Command};
use crate::laws::keys::{after_ms, held, reading_takes_out_what_expired};
use crate::laws::orders::bits_tell_numbers;
use crate::laws::sorted_sets::{finite_number, no_number};
use crate::log::{frame, frames, LogWriteView};
use crate::model::{purge_each, StoreView};
use crate::mutate::{
    hdel_step, hset_step, pop_step, push_step, sadd_step, srem_step, with_bytes, with_expiry,
    with_value, zadd_step, zrem_step, zset_at,
};
use crate::record::{record, Op};
use crate::sorted_map::{ordered, ordered_exists};
use crate::value::{EntryView, State, ValueView};

verus! {

/// The records of mutations.
pub open spec fn records_for(ops: Seq<Op>) -> Seq<Seq<u8>> {
    Seq::new(ops.len(), |i: int| record(ops[i]))
}

/// Whether `w` is a store that has journalled just these mutations since `v`: they wait for
/// the commit of an open transaction, else they are owed to the log, behind what is owed
/// already, and forced to the disk if the log is. Nothing but the keys and what the
/// transaction has noted is otherwise changed.
pub open spec fn has_journalled(v: StoreView, w: StoreView, ops: Seq<Op>) -> bool {
    &&& w.closed == v.closed
    &&& w.had_log == v.had_log
    &&& match v.tx {
        Some(t) => {
            &&& w.log == v.log
            &&& w.owed == v.owed
            &&& w.tx matches Some(u) && u.staged == t.staged + records_for(ops)
        },
        None => {
            &&& w.tx is None
            &&& match v.log {
                Some(a) => {
                    &&& w.log matches Some(b) && b.fsync == a.fsync
                    &&& w.owed == LogWriteView {
                        base: v.owed.base,
                        bytes: v.owed.bytes + frames(records_for(ops)),
                        sync: v.owed.sync || a.fsync && ops.len() > 0,
                    }
                },
                None => w.log is None && w.owed == v.owed,
            }
        },
    }
}

/// What a mutation of a structure records first: that its key is gone, if its time of expiry
/// has come.
pub open spec fn first_told(m: State, key: Seq<char>, now: u64) -> Seq<Op> {
    if m.contains_key(key) && held(m, key, now) is None {
        seq![Op::Del { key }]
    } else {
        Seq::empty()
    }
}

/// One mutation, or none.
pub open spec fn told_if(b: bool, op: Op) -> Seq<Op> {
    if b {
        seq![op]
    } else {
        Seq::empty()
    }
}

proof fn nothing_journalled(v: StoreView)
    ensures
        has_journalled(v, v, Seq::empty()),
{
    let none = records_for(Seq::empty());
    assert(none =~= Seq::<Seq<u8>>::empty());
    assert(v.owed.bytes + Seq::<u8>::empty() =~= v.owed.bytes);
    match v.tx {
        Some(t) => assert(t.staged + none =~= t.staged),
        None => {},
    }
}

proof fn one_more_journalled(v: StoreView, w: StoreView, ops: Seq<Op>, op: Op)
    requires
        has_journalled(v, w, ops),
        !v.closed,
    ensures
        has_journalled(v, w.journal(op), ops + seq![op]),
{
    let a = records_for(ops);
    let b = records_for(ops + seq![op]);
    assert(b.drop_last() =~= a);
    assert(b =~= a.push(record(op)));
    match v.tx {
        Some(t) => assert(t.staged + a.push(record(op)) =~= (t.staged + a).push(record(op))),
        None => assert(v.owed.bytes + (frames(a) + frame(record(op))) =~= v.owed.bytes + frames(a)
            + frame(record(op))),
    }
}

proof fn told_first(v: StoreView, key: Seq<char>, now: u64)
    requires
        !v.closed,
    ensures
        has_journalled(v, v.purge(key, now), first_told(v.map, key, now)),
        has_journalled(v, v.purge(key, now).note(key), first_told(v.map, key, now)),
{
    nothing_journalled(v);
    let w = v.note(key);
    let gone = w.with_map(w.map.remove(key));
    one_more_journalled(v, gone, Seq::empty(), Op::Del { key });
    assert(Seq::<Op>::empty() + seq![Op::Del { key }] =~= seq![Op::Del { key }]);
}

/// Reading a key records that it is gone, if its time of expiry has come, and nothing else.
pub proof fn reading_is_journalled(v: StoreView, key: Seq<char>, now: u64)
    requires
        !v.closed,
    ensures
        has_journalled(v, run(v, Command::Read { key }, now), first_told(v.map, key, now)),
{
    told_first(v, key, now);
}

proof fn expiry_is_after_ms(ttl_ms: Option<i64>, ms: i64, now: u64)
    ensures
        expiry_of_ttl(ttl_ms, now) == (match ttl_ms {
            Some(ms) => if ms > 0 {
                Some(after_ms(now, ms as int))
            } else {
                None
            },
            None => None,
        }),
        expiry_in(ms, now) == after_ms(
            now,
            if ms > 0 {
                ms as int
            } else {
                0
            },
        ),
{
}

/// Setting records itself always, and so does clearing.
pub proof fn setting_is_journalled(
    v: StoreView,
    key: Seq<char>,
    value: Seq<u8>,
    ttl_ms: Option<i64>,
    now: u64,
)
    requires
        !v.closed,
    ensures
        ({
            let expire_at = match ttl_ms {
                Some(ms) => if ms > 0 {
                    Some(after_ms(now, ms as int))
                } else {
                    None
                },
                None => None,
            };
            has_journalled(
                v,
                run(v, Command::Put { key, value, ttl_ms }, now),
                seq![Op::Put { key, value, expire_at }],
            )
        }),
        has_journalled(v, run(v, Command::Clear, now), seq![Op::Clear]),
{
    nothing_journalled(v);
    let w = v.note(key);
    let none = Seq::<Op>::empty();
    let expire_at = expiry_of_ttl(ttl_ms, now);
    let put = Op::Put { key, value, expire_at };
    one_more_journalled(v, w.with_map(with_bytes(w.map, key, value, expire_at)), none, put);
    assert(none + seq![put] =~= seq![put]);
    expiry_is_after_ms(ttl_ms, 0, now);
    let w_set = w.with_map(with_bytes(w.map, key, value, expire_at)).journal(put);
    assert(run(v, Command::Put { key, value, ttl_ms }, now) == w_set);
    one_more_journalled(v, v.note_all().with_map(Map::empty()), none, Op::Clear);
    assert(none + seq![Op::Clear] =~= seq![Op::Clear]);
}

/// Deleting a key records itself if the key is there.
pub proof fn deleting_is_journalled(v: StoreView, key: Seq<char>, now: u64)
    requires
        !v.closed,
    ensures
        has_journalled(
            v,
            run(v, Command::Del { key }, now),
            told_if(v.map.contains_key(key), Op::Del { key }),
        ),
{
    nothing_journalled(v);
    let w = v.note(key);
    let none = Seq::<Op>::empty();
    one_more_journalled(v, w.with_map(w.map.remove(key)), none, Op::Del { key });
    assert(none + seq![Op::Del { key }] =~= seq![Op::Del { key }]);
}

/// Setting or lifting the time of expiry of a key records itself if the key is there.
pub proof fn expiry_is_journalled(v: StoreView, key: Seq<char>, ms: i64, now: u64)
    requires
        !v.closed,
    ensures
        ({
            let at = after_ms(
                now,
                if ms > 0 {
                    ms as int
                } else {
                    0
                },
            );
            has_journalled(
                v,
                run(v, Command::Expire { key, ms }, now),
                told_if(v.map.contains_key(key), Op::Expire { key, at }),
            )
        }),
        has_journalled(
            v,
            run(v, Command::Persist { key }, now),
            told_if(v.map.contains_key(key), Op::Persist { key }),
        ),
{
    nothing_journalled(v);
    let w = v.note(key);
    let none = Seq::<Op>::empty();
    let at = expiry_in(ms, now);
    let expire = Op::Expire { key, at };
    one_more_journalled(v, w.with_map(with_expiry(w.map, key, Some(at))), none, expire);
    assert(none + seq![expire] =~= seq![expire]);
    expiry_is_after_ms(None, ms, now);
    let persist = Op::Persist { key };
    one_more_journalled(v, w.with_map(with_expiry(w.map, key, None)), none, persist);
    assert(none + seq![persist] =~= seq![persist]);
}

/// Pushing and popping record themselves if the key holds a list; a push also if it holds
/// nothing, a pop only if an element came out.
pub proof fn list_mutations_are_journalled(
    v: StoreView,
    key: Seq<char>,
    value: Seq<u8>,
    front: bool,
    now: u64,
)
    requires
        !v.closed,
    ensures
        has_journalled(
            v,
            run(v, Command::Push { key, value, front }, now),
            first_told(v.map, key, now) + told_if(
                match held(v.map, key, now) {
                    Some(e) => match e.value {
                        ValueView::List(_) => true,
                        _ => false,
                    },
                    None => true,
                },
                Op::Push { key, value, front },
            ),
        ),
        has_journalled(
            v,
            run(v, Command::Pop { key, front }, now),
            first_told(v.map, key, now) + told_if(
                match held(v.map, key, now) {
                    Some(e) => match e.value {
                        ValueView::List(l) => l.len() > 0,
                        _ => false,
                    },
                    None => false,
                },
                Op::Pop { key, front },
            ),
        ),
{
    told_first(v, key, now);
    reading_takes_out_what_expired(v, key, now);
    let first = first_told(v.map, key, now);
    let w = v.purge(key, now).note(key);
    one_more_journalled(
        v,
        w.with_map(push_step(w.map, key, value, front).0),
        first,
        Op::Push { key, value, front },
    );
    one_more_journalled(
        v,
        w.with_map(pop_step(w.map, key, front).0),
        first,
        Op::Pop { key, front },
    );
    assert(first + Seq::<Op>::empty() =~= first);
    assert(w.with_map(w.map) =~= w);
}

/// Setting a field records itself if the key holds a hash or nothing, deleting one if it was
/// there.
pub proof fn hash_mutations_are_journalled(
    v: StoreView,
    key: Seq<char>,
    field: Seq<char>,
    value: Seq<u8>,
    now: u64,
)
    requires
        !v.closed,
    ensures
        has_journalled(
            v,
            run(v, Command::HSet { key, field, value }, now),
            first_told(v.map, key, now) + told_if(
                match held(v.map, key, now) {
                    Some(e) => match e.value {
                        ValueView::Hash(_) => true,
                        _ => false,
                    },
                    None => true,
                },
                Op::HSet { key, field, value },
            ),
        ),
        has_journalled(
            v,
            run(v, Command::HDel { key, field }, now),
            first_told(v.map, key, now) + told_if(
                match held(v.map, key, now) {
                    Some(e) => match e.value {
                        ValueView::Hash(h) => h.contains_key(field),
                        _ => false,
                    },
                    None => false,
                },
                Op::HDel { key, field },
            ),
        ),
{
    told_first(v, key, now);
    reading_takes_out_what_expired(v, key, now);
    let first = first_told(v.map, key, now);
    let w = v.purge(key, now).note(key);
    one_more_journalled(
        v,
        w.with_map(hset_step(w.map, key, field, value).0),
        first,
        Op::HSet { key, field, value },
    );
    one_more_journalled(
        v,
        w.with_map(hdel_step(w.map, key, field).0),
        first,
        Op::HDel { key, field },
    );
    assert(first + Seq::<Op>::empty() =~= first);
    assert(w.with_map(w.map) =~= w);
}

/// Adding a member records itself if the key holds a set or nothing, removing one if it was
/// there.
pub proof fn set_mutations_are_journalled(
    v: StoreView,
    key: Seq<char>,
    member: Seq<u8>,
    now: u64,
)
    requires
        !v.closed,
    ensures
        has_journalled(
            v,
            run(v, Command::SAdd { key, member }, now),
            first_told(v.map, key, now) + told_if(
                match held(v.map, key, now) {
                    Some(e) => match e.value {
                        ValueView::Members(_) => true,
                        _ => false,
                    },
                    None => true,
                },
                Op::SAdd { key, member },
            ),
        ),
        has_journalled(
            v,
            run(v, Command::SRem { key, member }, now),
            first_told(v.map, key, now) + told_if(
                match held(v.map, key, now) {
                    Some(e) => match e.value {
                        ValueView::Members(s) => s.contains(member),
                        _ => false,
                    },
                    None => false,
                },
                Op::SRem { key, member },
            ),
        ),
{
    told_first(v, key, now);
    reading_takes_out_what_expired(v, key, now);
    let first = first_told(v.map, key, now);
    let w = v.purge(key, now).note(key);
    one_more_journalled(
        v,
        w.with_map(sadd_step(w.map, key, member).0),
        first,
        Op::SAdd { key, member },
    );
    one_more_journalled(
        v,
        w.with_map(srem_step(w.map, key, member).0),
        first,
        Op::SRem { key, member },
    );
    assert(first + Seq::<Op>::empty() =~= first);
    assert(w.with_map(w.map) =~= w);
}

/// Adding a member records itself if the key holds a sorted set or nothing and the score is
/// a number, removing one if it was there. An increment records the score that it came to.
pub proof fn zset_mutations_are_journalled(
    v: StoreView,
    key: Seq<char>,
    score: u64,
    delta: u64,
    sum: u64,
    member: Seq<u8>,
    now: u64,
)
    requires
        !v.closed,
    ensures
        has_journalled(
            v,
            run(v, Command::ZAdd { key, score, member }, now),
            first_told(v.map, key, now) + told_if(
                !no_number(score) && match held(v.map, key, now) {
                    Some(e) => match e.value {
                        ValueView::ZSet(_) => true,
                        _ => false,
                    },
                    None => true,
                },
                Op::ZAdd { key, score, member },
            ),
        ),
        has_journalled(
            v,
            run(v, Command::ZRem { key, member }, now),
            first_told(v.map, key, now) + told_if(
                match held(v.map, key, now) {
                    Some(e) => match e.value {
                        ValueView::ZSet(z) => z.contains_key(member),
                        _ => false,
                    },
                    None => false,
                },
                Op::ZRem { key, member },
            ),
        ),
        ({
            let came_to = if held(v.map, key, now) is Some {
                sum
            } else {
                delta
            };
            has_journalled(
                v,
                run(v, Command::ZIncrBy { key, delta, sum, member }, now),
                first_told(v.map, key, now) + told_if(
                    finite_number(came_to) && match held(v.map, key, now) {
                        Some(e) => e.value is ZSet,
                        None => true,
                    },
                    Op::ZAdd { key, score: came_to, member },
                ),
            )
        }),
{
    bits_tell_numbers(score);
    bits_tell_numbers(delta);
    bits_tell_numbers(sum);
    told_first(v, key, now);
    reading_takes_out_what_expired(v, key, now);
    let first = first_told(v.map, key, now);
    let w = v.purge(key, now).note(key);
    one_more_journalled(
        v,
        w.with_map(zadd_step(w.map, key, score, member).0),
        first,
        Op::ZAdd { key, score, member },
    );
    one_more_journalled(
        v,
        w.with_map(zrem_step(w.map, key, member).0),
        first,
        Op::ZRem { key, member },
    );
    let came_to = if held(v.map, key, now) is Some {
        sum
    } else {
        delta
    };
    match zset_at(w.map, key) {
        Some(z) => one_more_journalled(
            v,
            w.with_map(with_value(w.map, key, ValueView::ZSet(z.insert(member, came_to)))),
            first,
            Op::ZAdd { key, score: came_to, member },
        ),
        None => {},
    }
    assert(first + Seq::<Op>::empty() =~= first);
    assert(w.with_map(w.map) =~= w);
}

/// Whether the mutations delete keys whose time of expiry has come, each once.
pub open spec fn deletes_expired(m: State, now: u64, ops: Seq<Op>) -> bool {
    &&& forall|i: int|
        0 <= i < ops.len() ==> (#[trigger] ops[i] matches Op::Del { key } && m.contains_key(key)
            && held(m, key, now) is None)
    &&& forall|i: int, j: int| 0 <= i < j < ops.len() ==> #[trigger] ops[i] != #[trigger] ops[j]
}

proof fn purging_is_journalled(
    v: StoreView,
    w: StoreView,
    ops: Seq<Op>,
    keys: Seq<Seq<char>>,
    now: u64,
) -> (out: Seq<Op>)
    requires
        !v.closed,
        has_journalled(v, w, ops),
    ensures
        has_journalled(v, purge_each(w, keys, now), ops + out),
        deletes_expired(w.map, now, out),
        forall|k: Seq<char>| #[trigger]
            keys.contains(k) && w.map.contains_key(k) && held(w.map, k, now) is None
                ==> out.contains(Op::Del { key: k }),
    decreases keys.len(),
{
    if keys.len() == 0 {
        assert(ops + Seq::<Op>::empty() =~= ops);
        Seq::empty()
    } else {
        let key = keys.last();
        let init = keys.drop_last();
        let u = w.purge(key, now);
        let first = first_told(w.map, key, now);
        reading_takes_out_what_expired(w, key, now);
        if first.len() > 0 {
            let n = w.note(key);
            one_more_journalled(v, n.with_map(n.map.remove(key)), ops, Op::Del { key });
        } else {
            assert(ops + first =~= ops);
        }
        let rest = purging_is_journalled(v, u, ops + first, init, now);
        let out = first + rest;
        assert(ops + first + rest =~= ops + out);
        assert forall|i: int| 0 <= i < out.len() implies (#[trigger] out[i] matches Op::Del {
            key,
        } && w.map.contains_key(key) && held(w.map, key, now) is None) by {
            if i >= first.len() {
                assert(out[i] == rest[i - first.len()]);
            }
        }
        assert forall|i: int, j: int| 0 <= i < j < out.len() implies #[trigger] out[i]
            != #[trigger] out[j] by {
            assert(out[j] == rest[j - first.len()]);
            if i >= first.len() {
                assert(out[i] == rest[i - first.len()]);
            }
        }
        assert forall|k: Seq<char>| #[trigger]
            keys.contains(k) && w.map.contains_key(k) && held(w.map, k, now)
                is None implies out.contains(Op::Del { key: k }) by {
            if k == key {
                assert(out[0] == Op::Del { key: k });
            } else {
                let i = choose|i: int| 0 <= i < keys.len() && keys[i] == k;
                assert(init[i] == k);
                assert(init.contains(k));
                let j = choose|j: int| 0 <= j < rest.len() && rest[j] == Op::Del { key: k };
                assert(out[first.len() + j] == Op::Del { key: k });
            }
        }
        out
    }
}

/// Sweeping records of each key whose time of expiry has come that it is gone, once, and
/// nothing else.
pub proof fn sweeping_is_journalled(v: StoreView, now: u64)
    requires
        !v.closed,
        v.map.dom().finite(),
    ensures
        exists|ops: Seq<Op>| #[trigger]
            has_journalled(v, run(v, Command::Sweep, now), ops) && deletes_expired(
                v.map,
                now,
                ops,
            ) && forall|k: Seq<char>| #[trigger]
                v.map.contains_key(k) && held(v.map, k, now) is None ==> ops.contains(
                    Op::Del { key: k },
                ),
{
    let l = ordered::<String, EntryView>(v.map);
    let keys = dead_keys(l, now);
    ordered_exists::<String, EntryView>(v.map);
    dead_keys_are(l, now);
    nothing_journalled(v);
    let ops = purging_is_journalled(v, v, Seq::empty(), keys, now);
    assert(Seq::<Op>::empty() + ops =~= ops);
    assert forall|k: Seq<char>| #[trigger]
        v.map.contains_key(k) && held(v.map, k, now) is None implies ops.contains(
        Op::Del { key: k },
    ) by {
        let i = choose|i: int| 0 <= i < l.len() && #[trigger] l[i].0 == k;
        assert(l[i].1 == v.map[k]);
        assert(keys.contains(l[i].0));
    }
    assert(has_journalled(v, run(v, Command::Sweep, now), ops));
}

} // verus!
