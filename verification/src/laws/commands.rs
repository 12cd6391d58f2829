//! The operations of a store as one type, and what each of them does: which keys it
//! touches, what becomes of the state, and what it journals.

use vstd::prelude::*;
use crate::expiry::{expiry_in, expiry_of_ttl};
use crate::model::{
    clear_op, del_op, expire_op, hdel_op, hset_op, persist_op, pop_op, push_op, sadd_op, set_op,
    srem_op, sweep_op, zadd_op, zincrby_op, zrem_op, StoreView,
};
use crate::mutate::{
    hash_at, hdel_step, hset_step, list_at, pop_step, push_step, sadd_step, set_at, srem_step,
    with_bytes, with_expiry, with_value, zadd_step, zrem_step, zset_at,
};
use crate::record::Op;
use crate::replay::apply_op;
use crate::score::is_finite;
use crate::value::{sound_value, EntryView, State, ValueView};

verus! {

/// An operation of a store. `Read` stands for each of those that only read a key; they
/// take it out where it has expired.
pub enum Command {
    Put { key: Seq<char>, value: Seq<u8>, ttl_ms: Option<i64> },
    Del { key: Seq<char> },
    Expire { key: Seq<char>, ms: i64 },
    Persist { key: Seq<char> },
    Clear,
    Push { key: Seq<char>, value: Seq<u8>, front: bool },
    Pop { key: Seq<char>, front: bool },
    HSet { key: Seq<char>, field: Seq<char>, value: Seq<u8> },
    HDel { key: Seq<char>, field: Seq<char> },
    SAdd { key: Seq<char>, member: Seq<u8> },
    SRem { key: Seq<char>, member: Seq<u8> },
    ZAdd { key: Seq<char>, score: u64, member: Seq<u8> },
    ZIncrBy { key: Seq<char>, delta: u64, sum: u64, member: Seq<u8> },
    ZRem { key: Seq<char>, member: Seq<u8> },
    Read { key: Seq<char> },
    Sweep,
}

/// The store after an operation at the time `now`.
pub open spec fn run(v: StoreView, c: Command, now: u64) -> StoreView {
    match c {
        Command::Put { key, value, ttl_ms } => set_op(v, key, value, ttl_ms, now).0,
        Command::Del { key } => del_op(v, key).0,
        Command::Expire { key, ms } => expire_op(v, key, ms, now).0,
        Command::Persist { key } => persist_op(v, key).0,
        Command::Clear => clear_op(v).0,
        Command::Push { key, value, front } => push_op(v, key, value, front, now).0,
        Command::Pop { key, front } => pop_op(v, key, front, now).0,
        Command::HSet { key, field, value } => hset_op(v, key, field, value, now).0,
        Command::HDel { key, field } => hdel_op(v, key, field, now).0,
        Command::SAdd { key, member } => sadd_op(v, key, member, now).0,
        Command::SRem { key, member } => srem_op(v, key, member, now).0,
        Command::ZAdd { key, score, member } => zadd_op(v, key, score, member, now).0,
        Command::ZIncrBy { key, delta, sum, member } => zincrby_op(
            v,
            key,
            delta,
            sum,
            member,
            now,
        ).0,
        Command::ZRem { key, member } => zrem_op(v, key, member, now).0,
        Command::Read { key } => v.purge(key, now),
        Command::Sweep => sweep_op(v, now),
    }
}

/// The store after several operations, each at its time.
pub open spec fn run_all(v: StoreView, cs: Seq<(Command, u64)>) -> StoreView
    decreases cs.len(),
{
    if cs.len() == 0 {
        v
    } else {
        run(run_all(v, cs.drop_last()), cs.last().0, cs.last().1)
    }
}

/// Whether an operation is a mutation, which a closed store refuses.
pub open spec fn is_mutation(c: Command) -> bool {
    !(c is Read) && !(c is Sweep)
}

/// The key that an operation is about, if it is about one.
pub open spec fn key_of(c: Command) -> Option<Seq<char>> {
    match c {
        Command::Put { key, .. } => Some(key),
        Command::Del { key } => Some(key),
        Command::Expire { key, .. } => Some(key),
        Command::Persist { key } => Some(key),
        Command::Clear => None,
        Command::Push { key, .. } => Some(key),
        Command::Pop { key, .. } => Some(key),
        Command::HSet { key, .. } => Some(key),
        Command::HDel { key, .. } => Some(key),
        Command::SAdd { key, .. } => Some(key),
        Command::SRem { key, .. } => Some(key),
        Command::ZAdd { key, .. } => Some(key),
        Command::ZIncrBy { key, .. } => Some(key),
        Command::ZRem { key, .. } => Some(key),
        Command::Read { key } => Some(key),
        Command::Sweep => None,
    }
}

/// The key that an operation takes out first, if it has expired.
pub open spec fn purged_key(c: Command) -> Option<Seq<char>> {
    match c {
        Command::Put { .. } => None,
        Command::Del { .. } => None,
        Command::Expire { .. } => None,
        Command::Persist { .. } => None,
        _ => key_of(c),
    }
}

/// What an operation does first: it takes out what has expired, the key that it is about
/// or, for a sweep, every one.
pub open spec fn cleaned(v: StoreView, c: Command, now: u64) -> StoreView {
    match purged_key(c) {
        Some(key) => v.purge(key, now),
        None => if c is Sweep {
            sweep_op(v, now)
        } else {
            v
        },
    }
}

/// What an operation does next: an open transaction notes what the keys hold that it is
/// about to change.
pub open spec fn noted(v: StoreView, c: Command) -> StoreView {
    match c {
        Command::Clear => v.note_all(),
        Command::Read { .. } => v,
        Command::Sweep => v,
        _ => v.note(key_of(c).unwrap()),
    }
}

/// What an operation makes of the state, and what it journals.
pub open spec fn effect(m: State, c: Command, now: u64) -> (State, Option<Op>) {
    match c {
        Command::Put { key, value, ttl_ms } => {
            let expire_at = expiry_of_ttl(ttl_ms, now);
            (with_bytes(m, key, value, expire_at), Some(Op::Put { key, value, expire_at }))
        },
        Command::Del { key } => if m.contains_key(key) {
            (m.remove(key), Some(Op::Del { key }))
        } else {
            (m, None)
        },
        Command::Expire { key, ms } => {
            let at = expiry_in(ms, now);
            if m.contains_key(key) {
                (with_expiry(m, key, Some(at)), Some(Op::Expire { key, at }))
            } else {
                (m, None)
            }
        },
        Command::Persist { key } => if m.contains_key(key) {
            (with_expiry(m, key, None), Some(Op::Persist { key }))
        } else {
            (m, None)
        },
        Command::Clear => (Map::empty(), Some(Op::Clear)),
        Command::Push { key, value, front } => match push_step(m, key, value, front) {
            (n, Ok(_)) => (n, Some(Op::Push { key, value, front })),
            (n, Err(_)) => (m, None),
        },
        Command::Pop { key, front } => match pop_step(m, key, front) {
            (n, Ok(Some(_))) => (n, Some(Op::Pop { key, front })),
            (n, Ok(None)) => (n, None),
            (n, Err(_)) => (m, None),
        },
        Command::HSet { key, field, value } => match hset_step(m, key, field, value) {
            (n, Ok(_)) => (n, Some(Op::HSet { key, field, value })),
            (n, Err(_)) => (m, None),
        },
        Command::HDel { key, field } => match hdel_step(m, key, field) {
            (n, Ok(true)) => (n, Some(Op::HDel { key, field })),
            (n, Ok(false)) => (n, None),
            (n, Err(_)) => (m, None),
        },
        Command::SAdd { key, member } => match sadd_step(m, key, member) {
            (n, Ok(_)) => (n, Some(Op::SAdd { key, member })),
            (n, Err(_)) => (m, None),
        },
        Command::SRem { key, member } => match srem_step(m, key, member) {
            (n, Ok(true)) => (n, Some(Op::SRem { key, member })),
            (n, Ok(false)) => (n, None),
            (n, Err(_)) => (m, None),
        },
        Command::ZAdd { key, score, member } => match zadd_step(m, key, score, member) {
            (n, Ok(_)) => (n, Some(Op::ZAdd { key, score, member })),
            (n, Err(_)) => (m, None),
        },
        Command::ZIncrBy { key, delta, sum, member } => {
            let score = if m.contains_key(key) {
                sum
            } else {
                delta
            };
            match zset_at(m, key) {
                Some(z) => if !is_finite(score) {
                    (m, None)
                } else {
                    (
                        with_value(m, key, ValueView::ZSet(z.insert(member, score))),
                        Some(Op::ZAdd { key, score, member }),
                    )
                },
                None => (m, None),
            }
        },
        Command::ZRem { key, member } => match zrem_step(m, key, member) {
            (n, Ok(true)) => (n, Some(Op::ZRem { key, member })),
            (n, Ok(false)) => (n, None),
            (n, Err(_)) => (m, None),
        },
        Command::Read { key } => (m, None),
        Command::Sweep => (m, None),
    }
}

/// What is journalled, if anything.
pub open spec fn journal_opt(v: StoreView, op: Option<Op>) -> StoreView {
    match op {
        Some(op) => v.journal(op),
        None => v,
    }
}

/// A closed store refuses every mutation and stays as it is; what only reads goes on
/// as before.
pub proof fn closed_store_refuses(v: StoreView, c: Command, now: u64)
    requires
        v.closed,
        is_mutation(c),
    ensures
        run(v, c, now) == v,
{
}

/// Whether an operation takes out what has expired, notes, changes the state and journals,
/// in that order.
pub open spec fn has_shape(v: StoreView, c: Command, now: u64) -> bool {
    let w = cleaned(v, c, now);
    let (n, op) = effect(w.map, c, now);
    run(v, c, now) == journal_opt(noted(w, c).with_map(n), op)
}

#[verifier::rlimit(30)]
#[verifier::spinoff_prover]
proof fn key_shape(v: StoreView, c: Command, now: u64)
    requires
        !v.closed || !is_mutation(c),
        c is Put || c is Del || c is Expire || c is Persist || c is Clear,
    ensures
        has_shape(v, c, now),
{
    let w = noted(cleaned(v, c, now), c);
    let (n, op) = effect(w.map, c, now);
    assert(w.with_map(w.map) =~= w);
    assert(run(v, c, now) =~= journal_opt(w.with_map(n), op));
}

#[verifier::rlimit(30)]
#[verifier::spinoff_prover]
proof fn list_shape(v: StoreView, c: Command, now: u64)
    requires
        !v.closed || !is_mutation(c),
        c is Push || c is Pop || c is Read || c is Sweep,
    ensures
        has_shape(v, c, now),
{
    let w = noted(cleaned(v, c, now), c);
    let (n, op) = effect(w.map, c, now);
    assert(w.with_map(w.map) =~= w);
    assert(run(v, c, now) =~= journal_opt(w.with_map(n), op));
}

#[verifier::rlimit(30)]
#[verifier::spinoff_prover]
proof fn hash_shape(v: StoreView, c: Command, now: u64)
    requires
        !v.closed || !is_mutation(c),
        c is HSet || c is HDel,
    ensures
        has_shape(v, c, now),
{
    let w = noted(cleaned(v, c, now), c);
    let (n, op) = effect(w.map, c, now);
    assert(w.with_map(w.map) =~= w);
    assert(run(v, c, now) =~= journal_opt(w.with_map(n), op));
}

#[verifier::rlimit(30)]
#[verifier::spinoff_prover]
proof fn set_shape(v: StoreView, c: Command, now: u64)
    requires
        !v.closed || !is_mutation(c),
        c is SAdd || c is SRem,
    ensures
        has_shape(v, c, now),
{
    let w = noted(cleaned(v, c, now), c);
    let (n, op) = effect(w.map, c, now);
    assert(w.with_map(w.map) =~= w);
    assert(run(v, c, now) =~= journal_opt(w.with_map(n), op));
}

#[verifier::rlimit(30)]
#[verifier::spinoff_prover]
proof fn zset_shape(v: StoreView, c: Command, now: u64)
    requires
        !v.closed || !is_mutation(c),
        c is ZAdd || c is ZIncrBy || c is ZRem,
    ensures
        has_shape(v, c, now),
{
    let w = noted(cleaned(v, c, now), c);
    let (n, op) = effect(w.map, c, now);
    assert(w.with_map(w.map) =~= w);
    assert(run(v, c, now) =~= journal_opt(w.with_map(n), op));
}

/// Every operation on an open store takes out what has expired, notes, changes the state
/// and journals, in that order.
pub proof fn run_shape(v: StoreView, c: Command, now: u64)
    requires
        !v.closed || !is_mutation(c),
    ensures
        has_shape(v, c, now),
{
    if c is HSet || c is HDel {
        hash_shape(v, c, now);
    } else if c is SAdd || c is SRem {
        set_shape(v, c, now);
    } else if c is ZAdd || c is ZIncrBy || c is ZRem {
        zset_shape(v, c, now);
    } else if c is Push || c is Pop || c is Read || c is Sweep {
        list_shape(v, c, now);
    } else {
        key_shape(v, c, now);
    }
}

/// Whether two states agree on every key but one.
pub open spec fn same_but(m: State, n: State, key: Seq<char>) -> bool {
    forall|k: Seq<char>|
        k != key ==> (#[trigger] m.contains_key(k) == n.contains_key(k)) && (m.contains_key(k)
            ==> m[k] == n[k])
}

/// An operation about one key leaves every other key as it was.
#[verifier::rlimit(40)]
#[verifier::spinoff_prover]
pub proof fn other_keys_untouched(v: StoreView, c: Command, now: u64, key: Seq<char>)
    requires
        key_of(c) == Some(key),
    ensures
        same_but(v.map, run(v, c, now).map, key),
{
    if v.closed && is_mutation(c) {
        closed_store_refuses(v, c, now);
    } else {
        run_shape(v, c, now);
        effect_keeps_others(cleaned(v, c, now).map, c, now, key);
    }
}

/// Whether a state comes from another by a change at one key.
pub open spec fn at_key(m: State, n: State, key: Seq<char>) -> bool {
    n == m || n == m.remove(key) || n == m.insert(key, n[key])
}

proof fn list_steps_at_key(m: State, key: Seq<char>, value: Seq<u8>, front: bool)
    ensures
        at_key(m, push_step(m, key, value, front).0, key),
        at_key(m, pop_step(m, key, front).0, key),
{
}

proof fn hash_steps_at_key(m: State, key: Seq<char>, field: Seq<char>, value: Seq<u8>)
    ensures
        at_key(m, hset_step(m, key, field, value).0, key),
        at_key(m, hdel_step(m, key, field).0, key),
{
}

proof fn set_steps_at_key(m: State, key: Seq<char>, member: Seq<u8>)
    ensures
        at_key(m, sadd_step(m, key, member).0, key),
        at_key(m, srem_step(m, key, member).0, key),
{
}

proof fn zset_steps_at_key(m: State, key: Seq<char>, score: u64, member: Seq<u8>)
    ensures
        at_key(m, zadd_step(m, key, score, member).0, key),
        at_key(m, zrem_step(m, key, member).0, key),
{
}

proof fn entry_at_key(m: State, key: Seq<char>, value: Seq<u8>, at: Option<u64>, v: ValueView)
    ensures
        at_key(m, with_bytes(m, key, value, at), key),
        at_key(m, with_expiry(m, key, at), key),
        at_key(m, with_value(m, key, v), key),
        at_key(m, m.remove(key), key),
        at_key(m, m, key),
{
}

/// The key that a recorded mutation is about, if it is about one.
pub open spec fn op_key(op: Op) -> Option<Seq<char>> {
    match op {
        Op::Put { key, .. } => Some(key),
        Op::Del { key } => Some(key),
        Op::Expire { key, .. } => Some(key),
        Op::Persist { key } => Some(key),
        Op::Clear => None,
        Op::Push { key, .. } => Some(key),
        Op::Pop { key, .. } => Some(key),
        Op::HSet { key, .. } => Some(key),
        Op::HDel { key, .. } => Some(key),
        Op::SAdd { key, .. } => Some(key),
        Op::SRem { key, .. } => Some(key),
        Op::ZAdd { key, .. } => Some(key),
        Op::ZRem { key, .. } => Some(key),
    }
}

/// A recorded mutation changes the state at its key alone.
#[verifier::spinoff_prover]
pub proof fn op_at_key(m: State, op: Op, key: Seq<char>)
    requires
        op_key(op) == Some(key),
    ensures
        at_key(m, apply_op(m, op), key),
{
    let none = ValueView::Bytes(Seq::empty());
    match op {
        Op::Put { value, expire_at, .. } => entry_at_key(m, key, value, expire_at, none),
        Op::Del { .. } => entry_at_key(m, key, Seq::empty(), None, none),
        Op::Expire { at, .. } => entry_at_key(m, key, Seq::empty(), Some(at), none),
        Op::Persist { .. } => entry_at_key(m, key, Seq::empty(), None, none),
        Op::Clear => {},
        Op::Push { value, front, .. } => list_steps_at_key(m, key, value, front),
        Op::Pop { front, .. } => list_steps_at_key(m, key, Seq::empty(), front),
        Op::HSet { field, value, .. } => hash_steps_at_key(m, key, field, value),
        Op::HDel { field, .. } => hash_steps_at_key(m, key, field, Seq::empty()),
        Op::SAdd { member, .. } => set_steps_at_key(m, key, member),
        Op::SRem { member, .. } => set_steps_at_key(m, key, member),
        Op::ZAdd { score, member, .. } => zset_steps_at_key(m, key, score, member),
        Op::ZRem { member, .. } => zset_steps_at_key(m, key, 0, member),
    }
}

/// What an operation makes of the state comes from it by a change at its key.
#[verifier::spinoff_prover]
proof fn effect_at_key(m: State, c: Command, now: u64, key: Seq<char>)
    requires
        key_of(c) == Some(key),
    ensures
        at_key(m, effect(m, c, now).0, key),
{
    let none = ValueView::Bytes(Seq::empty());
    entry_at_key(m, key, Seq::empty(), None, none);
    match c {
        Command::Put { value, ttl_ms, .. } => entry_at_key(
            m,
            key,
            value,
            expiry_of_ttl(ttl_ms, now),
            none,
        ),
        Command::Expire { ms, .. } => entry_at_key(
            m,
            key,
            Seq::empty(),
            Some(expiry_in(ms, now)),
            none,
        ),
        Command::Push { value, front, .. } => list_steps_at_key(m, key, value, front),
        Command::Pop { front, .. } => list_steps_at_key(m, key, Seq::empty(), front),
        Command::HSet { field, value, .. } => hash_steps_at_key(m, key, field, value),
        Command::HDel { field, .. } => hash_steps_at_key(m, key, field, Seq::empty()),
        Command::SAdd { member, .. } => set_steps_at_key(m, key, member),
        Command::SRem { member, .. } => set_steps_at_key(m, key, member),
        Command::ZAdd { score, member, .. } => zset_steps_at_key(m, key, score, member),
        Command::ZIncrBy { delta, sum, member, .. } => match zset_at(m, key) {
            Some(z) => {
                let a = ValueView::ZSet(z.insert(member, sum));
                let b = ValueView::ZSet(z.insert(member, delta));
                entry_at_key(m, key, Seq::empty(), None, a);
                entry_at_key(m, key, Seq::empty(), None, b);
            },
            None => {},
        },
        Command::ZRem { member, .. } => zset_steps_at_key(m, key, 0, member),
        _ => {},
    }
}

/// A change at one key leaves the others as they were.
pub proof fn at_key_keeps_others(m: State, n: State, key: Seq<char>)
    requires
        at_key(m, n, key),
    ensures
        same_but(m, n, key),
{
}

/// What an operation makes of the state differs at its key alone.
pub proof fn effect_keeps_others(m: State, c: Command, now: u64, key: Seq<char>)
    requires
        key_of(c) == Some(key),
    ensures
        at_key(m, effect(m, c, now).0, key),
        same_but(m, effect(m, c, now).0, key),
{
    effect_at_key(m, c, now, key);
    at_key_keeps_others(m, effect(m, c, now).0, key);
}

/// Whether an entry holds a value that a store can hold, and no empty collection.
pub open spec fn filled(e: EntryView) -> bool {
    sound_value(e.value) && match e.value {
        ValueView::Bytes(_) => true,
        ValueView::List(l) => l.len() > 0,
        ValueView::Hash(h) => h.dom().len() > 0,
        ValueView::Members(s) => s.len() > 0,
        ValueView::ZSet(z) => z.dom().len() > 0,
    }
}

/// Whether no key holds an empty collection.
pub open spec fn all_filled(m: State) -> bool {
    forall|k: Seq<char>| #[trigger] m.contains_key(k) ==> filled(m[k])
}

/// What an operation makes of the state is what the record that it journals comes to;
/// without a record the state stays as it was.
#[verifier::rlimit(40)]
#[verifier::spinoff_prover]
pub proof fn effect_replays(m: State, c: Command, now: u64)
    requires
        all_filled(m),
    ensures
        match effect(m, c, now) {
            (n, Some(op)) => apply_op(m, op) == n,
            (n, None) => n == m,
        },
{
    match c {
        Command::Pop { key, front } => {
            assert(m.remove(key) =~= m || m.contains_key(key));
        },
        Command::HDel { key, field } => {
            match hash_at(m, key) {
                Some(h) => if !h.contains_key(field) {
                    assert(h.remove(field) =~= h);
                    assert(h.remove(field).dom() =~= h.dom());
                    if m.contains_key(key) {
                        assert(with_value(m, key, m[key].value) =~= m);
                    } else {
                        assert(h.dom() =~= Set::<Seq<char>>::empty());
                        assert(m.remove(key) =~= m);
                    }
                },
                None => {},
            }
        },
        Command::SRem { key, member } => {
            match set_at(m, key) {
                Some(s) => if !s.contains(member) {
                    assert(s.remove(member) =~= s);
                    if m.contains_key(key) {
                        assert(with_value(m, key, m[key].value) =~= m);
                    } else {
                        assert(m.remove(key) =~= m);
                    }
                },
                None => {},
            }
        },
        Command::ZRem { key, member } => {
            match zset_at(m, key) {
                Some(z) => if !z.contains_key(member) {
                    assert(z.remove(member) =~= z);
                    assert(z.remove(member).dom() =~= z.dom());
                    if m.contains_key(key) {
                        assert(with_value(m, key, m[key].value) =~= m);
                    } else {
                        assert(z.dom() =~= Set::<Seq<u8>>::empty());
                        assert(m.remove(key) =~= m);
                    }
                },
                None => {},
            }
        },
        _ => {},
    }
}

/// A key that is given a value which is not empty, or taken out, leaves no empty collection
/// behind.
proof fn value_fills(m: State, key: Seq<char>, value: ValueView)
    requires
        all_filled(m),
    ensures
        filled(EntryView { value, expire_at: None }) ==> all_filled(with_value(m, key, value)),
        all_filled(m.remove(key)),
{
    let n = with_value(m, key, value);
    if filled(EntryView { value, expire_at: None }) {
        assert forall|k: Seq<char>| #[trigger] n.contains_key(k) implies filled(n[k]) by {
            if k != key {
                assert(m.contains_key(k));
            }
        }
    }
    assert forall|k: Seq<char>| #[trigger] m.remove(key).contains_key(k) implies filled(
        m.remove(key)[k],
    ) by {
        assert(m.contains_key(k));
    }
}

proof fn list_steps_fill(m: State, key: Seq<char>, value: Seq<u8>, front: bool)
    requires
        all_filled(m),
    ensures
        all_filled(push_step(m, key, value, front).0),
        all_filled(pop_step(m, key, front).0),
{
    match list_at(m, key) {
        Some(l) => {
            value_fills(m, key, ValueView::List(l.push(value)));
            value_fills(m, key, ValueView::List(seq![value] + l));
            value_fills(m, key, ValueView::List(l.drop_first()));
            value_fills(m, key, ValueView::List(l.drop_last()));
        },
        None => {},
    }
}

proof fn hash_steps_fill(m: State, key: Seq<char>, field: Seq<char>, value: Seq<u8>)
    requires
        all_filled(m),
    ensures
        all_filled(hset_step(m, key, field, value).0),
        all_filled(hdel_step(m, key, field).0),
{
    match hash_at(m, key) {
        Some(h) => {
            if !m.contains_key(key) {
                assert(h.dom() =~= Set::<Seq<char>>::empty());
            }
            assert(h.insert(field, value).dom() =~= h.dom().insert(field));
            assert(h.remove(field).dom() =~= h.dom().remove(field));
            value_fills(m, key, ValueView::Hash(h.insert(field, value)));
            value_fills(m, key, ValueView::Hash(h.remove(field)));
        },
        None => {},
    }
}

proof fn set_steps_fill(m: State, key: Seq<char>, member: Seq<u8>)
    requires
        all_filled(m),
    ensures
        all_filled(sadd_step(m, key, member).0),
        all_filled(srem_step(m, key, member).0),
{
    match set_at(m, key) {
        Some(s) => {
            value_fills(m, key, ValueView::Members(s.insert(member)));
            value_fills(m, key, ValueView::Members(s.remove(member)));
        },
        None => {},
    }
}

proof fn zset_steps_fill(m: State, key: Seq<char>, score: u64, member: Seq<u8>)
    requires
        all_filled(m),
    ensures
        all_filled(zadd_step(m, key, score, member).0),
        all_filled(zrem_step(m, key, member).0),
{
    match zset_at(m, key) {
        Some(z) => {
            if !m.contains_key(key) {
                assert(z.dom() =~= Set::<Seq<u8>>::empty());
            }
            assert(z.insert(member, score).dom() =~= z.dom().insert(member));
            assert(z.remove(member).dom() =~= z.dom().remove(member));
            value_fills(m, key, ValueView::ZSet(z.insert(member, score)));
            value_fills(m, key, ValueView::ZSet(z.remove(member)));
        },
        None => {},
    }
}

proof fn entry_fills(m: State, key: Seq<char>, value: Seq<u8>, at: Option<u64>)
    requires
        all_filled(m),
    ensures
        all_filled(with_bytes(m, key, value, at)),
        all_filled(with_expiry(m, key, at)),
        all_filled(m.remove(key)),
{
    value_fills(m, key, ValueView::Bytes(value));
    let n = with_bytes(m, key, value, at);
    let x = with_expiry(m, key, at);
    assert forall|k: Seq<char>| #[trigger] n.contains_key(k) implies filled(n[k]) by {
        if k != key {
            assert(m.contains_key(k));
        }
    }
    assert forall|k: Seq<char>| #[trigger] x.contains_key(k) implies filled(x[k]) by {
        assert(m.contains_key(k));
    }
}

/// No recorded mutation leaves an empty collection behind.
#[verifier::rlimit(30)]
#[verifier::spinoff_prover]
pub proof fn apply_op_filled(m: State, op: Op)
    requires
        all_filled(m),
    ensures
        all_filled(apply_op(m, op)),
        m.dom().finite() ==> apply_op(m, op).dom().finite(),
{
    match op {
        Op::Put { key, value, expire_at } => entry_fills(m, key, value, expire_at),
        Op::Del { key } => entry_fills(m, key, Seq::empty(), None),
        Op::Expire { key, at } => entry_fills(m, key, Seq::empty(), Some(at)),
        Op::Persist { key } => entry_fills(m, key, Seq::empty(), None),
        Op::Clear => {},
        Op::Push { key, value, front } => list_steps_fill(m, key, value, front),
        Op::Pop { key, front } => list_steps_fill(m, key, Seq::empty(), front),
        Op::HSet { key, field, value } => hash_steps_fill(m, key, field, value),
        Op::HDel { key, field } => hash_steps_fill(m, key, field, Seq::empty()),
        Op::SAdd { key, member } => set_steps_fill(m, key, member),
        Op::SRem { key, member } => set_steps_fill(m, key, member),
        Op::ZAdd { key, score, member } => zset_steps_fill(m, key, score, member),
        Op::ZRem { key, member } => zset_steps_fill(m, key, 0, member),
    }
    match op_key(op) {
        Some(key) => {
            op_at_key(m, op, key);
            assert(m.insert(key, apply_op(m, op)[key]).dom() =~= m.dom().insert(key));
        },
        None => {
            assert(apply_op(m, op).dom() =~= Set::<Seq<char>>::empty());
        },
    }
}

/// No operation leaves an empty collection behind.
pub proof fn effect_filled(m: State, c: Command, now: u64)
    requires
        all_filled(m),
    ensures
        all_filled(effect(m, c, now).0),
{
    effect_replays(m, c, now);
    match effect(m, c, now).1 {
        Some(op) => apply_op_filled(m, op),
        None => {},
    }
}

} // verus!
