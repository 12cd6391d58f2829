//! The replay of the log: what its records come to.

use vstd::prelude::*;
use crate::bytes::copy_range;
use crate::mutate::{
    apply_del, apply_expire, apply_hdel, apply_hset, apply_persist, apply_pop, apply_push,
    apply_sadd, apply_set, apply_srem, apply_zadd, apply_zrem, hdel_step, hset_step, pop_step,
    push_step, sadd_step, srem_step, with_bytes, with_expiry, zadd_step, zrem_step,
};
use crate::ranges::views;
use crate::record::{
    decode, decode_keyed, Cursor, OP_CLEAR, OP_DEL, OP_EXPIRE, OP_HDEL, OP_HSET, OP_PERSIST,
    OP_POP_BACK, OP_POP_FRONT, OP_PUSH_BACK, OP_PUSH_FRONT, OP_SADD, OP_SET, OP_SREM, OP_ZADD,
    OP_ZREM, Op,
};
use crate::sorted_map::SortedMap;
use crate::value::{Entry, State};

verus! {

/// The state after a mutation. One that the state refuses leaves it as it was.
pub open spec fn apply_op(m: State, op: Op) -> State {
    match op {
        Op::Put { key, value, expire_at } => with_bytes(m, key, value, expire_at),
        Op::Del { key } => m.remove(key),
        Op::Expire { key, at } => with_expiry(m, key, Some(at)),
        Op::Persist { key } => with_expiry(m, key, None),
        Op::Clear => Map::empty(),
        Op::Push { key, value, front } => push_step(m, key, value, front).0,
        Op::Pop { key, front } => pop_step(m, key, front).0,
        Op::HSet { key, field, value } => hset_step(m, key, field, value).0,
        Op::HDel { key, field } => hdel_step(m, key, field).0,
        Op::SAdd { key, member } => sadd_step(m, key, member).0,
        Op::SRem { key, member } => srem_step(m, key, member).0,
        Op::ZAdd { key, score, member } => zadd_step(m, key, score, member).0,
        Op::ZRem { key, member } => zrem_step(m, key, member).0,
    }
}

/// The state after a record. One that cannot be read leaves it as it was.
pub open spec fn replay_step(m: State, payload: Seq<u8>) -> State {
    match decode(payload) {
        Some(op) => apply_op(m, op),
        None => m,
    }
}

/// The state after the records of a log, from the state `m` on.
pub open spec fn replayed(m: State, payloads: Seq<Seq<u8>>) -> State
    decreases payloads.len(),
{
    if payloads.len() == 0 {
        m
    } else {
        replay_step(replayed(m, payloads.drop_last()), payloads.last())
    }
}

/// How many records of a log can be read.
pub open spec fn readable(payloads: Seq<Seq<u8>>) -> nat
    decreases payloads.len(),
{
    if payloads.len() == 0 {
        0
    } else {
        readable(payloads.drop_last()) + (if decode(payloads.last()) is Some {
            1nat
        } else {
            0nat
        })
    }
}

/// Apply one record: whether it could be read.
pub fn replay_one(map: &mut SortedMap<String, Entry>, payload: &[u8]) -> (read: bool)
    ensures
        read == decode(payload@) is Some,
        final(map)@ == replay_step(old(map)@, payload@),
{
    if payload.len() == 0 {
        return false;
    }
    let op: u8 = payload[0];
    if op == OP_CLEAR {
        map.clear();
        return true;
    }
    let mut c = Cursor::new(payload);
    let k = match c.string() {
        Some(k) => k,
        None => return false,
    };
    proof {
        assert(decode(payload@) == decode_keyed(payload@, k@, c.pos as int));
    }
    if op == OP_DEL {
        apply_del(map, k.as_str());
        true
    } else if op == OP_PERSIST {
        apply_persist(map, k.as_str());
        true
    } else if op == OP_POP_FRONT || op == OP_POP_BACK {
        let _ = apply_pop(map, k.as_str(), op == OP_POP_FRONT);
        true
    } else if op == OP_SET {
        match c.u64() {
            Some(t) => match c.bytes() {
                Some(v) => {
                    let expire_at = if t == 0 {
                        None
                    } else {
                        Some(t)
                    };
                    let value = copy_range(v, 0, v.len());
                    proof {
                        assert(value@ =~= v@);
                    }
                    apply_set(map, k, value, expire_at);
                    true
                },
                None => false,
            },
            None => false,
        }
    } else if op == OP_EXPIRE {
        match c.u64() {
            Some(t) => {
                apply_expire(map, k.as_str(), t);
                true
            },
            None => false,
        }
    } else if op == OP_PUSH_FRONT || op == OP_PUSH_BACK {
        match c.bytes() {
            Some(v) => {
                let value = copy_range(v, 0, v.len());
                proof {
                    assert(value@ =~= v@);
                }
                let _ = apply_push(map, k.as_str(), value, op == OP_PUSH_FRONT);
                true
            },
            None => false,
        }
    } else if op == OP_HSET {
        match c.string() {
            Some(field) => match c.bytes() {
                Some(v) => {
                    let value = copy_range(v, 0, v.len());
                    proof {
                        assert(value@ =~= v@);
                    }
                    let _ = apply_hset(map, k.as_str(), field, value);
                    true
                },
                None => false,
            },
            None => false,
        }
    } else if op == OP_HDEL {
        match c.string() {
            Some(field) => {
                let _ = apply_hdel(map, k.as_str(), field.as_str());
                true
            },
            None => false,
        }
    } else if op == OP_SADD {
        match c.bytes() {
            Some(m) => {
                let member = copy_range(m, 0, m.len());
                proof {
                    assert(member@ =~= m@);
                }
                let _ = apply_sadd(map, k.as_str(), member);
                true
            },
            None => false,
        }
    } else if op == OP_SREM {
        match c.bytes() {
            Some(m) => {
                let _ = apply_srem(map, k.as_str(), m);
                true
            },
            None => false,
        }
    } else if op == OP_ZADD {
        match c.score() {
            Some(score) => match c.bytes() {
                Some(m) => {
                    let member = copy_range(m, 0, m.len());
                    proof {
                        assert(member@ =~= m@);
                    }
                    let _ = apply_zadd(map, k.as_str(), score, member);
                    true
                },
                None => false,
            },
            None => false,
        }
    } else if op == OP_ZREM {
        match c.bytes() {
            Some(m) => {
                let _ = apply_zrem(map, k.as_str(), m);
                true
            },
            None => false,
        }
    } else {
        false
    }
}

/// Apply the records of a log to an empty state: the state, and how many records
/// could be read, counted modulo 2^32.
pub fn replay_all(payloads: &Vec<Vec<u8>>) -> (out: (SortedMap<String, Entry>, u32))
    ensures
        out.0@ == replayed(Map::empty(), views(payloads@)),
        out.1 == readable(views(payloads@)) % 0x1_0000_0000,
{
    let mut map: SortedMap<String, Entry> = SortedMap::new();
    let mut applied: u32 = 0;
    let mut i: usize = 0;
    let ghost s = views(payloads@);
    while i < payloads.len()
        invariant
            i <= payloads@.len(),
            s == views(payloads@),
            map@ == replayed(Map::empty(), s.take(i as int)),
            applied == readable(s.take(i as int)) % 0x1_0000_0000,
        decreases payloads@.len() - i,
    {
        proof {
            assert(s.take(i + 1).drop_last() =~= s.take(i as int));
            assert(s.take(i + 1).last() == payloads@[i as int]@);
        }
        if replay_one(&mut map, payloads[i].as_slice()) {
            applied = applied.wrapping_add(1);
        }
        i += 1;
    }
    proof {
        assert(s.take(i as int) =~= s);
    }
    (map, applied)
}

/// Replaying two runs of records is replaying the one and then the other.
pub proof fn replayed_join(m: State, a: Seq<Seq<u8>>, b: Seq<Seq<u8>>)
    ensures
        replayed(m, a + b) == replayed(replayed(m, a), b),
    decreases b.len(),
{
    if b.len() == 0 {
        assert(a + b =~= a);
    } else {
        assert((a + b).drop_last() =~= a + b.drop_last());
        replayed_join(m, a, b.drop_last());
    }
}

} // verus!
