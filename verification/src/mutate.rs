//! The mutations, on the state alone. The operations of the store and the replay of
//! the log share them, so a replayed log comes to the state that it records.

use std::collections::VecDeque;
use vstd::prelude::*;
use crate::errors::{WrongType, ZAddError};
use crate::ranges::views;
use crate::score::{is_nan, OrderedF64};
use crate::sorted_map::SortedMap;
use crate::value::{Entry, EntryView, State, Value, ValueView};
use crate::zset::ZSet;

verus! {

/// The key given a value: it keeps the time when it expires, and a new key has none.
pub open spec fn with_value(m: State, key: Seq<char>, value: ValueView) -> State {
    m.insert(
        key,
        EntryView {
            value,
            expire_at: if m.contains_key(key) {
                m[key].expire_at
            } else {
                None
            },
        },
    )
}

/// The key given a value, or taken out where the value has become empty.
pub open spec fn with_rest(m: State, key: Seq<char>, value: ValueView, empty: bool) -> State {
    if empty {
        m.remove(key)
    } else {
        with_value(m, key, value)
    }
}

/// The key given another time when it expires; nothing for a missing key.
pub open spec fn with_expiry(m: State, key: Seq<char>, expire_at: Option<u64>) -> State {
    if m.contains_key(key) {
        m.insert(key, EntryView { value: m[key].value, expire_at })
    } else {
        m
    }
}

/// The key given plain bytes, whatever it held.
pub open spec fn with_bytes(
    m: State,
    key: Seq<char>,
    value: Seq<u8>,
    expire_at: Option<u64>,
) -> State {
    m.insert(key, EntryView { value: ValueView::Bytes(value), expire_at })
}

/// The list at a key, empty for a missing key; none if the key holds something else.
pub open spec fn list_at(m: State, key: Seq<char>) -> Option<Seq<Seq<u8>>> {
    if m.contains_key(key) {
        match m[key].value {
            ValueView::List(l) => Some(l),
            _ => None,
        }
    } else {
        Some(Seq::empty())
    }
}

/// The hash at a key, empty for a missing key; none if the key holds something else.
pub open spec fn hash_at(m: State, key: Seq<char>) -> Option<Map<Seq<char>, Seq<u8>>> {
    if m.contains_key(key) {
        match m[key].value {
            ValueView::Hash(h) => Some(h),
            _ => None,
        }
    } else {
        Some(Map::empty())
    }
}

/// The set at a key, empty for a missing key; none if the key holds something else.
pub open spec fn set_at(m: State, key: Seq<char>) -> Option<Set<Seq<u8>>> {
    if m.contains_key(key) {
        match m[key].value {
            ValueView::Members(s) => Some(s),
            _ => None,
        }
    } else {
        Some(Set::empty())
    }
}

/// The sorted set at a key, empty for a missing key; none if the key holds something
/// else.
pub open spec fn zset_at(m: State, key: Seq<char>) -> Option<Map<Seq<u8>, u64>> {
    if m.contains_key(key) {
        match m[key].value {
            ValueView::ZSet(z) => Some(z),
            _ => None,
        }
    } else {
        Some(Map::empty())
    }
}

/// Putting an element at an end of a list: the state after it, and the new length.
pub open spec fn push_step(m: State, key: Seq<char>, value: Seq<u8>, front: bool) -> (
    State,
    Result<u32, WrongType>,
) {
    match list_at(m, key) {
        Some(l) => {
            let next = if front {
                seq![value] + l
            } else {
                l.push(value)
            };
            (with_value(m, key, ValueView::List(next)), Ok(next.len() as u32))
        },
        None => (m, Err(WrongType)),
    }
}

/// Taking an element from an end of a list: the state after it, and the element.
/// A list that has become empty goes with its key.
pub open spec fn pop_step(m: State, key: Seq<char>, front: bool) -> (
    State,
    Result<Option<Seq<u8>>, WrongType>,
) {
    match list_at(m, key) {
        Some(l) => if l.len() == 0 {
            (m.remove(key), Ok(None))
        } else {
            let rest = if front {
                l.drop_first()
            } else {
                l.drop_last()
            };
            let item = if front {
                l.first()
            } else {
                l.last()
            };
            (with_rest(m, key, ValueView::List(rest), rest.len() == 0), Ok(Some(item)))
        },
        None => (m, Err(WrongType)),
    }
}

/// Giving a field of a hash a value: the state after it, and whether the field is
/// new.
pub open spec fn hset_step(m: State, key: Seq<char>, field: Seq<char>, value: Seq<u8>) -> (
    State,
    Result<bool, WrongType>,
) {
    match hash_at(m, key) {
        Some(h) => (
            with_value(m, key, ValueView::Hash(h.insert(field, value))),
            Ok(!h.contains_key(field)),
        ),
        None => (m, Err(WrongType)),
    }
}

/// Taking a field out of a hash: the state after it, and whether the field was
/// there. A hash that has become empty goes with its key.
pub open spec fn hdel_step(m: State, key: Seq<char>, field: Seq<char>) -> (
    State,
    Result<bool, WrongType>,
) {
    match hash_at(m, key) {
        Some(h) => {
            let rest = h.remove(field);
            (
                with_rest(m, key, ValueView::Hash(rest), rest.dom().len() == 0),
                Ok(h.contains_key(field)),
            )
        },
        None => (m, Err(WrongType)),
    }
}

/// Putting a member into a set: the state after it, and whether the member is new.
pub open spec fn sadd_step(m: State, key: Seq<char>, member: Seq<u8>) -> (
    State,
    Result<bool, WrongType>,
) {
    match set_at(m, key) {
        Some(s) => (
            with_value(m, key, ValueView::Members(s.insert(member))),
            Ok(!s.contains(member)),
        ),
        None => (m, Err(WrongType)),
    }
}

/// Taking a member out of a set: the state after it, and whether the member was
/// there. A set that has become empty goes with its key.
pub open spec fn srem_step(m: State, key: Seq<char>, member: Seq<u8>) -> (
    State,
    Result<bool, WrongType>,
) {
    match set_at(m, key) {
        Some(s) => {
            let rest = s.remove(member);
            (
                with_rest(m, key, ValueView::Members(rest), rest.len() == 0),
                Ok(s.contains(member)),
            )
        },
        None => (m, Err(WrongType)),
    }
}

/// Giving a member of a sorted set a score: the state after it, and whether the
/// member is new.
pub open spec fn zadd_step(m: State, key: Seq<char>, score: u64, member: Seq<u8>) -> (
    State,
    Result<bool, ZAddError>,
) {
    match zset_at(m, key) {
        Some(z) => if is_nan(score) {
            (m, Err(ZAddError::BadScore))
        } else {
            (
                with_value(m, key, ValueView::ZSet(z.insert(member, score))),
                Ok(!z.contains_key(member)),
            )
        },
        None => (m, Err(ZAddError::WrongType)),
    }
}

/// Taking a member out of a sorted set: the state after it, and whether the member
/// was there. A sorted set that has become empty goes with its key.
pub open spec fn zrem_step(m: State, key: Seq<char>, member: Seq<u8>) -> (
    State,
    Result<bool, WrongType>,
) {
    match zset_at(m, key) {
        Some(z) => {
            let rest = z.remove(member);
            (
                with_rest(m, key, ValueView::ZSet(rest), rest.dom().len() == 0),
                Ok(z.contains_key(member)),
            )
        },
        None => (m, Err(WrongType)),
    }
}

/// The blob that came out of a list, by its view.
pub open spec fn popped_view(out: Result<Option<Vec<u8>>, WrongType>) -> Result<
    Option<Seq<u8>>,
    WrongType,
> {
    match out {
        Ok(Some(b)) => Ok(Some(b@)),
        Ok(None) => Ok(None),
        Err(e) => Err(e),
    }
}

/// Give a key plain bytes, whatever it held.
pub fn apply_set(
    map: &mut SortedMap<String, Entry>,
    key: String,
    value: Vec<u8>,
    expire_at: Option<u64>,
)
    ensures
        final(map)@ == with_bytes(old(map)@, key@, value@, expire_at),
{
    map.insert(key, Entry { value: Value::Bytes(value), expire_at });
}

/// Take a key out: whether it was there.
pub fn apply_del(map: &mut SortedMap<String, Entry>, key: &str) -> (was: bool)
    ensures
        was == old(map)@.contains_key(key@),
        final(map)@ == old(map)@.remove(key@),
{
    map.remove(key).is_some()
}

/// Set when a key expires: whether the key is there.
pub fn apply_expire(map: &mut SortedMap<String, Entry>, key: &str, expire_at: u64) -> (ok: bool)
    ensures
        ok == old(map)@.contains_key(key@),
        final(map)@ == with_expiry(old(map)@, key@, Some(expire_at)),
{
    match map.get_mut(key) {
        Some(e) => {
            e.expire_at = Some(expire_at);
            true
        },
        None => false,
    }
}

/// Let a key never expire: whether the key is there.
pub fn apply_persist(map: &mut SortedMap<String, Entry>, key: &str) -> (ok: bool)
    ensures
        ok == old(map)@.contains_key(key@),
        final(map)@ == with_expiry(old(map)@, key@, None),
{
    match map.get_mut(key) {
        Some(e) => {
            e.expire_at = None;
            true
        },
        None => false,
    }
}

/// Put an element at an end of a list.
pub fn apply_push(
    map: &mut SortedMap<String, Entry>,
    key: &str,
    value: Vec<u8>,
    front: bool,
) -> (out: Result<u32, WrongType>)
    ensures
        (final(map)@, out) == push_step(old(map)@, key@, value@, front),
{
    match map.get_mut(key) {
        Some(e) => match &mut e.value {
            Value::List(l) => {
                let ghost before = l@;
                if front {
                    l.push_front(value);
                    proof {
                        assert(views(l@) =~= seq![value@] + views(before));
                    }
                } else {
                    l.push_back(value);
                    proof {
                        assert(views(l@) =~= views(before).push(value@));
                    }
                }
                Ok(l.len() as u32)
            },
            _ => Err(WrongType),
        },
        None => {
            let mut l: VecDeque<Vec<u8>> = VecDeque::new();
            l.push_back(value);
            proof {
                assert(views(l@) =~= Seq::<Seq<u8>>::empty().push(value@));
                assert(views(l@) =~= seq![value@] + Seq::<Seq<u8>>::empty());
            }
            map.insert(key.to_owned(), Entry { value: Value::List(l), expire_at: None });
            Ok(1)
        },
    }
}

/// Take an element from an end of a list. A list that has become empty goes with
/// its key.
pub fn apply_pop(map: &mut SortedMap<String, Entry>, key: &str, front: bool) -> (out: Result<
    Option<Vec<u8>>,
    WrongType,
>)
    ensures
        (final(map)@, popped_view(out)) == pop_step(old(map)@, key@, front),
{
    let ghost was = map@;
    match map.get_mut(key) {
        Some(e) => match &mut e.value {
            Value::List(l) => {
                let ghost before = l@;
                let v = if front {
                    l.pop_front()
                } else {
                    l.pop_back()
                };
                let empty = l.len() == 0;
                proof {
                    if before.len() > 0 {
                        if front {
                            assert(views(l@) =~= views(before).drop_first());
                        } else {
                            assert(views(l@) =~= views(before).drop_last());
                        }
                    }
                }
                if empty {
                    map.remove(key);
                    proof {
                        assert(map@ =~= was.remove(key@));
                    }
                }
                Ok(v)
            },
            _ => Err(WrongType),
        },
        None => {
            proof {
                assert(map@ =~= was.remove(key@));
            }
            Ok(None)
        },
    }
}

/// Give a field of a hash a value: whether the field is new.
pub fn apply_hset(
    map: &mut SortedMap<String, Entry>,
    key: &str,
    field: String,
    value: Vec<u8>,
) -> (out: Result<bool, WrongType>)
    ensures
        (final(map)@, out) == hset_step(old(map)@, key@, field@, value@),
{
    match map.get_mut(key) {
        Some(e) => match &mut e.value {
            Value::Hash(h) => Ok(h.insert(field, value).is_none()),
            _ => Err(WrongType),
        },
        None => {
            let mut h: SortedMap<String, Vec<u8>> = SortedMap::new();
            h.insert(field, value);
            map.insert(key.to_owned(), Entry { value: Value::Hash(h), expire_at: None });
            Ok(true)
        },
    }
}

/// Take a field out of a hash: whether it was there. A hash that has become empty
/// goes with its key.
pub fn apply_hdel(map: &mut SortedMap<String, Entry>, key: &str, field: &str) -> (out: Result<
    bool,
    WrongType,
>)
    ensures
        (final(map)@, out) == hdel_step(old(map)@, key@, field@),
{
    let ghost was = map@;
    match map.get_mut(key) {
        Some(e) => match &mut e.value {
            Value::Hash(h) => {
                let existed = h.remove(field).is_some();
                if h.len() == 0 {
                    map.remove(key);
                    proof {
                        assert(map@ =~= was.remove(key@));
                    }
                }
                Ok(existed)
            },
            _ => Err(WrongType),
        },
        None => {
            proof {
                assert(Map::<Seq<char>, Seq<u8>>::empty().remove(field@).dom() =~= Set::<
                    Seq<char>,
                >::empty());
                assert(map@ =~= was.remove(key@));
            }
            Ok(false)
        },
    }
}

/// Put a member into a set: whether it is new.
pub fn apply_sadd(map: &mut SortedMap<String, Entry>, key: &str, member: Vec<u8>) -> (out: Result<
    bool,
    WrongType,
>)
    ensures
        (final(map)@, out) == sadd_step(old(map)@, key@, member@),
{
    match map.get_mut(key) {
        Some(e) => match &mut e.value {
            Value::Members(set) => {
                let ghost before = set@;
                let added = set.insert(member, ()).is_none();
                proof {
                    assert(set@.dom() =~= before.dom().insert(member@));
                }
                Ok(added)
            },
            _ => Err(WrongType),
        },
        None => {
            let mut set: SortedMap<Vec<u8>, ()> = SortedMap::new();
            set.insert(member, ());
            proof {
                assert(set@.dom() =~= Set::<Seq<u8>>::empty().insert(member@));
            }
            map.insert(key.to_owned(), Entry { value: Value::Members(set), expire_at: None });
            Ok(true)
        },
    }
}

/// Take a member out of a set: whether it was there. A set that has become empty
/// goes with its key.
pub fn apply_srem(map: &mut SortedMap<String, Entry>, key: &str, member: &[u8]) -> (out: Result<
    bool,
    WrongType,
>)
    ensures
        (final(map)@, out) == srem_step(old(map)@, key@, member@),
{
    let ghost was = map@;
    match map.get_mut(key) {
        Some(e) => match &mut e.value {
            Value::Members(set) => {
                let ghost before = set@;
                let removed = set.remove(member).is_some();
                proof {
                    assert(set@.dom() =~= before.dom().remove(member@));
                }
                if set.len() == 0 {
                    map.remove(key);
                    proof {
                        assert(map@ =~= was.remove(key@));
                    }
                }
                Ok(removed)
            },
            _ => Err(WrongType),
        },
        None => {
            proof {
                assert(Set::<Seq<u8>>::empty().remove(member@) =~= Set::<Seq<u8>>::empty());
                assert(map@ =~= was.remove(key@));
            }
            Ok(false)
        },
    }
}

/// Give a member of a sorted set a score: whether the member is new. A score that is
/// no number is refused.
pub fn apply_zadd(
    map: &mut SortedMap<String, Entry>,
    key: &str,
    score: OrderedF64,
    member: Vec<u8>,
) -> (out: Result<bool, ZAddError>)
    ensures
        (final(map)@, out) == zadd_step(old(map)@, key@, score@, member@),
{
    match map.get_mut(key) {
        Some(e) => match &mut e.value {
            Value::ZSet(z) => match z.add(member, score) {
                Ok(new) => Ok(new),
                Err(_) => Err(ZAddError::BadScore),
            },
            _ => Err(ZAddError::WrongType),
        },
        None => {
            let mut z = ZSet::new();
            match z.add(member, score) {
                Ok(new) => {
                    map.insert(key.to_owned(), Entry { value: Value::ZSet(z), expire_at: None });
                    Ok(new)
                },
                Err(_) => Err(ZAddError::BadScore),
            }
        },
    }
}

/// Take a member out of a sorted set: whether it was there. A sorted set that has
/// become empty goes with its key.
pub fn apply_zrem(map: &mut SortedMap<String, Entry>, key: &str, member: &[u8]) -> (out: Result<
    bool,
    WrongType,
>)
    ensures
        (final(map)@, out) == zrem_step(old(map)@, key@, member@),
{
    let ghost was = map@;
    match map.get_mut(key) {
        Some(e) => match &mut e.value {
            Value::ZSet(z) => {
                let removed = z.remove(member);
                if z.is_empty() {
                    map.remove(key);
                    proof {
                        assert(map@ =~= was.remove(key@));
                    }
                }
                Ok(removed)
            },
            _ => Err(WrongType),
        },
        None => {
            proof {
                assert(Map::<Seq<u8>, u64>::empty().remove(member@).dom() =~= Set::<
                    Seq<u8>,
                >::empty());
                assert(map@ =~= was.remove(key@));
            }
            Ok(false)
        },
    }
}

} // verus!
