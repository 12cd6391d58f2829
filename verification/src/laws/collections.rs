//! What the operations on lists, hashes and sets do to what a key holds, and what they
//! return.

use vstd::prelude::*;
use vstd::utf8::encode_utf8;
use crate::errors::{ListError, WrongType};
use crate::laws::compaction::listed_members_are;
use crate::laws::keys::{cleared, held, reading_takes_out_what_expired};
use crate::laws::orders::{blobs_in_order, bytes_before, lex_is_bytes_before, texts_in_order};
use crate::model::{
    hdel_op, hexists_of, hget_of, hgetall_of, hkeys_of, hlen_of, hset_op, llen_of, lrange_of,
    pop_op, push_op, sadd_op, scard_of, sismember_of, smembers_of, srem_op, StoreView,
};
use crate::ranges::range_of;
use crate::snapshot::{listed_members, unit_map};
use crate::sorted_map::{ordered, ordered_exists, ordered_len, Key};
use crate::value::{EntryView, ValueView};

verus! {

/// Whether `r` is what stands in `l` from index `start` to index `stop`, both included,
/// where a negative index counts from the end, and what lies outside of `l` is left out.
pub open spec fn is_slice<A>(r: Seq<A>, l: Seq<A>, start: int, stop: int) -> bool {
    let first = if start < 0 {
        l.len() + start
    } else {
        start
    };
    let last = if stop < 0 {
        l.len() + stop
    } else {
        stop
    };
    let a = if first < 0 {
        0
    } else {
        first
    };
    let b = if last > l.len() - 1 {
        l.len() - 1
    } else {
        last
    };
    if a > b {
        r.len() == 0
    } else {
        r.len() == b - a + 1 && forall|i: int| 0 <= i < r.len() ==> #[trigger] r[i] == l[a + i]
    }
}

/// A range holds the items at the indices from its start to its stop.
pub proof fn range_is_slice<A>(l: Seq<A>, start: int, stop: int)
    ensures
        is_slice(range_of(l, start, stop), l, start, stop),
{
}

/// Reading a range of a list: the elements at the indices from `start` to `stop`, for every
/// sign of either; nothing of a missing key, and an error of another type.
pub proof fn lrange_is_slice(v: StoreView, key: Seq<char>, start: i64, stop: i64, now: u64)
    ensures
        ({
            let out = lrange_of(v.purge(key, now).map, key, start, stop);
            match held(v.map, key, now) {
                Some(e) => match e.value {
                    ValueView::List(l) => out matches Ok(r) && is_slice(
                        r,
                        l,
                        start as int,
                        stop as int,
                    ),
                    _ => out == Err::<Seq<Seq<u8>>, WrongType>(WrongType),
                },
                None => out matches Ok(r) && r.len() == 0,
            }
        }),
{
    reading_takes_out_what_expired(v, key, now);
    match held(v.map, key, now) {
        Some(e) => match e.value {
            ValueView::List(l) => range_is_slice(l, start as int, stop as int),
            _ => {},
        },
        None => range_is_slice(Seq::<Seq<u8>>::empty(), start as int, stop as int),
    }
}

/// How long a list is: 0 for a missing key, and an error of another type.
pub proof fn llen_counts(v: StoreView, key: Seq<char>, now: u64)
    ensures
        llen_of(v.purge(key, now).map, key) == (match held(v.map, key, now) {
            Some(e) => match e.value {
                ValueView::List(l) => Ok::<u32, WrongType>(l.len() as u32),
                _ => Err(WrongType),
            },
            None => Ok(0),
        }),
{
    reading_takes_out_what_expired(v, key, now);
}

/// Whether `next` is `l` with one more item at an end.
pub open spec fn is_pushed<A>(next: Seq<A>, l: Seq<A>, item: A, front: bool) -> bool {
    &&& next.len() == l.len() + 1
    &&& if front {
        next[0] == item && forall|i: int| 0 <= i < l.len() ==> next[i + 1] == #[trigger] l[i]
    } else {
        next[l.len() as int] == item && forall|i: int|
            0 <= i < l.len() ==> next[i] == #[trigger] l[i]
    }
}

/// Pushing puts the element at the end that is meant: at the front before all others, at
/// the back behind them. A missing key begins a list that never expires, and a list keeps
/// its time of expiry. The result is the new length.
pub proof fn push_puts(v: StoreView, key: Seq<char>, value: Seq<u8>, front: bool, now: u64)
    requires
        !v.closed,
    ensures
        ({
            let (w, out) = push_op(v, key, value, front, now);
            match held(v.map, key, now) {
                Some(e) => match e.value {
                    ValueView::List(l) => {
                        &&& w.map.contains_key(key)
                        &&& w.map[key].value is List
                        &&& is_pushed(w.map[key].value->List_0, l, value, front)
                        &&& w.map[key].expire_at == e.expire_at
                        &&& w.map == v.map.insert(key, w.map[key])
                        &&& out == Ok::<u32, ListError>((l.len() + 1) as u32)
                    },
                    _ => w.map == v.map && out == Err::<u32, ListError>(ListError::WrongType),
                },
                None => {
                    &&& w.map == v.map.insert(
                        key,
                        EntryView { value: ValueView::List(seq![value]), expire_at: None },
                    )
                    &&& out == Ok::<u32, ListError>(1)
                },
            }
        }),
{
    let (w, out) = push_op(v, key, value, front, now);
    reading_takes_out_what_expired(v, key, now);
    match held(v.map, key, now) {
        Some(e) => match e.value {
            ValueView::List(l) => {},
            _ => {},
        },
        None => {
            assert(seq![value] + Seq::<Seq<u8>>::empty() =~= seq![value]);
            assert(Seq::<Seq<u8>>::empty().push(value) =~= seq![value]);
            assert(w.map =~= v.map.insert(
                key,
                EntryView { value: ValueView::List(seq![value]), expire_at: None },
            ));
        },
    }
}

/// Popping takes the element at the end that is meant, and leaves the others as they were;
/// with the last element the key goes too. Of a missing key nothing is taken.
pub proof fn pop_takes(v: StoreView, key: Seq<char>, front: bool, now: u64)
    requires
        !v.closed,
    ensures
        ({
            let (w, out) = pop_op(v, key, front, now);
            match held(v.map, key, now) {
                Some(e) => match e.value {
                    ValueView::List(l) => if l.len() == 0 {
                        &&& w.map == v.map.remove(key)
                        &&& out == Ok::<Option<Seq<u8>>, ListError>(None)
                    } else {
                        let item = if front {
                            l[0]
                        } else {
                            l[l.len() - 1]
                        };
                        &&& out == Ok::<Option<Seq<u8>>, ListError>(Some(item))
                        &&& l.len() == 1 ==> w.map == v.map.remove(key)
                        &&& l.len() > 1 ==> {
                            &&& w.map.contains_key(key)
                            &&& w.map[key].value is List
                            &&& is_pushed(l, w.map[key].value->List_0, item, front)
                            &&& w.map[key].expire_at == e.expire_at
                            &&& w.map == v.map.insert(key, w.map[key])
                        }
                    },
                    _ => w.map == v.map && out == Err::<Option<Seq<u8>>, ListError>(
                        ListError::WrongType,
                    ),
                },
                None => {
                    &&& w.map == cleared(v.map, key, now)
                    &&& out == Ok::<Option<Seq<u8>>, ListError>(None)
                },
            }
        }),
{
    let (w, out) = pop_op(v, key, front, now);
    reading_takes_out_what_expired(v, key, now);
    if held(v.map, key, now) is None {
        assert(w.map =~= cleared(v.map, key, now));
    }
}

/// Setting a field gives it the value and leaves the other fields as they were. A missing
/// key begins a hash that never expires, and a hash keeps its time of expiry. The result
/// is whether the field is new.
pub proof fn hset_puts(
    v: StoreView,
    key: Seq<char>,
    field: Seq<char>,
    value: Seq<u8>,
    now: u64,
)
    requires
        !v.closed,
    ensures
        ({
            let (w, out) = hset_op(v, key, field, value, now);
            match held(v.map, key, now) {
                Some(e) => match e.value {
                    ValueView::Hash(h) => {
                        &&& w.map == v.map.insert(
                            key,
                            EntryView {
                                value: ValueView::Hash(h.insert(field, value)),
                                expire_at: e.expire_at,
                            },
                        )
                        &&& out == Ok::<bool, ListError>(!h.contains_key(field))
                    },
                    _ => w.map == v.map && out == Err::<bool, ListError>(ListError::WrongType),
                },
                None => {
                    &&& w.map == v.map.insert(
                        key,
                        EntryView {
                            value: ValueView::Hash(Map::empty().insert(field, value)),
                            expire_at: None,
                        },
                    )
                    &&& out == Ok::<bool, ListError>(true)
                },
            }
        }),
{
    let (w, out) = hset_op(v, key, field, value, now);
    reading_takes_out_what_expired(v, key, now);
    if held(v.map, key, now) is None {
        assert(w.map =~= v.map.insert(
            key,
            EntryView {
                value: ValueView::Hash(Map::empty().insert(field, value)),
                expire_at: None,
            },
        ));
    }
}

/// Deleting a field takes it out and leaves the others as they were; with the last field
/// the key goes too. The result is whether the field was there.
pub proof fn hdel_takes_out(v: StoreView, key: Seq<char>, field: Seq<char>, now: u64)
    requires
        !v.closed,
    ensures
        ({
            let (w, out) = hdel_op(v, key, field, now);
            match held(v.map, key, now) {
                Some(e) => match e.value {
                    ValueView::Hash(h) => {
                        let rest = h.remove(field);
                        &&& w.map == (if rest.dom().len() == 0 {
                            v.map.remove(key)
                        } else {
                            v.map.insert(
                                key,
                                EntryView {
                                    value: ValueView::Hash(rest),
                                    expire_at: e.expire_at,
                                },
                            )
                        })
                        &&& out == Ok::<bool, ListError>(h.contains_key(field))
                    },
                    _ => w.map == v.map && out == Err::<bool, ListError>(ListError::WrongType),
                },
                None => {
                    &&& w.map == cleared(v.map, key, now)
                    &&& out == Ok::<bool, ListError>(false)
                },
            }
        }),
{
    let (w, out) = hdel_op(v, key, field, now);
    reading_takes_out_what_expired(v, key, now);
    if held(v.map, key, now) is None {
        assert(Map::<Seq<char>, Seq<u8>>::empty().remove(field).dom() =~= Set::<
            Seq<char>,
        >::empty());
        assert(w.map =~= cleared(v.map, key, now));
    }
}

/// Reading a field, whether it is there, and how many there are.
pub proof fn hash_is_read(v: StoreView, key: Seq<char>, field: Seq<char>, now: u64)
    ensures
        ({
            let m = v.purge(key, now).map;
            match held(v.map, key, now) {
                Some(e) => match e.value {
                    ValueView::Hash(h) => {
                        &&& h.contains_key(field) ==> hget_of(m, key, field) == Ok::<
                            Option<Seq<u8>>,
                            WrongType,
                        >(Some(h[field]))
                        &&& !h.contains_key(field) ==> hget_of(m, key, field) == Ok::<
                            Option<Seq<u8>>,
                            WrongType,
                        >(None)
                        &&& hexists_of(m, key, field) == Ok::<bool, WrongType>(
                            h.contains_key(field),
                        )
                        &&& hlen_of(m, key) == Ok::<u32, WrongType>(h.dom().len() as u32)
                    },
                    _ => {
                        &&& hget_of(m, key, field) is Err
                        &&& hexists_of(m, key, field) is Err
                        &&& hlen_of(m, key) is Err
                        &&& hkeys_of(m, key) is Err
                        &&& hgetall_of(m, key) is Err
                    },
                },
                None => {
                    &&& hget_of(m, key, field) == Ok::<Option<Seq<u8>>, WrongType>(None)
                    &&& hexists_of(m, key, field) == Ok::<bool, WrongType>(false)
                    &&& hlen_of(m, key) == Ok::<u32, WrongType>(0)
                    &&& hkeys_of(m, key) matches Ok(l) && l.len() == 0
                    &&& hgetall_of(m, key) matches Ok(l) && l.len() == 0
                },
            }
        }),
{
    reading_takes_out_what_expired(v, key, now);
    if held(v.map, key, now) is None {
        let h = Map::<Seq<char>, Seq<u8>>::empty();
        assert(h.dom() =~= Set::<Seq<char>>::empty());
        ordered_exists::<String, Seq<u8>>(h);
        ordered_len::<String, Seq<u8>>(ordered::<String, Seq<u8>>(h), h);
    }
}

/// The fields of a hash are listed each once, in the order of their bytes, with their
/// values.
pub proof fn fields_are_listed(
    v: StoreView,
    key: Seq<char>,
    h: Map<Seq<char>, Seq<u8>>,
    field: Seq<char>,
    now: u64,
)
    requires
        held(v.map, key, now) matches Some(e) && e.value == ValueView::Hash(h),
        h.dom().finite(),
    ensures
        ({
            let m = v.purge(key, now).map;
            &&& hgetall_of(m, key) matches Ok(l) && hkeys_of(m, key) matches Ok(ks) && {
                &&& l.len() == h.dom().len()
                &&& ks.len() == h.dom().len()
                &&& texts_in_order(ks)
                &&& forall|i: int|
                    0 <= i < l.len() ==> h.contains_key((#[trigger] l[i]).0) && h[l[i].0] == l[i].1
                        && ks[i] == l[i].0
                &&& ks.contains(field) == h.contains_key(field)
            }
        }),
{
    reading_takes_out_what_expired(v, key, now);
    let l = ordered::<String, Seq<u8>>(h);
    ordered_exists::<String, Seq<u8>>(h);
    ordered_len::<String, Seq<u8>>(l, h);
    let ks = hkeys_of(v.purge(key, now).map, key)->Ok_0;
    assert forall|i: int, j: int| 0 <= i < j < ks.len() implies bytes_before(
        encode_utf8(#[trigger] ks[i]),
        encode_utf8(#[trigger] ks[j]),
    ) by {
        assert(<String as Key>::before(l[i].0, l[j].0));
        lex_is_bytes_before(encode_utf8(l[i].0), encode_utf8(l[j].0));
    }
    assert forall|i: int| 0 <= i < l.len() implies h.contains_key((#[trigger] l[i]).0) && h[l[i].0]
        == l[i].1 && ks[i] == l[i].0 by {
        assert(h.contains_key(l[i].0));
    }
    if ks.contains(field) {
        let i = choose|i: int| 0 <= i < ks.len() && ks[i] == field;
        assert(h.contains_key(l[i].0));
    }
    if h.contains_key(field) {
        let i = choose|i: int| 0 <= i < l.len() && #[trigger] l[i].0 == field;
        assert(ks[i] == field);
    }
}

/// Adding a member makes it one, besides those that there were. A missing key begins a set
/// that never expires, and a set keeps its time of expiry. The result is whether the member
/// is new.
pub proof fn sadd_puts(v: StoreView, key: Seq<char>, member: Seq<u8>, now: u64)
    requires
        !v.closed,
    ensures
        ({
            let (w, out) = sadd_op(v, key, member, now);
            match held(v.map, key, now) {
                Some(e) => match e.value {
                    ValueView::Members(s) => {
                        &&& w.map == v.map.insert(
                            key,
                            EntryView {
                                value: ValueView::Members(s.insert(member)),
                                expire_at: e.expire_at,
                            },
                        )
                        &&& out == Ok::<bool, ListError>(!s.contains(member))
                    },
                    _ => w.map == v.map && out == Err::<bool, ListError>(ListError::WrongType),
                },
                None => {
                    &&& w.map == v.map.insert(
                        key,
                        EntryView {
                            value: ValueView::Members(Set::empty().insert(member)),
                            expire_at: None,
                        },
                    )
                    &&& out == Ok::<bool, ListError>(true)
                },
            }
        }),
{
    let (w, out) = sadd_op(v, key, member, now);
    reading_takes_out_what_expired(v, key, now);
    if held(v.map, key, now) is None {
        assert(w.map =~= v.map.insert(
            key,
            EntryView {
                value: ValueView::Members(Set::empty().insert(member)),
                expire_at: None,
            },
        ));
    }
}

/// Removing a member takes it out and leaves the others; with the last member the key goes
/// too. The result is whether the member was there.
pub proof fn srem_takes_out(v: StoreView, key: Seq<char>, member: Seq<u8>, now: u64)
    requires
        !v.closed,
    ensures
        ({
            let (w, out) = srem_op(v, key, member, now);
            match held(v.map, key, now) {
                Some(e) => match e.value {
                    ValueView::Members(s) => {
                        let rest = s.remove(member);
                        &&& w.map == (if rest.len() == 0 {
                            v.map.remove(key)
                        } else {
                            v.map.insert(
                                key,
                                EntryView {
                                    value: ValueView::Members(rest),
                                    expire_at: e.expire_at,
                                },
                            )
                        })
                        &&& out == Ok::<bool, ListError>(s.contains(member))
                    },
                    _ => w.map == v.map && out == Err::<bool, ListError>(ListError::WrongType),
                },
                None => {
                    &&& w.map == cleared(v.map, key, now)
                    &&& out == Ok::<bool, ListError>(false)
                },
            }
        }),
{
    let (w, out) = srem_op(v, key, member, now);
    reading_takes_out_what_expired(v, key, now);
    if held(v.map, key, now) is None {
        assert(Set::<Seq<u8>>::empty().remove(member) =~= Set::<Seq<u8>>::empty());
        assert(w.map =~= cleared(v.map, key, now));
    }
}

/// Whether something is a member, how many there are, and which: each once, in the order of
/// their bytes.
pub proof fn set_is_listed(v: StoreView, key: Seq<char>, member: Seq<u8>, now: u64)
    requires
        held(v.map, key, now) matches Some(e) ==> (e.value matches ValueView::Members(s)
            ==> s.finite()),
    ensures
        ({
            let m = v.purge(key, now).map;
            match held(v.map, key, now) {
                Some(e) => match e.value {
                    ValueView::Members(s) => {
                        &&& sismember_of(m, key, member) == Ok::<bool, WrongType>(
                            s.contains(member),
                        )
                        &&& scard_of(m, key) == Ok::<u32, WrongType>(s.len() as u32)
                        &&& smembers_of(m, key) matches Ok(l) && l.len() == s.len()
                            && blobs_in_order(l) && l.contains(member) == s.contains(member)
                    },
                    _ => {
                        &&& sismember_of(m, key, member) is Err
                        &&& scard_of(m, key) is Err
                        &&& smembers_of(m, key) is Err
                    },
                },
                None => {
                    &&& sismember_of(m, key, member) == Ok::<bool, WrongType>(false)
                    &&& scard_of(m, key) == Ok::<u32, WrongType>(0)
                    &&& smembers_of(m, key) matches Ok(l) && l.len() == 0
                },
            }
        }),
{
    reading_takes_out_what_expired(v, key, now);
    let s = match held(v.map, key, now) {
        Some(e) => match e.value {
            ValueView::Members(s) => s,
            _ => Set::empty(),
        },
        None => Set::empty(),
    };
    let l = listed_members(s);
    let o = ordered::<Vec<u8>, ()>(unit_map(s));
    listed_members_are(s);
    assert(unit_map(s).dom() =~= s);
    ordered_exists::<Vec<u8>, ()>(unit_map(s));
    assert forall|i: int, j: int| 0 <= i < j < l.len() implies bytes_before(
        #[trigger] l[i],
        #[trigger] l[j],
    ) by {
        assert(<Vec<u8> as Key>::before(o[i].0, o[j].0));
        lex_is_bytes_before(o[i].0, o[j].0);
    }
    assert(l.to_set().contains(member) == l.contains(member));
}

} // verus!
