//! What each record of a log does to the state when it is replayed.

use vstd::prelude::*;
use crate::laws::collections::is_pushed;
use crate::laws::orders::bits_tell_numbers;
use crate::laws::sorted_sets::no_number;
use crate::log::records_from;
use crate::model::open_op;
use crate::record::{decode, Op};
use crate::replay::{apply_op, replayed};
use crate::value::{EntryView, State, ValueView};

verus! {

/// An entry with another value, which keeps its time of expiry.
pub open spec fn changed(e: EntryView, value: ValueView) -> EntryView {
    EntryView { value, expire_at: e.expire_at }
}

/// An entry that never expires.
pub open spec fn lasting(value: ValueView) -> EntryView {
    EntryView { value, expire_at: None }
}

/// Records of keys: each is done as it says, whether or not the key has expired.
pub proof fn key_records_are_done(
    m: State,
    key: Seq<char>,
    value: Seq<u8>,
    expire_at: Option<u64>,
    at: u64,
)
    ensures
        apply_op(m, Op::Put { key, value, expire_at }) == m.insert(
            key,
            EntryView { value: ValueView::Bytes(value), expire_at },
        ),
        apply_op(m, Op::Del { key }) == m.remove(key),
        apply_op(m, Op::Clear) == Map::<Seq<char>, EntryView>::empty(),
        m.contains_key(key) ==> apply_op(m, Op::Expire { key, at }) == m.insert(
            key,
            EntryView { value: m[key].value, expire_at: Some(at) },
        ),
        !m.contains_key(key) ==> apply_op(m, Op::Expire { key, at }) == m,
        m.contains_key(key) ==> apply_op(m, Op::Persist { key }) == m.insert(
            key,
            EntryView { value: m[key].value, expire_at: None },
        ),
        !m.contains_key(key) ==> apply_op(m, Op::Persist { key }) == m,
{
}

/// Records of lists. One that does not fit the type that the key holds changes nothing.
pub proof fn list_records_are_done(m: State, key: Seq<char>, value: Seq<u8>, front: bool)
    ensures
        ({
            let n = apply_op(m, Op::Push { key, value, front });
            if !m.contains_key(key) {
                n == m.insert(key, lasting(ValueView::List(seq![value])))
            } else {
                match m[key].value {
                    ValueView::List(l) => {
                        &&& n.contains_key(key) && n[key].value is List
                        &&& is_pushed(n[key].value->List_0, l, value, front)
                        &&& n == m.insert(key, changed(m[key], n[key].value))
                    },
                    _ => n == m,
                }
            }
        }),
        ({
            let n = apply_op(m, Op::Pop { key, front });
            if !m.contains_key(key) {
                n == m
            } else {
                match m[key].value {
                    ValueView::List(l) => if l.len() <= 1 {
                        n == m.remove(key)
                    } else {
                        &&& n.contains_key(key) && n[key].value is List
                        &&& is_pushed(
                            l,
                            n[key].value->List_0,
                            if front {
                                l[0]
                            } else {
                                l[l.len() - 1]
                            },
                            front,
                        )
                        &&& n == m.insert(key, changed(m[key], n[key].value))
                    },
                    _ => n == m,
                }
            }
        }),
{
    if !m.contains_key(key) {
        assert(seq![value] + Seq::<Seq<u8>>::empty() =~= seq![value]);
        assert(Seq::<Seq<u8>>::empty().push(value) =~= seq![value]);
        assert(m.remove(key) =~= m);
    }
}

/// Records of hashes.
pub proof fn hash_records_are_done(
    m: State,
    key: Seq<char>,
    field: Seq<char>,
    value: Seq<u8>,
)
    ensures
        apply_op(m, Op::HSet { key, field, value }) == (if !m.contains_key(key) {
            m.insert(key, lasting(ValueView::Hash(Map::empty().insert(field, value))))
        } else {
            match m[key].value {
                ValueView::Hash(h) => m.insert(
                    key,
                    changed(m[key], ValueView::Hash(h.insert(field, value))),
                ),
                _ => m,
            }
        }),
        apply_op(m, Op::HDel { key, field }) == (if !m.contains_key(key) {
            m
        } else {
            match m[key].value {
                ValueView::Hash(h) => if h.remove(field).dom().len() == 0 {
                    m.remove(key)
                } else {
                    m.insert(key, changed(m[key], ValueView::Hash(h.remove(field))))
                },
                _ => m,
            }
        }),
{
    if !m.contains_key(key) {
        assert(Map::<Seq<char>, Seq<u8>>::empty().remove(field).dom() =~= Set::<
            Seq<char>,
        >::empty());
        assert(m.remove(key) =~= m);
    }
}

/// Records of sets.
pub proof fn set_records_are_done(m: State, key: Seq<char>, member: Seq<u8>)
    ensures
        apply_op(m, Op::SAdd { key, member }) == (if !m.contains_key(key) {
            m.insert(key, lasting(ValueView::Members(Set::empty().insert(member))))
        } else {
            match m[key].value {
                ValueView::Members(s) => m.insert(
                    key,
                    changed(m[key], ValueView::Members(s.insert(member))),
                ),
                _ => m,
            }
        }),
        apply_op(m, Op::SRem { key, member }) == (if !m.contains_key(key) {
            m
        } else {
            match m[key].value {
                ValueView::Members(s) => if s.remove(member).len() == 0 {
                    m.remove(key)
                } else {
                    m.insert(key, changed(m[key], ValueView::Members(s.remove(member))))
                },
                _ => m,
            }
        }),
{
    if !m.contains_key(key) {
        assert(Set::<Seq<u8>>::empty().remove(member) =~= Set::<Seq<u8>>::empty());
        assert(m.remove(key) =~= m);
    }
}

/// Records of sorted sets. A score that is no number is passed over.
pub proof fn zset_records_are_done(m: State, key: Seq<char>, score: u64, member: Seq<u8>)
    ensures
        apply_op(m, Op::ZAdd { key, score, member }) == (if no_number(score) {
            m
        } else if !m.contains_key(key) {
            m.insert(key, lasting(ValueView::ZSet(Map::empty().insert(member, score))))
        } else {
            match m[key].value {
                ValueView::ZSet(z) => m.insert(
                    key,
                    changed(m[key], ValueView::ZSet(z.insert(member, score))),
                ),
                _ => m,
            }
        }),
        apply_op(m, Op::ZRem { key, member }) == (if !m.contains_key(key) {
            m
        } else {
            match m[key].value {
                ValueView::ZSet(z) => if z.remove(member).dom().len() == 0 {
                    m.remove(key)
                } else {
                    m.insert(key, changed(m[key], ValueView::ZSet(z.remove(member))))
                },
                _ => m,
            }
        }),
{
    bits_tell_numbers(score);
    if !m.contains_key(key) {
        assert(Map::<Seq<u8>, u64>::empty().remove(member).dom() =~= Set::<Seq<u8>>::empty());
        assert(m.remove(key) =~= m);
    }
}

/// Records are done one after the other, and what cannot be read is passed over. A log is
/// replayed from nothing.
pub proof fn records_are_done_in_order(
    m: State,
    payloads: Seq<Seq<u8>>,
    p: Seq<u8>,
    data: Seq<u8>,
    fsync: bool,
)
    ensures
        replayed(m, Seq::<Seq<u8>>::empty()) == m,
        replayed(m, payloads.push(p)) == (match decode(p) {
            Some(op) => apply_op(replayed(m, payloads), op),
            None => replayed(m, payloads),
        }),
        open_op(data, fsync).map == replayed(
            Map::<Seq<char>, EntryView>::empty(),
            records_from(data, 0).0,
        ),
{
    assert(payloads.push(p).drop_last() =~= payloads);
}

} // verus!
