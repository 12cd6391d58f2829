//! What a key holds: a value of one of five structure types, and when it expires.
//!
//! A blob, be it a plain value, an element, a field's value or a member, is an
//! opaque byte string: nothing here looks inside one.

use std::collections::VecDeque;
use vstd::prelude::*;
use crate::ranges::views;
use crate::score::is_nan;
use crate::sorted_map::{Item, SortedMap};
use crate::zset::ZSet;

verus! {

/// A structure-typed value.
pub enum Value {
    Bytes(Vec<u8>),
    List(VecDeque<Vec<u8>>),
    Hash(SortedMap<String, Vec<u8>>),
    Members(SortedMap<Vec<u8>, ()>),
    ZSet(ZSet),
}

/// The model of a value.
#[verifier::ext_equal]
pub enum ValueView {
    Bytes(Seq<u8>),
    List(Seq<Seq<u8>>),
    Hash(Map<Seq<char>, Seq<u8>>),
    Members(Set<Seq<u8>>),
    ZSet(Map<Seq<u8>, u64>),
}

impl View for Value {
    type V = ValueView;

    open spec fn view(&self) -> ValueView {
        match self {
            Value::Bytes(b) => ValueView::Bytes(b@),
            Value::List(l) => ValueView::List(views(l@)),
            Value::Hash(h) => ValueView::Hash(h@),
            Value::Members(s) => ValueView::Members(s@.dom()),
            Value::ZSet(z) => ValueView::ZSet(z@),
        }
    }
}

/// A stored record: a value, and when it expires, in milliseconds since the epoch.
pub struct Entry {
    pub value: Value,
    pub expire_at: Option<u64>,
}

/// The model of a stored record.
#[verifier::ext_equal]
pub struct EntryView {
    pub value: ValueView,
    pub expire_at: Option<u64>,
}

impl View for Entry {
    type V = EntryView;

    open spec fn view(&self) -> EntryView {
        EntryView { value: self.value@, expire_at: self.expire_at }
    }
}

/// The model of what a store holds.
pub type State = Map<Seq<char>, EntryView>;

/// Whether a value is one that a store can hold: its collections are finite, and every score
/// is a number.
pub open spec fn sound_value(v: ValueView) -> bool {
    match v {
        ValueView::Bytes(_) => true,
        ValueView::List(_) => true,
        ValueView::Hash(h) => h.dom().finite(),
        ValueView::Members(s) => s.finite(),
        ValueView::ZSet(z) => z.dom().finite() && forall|m: Seq<u8>| #[trigger]
            z.contains_key(m) ==> !is_nan(z[m]),
    }
}

/// Whether a state is one that a store can hold: it is finite, and so are its collections,
/// and every score is a number.
pub open spec fn sound(m: State) -> bool {
    &&& m.dom().finite()
    &&& forall|k: Seq<char>| #[trigger] m.contains_key(k) ==> sound_value(m[k].value)
}

/// Whether an entry has expired at the time `now`.
pub open spec fn expired(e: EntryView, now: u64) -> bool {
    match e.expire_at {
        Some(t) => t <= now,
        None => false,
    }
}

/// Whether an entry has expired at the time `now`.
pub fn is_expired(e: &Entry, now: u64) -> (yes: bool)
    ensures
        yes == expired(e@, now),
{
    match e.expire_at {
        Some(t) => t <= now,
        None => false,
    }
}

/// Copy a list of blobs.
fn dup_list(l: &VecDeque<Vec<u8>>) -> (copy: VecDeque<Vec<u8>>)
    ensures
        views(copy@) == views(l@),
{
    let mut copy: VecDeque<Vec<u8>> = VecDeque::new();
    let mut i: usize = 0;
    while i < l.len()
        invariant
            i <= l@.len(),
            views(copy@) == views(l@).take(i as int),
        decreases l@.len() - i,
    {
        let item = l[i].dup();
        let ghost was = copy@;
        copy.push_back(item);
        proof {
            assert(views(copy@) =~= views(was).push(item@));
            assert(views(l@).take(i + 1) =~= views(l@).take(i as int).push(item@));
        }
        i += 1;
    }
    proof {
        assert(views(l@).take(i as int) =~= views(l@));
    }
    copy
}

impl Item for Value {
    fn dup(&self) -> (copy: Self) {
        match self {
            Value::Bytes(b) => Value::Bytes(b.dup()),
            Value::List(l) => Value::List(dup_list(l)),
            Value::Hash(h) => Value::Hash(h.dup()),
            Value::Members(s) => Value::Members(s.dup()),
            Value::ZSet(z) => Value::ZSet(z.dup()),
        }
    }
}

impl Item for Entry {
    fn dup(&self) -> (copy: Self) {
        Entry { value: self.value.dup(), expire_at: self.expire_at }
    }
}

} // verus!
