//! What the operations on keys do, key by key and to the millisecond.

use vstd::prelude::*;
use vstd::utf8::encode_utf8;
use crate::classic::plain_at;
use crate::errors::{IoError, WrongType};
use crate::expiry::{expiry_in, expiry_of_ttl, keys_of, live, purged, ttl_of};
use crate::laws::orders::{bytes_before, lex_is_bytes_before, texts_in_order};
use crate::model::{
    bytes_at, clear_op, del_op, expire_op, persist_op, purge_map, set_op, sweep_map_is_live,
    sweep_op, StoreView,
};
use crate::mutate::{with_bytes, with_expiry};
use crate::sorted_map::{ordered, ordered_exists, ordered_len, Key};
use crate::value::{EntryView, State, ValueView};

verus! {

/// What a key holds at the time `now`: nothing once its time of expiry has come.
pub open spec fn held(m: State, key: Seq<char>, now: u64) -> Option<EntryView> {
    if !m.contains_key(key) {
        None
    } else {
        match m[key].expire_at {
            Some(t) => if now < t {
                Some(m[key])
            } else {
                None
            },
            None => Some(m[key]),
        }
    }
}

/// The state without the key, if its time of expiry has come.
pub open spec fn cleared(m: State, key: Seq<char>, now: u64) -> State {
    if m.contains_key(key) && held(m, key, now) is None {
        m.remove(key)
    } else {
        m
    }
}

/// When a key expires that is given `ms` milliseconds at the time `now`: the time is
/// counted in 64 bits.
pub open spec fn after_ms(now: u64, ms: int) -> u64 {
    if now + ms < 0x1_0000_0000_0000_0000 {
        (now + ms) as u64
    } else {
        (now + ms - 0x1_0000_0000_0000_0000) as u64
    }
}

/// Whoever reads a key finds what it holds at that time, and takes it out if its time has
/// come; every other key stays as it is, and so does the log of a closed store.
pub proof fn reading_takes_out_what_expired(v: StoreView, key: Seq<char>, now: u64)
    ensures
        v.purge(key, now).map == cleared(v.map, key, now),
        purged(v.map, key, now) == cleared(v.map, key, now),
        held(v.map, key, now) matches Some(e) ==> v.purge(key, now) == v && v.map.contains_key(key)
            && v.map[key] == e,
        held(v.map, key, now) is None ==> !v.purge(key, now).map.contains_key(key),
        !v.map.contains_key(key) ==> v.purge(key, now) == v,
        v.closed ==> v.purge(key, now).owed == v.owed && v.purge(key, now).log == v.log,
{
    purge_map(v, key, now);
}

/// Reading bytes: those that the key holds at that time, nothing if it holds nothing, and
/// an error if it holds another type.
pub proof fn get_reads(v: StoreView, key: Seq<char>, now: u64)
    ensures
        bytes_at(v.purge(key, now).map, key) == (match held(v.map, key, now) {
            Some(e) => match e.value {
                ValueView::Bytes(b) => Ok::<Option<Seq<u8>>, WrongType>(Some(b)),
                _ => Err(WrongType),
            },
            None => Ok(None),
        }),
{
    reading_takes_out_what_expired(v, key, now);
}

/// Reading a key of the plain engine.
pub proof fn plain_get_reads(m: State, key: Seq<char>, now: u64)
    ensures
        purged(m, key, now) == cleared(m, key, now),
        purged(m, key, now).contains_key(key) == held(m, key, now) is Some,
        held(m, key, now) matches Some(e) ==> (e.value matches ValueView::Bytes(b) ==> plain_at(
            purged(m, key, now),
            key,
        ) == Some(b)),
        held(m, key, now) is None ==> plain_at(purged(m, key, now), key) is None,
{
}

/// Setting gives the key the bytes and a time of expiry, and changes no other key.
pub proof fn set_puts(
    v: StoreView,
    key: Seq<char>,
    value: Seq<u8>,
    ttl_ms: Option<i64>,
    now: u64,
)
    requires
        !v.closed,
    ensures
        ({
            let (w, out) = set_op(v, key, value, ttl_ms, now);
            let expire_at = match ttl_ms {
                Some(ms) => if ms > 0 {
                    Some(after_ms(now, ms as int))
                } else {
                    None
                },
                None => None,
            };
            let e = EntryView { value: ValueView::Bytes(value), expire_at };
            &&& out == Ok::<(), IoError>(())
            &&& w.map == v.map.insert(key, e)
            &&& with_bytes(v.map, key, value, expiry_of_ttl(ttl_ms, now)) == v.map.insert(key, e)
        }),
{
}

/// What is set with a time to live is read and has what is left of that time, until it is
/// over; from then on the key is missing.
pub proof fn set_lives_its_time(
    v: StoreView,
    key: Seq<char>,
    value: Seq<u8>,
    ms: i64,
    now: u64,
    t: u64,
)
    requires
        !v.closed,
        ms > 0,
        now + ms <= u64::MAX,
        now <= t,
    ensures
        ({
            let w = set_op(v, key, value, Some(ms), now).0.purge(key, t);
            if t < now + ms {
                &&& bytes_at(w.map, key) == Ok::<Option<Seq<u8>>, WrongType>(Some(value))
                &&& ttl_of(w.map, key, t) == now + ms - t
            } else {
                &&& !w.map.contains_key(key)
                &&& bytes_at(w.map, key) == Ok::<Option<Seq<u8>>, WrongType>(None)
                &&& ttl_of(w.map, key, t) == -2
            }
        }),
{
    set_puts(v, key, value, Some(ms), now);
}

/// What is set without a time to live, or with one that is not positive, stays.
pub proof fn set_without_ttl_stays(
    v: StoreView,
    key: Seq<char>,
    value: Seq<u8>,
    ttl_ms: Option<i64>,
    now: u64,
    t: u64,
)
    requires
        !v.closed,
        ttl_ms matches Some(ms) ==> ms <= 0,
    ensures
        ({
            let w = set_op(v, key, value, ttl_ms, now).0.purge(key, t);
            &&& bytes_at(w.map, key) == Ok::<Option<Seq<u8>>, WrongType>(Some(value))
            &&& ttl_of(w.map, key, t) == -1
        }),
{
    set_puts(v, key, value, ttl_ms, now);
}

/// Deleting takes the key out, whether or not it has expired, and says whether it was
/// there.
pub proof fn del_takes_out(v: StoreView, key: Seq<char>)
    requires
        !v.closed,
    ensures
        del_op(v, key).1 == Ok::<bool, IoError>(v.map.contains_key(key)),
        del_op(v, key).0.map == v.map.remove(key),
{
    if !v.map.contains_key(key) {
        assert(v.map.remove(key) =~= v.map);
    }
}

/// Giving a key a time of expiry changes nothing else of it, and says whether the key is
/// there. A negative number of milliseconds counts as none.
pub proof fn expire_sets(v: StoreView, key: Seq<char>, ms: i64, now: u64)
    requires
        !v.closed,
    ensures
        ({
            let (w, out) = expire_op(v, key, ms, now);
            let at = after_ms(
                now,
                if ms > 0 {
                    ms as int
                } else {
                    0
                },
            );
            let n = if v.map.contains_key(key) {
                v.map.insert(
                    key,
                    EntryView { value: v.map[key].value, expire_at: Some(at) },
                )
            } else {
                v.map
            };
            &&& out == Ok::<bool, IoError>(v.map.contains_key(key))
            &&& w.map == n
            &&& with_expiry(v.map, key, Some(expiry_in(ms, now))) == n
        }),
{
}

/// A key that is to expire in no time is missing at once.
pub proof fn expire_in_no_time(v: StoreView, key: Seq<char>, ms: i64, now: u64, t: u64)
    requires
        !v.closed,
        ms <= 0,
        now <= t,
    ensures
        !expire_op(v, key, ms, now).0.purge(key, t).map.contains_key(key),
{
    expire_sets(v, key, ms, now);
}

/// Lifting the time of expiry changes nothing else of a key, and says whether the key is
/// there.
pub proof fn persist_lifts(v: StoreView, key: Seq<char>)
    requires
        !v.closed,
    ensures
        ({
            let (w, out) = persist_op(v, key);
            let n = if v.map.contains_key(key) {
                v.map.insert(key, EntryView { value: v.map[key].value, expire_at: None })
            } else {
                v.map
            };
            &&& out == Ok::<bool, IoError>(v.map.contains_key(key))
            &&& w.map == n
            &&& with_expiry(v.map, key, None) == n
        }),
{
}

/// The time that a key has left is that up to its time of expiry, as a signed number of 64
/// bits.
pub proof fn ttl_counts(v: StoreView, key: Seq<char>, now: u64)
    ensures
        ({
            let left = ttl_of(v.purge(key, now).map, key, now);
            match held(v.map, key, now) {
                Some(e) => match e.expire_at {
                    Some(t) => left == (if t - now <= i64::MAX {
                        t - now
                    } else {
                        t - now - 0x1_0000_0000_0000_0000
                    }),
                    None => left == -1,
                },
                None => left == -2,
            }
        }),
        ttl_of(purged(v.map, key, now), key, now) == ttl_of(v.purge(key, now).map, key, now),
{
    reading_takes_out_what_expired(v, key, now);
    match held(v.map, key, now) {
        Some(e) => match e.expire_at {
            Some(t) => {
                let left: u64 = (t - now) as u64;
                assert(left > 0x7fff_ffff_ffff_ffff ==> left as i64 == left
                    - 0x1_0000_0000_0000_0000) by (bit_vector);
            },
            None => {},
        },
        None => {},
    }
}

/// Clearing leaves no key.
pub proof fn clear_empties(v: StoreView, key: Seq<char>)
    requires
        !v.closed,
    ensures
        clear_op(v).1 == Ok::<(), IoError>(()),
        !clear_op(v).0.map.contains_key(key),
{
}

/// Sweeping takes out exactly the keys whose time of expiry has come.
pub proof fn sweep_takes_out(v: StoreView, key: Seq<char>, now: u64)
    requires
        v.map.dom().finite(),
    ensures
        ({
            let n = sweep_op(v, now).map;
            &&& n.contains_key(key) == held(v.map, key, now) is Some
            &&& held(v.map, key, now) matches Some(e) ==> n[key] == e
            &&& live(v.map, now).contains_key(key) == held(v.map, key, now) is Some
            &&& held(v.map, key, now) matches Some(e) ==> live(v.map, now)[key] == e
        }),
{
    ordered_exists::<String, EntryView>(v.map);
    sweep_map_is_live(v, now);
}

/// The keys that are listed are those that hold something at that time: each once, in the
/// order of their bytes.
pub proof fn keys_are_listed(m: State, now: u64, key: Seq<char>)
    requires
        m.dom().finite(),
    ensures
        ({
            let l = keys_of(live(m, now));
            &&& texts_in_order(l)
            &&& l.contains(key) == held(m, key, now) is Some
            &&& l.len() == live(m, now).dom().len()
        }),
{
    let n = live(m, now);
    assert(n.dom().subset_of(m.dom()));
    vstd::set_lib::lemma_set_subset_finite(m.dom(), n.dom());
    ordered_exists::<String, EntryView>(n);
    let o = ordered::<String, EntryView>(n);
    let l = keys_of(n);
    ordered_len::<String, EntryView>(o, n);
    assert forall|i: int, j: int| 0 <= i < j < l.len() implies bytes_before(
        encode_utf8(#[trigger] l[i]),
        encode_utf8(#[trigger] l[j]),
    ) by {
        assert(<String as Key>::before(o[i].0, o[j].0));
        lex_is_bytes_before(encode_utf8(o[i].0), encode_utf8(o[j].0));
    }
    if l.contains(key) {
        let i = choose|i: int| 0 <= i < l.len() && l[i] == key;
        assert(n.contains_key(o[i].0));
    }
    if n.contains_key(key) {
        let i = choose|i: int| 0 <= i < o.len() && #[trigger] o[i].0 == key;
        assert(l[i] == key);
    }
}

} // verus!
