//! Expiry: when a key expires, and what is left of a state without what has expired.

use vstd::prelude::*;
use crate::ranges::views;
use crate::sorted_map::{is_ordered, ordered, ordered_is, Item, Key, SortedMap};
use crate::value::{expired, is_expired, Entry, EntryView, State};

verus! {

/// The state without a key that has expired.
pub open spec fn purged(m: State, key: Seq<char>, now: u64) -> State {
    if m.contains_key(key) && expired(m[key], now) {
        m.remove(key)
    } else {
        m
    }
}

/// The state without all that has expired.
pub open spec fn live(m: State, now: u64) -> State {
    Map::new(|k: Seq<char>| m.contains_key(k) && !expired(m[k], now), |k: Seq<char>| m[k])
}

/// The entries of a listing that have not expired.
pub open spec fn live_list(l: Seq<(Seq<char>, EntryView)>, now: u64) -> Seq<(Seq<char>, EntryView)>
    decreases l.len(),
{
    if l.len() == 0 {
        Seq::empty()
    } else {
        let init = live_list(l.drop_last(), now);
        if expired(l.last().1, now) {
            init
        } else {
            init.push(l.last())
        }
    }
}

/// The keys of a listing that have expired.
pub open spec fn dead_keys(l: Seq<(Seq<char>, EntryView)>, now: u64) -> Seq<Seq<char>>
    decreases l.len(),
{
    if l.len() == 0 {
        Seq::empty()
    } else {
        let init = dead_keys(l.drop_last(), now);
        if expired(l.last().1, now) {
            init.push(l.last().0)
        } else {
            init
        }
    }
}

/// Every key that has expired is among the dead, and no other.
pub proof fn dead_keys_are(l: Seq<(Seq<char>, EntryView)>, now: u64)
    ensures
        forall|i: int|
            0 <= i < l.len() && expired(l[i].1, now) ==> dead_keys(l, now).contains(
                #[trigger] l[i].0,
            ),
        forall|k: Seq<char>| #[trigger]
            dead_keys(l, now).contains(k) ==> exists|i: int|
                0 <= i < l.len() && #[trigger] l[i].0 == k && expired(l[i].1, now),
    decreases l.len(),
{
    if l.len() > 0 {
        let init = l.drop_last();
        dead_keys_are(init, now);
        let t = dead_keys(init, now);
        let out = dead_keys(l, now);
        assert forall|i: int| 0 <= i < l.len() && expired(l[i].1, now) implies out.contains(
            #[trigger] l[i].0,
        ) by {
            if i < l.len() - 1 {
                assert(init[i] == l[i]);
                let a = choose|a: int| 0 <= a < t.len() && t[a] == init[i].0;
                assert(out[a] == l[i].0);
            } else {
                assert(out[out.len() - 1] == l[i].0);
            }
        }
        assert forall|k: Seq<char>| #[trigger] out.contains(k) implies exists|i: int|
            0 <= i < l.len() && #[trigger] l[i].0 == k && expired(l[i].1, now) by {
            let a = choose|a: int| 0 <= a < out.len() && out[a] == k;
            if a < t.len() {
                assert(t[a] == k);
                assert(t.contains(k));
                let i = choose|i: int|
                    0 <= i < init.len() && #[trigger] init[i].0 == k && expired(init[i].1, now);
                assert(l[i].0 == k);
            } else {
                assert(l[l.len() - 1].0 == k);
            }
        }
    }
}

/// What is listed of the entries that have not expired.
proof fn live_list_items(l: Seq<(Seq<char>, EntryView)>, now: u64)
    requires
        forall|i: int, j: int|
            0 <= i < j < l.len() ==> <String as Key>::before(#[trigger] l[i].0, #[trigger] l[j].0),
    ensures
        forall|a: int|
            0 <= a < live_list(l, now).len() ==> l.contains(#[trigger] live_list(l, now)[a])
                && !expired(live_list(l, now)[a].1, now),
        forall|i: int|
            0 <= i < l.len() && !expired(l[i].1, now) ==> live_list(l, now).contains(
                #[trigger] l[i],
            ),
        forall|a: int, b: int|
            0 <= a < b < live_list(l, now).len() ==> <String as Key>::before(
                #[trigger] live_list(l, now)[a].0,
                #[trigger] live_list(l, now)[b].0,
            ),
    decreases l.len(),
{
    if l.len() > 0 {
        let init = l.drop_last();
        assert forall|i: int, j: int| 0 <= i < j < init.len() implies <String as Key>::before(
            #[trigger] init[i].0,
            #[trigger] init[j].0,
        ) by {
            assert(init[i] == l[i] && init[j] == l[j]);
        }
        live_list_items(init, now);
        let t = live_list(init, now);
        let out = live_list(l, now);
        assert forall|a: int| 0 <= a < out.len() implies l.contains(#[trigger] out[a]) && !expired(
            out[a].1,
            now,
        ) by {
            if a < t.len() {
                assert(out[a] == t[a]);
                let i = choose|i: int| 0 <= i < init.len() && init[i] == t[a];
                assert(l[i] == out[a]);
            } else {
                assert(l[l.len() - 1] == out[a]);
            }
        }
        assert forall|i: int| 0 <= i < l.len() && !expired(l[i].1, now) implies out.contains(
            #[trigger] l[i],
        ) by {
            if i < l.len() - 1 {
                assert(init[i] == l[i]);
                let a = choose|a: int| 0 <= a < t.len() && t[a] == init[i];
                assert(out[a] == l[i]);
            } else {
                assert(out[out.len() - 1] == l[i]);
            }
        }
        assert forall|a: int, b: int| 0 <= a < b < out.len() implies <String as Key>::before(
            #[trigger] out[a].0,
            #[trigger] out[b].0,
        ) by {
            assert(out[a] == t[a]);
            if b < t.len() {
                assert(out[b] == t[b]);
            } else {
                let i = choose|i: int| 0 <= i < init.len() && init[i] == t[a];
                assert(l[i] == out[a]);
                assert(<String as Key>::before(l[i].0, l[l.len() - 1].0));
            }
        }
    }
}

/// The entries of a state that have not expired are listed in the order of the whole.
pub proof fn live_list_is(m: State, now: u64)
    requires
        is_ordered::<String, EntryView>(ordered::<String, EntryView>(m), m),
    ensures
        live_list(ordered::<String, EntryView>(m), now) == ordered::<String, EntryView>(
            live(m, now),
        ),
        is_ordered::<String, EntryView>(
            ordered::<String, EntryView>(live(m, now)),
            live(m, now),
        ),
{
    let l = ordered::<String, EntryView>(m);
    let t = live_list(l, now);
    let lv = live(m, now);
    live_list_items(l, now);
    assert forall|a: int| 0 <= a < t.len() implies lv.contains_key(#[trigger] t[a].0) && lv[t[a].0]
        == t[a].1 by {
        let i = choose|i: int| 0 <= i < l.len() && l[i] == t[a];
        assert(m.contains_key(l[i].0));
    }
    assert forall|k: Seq<char>| #[trigger] lv.contains_key(k) implies exists|a: int|
        0 <= a < t.len() && #[trigger] t[a].0 == k by {
        assert(m.contains_key(k));
        let i = choose|i: int| 0 <= i < l.len() && #[trigger] l[i].0 == k;
        assert(t.contains(l[i]));
        let a = choose|a: int| 0 <= a < t.len() && t[a] == l[i];
        assert(t[a].0 == k);
    }
    ordered_is::<String, EntryView>(t, lv);
}

/// The time of expiry that a time to live gives: none for one that is not positive.
/// The sum is taken modulo 2^64.
pub open spec fn expiry_of_ttl(ttl_ms: Option<i64>, now: u64) -> Option<u64> {
    match ttl_ms {
        Some(ms) => if ms > 0 {
            Some(expiry_in(ms, now))
        } else {
            None
        },
        None => None,
    }
}

/// The time `ms` milliseconds from `now`, or `now` itself for a negative number. The
/// sum is taken modulo 2^64.
pub open spec fn expiry_in(ms: i64, now: u64) -> u64 {
    ((now + (if ms > 0 {
        ms as int
    } else {
        0
    })) % 0x1_0000_0000_0000_0000) as u64
}

/// The milliseconds that a key has left: -1 if it never expires, -2 if it is missing.
pub open spec fn ttl_of(m: State, key: Seq<char>, now: u64) -> i64 {
    if m.contains_key(key) {
        match m[key].expire_at {
            Some(t) => (t - now) as i64,
            None => (-1) as i64,
        }
    } else {
        (-2) as i64
    }
}

/// The keys of a state, in order.
pub open spec fn keys_of(m: State) -> Seq<Seq<char>> {
    first_parts(ordered::<String, EntryView>(m))
}

/// The first parts of pairs.
pub open spec fn first_parts<A, B>(l: Seq<(A, B)>) -> Seq<A> {
    Seq::new(l.len(), |i: int| l[i].0)
}

/// Take a key out that has expired.
pub fn purge_key(map: &mut SortedMap<String, Entry>, key: &str, now: u64)
    ensures
        final(map)@ == purged(old(map)@, key@, now),
{
    let gone = match map.get(key) {
        Some(e) => is_expired(e, now),
        None => false,
    };
    if gone {
        map.remove(key);
    }
}

/// The time `ms` milliseconds from `now`, or `now` itself for a negative number.
pub fn time_in(ms: i64, now: u64) -> (at: u64)
    ensures
        at == expiry_in(ms, now),
{
    let ahead: u64 = if ms > 0 {
        ms as u64
    } else {
        0
    };
    now.wrapping_add(ahead)
}

/// When a key expires that is given a time to live.
pub fn expire_at_from_ttl(ttl_ms: Option<i64>, now: u64) -> (at: Option<u64>)
    ensures
        at == expiry_of_ttl(ttl_ms, now),
{
    match ttl_ms {
        Some(ms) => if ms > 0 {
            Some(time_in(ms, now))
        } else {
            None
        },
        None => None,
    }
}

/// The milliseconds that a key has left, if it has not expired.
pub fn time_left(map: &SortedMap<String, Entry>, key: &str, now: u64) -> (ms: i64)
    requires
        map@.contains_key(key@) ==> !expired(map@[key@], now),
    ensures
        ms == ttl_of(map@, key@, now),
{
    match map.get(key) {
        Some(e) => match e.expire_at {
            Some(t) => (t - now) as i64,
            None => -1,
        },
        None => -2,
    }
}

/// The keys that have not expired at the time `now`, in order.
pub fn live_keys(map: &SortedMap<String, Entry>, now: u64) -> (out: Vec<String>)
    ensures
        views(out@) == keys_of(live(map@, now)),
{
    let ghost s = ordered::<String, EntryView>(map@);
    let n: usize = map.len();
    let mut out: Vec<String> = Vec::new();
    let mut i: usize = 0;
    proof {
        assert(views(out@) =~= first_parts(live_list(s.take(0), now)));
    }
    while i < n
        invariant
            i <= n,
            n == s.len(),
            s == ordered::<String, EntryView>(map@),
            views(out@) == first_parts(live_list(s.take(i as int), now)),
        decreases n - i,
    {
        proof {
            assert(s.take(i + 1).drop_last() =~= s.take(i as int));
        }
        if !is_expired(map.val_at(i), now) {
            let ghost was = out@;
            let key = map.key_at(i).dup();
            out.push(key);
            proof {
                assert(views(out@) =~= views(was).push(key@));
                assert(first_parts(live_list(s.take(i + 1), now)) =~= first_parts(
                    live_list(s.take(i as int), now),
                ).push(key@));
            }
        }
        i += 1;
    }
    proof {
        assert(s.take(i as int) =~= s);
        live_list_is(map@, now);
    }
    out
}

/// The keys that have expired at the time `now`, in order.
pub fn expired_keys(map: &SortedMap<String, Entry>, now: u64) -> (out: Vec<String>)
    ensures
        views(out@) == dead_keys(ordered::<String, EntryView>(map@), now),
        is_ordered::<String, EntryView>(ordered::<String, EntryView>(map@), map@),
{
    let ghost s = ordered::<String, EntryView>(map@);
    let n: usize = map.len();
    let mut out: Vec<String> = Vec::new();
    let mut i: usize = 0;
    proof {
        assert(views(out@) =~= dead_keys(s.take(0), now));
    }
    while i < n
        invariant
            i <= n,
            n == s.len(),
            s == ordered::<String, EntryView>(map@),
            views(out@) == dead_keys(s.take(i as int), now),
        decreases n - i,
    {
        proof {
            assert(s.take(i + 1).drop_last() =~= s.take(i as int));
        }
        if is_expired(map.val_at(i), now) {
            let ghost was = out@;
            let key = map.key_at(i).dup();
            out.push(key);
            proof {
                assert(views(out@) =~= views(was).push(key@));
            }
        }
        i += 1;
    }
    proof {
        assert(s.take(i as int) =~= s);
    }
    out
}

/// Take out every key that has expired at the time `now`: how many.
pub fn sweep_map(map: &mut SortedMap<String, Entry>, now: u64) -> (n: u32)
    ensures
        final(map)@ == live(old(map)@, now),
        n == (old(map)@.dom().len() - final(map)@.dom().len()) as u32,
        final(map)@.dom().len() <= old(map)@.dom().len(),
{
    let ghost m = map@;
    let ghost s = ordered::<String, EntryView>(m);
    let n: usize = map.len();
    let mut gone: Vec<String> = Vec::new();
    let mut i: usize = 0;
    while i < n
        invariant
            i <= n,
            n == s.len(),
            m == map@,
            s == ordered::<String, EntryView>(m),
            is_ordered::<String, EntryView>(s, m),
            forall|a: int|
                0 <= a < gone@.len() ==> m.contains_key((#[trigger] gone@[a])@) && expired(
                    m[gone@[a]@],
                    now,
                ),
            forall|b: int|
                0 <= b < i && expired(#[trigger] s[b].1, now) ==> exists|a: int|
                    0 <= a < gone@.len() && (#[trigger] gone@[a])@ == s[b].0,
        decreases n - i,
    {
        proof {
            assert(m.contains_key(s[i as int].0));
        }
        if is_expired(map.val_at(i), now) {
            let ghost was = gone@;
            gone.push(map.key_at(i).dup());
            proof {
                assert forall|b: int|
                    0 <= b < i + 1 && expired(#[trigger] s[b].1, now) implies exists|a: int|
                    0 <= a < gone@.len() && (#[trigger] gone@[a])@ == s[b].0 by {
                    if b < i {
                        let a = choose|a: int|
                            0 <= a < was.len() && (#[trigger] was[a])@ == s[b].0;
                        assert(gone@[a]@ == s[b].0);
                    } else {
                        assert(gone@[was.len() as int]@ == s[b].0);
                    }
                }
            }
        }
        i += 1;
    }
    let ghost lv = live(m, now);
    proof {
        assert forall|k: Seq<char>| m.contains_key(k) && expired(m[k], now) implies exists|
            a: int,
        |
            0 <= a < gone@.len() && #[trigger] gone@[a]@ == k by {
            let b = choose|b: int| 0 <= b < s.len() && #[trigger] s[b].0 == k;
            assert(expired(s[b].1, now));
        }
    }
    let mut j: usize = 0;
    while j < gone.len()
        invariant
            j <= gone@.len(),
            forall|k: Seq<char>| #[trigger]
                map@.contains_key(k) ==> m.contains_key(k) && map@[k] == m[k],
            forall|k: Seq<char>|
                m.contains_key(k) && !expired(m[k], now) ==> #[trigger]
                    map@.contains_key(k),
            forall|a: int|
                0 <= a < gone@.len() ==> m.contains_key((#[trigger] gone@[a])@) && expired(
                    m[gone@[a]@],
                    now,
                ),
            forall|a: int|
                0 <= a < j ==> !map@.contains_key((#[trigger] gone@[a])@),
        decreases gone@.len() - j,
    {
        map.remove(gone[j].as_str());
        j += 1;
    }
    proof {
        assert(map@ =~= lv);
        vstd::set_lib::lemma_len_subset(lv.dom(), m.dom());
    }
    let left: usize = map.len();
    (n - left) as u32
}

} // verus!
