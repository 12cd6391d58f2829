//! What the operations on sorted sets do to what a key holds, and what they return.

use vstd::prelude::*;
use crate::errors::{ListError, WrongType, ZAddError};
use crate::laws::collections::{is_slice, range_is_slice};
use crate::laws::keys::{cleared, held, reading_takes_out_what_expired};
use crate::laws::orders::{bits_tell_numbers, members_rank_by_score, scored_before};
use crate::model::{
    zadd_op, zcard_of, zincr_base_of, zincrby_op, zrange_of, zrange_scored_of, zrank_of, zrem_op,
    zscore_of, StoreView,
};
use crate::sorted_map::Key;
use crate::value::{EntryView, ValueView};
use crate::zset::{rank_is, ranking, ranking_exists, ranking_len, ranks_before, Scored};

verus! {

/// Whether bits stand for no number.
pub open spec fn no_number(bits: u64) -> bool {
    (bits >> 52) & 0x7ff == 0x7ff && bits & 0xf_ffff_ffff_ffff != 0
}

/// Whether bits stand for a number that is not infinite.
pub open spec fn finite_number(bits: u64) -> bool {
    (bits >> 52) & 0x7ff != 0x7ff
}

/// Adding gives the member the score, and leaves the others as they were. A missing key
/// begins a sorted set that never expires, and a sorted set keeps its time of expiry. What
/// is no number is refused. The result is whether the member is new.
pub proof fn zadd_puts(v: StoreView, key: Seq<char>, score: u64, member: Seq<u8>, now: u64)
    requires
        !v.closed,
    ensures
        ({
            let (w, out) = zadd_op(v, key, score, member, now);
            match held(v.map, key, now) {
                Some(e) => match e.value {
                    ValueView::ZSet(z) => if no_number(score) {
                        w.map == v.map && out == Err::<bool, ZAddError>(ZAddError::BadScore)
                    } else {
                        &&& w.map == v.map.insert(
                            key,
                            EntryView {
                                value: ValueView::ZSet(z.insert(member, score)),
                                expire_at: e.expire_at,
                            },
                        )
                        &&& out == Ok::<bool, ZAddError>(!z.contains_key(member))
                    },
                    _ => w.map == v.map && out == Err::<bool, ZAddError>(ZAddError::WrongType),
                },
                None => if no_number(score) {
                    &&& w.map == cleared(v.map, key, now)
                    &&& out == Err::<bool, ZAddError>(ZAddError::BadScore)
                } else {
                    &&& w.map == v.map.insert(
                        key,
                        EntryView {
                            value: ValueView::ZSet(Map::empty().insert(member, score)),
                            expire_at: None,
                        },
                    )
                    &&& out == Ok::<bool, ZAddError>(true)
                },
            }
        }),
{
    let (w, out) = zadd_op(v, key, score, member, now);
    reading_takes_out_what_expired(v, key, now);
    bits_tell_numbers(score);
    if held(v.map, key, now) is None && !no_number(score) {
        assert(w.map =~= v.map.insert(
            key,
            EntryView {
                value: ValueView::ZSet(Map::empty().insert(member, score)),
                expire_at: None,
            },
        ));
    }
}

/// Incrementing gives the member the sum, which is taken from its score, or from 0 for a new
/// member; a missing key begins with the increment itself. A score that is not finite is
/// refused, and changes nothing. The result is the new score.
pub proof fn zincrby_adds(
    v: StoreView,
    key: Seq<char>,
    delta: u64,
    sum: u64,
    member: Seq<u8>,
    now: u64,
)
    requires
        !v.closed,
    ensures
        ({
            let (w, out) = zincrby_op(v, key, delta, sum, member, now);
            match held(v.map, key, now) {
                Some(e) => match e.value {
                    ValueView::ZSet(z) => {
                        &&& zincr_base_of(v.purge(key, now).map, key, member) == Ok::<
                            Option<u64>,
                            WrongType,
                        >(
                            Some(
                                if z.contains_key(member) {
                                    z[member]
                                } else {
                                    0
                                },
                            ),
                        )
                        &&& finite_number(sum) ==> {
                            &&& w.map == v.map.insert(
                                key,
                                EntryView {
                                    value: ValueView::ZSet(z.insert(member, sum)),
                                    expire_at: e.expire_at,
                                },
                            )
                            &&& out == Ok::<u64, ZAddError>(sum)
                        }
                        &&& !finite_number(sum) ==> {
                            &&& w.map == v.map
                            &&& out == Err::<u64, ZAddError>(ZAddError::BadScore)
                        }
                    },
                    _ => {
                        &&& zincr_base_of(v.purge(key, now).map, key, member) is Err
                        &&& w.map == v.map
                        &&& out == Err::<u64, ZAddError>(ZAddError::WrongType)
                    },
                },
                None => {
                    &&& zincr_base_of(v.purge(key, now).map, key, member) == Ok::<
                        Option<u64>,
                        WrongType,
                    >(None)
                    &&& finite_number(delta) ==> {
                        &&& w.map == v.map.insert(
                            key,
                            EntryView {
                                value: ValueView::ZSet(Map::empty().insert(member, delta)),
                                expire_at: None,
                            },
                        )
                        &&& out == Ok::<u64, ZAddError>(delta)
                    }
                    &&& !finite_number(delta) ==> {
                        &&& w.map == cleared(v.map, key, now)
                        &&& out == Err::<u64, ZAddError>(ZAddError::BadScore)
                    }
                },
            }
        }),
{
    let (w, out) = zincrby_op(v, key, delta, sum, member, now);
    reading_takes_out_what_expired(v, key, now);
    bits_tell_numbers(delta);
    bits_tell_numbers(sum);
    if held(v.map, key, now) is None && finite_number(delta) {
        assert(w.map =~= v.map.insert(
            key,
            EntryView {
                value: ValueView::ZSet(Map::empty().insert(member, delta)),
                expire_at: None,
            },
        ));
    }
}

/// Removing a member takes it out and leaves the others; with the last member the key goes
/// too. The result is whether the member was there.
pub proof fn zrem_takes_out(v: StoreView, key: Seq<char>, member: Seq<u8>, now: u64)
    requires
        !v.closed,
    ensures
        ({
            let (w, out) = zrem_op(v, key, member, now);
            match held(v.map, key, now) {
                Some(e) => match e.value {
                    ValueView::ZSet(z) => {
                        let rest = z.remove(member);
                        &&& w.map == (if rest.dom().len() == 0 {
                            v.map.remove(key)
                        } else {
                            v.map.insert(
                                key,
                                EntryView {
                                    value: ValueView::ZSet(rest),
                                    expire_at: e.expire_at,
                                },
                            )
                        })
                        &&& out == Ok::<bool, ListError>(z.contains_key(member))
                    },
                    _ => w.map == v.map && out == Err::<bool, ListError>(ListError::WrongType),
                },
                None => {
                    &&& w.map == cleared(v.map, key, now)
                    &&& out == Ok::<bool, ListError>(false)
                },
            }
        }),
{
    let (w, out) = zrem_op(v, key, member, now);
    reading_takes_out_what_expired(v, key, now);
    if held(v.map, key, now) is None {
        assert(Map::<Seq<u8>, u64>::empty().remove(member).dom() =~= Set::<Seq<u8>>::empty());
        assert(w.map =~= cleared(v.map, key, now));
    }
}

/// Whether `s` lists the members of a sorted set with their scores, each once: by score,
/// and at equal scores by their bytes.
pub open spec fn in_rank_order(s: Seq<(Seq<u8>, u64)>, z: Map<Seq<u8>, u64>) -> bool {
    &&& s.len() == z.dom().len()
    &&& forall|i: int, j: int|
        0 <= i < j < s.len() ==> scored_before(#[trigger] s[i], #[trigger] s[j])
    &&& forall|i: int|
        0 <= i < s.len() ==> z.contains_key((#[trigger] s[i]).0) && z[s[i].0] == s[i].1
}

/// A finite sorted set has its members in rank order.
pub proof fn ranking_is_in_order(z: Map<Seq<u8>, u64>)
    requires
        z.dom().finite(),
    ensures
        in_rank_order(ranking(z), z),
{
    let s = ranking(z);
    ranking_exists(z);
    ranking_len(s, z);
    assert forall|i: int, j: int| 0 <= i < j < s.len() implies scored_before(
        #[trigger] s[i],
        #[trigger] s[j],
    ) by {
        assert(ranks_before(s[i], s[j]));
        members_rank_by_score(s[i], s[j]);
    }
    assert forall|i: int| 0 <= i < s.len() implies z.contains_key((#[trigger] s[i]).0) && z[s[i].0]
        == s[i].1 by {
        assert(z.contains_key(s[i].0));
    }
}

/// Ranges of a sorted set: the members of the ranks from `start` to `stop`, both included,
/// where a negative rank counts from the end, and ranks that there are not are left out.
/// With their scores or without, the members are the same.
pub proof fn zrange_is_slice(
    v: StoreView,
    key: Seq<char>,
    z: Map<Seq<u8>, u64>,
    start: i64,
    stop: i64,
    now: u64,
)
    requires
        held(v.map, key, now) matches Some(e) && e.value == ValueView::ZSet(z),
        z.dom().finite(),
    ensures
        ({
            let m = v.purge(key, now).map;
            &&& zrange_scored_of(m, key, start, stop) matches Ok(r)
            &&& zrange_of(m, key, start, stop) matches Ok(names)
            &&& in_rank_order(ranking(z), z)
            &&& is_slice(r, ranking(z), start as int, stop as int)
            &&& is_slice(
                names,
                Seq::new(ranking(z).len(), |i: int| ranking(z)[i].0),
                start as int,
                stop as int,
            )
        }),
{
    reading_takes_out_what_expired(v, key, now);
    ranking_is_in_order(z);
    range_is_slice(ranking(z), start as int, stop as int);
}

/// Inside of a sorted set, a range from one rank to another has one member for each rank,
/// and each of them has that rank.
pub proof fn zrange_has_each_rank(
    v: StoreView,
    key: Seq<char>,
    z: Map<Seq<u8>, u64>,
    start: i64,
    stop: i64,
    i: int,
    now: u64,
)
    requires
        held(v.map, key, now) matches Some(e) && e.value == ValueView::ZSet(z),
        z.dom().finite(),
        0 <= start <= stop < z.dom().len(),
        z.dom().len() <= u32::MAX,
        0 <= i <= stop - start,
    ensures
        ({
            let m = v.purge(key, now).map;
            &&& zrange_of(m, key, start, stop) matches Ok(names)
            &&& names.len() == stop - start + 1
            &&& z.contains_key(names[i])
            &&& zrank_of(m, key, names[i]) == Ok::<Option<u32>, WrongType>(
                Some((start + i) as u32),
            )
            &&& zscore_of(m, key, names[i]) == Ok::<Option<u64>, WrongType>(Some(z[names[i]]))
        }),
{
    zrange_is_slice(v, key, z, start, stop, now);
    reading_takes_out_what_expired(v, key, now);
    let m = v.purge(key, now).map;
    let names = zrange_of(m, key, start, stop)->Ok_0;
    ranking_exists(z);
    assert(ranking(z)[start + i].0 == names[i]);
    rank_is(z, names[i], start + i);
}

/// The rank of a member is how many members come before it: the members that do stand at
/// lower ranks, and the others at higher ones.
pub proof fn rank_tells_order(
    v: StoreView,
    key: Seq<char>,
    z: Map<Seq<u8>, u64>,
    a: Seq<u8>,
    b: Seq<u8>,
    now: u64,
)
    requires
        held(v.map, key, now) matches Some(e) && e.value == ValueView::ZSet(z),
        z.dom().finite(),
        z.dom().len() <= u32::MAX,
        z.contains_key(a),
        z.contains_key(b),
    ensures
        ({
            let m = v.purge(key, now).map;
            &&& zrank_of(m, key, a) matches Ok(Some(i))
            &&& zrank_of(m, key, b) matches Ok(Some(j))
            &&& i < z.dom().len()
            &&& i < j <==> scored_before((a, z[a]), (b, z[b]))
            &&& i == j <==> a == b
        }),
{
    reading_takes_out_what_expired(v, key, now);
    ranking_is_in_order(z);
    ranking_exists(z);
    let s = ranking(z);
    let i = choose|i: int| 0 <= i < s.len() && #[trigger] s[i].0 == a;
    let j = choose|j: int| 0 <= j < s.len() && #[trigger] s[j].0 == b;
    rank_is(z, a, i);
    rank_is(z, b, j);
    members_rank_by_score(s[i], s[j]);
    members_rank_by_score(s[j], s[i]);
    <Scored as Key>::irreflexive(s[i]);
    if j < i {
        assert(scored_before(s[j], s[i]));
        if ranks_before(s[i], s[j]) {
            <Scored as Key>::transitive(s[i], s[j], s[i]);
        }
    }
}

/// Reading a score, a rank, and how many members there are.
pub proof fn zset_is_read(v: StoreView, key: Seq<char>, member: Seq<u8>, now: u64)
    ensures
        ({
            let m = v.purge(key, now).map;
            match held(v.map, key, now) {
                Some(e) => match e.value {
                    ValueView::ZSet(z) => {
                        &&& z.contains_key(member) ==> zscore_of(m, key, member) == Ok::<
                            Option<u64>,
                            WrongType,
                        >(Some(z[member]))
                        &&& z.contains_key(member) ==> (zrank_of(m, key, member) is Ok && zrank_of(
                            m,
                            key,
                            member,
                        )->Ok_0 is Some)
                        &&& !z.contains_key(member) ==> zscore_of(m, key, member) == Ok::<
                            Option<u64>,
                            WrongType,
                        >(None)
                        &&& !z.contains_key(member) ==> zrank_of(m, key, member) == Ok::<
                            Option<u32>,
                            WrongType,
                        >(None)
                        &&& zcard_of(m, key) == Ok::<u32, WrongType>(z.dom().len() as u32)
                    },
                    _ => {
                        &&& zscore_of(m, key, member) is Err
                        &&& zrank_of(m, key, member) is Err
                        &&& zcard_of(m, key) is Err
                        &&& zrange_of(m, key, 0, 0) is Err
                        &&& zrange_scored_of(m, key, 0, 0) is Err
                    },
                },
                None => {
                    &&& zscore_of(m, key, member) == Ok::<Option<u64>, WrongType>(None)
                    &&& zrank_of(m, key, member) == Ok::<Option<u32>, WrongType>(None)
                    &&& zcard_of(m, key) == Ok::<u32, WrongType>(0)
                },
            }
        }),
{
    reading_takes_out_what_expired(v, key, now);
    assert(Map::<Seq<u8>, u64>::empty().dom() =~= Set::<Seq<u8>>::empty());
}

/// Of a missing key every range is empty, and of another type it is an error.
pub proof fn zrange_of_no_sorted_set(
    v: StoreView,
    key: Seq<char>,
    start: i64,
    stop: i64,
    now: u64,
)
    ensures
        ({
            let m = v.purge(key, now).map;
            match held(v.map, key, now) {
                Some(e) => !(e.value is ZSet) ==> zrange_of(m, key, start, stop) is Err
                    && zrange_scored_of(m, key, start, stop) is Err,
                None => {
                    &&& zrange_of(m, key, start, stop) matches Ok(r) && r.len() == 0
                    &&& zrange_scored_of(m, key, start, stop) matches Ok(r) && r.len() == 0
                },
            }
        }),
{
    reading_takes_out_what_expired(v, key, now);
    let z = Map::<Seq<u8>, u64>::empty();
    assert(z.dom() =~= Set::<Seq<u8>>::empty());
    ranking_exists(z);
    ranking_len(ranking(z), z);
    range_is_slice(ranking(z), start as int, stop as int);
}

} // verus!
