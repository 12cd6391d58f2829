//! What compaction promises: the shorter log comes to the same state.

use vstd::prelude::*;
use crate::compact::{
    compact_op, compact_ops, compacted_log, entry_ops, expire_ops, forget, forget_each,
    forget_each_keeps, kept_by_compaction, put_expiry, records_of, renewal_ops, value_ops,
    without_dead,
};
use crate::errors::IoError;
use crate::expiry::{dead_keys, dead_keys_are, live, purged};
use crate::laws::commands::{
    all_filled, at_key_keeps_others, filled, op_at_key, op_key, same_but,
};
use crate::laws::durability::{
    both_fit, commit_is_durable, durable, durable_store_is_filled, durable_store_is_recovered,
    log_holds, op_writable, rollback_is_durable,
};
use crate::laws::keys::held;
use crate::log::{log_roundtrip, records_fit, records_from, LogBase, LogWriteView};
use crate::model::{lookup, open_op, rolled_back, tx_commit_op, tx_rollback_op, StoreView};
use crate::mutate::list_at;
use crate::record::{decode, record_is_shortest, record_roundtrip, Op};
use crate::replay::{apply_op, replayed, replayed_join};
use crate::score::is_nan;
use crate::snapshot::{listed_members, unit_map};
use crate::sorted_map::{listed, listed_is, ordered, ordered_exists, ordered_len, Key};
use crate::value::{expired, EntryView, State, ValueView};
use crate::zset::{ranking, ranking_exists, ranking_len};

verus! {

/// The state after several mutations.
pub open spec fn apply_ops(m: State, ops: Seq<Op>) -> State
    decreases ops.len(),
{
    if ops.len() == 0 {
        m
    } else {
        apply_op(apply_ops(m, ops.drop_last()), ops.last())
    }
}

/// Mutations of two runs apply one after the other.
proof fn apply_ops_join(m: State, a: Seq<Op>, b: Seq<Op>)
    ensures
        apply_ops(m, a + b) == apply_ops(apply_ops(m, a), b),
    decreases b.len(),
{
    if b.len() == 0 {
        assert(a + b =~= a);
    } else {
        assert((a + b).drop_last() =~= a + b.drop_last());
        apply_ops_join(m, a, b.drop_last());
    }
}

/// Records that can be read back come to what their mutations do.
proof fn written_ops_replay(m: State, ops: Seq<Op>)
    requires
        forall|i: int| 0 <= i < ops.len() ==> op_writable(#[trigger] ops[i]),
    ensures
        replayed(m, records_of(ops)) == apply_ops(m, ops),
        records_fit(records_of(ops)),
    decreases ops.len(),
{
    if ops.len() > 0 {
        let init = ops.drop_last();
        assert forall|i: int| 0 <= i < init.len() implies op_writable(#[trigger] init[i]) by {
            assert(init[i] == ops[i]);
        }
        written_ops_replay(m, init);
        assert(records_of(ops).drop_last() =~= records_of(init));
        assert(op_writable(ops[ops.len() - 1]));
        record_roundtrip(ops.last());
    }
    assert forall|i: int| 0 <= i < records_of(ops).len() implies (#[trigger] records_of(
        ops,
    )[i]).len() <= u32::MAX by {
        assert(op_writable(ops[i]));
    }
}

/// A key with a value and no time of expiry.
pub open spec fn fresh(value: ValueView) -> EntryView {
    EntryView { value, expire_at: None }
}

proof fn list_ops_come_to(m: State, key: Seq<char>, l: Seq<Seq<u8>>, n: nat)
    requires
        !m.contains_key(key),
        n <= l.len(),
    ensures
        apply_ops(m, Seq::new(n, |i: int| Op::Push { key, value: l[i], front: false })) == (if n
            == 0 {
            m
        } else {
            m.insert(key, fresh(ValueView::List(l.take(n as int))))
        }),
    decreases n,
{
    let f = |i: int| Op::Push { key, value: l[i], front: false };
    if n > 0 {
        let k = (n - 1) as nat;
        list_ops_come_to(m, key, l, k);
        assert(Seq::new(n, f).drop_last() =~= Seq::new(k, f));
        assert(l.take(n as int) =~= l.take(k as int).push(l[k as int]));
        assert(Seq::<Seq<u8>>::empty() =~= l.take(0));
        let a = apply_ops(m, Seq::new(k, f));
        assert(apply_op(a, f(k as int)) =~= m.insert(
            key,
            fresh(ValueView::List(l.take(n as int))),
        ));
    }
}

proof fn hash_ops_come_to(m: State, key: Seq<char>, l: Seq<(Seq<char>, Seq<u8>)>, n: nat)
    requires
        !m.contains_key(key),
        n <= l.len(),
    ensures
        apply_ops(
            m,
            Seq::new(n, |i: int| Op::HSet { key, field: l[i].0, value: l[i].1 }),
        ) == (if n == 0 {
            m
        } else {
            m.insert(key, fresh(ValueView::Hash(listed(l.take(n as int)))))
        }),
    decreases n,
{
    let f = |i: int| Op::HSet { key, field: l[i].0, value: l[i].1 };
    if n > 0 {
        let k = (n - 1) as nat;
        hash_ops_come_to(m, key, l, k);
        assert(Seq::new(n, f).drop_last() =~= Seq::new(k, f));
        assert(l.take(n as int).drop_last() =~= l.take(k as int));
        let a = apply_ops(m, Seq::new(k, f));
        assert(apply_op(a, f(k as int)) =~= m.insert(
            key,
            fresh(ValueView::Hash(listed(l.take(n as int)))),
        ));
    }
}

proof fn set_ops_come_to(m: State, key: Seq<char>, l: Seq<Seq<u8>>, n: nat)
    requires
        !m.contains_key(key),
        n <= l.len(),
    ensures
        apply_ops(m, Seq::new(n, |i: int| Op::SAdd { key, member: l[i] })) == (if n == 0 {
            m
        } else {
            m.insert(key, fresh(ValueView::Members(l.take(n as int).to_set())))
        }),
    decreases n,
{
    let f = |i: int| Op::SAdd { key, member: l[i] };
    if n > 0 {
        let k = (n - 1) as nat;
        set_ops_come_to(m, key, l, k);
        assert(Seq::new(n, f).drop_last() =~= Seq::new(k, f));
        let p = l.take(k as int);
        assert(l.take(n as int) =~= p.push(l[k as int]));
        assert(p.push(l[k as int]).to_set() =~= p.to_set().insert(l[k as int])) by {
            assert forall|x: Seq<u8>| p.to_set().insert(l[k as int]).contains(x) implies p.push(
                l[k as int],
            ).to_set().contains(x) by {
                let q = p.push(l[k as int]);
                if x == l[k as int] {
                    assert(q[k as int] == x);
                } else {
                    let i = choose|i: int| 0 <= i < p.len() && p[i] == x;
                    assert(q[i] == x);
                }
            }
        }
        if k == 0 {
            assert(p.to_set() =~= Set::<Seq<u8>>::empty());
        }
        let a = apply_ops(m, Seq::new(k, f));
        assert(apply_op(a, f(k as int)) =~= m.insert(
            key,
            fresh(ValueView::Members(l.take(n as int).to_set())),
        ));
    }
}

proof fn zset_ops_come_to(m: State, key: Seq<char>, l: Seq<(Seq<u8>, u64)>, n: nat)
    requires
        !m.contains_key(key),
        n <= l.len(),
        forall|i: int| 0 <= i < l.len() ==> !is_nan((#[trigger] l[i]).1),
    ensures
        apply_ops(
            m,
            Seq::new(n, |i: int| Op::ZAdd { key, score: l[i].1, member: l[i].0 }),
        ) == (if n == 0 {
            m
        } else {
            m.insert(key, fresh(ValueView::ZSet(listed(l.take(n as int)))))
        }),
    decreases n,
{
    let f = |i: int| Op::ZAdd { key, score: l[i].1, member: l[i].0 };
    if n > 0 {
        let k = (n - 1) as nat;
        zset_ops_come_to(m, key, l, k);
        assert(Seq::new(n, f).drop_last() =~= Seq::new(k, f));
        assert(l.take(n as int).drop_last() =~= l.take(k as int));
        assert(!is_nan(l[k as int].1));
        let a = apply_ops(m, Seq::new(k, f));
        assert(apply_op(a, f(k as int)) =~= m.insert(
            key,
            fresh(ValueView::ZSet(listed(l.take(n as int)))),
        ));
    }
}

/// The members listed of a finite set are its members.
pub proof fn listed_members_are(s: Set<Seq<u8>>)
    requires
        s.finite(),
    ensures
        listed_members(s).to_set() == s,
        listed_members(s).len() == s.len(),
{
    let u = unit_map(s);
    let o = ordered::<Vec<u8>, ()>(u);
    let l = listed_members(s);
    assert(u.dom() =~= s);
    ordered_exists::<Vec<u8>, ()>(u);
    ordered_len::<Vec<u8>, ()>(o, u);
    assert(l.to_set() =~= s) by {
        assert forall|x: Seq<u8>| s.contains(x) implies l.to_set().contains(x) by {
            assert(u.contains_key(x));
            let i = choose|i: int| 0 <= i < o.len() && #[trigger] o[i].0 == x;
            assert(l[i] == x);
        }
        assert forall|x: Seq<u8>| l.to_set().contains(x) implies s.contains(x) by {
            let i = choose|i: int| 0 <= i < l.len() && l[i] == x;
            assert(u.contains_key(o[i].0));
        }
    }
}

/// The records of an entry come to the entry, under a key that is not there yet.
#[verifier::rlimit(30)]
proof fn entry_ops_come_to(m: State, key: Seq<char>, e: EntryView)
    requires
        !m.contains_key(key),
        filled(e),
    ensures
        apply_ops(m, entry_ops(key, e)) == m.insert(key, e),
{
    let ops = value_ops(key, e);
    match e.value {
        ValueView::Bytes(b) => {
            assert(ops.drop_last() =~= Seq::<Op>::empty());
            assert(apply_ops(m, Seq::<Op>::empty()) == m);
            if put_expiry(e) == e.expire_at {
                assert(apply_ops(m, ops) =~= m.insert(key, e));
            } else {
                assert(apply_ops(m, ops) =~= m.insert(key, fresh(e.value)));
                expiry_comes_to(m, key, e, ops);
            }
        },
        ValueView::List(l) => {
            list_ops_come_to(m, key, l, l.len());
            assert(l.take(l.len() as int) =~= l);
            expiry_comes_to(m, key, e, ops);
        },
        ValueView::Hash(h) => {
            let l = ordered::<String, Seq<u8>>(h);
            ordered_exists::<String, Seq<u8>>(h);
            ordered_len::<String, Seq<u8>>(l, h);
            hash_ops_come_to(m, key, l, l.len());
            assert(l.take(l.len() as int) =~= l);
            listed_is(l, h);
            expiry_comes_to(m, key, e, ops);
        },
        ValueView::Members(s) => {
            let l = listed_members(s);
            listed_members_are(s);
            set_ops_come_to(m, key, l, l.len());
            assert(l.take(l.len() as int) =~= l);
            expiry_comes_to(m, key, e, ops);
        },
        ValueView::ZSet(z) => {
            let l = ranking(z);
            ranking_exists(z);
            ranking_len(l, z);
            assert forall|i: int| 0 <= i < l.len() implies !is_nan((#[trigger] l[i]).1) by {
                assert(z.contains_key(l[i].0));
            }
            zset_ops_come_to(m, key, l, l.len());
            assert(l.take(l.len() as int) =~= l);
            listed_is(l, z);
            expiry_comes_to(m, key, e, ops);
        },
    }
}

proof fn expiry_comes_to(m: State, key: Seq<char>, e: EntryView, ops: Seq<Op>)
    requires
        apply_ops(m, ops) == m.insert(key, fresh(e.value)),
    ensures
        apply_ops(m, ops + expire_ops(key, e.expire_at)) == m.insert(key, e),
{
    apply_ops_join(m, ops, expire_ops(key, e.expire_at));
    match e.expire_at {
        Some(at) => {
            let x = seq![Op::Expire { key, at }];
            let a = apply_ops(m, ops);
            assert(x.drop_last() =~= Seq::<Op>::empty());
            assert(apply_ops(a, Seq::<Op>::empty()) == a);
            assert(apply_ops(a, x) =~= m.insert(key, e));
        },
        None => {
            assert(m.insert(key, e) =~= m.insert(key, fresh(e.value)));
        },
    }
}

/// The records of listed entries come to the entries.
proof fn compact_ops_come_to(l: Seq<(Seq<char>, EntryView)>)
    requires
        forall|i: int, j: int|
            0 <= i < j < l.len() ==> <String as Key>::before(#[trigger] l[i].0, #[trigger] l[j].0),
        forall|i: int| 0 <= i < l.len() ==> filled((#[trigger] l[i]).1),
    ensures
        apply_ops(Map::empty(), compact_ops(l)) == listed(l),
        forall|k: Seq<char>| #[trigger]
            listed(l).contains_key(k) ==> exists|i: int|
                0 <= i < l.len() && #[trigger] l[i].0 == k,
    decreases l.len(),
{
    if l.len() > 0 {
        let init = l.drop_last();
        let (key, e) = l.last();
        assert forall|i: int, j: int| 0 <= i < j < init.len() implies <String as Key>::before(
            #[trigger] init[i].0,
            #[trigger] init[j].0,
        ) by {
            assert(init[i] == l[i] && init[j] == l[j]);
        }
        assert forall|i: int| 0 <= i < init.len() implies filled((#[trigger] init[i]).1) by {
            assert(init[i] == l[i]);
        }
        compact_ops_come_to(init);
        let m = listed(init);
        assert(l[l.len() - 1] == (key, e));
        if m.contains_key(key) {
            let i = choose|i: int| 0 <= i < init.len() && #[trigger] init[i].0 == key;
            assert(<String as Key>::before(l[i].0, l[l.len() - 1].0));
            <String as Key>::irreflexive(key);
        }
        apply_ops_join(Map::empty(), compact_ops(init), entry_ops(key, e));
        entry_ops_come_to(m, key, e);
        assert forall|k: Seq<char>| #[trigger] listed(l).contains_key(k) implies exists|i: int|
            0 <= i < l.len() && #[trigger] l[i].0 == k by {
            if m.contains_key(k) {
                let i = choose|i: int| 0 <= i < init.len() && #[trigger] init[i].0 == k;
                assert(l[i].0 == k);
            } else {
                assert(l[l.len() - 1].0 == k);
            }
        }
    }
}

/// Whether a state can be written to a log: it is finite, no key holds an empty collection,
/// and every record can be read back.
pub open spec fn compactible(m: State) -> bool {
    &&& m.dom().finite()
    &&& all_filled(m)
    &&& forall|i: int|
        0 <= i < compact_ops(ordered::<String, EntryView>(m)).len() ==> op_writable(
            #[trigger] compact_ops(ordered::<String, EntryView>(m))[i],
        )
}

/// Whether the records that come to a value can be read back.
pub open spec fn value_writable(key: Seq<char>, v: ValueView) -> bool {
    match v {
        ValueView::Bytes(value) => op_writable(Op::Put { key, value, expire_at: None }),
        ValueView::List(l) => forall|i: int|
            0 <= i < l.len() ==> op_writable(
                Op::Push { key, value: #[trigger] l[i], front: false },
            ),
        ValueView::Hash(h) => forall|field: Seq<char>| #[trigger]
            h.contains_key(field) ==> op_writable(Op::HSet { key, field, value: h[field] }),
        ValueView::Members(s) => forall|member: Seq<u8>| #[trigger]
            s.contains(member) ==> op_writable(Op::SAdd { key, member }),
        ValueView::ZSet(z) => forall|member: Seq<u8>| #[trigger]
            z.contains_key(member) ==> op_writable(Op::ZAdd { key, score: z[member], member }),
    }
}

/// Whether the records that come to an entry can be read back.
pub open spec fn entry_writable(key: Seq<char>, e: EntryView) -> bool {
    &&& value_writable(key, e.value)
    &&& e.expire_at matches Some(at) ==> op_writable(Op::Expire { key, at })
}

/// Whether the records that come to each entry of a state can be read back.
pub open spec fn all_writable(m: State) -> bool {
    forall|k: Seq<char>| #[trigger] m.contains_key(k) ==> entry_writable(k, m[k])
}

/// A record that can be read back comes to an entry whose records can be.
#[verifier::rlimit(60)]
#[verifier::spinoff_prover]
proof fn written_entry_is_writable(m: State, op: Op, key: Seq<char>)
    requires
        all_writable(m),
        op_writable(op),
        op_key(op) == Some(key),
    ensures
        apply_op(m, op).contains_key(key) ==> entry_writable(key, apply_op(m, op)[key]),
{
    if m.contains_key(key) {
        assert(entry_writable(key, m[key]));
    }
    match op {
        Op::Push { value, front, .. } => match list_at(m, key) {
            Some(l) => {
                assert(op_writable(Op::Push { key, value, front: false }));
                let next = if front {
                    seq![value] + l
                } else {
                    l.push(value)
                };
                assert forall|i: int| 0 <= i < next.len() implies op_writable(
                    Op::Push { key, value: #[trigger] next[i], front: false },
                ) by {
                    if front && i > 0 {
                        assert(next[i] == l[i - 1]);
                    } else if !front && i < l.len() {
                        assert(next[i] == l[i]);
                    }
                }
            },
            None => {},
        },
        Op::Pop { front, .. } => match list_at(m, key) {
            Some(l) => if l.len() > 0 {
                let rest = if front {
                    l.drop_first()
                } else {
                    l.drop_last()
                };
                assert forall|i: int| 0 <= i < rest.len() implies op_writable(
                    Op::Push { key, value: #[trigger] rest[i], front: false },
                ) by {
                    if front {
                        assert(rest[i] == l[i + 1]);
                    } else {
                        assert(rest[i] == l[i]);
                    }
                }
            },
            None => {},
        },
        _ => {},
    }
}

/// Replaying records that fit comes to a state whose records can be read back.
proof fn replayed_is_writable(m: State, payloads: Seq<Seq<u8>>)
    requires
        all_writable(m),
        records_fit(payloads),
    ensures
        all_writable(replayed(m, payloads)),
    decreases payloads.len(),
{
    if payloads.len() > 0 {
        let init = payloads.drop_last();
        let p = payloads.last();
        assert forall|i: int| 0 <= i < init.len() implies (#[trigger] init[i]).len()
            <= u32::MAX by {
            assert(init[i] == payloads[i]);
        }
        replayed_is_writable(m, init);
        let a = replayed(m, init);
        match decode(p) {
            Some(op) => {
                assert(payloads[payloads.len() - 1].len() <= u32::MAX);
                record_is_shortest(p, op);
                match op_key(op) {
                    Some(key) => {
                        let n = apply_op(a, op);
                        written_entry_is_writable(a, op, key);
                        op_at_key(a, op, key);
                        assert forall|k: Seq<char>| #[trigger]
                            n.contains_key(k) implies entry_writable(k, n[k]) by {
                            if k != key {
                                assert(a.contains_key(k));
                            }
                        }
                    },
                    None => {},
                }
            },
            None => {},
        }
    }
}

/// The records that come to an entry are among those that can be read back.
#[verifier::rlimit(30)]
proof fn entry_ops_are_writable(key: Seq<char>, e: EntryView, i: int)
    requires
        entry_writable(key, e),
        filled(e),
        0 <= i < entry_ops(key, e).len(),
    ensures
        op_writable(entry_ops(key, e)[i]),
{
    let n = value_ops(key, e).len();
    match e.value {
        ValueView::Bytes(_) => {},
        ValueView::List(l) => {
            if i < n {
                assert(op_writable(Op::Push { key, value: l[i], front: false }));
            }
        },
        ValueView::Hash(h) => {
            ordered_exists::<String, Seq<u8>>(h);
            if i < n {
                assert(h.contains_key(ordered::<String, Seq<u8>>(h)[i].0));
            }
        },
        ValueView::Members(s) => {
            listed_members_are(s);
            if i < n {
                let l = listed_members(s);
                assert(l.to_set().contains(l[i]));
            }
        },
        ValueView::ZSet(z) => {
            ranking_exists(z);
            if i < n {
                assert(z.contains_key(ranking(z)[i].0));
            }
        },
    }
}

proof fn compact_ops_are_writable(l: Seq<(Seq<char>, EntryView)>)
    requires
        forall|i: int|
            0 <= i < l.len() ==> filled((#[trigger] l[i]).1) && entry_writable(l[i].0, l[i].1),
    ensures
        forall|i: int|
            0 <= i < compact_ops(l).len() ==> op_writable(#[trigger] compact_ops(l)[i]),
    decreases l.len(),
{
    if l.len() > 0 {
        let init = l.drop_last();
        assert forall|i: int| 0 <= i < init.len() implies filled((#[trigger] init[i]).1)
            && entry_writable(init[i].0, init[i].1) by {
            assert(init[i] == l[i]);
        }
        compact_ops_are_writable(init);
        let (key, e) = l[l.len() - 1];
        let ops = compact_ops(l);
        assert forall|i: int| 0 <= i < ops.len() implies op_writable(#[trigger] ops[i]) by {
            let n = compact_ops(init).len();
            if i < n {
                assert(ops[i] == compact_ops(init)[i]);
            } else {
                entry_ops_are_writable(key, e, i - n);
            }
        }
    }
}

/// A durable store can be compacted.
pub proof fn durable_store_is_compactible(v: StoreView, now: u64, disk: Seq<u8>)
    requires
        durable(v, disk),
    ensures
        compactible(kept_by_compaction(v, now)),
{
    let recs = choose|recs: Seq<Seq<u8>>| log_holds(v, disk, recs);
    let m = kept_by_compaction(v, now);
    let r = rolled_back(v);
    durable_store_is_filled(v, disk);
    replayed_is_writable(Map::empty(), recs);
    assert(m.dom().subset_of(r.dom()));
    vstd::set_lib::lemma_set_subset_finite(r.dom(), m.dom());
    assert forall|k: Seq<char>| #[trigger] m.contains_key(k) implies filled(m[k])
        && entry_writable(k, m[k]) by {
        assert(r.contains_key(k));
    }
    let l = ordered::<String, EntryView>(m);
    ordered_exists::<String, EntryView>(m);
    assert forall|i: int| 0 <= i < l.len() implies filled((#[trigger] l[i]).1) && entry_writable(
        l[i].0,
        l[i].1,
    ) by {
        assert(m.contains_key(l[i].0));
    }
    compact_ops_are_writable(l);
}

/// A compacted log comes to the state that it was made from: opening it gives that state,
/// and finds no damage.
pub proof fn compacted_log_comes_to_state(m: State, fsync: bool)
    requires
        compactible(m),
    ensures
        open_op(compacted_log(m), fsync).map == m,
        records_from(compacted_log(m), 0).1 is None,
        open_op(compacted_log(m), fsync).owed == LogWriteView::none(),
{
    compacted_records_come_to_state(m);
    log_roundtrip(records_of(compact_ops(ordered::<String, EntryView>(m))));
}

proof fn compacted_records_come_to_state(m: State)
    requires
        compactible(m),
    ensures
        ({
            let recs = records_of(compact_ops(ordered::<String, EntryView>(m)));
            &&& replayed(Map::empty(), recs) == m
            &&& records_fit(recs)
        }),
{
    let l = ordered::<String, EntryView>(m);
    ordered_exists::<String, EntryView>(m);
    assert forall|i: int| 0 <= i < l.len() implies filled((#[trigger] l[i]).1) by {
        assert(m.contains_key(l[i].0));
    }
    compact_ops_come_to(l);
    written_ops_replay(Map::empty(), compact_ops(l));
    ordered_len::<String, EntryView>(l, m);
    listed_is(l, m);
}

#[verifier::spinoff_prover]
proof fn list_op_depends_on_its_key(m: State, n: State, op: Op, key: Seq<char>)
    requires
        op is Push || op is Pop,
        op_key(op) == Some(key),
        lookup(m, key) == lookup(n, key),
    ensures
        lookup(apply_op(m, op), key) == lookup(apply_op(n, op), key),
{
}

#[verifier::spinoff_prover]
proof fn hash_op_depends_on_its_key(m: State, n: State, op: Op, key: Seq<char>)
    requires
        op is HSet || op is HDel,
        op_key(op) == Some(key),
        lookup(m, key) == lookup(n, key),
    ensures
        lookup(apply_op(m, op), key) == lookup(apply_op(n, op), key),
{
}

#[verifier::spinoff_prover]
proof fn set_op_depends_on_its_key(m: State, n: State, op: Op, key: Seq<char>)
    requires
        op is SAdd || op is SRem,
        op_key(op) == Some(key),
        lookup(m, key) == lookup(n, key),
    ensures
        lookup(apply_op(m, op), key) == lookup(apply_op(n, op), key),
{
}

#[verifier::spinoff_prover]
proof fn zset_op_depends_on_its_key(m: State, n: State, op: Op, key: Seq<char>)
    requires
        op is ZAdd || op is ZRem,
        op_key(op) == Some(key),
        lookup(m, key) == lookup(n, key),
    ensures
        lookup(apply_op(m, op), key) == lookup(apply_op(n, op), key),
{
}

/// What a recorded mutation makes of its key depends on what that key holds alone.
proof fn op_depends_on_its_key(m: State, n: State, op: Op, key: Seq<char>)
    requires
        op_key(op) == Some(key),
        lookup(m, key) == lookup(n, key),
    ensures
        lookup(apply_op(m, op), key) == lookup(apply_op(n, op), key),
{
    if op is Push || op is Pop {
        list_op_depends_on_its_key(m, n, op, key);
    } else if op is HSet || op is HDel {
        hash_op_depends_on_its_key(m, n, op, key);
    } else if op is SAdd || op is SRem {
        set_op_depends_on_its_key(m, n, op, key);
    } else if op is ZAdd || op is ZRem {
        zset_op_depends_on_its_key(m, n, op, key);
    }
}

/// States that agree on every key but one still do after the same mutation.
proof fn op_keeps_agreement(m: State, n: State, op: Op, key: Seq<char>)
    requires
        same_but(m, n, key),
    ensures
        same_but(apply_op(m, op), apply_op(n, op), key),
{
    match op_key(op) {
        Some(k) => {
            let a = apply_op(m, op);
            let b = apply_op(n, op);
            op_at_key(m, op, k);
            op_at_key(n, op, k);
            at_key_keeps_others(m, a, k);
            at_key_keeps_others(n, b, k);
            if k != key {
                assert(m.contains_key(k) == n.contains_key(k));
                op_depends_on_its_key(m, n, op, k);
            }
            assert forall|j: Seq<char>| j != key implies (#[trigger] a.contains_key(j)
                == b.contains_key(j)) && (a.contains_key(j) ==> a[j] == b[j]) by {
                if j != k {
                    assert(m.contains_key(j) == n.contains_key(j));
                    assert(m.contains_key(j) == a.contains_key(j));
                    assert(n.contains_key(j) == b.contains_key(j));
                } else {
                    assert(lookup(a, k) == lookup(b, k));
                }
            }
        },
        None => {},
    }
}

/// States that agree on every key but one still do after the same records.
proof fn replay_keeps_agreement(m: State, n: State, payloads: Seq<Seq<u8>>, key: Seq<char>)
    requires
        same_but(m, n, key),
    ensures
        same_but(replayed(m, payloads), replayed(n, payloads), key),
    decreases payloads.len(),
{
    if payloads.len() > 0 {
        let init = payloads.drop_last();
        replay_keeps_agreement(m, n, init, key);
        match decode(payloads.last()) {
            Some(op) => op_keeps_agreement(replayed(m, init), replayed(n, init), op, key),
            None => {},
        }
    }
}

/// Whether the staged records of an open transaction come to what the store holds, from
/// what it held before, and both can be written.
spec fn staged_hold(v: StoreView) -> bool {
    &&& v.tx matches Some(t) && records_fit(t.staged) && replayed(rolled_back(v), t.staged)
        == v.map
    &&& all_filled(v.map)
    &&& all_writable(v.map)
}

/// A key that is forgotten is gone from what a rollback comes back to, and the staged
/// records still come to what the store holds.
proof fn forget_is_right(v: StoreView, key: Seq<char>, now: u64)
    requires
        staged_hold(v),
        op_writable(Op::Del { key }),
    ensures
        staged_hold(forget(v, key, now)),
        rolled_back(forget(v, key, now)) == rolled_back(v).remove(key),
        forget(v, key, now).map == purged(v.map, key, now),
{
    let t = v.tx.unwrap();
    let w = forget(v, key, now);
    let base = rolled_back(v);
    let e = lookup(v.map, key);
    let del = seq![Op::Del { key }];
    let ops = renewal_ops(key, e, now);
    let rest = v.map.remove(key);
    assert(rolled_back(w) =~= base.remove(key));
    assert(same_but(base, base.remove(key), key));
    replay_keeps_agreement(base, base.remove(key), t.staged, key);
    let r = replayed(base.remove(key), t.staged);
    assert(r.remove(key) =~= rest) by {
        assert forall|k: Seq<char>| k != key implies r.contains_key(k) == v.map.contains_key(k)
            && (r.contains_key(k) ==> r[k] == v.map[k]) by {
            assert(v.map.contains_key(k) == r.contains_key(k));
        }
    }
    assert(del.drop_last() =~= Seq::<Op>::empty());
    assert(apply_ops(r, Seq::<Op>::empty()) == r);
    assert(apply_ops(r, del) == rest);
    assert forall|i: int| 0 <= i < ops.len() implies op_writable(#[trigger] ops[i]) by {
        if i > 0 {
            entry_ops_are_writable(key, e.unwrap(), i - 1);
        }
    }
    written_ops_replay(r, ops);
    if v.map.contains_key(key) && !expired(v.map[key], now) {
        apply_ops_join(r, del, entry_ops(key, v.map[key]));
        entry_ops_come_to(rest, key, v.map[key]);
        assert(rest.insert(key, v.map[key]) =~= v.map);
    } else {
        assert(ops =~= del);
        assert(rest =~= purged(v.map, key, now));
    }
    replayed_join(base.remove(key), t.staged, records_of(ops));
    both_fit(t.staged, records_of(ops));
}

/// Keys that are forgotten are gone from what a rollback comes back to, and from what the
/// store holds if they have expired there.
proof fn forgets_are_right(v: StoreView, keys: Seq<Seq<char>>, now: u64)
    requires
        staged_hold(v),
        forall|i: int| 0 <= i < keys.len() ==> op_writable(Op::Del { key: #[trigger] keys[i] }),
    ensures
        ({
            let w = forget_each(v, keys, now);
            &&& staged_hold(w)
            &&& forall|k: Seq<char>| #[trigger]
                rolled_back(w).contains_key(k) <==> rolled_back(v).contains_key(k)
                    && !keys.contains(k)
            &&& forall|k: Seq<char>| #[trigger]
                rolled_back(w).contains_key(k) ==> rolled_back(w)[k] == rolled_back(v)[k]
            &&& live(w.map, now) == live(v.map, now)
        }),
    decreases keys.len(),
{
    if keys.len() > 0 {
        let key = keys[keys.len() - 1];
        let init = keys.drop_last();
        let x = forget(v, key, now);
        forget_is_right(v, key, now);
        assert forall|i: int| 0 <= i < init.len() implies op_writable(
            Op::Del { key: #[trigger] init[i] },
        ) by {
            assert(init[i] == keys[i]);
        }
        forgets_are_right(x, init, now);
        assert(live(x.map, now) =~= live(v.map, now));
        let w = forget_each(v, keys, now);
        assert forall|k: Seq<char>| #[trigger] rolled_back(w).contains_key(k)
            <==> rolled_back(v).contains_key(k) && !keys.contains(k) by {
            assert(rolled_back(x) == rolled_back(v).remove(key));
            if init.contains(k) {
                let i = choose|i: int| 0 <= i < init.len() && init[i] == k;
                assert(keys[i] == k);
            }
            if keys.contains(k) && k != key {
                let i = choose|i: int| 0 <= i < keys.len() && keys[i] == k;
                assert(init[i] == k);
            }
        }
    }
}

/// A key whose entry can be written can be recorded as gone.
proof fn key_is_writable(key: Seq<char>, e: EntryView)
    requires
        filled(e),
        entry_writable(key, e),
    ensures
        op_writable(Op::Del { key }),
{
    match e.value {
        ValueView::Bytes(_) => {},
        ValueView::List(l) => {
            assert(op_writable(Op::Push { key, value: l[0], front: false }));
        },
        ValueView::Hash(h) => {
            let field = h.dom().choose();
            assert(h.contains_key(field));
        },
        ValueView::Members(s) => {
            let member = s.choose();
            assert(s.contains(member));
        },
        ValueView::ZSet(z) => {
            let member = z.dom().choose();
            assert(z.contains_key(member));
        },
    }
}

/// What is dead before a transaction is forgotten, and nothing else.
proof fn dead_are_forgotten(v: StoreView, now: u64, disk: Seq<u8>)
    requires
        v.tx is Some,
        durable(v, disk),
    ensures
        staged_hold(without_dead(v, now)),
        rolled_back(without_dead(v, now)) == kept_by_compaction(v, now),
        live(without_dead(v, now).map, now) == live(v.map, now),
{
    let recs = choose|recs: Seq<Seq<u8>>| log_holds(v, disk, recs);
    let t = v.tx.unwrap();
    let r = rolled_back(v);
    durable_store_is_filled(v, disk);
    replayed_is_writable(Map::empty(), recs);
    replayed_is_writable(r, t.staged);
    let l = ordered::<String, EntryView>(r);
    let keys = dead_keys(l, now);
    ordered_exists::<String, EntryView>(r);
    dead_keys_are(l, now);
    assert forall|i: int| 0 <= i < keys.len() implies op_writable(
        Op::Del { key: #[trigger] keys[i] },
    ) by {
        assert(keys.contains(keys[i]));
        let j = choose|j: int|
            0 <= j < l.len() && #[trigger] l[j].0 == keys[i] && expired(l[j].1, now);
        assert(r.contains_key(l[j].0));
        key_is_writable(keys[i], r[keys[i]]);
    }
    forgets_are_right(v, keys, now);
    let b = rolled_back(without_dead(v, now));
    assert(b =~= live(r, now)) by {
        assert forall|k: Seq<char>| b.contains_key(k) == live(r, now).contains_key(k) by {
            if r.contains_key(k) && expired(r[k], now) {
                let i = choose|i: int| 0 <= i < l.len() && #[trigger] l[i].0 == k;
                assert(l[i].1 == r[k]);
                assert(keys.contains(k));
            }
            if keys.contains(k) {
                let i = choose|i: int|
                    0 <= i < l.len() && #[trigger] l[i].0 == k && expired(l[i].1, now);
                assert(r[l[i].0] == l[i].1);
            }
        }
    }
}

/// A compacted store is durable, also while a transaction is open: the log then holds what
/// had not expired of the state before it, and its staged records follow.
pub proof fn compaction_is_durable(v: StoreView, now: u64, disk: Seq<u8>)
    requires
        v.log is Some,
        !v.closed,
        durable(v, disk),
    ensures
        durable(compact_op(v, now).0, disk),
        compact_op(v, now).0.log is Some,
        !compact_op(v, now).0.closed,
        rolled_back(compact_op(v, now).0) == kept_by_compaction(v, now),
        live(compact_op(v, now).0.map, now) == live(v.map, now),
{
    let m = kept_by_compaction(v, now);
    durable_store_is_compactible(v, now, disk);
    compacted_records_come_to_state(m);
    let recs = records_of(compact_ops(ordered::<String, EntryView>(m)));
    let w = compact_op(v, now).0;
    let x = without_dead(v, now);
    match v.tx {
        Some(_) => {
            dead_are_forgotten(v, now, disk);
            forget_each_keeps(v, dead_keys(ordered::<String, EntryView>(rolled_back(v)), now), now);
        },
        None => {
            assert(live(live(v.map, now), now) =~= live(v.map, now));
        },
    }
    assert(rolled_back(w) == rolled_back(x));
    assert(log_holds(w, disk, recs));
}

/// After a compaction in the middle of a transaction, a rollback leaves a log that comes
/// to what had not expired before the transaction, and a commit one that comes to what the
/// store holds: what it held before, but for what had expired.
pub proof fn compaction_in_a_transaction(v: StoreView, now: u64, disk: Seq<u8>, fsync: bool)
    requires
        v.log is Some,
        !v.closed,
        v.tx is Some,
        durable(v, disk),
    ensures
        ({
            let w = compact_op(v, now).0;
            let undone = tx_rollback_op(w).0;
            let done = tx_commit_op(w).0;
            &&& undone.map == live(rolled_back(v), now)
            &&& open_op(undone.owed.applied(disk), fsync).map == live(rolled_back(v), now)
            &&& live(done.map, now) == live(v.map, now)
            &&& open_op(done.owed.applied(disk), fsync).map == done.map
        }),
{
    let w = compact_op(v, now).0;
    compaction_is_durable(v, now, disk);
    rollback_is_durable(w, disk);
    durable_store_is_recovered(tx_rollback_op(w).0, disk, fsync);
    commit_is_durable(w, disk);
    durable_store_is_recovered(tx_commit_op(w).0, disk, fsync);
}

/// Compacting keeps exactly what holds something at that time, key by key, and takes out
/// the rest. The result is the size of the log that is owed in place of the old one.
pub proof fn compacting_keeps_what_is_held(v: StoreView, key: Seq<char>, now: u64)
    requires
        !v.closed,
    ensures
        ({
            let (w, out) = compact_op(v, now);
            &&& v.log is None ==> w == v && out == Ok::<u64, IoError>(0)
            &&& v.log is Some ==> {
                &&& v.tx is None ==> w.map.contains_key(key) == held(v.map, key, now) is Some
                &&& held(v.map, key, now) matches Some(e) ==> w.map.contains_key(key) && w.map[key]
                    == e
                &&& w.owed.base == LogBase::Nothing
                &&& w.owed.sync
                &&& w.tx is Some == v.tx is Some
                &&& !w.closed
                &&& w.owed.bytes.len() <= u64::MAX ==> out == Ok::<u64, IoError>(
                    w.owed.bytes.len() as u64,
                )
                &&& w.log matches Some(a) && out == Ok::<u64, IoError>(a.size) && a.fsync
                    == v.log.unwrap().fsync
                &&& w.had_log == v.had_log
            }
        }),
{
    if v.tx is Some && v.log is Some {
        let keys = dead_keys(ordered::<String, EntryView>(rolled_back(v)), now);
        forget_each_keeps(v, keys, now);
        forget_spares(v, keys, key, now);
    }
}

/// Forgetting keys takes out of the store what has expired, and nothing else.
proof fn forget_spares(v: StoreView, keys: Seq<Seq<char>>, key: Seq<char>, now: u64)
    ensures
        held(v.map, key, now) matches Some(e) ==> forget_each(v, keys, now).map.contains_key(key)
            && forget_each(v, keys, now).map[key] == e,
    decreases keys.len(),
{
    if keys.len() > 0 {
        forget_spares(forget(v, keys.last(), now), keys.drop_last(), key, now);
    }
}

/// Compacting a store makes it durable, whatever its log file held: opening the new log
/// gives, key by key, what held something at the time of the compaction.
pub proof fn compacting_makes_durable(
    v: StoreView,
    key: Seq<char>,
    now: u64,
    disk: Seq<u8>,
    fsync: bool,
)
    requires
        !v.closed,
        v.log is Some,
        v.tx is None,
        compactible(live(v.map, now)),
    ensures
        ({
            let w = compact_op(v, now).0;
            let again = open_op(w.owed.applied(disk), fsync);
            &&& durable(w, disk)
            &&& again.map.contains_key(key) == held(v.map, key, now) is Some
            &&& held(v.map, key, now) matches Some(e) ==> again.map[key] == e
        }),
{
    let m = live(v.map, now);
    let w = compact_op(v, now).0;
    compacted_records_come_to_state(m);
    let recs = records_of(compact_ops(ordered::<String, EntryView>(m)));
    assert(log_holds(w, disk, recs));
    durable_store_is_recovered(w, disk, fsync);
}

} // verus!
