//! Why no log is shorter than a compacted one: every entry has a cost, no record adds more
//! than it costs itself, and a compacted log costs what its entries cost.

use vstd::prelude::*;
use crate::compact::{compact_op, compact_ops, compacted_log, entry_ops, records_of, value_ops};
use crate::expiry::live;
use crate::laws::commands::{all_filled, at_key, filled, op_at_key, op_key};
use crate::laws::durability::replayed_filled;
use crate::log::{frame, frames};
use crate::model::{rolled_back, StoreView};
use crate::mutate::{hash_at, list_at, set_at, zset_at};
use crate::record::{decode, record, record_is_shortest, Op};
use crate::replay::{apply_op, replayed};
use crate::snapshot::{listed_members, unit_map};
use crate::sorted_map::{listed, listed_is, listed_keys, ordered, ordered_exists, Key};
use crate::value::{EntryView, State, ValueView};
use crate::zset::{ranking, ranking_exists};

verus! {

/// What a record costs: its bytes in the log, or one for each record.
pub open spec fn cost(op: Op, bytes: bool) -> nat {
    if bytes {
        frame(record(op)).len()
    } else {
        1
    }
}

/// What a run of mutations costs.
pub open spec fn run_cost(ops: Seq<Op>, bytes: bool) -> nat
    decreases ops.len(),
{
    if ops.len() == 0 {
        0
    } else {
        run_cost(ops.drop_last(), bytes) + cost(ops.last(), bytes)
    }
}

proof fn run_cost_join(a: Seq<Op>, b: Seq<Op>, bytes: bool)
    ensures
        run_cost(a + b, bytes) == run_cost(a, bytes) + run_cost(b, bytes),
    decreases b.len(),
{
    if b.len() == 0 {
        assert(a + b =~= a);
    } else {
        assert((a + b).drop_last() =~= a + b.drop_last());
        run_cost_join(a, b.drop_last(), bytes);
    }
}

/// A run of mutations costs the bytes of its log, and its records.
proof fn run_cost_is(ops: Seq<Op>)
    ensures
        frames(records_of(ops)).len() == run_cost(ops, true),
        records_of(ops).len() == run_cost(ops, false),
    decreases ops.len(),
{
    if ops.len() > 0 {
        run_cost_is(ops.drop_last());
        assert(records_of(ops).drop_last() =~= records_of(ops.drop_last()));
    }
}

/// The sum of what the pairs of a finite map cost.
pub open spec fn total<A, B>(m: Map<A, B>, f: spec_fn(A, B) -> nat) -> nat
    decreases m.dom().len(),
{
    if m.dom().finite() && m.dom().len() > 0 {
        let k = m.dom().choose();
        f(k, m[k]) + total(m.remove(k), f)
    } else {
        0
    }
}

/// Any pair can be taken first.
proof fn total_takes<A, B>(m: Map<A, B>, f: spec_fn(A, B) -> nat, k: A)
    requires
        m.dom().finite(),
        m.contains_key(k),
    ensures
        total(m, f) == f(k, m[k]) + total(m.remove(k), f),
    decreases m.dom().len(),
{
    let c = m.dom().choose();
    assert(m.dom().contains(k));
    assert(m.dom().contains(c));
    if c != k {
        assert(m.remove(c).dom() =~= m.dom().remove(c));
        assert(m.remove(k).dom() =~= m.dom().remove(k));
        total_takes(m.remove(c), f, k);
        total_takes(m.remove(k), f, c);
        assert(m.remove(c).remove(k) =~= m.remove(k).remove(c));
    }
}

/// A pair that is put in costs itself, and the others what they did.
proof fn total_puts<A, B>(m: Map<A, B>, f: spec_fn(A, B) -> nat, k: A, v: B)
    requires
        m.dom().finite(),
    ensures
        total(m.insert(k, v), f) == f(k, v) + total(m.remove(k), f),
        total(m.remove(k), f) + (if m.contains_key(k) {
            f(k, m[k])
        } else {
            0
        }) == total(m, f),
{
    let n = m.insert(k, v);
    assert(n.dom() =~= m.dom().insert(k));
    total_takes(n, f, k);
    assert(n.remove(k) =~= m.remove(k));
    if m.contains_key(k) {
        total_takes(m, f, k);
    } else {
        assert(m.remove(k) =~= m);
    }
}

/// Part of a map costs no more than the whole.
proof fn total_of_part<A, B>(n: Map<A, B>, m: Map<A, B>, f: spec_fn(A, B) -> nat)
    requires
        m.dom().finite(),
        forall|k: A| #[trigger] n.contains_key(k) ==> m.contains_key(k) && n[k] == m[k],
    ensures
        n.dom().finite(),
        total(n, f) <= total(m, f),
    decreases m.dom().len(),
{
    assert(n.dom().subset_of(m.dom()));
    vstd::set_lib::lemma_set_subset_finite(m.dom(), n.dom());
    if m.dom().len() == 0 {
        assert(n.dom() =~= Set::<A>::empty());
    } else {
        let k = m.dom().choose();
        assert(m.dom().contains(k));
        assert(m.remove(k).dom() =~= m.dom().remove(k));
        if n.contains_key(k) {
            total_takes(n, f, k);
            total_of_part(n.remove(k), m.remove(k), f);
        } else {
            total_of_part(n, m.remove(k), f);
        }
    }
}

/// The sum of what listed pairs cost.
spec fn list_total<A, B>(l: Seq<(A, B)>, f: spec_fn(A, B) -> nat) -> nat
    decreases l.len(),
{
    if l.len() == 0 {
        0
    } else {
        list_total(l.drop_last(), f) + f(l.last().0, l.last().1)
    }
}

/// Pairs that are listed once each cost what the map costs that they come to.
proof fn list_total_is<A, B>(l: Seq<(A, B)>, f: spec_fn(A, B) -> nat)
    requires
        forall|i: int, j: int|
            0 <= i < j < l.len() ==> (#[trigger] l[i]).0 != (#[trigger] l[j]).0,
    ensures
        listed(l).dom().finite(),
        total(listed(l), f) == list_total(l, f),
    decreases l.len(),
{
    if l.len() > 0 {
        let init = l.drop_last();
        assert forall|i: int, j: int| 0 <= i < j < init.len() implies (#[trigger] init[i]).0 != (
        #[trigger] init[j]).0 by {
            assert(init[i] == l[i] && init[j] == l[j]);
        }
        list_total_is(init, f);
        listed_keys(init);
        let (k, v) = l.last();
        if listed(init).contains_key(k) {
            let i = choose|i: int| 0 <= i < init.len() && #[trigger] init[i].0 == k;
            assert(l[i].0 != l[l.len() - 1].0);
        }
        total_puts(listed(init), f, k, v);
        assert(listed(l).dom() =~= listed(init).dom().insert(k));
    }
}

/// Mutations that cost what listed pairs do.
proof fn run_costs_list<A, B>(
    ops: Seq<Op>,
    bytes: bool,
    l: Seq<(A, B)>,
    f: spec_fn(A, B) -> nat,
)
    requires
        ops.len() == l.len(),
        forall|i: int| 0 <= i < ops.len() ==> cost(#[trigger] ops[i], bytes) == f(l[i].0, l[i].1),
    ensures
        run_cost(ops, bytes) == list_total(l, f),
    decreases ops.len(),
{
    if ops.len() > 0 {
        let init = ops.drop_last();
        assert forall|i: int| 0 <= i < init.len() implies cost(#[trigger] init[i], bytes) == f(
            l.drop_last()[i].0,
            l.drop_last()[i].1,
        ) by {
            assert(init[i] == ops[i]);
        }
        run_costs_list(init, bytes, l.drop_last(), f);
        assert(cost(ops[ops.len() - 1], bytes) == f(l.last().0, l.last().1));
    }
}

/// What the fields of a hash cost, one by one.
spec fn field_cost(key: Seq<char>, bytes: bool) -> spec_fn(Seq<char>, Seq<u8>) -> nat {
    |field: Seq<char>, value: Seq<u8>| cost(Op::HSet { key, field, value }, bytes)
}

/// What the members of a set cost, one by one.
spec fn member_cost(key: Seq<char>, bytes: bool) -> spec_fn(Seq<u8>, ()) -> nat {
    |member: Seq<u8>, u: ()| cost(Op::SAdd { key, member }, bytes)
}

/// What the members of a sorted set cost, one by one.
spec fn score_cost(key: Seq<char>, bytes: bool) -> spec_fn(Seq<u8>, u64) -> nat {
    |member: Seq<u8>, score: u64| cost(Op::ZAdd { key, score, member }, bytes)
}

/// What the elements of a list cost.
spec fn elements_cost(key: Seq<char>, l: Seq<Seq<u8>>, bytes: bool) -> nat
    decreases l.len(),
{
    if l.len() == 0 {
        0
    } else {
        elements_cost(key, l.drop_last(), bytes) + cost(
            Op::Push { key, value: l.last(), front: false },
            bytes,
        )
    }
}

proof fn elements_cost_join(key: Seq<char>, a: Seq<Seq<u8>>, b: Seq<Seq<u8>>, bytes: bool)
    ensures
        elements_cost(key, a + b, bytes) == elements_cost(key, a, bytes) + elements_cost(
            key,
            b,
            bytes,
        ),
    decreases b.len(),
{
    if b.len() == 0 {
        assert(a + b =~= a);
    } else {
        assert((a + b).drop_last() =~= a + b.drop_last());
        elements_cost_join(key, a, b.drop_last(), bytes);
    }
}

proof fn one_element_cost(key: Seq<char>, value: Seq<u8>, front: bool, bytes: bool)
    ensures
        elements_cost(key, seq![value], bytes) == cost(Op::Push { key, value, front }, bytes),
{
    assert(seq![value].drop_last() =~= Seq::<Seq<u8>>::empty());
    assert(elements_cost(key, Seq::<Seq<u8>>::empty(), bytes) == 0);
}

/// What the value of an entry costs.
spec fn value_cost(key: Seq<char>, value: ValueView, bytes: bool) -> nat {
    match value {
        ValueView::Bytes(b) => cost(Op::Put { key, value: b, expire_at: None }, bytes),
        ValueView::List(l) => elements_cost(key, l, bytes),
        ValueView::Hash(h) => total(h, field_cost(key, bytes)),
        ValueView::Members(s) => total(unit_map(s), member_cost(key, bytes)),
        ValueView::ZSet(z) => total(z, score_cost(key, bytes)),
    }
}

/// What an entry costs: a time of expiry has its own record, but for plain bytes.
spec fn entry_cost(key: Seq<char>, e: EntryView, bytes: bool) -> nat {
    value_cost(key, e.value, bytes) + (if e.value is Bytes || e.expire_at is None {
        0
    } else {
        cost(Op::Expire { key, at: 0 }, bytes)
    })
}

/// What the entries of a state cost, one by one.
spec fn entries_cost(bytes: bool) -> spec_fn(Seq<char>, EntryView) -> nat {
    |key: Seq<char>, e: EntryView| entry_cost(key, e, bytes)
}

/// What an entry costs once a mutation of its key has been applied: no more than before and
/// what the mutation costs.
#[verifier::rlimit(60)]
#[verifier::spinoff_prover]
proof fn op_adds_its_cost(m: State, op: Op, key: Seq<char>, bytes: bool)
    requires
        all_filled(m),
        op_key(op) == Some(key),
    ensures
        ({
            let n = apply_op(m, op);
            let was: nat = if m.contains_key(key) {
                entry_cost(key, m[key], bytes)
            } else {
                0
            };
            n.contains_key(key) ==> entry_cost(key, n[key], bytes) <= was + cost(op, bytes)
        }),
{
    match op {
        Op::Push { value, front, .. } => match list_at(m, key) {
            Some(l) => {
                one_element_cost(key, value, front, bytes);
                elements_cost_join(key, l, seq![value], bytes);
                elements_cost_join(key, seq![value], l, bytes);
                assert(l.push(value) =~= l + seq![value]);
            },
            None => {},
        },
        Op::Pop { front, .. } => match list_at(m, key) {
            Some(l) => if l.len() > 0 {
                elements_cost_join(key, seq![l.first()], l.drop_first(), bytes);
                assert(l =~= seq![l.first()] + l.drop_first());
            },
            None => {},
        },
        Op::HSet { field, value, .. } => match hash_at(m, key) {
            Some(h) => {
                if !m.contains_key(key) {
                    assert(h.dom() =~= Set::<Seq<char>>::empty());
                }
                total_puts(h, field_cost(key, bytes), field, value);
            },
            None => {},
        },
        Op::HDel { field, .. } => match hash_at(m, key) {
            Some(h) => {
                if !m.contains_key(key) {
                    assert(h.remove(field).dom() =~= Set::<Seq<char>>::empty());
                } else {
                    total_puts(h, field_cost(key, bytes), field, Seq::empty());
                }
            },
            None => {},
        },
        Op::SAdd { member, .. } => match set_at(m, key) {
            Some(s) => {
                if !m.contains_key(key) {
                    assert(s =~= Set::<Seq<u8>>::empty());
                }
                assert(unit_map(s).dom() =~= s);
                total_puts(unit_map(s), member_cost(key, bytes), member, ());
                assert(unit_map(s.insert(member)) =~= unit_map(s).insert(member, ()));
            },
            None => {},
        },
        Op::SRem { member, .. } => match set_at(m, key) {
            Some(s) => {
                if !m.contains_key(key) {
                    assert(s.remove(member) =~= Set::<Seq<u8>>::empty());
                } else {
                    assert(unit_map(s).dom() =~= s);
                    total_puts(unit_map(s), member_cost(key, bytes), member, ());
                    assert(unit_map(s.remove(member)) =~= unit_map(s).remove(member));
                }
            },
            None => {},
        },
        Op::ZAdd { score, member, .. } => match zset_at(m, key) {
            Some(z) => {
                if !m.contains_key(key) {
                    assert(z.dom() =~= Set::<Seq<u8>>::empty());
                }
                total_puts(z, score_cost(key, bytes), member, score);
            },
            None => {},
        },
        Op::ZRem { member, .. } => match zset_at(m, key) {
            Some(z) => {
                if !m.contains_key(key) {
                    assert(z.remove(member).dom() =~= Set::<Seq<u8>>::empty());
                } else {
                    total_puts(z, score_cost(key, bytes), member, 0);
                }
            },
            None => {},
        },
        _ => {},
    }
}

/// No mutation adds more to what a state costs than it costs itself.
proof fn state_cost_grows(m: State, op: Op, bytes: bool)
    requires
        m.dom().finite(),
        all_filled(m),
    ensures
        apply_op(m, op).dom().finite(),
        total(apply_op(m, op), entries_cost(bytes)) <= total(m, entries_cost(bytes)) + cost(
            op,
            bytes,
        ),
{
    let n = apply_op(m, op);
    let f = entries_cost(bytes);
    match op_key(op) {
        Some(key) => {
            op_at_key(m, op, key);
            op_adds_its_cost(m, op, key, bytes);
            if n == m {
            } else if n == m.remove(key) {
                total_of_part(n, m, f);
            } else {
                assert(at_key(m, n, key));
                assert(n.dom() =~= m.dom().insert(key));
                total_puts(m, f, key, n[key]);
            }
        },
        None => {
            assert(n.dom() =~= Set::<Seq<char>>::empty());
        },
    }
}

/// What records come to costs no more than the records.
proof fn replayed_costs(recs: Seq<Seq<u8>>)
    ensures
        ({
            let r = replayed(Map::empty(), recs);
            &&& r.dom().finite()
            &&& total(r, entries_cost(true)) <= frames(recs).len()
            &&& total(r, entries_cost(false)) <= recs.len()
        }),
    decreases recs.len(),
{
    if recs.len() == 0 {
        assert(Map::<Seq<char>, EntryView>::empty().dom() =~= Set::<Seq<char>>::empty());
    } else {
        let init = recs.drop_last();
        let m = replayed(Map::empty(), init);
        replayed_costs(init);
        replayed_filled(Map::empty(), init);
        match decode(recs.last()) {
            Some(op) => {
                state_cost_grows(m, op, true);
                state_cost_grows(m, op, false);
                record_is_shortest(recs.last(), op);
            },
            None => {},
        }
    }
}

/// The records that come to an entry cost what the entry costs.
#[verifier::rlimit(30)]
proof fn entry_ops_cost(key: Seq<char>, e: EntryView, bytes: bool)
    requires
        filled(e),
        e.expire_at != Some(0u64),
    ensures
        run_cost(entry_ops(key, e), bytes) == entry_cost(key, e, bytes),
{
    let ops = value_ops(key, e);
    let none = Seq::<Op>::empty();
    assert(run_cost(none, bytes) == 0);
    match e.value {
        ValueView::Bytes(b) => {
            assert(ops.drop_last() =~= none);
        },
        ValueView::List(l) => {
            list_ops_cost(key, l, l.len(), bytes);
            assert(l.take(l.len() as int) =~= l);
        },
        ValueView::Hash(h) => {
            let l = ordered::<String, Seq<u8>>(h);
            ordered_exists::<String, Seq<u8>>(h);
            assert forall|i: int, j: int| 0 <= i < j < l.len() implies (#[trigger] l[i]).0 != (
            #[trigger] l[j]).0 by {
                <String as Key>::irreflexive(l[i].0);
            }
            run_costs_list(ops, bytes, l, field_cost(key, bytes));
            list_total_is(l, field_cost(key, bytes));
            listed_is(l, h);
        },
        ValueView::Members(s) => {
            let u = unit_map(s);
            let l = ordered::<Vec<u8>, ()>(u);
            assert(u.dom() =~= s);
            ordered_exists::<Vec<u8>, ()>(u);
            assert forall|i: int, j: int| 0 <= i < j < l.len() implies (#[trigger] l[i]).0 != (
            #[trigger] l[j]).0 by {
                <Vec<u8> as Key>::irreflexive(l[i].0);
            }
            assert(listed_members(s).len() == l.len());
            run_costs_list(ops, bytes, l, member_cost(key, bytes));
            list_total_is(l, member_cost(key, bytes));
            listed_is(l, u);
        },
        ValueView::ZSet(z) => {
            let l = ranking(z);
            ranking_exists(z);
            assert forall|i: int, j: int| 0 <= i < j < l.len() implies (#[trigger] l[i]).0 != (
            #[trigger] l[j]).0 by {
                <crate::zset::Scored as Key>::irreflexive(l[i]);
                assert(z[l[i].0] == l[i].1 && z[l[j].0] == l[j].1);
            }
            run_costs_list(ops, bytes, l, score_cost(key, bytes));
            list_total_is(l, score_cost(key, bytes));
            listed_is(l, z);
        },
    }
    match e.expire_at {
        Some(at) => {
            let x = seq![Op::Expire { key, at }];
            run_cost_join(ops, x, bytes);
            assert(x.drop_last() =~= none);
        },
        None => {
            assert(ops + none =~= ops);
        },
    }
}

proof fn list_ops_cost(key: Seq<char>, l: Seq<Seq<u8>>, n: nat, bytes: bool)
    requires
        n <= l.len(),
    ensures
        run_cost(
            Seq::new(n, |i: int| Op::Push { key, value: l[i], front: false }),
            bytes,
        ) == elements_cost(key, l.take(n as int), bytes),
    decreases n,
{
    if n > 0 {
        let k = (n - 1) as nat;
        let f = |i: int| Op::Push { key, value: l[i], front: false };
        list_ops_cost(key, l, k, bytes);
        assert(Seq::new(n, f).drop_last() =~= Seq::new(k, f));
        assert(l.take(n as int).drop_last() =~= l.take(k as int));
    }
}

/// The records of listed entries cost what the entries cost.
proof fn compact_ops_cost(l: Seq<(Seq<char>, EntryView)>, bytes: bool)
    requires
        forall|i: int|
            0 <= i < l.len() ==> filled((#[trigger] l[i]).1) && l[i].1.expire_at != Some(0u64),
    ensures
        run_cost(compact_ops(l), bytes) == list_total(l, entries_cost(bytes)),
    decreases l.len(),
{
    if l.len() > 0 {
        let init = l.drop_last();
        assert forall|i: int| 0 <= i < init.len() implies filled((#[trigger] init[i]).1)
            && init[i].1.expire_at != Some(0u64) by {
            assert(init[i] == l[i]);
        }
        compact_ops_cost(init, bytes);
        assert(filled(l[l.len() - 1].1));
        entry_ops_cost(l.last().0, l.last().1, bytes);
        run_cost_join(compact_ops(init), entry_ops(l.last().0, l.last().1), bytes);
    }
}

/// The records that a state is compacted to.
pub open spec fn compacted_records(m: State) -> Seq<Seq<u8>> {
    records_of(compact_ops(ordered::<String, EntryView>(m)))
}

/// No log is shorter than a compacted one, neither in bytes nor in records: not one of all
/// the logs that come to the same entries, but for entries that have expired.
pub proof fn compacted_log_is_shortest(m: State, recs: Seq<Seq<u8>>, now: u64)
    requires
        live(replayed(Map::empty(), recs), now) == live(m, now),
    ensures
        compacted_log(live(m, now)).len() <= frames(recs).len(),
        compacted_records(live(m, now)).len() <= recs.len(),
{
    let r = replayed(Map::empty(), recs);
    let n = live(m, now);
    let l = ordered::<String, EntryView>(n);
    replayed_costs(recs);
    replayed_filled(Map::empty(), recs);
    total_of_part(n, r, entries_cost(true));
    total_of_part(n, r, entries_cost(false));
    ordered_exists::<String, EntryView>(n);
    assert forall|i: int| 0 <= i < l.len() implies filled((#[trigger] l[i]).1)
        && l[i].1.expire_at != Some(0u64) by {
        assert(n.contains_key(l[i].0));
        assert(r.contains_key(l[i].0));
    }
    assert forall|i: int, j: int| 0 <= i < j < l.len() implies (#[trigger] l[i]).0 != (
    #[trigger] l[j]).0 by {
        <String as Key>::irreflexive(l[i].0);
    }
    listed_is(l, n);
    list_total_is(l, entries_cost(true));
    list_total_is(l, entries_cost(false));
    compact_ops_cost(l, true);
    compact_ops_cost(l, false);
    run_cost_is(compact_ops(l));
}

/// Compacting gives the shortest log: the size that it returns is no more than that of any
/// log that comes to what has not expired. While a transaction is open, that is said of the
/// state before it.
pub proof fn compaction_is_shortest(v: StoreView, recs: Seq<Seq<u8>>, now: u64)
    requires
        !v.closed,
        v.log is Some,
        live(replayed(Map::empty(), recs), now) == live(rolled_back(v), now),
    ensures
        compact_op(v, now).1 matches Ok(n) && n <= frames(recs).len(),
        compact_op(v, now).0.owed.bytes == frames(
            compacted_records(live(rolled_back(v), now)),
        ),
        compacted_records(live(rolled_back(v), now)).len() <= recs.len(),
{
    compacted_log_is_shortest(rolled_back(v), recs, now);
}

} // verus!
