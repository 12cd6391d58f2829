//! What snapshots promise: a snapshot gives back the state that it was taken of, those
//! of the first version can still be loaded, and damage is found.

use vstd::prelude::*;
use crate::bytes::{
    blob, blob_reads_back, field_of_number, field_sizes, le32, le64, read_u32, text_blob,
    text_reads_back, u32_reads_back, u64_reads_back,
};
use crate::classic::{all_bytes, parse_plain, plain_entries, plain_entry, plain_snapshot};
use crate::crc::{crc_of, one_changed_byte_changes_crc};
use crate::laws::compaction::listed_members_are;
use crate::record::{blob_fits, expiry_field, field_expiry, text_fits};
use crate::score::is_nan;
use crate::snapshot::{
    blobs, element_step, entries_bytes, entry_bytes, entry_step, field_step, fields, listed_members,
    member_step, parse, parse_body, scored, scored_step, snapshot, snapshot_body, take_blob,
    take_entry, take_kind, take_n, take_text, take_u32, take_u64, take_value, value_bytes, MAGIC,
    Parsed, SnapshotFault, TYPE_BYTES, TYPE_HASH, TYPE_LIST, TYPE_SET, TYPE_ZSET, VERSION,
};
use crate::sorted_map::{
    is_ordered, listed, listed_is, listed_keys, ordered, ordered_exists, ordered_is, ordered_len,
    Key,
};
use crate::value::{EntryView, State, ValueView};
use crate::zset::{ranking, ranking_exists, ranking_len};

verus! {

/// Whether every length and count of a value fits its field, and every score is a number.
pub open spec fn value_fits(v: ValueView) -> bool {
    match v {
        ValueView::Bytes(b) => blob_fits(b),
        ValueView::List(l) => l.len() <= u32::MAX && forall|i: int|
            0 <= i < l.len() ==> blob_fits(#[trigger] l[i]),
        ValueView::Hash(h) => h.dom().finite() && h.dom().len() <= u32::MAX && forall|
            f: Seq<char>,
        | #[trigger]
            h.contains_key(f) ==> text_fits(f) && blob_fits(h[f]),
        ValueView::Members(s) => s.finite() && s.len() <= u32::MAX && forall|x: Seq<u8>| #[trigger]
            s.contains(x) ==> blob_fits(x),
        ValueView::ZSet(z) => z.dom().finite() && z.dom().len() <= u32::MAX && forall|
            x: Seq<u8>,
        | #[trigger]
            z.contains_key(x) ==> blob_fits(x) && !is_nan(z[x]),
    }
}

/// Whether an entry can be written to a snapshot: its lengths fit their fields, and its
/// time of expiry is not the one that stands for none.
pub open spec fn entry_fits(key: Seq<char>, e: EntryView) -> bool {
    text_fits(key) && e.expire_at != Some(0u64) && value_fits(e.value)
}

/// Whether every length and count of a state fits its field.
pub open spec fn lengths_fit(m: State) -> bool {
    &&& m.dom().finite()
    &&& m.dom().len() <= u32::MAX
    &&& forall|k: Seq<char>| #[trigger]
        m.contains_key(k) ==> text_fits(k) && value_fits(m[k].value)
}

/// Whether a state can be written to a snapshot.
pub open spec fn state_fits(m: State) -> bool {
    &&& m.dom().finite()
    &&& m.dom().len() <= u32::MAX
    &&& forall|k: Seq<char>| #[trigger] m.contains_key(k) ==> entry_fits(k, m[k])
}

/// Whether `x` stands at `pos`.
pub open spec fn stands(d: Seq<u8>, pos: int, x: Seq<u8>) -> bool {
    0 <= pos && pos + x.len() <= d.len() && d.subrange(pos, pos + x.len()) == x
}

proof fn split(d: Seq<u8>, pos: int, a: Seq<u8>, b: Seq<u8>)
    requires
        stands(d, pos, a + b),
    ensures
        stands(d, pos, a),
        stands(d, pos + a.len(), b),
{
    let x = d.subrange(pos, pos + (a + b).len());
    assert(d.subrange(pos, pos + a.len()) =~= x.subrange(0, a.len() as int));
    assert((a + b).subrange(0, a.len() as int) =~= a);
    assert(d.subrange(pos + a.len(), pos + a.len() + b.len()) =~= x.subrange(
        a.len() as int,
        (a + b).len() as int,
    ));
    assert((a + b).subrange(a.len() as int, (a + b).len() as int) =~= b);
}

proof fn list_reads_back(d: Seq<u8>, pos: int, l: Seq<Seq<u8>>)
    requires
        stands(d, pos, blobs(l)),
        forall|i: int| 0 <= i < l.len() ==> blob_fits(#[trigger] l[i]),
    ensures
        take_n(element_step(d), Seq::empty(), pos, l.len()) == Ok::<
            (Seq<Seq<u8>>, int),
            SnapshotFault,
        >((l, pos + blobs(l).len())),
    decreases l.len(),
{
    if l.len() == 0 {
        assert(l =~= Seq::empty());
    } else {
        let init = l.drop_last();
        split(d, pos, blobs(init), blob(l.last()));
        assert forall|i: int| 0 <= i < init.len() implies blob_fits(#[trigger] init[i]) by {
            assert(init[i] == l[i]);
        }
        list_reads_back(d, pos, init);
        assert(blob_fits(l[l.len() - 1]));
        blob_reads_back(d, pos + blobs(init).len(), l.last());
        assert(init.push(l.last()) =~= l);
    }
}

proof fn members_read_back(d: Seq<u8>, pos: int, l: Seq<Seq<u8>>)
    requires
        stands(d, pos, blobs(l)),
        forall|i: int| 0 <= i < l.len() ==> blob_fits(#[trigger] l[i]),
    ensures
        take_n(member_step(d), Set::empty(), pos, l.len()) == Ok::<
            (Set<Seq<u8>>, int),
            SnapshotFault,
        >((l.to_set(), pos + blobs(l).len())),
    decreases l.len(),
{
    if l.len() == 0 {
        assert(l.to_set() =~= Set::<Seq<u8>>::empty());
    } else {
        let init = l.drop_last();
        split(d, pos, blobs(init), blob(l.last()));
        assert forall|i: int| 0 <= i < init.len() implies blob_fits(#[trigger] init[i]) by {
            assert(init[i] == l[i]);
        }
        members_read_back(d, pos, init);
        assert(blob_fits(l[l.len() - 1]));
        blob_reads_back(d, pos + blobs(init).len(), l.last());
        assert(init.to_set().insert(l.last()) =~= l.to_set()) by {
            assert forall|x: Seq<u8>| init.to_set().insert(l.last()).contains(x) implies
                l.to_set().contains(x) by {
                if x == l.last() {
                    assert(l[l.len() - 1] == x);
                } else {
                    let i = choose|i: int| 0 <= i < init.len() && init[i] == x;
                    assert(l[i] == x);
                }
            }
            assert forall|x: Seq<u8>| l.to_set().contains(x) implies init.to_set().insert(
                l.last(),
            ).contains(x) by {
                let i = choose|i: int| 0 <= i < l.len() && l[i] == x;
                if i < init.len() {
                    assert(init[i] == x);
                }
            }
        }
    }
}

proof fn fields_read_back(d: Seq<u8>, pos: int, l: Seq<(Seq<char>, Seq<u8>)>)
    requires
        stands(d, pos, fields(l)),
        forall|i: int|
            0 <= i < l.len() ==> text_fits((#[trigger] l[i]).0) && blob_fits(l[i].1),
    ensures
        take_n(field_step(d), Map::empty(), pos, l.len()) == Ok::<
            (Map<Seq<char>, Seq<u8>>, int),
            SnapshotFault,
        >((listed(l), pos + fields(l).len())),
    decreases l.len(),
{
    if l.len() > 0 {
        let init = l.drop_last();
        let (f, b) = l.last();
        split(d, pos, fields(init) + text_blob(f), blob(b));
        split(d, pos, fields(init), text_blob(f));
        assert forall|i: int| 0 <= i < init.len() implies text_fits((#[trigger] init[i]).0)
            && blob_fits(init[i].1) by {
            assert(init[i] == l[i]);
        }
        fields_read_back(d, pos, init);
        assert(l[l.len() - 1] == (f, b));
        text_reads_back(d, pos + fields(init).len(), f);
        blob_reads_back(d, pos + fields(init).len() + text_blob(f).len(), b);
    }
}

proof fn scored_read_back(d: Seq<u8>, pos: int, l: Seq<(Seq<u8>, u64)>)
    requires
        stands(d, pos, scored(l)),
        forall|i: int| 0 <= i < l.len() ==> blob_fits((#[trigger] l[i]).0) && !is_nan(l[i].1),
    ensures
        take_n(scored_step(d), Map::empty(), pos, l.len()) == Ok::<
            (Map<Seq<u8>, u64>, int),
            SnapshotFault,
        >((listed(l), pos + scored(l).len())),
    decreases l.len(),
{
    if l.len() > 0 {
        let init = l.drop_last();
        let (b, x) = l.last();
        split(d, pos, scored(init) + le64(x), blob(b));
        split(d, pos, scored(init), le64(x));
        assert forall|i: int| 0 <= i < init.len() implies blob_fits((#[trigger] init[i]).0)
            && !is_nan(init[i].1) by {
            assert(init[i] == l[i]);
        }
        scored_read_back(d, pos, init);
        assert(l[l.len() - 1] == (b, x));
        field_sizes(0, x);
        u64_reads_back(d, pos + scored(init).len(), x);
        blob_reads_back(d, pos + scored(init).len() + 8, b);
    }
}

/// The count before a collection is read back.
proof fn count_reads_back(d: Seq<u8>, pos: int, kind: u8, n: u32, rest: Seq<u8>)
    requires
        stands(d, pos, seq![kind] + le32(n) + rest),
    ensures
        d[pos] == kind,
        pos + 1 <= d.len(),
        read_u32(d, pos + 1) == Some((n, pos + 5)),
        stands(d, pos + 5, rest),
        (seq![kind] + le32(n) + rest).len() == 5 + rest.len(),
{
    field_sizes(n, 0);
    split(d, pos, seq![kind] + le32(n), rest);
    split(d, pos, seq![kind], le32(n));
    assert(d.subrange(pos, pos + 1)[0] == kind);
    u32_reads_back(d, pos + 1, n);
}

proof fn value_reads_back(d: Seq<u8>, pos: int, v: ValueView)
    requires
        stands(d, pos, value_bytes(v)),
        value_fits(v),
    ensures
        pos + 1 <= d.len(),
        take_value(d, pos + 1, d[pos]) == Ok::<(ValueView, int), SnapshotFault>(
            (v, pos + value_bytes(v).len()),
        ),
{
    match v {
        ValueView::Bytes(b) => {
            split(d, pos, seq![TYPE_BYTES], blob(b));
            assert(d.subrange(pos, pos + 1)[0] == TYPE_BYTES);
            blob_reads_back(d, pos + 1, b);
        },
        ValueView::List(l) => {
            count_reads_back(d, pos, TYPE_LIST, l.len() as u32, blobs(l));
            list_reads_back(d, pos + 5, l);
        },
        ValueView::Hash(h) => {
            let l = ordered::<String, Seq<u8>>(h);
            ordered_exists::<String, Seq<u8>>(h);
            ordered_len::<String, Seq<u8>>(l, h);
            count_reads_back(d, pos, TYPE_HASH, h.dom().len() as u32, fields(l));
            assert forall|i: int| 0 <= i < l.len() implies text_fits((#[trigger] l[i]).0)
                && blob_fits(l[i].1) by {
                assert(h.contains_key(l[i].0));
            }
            fields_read_back(d, pos + 5, l);
            listed_is(l, h);
        },
        ValueView::Members(s) => {
            let l = listed_members(s);
            listed_members_are(s);
            count_reads_back(d, pos, TYPE_SET, s.len() as u32, blobs(l));
            assert forall|i: int| 0 <= i < l.len() implies blob_fits(#[trigger] l[i]) by {
                assert(l.to_set().contains(l[i]));
            }
            members_read_back(d, pos + 5, l);
        },
        ValueView::ZSet(z) => {
            let l = ranking(z);
            ranking_exists(z);
            ranking_len(l, z);
            count_reads_back(d, pos, TYPE_ZSET, z.dom().len() as u32, scored(l));
            assert forall|i: int| 0 <= i < l.len() implies blob_fits((#[trigger] l[i]).0)
                && !is_nan(l[i].1) by {
                assert(z.contains_key(l[i].0));
            }
            scored_read_back(d, pos + 5, l);
            listed_is(l, z);
        },
    }
}

/// A time of expiry is read back.
proof fn expiry_reads_back(t: Option<u64>)
    requires
        t != Some(0u64),
    ensures
        field_expiry(expiry_field(t)) == t,
{
}

proof fn entry_reads_back(d: Seq<u8>, pos: int, key: Seq<char>, e: EntryView, version: u8)
    requires
        version != 1,
        stands(d, pos, entry_bytes(key, e)),
        entry_fits(key, e),
    ensures
        take_entry(d, pos, version) == Ok::<((Seq<char>, EntryView), int), SnapshotFault>(
            ((key, e), pos + entry_bytes(key, e).len()),
        ),
{
    let t = expiry_field(e.expire_at);
    split(d, pos, text_blob(key) + le64(t), value_bytes(e.value));
    split(d, pos, text_blob(key), le64(t));
    text_reads_back(d, pos, key);
    let at = pos + text_blob(key).len();
    field_sizes(0, t);
    u64_reads_back(d, at, t);
    value_reads_back(d, at + 8, e.value);
    expiry_reads_back(e.expire_at);
}

proof fn entries_read_back(d: Seq<u8>, pos: int, l: Seq<(Seq<char>, EntryView)>, version: u8)
    requires
        version != 1,
        stands(d, pos, entries_bytes(l)),
        forall|i: int| 0 <= i < l.len() ==> entry_fits((#[trigger] l[i]).0, l[i].1),
    ensures
        take_n(entry_step(d, version), Map::empty(), pos, l.len()) == Ok::<
            (State, int),
            SnapshotFault,
        >((listed(l), pos + entries_bytes(l).len())),
    decreases l.len(),
{
    if l.len() > 0 {
        let init = l.drop_last();
        let (key, e) = l.last();
        split(d, pos, entries_bytes(init), entry_bytes(key, e));
        assert forall|i: int| 0 <= i < init.len() implies entry_fits(
            (#[trigger] init[i]).0,
            init[i].1,
        ) by {
            assert(init[i] == l[i]);
        }
        entries_read_back(d, pos, init, version);
        assert(l[l.len() - 1] == (key, e));
        entry_reads_back(d, pos + entries_bytes(init).len(), key, e, version);
    }
}

/// The part before the checksum of a snapshot of any version but the first.
pub open spec fn body_of_version(m: State, version: u8) -> Seq<u8> {
    MAGIC@ + seq![version, 0u8] + le32(m.dom().len() as u32) + entries_bytes(
        ordered::<String, EntryView>(m),
    )
}

/// A snapshot of any version but the first: the second has no checksum.
pub open spec fn snapshot_of_version(m: State, version: u8) -> Seq<u8> {
    let body = body_of_version(m, version);
    if version >= 3 {
        body + le32(crc_of(body))
    } else {
        body
    }
}

/// The part of a snapshot before its checksum holds the state that it was taken of.
proof fn body_reads_back(m: State, version: u8)
    requires
        version != 1,
        state_fits(m),
    ensures
        parse_body(body_of_version(m, version), version) == Ok::<State, SnapshotFault>(m),
{
    let d = body_of_version(m, version);
    let n = m.dom().len() as u32;
    let l = ordered::<String, EntryView>(m);
    ordered_exists::<String, EntryView>(m);
    ordered_len::<String, EntryView>(l, m);
    field_sizes(n, 0);
    assert(d.subrange(6, 10) =~= le32(n));
    u32_reads_back(d, 6, n);
    assert(d.subrange(10, 10 + entries_bytes(l).len() as int) =~= entries_bytes(l));
    assert forall|i: int| 0 <= i < l.len() implies entry_fits((#[trigger] l[i]).0, l[i].1) by {
        assert(m.contains_key(l[i].0));
    }
    entries_read_back(d, 10, l, version);
    listed_is(l, m);
}

/// Snapshots of every version but the first give back the state that they were taken of.
pub proof fn every_version_loads(m: State, version: u8)
    requires
        state_fits(m),
        2 <= version <= VERSION,
    ensures
        parse(snapshot_of_version(m, version)) == Ok::<State, SnapshotFault>(m),
{
    let body = body_of_version(m, version);
    let d = snapshot_of_version(m, version);
    let crc = crc_of(body);
    field_sizes(m.dom().len() as u32, 0);
    field_sizes(crc, 0);
    assert(d.take(4) =~= MAGIC@);
    assert(d[4] == version);
    body_reads_back(m, version);
    if version >= 3 {
        assert(d.take(d.len() - 4) =~= body);
        assert(d.subrange(d.len() - 4, d.len() as int) =~= le32(crc));
        u32_reads_back(d, d.len() - 4, crc);
    }
}

/// A snapshot gives back the state that it was taken of; a time of expiry of 0, which stands
/// for none, comes back as none.
pub proof fn snapshot_roundtrip(m: State)
    requires
        lengths_fit(m),
    ensures
        parse(snapshot(m)) == Ok::<State, SnapshotFault>(loaded(m)),
        state_fits(m) ==> parse(snapshot(m)) == Ok::<State, SnapshotFault>(m),
{
    let n = loaded(m);
    loaded_snapshot(m);
    assert(snapshot(n) =~= snapshot_of_version(n, VERSION));
    every_version_loads(n, VERSION);
    if state_fits(m) {
        assert(n =~= m);
    }
}

/// A changed byte is found: a snapshot with one byte changed is refused, and where the
/// byte stands behind the version, as corrupted. The one byte that can let damage pass
/// is the version, changed to one of those without a checksum.
#[verifier::rlimit(40)]
#[verifier::spinoff_prover]
pub proof fn changed_snapshot_is_refused(m: State, i: int, b: u8)
    requires
        0 <= i < snapshot(m).len(),
        b != snapshot(m)[i],
        i == 4 ==> b != 1 && b != 2,
    ensures
        parse(snapshot(m).update(i, b)) is Err,
        i > 4 ==> parse(snapshot(m).update(i, b)) == Err::<State, SnapshotFault>(
            SnapshotFault::BadChecksum,
        ),
{
    let body = snapshot_body(m);
    let d = snapshot(m);
    let x = d.update(i, b);
    let n = d.len() as int;
    let crc = crc_of(body);
    field_sizes(m.dom().len() as u32, 0);
    field_sizes(crc, 0);
    assert(d.take(n - 4) =~= body);
    assert(d.subrange(n - 4, n) =~= le32(crc));
    assert(d.take(4) =~= MAGIC@);
    assert(d[4] == VERSION);
    if i < 4 {
        assert(x.take(4)[i] != d.take(4)[i]);
    } else if i < n - 4 {
        assert(x.take(n - 4) =~= body.update(i, b));
        assert(body[i] == d[i]);
        one_changed_byte_changes_crc(body, i, b);
        assert(x.subrange(n - 4, n) =~= le32(crc));
        u32_reads_back(x, n - 4, crc);
        assert(i > 4 ==> x[4] == VERSION);
        assert(x.take(4) =~= MAGIC@);
    } else {
        assert(x.take(n - 4) =~= body);
        let field = x.subrange(n - 4, n);
        assert(field =~= le32(crc).update(i - (n - 4), b));
        assert(field[i - (n - 4)] != le32(crc)[i - (n - 4)]);
        field_of_number(field);
        assert(x[4] == VERSION);
        assert(x.take(4) =~= MAGIC@);
    }
}

/// Whether a parser that read something up to `at` in a snapshot reads the same in what
/// is left of it after a cut behind `at`, and nothing after a cut before it.
pub open spec fn cut_is_noticed<T>(whole: Parsed<T>, cut: Parsed<T>, pos: int, n: int) -> bool {
    whole matches Ok((_, at)) ==> {
        &&& pos <= at
        &&& at <= n ==> cut == whole
        &&& at > n ==> cut is Err
    }
}

proof fn cut_numbers(d: Seq<u8>, n: int, pos: int)
    requires
        0 <= pos,
        0 <= n <= d.len(),
    ensures
        cut_is_noticed(take_u32(d, pos), take_u32(d.take(n), pos), pos, n),
        cut_is_noticed(take_u64(d, pos), take_u64(d.take(n), pos), pos, n),
{
    if pos + 4 <= n {
        assert(d.take(n).subrange(pos, pos + 4) =~= d.subrange(pos, pos + 4));
    }
    if pos + 8 <= n {
        assert(d.take(n).subrange(pos, pos + 8) =~= d.subrange(pos, pos + 8));
    }
}

proof fn cut_blob(d: Seq<u8>, n: int, pos: int)
    requires
        0 <= pos,
        0 <= n <= d.len(),
    ensures
        cut_is_noticed(take_blob(d, pos), take_blob(d.take(n), pos), pos, n),
{
    cut_numbers(d, n, pos);
    match take_blob(d, pos) {
        Ok((b, at)) => if at <= n {
            assert(d.take(n).subrange(pos + 4, at) =~= d.subrange(pos + 4, at));
        },
        Err(_) => {},
    }
}

proof fn cut_text(d: Seq<u8>, n: int, pos: int, fault: SnapshotFault)
    requires
        0 <= pos,
        0 <= n <= d.len(),
    ensures
        cut_is_noticed(take_text(d, pos, fault), take_text(d.take(n), pos, fault), pos, n),
{
    cut_blob(d, n, pos);
}

/// A cut is noticed among several items, if it is in each.
proof fn cut_items<T>(
    whole: spec_fn(T, int) -> Parsed<T>,
    cut: spec_fn(T, int) -> Parsed<T>,
    init: T,
    pos: int,
    n: int,
    k: nat,
)
    requires
        0 <= pos,
        forall|t: T, p: int| 0 <= p ==> cut_is_noticed(#[trigger] whole(t, p), cut(t, p), p, n),
    ensures
        pos <= n ==> cut_is_noticed(
            take_n(whole, init, pos, k),
            take_n(cut, init, pos, k),
            pos,
            n,
        ),
        take_n(whole, init, pos, k) matches Ok((_, at)) ==> pos <= at,
    decreases k,
{
    if k > 0 {
        let j = (k - 1) as nat;
        cut_items(whole, cut, init, pos, n, j);
        match take_n(whole, init, pos, j) {
            Ok((t, at)) => {
                assert(cut_is_noticed(whole(t, at), cut(t, at), at, n));
            },
            Err(_) => {},
        }
    }
}

proof fn cut_value(d: Seq<u8>, n: int, pos: int, kind: u8)
    requires
        0 <= pos <= n <= d.len(),
    ensures
        cut_is_noticed(take_value(d, pos, kind), take_value(d.take(n), pos, kind), pos, n),
{
    let c = d.take(n);
    cut_blob(d, n, pos);
    cut_numbers(d, n, pos);
    match take_u32(d, pos) {
        Ok((k, at)) => {
            assert forall|t: Seq<Seq<u8>>, p: int| 0 <= p implies cut_is_noticed(
                #[trigger] element_step(d)(t, p),
                element_step(c)(t, p),
                p,
                n,
            ) by {
                cut_blob(d, n, p);
            }
            cut_items(element_step(d), element_step(c), Seq::empty(), at, n, k as nat);
            assert forall|t: Set<Seq<u8>>, p: int| 0 <= p implies cut_is_noticed(
                #[trigger] member_step(d)(t, p),
                member_step(c)(t, p),
                p,
                n,
            ) by {
                cut_blob(d, n, p);
            }
            cut_items(member_step(d), member_step(c), Set::empty(), at, n, k as nat);
            assert forall|t: Map<Seq<char>, Seq<u8>>, p: int| 0 <= p implies cut_is_noticed(
                #[trigger] field_step(d)(t, p),
                field_step(c)(t, p),
                p,
                n,
            ) by {
                cut_text(d, n, p, SnapshotFault::BadField);
                match take_text(d, p, SnapshotFault::BadField) {
                    Ok((f, q)) => cut_blob(d, n, q),
                    Err(_) => {},
                }
            }
            cut_items(field_step(d), field_step(c), Map::empty(), at, n, k as nat);
            assert forall|t: Map<Seq<u8>, u64>, p: int| 0 <= p implies cut_is_noticed(
                #[trigger] scored_step(d)(t, p),
                scored_step(c)(t, p),
                p,
                n,
            ) by {
                cut_numbers(d, n, p);
                cut_blob(d, n, p + 8);
            }
            cut_items(scored_step(d), scored_step(c), Map::empty(), at, n, k as nat);
        },
        Err(_) => {},
    }
}

proof fn cut_entry(d: Seq<u8>, n: int, pos: int, version: u8)
    requires
        0 <= pos,
        0 <= n <= d.len(),
    ensures
        cut_is_noticed(take_entry(d, pos, version), take_entry(d.take(n), pos, version), pos, n),
{
    cut_text(d, n, pos, SnapshotFault::BadKey);
    match take_text(d, pos, SnapshotFault::BadKey) {
        Ok((key, at)) => {
            cut_numbers(d, n, at);
            match take_u64(d, at) {
                Ok((t, at)) => match take_kind(d, at, version) {
                    Ok((kind, after)) => {
                        if after <= n {
                            cut_value(d, n, after, kind);
                        } else {
                            value_ends_behind(d, after, kind);
                        }
                    },
                    Err(_) => {},
                },
                Err(_) => {},
            }
        },
        Err(_) => {},
    }
}

/// A value ends behind where it begins.
proof fn value_ends_behind(d: Seq<u8>, pos: int, kind: u8)
    requires
        0 <= pos <= d.len(),
    ensures
        take_value(d, pos, kind) matches Ok((_, at)) ==> pos <= at,
{
    cut_value(d, d.len() as int, pos, kind);
}

/// An entry as it comes back from a snapshot, where 0 stands for no time of expiry.
pub open spec fn loaded_entry(e: EntryView) -> EntryView {
    EntryView { value: e.value, expire_at: field_expiry(expiry_field(e.expire_at)) }
}

/// A state as it comes back from a snapshot.
pub open spec fn loaded(m: State) -> State {
    Map::new(|k: Seq<char>| m.contains_key(k), |k: Seq<char>| loaded_entry(m[k]))
}

proof fn loaded_entries_bytes(
    l: Seq<(Seq<char>, EntryView)>,
    t: Seq<(Seq<char>, EntryView)>,
)
    requires
        t.len() == l.len(),
        forall|i: int|
            0 <= i < l.len() ==> #[trigger] t[i] == (l[i].0, loaded_entry(l[i].1)),
    ensures
        entries_bytes(t) == entries_bytes(l),
    decreases l.len(),
{
    if l.len() > 0 {
        assert forall|i: int| 0 <= i < l.len() - 1 implies #[trigger] t.drop_last()[i] == (
            l.drop_last()[i].0,
            loaded_entry(l.drop_last()[i].1),
        ) by {
            assert(t[i] == (l[i].0, loaded_entry(l[i].1)));
        }
        loaded_entries_bytes(l.drop_last(), t.drop_last());
        assert(t[l.len() - 1] == (l.last().0, loaded_entry(l.last().1)));
    }
}

/// What comes back from a snapshot has the same snapshot.
proof fn loaded_snapshot(m: State)
    requires
        lengths_fit(m),
    ensures
        snapshot(loaded(m)) == snapshot(m),
        state_fits(loaded(m)),
{
    let n = loaded(m);
    let l = ordered::<String, EntryView>(m);
    let t = Seq::new(l.len(), |i: int| (l[i].0, loaded_entry(l[i].1)));
    ordered_exists::<String, EntryView>(m);
    assert(n.dom() =~= m.dom());
    assert(is_ordered::<String, EntryView>(t, n)) by {
        assert forall|i: int| 0 <= i < t.len() implies n.contains_key(#[trigger] t[i].0)
            && n[t[i].0] == t[i].1 by {
            assert(m.contains_key(l[i].0));
        }
        assert forall|i: int, j: int| 0 <= i < j < t.len() implies <String as Key>::before(
            #[trigger] t[i].0,
            #[trigger] t[j].0,
        ) by {
            assert(<String as Key>::before(l[i].0, l[j].0));
        }
        assert forall|k: Seq<char>| #[trigger] n.contains_key(k) implies exists|i: int|
            0 <= i < t.len() && #[trigger] t[i].0 == k by {
            assert(m.contains_key(k));
            let i = choose|i: int| 0 <= i < l.len() && #[trigger] l[i].0 == k;
            assert(t[i].0 == k);
        }
    }
    ordered_is::<String, EntryView>(t, n);
    loaded_entries_bytes(l, t);
}

/// A cut snapshot is refused: no part of a snapshot but the whole can be loaded.
pub proof fn cut_snapshot_is_refused(m: State, n: int)
    requires
        lengths_fit(m),
        0 <= n < snapshot(m).len(),
    ensures
        parse(snapshot(m).take(n)) is Err,
{
    loaded_snapshot(m);
    cut_fitting_snapshot_is_refused(loaded(m), n);
}

#[verifier::rlimit(40)]
#[verifier::spinoff_prover]
proof fn cut_fitting_snapshot_is_refused(m: State, n: int)
    requires
        state_fits(m),
        0 <= n < snapshot(m).len(),
    ensures
        parse(snapshot(m).take(n)) is Err,
{
    let body = snapshot_body(m);
    let d = snapshot(m);
    let x = d.take(n);
    let count = m.dom().len() as u32;
    field_sizes(count, 0);
    field_sizes(crc_of(body), 0);
    if n >= 14 {
        assert(x[4] == VERSION);
        let left = x.take(n - 4);
        assert(left =~= body.take(n - 4));
        let l = ordered::<String, EntryView>(m);
        ordered_exists::<String, EntryView>(m);
        ordered_len::<String, EntryView>(l, m);
        assert(body.subrange(6, 10) =~= le32(count));
        u32_reads_back(body, 6, count);
        cut_numbers(body, n - 4, 6);
        assert(body.subrange(10, 10 + entries_bytes(l).len() as int) =~= entries_bytes(l));
        assert forall|i: int| 0 <= i < l.len() implies entry_fits(
            (#[trigger] l[i]).0,
            l[i].1,
        ) by {
            assert(m.contains_key(l[i].0));
        }
        entries_read_back(body, 10, l, VERSION);
        assert forall|t: State, p: int| 0 <= p implies cut_is_noticed(
            #[trigger] entry_step(body, VERSION)(t, p),
            entry_step(left, VERSION)(t, p),
            p,
            n - 4,
        ) by {
            cut_entry(body, n - 4, p, VERSION);
        }
        cut_items(
            entry_step(body, VERSION),
            entry_step(left, VERSION),
            Map::empty(),
            10,
            n - 4,
            l.len(),
        );
    }
}

proof fn plain_entry_reads_back(d: Seq<u8>, pos: int, key: Seq<char>, e: EntryView)
    requires
        stands(d, pos, plain_entry(key, e)),
        entry_fits(key, e),
        e.value is Bytes,
    ensures
        take_entry(d, pos, 1) == Ok::<((Seq<char>, EntryView), int), SnapshotFault>(
            ((key, e), pos + plain_entry(key, e).len()),
        ),
{
    let t = expiry_field(e.expire_at);
    let b = e.value->Bytes_0;
    split(d, pos, text_blob(key) + le64(t), blob(b));
    split(d, pos, text_blob(key), le64(t));
    text_reads_back(d, pos, key);
    let at = pos + text_blob(key).len();
    field_sizes(0, t);
    u64_reads_back(d, at, t);
    blob_reads_back(d, at + 8, b);
    expiry_reads_back(e.expire_at);
}

proof fn plain_entries_read_back(d: Seq<u8>, pos: int, l: Seq<(Seq<char>, EntryView)>)
    requires
        stands(d, pos, plain_entries(l)),
        forall|i: int|
            0 <= i < l.len() ==> entry_fits((#[trigger] l[i]).0, l[i].1) && l[i].1.value is Bytes,
    ensures
        take_n(entry_step(d, 1), Map::empty(), pos, l.len()) == Ok::<
            (State, int),
            SnapshotFault,
        >((listed(l), pos + plain_entries(l).len())),
    decreases l.len(),
{
    if l.len() > 0 {
        let init = l.drop_last();
        let (key, e) = l.last();
        split(d, pos, plain_entries(init), plain_entry(key, e));
        assert forall|i: int| 0 <= i < init.len() implies entry_fits(
            (#[trigger] init[i]).0,
            init[i].1,
        ) && init[i].1.value is Bytes by {
            assert(init[i] == l[i]);
        }
        plain_entries_read_back(d, pos, init);
        assert(l[l.len() - 1] == (key, e));
        plain_entry_reads_back(d, pos + plain_entries(init).len(), key, e);
    }
}

/// A snapshot of the first version gives back the state that it was taken of, to the
/// plain engine and to the store alike.
pub proof fn plain_snapshot_roundtrip(m: State)
    requires
        state_fits(m),
        all_bytes(m),
    ensures
        parse_plain(plain_snapshot(m)) == Ok::<State, SnapshotFault>(m),
        parse(plain_snapshot(m)) == Ok::<State, SnapshotFault>(m),
{
    let d = plain_snapshot(m);
    let n = m.dom().len() as u32;
    let l = ordered::<String, EntryView>(m);
    ordered_exists::<String, EntryView>(m);
    ordered_len::<String, EntryView>(l, m);
    field_sizes(n, 0);
    assert(d.take(4) =~= MAGIC@);
    assert(d[4] == 1);
    assert(d.subrange(6, 10) =~= le32(n));
    u32_reads_back(d, 6, n);
    assert(d.subrange(10, 10 + plain_entries(l).len() as int) =~= plain_entries(l));
    assert forall|i: int| 0 <= i < l.len() implies entry_fits((#[trigger] l[i]).0, l[i].1)
        && l[i].1.value is Bytes by {
        assert(m.contains_key(l[i].0));
    }
    plain_entries_read_back(d, 10, l);
    listed_is(l, m);
}

/// The bytes of a snapshot with the given entries, in the given order, and some bytes behind
/// them.
pub open spec fn snapshot_with(
    l: Seq<(Seq<char>, EntryView)>,
    version: u8,
    tail: Seq<u8>,
) -> Seq<u8> {
    let body = seq![0x53u8, 0x54, 0x52, 0x4e, version, 0] + le32(l.len() as u32) + entries_bytes(l)
        + tail;
    if version >= 3 {
        body + le32(crc_of(body))
    } else {
        body
    }
}

/// A snapshot loads whatever order its entries stand in: every key that it has is there, and
/// of two entries of one key the later one stands. Bytes behind the last entry are passed
/// over.
pub proof fn later_entries_stand(
    l: Seq<(Seq<char>, EntryView)>,
    version: u8,
    tail: Seq<u8>,
    i: int,
)
    requires
        2 <= version <= 6,
        l.len() <= u32::MAX,
        forall|j: int| 0 <= j < l.len() ==> entry_fits((#[trigger] l[j]).0, l[j].1),
        0 <= i < l.len(),
        forall|j: int| i < j < l.len() ==> (#[trigger] l[j]).0 != l[i].0,
    ensures
        parse(snapshot_with(l, version, tail)) matches Ok(m) && m.contains_key(l[i].0)
            && m[l[i].0] == l[i].1 && forall|k: Seq<char>| #[trigger]
            m.contains_key(k) ==> exists|j: int| 0 <= j < l.len() && (#[trigger] l[j]).0 == k,
{
    let head = seq![0x53u8, 0x54, 0x52, 0x4e, version, 0];
    let body = head + le32(l.len() as u32) + entries_bytes(l) + tail;
    let d = snapshot_with(l, version, tail);
    let n = l.len() as u32;
    assert(MAGIC@ =~= seq![0x53u8, 0x54, 0x52, 0x4e]);
    assert(d.take(4) =~= MAGIC@);
    assert(d[4] == version);
    assert(body.subrange(6, 10) =~= le32(n));
    u32_reads_back(body, 6, n);
    assert(body.subrange(10, 10 + entries_bytes(l).len() as int) =~= entries_bytes(l));
    entries_read_back(body, 10, l, version);
    if version >= 3 {
        let crc = crc_of(body);
        assert(d.take(d.len() - 4) =~= body);
        assert(d.subrange(d.len() - 4, d.len() as int) =~= le32(crc));
        u32_reads_back(d, d.len() - 4, crc);
    }
    listed_keys(l);
    last_listed_stands(l, i);
}

proof fn last_listed_stands(l: Seq<(Seq<char>, EntryView)>, i: int)
    requires
        0 <= i < l.len(),
        forall|j: int| i < j < l.len() ==> (#[trigger] l[j]).0 != l[i].0,
    ensures
        listed(l).contains_key(l[i].0) && listed(l)[l[i].0] == l[i].1,
    decreases l.len(),
{
    if i < l.len() - 1 {
        let init = l.drop_last();
        assert(l[l.len() - 1].0 != l[i].0);
        assert forall|j: int| i < j < init.len() implies (#[trigger] init[j]).0 != init[i].0 by {
            assert(init[j] == l[j]);
        }
        last_listed_stands(init, i);
    }
}

} // verus!
