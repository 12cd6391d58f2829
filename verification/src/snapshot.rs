//! Snapshots: the whole state as one self-describing byte string.
//!
//! Layout, in little-endian order:
//!   "STRN" | version: u8 | flags: u8 | count: u32 | entries | crc32: u32
//!   per entry: key_len: u32 | key | expire_at: u64 (0 = none) | type: u8 | body
//!     bytes:      val_len: u32 | val
//!     list:       count: u32 | (elem_len: u32 | elem)*
//!     hash:       count: u32 | (field_len: u32 | field | val_len: u32 | val)*
//!     set:        count: u32 | (member_len: u32 | member)*
//!     sorted set: count: u32 | (score: u64 | member_len: u32 | member)*
//! The checksum covers everything before it.
//!
//! The versions:
//! - 1: plain bytes only, without a type byte and without a checksum.
//! - 2: a type byte per entry.
//! - 3: the checksum.
//! - 4, 5, 6: hashes, sets, sorted sets.
//! All of them can be loaded.

use std::collections::VecDeque;
use vstd::prelude::*;
use crate::bytes::{
    blob, copy_range, le32, le64, put_all, put_bytes, put_u32, put_u64, read_blob, read_u32,
    read_u64, text_blob, u32_at, u64_at,
};
use crate::crc::{crc32, crc_of};
use crate::errors::SnapshotError;
use crate::order::{compare_bytes, Place};
use crate::ranges::views;
use crate::record::{expiry_field, field_expiry};
use crate::score::{is_nan, OrderedF64};
use crate::sorted_map::{ordered, SortedMap};
use crate::text::{decode_text, text_of};
use crate::value::{sound, sound_value, Entry, EntryView, State, Value, ValueView};
use crate::zset::{ranking, ZSet};

verus! {

/// The first bytes of a snapshot.
pub const MAGIC: [u8; 4] = [0x53, 0x54, 0x52, 0x4e];

/// The version that is written.
pub const VERSION: u8 = 6;

pub const TYPE_BYTES: u8 = 0;

pub const TYPE_LIST: u8 = 1;

pub const TYPE_HASH: u8 = 2;

pub const TYPE_SET: u8 = 3;

pub const TYPE_ZSET: u8 = 4;

/// Blobs, each behind its length.
pub open spec fn blobs(l: Seq<Seq<u8>>) -> Seq<u8>
    decreases l.len(),
{
    if l.len() == 0 {
        Seq::empty()
    } else {
        blobs(l.drop_last()) + blob(l.last())
    }
}

/// The fields of a hash with their values.
pub open spec fn fields(l: Seq<(Seq<char>, Seq<u8>)>) -> Seq<u8>
    decreases l.len(),
{
    if l.len() == 0 {
        Seq::empty()
    } else {
        fields(l.drop_last()) + text_blob(l.last().0) + blob(l.last().1)
    }
}

/// The members of a sorted set with their scores.
pub open spec fn scored(l: Seq<(Seq<u8>, u64)>) -> Seq<u8>
    decreases l.len(),
{
    if l.len() == 0 {
        Seq::empty()
    } else {
        scored(l.drop_last()) + le64(l.last().1) + blob(l.last().0)
    }
}

/// A set as a map to nothing.
pub open spec fn unit_map(s: Set<Seq<u8>>) -> Map<Seq<u8>, ()> {
    Map::new(|k: Seq<u8>| s.contains(k), |k: Seq<u8>| ())
}

/// The members of a set, in the order of their bytes.
pub open spec fn listed_members(s: Set<Seq<u8>>) -> Seq<Seq<u8>> {
    let o = ordered::<Vec<u8>, ()>(unit_map(s));
    Seq::new(o.len(), |i: int| o[i].0)
}

/// The bytes of a value: its type and its body.
pub open spec fn value_bytes(v: ValueView) -> Seq<u8> {
    match v {
        ValueView::Bytes(b) => seq![TYPE_BYTES] + blob(b),
        ValueView::List(l) => seq![TYPE_LIST] + le32(l.len() as u32) + blobs(l),
        ValueView::Hash(h) => seq![TYPE_HASH] + le32(h.dom().len() as u32) + fields(
            ordered::<String, Seq<u8>>(h),
        ),
        ValueView::Members(s) => seq![TYPE_SET] + le32(s.len() as u32) + blobs(listed_members(s)),
        ValueView::ZSet(z) => seq![TYPE_ZSET] + le32(z.dom().len() as u32) + scored(ranking(z)),
    }
}

/// The bytes of an entry.
pub open spec fn entry_bytes(key: Seq<char>, e: EntryView) -> Seq<u8> {
    text_blob(key) + le64(expiry_field(e.expire_at)) + value_bytes(e.value)
}

/// The bytes of several entries.
pub open spec fn entries_bytes(l: Seq<(Seq<char>, EntryView)>) -> Seq<u8>
    decreases l.len(),
{
    if l.len() == 0 {
        Seq::empty()
    } else {
        entries_bytes(l.drop_last()) + entry_bytes(l.last().0, l.last().1)
    }
}

/// The bytes of a snapshot before its first entry.
pub open spec fn header(count: nat) -> Seq<u8> {
    MAGIC@ + seq![VERSION, 0u8] + le32(count as u32)
}

/// The bytes of a snapshot before its checksum: the entries stand in the order of
/// their keys.
pub open spec fn snapshot_body(m: State) -> Seq<u8> {
    header(m.dom().len()) + entries_bytes(ordered::<String, EntryView>(m))
}

/// The snapshot of a state.
pub open spec fn snapshot(m: State) -> Seq<u8> {
    snapshot_body(m) + le32(crc_of(snapshot_body(m)))
}

/// Append the elements of a list.
fn put_list(buf: &mut Vec<u8>, l: &VecDeque<Vec<u8>>)
    ensures
        final(buf)@ == old(buf)@ + blobs(views(l@)),
{
    let ghost was = buf@;
    let ghost s = views(l@);
    let mut i: usize = 0;
    proof {
        assert(buf@ =~= was + blobs(s.take(0)));
    }
    while i < l.len()
        invariant
            i <= l@.len(),
            s == views(l@),
            buf@ == was + blobs(s.take(i as int)),
        decreases l@.len() - i,
    {
        put_bytes(buf, l[i].as_slice());
        proof {
            assert(s.take(i + 1).drop_last() =~= s.take(i as int));
            assert(buf@ =~= was + blobs(s.take(i + 1)));
        }
        i += 1;
    }
    proof {
        assert(s.take(i as int) =~= s);
    }
}

/// Append the fields of a hash.
fn put_fields(buf: &mut Vec<u8>, h: &SortedMap<String, Vec<u8>>)
    ensures
        final(buf)@ == old(buf)@ + fields(ordered::<String, Seq<u8>>(h@)),
{
    let ghost was = buf@;
    let ghost s = ordered::<String, Seq<u8>>(h@);
    let n: usize = h.len();
    let mut i: usize = 0;
    proof {
        assert(buf@ =~= was + fields(s.take(0)));
    }
    while i < n
        invariant
            i <= n,
            n == s.len(),
            s == ordered::<String, Seq<u8>>(h@),
            buf@ == was + fields(s.take(i as int)),
        decreases n - i,
    {
        put_bytes(buf, h.key_at(i).as_str().as_bytes());
        put_bytes(buf, h.val_at(i).as_slice());
        proof {
            assert(s.take(i + 1).drop_last() =~= s.take(i as int));
            assert(buf@ =~= was + fields(s.take(i + 1)));
        }
        i += 1;
    }
    proof {
        assert(s.take(i as int) =~= s);
    }
}

/// Append the members of a set.
fn put_members(buf: &mut Vec<u8>, m: &SortedMap<Vec<u8>, ()>)
    ensures
        final(buf)@ == old(buf)@ + blobs(listed_members(m@.dom())),
{
    let ghost was = buf@;
    let ghost s = listed_members(m@.dom());
    let n: usize = m.len();
    let mut i: usize = 0;
    proof {
        assert(unit_map(m@.dom()) =~= m@);
        assert(buf@ =~= was + blobs(s.take(0)));
    }
    while i < n
        invariant
            i <= n,
            n == s.len(),
            n == ordered::<Vec<u8>, ()>(m@).len(),
            unit_map(m@.dom()) == m@,
            s == listed_members(m@.dom()),
            buf@ == was + blobs(s.take(i as int)),
        decreases n - i,
    {
        put_bytes(buf, m.key_at(i).as_slice());
        proof {
            assert(s.take(i + 1).drop_last() =~= s.take(i as int));
            assert(buf@ =~= was + blobs(s.take(i + 1)));
        }
        i += 1;
    }
    proof {
        assert(s.take(i as int) =~= s);
    }
}

/// Append the members of a sorted set with their scores.
fn put_scored(buf: &mut Vec<u8>, z: &ZSet)
    ensures
        final(buf)@ == old(buf)@ + scored(ranking(z@)),
        sound_value(ValueView::ZSet(z@)),
{
    let ghost was = buf@;
    let ghost s = ranking(z@);
    let list = z.entries();
    let mut i: usize = 0;
    proof {
        assert(buf@ =~= was + scored(s.take(0)));
    }
    while i < list.len()
        invariant
            i <= list@.len(),
            views(list@) == s,
            buf@ == was + scored(s.take(i as int)),
        decreases list@.len() - i,
    {
        put_u64(buf, list[i].score.0);
        put_bytes(buf, list[i].member.as_slice());
        proof {
            assert(views(list@)[i as int] == list@[i as int]@);
            assert(s.take(i + 1).drop_last() =~= s.take(i as int));
            assert(buf@ =~= was + scored(s.take(i + 1)));
        }
        i += 1;
    }
    proof {
        assert(s.take(i as int) =~= s);
    }
}

/// Append the type and the body of a value.
fn put_value(buf: &mut Vec<u8>, v: &Value)
    ensures
        final(buf)@ == old(buf)@ + value_bytes(v@),
        sound_value(v@),
{
    let ghost was = buf@;
    match v {
        Value::Bytes(b) => {
            buf.push(TYPE_BYTES);
            put_bytes(buf, b.as_slice());
        },
        Value::List(l) => {
            buf.push(TYPE_LIST);
            put_u32(buf, l.len() as u32);
            put_list(buf, l);
        },
        Value::Hash(h) => {
            buf.push(TYPE_HASH);
            put_u32(buf, h.len() as u32);
            put_fields(buf, h);
        },
        Value::Members(s) => {
            buf.push(TYPE_SET);
            put_u32(buf, s.len() as u32);
            put_members(buf, s);
        },
        Value::ZSet(z) => {
            buf.push(TYPE_ZSET);
            put_u32(buf, z.len() as u32);
            put_scored(buf, z);
        },
    }
    proof {
        assert(buf@ =~= was + value_bytes(v@));
    }
}

/// Append an entry.
fn put_entry(buf: &mut Vec<u8>, key: &str, e: &Entry)
    ensures
        final(buf)@ == old(buf)@ + entry_bytes(key@, e@),
        sound_value(e@.value),
{
    let ghost was = buf@;
    put_bytes(buf, key.as_bytes());
    let t: u64 = match e.expire_at {
        Some(t) => t,
        None => 0,
    };
    put_u64(buf, t);
    put_value(buf, &e.value);
    proof {
        assert(buf@ =~= was + entry_bytes(key@, e@));
    }
}

/// The snapshot of a state.
pub fn dump(map: &SortedMap<String, Entry>) -> (buf: Vec<u8>)
    ensures
        buf@ == snapshot(map@),
        sound(map@),
{
    let ghost s = ordered::<String, EntryView>(map@);
    let n: usize = map.len();
    let mut buf: Vec<u8> = Vec::new();
    put_all(&mut buf, MAGIC.as_slice());
    buf.push(VERSION);
    buf.push(0u8);
    put_u32(&mut buf, n as u32);
    proof {
        assert(buf@ =~= header(n as nat));
        assert(buf@ =~= header(n as nat) + entries_bytes(s.take(0)));
    }
    let mut i: usize = 0;
    while i < n
        invariant
            i <= n,
            n == s.len(),
            s == ordered::<String, EntryView>(map@),
            buf@ == header(n as nat) + entries_bytes(s.take(i as int)),
            forall|j: int| 0 <= j < i ==> sound_value((#[trigger] s[j]).1.value),
        decreases n - i,
    {
        put_entry(&mut buf, map.key_at(i).as_str(), map.val_at(i));
        proof {
            assert(s.take(i + 1).drop_last() =~= s.take(i as int));
            assert(buf@ =~= header(n as nat) + entries_bytes(s.take(i + 1)));
        }
        i += 1;
    }
    proof {
        assert(s.take(i as int) =~= s);
        assert forall|k: Seq<char>| #[trigger] map@.contains_key(k) implies sound_value(
            map@[k].value,
        ) by {
            let j = choose|j: int| 0 <= j < s.len() && #[trigger] s[j].0 == k;
            assert(sound_value(s[j].1.value));
        }
    }
    let checksum: u32 = crc32(buf.as_slice());
    put_u32(&mut buf, checksum);
    buf
}

/// Why a snapshot cannot be parsed.
#[derive(Clone, Copy, Debug, PartialEq, Eq, Structural)]
pub enum SnapshotFault {
    TooSmall,
    BadMagic,
    BadVersion,
    BadChecksum,
    Truncated,
    BadKey,
    BadField,
    BadType,
}

impl SnapshotFault {
    /// The message of the fault.
    pub open spec fn text(self) -> Seq<char> {
        match self {
            SnapshotFault::TooSmall => "snapshot too small"@,
            SnapshotFault::BadMagic => "bad magic: not a Strenor snapshot"@,
            SnapshotFault::BadVersion => "unsupported snapshot version"@,
            SnapshotFault::BadChecksum => "checksum mismatch: snapshot is corrupted"@,
            SnapshotFault::Truncated => "snapshot truncated"@,
            SnapshotFault::BadKey => "invalid utf8 key"@,
            SnapshotFault::BadField => "invalid utf8 hash field"@,
            SnapshotFault::BadType => "unknown entry type in snapshot"@,
        }
    }

    /// The fault as an error with its message.
    pub fn error(&self) -> (e: SnapshotError)
        ensures
            e.0@ == self.text(),
    {
        SnapshotError(
            match self {
                SnapshotFault::TooSmall => "snapshot too small".to_owned(),
                SnapshotFault::BadMagic => "bad magic: not a Strenor snapshot".to_owned(),
                SnapshotFault::BadVersion => "unsupported snapshot version".to_owned(),
                SnapshotFault::BadChecksum => "checksum mismatch: snapshot is corrupted".to_owned(),
                SnapshotFault::Truncated => "snapshot truncated".to_owned(),
                SnapshotFault::BadKey => "invalid utf8 key".to_owned(),
                SnapshotFault::BadField => "invalid utf8 hash field".to_owned(),
                SnapshotFault::BadType => "unknown entry type in snapshot".to_owned(),
            },
        )
    }
}

/// What is read at a place of a snapshot, and where it ends; or why it cannot be
/// read.
pub type Parsed<T> = Result<(T, int), SnapshotFault>;

/// A number of four bytes.
pub open spec fn take_u32(d: Seq<u8>, pos: int) -> Parsed<u32> {
    match read_u32(d, pos) {
        Some(out) => Ok(out),
        None => Err(SnapshotFault::Truncated),
    }
}

/// A number of eight bytes.
pub open spec fn take_u64(d: Seq<u8>, pos: int) -> Parsed<u64> {
    match read_u64(d, pos) {
        Some(out) => Ok(out),
        None => Err(SnapshotFault::Truncated),
    }
}

/// A blob behind its length.
pub open spec fn take_blob(d: Seq<u8>, pos: int) -> Parsed<Seq<u8>> {
    match read_blob(d, pos) {
        Some(out) => Ok(out),
        None => Err(SnapshotFault::Truncated),
    }
}

/// A text behind its length; `fault` where the bytes are not UTF-8.
pub open spec fn take_text(d: Seq<u8>, pos: int, fault: SnapshotFault) -> Parsed<Seq<char>> {
    match read_blob(d, pos) {
        Some((b, at)) => match text_of(b) {
            Some(s) => Ok((s, at)),
            None => Err(fault),
        },
        None => Err(SnapshotFault::Truncated),
    }
}

/// What `n` items come to, each read where the one before it ends.
pub open spec fn take_n<T>(
    step: spec_fn(T, int) -> Parsed<T>,
    init: T,
    pos: int,
    n: nat,
) -> Parsed<T>
    decreases n,
{
    if n == 0 {
        Ok((init, pos))
    } else {
        match take_n(step, init, pos, (n - 1) as nat) {
            Ok((t, at)) => step(t, at),
            Err(f) => Err(f),
        }
    }
}

/// What cannot be read among the first items cannot be read among more of them.
proof fn take_n_fails<T>(
    step: spec_fn(T, int) -> Parsed<T>,
    init: T,
    pos: int,
    k: nat,
    n: nat,
    f: SnapshotFault,
)
    requires
        k <= n,
        take_n(step, init, pos, k) == Err::<(T, int), SnapshotFault>(f),
    ensures
        take_n(step, init, pos, n) == Err::<(T, int), SnapshotFault>(f),
    decreases n,
{
    if k < n {
        take_n_fails(step, init, pos, k, (n - 1) as nat, f);
    }
}

/// One more element of a list.
pub open spec fn element_step(d: Seq<u8>) -> spec_fn(Seq<Seq<u8>>, int) -> Parsed<Seq<Seq<u8>>> {
    |l: Seq<Seq<u8>>, pos: int|
        match take_blob(d, pos) {
            Ok((b, at)) => Ok((l.push(b), at)),
            Err(f) => Err(f),
        }
}

/// One more field of a hash.
pub open spec fn field_step(d: Seq<u8>) -> spec_fn(Map<Seq<char>, Seq<u8>>, int) -> Parsed<
    Map<Seq<char>, Seq<u8>>,
> {
    |h: Map<Seq<char>, Seq<u8>>, pos: int|
        match take_text(d, pos, SnapshotFault::BadField) {
            Ok((field, at)) => match take_blob(d, at) {
                Ok((b, at)) => Ok((h.insert(field, b), at)),
                Err(f) => Err(f),
            },
            Err(f) => Err(f),
        }
}

/// One more member of a set.
pub open spec fn member_step(d: Seq<u8>) -> spec_fn(Set<Seq<u8>>, int) -> Parsed<Set<Seq<u8>>> {
    |s: Set<Seq<u8>>, pos: int|
        match take_blob(d, pos) {
            Ok((b, at)) => Ok((s.insert(b), at)),
            Err(f) => Err(f),
        }
}

/// One more member of a sorted set. One whose score is no number is passed over.
pub open spec fn scored_step(d: Seq<u8>) -> spec_fn(Map<Seq<u8>, u64>, int) -> Parsed<
    Map<Seq<u8>, u64>,
> {
    |z: Map<Seq<u8>, u64>, pos: int|
        match take_u64(d, pos) {
            Ok((score, at)) => match take_blob(d, at) {
                Ok((b, at)) => Ok(
                    (
                        if is_nan(score) {
                            z
                        } else {
                            z.insert(b, score)
                        },
                        at,
                    ),
                ),
                Err(f) => Err(f),
            },
            Err(f) => Err(f),
        }
}

/// The body of a value of the type `kind`.
pub open spec fn take_value(d: Seq<u8>, pos: int, kind: u8) -> Parsed<ValueView> {
    if kind == TYPE_BYTES {
        match take_blob(d, pos) {
            Ok((b, at)) => Ok((ValueView::Bytes(b), at)),
            Err(f) => Err(f),
        }
    } else if kind > TYPE_ZSET {
        Err(SnapshotFault::BadType)
    } else {
        match take_u32(d, pos) {
            Ok((n, at)) => if kind == TYPE_LIST {
                match take_n(element_step(d), Seq::empty(), at, n as nat) {
                    Ok((l, at)) => Ok((ValueView::List(l), at)),
                    Err(f) => Err(f),
                }
            } else if kind == TYPE_HASH {
                match take_n(field_step(d), Map::empty(), at, n as nat) {
                    Ok((h, at)) => Ok((ValueView::Hash(h), at)),
                    Err(f) => Err(f),
                }
            } else if kind == TYPE_SET {
                match take_n(member_step(d), Set::empty(), at, n as nat) {
                    Ok((s, at)) => Ok((ValueView::Members(s), at)),
                    Err(f) => Err(f),
                }
            } else {
                match take_n(scored_step(d), Map::empty(), at, n as nat) {
                    Ok((z, at)) => Ok((ValueView::ZSet(z), at)),
                    Err(f) => Err(f),
                }
            },
            Err(f) => Err(f),
        }
    }
}

/// The type of an entry: a byte of its own, but in the first version, where every
/// entry holds plain bytes.
pub open spec fn take_kind(d: Seq<u8>, pos: int, version: u8) -> Parsed<u8> {
    if version == 1 {
        Ok((TYPE_BYTES, pos))
    } else if pos + 1 <= d.len() {
        Ok((d[pos], pos + 1))
    } else {
        Err(SnapshotFault::Truncated)
    }
}

/// An entry with its key.
pub open spec fn take_entry(d: Seq<u8>, pos: int, version: u8) -> Parsed<(Seq<char>, EntryView)> {
    match take_text(d, pos, SnapshotFault::BadKey) {
        Ok((key, at)) => match take_u64(d, at) {
            Ok((t, at)) => match take_kind(d, at, version) {
                Ok((kind, at)) => match take_value(d, at, kind) {
                    Ok((value, at)) => Ok(
                        ((key, EntryView { value, expire_at: field_expiry(t) }), at),
                    ),
                    Err(f) => Err(f),
                },
                Err(f) => Err(f),
            },
            Err(f) => Err(f),
        },
        Err(f) => Err(f),
    }
}

/// One more entry of a snapshot. Of two entries of one key the later one stands.
pub open spec fn entry_step(d: Seq<u8>, version: u8) -> spec_fn(State, int) -> Parsed<State> {
    |m: State, pos: int|
        match take_entry(d, pos, version) {
            Ok(((key, e), at)) => Ok((m.insert(key, e), at)),
            Err(f) => Err(f),
        }
}

/// The state that the part of a snapshot before its checksum holds. Bytes behind the
/// last entry are passed over.
pub open spec fn parse_body(d: Seq<u8>, version: u8) -> Result<State, SnapshotFault> {
    match take_u32(d, 6) {
        Ok((count, at)) => match take_n(entry_step(d, version), Map::empty(), at, count as nat) {
            Ok((m, _)) => Ok(m),
            Err(f) => Err(f),
        },
        Err(f) => Err(f),
    }
}

/// The state that a snapshot holds, or why it cannot be parsed.
pub open spec fn parse(d: Seq<u8>) -> Result<State, SnapshotFault> {
    if d.len() < 10 {
        Err(SnapshotFault::TooSmall)
    } else if d.take(4) != MAGIC@ {
        Err(SnapshotFault::BadMagic)
    } else if d[4] == 0 || d[4] > VERSION {
        Err(SnapshotFault::BadVersion)
    } else if d[4] < 3 {
        parse_body(d, d[4])
    } else if d.len() < 14 {
        Err(SnapshotFault::TooSmall)
    } else if take_u32(d, d.len() - 4) != Ok::<(u32, int), SnapshotFault>(
        (crc_of(d.take(d.len() - 4)), d.len() as int),
    ) {
        Err(SnapshotFault::BadChecksum)
    } else {
        parse_body(d.take(d.len() - 4), d[4])
    }
}

/// A place in a snapshot, from which it is read.
struct Reader<'a> {
    data: &'a [u8],
    pos: usize,
}

impl<'a> Reader<'a> {
    /// The place stands inside the snapshot.
    spec fn inside(self) -> bool {
        self.pos <= self.data@.len()
    }

    /// Where `n` bytes begin that are passed.
    fn read(&mut self, n: usize) -> (out: Result<usize, SnapshotFault>)
        requires
            old(self).inside(),
        ensures
            final(self).inside(),
            final(self).data == old(self).data,
            match out {
                Ok(at) => at == old(self).pos && final(self).pos == at + n && at + n
                    <= old(self).data.len(),
                Err(f) => f == SnapshotFault::Truncated && old(self).pos + n
                    > old(self).data@.len(),
            },
    {
        if n > self.data.len() - self.pos {
            return Err(SnapshotFault::Truncated);
        }
        let at: usize = self.pos;
        self.pos = at + n;
        Ok(at)
    }

    fn u32(&mut self) -> (out: Result<u32, SnapshotFault>)
        requires
            old(self).inside(),
        ensures
            final(self).inside(),
            final(self).data == old(self).data,
            match out {
                Ok(x) => take_u32(old(self).data@, old(self).pos as int) == Ok::<
                    (u32, int),
                    SnapshotFault,
                >((x, final(self).pos as int)),
                Err(f) => take_u32(old(self).data@, old(self).pos as int) == Err::<
                    (u32, int),
                    SnapshotFault,
                >(f),
            },
    {
        match self.read(4) {
            Ok(at) => Ok(u32_at(self.data, at)),
            Err(f) => Err(f),
        }
    }

    fn u64(&mut self) -> (out: Result<u64, SnapshotFault>)
        requires
            old(self).inside(),
        ensures
            final(self).inside(),
            final(self).data == old(self).data,
            match out {
                Ok(x) => take_u64(old(self).data@, old(self).pos as int) == Ok::<
                    (u64, int),
                    SnapshotFault,
                >((x, final(self).pos as int)),
                Err(f) => take_u64(old(self).data@, old(self).pos as int) == Err::<
                    (u64, int),
                    SnapshotFault,
                >(f),
            },
    {
        match self.read(8) {
            Ok(at) => Ok(u64_at(self.data, at)),
            Err(f) => Err(f),
        }
    }

    fn blob(&mut self) -> (out: Result<Vec<u8>, SnapshotFault>)
        requires
            old(self).inside(),
        ensures
            final(self).inside(),
            final(self).data == old(self).data,
            match out {
                Ok(b) => take_blob(old(self).data@, old(self).pos as int) == Ok::<
                    (Seq<u8>, int),
                    SnapshotFault,
                >((b@, final(self).pos as int)),
                Err(f) => take_blob(old(self).data@, old(self).pos as int) == Err::<
                    (Seq<u8>, int),
                    SnapshotFault,
                >(f),
            },
    {
        let n: usize = match self.u32() {
            Ok(n) => n as usize,
            Err(f) => return Err(f),
        };
        match self.read(n) {
            Ok(at) => Ok(copy_range(self.data, at, at + n)),
            Err(f) => Err(f),
        }
    }

    fn text(&mut self, fault: SnapshotFault) -> (out: Result<String, SnapshotFault>)
        requires
            old(self).inside(),
        ensures
            final(self).inside(),
            final(self).data == old(self).data,
            match out {
                Ok(s) => take_text(old(self).data@, old(self).pos as int, fault) == Ok::<
                    (Seq<char>, int),
                    SnapshotFault,
                >((s@, final(self).pos as int)),
                Err(f) => take_text(old(self).data@, old(self).pos as int, fault) == Err::<
                    (Seq<char>, int),
                    SnapshotFault,
                >(f),
            },
    {
        match self.blob() {
            Ok(b) => match decode_text(b) {
                Some(s) => Ok(s),
                None => Err(fault),
            },
            Err(f) => Err(f),
        }
    }

    fn list(&mut self, n: u32) -> (out: Result<VecDeque<Vec<u8>>, SnapshotFault>)
        requires
            old(self).inside(),
        ensures
            final(self).inside(),
            final(self).data == old(self).data,
            ({
                let want = take_n(
                    element_step(old(self).data@),
                    Seq::empty(),
                    old(self).pos as int,
                    n as nat,
                );
                match out {
                    Ok(l) => want == Ok::<(Seq<Seq<u8>>, int), SnapshotFault>(
                        (views(l@), final(self).pos as int),
                    ),
                    Err(f) => want == Err::<(Seq<Seq<u8>>, int), SnapshotFault>(f),
                }
            }),
    {
        let ghost step = element_step(self.data@);
        let ghost start = self.pos as int;
        let ghost data = self.data;
        let mut l: VecDeque<Vec<u8>> = VecDeque::new();
        let mut i: u32 = 0;
        proof {
            assert(views(l@) =~= Seq::empty());
        }
        while i < n
            invariant
                i <= n,
                self.inside(),
                self.data == data,
                data == old(self).data,
                start == old(self).pos,
                step == element_step(data@),
                take_n(step, Seq::empty(), start, i as nat) == Ok::<
                    (Seq<Seq<u8>>, int),
                    SnapshotFault,
                >((views(l@), self.pos as int)),
            decreases n - i,
        {
            let ghost was = l@;
            match self.blob() {
                Ok(b) => {
                    l.push_back(b);
                    proof {
                        assert(views(l@) =~= views(was).push(b@));
                    }
                },
                Err(f) => {
                    proof {
                        take_n_fails(step, Seq::empty(), start, (i + 1) as nat, n as nat, f);
                    }
                    return Err(f);
                },
            }
            i += 1;
        }
        Ok(l)
    }

    fn hash(&mut self, n: u32) -> (out: Result<SortedMap<String, Vec<u8>>, SnapshotFault>)
        requires
            old(self).inside(),
        ensures
            final(self).inside(),
            final(self).data == old(self).data,
            ({
                let want = take_n(
                    field_step(old(self).data@),
                    Map::empty(),
                    old(self).pos as int,
                    n as nat,
                );
                match out {
                    Ok(h) => want == Ok::<(Map<Seq<char>, Seq<u8>>, int), SnapshotFault>(
                        (h@, final(self).pos as int),
                    ),
                    Err(f) => want == Err::<(Map<Seq<char>, Seq<u8>>, int), SnapshotFault>(f),
                }
            }),
    {
        let ghost step = field_step(self.data@);
        let ghost start = self.pos as int;
        let ghost data = self.data;
        let mut h: SortedMap<String, Vec<u8>> = SortedMap::new();
        let mut i: u32 = 0;
        while i < n
            invariant
                i <= n,
                self.inside(),
                self.data == data,
                data == old(self).data,
                start == old(self).pos,
                step == field_step(data@),
                take_n(step, Map::empty(), start, i as nat) == Ok::<
                    (Map<Seq<char>, Seq<u8>>, int),
                    SnapshotFault,
                >((h@, self.pos as int)),
            decreases n - i,
        {
            let field = match self.text(SnapshotFault::BadField) {
                Ok(field) => field,
                Err(f) => {
                    proof {
                        take_n_fails(step, Map::empty(), start, (i + 1) as nat, n as nat, f);
                    }
                    return Err(f);
                },
            };
            match self.blob() {
                Ok(b) => {
                    h.insert(field, b);
                },
                Err(f) => {
                    proof {
                        take_n_fails(step, Map::empty(), start, (i + 1) as nat, n as nat, f);
                    }
                    return Err(f);
                },
            }
            i += 1;
        }
        Ok(h)
    }

    fn members(&mut self, n: u32) -> (out: Result<SortedMap<Vec<u8>, ()>, SnapshotFault>)
        requires
            old(self).inside(),
        ensures
            final(self).inside(),
            final(self).data == old(self).data,
            ({
                let want = take_n(
                    member_step(old(self).data@),
                    Set::empty(),
                    old(self).pos as int,
                    n as nat,
                );
                match out {
                    Ok(s) => want == Ok::<(Set<Seq<u8>>, int), SnapshotFault>(
                        (s@.dom(), final(self).pos as int),
                    ),
                    Err(f) => want == Err::<(Set<Seq<u8>>, int), SnapshotFault>(f),
                }
            }),
    {
        let ghost step = member_step(self.data@);
        let ghost start = self.pos as int;
        let ghost data = self.data;
        let mut s: SortedMap<Vec<u8>, ()> = SortedMap::new();
        let mut i: u32 = 0;
        proof {
            assert(s@.dom() =~= Set::<Seq<u8>>::empty());
        }
        while i < n
            invariant
                i <= n,
                self.inside(),
                self.data == data,
                data == old(self).data,
                start == old(self).pos,
                step == member_step(data@),
                take_n(step, Set::empty(), start, i as nat) == Ok::<
                    (Set<Seq<u8>>, int),
                    SnapshotFault,
                >((s@.dom(), self.pos as int)),
            decreases n - i,
        {
            let ghost was = s@;
            match self.blob() {
                Ok(b) => {
                    s.insert(b, ());
                    proof {
                        assert(s@.dom() =~= was.dom().insert(b@));
                    }
                },
                Err(f) => {
                    proof {
                        take_n_fails(step, Set::empty(), start, (i + 1) as nat, n as nat, f);
                    }
                    return Err(f);
                },
            }
            i += 1;
        }
        Ok(s)
    }

    fn zset(&mut self, n: u32) -> (out: Result<ZSet, SnapshotFault>)
        requires
            old(self).inside(),
        ensures
            final(self).inside(),
            final(self).data == old(self).data,
            ({
                let want = take_n(
                    scored_step(old(self).data@),
                    Map::empty(),
                    old(self).pos as int,
                    n as nat,
                );
                match out {
                    Ok(z) => want == Ok::<(Map<Seq<u8>, u64>, int), SnapshotFault>(
                        (z@, final(self).pos as int),
                    ),
                    Err(f) => want == Err::<(Map<Seq<u8>, u64>, int), SnapshotFault>(f),
                }
            }),
    {
        let ghost step = scored_step(self.data@);
        let ghost start = self.pos as int;
        let ghost data = self.data;
        let mut z = ZSet::new();
        let mut i: u32 = 0;
        while i < n
            invariant
                i <= n,
                self.inside(),
                self.data == data,
                data == old(self).data,
                start == old(self).pos,
                step == scored_step(data@),
                take_n(step, Map::empty(), start, i as nat) == Ok::<
                    (Map<Seq<u8>, u64>, int),
                    SnapshotFault,
                >((z@, self.pos as int)),
            decreases n - i,
        {
            let score: u64 = match self.u64() {
                Ok(score) => score,
                Err(f) => {
                    proof {
                        take_n_fails(step, Map::empty(), start, (i + 1) as nat, n as nat, f);
                    }
                    return Err(f);
                },
            };
            match self.blob() {
                Ok(b) => {
                    let _ = z.add(b, OrderedF64(score));
                },
                Err(f) => {
                    proof {
                        take_n_fails(step, Map::empty(), start, (i + 1) as nat, n as nat, f);
                    }
                    return Err(f);
                },
            }
            i += 1;
        }
        Ok(z)
    }

    fn value(&mut self, kind: u8) -> (out: Result<Value, SnapshotFault>)
        requires
            old(self).inside(),
        ensures
            final(self).inside(),
            final(self).data == old(self).data,
            match out {
                Ok(v) => take_value(old(self).data@, old(self).pos as int, kind) == Ok::<
                    (ValueView, int),
                    SnapshotFault,
                >((v@, final(self).pos as int)),
                Err(f) => take_value(old(self).data@, old(self).pos as int, kind) == Err::<
                    (ValueView, int),
                    SnapshotFault,
                >(f),
            },
    {
        if kind == TYPE_BYTES {
            return match self.blob() {
                Ok(b) => Ok(Value::Bytes(b)),
                Err(f) => Err(f),
            };
        }
        if kind > TYPE_ZSET {
            return Err(SnapshotFault::BadType);
        }
        let n: u32 = match self.u32() {
            Ok(n) => n,
            Err(f) => return Err(f),
        };
        if kind == TYPE_LIST {
            match self.list(n) {
                Ok(l) => Ok(Value::List(l)),
                Err(f) => Err(f),
            }
        } else if kind == TYPE_HASH {
            match self.hash(n) {
                Ok(h) => Ok(Value::Hash(h)),
                Err(f) => Err(f),
            }
        } else if kind == TYPE_SET {
            match self.members(n) {
                Ok(s) => Ok(Value::Members(s)),
                Err(f) => Err(f),
            }
        } else {
            match self.zset(n) {
                Ok(z) => Ok(Value::ZSet(z)),
                Err(f) => Err(f),
            }
        }
    }

    fn kind(&mut self, version: u8) -> (out: Result<u8, SnapshotFault>)
        requires
            old(self).inside(),
        ensures
            final(self).inside(),
            final(self).data == old(self).data,
            match out {
                Ok(k) => take_kind(old(self).data@, old(self).pos as int, version) == Ok::<
                    (u8, int),
                    SnapshotFault,
                >((k, final(self).pos as int)),
                Err(f) => take_kind(old(self).data@, old(self).pos as int, version) == Err::<
                    (u8, int),
                    SnapshotFault,
                >(f),
            },
    {
        if version == 1 {
            return Ok(TYPE_BYTES);
        }
        match self.read(1) {
            Ok(at) => Ok(self.data[at]),
            Err(f) => Err(f),
        }
    }

    fn entry(&mut self, version: u8) -> (out: Result<(String, Entry), SnapshotFault>)
        requires
            old(self).inside(),
        ensures
            final(self).inside(),
            final(self).data == old(self).data,
            match out {
                Ok((key, e)) => take_entry(old(self).data@, old(self).pos as int, version) == Ok::<
                    ((Seq<char>, EntryView), int),
                    SnapshotFault,
                >(((key@, e@), final(self).pos as int)),
                Err(f) => take_entry(old(self).data@, old(self).pos as int, version) == Err::<
                    ((Seq<char>, EntryView), int),
                    SnapshotFault,
                >(f),
            },
    {
        let key = match self.text(SnapshotFault::BadKey) {
            Ok(key) => key,
            Err(f) => return Err(f),
        };
        let t: u64 = match self.u64() {
            Ok(t) => t,
            Err(f) => return Err(f),
        };
        let expire_at = if t == 0 {
            None
        } else {
            Some(t)
        };
        let kind: u8 = match self.kind(version) {
            Ok(kind) => kind,
            Err(f) => return Err(f),
        };
        match self.value(kind) {
            Ok(value) => Ok((key, Entry { value, expire_at })),
            Err(f) => Err(f),
        }
    }
}

/// The state that the part of a snapshot before its checksum holds.
pub fn load_body(body: &[u8], version: u8) -> (out: Result<SortedMap<String, Entry>, SnapshotFault>)
    requires
        body@.len() >= 6,
    ensures
        match out {
            Ok(map) => parse_body(body@, version) == Ok::<State, SnapshotFault>(map@),
            Err(f) => parse_body(body@, version) == Err::<State, SnapshotFault>(f),
        },
{
    let mut r = Reader { data: body, pos: 6 };
    let count: u32 = match r.u32() {
        Ok(count) => count,
        Err(f) => return Err(f),
    };
    let ghost step = entry_step(body@, version);
    let ghost start = r.pos as int;
    let mut map: SortedMap<String, Entry> = SortedMap::new();
    let mut i: u32 = 0;
    while i < count
        invariant
            i <= count,
            r.inside(),
            r.data == body,
            take_u32(body@, 6) == Ok::<(u32, int), SnapshotFault>((count, start)),
            step == entry_step(body@, version),
            take_n(step, Map::empty(), start, i as nat) == Ok::<(State, int), SnapshotFault>(
                (map@, r.pos as int),
            ),
        decreases count - i,
    {
        match r.entry(version) {
            Ok((key, e)) => {
                map.insert(key, e);
            },
            Err(f) => {
                proof {
                    take_n_fails(step, Map::empty(), start, (i + 1) as nat, count as nat, f);
                }
                return Err(f);
            },
        }
        i += 1;
    }
    Ok(map)
}

/// Parse a snapshot.
pub fn parse_snapshot(data: &[u8]) -> (out: Result<SortedMap<String, Entry>, SnapshotError>)
    ensures
        match parse(data@) {
            Ok(m) => out is Ok && out.unwrap()@ == m,
            Err(f) => out is Err && out->Err_0.0@ == f.text(),
        },
{
    let n: usize = data.len();
    if n < 10 {
        return Err(SnapshotFault::TooSmall.error());
    }
    if compare_bytes(&data[0..4], MAGIC.as_slice()) != Place::Same {
        return Err(SnapshotFault::BadMagic.error());
    }
    let version: u8 = data[4];
    if version == 0 || version > VERSION {
        return Err(SnapshotFault::BadVersion.error());
    }
    proof {
        assert(data@.subrange(0, 4) =~= data@.take(4));
    }
    let body = if version >= 3 {
        if n < 14 {
            return Err(SnapshotFault::TooSmall.error());
        }
        let split: usize = n - 4;
        let want: u32 = u32_at(data, split);
        let body = &data[0..split];
        proof {
            assert(body@ =~= data@.take(n - 4));
        }
        if crc32(body) != want {
            return Err(SnapshotFault::BadChecksum.error());
        }
        body
    } else {
        data
    };
    match load_body(body, version) {
        Ok(map) => Ok(map),
        Err(f) => Err(f.error()),
    }
}

} // verus!
