//! The bytes of the log and of snapshots, as they stand in a file.

use vstd::prelude::*;
use vstd::utf8::{
    decode_utf8, encode_utf8, encode_utf8_decode_utf8, encode_utf8_valid_utf8, valid_utf8,
};
use crate::bytes::{
    blob, le32, le64, number32, number64, number_of_field, read_blob, read_text, read_u32, read_u64,
    text_blob,
};
use crate::classic::{parse_plain, plain_entries, plain_entry, plain_snapshot};
use crate::crc::{crc_of, crc_register, shift_bit, shift_bits};
use crate::laws::orders::bits_tell_numbers;
use crate::log::{frame, frames, read_frame, records_from, LogBase, LogWriteView};
use crate::record::{decode, expiry_field, field_expiry, record, Op};
use crate::replay::readable;
use crate::snapshot::{
    blobs, element_step, entries_bytes, entry_bytes, entry_step, field_step, fields, listed_members,
    member_step, parse, scored, scored_step, snapshot, snapshot_body, take_blob, take_entry, take_n,
    take_text, take_u32, take_u64, take_value, value_bytes, MAGIC, Parsed, SnapshotFault,
};
use crate::sorted_map::{ordered, ordered_exists, ordered_len};
use crate::text::text_of;
use crate::value::{EntryView, State, ValueView};
use crate::zset::ranking;

verus! {

/// A number of four bytes is written with its lowest digit to the base 256 first, and read
/// the same way.
pub proof fn numbers_are_little_endian(x: u32, f: Seq<u8>)
    ensures
        le32(x).len() == 4,
        le32(x)[0] == x % 256,
        le32(x)[1] == (x / 256) % 256,
        le32(x)[2] == (x / 65536) % 256,
        le32(x)[3] == x / 16777216,
        number32(f) == f[0] + 256 * f[1] + 65536 * f[2] + 16777216 * f[3],
{
    assert((x & 0xff) as u8 as u32 == x % 256) by (bit_vector);
    assert(((x >> 8) & 0xff) as u8 as u32 == (x / 256) % 256) by (bit_vector);
    assert(((x >> 16) & 0xff) as u8 as u32 == (x / 65536) % 256) by (bit_vector);
    assert(((x >> 24) & 0xff) as u8 as u32 == x / 16777216) by (bit_vector);
    let (a, b, c, d) = (f[0], f[1], f[2], f[3]);
    assert((a as u32) | ((b as u32) << 8) | ((c as u32) << 16) | ((d as u32) << 24) == a + 256 * b
        + 65536 * c + 16777216 * d) by (bit_vector);
}

/// A number of eight bytes is written as its two halves, the lower one first, and read the
/// same way.
pub proof fn long_numbers_are_little_endian(x: u64, f: Seq<u8>)
    ensures
        le64(x) == le32((x % 0x1_0000_0000) as u32) + le32((x / 0x1_0000_0000) as u32),
        number64(f) == number32(f.take(4)) + 0x1_0000_0000 * number32(f.skip(4)),
{
    assert(x & 0xffff_ffff == x % 0x1_0000_0000) by (bit_vector);
    assert(x >> 32 == x / 0x1_0000_0000) by (bit_vector);
    let a = number32(f.take(4));
    let b = number32(f.skip(4));
    assert((a as u64) | ((b as u64) << 32) == a + 0x1_0000_0000 * b) by (bit_vector);
}

/// A byte string stands behind its length, and a text as its UTF-8 bytes.
pub proof fn blobs_stand_behind_their_length(b: Seq<u8>, s: Seq<char>)
    ensures
        blob(b).len() == 4 + b.len(),
        blob(b).skip(4) == b,
        b.len() <= u32::MAX ==> number32(blob(b).take(4)) == b.len(),
        text_blob(s) == blob(encode_utf8(s)),
{
    assert(blob(b).skip(4) =~= b);
    assert(blob(b).take(4) =~= le32(b.len() as u32));
    number_of_field(b.len() as u32);
}

/// A frame is the length of its payload, the checksum of its payload, and the payload.
pub proof fn frame_is_laid_out(p: Seq<u8>)
    ensures
        frame(p).len() == 8 + p.len(),
        frame(p).take(4) == le32(p.len() as u32),
        frame(p).subrange(4, 8) == le32(crc_of(p)),
        frame(p).skip(8) == p,
{
    assert(frame(p).take(4) =~= le32(p.len() as u32));
    assert(frame(p).subrange(4, 8) =~= le32(crc_of(p)));
    assert(frame(p).skip(8) =~= p);
}

/// One more record stands behind all others.
pub proof fn records_stand_in_order(payloads: Seq<Seq<u8>>, p: Seq<u8>)
    ensures
        frames(Seq::<Seq<u8>>::empty()) == Seq::<u8>::empty(),
        frames(payloads.push(p)) == frames(payloads) + frame(p),
        readable(payloads.push(p)) == readable(payloads) + (if decode(p) is Some {
            1nat
        } else {
            0nat
        }),
        readable(Seq::<Seq<u8>>::empty()) == 0,
{
    assert(payloads.push(p).drop_last() =~= payloads);
}

/// What a write makes of a log file: it stays, or is cut, or goes, and the bytes follow.
pub proof fn writes_change_the_file(w: LogWriteView, disk: Seq<u8>)
    ensures
        w.base == LogBase::Whole ==> w.applied(disk) == disk + w.bytes,
        w.base matches LogBase::Prefix(n) ==> w.applied(disk) == disk.take(n as int) + w.bytes,
        w.base == LogBase::Nothing ==> w.applied(disk) == w.bytes,
        LogWriteView::none().applied(disk) == disk,
{
    assert(disk + Seq::<u8>::empty() =~= disk);
}

/// One bit of the register is divided out: where it is set, by the polynomial.
pub open spec fn bit_out(c: u32) -> u32 {
    if c % 2 == 1 {
        (c / 2) ^ 0xEDB8_8320u32
    } else {
        c / 2
    }
}

/// The checksum is the CRC-32: that of no bytes is 0, and one more byte is taken into the
/// register, of which eight bits are then divided out.
pub proof fn checksum_is_crc32(data: Seq<u8>, byte: u8)
    ensures
        crc_of(Seq::<u8>::empty()) == 0,
        crc_of(data.push(byte)) == !bit_out(
            bit_out(
                bit_out(
                    bit_out(
                        bit_out(bit_out(bit_out(bit_out(!crc_of(data) ^ (byte as u32))))),
                    ),
                ),
            ),
        ),
{
    reveal_with_fuel(shift_bits, 9);
    assert(!(!0u32) == 0u32) by (bit_vector);
    assert(data.push(byte).drop_last() =~= data);
    let r = crc_register(data);
    assert(!(!r) == r) by (bit_vector);
    let c0 = r ^ (byte as u32);
    one_bit_out(c0);
    let c1 = bit_out(c0);
    one_bit_out(c1);
    let c2 = bit_out(c1);
    one_bit_out(c2);
    let c3 = bit_out(c2);
    one_bit_out(c3);
    let c4 = bit_out(c3);
    one_bit_out(c4);
    let c5 = bit_out(c4);
    one_bit_out(c5);
    let c6 = bit_out(c5);
    one_bit_out(c6);
    one_bit_out(bit_out(c6));
}

proof fn one_bit_out(c: u32)
    ensures
        shift_bit(c) == bit_out(c),
{
    assert(c & 1 == c % 2 && c >> 1 == c / 2) by (bit_vector);
}

/// The record of each mutation: a code, the key, and what the mutation needs beside it.
pub proof fn records_are_laid_out(
    key: Seq<char>,
    field: Seq<char>,
    b: Seq<u8>,
    at: u64,
    expire_at: Option<u64>,
)
    ensures
        record(Op::Put { key, value: b, expire_at }) == seq![1u8] + text_blob(key) + le64(
            match expire_at {
                Some(t) => t,
                None => 0,
            },
        ) + blob(b),
        record(Op::Del { key }) == seq![2u8] + text_blob(key),
        record(Op::Expire { key, at }) == seq![3u8] + text_blob(key) + le64(at),
        record(Op::Persist { key }) == seq![4u8] + text_blob(key),
        record(Op::Clear) == seq![5u8],
        record(Op::Push { key, value: b, front: true }) == seq![6u8] + text_blob(key) + blob(b),
        record(Op::Push { key, value: b, front: false }) == seq![7u8] + text_blob(key) + blob(b),
        record(Op::Pop { key, front: true }) == seq![8u8] + text_blob(key),
        record(Op::Pop { key, front: false }) == seq![9u8] + text_blob(key),
        record(Op::HSet { key, field, value: b }) == seq![10u8] + text_blob(key) + text_blob(
            field,
        ) + blob(b),
        record(Op::HDel { key, field }) == seq![11u8] + text_blob(key) + text_blob(field),
        record(Op::SAdd { key, member: b }) == seq![12u8] + text_blob(key) + blob(b),
        record(Op::SRem { key, member: b }) == seq![13u8] + text_blob(key) + blob(b),
        record(Op::ZAdd { key, score: at, member: b }) == seq![14u8] + text_blob(key) + le64(at)
            + blob(b),
        record(Op::ZRem { key, member: b }) == seq![15u8] + text_blob(key) + blob(b),
{
}

/// A snapshot is "STRN", the version, a byte that is 0, how many entries there are, the
/// entries in the order of their keys, and the checksum of all that.
pub proof fn snapshot_is_laid_out(m: State)
    requires
        m.dom().finite(),
    ensures
        ({
            let d = snapshot(m);
            let n = d.len() as int;
            let l = ordered::<String, EntryView>(m);
            &&& n >= 14
            &&& d.take(6) == seq![0x53u8, 0x54, 0x52, 0x4e, 6, 0]
            &&& d.subrange(6, 10) == le32(m.dom().len() as u32)
            &&& d.subrange(10, n - 4) == entries_bytes(l)
            &&& d.skip(n - 4) == le32(crc_of(d.take(n - 4)))
            &&& l.len() == m.dom().len()
            &&& forall|i: int|
                0 <= i < l.len() ==> m.contains_key((#[trigger] l[i]).0) && m[l[i].0] == l[i].1
        }),
{
    let d = snapshot(m);
    let n = d.len() as int;
    let l = ordered::<String, EntryView>(m);
    ordered_exists::<String, EntryView>(m);
    ordered_len::<String, EntryView>(l, m);
    let body = snapshot_body(m);
    assert(d.take(n - 4) =~= body);
    assert(d.skip(n - 4) =~= le32(crc_of(body)));
    assert(d.take(6) =~= seq![0x53u8, 0x54, 0x52, 0x4e, 6, 0]);
    assert(d.subrange(6, 10) =~= le32(m.dom().len() as u32));
    assert(d.subrange(10, n - 4) =~= entries_bytes(l));
    assert forall|i: int| 0 <= i < l.len() implies m.contains_key((#[trigger] l[i]).0) && m[l[i].0]
        == l[i].1 by {
        assert(m.contains_key(l[i].0));
    }
}

/// An entry of a snapshot is its key, its time of expiry, where 0 stands for none, a byte
/// for its type, and its value: each entry stands behind the one before it.
pub proof fn entries_are_laid_out(
    l: Seq<(Seq<char>, EntryView)>,
    key: Seq<char>,
    e: EntryView,
)
    ensures
        entries_bytes(Seq::<(Seq<char>, EntryView)>::empty()) == Seq::<u8>::empty(),
        entries_bytes(l.push((key, e))) == entries_bytes(l) + entry_bytes(key, e),
        entry_bytes(key, e) == text_blob(key) + le64(
            match e.expire_at {
                Some(t) => t,
                None => 0,
            },
        ) + value_bytes(e.value),
        value_bytes(e.value) == (match e.value {
            ValueView::Bytes(b) => seq![0u8] + blob(b),
            ValueView::List(x) => seq![1u8] + le32(x.len() as u32) + blobs(x),
            ValueView::Hash(h) => seq![2u8] + le32(h.dom().len() as u32) + fields(
                ordered::<String, Seq<u8>>(h),
            ),
            ValueView::Members(s) => seq![3u8] + le32(s.len() as u32) + blobs(listed_members(s)),
            ValueView::ZSet(z) => seq![4u8] + le32(z.dom().len() as u32) + scored(ranking(z)),
        }),
{
    assert(l.push((key, e)).drop_last() =~= l);
}

/// The items of a collection stand one behind the other: elements and members behind their
/// lengths, fields before their values, scores before their members.
pub proof fn items_are_laid_out(
    l: Seq<Seq<u8>>,
    b: Seq<u8>,
    h: Seq<(Seq<char>, Seq<u8>)>,
    field: Seq<char>,
    z: Seq<(Seq<u8>, u64)>,
    score: u64,
)
    ensures
        blobs(Seq::<Seq<u8>>::empty()) == Seq::<u8>::empty(),
        blobs(l.push(b)) == blobs(l) + blob(b),
        fields(Seq::<(Seq<char>, Seq<u8>)>::empty()) == Seq::<u8>::empty(),
        fields(h.push((field, b))) == fields(h) + text_blob(field) + blob(b),
        scored(Seq::<(Seq<u8>, u64)>::empty()) == Seq::<u8>::empty(),
        scored(z.push((b, score))) == scored(z) + le64(score) + blob(b),
{
    assert(l.push(b).drop_last() =~= l);
    assert(h.push((field, b)).drop_last() =~= h);
    assert(z.push((b, score)).drop_last() =~= z);
}

/// A snapshot of the first version has entries of plain bytes, without a type, and no
/// checksum.
pub proof fn plain_snapshot_is_laid_out(
    m: State,
    l: Seq<(Seq<char>, EntryView)>,
    key: Seq<char>,
    b: Seq<u8>,
    expire_at: Option<u64>,
)
    ensures
        plain_snapshot(m) == seq![0x53u8, 0x54, 0x52, 0x4e, 1, 0] + le32(m.dom().len() as u32)
            + plain_entries(ordered::<String, EntryView>(m)),
        plain_entries(Seq::<(Seq<char>, EntryView)>::empty()) == Seq::<u8>::empty(),
        ({
            let e = EntryView { value: ValueView::Bytes(b), expire_at };
            &&& plain_entries(l.push((key, e))) == plain_entries(l) + plain_entry(key, e)
            &&& plain_entry(key, e) == text_blob(key) + le64(
                match expire_at {
                    Some(t) => t,
                    None => 0,
                },
            ) + blob(b)
        }),
{
    let e = EntryView { value: ValueView::Bytes(b), expire_at };
    assert(l.push((key, e)).drop_last() =~= l);
    assert(MAGIC@ + seq![1u8, 0u8] =~= seq![0x53u8, 0x54, 0x52, 0x4e, 1, 0]);
}

/// What is no snapshot is refused by its first fault: too short, not beginning with "STRN",
/// of a version that there is not, or, from the third version on, with a checksum that is
/// not that of what stands before it.
pub proof fn what_is_no_snapshot_is_refused(d: Seq<u8>)
    ensures
        ({
            let strn = d.len() >= 4 && d[0] == 0x53 && d[1] == 0x54 && d[2] == 0x52 && d[3] == 0x4e;
            if d.len() < 10 {
                &&& parse(d) == Err::<State, SnapshotFault>(SnapshotFault::TooSmall)
                &&& parse_plain(d) == Err::<State, SnapshotFault>(SnapshotFault::TooSmall)
            } else if !strn {
                &&& parse(d) == Err::<State, SnapshotFault>(SnapshotFault::BadMagic)
                &&& parse_plain(d) == Err::<State, SnapshotFault>(SnapshotFault::BadMagic)
            } else {
                &&& d[4] < 1 || d[4] > 6 ==> parse(d) == Err::<State, SnapshotFault>(
                    SnapshotFault::BadVersion,
                )
                &&& d[4] != 1 ==> parse_plain(d) == Err::<State, SnapshotFault>(
                    SnapshotFault::BadVersion,
                )
                &&& d[4] == 1 ==> parse(d) == parse_plain(d)
                &&& 3 <= d[4] <= 6 && d.len() < 14 ==> parse(d) == Err::<State, SnapshotFault>(
                    SnapshotFault::TooSmall,
                )
                &&& 3 <= d[4] <= 6 && d.len() >= 14 && number32(d.skip(d.len() - 4)) != crc_of(
                    d.take(d.len() - 4),
                ) ==> parse(d) == Err::<State, SnapshotFault>(SnapshotFault::BadChecksum)
            }
        }),
{
    if d.len() >= 10 {
        let magic = seq![0x53u8, 0x54, 0x52, 0x4e];
        assert(MAGIC@ =~= magic);
        if d[0] == 0x53 && d[1] == 0x54 && d[2] == 0x52 && d[3] == 0x4e {
            assert(d.take(4) =~= magic);
        } else if d.take(4) == magic {
            assert(d[0] == d.take(4)[0] && d[1] == d.take(4)[1] && d[2] == d.take(4)[2] && d[3]
                == d.take(4)[3]);
        }
        assert(d.skip(d.len() - 4) =~= d.subrange(d.len() - 4, d.len() as int));
    }
}

/// A value of a type that there is not is refused.
pub proof fn unknown_types_are_refused(d: Seq<u8>, pos: int, kind: u8)
    requires
        kind > 4,
    ensures
        take_value(d, pos, kind) == Err::<(ValueView, int), SnapshotFault>(SnapshotFault::BadType),
{
}

/// Numbers and byte strings are read where they stand whole, and nowhere else.
pub proof fn reading_stays_inside(d: Seq<u8>, pos: int)
    requires
        0 <= pos,
    ensures
        read_u32(d, pos) == (if pos + 4 <= d.len() {
            Some((number32(d.subrange(pos, pos + 4)), pos + 4))
        } else {
            None
        }),
        read_u64(d, pos) == (if pos + 8 <= d.len() {
            Some((number64(d.subrange(pos, pos + 8)), pos + 8))
        } else {
            None
        }),
        ({
            let n = number32(d.subrange(pos, pos + 4));
            read_blob(d, pos) == (if pos + 4 <= d.len() && pos + 4 + n <= d.len() {
                Some((d.subrange(pos + 4, pos + 4 + n), pos + 4 + n))
            } else {
                None
            })
        }),
        match read_blob(d, pos) {
            Some((b, at)) => if valid_utf8(b) {
                read_text(d, pos) == Some((decode_utf8(b), at))
            } else {
                read_text(d, pos) is None
            },
            None => read_text(d, pos) is None,
        },
{
}

proof fn more_behind(p: Seq<u8>, tail: Seq<u8>, pos: int)
    requires
        0 <= pos,
    ensures
        read_u64(p, pos) is Some ==> read_u64(p + tail, pos) == read_u64(p, pos),
        read_blob(p, pos) is Some ==> read_blob(p + tail, pos) == read_blob(p, pos),
        read_text(p, pos) is Some ==> read_text(p + tail, pos) == read_text(p, pos),
        read_blob(p, pos) matches Some((_, at)) ==> at >= pos,
{
    let q = p + tail;
    if pos + 4 <= p.len() {
        assert(q.subrange(pos, pos + 4) =~= p.subrange(pos, pos + 4));
        let n = number32(p.subrange(pos, pos + 4));
        if pos + 4 + n <= p.len() {
            assert(q.subrange(pos + 4, pos + 4 + n) =~= p.subrange(pos + 4, pos + 4 + n));
        }
    }
    if pos + 8 <= p.len() {
        assert(q.subrange(pos, pos + 8) =~= p.subrange(pos, pos + 8));
    }
}

/// Bytes behind a record are passed over, and what has no code, or one that there is not,
/// is no record.
pub proof fn records_are_told(p: Seq<u8>, tail: Seq<u8>)
    ensures
        decode(p) is Some ==> decode(p + tail) == decode(p),
        decode(Seq::<u8>::empty()) is None,
        p.len() > 0 && (p[0] == 0 || p[0] > 15) ==> decode(p) is None,
{
    more_behind(p, tail, 1);
    match read_text(p, 1) {
        Some((_, at)) => {
            more_behind(p, tail, at);
            more_behind(p, tail, at + 8);
            match read_text(p, at) {
                Some((_, then)) => more_behind(p, tail, then),
                None => {},
            }
        },
        None => {},
    }
}

/// The items of a snapshot are taken in their order, and of two with one name the later one
/// stands. A member whose score is no number is passed over.
pub proof fn later_items_stand(
    d: Seq<u8>,
    pos: int,
    l: Seq<Seq<u8>>,
    h: Map<Seq<char>, Seq<u8>>,
    s: Set<Seq<u8>>,
    z: Map<Seq<u8>, u64>,
    m: State,
    version: u8,
)
    requires
        0 <= pos,
    ensures
        read_blob(d, pos) matches Some((b, at)) ==> element_step(d)(l, pos) == Ok::<
            (Seq<Seq<u8>>, int),
            SnapshotFault,
        >((l.push(b), at)) && member_step(d)(s, pos) == Ok::<(Set<Seq<u8>>, int), SnapshotFault>(
            (s.insert(b), at),
        ),
        read_text(d, pos) matches Some((f, at)) ==> (read_blob(d, at) matches Some((b, end))
            ==> field_step(d)(h, pos) == Ok::<(Map<Seq<char>, Seq<u8>>, int), SnapshotFault>(
            (h.insert(f, b), end),
        )),
        read_u64(d, pos) matches Some((x, at)) ==> (read_blob(d, at) matches Some((b, end))
            ==> scored_step(d)(z, pos) == Ok::<(Map<Seq<u8>, u64>, int), SnapshotFault>(
            (
                if (x >> 52) & 0x7ff == 0x7ff && x & 0xf_ffff_ffff_ffff != 0 {
                    z
                } else {
                    z.insert(b, x)
                },
                end,
            ),
        )),
        take_entry(d, pos, version) matches Ok(((key, e), at)) ==> entry_step(d, version)(m, pos)
            == Ok::<(State, int), SnapshotFault>((m.insert(key, e), at)),
        read_blob(d, pos) is None ==> element_step(d)(l, pos) is Err && member_step(d)(s, pos)
            is Err && field_step(d)(h, pos) is Err,
{
    match read_u64(d, pos) {
        Some((x, at)) => bits_tell_numbers(x),
        None => {},
    }
}

/// A byte string is a text if it is UTF-8, and then it is the text that it encodes.
pub proof fn texts_are_utf8(b: Seq<u8>, s: Seq<char>)
    ensures
        text_of(b) is Some == valid_utf8(b),
        valid_utf8(b) ==> text_of(b) == Some(decode_utf8(b)),
        text_of(encode_utf8(s)) == Some(s),
{
    encode_utf8_valid_utf8(s);
    encode_utf8_decode_utf8(s);
}

/// A time of expiry stands as it is, and 0 stands for none.
pub proof fn expiry_stands_as_it_is(t: u64)
    ensures
        expiry_field(None) == 0,
        expiry_field(Some(t)) == t,
        field_expiry(0) is None,
        t > 0 ==> field_expiry(t) == Some(t),
{
}

/// A frame is read if and only if it stands whole and its checksum is that of what it
/// carries. Reading goes on behind it, and stops where there is none.
pub proof fn frames_are_told(d: Seq<u8>, pos: int)
    requires
        0 <= pos < d.len(),
    ensures
        ({
            let n = number32(d.subrange(pos, pos + 4));
            let crc = number32(d.subrange(pos + 4, pos + 8));
            let p = d.subrange(pos + 8, pos + 8 + n);
            if pos + 8 <= d.len() && pos + 8 + n <= d.len() && crc == crc_of(p) {
                &&& read_frame(d, pos) == Some((p, pos + 8 + n))
                &&& records_from(d, pos).0 == seq![p] + records_from(d, pos + 8 + n).0
                &&& records_from(d, pos).1 == records_from(d, pos + 8 + n).1
            } else {
                &&& read_frame(d, pos) is None
                &&& records_from(d, pos) == (Seq::<Seq<u8>>::empty(), Some(pos))
            }
        }),
        records_from(d, d.len() as int) == (Seq::<Seq<u8>>::empty(), None::<int>),
{
}

/// What cannot be read of a snapshot is cut off there, and a text that is not UTF-8 has the
/// fault of a key or of a field.
pub proof fn what_is_cut_off_is_told(d: Seq<u8>, pos: int, fault: SnapshotFault)
    ensures
        match read_u32(d, pos) {
            Some(x) => take_u32(d, pos) == Ok::<(u32, int), SnapshotFault>(x),
            None => take_u32(d, pos) == Err::<(u32, int), SnapshotFault>(SnapshotFault::Truncated),
        },
        match read_u64(d, pos) {
            Some(x) => take_u64(d, pos) == Ok::<(u64, int), SnapshotFault>(x),
            None => take_u64(d, pos) == Err::<(u64, int), SnapshotFault>(SnapshotFault::Truncated),
        },
        match read_blob(d, pos) {
            Some((b, at)) => {
                &&& take_blob(d, pos) == Ok::<(Seq<u8>, int), SnapshotFault>((b, at))
                &&& take_text(d, pos, fault) == (if valid_utf8(b) {
                    Ok::<(Seq<char>, int), SnapshotFault>((decode_utf8(b), at))
                } else {
                    Err(fault)
                })
            },
            None => {
                &&& take_blob(d, pos) == Err::<(Seq<u8>, int), SnapshotFault>(
                    SnapshotFault::Truncated,
                )
                &&& take_text(d, pos, fault) == Err::<(Seq<char>, int), SnapshotFault>(
                    SnapshotFault::Truncated,
                )
            },
        },
{
}

/// Items are read one behind the other, as many as their count says; the first that cannot
/// be read says why.
pub proof fn items_are_read_in_turn<T>(
    step: spec_fn(T, int) -> Parsed<T>,
    init: T,
    pos: int,
    n: nat,
)
    ensures
        take_n(step, init, pos, 0) == Ok::<(T, int), SnapshotFault>((init, pos)),
        take_n(step, init, pos, n) matches Ok((t, at)) ==> take_n(step, init, pos, n + 1) == step(
            t,
            at,
        ),
        take_n(step, init, pos, n) is Err ==> take_n(step, init, pos, n + 1) == take_n(
            step,
            init,
            pos,
            n,
        ),
{
}

/// An entry is read as it is laid out: its key, its time of expiry, the type from the second
/// version on, and its value. What cannot be read says why, and so does every item.
pub proof fn entries_are_read_in_turn(
    d: Seq<u8>,
    pos: int,
    version: u8,
    m: State,
    l: Seq<Seq<u8>>,
    h: Map<Seq<char>, Seq<u8>>,
    s: Set<Seq<u8>>,
    z: Map<Seq<u8>, u64>,
)
    ensures
        match take_text(d, pos, SnapshotFault::BadKey) {
            Ok((key, at)) => match take_u64(d, at) {
                Ok((t, at)) => {
                    let bytes = version == 1;
                    let kind = if bytes {
                        0
                    } else {
                        d[at]
                    };
                    let from = if bytes {
                        at
                    } else {
                        at + 1
                    };
                    if from > d.len() && !bytes {
                        take_entry(d, pos, version) == Err::<
                            ((Seq<char>, EntryView), int),
                            SnapshotFault,
                        >(SnapshotFault::Truncated)
                    } else {
                        match take_value(d, from, kind) {
                            Ok((value, end)) => take_entry(d, pos, version) matches Ok(e)
                                && e.0.0 == key && e.0.1.value == value && e.1 == end
                                && e.0.1.expire_at == (if t == 0 {
                                None
                            } else {
                                Some(t)
                            }),
                            Err(f) => take_entry(d, pos, version) matches Err(g) && f == g,
                        }
                    }
                },
                Err(f) => take_entry(d, pos, version) matches Err(g) && f == g,
            },
            Err(f) => take_entry(d, pos, version) matches Err(g) && f == g,
        },
        take_entry(d, pos, version) matches Err(f) ==> entry_step(d, version)(m, pos) == Err::<
            (State, int),
            SnapshotFault,
        >(f),
        take_blob(d, pos) matches Err(f) ==> element_step(d)(l, pos) == Err::<
            (Seq<Seq<u8>>, int),
            SnapshotFault,
        >(f) && member_step(d)(s, pos) == Err::<(Set<Seq<u8>>, int), SnapshotFault>(f),
        match take_text(d, pos, SnapshotFault::BadField) {
            Ok((_, at)) => take_blob(d, at) matches Err(f) ==> field_step(d)(h, pos) == Err::<
                (Map<Seq<char>, Seq<u8>>, int),
                SnapshotFault,
            >(f),
            Err(f) => field_step(d)(h, pos) == Err::<(Map<Seq<char>, Seq<u8>>, int), SnapshotFault>(
                f,
            ),
        },
        match take_u64(d, pos) {
            Ok((_, at)) => take_blob(d, at) matches Err(f) ==> scored_step(d)(z, pos) == Err::<
                (Map<Seq<u8>, u64>, int),
                SnapshotFault,
            >(f),
            Err(f) => scored_step(d)(z, pos) == Err::<(Map<Seq<u8>, u64>, int), SnapshotFault>(f),
        },
{
}

/// The state of a snapshot is that of as many entries as it counts, from behind the count;
/// from the third version on, its checksum stands behind all that is read.
pub proof fn states_are_read_in_turn(d: Seq<u8>)
    requires
        d.len() >= 10,
        d[0] == 0x53 && d[1] == 0x54 && d[2] == 0x52 && d[3] == 0x4e,
        1 <= d[4] <= 6,
        d[4] >= 3 ==> d.len() >= 14 && number32(d.skip(d.len() - 4)) == crc_of(
            d.take(d.len() - 4),
        ),
    ensures
        ({
            let body = if d[4] >= 3 {
                d.take(d.len() - 4)
            } else {
                d
            };
            match take_n(
                entry_step(body, d[4]),
                Map::<Seq<char>, EntryView>::empty(),
                10,
                number32(d.subrange(6, 10)) as nat,
            ) {
                Ok((m, _)) => parse(d) == Ok::<State, SnapshotFault>(m),
                Err(f) => parse(d) == Err::<State, SnapshotFault>(f),
            }
        }),
{
    assert(MAGIC@ =~= seq![0x53u8, 0x54, 0x52, 0x4e]);
    assert(d.take(4) =~= MAGIC@);
    assert(d.skip(d.len() - 4) =~= d.subrange(d.len() - 4, d.len() as int));
    if d[4] >= 3 {
        assert(d.take(d.len() - 4).subrange(6, 10) =~= d.subrange(6, 10));
    }
}

} // verus!
