//! Little-endian integers and length-prefixed byte strings.

use vstd::prelude::*;
use vstd::utf8::{encode_utf8, encode_utf8_decode_utf8, encode_utf8_valid_utf8};
use crate::text::text_of;

verus! {

/// The four bytes of a number, lowest first.
pub open spec fn le32(x: u32) -> Seq<u8> {
    seq![
        (x & 0xff) as u8,
        ((x >> 8) & 0xff) as u8,
        ((x >> 16) & 0xff) as u8,
        ((x >> 24) & 0xff) as u8,
    ]
}

/// The number that four bytes stand for, the lowest first.
pub open spec fn number32(f: Seq<u8>) -> u32 {
    (f[0] as u32) | ((f[1] as u32) << 8) | ((f[2] as u32) << 16) | ((f[3] as u32) << 24)
}

/// The eight bytes of a number, lowest first.
pub open spec fn le64(x: u64) -> Seq<u8> {
    le32((x & 0xffff_ffff) as u32) + le32((x >> 32) as u32)
}

/// The number that eight bytes stand for, the lowest first.
pub open spec fn number64(f: Seq<u8>) -> u64 {
    (number32(f.take(4)) as u64) | ((number32(f.skip(4)) as u64) << 32)
}

/// A byte string behind its length. The length field holds the length modulo 2^32.
pub open spec fn blob(b: Seq<u8>) -> Seq<u8> {
    le32(b.len() as u32) + b
}

/// A text as its UTF-8 bytes behind their length.
pub open spec fn text_blob(s: Seq<char>) -> Seq<u8> {
    blob(encode_utf8(s))
}

/// A number of four bytes at `pos`, and where it ends.
pub open spec fn read_u32(d: Seq<u8>, pos: int) -> Option<(u32, int)> {
    if pos + 4 <= d.len() {
        Some((number32(d.subrange(pos, pos + 4)), pos + 4))
    } else {
        None
    }
}

/// A number of eight bytes at `pos`, and where it ends.
pub open spec fn read_u64(d: Seq<u8>, pos: int) -> Option<(u64, int)> {
    if pos + 8 <= d.len() {
        Some((number64(d.subrange(pos, pos + 8)), pos + 8))
    } else {
        None
    }
}

/// A byte string behind its length at `pos`, and where it ends.
pub open spec fn read_blob(d: Seq<u8>, pos: int) -> Option<(Seq<u8>, int)> {
    match read_u32(d, pos) {
        Some((n, at)) => if at + n <= d.len() {
            Some((d.subrange(at, at + n), at + n))
        } else {
            None
        },
        None => None,
    }
}

/// A text behind its length at `pos`, and where it ends.
pub open spec fn read_text(d: Seq<u8>, pos: int) -> Option<(Seq<char>, int)> {
    match read_blob(d, pos) {
        Some((b, at)) => match text_of(b) {
            Some(s) => Some((s, at)),
            None => None,
        },
        None => None,
    }
}

/// Append bytes to a buffer.
pub fn put_all(buf: &mut Vec<u8>, b: &[u8])
    ensures
        final(buf)@ == old(buf)@ + b@,
{
    let ghost was = buf@;
    buf.extend_from_slice(b);
    proof {
        assert(buf@ =~= was + b@);
    }
}

/// Append a number of four bytes to a buffer.
pub fn put_u32(buf: &mut Vec<u8>, x: u32)
    ensures
        final(buf)@ == old(buf)@ + le32(x),
{
    let ghost was = buf@;
    buf.push((x & 0xff) as u8);
    buf.push(((x >> 8) & 0xff) as u8);
    buf.push(((x >> 16) & 0xff) as u8);
    buf.push(((x >> 24) & 0xff) as u8);
    proof {
        assert(buf@ =~= was + le32(x));
    }
}

/// Append a number of eight bytes to a buffer.
pub fn put_u64(buf: &mut Vec<u8>, x: u64)
    ensures
        final(buf)@ == old(buf)@ + le64(x),
{
    let ghost was = buf@;
    proof {
        assert(x & 0xffff_ffff <= 0xffff_ffff) by (bit_vector);
        assert(x >> 32 <= 0xffff_ffff) by (bit_vector);
    }
    put_u32(buf, (x & 0xffff_ffff) as u32);
    put_u32(buf, (x >> 32) as u32);
    proof {
        assert(buf@ =~= was + le64(x));
    }
}

/// Append a byte string behind its length.
pub fn put_bytes(buf: &mut Vec<u8>, b: &[u8])
    ensures
        final(buf)@ == old(buf)@ + blob(b@),
{
    let ghost was = buf@;
    put_u32(buf, b.len() as u32);
    put_all(buf, b);
    proof {
        assert(buf@ =~= was + blob(b@));
    }
}

/// Copy a stretch of a byte string.
pub fn copy_range(d: &[u8], from: usize, to: usize) -> (out: Vec<u8>)
    requires
        from <= to <= d@.len(),
    ensures
        out@ == d@.subrange(from as int, to as int),
{
    let mut out: Vec<u8> = Vec::new();
    put_all(&mut out, &d[from..to]);
    proof {
        assert(out@ =~= d@.subrange(from as int, to as int));
    }
    out
}

/// Read the number of four bytes at `pos`.
pub fn u32_at(d: &[u8], pos: usize) -> (x: u32)
    requires
        pos + 4 <= d.len(),
    ensures
        read_u32(d@, pos as int) == Some((x, pos + 4)),
{
    (d[pos] as u32) | ((d[pos + 1] as u32) << 8) | ((d[pos + 2] as u32) << 16) | ((d[pos
        + 3] as u32) << 24)
}

/// Read the number of eight bytes at `pos`.
pub fn u64_at(d: &[u8], pos: usize) -> (x: u64)
    requires
        pos + 8 <= d.len(),
    ensures
        read_u64(d@, pos as int) == Some((x, pos + 8)),
{
    proof {
        assert(d@.subrange(pos as int, pos + 8).take(4) =~= d@.subrange(pos as int, pos + 4));
        assert(d@.subrange(pos as int, pos + 8).skip(4) =~= d@.subrange(pos + 4, pos + 8));
    }
    (u32_at(d, pos) as u64) | ((u32_at(d, pos + 4) as u64) << 32)
}

/// A number written into a buffer is read back from there.
pub proof fn u32_reads_back(d: Seq<u8>, pos: int, x: u32)
    requires
        0 <= pos,
        pos + 4 <= d.len(),
        d.subrange(pos, pos + 4) == le32(x),
    ensures
        read_u32(d, pos) == Some((x, pos + 4)),
{
    number_of_field(x);
}

/// A number written into a buffer is read back from there.
pub proof fn u64_reads_back(d: Seq<u8>, pos: int, x: u64)
    requires
        0 <= pos,
        pos + 8 <= d.len(),
        d.subrange(pos, pos + 8) == le64(x),
    ensures
        read_u64(d, pos) == Some((x, pos + 8)),
{
    let lo = (x & 0xffff_ffff) as u32;
    let hi = (x >> 32) as u32;
    number_of_field(lo);
    number_of_field(hi);
    assert(le64(x).take(4) =~= le32(lo));
    assert(le64(x).skip(4) =~= le32(hi));
    assert((((x & 0xffff_ffff) as u32) as u64) | ((((x >> 32) as u32) as u64) << 32) == x)
        by (bit_vector);
}

/// The four bytes of a number read as the number.
pub proof fn number_of_field(x: u32)
    ensures
        number32(le32(x)) == x,
{
    assert((((x & 0xff) as u8) as u32) | ((((x >> 8) & 0xff) as u8) as u32) << 8 | ((((x >> 16)
        & 0xff) as u8) as u32) << 16 | ((((x >> 24) & 0xff) as u8) as u32) << 24 == x)
        by (bit_vector);
}

/// Four bytes are those of the number that they read as.
pub proof fn field_of_number(field: Seq<u8>)
    requires
        field.len() == 4,
    ensures
        le32(number32(field)) == field,
{
    let a = field[0];
    let b = field[1];
    let c = field[2];
    let d = field[3];
    let x = (a as u32) | ((b as u32) << 8) | ((c as u32) << 16) | ((d as u32) << 24);
    assert(x == (a as u32) | ((b as u32) << 8) | ((c as u32) << 16) | ((d as u32) << 24) ==> (x
        & 0xff) as u8 == a && ((x >> 8) & 0xff) as u8 == b && ((x >> 16) & 0xff) as u8 == c && ((x
        >> 24) & 0xff) as u8 == d) by (bit_vector);
    assert(le32(number32(field)) =~= field);
}

/// The fields have four and eight bytes.
pub proof fn field_sizes(x: u32, y: u64)
    ensures
        le32(x).len() == 4,
        le64(y).len() == 8,
{
}

/// A byte string written into a buffer is read back from there, if its length fits
/// the length field.
pub proof fn blob_reads_back(d: Seq<u8>, pos: int, b: Seq<u8>)
    requires
        0 <= pos,
        b.len() <= u32::MAX,
        pos + blob(b).len() <= d.len(),
        d.subrange(pos, pos + blob(b).len()) == blob(b),
    ensures
        read_blob(d, pos) == Some((b, pos + 4 + b.len())),
        blob(b).len() == 4 + b.len(),
{
    let n = b.len() as u32;
    field_sizes(n, 0);
    assert(d.subrange(pos, pos + 4) =~= d.subrange(pos, pos + blob(b).len()).subrange(0, 4));
    assert(blob(b).subrange(0, 4) =~= le32(n));
    u32_reads_back(d, pos, n);
    assert(d.subrange(pos + 4, pos + 4 + b.len()) =~= d.subrange(
        pos,
        pos + blob(b).len(),
    ).subrange(4, 4 + b.len() as int));
    assert(blob(b).subrange(4, 4 + b.len() as int) =~= b);
}

/// A text written into a buffer is read back from there, if the length of its bytes
/// fits the length field.
pub proof fn text_reads_back(d: Seq<u8>, pos: int, s: Seq<char>)
    requires
        0 <= pos,
        encode_utf8(s).len() <= u32::MAX,
        pos + text_blob(s).len() <= d.len(),
        d.subrange(pos, pos + text_blob(s).len()) == text_blob(s),
    ensures
        read_text(d, pos) == Some((s, pos + 4 + encode_utf8(s).len())),
        text_blob(s).len() == 4 + encode_utf8(s).len(),
{
    blob_reads_back(d, pos, encode_utf8(s));
    encode_utf8_valid_utf8(s);
    encode_utf8_decode_utf8(s);
}

} // verus!
