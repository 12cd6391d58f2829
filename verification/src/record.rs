//! The records of the append-only log: one for each mutation.
//!
//! A record is an opcode followed by its arguments: texts and blobs behind their
//! lengths, numbers in little-endian order.

use vstd::prelude::*;
use vstd::utf8::{decode_utf8_encode_utf8, encode_utf8};
use crate::bytes::{
    blob, blob_reads_back, copy_range, field_sizes, le64, put_bytes, put_u64, read_blob, read_text,
    read_u32, read_u64, text_blob, text_reads_back, u32_at, u64_at, u64_reads_back,
};
use crate::score::OrderedF64;
use crate::text::{decode_text, text_of};

verus! {

pub const OP_SET: u8 = 1;

pub const OP_DEL: u8 = 2;

pub const OP_EXPIRE: u8 = 3;

pub const OP_PERSIST: u8 = 4;

pub const OP_CLEAR: u8 = 5;

pub const OP_PUSH_FRONT: u8 = 6;

pub const OP_PUSH_BACK: u8 = 7;

pub const OP_POP_FRONT: u8 = 8;

pub const OP_POP_BACK: u8 = 9;

pub const OP_HSET: u8 = 10;

pub const OP_HDEL: u8 = 11;

pub const OP_SADD: u8 = 12;

pub const OP_SREM: u8 = 13;

pub const OP_ZADD: u8 = 14;

pub const OP_ZREM: u8 = 15;

/// A mutation, as the log records it.
pub enum Op {
    Put { key: Seq<char>, value: Seq<u8>, expire_at: Option<u64> },
    Del { key: Seq<char> },
    Expire { key: Seq<char>, at: u64 },
    Persist { key: Seq<char> },
    Clear,
    Push { key: Seq<char>, value: Seq<u8>, front: bool },
    Pop { key: Seq<char>, front: bool },
    HSet { key: Seq<char>, field: Seq<char>, value: Seq<u8> },
    HDel { key: Seq<char>, field: Seq<char> },
    SAdd { key: Seq<char>, member: Seq<u8> },
    SRem { key: Seq<char>, member: Seq<u8> },
    ZAdd { key: Seq<char>, score: u64, member: Seq<u8> },
    ZRem { key: Seq<char>, member: Seq<u8> },
}

/// The number that stands for a time of expiry: 0 stands for none.
pub open spec fn expiry_field(expire_at: Option<u64>) -> u64 {
    match expire_at {
        Some(t) => t,
        None => 0,
    }
}

/// The time of expiry that a number stands for: 0 stands for none.
pub open spec fn field_expiry(x: u64) -> Option<u64> {
    if x == 0 {
        None
    } else {
        Some(x)
    }
}

/// The opcode of a push at the given end.
pub open spec fn push_code(front: bool) -> u8 {
    if front {
        OP_PUSH_FRONT
    } else {
        OP_PUSH_BACK
    }
}

/// The opcode of a pop at the given end.
pub open spec fn pop_code(front: bool) -> u8 {
    if front {
        OP_POP_FRONT
    } else {
        OP_POP_BACK
    }
}

/// The bytes of a record.
pub open spec fn record(op: Op) -> Seq<u8> {
    match op {
        Op::Put { key, value, expire_at } => seq![OP_SET] + text_blob(key) + le64(
            expiry_field(expire_at),
        ) + blob(value),
        Op::Del { key } => seq![OP_DEL] + text_blob(key),
        Op::Expire { key, at } => seq![OP_EXPIRE] + text_blob(key) + le64(at),
        Op::Persist { key } => seq![OP_PERSIST] + text_blob(key),
        Op::Clear => seq![OP_CLEAR],
        Op::Push { key, value, front } => seq![push_code(front)] + text_blob(key) + blob(value),
        Op::Pop { key, front } => seq![pop_code(front)] + text_blob(key),
        Op::HSet { key, field, value } => seq![OP_HSET] + text_blob(key) + text_blob(field) + blob(
            value,
        ),
        Op::HDel { key, field } => seq![OP_HDEL] + text_blob(key) + text_blob(field),
        Op::SAdd { key, member } => seq![OP_SADD] + text_blob(key) + blob(member),
        Op::SRem { key, member } => seq![OP_SREM] + text_blob(key) + blob(member),
        Op::ZAdd { key, score, member } => seq![OP_ZADD] + text_blob(key) + le64(score) + blob(
            member,
        ),
        Op::ZRem { key, member } => seq![OP_ZREM] + text_blob(key) + blob(member),
    }
}

/// The mutation that a record holds, if it can be read. Bytes behind the last
/// argument are passed over.
pub open spec fn decode(p: Seq<u8>) -> Option<Op> {
    if p.len() == 0 {
        None
    } else if p[0] == OP_CLEAR {
        Some(Op::Clear)
    } else {
        match read_text(p, 1) {
            Some((key, at)) => decode_keyed(p, key, at),
            None => None,
        }
    }
}

/// The mutation that a record holds, its key read up to `at`.
pub open spec fn decode_keyed(p: Seq<u8>, key: Seq<char>, at: int) -> Option<Op> {
    let code = p[0];
    if code == OP_DEL {
        Some(Op::Del { key })
    } else if code == OP_PERSIST {
        Some(Op::Persist { key })
    } else if code == OP_POP_FRONT || code == OP_POP_BACK {
        Some(Op::Pop { key, front: code == OP_POP_FRONT })
    } else if code == OP_SET {
        match read_u64(p, at) {
            Some((t, at)) => match read_blob(p, at) {
                Some((value, _)) => Some(Op::Put { key, value, expire_at: field_expiry(t) }),
                None => None,
            },
            None => None,
        }
    } else if code == OP_EXPIRE {
        match read_u64(p, at) {
            Some((t, _)) => Some(Op::Expire { key, at: t }),
            None => None,
        }
    } else if code == OP_PUSH_FRONT || code == OP_PUSH_BACK {
        match read_blob(p, at) {
            Some((value, _)) => Some(Op::Push { key, value, front: code == OP_PUSH_FRONT }),
            None => None,
        }
    } else if code == OP_HSET {
        match read_text(p, at) {
            Some((field, at)) => match read_blob(p, at) {
                Some((value, _)) => Some(Op::HSet { key, field, value }),
                None => None,
            },
            None => None,
        }
    } else if code == OP_HDEL {
        match read_text(p, at) {
            Some((field, _)) => Some(Op::HDel { key, field }),
            None => None,
        }
    } else if code == OP_SADD {
        match read_blob(p, at) {
            Some((member, _)) => Some(Op::SAdd { key, member }),
            None => None,
        }
    } else if code == OP_SREM {
        match read_blob(p, at) {
            Some((member, _)) => Some(Op::SRem { key, member }),
            None => None,
        }
    } else if code == OP_ZADD {
        match read_u64(p, at) {
            Some((score, at)) => match read_blob(p, at) {
                Some((member, _)) => Some(Op::ZAdd { key, score, member }),
                None => None,
            },
            None => None,
        }
    } else if code == OP_ZREM {
        match read_blob(p, at) {
            Some((member, _)) => Some(Op::ZRem { key, member }),
            None => None,
        }
    } else {
        None
    }
}

/// Whether the length of a blob fits its length field.
pub open spec fn blob_fits(b: Seq<u8>) -> bool {
    b.len() <= u32::MAX
}

/// Whether the length of a text's bytes fits its length field.
pub open spec fn text_fits(s: Seq<char>) -> bool {
    encode_utf8(s).len() <= u32::MAX
}

/// Whether every length in a record fits its length field, and the time of expiry is
/// not the one that stands for none.
pub open spec fn op_fits(op: Op) -> bool {
    match op {
        Op::Put { key, value, expire_at } => text_fits(key) && blob_fits(value) && expire_at
            != Some(0u64),
        Op::Del { key } => text_fits(key),
        Op::Expire { key, at } => text_fits(key),
        Op::Persist { key } => text_fits(key),
        Op::Clear => true,
        Op::Push { key, value, front } => text_fits(key) && blob_fits(value),
        Op::Pop { key, front } => text_fits(key),
        Op::HSet { key, field, value } => text_fits(key) && text_fits(field) && blob_fits(value),
        Op::HDel { key, field } => text_fits(key) && text_fits(field),
        Op::SAdd { key, member } => text_fits(key) && blob_fits(member),
        Op::SRem { key, member } => text_fits(key) && blob_fits(member),
        Op::ZAdd { key, score, member } => text_fits(key) && blob_fits(member),
        Op::ZRem { key, member } => text_fits(key) && blob_fits(member),
    }
}

/// A text that was read takes as many bytes as were read.
proof fn text_read_len(p: Seq<u8>, pos: int)
    requires
        0 <= pos,
    ensures
        read_text(p, pos) matches Some((s, at)) ==> at == pos + text_blob(s).len() <= p.len()
            && text_fits(s),
{
    match read_blob(p, pos) {
        Some((b, at)) => if text_of(b) is Some {
            decode_utf8_encode_utf8(b);
        },
        None => {},
    }
}

/// A record is no longer than any bytes that read as its mutation, and its lengths fit.
pub proof fn record_is_shortest(p: Seq<u8>, op: Op)
    requires
        decode(p) == Some(op),
    ensures
        record(op).len() <= p.len(),
        op_fits(op),
{
    text_read_len(p, 1);
    match read_text(p, 1) {
        Some((key, at)) => text_read_len(p, at),
        None => {},
    }
}

/// A record of the bytes of an argument stands where the argument before it ends.
proof fn arg_stands(p: Seq<u8>, head: Seq<u8>, arg: Seq<u8>, tail: Seq<u8>)
    requires
        p == head + arg + tail,
    ensures
        head.len() + arg.len() <= p.len(),
        p.subrange(head.len() as int, (head.len() + arg.len()) as int) == arg,
{
    assert(p.subrange(head.len() as int, (head.len() + arg.len()) as int) =~= arg);
}

/// A record gives back the mutation that it was written for.
pub proof fn record_roundtrip(op: Op)
    requires
        op_fits(op),
    ensures
        decode(record(op)) == Some(op),
{
    let p = record(op);
    let e = Seq::<u8>::empty();
    match op {
        Op::Put { key, value, expire_at } => {
            key_reads_back(p, OP_SET, key, le64(expiry_field(expire_at)) + blob(value));
            let h = seq![OP_SET] + text_blob(key);
            let f = le64(expiry_field(expire_at));
            field_sizes(0, expiry_field(expire_at));
            assert(p =~= h + f + blob(value));
            arg_stands(p, h, f, blob(value));
            u64_reads_back(p, h.len() as int, expiry_field(expire_at));
            assert(p =~= (h + f) + blob(value) + e);
            arg_stands(p, h + f, blob(value), e);
            blob_reads_back(p, (h + f).len() as int, value);
        },
        Op::Del { key } => key_reads_back(p, OP_DEL, key, e),
        Op::Expire { key, at } => {
            key_reads_back(p, OP_EXPIRE, key, le64(at));
            let h = seq![OP_EXPIRE] + text_blob(key);
            field_sizes(0, at);
            assert(p =~= h + le64(at) + e);
            arg_stands(p, h, le64(at), e);
            u64_reads_back(p, h.len() as int, at);
        },
        Op::Persist { key } => key_reads_back(p, OP_PERSIST, key, e),
        Op::Clear => {},
        Op::Push { key, value, front } => key_blob_reads_back(p, push_code(front), key, value),
        Op::Pop { key, front } => key_reads_back(p, pop_code(front), key, e),
        Op::HSet { key, field, value } => {
            key_reads_back(p, OP_HSET, key, text_blob(field) + blob(value));
            let h = seq![OP_HSET] + text_blob(key);
            assert(p =~= h + text_blob(field) + blob(value));
            arg_stands(p, h, text_blob(field), blob(value));
            text_reads_back(p, h.len() as int, field);
            assert(p =~= (h + text_blob(field)) + blob(value) + e);
            arg_stands(p, h + text_blob(field), blob(value), e);
            blob_reads_back(p, (h + text_blob(field)).len() as int, value);
        },
        Op::HDel { key, field } => {
            key_reads_back(p, OP_HDEL, key, text_blob(field));
            let h = seq![OP_HDEL] + text_blob(key);
            assert(p =~= h + text_blob(field) + e);
            arg_stands(p, h, text_blob(field), e);
            text_reads_back(p, h.len() as int, field);
        },
        Op::SAdd { key, member } => key_blob_reads_back(p, OP_SADD, key, member),
        Op::SRem { key, member } => key_blob_reads_back(p, OP_SREM, key, member),
        Op::ZAdd { key, score, member } => {
            key_reads_back(p, OP_ZADD, key, le64(score) + blob(member));
            let h = seq![OP_ZADD] + text_blob(key);
            field_sizes(0, score);
            assert(p =~= h + le64(score) + blob(member));
            arg_stands(p, h, le64(score), blob(member));
            u64_reads_back(p, h.len() as int, score);
            assert(p =~= (h + le64(score)) + blob(member) + e);
            arg_stands(p, h + le64(score), blob(member), e);
            blob_reads_back(p, (h + le64(score)).len() as int, member);
        },
        Op::ZRem { key, member } => key_blob_reads_back(p, OP_ZREM, key, member),
    }
}

proof fn key_reads_back(p: Seq<u8>, code: u8, key: Seq<char>, tail: Seq<u8>)
    requires
        text_fits(key),
        p =~= seq![code] + text_blob(key) + tail,
    ensures
        p.len() > 0,
        p[0] == code,
        read_text(p, 1) == Some((key, (seq![code] + text_blob(key)).len() as int)),
{
    arg_stands(p, seq![code], text_blob(key), tail);
    text_reads_back(p, 1, key);
}

proof fn key_blob_reads_back(p: Seq<u8>, code: u8, key: Seq<char>, value: Seq<u8>)
    requires
        text_fits(key),
        blob_fits(value),
        p =~= seq![code] + text_blob(key) + blob(value),
    ensures
        p.len() > 0,
        p[0] == code,
        read_text(p, 1) == Some((key, (seq![code] + text_blob(key)).len() as int)),
        read_blob(p, (seq![code] + text_blob(key)).len() as int) == Some((value, p.len() as int)),
{
    let e = Seq::<u8>::empty();
    key_reads_back(p, code, key, blob(value));
    assert(p =~= (seq![code] + text_blob(key)) + blob(value) + e);
    arg_stands(p, seq![code] + text_blob(key), blob(value), e);
    blob_reads_back(p, (seq![code] + text_blob(key)).len() as int, value);
}

/// The record of a key and nothing else.
pub fn rec_key_only(op: u8, key: &str) -> (p: Vec<u8>)
    ensures
        p@ == seq![op] + text_blob(key@),
{
    let mut p: Vec<u8> = Vec::new();
    p.push(op);
    proof {
        assert(p@ =~= seq![op]);
    }
    put_bytes(&mut p, key.as_bytes());
    p
}

/// The record of giving a key plain bytes.
pub fn rec_set(key: &str, value: &[u8], expire_at: Option<u64>) -> (p: Vec<u8>)
    ensures
        p@ == record(Op::Put { key: key@, value: value@, expire_at }),
{
    let mut p = rec_key_only(OP_SET, key);
    let t: u64 = match expire_at {
        Some(t) => t,
        None => 0,
    };
    put_u64(&mut p, t);
    put_bytes(&mut p, value);
    p
}

/// The record of setting when a key expires.
pub fn rec_expire(key: &str, expire_at: u64) -> (p: Vec<u8>)
    ensures
        p@ == record(Op::Expire { key: key@, at: expire_at }),
{
    let mut p = rec_key_only(OP_EXPIRE, key);
    put_u64(&mut p, expire_at);
    p
}

/// The record of putting an element into a list.
pub fn rec_push(op: u8, key: &str, value: &[u8]) -> (p: Vec<u8>)
    ensures
        p@ == seq![op] + text_blob(key@) + blob(value@),
{
    let mut p = rec_key_only(op, key);
    put_bytes(&mut p, value);
    p
}

/// The record of taking every key out.
pub fn rec_clear() -> (p: Vec<u8>)
    ensures
        p@ == record(Op::Clear),
{
    let mut p: Vec<u8> = Vec::new();
    p.push(OP_CLEAR);
    proof {
        assert(p@ =~= seq![OP_CLEAR]);
    }
    p
}

/// The record of giving a field of a hash a value.
pub fn rec_hset(key: &str, field: &str, value: &[u8]) -> (p: Vec<u8>)
    ensures
        p@ == record(Op::HSet { key: key@, field: field@, value: value@ }),
{
    let mut p = rec_hdel(key, field);
    p.set(0, OP_HSET);
    put_bytes(&mut p, value);
    p
}

/// The record of taking a field out of a hash.
pub fn rec_hdel(key: &str, field: &str) -> (p: Vec<u8>)
    ensures
        p@ == record(Op::HDel { key: key@, field: field@ }),
{
    let mut p = rec_key_only(OP_HDEL, key);
    put_bytes(&mut p, field.as_bytes());
    p
}

/// The record of putting a member into a set, or taking one out.
pub fn rec_smember(op: u8, key: &str, member: &[u8]) -> (p: Vec<u8>)
    ensures
        p@ == seq![op] + text_blob(key@) + blob(member@),
{
    rec_push(op, key, member)
}

/// The record of giving a member of a sorted set a score.
pub fn rec_zadd(key: &str, score: OrderedF64, member: &[u8]) -> (p: Vec<u8>)
    ensures
        p@ == record(Op::ZAdd { key: key@, score: score@, member: member@ }),
{
    let mut p = rec_key_only(OP_ZADD, key);
    put_u64(&mut p, score.0);
    put_bytes(&mut p, member);
    p
}

/// The record of taking a member out of a sorted set.
pub fn rec_zrem(key: &str, member: &[u8]) -> (p: Vec<u8>)
    ensures
        p@ == record(Op::ZRem { key: key@, member: member@ }),
{
    rec_push(OP_ZREM, key, member)
}

/// A place in a record, from which its arguments are read one after the other.
pub struct Cursor<'a> {
    pub data: &'a [u8],
    pub pos: usize,
}

impl<'a> Cursor<'a> {
    /// Where the cursor stands after a blob that ran past the end: behind the length
    /// field, if there was one.
    pub open spec fn after_short(self) -> int {
        if self.pos + 4 <= self.data@.len() {
            self.pos + 4
        } else {
            self.pos as int
        }
    }

    /// A cursor at the first argument, behind the opcode.
    pub fn new(data: &'a [u8]) -> (c: Self)
        ensures
            c.data@ == data@,
            c.pos == 1,
    {
        Cursor { data, pos: 1 }
    }

    /// Whether `n` more bytes are there.
    fn has(&self, n: usize) -> (yes: bool)
        ensures
            yes == (self.pos + n <= self.data.len()),
    {
        self.pos <= self.data.len() && n <= self.data.len() - self.pos
    }

    /// Read a number of four bytes.
    pub fn u32(&mut self) -> (out: Option<u32>)
        ensures
            final(self).data == old(self).data,
            match read_u32(old(self).data@, old(self).pos as int) {
                Some((x, at)) => out == Some(x) && final(self).pos == at,
                None => out is None && final(self).pos == old(self).pos,
            },
    {
        if !self.has(4) {
            return None;
        }
        let v: u32 = u32_at(self.data, self.pos);
        self.pos += 4;
        Some(v)
    }

    /// Read a number of eight bytes.
    pub fn u64(&mut self) -> (out: Option<u64>)
        ensures
            final(self).data == old(self).data,
            match read_u64(old(self).data@, old(self).pos as int) {
                Some((x, at)) => out == Some(x) && final(self).pos == at,
                None => out is None && final(self).pos == old(self).pos,
            },
    {
        if !self.has(8) {
            return None;
        }
        let v: u64 = u64_at(self.data, self.pos);
        self.pos += 8;
        Some(v)
    }

    /// Read a score.
    pub fn score(&mut self) -> (out: Option<OrderedF64>)
        ensures
            final(self).data == old(self).data,
            match read_u64(old(self).data@, old(self).pos as int) {
                Some((x, at)) => out == Some(OrderedF64(x)) && final(self).pos == at,
                None => out is None && final(self).pos == old(self).pos,
            },
    {
        match self.u64() {
            Some(x) => Some(OrderedF64(x)),
            None => None,
        }
    }

    /// Read a blob.
    pub fn bytes(&mut self) -> (out: Option<&'a [u8]>)
        ensures
            final(self).data == old(self).data,
            match read_blob(old(self).data@, old(self).pos as int) {
                Some((b, at)) => out is Some && out.unwrap()@ == b && final(self).pos == at,
                None => out is None && final(self).pos == old(self).after_short(),
            },
    {
        let len: usize = match self.u32() {
            Some(n) => n as usize,
            None => return None,
        };
        if !self.has(len) {
            return None;
        }
        let out = &self.data[self.pos..self.pos + len];
        self.pos += len;
        Some(out)
    }

    /// Read a text.
    pub fn string(&mut self) -> (out: Option<String>)
        ensures
            final(self).data == old(self).data,
            match read_text(old(self).data@, old(self).pos as int) {
                Some((s, at)) => out is Some && out.unwrap()@ == s && final(self).pos == at,
                None => out is None && final(self).pos == (match read_blob(
                    old(self).data@,
                    old(self).pos as int,
                ) {
                    Some((b, at)) => at,
                    None => old(self).after_short(),
                }),
            },
    {
        match self.bytes() {
            Some(b) => {
                let copy = copy_range(b, 0, b.len());
                proof {
                    assert(copy@ =~= b@);
                }
                decode_text(copy)
            },
            None => None,
        }
    }
}

} // verus!
