//! The append-only log: self-checked frames, and what is owed to the log file.
//!
//! A frame is `[len: u32][crc32: u32][payload: len bytes]`, in little-endian order;
//! the checksum covers the payload. A frame whose length runs past the end of the
//! log, or whose checksum does not match, is a torn tail: reading stops there, and
//! the log is cut back to the last intact frame.
//!
//! The log file itself is the caller's. A store holds what is owed to it as a
//! `LogWrite`, which the caller takes and carries out after each operation.

use vstd::prelude::*;
use crate::bytes::{
    copy_range, field_of_number, field_sizes, le32, put_all, put_u32, read_u32, u32_at,
    u32_reads_back,
};
use crate::crc::{crc32, crc_of, one_changed_byte_changes_crc};
use crate::ranges::views;

verus! {

/// The bytes of a frame.
pub open spec fn frame(payload: Seq<u8>) -> Seq<u8> {
    le32(payload.len() as u32) + le32(crc_of(payload)) + payload
}

/// The bytes of several frames, one after the other.
pub open spec fn frames(payloads: Seq<Seq<u8>>) -> Seq<u8>
    decreases payloads.len(),
{
    if payloads.len() == 0 {
        Seq::empty()
    } else {
        frames(payloads.drop_last()) + frame(payloads.last())
    }
}

/// The payload of the intact frame at `pos`, and where the frame ends.
pub open spec fn read_frame(d: Seq<u8>, pos: int) -> Option<(Seq<u8>, int)> {
    match read_u32(d, pos) {
        Some((len, at)) => match read_u32(d, at) {
            Some((crc, start)) => if start + len <= d.len() && crc_of(
                d.subrange(start, start + len),
            ) == crc {
                Some((d.subrange(start, start + len), start + len))
            } else {
                None
            },
            None => None,
        },
        None => None,
    }
}

/// The payloads of the intact frames from `pos` on, and where the first damaged one
/// stands, if there is one.
pub open spec fn records_from(d: Seq<u8>, pos: int) -> (Seq<Seq<u8>>, Option<int>)
    decreases d.len() - pos,
{
    if pos >= d.len() {
        (Seq::empty(), None)
    } else {
        match read_frame(d, pos) {
            Some((payload, next)) => {
                let (rest, damaged) = records_from(d, next);
                (seq![payload] + rest, damaged)
            },
            None => (Seq::empty(), Some(pos)),
        }
    }
}

/// Append a frame to a buffer.
pub fn put_frame(buf: &mut Vec<u8>, payload: &[u8])
    ensures
        final(buf)@ == old(buf)@ + frame(payload@),
{
    let ghost was = buf@;
    put_u32(buf, payload.len() as u32);
    put_u32(buf, crc32(payload));
    put_all(buf, payload);
    proof {
        assert(buf@ =~= was + frame(payload@));
    }
}

/// Append several frames to a buffer.
pub fn put_frames(buf: &mut Vec<u8>, payloads: &Vec<Vec<u8>>)
    ensures
        final(buf)@ == old(buf)@ + frames(views(payloads@)),
{
    let ghost was = buf@;
    let mut i: usize = 0;
    proof {
        assert(buf@ =~= was + frames(views(payloads@).take(0)));
    }
    while i < payloads.len()
        invariant
            i <= payloads@.len(),
            buf@ == was + frames(views(payloads@).take(i as int)),
        decreases payloads@.len() - i,
    {
        put_frame(buf, payloads[i].as_slice());
        proof {
            let s = views(payloads@);
            assert(s.take(i + 1).drop_last() =~= s.take(i as int));
            assert(s.take(i + 1).last() == payloads@[i as int]@);
            assert(buf@ =~= was + frames(s.take(i + 1)));
        }
        i += 1;
    }
    proof {
        assert(views(payloads@).take(i as int) =~= views(payloads@));
    }
}

/// Read every intact record of a log: the records, and the offset of the first
/// damaged frame, if there is one.
pub fn read_records(data: &[u8]) -> (out: (Vec<Vec<u8>>, Option<u64>))
    ensures
        views(out.0@) == records_from(data@, 0).0,
        out.1 is Some == records_from(data@, 0).1 is Some,
        out.1 matches Some(at) ==> records_from(data@, 0).1 == Some(at as int),
{
    let mut out: Vec<Vec<u8>> = Vec::new();
    let mut pos: usize = 0;
    let ghost all = records_from(data@, 0);
    proof {
        assert(all.0 =~= views(out@) + all.0);
    }
    while pos < data.len()
        invariant
            pos <= data.len(),
            all == records_from(data@, 0),
            all.0 == views(out@) + records_from(data@, pos as int).0,
            all.1 == records_from(data@, pos as int).1,
        decreases data.len() - pos,
    {
        if data.len() - pos < 8 {
            proof {
                assert(all.0 =~= views(out@));
            }
            return (out, Some(pos as u64));
        }
        let len: usize = u32_at(data, pos) as usize;
        let crc: u32 = u32_at(data, pos + 4);
        let start: usize = pos + 8;
        if len > data.len() - start {
            proof {
                assert(all.0 =~= views(out@));
            }
            return (out, Some(pos as u64));
        }
        let payload = copy_range(data, start, start + len);
        if crc32(payload.as_slice()) != crc {
            proof {
                assert(all.0 =~= views(out@));
            }
            return (out, Some(pos as u64));
        }
        let ghost was = out@;
        out.push(payload);
        proof {
            assert(views(out@) =~= views(was).push(payload@));
            assert(read_frame(data@, pos as int) == Some((payload@, start + len)));
            let rest = records_from(data@, start + len).0;
            assert(records_from(data@, pos as int).0 == seq![payload@] + rest);
            assert(views(was) + (seq![payload@] + rest) =~= views(out@) + rest);
        }
        pos = start + len;
    }
    proof {
        assert(all.0 =~= views(out@));
    }
    (out, None)
}

/// How much of the log file stays where a write begins.
#[derive(Clone, Copy, Debug, PartialEq, Eq, Structural)]
pub enum LogBase {
    /// All of it.
    Whole,
    /// Its first bytes, as many as said.
    Prefix(u64),
    /// None of it: the file is replaced.
    Nothing,
}

/// What is owed to the log file: what stays of it, the bytes that follow, and whether
/// the file must then be forced to the disk.
pub struct LogWrite {
    pub base: LogBase,
    pub bytes: Vec<u8>,
    pub sync: bool,
}

/// The model of what is owed to the log file.
#[verifier::ext_equal]
pub struct LogWriteView {
    pub base: LogBase,
    pub bytes: Seq<u8>,
    pub sync: bool,
}

impl View for LogWrite {
    type V = LogWriteView;

    open spec fn view(&self) -> LogWriteView {
        LogWriteView { base: self.base, bytes: self.bytes@, sync: self.sync }
    }
}

impl LogWriteView {
    /// Nothing is owed.
    pub open spec fn none() -> LogWriteView {
        LogWriteView { base: LogBase::Whole, bytes: Seq::empty(), sync: false }
    }

    /// Some more bytes are owed, to be forced to the disk if `sync` says so.
    pub open spec fn and(self, bytes: Seq<u8>, sync: bool) -> LogWriteView {
        LogWriteView { base: self.base, bytes: self.bytes + bytes, sync: self.sync || sync }
    }

    /// What the log file holds once the write has been carried out on it.
    pub open spec fn applied(self, disk: Seq<u8>) -> Seq<u8> {
        match self.base {
            LogBase::Whole => disk + self.bytes,
            LogBase::Prefix(n) => disk.take(n as int) + self.bytes,
            LogBase::Nothing => self.bytes,
        }
    }
}

impl LogWrite {
    /// Nothing is owed.
    pub fn none() -> (w: Self)
        ensures
            w@ == LogWriteView::none(),
    {
        let w = LogWrite { base: LogBase::Whole, bytes: Vec::new(), sync: false };
        proof {
            assert(w@ =~= LogWriteView::none());
        }
        w
    }

    /// Whether nothing is owed.
    pub fn is_none(&self) -> (yes: bool)
        ensures
            yes == (self@ == LogWriteView::none()),
    {
        let yes = self.base == LogBase::Whole && self.bytes.len() == 0 && !self.sync;
        proof {
            if yes {
                assert(self@ =~= LogWriteView::none());
            }
        }
        yes
    }
}

/// An attached log: whether every write is forced to the disk, and how many bytes
/// the log has.
#[derive(Clone, Copy, Debug, PartialEq, Eq, Structural)]
pub struct Aof {
    pub fsync: bool,
    pub size: u64,
}

impl Aof {
    /// The log with `n` more bytes; the count stops at the largest number.
    pub open spec fn grown(self, n: nat) -> Aof {
        Aof {
            fsync: self.fsync,
            size: if self.size + n <= u64::MAX {
                (self.size + n) as u64
            } else {
                u64::MAX
            },
        }
    }

    /// Owe a record to the log.
    pub fn append(&mut self, owed: &mut LogWrite, payload: &[u8])
        ensures
            *final(self) == old(self).grown(frame(payload@).len()),
            final(owed)@ == old(owed)@.and(frame(payload@), old(self).fsync),
    {
        let before: usize = owed.bytes.len();
        let ghost was = owed@;
        put_frame(&mut owed.bytes, payload);
        owed.sync = owed.sync || self.fsync;
        let after: usize = owed.bytes.len();
        self.size = self.size.saturating_add((after - before) as u64);
        proof {
            assert(owed@ =~= was.and(frame(payload@), self.fsync));
        }
    }

    /// Owe several records to the log, in one write.
    pub fn append_batch(&mut self, owed: &mut LogWrite, payloads: &Vec<Vec<u8>>)
        ensures
            *final(self) == old(self).grown(frames(views(payloads@)).len()),
            final(owed)@ == old(owed)@.and(
                frames(views(payloads@)),
                old(self).fsync && payloads@.len() > 0,
            ),
    {
        let before: usize = owed.bytes.len();
        let ghost was = owed@;
        put_frames(&mut owed.bytes, payloads);
        owed.sync = owed.sync || (self.fsync && payloads.len() > 0);
        let after: usize = owed.bytes.len();
        self.size = self.size.saturating_add((after - before) as u64);
        proof {
            assert(owed@ =~= was.and(
                frames(views(payloads@)),
                self.fsync && payloads@.len() > 0,
            ));
        }
    }

    /// Owe the log its replacement by the given records.
    pub fn rewrite(&mut self, owed: &mut LogWrite, records: &Vec<Vec<u8>>)
        ensures
            *final(self) == (Aof {
                fsync: old(self).fsync,
                size: frames(views(records@)).len() as u64,
            }),
            frames(views(records@)).len() <= u64::MAX,
            final(owed)@ == (LogWriteView {
                base: LogBase::Nothing,
                bytes: frames(views(records@)),
                sync: true,
            }),
    {
        let mut bytes: Vec<u8> = Vec::new();
        put_frames(&mut bytes, records);
        self.size = bytes.len() as u64;
        proof {
            assert(bytes@ =~= frames(views(records@)));
        }
        *owed = LogWrite { base: LogBase::Nothing, bytes, sync: true };
    }
}

/// The frames of one record are its frame.
pub proof fn frames_one(payload: Seq<u8>)
    ensures
        frames(seq![payload]) == frame(payload),
{
    reveal_with_fuel(frames, 2);
    assert(seq![payload].drop_last() =~= Seq::<Seq<u8>>::empty());
    assert(Seq::<u8>::empty() + frame(payload) =~= frame(payload));
}

/// The frames of two runs of records are those of the one behind those of the other.
pub proof fn frames_join(a: Seq<Seq<u8>>, b: Seq<Seq<u8>>)
    ensures
        frames(a + b) == frames(a) + frames(b),
    decreases b.len(),
{
    if b.len() == 0 {
        assert(a + b =~= a);
        assert(frames(a) + frames(b) =~= frames(a));
    } else {
        assert((a + b).drop_last() =~= a + b.drop_last());
        frames_join(a, b.drop_last());
        assert((frames(a) + frames(b.drop_last())) + frame(b.last()) =~= frames(a) + (frames(
            b.drop_last(),
        ) + frame(b.last())));
    }
}

/// Whether every record is short enough for its length field.
pub open spec fn records_fit(payloads: Seq<Seq<u8>>) -> bool {
    forall|i: int| 0 <= i < payloads.len() ==> (#[trigger] payloads[i]).len() <= u32::MAX
}

/// The offset of the first damaged frame, counted from `by` bytes further ahead.
pub open spec fn shifted(damaged: Option<int>, by: int) -> Option<int> {
    match damaged {
        Some(at) => Some(by + at),
        None => None,
    }
}

/// What a frame reads as does not depend on what stands before it.
proof fn read_frame_shift(a: Seq<u8>, d: Seq<u8>, pos: int)
    requires
        0 <= pos,
    ensures
        read_frame(a + d, a.len() + pos) == (match read_frame(d, pos) {
            Some((payload, next)) => Some((payload, a.len() + next)),
            None => None,
        }),
{
    let t = a + d;
    let n = a.len() as int;
    if pos + 4 <= d.len() {
        assert(t.subrange(n + pos, n + pos + 4) =~= d.subrange(pos, pos + 4));
        if pos + 8 <= d.len() {
            assert(t.subrange(n + pos + 4, n + pos + 8) =~= d.subrange(pos + 4, pos + 8));
            let len = read_u32(d, pos).unwrap().0 as int;
            if pos + 8 + len <= d.len() {
                assert(t.subrange(n + pos + 8, n + pos + 8 + len) =~= d.subrange(
                    pos + 8,
                    pos + 8 + len,
                ));
            }
        }
    }
}

/// What a log reads as from a place on does not depend on what stands before it.
proof fn records_shift(a: Seq<u8>, d: Seq<u8>, pos: int)
    requires
        0 <= pos,
    ensures
        records_from(a + d, a.len() + pos).0 == records_from(d, pos).0,
        records_from(a + d, a.len() + pos).1 == shifted(
            records_from(d, pos).1,
            a.len() as int,
        ),
    decreases d.len() - pos,
{
    if pos < d.len() {
        read_frame_shift(a, d, pos);
        match read_frame(d, pos) {
            Some((payload, next)) => records_shift(a, d, next),
            None => {},
        }
    }
}

/// A frame at the start of a log reads as its payload.
proof fn frame_reads_back(payload: Seq<u8>, tail: Seq<u8>)
    requires
        payload.len() <= u32::MAX,
    ensures
        read_frame(frame(payload) + tail, 0) == Some((payload, frame(payload).len() as int)),
        frame(payload).len() == 8 + payload.len(),
{
    let d = frame(payload) + tail;
    let len = payload.len() as u32;
    field_sizes(len, 0);
    field_sizes(crc_of(payload), 0);
    assert(d.subrange(0, 4) =~= le32(len));
    u32_reads_back(d, 0, len);
    assert(d.subrange(4, 8) =~= le32(crc_of(payload)));
    u32_reads_back(d, 4, crc_of(payload));
    assert(d.subrange(8, 8 + payload.len() as int) =~= payload);
}

/// Records written one after the other are read back in that order, and then comes
/// what the bytes behind them read as.
#[verifier::rlimit(40)]
#[verifier::spinoff_prover]
pub proof fn frames_read_back(payloads: Seq<Seq<u8>>, tail: Seq<u8>)
    requires
        records_fit(payloads),
    ensures
        records_from(frames(payloads) + tail, 0).0 == payloads + records_from(tail, 0).0,
        records_from(frames(payloads) + tail, 0).1 == shifted(
            records_from(tail, 0).1,
            frames(payloads).len() as int,
        ),
    decreases payloads.len(),
{
    if payloads.len() == 0 {
        assert(frames(payloads) + tail =~= tail);
        assert(payloads + records_from(tail, 0).0 =~= records_from(tail, 0).0);
    } else {
        let init = payloads.drop_last();
        let last = payloads.last();
        let rest = frame(last) + tail;
        assert(records_fit(init)) by {
            assert forall|i: int| 0 <= i < init.len() implies (#[trigger] init[i]).len()
                <= u32::MAX by {
                assert(init[i] == payloads[i]);
            }
        }
        frames_read_back(init, rest);
        assert(frames(init) + rest =~= frames(payloads) + tail);
        frame_reads_back(last, tail);
        records_shift(frame(last), tail, 0);
        assert(records_from(rest, 0).0 == seq![last] + records_from(tail, 0).0);
        assert(init + (seq![last] + records_from(tail, 0).0) =~= payloads + records_from(
            tail,
            0,
        ).0);
    }
}

/// A log of intact records reads back as those records, with no damage.
pub proof fn log_roundtrip(payloads: Seq<Seq<u8>>)
    requires
        records_fit(payloads),
    ensures
        records_from(frames(payloads), 0) == (payloads, None::<int>),
{
    let e = Seq::<u8>::empty();
    frames_read_back(payloads, e);
    assert(frames(payloads) + e =~= frames(payloads));
    assert(payloads + records_from(e, 0).0 =~= payloads);
}

/// A damaged tail stands inside the log, and the part before it reads the same
/// without it, with no damage.
pub proof fn cut_log_is_clean(d: Seq<u8>)
    requires
        records_from(d, 0).1 is Some,
    ensures
        0 <= records_from(d, 0).1.unwrap() < d.len(),
        records_from(d.take(records_from(d, 0).1.unwrap()), 0) == (
            records_from(d, 0).0,
            None::<int>,
        ),
{
    cut_from(d, 0);
}

proof fn cut_from(d: Seq<u8>, pos: int)
    requires
        0 <= pos,
        records_from(d, pos).1 is Some,
    ensures
        pos <= records_from(d, pos).1.unwrap() < d.len(),
        records_from(d.take(records_from(d, pos).1.unwrap()), pos) == (
            records_from(d, pos).0,
            None::<int>,
        ),
    decreases d.len() - pos,
{
    let cut = records_from(d, pos).1.unwrap();
    match read_frame(d, pos) {
        Some((payload, next)) => {
            cut_from(d, next);
            let t = d.take(cut);
            assert(t.subrange(pos, pos + 4) =~= d.subrange(pos, pos + 4));
            assert(t.subrange(pos + 4, pos + 8) =~= d.subrange(pos + 4, pos + 8));
            assert(t.subrange(pos + 8, next) =~= d.subrange(pos + 8, next));
            assert(read_frame(t, pos) == Some((payload, next)));
        },
        None => {},
    }
}

/// A frame cut short does not read as an intact one.
proof fn cut_frame_is_damaged(payload: Seq<u8>, n: int)
    requires
        payload.len() <= u32::MAX,
        0 <= n < frame(payload).len(),
    ensures
        read_frame(frame(payload).take(n), 0) is None,
{
    let d = frame(payload).take(n);
    let len = payload.len() as u32;
    field_sizes(len, 0);
    field_sizes(crc_of(payload), 0);
    if n >= 4 {
        assert(d.subrange(0, 4) =~= le32(len));
        u32_reads_back(d, 0, len);
    }
}

/// A crash in the middle of a write loses no record that had reached the log whole:
/// of a log cut at any byte, exactly the records that lie whole before the cut are
/// read back, and damage is reported where the cut runs through a frame.
pub proof fn torn_log_keeps_whole_records(payloads: Seq<Seq<u8>>, n: int, k: int)
    requires
        records_fit(payloads),
        0 <= k <= payloads.len(),
        frames(payloads.take(k)).len() <= n <= frames(payloads).len(),
        k < payloads.len() ==> n < frames(payloads.take(k + 1)).len(),
    ensures
        records_from(frames(payloads).take(n), 0).0 == payloads.take(k),
        records_from(frames(payloads).take(n), 0).1 == (if n == frames(payloads.take(k)).len() {
            None
        } else {
            Some(frames(payloads.take(k)).len() as int)
        }),
{
    let head = payloads.take(k);
    let m = frames(head).len() as int;
    let rest = payloads.skip(k);
    frames_join(head, rest);
    assert(head + rest =~= payloads);
    assert(records_fit(head)) by {
        assert forall|i: int| 0 <= i < head.len() implies (#[trigger] head[i]).len()
            <= u32::MAX by {
            assert(head[i] == payloads[i]);
        }
    }
    if k == payloads.len() {
        assert(head =~= payloads);
        assert(frames(payloads).take(n) =~= frames(payloads));
        log_roundtrip(payloads);
    } else {
        let next = payloads[k];
        assert(payloads.take(k + 1) =~= head.push(next));
        assert(head.push(next).drop_last() =~= head);
        let more = payloads.skip(k + 1);
        assert(rest =~= seq![next] + more);
        frames_join(seq![next], more);
        frames_one(next);
        let tail = frame(next).take(n - m);
        assert(frames(payloads).take(n) =~= frames(head) + tail);
        frames_read_back(head, tail);
        if n > m {
            cut_frame_is_damaged(next, n - m);
        }
        assert(records_from(tail, 0).0 =~= Seq::<Seq<u8>>::empty());
        assert(head + records_from(tail, 0).0 =~= head);
    }
}

/// A changed byte in the checksum or in the payload of a record is found: the records
/// before it are read back, and damage is reported at its frame.
pub proof fn changed_byte_is_found(payloads: Seq<Seq<u8>>, k: int, at: int, b: u8)
    requires
        records_fit(payloads),
        0 <= k < payloads.len(),
        4 <= at < frame(payloads[k]).len(),
        b != frame(payloads[k])[at],
    ensures
        ({
            let start = frames(payloads.take(k)).len();
            records_from(frames(payloads).update(start + at, b), 0) == (
                payloads.take(k),
                Some(start as int),
            )
        }),
{
    let head = payloads.take(k);
    let m = frames(head).len() as int;
    let hit = payloads[k];
    let more = payloads.skip(k + 1);
    assert(payloads =~= head + (seq![hit] + more));
    frames_join(head, seq![hit] + more);
    frames_join(seq![hit], more);
    frames_one(hit);
    let tail = frame(hit).update(at, b) + frames(more);
    assert(frames(payloads).update(m + at, b) =~= frames(head) + tail);
    assert(records_fit(head)) by {
        assert forall|i: int| 0 <= i < head.len() implies (#[trigger] head[i]).len()
            <= u32::MAX by {
            assert(head[i] == payloads[i]);
        }
    }
    frames_read_back(head, tail);
    changed_frame_is_damaged(hit, at, b, frames(more));
    assert(records_from(tail, 0).0 =~= Seq::<Seq<u8>>::empty());
    assert(head + records_from(tail, 0).0 =~= head);
}

proof fn changed_frame_is_damaged(payload: Seq<u8>, at: int, b: u8, tail: Seq<u8>)
    requires
        payload.len() <= u32::MAX,
        4 <= at < frame(payload).len(),
        b != frame(payload)[at],
    ensures
        read_frame(frame(payload).update(at, b) + tail, 0) is None,
{
    let d = frame(payload).update(at, b) + tail;
    let len = payload.len() as u32;
    let crc = crc_of(payload);
    field_sizes(len, 0);
    field_sizes(crc, 0);
    assert(d.subrange(0, 4) =~= le32(len));
    u32_reads_back(d, 0, len);
    let body = d.subrange(8, 8 + payload.len() as int);
    if at < 8 {
        assert(body =~= payload);
        let field = d.subrange(4, 8);
        assert(field =~= le32(crc).update(at - 4, b));
        assert(field[at - 4] != le32(crc)[at - 4]);
        field_of_number(field);
    } else {
        assert(d.subrange(4, 8) =~= le32(crc));
        u32_reads_back(d, 4, crc);
        assert(body =~= payload.update(at - 8, b));
        assert(payload[at - 8] == frame(payload)[at]);
        one_changed_byte_changes_crc(payload, at - 8, b);
    }
}

} // verus!
