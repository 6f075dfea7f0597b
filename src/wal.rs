//! The write-ahead log: a buffer of pending records drained in groups as
//! framed bytes, and replay of a log file up to its first torn frame.
//!
//! File: magic `WAL2`, then frames `len (4) | body (len) | crc32(body) (4)`.
//! Body: `seq (8) | kind (1) | klen (4) | key | [vlen (4) | value]`, the value
//! part only for `SET`.
use crate::block::RT_SET;
use crate::codec::{append_bytes, bytes_eq_range, copy_range, get32, get64, le32, le64, push32, push64, read32, read64};
use crate::errors::{decimal_string, AntlerError};
use crate::hash::{crc32, crc32_of};
use vstd::prelude::*;

verus! {

/// Pending records beyond which the writer syncs at once.
pub const SYNC_THRESHOLD: usize = 100;

/// The magic `WAL2`.
pub open spec fn wal_magic() -> Seq<u8> {
    seq![87u8, 65u8, 76u8, 50u8]
}

fn wal_magic_bytes() -> (r: Vec<u8>)
    ensures
        r@ == wal_magic(),
{
    let r = vec![87u8, 65u8, 76u8, 50u8];
    assert(r@ == wal_magic());
    r
}

/// A logged mutation.
pub struct WalRecord {
    pub seq: u64,
    pub kind: u8,
    pub key: Seq<u8>,
    pub value: Option<Seq<u8>>,
}

/// One record of the log.
pub struct WALEntry {
    pub seq: u64,
    pub kind: u8,
    pub key: Vec<u8>,
    pub value: Option<Vec<u8>>,
}

impl WALEntry {
    pub open spec fn view(&self) -> WalRecord {
        WalRecord {
            seq: self.seq,
            kind: self.kind,
            key: self.key@,
            value: match self.value {
                Some(v) => Some(v@),
                None => None,
            },
        }
    }
}

pub open spec fn wal_view(v: Seq<WALEntry>) -> Seq<WalRecord> {
    v.map_values(|e: WALEntry| e.view())
}

/// The body bytes of a record.
pub open spec fn encode_body(r: WalRecord) -> Seq<u8> {
    le64(r.seq) + seq![r.kind] + le32(r.key.len() as u32) + r.key + match r.value {
        Some(v) => le32(v.len() as u32) + v,
        None => seq![],
    }
}

/// The frame of a record: length, body, checksum.
pub open spec fn encode_frame(r: WalRecord) -> Seq<u8> {
    le32(encode_body(r).len() as u32) + encode_body(r) + le32(crc32_of(encode_body(r)))
}

/// The frames of a run of records, in order.
pub open spec fn encode_frames(rs: Seq<WalRecord>) -> Seq<u8>
    decreases rs.len(),
{
    if rs.len() == 0 {
        seq![]
    } else {
        encode_frame(rs[0]) + encode_frames(rs.drop_first())
    }
}

/// The bodies of the whole frames with a good checksum, from the front; the
/// first short or damaged frame ends the log.
pub open spec fn parse_frames(b: Seq<u8>) -> Seq<Seq<u8>>
    decreases b.len(),
{
    if b.len() < 4 {
        seq![]
    } else {
        let len = get32(b, 0) as int;
        if 8 + len > b.len() {
            seq![]
        } else if get32(b, 4 + len) != crc32_of(b.subrange(4, 4 + len)) {
            seq![]
        } else {
            seq![b.subrange(4, 4 + len)] + parse_frames(b.subrange(8 + len, b.len() as int))
        }
    }
}

/// The frame bodies of a log file; a file without the magic is empty.
pub open spec fn wal_bodies(b: Seq<u8>) -> Seq<Seq<u8>> {
    if b.len() >= 4 && b.subrange(0, 4) == wal_magic() {
        parse_frames(b.skip(4))
    } else {
        seq![]
    }
}

/// The record a body holds; a body too short for its key holds none, and a
/// `SET` whose value is cut short keeps no value.
#[verifier::opaque]
pub open spec fn decode_body(b: Seq<u8>) -> Option<WalRecord> {
    if b.len() < 13 {
        None
    } else {
        let klen = get32(b, 9) as int;
        if b.len() < 13 + klen {
            None
        } else {
            let value = if b[8] == RT_SET && b.len() >= 17 + klen {
                let vlen = get32(b, 13 + klen) as int;
                if b.len() >= 17 + klen + vlen {
                    Some(b.subrange(17 + klen, 17 + klen + vlen))
                } else {
                    None
                }
            } else {
                None
            };
            Some(WalRecord { seq: get64(b, 0), kind: b[8], key: b.subrange(13, 13 + klen), value })
        }
    }
}

/// The records that a run of bodies holds, in order.
pub open spec fn decode_bodies(bs: Seq<Seq<u8>>) -> Seq<WalRecord>
    decreases bs.len(),
{
    if bs.len() == 0 {
        seq![]
    } else {
        match decode_body(bs[0]) {
            Some(r) => seq![r] + decode_bodies(bs.drop_first()),
            None => decode_bodies(bs.drop_first()),
        }
    }
}

/// The records that replaying the log file `b` yields.
pub open spec fn replayed(b: Seq<u8>) -> Seq<WalRecord> {
    decode_bodies(wal_bodies(b))
}

/// Whether a whole frame starts at `p`.
pub open spec fn whole_frame_at(b: Seq<u8>, p: int) -> bool {
    0 <= p && p + 8 <= b.len() && p + 8 + get32(b, p) <= b.len()
}

/// Whether a whole frame with a matching checksum starts at `p`.
pub open spec fn good_frame_at(b: Seq<u8>, p: int) -> bool {
    whole_frame_at(b, p) && get32(b, p + 4 + get32(b, p)) == crc32_of(
        b.subrange(p + 4, p + 4 + get32(b, p)),
    )
}

/// Where replay from `p` stops: the first position that holds no good frame.
pub open spec fn stop_from(b: Seq<u8>, p: int) -> int
    decreases b.len() - p,
{
    if good_frame_at(b, p) {
        stop_from(b, p + 8 + get32(b, p))
    } else {
        p
    }
}

/// A log whose replay stops at a whole frame with a bad checksum that an
/// intact frame follows: damage in the middle, not a torn tail.
pub open spec fn wal_corrupted(b: Seq<u8>) -> bool {
    &&& b.len() >= 4
    &&& b.subrange(0, 4) == wal_magic()
    &&& whole_frame_at(b, stop_from(b, 4))
    &&& good_frame_at(b, stop_from(b, 4) + 8 + get32(b, stop_from(b, 4)))
}

/// A record as the store writes it: a value exactly for `SET`, lengths that fit the fields.
pub open spec fn loggable(r: WalRecord) -> bool {
    &&& (r.kind == RT_SET) == (r.value is Some)
    &&& r.key.len() <= 0xffff_0000
    &&& match r.value {
        Some(v) => v.len() <= 0xffff_0000 && r.key.len() + v.len() <= 0xffff_0000,
        None => true,
    }
}

proof fn lemma_body_len(r: WalRecord)
    requires
        loggable(r),
    ensures
        encode_body(r).len() == 13 + r.key.len() + match r.value {
            Some(v) => 4 + v.len(),
            None => 0,
        },
{
    crate::codec::lemma_le64(r.seq);
    crate::codec::lemma_le32(r.key.len() as u32);
    match r.value {
        Some(v) => crate::codec::lemma_le32(v.len() as u32),
        None => {},
    }
}

/// Decoding the body of a record gives the record back.
pub proof fn lemma_decode_body(r: WalRecord)
    requires
        loggable(r),
    ensures
        decode_body(encode_body(r)) == Some(r),
{
    let b = encode_body(r);
    let klen = r.key.len() as int;
    reveal(decode_body);
    lemma_body_len(r);
    crate::codec::lemma_le64(r.seq);
    crate::codec::lemma_le32(r.key.len() as u32);
    assert(b.subrange(0, 8) == le64(r.seq));
    crate::codec::lemma_get64_at(b, 0, r.seq);
    assert(b.subrange(9, 13) == le32(r.key.len() as u32));
    crate::codec::lemma_get32_at(b, 9, r.key.len() as u32);
    assert(b[8] == r.kind);
    assert(b.subrange(13, 13 + klen) == r.key);
    match r.value {
        Some(v) => {
            crate::codec::lemma_le32(v.len() as u32);
            assert(b.subrange(13 + klen, 17 + klen) == le32(v.len() as u32));
            crate::codec::lemma_get32_at(b, 13 + klen, v.len() as u32);
            assert(b.subrange(17 + klen, 17 + klen + v.len()) == v);
        },
        None => {},
    }
}

/// Parsing a frame followed by more bytes gives its body, then the rest.
proof fn lemma_parse_frame(r: WalRecord, rest: Seq<u8>)
    requires
        loggable(r),
    ensures
        parse_frames(encode_frame(r) + rest) == seq![encode_body(r)] + parse_frames(rest),
{
    let body = encode_body(r);
    let b = encode_frame(r) + rest;
    lemma_body_len(r);
    let len = body.len() as int;
    crate::codec::lemma_le32(len as u32);
    crate::codec::lemma_le32(crc32_of(body));
    assert(b.subrange(0, 4) == le32(len as u32));
    crate::codec::lemma_get32_at(b, 0, len as u32);
    assert(b.subrange(4, 4 + len) == body);
    assert(b.subrange(4 + len, 8 + len) == le32(crc32_of(body)));
    crate::codec::lemma_get32_at(b, 4 + len, crc32_of(body));
    assert(b.subrange(8 + len, b.len() as int) == rest);
}

/// A proper prefix of a frame parses to nothing.
proof fn lemma_parse_torn(r: WalRecord, t: Seq<u8>)
    requires
        loggable(r),
        t.len() < encode_frame(r).len(),
        t == encode_frame(r).subrange(0, t.len() as int),
    ensures
        parse_frames(t) == Seq::<Seq<u8>>::empty(),
{
    let body = encode_body(r);
    lemma_body_len(r);
    crate::codec::lemma_le32(body.len() as u32);
    crate::codec::lemma_le32(crc32_of(body));
    if t.len() >= 4 {
        assert(t.subrange(0, 4) == le32(body.len() as u32));
        crate::codec::lemma_get32_at(t, 0, body.len() as u32);
    }
}

proof fn lemma_frames_from(rs: Seq<WalRecord>, tail: Seq<u8>)
    requires
        forall|i: int| 0 <= i < rs.len() ==> loggable(#[trigger] rs[i]),
    ensures
        decode_bodies(parse_frames(encode_frames(rs) + tail)) == rs + decode_bodies(parse_frames(tail)),
    decreases rs.len(),
{
    if rs.len() == 0 {
        assert(encode_frames(rs) + tail == tail);
    } else {
        let rest = rs.drop_first();
        assert(loggable(rs[0]));
        assert forall|i: int| 0 <= i < rest.len() implies loggable(#[trigger] rest[i]) by {
            assert(rest[i] == rs[i + 1]);
        }
        lemma_frames_from(rest, tail);
        assert(encode_frames(rs) + tail == encode_frame(rs[0]) + (encode_frames(rest) + tail));
        lemma_parse_frame(rs[0], encode_frames(rest) + tail);
        lemma_decode_body(rs[0]);
        let ps = seq![encode_body(rs[0])] + parse_frames(encode_frames(rest) + tail);
        assert(ps[0] == encode_body(rs[0]));
        assert(ps.drop_first() == parse_frames(encode_frames(rest) + tail));
        assert(decode_bodies(ps) == seq![rs[0]] + decode_bodies(ps.drop_first()));
        assert(rs == seq![rs[0]] + rest);
    }
}

/// Crash recovery: a log holding whole frames for `rs` and then any proper
/// prefix of one more frame (what a write cut short leaves) replays to
/// exactly `rs`; nothing of the torn frame shows.
pub proof fn lemma_replay_after_crash(rs: Seq<WalRecord>, torn: WalRecord, cut: nat)
    requires
        forall|i: int| 0 <= i < rs.len() ==> loggable(#[trigger] rs[i]),
        loggable(torn),
        cut < encode_frame(torn).len(),
    ensures
        replayed(wal_magic() + encode_frames(rs) + encode_frame(torn).subrange(0, cut as int)) == rs,
{
    let t = encode_frame(torn).subrange(0, cut as int);
    let b = wal_magic() + encode_frames(rs) + t;
    assert(b.subrange(0, 4) == wal_magic());
    assert(b.skip(4) == encode_frames(rs) + t);
    lemma_frames_from(rs, t);
    lemma_parse_torn(torn, t);
    assert(decode_bodies(Seq::<Seq<u8>>::empty()) == Seq::<WalRecord>::empty());
    assert(rs + Seq::<WalRecord>::empty() == rs);
}

/// A log that was fully written replays to every record in it.
pub proof fn lemma_replay_complete(rs: Seq<WalRecord>)
    requires
        forall|i: int| 0 <= i < rs.len() ==> loggable(#[trigger] rs[i]),
    ensures
        replayed(wal_magic() + encode_frames(rs)) == rs,
{
    let b = wal_magic() + encode_frames(rs);
    assert(b.subrange(0, 4) == wal_magic());
    assert(b.skip(4) == encode_frames(rs) + Seq::<u8>::empty());
    lemma_frames_from(rs, Seq::<u8>::empty());
    assert(parse_frames(Seq::<u8>::empty()) == Seq::<Seq<u8>>::empty());
    assert(decode_bodies(Seq::<Seq<u8>>::empty()) == Seq::<WalRecord>::empty());
    assert(rs + Seq::<WalRecord>::empty() == rs);
}

proof fn lemma_frames_push(rs: Seq<WalRecord>, r: WalRecord)
    ensures
        encode_frames(rs.push(r)) == encode_frames(rs) + encode_frame(r),
    decreases rs.len(),
{
    if rs.len() == 0 {
        assert(rs.push(r).drop_first() == rs);
        assert(encode_frames(rs.push(r)) == encode_frame(r) + encode_frames(rs));
    } else {
        assert(rs.push(r).drop_first() == rs.drop_first().push(r));
        lemma_frames_push(rs.drop_first(), r);
    }
}

/// Appends the frame of `e` to `out`.
fn push_frame(out: &mut Vec<u8>, e: &WALEntry)
    requires
        loggable(e.view()),
    ensures
        final(out)@ == old(out)@ + encode_frame(e.view()),
{
    let mut body: Vec<u8> = Vec::new();
    push64(&mut body, e.seq);
    body.push(e.kind);
    push32(&mut body, e.key.len() as u32);
    append_bytes(&mut body, e.key.as_slice());
    match &e.value {
        Some(v) => {
            push32(&mut body, v.len() as u32);
            append_bytes(&mut body, v.as_slice());
        },
        None => {},
    }
    proof {
        assert(body@ == encode_body(e.view()));
        lemma_body_len(e.view());
    }
    push32(out, body.len() as u32);
    append_bytes(out, body.as_slice());
    push32(out, crc32(body.as_slice()));
}

/// The record a frame body holds, read as `decode_body` reads it.
fn decode_entry(b: &[u8]) -> (r: Option<WALEntry>)
    ensures
        match r {
            None => decode_body(b@) is None,
            Some(e) => decode_body(b@) == Some(e.view()),
        },
{
    reveal(decode_body);
    let n = b.len();
    if n < 13 {
        return None;
    }
    let klen = read32(b, 9) as usize;
    if klen > n - 13 {
        return None;
    }
    let seq = read64(b, 0);
    let kind = b[8];
    let key = copy_range(b, 13, 13 + klen);
    let value = if kind == RT_SET && n - 13 - klen >= 4 {
        let vlen = read32(b, 13 + klen) as usize;
        if vlen <= n - 17 - klen {
            Some(copy_range(b, 17 + klen, 17 + klen + vlen))
        } else {
            None
        }
    } else {
        None
    };
    Some(WALEntry { seq, kind, key, value })
}

/// Replays a log file: the records of its whole, intact frames, in order.
pub fn replay(bytes: &[u8]) -> (r: Result<Vec<WALEntry>, AntlerError>)
    ensures
        r is Err <==> wal_corrupted(bytes@),
        match r {
            Ok(v) => wal_view(v@) == replayed(bytes@),
            Err(e) => e is WalCorruption,
        },
{
    let mut out: Vec<WALEntry> = Vec::new();
    let n = bytes.len();
    if n < 4 {
        return Ok(out);
    }
    let magic = wal_magic_bytes();
    if !bytes_eq_range(magic.as_slice(), bytes, 0, 4) {
        return Ok(out);
    }
    let mut pos: usize = 4;
    loop
        invariant
            n == bytes@.len(),
            4 <= pos <= n,
            bytes@.subrange(0, 4) == wal_magic(),
            stop_from(bytes@, 4) == stop_from(bytes@, pos as int),
            wal_view(out@) + decode_bodies(parse_frames(bytes@.skip(pos as int))) == replayed(bytes@),
        decreases n - pos,
    {
        let ghost rest = bytes@.skip(pos as int);
        proof {
            assert(wal_view(out@) + seq![] == wal_view(out@));
        }
        if n - pos < 4 {
            return Ok(out);
        }
        let len = read32(bytes, pos) as usize;
        proof {
            assert(rest.subrange(0, 4) == bytes@.subrange(pos as int, pos + 4));
        }
        if n - pos < 8 || len > n - pos - 8 {
            return Ok(out);
        }
        let body = copy_range(bytes, pos + 4, pos + 4 + len);
        let crc = read32(bytes, pos + 4 + len);
        proof {
            assert(rest.subrange(4, 4 + len) == body@);
            assert(rest.subrange(4 + len, 8 + len) == bytes@.subrange(pos + 4 + len, pos + 8 + len));
        }
        if crc32(body.as_slice()) != crc {
            // A damaged frame followed by an intact one is corruption, not a torn tail.
            let q = pos + 8 + len;
            if n - q >= 8 {
                let len2 = read32(bytes, q) as usize;
                if len2 <= n - q - 8 {
                    let body2 = copy_range(bytes, q + 4, q + 4 + len2);
                    let crc2 = read32(bytes, q + 4 + len2);
                    if crc32(body2.as_slice()) == crc2 {
                        return Err(AntlerError::WalCorruption {
                            position: pos as u64,
                            expected: decimal_string(crc as u64),
                            found: decimal_string(crc32(body.as_slice()) as u64),
                        });
                    }
                }
            }
            return Ok(out);
        }
        proof {
            assert(rest.subrange(8 + len, rest.len() as int) == bytes@.skip(pos + 8 + len));
            let ps = parse_frames(rest);
            assert(ps == seq![body@] + parse_frames(bytes@.skip(pos + 8 + len)));
            assert(ps[0] == body@);
            assert(ps.drop_first() == parse_frames(bytes@.skip(pos + 8 + len)));
        }
        match decode_entry(body.as_slice()) {
            Some(e) => {
                let ghost before = out@;
                out.push(e);
                proof {
                    assert(wal_view(out@) == wal_view(before) + seq![e.view()]);
                }
            },
            None => {},
        }
        pos = pos + 8 + len;
    }
}

/// Records appended but not yet written to the log file.
pub struct GroupCommitWAL {
    pub buffer: Vec<WALEntry>,
}

impl GroupCommitWAL {
    pub open spec fn wf(&self) -> bool {
        forall|i: int| 0 <= i < self.buffer@.len() ==> loggable(#[trigger] self.buffer@[i].view())
    }

    /// An empty buffer.
    pub fn new() -> (r: GroupCommitWAL)
        ensures
            r.wf(),
            r.buffer@.len() == 0,
    {
        GroupCommitWAL { buffer: Vec::new() }
    }

    /// Buffers `entry`; true when more than `SYNC_THRESHOLD` records wait,
    /// and the caller should sync now.
    pub fn append(&mut self, entry: WALEntry) -> (sync_due: bool)
        requires
            old(self).wf(),
            loggable(entry.view()),
        ensures
            final(self).wf(),
            final(self).buffer@ == old(self).buffer@.push(entry),
            sync_due == (final(self).buffer@.len() > SYNC_THRESHOLD),
    {
        self.buffer.push(entry);
        self.buffer.len() > SYNC_THRESHOLD
    }

    /// The bytes to append to the log file, which now holds `file_len`
    /// bytes, for every buffered record: the magic first when the file is
    /// empty, then one frame per record. Nothing when none waits. The
    /// records stay buffered until `drop_written` says they were written.
    pub fn pending_frames(&self, file_len: u64) -> (r: Vec<u8>)
        requires
            self.wf(),
        ensures
            self.buffer@.len() == 0 ==> r@.len() == 0,
            self.buffer@.len() > 0 ==> r@ == (if file_len == 0 {
                wal_magic()
            } else {
                Seq::<u8>::empty()
            }) + encode_frames(wal_view(self.buffer@)),
    {
        let mut out: Vec<u8> = Vec::new();
        if self.buffer.len() == 0 {
            return out;
        }
        if file_len == 0 {
            out = wal_magic_bytes();
        }
        let ghost head = out@;
        let ghost all = wal_view(self.buffer@);
        let mut i: usize = 0;
        while i < self.buffer.len()
            invariant
                self.wf(),
                all == wal_view(self.buffer@),
                0 <= i <= self.buffer@.len(),
                out@ == head + encode_frames(all.subrange(0, i as int)),
            decreases self.buffer@.len() - i,
        {
            assert(loggable(self.buffer@[i as int].view()));
            push_frame(&mut out, &self.buffer[i]);
            proof {
                assert(all.subrange(0, i + 1) == all.subrange(0, i as int).push(all[i as int]));
                lemma_frames_push(all.subrange(0, i as int), all[i as int]);
            }
            i = i + 1;
        }
        proof {
            assert(all.subrange(0, all.len() as int) == all);
        }
        out
    }

    /// Drops the first `count` buffered records once their frames are
    /// written; later records stay, in order.
    pub fn drop_written(&mut self, count: usize)
        requires
            old(self).wf(),
            count <= old(self).buffer@.len(),
        ensures
            final(self).wf(),
            final(self).buffer@ == old(self).buffer@.skip(count as int),
    {
        let mut k: usize = 0;
        while k < count
            invariant
                k <= count <= old(self).buffer@.len(),
                self.buffer@ == old(self).buffer@.skip(k as int),
                old(self).wf(),
            decreases count - k,
        {
            let _ = self.buffer.remove(0);
            proof {
                assert(self.buffer@ =~= old(self).buffer@.skip(k + 1));
            }
            k = k + 1;
        }
        proof {
            assert forall|i: int| 0 <= i < self.buffer@.len() implies loggable(#[trigger] self.buffer@[i].view()) by {
                assert(self.buffer@[i] == old(self).buffer@[i + count]);
            }
        }
    }

    /// Takes every buffered record and returns the bytes to append to the
    /// log file, as `pending_frames` gives them.
    pub fn drain_frames(&mut self, file_len: u64) -> (r: Vec<u8>)
        requires
            old(self).wf(),
        ensures
            final(self).wf(),
            final(self).buffer@.len() == 0,
            old(self).buffer@.len() == 0 ==> r@.len() == 0,
            old(self).buffer@.len() > 0 ==> r@ == (if file_len == 0 {
                wal_magic()
            } else {
                Seq::<u8>::empty()
            }) + encode_frames(wal_view(old(self).buffer@)),
    {
        let out = self.pending_frames(file_len);
        self.buffer = Vec::new();
        out
    }
}

} // verus!
