//! The record layout inside a segment's data blocks:
//! `seq (8) | kind (1) | klen (4) | vlen (4) | key | value`, little-endian.
use crate::codec::{bytes_eq_range, copy_range, get32, get64, le32, le64, read32, read64};
use crate::order::{bytes_lt, lex_le, lex_lt};
use vstd::prelude::*;

verus! {

pub const RT_SET: u8 = 1;

pub const RT_DEL_POINT: u8 = 2;

pub const RT_DEL_SUB: u8 = 3;

/// Fixed bytes in front of a record's key.
pub const RECORD_HEADER: usize = 17;

/// A record as the block holds it.
pub struct BlockRecord {
    pub seq: u64,
    pub kind: u8,
    pub key: Seq<u8>,
    pub value: Seq<u8>,
}

/// A key, a value and the sequence number that wrote them.
pub struct Entry {
    pub key: Vec<u8>,
    pub value: Vec<u8>,
    pub seq: u64,
}

impl Entry {
    pub open spec fn view(&self) -> (Seq<u8>, Seq<u8>, u64) {
        (self.key@, self.value@, self.seq)
    }
}

/// The views of a vector of entries.
pub open spec fn entries_view(v: Seq<Entry>) -> Seq<(Seq<u8>, Seq<u8>, u64)> {
    v.map_values(|e: Entry| e.view())
}

/// The bytes of one record.
pub open spec fn encode_record(r: BlockRecord) -> Seq<u8> {
    le64(r.seq) + seq![r.kind] + le32(r.key.len() as u32) + le32(r.value.len() as u32) + r.key
        + r.value
}

/// The records of a block, read from the front; a record cut short ends it.
pub open spec fn parse_records(b: Seq<u8>) -> Seq<BlockRecord>
    decreases b.len(),
{
    if b.len() < 17 {
        seq![]
    } else {
        let klen = get32(b, 9) as int;
        let vlen = get32(b, 13) as int;
        let end = 17 + klen + vlen;
        if end > b.len() {
            seq![]
        } else {
            seq![
                BlockRecord {
                    seq: get64(b, 0),
                    kind: b[8],
                    key: b.subrange(17, 17 + klen),
                    value: b.subrange(17 + klen, end),
                },
            ] + parse_records(b.subrange(end, b.len() as int))
        }
    }
}

/// The kind, value and sequence number of the first record for `key`,
/// a `SET` or a point tombstone.
pub open spec fn find_rec(rs: Seq<BlockRecord>, key: Seq<u8>) -> Option<(u8, Seq<u8>, u64)>
    decreases rs.len(),
{
    if rs.len() == 0 {
        None
    } else if rs[0].key == key {
        Some((rs[0].kind, rs[0].value, rs[0].seq))
    } else {
        find_rec(rs.drop_first(), key)
    }
}

/// Whether `k` lies in `[lo, hi)`.
pub open spec fn in_range(k: Seq<u8>, lo: Seq<u8>, hi: Seq<u8>) -> bool {
    lex_le(lo, k) && lex_lt(k, hi)
}

/// The `SET` records of `rs` whose key lies in `[lo, hi)`, in order.
pub open spec fn sets_in_range(rs: Seq<BlockRecord>, lo: Seq<u8>, hi: Seq<u8>) -> Seq<
    (Seq<u8>, Seq<u8>, u64),
>
    decreases rs.len(),
{
    if rs.len() == 0 {
        seq![]
    } else {
        let rest = sets_in_range(rs.drop_first(), lo, hi);
        if rs[0].kind == RT_SET && in_range(rs[0].key, lo, hi) {
            seq![(rs[0].key, rs[0].value, rs[0].seq)] + rest
        } else {
            rest
        }
    }
}

proof fn lemma_fields_at(b: Seq<u8>, pos: int)
    requires
        0 <= pos,
        pos + 17 <= b.len(),
    ensures
        get32(b.skip(pos), 9) == get32(b, pos + 9),
        get32(b.skip(pos), 13) == get32(b, pos + 13),
        get64(b.skip(pos), 0) == get64(b, pos),
{
    assert(b.skip(pos).subrange(9, 13) == b.subrange(pos + 9, pos + 13));
    assert(b.skip(pos).subrange(13, 17) == b.subrange(pos + 13, pos + 17));
    assert(b.skip(pos).subrange(0, 8) == b.subrange(pos, pos + 8));
}

/// Where the record at `pos` ends, if it lies whole inside `b`; the fields
/// are read as `parse_records` reads them.
pub(crate) fn record_end(b: &[u8], pos: usize) -> (r: Option<usize>)
    requires
        pos <= b@.len(),
    ensures
        ({
            let rest = b@.skip(pos as int);
            let recs = parse_records(rest);
            match r {
                None => recs.len() == 0,
                Some(end) => {
                    &&& recs.len() > 0
                    &&& pos + 17 <= end <= b@.len()
                    &&& end == pos + 17 + get32(b@, pos + 9) + get32(b@, pos + 13)
                    &&& recs[0].seq == get64(b@, pos as int)
                    &&& recs[0].kind == b@[pos + 8]
                    &&& recs[0].key == b@.subrange(pos + 17, end - get32(b@, pos + 13))
                    &&& recs[0].value == b@.subrange(end - get32(b@, pos + 13), end as int)
                    &&& recs.drop_first() == parse_records(b@.skip(end as int))
                },
            }
        }),
{
    let n = b.len();
    if n - pos < RECORD_HEADER {
        return None;
    }
    let klen = read32(b, pos + 9) as usize;
    let vlen = read32(b, pos + 13) as usize;
    let room = n - pos - RECORD_HEADER;
    proof {
        lemma_fields_at(b@, pos as int);
    }
    if klen > room || vlen > room - klen {
        return None;
    }
    let end = pos + RECORD_HEADER + klen + vlen;
    proof {
        let rest = b@.skip(pos as int);
        let e = 17 + klen + vlen;
        assert(rest.subrange(17, 17 + klen) == b@.subrange(pos + 17, pos + 17 + klen));
        assert(rest.subrange(17 + klen, e) == b@.subrange(pos + 17 + klen, end as int));
        assert(rest.subrange(e, rest.len() as int) == b@.skip(end as int));
        assert(parse_records(rest).drop_first() == parse_records(
            rest.subrange(e, rest.len() as int),
        ));
    }
    Some(end)
}

/// The first record for `key` in the block: its kind, value and sequence number.
pub fn block_lookup(block: &[u8], key: &[u8]) -> (r: Option<(u8, Vec<u8>, u64)>)
    ensures
        match r {
            None => find_rec(parse_records(block@), key@) is None,
            Some((k, v, s)) => find_rec(parse_records(block@), key@) == Some((k, v@, s)),
        },
{
    let mut pos: usize = 0;
    proof {
        assert(block@.skip(0) == block@);
    }
    loop
        invariant
            pos <= block@.len(),
            find_rec(parse_records(block@), key@) == find_rec(
                parse_records(block@.skip(pos as int)),
                key@,
            ),
        decreases block@.len() - pos,
    {
        match record_end(block, pos) {
            None => {
                return None;
            },
            Some(end) => {
                let vlen = read32(block, pos + 13) as usize;
                let kend = end - vlen;
                if bytes_eq_range(key, block, pos + RECORD_HEADER, kend) {
                    let v = copy_range(block, kend, end);
                    let s = read64(block, pos);
                    return Some((block[pos + 8], v, s));
                }
                pos = end;
            },
        }
    }
}

/// The `SET` records of the block whose key lies in `[lo, hi)`, in block order.
pub fn block_scan(block: &[u8], lo: &[u8], hi: &[u8], out: &mut Vec<Entry>)
    ensures
        entries_view(final(out)@) == entries_view(old(out)@) + sets_in_range(
            parse_records(block@),
            lo@,
            hi@,
        ),
{
    let mut pos: usize = 0;
    proof {
        assert(block@.skip(0) == block@);
    }
    loop
        invariant
            pos <= block@.len(),
            entries_view(out@) + sets_in_range(parse_records(block@.skip(pos as int)), lo@, hi@)
                == entries_view(old(out)@) + sets_in_range(parse_records(block@), lo@, hi@),
        decreases block@.len() - pos,
    {
        match record_end(block, pos) {
            None => {
                proof {
                    assert(entries_view(out@) + seq![] == entries_view(out@));
                }
                return ;
            },
            Some(end) => {
                let ghost recs = parse_records(block@.skip(pos as int));
                let vlen = read32(block, pos + 13) as usize;
                let kend = end - vlen;
                let k = copy_range(block, pos + RECORD_HEADER, kend);
                let in_lo = !bytes_lt(k.as_slice(), lo);
                let in_hi = bytes_lt(k.as_slice(), hi);
                proof {
                    crate::order::lemma_lex_total(k@, lo@);
                    crate::order::lemma_lex_asym(k@, lo@);
                }
                if block[pos + 8] == RT_SET && in_lo && in_hi {
                    let v = copy_range(block, kend, end);
                    let s = read64(block, pos);
                    let ghost before = out@;
                    out.push(Entry { key: k, value: v, seq: s });
                    proof {
                        assert(entries_view(out@) == entries_view(before) + seq![
                            (k@, v@, s),
                        ]);
                    }
                }
                pos = end;
            },
        }
    }
}

} // verus!
