//! Immutable sorted segments: the writer that lays one out and the reader
//! that finds keys in it through its sparse index and bloom filter.
//!
//! File layout: magic `ELKYN03`, data blocks, index entries
//! `klen (4) | offset (8) | key`, bloom bytes, and a 32-byte footer
//! `seq_low | seq_high | key_count | index_size | bloom_size | hash_count`.
use crate::block::{
    block_lookup, block_scan, encode_record, entries_view, find_rec, parse_records,
    sets_in_range, BlockRecord, Entry,
};
use crate::bloom::BloomFilter;
use crate::cache::{known_files, BlockCache};
use crate::codec::{append_bytes, copy_range, get32, get64, le32, le64, push32, push64, read32, read64};
use crate::errors::AntlerError;
use crate::order::{bytes_lt, lemma_lex_asym, lemma_lex_irrefl, lemma_lex_total, lemma_lex_trans, lex_le, lex_lt};
use vstd::prelude::*;
use vstd::string::StringExecFns;

verus! {

pub const BLOCK_SIZE: usize = 4096;

pub const FOOTER_SIZE: usize = 32;

pub const BLOOM_BITS: usize = 10000;

pub const BLOOM_HASHES: usize = 7;

/// The file magic, `ELKYN03`.
pub open spec fn segment_magic() -> Seq<u8> {
    seq![69u8, 76u8, 75u8, 89u8, 78u8, 48u8, 51u8]
}

fn magic_bytes() -> (r: Vec<u8>)
    ensures
        r@ == segment_magic(),
{
    let r = vec![69u8, 76u8, 75u8, 89u8, 78u8, 48u8, 51u8];
    assert(r@ == segment_magic());
    r
}

/// An index entry: the first key of a block and the block's file offset.
pub struct IndexEntry {
    pub key: Vec<u8>,
    pub offset: u64,
}

/// The bytes of one index entry.
pub open spec fn encode_index_entry(e: IndexEntry) -> Seq<u8> {
    le32(e.key@.len() as u32) + le64(e.offset) + e.key@
}

/// The bytes of the whole index region.
pub open spec fn encode_index(idx: Seq<IndexEntry>) -> Seq<u8>
    decreases idx.len(),
{
    if idx.len() == 0 {
        seq![]
    } else {
        encode_index(idx.drop_last()) + encode_index_entry(idx.last())
    }
}

/// The 32-byte footer.
pub open spec fn encode_footer(
    seq_low: u64,
    seq_high: u64,
    key_count: u32,
    index_size: u32,
    bloom_size: u32,
    hash_count: u32,
) -> Seq<u8> {
    le64(seq_low) + le64(seq_high) + le32(key_count) + le32(index_size) + le32(bloom_size) + le32(
        hash_count,
    )
}

/// Index entries, read from the front of the index region; an entry cut
/// short ends it.
pub open spec fn parse_index(b: Seq<u8>) -> Seq<(Seq<u8>, u64)>
    decreases b.len(),
{
    if b.len() < 12 {
        seq![]
    } else {
        let klen = get32(b, 0) as int;
        if 12 + klen > b.len() {
            seq![]
        } else {
            seq![(b.subrange(12, 12 + klen), get64(b, 4))] + parse_index(
                b.subrange(12 + klen, b.len() as int),
            )
        }
    }
}

pub open spec fn index_view(idx: Seq<IndexEntry>) -> Seq<(Seq<u8>, u64)> {
    idx.map_values(|e: IndexEntry| (e.key@, e.offset))
}

/// Index keys strictly increasing, offsets non-decreasing and inside `[lo, hi]`.
pub open spec fn index_ok(idx: Seq<(Seq<u8>, u64)>, lo: nat, hi: nat) -> bool {
    &&& forall|i: int, j: int| 0 <= i < j < idx.len() ==> lex_lt(#[trigger] idx[i].0, #[trigger] idx[j].0)
    &&& forall|i: int, j: int| 0 <= i < j < idx.len() ==> #[trigger] idx[i].1 <= #[trigger] idx[j].1
    &&& forall|i: int| 0 <= i < idx.len() ==> lo <= #[trigger] idx[i].1 <= hi
}

/// An open segment: its file bytes and what was read from its footer.
pub struct Segment {
    pub id: u64,
    pub name: String,
    pub seq_high: u64,
    pub bloom: Option<BloomFilter>,
    pub index: Vec<IndexEntry>,
    pub index_start: u64,
    pub data: Vec<u8>,
}

impl Segment {
    pub open spec fn wf(&self) -> bool {
        &&& self.index_start <= self.data@.len()
        &&& index_ok(index_view(self.index@), 0, self.index_start as nat)
        &&& match self.bloom {
            Some(b) => b.wf(),
            None => true,
        }
    }

    pub open spec fn idx(&self) -> Seq<(Seq<u8>, u64)> {
        index_view(self.index@)
    }

    /// Where block `i` ends: the next block's offset, or the start of the index.
    pub open spec fn block_end(&self, i: int) -> u64 {
        if i + 1 < self.index@.len() {
            self.index@[i + 1].offset
        } else {
            self.index_start
        }
    }

    /// The bytes of block `i`.
    pub open spec fn block(&self, i: int) -> Seq<u8> {
        self.data@.subrange(self.index@[i].offset as int, self.block_end(i) as int)
    }

    /// Block `i` is the one whose key range holds `key`.
    pub open spec fn holds(&self, i: int, key: Seq<u8>) -> bool {
        &&& 0 <= i < self.index@.len()
        &&& lex_le(self.idx()[i].0, key)
        &&& (i + 1 == self.index@.len() || lex_lt(key, self.idx()[i + 1].0))
    }

    /// Whether the bloom filter, if any, lets `key` through.
    pub open spec fn bloom_admits(&self, key: Seq<u8>) -> bool {
        match self.bloom {
            Some(b) => b.admits(key),
            None => true,
        }
    }

    /// What `lookup` finds for `key`.
    pub open spec fn find(&self, key: Seq<u8>) -> Option<(u8, Seq<u8>, u64)> {
        if !self.bloom_admits(key) {
            None
        } else if exists|i: int| self.holds(i, key) {
            let i = choose|i: int| self.holds(i, key);
            find_rec(parse_records(self.block(i)), key)
        } else {
            None
        }
    }

    /// Block `i` may hold keys in `[lo, hi)`.
    pub open spec fn overlaps(&self, i: int, lo: Seq<u8>, hi: Seq<u8>) -> bool {
        &&& lex_lt(self.idx()[i].0, hi)
        &&& (i + 1 == self.index@.len() || lex_lt(lo, self.idx()[i + 1].0))
    }

    /// The `SET` records in `[lo, hi)` of the overlapping blocks from `i` on.
    pub open spec fn scan_from(&self, i: int, lo: Seq<u8>, hi: Seq<u8>) -> Seq<
        (Seq<u8>, Seq<u8>, u64),
    >
        decreases self.index@.len() - i,
    {
        if i < 0 || i >= self.index@.len() {
            seq![]
        } else if self.overlaps(i, lo, hi) {
            sets_in_range(parse_records(self.block(i)), lo, hi) + self.scan_from(i + 1, lo, hi)
        } else {
            self.scan_from(i + 1, lo, hi)
        }
    }

    proof fn lemma_holds_unique(&self, i: int, j: int, key: Seq<u8>)
        requires
            self.wf(),
            self.holds(i, key),
            self.holds(j, key),
        ensures
            i == j,
    {
        if i < j {
            if i + 1 < j {
                lemma_lex_trans(key, self.idx()[i + 1].0, self.idx()[j].0);
            }
            lemma_lex_asym(key, self.idx()[j].0);
            lemma_lex_irrefl(key);
        } else if j < i {
            if j + 1 < i {
                lemma_lex_trans(key, self.idx()[j + 1].0, self.idx()[i].0);
            }
            lemma_lex_asym(key, self.idx()[i].0);
            lemma_lex_irrefl(key);
        }
    }

    /// The number of index entries whose key is at most `key`.
    fn floor_count(&self, key: &[u8]) -> (r: usize)
        requires
            self.wf(),
        ensures
            r <= self.index@.len(),
            forall|i: int| 0 <= i < r ==> lex_le(#[trigger] self.idx()[i].0, key@),
            forall|i: int| r <= i < self.index@.len() ==> lex_lt(key@, #[trigger] self.idx()[i].0),
    {
        let mut lo: usize = 0;
        let mut hi: usize = self.index.len();
        while lo < hi
            invariant
                self.wf(),
                lo <= hi <= self.index@.len(),
                forall|i: int| 0 <= i < lo ==> lex_le(#[trigger] self.idx()[i].0, key@),
                forall|i: int| hi <= i < self.index@.len() ==> lex_lt(key@, #[trigger] self.idx()[i].0),
            decreases hi - lo,
        {
            let mid = lo + (hi - lo) / 2;
            let ghost m = self.idx()[mid as int].0;
            assert(self.index@[mid as int].key@ == m);
            if bytes_lt(key, self.index[mid].key.as_slice()) {
                proof {
                    assert forall|i: int| mid <= i < self.index@.len() implies lex_lt(key@, #[trigger] self.idx()[i].0) by {
                        if mid < i {
                            lemma_lex_trans(key@, m, self.idx()[i].0);
                        }
                    }
                }
                hi = mid;
            } else {
                proof {
                    lemma_lex_total(key@, m);
                    assert forall|i: int| 0 <= i <= mid implies lex_le(#[trigger] self.idx()[i].0, key@) by {
                        if i < mid {
                            if m == key@ {
                            } else {
                                lemma_lex_trans(self.idx()[i].0, m, key@);
                            }
                        }
                    }
                }
                lo = mid + 1;
            }
        }
        lo
    }

    /// The record for `key` (its kind, value and sequence number), if the
    /// bloom filter admits it and the block whose range holds it has one.
    /// A point tombstone is reported as such, so that it masks older values.
    pub fn lookup(&self, key: &[u8], cache: &mut BlockCache) -> (r: Option<(u8, Vec<u8>, u64)>)
        requires
            self.wf(),
            old(cache).wf(),
            old(cache).files@.contains_key(self.id) ==> old(cache).files@[self.id] == self.data@,
        ensures
            final(cache).wf(),
            final(cache).max_size == old(cache).max_size,
            known_files(final(cache).files@, old(cache).files@, self.id, self.data@),
            match r {
                None => self.find(key@) is None,
                Some((k, v, s)) => self.find(key@) == Some((k, v@, s)),
            },
    {
        match &self.bloom {
            Some(b) => {
                if !b.might_contain(key) {
                    return None;
                }
            },
            None => {},
        }
        let c = self.floor_count(key);
        if c == 0 {
            proof {
                if exists|i: int| self.holds(i, key@) {
                    let i = choose|i: int| self.holds(i, key@);
                    lemma_lex_asym(key@, self.idx()[i].0);
                    lemma_lex_irrefl(key@);
                }
            }
            return None;
        }
        let i = c - 1;
        proof {
            assert(self.holds(i as int, key@));
            let j = choose|j: int| self.holds(j, key@);
            self.lemma_holds_unique(i as int, j, key@);
        }
        proof {
            assert(self.idx()[i as int].1 == self.index@[i as int].offset);
            if i + 1 < self.index@.len() {
                assert(self.idx()[i + 1].1 == self.index@[i + 1].offset);
            }
        }
        let lo = self.index[i].offset;
        let hi = if i + 1 < self.index.len() {
            self.index[i + 1].offset
        } else {
            self.index_start
        };
        let blk = cache.get_or_load(self.id, lo, self.data.as_slice(), hi);
        proof {
            assert(blk@ == self.block(i as int));
        }
        block_lookup(blk.as_slice(), key)
    }

    /// Every `SET` record in `[lo, hi)` of the blocks that may hold such keys,
    /// in file order.
    pub fn scan(&self, lo: &[u8], hi: &[u8], cache: &mut BlockCache) -> (r: Vec<Entry>)
        requires
            self.wf(),
            old(cache).wf(),
            old(cache).files@.contains_key(self.id) ==> old(cache).files@[self.id] == self.data@,
        ensures
            final(cache).wf(),
            final(cache).max_size == old(cache).max_size,
            known_files(final(cache).files@, old(cache).files@, self.id, self.data@),
            entries_view(r@) == self.scan_from(0, lo@, hi@),
    {
        let mut out: Vec<Entry> = Vec::new();
        let n = self.index.len();

        let mut i: usize = 0;
        while i < n
            invariant
                self.wf(),
                cache.wf(),
                cache.max_size == old(cache).max_size,
                known_files(cache.files@, old(cache).files@, self.id, self.data@),
                cache.files@.contains_key(self.id) ==> cache.files@[self.id] == self.data@,
                n == self.index@.len(),
                i <= n,
                entries_view(out@) + self.scan_from(i as int, lo@, hi@) == self.scan_from(0, lo@, hi@),
            decreases n - i,
        {
            let first_ok = bytes_lt(self.index[i].key.as_slice(), hi);
            let next_ok = i + 1 == n || bytes_lt(lo, self.index[i + 1].key.as_slice());
            proof {
                assert(self.idx()[i as int].1 == self.index@[i as int].offset);
                assert(self.idx()[i as int].0 == self.index@[i as int].key@);
                if i + 1 < n {
                    assert(self.idx()[i + 1].1 == self.index@[i + 1].offset);
                    assert(self.idx()[i + 1].0 == self.index@[i + 1].key@);
                }
            }
            if first_ok && next_ok {
                let off = self.index[i].offset;
                let end = if i + 1 < n {
                    self.index[i + 1].offset
                } else {
                    self.index_start
                };
                let blk = cache.get_or_load(self.id, off, self.data.as_slice(), end);
                let ghost before = out@;
                block_scan(blk.as_slice(), lo, hi, &mut out);
                proof {
                    assert(entries_view(out@) + self.scan_from(i + 1, lo@, hi@)
                        == entries_view(before) + (sets_in_range(parse_records(self.block(i as int)), lo@, hi@)
                        + self.scan_from(i + 1, lo@, hi@)));
                }
            }
            i = i + 1;
        }
        proof {
            assert(entries_view(out@) + seq![] == entries_view(out@));
        }
        out
    }
}

/// The index entries of an index region, read as `parse_index` reads them.
fn read_index(b: &[u8]) -> (r: Vec<IndexEntry>)
    ensures
        index_view(r@) == parse_index(b@),
{
    let mut out: Vec<IndexEntry> = Vec::new();
    let n = b.len();
    let mut pos: usize = 0;
    proof {
        assert(b@.skip(0) == b@);
    }
    loop
        invariant
            n == b@.len(),
            pos <= n,
            index_view(out@) + parse_index(b@.skip(pos as int)) == parse_index(b@),
        decreases n - pos,
    {
        let ghost rest = b@.skip(pos as int);
        if n - pos < 12 {
            proof {
                assert(index_view(out@) + seq![] == index_view(out@));
            }
            return out;
        }
        let klen = read32(b, pos) as usize;
        proof {
            assert(rest.subrange(0, 4) == b@.subrange(pos as int, pos + 4));
            assert(rest.subrange(4, 12) == b@.subrange(pos + 4, pos + 12));
        }
        if klen > n - pos - 12 {
            proof {
                assert(index_view(out@) + seq![] == index_view(out@));
            }
            return out;
        }
        let offset = read64(b, pos + 4);
        let key = copy_range(b, pos + 12, pos + 12 + klen);
        let ghost before = out@;
        out.push(IndexEntry { key, offset });
        proof {
            assert(rest.subrange(12, 12 + klen) == b@.subrange(pos + 12, pos + 12 + klen));
            assert(rest.subrange(12 + klen, rest.len() as int) == b@.skip(pos + 12 + klen));
            assert(index_view(out@) == index_view(before) + seq![(key@, offset)]);
        }
        pos = pos + 12 + klen;
    }
}

/// Whether the index is in order and its offsets lie inside `[lo, hi]`.
fn index_valid(idx: &Vec<IndexEntry>, lo: u64, hi: u64) -> (r: bool)
    ensures
        r == index_ok(index_view(idx@), lo as nat, hi as nat),
{
    let ghost v = index_view(idx@);
    let n = idx.len();
    let mut k: usize = 0;
    while k < n
        invariant
            n == idx@.len() == v.len(),
            v == index_view(idx@),
            k <= n,
            forall|i: int, j: int| 0 <= i < j < k ==> lex_lt(#[trigger] v[i].0, #[trigger] v[j].0),
            forall|i: int, j: int| 0 <= i < j < k ==> #[trigger] v[i].1 <= #[trigger] v[j].1,
            forall|i: int| 0 <= i < k ==> lo <= #[trigger] v[i].1 <= hi,
        decreases n - k,
    {
        proof {
            assert(v[k as int] == (idx@[k as int].key@, idx@[k as int].offset));
            if k > 0 {
                assert(v[k - 1] == (idx@[k - 1].key@, idx@[k - 1].offset));
            }
        }
        let off = idx[k].offset;
        if off < lo || off > hi {
            proof {
                assert(v[k as int].1 == off);
            }
            return false;
        }
        if k > 0 {
            if !bytes_lt(idx[k - 1].key.as_slice(), idx[k].key.as_slice()) || idx[k - 1].offset > off {
                proof {
                    let a = k - 1;
                    let b = k as int;
                    assert(!lex_lt(v[a].0, v[b].0) || v[a].1 > v[b].1);
                }
                return false;
            }
            proof {
                assert forall|i: int, j: int| 0 <= i < j < k + 1 implies lex_lt(#[trigger] v[i].0, #[trigger] v[j].0) by {
                    if j == k && i < k - 1 {
                        lemma_lex_trans(v[i].0, v[k - 1].0, v[k as int].0);
                    }
                }
                assert forall|i: int, j: int| 0 <= i < j < k + 1 implies #[trigger] v[i].1 <= #[trigger] v[j].1 by {
                    if j == k && i < k - 1 {
                        assert(v[i].1 <= v[k - 1].1);
                    }
                }
            }
        }
        k = k + 1;
    }
    true
}

/// Footer fields of a file of bytes `d`.
pub open spec fn footer_seq_high(d: Seq<u8>) -> u64 {
    get64(d, d.len() - 24)
}

pub open spec fn footer_index_size(d: Seq<u8>) -> u32 {
    get32(d, d.len() - 12)
}

pub open spec fn footer_bloom_size(d: Seq<u8>) -> u32 {
    get32(d, d.len() - 8)
}

pub open spec fn footer_hash_count(d: Seq<u8>) -> u32 {
    get32(d, d.len() - 4)
}

/// Where the index region starts: `len - 32 - index_size - bloom_size`.
pub open spec fn index_start_of(d: Seq<u8>) -> int {
    d.len() - 32 - footer_index_size(d) - footer_bloom_size(d)
}

/// Magic in front, a whole footer, and regions that fit between them.
pub open spec fn frame_ok(d: Seq<u8>) -> bool {
    &&& d.len() >= 39
    &&& d.subrange(0, 7) == segment_magic()
    &&& footer_index_size(d) + footer_bloom_size(d) <= d.len() - 39
    &&& 8 * footer_bloom_size(d) <= usize::MAX
}

/// The index that the file's index region holds.
pub open spec fn index_of(d: Seq<u8>) -> Seq<(Seq<u8>, u64)> {
    parse_index(d.subrange(index_start_of(d), index_start_of(d) + footer_index_size(d)))
}

/// Whether `d` is a segment file that can be opened.
pub open spec fn opens(d: Seq<u8>) -> bool {
    frame_ok(d) && index_ok(index_of(d), 7, index_start_of(d) as nat)
}

fn corruption(name: &String, offset: u64, reason: &str) -> (r: AntlerError)
    ensures
        r is SegmentCorruption,
{
    AntlerError::SegmentCorruption { path: name.clone(), offset, reason: String::from_str(reason) }
}

impl Segment {
    /// Opens the segment file whose bytes are `data`: checks the magic,
    /// reads the footer, the bloom region and the index.
    pub fn open(id: u64, name: String, data: Vec<u8>) -> (r: Result<Segment, AntlerError>)
        ensures
            r is Ok <==> opens(data@),
            match r {
                Ok(seg) => {
                    let d = data@;
                    &&& seg.wf()
                    &&& seg.id == id
                    &&& seg.name@ == name@
                    &&& seg.data@ == d
                    &&& seg.seq_high == footer_seq_high(d)
                    &&& seg.index_start == index_start_of(d)
                    &&& seg.idx() == index_of(d)
                    &&& match seg.bloom {
                        None => footer_bloom_size(d) == 0,
                        Some(b) => {
                            &&& footer_bloom_size(d) > 0
                            &&& b.bits@ == d.subrange(d.len() - 32 - footer_bloom_size(d), d.len() - 32)
                            &&& b.bit_count == 8 * footer_bloom_size(d)
                            &&& b.hash_count == footer_hash_count(d)
                        },
                    }
                },
                Err(e) => e is SegmentCorruption,
            },
    {
        let n = data.len();
        if n < 7 + FOOTER_SIZE {
            return Err(corruption(&name, 0, "file too short"));
        }
        let magic = magic_bytes();
        if !crate::codec::bytes_eq_range(magic.as_slice(), data.as_slice(), 0, 7) {
            return Err(corruption(&name, 0, "Bad magic"));
        }
        let f = n - FOOTER_SIZE;
        let seq_high = read64(data.as_slice(), f + 8);
        let index_size = read32(data.as_slice(), f + 20) as usize;
        let bloom_size = read32(data.as_slice(), f + 24) as usize;
        let hash_count = read32(data.as_slice(), f + 28) as usize;
        proof {
            assert(data@.subrange(f + 8, f + 16) == data@.subrange(data@.len() - 24, data@.len() - 24 + 8));
        }
        if index_size > n - 39 || bloom_size > n - 39 - index_size {
            return Err(corruption(&name, f as u64, "index and bloom sizes exceed the file"));
        }
        if bloom_size > usize::MAX / 8 {
            return Err(corruption(&name, f as u64, "bloom region too large"));
        }
        let index_start = n - FOOTER_SIZE - index_size - bloom_size;
        let region = copy_range(data.as_slice(), index_start, index_start + index_size);
        let index = read_index(region.as_slice());
        if !index_valid(&index, 7, index_start as u64) {
            return Err(corruption(&name, index_start as u64, "index out of order"));
        }
        let bloom = if bloom_size > 0 {
            let bits = copy_range(data.as_slice(), n - FOOTER_SIZE - bloom_size, n - FOOTER_SIZE);
            Some(BloomFilter { bits, bit_count: bloom_size * 8, hash_count })
        } else {
            None
        };
        Ok(Segment { id, name, seq_high, bloom, index, index_start: index_start as u64, data })
    }
}

/// The bytes of a run of records, one after another.
pub open spec fn encode_all(rs: Seq<BlockRecord>) -> Seq<u8>
    decreases rs.len(),
{
    if rs.len() == 0 {
        seq![]
    } else {
        encode_all(rs.drop_last()) + encode_record(rs.last())
    }
}

/// Bytes a record takes in a block.
pub open spec fn rec_size(r: BlockRecord) -> nat {
    17 + r.key.len() + r.value.len()
}

/// Bytes a run of records takes in blocks.
pub open spec fn rec_total(rs: Seq<BlockRecord>) -> nat
    decreases rs.len(),
{
    if rs.len() == 0 {
        0
    } else {
        rec_total(rs.drop_last()) + rec_size(rs.last())
    }
}

/// Index bytes that a run of records can need at most: one entry per record.
pub open spec fn index_budget(rs: Seq<BlockRecord>) -> nat
    decreases rs.len(),
{
    if rs.len() == 0 {
        0
    } else {
        index_budget(rs.drop_last()) + 12 + rs.last().key.len()
    }
}

pub proof fn lemma_encode_all_len(rs: Seq<BlockRecord>)
    ensures
        encode_all(rs).len() == rec_total(rs),
    decreases rs.len(),
{
    if rs.len() > 0 {
        lemma_encode_all_len(rs.drop_last());
        let r = rs.last();
        crate::codec::lemma_le64(r.seq);
        crate::codec::lemma_le32(r.key.len() as u32);
        crate::codec::lemma_le32(r.value.len() as u32);
    }
}

pub proof fn lemma_total_split(a: Seq<BlockRecord>, b: Seq<BlockRecord>)
    ensures
        rec_total(a + b) == rec_total(a) + rec_total(b),
    decreases b.len(),
{
    if b.len() == 0 {
        assert(a + b == a);
    } else {
        assert((a + b).drop_last() == a + b.drop_last());
        assert((a + b).last() == b.last());
        lemma_total_split(a, b.drop_last());
    }
}

/// The largest sequence number among `rs`, or 0 when there is none.
pub open spec fn max_seq(rs: Seq<BlockRecord>) -> u64
    decreases rs.len(),
{
    if rs.len() == 0 {
        0
    } else if rs.last().seq > max_seq(rs.drop_last()) {
        rs.last().seq
    } else {
        max_seq(rs.drop_last())
    }
}

/// The smallest sequence number among `rs`, or `u64::MAX` when there is none.
pub open spec fn min_seq(rs: Seq<BlockRecord>) -> u64
    decreases rs.len(),
{
    if rs.len() == 0 {
        u64::MAX
    } else if rs.last().seq < min_seq(rs.drop_last()) {
        rs.last().seq
    } else {
        min_seq(rs.drop_last())
    }
}

/// Lays out a new segment from records added in ascending key order.
/// `records` is every record added so far.
pub struct SegmentWriter {
    pub id: u64,
    pub name: String,
    pub seq_low: u64,
    pub seq_high: u64,
    pub key_count: usize,
    pub current_block: Vec<u8>,
    pub index: Vec<IndexEntry>,
    pub bloom: BloomFilter,
    pub out: Vec<u8>,
    pub records: Ghost<Seq<BlockRecord>>,
    pub starts: Ghost<Seq<int>>,
}

pub open spec fn opt_bytes(v: Option<&[u8]>) -> Option<Seq<u8>> {
    match v {
        Some(b) => Some(b@),
        None => None,
    }
}

/// The record that `add` appends.
pub open spec fn record_of(kind: u8, key: Seq<u8>, value: Option<Seq<u8>>, seq: u64) -> BlockRecord {
    BlockRecord {
        seq,
        kind,
        key,
        value: match value {
            Some(v) => v,
            None => seq![],
        },
    }
}

/// Where block `i` ends among `n` records whose blocks start at `st`.
pub open spec fn block_stop(n: int, st: Seq<int>, i: int) -> int {
    if i + 1 < st.len() {
        st[i + 1]
    } else {
        n
    }
}

/// Every block takes at most `BLOCK_SIZE` bytes, unless it is one record.
pub open spec fn blocks_bounded(rs: Seq<BlockRecord>, st: Seq<int>) -> bool {
    forall|i: int|
        0 <= i < st.len() ==> rec_total(rs.subrange(#[trigger] st[i], block_stop(rs.len() as int, st, i))) <= BLOCK_SIZE
            || block_stop(rs.len() as int, st, i) == st[i] + 1
}

/// Adding a record keeps every block within `BLOCK_SIZE`: it either opens
/// a block of its own or fits in the open one.
proof fn lemma_bounded_step(rs0: Seq<BlockRecord>, rec: BlockRecord, st0: Seq<int>, st: Seq<int>, opened: bool)
    requires
        blocks_bounded(rs0, st0),
        forall|k: int| 0 <= k < st0.len() ==> 0 <= #[trigger] st0[k] < rs0.len(),
        forall|k: int| 0 <= k < st0.len() - 1 ==> #[trigger] st0[k] < st0[k + 1],
        opened ==> st == st0.push(rs0.len() as int),
        !opened ==> st == st0 && st0.len() > 0 && rec_total(rs0.subrange(st0.last(), rs0.len() as int)) + rec_size(rec) <= BLOCK_SIZE,
    ensures
        blocks_bounded(rs0.push(rec), st),
{
    let rs = rs0.push(rec);
    let n0 = rs0.len() as int;
    assert forall|i: int| 0 <= i < st.len() implies rec_total(rs.subrange(#[trigger] st[i], block_stop(rs.len() as int, st, i))) <= BLOCK_SIZE
        || block_stop(rs.len() as int, st, i) == st[i] + 1 by {
        if opened {
            if i < st0.len() {
                assert(st[i] == st0[i]);
                if i + 1 < st0.len() {
                    assert(st0[i] < st0[i + 1]);
                }
                assert(block_stop(rs.len() as int, st, i) == block_stop(n0, st0, i));
                assert(rs.subrange(st[i], block_stop(n0, st0, i)) == rs0.subrange(st0[i], block_stop(n0, st0, i)));
            }
        } else if i + 1 < st.len() {
            assert(st0[i] < st0[i + 1]);
            assert(block_stop(rs.len() as int, st, i) == block_stop(n0, st0, i));
            assert(rs.subrange(st[i], block_stop(n0, st0, i)) == rs0.subrange(st0[i], block_stop(n0, st0, i)));
        } else {
            let a = st0.last();
            assert(rs.subrange(a, n0 + 1) == rs0.subrange(a, n0).push(rec));
            assert(rs0.subrange(a, n0).push(rec).drop_last() == rs0.subrange(a, n0));
        }
    }
}

/// The open block holds the encoding of the records from `a` on.
proof fn lemma_open_len(out: Seq<u8>, cur: Seq<u8>, rs: Seq<BlockRecord>, a: int)
    requires
        0 <= a <= rs.len(),
        out + cur == segment_magic() + encode_all(rs),
        out.len() == 7 + encode_all(rs.subrange(0, a)).len(),
    ensures
        cur.len() == rec_total(rs.subrange(a, rs.len() as int)),
{
    lemma_encode_all_len(rs.subrange(0, a));
    lemma_encode_all_len(rs);
    assert(rs == rs.subrange(0, a) + rs.subrange(a, rs.len() as int));
    lemma_total_split(rs.subrange(0, a), rs.subrange(a, rs.len() as int));
    assert(segment_magic().len() == 7);
    assert((out + cur).len() == out.len() + cur.len());
}

/// The block bound after `add`, from the writer before it and after its index step.
proof fn lemma_sized_step(first: SegmentWriter, mid: SegmentWriter, rec: BlockRecord, rlen: nat)
    requires
        first.wf(),
        first.blocks_ok(),
        first.blocks_sized(),
        rec_size(rec) == rlen,
        mid.index@ == first.index@ ==> first.current_block@.len() > 0 && first.current_block@.len() + rlen <= BLOCK_SIZE && mid.starts == first.starts,
        mid.index@ != first.index@ ==> mid.starts@ == first.starts@.push(first.records@.len() as int),
    ensures
        blocks_bounded(first.records@.push(rec), mid.starts@),
{
    if mid.index@ == first.index@ {
        let rs = first.records@;
        let st = first.starts@;
        let idx = index_view(first.index@);
        assert(st.len() == idx.len() && idx.len() > 0);
        assert(idx[st.len() - 1].1 == first.index@.last().offset);
        assert(0 <= st.last() < rs.len());
        lemma_open_len(first.out@, first.current_block@, rs, st.last());
    }
    lemma_bounded_step(first.records@, rec, first.starts@, mid.starts@, mid.index@ != first.index@);
}

/// Adding a record keeps the index within budget, whether or not it opened a block.
proof fn lemma_budget_step(idx0: Seq<IndexEntry>, idx: Seq<IndexEntry>, rs0: Seq<BlockRecord>, rec: BlockRecord)
    requires
        encode_index(idx0).len() <= index_budget(rs0),
        idx == idx0 || (idx.len() == idx0.len() + 1 && idx.drop_last() == idx0 && idx.last().key@ == rec.key),
    ensures
        encode_index(idx).len() <= index_budget(rs0.push(rec)),
{
    assert(rs0.push(rec).drop_last() == rs0);
    if idx != idx0 {
        let e = idx.last();
        crate::codec::lemma_le32(e.key@.len() as u32);
        crate::codec::lemma_le64(e.offset);
        assert(encode_index(idx) == encode_index(idx0) + encode_index_entry(e));
    }
}

proof fn lemma_index_step(
    rs0: Seq<BlockRecord>,
    rec: BlockRecord,
    st0: Seq<int>,
    st: Seq<int>,
    idx0: Seq<(Seq<u8>, u64)>,
    idx: Seq<(Seq<u8>, u64)>,
    out_len: int,
    opened: bool,
)
    requires
        0 <= out_len <= u64::MAX,
        st0.len() == idx0.len(),
        forall|i: int| 0 <= i < st0.len() ==> 0 <= #[trigger] st0[i] < rs0.len(),
        forall|i: int| 0 <= i < st0.len() ==> #[trigger] idx0[i].0 == rs0[st0[i]].key,
        forall|i: int| 0 <= i < st0.len() ==> #[trigger] idx0[i].1 == 7 + encode_all(rs0.subrange(0, st0[i])).len(),
        !opened ==> st == st0 && idx == idx0,
        opened ==> st == st0.push(rs0.len() as int) && idx == idx0.push((rec.key, out_len as u64)) && out_len == 7 + encode_all(rs0).len(),
    ensures
        st.len() == idx.len(),
        forall|i: int| 0 <= i < st.len() ==> #[trigger] idx[i].0 == rs0.push(rec)[st[i]].key,
        forall|i: int| 0 <= i < st.len() ==> #[trigger] idx[i].1 == 7 + encode_all(rs0.push(rec).subrange(0, st[i])).len(),
{
    let rs = rs0.push(rec);
    assert forall|i: int| 0 <= i < st.len() implies #[trigger] idx[i].0 == rs[st[i]].key by {
        if i < st0.len() {
            assert(idx[i] == idx0[i]);
            assert(st[i] == st0[i]);
        }
    }
    assert forall|i: int| 0 <= i < st.len() implies #[trigger] idx[i].1 == 7 + encode_all(rs.subrange(0, st[i])).len() by {
        if i < st0.len() {
            assert(idx[i] == idx0[i]);
            assert(st[i] == st0[i]);
            assert(rs.subrange(0, st0[i]) == rs0.subrange(0, st0[i]));
        } else {
            assert(st[i] == rs0.len());
            assert(idx[i] == (rec.key, out_len as u64));
            assert(rs.subrange(0, rs0.len() as int) == rs0);
        }
    }
}

impl SegmentWriter {
    pub open spec fn wf(&self) -> bool {
        let rs = self.records@;
        let idx = index_view(self.index@);
        &&& self.bloom.wf()
        &&& self.bloom.bit_count == BLOOM_BITS
        &&& self.bloom.hash_count == BLOOM_HASHES
        &&& self.out@ + self.current_block@ == segment_magic() + encode_all(rs)
        &&& self.out@.len() >= 7
        &&& index_ok(idx, 7, self.out@.len())
        &&& self.current_block@.len() > 0 ==> (self.index@.len() > 0 && self.index@.last().offset
            == self.out@.len())
        &&& self.current_block@.len() <= BLOCK_SIZE || self.index@.len() > 0
        &&& rs.len() == 0 ==> self.index@.len() == 0
        &&& rs.len() > 0 ==> forall|i: int| 0 <= i < idx.len() ==> lex_le(#[trigger] idx[i].0, rs.last().key)
        &&& self.key_count == rs.len()
        &&& forall|i: int| 0 <= i < rs.len() ==> self.seq_low <= #[trigger] rs[i].seq <= self.seq_high
        &&& self.seq_low == min_seq(rs)
        &&& self.seq_high == max_seq(rs)
    }

    /// Where each block starts among the records, and what that fixes:
    /// its index key and offset. Records are in strictly increasing key
    /// order, fit their length fields, and the bloom filter admits each key.
    pub open spec fn blocks_ok(&self) -> bool {
        let rs = self.records@;
        let st = self.starts@;
        let idx = index_view(self.index@);
        &&& st.len() == idx.len()
        &&& rs.len() > 0 ==> st.len() > 0
        &&& st.len() > 0 ==> st[0] == 0
        &&& forall|i: int| 0 <= i < st.len() ==> 0 <= #[trigger] st[i] < rs.len()
        &&& forall|i: int| 0 <= i < st.len() - 1 ==> #[trigger] st[i] < st[i + 1]
        &&& forall|i: int| 0 <= i < st.len() ==> #[trigger] idx[i].0 == rs[st[i]].key
        &&& forall|i: int| 0 <= i < st.len() ==> #[trigger] idx[i].1 == 7 + encode_all(rs.subrange(0, st[i])).len()
        &&& forall|i: int, j: int| 0 <= i < j < rs.len() ==> lex_lt(#[trigger] rs[i].key, #[trigger] rs[j].key)
        &&& forall|i: int| 0 <= i < rs.len() ==> record_fits(#[trigger] rs[i])
        &&& forall|i: int| 0 <= i < rs.len() ==> self.bloom.admits(#[trigger] rs[i].key)
    }

    /// Every block, the open one included, takes at most `BLOCK_SIZE` bytes
    /// unless it is a single record.
    pub open spec fn blocks_sized(&self) -> bool {
        blocks_bounded(self.records@, self.starts@)
    }

    /// The index written so far is no larger than its budget.
    pub open spec fn index_in_budget(&self) -> bool {
        encode_index(self.index@).len() <= index_budget(self.records@)
    }

    /// A writer whose output so far is the magic.
    pub fn new(id: u64, name: String) -> (r: SegmentWriter)
        ensures
            r.wf(),
            r.blocks_ok(),
            r.index_in_budget(),
            r.blocks_sized(),
            r.id == id,
            r.name == name,
            r.records@.len() == 0,
            r.out@ == segment_magic(),
    {
        let out = magic_bytes();
        let r = SegmentWriter {
            id,
            name,
            seq_low: u64::MAX,
            seq_high: 0,
            key_count: 0,
            current_block: Vec::new(),
            index: Vec::new(),
            bloom: BloomFilter::new(BLOOM_BITS, BLOOM_HASHES),
            out,
            records: Ghost(Seq::empty()),
            starts: Ghost(Seq::empty()),
        };
        assert(r.out@ + r.current_block@ == segment_magic() + encode_all(r.records@));
        assert(encode_index(r.index@).len() == 0);
        r
    }

    #[verifier::rlimit(50)]
    proof fn lemma_blocks_step(&self, first: SegmentWriter, mid: SegmentWriter, rec: BlockRecord)
        requires
            first.wf(),
            first.blocks_ok(),
            record_fits(rec),
            first.records@.len() > 0 ==> lex_lt(first.records@.last().key, rec.key),
            self.records@ == first.records@.push(rec),
            mid.records == first.records,
            self.bloom == mid.bloom,
            self.index == mid.index,
            self.starts == mid.starts,
            mid.bloom.covers(&first.bloom),
            mid.bloom.admits(rec.key),
            first.bloom.wf(),
            mid.index@ == first.index@ ==> mid.starts == first.starts && first.records@.len() > 0,
            mid.index@ != first.index@ ==> mid.current_block@.len() == 0 && mid.index@ == first.index@.push(mid.index@.last()) && mid.index@.last().key@ == rec.key && mid.index@.last().offset == mid.out@.len() && mid.starts@ == first.starts@.push(first.records@.len() as int),
            mid.out@ + mid.current_block@ == segment_magic() + encode_all(first.records@),
        ensures
            self.blocks_ok(),
    {
        let rs0 = first.records@;
        let rs = self.records@;
        let st = self.starts@;
        let idx = index_view(self.index@);
        let idx0 = index_view(first.index@);
        assert forall|i: int| 0 <= i < rs0.len() implies #[trigger] rs[i] == rs0[i] by {}
        assert forall|i: int, j: int| 0 <= i < j < rs.len() implies lex_lt(#[trigger] rs[i].key, #[trigger] rs[j].key) by {
            if j == rs0.len() {
                if i < rs0.len() - 1 {
                    crate::order::lemma_lex_trans(rs0[i].key, rs0.last().key, rec.key);
                }
            } else {
                assert(lex_lt(rs0[i].key, rs0[j].key));
            }
        }
        assert forall|i: int| 0 <= i < rs.len() implies self.bloom.admits(#[trigger] rs[i].key) by {
            if i < rs0.len() {
                assert(first.bloom.admits(rs0[i].key));
                crate::bloom::lemma_added_key_admitted(first.bloom, mid.bloom, rs0[i].key);
            }
        }
        if mid.index@ != first.index@ {
            assert(mid.out@ + mid.current_block@ == mid.out@);
            assert(segment_magic().len() == 7);
            let e = mid.index@.last();
            assert(idx =~= idx0.push((e.key@, e.offset)));
        }
        let out_len: int = if mid.index@ != first.index@ { mid.out@.len() as int } else { 0 };
        lemma_index_step(first.records@, rec, first.starts@, st, idx0, idx, out_len, mid.index@ != first.index@);
        let st0 = first.starts@;
        assert forall|i: int| 0 <= i < st.len() implies 0 <= #[trigger] st[i] < rs.len() by {
            if i < st0.len() {
                assert(st[i] == st0[i]);
            }
        }
        assert forall|i: int| 0 <= i < st.len() - 1 implies #[trigger] st[i] < st[i + 1] by {
            if i + 1 < st0.len() {
                assert(st[i] == st0[i] && st[i + 1] == st0[i + 1]);
            } else {
                assert(st[i] == st0[i]);
            }
        }
        if st.len() > 0 && st0.len() > 0 {
            assert(st[0] == st0[0]);
        }
        assert forall|i: int| 0 <= i < rs.len() implies record_fits(#[trigger] rs[i]) by {
            if i < rs0.len() {
                assert(rs[i] == rs0[i]);
            }
        }
    }

    /// Moves the block being built to the output.
    fn flush_block(&mut self)
        requires
            old(self).wf(),
        ensures
            final(self).wf(),
            final(self).current_block@.len() == 0,
            final(self).out@ == old(self).out@ + old(self).current_block@,
            final(self).records == old(self).records,
            final(self).starts == old(self).starts,
            final(self).index@ == old(self).index@,
            final(self).bloom == old(self).bloom,
            final(self).seq_high == old(self).seq_high,
            final(self).seq_low == old(self).seq_low,
            final(self).id == old(self).id,
            final(self).name == old(self).name,
    {
        if self.current_block.len() == 0 {
            return;
        }
        let ghost before = *self;
        append_bytes(&mut self.out, self.current_block.as_slice());
        self.current_block = Vec::new();
        proof {
            let idx = index_view(self.index@);
            assert(self.out@ + self.current_block@ == before.out@ + before.current_block@);
            assert forall|i: int| 0 <= i < idx.len() implies 7 <= #[trigger] idx[i].1 <= self.out@.len() by {
                assert(index_ok(index_view(before.index@), 7, before.out@.len()));
            }
        }
    }

    /// Appends a record; a record that would push the block past
    /// `BLOCK_SIZE` starts a new block, and each new block gets an index entry.
    #[verifier::rlimit(100)]
    #[verifier::spinoff_prover]
    pub fn add(&mut self, rec_type: u8, key: &[u8], value: Option<&[u8]>, seq: u64)
        requires
            old(self).wf(),
            old(self).records@.len() > 0 ==> lex_lt(old(self).records@.last().key, key@),
            key@.len() <= u32::MAX,
            match value {
                Some(v) => v@.len() <= u32::MAX,
                None => true,
            },
            old(self).out@.len() + old(self).current_block@.len() + 17 + key@.len() + match value {
                Some(v) => v@.len() as int,
                None => 0,
            } <= usize::MAX,
            old(self).key_count < usize::MAX,
            old(self).blocks_ok(),
            old(self).index_in_budget(),
            old(self).blocks_sized(),
        ensures
            final(self).wf(),
            final(self).blocks_ok(),
            final(self).index_in_budget(),
            final(self).blocks_sized(),
            final(self).key_count == old(self).key_count + 1,
            final(self).records@ == old(self).records@.push(
                record_of(rec_type, key@, opt_bytes(value), seq),
            ),
            final(self).bloom.covers(&old(self).bloom),
            final(self).bloom.admits(key@),
            final(self).id == old(self).id,
            final(self).name == old(self).name,
    {
        let ghost rec = record_of(rec_type, key@, opt_bytes(value), seq);
        let ghost first = *self;
        self.bloom.add(key);
        let mut record: Vec<u8> = Vec::new();
        push64(&mut record, seq);
        record.push(rec_type);
        push32(&mut record, key.len() as u32);
        let vlen: usize = match value {
            Some(v) => v.len(),
            None => 0,
        };
        push32(&mut record, vlen as u32);
        append_bytes(&mut record, key);
        match value {
            Some(v) => append_bytes(&mut record, v),
            None => {},
        }
        proof {
            assert(record@ == encode_record(rec));
            crate::codec::lemma_le64(seq);
            crate::codec::lemma_le32(key@.len() as u32);
            crate::codec::lemma_le32(vlen as u32);
        }
        let ghost fits_open = self.current_block@.len() + record@.len() <= BLOCK_SIZE;
        if self.current_block.len() + record.len() > BLOCK_SIZE {
            self.flush_block();
        }
        if self.current_block.len() == 0 {
            let ghost before = *self;
            let k = copy_range(key, 0, key.len());
            proof {
                assert(key@.subrange(0, key@.len() as int) == key@);
            }
            self.index.push(IndexEntry { key: k, offset: self.out.len() as u64 });
            self.starts = Ghost(self.starts@.push(self.records@.len() as int));
            proof {
                let idx0 = index_view(before.index@);
                let idx = index_view(self.index@);
                assert(idx == idx0.push((key@, self.out@.len() as u64)));
                assert forall|i: int| 0 <= i < idx0.len() implies lex_lt(#[trigger] idx0[i].0, key@) by {
                    if idx0[i].0 != first.records@.last().key {
                        lemma_lex_trans(idx0[i].0, first.records@.last().key, key@);
                    }
                }
                assert forall|i: int, j: int| 0 <= i < j < idx.len() implies lex_lt(#[trigger] idx[i].0, #[trigger] idx[j].0) by {
                    if j == idx0.len() {
                        assert(lex_lt(idx0[i].0, key@));
                    } else {
                        assert(lex_lt(idx0[i].0, idx0[j].0));
                    }
                }
                assert forall|i: int, j: int| 0 <= i < j < idx.len() implies #[trigger] idx[i].1 <= #[trigger] idx[j].1 by {
                    if j < idx0.len() {
                        assert(idx0[i].1 <= idx0[j].1);
                    } else {
                        assert(idx0[i].1 <= before.out@.len());
                    }
                }
                assert forall|i: int| 0 <= i < idx.len() implies 7 <= #[trigger] idx[i].1 <= self.out@.len() by {
                    if i < idx0.len() {
                        assert(7 <= idx0[i].1 <= before.out@.len());
                    }
                }
            }
        }
        assert(self.index@ == first.index@ ==> first.current_block@.len() > 0 && first.current_block@.len() + record@.len() <= BLOCK_SIZE);
        assert(record@.len() == rec_size(rec));
        let ghost mid = *self;
        append_bytes(&mut self.current_block, record.as_slice());
        self.key_count = self.key_count + 1;
        self.records = Ghost(self.records@.push(rec));
        if seq < self.seq_low {
            self.seq_low = seq;
        }
        if seq > self.seq_high {
            self.seq_high = seq;
        }
        proof {
            let rs = self.records@;
            assert(mid.records@ == first.records@);
            assert(rs.drop_last() =~= first.records@);
            assert(encode_all(rs) == encode_all(first.records@) + encode_record(rec));
            assert(self.out@ + self.current_block@ == mid.out@ + mid.current_block@ + record@);
            let idx = index_view(self.index@);
            assert forall|i: int| 0 <= i < idx.len() implies lex_le(#[trigger] idx[i].0, rs.last().key) by {
                if i + 1 < idx.len() || mid.index@.len() == first.index@.len() {
                    if first.records@.len() > 0 {
                        assert(index_view(first.index@)[i] == idx[i]);
                        assert(lex_le(idx[i].0, first.records@.last().key));
                        if idx[i].0 != first.records@.last().key {
                            lemma_lex_trans(idx[i].0, first.records@.last().key, key@);
                        }
                    }
                }
            }
            assert forall|i: int| 0 <= i < rs.len() implies self.seq_low <= #[trigger] rs[i].seq <= self.seq_high by {
                if i < first.records@.len() {
                    assert(rs[i] == first.records@[i]);
                }
            }
            assert(self.bloom.wf());
            assert(self.out@ + self.current_block@ == segment_magic() + encode_all(rs));
            assert(index_ok(idx, 7, self.out@.len()));
            assert(self.current_block@.len() > 0 ==> (self.index@.len() > 0 && self.index@.last().offset
            == self.out@.len()));
            assert(self.key_count == rs.len());
            assert(rs.drop_last() == first.records@);
            self.lemma_blocks_step(first, mid, rec);
            if mid.index@ != first.index@ {
                assert(mid.index@ == first.index@.push(mid.index@.last()));
                assert(mid.index@.drop_last() == first.index@);
            }
            assert(self.index_in_budget()) by {
                lemma_budget_step(first.index@, self.index@, first.records@, rec);
            }
            lemma_sized_step(first, mid, rec, record@.len());
        }
    }

    /// Seals the segment: the last block, then the index, the bloom bits
    /// and the footer. Fails when the index or the key count does not fit
    /// the footer's 32-bit fields.
    #[verifier::rlimit(100)]
    #[verifier::spinoff_prover]
    pub fn finish(self) -> (r: Result<Segment, AntlerError>)
        requires
            self.wf(),
            self.blocks_ok(),
            self.index_in_budget(),
        ensures
            r is Ok <==> (encode_index(self.index@).len() <= u32::MAX && self.key_count <= u32::MAX),
            match r {
                Ok(seg) => {
                    &&& seg.wf()
                    &&& seg.id == self.id
                    &&& seg.name == self.name
                    &&& seg.seq_high == self.seq_high
                    &&& seg.index_start == 7 + encode_all(self.records@).len()
                    &&& seg.idx() == index_view(self.index@)
                    &&& seg.bloom == Some(self.bloom)
                    &&& seg.holds_records(self.records@)
                    &&& opens(seg.data@)
                    &&& index_of(seg.data@) == seg.idx()
                    &&& index_start_of(seg.data@) == seg.index_start
                    &&& footer_seq_high(seg.data@) == seg.seq_high
                    &&& footer_bloom_size(seg.data@) == self.bloom.bits@.len()
                    &&& footer_hash_count(seg.data@) == self.bloom.hash_count
                    &&& seg.data@ == segment_magic() + encode_all(self.records@) + encode_index(
                        self.index@,
                    ) + self.bloom.bits@ + encode_footer(
                        self.seq_low,
                        self.seq_high,
                        self.key_count as u32,
                        encode_index(self.index@).len() as u32,
                        self.bloom.bits@.len() as u32,
                        self.bloom.hash_count as u32,
                    )
                },
                Err(e) => e is ResourceExhausted,
            },
    {
        let mut w = self;
        w.flush_block();
        let ghost flushed = w;
        let index_start = w.out.len();
        let mut index_data: Vec<u8> = Vec::new();
        let mut i: usize = 0;
        while i < w.index.len()
            invariant
                0 <= i <= w.index@.len(),
                index_data@ == encode_index(w.index@.subrange(0, i as int)),
            decreases w.index@.len() - i,
        {
            let ghost before = index_data@;
            push32(&mut index_data, w.index[i].key.len() as u32);
            push64(&mut index_data, w.index[i].offset);
            append_bytes(&mut index_data, w.index[i].key.as_slice());
            i = i + 1;
            proof {
                let sub = w.index@.subrange(0, i as int);
                assert(sub.drop_last() == w.index@.subrange(0, i - 1));
                assert(sub.last() == w.index@[i - 1]);
            }
        }
        proof {
            assert(w.index@.subrange(0, w.index@.len() as int) == w.index@);
        }
        if index_data.len() > 0xffff_ffff || w.key_count > 0xffff_ffff {
            return Err(
                AntlerError::ResourceExhausted {
                    resource: String::from_str("segment index"),
                    limit: String::from_str("4294967295 bytes and keys"),
                },
            );
        }
        let mut data = w.out;
        append_bytes(&mut data, index_data.as_slice());
        append_bytes(&mut data, w.bloom.bits.as_slice());
        push64(&mut data, w.seq_low);
        push64(&mut data, w.seq_high);
        push32(&mut data, w.key_count as u32);
        push32(&mut data, index_data.len() as u32);
        push32(&mut data, w.bloom.bits.len() as u32);
        push32(&mut data, w.bloom.hash_count as u32);
        proof {
            assert(self.out@ + self.current_block@ == w.out@);
            let idx = index_view(w.index@);
            assert forall|j: int| 0 <= j < idx.len() implies 0 <= #[trigger] idx[j].1 <= index_start by {
                assert(7 <= idx[j].1 <= w.out@.len());
            }
        }
        let seg = Segment {
            id: w.id,
            name: w.name,
            seq_high: w.seq_high,
            bloom: Some(w.bloom),
            index: w.index,
            index_start: index_start as u64,
            data,
        };
        proof {
            assert(seg.data@.subrange(0, flushed.out@.len() as int) == flushed.out@);
            lemma_sealed_props(seg, flushed);
            assert forall|i: int| 0 <= i < flushed.index@.len() implies (#[trigger] flushed.index@[i]).key@.len() <= u32::MAX by {
                assert(index_view(flushed.index@)[i].0 == flushed.index@[i].key@);
                assert(record_fits(flushed.records@[flushed.starts@[i]]));
            }
            assert(flushed.out@ + flushed.current_block@ == flushed.out@);
            assert(flushed.out@.subrange(0, 7) == segment_magic());
            assert(seg.data@ =~= flushed.out@ + encode_index(flushed.index@) + flushed.bloom.bits@ + encode_footer(flushed.seq_low, flushed.seq_high, flushed.key_count as u32, encode_index(flushed.index@).len() as u32, flushed.bloom.bits@.len() as u32, flushed.bloom.hash_count as u32));
            lemma_sealed_opens(seg.data@, flushed.out@, flushed.index@, flushed.bloom.bits@, flushed.seq_low, flushed.seq_high, flushed.key_count as u32, flushed.bloom.hash_count as u32);
            assert(flushed.records@ == self.records@);
        }
        Ok(seg)
    }
}

/// What a segment sealed by a writer holds: each record is found by its
/// key, a key no record has is not found, no record is numbered above a
/// bound on theirs, and a scan yields the in-range `SET` records in order.
#[verifier::rlimit(100)]
proof fn lemma_sealed_props(seg: Segment, w: SegmentWriter)
    requires
        seg.wf(),
        w.wf(),
        w.blocks_ok(),
        w.current_block@.len() == 0,
        seg.data@.len() >= w.out@.len(),
        seg.data@.subrange(0, w.out@.len() as int) == w.out@,
        seg.index@ == w.index@,
        seg.index_start == w.out@.len(),
        seg.bloom == Some(w.bloom),
    ensures
        seg.holds_records(w.records@),
{
    reveal(Segment::holds_records);
    let rs = w.records@;
    let st = w.starts@;
    assert(w.out@ + w.current_block@ == w.out@);
    assert(segment_magic().len() == 7);
    assert(index_view(w.index@) == seg.idx());
    assert forall|m: int| 0 <= m < rs.len() implies seg.find((#[trigger] rs[m]).key) == Some((rs[m].kind, rs[m].value, rs[m].seq)) by {
        seg.lemma_sealed_finds(rs, st, m);
    }
    assert forall|k: Seq<u8>| (forall|m: int| 0 <= m < rs.len() ==> (#[trigger] rs[m]).key != k) implies #[trigger] seg.find(k) is None by {
        seg.lemma_sealed_absent(rs, st, k);
    }
    assert forall|bound: u64| (forall|m: int| 0 <= m < rs.len() ==> (#[trigger] rs[m]).seq <= bound) implies #[trigger] seg.seqs_below(bound) by {
        seg.lemma_sealed_below(rs, st, bound);
    }
    assert forall|lo: Seq<u8>, hi: Seq<u8>| #[trigger] seg.scan_from(0, lo, hi) == sets_in_range(rs, lo, hi) by {
        seg.lemma_scan_from(rs, st, 0, lo, hi);
        assert(rs.subrange(0, rs.len() as int) =~= rs);
        if st.len() == 0 {
            assert(rs.len() == 0);
            assert(rs.subrange(0, 0) =~= rs);
        } else {
            assert(st[0] == 0);
        }
    }
}

/// A record whose key and value lengths fit the 32-bit length fields.
pub open spec fn record_fits(r: BlockRecord) -> bool {
    r.key.len() <= u32::MAX && r.value.len() <= u32::MAX
}

proof fn lemma_encode_all_front(rs: Seq<BlockRecord>)
    requires
        rs.len() > 0,
    ensures
        encode_all(rs) == encode_record(rs[0]) + encode_all(rs.drop_first()),
    decreases rs.len(),
{
    if rs.len() > 1 {
        lemma_encode_all_front(rs.drop_last());
        assert(rs.drop_last().drop_first() == rs.drop_first().drop_last());
        assert(rs.drop_last()[0] == rs[0]);
        assert(rs.drop_first().last() == rs.last());
        let a = encode_record(rs[0]);
        let m = encode_all(rs.drop_first().drop_last());
        let z = encode_record(rs.last());
        assert(encode_all(rs.drop_first()) == m + z);
        assert(encode_all(rs) == (a + m) + z);
        assert((a + m) + z == a + (m + z));
    } else {
        assert(rs.drop_last().len() == 0);
        assert(rs.drop_first().len() == 0);
        assert(encode_all(rs.drop_last()) == Seq::<u8>::empty());
        assert(encode_all(rs.drop_first()) == Seq::<u8>::empty());
        assert(encode_all(rs) == Seq::<u8>::empty() + encode_record(rs[0]));
        assert(Seq::<u8>::empty() + encode_record(rs[0]) == encode_record(rs[0]));
        assert(encode_record(rs[0]) + Seq::<u8>::empty() == encode_record(rs[0]));
    }
}

proof fn lemma_encode_index_front(idx: Seq<IndexEntry>)
    requires
        idx.len() > 0,
    ensures
        encode_index(idx) == encode_index_entry(idx[0]) + encode_index(idx.drop_first()),
    decreases idx.len(),
{
    if idx.len() > 1 {
        lemma_encode_index_front(idx.drop_last());
        assert(idx.drop_last().drop_first() == idx.drop_first().drop_last());
        assert(idx.drop_last()[0] == idx[0]);
        assert(idx.drop_first().last() == idx.last());
        let a = encode_index_entry(idx[0]);
        let m = encode_index(idx.drop_first().drop_last());
        let z = encode_index_entry(idx.last());
        assert(encode_index(idx.drop_first()) == m + z);
        assert(encode_index(idx) == (a + m) + z);
        assert((a + m) + z == a + (m + z));
    } else {
        assert(encode_index(idx.drop_last()) == Seq::<u8>::empty());
        assert(encode_index(idx.drop_first()) == Seq::<u8>::empty());
        assert(Seq::<u8>::empty() + encode_index_entry(idx[0]) == encode_index_entry(idx[0]));
        assert(encode_index_entry(idx[0]) + Seq::<u8>::empty() == encode_index_entry(idx[0]));
    }
}

proof fn lemma_parse_index_one(e: IndexEntry, rest: Seq<u8>)
    requires
        e.key@.len() <= u32::MAX,
    ensures
        parse_index(encode_index_entry(e) + rest) == seq![(e.key@, e.offset)] + parse_index(rest),
{
    let b = encode_index_entry(e) + rest;
    let k = e.key@.len() as int;
    crate::codec::lemma_le32(e.key@.len() as u32);
    crate::codec::lemma_le64(e.offset);
    assert(b.subrange(0, 4) == le32(e.key@.len() as u32));
    crate::codec::lemma_get32_at(b, 0, e.key@.len() as u32);
    assert(b.subrange(4, 12) == le64(e.offset));
    crate::codec::lemma_get64_at(b, 4, e.offset);
    assert(b.subrange(12, 12 + k) == e.key@);
    assert(b.subrange(12 + k, b.len() as int) == rest);
}

/// The index region reads back as the entries written into it.
pub proof fn lemma_index_round_trip(idx: Seq<IndexEntry>)
    requires
        forall|i: int| 0 <= i < idx.len() ==> (#[trigger] idx[i]).key@.len() <= u32::MAX,
    ensures
        parse_index(encode_index(idx)) == index_view(idx),
    decreases idx.len(),
{
    if idx.len() == 0 {
        assert(parse_index(Seq::<u8>::empty()) == Seq::<(Seq<u8>, u64)>::empty());
        assert(index_view(idx) =~= Seq::<(Seq<u8>, u64)>::empty());
    } else {
        let rest = idx.drop_first();
        assert forall|i: int| 0 <= i < rest.len() implies (#[trigger] rest[i]).key@.len() <= u32::MAX by {
            assert(rest[i] == idx[i + 1]);
        }
        lemma_index_round_trip(rest);
        lemma_encode_index_front(idx);
        assert(idx[0].key@.len() <= u32::MAX);
        lemma_parse_index_one(idx[0], encode_index(rest));
        assert(index_view(idx) =~= seq![(idx[0].key@, idx[0].offset)] + index_view(rest));
    }
}

/// A file laid out as `finish` lays it out opens, and reads back the same
/// index, index start, bloom bytes and footer fields.
#[verifier::rlimit(100)]
pub proof fn lemma_sealed_opens(d: Seq<u8>, out: Seq<u8>, idx: Seq<IndexEntry>, bits: Seq<u8>, seq_low: u64, seq_high: u64, kc: u32, hc: u32)
    requires
        d == out + encode_index(idx) + bits + encode_footer(seq_low, seq_high, kc, encode_index(idx).len() as u32, bits.len() as u32, hc),
        encode_index(idx).len() <= u32::MAX,
        bits.len() <= u32::MAX,
        8 * bits.len() <= usize::MAX,
        out.len() >= 7,
        out.subrange(0, 7) == segment_magic(),
        forall|i: int| 0 <= i < idx.len() ==> (#[trigger] idx[i]).key@.len() <= u32::MAX,
        index_ok(index_view(idx), 7, out.len()),
    ensures
        opens(d),
        index_of(d) == index_view(idx),
        index_start_of(d) == out.len(),
        footer_seq_high(d) == seq_high,
        footer_bloom_size(d) == bits.len(),
        footer_hash_count(d) == hc,
        d.subrange(d.len() - 32 - bits.len(), d.len() - 32) == bits,
{
    let ix = encode_index(idx);
    let il = ix.len() as u32;
    let bl = bits.len() as u32;
    let n = d.len() as int;
    crate::codec::lemma_le64(seq_low);
    crate::codec::lemma_le64(seq_high);
    crate::codec::lemma_le32(kc);
    crate::codec::lemma_le32(il);
    crate::codec::lemma_le32(bl);
    crate::codec::lemma_le32(hc);
    let f = encode_footer(seq_low, seq_high, kc, il, bl, hc);
    assert(f.len() == 32);
    assert(n == out.len() + ix.len() + bits.len() + 32);
    assert(d.subrange(n - 24, n - 16) == le64(seq_high));
    crate::codec::lemma_get64_at(d, n - 24, seq_high);
    assert(d.subrange(n - 12, n - 8) == le32(il));
    crate::codec::lemma_get32_at(d, n - 12, il);
    assert(d.subrange(n - 8, n - 4) == le32(bl));
    crate::codec::lemma_get32_at(d, n - 8, bl);
    assert(d.subrange(n - 4, n) == le32(hc));
    crate::codec::lemma_get32_at(d, n - 4, hc);
    assert(d.subrange(0, 7) == out.subrange(0, 7));
    let st = out.len() as int;
    assert(d.subrange(st, st + ix.len()) == ix);
    lemma_index_round_trip(idx);
    assert(d.subrange(n - 32 - bits.len(), n - 32) == bits);
}

proof fn lemma_parse_one(r: BlockRecord, rest: Seq<u8>)
    requires
        record_fits(r),
    ensures
        parse_records(encode_record(r) + rest) == seq![r] + parse_records(rest),
{
    let b = encode_record(r) + rest;
    let klen = r.key.len() as int;
    let vlen = r.value.len() as int;
    crate::codec::lemma_le64(r.seq);
    crate::codec::lemma_le32(r.key.len() as u32);
    crate::codec::lemma_le32(r.value.len() as u32);
    assert(b.subrange(0, 8) == le64(r.seq));
    crate::codec::lemma_get64_at(b, 0, r.seq);
    assert(b.subrange(9, 13) == le32(r.key.len() as u32));
    crate::codec::lemma_get32_at(b, 9, r.key.len() as u32);
    assert(b.subrange(13, 17) == le32(r.value.len() as u32));
    crate::codec::lemma_get32_at(b, 13, r.value.len() as u32);
    assert(b[8] == r.kind);
    assert(b.subrange(17, 17 + klen) == r.key);
    assert(b.subrange(17 + klen, 17 + klen + vlen) == r.value);
    assert(b.subrange(17 + klen + vlen, b.len() as int) == rest);
}

/// A block reads back as exactly the records written into it, in order.
pub proof fn lemma_block_round_trip(rs: Seq<BlockRecord>)
    requires
        forall|i: int| 0 <= i < rs.len() ==> record_fits(#[trigger] rs[i]),
    ensures
        parse_records(encode_all(rs)) == rs,
    decreases rs.len(),
{
    if rs.len() == 0 {
        assert(parse_records(Seq::<u8>::empty()) == Seq::<BlockRecord>::empty());
    } else {
        let rest = rs.drop_first();
        assert forall|i: int| 0 <= i < rest.len() implies record_fits(#[trigger] rest[i]) by {
            assert(rest[i] == rs[i + 1]);
        }
        lemma_block_round_trip(rest);
        lemma_encode_all_front(rs);
        assert(record_fits(rs[0]));
        lemma_parse_one(rs[0], encode_all(rest));
        assert(rs == seq![rs[0]] + rest);
    }
}

/// Among records with distinct keys, the record found for a key is the one
/// record with that key.
pub proof fn lemma_find_unique(rs: Seq<BlockRecord>, m: int)
    requires
        0 <= m < rs.len(),
        forall|i: int, j: int| 0 <= i < j < rs.len() ==> (#[trigger] rs[i]).key != (#[trigger] rs[j]).key,
    ensures
        find_rec(rs, rs[m].key) == Some((rs[m].kind, rs[m].value, rs[m].seq)),
    decreases rs.len(),
{
    if m > 0 {
        let rest = rs.drop_first();
        assert(rs[0].key != rs[m].key);
        assert forall|i: int, j: int| 0 <= i < j < rest.len() implies (#[trigger] rest[i]).key != (#[trigger] rest[j]).key by {
            assert(rest[i] == rs[i + 1] && rest[j] == rs[j + 1]);
        }
        assert(rest[m - 1] == rs[m]);
        lemma_find_unique(rest, m - 1);
    }
}

proof fn lemma_encode_split(rs: Seq<BlockRecord>, a: int, b: int)
    requires
        0 <= a <= b <= rs.len(),
    ensures
        encode_all(rs.subrange(0, b)) == encode_all(rs.subrange(0, a)) + encode_all(rs.subrange(a, b)),
    decreases b - a,
{
    if b == a {
        assert(rs.subrange(a, b).len() == 0);
        assert(encode_all(rs.subrange(0, a)) + Seq::<u8>::empty() == encode_all(rs.subrange(0, a)));
    } else {
        lemma_encode_split(rs, a, b - 1);
        assert(rs.subrange(0, b).drop_last() == rs.subrange(0, b - 1));
        assert(rs.subrange(a, b).drop_last() == rs.subrange(a, b - 1));
        assert(rs.subrange(0, b).last() == rs[b - 1]);
        assert(rs.subrange(a, b).last() == rs[b - 1]);
        let x = encode_all(rs.subrange(0, a));
        let y = encode_all(rs.subrange(a, b - 1));
        let z = encode_record(rs[b - 1]);
        assert((x + y) + z == x + (y + z));
    }
}

/// The block that holds record `m`: the last one starting at or before it.
proof fn lemma_block_of(st: Seq<int>, m: int, i: int) -> (r: int)
    requires
        0 <= i < st.len(),
        st[0] == 0,
        0 <= m,
        forall|j: int| 0 <= j < st.len() - 1 ==> #[trigger] st[j] < st[j + 1],
        i + 1 == st.len() || m < st[i + 1],
    ensures
        0 <= r <= i,
        st[r] <= m,
        r + 1 == st.len() || m < st[r + 1],
    decreases i,
{
    if st[i] <= m {
        i
    } else {
        lemma_block_of(st, m, i - 1)
    }
}

impl Segment {
    /// Block `i` holds the encoding of the records from `st[i]` up to the
    /// next block's start.
    #[verifier::rlimit(100)]
    proof fn lemma_block_bytes(&self, rs: Seq<BlockRecord>, st: Seq<int>, i: int)
        requires
            st.len() == self.index@.len(),
            0 <= i < st.len(),
            forall|k: int| 0 <= k < st.len() ==> 0 <= #[trigger] st[k] < rs.len(),
            forall|k: int| 0 <= k < st.len() - 1 ==> #[trigger] st[k] < st[k + 1],
            forall|k: int| 0 <= k < st.len() ==> #[trigger] self.idx()[k].1 == 7 + encode_all(rs.subrange(0, st[k])).len(),
            self.index_start == 7 + encode_all(rs).len(),
            self.data@.len() >= self.index_start,
            self.data@.subrange(0, self.index_start as int) == segment_magic() + encode_all(rs),
        ensures
            self.block(i) == encode_all(rs.subrange(st[i], if i + 1 < st.len() { st[i + 1] } else { rs.len() as int })),
    {
        let n = st.len();
        let a = st[i];
        let e = if i + 1 < n { st[i + 1] } else { rs.len() as int };
        assert(segment_magic().len() == 7);
        lemma_encode_split(rs, a, e);
        lemma_encode_split(rs, e, rs.len() as int);
        assert(rs.subrange(0, rs.len() as int) == rs);
        let pa = encode_all(rs.subrange(0, a));
        let pb = encode_all(rs.subrange(a, e));
        let pc = encode_all(rs.subrange(e, rs.len() as int));
        let d = self.data@.subrange(0, self.index_start as int);
        assert(d == segment_magic() + (pa + pb + pc));
        assert(self.index@[i].offset == self.idx()[i].1);
        if i + 1 < n {
            assert(self.index@[i + 1].offset == self.idx()[i + 1].1);
        }
        assert(self.block_end(i) == 7 + pa.len() + pb.len());
        assert(self.block(i) == d.subrange(7 + pa.len() as int, (7 + pa.len() + pb.len()) as int));
    }

    /// A segment whose blocks hold the records `rs` has no record above a
    /// bound on theirs.
    proof fn lemma_sealed_below(&self, rs: Seq<BlockRecord>, st: Seq<int>, bound: u64)
        requires
            st.len() == self.index@.len(),
            forall|k: int| 0 <= k < st.len() ==> 0 <= #[trigger] st[k] < rs.len(),
            forall|k: int| 0 <= k < st.len() - 1 ==> #[trigger] st[k] < st[k + 1],
            forall|k: int| 0 <= k < st.len() ==> #[trigger] self.idx()[k].1 == 7 + encode_all(rs.subrange(0, st[k])).len(),
            forall|k: int| 0 <= k < rs.len() ==> record_fits(#[trigger] rs[k]),
            forall|k: int| 0 <= k < rs.len() ==> (#[trigger] rs[k]).seq <= bound,
            self.index_start == 7 + encode_all(rs).len(),
            self.data@.len() >= self.index_start,
            self.data@.subrange(0, self.index_start as int) == segment_magic() + encode_all(rs),
        ensures
            self.seqs_below(bound),
    {
        assert forall|i: int, j: int| 0 <= i < self.index@.len() && 0 <= j < parse_records(self.block(i)).len() implies (#[trigger] parse_records(#[trigger] self.block(i))[j]).seq <= bound by {
            self.lemma_block_bytes(rs, st, i);
            let a = st[i];
            let e = if i + 1 < st.len() { st[i + 1] } else { rs.len() as int };
            let sub = rs.subrange(a, e);
            assert forall|x: int| 0 <= x < sub.len() implies record_fits(#[trigger] sub[x]) by {
                assert(sub[x] == rs[a + x]);
            }
            lemma_block_round_trip(sub);
            assert(sub[j] == rs[a + j]);
        }
    }

    /// A segment whose blocks hold the records `rs` finds nothing for a key
    /// that no record has.
    proof fn lemma_sealed_absent(&self, rs: Seq<BlockRecord>, st: Seq<int>, key: Seq<u8>)
        requires
            st.len() == self.index@.len(),
            forall|k: int| 0 <= k < st.len() ==> 0 <= #[trigger] st[k] < rs.len(),
            forall|k: int| 0 <= k < st.len() - 1 ==> #[trigger] st[k] < st[k + 1],
            forall|k: int| 0 <= k < st.len() ==> #[trigger] self.idx()[k].1 == 7 + encode_all(rs.subrange(0, st[k])).len(),
            forall|k: int| 0 <= k < rs.len() ==> record_fits(#[trigger] rs[k]),
            forall|m: int| 0 <= m < rs.len() ==> (#[trigger] rs[m]).key != key,
            self.index_start == 7 + encode_all(rs).len(),
            self.data@.len() >= self.index_start,
            self.data@.subrange(0, self.index_start as int) == segment_magic() + encode_all(rs),
        ensures
            self.find(key) is None,
    {
        if self.bloom_admits(key) && exists|i: int| self.holds(i, key) {
            let i = choose|i: int| self.holds(i, key);
            self.lemma_block_bytes(rs, st, i);
            let a = st[i];
            let e = if i + 1 < st.len() { st[i + 1] } else { rs.len() as int };
            let sub = rs.subrange(a, e);
            assert forall|x: int| 0 <= x < sub.len() implies record_fits(#[trigger] sub[x]) by {
                assert(sub[x] == rs[a + x]);
            }
            lemma_block_round_trip(sub);
            assert forall|x: int| 0 <= x < sub.len() implies (#[trigger] sub[x]).key != key by {
                assert(sub[x] == rs[a + x]);
            }
            lemma_find_absent(sub, key);
        }
    }

    /// A segment whose blocks hold the records `rs`, block `k` starting
    /// at record `st[k]`, finds every `SET` record by its key.
    #[verifier::rlimit(100)]
    proof fn lemma_sealed_finds(&self, rs: Seq<BlockRecord>, st: Seq<int>, m: int)
        requires
            self.wf(),
            st.len() == self.index@.len(),
            st.len() > 0,
            st[0] == 0,
            forall|k: int| 0 <= k < st.len() ==> 0 <= #[trigger] st[k] < rs.len(),
            forall|k: int| 0 <= k < st.len() - 1 ==> #[trigger] st[k] < st[k + 1],
            forall|k: int| 0 <= k < st.len() ==> #[trigger] self.idx()[k].0 == rs[st[k]].key,
            forall|k: int| 0 <= k < st.len() ==> #[trigger] self.idx()[k].1 == 7 + encode_all(rs.subrange(0, st[k])).len(),
            forall|x: int, y: int| 0 <= x < y < rs.len() ==> lex_lt(#[trigger] rs[x].key, #[trigger] rs[y].key),
            forall|k: int| 0 <= k < rs.len() ==> record_fits(#[trigger] rs[k]),
            self.index_start == 7 + encode_all(rs).len(),
            self.data@.subrange(0, self.index_start as int) == segment_magic() + encode_all(rs),
            0 <= m < rs.len(),
            self.bloom_admits(rs[m].key),
        ensures
            self.find(rs[m].key) == Some((rs[m].kind, rs[m].value, rs[m].seq)),
    {
        let idx = self.idx();
        let key = rs[m].key;
        let n = st.len();
        let i = lemma_block_of(st, m, n - 1);
        let a = st[i];
        let e = if i + 1 < n { st[i + 1] } else { rs.len() as int };
        assert(self.holds(i, key)) by {
            if a != m {
                assert(lex_lt(rs[a].key, rs[m].key));
            }
            if i + 1 < n {
                assert(lex_lt(rs[m].key, rs[e].key));
            }
        }
        let sub = rs.subrange(a, e);
        self.lemma_block_bytes(rs, st, i);
        assert(parse_records(self.block(i)) == sub) by {
            assert forall|j: int| 0 <= j < sub.len() implies record_fits(#[trigger] sub[j]) by {
                assert(sub[j] == rs[a + j]);
            }
            lemma_block_round_trip(sub);
        }
        assert(find_rec(sub, key) == Some((rs[m].kind, rs[m].value, rs[m].seq))) by {
            assert forall|x: int, y: int| 0 <= x < y < sub.len() implies (#[trigger] sub[x]).key != (#[trigger] sub[y]).key by {
                assert(lex_lt(rs[a + x].key, rs[a + y].key));
                crate::order::lemma_lex_irrefl(rs[a + x].key);
            }
            assert(sub[m - a] == rs[m]);
            lemma_find_unique(sub, m - a);
        }
        let j = choose|j: int| self.holds(j, key);
        self.lemma_holds_unique(i, j, key);
    }
}

/// What `find_rec` returns is one of the records.
proof fn lemma_find_in(rs: Seq<BlockRecord>, key: Seq<u8>)
    requires
        find_rec(rs, key) is Some,
    ensures
        exists|j: int| 0 <= j < rs.len() && (#[trigger] rs[j]).seq == (find_rec(rs, key)->0).2,
    decreases rs.len(),
{
    if rs[0].key != key {
        lemma_find_in(rs.drop_first(), key);
        let j = choose|j: int| 0 <= j < rs.drop_first().len() && (#[trigger] rs.drop_first()[j]).seq == (find_rec(rs, key)->0).2;
        assert(rs[j + 1] == rs.drop_first()[j]);
    } else {
        assert(rs[0].seq == (find_rec(rs, key)->0).2);
    }
}

/// No record for `key` means nothing is found.
proof fn lemma_find_absent(rs: Seq<BlockRecord>, key: Seq<u8>)
    requires
        forall|j: int| 0 <= j < rs.len() ==> (#[trigger] rs[j]).key != key,
    ensures
        find_rec(rs, key) is None,
    decreases rs.len(),
{
    if rs.len() > 0 {
        assert(rs[0].key != key);
        assert forall|j: int| 0 <= j < rs.drop_first().len() implies (#[trigger] rs.drop_first()[j]).key != key by {
            assert(rs.drop_first()[j] == rs[j + 1]);
        }
        lemma_find_absent(rs.drop_first(), key);
    }
}

impl Segment {
    /// The segment reads back exactly the records `rs`: each is found by its
    /// key, a key none has is not found, no record is numbered above a bound
    /// on theirs, and a scan of any range yields the in-range `SET`s in order.
    #[verifier::opaque]
    pub open spec fn holds_records(&self, rs: Seq<BlockRecord>) -> bool {
        &&& forall|m: int| 0 <= m < rs.len() ==> self.find((#[trigger] rs[m]).key) == Some((rs[m].kind, rs[m].value, rs[m].seq))
        &&& forall|k: Seq<u8>| (forall|m: int| 0 <= m < rs.len() ==> (#[trigger] rs[m]).key != k) ==> #[trigger] self.find(k) is None
        &&& forall|bound: u64| (forall|m: int| 0 <= m < rs.len() ==> (#[trigger] rs[m]).seq <= bound) ==> #[trigger] self.seqs_below(bound)
        &&& forall|lo: Seq<u8>, hi: Seq<u8>| #[trigger] self.scan_from(0, lo, hi) == sets_in_range(rs, lo, hi)
    }

    /// Whether some record in some block is numbered `s`.
    pub open spec fn is_record_seq(&self, s: u64) -> bool {
        exists|i: int, j: int| 0 <= i < self.index@.len() && 0 <= j < parse_records(self.block(i)).len() && (#[trigger] parse_records(#[trigger] self.block(i))[j]).seq == s
    }

    /// No record in any block has a sequence number above `bound`.
    pub open spec fn seqs_below(&self, bound: u64) -> bool {
        forall|i: int, j: int| 0 <= i < self.index@.len() && 0 <= j < parse_records(self.block(i)).len() ==> (#[trigger] parse_records(#[trigger] self.block(i))[j]).seq <= bound
    }

    /// A bound on every record stays one when raised.
    pub proof fn lemma_below_mono(&self, a: u64, b: u64)
        requires
            self.seqs_below(a),
            a <= b,
        ensures
            self.seqs_below(b),
    {
    }

    /// What `lookup` finds never has a sequence number above a bound on all records.
    pub proof fn lemma_find_below(&self, key: Seq<u8>, bound: u64)
        requires
            self.seqs_below(bound),
        ensures
            self.find(key) matches Some((_, _, s)) ==> s <= bound,
    {
        if self.find(key) is Some {
            let i = choose|i: int| self.holds(i, key);
            let rs = parse_records(self.block(i));
            lemma_find_in(rs, key);
            let j = choose|j: int| 0 <= j < rs.len() && (#[trigger] rs[j]).seq == (find_rec(rs, key)->0).2;
            assert(rs[j].seq <= bound);
        }
    }

    /// The largest sequence number of any record in any block, or 0.
    pub fn max_record_seq(&self) -> (r: u64)
        requires
            self.wf(),
        ensures
            self.seqs_below(r),
            r == 0 || self.is_record_seq(r),
    {
        let mut best: u64 = 0;
        let n = self.index.len();
        let mut i: usize = 0;
        while i < n
            invariant
                self.wf(),
                n == self.index@.len(),
                i <= n,
                forall|a: int, j: int| 0 <= a < i && 0 <= j < parse_records(self.block(a)).len() ==> (#[trigger] parse_records(#[trigger] self.block(a))[j]).seq <= best,
                best == 0 || self.is_record_seq(best),
            decreases n - i,
        {
            proof {
                assert(self.idx()[i as int].1 == self.index@[i as int].offset);
                if i + 1 < n {
                    assert(self.idx()[i + 1].1 == self.index@[i + 1].offset);
                }
            }
            let dn = self.data.len();
            let lo64 = self.index[i].offset;
            let hi64 = if i + 1 < n { self.index[i + 1].offset } else { self.index_start };
            assert(lo64 <= hi64 <= dn);
            let lo = lo64 as usize;
            let hi = hi64 as usize;
            let blk = vstd::slice::slice_subrange(self.data.as_slice(), lo, hi);
            let ghost b = blk@;
            assert(b == self.block(i as int));
            let ghost old_best = best;
            let ghost ps = parse_records(b);
            let mut pos: usize = 0;
            let ghost mut done: int = 0;
            let mut more = true;
            proof {
                assert(b.skip(0) == b);
                assert(ps.skip(0) == ps);
            }
            while more
                invariant
                    b == blk@,
                    ps == parse_records(b),
                    pos <= b.len(),
                    old_best <= best,
                    0 <= done <= ps.len(),
                    more ==> ps.skip(done) == parse_records(b.skip(pos as int)),
                    !more ==> done == ps.len(),
                    forall|j: int| 0 <= j < done ==> (#[trigger] ps[j]).seq <= best,
                    i < n,
                    n == self.index@.len(),
                    b == self.block(i as int),
                    best == 0 || self.is_record_seq(best),
                decreases b.len() - pos + if more { 1int } else { 0int },
            {
                match crate::block::record_end(blk, pos) {
                    None => {
                        proof {
                            assert(ps.skip(done).len() == 0);
                        }
                        more = false;
                    },
                    Some(end) => {
                        let s = read64(blk, pos);
                        proof {
                            assert(ps.skip(done)[0] == ps[done]);
                            assert(done < ps.len());
                            assert(parse_records(self.block(i as int))[done].seq == s);
                            assert(self.is_record_seq(s));
                        }
                        if s > best {
                            best = s;
                        }
                        proof {
                            assert(ps.skip(done)[0] == ps[done]);
                            assert(ps.skip(done + 1) == ps.skip(done).drop_first());
                            done = done + 1;
                        }
                        pos = end;
                    },
                }
            }
            proof {
                assert forall|x: int, j: int| 0 <= x < i + 1 && 0 <= j < parse_records(self.block(x)).len() implies (#[trigger] parse_records(#[trigger] self.block(x))[j]).seq <= best by {
                    if x == i {
                        assert(parse_records(self.block(x)) == ps);
                    }
                }
            }
            i = i + 1;
        }
        best
    }
}

proof fn lemma_range_concat(a: Seq<BlockRecord>, b: Seq<BlockRecord>, lo: Seq<u8>, hi: Seq<u8>)
    ensures
        sets_in_range(a + b, lo, hi) == sets_in_range(a, lo, hi) + sets_in_range(b, lo, hi),
    decreases a.len(),
{
    if a.len() == 0 {
        assert(a + b == b);
    } else {
        assert((a + b).drop_first() == a.drop_first() + b);
        assert((a + b)[0] == a[0]);
        lemma_range_concat(a.drop_first(), b, lo, hi);
    }
}

proof fn lemma_range_empty(rs: Seq<BlockRecord>, lo: Seq<u8>, hi: Seq<u8>)
    requires
        forall|j: int| 0 <= j < rs.len() ==> !crate::block::in_range(#[trigger] rs[j].key, lo, hi),
    ensures
        sets_in_range(rs, lo, hi) == Seq::<(Seq<u8>, Seq<u8>, u64)>::empty(),
    decreases rs.len(),
{
    if rs.len() > 0 {
        assert forall|j: int| 0 <= j < rs.drop_first().len() implies !crate::block::in_range(#[trigger] rs.drop_first()[j].key, lo, hi) by {
            assert(rs.drop_first()[j] == rs[j + 1]);
        }
        assert(!crate::block::in_range(rs[0].key, lo, hi));
        lemma_range_empty(rs.drop_first(), lo, hi);
    }
}

impl Segment {
    /// Scanning from block `i` on yields the in-range `SET` records from
    /// the start of block `i` to the end, in order.
    #[verifier::rlimit(100)]
    proof fn lemma_scan_from(&self, rs: Seq<BlockRecord>, st: Seq<int>, i: int, lo: Seq<u8>, hi: Seq<u8>)
        requires
            self.wf(),
            st.len() == self.index@.len(),
            0 <= i <= st.len(),
            forall|k: int| 0 <= k < st.len() ==> 0 <= #[trigger] st[k] < rs.len(),
            forall|k: int| 0 <= k < st.len() - 1 ==> #[trigger] st[k] < st[k + 1],
            forall|k: int| 0 <= k < st.len() ==> #[trigger] self.idx()[k].0 == rs[st[k]].key,
            forall|k: int| 0 <= k < st.len() ==> #[trigger] self.idx()[k].1 == 7 + encode_all(rs.subrange(0, st[k])).len(),
            forall|x: int, y: int| 0 <= x < y < rs.len() ==> lex_lt(#[trigger] rs[x].key, #[trigger] rs[y].key),
            forall|k: int| 0 <= k < rs.len() ==> record_fits(#[trigger] rs[k]),
            self.index_start == 7 + encode_all(rs).len(),
            self.data@.subrange(0, self.index_start as int) == segment_magic() + encode_all(rs),
        ensures
            self.scan_from(i, lo, hi) == sets_in_range(rs.subrange(if i < st.len() { st[i] } else { rs.len() as int }, rs.len() as int), lo, hi),
        decreases st.len() - i,
    {
        let n = st.len();
        if i >= n {
            lemma_range_empty(rs.subrange(rs.len() as int, rs.len() as int), lo, hi);
        } else {
            self.lemma_scan_from(rs, st, i + 1, lo, hi);
            let a = st[i];
            let e = if i + 1 < n { st[i + 1] } else { rs.len() as int };
            let sub = rs.subrange(a, e);
            let tail = rs.subrange(e, rs.len() as int);
            self.lemma_block_bytes(rs, st, i);
            assert forall|x: int| 0 <= x < sub.len() implies record_fits(#[trigger] sub[x]) by {
                assert(sub[x] == rs[a + x]);
            }
            lemma_block_round_trip(sub);
            assert(rs.subrange(a, rs.len() as int) == sub + tail);
            lemma_range_concat(sub, tail, lo, hi);
            if !self.overlaps(i, lo, hi) {
                assert forall|j: int| 0 <= j < sub.len() implies !crate::block::in_range(#[trigger] sub[j].key, lo, hi) by {
                    let k = sub[j].key;
                    assert(sub[j] == rs[a + j]);
                    if !lex_lt(self.idx()[i].0, hi) {
                        // the block's first key is at least `hi`
                        if a + j != a {
                            assert(lex_lt(rs[a].key, k));
                        }
                        crate::order::lemma_lex_total(self.idx()[i].0, hi);
                        if crate::block::in_range(k, lo, hi) {
                            if rs[a].key == hi {
                                crate::order::lemma_lex_asym(k, hi);
                                if a + j != a {
                                    crate::order::lemma_lex_asym(hi, k);
                                } else {
                                    crate::order::lemma_lex_irrefl(k);
                                }
                            } else {
                                if a + j != a {
                                    lemma_lex_trans(hi, rs[a].key, k);
                                    crate::order::lemma_lex_asym(hi, k);
                                } else {
                                    crate::order::lemma_lex_asym(hi, k);
                                }
                            }
                        }
                    } else {
                        // the next block starts at or below `lo`
                        assert(i + 1 < n);
                        assert(lex_lt(k, rs[e].key));
                        crate::order::lemma_lex_total(lo, self.idx()[i + 1].0);
                        if crate::block::in_range(k, lo, hi) {
                            if lo == k {
                                crate::order::lemma_lex_asym(k, rs[e].key);
                                if rs[e].key != lo {
                                    crate::order::lemma_lex_asym(rs[e].key, lo);
                                }
                            } else {
                                if rs[e].key == lo {
                                    crate::order::lemma_lex_asym(lo, k);
                                } else {
                                    lemma_lex_trans(rs[e].key, lo, k);
                                    crate::order::lemma_lex_asym(k, rs[e].key);
                                }
                            }
                        }
                    }
                }
                lemma_range_empty(sub, lo, hi);
                assert(Seq::<(Seq<u8>, Seq<u8>, u64)>::empty() + sets_in_range(tail, lo, hi) == sets_in_range(tail, lo, hi));
            }
        }
    }
}

} // verus!
