//! The store: tree-path rules and visibility across the memtable, the
//! segments and the subtree tombstones, under one sequence counter.
use crate::block::{entries_view, BlockRecord, RT_DEL_POINT, RT_DEL_SUB, RT_SET};
use crate::cache::{BlockCache, CACHE_SIZE};
use crate::codec::copy_range;
use crate::errors::AntlerError;
use crate::memtable::{entries_map, MemEntry, MemVal, MemValue, Memtable};
use crate::order::is_prefix;
use crate::segment::{encode_all, index_budget, rec_size, rec_total, Segment, SegmentWriter};
use crate::text::{lossy_text, text_from_bytes};
use crate::wal::{GroupCommitWAL, WALEntry, WalRecord};
use vstd::prelude::*;
use vstd::string::{StringExecFns, StringSliceAdditionalSpecFns};
use vstd::utf8::encode_utf8;

verus! {

/// The byte `/`.
pub const SLASH: u8 = 47;

/// Approximate memtable bytes at which it is sealed into a segment.
pub const MEMTABLE_THRESHOLD: usize = 262144;

/// Longest path or value the store takes: their lengths go into 32-bit fields.
pub const MAX_FIELD: usize = 0x7fff_0000;

/// A subtree tombstone: every key under `prefix` with a sequence number up
/// to `seq` is hidden.
pub struct SubTomb {
    pub prefix: Vec<u8>,
    pub seq: u64,
}

/// Whether a tombstone in `ts` hides `key` written at `seq`.
pub open spec fn covered(ts: Seq<SubTomb>, key: Seq<u8>, seq: u64) -> bool {
    exists|i: int| 0 <= i < ts.len() && is_prefix(#[trigger] ts[i].prefix@, key) && ts[i].seq >= seq
}

/// Whether a tombstone in `ts` hides `key` written at `seq`.
pub fn covered_by_subtomb(ts: &Vec<SubTomb>, key: &[u8], seq: u64) -> (r: bool)
    ensures
        r == covered(ts@, key@, seq),
{
    let mut i: usize = 0;
    while i < ts.len()
        invariant
            i <= ts@.len(),
            forall|j: int| 0 <= j < i ==> !(is_prefix(#[trigger] ts@[j].prefix@, key@) && ts@[j].seq >= seq),
        decreases ts@.len() - i,
    {
        if ts[i].seq >= seq && crate::order::starts_with(key, ts[i].prefix.as_slice()) {
            return true;
        }
        i = i + 1;
    }
    false
}

/// One step of the newest-wins merge over segment candidates: a candidate
/// replaces the best so far when it is not hidden and strictly newer.
pub open spec fn pick(
    best: Option<(u8, Seq<u8>, u64)>,
    cand: Option<(u8, Seq<u8>, u64)>,
    ts: Seq<SubTomb>,
    key: Seq<u8>,
) -> Option<(u8, Seq<u8>, u64)> {
    match cand {
        Some((k, v, s)) => if !covered(ts, key, s) && (best is None || s > (best->0).2) {
            Some((k, v, s))
        } else {
            best
        },
        None => best,
    }
}

/// The merge of the lookups of `key` in `segs`, in order, starting from `best`.
pub open spec fn best_from(
    segs: Seq<Segment>,
    ts: Seq<SubTomb>,
    key: Seq<u8>,
    best: Option<(u8, Seq<u8>, u64)>,
) -> Option<(u8, Seq<u8>, u64)>
    decreases segs.len(),
{
    if segs.len() == 0 {
        best
    } else {
        best_from(segs.drop_first(), ts, key, pick(best, segs[0].find(key), ts, key))
    }
}

proof fn lemma_best_concat(
    a: Seq<Segment>,
    b: Seq<Segment>,
    ts: Seq<SubTomb>,
    key: Seq<u8>,
    best: Option<(u8, Seq<u8>, u64)>,
)
    ensures
        best_from(a + b, ts, key, best) == best_from(b, ts, key, best_from(a, ts, key, best)),
    decreases a.len(),
{
    if a.len() > 0 {
        assert((a + b).drop_first() == a.drop_first() + b);
        lemma_best_concat(a.drop_first(), b, ts, key, pick(best, a[0].find(key), ts, key));
    } else {
        assert(a + b == b);
    }
}

pub open spec fn best_view(b: Option<(u8, Vec<u8>, u64)>) -> Option<(u8, Seq<u8>, u64)> {
    match b {
        Some((k, v, s)) => Some((k, v@, s)),
        None => None,
    }
}

/// Whether every segment is well formed and the cache's record of its file is its bytes.
pub open spec fn segs_ok(segs: Seq<Segment>, cache: BlockCache) -> bool {
    &&& forall|i: int|
        0 <= i < segs.len() ==> {
            &&& (#[trigger] segs[i]).wf()
            &&& cache.files@.contains_key(segs[i].id) ==> cache.files@[segs[i].id] == segs[i].data@
        }
    &&& forall|i: int, j: int| 0 <= i < segs.len() && 0 <= j < segs.len() && (#[trigger] segs[i]).id == (#[trigger] segs[j]).id ==> i == j
}

/// No segment holds a record numbered above `bound`.
pub open spec fn segs_below(segs: Seq<Segment>, bound: u64) -> bool {
    forall|i: int| 0 <= i < segs.len() ==> (#[trigger] segs[i]).seqs_below(bound)
}

proof fn lemma_segs_below_mono(segs: Seq<Segment>, a: u64, b: u64)
    requires
        segs_below(segs, a),
        a <= b,
    ensures
        segs_below(segs, b),
{
    assert forall|i: int| 0 <= i < segs.len() implies (#[trigger] segs[i]).seqs_below(b) by {
        segs[i].lemma_below_mono(a, b);
    }
}

/// Once the best candidate is newer than every other, the merge keeps it.
proof fn lemma_best_keeps(segs: Seq<Segment>, ts: Seq<SubTomb>, key: Seq<u8>, kd: u8, v: Seq<u8>, top: u64)
    requires
        forall|i: int| 0 <= i < segs.len() ==> ((#[trigger] segs[i]).find(key) matches Some((_, _, s)) ==> s < top),
    ensures
        best_from(segs, ts, key, Some((kd, v, top))) == Some((kd, v, top)),
    decreases segs.len(),
{
    if segs.len() > 0 {
        assert(segs[0].find(key) matches Some((_, _, s)) ==> s < top);
        assert forall|i: int| 0 <= i < segs.drop_first().len() implies ((#[trigger] segs.drop_first()[i]).find(key) matches Some((_, _, s)) ==> s < top) by {
            assert(segs.drop_first()[i] == segs[i + 1]);
        }
        lemma_best_keeps(segs.drop_first(), ts, key, kd, v, top);
    }
}

/// The merge picks the one visible candidate newer than all others.
proof fn lemma_best_winner(segs: Seq<Segment>, ts: Seq<SubTomb>, key: Seq<u8>, t: int, kd: u8, v: Seq<u8>, top: u64, init: Option<(u8, Seq<u8>, u64)>)
    requires
        0 <= t < segs.len(),
        segs[t].find(key) == Some((kd, v, top)),
        !covered(ts, key, top),
        forall|i: int| 0 <= i < segs.len() && i != t ==> ((#[trigger] segs[i]).find(key) matches Some((_, _, s)) ==> s < top),
        init matches Some((_, _, s)) ==> s < top,
    ensures
        best_from(segs, ts, key, init) == Some((kd, v, top)),
    decreases segs.len(),
{
    let rest = segs.drop_first();
    assert forall|i: int| 0 <= i < rest.len() && i != t - 1 implies ((#[trigger] rest[i]).find(key) matches Some((_, _, s)) ==> s < top) by {
        assert(rest[i] == segs[i + 1]);
    }
    if t == 0 {
        lemma_best_keeps(rest, ts, key, kd, v, top);
    } else {
        assert(segs[0].find(key) matches Some((_, _, s)) ==> s < top);
        assert(rest[t - 1] == segs[t]);
        lemma_best_winner(rest, ts, key, t - 1, kd, v, top, pick(init, segs[0].find(key), ts, key));
    }
}

/// When every candidate is hidden, the merge finds nothing.
proof fn lemma_best_hidden(segs: Seq<Segment>, ts: Seq<SubTomb>, key: Seq<u8>, bound: u64)
    requires
        segs_below(segs, bound),
        forall|s: u64| s <= bound ==> #[trigger] covered(ts, key, s),
    ensures
        best_from(segs, ts, key, None) is None,
    decreases segs.len(),
{
    if segs.len() > 0 {
        segs[0].lemma_find_below(key, bound);
        assert forall|i: int| 0 <= i < segs.drop_first().len() implies (#[trigger] segs.drop_first()[i]).seqs_below(bound) by {
            assert(segs.drop_first()[i] == segs[i + 1]);
        }
        match segs[0].find(key) {
            Some((_, _, s)) => assert(covered(ts, key, s)),
            None => {},
        }
        lemma_best_hidden(segs.drop_first(), ts, key, bound);
    }
}

/// The merge for `key` depends on the tombstones only through what they hide of `key`.
proof fn lemma_best_same_cover(segs: Seq<Segment>, t1: Seq<SubTomb>, t2: Seq<SubTomb>, key: Seq<u8>, init: Option<(u8, Seq<u8>, u64)>)
    requires
        forall|s: u64| #[trigger] covered(t1, key, s) == covered(t2, key, s),
    ensures
        best_from(segs, t1, key, init) == best_from(segs, t2, key, init),
    decreases segs.len(),
{
    if segs.len() > 0 {
        match segs[0].find(key) {
            Some((_, _, s)) => assert(covered(t1, key, s) == covered(t2, key, s)),
            None => {},
        }
        assert(pick(init, segs[0].find(key), t1, key) == pick(init, segs[0].find(key), t2, key));
        lemma_best_same_cover(segs.drop_first(), t1, t2, key, pick(init, segs[0].find(key), t1, key));
    }
}

/// When every candidate is hidden, the merge finds nothing.
proof fn lemma_best_covered(segs: Seq<Segment>, ts: Seq<SubTomb>, key: Seq<u8>)
    requires
        forall|i: int| 0 <= i < segs.len() ==> ((#[trigger] segs[i]).find(key) matches Some((_, _, s)) ==> covered(ts, key, s)),
    ensures
        best_from(segs, ts, key, None) is None,
    decreases segs.len(),
{
    if segs.len() > 0 {
        assert(segs[0].find(key) matches Some((_, _, s)) ==> covered(ts, key, s));
        assert forall|i: int| 0 <= i < segs.drop_first().len() implies ((#[trigger] segs.drop_first()[i]).find(key) matches Some((_, _, s)) ==> covered(ts, key, s)) by {
            assert(segs.drop_first()[i] == segs[i + 1]);
        }
        lemma_best_covered(segs.drop_first(), ts, key);
    }
}

/// What a point read makes of a merged segment record: the value of a `SET`;
/// a tombstone hides the key.
pub open spec fn visible_record(b: Option<(u8, Seq<u8>, u64)>) -> Option<Seq<u8>> {
    match b {
        Some((k, v, _)) => if k == RT_SET {
            Some(v)
        } else {
            None
        },
        None => None,
    }
}

/// The record a memtable value is sealed as: kind, value, sequence number.
pub open spec fn rec_of(m: MemVal) -> (u8, Seq<u8>, u64) {
    match m {
        MemVal::Scalar(v, s) => (RT_SET, v, s),
        MemVal::Tomb(s) => (RT_DEL_POINT, Seq::<u8>::empty(), s),
    }
}

/// Folds the lookups of `key` in `segs` into `best`.
fn best_in(
    segs: &Vec<Segment>,
    ts: &Vec<SubTomb>,
    key: &[u8],
    cache: &mut BlockCache,
    init: Option<(u8, Vec<u8>, u64)>,
) -> (r: Option<(u8, Vec<u8>, u64)>)
    requires
        old(cache).wf(),
        segs_ok(segs@, *old(cache)),
    ensures
        final(cache).wf(),
        final(cache).max_size == old(cache).max_size,
        tracks(*final(cache), *old(cache), segs@),
        best_view(r) == best_from(segs@, ts@, key@, best_view(init)),
{
    let mut best = init;
    let mut i: usize = 0;
    proof {
        assert(segs@.skip(0) == segs@);
    }
    while i < segs.len()
        invariant
            i <= segs@.len(),
            cache.wf(),
            cache.max_size == old(cache).max_size,
            segs_ok(segs@, *cache),
            forall|k: u64| #[trigger] cache.files@.contains_key(k) ==> old(cache).files@.contains_key(k) && cache.files@[k] == old(cache).files@[k] || exists|j: int| 0 <= j < segs@.len() && segs@[j].id == k && cache.files@[k] == #[trigger] segs@[j].data@,
            best_from(segs@.skip(i as int), ts@, key@, best_view(best)) == best_from(segs@, ts@, key@, best_view(init)),
        decreases segs@.len() - i,
    {
        let ghost c0 = *cache;
        let ghost b0 = best_view(best);
        assert(segs@[i as int].wf());
        let found = segs[i].lookup(key, cache);
        proof {
            assert(segs@.skip(i as int).drop_first() == segs@.skip(i + 1));
            assert(segs@.skip(i as int)[0] == segs@[i as int]);
            assert forall|j: int| 0 <= j < segs@.len() implies {
                &&& (#[trigger] segs@[j]).wf()
                &&& cache.files@.contains_key(segs@[j].id) ==> cache.files@[segs@[j].id] == segs@[j].data@
            } by {
                assert(c0.files@.contains_key(segs@[j].id) ==> c0.files@[segs@[j].id] == segs@[j].data@);
            }
            assert forall|k: u64| #[trigger] cache.files@.contains_key(k) implies old(cache).files@.contains_key(k) && cache.files@[k] == old(cache).files@[k] || exists|j: int| 0 <= j < segs@.len() && segs@[j].id == k && cache.files@[k] == #[trigger] segs@[j].data@ by {
                if k == segs@[i as int].id && cache.files@[k] == segs@[i as int].data@ {
                } else {
                    assert(c0.files@.contains_key(k) && cache.files@[k] == c0.files@[k]);
                }
            }
        }
        match found {
            Some((k, v, s)) => {
                if !covered_by_subtomb(ts, key, s) {
                    let newer = match &best {
                        None => true,
                        Some((_, _, bs)) => s > *bs,
                    };
                    if newer {
                        best = Some((k, v, s));
                    }
                }
            },
            None => {},
        }
        i = i + 1;
    }
    best
}

/// What a point read sees of a memtable entry: a scalar that no tombstone hides.
pub open spec fn visible_in_memtable(m: MemVal, ts: Seq<SubTomb>, key: Seq<u8>) -> Option<Seq<u8>> {
    match m {
        MemVal::Scalar(v, s) => if covered(ts, key, s) {
            None
        } else {
            Some(v)
        },
        MemVal::Tomb(_) => None,
    }
}

/// A file sealed from the memtable, for the host to write, and the
/// manifest line that lists it.
pub struct SealedFile {
    pub name: String,
    pub data: Vec<u8>,
    pub manifest_line: Vec<u8>,
}

/// The store's state: sequence counter, memtable, segments by level,
/// subtree tombstones, the WAL buffer and the block cache.
pub struct Store {
    pub seq: u64,
    pub memtable: Memtable,
    pub segments_l0: Vec<Segment>,
    pub segments_l1: Vec<Segment>,
    pub segments_l2: Vec<Segment>,
    pub subtombs: Vec<SubTomb>,
    pub wal: GroupCommitWAL,
    pub cache: BlockCache,
    pub next_segment_id: u64,
    pub sealed: Vec<SealedFile>,
    /// No sealed segment holds a record numbered above this.
    pub sealed_top: u64,
}

/// Every file `after` knows is one `before` knew, or the bytes of a segment of `segs`.
pub open spec fn tracks(after: BlockCache, before: BlockCache, segs: Seq<Segment>) -> bool {
    forall|k: u64| #[trigger] after.files@.contains_key(k) ==> (before.files@.contains_key(k) && after.files@[k] == before.files@[k]) || exists|j: int| 0 <= j < segs.len() && segs[j].id == k && after.files@[k] == #[trigger] segs[j].data@
}

/// The segments of one level: 0, 1 or 2.
pub open spec fn level_of(s: Store, level: int) -> Seq<Segment> {
    if level == 0 {
        s.segments_l0@
    } else if level == 1 {
        s.segments_l1@
    } else {
        s.segments_l2@
    }
}

/// Where segment `j` of a level stands among all segments.
pub open spec fn level_base(s: Store, level: int) -> int {
    if level == 0 {
        0
    } else if level == 1 {
        s.segments_l0@.len() as int
    } else {
        (s.segments_l0@.len() + s.segments_l1@.len()) as int
    }
}

proof fn lemma_level_index(s: Store, level: int, j: int)
    requires
        0 <= level <= 2,
        0 <= j < level_of(s, level).len(),
    ensures
        0 <= level_base(s, level) + j < s.segs().len(),
        s.segs()[level_base(s, level) + j] == level_of(s, level)[j],
{
}

proof fn lemma_level_tracks(s: Store, before: BlockCache, after: BlockCache, level: int)
    requires
        0 <= level <= 2,
        tracks(after, before, level_of(s, level)),
    ensures
        tracks(after, before, s.segs()),
{
    assert forall|k: u64| #[trigger] after.files@.contains_key(k) implies (before.files@.contains_key(k) && after.files@[k] == before.files@[k]) || exists|j: int| 0 <= j < s.segs().len() && s.segs()[j].id == k && after.files@[k] == #[trigger] s.segs()[j].data@ by {
        if !(before.files@.contains_key(k) && after.files@[k] == before.files@[k]) {
            let l = level_of(s, level);
            let j = choose|j: int| 0 <= j < l.len() && l[j].id == k && after.files@[k] == #[trigger] l[j].data@;
            lemma_level_index(s, level, j);
        }
    }
}

proof fn lemma_tracks_trans(c2: BlockCache, c1: BlockCache, c0: BlockCache, segs: Seq<Segment>)
    requires
        tracks(c2, c1, segs),
        tracks(c1, c0, segs),
    ensures
        tracks(c2, c0, segs),
{
    assert forall|k: u64| #[trigger] c2.files@.contains_key(k) implies (c0.files@.contains_key(k) && c2.files@[k] == c0.files@[k]) || exists|j: int| 0 <= j < segs.len() && segs[j].id == k && c2.files@[k] == #[trigger] segs[j].data@ by {
        if c1.files@.contains_key(k) && c2.files@[k] == c1.files@[k] {
            assert(c1.files@.contains_key(k));
        }
    }
}

/// A cache that learned only files of the store's segments keeps the
/// store's cache conditions, for all segments and for each level.
proof fn lemma_levels_ok(s: Store, c: BlockCache)
    requires
        s.wf(),
        tracks(c, s.cache, s.segs()),
    ensures
        segs_ok(s.segs(), c),
        segs_ok(s.segments_l0@, c),
        segs_ok(s.segments_l1@, c),
        segs_ok(s.segments_l2@, c),
        forall|k: u64| #[trigger] c.files@.contains_key(k) ==> k < s.next_segment_id,
{
    let g = s.segs();
    assert forall|i: int| 0 <= i < g.len() implies (#[trigger] g[i]).wf() && (c.files@.contains_key(g[i].id) ==> c.files@[g[i].id] == g[i].data@) by {
        let k = g[i].id;
        if c.files@.contains_key(k) && !(s.cache.files@.contains_key(k) && c.files@[k] == s.cache.files@[k]) {
            let j = choose|j: int| 0 <= j < g.len() && g[j].id == k && c.files@[k] == #[trigger] g[j].data@;
            assert(g[i].id == g[j].id);
        }
    }
    assert forall|level: int| 0 <= level <= 2 implies segs_ok(#[trigger] level_of(s, level), c) by {
        let l = level_of(s, level);
        assert forall|i: int| 0 <= i < l.len() implies (#[trigger] l[i]).wf() && (c.files@.contains_key(l[i].id) ==> c.files@[l[i].id] == l[i].data@) by {
            lemma_level_index(s, level, i);
        }
        assert forall|i: int, j: int| 0 <= i < l.len() && 0 <= j < l.len() && (#[trigger] l[i]).id == (#[trigger] l[j]).id implies i == j by {
            lemma_level_index(s, level, i);
            lemma_level_index(s, level, j);
        }
    }
    assert(level_of(s, 0) == s.segments_l0@);
    assert(level_of(s, 1) == s.segments_l1@);
    assert(level_of(s, 2) == s.segments_l2@);
    assert forall|k: u64| #[trigger] c.files@.contains_key(k) implies k < s.next_segment_id by {
        if !(s.cache.files@.contains_key(k) && c.files@[k] == s.cache.files@[k]) {
            let j = choose|j: int| 0 <= j < g.len() && g[j].id == k && c.files@[k] == #[trigger] g[j].data@;
            assert(g[j].id < s.next_segment_id);
        }
    }
}

/// Listing a fresh, well-formed segment at the end of one level keeps the
/// segment-list part of the store's invariant.
proof fn lemma_add_segment(s0: Store, s1: Store, lv: int, seg: Segment)
    requires
        s0.wf(),
        0 <= lv <= 2,
        level_of(s1, lv) == level_of(s0, lv).push(seg),
        forall|o: int| 0 <= o <= 2 && o != lv ==> #[trigger] level_of(s1, o) == level_of(s0, o),
        seg.wf(),
        seg.id == s0.next_segment_id,
        s1.next_segment_id == s0.next_segment_id + 1,
        s1.cache == s0.cache,
        s0.sealed_top <= s1.sealed_top,
        seg.seqs_below(s1.sealed_top),
    ensures
        segs_ok(s1.segs(), s1.cache),
        forall|k: u64| #[trigger] s1.cache.files@.contains_key(k) ==> k < s1.next_segment_id,
        forall|i: int| 0 <= i < s1.segs().len() ==> (#[trigger] s1.segs()[i]).id < s1.next_segment_id,
        segs_below(s1.segs(), s1.sealed_top),
{
    let a = s0.segs();
    let b = s1.segs();
    let pos = level_base(s0, lv) + level_of(s0, lv).len();
    assert(level_of(s1, 0) == s1.segments_l0@ && level_of(s1, 1) == s1.segments_l1@ && level_of(s1, 2) == s1.segments_l2@);
    assert(level_of(s0, 0) == s0.segments_l0@ && level_of(s0, 1) == s0.segments_l1@ && level_of(s0, 2) == s0.segments_l2@);
    assert(b.len() == a.len() + 1);
    assert(b[pos] == seg);
    assert forall|j: int| 0 <= j < b.len() && j != pos implies #[trigger] b[j] == a[if j < pos { j } else { j - 1 }] by {}
    assert(!s0.cache.files@.contains_key(seg.id));
    assert forall|j: int| 0 <= j < b.len() implies {
        &&& (#[trigger] b[j]).wf()
        &&& s1.cache.files@.contains_key(b[j].id) ==> s1.cache.files@[b[j].id] == b[j].data@
    } by {
        if j != pos {
            assert(b[j] == a[if j < pos { j } else { j - 1 }]);
        }
    }
    assert forall|x: int, y: int| 0 <= x < b.len() && 0 <= y < b.len() && (#[trigger] b[x]).id == (#[trigger] b[y]).id implies x == y by {
        if x != pos {
            assert(b[x] == a[if x < pos { x } else { x - 1 }]);
        }
        if y != pos {
            assert(b[y] == a[if y < pos { y } else { y - 1 }]);
        }
    }
    assert forall|j: int| 0 <= j < b.len() implies (#[trigger] b[j]).id < s1.next_segment_id by {
        if j != pos {
            assert(b[j] == a[if j < pos { j } else { j - 1 }]);
        }
    }
    assert forall|j: int| 0 <= j < b.len() implies (#[trigger] b[j]).seqs_below(s1.sealed_top) by {
        if j != pos {
            let o = if j < pos { j } else { j - 1 };
            assert(b[j] == a[o]);
            a[o].lemma_below_mono(s0.sealed_top, s1.sealed_top);
        }
    }
}

impl Store {
    /// The segments in reading order: level 0, then 1, then 2.
    pub open spec fn segs(&self) -> Seq<Segment> {
        self.segments_l0@ + self.segments_l1@ + self.segments_l2@
    }

    pub open spec fn wf(&self) -> bool {
        &&& self.memtable.wf()
        &&& self.wal.wf()
        &&& self.cache.wf()
        &&& segs_ok(self.segs(), self.cache)
        &&& forall|k: u64| #[trigger] self.cache.files@.contains_key(k) ==> k < self.next_segment_id
        &&& forall|i: int| 0 <= i < self.segs().len() ==> (#[trigger] self.segs()[i]).id < self.next_segment_id
        &&& forall|k: Seq<u8>| #[trigger] self.memtable.view().contains_key(k) ==> self.memtable.view()[k].seq() <= self.seq
        &&& forall|i: int| 0 <= i < self.subtombs@.len() ==> (#[trigger] self.subtombs@[i]).seq <= self.seq
        &&& self.sealed_top <= self.seq
        &&& segs_below(self.segs(), self.sealed_top)
        &&& forall|k: Seq<u8>| #[trigger] self.memtable.view().contains_key(k) ==> self.memtable.view()[k].seq() > self.sealed_top
    }

    /// What a point read of `key` sees: the memtable's entry when it has
    /// one, else the newest segment record that no tombstone hides.
    pub open spec fn point(&self, key: Seq<u8>) -> Option<Seq<u8>> {
        if self.memtable.view().contains_key(key) {
            visible_in_memtable(self.memtable.view()[key], self.subtombs@, key)
        } else {
            visible_record(best_from(self.segs(), self.subtombs@, key, None))
        }
    }

    /// A read of `key` sees `v`.
    pub open spec fn shows(&self, key: Seq<u8>, v: Seq<u8>) -> bool {
        self.point(key) == Some(v)
    }

    /// A read of any key under `p` sees nothing.
    pub open spec fn hides_under(&self, p: Seq<u8>) -> bool {
        forall|q: Seq<u8>| is_prefix(p, q) ==> #[trigger] self.point(q) is None
    }

    /// An empty store.
    pub fn new() -> (r: Store)
        ensures
            r.wf(),
            r.seq == 0,
            r.memtable.view() == Map::<Seq<u8>, MemVal>::empty(),
            r.segs().len() == 0,
            r.subtombs@.len() == 0,
            r.next_segment_id == 0,
            r.memtable.size == 0,
            r.sealed_top == 0,
            r.wal.buffer@.len() == 0,
            r.sealed@.len() == 0,
    {
        let r = Store {
            seq: 0,
            memtable: Memtable::new(),
            segments_l0: Vec::new(),
            segments_l1: Vec::new(),
            segments_l2: Vec::new(),
            subtombs: Vec::new(),
            wal: GroupCommitWAL::new(),
            cache: BlockCache::new(CACHE_SIZE),
            next_segment_id: 0,
            sealed: Vec::new(),
            sealed_top: 0,
        };
        assert(r.segs() =~= Seq::<Segment>::empty());
        r
    }

    /// The bytes a point read of `key` sees.
    pub fn get_point(&mut self, key: &[u8]) -> (r: Option<Vec<u8>>)
        requires
            old(self).wf(),
        ensures
            final(self).wf(),
            final(self).point(key@) == old(self).point(key@),
            final(self).seq == old(self).seq,
            final(self).memtable == old(self).memtable,
            final(self).segments_l0 == old(self).segments_l0,
            final(self).segments_l1 == old(self).segments_l1,
            final(self).segments_l2 == old(self).segments_l2,
            final(self).subtombs == old(self).subtombs,
            final(self).wal == old(self).wal,
            final(self).sealed == old(self).sealed,
            final(self).next_segment_id == old(self).next_segment_id,
            final(self).sealed_top == old(self).sealed_top,
            match r {
                Some(v) => old(self).point(key@) == Some(v@),
                None => old(self).point(key@) is None,
            },
    {
        match self.memtable.get(key) {
            Some(mv) => {
                match mv {
                    MemValue::Scalar(v, s) => {
                        if covered_by_subtomb(&self.subtombs, key, *s) {
                            return None;
                        }
                        return Some(copy_range(v.as_slice(), 0, v.len()));
                    },
                    MemValue::PointTomb(_) => {
                        return None;
                    },
                }
            },
            None => {},
        }
        let ghost s0 = *self;
        proof {
            lemma_levels_ok(s0, s0.cache);
        }
        let best = best_in(&self.segments_l0, &self.subtombs, key, &mut self.cache, None);
        proof {
            lemma_level_tracks(s0, s0.cache, self.cache, 0);
            lemma_levels_ok(s0, self.cache);
        }
        let ghost c1 = self.cache;
        let best = best_in(&self.segments_l1, &self.subtombs, key, &mut self.cache, best);
        proof {
            lemma_level_tracks(s0, c1, self.cache, 1);
            lemma_tracks_trans(self.cache, c1, s0.cache, s0.segs());
            lemma_levels_ok(s0, self.cache);
        }
        let ghost c2 = self.cache;
        let best = best_in(&self.segments_l2, &self.subtombs, key, &mut self.cache, best);
        proof {
            lemma_level_tracks(s0, c2, self.cache, 2);
            lemma_tracks_trans(self.cache, c2, s0.cache, s0.segs());
            lemma_levels_ok(s0, self.cache);
            let a = s0.segments_l0@;
            let b = s0.segments_l1@;
            let c = s0.segments_l2@;
            lemma_best_concat(a, b, self.subtombs@, key@, None);
            lemma_best_concat(a + b, c, self.subtombs@, key@, None);
        }
        match best {
            Some((k, v, _)) => if k == RT_SET {
                Some(v)
            } else {
                None
            },
            None => None,
        }
    }

    /// Whether a proper ancestor of `key` (a prefix ending just before a
    /// `/`, not at the start) holds a visible scalar.
    pub open spec fn scalar_ancestor(&self, key: Seq<u8>) -> bool {
        exists|i: int| 0 < i < key.len() && key[i] == SLASH && (#[trigger] self.point(key.subrange(0, i))) is Some
    }

    /// The memtable after a write of `v` to `key` at `seq`.
    pub open spec fn with_scalar(&self, key: Seq<u8>, v: Seq<u8>, seq: u64) -> Map<Seq<u8>, MemVal> {
        self.memtable.view().insert(key, MemVal::Scalar(v, seq))
    }

    /// Sets the subtree tombstone for `prefix` to `seq`, keeping a higher one.
    fn add_subtomb(&mut self, prefix: Vec<u8>, seq: u64)
        requires
            old(self).wf(),
            seq <= old(self).seq,
        ensures
            final(self).wf(),
            final(self).seq == old(self).seq,
            final(self).memtable == old(self).memtable,
            final(self).segments_l0 == old(self).segments_l0,
            final(self).segments_l1 == old(self).segments_l1,
            final(self).segments_l2 == old(self).segments_l2,
            final(self).wal == old(self).wal,
            final(self).sealed == old(self).sealed,
            final(self).next_segment_id == old(self).next_segment_id,
            final(self).sealed_top == old(self).sealed_top,
            forall|k: Seq<u8>, s: u64| covered(final(self).subtombs@, k, s) == (covered(old(self).subtombs@, k, s) || (is_prefix(prefix@, k) && seq >= s)),
    {
        let mut i: usize = 0;
        while i < self.subtombs.len()
            invariant
                *self == *old(self),
                old(self).wf(),
                seq <= old(self).seq,
                i <= self.subtombs@.len(),
                forall|j: int| 0 <= j < i ==> (#[trigger] self.subtombs@[j]).prefix@ != prefix@,
            decreases self.subtombs@.len() - i,
        {
            if crate::codec::bytes_eq(self.subtombs[i].prefix.as_slice(), prefix.as_slice()) {
                if self.subtombs[i].seq < seq {
                    let ghost t0 = self.subtombs@;
                    self.subtombs.set(i, SubTomb { prefix, seq });
                    proof {
                        assert(self.segs() == old(self).segs());
                        let t1 = self.subtombs@;
                        assert forall|j: int| 0 <= j < t1.len() implies (#[trigger] t1[j]).seq <= self.seq by {
                            if j != i {
                                assert(t1[j] == t0[j]);
                            }
                        }
                        assert forall|k: Seq<u8>, s: u64| covered(t1, k, s) == (covered(t0, k, s) || (is_prefix(prefix@, k) && seq >= s)) by {
                            if covered(t0, k, s) {
                                let j = choose|j: int| 0 <= j < t0.len() && is_prefix(#[trigger] t0[j].prefix@, k) && t0[j].seq >= s;
                                if j == i {
                                    assert(is_prefix(t1[j].prefix@, k));
                                } else {
                                    assert(t1[j] == t0[j]);
                                }
                            }
                            if covered(t1, k, s) {
                                let j = choose|j: int| 0 <= j < t1.len() && is_prefix(#[trigger] t1[j].prefix@, k) && t1[j].seq >= s;
                                if j != i {
                                    assert(t1[j] == t0[j]);
                                }
                            }
                            if is_prefix(prefix@, k) && seq >= s {
                                assert(is_prefix(t1[i as int].prefix@, k));
                            }
                        }
                    }
                } else {
                    proof {
                        let t0 = self.subtombs@;
                        assert forall|k: Seq<u8>, s: u64| (is_prefix(prefix@, k) && seq >= s) implies covered(t0, k, s) by {
                            assert(is_prefix(t0[i as int].prefix@, k));
                        }
                    }
                }
                return;
            }
            i = i + 1;
        }
        let ghost t0 = self.subtombs@;
        self.subtombs.push(SubTomb { prefix, seq });
        proof {
            assert(self.segs() == old(self).segs());
            let t1 = self.subtombs@;
            assert forall|k: Seq<u8>, s: u64| covered(t1, k, s) == (covered(t0, k, s) || (is_prefix(prefix@, k) && seq >= s)) by {
                if covered(t0, k, s) {
                    let j = choose|j: int| 0 <= j < t0.len() && is_prefix(#[trigger] t0[j].prefix@, k) && t0[j].seq >= s;
                    assert(t1[j] == t0[j]);
                }
                if covered(t1, k, s) {
                    let j = choose|j: int| 0 <= j < t1.len() && is_prefix(#[trigger] t1[j].prefix@, k) && t1[j].seq >= s;
                    if j < t0.len() {
                        assert(t1[j] == t0[j]);
                    }
                }
                if is_prefix(prefix@, k) && seq >= s {
                    assert(is_prefix(t1[t0.len() as int].prefix@, k));
                }
            }
        }
    }

    /// Records a point tombstone for `path` under a new sequence number.
    pub fn delete(&mut self, path: &str)
        requires
            old(self).wf(),
            old(self).seq < u64::MAX,
            path.spec_bytes().len() <= MAX_FIELD,
        ensures
            final(self).wf(),
            final(self).seq == old(self).seq + 1,
            final(self).memtable.view() == old(self).memtable.view().insert(path.spec_bytes(), MemVal::Tomb(final(self).seq)),
            final(self).subtombs == old(self).subtombs,
            final(self).segs() == old(self).segs(),
            final(self).wal.buffer@ == old(self).wal.buffer@.push(WALEntry { seq: final(self).seq, kind: RT_DEL_POINT, key: final(self).wal.buffer@.last().key, value: None }),
            final(self).wal.buffer@.last().key@ == path.spec_bytes(),
            final(self).point(path.spec_bytes()) is None,
    {
        let key = path.as_bytes();
        self.seq = self.seq + 1;
        let seq = self.seq;
        proof {
            lemma_segs_below_mono(self.segs(), old(self).sealed_top, seq);
        }
        let k = copy_range(key, 0, key.len());
        proof {
            assert(key@.subrange(0, key@.len() as int) == key@);
        }
        self.wal.append(WALEntry { seq, kind: RT_DEL_POINT, key: k, value: None });
        self.memtable.insert(key, MemValue::PointTomb(seq));
        proof {
            assert(self.memtable.view().contains_key(key@));
            assert forall|k: Seq<u8>| #[trigger] self.memtable.view().contains_key(k) implies self.memtable.view()[k].seq() > self.sealed_top by {
                if k != key@ {
                    assert(old(self).memtable.view().contains_key(k));
                }
            }
        }
    }

    /// Records a subtree tombstone for `prefix`, normalised to end in `/`,
    /// under a new sequence number. A scalar at `prefix` itself stays.
    pub fn delete_subtree(&mut self, prefix: &str)
        requires
            old(self).wf(),
            old(self).seq < u64::MAX,
            prefix.spec_bytes().len() <= MAX_FIELD,
        ensures
            final(self).wf(),
            final(self).seq == old(self).seq + 1,
            final(self).memtable == old(self).memtable,
            final(self).segs() == old(self).segs(),
            forall|k: Seq<u8>, s: u64| covered(final(self).subtombs@, k, s) == (covered(old(self).subtombs@, k, s) || (is_prefix(subtree_prefix(prefix.spec_bytes()), k) && final(self).seq >= s)),
            final(self).wal.buffer@.len() == old(self).wal.buffer@.len() + 1,
            final(self).wal.buffer@.drop_last() == old(self).wal.buffer@,
            final(self).wal.buffer@.last().view() == (WalRecord { seq: final(self).seq, kind: RT_DEL_SUB, key: subtree_prefix(prefix.spec_bytes()), value: None }),
            final(self).hides_under(subtree_prefix(prefix.spec_bytes())),
    {
        let p = normalize_prefix(prefix.as_bytes());
        self.seq = self.seq + 1;
        let seq = self.seq;
        proof {
            lemma_segs_below_mono(self.segs(), old(self).sealed_top, seq);
        }
        let k = copy_range(p.as_slice(), 0, p.len());
        proof {
            assert(p@.subrange(0, p@.len() as int) == p@);
        }
        let ghost b0 = self.wal.buffer@;
        self.wal.append(WALEntry { seq, kind: RT_DEL_SUB, key: k, value: None });
        proof {
            assert(self.wal.buffer@.drop_last() == b0);
        }
        self.add_subtomb(p, seq);
        proof {
            assert forall|q: Seq<u8>| is_prefix(p@, q) implies #[trigger] self.point(q) is None by {
                if self.memtable.view().contains_key(q) {
                    assert(self.memtable.view()[q].seq() <= seq);
                    assert(covered(self.subtombs@, q, self.memtable.view()[q].seq()));
                } else {
                    assert forall|x: u64| x <= seq implies #[trigger] covered(self.subtombs@, q, x) by {}
                    lemma_best_hidden(self.segs(), self.subtombs@, q, seq);
                }
            }
        }
    }

    /// Seals the memtable into a new level-0 segment, lists it for the
    /// manifest, and empties the memtable. Nothing happens to an empty memtable.
    /// On failure nothing changes.
    #[verifier::rlimit(100)]
    #[verifier::spinoff_prover]
    pub fn flush_memtable_locked(&mut self) -> (r: Result<(), AntlerError>)
        requires
            old(self).wf(),
        ensures
            final(self).wf(),
            r is Err ==> *final(self) == *old(self),
            r matches Err(e) ==> e is ResourceExhausted,
            old(self).memtable.entries@.len() == 0 ==> r is Ok && *final(self) == *old(self),
            old(self).next_segment_id < u64::MAX && seal_fits(old(self).memtable.entries@) ==> r is Ok,
            forall|q: Seq<u8>| #[trigger] final(self).point(q) == old(self).point(q),
            r is Ok && old(self).memtable.entries@.len() > 0 ==> {
                let seg = final(self).segments_l0@.last();
                &&& final(self).memtable.view() == Map::<Seq<u8>, MemVal>::empty()
                &&& final(self).segments_l0@ == old(self).segments_l0@.push(seg)
                &&& final(self).segments_l1 == old(self).segments_l1
                &&& final(self).segments_l2 == old(self).segments_l2
                &&& seg.data@.subrange(0, seg.index_start as int) == crate::segment::segment_magic() + encode_all(mem_records(old(self).memtable.entries@))
                &&& final(self).sealed@ == old(self).sealed@.push(final(self).sealed@.last())
                &&& final(self).sealed@.last().data@ == seg.data@
                &&& final(self).sealed@.last().name == seg.name
                &&& seg.name@ == lossy_text(crate::manifest::segment_file_name(0, old(self).seq))
                &&& seg.seq_high == crate::segment::max_seq(mem_records(old(self).memtable.entries@))
                &&& final(self).sealed@.last().manifest_line@ == crate::manifest::entry_line(crate::segment::max_seq(mem_records(old(self).memtable.entries@)), 0, encode_utf8(seg.name@))
                &&& forall|k: Seq<u8>| #[trigger] seg.find(k) == if old(self).memtable.view().contains_key(k) { Some(rec_of(old(self).memtable.view()[k])) } else { None }
                &&& final(self).subtombs == old(self).subtombs
                &&& final(self).seq == old(self).seq
                &&& final(self).wal == old(self).wal
            },
    {
        let n = self.memtable.entries.len();
        if n == 0 {
            return Ok(());
        }
        if self.next_segment_id == u64::MAX {
            return Err(too_large("segment ids"));
        }
        let id = self.next_segment_id;
        let name = crate::manifest::file_name(0, self.seq);
        let ghost es = self.memtable.entries@;
        let w = match seal_entries(&self.memtable.entries, id, name) {
            Ok(w) => w,
            Err(e) => {
                return Err(e);
            },
        };
        let ghost recs = w.records@;
        proof {
            assert(w.key_count == es.len());
        }
        let seg = match w.finish() {
            Ok(seg) => seg,
            Err(e) => {
                return Err(e);
            },
        };
        proof {
            assert forall|m: int| 0 <= m < recs.len() implies (#[trigger] recs[m]).seq <= self.seq by {
                crate::memtable::lemma_map_at(es, m);
                assert(self.memtable.view().contains_key(es[m].key@));
                assert(recs[m] == mem_record(es[m]));
            }
            lemma_flushed_finds(es, recs, seg, self.seq);
        }
        let line = crate::manifest::format_entry(seg.seq_high, 0, seg.name.as_str());
        let copy = copy_range(seg.data.as_slice(), 0, seg.data.len());
        proof {
            assert(seg.data@.subrange(0, seg.data@.len() as int) == seg.data@);
            assert(seg.data@.subrange(0, seg.index_start as int) == crate::segment::segment_magic() + encode_all(recs));
        }
        let sealed = SealedFile { name: seg.name.clone(), data: copy, manifest_line: line };
        self.sealed.push(sealed);
        let ghost s0 = *self;
        self.segments_l0.push(seg);
        self.next_segment_id = id + 1;
        self.memtable.clear();
        self.sealed_top = self.seq;
        proof {
            lemma_flush_state(*old(self), s0, *self, seg);
        }
        Ok(())
    }

    /// The first proper ancestor of `key` that holds a visible scalar.
    fn find_scalar_ancestor(&mut self, key: &[u8]) -> (r: Option<usize>)
        requires
            old(self).wf(),
        ensures
            final(self).wf(),
            final(self).seq == old(self).seq,
            final(self).memtable == old(self).memtable,
            final(self).segments_l0 == old(self).segments_l0,
            final(self).segments_l1 == old(self).segments_l1,
            final(self).segments_l2 == old(self).segments_l2,
            final(self).subtombs == old(self).subtombs,
            final(self).wal == old(self).wal,
            final(self).sealed == old(self).sealed,
            final(self).next_segment_id == old(self).next_segment_id,
            final(self).sealed_top == old(self).sealed_top,
            forall|q: Seq<u8>| #[trigger] final(self).point(q) == old(self).point(q),
            match r {
                Some(i) => 0 < i < key@.len() && key@[i as int] == SLASH && old(self).point(key@.subrange(0, i as int)) is Some,
                None => !old(self).scalar_ancestor(key@),
            },
    {
        let mut i: usize = 1;
        while i < key.len()
            invariant
                self.wf(),
                self.seq == old(self).seq,
                self.memtable == old(self).memtable,
                self.segments_l0 == old(self).segments_l0,
                self.segments_l1 == old(self).segments_l1,
                self.segments_l2 == old(self).segments_l2,
                self.subtombs == old(self).subtombs,
                self.wal == old(self).wal,
                self.sealed == old(self).sealed,
                self.next_segment_id == old(self).next_segment_id,
                self.sealed_top == old(self).sealed_top,
                1 <= i,
                forall|j: int| 0 < j < i && j < key@.len() && key@[j] == SLASH ==> (#[trigger] old(self).point(key@.subrange(0, j))) is None,
            decreases key@.len() - i,
        {
            if key[i] == SLASH {
                let prefix = copy_range(key, 0, i);
                let found = self.get_point(prefix.as_slice());
                if found.is_some() {
                    return Some(i);
                }
            }
            i = i + 1;
        }
        None
    }

    /// Writes `value` at `path` under a new sequence number. With
    /// `replace_subtree`, first a subtree tombstone for `path/` and a point
    /// tombstone for `path` at that same number. Fails without writing when a
    /// proper ancestor of `path` holds a visible scalar. When the memtable
    /// reaches `MEMTABLE_THRESHOLD` it is sealed into a segment.
    #[verifier::spinoff_prover]
    pub fn set(&mut self, path: &str, value: &str, replace_subtree: bool) -> (r: Result<(), AntlerError>)
        requires
            old(self).wf(),
            old(self).seq < u64::MAX,
            path.spec_bytes().len() <= MAX_FIELD,
            value.spec_bytes().len() <= MAX_FIELD,
        ensures
            final(self).wf(),
            ({
                let key = path.spec_bytes();
                let v = value.spec_bytes();
                let seq = (old(self).seq + 1) as u64;
                let m = old(self).memtable.view().insert(key, MemVal::Scalar(v, seq));
                if old(self).scalar_ancestor(key) {
                    &&& r matches Err(AntlerError::TreeStructureViolation { .. })
                    &&& final(self).seq == old(self).seq
                    &&& final(self).memtable == old(self).memtable
                    &&& final(self).segs() == old(self).segs()
                    &&& final(self).subtombs == old(self).subtombs
                    &&& final(self).wal == old(self).wal
                } else {
                    &&& (r is Ok || r matches Err(AntlerError::ResourceExhausted { .. }))
                    &&& final(self).shows(key, v)
                    &&& replace_subtree ==> final(self).hides_under(key.push(SLASH))
                    &&& final(self).seq == seq
                    &&& forall|k: Seq<u8>, s: u64| covered(final(self).subtombs@, k, s) == (covered(old(self).subtombs@, k, s) || (replace_subtree && is_prefix(key.push(SLASH), k) && seq >= s))
                    &&& crate::wal::wal_view(final(self).wal.buffer@) == crate::wal::wal_view(old(self).wal.buffer@) + (if replace_subtree {
                        seq![
                            WalRecord { seq, kind: RT_DEL_SUB, key: key.push(SLASH), value: None },
                            WalRecord { seq, kind: RT_DEL_POINT, key, value: None },
                        ]
                    } else {
                        Seq::<WalRecord>::empty()
                    }) + seq![WalRecord { seq, kind: RT_SET, key, value: Some(v) }]
                    &&& forall|q: Seq<u8>| q != key && !(replace_subtree && is_prefix(key.push(SLASH), q)) ==> #[trigger] final(self).point(q) == old(self).point(q)
                    &&& (final(self).memtable.view() == m && final(self).segs() == old(self).segs()) || (
                        final(self).memtable.view() == Map::<Seq<u8>, MemVal>::empty()
                        && final(self).segments_l1 == old(self).segments_l1
                        && final(self).segments_l2 == old(self).segments_l2
                        && final(self).segments_l0@.drop_last() == old(self).segments_l0@
                    )
                }
            }),
    {
        let key = path.as_bytes();
        let val = value.as_bytes();
        match self.find_scalar_ancestor(key) {
            Some(i) => {
                let parent = copy_range(key, 0, i);
                return Err(AntlerError::TreeStructureViolation {
                    path: String::from_str(path),
                    parent: text_from_bytes(parent.as_slice()),
                    reason: String::from_str("Cannot write under scalar parent"),
                });
            },
            None => {},
        }
        self.seq = self.seq + 1;
        let seq = self.seq;
        proof {
            lemma_segs_below_mono(self.segs(), old(self).sealed_top, seq);
        }
        let ghost b0 = crate::wal::wal_view(self.wal.buffer@);
        let ghost t0 = self.subtombs@;
        if replace_subtree {
            let mut prefix = copy_range(key, 0, key.len());
            prefix.push(SLASH);
            let k = copy_range(prefix.as_slice(), 0, prefix.len());
            proof {
                assert(key@.subrange(0, key@.len() as int) == key@);
                assert(prefix@.subrange(0, prefix@.len() as int) == prefix@);
            }
            self.wal.append(WALEntry { seq, kind: RT_DEL_SUB, key: k, value: None });
            self.add_subtomb(prefix, seq);
            let k2 = copy_range(key, 0, key.len());
            self.wal.append(WALEntry { seq, kind: RT_DEL_POINT, key: k2, value: None });
            self.memtable.insert(key, MemValue::PointTomb(seq));
        }
        let k3 = copy_range(key, 0, key.len());
        let v3 = copy_range(val, 0, val.len());
        proof {
            assert(key@.subrange(0, key@.len() as int) == key@);
            assert(val@.subrange(0, val@.len() as int) == val@);
        }
        self.wal.append(WALEntry { seq, kind: RT_SET, key: k3, value: Some(v3) });
        let v4 = copy_range(val, 0, val.len());
        self.memtable.insert(key, MemValue::Scalar(v4, seq));
        let add = key.len() + val.len() + 16;
        if self.memtable.size > usize::MAX - add {
            self.memtable.size = usize::MAX;
        } else {
            self.memtable.size = self.memtable.size + add;
        }
        proof {
            let recs = if replace_subtree {
                seq![
                    WalRecord { seq, kind: RT_DEL_SUB, key: key@.push(SLASH), value: None },
                    WalRecord { seq, kind: RT_DEL_POINT, key: key@, value: None },
                ]
            } else {
                Seq::<WalRecord>::empty()
            };
            assert(crate::wal::wal_view(self.wal.buffer@) =~= b0 + recs + seq![WalRecord { seq, kind: RT_SET, key: key@, value: Some(val@) }]);
            if !replace_subtree {
                assert(self.subtombs@ == t0);
            }
            assert(self.memtable.view() =~= old(self).memtable.view().insert(key@, MemVal::Scalar(val@, seq)));
        }
        proof {
            if covered(self.subtombs@, key@, seq) {
                if !covered(t0, key@, seq) {
                    assert(replace_subtree && is_prefix(key@.push(SLASH), key@));
                } else {
                    let j = choose|j: int| 0 <= j < t0.len() && is_prefix(#[trigger] t0[j].prefix@, key@) && t0[j].seq >= seq;
                    assert(old(self).subtombs@[j].seq <= old(self).seq);
                }
            }
            assert(self.memtable.view()[key@] == MemVal::Scalar(val@, seq));
            assert forall|k: Seq<u8>| #[trigger] self.memtable.view().contains_key(k) implies self.memtable.view()[k].seq() > self.sealed_top by {
                if k != key@ {
                    assert(old(self).memtable.view().contains_key(k));
                }
            }
            assert(self.shows(key@, val@));
            assert forall|q: Seq<u8>| q != key@ && !(replace_subtree && is_prefix(key@.push(SLASH), q)) implies #[trigger] self.point(q) == old(self).point(q) by {
                lemma_best_same_cover(self.segs(), self.subtombs@, old(self).subtombs@, q, None);
            }
            if replace_subtree {
                assert forall|q: Seq<u8>| is_prefix(key@.push(SLASH), q) implies #[trigger] self.point(q) is None by {
                    if self.memtable.view().contains_key(q) {
                        if q == key@ {
                            assert(!is_prefix(key@.push(SLASH), key@));
                        } else {
                            assert(old(self).memtable.view().contains_key(q));
                            assert(old(self).memtable.view()[q].seq() <= old(self).seq);
                            assert(covered(self.subtombs@, q, self.memtable.view()[q].seq()));
                        }
                    } else {
                        assert forall|x: u64| x <= seq implies #[trigger] covered(self.subtombs@, q, x) by {}
                        lemma_best_hidden(self.segs(), self.subtombs@, q, seq);
                    }
                }
            }
        }
        if self.memtable.size >= MEMTABLE_THRESHOLD {
            let ghost es = self.memtable.entries@;
            let ghost pre = *self;
            proof {
                assert(pre.memtable.view().contains_key(key@));
                assert(es.len() > 0);
            }
            let r = self.flush_memtable_locked();
            proof {
                if r is Ok {
                    assert(self.segments_l0@.drop_last() =~= old(self).segments_l0@);
                }
                assert(self.point(key@) == pre.point(key@));
                if replace_subtree {
                    assert forall|q: Seq<u8>| is_prefix(key@.push(SLASH), q) implies #[trigger] self.point(q) is None by {
                        assert(pre.point(q) is None);
                    }
                }
            }
            return r;
        }
        Ok(())
    }

    /// Seals the memtable into a segment; the host then syncs the WAL.
    pub fn flush(&mut self) -> (r: Result<(), AntlerError>)
        requires
            old(self).wf(),
        ensures
            final(self).wf(),
            r is Err ==> *final(self) == *old(self),
            r matches Err(e) ==> e is ResourceExhausted,
            old(self).memtable.entries@.len() == 0 ==> r is Ok && *final(self) == *old(self),
            old(self).next_segment_id < u64::MAX && seal_fits(old(self).memtable.entries@) ==> r is Ok,
            forall|q: Seq<u8>| #[trigger] final(self).point(q) == old(self).point(q),
            r is Ok ==> final(self).memtable.view() == Map::<Seq<u8>, MemVal>::empty(),
            r is Ok && old(self).memtable.entries@.len() > 0 ==> {
                let seg = final(self).segments_l0@.last();
                &&& final(self).segments_l0@ == old(self).segments_l0@.push(seg)
                &&& final(self).segments_l1 == old(self).segments_l1
                &&& final(self).segments_l2 == old(self).segments_l2
                &&& seg.data@.subrange(0, seg.index_start as int) == crate::segment::segment_magic() + encode_all(mem_records(old(self).memtable.entries@))
                &&& forall|k: Seq<u8>| #[trigger] seg.find(k) == if old(self).memtable.view().contains_key(k) { Some(rec_of(old(self).memtable.view()[k])) } else { None }
                &&& final(self).sealed@ == old(self).sealed@.push(final(self).sealed@.last())
                &&& final(self).sealed@.last().data@ == seg.data@
                &&& final(self).sealed@.last().name == seg.name
                &&& seg.name@ == lossy_text(crate::manifest::segment_file_name(0, old(self).seq))
                &&& seg.seq_high == crate::segment::max_seq(mem_records(old(self).memtable.entries@))
                &&& final(self).sealed@.last().manifest_line@ == crate::manifest::entry_line(crate::segment::max_seq(mem_records(old(self).memtable.entries@)), 0, encode_utf8(seg.name@))
            },
            r is Ok ==> final(self).subtombs == old(self).subtombs && final(self).seq == old(self).seq,
    {
        let r = self.flush_memtable_locked();
        proof {
            if r is Ok && old(self).memtable.entries@.len() == 0 {
                assert(old(self).memtable.view() =~= Map::<Seq<u8>, MemVal>::empty()) by {
                    assert forall|k: Seq<u8>| !old(self).memtable.view().contains_key(k) by {}
                }
            }
        }
        r
    }

    /// A point read of `path`: the visible value, as text.
    pub fn get_value(&mut self, path: &str) -> (r: Option<String>)
        requires
            old(self).wf(),
        ensures
            final(self).wf(),
            forall|q: Seq<u8>| #[trigger] final(self).point(q) == old(self).point(q),
            match r {
                Some(s) => old(self).point(path.spec_bytes()) matches Some(v) && s@ == lossy_text(v),
                None => old(self).point(path.spec_bytes()) is None,
            },
    {
        match self.get_point(path.as_bytes()) {
            Some(v) => Some(text_from_bytes(v.as_slice())),
            None => None,
        }
    }

    /// The subtree read of `prefix`: the newest visible scalar of every key
    /// under it, rendered as an object of relative keys; `None` when there is none.
    pub fn get_subtree(&mut self, prefix: &[u8]) -> (r: Option<String>)
        requires
            old(self).wf(),
        ensures
            final(self).wf(),
            forall|q: Seq<u8>| #[trigger] final(self).point(q) == old(self).point(q),
            ({
                let hi = prefix@.push(TILDE);
                let t = merge_segs(mem_tree(old(self).memtable.entries@, old(self).subtombs@, prefix@), old(self).segs(), old(self).subtombs@, prefix@, hi);
                let vt = old(self).visible_part(t);
                match r {
                    None => vt == Map::<Seq<u8>, MemVal>::empty(),
                    Some(js) => vt != Map::<Seq<u8>, MemVal>::empty() && exists|es: Seq<MemEntry>| crate::memtable::keys_sorted(es) && #[trigger] entries_map(es) == vt && js@ == lossy_text(render(es, prefix@.len())),
                }
            }),
    {
        let mut tree = Memtable::new();
        let n = self.memtable.entries.len();
        let mut i: usize = 0;
        while i < n
            invariant
                self.wf(),
                *self == *old(self),
                n == self.memtable.entries@.len(),
                i <= n,
                tree.wf(),
                tree.view() == mem_tree(self.memtable.entries@.subrange(0, i as int), self.subtombs@, prefix@),
            decreases n - i,
        {
            let e = &self.memtable.entries[i];
            proof {
                let es = self.memtable.entries@.subrange(0, i + 1);
                assert(es.drop_last() == self.memtable.entries@.subrange(0, i as int));
                assert(es.last() == self.memtable.entries@[i as int]);
            }
            if crate::order::starts_with(e.key.as_slice(), prefix) {
                match &e.value {
                    MemValue::Scalar(v, s) => {
                        if !covered_by_subtomb(&self.subtombs, e.key.as_slice(), *s) {
                            let vv = copy_range(v.as_slice(), 0, v.len());
                            proof {
                                assert(v@.subrange(0, v@.len() as int) == v@);
                            }
                            tree.insert(e.key.as_slice(), MemValue::Scalar(vv, *s));
                        }
                    },
                    MemValue::PointTomb(_) => {},
                }
            }
            i = i + 1;
        }
        proof {
            assert(self.memtable.entries@.subrange(0, n as int) == self.memtable.entries@);
        }
        let mut hi = copy_range(prefix, 0, prefix.len());
        hi.push(TILDE);
        proof {
            assert(prefix@.subrange(0, prefix@.len() as int) == prefix@);
        }
        let ghost s0 = *self;
        let ghost a = self.segments_l0@;
        let ghost b = self.segments_l1@;
        let ghost c = self.segments_l2@;
        let ghost t0 = tree.view();
        proof {
            lemma_levels_ok(s0, s0.cache);
        }
        merge_level(&self.segments_l0, &self.subtombs, prefix, hi.as_slice(), &mut self.cache, &mut tree);
        proof {
            lemma_level_tracks(s0, s0.cache, self.cache, 0);
            lemma_levels_ok(s0, self.cache);
        }
        let ghost c1 = self.cache;
        merge_level(&self.segments_l1, &self.subtombs, prefix, hi.as_slice(), &mut self.cache, &mut tree);
        proof {
            lemma_level_tracks(s0, c1, self.cache, 1);
            lemma_tracks_trans(self.cache, c1, s0.cache, s0.segs());
            lemma_levels_ok(s0, self.cache);
        }
        let ghost c2 = self.cache;
        merge_level(&self.segments_l2, &self.subtombs, prefix, hi.as_slice(), &mut self.cache, &mut tree);
        proof {
            lemma_level_tracks(s0, c2, self.cache, 2);
            lemma_tracks_trans(self.cache, c2, s0.cache, s0.segs());
            lemma_levels_ok(s0, self.cache);
            lemma_merge_concat(t0, a, b, self.subtombs@, prefix@, hi@);
            lemma_merge_concat(t0, a + b, c, self.subtombs@, prefix@, hi@);
        }
        let ghost t = tree.view();
        let ghost s1 = *self;
        let mut shown = Memtable::new();
        let m = tree.entries.len();
        let mut j: usize = 0;
        while j < m
            invariant
                self.wf(),
                forall|q: Seq<u8>| #[trigger] self.point(q) == s1.point(q),
                tree.wf(),
                t == tree.view(),
                m == tree.entries@.len(),
                j <= m,
                shown.wf(),
                forall|k: Seq<u8>| #[trigger] shown.view().contains_key(k) <==> (exists|x: int| 0 <= x < j && #[trigger] tree.entries@[x].key@ == k) && s1.point(k) is Some,
                forall|k: Seq<u8>| #[trigger] shown.view().contains_key(k) ==> shown.view()[k] == MemVal::Scalar(s1.point(k)->0, t[k].seq()),
            decreases m - j,
        {
            let e = &tree.entries[j];
            let s = match &e.value {
                MemValue::Scalar(_, s) => *s,
                MemValue::PointTomb(s) => *s,
            };
            proof {
                crate::memtable::lemma_map_at(tree.entries@, j as int);
            }
            let ghost before = *self;
            match self.get_point(e.key.as_slice()) {
                Some(v) => {
                    shown.insert(e.key.as_slice(), MemValue::Scalar(v, s));
                },
                None => {},
            }
            proof {
                assert(self.segs() == before.segs());
                assert forall|q: Seq<u8>| #[trigger] self.point(q) == s1.point(q) by {
                    assert(self.point(q) == before.point(q));
                }
                assert forall|k: Seq<u8>| #[trigger] shown.view().contains_key(k) <==> (exists|x: int| 0 <= x < j + 1 && #[trigger] tree.entries@[x].key@ == k) && s1.point(k) is Some by {
                    if k == e.key@ {
                        assert(tree.entries@[j as int].key@ == k);
                    } else if exists|x: int| 0 <= x < j + 1 && #[trigger] tree.entries@[x].key@ == k {
                        let x = choose|x: int| 0 <= x < j + 1 && #[trigger] tree.entries@[x].key@ == k;
                        assert(x != j);
                    }
                }
            }
            j = j + 1;
        }
        proof {
            let vt = s1.visible_part(t);
            assert forall|k: Seq<u8>| #[trigger] shown.view().contains_key(k) <==> vt.contains_key(k) by {
                if t.contains_key(k) {
                    let x = crate::memtable::index_of(tree.entries@, k);
                    assert(tree.entries@[x].key@ == k);
                }
            }
            assert(shown.view() =~= vt);
            assert(s1.memtable == old(self).memtable && s1.subtombs == old(self).subtombs);
            assert forall|k: Seq<u8>| #[trigger] s1.point(k) == old(self).point(k) by {}
            assert(s1.visible_part(t) =~= old(self).visible_part(t));
        }
        if shown.entries.len() == 0 {
            proof {
                assert(shown.view() =~= Map::<Seq<u8>, MemVal>::empty());
            }
            return None;
        }
        proof {
            crate::memtable::lemma_map_at(shown.entries@, 0);
        }
        let out = tree_to_json(&shown, prefix.len());
        Some(text_from_bytes(out.as_slice()))
    }

    /// The keys of `t` that a point read sees, with the value it sees.
    pub open spec fn visible_part(&self, t: Map<Seq<u8>, MemVal>) -> Map<Seq<u8>, MemVal> {
        Map::new(|k: Seq<u8>| t.contains_key(k) && self.point(k) is Some, |k: Seq<u8>| MemVal::Scalar(self.point(k)->0, t[k].seq()))
    }

    /// A read of `path`: a subtree read when it ends in `/`, else a point read.
    pub fn get(&mut self, path: &str) -> (r: Option<String>)
        requires
            old(self).wf(),
        ensures
            final(self).wf(),
            forall|q: Seq<u8>| #[trigger] final(self).point(q) == old(self).point(q),
            ({
                let key = path.spec_bytes();
                if key.len() > 0 && key.last() == SLASH {
                    let t = merge_segs(mem_tree(old(self).memtable.entries@, old(self).subtombs@, key), old(self).segs(), old(self).subtombs@, key, key.push(TILDE));
                    let vt = old(self).visible_part(t);
                    match r {
                        None => vt == Map::<Seq<u8>, MemVal>::empty(),
                        Some(js) => vt != Map::<Seq<u8>, MemVal>::empty() && exists|es: Seq<MemEntry>| crate::memtable::keys_sorted(es) && #[trigger] entries_map(es) == vt && js@ == lossy_text(render(es, key.len())),
                    }
                } else {
                    match r {
                        Some(s) => old(self).point(key) matches Some(v) && s@ == lossy_text(v),
                        None => old(self).point(key) is None,
                    }
                }
            }),
    {
        let key = path.as_bytes();
        if key.len() > 0 && key[key.len() - 1] == SLASH {
            self.get_subtree(key)
        } else {
            self.get_value(path)
        }
    }

    /// Applies records replayed from the WAL, in order: a `SET` with its
    /// value installs a scalar, `DEL_POINT` a point tombstone, `DEL_SUB` a
    /// subtree tombstone; every record raises the counter to its number.
    /// A `SET` or point tombstone numbered at or below `sealed_top` is
    /// already in a segment, since a seal takes the whole memtable, and is
    /// not installed again.
    pub fn apply_wal(&mut self, records: &Vec<WALEntry>)
        requires
            old(self).wf(),
        ensures
            final(self).wf(),
            final(self).memtable.view() == replay_mem(old(self).memtable.view(), crate::wal::wal_view(records@), old(self).sealed_top),
            final(self).sealed_top == old(self).sealed_top,
            final(self).seq == replay_seq(old(self).seq, crate::wal::wal_view(records@)),
            forall|k: Seq<u8>, s: u64| covered(final(self).subtombs@, k, s) == (covered(old(self).subtombs@, k, s) || replay_covers(crate::wal::wal_view(records@), k, s)),
            final(self).segs() == old(self).segs(),
    {
        let ghost rv = crate::wal::wal_view(records@);
        let mut i: usize = 0;
        while i < records.len()
            invariant
                self.wf(),
                i <= records@.len(),
                rv == crate::wal::wal_view(records@),
                self.memtable.view() == replay_mem(old(self).memtable.view(), rv.subrange(0, i as int), old(self).sealed_top),
                self.sealed_top == old(self).sealed_top,
                self.seq == replay_seq(old(self).seq, rv.subrange(0, i as int)),
                forall|k: Seq<u8>, s: u64| covered(self.subtombs@, k, s) == (covered(old(self).subtombs@, k, s) || replay_covers(rv.subrange(0, i as int), k, s)),
                self.segs() == old(self).segs(),
            decreases records@.len() - i,
        {
            let r = &records[i];
            let ghost pre = rv.subrange(0, i as int);
            let ghost t0 = self.subtombs@;
            proof {
                let t = rv.subrange(0, i + 1);
                assert(t.drop_last() == pre);
                assert(t.last() == rv[i as int]);
                assert(rv[i as int] == r.view());
            }
            if r.seq > self.seq {
                self.seq = r.seq;
            }
            let ghost m0 = self.memtable.view();
            if r.seq <= self.sealed_top && (r.kind == RT_SET || r.kind == RT_DEL_POINT) {
                // Sealed into a segment before; the segment holds it.
            } else if r.kind == RT_SET {
                match &r.value {
                    Some(v) => {
                        let vv = copy_range(v.as_slice(), 0, v.len());
                        proof {
                            assert(v@.subrange(0, v@.len() as int) == v@);
                        }
                        self.memtable.insert(r.key.as_slice(), MemValue::Scalar(vv, r.seq));
                        let add = r.key.len();
                        if v.len() > usize::MAX - 16 || self.memtable.size > usize::MAX - add || self.memtable.size + add > usize::MAX - v.len() - 16 {
                            self.memtable.size = usize::MAX;
                        } else {
                            self.memtable.size = self.memtable.size + add + v.len() + 16;
                        }
                    },
                    None => {},
                }
            } else if r.kind == RT_DEL_POINT {
                self.memtable.insert(r.key.as_slice(), MemValue::PointTomb(r.seq));
            } else if r.kind == RT_DEL_SUB {
                let p = copy_range(r.key.as_slice(), 0, r.key.len());
                proof {
                    assert(r.key@.subrange(0, r.key@.len() as int) == r.key@);
                }
                self.add_subtomb(p, r.seq);
            }
            proof {
                let t = rv.subrange(0, i + 1);
                assert forall|k: Seq<u8>, s: u64| covered(self.subtombs@, k, s) == (covered(old(self).subtombs@, k, s) || replay_covers(t, k, s)) by {
                    if replay_covers(t, k, s) && !replay_covers(pre, k, s) {
                        let j = choose|j: int| 0 <= j < t.len() && (#[trigger] t[j]).kind == RT_DEL_SUB && is_prefix(t[j].key, k) && t[j].seq >= s;
                        assert(j == i);
                    }
                    if replay_covers(pre, k, s) {
                        let j = choose|j: int| 0 <= j < pre.len() && (#[trigger] pre[j]).kind == RT_DEL_SUB && is_prefix(pre[j].key, k) && pre[j].seq >= s;
                        assert(t[j] == pre[j]);
                    }
                    if r.kind == RT_DEL_SUB && is_prefix(r.key@, k) && r.seq >= s {
                        assert(t[i as int].kind == RT_DEL_SUB);
                    }
                }
                assert forall|k: Seq<u8>| #[trigger] self.memtable.view().contains_key(k) implies self.memtable.view()[k].seq() > self.sealed_top && self.memtable.view()[k].seq() <= self.seq by {
                    if k != r.key@ {
                        assert(m0.contains_key(k) && self.memtable.view()[k] == m0[k]);
                    }
                }
            }
            i = i + 1;
        }
        proof {
            assert(rv.subrange(0, rv.len() as int) == rv);
        }
    }

    /// Opens the segment file `data` as `name` and lists it at `level`
    /// (0, 1 or 2; another level is ignored); the counter rises to its
    /// `seq_high`. A file that does not open is refused.
    #[verifier::rlimit(100)]
    pub fn attach_segment(&mut self, level: usize, name: String, data: Vec<u8>) -> (r: Result<(), AntlerError>)
        requires
            old(self).wf(),
            old(self).memtable.entries@.len() == 0,
        ensures
            final(self).wf(),
            r is Ok <==> (crate::segment::opens(data@) && old(self).next_segment_id < u64::MAX),
            r is Err ==> *final(self) == *old(self),
            r is Ok ==> final(self).seq >= old(self).seq && final(self).seq >= crate::segment::footer_seq_high(data@),
            r is Ok && level <= 2 ==> {
                let seg = level_of(*final(self), level as int).last();
                &&& level_of(*final(self), level as int) == level_of(*old(self), level as int).push(seg)
                &&& forall|o: int| 0 <= o <= 2 && o != level ==> #[trigger] level_of(*final(self), o) == level_of(*old(self), o)
                &&& seg.data@ == data@
                &&& seg.idx() == crate::segment::index_of(data@)
                &&& seg.index_start == crate::segment::index_start_of(data@)
                &&& seg.seq_high == crate::segment::footer_seq_high(data@)
                &&& seg.seqs_below(final(self).seq)
                &&& (final(self).seq == old(self).seq || final(self).seq == crate::segment::footer_seq_high(data@) || seg.is_record_seq(final(self).seq))
            },
            r is Ok ==> final(self).segs().len() == old(self).segs().len() + if level <= 2 { 1int } else { 0int },
            final(self).memtable == old(self).memtable,
            final(self).subtombs == old(self).subtombs,
    {
        if self.next_segment_id == u64::MAX {
            return Err(too_large("segment ids"));
        }
        let id = self.next_segment_id;
        let seg = match Segment::open(id, name, data) {
            Ok(seg) => seg,
            Err(e) => {
                return Err(e);
            },
        };
        let top = seg.max_record_seq();
        if seg.seq_high > self.seq {
            self.seq = seg.seq_high;
        }
        if top > self.seq {
            self.seq = top;
        }
        if top > self.sealed_top {
            self.sealed_top = top;
        }
        if level > 2 {
            return Ok(());
        }
        proof {
            seg.lemma_below_mono(top, self.sealed_top);
            lemma_segs_below_mono(self.segs(), old(self).sealed_top, self.sealed_top);
        }
        let ghost s0 = *self;
        if level == 0 {
            self.segments_l0.push(seg);
        } else if level == 1 {
            self.segments_l1.push(seg);
        } else {
            self.segments_l2.push(seg);
        }
        self.next_segment_id = id + 1;
        proof {
            let lv = level as int;
            assert(level_of(*self, lv) == level_of(s0, lv).push(seg));
            assert(forall|o: int| 0 <= o <= 2 && o != lv ==> #[trigger] level_of(*self, o) == level_of(s0, o));
            lemma_add_segment(s0, *self, lv, seg);
        }
        Ok(())
    }
}

/// The memtable after replaying `rs` onto `m`; a `SET` or point tombstone
/// numbered at or below `floor` was sealed into a segment already and is skipped.
pub open spec fn replay_mem(m: Map<Seq<u8>, MemVal>, rs: Seq<WalRecord>, floor: u64) -> Map<Seq<u8>, MemVal>
    decreases rs.len(),
{
    if rs.len() == 0 {
        m
    } else {
        let m0 = replay_mem(m, rs.drop_last(), floor);
        let r = rs.last();
        if r.seq <= floor {
            m0
        } else if r.kind == RT_SET {
            match r.value {
                Some(v) => m0.insert(r.key, MemVal::Scalar(v, r.seq)),
                None => m0,
            }
        } else if r.kind == RT_DEL_POINT {
            m0.insert(r.key, MemVal::Tomb(r.seq))
        } else {
            m0
        }
    }
}

/// The counter after replaying `rs`: the largest of `s` and their numbers.
pub open spec fn replay_seq(s: u64, rs: Seq<WalRecord>) -> u64
    decreases rs.len(),
{
    if rs.len() == 0 {
        s
    } else {
        let s0 = replay_seq(s, rs.drop_last());
        if rs.last().seq > s0 {
            rs.last().seq
        } else {
            s0
        }
    }
}

/// Whether a replayed subtree tombstone hides `key` written at `seq`.
pub open spec fn replay_covers(rs: Seq<WalRecord>, key: Seq<u8>, seq: u64) -> bool {
    exists|j: int| 0 <= j < rs.len() && (#[trigger] rs[j]).kind == RT_DEL_SUB && is_prefix(rs[j].key, key) && rs[j].seq >= seq
}

/// Where the last `/` of `k` stands, or -1.
pub open spec fn last_slash(k: Seq<u8>) -> int
    decreases k.len(),
{
    if k.len() == 0 {
        -1
    } else if k.last() == SLASH {
        k.len() - 1
    } else {
        last_slash(k.drop_last())
    }
}

/// The parent of `path`: the part before its last `/`, unless that part is empty.
pub fn parent_path(path: &str) -> (r: Option<String>)
    ensures
        match r {
            Some(s) => last_slash(path.spec_bytes()) > 0 && s@ == lossy_text(path.spec_bytes().subrange(0, last_slash(path.spec_bytes()))),
            None => last_slash(path.spec_bytes()) <= 0,
        },
{
    let b = path.as_bytes();
    let mut i: usize = b.len();
    proof {
        assert(b@.subrange(0, b@.len() as int) == b@);
    }
    while i > 0
        invariant
            i <= b@.len(),
            b@ == path.spec_bytes(),
            last_slash(b@) == last_slash(b@.subrange(0, i as int)),
        decreases i,
    {
        proof {
            assert(b@.subrange(0, i as int).drop_last() == b@.subrange(0, i - 1));
            assert(b@.subrange(0, i as int).last() == b@[i - 1]);
        }
        if b[i - 1] == SLASH {
            if i - 1 > 0 {
                let head = copy_range(b, 0, i - 1);
                return Some(text_from_bytes(head.as_slice()));
            }
            return None;
        }
        i = i - 1;
    }
    proof {
        assert(b@.subrange(0, 0) =~= Seq::<u8>::empty());
    }
    None
}

/// The byte `~`, above every byte that paths use in practice.
pub const TILDE: u8 = 126;

/// The visible scalars under `prefix` among memtable entries.
pub open spec fn mem_tree(es: Seq<MemEntry>, ts: Seq<SubTomb>, prefix: Seq<u8>) -> Map<Seq<u8>, MemVal>
    decreases es.len(),
{
    if es.len() == 0 {
        Map::empty()
    } else {
        let t = mem_tree(es.drop_last(), ts, prefix);
        let e = es.last();
        match e.value {
            MemValue::Scalar(v, s) => if is_prefix(prefix, e.key@) && !covered(ts, e.key@, s) {
                t.insert(e.key@, MemVal::Scalar(v@, s))
            } else {
                t
            },
            MemValue::PointTomb(_) => t,
        }
    }
}

/// `t` after merging scanned records: one that no tombstone hides replaces
/// the entry for its key unless that entry is at least as new.
pub open spec fn merge_items(t: Map<Seq<u8>, MemVal>, items: Seq<(Seq<u8>, Seq<u8>, u64)>, ts: Seq<SubTomb>) -> Map<Seq<u8>, MemVal>
    decreases items.len(),
{
    if items.len() == 0 {
        t
    } else {
        let t0 = merge_items(t, items.drop_last(), ts);
        let (k, v, s) = items.last();
        if !covered(ts, k, s) && (!t0.contains_key(k) || t0[k].seq() < s) {
            t0.insert(k, MemVal::Scalar(v, s))
        } else {
            t0
        }
    }
}

/// `t` after merging the scans of `[lo, hi)` of `segs`, in order.
pub open spec fn merge_segs(t: Map<Seq<u8>, MemVal>, segs: Seq<Segment>, ts: Seq<SubTomb>, lo: Seq<u8>, hi: Seq<u8>) -> Map<Seq<u8>, MemVal>
    decreases segs.len(),
{
    if segs.len() == 0 {
        t
    } else {
        merge_items(merge_segs(t, segs.drop_last(), ts, lo, hi), segs.last().scan_from(0, lo, hi), ts)
    }
}

proof fn lemma_merge_concat(t: Map<Seq<u8>, MemVal>, a: Seq<Segment>, b: Seq<Segment>, ts: Seq<SubTomb>, lo: Seq<u8>, hi: Seq<u8>)
    ensures
        merge_segs(t, a + b, ts, lo, hi) == merge_segs(merge_segs(t, a, ts, lo, hi), b, ts, lo, hi),
    decreases b.len(),
{
    if b.len() == 0 {
        assert(a + b == a);
    } else {
        assert((a + b).drop_last() == a + b.drop_last());
        assert((a + b).last() == b.last());
        lemma_merge_concat(t, a, b.drop_last(), ts, lo, hi);
    }
}

/// Merges the scans of `[lo, hi)` of the segments of one level into `tree`.
fn merge_level(segs: &Vec<Segment>, ts: &Vec<SubTomb>, lo: &[u8], hi: &[u8], cache: &mut BlockCache, tree: &mut Memtable)
    requires
        old(cache).wf(),
        segs_ok(segs@, *old(cache)),
        old(tree).wf(),
    ensures
        final(cache).wf(),
        final(cache).max_size == old(cache).max_size,
        tracks(*final(cache), *old(cache), segs@),
        final(tree).wf(),
        final(tree).view() == merge_segs(old(tree).view(), segs@, ts@, lo@, hi@),
{
    let mut i: usize = 0;
    while i < segs.len()
        invariant
            i <= segs@.len(),
            cache.wf(),
            cache.max_size == old(cache).max_size,
            segs_ok(segs@, *cache),
            tracks(*cache, *old(cache), segs@),
            tree.wf(),
            tree.view() == merge_segs(old(tree).view(), segs@.subrange(0, i as int), ts@, lo@, hi@),
        decreases segs@.len() - i,
    {
        let ghost c0 = *cache;
        assert(segs@[i as int].wf());
        let items = segs[i].scan(lo, hi, cache);
        proof {
            assert forall|j: int| 0 <= j < segs@.len() implies {
                &&& (#[trigger] segs@[j]).wf()
                &&& cache.files@.contains_key(segs@[j].id) ==> cache.files@[segs@[j].id] == segs@[j].data@
            } by {
                assert(c0.files@.contains_key(segs@[j].id) ==> c0.files@[segs@[j].id] == segs@[j].data@);
            }
            assert forall|k: u64| #[trigger] cache.files@.contains_key(k) implies (old(cache).files@.contains_key(k) && cache.files@[k] == old(cache).files@[k]) || exists|j: int| 0 <= j < segs@.len() && segs@[j].id == k && cache.files@[k] == #[trigger] segs@[j].data@ by {
                if k == segs@[i as int].id && cache.files@[k] == segs@[i as int].data@ {
                } else {
                    assert(c0.files@.contains_key(k) && cache.files@[k] == c0.files@[k]);
                }
            }
        }
        let ghost tv = tree.view();
        let ghost iv = entries_view(items@);
        let mut j: usize = 0;
        while j < items.len()
            invariant
                j <= items@.len(),
                iv == entries_view(items@),
                tree.wf(),
                tree.view() == merge_items(tv, iv.subrange(0, j as int), ts@),
            decreases items@.len() - j,
        {
            let it = &items[j];
            proof {
                assert(iv.subrange(0, j + 1).drop_last() == iv.subrange(0, j as int));
                assert(iv.subrange(0, j + 1).last() == iv[j as int]);
                assert(iv[j as int] == (it.key@, it.value@, it.seq));
            }
            if !covered_by_subtomb(ts, it.key.as_slice(), it.seq) {
                let newer = match tree.get(it.key.as_slice()) {
                    None => true,
                    Some(MemValue::Scalar(_, s)) => *s < it.seq,
                    Some(MemValue::PointTomb(s)) => *s < it.seq,
                };
                if newer {
                    let v = copy_range(it.value.as_slice(), 0, it.value.len());
                    proof {
                        assert(it.value@.subrange(0, it.value@.len() as int) == it.value@);
                    }
                    tree.insert(it.key.as_slice(), MemValue::Scalar(v, it.seq));
                }
            }
            j = j + 1;
        }
        proof {
            assert(iv.subrange(0, iv.len() as int) == iv);
            let sub = segs@.subrange(0, i + 1);
            assert(sub.drop_last() == segs@.subrange(0, i as int));
            assert(sub.last() == segs@[i as int]);
        }
        i = i + 1;
    }
    proof {
        assert(segs@.subrange(0, segs@.len() as int) == segs@);
    }
}

pub const QUOTE: u8 = 34;

pub const BACKSLASH: u8 = 92;

/// `s` with each `"` written `\"`.
pub open spec fn escape(s: Seq<u8>) -> Seq<u8>
    decreases s.len(),
{
    if s.len() == 0 {
        seq![]
    } else {
        escape(s.drop_last()) + if s.last() == QUOTE {
            seq![BACKSLASH, QUOTE]
        } else {
            seq![s.last()]
        }
    }
}

/// `k` without its first `n` bytes.
pub open spec fn relative(k: Seq<u8>, n: nat) -> Seq<u8> {
    if n <= k.len() {
        k.skip(n as int)
    } else {
        seq![]
    }
}

pub open spec fn scalar_of(m: MemValue) -> Seq<u8> {
    match m {
        MemValue::Scalar(v, _) => v@,
        MemValue::PointTomb(_) => seq![],
    }
}

/// One `"key":"value"` member.
pub open spec fn member(e: MemEntry, n: nat) -> Seq<u8> {
    seq![QUOTE] + escape(relative(e.key@, n)) + seq![QUOTE, 58u8, QUOTE] + escape(scalar_of(e.value)) + seq![QUOTE]
}

/// The members of `es`, separated by commas.
pub open spec fn members(es: Seq<MemEntry>, n: nat) -> Seq<u8>
    decreases es.len(),
{
    if es.len() == 0 {
        seq![]
    } else if es.len() == 1 {
        member(es[0], n)
    } else {
        members(es.drop_last(), n) + seq![44u8] + member(es.last(), n)
    }
}

/// The object of the entries: keys relative to the first `n` bytes.
pub open spec fn render(es: Seq<MemEntry>, n: nat) -> Seq<u8> {
    seq![123u8] + members(es, n) + seq![125u8]
}

/// Appends `s` with each `"` escaped.
fn push_escaped(out: &mut Vec<u8>, s: &[u8])
    ensures
        final(out)@ == old(out)@ + escape(s@),
{
    let mut i: usize = 0;
    while i < s.len()
        invariant
            i <= s@.len(),
            out@ == old(out)@ + escape(s@.subrange(0, i as int)),
        decreases s@.len() - i,
    {
        proof {
            let t = s@.subrange(0, i + 1);
            assert(t.drop_last() == s@.subrange(0, i as int));
            assert(t.last() == s@[i as int]);
        }
        if s[i] == QUOTE {
            out.push(BACKSLASH);
            out.push(QUOTE);
        } else {
            out.push(s[i]);
        }
        i = i + 1;
    }
    proof {
        assert(s@.subrange(0, s@.len() as int) == s@);
    }
}

/// Appends the member for `e`.
fn push_member(out: &mut Vec<u8>, e: &MemEntry, n: usize)
    ensures
        final(out)@ == old(out)@ + member(*e, n as nat),
{
    out.push(QUOTE);
    let k = &e.key;
    if n <= k.len() {
        let rel = vstd::slice::slice_subrange(k.as_slice(), n, k.len());
        proof {
            assert(rel@ == k@.skip(n as int));
        }
        push_escaped(out, rel);
    } else {
        let empty: Vec<u8> = Vec::new();
        proof {
            assert(empty@ == relative(k@, n as nat));
        }
        push_escaped(out, empty.as_slice());
    }
    out.push(QUOTE);
    out.push(58u8);
    out.push(QUOTE);
    match &e.value {
        MemValue::Scalar(v, _) => push_escaped(out, v.as_slice()),
        MemValue::PointTomb(_) => {
            let empty: Vec<u8> = Vec::new();
            proof {
                assert(empty@ == scalar_of(e.value));
            }
            push_escaped(out, empty.as_slice());
        },
    }
    out.push(QUOTE);
}

/// Renders the merged subtree as a flat object of keys relative to the
/// first `n` bytes, with `"` escaped.
pub fn tree_to_json(tree: &Memtable, n: usize) -> (r: Vec<u8>)
    ensures
        r@ == render(tree.entries@, n as nat),
{
    let es = &tree.entries;
    let mut out: Vec<u8> = Vec::new();
    out.push(123u8);
    let mut i: usize = 0;
    while i < es.len()
        invariant
            i <= es@.len(),
            out@ == seq![123u8] + members(es@.subrange(0, i as int), n as nat),
        decreases es@.len() - i,
    {
        proof {
            let t = es@.subrange(0, i + 1);
            assert(t.drop_last() == es@.subrange(0, i as int));
            assert(t.last() == es@[i as int]);
            if i == 0 {
                assert(t[0] == es@[0]);
            }
        }
        if i > 0 {
            out.push(44u8);
        }
        push_member(&mut out, &es[i], n);
        i = i + 1;
    }
    out.push(125u8);
    proof {
        assert(es@.subrange(0, es@.len() as int) == es@);
    }
    out
}

/// The state after sealing the memtable into `seg` keeps the invariant and
/// every read.
proof fn lemma_flush_state(pre: Store, s0: Store, post: Store, seg: Segment)
    requires
        pre.wf(),
        s0.memtable == pre.memtable,
        s0.segments_l0 == pre.segments_l0,
        s0.segments_l1 == pre.segments_l1,
        s0.segments_l2 == pre.segments_l2,
        s0.cache == pre.cache,
        s0.wal == pre.wal,
        s0.seq == pre.seq,
        s0.subtombs == pre.subtombs,
        s0.next_segment_id == pre.next_segment_id,
        s0.sealed_top == pre.sealed_top,
        post.segments_l0@ == s0.segments_l0@.push(seg),
        post.segments_l1 == s0.segments_l1,
        post.segments_l2 == s0.segments_l2,
        post.next_segment_id == s0.next_segment_id + 1,
        post.cache == s0.cache,
        post.wal == s0.wal,
        post.seq == s0.seq,
        post.subtombs == s0.subtombs,
        post.sealed_top == s0.seq,
        post.memtable.wf(),
        post.memtable.view() == Map::<Seq<u8>, MemVal>::empty(),
        seg.wf(),
        seg.id == s0.next_segment_id,
        seg.seqs_below(s0.seq),
        forall|k: Seq<u8>| #[trigger] seg.find(k) == if pre.memtable.view().contains_key(k) { Some(rec_of(pre.memtable.view()[k])) } else { None },
    ensures
        post.wf(),
        forall|q: Seq<u8>| #[trigger] post.point(q) == pre.point(q),
{
    assert(s0.wf());
    assert(level_of(post, 0) == level_of(s0, 0).push(seg));
    assert(level_of(post, 1) == level_of(s0, 1) && level_of(post, 2) == level_of(s0, 2));
    lemma_add_segment(s0, post, 0, seg);
    assert(post.segments_l0@.last() == seg);
    assert forall|q: Seq<u8>| #[trigger] post.point(q) == pre.point(q) by {
        lemma_flush_point(pre, post, q);
    }
}

/// Whether the memtable entries `es` can be sealed: keys and values fit the
/// 32-bit length fields, the segment's bytes fit memory, and the index size
/// and the key count fit the footer's 32-bit fields.
pub open spec fn seal_fits(es: Seq<MemEntry>) -> bool {
    &&& forall|i: int| 0 <= i < es.len() ==> (#[trigger] es[i]).key@.len() <= MAX_FIELD && scalar_of(es[i].value).len() <= MAX_FIELD
    &&& 7 + rec_total(mem_records(es)) <= usize::MAX
    &&& index_budget(mem_records(es)) <= u32::MAX
    &&& es.len() <= u32::MAX
}

/// Sealing entry `i` of entries that fit stays within every limit.
proof fn lemma_fits_step(es: Seq<MemEntry>, i: int)
    requires
        0 <= i < es.len(),
    ensures
        rec_size(mem_record(es[i])) == 17 + es[i].key@.len() + scalar_of(es[i].value).len(),
        mem_records(es.subrange(0, i + 1)) == mem_records(es.subrange(0, i)).push(mem_record(es[i])),
        seal_fits(es) ==> 7 + rec_total(mem_records(es.subrange(0, i))) + rec_size(mem_record(es[i])) <= usize::MAX
            && es[i].key@.len() <= MAX_FIELD && scalar_of(es[i].value).len() <= MAX_FIELD,
{
    let n = es.len() as int;
    assert(mem_records(es.subrange(0, i + 1)) =~= mem_records(es.subrange(0, i)).push(mem_record(es[i])));
    assert(mem_records(es) =~= mem_records(es.subrange(0, i + 1)) + mem_records(es.subrange(i + 1, n)));
    crate::segment::lemma_total_split(mem_records(es.subrange(0, i + 1)), mem_records(es.subrange(i + 1, n)));
    assert(mem_records(es.subrange(0, i)).push(mem_record(es[i])).drop_last() == mem_records(es.subrange(0, i)));
}

/// A writer holding the records of the memtable entries `entries`, in order.
#[verifier::rlimit(100)]
#[verifier::spinoff_prover]
fn seal_entries(entries: &Vec<MemEntry>, id: u64, name: String) -> (r: Result<SegmentWriter, AntlerError>)
    requires
        crate::memtable::keys_sorted(entries@),
    ensures
        seal_fits(entries@) ==> r is Ok,
        match r {
            Ok(w) => w.wf() && w.blocks_ok() && w.index_in_budget() && w.id == id && w.name == name && w.records@ == mem_records(entries@),
            Err(e) => e is ResourceExhausted,
        },
{
    let mut w = SegmentWriter::new(id, name);
    let ghost es = entries@;
    let n = entries.len();
    let mut i: usize = 0;
    proof {
        assert(mem_records(es.subrange(0, 0)) =~= Seq::<BlockRecord>::empty());
        assert(w.records@ =~= Seq::<BlockRecord>::empty());
    }
    while i < n
        invariant
            crate::memtable::keys_sorted(es),
            n == es.len(),
            es == entries@,
            i <= n,
            w.wf(),
            w.blocks_ok(),
            w.index_in_budget(),
            w.blocks_sized(),
            w.id == id,
            w.name == name,
            w.records@ == mem_records(es.subrange(0, i as int)),
        decreases n - i,
    {
        let e = &entries[i];
        let klen = e.key.len();
        let vlen: usize = match &e.value {
            MemValue::Scalar(v, _) => v.len(),
            MemValue::PointTomb(_) => 0,
        };
        let used = w.out.len();
        proof {
            lemma_fits_step(es, i as int);
            crate::segment::lemma_encode_all_len(w.records@);
            assert((w.out@ + w.current_block@).len() == 7 + rec_total(w.records@));
            assert(vlen == scalar_of(es[i as int].value).len());
        }
        if w.current_block.len() > usize::MAX - used {
            return Err(too_large("segment records"));
        }
        let room = usize::MAX - used - w.current_block.len();
        if klen > MAX_FIELD || vlen > MAX_FIELD || room < 17 || klen + vlen > room - 17 || w.key_count == usize::MAX {
            return Err(too_large("segment records"));
        }
        proof {
            let rs = es.subrange(0, i + 1);
            assert(rs.drop_last() == es.subrange(0, i as int));
            if i > 0 {
                assert(w.records@.last() == mem_record(es[i - 1]));
                assert(crate::memtable::keys_sorted(es));
                assert(crate::order::lex_lt(es[i - 1].key@, es[i as int].key@));
            }
        }
        match &e.value {
            MemValue::Scalar(v, s) => {
                w.add(RT_SET, e.key.as_slice(), Some(v.as_slice()), *s);
            },
            MemValue::PointTomb(s) => {
                w.add(RT_DEL_POINT, e.key.as_slice(), None, *s);
            },
        }
        i = i + 1;
        proof {
            assert(mem_records(es.subrange(0, i as int)) == mem_records(es.subrange(0, i - 1)).push(mem_record(es[i - 1])));
        }
    }
    proof {
        assert(es.subrange(0, n as int) == es);
    }
    Ok(w)
}

/// The normalised form of a subtree prefix: it ends in `/`.
pub open spec fn subtree_prefix(p: Seq<u8>) -> Seq<u8> {
    if p.len() > 0 && p.last() == SLASH {
        p
    } else {
        p.push(SLASH)
    }
}

fn normalize_prefix(p: &[u8]) -> (r: Vec<u8>)
    ensures
        r@ == subtree_prefix(p@),
{
    let mut r = copy_range(p, 0, p.len());
    proof {
        assert(p@.subrange(0, p@.len() as int) == p@);
    }
    if p.len() == 0 || p[p.len() - 1] != SLASH {
        r.push(SLASH);
    }
    r
}

fn too_large(what: &str) -> (r: AntlerError)
    ensures
        r is ResourceExhausted,
{
    AntlerError::ResourceExhausted { resource: String::from_str(what), limit: String::from_str("record and segment size limits") }
}

/// A segment sealed from the entries `es` finds, for each key of the
/// memtable they make, that key's record, and nothing for other keys.
proof fn lemma_flushed_finds(es: Seq<MemEntry>, recs: Seq<BlockRecord>, seg: Segment, bound: u64)
    requires
        recs == mem_records(es),
        seg.holds_records(recs),
        forall|m: int| 0 <= m < recs.len() ==> (#[trigger] recs[m]).seq <= bound,
    ensures
        forall|k: Seq<u8>| #[trigger] seg.find(k) == if entries_map(es).contains_key(k) { Some(rec_of(entries_map(es)[k])) } else { None },
        seg.seqs_below(bound),
{
    reveal(Segment::holds_records);
    let mv = entries_map(es);
    assert forall|k: Seq<u8>| #[trigger] seg.find(k) == if mv.contains_key(k) { Some(rec_of(mv[k])) } else { None } by {
        if mv.contains_key(k) {
            let j = crate::memtable::index_of(es, k);
            assert(0 <= j < es.len() && es[j].key@ == k);
            assert(mv[k] == es[j].value.view());
            assert(recs[j] == mem_record(es[j]));
            assert(seg.find(recs[j].key) == Some((recs[j].kind, recs[j].value, recs[j].seq)));
        } else {
            assert forall|m: int| 0 <= m < recs.len() implies (#[trigger] recs[m]).key != k by {
                assert(recs[m] == mem_record(es[m]));
                if es[m].key@ == k {
                    assert(crate::memtable::has_key(es, k));
                }
            }
        }
    }
}

/// Sealing the memtable into a new level-0 segment changes no read: each
/// memtable record is newer than anything the older segments hold.
proof fn lemma_flush_point(pre: Store, post: Store, q: Seq<u8>)
    requires
        pre.wf(),
        post.memtable.view() == Map::<Seq<u8>, MemVal>::empty(),
        post.segments_l0@ == pre.segments_l0@.push(post.segments_l0@.last()),
        post.segments_l1 == pre.segments_l1,
        post.segments_l2 == pre.segments_l2,
        post.subtombs == pre.subtombs,
        forall|k: Seq<u8>| #[trigger] post.segments_l0@.last().find(k) == if pre.memtable.view().contains_key(k) { Some(rec_of(pre.memtable.view()[k])) } else { None },
    ensures
        post.point(q) == pre.point(q),
{
    let n = post.segments_l0@.last();
    let a = pre.segments_l0@;
    let bc = pre.segments_l1@ + pre.segments_l2@;
    let ts = pre.subtombs@;
    assert(pre.segs() == a + bc);
    assert(post.segs() == a.push(n) + bc);
    assert(!post.memtable.view().contains_key(q));
    if !pre.memtable.view().contains_key(q) {
        assert(n.find(q) is None);
        let x = best_from(a, ts, q, None);
        lemma_best_concat(a, bc, ts, q, None);
        lemma_best_concat(a.push(n), bc, ts, q, None);
        lemma_best_concat(a, seq![n], ts, q, None);
        assert(a + seq![n] == a.push(n));
        let one = seq![n];
        assert(one[0] == n);
        assert(one.drop_first() == Seq::<Segment>::empty());
        assert(pick(x, n.find(q), ts, q) == x);
        assert(best_from(one, ts, q, x) == best_from(one.drop_first(), ts, q, pick(x, one[0].find(q), ts, q)));
        assert(best_from(a.push(n), ts, q, None) == x);
        assert(post.point(q) == visible_record(best_from(post.segs(), ts, q, None)));
        assert(pre.point(q) == visible_record(best_from(pre.segs(), ts, q, None)));
    } else {
        let mv = pre.memtable.view()[q];
        let top = mv.seq();
        let g = post.segs();
        let t = a.len() as int;
        assert(g[t] == n);
        assert(mv.seq() > pre.sealed_top);
        assert forall|i: int| 0 <= i < g.len() && i != t implies ((#[trigger] g[i]).find(q) matches Some((_, _, s)) ==> s < top) by {
            let oi = if i < t { i } else { i - 1 };
            assert(g[i] == pre.segs()[oi]);
            pre.segs()[oi].lemma_find_below(q, pre.sealed_top);
        }
        let r = rec_of(mv);
        assert(n.find(q) == Some(r));
        assert(r.2 == top);
        if covered(ts, q, top) {
            let j = choose|j: int| 0 <= j < ts.len() && is_prefix(#[trigger] ts[j].prefix@, q) && ts[j].seq >= top;
            assert forall|i: int| 0 <= i < g.len() implies ((#[trigger] g[i]).find(q) matches Some((_, _, s)) ==> covered(ts, q, s)) by {
                if i != t && g[i].find(q) is Some {
                    assert(is_prefix(ts[j].prefix@, q));
                }
            }
            lemma_best_covered(g, ts, q);
            assert(post.point(q) is None);
        } else {
            lemma_best_winner(g, ts, q, t, r.0, r.1, top, None);
            assert(post.point(q) == visible_record(Some(r)));
        }
    }
}

/// The record a memtable entry is sealed as.
pub open spec fn mem_record(e: MemEntry) -> BlockRecord {
    match e.value {
        MemValue::Scalar(v, s) => BlockRecord { seq: s, kind: RT_SET, key: e.key@, value: v@ },
        MemValue::PointTomb(s) => BlockRecord { seq: s, kind: RT_DEL_POINT, key: e.key@, value: seq![] },
    }
}

/// The records a run of memtable entries is sealed as, in order.
pub open spec fn mem_records(es: Seq<MemEntry>) -> Seq<BlockRecord> {
    es.map_values(|e: MemEntry| mem_record(e))
}

} // verus!
