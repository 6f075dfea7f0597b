//! A bounded cache of segment blocks keyed by segment and block offset.
use crate::codec::copy_range;
use vstd::prelude::*;

verus! {

pub const CACHE_SIZE: usize = 33554432;

/// One cached block.
pub struct CachedBlock {
    pub segment: u64,
    pub offset: u64,
    pub data: Vec<u8>,
}

/// Bytes held by a run of cached blocks.
pub open spec fn total(s: Seq<CachedBlock>) -> nat
    decreases s.len(),
{
    if s.len() == 0 {
        0
    } else {
        s[0].data@.len() + total(s.drop_first())
    }
}

proof fn lemma_total_push(s: Seq<CachedBlock>, b: CachedBlock)
    ensures
        total(s.push(b)) == total(s) + b.data@.len(),
    decreases s.len(),
{
    if s.len() > 0 {
        assert(s.push(b).drop_first() == s.drop_first().push(b));
        lemma_total_push(s.drop_first(), b);
    } else {
        assert(s.push(b).drop_first() == s);
    }
}

/// Every file known to `now` is `file` under `segment`, or was known to `before`.
pub open spec fn known_files(now: Map<u64, Seq<u8>>, before: Map<u64, Seq<u8>>, segment: u64, file: Seq<u8>) -> bool {
    forall|k: u64|
        #[trigger] now.contains_key(k) ==> (k == segment && now[k] == file) || (
        before.contains_key(k) && now[k] == before[k])
}

/// Blocks kept in insertion order, the oldest evicted first. `files` holds,
/// for each segment that has been read through the cache, the bytes of its file.
pub struct BlockCache {
    pub entries: Vec<CachedBlock>,
    pub size: usize,
    pub max_size: usize,
    pub files: Ghost<Map<u64, Seq<u8>>>,
}

impl BlockCache {
    /// Every cached block is byte-equal to its region of the file, and
    /// the bytes held stay within `max_size`.
    pub open spec fn wf(&self) -> bool {
        &&& self.size == total(self.entries@)
        &&& self.size <= self.max_size
        &&& forall|i: int|
            0 <= i < self.entries@.len() ==> {
                let e = #[trigger] self.entries@[i];
                &&& self.files@.contains_key(e.segment)
                &&& e.offset + e.data@.len() <= self.files@[e.segment].len()
                &&& e.data@ == self.files@[e.segment].subrange(
                    e.offset as int,
                    e.offset + e.data@.len(),
                )
            }
    }

    /// An empty cache holding at most `max_size` bytes.
    pub fn new(max_size: usize) -> (r: BlockCache)
        ensures
            r.wf(),
            r.max_size == max_size,
            r.size == 0,
            r.files@ == Map::<u64, Seq<u8>>::empty(),
    {
        BlockCache { entries: Vec::new(), size: 0, max_size, files: Ghost(Map::empty()) }
    }

    /// The bytes `file[offset..end]` of segment `segment`, from the cache when
    /// held there, else copied from `file` and cached, evicting the oldest
    /// blocks while more than `max_size` bytes are held.
    pub fn get_or_load(&mut self, segment: u64, offset: u64, file: &[u8], end: u64) -> (r: Vec<u8>)
        requires
            old(self).wf(),
            offset <= end <= file@.len(),
            old(self).files@.contains_key(segment) ==> old(self).files@[segment] == file@,
        ensures
            final(self).wf(),
            final(self).max_size == old(self).max_size,
            final(self).files@ == old(self).files@.insert(segment, file@),
            r@ == file@.subrange(offset as int, end as int),
    {
        let n = file.len();
        let want = (end - offset) as usize;
        let lo = offset as usize;
        let hi = end as usize;
        let mut i: usize = 0;
        while i < self.entries.len()
            invariant
                self.wf(),
                *self == *old(self),
                0 <= i <= self.entries@.len(),
                offset <= end <= file@.len(),
                want == end - offset,
                self.files@.contains_key(segment) ==> self.files@[segment] == file@,
            decreases self.entries@.len() - i,
        {
            let e = &self.entries[i];
            if e.segment == segment && e.offset == offset && e.data.len() == want {
                let r = copy_range(e.data.as_slice(), 0, want);
                proof {
                    assert(e.data@.subrange(0, want as int) == e.data@);
                    assert(self.files@.contains_key(segment));
                    assert(self.files@.insert(segment, file@) =~= self.files@);
                }
                return r;
            }
            i = i + 1;
        }
        let data = copy_range(file, lo, hi);
        let r = copy_range(file, lo, hi);
        proof {
            let f2 = self.files@.insert(segment, file@);
            assert forall|i: int| 0 <= i < self.entries@.len() implies f2.contains_key(
                #[trigger] self.entries@[i].segment,
            ) && f2[self.entries@[i].segment] == self.files@[self.entries@[i].segment] by {}
        }
        self.files = Ghost(self.files@.insert(segment, file@));
        if want > usize::MAX - self.size {
            return r;
        }
        let ghost before = self.entries@;
        self.entries.push(CachedBlock { segment, offset, data });
        proof {
            lemma_total_push(before, self.entries@.last());
        }
        self.size = self.size + want;
        while self.size > self.max_size && self.entries.len() > 0
            invariant
                self.size == total(self.entries@),
                self.max_size == old(self).max_size,
                self.files@ == old(self).files@.insert(segment, file@),
                forall|i: int|
                    0 <= i < self.entries@.len() ==> {
                        let e = #[trigger] self.entries@[i];
                        &&& self.files@.contains_key(e.segment)
                        &&& e.offset + e.data@.len() <= self.files@[e.segment].len()
                        &&& e.data@ == self.files@[e.segment].subrange(
                            e.offset as int,
                            e.offset + e.data@.len(),
                        )
                    },
            decreases self.entries@.len(),
        {
            let ghost before = self.entries@;
            let gone = self.entries.remove(0);
            proof {
                assert(self.entries@ == before.drop_first());
            }
            self.size = self.size - gone.data.len();
        }
        proof {
            if self.entries@.len() == 0 {
                assert(total(self.entries@) == 0);
            }
        }
        r
    }
}

/// However many blocks are loaded, the cache never holds more than its limit.
pub proof fn lemma_cache_bounded(c: BlockCache)
    requires
        c.wf(),
    ensures
        total(c.entries@) <= c.max_size,
{
}

} // verus!
