//! Per-segment bloom filter over keys.
use crate::hash::{hash64_of, xxhash};
use vstd::prelude::*;

verus! {

/// A bit array of `bit_count` bits packed into bytes, probed at
/// `hash_count` positions per key.
pub struct BloomFilter {
    pub bits: Vec<u8>,
    pub bit_count: usize,
    pub hash_count: usize,
}

/// The bit that the `i`-th probe of `key` tests.
pub open spec fn probe(key: Seq<u8>, i: nat, bit_count: nat) -> nat
    recommends
        bit_count > 0,
{
    (hash64_of(key, i as u64) as nat) % bit_count
}

/// Whether bit `p` is set in the packed array.
pub open spec fn bit_on(bits: Seq<u8>, p: nat) -> bool {
    bits[(p / 8) as int] & (1u8 << ((p % 8) as u8)) != 0
}

proof fn lemma_set_bit(b: u8, r: u8, t: u8)
    requires
        r < 8,
        t < 8,
    ensures
        (b | (1u8 << r)) & (1u8 << r) != 0,
        t != r ==> (((b | (1u8 << r)) & (1u8 << t) != 0) == (b & (1u8 << t) != 0)),
        b & (1u8 << t) != 0 ==> (b | (1u8 << r)) & (1u8 << t) != 0,
{
    assert((b | (1u8 << r)) & (1u8 << r) != 0) by (bit_vector)
        requires
            r < 8,
    ;
    assert(t != r ==> (((b | (1u8 << r)) & (1u8 << t) != 0) == (b & (1u8 << t) != 0)))
        by (bit_vector)
        requires
            r < 8,
            t < 8,
    ;
    assert(b & (1u8 << t) != 0 ==> (b | (1u8 << r)) & (1u8 << t) != 0) by (bit_vector)
        requires
            r < 8,
            t < 8,
    ;
}

impl BloomFilter {
    pub open spec fn wf(&self) -> bool {
        &&& self.bit_count > 0
        &&& self.bits@.len() == (self.bit_count + 7) / 8
    }

    /// Whether bit `p` of this filter is set.
    pub open spec fn has_bit(&self, p: nat) -> bool {
        bit_on(self.bits@, p)
    }

    /// Whether every probe of `key` finds its bit set.
    pub open spec fn admits(&self, key: Seq<u8>) -> bool {
        forall|i: nat| i < self.hash_count ==> #[trigger] self.has_bit(
            probe(key, i, self.bit_count as nat),
        )
    }

    /// Same shape as `other`, and every bit set there is set here.
    pub open spec fn covers(&self, other: &BloomFilter) -> bool {
        &&& self.bit_count == other.bit_count
        &&& self.hash_count == other.hash_count
        &&& forall|p: nat| p < self.bit_count && #[trigger] other.has_bit(p) ==> self.has_bit(p)
    }

    /// An empty filter of `bit_count` bits and `hash_count` probes per key.
    pub fn new(bit_count: usize, hash_count: usize) -> (r: BloomFilter)
        requires
            bit_count > 0,
            bit_count + 7 <= usize::MAX,
        ensures
            r.wf(),
            r.bit_count == bit_count,
            r.hash_count == hash_count,
            r.bits@ == Seq::new(((bit_count + 7) / 8) as nat, |i: int| 0u8),
            forall|p: nat| p < bit_count ==> !#[trigger] r.has_bit(p),
    {
        let n = (bit_count + 7) / 8;
        let bits = vec![0u8; n];
        let r = BloomFilter { bits, bit_count, hash_count };
        assert(r.bits@ =~= Seq::new(((bit_count + 7) / 8) as nat, |i: int| 0u8));
        assert forall|p: nat| p < bit_count implies !#[trigger] r.has_bit(p) by {
            let t = (p % 8) as u8;
            assert(r.bits@[(p / 8) as int] == 0);
            assert(0u8 & (1u8 << t) == 0) by (bit_vector);
        }
        r
    }

    /// The bit position probed by the `i`-th hash of `key`.
    fn probe_at(&self, key: &[u8], i: usize) -> (r: usize)
        requires
            self.wf(),
        ensures
            r == probe(key@, i as nat, self.bit_count as nat),
            r < self.bit_count,
            r / 8 < self.bits@.len(),
    {
        let h = xxhash(key, i as u64);
        let r = (h % (self.bit_count as u64)) as usize;
        r
    }

    /// Sets the probed bits of `key`; every bit already set stays set.
    pub fn add(&mut self, key: &[u8])
        requires
            old(self).wf(),
        ensures
            final(self).wf(),
            final(self).covers(old(self)),
            final(self).admits(key@),
            forall|p: nat|
                p < final(self).bit_count ==> (#[trigger] final(self).has_bit(p) == (old(
                    self,
                ).has_bit(p) || exists|i: nat|
                    i < old(self).hash_count && p == probe(key@, i, old(self).bit_count as nat))),
    {
        let ghost first = *self;
        let mut i: usize = 0;
        while i < self.hash_count
            invariant
                self.wf(),
                self.bit_count == first.bit_count,
                self.hash_count == first.hash_count,
                0 <= i <= self.hash_count,
                forall|p: nat|
                    p < self.bit_count ==> (#[trigger] self.has_bit(p) == (first.has_bit(p)
                        || exists|j: nat|
                        j < i && p == probe(key@, j, first.bit_count as nat))),
            decreases self.hash_count - i,
        {
            let pos = self.probe_at(key, i);
            let q = pos / 8;
            let r = (pos % 8) as u8;
            let ghost before = *self;
            let b = self.bits[q];
            self.bits.set(q, b | (1u8 << r));
            proof {
                assert forall|p: nat| p < self.bit_count implies (#[trigger] self.has_bit(p) == (
                first.has_bit(p) || exists|j: nat|
                    j < i + 1 && p == probe(key@, j, first.bit_count as nat))) by {
                    let t = (p % 8) as u8;
                    lemma_set_bit(b, r, t);
                    if p / 8 == q {
                        if p == pos {
                            assert(probe(key@, i as nat, first.bit_count as nat) == p);
                        } else {
                            assert(t != r);
                            if exists|j: nat|
                                j < i + 1 && p == probe(key@, j, first.bit_count as nat) {
                                let j = choose|j: nat|
                                    j < i + 1 && p == probe(key@, j, first.bit_count as nat);
                                assert(j != i);
                            }
                            assert(before.has_bit(p) == self.has_bit(p));
                        }
                    } else {
                        assert(before.has_bit(p) == self.has_bit(p));
                        if exists|j: nat|
                            j < i + 1 && p == probe(key@, j, first.bit_count as nat) {
                            let j = choose|j: nat|
                                j < i + 1 && p == probe(key@, j, first.bit_count as nat);
                            assert(j != i);
                        }
                    }
                }
            }
            i = i + 1;
        }
        proof {
            assert forall|j: nat| j < self.hash_count implies #[trigger] self.has_bit(
                probe(key@, j, self.bit_count as nat),
            ) by {
                let p = probe(key@, j, self.bit_count as nat);
                assert(p < self.bit_count);
            }
        }
    }

    /// Whether `key` may have been added: false only if it certainly was not.
    pub fn might_contain(&self, key: &[u8]) -> (r: bool)
        requires
            self.wf(),
        ensures
            r == self.admits(key@),
    {
        let mut i: usize = 0;
        while i < self.hash_count
            invariant
                self.wf(),
                0 <= i <= self.hash_count,
                forall|j: nat| j < i ==> #[trigger] self.has_bit(
                    probe(key@, j, self.bit_count as nat),
                ),
            decreases self.hash_count - i,
        {
            let pos = self.probe_at(key, i);
            if self.bits[pos / 8] & (1u8 << ((pos % 8) as u8)) == 0 {
                proof {
                    assert(!self.has_bit(probe(key@, i as nat, self.bit_count as nat)));
                }
                return false;
            }
            i = i + 1;
        }
        true
    }
}

/// A key once added stays admitted by every filter that covers the one it
/// was added to, however many other keys are added afterwards.
pub proof fn lemma_added_key_admitted(f: BloomFilter, g: BloomFilter, key: Seq<u8>)
    requires
        f.wf(),
        f.admits(key),
        g.covers(&f),
    ensures
        g.admits(key),
{
    assert forall|i: nat| i < g.hash_count implies #[trigger] g.has_bit(
        probe(key, i, g.bit_count as nat),
    ) by {
        let p = probe(key, i, f.bit_count as nat);
        assert(f.has_bit(p));
    }
}

/// Covering is transitive, so a chain of additions keeps every earlier bit.
pub proof fn lemma_covers_trans(f: BloomFilter, g: BloomFilter, h: BloomFilter)
    requires
        g.covers(&f),
        h.covers(&g),
    ensures
        h.covers(&f),
{
}

} // verus!
