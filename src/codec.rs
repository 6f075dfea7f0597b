//! Little-endian integer fields and byte-buffer helpers shared by the
//! segment, WAL and manifest encoders.
use vstd::bytes::*;
use vstd::prelude::*;

verus! {

/// The four bytes of `x`, least significant first.
pub open spec fn le32(x: u32) -> Seq<u8> {
    spec_u32_to_le_bytes(x)
}

/// The eight bytes of `x`, least significant first.
pub open spec fn le64(x: u64) -> Seq<u8> {
    spec_u64_to_le_bytes(x)
}

/// The `u32` stored little-endian at `s[p..p + 4]`.
pub open spec fn get32(s: Seq<u8>, p: int) -> u32 {
    spec_u32_from_le_bytes(s.subrange(p, p + 4))
}

/// The `u64` stored little-endian at `s[p..p + 8]`.
pub open spec fn get64(s: Seq<u8>, p: int) -> u64 {
    spec_u64_from_le_bytes(s.subrange(p, p + 8))
}

pub proof fn lemma_le32(x: u32)
    ensures
        le32(x).len() == 4,
        spec_u32_from_le_bytes(le32(x)) == x,
{
    lemma_auto_spec_u32_to_from_le_bytes();
    assert(spec_u32_to_le_bytes(x).len() == 4);
}

pub proof fn lemma_le64(x: u64)
    ensures
        le64(x).len() == 8,
        spec_u64_from_le_bytes(le64(x)) == x,
{
    lemma_auto_spec_u64_to_from_le_bytes();
    assert(spec_u64_to_le_bytes(x).len() == 8);
}

/// Reading back a field that was written at position `p`.
pub proof fn lemma_get32_at(s: Seq<u8>, p: int, x: u32)
    requires
        0 <= p,
        p + 4 <= s.len(),
        s.subrange(p, p + 4) == le32(x),
    ensures
        get32(s, p) == x,
{
    lemma_le32(x);
}

pub proof fn lemma_get64_at(s: Seq<u8>, p: int, x: u64)
    requires
        0 <= p,
        p + 8 <= s.len(),
        s.subrange(p, p + 8) == le64(x),
    ensures
        get64(s, p) == x,
{
    lemma_le64(x);
}

/// Appends every byte of `src` to `dst`.
pub fn append_bytes(dst: &mut Vec<u8>, src: &[u8])
    ensures
        final(dst)@ == old(dst)@ + src@,
{
    let mut i: usize = 0;
    while i < src.len()
        invariant
            0 <= i <= src@.len(),
            dst@ == old(dst)@ + src@.subrange(0, i as int),
        decreases src@.len() - i,
    {
        dst.push(src[i]);
        i = i + 1;
        proof {
            assert(src@.subrange(0, i as int) == src@.subrange(0, i - 1) + seq![src@[i - 1]]);
        }
    }
    proof {
        assert(src@.subrange(0, src@.len() as int) == src@);
    }
}

/// A fresh vector holding `src[lo..hi]`.
pub fn copy_range(src: &[u8], lo: usize, hi: usize) -> (r: Vec<u8>)
    requires
        lo <= hi <= src@.len(),
    ensures
        r@ == src@.subrange(lo as int, hi as int),
{
    let mut r: Vec<u8> = Vec::new();
    let mut i: usize = lo;
    while i < hi
        invariant
            lo <= i <= hi <= src@.len(),
            r@ == src@.subrange(lo as int, i as int),
        decreases hi - i,
    {
        r.push(src[i]);
        i = i + 1;
        proof {
            assert(src@.subrange(lo as int, i as int) == src@.subrange(lo as int, i - 1) + seq![
                src@[i - 1],
            ]);
        }
    }
    r
}

/// Appends `x` as four little-endian bytes.
pub fn push32(dst: &mut Vec<u8>, x: u32)
    ensures
        final(dst)@ == old(dst)@ + le32(x),
{
    let b = u32_to_le_bytes(x);
    append_bytes(dst, b.as_slice());
}

/// Appends `x` as eight little-endian bytes.
pub fn push64(dst: &mut Vec<u8>, x: u64)
    ensures
        final(dst)@ == old(dst)@ + le64(x),
{
    let b = u64_to_le_bytes(x);
    append_bytes(dst, b.as_slice());
}

/// The `u32` stored little-endian at `s[p..p + 4]`.
pub fn read32(s: &[u8], p: usize) -> (r: u32)
    requires
        p + 4 <= s@.len(),
    ensures
        r == get32(s@, p as int),
{
    let _n = s.len();
    let sub = vstd::slice::slice_subrange(s, p, p + 4);
    u32_from_le_bytes(sub)
}

/// The `u64` stored little-endian at `s[p..p + 8]`.
pub fn read64(s: &[u8], p: usize) -> (r: u64)
    requires
        p + 8 <= s@.len(),
    ensures
        r == get64(s@, p as int),
{
    let _n = s.len();
    let sub = vstd::slice::slice_subrange(s, p, p + 8);
    u64_from_le_bytes(sub)
}

/// Whether `a` equals `b[lo..hi]`.
pub fn bytes_eq_range(a: &[u8], b: &[u8], lo: usize, hi: usize) -> (r: bool)
    requires
        lo <= hi <= b@.len(),
    ensures
        r == (a@ == b@.subrange(lo as int, hi as int)),
{
    if a.len() != hi - lo {
        proof {
            assert(b@.subrange(lo as int, hi as int).len() != a@.len());
        }
        return false;
    }
    let mut i: usize = 0;
    while i < a.len()
        invariant
            a@.len() == hi - lo,
            lo <= hi <= b@.len(),
            0 <= i <= a@.len(),
            forall|j: int| 0 <= j < i ==> a@[j] == b@[lo + j],
        decreases a@.len() - i,
    {
        if a[i] != b[lo + i] {
            proof {
                assert(b@.subrange(lo as int, hi as int)[i as int] != a@[i as int]);
            }
            return false;
        }
        i = i + 1;
    }
    proof {
        assert(a@ =~= b@.subrange(lo as int, hi as int));
    }
    true
}

/// Whether two byte strings are equal.
pub fn bytes_eq(a: &[u8], b: &[u8]) -> (r: bool)
    ensures
        r == (a@ == b@),
{
    let r = bytes_eq_range(a, b, 0, b.len());
    proof {
        assert(b@.subrange(0, b@.len() as int) == b@);
    }
    r
}

} // verus!
