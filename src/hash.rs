//! CRC-32 for WAL frames and the seeded 64-bit hash behind the bloom filter.
use vstd::prelude::*;

verus! {

pub const CRC_POLY: u32 = 0xedb88320;

/// One bit step of the reflected CRC-32 register.
pub open spec fn crc_shift(c: u32) -> u32 {
    if c & 1 != 0 {
        (c >> 1) ^ CRC_POLY
    } else {
        c >> 1
    }
}

/// `n` bit steps of the register.
pub open spec fn crc_shifts(c: u32, n: nat) -> u32
    decreases n,
{
    if n == 0 {
        c
    } else {
        crc_shift(crc_shifts(c, (n - 1) as nat))
    }
}

/// The register after the bytes of `s`, starting from all ones.
pub open spec fn crc_register(s: Seq<u8>) -> u32
    decreases s.len(),
{
    if s.len() == 0 {
        0xffffffffu32
    } else {
        crc_shifts(crc_register(s.drop_last()) ^ (s.last() as u32), 8)
    }
}

/// CRC-32 (reflected polynomial 0xEDB88320, initial value and final XOR all ones).
pub open spec fn crc32_of(s: Seq<u8>) -> u32 {
    crc_register(s) ^ 0xffffffffu32
}

/// Computes the CRC-32 checksum of `data`, one byte at a time.
pub fn crc32(data: &[u8]) -> (r: u32)
    ensures
        r == crc32_of(data@),
{
    let mut crc: u32 = 0xffffffff;
    let mut i: usize = 0;
    while i < data.len()
        invariant
            0 <= i <= data@.len(),
            crc == crc_register(data@.subrange(0, i as int)),
        decreases data@.len() - i,
    {
        let ghost pre = data@.subrange(0, i as int);
        crc = crc ^ (data[i] as u32);
        let ghost start = crc;
        let mut k: u32 = 0;
        while k < 8
            invariant
                0 <= k <= 8,
                crc == crc_shifts(start, k as nat),
            decreases 8 - k,
        {
            crc = if crc & 1 != 0 {
                (crc >> 1) ^ CRC_POLY
            } else {
                crc >> 1
            };
            k = k + 1;
        }
        i = i + 1;
        proof {
            let cur = data@.subrange(0, i as int);
            assert(cur.drop_last() == pre);
            assert(cur.last() == data@[i - 1]);
        }
    }
    proof {
        assert(data@.subrange(0, data@.len() as int) == data@);
    }
    crc ^ 0xffffffff
}

pub const MIX_PRIME: u64 = 0x9e3779b97f4a7c15;

/// The first `n` bytes of an eight-byte chunk packed little-endian.
pub open spec fn chunk_bits(c: Seq<u8>, n: nat) -> u64
    decreases n,
{
    if n == 0 {
        0u64
    } else {
        chunk_bits(c, (n - 1) as nat) | ((c[n - 1] as u64) << (((n - 1) * 8) as u64))
    }
}

/// One round of the hash: multiply, add the chunk, rotate left by 31.
pub open spec fn mix(h: u64, val: u64) -> u64 {
    let m = h.wrapping_mul(MIX_PRIME).wrapping_add(val);
    (m << 31u64) | (m >> 33u64)
}

/// The hash state after folding in the chunks of `s` from `done` onward.
pub open spec fn hash_rounds(s: Seq<u8>, h: u64, done: nat) -> u64
    decreases s.len() - done,
{
    if done >= s.len() {
        h
    } else {
        let end: nat = if done + 8 <= s.len() {
            done + 8
        } else {
            s.len()
        };
        let c = s.subrange(done as int, end as int);
        hash_rounds(s, mix(h, chunk_bits(c, c.len())), end)
    }
}

/// The seeded 64-bit hash of `s`.
pub open spec fn hash64_of(s: Seq<u8>, seed: u64) -> u64 {
    hash_rounds(s, seed.wrapping_add(s.len() as u64), 0)
}

/// A deterministic seeded 64-bit hash over bytes, processed in chunks of eight.
pub fn xxhash(data: &[u8], seed: u64) -> (r: u64)
    ensures
        r == hash64_of(data@, seed),
{
    let n = data.len();
    let mut h: u64 = seed.wrapping_add(n as u64);
    let mut done: usize = 0;
    while done < n
        invariant
            n == data@.len(),
            done <= n,
            hash_rounds(data@, h, done as nat) == hash64_of(data@, seed),
        decreases n + 8 - done,
    {
        let end: usize = if n - done >= 8 {
            done + 8
        } else {
            n
        };
        let ghost c = data@.subrange(done as int, end as int);
        let mut val: u64 = 0;
        let mut i: usize = 0;
        while i < end - done
            invariant
                done < end <= n == data@.len(),
                end - done <= 8,
                c == data@.subrange(done as int, end as int),
                0 <= i <= end - done,
                val == chunk_bits(c, i as nat),
            decreases end - done - i,
        {
            val = val | ((data[done + i] as u64) << ((i * 8) as u64));
            i = i + 1;
        }
        h = {
            let m = h.wrapping_mul(MIX_PRIME).wrapping_add(val);
            (m << 31u64) | (m >> 33u64)
        };
        done = end;
    }
    h
}

} // verus!
