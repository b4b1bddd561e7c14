//! The Fx hash, with its state in a 64-bit word: fast, not collision
//! resistant, and the same on every run.
use vstd::prelude::*;

verus! {

/// Multiplier of the state update.
pub const K: u64 = 0xf1357aea2e62a9c5;

/// Seeds of the byte hash.
pub const SEED1: u64 = 0x243f6a8885a308d3;

pub const SEED2: u64 = 0x13198a2e03707344;

pub const PREVENT_TRIVIAL_ZERO_COLLAPSE: u64 = 0xa4093822299f31d0;

/// A hasher whose state is one word, updated as `(state + i) * K` for each
/// word `i` written.
#[derive(Clone)]
pub struct FxHasher {
    hash: u64,
}

/// The state after writing word `i` to state `h`.
pub open spec fn add_word(h: u64, i: u64) -> u64 {
    vstd::wrapping::u64_specs::wrapping_mul(vstd::wrapping::u64_specs::wrapping_add(h, i), K)
}

/// `x` rotated left by `n` bits.
pub open spec fn rotl(x: u64, n: u64) -> u64 {
    ((x << n) | (x >> (64 - n))) as u64
}

/// The little-endian word made of `s[i..i + 8]`.
pub open spec fn le64(s: Seq<u8>, i: int) -> u64 {
    (s[i] as u64 | (s[i + 1] as u64) << 8 | (s[i + 2] as u64) << 16 | (s[i + 3] as u64) << 24 | (s[i + 4] as u64)
        << 32 | (s[i + 5] as u64) << 40 | (s[i + 6] as u64) << 48 | (s[i + 7] as u64) << 56) as u64
}

/// The little-endian word made of `s[i..i + 4]`.
pub open spec fn le32(s: Seq<u8>, i: int) -> u64 {
    (s[i] as u64 | (s[i + 1] as u64) << 8 | (s[i + 2] as u64) << 16 | (s[i + 3] as u64) << 24) as u64
}

/// The two halves of the 128-bit product of `x` and `y`, xored.
pub open spec fn mix(x: u64, y: u64) -> u64 {
    let full = (x as nat * y as nat) as u128;
    (full as u64 ^ (full >> 64u128) as u64) as u64
}

/// The state pair after the first `k` 16-byte chunks of `s`.
pub open spec fn bulk(s: Seq<u8>, k: nat) -> (u64, u64)
    decreases k,
{
    if k == 0 {
        (SEED1, SEED2)
    } else {
        let (s0, s1) = bulk(s, (k - 1) as nat);
        let x = le64(s, 16 * (k - 1));
        let y = le64(s, 16 * (k - 1) + 8);
        (s1, mix(s0 ^ x, PREVENT_TRIVIAL_ZERO_COLLAPSE ^ y))
    }
}

/// The hash of a byte string: short strings are folded into the seeds,
/// longer ones are mixed 16 bytes at a time, and the length is xored in.
pub open spec fn hash_bytes_of(s: Seq<u8>) -> u64 {
    let len = s.len();
    let (s0, s1) = if len <= 16 {
        if len >= 8 {
            (SEED1 ^ le64(s, 0), SEED2 ^ le64(s, len - 8))
        } else if len >= 4 {
            (SEED1 ^ le32(s, 0), SEED2 ^ le32(s, len - 4))
        } else if len > 0 {
            (SEED1 ^ (s[0] as u64), SEED2 ^ (((s[len - 1] as u64) << 8u64) | s[(len / 2) as int] as u64) as u64)
        } else {
            (SEED1, SEED2)
        }
    } else {
        let (b0, b1) = bulk(s, ((len - 1) / 16) as nat);
        (b0 ^ le64(s, len - 16), b1 ^ le64(s, len - 8))
    };
    mix(s0, s1) ^ (len as u64)
}

/// The little-endian word at `bytes[i..i + 8]`.
fn read_le64(bytes: &[u8], i: usize) -> (r: u64)
    requires
        i + 8 <= bytes@.len(),
    ensures
        r == le64(bytes@, i as int),
{
    (bytes[i] as u64 | (bytes[i + 1] as u64) << 8 | (bytes[i + 2] as u64) << 16 | (bytes[i + 3] as u64) << 24
        | (bytes[i + 4] as u64) << 32 | (bytes[i + 5] as u64) << 40 | (bytes[i + 6] as u64) << 48
        | (bytes[i + 7] as u64) << 56)
}

/// The little-endian word at `bytes[i..i + 4]`.
fn read_le32(bytes: &[u8], i: usize) -> (r: u64)
    requires
        i + 4 <= bytes@.len(),
    ensures
        r == le32(bytes@, i as int),
{
    (bytes[i] as u64 | (bytes[i + 1] as u64) << 8 | (bytes[i + 2] as u64) << 16 | (bytes[i + 3] as u64) << 24)
}

/// The halves of the full product of `x` and `y`, xored.
pub fn multiply_mix(x: u64, y: u64) -> (r: u64)
    ensures
        r == mix(x, y),
{
    assert((x as u128) * (y as u128) <= u128::MAX) by (nonlinear_arith)
        requires
            x <= u64::MAX,
            y <= u64::MAX,
    ;
    let full: u128 = (x as u128) * (y as u128);
    assert(full == (x as nat * y as nat) as u128) by (nonlinear_arith)
        requires
            full == x as u128 * y as u128,
            x <= u64::MAX,
            y <= u64::MAX,
    ;
    let lo = #[verifier::truncate] (full as u64);
    let hi = #[verifier::truncate] ((full >> 64) as u64);
    lo ^ hi
}

/// The hash of a byte string.
pub fn hash_bytes(bytes: &[u8]) -> (r: u64)
    ensures
        r == hash_bytes_of(bytes@),
{
    let len = bytes.len();
    let mut s0 = SEED1;
    let mut s1 = SEED2;
    if len <= 16 {
        if len >= 8 {
            s0 = s0 ^ read_le64(bytes, 0);
            s1 = s1 ^ read_le64(bytes, len - 8);
        } else if len >= 4 {
            s0 = s0 ^ read_le32(bytes, 0);
            s1 = s1 ^ read_le32(bytes, len - 4);
        } else if len > 0 {
            let lo = bytes[0];
            let mid = bytes[len / 2];
            let hi = bytes[len - 1];
            s0 = s0 ^ lo as u64;
            s1 = s1 ^ (((hi as u64) << 8) | mid as u64);
        }
    } else {
        let chunks = (len - 1) / 16;
        let mut k: usize = 0;
        while k < chunks
            invariant
                k <= chunks,
                chunks == (len - 1) / 16,
                len == bytes@.len(),
                len > 16,
                (s0, s1) == bulk(bytes@, k as nat),
            decreases chunks - k,
        {
            proof {
                assert(16 * k + 16 <= len - 1) by (nonlinear_arith)
                    requires
                        k < chunks,
                        chunks == (len - 1) / 16,
                        len > 16,
                ;
            }
            let x = read_le64(bytes, 16 * k);
            let y = read_le64(bytes, 16 * k + 8);
            let t = multiply_mix(s0 ^ x, PREVENT_TRIVIAL_ZERO_COLLAPSE ^ y);
            s0 = s1;
            s1 = t;
            k = k + 1;
        }
        s0 = s0 ^ read_le64(bytes, len - 16);
        s1 = s1 ^ read_le64(bytes, len - 8);
    }
    multiply_mix(s0, s1) ^ (len as u64)
}

impl FxHasher {
    /// The state word.
    pub closed spec fn state(&self) -> u64 {
        self.hash
    }

    /// A hasher whose state starts at `seed`.
    pub fn with_seed(seed: usize) -> (r: FxHasher)
        ensures
            r.state() == seed as u64,
    {
        FxHasher { hash: seed as u64 }
    }

    /// A hasher whose state starts at `state`.
    pub(crate) fn with_state(state: u64) -> (r: FxHasher)
        ensures
            r.state() == state,
    {
        FxHasher { hash: state }
    }

    fn add_to_hash(&mut self, i: u64)
        ensures
            final(self).state() == add_word(old(self).state(), i),
    {
        self.hash = self.hash.wrapping_add(i).wrapping_mul(K);
    }

    /// Writes a byte string, by its hash.
    pub fn write(&mut self, bytes: &[u8])
        ensures
            final(self).state() == add_word(old(self).state(), hash_bytes_of(bytes@)),
    {
        let h = hash_bytes(bytes);
        self.write_u64(h);
    }

    pub fn write_u8(&mut self, i: u8)
        ensures
            final(self).state() == add_word(old(self).state(), i as u64),
    {
        self.add_to_hash(i as u64);
    }

    pub fn write_u16(&mut self, i: u16)
        ensures
            final(self).state() == add_word(old(self).state(), i as u64),
    {
        self.add_to_hash(i as u64);
    }

    pub fn write_u32(&mut self, i: u32)
        ensures
            final(self).state() == add_word(old(self).state(), i as u64),
    {
        self.add_to_hash(i as u64);
    }

    pub fn write_u64(&mut self, i: u64)
        ensures
            final(self).state() == add_word(old(self).state(), i),
    {
        self.add_to_hash(i);
    }

    /// Writes the low word, then the high word.
    pub fn write_u128(&mut self, i: u128)
        ensures
            final(self).state() == add_word(add_word(old(self).state(), i as u64), (i >> 64u128) as u64),
    {
        self.add_to_hash(i as u64);
        self.add_to_hash((i >> 64) as u64);
    }

    pub fn write_usize(&mut self, i: usize)
        ensures
            final(self).state() == add_word(old(self).state(), i as u64),
    {
        self.add_to_hash(i as u64);
    }

    /// The hash: the state rotated left by 26 bits.
    pub fn finish(&self) -> (r: u64)
        ensures
            r == rotl(self.state(), 26),
    {
        (self.hash << 26) | (self.hash >> 38)
    }
}

impl core::hash::Hasher for FxHasher {
    fn finish(&self) -> (r: u64)
        ensures
            r == rotl(self.state(), 26),
    {
        FxHasher::finish(self)
    }

    fn write(&mut self, bytes: &[u8])
        ensures
            final(self).state() == add_word(old(self).state(), hash_bytes_of(bytes@)),
    {
        FxHasher::write(self, bytes)
    }

    fn write_u8(&mut self, i: u8)
        ensures
            final(self).state() == add_word(old(self).state(), i as u64),
    {
        FxHasher::write_u8(self, i)
    }

    fn write_u16(&mut self, i: u16)
        ensures
            final(self).state() == add_word(old(self).state(), i as u64),
    {
        FxHasher::write_u16(self, i)
    }

    fn write_u32(&mut self, i: u32)
        ensures
            final(self).state() == add_word(old(self).state(), i as u64),
    {
        FxHasher::write_u32(self, i)
    }

    fn write_u64(&mut self, i: u64)
        ensures
            final(self).state() == add_word(old(self).state(), i),
    {
        FxHasher::write_u64(self, i)
    }

    fn write_u128(&mut self, i: u128)
        ensures
            final(self).state() == add_word(add_word(old(self).state(), i as u64), (i >> 64u128) as u64),
    {
        FxHasher::write_u128(self, i)
    }

    fn write_usize(&mut self, i: usize)
        ensures
            final(self).state() == add_word(old(self).state(), i as u64),
    {
        FxHasher::write_usize(self, i)
    }
}

} // verus!
