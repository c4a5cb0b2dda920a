use vstd::prelude::*;
use crate::error::VorbisError;

verus! {

/// Bit `i` of a byte buffer read right to left: within each byte the least
/// significant bit comes first.
pub open spec fn bit_at(data: Seq<u8>, i: int) -> bool {
    (data[i / 8] >> ((i % 8) as u8)) & 1u8 == 1u8
}

/// The `k` bits starting at bit `pos`, the first bit read landing in bit 0
/// of the result.
pub open spec fn bits_value(data: Seq<u8>, pos: int, k: nat) -> nat
    decreases k,
{
    if k == 0 {
        0
    } else {
        (if bit_at(data, pos) { 1nat } else { 0nat }) + 2 * bits_value(data, pos + 1, (k - 1) as nat)
    }
}

/// Position of the highest set bit: `ilog(0) == 0`, `ilog(1) == 1`, `ilog(7) == 3`.
pub open spec fn spec_ilog(x: nat) -> nat
    decreases x,
{
    if x == 0 {
        0
    } else {
        1 + spec_ilog(x / 2)
    }
}

/// Reading `a` bits and then `b` bits gives the same bits as reading `a + b`
/// at once: the second value lands above the first.
pub proof fn lemma_bits_split(data: Seq<u8>, pos: int, a: nat, b: nat)
    ensures
        bits_value(data, pos, a + b) == bits_value(data, pos, a) + vstd::arithmetic::power2::pow2(a)
            * bits_value(data, pos + a, b),
    decreases a,
{
    if a > 0 {
        lemma_bits_split(data, pos + 1, (a - 1) as nat, b);
        vstd::arithmetic::power2::lemma_pow2_unfold(a);
        let p = vstd::arithmetic::power2::pow2((a - 1) as nat);
        let r = bits_value(data, pos + a, b);
        assert(2 * (p * r) == (2 * p) * r) by (nonlinear_arith);
        assert((a + b - 1) as nat == (a - 1) as nat + b);
    } else {
        vstd::arithmetic::power2::lemma2_to64();
    }
}

/// The value of `k` bits is below `2^k`.
pub proof fn lemma_bits_bound(data: Seq<u8>, pos: int, k: nat)
    ensures
        bits_value(data, pos, k) < vstd::arithmetic::power2::pow2(k),
    decreases k,
{
    if k > 0 {
        vstd::arithmetic::power2::lemma_pow2_unfold(k);
        lemma_bits_bound(data, pos + 1, (k - 1) as nat);
    } else {
        vstd::arithmetic::power2::lemma2_to64();
    }
}

/// A reader over a byte buffer that takes bits least significant first.
pub struct BitReader {
    data: Vec<u8>,
    pos: usize,
}

impl BitReader {
    pub closed spec fn data(&self) -> Seq<u8> {
        self.data@
    }

    /// Number of bits consumed so far.
    pub closed spec fn pos(&self) -> nat {
        self.pos as nat
    }

    pub open spec fn wf(&self) -> bool {
        self.pos() <= 8 * self.data().len() && 8 * self.data().len() <= usize::MAX
    }

    /// Bits not yet consumed.
    pub open spec fn remaining(&self) -> nat {
        (8 * self.data().len() - self.pos()) as nat
    }

    pub fn new(data: Vec<u8>) -> (r: BitReader)
        requires
            8 * data@.len() <= usize::MAX,
        ensures
            r.wf(),
            r.data() == data@,
            r.pos() == 0,
    {
        BitReader { data, pos: 0 }
    }

    pub fn bits_left(&self) -> (r: usize)
        requires
            self.wf(),
        ensures
            r == self.remaining(),
    {
        8 * self.data.len() - self.pos
    }

    /// Reads one bit.
    pub fn read_bit(&mut self) -> (r: Result<bool, VorbisError>)
        requires
            old(self).wf(),
        ensures
            final(self).wf(),
            final(self).data() == old(self).data(),
            old(self).remaining() >= 1 ==> r == Ok::<bool, VorbisError>(bit_at(old(self).data(), old(self).pos() as int))
                && final(self).pos() == old(self).pos() + 1,
            old(self).remaining() < 1 ==> r == Err::<bool, VorbisError>(VorbisError::IoShort)
                && *final(self) == *old(self),
    {
        if self.pos >= 8 * self.data.len() {
            return Err(VorbisError::IoShort);
        }
        let byte = self.data[self.pos / 8];
        let shift = (self.pos % 8) as u8;
        let b = (byte >> shift) & 1u8 == 1u8;
        self.pos = self.pos + 1;
        Ok(b)
    }

    /// Reads `k <= 32` bits; the first bit read is bit 0 of the result.
    pub fn read_bits_leq32(&mut self, k: u32) -> (r: Result<u32, VorbisError>)
        requires
            old(self).wf(),
            k <= 32,
        ensures
            final(self).wf(),
            final(self).data() == old(self).data(),
            old(self).remaining() >= k ==> r == Ok::<u32, VorbisError>(
                bits_value(old(self).data(), old(self).pos() as int, k as nat) as u32)
                && final(self).pos() == old(self).pos() + k
                && bits_value(old(self).data(), old(self).pos() as int, k as nat) < vstd::arithmetic::power2::pow2(k as nat),
            old(self).remaining() < k ==> r == Err::<u32, VorbisError>(VorbisError::IoShort)
                && *final(self) == *old(self),
    {
        if (k as usize) > 8 * self.data.len() - self.pos {
            return Err(VorbisError::IoShort);
        }
        let ghost start = self.pos as int;
        let mut v: u64 = 0;
        let mut weight: u64 = 1;
        let mut i: u32 = 0;
        proof {
            vstd::arithmetic::power2::lemma2_to64();
        }
        while i < k
            invariant
                self.wf(),
                self.data() == old(self).data(),
                i <= k <= 32,
                self.pos() == start + i,
                start + k <= 8 * self.data().len(),
                weight == vstd::arithmetic::power2::pow2(i as nat),
                v == bits_value(self.data(), start, i as nat),
                v < weight,
                weight <= 0x1_0000_0000,
            decreases k - i,
        {
            let byte = self.data[self.pos / 8];
            let shift = (self.pos % 8) as u8;
            let b = (byte >> shift) & 1u8 == 1u8;
            proof {
                lemma_bits_split(self.data(), start, i as nat, 1);
                assert(bits_value(self.data(), start + i, 1) == if b { 1nat } else { 0nat }) by {
                    reveal_with_fuel(bits_value, 2);
                }
                vstd::arithmetic::power2::lemma_pow2_unfold((i + 1) as nat);
                if i + 1 < 32 {
                    vstd::arithmetic::power2::lemma_pow2_strictly_increases((i + 1) as nat, 32);
                }
                vstd::arithmetic::power2::lemma2_to64();
            }
            if b {
                v = v + weight;
            }
            weight = weight * 2;
            self.pos = self.pos + 1;
            i = i + 1;
        }
        proof {
            lemma_bits_bound(self.data(), start, k as nat);
        }
        Ok(v as u32)
    }
}

/// A value below `2^k` has its highest set bit at position `k` or lower.
pub proof fn lemma_ilog_bound(x: nat, k: nat)
    requires
        x < vstd::arithmetic::power2::pow2(k),
    ensures
        spec_ilog(x) <= k,
    decreases k,
{
    if k > 0 && x > 0 {
        vstd::arithmetic::power2::lemma_pow2_unfold(k);
        lemma_ilog_bound(x / 2, (k - 1) as nat);
    } else if k == 0 {
        vstd::arithmetic::power2::lemma2_to64();
    }
}

/// Position of the highest set bit of `x`.
pub fn ilog(x: u32) -> (r: u32)
    ensures
        r == spec_ilog(x as nat),
        r <= 32,
{
    proof {
        vstd::arithmetic::power2::lemma2_to64();
        lemma_ilog_bound(x as nat, 32);
    }
    let mut y: u32 = x;
    let mut n: u32 = 0;
    while y > 0
        invariant
            n + spec_ilog(y as nat) == spec_ilog(x as nat),
            spec_ilog(x as nat) <= 32,
        decreases y,
    {
        y = y / 2;
        n = n + 1;
    }
    n
}

} // verus!
