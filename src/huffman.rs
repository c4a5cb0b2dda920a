use vstd::prelude::*;
use crate::bits::{BitReader, bit_at};
use crate::error::VorbisError;

verus! {

/// The `k` bits at `pos` read as a codeword: the first bit read is the most
/// significant.
pub open spec fn msb_value(data: Seq<u8>, pos: int, k: nat) -> nat
    decreases k,
{
    if k == 0 {
        0
    } else {
        2 * msb_value(data, pos, (k - 1) as nat) + if bit_at(data, pos + k - 1) { 1nat } else { 0nat }
    }
}

/// A codeword of `k` bits is below `2^k`.
pub proof fn lemma_msb_bound(data: Seq<u8>, pos: int, k: nat)
    ensures
        msb_value(data, pos, k) < vstd::arithmetic::power2::pow2(k),
    decreases k,
{
    if k > 0 {
        lemma_msb_bound(data, pos, (k - 1) as nat);
        vstd::arithmetic::power2::lemma_pow2_unfold(k);
    } else {
        vstd::arithmetic::power2::lemma2_to64();
    }
}

/// The lowest entry from `e` on whose codeword has length `len` and value
/// `code`.
pub open spec fn first_match(lengths: Seq<u8>, codewords: Seq<u32>, len: nat, code: nat, e: int) -> Option<nat>
    decreases lengths.len() - e,
{
    if e < 0 || e >= lengths.len() {
        None
    } else if lengths[e] == len && codewords[e] == code {
        Some(e as nat)
    } else {
        first_match(lengths, codewords, len, code, e + 1)
    }
}

/// An entry that `first_match` finds has the asked length and value.
pub proof fn lemma_first_match(lengths: Seq<u8>, codewords: Seq<u32>, len: nat, code: nat, e: int)
    ensures
        first_match(lengths, codewords, len, code, e) matches Some(k) ==> e <= k < lengths.len() && lengths[k as int] == len
            && codewords[k as int] == code,
    decreases lengths.len() - e,
{
    if 0 <= e < lengths.len() && !(lengths[e] == len && codewords[e] == code) {
        lemma_first_match(lengths, codewords, len, code, e + 1);
    }
}

/// Decoding one codeword at `pos`, trying code lengths from `len` up to 32:
/// the entry of the shortest codeword that the bits spell, the lowest such
/// entry where several do.
pub open spec fn decode_scan(lengths: Seq<u8>, codewords: Seq<u32>, data: Seq<u8>, pos: int, len: nat) -> Result<nat, VorbisError>
    decreases 33 - len,
{
    if len == 0 || len > 32 {
        Err(VorbisError::InvalidCode)
    } else if pos + len > 8 * data.len() {
        Err(VorbisError::IoShort)
    } else {
        match first_match(lengths, codewords, len, msb_value(data, pos, len), 0) {
            Some(e) => Ok(e),
            None => decode_scan(lengths, codewords, data, pos, len + 1),
        }
    }
}

/// The lowest entry with codeword length `len` and value `code`.
fn find_entry(lengths: &Vec<u8>, codewords: &Vec<u32>, len: u8, code: u64) -> (r: Option<u32>)
    requires
        lengths@.len() == codewords@.len() <= u32::MAX,
    ensures
        r matches Some(e) ==> first_match(lengths@, codewords@, len as nat, code as nat, 0) == Some(e as nat),
        r is None ==> first_match(lengths@, codewords@, len as nat, code as nat, 0) is None,
{
    let mut e: usize = 0;
    while e < lengths.len()
        invariant
            e <= lengths@.len() == codewords@.len() <= u32::MAX,
            first_match(lengths@, codewords@, len as nat, code as nat, 0) == first_match(
                lengths@,
                codewords@,
                len as nat,
                code as nat,
                e as int,
            ),
        decreases lengths@.len() - e,
    {
        if lengths[e] == len && codewords[e] as u64 == code {
            return Some(e as u32);
        }
        e = e + 1;
    }
    None
}

/// Reads one codeword and returns the number of its entry.
pub fn scalar_decode(bs: &mut BitReader, lengths: &Vec<u8>, codewords: &Vec<u32>) -> (r: Result<u32, VorbisError>)
    requires
        old(bs).wf(),
        lengths@.len() == codewords@.len() <= u32::MAX,
    ensures
        final(bs).wf(),
        final(bs).data() == old(bs).data(),
        ({
            let spec = decode_scan(lengths@, codewords@, old(bs).data(), old(bs).pos() as int, 1);
            &&& (r is Ok <==> spec is Ok)
            &&& r is Ok ==> r->Ok_0 == spec->Ok_0 && r->Ok_0 < lengths@.len()
                && final(bs).pos() == old(bs).pos() + lengths@[r->Ok_0 as int]
            &&& r is Err ==> r->Err_0 == spec->Err_0
        }),
        r is Err ==> r->Err_0 == VorbisError::IoShort || r->Err_0 == VorbisError::InvalidCode,
{
    let ghost data = old(bs).data();
    let ghost start = old(bs).pos() as int;
    let mut code: u64 = 0;
    let mut len: u8 = 1;
    while len <= 32
        invariant
            bs.wf(),
            bs.data() == data,
            data == old(bs).data(),
            start == old(bs).pos(),
            lengths@.len() == codewords@.len() <= u32::MAX,
            1 <= len <= 33,
            bs.pos() == start + len - 1,
            code == msb_value(data, start, (len - 1) as nat),
            decode_scan(lengths@, codewords@, data, start, 1) == decode_scan(lengths@, codewords@, data, start, len as nat),
        decreases 33 - len,
    {
        proof {
            lemma_msb_bound(data, start, (len - 1) as nat);
            vstd::arithmetic::power2::lemma2_to64();
            if len - 1 < 32 {
                vstd::arithmetic::power2::lemma_pow2_strictly_increases((len - 1) as nat, 32);
            }
        }
        let bit = match bs.read_bit() {
            Ok(b) => b,
            Err(e) => return Err(e),
        };
        code = 2 * code + if bit { 1u64 } else { 0u64 };
        match find_entry(lengths, codewords, len, code) {
            Some(e) => {
                proof {
                    lemma_first_match(lengths@, codewords@, len as nat, code as nat, 0);
                }
                return Ok(e);
            },
            None => {},
        }
        len = len + 1;
    }
    Err(VorbisError::InvalidCode)
}

} // verus!

verus! {

/// A used entry's codeword fits in its length.
pub open spec fn codeword_fits(len: u8, cw: u32) -> bool {
    len == 0 || len >= 32 || (cw as nat) < vstd::arithmetic::power2::pow2(len as nat)
}

/// `x + 1`, wrapping at 32 bits.
pub open spec fn inc32(x: u32) -> u32 {
    ((x as nat + 1) % 0x1_0000_0000) as u32
}

/// `2 * x`, wrapping at 32 bits.
pub open spec fn dbl32(x: u32) -> u32 {
    ((x as nat * 2) % 0x1_0000_0000) as u32
}

/// The next-free markers after the codeword of length `k` is taken: going
/// down from `k`, each even marker moves on by one, and the first odd one
/// becomes twice the marker below it (at length 1, it moves on by one).
pub open spec fn take_down(m: Seq<u32>, k: int) -> Seq<u32>
    decreases k,
{
    if k < 1 {
        m
    } else if m[k] % 2 == 1 {
        if k == 1 {
            m.update(1, inc32(m[1]))
        } else {
            m.update(k, dbl32(m[k - 1]))
        }
    } else {
        take_down(m.update(k, inc32(m[k])), k - 1)
    }
}

/// Going up from length `k`, each marker that hangs below the codeword
/// `entry` moves past it, as long as the chain lasts.
pub open spec fn move_up(m: Seq<u32>, entry: u32, k: int) -> Seq<u32>
    decreases 33 - k,
{
    if k < 1 || k > 32 {
        m
    } else if m[k] / 2 == entry {
        move_up(m.update(k, dbl32(m[k - 1])), m[k], k + 1)
    } else {
        m
    }
}

/// Markers and codewords after the first `i` entries are given codewords,
/// in entry order, each the lowest free one of its length; `None` once an
/// entry finds its length used up.
pub open spec fn assign_state(lengths: Seq<u8>, i: nat) -> Option<(Seq<u32>, Seq<u32>)>
    decreases i,
{
    if i == 0 {
        Some((Seq::new(33, |k: int| 0u32), Seq::empty()))
    } else {
        match assign_state(lengths, (i - 1) as nat) {
            None => None,
            Some((m, cw)) => {
                let len = lengths[i - 1];
                if len == 0 {
                    Some((m, cw.push(0u32)))
                } else if len < 32 && (m[len as int] >> (len as u32)) != 0 {
                    None
                } else {
                    Some((move_up(take_down(m, len as int), m[len as int], len + 1), cw.push(m[len as int])))
                }
            },
        }
    }
}

/// Gives each used entry, in entry order, the lowest codeword of its length
/// that no earlier codeword is a prefix of and that is a prefix of no earlier
/// codeword; an entry for which none is left makes the set invalid.
pub fn assign_codewords(lengths: &Vec<u8>) -> (r: Result<Vec<u32>, VorbisError>)
    requires
        forall|i: int| 0 <= i < lengths@.len() ==> #[trigger] lengths@[i] <= 32,
    ensures
        r is Ok <==> assign_state(lengths@, lengths@.len()) is Some,
        r is Ok ==> r->Ok_0@ == assign_state(lengths@, lengths@.len())->Some_0.1,
        r is Ok ==> r->Ok_0@.len() == lengths@.len() && forall|i: int|
            0 <= i < lengths@.len() ==> codeword_fits(#[trigger] lengths@[i], r->Ok_0@[i]),
        r is Err ==> r->Err_0 == VorbisError::InvalidCodebook,
{
    // marker[j] is the next free codeword of length j.
    let mut marker: Vec<u32> = Vec::new();
    let mut j: usize = 0;
    while j < 33
        invariant
            j <= 33,
            marker@ == Seq::new(j as nat, |k: int| 0u32),
        decreases 33 - j,
    {
        marker.push(0);
        j = j + 1;
        proof {
            assert(marker@ =~= Seq::new(j as nat, |k: int| 0u32));
        }
    }
    let mut codewords: Vec<u32> = Vec::new();
    let mut i: usize = 0;
    while i < lengths.len()
        invariant
            i <= lengths@.len(),
            marker@.len() == 33,
            codewords@.len() == i,
            forall|k: int| 0 <= k < lengths@.len() ==> #[trigger] lengths@[k] <= 32,
            forall|k: int| 0 <= k < i ==> codeword_fits(#[trigger] lengths@[k], codewords@[k]),
            assign_state(lengths@, i as nat) == Some((marker@, codewords@)),
        decreases lengths@.len() - i,
    {
        let len = lengths[i];
        if len == 0 {
            codewords.push(0);
        } else {
            let entry0 = marker[len as usize];
            if len < 32 && (entry0 >> (len as u32)) != 0 {
                proof {
                    lemma_assign_stuck(lengths@, (i + 1) as nat, lengths@.len());
                }
                return Err(VorbisError::InvalidCodebook);
            }
            proof {
                if len < 32 {
                    let l = len as u32;
                    assert(entry0 >> l == 0u32 ==> entry0 < (1u32 << l)) by (bit_vector)
                        requires l < 32u32;
                    vstd::arithmetic::power2::lemma_pow2_strictly_increases(l as nat, 32);
                    vstd::arithmetic::power2::lemma2_to64();
                    vstd::bits::lemma_u32_shl_is_mul(1, l);
                }
            }
            codewords.push(entry0);
            let ghost m0 = marker@;
            // Take the codeword: move the markers at and below this length on.
            let mut k: usize = len as usize;
            let mut done = false;
            while !done && k >= 1
                invariant
                    k <= 32,
                    marker@.len() == 33,
                    take_down(m0, len as int) == if done { marker@ } else { take_down(marker@, k as int) },
                decreases k + if done { 0int } else { 1int },
            {
                if marker[k] % 2 == 1 {
                    if k == 1 {
                        let m = ((marker[1] as u64 + 1) % 0x1_0000_0000) as u32;
                        marker.set(1, m);
                    } else {
                        let m = ((marker[k - 1] as u64 * 2) % 0x1_0000_0000) as u32;
                        marker.set(k, m);
                    }
                    done = true;
                } else {
                    let m = ((marker[k] as u64 + 1) % 0x1_0000_0000) as u32;
                    marker.set(k, m);
                    k = k - 1;
                }
            }
            // Longer markers that hung below this codeword move past it.
            let ghost m1 = marker@;
            let mut entry = entry0;
            let mut k: usize = len as usize + 1;
            let mut going = true;
            while going && k <= 32
                invariant
                    1 <= k <= 33,
                    marker@.len() == 33,
                    move_up(m1, entry0, len + 1) == if going { move_up(marker@, entry, k as int) } else { marker@ },
                decreases 33 - k + if going { 1int } else { 0int },
            {
                if marker[k] / 2 == entry {
                    entry = marker[k];
                    let m = ((marker[k - 1] as u64 * 2) % 0x1_0000_0000) as u32;
                    marker.set(k, m);
                    k = k + 1;
                } else {
                    going = false;
                }
            }
        }
        i = i + 1;
        proof {
            assert(assign_state(lengths@, i as nat) == Some((marker@, codewords@)));
        }
    }
    proof {
        assert(lengths@.len() == i);
    }
    Ok(codewords)
}

/// Once an entry finds its length used up, no longer prefix gets codewords.
proof fn lemma_assign_stuck(lengths: Seq<u8>, i: nat, n: nat)
    requires
        i <= n,
        assign_state(lengths, i) is None,
    ensures
        assign_state(lengths, n) is None,
    decreases n - i,
{
    if i < n {
        lemma_assign_stuck(lengths, i + 1, n);
    }
}

} // verus!
