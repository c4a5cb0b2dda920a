use vstd::prelude::*;
use vstd::arithmetic::power::pow;
use crate::bits::{BitReader, bit_at, bits_value, ilog, spec_ilog};
use crate::error::VorbisError;
use crate::huffman::{assign_codewords, assign_state, codeword_fits, decode_scan, scalar_decode};

verus! {

/// Sync pattern that opens every codebook.
pub const CODEBOOK_SYNC: u32 = 0x564342;

/// A codebook as the setup header describes it: entry lengths (zero for an
/// unused entry) and the raw vector lookup parameters.
#[derive(Clone, Debug)]
pub struct Codebook {
    pub dimensions: u16,
    pub entries: u32,
    pub lengths: Vec<u8>,
    /// Codeword of each entry, first bit read in the most significant place.
    pub codewords: Vec<u32>,
    pub lookup_type: u8,
    /// Packed Vorbis float of the smallest value.
    pub min_value: u32,
    /// Packed Vorbis float of the step between values.
    pub delta_value: u32,
    pub value_bits: u8,
    pub sequence_p: bool,
    pub multiplicands: Vec<u32>,
}

impl Codebook {
    /// Reads one codeword and returns the number of its entry.
    pub fn read_scalar(&self, bs: &mut BitReader) -> (r: Result<u32, VorbisError>)
        requires
            old(bs).wf(),
            self.wf(),
        ensures
            final(bs).wf(),
            final(bs).data() == old(bs).data(),
            ({
                let spec = decode_scan(self.lengths@, self.codewords@, old(bs).data(), old(bs).pos() as int, 1);
                &&& (r is Ok <==> spec is Ok)
                &&& r is Ok ==> r->Ok_0 == spec->Ok_0 && r->Ok_0 < self.entries
                    && final(bs).pos() == old(bs).pos() + self.lengths@[r->Ok_0 as int]
                &&& r is Err ==> r->Err_0 == spec->Err_0
            }),
            r is Err ==> r->Err_0 == VorbisError::IoShort || r->Err_0 == VorbisError::InvalidCode,
    {
        scalar_decode(bs, &self.lengths, &self.codewords)
    }

    pub open spec fn wf(&self) -> bool {
        &&& self.lengths@.len() == self.entries
        &&& self.entries < 0x100_0000
        &&& self.codewords@.len() == self.entries
        &&& forall|i: int| 0 <= i < self.lengths@.len() ==> codeword_fits(#[trigger] self.lengths@[i], self.codewords@[i])
        &&& forall|i: int| 0 <= i < self.lengths@.len() ==> #[trigger] self.lengths@[i] <= 32
        &&& self.lookup_type <= 2
        &&& self.lookup_type == 1 ==> self.dimensions >= 1 && self.multiplicands@.len() == lookup1_count(
            self.entries as nat,
            self.dimensions as nat,
        )
        &&& self.lookup_type == 2 ==> self.multiplicands@.len() == self.entries * self.dimensions
        &&& self.lookup_type == 0 ==> self.multiplicands@.len() == 0
    }
}

/// The largest `r` with `r^dims <= entries`.
pub open spec fn lookup1_count(entries: nat, dims: nat) -> nat
    recommends
        dims >= 1,
{
    choose|r: nat| #[trigger] is_lookup1_root(entries, dims, r)
}

/// `r^dims <= entries < (r+1)^dims`.
pub open spec fn is_lookup1_root(entries: nat, dims: nat, r: nat) -> bool {
    pow(r as int, dims) <= entries && entries < pow((r + 1) as int, dims)
}

/// Whether `base^exp` stays at or below `limit`.
fn pow_at_most(base: u64, exp: u16, limit: u64) -> (r: bool)
    requires
        1 <= base <= 0x100_0000,
        limit < 0x100_0000,
    ensures
        r == (pow(base as int, exp as nat) <= limit),
{
    let mut acc: u64 = 1;
    let mut i: u16 = 0;
    proof {
        reveal(pow);
    }
    while i < exp
        invariant
            1 <= base <= 0x100_0000,
            limit < 0x100_0000,
            i <= exp,
            acc == pow(base as int, i as nat),
            acc <= limit || i == 0,
            acc >= 1,
        decreases exp - i,
    {
        proof {
            reveal(pow);
            assert(pow(base as int, (i + 1) as nat) == base * pow(base as int, i as nat));
            assert(pow(base as int, (i + 1) as nat) == base * acc);
            assert(acc <= 0x100_0000);
            assert(base * acc <= 0x100_0000 * 0x100_0000) by (nonlinear_arith)
                requires acc <= 0x100_0000, base <= 0x100_0000;
            assert(base * acc >= 1) by (nonlinear_arith)
                requires acc >= 1, base >= 1;
        }
        acc = base * acc;
        i = i + 1;
        if acc > limit {
            proof {
                vstd::arithmetic::power::lemma_pow_increases(base as nat, i as nat, exp as nat);
            }
            return false;
        }
    }
    acc <= limit
}

/// Number of values a lattice (lookup type 1) codebook stores: the largest
/// `r` with `r^dims <= entries`.
pub fn lookup1_values(entries: u32, dims: u16) -> (r: u32)
    requires
        dims >= 1,
        entries < 0x100_0000,
    ensures
        pow(r as int, dims as nat) <= entries < pow(r + 1, dims as nat),
        r == lookup1_count(entries as nat, dims as nat),
{
    let mut r: u32 = 0;
    proof {
        vstd::arithmetic::power::lemma0_pow(dims as nat);
    }
    while r < entries && pow_at_most(r as u64 + 1, dims, entries as u64)
        invariant
            dims >= 1,
            entries < 0x100_0000,
            r <= entries,
            pow(r as int, dims as nat) <= entries,
        decreases entries - r,
    {
        r = r + 1;
    }
    proof {
        if r == entries {
            vstd::arithmetic::power::lemma_pow_increases((r + 1) as nat, 1, dims as nat);
            vstd::arithmetic::power::lemma_pow1((r + 1) as int);
        }
        lemma_lookup1_unique(entries as nat, dims as nat, r as nat);
    }
    r
}

/// At most one `r` has `r^dims <= entries < (r+1)^dims`.
proof fn lemma_lookup1_unique(entries: nat, dims: nat, r: nat)
    requires
        dims >= 1,
        pow(r as int, dims) <= entries < pow((r + 1) as int, dims),
    ensures
        lookup1_count(entries, dims) == r,
{
    assert(is_lookup1_root(entries, dims, r));
    let s = lookup1_count(entries, dims);
    assert(pow(s as int, dims) <= entries && entries < pow((s + 1) as int, dims));
    if s < r {
        vstd::arithmetic::power::lemma_pow_increases(1, 0, 0);
        lemma_pow_base_monotone(s + 1, r, dims);
    } else if s > r {
        lemma_pow_base_monotone(r + 1, s, dims);
    }
}

/// `a <= b` gives `a^e <= b^e`.
proof fn lemma_pow_base_monotone(a: nat, b: nat, e: nat)
    requires
        a <= b,
    ensures
        0 <= pow(a as int, e) <= pow(b as int, e),
    decreases e,
{
    reveal(pow);
    if e > 0 {
        lemma_pow_base_monotone(a, b, (e - 1) as nat);
        let pa = pow(a as int, (e - 1) as nat);
        let pb = pow(b as int, (e - 1) as nat);
        assert(0 <= a * pa <= b * pb) by (nonlinear_arith)
            requires a <= b, 0 <= pa <= pb, 0 <= a;
    }
}

} // verus!

verus! {

/// The share `2^(32 - len)` of the code space that a codeword of length
/// `len` takes; an unused entry takes none.
pub open spec fn code_share(len: u8) -> nat {
    if len == 0 || len > 32 {
        0
    } else {
        vstd::arithmetic::power2::pow2((32 - len) as nat)
    }
}

/// Sum of the code shares of all entries (the Kraft sum, scaled by `2^32`).
pub open spec fn kraft_sum(lengths: Seq<u8>) -> nat
    decreases lengths.len(),
{
    if lengths.len() == 0 {
        0
    } else {
        kraft_sum(lengths.drop_last()) + code_share(lengths.last())
    }
}

/// Number of entries with a codeword.
pub open spec fn used_count(lengths: Seq<u8>) -> nat
    decreases lengths.len(),
{
    if lengths.len() == 0 {
        0
    } else {
        used_count(lengths.drop_last()) + if lengths.last() != 0 { 1nat } else { 0nat }
    }
}

/// A set of codeword lengths defines a complete prefix code, or a single
/// codeword.
pub open spec fn is_prefix_code(lengths: Seq<u8>) -> bool {
    let full = vstd::arithmetic::power2::pow2(32);
    kraft_sum(lengths) == full || (kraft_sum(lengths) < full && used_count(lengths) == 1)
}

/// Checks that the codeword lengths fill the code space exactly, or that
/// only one entry is used.
pub fn check_prefix_code(lengths: &Vec<u8>) -> (r: bool)
    requires
        lengths@.len() < 0x100_0000,
        forall|i: int| 0 <= i < lengths@.len() ==> #[trigger] lengths@[i] <= 32,
    ensures
        r == is_prefix_code(lengths@),
{
    let mut sum: u64 = 0;
    let mut used: u64 = 0;
    let mut i: usize = 0;
    while i < lengths.len()
        invariant
            i <= lengths@.len() < 0x100_0000,
            forall|k: int| 0 <= k < lengths@.len() ==> #[trigger] lengths@[k] <= 32,
            sum == kraft_sum(lengths@.take(i as int)),
            used == used_count(lengths@.take(i as int)),
            sum <= i * 0x8000_0000,
            used <= i,
        decreases lengths@.len() - i,
    {
        let len = lengths[i];
        proof {
            assert(lengths@.take(i + 1).drop_last() == lengths@.take(i as int));
            assert(lengths@.take(i + 1).last() == len);
            vstd::arithmetic::power2::lemma2_to64();
            if len > 1 && len <= 32 {
                vstd::arithmetic::power2::lemma_pow2_strictly_increases((32 - len) as nat, 31);
            }
        }
        if len > 0 {
            let share: u64 = 1u64 << ((32 - len) as u64);
            proof {
                assert(share == vstd::arithmetic::power2::pow2((32 - len) as nat)) by {
                    vstd::bits::lemma_u64_shl_is_mul(1, (32 - len) as u64);
                    vstd::arithmetic::power2::lemma_pow2((32 - len) as nat);
                }
            }
            sum = sum + share;
            used = used + 1;
        }
        i = i + 1;
    }
    proof {
        assert(lengths@.take(lengths@.len() as int) == lengths@);
        vstd::arithmetic::power2::lemma2_to64();
    }
    sum == 0x1_0000_0000 || (sum < 0x1_0000_0000 && used == 1)
}

} // verus!

verus! {

/// Codeword lengths each between 0 and 32.
pub open spec fn lengths_wf(lengths: Seq<u8>) -> bool {
    forall|i: int| 0 <= i < lengths.len() ==> #[trigger] lengths[i] <= 32
}

/// The lengths of `n` more entries in the plain form from bit `pos`: five
/// bits (length minus one) each, behind a used flag where `sparse`.
pub open spec fn plain_lengths(data: Seq<u8>, pos: int, sparse: bool, n: nat, acc: Seq<u8>) -> Result<(Seq<u8>, int), VorbisError>
    decreases n,
{
    if n == 0 {
        Ok((acc, pos))
    } else if sparse {
        if pos + 1 > 8 * data.len() {
            Err(VorbisError::IoShort)
        } else if bit_at(data, pos) {
            if pos + 6 > 8 * data.len() {
                Err(VorbisError::IoShort)
            } else {
                plain_lengths(data, pos + 6, sparse, (n - 1) as nat, acc.push((bits_value(data, pos + 1, 5) + 1) as u8))
            }
        } else {
            plain_lengths(data, pos + 1, sparse, (n - 1) as nat, acc.push(0u8))
        }
    } else if pos + 5 > 8 * data.len() {
        Err(VorbisError::IoShort)
    } else {
        plain_lengths(data, pos + 5, sparse, (n - 1) as nat, acc.push((bits_value(data, pos, 5) + 1) as u8))
    }
}

/// The lengths in the ordered form from bit `pos`: runs of entries of
/// length `cur_len`, `cur_len + 1`, ..., each run's size in as many bits as
/// the number of entries left needs.
pub open spec fn ordered_lengths(data: Seq<u8>, pos: int, entries: nat, cur_len: nat, acc: Seq<u8>) -> Result<(Seq<u8>, int), VorbisError>
    decreases 34 - cur_len,
{
    if acc.len() >= entries {
        Ok((acc, pos))
    } else if cur_len > 32 {
        Err(VorbisError::InvalidCodebook)
    } else {
        let left = (entries - acc.len()) as nat;
        let nb = spec_ilog(left);
        if pos + nb > 8 * data.len() {
            Err(VorbisError::IoShort)
        } else if bits_value(data, pos, nb) > left {
            Err(VorbisError::InvalidCodebook)
        } else {
            ordered_lengths(
                data,
                pos + nb,
                entries,
                cur_len + 1,
                acc + Seq::new(bits_value(data, pos, nb), |k: int| cur_len as u8),
            )
        }
    }
}

/// The codeword lengths of `entries` entries from bit `pos` (the ordered
/// flag), and where the reader then stands.
pub open spec fn lengths_result(data: Seq<u8>, pos: int, entries: nat) -> Result<(Seq<u8>, int), VorbisError> {
    if pos + 1 > 8 * data.len() {
        Err(VorbisError::IoShort)
    } else if !bit_at(data, pos) {
        if pos + 2 > 8 * data.len() {
            Err(VorbisError::IoShort)
        } else {
            plain_lengths(data, pos + 2, bit_at(data, pos + 1), entries, Seq::empty())
        }
    } else if pos + 6 > 8 * data.len() {
        Err(VorbisError::IoShort)
    } else {
        ordered_lengths(data, pos + 6, entries, bits_value(data, pos + 1, 5) + 1, Seq::empty())
    }
}

/// Reads the codeword lengths of `entries` entries, in the ordered or the
/// plain (possibly sparse) form.
fn read_entry_lengths(bs: &mut BitReader, entries: u32) -> (r: Result<Vec<u8>, VorbisError>)
    requires
        old(bs).wf(),
        entries < 0x100_0000,
    ensures
        final(bs).wf(),
        final(bs).data() == old(bs).data(),
        r is Ok ==> r->Ok_0@.len() == entries && lengths_wf(r->Ok_0@),
        r is Err ==> r->Err_0 == VorbisError::IoShort || r->Err_0 == VorbisError::InvalidCodebook,
        ({
            let spec = lengths_result(old(bs).data(), old(bs).pos() as int, entries as nat);
            &&& (r is Ok <==> spec is Ok)
            &&& r is Ok ==> r->Ok_0@ == spec->Ok_0.0 && final(bs).pos() == spec->Ok_0.1
            &&& r is Err ==> r->Err_0 == spec->Err_0
        }),
{
    let ghost data = old(bs).data();
    let ghost p = old(bs).pos() as int;
    proof {
        vstd::arithmetic::power2::lemma2_to64();
    }
    let ordered = match bs.read_bit() {
        Ok(b) => b,
        Err(e) => return Err(e),
    };
    let mut lengths: Vec<u8> = Vec::new();
    if !ordered {
        let sparse = match bs.read_bit() {
            Ok(b) => b,
            Err(e) => return Err(e),
        };
        let mut i: u32 = 0;
        while i < entries
            invariant
                bs.wf(),
                bs.data() == old(bs).data(),
                data == old(bs).data(),
                p == old(bs).pos(),
                p + 2 <= 8 * data.len(),
                !bit_at(data, p),
                sparse == bit_at(data, p + 1),
                i <= entries,
                lengths@.len() == i,
                lengths_wf(lengths@),
                plain_lengths(data, p + 2, sparse, entries as nat, Seq::empty()) == plain_lengths(
                    data,
                    bs.pos() as int,
                    sparse,
                    (entries - i) as nat,
                    lengths@,
                ),
            decreases entries - i,
        {
            proof {
                vstd::arithmetic::power2::lemma2_to64();
            }
            let used = if sparse {
                match bs.read_bit() {
                    Ok(b) => b,
                    Err(e) => return Err(e),
                }
            } else {
                true
            };
            let len: u8 = if used {
                match bs.read_bits_leq32(5) {
                    Ok(v) => v as u8 + 1,
                    Err(e) => return Err(e),
                }
            } else {
                0
            };
            lengths.push(len);
            i = i + 1;
        }
    } else {
        let mut cur_len: u32 = match bs.read_bits_leq32(5) {
            Ok(v) => v + 1,
            Err(e) => return Err(e),
        };
        while (lengths.len() as u32) < entries
            invariant
                bs.wf(),
                bs.data() == old(bs).data(),
                data == old(bs).data(),
                p == old(bs).pos(),
                p + 6 <= 8 * data.len(),
                bit_at(data, p),
                lengths@.len() <= entries < 0x100_0000,
                lengths_wf(lengths@),
                1 <= cur_len <= 33,
                ordered_lengths(data, p + 6, entries as nat, bits_value(data, p + 1, 5) + 1, Seq::empty()) == ordered_lengths(
                    data,
                    bs.pos() as int,
                    entries as nat,
                    cur_len as nat,
                    lengths@,
                ),
            decreases 34 - cur_len,
        {
            if cur_len > 32 {
                return Err(VorbisError::InvalidCodebook);
            }
            let left = entries - lengths.len() as u32;
            let ghost pos_before = bs.pos() as int;
            let number = match bs.read_bits_leq32(ilog(left)) {
                Ok(v) => v,
                Err(e) => return Err(e),
            };
            proof {
                vstd::arithmetic::power2::lemma2_to64();
                crate::bits::lemma_ilog_bound(left as nat, 24);
                let nb = spec_ilog(left as nat);
                if nb < 32 {
                    vstd::arithmetic::power2::lemma_pow2_strictly_increases(nb, 32);
                }
                assert(number as nat == bits_value(data, pos_before, nb));
            }
            if number > left {
                return Err(VorbisError::InvalidCodebook);
            }
            let ghost base = lengths@;
            let mut k: u32 = 0;
            while k < number
                invariant
                    k <= number <= left,
                    base.len() + left == entries,
                    lengths@.len() == base.len() + k,
                    lengths@ == base + Seq::new(k as nat, |m: int| cur_len as u8),
                    lengths_wf(lengths@),
                    1 <= cur_len <= 32,
                decreases number - k,
            {
                lengths.push(cur_len as u8);
                k = k + 1;
                proof {
                    assert(lengths@ =~= base + Seq::new(k as nat, |m: int| cur_len as u8));
                }
            }
            proof {
                let nb = spec_ilog(left as nat);
                assert(ordered_lengths(data, pos_before, entries as nat, cur_len as nat, base) == ordered_lengths(
                    data,
                    pos_before + nb,
                    entries as nat,
                    (cur_len + 1) as nat,
                    base + Seq::new(bits_value(data, pos_before, nb), |m: int| cur_len as u8),
                ));
            }
            cur_len = cur_len + 1;
        }
    }
    Ok(lengths)
}

} // verus!

verus! {

/// The fields of a codebook: dimensions, entries, lengths, lookup type,
/// minimum, delta, value bits, sequence flag and multiplicands.
pub type CodebookFields = (u16, u32, Seq<u8>, u8, u32, u32, u8, bool, Seq<u32>);

/// Number of stored values for lookup type `lt`.
pub open spec fn value_count(lt: nat, entries: nat, dims: nat) -> nat {
    if lt == 1 { lookup1_count(entries, dims) } else { entries * dims }
}

/// The lookup part of a codebook from bit `q` (its lookup type).
pub open spec fn lookup_result(data: Seq<u8>, q: int, dims: nat, entries: nat, ls: Seq<u8>) -> Result<CodebookFields, VorbisError> {
    let end = 8 * data.len();
    let lt = bits_value(data, q, 4);
    let vb = bits_value(data, q + 68, 4) + 1;
    let count = value_count(lt, entries, dims);
    if q + 4 > end {
        Err(VorbisError::IoShort)
    } else if lt == 0 {
        Ok((dims as u16, entries as u32, ls, 0u8, 0u32, 0u32, 0u8, false, Seq::empty()))
    } else if lt > 2 {
        Err(VorbisError::InvalidCodebook)
    } else if q + 73 > end {
        Err(VorbisError::IoShort)
    } else if lt == 1 && dims == 0 {
        Err(VorbisError::InvalidCodebook)
    } else if q + 73 + vb * count > end {
        Err(VorbisError::IoShort)
    } else {
        Ok((
            dims as u16,
            entries as u32,
            ls,
            lt as u8,
            bits_value(data, q + 4, 32) as u32,
            bits_value(data, q + 36, 32) as u32,
            vb as u8,
            bit_at(data, q + 72),
            Seq::new(count, |i: int| bits_value(data, q + 73 + vb * i, vb) as u32),
        ))
    }
}

/// What a codebook at bit `p` holds.
pub open spec fn codebook_result(data: Seq<u8>, p: int) -> Result<CodebookFields, VorbisError> {
    let end = 8 * data.len();
    let dims = bits_value(data, p + 24, 16);
    let entries = bits_value(data, p + 40, 24);
    if p + 24 > end {
        Err(VorbisError::IoShort)
    } else if bits_value(data, p, 24) != CODEBOOK_SYNC {
        Err(VorbisError::InvalidCodebook)
    } else if p + 64 > end {
        Err(VorbisError::IoShort)
    } else {
        match lengths_result(data, p + 64, entries) {
            Err(e) => Err(e),
            Ok((ls, q)) => if !is_prefix_code(ls) || assign_state(ls, ls.len()) is None {
                Err(VorbisError::InvalidCodebook)
            } else {
                lookup_result(data, q, dims, entries, ls)
            },
        }
    }
}

/// Where a codebook at bit `p` that reads successfully ends.
pub open spec fn codebook_end(data: Seq<u8>, p: int) -> int {
    let dims = bits_value(data, p + 24, 16);
    let entries = bits_value(data, p + 40, 24);
    let q = lengths_result(data, p + 64, entries)->Ok_0.1;
    let lt = bits_value(data, q, 4);
    let vb = bits_value(data, q + 68, 4) + 1;
    if lt == 0 { q + 4 } else { q + 73 + vb * value_count(lt, entries, dims) }
}

/// The fields of a codebook value, in the order `CodebookFields` has them.
pub open spec fn fields_of(b: Codebook) -> CodebookFields {
    (b.dimensions, b.entries, b.lengths@, b.lookup_type, b.min_value, b.delta_value, b.value_bits, b.sequence_p, b.multiplicands@)
}

/// The codebooks of a list of `n` more from bit `pos`, appended to `acc`.
pub open spec fn codebooks_read(data: Seq<u8>, pos: int, n: nat, acc: Seq<CodebookFields>) -> Result<(Seq<CodebookFields>, int), VorbisError>
    decreases n,
{
    if n == 0 {
        Ok((acc, pos))
    } else {
        match codebook_result(data, pos) {
            Err(e) => Err(e),
            Ok(f) => codebooks_read(data, codebook_end(data, pos), (n - 1) as nat, acc.push(f)),
        }
    }
}

/// A codebook read at bit `p` agrees with `codebook_result`.
pub open spec fn codebook_outcome(data: Seq<u8>, p: int, r: Result<Codebook, VorbisError>) -> bool {
    let spec = codebook_result(data, p);
    &&& (r is Ok <==> spec is Ok)
    &&& r is Err ==> r->Err_0 == spec->Err_0
    &&& r is Ok ==> {
        let b = r->Ok_0;
        &&& (b.dimensions, b.entries, b.lengths@, b.lookup_type, b.min_value, b.delta_value, b.value_bits, b.sequence_p, b.multiplicands@)
            == spec->Ok_0
        &&& b.codewords@ == assign_state(b.lengths@, b.lengths@.len())->Some_0.1
    }
}

/// Reads one codebook from the setup header and checks that its codeword
/// lengths form a prefix code.
#[verifier::rlimit(80)]
pub fn read_codebook(bs: &mut BitReader) -> (r: Result<Codebook, VorbisError>)
    requires
        old(bs).wf(),
    ensures
        final(bs).wf(),
        final(bs).data() == old(bs).data(),
        old(bs).remaining() < 24 ==> r == Err::<Codebook, VorbisError>(VorbisError::IoShort),
        old(bs).remaining() >= 24 && bits_value(old(bs).data(), old(bs).pos() as int, 24) != CODEBOOK_SYNC
            ==> r == Err::<Codebook, VorbisError>(VorbisError::InvalidCodebook),
        r is Ok ==> r->Ok_0.wf() && is_prefix_code(r->Ok_0.lengths@),
        r is Err ==> r->Err_0 == VorbisError::IoShort || r->Err_0 == VorbisError::InvalidCodebook,
        codebook_outcome(old(bs).data(), old(bs).pos() as int, r),
        r is Ok ==> final(bs).pos() == codebook_end(old(bs).data(), old(bs).pos() as int),
{
    let ghost data = old(bs).data();
    let ghost p = old(bs).pos() as int;
    proof {
        vstd::arithmetic::power2::lemma2_to64();
    }
    let sync = match bs.read_bits_leq32(24) {
        Ok(v) => v,
        Err(e) => return Err(e),
    };
    if sync != CODEBOOK_SYNC {
        return Err(VorbisError::InvalidCodebook);
    }
    let dimensions = match bs.read_bits_leq32(16) {
        Ok(v) => v as u16,
        Err(e) => return Err(e),
    };
    let entries = match bs.read_bits_leq32(24) {
        Ok(v) => v,
        Err(e) => return Err(e),
    };
    let lengths = match read_entry_lengths(bs, entries) {
        Ok(l) => l,
        Err(e) => return Err(e),
    };
    if !check_prefix_code(&lengths) {
        return Err(VorbisError::InvalidCodebook);
    }
    let codewords = match assign_codewords(&lengths) {
        Ok(c) => c,
        Err(e) => return Err(e),
    };
    proof {
        vstd::arithmetic::power2::lemma2_to64();
    }
    let ghost q = bs.pos() as int;
    let lookup_type = match bs.read_bits_leq32(4) {
        Ok(v) => v as u8,
        Err(e) => return Err(e),
    };
    if lookup_type == 0 {
        return Ok(Codebook {
            dimensions,
            entries,
            lengths,
            codewords,
            lookup_type,
            min_value: 0,
            delta_value: 0,
            value_bits: 0,
            sequence_p: false,
            multiplicands: Vec::new(),
        });
    }
    if lookup_type > 2 {
        return Err(VorbisError::InvalidCodebook);
    }
    let min_value = match bs.read_bits_leq32(32) {
        Ok(v) => v,
        Err(e) => return Err(e),
    };
    let delta_value = match bs.read_bits_leq32(32) {
        Ok(v) => v,
        Err(e) => return Err(e),
    };
    let value_bits = match bs.read_bits_leq32(4) {
        Ok(v) => v as u8 + 1,
        Err(e) => return Err(e),
    };
    let sequence_p = match bs.read_bit() {
        Ok(b) => b,
        Err(e) => return Err(e),
    };
    let count: u64 = if lookup_type == 1 {
        if dimensions == 0 {
            return Err(VorbisError::InvalidCodebook);
        }
        lookup1_values(entries, dimensions) as u64
    } else {
        proof {
            assert((entries as u64) * (dimensions as u64) <= 0x100_0000 * 0x1_0000) by (nonlinear_arith)
                requires entries < 0x100_0000, dimensions < 0x1_0000;
        }
        entries as u64 * dimensions as u64
    };
    let ghost vstart = bs.pos() as int;
    let ghost spec_fields = codebook_result(data, p);
    proof {
        assert(vstart == q + 73);
        assert(count == value_count(lookup_type as nat, entries as nat, dimensions as nat));
        assert(lookup_result(data, q, dimensions as nat, entries as nat, lengths@) == codebook_result(data, p));
    }
    let mut multiplicands: Vec<u32> = Vec::new();
    let mut i: u64 = 0;
    while i < count
        invariant
            bs.wf(),
            bs.data() == old(bs).data(),
            i <= count,
            multiplicands@.len() == i,
            1 <= value_bits <= 16,
            old(bs).remaining() >= 24,
            bits_value(old(bs).data(), old(bs).pos() as int, 24) == CODEBOOK_SYNC,
            data == old(bs).data(),
            p == old(bs).pos(),
            bs.pos() == vstart + value_bits * i,
            multiplicands@ == Seq::new(i as nat, |k: int| bits_value(data, vstart + value_bits * k, value_bits as nat) as u32),
            lookup_result(data, q, dimensions as nat, entries as nat, lengths@) == codebook_result(data, p),
            vstart == q + 73,
            value_bits == bits_value(data, q + 68, 4) + 1,
            count == value_count(bits_value(data, q, 4), entries as nat, dimensions as nat),
            1 <= bits_value(data, q, 4) <= 2,
            q + 73 <= 8 * data.len(),
            !(bits_value(data, q, 4) == 1 && dimensions == 0),
            dimensions == bits_value(data, p + 24, 16),
            entries == bits_value(data, p + 40, 24),
        decreases count - i,
    {
        proof {
            assert(vstart + value_bits * (i + 1) == bs.pos() + value_bits) by (nonlinear_arith)
                requires bs.pos() == vstart + value_bits * i;
            assert(value_bits * (i + 1) <= value_bits * count) by (nonlinear_arith)
                requires i < count, value_bits >= 1;
        }
        let v = match bs.read_bits_leq32(value_bits as u32) {
            Ok(v) => v,
            Err(e) => {
                proof {
                    let vb = bits_value(data, q + 68, 4) + 1;
                    let cnt = value_count(bits_value(data, q, 4), entries as nat, dimensions as nat);
                    assert(vb * cnt == value_bits * count);
                    assert(q + 73 + vb * cnt > 8 * data.len());
                    assert(lookup_result(data, q, dimensions as nat, entries as nat, lengths@) == Err::<CodebookFields, VorbisError>(
                        VorbisError::IoShort,
                    ));
                }
                return Err(e);
            },
        };
        multiplicands.push(v);
        i = i + 1;
        proof {
            assert(multiplicands@ =~= Seq::new(i as nat, |k: int| bits_value(data, vstart + value_bits * k, value_bits as nat) as u32));
        }
    }
    Ok(Codebook {
        dimensions,
        entries,
        lengths,
        codewords,
        lookup_type,
        min_value,
        delta_value,
        value_bits,
        sequence_p,
        multiplicands,
    })
}

/// Reads the codebook count and then each codebook.
pub fn read_codebooks(bs: &mut BitReader) -> (r: Result<Vec<Codebook>, VorbisError>)
    requires
        old(bs).wf(),
    ensures
        final(bs).wf(),
        final(bs).data() == old(bs).data(),
        old(bs).remaining() < 8 ==> r == Err::<Vec<Codebook>, VorbisError>(VorbisError::IoShort),
        r is Ok ==> {
            let v = r->Ok_0@;
            &&& v.len() == bits_value(old(bs).data(), old(bs).pos() as int, 8) + 1
            &&& 1 <= v.len() <= 256
            &&& forall|i: int| 0 <= i < v.len() ==> (#[trigger] v[i]).wf() && is_prefix_code(v[i].lengths@)
        },
        r is Err ==> r->Err_0 == VorbisError::IoShort || r->Err_0 == VorbisError::InvalidCodebook,
        old(bs).remaining() >= 8 ==> ({
            let spec = codebooks_read(
                old(bs).data(),
                (old(bs).pos() + 8) as int,
                bits_value(old(bs).data(), old(bs).pos() as int, 8) + 1,
                Seq::empty(),
            );
            &&& (r is Ok <==> spec is Ok)
            &&& r is Err ==> r->Err_0 == spec->Err_0
            &&& r is Ok ==> r->Ok_0@.map_values(|b: Codebook| fields_of(b)) == spec->Ok_0.0 && final(bs).pos() == spec->Ok_0.1
        }),
{
    proof {
        vstd::arithmetic::power2::lemma2_to64();
    }
    let count = match bs.read_bits_leq32(8) {
        Ok(v) => v + 1,
        Err(e) => return Err(e),
    };
    let mut books: Vec<Codebook> = Vec::new();
    proof {
        assert(books@.map_values(|b: Codebook| fields_of(b)) =~= Seq::<CodebookFields>::empty());
    }
    let mut i: u32 = 0;
    while i < count
        invariant
            bs.wf(),
            bs.data() == old(bs).data(),
            i <= count,
            count == bits_value(old(bs).data(), old(bs).pos() as int, 8) + 1,
            count <= 256,
            old(bs).remaining() >= 8,
            books@.len() == i,
            forall|j: int| 0 <= j < books@.len() ==> (#[trigger] books@[j]).wf() && is_prefix_code(books@[j].lengths@),
            codebooks_read(old(bs).data(), (old(bs).pos() + 8) as int, count as nat, Seq::empty()) == codebooks_read(
                old(bs).data(),
                bs.pos() as int,
                (count - i) as nat,
                books@.map_values(|b: Codebook| fields_of(b)),
            ),
        decreases count - i,
    {
        let b = match read_codebook(bs) {
            Ok(b) => b,
            Err(e) => return Err(e),
        };
        let ghost before = books@;
        books.push(b);
        i = i + 1;
        proof {
            assert(books@.map_values(|b: Codebook| fields_of(b)) =~= before.map_values(|b: Codebook| fields_of(b)).push(fields_of(b)));
        }
    }
    Ok(books)
}

} // verus!
