use vstd::prelude::*;
use crate::bits::{BitReader, bit_at, bits_value};
use crate::error::VorbisError;
use crate::codebook::Codebook;
use crate::floor::book_ok;

verus! {

/// Configuration of a residue of type 0, 1 or 2.
#[derive(Clone, Debug)]
pub struct Residue {
    pub residue_type: u16,
    pub begin: u32,
    pub end: u32,
    pub partition_size: u32,
    pub classifications: u8,
    pub classbook: u8,
    /// For each classification, the book of each of the eight passes.
    pub cascade_books: Vec<Vec<Option<u8>>>,
}

impl Residue {
    pub open spec fn wf(&self, n_books: nat) -> bool {
        &&& self.residue_type <= 2
        &&& self.partition_size >= 1
        &&& 1 <= self.classifications <= 64
        &&& self.classbook < n_books
        &&& self.cascade_books@.len() == self.classifications
        &&& forall|c: int| 0 <= c < self.cascade_books@.len() ==> (#[trigger] self.cascade_books@[c])@.len() == 8
        &&& forall|c: int, p: int| 0 <= c < self.cascade_books@.len() && 0 <= p < 8
            ==> book_ok(#[trigger] self.cascade_books@[c]@[p], n_books)
    }
}

/// The cascade bytes of `n` more classifications from bit `pos`: three low
/// bits, a flag, and five high bits where the flag is set.
pub open spec fn cascades_read(data: Seq<u8>, pos: int, n: nat, acc: Seq<u8>) -> Result<(Seq<u8>, int), VorbisError>
    decreases n,
{
    if n == 0 {
        Ok((acc, pos))
    } else if pos + 4 > 8 * data.len() {
        Err(VorbisError::IoShort)
    } else if bit_at(data, pos + 3) {
        if pos + 9 > 8 * data.len() {
            Err(VorbisError::IoShort)
        } else {
            cascades_read(data, pos + 9, (n - 1) as nat, acc.push((bits_value(data, pos + 4, 5) * 8 + bits_value(data, pos, 3)) as u8))
        }
    } else {
        cascades_read(data, pos + 4, (n - 1) as nat, acc.push(bits_value(data, pos, 3) as u8))
    }
}

/// The books of the cascade slots `k..total` (slot `k` is pass `k % 8` of
/// classification `k / 8`) from bit `pos`: one byte for each slot whose
/// cascade bit is set, none for the others.
pub open spec fn books_read(data: Seq<u8>, pos: int, cascades: Seq<u8>, k: nat, total: nat, acc: Seq<Option<u8>>, max_codebook: nat) -> Result<
    (Seq<Option<u8>>, int),
    VorbisError,
>
    decreases total - k,
{
    if k >= total {
        Ok((acc, pos))
    } else if (cascades[(k / 8) as int] >> ((k % 8) as u8)) & 1u8 == 1u8 {
        if pos + 8 > 8 * data.len() {
            Err(VorbisError::IoShort)
        } else if bits_value(data, pos, 8) >= max_codebook {
            Err(VorbisError::InvalidResidue)
        } else {
            books_read(data, pos + 8, cascades, k + 1, total, acc.push(Some(bits_value(data, pos, 8) as u8)), max_codebook)
        }
    } else {
        books_read(data, pos, cascades, k + 1, total, acc.push(None), max_codebook)
    }
}

/// What a residue configuration body at bit `p` holds: its cascade bytes and
/// its books, slot by slot.
pub open spec fn residue_body_result(data: Seq<u8>, p: int, max_codebook: nat) -> Result<(Seq<u8>, Seq<Option<u8>>, int), VorbisError> {
    let n = bits_value(data, p + 72, 6) + 1;
    if p + 86 > 8 * data.len() {
        Err(VorbisError::IoShort)
    } else if bits_value(data, p + 78, 8) >= max_codebook {
        Err(VorbisError::InvalidResidue)
    } else {
        match cascades_read(data, p + 86, n, Seq::empty()) {
            Err(e) => Err(e),
            Ok((cs, q)) => match books_read(data, q, cs, 0, 8 * n, Seq::empty(), max_codebook) {
                Err(e) => Err(e),
                Ok((bk, end)) => Ok((cs, bk, end)),
            },
        }
    }
}

/// A residue read at bit `p` agrees with `residue_body_result`.
pub open spec fn residue_body_outcome(data: Seq<u8>, p: int, residue_type: u16, max_codebook: nat, r: Result<Residue, VorbisError>) -> bool {
    let spec = residue_body_result(data, p, max_codebook);
    &&& (r is Ok <==> spec is Ok)
    &&& r is Err ==> r->Err_0 == spec->Err_0
    &&& r is Ok ==> {
        let res = r->Ok_0;
        let bk = spec->Ok_0.1;
        &&& res.residue_type == residue_type
        &&& res.begin == bits_value(data, p, 24)
        &&& res.end == bits_value(data, p + 24, 24)
        &&& res.partition_size == bits_value(data, p + 48, 24) + 1
        &&& res.classifications == bits_value(data, p + 72, 6) + 1
        &&& res.classbook == bits_value(data, p + 78, 8)
        &&& bk.len() == 8 * res.cascade_books@.len()
        &&& forall|c: int, j: int| 0 <= c < res.cascade_books@.len() && 0 <= j < 8
            ==> #[trigger] res.cascade_books@[c]@[j] == bk[8 * c + j]
    }
}

/// Reads the body of a residue configuration once its type is known.
fn read_residue_body(bs: &mut BitReader, residue_type: u16, max_codebook: u16) -> (r: Result<Residue, VorbisError>)
    requires
        old(bs).wf(),
        residue_type <= 2,
    ensures
        final(bs).wf(),
        final(bs).data() == old(bs).data(),
        r is Ok ==> r->Ok_0.wf(max_codebook as nat) && r->Ok_0.residue_type == residue_type,
        r is Err ==> r->Err_0 == VorbisError::IoShort || r->Err_0 == VorbisError::InvalidResidue,
        residue_body_outcome(old(bs).data(), old(bs).pos() as int, residue_type, max_codebook as nat, r),
        r is Ok ==> final(bs).pos() == residue_body_result(old(bs).data(), old(bs).pos() as int, max_codebook as nat)->Ok_0.2,
{
    let ghost data = old(bs).data();
    let ghost p = old(bs).pos() as int;
    proof {
        vstd::arithmetic::power2::lemma2_to64();
    }
    if bs.bits_left() < 86 {
        return Err(VorbisError::IoShort);
    }
    let begin = match bs.read_bits_leq32(24) {
        Ok(v) => v,
        Err(e) => return Err(e),
    };
    let end = match bs.read_bits_leq32(24) {
        Ok(v) => v,
        Err(e) => return Err(e),
    };
    let partition_size = match bs.read_bits_leq32(24) {
        Ok(v) => v + 1,
        Err(e) => return Err(e),
    };
    let classifications = match bs.read_bits_leq32(6) {
        Ok(v) => v as u8 + 1,
        Err(e) => return Err(e),
    };
    let classbook = match bs.read_bits_leq32(8) {
        Ok(v) => v as u8,
        Err(e) => return Err(e),
    };
    if classbook as u16 >= max_codebook {
        return Err(VorbisError::InvalidResidue);
    }
    let ghost n = classifications as nat;
    assert(n == bits_value(data, p + 72, 6) + 1);
    let mut cascades: Vec<u8> = Vec::new();
    let mut c: u8 = 0;
    while c < classifications
        invariant
            bs.wf(),
            bs.data() == data,
            data == old(bs).data(),
            c <= classifications <= 64,
            n == classifications,
            p + 86 <= 8 * data.len(),
            p == old(bs).pos(),
            bits_value(data, p + 78, 8) < max_codebook,
            n == bits_value(data, p + 72, 6) + 1,
            cascades@.len() == c,
            cascades_read(data, p + 86, n, Seq::empty()) == cascades_read(data, bs.pos() as int, (n - c) as nat, cascades@),
        decreases classifications - c,
    {
        proof {
            vstd::arithmetic::power2::lemma2_to64();
        }
        let low = match bs.read_bits_leq32(3) {
            Ok(v) => v as u8,
            Err(e) => return Err(e),
        };
        let has_high = match bs.read_bit() {
            Ok(b) => b,
            Err(e) => return Err(e),
        };
        let high: u8 = if has_high {
            match bs.read_bits_leq32(5) {
                Ok(v) => v as u8,
                Err(e) => return Err(e),
            }
        } else {
            0
        };
        cascades.push(high * 8 + low);
        c = c + 1;
    }
    let ghost q = bs.pos() as int;
    let total: usize = 8 * cascades.len();
    let mut flat: Vec<Option<u8>> = Vec::new();
    let mut k: usize = 0;
    while k < total
        invariant
            bs.wf(),
            bs.data() == data,
            data == old(bs).data(),
            total == 8 * cascades@.len(),
            cascades@.len() == n,
            p + 86 <= 8 * data.len(),
            p == old(bs).pos(),
            bits_value(data, p + 78, 8) < max_codebook,
            n == bits_value(data, p + 72, 6) + 1,
            k <= total,
            flat@.len() == k,
            cascades_read(data, p + 86, n, Seq::empty()) == Ok::<(Seq<u8>, int), VorbisError>((cascades@, q)),
            residue_body_result(data, p, max_codebook as nat) == match books_read(data, q, cascades@, 0, total as nat, Seq::empty(), max_codebook as nat) {
                Err(e) => Err(e),
                Ok((bk, end)) => Ok::<(Seq<u8>, Seq<Option<u8>>, int), VorbisError>((cascades@, bk, end)),
            },
            books_read(data, q, cascades@, 0, total as nat, Seq::empty(), max_codebook as nat) == books_read(
                data,
                bs.pos() as int,
                cascades@,
                k as nat,
                total as nat,
                flat@,
                max_codebook as nat,
            ),
            forall|m: int| 0 <= m < flat@.len() ==> book_ok(#[trigger] flat@[m], max_codebook as nat),
        decreases total - k,
    {
        proof {
            vstd::arithmetic::power2::lemma2_to64();
        }
        let cascade = cascades[k / 8];
        let shift = (k % 8) as u8;
        if (cascade >> shift) & 1u8 == 1u8 {
            let b = match bs.read_bits_leq32(8) {
                Ok(v) => v as u8,
                Err(e) => return Err(e),
            };
            if b as u16 >= max_codebook {
                return Err(VorbisError::InvalidResidue);
            }
            flat.push(Some(b));
        } else {
            flat.push(None);
        }
        k = k + 1;
    }
    let mut cascade_books: Vec<Vec<Option<u8>>> = Vec::new();
    let mut c: usize = 0;
    while c < cascades.len()
        invariant
            c <= cascades@.len(),
            cascades@.len() <= 64,
            flat@.len() == 8 * cascades@.len(),
            cascade_books@.len() == c,
            forall|m: int| 0 <= m < flat@.len() ==> book_ok(#[trigger] flat@[m], max_codebook as nat),
            forall|a: int| 0 <= a < c ==> (#[trigger] cascade_books@[a])@ == flat@.subrange(8 * a, 8 * a + 8),
        decreases cascades@.len() - c,
    {
        let mut row: Vec<Option<u8>> = Vec::new();
        let mut j: usize = 0;
        while j < 8
            invariant
                j <= 8,
                c < cascades@.len(),
                flat@.len() == 8 * cascades@.len(),
                cascades@.len() <= 64,
                row@ == flat@.subrange(8 * c as int, 8 * c + j),
            decreases 8 - j,
        {
            row.push(flat[8 * c + j]);
            j = j + 1;
            proof {
                assert(row@ =~= flat@.subrange(8 * c as int, 8 * c + j));
            }
        }
        cascade_books.push(row);
        c = c + 1;
    }
    let r = Residue { residue_type, begin, end, partition_size, classifications, classbook, cascade_books };
    proof {
        assert forall|a: int, j: int| 0 <= a < r.cascade_books@.len() && 0 <= j < 8 implies #[trigger] r.cascade_books@[a]@[j]
            == flat@[8 * a + j] by {
            assert(r.cascade_books@[a]@ == flat@.subrange(8 * a, 8 * a + 8));
        }
        assert forall|a: int, j: int| 0 <= a < r.cascade_books@.len() && 0 <= j < 8 implies book_ok(
            #[trigger] r.cascade_books@[a]@[j],
            max_codebook as nat,
        ) by {
            assert(r.cascade_books@[a]@ == flat@.subrange(8 * a, 8 * a + 8));
            assert(r.cascade_books@[a]@[j] == flat@[8 * a + j]);
        }
    }
    Ok(r)
}

/// Where a residue configuration at bit `p` (its type field) ends, or the
/// error reading it gives.
pub open spec fn residue_item(data: Seq<u8>, p: int, max_codebook: nat) -> Result<int, VorbisError> {
    if p + 16 > 8 * data.len() {
        Err(VorbisError::IoShort)
    } else if bits_value(data, p, 16) > 2 {
        Err(VorbisError::InvalidResidue)
    } else {
        match residue_body_result(data, p + 16, max_codebook) {
            Err(e) => Err(e),
            Ok((_, _, end)) => Ok(end),
        }
    }
}

/// The start of each of `n` more residue configurations from bit `pos`,
/// appended to `acc`.
pub open spec fn residues_read(data: Seq<u8>, pos: int, n: nat, max_codebook: nat, acc: Seq<int>) -> Result<(Seq<int>, int), VorbisError>
    decreases n,
{
    if n == 0 {
        Ok((acc, pos))
    } else {
        match residue_item(data, pos, max_codebook) {
            Err(e) => Err(e),
            Ok(end) => residues_read(data, end, (n - 1) as nat, max_codebook, acc.push(pos)),
        }
    }
}

/// Reads one residue configuration of type 0, 1 or 2.
pub fn read_residue(bs: &mut BitReader, max_codebook: u16) -> (r: Result<Residue, VorbisError>)
    requires
        old(bs).wf(),
    ensures
        final(bs).wf(),
        final(bs).data() == old(bs).data(),
        old(bs).remaining() < 16 ==> r == Err::<Residue, VorbisError>(VorbisError::IoShort),
        old(bs).remaining() >= 16 && bits_value(old(bs).data(), old(bs).pos() as int, 16) > 2
            ==> r == Err::<Residue, VorbisError>(VorbisError::InvalidResidue),
        r is Ok ==> r->Ok_0.wf(max_codebook as nat)
            && r->Ok_0.residue_type == bits_value(old(bs).data(), old(bs).pos() as int, 16),
        old(bs).remaining() >= 16 && bits_value(old(bs).data(), old(bs).pos() as int, 16) <= 2 ==> residue_body_outcome(
            old(bs).data(),
            (old(bs).pos() + 16) as int,
            bits_value(old(bs).data(), old(bs).pos() as int, 16) as u16,
            max_codebook as nat,
            r,
        ),
        ({
            let it = residue_item(old(bs).data(), old(bs).pos() as int, max_codebook as nat);
            &&& (r is Ok <==> it is Ok)
            &&& r is Err ==> r->Err_0 == it->Err_0
            &&& r is Ok ==> final(bs).pos() == it->Ok_0
        }),
        r is Err ==> r->Err_0 == VorbisError::IoShort || r->Err_0 == VorbisError::InvalidResidue,
{
    let residue_type = match bs.read_bits_leq32(16) {
        Ok(v) => v,
        Err(e) => return Err(e),
    };
    proof {
        vstd::arithmetic::power2::lemma2_to64();
    }
    if residue_type > 2 {
        return Err(VorbisError::InvalidResidue);
    }
    read_residue_body(bs, residue_type as u16, max_codebook)
}

proof fn lemma_residues_read_done(data: Seq<u8>, pos: int, max_codebook: nat, acc: Seq<int>)
    ensures
        residues_read(data, pos, 0, max_codebook, acc) == Ok::<(Seq<int>, int), VorbisError>((acc, pos)),
{
}

/// Reads the residue count and then each residue.
pub fn read_residues(bs: &mut BitReader, max_codebook: u16) -> (r: Result<Vec<Residue>, VorbisError>)
    requires
        old(bs).wf(),
    ensures
        final(bs).wf(),
        final(bs).data() == old(bs).data(),
        old(bs).remaining() < 6 ==> r == Err::<Vec<Residue>, VorbisError>(VorbisError::IoShort),
        r is Ok ==> {
            let v = r->Ok_0@;
            &&& v.len() == bits_value(old(bs).data(), old(bs).pos() as int, 6) + 1
            &&& 1 <= v.len() <= 64
            &&& forall|i: int| 0 <= i < v.len() ==> (#[trigger] v[i]).wf(max_codebook as nat)
        },
        r is Err ==> r->Err_0 == VorbisError::IoShort || r->Err_0 == VorbisError::InvalidResidue,
        old(bs).remaining() >= 6 ==> ({
            let data = old(bs).data();
            let spec = residues_read(data, (old(bs).pos() + 6) as int, bits_value(data, old(bs).pos() as int, 6) + 1, max_codebook as nat, Seq::empty());
            &&& (r is Ok <==> spec is Ok)
            &&& r is Err ==> r->Err_0 == spec->Err_0
            &&& r is Ok ==> final(bs).pos() == spec->Ok_0.1 && r->Ok_0@.len() == spec->Ok_0.0.len() && forall|j: int| 0 <= j < r->Ok_0@.len() ==> residue_body_outcome(
                data,
                spec->Ok_0.0[j] + 16,
                bits_value(data, spec->Ok_0.0[j], 16) as u16,
                max_codebook as nat,
                Ok::<Residue, VorbisError>(#[trigger] r->Ok_0@[j]),
            )
        }),
{
    proof {
        vstd::arithmetic::power2::lemma2_to64();
    }
    let count = match bs.read_bits_leq32(6) {
        Ok(v) => v + 1,
        Err(e) => return Err(e),
    };
    let mut residues: Vec<Residue> = Vec::new();
    let ghost mut starts: Seq<int> = Seq::empty();
    let mut i: u32 = 0;
    while i < count
        invariant
            bs.wf(),
            bs.data() == old(bs).data(),
            i <= count,
            count == bits_value(old(bs).data(), old(bs).pos() as int, 6) + 1,
            count <= 64,
            old(bs).remaining() >= 6,
            residues@.len() == i,
            forall|j: int| 0 <= j < residues@.len() ==> (#[trigger] residues@[j]).wf(max_codebook as nat),
            starts.len() == i,
            residues_read(old(bs).data(), (old(bs).pos() + 6) as int, count as nat, max_codebook as nat, Seq::empty()) == residues_read(
                old(bs).data(),
                bs.pos() as int,
                (count - i) as nat,
                max_codebook as nat,
                starts,
            ),
            forall|j: int| 0 <= j < i ==> residue_body_outcome(
                old(bs).data(),
                starts[j] + 16,
                bits_value(old(bs).data(), starts[j], 16) as u16,
                max_codebook as nat,
                Ok::<Residue, VorbisError>(#[trigger] residues@[j]),
            ),
        decreases count - i,
    {
        let ghost here = bs.pos() as int;
        let r = match read_residue(bs, max_codebook) {
            Ok(r) => r,
            Err(e) => return Err(e),
        };
        residues.push(r);
        proof {
            starts = starts.push(here);
        }
        i = i + 1;
    }
    proof {
        lemma_residues_read_done(old(bs).data(), bs.pos() as int, max_codebook as nat, starts);
    }
    Ok(residues)
}

} // verus!

verus! {

/// The entries read for one partition of one channel in one pass.
#[derive(Clone, Debug)]
pub struct PartitionRead {
    /// Index of the channel within the residue's channel set (always 0 for
    /// type 2, whose channels are read as one interleaved vector).
    pub channel: usize,
    pub pass: u8,
    pub partition: usize,
    pub book: u8,
    /// One codebook entry per vector of the book's dimension.
    pub entries: Vec<u32>,
}

/// Reads the vector entries of one partition: `partition_size / dims`
/// codewords of `book`.
fn read_partition(bs: &mut BitReader, book: &Codebook, partition_size: u32) -> (r: Result<Vec<u32>, VorbisError>)
    requires
        old(bs).wf(),
        book.wf(),
        book.dimensions >= 1,
    ensures
        final(bs).wf(),
        final(bs).data() == old(bs).data(),
        r is Ok ==> r->Ok_0@.len() == (partition_size as nat) / (book.dimensions as nat),
        r is Err ==> r->Err_0 == VorbisError::IoShort || r->Err_0 == VorbisError::InvalidCode,
{
    let count = partition_size / (book.dimensions as u32);
    let mut entries: Vec<u32> = Vec::new();
    let mut i: u32 = 0;
    while i < count
        invariant
            bs.wf(),
            bs.data() == old(bs).data(),
            book.wf(),
            i <= count,
            entries@.len() == i,
        decreases count - i,
    {
        let e = match book.read_scalar(bs) {
            Ok(v) => v,
            Err(e) => return Err(e),
        };
        entries.push(e);
        i = i + 1;
    }
    Ok(entries)
}

/// Every codebook is well formed.
pub open spec fn all_books_wf(books: Seq<Codebook>) -> bool {
    forall|i: int| 0 <= i < books.len() ==> (#[trigger] books[i]).wf()
}

/// A partition read names a channel of the set, a pass, a partition to
/// read, and a book of the residue's cascade.
pub open spec fn partition_read_wf(r: Residue, p: PartitionRead, n_channels: nat, n_partitions: nat) -> bool {
    &&& p.channel < n_channels
    &&& p.pass < 8
    &&& p.partition < n_partitions
    &&& exists|c: int| 0 <= c < r.cascade_books@.len() && (#[trigger] r.cascade_books@[c])@[p.pass as int] == Some(p.book)
}

/// Number of partitions of a residue over vectors of `size` values.
pub open spec fn partitions_to_read(r: Residue, size: nat) -> nat {
    let lo = if r.begin < size { r.begin as nat } else { size };
    let hi = if r.end < size { r.end as nat } else { size };
    if hi > lo { ((hi - lo) as nat / r.partition_size as nat) as nat } else { 0 }
}

impl Residue {
    /// Reads this residue's classifications and vector entries for the
    /// channels of one submap. `do_not_decode` holds, for each channel of the
    /// set, whether it is left undecoded; `n2` is half the block size. Type 2
    /// reads all channels as one vector of `n2` times their number values.
    pub fn read_entries(&self, bs: &mut BitReader, books: &Vec<Codebook>, n2: usize, do_not_decode: &Vec<bool>) -> (r: Result<
        Vec<PartitionRead>,
        VorbisError,
    >)
        requires
            old(bs).wf(),
            self.wf(books@.len()),
            all_books_wf(books@),
            n2 <= 4096,
            do_not_decode@.len() <= 256,
        ensures
            final(bs).wf(),
            final(bs).data() == old(bs).data(),
            r is Ok ==> {
                let n_ch: nat = if self.residue_type == 2 { 1 } else { do_not_decode@.len() };
                let size: nat = if self.residue_type == 2 { (n2 * do_not_decode@.len()) as nat } else { n2 as nat };
                forall|i: int| 0 <= i < r->Ok_0@.len() ==> partition_read_wf(*self, #[trigger] r->Ok_0@[i], n_ch, partitions_to_read(*self, size))
            },
            (forall|c: int| 0 <= c < do_not_decode@.len() ==> #[trigger] do_not_decode@[c]) ==> r is Ok && r->Ok_0@.len() == 0,
            r is Ok && self.residue_type != 2 ==> forall|i: int|
                0 <= i < r->Ok_0@.len() ==> !do_not_decode@[#[trigger] r->Ok_0@[i].channel as int],
            r is Err ==> r->Err_0 == VorbisError::IoShort || r->Err_0 == VorbisError::InvalidCode
                || r->Err_0 == VorbisError::InvalidResidue,
    {
        let mut all_skipped = true;
        let mut c: usize = 0;
        while c < do_not_decode.len()
            invariant
                c <= do_not_decode@.len(),
                all_skipped == (forall|k: int| 0 <= k < c ==> #[trigger] do_not_decode@[k]),
            decreases do_not_decode@.len() - c,
        {
            if !do_not_decode[c] {
                all_skipped = false;
            }
            c = c + 1;
        }
        if all_skipped {
            return Ok(Vec::new());
        }
        self.read_entries_used(bs, books, n2, do_not_decode)
    }

    fn read_entries_used(&self, bs: &mut BitReader, books: &Vec<Codebook>, n2: usize, do_not_decode: &Vec<bool>) -> (r: Result<
        Vec<PartitionRead>,
        VorbisError,
    >)
        requires
            old(bs).wf(),
            self.wf(books@.len()),
            all_books_wf(books@),
            n2 <= 4096,
            do_not_decode@.len() <= 256,
            exists|c: int| 0 <= c < do_not_decode@.len() && !do_not_decode@[c],
        ensures
            final(bs).wf(),
            final(bs).data() == old(bs).data(),
            r is Ok ==> {
                let n_ch: nat = if self.residue_type == 2 { 1 } else { do_not_decode@.len() };
                let size: nat = if self.residue_type == 2 { (n2 * do_not_decode@.len()) as nat } else { n2 as nat };
                forall|i: int| 0 <= i < r->Ok_0@.len() ==> partition_read_wf(*self, #[trigger] r->Ok_0@[i], n_ch, partitions_to_read(*self, size))
            },
            r is Ok && self.residue_type != 2 ==> forall|i: int|
                0 <= i < r->Ok_0@.len() ==> !do_not_decode@[#[trigger] r->Ok_0@[i].channel as int],
            r is Err ==> r->Err_0 == VorbisError::IoShort || r->Err_0 == VorbisError::InvalidCode
                || r->Err_0 == VorbisError::InvalidResidue,
    {
        let mut skip: Vec<bool> = Vec::new();
        proof {
            assert(n2 * do_not_decode@.len() <= 4096 * 256) by (nonlinear_arith)
                requires n2 <= 4096, do_not_decode@.len() <= 256;
        }
        let size: usize = if self.residue_type == 2 { n2 * do_not_decode.len() } else { n2 };
        if self.residue_type == 2 {
            skip.push(false);
        } else {
            let mut c: usize = 0;
            while c < do_not_decode.len()
                invariant
                    c <= do_not_decode@.len(),
                    skip@.len() == c,
                    skip@ == do_not_decode@.subrange(0, c as int),
                decreases do_not_decode@.len() - c,
            {
                skip.push(do_not_decode[c]);
                c = c + 1;
                proof {
                    assert(skip@ =~= do_not_decode@.subrange(0, c as int));
                }
            }
            assert(skip@ =~= do_not_decode@);
        }
        let n_ch = skip.len();
        let lo: usize = if (self.begin as usize) < size { self.begin as usize } else { size };
        let hi: usize = if (self.end as usize) < size { self.end as usize } else { size };
        proof {
            if hi > lo {
                assert((hi - lo) / (self.partition_size as int) <= hi - lo) by (nonlinear_arith)
                    requires self.partition_size >= 1, hi > lo;
            }
        }
        let n_parts: usize = if hi > lo { (hi - lo) / (self.partition_size as usize) } else { 0 };
        assert(n_parts <= 4096 * 256);
        let mut reads: Vec<PartitionRead> = Vec::new();
        if n_parts == 0 {
            return Ok(reads);
        }
        let classbook = &books[self.classbook as usize];
        let per_word = classbook.dimensions as usize;
        if per_word == 0 {
            return Err(VorbisError::InvalidResidue);
        }
        let n_classes = self.classifications as u32;
        // Classification of each channel's partitions, row by channel; a
        // codeword may carry classes past the last partition.
        let stride = n_parts + per_word;
        proof {
            assert(n_ch <= 256);
            assert(n_ch * stride <= 256 * (4096 * 256 + 0x1_0000)) by (nonlinear_arith)
                requires n_ch <= 256, stride <= 4096 * 256 + 0x1_0000;
        }
        let total = n_ch * stride;
        let mut classes: Vec<u32> = Vec::new();
        let mut k: usize = 0;
        while k < total
            invariant
                k <= total,
                classes@.len() == k,
                forall|m: int| 0 <= m < k ==> #[trigger] classes@[m] < n_classes,
                n_classes >= 1,
            decreases total - k,
        {
            classes.push(0);
            k = k + 1;
        }
        let mut pass: u8 = 0;
        while pass < 8
            invariant
                bs.wf(),
                bs.data() == old(bs).data(),
                self.wf(books@.len()),
                all_books_wf(books@),
                n_ch == skip@.len(),
                classes@.len() == total,
                total == n_ch * stride,
                classbook.wf(),
                stride == n_parts + per_word,
                n_classes == self.classifications,
                per_word >= 1,
                forall|m: int| 0 <= m < classes@.len() ==> #[trigger] classes@[m] < n_classes,
                forall|i: int| 0 <= i < reads@.len() ==> partition_read_wf(*self, #[trigger] reads@[i], n_ch as nat, n_parts as nat),
                self.residue_type != 2 ==> skip@ == do_not_decode@,
                forall|i: int| 0 <= i < reads@.len() ==> !skip@[#[trigger] reads@[i].channel as int],
            decreases 8 - pass,
        {
            let mut part: usize = 0;
            while part < n_parts
                invariant
                    bs.wf(),
                    bs.data() == old(bs).data(),
                    self.wf(books@.len()),
                    all_books_wf(books@),
                    pass < 8,
                    part <= n_parts,
                    per_word >= 1,
                    n_ch == skip@.len(),
                    classes@.len() == total,
                    total == n_ch * stride,
                    classbook.wf(),
                    stride == n_parts + per_word,
                    n_classes == self.classifications,
                    forall|m: int| 0 <= m < classes@.len() ==> #[trigger] classes@[m] < n_classes,
                    forall|i: int| 0 <= i < reads@.len() ==> partition_read_wf(*self, #[trigger] reads@[i], n_ch as nat, n_parts as nat),
                    self.residue_type != 2 ==> skip@ == do_not_decode@,
                    forall|i: int| 0 <= i < reads@.len() ==> !skip@[#[trigger] reads@[i].channel as int],
                decreases n_parts - part,
            {
                if pass == 0 {
                    let mut j: usize = 0;
                    while j < n_ch
                        invariant
                            bs.wf(),
                            bs.data() == old(bs).data(),
                            self.wf(books@.len()),
                            all_books_wf(books@),
                            j <= n_ch,
                            part < n_parts,
                            n_ch == skip@.len(),
                            classes@.len() == total,
                            total == n_ch * stride,
                            classbook.wf(),
                            stride == n_parts + per_word,
                            n_classes == self.classifications,
                            forall|m: int| 0 <= m < classes@.len() ==> #[trigger] classes@[m] < n_classes,
                        decreases n_ch - j,
                    {
                        if !skip[j] {
                            let mut word = match classbook.read_scalar(bs) {
                                Ok(v) => v,
                                Err(e) => return Err(e),
                            };
                            let mut i: usize = per_word;
                            while i > 0
                                invariant
                                    i <= per_word,
                                    j < n_ch,
                                    part < n_parts,
                                    n_classes >= 1,
                                    classes@.len() == total,
                                    total == n_ch * stride,
                                    classbook.wf(),
                                    stride == n_parts + per_word,
                                    forall|m: int| 0 <= m < classes@.len() ==> #[trigger] classes@[m] < n_classes,
                                decreases i,
                            {
                                i = i - 1;
                                proof {
                                    assert(j * stride + part + i < n_ch * stride) by (nonlinear_arith)
                                        requires j < n_ch, part + i < stride;
                                    assert(j * stride <= j * stride + part + i);
                                }
                                classes.set(j * stride + part + i, word % n_classes);
                                word = word / n_classes;
                            }
                        }
                        j = j + 1;
                    }
                }
                let ghost part0 = part;
                let mut i: usize = 0;
                while i < per_word && part < n_parts
                    invariant
                        part == part0 + i,
                        part0 < n_parts,
                        per_word >= 1,
                        bs.wf(),
                        bs.data() == old(bs).data(),
                        self.wf(books@.len()),
                        all_books_wf(books@),
                        pass < 8,
                        part <= n_parts,
                        n_ch == skip@.len(),
                        classes@.len() == total,
                        total == n_ch * stride,
                        classbook.wf(),
                        stride == n_parts + per_word,
                        n_classes == self.classifications,
                        forall|m: int| 0 <= m < classes@.len() ==> #[trigger] classes@[m] < n_classes,
                        forall|q: int| 0 <= q < reads@.len() ==> partition_read_wf(*self, #[trigger] reads@[q], n_ch as nat, n_parts as nat),
                        self.residue_type != 2 ==> skip@ == do_not_decode@,
                        forall|q: int| 0 <= q < reads@.len() ==> !skip@[#[trigger] reads@[q].channel as int],
                    decreases n_parts - part,
                {
                    let mut j: usize = 0;
                    while j < n_ch
                        invariant
                            bs.wf(),
                            bs.data() == old(bs).data(),
                            self.wf(books@.len()),
                            all_books_wf(books@),
                            pass < 8,
                            j <= n_ch,
                            part < n_parts,
                            n_ch == skip@.len(),
                            classes@.len() == total,
                            total == n_ch * stride,
                            classbook.wf(),
                            stride == n_parts + per_word,
                            n_classes == self.classifications,
                            forall|m: int| 0 <= m < classes@.len() ==> #[trigger] classes@[m] < n_classes,
                            forall|q: int| 0 <= q < reads@.len() ==> partition_read_wf(*self, #[trigger] reads@[q], n_ch as nat, n_parts as nat),
                            self.residue_type != 2 ==> skip@ == do_not_decode@,
                            forall|q: int| 0 <= q < reads@.len() ==> !skip@[#[trigger] reads@[q].channel as int],
                        decreases n_ch - j,
                    {
                        if !skip[j] {
                            proof {
                                assert(j * stride + part < n_ch * stride) by (nonlinear_arith)
                                    requires j < n_ch, part < stride;
                                assert(j * stride <= j * stride + part);
                            }
                            let class = classes[j * stride + part] as usize;
                            match self.cascade_books[class][pass as usize] {
                                Some(b) => {
                                    let book = &books[b as usize];
                                    if book.dimensions == 0 {
                                        return Err(VorbisError::InvalidResidue);
                                    }
                                    let entries = match read_partition(bs, book, self.partition_size) {
                                        Ok(v) => v,
                                        Err(e) => return Err(e),
                                    };
                                    let pr = PartitionRead { channel: j, pass, partition: part, book: b, entries };
                                    assert(partition_read_wf(*self, pr, n_ch as nat, n_parts as nat)) by {
                                        assert(self.cascade_books@[class as int]@[pass as int] == Some(b));
                                    }
                                    reads.push(pr);
                                },
                                None => {},
                            }
                        }
                        j = j + 1;
                    }
                    part = part + 1;
                    i = i + 1;
                }
            }
            pass = pass + 1;
        }
        Ok(reads)
    }
}

} // verus!
