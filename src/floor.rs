use vstd::prelude::*;
use crate::bits::{BitReader, bit_at, bits_value, ilog, spec_ilog};
use crate::codebook::Codebook;
use crate::huffman::decode_scan;
use crate::error::VorbisError;

verus! {

/// Configuration of an LSP floor (type 0).
#[derive(Clone, Debug)]
pub struct Floor0 {
    pub order: u8,
    pub rate: u16,
    pub bark_map_size: u16,
    pub amplitude_bits: u8,
    pub amplitude_offset: u8,
    pub books: Vec<u8>,
}

/// A partition class of a piecewise floor (type 1).
#[derive(Clone, Debug)]
pub struct Floor1Class {
    pub dimensions: u8,
    pub subclass_bits: u8,
    /// Book that selects the subclass; present when `subclass_bits > 0`.
    pub masterbook: Option<u8>,
    /// One book per subclass; `None` where the offsets are zero.
    pub subclass_books: Vec<Option<u8>>,
}

/// Configuration of a piecewise linear floor (type 1).
#[derive(Clone, Debug)]
pub struct Floor1 {
    pub partition_classes: Vec<u8>,
    pub classes: Vec<Floor1Class>,
    pub multiplier: u8,
    pub range_bits: u8,
    /// X positions of the posits, in bitstream order.
    pub xs: Vec<u32>,
}

/// A floor of either type.
#[derive(Clone, Debug)]
pub enum Floor {
    Type0(Floor0),
    Type1(Floor1),
}

/// A book reference that is absent or names one of `n_books` codebooks.
pub open spec fn book_ok(b: Option<u8>, n_books: nat) -> bool {
    match b {
        None => true,
        Some(k) => k < n_books,
    }
}

/// Number of posits that partitions `0..p` carry.
pub open spec fn dims_sum(partition_classes: Seq<u8>, classes: Seq<Floor1Class>, p: int) -> nat
    decreases p,
{
    if p <= 0 {
        0
    } else {
        (dims_sum(partition_classes, classes, p - 1) + classes[partition_classes[p - 1] as int].dimensions) as nat
    }
}

/// No two elements are equal.
pub open spec fn distinct(xs: Seq<u32>) -> bool {
    forall|i: int, j: int| 0 <= i < xs.len() && 0 <= j < xs.len() && i != j ==> xs[i] != xs[j]
}

impl Floor1Class {
    pub open spec fn wf(&self, n_books: nat) -> bool {
        &&& 1 <= self.dimensions <= 8
        &&& self.subclass_bits <= 3
        &&& (self.subclass_bits == 0 <==> self.masterbook is None)
        &&& book_ok(self.masterbook, n_books)
        &&& self.subclass_books@.len() == vstd::arithmetic::power2::pow2(self.subclass_bits as nat)
        &&& forall|i: int| 0 <= i < self.subclass_books@.len() ==> book_ok(#[trigger] self.subclass_books@[i], n_books)
    }
}

/// The posits of a piecewise floor: the two ends first, then distinct X
/// values between them.
pub open spec fn posits_wf(f: Floor1) -> bool {
    &&& 1 <= f.multiplier <= 4
    &&& f.range_bits <= 15
    &&& 2 <= f.xs@.len() <= 2 + 31 * 8
    &&& distinct(f.xs@)
    &&& f.xs@[0] == 0
    &&& f.xs@[1] == vstd::arithmetic::power2::pow2(f.range_bits as nat)
    &&& forall|i: int| 0 <= i < f.xs@.len() ==> #[trigger] f.xs@[i] <= f.xs@[1]
}

impl Floor {
    pub open spec fn wf(&self, n_books: nat) -> bool {
        match self {
            Floor::Type0(f) => {
                &&& 1 <= f.books@.len() <= 16
                &&& forall|i: int| 0 <= i < f.books@.len() ==> #[trigger] f.books@[i] < n_books
            },
            Floor::Type1(f) => {
                &&& f.partition_classes@.len() <= 31
                &&& f.classes@.len() <= 16
                &&& forall|i: int| 0 <= i < f.partition_classes@.len() ==> #[trigger] f.partition_classes@[i] < f.classes@.len()
                &&& forall|i: int| 0 <= i < f.classes@.len() ==> (#[trigger] f.classes@[i]).wf(n_books)
                &&& f.xs@.len() == 2 + dims_sum(f.partition_classes@, f.classes@, f.partition_classes@.len() as int)
                &&& posits_wf(*f)
            },
        }
    }
}

/// The first fault among the book numbers `i..count` of an LSP floor whose
/// list starts at bit `start`, if any.
pub open spec fn floor0_books_scan(data: Seq<u8>, start: int, count: nat, max_codebook: nat, i: int) -> Option<VorbisError>
    decreases count - i,
{
    if i < 0 || i >= count {
        None
    } else if start + 8 * (i + 1) > 8 * data.len() {
        Some(VorbisError::IoShort)
    } else if bits_value(data, start + 8 * i, 8) >= max_codebook {
        Some(VorbisError::InvalidFloor)
    } else {
        floor0_books_scan(data, start, count, max_codebook, i + 1)
    }
}

/// What an LSP floor configuration at bit `p` holds.
pub open spec fn floor0_fields(data: Seq<u8>, p: int) -> (u8, u16, u16, u8, u8, nat) {
    (
        bits_value(data, p, 8) as u8,
        bits_value(data, p + 8, 16) as u16,
        bits_value(data, p + 24, 16) as u16,
        bits_value(data, p + 40, 6) as u8,
        bits_value(data, p + 46, 8) as u8,
        bits_value(data, p + 54, 4) + 1,
    )
}

/// What reading an LSP floor configuration at bit `p` gives, with
/// `remaining` bits left from there.
pub open spec fn floor0_outcome(data: Seq<u8>, p: int, remaining: nat, max_codebook: nat, r: Result<Floor, VorbisError>) -> bool {
    let fields = floor0_fields(data, p);
    let sc = floor0_books_scan(data, p + 58, fields.5, max_codebook, 0);
    &&& remaining < 58 ==> r == Err::<Floor, VorbisError>(VorbisError::IoShort)
    &&& remaining >= 58 ==> (r is Ok <==> sc is None)
    &&& remaining >= 58 && r is Err ==> r->Err_0 == sc->Some_0
    &&& r is Ok ==> r->Ok_0 is Type0 && ({
        let f = r->Ok_0->Type0_0;
        &&& (f.order, f.rate, f.bark_map_size, f.amplitude_bits, f.amplitude_offset, f.books@.len()) == fields
        &&& f.books@ == Seq::new(fields.5, |i: int| bits_value(data, p + 58 + 8 * i, 8) as u8)
    })
}

fn read_floor0(bs: &mut BitReader, max_codebook: u16) -> (r: Result<Floor, VorbisError>)
    requires
        old(bs).wf(),
    ensures
        final(bs).wf(),
        final(bs).data() == old(bs).data(),
        r is Ok ==> r->Ok_0.wf(max_codebook as nat),
        r is Err ==> r->Err_0 == VorbisError::IoShort || r->Err_0 == VorbisError::InvalidFloor,
        floor0_outcome(old(bs).data(), old(bs).pos() as int, old(bs).remaining(), max_codebook as nat, r),
        r is Ok ==> final(bs).pos() == old(bs).pos() + 58 + 8 * floor0_fields(old(bs).data(), old(bs).pos() as int).5,
{
    proof {
        vstd::arithmetic::power2::lemma2_to64();
    }
    if bs.bits_left() < 58 {
        return Err(VorbisError::IoShort);
    }
    let ghost data = old(bs).data();
    let ghost p = old(bs).pos() as int;
    let order = match bs.read_bits_leq32(8) {
        Ok(v) => v as u8,
        Err(e) => return Err(e),
    };
    let rate = match bs.read_bits_leq32(16) {
        Ok(v) => v as u16,
        Err(e) => return Err(e),
    };
    let bark_map_size = match bs.read_bits_leq32(16) {
        Ok(v) => v as u16,
        Err(e) => return Err(e),
    };
    let amplitude_bits = match bs.read_bits_leq32(6) {
        Ok(v) => v as u8,
        Err(e) => return Err(e),
    };
    let amplitude_offset = match bs.read_bits_leq32(8) {
        Ok(v) => v as u8,
        Err(e) => return Err(e),
    };
    let n_books = match bs.read_bits_leq32(4) {
        Ok(v) => v + 1,
        Err(e) => return Err(e),
    };
    let mut books: Vec<u8> = Vec::new();
    let mut i: u32 = 0;
    while i < n_books
        invariant
            bs.wf(),
            bs.data() == old(bs).data(),
            i <= n_books <= 16,
            books@.len() == i,
            forall|j: int| 0 <= j < books@.len() ==> #[trigger] books@[j] < max_codebook,
            data == old(bs).data(),
            p == old(bs).pos(),
            old(bs).remaining() >= 58,
            n_books == floor0_fields(data, p).5,
            bs.pos() == p + 58 + 8 * i,
            books@ == Seq::new(i as nat, |k: int| bits_value(data, p + 58 + 8 * k, 8) as u8),
            floor0_books_scan(data, p + 58, n_books as nat, max_codebook as nat, 0)
                == floor0_books_scan(data, p + 58, n_books as nat, max_codebook as nat, i as int),
        decreases n_books - i,
    {
        proof {
            vstd::arithmetic::power2::lemma2_to64();
        }
        let book = match bs.read_bits_leq32(8) {
            Ok(v) => v as u8,
            Err(e) => return Err(e),
        };
        if book as u16 >= max_codebook {
            return Err(VorbisError::InvalidFloor);
        }
        books.push(book);
        i = i + 1;
        proof {
            assert(books@ =~= Seq::new(i as nat, |k: int| bits_value(data, p + 58 + 8 * k, 8) as u8));
        }
    }
    Ok(Floor::Type0(Floor0 { order, rate, bark_map_size, amplitude_bits, amplitude_offset, books }))
}

/// A book number stored plus one at bit `pos` (zero meaning none).
pub open spec fn book_plus_one_at(data: Seq<u8>, pos: int, max_codebook: nat) -> Result<Option<u8>, VorbisError> {
    if pos + 8 > 8 * data.len() {
        Err(VorbisError::IoShort)
    } else if bits_value(data, pos, 8) == 0 {
        Ok(None)
    } else if bits_value(data, pos, 8) - 1 >= max_codebook {
        Err(VorbisError::InvalidFloor)
    } else {
        Ok(Some((bits_value(data, pos, 8) - 1) as u8))
    }
}

/// The subclass books `n` more from bit `pos`, appended to `acc`.
pub open spec fn subbooks_read(data: Seq<u8>, pos: int, n: nat, max_codebook: nat, acc: Seq<Option<u8>>) -> Result<Seq<Option<u8>>, VorbisError>
    decreases n,
{
    if n == 0 {
        Ok(acc)
    } else {
        match book_plus_one_at(data, pos, max_codebook) {
            Err(e) => Err(e),
            Ok(b) => subbooks_read(data, pos + 8, (n - 1) as nat, max_codebook, acc.push(b)),
        }
    }
}

/// The fields of a partition class: dimensions, subclass bits, master book
/// and subclass books.
pub type ClassFields = (u8, u8, Option<u8>, Seq<Option<u8>>);

pub open spec fn class_view(c: Floor1Class) -> ClassFields {
    (c.dimensions, c.subclass_bits, c.masterbook, c.subclass_books@)
}

/// A partition class at bit `pos` and where it ends.
pub open spec fn class_result(data: Seq<u8>, pos: int, max_codebook: nat) -> Result<(ClassFields, int), VorbisError> {
    let dims = (bits_value(data, pos, 3) + 1) as u8;
    let sb = bits_value(data, pos + 3, 2);
    let n = vstd::arithmetic::power2::pow2(sb);
    if pos + 5 > 8 * data.len() {
        Err(VorbisError::IoShort)
    } else if sb > 0 {
        if pos + 13 > 8 * data.len() {
            Err(VorbisError::IoShort)
        } else if bits_value(data, pos + 5, 8) >= max_codebook {
            Err(VorbisError::InvalidFloor)
        } else {
            match subbooks_read(data, pos + 13, n, max_codebook, Seq::empty()) {
                Err(e) => Err(e),
                Ok(bk) => Ok(((dims, sb as u8, Some(bits_value(data, pos + 5, 8) as u8), bk), pos + 13 + 8 * n)),
            }
        }
    } else {
        match subbooks_read(data, pos + 5, 1, max_codebook, Seq::empty()) {
            Err(e) => Err(e),
            Ok(bk) => Ok(((dims, 0u8, None, bk), pos + 13)),
        }
    }
}

/// Reads an optional book reference stored plus one (zero meaning none).
fn read_book_plus_one(bs: &mut BitReader, max_codebook: u16) -> (r: Result<Option<u8>, VorbisError>)
    requires
        old(bs).wf(),
    ensures
        final(bs).wf(),
        final(bs).data() == old(bs).data(),
        r is Ok ==> book_ok(r->Ok_0, max_codebook as nat),
        r is Err ==> r->Err_0 == VorbisError::IoShort || r->Err_0 == VorbisError::InvalidFloor,
        r == book_plus_one_at(old(bs).data(), old(bs).pos() as int, max_codebook as nat),
        r is Ok ==> final(bs).pos() == old(bs).pos() + 8,
{
    proof {
        vstd::arithmetic::power2::lemma2_to64();
    }
    let v = match bs.read_bits_leq32(8) {
        Ok(v) => v,
        Err(e) => return Err(e),
    };
    if v == 0 {
        return Ok(None);
    }
    let book = (v - 1) as u8;
    if book as u16 >= max_codebook {
        return Err(VorbisError::InvalidFloor);
    }
    Ok(Some(book))
}

fn read_floor1_class(bs: &mut BitReader, max_codebook: u16) -> (r: Result<Floor1Class, VorbisError>)
    requires
        old(bs).wf(),
    ensures
        final(bs).wf(),
        final(bs).data() == old(bs).data(),
        r is Ok ==> r->Ok_0.wf(max_codebook as nat),
        r is Err ==> r->Err_0 == VorbisError::IoShort || r->Err_0 == VorbisError::InvalidFloor,
        ({
            let spec = class_result(old(bs).data(), old(bs).pos() as int, max_codebook as nat);
            &&& (r is Ok <==> spec is Ok)
            &&& r is Err ==> r->Err_0 == spec->Err_0
            &&& r is Ok ==> class_view(r->Ok_0) == spec->Ok_0.0 && final(bs).pos() == spec->Ok_0.1
        }),
{
    let ghost data = old(bs).data();
    let ghost p = old(bs).pos() as int;
    proof {
        vstd::arithmetic::power2::lemma2_to64();
    }
    let dimensions = match bs.read_bits_leq32(3) {
        Ok(v) => v as u8 + 1,
        Err(e) => return Err(e),
    };
    let subclass_bits = match bs.read_bits_leq32(2) {
        Ok(v) => v as u8,
        Err(e) => return Err(e),
    };
    let masterbook = if subclass_bits > 0 {
        let b = match bs.read_bits_leq32(8) {
            Ok(v) => v as u8,
            Err(e) => return Err(e),
        };
        if b as u16 >= max_codebook {
            return Err(VorbisError::InvalidFloor);
        }
        Some(b)
    } else {
        None
    };
    let n_subclasses: u32 = if subclass_bits == 0 {
        1
    } else if subclass_bits == 1 {
        2
    } else if subclass_bits == 2 {
        4
    } else {
        8
    };
    let mut subclass_books: Vec<Option<u8>> = Vec::new();
    let ghost q = bs.pos() as int;
    proof {
        assert(n_subclasses == vstd::arithmetic::power2::pow2(subclass_bits as nat));
        assert(subclass_bits > 0 ==> q == p + 13);
        assert(subclass_bits == 0 ==> q == p + 5);
        assert(class_result(data, p, max_codebook as nat) == match subbooks_read(data, q, n_subclasses as nat, max_codebook as nat, Seq::empty()) {
            Err(e) => Err(e),
            Ok(bk) => Ok::<(ClassFields, int), VorbisError>(((dimensions, subclass_bits, masterbook, bk), q + 8 * n_subclasses)),
        });
    }
    let mut j: u32 = 0;
    while j < n_subclasses
        invariant
            bs.wf(),
            bs.data() == old(bs).data(),
            data == old(bs).data(),
            j <= n_subclasses <= 8,
            subclass_books@.len() == j,
            bs.pos() == q + 8 * j,
            p == old(bs).pos(),
            class_result(data, p, max_codebook as nat) == match subbooks_read(data, q, n_subclasses as nat, max_codebook as nat, Seq::empty()) {
                Err(e) => Err(e),
                Ok(bk) => Ok::<(ClassFields, int), VorbisError>(((dimensions, subclass_bits, masterbook, bk), q + 8 * n_subclasses)),
            },
            subbooks_read(data, q, n_subclasses as nat, max_codebook as nat, Seq::empty()) == subbooks_read(
                data,
                bs.pos() as int,
                (n_subclasses - j) as nat,
                max_codebook as nat,
                subclass_books@,
            ),
            forall|k: int| 0 <= k < subclass_books@.len() ==> book_ok(#[trigger] subclass_books@[k], max_codebook as nat),
        decreases n_subclasses - j,
    {
        let b = match read_book_plus_one(bs, max_codebook) {
            Ok(b) => b,
            Err(e) => return Err(e),
        };
        subclass_books.push(b);
        j = j + 1;
    }
    Ok(Floor1Class { dimensions, subclass_bits, masterbook, subclass_books })
}

/// Whether `x` differs from every element of `xs`.
fn is_new_posit(xs: &Vec<u32>, x: u32) -> (r: bool)
    ensures
        r == (forall|i: int| 0 <= i < xs@.len() ==> xs@[i] != x),
{
    let mut i: usize = 0;
    while i < xs.len()
        invariant
            i <= xs@.len(),
            forall|k: int| 0 <= k < i ==> xs@[k] != x,
        decreases xs@.len() - i,
    {
        if xs[i] == x {
            return false;
        }
        i = i + 1;
    }
    true
}

} // verus!

verus! {

/// `n` more partition classes from bit `pos`, appended to `acc`, and where
/// they end.
pub open spec fn classes_read(data: Seq<u8>, pos: int, n: nat, max_codebook: nat, acc: Seq<ClassFields>) -> Result<(Seq<ClassFields>, int), VorbisError>
    decreases n,
{
    if n == 0 {
        Ok((acc, pos))
    } else {
        match class_result(data, pos, max_codebook) {
            Err(e) => Err(e),
            Ok((c, q)) => classes_read(data, q, (n - 1) as nat, max_codebook, acc.push(c)),
        }
    }
}

/// One more than the largest partition class, zero for no partitions.
pub open spec fn class_count(pcs: Seq<u8>) -> nat
    decreases pcs.len(),
{
    if pcs.len() == 0 {
        0
    } else if pcs.last() + 1 > class_count(pcs.drop_last()) {
        (pcs.last() + 1) as nat
    } else {
        class_count(pcs.drop_last())
    }
}

/// Number of posits that partitions `0..p` carry, by class fields.
pub open spec fn dims_total(pcs: Seq<u8>, cls: Seq<ClassFields>, p: int) -> nat
    decreases p,
{
    if p <= 0 {
        0
    } else {
        (dims_total(pcs, cls, p - 1) + cls[pcs[p - 1] as int].0) as nat
    }
}

/// Posit X values of `rb` bits from bit `pos`, appended to `acc` until it
/// holds `len` values; a value already present is an error.
pub open spec fn xs_read(data: Seq<u8>, pos: int, rb: nat, len: nat, acc: Seq<u32>) -> Result<(Seq<u32>, int), VorbisError>
    decreases len - acc.len(),
{
    if acc.len() >= len {
        Ok((acc, pos))
    } else if pos + rb > 8 * data.len() {
        Err(VorbisError::IoShort)
    } else if acc.contains(bits_value(data, pos, rb) as u32) {
        Err(VorbisError::InvalidFloor)
    } else {
        xs_read(data, pos + rb, rb, len, acc.push(bits_value(data, pos, rb) as u32))
    }
}

/// The fields of a piecewise floor: partition classes, classes, multiplier,
/// range bits and X values.
pub type Floor1Fields = (Seq<u8>, Seq<ClassFields>, u8, u8, Seq<u32>);

/// A piecewise floor configuration at bit `p` and where it ends.
pub open spec fn floor1_result(data: Seq<u8>, p: int, max_codebook: nat) -> Result<(Floor1Fields, int), VorbisError> {
    let np = bits_value(data, p, 5);
    let pcs = Seq::new(np, |i: int| bits_value(data, p + 5 + 4 * i, 4) as u8);
    if p + 5 + 4 * np > 8 * data.len() {
        Err(VorbisError::IoShort)
    } else {
        match classes_read(data, p + 5 + 4 * np, class_count(pcs), max_codebook, Seq::empty()) {
            Err(e) => Err(e),
            Ok((cls, q)) => if q + 6 > 8 * data.len() {
                Err(VorbisError::IoShort)
            } else {
                let rb = bits_value(data, q + 2, 4);
                match xs_read(data, q + 6, rb, 2 + dims_total(pcs, cls, np as int), seq![0u32, vstd::arithmetic::power2::pow2(rb) as u32]) {
                    Err(e) => Err(e),
                    Ok((xs, e)) => Ok(((pcs, cls, (bits_value(data, q, 2) + 1) as u8, rb as u8, xs), e)),
                }
            },
        }
    }
}

/// A piecewise floor read at bit `p` agrees with `floor1_result`.
pub open spec fn floor1_outcome(data: Seq<u8>, p: int, max_codebook: nat, r: Result<Floor, VorbisError>) -> bool {
    let spec = floor1_result(data, p, max_codebook);
    &&& (r is Ok <==> spec is Ok)
    &&& r is Err ==> r->Err_0 == spec->Err_0
    &&& r is Ok ==> r->Ok_0 is Type1 && ({
        let f = r->Ok_0->Type1_0;
        (f.partition_classes@, f.classes@.map_values(|c: Floor1Class| class_view(c)), f.multiplier, f.range_bits, f.xs@) == spec->Ok_0.0
    })
}

proof fn lemma_dims_mono(pcs: Seq<u8>, classes: Seq<Floor1Class>, a: int, b: int)
    requires
        0 <= a <= b,
    ensures
        dims_sum(pcs, classes, a) <= dims_sum(pcs, classes, b),
    decreases b - a,
{
    if a < b {
        lemma_dims_mono(pcs, classes, a, b - 1);
    }
}

proof fn lemma_dims_total(pcs: Seq<u8>, classes: Seq<Floor1Class>, p: int)
    requires
        0 <= p <= pcs.len(),
        forall|i: int| 0 <= i < pcs.len() ==> #[trigger] pcs[i] < classes.len(),
    ensures
        dims_sum(pcs, classes, p) == dims_total(pcs, classes.map_values(|c: Floor1Class| class_view(c)), p),
    decreases p,
{
    if p > 0 {
        lemma_dims_total(pcs, classes, p - 1);
    }
}

#[verifier::rlimit(80)]
fn read_floor1(bs: &mut BitReader, max_codebook: u16) -> (r: Result<Floor, VorbisError>)
    requires
        old(bs).wf(),
    ensures
        final(bs).wf(),
        final(bs).data() == old(bs).data(),
        r is Ok ==> r->Ok_0.wf(max_codebook as nat),
        r is Err ==> r->Err_0 == VorbisError::IoShort || r->Err_0 == VorbisError::InvalidFloor,
        floor1_outcome(old(bs).data(), old(bs).pos() as int, max_codebook as nat, r),
        r is Ok ==> final(bs).pos() == floor1_result(old(bs).data(), old(bs).pos() as int, max_codebook as nat)->Ok_0.1,
{
    let ghost data = old(bs).data();
    let ghost p0 = old(bs).pos() as int;
    proof {
        vstd::arithmetic::power2::lemma2_to64();
    }
    let n_partitions = match bs.read_bits_leq32(5) {
        Ok(v) => v,
        Err(e) => return Err(e),
    };
    let mut partition_classes: Vec<u8> = Vec::new();
    let mut n_classes: u8 = 0;
    let mut i: u32 = 0;
    while i < n_partitions
        invariant
            bs.wf(),
            bs.data() == old(bs).data(),
            i <= n_partitions <= 31,
            partition_classes@.len() == i,
            n_classes <= 16,
            forall|k: int| 0 <= k < partition_classes@.len() ==> #[trigger] partition_classes@[k] < n_classes,
            data == old(bs).data(),
            p0 == old(bs).pos(),
            n_partitions == bits_value(data, p0, 5),
            bs.pos() == p0 + 5 + 4 * i,
            partition_classes@ == Seq::new(i as nat, |k: int| bits_value(data, p0 + 5 + 4 * k, 4) as u8),
            n_classes == class_count(partition_classes@),
        decreases n_partitions - i,
    {
        proof {
            vstd::arithmetic::power2::lemma2_to64();
        }
        let c = match bs.read_bits_leq32(4) {
            Ok(v) => v as u8,
            Err(e) => return Err(e),
        };
        if c + 1 > n_classes {
            n_classes = c + 1;
        }
        let ghost before = partition_classes@;
        partition_classes.push(c);
        i = i + 1;
        proof {
            assert(partition_classes@.drop_last() == before);
            assert(partition_classes@ =~= Seq::new(i as nat, |k: int| bits_value(data, p0 + 5 + 4 * k, 4) as u8));
        }
    }
    let ghost pcs = partition_classes@;
    let ghost c0 = bs.pos() as int;
    proof {
        assert(pcs =~= Seq::new(bits_value(data, p0, 5), |i: int| bits_value(data, p0 + 5 + 4 * i, 4) as u8));
    }
    let mut classes: Vec<Floor1Class> = Vec::new();
    proof {
        assert(classes@.map_values(|c: Floor1Class| class_view(c)) =~= Seq::<ClassFields>::empty());
    }
    let mut k: u8 = 0;
    while k < n_classes
        invariant
            bs.wf(),
            bs.data() == old(bs).data(),
            k <= n_classes <= 16,
            classes@.len() == k,
            forall|j: int| 0 <= j < classes@.len() ==> (#[trigger] classes@[j]).wf(max_codebook as nat),
            data == old(bs).data(),
            p0 == old(bs).pos(),
            pcs == Seq::new(bits_value(data, p0, 5), |i: int| bits_value(data, p0 + 5 + 4 * i, 4) as u8),
            c0 == p0 + 5 + 4 * bits_value(data, p0, 5),
            c0 <= 8 * data.len(),
            n_classes == class_count(pcs),
            classes_read(data, c0, n_classes as nat, max_codebook as nat, Seq::empty()) == classes_read(
                data,
                bs.pos() as int,
                (n_classes - k) as nat,
                max_codebook as nat,
                classes@.map_values(|c: Floor1Class| class_view(c)),
            ),
        decreases n_classes - k,
    {
        let c = match read_floor1_class(bs, max_codebook) {
            Ok(c) => c,
            Err(e) => return Err(e),
        };
        let ghost before = classes@;
        classes.push(c);
        k = k + 1;
        proof {
            assert(classes@.map_values(|c: Floor1Class| class_view(c)) =~= before.map_values(|c: Floor1Class| class_view(c)).push(class_view(c)));
        }
    }
    let ghost cls = classes@.map_values(|c: Floor1Class| class_view(c));
    let ghost q = bs.pos() as int;
    proof {
        assert(floor1_result(data, p0, max_codebook as nat) == (if q + 6 > 8 * data.len() {
            Err(VorbisError::IoShort)
        } else {
            let rb = bits_value(data, q + 2, 4);
            match xs_read(data, q + 6, rb, 2 + dims_total(pcs, cls, pcs.len() as int), seq![0u32, vstd::arithmetic::power2::pow2(rb) as u32]) {
                Err(e) => Err(e),
                Ok((xs, e)) => Ok(((pcs, cls, (bits_value(data, q, 2) + 1) as u8, rb as u8, xs), e)),
            }
        }));
    }
    proof {
        vstd::arithmetic::power2::lemma2_to64();
    }
    let multiplier = match bs.read_bits_leq32(2) {
        Ok(v) => v as u8 + 1,
        Err(e) => return Err(e),
    };
    let range_bits = match bs.read_bits_leq32(4) {
        Ok(v) => v as u8,
        Err(e) => return Err(e),
    };
    let mut xs: Vec<u32> = Vec::new();
    xs.push(0);
    xs.push(1u32 << (range_bits as u32));
    proof {
        vstd::arithmetic::power2::lemma2_to64();
        vstd::arithmetic::power2::lemma_pow2_pos(range_bits as nat);
        if range_bits < 15 {
            vstd::arithmetic::power2::lemma_pow2_strictly_increases(range_bits as nat, 15);
        }
        vstd::bits::lemma_u32_shl_is_mul(1, range_bits as u32);
        assert(distinct(xs@));
    }
    let ghost x0 = bs.pos() as int;
    let ghost init = xs@;
    let ghost len_total: nat = 2 + dims_sum(partition_classes@, classes@, partition_classes@.len() as int);
    proof {
        assert(init =~= seq![0u32, vstd::arithmetic::power2::pow2(bits_value(data, q + 2, 4)) as u32]);
        lemma_dims_total(partition_classes@, classes@, partition_classes@.len() as int);
        assert(floor1_result(data, p0, max_codebook as nat) == match xs_read(data, x0, range_bits as nat, len_total, init) {
            Err(e) => Err(e),
            Ok((xv, e)) => Ok::<(Floor1Fields, int), VorbisError>(((pcs, cls, multiplier, range_bits, xv), e)),
        });
    }
    let mut p: usize = 0;
    while p < partition_classes.len()
        invariant
            bs.wf(),
            bs.data() == old(bs).data(),
            p <= partition_classes@.len() <= 31,
            classes@.len() == n_classes,
            forall|j: int| 0 <= j < partition_classes@.len() ==> #[trigger] partition_classes@[j] < n_classes,
            forall|j: int| 0 <= j < classes@.len() ==> (#[trigger] classes@[j]).wf(max_codebook as nat),
            range_bits <= 15,
            2 <= xs@.len() <= 2 + 8 * p,
            xs@.len() == 2 + dims_sum(partition_classes@, classes@, p as int),
            distinct(xs@),
            xs@[0] == 0,
            xs@[1] == vstd::arithmetic::power2::pow2(range_bits as nat),
            forall|i: int| 0 <= i < xs@.len() ==> #[trigger] xs@[i] <= xs@[1],
            data == old(bs).data(),
            p0 == old(bs).pos(),
            pcs == partition_classes@,
            cls == classes@.map_values(|c: Floor1Class| class_view(c)),
            len_total == 2 + dims_sum(partition_classes@, classes@, partition_classes@.len() as int),
            xs_read(data, x0, range_bits as nat, len_total, init) == xs_read(data, bs.pos() as int, range_bits as nat, len_total, xs@),
            floor1_result(data, p0, max_codebook as nat) == match xs_read(data, x0, range_bits as nat, len_total, init) {
                Err(e) => Err(e),
                Ok((xv, e)) => Ok::<(Floor1Fields, int), VorbisError>(((pcs, cls, multiplier, range_bits, xv), e)),
            },
        decreases partition_classes@.len() - p,
    {
        let dims = classes[partition_classes[p] as usize].dimensions;
        let mut d: u8 = 0;
        while d < dims
            invariant
                bs.wf(),
                bs.data() == old(bs).data(),
                d <= dims <= 8,
                p < 31,
                range_bits <= 15,
                2 <= xs@.len() <= 2 + 8 * p + d,
                xs@.len() == 2 + dims_sum(partition_classes@, classes@, p as int) + d,
                dims == classes@[partition_classes@[p as int] as int].dimensions,
                distinct(xs@),
                xs@[0] == 0,
                xs@[1] == vstd::arithmetic::power2::pow2(range_bits as nat),
                forall|i: int| 0 <= i < xs@.len() ==> #[trigger] xs@[i] <= xs@[1],
                data == old(bs).data(),
                p0 == old(bs).pos(),
                pcs == partition_classes@,
                cls == classes@.map_values(|c: Floor1Class| class_view(c)),
                len_total == 2 + dims_sum(partition_classes@, classes@, partition_classes@.len() as int),
                xs_read(data, x0, range_bits as nat, len_total, init) == xs_read(data, bs.pos() as int, range_bits as nat, len_total, xs@),
                floor1_result(data, p0, max_codebook as nat) == match xs_read(data, x0, range_bits as nat, len_total, init) {
                    Err(e) => Err(e),
                    Ok((xv, e)) => Ok::<(Floor1Fields, int), VorbisError>(((pcs, cls, multiplier, range_bits, xv), e)),
                },
                p < partition_classes@.len(),
                forall|j: int| 0 <= j < partition_classes@.len() ==> #[trigger] partition_classes@[j] < n_classes,
                classes@.len() == n_classes,
            decreases dims - d,
        {
            proof {
                lemma_dims_mono(partition_classes@, classes@, p + 1, partition_classes@.len() as int);
            }
            let x = match bs.read_bits_leq32(range_bits as u32) {
                Ok(v) => v,
                Err(e) => return Err(e),
            };
            if !is_new_posit(&xs, x) {
                return Err(VorbisError::InvalidFloor);
            }
            xs.push(x);
            d = d + 1;
        }
        p = p + 1;
    }
    let r = Floor1 { partition_classes, classes, multiplier, range_bits, xs };
    proof {
        assert(xs_read(data, bs.pos() as int, range_bits as nat, len_total, r.xs@) == Ok::<(Seq<u32>, int), VorbisError>((r.xs@, bs.pos() as int)));
    }
    Ok(Floor::Type1(r))
}

/// Where a floor configuration at bit `p` (its type field) ends, or the
/// error reading it gives.
pub open spec fn floor_item(data: Seq<u8>, p: int, max_codebook: nat) -> Result<int, VorbisError> {
    let t = bits_value(data, p, 16);
    let q = p + 16;
    let n0 = floor0_fields(data, q).5;
    if p + 16 > 8 * data.len() {
        Err(VorbisError::IoShort)
    } else if t == 0 {
        if q + 58 > 8 * data.len() {
            Err(VorbisError::IoShort)
        } else if floor0_books_scan(data, q + 58, n0, max_codebook, 0) is Some {
            Err(floor0_books_scan(data, q + 58, n0, max_codebook, 0)->Some_0)
        } else {
            Ok(q + 58 + 8 * n0)
        }
    } else if t == 1 {
        match floor1_result(data, q, max_codebook) {
            Err(e) => Err(e),
            Ok((_, e)) => Ok(e),
        }
    } else {
        Err(VorbisError::InvalidFloor)
    }
}

/// A floor read at bit `p` (its type field) holds what the reader of its
/// type reads after the type field.
pub open spec fn floor_outcome(data: Seq<u8>, p: int, max_codebook: nat, r: Result<Floor, VorbisError>) -> bool {
    &&& bits_value(data, p, 16) == 0 ==> floor0_outcome(data, p + 16, (8 * data.len() - (p + 16)) as nat, max_codebook, r)
    &&& bits_value(data, p, 16) == 1 ==> floor1_outcome(data, p + 16, max_codebook, r)
}

/// The start of each of `n` more floor configurations from bit `pos`,
/// appended to `acc`.
pub open spec fn floors_read(data: Seq<u8>, pos: int, n: nat, max_codebook: nat, acc: Seq<int>) -> Result<(Seq<int>, int), VorbisError>
    decreases n,
{
    if n == 0 {
        Ok((acc, pos))
    } else {
        match floor_item(data, pos, max_codebook) {
            Err(e) => Err(e),
            Ok(end) => floors_read(data, end, (n - 1) as nat, max_codebook, acc.push(pos)),
        }
    }
}

/// Reads one floor configuration of type 0 or 1.
pub fn read_floor(bs: &mut BitReader, max_codebook: u16) -> (r: Result<Floor, VorbisError>)
    requires
        old(bs).wf(),
    ensures
        final(bs).wf(),
        final(bs).data() == old(bs).data(),
        old(bs).remaining() < 16 ==> r == Err::<Floor, VorbisError>(VorbisError::IoShort),
        old(bs).remaining() >= 16 && bits_value(old(bs).data(), old(bs).pos() as int, 16) > 1
            ==> r == Err::<Floor, VorbisError>(VorbisError::InvalidFloor),
        old(bs).remaining() >= 16 && bits_value(old(bs).data(), old(bs).pos() as int, 16) == 0
            ==> floor0_outcome(old(bs).data(), (old(bs).pos() + 16) as int, (old(bs).remaining() - 16) as nat, max_codebook as nat, r),
        old(bs).remaining() >= 16 && bits_value(old(bs).data(), old(bs).pos() as int, 16) == 1
            ==> floor1_outcome(old(bs).data(), (old(bs).pos() + 16) as int, max_codebook as nat, r),
        floor_outcome(old(bs).data(), old(bs).pos() as int, max_codebook as nat, r),
        ({
            let it = floor_item(old(bs).data(), old(bs).pos() as int, max_codebook as nat);
            &&& (r is Ok <==> it is Ok)
            &&& r is Err ==> r->Err_0 == it->Err_0
            &&& r is Ok ==> final(bs).pos() == it->Ok_0
        }),
        r is Ok ==> r->Ok_0.wf(max_codebook as nat),
        r is Err ==> r->Err_0 == VorbisError::IoShort || r->Err_0 == VorbisError::InvalidFloor,
{
    let floor_type = match bs.read_bits_leq32(16) {
        Ok(v) => v,
        Err(e) => return Err(e),
    };
    proof {
        vstd::arithmetic::power2::lemma2_to64();
    }
    if floor_type == 0 {
        read_floor0(bs, max_codebook)
    } else if floor_type == 1 {
        read_floor1(bs, max_codebook)
    } else {
        Err(VorbisError::InvalidFloor)
    }
}

/// Reads the floor count and then each floor.
pub fn read_floors(bs: &mut BitReader, max_codebook: u16) -> (r: Result<Vec<Floor>, VorbisError>)
    requires
        old(bs).wf(),
    ensures
        final(bs).wf(),
        final(bs).data() == old(bs).data(),
        old(bs).remaining() < 6 ==> r == Err::<Vec<Floor>, VorbisError>(VorbisError::IoShort),
        r is Ok ==> {
            let v = r->Ok_0@;
            &&& v.len() == bits_value(old(bs).data(), old(bs).pos() as int, 6) + 1
            &&& 1 <= v.len() <= 64
            &&& forall|i: int| 0 <= i < v.len() ==> (#[trigger] v[i]).wf(max_codebook as nat)
        },
        r is Err ==> r->Err_0 == VorbisError::IoShort || r->Err_0 == VorbisError::InvalidFloor,
        old(bs).remaining() >= 6 ==> ({
            let data = old(bs).data();
            let spec = floors_read(data, (old(bs).pos() + 6) as int, bits_value(data, old(bs).pos() as int, 6) + 1, max_codebook as nat, Seq::empty());
            &&& (r is Ok <==> spec is Ok)
            &&& r is Err ==> r->Err_0 == spec->Err_0
            &&& r is Ok ==> final(bs).pos() == spec->Ok_0.1 && r->Ok_0@.len() == spec->Ok_0.0.len() && forall|j: int|
                0 <= j < r->Ok_0@.len() ==> floor_outcome(data, spec->Ok_0.0[j], max_codebook as nat, Ok::<Floor, VorbisError>(#[trigger] r->Ok_0@[j]))
        }),
{
    proof {
        vstd::arithmetic::power2::lemma2_to64();
    }
    let count = match bs.read_bits_leq32(6) {
        Ok(v) => v + 1,
        Err(e) => return Err(e),
    };
    let mut floors: Vec<Floor> = Vec::new();
    let ghost mut starts: Seq<int> = Seq::empty();
    let mut i: u32 = 0;
    while i < count
        invariant
            bs.wf(),
            bs.data() == old(bs).data(),
            i <= count,
            count == bits_value(old(bs).data(), old(bs).pos() as int, 6) + 1,
            count <= 64,
            old(bs).remaining() >= 6,
            floors@.len() == i,
            forall|j: int| 0 <= j < floors@.len() ==> (#[trigger] floors@[j]).wf(max_codebook as nat),
            starts.len() == i,
            floors_read(old(bs).data(), (old(bs).pos() + 6) as int, count as nat, max_codebook as nat, Seq::empty()) == floors_read(
                old(bs).data(),
                bs.pos() as int,
                (count - i) as nat,
                max_codebook as nat,
                starts,
            ),
            forall|j: int| 0 <= j < i ==> floor_outcome(old(bs).data(), starts[j], max_codebook as nat, Ok::<Floor, VorbisError>(#[trigger] floors@[j])),
        decreases count - i,
    {
        let ghost here = bs.pos() as int;
        let f = match read_floor(bs, max_codebook) {
            Ok(f) => f,
            Err(e) => return Err(e),
        };
        floors.push(f);
        proof {
            starts = starts.push(here);
        }
        i = i + 1;
    }
    Ok(floors)
}

} // verus!

verus! {

/// What one channel's floor holds in one packet.
#[derive(Clone, Debug)]
pub enum ChannelFloor {
    /// The channel carries no audio in this packet.
    Unused,
    /// An LSP floor: its amplitude, the book used and the entries read.
    Lsp { amplitude: u32, book: u8, entries: Vec<u32> },
    /// A piecewise floor: the coded Y value of each posit, in bitstream order.
    Piecewise { ys: Vec<u32> },
}

impl ChannelFloor {
    pub open spec fn spec_is_unused(&self) -> bool {
        self is Unused
    }

    pub fn is_unused(&self) -> (r: bool)
        ensures
            r == self.spec_is_unused(),
    {
        match self {
            ChannelFloor::Unused => true,
            _ => false,
        }
    }
}

/// The range of Y values of a piecewise floor for its multiplier.
pub open spec fn floor1_range(multiplier: u8) -> nat {
    if multiplier == 1 {
        256
    } else if multiplier == 2 {
        128
    } else if multiplier == 3 {
        86
    } else {
        64
    }
}

fn floor1_range_of(multiplier: u8) -> (r: u32)
    requires
        1 <= multiplier <= 4,
    ensures
        r == floor1_range(multiplier),
{
    if multiplier == 1 {
        256
    } else if multiplier == 2 {
        128
    } else if multiplier == 3 {
        86
    } else {
        64
    }
}

/// Every codebook is well formed.
pub open spec fn books_wf(books: Seq<Codebook>) -> bool {
    forall|i: int| 0 <= i < books.len() ==> (#[trigger] books[i]).wf()
}

/// One codeword of `book` at bit `pos`: its entry and where the reader then
/// stands.
pub open spec fn scalar_at(book: Codebook, data: Seq<u8>, pos: int) -> Result<(nat, int), VorbisError> {
    match decode_scan(book.lengths@, book.codewords@, data, pos, 1) {
        Ok(e) => Ok((e, pos + book.lengths@[e as int])),
        Err(x) => Err(x),
    }
}

/// The coded Y values of the posits `d..` of one partition of class `class`
/// whose class value is now `cval`, appended to `acc`, and where the reader
/// then stands.
pub open spec fn class_ys(class: Floor1Class, books: Seq<Codebook>, data: Seq<u8>, pos: int, d: nat, cval: nat, acc: Seq<u32>) -> Result<
    (Seq<u32>, int),
    VorbisError,
>
    decreases class.dimensions - d,
{
    if d >= class.dimensions {
        Ok((acc, pos))
    } else {
        let n_sub = class.subclass_books@.len();
        match class.subclass_books@[(cval % n_sub) as int] {
            None => class_ys(class, books, data, pos, d + 1, cval / n_sub, acc.push(0)),
            Some(b) => match scalar_at(books[b as int], data, pos) {
                Err(x) => Err(x),
                Ok((e, q)) => class_ys(class, books, data, q, d + 1, cval / n_sub, acc.push(e as u32)),
            },
        }
    }
}

/// The coded Y values of partitions `p..` of a piecewise floor appended to
/// `acc`.
pub open spec fn partitions_ys(f: Floor1, books: Seq<Codebook>, data: Seq<u8>, pos: int, p: nat, acc: Seq<u32>) -> Result<(Seq<u32>, int), VorbisError>
    decreases f.partition_classes@.len() - p,
{
    if p >= f.partition_classes@.len() {
        Ok((acc, pos))
    } else {
        let class = f.classes@[f.partition_classes@[p as int] as int];
        let master: Result<(nat, int), VorbisError> = match class.masterbook {
            None => Ok((0nat, pos)),
            Some(b) => scalar_at(books[b as int], data, pos),
        };
        match master {
            Err(x) => Err(x),
            Ok((cval, q)) => match class_ys(class, books, data, q, 0, cval, acc) {
                Err(x) => Err(x),
                Ok((a2, q2)) => partitions_ys(f, books, data, q2, p + 1, a2),
            },
        }
    }
}

/// What reading a used piecewise floor's channel data at bit `p0` gives,
/// with `remaining` bits left there.
pub open spec fn floor1_channel_outcome(f: Floor1, books: Seq<Codebook>, data: Seq<u8>, p0: int, remaining: nat, r: Result<ChannelFloor, VorbisError>) -> bool {
    let ybits = spec_ilog((floor1_range(f.multiplier) - 1) as nat);
    let spec = partitions_ys(f, books, data, p0 + 1 + 2 * ybits, 0, seq![
        bits_value(data, p0 + 1, ybits) as u32,
        bits_value(data, p0 + 1 + ybits, ybits) as u32,
    ]);
    remaining >= 1 && bit_at(data, p0) ==> {
        &&& remaining < 1 + 2 * ybits ==> r == Err::<ChannelFloor, VorbisError>(VorbisError::IoShort)
        &&& remaining >= 1 + 2 * ybits ==> {
            &&& (r is Ok <==> spec is Ok)
            &&& r is Ok ==> r->Ok_0 is Piecewise && r->Ok_0->Piecewise_ys@ == spec->Ok_0.0
            &&& r is Err ==> r->Err_0 == spec->Err_0
        }
    }
}

/// The data of one channel's floor: kind (0 unused, 1 LSP, 2 piecewise),
/// amplitude, book, and the entries or Y values read.
pub type ChannelFloorView = (u8, u32, u8, Seq<u32>);

pub open spec fn channel_floor_view(c: ChannelFloor) -> ChannelFloorView {
    match c {
        ChannelFloor::Unused => (0u8, 0u32, 0u8, Seq::empty()),
        ChannelFloor::Lsp { amplitude, book, entries } => (1u8, amplitude, book, entries@),
        ChannelFloor::Piecewise { ys } => (2u8, 0u32, 0u8, ys@),
    }
}

/// One channel's piecewise floor data at bit `p0` and where it ends.
pub open spec fn floor1_channel_result(f: Floor1, books: Seq<Codebook>, data: Seq<u8>, p0: int) -> Result<(ChannelFloorView, int), VorbisError> {
    let ybits = spec_ilog((floor1_range(f.multiplier) - 1) as nat);
    if p0 + 1 > 8 * data.len() {
        Err(VorbisError::IoShort)
    } else if !bit_at(data, p0) {
        Ok(((0u8, 0u32, 0u8, Seq::empty()), p0 + 1))
    } else if p0 + 1 + 2 * ybits > 8 * data.len() {
        Err(VorbisError::IoShort)
    } else {
        match partitions_ys(f, books, data, p0 + 1 + 2 * ybits, 0, seq![
            bits_value(data, p0 + 1, ybits) as u32,
            bits_value(data, p0 + 1 + ybits, ybits) as u32,
        ]) {
            Err(e) => Err(e),
            Ok((ys, e)) => Ok(((2u8, 0u32, 0u8, ys), e)),
        }
    }
}

/// The entries of an LSP floor read with `book` from bit `pos` until
/// `count` coefficients reach `order`.
pub open spec fn lsp_entries(book: Codebook, data: Seq<u8>, pos: int, count: nat, order: nat, acc: Seq<u32>) -> Result<(Seq<u32>, int), VorbisError>
    decreases order - count + 65536,
{
    if count >= order || book.dimensions == 0 {
        Ok((acc, pos))
    } else {
        match scalar_at(book, data, pos) {
            Err(e) => Err(e),
            Ok((e, q)) => lsp_entries(book, data, q, (count + book.dimensions) as nat, order, acc.push(e as u32)),
        }
    }
}

/// One channel's LSP floor data at bit `p` and where it ends.
pub open spec fn floor0_channel_result(f: Floor0, books: Seq<Codebook>, data: Seq<u8>, p: int) -> Result<(ChannelFloorView, int), VorbisError> {
    let ab = f.amplitude_bits as nat;
    let nb = spec_ilog(f.books@.len());
    let q = p + ab;
    let bn = bits_value(data, q, nb);
    if ab > 32 {
        Err(VorbisError::InvalidFloor)
    } else if p + ab > 8 * data.len() {
        Err(VorbisError::IoShort)
    } else if bits_value(data, p, ab) == 0 {
        Ok(((0u8, 0u32, 0u8, Seq::empty()), p + ab))
    } else if q + nb > 8 * data.len() {
        Err(VorbisError::IoShort)
    } else if bn >= f.books@.len() {
        Err(VorbisError::InvalidFloor)
    } else if books[f.books@[bn as int] as int].dimensions == 0 {
        Err(VorbisError::InvalidFloor)
    } else {
        match lsp_entries(books[f.books@[bn as int] as int], data, q + nb, 0, f.order as nat, Seq::empty()) {
            Err(e) => Err(e),
            Ok((es, e)) => Ok(((1u8, bits_value(data, p, ab) as u32, f.books@[bn as int], es), e)),
        }
    }
}

/// One channel's floor data at bit `p` and where it ends.
pub open spec fn channel_floor_result(floor: Floor, books: Seq<Codebook>, data: Seq<u8>, p: int) -> Result<(ChannelFloorView, int), VorbisError> {
    match floor {
        Floor::Type0(f) => floor0_channel_result(f, books, data, p),
        Floor::Type1(f) => floor1_channel_result(f, books, data, p),
    }
}

/// Reads one channel's piecewise floor: the used flag, the two end posits and
/// the coded Y value of every other posit.
fn read_floor1_channel(f: &Floor1, bs: &mut BitReader, books: &Vec<Codebook>) -> (r: Result<ChannelFloor, VorbisError>)
    requires
        old(bs).wf(),
        Floor::Type1(*f).wf(books@.len()),
        books_wf(books@),
    ensures
        final(bs).wf(),
        final(bs).data() == old(bs).data(),
        old(bs).remaining() < 1 ==> r == Err::<ChannelFloor, VorbisError>(VorbisError::IoShort),
        old(bs).remaining() >= 1 && !bit_at(old(bs).data(), old(bs).pos() as int) ==> r is Ok && r->Ok_0 is Unused
            && final(bs).pos() == old(bs).pos() + 1,
        old(bs).remaining() >= 1 && bit_at(old(bs).data(), old(bs).pos() as int) && r is Ok ==> r->Ok_0 is Piecewise,
        r is Ok && !(r->Ok_0 is Unused) ==> {
            let ybits = spec_ilog((floor1_range(f.multiplier) - 1) as nat);
            &&& old(bs).remaining() >= 1 && bit_at(old(bs).data(), old(bs).pos() as int)
            &&& r->Ok_0 is Piecewise
            &&& r->Ok_0->Piecewise_ys@.len() == f.xs@.len()
            &&& r->Ok_0->Piecewise_ys@[0] == bits_value(old(bs).data(), (old(bs).pos() + 1) as int, ybits)
            &&& r->Ok_0->Piecewise_ys@[1] == bits_value(old(bs).data(), (old(bs).pos() + 1 + ybits) as int, ybits)
        },
        floor1_channel_outcome(*f, books@, old(bs).data(), old(bs).pos() as int, old(bs).remaining(), r),
        ({
            let spec = floor1_channel_result(*f, books@, old(bs).data(), old(bs).pos() as int);
            &&& (r is Ok <==> spec is Ok)
            &&& r is Err ==> r->Err_0 == spec->Err_0
            &&& r is Ok ==> channel_floor_view(r->Ok_0) == spec->Ok_0.0 && final(bs).pos() == spec->Ok_0.1
        }),
        r is Err ==> r->Err_0 == VorbisError::IoShort || r->Err_0 == VorbisError::InvalidCode,
{
    let nonzero = match bs.read_bit() {
        Ok(b) => b,
        Err(e) => return Err(e),
    };
    if !nonzero {
        return Ok(ChannelFloor::Unused);
    }
    let range = floor1_range_of(f.multiplier);
    let ybits = ilog(range - 1);
    proof {
        vstd::arithmetic::power2::lemma2_to64();
        crate::bits::lemma_ilog_bound((range - 1) as nat, 8);
    }
    let y0 = match bs.read_bits_leq32(ybits) {
        Ok(v) => v,
        Err(e) => return Err(e),
    };
    let y1 = match bs.read_bits_leq32(ybits) {
        Ok(v) => v,
        Err(e) => return Err(e),
    };
    let mut ys: Vec<u32> = Vec::new();
    ys.push(y0);
    ys.push(y1);
    let ghost data = old(bs).data();
    let ghost start = bs.pos() as int;
    proof {
        assert(ys@ =~= seq![y0, y1]);
        let yb = ybits as nat;
        assert(seq![y0, y1] =~= seq![
            bits_value(data, (old(bs).pos() + 1) as int, yb) as u32,
            bits_value(data, (old(bs).pos() + 1 + yb) as int, yb) as u32,
        ]);
        assert(floor1_channel_result(*f, books@, data, old(bs).pos() as int) == match partitions_ys(*f, books@, data, start, 0, seq![y0, y1]) {
                Err(e) => Err(e),
                Ok((ys2, e)) => Ok::<(ChannelFloorView, int), VorbisError>(((2u8, 0u32, 0u8, ys2), e)),
            });
    }
    let mut p: usize = 0;
    while p < f.partition_classes.len()
        invariant
            bs.wf(),
            bs.data() == old(bs).data(),
            Floor::Type1(*f).wf(books@.len()),
            books_wf(books@),
            p <= f.partition_classes@.len(),
            ybits <= 8,
            ys@.len() >= 2,
            ys@[0] == y0,
            ys@[1] == y1,
            ys@.len() == 2 + dims_sum(f.partition_classes@, f.classes@, p as int),
            old(bs).remaining() >= 1 && bit_at(old(bs).data(), old(bs).pos() as int),
            ys@[0] == bits_value(old(bs).data(), (old(bs).pos() + 1) as int, ybits as nat),
            ys@[1] == bits_value(old(bs).data(), (old(bs).pos() + 1 + ybits) as int, ybits as nat),
            data == old(bs).data(),
            start == old(bs).pos() + 1 + 2 * ybits,
            old(bs).remaining() >= 1 + 2 * ybits,
            ybits == spec_ilog((floor1_range(f.multiplier) - 1) as nat),
            partitions_ys(*f, books@, data, start, 0, seq![y0, y1]) == partitions_ys(*f, books@, data, bs.pos() as int, p as nat, ys@),
            floor1_channel_result(*f, books@, data, old(bs).pos() as int) == match partitions_ys(*f, books@, data, start, 0, seq![y0, y1]) {
                Err(e) => Err(e),
                Ok((ys2, e)) => Ok::<(ChannelFloorView, int), VorbisError>(((2u8, 0u32, 0u8, ys2), e)),
            },
        decreases f.partition_classes@.len() - p,
    {
        let class = &f.classes[f.partition_classes[p] as usize];
        let cbits = class.subclass_bits;
        let ghost pos_p = bs.pos() as int;
        let ghost acc_p = ys@;
        let mut cval: u32 = 0;
        match class.masterbook {
            Some(b) => {
                cval = match books[b as usize].read_scalar(bs) {
                    Ok(v) => v,
                    Err(e) => return Err(e),
                };
            },
            None => {},
        }
        let ghost cval0 = cval as nat;
        let ghost q_p = bs.pos() as int;
        proof {
            assert(partitions_ys(*f, books@, data, pos_p, p as nat, acc_p) == match class_ys(*class, books@, data, q_p, 0, cval0, acc_p) {
                Err(x) => Err(x),
                Ok((a2, q2)) => partitions_ys(*f, books@, data, q2, (p + 1) as nat, a2),
            });
        }
        let mut d: u8 = 0;
        while d < class.dimensions
            invariant
                bs.wf(),
                bs.data() == old(bs).data(),
                class.wf(books@.len()),
                books_wf(books@),
                cbits == class.subclass_bits,
                d <= class.dimensions,
                ys@.len() >= 2,
                ys@[0] == y0,
                ys@[1] == y1,
                p < f.partition_classes@.len(),
                *class == f.classes@[f.partition_classes@[p as int] as int],
                ys@.len() == 2 + dims_sum(f.partition_classes@, f.classes@, p as int) + d,
                old(bs).remaining() >= 1 && bit_at(old(bs).data(), old(bs).pos() as int),
                data == old(bs).data(),
                bs.data() == data,
                class_ys(*class, books@, data, q_p, 0, cval0, acc_p) == class_ys(*class, books@, data, bs.pos() as int, d as nat, cval as nat, ys@),
                partitions_ys(*f, books@, data, start, 0, seq![y0, y1]) == match class_ys(*class, books@, data, q_p, 0, cval0, acc_p) {
                    Err(x) => Err(x),
                    Ok((a2, q2)) => partitions_ys(*f, books@, data, q2, (p + 1) as nat, a2),
                },
                ys@[0] == bits_value(old(bs).data(), (old(bs).pos() + 1) as int, ybits as nat),
                ys@[1] == bits_value(old(bs).data(), (old(bs).pos() + 1 + ybits) as int, ybits as nat),
                start == old(bs).pos() + 1 + 2 * ybits,
                ybits <= 8,
                floor1_channel_result(*f, books@, data, old(bs).pos() as int) == match partitions_ys(*f, books@, data, start, 0, seq![y0, y1]) {
                    Err(e) => Err(e),
                    Ok((ys2, e)) => Ok::<(ChannelFloorView, int), VorbisError>(((2u8, 0u32, 0u8, ys2), e)),
                },
                old(bs).remaining() >= 1 + 2 * ybits,
                ybits == spec_ilog((floor1_range(f.multiplier) - 1) as nat),
            decreases class.dimensions - d,
        {
            // The low bits of the class value pick the subclass of this posit.
            let n_sub = class.subclass_books.len();
            proof {
                vstd::arithmetic::power2::lemma_pow2_pos(cbits as nat);
                vstd::arithmetic::power2::lemma2_to64();
            }
            let sub = (cval as usize) % n_sub;
            cval = cval / (n_sub as u32);
            let y = match class.subclass_books[sub] {
                Some(b) => match books[b as usize].read_scalar(bs) {
                    Ok(v) => v,
                    Err(e) => return Err(e),
                },
                None => 0,
            };
            ys.push(y);
            d = d + 1;
        }
        p = p + 1;
    }
    Ok(ChannelFloor::Piecewise { ys })
}

} // verus!

verus! {

/// Reads one channel's LSP floor: its amplitude, and where that is not zero
/// the book and the entries that make up its coefficients.
fn read_floor0_channel(f: &Floor0, bs: &mut BitReader, books: &Vec<Codebook>) -> (r: Result<ChannelFloor, VorbisError>)
    requires
        old(bs).wf(),
        Floor::Type0(*f).wf(books@.len()),
        books_wf(books@),
    ensures
        final(bs).wf(),
        final(bs).data() == old(bs).data(),
        f.amplitude_bits > 32 ==> r == Err::<ChannelFloor, VorbisError>(VorbisError::InvalidFloor),
        f.amplitude_bits <= 32 && old(bs).remaining() < f.amplitude_bits ==> r == Err::<ChannelFloor, VorbisError>(VorbisError::IoShort),
        f.amplitude_bits <= 32 && old(bs).remaining() >= f.amplitude_bits
            && bits_value(old(bs).data(), old(bs).pos() as int, f.amplitude_bits as nat) == 0
            ==> r is Ok && r->Ok_0 is Unused,
        r is Ok && !(r->Ok_0 is Unused) ==> {
            &&& r->Ok_0 is Lsp
            &&& r->Ok_0->Lsp_amplitude == bits_value(old(bs).data(), old(bs).pos() as int, f.amplitude_bits as nat)
            &&& r->Ok_0->Lsp_amplitude != 0
            &&& (r->Ok_0->Lsp_book as nat) < books@.len()
        },
        r is Err ==> r->Err_0 == VorbisError::IoShort || r->Err_0 == VorbisError::InvalidCode
            || r->Err_0 == VorbisError::InvalidFloor,
        ({
            let spec = floor0_channel_result(*f, books@, old(bs).data(), old(bs).pos() as int);
            &&& (r is Ok <==> spec is Ok)
            &&& r is Err ==> r->Err_0 == spec->Err_0
            &&& r is Ok ==> channel_floor_view(r->Ok_0) == spec->Ok_0.0 && final(bs).pos() == spec->Ok_0.1
        }),
{
    let ghost data = old(bs).data();
    let ghost p = old(bs).pos() as int;
    if f.amplitude_bits > 32 {
        return Err(VorbisError::InvalidFloor);
    }
    proof {
        vstd::arithmetic::power2::lemma2_to64();
        if f.amplitude_bits < 32 {
            vstd::arithmetic::power2::lemma_pow2_strictly_increases(f.amplitude_bits as nat, 32);
        }
    }
    let amplitude = match bs.read_bits_leq32(f.amplitude_bits as u32) {
        Ok(v) => v,
        Err(e) => return Err(e),
    };
    if amplitude == 0 {
        return Ok(ChannelFloor::Unused);
    }
    let n_books = f.books.len() as u32;
    let ghost q = bs.pos() as int;
    proof {
        crate::bits::lemma_ilog_bound(n_books as nat, 5);
        vstd::arithmetic::power2::lemma2_to64();
    }
    let book_number = match bs.read_bits_leq32(ilog(n_books)) {
        Ok(v) => v,
        Err(e) => return Err(e),
    };
    if book_number >= n_books {
        return Err(VorbisError::InvalidFloor);
    }
    let book = f.books[book_number as usize];
    let cb = &books[book as usize];
    if cb.dimensions == 0 {
        return Err(VorbisError::InvalidFloor);
    }
    let mut entries: Vec<u32> = Vec::new();
    let mut count: u32 = 0;
    let ghost start = bs.pos() as int;
    proof {
        assert(floor0_channel_result(*f, books@, data, p) == match lsp_entries(*cb, data, start, 0, f.order as nat, Seq::empty()) {
            Err(e) => Err(e),
            Ok((es, e)) => Ok::<(ChannelFloorView, int), VorbisError>(((1u8, amplitude, book, es), e)),
        });
    }
    while count < f.order as u32
        invariant
            bs.wf(),
            bs.data() == old(bs).data(),
            data == old(bs).data(),
            p == old(bs).pos(),
            cb.wf(),
            cb.dimensions >= 1,
            floor0_channel_result(*f, books@, data, p) == match lsp_entries(*cb, data, start, 0, f.order as nat, Seq::empty()) {
                Err(e) => Err(e),
                Ok((es, e)) => Ok::<(ChannelFloorView, int), VorbisError>(((1u8, amplitude, book, es), e)),
            },
            lsp_entries(*cb, data, start, 0, f.order as nat, Seq::empty()) == lsp_entries(*cb, data, bs.pos() as int, count as nat, f.order as nat, entries@),
            count <= 255 + 65535,
            f.amplitude_bits <= 32,
            old(bs).remaining() >= f.amplitude_bits,
            bits_value(old(bs).data(), old(bs).pos() as int, f.amplitude_bits as nat) != 0,
        decreases f.order as int - count as int + 65536,
    {
        let e = match cb.read_scalar(bs) {
            Ok(v) => v,
            Err(e) => return Err(e),
        };
        entries.push(e);
        count = count + cb.dimensions as u32;
    }
    let r = ChannelFloor::Lsp { amplitude, book, entries };
    proof {
        assert(channel_floor_view(r) == (1u8, amplitude, book, entries@));
    }
    Ok(r)
}

impl Floor {
    /// Reads this floor's data for one channel of an audio packet.
    pub fn read_channel(&self, bs: &mut BitReader, books: &Vec<Codebook>) -> (r: Result<ChannelFloor, VorbisError>)
        requires
            old(bs).wf(),
            self.wf(books@.len()),
            books_wf(books@),
        ensures
            final(bs).wf(),
            final(bs).data() == old(bs).data(),
            r is Ok && (self is Type0) ==> !(r->Ok_0 is Piecewise),
            r is Ok && (self is Type1) ==> !(r->Ok_0 is Lsp),
            (self is Type1 && old(bs).remaining() >= 1) ==> (r is Ok && r->Ok_0 is Unused
                <==> !bit_at(old(bs).data(), old(bs).pos() as int)),
            r is Ok && self is Type1 && r->Ok_0 is Piecewise ==> r->Ok_0->Piecewise_ys@.len() == self->Type1_0.xs@.len(),
            self is Type1 ==> floor1_channel_outcome(self->Type1_0, books@, old(bs).data(), old(bs).pos() as int, old(bs).remaining(), r),
            ({
                let spec = channel_floor_result(*self, books@, old(bs).data(), old(bs).pos() as int);
                &&& (r is Ok <==> spec is Ok)
                &&& r is Err ==> r->Err_0 == spec->Err_0
                &&& r is Ok ==> channel_floor_view(r->Ok_0) == spec->Ok_0.0 && final(bs).pos() == spec->Ok_0.1
            }),
            r is Err ==> r->Err_0 == VorbisError::IoShort || r->Err_0 == VorbisError::InvalidCode
                || r->Err_0 == VorbisError::InvalidFloor,
    {
        match self {
            Floor::Type0(f) => read_floor0_channel(f, bs, books),
            Floor::Type1(f) => read_floor1_channel(f, bs, books),
        }
    }
}

} // verus!
