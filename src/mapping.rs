use vstd::prelude::*;
use crate::bits::{BitReader, bits_value, bit_at, ilog, spec_ilog};
use crate::error::{HeaderFault, VorbisError};

verus! {

/// A pair of channels coded as magnitude and angle.
#[derive(Clone, Copy, Debug, PartialEq, Eq, Structural)]
pub struct ChannelCouple {
    pub magnitude_ch: u8,
    pub angle_ch: u8,
}

/// The floor and residue that a group of channels uses.
#[derive(Clone, Copy, Debug, PartialEq, Eq, Structural)]
pub struct SubMap {
    pub floor: u8,
    pub residue: u8,
}

/// Assignment of channels to floors and residues, and the coupled pairs.
#[derive(Clone, Debug)]
pub struct Mapping {
    pub couplings: Vec<ChannelCouple>,
    /// For each channel, the index of its submap.
    pub multiplex: Vec<u8>,
    pub submaps: Vec<SubMap>,
}

/// The top-level selector read at the start of each audio packet.
#[derive(Clone, Copy, Debug, PartialEq, Eq, Structural)]
pub struct Mode {
    /// Long block when set, short block otherwise.
    pub block_flag: bool,
    pub window_type: u16,
    pub transform_type: u16,
    pub mapping: u8,
}

/// A coupling pair names two different channels of the stream.
pub open spec fn couple_wf(c: ChannelCouple, n_channels: nat) -> bool {
    &&& c.magnitude_ch != c.angle_ch
    &&& c.magnitude_ch < n_channels
    &&& c.angle_ch < n_channels
}

impl Mapping {
    pub open spec fn wf(&self, n_channels: nat, n_floors: nat, n_residues: nat) -> bool {
        &&& 1 <= self.submaps@.len() <= 16
        &&& self.couplings@.len() <= 256
        &&& self.multiplex@.len() == n_channels
        &&& forall|i: int| 0 <= i < self.couplings@.len() ==> couple_wf(#[trigger] self.couplings@[i], n_channels)
        &&& forall|i: int| 0 <= i < self.multiplex@.len() ==> #[trigger] self.multiplex@[i] < self.submaps@.len()
        &&& forall|i: int| 0 <= i < self.submaps@.len() ==> (#[trigger] self.submaps@[i]).floor < n_floors
            && self.submaps@[i].residue < n_residues
    }
}

impl Mode {
    pub open spec fn wf(&self, n_mappings: nat) -> bool {
        &&& self.window_type == 0
        &&& self.transform_type == 0
        &&& self.mapping < n_mappings
    }
}

/// The outcome of reading one mode at bit `pos`: 41 bits are read before
/// any field is checked.
pub open spec fn mode_result(data: Seq<u8>, pos: int, remaining: nat, n_mappings: nat) -> Result<Mode, VorbisError> {
    if remaining < 41 {
        Err(VorbisError::IoShort)
    } else {
        let m = Mode {
            block_flag: bit_at(data, pos),
            window_type: bits_value(data, pos + 1, 16) as u16,
            transform_type: bits_value(data, pos + 17, 16) as u16,
            mapping: bits_value(data, pos + 33, 8) as u8,
        };
        if m.wf(n_mappings) {
            Ok(m)
        } else {
            Err(VorbisError::InvalidMode)
        }
    }
}

/// Reads one mode and checks it against the number of mappings.
pub fn read_mode(bs: &mut BitReader, max_mapping: u8) -> (r: Result<Mode, VorbisError>)
    requires
        old(bs).wf(),
    ensures
        final(bs).wf(),
        final(bs).data() == old(bs).data(),
        r == mode_result(old(bs).data(), old(bs).pos() as int, old(bs).remaining(), max_mapping as nat),
        old(bs).remaining() >= 41 ==> final(bs).pos() == old(bs).pos() + 41,
        old(bs).remaining() < 41 ==> final(bs).pos() == old(bs).pos(),
{
    if bs.bits_left() < 41 {
        return Err(VorbisError::IoShort);
    }
    proof {
        vstd::arithmetic::power2::lemma2_to64();
    }
    let block_flag = match bs.read_bit() {
        Ok(b) => b,
        Err(e) => return Err(e),
    };
    let window_type = match bs.read_bits_leq32(16) {
        Ok(v) => v as u16,
        Err(e) => return Err(e),
    };
    let transform_type = match bs.read_bits_leq32(16) {
        Ok(v) => v as u16,
        Err(e) => return Err(e),
    };
    let mapping = match bs.read_bits_leq32(8) {
        Ok(v) => v as u8,
        Err(e) => return Err(e),
    };
    if window_type != 0 {
        return Err(VorbisError::InvalidMode);
    }
    if transform_type != 0 {
        return Err(VorbisError::InvalidMode);
    }
    if mapping >= max_mapping {
        return Err(VorbisError::InvalidMode);
    }
    Ok(Mode { block_flag, window_type, transform_type, mapping })
}

/// Mode `i` of a list whose first mode stands at bit `start`.
pub open spec fn mode_at(data: Seq<u8>, start: int, i: int) -> Mode {
    let pos = start + 41 * i;
    Mode {
        block_flag: bit_at(data, pos),
        window_type: bits_value(data, pos + 1, 16) as u16,
        transform_type: bits_value(data, pos + 17, 16) as u16,
        mapping: bits_value(data, pos + 33, 8) as u8,
    }
}

/// The first fault among modes `i..count` of a list at bit `start`, if any.
pub open spec fn modes_scan(data: Seq<u8>, start: int, count: nat, n_mappings: nat, i: int) -> Option<VorbisError>
    decreases count - i,
{
    if i < 0 || i >= count {
        None
    } else if start + 41 * (i + 1) > 8 * data.len() {
        Some(VorbisError::IoShort)
    } else if !mode_at(data, start, i).wf(n_mappings) {
        Some(VorbisError::InvalidMode)
    } else {
        modes_scan(data, start, count, n_mappings, i + 1)
    }
}

/// Reads the mode count and then each mode.
pub fn read_modes(bs: &mut BitReader, max_mapping: u8) -> (r: Result<Vec<Mode>, VorbisError>)
    requires
        old(bs).wf(),
    ensures
        final(bs).wf(),
        final(bs).data() == old(bs).data(),
        old(bs).remaining() < 6 ==> r == Err::<Vec<Mode>, VorbisError>(VorbisError::IoShort),
        r is Ok ==> {
            let v = r->Ok_0@;
            &&& v.len() == bits_value(old(bs).data(), old(bs).pos() as int, 6) + 1
            &&& 1 <= v.len() <= 64
            &&& forall|i: int| 0 <= i < v.len() ==> (#[trigger] v[i]).wf(max_mapping as nat)
        },
        old(bs).remaining() >= 6 ==> ({
            let count = bits_value(old(bs).data(), old(bs).pos() as int, 6) + 1;
            let sc = modes_scan(old(bs).data(), (old(bs).pos() + 6) as int, count, max_mapping as nat, 0);
            &&& (r is Ok <==> sc is None)
            &&& r is Err ==> r->Err_0 == sc->Some_0
            &&& r is Ok ==> r->Ok_0@ == Seq::new(count, |k: int| mode_at(old(bs).data(), (old(bs).pos() + 6) as int, k))
                && final(bs).pos() == old(bs).pos() + 6 + 41 * count
        }),
{
    proof {
        vstd::arithmetic::power2::lemma2_to64();
    }
    let count = match bs.read_bits_leq32(6) {
        Ok(v) => v + 1,
        Err(e) => return Err(e),
    };
    let mut modes: Vec<Mode> = Vec::new();
    let mut i: u32 = 0;
    while i < count
        invariant
            bs.wf(),
            bs.data() == old(bs).data(),
            i <= count,
            count == bits_value(old(bs).data(), old(bs).pos() as int, 6) + 1,
            count <= 64,
            old(bs).remaining() >= 6,
            modes@.len() == i,
            forall|j: int| 0 <= j < modes@.len() ==> (#[trigger] modes@[j]).wf(max_mapping as nat),
            bs.pos() == old(bs).pos() + 6 + 41 * i,
            modes@ == Seq::new(i as nat, |k: int| mode_at(old(bs).data(), (old(bs).pos() + 6) as int, k)),
            modes_scan(old(bs).data(), (old(bs).pos() + 6) as int, count as nat, max_mapping as nat, 0)
                == modes_scan(old(bs).data(), (old(bs).pos() + 6) as int, count as nat, max_mapping as nat, i as int),
        decreases count - i,
    {
        let m = match read_mode(bs, max_mapping) {
            Ok(m) => m,
            Err(e) => return Err(e),
        };
        modes.push(m);
        i = i + 1;
        proof {
            assert(modes@ =~= Seq::new(i as nat, |k: int| mode_at(old(bs).data(), (old(bs).pos() + 6) as int, k)));
        }
    }
    Ok(modes)
}

/// The `i`-th time-domain transform placeholder of a list whose count
/// stands at bit `start`.
pub open spec fn transform_at(data: Seq<u8>, start: int, i: int) -> nat {
    bits_value(data, start + 6 + 16 * i, 16)
}

/// The first fault among placeholders `i..count`, if any.
pub open spec fn transforms_scan(data: Seq<u8>, start: int, count: nat, i: int) -> Option<VorbisError>
    decreases count - i,
{
    if i < 0 || i >= count {
        None
    } else if start + 6 + 16 * (i + 1) > 8 * data.len() {
        Some(VorbisError::IoShort)
    } else if transform_at(data, start, i) != 0 {
        Some(VorbisError::InvalidHeader(HeaderFault::TimeDomainTransform))
    } else {
        transforms_scan(data, start, count, i + 1)
    }
}

/// Reads the time-domain transform placeholders, each of which must be zero.
pub fn read_time_domain_transforms(bs: &mut BitReader) -> (r: Result<(), VorbisError>)
    requires
        old(bs).wf(),
    ensures
        final(bs).wf(),
        final(bs).data() == old(bs).data(),
        old(bs).remaining() < 6 ==> r == Err::<(), VorbisError>(VorbisError::IoShort),
        r is Ok ==> {
            let n = bits_value(old(bs).data(), old(bs).pos() as int, 6) + 1;
            &&& final(bs).pos() == old(bs).pos() + 6 + 16 * n
            &&& forall|i: int| 0 <= i < n ==> #[trigger] transform_at(old(bs).data(), old(bs).pos() as int, i) == 0
        },
        old(bs).remaining() >= 6 ==> ({
            let sc = transforms_scan(old(bs).data(), old(bs).pos() as int, bits_value(old(bs).data(), old(bs).pos() as int, 6) + 1, 0);
            &&& (r is Ok <==> sc is None)
            &&& r is Err ==> r->Err_0 == sc->Some_0
        }),
{
    proof {
        vstd::arithmetic::power2::lemma2_to64();
    }
    let count = match bs.read_bits_leq32(6) {
        Ok(v) => v + 1,
        Err(e) => return Err(e),
    };
    let ghost start = bs.pos() - 6;
    let mut i: u32 = 0;
    while i < count
        invariant
            bs.wf(),
            bs.data() == old(bs).data(),
            start == old(bs).pos(),
            i <= count,
            count == bits_value(old(bs).data(), old(bs).pos() as int, 6) + 1,
            count <= 64,
            bs.pos() == start + 6 + 16 * i,
            old(bs).remaining() >= 6,
            forall|j: int| 0 <= j < i ==> #[trigger] transform_at(old(bs).data(), start as int, j) == 0,
            transforms_scan(old(bs).data(), start as int, count as nat, 0) == transforms_scan(old(bs).data(), start as int, count as nat, i as int),
        decreases count - i,
    {
        let v = match bs.read_bits_leq32(16) {
            Ok(v) => v,
            Err(e) => return Err(e),
        };
        proof {
            vstd::arithmetic::power2::lemma2_to64();
        }
        if v != 0 {
            return Err(VorbisError::InvalidHeader(HeaderFault::TimeDomainTransform));
        }
        i = i + 1;
    }
    Ok(())
}

} // verus!

verus! {

/// The coupling pair `i` of a list that starts at bit `start`, with
/// `cb` bits per channel number.
pub open spec fn couple_at(data: Seq<u8>, start: int, cb: nat, i: int) -> ChannelCouple {
    let at = start + 2 * cb * i;
    ChannelCouple { magnitude_ch: bits_value(data, at, cb) as u8, angle_ch: bits_value(data, at + cb, cb) as u8 }
}

/// The first fault among coupling pairs `i..steps`, if any.
pub open spec fn couplings_scan(data: Seq<u8>, start: int, cb: nat, steps: nat, n_channels: nat, i: int) -> Option<VorbisError>
    decreases steps - i,
{
    if i < 0 || i >= steps {
        None
    } else if start + 2 * cb * (i + 1) > 8 * data.len() {
        Some(VorbisError::IoShort)
    } else if !couple_wf(couple_at(data, start, cb, i), n_channels) {
        Some(VorbisError::InvalidMapping)
    } else {
        couplings_scan(data, start, cb, steps, n_channels, i + 1)
    }
}

/// The submap number of channel `i` in a multiplex list at bit `start`.
pub open spec fn mux_at(data: Seq<u8>, start: int, i: int) -> u8 {
    bits_value(data, start + 4 * i, 4) as u8
}

/// The first fault among the multiplex entries `i..n`, if any.
pub open spec fn mux_scan(data: Seq<u8>, start: int, n: nat, n_submaps: nat, i: int) -> Option<VorbisError>
    decreases n - i,
{
    if i < 0 || i >= n {
        None
    } else if start + 4 * (i + 1) > 8 * data.len() {
        Some(VorbisError::IoShort)
    } else if mux_at(data, start, i) >= n_submaps {
        Some(VorbisError::InvalidMapping)
    } else {
        mux_scan(data, start, n, n_submaps, i + 1)
    }
}

/// Submap `j` of a list at bit `start`: an unused byte, a floor, a residue.
pub open spec fn submap_at(data: Seq<u8>, start: int, j: int) -> SubMap {
    SubMap { floor: bits_value(data, start + 24 * j + 8, 8) as u8, residue: bits_value(data, start + 24 * j + 16, 8) as u8 }
}

/// The first fault among submaps `j..count`, if any.
pub open spec fn submaps_scan(data: Seq<u8>, start: int, count: nat, n_floors: nat, n_residues: nat, j: int) -> Option<VorbisError>
    decreases count - j,
{
    if j < 0 || j >= count {
        None
    } else if start + 24 * j + 16 > 8 * data.len() {
        Some(VorbisError::IoShort)
    } else if submap_at(data, start, j).floor >= n_floors {
        Some(VorbisError::InvalidMapping)
    } else if start + 24 * j + 24 > 8 * data.len() {
        Some(VorbisError::IoShort)
    } else if submap_at(data, start, j).residue >= n_residues {
        Some(VorbisError::InvalidMapping)
    } else {
        submaps_scan(data, start, count, n_floors, n_residues, j + 1)
    }
}

/// What remains of a type 0 mapping from its reserved bits at `q2` on,
/// after its couplings `cs`: the multiplex and the submaps.
pub open spec fn mapping0_tail(data: Seq<u8>, q2: int, n_sub: nat, cs: Seq<ChannelCouple>, n_channels: nat, n_floors: nat, n_residues: nat) -> Result<
    (Seq<ChannelCouple>, Seq<u8>, Seq<SubMap>),
    VorbisError,
> {
    let q3 = q2 + 2;
    let q4 = if n_sub > 1 { q3 + 4 * n_channels } else { q3 };
    if q2 + 2 > 8 * data.len() {
        Err(VorbisError::IoShort)
    } else if bits_value(data, q2, 2) != 0 {
        Err(VorbisError::InvalidMapping)
    } else if n_sub > 1 && mux_scan(data, q3, n_channels, n_sub, 0) is Some {
        Err(mux_scan(data, q3, n_channels, n_sub, 0)->Some_0)
    } else if submaps_scan(data, q4, n_sub, n_floors, n_residues, 0) is Some {
        Err(submaps_scan(data, q4, n_sub, n_floors, n_residues, 0)->Some_0)
    } else {
        Ok((
            cs,
            if n_sub > 1 { Seq::new(n_channels, |i: int| mux_at(data, q3, i)) } else { Seq::new(n_channels, |i: int| 0u8) },
            Seq::new(n_sub, |j: int| submap_at(data, q4, j)),
        ))
    }
}

/// Where a type 0 mapping ends, given where its reserved bits start.
pub open spec fn mapping0_tail_end(q2: int, n_sub: nat, n_channels: nat) -> int {
    q2 + 2 + (if n_sub > 1 { 4 * n_channels } else { 0 }) + 24 * n_sub
}

/// Where a type 0 mapping at bit `p` ends.
pub open spec fn mapping0_end(data: Seq<u8>, p: int, n_channels: nat) -> int {
    let n_sub: nat = if bit_at(data, p) { bits_value(data, p + 1, 4) + 1 } else { 1 };
    let q = if bit_at(data, p) { p + 5 } else { p + 1 };
    let cb = spec_ilog((n_channels - 1) as nat);
    let steps: nat = bits_value(data, q + 1, 8) + 1;
    let q2 = if bit_at(data, q) { q + 9 + 2 * cb * steps } else { q + 1 };
    mapping0_tail_end(q2, n_sub, n_channels)
}

/// A type 0 mapping from its coupling flag at bit `q` on.
pub open spec fn mapping0_from_couplings(data: Seq<u8>, q: int, n_sub: nat, n_channels: nat, n_floors: nat, n_residues: nat) -> Result<
    (Seq<ChannelCouple>, Seq<u8>, Seq<SubMap>),
    VorbisError,
> {
    let end = 8 * data.len();
    let cb = spec_ilog((n_channels - 1) as nat);
    let steps: nat = bits_value(data, q + 1, 8) + 1;
    let cstart = q + 9;
    if q + 1 > end {
        Err(VorbisError::IoShort)
    } else if !bit_at(data, q) {
        mapping0_tail(data, q + 1, n_sub, Seq::empty(), n_channels, n_floors, n_residues)
    } else if q + 9 > end {
        Err(VorbisError::IoShort)
    } else if couplings_scan(data, cstart, cb, steps, n_channels, 0) is Some {
        Err(couplings_scan(data, cstart, cb, steps, n_channels, 0)->Some_0)
    } else {
        mapping0_tail(
            data,
            cstart + 2 * cb * steps,
            n_sub,
            Seq::new(steps, |i: int| couple_at(data, cstart, cb, i)),
            n_channels,
            n_floors,
            n_residues,
        )
    }
}

/// What a type 0 mapping at bit `p` holds: couplings, multiplex and submaps.
pub open spec fn mapping0_result(data: Seq<u8>, p: int, n_channels: nat, n_floors: nat, n_residues: nat) -> Result<
    (Seq<ChannelCouple>, Seq<u8>, Seq<SubMap>),
    VorbisError,
> {
    if p + 1 > 8 * data.len() {
        Err(VorbisError::IoShort)
    } else if !bit_at(data, p) {
        mapping0_from_couplings(data, p + 1, 1, n_channels, n_floors, n_residues)
    } else if p + 5 > 8 * data.len() {
        Err(VorbisError::IoShort)
    } else {
        mapping0_from_couplings(data, p + 5, bits_value(data, p + 1, 4) + 1, n_channels, n_floors, n_residues)
    }
}

/// Reads `steps` coupling pairs of `cb` bits per channel number.
fn read_couplings(bs: &mut BitReader, steps: u32, cb: u32, audio_channels: u8) -> (r: Result<Vec<ChannelCouple>, VorbisError>)
    requires
        old(bs).wf(),
        steps <= 256,
        cb <= 8,
        audio_channels >= 1,
    ensures
        final(bs).wf(),
        final(bs).data() == old(bs).data(),
        ({
            let sc = couplings_scan(old(bs).data(), old(bs).pos() as int, cb as nat, steps as nat, audio_channels as nat, 0);
            &&& (r is Ok <==> sc is None)
            &&& r is Err ==> r->Err_0 == sc->Some_0
            &&& r is Ok ==> r->Ok_0@ == Seq::new(steps as nat, |k: int| couple_at(old(bs).data(), old(bs).pos() as int, cb as nat, k))
                && final(bs).pos() == old(bs).pos() + 2 * cb * steps
        }),
        r is Ok ==> forall|j: int| 0 <= j < r->Ok_0@.len() ==> couple_wf(#[trigger] r->Ok_0@[j], audio_channels as nat),
{
    let ghost data = old(bs).data();
    let ghost start = old(bs).pos() as int;
    let ghost n = audio_channels as nat;
    let mut couplings: Vec<ChannelCouple> = Vec::new();
    let mut i: u32 = 0;
    while i < steps
        invariant
            bs.wf(),
            bs.data() == data,
            data == old(bs).data(),
            start == old(bs).pos(),
            i <= steps <= 256,
            cb <= 8,
            n == audio_channels as nat,
            bs.pos() == start + 2 * cb * i,
            couplings@ == Seq::new(i as nat, |k: int| couple_at(data, start, cb as nat, k)),
            couplings_scan(data, start, cb as nat, steps as nat, n, 0) == couplings_scan(data, start, cb as nat, steps as nat, n, i as int),
            forall|j: int| 0 <= j < couplings@.len() ==> couple_wf(#[trigger] couplings@[j], n),
        decreases steps - i,
    {
        proof {
            vstd::arithmetic::power2::lemma2_to64();
            if cb < 8 {
                vstd::arithmetic::power2::lemma_pow2_strictly_increases(cb as nat, 8);
            }
            assert(start + 2 * cb * (i + 1) == bs.pos() + 2 * cb) by (nonlinear_arith)
                requires bs.pos() == start + 2 * cb * i;
        }
        let magnitude_ch = match bs.read_bits_leq32(cb) {
            Ok(v) => v as u8,
            Err(e) => return Err(e),
        };
        let angle_ch = match bs.read_bits_leq32(cb) {
            Ok(v) => v as u8,
            Err(e) => return Err(e),
        };
        let c = ChannelCouple { magnitude_ch, angle_ch };
        assert(c == couple_at(data, start, cb as nat, i as int));
        if magnitude_ch == angle_ch || magnitude_ch >= audio_channels || angle_ch >= audio_channels {
            return Err(VorbisError::InvalidMapping);
        }
        couplings.push(c);
        i = i + 1;
        proof {
            assert(couplings@ =~= Seq::new(i as nat, |k: int| couple_at(data, start, cb as nat, k)));
        }
    }
    Ok(couplings)
}

/// Reads the submap number of each of `audio_channels` channels.
fn read_multiplex(bs: &mut BitReader, audio_channels: u8, num_submaps: u8) -> (r: Result<Vec<u8>, VorbisError>)
    requires
        old(bs).wf(),
        2 <= num_submaps <= 16,
    ensures
        final(bs).wf(),
        final(bs).data() == old(bs).data(),
        ({
            let sc = mux_scan(old(bs).data(), old(bs).pos() as int, audio_channels as nat, num_submaps as nat, 0);
            &&& (r is Ok <==> sc is None)
            &&& r is Err ==> r->Err_0 == sc->Some_0
            &&& r is Ok ==> r->Ok_0@ == Seq::new(audio_channels as nat, |k: int| mux_at(old(bs).data(), old(bs).pos() as int, k))
                && final(bs).pos() == old(bs).pos() + 4 * audio_channels
        }),
        r is Ok ==> forall|j: int| 0 <= j < r->Ok_0@.len() ==> #[trigger] r->Ok_0@[j] < num_submaps,
{
    let ghost data = old(bs).data();
    let ghost start = old(bs).pos() as int;
    let mut multiplex: Vec<u8> = Vec::new();
    let mut c: u8 = 0;
    while c < audio_channels
        invariant
            bs.wf(),
            bs.data() == data,
            data == old(bs).data(),
            start == old(bs).pos(),
            c <= audio_channels,
            2 <= num_submaps <= 16,
            bs.pos() == start + 4 * c,
            multiplex@ == Seq::new(c as nat, |k: int| mux_at(data, start, k)),
            mux_scan(data, start, audio_channels as nat, num_submaps as nat, 0)
                == mux_scan(data, start, audio_channels as nat, num_submaps as nat, c as int),
            forall|j: int| 0 <= j < multiplex@.len() ==> #[trigger] multiplex@[j] < num_submaps,
        decreases audio_channels - c,
    {
        proof {
            vstd::arithmetic::power2::lemma2_to64();
        }
        let mux = match bs.read_bits_leq32(4) {
            Ok(v) => v as u8,
            Err(e) => return Err(e),
        };
        if mux >= num_submaps {
            return Err(VorbisError::InvalidMapping);
        }
        multiplex.push(mux);
        c = c + 1;
        proof {
            assert(multiplex@ =~= Seq::new(c as nat, |k: int| mux_at(data, start, k)));
        }
    }
    Ok(multiplex)
}

/// Reads `num_submaps` submaps and checks their floor and residue numbers.
fn read_submaps(bs: &mut BitReader, num_submaps: u8, max_floor: u8, max_residue: u8) -> (r: Result<Vec<SubMap>, VorbisError>)
    requires
        old(bs).wf(),
    ensures
        final(bs).wf(),
        final(bs).data() == old(bs).data(),
        ({
            let sc = submaps_scan(old(bs).data(), old(bs).pos() as int, num_submaps as nat, max_floor as nat, max_residue as nat, 0);
            &&& (r is Ok <==> sc is None)
            &&& r is Err ==> r->Err_0 == sc->Some_0
            &&& r is Ok ==> r->Ok_0@ == Seq::new(num_submaps as nat, |k: int| submap_at(old(bs).data(), old(bs).pos() as int, k))
                && final(bs).pos() == old(bs).pos() + 24 * num_submaps
        }),
        r is Ok ==> forall|j: int| 0 <= j < r->Ok_0@.len() ==> (#[trigger] r->Ok_0@[j]).floor < max_floor
            && r->Ok_0@[j].residue < max_residue,
{
    let ghost data = old(bs).data();
    let ghost start = old(bs).pos() as int;
    let mut submaps: Vec<SubMap> = Vec::new();
    let mut s: u8 = 0;
    while s < num_submaps
        invariant
            bs.wf(),
            bs.data() == data,
            data == old(bs).data(),
            start == old(bs).pos(),
            s <= num_submaps,
            bs.pos() == start + 24 * s,
            submaps@ == Seq::new(s as nat, |k: int| submap_at(data, start, k)),
            submaps_scan(data, start, num_submaps as nat, max_floor as nat, max_residue as nat, 0)
                == submaps_scan(data, start, num_submaps as nat, max_floor as nat, max_residue as nat, s as int),
            forall|j: int| 0 <= j < submaps@.len() ==> (#[trigger] submaps@[j]).floor < max_floor
                && submaps@[j].residue < max_residue,
        decreases num_submaps - s,
    {
        proof {
            vstd::arithmetic::power2::lemma2_to64();
        }
        // The time configuration placeholder, unused.
        match bs.read_bits_leq32(8) {
            Ok(_) => {},
            Err(e) => return Err(e),
        }
        let floor = match bs.read_bits_leq32(8) {
            Ok(v) => v as u8,
            Err(e) => return Err(e),
        };
        if floor >= max_floor {
            return Err(VorbisError::InvalidMapping);
        }
        let residue = match bs.read_bits_leq32(8) {
            Ok(v) => v as u8,
            Err(e) => return Err(e),
        };
        if residue >= max_residue {
            return Err(VorbisError::InvalidMapping);
        }
        submaps.push(SubMap { floor, residue });
        s = s + 1;
        proof {
            assert(submaps@ =~= Seq::new(s as nat, |k: int| submap_at(data, start, k)));
        }
    }
    Ok(submaps)
}

/// Reads the reserved bits, the multiplex and the submaps of a type 0
/// mapping whose couplings have been read.
fn read_mapping_tail(
    bs: &mut BitReader,
    num_submaps: u8,
    couplings: Vec<ChannelCouple>,
    audio_channels: u8,
    max_floor: u8,
    max_residue: u8,
) -> (r: Result<Mapping, VorbisError>)
    requires
        old(bs).wf(),
        1 <= num_submaps <= 16,
        audio_channels >= 1,
        couplings@.len() <= 256,
        forall|j: int| 0 <= j < couplings@.len() ==> couple_wf(#[trigger] couplings@[j], audio_channels as nat),
    ensures
        final(bs).wf(),
        final(bs).data() == old(bs).data(),
        ({
            let spec = mapping0_tail(
                old(bs).data(),
                old(bs).pos() as int,
                num_submaps as nat,
                couplings@,
                audio_channels as nat,
                max_floor as nat,
                max_residue as nat,
            );
            &&& (r is Ok <==> spec is Ok)
            &&& r is Ok ==> (r->Ok_0.couplings@, r->Ok_0.multiplex@, r->Ok_0.submaps@) == spec->Ok_0
            &&& r is Err ==> r->Err_0 == spec->Err_0
        }),
        r is Ok ==> r->Ok_0.wf(audio_channels as nat, max_floor as nat, max_residue as nat),
        r is Ok ==> final(bs).pos() == mapping0_tail_end(old(bs).pos() as int, num_submaps as nat, audio_channels as nat),
{
    proof {
        vstd::arithmetic::power2::lemma2_to64();
    }
    let reserved = match bs.read_bits_leq32(2) {
        Ok(v) => v,
        Err(e) => return Err(e),
    };
    if reserved != 0 {
        return Err(VorbisError::InvalidMapping);
    }
    let multiplex = if num_submaps > 1 {
        match read_multiplex(bs, audio_channels, num_submaps) {
            Ok(m) => m,
            Err(e) => return Err(e),
        }
    } else {
        let mut m: Vec<u8> = Vec::new();
        let mut c: u8 = 0;
        while c < audio_channels
            invariant
                c <= audio_channels,
                m@ == Seq::new(c as nat, |k: int| 0u8),
            decreases audio_channels - c,
        {
            m.push(0);
            c = c + 1;
            proof {
                assert(m@ =~= Seq::new(c as nat, |k: int| 0u8));
            }
        }
        m
    };
    let submaps = match read_submaps(bs, num_submaps, max_floor, max_residue) {
        Ok(s) => s,
        Err(e) => return Err(e),
    };
    Ok(Mapping { couplings, multiplex, submaps })
}


/// Reads a type 0 channel mapping for a stream of `audio_channels` channels.
#[verifier::rlimit(40)]
pub fn read_mapping_type0(bs: &mut BitReader, audio_channels: u8, max_floor: u8, max_residue: u8) -> (r: Result<Mapping, VorbisError>)
    requires
        old(bs).wf(),
        audio_channels >= 1,
    ensures
        final(bs).wf(),
        final(bs).data() == old(bs).data(),
        ({
            let spec = mapping0_result(old(bs).data(), old(bs).pos() as int, audio_channels as nat, max_floor as nat, max_residue as nat);
            &&& (r is Ok <==> spec is Ok)
            &&& r is Ok ==> (r->Ok_0.couplings@, r->Ok_0.multiplex@, r->Ok_0.submaps@) == spec->Ok_0
            &&& r is Err ==> r->Err_0 == spec->Err_0
        }),
        r is Ok ==> r->Ok_0.wf(audio_channels as nat, max_floor as nat, max_residue as nat),
        r is Ok ==> final(bs).pos() == mapping0_end(old(bs).data(), old(bs).pos() as int, audio_channels as nat),
{
    let ghost data = old(bs).data();
    let ghost p = old(bs).pos() as int;
    proof {
        vstd::arithmetic::power2::lemma2_to64();
    }
    let has_submaps = match bs.read_bit() {
        Ok(b) => b,
        Err(e) => return Err(e),
    };
    let num_submaps: u8 = if has_submaps {
        match bs.read_bits_leq32(4) {
            Ok(v) => v as u8 + 1,
            Err(e) => return Err(e),
        }
    } else {
        1
    };
    let has_couplings = match bs.read_bit() {
        Ok(b) => b,
        Err(e) => return Err(e),
    };
    let coupling_bits = ilog((audio_channels - 1) as u32);
    proof {
        crate::bits::lemma_ilog_bound((audio_channels - 1) as nat, 8);
    }
    let couplings = if has_couplings {
        let coupling_steps: u32 = match bs.read_bits_leq32(8) {
            Ok(v) => v + 1,
            Err(e) => return Err(e),
        };
        match read_couplings(bs, coupling_steps, coupling_bits, audio_channels) {
            Ok(c) => c,
            Err(e) => return Err(e),
        }
    } else {
        Vec::new()
    };
    read_mapping_tail(bs, num_submaps, couplings, audio_channels, max_floor, max_residue)
}

/// Reads one mapping; type 0 is the only one defined.
pub fn read_mapping(bs: &mut BitReader, audio_channels: u8, max_floor: u8, max_residue: u8) -> (r: Result<Mapping, VorbisError>)
    requires
        old(bs).wf(),
        audio_channels >= 1,
    ensures
        final(bs).wf(),
        final(bs).data() == old(bs).data(),
        old(bs).remaining() < 16 ==> r == Err::<Mapping, VorbisError>(VorbisError::IoShort),
        old(bs).remaining() >= 16 && bits_value(old(bs).data(), old(bs).pos() as int, 16) != 0
            ==> r == Err::<Mapping, VorbisError>(VorbisError::InvalidMapping),
        old(bs).remaining() >= 16 && bits_value(old(bs).data(), old(bs).pos() as int, 16) == 0 ==> ({
            let spec = mapping0_result(old(bs).data(), (old(bs).pos() + 16) as int, audio_channels as nat, max_floor as nat, max_residue as nat);
            &&& (r is Ok <==> spec is Ok)
            &&& r is Ok ==> (r->Ok_0.couplings@, r->Ok_0.multiplex@, r->Ok_0.submaps@) == spec->Ok_0
            &&& r is Err ==> r->Err_0 == spec->Err_0
            &&& r is Ok ==> final(bs).pos() == mapping0_end(old(bs).data(), (old(bs).pos() + 16) as int, audio_channels as nat)
        }),
        r is Ok ==> r->Ok_0.wf(audio_channels as nat, max_floor as nat, max_residue as nat),
{
    let mapping_type = match bs.read_bits_leq32(16) {
        Ok(v) => v,
        Err(e) => return Err(e),
    };
    proof {
        vstd::arithmetic::power2::lemma2_to64();
    }
    if mapping_type != 0 {
        return Err(VorbisError::InvalidMapping);
    }
    read_mapping_type0(bs, audio_channels, max_floor, max_residue)
}

/// The outcome of reading one mapping at bit `p` (its type field): its
/// couplings, multiplex and submaps, and where it ends.
pub open spec fn mapping_item(data: Seq<u8>, p: int, n_channels: nat, n_floors: nat, n_residues: nat) -> Result<
    ((Seq<ChannelCouple>, Seq<u8>, Seq<SubMap>), int),
    VorbisError,
> {
    if p + 16 > 8 * data.len() {
        Err(VorbisError::IoShort)
    } else if bits_value(data, p, 16) != 0 {
        Err(VorbisError::InvalidMapping)
    } else {
        match mapping0_result(data, p + 16, n_channels, n_floors, n_residues) {
            Err(e) => Err(e),
            Ok(m) => Ok((m, mapping0_end(data, p + 16, n_channels))),
        }
    }
}

/// The mappings of a list of `n` more from bit `pos`, appended to `acc`.
pub open spec fn mappings_read(data: Seq<u8>, pos: int, n: nat, n_channels: nat, n_floors: nat, n_residues: nat, acc: Seq<
    (Seq<ChannelCouple>, Seq<u8>, Seq<SubMap>),
>) -> Result<(Seq<(Seq<ChannelCouple>, Seq<u8>, Seq<SubMap>)>, int), VorbisError>
    decreases n,
{
    if n == 0 {
        Ok((acc, pos))
    } else {
        match mapping_item(data, pos, n_channels, n_floors, n_residues) {
            Err(e) => Err(e),
            Ok((m, end)) => mappings_read(data, end, (n - 1) as nat, n_channels, n_floors, n_residues, acc.push(m)),
        }
    }
}

/// The couplings, multiplex and submaps of a mapping.
pub open spec fn mapping_view(m: Mapping) -> (Seq<ChannelCouple>, Seq<u8>, Seq<SubMap>) {
    (m.couplings@, m.multiplex@, m.submaps@)
}

/// Reads the mapping count and then each mapping.
pub fn read_mappings(bs: &mut BitReader, audio_channels: u8, max_floor: u8, max_residue: u8) -> (r: Result<Vec<Mapping>, VorbisError>)
    requires
        old(bs).wf(),
        audio_channels >= 1,
    ensures
        final(bs).wf(),
        final(bs).data() == old(bs).data(),
        old(bs).remaining() < 6 ==> r == Err::<Vec<Mapping>, VorbisError>(VorbisError::IoShort),
        r is Ok ==> {
            let v = r->Ok_0@;
            &&& v.len() == bits_value(old(bs).data(), old(bs).pos() as int, 6) + 1
            &&& 1 <= v.len() <= 64
            &&& forall|i: int| 0 <= i < v.len() ==> (#[trigger] v[i]).wf(audio_channels as nat, max_floor as nat, max_residue as nat)
        },
        old(bs).remaining() >= 6 ==> ({
            let data = old(bs).data();
            let spec = mappings_read(
                data,
                (old(bs).pos() + 6) as int,
                bits_value(data, old(bs).pos() as int, 6) + 1,
                audio_channels as nat,
                max_floor as nat,
                max_residue as nat,
                Seq::empty(),
            );
            &&& (r is Ok <==> spec is Ok)
            &&& r is Err ==> r->Err_0 == spec->Err_0
            &&& r is Ok ==> r->Ok_0@.map_values(|m: Mapping| mapping_view(m)) == spec->Ok_0.0 && final(bs).pos() == spec->Ok_0.1
        }),
{
    proof {
        vstd::arithmetic::power2::lemma2_to64();
    }
    let count = match bs.read_bits_leq32(6) {
        Ok(v) => v + 1,
        Err(e) => return Err(e),
    };
    let mut mappings: Vec<Mapping> = Vec::new();
    proof {
        assert(mappings@.map_values(|m: Mapping| mapping_view(m)) =~= Seq::<(Seq<ChannelCouple>, Seq<u8>, Seq<SubMap>)>::empty());
    }
    let mut i: u32 = 0;
    while i < count
        invariant
            bs.wf(),
            bs.data() == old(bs).data(),
            audio_channels >= 1,
            i <= count,
            count == bits_value(old(bs).data(), old(bs).pos() as int, 6) + 1,
            count <= 64,
            old(bs).remaining() >= 6,
            mappings@.len() == i,
            forall|j: int| 0 <= j < mappings@.len() ==> (#[trigger] mappings@[j]).wf(audio_channels as nat, max_floor as nat, max_residue as nat),
            mappings_read(
                old(bs).data(),
                (old(bs).pos() + 6) as int,
                count as nat,
                audio_channels as nat,
                max_floor as nat,
                max_residue as nat,
                Seq::empty(),
            ) == mappings_read(
                old(bs).data(),
                bs.pos() as int,
                (count - i) as nat,
                audio_channels as nat,
                max_floor as nat,
                max_residue as nat,
                mappings@.map_values(|m: Mapping| mapping_view(m)),
            ),
        decreases count - i,
    {
        let m = match read_mapping(bs, audio_channels, max_floor, max_residue) {
            Ok(m) => m,
            Err(e) => return Err(e),
        };
        let ghost before = mappings@;
        mappings.push(m);
        i = i + 1;
        proof {
            assert(mappings@.map_values(|m: Mapping| mapping_view(m)) =~= before.map_values(|m: Mapping| mapping_view(m)).push(
                mapping_view(m),
            ));
        }
    }
    Ok(mappings)
}

} // verus!
