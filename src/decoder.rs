use vstd::prelude::*;
use crate::bits::{BitReader, bit_at, bits_value, ilog, spec_ilog};
use crate::error::VorbisError;
use crate::ident::{IDENT_HEADER_LEN, IdentHeader, ident_result, read_ident_header};
use crate::layout::{ChannelPosition, layout_of, mapping0_channel_count_to_channels};
use crate::floor::{ChannelFloor, ChannelFloorView, Floor, channel_floor_result, channel_floor_view};
use crate::floor1_curve::floor1_synthesis;
use crate::residue::PartitionRead;
use crate::mapping::{ChannelCouple, Mapping, Mode};
use crate::setup::{Setup, read_setup, setup_outcome, setup_result, tail_of};

verus! {

/// Shape of the window applied to a block, named after the sizes of the
/// previous, current and next blocks.
#[derive(Clone, Copy, Debug, PartialEq, Eq, Structural)]
pub enum WindowShape {
    Short,
    ShortLongShort,
    ShortLongLong,
    LongLongShort,
    LongLongLong,
}

/// What the first bits of an audio packet select.
#[derive(Clone, Copy, Debug, PartialEq, Eq, Structural)]
pub struct PacketHeader {
    pub mode_number: usize,
    pub window: WindowShape,
    /// Block size exponent of this packet.
    pub bs_exp: u8,
    /// Number of bits the header takes.
    pub header_bits: usize,
}

/// The part of the previous block that overlaps the next one.
#[derive(Clone, Copy, Debug, PartialEq, Eq, Structural)]
pub struct LappingState {
    pub prev_block_size: usize,
    pub prev_window: WindowShape,
}

/// The floors of one audio packet, one per channel, and which channels
/// carry no audio.
#[derive(Clone, Debug)]
pub struct PacketFloors {
    pub floors: Vec<ChannelFloor>,
    pub do_not_decode: Vec<bool>,
    /// For each channel with a piecewise floor, its curve as indices into
    /// the inverse dB table over half a block; empty for other channels.
    pub curves: Vec<Vec<u8>>,
}

/// The floors and residue entries of one audio packet; `residues` holds one
/// list per submap, over the channels of that submap in channel order.
#[derive(Clone, Debug)]
pub struct PacketSpectrum {
    pub floors: PacketFloors,
    pub residues: Vec<Vec<PartitionRead>>,
}

/// A header that reads successfully takes at most nine bits, all present.
pub proof fn lemma_header_bits(data: Seq<u8>, modes: Seq<Mode>, ident: IdentHeader)
    requires
        1 <= modes.len() <= 64,
    ensures
        header_result(data, modes, ident) is Ok ==> {
            let h = header_result(data, modes, ident)->Ok_0;
            &&& h.header_bits <= 9
            &&& h.header_bits <= 8 * data.len()
            &&& h.mode_number < modes.len()
            &&& ident.wf() ==> h.bs_exp <= 13
        },
{
    vstd::arithmetic::power2::lemma2_to64();
    crate::bits::lemma_ilog_bound((modes.len() - 1) as nat, 6);
}

/// The floors of channels `c..n` of a packet from bit `pos`, each through
/// the floor its submap names, appended to `acc`, and where they end.
pub open spec fn channel_floors_read(setup: Setup, mapping: Mapping, data: Seq<u8>, pos: int, c: nat, n: nat, acc: Seq<ChannelFloorView>) -> Result<
    (Seq<ChannelFloorView>, int),
    VorbisError,
>
    decreases n - c,
{
    if c >= n {
        Ok((acc, pos))
    } else {
        let floor = setup.floors@[mapping.submaps@[mapping.multiplex@[c as int] as int].floor as int];
        match channel_floor_result(floor, setup.codebooks@, data, pos) {
            Err(e) => Err(e),
            Ok((v, q)) => channel_floors_read(setup, mapping, data, q, c + 1, n, acc.push(v)),
        }
    }
}

/// Every channel's floor is unused.
pub open spec fn all_unused(views: Seq<ChannelFloorView>) -> bool {
    forall|c: int| 0 <= c < views.len() ==> (#[trigger] views[c]).0 == 0
}

/// Propagation leaves flags that are all set as they are.
pub proof fn lemma_propagate_all_set(cs: Seq<ChannelCouple>, d: Seq<bool>)
    requires
        forall|i: int| 0 <= i < d.len() ==> #[trigger] d[i],
        forall|i: int| 0 <= i < cs.len() ==> crate::mapping::couple_wf(#[trigger] cs[i], d.len()),
    ensures
        propagate_all(cs, d) == d,
    decreases cs.len(),
{
    if cs.len() > 0 {
        lemma_propagate_all_set(cs.drop_last(), d);
    }
}

/// The block layout of a decoded packet.
#[derive(Clone, Copy, Debug, PartialEq, Eq, Structural)]
pub struct PacketInfo {
    pub header: PacketHeader,
    /// Block size `n` of this packet.
    pub block_size: usize,
    /// Samples emitted per channel for this packet.
    pub render_len: usize,
}

/// The long window shape chosen by the previous and next window flags.
pub open spec fn long_window(prev_flag: bool, next_flag: bool) -> WindowShape {
    if !prev_flag && !next_flag {
        WindowShape::ShortLongShort
    } else if !prev_flag && next_flag {
        WindowShape::ShortLongLong
    } else if prev_flag && !next_flag {
        WindowShape::LongLongShort
    } else {
        WindowShape::LongLongLong
    }
}

/// The outcome of reading an audio packet's header at bit 0 of `data`.
pub open spec fn header_result(data: Seq<u8>, modes: Seq<Mode>, ident: IdentHeader) -> Result<PacketHeader, VorbisError> {
    let avail = 8 * data.len();
    let mb = spec_ilog((modes.len() - 1) as nat);
    if avail < 1 {
        Err(VorbisError::IoShort)
    } else if bit_at(data, 0) {
        Err(VorbisError::PacketTypeMismatch)
    } else if avail < 1 + mb {
        Err(VorbisError::IoShort)
    } else {
        let m = bits_value(data, 1, mb);
        if m >= modes.len() {
            Err(VorbisError::InvalidMode)
        } else if !modes[m as int].block_flag {
            Ok(PacketHeader { mode_number: m as usize, window: WindowShape::Short, bs_exp: ident.bs0_exp, header_bits: (1 + mb) as usize })
        } else if avail < 3 + mb {
            Err(VorbisError::IoShort)
        } else {
            Ok(PacketHeader {
                mode_number: m as usize,
                window: long_window(bit_at(data, (1 + mb) as int), bit_at(data, (2 + mb) as int)),
                bs_exp: ident.bs1_exp,
                header_bits: (3 + mb) as usize,
            })
        }
    }
}

/// Samples emitted for a block of size `n` after `lapping`: none on the
/// first block, else a quarter of the two block sizes together.
pub open spec fn render_len_of(lapping: Option<LappingState>, n: nat) -> nat {
    match lapping {
        None => 0,
        Some(l) => ((l.prev_block_size + n) / 4) as nat,
    }
}

/// Block size for an exponent.
pub open spec fn block_size_of(exp: u8) -> nat {
    vstd::arithmetic::power2::pow2(exp as nat)
}

/// Reads the packet type bit, the mode number and, for a long block, the
/// two window flags.
pub fn read_packet_header(packet: &[u8], modes: &Vec<Mode>, ident: &IdentHeader) -> (r: Result<PacketHeader, VorbisError>)
    requires
        1 <= modes@.len() <= 64,
        8 * packet@.len() <= usize::MAX,
    ensures
        r == header_result(packet@, modes@, *ident),
{
    let mut bs = BitReader::new(vstd::slice::slice_to_vec(packet));
    let ghost data = packet@;
    let is_setup = match bs.read_bit() {
        Ok(b) => b,
        Err(e) => return Err(e),
    };
    if is_setup {
        return Err(VorbisError::PacketTypeMismatch);
    }
    let mode_bits = ilog((modes.len() - 1) as u32);
    proof {
        vstd::arithmetic::power2::lemma2_to64();
        crate::bits::lemma_ilog_bound((modes@.len() - 1) as nat, 6);
        crate::bits::lemma_bits_bound(data, 1, mode_bits as nat);
        if mode_bits < 6 {
            vstd::arithmetic::power2::lemma_pow2_strictly_increases(mode_bits as nat, 6);
        }
    }
    let m = match bs.read_bits_leq32(mode_bits) {
        Ok(v) => v as usize,
        Err(e) => return Err(e),
    };
    if m >= modes.len() {
        return Err(VorbisError::InvalidMode);
    }
    if !modes[m].block_flag {
        return Ok(PacketHeader { mode_number: m, window: WindowShape::Short, bs_exp: ident.bs0_exp, header_bits: 1 + mode_bits as usize });
    }
    let prev_flag = match bs.read_bit() {
        Ok(b) => b,
        Err(e) => return Err(e),
    };
    let next_flag = match bs.read_bit() {
        Ok(b) => b,
        Err(e) => return Err(e),
    };
    let window = if !prev_flag && !next_flag {
        WindowShape::ShortLongShort
    } else if !prev_flag && next_flag {
        WindowShape::ShortLongLong
    } else if prev_flag && !next_flag {
        WindowShape::LongLongShort
    } else {
        WindowShape::LongLongLong
    };
    Ok(PacketHeader { mode_number: m, window, bs_exp: ident.bs1_exp, header_bits: 3 + mode_bits as usize })
}

} // verus!

verus! {

/// The decoder's state after the packet and the result it hands back.
pub open spec fn decode_outcome(lapping: Option<LappingState>, modes: Seq<Mode>, ident: IdentHeader, packet: Seq<u8>) -> (
    Result<PacketInfo, VorbisError>,
    Option<LappingState>,
) {
    match header_result(packet, modes, ident) {
        Err(e) => (Err(e), lapping),
        Ok(h) => {
            let n = block_size_of(h.bs_exp);
            (
                Ok(PacketInfo { header: h, block_size: n as usize, render_len: render_len_of(lapping, n) as usize }),
                Some(LappingState { prev_block_size: n as usize, prev_window: h.window }),
            )
        },
    }
}

/// Block sizes are at most 8192.
pub proof fn lemma_block_size_bound(exp: u8)
    requires
        exp <= 13,
    ensures
        block_size_of(exp) <= 8192,
{
    vstd::arithmetic::power2::lemma2_to64();
    if exp < 13 {
        vstd::arithmetic::power2::lemma_pow2_strictly_increases(exp as nat, 13);
    }
}

/// `2^exp` for a block size exponent.
pub fn block_size(exp: u8) -> (r: usize)
    requires
        exp <= 13,
    ensures
        r == block_size_of(exp),
        r <= 8192,
{
    let mut n: usize = 1;
    let mut i: u8 = 0;
    proof {
        vstd::arithmetic::power2::lemma2_to64();
    }
    while i < exp
        invariant
            i <= exp <= 13,
            n == vstd::arithmetic::power2::pow2(i as nat),
            n <= 8192,
        decreases exp - i,
    {
        proof {
            vstd::arithmetic::power2::lemma_pow2_unfold((i + 1) as nat);
            vstd::arithmetic::power2::lemma2_to64();
            if i + 1 < 13 {
                vstd::arithmetic::power2::lemma_pow2_strictly_increases((i + 1) as nat, 13);
            }
        }
        n = n * 2;
        i = i + 1;
    }
    n
}

/// One step of the propagation: when exactly one channel of the pair is
/// unused, both become used.
pub open spec fn propagate_step(d: Seq<bool>, c: ChannelCouple) -> Seq<bool> {
    if d[c.magnitude_ch as int] != d[c.angle_ch as int] {
        d.update(c.magnitude_ch as int, false).update(c.angle_ch as int, false)
    } else {
        d
    }
}

/// The unused flags after every coupling of `cs` has been visited in order.
pub open spec fn propagate_all(cs: Seq<ChannelCouple>, d: Seq<bool>) -> Seq<bool>
    decreases cs.len(),
{
    if cs.len() == 0 {
        d
    } else {
        propagate_step(propagate_all(cs.drop_last(), d), cs.last())
    }
}

/// Non-zero vector propagation: within a coupled pair, a channel with a used
/// floor makes its partner decoded too.
pub fn propagate_nonzero(couplings: &Vec<ChannelCouple>, do_not_decode: &mut Vec<bool>)
    requires
        forall|i: int| 0 <= i < couplings@.len() ==> crate::mapping::couple_wf(#[trigger] couplings@[i], old(do_not_decode)@.len()),
    ensures
        final(do_not_decode)@ == propagate_all(couplings@, old(do_not_decode)@),
        final(do_not_decode)@.len() == old(do_not_decode)@.len(),
        forall|c: int| 0 <= c < final(do_not_decode)@.len() && #[trigger] final(do_not_decode)@[c] ==> old(do_not_decode)@[c],
{
    let mut i: usize = 0;
    while i < couplings.len()
        invariant
            i <= couplings@.len(),
            do_not_decode@.len() == old(do_not_decode)@.len(),
            forall|k: int| 0 <= k < couplings@.len() ==> crate::mapping::couple_wf(#[trigger] couplings@[k], old(do_not_decode)@.len()),
            do_not_decode@ == propagate_all(couplings@.take(i as int), old(do_not_decode)@),
            forall|c: int| 0 <= c < do_not_decode@.len() && #[trigger] do_not_decode@[c] ==> old(do_not_decode)@[c],
        decreases couplings@.len() - i,
    {
        let c = couplings[i];
        let m = c.magnitude_ch as usize;
        let a = c.angle_ch as usize;
        proof {
            assert(couplings@.take(i + 1).drop_last() == couplings@.take(i as int));
            assert(couplings@.take(i + 1).last() == c);
        }
        if do_not_decode[m] != do_not_decode[a] {
            do_not_decode.set(m, false);
            do_not_decode.set(a, false);
        }
        i = i + 1;
    }
    proof {
        assert(couplings@.take(couplings@.len() as int) == couplings@);
    }
}

} // verus!

verus! {

/// Tables and lapping state of one logical Vorbis stream.
pub struct VorbisDecoder {
    ident: IdentHeader,
    setup: Setup,
    layout: Vec<ChannelPosition>,
    lapping_state: Option<LappingState>,
}

/// A lapping state left by a block of this stream.
pub open spec fn lapping_wf(ident: IdentHeader, l: Option<LappingState>) -> bool {
    match l {
        None => true,
        Some(s) => s.prev_block_size == block_size_of(ident.bs0_exp) || s.prev_block_size == block_size_of(ident.bs1_exp),
    }
}

impl VorbisDecoder {
    /// The mapping an audio packet with header `header` uses.
    pub open spec fn mapping_of(&self, header: PacketHeader) -> Mapping {
        self.setup_spec().mappings@[self.modes_spec()[header.mode_number as int].mapping as int]
    }

    /// The floors of every channel of `packet` after its header, and where
    /// they end.
    pub open spec fn packet_floors_result(&self, packet: Seq<u8>, header: PacketHeader) -> Result<(Seq<ChannelFloorView>, int), VorbisError> {
        channel_floors_read(
            self.setup_spec(),
            self.mapping_of(header),
            packet,
            header.header_bits as int,
            0,
            self.ident_spec().n_channels as nat,
            Seq::empty(),
        )
    }

    pub closed spec fn ident_spec(&self) -> IdentHeader {
        self.ident
    }

    pub closed spec fn setup_spec(&self) -> Setup {
        self.setup
    }

    pub open spec fn modes_spec(&self) -> Seq<Mode> {
        self.setup_spec().modes@
    }

    pub closed spec fn layout_spec(&self) -> Seq<ChannelPosition> {
        self.layout@
    }

    pub closed spec fn lapping_spec(&self) -> Option<LappingState> {
        self.lapping_state
    }

    pub open spec fn wf(&self) -> bool {
        &&& self.ident_spec().wf()
        &&& self.setup_spec().wf(self.ident_spec())
        &&& self.layout_spec() == layout_of(self.ident_spec().n_channels)
        &&& self.ident_spec().n_channels <= 8
        &&& lapping_wf(self.ident_spec(), self.lapping_spec())
    }

    /// Builds a decoder from a parsed identification header and setup,
    /// before its first packet; more than eight channels have no layout and
    /// are refused.
    pub fn new(ident: IdentHeader, setup: Setup) -> (r: Result<VorbisDecoder, VorbisError>)
        requires
            ident.wf(),
            setup.wf(ident),
        ensures
            ident.n_channels <= 8 ==> r is Ok,
            ident.n_channels > 8 ==> r == Err::<VorbisDecoder, VorbisError>(VorbisError::Unsupported),
            r is Ok ==> {
                let d = r->Ok_0;
                &&& d.wf()
                &&& d.ident_spec() == ident
                &&& d.setup_spec() == setup
                &&& d.lapping_spec() is None
            },
    {
        let layout = match mapping0_channel_count_to_channels(ident.n_channels) {
            Ok(l) => l,
            Err(e) => return Err(e),
        };
        Ok(VorbisDecoder { ident, setup, layout, lapping_state: None })
    }

    /// Builds a decoder from the identification header followed by the
    /// setup header.
    pub fn try_new(extra_data: &[u8]) -> (r: Result<VorbisDecoder, VorbisError>)
        requires
            8 * extra_data@.len() <= usize::MAX,
        ensures
            ident_result(extra_data@) is Err ==> r == Err::<VorbisDecoder, VorbisError>(ident_result(extra_data@)->Err_0),
            ident_result(extra_data@) is Ok && extra_data@.len() == IDENT_HEADER_LEN
                ==> r == Err::<VorbisDecoder, VorbisError>(VorbisError::IoShort),
            r is Ok ==> {
                let d = r->Ok_0;
                &&& d.wf()
                &&& ident_result(extra_data@) == Ok::<IdentHeader, VorbisError>(d.ident_spec())
                &&& d.lapping_spec() is None
            },
            ident_result(extra_data@) is Ok ==> ({
                let h = ident_result(extra_data@)->Ok_0;
                let sb = extra_data@.subrange(IDENT_HEADER_LEN as int, extra_data@.len() as int);
                let st = setup_result(sb, h.n_channels as nat);
                &&& st is Err ==> r == Err::<VorbisDecoder, VorbisError>(st->Err_0)
                &&& st is Ok && h.n_channels <= 8 ==> r is Ok && setup_outcome(
                    sb,
                    h.n_channels as nat,
                    Ok::<Setup, VorbisError>(r->Ok_0.setup_spec()),
                )
                &&& st is Ok && h.n_channels > 8 ==> r == Err::<VorbisDecoder, VorbisError>(VorbisError::Unsupported)
            }),
    {
        let ident = match read_ident_header(extra_data) {
            Ok(i) => i,
            Err(e) => return Err(e),
        };
        let setup_bytes = tail_of(extra_data, IDENT_HEADER_LEN);
        let setup = match read_setup(setup_bytes.as_slice(), &ident) {
            Ok(s) => s,
            Err(e) => return Err(e),
        };
        VorbisDecoder::new(ident, setup)
    }

    /// The loudspeaker position of each channel.
    pub fn layout(&self) -> (r: &Vec<ChannelPosition>)
        ensures
            r@ == self.layout_spec(),
    {
        &self.layout
    }

    pub fn setup(&self) -> (r: &Setup)
        ensures
            *r == self.setup_spec(),
    {
        &self.setup
    }

    pub fn ident(&self) -> (r: IdentHeader)
        ensures
            r == self.ident_spec(),
    {
        self.ident
    }

    pub fn lapping_state(&self) -> (r: Option<LappingState>)
        ensures
            r == self.lapping_spec(),
    {
        self.lapping_state
    }

    /// Forgets the previous block, as after a seek.
    pub fn reset(&mut self)
        requires
            old(self).wf(),
        ensures
            final(self).wf(),
            final(self).lapping_spec() is None,
            final(self).ident_spec() == old(self).ident_spec(),
            final(self).setup_spec() == old(self).setup_spec(),
            final(self).layout_spec() == old(self).layout_spec(),
    {
        self.lapping_state = None;
    }

    /// Reads the header of an audio packet without changing the decoder.
    pub fn read_header(&self, packet: &[u8]) -> (r: Result<PacketHeader, VorbisError>)
        requires
            self.wf(),
            8 * packet@.len() <= usize::MAX,
        ensures
            r == header_result(packet@, self.modes_spec(), self.ident_spec()),
    {
        read_packet_header(packet, &self.setup.modes, &self.ident)
    }

    /// The floors of every channel and the unused flags after coupling
    /// propagation, as `decode_floors` and `decode_spectrum` promise them.
    pub open spec fn floors_ok(&self, header: PacketHeader, pf: PacketFloors) -> bool {
        let mapping = self.setup_spec().mappings@[self.modes_spec()[header.mode_number as int].mapping as int];
        &&& pf.floors@.len() == self.ident_spec().n_channels
        &&& pf.do_not_decode@.len() == pf.floors@.len()
        &&& pf.curves@.len() == pf.floors@.len()
        &&& forall|c: int| 0 <= c < pf.floors@.len() && (#[trigger] pf.floors@[c]) is Piecewise ==> {
            &&& pf.curves@[c]@.len() == block_size_of(header.bs_exp) / 2
            &&& forall|x: int| 0 <= x < pf.curves@[c]@.len() ==> pf.curves@[c]@[x] <= 255
        }
        &&& pf.do_not_decode@ == propagate_all(
            mapping.couplings@,
            Seq::new(pf.floors@.len(), |c: int| pf.floors@[c].spec_is_unused()),
        )
    }

    #[verifier::rlimit(80)]
    fn read_floors_at(&self, bs: &mut BitReader, header: &PacketHeader) -> (r: Result<PacketFloors, VorbisError>)
        requires
            self.wf(),
            old(bs).wf(),
            header.mode_number < self.modes_spec().len(),
            header.bs_exp <= 13,
        ensures
            final(bs).wf(),
            final(bs).data() == old(bs).data(),
            r is Ok ==> self.floors_ok(*header, r->Ok_0),
            r is Err ==> r->Err_0 == VorbisError::IoShort || r->Err_0 == VorbisError::InvalidCode
                || r->Err_0 == VorbisError::InvalidFloor,
            ({
                let spec = channel_floors_read(
                    self.setup_spec(),
                    self.mapping_of(*header),
                    old(bs).data(),
                    old(bs).pos() as int,
                    0,
                    self.ident_spec().n_channels as nat,
                    Seq::empty(),
                );
                &&& (r is Ok <==> spec is Ok)
                &&& r is Err ==> r->Err_0 == spec->Err_0
                &&& r is Ok ==> r->Ok_0.floors@.map_values(|f: ChannelFloor| channel_floor_view(f)) == spec->Ok_0.0
                    && final(bs).pos() == spec->Ok_0.1
            }),
    {
        let ghost data = old(bs).data();
        let ghost p0 = old(bs).pos() as int;
        let setup = &self.setup;
        let mode = setup.modes[header.mode_number];
        let mapping = &setup.mappings[mode.mapping as usize];
        let n = self.ident.n_channels as usize;
        proof {
            lemma_block_size_bound(header.bs_exp);
        }
        let n2 = block_size(header.bs_exp) / 2;
        let mut floors: Vec<ChannelFloor> = Vec::new();
        let mut unused: Vec<bool> = Vec::new();
        let mut curves: Vec<Vec<u8>> = Vec::new();
        proof {
            assert(floors@.map_values(|f: ChannelFloor| channel_floor_view(f)) =~= Seq::<ChannelFloorView>::empty());
        }
        let mut c: usize = 0;
        while c < n
            invariant
                bs.wf(),
                bs.data() == old(bs).data(),
                self.wf(),
                *setup == self.setup_spec(),
                n == self.ident_spec().n_channels,
                mapping.wf(n as nat, setup.floors@.len(), setup.residues@.len()),
                c <= n,
                floors@.len() == c,
                curves@.len() == c,
                n2 == block_size_of(header.bs_exp) / 2,
                n2 <= 4096,
                unused@ == Seq::new(c as nat, |k: int| floors@[k].spec_is_unused()),
                forall|k: int| 0 <= k < c && (#[trigger] floors@[k]) is Piecewise ==> {
                    &&& curves@[k]@.len() == n2
                    &&& forall|x: int| 0 <= x < curves@[k]@.len() ==> curves@[k]@[x] <= 255
                },
                data == old(bs).data(),
                p0 == old(bs).pos(),
                *mapping == self.mapping_of(*header),
                channel_floors_read(*setup, *mapping, data, p0, 0, n as nat, Seq::empty()) == channel_floors_read(
                    *setup,
                    *mapping,
                    data,
                    bs.pos() as int,
                    c as nat,
                    n as nat,
                    floors@.map_values(|f: ChannelFloor| channel_floor_view(f)),
                ),
            decreases n - c,
        {
            let submap = mapping.submaps[mapping.multiplex[c] as usize];
            let floor = &setup.floors[submap.floor as usize];
            let cf = match floor.read_channel(bs, &setup.codebooks) {
                Ok(f) => f,
                Err(e) => return Err(e),
            };
            // Several channels may share a floor, so its curve is drawn from
            // this channel's values before the next channel is read.
            let curve: Vec<u8> = match floor {
                Floor::Type1(f) => match &cf {
                    ChannelFloor::Piecewise { ys } => floor1_synthesis(f, ys, n2),
                    _ => Vec::new(),
                },
                _ => Vec::new(),
            };
            unused.push(cf.is_unused());
            let ghost before = floors@;
            let ghost v = channel_floor_view(cf);
            floors.push(cf);
            curves.push(curve);
            c = c + 1;
            proof {
                assert(floors@.map_values(|f: ChannelFloor| channel_floor_view(f)) =~= before.map_values(|f: ChannelFloor| channel_floor_view(f)).push(v));
            }
            proof {
                assert(unused@ =~= Seq::new(c as nat, |k: int| floors@[k].spec_is_unused()));
            }
        }
        propagate_nonzero(&mapping.couplings, &mut unused);
        Ok(PacketFloors { floors, do_not_decode: unused, curves })
    }

    /// Reads the floor of every channel of an audio packet whose header is
    /// `header`, each through the floor its submap names, and marks the
    /// channels to leave undecoded: those with an unused floor, unless
    /// coupled to a channel with a used one.
    pub fn decode_floors(&self, packet: &[u8], header: &PacketHeader) -> (r: Result<PacketFloors, VorbisError>)
        requires
            self.wf(),
            8 * packet@.len() <= usize::MAX,
            header_result(packet@, self.modes_spec(), self.ident_spec()) == Ok::<PacketHeader, VorbisError>(*header),
        ensures
            r is Ok ==> self.floors_ok(*header, r->Ok_0),
            r is Err ==> r->Err_0 == VorbisError::IoShort || r->Err_0 == VorbisError::InvalidCode
                || r->Err_0 == VorbisError::InvalidFloor,
            ({
                let spec = self.packet_floors_result(packet@, *header);
                &&& (r is Ok <==> spec is Ok)
                &&& r is Err ==> r->Err_0 == spec->Err_0
                &&& r is Ok ==> r->Ok_0.floors@.map_values(|f: ChannelFloor| channel_floor_view(f)) == spec->Ok_0.0
            }),
    {
        proof {
            lemma_header_bits(packet@, self.modes_spec(), self.ident_spec());
        }
        let mut bs = BitReader::new(vstd::slice::slice_to_vec(packet));
        match bs.read_bits_leq32(header.header_bits as u32) {
            Ok(_) => {},
            Err(e) => return Err(e),
        }
        self.read_floors_at(&mut bs, header)
    }

    /// Reads the floors, then for each submap the residue of the channels it
    /// holds; undecoded channels take part in no residue read.
    pub fn decode_spectrum(&self, packet: &[u8], header: &PacketHeader) -> (r: Result<PacketSpectrum, VorbisError>)
        requires
            self.wf(),
            8 * packet@.len() <= usize::MAX,
            header_result(packet@, self.modes_spec(), self.ident_spec()) == Ok::<PacketHeader, VorbisError>(*header),
        ensures
            r is Ok ==> {
                let mapping = self.setup_spec().mappings@[self.modes_spec()[header.mode_number as int].mapping as int];
                &&& self.floors_ok(*header, r->Ok_0.floors)
                &&& r->Ok_0.residues@.len() == mapping.submaps@.len()
            },
            r is Err ==> r->Err_0 == VorbisError::IoShort || r->Err_0 == VorbisError::InvalidCode
                || r->Err_0 == VorbisError::InvalidFloor || r->Err_0 == VorbisError::InvalidResidue,
            self.packet_floors_result(packet@, *header) is Err ==> r == Err::<PacketSpectrum, VorbisError>(
                self.packet_floors_result(packet@, *header)->Err_0,
            ),
            r is Ok ==> r->Ok_0.floors.floors@.map_values(|f: ChannelFloor| channel_floor_view(f)) == self.packet_floors_result(
                packet@,
                *header,
            )->Ok_0.0,
            self.packet_floors_result(packet@, *header) is Ok && all_unused(self.packet_floors_result(packet@, *header)->Ok_0.0) ==> r is Ok
                && forall|s: int| 0 <= s < r->Ok_0.residues@.len() ==> (#[trigger] r->Ok_0.residues@[s])@.len() == 0,
    {
        proof {
            lemma_header_bits(packet@, self.modes_spec(), self.ident_spec());
            lemma_block_size_bound(header.bs_exp);
            vstd::arithmetic::power2::lemma2_to64();
        }
        let mut bs = BitReader::new(vstd::slice::slice_to_vec(packet));
        match bs.read_bits_leq32(header.header_bits as u32) {
            Ok(_) => {},
            Err(e) => return Err(e),
        }
        let floors = match self.read_floors_at(&mut bs, header) {
            Ok(f) => f,
            Err(e) => return Err(e),
        };
        let ghost quiet = all_unused(self.packet_floors_result(packet@, *header)->Ok_0.0);
        proof {
            if quiet {
                let fv = floors.floors@.map_values(|f: ChannelFloor| channel_floor_view(f));
                let d = Seq::new(floors.floors@.len(), |c: int| floors.floors@[c].spec_is_unused());
                assert forall|i: int| 0 <= i < d.len() implies #[trigger] d[i] by {
                    assert(fv[i].0 == 0);
                }
                lemma_propagate_all_set(self.mapping_of(*header).couplings@, d);
                assert(forall|i: int| 0 <= i < floors.do_not_decode@.len() ==> floors.do_not_decode@[i] == d[i]);
            }
        }
        let setup = &self.setup;
        let mode = setup.modes[header.mode_number];
        let mapping = &setup.mappings[mode.mapping as usize];
        let n2 = block_size(header.bs_exp) / 2;
        let mut residues: Vec<Vec<PartitionRead>> = Vec::new();
        let mut s: usize = 0;
        while s < mapping.submaps.len()
            invariant
                bs.wf(),
                self.wf(),
                *setup == self.setup_spec(),
                mapping.wf(self.ident_spec().n_channels as nat, setup.floors@.len(), setup.residues@.len()),
                floors.do_not_decode@.len() == self.ident_spec().n_channels,
                n2 <= 4096,
                s <= mapping.submaps@.len(),
                residues@.len() == s,
                quiet ==> forall|c: int| 0 <= c < floors.do_not_decode@.len() ==> #[trigger] floors.do_not_decode@[c],
                quiet ==> forall|k: int| 0 <= k < residues@.len() ==> (#[trigger] residues@[k])@.len() == 0,
                self.packet_floors_result(packet@, *header) is Ok,
                quiet == all_unused(self.packet_floors_result(packet@, *header)->Ok_0.0),
                floors.floors@.map_values(|f: ChannelFloor| channel_floor_view(f)) == self.packet_floors_result(packet@, *header)->Ok_0.0,
            decreases mapping.submaps@.len() - s,
        {
            let mut set: Vec<bool> = Vec::new();
            let mut c: usize = 0;
            while c < mapping.multiplex.len()
                invariant
                    c <= mapping.multiplex@.len(),
                    mapping.multiplex@.len() == floors.do_not_decode@.len(),
                    set@.len() <= c,
                    c <= 255,
                    mapping.multiplex@.len() <= 255,
                    quiet ==> forall|c2: int| 0 <= c2 < floors.do_not_decode@.len() ==> #[trigger] floors.do_not_decode@[c2],
                    quiet ==> forall|k: int| 0 <= k < set@.len() ==> #[trigger] set@[k],
                decreases mapping.multiplex@.len() - c,
            {
                if mapping.multiplex[c] as usize == s {
                    set.push(floors.do_not_decode[c]);
                }
                c = c + 1;
            }
            let residue = &setup.residues[mapping.submaps[s].residue as usize];
            let reads = match residue.read_entries(&mut bs, &setup.codebooks, n2, &set) {
                Ok(r) => r,
                Err(e) => return Err(e),
            };
            residues.push(reads);
            s = s + 1;
        }
        Ok(PacketSpectrum { floors, residues })
    }

    /// Decodes an audio packet up to its spectrum: its header (mode, window
    /// shape, block size), each channel's floor and the residue entries, and
    /// how many samples per channel it completes. On success the packet's
    /// block becomes the one that the next packet laps with; on any error,
    /// in the header or in the floor and residue data, the decoder is left
    /// as it was.
    pub fn decode(&mut self, packet: &[u8]) -> (r: Result<(PacketInfo, PacketSpectrum), VorbisError>)
        requires
            old(self).wf(),
            8 * packet@.len() <= usize::MAX,
        ensures
            final(self).wf(),
            final(self).ident_spec() == old(self).ident_spec(),
            final(self).setup_spec() == old(self).setup_spec(),
            final(self).layout_spec() == old(self).layout_spec(),
            header_result(packet@, old(self).modes_spec(), old(self).ident_spec()) is Err ==> r == Err::<
                (PacketInfo, PacketSpectrum),
                VorbisError,
            >(header_result(packet@, old(self).modes_spec(), old(self).ident_spec())->Err_0),
            r is Err ==> final(self).lapping_spec() == old(self).lapping_spec(),
            header_result(packet@, old(self).modes_spec(), old(self).ident_spec()) is Ok ==> ({
                let h = header_result(packet@, old(self).modes_spec(), old(self).ident_spec())->Ok_0;
                let fl = old(self).packet_floors_result(packet@, h);
                &&& fl is Err ==> r == Err::<(PacketInfo, PacketSpectrum), VorbisError>(fl->Err_0)
                &&& fl is Ok && all_unused(fl->Ok_0.0) ==> r is Ok
                &&& r is Ok ==> r->Ok_0.1.floors.floors@.map_values(|f: ChannelFloor| channel_floor_view(f)) == fl->Ok_0.0
            }),
            r is Ok ==> {
                let (info, spectrum) = r->Ok_0;
                let mapping = old(self).setup_spec().mappings@[old(self).modes_spec()[info.header.mode_number as int].mapping as int];
                &&& (Ok::<PacketInfo, VorbisError>(info), final(self).lapping_spec()) == decode_outcome(
                    old(self).lapping_spec(),
                    old(self).modes_spec(),
                    old(self).ident_spec(),
                    packet@,
                )
                &&& old(self).floors_ok(info.header, spectrum.floors)
                &&& spectrum.residues@.len() == mapping.submaps@.len()
            },
    {
        let header = match read_packet_header(packet, &self.setup.modes, &self.ident) {
            Ok(h) => h,
            Err(e) => return Err(e),
        };
        let spectrum = match self.decode_spectrum(packet, &header) {
            Ok(s) => s,
            Err(e) => return Err(e),
        };
        let n = block_size(header.bs_exp);
        let render_len: usize = match self.lapping_state {
            None => 0,
            Some(l) => {
                proof {
                    lemma_block_size_bound(self.ident.bs0_exp);
                    lemma_block_size_bound(self.ident.bs1_exp);
                }
                (l.prev_block_size + n) / 4
            },
        };
        self.lapping_state = Some(LappingState { prev_block_size: n, prev_window: header.window });
        Ok((PacketInfo { header, block_size: n, render_len }, spectrum))
    }
}

} // verus!
