use vorbis_core::bits::BitReader;
use vorbis_core::codebook::{check_prefix_code, lookup1_values, read_codebook};
use vorbis_core::decoder::{propagate_nonzero, read_packet_header, VorbisDecoder, WindowShape};
use vorbis_core::error::{HeaderFault, VorbisError};
use vorbis_core::floor::{read_floor, ChannelFloor, Floor};
use vorbis_core::layout::{mapping0_channel_count_to_channels, ChannelPosition};
use vorbis_core::mapping::{read_mapping, read_mode, ChannelCouple, Mode};
use vorbis_core::residue::read_residue;

/// Packs values least significant bit first, as the setup header stores them.
struct BitWriter {
    bytes: Vec<u8>,
    n: usize,
}

impl BitWriter {
    fn new() -> Self {
        BitWriter { bytes: Vec::new(), n: 0 }
    }

    fn put(&mut self, value: u32, bits: u32) {
        for i in 0..bits {
            if self.n % 8 == 0 {
                self.bytes.push(0);
            }
            if (value >> i) & 1 == 1 {
                let last = self.bytes.len() - 1;
                self.bytes[last] |= 1 << (self.n % 8);
            }
            self.n += 1;
        }
    }
}

fn ident_bytes(channels: u8, block_sizes: u8) -> Vec<u8> {
    let mut b = vec![1u8];
    b.extend_from_slice(b"vorbis");
    b.extend_from_slice(&0u32.to_le_bytes());
    b.push(channels);
    b.extend_from_slice(&44100u32.to_le_bytes());
    b.extend_from_slice(&[0u8; 12]);
    b.push(block_sizes);
    b.push(1);
    b
}

fn put_codebook(w: &mut BitWriter) {
    w.put(0x564342, 24);
    w.put(1, 16); // dimensions
    w.put(2, 24); // entries
    w.put(0, 1); // not ordered
    w.put(0, 1); // not sparse
    w.put(0, 5); // length 1
    w.put(0, 5); // length 1
    w.put(0, 4); // no lookup
}

fn put_floor1(w: &mut BitWriter) {
    w.put(1, 16);
    w.put(0, 5); // no partitions
    w.put(0, 2); // multiplier 1
    w.put(6, 4); // range bits
}

fn put_residue(w: &mut BitWriter) {
    w.put(0, 16);
    w.put(0, 24);
    w.put(0, 24);
    w.put(0, 24);
    w.put(0, 6);
    w.put(0, 8);
    w.put(0, 3);
    w.put(0, 1);
}

fn put_mapping(w: &mut BitWriter, coupled: bool) {
    w.put(0, 16);
    w.put(0, 1); // one submap
    if coupled {
        w.put(1, 1);
        w.put(0, 8); // one coupling step
        w.put(0, 1); // magnitude channel
        w.put(1, 1); // angle channel
    } else {
        w.put(0, 1);
    }
    w.put(0, 2); // reserved
    w.put(0, 8);
    w.put(0, 8); // floor
    w.put(0, 8); // residue
}

fn put_mode(w: &mut BitWriter, block_flag: u32) {
    w.put(block_flag, 1);
    w.put(0, 16);
    w.put(0, 16);
    w.put(0, 8);
}

/// Identification and setup headers of a stereo stream with a 64-sample
/// short block and an 8192-sample long block.
fn stereo_stream() -> Vec<u8> {
    stream(2, true)
}

fn stream(channels: u8, coupled: bool) -> Vec<u8> {
    let mut extra = ident_bytes(channels, 0xD6);
    extra.push(5);
    extra.extend_from_slice(b"vorbis");
    let mut w = BitWriter::new();
    w.put(0, 8);
    put_codebook(&mut w);
    w.put(0, 6);
    w.put(0, 16);
    w.put(0, 6);
    put_floor1(&mut w);
    w.put(0, 6);
    put_residue(&mut w);
    w.put(0, 6);
    put_mapping(&mut w, coupled);
    w.put(1, 6);
    put_mode(&mut w, 0);
    put_mode(&mut w, 1);
    w.put(1, 1);
    extra.extend_from_slice(&w.bytes);
    extra
}

#[test]
fn builds_decoder_from_headers() {
    let d = VorbisDecoder::try_new(&stereo_stream()).unwrap();
    assert_eq!(d.ident().n_channels, 2);
    assert_eq!(d.setup().modes.len(), 2);
    assert_eq!(d.setup().codebooks[0].lengths, vec![1, 1]);
    assert_eq!(d.setup().mappings[0].couplings, vec![ChannelCouple { magnitude_ch: 0, angle_ch: 1 }]);
    match &d.setup().floors[0] {
        Floor::Type1(f) => assert_eq!(f.xs, vec![0, 64]),
        Floor::Type0(_) => panic!("expected a type 1 floor"),
    }
    assert_eq!(d.layout(), &vec![ChannelPosition::FrontLeft, ChannelPosition::FrontRight]);
    assert_eq!(d.lapping_state(), None);
}

#[test]
fn setup_framing_and_type_checked() {
    let mut extra = stereo_stream();
    let last = extra.len() - 1;
    extra[last] = 0;
    assert!(VorbisDecoder::try_new(&extra).is_err());
    let mut extra = stereo_stream();
    extra[30] = 3;
    assert_eq!(
        VorbisDecoder::try_new(&extra).err(),
        Some(VorbisError::InvalidHeader(HeaderFault::SetupPacketType))
    );
    let extra = ident_bytes(2, 0xD6);
    assert_eq!(VorbisDecoder::try_new(&extra).err(), Some(VorbisError::IoShort));
}

#[test]
fn nine_channels_unsupported() {
    let extra = stream(9, false);
    assert_eq!(VorbisDecoder::try_new(&extra).err(), Some(VorbisError::Unsupported));
}

#[test]
fn audio_packet_with_type_bit_set() {
    let mut d = VorbisDecoder::try_new(&stereo_stream()).unwrap();
    assert_eq!(d.decode(&[0x01]).err(), Some(VorbisError::PacketTypeMismatch));
    assert_eq!(d.lapping_state(), None);
}

#[test]
fn first_packet_emits_nothing() {
    let mut d = VorbisDecoder::try_new(&stereo_stream()).unwrap();
    let info = d.decode(&[0x00]).unwrap().0;
    assert_eq!(info.render_len, 0);
    assert_eq!(info.block_size, 64);
    assert_eq!(info.header.window, WindowShape::Short);
    assert_eq!(d.lapping_state().unwrap().prev_block_size, 64);
}

#[test]
fn long_block_after_short_block() {
    let mut d = VorbisDecoder::try_new(&stereo_stream()).unwrap();
    d.decode(&[0x00]).unwrap().0;
    let info = d.decode(&[0x02]).unwrap().0;
    assert_eq!(info.block_size, 8192);
    assert_eq!(info.render_len, 2064);
    assert_eq!(info.header.window, WindowShape::ShortLongShort);
    assert_eq!(info.header.mode_number, 1);
}

#[test]
fn long_window_shapes() {
    let mut d = VorbisDecoder::try_new(&stereo_stream()).unwrap();
    assert_eq!(d.decode(&[0x0A]).unwrap().0.header.window, WindowShape::ShortLongLong);
    assert_eq!(d.decode(&[0x06]).unwrap().0.header.window, WindowShape::LongLongShort);
    let info = d.decode(&[0x0E]).unwrap().0;
    assert_eq!(info.header.window, WindowShape::LongLongLong);
    assert_eq!(info.render_len, 4096);
}

#[test]
fn truncated_floor_data_leaves_state() {
    let mut d = VorbisDecoder::try_new(&stereo_stream()).unwrap();
    d.decode(&[0x00]).unwrap();
    // A short block whose first channel has a used floor but no Y values.
    assert_eq!(d.decode(&[0x04]).err(), Some(VorbisError::IoShort));
    assert_eq!(d.lapping_state().unwrap().prev_block_size, 64);
}

#[test]
fn truncated_long_packet_leaves_state() {
    let mut d = VorbisDecoder::try_new(&stereo_stream()).unwrap();
    d.decode(&[0x00]).unwrap().0;
    assert_eq!(d.decode(&[]).err(), Some(VorbisError::IoShort));
    assert_eq!(d.lapping_state().unwrap().prev_block_size, 64);
}

#[test]
fn reset_then_decode_twice() {
    let mut d = VorbisDecoder::try_new(&stereo_stream()).unwrap();
    d.decode(&[0x02]).unwrap().0;
    d.reset();
    let first = d.decode(&[0x00]).unwrap().0;
    d.reset();
    let second = d.decode(&[0x00]).unwrap().0;
    assert_eq!(first, second);
    assert_eq!(first.render_len, 0);
}

#[test]
fn two_decoders_agree() {
    let packets: Vec<Vec<u8>> = vec![vec![0x00], vec![0x02], vec![0x01], vec![0x0E], vec![0x00]];
    let mut a = VorbisDecoder::try_new(&stereo_stream()).unwrap();
    let mut b = VorbisDecoder::try_new(&stereo_stream()).unwrap();
    for p in &packets {
        let (ra, rb) = (a.decode(p), b.decode(p));
        assert_eq!(ra.as_ref().map(|x| x.0).err(), rb.as_ref().map(|x| x.0).err());
        assert_eq!(ra.map(|x| x.0).ok(), rb.map(|x| x.0).ok());
    }
}

#[test]
fn mode_number_out_of_range() {
    let modes = vec![
        Mode { block_flag: false, window_type: 0, transform_type: 0, mapping: 0 },
        Mode { block_flag: true, window_type: 0, transform_type: 0, mapping: 0 },
        Mode { block_flag: false, window_type: 0, transform_type: 0, mapping: 0 },
    ];
    let ident = vorbis_core::ident::IdentHeader { n_channels: 1, sample_rate: 8000, bs0_exp: 6, bs1_exp: 11 };
    assert_eq!(read_packet_header(&[0x06], &modes, &ident), Err(VorbisError::InvalidMode));
    assert_eq!(read_packet_header(&[0x04], &modes, &ident).unwrap().bs_exp, 6);
}

#[test]
fn propagation_clears_partner() {
    let couplings = vec![ChannelCouple { magnitude_ch: 0, angle_ch: 1 }];
    let mut flags = vec![true, false, true];
    propagate_nonzero(&couplings, &mut flags);
    assert_eq!(flags, vec![false, false, true]);
    let mut flags = vec![true, true, false];
    propagate_nonzero(&couplings, &mut flags);
    assert_eq!(flags, vec![true, true, false]);
}

#[test]
fn channel_layouts() {
    assert_eq!(mapping0_channel_count_to_channels(0), Err(VorbisError::Unsupported));
    assert_eq!(mapping0_channel_count_to_channels(9), Err(VorbisError::Unsupported));
    assert_eq!(
        mapping0_channel_count_to_channels(6).unwrap(),
        vec![
            ChannelPosition::FrontLeft,
            ChannelPosition::FrontCentre,
            ChannelPosition::FrontRight,
            ChannelPosition::RearLeft,
            ChannelPosition::RearRight,
            ChannelPosition::Lfe1,
        ]
    );
    assert_eq!(mapping0_channel_count_to_channels(8).unwrap().len(), 8);
}

#[test]
fn lattice_value_counts() {
    assert_eq!(lookup1_values(16, 2), 4);
    assert_eq!(lookup1_values(17, 2), 4);
    assert_eq!(lookup1_values(8, 3), 2);
    assert_eq!(lookup1_values(0, 1), 0);
    assert_eq!(lookup1_values(81, 4), 3);
}

#[test]
fn prefix_code_fill() {
    assert!(check_prefix_code(&vec![1, 1]));
    assert!(check_prefix_code(&vec![1, 2, 2, 0]));
    assert!(check_prefix_code(&vec![0, 3]));
    assert!(!check_prefix_code(&vec![1, 2]));
    assert!(!check_prefix_code(&vec![1, 1, 1]));
    assert!(!check_prefix_code(&vec![0, 0]));
}

#[test]
fn codebook_sync_checked() {
    let mut w = BitWriter::new();
    w.put(0x564343, 24);
    w.put(0, 32);
    let mut bs = BitReader::new(w.bytes);
    assert_eq!(read_codebook(&mut bs).err(), Some(VorbisError::InvalidCodebook));
}

#[test]
fn codebook_overfull_rejected() {
    let mut w = BitWriter::new();
    w.put(0x564342, 24);
    w.put(1, 16);
    w.put(3, 24);
    w.put(0, 1);
    w.put(0, 1);
    for _ in 0..3 {
        w.put(0, 5);
    }
    w.put(0, 4);
    let mut bs = BitReader::new(w.bytes);
    assert_eq!(read_codebook(&mut bs).err(), Some(VorbisError::InvalidCodebook));
}

#[test]
fn ordered_codebook_with_lattice() {
    let mut w = BitWriter::new();
    w.put(0x564342, 24);
    w.put(2, 16); // dimensions
    w.put(4, 24); // entries
    w.put(1, 1); // ordered
    w.put(1, 5); // first length 2
    w.put(4, 3); // four entries of length 2
    w.put(1, 4); // lattice lookup
    w.put(0, 32);
    w.put(0, 32);
    w.put(2, 4); // three value bits
    w.put(0, 1);
    w.put(5, 3);
    w.put(6, 3);
    let mut bs = BitReader::new(w.bytes);
    let book = read_codebook(&mut bs).unwrap();
    assert_eq!(book.lengths, vec![2, 2, 2, 2]);
    assert_eq!(book.multiplicands, vec![5, 6]);
}

#[test]
fn floor1_duplicate_posit() {
    let mut w = BitWriter::new();
    w.put(1, 16);
    w.put(1, 5); // one partition
    w.put(0, 4); // of class 0
    w.put(0, 3); // class dimension 1
    w.put(0, 2); // no subclasses
    w.put(0, 8); // subclass book: none
    w.put(0, 2);
    w.put(4, 4); // range bits
    w.put(16, 4); // four bits of 16: zero, the first posit again
    w.put(0, 8);
    let mut bs = BitReader::new(w.bytes);
    assert_eq!(read_floor(&mut bs, 1).err(), Some(VorbisError::InvalidFloor));
}

#[test]
fn unknown_floor_and_residue_types() {
    let mut w = BitWriter::new();
    w.put(2, 16);
    w.put(0, 16);
    let mut bs = BitReader::new(w.bytes.clone());
    assert_eq!(read_floor(&mut bs, 1).err(), Some(VorbisError::InvalidFloor));
    let mut w = BitWriter::new();
    w.put(3, 16);
    w.put(0, 16);
    let mut bs = BitReader::new(w.bytes);
    assert_eq!(read_residue(&mut bs, 1).err(), Some(VorbisError::InvalidResidue));
}

#[test]
fn residue_book_out_of_range() {
    let mut w = BitWriter::new();
    w.put(2, 16);
    w.put(0, 24);
    w.put(64, 24);
    w.put(15, 24);
    w.put(0, 6);
    w.put(3, 8); // class book beyond the one codebook
    w.put(0, 4);
    let mut bs = BitReader::new(w.bytes);
    assert_eq!(read_residue(&mut bs, 1).err(), Some(VorbisError::InvalidResidue));
}

#[test]
fn self_coupling_rejected() {
    let mut w = BitWriter::new();
    w.put(0, 16);
    w.put(0, 1);
    w.put(1, 1);
    w.put(0, 8);
    w.put(1, 1);
    w.put(1, 1);
    w.put(0, 32);
    let mut bs = BitReader::new(w.bytes);
    assert_eq!(read_mapping(&mut bs, 2, 1, 1).err(), Some(VorbisError::InvalidMapping));
}

#[test]
fn mode_window_type_checked() {
    let mut w = BitWriter::new();
    w.put(0, 1);
    w.put(1, 16);
    w.put(0, 16);
    w.put(0, 8);
    let mut bs = BitReader::new(w.bytes);
    assert_eq!(read_mode(&mut bs, 1), Err(VorbisError::InvalidMode));
}

#[test]
fn both_floors_unused_stay_unused() {
    let d = VorbisDecoder::try_new(&stereo_stream()).unwrap();
    let packet = [0x00u8];
    let header = d.read_header(&packet).unwrap();
    assert_eq!(header.header_bits, 2);
    let pf = d.decode_floors(&packet, &header).unwrap();
    assert!(pf.floors.iter().all(|f| f.is_unused()));
    assert_eq!(pf.do_not_decode, vec![true, true]);
}

#[test]
fn used_floor_propagates_to_partner() {
    let d = VorbisDecoder::try_new(&stereo_stream()).unwrap();
    let mut w = BitWriter::new();
    w.put(0, 1);
    w.put(0, 1);
    w.put(1, 1);
    w.put(5, 8);
    w.put(200, 8);
    w.put(0, 1);
    let header = d.read_header(&w.bytes).unwrap();
    let pf = d.decode_floors(&w.bytes, &header).unwrap();
    match &pf.floors[0] {
        ChannelFloor::Piecewise { ys } => assert_eq!(ys, &vec![5, 200]),
        other => panic!("unexpected floor {:?}", other),
    }
    assert!(pf.floors[1].is_unused());
    assert_eq!(pf.do_not_decode, vec![false, false]);
    assert_eq!(pf.curves[0].len(), 32);
    assert_eq!(pf.curves[0][0], 5);
    assert_eq!(pf.curves[0][31], 99);
    assert!(pf.curves[1].is_empty());
}

#[test]
fn truncated_floor_is_io_short() {
    let d = VorbisDecoder::try_new(&stereo_stream()).unwrap();
    let packet = [0x04u8];
    let header = d.read_header(&packet).unwrap();
    assert_eq!(d.decode_floors(&packet, &header).err(), Some(VorbisError::IoShort));
}

#[test]
fn spectrum_reads_floors_then_residues() {
    let d = VorbisDecoder::try_new(&stereo_stream()).unwrap();
    let mut w = BitWriter::new();
    w.put(0, 1);
    w.put(0, 1);
    w.put(1, 1);
    w.put(7, 8);
    w.put(9, 8);
    w.put(1, 1);
    w.put(3, 8);
    w.put(4, 8);
    let header = d.read_header(&w.bytes).unwrap();
    let spectrum = d.decode_spectrum(&w.bytes, &header).unwrap();
    assert_eq!(spectrum.floors.do_not_decode, vec![false, false]);
    assert_eq!(spectrum.residues.len(), 1);
    assert!(spectrum.residues[0].is_empty());
}
