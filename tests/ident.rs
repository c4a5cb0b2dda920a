use vorbis_core::error::{HeaderFault, VorbisError};
use vorbis_core::ident::{read_ident_header, IdentHeader};

fn ident_bytes(channels: u8, rate: u32, block_sizes: u8) -> Vec<u8> {
    let mut b = vec![1u8];
    b.extend_from_slice(b"vorbis");
    b.extend_from_slice(&0u32.to_le_bytes());
    b.push(channels);
    b.extend_from_slice(&rate.to_le_bytes());
    b.extend_from_slice(&[0u8; 12]);
    b.push(block_sizes);
    b.push(1);
    b
}

#[test]
fn minimum_valid_ident() {
    let h = read_ident_header(&ident_bytes(1, 8000, 0x66)).unwrap();
    assert_eq!(h, IdentHeader { n_channels: 1, sample_rate: 8000, bs0_exp: 6, bs1_exp: 6 });
}

#[test]
fn blocksize_order_is_checked() {
    let r = read_ident_header(&ident_bytes(1, 8000, 0x67));
    assert_eq!(r, Err(VorbisError::InvalidHeader(HeaderFault::BlocksizeOrder)));
    assert_eq!(HeaderFault::BlocksizeOrder.message(), "blocksize_0 exceeds blocksize_1");
}

#[test]
fn zero_channels_rejected() {
    let r = read_ident_header(&ident_bytes(0, 8000, 0x66));
    assert_eq!(r, Err(VorbisError::InvalidHeader(HeaderFault::Channels)));
}

#[test]
fn zero_rate_rejected() {
    let r = read_ident_header(&ident_bytes(2, 0, 0x66));
    assert_eq!(r, Err(VorbisError::InvalidHeader(HeaderFault::SampleRate)));
}

#[test]
fn block_size_bounds() {
    assert_eq!(
        read_ident_header(&ident_bytes(2, 44100, 0x65)),
        Err(VorbisError::InvalidHeader(HeaderFault::Blocksize0Bounds))
    );
    assert_eq!(
        read_ident_header(&ident_bytes(2, 44100, 0xE6)),
        Err(VorbisError::InvalidHeader(HeaderFault::Blocksize1Bounds))
    );
    let h = read_ident_header(&ident_bytes(2, 44100, 0xD8)).unwrap();
    assert_eq!((h.bs0_exp, h.bs1_exp, h.sample_rate), (8, 13, 44100));
}

#[test]
fn wrong_type_signature_version_framing() {
    let mut b = ident_bytes(1, 8000, 0x66);
    b[0] = 3;
    assert_eq!(read_ident_header(&b), Err(VorbisError::InvalidHeader(HeaderFault::PacketType)));
    let mut b = ident_bytes(1, 8000, 0x66);
    b[3] = b'X';
    assert_eq!(read_ident_header(&b), Err(VorbisError::InvalidHeader(HeaderFault::Signature)));
    let mut b = ident_bytes(1, 8000, 0x66);
    b[7] = 1;
    assert_eq!(read_ident_header(&b), Err(VorbisError::Unsupported));
    let mut b = ident_bytes(1, 8000, 0x66);
    b[29] = 0;
    assert_eq!(read_ident_header(&b), Err(VorbisError::InvalidHeader(HeaderFault::Framing)));
}

#[test]
fn truncated_ident_is_io_short() {
    let b = ident_bytes(1, 8000, 0x66);
    assert_eq!(read_ident_header(&b[..0]), Err(VorbisError::IoShort));
    assert_eq!(read_ident_header(&b[..5]), Err(VorbisError::IoShort));
    assert_eq!(read_ident_header(&b[..29]), Err(VorbisError::IoShort));
}
