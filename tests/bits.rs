use vorbis_core::bits::{ilog, BitReader};
use vorbis_core::error::VorbisError;

#[test]
fn reads_low_bit_first() {
    let mut bs = BitReader::new(vec![0xAB, 0xCD]);
    assert_eq!(bs.read_bits_leq32(4), Ok(0xB));
    assert_eq!(bs.read_bits_leq32(4), Ok(0xA));
    assert_eq!(bs.read_bit(), Ok(true));
    assert_eq!(bs.bits_left(), 7);
}

#[test]
fn split_reads_equal_one_read() {
    let data = vec![0x5A, 0xC3, 0x0F, 0xF0];
    let mut one = BitReader::new(data.clone());
    let whole = one.read_bits_leq32(11).unwrap();
    let mut two = BitReader::new(data);
    let a = two.read_bits_leq32(3).unwrap();
    let b = two.read_bits_leq32(8).unwrap();
    assert_eq!(whole, a | (b << 3));
    assert_eq!(whole, 0x35A & 0x7FF);
}

#[test]
fn reads_thirty_two_bits() {
    let mut bs = BitReader::new(vec![0x78, 0x56, 0x34, 0x12]);
    assert_eq!(bs.read_bits_leq32(32), Ok(0x1234_5678));
    assert_eq!(bs.bits_left(), 0);
}

#[test]
fn read_past_end_is_io_short() {
    let mut bs = BitReader::new(vec![0xFF]);
    assert_eq!(bs.read_bits_leq32(9), Err(VorbisError::IoShort));
    assert_eq!(bs.bits_left(), 8);
    assert_eq!(bs.read_bits_leq32(8), Ok(0xFF));
    assert_eq!(bs.read_bit(), Err(VorbisError::IoShort));
}

#[test]
fn ilog_values() {
    assert_eq!(ilog(0), 0);
    assert_eq!(ilog(1), 1);
    assert_eq!(ilog(7), 3);
    assert_eq!(ilog(8), 4);
    assert_eq!(ilog(u32::MAX), 32);
}
