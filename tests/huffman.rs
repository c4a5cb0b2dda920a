use vorbis_core::bits::BitReader;
use vorbis_core::error::VorbisError;
use vorbis_core::huffman::{assign_codewords, scalar_decode};

#[test]
fn codewords_in_entry_order() {
    let lengths = vec![2, 4, 4, 4, 4, 2, 3, 3];
    let cw = assign_codewords(&lengths).unwrap();
    assert_eq!(cw, vec![0b00, 0b0100, 0b0101, 0b0110, 0b0111, 0b10, 0b110, 0b111]);
}

#[test]
fn overpopulated_lengths_rejected() {
    assert_eq!(assign_codewords(&vec![1, 1, 1]), Err(VorbisError::InvalidCodebook));
}

#[test]
fn decodes_entries() {
    let lengths = vec![2, 4, 4, 4, 4, 2, 3, 3];
    let cw = assign_codewords(&lengths).unwrap();
    // "10" then "110" then "0100", first bit in the lowest place.
    let mut bs = BitReader::new(vec![0b0100_1101, 0b0000_0000]);
    assert_eq!(scalar_decode(&mut bs, &lengths, &cw), Ok(5));
    assert_eq!(scalar_decode(&mut bs, &lengths, &cw), Ok(6));
    assert_eq!(bs.bits_left(), 11);
    let mut bs = BitReader::new(vec![0x02]);
    assert_eq!(scalar_decode(&mut bs, &lengths, &cw), Ok(1));
    assert_eq!(bs.bits_left(), 4);
}

#[test]
fn unmatched_bits_are_invalid_code() {
    let lengths = vec![1];
    let cw = assign_codewords(&lengths).unwrap();
    assert_eq!(cw, vec![0]);
    let mut bs = BitReader::new(vec![0xFF, 0xFF, 0xFF, 0xFF]);
    assert_eq!(scalar_decode(&mut bs, &lengths, &cw), Err(VorbisError::InvalidCode));
    let mut bs = BitReader::new(vec![0xFF]);
    assert_eq!(scalar_decode(&mut bs, &lengths, &cw), Err(VorbisError::IoShort));
}
