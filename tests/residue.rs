use vorbis_core::bits::BitReader;
use vorbis_core::codebook::Codebook;
use vorbis_core::residue::Residue;

fn one_bit_book() -> Codebook {
    Codebook {
        dimensions: 1,
        entries: 2,
        lengths: vec![1, 1],
        codewords: vec![0, 1],
        lookup_type: 0,
        min_value: 0,
        delta_value: 0,
        value_bits: 0,
        sequence_p: false,
        multiplicands: vec![],
    }
}

fn residue(residue_type: u16) -> Residue {
    let mut passes = vec![None; 8];
    passes[0] = Some(0u8);
    Residue {
        residue_type,
        begin: 0,
        end: 8,
        partition_size: 4,
        classifications: 1,
        classbook: 0,
        cascade_books: vec![passes],
    }
}

#[test]
fn reads_classes_then_partitions() {
    let books = vec![one_bit_book()];
    let mut bs = BitReader::new(vec![0x1A, 0x01]);
    let reads = residue(1).read_entries(&mut bs, &books, 8, &vec![false]).unwrap();
    assert_eq!(reads.len(), 2);
    assert_eq!((reads[0].channel, reads[0].pass, reads[0].partition, reads[0].book), (0, 0, 0, 0));
    assert_eq!(reads[0].entries, vec![1, 0, 1, 1]);
    assert_eq!(reads[1].partition, 1);
    assert_eq!(reads[1].entries, vec![0, 0, 1, 0]);
    assert_eq!(bs.bits_left(), 6);
}

#[test]
fn undecoded_channels_read_nothing() {
    let books = vec![one_bit_book()];
    let mut bs = BitReader::new(vec![0xFF]);
    let reads = residue(0).read_entries(&mut bs, &books, 8, &vec![true, true]).unwrap();
    assert!(reads.is_empty());
    assert_eq!(bs.bits_left(), 8);
}

#[test]
fn type2_reads_channels_as_one() {
    let books = vec![one_bit_book()];
    let mut bs = BitReader::new(vec![0x00, 0x00, 0x00]);
    let reads = residue(2).read_entries(&mut bs, &books, 4, &vec![false, true]).unwrap();
    // Two channels of four values: one vector of eight, end clipped at 8.
    assert_eq!(reads.len(), 2);
    assert!(reads.iter().all(|r| r.channel == 0));
}

#[test]
fn short_residue_is_io_short() {
    let books = vec![one_bit_book()];
    let mut bs = BitReader::new(vec![0x1A]);
    let r = residue(1).read_entries(&mut bs, &books, 8, &vec![false]);
    assert_eq!(r.err(), Some(vorbis_core::error::VorbisError::IoShort));
}
