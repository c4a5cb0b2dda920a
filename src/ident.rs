use vstd::prelude::*;
use crate::error::{HeaderFault, VorbisError};

verus! {

/// Length in bytes of an identification header.
pub const IDENT_HEADER_LEN: usize = 30;
/// Packet type byte of an identification header.
pub const PACKET_TYPE_IDENTIFICATION: u8 = 1;
/// Packet type byte of a setup header.
pub const PACKET_TYPE_SETUP: u8 = 5;
/// Smallest block size exponent (64 samples).
pub const BLOCKSIZE_MIN: u8 = 6;
/// Largest block size exponent (8192 samples).
pub const BLOCKSIZE_MAX: u8 = 13;

/// The stream parameters carried by the identification header.
#[derive(Clone, Copy, Debug, PartialEq, Eq, Structural)]
pub struct IdentHeader {
    pub n_channels: u8,
    pub sample_rate: u32,
    /// Short block size exponent.
    pub bs0_exp: u8,
    /// Long block size exponent.
    pub bs1_exp: u8,
}

impl IdentHeader {
    pub open spec fn wf(&self) -> bool {
        &&& self.n_channels >= 1
        &&& self.sample_rate >= 1
        &&& BLOCKSIZE_MIN <= self.bs0_exp <= self.bs1_exp <= BLOCKSIZE_MAX
    }
}

/// The common signature of header packets.
pub open spec fn is_signature(b: Seq<u8>, at: int) -> bool {
    &&& b[at] == 0x76u8
    &&& b[at + 1] == 0x6fu8
    &&& b[at + 2] == 0x72u8
    &&& b[at + 3] == 0x62u8
    &&& b[at + 4] == 0x69u8
    &&& b[at + 5] == 0x73u8
}

/// Little-endian 32-bit integer at byte offset `at`.
pub open spec fn le32(b: Seq<u8>, at: int) -> nat {
    (b[at] + 256 * b[at + 1] + 65536 * b[at + 2] + 16777216 * b[at + 3]) as nat
}

/// The outcome of parsing an identification header from the front of `b`:
/// fields are read in order, and a read past the end is `IoShort`.
pub open spec fn ident_result(b: Seq<u8>) -> Result<IdentHeader, VorbisError> {
    if b.len() < 1 {
        Err(VorbisError::IoShort)
    } else if b[0] != PACKET_TYPE_IDENTIFICATION {
        Err(VorbisError::InvalidHeader(HeaderFault::PacketType))
    } else if b.len() < 7 {
        Err(VorbisError::IoShort)
    } else if !is_signature(b, 1) {
        Err(VorbisError::InvalidHeader(HeaderFault::Signature))
    } else if b.len() < 11 {
        Err(VorbisError::IoShort)
    } else if le32(b, 7) != 0 {
        Err(VorbisError::Unsupported)
    } else if b.len() < 12 {
        Err(VorbisError::IoShort)
    } else if b[11] == 0 {
        Err(VorbisError::InvalidHeader(HeaderFault::Channels))
    } else if b.len() < 16 {
        Err(VorbisError::IoShort)
    } else if le32(b, 12) == 0 {
        Err(VorbisError::InvalidHeader(HeaderFault::SampleRate))
    } else if b.len() < 29 {
        Err(VorbisError::IoShort)
    } else {
        let bs0 = b[28] & 0x0fu8;
        let bs1 = b[28] >> 4u8;
        if bs0 < BLOCKSIZE_MIN || bs0 > BLOCKSIZE_MAX {
            Err(VorbisError::InvalidHeader(HeaderFault::Blocksize0Bounds))
        } else if bs1 < BLOCKSIZE_MIN || bs1 > BLOCKSIZE_MAX {
            Err(VorbisError::InvalidHeader(HeaderFault::Blocksize1Bounds))
        } else if bs0 > bs1 {
            Err(VorbisError::InvalidHeader(HeaderFault::BlocksizeOrder))
        } else if b.len() < 30 {
            Err(VorbisError::IoShort)
        } else if b[29] != 1 {
            Err(VorbisError::InvalidHeader(HeaderFault::Framing))
        } else {
            Ok(IdentHeader {
                n_channels: b[11],
                sample_rate: le32(b, 12) as u32,
                bs0_exp: bs0,
                bs1_exp: bs1,
            })
        }
    }
}

/// Checks the six signature bytes at `at`.
pub fn check_signature(b: &[u8], at: usize) -> (r: bool)
    requires
        at + 6 <= b@.len(),
    ensures
        r == is_signature(b@, at as int),
{
    b[at] == 0x76u8 && b[at + 1] == 0x6fu8 && b[at + 2] == 0x72u8 && b[at + 3] == 0x62u8
        && b[at + 4] == 0x69u8 && b[at + 5] == 0x73u8
}

fn read_le32(b: &[u8], at: usize) -> (r: u32)
    requires
        at + 4 <= b@.len(),
    ensures
        r == le32(b@, at as int),
{
    b[at] as u32 + 256 * (b[at + 1] as u32) + 65536 * (b[at + 2] as u32) + 16777216 * (
    b[at + 3] as u32)
}

/// Parses and validates the identification header at the front of `b`.
pub fn read_ident_header(b: &[u8]) -> (r: Result<IdentHeader, VorbisError>)
    ensures
        r == ident_result(b@),
        r is Ok ==> r->Ok_0.wf(),
{
    if b.len() < 1 {
        return Err(VorbisError::IoShort);
    }
    if b[0] != PACKET_TYPE_IDENTIFICATION {
        return Err(VorbisError::InvalidHeader(HeaderFault::PacketType));
    }
    if b.len() < 7 {
        return Err(VorbisError::IoShort);
    }
    if !check_signature(b, 1) {
        return Err(VorbisError::InvalidHeader(HeaderFault::Signature));
    }
    if b.len() < 11 {
        return Err(VorbisError::IoShort);
    }
    if read_le32(b, 7) != 0 {
        return Err(VorbisError::Unsupported);
    }
    if b.len() < 12 {
        return Err(VorbisError::IoShort);
    }
    let n_channels = b[11];
    if n_channels == 0 {
        return Err(VorbisError::InvalidHeader(HeaderFault::Channels));
    }
    if b.len() < 16 {
        return Err(VorbisError::IoShort);
    }
    let sample_rate = read_le32(b, 12);
    if sample_rate == 0 {
        return Err(VorbisError::InvalidHeader(HeaderFault::SampleRate));
    }
    // Bytes 16 to 27 hold the three bitrates, which the decoder ignores.
    if b.len() < 29 {
        return Err(VorbisError::IoShort);
    }
    let block_sizes = b[28];
    let bs0_exp = block_sizes & 0x0fu8;
    let bs1_exp = block_sizes >> 4u8;
    if bs0_exp < BLOCKSIZE_MIN || bs0_exp > BLOCKSIZE_MAX {
        return Err(VorbisError::InvalidHeader(HeaderFault::Blocksize0Bounds));
    }
    if bs1_exp < BLOCKSIZE_MIN || bs1_exp > BLOCKSIZE_MAX {
        return Err(VorbisError::InvalidHeader(HeaderFault::Blocksize1Bounds));
    }
    if bs0_exp > bs1_exp {
        return Err(VorbisError::InvalidHeader(HeaderFault::BlocksizeOrder));
    }
    if b.len() < 30 {
        return Err(VorbisError::IoShort);
    }
    if b[29] != 1 {
        return Err(VorbisError::InvalidHeader(HeaderFault::Framing));
    }
    Ok(IdentHeader { n_channels, sample_rate, bs0_exp, bs1_exp })
}

} // verus!
