use vstd::prelude::*;

verus! {

/// Which check of the identification header failed.
#[derive(Clone, Copy, Debug, PartialEq, Eq, Structural)]
pub enum HeaderFault {
    PacketType,
    Signature,
    Channels,
    SampleRate,
    Blocksize0Bounds,
    Blocksize1Bounds,
    BlocksizeOrder,
    Framing,
    SetupPacketType,
    SetupSignature,
    TimeDomainTransform,
    SetupFraming,
}

/// Error kinds of the decoder; every one is fatal to the packet or header
/// being read.
#[derive(Clone, Copy, Debug, PartialEq, Eq, Structural)]
pub enum VorbisError {
    /// The bitstream ran out of bits.
    IoShort,
    InvalidHeader(HeaderFault),
    InvalidCodebook,
    InvalidFloor,
    InvalidResidue,
    InvalidMapping,
    InvalidMode,
    InvalidCode,
    /// The first bit of an audio packet was set.
    PacketTypeMismatch,
    Unsupported,
}

impl HeaderFault {
    /// A human readable description of the fault.
    pub fn message(&self) -> (r: &'static str) {
        match self {
            HeaderFault::PacketType => "invalid packet type for identification header",
            HeaderFault::Signature => "invalid header signature",
            HeaderFault::Channels => "number of channels cannot be 0",
            HeaderFault::SampleRate => "sample rate cannot be 0",
            HeaderFault::Blocksize0Bounds => "blocksize_0 out-of-bounds",
            HeaderFault::Blocksize1Bounds => "blocksize_1 out-of-bounds",
            HeaderFault::BlocksizeOrder => "blocksize_0 exceeds blocksize_1",
            HeaderFault::Framing => "ident header framing flag unset",
            HeaderFault::SetupPacketType => "invalid packet type for setup header",
            HeaderFault::SetupSignature => "invalid setup header signature",
            HeaderFault::TimeDomainTransform => "invalid time domain transform",
            HeaderFault::SetupFraming => "setup header framing flag unset",
        }
    }
}

} // verus!
