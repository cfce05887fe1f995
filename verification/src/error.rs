use vstd::prelude::*;

verus! {

/// The two ways in which a variable-length number can be malformed.
#[derive(Clone, Copy, Debug, PartialEq, Eq, Structural)]
pub enum VarintFault {
    /// The first byte opens with exactly one one-bit, or with more than six.
    InvalidVarintLength,
    /// A continuation byte does not open with the bits `10`.
    MalformedVarint,
}

/// Why a frame, or a part of one, was rejected.
#[derive(Clone, Copy, Debug, PartialEq, Eq, Structural)]
pub enum DecodeError {
    /// The sync pattern is absent where a frame was expected.
    SyncLost,
    /// A reserved bit is set, or a selector holds a reserved or forbidden code.
    ReservedFieldUsed,
    /// The frame or sample number is malformed.
    InvalidVarint(VarintFault),
    /// The partitions of a residual do not tile the block.
    InvalidPartitionOrder,
    /// The subframe type code is reserved.
    InvalidSubframeType,
    /// The header's checksum byte differs from the checksum of the header.
    HeaderChecksumMismatch,
    /// The frame's footer differs from the checksum of the frame.
    FrameChecksumMismatch,
    /// The input ends inside the frame.
    UnexpectedEndOfInput,
    /// A reconstructed sample does not fit the width of its channel.
    ArithmeticOverflow,
}

} // verus!
