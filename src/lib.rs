//! Forward-error-correcting packet codec built on an extended (SECDED)
//! Hamming code: payload bytes are framed with a small header, protected by
//! parity bits placed at power-of-two positions plus one global parity bit,
//! and recovered again with single-bit correction and double-bit detection.
use vstd::prelude::*;

pub mod byte_lib;
pub mod hamming;
pub mod packet;
pub mod packet_handle;
pub mod text;

verus! {

/// Errors reported by the codec.
#[derive(Debug, Clone, Copy, PartialEq, Eq, Structural)]
pub enum CodecError {
    /// A fixed-width conversion received input of the wrong length.
    LengthError,
    /// The payload does not fit in one packet.
    PayloadTooLarge,
    /// The fragment flag is neither 0 nor 1.
    InvalidFragFlag,
    /// An encoded block does not have exactly the block length.
    InvalidBlockSize,
    /// The decoded payload size lies outside the packet's capacity.
    SizeOutOfRange,
    /// The block holds an error that cannot be corrected.
    UncorrectableError,
    /// A fragment is missing from a reassembly sequence.
    MissingFragment,
    /// A bit position lies outside the block.
    PositionOutOfRange,
}

} // verus!
