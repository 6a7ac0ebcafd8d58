use vstd::prelude::*;

verus! {

/// The ways in which decoding or encoding a packet can fail.
///
/// Every failure is reported as a value of this type; no partial packet and
/// no partial buffer is ever returned alongside an error.
#[derive(Clone, Copy, Debug, PartialEq, Eq, Structural)]
pub enum CoapError {
    /// The buffer is shorter than the fixed header.
    InvalidHeader,
    /// The declared token length exceeds 8, or the buffer cannot hold the token.
    InvalidTokenLength,
    /// An option delta uses the reserved nibble 15, or the reconstructed
    /// option number does not fit in 64 bits.
    InvalidOptionDelta,
    /// An option length uses the reserved nibble 15, or the buffer ends
    /// before an option's extension or value bytes.
    InvalidOptionLength,
    /// The encoded message would exceed the 1280-byte ceiling.
    InvalidPacketLength,
}

} // verus!
