//! The ways in which a decode can fail.

use vstd::prelude::*;

verus! {

/// Why a buffer could not be decoded. A decoder that fails returns no value at all.
#[derive(Clone, Copy, Debug, PartialEq, Eq, Structural)]
pub enum DecodeError {
    /// Fewer bytes remain than the fixed width of the field being read.
    InsufficientBytes,
    /// A literal byte or a reserved bit pattern differs from the constant the wire format fixes.
    InvalidEncoding,
    /// The first byte of a message is none of the known type tags.
    UnknownMessageType,
    /// A length-delimited region holds more bytes than its declared content consumed.
    TrailingBytes,
}

/// What a decoder returned, with the bytes that follow the value taken as a sequence.
pub open spec fn outcome<T>(r: Result<(&[u8], T), DecodeError>) -> Result<(Seq<u8>, T), DecodeError> {
    match r {
        Ok((rest, value)) => Ok((rest@, value)),
        Err(e) => Err(e),
    }
}

/// What a decoder returned, with both the value and the bytes that follow it taken by view.
pub open spec fn outcome_view<T: View>(r: Result<(&[u8], T), DecodeError>) -> Result<
    (Seq<u8>, T::V),
    DecodeError,
> {
    match r {
        Ok((rest, value)) => Ok((rest@, value@)),
        Err(e) => Err(e),
    }
}

} // verus!
