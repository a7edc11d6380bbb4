//! RTP media packets: the error type and the packet codec.

use crate::OctetsError;
use vstd::prelude::*;

pub mod packet;
pub mod packetizer;
pub mod round_trip;

verus! {

/// Why an RTP packet could not be read or written.
#[derive(Debug, Clone, Copy, PartialEq, Eq)]
pub enum RtpError {
    /// The octet cursor refused a read or a write.
    OctetsError { error: OctetsError },
    /// The packet's version is not 2.
    UnknownVersion,
    /// The packet's header could not be read.
    InvalidPacketHeader,
    /// Fewer bytes are left than the header takes.
    PacketHeaderTooShort,
    /// The header's version is not 2.
    InvalidPacketVersion,
    /// The header extension that the header announces is not all there.
    InvalidPacketHeaderExtensionSize,
    /// The padding count is larger than what follows the header.
    InvalidPacketPaddingLength,
    /// The header extension's profile is neither the one-byte nor the
    /// two-byte one.
    InvalidHeaderExtensionProfile,
    /// An extension entry announces more text than is left.
    TruncatedHeaderExtensionValue,
    /// A two-byte extension entry ends before its length byte.
    TruncatedTwoByteHeaderExtension,
}

impl From<OctetsError> for RtpError {
    fn from(error: OctetsError) -> (r: RtpError) {
        RtpError::OctetsError { error }
    }
}

impl vstd::std_specs::convert::FromSpecImpl<OctetsError> for RtpError {
    open spec fn obeys_from_spec() -> bool {
        true
    }

    open spec fn from_spec(error: OctetsError) -> RtpError {
        RtpError::OctetsError { error }
    }
}

/// The RTP error that stands for a failed cursor operation.
pub open spec fn short_buffer() -> RtpError {
    RtpError::OctetsError { error: OctetsError::BufferTooShort }
}

/// Carries a cursor result over to the RTP error type.
pub fn lift<T>(r: Result<T, OctetsError>) -> (out: Result<T, RtpError>)
    ensures
        match r {
            Ok(v) => out == Ok::<T, RtpError>(v),
            Err(error) => out == Err::<T, RtpError>(RtpError::OctetsError { error }),
        },
{
    match r {
        Ok(v) => Ok(v),
        Err(error) => Err(RtpError::OctetsError { error }),
    }
}

} // verus!
