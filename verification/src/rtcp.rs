//! RTCP control packets: the error type and the per-type codecs.

use crate::OctetsError;
use vstd::prelude::*;

pub mod application_defined;
pub mod good_bye;
pub mod packet;
pub mod payload_specific_feedback;
pub mod receiver_report;
pub mod report_block;
pub mod round_trip;
pub mod rtp_feedback;
pub mod sender_report;
pub mod source_description;

verus! {

/// The most bytes that the body of a packet may take for its length in
/// words to fit the sixteen bits that the header has for it.
pub const MAX_BODY_LEN: usize = 0x3_FFFF;

/// Why an RTCP packet could not be read or written.
#[derive(Debug, Clone, Copy, PartialEq, Eq)]
pub enum RtcpError {
    /// The octet cursor refused a read or a write.
    OctetsError { error: OctetsError },
    /// The packet's version is not 2.
    UnknownVersion,
    /// The packet type byte names no known packet.
    UnknownPacketType,
    /// The packet's shape does not match its header.
    InvalidPacketHeader,
    /// Fewer bytes are left than a packet header takes.
    PacketHeaderTooShort,
    /// The packet's extension is broken.
    InvalidPacketHeaderExtensionSize,
    /// The padding count is zero or larger than the packet.
    InvalidPaddingSize,
    /// The packet's length does not fit its contents.
    InvalidPacketLength,
    /// A payload-specific feedback packet is shorter than its two
    /// identifiers.
    InvalidPsfbPacketLength,
    /// A receiver report's length does not match its report count.
    InvalidRrPacketLength,
    /// The packet is recognised but cannot be written.
    NotImplemented,
}

impl From<OctetsError> for RtcpError {
    fn from(error: OctetsError) -> (r: RtcpError) {
        RtcpError::OctetsError { error }
    }
}

impl vstd::std_specs::convert::FromSpecImpl<OctetsError> for RtcpError {
    open spec fn obeys_from_spec() -> bool {
        true
    }

    open spec fn from_spec(error: OctetsError) -> RtcpError {
        RtcpError::OctetsError { error }
    }
}

/// The RTCP error that stands for a failed cursor operation.
pub open spec fn short_buffer() -> RtcpError {
    RtcpError::OctetsError { error: OctetsError::BufferTooShort }
}

/// Carries a cursor result over to the RTCP error type.
pub fn lift<T>(r: Result<T, OctetsError>) -> (out: Result<T, RtcpError>)
    ensures
        match r {
            Ok(v) => out == Ok::<T, RtcpError>(v),
            Err(error) => out == Err::<T, RtcpError>(RtcpError::OctetsError { error }),
        },
{
    match r {
        Ok(v) => Ok(v),
        Err(error) => Err(RtcpError::OctetsError { error }),
    }
}

} // verus!
