//! Codec for the media-transport half of a WebRTC stack: RTP media packets and
//! RTCP control packets, read from and written to raw byte buffers.
//!
//! - [`octets`]: the bounds-checked cursor that all reading and writing goes
//!   through, and the big-endian layout of integers.
//! - [`rtp`]: the RTP packet with its header, header extension and padding.
//! - [`rtcp`]: the RTCP packet types, the packet header, and compound
//!   buffers.
//! - [`rtcrtpparameters`], [`rtcdtlstransport`], [`rtcpeerconnection`],
//!   [`ice`]: what a session knows of its codecs, transports and peers.
//! - [`text`]: building the text of names and numbers.
//!
//! Every packet type has a model, the `View` of its Rust type, and two
//! functions on the model: its wire form, a sequence of bytes, and `parse`,
//! from bytes to the model or an error. The `to_bytes` and `from_bytes`
//! functions are specified by these, and the `round_trip` modules prove how
//! the two relate.

use vstd::prelude::*;

pub mod ice;
pub mod octets;
pub mod rtcdtlstransport;
pub mod rtcp;
pub mod rtcpeerconnection;
pub mod rtcrtpparameters;
pub mod rtp;
pub mod text;

verus! {

/// What can go wrong while reading from or writing to an octet cursor.
#[derive(Clone, Copy, Debug, PartialEq, Eq)]
pub enum OctetsError {
    /// There is no more work to do.
    Done,
    /// The provided buffer is too short.
    BufferTooShort,
}

/// Any error of this library, by the layer it comes from.
#[allow(inconsistent_fields)]
#[derive(Clone, Copy, Debug, PartialEq, Eq)]
pub enum WebrtcError {
    /// The octet cursor refused a read or a write.
    OctetsError { error: OctetsError },
    /// An RTP packet could not be read or written.
    RtpError { error: rtp::RtpError },
    /// An RTCP packet could not be read or written.
    RtcpError { error: rtcp::RtcpError },
}

impl From<OctetsError> for WebrtcError {
    fn from(error: OctetsError) -> (r: WebrtcError) {
        WebrtcError::OctetsError { error }
    }
}

impl vstd::std_specs::convert::FromSpecImpl<OctetsError> for WebrtcError {
    open spec fn obeys_from_spec() -> bool {
        true
    }

    open spec fn from_spec(error: OctetsError) -> WebrtcError {
        WebrtcError::OctetsError { error }
    }
}

impl From<rtp::RtpError> for WebrtcError {
    fn from(error: rtp::RtpError) -> (r: WebrtcError) {
        WebrtcError::RtpError { error }
    }
}

impl vstd::std_specs::convert::FromSpecImpl<rtp::RtpError> for WebrtcError {
    open spec fn obeys_from_spec() -> bool {
        true
    }

    open spec fn from_spec(error: rtp::RtpError) -> WebrtcError {
        WebrtcError::RtpError { error }
    }
}

impl From<rtcp::RtcpError> for WebrtcError {
    fn from(error: rtcp::RtcpError) -> (r: WebrtcError) {
        WebrtcError::RtcpError { error }
    }
}

impl vstd::std_specs::convert::FromSpecImpl<rtcp::RtcpError> for WebrtcError {
    open spec fn obeys_from_spec() -> bool {
        true
    }

    open spec fn from_spec(error: rtcp::RtcpError) -> WebrtcError {
        WebrtcError::RtcpError { error }
    }
}

} // verus!
