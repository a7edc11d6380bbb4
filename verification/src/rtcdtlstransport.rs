//! The DTLS layer over a transport.

use vstd::prelude::*;

verus! {

/// The length of an SRTP master key, in bytes.
pub const SRTP_KEY_LEN: usize = 16;

/// The length of an SRTP master salt, in bytes.
pub const SRTP_SALT_LEN: usize = 14;

/// A DTLS layer that runs over `Transport`.
pub struct RtcDtlsTransport<Transport> {
    pub transport: Transport,
}

impl<Transport> RtcDtlsTransport<Transport> {
    /// A DTLS layer over `transport`.
    pub fn new(transport: Transport) -> (r: RtcDtlsTransport<Transport>)
        ensures
            r.transport == transport,
    {
        RtcDtlsTransport { transport: transport }
    }
}

} // verus!
