//! The state from which a stream's RTP packets are numbered.

use rand::Rng;
use vstd::prelude::*;

verus! {

/// Holds what the packets of one stream share.
pub struct RtpPacketizer {
    pub mtu: usize,
    pub payload_type: u8,
    pub ssrc: u32,
    pub timestamp: u32,
    pub clock_rate: u32,
}

/// Draws a 32-bit number from `rand`'s thread-local generator, by
/// `rand::thread_rng` and `Rng::gen`. Nothing is claimed of the number: it
/// may be any, and two draws may agree.
#[verifier::external_body]
fn random_u32() -> (r: u32) {
    rand::thread_rng().gen()
}

impl RtpPacketizer {
    /// A packetizer for a stream with the given parameters. Its first
    /// timestamp is drawn at random, as RFC 3550 asks.
    pub fn new(mtu: usize, payload_type: u8, ssrc: u32, clock_rate: u32) -> (r: RtpPacketizer)
        ensures
            r.mtu == mtu,
            r.payload_type == payload_type,
            r.ssrc == ssrc,
            r.clock_rate == clock_rate,
    {
        RtpPacketizer { mtu, payload_type, ssrc, timestamp: random_u32(), clock_rate }
    }

    /// Does nothing yet.
    pub fn pack() -> () {
        ()
    }
}

} // verus!
