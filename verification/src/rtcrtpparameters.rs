//! The parameters that describe what an RTP sender or receiver can do and
//! is set up to do.

use crate::text::{decimal, find_slash, push_decimal, push_range, slash_from};
use vstd::prelude::*;

verus! {

/// The subtype of a MIME type: what stands between its first `/` and the
/// next, or the end where no other follows.
pub open spec fn mime_subtype(mime: Seq<char>) -> Seq<char> {
    let first = find_slash(mime, 0);
    mime.subrange(first + 1, find_slash(mime, first + 1))
}

/// A codec in the form `name/rate`, with `/2` behind it for two channels.
pub open spec fn codec_text(mime: Seq<char>, clock_rate: u64, channels: Option<usize>) -> Seq<
    char,
> {
    let base = mime_subtype(mime) + seq!['/'] + decimal(clock_rate as nat);
    if channels == Some(2usize) {
        base + seq!['/', '2']
    } else {
        base
    }
}

/// The subtype of the MIME type `mime`, which holds a `/`.
fn subtype_of(mime: &str) -> (r: String)
    requires
        find_slash(mime@, 0) < mime@.len(),
    ensures
        r@ == mime_subtype(mime@),
{
    let len = mime.unicode_len();
    let first = slash_from(mime, 0);
    let next = slash_from(mime, first + 1);
    let mut name = String::new();
    push_range(&mut name, mime, first + 1, next);
    proof {
        assert(Seq::<char>::empty() + mime@.subrange(first + 1, next as int) =~= mime_subtype(
            mime@,
        ));
    }
    name
}

/// A codec that can be used.
pub struct RtcRtpCodecCapability {
    /// The codec MIME media type and subtype, for instance `audio/PCMU`.
    pub mime_type: String,
    /// The codec clock rate in Hertz.
    pub clock_rate: u64,
    /// The number of channels (two for stereo).
    pub channels: Option<usize>,
}

impl RtcRtpCodecCapability {
    /// The codec's name: the subtype of its MIME type, which must hold a
    /// `/`.
    pub fn name(&self) -> (r: String)
        requires
            find_slash(self.mime_type@, 0) < self.mime_type@.len(),
        ensures
            r@ == mime_subtype(self.mime_type@),
    {
        subtype_of(self.mime_type.as_str())
    }
}

/// A codec as it is set up.
pub struct RtcRtpCodecParameters {
    /// The codec MIME media type and subtype, for instance `audio/PCMU`.
    pub mime_type: String,
    /// The codec clock rate in Hertz.
    pub clock_rate: u64,
    /// The number of channels (two for stereo).
    pub channels: Option<usize>,
    /// The value that goes in the RTP payload type field.
    pub payload_type: Option<usize>,
    /// Transport layer and codec-specific feedback messages for this codec.
    pub rtcp_feedback: Vec<RtcRtcpFeedback>,
}

impl RtcRtpCodecParameters {
    /// The codec's name: the subtype of its MIME type, which must hold a
    /// `/`.
    pub fn name(&self) -> (r: String)
        requires
            find_slash(self.mime_type@, 0) < self.mime_type@.len(),
        ensures
            r@ == mime_subtype(self.mime_type@),
    {
        subtype_of(self.mime_type.as_str())
    }

    /// The codec as a media description names it: name, clock rate, and
    /// the number of channels where there are two.
    pub fn to_string(&self) -> (r: String)
        requires
            find_slash(self.mime_type@, 0) < self.mime_type@.len(),
        ensures
            r@ == codec_text(self.mime_type@, self.clock_rate, self.channels),
    {
        let mut s = self.name();
        s.push('/');
        push_decimal(&mut s, self.clock_rate);
        let two = match self.channels {
            Some(n) => n == 2,
            None => false,
        };
        if two {
            s.push('/');
            s.push('2');
            proof {
                assert(s@ =~= codec_text(self.mime_type@, self.clock_rate, self.channels));
            }
        } else {
            proof {
                assert(s@ =~= codec_text(self.mime_type@, self.clock_rate, self.channels));
            }
        }
        s
    }
}

/// The retransmission stream of an encoding.
pub struct RtcRtpRtxParameters {
    pub ssrc: u32,
}

/// What an encoding and a decoding have in common.
pub struct RtcRtpCodingParameters {
    pub ssrc: u32,
    pub payload_type: usize,
    pub rtx: Option<RtcRtpRtxParameters>,
}

/// How a stream is decoded.
pub struct RtcRtpDecodingParameters(pub RtcRtpCodingParameters);

/// How a stream is encoded.
pub struct RtcRtpEncodingParameters(pub RtcRtpCodingParameters);

/// A header extension that can be used.
pub struct RtcRtpHeaderExtensionCapability {
    /// The URI of the RTP header extension.
    pub uri: String,
}

/// A header extension as it is set up.
pub struct RtcRtpHeaderExtensionParameters {
    /// The value that goes in the packet.
    pub id: usize,
    /// The URI of the RTP header extension.
    pub uri: String,
}

/// The codecs and header extensions that can be used.
pub struct RtcRtpCapabilities {
    pub codecs: Vec<RtcRtpCodecCapability>,
    pub header_extensions: Vec<RtcRtpHeaderExtensionCapability>,
}

/// A feedback mechanism that a codec supports.
pub struct RtcRtcpFeedback {
    pub kind: String,
    pub param: Option<String>,
}

/// How a stream reports by RTCP.
pub struct RtcRtcpParameters {
    /// The canonical name (CNAME) used by RTCP.
    pub cname: Option<String>,
    /// Whether RTP and RTCP are multiplexed.
    pub mux: bool,
    /// The synchronization source identifier.
    pub ssrc: Option<u32>,
}

/// The parameters that a sender and a receiver have in common.
pub struct RtcRtpParameter {
    pub codecs: Vec<RtcRtpCodecParameters>,
    pub header_extensions: Vec<RtcRtpHeaderExtensionParameters>,
    /// The muxId assigned to the RTP stream, if any; empty if unset.
    pub mux_id: String,
    /// Parameters to configure RTCP.
    pub rtcp: RtcRtcpParameters,
}

/// The parameters of a receiver.
pub struct RtcRtpReceiveParameters {
    pub param: RtcRtpParameter,
    pub decoding: Vec<RtcRtpDecodingParameters>,
}

/// The parameters of a sender.
pub struct RtcRtpSendParameters {
    pub param: RtcRtpParameter,
    pub decoding: Vec<RtcRtpEncodingParameters>,
}

} // verus!
