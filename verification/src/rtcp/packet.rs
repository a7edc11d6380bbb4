//! The RTCP packet as a whole: the four-byte header, the dispatch on the
//! packet type, and compound buffers of several packets in a row.
//!
//! The header's length field counts the 32-bit words of the body, the header
//! itself not included.

use crate::octets::{
    lemma_spliced_twice, lemma_u32s_octets_len, spliced, u16_at, u16_octets, Octets,
};
use crate::rtcp::application_defined::{ApplicationDefined, RtcpApplicationDefinedPacket};
use crate::rtcp::good_bye::{good_bye_parse, good_bye_wire, RtcpGoodByePacket};
use crate::rtcp::payload_specific_feedback::{PayloadFeedback, RtcpPayloadSpecificFeedbackPacket};
use crate::rtcp::receiver_report::{ReceiverReport, RtcpReceiverReportPacket};
use crate::rtcp::report_block::blocks_fit;
use crate::rtcp::round_trip::{lemma_decoded_all_fit, lemma_decoded_body_fits};
use crate::rtcp::rtp_feedback::{pack_lost, RtcpRtpFeedbackPacket, RtpFeedback};
use crate::rtcp::sender_report::{RtcpSenderReportPacket, SenderReport};
use crate::rtcp::source_description::{
    chunks_aligned_len, chunks_fit, chunks_typed, chunks_wire, lemma_chunks_wire_len,
    parse_chunks, RtcpSourceDescriptionPacket, SdesChunk,
};
use crate::rtcp::{lift, short_buffer, RtcpError, MAX_BODY_LEN};
use vstd::prelude::*;

verus! {

/// The packet type of a sender report.
pub const RTCP_SR: u8 = 200;

/// The packet type of a receiver report.
pub const RTCP_RR: u8 = 201;

/// The packet type of a source description.
pub const RTCP_SDES: u8 = 202;

/// The packet type of a goodbye.
pub const RTCP_BYE: u8 = 203;

/// The packet type of an application-defined packet.
pub const RTCP_APP: u8 = 204;

/// The packet type of transport-layer feedback.
pub const RTCP_RTPFB: u8 = 205;

/// The packet type of payload-specific feedback.
pub const RTCP_PSFB: u8 = 206;

/// The body of an RTCP packet, by packet type.
#[derive(Debug, Clone, Eq, PartialEq, Hash)]
pub enum RtcpPacketType {
    SenderReport(RtcpSenderReportPacket),
    ReceiverReport(RtcpReceiverReportPacket),
    SourceDescription(RtcpSourceDescriptionPacket),
    Goodbye(RtcpGoodByePacket),
    ApplicationDefined(RtcpApplicationDefinedPacket),
    RTPFeedback(RtcpRtpFeedbackPacket),
    PayloadSpecificFeedback(RtcpPayloadSpecificFeedbackPacket),
}

/// What the body of an RTCP packet holds.
pub enum PacketBody {
    SenderReport(SenderReport),
    ReceiverReport(ReceiverReport),
    SourceDescription(Seq<SdesChunk>),
    Goodbye(Seq<u32>),
    ApplicationDefined(ApplicationDefined),
    RTPFeedback(RtpFeedback),
    PayloadSpecificFeedback(PayloadFeedback),
}

impl View for RtcpPacketType {
    type V = PacketBody;

    open spec fn view(&self) -> PacketBody {
        match self {
            RtcpPacketType::SenderReport(v) => PacketBody::SenderReport(v@),
            RtcpPacketType::ReceiverReport(v) => PacketBody::ReceiverReport(v@),
            RtcpPacketType::SourceDescription(v) => PacketBody::SourceDescription(v@),
            RtcpPacketType::Goodbye(v) => PacketBody::Goodbye(v@),
            RtcpPacketType::ApplicationDefined(v) => PacketBody::ApplicationDefined(v@),
            RtcpPacketType::RTPFeedback(v) => PacketBody::RTPFeedback(v@),
            RtcpPacketType::PayloadSpecificFeedback(v) => PacketBody::PayloadSpecificFeedback(v@),
        }
    }
}

impl PacketBody {
    /// The packet type byte of the header.
    pub open spec fn packet_type(self) -> u8 {
        match self {
            PacketBody::SenderReport(_) => RTCP_SR,
            PacketBody::ReceiverReport(_) => RTCP_RR,
            PacketBody::SourceDescription(_) => RTCP_SDES,
            PacketBody::Goodbye(_) => RTCP_BYE,
            PacketBody::ApplicationDefined(_) => RTCP_APP,
            PacketBody::RTPFeedback(_) => RTCP_RTPFB,
            PacketBody::PayloadSpecificFeedback(_) => RTCP_PSFB,
        }
    }

    /// What the header's five-bit field holds: the number of reports, chunks
    /// or sources, the subtype, or the format code.
    pub open spec fn count(self) -> int {
        match self {
            PacketBody::SenderReport(v) => v.reports.len() as int,
            PacketBody::ReceiverReport(v) => v.reports.len() as int,
            PacketBody::SourceDescription(v) => v.len() as int,
            PacketBody::Goodbye(v) => v.len() as int,
            PacketBody::ApplicationDefined(v) => v.subtype as int,
            PacketBody::RTPFeedback(v) => v.format as int,
            PacketBody::PayloadSpecificFeedback(v) => v.format as int,
        }
    }

    /// The body on the wire when it starts at position `at` of the buffer.
    /// Only a source description depends on the position.
    pub open spec fn wire(self, at: int) -> Seq<u8> {
        match self {
            PacketBody::SenderReport(v) => v.wire(),
            PacketBody::ReceiverReport(v) => v.wire(),
            PacketBody::SourceDescription(v) => chunks_wire(v, at),
            PacketBody::Goodbye(v) => good_bye_wire(v),
            PacketBody::ApplicationDefined(v) => v.wire(),
            PacketBody::RTPFeedback(v) => v.wire(),
            PacketBody::PayloadSpecificFeedback(v) => v.wire(),
        }
    }

    /// The length in bytes that the header's length field is computed from:
    /// that of the body when it starts on a 32-bit boundary.
    pub open spec fn length(self) -> int {
        match self {
            PacketBody::SourceDescription(v) => chunks_aligned_len(v),
            _ => self.wire(0).len() as int,
        }
    }

    /// The body can be written under a header: what goes to the five-bit
    /// field fits it, the length in words fits sixteen bits, and the text of
    /// each description item fits its length byte.
    pub open spec fn encodable(self) -> bool {
        &&& 0 <= self.count() <= 31
        &&& 0 <= self.length() / 4 <= 0xFFFF
        &&& self matches PacketBody::SourceDescription(v) ==> chunks_fit(v)
    }

    /// Nothing that the body holds is lost in writing it: the packet loss
    /// count of every report block fits its three bytes, no description item
    /// has the type that closes a chunk, and a list of lost sequence numbers
    /// is not empty and ascends.
    pub open spec fn readable(self) -> bool {
        match self {
            PacketBody::SenderReport(v) => blocks_fit(v.reports),
            PacketBody::ReceiverReport(v) => blocks_fit(v.reports),
            PacketBody::SourceDescription(v) => chunks_typed(v),
            PacketBody::RTPFeedback(v) => v.ascends(),
            _ => true,
        }
    }

    /// The body is a whole number of 32-bit words long, so that the header's
    /// length field gives all of it.
    pub open spec fn whole_words(self) -> bool {
        self.length() % 4 == 0
    }

    /// The four bytes of the header.
    pub open spec fn header(self) -> Seq<u8> {
        seq![(0x80 + self.count()) as u8, self.packet_type()] + u16_octets(
            (self.length() / 4) as u16,
        )
    }

    /// The packet on the wire when it starts at position `at` of the buffer:
    /// the header, then the body.
    pub open spec fn packet_wire(self, at: int) -> Seq<u8> {
        self.header() + self.wire(at + 4)
    }
}

impl RtcpPacketType {
    /// Whether the body can be written under a header.
    pub fn is_encodable(&self) -> (ok: bool)
        ensures
            ok == self@.encodable(),
    {
        match self {
            RtcpPacketType::SenderReport(v) => {
                proof {
                    v@.lemma_wire_len();
                }
                v.reports.len() <= 31
            },
            RtcpPacketType::ReceiverReport(v) => {
                proof {
                    v@.lemma_wire_len();
                }
                v.reports.len() <= 31
            },
            RtcpPacketType::SourceDescription(v) => {
                proof {
                    lemma_chunks_wire_len(v@, 0);
                }
                v.fits_header()
            },
            RtcpPacketType::Goodbye(v) => {
                proof {
                    lemma_u32s_octets_len(v@);
                }
                v.0.len() <= 31
            },
            RtcpPacketType::ApplicationDefined(v) => v.subtype <= 31 && v.data.len()
                <= MAX_BODY_LEN,
            RtcpPacketType::RTPFeedback(v) => {
                proof {
                    v@.lemma_wire_len();
                }
                let fits = match &v.lost {
                    Some(lost) => {
                        let pairs = pack_lost(lost);
                        pairs.len() <= (MAX_BODY_LEN - 8) / 4
                    },
                    None => true,
                };
                v.format <= 31 && fits
            },
            RtcpPacketType::PayloadSpecificFeedback(v) => v.format <= 31 && v.fci.len()
                <= MAX_BODY_LEN - 8,
        }
    }
}

/// Writes the four-byte header: version 2 with no padding and `count` in the
/// first byte, the packet type, and the length in 32-bit words.
pub fn pack_rtcp_header(out: &mut Octets, packet_type: u8, count: u8, payload_len: u16) -> (r:
    Result<(), RtcpError>)
    requires
        old(out).wf(),
        count <= 31,
    ensures
        final(final(out).buf)@ == final(old(out).buf)@,
        match r {
            Ok(_) => {
                &&& old(out).rest().len() >= 4
                &&& final(out).wrote(
                    old(out),
                    seq![(0x80 + count) as u8, packet_type] + u16_octets(payload_len),
                )
            },
            Err(e) => {
                &&& old(out).rest().len() < 4
                &&& e == short_buffer()
                &&& final(out).stopped(
                    old(out),
                    seq![(0x80 + count) as u8, packet_type] + u16_octets(payload_len),
                )
            },
        },
{
    let ghost b0 = out.bytes();
    let ghost p = out.pos();
    assert((2u8 << 6) | count == 0x80 + count) by (bit_vector)
        requires
            count <= 31,
    ;
    lift(out.put_u8((2 << 6) | count))?;
    lift(out.put_u8(packet_type))?;
    proof {
        lemma_spliced_twice(b0, p, seq![(0x80 + count) as u8], seq![packet_type]);
        assert(seq![(0x80 + count) as u8] + seq![packet_type] =~= seq![
            (0x80 + count) as u8,
            packet_type,
        ]);
    }
    lift(out.put_u16(payload_len))?;
    proof {
        lemma_spliced_twice(
            b0,
            p,
            seq![(0x80 + count) as u8, packet_type],
            u16_octets(payload_len),
        );
    }
    Ok(())
}

/// A length in bytes as the header gives it: in 32-bit words, rounded down.
pub fn length_in_words(bytes: u32) -> (words: u16)
    requires
        bytes / 4 <= 0xFFFF,
    ensures
        words == bytes / 4,
{
    assert(bytes >> 2 == bytes / 4) by (bit_vector);
    (bytes >> 2) as u16
}

/// Writes one packet: the header that its body calls for, then the body.
/// Fails, with the buffer possibly written in part, exactly when the packet
/// does not fit.
#[verifier::rlimit(20)]
pub fn pack_rtcp_packet(packet: &RtcpPacketType, out: &mut Octets) -> (r: Result<(), RtcpError>)
    requires
        old(out).wf(),
        packet@.encodable(),
    ensures
        final(final(out).buf)@ == final(old(out).buf)@,
        match r {
            Ok(_) => {
                &&& old(out).rest().len() >= packet@.packet_wire(old(out).pos()).len()
                &&& final(out).wrote(old(out), packet@.packet_wire(old(out).pos()))
            },
            Err(e) => {
                &&& old(out).rest().len() < packet@.packet_wire(old(out).pos()).len()
                &&& e == short_buffer()
                &&& final(out).stopped(old(out), packet@.packet_wire(old(out).pos()))
            },
        },
{
    let ghost b0 = out.bytes();
    let ghost p = out.pos();
    let ghost head = packet@.header();
    let ghost body = packet@.wire(p + 4);
    match packet {
        RtcpPacketType::SenderReport(v) => {
            proof {
                v@.lemma_wire_len();
            }
            let len = length_in_words(v.get_length());
            let count = v.get_reports_count();
            pack_rtcp_header(out, RTCP_SR, count, len)?;
            v.to_bytes(out)?;
        },
        RtcpPacketType::ReceiverReport(v) => {
            proof {
                v@.lemma_wire_len();
            }
            let len = length_in_words(v.get_length());
            let count = v.get_reports_count();
            pack_rtcp_header(out, RTCP_RR, count, len)?;
            v.to_bytes(out)?;
        },
        RtcpPacketType::SourceDescription(v) => {
            proof {
                lemma_chunks_wire_len(v@, 0);
            }
            let len = length_in_words(v.get_length());
            let count = v.get_chunks_length();
            pack_rtcp_header(out, RTCP_SDES, count, len)?;
            v.to_bytes(out)?;
        },
        RtcpPacketType::Goodbye(v) => {
            proof {
                lemma_u32s_octets_len(v@);
            }
            let len = length_in_words(v.get_length());
            let count = v.get_sources_count();
            pack_rtcp_header(out, RTCP_BYE, count, len)?;
            v.to_bytes(out)?;
        },
        RtcpPacketType::ApplicationDefined(v) => {
            let len = length_in_words(v.get_length());
            let subtype = v.get_subtype();
            pack_rtcp_header(out, RTCP_APP, subtype, len)?;
            v.to_bytes(out)?;
        },
        RtcpPacketType::RTPFeedback(v) => {
            let len = length_in_words(v.get_length());
            let fmt = v.get_format();
            pack_rtcp_header(out, RTCP_RTPFB, fmt, len)?;
            v.to_bytes(out)?;
        },
        RtcpPacketType::PayloadSpecificFeedback(v) => {
            let len = length_in_words(v.get_length());
            let fmt = v.get_format();
            pack_rtcp_header(out, RTCP_PSFB, fmt, len)?;
            v.to_bytes(out)?;
        },
    }
    proof {
        lemma_spliced_twice(b0, p, head, body);
    }
    Ok(())
}

/// The version that the first byte of a header gives: its top two bits.
pub open spec fn header_version(first: u8) -> int {
    first as int / 64
}

/// Whether the first byte of a header has its padding bit set.
pub open spec fn header_padding(first: u8) -> bool {
    (first as int / 32) % 2 == 1
}

/// What the low five bits of the first byte of a header hold.
pub open spec fn header_count(first: u8) -> u8 {
    (first % 32) as u8
}

/// The bytes that the header's length field sets apart for the body, the
/// padding still in them.
pub open spec fn packet_region(b: Seq<u8>) -> Seq<u8> {
    b.subrange(4, 4 + 4 * u16_at(b, 2))
}

/// Whether the padding that the header announces is well formed: the region
/// is not empty, and its last byte counts at least one byte and no more than
/// the region has.
pub open spec fn padding_ok(b: Seq<u8>) -> bool {
    let region = packet_region(b);
    region.len() > 0 && 0 < region.last() <= region.len()
}

/// The body of the packet: the region, without its padding where the header
/// announces one.
pub open spec fn packet_payload(b: Seq<u8>) -> Seq<u8> {
    let region = packet_region(b);
    if header_padding(b[0]) {
        region.take(region.len() - region.last())
    } else {
        region
    }
}

/// What a body decodes to under the packet type `packet_type` and the
/// header's five-bit field `count`.
#[verifier::opaque]
pub open spec fn parse_body(payload: Seq<u8>, packet_type: u8, count: u8) -> Result<
    PacketBody,
    RtcpError,
> {
    if packet_type == RTCP_SR {
        match SenderReport::parse(payload, count) {
            Ok(v) => Ok(PacketBody::SenderReport(v)),
            Err(e) => Err(e),
        }
    } else if packet_type == RTCP_RR {
        match ReceiverReport::parse(payload, count) {
            Ok(v) => Ok(PacketBody::ReceiverReport(v)),
            Err(e) => Err(e),
        }
    } else if packet_type == RTCP_SDES {
        match parse_chunks(payload, 0, count as nat) {
            Ok((v, _)) => Ok(PacketBody::SourceDescription(v)),
            Err(e) => Err(e),
        }
    } else if packet_type == RTCP_BYE {
        match good_bye_parse(payload, count) {
            Ok(v) => Ok(PacketBody::Goodbye(v)),
            Err(e) => Err(e),
        }
    } else if packet_type == RTCP_APP {
        Ok(PacketBody::ApplicationDefined(ApplicationDefined::parse(payload, count)))
    } else if packet_type == RTCP_RTPFB {
        match RtpFeedback::parse(payload, count) {
            Ok(v) => Ok(PacketBody::RTPFeedback(v)),
            Err(e) => Err(e),
        }
    } else if packet_type == RTCP_PSFB {
        match PayloadFeedback::parse(payload, count) {
            Ok(v) => Ok(PacketBody::PayloadSpecificFeedback(v)),
            Err(e) => Err(e),
        }
    } else {
        Err(RtcpError::UnknownPacketType)
    }
}

/// What the packet at the start of `b` decodes to, and how many bytes it
/// takes. The checks come in this order: the header is whole; the version
/// is 2; the body that the length field announces is there; the padding,
/// where announced, is well formed; the packet type is known and the body
/// decodes under it.
pub open spec fn parse_packet(b: Seq<u8>) -> Result<(Packet, int), RtcpError> {
    if b.len() < 4 {
        Err(RtcpError::PacketHeaderTooShort)
    } else if header_version(b[0]) != 2 {
        Err(RtcpError::UnknownVersion)
    } else if b.len() < 4 + 4 * u16_at(b, 2) {
        Err(short_buffer())
    } else if header_padding(b[0]) && !padding_ok(b) {
        Err(RtcpError::InvalidPaddingSize)
    } else {
        match parse_body(packet_payload(b), b[1], header_count(b[0])) {
            Ok(body) => Ok((Packet { version: 2, body }, 4 + 4 * u16_at(b, 2))),
            Err(e) => Err(e),
        }
    }
}

/// Reads the body of a packet from a cursor that holds the body and nothing
/// else, under the packet type and the five-bit field of its header.
fn decode_body(payload: &mut Octets, packet_type: u8, count: u8) -> (r: Result<
    RtcpPacketType,
    RtcpError,
>)
    requires
        old(payload).wf(),
        old(payload).pos() == 0,
    ensures
        final(final(payload).buf)@ == final(old(payload).buf)@,
        final(payload).wf(),
        final(payload).bytes() == old(payload).bytes(),
        match r {
            Ok(p) => parse_body(old(payload).bytes(), packet_type, count) == Ok::<
                PacketBody,
                RtcpError,
            >(p@),
            Err(e) => parse_body(old(payload).bytes(), packet_type, count) == Err::<
                PacketBody,
                RtcpError,
            >(e),
        },
{
    proof {
        reveal(parse_body);
        assert(payload.rest() =~= payload.bytes());
    }
    if packet_type == RTCP_SR {
        Ok(RtcpPacketType::SenderReport(RtcpSenderReportPacket::from_bytes(payload, count)?))
    } else if packet_type == RTCP_RR {
        Ok(RtcpPacketType::ReceiverReport(RtcpReceiverReportPacket::from_bytes(payload, count)?))
    } else if packet_type == RTCP_SDES {
        Ok(
            RtcpPacketType::SourceDescription(
                RtcpSourceDescriptionPacket::from_bytes(payload, count)?,
            ),
        )
    } else if packet_type == RTCP_BYE {
        Ok(RtcpPacketType::Goodbye(RtcpGoodByePacket::from_bytes(payload, count)?))
    } else if packet_type == RTCP_APP {
        Ok(
            RtcpPacketType::ApplicationDefined(
                RtcpApplicationDefinedPacket::from_bytes(payload, count),
            ),
        )
    } else if packet_type == RTCP_RTPFB {
        Ok(RtcpPacketType::RTPFeedback(RtcpRtpFeedbackPacket::from_bytes(payload, count)?))
    } else if packet_type == RTCP_PSFB {
        Ok(
            RtcpPacketType::PayloadSpecificFeedback(
                RtcpPayloadSpecificFeedbackPacket::from_bytes(payload, count)?,
            ),
        )
    } else {
        Err(RtcpError::UnknownPacketType)
    }
}

/// One RTCP packet: the version from its header, and its body.
#[derive(Debug, Clone, Eq, PartialEq, Hash)]
pub struct RtcpPacket {
    pub version: u8,
    pub packet: RtcpPacketType,
}

/// What an RTCP packet holds.
pub struct Packet {
    pub version: u8,
    pub body: PacketBody,
}

impl View for RtcpPacket {
    type V = Packet;

    open spec fn view(&self) -> Packet {
        Packet { version: self.version, body: self.packet@ }
    }
}

impl RtcpPacket {
    /// A packet of the given version and body.
    pub fn new(version: u8, packet: RtcpPacketType) -> (r: Self)
        ensures
            r.version == version,
            r.packet == packet,
    {
        RtcpPacket { version, packet }
    }

    /// Whether the packet can be written under a header.
    pub fn is_encodable(&self) -> (ok: bool)
        ensures
            ok == self@.body.encodable(),
    {
        self.packet.is_encodable()
    }

    /// Writes the packet at the cursor, under a header of version 2 without
    /// padding. Fails, with the buffer possibly written in part, exactly
    /// when the packet does not fit.
    pub fn to_bytes(&self, out: &mut Octets) -> (r: Result<(), RtcpError>)
        requires
            old(out).wf(),
            self@.body.encodable(),
        ensures
            final(final(out).buf)@ == final(old(out).buf)@,
            match r {
                Ok(_) => {
                    &&& old(out).rest().len() >= self@.body.packet_wire(old(out).pos()).len()
                    &&& final(out).wrote(old(out), self@.body.packet_wire(old(out).pos()))
                },
                Err(e) => {
                    &&& old(out).rest().len() < self@.body.packet_wire(old(out).pos()).len()
                    &&& e == short_buffer()
                    &&& final(out).stopped(old(out), self@.body.packet_wire(old(out).pos()))
                },
            },
    {
        pack_rtcp_packet(&self.packet, out)?;
        Ok(())
    }

    /// Reads the packet at the cursor and moves behind it. The bytes that
    /// the header's length field announces are set apart for the body, so
    /// that no body is read beyond them. What was read can be written again.
    ///
    /// A packet whose first byte does not give version 2 is refused as of
    /// unknown version, whatever else it holds, as soon as its four header
    /// bytes are there. A packet that announces padding is refused for its
    /// padding size when its length field is zero or when the last byte of
    /// its region is zero.
    pub fn from_bytes(bytes: &mut Octets) -> (r: Result<RtcpPacket, RtcpError>)
        requires
            old(bytes).wf(),
        ensures
            final(final(bytes).buf)@ == final(old(bytes).buf)@,
            final(bytes).wf(),
            final(bytes).bytes() == old(bytes).bytes(),
            final(bytes).pos() >= old(bytes).pos(),
            match r {
                Ok(p) => {
                    &&& parse_packet(old(bytes).rest()) == Ok::<(Packet, int), RtcpError>(
                        (p@, final(bytes).pos() - old(bytes).pos()),
                    )
                    &&& p@.body.encodable()
                },
                Err(e) => parse_packet(old(bytes).rest()) == Err::<(Packet, int), RtcpError>(e),
            },
            old(bytes).rest().len() >= 4 && header_version(old(bytes).rest()[0]) != 2 ==> r
                is Err && r->Err_0 == RtcpError::UnknownVersion,
            ({
                let b = old(bytes).rest();
                b.len() >= 4 && header_version(b[0]) == 2 && header_padding(b[0]) && b.len() >= 4
                    + 4 * u16_at(b, 2) && (u16_at(b, 2) == 0 || b[3 + 4 * u16_at(b, 2)] == 0)
                    ==> r is Err && r->Err_0 == RtcpError::InvalidPaddingSize
            }),
    {
        let ghost b = bytes.rest();
        let ghost whole = bytes.bytes();
        let ghost start = bytes.pos();
        if bytes.cap() < 4 {
            return Err(RtcpError::PacketHeaderTooShort);
        }
        let first = lift(bytes.get_u8())?;
        let version = first >> 6;
        let padding = (first & 0b00100000) > 0;
        let count = first & 0b00011111;
        proof {
            assert(first >> 6 == first / 64) by (bit_vector);
            assert(((first & 0b00100000) > 0) == ((first / 32) % 2 == 1)) by (bit_vector);
            assert(first & 0b00011111 == first % 32) by (bit_vector);
            assert(first == b[0]);
        }
        if version != 2 {
            return Err(RtcpError::UnknownVersion);
        }
        let packet_type = lift(bytes.get_u8())?;
        let length = lift(bytes.get_u16())?;
        proof {
            assert(packet_type == b[1]);
            assert(length == u16_at(b, 2));
        }
        let mut region = lift(bytes.get_bytes(length as usize * 4))?;
        proof {
            assert(region.bytes() =~= packet_region(b));
        }
        let body_len: usize = if padding {
            if length == 0 {
                return Err(RtcpError::InvalidPaddingSize);
            }
            let padding_length = lift(region.get_val(region.len() - 1))? as usize;
            if padding_length == 0 || padding_length > region.len() {
                return Err(RtcpError::InvalidPaddingSize);
            }
            region.len() - padding_length
        } else {
            region.len()
        };
        let mut payload = lift(region.get_bytes(body_len))?;
        proof {
            assert(payload.bytes() =~= packet_payload(b));
        }
        let packet = decode_body(&mut payload, packet_type, count)?;
        proof {
            assert(bytes.bytes() =~= whole);
            lemma_decoded_body_fits(packet_payload(b), packet_type, count);
        }
        Ok(RtcpPacket { version, packet })
    }
}

/// What a list of packets holds.
pub open spec fn packets_view(packets: Seq<RtcpPacket>) -> Seq<Packet> {
    Seq::new(packets.len(), |i: int| packets[i]@)
}

/// The result of reading packets, with `front` put before what was read.
pub open spec fn after_packets(front: Seq<Packet>, r: Result<Seq<Packet>, RtcpError>) -> Result<
    Seq<Packet>,
    RtcpError,
> {
    match r {
        Ok(list) => Ok(front + list),
        Err(e) => Err(e),
    }
}

/// What a compound buffer decodes to: its packets in order, read one behind
/// the other until the buffer is used up. The first packet that does not
/// decode fails the whole buffer.
pub open spec fn parse_all(b: Seq<u8>) -> Result<Seq<Packet>, RtcpError>
    decreases b.len(),
{
    if b.len() == 0 {
        Ok(Seq::empty())
    } else {
        match parse_packet(b) {
            Err(e) => Err(e),
            Ok((packet, n)) => after_packets(seq![packet], parse_all(b.skip(n))),
        }
    }
}

/// The packets on the wire, one after the other, the first at position `at`.
pub open spec fn wire_all(packets: Seq<Packet>, at: int) -> Seq<u8>
    decreases packets.len(),
{
    if packets.len() == 0 {
        Seq::empty()
    } else {
        let first = packets[0].body.packet_wire(at);
        first + wire_all(packets.skip(1), at + first.len())
    }
}

/// Every packet of the list can be written under a header.
pub open spec fn all_encodable(packets: Seq<Packet>) -> bool {
    forall|i: int| 0 <= i < packets.len() ==> (#[trigger] packets[i]).body.encodable()
}

/// Reads packets from the cursor until the buffer is used up. What was read
/// can be written again.
///
/// Where at least four bytes are left and the first of them does not give
/// version 2, the buffer is refused as of unknown version.
pub fn parse(bytes: &mut Octets) -> (r: Result<Vec<RtcpPacket>, RtcpError>)
    requires
        old(bytes).wf(),
    ensures
        final(final(bytes).buf)@ == final(old(bytes).buf)@,
        final(bytes).wf(),
        final(bytes).bytes() == old(bytes).bytes(),
        match r {
            Ok(packets) => {
                &&& parse_all(old(bytes).rest()) == Ok::<Seq<Packet>, RtcpError>(
                    packets_view(packets@),
                )
                &&& all_encodable(packets_view(packets@))
                &&& final(bytes).pos() == old(bytes).bytes().len()
            },
            Err(e) => parse_all(old(bytes).rest()) == Err::<Seq<Packet>, RtcpError>(e),
        },
        old(bytes).rest().len() >= 4 && header_version(old(bytes).rest()[0]) != 2 ==> r is Err
            && r->Err_0 == RtcpError::UnknownVersion,
{
    let ghost whole = bytes.bytes();
    let ghost b = bytes.rest();
    let mut packet_list: Vec<RtcpPacket> = Vec::new();
    proof {
        assert(packets_view(packet_list@) =~= Seq::empty());
        match parse_all(b) {
            Ok(list) => {
                assert(packets_view(packet_list@) + list =~= list);
            },
            Err(_) => {},
        }
    }
    while bytes.off() < bytes.len()
        invariant
            whole == old(bytes).bytes(),
            b == old(bytes).rest(),
            bytes.wf(),
            bytes.bytes() == whole,
            bytes.pos() >= old(bytes).pos(),
            after_packets(packets_view(packet_list@), parse_all(bytes.rest())) == parse_all(b),
            final(bytes.buf)@ == final(old(bytes).buf)@,
            b.len() >= 4 && header_version(b[0]) != 2 ==> bytes.pos() == old(bytes).pos(),
        decreases whole.len() - bytes.pos(),
    {
        let ghost here = bytes.rest();
        let ghost at = bytes.pos();
        let packet = RtcpPacket::from_bytes(bytes)?;
        let ghost before = packets_view(packet_list@);
        packet_list.push(packet);
        proof {
            let n = bytes.pos() - at;
            assert(here.skip(n) =~= bytes.rest());
            assert(packets_view(packet_list@) =~= before + seq![packet@]);
            match parse_all(bytes.rest()) {
                Ok(list) => {
                    assert(before + (seq![packet@] + list) =~= packets_view(packet_list@) + list);
                },
                Err(_) => {},
            }
        }
    }
    proof {
        assert(bytes.rest().len() == 0);
        assert(packets_view(packet_list@) + Seq::<Packet>::empty() =~= packets_view(
            packet_list@,
        ));
        lemma_decoded_all_fit(b);
    }
    Ok(packet_list)
}

/// Writes the packets at the cursor, in order. Fails, with the buffer
/// possibly written in part, exactly when they do not all fit.
pub fn serialize(packets: Vec<RtcpPacket>, out: &mut Octets) -> (r: Result<(), RtcpError>)
    requires
        old(out).wf(),
        all_encodable(packets_view(packets@)),
    ensures
        final(final(out).buf)@ == final(old(out).buf)@,
        match r {
            Ok(_) => {
                &&& old(out).rest().len() >= wire_all(packets_view(packets@), old(out).pos()).len()
                &&& final(out).wrote(old(out), wire_all(packets_view(packets@), old(out).pos()))
            },
            Err(e) => {
                &&& old(out).rest().len() < wire_all(packets_view(packets@), old(out).pos()).len()
                &&& e == short_buffer()
                &&& final(out).stopped(old(out), wire_all(packets_view(packets@), old(out).pos()))
            },
        },
{
    let ghost b0 = out.bytes();
    let ghost p = out.pos();
    let ghost list = packets_view(packets@);
    let ghost done: Seq<u8> = Seq::empty();
    let mut i: usize = 0;
    proof {
        assert(list.skip(0) =~= list);
        assert(done + wire_all(list, p) =~= wire_all(list, p));
        assert(spliced(b0, p, done) =~= b0);
    }
    while i < packets.len()
        invariant
            i <= packets@.len(),
            list == packets_view(packets@),
            all_encodable(list),
            b0 == old(out).bytes(),
            p == old(out).pos(),
            old(out).wf(),
            done + wire_all(list.skip(i as int), p + done.len()) == wire_all(list, p),
            out.wrote(old(out), done),
            final(out.buf)@ == final(old(out).buf)@,
        decreases packets@.len() - i,
    {
        let ghost here = list.skip(i as int);
        let ghost piece = here[0].body.packet_wire(p + done.len());
        proof {
            assert(here[0] == packets@[i as int]@);
            assert(here.skip(1) =~= list.skip(i + 1));
            assert(list[i as int].body.encodable());
            assert((done + piece) + wire_all(list.skip(i + 1), p + done.len() + piece.len())
                =~= done + (piece + wire_all(list.skip(i + 1), p + done.len() + piece.len())));
        }
        packets[i].to_bytes(out)?;
        proof {
            lemma_spliced_twice(b0, p, done, piece);
            done = done + piece;
        }
        i = i + 1;
    }
    proof {
        assert(list.skip(i as int).len() == 0);
        assert(done =~= wire_all(list, p));
    }
    Ok(())
}

} // verus!
