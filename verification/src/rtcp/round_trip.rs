//! Decoding and encoding again gives the bytes back, and encoding and
//! decoding again gives the packets back: for which buffers and packets, and
//! the proofs.
//!
//! Three things are lost in decoding, so a buffer that holds one of them
//! does not come back byte for byte: padding at the end of a packet, which
//! the encoder never writes; bytes in a packet's body behind what its type
//! reads (behind the sources of a goodbye, behind the chunks of a source
//! description, in the padding of a chunk where it is not zeros); and the
//! split of lost sequence numbers into pairs, where the encoder would have
//! merged two of them.

use crate::octets::{
    lemma_u16_at_write, lemma_u16_read_at, lemma_u32s_octets_len, u16_at, u16_octets,
};
use crate::rtcp::good_bye::{lemma_good_bye_parse_then_wire, lemma_good_bye_wire_then_parse};
use crate::rtcp::packet::{
    all_encodable, header_count, header_padding, packet_payload, parse_all, parse_body,
    parse_packet, wire_all, Packet, PacketBody, RTCP_APP, RTCP_BYE, RTCP_PSFB, RTCP_RR,
    RTCP_RTPFB, RTCP_SDES, RTCP_SR,
};
use crate::rtcp::payload_specific_feedback::PayloadFeedback;
use crate::rtcp::receiver_report::ReceiverReport;
use crate::rtcp::rtp_feedback::{lemma_pairs_lost_then_pairs_count, pairs_canonical, RtpFeedback};
use crate::rtcp::sender_report::SenderReport;
use crate::rtcp::source_description::{
    chunks_fit, chunks_wire, lemma_chunks_wire_len, lemma_chunks_wire_shift,
    lemma_chunks_wire_then_parse, lemma_padding_shift, lemma_parse_chunks_then_wire,
    parse_chunks, zero_padded,
};
use crate::rtcp::RtcpError;
use vstd::prelude::*;

verus! {

/// The body `payload` holds nothing that decoding loses under the packet
/// type `packet_type` and the count `count`: it ends where its type stops
/// reading; the padding of its chunks is zeros; no two of its pairs of lost
/// sequence numbers would have been merged.
pub open spec fn canonical_body(payload: Seq<u8>, packet_type: u8, count: u8) -> bool {
    &&& packet_type == RTCP_BYE ==> payload.len() == 4 * count
    &&& packet_type == RTCP_RTPFB ==> pairs_canonical(RtpFeedback::body_pairs(payload))
    &&& packet_type == RTCP_SDES ==> {
        &&& zero_padded(payload, 0, count as nat)
        &&& parse_chunks(payload, 0, count as nat) matches Ok((_, end)) ==> end == payload.len()
    }
}

/// The packet at the start of `b` holds nothing that decoding loses: it
/// announces no padding, and its body is canonical.
pub open spec fn canonical_packet(b: Seq<u8>) -> bool {
    &&& !header_padding(b[0])
    &&& canonical_body(packet_payload(b), b[1], header_count(b[0]))
}

/// Every packet of the compound buffer `b` is canonical.
pub open spec fn canonical_all(b: Seq<u8>) -> bool
    decreases b.len(),
{
    if b.len() == 0 {
        true
    } else {
        match parse_packet(b) {
            Err(_) => true,
            Ok((_, n)) => canonical_packet(b) && canonical_all(b.skip(n)),
        }
    }
}

/// What a body decodes to carries the packet type and count it was decoded
/// under, and can be written at any position on a 32-bit boundary; written
/// there it is the body exactly when the body is canonical.
pub proof fn lemma_body_round_trip(payload: Seq<u8>, packet_type: u8, count: u8, at: int)
    requires
        parse_body(payload, packet_type, count) is Ok,
        count <= 31,
        at % 4 == 0,
    ensures
        ({
            let body = parse_body(payload, packet_type, count)->Ok_0;
            &&& body.packet_type() == packet_type
            &&& body.count() == count
            &&& body matches PacketBody::SourceDescription(v) ==> chunks_fit(v)
            &&& body.wire(at) == payload <==> canonical_body(payload, packet_type, count)
            &&& body.wire(at) == payload ==> body.length() == payload.len()
        }),
{
    reveal(parse_body);
    if packet_type == RTCP_SR {
        SenderReport::lemma_parse_then_wire(payload, count);
    } else if packet_type == RTCP_RR {
        ReceiverReport::lemma_parse_then_wire(payload, count);
    } else if packet_type == RTCP_SDES {
        lemma_parse_chunks_then_wire(payload, 0, count as nat);
        let (chunks, end) = parse_chunks(payload, 0, count as nat)->Ok_0;
        lemma_chunks_wire_shift(chunks, 0, at);
        lemma_chunks_wire_len(chunks, 0);
        if end == payload.len() {
            assert(payload.subrange(0, end) =~= payload);
        }
    } else if packet_type == RTCP_BYE {
        lemma_good_bye_parse_then_wire(payload, count);
    } else if packet_type == RTCP_APP {
    } else if packet_type == RTCP_RTPFB {
        RtpFeedback::lemma_parse_then_wire(payload, count);
    } else if packet_type == RTCP_PSFB {
        PayloadFeedback::lemma_parse_then_wire(payload, count);
    }
}

/// One packet, decoded and written again at a position on a 32-bit
/// boundary, is the bytes it was read from.
pub proof fn lemma_packet_round_trip_at(b: Seq<u8>, at: int)
    requires
        parse_packet(b) is Ok,
        canonical_packet(b),
        at % 4 == 0,
    ensures
        ({
            let (packet, n) = parse_packet(b)->Ok_0;
            &&& 4 <= n <= b.len()
            &&& n % 4 == 0
            &&& packet.body.encodable()
            &&& packet.body.packet_wire(at) == b.take(n)
        }),
{
    let (packet, n) = parse_packet(b)->Ok_0;
    let payload = packet_payload(b);
    let count = header_count(b[0]);
    lemma_body_round_trip(payload, b[1], count, at + 4);
    lemma_u16_at_write(b, 2);
    let body = packet.body;
    assert(body.header() =~= b.subrange(0, 4)) by {
        assert(b[0] == 0x80 + count);
        assert(body.length() / 4 == u16_at(b, 2));
        assert(seq![b[0], b[1]] + b.subrange(2, 4) =~= b.subrange(0, 4));
    }
    assert(b.subrange(0, 4) + b.subrange(4, n) =~= b.take(n));
}

/// A compound buffer, decoded and written again from a position on a
/// 32-bit boundary, is the bytes it was read from.
pub proof fn lemma_compound_round_trip_at(b: Seq<u8>, at: int)
    requires
        parse_all(b) is Ok,
        canonical_all(b),
        at % 4 == 0,
    ensures
        all_encodable(parse_all(b)->Ok_0),
        wire_all(parse_all(b)->Ok_0, at) == b,
    decreases b.len(),
{
    let packets = parse_all(b)->Ok_0;
    if b.len() == 0 {
        assert(wire_all(packets, at) =~= b);
    } else {
        let (packet, n) = parse_packet(b)->Ok_0;
        lemma_packet_round_trip_at(b, at);
        lemma_compound_round_trip_at(b.skip(n), at + n);
        let rest = parse_all(b.skip(n))->Ok_0;
        assert(packets == seq![packet] + rest);
        assert(packets[0] == packet);
        assert(packets.skip(1) =~= rest);
        assert(b.take(n) + b.skip(n) =~= b);
        assert forall|i: int| 0 <= i < packets.len() implies (#[trigger] packets[i]).body.encodable(
        ) by {
            if i > 0 {
                assert(packets[i] == rest[i - 1]);
            }
        }
    }
}

/// What a body decodes to can be written under a header and is no longer
/// than the body was; it is a whole number of words long where the body was.
pub proof fn lemma_decoded_body_fits(payload: Seq<u8>, packet_type: u8, count: u8)
    requires
        parse_body(payload, packet_type, count) is Ok,
        count <= 31,
        payload.len() <= 4 * 0xFFFF,
    ensures
        ({
            let body = parse_body(payload, packet_type, count)->Ok_0;
            &&& body.encodable()
            &&& body.length() <= payload.len()
            &&& body.wire(0).len() == body.length()
            &&& payload.len() % 4 == 0 ==> body.whole_words()
        }),
{
    reveal(parse_body);
    let body = parse_body(payload, packet_type, count)->Ok_0;
    if packet_type == RTCP_SR {
        SenderReport::lemma_parse_then_wire(payload, count);
    } else if packet_type == RTCP_RR {
        ReceiverReport::lemma_parse_then_wire(payload, count);
    } else if packet_type == RTCP_SDES {
        lemma_parse_chunks_then_wire(payload, 0, count as nat);
        let (chunks, end) = parse_chunks(payload, 0, count as nat)->Ok_0;
        lemma_chunks_wire_len(chunks, 0);
    } else if packet_type == RTCP_BYE {
        lemma_good_bye_parse_then_wire(payload, count);
        lemma_u32s_octets_len(body->Goodbye_0);
    } else if packet_type == RTCP_APP {
    } else if packet_type == RTCP_RTPFB {
        let v = RtpFeedback::parse(payload, count)->Ok_0;
        let pairs = RtpFeedback::body_pairs(payload);
        v.lemma_wire_len();
        lemma_pairs_lost_then_pairs_count(pairs);
    } else if packet_type == RTCP_PSFB {
    }
}

/// What a packet decodes to can be written under a header.
pub proof fn lemma_decoded_packet_fits(b: Seq<u8>)
    requires
        parse_packet(b) is Ok,
    ensures
        parse_packet(b)->Ok_0.0.body.encodable(),
        parse_packet(b)->Ok_0.0.version == 2,
{
    lemma_decoded_body_fits(packet_payload(b), b[1], header_count(b[0]));
}

/// What a compound buffer decodes to can be written, packet by packet.
pub proof fn lemma_decoded_all_fit(b: Seq<u8>)
    requires
        parse_all(b) is Ok,
    ensures
        all_encodable(parse_all(b)->Ok_0),
    decreases b.len(),
{
    let packets = parse_all(b)->Ok_0;
    if b.len() > 0 {
        let (packet, n) = parse_packet(b)->Ok_0;
        lemma_decoded_packet_fits(b);
        lemma_decoded_all_fit(b.skip(n));
        let rest = parse_all(b.skip(n))->Ok_0;
        assert(packets == seq![packet] + rest);
        assert forall|i: int| 0 <= i < packets.len() implies (#[trigger] packets[i]).body.encodable(
        ) by {
            if i > 0 {
                assert(packets[i] == rest[i - 1]);
            }
        }
    }
}

/// The wire form of a body depends on where it starts only through the
/// remainder of that position by four.
pub proof fn lemma_body_wire_shift(body: PacketBody, at: int, to: int)
    requires
        at % 4 == to % 4,
    ensures
        body.wire(at) == body.wire(to),
{
    match body {
        PacketBody::SourceDescription(v) => {
            lemma_chunks_wire_shift(v, at, to);
        },
        _ => {},
    }
}

/// The wire form of a list of packets depends on where it starts only
/// through the remainder of that position by four.
pub proof fn lemma_wire_all_shift(packets: Seq<Packet>, at: int, to: int)
    requires
        at % 4 == to % 4,
    ensures
        wire_all(packets, at) == wire_all(packets, to),
    decreases packets.len(),
{
    if packets.len() > 0 {
        let body = packets[0].body;
        lemma_padding_shift(at, to, 4);
        lemma_body_wire_shift(body, at + 4, to + 4);
        let w = body.packet_wire(at).len() as int;
        lemma_padding_shift(at, to, w);
        lemma_wire_all_shift(packets.skip(1), at + w, to + w);
    }
}

/// Decoding one packet and encoding it again gives its bytes back: where
/// the packet at the start of `b` decodes and is canonical, what it decodes
/// to can be written, and written to the start of a buffer it is the bytes
/// it was read from.
pub proof fn lemma_packet_round_trip(b: Seq<u8>)
    requires
        parse_packet(b) is Ok,
        canonical_packet(b),
    ensures
        parse_packet(b)->Ok_0.0.body.encodable(),
        parse_packet(b)->Ok_0.0.body.packet_wire(0) == b.take(parse_packet(b)->Ok_0.1),
{
    lemma_packet_round_trip_at(b, 0);
}

/// A packet that decodes takes its header and the words that the header
/// counts, all of which are there.
proof fn lemma_packet_len(b: Seq<u8>)
    requires
        parse_packet(b) is Ok,
    ensures
        parse_packet(b)->Ok_0.1 == 4 + 4 * u16_at(b, 2),
        parse_packet(b)->Ok_0.1 % 4 == 0,
        4 <= parse_packet(b)->Ok_0.1 <= b.len(),
{
}

/// Only a canonical packet comes back: where the packet at the start of
/// `b` decodes, and what it decodes to is, written to the start of a buffer,
/// the bytes it was read from, the packet is canonical.
pub proof fn lemma_packet_round_trip_only(b: Seq<u8>)
    requires
        parse_packet(b) is Ok,
        parse_packet(b)->Ok_0.0.body.packet_wire(0) == b.take(parse_packet(b)->Ok_0.1),
    ensures
        canonical_packet(b),
{
    let (packet, n) = parse_packet(b)->Ok_0;
    let body = packet.body;
    let count = header_count(b[0]);
    let written = body.packet_wire(0);
    lemma_packet_len(b);
    lemma_body_round_trip(packet_payload(b), b[1], count, 4);
    assert(written[0] == 0x80 + body.count());
    assert(b.take(n)[0] == b[0]);
    assert(!header_padding(b[0]));
    assert(body.wire(4) =~= packet_payload(b)) by {
        assert(body.header().len() == 4);
        assert(written.len() == n);
        assert(body.wire(4) =~= written.subrange(4, n));
        assert(packet_payload(b) =~= b.take(n).subrange(4, n));
    }
}

/// The header of a body that can be written gives back the count, the
/// packet type and the length in words.
proof fn lemma_header_read(body: PacketBody, b: Seq<u8>)
    requires
        body.encodable(),
        b.len() >= 4,
        b.take(4) == body.header(),
    ensures
        !header_padding(b[0]),
        header_count(b[0]) == body.count(),
        b[1] == body.packet_type(),
        u16_at(b, 2) == body.length() / 4,
{
    let head = body.header();
    let words = (body.length() / 4) as u16;
    assert(b.take(4)[0] == b[0] && b.take(4)[1] == b[1]);
    assert(head[0] == 0x80 + body.count());
    assert(head[1] == body.packet_type());
    assert(b.subrange(2, 4) =~= u16_octets(words)) by {
        assert(b.subrange(2, 4) =~= b.take(4).subrange(2, 4));
        assert(head.subrange(2, 4) =~= u16_octets(words));
    }
    lemma_u16_read_at(b, 2, words);
}

/// Where a buffer starts with the wire form of what its first packet
/// decodes to, that wire form is as long as the packet was.
proof fn lemma_first_packet_whole(b: Seq<u8>, later: Seq<u8>)
    requires
        parse_packet(b) is Ok,
        b == parse_packet(b)->Ok_0.0.body.packet_wire(0) + later,
    ensures
        parse_packet(b)->Ok_0.0.body.packet_wire(0).len() == parse_packet(b)->Ok_0.1,
{
    let (packet, n) = parse_packet(b)->Ok_0;
    let body = packet.body;
    let first = body.packet_wire(0);
    lemma_packet_len(b);
    lemma_decoded_packet_fits(b);
    assert(b.take(4) =~= body.header());
    lemma_header_read(body, b);
    let payload = packet_payload(b);
    assert(payload.len() == 4 * u16_at(b, 2));
    lemma_decoded_body_fits(payload, b[1], header_count(b[0]));
    lemma_body_wire_shift(body, 4, 0);
    assert(body.length() == 4 * u16_at(b, 2));
    assert(first.len() == 4 + body.wire(4).len());
}

/// A buffer made of two pieces is cut into them where the first ends.
proof fn lemma_split(b: Seq<u8>, first: Seq<u8>, later: Seq<u8>)
    requires
        b == first + later,
    ensures
        first == b.take(first.len() as int),
        later == b.skip(first.len() as int),
{
    assert(first =~= b.take(first.len() as int));
    assert(later =~= b.skip(first.len() as int));
}

/// Only a canonical buffer comes back: where the compound buffer `b`
/// decodes, and the packets it decodes to are, written to the start of a
/// buffer, `b` again, every packet of `b` is canonical.
pub proof fn lemma_compound_round_trip_only(b: Seq<u8>)
    requires
        parse_all(b) is Ok,
        wire_all(parse_all(b)->Ok_0, 0) == b,
    ensures
        canonical_all(b),
    decreases b.len(),
{
    let packets = parse_all(b)->Ok_0;
    if b.len() > 0 {
        let (packet, n) = parse_packet(b)->Ok_0;
        let rest = parse_all(b.skip(n))->Ok_0;
        assert(packets == seq![packet] + rest);
        assert(packets[0] == packet);
        assert(packets.skip(1) =~= rest);
        let first = packet.body.packet_wire(0);
        let later = wire_all(rest, first.len() as int);
        assert(wire_all(packets, 0) == first + later);
        lemma_packet_len(b);
        lemma_first_packet_whole(b, later);
        assert(first == b.take(n) && later == b.skip(n)) by {
            lemma_split(b, first, later);
        }
        lemma_packet_round_trip_only(b);
        lemma_wire_all_shift(rest, n, 0);
        lemma_compound_round_trip_only(b.skip(n));
    }
}

/// Decoding a compound buffer and encoding the packets again gives the
/// buffer back, byte for byte: where `b` decodes and each of its packets is
/// canonical, the packets can all be written, and written to the start of a
/// buffer they are `b`.
pub proof fn lemma_compound_round_trip(b: Seq<u8>)
    requires
        parse_all(b) is Ok,
        canonical_all(b),
    ensures
        all_encodable(parse_all(b)->Ok_0),
        wire_all(parse_all(b)->Ok_0, 0) == b,
{
    lemma_compound_round_trip_at(b, 0);
}

/// A packet that decodes comes back from decoding and encoding, byte for
/// byte, exactly when it is canonical.
pub proof fn lemma_packet_comes_back(b: Seq<u8>)
    requires
        parse_packet(b) is Ok,
    ensures
        parse_packet(b)->Ok_0.0.body.encodable(),
        parse_packet(b)->Ok_0.0.body.packet_wire(0) == b.take(parse_packet(b)->Ok_0.1)
            <==> canonical_packet(b),
{
    lemma_decoded_packet_fits(b);
    if canonical_packet(b) {
        lemma_packet_round_trip(b);
    }
    if parse_packet(b)->Ok_0.0.body.packet_wire(0) == b.take(parse_packet(b)->Ok_0.1) {
        lemma_packet_round_trip_only(b);
    }
}

/// A compound buffer that decodes comes back from decoding and encoding,
/// byte for byte, exactly when each of its packets is canonical.
pub proof fn lemma_compound_comes_back(b: Seq<u8>)
    requires
        parse_all(b) is Ok,
    ensures
        all_encodable(parse_all(b)->Ok_0),
        wire_all(parse_all(b)->Ok_0, 0) == b <==> canonical_all(b),
{
    lemma_decoded_all_fit(b);
    if canonical_all(b) {
        lemma_compound_round_trip(b);
    }
    if wire_all(parse_all(b)->Ok_0, 0) == b {
        lemma_compound_round_trip_only(b);
    }
}

/// Every packet of the list has version 2 and can be written and read
/// again: it fits a header, is a whole number of words long, and loses
/// nothing in writing.
pub open spec fn all_readable(packets: Seq<Packet>) -> bool {
    forall|i: int|
        0 <= i < packets.len() ==> {
            &&& (#[trigger] packets[i]).version == 2
            &&& packets[i].body.encodable()
            &&& packets[i].body.whole_words()
            &&& packets[i].body.readable()
        }
}

/// A body written at a position on a 32-bit boundary decodes, under its own
/// packet type and count, to what was written.
pub proof fn lemma_body_read_back(body: PacketBody, at: int)
    requires
        body.encodable(),
        body.readable(),
        at % 4 == 0,
    ensures
        parse_body(body.wire(at), body.packet_type(), body.count() as u8) == Ok::<
            PacketBody,
            RtcpError,
        >(body),
        body.wire(at).len() == body.length(),
{
    reveal(parse_body);
    match body {
        PacketBody::SenderReport(v) => {
            v.lemma_wire_then_parse();
        },
        PacketBody::ReceiverReport(v) => {
            v.lemma_wire_then_parse();
        },
        PacketBody::SourceDescription(v) => {
            lemma_chunks_wire_shift(v, at, 0);
            lemma_chunks_wire_len(v, 0);
            let b = chunks_wire(v, 0);
            assert(b.subrange(0, b.len() as int) =~= b);
            lemma_chunks_wire_then_parse(b, 0, v);
        },
        PacketBody::Goodbye(v) => {
            lemma_good_bye_wire_then_parse(v);
        },
        PacketBody::ApplicationDefined(v) => {},
        PacketBody::RTPFeedback(v) => {
            v.lemma_wire_then_parse();
        },
        PacketBody::PayloadSpecificFeedback(v) => {
            v.lemma_wire_then_parse();
        },
    }
}

/// A packet written at a position on a 32-bit boundary, with whatever
/// follows it, decodes to what was written and takes the bytes that were
/// written.
pub proof fn lemma_packet_read_back_at(body: PacketBody, at: int, tail: Seq<u8>)
    requires
        body.encodable(),
        body.whole_words(),
        body.readable(),
        at % 4 == 0,
    ensures
        parse_packet(body.packet_wire(at) + tail) == Ok::<(Packet, int), RtcpError>(
            (Packet { version: 2, body }, body.packet_wire(at).len() as int),
        ),
        body.packet_wire(at).len() % 4 == 0,
        body.packet_wire(at).len() >= 4,
{
    lemma_body_read_back(body, at + 4);
    let head = body.header();
    let payload = body.wire(at + 4);
    let b = body.packet_wire(at) + tail;
    let words = (body.length() / 4) as u16;
    assert(b.subrange(2, 4) =~= u16_octets(words));
    lemma_u16_read_at(b, 2, words);
    assert(b[0] == 0x80 + body.count());
    assert(b[1] == body.packet_type());
    assert(packet_payload(b) =~= payload);
}

/// Packets written one after the other from a position on a 32-bit
/// boundary decode to what was written.
pub proof fn lemma_compound_read_back_at(packets: Seq<Packet>, at: int)
    requires
        all_readable(packets),
        at % 4 == 0,
    ensures
        parse_all(wire_all(packets, at)) == Ok::<Seq<Packet>, RtcpError>(packets),
    decreases packets.len(),
{
    if packets.len() == 0 {
        assert(packets =~= Seq::<Packet>::empty());
    } else {
        let first = packets[0];
        let rest = packets.skip(1);
        let w = first.body.packet_wire(at);
        let later = wire_all(rest, at + w.len());
        lemma_packet_read_back_at(first.body, at, later);
        assert forall|i: int| 0 <= i < rest.len() implies {
            &&& (#[trigger] rest[i]).version == 2
            &&& rest[i].body.encodable()
            &&& rest[i].body.whole_words()
            &&& rest[i].body.readable()
        } by {
            assert(rest[i] == packets[i + 1]);
        }
        lemma_compound_read_back_at(rest, at + w.len());
        assert((w + later).skip(w.len() as int) =~= later);
        assert(seq![first] + rest =~= packets);
        assert(first == (Packet { version: 2, body: first.body }));
    }
}

/// Encoding one packet and decoding it again gives the packet back: a body
/// that fits a header, is a whole number of words long and loses nothing in
/// writing decodes, from the start of a buffer, to itself under version 2.
pub proof fn lemma_packet_read_back(body: PacketBody)
    requires
        body.encodable(),
        body.whole_words(),
        body.readable(),
    ensures
        parse_packet(body.packet_wire(0)) == Ok::<(Packet, int), RtcpError>(
            (Packet { version: 2, body }, body.packet_wire(0).len() as int),
        ),
{
    lemma_packet_read_back_at(body, 0, Seq::empty());
    assert(body.packet_wire(0) + Seq::<u8>::empty() =~= body.packet_wire(0));
}

/// Encoding a list of packets and decoding the buffer again gives the list
/// back, where each packet has version 2, fits a header, is a whole number
/// of words long and loses nothing in writing.
pub proof fn lemma_compound_read_back(packets: Seq<Packet>)
    requires
        all_readable(packets),
    ensures
        parse_all(wire_all(packets, 0)) == Ok::<Seq<Packet>, RtcpError>(packets),
{
    lemma_compound_read_back_at(packets, 0);
}

} // verus!
