//! Decoding an RTP packet and encoding it again gives the bytes back, where
//! the packet's padding is what the encoder writes: zeros and the count.
//! Encoding a packet and decoding it again gives the packet back, where it
//! has version 2 and fills the sixteen bytes that the decoder asks for.

use crate::octets::{
    lemma_u16_at_write, lemma_u16_read_at, lemma_u32_at_write, lemma_u32_read_at,
    lemma_u32s_at_write, lemma_u32s_octets_len, lemma_u32s_read_at, u16_at, u16_octets, u32_at,
    u32_octets, u32s_at, u32s_octets,
};
use crate::rtp::packet::{
    first_csrc_count, first_extension, first_padding, first_version, Header, HeaderExtension,
    MediaPacket,
};
use crate::rtp::RtpError;
use vstd::prelude::*;

verus! {

/// The padding of the packet `b`, where its header announces one, counts at
/// least the byte that holds the count, and all but that byte is zeros.
pub open spec fn canonical_padding(b: Seq<u8>) -> bool {
    b.len() > 0 && first_padding(b[0]) ==> {
        &&& b.last() >= 1
        &&& forall|j: int| b.len() - b.last() <= j < b.len() - 1 && 0 <= j ==> b[j] == 0
    }
}

/// An extension that was read is the bytes it was read from.
pub proof fn lemma_extension_parse_then_wire(b: Seq<u8>)
    requires
        HeaderExtension::parse(b) is Ok,
    ensures
        ({
            let (ext, n) = HeaderExtension::parse(b)->Ok_0;
            &&& 4 <= n <= b.len()
            &&& ext.payload.len() <= 0xFFFF
            &&& ext.wire() == b.take(n)
        }),
{
    let (ext, n) = HeaderExtension::parse(b)->Ok_0;
    let words = u16_at(b, 2) as nat;
    lemma_u16_at_write(b, 0);
    lemma_u16_at_write(b, 2);
    lemma_u32s_at_write(b, 4, words);
    assert(b.subrange(0, 2) + b.subrange(2, 4) + b.subrange(4, 4 + 4 * (words as int))
        =~= b.take(n));
}

/// A header that was read can be written, and is the bytes it was read
/// from.
pub proof fn lemma_header_parse_then_wire(b: Seq<u8>)
    requires
        Header::parse(b) is Ok,
    ensures
        ({
            let (header, n) = Header::parse(b)->Ok_0;
            &&& 12 <= n <= b.len()
            &&& header.encodable()
            &&& header.wire() == b.take(n)
            &&& header.padding is Some <==> first_padding(b[0])
            &&& header.padding matches Some(v) ==> v == b.last()
        }),
{
    let (header, n) = Header::parse(b)->Ok_0;
    let count = first_csrc_count(b[0]);
    let fixed_len = 12 + 4 * count;
    lemma_u16_at_write(b, 2);
    lemma_u32_at_write(b, 4);
    lemma_u32_at_write(b, 8);
    lemma_u32s_at_write(b, 12, count as nat);
    lemma_u32s_octets_len(u32s_at(b, 12, count as nat));
    assert(header.first() == b[0] && header.second() == b[1]) by {
        reveal(Header::first);
        reveal(Header::second);
    }
    assert(header.fixed() =~= b.take(fixed_len)) by {
        assert(seq![b[0], b[1]] + b.subrange(2, 4) + b.subrange(4, 8) + b.subrange(8, 12)
            + b.subrange(12, fixed_len) =~= b.take(fixed_len));
    }
    if first_extension(b[0]) {
        let rest = b.skip(fixed_len);
        lemma_extension_parse_then_wire(rest);
        let (ext, m) = HeaderExtension::parse(rest)->Ok_0;
        assert(b.take(fixed_len) + rest.take(m) =~= b.take(n));
    }
}

/// Decoding an RTP packet and encoding it again gives its bytes back: where
/// `b` decodes and its padding is canonical, what it decodes to can be
/// written, and written it is `b`.
pub proof fn lemma_packet_parse_then_wire(b: Seq<u8>)
    requires
        MediaPacket::parse(b) is Ok,
        canonical_padding(b),
    ensures
        MediaPacket::parse(b)->Ok_0.encodable(),
        MediaPacket::parse(b)->Ok_0.wire() == b,
{
    let packet = MediaPacket::parse(b)->Ok_0;
    let (header, n) = Header::parse(b)->Ok_0;
    lemma_header_parse_then_wire(b);
    match header.padding {
        Some(v) => {
            let tail = b.subrange(b.len() - v, b.len() as int);
            assert(packet.padding_wire() =~= tail);
            assert(b.take(n) + b.subrange(n, b.len() - v) + tail =~= b);
        },
        None => {
            assert(b.take(n) + b.skip(n) + Seq::<u8>::empty() =~= b);
        },
    }
}

/// The wire form of an extension, with whatever follows it, decodes to the
/// extension and takes the bytes of the wire form.
pub proof fn lemma_extension_wire_then_parse(ext: HeaderExtension, tail: Seq<u8>)
    requires
        ext.payload.len() <= 0xFFFF,
    ensures
        HeaderExtension::parse(ext.wire() + tail) == Ok::<(HeaderExtension, int), RtpError>(
            (ext, ext.wire().len() as int),
        ),
{
    let b = ext.wire() + tail;
    let n = ext.payload.len() as int;
    ext.lemma_wire_len();
    lemma_u32s_octets_len(ext.payload);
    assert(b.subrange(0, 2) =~= u16_octets(ext.profile));
    assert(b.subrange(2, 4) =~= u16_octets(n as u16));
    assert(b.subrange(4, 4 + 4 * n) =~= u32s_octets(ext.payload));
    lemma_u16_read_at(b, 0, ext.profile);
    lemma_u16_read_at(b, 2, n as u16);
    lemma_u32s_read_at(b, 4, ext.payload);
}

/// The first two bytes of a header give back what they were made of.
proof fn lemma_first_second(header: Header)
    requires
        header.encodable(),
    ensures
        first_version(header.first()) == header.version,
        first_csrc_count(header.first()) == header.csrc.len(),
        first_padding(header.first()) <==> header.padding is Some,
        first_extension(header.first()) <==> header.extension is Some,
        header.second() >= 128 <==> header.marker,
        header.second() % 128 == header.payload_type,
{
    reveal(Header::first);
    reveal(Header::second);
}

/// Where a buffer starts with the fixed part of a header, reading there
/// gives the header's fields.
proof fn lemma_fixed_read(header: Header, b: Seq<u8>)
    requires
        header.csrc.len() <= 15,
        b.len() >= header.fixed().len(),
        b.take(header.fixed().len() as int) == header.fixed(),
    ensures
        header.fixed().len() == 12 + 4 * header.csrc.len(),
        b[0] == header.first(),
        b[1] == header.second(),
        u16_at(b, 2) == header.sequence_number,
        u32_at(b, 4) == header.timestamp,
        u32_at(b, 8) == header.ssrc,
        u32s_at(b, 12, header.csrc.len()) == header.csrc,
{
    let count = header.csrc.len() as int;
    let fixed = header.fixed();
    header.lemma_fixed_len();
    lemma_u32s_octets_len(header.csrc);
    assert(b.take(fixed.len() as int)[0] == b[0]);
    assert(b.take(fixed.len() as int)[1] == b[1]);
    assert(fixed[0] == header.first());
    assert(fixed[1] == header.second());
    assert(b.subrange(2, 4) =~= b.take(fixed.len() as int).subrange(2, 4));
    assert(fixed.subrange(2, 4) =~= u16_octets(header.sequence_number));
    assert(b.subrange(4, 8) =~= b.take(fixed.len() as int).subrange(4, 8));
    assert(fixed.subrange(4, 8) =~= u32_octets(header.timestamp));
    assert(b.subrange(8, 12) =~= b.take(fixed.len() as int).subrange(8, 12));
    assert(fixed.subrange(8, 12) =~= u32_octets(header.ssrc));
    assert(b.subrange(12, 12 + 4 * count) =~= b.take(fixed.len() as int).subrange(
        12,
        12 + 4 * count,
    ));
    assert(fixed.subrange(12, 12 + 4 * count) =~= u32s_octets(header.csrc));
    lemma_u16_read_at(b, 2, header.sequence_number);
    lemma_u32_read_at(b, 4, header.timestamp);
    lemma_u32_read_at(b, 8, header.ssrc);
    lemma_u32s_read_at(b, 12, header.csrc);
}

/// The wire form of a header of version 2, with what follows it, decodes to
/// the header and takes the bytes of the wire form, where it all fills
/// sixteen bytes and ends, for a header that counts padding, in the count.
pub proof fn lemma_header_wire_then_parse(header: Header, tail: Seq<u8>)
    requires
        header.encodable(),
        header.version == 2,
        header.wire().len() + tail.len() >= 16,
        header.padding matches Some(v) ==> tail.len() > 0 && tail.last() == v,
    ensures
        Header::parse(header.wire() + tail) == Ok::<(Header, int), RtpError>(
            (header, header.wire().len() as int),
        ),
{
    let b = header.wire() + tail;
    let fixed = header.fixed();
    let count = header.csrc.len() as int;
    header.lemma_fixed_len();
    lemma_first_second(header);
    match header.extension {
        Some(ext) => {
            assert(b.take(fixed.len() as int) =~= fixed);
            assert(b.skip(fixed.len() as int) =~= ext.wire() + tail);
            lemma_extension_wire_then_parse(ext, tail);
        },
        None => {
            assert(b.take(fixed.len() as int) =~= fixed);
        },
    }
    lemma_fixed_read(header, b);
    match header.padding {
        Some(v) => {
            assert(b.last() == tail.last());
        },
        None => {},
    }
    let parsed = Header::parse(b);
    assert(parsed is Ok);
    assert(parsed->Ok_0.1 == header.wire().len());
    assert(parsed->Ok_0.0 == header);
}

/// Encoding an RTP packet and decoding it again gives the packet back,
/// where the packet can be written, has version 2, and is at least the
/// sixteen bytes long that the decoder asks for.
pub proof fn lemma_packet_wire_then_parse(packet: MediaPacket)
    requires
        packet.encodable(),
        packet.header.version == 2,
        packet.wire().len() >= 16,
    ensures
        MediaPacket::parse(packet.wire()) == Ok::<MediaPacket, RtpError>(packet),
{
    let header = packet.header;
    let tail = packet.payload + packet.padding_wire();
    let b = packet.wire();
    let n = header.wire().len() as int;
    assert(b =~= header.wire() + tail);
    match header.padding {
        Some(v) => {
            assert(packet.padding_wire().last() == v);
            assert(tail.last() == v);
            assert(packet.padding_wire().len() == v);
        },
        None => {},
    }
    lemma_header_wire_then_parse(header, tail);
    match header.padding {
        Some(v) => {
            assert(b.subrange(n, b.len() - v) =~= packet.payload);
        },
        None => {
            assert(b.skip(n) =~= packet.payload);
        },
    }
}

} // verus!
