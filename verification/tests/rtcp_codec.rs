use webrtc_codec::octets::Octets;
use webrtc_codec::rtcp::application_defined::RtcpApplicationDefinedPacket;
use webrtc_codec::rtcp::good_bye::RtcpGoodByePacket;
use webrtc_codec::rtcp::packet::{
    length_in_words, pack_rtcp_header, pack_rtcp_packet, parse, serialize, RtcpPacket,
    RtcpPacketType,
};
use webrtc_codec::rtcp::payload_specific_feedback::RtcpPayloadSpecificFeedbackPacket;
use webrtc_codec::rtcp::receiver_report::RtcpReceiverReportPacket;
use webrtc_codec::rtcp::report_block::RtcpReportBlock;
use webrtc_codec::rtcp::rtp_feedback::{pack_lost, unpack_pair, RtcpRtpFeedbackPacket};
use webrtc_codec::rtcp::sender_report::{RtcpSenderInfo, RtcpSenderReportPacket};
use webrtc_codec::rtcp::source_description::{
    get_padding, RtcpSourceDescriptionChunk, RtcpSourceDescriptionItem,
    RtcpSourceDescriptionPacket,
};
use webrtc_codec::rtcp::{lift, RtcpError, MAX_BODY_LEN};
use webrtc_codec::{OctetsError, WebrtcError};

fn short() -> RtcpError {
    RtcpError::OctetsError {
        error: OctetsError::BufferTooShort,
    }
}

fn decode(bytes: &[u8]) -> Result<RtcpPacket, RtcpError> {
    let mut copy = bytes.to_vec();
    let mut o = Octets::with_slice(&mut copy);
    RtcpPacket::from_bytes(&mut o)
}

fn encode(packet: &RtcpPacket, room: usize) -> Result<Vec<u8>, RtcpError> {
    let mut buf = vec![0u8; room];
    let n;
    {
        let mut o = Octets::with_slice(&mut buf);
        packet.to_bytes(&mut o)?;
        n = o.off();
    }
    buf.truncate(n);
    Ok(buf)
}

fn block(seed: u32) -> RtcpReportBlock {
    RtcpReportBlock::new(
        seed,
        (seed % 251) as u8,
        seed % 0x0100_0000,
        seed.wrapping_mul(3),
        seed.wrapping_mul(5),
        seed.wrapping_mul(7),
        seed.wrapping_mul(11),
    )
}

#[test]
fn padding_brings_a_length_to_a_multiple_of_four() {
    assert_eq!(get_padding(0), 0);
    assert_eq!(get_padding(1), 3);
    assert_eq!(get_padding(2), 2);
    assert_eq!(get_padding(3), 1);
    assert_eq!(get_padding(4), 0);
    assert_eq!(get_padding(45), 3);
    assert_eq!(get_padding(usize::MAX), 1);
}

#[test]
fn length_field_counts_words() {
    assert_eq!(length_in_words(0), 0);
    assert_eq!(length_in_words(3), 0);
    assert_eq!(length_in_words(4), 1);
    assert_eq!(length_in_words(48), 12);
    assert_eq!(length_in_words(262_143), 65_535);
}

#[test]
fn header_is_version_two_count_type_and_length() {
    let mut buf = [0u8; 4];
    {
        let mut o = Octets::with_slice(&mut buf);
        assert_eq!(pack_rtcp_header(&mut o, 203, 31, 0x0102), Ok(()));
    }
    assert_eq!(buf, [0x9F, 203, 1, 2]);
    let mut small = [0u8; 3];
    let mut o = Octets::with_slice(&mut small);
    assert_eq!(pack_rtcp_header(&mut o, 203, 0, 0), Err(short()));
}

#[test]
fn lift_wraps_the_cursor_error() {
    assert_eq!(lift(Ok::<u8, OctetsError>(3)), Ok(3));
    assert_eq!(
        lift(Err::<u8, OctetsError>(OctetsError::Done)),
        Err(RtcpError::OctetsError {
            error: OctetsError::Done
        })
    );
}

#[test]
fn errors_convert_by_layer() {
    assert_eq!(
        RtcpError::from(OctetsError::BufferTooShort),
        RtcpError::OctetsError {
            error: OctetsError::BufferTooShort
        }
    );
    assert_eq!(
        WebrtcError::from(OctetsError::Done),
        WebrtcError::OctetsError {
            error: OctetsError::Done
        }
    );
    assert_eq!(
        WebrtcError::from(RtcpError::UnknownVersion),
        WebrtcError::RtcpError {
            error: RtcpError::UnknownVersion
        }
    );
    assert_eq!(
        WebrtcError::from(webrtc_codec::rtp::RtpError::InvalidPacketHeader),
        WebrtcError::RtpError {
            error: webrtc_codec::rtp::RtpError::InvalidPacketHeader
        }
    );
}

#[test]
fn report_block_is_twenty_four_bytes() {
    assert_eq!(RtcpReportBlock::get_length(), 24);
    let b = RtcpReportBlock::new(0x0102_0304, 5, 0x0006_0708, 9, 10, 11, 0xFFFF_FFFF);
    let mut buf = [0u8; 24];
    {
        let mut o = Octets::with_slice(&mut buf);
        assert_eq!(b.to_bytes(&mut o), Ok(()));
        assert_eq!(o.off(), 24);
    }
    assert_eq!(
        buf,
        [1, 2, 3, 4, 5, 6, 7, 8, 0, 0, 0, 9, 0, 0, 0, 10, 0, 0, 0, 11, 255, 255, 255, 255]
    );
    let mut o = Octets::with_slice(&mut buf);
    assert_eq!(RtcpReportBlock::from_bytes(&mut o), Ok(b));
    assert_eq!(o.off(), 24);
    assert_eq!(RtcpReportBlock::from_bytes(&mut o), Err(short()));
    let mut small = [0u8; 23];
    let mut o = Octets::with_slice(&mut small);
    assert_eq!(RtcpReportBlock::new(1, 2, 3, 4, 5, 6, 7).to_bytes(&mut o), Err(short()));
}

#[test]
fn sender_info_is_twenty_bytes() {
    let info = RtcpSenderInfo {
        ntp_timestamp: 0x0102_0304_0506_0708,
        rtp_timestamp: 9,
        packet_count: 10,
        octet_count: 11,
    };
    assert_eq!(info.get_length(), 20);
    let mut buf = [0u8; 20];
    {
        let mut o = Octets::with_slice(&mut buf);
        assert_eq!(info.to_bytes(&mut o), Ok(()));
    }
    assert_eq!(buf, [1, 2, 3, 4, 5, 6, 7, 8, 0, 0, 0, 9, 0, 0, 0, 10, 0, 0, 0, 11]);
    let mut o = Octets::with_slice(&mut buf);
    assert_eq!(RtcpSenderInfo::from_bytes(&mut o), Ok(info));
    let mut small = [0u8; 19];
    let mut o = Octets::with_slice(&mut small);
    assert_eq!(RtcpSenderInfo::from_bytes(&mut o), Err(short()));
}

#[test]
fn sender_report_round_trips() {
    let mut raw = vec![0x81, 0xC8, 0x00, 0x0C];
    raw.extend_from_slice(&[0, 0, 0, 1]);
    raw.extend_from_slice(&[0, 0, 0, 0, 0, 0, 0, 2, 0, 0, 0, 3, 0, 0, 0, 4, 0, 0, 0, 5]);
    raw.extend_from_slice(&[
        0, 0, 0, 6, 7, 0, 0, 8, 0, 0, 0, 9, 0, 0, 0, 10, 0, 0, 0, 11, 0, 0, 0, 12,
    ]);
    let expected = RtcpPacket::new(
        2,
        RtcpPacketType::SenderReport(RtcpSenderReportPacket::new(
            1,
            RtcpSenderInfo {
                ntp_timestamp: 2,
                rtp_timestamp: 3,
                packet_count: 4,
                octet_count: 5,
            },
            vec![RtcpReportBlock::new(6, 7, 8, 9, 10, 11, 12)],
        )),
    );
    assert_eq!(decode(&raw), Ok(expected.clone()));
    assert_eq!(encode(&expected, 64), Ok(raw));
}

#[test]
fn sender_report_needs_its_exact_length() {
    for count in 0u8..4 {
        let exact = 24 + 24 * count as usize;
        for len in [0usize, 4, 20, 24, 28, 48, 52, 72, 76, 96, 100] {
            let mut body = vec![0x5Au8; len];
            let mut o = Octets::with_slice(&mut body);
            let r = RtcpSenderReportPacket::from_bytes(&mut o, count);
            if len == exact {
                let p = r.unwrap();
                assert_eq!(p.get_reports_count(), count);
                assert_eq!(p.get_length() as usize, exact);
                assert_eq!(p.ssrc, 0x5A5A_5A5A);
            } else {
                assert_eq!(r, Err(RtcpError::InvalidPacketHeader));
            }
        }
    }
}

#[test]
fn receiver_report_needs_its_exact_length() {
    for count in 0u8..4 {
        let exact = 4 + 24 * count as usize;
        for len in 0usize..110 {
            let mut body: Vec<u8> = (0..len).map(|i| (i * 37 % 256) as u8).collect();
            let mut o = Octets::with_slice(&mut body);
            let r = RtcpReceiverReportPacket::from_bytes(&mut o, count);
            if len == exact {
                let p = r.unwrap();
                assert_eq!(p.get_reports_count(), count);
                assert_eq!(p.get_length() as usize, exact);
            } else {
                assert_eq!(r, Err(RtcpError::InvalidRrPacketLength));
            }
        }
    }
}

#[test]
fn receiver_report_with_reports_round_trips() {
    let rr = RtcpPacket::new(
        2,
        RtcpPacketType::ReceiverReport(RtcpReceiverReportPacket::new(
            77,
            vec![block(1), block(0xFFFF_FFFF), block(123_456_789)],
        )),
    );
    let bytes = encode(&rr, 200).unwrap();
    assert_eq!(bytes.len(), 4 + 4 + 3 * 24);
    assert_eq!(&bytes[..4], &[0x83, 0xC9, 0x00, 0x13]);
    assert_eq!(decode(&bytes), Ok(rr));
}

#[test]
fn good_bye_ignores_what_follows_its_sources() {
    let raw = [0x81, 0xCB, 0x00, 0x02, 0, 0, 0, 9, 1, 2, 3, 4];
    let p = decode(&raw).unwrap();
    assert_eq!(
        p,
        RtcpPacket::new(2, RtcpPacketType::Goodbye(RtcpGoodByePacket(vec![9])))
    );
    assert_eq!(encode(&p, 16), Ok(vec![0x81, 0xCB, 0x00, 0x01, 0, 0, 0, 9]));
}

#[test]
fn good_bye_counts_and_measures_its_sources() {
    let bye = RtcpGoodByePacket(vec![1, 2, 3]);
    assert_eq!(bye.get_sources_count(), 3);
    assert_eq!(bye.get_length(), 12);
    let mut small = [0u8; 11];
    let mut o = Octets::with_slice(&mut small);
    assert_eq!(bye.to_bytes(&mut o), Err(short()));
    let mut body = [0u8; 11];
    let mut o = Octets::with_slice(&mut body);
    assert_eq!(
        RtcpGoodByePacket::from_bytes(&mut o, 3),
        Err(RtcpError::InvalidPacketLength)
    );
    assert_eq!(o.off(), 0);
}

#[test]
fn nack_canonical_run() {
    let nack = RtcpPacket::new(
        2,
        RtcpPacketType::RTPFeedback(RtcpRtpFeedbackPacket::new(
            1,
            0x0102_0304,
            0x0506_0708,
            Some(vec![100, 101, 116]),
        )),
    );
    let bytes = encode(&nack, 64).unwrap();
    assert_eq!(
        bytes,
        vec![0x81, 0xCD, 0x00, 0x03, 1, 2, 3, 4, 5, 6, 7, 8, 0x00, 0x64, 0x80, 0x01]
    );
    assert_eq!(decode(&bytes), Ok(nack));
}

#[test]
fn nack_opens_a_pair_past_sixteen() {
    let nack = RtcpPacket::new(
        2,
        RtcpPacketType::RTPFeedback(RtcpRtpFeedbackPacket::new(
            1,
            0x0102_0304,
            0x0506_0708,
            Some(vec![100, 101, 117]),
        )),
    );
    let bytes = encode(&nack, 64).unwrap();
    assert_eq!(
        bytes,
        vec![
            0x81, 0xCD, 0x00, 0x04, 1, 2, 3, 4, 5, 6, 7, 8, 0x00, 0x64, 0x00, 0x01, 0x00, 0x75,
            0x00, 0x00
        ]
    );
    assert_eq!(decode(&bytes), Ok(nack));
    assert_eq!(encode(&decode(&bytes).unwrap(), 20), Ok(bytes));
}

#[test]
fn nack_packs_greedily() {
    assert_eq!(pack_lost(&vec![]), vec![]);
    assert_eq!(pack_lost(&vec![7]), vec![(7, 0)]);
    assert_eq!(pack_lost(&vec![100, 101, 116]), vec![(100, 0x8001)]);
    assert_eq!(pack_lost(&vec![100, 101, 117]), vec![(100, 0x0001), (117, 0)]);
    assert_eq!(pack_lost(&vec![100, 116]), vec![(100, 0x8000)]);
    assert_eq!(pack_lost(&vec![100, 117]), vec![(100, 0), (117, 0)]);
    assert_eq!(
        pack_lost(&(10u16..27).collect()),
        vec![(10, 0xFFFF)]
    );
    assert_eq!(
        pack_lost(&(10u16..28).collect()),
        vec![(10, 0xFFFF), (27, 0)]
    );
    assert_eq!(pack_lost(&vec![5, 5]), vec![(5, 0), (5, 0)]);
    assert_eq!(pack_lost(&vec![9, 3]), vec![(9, 0), (3, 0)]);
    assert_eq!(pack_lost(&vec![65535, 0, 3]), vec![(65535, 0b1001)]);
}

#[test]
fn nack_unpacks_in_bit_order() {
    let mut lost = vec![1];
    unpack_pair(100, 0b1000_0000_0000_0101, &mut lost);
    assert_eq!(lost, vec![1, 100, 101, 103, 116]);
    let mut lost = Vec::new();
    unpack_pair(65535, 0x0001, &mut lost);
    assert_eq!(lost, vec![65535, 0]);
    let mut lost = Vec::new();
    unpack_pair(65530, 0xFFFF, &mut lost);
    assert_eq!(
        lost,
        vec![65530, 65531, 65532, 65533, 65534, 65535, 0, 1, 2, 3, 4, 5, 6, 7, 8, 9, 10]
    );
}

#[test]
fn nack_without_pairs_has_no_list() {
    let raw = [0x81, 0xCD, 0x00, 0x02, 0, 0, 0, 1, 0, 0, 0, 2];
    let p = decode(&raw).unwrap();
    assert_eq!(
        p,
        RtcpPacket::new(
            2,
            RtcpPacketType::RTPFeedback(RtcpRtpFeedbackPacket::new(1, 1, 2, None))
        )
    );
    assert_eq!(encode(&p, 12), Ok(raw.to_vec()));
    let empty = RtcpRtpFeedbackPacket::new(1, 1, 2, Some(vec![]));
    assert_eq!(empty.get_length(), 8);
    assert_eq!(empty.get_format(), 1);
    assert_eq!(
        RtcpRtpFeedbackPacket::new(1, 1, 2, Some(vec![100, 101, 116])).get_length(),
        12
    );
    assert_eq!(
        RtcpRtpFeedbackPacket::new(1, 1, 2, Some(vec![100, 101, 117])).get_length(),
        16
    );
}

#[test]
fn nack_needs_whole_words() {
    for len in [0usize, 4, 7, 9, 10, 11, 13] {
        let mut body = vec![0u8; len];
        let mut o = Octets::with_slice(&mut body);
        assert_eq!(
            RtcpRtpFeedbackPacket::from_bytes(&mut o, 1),
            Err(RtcpError::InvalidPacketLength)
        );
    }
    let raw = [0x81, 0xCD, 0x00, 0x01, 0, 0, 0, 1];
    assert_eq!(decode(&raw), Err(RtcpError::InvalidPacketLength));
}

#[test]
fn nack_pairs_that_would_merge_do_not_come_back() {
    let raw = [0x81, 0xCD, 0x00, 0x04, 0, 0, 0, 1, 0, 0, 0, 2, 0, 100, 0, 0, 0, 101, 0, 0];
    let p = decode(&raw).unwrap();
    assert_eq!(
        p,
        RtcpPacket::new(
            2,
            RtcpPacketType::RTPFeedback(RtcpRtpFeedbackPacket::new(1, 1, 2, Some(vec![100, 101])))
        )
    );
    assert_eq!(
        encode(&p, 32),
        Ok(vec![0x81, 0xCD, 0x00, 0x03, 0, 0, 0, 1, 0, 0, 0, 2, 0, 100, 0, 1])
    );
}

#[test]
fn payload_feedback_carries_its_bytes() {
    let raw = [0x8F, 0xCE, 0x00, 0x03, 0, 0, 0, 1, 0, 0, 0, 2, 9, 8, 7, 6];
    let p = decode(&raw).unwrap();
    let expected = RtcpPayloadSpecificFeedbackPacket::new(15, 1, 2, vec![9, 8, 7, 6]);
    assert_eq!(expected.get_format(), 15);
    assert_eq!(expected.get_length(), 12);
    assert_eq!(
        p,
        RtcpPacket::new(2, RtcpPacketType::PayloadSpecificFeedback(expected))
    );
    assert_eq!(encode(&p, 16), Ok(raw.to_vec()));
    assert_eq!(encode(&p, 15), Err(short()));
}

#[test]
fn application_defined_round_trips() {
    let raw = [0x85, 0xCC, 0x00, 0x02, b'n', b'a', b'm', b'e', 1, 2, 3, 4];
    let p = decode(&raw).unwrap();
    let expected = RtcpApplicationDefinedPacket::new(5, vec![b'n', b'a', b'm', b'e', 1, 2, 3, 4]);
    assert_eq!(expected.get_subtype(), 5);
    assert_eq!(expected.get_length(), 8);
    assert_eq!(
        p,
        RtcpPacket::new(2, RtcpPacketType::ApplicationDefined(expected))
    );
    assert_eq!(encode(&p, 12), Ok(raw.to_vec()));
    assert_eq!(encode(&p, 11), Err(short()));
}

#[test]
fn source_description_with_two_chunks_round_trips() {
    let raw = [
        0x82, 0xCA, 0x00, 0x06, // header
        0, 0, 0, 1, 1, 2, b'a', b'b', 0, 0, 0, 0, // chunk 1: 9 bytes, 3 of padding
        0, 0, 0, 2, 2, 1, b'c', 8, 0, 0, 0, 0, // chunk 2: two items, 1 of padding
    ];
    let expected = RtcpSourceDescriptionPacket::new(vec![
        RtcpSourceDescriptionChunk::new(
            1,
            vec![RtcpSourceDescriptionItem::new(1, vec![b'a', b'b'])],
        ),
        RtcpSourceDescriptionChunk::new(
            2,
            vec![
                RtcpSourceDescriptionItem::new(2, vec![b'c']),
                RtcpSourceDescriptionItem::new(8, vec![]),
            ],
        ),
    ]);
    assert_eq!(expected.get_chunks_length(), 2);
    assert_eq!(expected.get_length(), 24);
    assert_eq!(expected.chunks[0].get_length(), 12);
    assert_eq!(expected.chunks[1].get_length(), 12);
    let p = RtcpPacket::new(2, RtcpPacketType::SourceDescription(expected));
    assert_eq!(decode(&raw), Ok(p.clone()));
    assert_eq!(encode(&p, 28), Ok(raw.to_vec()));
    assert_eq!(encode(&p, 27), Err(short()));
}

#[test]
fn source_description_chunk_pads_by_the_cursor_offset() {
    let chunk = RtcpSourceDescriptionChunk::new(3, vec![]);
    assert_eq!(chunk.get_length(), 8);
    let mut buf = [0xEEu8; 9];
    {
        let mut o = Octets::with_slice(&mut buf);
        assert_eq!(o.put_u8(0x11), Ok(()));
        assert_eq!(chunk.to_bytes(&mut o), Ok(()));
        assert_eq!(o.off(), 8);
    }
    assert_eq!(buf, [0x11, 0, 0, 0, 3, 0, 0, 0, 0xEE]);
    let mut o = Octets::with_slice(&mut buf);
    assert_eq!(o.get_u8(), Ok(0x11));
    assert_eq!(RtcpSourceDescriptionChunk::from_bytes(&mut o), Ok(chunk));
    assert_eq!(o.off(), 8);
}

#[test]
fn source_description_skips_padding_that_is_not_zero() {
    let raw = [0x81, 0xCA, 0x00, 0x02, 0, 0, 0, 1, 0, 7, 7, 7];
    let p = decode(&raw).unwrap();
    assert_eq!(
        p,
        RtcpPacket::new(
            2,
            RtcpPacketType::SourceDescription(RtcpSourceDescriptionPacket::new(vec![
                RtcpSourceDescriptionChunk::new(1, vec![])
            ]))
        )
    );
    assert_eq!(
        encode(&p, 12),
        Ok(vec![0x81, 0xCA, 0x00, 0x02, 0, 0, 0, 1, 0, 0, 0, 0])
    );
}

#[test]
fn source_description_needs_its_closing_byte_and_padding() {
    assert_eq!(decode(&[0x81, 0xCA, 0x00, 0x01, 0, 0, 0, 1]), Err(short()));
    assert_eq!(decode(&[0x81, 0xCA, 0x00, 0x00]), Err(short()));
    assert_eq!(
        decode(&[0x81, 0xCA, 0x00, 0x02, 0, 0, 0, 1, 1, 2, b'a', b'b']),
        Err(short())
    );
    let mut body = [0u8, 0, 0, 1, 0, 0];
    let mut o = Octets::with_slice(&mut body);
    assert_eq!(RtcpSourceDescriptionChunk::from_bytes(&mut o), Err(short()));
    assert_eq!(
        decode(&[0x80, 0xCA, 0x00, 0x00]),
        Ok(RtcpPacket::new(
            2,
            RtcpPacketType::SourceDescription(RtcpSourceDescriptionPacket::new(vec![]))
        ))
    );
}

#[test]
fn version_guard() {
    let good = [0x81u8, 0xCB, 0x00, 0x01, 0xAE, 0x52, 0x8B, 0x43];
    for first in 0u16..256 {
        let first = first as u8;
        let mut raw = good;
        raw[0] = first;
        let r = decode(&raw);
        if first >> 6 != 2 {
            assert_eq!(r, Err(RtcpError::UnknownVersion));
            let mut copy = raw;
            let mut o = Octets::with_slice(&mut copy);
            assert_eq!(parse(&mut o), Err(RtcpError::UnknownVersion));
        } else {
            assert_ne!(r, Err(RtcpError::UnknownVersion));
        }
    }
    for packet_type in 0u16..256 {
        let raw = [0x40, packet_type as u8, 0xFF, 0xFF];
        assert_eq!(decode(&raw), Err(RtcpError::UnknownVersion));
    }
}

#[test]
fn unknown_packet_type_is_refused() {
    assert_eq!(decode(&[0x80, 199, 0, 0]), Err(RtcpError::UnknownPacketType));
    assert_eq!(decode(&[0x80, 207, 0, 0]), Err(RtcpError::UnknownPacketType));
    assert_eq!(decode(&[0x80, 0, 0, 1, 1, 2, 3, 4]), Err(RtcpError::UnknownPacketType));
    assert_eq!(decode(&[0x80, 0, 0, 1, 1, 2, 3]), Err(short()));
    assert_eq!(decode(&[0xA0, 0, 0, 0]), Err(RtcpError::InvalidPaddingSize));
}

#[test]
fn padding_edge_cases() {
    for packet_type in [200u8, 201, 202, 203, 204, 205, 206, 1] {
        for count in 0u8..32 {
            let raw = [0xA0 | count, packet_type, 0, 0];
            assert_eq!(decode(&raw), Err(RtcpError::InvalidPaddingSize));
            let raw = [0xA0 | count, packet_type, 0, 2, 1, 2, 3, 4, 5, 6, 7, 0];
            assert_eq!(decode(&raw), Err(RtcpError::InvalidPaddingSize));
        }
    }
    assert_eq!(
        decode(&[0xA0, 0xCB, 0, 1, 0, 0, 0, 5]),
        Err(RtcpError::InvalidPaddingSize)
    );
    assert_eq!(
        decode(&[0xA1, 0xCB, 0, 2, 0, 0, 0, 9, 0, 0, 0, 4]),
        Ok(RtcpPacket::new(
            2,
            RtcpPacketType::Goodbye(RtcpGoodByePacket(vec![9]))
        ))
    );
    assert_eq!(
        decode(&[0xA0, 0xCE, 0, 3, 0, 0, 0, 1, 0, 0, 0, 2, 7, 0, 0, 3]),
        Ok(RtcpPacket::new(
            2,
            RtcpPacketType::PayloadSpecificFeedback(RtcpPayloadSpecificFeedbackPacket::new(
                0,
                1,
                2,
                vec![7]
            ))
        ))
    );
}

#[test]
fn packet_is_read_within_its_region() {
    let mut raw = [0x81, 0xCE, 0x00, 0x02, 0, 0, 0, 1, 0, 0, 0, 2, 0xAA, 0xBB];
    let mut o = Octets::with_slice(&mut raw);
    let p = RtcpPacket::from_bytes(&mut o).unwrap();
    assert_eq!(o.off(), 12);
    assert_eq!(
        p.packet,
        RtcpPacketType::PayloadSpecificFeedback(RtcpPayloadSpecificFeedbackPacket::new(
            1,
            1,
            2,
            vec![]
        ))
    );
    assert_eq!(p.version, 2);
}

#[test]
fn compound_buffer_round_trips() {
    let raw = [
        0x81, 0xCB, 0x00, 0x01, 0xAE, 0x52, 0x8B, 0x43, // goodbye
        0x81, 0xCE, 0x00, 0x02, 0x54, 0x50, 0x62, 0x65, 0x23, 0x01, 0x3F, 0xB9, // feedback
        0x80, 0xC9, 0x00, 0x01, 0, 0, 0, 5, // receiver report without blocks
        0x80, 0xCB, 0x00, 0x00, // empty goodbye
    ];
    let mut copy = raw;
    let mut o = Octets::with_slice(&mut copy);
    let packets = parse(&mut o).unwrap();
    assert_eq!(o.off(), raw.len());
    assert_eq!(
        packets,
        vec![
            RtcpPacket::new(2, RtcpPacketType::Goodbye(RtcpGoodByePacket(vec![2924645187]))),
            RtcpPacket::new(
                2,
                RtcpPacketType::PayloadSpecificFeedback(RtcpPayloadSpecificFeedbackPacket::new(
                    1, 1414554213, 587284409, vec![]
                ))
            ),
            RtcpPacket::new(
                2,
                RtcpPacketType::ReceiverReport(RtcpReceiverReportPacket::new(5, vec![]))
            ),
            RtcpPacket::new(2, RtcpPacketType::Goodbye(RtcpGoodByePacket(vec![]))),
        ]
    );
    let mut buf = [0u8; 32];
    {
        let mut out = Octets::with_slice(&mut buf);
        assert_eq!(serialize(packets.clone(), &mut out), Ok(()));
        assert_eq!(out.off(), 32);
    }
    assert_eq!(buf, raw);
    let mut small = [0u8; 31];
    let mut out = Octets::with_slice(&mut small);
    assert_eq!(serialize(packets, &mut out), Err(short()));
}

#[test]
fn compound_buffer_fails_on_its_first_bad_packet() {
    let mut empty: [u8; 0] = [];
    let mut o = Octets::with_slice(&mut empty);
    assert_eq!(parse(&mut o), Ok(vec![]));
    let mut raw = [0x80, 0xCB, 0x00, 0x00, 0x80, 0xCB];
    let mut o = Octets::with_slice(&mut raw);
    assert_eq!(parse(&mut o), Err(RtcpError::PacketHeaderTooShort));
    let mut raw = [0x80, 0xCB, 0x00, 0x00, 0x00, 0xCB, 0x00, 0x00];
    let mut o = Octets::with_slice(&mut raw);
    assert_eq!(parse(&mut o), Err(RtcpError::UnknownVersion));
    let mut raw = [0x80, 0xCB, 0x00, 0x00, 0x80, 0xC8, 0x00, 0x00];
    let mut o = Octets::with_slice(&mut raw);
    assert_eq!(parse(&mut o), Err(RtcpError::InvalidPacketHeader));
}

#[test]
fn pack_rtcp_packet_writes_header_and_body() {
    let body = RtcpPacketType::Goodbye(RtcpGoodByePacket(vec![1, 2]));
    let mut buf = [0u8; 12];
    {
        let mut o = Octets::with_slice(&mut buf);
        assert_eq!(pack_rtcp_packet(&body, &mut o), Ok(()));
    }
    assert_eq!(buf, [0x82, 0xCB, 0, 2, 0, 0, 0, 1, 0, 0, 0, 2]);
    let mut small = [0u8; 3];
    let mut o = Octets::with_slice(&mut small);
    assert_eq!(pack_rtcp_packet(&body, &mut o), Err(short()));
}

#[test]
fn bodies_that_fit_a_header_can_be_written() {
    let bye = |n: usize| RtcpPacketType::Goodbye(RtcpGoodByePacket(vec![7; n]));
    assert!(bye(0).is_encodable());
    assert!(bye(31).is_encodable());
    assert!(!bye(32).is_encodable());
    let rr = |n: usize| {
        RtcpPacketType::ReceiverReport(RtcpReceiverReportPacket::new(1, vec![block(3); n]))
    };
    assert!(rr(31).is_encodable());
    assert!(!rr(32).is_encodable());
    let sr = |n: usize| {
        RtcpPacketType::SenderReport(RtcpSenderReportPacket::new(
            1,
            RtcpSenderInfo {
                ntp_timestamp: 0,
                rtp_timestamp: 0,
                packet_count: 0,
                octet_count: 0,
            },
            vec![block(3); n],
        ))
    };
    assert!(sr(31).is_encodable());
    assert!(!sr(32).is_encodable());
    let psfb = |format: u8, n: usize| {
        RtcpPacketType::PayloadSpecificFeedback(RtcpPayloadSpecificFeedbackPacket::new(
            format,
            1,
            2,
            vec![0; n],
        ))
    };
    assert!(psfb(31, 0).is_encodable());
    assert!(!psfb(32, 0).is_encodable());
    assert!(psfb(1, 262_135).is_encodable());
    assert!(!psfb(1, 262_136).is_encodable());
    let app = |subtype: u8, n: usize| {
        RtcpPacketType::ApplicationDefined(RtcpApplicationDefinedPacket::new(subtype, vec![0; n]))
    };
    assert!(app(31, 262_143).is_encodable());
    assert!(!app(31, 262_144).is_encodable());
    assert!(!app(32, 0).is_encodable());
    let nack = |format: u8, lost: Option<Vec<u16>>| {
        RtcpPacketType::RTPFeedback(RtcpRtpFeedbackPacket::new(format, 1, 2, lost))
    };
    assert!(nack(31, None).is_encodable());
    assert!(!nack(32, None).is_encodable());
    assert!(nack(1, Some(vec![5; 65_533])).is_encodable());
    assert!(!nack(1, Some(vec![5; 65_534])).is_encodable());
    assert!(RtcpPacket::new(2, bye(31)).is_encodable());
    assert!(!RtcpPacket::new(2, bye(32)).is_encodable());
}

#[test]
fn largest_payload_feedback_round_trips() {
    let p = RtcpPacket::new(
        2,
        RtcpPacketType::PayloadSpecificFeedback(RtcpPayloadSpecificFeedbackPacket::new(
            3,
            1,
            2,
            vec![0xAB; 262_132],
        )),
    );
    assert!(p.is_encodable());
    let bytes = encode(&p, 262_144).unwrap();
    assert_eq!(bytes.len(), 262_144);
    assert_eq!(&bytes[..4], &[0x83, 0xCE, 0xFF, 0xFF]);
    assert_eq!(decode(&bytes), Ok(p));
}

#[test]
fn source_descriptions_that_fit_a_header() {
    let item = |n: usize| RtcpSourceDescriptionItem::new(1, vec![b'x'; n]);
    let chunk = |items: Vec<RtcpSourceDescriptionItem>| RtcpSourceDescriptionChunk::new(1, items);
    assert_eq!(chunk(vec![]).checked_length(8), Some(8));
    assert_eq!(chunk(vec![]).checked_length(7), None);
    assert_eq!(chunk(vec![item(255)]).checked_length(264), Some(264));
    assert_eq!(chunk(vec![item(255)]).checked_length(263), None);
    assert_eq!(MAX_BODY_LEN, 262_143);
    assert_eq!(chunk(vec![item(256)]).checked_length(MAX_BODY_LEN), None);
    assert_eq!(chunk(vec![item(1), item(2)]).checked_length(100), Some(12));
    let packet = |chunks: Vec<RtcpSourceDescriptionChunk>| RtcpSourceDescriptionPacket::new(chunks);
    assert!(packet(vec![]).fits_header());
    assert!(packet(vec![chunk(vec![]); 31]).fits_header());
    assert!(!packet(vec![chunk(vec![]); 32]).fits_header());
    assert!(!packet(vec![chunk(vec![item(256)])]).fits_header());
    assert!(packet(vec![chunk(vec![item(255); 1019])]).fits_header());
    assert!(packet(vec![chunk(vec![item(255); 1019]), chunk(vec![item(245)])]).fits_header());
    assert!(!packet(vec![chunk(vec![item(255); 1019]), chunk(vec![item(246)])]).fits_header());
    assert!(RtcpPacketType::SourceDescription(packet(vec![chunk(vec![item(9)])])).is_encodable());
    let too_long = packet(vec![chunk(vec![item(300)])]);
    assert!(!RtcpPacketType::SourceDescription(too_long).is_encodable());
}

#[test]
fn a_failed_write_leaves_the_start_of_the_packet() {
    let p = RtcpPacket::new(2, RtcpPacketType::Goodbye(RtcpGoodByePacket(vec![1, 2, 3])));
    let mut buf = [0xEEu8; 11];
    let n;
    {
        let mut o = Octets::with_slice(&mut buf);
        assert_eq!(o.put_u8(0x11), Ok(()));
        assert_eq!(p.to_bytes(&mut o), Err(short()));
        n = o.off();
    }
    let whole = [0x83u8, 0xCB, 0, 3, 0, 0, 0, 1, 0, 0, 0, 2, 0, 0, 0, 3];
    assert!(n >= 1 && n <= 11);
    assert_eq!(buf[0], 0x11);
    assert_eq!(&buf[1..n], &whole[..n - 1]);
    assert!(buf[n..].iter().all(|b| *b == 0xEE));
}

#[test]
fn written_packets_read_back() {
    let packets = vec![
        RtcpPacket::new(
            2,
            RtcpPacketType::SenderReport(RtcpSenderReportPacket::new(
                9,
                RtcpSenderInfo {
                    ntp_timestamp: u64::MAX,
                    rtp_timestamp: 1,
                    packet_count: 2,
                    octet_count: 3,
                },
                vec![block(5), block(6)],
            )),
        ),
        RtcpPacket::new(
            2,
            RtcpPacketType::ReceiverReport(RtcpReceiverReportPacket::new(9, vec![block(7)])),
        ),
        RtcpPacket::new(
            2,
            RtcpPacketType::SourceDescription(RtcpSourceDescriptionPacket::new(vec![
                RtcpSourceDescriptionChunk::new(
                    1,
                    vec![
                        RtcpSourceDescriptionItem::new(1, b"cname".to_vec()),
                        RtcpSourceDescriptionItem::new(2, vec![]),
                    ],
                ),
                RtcpSourceDescriptionChunk::new(2, vec![]),
                RtcpSourceDescriptionChunk::new(
                    3,
                    vec![RtcpSourceDescriptionItem::new(255, vec![0; 255])],
                ),
            ])),
        ),
        RtcpPacket::new(2, RtcpPacketType::Goodbye(RtcpGoodByePacket(vec![1, 2, 3]))),
        RtcpPacket::new(
            2,
            RtcpPacketType::ApplicationDefined(RtcpApplicationDefinedPacket::new(
                31,
                vec![1, 2, 3, 4],
            )),
        ),
        RtcpPacket::new(
            2,
            RtcpPacketType::RTPFeedback(RtcpRtpFeedbackPacket::new(
                1,
                10,
                11,
                Some(vec![0, 1, 16, 17, 40, 65_519, 65_535]),
            )),
        ),
        RtcpPacket::new(
            2,
            RtcpPacketType::RTPFeedback(RtcpRtpFeedbackPacket::new(1, 10, 11, None)),
        ),
        RtcpPacket::new(
            2,
            RtcpPacketType::PayloadSpecificFeedback(RtcpPayloadSpecificFeedbackPacket::new(
                4,
                12,
                13,
                vec![9; 8],
            )),
        ),
    ];
    assert!(packets.iter().all(|p| p.is_encodable()));
    let mut buf = vec![0u8; 2048];
    let n;
    {
        let mut out = Octets::with_slice(&mut buf);
        assert_eq!(serialize(packets.clone(), &mut out), Ok(()));
        n = out.off();
    }
    assert_eq!(n % 4, 0);
    buf.truncate(n);
    let mut o = Octets::with_slice(&mut buf);
    assert_eq!(parse(&mut o), Ok(packets));
}
