use webrtc_codec::octets::Octets;
use webrtc_codec::rtcp::good_bye::RtcpGoodByePacket;
use webrtc_codec::rtcp::packet::{RtcpPacket, RtcpPacketType};
use webrtc_codec::rtcp::payload_specific_feedback::RtcpPayloadSpecificFeedbackPacket;
use webrtc_codec::rtcp::receiver_report::RtcpReceiverReportPacket;
use webrtc_codec::rtcp::report_block::RtcpReportBlock;
use webrtc_codec::rtcp::source_description::{
    RtcpSourceDescriptionChunk, RtcpSourceDescriptionItem, RtcpSourceDescriptionPacket,
};
use webrtc_codec::rtcp::RtcpError;
use webrtc_codec::OctetsError;

#[test]
fn rtcp_bye_parse_test() {
    let mut raw_packet = [0x81, 0xCB, 0x00, 0x01, 0xAE, 0x52, 0x8B, 0x43];

    let mut raw_octet = Octets::with_slice(&mut raw_packet);

    let parse_bye = RtcpPacket::from_bytes(&mut raw_octet);

    let bye_buf = RtcpGoodByePacket(vec![2924645187]);

    let ref_bye = RtcpPacket {
        version: 2,
        packet: RtcpPacketType::Goodbye(bye_buf),
    };

    assert!(parse_bye.is_ok());
    assert_eq!(parse_bye.unwrap(), ref_bye);

    let mut buf = [0u8; 8];
    let mut ser = Octets::with_slice(&mut buf);
    assert!(ref_bye.to_bytes(&mut ser).is_ok());
    assert_eq!(raw_octet, ser);
}

#[test]
fn rtcp_bye_invalid_test() {
    let mut raw_packet = [0x91, 0xCB, 0x00, 0x01, 0xAE, 0x52, 0x8B, 0x43];

    let mut raw_octet = Octets::with_slice(&mut raw_packet);

    let parse_bye = RtcpPacket::from_bytes(&mut raw_octet);

    assert_eq!(parse_bye, Err(RtcpError::InvalidPacketLength));
}

#[test]
fn rtcp_bye_no_sources_test() {
    let mut raw_packet = [0x80, 0xCB, 0x00, 0x00];

    let mut raw_octet = Octets::with_slice(&mut raw_packet);

    let parse_bye = RtcpPacket::from_bytes(&mut raw_octet);

    let bye_buf = RtcpGoodByePacket(vec![]);

    let ref_bye = RtcpPacket {
        version: 2,
        packet: RtcpPacketType::Goodbye(bye_buf),
    };

    assert!(parse_bye.is_ok());
    assert_eq!(parse_bye.unwrap(), ref_bye);

    let mut buf = [0u8; 4];
    let mut ser = Octets::with_slice(&mut buf);
    assert!(ref_bye.to_bytes(&mut ser).is_ok());
    assert_eq!(raw_octet, ser);
}

#[test]
fn rtcp_bye_only_padding_test() {
    let mut raw_packet = [0xA0, 0xCB, 0x00, 0x01, 0x04, 0x04, 0x04, 0x04];

    let mut raw_octet = Octets::with_slice(&mut raw_packet);

    let parse_bye = RtcpPacket::from_bytes(&mut raw_octet);

    let bye_buf = RtcpGoodByePacket(vec![]);

    let ref_bye = RtcpPacket {
        version: 2,
        packet: RtcpPacketType::Goodbye(bye_buf),
    };

    assert!(parse_bye.is_ok());
    assert_eq!(parse_bye.unwrap(), ref_bye);

    let raw_packet = [0x80, 0xCB, 0x00, 0x00];

    let mut buf = [0u8; 4];
    let mut ser = Octets::with_slice(&mut buf);
    assert!(ref_bye.to_bytes(&mut ser).is_ok());
    assert_eq!(raw_packet, buf);
}

#[test]
fn rtcp_bye_only_padding_zero_test() {
    let mut raw_packet = [0xA0, 0xCB, 0x00, 0x01, 0x00, 0x00, 0x00, 0x00];

    let mut raw_octet = Octets::with_slice(&mut raw_packet);

    let parse_bye = RtcpPacket::from_bytes(&mut raw_octet);

    assert_eq!(parse_bye, Err(RtcpError::InvalidPaddingSize));
}

#[test]
fn rtcp_psfb_invalid_test() {
    let mut raw_packet = [0x81, 0xCE, 0x00, 0x01, 0xAE, 0x52, 0x8B, 0x43];

    let mut raw_octet = Octets::with_slice(&mut raw_packet);

    let parse_psfb = RtcpPacket::from_bytes(&mut raw_octet);

    assert_eq!(parse_psfb, Err(RtcpError::InvalidPsfbPacketLength));
}

#[test]
fn rtcp_psfb_pli_test() {
    let mut raw_packet = [
        0x81, 0xCE, 0x00, 0x02, 0x54, 0x50, 0x62, 0x65, 0x23, 0x01, 0x3F, 0xB9,
    ];

    let mut raw_octet = Octets::with_slice(&mut raw_packet);

    let parse_psfb = RtcpPacket::from_bytes(&mut raw_octet);

    let psfb = RtcpPacket {
        version: 2,
        packet: RtcpPacketType::PayloadSpecificFeedback(RtcpPayloadSpecificFeedbackPacket::new(
            1,
            1414554213,
            587284409,
            vec![],
        )),
    };

    assert!(parse_psfb.is_ok());
    assert_eq!(parse_psfb.unwrap(), psfb);

    let mut buf = [0u8; 12];
    let mut ser = Octets::with_slice(&mut buf);
    assert!(psfb.to_bytes(&mut ser).is_ok());
    assert_eq!(raw_packet, buf);
}

#[test]
fn rtcp_rr_test() {
    let mut raw_packet = [
        0x81, 0xC9, 0x00, 0x07, // header
        0x30, 0xB6, 0x84, 0x07, // ssrc
        0x47, 0x94, 0x37, 0xAF, // ssrc 1
        0x00, 0x00, 0x00, 0x00, // fraction lost etc..
        0x00, 0x00, 0x02, 0x76, // highest sequence
        0x00, 0x00, 0x07, 0x72, // jitter
        0x00, 0x00, 0x00, 0x00, // lsr
        0x00, 0x00, 0x00, 0x00, // dlsr
    ];

    let mut raw_octet = Octets::with_slice(&mut raw_packet);

    let parse_rr = RtcpPacket::from_bytes(&mut raw_octet);

    let rr = RtcpPacket {
        version: 2,
        packet: RtcpPacketType::ReceiverReport(RtcpReceiverReportPacket::new(
            817267719,
            vec![RtcpReportBlock::new(
                1200895919, // ssrc
                0,          // fraction_lost
                0,          // packets_lost_accumulation
                630,        // highest_sequence
                1906,       // jitter
                0,          // last_sender_report_timestamp
                0,          // delay
            )],
        )),
    };

    assert!(parse_rr.is_ok());
    assert_eq!(parse_rr.unwrap(), rr);

    let mut buf = [0u8; 4 * 8];
    let mut ser = Octets::with_slice(&mut buf);
    assert!(rr.to_bytes(&mut ser).is_ok());
    assert_eq!(raw_octet, ser);
    assert_eq!(raw_packet, buf);
}

#[test]
fn rtcp_rr_invalid_test() {
    let mut raw_packet = [0x81, 0xC9, 0x00, 0x01, 0xAE, 0x52, 0x8B, 0x43];

    let mut raw_octet = Octets::with_slice(&mut raw_packet);

    let parse_rr = RtcpPacket::from_bytes(&mut raw_octet);

    assert_eq!(parse_rr, Err(RtcpError::InvalidRrPacketLength));
}

#[test]
fn rtcp_rr_truncated_test() {
    let mut raw_packet = [
        0x81, 0xC9, 0x00, 0x07, // header
        0x30, 0xB6, 0x84, 0x07, // ssrc
        0x47, 0x94, 0x37, 0xAF, // ssrc 1
        0x00, 0x00, 0x00, 0x00, // fraction lost etc..
        0x00, 0x00, 0x02, 0x76, // highest sequence
        0x00, 0x00, 0x07, 0x72, // jitter
        0x00, 0x00, 0x00, 0x00, // lsr
        0x00, 0x00, 0x00, 0x00, // dlsr
    ];

    for i in 0..4 {
        let mut raw_octet = Octets::with_slice(&mut raw_packet[..i]);
        let parse_rr = RtcpPacket::from_bytes(&mut raw_octet);
        assert_eq!(parse_rr, Err(RtcpError::PacketHeaderTooShort));
    }

    for i in 4..32 {
        let mut raw_octet = Octets::with_slice(&mut raw_packet[..i]);
        let parse_rr = RtcpPacket::from_bytes(&mut raw_octet);
        assert_eq!(
            parse_rr,
            Err(RtcpError::OctetsError {
                error: OctetsError::BufferTooShort
            })
        );
    }
}

#[test]
fn rtsp_sdes_test() {
    let mut raw_packet = [
        0x81, 0xCA, 0x00, 0x0C, // header
        0x6D, 0x24, 0x53, 0xEA, // ssrc/csrc
        0x01, 0x26, 0x7B, 0x36, 0x33, 0x66, 0x34, 0x35, 0x39, 0x65, 0x61, 0x2D, 0x34, 0x31, 0x66,
        0x65, 0x2D, 0x34, 0x34, 0x37, 0x34, 0x2D, 0x39, 0x64, 0x33, 0x33, 0x2D, 0x39, 0x37, 0x30,
        0x37, 0x63, 0x39, 0x65, 0x65, 0x37, 0x39, 0x64, 0x31, 0x7D, 0x00, 0x00, 0x00, 0x00,
    ];

    let mut raw_octet = Octets::with_slice(&mut raw_packet);

    let parse_sdes = RtcpPacket::from_bytes(&mut raw_octet);

    let sdes = RtcpPacket {
        version: 2,
        packet: RtcpPacketType::SourceDescription(RtcpSourceDescriptionPacket::new(vec![
            RtcpSourceDescriptionChunk::new(
                1831097322,
                vec![RtcpSourceDescriptionItem {
                    item_type: 1,
                    data: "{63f459ea-41fe-4474-9d33-9707c9ee79d1}".as_bytes().to_vec(),
                }],
            ),
        ])),
    };

    assert!(parse_sdes.is_ok());
    assert_eq!(parse_sdes.unwrap(), sdes);

    let mut buf = [0u8; 4 * 13];
    let mut ser = Octets::with_slice(&mut buf);
    assert!(sdes.to_bytes(&mut ser).is_ok());
    assert_eq!(raw_octet, ser);
    assert_eq!(raw_packet[..], buf[..]);
}

#[test]
fn rtcp_sdes_item_truncated_test() {
    let mut raw_packet = [
        0x81, 0xCA, 0x00, 0x07, 0x30, 0xB6, 0x84, 0x07, 0x47, 0x94, 0x37, 0xAF, 0x00, 0x00, 0x00,
        0x00, 0x00, 0x00, 0x02, 0x76, 0x00, 0x00, 0x07, 0x72, 0x00, 0x00, 0x00, 0x00, 0x00, 0x00,
        0x00, 0x00,
    ];

    let mut raw_octet = Octets::with_slice(&mut raw_packet);

    let parse_sdes = RtcpPacket::from_bytes(&mut raw_octet);

    assert_eq!(
        parse_sdes,
        Err(RtcpError::OctetsError {
            error: OctetsError::BufferTooShort
        })
    );
}
