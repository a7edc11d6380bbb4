use webrtc_codec::octets::Octets;
use webrtc_codec::rtp::packet::{RtpHeader, RtpHeaderExtension, RtpPacket};
use webrtc_codec::rtp::RtpError;

#[test]
fn rtp_header_parse_test() {
    let mut raw_packet = [
        0x90, 0xe0, 0x69, 0x8f, 0xd9, 0xc2, 0x93, 0xda, 0x1c, 0x64, 0x27, 0x82, 0x00, 0x01, 0x00,
        0x01, 0xFF, 0xFF, 0xFF, 0xFF, 0x98, 0x36, 0xbe, 0x88, 0x9e,
    ];

    let mut raw_octet = Octets::with_slice(&mut raw_packet);

    let header = RtpHeader::from_bytes(&mut raw_octet).unwrap();

    let parsed_header = RtpHeader {
        version: 2,
        padding: None,
        extension: Option::Some(RtpHeaderExtension {
            profile: 1,
            payload: vec![0xFFFFFFFF],
        }),
        marker: true,
        payload_type: 96,
        sequence_number: 27023,
        timestamp: 3653407706,
        ssrc: 476325762,
        csrc: vec![],
    };
    assert_eq!(header, parsed_header);

    let mut pack_buf = [0; 1500];
    let offset;
    {
        let mut packed_octets = Octets::with_slice(&mut pack_buf);
        assert!(parsed_header.to_bytes(&mut packed_octets).is_ok());
        offset = packed_octets.off();
    }

    assert_eq!(raw_packet[..offset], pack_buf[..offset]);
}

#[test]
fn rtp_header_extension_test() {
    let mut missing = [
        0x90u8, 0x60, 0x69, 0x8f, 0xd9, 0xc2, 0x93, 0xda, 0x1c, 0x64, 0x27, 0x82,
    ];

    let mut missing_octets = Octets::with_slice(&mut missing);

    let header = RtpHeader::from_bytes(&mut missing_octets);
    assert_eq!(header, Err(RtpError::PacketHeaderTooShort));

    let mut invalid_length = [
        0x90, 0x60, 0x69, 0x8f, 0xd9, 0xc2, 0x93, 0xda, 0x1c, 0x64, 0x27, 0x82, 0x99, 0x99, 0x99,
        0x99,
    ];

    let mut invalid_length_octets = Octets::with_slice(&mut invalid_length);

    let header = RtpHeader::from_bytes(&mut invalid_length_octets);
    assert_eq!(header, Err(RtpError::InvalidPacketHeaderExtensionSize));
}

#[test]
fn rtp_packet_parse_test() {
    let mut raw_packet = [
        0x90, 0xe0, 0x69, 0x8f, 0xd9, 0xc2, 0x93, 0xda, 0x1c, 0x64, 0x27, 0x82, 0x00, 0x01, 0x00,
        0x01, 0xFF, 0xFF, 0xFF, 0xFF, 0x98, 0x36, 0xbe, 0x88, 0x9e,
    ];
    let expected_payload = raw_packet[20..].to_vec();

    let mut raw_octet = Octets::with_slice(&mut raw_packet);

    let packet = RtpPacket::from_bytes(&mut raw_octet).unwrap();

    let parsed_packet = RtpPacket {
        header: RtpHeader {
            version: 2,
            padding: None,
            extension: Option::Some(RtpHeaderExtension {
                profile: 1,
                payload: vec![0xFFFFFFFF],
            }),
            marker: true,
            payload_type: 96,
            sequence_number: 27023,
            timestamp: 3653407706,
            ssrc: 476325762,
            csrc: Vec::new(),
        },
        payload: expected_payload,
    };
    assert_eq!(packet, parsed_packet);

    let mut pack_buf = [0; 1500];
    let offset;
    {
        let mut packed_octets = Octets::with_slice(&mut pack_buf);
        assert!(parsed_packet.to_bytes(&mut packed_octets).is_ok());
        offset = packed_octets.off();
    }

    assert_eq!(raw_packet, pack_buf[..offset]);
}

#[test]
fn rtp_packet_with_extension_test() {
    let mut missing = [
        0x90u8, 0x60, 0x69, 0x8f, 0xd9, 0xc2, 0x93, 0xda, 0x1c, 0x64, 0x27, 0x82,
    ];

    let mut missing_octets = Octets::with_slice(&mut missing);

    assert!(RtpPacket::from_bytes(&mut missing_octets).is_err());

    let err = RtpPacket::from_bytes(&mut missing_octets);
    assert_eq!(err, Err(RtpError::InvalidPacketHeader));

    let mut invalid_length = [
        0x90, 0x60, 0x69, 0x8f, 0xd9, 0xc2, 0x93, 0xda, 0x1c, 0x64, 0x27, 0x82, 0x99, 0x99, 0x99,
        0x99,
    ];

    let mut invalid_length_octets = Octets::with_slice(&mut invalid_length);

    assert!(RtpPacket::from_bytes(&mut invalid_length_octets).is_err());
}
