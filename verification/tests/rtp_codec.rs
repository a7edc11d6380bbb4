use webrtc_codec::octets::{read_u32s, write_u32s, Octets};
use webrtc_codec::rtp::packet::{
    unpack_header_extension, RtpHeader, RtpHeaderExtension, RtpPacket,
};
use webrtc_codec::rtp::{lift, RtpError};
use webrtc_codec::OctetsError;

fn short() -> RtpError {
    RtpError::OctetsError {
        error: OctetsError::BufferTooShort,
    }
}

fn plain_header() -> RtpHeader {
    RtpHeader {
        version: 2,
        padding: None,
        extension: None,
        marker: false,
        payload_type: 8,
        sequence_number: 0x0102,
        timestamp: 0x0304_0506,
        ssrc: 0x0708_090A,
        csrc: vec![],
    }
}

fn unpack(bytes: &[u8], profile: u16) -> Result<Vec<(u8, Vec<u8>)>, RtpError> {
    let mut copy = bytes.to_vec();
    let mut o = Octets::with_slice(&mut copy);
    unpack_header_extension(&mut o, profile)
}

#[test]
fn rtp_lift_wraps_the_cursor_error() {
    assert_eq!(lift(Ok::<u8, OctetsError>(3)), Ok(3));
    assert_eq!(lift(Err::<u8, OctetsError>(OctetsError::BufferTooShort)), Err(short()));
    assert_eq!(RtpError::from(OctetsError::BufferTooShort), short());
}

#[test]
fn words_are_written_and_read_in_order() {
    let mut buf = [0u8; 8];
    {
        let mut o = Octets::with_slice(&mut buf);
        assert_eq!(write_u32s(&vec![1, 0x0A0B_0C0D], &mut o), Ok(()));
        assert_eq!(
            write_u32s(&vec![1], &mut o),
            Err(OctetsError::BufferTooShort)
        );
    }
    assert_eq!(buf, [0, 0, 0, 1, 0x0A, 0x0B, 0x0C, 0x0D]);
    let mut o = Octets::with_slice(&mut buf);
    assert_eq!(read_u32s(&mut o, 2), Ok(vec![1, 0x0A0B_0C0D]));
    assert_eq!(read_u32s(&mut o, 1), Err(OctetsError::BufferTooShort));
    assert_eq!(read_u32s(&mut o, 0), Ok(vec![]));
}

#[test]
fn header_with_sources_padding_and_extension_round_trips() {
    let raw = [
        0xB2, 0xFF, 0x01, 0x02, 3, 4, 5, 6, 7, 8, 9, 10, // fixed part
        0, 0, 0, 11, 0, 0, 0, 12, // two contributing sources
        0xBE, 0xDE, 0x00, 0x01, 0x10, 0xAA, 0x00, 0x00, // extension
        0xC0, 0xC1, 0x00, 0x00, 0x03, // payload and padding
    ];
    let expected = RtpPacket::new(
        RtpHeader {
            version: 2,
            padding: Some(3),
            extension: Some(RtpHeaderExtension::new(0xBEDE, vec![0x10AA_0000])),
            marker: true,
            payload_type: 127,
            sequence_number: 0x0102,
            timestamp: 0x0304_0506,
            ssrc: 0x0708_090A,
            csrc: vec![11, 12],
        },
        vec![0xC0, 0xC1],
    );
    let mut copy = raw;
    assert_eq!(RtpPacket::from_slice(&mut copy), Ok(expected.clone()));
    assert_eq!(copy, raw);
    let mut copy = raw;
    assert_eq!(RtpHeader::from_slice(&mut copy), Ok(expected.header.clone()));
    let mut copy = raw;
    let mut o = Octets::with_slice(&mut copy);
    assert_eq!(RtpHeader::from_bytes(&mut o), Ok(expected.header.clone()));
    assert_eq!(o.off(), 28);
    let mut buf = [0xEEu8; 33];
    {
        let mut o = Octets::with_slice(&mut buf);
        assert_eq!(expected.to_bytes(&mut o), Ok(()));
        assert_eq!(o.off(), 33);
    }
    assert_eq!(buf, raw);
    let mut small = [0u8; 32];
    let mut o = Octets::with_slice(&mut small);
    assert_eq!(expected.to_bytes(&mut o), Err(short()));
}

#[test]
fn contributing_source_count_has_four_bits() {
    let mut raw = vec![0x8F, 0x00, 0, 0, 0, 0, 0, 0, 0, 0, 0, 0];
    for i in 0..15u8 {
        raw.extend_from_slice(&[0, 0, 0, i]);
    }
    let h = RtpHeader::from_slice(&mut raw).unwrap();
    assert_eq!(h.csrc, (0..15u32).collect::<Vec<u32>>());
    let mut buf = vec![0u8; 72];
    {
        let mut o = Octets::with_slice(&mut buf);
        assert_eq!(h.to_bytes(&mut o), Ok(()));
    }
    assert_eq!(buf, raw);
    let mut raw = vec![0x88u8; 43];
    raw[0] = 0x88;
    assert_eq!(RtpHeader::from_slice(&mut raw), Err(RtpError::PacketHeaderTooShort));
    let mut raw = vec![0x88u8; 44];
    assert_eq!(RtpHeader::from_slice(&mut raw).unwrap().csrc.len(), 8);
}

#[test]
fn rtp_version_guard() {
    let good = [0x80u8, 8, 1, 2, 3, 4, 5, 6, 7, 8, 9, 10, 0, 0, 0, 0];
    for first in 0u16..256 {
        let first = first as u8;
        let mut raw = good;
        raw[0] = first;
        let h = RtpHeader::from_slice(&mut raw);
        let p = RtpPacket::from_slice(&mut raw);
        if first >> 6 != 2 {
            assert_eq!(h, Err(RtpError::InvalidPacketVersion));
            assert_eq!(p, Err(RtpError::InvalidPacketHeader));
        } else {
            assert_ne!(h, Err(RtpError::InvalidPacketVersion));
        }
    }
    let mut short_bad = [0x00u8; 15];
    assert_eq!(
        RtpHeader::from_slice(&mut short_bad),
        Err(RtpError::PacketHeaderTooShort)
    );
}

#[test]
fn header_needs_sixteen_bytes() {
    for len in 0..16 {
        let mut raw = vec![0x80u8; len];
        assert_eq!(RtpHeader::from_slice(&mut raw), Err(RtpError::PacketHeaderTooShort));
        assert_eq!(RtpPacket::from_slice(&mut raw), Err(RtpError::InvalidPacketHeader));
    }
    let mut raw = [0x80u8, 8, 1, 2, 3, 4, 5, 6, 7, 8, 9, 10, 0xA, 0xB, 0xC, 0xD];
    assert_eq!(RtpHeader::from_slice(&mut raw), Ok(plain_header()));
    assert_eq!(
        RtpPacket::from_slice(&mut raw),
        Ok(RtpPacket::new(plain_header(), vec![0xA, 0xB, 0xC, 0xD]))
    );
}

#[test]
fn extension_that_fits_is_read() {
    let mut raw = [
        0x90u8, 8, 1, 2, 3, 4, 5, 6, 7, 8, 9, 10, 0x10, 0x00, 0x00, 0x01, 1, 2, 3, 4,
    ];
    let h = RtpHeader::from_slice(&mut raw).unwrap();
    assert_eq!(h.extension, Some(RtpHeaderExtension::new(0x1000, vec![0x0102_0304])));
    let mut raw = [
        0x90u8, 8, 1, 2, 3, 4, 5, 6, 7, 8, 9, 10, 0x10, 0x00, 0x00, 0x02, 1, 2, 3, 4,
    ];
    assert_eq!(
        RtpHeader::from_slice(&mut raw),
        Err(RtpError::InvalidPacketHeaderExtensionSize)
    );
    let mut raw = [0x90u8, 8, 1, 2, 3, 4, 5, 6, 7, 8, 9, 10, 0x10, 0x00, 0x00, 0x00];
    let h = RtpHeader::from_slice(&mut raw).unwrap();
    assert_eq!(h.extension, Some(RtpHeaderExtension::new(0x1000, vec![])));
}

#[test]
fn extension_alone_reports_the_short_buffer() {
    let mut raw = [0x10u8, 0x00, 0x00, 0x01, 1, 2, 3];
    let mut o = Octets::with_slice(&mut raw);
    assert_eq!(RtpHeaderExtension::from_bytes(&mut o), Err(short()));
    let mut raw = [0x10u8, 0x00, 0x00];
    let mut o = Octets::with_slice(&mut raw);
    assert_eq!(RtpHeaderExtension::from_bytes(&mut o), Err(short()));
    let ext = RtpHeaderExtension::new(0xBEDE, vec![0xFFFF_FFFF, 1]);
    let mut buf = [0u8; 12];
    {
        let mut o = Octets::with_slice(&mut buf);
        assert_eq!(ext.to_bytes(&mut o), Ok(()));
    }
    assert_eq!(buf, [0xBE, 0xDE, 0, 2, 255, 255, 255, 255, 0, 0, 0, 1]);
    let mut o = Octets::with_slice(&mut buf);
    assert_eq!(RtpHeaderExtension::from_bytes(&mut o), Ok(ext));
    assert_eq!(o.off(), 12);
}

#[test]
fn padding_is_cut_from_the_payload() {
    let mut raw = [
        0xA0u8, 8, 1, 2, 3, 4, 5, 6, 7, 8, 9, 10, 0xA, 0xB, 0x00, 0x02,
    ];
    let mut with_padding = plain_header();
    with_padding.padding = Some(2);
    let mut o = Octets::with_slice(&mut raw);
    assert_eq!(
        RtpPacket::from_bytes(&mut o),
        Ok(RtpPacket::new(with_padding.clone(), vec![0xA, 0xB]))
    );
    assert_eq!(o.off(), 14);
    let mut raw = [
        0xA0u8, 8, 1, 2, 3, 4, 5, 6, 7, 8, 9, 10, 0xA, 0xB, 0x00, 0x04,
    ];
    with_padding.padding = Some(4);
    assert_eq!(
        RtpPacket::from_slice(&mut raw),
        Ok(RtpPacket::new(with_padding.clone(), vec![]))
    );
    let mut raw = [
        0xA0u8, 8, 1, 2, 3, 4, 5, 6, 7, 8, 9, 10, 0xA, 0xB, 0x00, 0x05,
    ];
    assert_eq!(
        RtpPacket::from_slice(&mut raw),
        Err(RtpError::InvalidPacketPaddingLength)
    );
    let mut raw = [
        0xA0u8, 8, 1, 2, 3, 4, 5, 6, 7, 8, 9, 10, 0xA, 0xB, 0x0C, 0x00,
    ];
    with_padding.padding = Some(0);
    assert_eq!(
        RtpPacket::from_slice(&mut raw),
        Ok(RtpPacket::new(with_padding, vec![0xA, 0xB, 0x0C, 0x00]))
    );
}

#[test]
fn padding_of_one_is_the_count_alone() {
    let mut h = plain_header();
    h.padding = Some(1);
    let p = RtpPacket::new(h, vec![0x55]);
    let mut buf = [0xEEu8; 14];
    {
        let mut o = Octets::with_slice(&mut buf);
        assert_eq!(p.to_bytes(&mut o), Ok(()));
    }
    assert_eq!(buf, [0xA0, 8, 1, 2, 3, 4, 5, 6, 7, 8, 9, 10, 0x55, 0x01]);
}

#[test]
fn one_byte_entries_are_unpacked() {
    assert_eq!(
        unpack(&[0x10, 0xAA, 0x00, 0x21, 0xBB, 0xCC, 0x00], 0xBEDE),
        Ok(vec![(1, vec![0xAA]), (2, vec![0xBB, 0xCC])])
    );
    assert_eq!(
        unpack(&[0xFF, 1, 2, 3, 4, 5, 6, 7, 8, 9, 10, 11, 12, 13, 14, 15, 16], 0xBEDE),
        Ok(vec![(15, (1..17).collect())])
    );
    assert_eq!(unpack(&[], 0xBEDE), Ok(vec![]));
    assert_eq!(unpack(&[0, 0, 0], 0xBEDE), Ok(vec![]));
    assert_eq!(
        unpack(&[0x11, 0xAA], 0xBEDE),
        Err(RtpError::TruncatedHeaderExtensionValue)
    );
    assert_eq!(
        unpack(&[0x10], 0xBEDE),
        Err(RtpError::TruncatedHeaderExtensionValue)
    );
}

#[test]
fn two_byte_entries_are_unpacked() {
    assert_eq!(
        unpack(&[0x01, 0x02, 0xAA, 0xBB, 0x00, 0x02, 0x00], 0x1000),
        Ok(vec![(1, vec![0xAA, 0xBB]), (2, vec![])])
    );
    assert_eq!(unpack(&[0xFF, 0x01, 0x00], 0x1000), Ok(vec![(255, vec![0])]));
    assert_eq!(
        unpack(&[0x05], 0x1000),
        Err(RtpError::TruncatedTwoByteHeaderExtension)
    );
    assert_eq!(
        unpack(&[0x05, 0x02, 0xAA], 0x1000),
        Err(RtpError::TruncatedHeaderExtensionValue)
    );
}

#[test]
fn other_profiles_are_refused() {
    assert_eq!(unpack(&[], 1), Err(RtpError::InvalidHeaderExtensionProfile));
    assert_eq!(
        unpack(&[0x10, 0xAA], 0xBEDF),
        Err(RtpError::InvalidHeaderExtensionProfile)
    );
    assert_eq!(
        unpack(&[0x10, 0xAA], 0x1001),
        Err(RtpError::InvalidHeaderExtensionProfile)
    );
}

#[test]
fn entries_are_read_from_the_cursor_position_to_the_end() {
    let mut raw = [0x99u8, 0x10, 0xAA];
    let mut o = Octets::with_slice(&mut raw);
    assert_eq!(o.get_u8(), Ok(0x99));
    assert_eq!(unpack_header_extension(&mut o, 0xBEDE), Ok(vec![(1, vec![0xAA])]));
    assert_eq!(o.off(), 3);
}

#[test]
fn packets_that_can_be_written() {
    assert!(plain_header().is_encodable());
    let mut h = plain_header();
    h.version = 4;
    assert!(!h.is_encodable());
    let mut h = plain_header();
    h.payload_type = 128;
    assert!(!h.is_encodable());
    let mut h = plain_header();
    h.csrc = vec![0; 16];
    assert!(!h.is_encodable());
    h.csrc = vec![0; 15];
    assert!(h.is_encodable());
    let mut h = plain_header();
    h.extension = Some(RtpHeaderExtension::new(0xBEDE, vec![0; 65_536]));
    assert!(!h.is_encodable());
    h.extension = Some(RtpHeaderExtension::new(0xBEDE, vec![0; 65_535]));
    assert!(h.is_encodable());
    let mut h = plain_header();
    h.padding = Some(0);
    assert!(h.is_encodable());
    assert!(!RtpPacket::new(h.clone(), vec![]).is_encodable());
    h.padding = Some(255);
    assert!(RtpPacket::new(h, vec![1]).is_encodable());
    assert!(RtpPacket::new(plain_header(), vec![]).is_encodable());
}

#[test]
fn largest_padding_round_trips() {
    let mut h = plain_header();
    h.padding = Some(255);
    let p = RtpPacket::new(h, vec![9, 8, 7]);
    let mut buf = vec![0xEEu8; 12 + 3 + 255];
    {
        let mut o = Octets::with_slice(&mut buf);
        assert_eq!(p.to_bytes(&mut o), Ok(()));
        assert_eq!(o.cap(), 0);
    }
    assert_eq!(buf[0], 0xA0);
    assert_eq!(&buf[12..15], &[9, 8, 7]);
    assert!(buf[15..269].iter().all(|b| *b == 0));
    assert_eq!(buf[269], 255);
    assert_eq!(RtpPacket::from_slice(&mut buf), Ok(p));
}

#[test]
fn written_rtp_packets_read_back() {
    let mut h = plain_header();
    h.marker = true;
    h.payload_type = 111;
    h.csrc = vec![1, 2, 3];
    h.extension = Some(RtpHeaderExtension::new(0x1000, vec![0x0102_0304, 5]));
    h.padding = Some(4);
    let p = RtpPacket::new(h, vec![0xDE, 0xAD]);
    assert!(p.is_encodable());
    let mut buf = vec![0u8; 12 + 12 + 12 + 2 + 4];
    {
        let mut o = Octets::with_slice(&mut buf);
        assert_eq!(p.to_bytes(&mut o), Ok(()));
        assert_eq!(o.cap(), 0);
    }
    assert_eq!(buf[0], 0xB3);
    assert_eq!(buf[1], 0xEF);
    assert_eq!(RtpPacket::from_slice(&mut buf), Ok(p));
}
