use rand::Rng;
use webrtc_codec::rtp::packetizer::RtpPacketizer;

#[test]
fn rand() {
    let mut rng = rand::thread_rng();
    let rand1: u32 = rng.gen();
    let rand2: u32 = rng.gen();

    assert_ne!(rand1, rand2)
}

#[test]
fn packetizer_keeps_its_parameters() {
    let p = RtpPacketizer::new(1200, 96, 0x1234_5678, 90_000);
    assert_eq!(p.mtu, 1200);
    assert_eq!(p.payload_type, 96);
    assert_eq!(p.ssrc, 0x1234_5678);
    assert_eq!(p.clock_rate, 90_000);
    RtpPacketizer::pack();
}

#[test]
fn packetizer_timestamps_differ_between_streams() {
    let mut seen = Vec::new();
    for _ in 0..8 {
        seen.push(RtpPacketizer::new(1200, 96, 1, 90_000).timestamp);
    }
    let first = seen[0];
    assert!(seen.iter().any(|t| *t != first));
}
