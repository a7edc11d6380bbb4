use webrtc_codec::ice::ice_connection::{
    random_credential, IceConnection, IpAddress, SocketAddress, TransportType, TurnOption,
};
use webrtc_codec::rtcpeerconnection::{
    make_inactive, IceGatheringState, RTCPeerConnection, RTCSessionDescription,
};

const LOCAL_SESSION: &str = "v=0\r\no=Test 0 0 IN IP4 127.0.0.1\r\ns= \r\n";

fn text_of(d: RTCSessionDescription) -> (u8, String) {
    match d {
        RTCSessionDescription::Offer(t) => (0, t),
        RTCSessionDescription::Answer(t) => (1, t),
        RTCSessionDescription::Pranswer(t) => (2, t),
        RTCSessionDescription::Rollback => (3, String::new()),
    }
}

#[test]
fn new_connection_has_gathered_nothing() {
    let pc = RTCPeerConnection::new();
    assert!(matches!(pc.ice_gathering_state, IceGatheringState::New));
    assert!(pc.ice_connection.is_none());
}

#[test]
fn answer_carries_the_local_session() {
    let pc = RTCPeerConnection::new();
    assert_eq!(pc.create_sdp(), LOCAL_SESSION);
    assert_eq!(text_of(pc.create_answer()), (1, LOCAL_SESSION.to_string()));
    assert!(matches!(pc.ice_gathering_state, IceGatheringState::New));
}

#[test]
fn offer_completes_gathering() {
    let mut pc = RTCPeerConnection::new();
    assert_eq!(text_of(pc.create_offer()), (0, LOCAL_SESSION.to_string()));
    assert!(matches!(pc.ice_gathering_state, IceGatheringState::Completed));
    assert!(pc.ice_connection.is_none());
}

#[test]
fn provisional_answer_is_the_local_session_made_inactive() {
    let pc = RTCPeerConnection::new();
    assert_eq!(text_of(pc.create_pranswer()), (2, LOCAL_SESSION.to_string()));
}

#[test]
fn make_inactive_replaces_every_direction_line() {
    assert_eq!(make_inactive("a=sendrecv"), "a=inactive");
    assert_eq!(
        make_inactive("v=0\r\na=sendrecv\r\nm=audio\r\na=sendrecv\r\n"),
        "v=0\r\na=inactive\r\nm=audio\r\na=inactive\r\n"
    );
    assert_eq!(make_inactive("a=sendrecva=sendrecv"), "a=inactivea=inactive");
    assert_eq!(make_inactive("a=sendonly"), "a=sendonly");
    assert_eq!(make_inactive("a=sendrec"), "a=sendrec");
    assert_eq!(make_inactive("a=a=sendrecv"), "a=a=inactive");
    assert_eq!(make_inactive("a=sendrea=sendrecv"), "a=sendrea=inactive");
    assert_eq!(make_inactive("a=sendrecvé"), "a=inactiveé");
    assert_eq!(make_inactive("éa=sendrecv"), "éa=inactive");
    assert_eq!(make_inactive(""), "");
}

#[test]
fn credentials_are_letters_and_digits() {
    for len in [0usize, 1, 4, 22, 100] {
        let text = random_credential(len);
        assert_eq!(text.chars().count(), len);
        assert!(text.chars().all(|c| c.is_ascii_alphanumeric()));
    }
    assert_ne!(random_credential(64), random_credential(64));
}

#[test]
fn ice_agent_draws_its_credentials() {
    let stun = SocketAddress {
        ip: IpAddress::V4 {
            octets: [192, 0, 2, 1],
        },
        port: 3478,
    };
    let turn = TurnOption {
        addr: SocketAddress {
            ip: IpAddress::V6 {
                octets: [0x20, 0x01, 0x0d, 0xb8, 0, 0, 0, 0, 0, 0, 0, 0, 0, 0, 0, 1],
                flowinfo: 0,
                scope_id: 0,
            },
            port: 5349,
        },
        user: "user".to_string(),
        password: "secret".to_string(),
        is_ssl: true,
        transport: TransportType::TCP,
    };
    let ice = IceConnection::new(true, 2, Some(stun), Some(turn), true, false);
    assert!(ice.ice_controlling);
    assert_eq!(ice.components, 2);
    assert!(ice.use_ipv4);
    assert!(!ice.use_ipv6);
    assert_eq!(ice.local_username.len(), 4);
    assert_eq!(ice.local_password.len(), 22);
    assert!(ice.local_username.chars().all(|c| c.is_ascii_alphanumeric()));
    assert!(ice.local_password.chars().all(|c| c.is_ascii_alphanumeric()));
    assert!(ice.remote_username.is_none());
    assert!(ice.remote_password.is_none());
    let stun = ice.stun_server.unwrap();
    assert_eq!(stun.port, 3478);
    assert!(matches!(stun.ip, IpAddress::V4 { octets: [192, 0, 2, 1] }));
    let turn = ice.turn_server.unwrap();
    assert_eq!(turn.user, "user");
    assert_eq!(turn.password, "secret");
    assert!(turn.is_ssl);
    assert!(matches!(turn.transport, TransportType::TCP));
    assert_eq!(turn.addr.port, 5349);
}
