//! A peer connection as far as it describes its own session.

use vstd::prelude::*;
use webrtc_sdp::address::ExplicitlyTypedAddress;
use webrtc_sdp::{SdpOrigin, SdpSession};

verus! {

/// How far the ICE agent has come in connecting to its peer.
pub enum IceConnectionState {
    New,
    Checking,
    Connected,
    Completed,
    Failed,
    Disconnected,
    Closed,
}

/// How far the ICE agent has come in gathering its candidates.
pub enum IceGatheringState {
    New,
    Gathering,
    Completed,
}

/// A session description by the part it plays in an exchange of offer and
/// answer. All but a rollback carry the description's text.
pub enum RTCSessionDescription {
    Offer(String),
    Answer(String),
    Pranswer(String),
    Rollback,
}

/// Where the exchange of offer and answer stands.
pub enum RTCSignalingState {
    Stable,
    HaveLocalOffer,
    HaveRemoteOffer,
    HaveLocalPranswer,
    HaveRemotePranwer,
    Closed,
}

/// The ICE agent of a peer connection.
pub struct IceConnection;

/// A peer connection.
pub struct RTCPeerConnection {
    pub ice_gathering_state: IceGatheringState,
    pub ice_connection: Option<IceConnection>,
}

/// The text by which `webrtc_sdp` writes a session that has the given
/// version, an origin with the given user name, identifier, version and IPv4
/// address `a.b.c.d`, the given session name, and nothing else.
pub uninterp spec fn session_text(
    version: u64,
    username: Seq<char>,
    session_id: u64,
    session_version: u64,
    a: u8,
    b: u8,
    c: u8,
    d: u8,
    session: Seq<char>,
) -> Seq<char>;

/// Builds a session by `webrtc_sdp::SdpSession::new`, with an origin at the
/// IPv4 address `address`, and writes it out by its `Display`. The text
/// depends on the arguments alone; what it is, is left to `webrtc_sdp`.
#[verifier::external_body]
fn describe_session(
    version: u64,
    username: &str,
    session_id: u64,
    session_version: u64,
    address: [u8; 4],
    session: &str,
) -> (text: String)
    ensures
        text@ == session_text(
            version,
            username@,
            session_id,
            session_version,
            address[0],
            address[1],
            address[2],
            address[3],
            session@,
        ),
{
    let origin = SdpOrigin {
        username: username.to_string(),
        session_id,
        session_version,
        unicast_addr: ExplicitlyTypedAddress::Ip(address.into()),
    };
    SdpSession::new(version, origin, session.to_string()).to_string()
}

/// `text` with every occurrence of `from` replaced by `to`, the occurrences
/// taken from the left and not overlapping. `from` is not empty.
pub open spec fn replaced(text: Seq<char>, from: Seq<char>, to: Seq<char>) -> Seq<char>
    decreases text.len(),
{
    if from.len() == 0 || text.len() < from.len() {
        text
    } else if text.take(from.len() as int) == from {
        to + replaced(text.skip(from.len() as int), from, to)
    } else {
        seq![text[0]] + replaced(text.skip(1), from, to)
    }
}

/// `str::replace` of the standard library: a new string in which all
/// matches of `from`, which must not be empty, are replaced by `to`.
#[verifier::external_body]
fn replace_all(text: &str, from: &str, to: &str) -> (r: String)
    requires
        from@.len() > 0,
    ensures
        r@ == replaced(text@, from@, to@),
{
    text.replace(from, to)
}

/// The text of the session that a peer connection describes for itself.
pub open spec fn local_session_text() -> Seq<char> {
    session_text(0, "Test"@, 0, 0, 127, 0, 0, 1, ""@)
}

/// A session description's text with its direction turned from
/// `a=sendrecv` to `a=inactive`.
pub open spec fn inactive_text(text: Seq<char>) -> Seq<char> {
    replaced(text, "a=sendrecv"@, "a=inactive"@)
}

/// Turns the direction of a session description from `a=sendrecv` to
/// `a=inactive`, wherever it stands.
pub fn make_inactive(text: &str) -> (r: String)
    ensures
        r@ == inactive_text(text@),
{
    proof {
        reveal_strlit("a=sendrecv");
    }
    replace_all(text, "a=sendrecv", "a=inactive")
}

impl RTCPeerConnection {
    /// A peer connection that has no ICE agent and has gathered nothing.
    pub fn new() -> (r: RTCPeerConnection)
        ensures
            r.ice_connection is None,
            r.ice_gathering_state is New,
    {
        RTCPeerConnection { ice_connection: None, ice_gathering_state: IceGatheringState::New }
    }

    /// An answer that carries the connection's own session.
    pub fn create_answer(&self) -> (r: RTCSessionDescription)
        ensures
            r matches RTCSessionDescription::Answer(text) && text@ == local_session_text(),
    {
        let sdp = self.create_sdp();
        RTCSessionDescription::Answer(sdp)
    }

    /// An offer that carries the connection's own session. Gathering
    /// candidates is over when it returns.
    pub fn create_offer(&mut self) -> (r: RTCSessionDescription)
        ensures
            final(self).ice_gathering_state is Completed,
            final(self).ice_connection == old(self).ice_connection,
            r matches RTCSessionDescription::Offer(text) && text@ == local_session_text(),
    {
        self.ice_gathering_state = IceGatheringState::Gathering;
        self.ice_gathering_state = IceGatheringState::Completed;
        let sdp = self.create_sdp();
        RTCSessionDescription::Offer(sdp)
    }

    /// A provisional answer: the connection's own session, made inactive.
    pub fn create_pranswer(&self) -> (r: RTCSessionDescription)
        ensures
            r matches RTCSessionDescription::Pranswer(text) && text@ == inactive_text(
                local_session_text(),
            ),
    {
        let sdp = self.create_sdp();
        RTCSessionDescription::Pranswer(make_inactive(sdp.as_str()))
    }

    /// The text of the connection's own session.
    pub fn create_sdp(&self) -> (text: String)
        ensures
            text@ == local_session_text(),
    {
        describe_session(0, "Test", 0, 0, [127, 0, 0, 1], "")
    }
}

} // verus!
