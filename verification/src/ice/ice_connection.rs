//! The state of one ICE agent: its role, its credentials and the servers it
//! may ask for candidates.

use rand::distributions::Alphanumeric;
use rand::Rng;
use vstd::prelude::*;

verus! {

/// The transport by which a relay is reached.
pub enum TransportType {
    UDP,
    TCP,
}

/// An IP address by its bytes, as the network orders them.
#[allow(inconsistent_fields)]
pub enum IpAddress {
    V4 { octets: [u8; 4] },
    V6 { octets: [u8; 16], flowinfo: u32, scope_id: u32 },
}

/// An IP address and a port.
pub struct SocketAddress {
    pub ip: IpAddress,
    pub port: u16,
}

/// How to reach and use a TURN relay.
pub struct TurnOption {
    pub addr: SocketAddress,
    pub user: String,
    pub password: String,
    pub is_ssl: bool,
    pub transport: TransportType,
}

/// One ICE agent.
pub struct IceConnection {
    pub ice_controlling: bool,
    pub local_username: String,
    pub local_password: String,
    pub remote_username: Option<String>,
    pub remote_password: Option<String>,
    pub components: usize,
    pub stun_server: Option<SocketAddress>,
    pub turn_server: Option<TurnOption>,
    pub use_ipv4: bool,
    pub use_ipv6: bool,
}

/// The length of the user name fragment that an agent draws for itself.
pub const LOCAL_USERNAME_LEN: usize = 4;

/// The length of the password that an agent draws for itself.
pub const LOCAL_PASSWORD_LEN: usize = 22;

/// Whether `c` is an ASCII letter or digit.
pub open spec fn is_alphanumeric(c: char) -> bool {
    let n = c as u32;
    48 <= n <= 57 || 65 <= n <= 90 || 97 <= n <= 122
}

/// Whether `text` is `len` ASCII letters and digits.
pub open spec fn is_credential(text: Seq<char>, len: int) -> bool {
    &&& text.len() == len
    &&& forall|i: int| 0 <= i < text.len() ==> is_alphanumeric(#[trigger] text[i])
}

/// Draws one character from `rand`'s thread-local generator by
/// `Rng::sample` with the `Alphanumeric` distribution, which picks among the
/// 62 ASCII letters and digits. Which of them comes is not claimed.
#[verifier::external_body]
fn random_alphanumeric() -> (c: char)
    ensures
        is_alphanumeric(c),
{
    rand::thread_rng().sample(Alphanumeric)
}

/// A text of `len` letters and digits, each drawn at random.
pub fn random_credential(len: usize) -> (text: String)
    ensures
        is_credential(text@, len as int),
{
    let mut text = String::new();
    let mut i: usize = 0;
    while i < len
        invariant
            i <= len,
            is_credential(text@, i as int),
        decreases len - i,
    {
        let c = random_alphanumeric();
        text.push(c);
        i = i + 1;
    }
    text
}

impl IceConnection {
    /// An agent with the given role and servers. It draws its own user name
    /// fragment and password at random and knows nothing of its peer yet.
    pub fn new(
        ice_controlling: bool,
        components: usize,
        stun_server: Option<SocketAddress>,
        turn_server: Option<TurnOption>,
        use_ipv4: bool,
        use_ipv6: bool,
    ) -> (r: IceConnection)
        ensures
            r.ice_controlling == ice_controlling,
            r.components == components,
            r.stun_server == stun_server,
            r.turn_server == turn_server,
            r.use_ipv4 == use_ipv4,
            r.use_ipv6 == use_ipv6,
            is_credential(r.local_username@, LOCAL_USERNAME_LEN as int),
            is_credential(r.local_password@, LOCAL_PASSWORD_LEN as int),
            r.remote_username is None,
            r.remote_password is None,
    {
        let local_username = random_credential(LOCAL_USERNAME_LEN);
        let local_password = random_credential(LOCAL_PASSWORD_LEN);
        let remote_username = None;
        let remote_password = None;
        IceConnection {
            ice_controlling,
            local_username,
            local_password,
            remote_username,
            remote_password,
            components,
            stun_server,
            turn_server,
            use_ipv4,
            use_ipv6,
        }
    }
}

} // verus!
