//! Socket addresses of nodes, held as plain values.

use vstd::prelude::*;

verus! {

/// The IP part of a socket address.
#[derive(Debug, Clone, Copy, PartialEq, Eq, Structural)]
pub enum PeerIp {
    /// The four octets of an IPv4 address.
    V4(u8, u8, u8, u8),
    /// The 128 bits of an IPv6 address (most significant first), its flow
    /// information and its scope id.
    V6(u128, u32, u32),
}

/// A socket address: an IP address and a port.
#[derive(Debug, Clone, Copy, PartialEq, Eq, Structural)]
pub struct PeerAddr {
    pub ip: PeerIp,
    pub port: u16,
}

impl PeerAddr {
    /// The same IP with another port; an IPv6 address loses its flow
    /// information and scope id (as `SocketAddr::new` builds it).
    pub open spec fn with_port_spec(self, port: u16) -> PeerAddr {
        PeerAddr {
            ip: match self.ip {
                PeerIp::V4(a, b, c, d) => PeerIp::V4(a, b, c, d),
                PeerIp::V6(s, _, _) => PeerIp::V6(s, 0, 0),
            },
            port,
        }
    }

    pub fn with_port(&self, port: u16) -> (r: PeerAddr)
        ensures
            r == self.with_port_spec(port),
    {
        let ip = match self.ip {
            PeerIp::V4(a, b, c, d) => PeerIp::V4(a, b, c, d),
            PeerIp::V6(s, _, _) => PeerIp::V6(s, 0, 0),
        };
        PeerAddr { ip, port }
    }

    /// What tells two senders apart in the table of wanted chunks: the IP
    /// address and the port (the text `<ip>:<port>` depends on nothing else).
    pub open spec fn endpoint_spec(self) -> PeerAddr {
        self.with_port_spec(self.port)
    }

    pub fn endpoint(&self) -> (r: PeerAddr)
        ensures
            r == self.endpoint_spec(),
    {
        self.with_port(self.port)
    }
}

} // verus!

verus! {

/// Changing the port keeps the address: an IPv4 address stays as it is, an
/// IPv6 address keeps its 128 bits (losing only its flow information and
/// scope id), and the port is the new one. The endpoint of an address is the
/// same host and port.
pub proof fn lemma_with_port_keeps_host(a: PeerAddr, port: u16)
    ensures
        a.with_port_spec(port).port == port,
        a.ip is V4 ==> a.with_port_spec(port).ip == a.ip,
        a.ip matches PeerIp::V6(bits, _, _) ==> a.with_port_spec(port).ip == PeerIp::V6(bits, 0, 0),
        a.endpoint_spec().port == a.port,
        a.ip is V4 ==> a.endpoint_spec() == a,
{
}

} // verus!
