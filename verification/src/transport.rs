//! Where a message came from or goes to.

use vstd::prelude::*;

verus! {

/// An address and a port. A version 4 address stands in the low 32 bits.
#[derive(Debug, Clone, Copy, PartialEq, Eq, Structural)]
pub struct SocketAddr {
    /// The address.
    pub ip: u128,
    /// Whether it is a version 6 address.
    pub v6: bool,
    /// The port.
    pub port: u16,
}

/// What a message travels over.
#[derive(Debug, Clone, Copy, PartialEq, Eq, Structural)]
pub enum TransportProtocol {
    /// Datagrams.
    UDP,
    /// A byte stream.
    TCP,
}

/// An explicit congestion notification mark.
#[derive(Debug, Clone, Copy, PartialEq, Eq, Structural)]
pub enum EcnCodepoint {
    /// Capable transport, first codepoint.
    Ect0,
    /// Capable transport, second codepoint.
    Ect1,
    /// Congestion experienced.
    Ce,
}

/// How a message travels.
#[derive(Debug, Clone, Copy, PartialEq, Eq, Structural)]
pub struct TransportContext {
    /// This end.
    pub local_addr: SocketAddr,
    /// The other end.
    pub peer_addr: SocketAddr,
    /// What it travels over.
    pub transport_protocol: TransportProtocol,
    /// Its congestion notification mark.
    pub ecn: Option<EcnCodepoint>,
}

/// The address that stands for none: version 4, all zero, port zero.
pub open spec fn unspecified() -> SocketAddr {
    SocketAddr { ip: 0, v6: false, port: 0 }
}

/// The context of a message that has not been addressed yet.
pub open spec fn unaddressed() -> TransportContext {
    TransportContext {
        local_addr: unspecified(),
        peer_addr: unspecified(),
        transport_protocol: TransportProtocol::UDP,
        ecn: None,
    }
}

impl Default for TransportContext {
    fn default() -> (context: Self)
        ensures
            context == unaddressed(),
    {
        let none = SocketAddr { ip: 0, v6: false, port: 0 };
        TransportContext {
            local_addr: none,
            peer_addr: none,
            transport_protocol: TransportProtocol::UDP,
            ecn: None,
        }
    }
}

} // verus!
