use vstd::prelude::*;

verus! {

/// Identity of a remote peer endpoint: an IP address and a UDP port.
///
/// IPv4 addresses are carried in their IPv4-mapped IPv6 form, so one `u128`
/// covers both families and the mapping from real socket addresses is
/// injective.
#[derive(Clone, Copy, PartialEq, Eq, Structural, Hash, Debug)]
pub struct ConnectionAddress {
    /// The IP address as a 128-bit integer (IPv4 addresses IPv4-mapped).
    pub ip: u128,
    /// The UDP port.
    pub port: u16,
}

/// Handle identifying one locally bound socket inside the socket registry.
///
/// A connection record is keyed by the pair (socket identity, peer address);
/// the integer here is a generated handle, never reused by one registry.
#[derive(Clone, Copy, PartialEq, Eq, Structural, Hash, Debug)]
pub struct SocketId(pub u64);

} // verus!
