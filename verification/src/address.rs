//! Addresses of the nodes of a bus.

use vstd::prelude::*;

verus! {

/// An internet socket address: an IP address, as an integer in network byte
/// order, and a port.
#[derive(Clone, Copy, Debug, PartialEq, Eq, Hash, Structural)]
#[allow(inconsistent_fields)]
pub enum SocketAddress {
    /// An IPv4 address and port.
    V4 {
        /// The 32 bits of the IP address.
        ip: u32,
        /// The port.
        port: u16,
    },
    /// An IPv6 address and port.
    V6 {
        /// The 128 bits of the IP address.
        ip: u128,
        /// The port.
        port: u16,
        /// The flow information.
        flowinfo: u32,
        /// The scope id.
        scope_id: u32,
    },
}

} // verus!
