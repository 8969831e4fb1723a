//! Socket addresses of cluster members.
use vstd::prelude::*;

verus! {

/// The address a member listens on for RPCs.
///
/// Membership travels in the log, so an address is plain data here: it is compared and carried
/// around, and only the transport ever connects to it.
#[allow(inconsistent_fields)]
#[derive(Clone, Copy, Debug, PartialEq, Eq, Hash, Structural)]
pub enum SocketAddr {
    /// IPv4 address, its four octets read as one big-endian number, and port.
    V4 { ip: u32, port: u16 },
    /// IPv6 address, its sixteen octets read as one big-endian number, and port.
    V6 { ip: u128, port: u16, flowinfo: u32, scope_id: u32 },
}

} // verus!
