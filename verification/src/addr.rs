//! Plain-value socket addresses: an IP (v4 or v6) and a port. The all-zero IP
//! is the "unspecified" sentinel that marks an endpoint as not contactable.

use vstd::prelude::*;

verus! {

/// An IP address: a v4 address packed into a `u32` (high byte first) or a v6
/// address packed into a `u128`.
#[derive(Clone, Copy, PartialEq, Eq, Structural, Debug)]
pub enum IpAddress {
    V4(u32),
    V6(u128),
}

/// A UDP or TCP endpoint.
#[derive(Clone, Copy, PartialEq, Eq, Structural, Debug)]
pub struct SocketAddress {
    pub ip: IpAddress,
    pub port: u16,
}

impl IpAddress {
    /// The all-zero sentinel address.
    pub open spec fn spec_is_unspecified(self) -> bool {
        self == IpAddress::V4(0) || self == IpAddress::V6(0)
    }

    pub fn is_unspecified(&self) -> (r: bool)
        ensures
            r == self.spec_is_unspecified(),
    {
        match self {
            IpAddress::V4(x) => *x == 0,
            IpAddress::V6(x) => *x == 0,
        }
    }
}

impl SocketAddress {
    /// An address a peer can actually be contacted at: a specified IP and a
    /// nonzero port.
    pub open spec fn spec_is_valid(self) -> bool {
        !self.ip.spec_is_unspecified() && self.port != 0
    }

    pub fn is_valid(&self) -> (r: bool)
        ensures
            r == self.spec_is_valid(),
    {
        !self.ip.is_unspecified() && self.port != 0
    }

    /// Builds a v4 endpoint from octets and a port.
    pub fn new_v4(o0: u8, o1: u8, o2: u8, o3: u8, port: u16) -> (r: SocketAddress)
        ensures
            r.ip == IpAddress::V4(
                (o0 as u32 * 0x100_0000 + o1 as u32 * 0x1_0000 + o2 as u32 * 0x100
                    + o3 as u32) as u32,
            ),
            r.port == port,
    {
        SocketAddress {
            ip: IpAddress::V4(
                o0 as u32 * 0x100_0000 + o1 as u32 * 0x1_0000 + o2 as u32 * 0x100 + o3 as u32,
            ),
            port,
        }
    }

    /// The unspecified sentinel endpoint (`0.0.0.0:0`).
    pub fn unspecified() -> (r: SocketAddress)
        ensures
            r.ip == IpAddress::V4(0),
            r.port == 0,
            !r.spec_is_valid(),
    {
        SocketAddress { ip: IpAddress::V4(0), port: 0 }
    }
}

} // verus!
