//! Network addresses as plain values.

use vstd::prelude::*;

verus! {

/// An IP address, as the integer of its bytes in network order.
#[derive(Debug, Clone, Copy, PartialEq, Eq, Structural)]
pub enum IpAddr {
    V4(u32),
    V6(u128),
}

/// A UDP address. `flowinfo` and `scope_id` are zero for IPv4.
#[derive(Debug, Clone, Copy, PartialEq, Eq, Structural)]
pub struct SocketAddr {
    pub ip: IpAddr,
    pub port: u16,
    pub flowinfo: u32,
    pub scope_id: u32,
}

impl SocketAddr {
    /// The address of `port` on `ip`, without flow information or scope.
    pub fn new(ip: IpAddr, port: u16) -> (a: SocketAddr)
        ensures
            a == (SocketAddr { ip, port, flowinfo: 0, scope_id: 0 }),
    {
        SocketAddr { ip, port, flowinfo: 0, scope_id: 0 }
    }

    /// The address of `port` on the IPv4 host `a.b.c.d`.
    pub fn v4(a: u8, b: u8, c: u8, d: u8, port: u16) -> (r: SocketAddr)
        ensures
            r == (SocketAddr {
                ip: IpAddr::V4((a * 0x100_0000 + b * 0x1_0000 + c * 256 + d) as u32),
                port,
                flowinfo: 0,
                scope_id: 0,
            }),
    {
        let host: u32 = a as u32 * 0x100_0000 + b as u32 * 0x1_0000 + c as u32 * 256 + d as u32;
        SocketAddr { ip: IpAddr::V4(host), port, flowinfo: 0, scope_id: 0 }
    }
}

} // verus!
