//! The port pair of a RIST Simple Profile channel.
//!
//! RIST uses adjacent port pairs: RTP on even port P, RTCP on P+1.

use vstd::prelude::*;

use crate::transport::net::SocketAddr;

verus! {

/// Why a channel cannot be bound.
#[derive(Debug, Clone, Copy, PartialEq, Eq, Structural)]
pub enum ChannelError {
    /// RTP ports are even.
    OddPort(u16),
}

/// The RTCP address that belongs to an RTP address: the next port of the same host.
pub open spec fn rtcp_addr_of(rtp_addr: SocketAddr) -> SocketAddr {
    SocketAddr {
        ip: rtp_addr.ip,
        port: (rtp_addr.port + 1) as u16,
        flowinfo: 0,
        scope_id: 0,
    }
}

/// Get the remote RTCP address given a remote RTP address.
pub fn rtcp_addr_for(rtp_addr: SocketAddr) -> (a: SocketAddr)
    requires
        rtp_addr.port < 65_535,
    ensures
        a == rtcp_addr_of(rtp_addr),
{
    SocketAddr::new(rtp_addr.ip, rtp_addr.port + 1)
}

/// The RTCP address of a channel that is to be bound on the given RTP
/// address. The port must be even; RTCP will bind on port + 1.
pub fn rtcp_bind_addr(rtp_addr: SocketAddr) -> (r: Result<SocketAddr, ChannelError>)
    ensures
        r == (if rtp_addr.port % 2 != 0 {
            Err::<SocketAddr, ChannelError>(ChannelError::OddPort(rtp_addr.port))
        } else {
            Ok(rtcp_addr_of(rtp_addr))
        }),
{
    if rtp_addr.port % 2 != 0 {
        return Err(ChannelError::OddPort(rtp_addr.port));
    }
    Ok(rtcp_addr_for(rtp_addr))
}

/// RTCP goes to the port after that of RTP, on the same host.
pub proof fn law_rtcp_is_the_next_port(rtp_addr: SocketAddr)
    requires
        rtp_addr.port < 65_535,
    ensures
        rtcp_addr_of(rtp_addr).ip == rtp_addr.ip,
        rtcp_addr_of(rtp_addr).port == rtp_addr.port + 1,
        rtcp_addr_of(rtp_addr).flowinfo == 0,
        rtcp_addr_of(rtp_addr).scope_id == 0,
{
}

} // verus!
