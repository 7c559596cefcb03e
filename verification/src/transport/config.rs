//! RIST socket configuration.

use vstd::prelude::*;

use crate::time::Duration;
use crate::transport::net::SocketAddr;

verus! {

/// Configuration for a RIST socket (sender or receiver).
#[derive(Debug)]
pub struct RistSocketConfig {
    /// Local address to bind (RTP port, must be even).
    pub local_addr: SocketAddr,
    /// Remote address (for sender: receiver's RTP port; for receiver: optional sender filter).
    pub remote_addr: Option<SocketAddr>,
    /// Receiver buffer size (how long to wait for retransmissions).
    pub buffer_size: Duration,
    /// Maximum NACK retransmission attempts.
    pub max_nack_retries: u32,
    /// RTCP emission interval (at most 100 ms per TR-06-1).
    pub rtcp_interval: Duration,
    /// CNAME for SDES packets.
    pub cname: Option<String>,
    /// Retransmit buffer capacity (sender side).
    pub retransmit_buffer_capacity: usize,
    /// Enable RTT echo request/response.
    pub rtt_echo_enabled: bool,
}

impl RistSocketConfig {
    /// The configured name, or `local` where there is none.
    pub open spec fn name_or(self, local: Seq<char>) -> Seq<char> {
        match self.cname {
            Some(name) => name@,
            None => local,
        }
    }
}

impl Clone for RistSocketConfig {
    fn clone(&self) -> (c: Self)
        ensures
            c.local_addr == self.local_addr,
            c.remote_addr == self.remote_addr,
            c.buffer_size == self.buffer_size,
            c.max_nack_retries == self.max_nack_retries,
            c.rtcp_interval == self.rtcp_interval,
            c.cname is Some == self.cname is Some,
            c.cname matches Some(name) ==> name@ == self.cname->0@,
            c.retransmit_buffer_capacity == self.retransmit_buffer_capacity,
            c.rtt_echo_enabled == self.rtt_echo_enabled,
    {
        RistSocketConfig {
            local_addr: self.local_addr,
            remote_addr: self.remote_addr,
            buffer_size: self.buffer_size,
            max_nack_retries: self.max_nack_retries,
            rtcp_interval: self.rtcp_interval,
            cname: match &self.cname {
                Some(name) => Some(name.clone()),
                None => None,
            },
            retransmit_buffer_capacity: self.retransmit_buffer_capacity,
            rtt_echo_enabled: self.rtt_echo_enabled,
        }
    }
}

impl Default for RistSocketConfig {
    fn default() -> (c: Self)
        ensures
            c.local_addr == (SocketAddr {
                ip: crate::transport::net::IpAddr::V4(0),
                port: 5000,
                flowinfo: 0,
                scope_id: 0,
            }),
            c.remote_addr is None,
            c.buffer_size.nanos == 1_000_000_000,
            c.max_nack_retries == 10,
            c.rtcp_interval.nanos == 100_000_000,
            c.cname is None,
            c.retransmit_buffer_capacity == 2048,
            c.rtt_echo_enabled,
    {
        Self {
            local_addr: SocketAddr::v4(0, 0, 0, 0, 5000),
            remote_addr: None,
            buffer_size: Duration::from_millis(1000),
            max_nack_retries: 10,
            rtcp_interval: Duration::from_millis(100),
            cname: None,
            retransmit_buffer_capacity: 2048,
            rtt_echo_enabled: true,
        }
    }
}

/// A configured name is the one that is used.
pub proof fn law_configured_name_is_used(config: RistSocketConfig, local: Seq<char>)
    ensures
        config.cname matches Some(name) ==> config.name_or(local) == name@,
        config.cname is None ==> config.name_or(local) == local,
{
}

} // verus!
