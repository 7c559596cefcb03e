//! GRE tunnel transport task (TR-06-2:2024 Main Profile): types only.

use vstd::prelude::*;

verus! {

/// Placeholder for GRE tunnel task configuration.
#[derive(Debug, Clone, Copy)]
pub struct TunnelTaskConfig {
    /// Tunnel UDP port.
    pub tunnel_port: u16,
    /// Use Reduced Overhead mode.
    pub reduced_overhead: bool,
}

} // verus!
