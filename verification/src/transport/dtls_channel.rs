//! DTLS-encrypted channel wrapper (TR-06-2:2024 Section 6): types only.

use vstd::prelude::*;

verus! {

/// Placeholder for DTLS channel configuration.
#[derive(Debug, Clone, Copy)]
pub struct DtlsChannelConfig {
    /// Enable DTLS encryption.
    pub enabled: bool,
}

} // verus!
