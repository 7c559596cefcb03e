//! Keep-alive message format for GRE tunnel establishment
//! (TR-06-2:2024 Section 5.6.3-5.6.4): types only.

use vstd::prelude::*;

verus! {

/// Keep-alive message payload (JSON-encoded capabilities).
#[derive(Debug)]
pub struct KeepAlivePayload {
    /// RIST protocol version string.
    pub version: String,
    /// Supported profile.
    pub profile: String,
}

impl Clone for KeepAlivePayload {
    fn clone(&self) -> (p: Self)
        ensures
            p.version@ == self.version@,
            p.profile@ == self.profile@,
    {
        KeepAlivePayload { version: self.version.clone(), profile: self.profile.clone() }
    }
}

} // verus!
