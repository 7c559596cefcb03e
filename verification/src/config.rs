//! Protocol-level configuration.

use vstd::prelude::*;

verus! {

/// RIST profile level.
#[derive(Debug, Clone, Copy, PartialEq, Eq, Structural)]
pub enum RistProfile {
    /// TR-06-1: Basic interoperability and packet loss recovery.
    Simple,
    /// TR-06-2: Adds tunneling, encryption, null packet deletion.
    Main,
}

} // verus!
