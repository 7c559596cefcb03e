//! Pre-Shared Key (PSK) encryption (TR-06-2:2024 Section 7): types only.
//!
//! Uses AES-128 or AES-256 in CTR mode (RFC 3686).
//! Key is derived from a passphrase via EAP SRP-SHA256 (Annex D).

use vstd::prelude::*;

verus! {

/// PSK encryption configuration.
#[derive(Debug)]
pub struct PskConfig {
    /// AES key length: 128 or 256 bits.
    pub key_length: PskKeyLength,
    /// Passphrase for key derivation.
    pub passphrase: String,
}

impl Clone for PskConfig {
    fn clone(&self) -> (c: Self)
        ensures
            c.key_length == self.key_length,
            c.passphrase@ == self.passphrase@,
    {
        PskConfig { key_length: self.key_length, passphrase: self.passphrase.clone() }
    }
}

/// AES key length for PSK encryption.
#[derive(Debug, Clone, Copy, PartialEq, Eq, Structural)]
pub enum PskKeyLength {
    Aes128,
    Aes256,
}

} // verus!
