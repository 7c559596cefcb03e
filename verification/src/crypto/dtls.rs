//! DTLS 1.2 encryption (TR-06-2:2024 Section 6): types only.
//!
//! DTLS is applied to the GRE tunnel UDP port. Required cipher suites:
//! - TLS_ECDHE_ECDSA_WITH_AES_128_GCM_SHA256
//! - TLS_ECDHE_RSA_WITH_AES_128_GCM_SHA256

use vstd::prelude::*;

verus! {

/// DTLS configuration.
#[derive(Debug)]
pub struct DtlsConfig {
    /// Authentication mode.
    pub auth_mode: DtlsAuthMode,
}

/// DTLS authentication mode.
#[derive(Debug)]
pub enum DtlsAuthMode {
    /// Certificate-based authentication.
    Certificate { cert_path: String, key_path: String },
    /// Pre-shared key via TLS-SRP (Section 6.4).
    Srp { username: String, password: String },
}

impl Clone for DtlsAuthMode {
    fn clone(&self) -> (m: Self)
        ensures
            match (*self, m) {
                (
                    DtlsAuthMode::Certificate { cert_path, key_path },
                    DtlsAuthMode::Certificate { cert_path: c, key_path: k },
                ) => c@ == cert_path@ && k@ == key_path@,
                (
                    DtlsAuthMode::Srp { username, password },
                    DtlsAuthMode::Srp { username: u, password: p },
                ) => u@ == username@ && p@ == password@,
                _ => false,
            },
    {
        match self {
            DtlsAuthMode::Certificate { cert_path, key_path } => DtlsAuthMode::Certificate {
                cert_path: cert_path.clone(),
                key_path: key_path.clone(),
            },
            DtlsAuthMode::Srp { username, password } => DtlsAuthMode::Srp {
                username: username.clone(),
                password: password.clone(),
            },
        }
    }
}

impl Clone for DtlsConfig {
    fn clone(&self) -> (c: Self)
        ensures
            cloned::<DtlsAuthMode>(self.auth_mode, c.auth_mode),
    {
        DtlsConfig { auth_mode: self.auth_mode.clone() }
    }
}

} // verus!
