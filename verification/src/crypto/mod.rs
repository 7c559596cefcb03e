//! Encryption settings of the Main Profile.

pub mod dtls;
pub mod psk;
