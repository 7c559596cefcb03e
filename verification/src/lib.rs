//! RIST (Reliable Internet Stream Transport): packet formats, protocol state
//! machines and session logic, without I/O.
//!
//! Implements VSF TR-06-1:2020 (Simple Profile), and the types of TR-06-2:2024
//! (Main Profile).

pub mod config;
pub mod crypto;
pub mod error;
pub mod gre;
pub mod octets;
pub mod packet;
pub mod protocol;
pub mod serial;
pub mod text;
pub mod time;
pub mod transport;
