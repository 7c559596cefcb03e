//! GRE tunnel headers of the Main Profile.

pub mod header;
pub mod keepalive;
pub mod reduced;
