//! The logic of a RIST session: admission, sender and receiver, without sockets.

pub mod bonding_task;
pub mod channel;
pub mod config;
pub mod dtls_channel;
pub mod guard;
pub mod net;
pub mod random;
pub mod receiver;
pub mod reception;
pub mod sender;
pub mod stats;
pub mod tunnel_task;
