//! Protocol state machines.

pub mod bonding;
pub mod delivery;
pub mod nack_tracker;
pub mod null_delete;
pub mod reorder;
pub mod requests;
pub mod ring;
pub mod rtcp_state;
pub mod rtt;
pub mod tunnel;
