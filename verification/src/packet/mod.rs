//! RIST packet types: RTP, RTCP, and related wire formats.

pub mod common;
pub mod layout;
pub mod nack_cover;
pub mod rtcp;
pub mod rtcp_app;
pub mod rtcp_nack;
pub mod rtcp_rr;
pub mod rtcp_sdes;
pub mod rtcp_sr;
pub mod rtp;
pub mod rtp_ext;
pub mod seq;

pub use rtcp::RtcpPacket;
pub use rtp::RtpHeader;
pub use seq::SeqNo;
