//! Errors of the packet formats and of the protocol state machines.

use vstd::prelude::*;

verus! {

/// Why a packet or a configuration was rejected.
#[derive(Debug)]
pub enum RistError {
    /// The packet is shorter than its format asks for.
    PacketTooShort { expected: usize, actual: usize },
    /// The version field does not hold 2.
    InvalidRtpVersion(u8),
    /// No RTCP packet has this type.
    InvalidRtcpType(u8),
    /// The RTCP header counts more words than the buffer holds.
    InvalidRtcpLength { header_len: u16, actual: usize },
    /// No NACK has this feedback message type.
    InvalidNackFormat(u8),
    /// An RTP port is even.
    InvalidPort(u16),
    /// The retransmit buffer is full.
    BufferOverflow,
    TunnelError(String),
    CryptoError(String),
    Other(String),
}

/// A [`RistError`] with its text as a sequence of characters.
#[verifier::ext_equal]
pub enum RistErrorView {
    PacketTooShort { expected: int, actual: int },
    InvalidRtpVersion(u8),
    InvalidRtcpType(u8),
    InvalidRtcpLength { header_len: u16, actual: int },
    InvalidNackFormat(u8),
    InvalidPort(u16),
    BufferOverflow,
    TunnelError(Seq<char>),
    CryptoError(Seq<char>),
    Other(Seq<char>),
}

impl View for RistError {
    type V = RistErrorView;

    open spec fn view(&self) -> RistErrorView {
        match *self {
            RistError::PacketTooShort { expected, actual } => RistErrorView::PacketTooShort {
                expected: expected as int,
                actual: actual as int,
            },
            RistError::InvalidRtpVersion(v) => RistErrorView::InvalidRtpVersion(v),
            RistError::InvalidRtcpType(t) => RistErrorView::InvalidRtcpType(t),
            RistError::InvalidRtcpLength { header_len, actual } =>
                RistErrorView::InvalidRtcpLength { header_len, actual: actual as int },
            RistError::InvalidNackFormat(f) => RistErrorView::InvalidNackFormat(f),
            RistError::InvalidPort(p) => RistErrorView::InvalidPort(p),
            RistError::BufferOverflow => RistErrorView::BufferOverflow,
            RistError::TunnelError(t) => RistErrorView::TunnelError(t@),
            RistError::CryptoError(t) => RistErrorView::CryptoError(t@),
            RistError::Other(t) => RistErrorView::Other(t@),
        }
    }
}

} // verus!
