use vstd::prelude::*;

verus! {

/// Errors of the SBD codec.
#[derive(Debug, Clone, Copy, PartialEq, Eq, Structural)]
pub enum SbdError {
    /// The underlying stream failed, closed early or timed out.
    Io,
    /// Invalid protocol revision number (the byte that was read).
    InvalidProtocolRevisionNumber(u8),
    /// An information element with an unknown tag or a malformed length, or a
    /// second header or payload in one message.
    InvalidInformationElement,
    /// No mobile originated header among the elements.
    MissingMobileOriginatedHeader,
    /// No mobile originated payload among the elements.
    MissingMobileOriginatedPayload,
    /// No mobile terminated header among the elements.
    MissingMobileTerminatedHeader,
    /// No mobile terminated payload among the elements.
    MissingMobileTerminatedPayload,
    /// The message is larger than the protocol allows; its size is not reported.
    Oversized,
    /// The message is smaller than a frame can be (the size that was seen).
    Undersized(usize),
}

} // verus!
