//! Errors of the line-reversal protocol.
use vstd::prelude::*;

verus! {

#[derive(Debug, Clone, Copy, PartialEq, Eq)]
pub enum LRCPError {
    /// The datagram is not a protocol message.
    ParseFailure,
    /// The client has no open session.
    SessionNotFound,
    /// Data before the given position was never received.
    DataMissing,
}

} // verus!
