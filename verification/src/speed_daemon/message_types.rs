//! Message type tags of the wire format, each with its byte code.
use vstd::prelude::*;

verus! {

#[derive(Copy, Clone, Debug)]
pub enum MessageType {
    Error(u8),
    Plate(u8),
    Ticket(u8),
    WantHeartbeat(u8),
    Heartbeat(u8),
    IAmCamera(u8),
    IAmDispatcher(u8),
}

} // verus!
