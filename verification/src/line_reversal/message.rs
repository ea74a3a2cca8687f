//! Messages of the line-reversal protocol.
use vstd::prelude::*;

use crate::line_reversal::types::{Length, Session, SessionPosDataStruct, SessionView};

verus! {

#[derive(Debug)]
pub enum MessageType {
    Connect { session: Session },
    Ack { session: Session, length: Length },
    Data { session: Session, pos_data: SessionPosDataStruct },
    Close { session: Session },
}

/// The mathematical value of a message.
pub enum MessageView {
    Connect { session: u32 },
    Ack { session: u32, length: u32 },
    Data { session: u32, pos_data: SessionView },
    Close { session: u32 },
}

impl View for MessageType {
    type V = MessageView;

    open spec fn view(&self) -> MessageView {
        match self {
            MessageType::Connect { session } => MessageView::Connect { session: *session },
            MessageType::Ack { session, length } => MessageView::Ack {
                session: *session,
                length: *length,
            },
            MessageType::Data { session, pos_data } => MessageView::Data {
                session: *session,
                pos_data: pos_data@,
            },
            MessageType::Close { session } => MessageView::Close { session: *session },
        }
    }
}

impl Clone for MessageType {
    fn clone(&self) -> (r: Self)
        ensures
            r@ == self@,
    {
        match self {
            MessageType::Connect { session } => MessageType::Connect { session: *session },
            MessageType::Ack { session, length } => MessageType::Ack {
                session: *session,
                length: *length,
            },
            MessageType::Data { session, pos_data } => MessageType::Data {
                session: *session,
                pos_data: pos_data.clone(),
            },
            MessageType::Close { session } => MessageType::Close { session: *session },
        }
    }
}

} // verus!
