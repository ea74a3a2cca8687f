//! Messages exchanged with cameras and dispatchers.
use vstd::prelude::*;

use crate::speed_daemon::types::{Mile, Plate, Road, Speed, Timestamp};

verus! {

/// A message sent by a client to the server.
#[derive(Debug, Eq, Hash, PartialEq)]
pub enum InboundMessageType {
    Plate { plate: Plate, timestamp: Timestamp },
    WantHeartbeat { interval: u32 },
    IAmCamera { road: Road, mile: Mile, limit: u16 },
    IAmDispatcher { roads: Vec<u16> },
}

/// The mathematical value of an inbound message.
#[verifier::ext_equal]
pub enum InboundView {
    Plate { plate: Seq<char>, timestamp: u32 },
    WantHeartbeat { interval: u32 },
    IAmCamera { road: u16, mile: u16, limit: u16 },
    IAmDispatcher { roads: Seq<u16> },
}

impl View for InboundMessageType {
    type V = InboundView;

    open spec fn view(&self) -> InboundView {
        match self {
            InboundMessageType::Plate { plate, timestamp } => InboundView::Plate {
                plate: plate@,
                timestamp: *timestamp,
            },
            InboundMessageType::WantHeartbeat { interval } => InboundView::WantHeartbeat {
                interval: *interval,
            },
            InboundMessageType::IAmCamera { road, mile, limit } => InboundView::IAmCamera {
                road: *road,
                mile: *mile,
                limit: *limit,
            },
            InboundMessageType::IAmDispatcher { roads } => InboundView::IAmDispatcher {
                roads: roads@,
            },
        }
    }
}

impl Default for InboundMessageType {
    /// A camera on road 0 at mile 0 with limit 0.
    fn default() -> (m: Self)
        ensures
            m@ == (InboundView::IAmCamera { road: 0, mile: 0, limit: 0 }),
    {
        InboundMessageType::IAmCamera { road: 0, mile: 0, limit: 0 }
    }
}

impl Clone for InboundMessageType {
    fn clone(&self) -> (m: Self)
        ensures
            m@ == self@,
    {
        match self {
            InboundMessageType::Plate { plate, timestamp } => InboundMessageType::Plate {
                plate: plate.clone(),
                timestamp: *timestamp,
            },
            InboundMessageType::WantHeartbeat { interval } => InboundMessageType::WantHeartbeat {
                interval: *interval,
            },
            InboundMessageType::IAmCamera { road, mile, limit } => InboundMessageType::IAmCamera {
                road: *road,
                mile: *mile,
                limit: *limit,
            },
            InboundMessageType::IAmDispatcher { roads } => {
                let mut copy: Vec<u16> = Vec::new();
                let mut i: usize = 0;
                while i < roads.len()
                    invariant
                        i <= roads.len(),
                        copy@ == roads@.subrange(0, i as int),
                    decreases roads.len() - i,
                {
                    copy.push(roads[i]);
                    i = i + 1;
                }
                assert(copy@ =~= roads@);
                InboundMessageType::IAmDispatcher { roads: copy }
            },
        }
    }
}

/// A message sent by the server to a client.
#[derive(Debug)]
pub enum OutboundMessageType {
    Heartbeat,
    /// 0x10: Error (Server->Client)
    Error(String),
    Ticket {
        plate: Plate,
        road: Road,
        mile1: Mile,
        timestamp1: Timestamp,
        mile2: Mile,
        timestamp2: Timestamp,
        speed: Speed,
    },
}

/// The mathematical value of an outbound message.
#[verifier::ext_equal]
pub enum OutboundView {
    Heartbeat,
    Error(Seq<char>),
    Ticket {
        plate: Seq<char>,
        road: u16,
        mile1: u16,
        timestamp1: u32,
        mile2: u16,
        timestamp2: u32,
        speed: u16,
    },
}

impl View for OutboundMessageType {
    type V = OutboundView;

    open spec fn view(&self) -> OutboundView {
        match self {
            OutboundMessageType::Heartbeat => OutboundView::Heartbeat,
            OutboundMessageType::Error(m) => OutboundView::Error(m@),
            OutboundMessageType::Ticket {
                plate,
                road,
                mile1,
                timestamp1,
                mile2,
                timestamp2,
                speed,
            } => OutboundView::Ticket {
                plate: plate@,
                road: *road,
                mile1: *mile1,
                timestamp1: *timestamp1,
                mile2: *mile2,
                timestamp2: *timestamp2,
                speed: *speed,
            },
        }
    }
}

impl Clone for OutboundMessageType {
    fn clone(&self) -> (m: Self)
        ensures
            m@ == self@,
    {
        match self {
            OutboundMessageType::Heartbeat => OutboundMessageType::Heartbeat,
            OutboundMessageType::Error(e) => OutboundMessageType::Error(e.clone()),
            OutboundMessageType::Ticket {
                plate,
                road,
                mile1,
                timestamp1,
                mile2,
                timestamp2,
                speed,
            } => OutboundMessageType::Ticket {
                plate: plate.clone(),
                road: *road,
                mile1: *mile1,
                timestamp1: *timestamp1,
                mile2: *mile2,
                timestamp2: *timestamp2,
                speed: *speed,
            },
        }
    }
}

} // verus!
