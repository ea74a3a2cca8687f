//! Framing of the speed daemon's byte stream: inbound messages are cut off
//! the front of the receive buffer, outbound messages are appended to the
//! send buffer.
use vstd::prelude::*;
use vstd::utf8::encode_utf8;

use crate::parsing::{be16_bytes, be32_bytes, push_all, push_be16, push_be32, Parsed};
use crate::speed_daemon::errors::SpeedDaemonError;
use crate::speed_daemon::message::{InboundMessageType, OutboundMessageType, OutboundView};
use crate::speed_daemon::parsers::{parse_message, spec_parse_message};

verus! {

#[derive(Clone, Copy, Debug, Eq, PartialEq, Ord, PartialOrd, Hash)]
pub struct MessageCodec {}

impl MessageCodec {
    /// Creates a new [`MessageCodec`].
    pub fn new() -> (c: Self)
        ensures
            c == (MessageCodec {}),
    {
        Self {}
    }

    /// Takes one complete message off the front of `src`. An empty buffer or
    /// one holding only the beginning of a message yields `Ok(None)` and is
    /// left as it is; bytes that cannot start a message are an error.
    pub fn decode(&mut self, src: &mut Vec<u8>) -> (r: Result<
        Option<InboundMessageType>,
        SpeedDaemonError,
    >)
        ensures
            old(src)@.len() == 0 ==> (r matches Ok(None) && final(src)@ == old(src)@),
            old(src)@.len() > 0 ==> match spec_parse_message(old(src)@) {
                Parsed::Done(m, n) => (r matches Ok(Some(x)) && x@ == m && final(src)@ == old(
                    src,
                )@.skip(n as int)),
                Parsed::Incomplete => (r matches Ok(None) && final(src)@ == old(src)@),
                Parsed::Invalid => (r matches Err(SpeedDaemonError::ParseFailure) && final(src)@
                    == old(src)@),
            },
    {
        if src.len() == 0 {
            return Ok(None);
        }
        match parse_message(src.as_slice()) {
            Parsed::Done(message, consumed) => {
                let mut rest: Vec<u8> = Vec::new();
                let mut i: usize = consumed;
                while i < src.len()
                    invariant
                        consumed <= i <= src@.len(),
                        rest@ == src@.subrange(consumed as int, i as int),
                    decreases src.len() - i,
                {
                    rest.push(src[i]);
                    i = i + 1;
                    assert(rest@ =~= src@.subrange(consumed as int, i as int));
                }
                *src = rest;
                Ok(Some(message))
            },
            Parsed::Incomplete => Ok(None),
            Parsed::Invalid => Err(SpeedDaemonError::ParseFailure),
        }
    }

    /// Appends the wire form of `item` to `dst`.
    pub fn encode(&mut self, item: OutboundMessageType, dst: &mut Vec<u8>) -> (r: Result<
        (),
        SpeedDaemonError,
    >)
        ensures
            r is Ok,
            final(dst)@ == old(dst)@ + encoded(item@),
    {
        match item {
            OutboundMessageType::Heartbeat => {
                dst.push(0x41);
                assert(final(dst)@ =~= old(dst)@ + encoded(item@));
            },
            OutboundMessageType::Error(err_msg) => {
                let bytes = err_msg.as_str().as_bytes();
                dst.push(0x10);
                dst.push((bytes.len() % 256) as u8);
                push_all(dst, bytes);
                assert(final(dst)@ =~= old(dst)@ + encoded(item@));
            },
            OutboundMessageType::Ticket {
                plate,
                road,
                mile1,
                timestamp1,
                mile2,
                timestamp2,
                speed,
            } => {
                let bytes = plate.as_str().as_bytes();
                dst.push(0x21);
                dst.push((bytes.len() % 256) as u8);
                push_all(dst, bytes);
                push_be16(dst, road);
                push_be16(dst, mile1);
                push_be32(dst, timestamp1);
                push_be16(dst, mile2);
                push_be32(dst, timestamp2);
                push_be16(dst, speed);
                assert(final(dst)@ =~= old(dst)@ + encoded(item@));
            },
        }
        Ok(())
    }
}

impl Default for MessageCodec {
    fn default() -> (c: Self)
        ensures
            c == (MessageCodec {}),
    {
        Self::new()
    }
}

/// A string on the wire: its UTF-8 length (modulo 256) then its bytes.
pub open spec fn wire_string(s: Seq<char>) -> Seq<u8> {
    seq![(encode_utf8(s).len() % 256) as u8] + encode_utf8(s)
}

/// The bytes of a server-to-client message.
pub open spec fn encoded(m: OutboundView) -> Seq<u8> {
    match m {
        OutboundView::Heartbeat => seq![0x41u8],
        OutboundView::Error(msg) => seq![0x10u8] + wire_string(msg),
        OutboundView::Ticket { plate, road, mile1, timestamp1, mile2, timestamp2, speed } =>
            seq![0x21u8] + wire_string(plate) + be16_bytes(road) + be16_bytes(mile1)
            + be32_bytes(timestamp1) + be16_bytes(mile2) + be32_bytes(timestamp2)
            + be16_bytes(speed),
    }
}

} // verus!
