//! Parsers for the client-to-server messages. Every number is big-endian;
//! a string is one length byte followed by that many UTF-8 bytes. A buffer
//! that holds only the beginning of a message parses as `Incomplete`.
use vstd::prelude::*;
use vstd::utf8::{decode_utf8, encode_utf8, encode_utf8_decode_utf8, encode_utf8_valid_utf8, valid_utf8};

use crate::parsing::{be16_at, be32_at, be32_bytes, copy_range, read_be16, read_be32, Parsed};
use crate::speed_daemon::message::{InboundMessageType, InboundView};
use crate::text::string_from_utf8;

verus! {

/// 0x20 Plate: tag, plate string, u32 timestamp.
pub open spec fn spec_parse_plate(s: Seq<u8>) -> Parsed<InboundView> {
    if s.len() == 0 {
        Parsed::Incomplete
    } else if s[0] != 0x20 {
        Parsed::Invalid
    } else if s.len() < 2 {
        Parsed::Incomplete
    } else if s.len() < 2 + s[1] {
        Parsed::Incomplete
    } else if !valid_utf8(s.subrange(2, 2 + s[1])) {
        Parsed::Invalid
    } else if s.len() < 6 + s[1] {
        Parsed::Incomplete
    } else {
        Parsed::Done(
            InboundView::Plate {
                plate: decode_utf8(s.subrange(2, 2 + s[1])),
                timestamp: be32_at(s, 2 + s[1]),
            },
            (6 + s[1]) as usize,
        )
    }
}

/// 0x40 WantHeartbeat: tag, u32 interval.
pub open spec fn spec_parse_want_heartbeat(s: Seq<u8>) -> Parsed<InboundView> {
    if s.len() == 0 {
        Parsed::Incomplete
    } else if s[0] != 0x40 {
        Parsed::Invalid
    } else if s.len() < 5 {
        Parsed::Incomplete
    } else {
        Parsed::Done(InboundView::WantHeartbeat { interval: be32_at(s, 1) }, 5)
    }
}

/// 0x80 IAmCamera: tag, u16 road, u16 mile, u16 limit.
pub open spec fn spec_parse_i_am_camera(s: Seq<u8>) -> Parsed<InboundView> {
    if s.len() == 0 {
        Parsed::Incomplete
    } else if s[0] != 0x80 {
        Parsed::Invalid
    } else if s.len() < 7 {
        Parsed::Incomplete
    } else {
        Parsed::Done(
            InboundView::IAmCamera {
                road: be16_at(s, 1),
                mile: be16_at(s, 3),
                limit: be16_at(s, 5),
            },
            7,
        )
    }
}

/// The `n` big-endian u16 values that start at byte 2.
pub open spec fn roads_at(s: Seq<u8>, n: nat) -> Seq<u16> {
    Seq::new(n, |k: int| be16_at(s, 2 + 2 * k))
}

/// 0x81 IAmDispatcher: tag, u8 count, that many u16 roads.
pub open spec fn spec_parse_i_am_dispatcher(s: Seq<u8>) -> Parsed<InboundView> {
    if s.len() == 0 {
        Parsed::Incomplete
    } else if s[0] != 0x81 {
        Parsed::Invalid
    } else if s.len() < 2 {
        Parsed::Incomplete
    } else if s.len() < 2 + 2 * s[1] {
        Parsed::Incomplete
    } else {
        Parsed::Done(
            InboundView::IAmDispatcher { roads: roads_at(s, s[1] as nat) },
            (2 + 2 * s[1]) as usize,
        )
    }
}

/// Any client-to-server message, chosen by its first byte.
pub open spec fn spec_parse_message(s: Seq<u8>) -> Parsed<InboundView> {
    if s.len() == 0 {
        Parsed::Incomplete
    } else if s[0] == 0x20 {
        spec_parse_plate(s)
    } else if s[0] == 0x40 {
        spec_parse_want_heartbeat(s)
    } else if s[0] == 0x80 {
        spec_parse_i_am_camera(s)
    } else if s[0] == 0x81 {
        spec_parse_i_am_dispatcher(s)
    } else {
        Parsed::Invalid
    }
}

/// Law: a Plate message reads as the plate and the timestamp it carries: a
/// tag byte 0x20, the plate's length in bytes, the plate in UTF-8, and four
/// bytes that give the timestamp, most significant first.
pub proof fn law_plate_message(plate: Seq<char>, b0: u8, b1: u8, b2: u8, b3: u8)
    requires
        encode_utf8(plate).len() < 256,
    ensures
        ({
            let e = encode_utf8(plate);
            spec_parse_message(seq![0x20u8, e.len() as u8] + e + seq![b0, b1, b2, b3])
                == Parsed::Done(
                InboundView::Plate {
                    plate,
                    timestamp: (b0 as int * 16777216 + b1 as int * 65536 + b2 as int * 256
                        + b3 as int) as u32,
                },
                (6 + e.len()) as usize,
            )
        }),
{
    let e = encode_utf8(plate);
    let n: int = e.len() as int;
    let s = seq![0x20u8, n as u8] + e + seq![b0, b1, b2, b3];
    encode_utf8_valid_utf8(plate);
    encode_utf8_decode_utf8(plate);
    assert(s[1] == n as u8);
    assert(s.subrange(2, 2 + n) =~= e);
    assert(s[2 + n] == b0 && s[3 + n] == b1 && s[4 + n] == b2 && s[5 + n] == b3);
}

/// Law: a Plate message with the timestamp's four big-endian bytes reads
/// back as that plate and timestamp.
pub proof fn law_plate_roundtrip(plate: Seq<char>, timestamp: u32)
    requires
        encode_utf8(plate).len() < 256,
    ensures
        ({
            let e = encode_utf8(plate);
            spec_parse_message(seq![0x20u8, e.len() as u8] + e + be32_bytes(timestamp))
                == Parsed::Done(InboundView::Plate { plate, timestamp }, (6 + e.len()) as usize)
        }),
{
    let q = be32_bytes(timestamp);
    law_plate_message(plate, q[0], q[1], q[2], q[3]);
    assert(q =~= seq![q[0], q[1], q[2], q[3]]);
    let t = timestamp as int;
    assert(q[0] as int == t / 16777216);
    assert(q[1] as int == (t / 65536) % 256);
    assert(q[2] as int == (t / 256) % 256);
    assert(q[3] as int == t % 256);
    assert(q[0] as int * 16777216 + q[1] as int * 65536 + q[2] as int * 256 + q[3] as int == t);
}

/// Law: a WantHeartbeat message reads as the interval its four bytes give,
/// most significant first.
pub proof fn law_want_heartbeat_message(b0: u8, b1: u8, b2: u8, b3: u8)
    ensures
        spec_parse_message(seq![0x40u8, b0, b1, b2, b3]) == Parsed::Done(
            InboundView::WantHeartbeat {
                interval: (b0 as int * 16777216 + b1 as int * 65536 + b2 as int * 256
                    + b3 as int) as u32,
            },
            5usize,
        ),
{
}

/// Law: an IAmCamera message reads as the road, mile and limit its three
/// pairs of bytes give, each most significant first.
pub proof fn law_i_am_camera_message(r0: u8, r1: u8, m0: u8, m1: u8, l0: u8, l1: u8)
    ensures
        spec_parse_message(seq![0x80u8, r0, r1, m0, m1, l0, l1]) == Parsed::Done(
            InboundView::IAmCamera {
                road: (r0 as int * 256 + r1 as int) as u16,
                mile: (m0 as int * 256 + m1 as int) as u16,
                limit: (l0 as int * 256 + l1 as int) as u16,
            },
            7usize,
        ),
{
}

fn parse_plate(input: &[u8]) -> (r: Parsed<InboundMessageType>)
    ensures
        r@ == spec_parse_plate(input@),
{
    if input.len() == 0 {
        return Parsed::Incomplete;
    }
    if input[0] != 0x20 {
        return Parsed::Invalid;
    }
    if input.len() < 2 {
        return Parsed::Incomplete;
    }
    let length = input[1] as usize;
    if input.len() < 2 + length {
        return Parsed::Incomplete;
    }
    let bytes = copy_range(input, 2, 2 + length);
    let plate = match string_from_utf8(bytes) {
        Some(p) => p,
        None => {
            return Parsed::Invalid;
        },
    };
    if input.len() < 6 + length {
        return Parsed::Incomplete;
    }
    let timestamp = read_be32(input, 2 + length);
    Parsed::Done(InboundMessageType::Plate { plate, timestamp }, 6 + length)
}

pub fn parse_want_heartbeat(input: &[u8]) -> (r: Parsed<InboundMessageType>)
    ensures
        r@ == spec_parse_want_heartbeat(input@),
{
    if input.len() == 0 {
        return Parsed::Incomplete;
    }
    if input[0] != 0x40 {
        return Parsed::Invalid;
    }
    if input.len() < 5 {
        return Parsed::Incomplete;
    }
    let interval = read_be32(input, 1);
    Parsed::Done(InboundMessageType::WantHeartbeat { interval }, 5)
}

pub fn parse_i_am_camera(input: &[u8]) -> (r: Parsed<InboundMessageType>)
    ensures
        r@ == spec_parse_i_am_camera(input@),
{
    if input.len() == 0 {
        return Parsed::Incomplete;
    }
    if input[0] != 0x80 {
        return Parsed::Invalid;
    }
    if input.len() < 7 {
        return Parsed::Incomplete;
    }
    let road = read_be16(input, 1);
    let mile = read_be16(input, 3);
    let limit = read_be16(input, 5);
    Parsed::Done(InboundMessageType::IAmCamera { road, mile, limit }, 7)
}

pub fn parse_i_am_dispatcher(input: &[u8]) -> (r: Parsed<InboundMessageType>)
    ensures
        r@ == spec_parse_i_am_dispatcher(input@),
{
    if input.len() == 0 {
        return Parsed::Incomplete;
    }
    if input[0] != 0x81 {
        return Parsed::Invalid;
    }
    if input.len() < 2 {
        return Parsed::Incomplete;
    }
    let count = input[1] as usize;
    if input.len() < 2 + 2 * count {
        return Parsed::Incomplete;
    }
    let mut roads: Vec<u16> = Vec::new();
    let mut k: usize = 0;
    while k < count
        invariant
            k <= count,
            count == input@[1],
            2 + 2 * count <= input@.len(),
            roads@ == roads_at(input@, k as nat),
        decreases count - k,
    {
        roads.push(read_be16(input, 2 + 2 * k));
        k = k + 1;
        assert(roads@ =~= roads_at(input@, k as nat));
    }
    Parsed::Done(InboundMessageType::IAmDispatcher { roads }, 2 + 2 * count)
}

/// Parses one client-to-server message from the start of `input`.
pub fn parse_message(input: &[u8]) -> (r: Parsed<InboundMessageType>)
    ensures
        r@ == spec_parse_message(input@),
{
    if input.len() == 0 {
        return Parsed::Incomplete;
    }
    if input[0] == 0x20 {
        parse_plate(input)
    } else if input[0] == 0x40 {
        parse_want_heartbeat(input)
    } else if input[0] == 0x80 {
        parse_i_am_camera(input)
    } else if input[0] == 0x81 {
        parse_i_am_dispatcher(input)
    } else {
        Parsed::Invalid
    }
}

} // verus!
