//! A small self-contained binary format: a big-endian `u32` type code
//! followed by a body that depends on it. The whole message must be in the
//! buffer: a short buffer is invalid.
use vstd::prelude::*;
use vstd::utf8::{decode_utf8, valid_utf8};

use crate::means_to_an_end::{be_i32, read_be_i32};
use crate::parsing::{be16_at, be32_at, copy_range, read_be16, read_be32, Parsed};
use crate::text::string_from_utf8;
use vstd::slice::slice_subrange;

verus! {

#[derive(Debug)]
pub enum MessageType {
    TypeA { field1: i32, field2: u16 },
    TypeB { field1: String, field2: u64 },
    TypeC { field1: i32, field2: i32, field3: i32 },
    TypeD { field1: u32 },
}

/// The mathematical value of a message.
pub enum SampleView {
    TypeA { field1: i32, field2: u16 },
    TypeB { field1: Seq<char>, field2: u64 },
    TypeC { field1: i32, field2: i32, field3: i32 },
    TypeD { field1: u32 },
}

impl View for MessageType {
    type V = SampleView;

    open spec fn view(&self) -> SampleView {
        match self {
            MessageType::TypeA { field1, field2 } => SampleView::TypeA {
                field1: *field1,
                field2: *field2,
            },
            MessageType::TypeB { field1, field2 } => SampleView::TypeB {
                field1: field1@,
                field2: *field2,
            },
            MessageType::TypeC { field1, field2, field3 } => SampleView::TypeC {
                field1: *field1,
                field2: *field2,
                field3: *field3,
            },
            MessageType::TypeD { field1 } => SampleView::TypeD { field1: *field1 },
        }
    }
}

/// The big-endian `i32` at byte `i`.
pub open spec fn be_i32_at(s: Seq<u8>, i: int) -> i32 {
    be_i32(s.subrange(i, i + 4)) as i32
}

/// Type A body: `i32`, `u16`.
pub open spec fn spec_parse_type_a(s: Seq<u8>) -> Parsed<SampleView> {
    if s.len() < 6 {
        Parsed::Invalid
    } else {
        Parsed::Done(SampleView::TypeA { field1: be_i32_at(s, 0), field2: be16_at(s, 4) }, 6)
    }
}

/// Type B body: a `u32` length (at most 10000), then that many bytes of
/// text; text that is not UTF-8 reads as the empty string.
pub open spec fn spec_parse_type_b(s: Seq<u8>) -> Parsed<SampleView> {
    if s.len() < 4 {
        Parsed::Invalid
    } else if be32_at(s, 0) > 10000 {
        Parsed::Invalid
    } else if s.len() < 4 + be32_at(s, 0) {
        Parsed::Invalid
    } else {
        let text = s.subrange(4, 4 + be32_at(s, 0));
        Parsed::Done(
            SampleView::TypeB {
                field1: if valid_utf8(text) {
                    decode_utf8(text)
                } else {
                    Seq::empty()
                },
                field2: be32_at(s, 0) as u64,
            },
            (4 + be32_at(s, 0)) as usize,
        )
    }
}

/// Type C body: three `i32`.
pub open spec fn spec_parse_type_c(s: Seq<u8>) -> Parsed<SampleView> {
    if s.len() < 12 {
        Parsed::Invalid
    } else {
        Parsed::Done(
            SampleView::TypeC {
                field1: be_i32_at(s, 0),
                field2: be_i32_at(s, 4),
                field3: be_i32_at(s, 8),
            },
            12,
        )
    }
}

/// Type D body: one `u32`.
pub open spec fn spec_parse_type_d(s: Seq<u8>) -> Parsed<SampleView> {
    if s.len() < 4 {
        Parsed::Invalid
    } else {
        Parsed::Done(SampleView::TypeD { field1: be32_at(s, 0) }, 4)
    }
}

/// Shifts the consumed count of a body parse by the four bytes of the type.
pub open spec fn after_type(r: Parsed<SampleView>) -> Parsed<SampleView> {
    match r {
        Parsed::Done(v, n) => Parsed::Done(v, (n + 4) as usize),
        other => other,
    }
}

/// A message: the type code 1 to 4, then the body of that type.
pub open spec fn spec_parse_sample(s: Seq<u8>) -> Parsed<SampleView> {
    if s.len() < 4 {
        Parsed::Invalid
    } else {
        let body = s.subrange(4, s.len() as int);
        let t = be32_at(s, 0);
        if t == 1 {
            after_type(spec_parse_type_a(body))
        } else if t == 2 {
            after_type(spec_parse_type_b(body))
        } else if t == 3 {
            after_type(spec_parse_type_c(body))
        } else if t == 4 {
            after_type(spec_parse_type_d(body))
        } else {
            Parsed::Invalid
        }
    }
}

fn read_i32_at(s: &[u8], i: usize) -> (v: i32)
    requires
        i + 4 <= s@.len(),
    ensures
        v == be_i32_at(s@, i as int),
{
    let len = s.len();
    assert(i + 4 <= len);
    read_be_i32(slice_subrange(s, i, i + 4))
}

pub fn parse_message_type_a(input: &[u8]) -> (r: Parsed<MessageType>)
    ensures
        r@ == spec_parse_type_a(input@),
{
    if input.len() < 6 {
        return Parsed::Invalid;
    }
    let field1 = read_i32_at(input, 0);
    let field2 = read_be16(input, 4);
    Parsed::Done(MessageType::TypeA { field1, field2 }, 6)
}

pub fn parse_message_type_b(input: &[u8]) -> (r: Parsed<MessageType>)
    ensures
        r@ == spec_parse_type_b(input@),
{
    if input.len() < 4 {
        return Parsed::Invalid;
    }
    let len = read_be32(input, 0);
    if len > 10000 {
        return Parsed::Invalid;
    }
    let n = len as usize;
    if input.len() < 4 + n {
        return Parsed::Invalid;
    }
    let bytes = copy_range(input, 4, 4 + n);
    let field1 = match string_from_utf8(bytes) {
        Some(s) => s,
        None => String::new(),
    };
    Parsed::Done(MessageType::TypeB { field1, field2: len as u64 }, 4 + n)
}

pub fn parse_message_type_c(input: &[u8]) -> (r: Parsed<MessageType>)
    ensures
        r@ == spec_parse_type_c(input@),
{
    if input.len() < 12 {
        return Parsed::Invalid;
    }
    let field1 = read_i32_at(input, 0);
    let field2 = read_i32_at(input, 4);
    let field3 = read_i32_at(input, 8);
    Parsed::Done(MessageType::TypeC { field1, field2, field3 }, 12)
}

pub fn parse_message_type_d(input: &[u8]) -> (r: Parsed<MessageType>)
    ensures
        r@ == spec_parse_type_d(input@),
{
    if input.len() < 4 {
        return Parsed::Invalid;
    }
    Parsed::Done(MessageType::TypeD { field1: read_be32(input, 0) }, 4)
}

fn shift(r: Parsed<MessageType>) -> (o: Parsed<MessageType>)
    requires
        r matches Parsed::Done(_, n) ==> n + 4 <= usize::MAX,
    ensures
        o@ == after_type(r@),
{
    match r {
        Parsed::Done(v, n) => Parsed::Done(v, n + 4),
        Parsed::Incomplete => Parsed::Incomplete,
        Parsed::Invalid => Parsed::Invalid,
    }
}

/// Reads one message: its type code, then the body of that type.
pub fn parse_message(input: &[u8]) -> (r: Parsed<MessageType>)
    ensures
        r@ == spec_parse_sample(input@),
{
    if input.len() < 4 {
        return Parsed::Invalid;
    }
    let message_type = read_be32(input, 0);
    let body = slice_subrange(input, 4, input.len());
    if message_type == 1 {
        shift(parse_message_type_a(body))
    } else if message_type == 2 {
        shift(parse_message_type_b(body))
    } else if message_type == 3 {
        shift(parse_message_type_c(body))
    } else if message_type == 4 {
        shift(parse_message_type_d(body))
    } else {
        Parsed::Invalid
    }
}

} // verus!
