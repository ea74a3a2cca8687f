//! The textual message format of the line-reversal protocol:
//! `/connect/SESSION/`, `/ack/SESSION/LENGTH/` and `/data/SESSION/POS/DATA/`.
//! Numbers are read as `str::parse::<u32>` reads them. A datagram that is
//! only the beginning of a message parses as `Incomplete`.
use vstd::prelude::*;
use vstd::slice::slice_subrange;
use vstd::utf8::{decode_utf8, valid_utf8};

use crate::decimal::{parse_u32, parse_u32_spec};
use crate::line_reversal::message::{MessageType, MessageView};
use crate::line_reversal::types::{SessionPosDataStruct, SessionView};
use crate::parsing::{copy_range, Parsed};
use crate::text::string_from_utf8;

verus! {

pub open spec fn connect_tag() -> Seq<u8> {
    seq![47u8, 99, 111, 110, 110, 101, 99, 116]
}

pub open spec fn ack_tag() -> Seq<u8> {
    seq![47u8, 97, 99, 107]
}

pub open spec fn data_tag() -> Seq<u8> {
    seq![47u8, 100, 97, 116, 97]
}

pub open spec fn slash() -> Seq<u8> {
    seq![47u8]
}

/// Matching the literal `t` at position `p`: a mismatch is invalid, input
/// that ends inside a match is incomplete.
pub open spec fn spec_tag(s: Seq<u8>, p: int, t: Seq<u8>) -> Parsed<()> {
    let avail = s.len() - p;
    if avail >= t.len() {
        if s.subrange(p, p + t.len()) == t {
            Parsed::Done((), (p + t.len()) as usize)
        } else {
            Parsed::Invalid
        }
    } else if s.subrange(p, s.len() as int) == t.subrange(0, avail) {
        Parsed::Incomplete
    } else {
        Parsed::Invalid
    }
}

/// The position of the first `/` at or after `p`.
pub open spec fn first_slash(s: Seq<u8>, p: int) -> Option<int>
    decreases s.len() - p,
{
    if p >= s.len() || p < 0 {
        None
    } else if s[p] == 47 {
        Some(p)
    } else {
        first_slash(s, p + 1)
    }
}

/// A number ended by `/`, starting at `q`: at least one byte before the
/// `/`, read as a `u32`. Input that ends before the `/` is incomplete.
pub open spec fn spec_number_body(s: Seq<u8>, q: int) -> Parsed<u32> {
    match first_slash(s, q) {
        None => Parsed::Incomplete,
        Some(e) => if e == q {
            Parsed::Invalid
        } else {
            match parse_u32_spec(s.subrange(q, e)) {
                None => Parsed::Invalid,
                Some(v) => Parsed::Done(v, (e + 1) as usize),
            }
        },
    }
}

/// A number field at `p`, with a leading `/` when `lead` holds.
pub open spec fn spec_number(s: Seq<u8>, p: int, lead: bool) -> Parsed<u32> {
    if lead {
        match spec_tag(s, p, slash()) {
            Parsed::Done(_, q) => spec_number_body(s, q as int),
            Parsed::Incomplete => Parsed::Incomplete,
            Parsed::Invalid => Parsed::Invalid,
        }
    } else {
        spec_number_body(s, p)
    }
}

/// `/connect/SESSION/`
pub open spec fn spec_parse_connect(s: Seq<u8>) -> Parsed<MessageView> {
    match spec_tag(s, 0, connect_tag()) {
        Parsed::Done(_, p) => match spec_number(s, p as int, true) {
            Parsed::Done(v, q) => Parsed::Done(MessageView::Connect { session: v }, q),
            Parsed::Incomplete => Parsed::Incomplete,
            Parsed::Invalid => Parsed::Invalid,
        },
        Parsed::Incomplete => Parsed::Incomplete,
        Parsed::Invalid => Parsed::Invalid,
    }
}

/// `/ack/SESSION/LENGTH/`
pub open spec fn spec_parse_ack(s: Seq<u8>) -> Parsed<MessageView> {
    match spec_tag(s, 0, ack_tag()) {
        Parsed::Done(_, p) => match spec_number(s, p as int, true) {
            Parsed::Done(session, q) => match spec_number(s, q as int, false) {
                Parsed::Done(length, r) => Parsed::Done(MessageView::Ack { session, length }, r),
                Parsed::Incomplete => Parsed::Incomplete,
                Parsed::Invalid => Parsed::Invalid,
            },
            Parsed::Incomplete => Parsed::Incomplete,
            Parsed::Invalid => Parsed::Invalid,
        },
        Parsed::Incomplete => Parsed::Incomplete,
        Parsed::Invalid => Parsed::Invalid,
    }
}

/// Where the data field of a `/data/SESSION/POS/DATA/` message starts:
/// `Done((session, pos), start)`.
pub open spec fn spec_data_head(s: Seq<u8>) -> Parsed<(u32, u32)> {
    match spec_tag(s, 0, data_tag()) {
        Parsed::Done(_, p) => match spec_number(s, p as int, true) {
            Parsed::Done(session, q) => match spec_number(s, q as int, false) {
                Parsed::Done(pos, r) => Parsed::Done((session, pos), r),
                Parsed::Incomplete => Parsed::Incomplete,
                Parsed::Invalid => Parsed::Invalid,
            },
            Parsed::Incomplete => Parsed::Incomplete,
            Parsed::Invalid => Parsed::Invalid,
        },
        Parsed::Incomplete => Parsed::Incomplete,
        Parsed::Invalid => Parsed::Invalid,
    }
}

/// The data field runs up to the next `/` (which is left unread); it must
/// exist. The data is kept as it was sent, escapes included.
pub open spec fn spec_parse_data(s: Seq<u8>) -> Parsed<MessageView> {
    match spec_data_head(s) {
        Parsed::Done((session, pos), r) => match first_slash(s, r as int) {
            None => Parsed::Invalid,
            Some(e) => Parsed::Done(
                MessageView::Data {
                    session,
                    pos_data: SessionView {
                        session,
                        pos,
                        data: decode_utf8(s.subrange(r as int, e)),
                    },
                },
                e as usize,
            ),
        },
        Parsed::Incomplete => Parsed::Incomplete,
        Parsed::Invalid => Parsed::Invalid,
    }
}

/// The data field of a data message is not valid UTF-8: the one input on
/// which reading a data message cannot go on.
pub open spec fn data_not_utf8(s: Seq<u8>) -> bool {
    match spec_data_head(s) {
        Parsed::Done(_, r) => match first_slash(s, r as int) {
            Some(e) => !valid_utf8(s.subrange(r as int, e)),
            None => false,
        },
        _ => false,
    }
}

/// A message: connect, else ack, else data. A form that is incomplete
/// stops the search.
pub open spec fn spec_parse_message(s: Seq<u8>) -> Parsed<MessageView> {
    match spec_parse_connect(s) {
        Parsed::Invalid => match spec_parse_ack(s) {
            Parsed::Invalid => spec_parse_data(s),
            r => r,
        },
        r => r,
    }
}

/// Reading `s` reaches a data field that is not valid UTF-8.
pub open spec fn message_not_utf8(s: Seq<u8>) -> bool {
    &&& spec_parse_connect(s) is Invalid
    &&& spec_parse_ack(s) is Invalid
    &&& data_not_utf8(s)
}

fn tag(s: &[u8], p: usize, t: &[u8]) -> (r: Parsed<()>)
    requires
        p <= s@.len(),
    ensures
        r == spec_tag(s@, p as int, t@),
{
    let len = s.len();
    let avail = len - p;
    let n = if avail >= t.len() {
        t.len()
    } else {
        avail
    };
    let mut k: usize = 0;
    while k < n
        invariant
            k <= n,
            n <= t@.len(),
            p + n <= s@.len(),
            n == (if avail >= t@.len() { t@.len() as int } else { avail as int }),
            avail == s@.len() - p,
            len == s@.len(),
            forall|m: int| 0 <= m < k ==> s@[p + m] == t@[m],
        decreases n - k,
    {
        if s[p + k] != t[k] {
            proof {
                if avail >= t@.len() {
                    assert(s@.subrange(p as int, p + t@.len())[k as int] != t@[k as int]);
                } else {
                    assert(s@.subrange(p as int, s@.len() as int)[k as int] != t@.subrange(
                        0,
                        avail as int,
                    )[k as int]);
                }
            }
            return Parsed::Invalid;
        }
        k = k + 1;
    }
    if avail >= t.len() {
        proof {
            assert(s@.subrange(p as int, p + t@.len()) =~= t@);
        }
        Parsed::Done((), p + t.len())
    } else {
        proof {
            assert(s@.subrange(p as int, s@.len() as int) =~= t@.subrange(0, avail as int));
        }
        Parsed::Incomplete
    }
}

fn find_slash(s: &[u8], p: usize) -> (r: Option<usize>)
    requires
        p <= s@.len(),
    ensures
        match r {
            Some(e) => first_slash(s@, p as int) == Some(e as int),
            None => first_slash(s@, p as int) is None,
        },
{
    let mut i: usize = p;
    while i < s.len()
        invariant
            p <= i <= s@.len(),
            first_slash(s@, p as int) == first_slash(s@, i as int),
        decreases s.len() - i,
    {
        if s[i] == 47 {
            return Some(i);
        }
        i = i + 1;
    }
    None
}

fn number(s: &[u8], p: usize, lead: bool) -> (r: Parsed<u32>)
    requires
        p <= s@.len(),
    ensures
        r == spec_number(s@, p as int, lead),
        r matches Parsed::Done(_, q) ==> q <= s@.len(),
{
    let len = s.len();
    let q = if lead {
        let one = [47u8];
        proof {
            assert(one@ =~= slash());
        }
        match tag(s, p, &one) {
            Parsed::Done(_, q) => q,
            Parsed::Incomplete => {
                return Parsed::Incomplete;
            },
            Parsed::Invalid => {
                return Parsed::Invalid;
            },
        }
    } else {
        p
    };
    match find_slash(s, q) {
        None => Parsed::Incomplete,
        Some(e) => {
            proof {
                lemma_first_slash_bounds(s@, q as int);
            }
            assert(e < len);
            if e == q {
                Parsed::Invalid
            } else {
                match parse_u32(slice_subrange(s, q, e)) {
                    None => Parsed::Invalid,
                    Some(v) => Parsed::Done(v, e + 1),
                }
            }
        },
    }
}

proof fn lemma_first_slash_bounds(s: Seq<u8>, p: int)
    ensures
        first_slash(s, p) matches Some(e) ==> p <= e < s.len() && s[e] == 47,
    decreases s.len() - p,
{
    if 0 <= p < s.len() && s[p] != 47 {
        lemma_first_slash_bounds(s, p + 1);
    }
}

fn parse_connect(input: &[u8]) -> (r: Parsed<MessageType>)
    ensures
        r@ == spec_parse_connect(input@),
{
    let t = [47u8, 99, 111, 110, 110, 101, 99, 116];
    proof {
        assert(t@ =~= connect_tag());
    }
    match tag(input, 0, &t) {
        Parsed::Done(_, p) => match number(input, p, true) {
            Parsed::Done(v, q) => Parsed::Done(MessageType::Connect { session: v }, q),
            Parsed::Incomplete => Parsed::Incomplete,
            Parsed::Invalid => Parsed::Invalid,
        },
        Parsed::Incomplete => Parsed::Incomplete,
        Parsed::Invalid => Parsed::Invalid,
    }
}

fn parse_ack(input: &[u8]) -> (r: Parsed<MessageType>)
    ensures
        r@ == spec_parse_ack(input@),
{
    let t = [47u8, 97, 99, 107];
    proof {
        assert(t@ =~= ack_tag());
    }
    match tag(input, 0, &t) {
        Parsed::Done(_, p) => match number(input, p, true) {
            Parsed::Done(session, q) => match number(input, q, false) {
                Parsed::Done(length, r) => Parsed::Done(MessageType::Ack { session, length }, r),
                Parsed::Incomplete => Parsed::Incomplete,
                Parsed::Invalid => Parsed::Invalid,
            },
            Parsed::Incomplete => Parsed::Incomplete,
            Parsed::Invalid => Parsed::Invalid,
        },
        Parsed::Incomplete => Parsed::Incomplete,
        Parsed::Invalid => Parsed::Invalid,
    }
}

fn data_head(input: &[u8]) -> (r: Parsed<(u32, u32)>)
    ensures
        r == spec_data_head(input@),
        r matches Parsed::Done(_, q) ==> q <= input@.len(),
{
    let t = [47u8, 100, 97, 116, 97];
    proof {
        assert(t@ =~= data_tag());
    }
    match tag(input, 0, &t) {
        Parsed::Done(_, p) => match number(input, p, true) {
            Parsed::Done(session, q) => match number(input, q, false) {
                Parsed::Done(pos, r) => Parsed::Done((session, pos), r),
                Parsed::Incomplete => Parsed::Incomplete,
                Parsed::Invalid => Parsed::Invalid,
            },
            Parsed::Incomplete => Parsed::Incomplete,
            Parsed::Invalid => Parsed::Invalid,
        },
        Parsed::Incomplete => Parsed::Incomplete,
        Parsed::Invalid => Parsed::Invalid,
    }
}

/// Reads a data message; `None` when its data field is not valid UTF-8.
fn parse_data(input: &[u8]) -> (r: Option<Parsed<MessageType>>)
    ensures
        r is None <==> data_not_utf8(input@),
        r matches Some(p) ==> p@ == spec_parse_data(input@),
{
    match data_head(input) {
        Parsed::Done((session, pos), r) => match find_slash(input, r) {
            None => Some(Parsed::Invalid),
            Some(e) => {
                proof {
                    lemma_first_slash_bounds(input@, r as int);
                }
                let bytes = copy_range(input, r, e);
                match string_from_utf8(bytes) {
                    None => None,
                    Some(data_string) => {
                        let session_pos_data = SessionPosDataStruct::new(session, pos, data_string);
                        Some(Parsed::Done(MessageType::Data { session, pos_data: session_pos_data }, e))
                    },
                }
            },
        },
        Parsed::Incomplete => Some(Parsed::Incomplete),
        Parsed::Invalid => Some(Parsed::Invalid),
    }
}

/// Reads a message, `None` exactly when the input reaches a data field that
/// is not valid UTF-8.
pub fn parse_message_checked(input: &[u8]) -> (r: Option<Parsed<MessageType>>)
    ensures
        r is None <==> message_not_utf8(input@),
        r matches Some(p) ==> p@ == spec_parse_message(input@),
{
    match parse_connect(input) {
        Parsed::Invalid => match parse_ack(input) {
            Parsed::Invalid => parse_data(input),
            r => Some(r),
        },
        r => Some(r),
    }
}

/// Reads one message from the start of `input`.
///
/// # Errors
///
/// Returns `Parsed::Invalid` if none of the message forms match.
pub fn parse_message(input: &[u8]) -> (r: Parsed<MessageType>)
    requires
        !message_not_utf8(input@),
    ensures
        r@ == spec_parse_message(input@),
{
    match parse_message_checked(input) {
        Some(r) => r,
        None => Parsed::Invalid,
    }
}

} // verus!
