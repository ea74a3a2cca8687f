//! Framing of line-reversal datagrams: a datagram holds at most one message
//! and is consumed whole, whatever it held.
use vstd::prelude::*;
use vstd::utf8::encode_utf8;

use crate::decimal::{decimal, lemma_decimal, lemma_decimal_u32_len, lemma_parse_decimal, push_decimal, is_digit};
use crate::line_reversal::errors::LRCPError;
use crate::line_reversal::handlers::{escaped, unescape};
use crate::line_reversal::message::{MessageType, MessageView};
use crate::line_reversal::parser::{
    ack_tag, connect_tag, first_slash, message_not_utf8, parse_message, parse_message_checked,
    spec_number, spec_parse_ack, spec_parse_connect, spec_parse_message, spec_tag, slash,
};
use crate::parsing::{push_all, Parsed};
use crate::text::{chars_of, push_char};

verus! {

#[derive(Clone, Copy, Debug, Hash)]
pub struct MessageCodec {}

/// The bytes of `/ack/SESSION/LENGTH/`.
pub open spec fn ack_bytes(session: u32, length: u32) -> Seq<u8> {
    seq![47u8, 97, 99, 107, 47] + decimal(session as nat) + seq![47u8] + decimal(length as nat)
        + seq![47u8]
}

/// The bytes of `/connect/SESSION/`.
pub open spec fn connect_bytes(session: u32) -> Seq<u8> {
    seq![47u8, 99, 111, 110, 110, 101, 99, 116, 47] + decimal(session as nat) + seq![47u8]
}

/// The bytes of `/close/SESSION/`.
pub open spec fn close_bytes(session: u32) -> Seq<u8> {
    seq![47u8, 99, 108, 111, 115, 101, 47] + decimal(session as nat) + seq![47u8]
}

/// How one character of a data field is sent: a backslash or a slash is
/// preceded by a backslash.
pub open spec fn escape_char(c: char) -> Seq<char> {
    if c == '\\' || c == '/' {
        seq!['\\', c]
    } else {
        seq![c]
    }
}

/// A data field as sent: each character escaped by `escape_char`.
pub open spec fn escape_data(s: Seq<char>) -> Seq<char>
    decreases s.len(),
{
    if s.len() == 0 {
        Seq::empty()
    } else {
        escape_char(s[0]) + escape_data(s.drop_first())
    }
}

/// The bytes of `/data/SESSION/POS/DATA/`, the data escaped and in UTF-8.
pub open spec fn data_bytes(session: u32, pos: u32, data: Seq<char>) -> Seq<u8> {
    seq![47u8, 100, 97, 116, 97, 47] + decimal(session as nat) + seq![47u8] + decimal(pos as nat)
        + seq![47u8] + encode_utf8(escape_data(data)) + seq![47u8]
}

/// The wire form of a message.
pub open spec fn encoded(m: MessageView) -> Seq<u8> {
    match m {
        MessageView::Connect { session } => connect_bytes(session),
        MessageView::Ack { session, length } => ack_bytes(session, length),
        MessageView::Data { session, pos_data } => data_bytes(session, pos_data.pos, pos_data.data),
        MessageView::Close { session } => close_bytes(session),
    }
}

proof fn lemma_escape_data_push(s: Seq<char>, c: char)
    ensures
        escape_data(s.push(c)) == escape_data(s) + escape_char(c),
    decreases s.len(),
{
    if s.len() == 0 {
        assert(s.push(c).drop_first() =~= Seq::<char>::empty());
        assert(s.push(c)[0] == c);
        assert(escape_data(s.push(c)) == escape_char(c) + escape_data(Seq::<char>::empty()));
        assert(escape_char(c) + Seq::<char>::empty() =~= escape_char(c));
        assert(Seq::<char>::empty() + escape_char(c) =~= escape_char(c));
    } else {
        assert(s.push(c).drop_first() =~= s.drop_first().push(c));
        assert(s.push(c)[0] == s[0]);
        lemma_escape_data_push(s.drop_first(), c);
        assert(escape_char(s[0]) + (escape_data(s.drop_first()) + escape_char(c)) =~= (escape_char(
            s[0],
        ) + escape_data(s.drop_first())) + escape_char(c));
    }
}

/// Law: data escaped for sending reads back unchanged when the other side
/// undoes the escapes.
pub proof fn law_escape_unescape(s: Seq<char>)
    ensures
        unescape(escape_data(s)) == s,
    decreases s.len(),
{
    if s.len() > 0 {
        let rest = s.drop_first();
        let t = escape_data(s);
        law_escape_unescape(rest);
        assert(t == escape_char(s[0]) + escape_data(rest));
        if s[0] == '\\' || s[0] == '/' {
            assert(t[0] == '\\' && t[1] == s[0]);
            assert(t.subrange(2, t.len() as int) =~= escape_data(rest));
            assert(escaped(t[1]) == Some(s[0]));
        } else {
            assert(t[0] == s[0]);
            assert(t.subrange(1, t.len() as int) =~= escape_data(rest));
        }
        assert(seq![s[0]] + rest =~= s);
    } else {
        assert(escape_data(s) =~= Seq::<char>::empty());
    }
}

/// Escapes a data field for sending, as `escape_data` states.
pub fn escape_string(s: &str) -> (r: String)
    ensures
        r@ == escape_data(s@),
{
    let chars = chars_of(s);
    let mut out = String::new();
    let mut i: usize = 0;
    while i < chars.len()
        invariant
            chars@ == s@,
            i <= chars@.len(),
            out@ == escape_data(s@.subrange(0, i as int)),
        decreases chars.len() - i,
    {
        let c = chars[i];
        proof {
            assert(s@.subrange(0, i + 1) =~= s@.subrange(0, i as int).push(c));
            lemma_escape_data_push(s@.subrange(0, i as int), c);
        }
        if c == '\\' || c == '/' {
            push_char(&mut out, '\\');
        }
        push_char(&mut out, c);
        i = i + 1;
        assert(out@ =~= escape_data(s@.subrange(0, i as int)));
    }
    assert(s@.subrange(0, chars@.len() as int) =~= s@);
    out
}

impl MessageCodec {
    /// Creates a new [`MessageCodec`].
    pub fn new() -> (c: Self)
        ensures
            c == (MessageCodec {}),
    {
        Self {}
    }

    /// Whether `decode` can read the datagram: false exactly when the
    /// datagram is a data message whose data field is not valid UTF-8.
    pub fn decodable(&self, src: &[u8]) -> (b: bool)
        ensures
            b == !message_not_utf8(src@),
    {
        parse_message_checked(src).is_some()
    }

    /// Reads the message in a datagram and empties the buffer. An empty
    /// buffer gives `Ok(None)`; so does a datagram that is only the beginning
    /// of a message. A datagram that is no message is an error.
    pub fn decode(&mut self, src: &mut Vec<u8>) -> (r: Result<Option<MessageType>, LRCPError>)
        requires
            !message_not_utf8(old(src)@),
        ensures
            old(src)@.len() == 0 ==> (r matches Ok(None) && final(src)@ == old(src)@),
            old(src)@.len() > 0 ==> final(src)@.len() == 0,
            old(src)@.len() > 0 ==> match spec_parse_message(old(src)@) {
                Parsed::Done(m, _) => (r matches Ok(Some(x)) && x@ == m),
                Parsed::Incomplete => (r matches Ok(None)),
                Parsed::Invalid => (r matches Err(LRCPError::ParseFailure)),
            },
    {
        if src.len() == 0 {
            return Ok(None);
        }
        let parsed = parse_message(src.as_slice());
        src.clear();
        match parsed {
            Parsed::Done(message, _) => Ok(Some(message)),
            Parsed::Incomplete => Ok(None),
            Parsed::Invalid => Err(LRCPError::ParseFailure),
        }
    }

    /// Appends the wire form of `item`: `/connect/SESSION/`,
    /// `/ack/SESSION/LENGTH/`, `/data/SESSION/POS/DATA/` with `\\` and `/` in
    /// the data escaped by a backslash, or `/close/SESSION/`.
    pub fn encode(&mut self, item: MessageType, dst: &mut Vec<u8>) -> (r: Result<(), std::io::Error>)
        ensures
            r is Ok,
            final(dst)@ == old(dst)@ + encoded(item@),
    {
        match item {
            MessageType::Connect { session } => {
                dst.push(47);
                dst.push(99);
                dst.push(111);
                dst.push(110);
                dst.push(110);
                dst.push(101);
                dst.push(99);
                dst.push(116);
                dst.push(47);
                push_decimal(dst, session);
                dst.push(47);
                assert(final(dst)@ =~= old(dst)@ + connect_bytes(session));
            },
            MessageType::Ack { session, length } => {
                dst.push(47);
                dst.push(97);
                dst.push(99);
                dst.push(107);
                dst.push(47);
                push_decimal(dst, session);
                dst.push(47);
                push_decimal(dst, length);
                dst.push(47);
                assert(final(dst)@ =~= old(dst)@ + ack_bytes(session, length));
            },
            MessageType::Data { session, pos_data } => {
                dst.push(47);
                dst.push(100);
                dst.push(97);
                dst.push(116);
                dst.push(97);
                dst.push(47);
                push_decimal(dst, session);
                dst.push(47);
                push_decimal(dst, pos_data.pos);
                dst.push(47);
                let escaped = escape_string(pos_data.data.as_str());
                push_all(dst, escaped.as_str().as_bytes());
                dst.push(47);
                assert(final(dst)@ =~= old(dst)@ + data_bytes(session, pos_data.pos, pos_data.data@));
            },
            MessageType::Close { session } => {
                dst.push(47);
                dst.push(99);
                dst.push(108);
                dst.push(111);
                dst.push(115);
                dst.push(101);
                dst.push(47);
                push_decimal(dst, session);
                dst.push(47);
                assert(final(dst)@ =~= old(dst)@ + close_bytes(session));
            },
        }
        Ok(())
    }
}

impl Default for MessageCodec {
    fn default() -> (c: Self)
        ensures
            c == (MessageCodec {}),
    {
        Self::new()
    }
}

proof fn lemma_first_slash_at(s: Seq<u8>, p: int, e: int)
    requires
        0 <= p <= e < s.len(),
        forall|k: int| p <= k < e ==> s[k] != 47,
        s[e] == 47,
    ensures
        first_slash(s, p) == Some(e),
    decreases e - p,
{
    if p < e {
        lemma_first_slash_at(s, p + 1, e);
    }
}

proof fn lemma_number_field(s: Seq<u8>, q: int, v: u32)
    requires
        0 <= q,
        q + decimal(v as nat).len() < s.len(),
        s.subrange(q, q + decimal(v as nat).len()) == decimal(v as nat),
        s[q + decimal(v as nat).len()] == 47,
    ensures
        crate::line_reversal::parser::spec_number_body(s, q) == Parsed::Done(
            v,
            (q + decimal(v as nat).len() + 1) as usize,
        ),
{
    let d = decimal(v as nat);
    lemma_decimal(v as nat);
    lemma_parse_decimal(v);
    let e = q + d.len();
    assert forall|k: int| q <= k < e implies s[k] != 47 by {
        assert(s[k] == s.subrange(q, e)[k - q]);
        assert(is_digit(d[k - q]));
    }
    lemma_first_slash_at(s, q, e);
}

/// Law: an acknowledgement reads back as itself: the bytes that `encode`
/// writes for `Ack { session, length }` parse as that message, consuming
/// all of them.
pub proof fn law_ack_roundtrip(session: u32, length: u32)
    ensures
        spec_parse_message(ack_bytes(session, length)) == Parsed::Done(
            MessageView::Ack { session, length },
            ack_bytes(session, length).len() as usize,
        ),
        !message_not_utf8(ack_bytes(session, length)),
{
    let d1 = decimal(session as nat);
    let d2 = decimal(length as nat);
    lemma_decimal(session as nat);
    lemma_decimal(length as nat);
    lemma_decimal_u32_len(session);
    lemma_decimal_u32_len(length);
    let s = ack_bytes(session, length);
    let e1: int = 5 + d1.len() as int;
    let e2: int = e1 + 1 + d2.len() as int;
    assert(s.len() == e2 + 1);
    assert(spec_parse_connect(s) is Invalid) by {
        assert(s.subrange(0, 8)[1] != connect_tag()[1]);
    }
    assert(spec_tag(s, 0, ack_tag()) == Parsed::Done((), 4usize)) by {
        assert(s.subrange(0, 4) =~= ack_tag());
    }
    assert(spec_tag(s, 4, slash()) == Parsed::Done((), 5usize)) by {
        assert(s.subrange(4, 5) =~= slash());
    }
    assert(spec_number(s, 4, true) == Parsed::Done(session, (e1 + 1) as usize)) by {
        assert(s.subrange(5, e1) =~= d1);
        lemma_number_field(s, 5, session);
    }
    assert(spec_number(s, e1 + 1, false) == Parsed::Done(length, (e2 + 1) as usize)) by {
        assert(s.subrange(e1 + 1, e2) =~= d2);
        lemma_number_field(s, e1 + 1, length);
    }
    let m = MessageView::Ack { session, length };
    assert(spec_parse_ack(s) == Parsed::Done(m, (e2 + 1) as usize));
    assert((e2 + 1) as usize == s.len() as usize);
    assert(!(spec_parse_ack(s) is Invalid));
}

} // verus!
