//! What the line-reversal server does with each message: the decision and
//! the reply; sending the reply is left to the caller.
use vstd::prelude::*;
use vstd::utf8::{encode_scalar, encode_utf8};

use crate::line_reversal::errors::LRCPError;
use crate::line_reversal::message::{MessageType, MessageView};
use crate::line_reversal::state::Db;
use crate::line_reversal::types::{Pos, Session, SessionPosDataStruct, SessionView};
use crate::text::{chars_of, push_char, push_str, string_of};

verus! {

/// A handler's result together with the message to send back to the
/// client, if any.
pub struct HandlerOutcome<T> {
    pub result: Result<T, LRCPError>,
    pub reply: Option<MessageType>,
}

/// The character that an escape `\c` stands for, if `c` is one of the
/// recognised escapes.
pub open spec fn escaped(c: char) -> Option<char> {
    if c == 'n' {
        Some('\n')
    } else if c == 'r' {
        Some('\r')
    } else if c == 't' {
        Some('\t')
    } else if c == '\\' {
        Some('\\')
    } else if c == '"' {
        Some('"')
    } else if c == '\'' {
        Some('\'')
    } else if c == '/' {
        Some('/')
    } else {
        None
    }
}

/// Undoing escapes from left to right: `\n`, `\r`, `\t`, `\\`, `\"`, `\'`
/// and `\/` become the character they stand for; any other backslash is
/// kept, with the character after it.
pub open spec fn unescape(s: Seq<char>) -> Seq<char>
    decreases s.len(),
{
    if s.len() == 0 {
        Seq::empty()
    } else if s[0] == '\\' {
        if s.len() == 1 {
            seq!['\\']
        } else {
            match escaped(s[1]) {
                Some(c) => seq![c] + unescape(s.subrange(2, s.len() as int)),
                None => seq!['\\', s[1]] + unescape(s.subrange(2, s.len() as int)),
            }
        }
    } else {
        seq![s[0]] + unescape(s.subrange(1, s.len() as int))
    }
}

fn escaped_char(c: char) -> (r: Option<char>)
    ensures
        r == escaped(c),
{
    if c == 'n' {
        Some('\n')
    } else if c == 'r' {
        Some('\r')
    } else if c == 't' {
        Some('\t')
    } else if c == '\\' {
        Some('\\')
    } else if c == '"' {
        Some('"')
    } else if c == '\'' {
        Some('\'')
    } else if c == '/' {
        Some('/')
    } else {
        None
    }
}

/// Undoes the escapes of `s`, as `unescape` states.
pub fn unescape_string(s: &str) -> (r: String)
    ensures
        r@ == unescape(s@),
{
    let chars = chars_of(s);
    let n = chars.len();
    let mut result = String::new();
    let mut i: usize = 0;
    proof {
        assert(s@.subrange(0, n as int) =~= s@);
        assert(result@ + unescape(s@) =~= unescape(s@));
    }
    while i < n
        invariant
            n == chars@.len(),
            chars@ == s@,
            i <= n,
            result@ + unescape(s@.subrange(i as int, n as int)) == unescape(s@),
        decreases n - i,
    {
        let ghost rest = s@.subrange(i as int, n as int);
        let ghost before = result@;
        let c = chars[i];
        if c == '\\' {
            if i + 1 < n {
                let d = chars[i + 1];
                proof {
                    assert(rest[1] == d);
                    assert(rest.subrange(2, rest.len() as int) =~= s@.subrange(i + 2, n as int));
                }
                match escaped_char(d) {
                    Some(e) => {
                        push_char(&mut result, e);
                        proof {
                            assert(result@ + unescape(s@.subrange(i + 2, n as int)) =~= before
                                + unescape(rest));
                        }
                    },
                    None => {
                        push_char(&mut result, '\\');
                        push_char(&mut result, d);
                        proof {
                            assert(result@ + unescape(s@.subrange(i + 2, n as int)) =~= before
                                + unescape(rest));
                        }
                    },
                }
                i = i + 2;
            } else {
                push_char(&mut result, '\\');
                proof {
                    assert(rest.len() == 1);
                    assert(s@.subrange((i + 1) as int, n as int) =~= Seq::<char>::empty());
                    assert(result@ + unescape(s@.subrange(i + 1, n as int)) =~= before + unescape(
                        rest,
                    ));
                }
                i = i + 1;
            }
        } else {
            push_char(&mut result, c);
            proof {
                assert(rest.subrange(1, rest.len() as int) =~= s@.subrange(i + 1, n as int));
                assert(result@ + unescape(s@.subrange(i + 1, n as int)) =~= before + unescape(
                    rest,
                ));
            }
            i = i + 1;
        }
    }
    proof {
        assert(s@.subrange(n as int, n as int) =~= Seq::<char>::empty());
        assert(result@ + Seq::<char>::empty() =~= result@);
    }
    result
}

/// Law: text without a backslash is left as it is by unescaping.
pub proof fn law_unescape_plain(s: Seq<char>)
    requires
        !s.contains('\\'),
    ensures
        unescape(s) == s,
    decreases s.len(),
{
    if s.len() > 0 {
        let t = s.subrange(1, s.len() as int);
        assert(!t.contains('\\')) by {
            if t.contains('\\') {
                let k = choose|k: int| 0 <= k < t.len() && t[k] == '\\';
                assert(s[k + 1] == '\\');
            }
        }
        law_unescape_plain(t);
        assert(s[0] != '\\');
        assert(seq![s[0]] + t =~= s);
    }
}

/// A client opens session `session`: it gets a record at position zero
/// with no data.
pub fn handle_connect(session: Session, addr: u64, shared_db: &mut Db) -> (r: Result<(), LRCPError>)
    requires
        old(shared_db).wf(),
    ensures
        final(shared_db).wf(),
        r is Ok,
        final(shared_db)@ == old(shared_db)@.insert(
            addr,
            SessionView { session, pos: 0, data: Seq::empty() },
        ),
{
    let session_pos_data = SessionPosDataStruct::new(session, 0, String::new());
    shared_db.add_session(addr, session_pos_data);
    Ok(())
}

/// A client acknowledges data. A client without a session is told to close
/// session `session`.
pub fn handle_ack(session: Session, client_addr: u64, shared_db: &Db) -> (r: HandlerOutcome<()>)
    requires
        shared_db.wf(),
    ensures
        shared_db@.contains_key(client_addr) ==> (r.result is Ok && r.reply is None),
        !shared_db@.contains_key(client_addr) ==> (r.result matches Err(LRCPError::SessionNotFound)
            && r.reply matches Some(m) && m@ == (MessageView::Close { session })),
{
    if let Some(_existing) = shared_db.get_session(client_addr) {
        HandlerOutcome { result: Ok(()), reply: None }
    } else {
        HandlerOutcome {
            result: Err(LRCPError::SessionNotFound),
            reply: Some(MessageType::Close { session }),
        }
    }
}

/// The number of bytes of a character in UTF-8.
pub open spec fn utf8_width(c: char) -> int {
    encode_scalar(c as u32).len() as int
}

/// The number of bytes of a text in UTF-8.
pub open spec fn utf8_len(u: Seq<char>) -> int {
    encode_utf8(u).len() as int
}

/// How much of a session's data, in bytes, has been received after a data
/// message at `pos` whose unescaped payload is `u`, when `received` bytes had
/// been received before and `pos` is at most `received`: the end of the
/// payload's UTF-8 bytes, held within 32 bits, or `received` when the payload
/// ends before it.
pub open spec fn received_after(received: u32, pos: u32, u: Seq<char>) -> u32 {
    let end = pos + utf8_len(u);
    let held: int = if end > u32::MAX { u32::MAX as int } else { end };
    if held > received {
        held as u32
    } else {
        received
    }
}

/// `u` without its leading characters that begin before byte `off` of its
/// UTF-8 encoding.
pub open spec fn from_byte(u: Seq<char>, off: int) -> Seq<char>
    decreases u.len(),
{
    if off <= 0 || u.len() == 0 {
        u
    } else {
        from_byte(u.drop_first(), off - utf8_width(u[0]))
    }
}

/// The part of the payload `u`, sent at byte `pos`, that lies beyond the
/// `received` bytes already received: its characters that begin at byte
/// `received` or later.
pub open spec fn fresh_part(received: u32, pos: u32, u: Seq<char>) -> Seq<char> {
    let total = received_after(received, pos, u);
    if total > received {
        from_byte(u, received - pos)
    } else {
        Seq::empty()
    }
}

fn char_width(c: char) -> (w: u64)
    ensures
        w == utf8_width(c),
        w <= 4,
{
    let v = c as u32;
    if v <= 0x7F {
        1
    } else if v <= 0x7FF {
        2
    } else if v <= 0xFFFF {
        3
    } else {
        4
    }
}

proof fn lemma_encode_utf8_front(u: Seq<char>, i: int)
    requires
        0 <= i < u.len(),
    ensures
        utf8_len(u.subrange(i, u.len() as int)) == utf8_width(u[i]) + utf8_len(
            u.subrange(i + 1, u.len() as int),
        ),
{
    let t = u.subrange(i, u.len() as int);
    assert(t.drop_first() =~= u.subrange(i + 1, u.len() as int));
    assert(t[0] == u[i]);
}

/// The UTF-8 length of `cs`, or `cap` when it is longer.
fn utf8_len_capped(cs: &Vec<char>, cap: u64) -> (r: u64)
    requires
        cap <= u32::MAX,
    ensures
        r == if utf8_len(cs@) > cap { cap as int } else { utf8_len(cs@) },
{
    let n = cs.len();
    let mut acc: u64 = 0;
    let mut i: usize = 0;
    proof {
        assert(cs@.subrange(0, n as int) =~= cs@);
    }
    while i < n
        invariant
            n == cs@.len(),
            i <= n,
            cap <= u32::MAX,
            acc <= cap,
            acc + utf8_len(cs@.subrange(i as int, n as int)) == utf8_len(cs@),
        decreases n - i,
    {
        proof {
            lemma_encode_utf8_front(cs@, i as int);
        }
        let w = char_width(cs[i]);
        if acc + w > cap {
            return cap;
        }
        acc = acc + w;
        i = i + 1;
    }
    proof {
        assert(cs@.subrange(n as int, n as int) =~= Seq::<char>::empty());
    }
    acc
}

/// The index of the first character of `cs` that begins at byte `off` or
/// later, as `from_byte` states.
fn index_from_byte(cs: &Vec<char>, off: u64) -> (k: usize)
    ensures
        k <= cs@.len(),
        cs@.subrange(k as int, cs@.len() as int) == from_byte(cs@, off as int),
{
    let n = cs.len();
    let mut k: usize = 0;
    let mut left: u64 = off;
    proof {
        assert(cs@.subrange(0, n as int) =~= cs@);
    }
    while k < n && left > 0
        invariant
            n == cs@.len(),
            k <= n,
            left <= off,
            from_byte(cs@.subrange(k as int, n as int), left as int) == from_byte(cs@, off as int),
        decreases n - k,
    {
        let ghost t = cs@.subrange(k as int, n as int);
        assert(t.drop_first() =~= cs@.subrange(k + 1, n as int));
        assert(t[0] == cs@[k as int]);
        let w = char_width(cs[k]);
        if w >= left {
            assert(from_byte(cs@.subrange(k + 1, n as int), left - w) == cs@.subrange(
                k + 1,
                n as int,
            ));
            left = 0;
        } else {
            left = left - w;
        }
        k = k + 1;
    }
    k
}

/// When you receive a data message:
/// if the session is not open, send `/close/SESSION/` and stop.
/// If everything up to POS was received (POS is at most the recorded
/// position): unescape the data, find the total length in bytes of the data
/// received (including this message), record it, send `/ack/SESSION/LENGTH/`
/// with it, and pass on the new data, if any. If not: send a duplicate of the
/// previous ack (the recorded position) to provoke the other side to
/// retransmit what is missing, and pass nothing on.
pub fn handle_data(session_pos_data: &SessionPosDataStruct, addr: u64, shared_db: &mut Db) -> (r:
    HandlerOutcome<String>)
    requires
        old(shared_db).wf(),
    ensures
        final(shared_db).wf(),
        !old(shared_db)@.contains_key(addr) ==> (r.result matches Err(LRCPError::SessionNotFound)
            && r.reply matches Some(m) && m@ == (MessageView::Close {
            session: session_pos_data.session,
        }) && final(shared_db)@ == old(shared_db)@),
        old(shared_db)@.contains_key(addr) && session_pos_data.pos > old(shared_db)@[addr].pos ==> (
        (r.result matches Ok(s) && s@ == Seq::<char>::empty()) && (r.reply matches Some(m) && m@
            == (MessageView::Ack {
            session: session_pos_data.session,
            length: old(shared_db)@[addr].pos,
        })) && final(shared_db)@ == old(shared_db)@),
        old(shared_db)@.contains_key(addr) && session_pos_data.pos <= old(shared_db)@[addr].pos
            ==> ({
            let prev = old(shared_db)@[addr];
            let u = unescape(session_pos_data.data@);
            let total = received_after(prev.pos, session_pos_data.pos, u);
            let fresh = fresh_part(prev.pos, session_pos_data.pos, u);
            &&& r.result matches Ok(s) && s@ == fresh
            &&& r.reply matches Some(m) && m@ == (MessageView::Ack {
                session: session_pos_data.session,
                length: total,
            })
            &&& final(shared_db)@ == old(shared_db)@.insert(
                addr,
                SessionView { session: session_pos_data.session, pos: total, data: prev.data + fresh },
            )
        }),
{
    match shared_db.get_record(addr) {
        Some(prev) => {
            let received: Pos = prev.pos;
            let pos: Pos = session_pos_data.pos;
            if pos > received {
                let missing_data_msg = MessageType::Ack {
                    session: session_pos_data.session,
                    length: received,
                };
                HandlerOutcome { result: Ok(String::new()), reply: Some(missing_data_msg) }
            } else {
                let data_string = unescape_string(session_pos_data.data.as_str());
                let chars = chars_of(data_string.as_str());
                let room: u32 = u32::MAX - pos;
                let bytes: u64 = utf8_len_capped(&chars, room as u64);
                let end: u32 = pos + bytes as u32;
                let total: Pos = if end > received {
                    end
                } else {
                    received
                };
                let fresh = if total > received {
                    let k = index_from_byte(&chars, (received - pos) as u64);
                    string_of(chars.as_slice(), k, chars.len())
                } else {
                    String::new()
                };
                let mut data = prev.data;
                push_str(&mut data, fresh.as_str());
                let new_session = SessionPosDataStruct {
                    session: session_pos_data.session,
                    pos: total,
                    data,
                };
                shared_db.add_session(addr, new_session);
                let ack = MessageType::Ack { session: session_pos_data.session, length: total };
                HandlerOutcome { result: Ok(fresh), reply: Some(ack) }
            }
        },
        None => {
            let no_session_reply = MessageType::Close { session: session_pos_data.session };
            HandlerOutcome {
                result: Err(LRCPError::SessionNotFound),
                reply: Some(no_session_reply),
            }
        },
    }
}

} // verus!
