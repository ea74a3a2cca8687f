use protohackers::line_reversal::codec::{escape_string, MessageCodec};
use protohackers::line_reversal::errors::LRCPError;
use protohackers::line_reversal::handlers::{handle_ack, handle_connect, handle_data, unescape_string};
use protohackers::line_reversal::message::MessageType;
use protohackers::line_reversal::parser::{parse_message, parse_message_checked};
use protohackers::line_reversal::state::Db;
use protohackers::line_reversal::types::SessionPosDataStruct;
use protohackers::parsing::Parsed;

fn decode(bytes: &[u8]) -> Result<Option<MessageType>, LRCPError> {
    let mut codec = MessageCodec::new();
    let mut buf = bytes.to_vec();
    let r = codec.decode(&mut buf);
    if !bytes.is_empty() {
        assert!(buf.is_empty());
    }
    r
}

#[test]
fn connect_message() {
    match decode(b"/connect/12345/") {
        Ok(Some(MessageType::Connect { session })) => assert_eq!(session, 12345),
        other => panic!("unexpected {:?}", other),
    }
}

#[test]
fn ack_message() {
    match decode(b"/ack/1234567/1024/") {
        Ok(Some(MessageType::Ack { session, length })) => {
            assert_eq!((session, length), (1234567, 1024))
        }
        other => panic!("unexpected {:?}", other),
    }
}

#[test]
fn data_message_keeps_escapes() {
    match decode(b"/data/7/0/hello\\n/") {
        Ok(Some(MessageType::Data { session, pos_data })) => {
            assert_eq!(session, 7);
            assert_eq!(pos_data.session, 7);
            assert_eq!(pos_data.pos, 0);
            assert_eq!(pos_data.data, "hello\\n");
        }
        other => panic!("unexpected {:?}", other),
    }
}

#[test]
fn numbers_as_rust_parses_them() {
    assert!(matches!(decode(b"/connect/+5/"), Ok(Some(MessageType::Connect { session: 5 }))));
    assert!(matches!(decode(b"/connect/007/"), Ok(Some(MessageType::Connect { session: 7 }))));
    assert!(matches!(
        decode(b"/connect/4294967295/"),
        Ok(Some(MessageType::Connect { session: 4294967295 }))
    ));
    assert!(matches!(decode(b"/connect/4294967296/"), Err(LRCPError::ParseFailure)));
    assert!(matches!(decode(b"/connect/-1/"), Err(LRCPError::ParseFailure)));
    assert!(matches!(decode(b"/connect/+/"), Err(LRCPError::ParseFailure)));
    assert!(matches!(decode(b"/connect//"), Err(LRCPError::ParseFailure)));
}

#[test]
fn incomplete_and_invalid_datagrams() {
    assert!(matches!(decode(b""), Ok(None)));
    assert!(matches!(decode(b"/con"), Ok(None)));
    assert!(matches!(decode(b"/connect/123"), Ok(None)));
    assert!(matches!(decode(b"/ack/1/"), Ok(None)));
    assert!(matches!(decode(b"/close/1/"), Err(LRCPError::ParseFailure)));
    assert!(matches!(decode(b"hello"), Err(LRCPError::ParseFailure)));
    // a data field must be ended by a slash
    assert!(matches!(decode(b"/data/1/0/abc"), Err(LRCPError::ParseFailure)));
}

#[test]
fn data_field_must_be_utf8() {
    let bad = b"/data/1/0/\xff\xfe/";
    assert!(parse_message_checked(bad).is_none());
    assert!(!MessageCodec::new().decodable(bad));
    assert!(MessageCodec::new().decodable(b"/data/1/0/ok/"));
    assert!(matches!(parse_message(b"/ack/1/2/"), Parsed::Done(MessageType::Ack { session: 1, length: 2 }, 9)));
}

#[test]
fn ack_round_trip() {
    let mut codec = MessageCodec::default();
    for (s, l) in [(0u32, 0u32), (12345, 678), (u32::MAX, 1), (9, u32::MAX)] {
        let mut out = Vec::new();
        codec.encode(MessageType::Ack { session: s, length: l }, &mut out).unwrap();
        assert_eq!(out, format!("/ack/{}/{}/", s, l).into_bytes());
        match decode(&out) {
            Ok(Some(MessageType::Ack { session, length })) => assert_eq!((session, length), (s, l)),
            other => panic!("unexpected {:?}", other),
        }
    }
}

#[test]
fn encode_appends() {
    let mut out = b"xy".to_vec();
    MessageCodec::new().encode(MessageType::Ack { session: 3, length: 40 }, &mut out).unwrap();
    assert_eq!(out, b"xy/ack/3/40/".to_vec());
}

#[test]
fn encode_close_connect_and_data() {
    let mut c = MessageCodec::new();
    let mut out = Vec::new();
    assert!(c.encode(MessageType::Close { session: 1234567 }, &mut out).is_ok());
    assert_eq!(out, b"/close/1234567/".to_vec());

    let mut out = Vec::new();
    c.encode(MessageType::Connect { session: 0 }, &mut out).unwrap();
    assert_eq!(out, b"/connect/0/".to_vec());

    let mut out = Vec::new();
    let pos_data = SessionPosDataStruct::new(7, 12, "a/b\\c\n".to_string());
    c.encode(MessageType::Data { session: 7, pos_data }, &mut out).unwrap();
    assert_eq!(out, b"/data/7/12/a\\/b\\\\c\n/".to_vec());
}

#[test]
fn escaped_data_reads_back() {
    let text = "x/y\\z é";
    assert_eq!(escape_string(text), "x\\/y\\\\z é");
    assert_eq!(unescape_string(&escape_string(text)), text);
}

#[test]
fn unescaping() {
    assert_eq!(unescape_string("plain text"), "plain text");
    assert_eq!(unescape_string("a\\nb\\tc\\rd"), "a\nb\tc\rd");
    assert_eq!(unescape_string("\\\\ and \\/"), "\\ and /");
    assert_eq!(unescape_string("\\\"q\\'"), "\"q'");
    assert_eq!(unescape_string("\\x"), "\\x");
    assert_eq!(unescape_string("end\\"), "end\\");
}

#[test]
fn sessions_and_acks() {
    let mut db = Db::default();
    assert_eq!(db.get_session(1), None);
    let out = handle_ack(5, 1, &db);
    assert!(matches!(out.result, Err(LRCPError::SessionNotFound)));
    assert!(matches!(out.reply, Some(MessageType::Close { session: 5 })));
    handle_connect(5, 1, &mut db).unwrap();
    assert_eq!(db.get_session(1), Some(5));
    assert_eq!(db.get_pos(1), Some(0));
    let out = handle_ack(5, 1, &db);
    assert!(out.result.is_ok() && out.reply.is_none());
}

#[test]
fn data_handling() {
    let mut db = Db::new();
    let msg = SessionPosDataStruct::new(9, 0, "hi\\/there".to_string());
    let out = handle_data(&msg, 4, &mut db);
    assert!(matches!(out.result, Err(LRCPError::SessionNotFound)));
    assert!(matches!(out.reply, Some(MessageType::Close { session: 9 })));

    handle_connect(9, 4, &mut db).unwrap();
    let out = handle_data(&msg, 4, &mut db);
    assert_eq!(out.result.unwrap(), "hi/there");
    assert!(matches!(out.reply, Some(MessageType::Ack { session: 9, length: 8 })));
    assert_eq!(db.get_pos(4), Some(8));

    let ahead = SessionPosDataStruct::new(9, 20, "zz".to_string());
    let out = handle_data(&ahead, 4, &mut db);
    assert_eq!(out.result.unwrap(), "");
    assert!(matches!(out.reply, Some(MessageType::Ack { session: 9, length: 8 })));
    assert_eq!(db.get_pos(4), Some(8));
}

#[test]
fn data_acks_total_received() {
    let mut db = Db::new();
    handle_connect(2, 7, &mut db).unwrap();
    let first = SessionPosDataStruct::new(2, 0, "hello".to_string());
    let out = handle_data(&first, 7, &mut db);
    assert_eq!(out.result.unwrap(), "hello");
    assert!(matches!(out.reply, Some(MessageType::Ack { session: 2, length: 5 })));

    let next = SessionPosDataStruct::new(2, 5, "abc".to_string());
    let out = handle_data(&next, 7, &mut db);
    assert_eq!(out.result.unwrap(), "abc");
    assert!(matches!(out.reply, Some(MessageType::Ack { session: 2, length: 8 })));
    assert_eq!(db.get_pos(7), Some(8));
    assert_eq!(db.get_record(7).unwrap().data, "helloabc");

    // a retransmission that overlaps what was received passes on only the new tail
    let overlap = SessionPosDataStruct::new(2, 6, "bcdef".to_string());
    let out = handle_data(&overlap, 7, &mut db);
    assert_eq!(out.result.unwrap(), "def");
    assert!(matches!(out.reply, Some(MessageType::Ack { session: 2, length: 11 })));

    // a duplicate of old data passes nothing on and repeats the ack
    let duplicate = SessionPosDataStruct::new(2, 0, "he".to_string());
    let out = handle_data(&duplicate, 7, &mut db);
    assert_eq!(out.result.unwrap(), "");
    assert!(matches!(out.reply, Some(MessageType::Ack { session: 2, length: 11 })));
    assert_eq!(db.get_record(7).unwrap().data, "helloabcdef");
}

#[test]
fn data_positions_count_bytes() {
    let mut db = Db::new();
    handle_connect(4, 2, &mut db).unwrap();
    let first = SessionPosDataStruct::new(4, 0, "é".to_string());
    let out = handle_data(&first, 2, &mut db);
    assert_eq!(out.result.unwrap(), "é");
    assert!(matches!(out.reply, Some(MessageType::Ack { session: 4, length: 2 })));
    assert_eq!(db.get_pos(2), Some(2));

    let next = SessionPosDataStruct::new(4, 2, "x€y".to_string());
    let out = handle_data(&next, 2, &mut db);
    assert_eq!(out.result.unwrap(), "x€y");
    assert!(matches!(out.reply, Some(MessageType::Ack { session: 4, length: 7 })));

    // resent from byte 3: the euro sign (bytes 3 to 5) and the y are old
    let again = SessionPosDataStruct::new(4, 3, "€yz".to_string());
    let out = handle_data(&again, 2, &mut db);
    assert_eq!(out.result.unwrap(), "z");
    assert!(matches!(out.reply, Some(MessageType::Ack { session: 4, length: 8 })));
    assert_eq!(db.get_record(2).unwrap().data, "éx€yz");
}

#[test]
fn data_missing_is_not_passed_on() {
    let mut db = Db::new();
    handle_connect(3, 1, &mut db).unwrap();
    let gap = SessionPosDataStruct::new(3, 5, "xyz".to_string());
    let out = handle_data(&gap, 1, &mut db);
    assert_eq!(out.result.unwrap(), "");
    assert!(matches!(out.reply, Some(MessageType::Ack { session: 3, length: 0 })));
    assert_eq!(db.get_pos(1), Some(0));
}
