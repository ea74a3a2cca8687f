use protohackers::parsing::Parsed;
use protohackers::speed_daemon::sample_messages::{parse_message, MessageType};

#[test]
fn each_type() {
    let a = [0, 0, 0, 1, 0xff, 0xff, 0xff, 0xfe, 0x01, 0x02];
    assert!(matches!(parse_message(&a), Parsed::Done(MessageType::TypeA { field1: -2, field2: 258 }, 10)));
    let b = [0, 0, 0, 2, 0, 0, 0, 2, b'h', b'i'];
    match parse_message(&b) {
        Parsed::Done(MessageType::TypeB { field1, field2: 2 }, 10) => assert_eq!(field1, "hi"),
        other => panic!("unexpected {:?}", other),
    }
    let c = [0, 0, 0, 3, 0, 0, 0, 1, 0, 0, 0, 2, 0xff, 0xff, 0xff, 0xff];
    assert!(matches!(
        parse_message(&c),
        Parsed::Done(MessageType::TypeC { field1: 1, field2: 2, field3: -1 }, 16)
    ));
    let d = [0, 0, 0, 4, 0, 0, 1, 0];
    assert!(matches!(parse_message(&d), Parsed::Done(MessageType::TypeD { field1: 256 }, 8)));
}

#[test]
fn rejected() {
    assert!(matches!(parse_message(&[0, 0, 0, 5, 1, 2, 3, 4]), Parsed::Invalid));
    assert!(matches!(parse_message(&[0, 0, 0]), Parsed::Invalid));
    assert!(matches!(parse_message(&[0, 0, 0, 4, 1]), Parsed::Invalid));
    // length above 10000
    assert!(matches!(parse_message(&[0, 0, 0, 2, 0, 0, 0x27, 0x11]), Parsed::Invalid));
    // text shorter than its length
    assert!(matches!(parse_message(&[0, 0, 0, 2, 0, 0, 0, 3, b'a']), Parsed::Invalid));
}

#[test]
fn invalid_text_reads_as_empty() {
    match parse_message(&[0, 0, 0, 2, 0, 0, 0, 1, 0xff]) {
        Parsed::Done(MessageType::TypeB { field1, field2: 1 }, 9) => assert_eq!(field1, ""),
        other => panic!("unexpected {:?}", other),
    }
}
