use protohackers::parsing::Parsed;
use protohackers::speed_daemon::codec::MessageCodec;
use protohackers::speed_daemon::errors::SpeedDaemonError;
use protohackers::speed_daemon::handlers::{handle_i_am_camera, handle_i_am_dispatcher, handle_plate};
use protohackers::speed_daemon::message::{InboundMessageType, OutboundMessageType};
use protohackers::speed_daemon::parsers::{
    parse_i_am_camera, parse_i_am_dispatcher, parse_message, parse_want_heartbeat,
};
use protohackers::speed_daemon::state::{calculate_average_speed, Db};
use protohackers::speed_daemon::types::{PlateRoadStruct, TimestampCameraStruct};

fn camera(road: u16, mile: u16, limit: u16) -> InboundMessageType {
    InboundMessageType::IAmCamera { road, mile, limit }
}

fn sighting(timestamp: u32, mile: u16) -> TimestampCameraStruct {
    TimestampCameraStruct { timestamp, camera: camera(123, mile, 60) }
}

#[test]
fn parse_each_message() {
    match parse_message(&[0x20, 0x04, 0x55, 0x4e, 0x31, 0x58, 0x00, 0x00, 0x03, 0xe8]) {
        Parsed::Done(InboundMessageType::Plate { plate, timestamp }, 10) => {
            assert_eq!(plate, "UN1X");
            assert_eq!(timestamp, 1000);
        }
        other => panic!("unexpected {:?}", other),
    }
    assert!(matches!(
        parse_message(&[0x40, 0x00, 0x00, 0x00, 0x0a]),
        Parsed::Done(InboundMessageType::WantHeartbeat { interval: 10 }, 5)
    ));
    assert!(matches!(
        parse_message(&[0x80, 0x00, 0x42, 0x00, 0x64, 0x00, 0x3c]),
        Parsed::Done(InboundMessageType::IAmCamera { road: 66, mile: 100, limit: 60 }, 7)
    ));
    match parse_message(&[0x81, 0x03, 0x00, 0x42, 0x01, 0x70, 0x13, 0x88]) {
        Parsed::Done(InboundMessageType::IAmDispatcher { roads }, 8) => {
            assert_eq!(roads, vec![66, 368, 5000])
        }
        other => panic!("unexpected {:?}", other),
    }
}

#[test]
fn incomplete_and_invalid() {
    assert!(matches!(parse_message(&[]), Parsed::Incomplete));
    assert!(matches!(parse_message(&[0x20, 0x04, 0x55]), Parsed::Incomplete));
    assert!(matches!(parse_message(&[0x20, 0x01, 0x55, 0x00]), Parsed::Incomplete));
    assert!(matches!(parse_message(&[0x40, 0x00]), Parsed::Incomplete));
    assert!(matches!(parse_message(&[0x81, 0x02, 0x00, 0x01, 0x00]), Parsed::Incomplete));
    assert!(matches!(parse_message(&[0x99, 0x00]), Parsed::Invalid));
    // the plate must be UTF-8
    assert!(matches!(parse_message(&[0x20, 0x01, 0xff, 0, 0, 0, 1]), Parsed::Invalid));
    assert!(matches!(parse_want_heartbeat(&[0x80, 0, 0, 0, 0]), Parsed::Invalid));
    assert!(matches!(parse_i_am_camera(&[0x80, 0, 1]), Parsed::Incomplete));
    assert!(matches!(parse_i_am_dispatcher(&[0x81, 0x00]), Parsed::Done(_, 2)));
}

#[test]
fn decode_consumes_one_message() {
    let mut codec = MessageCodec::new();
    let mut buf = vec![0x40, 0, 0, 0, 0x19, 0x80, 0x00];
    match codec.decode(&mut buf) {
        Ok(Some(InboundMessageType::WantHeartbeat { interval: 25 })) => {}
        other => panic!("unexpected {:?}", other),
    }
    assert_eq!(buf, vec![0x80, 0x00]);
    assert!(matches!(codec.decode(&mut buf), Ok(None)));
    assert_eq!(buf, vec![0x80, 0x00]);
    let mut empty: Vec<u8> = vec![];
    assert!(matches!(codec.decode(&mut empty), Ok(None)));
    let mut bad = vec![0x13, 1, 2];
    assert!(matches!(codec.decode(&mut bad), Err(SpeedDaemonError::ParseFailure)));
    assert_eq!(bad, vec![0x13, 1, 2]);
}

#[test]
fn encode_messages() {
    let mut codec = MessageCodec::default();
    let mut out = Vec::new();
    codec.encode(OutboundMessageType::Heartbeat, &mut out).unwrap();
    assert_eq!(out, vec![0x41]);
    let mut out = Vec::new();
    codec.encode(OutboundMessageType::Error("bad".to_string()), &mut out).unwrap();
    assert_eq!(out, vec![0x10, 0x03, 0x62, 0x61, 0x64]);
    let mut out = Vec::new();
    let ticket = OutboundMessageType::Ticket {
        plate: "UN1X".to_string(),
        road: 66,
        mile1: 100,
        timestamp1: 123456,
        mile2: 110,
        timestamp2: 123816,
        speed: 10000,
    };
    codec.encode(ticket, &mut out).unwrap();
    assert_eq!(
        out,
        vec![
            0x21, 0x04, 0x55, 0x4e, 0x31, 0x58, 0x00, 0x42, 0x00, 0x64, 0x00, 0x01, 0xe2, 0x40,
            0x00, 0x6e, 0x00, 0x01, 0xe3, 0xa8, 0x27, 0x10
        ]
    );
}

#[test]
fn average_speeds() {
    assert_eq!(calculate_average_speed(&sighting(0, 8), &sighting(45, 9)), 80);
    assert_eq!(calculate_average_speed(&sighting(45, 9), &sighting(0, 8)), 80);
    // 1 mile in 7 seconds is 514.28... mph
    assert_eq!(calculate_average_speed(&sighting(0, 0), &sighting(7, 1)), 514);
    // 1 mile in 8 seconds is 450 mph exactly; 1 mile in 4800 seconds is 0.75 mph
    assert_eq!(calculate_average_speed(&sighting(0, 0), &sighting(8, 1)), 450);
    assert_eq!(calculate_average_speed(&sighting(0, 0), &sighting(4800, 1)), 1);
    assert_eq!(calculate_average_speed(&sighting(5, 3), &sighting(5, 3)), 0);
    assert_eq!(calculate_average_speed(&sighting(5, 3), &sighting(5, 4)), u32::MAX);
}

#[test]
fn example_ticket() {
    let mut db = Db::new();
    handle_i_am_camera(1, camera(123, 8, 60), &mut db).unwrap();
    handle_i_am_camera(2, camera(123, 9, 60), &mut db).unwrap();
    handle_i_am_dispatcher(vec![123], 3, &mut db).unwrap();
    let key = handle_plate(1, "UN1X".to_string(), 0, &mut db).unwrap();
    assert_eq!(key, PlateRoadStruct::new("UN1X".to_string(), 123));
    assert!(db.get_ticket_for_plate(&key).is_empty());
    let key = handle_plate(2, "UN1X".to_string(), 45, &mut db).unwrap();
    let tickets = db.get_ticket_for_plate(&key);
    assert_eq!(tickets.len(), 1);
    match &tickets[0] {
        OutboundMessageType::Ticket { plate, road, mile1, timestamp1, mile2, timestamp2, speed } => {
            assert_eq!(plate, "UN1X");
            assert_eq!((*road, *mile1, *timestamp1, *mile2, *timestamp2, *speed), (123, 8, 0, 9, 45, 8000));
        }
        other => panic!("unexpected {:?}", other),
    }
    assert_eq!(db.get_ticket_dispatcher(123), Some(3));
    // the same day is never ticketed twice
    assert!(db.get_ticket_for_plate(&key).is_empty());
}

#[test]
fn earlier_sighting_first_and_one_ticket_per_day() {
    let mut db = Db::new();
    handle_i_am_camera(1, camera(5, 100, 50), &mut db).unwrap();
    handle_i_am_camera(2, camera(5, 110, 50), &mut db).unwrap();
    // sighted at the later camera first (by timestamp)
    let key = handle_plate(2, "CAR".to_string(), 1000 + 360, &mut db).unwrap();
    handle_plate(1, "CAR".to_string(), 1000, &mut db).unwrap();
    let tickets = db.get_ticket_for_plate(&key);
    assert_eq!(tickets.len(), 1);
    match &tickets[0] {
        OutboundMessageType::Ticket { mile1, timestamp1, mile2, timestamp2, speed, .. } => {
            assert_eq!((*mile1, *timestamp1, *mile2, *timestamp2, *speed), (100, 1000, 110, 1360, 10000));
        }
        other => panic!("unexpected {:?}", other),
    }
    // a third sighting the same day: no new ticket for that day
    handle_plate(2, "CAR".to_string(), 1000 + 720, &mut db).unwrap();
    assert!(db.get_ticket_for_plate(&key).is_empty());
    // a sighting on the next day gives a new ticket
    handle_plate(1, "CAR".to_string(), 86400 + 10, &mut db).unwrap();
    handle_plate(2, "CAR".to_string(), 86400 + 370, &mut db).unwrap();
    let tickets = db.get_ticket_for_plate(&key);
    assert_eq!(tickets.len(), 1);
}

#[test]
fn every_day_of_a_ticket_counts() {
    let mut db = Db::new();
    handle_i_am_camera(1, camera(9, 0, 60), &mut db).unwrap();
    handle_i_am_camera(2, camera(9, 1, 60), &mut db).unwrap();
    handle_i_am_camera(3, camera(9, 10, 60), &mut db).unwrap();
    let key = handle_plate(1, "SPAN".to_string(), 86399, &mut db).unwrap();
    handle_plate(2, "SPAN".to_string(), 86400, &mut db).unwrap();
    // the first ticket spans days 0 and 1
    let tickets = db.get_ticket_for_plate(&key);
    assert_eq!(tickets.len(), 1);
    match &tickets[0] {
        OutboundMessageType::Ticket { timestamp1, timestamp2, .. } => {
            assert_eq!((*timestamp1, *timestamp2), (86399, 86400));
        }
        other => panic!("unexpected {:?}", other),
    }
    // a speeding pair that lies on day 0 alone is refused: day 0 is taken
    handle_plate(3, "SPAN".to_string(), 86000, &mut db).unwrap();
    assert!(db.get_ticket_for_plate(&key).is_empty());
    // on day 2 a new ticket may be issued
    handle_plate(1, "SPAN".to_string(), 2 * 86400 + 100, &mut db).unwrap();
    handle_plate(3, "SPAN".to_string(), 2 * 86400 + 300, &mut db).unwrap();
    assert_eq!(db.get_ticket_for_plate(&key).len(), 1);
}

#[test]
fn one_ticket_per_day_across_roads() {
    let mut db = Db::new();
    handle_i_am_camera(1, camera(10, 0, 60), &mut db).unwrap();
    handle_i_am_camera(2, camera(10, 10, 60), &mut db).unwrap();
    handle_i_am_camera(3, camera(20, 0, 60), &mut db).unwrap();
    handle_i_am_camera(4, camera(20, 10, 60), &mut db).unwrap();
    // speeding on road 10 on day 0
    let key10 = handle_plate(1, "TWO".to_string(), 0, &mut db).unwrap();
    handle_plate(2, "TWO".to_string(), 300, &mut db).unwrap();
    assert_eq!(db.get_ticket_for_plate(&key10).len(), 1);
    // speeding on road 20 the same day: no second ticket for day 0
    let key20 = handle_plate(3, "TWO".to_string(), 1000, &mut db).unwrap();
    handle_plate(4, "TWO".to_string(), 1300, &mut db).unwrap();
    assert_eq!(key20, PlateRoadStruct::new("TWO".to_string(), 20));
    assert!(db.get_ticket_for_plate(&key20).is_empty());
    // the next day on road 20 is a new day
    handle_plate(3, "TWO".to_string(), 86400 + 1000, &mut db).unwrap();
    handle_plate(4, "TWO".to_string(), 86400 + 1300, &mut db).unwrap();
    assert_eq!(db.get_ticket_for_plate(&key20).len(), 1);
    // another plate on road 20 on day 0 is not affected
    let other = handle_plate(3, "OTHER".to_string(), 0, &mut db).unwrap();
    handle_plate(4, "OTHER".to_string(), 300, &mut db).unwrap();
    assert_eq!(db.get_ticket_for_plate(&other).len(), 1);
}

#[test]
fn under_the_limit_no_ticket() {
    let mut db = Db::new();
    handle_i_am_camera(1, camera(7, 0, 60), &mut db).unwrap();
    handle_i_am_camera(2, camera(7, 1, 60), &mut db).unwrap();
    let key = handle_plate(1, "SLOW".to_string(), 0, &mut db).unwrap();
    handle_plate(2, "SLOW".to_string(), 60, &mut db).unwrap();
    assert!(db.get_ticket_for_plate(&key).is_empty());
    assert!(db.get_ticket_for_plate(&PlateRoadStruct::new("NONE".to_string(), 7)).is_empty());
}

#[test]
fn announcement_errors() {
    let mut db = Db::new();
    handle_i_am_camera(1, camera(1, 1, 1), &mut db).unwrap();
    assert!(matches!(handle_i_am_camera(1, camera(2, 2, 2), &mut db), Err(SpeedDaemonError::DuplicateCamera)));
    assert!(matches!(handle_i_am_dispatcher(vec![1], 1, &mut db), Err(SpeedDaemonError::DuplicateDispatcher)));
    handle_i_am_dispatcher(vec![1, 2], 9, &mut db).unwrap();
    assert!(db.ticket_dispatcher_already_exists(9));
    assert!(matches!(handle_i_am_dispatcher(vec![3], 9, &mut db), Err(SpeedDaemonError::DuplicateDispatcher)));
    assert_eq!(db.get_ticket_dispatcher(2), Some(9));
    assert_eq!(db.get_ticket_dispatcher(3), None);
    // a plate reported by a client that is not a camera is ignored
    assert!(handle_plate(9, "X".to_string(), 0, &mut db).is_none());
    assert!(matches!(db.get_current_camera(1), Some(InboundMessageType::IAmCamera { road: 1, mile: 1, limit: 1 })));
    assert!(db.get_current_camera(9).is_none());
}

#[test]
fn default_message_and_ordering() {
    assert_eq!(InboundMessageType::default(), camera(0, 0, 0));
    let a = TimestampCameraStruct { timestamp: 5, camera: camera(1, 2, 3) };
    let b = TimestampCameraStruct { timestamp: 5, camera: camera(9, 9, 9) };
    let c = TimestampCameraStruct { timestamp: 7, camera: camera(1, 2, 3) };
    assert!(a == b);
    assert!(a < c);
    assert_eq!(a.partial_cmp(&b), Some(std::cmp::Ordering::Equal));
}
