use protohackers::means_to_an_end::{calculate_average, handle_message, read_be_i32, PriceDb};

fn msg(kind: u8, a: i32, b: i32) -> Vec<u8> {
    let mut m = vec![kind];
    m.extend_from_slice(&a.to_be_bytes());
    m.extend_from_slice(&b.to_be_bytes());
    m
}

#[test]
fn big_endian_numbers() {
    assert_eq!(read_be_i32(&[0, 0, 0x30, 0x39]), 12345);
    assert_eq!(read_be_i32(&[0xff, 0xff, 0xff, 0xff]), -1);
    assert_eq!(read_be_i32(&[0x80, 0, 0, 0]), i32::MIN);
    assert_eq!(read_be_i32(&[0x7f, 0xff, 0xff, 0xff, 9]), i32::MAX);
}

#[test]
fn example_session() {
    let mut db = PriceDb::new();
    assert_eq!(handle_message(&mut db, &msg(b'I', 12345, 101)), None);
    assert_eq!(handle_message(&mut db, &msg(b'I', 12346, 102)), None);
    assert_eq!(handle_message(&mut db, &msg(b'I', 12347, 100)), None);
    assert_eq!(handle_message(&mut db, &msg(b'I', 40960, 5)), None);
    assert_eq!(handle_message(&mut db, &msg(b'Q', 12288, 16384)), Some(101));
}

#[test]
fn averages_round_toward_zero() {
    let mut db = PriceDb::new();
    db.insert(1, 1);
    db.insert(2, 2);
    assert_eq!(calculate_average(&db, 1, 2), 1);
    let mut neg = PriceDb::new();
    neg.insert(5, -1);
    neg.insert(6, -2);
    assert_eq!(calculate_average(&neg, 0, 10), -1);
}

#[test]
fn insert_replaces_and_point_query() {
    let mut db = PriceDb::new();
    db.insert(10, 7);
    db.insert(-3, 2);
    db.insert(10, 9);
    assert_eq!(db.count_in_range(i32::MIN, i32::MAX), 2);
    assert_eq!(calculate_average(&db, 10, 10), 9);
    assert_eq!(calculate_average(&db, -3, -3), 2);
    assert_eq!(db.count_in_range(0, 5), 0);
}

#[test]
fn extreme_prices_do_not_overflow() {
    let mut db = PriceDb::new();
    for t in 0..4 {
        db.insert(t, i32::MAX);
    }
    assert_eq!(calculate_average(&db, 0, 3), i32::MAX);
    let mut low = PriceDb::new();
    low.insert(0, i32::MIN);
    low.insert(1, i32::MIN);
    assert_eq!(calculate_average(&low, 0, 1), i32::MIN);
}
