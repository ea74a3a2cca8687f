use protohackers::budget_chat::{
    chat_message, debug_name, joined_message, left_message, room_listing, room_message,
    valid_username, Shared,
};

#[test]
fn usernames() {
    assert!(valid_username(&"alice".to_string()));
    assert!(valid_username(&"Bob42".to_string()));
    assert!(valid_username(&"ünïcödé".to_string()));
    assert!(!valid_username(&"".to_string()));
    assert!(!valid_username(&"bob!".to_string()));
    assert!(!valid_username(&"two words".to_string()));
}

#[test]
fn broadcast_skips_sender() {
    let mut room = Shared::new();
    room.join(1, "alice".to_string());
    room.join(2, "bob".to_string());
    room.join(3, "carol".to_string());
    let d = room.broadcast(2, "[bob] hi");
    assert_eq!(d, vec![(1, "[bob] hi".to_string()), (3, "[bob] hi".to_string())]);
}

#[test]
fn everyone_else_in_join_order() {
    let mut room = Shared::default();
    room.join(7, "zed".to_string());
    room.join(3, "amy".to_string());
    assert_eq!(room.get_everyone(3), vec!["zed".to_string()]);
    assert_eq!(room.get_everyone(9), vec!["zed".to_string(), "amy".to_string()]);
    room.join(7, "zack".to_string());
    assert_eq!(room.get_everyone(3), vec!["zack".to_string()]);
}

#[test]
fn leaving_removes_member() {
    let mut room = Shared::new();
    room.join(1, "alice".to_string());
    room.join(2, "bob".to_string());
    assert!(room.is_member(1) && room.is_member(2));
    room.leave(1);
    assert!(!room.is_member(1) && room.is_member(2));
    assert_eq!(room.get_everyone(99), vec!["bob".to_string()]);
    assert!(room.broadcast(2, "x").is_empty());
}

#[test]
fn reply_to_sender() {
    let mut room = Shared::new();
    room.join(5, "eve".to_string());
    assert_eq!(room.send_to_sender(5, "hello"), (5, "hello".to_string()));
}

#[test]
fn announcements() {
    assert_eq!(joined_message("alice"), "* alice has entered the room.");
    assert_eq!(left_message("alice"), "* alice has left the room");
    assert_eq!(chat_message("bob", "hi there"), "[bob] hi there");
    let names = vec!["alice".to_string(), "bob".to_string()];
    assert_eq!(room_message(&names), format!("* The room contains: {:?}", names));
    assert_eq!(room_message(&vec![]), "* The room contains: []");
    assert_eq!(room_message(&vec!["a\"b\\".to_string()]), "* The room contains: [\"a\\\"b\\\\\"]");
}

#[test]
fn room_names_are_written_as_debug_strings() {
    let names = vec![
        "\u{915}\u{941}".to_string(),
        "it's".to_string(),
        "tab\there".to_string(),
        "q\"b\\".to_string(),
        "\u{301}x".to_string(),
    ];
    assert_eq!(room_message(&names), format!("* The room contains: {:?}", names));
    assert_eq!(debug_name("\u{915}\u{941}"), "\u{915}\\u{941}");
    assert_eq!(debug_name("it's"), "it's");
    assert!(valid_username(&"\u{915}\u{941}".to_string()));
}

#[test]
fn room_listing_quotes_bodies() {
    let bodies = vec!["a".to_string(), "b\\\"c".to_string()];
    assert_eq!(room_listing(&bodies), "* The room contains: [\"a\", \"b\\\"c\"]");
    assert_eq!(room_listing(&vec![]), "* The room contains: []");
}
