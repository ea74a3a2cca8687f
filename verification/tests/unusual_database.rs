use protohackers::unusual_database::{get_kv_pair, parse_request, RequestType, Store};

#[test]
fn key_value_split() {
    assert_eq!(get_kv_pair("foo=bar"), Some(("foo".to_string(), "bar".to_string())));
    assert_eq!(get_kv_pair("foo=bar=baz"), Some(("foo".to_string(), "bar=baz".to_string())));
    assert_eq!(get_kv_pair("foo="), Some(("foo".to_string(), "".to_string())));
    assert_eq!(get_kv_pair("=foo"), Some(("".to_string(), "foo".to_string())));
    assert_eq!(get_kv_pair("foo"), None);
}

#[test]
fn request_kinds() {
    assert_eq!(parse_request("version"), RequestType::Version);
    assert_eq!(parse_request("version=2"), RequestType::Version);
    assert_eq!(parse_request("versio"), RequestType::Retrieve);
    assert_eq!(parse_request("a=b"), RequestType::Insert);
    assert_eq!(parse_request("a"), RequestType::Retrieve);
    assert_eq!(parse_request(""), RequestType::Retrieve);
}

#[test]
fn store_and_retrieve() {
    let mut db = Store::new();
    assert_eq!(db.handle_request("foo=bar"), None);
    assert_eq!(db.handle_request("foo"), Some("foo=bar".to_string()));
    assert_eq!(db.handle_request("foo=baz"), None);
    assert_eq!(db.handle_request("foo"), Some("foo=baz".to_string()));
    assert_eq!(db.handle_request("=empty"), None);
    assert_eq!(db.handle_request(""), Some("=empty".to_string()));
    assert_eq!(db.handle_request("missing"), None);
}

#[test]
fn version_is_fixed() {
    let mut db = Store::new();
    assert_eq!(db.handle_request("version"), Some("version=budget DB 1.0".to_string()));
    assert_eq!(db.handle_request("version=hacked"), Some("version=budget DB 1.0".to_string()));
    assert_eq!(db.handle_request("version"), Some("version=budget DB 1.0".to_string()));
}
