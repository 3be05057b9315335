use protohackers::unusual_database::{find_char_index, UnusualDatabase};

#[test]
fn version_is_preset_and_fixed() {
    let mut db = UnusualDatabase::new();
    assert_eq!(db.retrieve_key("version").map(|v| v.as_str()), Some("x kv store"));
    assert_eq!(db.handle_datagram(b"version"), Some(String::from("version=x kv store")));
    assert_eq!(db.handle_datagram(b"version=hacked"), None);
    assert_eq!(db.handle_datagram(b"version"), Some(String::from("version=x kv store")));
}

#[test]
fn insert_then_retrieve() {
    let mut db = UnusualDatabase::new();
    assert_eq!(db.handle_datagram(b"foo"), Some(String::from("foo=")));
    assert_eq!(db.handle_datagram(b"foo=bar"), None);
    assert_eq!(db.handle_datagram(b"foo"), Some(String::from("foo=bar")));
    assert_eq!(db.handle_datagram(b"foo=bar=baz"), None);
    assert_eq!(db.handle_datagram(b"foo"), Some(String::from("foo=bar=baz")));
    assert_eq!(db.handle_datagram(b"foo="), None);
    assert_eq!(db.handle_datagram(b"foo"), Some(String::from("foo=")));
    assert_eq!(db.handle_datagram(b"=value"), None);
    assert_eq!(db.handle_datagram(b""), Some(String::from("=value")));
}

#[test]
fn invalid_text_becomes_empty() {
    let mut db = UnusualDatabase::new();
    assert_eq!(db.handle_datagram(&[b'k', b'=', 0xff]), None);
    assert_eq!(db.handle_datagram(b"k"), Some(String::from("k=")));
    assert_eq!(db.handle_datagram(&[0xff, b'=', b'v']), None);
    assert_eq!(db.handle_datagram(b""), Some(String::from("=v")));
}

#[test]
fn direct_access() {
    let mut db = UnusualDatabase::new();
    db.insert_key(String::from("a"), String::from("1"));
    assert_eq!(db.retrieve_key("a").map(|v| v.as_str()), Some("1"));
    assert_eq!(db.retrieve_key("b"), None);
}

#[test]
fn finding_bytes() {
    assert_eq!(find_char_index(b"abc=d=e", b'='), Some(3));
    assert_eq!(find_char_index(b"abc", b'='), None);
    assert_eq!(find_char_index(b"", b'='), None);
    assert_eq!(find_char_index(b"=", b'='), Some(0));
}
