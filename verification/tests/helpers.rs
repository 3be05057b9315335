use protohackers::cli::{Args, DEFAULT_PORT};
use protohackers::errors::ProtoHackersError;
use protohackers::smoke_test::echo_reply;
use protohackers::tcp::convert_to_utf8;

#[test]
fn converting_text() {
    assert_eq!(convert_to_utf8(b"hello".to_vec()).ok(), Some(String::from("hello")));
    assert_eq!(convert_to_utf8("héllo".as_bytes().to_vec()).ok(), Some(String::from("héllo")));
    match convert_to_utf8(vec![0xc3, 0x28]) {
        Err(ProtoHackersError::UTF8Error(_)) => {},
        _ => panic!("expected a UTF-8 error"),
    }
}

#[test]
fn describing_errors() {
    let err = convert_to_utf8(vec![0xff]).err().unwrap();
    let text = err.describe();
    assert!(text.starts_with("Failed to parse. "));
    let io: ProtoHackersError = std::io::Error::new(std::io::ErrorKind::Other, "boom").into();
    assert_eq!(io.describe(), "IO Error. boom");
}

#[test]
fn default_port() {
    assert_eq!(Args::default().port, 8080);
    assert_eq!(DEFAULT_PORT, 8080);
}

#[test]
fn echoing() {
    assert_eq!(echo_reply(Ok((3, b"abc".to_vec()))), (3, b"abc".to_vec()));
    let io: ProtoHackersError = std::io::Error::new(std::io::ErrorKind::Other, "x").into();
    assert_eq!(echo_reply(Err(io)), (0, b"Failed to parse request".to_vec()));
}
