use bytes::Bytes;
use mini_redis::frame::Frame;
use mini_redis::parse::{Error, Parse};

#[test]
fn test_parse_new() {
    // Test 1: valid command
    let valid_frame = Frame::Array(vec![
        Frame::Bulk(Bytes::from("Answer")),
        Frame::Bulk(Bytes::from("42")),
    ]);
    let valid_command = Parse::new(valid_frame);
    assert!(valid_command.is_ok());

    // Test 2: invalid command, not as an array
    let invalid_frame = Frame::Null;
    let invalid_command = Parse::new(invalid_frame);
    assert!(matches!(invalid_command, Err(Error::Other(_))));
}

#[test]
fn test_parse_next_bytes() {
    let frame = Frame::Array(vec![
        Frame::Bulk(Bytes::from("Hello, ")),
        Frame::Simple(String::from("World!")),
        Frame::Array(vec![
            Frame::Integer(137i64),
            Frame::Error(String::from("HTTP 504")),
        ]),
    ]);
    let mut command = Parse::new(frame).unwrap();

    // Test 1: valid byte, as a bulk string
    let valid_bulk_byte = command.next_bytes();
    assert_eq!(valid_bulk_byte, Ok(Bytes::from("Hello, ")));

    // Test 2: valid byte, as a simple string
    let valid_simple_byte = command.next_bytes();
    assert_eq!(valid_simple_byte, Ok(Bytes::from("World!")));

    // Test 3: invalid byte, not as a string
    let invalid_byte = command.next_bytes();
    assert!(matches!(invalid_byte, Err(Error::Other(_))));

    // Test 4: empty
    let empty_byte = command.next_bytes();
    assert_eq!(empty_byte, Err(Error::EndOfStream));
}

#[test]
fn test_parse_next_string() {
    let frame = Frame::Array(vec![
        Frame::Bulk(Bytes::from("Hello, ")),
        Frame::Simple(String::from("Tokio!")),
        Frame::Bulk(Bytes::from_static(b"\xF5\xFF")),
    ]);
    let mut command = Parse::new(frame).unwrap();

    // Test 1: valid string, as a bulk string
    let valid_bulk_string = command.next_string();
    assert_eq!(valid_bulk_string, Ok(String::from("Hello, ")));

    // Test 2: valid string, as a simple string
    let valid_simple_string = command.next_string();
    assert_eq!(valid_simple_string, Ok(String::from("Tokio!")));

    // Test 3: invalid string, not UFT-8 compatible
    let invalid_string = command.next_string();
    assert!(matches!(invalid_string, Err(Error::Other(_))));

    // No test 4: no need to check invalid byte and empty vector,
    // since they are verified by test_parse_next_bytes()
    let empty_string = command.next_string();
    assert_eq!(empty_string, Err(Error::EndOfStream));
}

#[test]
fn parse_finish_and_messages() {
    let mut parse = Parse::new(Frame::Array(vec![Frame::Simple("a".to_string())])).unwrap();
    assert!(parse.finish().is_err());
    assert_eq!(parse.next_string(), Ok("a".to_string()));
    assert_eq!(parse.finish(), Ok(()));
    assert_eq!(Error::EndOfStream.to_string(), "command ended early");
    assert_eq!(
        Parse::new(Frame::Integer(1)).unwrap_err(),
        Error::Other("Wrong message: Invalid command, Frame::Array expected")
    );
}
