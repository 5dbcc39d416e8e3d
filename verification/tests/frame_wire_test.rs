use bytes::Bytes;
use mini_redis::cursor::Cursor;
use mini_redis::frame::{Error, Frame};

fn parse_all(data: &[u8]) -> (Result<Frame, Error>, u64) {
    let mut cursor = Cursor::new(data);
    let result = Frame::parse(&mut cursor);
    (result, cursor.position())
}

#[test]
fn parse_reports_incomplete_input() {
    assert_eq!(parse_all(b"").0, Err(Error::Incomplete));
    assert_eq!(parse_all(b"$3\r\nfoo").0, Err(Error::Incomplete));
    assert_eq!(parse_all(b"$3\r\nfoo\r").0, Err(Error::Incomplete));
    assert_eq!(parse_all(b"*2\r\n$3\r\nfoo\r\n").0, Err(Error::Incomplete));
    assert_eq!(parse_all(b"+OK").0, Err(Error::Incomplete));
}

#[test]
fn check_reports_incomplete_bulk_ending() {
    let mut cursor = Cursor::new(&b"$3\r\nfoo"[..]);
    assert_eq!(Frame::check(&mut cursor), Err(Error::Incomplete));
    let mut cursor = Cursor::new(&b"$3\r\nfoo\r"[..]);
    assert_eq!(Frame::check(&mut cursor), Err(Error::Incomplete));
}

#[test]
fn decimal_limits() {
    let (min, _) = parse_all(b":-9223372036854775808\r\n");
    assert_eq!(min, Ok(Frame::Integer(i64::MIN)));
    let (max, _) = parse_all(b":9223372036854775807\r\n");
    assert_eq!(max, Ok(Frame::Integer(i64::MAX)));
    let (over, pos) = parse_all(b":9223372036854775808\r\n");
    assert_eq!(over, Err(Error::Other("Wrong message: Number out of range")));
    assert_eq!(pos, 22);
    let (under, _) = parse_all(b":-9223372036854775809\r\n");
    assert_eq!(under, Err(Error::Other("Wrong message: Number out of range")));
    let mut cursor = Cursor::new(&b"\r\n"[..]);
    assert_eq!(
        Frame::get_decimal(&mut cursor),
        Err(Error::Other("Wrong message: Empty line"))
    );
    assert_eq!(Frame::decimal_of_line(b"007"), Ok(7));
    assert_eq!(Frame::decimal_of_line(b"-0"), Ok(0));
    assert_eq!(
        Frame::decimal_of_line(b"+5"),
        Err(Error::Other("Wrong message: Not a number"))
    );
}

#[test]
fn parse_refuses_large_arrays_and_bad_text() {
    let (big, _) = parse_all(b"*1024\r\n");
    assert_eq!(big, Err(Error::Other("Wrong message: size out of memory")));
    let (bad, pos) = parse_all(b"+\xF5\xFF\r\n");
    assert_eq!(bad, Err(Error::Other("Wrong message: Invalid UTF-8")));
    assert_eq!(pos, 5);
    let (text, _) = parse_all("+héllo\r\n".as_bytes());
    assert_eq!(text, Ok(Frame::Simple("héllo".to_string())));
    let (bulk, pos) = parse_all(b"$-42\r\n");
    assert_eq!(bulk, Err(Error::Other("Wrong message: Invalid length for bulk string")));
    assert_eq!(pos, 6);
    let (array, pos) = parse_all(b"*-137\r\n");
    assert_eq!(array, Err(Error::Other("Wrong message: Invalid size for array")));
    assert_eq!(pos, 7);
}

#[test]
fn encode_matches_the_wire_format() {
    assert_eq!(
        Frame::Simple("Hello, World!".to_string()).encode(),
        b"+Hello, World!\r\n".to_vec()
    );
    assert_eq!(
        Frame::Error("Error 404 Not Found".to_string()).encode(),
        b"-Error 404 Not Found\r\n".to_vec()
    );
    assert_eq!(Frame::Integer(42i64).encode(), b":42\r\n".to_vec());
    assert_eq!(Frame::Integer(-7).encode(), b":-7\r\n".to_vec());
    assert_eq!(
        Frame::Integer(i64::MIN).encode(),
        b":-9223372036854775808\r\n".to_vec()
    );
    assert_eq!(
        Frame::Bulk("foobar".as_bytes().into()).encode(),
        b"$6\r\nfoobar\r\n".to_vec()
    );
    let nested = Frame::Array(vec![
        Frame::Array(vec![
            Frame::Integer(1i64),
            Frame::Integer(2i64),
            Frame::Integer(3i64),
        ]),
        Frame::Array(vec![
            Frame::Simple("Foo".to_string()),
            Frame::Error("Bar".to_string()),
        ]),
    ]);
    assert_eq!(
        nested.encode(),
        b"*2\r\n*3\r\n:1\r\n:2\r\n:3\r\n*2\r\n+Foo\r\n-Bar\r\n".to_vec()
    );
    assert_eq!(Frame::Null.encode(), b"$-1\r\n".to_vec());
}

#[test]
fn encoded_frames_parse_back() {
    let frames = vec![
        Frame::Simple("héllo wörld".to_string()),
        Frame::Error("oops\n".to_string()),
        Frame::Integer(i64::MIN),
        Frame::Integer(0),
        Frame::Bulk(Bytes::from_static(b"with \r\n inside")),
        Frame::Array(vec![
            Frame::Null,
            Frame::Array(vec![]),
            Frame::Bulk(Bytes::new()),
        ]),
        Frame::Null,
    ];
    for frame in frames {
        let mut bytes = frame.encode();
        let len = bytes.len() as u64;
        bytes.extend_from_slice(b":1\r\n");
        let mut cursor = Cursor::new(&bytes[..]);
        let parsed = Frame::parse(&mut cursor).unwrap();
        assert_eq!(parsed, frame);
        assert_eq!(cursor.position(), len);
    }
}

#[test]
fn check_then_parse_agree() {
    let data = &b"*3\r\n$3\r\nSET\r\n+key\r\n:-12\r\n"[..];
    let mut checked = Cursor::new(data);
    assert!(Frame::check(&mut checked).is_ok());
    let mut parsed = Cursor::new(data);
    assert!(Frame::parse(&mut parsed).is_ok());
    assert_eq!(checked.position(), parsed.position());
    // the check does not read integers, the parser does
    let mut checked = Cursor::new(&b":abc\r\n"[..]);
    assert!(Frame::check(&mut checked).is_ok());
    let mut parsed = Cursor::new(&b":abc\r\n"[..]);
    assert!(matches!(Frame::parse(&mut parsed), Err(Error::Other(_))));
}

#[test]
fn error_texts() {
    assert_eq!(Error::Incomplete.to_string(), "stream ended early");
    assert_eq!(Error::Other("boom").to_string(), "boom");
}

#[test]
fn every_cut_of_an_encoded_frame_is_incomplete() {
    let frame = Frame::Array(vec![
        Frame::Bulk(Bytes::from_static(b"SET")),
        Frame::Simple("key".to_string()),
        Frame::Array(vec![Frame::Integer(-12), Frame::Null]),
        Frame::Error("e".to_string()),
    ]);
    let bytes = frame.encode();
    for cut in 0..bytes.len() {
        let mut cursor = Cursor::new(&bytes[..cut]);
        assert_eq!(Frame::parse(&mut cursor), Err(Error::Incomplete), "cut at {cut}");
        let mut cursor = Cursor::new(&bytes[..cut]);
        assert_eq!(Frame::check(&mut cursor), Err(Error::Incomplete), "cut at {cut}");
    }
}

#[test]
fn trailing_bytes_do_not_change_a_decided_frame() {
    let decided: [&[u8]; 5] = [
        b"*2\r\n:007\r\n+a\r\n",
        b"$-42\r\n",
        b"&oops\r\n",
        b"*2\r\n$1\r\nx\r\n:1x\r\n",
        b"$2\r\nabXY",
    ];
    for data in decided {
        let mut extended = data.to_vec();
        extended.extend_from_slice(b"*1\r\n:5\r\n");
        let mut short = Cursor::new(data);
        let mut long = Cursor::new(&extended[..]);
        assert_eq!(Frame::check(&mut short), Frame::check(&mut long));
        assert_eq!(short.position(), long.position());
        let mut short = Cursor::new(data);
        let mut long = Cursor::new(&extended[..]);
        assert_eq!(Frame::parse(&mut short), Frame::parse(&mut long));
        assert_eq!(short.position(), long.position());
    }
}

#[test]
fn every_cut_of_a_parsed_frame_is_incomplete() {
    let data = &b"*2\r\n:007\r\n$3\r\nabc\r\n"[..];
    let mut cursor = Cursor::new(data);
    assert!(Frame::parse(&mut cursor).is_ok());
    let end = cursor.position() as usize;
    for cut in 0..end {
        let mut cursor = Cursor::new(&data[..cut]);
        assert_eq!(Frame::parse(&mut cursor), Err(Error::Incomplete), "cut at {cut}");
    }
}

#[test]
fn parse_refuses_a_bulk_with_a_wrong_ending() {
    let (result, pos) = parse_all(b"$6\r\nfoobar\r3");
    assert_eq!(result, Err(Error::Other("Wrong message: Invalid ending for bulk string")));
    assert_eq!(pos, 12);
    let (result, pos) = parse_all(b"$3\r\nfooXY");
    assert_eq!(result, Err(Error::Other("Wrong message: Invalid ending for bulk string")));
    assert_eq!(pos, 8);
    let (result, pos) = parse_all(b"$3\r\nfoo\r\n");
    assert_eq!(result, Ok(Frame::Bulk(Bytes::from("foo"))));
    assert_eq!(pos, 9);
}
