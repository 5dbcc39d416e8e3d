use bytes::Bytes;
use mini_redis::config::MAX_BUFFERED_BYTES;
use mini_redis::connection::{FrameBuffer, ReadError};
use mini_redis::frame::Frame;

#[test]
fn frames_arrive_in_parts() {
    let mut buffer = FrameBuffer::new();
    assert_eq!(buffer.parse_frame(), Ok(None));
    buffer.receive(b"+Hello, World!\r\n");
    assert_eq!(
        buffer.parse_frame(),
        Ok(Some(Frame::Simple("Hello, World!".to_string())))
    );
    assert_eq!(buffer.buffered(), b"");

    buffer.receive(b"*2\r\n$3\r\nfoo\r\n");
    assert_eq!(buffer.parse_frame(), Ok(None));
    assert_eq!(buffer.buffered(), b"*2\r\n$3\r\nfoo\r\n");
    buffer.receive(b"$3\r\nbar\r\n:0\r\n");
    assert_eq!(
        buffer.parse_frame(),
        Ok(Some(Frame::Array(vec![
            Frame::Bulk("foo".as_bytes().into()),
            Frame::Bulk("bar".as_bytes().into())
        ])))
    );
    assert_eq!(buffer.buffered(), b":0\r\n");
    assert_eq!(buffer.parse_frame(), Ok(Some(Frame::Integer(0))));
    assert_eq!(buffer.end_of_stream(), Ok(None));
}

#[test]
fn invalid_bytes_are_reported_and_kept() {
    let mut buffer = FrameBuffer::new();
    buffer.receive(b"Invalid Redis message");
    let error = buffer.parse_frame().unwrap_err();
    assert_eq!(error, ReadError::Invalid("Wrong message: Invalid first byte"));
    assert_eq!(error.to_string(), "Wrong message: Invalid first byte");
    assert_eq!(buffer.buffered(), b"Invalid Redis message");
}

#[test]
fn read_budget_and_limit() {
    let mut buffer = FrameBuffer::new();
    assert_eq!(buffer.read_budget(), Ok(MAX_BUFFERED_BYTES));
    let placeholder = "A".repeat(MAX_BUFFERED_BYTES - 1);
    buffer.receive(format!("+{placeholder}").as_bytes());
    assert_eq!(buffer.parse_frame(), Ok(None));
    let error = buffer.read_budget().unwrap_err();
    assert_eq!(error, ReadError::BufferLimit);
    assert_eq!(error.to_string(), "Frame cannot fit within the buffer limit.");
    assert!(buffer.buffered().len() <= MAX_BUFFERED_BYTES);
}

#[test]
fn frame_of_exactly_the_limit_fits() {
    let size = MAX_BUFFERED_BYTES - 1 - 5 - 2 - 2;
    let placeholder = "A".repeat(size);
    let mut buffer = FrameBuffer::new();
    buffer.receive(format!("${size}\r\n{placeholder}\r\n").as_bytes());
    assert_eq!(buffer.read_budget(), Err(ReadError::BufferLimit));
    assert_eq!(
        buffer.parse_frame(),
        Ok(Some(Frame::Bulk(Bytes::from(placeholder))))
    );
    assert_eq!(buffer.read_budget(), Ok(MAX_BUFFERED_BYTES));
}

#[test]
fn closing_mid_frame_is_an_error() {
    let mut buffer = FrameBuffer::new();
    buffer.receive(b"$3\r\nfo");
    let error = buffer.end_of_stream().unwrap_err();
    assert_eq!(error, ReadError::Disconnected);
    assert_eq!(error.to_string(), "Network Error! Failed to fetch network data.");
}

#[test]
fn one_frame_is_taken_and_the_rest_kept() {
    let mut buffer = FrameBuffer::new();
    buffer.receive(b":007\r\n$2\r\nhi");
    assert_eq!(buffer.parse_frame(), Ok(Some(Frame::Integer(7))));
    assert_eq!(buffer.buffered(), b"$2\r\nhi");
    assert_eq!(buffer.parse_frame(), Ok(None));
    assert_eq!(buffer.buffered(), b"$2\r\nhi");
}

#[test]
fn bulk_without_its_ending_is_refused_and_kept() {
    let mut buffer = FrameBuffer::new();
    buffer.receive(b"$6\r\nfoobar\r3");
    let error = buffer.parse_frame().unwrap_err();
    assert_eq!(error, ReadError::Invalid("Wrong message: Invalid ending for bulk string"));
    assert_eq!(buffer.buffered(), b"$6\r\nfoobar\r3");
    let mut buffer = FrameBuffer::new();
    buffer.receive(b"$6\r\nfoobarXY");
    assert_eq!(
        buffer.parse_frame().unwrap_err(),
        ReadError::Invalid("Wrong message: Invalid ending for bulk string")
    );
    assert_eq!(buffer.buffered(), b"$6\r\nfoobarXY");
    let mut buffer = FrameBuffer::new();
    buffer.receive(b"$6\r\nfoobar\r");
    assert_eq!(buffer.parse_frame(), Ok(None));
    assert_eq!(buffer.buffered(), b"$6\r\nfoobar\r");
}
