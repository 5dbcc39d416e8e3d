use bytes::Bytes;
use mini_redis::frame::Frame;
use mini_redis::requester::{get_reply, get_request, set_reply, set_request, ReplyError};

#[test]
fn requests_are_bulk_arrays() {
    assert_eq!(
        get_request("Alpha").encode(),
        b"*2\r\n$3\r\nGET\r\n$5\r\nAlpha\r\n".to_vec()
    );
    assert_eq!(
        set_request("Alpha", Bytes::from("137")).encode(),
        b"*3\r\n$3\r\nSET\r\n$5\r\nAlpha\r\n$3\r\n137\r\n".to_vec()
    );
}

#[test]
fn replies_to_get() {
    assert_eq!(
        get_reply(Frame::Bulk(Bytes::from("137"))),
        Ok(Some(Bytes::from("137")))
    );
    assert_eq!(get_reply(Frame::Null), Ok(None));
    let error = get_reply(Frame::Error("nope".to_string())).unwrap_err();
    assert_eq!(error, ReplyError::Server("nope".to_string()));
    assert_eq!(error.to_string(), "nope");
    let error = get_reply(Frame::Integer(1)).unwrap_err();
    assert_eq!(error.to_string(), "Protocol Error: Unexpected frame type");
}

#[test]
fn replies_to_set() {
    assert_eq!(set_reply(Frame::Simple("OK".to_string())), Ok(()));
    assert_eq!(
        set_reply(Frame::Simple("QUEUED".to_string())),
        Err(ReplyError::Server("QUEUED".to_string()))
    );
    assert_eq!(
        set_reply(Frame::Error("bad".to_string())),
        Err(ReplyError::Server("bad".to_string()))
    );
    assert_eq!(set_reply(Frame::Null), Err(ReplyError::UnexpectedFrame));
}
