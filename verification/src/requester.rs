use crate::byte_buf::{bytes_copy_from_slice, bytes_from_static, bytes_view};
use crate::frame::{
    crlf, lemma_frames_view_len, spec_decimal, spec_digits, spec_serialize, spec_serialize_all, Frame,
    SpecFrame,
};
use crate::text::str_equal;
use bytes::Bytes;
use vstd::prelude::*;
use vstd::utf8::encode_utf8;

verus! {

/// Why a reply from the server does not answer the request.
#[derive(Debug, PartialEq)]
pub enum ReplyError {
    /// The server answered with this message.
    Server(String),
    /// The server answered with a frame of the wrong kind.
    UnexpectedFrame,
}

impl ReplyError {
    /// The text that describes the error.
    pub fn to_string(&self) -> (s: String)
        ensures
            match self {
                ReplyError::Server(m) => s@ == m@,
                ReplyError::UnexpectedFrame => s@ == "Protocol Error: Unexpected frame type"@,
            },
    {
        match self {
            ReplyError::Server(m) => m.clone(),
            ReplyError::UnexpectedFrame => "Protocol Error: Unexpected frame type".to_owned(),
        }
    }
}

/// The bytes "GET".
pub open spec fn get_name_bytes() -> Seq<u8> {
    seq![71u8, 69u8, 84u8]
}

/// The bytes "SET".
pub open spec fn set_name_bytes() -> Seq<u8> {
    seq![83u8, 69u8, 84u8]
}

/// The frame that asks for the value of `key`.
pub open spec fn spec_get_request(key: Seq<char>) -> SpecFrame {
    SpecFrame::Array(seq![SpecFrame::Bulk(get_name_bytes()), SpecFrame::Bulk(encode_utf8(key))])
}

/// The frame that stores `value` under `key`.
pub open spec fn spec_set_request(key: Seq<char>, value: Seq<u8>) -> SpecFrame {
    SpecFrame::Array(
        seq![
            SpecFrame::Bulk(set_name_bytes()),
            SpecFrame::Bulk(encode_utf8(key)),
            SpecFrame::Bulk(value),
        ],
    )
}

/// The request frame for a GET of `key`.
pub fn get_request(key: &str) -> (f: Frame)
    ensures
        f@ == spec_get_request(key@),
{
    let name_text: &'static str = "GET";
    let name = bytes_from_static(name_text.as_bytes());
    let key_bytes = bytes_copy_from_slice(key.as_bytes());
    let parts = vec![Frame::Bulk(name), Frame::Bulk(key_bytes)];
    proof {
        lemma_frames_view_len(parts@);
        assert(encode_utf8(name_text@) =~= get_name_bytes()) by {
            reveal_strlit("GET");
            vstd::utf8::is_ascii_chars_encode_utf8(name_text@);
        }
    }
    let f = Frame::Array(parts);
    proof {
        lemma_frames_view_len(parts@);
        assert(crate::frame::frames_view(parts@) =~= seq![
            SpecFrame::Bulk(get_name_bytes()),
            SpecFrame::Bulk(encode_utf8(key@)),
        ]);
    }
    f
}

/// The request frame for a SET of `value` under `key`.
pub fn set_request(key: &str, value: Bytes) -> (f: Frame)
    ensures
        f@ == spec_set_request(key@, bytes_view(value)),
{
    let name_text: &'static str = "SET";
    let name = bytes_from_static(name_text.as_bytes());
    let key_bytes = bytes_copy_from_slice(key.as_bytes());
    let ghost value_view = bytes_view(value);
    let parts = vec![Frame::Bulk(name), Frame::Bulk(key_bytes), Frame::Bulk(value)];
    proof {
        assert(encode_utf8(name_text@) =~= set_name_bytes()) by {
            reveal_strlit("SET");
            vstd::utf8::is_ascii_chars_encode_utf8(name_text@);
        }
        lemma_frames_view_len(parts@);
        assert(crate::frame::frames_view(parts@) =~= seq![
            SpecFrame::Bulk(set_name_bytes()),
            SpecFrame::Bulk(encode_utf8(key@)),
            SpecFrame::Bulk(value_view),
        ]);
    }
    Frame::Array(parts)
}

/// What a reply to a GET means: the value, or none for a null.
///
/// # Errors
/// `ReplyError::Server` for an error frame, `ReplyError::UnexpectedFrame`
/// for any other frame.
pub fn get_reply(reply: Frame) -> (r: Result<Option<Bytes>, ReplyError>)
    ensures
        match reply@ {
            SpecFrame::Bulk(b) => r matches Ok(Some(v)) && bytes_view(v) == b,
            SpecFrame::Null => r matches Ok(None),
            SpecFrame::Error(m) => r matches Err(ReplyError::Server(s)) && s@ == m,
            _ => r matches Err(ReplyError::UnexpectedFrame),
        },
{
    match reply {
        Frame::Bulk(bytes) => Ok(Some(bytes)),
        Frame::Null => Ok(None),
        Frame::Error(message) => Err(ReplyError::Server(message)),
        _ => Err(ReplyError::UnexpectedFrame),
    }
}

/// What a reply to a SET means: success for "OK".
///
/// # Errors
/// `ReplyError::Server` for an error frame or a simple string other than
/// "OK", `ReplyError::UnexpectedFrame` for any other frame.
pub fn set_reply(reply: Frame) -> (r: Result<(), ReplyError>)
    ensures
        match reply@ {
            SpecFrame::Simple(m) => if m == "OK"@ {
                r is Ok
            } else {
                r matches Err(ReplyError::Server(s)) && s@ == m
            },
            SpecFrame::Error(m) => r matches Err(ReplyError::Server(s)) && s@ == m,
            _ => r matches Err(ReplyError::UnexpectedFrame),
        },
{
    match reply {
        Frame::Simple(message) => {
            if str_equal(message.as_str(), "OK") {
                Ok(())
            } else {
                Err(ReplyError::Server(message))
            }
        },
        Frame::Error(message) => Err(ReplyError::Server(message)),
        _ => Err(ReplyError::UnexpectedFrame),
    }
}

/// The bytes a GET request is sent as: "*2\r\n$3\r\nGET\r\n$", the key's
/// length in decimal, "\r\n", the key and "\r\n".
pub proof fn law_get_request_wire(key: Seq<char>)
    ensures
        spec_serialize(spec_get_request(key)) == seq![42u8, 50u8, 13u8, 10u8, 36u8, 51u8, 13u8, 10u8, 71u8, 69u8, 84u8, 13u8, 10u8, 36u8]
            + spec_decimal(encode_utf8(key).len() as int) + crlf() + encode_utf8(key) + crlf(),
{
    let k = encode_utf8(key);
    let frames = seq![SpecFrame::Bulk(get_name_bytes()), SpecFrame::Bulk(k)];
    assert(spec_digits(2) =~= seq![50u8]);
    assert(spec_digits(3) =~= seq![51u8]);
    assert(frames.drop_last() =~= seq![SpecFrame::Bulk(get_name_bytes())]);
    assert(frames.drop_last().drop_last() =~= Seq::<SpecFrame>::empty());
    assert(spec_serialize_all(Seq::<SpecFrame>::empty()) =~= Seq::<u8>::empty());
    assert(spec_serialize(SpecFrame::Bulk(get_name_bytes())) =~= seq![36u8, 51u8, 13u8, 10u8, 71u8, 69u8, 84u8, 13u8, 10u8]);
    assert(spec_serialize_all(frames.drop_last()) =~= spec_serialize(SpecFrame::Bulk(get_name_bytes())));
    assert(spec_serialize_all(frames) =~= spec_serialize(SpecFrame::Bulk(get_name_bytes())) + spec_serialize(SpecFrame::Bulk(k)));
    assert(spec_serialize(spec_get_request(key)) =~= seq![42u8, 50u8, 13u8, 10u8, 36u8, 51u8, 13u8, 10u8, 71u8, 69u8, 84u8, 13u8, 10u8, 36u8]
        + spec_decimal(k.len() as int) + crlf() + k + crlf());
}

/// The bytes a SET request is sent as: "*3\r\n$3\r\nSET\r\n$", the key's
/// length, "\r\n", the key, "\r\n$", the value's length, "\r\n", the value
/// and "\r\n".
pub proof fn law_set_request_wire(key: Seq<char>, value: Seq<u8>)
    ensures
        spec_serialize(spec_set_request(key, value)) == seq![42u8, 51u8, 13u8, 10u8, 36u8, 51u8, 13u8, 10u8, 83u8, 69u8, 84u8, 13u8, 10u8, 36u8]
            + spec_decimal(encode_utf8(key).len() as int) + crlf() + encode_utf8(key) + crlf()
            + seq![36u8] + spec_decimal(value.len() as int) + crlf() + value + crlf(),
{
    let k = encode_utf8(key);
    let frames = seq![SpecFrame::Bulk(set_name_bytes()), SpecFrame::Bulk(k), SpecFrame::Bulk(value)];
    assert(spec_digits(3) =~= seq![51u8]);
    assert(frames.drop_last() =~= seq![SpecFrame::Bulk(set_name_bytes()), SpecFrame::Bulk(k)]);
    assert(frames.drop_last().drop_last() =~= seq![SpecFrame::Bulk(set_name_bytes())]);
    assert(frames.drop_last().drop_last().drop_last() =~= Seq::<SpecFrame>::empty());
    assert(spec_serialize_all(Seq::<SpecFrame>::empty()) =~= Seq::<u8>::empty());
    assert(spec_serialize(SpecFrame::Bulk(set_name_bytes())) =~= seq![36u8, 51u8, 13u8, 10u8, 83u8, 69u8, 84u8, 13u8, 10u8]);
    assert(spec_serialize_all(frames.drop_last().drop_last()) =~= spec_serialize(SpecFrame::Bulk(set_name_bytes())));
    assert(spec_serialize_all(frames.drop_last()) =~= spec_serialize(SpecFrame::Bulk(set_name_bytes())) + spec_serialize(SpecFrame::Bulk(k)));
    assert(spec_serialize_all(frames) =~= spec_serialize(SpecFrame::Bulk(set_name_bytes())) + spec_serialize(SpecFrame::Bulk(k)) + spec_serialize(SpecFrame::Bulk(value)));
    assert(spec_serialize(spec_set_request(key, value)) =~= seq![42u8, 51u8, 13u8, 10u8, 36u8, 51u8, 13u8, 10u8, 83u8, 69u8, 84u8, 13u8, 10u8, 36u8]
        + spec_decimal(k.len() as int) + crlf() + k + crlf() + seq![36u8] + spec_decimal(value.len() as int)
        + crlf() + value + crlf());
}

} // verus!
