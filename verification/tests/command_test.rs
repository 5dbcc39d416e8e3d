use bytes::Bytes;
use mini_redis::command::{Command, Get, SetCmd};
use mini_redis::database::Database;
use mini_redis::frame::Frame;
use mini_redis::parse::{Error, Parse};

fn parts(frames: Vec<Frame>) -> Parse {
    Parse::new(Frame::Array(frames)).unwrap()
}

#[test]
fn test_get_from_parse() {
    // Test 1: Valid command
    let mut valid_get_parse = parts(vec![Frame::Bulk(Bytes::from("Answer"))]);
    let valid_get_command = Get::from_parse(&mut valid_get_parse).unwrap();
    assert_eq!(
        valid_get_command,
        Get {
            key: String::from("Answer")
        }
    );

    // Test 2: Superfluous command
    let mut superfluous_get_parse = parts(vec![
        Frame::Bulk(Bytes::from("Answer")),
        Frame::Error(String::from("me!")),
    ]);
    let superfluous_get_command = Get::from_parse(&mut superfluous_get_parse);
    assert!(matches!(superfluous_get_command, Err(Error::Other(_))));
}

#[test]
fn test_set_from_parse() {
    // Test 1: Valid command
    let mut valid_set_parse = parts(vec![
        Frame::Bulk(Bytes::from("Answer")),
        Frame::Bulk(Bytes::from("42")),
    ]);
    let valid_set_command = SetCmd::from_parse(&mut valid_set_parse).unwrap();
    assert_eq!(
        valid_set_command,
        SetCmd {
            key: String::from("Answer"),
            value: Bytes::from("42"),
        }
    );

    // Test 2: Superfluous command
    let mut superfluous_set_parse = parts(vec![
        Frame::Bulk(Bytes::from("Answer")),
        Frame::Bulk(Bytes::from("42")),
        Frame::Null,
    ]);
    let superfluous_set_command = SetCmd::from_parse(&mut superfluous_set_parse);
    assert!(matches!(superfluous_set_command, Err(Error::Other(_))));
}

#[test]
fn test_command_from_frame() {
    // Test 1: Valid GET command
    let valid_get_frame = Frame::Array(vec![
        Frame::Simple(String::from("Get")),
        Frame::Bulk(Bytes::from("Answer")),
    ]);

    let valid_get_command = Command::from_frame(valid_get_frame).unwrap();
    assert_eq!(
        valid_get_command,
        Command::Get(Get {
            key: String::from("Answer")
        })
    );

    // Test 2: Valid SET command
    let valid_set_frame = Frame::Array(vec![
        Frame::Bulk(Bytes::from("sET")),
        Frame::Simple(String::from("Answer")),
        Frame::Simple(String::from("42")),
    ]);

    let valid_set_command = Command::from_frame(valid_set_frame).unwrap();
    assert_eq!(
        valid_set_command,
        Command::SetCmd(SetCmd {
            key: String::from("Answer"),
            value: Bytes::from("42")
        })
    );

    // Test 3: Invalid command
    let invalid_frame = Frame::Array(vec![
        Frame::Simple(String::from("sudo")),
        Frame::Bulk(Bytes::from("rm -rf /")),
    ]);

    let invalid_command = Command::from_frame(invalid_frame);
    assert!(matches!(invalid_command, Err(Error::Other(_))));
}

#[test]
fn test_command_apply() {
    let mut test_db = Database::new();

    // Test 1: insert an entry
    let set_command = Command::SetCmd(SetCmd {
        key: String::from("Answer"),
        value: Bytes::from("42"),
    });
    let set_resp_frame = set_command.apply(&mut test_db);
    assert_eq!(set_resp_frame, Frame::Simple(String::from("OK")));

    // Test 2: get value of existing entry
    let get_valid_command = Command::Get(Get {
        key: String::from("Answer"),
    });
    let get_valid_resp_frame = get_valid_command.apply(&mut test_db);
    assert_eq!(get_valid_resp_frame, Frame::Bulk(Bytes::from("42")));

    // Test 3: get value of non-existing entry
    let get_invalid_command = Command::Get(Get {
        key: String::from("Alpha"),
    });
    let get_invalid_resp_frame = get_invalid_command.apply(&mut test_db);
    assert_eq!(get_invalid_resp_frame, Frame::Null);
}

#[test]
fn command_names_ignore_case_and_errors_are_exact() {
    let frame = Frame::Array(vec![
        Frame::Bulk(Bytes::from("get")),
        Frame::Bulk(Bytes::from("k")),
    ]);
    assert_eq!(
        Command::from_frame(frame),
        Ok(Command::Get(Get { key: "k".to_string() }))
    );
    let unsupported = Frame::Array(vec![Frame::Bulk(Bytes::from("DEL"))]);
    assert_eq!(
        Command::from_frame(unsupported),
        Err(Error::Other(
            "Wrong message: Unsupported command, GET or SET expected"
        ))
    );
    let missing = Frame::Array(vec![Frame::Bulk(Bytes::from("SET")), Frame::Bulk(Bytes::from("k"))]);
    assert_eq!(Command::from_frame(missing), Err(Error::EndOfStream));
    let mut rest = Parse::new(Frame::Array(vec![Frame::Bulk(Bytes::from("k"))])).unwrap();
    assert_eq!(
        Command::from_name("GET", &mut rest),
        Ok(Command::Get(Get { key: "k".to_string() }))
    );
    let mut rest = Parse::new(Frame::Array(vec![Frame::Bulk(Bytes::from("k"))])).unwrap();
    assert!(Command::from_name("get", &mut rest).is_err());
}

#[test]
fn command_names_keep_their_case() {
    mini_redis::command::upper_case_command_names();
}
