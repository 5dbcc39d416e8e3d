use bytes::Bytes;
use mini_redis::cursor::Cursor;
use mini_redis::frame::{Error, Frame};

#[test]
fn test_frame_new() {
    let _frames: [Frame; 6] = [
        Frame::Simple(String::from("Hello, World!")),
        Frame::Error(String::from("404 Not Found")),
        Frame::Integer(42i64),
        Frame::Bulk(Bytes::from_static(b"Hello,\nWorld!!")),
        Frame::Array(vec![
            Frame::Simple(String::from("Hello, World, Again!!!")),
            Frame::Error(String::from("500 Internal Server Error")),
            Frame::Integer(1 << 42),
        ]),
        Frame::Null,
    ];
}

#[test]
fn test_frame_get_line() {
    // Test 1: Valid clean line
    let valid_line = &b"hello world\r\n"[..];
    let mut valid_cursor = Cursor::new(valid_line);
    let valid_bytes = Frame::get_line(&mut valid_cursor);
    assert_eq!(valid_bytes.unwrap(), b"hello world");
    assert_eq!(valid_cursor.position(), 13);

    // Test 2: Superfluous pipelined data
    let superfluous_line = &b"2\r\n$3\r\nfoo\r\n$3\r\nbar\r\n"[..];
    let mut superfluous_cursor = Cursor::new(superfluous_line);
    let superfluous_bytes = Frame::get_line(&mut superfluous_cursor);
    assert_eq!(superfluous_bytes.unwrap(), b"2");
    assert_eq!(superfluous_cursor.position(), 3);

    // Test 3: Inadequate line
    let inadequate_line = &b"Lorem Ipsum"[..];
    let mut inadequate_cursor = Cursor::new(inadequate_line);
    let inadequate_bytes = Frame::get_line(&mut inadequate_cursor);
    assert!(matches!(inadequate_bytes, Err(Error::Incomplete)));
    assert_eq!(inadequate_cursor.position(), 0);

    // Test 4: Wrong line
    let wrong_line = &b"dolor \rsit"[..];
    let mut wrong_cursor = Cursor::new(wrong_line);
    let wrong_bytes = Frame::get_line(&mut wrong_cursor);
    assert!(matches!(wrong_bytes, Err(Error::Other(_))));
    assert_eq!(wrong_cursor.position(), 0);
}

#[test]
fn test_frame_get_decimal() {
    // Test 1: Valid positive number
    let valid_pos = &b"42\r\n"[..];
    let mut valid_pos_cursor = Cursor::new(valid_pos);
    let valid_pos_int = Frame::get_decimal(&mut valid_pos_cursor);
    assert_eq!(valid_pos_int.unwrap(), 42i64);
    assert_eq!(valid_pos_cursor.position(), 4);

    // Test 2: Valid negative number
    let valid_neg = &b"-137\r\n"[..];
    let mut valid_neg_cursor = Cursor::new(valid_neg);
    let valid_neg_int = Frame::get_decimal(&mut valid_neg_cursor);
    assert_eq!(valid_neg_int.unwrap(), -137i64);
    assert_eq!(valid_neg_cursor.position(), 6);

    // Test 3: Valid single digit number
    let valid_sig = &b"9\r\n"[..];
    let mut valid_sig_cursor = Cursor::new(valid_sig);
    let valid_sig_int = Frame::get_decimal(&mut valid_sig_cursor);
    assert_eq!(valid_sig_int.unwrap(), 9i64);
    assert_eq!(valid_sig_cursor.position(), 3);

    // Test 4: Superfluous pipelined data
    let superfluous_num = &b"2\r\n$3\r\nfoo\r\n$3\r\nbar\r\n"[..];
    let mut superfluous_cursor = Cursor::new(superfluous_num);
    let superfluous_int = Frame::get_decimal(&mut superfluous_cursor);
    assert_eq!(superfluous_int.unwrap(), 2i64);
    assert_eq!(superfluous_cursor.position(), 3);

    // Test 5: Inadequate line
    let inadequate_num = &b"299792458"[..];
    let mut inadequate_cursor = Cursor::new(inadequate_num);
    let inadequate_int = Frame::get_decimal(&mut inadequate_cursor);
    assert!(matches!(inadequate_int, Err(Error::Incomplete)));
    assert_eq!(inadequate_cursor.position(), 0);

    // Test 6: Non-integer line
    let non_num = &b"No. 1729\r\n"[..];
    let mut non_cursor = Cursor::new(non_num);
    let non_int = Frame::get_decimal(&mut non_cursor);
    assert!(matches!(non_int, Err(Error::Other(_))));
    assert_eq!(non_cursor.position(), 10);

    // Test 7: Only minus sign line
    let only_min = &b"-\r\n"[..];
    let mut min_cursor = Cursor::new(only_min);
    let min_int = Frame::get_decimal(&mut min_cursor);
    assert!(matches!(min_int, Err(Error::Other(_))));
    assert_eq!(min_cursor.position(), 3);

    // Test 8: Unexpected minus sign line
    let wrong_min = &b"42-137\r\n"[..];
    let mut wrong_cursor = Cursor::new(wrong_min);
    let wrong_int = Frame::get_decimal(&mut wrong_cursor);
    assert!(matches!(wrong_int, Err(Error::Other(_))));
    assert_eq!(wrong_cursor.position(), 8);
}

#[test]
fn test_frame_check() {
    // Test 1: Valid simple string
    let valid_simple = &b"+Hello, world!\r\n"[..];
    let mut simple_cursor = Cursor::new(valid_simple);
    let simple_result = Frame::check(&mut simple_cursor);
    assert!(simple_result.is_ok());
    assert_eq!(simple_cursor.position(), 16);

    // Test 2: Valid error
    let valid_error = &b"-Error 404 Not Found\r\n"[..];
    let mut error_cursor = Cursor::new(valid_error);
    let error_result = Frame::check(&mut error_cursor);
    assert!(error_result.is_ok());
    assert_eq!(error_cursor.position(), 22);

    // Test 3: Valid integer
    let valid_integer = &b":42\r\n"[..];
    let mut integer_cursor = Cursor::new(valid_integer);
    let integer_result = Frame::check(&mut integer_cursor);
    assert!(integer_result.is_ok());
    assert_eq!(integer_cursor.position(), 5);

    // Test 4: Valid bulk string
    let valid_bulk = &b"$6\r\nfoobar\r\n"[..];
    let mut bulk_cursor = Cursor::new(valid_bulk);
    let bulk_result = Frame::check(&mut bulk_cursor);
    assert!(bulk_result.is_ok());
    assert_eq!(bulk_cursor.position(), 12);

    // Test 5: Valid empty bulk string
    let valid_emptybulk = &b"$0\r\n\r\n"[..];
    let mut emptybulk_cursor = Cursor::new(valid_emptybulk);
    let emptybulk_result = Frame::check(&mut emptybulk_cursor);
    assert!(emptybulk_result.is_ok());
    assert_eq!(emptybulk_cursor.position(), 6);

    // Test 6: Valid null bulk string
    let valid_nullbulk = &b"$-1\r\n"[..];
    let mut nullbulk_cursor = Cursor::new(valid_nullbulk);
    let nullbulk_result = Frame::check(&mut nullbulk_cursor);
    assert!(nullbulk_result.is_ok());
    assert_eq!(nullbulk_cursor.position(), 5);

    // Test 7: Inadequate bulk string
    let inadequate_bulk = &b"$6\r\nfoo"[..];
    let mut inadequate_bulk_cursor = Cursor::new(inadequate_bulk);
    let inadequate_bulk_result = Frame::check(&mut inadequate_bulk_cursor);
    assert!(matches!(inadequate_bulk_result, Err(Error::Incomplete)));
    // get_decimal() advances cursor at f
    assert_eq!(inadequate_bulk_cursor.position(), 4);

    // Test 8: Valid array
    let valid_array = &b"*2\r\n$3\r\nfoo\r\n$3\r\nbar\r\n"[..];
    let mut array_cursor = Cursor::new(valid_array);
    let array_result = Frame::check(&mut array_cursor);
    assert!(array_result.is_ok());
    assert_eq!(array_cursor.position(), 22);

    // Test 9: Valid nested array
    let valid_nestarray = &b"*2\r\n*3\r\n:1\r\n:2\r\n:3\r\n*2\r\n+Foo\r\n-Bar\r\n"[..];
    let mut nestarray_cursor = Cursor::new(valid_nestarray);
    let nestarray_result = Frame::check(&mut nestarray_cursor);
    assert!(nestarray_result.is_ok());
    assert_eq!(nestarray_cursor.position(), 36);

    // Test 10: Valid empty array
    let valid_emptyarray = &b"*0\r\n"[..];
    let mut emptyarray_cursor = Cursor::new(valid_emptyarray);
    let emptyarray_result = Frame::check(&mut emptyarray_cursor);
    assert!(emptyarray_result.is_ok());
    assert_eq!(emptyarray_cursor.position(), 4);

    // Test 11: Valid null array
    let valid_nullarray = &b"*-1\r\n"[..];
    let mut nullarray_cursor = Cursor::new(valid_nullarray);
    let nullarray_result = Frame::check(&mut nullarray_cursor);
    assert!(nullarray_result.is_ok());
    assert_eq!(nullarray_cursor.position(), 5);

    // Test 12: Interstitial fragmented array
    let cutoff_array = &b"*2\r\n$3\r\nfoo\r\n"[..];
    let mut cutoff_cursor = Cursor::new(cutoff_array);
    let cutoff_result = Frame::check(&mut cutoff_cursor);
    assert!(matches!(cutoff_result, Err(Error::Incomplete)));
    assert_eq!(cutoff_cursor.position(), 13);

    // Test 13: Empty data
    let empty_data = &b""[..];
    let mut empty_cursor = Cursor::new(empty_data);
    let empty_result = Frame::check(&mut empty_cursor);
    assert!(matches!(empty_result, Err(Error::Incomplete)));
    assert_eq!(empty_cursor.position(), 0);

    // Test 14: Invalid first byte
    let wrong_1stbyte = &b"&hello world\r\n"[..];
    let mut wrong_1stbyte_cursor = Cursor::new(wrong_1stbyte);
    let wrong_1stbyte_result = Frame::check(&mut wrong_1stbyte_cursor);
    assert!(matches!(wrong_1stbyte_result, Err(Error::Other(_))));
    assert_eq!(wrong_1stbyte_cursor.position(), 1);

    // Test 15: Invalid bulk length
    let wrong_bulklen = &b"$-42\r\n"[..];
    let mut wrong_bulklen_cursor = Cursor::new(wrong_bulklen);
    let wrong_bulklen_result = Frame::check(&mut wrong_bulklen_cursor);
    assert!(matches!(wrong_bulklen_result, Err(Error::Other(_))));
    assert_eq!(wrong_bulklen_cursor.position(), 6);

    // Test 16: Invalid bulk string
    let wrong_bulk = &b"$6\r\nfoobar\r3"[..];
    let mut wrong_bulk_cursor = Cursor::new(wrong_bulk);
    let wrong_bulk_result = Frame::check(&mut wrong_bulk_cursor);
    assert!(matches!(wrong_bulk_result, Err(Error::Other(_))));
    assert_eq!(wrong_bulk_cursor.position(), 12);

    // Test 17: Invalid array size
    let wrong_arraysize = &b"*-137\r\n"[..];
    let mut wrong_arraysize_cursor = Cursor::new(wrong_arraysize);
    let wrong_arraysize_result = Frame::check(&mut wrong_arraysize_cursor);
    assert!(matches!(wrong_arraysize_result, Err(Error::Other(_))));
    assert_eq!(wrong_arraysize_cursor.position(), 7);
}

#[test]
fn test_frame_parse() {
    // Test 1: Valid simple string
    let valid_simple = &b"+Hello, World!\r\n"[..];
    let mut simple_cursor = Cursor::new(valid_simple);
    let simple_frame = Frame::parse(&mut simple_cursor);
    assert_eq!(
        simple_frame.unwrap(),
        Frame::Simple("Hello, World!".to_string())
    );
    assert_eq!(simple_cursor.position(), 16);

    // Test 2: Valid error
    let valid_error = &b"-Error 404 Not Found\r\n"[..];
    let mut error_cursor = Cursor::new(valid_error);
    let error_frame = Frame::parse(&mut error_cursor);
    assert_eq!(
        error_frame.unwrap(),
        Frame::Error("Error 404 Not Found".to_string())
    );
    assert_eq!(error_cursor.position(), 22);

    // Test 3: Valid integer
    let valid_integer = &b":42\r\n"[..];
    let mut integer_cursor = Cursor::new(valid_integer);
    let integer_frame = Frame::parse(&mut integer_cursor);
    assert_eq!(integer_frame.unwrap(), Frame::Integer(42i64));
    assert_eq!(integer_cursor.position(), 5);

    // Test 4: Valid bulk string
    let valid_bulk = &b"$6\r\nfoobar\r\n"[..];
    let mut bulk_cursor = Cursor::new(valid_bulk);
    let bulk_frame = Frame::parse(&mut bulk_cursor);
    assert_eq!(bulk_frame.unwrap(), Frame::Bulk("foobar".as_bytes().into()));
    assert_eq!(bulk_cursor.position(), 12);

    // Test 5: Valid empty bulk string
    let valid_emptybulk = &b"$0\r\n\r\n"[..];
    let mut emptybulk_cursor = Cursor::new(valid_emptybulk);
    let emptybulk_frame = Frame::parse(&mut emptybulk_cursor);
    assert_eq!(emptybulk_frame.unwrap(), Frame::Bulk("".as_bytes().into()));
    assert_eq!(emptybulk_cursor.position(), 6);

    // Test 6: Valid null bulk string
    let valid_nullbulk = &b"$-1\r\n"[..];
    let mut nullbulk_cursor = Cursor::new(valid_nullbulk);
    let nullbulk_frame = Frame::parse(&mut nullbulk_cursor);
    assert_eq!(nullbulk_frame.unwrap(), Frame::Null);
    assert_eq!(nullbulk_cursor.position(), 5);

    // Test 7: Valid array
    let valid_array = &b"*2\r\n$3\r\nfoo\r\n$3\r\nbar\r\n"[..];
    let mut array_cursor = Cursor::new(valid_array);
    let array_frame = Frame::parse(&mut array_cursor);
    assert_eq!(
        array_frame.unwrap(),
        Frame::Array(vec![
            Frame::Bulk("foo".as_bytes().into()),
            Frame::Bulk("bar".as_bytes().into())
        ])
    );
    assert_eq!(array_cursor.position(), 22);

    // Test 8: Valid nested array
    let valid_nestarray = &b"*2\r\n*3\r\n:1\r\n:2\r\n:3\r\n*2\r\n+Foo\r\n-Bar\r\n"[..];
    let mut nestarray_cursor = Cursor::new(valid_nestarray);
    let nestarray_frame = Frame::parse(&mut nestarray_cursor);
    assert_eq!(
        nestarray_frame.unwrap(),
        Frame::Array(vec![
            Frame::Array(vec![
                Frame::Integer(1i64),
                Frame::Integer(2i64),
                Frame::Integer(3i64)
            ]),
            Frame::Array(vec![
                Frame::Simple("Foo".to_string()),
                Frame::Error("Bar".to_string())
            ]),
        ])
    );
    assert_eq!(nestarray_cursor.position(), 36);

    // Test 9: Valid empty array
    let valid_emptyarray = &b"*0\r\n"[..];
    let mut emptyarray_cursor = Cursor::new(valid_emptyarray);
    let emptyarray_frame = Frame::parse(&mut emptyarray_cursor);
    assert_eq!(emptyarray_frame.unwrap(), Frame::Array(vec![]));
    assert_eq!(emptyarray_cursor.position(), 4);

    // Test 10: Valid null array
    let valid_nullarray = &b"*-1\r\n"[..];
    let mut nullarray_cursor = Cursor::new(valid_nullarray);
    let nullarray_frame = Frame::parse(&mut nullarray_cursor);
    assert_eq!(nullarray_frame.unwrap(), Frame::Null);
    assert_eq!(nullarray_cursor.position(), 5);

    // Test 11: Invalid first byte
    let wrong_1stbyte = &b"&hello world\r\n"[..];
    let mut wrong_1stbyte_cursor = Cursor::new(wrong_1stbyte);
    let wrong_1stbyte_frame = Frame::parse(&mut wrong_1stbyte_cursor);
    assert!(matches!(wrong_1stbyte_frame, Err(Error::Other(_))));
    // get_u8() advances cursor by 1
    assert_eq!(wrong_1stbyte_cursor.position(), 1);
}
