use nn::checkpoint::manifest::{
    expect, parse_entry, parse_header, peek, read_int, read_int_array, read_string, skip_ws,
};
use nn::checkpoint::CheckpointError;

#[test]
fn skip_ws_stops_at_first_non_space() {
    let b = b" \t\r\n x";
    let mut p = 0;
    skip_ws(b, &mut p);
    assert_eq!(p, 5);
    let mut q = 6;
    skip_ws(b, &mut q);
    assert_eq!(q, 6);
}

#[test]
fn peek_in_and_out_of_range() {
    assert_eq!(peek(b"ab", 1), Some(b'b'));
    assert_eq!(peek(b"ab", 2), None);
}

#[test]
fn expect_consumes_only_on_match() {
    let mut p = 1;
    assert!(expect(b"x{\"a\"", &mut p, b"{").is_ok());
    assert_eq!(p, 2);
    assert!(matches!(expect(b"x{", &mut p, b"}"), Err(CheckpointError::BadHeader(_))));
    assert_eq!(p, 2);
}

#[test]
fn read_string_up_to_closing_quote() {
    let mut p = 0;
    assert_eq!(read_string(b"\"ab c\",", &mut p).unwrap(), "ab c");
    assert_eq!(p, 6);
    let mut q = 0;
    assert!(matches!(read_string(b"\"open", &mut q), Err(CheckpointError::BadHeader(_))));
    let mut r = 0;
    assert!(matches!(read_string(b"abc", &mut r), Err(CheckpointError::BadHeader(_))));
    let mut u = 0;
    assert_eq!(read_string("\"héllo\"".as_bytes(), &mut u).unwrap(), "héllo");
}

#[test]
fn read_int_reads_digits() {
    let mut p = 0;
    assert_eq!(read_int(b"1234,", &mut p).unwrap(), 1234);
    assert_eq!(p, 4);
    let mut q = 0;
    assert!(matches!(read_int(b"-1", &mut q), Err(CheckpointError::BadHeader(_))));
    let mut r = 0;
    assert!(matches!(
        read_int(b"99999999999999999999999", &mut r),
        Err(CheckpointError::BadHeader(_))
    ));
    let mut s = 0;
    assert_eq!(read_int(b"007", &mut s).unwrap(), 7);
}

#[test]
fn read_int_array_forms() {
    let mut p = 0;
    assert_eq!(read_int_array(b"[1, 2 ,3]x", &mut p).unwrap(), vec![1, 2, 3]);
    assert_eq!(p, 9);
    let mut q = 0;
    assert_eq!(read_int_array(b"[ ]", &mut q).unwrap(), Vec::<usize>::new());
    let mut r = 0;
    assert!(matches!(read_int_array(b"[1;2]", &mut r), Err(CheckpointError::BadHeader(_))));
}

#[test]
fn parse_entry_keys_in_any_order() {
    let mut p = 0;
    let e = parse_entry(br#"{"len":6,"shape":[2,3],"path":"a.b","offset":10}"#, &mut p).unwrap();
    assert_eq!(e.path, "a.b");
    assert_eq!(e.shape, vec![2, 3]);
    assert_eq!(e.offset, 10);
    assert_eq!(e.len, 6);
    let mut q = 0;
    assert!(matches!(
        parse_entry(br#"{"len":1,"len":2}"#, &mut q),
        Err(CheckpointError::BadHeader(_))
    ));
    let mut w = 0;
    assert!(matches!(
        parse_entry(br#"{"path":"w"}"#, &mut w),
        Err(CheckpointError::BadHeader(_))
    ));
    let mut r = 0;
    assert!(matches!(
        parse_entry(br#"{"size":1}"#, &mut r),
        Err(CheckpointError::BadHeader(_))
    ));
}

#[test]
fn parse_header_reads_all_entries() {
    let h = r#"{"version":1,"params":[{"path":"x","shape":[1],"offset":0,"len":1},{"path":"y","shape":[],"offset":1,"len":1}]}"#;
    let es = parse_header(h).unwrap();
    assert_eq!(es.len(), 2);
    assert_eq!(es[1].path, "y");
    assert_eq!(es[1].offset, 1);
    assert!(parse_header(r#"{"version":1,"params":[]}"#).unwrap().is_empty());
    assert!(matches!(parse_header(r#"{"version":1,"params":[{}]}"#), Err(CheckpointError::BadHeader(_))));
    assert!(matches!(parse_header(""), Err(CheckpointError::BadHeader(_))));
}

#[test]
fn parse_entry_needs_each_key_exactly_once() {
    let key_set = r#"entry needs each of "path", "shape", "offset" and "len" exactly once"#;
    let mut p = 0;
    assert_eq!(message(parse_entry(br#"{"path":"w"}"#, &mut p)), key_set);
    assert_eq!(p, 12);
    let mut p = 0;
    let twice = br#"{"path":"w","shape":[1],"offset":0,"len":1,"len":1}"#;
    assert_eq!(message(parse_entry(twice, &mut p)), key_set);
    assert_eq!(p, twice.len());
    let mut p = 0;
    let e = parse_entry(br#"{ "offset" : 4 , "len":1,"path":"w","shape":[1] } ,"#, &mut p).unwrap();
    assert_eq!((e.path.as_str(), e.offset, e.len), ("w", 4, 1));
    assert_eq!(p, 49);
}

#[test]
fn parse_header_ends_with_the_closing_brace() {
    assert_eq!(
        message(parse_header(r#"{"version":1,"params":[]"#)),
        r#"expected "}" at offset 24"#
    );
    assert_eq!(
        message(parse_header(r#"{"version":1,"params":[]}x"#)),
        "unexpected data after the manifest"
    );
    assert_eq!(
        message(parse_header(r#"{"version":1,"params":[]} }"#)),
        "unexpected data after the manifest"
    );
    assert!(parse_header("{\"version\":1,\"params\":[] } \n").unwrap().is_empty());
    let one = r#"{"version":1,"params":[{"path":"w","shape":[1],"offset":0,"len":1}]"#;
    assert!(matches!(parse_header(one), Err(CheckpointError::BadHeader(_))));
}

fn message<T: std::fmt::Debug>(r: Result<T, CheckpointError>) -> String {
    match r {
        Err(CheckpointError::BadHeader(m)) => m,
        other => panic!("expected a bad header, got {other:?}"),
    }
}

#[test]
fn bad_header_messages_name_the_problem() {
    let mut p = 0;
    assert_eq!(message(read_string(b"\"open", &mut p)), "unterminated string");
    let mut p = 0;
    assert_eq!(message(read_int(b"x", &mut p)), "expected integer");
    let mut p = 0;
    assert_eq!(message(read_int(b"99999999999999999999999", &mut p)), "integer parse");
    let mut p = 0;
    assert_eq!(message(read_int_array(b"[1;2]", &mut p)), "expected ',' or ']' in array");
    let mut p = 0;
    assert_eq!(message(parse_entry(br#"{"size":1}"#, &mut p)), "unknown key 'size'");
    let mut p = 0;
    assert_eq!(message(parse_entry(br#"{"len":1 "path":"a"}"#, &mut p)), "expected ',' or '}'");
    assert_eq!(
        message(parse_header(r#"{"version":1,"params":[{"len":1}}"#)),
        r#"entry needs each of "path", "shape", "offset" and "len" exactly once"#
    );
    assert_eq!(
        message(parse_header(
            r#"{"version":1,"params":[{"path":"w","shape":[1],"offset":0,"len":1}}"#
        )),
        "expected ',' or ']'"
    );
}

#[test]
fn missing_token_message_shows_token_and_offset() {
    let mut p = 3;
    assert_eq!(message(expect(b"abcdef", &mut p, b":")), r#"expected ":" at offset 3"#);
    assert_eq!(message(parse_header("")), r#"expected "{" at offset 0"#);
    assert_eq!(
        message(parse_header(r#"{ "versio": 1}"#)),
        r#"expected "\"version\"" at offset 2"#
    );
}

#[test]
fn failed_reads_leave_the_cursor_where_they_stopped() {
    let mut p = 1;
    assert!(read_int(b"ax", &mut p).is_err());
    assert_eq!(p, 1);
    let mut p = 0;
    assert!(read_int(b"99999999999999999999999,", &mut p).is_err());
    assert_eq!(p, 23);
    let mut p = 0;
    assert!(read_string(b"x", &mut p).is_err());
    assert_eq!(p, 0);
    let mut p = 0;
    assert!(read_string(b"\"abc", &mut p).is_err());
    assert_eq!(p, 4);
    let mut p = 0;
    assert!(read_int_array(b"[1, 2 ;3]", &mut p).is_err());
    assert_eq!(p, 6);
    let mut p = 0;
    assert!(parse_entry(br#"{"len":1 "path":"a"}"#, &mut p).is_err());
    assert_eq!(p, 9);
    let mut p = 0;
    assert!(parse_entry(br#"{"size":1}"#, &mut p).is_err());
    assert_eq!(p, 8);
}
