//! Frames, and the JSON in them.

use lsp4a::json::{parse_json, pretty_json, show_json, write_json, Json, Members, Num};
use lsp4a::transport::{read_message, send_message, Frame};

fn json(text: &str) -> Json {
    parse_json(text.as_bytes()).unwrap()
}

fn failure(input: &[u8], closed: bool) -> String {
    match read_message(input, closed) {
        Frame::Failed(e) => e,
        other => panic!("{other:?}"),
    }
}

#[test]
fn a_frame_counts_the_bytes_of_its_body() {
    let frame = send_message(&json("{\"a\":\"é\"}"));
    assert_eq!(frame, "Content-Length: 10\r\n\r\n{\"a\":\"é\"}".as_bytes());
}

#[test]
fn what_is_sent_is_read_back_whatever_follows() {
    let text = "{\"id\":-3,\"list\":[1,null,true,\"x\\ny\"],\"o\":{\"k\":18446744073709551615}}";
    let first = send_message(&json(text));
    let mut wire = first.clone();
    wire.extend_from_slice(&send_message(&json("[]")));
    match read_message(&wire, false) {
        Frame::Message { value, used } => {
            assert_eq!(show_json(&value), text);
            assert_eq!(used, first.len());
            match read_message(&wire[used..], true) {
                Frame::Message { value, used } => {
                    assert_eq!(show_json(&value), "[]");
                    assert_eq!(used, wire.len() - first.len());
                }
                other => panic!("{other:?}"),
            }
        }
        other => panic!("{other:?}"),
    }
}

#[test]
fn every_beginning_of_a_frame_is_partial() {
    let frame = send_message(&json("{\"a\":1}"));
    for n in 0..frame.len() {
        assert!(matches!(read_message(&frame[..n], false), Frame::Partial), "{n}");
    }
}

#[test]
fn other_headers_are_passed_over_and_the_last_length_counts() {
    let wire = b"Content-Type: x\nContent-Length: 9\r\nContent-Length:  +2 \r\n \t\r\n{}rest";
    match read_message(wire, false) {
        Frame::Message { value, used } => {
            assert_eq!(show_json(&value), "{}");
            assert_eq!(&wire[used..], b"rest");
        }
        other => panic!("{other:?}"),
    }
}

#[test]
fn broken_frames_say_what_is_wrong() {
    assert_eq!(failure(b"", true), "server closed stdout before sending a complete frame");
    assert_eq!(
        failure(b"Content-Length: 2\r\n", true),
        "server closed stdout before sending a complete frame"
    );
    assert_eq!(failure(b"X: 1\r\n\r\n", false), "frame had no Content-Length header");
    assert_eq!(
        failure(b"Content-Length: \r\n\r\n", false),
        "bad Content-Length: cannot parse integer from empty string"
    );
    assert_eq!(
        failure(b"Content-Length: 1x\r\n\r\n", false),
        "bad Content-Length: invalid digit found in string"
    );
    assert_eq!(
        failure(b"Content-Length: 99999999999999999999\r\n\r\n", false),
        "bad Content-Length: number too large to fit in target type"
    );
    assert_eq!(failure(b"\xff\r\n\r\n", false), "stream did not contain valid UTF-8");
    assert_eq!(failure(b"Content-Length: 5\r\n\r\n{}", true), "failed to fill whole buffer");
    assert_eq!(
        failure(b"Content-Length: 1\r\n\r\n{", false),
        "frame body was not valid JSON: EOF while parsing an object at line 1 column 1"
    );
    assert!(matches!(
        read_message(b"Content-Length: 9223372036854775808\r\n\r\n", false),
        Frame::Overlong
    ));
}

#[test]
fn numbers_are_read_as_what_they_are() {
    assert_eq!(json("7").as_u64(), Some(7));
    assert_eq!(json("7").as_i64(), Some(7));
    assert_eq!(json("-7").as_u64(), None);
    assert_eq!(json("-7").as_i64(), Some(-7));
    assert_eq!(json("18446744073709551615").as_u64(), Some(u64::MAX));
    assert_eq!(json("18446744073709551615").as_i64(), None);
    assert_eq!(json("1.0").as_u64(), None);
    assert_eq!(json("1.0").as_i64(), None);
    assert_eq!(json("\"7\"").as_u64(), None);
    assert_eq!(Json::Num(Num::Negative(3)).as_u64(), Some(3));
    assert_eq!(Json::Num(Num::Other(serde_json::Number::from(-4))).as_i64(), Some(-4));
}

#[test]
fn numbers_are_written_as_they_were_read() {
    for text in ["0", "-1", "1.5", "1e300", "-9223372036854775808"] {
        assert_eq!(parse_json(&write_json(&json(text))).map(|j| show_json(&j)), Ok(show_json(&json(text))));
    }
    assert_eq!(show_json(&Json::Num(Num::Negative(5))), "5");
    assert_eq!(show_json(&Json::Num(Num::Unsigned(5))), "5");
}

#[test]
fn the_last_member_of_a_name_counts() {
    let j = json("{\"a\":1,\"a\":2}");
    assert_eq!(j.get("a").unwrap().as_u64(), Some(2));
    let built = Members::new()
        .with("a", Json::Bool(true))
        .with("b", Json::Null)
        .with("a", Json::Bool(false))
        .object();
    assert_eq!(show_json(&built), "{\"a\":false,\"b\":null}");
    assert!(built.get("b").unwrap().is_null());
    assert!(built.get("c").is_none());
    assert!(json("[1]").get("a").is_none());
}

#[test]
fn a_copy_is_the_same_value() {
    let text = "{\"a\":[1,-2,2.5,\"x\",null,{\"b\":false}]}";
    assert_eq!(show_json(&json(text).duplicate()), text);
}

#[test]
fn pretty_output_is_indented() {
    assert_eq!(pretty_json(&json("{\"a\":[1]}")), "{\n  \"a\": [\n    1\n  ]\n}");
}

#[test]
fn nesting_has_a_limit() {
    let deep = |n: usize| format!("{}{}", "[".repeat(n), "]".repeat(n));
    assert!(parse_json(deep(127).as_bytes()).is_ok());
    assert_eq!(
        parse_json(deep(128).as_bytes()).unwrap_err(),
        "recursion limit exceeded at line 1 column 128"
    );
}

#[test]
fn messages_are_read_back_in_turn() {
    let first = json("{\"id\":1}");
    let second = json("[\"é\\n\",-2]");
    let mut wire = send_message(&first);
    let size = wire.len();
    wire.extend(send_message(&second));
    let used = match read_message(&wire, true) {
        Frame::Message { value, used } => {
            assert_eq!(show_json(&value), "{\"id\":1}");
            used
        }
        other => panic!("{other:?}"),
    };
    assert_eq!(used, size);
    match read_message(&wire[used..], true) {
        Frame::Message { value, used } => {
            assert_eq!(show_json(&value), "[\"é\\n\",-2]");
            assert_eq!(used, wire.len() - size);
        }
        other => panic!("{other:?}"),
    }
    assert!(matches!(read_message(&[], true), Frame::Failed(_)));
}

#[test]
fn of_members_with_one_name_the_last_is_written() {
    let twice = Json::Object(vec![
        ("a".to_string(), Json::Bool(true)),
        ("b".to_string(), Json::Null),
        ("a".to_string(), Json::Bool(false)),
    ]);
    assert_eq!(write_json(&twice), b"{\"a\":false,\"b\":null}");
}
