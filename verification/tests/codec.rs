//! Tests of the JSON codec: rendering, decoding, and the echo round trip.

use user_service::json::{parse_user, serialize_user, serialize_users};
use user_service::user::{RequestError, User};

fn user(id: i32, name: &str) -> User {
    User { id, name: name.to_string() }
}

#[test]
fn serialize_simple_record() {
    assert_eq!(serialize_user(&user(7, "Zoe")), "{\"id\":7,\"name\":\"Zoe\"}");
}

#[test]
fn serialize_negative_id() {
    assert_eq!(serialize_user(&user(-42, "a")), "{\"id\":-42,\"name\":\"a\"}");
}

#[test]
fn serialize_zero_id() {
    assert_eq!(serialize_user(&user(0, "")), "{\"id\":0,\"name\":\"\"}");
}

#[test]
fn serialize_escapes_quote_and_backslash() {
    assert_eq!(
        serialize_user(&user(1, "q\"w\\e")),
        "{\"id\":1,\"name\":\"q\\\"w\\\\e\"}"
    );
}

#[test]
fn serialize_extreme_ids() {
    assert_eq!(
        serialize_user(&user(i32::MAX, "m")),
        "{\"id\":2147483647,\"name\":\"m\"}"
    );
    assert_eq!(
        serialize_user(&user(i32::MIN, "m")),
        "{\"id\":-2147483648,\"name\":\"m\"}"
    );
}

#[test]
fn serialize_users_array() {
    let l = vec![user(1, "Bob"), user(2, "Eve")];
    assert_eq!(
        serialize_users(&l),
        "[{\"id\":1,\"name\":\"Bob\"},{\"id\":2,\"name\":\"Eve\"}]"
    );
}

#[test]
fn serialize_users_empty_array() {
    let l: Vec<User> = Vec::new();
    assert_eq!(serialize_users(&l), "[]");
}

#[test]
fn parse_simple_record() {
    let u = parse_user("{\"id\":7,\"name\":\"Zoe\"}").unwrap();
    assert_eq!(u.id, 7);
    assert_eq!(u.name, "Zoe");
}

#[test]
fn parse_accepts_blank_space_and_reversed_keys() {
    let u = parse_user(" {\t\"name\" : \"A\" ,\n \"id\" : -12 }\r").unwrap();
    assert_eq!(u.id, -12);
    assert_eq!(u.name, "A");
}

#[test]
fn parse_unescapes_all_accepted_escapes() {
    let u = parse_user("{\"id\":0,\"name\":\"a\\\"b\\\\c\\/d\\n\\t\\r\\b\\f\"}").unwrap();
    assert_eq!(u.name, "a\"b\\c/d\n\t\r\u{8}\u{c}");
}

#[test]
fn parse_extreme_ids() {
    assert_eq!(parse_user("{\"id\":2147483647,\"name\":\"x\"}").unwrap().id, i32::MAX);
    assert_eq!(parse_user("{\"id\":-2147483648,\"name\":\"x\"}").unwrap().id, i32::MIN);
}

#[test]
fn parse_rejects_out_of_range_ids() {
    assert_eq!(
        parse_user("{\"id\":2147483648,\"name\":\"x\"}").unwrap_err(),
        RequestError::MalformedRequest
    );
    assert_eq!(
        parse_user("{\"id\":-2147483649,\"name\":\"x\"}").unwrap_err(),
        RequestError::MalformedRequest
    );
    assert!(parse_user("{\"id\":99999999999999999999,\"name\":\"x\"}").is_err());
}

#[test]
fn parse_rejects_redundant_leading_zeros() {
    assert!(parse_user("{\"id\":007,\"name\":\"x\"}").is_err());
    assert!(parse_user("{\"id\":01,\"name\":\"x\"}").is_err());
    assert_eq!(parse_user("{\"id\":0,\"name\":\"x\"}").unwrap().id, 0);
    assert_eq!(parse_user("{\"id\":-0,\"name\":\"x\"}").unwrap().id, 0);
}

#[test]
fn parse_unicode_escapes() {
    assert_eq!(parse_user("{\"id\":1,\"name\":\"\\u0041\\u00e9\"}").unwrap().name, "A\u{e9}");
    assert_eq!(parse_user("{\"id\":1,\"name\":\"\\uD83D\\uDE00\"}").unwrap().name, "\u{1F600}");
    assert!(parse_user("{\"id\":1,\"name\":\"\\uD83D\"}").is_err());
    assert!(parse_user("{\"id\":1,\"name\":\"\\uDE00x\"}").is_err());
    assert!(parse_user("{\"id\":1,\"name\":\"\\u12G4\"}").is_err());
    assert!(parse_user("{\"id\":1,\"name\":\"\\u12\"}").is_err());
}

#[test]
fn parse_decodes_escaped_keys() {
    assert_eq!(parse_user("{\"\\u0069d\":5,\"name\":\"x\"}").unwrap().id, 5);
}

#[test]
fn parse_rejects_raw_control_characters() {
    assert!(parse_user("{\"id\":1,\"name\":\"a\nb\"}").is_err());
    assert!(parse_user("{\"id\":1,\"name\":\"a\tb\"}").is_err());
}

#[test]
fn parse_tolerates_unknown_members() {
    assert_eq!(parse_user("{\"id\":3,\"z\":1,\"name\":\"x\"}").unwrap().id, 3);
    assert_eq!(parse_user("{\"id\":1,\"name\":\"x\",\"z\":1}").unwrap().name, "x");
    assert_eq!(
        parse_user("{\"a\":null,\"b\":true,\"c\":false,\"id\":9,\"d\":-1.5e-3,\"name\":\"x\",\"e\":\"s\"}")
            .unwrap()
            .id,
        9
    );
    assert_eq!(parse_user("{\"z\":{\"deep\":[1,2,{\"x\":[]}]},\"id\":4,\"name\":\"n\"}").unwrap().id, 4);
    assert_eq!(parse_user("{\"z\":1,\"z\":2,\"id\":5,\"name\":\"x\"}").unwrap().id, 5);
}

#[test]
fn parse_rejects_duplicate_known_members() {
    assert!(parse_user("{\"id\":1,\"id\":2,\"name\":\"x\"}").is_err());
    assert!(parse_user("{\"id\":1,\"name\":\"a\",\"name\":\"b\"}").is_err());
}

#[test]
fn parse_rejects_malformed_unknown_values() {
    assert!(parse_user("{\"z\":tru,\"id\":1,\"name\":\"x\"}").is_err());
    assert!(parse_user("{\"z\":[1,,2],\"id\":1,\"name\":\"x\"}").is_err());
    assert!(parse_user("{\"z\":01,\"id\":1,\"name\":\"x\"}").is_err());
    assert!(parse_user("{\"z\":1.,\"id\":1,\"name\":\"x\"}").is_err());
    assert!(parse_user("{\"z\":{\"a\":1,},\"id\":1,\"name\":\"x\"}").is_err());
}

#[test]
fn serialize_escapes_control_characters() {
    assert_eq!(serialize_user(&user(1, "a\nb\tc")), "{\"id\":1,\"name\":\"a\\nb\\tc\"}");
    assert_eq!(serialize_user(&user(1, "\u{8}\u{c}\r")), "{\"id\":1,\"name\":\"\\b\\f\\r\"}");
    assert_eq!(serialize_user(&user(1, "\u{1}\u{1f}")), "{\"id\":1,\"name\":\"\\u0001\\u001f\"}");
}

#[test]
fn parse_rejects_missing_members() {
    assert!(parse_user("{\"id\":1}").is_err());
    assert!(parse_user("{\"name\":\"x\"}").is_err());
    assert!(parse_user("{}").is_err());
    assert!(parse_user("").is_err());
}

#[test]
fn parse_rejects_wrong_shapes() {
    assert!(parse_user("{\"id\":\"1\",\"name\":\"x\"}").is_err());
    assert!(parse_user("{\"id\":1,\"name\":5}").is_err());
    assert!(parse_user("{\"id\":1,\"name\":\"x\"").is_err());
    assert!(parse_user("{\"id\":1,\"name\":\"x\"}z").is_err());
    assert!(parse_user("[{\"id\":1,\"name\":\"x\"}]").is_err());
    assert!(parse_user("{\"id\":-,\"name\":\"x\"}").is_err());
    assert!(parse_user("{\"id\":1,\"name\":\"x\\q\"}").is_err());
    assert!(parse_user("{\"id\":1.5,\"name\":\"x\"}").is_err());
    assert!(parse_user("{\"id\":1e2,\"name\":\"x\"}").is_err());
    assert!(parse_user("{\"idx\":1,\"name\":\"x\"}").is_err());
}

#[test]
fn round_trip_plain_and_escaped_names() {
    let cases = [
        user(7, "Zoe"),
        user(-1, ""),
        user(0, "a\"b\\c"),
        user(i32::MIN, "line\nbreak"),
        user(i32::MAX, "h\u{e9}llo \u{2713}"),
    ];
    for c in cases {
        let rendered = serialize_user(&c);
        let back = parse_user(&rendered).unwrap();
        assert_eq!(back.id, c.id);
        assert_eq!(back.name, c.name);
    }
}
