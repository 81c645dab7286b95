use wson::string::character;
use wson::string::escape;
use wson::string::hex;
use wson::string::string;
use wson::string::JsonString;

#[test]
fn parse_empty_string() {
    let value = string("\"\"").unwrap();
    assert_eq!(value, ("", JsonString("".to_string())));
}

#[test]
fn parse_hello_string() {
    let value = string("\"hello\"").unwrap();
    assert_eq!(value, ("", JsonString("hello".to_string())));
}

#[test]
fn parse_utf8_string() {
    let value = string("\"こんにちは\"").unwrap();
    assert_eq!(value, ("", JsonString("こんにちは".to_string())));
}

#[test]
fn parse_alphanum_string() {
    let value = string("\"abc123\"").unwrap();
    assert_eq!(value, ("", JsonString("abc123".to_string())));
}

#[test]
fn hex_five() {
    let value = hex("5").unwrap();
    assert_eq!(value, ("", "5"));
}

#[test]
fn hex_f() {
    let value = hex("f").unwrap();
    assert_eq!(value, ("", "f"));
}

#[test]
fn hex_large_f() {
    let value = hex("F").unwrap();
    assert_eq!(value, ("", "F"));
}

#[test]
fn escape_slash() {
    let value = escape("/").unwrap();
    assert_eq!(value, ("", "/"));
}

#[test]
fn escape_unicode() {
    let value = escape("u1234").unwrap();
    assert_eq!(value, ("", "u1234"));
}

#[test]
fn character_unicode() {
    let value = character("\\u1234").unwrap();
    assert_eq!(value, ("", "\\u1234"));
}

#[test]
fn string_keeps_escapes_verbatim() {
    let value = string("\"He\\\"\\\"llo\"").unwrap();
    assert_eq!(value, ("", JsonString("He\\\"\\\"llo".to_string())));
}

#[test]
fn string_without_closing_quote_fails() {
    assert!(string("\"abc").is_err());
    assert!(string("abc").is_err());
}

#[test]
fn lone_backslash_is_a_plain_character() {
    let value = string("\"a\\qb\"").unwrap();
    assert_eq!(value, ("", JsonString("a\\qb".to_string())));
}
