use wson::boolean::false_parser;
use wson::boolean::true_parser;
use wson::null::null;
use wson::null::Null;

#[test]
fn pass_true() {
    assert_eq!(true_parser("true false"), Ok((" false", true)));
}

#[test]
fn failed_true() {
    assert!(true_parser("false").is_err());
}

#[test]
fn pass_false() {
    assert_eq!(false_parser("false true"), Ok((" true", false)));
}

#[test]
fn failed_false() {
    assert!(false_parser("true").is_err());
}

#[test]
fn pass_null() {
    assert_eq!(null("null"), Ok(("", Null)));
}

#[test]
fn failed_null() {
    assert!(null("a").is_err());
    assert!(null("nul").is_err());
}
