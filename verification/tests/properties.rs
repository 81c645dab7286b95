use wson::parse;
use wson::number::Number;
use wson::ParseErrorKind;
use wson::Value;

// Integral literals parse to the exact integer variant, with the
// literal's sign and its full decimal value, up to the 64-bit limits.
#[test]
fn integer_literals_are_exact() {
    assert_eq!(parse("3").unwrap(), Value::Number(Number::PositiveInteger(3)));
    assert_eq!(
        parse("-32").unwrap(),
        Value::Number(Number::NegativeInteger(-32))
    );
    assert_eq!(
        parse("18446744073709551615").unwrap(),
        Value::Number(Number::PositiveInteger(u64::MAX))
    );
    assert_eq!(
        parse("-9223372036854775808").unwrap(),
        Value::Number(Number::NegativeInteger(i64::MIN))
    );
}

// A syntactically integral literal whose magnitude exceeds the 64-bit
// representation is reported, not mangled.
#[test]
fn oversized_integer_literals_are_errors() {
    let err = wson::number::number("18446744073709551616").unwrap_err();
    assert_eq!(err.kind, ParseErrorKind::NumberTooLarge);
    let err = wson::number::number("-9223372036854775809").unwrap_err();
    assert_eq!(err.kind, ParseErrorKind::NumberTooLarge);
    assert!(parse("18446744073709551616").is_err());
    assert!(parse("-9223372036854775809").is_err());
}

// A literal with a fraction or exponent becomes the float variant; its
// canonical text converts to exactly the literal's mathematical value.
#[test]
fn fractional_literals_become_floats() {
    let value = parse("3.2E-1").unwrap();
    assert_eq!(value, Value::Number(Number::Float("3.2E-1".to_string())));
    match value {
        Value::Number(Number::Float(text)) => {
            assert_eq!(text.parse::<f64>().unwrap(), 0.32);
        }
        other => panic!("expected a float, got {:?}", other),
    }
    match parse("-1E12").unwrap() {
        Value::Number(Number::Float(text)) => {
            assert_eq!(text, "-1E+12");
            assert_eq!(text.parse::<f64>().unwrap(), -1e12);
        }
        other => panic!("expected a float, got {:?}", other),
    }
    match parse("3.2e-2").unwrap() {
        Value::Number(Number::Float(text)) => {
            assert_eq!(text, "3.2E-2");
            assert_eq!(text.parse::<f64>().unwrap(), 0.032);
        }
        other => panic!("expected a float, got {:?}", other),
    }
}

// A bare exponent with no fraction still turns the whole number into
// the float variant.
#[test]
fn bare_exponent_is_still_a_float() {
    assert_eq!(
        parse("1e3").unwrap(),
        Value::Number(Number::Float("1E+3".to_string()))
    );
}

// The three spellings of an empty object are one and the same value.
#[test]
fn empty_objects_are_identical() {
    let a = parse("{}").unwrap();
    let b = parse("{ }").unwrap();
    let c = parse("{\n\n}").unwrap();
    assert_eq!(a, Value::Object(vec![]));
    assert_eq!(a, b);
    assert_eq!(b, c);
}

// Surrounding whitespace never changes the parsed value.
#[test]
fn whitespace_around_a_value_is_ignored() {
    assert_eq!(parse("3").unwrap(), parse(" 3 ").unwrap());
    assert_eq!(parse("true").unwrap(), parse("\ttrue\n").unwrap());
}

// A later member with the same key overwrites the earlier one.
#[test]
fn duplicate_keys_keep_the_last_value() {
    let value = parse("{\"a\":1,\"a\":2}").unwrap();
    assert_eq!(
        value,
        Value::Object(vec![(
            "a".to_string(),
            Value::Number(Number::PositiveInteger(2))
        )])
    );
}

// Leftover input after a complete value is a trailing-input error,
// never a truncated success.
#[test]
fn trailing_garbage_is_rejected() {
    let err = parse("{} garbage").unwrap_err();
    assert_eq!(err.kind, ParseErrorKind::TrailingInput);
    let err = parse("nullx").unwrap_err();
    assert_eq!(err.kind, ParseErrorKind::TrailingInput);
    let err = parse("01").unwrap_err();
    assert_eq!(err.kind, ParseErrorKind::TrailingInput);
}

// Escapes are recognised but never decoded: the string value carries
// the backslash sequence verbatim.
#[test]
fn escapes_stay_verbatim() {
    let value = parse("\"a\\\"b\"").unwrap();
    assert_eq!(value, Value::String("a\\\"b".to_string()));
}

// The literal tokens parse to their dedicated variants.
#[test]
fn literal_tokens() {
    assert_eq!(parse("null").unwrap(), Value::Null);
    assert_eq!(parse("true").unwrap(), Value::True);
    assert_eq!(parse("false").unwrap(), Value::False);
    assert_eq!(parse("\"hello\"").unwrap(), Value::String("hello".to_string()));
}

// Inputs that match no grammar alternative are unexpected-character
// errors.
#[test]
fn unexpected_input_is_rejected() {
    let err = parse("x").unwrap_err();
    assert_eq!(err.kind, ParseErrorKind::UnexpectedChar);
    let err = parse("").unwrap_err();
    assert_eq!(err.kind, ParseErrorKind::UnexpectedChar);
    assert!(parse("{\"a\":1").is_err());
    assert!(parse("[1,").is_err());
    assert!(parse("[1, 2").is_err());
}

// Whitespace is space, tab and newline; a carriage return is not part
// of the grammar and makes the document ill-formed.
#[test]
fn carriage_return_is_not_whitespace() {
    assert!(parse("{\r}").is_err());
    assert!(parse("\r3").is_err());
}

// A minus sign before a lone zero still selects the negative variant,
// with value zero.
#[test]
fn negative_zero_is_a_negative_integer() {
    assert_eq!(
        parse("-0").unwrap(),
        Value::Number(Number::NegativeInteger(0))
    );
}

// Nesting recurses through the value grammar at any depth.
#[test]
fn deeply_nested_arrays() {
    assert_eq!(
        parse("[[[[1]]]]").unwrap(),
        Value::Array(vec![Value::Array(vec![Value::Array(vec![Value::Array(
            vec![Value::Number(Number::PositiveInteger(1))]
        )])])])
    );
}

// Arrays keep their elements in source order, nested values included.
#[test]
fn nested_arrays_keep_order() {
    let value = parse("[[1], [], [2, 3]]").unwrap();
    assert_eq!(
        value,
        Value::Array(vec![
            Value::Array(vec![Value::Number(Number::PositiveInteger(1))]),
            Value::Array(vec![]),
            Value::Array(vec![
                Value::Number(Number::PositiveInteger(2)),
                Value::Number(Number::PositiveInteger(3))
            ]),
        ])
    );
}
