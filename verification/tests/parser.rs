use wson::array;
use wson::members;
use wson::object;
use wson::parse;
use wson::ws;
use wson::number::Number;
use wson::Value;

#[test]
fn parse_zero() {
    let value = parse("0").unwrap();
    assert_eq!(value, Value::Number(Number::PositiveInteger(0)));
}

#[test]
fn empty_array() {
    let value = array("[]").unwrap();
    assert_eq!(value, ("", vec![]));
}

#[test]
fn a_number_array() {
    let value = array("[1]").unwrap();
    assert_eq!(value, ("", vec![Value::Number(Number::PositiveInteger(1))]));
}

#[test]
fn multiple_number_array() {
    let value = array("[1, 2]").unwrap();
    assert_eq!(
        value,
        (
            "",
            vec![
                Value::Number(Number::PositiveInteger(1)),
                Value::Number(Number::PositiveInteger(2))
            ]
        )
    );
}

#[test]
fn multiple_string_and_number_array() {
    let value = array("[1, \"str\", 2.5e3]").unwrap();
    assert_eq!(
        value,
        (
            "",
            vec![
                Value::Number(Number::PositiveInteger(1)),
                Value::String("str".to_string()),
                Value::Number(Number::Float("2.5E+3".to_string()))
            ]
        )
    );
    assert_eq!("2.5E+3".parse::<f64>().unwrap(), 2500.0);
}

#[test]
fn parse_empty_object() {
    let value = object("{ }").unwrap();
    assert_eq!(value, ("", vec![]));
}

#[test]
fn parse_empty_object2() {
    let value = object(" { } ").unwrap();
    assert_eq!(value, ("", vec![]));
}

#[test]
fn parse_a_object() {
    let value = object("{\"key\": 1}").unwrap();
    let expected = vec![("key".to_string(), Value::Number(Number::PositiveInteger(1)))];
    assert_eq!(value, ("", expected));
}

#[test]
fn a_members() {
    let value = members("\"key\": 1").unwrap();
    assert_eq!(
        value,
        (
            "",
            vec![("key".to_string(), Value::Number(Number::PositiveInteger(1)))]
        )
    );
}

#[test]
fn multi_members() {
    let value = members("\"key1\": 1, \"key2\": 2").unwrap();
    assert_eq!(
        value,
        (
            "",
            vec![
                (
                    "key1".to_string(),
                    Value::Number(Number::PositiveInteger(1))
                ),
                (
                    "key2".to_string(),
                    Value::Number(Number::PositiveInteger(2))
                ),
            ]
        )
    );
}

#[test]
fn parse_object() {
    let value = parse(
        "{
           \"title\": \"TITLE1\",
           \"revision\": 12
         }",
    )
    .unwrap();
    let expected = Value::Object(vec![
        ("title".to_string(), Value::String("TITLE1".to_string())),
        (
            "revision".to_string(),
            Value::Number(Number::PositiveInteger(12)),
        ),
    ]);
    assert_eq!(value, expected);
}

#[test]
fn ws_newline() {
    let value = ws("
")
    .unwrap();
    assert_eq!(value, ("", "\n"));
}

#[test]
fn parse_newline_object() {
    let value = parse(
        "{

}",
    )
    .unwrap();
    assert_eq!(value, Value::Object(vec![]));
}

#[test]
fn parse_newline_object2() {
    let value = parse(
        "{

            }",
    )
    .unwrap();
    assert_eq!(value, Value::Object(vec![]));
}

#[test]
fn parse_with_garbage() {
    let result = parse("{} i like garbage");
    assert!(result.is_err());
}

#[test]
fn parse_example() {
    let value = parse(
        "{\"menu\": {
           \"id\": \"file\",
           \"value\": \"File\",
           \"popup\": {
             \"menuitem\": [
               {\"value\": \"New\", \"onclick\": \"CreateNewDoc()\"},
               {\"value\": \"Open\", \"onclick\": \"OpenDoc()\"},
               {\"value\": \"Close\", \"onclick\": \"CloseDoc()\"}
             ]
           }
        }}",
    )
    .unwrap();
    let expected = Value::Object(vec![(
        "menu".to_string(),
        Value::Object(vec![
            ("id".to_string(), Value::String("file".to_string())),
            ("value".to_string(), Value::String("File".to_string())),
            (
                "popup".to_string(),
                Value::Object(vec![(
                    "menuitem".to_string(),
                    Value::Array(vec![
                        Value::Object(vec![
                            ("value".to_string(), Value::String("New".to_string())),
                            (
                                "onclick".to_string(),
                                Value::String("CreateNewDoc()".to_string()),
                            ),
                        ]),
                        Value::Object(vec![
                            ("value".to_string(), Value::String("Open".to_string())),
                            (
                                "onclick".to_string(),
                                Value::String("OpenDoc()".to_string()),
                            ),
                        ]),
                        Value::Object(vec![
                            ("value".to_string(), Value::String("Close".to_string())),
                            (
                                "onclick".to_string(),
                                Value::String("CloseDoc()".to_string()),
                            ),
                        ]),
                    ]),
                )]),
            ),
        ]),
    )]);
    assert_eq!(value, expected);
}
