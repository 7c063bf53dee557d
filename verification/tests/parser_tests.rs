use json_parse::parser::parse_array;
use json_parse::parser::parse_bool;
use json_parse::parser::parse_float;
use json_parse::parser::parse_int;
use json_parse::parser::parse_null;
use json_parse::parser::parse_object;
use json_parse::parser::parse_string;
use json_parse::parser::parse_value;
use json_parse::parser::parse_value_at;
use json_parse::parser::sep_with_space;
use json_parse::parser::skip_space;
use json_parse::value::ErrorKind;
use json_parse::value::JsonValue;

#[test]
fn test_parse_null() {
    let input = "null";
    assert!(parse_null(input, 0).is_ok());
}

#[test]
fn test_parse_bool() {
    let input = "true";
    let (result, _) = parse_bool(input, 0).unwrap();
    assert!(result);

    let input = "false";
    let (result, _) = parse_bool(input, 0).unwrap();
    assert!(!result);
}

#[test]
fn test_parse_num() {
    let mut_input = "123";
    let result: i64 = parse_int(mut_input, 0).unwrap().0;
    assert_eq!(result, 123);

    let input = "-123";
    let result = JsonValue::Int(parse_int(input, 0).unwrap().0);
    assert_eq!(result, JsonValue::Int(-123));

    let input = "123.0";
    let (text, _) = parse_float(input, 0).unwrap();
    let result: f64 = text.parse().unwrap();
    assert_eq!(result, 123.0);

    let input = "-123.456";
    let result = parse_value(input).unwrap();
    assert_eq!(result, JsonValue::Number("-123.456".to_string()));
    match result {
        JsonValue::Number(t) => assert_eq!(t.parse::<f64>().unwrap(), -123.456),
        _ => panic!("expected a number"),
    }
}

#[test]
fn test_parse_string() {
    let input = r#""hello""#;
    let (result, _) = parse_string(input, 0).unwrap();
    assert_eq!(result, "hello");
}

#[test]
fn test_parse_array() {
    let input = r#"[1, -2, 3]"#;
    let (result, _) = parse_array(input, 0).unwrap();

    assert_eq!(
        result,
        vec![
            JsonValue::Number("1".to_string()),
            JsonValue::Number("-2".to_string()),
            JsonValue::Number("3".to_string())
        ]
    );
    let as_floats: Vec<f64> = result
        .iter()
        .map(|v| match v {
            JsonValue::Number(t) => t.parse().unwrap(),
            _ => panic!("expected a number"),
        })
        .collect();
    assert_eq!(as_floats, vec![1.0, -2.0, 3.0]);
}

#[test]
fn test_parse_object() {
    let input = "{
        \"a\": \"John Doe\",
        \"b\": [1.0, -2.0]
    }";
    let (result, _) = parse_object(input, 0).unwrap();
    let mut expected: Vec<(String, JsonValue)> = Vec::new();
    expected.push(("a".to_string(), JsonValue::String("John Doe".to_string())));
    expected.push((
        "b".to_string(),
        JsonValue::Array(vec![
            JsonValue::Number("1.0".to_string()),
            JsonValue::Number("-2.0".to_string()),
        ]),
    ));
    println!("{:?}", expected);
    assert_eq!(result, expected);
}

#[test]
fn boolean_literals_parse_to_bool() {
    assert_eq!(parse_value("true").unwrap(), JsonValue::Bool(true));
    assert_eq!(parse_value("false").unwrap(), JsonValue::Bool(false));
}

#[test]
fn integer_round_trip_is_exact() {
    assert_eq!(parse_int("9223372036854775807", 0).unwrap().0, i64::MAX);
    assert_eq!(parse_int("-9223372036854775808", 0).unwrap().0, i64::MIN);
    assert_eq!(parse_int("0", 0).unwrap(), (0, 1));
    assert_eq!(parse_int("-7", 0).unwrap(), (-7, 2));
}

#[test]
fn integer_overflow_is_reported() {
    let e = parse_int("9223372036854775808", 0).unwrap_err();
    assert_eq!(e.kind, ErrorKind::NumericOverflow);
    assert_eq!(e.at, 0);
    let e = parse_int("-9223372036854775809", 0).unwrap_err();
    assert_eq!(e.kind, ErrorKind::NumericOverflow);
}

#[test]
fn string_stops_at_first_quote() {
    assert_eq!(
        parse_value("\"hello\"").unwrap(),
        JsonValue::String("hello".to_string())
    );
    // no escape processing: a raw embedded quote terminates the string early
    let (s, p) = parse_string("\"a\"b\"", 0).unwrap();
    assert_eq!(s, "a");
    assert_eq!(p, 3);
    assert_eq!(
        parse_value("\"a\"b\"").unwrap(),
        JsonValue::String("a".to_string())
    );
}

#[test]
fn empty_and_plain_arrays() {
    assert_eq!(parse_value("[]").unwrap(), JsonValue::Array(vec![]));
    assert_eq!(
        parse_value("[1, -2, 3]").unwrap(),
        JsonValue::Array(vec![
            JsonValue::Number("1".to_string()),
            JsonValue::Number("-2".to_string()),
            JsonValue::Number("3".to_string()),
        ])
    );
}

#[test]
fn empty_and_plain_objects() {
    assert_eq!(parse_value("{}").unwrap(), JsonValue::Object(vec![]));
    assert_eq!(
        parse_value("{\"a\": 1}").unwrap(),
        JsonValue::Object(vec![("a".to_string(), JsonValue::Number("1".to_string()))])
    );
}

#[test]
fn duplicate_keys_last_write_wins() {
    assert_eq!(
        parse_value("{\"a\": 1, \"a\": 2}").unwrap(),
        JsonValue::Object(vec![("a".to_string(), JsonValue::Number("2".to_string()))])
    );
}

#[test]
fn trailing_comma_fails() {
    let e = parse_value("[1,]").unwrap_err();
    assert_eq!(e.kind, ErrorKind::NoAlternativeMatched);
    assert!(parse_value("[1, -2,]").is_err());
    let e = parse_value("{\"a\": 1,}").unwrap_err();
    assert_eq!(e.kind, ErrorKind::TokenExpected);
}

#[test]
fn whitespace_around_tokens_is_irrelevant() {
    let tight = parse_value("[1,-2,3]").unwrap();
    let airy = parse_value("[ \t1 ,\n  -2\t,3\r\n ]").unwrap();
    assert_eq!(tight, airy);

    let tight = parse_value("{\"a\":1,\"b\":[true,null]}").unwrap();
    let airy = parse_value("{ \"a\"\t: 1 ,\n\"b\" : [ true , null ]\n}").unwrap();
    assert_eq!(tight, airy);
}

#[test]
fn malformed_input_fails_cleanly() {
    let e = parse_value("d").unwrap_err();
    assert_eq!(e.kind, ErrorKind::NoAlternativeMatched);
    assert_eq!(e.at, 0);

    let e = parse_value("{").unwrap_err();
    assert_eq!(e.kind, ErrorKind::UnbalancedDelimiter);

    assert!(parse_value("[1").is_err());
    assert!(parse_value("\"abc").is_err());

    let e = parse_string("\"abc", 0).unwrap_err();
    assert_eq!(e.kind, ErrorKind::UnterminatedString);
    assert_eq!(e.at, 0);
}

#[test]
fn leaf_values_take_no_leading_whitespace() {
    // only structural punctuation is whitespace-wrapped
    assert!(parse_value(" 1").is_err());
    assert!(parse_value("[ 1 ]").is_ok());
}

#[test]
fn dispatcher_prefers_float_form() {
    // an all-digit literal is absorbed by the float form, never Int
    assert_eq!(
        parse_value("123").unwrap(),
        JsonValue::Number("123".to_string())
    );
    // a broken exponent fails the float form and falls back to the integer
    let (v, p) = parse_value_at("1e", 0).unwrap();
    assert_eq!(v, JsonValue::Int(1));
    assert_eq!(p, 1);
}

#[test]
fn float_forms_cover_fraction_and_exponent() {
    assert_eq!(parse_float("3.", 0).unwrap().0, "3.");
    assert_eq!(parse_float("-.5", 0).unwrap().0, "-.5");
    assert_eq!(parse_float("6.02e23", 0).unwrap().0, "6.02e23");
    assert_eq!(parse_float("1E-9", 0).unwrap().0, "1E-9");
    assert!(parse_float("-x", 0).is_err());
}

#[test]
fn trailing_input_is_left_to_the_caller() {
    let (v, p) = parse_value_at("123abc", 0).unwrap();
    assert_eq!(v, JsonValue::Number("123".to_string()));
    assert_eq!(p, 3);
    assert!(parse_value("123abc").is_ok());
}

#[test]
fn token_helper_wraps_whitespace() {
    assert_eq!(sep_with_space(" , ", 0, ',').unwrap(), 3);
    assert_eq!(sep_with_space(",", 0, ',').unwrap(), 1);
    let e = sep_with_space("  x", 0, ',').unwrap_err();
    assert_eq!(e.kind, ErrorKind::TokenExpected);
    assert_eq!(e.at, 2);
    assert_eq!(skip_space(" \t\nx", 0), 3);
    assert_eq!(skip_space("x", 0), 0);
}

#[test]
fn nested_document_parses() {
    let input = "{
        \"name\": \"John Doe\",
        \"age\": 30,
        \"is_student\": false,
        \"marks\": [90.2, -80.3, 85.1],
        \"address\": {
            \"city\": \"New York\",
            \"zip\": 10001
        }
    }";
    let v = parse_value(input).unwrap();
    match v {
        JsonValue::Object(members) => {
            assert_eq!(members.len(), 5);
            assert_eq!(members[0].0, "name");
            assert_eq!(
                members[3].1,
                JsonValue::Array(vec![
                    JsonValue::Number("90.2".to_string()),
                    JsonValue::Number("-80.3".to_string()),
                    JsonValue::Number("85.1".to_string()),
                ])
            );
            match &members[4].1 {
                JsonValue::Object(address) => {
                    assert_eq!(address.len(), 2);
                    assert_eq!(address[1].0, "zip");
                }
                _ => panic!("expected an object"),
            }
        }
        _ => panic!("expected an object"),
    }
}
