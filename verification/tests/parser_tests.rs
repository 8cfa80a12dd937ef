use jsonparse::error::ErrorCode;
use jsonparse::parser::JsonParser;
use jsonparse::value::JsonValue;

fn parser_for(text: &str) -> JsonParser {
    JsonParser::new(text.chars().collect())
}

#[test]
fn parse_null() {
    let mut parser = parser_for("   null  ");
    let result = parser.parse_null();
    assert_eq!(result, Ok(JsonValue::Null));
}

#[test]
fn parse_number() {
    let mut parser = parser_for("  4.2342 ");
    let result = parser.parse_num();
    let token = result.unwrap().get_num().unwrap();
    assert_eq!(token.parse::<f64>().unwrap(), 4.2342);
}

#[test]
fn parse_number_2() {
    let mut parser = parser_for("  16237  ");
    let result = parser.parse_num();
    let token = result.unwrap().get_num().unwrap();
    assert_eq!(token.parse::<f64>().unwrap(), 16237.0);
}

#[test]
fn parse_number_error() {
    let mut parser = parser_for("  abcdef  ");
    let result = parser.parse_num();
    match result {
        Ok(_) => assert!(false),
        Err(e) => assert_eq!(e.reason, ErrorCode::NumberParsing),
    }
}

#[test]
fn parse_string() {
    let mut parser = parser_for("  \"String\" ");
    let result = parser.parse_string();
    assert_eq!(result, Ok(JsonValue::Str("String".to_string())));
}

#[test]
fn parse_string_error() {
    let mut parser = parser_for("\"String");
    let result = parser.parse_string();
    match result {
        Ok(_) => assert!(false),
        Err(err) => assert_eq!(err.reason, ErrorCode::UnclosedStringLiteral),
    }
}

#[test]
fn parse_bool() {
    let mut parser = parser_for("false");
    let result = parser.parse_bool();
    assert_eq!(result, Ok(JsonValue::Bool(false)));

    parser = parser_for("true");
    let result = parser.parse_bool();
    assert_eq!(result, Ok(JsonValue::Bool(true)));
}

#[test]
fn parse_bool_array() {
    let mut parser = parser_for("[ true , true , true ]");
    let result = parser.parse_array();
    match result {
        Ok(val) => {
            let expected = JsonValue::Array(vec![
                JsonValue::Bool(true),
                JsonValue::Bool(true),
                JsonValue::Bool(true),
            ]);
            assert_eq!(val, expected);
        }
        Err(why) => {
            panic!("{:?}", why);
        }
    }
}

#[test]
fn parse_num_array() {
    let mut parser = parser_for("[1.2, 4.2, 1.2, 4.5]");
    let result = parser.parse_array();
    match result {
        Ok(value) => {
            let elems = value.into_array().unwrap();
            let nums: Vec<f64> = elems
                .into_iter()
                .map(|v| v.get_num().unwrap().parse::<f64>().unwrap())
                .collect();
            assert_eq!(nums, vec![1.2, 4.2, 1.2, 4.5]);
        }
        Err(err) => {
            panic!("{:?}", err);
        }
    }
}

#[test]
fn parse_nested_array() {
    let mut parser = parser_for("[[true, true], [true, false]]");
    let result = parser.parse_value();
    match result {
        Ok(value) => {
            let expected = JsonValue::Array(vec![
                JsonValue::Array(vec![JsonValue::Bool(true), JsonValue::Bool(true)]),
                JsonValue::Array(vec![JsonValue::Bool(true), JsonValue::Bool(false)]),
            ]);
            assert_eq!(expected, value);
        }
        Err(err) => {
            panic!("{:?}", err);
        }
    }
}

#[test]
fn parse_object_simple() {
    let mut parser = parser_for("{\"label\" : 1.5}");
    let result = parser.parse_object();

    let obj = vec![("label".to_string(), JsonValue::Num("1.5".to_string()))];

    assert_eq!(JsonValue::Object(obj), result.unwrap());
}

#[test]
fn parse_object_array() {
    let mut parser = parser_for("{\"label\" : [true, true, true]}");
    let result = parser.parse_object();

    let obj = vec![(
        "label".to_string(),
        JsonValue::Array(vec![
            JsonValue::Bool(true),
            JsonValue::Bool(true),
            JsonValue::Bool(true),
        ]),
    )];

    assert_eq!(JsonValue::Object(obj), result.unwrap());
}

#[test]
fn index_array() {
    let mut parser = parser_for("[1, 2, 3, 4, 5]");
    let result = parser.parse().unwrap();
    for i in 1..6 {
        let elem = result.index(i - 1).clone();
        assert_eq!(elem.get_num().unwrap().parse::<f64>().unwrap(), i as f64);
    }
}

#[test]
fn index_object() {
    let mut parser = parser_for("{\"label\" : 1.5}");
    let result = parser.parse_object().unwrap();
    let indexed = result.index_str("label").clone();
    let expected = JsonValue::Num("1.5".to_string());
    assert_eq!(indexed, expected);
}
