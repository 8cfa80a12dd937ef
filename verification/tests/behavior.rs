use jsonparse::error::{ErrorCode, JsonError};
use jsonparse::parser::JsonParser;
use jsonparse::render::print_json;
use jsonparse::value::JsonValue;

fn parse_text(text: &str) -> Result<JsonValue, JsonError> {
    let mut parser = JsonParser::new(text.chars().collect());
    parser.parse()
}

#[test]
fn empty_array() {
    assert_eq!(parse_text("[]"), Ok(JsonValue::Array(vec![])));
    assert_eq!(parse_text("[ \t ]"), Ok(JsonValue::Array(vec![])));
}

#[test]
fn empty_object() {
    assert_eq!(parse_text("{}"), Ok(JsonValue::Object(vec![])));
    assert_eq!(parse_text("{ \n }"), Ok(JsonValue::Object(vec![])));
}

#[test]
fn duplicate_keys_last_write_wins() {
    let result = parse_text("{\"a\":1,\"a\":2}").unwrap();
    let entries = result.clone().into_object().unwrap();
    assert_eq!(entries.len(), 1);
    let found = result.find("a").unwrap().clone();
    assert_eq!(found, JsonValue::Num("2".to_string()));
}

#[test]
fn error_position_unclosed_string() {
    // The unterminated string opens at line 2, column 5; the error reports
    // where scanning stopped — the end of the input — not the opening quote.
    let mut parser = JsonParser::new("\n   \"abc".chars().collect());
    let result = parser.parse_string();
    match result {
        Ok(_) => assert!(false),
        Err(e) => {
            assert_eq!(e.reason, ErrorCode::UnclosedStringLiteral);
            assert_eq!(e.line, 2);
            assert_eq!(e.col, 9);
        }
    }
}

#[test]
fn end_of_file_error() {
    let result = parse_text("");
    match result {
        Ok(_) => assert!(false),
        Err(e) => {
            assert_eq!(e.reason, ErrorCode::EndOfFile);
            assert_eq!(e.line, 1);
            assert_eq!(e.col, 1);
        }
    }
}

#[test]
fn expected_bool_error() {
    let mut parser = JsonParser::new("xyz".chars().collect());
    let result = parser.parse_bool();
    assert_eq!(result.unwrap_err().reason, ErrorCode::ExpectedBool);
}

#[test]
fn expected_null_error() {
    let mut parser = JsonParser::new("xyz".chars().collect());
    let result = parser.parse_null();
    assert_eq!(result.unwrap_err().reason, ErrorCode::ExpectedNull);
}

#[test]
fn unclosed_array_error() {
    let mut parser = JsonParser::new("xyz".chars().collect());
    let result = parser.parse_array();
    assert_eq!(result.unwrap_err().reason, ErrorCode::UnclosedArray);
}

#[test]
fn unclosed_object_error() {
    let mut parser = JsonParser::new("xyz".chars().collect());
    let result = parser.parse_object();
    assert_eq!(result.unwrap_err().reason, ErrorCode::UnclosedObject);
}

#[test]
fn expected_colon_error() {
    let mut parser = JsonParser::new("{\"a\" 1}".chars().collect());
    let result = parser.parse_object();
    assert_eq!(result.unwrap_err().reason, ErrorCode::ExpectedColon);
}

#[test]
fn trailing_input_is_ignored() {
    assert_eq!(parse_text("true xyz"), Ok(JsonValue::Bool(true)));
}

#[test]
fn whitespace_insensitivity() {
    let compact = parse_text("[true,false,{\"a\":1}]").unwrap();
    let padded = parse_text(" [\ttrue ,\n false\r, { \"a\"\n: 1 } ] ").unwrap();
    assert_eq!(compact, padded);
}

#[test]
fn render_scalars() {
    assert_eq!(print_json(&JsonValue::Null), "null");
    assert_eq!(print_json(&JsonValue::Bool(true)), "true");
    assert_eq!(print_json(&JsonValue::Bool(false)), "false");
    assert_eq!(print_json(&JsonValue::Num("4.25".to_string())), "4.25");
    assert_eq!(print_json(&JsonValue::Str("ab".to_string())), "\"ab\"");
}

#[test]
fn render_containers() {
    assert_eq!(print_json(&JsonValue::Array(vec![])), "[]");
    assert_eq!(print_json(&JsonValue::Object(vec![])), "{}");
    let v = JsonValue::Array(vec![
        JsonValue::Num("1".to_string()),
        JsonValue::Object(vec![("k".to_string(), JsonValue::Null)]),
    ]);
    assert_eq!(print_json(&v), "[1,{\"k\":null}]");
}

#[test]
fn round_trip_of_structure() {
    let text = "{\"a\" : [1.5, true, \"x y\"], \"b\" : null, \"c\" : {}}";
    let first = parse_text(text).unwrap();
    let rendered = print_json(&first);
    let second = parse_text(rendered.as_str()).unwrap();
    assert_eq!(first, second);
}

#[test]
fn round_trip_nested_arrays() {
    let text = "[[], [[true]], [false, []]]";
    let first = parse_text(text).unwrap();
    let second = parse_text(print_json(&first).as_str()).unwrap();
    assert_eq!(first, second);
}

#[test]
fn literals_consume_exactly_their_characters() {
    // After the literal, parsing continues at the next structural token.
    let result = parse_text("[null,true,false]").unwrap();
    let expected = JsonValue::Array(vec![
        JsonValue::Null,
        JsonValue::Bool(true),
        JsonValue::Bool(false),
    ]);
    assert_eq!(result, expected);
}

#[test]
fn number_grammar_accepts() {
    for text in ["0", "-0", "10.25", "-3.5e10", "1E+2", "2e-3", "7.", "1e5"] {
        let result = parse_text(text).unwrap();
        let token = result.get_num().unwrap();
        assert_eq!(token, text);
        assert!(token.parse::<f64>().is_ok());
    }
}

#[test]
fn number_grammar_rejects() {
    for text in ["1.2.3", "1e", "1e+", "--1", "-.", "1ee5"] {
        let mut parser = JsonParser::new(text.chars().collect());
        let result = parser.parse_num();
        assert_eq!(result.unwrap_err().reason, ErrorCode::NumberParsing);
        assert!(text.parse::<f64>().is_err());
    }
}

#[test]
fn find_and_projections() {
    let obj = parse_text("{\"x\": true, \"y\": \"s\"}").unwrap();
    assert_eq!(
        obj.find("x").unwrap().clone().get_bool(),
        Some(true)
    );
    assert_eq!(
        obj.find("y").unwrap().clone().into_string(),
        Some("s".to_string())
    );
    assert!(obj.find("z").is_none());
    assert!(JsonValue::Null.find("x").is_none());
    assert_eq!(JsonValue::Null.get_bool(), None);
    assert_eq!(JsonValue::Bool(true).into_string(), None);
    assert_eq!(JsonValue::Null.into_array(), None);
    assert_eq!(JsonValue::Null.into_object(), None);
}

#[test]
fn descriptions() {
    assert_eq!(
        ErrorCode::UnclosedStringLiteral.description(),
        "Unclosed string literal"
    );
    assert_eq!(ErrorCode::UnclosedArray.description(), "Unclosed array bracket");
    assert_eq!(ErrorCode::UnclosedObject.description(), "Unclosed object bracket");
    assert_eq!(ErrorCode::MissingColon.description(), "Missing colon");
    assert_eq!(ErrorCode::ExpectedBool.description(), "Expected true or false");
    assert_eq!(ErrorCode::NumberParsing.description(), "Error parsing number");
    assert_eq!(ErrorCode::ExpectedColon.description(), "Expected colon");
    assert_eq!(ErrorCode::EndOfFile.description(), "End of file reached");
    assert_eq!(ErrorCode::ExpectedNull.description(), "Expected null");
    assert_eq!(ErrorCode::Other.description(), "Unknown error");
}

#[test]
fn keyword_partial_match_commits() {
    // A lookahead of `t` yields `true` however much of the keyword follows:
    // the committed characters stay consumed.
    assert_eq!(parse_text("tru"), Ok(JsonValue::Bool(true)));
    assert_eq!(parse_text("f"), Ok(JsonValue::Bool(false)));
}
