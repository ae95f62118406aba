use json_ir::{parse, JsonIR, ParseError};

fn text(s: &str) -> JsonIR {
    JsonIR::String(s.to_string())
}

fn object(members: Vec<(&str, JsonIR)>) -> JsonIR {
    JsonIR::Object(members.into_iter().map(|(k, v)| (k.to_string(), v)).collect())
}

#[test]
fn it_works() {
    let result = json_ir::add(2, 2);
    assert_eq!(result, 4);
}

#[test]
fn test1() {
    let a = r#"{"code": 200,
                    "payload": {
                        "features": [
                            "recursive",
                            "easy",
                            "fun"
                        ]
                    }
                }"#;

    let features = vec![text("recursive"), text("easy"), text("fun")];
    let features_map = object(vec![("features", JsonIR::Array(features))]);
    let b = object(vec![("code", JsonIR::Number(200)), ("payload", features_map)]);

    let a = JsonIR::new(a.to_string());
    assert_eq!(a, Ok(b));
}

#[test]
fn empty_and_blank_text_give_null() {
    assert_eq!(parse(""), Ok(JsonIR::Null));
    assert_eq!(parse("   "), Ok(JsonIR::Null));
}

#[test]
fn parsing_twice_gives_equal_trees() {
    let doc = r#"{"a": [1, {"b": "x"}, []], "c": {}}"#;
    assert_eq!(parse(doc), parse(doc));
}

#[test]
fn duplicate_key_keeps_last_value() {
    assert_eq!(parse(r#"{"a":1,"a":2}"#), Ok(object(vec![("a", JsonIR::Number(2))])));
}

#[test]
fn duplicate_key_keeps_first_position() {
    assert_eq!(
        parse(r#"{"a":1,"b":2,"a":3}"#),
        Ok(object(vec![("a", JsonIR::Number(3)), ("b", JsonIR::Number(2))]))
    );
}

#[test]
fn empty_containers() {
    assert_eq!(parse("{}"), Ok(JsonIR::Object(vec![])));
    assert_eq!(parse("[]"), Ok(JsonIR::Array(vec![])));
    assert_eq!(parse("{ \n }"), Ok(JsonIR::Object(vec![])));
    assert_eq!(parse("[\t]"), Ok(JsonIR::Array(vec![])));
}

#[test]
fn literal_number() {
    assert_eq!(parse("23"), Ok(JsonIR::Number(23)));
}

#[test]
fn literal_string() {
    assert_eq!(parse("\"Hello\""), Ok(text("Hello")));
}

#[test]
fn literal_array() {
    assert_eq!(
        parse("[4,1,2,5]"),
        Ok(JsonIR::Array(vec![
            JsonIR::Number(4),
            JsonIR::Number(1),
            JsonIR::Number(2),
            JsonIR::Number(5)
        ]))
    );
}

#[test]
fn literal_object() {
    assert_eq!(
        parse("{\"a\":1,\"b\":\"hello\"}"),
        Ok(object(vec![("a", JsonIR::Number(1)), ("b", text("hello"))]))
    );
}

#[test]
fn keywords() {
    assert_eq!(parse("true"), Ok(JsonIR::Bool(true)));
    assert_eq!(parse("false"), Ok(JsonIR::Bool(false)));
    assert_eq!(parse("null"), Ok(JsonIR::Null));
    assert_eq!(
        parse("[true, null]"),
        Ok(JsonIR::Array(vec![JsonIR::Bool(true), JsonIR::Null]))
    );
}

#[test]
fn broken_keyword() {
    assert_eq!(
        parse("tru"),
        Err(ParseError::UnexpectedEndOfInput)
    );
    assert_eq!(
        parse("fals!"),
        Err(ParseError::UnexpectedToken { expected: 'e', found: '!', position: 4 })
    );
}

#[test]
fn unfinished_object() {
    assert_eq!(parse("{\"a\":"), Err(ParseError::UnexpectedEndOfInput));
}

#[test]
fn unfinished_array() {
    assert_eq!(parse("[1,2,"), Err(ParseError::UnexpectedEndOfInput));
}

#[test]
fn key_not_quoted() {
    assert_eq!(parse("{1:2}"), Err(ParseError::InvalidKey));
}

#[test]
fn missing_colon() {
    assert_eq!(
        parse("{\"a\" 1}"),
        Err(ParseError::UnexpectedToken { expected: ':', found: '1', position: 5 })
    );
}

#[test]
fn missing_closing_bracket() {
    assert_eq!(
        parse("[1 2]"),
        Err(ParseError::UnexpectedToken { expected: ']', found: '2', position: 3 })
    );
}

#[test]
fn unterminated_string() {
    assert_eq!(parse("\"abc"), Err(ParseError::UnexpectedEndOfInput));
}

#[test]
fn largest_number() {
    assert_eq!(parse("9223372036854775807"), Ok(JsonIR::Number(i64::MAX)));
    assert_eq!(parse("007"), Ok(JsonIR::Number(7)));
}

#[test]
fn number_overflow() {
    assert_eq!(parse("9223372036854775808"), Err(ParseError::InvalidNumber));
    assert_eq!(parse("[99999999999999999999999, 1]"), Err(ParseError::InvalidNumber));
}

#[test]
fn unrecognized_start_is_null() {
    assert_eq!(parse("x"), Ok(JsonIR::Null));
    assert_eq!(parse("[,1]"), Ok(JsonIR::Array(vec![JsonIR::Null, JsonIR::Number(1)])));
}

#[test]
fn text_after_value_is_not_read() {
    assert_eq!(parse("12 abc"), Ok(JsonIR::Number(12)));
}

#[test]
fn whitespace_between_tokens() {
    let tight = parse(r#"{"a":[1,2],"b":{"c":"d"}}"#);
    let loose = parse(" {\n \"a\" :\t[ 1 ,\r\n 2 ] ,  \"b\": { \"c\" : \"d\" } } ");
    assert_eq!(tight, loose);
    assert!(tight.is_ok());
}

#[test]
fn backslash_is_kept() {
    assert_eq!(parse(r#""a\b""#), Ok(text("a\\b")));
}

#[test]
fn object_builder_skips_leading_whitespace() {
    let mut c = json_ir::Cursor::new(" \n {}");
    assert_eq!(JsonIR::build_object(&mut c), Ok(JsonIR::Object(vec![])));
    assert_eq!(c.pos, 5);
}

#[test]
fn array_builder_skips_leading_whitespace() {
    let mut c = json_ir::Cursor::new("\t [7]");
    assert_eq!(JsonIR::build_array(&mut c), Ok(JsonIR::Array(vec![JsonIR::Number(7)])));
}

#[test]
fn object_builder_reports_first_non_whitespace() {
    let mut c = json_ir::Cursor::new(" x");
    assert_eq!(
        JsonIR::build_object(&mut c),
        Err(ParseError::UnexpectedToken { expected: '{', found: 'x', position: 1 })
    );
}

#[test]
fn clone_keeps_the_tree() {
    let t = parse(r#"{"a":[1,"x",{"b":null}],"c":true}"#).unwrap();
    let u = t.clone();
    assert_eq!(t, u);
    assert_eq!(json_ir::ir::clone_tree(&t), t);
}
