use keyvalues::parse_next_value::parse_next_value;
use keyvalues::{Token, Value};

fn parse_value(src: &str) -> Result<Value<'_>, keyvalues::Error> {
    let mut lexer = Token::lexer(src);
    parse_next_value(&mut lexer)
}

#[test]
fn empty_block_is_empty() {
    assert_eq!(parse_value("{}").unwrap(), Value::Empty);
}

#[test]
fn single_pair_block_is_object() {
    let object = match parse_value("{ a = 1 }").unwrap() {
        Value::Object(map) => map.into_entries(),
        _ => panic!(),
    };
    assert_eq!(object, vec![("a", Value::Integer(1))]);
}

#[test]
fn sibling_objects_flatten_in_order() {
    let object = match parse_value("{ { a = 1 } { b = 2 } }").unwrap() {
        Value::Object(map) => map.into_entries(),
        _ => panic!(),
    };
    assert_eq!(object, vec![("a", Value::Integer(1)), ("b", Value::Integer(2))]);
}

#[test]
fn bare_words_form_array() {
    assert_eq!(
        parse_value("{ hello world }").unwrap(),
        Value::Array(vec![Value::String("hello"), Value::String("world")])
    );
}

#[test]
fn object_beside_block_of_string_is_mixed() {
    let err = parse_value("{ { a = 1 } { \"x\" } }").unwrap_err();
    assert_eq!(err.0, "array containing object is mixed with non-object value");
    assert_eq!((err.1.start, err.1.end), (20, 21));
}

#[test]
fn pair_beside_string_is_mixed() {
    let err = parse_value("{ a = 1 \"x\" }").unwrap_err();
    assert_eq!(err.0, "array containing object is mixed with non-object value");
}

#[test]
fn pair_beside_trailing_word_is_mixed() {
    let err = parse_value("{ a = 1 b }").unwrap_err();
    assert_eq!(err.0, "array containing object is mixed with non-object value");
}

#[test]
fn unclosed_block_points_at_its_brace() {
    let err = parse_value("  { key").unwrap_err();
    assert_eq!(err.0, "Unmatched opening bracket");
    assert_eq!(err.1.start, 2);
    let err = parse_value("{ key").unwrap_err();
    assert_eq!(err.0, "Unmatched opening bracket");
    assert_eq!((err.1.start, err.1.end), (0, 1));
}

#[test]
fn unclosed_inner_block_points_at_inner_brace() {
    let err = parse_value("{ 1 { 2").unwrap_err();
    assert_eq!(err.0, "Unmatched opening bracket");
    assert_eq!((err.1.start, err.1.end), (4, 5));
}

#[test]
fn closing_brace_as_value_is_an_error() {
    let err = parse_value("}").unwrap_err();
    assert_eq!(err.0, "unexpected '}' when expecting value");
}

#[test]
fn adjacent_scalars_after_word() {
    assert_eq!(
        parse_value("{ w 1 x true y null }").unwrap(),
        Value::Array(vec![
            Value::String("w"),
            Value::Integer(1),
            Value::String("x"),
            Value::Bool(true),
            Value::String("y"),
            Value::Null,
        ])
    );
}

#[test]
fn nested_pair_value_is_block() {
    let object = match parse_value("{ a = { 1 2 } }").unwrap() {
        Value::Object(map) => map.into_entries(),
        _ => panic!(),
    };
    assert_eq!(object, vec![("a", Value::Array(vec![Value::Integer(1), Value::Integer(2)]))]);
}

fn nested(depth: usize) -> String {
    let mut text = String::from("a = ");
    text.push_str(&"{".repeat(depth));
    text.push_str(&"}".repeat(depth));
    text
}

#[test]
fn deepest_allowed_nesting_parses() {
    let text = nested(256);
    assert!(keyvalues::parse_program(&text).is_ok());
}

#[test]
fn nesting_beyond_limit_is_an_error() {
    let text = nested(257);
    let err = keyvalues::parse_program(&text).unwrap_err();
    assert_eq!(err.0, "blocks nested too deeply");
    assert_eq!((err.1.start, err.1.end), (4 + 256, 4 + 257));
}
