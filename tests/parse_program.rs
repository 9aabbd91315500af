use keyvalues::parse_program::parse_object_contents;
use keyvalues::{parse_program, Token, Value};

fn entries<'a>(value: Value<'a>) -> Vec<(&'a str, Value<'a>)> {
    match value {
        Value::Object(map) => map.into_entries(),
        other => panic!("not an object: {:?}", other),
    }
}

#[test]
fn test_parse_empty_object() {
    let mut lexer = Token::lexer("}");
    let result = parse_object_contents(&mut lexer);
    assert!(result.is_ok());
    assert!(matches!(result.unwrap(), Value::Object(_)));
}

#[test]
fn test_parse_single_key_value_pair() {
    let mut lexer = Token::lexer("key = value }");
    let result = parse_object_contents(&mut lexer);
    assert!(result.is_ok(), "{}", result.unwrap_err().0);
}

#[test]
fn test_parse_multiple_key_value_pairs() {
    let mut lexer = Token::lexer("key1 = value1 key2 = value2 }");
    let result = parse_object_contents(&mut lexer);
    assert!(result.is_ok(), "{}", result.unwrap_err().0);
}

#[test]
fn test_parse_key_without_value() {
    let mut lexer = Token::lexer("key }");
    let result = parse_object_contents(&mut lexer);
    assert!(result.is_err());
    let err = result.unwrap_err();
    assert_eq!(
        err.0,
        "unexpected '}', expected '=' followed by value after key"
    );
}

#[test]
fn test_parse_unexpected_token() {
    let mut lexer = Token::lexer("123 }");
    let result = parse_object_contents(&mut lexer);
    assert!(result.is_err());
    let err = result.unwrap_err();
    assert_eq!(
        err.0,
        "unexpected token 'Integer(123)' in object context, current_key: None"
    );
}

#[test]
fn test_parse_missing_value_after_key() {
    let mut lexer = Token::lexer(" key = }");
    let result = parse_object_contents(&mut lexer);
    assert!(result.is_err());
    let err = result.unwrap_err();
    assert_eq!(err.0, "unexpected '}' when expecting value");
}

#[test]
fn pairs_keep_source_order() {
    let value = parse_program("b = 1 a = \"two\" c = 3.5 d = true e = null").unwrap();
    let got = entries(value);
    assert_eq!(got.len(), 5);
    assert_eq!(got[0], ("b", Value::Integer(1)));
    assert_eq!(got[1], ("a", Value::String("two")));
    assert_eq!(got[2], ("c", Value::Float("3.5")));
    assert_eq!(got[3], ("d", Value::Bool(true)));
    assert_eq!(got[4], ("e", Value::Null));
}

#[test]
fn repeated_key_keeps_first_position() {
    let value = parse_program("x = 1 y = 2 x = 3").unwrap();
    assert_eq!(entries(value), vec![("x", Value::Integer(3)), ("y", Value::Integer(2))]);
}

#[test]
fn empty_program_is_empty_object() {
    let value = parse_program("  # only a comment\n").unwrap();
    assert!(entries(value).is_empty());
}

#[test]
fn nested_blocks_in_program() {
    let value = parse_program("scene = { name = intro size = { 1 2 } } flags = {}").unwrap();
    let top = entries(value);
    assert_eq!(top.len(), 2);
    assert_eq!(top[0].0, "scene");
    assert_eq!(top[1], ("flags", Value::Empty));
    let mut top = top;
    let scene = entries(top.remove(0).1);
    assert_eq!(scene[0], ("name", Value::String("intro")));
    assert_eq!(scene[1], ("size", Value::Array(vec![Value::Integer(1), Value::Integer(2)])));
}

#[test]
fn key_at_end_of_input_is_an_error() {
    let err = parse_program("a = 1 b").unwrap_err();
    assert_eq!(err.0, "expected value after key");
    assert_eq!((err.1.start, err.1.end), (7, 7));
}

#[test]
fn closing_brace_at_top_level_is_an_error() {
    let err = parse_program("a = 1 }").unwrap_err();
    assert_eq!(err.0, "unexpected token 'BraceClose' in object context, current_key: None");
    assert_eq!((err.1.start, err.1.end), (6, 7));
}

#[test]
fn second_key_names_the_pending_one() {
    let err = parse_program("a b = 1").unwrap_err();
    assert_eq!(err.0, "unexpected token 'Any(\"b\")' in object context, current_key: Some(\"a\")");
}

#[test]
fn equal_sign_without_key_is_an_error() {
    let err = parse_program("= 1").unwrap_err();
    assert_eq!(err.0, "unexpected token 'EqualSign' in object context, current_key: None");
}

#[test]
fn value_missing_at_end_is_an_error() {
    let err = parse_program("a =").unwrap_err();
    assert_eq!(err.0, "expected value");
    assert_eq!((err.1.start, err.1.end), (3, 3));
}

#[test]
fn equal_sign_as_value_is_an_error() {
    let err = parse_program("a = =").unwrap_err();
    assert_eq!(err.0, "expected value");
    assert_eq!((err.1.start, err.1.end), (4, 5));
}

#[test]
fn invalid_token_in_object_is_an_error() {
    let err = parse_program("a = 1 %").unwrap_err();
    assert_eq!(err.0, "unrecognised token");
    assert_eq!((err.1.start, err.1.end), (6, 7));
}

#[test]
fn unclosed_object_points_at_its_brace() {
    let mut lexer = Token::lexer("  { a = 1 b = 2");
    assert_eq!(lexer.next(), Some(Ok(Token::BraceOpen)));
    let err = parse_object_contents(&mut lexer).unwrap_err();
    assert_eq!(err.0, "Unmatched opening bracket");
    assert_eq!((err.1.start, err.1.end), (2, 3));
}

#[test]
fn pending_key_message_names_float_and_string_tokens() {
    let err = parse_program("a 1.5").unwrap_err();
    assert_eq!(err.0, "unexpected token 'Float(\"1.5\")' in object context, current_key: Some(\"a\")");
    let err = parse_program("\"q\\\"x\" = 1").unwrap_err();
    assert_eq!(err.0, "unexpected token 'String(\"q\\\\\\\"x\")' in object context, current_key: None");
    let err = parse_program("-7").unwrap_err();
    assert_eq!(err.0, "unexpected token 'Integer(-7)' in object context, current_key: None");
}
