use keyvalues::parse_scope::parse_scope;
use keyvalues::{Token, Value};

#[test]
fn scope_wraps_its_pairs() {
    let mut lexer = Token::lexer("player = { health = 100 name = \"Ann\" }");
    let outer = match parse_scope(&mut lexer).unwrap() {
        Value::Object(map) => map.into_entries(),
        _ => panic!(),
    };
    assert_eq!(outer.len(), 1);
    let (name, inner) = outer.into_iter().next().unwrap();
    assert_eq!(name, "player");
    let inner = match inner {
        Value::Object(map) => map.into_entries(),
        _ => panic!(),
    };
    assert_eq!(inner, vec![("health", Value::Integer(100)), ("name", Value::String("Ann"))]);
}

#[test]
fn scope_needs_a_name() {
    let mut lexer = Token::lexer("= { }");
    let err = parse_scope(&mut lexer).unwrap_err();
    assert_eq!(err.0, "expected scope name");
    assert_eq!((err.1.start, err.1.end), (0, 1));
}

#[test]
fn scope_needs_equal_sign() {
    let mut lexer = Token::lexer("name { }");
    let err = parse_scope(&mut lexer).unwrap_err();
    assert_eq!(err.0, "expected '=' after scope name");
    assert_eq!((err.1.start, err.1.end), (5, 6));
}

#[test]
fn scope_needs_open_brace() {
    let mut lexer = Token::lexer("name = 1");
    let err = parse_scope(&mut lexer).unwrap_err();
    assert_eq!(err.0, "expected '{' after '='");
    assert_eq!((err.1.start, err.1.end), (7, 8));
}

#[test]
fn scope_name_missing_at_end() {
    let mut lexer = Token::lexer("");
    let err = parse_scope(&mut lexer).unwrap_err();
    assert_eq!(err.0, "expected scope name");
    assert_eq!((err.1.start, err.1.end), (0, 0));
}

#[test]
fn unclosed_scope_points_at_its_brace() {
    let mut lexer = Token::lexer("name = { a = 1");
    let err = parse_scope(&mut lexer).unwrap_err();
    assert_eq!(err.0, "Unmatched opening bracket");
    assert_eq!((err.1.start, err.1.end), (7, 8));
}
