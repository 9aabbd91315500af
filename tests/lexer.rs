use keyvalues::parse_simple_value::parse_simple_value;
use keyvalues::{Token, Value};

fn tokens(src: &str) -> Vec<Result<Token<'_>, ()>> {
    let mut lexer = Token::lexer(src);
    let mut out = Vec::new();
    while let Some(t) = lexer.next() {
        out.push(t);
    }
    out
}

#[test]
fn keywords_and_words() {
    assert_eq!(
        tokens("true false null trueish nullable a_b:c9"),
        vec![
            Ok(Token::Bool(true)),
            Ok(Token::Bool(false)),
            Ok(Token::Null),
            Ok(Token::Any("trueish")),
            Ok(Token::Any("nullable")),
            Ok(Token::Any("a_b:c9")),
        ]
    );
}

#[test]
fn numbers() {
    assert_eq!(
        tokens("0 -12 3.25 -0.5e10 1.5E+3 7e2 01.5"),
        vec![
            Ok(Token::Integer(0)),
            Ok(Token::Integer(-12)),
            Ok(Token::Float("3.25")),
            Ok(Token::Float("-0.5e10")),
            Ok(Token::Float("1.5E+3")),
            Ok(Token::Integer(7)),
            Ok(Token::Any("e2")),
            Ok(Token::Integer(1)),
            Err(()),
        ]
    );
}

#[test]
fn integer_limits() {
    assert_eq!(tokens("9223372036854775807"), vec![Ok(Token::Integer(i64::MAX))]);
    assert_eq!(tokens("-9223372036854775808"), vec![Ok(Token::Integer(i64::MIN))]);
    assert_eq!(tokens("9223372036854775808"), vec![Err(())]);
    assert_eq!(tokens("00000000000000000000000042"), vec![Ok(Token::Integer(42))]);
}

#[test]
fn strings_keep_escapes_and_drop_quotes() {
    assert_eq!(
        tokens(r#""a\"b" "é\n" "" "héllo""#),
        vec![
            Ok(Token::String("a\\\"b")),
            Ok(Token::String("é\\n")),
            Ok(Token::String("")),
            Ok(Token::String("héllo")),
        ]
    );
}

#[test]
fn bad_strings_are_invalid() {
    assert_eq!(tokens("\"open"), vec![Err(())]);
    assert_eq!(tokens("\"bad \\x escape\""), vec![Err(())]);
    assert_eq!(tokens("\"tab\there\""), vec![Err(())]);
}

#[test]
fn trivia_is_skipped() {
    assert_eq!(
        tokens("\u{feff} { # note\n\t= }\r\n"),
        vec![Ok(Token::BraceOpen), Ok(Token::EqualSign), Ok(Token::BraceClose)]
    );
    assert_eq!(tokens("a # no newline"), vec![Ok(Token::Any("a")), Err(())]);
}

#[test]
fn nothing_after_invalid() {
    assert_eq!(tokens("a $ b"), vec![Ok(Token::Any("a")), Err(())]);
}

#[test]
fn spans_are_byte_ranges() {
    let mut lexer = Token::lexer("é = \"ü\"");
    assert_eq!(lexer.next(), Some(Err(())));
    assert_eq!((lexer.span().start, lexer.span().end), (0, 1));
    let mut lexer = Token::lexer("x = \"ü\"");
    lexer.next();
    lexer.next();
    assert_eq!(lexer.next(), Some(Ok(Token::String("ü"))));
    assert_eq!((lexer.span().start, lexer.span().end), (4, 8));
    assert_eq!(lexer.next(), None);
    assert_eq!((lexer.span().start, lexer.span().end), (8, 8));
}

#[test]
fn simple_values() {
    assert_eq!(parse_simple_value(Token::Any("w")).unwrap(), Value::String("w"));
    assert_eq!(parse_simple_value(Token::String("s")).unwrap(), Value::String("s"));
    assert_eq!(parse_simple_value(Token::Integer(-3)).unwrap(), Value::Integer(-3));
    assert_eq!(parse_simple_value(Token::Float("2.5")).unwrap(), Value::Float("2.5"));
    assert_eq!(parse_simple_value(Token::Bool(false)).unwrap(), Value::Bool(false));
    assert_eq!(parse_simple_value(Token::Null).unwrap(), Value::Null);
    let err = parse_simple_value(Token::BraceOpen).unwrap_err();
    assert_eq!(err.0, "unexpected token when expecting simple value");
}
