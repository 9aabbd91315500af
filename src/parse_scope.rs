//! Scopes: `name = { key = value ... }`, read as an object with one key.
use vstd::prelude::*;

use crate::error::{error_at, Error, ErrorKind, Fault};
use crate::grammar::{object_at, scalar, Outcome};
use crate::parse_program::{object_matches, parse_object_contents};
use crate::parse_simple_value::parse_simple_value;
use crate::token::{Lexed, Lexeme, Lexer, Span, Token};
use crate::value::{object_entries, represents, ObjectMap, Tree, Value};

verus! {

/// The two tokens are of the same kind, whatever they hold.
pub open spec fn same_kind(a: Lexeme, b: Lexeme) -> bool {
    match (a, b) {
        (Lexeme::Bool(_), Lexeme::Bool(_)) => true,
        (Lexeme::BraceOpen, Lexeme::BraceOpen) => true,
        (Lexeme::BraceClose, Lexeme::BraceClose) => true,
        (Lexeme::EqualSign, Lexeme::EqualSign) => true,
        (Lexeme::Null, Lexeme::Null) => true,
        (Lexeme::Float(_), Lexeme::Float(_)) => true,
        (Lexeme::Integer(_), Lexeme::Integer(_)) => true,
        (Lexeme::Str(_), Lexeme::Str(_)) => true,
        (Lexeme::Ident(_), Lexeme::Ident(_)) => true,
        _ => false,
    }
}

/// Token `i` is of the same kind as `expected`.
pub open spec fn kind_at(ts: Seq<Lexed>, i: int, expected: Lexeme) -> bool {
    0 <= i < ts.len() && (ts[i] matches Lexed::Token(l, _) && same_kind(l, expected))
}

/// The span of token `i`, or `eof` past the last token.
pub open spec fn span_at(ts: Seq<Lexed>, i: int, eof: Span) -> Span {
    if 0 <= i < ts.len() {
        match ts[i] {
            Lexed::Token(_, sp) => sp,
            Lexed::Invalid(sp) => sp,
        }
    } else {
        eof
    }
}

/// A scope from token `i`: a name, `=`, `{`, then `key = value` pairs up to
/// `}`, giving the object `{name: {pairs}}`. A scope whose `}` never comes is
/// an unmatched-brace error at its `{`.
pub open spec fn scope_at(ts: Seq<Lexed>, i: int, eof: Span) -> Outcome {
    if !kind_at(ts, i, Lexeme::Ident(Seq::empty())) {
        Outcome::Failed(Fault::Kind(ErrorKind::ScopeName), span_at(ts, i, eof))
    } else if !kind_at(ts, i + 1, Lexeme::EqualSign) {
        Outcome::Failed(Fault::Kind(ErrorKind::ScopeEquals), span_at(ts, i + 1, eof))
    } else if !kind_at(ts, i + 2, Lexeme::BraceOpen) {
        Outcome::Failed(Fault::Kind(ErrorKind::ScopeOpen), span_at(ts, i + 2, eof))
    } else {
        let name = match ts[i] {
            Lexed::Token(Lexeme::Ident(n), _) => n,
            _ => Seq::empty(),
        };
        match object_at(ts, i + 3, false, None, Seq::empty(), span_at(ts, i + 2, eof), eof, 1) {
            Outcome::Parsed(t, j) => Outcome::Parsed(Tree::Object(seq![(name, t)]), j),
            Outcome::Failed(f, s) => Outcome::Failed(f, s),
        }
    }
}

fn same_kind_exec(a: &Token, b: &Token) -> (r: bool)
    ensures
        r == same_kind(a@, b@),
{
    match (a, b) {
        (Token::Bool(_), Token::Bool(_)) => true,
        (Token::BraceOpen, Token::BraceOpen) => true,
        (Token::BraceClose, Token::BraceClose) => true,
        (Token::EqualSign, Token::EqualSign) => true,
        (Token::Null, Token::Null) => true,
        (Token::Float(_), Token::Float(_)) => true,
        (Token::Integer(_), Token::Integer(_)) => true,
        (Token::String(_), Token::String(_)) => true,
        (Token::Any(_), Token::Any(_)) => true,
        _ => false,
    }
}

/// Reads one token, which must be of the same kind as `expected`; gives its
/// value, or `Null` for a structural token. Anything else is an error with
/// `error_message` and the span of what was read.
fn expect_token<'a>(lexer: &mut Lexer<'a>, expected: Token<'a>, error_message: &str) -> (r: Result<Value<'a>, Error>)
    requires
        old(lexer).wf(),
    ensures
        final(lexer).wf(),
        final(lexer).tokens() == old(lexer).tokens(),
        final(lexer).eof() == old(lexer).eof(),
        ({
            let ts = old(lexer).tokens();
            let i = old(lexer).index();
            if kind_at(ts, i, expected@) {
                &&& final(lexer).index() == i + 1
                &&& final(lexer).current_span() == span_at(ts, i, old(lexer).eof())
                &&& r matches Ok(v)
                &&& ts[i] matches Lexed::Token(l, _) && match scalar(l) {
                    Some(t) => represents(v, t),
                    None => v is Null,
                }
            } else {
                r matches Err(e) && e.0@ == error_message@ && e.1 == span_at(ts, i, old(lexer).eof())
            }
        }),
{
    proof {
        lexer.lemma_index_bounds();
    }
    match lexer.next() {
        Some(Ok(token)) => {
            if same_kind_exec(&token, &expected) {
                match parse_simple_value(token) {
                    Ok(v) => Ok(v),
                    Err(_) => Ok(Value::Null),
                }
            } else {
                Err((error_message.to_owned(), lexer.span()))
            }
        },
        _ => Err((error_message.to_owned(), lexer.span())),
    }
}

/// Reads a scope: a name, `=`, `{`, then `key = value` pairs up to `}`. The
/// result is an object whose one key is the name and whose value is the
/// object of the pairs.
pub fn parse_scope<'a>(lexer: &mut Lexer<'a>) -> (r: Result<Value<'a>, Error>)
    requires
        old(lexer).wf(),
    ensures
        final(lexer).wf(),
        final(lexer).tokens() == old(lexer).tokens(),
        object_matches(scope_at(old(lexer).tokens(), old(lexer).index(), old(lexer).eof()), r, *final(lexer)),
{
    let ghost ts = lexer.tokens();
    let ghost i = lexer.index();
    let ghost eof = lexer.eof();
    let scope_name_token = match expect_token(lexer, Token::Any(""), "expected scope name") {
        Ok(v) => v,
        Err(e) => {
            return Err(e);
        },
    };
    let scope_name = match scope_name_token {
        Value::String(name) => name,
        _ => {
            return Err(error_at(ErrorKind::ScopeName, lexer.span()));
        },
    };
    match expect_token(lexer, Token::EqualSign, "expected '=' after scope name") {
        Ok(_) => {},
        Err(e) => {
            return Err(e);
        },
    }
    match expect_token(lexer, Token::BraceOpen, "expected '{' after '='") {
        Ok(_) => {},
        Err(e) => {
            return Err(e);
        },
    }
    let ghost inner = object_at(ts, i + 3, false, None, Seq::empty(), span_at(ts, i + 2, eof), eof, 1);
    let object_contents = match parse_object_contents(lexer) {
        Ok(v) => v,
        Err(e) => {
            return Err(e);
        },
    };
    let mut scope = ObjectMap::new();
    scope.put(scope_name, object_contents);
    let ghost es = object_entries(scope);
    assert(es.len() == 1 && es[0].0 == scope_name@);
    Ok(Value::Object(scope))
}

} // verus!
