//! The value of a single token.
use vstd::prelude::*;

use crate::error::{error_at, reports, Error, ErrorKind, Fault};
use crate::grammar::scalar;
use crate::token::{Span, Token};
use crate::value::{represents, Value};

verus! {

/// The value of a scalar token; strings and bare words both give strings.
/// A structural token (`{`, `}`, `=`) is an error, with an empty span.
pub fn parse_simple_value<'a>(token: Token<'a>) -> (r: Result<Value<'a>, Error>)
    ensures
        match scalar(token@) {
            Some(t) => r matches Ok(v) && represents(v, t),
            None => r matches Err(e) && reports(
                e,
                Fault::Kind(ErrorKind::NotScalar),
                Span { start: 0, end: 0 },
            ),
        },
{
    match token {
        Token::Bool(b) => Ok(Value::Bool(b)),
        Token::Null => Ok(Value::Null),
        Token::Float(s) => Ok(Value::Float(s)),
        Token::Integer(n) => Ok(Value::Integer(n)),
        Token::String(s) => Ok(Value::String(s)),
        Token::Any(s) => Ok(Value::String(s)),
        _ => Err(error_at(ErrorKind::NotScalar, Span { start: 0, end: 0 })),
    }
}

} // verus!
