//! The value after `=`: a scalar, or a block.
use vstd::prelude::*;

use crate::error::{error_at, Error, ErrorKind};
use crate::grammar::{outcome_matches, value_at, MAX_DEPTH};
use crate::parse_array::parse_block;
use crate::token::{Lexer, Token};
use crate::value::Value;

verus! {

/// Reads one value: a scalar token, or `{` and the block after it.
pub fn parse_next_value<'a>(lexer: &mut Lexer<'a>) -> (r: Result<Value<'a>, Error>)
    requires
        old(lexer).wf(),
    ensures
        final(lexer).wf(),
        final(lexer).tokens() == old(lexer).tokens(),
        final(lexer).eof() == old(lexer).eof(),
        outcome_matches(
            value_at(old(lexer).tokens(), old(lexer).index(), old(lexer).eof(), 0),
            r,
            old(lexer).index(),
            *final(lexer),
        ),
{
    parse_value_nested(lexer, 0)
}

/// Reads one value inside `depth` open blocks.
pub fn parse_value_nested<'a>(lexer: &mut Lexer<'a>, depth: usize) -> (r: Result<Value<'a>, Error>)
    requires
        old(lexer).wf(),
    ensures
        final(lexer).wf(),
        final(lexer).tokens() == old(lexer).tokens(),
        final(lexer).eof() == old(lexer).eof(),
        outcome_matches(
            value_at(old(lexer).tokens(), old(lexer).index(), old(lexer).eof(), depth as int),
            r,
            old(lexer).index(),
            *final(lexer),
        ),
    decreases old(lexer).tokens().len() - old(lexer).index(), 1int,
{
    proof {
        lexer.lemma_index_bounds();
    }
    match lexer.next() {
        Some(Ok(Token::String(s))) => Ok(Value::String(s)),
        Some(Ok(Token::Any(s))) => Ok(Value::String(s)),
        Some(Ok(Token::Float(n))) => Ok(Value::Float(n)),
        Some(Ok(Token::Integer(n))) => Ok(Value::Integer(n)),
        Some(Ok(Token::Bool(b))) => Ok(Value::Bool(b)),
        Some(Ok(Token::Null)) => Ok(Value::Null),
        Some(Ok(Token::BraceOpen)) => {
            if depth >= MAX_DEPTH {
                Err(error_at(ErrorKind::TooDeep, lexer.span()))
            } else {
                parse_block(lexer, depth + 1)
            }
        },
        Some(Ok(Token::BraceClose)) => Err(error_at(ErrorKind::CloseInValue, lexer.span())),
        Some(Ok(Token::EqualSign)) => Err(error_at(ErrorKind::ExpectedValue, lexer.span())),
        Some(Err(())) => Err(error_at(ErrorKind::Lex, lexer.span())),
        None => Err(error_at(ErrorKind::ExpectedValue, lexer.span())),
    }
}

} // verus!
