//! Objects: sequences of `key = value` pairs, at the top level of a program
//! or up to a closing `}`.
use vstd::prelude::*;

use crate::error::{error_at, key_view, object_context_error, reports, Error, ErrorKind};
use crate::grammar::{object_at, program, value_at, Outcome};
use crate::parse_next_value::parse_value_nested;
use crate::token::{span_of, tokens_of, Lexer, Token};
use crate::value::{
    entries_represent, lemma_put_represents, object_entries, put, represents, Entries, ObjectMap,
    Tree, Value,
};
use vstd::string::StringSliceAdditionalSpecFns;

verus! {

/// `r`, with the lexer `l` after it, is what the outcome `o` of reading an
/// object says.
pub open spec fn object_matches(o: Outcome, r: Result<Value, Error>, l: Lexer) -> bool {
    match o {
        Outcome::Parsed(t, j) => l.index() == j && (r matches Ok(v) && represents(v, t)),
        Outcome::Failed(f, sp) => r matches Err(e) && reports(e, f, sp),
    }
}

/// Parses a whole source text: its top-level `key = value` pairs form one
/// object, in which a repeated key keeps its first position and takes its last
/// value.
pub fn parse_program(source: &str) -> (r: Result<Value, Error>)
    ensures
        match program(
            tokens_of(source),
            span_of(source.spec_bytes().len() as int, source.spec_bytes().len() as int),
        ) {
            Outcome::Parsed(t, _) => r matches Ok(v) && represents(v, t),
            Outcome::Failed(f, sp) => r matches Err(e) && reports(e, f, sp),
        },
{
    let mut lexer = Token::lexer(source);
    parse_pairs(&mut lexer, true, 0)
}

/// Reads `key = value` pairs up to a closing `}`, which it consumes. The
/// lexer's last token is the `{` that opened the object; if the input ends
/// first, the error has that brace's span.
pub fn parse_object_contents<'a>(lexer: &mut Lexer<'a>) -> (r: Result<Value<'a>, Error>)
    requires
        old(lexer).wf(),
    ensures
        final(lexer).wf(),
        final(lexer).tokens() == old(lexer).tokens(),
        object_matches(
            object_at(
                old(lexer).tokens(),
                old(lexer).index(),
                false,
                None,
                Seq::empty(),
                old(lexer).current_span(),
                old(lexer).eof(),
                1,
            ),
            r,
            *final(lexer),
        ),
{
    parse_pairs(lexer, false, 1)
}

/// Reads `key = value` pairs. At the top level a `}` is an error and the end
/// of the input ends the object; otherwise a `}` ends the object and the end
/// of the input is an unmatched-brace error at the lexer's last span.
fn parse_pairs<'a>(lexer: &mut Lexer<'a>, top: bool, depth: usize) -> (r: Result<Value<'a>, Error>)
    requires
        old(lexer).wf(),
    ensures
        final(lexer).wf(),
        final(lexer).tokens() == old(lexer).tokens(),
        object_matches(
            object_at(
                old(lexer).tokens(),
                old(lexer).index(),
                top,
                None,
                Seq::empty(),
                old(lexer).current_span(),
                old(lexer).eof(),
                depth as int,
            ),
            r,
            *final(lexer),
        ),
{
    proof {
        lexer.lemma_index_bounds();
    }
    let ghost ts = lexer.tokens();
    let ghost start = lexer.index();
    let ghost eof = lexer.eof();
    let open = lexer.span();
    let mut variables = ObjectMap::new();
    let ghost mut es: Entries<Tree> = Seq::empty();
    let mut current_key: Option<&'a str> = None;
    loop
        invariant
            ts == old(lexer).tokens(),
            eof == old(lexer).eof(),
            start == old(lexer).index(),
            open == old(lexer).current_span(),
            lexer.wf(),
            lexer.tokens() == ts,
            lexer.eof() == eof,
            0 <= start <= lexer.index() <= ts.len(),
            entries_represent(object_entries(variables), es),
            object_at(ts, start, top, None, Seq::empty(), open, eof, depth as int) == object_at(
                ts,
                lexer.index(),
                top,
                key_view(current_key),
                es,
                open,
                eof,
                depth as int,
            ),
        decreases ts.len() - lexer.index(),
    {
        let ghost i = lexer.index();
        match lexer.next() {
            None => {
                if current_key.is_some() {
                    return Err(error_at(ErrorKind::EndAfterKey, lexer.span()));
                }
                if !top {
                    return Err(error_at(ErrorKind::Unmatched, open));
                }
                return Ok(Value::Object(variables));
            },
            Some(Err(())) => {
                return Err(error_at(ErrorKind::Lex, lexer.span()));
            },
            Some(Ok(token)) => {
                match token {
                    Token::BraceClose => {
                        if current_key.is_some() {
                            return Err(error_at(ErrorKind::CloseAfterKey, lexer.span()));
                        }
                        if top {
                            return Err(object_context_error(&token, None, lexer.span()));
                        }
                        return Ok(Value::Object(variables));
                    },
                    Token::Any(key) => {
                        if current_key.is_none() {
                            current_key = Some(key);
                        } else {
                            return Err(object_context_error(&token, current_key, lexer.span()));
                        }
                    },
                    Token::EqualSign => {
                        match current_key {
                            Some(key) => {
                                current_key = None;
                                let ghost o = value_at(ts, i + 1, eof, depth as int);
                                let value = match parse_value_nested(lexer, depth) {
                                    Ok(v) => v,
                                    Err(e) => {
                                        return Err(e);
                                    },
                                };
                                proof {
                                    lemma_put_represents(
                                        object_entries(variables),
                                        es,
                                        key@,
                                        value,
                                        o->Parsed_0,
                                    );
                                    es = put(es, key@, o->Parsed_0);
                                }
                                variables.put(key, value);
                            },
                            None => {
                                return Err(object_context_error(&token, None, lexer.span()));
                            },
                        }
                    },
                    _ => {
                        return Err(object_context_error(&token, current_key, lexer.span()));
                    },
                }
            },
        }
        proof {
            lexer.lemma_index_bounds();
        }
    }
}

} // verus!
