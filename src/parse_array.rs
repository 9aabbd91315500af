//! Blocks: the tokens between `{` and `}`, read as an array, an object or
//! `Empty`.
use vstd::prelude::*;

use crate::error::{error_at, reports, Error, ErrorKind, Fault};
use crate::grammar::{
    after_ident, all_objects, block_at, finish, flatten_trees, has_object, lemma_flatten_represents,
    outcome_matches, IdentStep, Outcome, MAX_DEPTH,
};
use crate::parse_next_value::parse_value_nested;
use crate::parse_simple_value::parse_simple_value;
use crate::token::{Lexer, Span, Token};
use crate::value::{
    flatten_values, lemma_represents_object, object_entries, represents, ObjectMap,
    Tree, Value,
};

verus! {

/// Reads the rest of a block whose `{` was the lexer's last token, up to and
/// including its `}`. No elements give `Empty`; elements that include an
/// object must all be objects and are merged into one; other elements form an
/// array. The error for a block never closed has the span of its `{`.
pub fn parse_array<'a>(lexer: &mut Lexer<'a>) -> (r: Result<Value<'a>, Error>)
    requires
        old(lexer).wf(),
    ensures
        final(lexer).wf(),
        final(lexer).tokens() == old(lexer).tokens(),
        final(lexer).eof() == old(lexer).eof(),
        outcome_matches(
            block_at(
                old(lexer).tokens(),
                old(lexer).index(),
                old(lexer).current_span(),
                Seq::empty(),
                old(lexer).eof(),
                1,
            ),
            r,
            old(lexer).index(),
            *final(lexer),
        ),
{
    parse_block(lexer, 1)
}

/// Reads the rest of a block, which makes `depth` open blocks.
pub fn parse_block<'a>(lexer: &mut Lexer<'a>, depth: usize) -> (r: Result<Value<'a>, Error>)
    requires
        old(lexer).wf(),
    ensures
        final(lexer).wf(),
        final(lexer).tokens() == old(lexer).tokens(),
        final(lexer).eof() == old(lexer).eof(),
        outcome_matches(
            block_at(
                old(lexer).tokens(),
                old(lexer).index(),
                old(lexer).current_span(),
                Seq::empty(),
                old(lexer).eof(),
                depth as int,
            ),
            r,
            old(lexer).index(),
            *final(lexer),
        ),
    decreases old(lexer).tokens().len() - old(lexer).index(), 0int,
{
    proof {
        lexer.lemma_index_bounds();
    }
    let ghost ts = lexer.tokens();
    let ghost start = lexer.index();
    let ghost eof = lexer.eof();
    let initial_span = lexer.span();
    let mut elements: Vec<Value<'a>> = Vec::new();
    let ghost mut models: Seq<Tree> = Seq::empty();
    loop
        invariant
            ts == old(lexer).tokens(),
            eof == old(lexer).eof(),
            start == old(lexer).index(),
            initial_span == old(lexer).current_span(),
            lexer.wf(),
            lexer.tokens() == ts,
            lexer.eof() == eof,
            0 <= start <= lexer.index() <= ts.len(),
            elements@.len() == models.len(),
            forall|k: int| 0 <= k < models.len() ==> represents(#[trigger] elements@[k], models[k]),
            block_at(ts, start, initial_span, Seq::empty(), eof, depth as int) == block_at(
                ts,
                lexer.index(),
                initial_span,
                models,
                eof,
                depth as int,
            ),
        decreases ts.len() - lexer.index(),
    {
        let ghost i = lexer.index();
        match lexer.next() {
            None => {
                return Err(error_at(ErrorKind::Unmatched, initial_span));
            },
            Some(Err(())) => {
                return Err(error_at(ErrorKind::Lex, lexer.span()));
            },
            Some(Ok(Token::BraceClose)) => {
                return close_block(elements, Ghost(models), lexer.span());
            },
            Some(Ok(Token::BraceOpen)) => {
                if depth >= MAX_DEPTH {
                    return Err(error_at(ErrorKind::TooDeep, lexer.span()));
                }
                let ghost inner = block_at(ts, i + 1, lexer.current_span(), Seq::empty(), eof, depth + 1);
                match parse_block(lexer, depth + 1) {
                    Ok(nested) => {
                        let ghost t = inner->Parsed_0;
                        elements.push(nested);
                        proof {
                            models = models.push(t);
                        }
                    },
                    Err(e) => {
                        return Err(e);
                    },
                }
            },
            Some(Ok(Token::Any(identifier))) => {
                let ghost step = after_ident(ts, i + 1, identifier@, initial_span, eof, depth as int);
                match parse_any_token_in_array(lexer, identifier, initial_span, depth) {
                    Ok(ArrayParseResult::Single(value)) => {
                        elements.push(value);
                        proof {
                            models = models + step->Push_0;
                        }
                    },
                    Ok(ArrayParseResult::Multiple(mut values)) => {
                        elements.append(&mut values);
                        proof {
                            models = models + step->Push_0;
                        }
                    },
                    Ok(ArrayParseResult::EndArray(value)) => {
                        elements.push(value);
                        return close_block(elements, Ghost(models.push(Tree::Str(identifier@))), lexer.span());
                    },
                    Err(e) => {
                        return Err(e);
                    },
                }
            },
            Some(Ok(token)) => {
                match parse_simple_value(token) {
                    Ok(value) => {
                        elements.push(value);
                        proof {
                            models = models.push(crate::grammar::scalar(token@)->Some_0);
                        }
                    },
                    Err(_) => {
                        return Err(error_at(ErrorKind::NotScalar, lexer.span()));
                    },
                }
            },
        }
        proof {
            lexer.lemma_index_bounds();
        }
    }
}

/// Ends a block whose elements are `elements`, modelled by `models`, at the
/// `}` spanned by `close`.
fn close_block<'a>(elements: Vec<Value<'a>>, models: Ghost<Seq<Tree>>, close: Span) -> (r: Result<Value<'a>, Error>)
    requires
        elements@.len() == models@.len(),
        forall|k: int| 0 <= k < models@.len() ==> represents(#[trigger] elements@[k], models@[k]),
    ensures
        match finish(models@, 0, close) {
            Outcome::Parsed(t, _) => r matches Ok(v) && represents(v, t),
            Outcome::Failed(f, sp) => r matches Err(e) && reports(e, f, sp),
        },
{
    let ghost ms = models@;
    let ghost vs = elements@;
    let mut any_object = false;
    let mut k: usize = 0;
    while k < elements.len()
        invariant
            k <= elements@.len() == ms.len(),
            vs == elements@,
            forall|j: int| 0 <= j < ms.len() ==> represents(#[trigger] vs[j], ms[j]),
            any_object <==> exists|j: int| 0 <= j < k && (#[trigger] ms[j]) is Object,
        decreases elements@.len() - k,
    {
        proof {
            lemma_represents_object(vs[k as int], ms[k as int]);
        }
        if matches!(elements[k], Value::Object(_)) {
            any_object = true;
        }
        k = k + 1;
    }
    assert(any_object == has_object(ms));
    if any_object {
        proof {
            assert forall|j: int| 0 <= j < ms.len() implies ((#[trigger] vs[j]) is Object <==> ms[j] is Object) by {
                lemma_represents_object(vs[j], ms[j]);
            }
            lemma_flatten_represents(vs, ms);
        }
        match flatten_array(elements) {
            Ok(v) => {
                assert forall|j: int| 0 <= j < ms.len() implies (#[trigger] ms[j]) is Object by {
                    if !(vs[j] is Object) {
                        assert(!(vs[j] is Object));
                    }
                }
                assert(v matches Value::Object(m) && object_entries(m) == flatten_values(vs));
                assert(represents(v, Tree::Object(flatten_trees(ms))));
                Ok(v)
            },
            Err((message, _)) => {
                assert(!all_objects(ms)) by {
                    if all_objects(ms) {
                        assert forall|j: int| 0 <= j < vs.len() implies (#[trigger] vs[j]) is Object by {
                            assert(ms[j] is Object);
                        }
                    }
                }
                Err((message, close))
            },
        }
    } else if elements.len() == 0 {
        Ok(Value::Empty)
    } else {
        Ok(Value::Array(elements))
    }
}

/// What follows an identifier in a block.
pub enum ArrayParseResult<'a> {
    /// One element: the object `{identifier: value}`.
    Single(Value<'a>),
    /// Two elements: the identifier as a string, and the scalar after it.
    Multiple(Vec<Value<'a>>),
    /// The identifier as a string, as the block's last element; its `}` was read.
    EndArray(Value<'a>),
}

/// `r`, with the lexer `l` after it, is what the step `st` after an identifier
/// says.
pub open spec fn step_matches(st: IdentStep, r: Result<ArrayParseResult, Error>, start: int, l: Lexer, name: Seq<char>) -> bool {
    match st {
        IdentStep::Push(more, j) => l.index() == j && start < j && match r {
            Ok(ArrayParseResult::Single(v)) => more.len() == 1 && represents(v, more[0]),
            Ok(ArrayParseResult::Multiple(vs)) => vs@.len() == more.len() && forall|k: int|
                0 <= k < more.len() ==> represents(#[trigger] vs@[k], more[k]),
            _ => false,
        },
        IdentStep::Close(j, close) => l.index() == j && l.current_span() == close
            && (r matches Ok(ArrayParseResult::EndArray(v)) && represents(v, Tree::Str(name))),
        IdentStep::Fail(f, sp) => r matches Err(e) && reports(e, f, sp),
    }
}

/// Reads what follows the identifier `token_value` in a block opened at `open`:
/// `= value`, `}`, or another scalar.
fn parse_any_token_in_array<'a>(
    lexer: &mut Lexer<'a>,
    token_value: &'a str,
    open: Span,
    depth: usize,
) -> (r: Result<ArrayParseResult<'a>, Error>)
    requires
        old(lexer).wf(),
    ensures
        final(lexer).wf(),
        final(lexer).tokens() == old(lexer).tokens(),
        final(lexer).eof() == old(lexer).eof(),
        step_matches(
            after_ident(
                old(lexer).tokens(),
                old(lexer).index(),
                token_value@,
                open,
                old(lexer).eof(),
                depth as int,
            ),
            r,
            old(lexer).index(),
            *final(lexer),
            token_value@,
        ),
    decreases old(lexer).tokens().len() - old(lexer).index(), 2int,
{
    proof {
        lexer.lemma_index_bounds();
    }
    match lexer.next() {
        Some(Ok(Token::EqualSign)) => {
            let value = match parse_value_nested(lexer, depth) {
                Ok(v) => v,
                Err(e) => {
                    return Err(e);
                },
            };
            let mut object = ObjectMap::new();
            object.put(token_value, value);
            let ghost es = object_entries(object);
            assert(es.len() == 1 && es[0].0 == token_value@);
            Ok(ArrayParseResult::Single(Value::Object(object)))
        },
        Some(Ok(Token::BraceClose)) => Ok(ArrayParseResult::EndArray(Value::String(token_value))),
        Some(Ok(Token::BraceOpen)) => Err(error_at(ErrorKind::AfterIdentifier, lexer.span())),
        Some(Ok(token)) => {
            match parse_simple_value(token) {
                Ok(value) => Ok(ArrayParseResult::Multiple(vec![Value::String(token_value), value])),
                Err(_) => Err(error_at(ErrorKind::AfterIdentifier, lexer.span())),
            }
        },
        Some(Err(())) => Err(error_at(ErrorKind::Lex, lexer.span())),
        None => Err(error_at(ErrorKind::Unmatched, open)),
    }
}

/// Merges an array of objects into one object, in order; a later entry with
/// a key already present replaces its value and keeps its position. An empty
/// array gives `Empty`; an element that is not an object is an error.
pub fn flatten_array<'a>(objects: Vec<Value<'a>>) -> (r: Result<Value<'a>, Error>)
    ensures
        objects@.len() == 0 ==> r matches Ok(Value::Empty),
        objects@.len() > 0 && (forall|k: int| 0 <= k < objects@.len() ==> (#[trigger] objects@[k]) is Object)
            ==> (r matches Ok(Value::Object(m)) && object_entries(m) == flatten_values(objects@)),
        (exists|k: int| 0 <= k < objects@.len() && !((#[trigger] objects@[k]) is Object))
            ==> (r matches Err(e) && reports(e, Fault::Kind(ErrorKind::Mixed), Span { start: 0, end: 0 })),
{
    if objects.len() == 0 {
        return Ok(Value::Empty);
    }
    let ghost vs = objects@;
    let mut merged = ObjectMap::new();
    for object in it: objects.into_iter()
        invariant
            it.seq() == vs,
            forall|k: int| 0 <= k < it.index() ==> (#[trigger] vs[k]) is Object,
            object_entries(merged) == flatten_values(vs.subrange(0, it.index() as int)),
    {
        let ghost n = it.index() as int;
        assert(vs.subrange(0, n + 1).drop_last() =~= vs.subrange(0, n));
        match object {
            Value::Object(m) => merged.extend(m),
            _ => {
                return Err(error_at(ErrorKind::Mixed, Span { start: 0, end: 0 }));
            },
        }
    }
    assert(vs.subrange(0, vs.len() as int) =~= vs);
    Ok(Value::Object(merged))
}

} // verus!
