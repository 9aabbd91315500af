//! The grammar of the language, over the token stream, as spec functions.
//! Each parse function reads tokens from index `i` and either yields a tree
//! with the index of the first token after it, or fails with an error and a
//! span. A parse always moves forward; where a rule goes on from the index a
//! nested parse returned, it checks that the index grew, which makes
//! termination evident (the parsers show that the check always holds).
use vstd::prelude::*;

use crate::error::{reports, Error, ErrorKind, Fault};
use crate::token::{Lexed, Lexeme, Lexer, Span};
use crate::value::{
    entries_represent, flatten_values, lemma_merge_represents, lemma_represents_object, merge, put,
    represents, value_entries, Entries, Tree, Value,
};

verus! {

/// How many blocks may be open at once. The parsers recurse once per open
/// block, so this bounds their stack use on any input.
pub const MAX_DEPTH: usize = 256;

pub enum Outcome {
    Parsed(Tree, int),
    Failed(Fault, Span),
}

/// What follows an identifier inside a block.
pub enum IdentStep {
    /// Elements to append, and the index after them.
    Push(Seq<Tree>, int),
    /// The block closes at the given index, with the span of its `}`.
    Close(int, Span),
    Fail(Fault, Span),
}

/// The value of a single token, if it is not structural.
pub open spec fn scalar(l: Lexeme) -> Option<Tree> {
    match l {
        Lexeme::Bool(b) => Some(Tree::Bool(b)),
        Lexeme::Null => Some(Tree::Null),
        Lexeme::Float(s) => Some(Tree::Float(s)),
        Lexeme::Integer(n) => Some(Tree::Integer(n)),
        Lexeme::Str(s) => Some(Tree::Str(s)),
        Lexeme::Ident(s) => Some(Tree::Str(s)),
        _ => None,
    }
}

pub open spec fn tree_entries(t: Tree) -> Entries<Tree> {
    match t {
        Tree::Object(es) => es,
        _ => Seq::empty(),
    }
}

/// The entries of the objects `ts`, merged in order.
pub open spec fn flatten_trees(ts: Seq<Tree>) -> Entries<Tree>
    decreases ts.len(),
{
    if ts.len() == 0 {
        Seq::empty()
    } else {
        merge(flatten_trees(ts.drop_last()), tree_entries(ts.last()))
    }
}

pub open spec fn has_object(ts: Seq<Tree>) -> bool {
    exists|k: int| 0 <= k < ts.len() && (#[trigger] ts[k]) is Object
}

pub open spec fn all_objects(ts: Seq<Tree>) -> bool {
    forall|k: int| 0 <= k < ts.len() ==> (#[trigger] ts[k]) is Object
}

/// A block with elements `elems` closes at the `}` spanned by `close`: no
/// elements give `Empty`; elements that include an object must all be objects
/// and merge into one; other elements form an array.
pub open spec fn finish(elems: Seq<Tree>, j: int, close: Span) -> Outcome {
    if elems.len() == 0 {
        Outcome::Parsed(Tree::Empty, j)
    } else if has_object(elems) {
        if all_objects(elems) {
            Outcome::Parsed(Tree::Object(flatten_trees(elems)), j)
        } else {
            Outcome::Failed(Fault::Kind(ErrorKind::Mixed), close)
        }
    } else {
        Outcome::Parsed(Tree::Array(elems), j)
    }
}

/// A value starting at token `i`, inside `depth` open blocks: a scalar, or a
/// block after `{`.
pub open spec fn value_at(ts: Seq<Lexed>, i: int, eof: Span, depth: int) -> Outcome
    decreases ts.len() - i, 0int,
{
    if i < 0 || i >= ts.len() {
        Outcome::Failed(Fault::Kind(ErrorKind::ExpectedValue), eof)
    } else {
        match ts[i] {
            Lexed::Invalid(sp) => Outcome::Failed(Fault::Kind(ErrorKind::Lex), sp),
            Lexed::Token(Lexeme::BraceOpen, sp) => if depth >= MAX_DEPTH {
                Outcome::Failed(Fault::Kind(ErrorKind::TooDeep), sp)
            } else {
                block_at(ts, i + 1, sp, Seq::empty(), eof, depth + 1)
            },
            Lexed::Token(Lexeme::BraceClose, sp) => Outcome::Failed(
                Fault::Kind(ErrorKind::CloseInValue),
                sp,
            ),
            Lexed::Token(l, sp) => match scalar(l) {
                Some(t) => Outcome::Parsed(t, i + 1),
                None => Outcome::Failed(Fault::Kind(ErrorKind::ExpectedValue), sp),
            },
        }
    }
}

/// The rest of a block from token `i`, opened at `open`, with the elements
/// `elems` read so far; with it, `depth` blocks are open.
pub open spec fn block_at(
    ts: Seq<Lexed>,
    i: int,
    open: Span,
    elems: Seq<Tree>,
    eof: Span,
    depth: int,
) -> Outcome
    decreases ts.len() - i, 0int,
{
    if i < 0 || i >= ts.len() {
        Outcome::Failed(Fault::Kind(ErrorKind::Unmatched), open)
    } else {
        match ts[i] {
            Lexed::Invalid(sp) => Outcome::Failed(Fault::Kind(ErrorKind::Lex), sp),
            Lexed::Token(Lexeme::BraceClose, sp) => finish(elems, i + 1, sp),
            Lexed::Token(Lexeme::BraceOpen, sp) => if depth >= MAX_DEPTH {
                Outcome::Failed(Fault::Kind(ErrorKind::TooDeep), sp)
            } else {
                match block_at(ts, i + 1, sp, Seq::empty(), eof, depth + 1) {
                    Outcome::Parsed(t, j) => if i < j <= ts.len() {
                        block_at(ts, j, open, elems.push(t), eof, depth)
                    } else {
                        Outcome::Failed(Fault::Kind(ErrorKind::Unmatched), open)
                    },
                    Outcome::Failed(f, s) => Outcome::Failed(f, s),
                }
            },
            Lexed::Token(Lexeme::Ident(name), _) => match after_ident(ts, i + 1, name, open, eof, depth) {
                IdentStep::Push(more, j) => if i < j <= ts.len() {
                    block_at(ts, j, open, elems + more, eof, depth)
                } else {
                    Outcome::Failed(Fault::Kind(ErrorKind::Unmatched), open)
                },
                IdentStep::Close(j, close) => finish(elems.push(Tree::Str(name)), j, close),
                IdentStep::Fail(f, s) => Outcome::Failed(f, s),
            },
            Lexed::Token(l, sp) => match scalar(l) {
                Some(t) => block_at(ts, i + 1, open, elems.push(t), eof, depth),
                None => Outcome::Failed(Fault::Kind(ErrorKind::NotScalar), sp),
            },
        }
    }
}

/// Inside a block, the tokens from `i` after the identifier `name`: `= value`
/// makes a one-key object; `}` makes the identifier the last element and
/// closes the block; another scalar makes two elements.
pub open spec fn after_ident(
    ts: Seq<Lexed>,
    i: int,
    name: Seq<char>,
    open: Span,
    eof: Span,
    depth: int,
) -> IdentStep
    decreases ts.len() - i, 1int,
{
    if i < 0 || i >= ts.len() {
        IdentStep::Fail(Fault::Kind(ErrorKind::Unmatched), open)
    } else {
        match ts[i] {
            Lexed::Invalid(sp) => IdentStep::Fail(Fault::Kind(ErrorKind::Lex), sp),
            Lexed::Token(Lexeme::EqualSign, _) => match value_at(ts, i + 1, eof, depth) {
                Outcome::Parsed(v, j) => IdentStep::Push(seq![Tree::Object(seq![(name, v)])], j),
                Outcome::Failed(f, s) => IdentStep::Fail(f, s),
            },
            Lexed::Token(Lexeme::BraceClose, sp) => IdentStep::Close(i + 1, sp),
            Lexed::Token(l, sp) => match scalar(l) {
                Some(t) => IdentStep::Push(seq![Tree::Str(name), t], i + 1),
                None => IdentStep::Fail(Fault::Kind(ErrorKind::AfterIdentifier), sp),
            },
        }
    }
}

/// The `key = value` pairs from token `i`, inside `depth` open blocks, with
/// the entries `es` read so far and the key that awaits its `=`, if any. At
/// the top level a `}` is an error and the end of the input ends the object;
/// otherwise a `}` ends the object, which the `{` spanned by `open` began, and
/// the end of the input leaves that brace unmatched.
pub open spec fn object_at(
    ts: Seq<Lexed>,
    i: int,
    top: bool,
    pending: Option<Seq<char>>,
    es: Entries<Tree>,
    open: Span,
    eof: Span,
    depth: int,
) -> Outcome
    decreases ts.len() - i,
{
    if i < 0 || i >= ts.len() {
        match pending {
            None => if top {
                Outcome::Parsed(Tree::Object(es), i)
            } else {
                Outcome::Failed(Fault::Kind(ErrorKind::Unmatched), open)
            },
            Some(_) => Outcome::Failed(Fault::Kind(ErrorKind::EndAfterKey), eof),
        }
    } else {
        match ts[i] {
            Lexed::Invalid(sp) => Outcome::Failed(Fault::Kind(ErrorKind::Lex), sp),
            Lexed::Token(l, sp) => match (l, pending) {
                (Lexeme::BraceClose, Some(_)) => Outcome::Failed(
                    Fault::Kind(ErrorKind::CloseAfterKey),
                    sp,
                ),
                (Lexeme::BraceClose, None) => if top {
                    Outcome::Failed(Fault::InObject(Lexeme::BraceClose, None), sp)
                } else {
                    Outcome::Parsed(Tree::Object(es), i + 1)
                },
                (Lexeme::Ident(k), None) => object_at(ts, i + 1, top, Some(k), es, open, eof, depth),
                (Lexeme::EqualSign, Some(k)) => match value_at(ts, i + 1, eof, depth) {
                    Outcome::Parsed(v, j) => if i < j <= ts.len() {
                        object_at(ts, j, top, None, put(es, k, v), open, eof, depth)
                    } else {
                        Outcome::Failed(Fault::Kind(ErrorKind::ExpectedValue), eof)
                    },
                    Outcome::Failed(f, s) => Outcome::Failed(f, s),
                },
                (token, key) => Outcome::Failed(Fault::InObject(token, key), sp),
            },
        }
    }
}

/// A whole program: top-level `key = value` pairs.
pub open spec fn program(ts: Seq<Lexed>, eof: Span) -> Outcome {
    object_at(ts, 0, true, None, Seq::empty(), Span { start: 0, end: 0 }, eof, 0)
}

} // verus!

verus! {

/// The merged entries of values model the merged entries of their models.
pub proof fn lemma_flatten_represents(vs: Seq<Value>, ts: Seq<Tree>)
    requires
        vs.len() == ts.len(),
        forall|k: int| 0 <= k < ts.len() ==> represents(#[trigger] vs[k], ts[k]),
    ensures
        entries_represent(flatten_values(vs), flatten_trees(ts)),
    decreases ts.len(),
{
    if ts.len() > 0 {
        lemma_flatten_represents(vs.drop_last(), ts.drop_last());
        let v = vs.last();
        let t = ts.last();
        assert(represents(vs[ts.len() - 1], ts[ts.len() - 1]));
        lemma_represents_object(v, t);
        if !(t is Object) {
            assert(entries_represent(value_entries(v), tree_entries(t)));
        }
        lemma_merge_represents(
            flatten_values(vs.drop_last()),
            flatten_trees(ts.drop_last()),
            value_entries(v),
            tree_entries(t),
        );
    }
}

/// `r`, with the lexer `l` after it, is what the outcome `o` of parsing from
/// token `start` says.
pub open spec fn outcome_matches(o: Outcome, r: Result<Value, Error>, start: int, l: Lexer) -> bool {
    match o {
        Outcome::Parsed(t, j) => l.index() == j && start < j && (r matches Ok(v) && represents(v, t)),
        Outcome::Failed(f, sp) => r matches Err(e) && reports(e, f, sp),
    }
}

} // verus!
