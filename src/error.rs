//! Parse errors: a message and the span of source it concerns.
use vstd::prelude::*;

use crate::token::{Lexeme, Span, Token};

verus! {

/// What went wrong, for the errors whose message is fixed.
#[derive(Clone, Copy, Debug, PartialEq, Eq, Structural)]
pub enum ErrorKind {
    /// Bytes that form no token.
    Lex,
    /// A `{` whose block is never closed.
    Unmatched,
    /// A token after an identifier in a block that can neither follow nor end it.
    AfterIdentifier,
    /// A block that holds objects and other values.
    Mixed,
    /// A structural token where a single value was expected.
    NotScalar,
    /// A `}` where a value was expected.
    CloseInValue,
    /// No value where one was expected.
    ExpectedValue,
    /// A `}` after a key that has no `=` and value.
    CloseAfterKey,
    /// The end of the input after a key that has no `=` and value.
    EndAfterKey,
    /// A scope that does not start with its name.
    ScopeName,
    /// A scope name not followed by `=`.
    ScopeEquals,
    /// A scope's `=` not followed by `{`.
    ScopeOpen,
    /// A block nested deeper than the parser allows.
    TooDeep,
}

/// Any error of the parser, as a model.
pub enum Fault {
    Kind(ErrorKind),
    /// A token that does not fit in an object, with the key that awaits its
    /// `=`, if any.
    InObject(Lexeme, Option<Seq<char>>),
}

/// An error: its message and the span of source it concerns.
pub type Error = (String, Span);

pub open spec fn kind_text(k: ErrorKind) -> Seq<char> {
    match k {
        ErrorKind::Lex => "unrecognised token"@,
        ErrorKind::Unmatched => "Unmatched opening bracket"@,
        ErrorKind::AfterIdentifier => "unexpected token after identifier in array"@,
        ErrorKind::Mixed => "array containing object is mixed with non-object value"@,
        ErrorKind::NotScalar => "unexpected token when expecting simple value"@,
        ErrorKind::CloseInValue => "unexpected '}' when expecting value"@,
        ErrorKind::ExpectedValue => "expected value"@,
        ErrorKind::CloseAfterKey => "unexpected '}', expected '=' followed by value after key"@,
        ErrorKind::EndAfterKey => "expected value after key"@,
        ErrorKind::ScopeName => "expected scope name"@,
        ErrorKind::ScopeEquals => "expected '=' after scope name"@,
        ErrorKind::ScopeOpen => "expected '{' after '='"@,
        ErrorKind::TooDeep => "blocks nested too deeply"@,
    }
}

/// std's debug form of a string: the text in double quotes, with quotes,
/// backslashes and control characters escaped.
pub uninterp spec fn debug_text(s: Seq<char>) -> Seq<char>;

/// A character that the debug form of a string shows as it is.
pub open spec fn plain_char(c: char) -> bool {
    ('a' <= c <= 'z') || ('A' <= c <= 'Z') || ('0' <= c <= '9') || c == '_' || c == ':' || c
        == '.' || c == '+' || c == '-'
}

/// The debug form of a string: text of plain characters in double quotes,
/// otherwise std's form.
pub open spec fn debug_form(s: Seq<char>) -> Seq<char> {
    if forall|i: int| 0 <= i < s.len() ==> plain_char(#[trigger] s[i]) {
        seq!['"'] + s + seq!['"']
    } else {
        debug_text(s)
    }
}

pub open spec fn digit_char(d: int) -> char {
    if d == 0 {
        '0'
    } else if d == 1 {
        '1'
    } else if d == 2 {
        '2'
    } else if d == 3 {
        '3'
    } else if d == 4 {
        '4'
    } else if d == 5 {
        '5'
    } else if d == 6 {
        '6'
    } else if d == 7 {
        '7'
    } else if d == 8 {
        '8'
    } else {
        '9'
    }
}

/// The decimal digits of `n`, without leading zeros.
pub open spec fn digits_text(n: nat) -> Seq<char>
    decreases n,
{
    if n < 10 {
        seq![digit_char(n as int)]
    } else {
        digits_text(n / 10).push(digit_char((n % 10) as int))
    }
}

/// `n` in decimal, with a leading `-` when negative.
pub open spec fn decimal_text(n: i64) -> Seq<char> {
    if n < 0 {
        seq!['-'] + digits_text((-n) as nat)
    } else {
        digits_text(n as nat)
    }
}

/// The debug form of a token: its variant's name, and what it holds in
/// parentheses.
pub open spec fn token_debug(t: Lexeme) -> Seq<char> {
    match t {
        Lexeme::Bool(b) => if b {
            "Bool(true)"@
        } else {
            "Bool(false)"@
        },
        Lexeme::BraceOpen => "BraceOpen"@,
        Lexeme::BraceClose => "BraceClose"@,
        Lexeme::EqualSign => "EqualSign"@,
        Lexeme::Null => "Null"@,
        Lexeme::Float(s) => "Float("@ + debug_form(s) + ")"@,
        Lexeme::Integer(n) => "Integer("@ + decimal_text(n) + ")"@,
        Lexeme::Str(s) => "String("@ + debug_form(s) + ")"@,
        Lexeme::Ident(s) => "Any("@ + debug_form(s) + ")"@,
    }
}

/// The debug form of the pending key: `None`, or `Some(...)` around the key's.
pub open spec fn key_debug(key: Option<Seq<char>>) -> Seq<char> {
    match key {
        None => "None"@,
        Some(k) => "Some("@ + debug_form(k) + ")"@,
    }
}

/// The message for a token that does not fit in an object: it names the
/// token and the key that awaits its `=`, both in their debug forms.
pub open spec fn object_context_text(token: Lexeme, key: Option<Seq<char>>) -> Seq<char> {
    "unexpected token '"@ + token_debug(token) + "' in object context, current_key: "@ + key_debug(
        key,
    )
}

pub open spec fn key_view(key: Option<&str>) -> Option<Seq<char>> {
    match key {
        Some(k) => Some(k@),
        None => None,
    }
}

pub open spec fn fault_text(f: Fault) -> Seq<char> {
    match f {
        Fault::Kind(k) => kind_text(k),
        Fault::InObject(l, key) => object_context_text(l, key),
    }
}

/// `e` is the error `f` at `span`.
pub open spec fn reports(e: Error, f: Fault, span: Span) -> bool {
    e.0@ == fault_text(f) && e.1 == span
}

/// The error of kind `kind` at `span`.
pub fn error_at(kind: ErrorKind, span: Span) -> (r: Error)
    ensures
        reports(r, Fault::Kind(kind), span),
{
    let text = match kind {
        ErrorKind::Lex => "unrecognised token",
        ErrorKind::Unmatched => "Unmatched opening bracket",
        ErrorKind::AfterIdentifier => "unexpected token after identifier in array",
        ErrorKind::Mixed => "array containing object is mixed with non-object value",
        ErrorKind::NotScalar => "unexpected token when expecting simple value",
        ErrorKind::CloseInValue => "unexpected '}' when expecting value",
        ErrorKind::ExpectedValue => "expected value",
        ErrorKind::CloseAfterKey => "unexpected '}', expected '=' followed by value after key",
        ErrorKind::EndAfterKey => "expected value after key",
        ErrorKind::ScopeName => "expected scope name",
        ErrorKind::ScopeEquals => "expected '=' after scope name",
        ErrorKind::ScopeOpen => "expected '{' after '='",
        ErrorKind::TooDeep => "blocks nested too deeply",
    };
    (text.to_owned(), span)
}

/// Relies on std's `Debug` for `str` (`format!` with `{:?}`): the text in
/// double quotes, where ASCII letters, digits and `_ : . + -` stand as they are.
#[verifier::external_body]
fn debug_str(s: &str) -> (r: String)
    ensures
        r@ == debug_text(s@),
        r@ == debug_form(s@),
{
    format!("{:?}", s)
}

/// Relies on String::push_str: appends the text.
#[verifier::external_body]
fn push_text(out: &mut String, s: &str)
    ensures
        final(out)@ == old(out)@ + s@,
{
    out.push_str(s)
}

/// Relies on String::push: appends the character.
#[verifier::external_body]
fn push_char(out: &mut String, c: char)
    ensures
        final(out)@ == old(out)@.push(c),
{
    out.push(c)
}

fn digit(d: u64) -> (c: char)
    requires
        d < 10,
    ensures
        c == digit_char(d as int),
{
    if d == 0 {
        '0'
    } else if d == 1 {
        '1'
    } else if d == 2 {
        '2'
    } else if d == 3 {
        '3'
    } else if d == 4 {
        '4'
    } else if d == 5 {
        '5'
    } else if d == 6 {
        '6'
    } else if d == 7 {
        '7'
    } else if d == 8 {
        '8'
    } else {
        '9'
    }
}

/// Appends the decimal digits of `m`.
fn push_digits(out: &mut String, m: u64)
    ensures
        final(out)@ == old(out)@ + digits_text(m as nat),
    decreases m,
{
    if m >= 10 {
        push_digits(out, m / 10);
        push_char(out, digit(m % 10));
        assert(final(out)@ =~= old(out)@ + digits_text(m as nat));
    } else {
        push_char(out, digit(m));
        assert(final(out)@ =~= old(out)@ + digits_text(m as nat));
    }
}

/// Appends `n` in decimal.
fn push_integer(out: &mut String, n: i64)
    ensures
        final(out)@ == old(out)@ + decimal_text(n),
{
    if n < 0 {
        push_char(out, '-');
        let m: u64 = if n == i64::MIN {
            0x8000_0000_0000_0000
        } else {
            (-n) as u64
        };
        push_digits(out, m);
        assert(final(out)@ =~= old(out)@ + decimal_text(n));
    } else {
        push_digits(out, n as u64);
    }
}

/// Appends `inner` in the debug form of a string, between `name(` and `)`.
fn push_wrapped(out: &mut String, name: &str, inner: &str)
    ensures
        final(out)@ == old(out)@ + name@ + "("@ + debug_form(inner@) + ")"@,
{
    push_text(out, name);
    push_text(out, "(");
    let d = debug_str(inner);
    push_text(out, d.as_str());
    push_text(out, ")");
    assert(final(out)@ =~= old(out)@ + name@ + "("@ + debug_form(inner@) + ")"@);
}

/// Appends the debug form of a token.
fn push_token_debug(out: &mut String, token: &Token)
    ensures
        final(out)@ == old(out)@ + token_debug(token@),
{
    match token {
        Token::Bool(true) => push_text(out, "Bool(true)"),
        Token::Bool(false) => push_text(out, "Bool(false)"),
        Token::BraceOpen => push_text(out, "BraceOpen"),
        Token::BraceClose => push_text(out, "BraceClose"),
        Token::EqualSign => push_text(out, "EqualSign"),
        Token::Null => push_text(out, "Null"),
        Token::Float(s) => {
            push_wrapped(out, "Float", s);
            assert("Float"@ + "("@ =~= "Float("@) by {
                reveal_strlit("Float");
                reveal_strlit("(");
                reveal_strlit("Float(");
            }
            assert(final(out)@ =~= old(out)@ + token_debug(token@));
        },
        Token::Integer(n) => {
            push_text(out, "Integer(");
            push_integer(out, *n);
            push_text(out, ")");
            assert(final(out)@ =~= old(out)@ + token_debug(token@));
        },
        Token::String(s) => {
            push_wrapped(out, "String", s);
            assert("String"@ + "("@ =~= "String("@) by {
                reveal_strlit("String");
                reveal_strlit("(");
                reveal_strlit("String(");
            }
            assert(final(out)@ =~= old(out)@ + token_debug(token@));
        },
        Token::Any(s) => {
            push_wrapped(out, "Any", s);
            assert("Any"@ + "("@ =~= "Any("@) by {
                reveal_strlit("Any");
                reveal_strlit("(");
                reveal_strlit("Any(");
            }
            assert(final(out)@ =~= old(out)@ + token_debug(token@));
        },
    }
}

/// The message for a token that does not fit in an object.
fn object_context_message(token: &Token, key: Option<&str>) -> (r: String)
    ensures
        r@ == object_context_text(token@, key_view(key)),
{
    let mut out = String::new();
    push_text(&mut out, "unexpected token '");
    push_token_debug(&mut out, token);
    push_text(&mut out, "' in object context, current_key: ");
    match key {
        None => push_text(&mut out, "None"),
        Some(k) => {
            push_wrapped(&mut out, "Some", k);
            assert("Some"@ + "("@ =~= "Some("@) by {
                reveal_strlit("Some");
                reveal_strlit("(");
                reveal_strlit("Some(");
            }
        },
    }
    assert(out@ =~= object_context_text(token@, key_view(key)));
    out
}

/// The error for a token that does not fit in an object, at `span`.
pub fn object_context_error(token: &Token, key: Option<&str>, span: Span) -> (r: Error)
    ensures
        reports(r, Fault::InObject(token@, key_view(key)), span),
{
    (object_context_message(token, key), span)
}

} // verus!
