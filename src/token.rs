//! Tokens of the configuration language and the lexer that produces them.
use vstd::prelude::*;
use vstd::string::StringSliceAdditionalSpecFns;
use vstd::utf8::*;

verus! {

broadcast use vstd::utf8::group_utf8_lib;

/// A half-open byte range `[start, end)` into the source text.
#[derive(Clone, Copy, Debug, PartialEq, Eq, Structural)]
pub struct Span {
    pub start: usize,
    pub end: usize,
}

/// What a token is, with its text as characters.
pub enum Lexeme {
    Bool(bool),
    BraceOpen,
    BraceClose,
    EqualSign,
    Null,
    /// A number with a fractional part, kept as its source text.
    Float(Seq<char>),
    Integer(i64),
    /// A quoted string, without its delimiting quotes.
    Str(Seq<char>),
    /// A bare word.
    Ident(Seq<char>),
}

/// One item of the token stream: a token, or bytes that form no token.
pub enum Lexed {
    Token(Lexeme, Span),
    Invalid(Span),
}

/// The text of the source bytes `[s, e)`.
pub open spec fn text_of(b: Seq<u8>, s: int, e: int) -> Seq<char> {
    decode_utf8(b.subrange(s, e))
}

pub open spec fn is_space_byte(c: u8) -> bool {
    c == 0x20 || c == 0x09 || c == 0x0d || c == 0x0a || c == 0x0c
}

/// A byte order mark (U+FEFF) starts at `i`.
pub open spec fn bom_at(b: Seq<u8>, i: int) -> bool {
    0 <= i && i + 3 <= b.len() && b[i] == 0xef && b[i + 1] == 0xbb && b[i + 2] == 0xbf
}

/// The first newline at or after `i`, or the end of the input.
pub open spec fn newline_from(b: Seq<u8>, i: int) -> int
    decreases b.len() - i,
{
    if i < 0 || i >= b.len() {
        b.len() as int
    } else if b[i] == 0x0a {
        i
    } else {
        newline_from(b, i + 1)
    }
}

/// The position after the whitespace and comments that start at `i`.
/// A comment runs from `#` to the next newline, which it includes.
pub open spec fn skip_trivia(b: Seq<u8>, i: int) -> int
    decreases b.len() - i,
{
    if i < 0 || i >= b.len() {
        i
    } else if is_space_byte(b[i]) {
        skip_trivia(b, i + 1)
    } else if bom_at(b, i) {
        skip_trivia(b, i + 3)
    } else if b[i] == 0x23 && i < newline_from(b, i + 1) < b.len() {
        skip_trivia(b, newline_from(b, i + 1) + 1)
    } else {
        i
    }
}

pub open spec fn is_letter(c: u8) -> bool {
    (0x41 <= c <= 0x5a) || (0x61 <= c <= 0x7a)
}

pub open spec fn is_digit(c: u8) -> bool {
    0x30 <= c <= 0x39
}

pub open spec fn is_hex_digit(c: u8) -> bool {
    is_digit(c) || (0x41 <= c <= 0x46) || (0x61 <= c <= 0x66)
}

pub open spec fn is_ident_byte(c: u8) -> bool {
    is_letter(c) || is_digit(c) || c == 0x5f || c == 0x3a
}

/// The end of the run of identifier bytes that starts at `i`.
pub open spec fn ident_end(b: Seq<u8>, i: int) -> int
    decreases b.len() - i,
{
    if 0 <= i < b.len() && is_ident_byte(b[i]) {
        ident_end(b, i + 1)
    } else {
        i
    }
}

/// The end of the run of decimal digits that starts at `i`.
pub open spec fn digits_end(b: Seq<u8>, i: int) -> int
    decreases b.len() - i,
{
    if 0 <= i < b.len() && is_digit(b[i]) {
        digits_end(b, i + 1)
    } else {
        i
    }
}

/// The escapes that may follow a backslash on their own: `" \ / b f n r t`.
pub open spec fn is_simple_escape(c: u8) -> bool {
    c == 0x22 || c == 0x5c || c == 0x2f || c == 0x62 || c == 0x66 || c == 0x6e || c == 0x72
        || c == 0x74
}

/// `\uXXXX` starts at `i`.
pub open spec fn unicode_escape_at(b: Seq<u8>, i: int) -> bool {
    0 <= i && i + 6 <= b.len() && b[i] == 0x5c && b[i + 1] == 0x75 && is_hex_digit(b[i + 2])
        && is_hex_digit(b[i + 3]) && is_hex_digit(b[i + 4]) && is_hex_digit(b[i + 5])
}

/// Scanning the body of a quoted string from `i`: the position of its closing
/// quote, or -1 when the string is never closed or holds a control byte or a
/// malformed escape.
pub open spec fn string_close(b: Seq<u8>, i: int) -> int
    decreases b.len() - i,
{
    if i < 0 || i >= b.len() {
        -1
    } else if b[i] == 0x22 {
        i
    } else if b[i] == 0x5c {
        if i + 1 < b.len() && is_simple_escape(b[i + 1]) {
            string_close(b, i + 2)
        } else if unicode_escape_at(b, i) {
            string_close(b, i + 6)
        } else {
            -1
        }
    } else if b[i] < 0x20 {
        -1
    } else {
        string_close(b, i + 1)
    }
}

/// The value of a run of decimal digits.
pub open spec fn decimal(ds: Seq<u8>) -> int
    decreases ds.len(),
{
    if ds.len() == 0 {
        0
    } else {
        decimal(ds.drop_last()) * 10 + (ds.last() - 0x30)
    }
}

/// The end of an optional exponent (`e` or `E`, an optional sign, digits) at `f`.
pub open spec fn exponent_end(b: Seq<u8>, f: int) -> int {
    if 0 <= f < b.len() && (b[f] == 0x65 || b[f] == 0x45) {
        let s = if f + 1 < b.len() && (b[f + 1] == 0x2b || b[f + 1] == 0x2d) {
            f + 2
        } else {
            f + 1
        };
        if s < b.len() && is_digit(b[s]) {
            digits_end(b, s)
        } else {
            f
        }
    } else {
        f
    }
}

pub open spec fn span_of(s: int, e: int) -> Span {
    Span { start: s as usize, end: e as usize }
}

/// The number that starts at `i` (at a digit or `-`). A float needs digits after
/// a point and an integer part that is `0` or has no leading zero; otherwise the
/// digits form an integer, which must fit in `i64`.
pub open spec fn number_at(b: Seq<u8>, i: int) -> Lexed {
    let k = if b[i] == 0x2d {
        i + 1
    } else {
        i
    };
    let d = digits_end(b, k);
    if d == k {
        Lexed::Invalid(span_of(i, i + 1))
    } else if (b[k] != 0x30 || d == k + 1) && d + 1 < b.len() && b[d] == 0x2e && is_digit(
        b[d + 1],
    ) {
        let e = exponent_end(b, digits_end(b, d + 1));
        Lexed::Token(Lexeme::Float(text_of(b, i, e)), span_of(i, e))
    } else {
        let v = if b[i] == 0x2d {
            -decimal(b.subrange(k, d))
        } else {
            decimal(b.subrange(k, d))
        };
        if i64::MIN <= v <= i64::MAX {
            Lexed::Token(Lexeme::Integer(v as i64), span_of(i, d))
        } else {
            Lexed::Invalid(span_of(i, i + 1))
        }
    }
}

/// The identifier or keyword that starts at `i` (at a letter). A word that is
/// exactly `true`, `false` or `null` is that keyword.
pub open spec fn word_at(b: Seq<u8>, i: int) -> Lexed {
    let e = ident_end(b, i);
    let w = b.subrange(i, e);
    let sp = span_of(i, e);
    if w == seq![0x74u8, 0x72u8, 0x75u8, 0x65u8] {
        Lexed::Token(Lexeme::Bool(true), sp)
    } else if w == seq![0x66u8, 0x61u8, 0x6cu8, 0x73u8, 0x65u8] {
        Lexed::Token(Lexeme::Bool(false), sp)
    } else if w == seq![0x6eu8, 0x75u8, 0x6cu8, 0x6cu8] {
        Lexed::Token(Lexeme::Null, sp)
    } else {
        Lexed::Token(Lexeme::Ident(text_of(b, i, e)), sp)
    }
}

/// The token that starts exactly at `i`, where `0 <= i < b.len()`.
pub open spec fn token_at(b: Seq<u8>, i: int) -> Lexed {
    let c = b[i];
    if c == 0x7b {
        Lexed::Token(Lexeme::BraceOpen, span_of(i, i + 1))
    } else if c == 0x7d {
        Lexed::Token(Lexeme::BraceClose, span_of(i, i + 1))
    } else if c == 0x3d {
        Lexed::Token(Lexeme::EqualSign, span_of(i, i + 1))
    } else if c == 0x22 {
        let q = string_close(b, i + 1);
        if q < 0 {
            Lexed::Invalid(span_of(i, i + 1))
        } else {
            Lexed::Token(Lexeme::Str(text_of(b, i + 1, q)), span_of(i, q + 1))
        }
    } else if is_letter(c) {
        word_at(b, i)
    } else if is_digit(c) || c == 0x2d {
        number_at(b, i)
    } else {
        Lexed::Invalid(span_of(i, i + 1))
    }
}

/// The tokens of `b` from byte `p` on. The stream stops after the first
/// invalid item. Every token ends after `p` (the lexer shows it); the check
/// on `sp.end` makes termination evident.
pub open spec fn tokens_from(b: Seq<u8>, p: int) -> Seq<Lexed>
    decreases b.len() - p,
{
    let i = skip_trivia(b, p);
    if p < 0 || i >= b.len() || i < p {
        seq![]
    } else {
        match token_at(b, i) {
            Lexed::Token(l, sp) => if p < sp.end <= b.len() {
                seq![Lexed::Token(l, sp)] + tokens_from(b, sp.end as int)
            } else {
                seq![]
            },
            Lexed::Invalid(sp) => seq![Lexed::Invalid(sp)],
        }
    }
}

/// The tokens of a whole source text.
pub open spec fn tokens_of(s: &str) -> Seq<Lexed> {
    tokens_from(s.spec_bytes(), 0)
}

/// In valid UTF-8, the positions before and after an ASCII byte are character
/// boundaries.
pub proof fn lemma_ascii_boundaries(b: Seq<u8>, k: int)
    requires
        valid_utf8(b),
        0 <= k < b.len(),
        b[k] < 0x80,
    ensures
        is_char_boundary(b, k),
        is_char_boundary(b, k + 1),
{
    is_char_boundary_iff_not_is_continuation_byte(b, k);
    if k + 1 < b.len() {
        valid_utf8_split(b, k);
        let tail = b.subrange(k, b.len() as int);
        assert(tail[0] == b[k]);
        assert(length_of_first_scalar(tail) == 1);
        let rest = pop_first_scalar(tail);
        assert(rest =~= b.subrange(k + 1, b.len() as int));
        assert(valid_utf8(rest));
        is_char_boundary_iff_not_is_continuation_byte(rest, 0);
        assert(rest[0] == b[k + 1]);
        is_char_boundary_iff_not_is_continuation_byte(b, k + 1);
    } else {
        is_char_boundary_start_end_of_seq(b);
    }
}

/// Skips whitespace and comments from `i`.
fn skip_trivia_at(b: &[u8], from: usize) -> (r: usize)
    requires
        from <= b@.len(),
    ensures
        r == skip_trivia(b@, from as int),
        from <= r <= b@.len(),
{
    let n = b.len();
    let mut i = from;
    loop
        invariant
            i <= n == b@.len(),
            skip_trivia(b@, from as int) == skip_trivia(b@, i as int),
            from <= i,
        decreases n - i,
    {
        if i >= n {
            return i;
        }
        let c = b[i];
        if c == 0x20 || c == 0x09 || c == 0x0d || c == 0x0a || c == 0x0c {
            i = i + 1;
        } else if n - i >= 3 && c == 0xef && b[i + 1] == 0xbb && b[i + 2] == 0xbf {
            i = i + 3;
        } else if c == 0x23 {
            let mut j = i + 1;
            while j < n && b[j] != 0x0a
                invariant
                    i < j <= n == b@.len(),
                    newline_from(b@, i + 1) == newline_from(b@, j as int),
                decreases n - j,
            {
                j = j + 1;
            }
            if j < n {
                i = j + 1;
            } else {
                return i;
            }
        } else {
            return i;
        }
    }
}

fn scan_ident(b: &[u8], from: usize) -> (r: usize)
    requires
        from <= b@.len(),
    ensures
        r == ident_end(b@, from as int),
        from <= r <= b@.len(),
{
    let n = b.len();
    let mut i = from;
    while i < n && (b[i] >= 0x41 && b[i] <= 0x5a || b[i] >= 0x61 && b[i] <= 0x7a || b[i] >= 0x30
        && b[i] <= 0x39 || b[i] == 0x5f || b[i] == 0x3a)
        invariant
            from <= i <= n == b@.len(),
            ident_end(b@, from as int) == ident_end(b@, i as int),
        decreases n - i,
    {
        i = i + 1;
    }
    i
}

fn scan_digits(b: &[u8], from: usize) -> (r: usize)
    requires
        from <= b@.len(),
    ensures
        r == digits_end(b@, from as int),
        from <= r <= b@.len(),
{
    let n = b.len();
    let mut i = from;
    while i < n && b[i] >= 0x30 && b[i] <= 0x39
        invariant
            from <= i <= n == b@.len(),
            digits_end(b@, from as int) == digits_end(b@, i as int),
        decreases n - i,
    {
        i = i + 1;
    }
    i
}

fn is_hex(c: u8) -> (r: bool)
    ensures
        r == is_hex_digit(c),
{
    c >= 0x30 && c <= 0x39 || c >= 0x41 && c <= 0x46 || c >= 0x61 && c <= 0x66
}

proof fn lemma_string_close_bounds(b: Seq<u8>, i: int)
    ensures
        string_close(b, i) >= 0 ==> i <= string_close(b, i) < b.len() && b[string_close(b, i)]
            == 0x22,
    decreases b.len() - i,
{
    if 0 <= i < b.len() && b[i] != 0x22 {
        if b[i] == 0x5c {
            if i + 1 < b.len() && is_simple_escape(b[i + 1]) {
                lemma_string_close_bounds(b, i + 2);
            } else if unicode_escape_at(b, i) {
                lemma_string_close_bounds(b, i + 6);
            }
        } else if b[i] >= 0x20 {
            lemma_string_close_bounds(b, i + 1);
        }
    }
}

/// Finds the closing quote of a string whose body starts at `from`.
fn scan_string(b: &[u8], from: usize) -> (r: Option<usize>)
    requires
        from <= b@.len(),
    ensures
        r is None <==> string_close(b@, from as int) < 0,
        r matches Some(q) ==> q == string_close(b@, from as int) && from <= q < b@.len() && b@[q as int]
            == 0x22,
{
    let n = b.len();
    let mut i = from;
    loop
        invariant
            from <= i <= n == b@.len(),
            string_close(b@, from as int) == string_close(b@, i as int),
        decreases n - i,
    {
        proof {
            lemma_string_close_bounds(b@, i as int);
        }
        if i >= n {
            return None;
        }
        let c = b[i];
        if c == 0x22 {
            return Some(i);
        } else if c == 0x5c {
            if n - i >= 2 && (b[i + 1] == 0x22 || b[i + 1] == 0x5c || b[i + 1] == 0x2f || b[i + 1]
                == 0x62 || b[i + 1] == 0x66 || b[i + 1] == 0x6e || b[i + 1] == 0x72 || b[i + 1]
                == 0x74) {
                i = i + 2;
            } else if n - i >= 6 && b[i + 1] == 0x75 && is_hex(b[i + 2]) && is_hex(b[i + 3])
                && is_hex(b[i + 4]) && is_hex(b[i + 5]) {
                i = i + 6;
            } else {
                return None;
            }
        } else if c < 0x20 {
            return None;
        } else {
            i = i + 1;
        }
    }
}

fn scan_exponent(b: &[u8], f: usize) -> (r: usize)
    requires
        f <= b@.len(),
    ensures
        r == exponent_end(b@, f as int),
        f <= r <= b@.len(),
{
    let n = b.len();
    if f < n && (b[f] == 0x65 || b[f] == 0x45) {
        let s = if n - f >= 2 && (b[f + 1] == 0x2b || b[f + 1] == 0x2d) {
            f + 2
        } else {
            f + 1
        };
        if s < n && b[s] >= 0x30 && b[s] <= 0x39 {
            scan_digits(b, s)
        } else {
            f
        }
    } else {
        f
    }
}

proof fn lemma_decimal_grows(ds: Seq<u8>, k: int)
    requires
        0 <= k <= ds.len(),
        forall|j: int| 0 <= j < ds.len() ==> is_digit(#[trigger] ds[j]),
    ensures
        decimal(ds.subrange(0, k)) <= decimal(ds),
        decimal(ds.subrange(0, k)) >= 0,
    decreases ds.len(),
{
    if ds.len() > 0 {
        if k == ds.len() {
            assert(ds.subrange(0, k) =~= ds);
            lemma_decimal_grows(ds.drop_last(), 0);
        } else {
            lemma_decimal_grows(ds.drop_last(), k);
            assert(ds.drop_last().subrange(0, k) =~= ds.subrange(0, k));
        }
    } else {
        assert(ds.subrange(0, k) =~= ds);
    }
}

/// The value of the digits `[k, d)`, negated when `negative`, if it fits in `i64`.
fn scan_integer(b: &[u8], k: usize, d: usize, negative: bool) -> (r: Option<i64>)
    requires
        k <= d <= b@.len(),
        forall|j: int| k <= j < d ==> is_digit(#[trigger] b@[j]),
    ensures
        ({
            let v = if negative {
                -decimal(b@.subrange(k as int, d as int))
            } else {
                decimal(b@.subrange(k as int, d as int))
            };
            if i64::MIN <= v <= i64::MAX {
                r == Some(v as i64)
            } else {
                r is None
            }
        }),
{
    let ghost ds = b@.subrange(k as int, d as int);
    let limit: u64 = 0x8000_0000_0000_0000;
    let mut acc: u64 = 0;
    let mut i = k;
    while i < d
        invariant
            k <= i <= d <= b@.len(),
            ds == b@.subrange(k as int, d as int),
            forall|j: int| k <= j < d ==> is_digit(#[trigger] b@[j]),
            acc == decimal(b@.subrange(k as int, i as int)),
            acc <= limit,
            limit == 0x8000_0000_0000_0000u64,
        decreases d - i,
    {
        assert(is_digit(b@[i as int]));
        let digit = (b[i] - 0x30) as u64;
        let ghost next = b@.subrange(k as int, i + 1);
        assert(next.drop_last() =~= b@.subrange(k as int, i as int));
        assert(next.last() == b@[i as int]);
        assert(decimal(next) == acc * 10 + digit);
        if acc > (limit - digit) / 10 {
            proof {
                assert(acc * 10 + digit > limit) by (nonlinear_arith)
                    requires
                        acc > (limit - digit) / 10,
                        digit <= 9,
                        limit == 0x8000_0000_0000_0000u64,
                ;
                assert(ds.subrange(0, i + 1 - k) =~= b@.subrange(k as int, i + 1));
                lemma_decimal_grows(ds, i + 1 - k);
            }
            return None;
        }
        assert(acc * 10 + digit <= limit) by (nonlinear_arith)
            requires
                acc <= (limit - digit) / 10,
                digit <= 9,
                limit == 0x8000_0000_0000_0000u64,
        ;
        acc = acc * 10 + digit;
        i = i + 1;
    }
    assert(b@.subrange(k as int, i as int) =~= ds);
    if negative {
        if acc == limit {
            Some(i64::MIN)
        } else {
            Some(-(acc as i64))
        }
    } else if acc <= 0x7fff_ffff_ffff_ffff {
        Some(acc as i64)
    } else {
        None
    }
}

/// A token, borrowing its text from the source.
#[derive(Debug, Clone, Copy, PartialEq)]
pub enum Token<'a> {
    Bool(bool),
    BraceOpen,
    BraceClose,
    EqualSign,
    Null,
    /// A number with a fractional part, as written in the source.
    Float(&'a str),
    Integer(i64),
    /// A quoted string, without its delimiting quotes; escapes are kept as written.
    String(&'a str),
    /// A bare word: a letter followed by letters, digits, `_` or `:`.
    Any(&'a str),
}

impl<'a> View for Token<'a> {
    type V = Lexeme;

    open spec fn view(&self) -> Lexeme {
        match *self {
            Token::Bool(v) => Lexeme::Bool(v),
            Token::BraceOpen => Lexeme::BraceOpen,
            Token::BraceClose => Lexeme::BraceClose,
            Token::EqualSign => Lexeme::EqualSign,
            Token::Null => Lexeme::Null,
            Token::Float(t) => Lexeme::Float(t@),
            Token::Integer(n) => Lexeme::Integer(n),
            Token::String(t) => Lexeme::Str(t@),
            Token::Any(t) => Lexeme::Ident(t@),
        }
    }
}

impl<'a> Token<'a> {
    /// A lexer over `source`, positioned before its first token.
    pub fn lexer(source: &'a str) -> (r: Lexer<'a>)
        ensures
            r.wf(),
            r.tokens() == tokens_of(source),
            r.index() == 0,
            r.current_span() == (Span { start: 0, end: 0 }),
            r.eof() == span_of(source.spec_bytes().len() as int, source.spec_bytes().len() as int),
    {
        Lexer::new(source)
    }
}

/// Produces the tokens of a source text one at a time, remembering the span of
/// the last one.
pub struct Lexer<'a> {
    source: &'a str,
    pos: usize,
    span: Span,
    consumed: Ghost<int>,
}

impl<'a> Lexer<'a> {
    /// All the tokens of the source.
    pub closed spec fn tokens(&self) -> Seq<Lexed> {
        tokens_of(self.source)
    }

    /// How many tokens have been handed out.
    pub closed spec fn index(&self) -> int {
        self.consumed@
    }

    /// The span of the last token handed out.
    pub closed spec fn current_span(&self) -> Span {
        self.span
    }

    /// The empty span at the end of the source.
    pub closed spec fn eof(&self) -> Span {
        span_of(self.source.spec_bytes().len() as int, self.source.spec_bytes().len() as int)
    }

    pub closed spec fn wf(&self) -> bool {
        let b = self.source.spec_bytes();
        &&& self.pos <= b.len()
        &&& 0 <= self.consumed@ <= self.tokens().len()
        &&& tokens_from(b, self.pos as int) == self.tokens().subrange(
            self.consumed@,
            self.tokens().len() as int,
        )
    }

    /// A well-formed lexer has handed out at most all of its tokens.
    pub proof fn lemma_index_bounds(&self)
        requires
            self.wf(),
        ensures
            0 <= self.index() <= self.tokens().len(),
    {
    }

    pub fn new(source: &'a str) -> (r: Lexer<'a>)
        ensures
            r.wf(),
            r.tokens() == tokens_of(source),
            r.index() == 0,
            r.current_span() == (Span { start: 0, end: 0 }),
            r.eof() == span_of(source.spec_bytes().len() as int, source.spec_bytes().len() as int),
    {
        let r = Lexer { source, pos: 0, span: Span { start: 0, end: 0 }, consumed: Ghost(0) };
        assert(r.tokens().subrange(0, r.tokens().len() as int) =~= r.tokens());
        r
    }

    /// The span of the last token handed out, or the empty span at the end of
    /// the source once the tokens have run out.
    pub fn span(&self) -> (r: Span)
        ensures
            r == self.current_span(),
    {
        self.span
    }

    /// The next token, `Err(())` for bytes that form no token, or `None` once
    /// the tokens have run out. After an invalid item nothing more comes.
    pub fn next(&mut self) -> (r: Option<Result<Token<'a>, ()>>)
        requires
            old(self).wf(),
        ensures
            final(self).wf(),
            final(self).tokens() == old(self).tokens(),
            final(self).eof() == old(self).eof(),
            old(self).index() < old(self).tokens().len() ==> final(self).index() == old(self).index()
                + 1,
            old(self).index() < old(self).tokens().len() ==> match old(self).tokens()[old(self).index()] {
                Lexed::Token(l, sp) => r matches Some(Ok(t)) && t@ == l
                    && final(self).current_span() == sp,
                Lexed::Invalid(sp) => r == Some(Err::<Token<'a>, ()>(()))
                    && final(self).current_span() == sp,
            },
            old(self).index() >= old(self).tokens().len() ==> r is None && final(self).index()
                == old(self).index() && final(self).current_span() == old(self).eof(),
    {
        let b = self.source.as_bytes();
        let n = b.len();
        let ghost all = self.tokens();
        let ghost idx = self.consumed@;
        let ghost p = self.pos as int;
        let i = skip_trivia_at(b, self.pos);
        if i >= n {
            self.pos = n;
            self.span = Span { start: n, end: n };
            assert(tokens_from(b@, n as int) =~= seq![]);
            assert(all.subrange(idx, all.len() as int).len() == 0);
            return None;
        }
        match self.token_at_exec(i) {
            Ok((t, e)) => {
                self.pos = e;
                self.span = Span { start: i, end: e };
                self.consumed = Ghost(idx + 1);
                assert(tokens_from(b@, p) == seq![token_at(b@, i as int)] + tokens_from(b@, e as int));
                assert(all.subrange(idx, all.len() as int)[0] == all[idx]);
                let ghost whole = all.subrange(idx, all.len() as int);
                assert(tokens_from(b@, e as int) =~= whole.drop_first());
                assert(whole.drop_first() =~= all.subrange(idx + 1, all.len() as int));
                Some(Ok(t))
            },
            Err(()) => {
                self.pos = n;
                self.span = Span { start: i, end: i + 1 };
                self.consumed = Ghost(idx + 1);
                assert(tokens_from(b@, p) == seq![token_at(b@, i as int)]);
                assert(all.subrange(idx, all.len() as int)[0] == all[idx]);
                assert(tokens_from(b@, n as int) =~= seq![]);
                assert(tokens_from(b@, n as int) =~= all.subrange(idx + 1, all.len() as int));
                Some(Err(()))
            },
        }
    }

    /// The source text of bytes `[s, e)`.
    fn text(&self, s: usize, e: usize) -> (r: &'a str)
        requires
            s <= e <= self.source.spec_bytes().len(),
            is_char_boundary(self.source.spec_bytes(), s as int),
            is_char_boundary(self.source.spec_bytes(), e as int),
        ensures
            r@ == text_of(self.source.spec_bytes(), s as int, e as int),
    {
        let ghost b = self.source.spec_bytes();
        proof {
            encode_utf8_valid_utf8(self.source@);
            valid_utf8_split(b, s as int);
        }
        let (_, rest) = self.source.split_at(s);
        proof {
            let rb = rest.spec_bytes();
            if e < b.len() {
                is_char_boundary_iff_not_is_continuation_byte(b, e as int);
                is_char_boundary_iff_not_is_continuation_byte(rb, e - s);
                assert(rb[e - s] == b[e as int]);
            } else {
                is_char_boundary_start_end_of_seq(rb);
            }
        }
        let (t, _) = rest.split_at(e - s);
        assert(t.spec_bytes() =~= b.subrange(s as int, e as int));
        t
    }

    /// The token that starts at byte `i`, with the position after it.
    fn token_at_exec(&self, i: usize) -> (r: Result<(Token<'a>, usize), ()>)
        requires
            i < self.source.spec_bytes().len(),
        ensures
            ({
                let b = self.source.spec_bytes();
                match token_at(b, i as int) {
                    Lexed::Token(l, sp) => r matches Ok((t, e)) && t@ == l && sp == span_of(
                        i as int,
                        e as int,
                    ) && i < e <= b.len(),
                    Lexed::Invalid(sp) => r is Err && sp == span_of(i as int, i + 1),
                }
            }),
    {
        let b = self.source.as_bytes();
        let n = b.len();
        proof {
            encode_utf8_valid_utf8(self.source@);
        }
        let c = b[i];
        if c == 0x7b {
            Ok((Token::BraceOpen, i + 1))
        } else if c == 0x7d {
            Ok((Token::BraceClose, i + 1))
        } else if c == 0x3d {
            Ok((Token::EqualSign, i + 1))
        } else if c == 0x22 {
            match scan_string(b, i + 1) {
                None => Err(()),
                Some(q) => {
                    proof {
                        lemma_ascii_boundaries(b@, i as int);
                        lemma_ascii_boundaries(b@, q as int);
                    }
                    Ok((Token::String(self.text(i + 1, q)), q + 1))
                },
            }
        } else if c >= 0x41 && c <= 0x5a || c >= 0x61 && c <= 0x7a {
            let e = scan_ident(b, i);
            assert(e > i) by {
                assert(ident_end(b@, i as int) == ident_end(b@, i + 1));
                lemma_ident_bytes(b@, i + 1);
            }
            let ghost w = b@.subrange(i as int, e as int);
            if e - i == 4 && b[i] == 0x74 && b[i + 1] == 0x72 && b[i + 2] == 0x75 && b[i + 3]
                == 0x65 {
                assert(w =~= seq![0x74u8, 0x72u8, 0x75u8, 0x65u8]);
                Ok((Token::Bool(true), e))
            } else if e - i == 5 && b[i] == 0x66 && b[i + 1] == 0x61 && b[i + 2] == 0x6c && b[i
                + 3] == 0x73 && b[i + 4] == 0x65 {
                assert(w =~= seq![0x66u8, 0x61u8, 0x6cu8, 0x73u8, 0x65u8]);
                Ok((Token::Bool(false), e))
            } else if e - i == 4 && b[i] == 0x6e && b[i + 1] == 0x75 && b[i + 2] == 0x6c && b[i
                + 3] == 0x6c {
                assert(w =~= seq![0x6eu8, 0x75u8, 0x6cu8, 0x6cu8]);
                Ok((Token::Null, e))
            } else {
                proof {
                    assert(w.len() == 4 ==> w[0] == b@[i as int] && w[1] == b@[i + 1] && w[2]
                        == b@[i + 2] && w[3] == b@[i + 3]);
                    assert(w.len() == 5 ==> w[0] == b@[i as int] && w[1] == b@[i + 1] && w[2]
                        == b@[i + 2] && w[3] == b@[i + 3] && w[4] == b@[i + 4]);
                    lemma_ident_bytes(b@, i as int);
                    lemma_ascii_boundaries(b@, i as int);
                    lemma_ascii_boundaries(b@, e - 1);
                }
                Ok((Token::Any(self.text(i, e)), e))
            }
        } else if c >= 0x30 && c <= 0x39 || c == 0x2d {
            self.number_exec(i)
        } else {
            Err(())
        }
    }

    /// The number that starts at byte `i`, with the position after it.
    fn number_exec(&self, i: usize) -> (r: Result<(Token<'a>, usize), ()>)
        requires
            i < self.source.spec_bytes().len(),
            is_digit(self.source.spec_bytes()[i as int]) || self.source.spec_bytes()[i as int]
                == 0x2d,
        ensures
            ({
                let b = self.source.spec_bytes();
                match number_at(b, i as int) {
                    Lexed::Token(l, sp) => r matches Ok((t, e)) && t@ == l && sp == span_of(
                        i as int,
                        e as int,
                    ) && i < e <= b.len(),
                    Lexed::Invalid(sp) => r is Err && sp == span_of(i as int, i + 1),
                }
            }),
    {
        let b = self.source.as_bytes();
        let n = b.len();
        proof {
            encode_utf8_valid_utf8(self.source@);
        }
        let negative = b[i] == 0x2d;
        let k = if negative {
            i + 1
        } else {
            i
        };
        let d = scan_digits(b, k);
        if d == k {
            return Err(());
        }
        proof {
            lemma_digits(b@, k as int);
        }
        if (b[k] != 0x30 || d == k + 1) && n - d >= 2 && b[d] == 0x2e && b[d + 1] >= 0x30 && b[d
            + 1] <= 0x39 {
            let f = scan_digits(b, d + 1);
            let e = scan_exponent(b, f);
            proof {
                lemma_digits(b@, d + 1);
                lemma_exponent(b@, f as int);
                lemma_ascii_boundaries(b@, i as int);
                lemma_ascii_boundaries(b@, e - 1);
            }
            Ok((Token::Float(self.text(i, e)), e))
        } else {
            match scan_integer(b, k, d, negative) {
                Some(v) => Ok((Token::Integer(v), d)),
                None => Err(()),
            }
        }
    }
}

/// An identifier run stays within the input, and each of its bytes is an
/// ASCII identifier byte.
proof fn lemma_ident_bytes(b: Seq<u8>, i: int)
    requires
        0 <= i <= b.len(),
    ensures
        i <= ident_end(b, i) <= b.len(),
        forall|j: int| i <= j < ident_end(b, i) ==> is_ident_byte(#[trigger] b[j]),
    decreases b.len() - i,
{
    if 0 <= i < b.len() && is_ident_byte(b[i]) {
        lemma_ident_bytes(b, i + 1);
    }
}

/// Every byte of a digit run is a digit, and the run stays within the input.
proof fn lemma_digits(b: Seq<u8>, i: int)
    requires
        0 <= i <= b.len(),
    ensures
        i <= digits_end(b, i) <= b.len(),
        forall|j: int| i <= j < digits_end(b, i) ==> is_digit(#[trigger] b[j]),
    decreases b.len() - i,
{
    if 0 <= i < b.len() && is_digit(b[i]) {
        lemma_digits(b, i + 1);
    }
}

/// An exponent ends at or after its start, and its last byte is ASCII.
proof fn lemma_exponent(b: Seq<u8>, f: int)
    requires
        0 <= f <= b.len(),
    ensures
        f <= exponent_end(b, f) <= b.len(),
        exponent_end(b, f) > f ==> b[exponent_end(b, f) - 1] < 0x80,
{
    if 0 <= f < b.len() && (b[f] == 0x65 || b[f] == 0x45) {
        let s = if f + 1 < b.len() && (b[f + 1] == 0x2b || b[f + 1] == 0x2d) {
            f + 2
        } else {
            f + 1
        };
        if s < b.len() && is_digit(b[s]) {
            lemma_digits(b, s);
            lemma_digits(b, s + 1);
        }
    }
}

} // verus!
