//! Lexer for the expression language.
//!
//! `tokenize` skips whitespace and unknown bytes, matches two-byte operators
//! before their one-byte prefixes, and closes the stream with one `Eof` token.

use vstd::prelude::*;
use vstd::string::*;
use vstd::utf8::*;

use crate::ascii::{AMP, BANG, CARET, COLON, COMMA, DIGIT_0, DIGIT_9, DOT, EQUALS, GREATER, LBRACKET, LESS, LOWER_A, LOWER_Z, LPAREN, MINUS, NEWLINE, PERCENT, PIPE, PLUS, QUESTION, RBRACKET, RETURN, RPAREN, SLASH, SPACE, STAR, TAB, UNDERSCORE, UPPER_A, UPPER_Z};

verus! {

/// Lexical class of a token.
#[derive(Debug, Clone, Copy, PartialEq, Eq, Hash, Structural)]
pub enum TokenKind {
    Int,
    Ident,
    Plus,
    Minus,
    Star,
    Slash,
    Percent,
    Caret,
    Bang,
    AndAnd,
    OrOr,
    EqEq,
    BangEq,
    Lt,
    Gt,
    LtEq,
    GtEq,
    Question,
    Colon,
    LParen,
    RParen,
    LBracket,
    RBracket,
    Dot,
    Comma,
    Eof,
}

/// A token: its class and its byte span `[start, end)` in the source.
#[derive(Debug, Clone, Copy, PartialEq, Eq, Structural)]
pub struct Token {
    pub kind: TokenKind,
    pub start: u32,
    pub end: u32,
}

/// Mathematical model of a token: class, byte span and the characters covered.
pub ghost struct Tok {
    pub kind: TokenKind,
    pub start: int,
    pub end: int,
    pub text: Seq<char>,
}

// ---- Lexical rules -----------------------------------------------------

pub open spec fn is_space(b: u8) -> bool {
    b == SPACE || b == TAB || b == NEWLINE || b == RETURN
}

pub open spec fn is_digit(b: u8) -> bool {
    DIGIT_0 <= b <= DIGIT_9
}

pub open spec fn is_ident_start(b: u8) -> bool {
    b == UNDERSCORE || LOWER_A <= b <= LOWER_Z || UPPER_A <= b <= UPPER_Z
}

pub open spec fn is_ident_byte(b: u8) -> bool {
    is_ident_start(b) || is_digit(b)
}

/// First position at or after `i` that holds no digit.
pub open spec fn digits_end(s: Seq<u8>, i: int) -> int
    decreases s.len() - i,
{
    if 0 <= i < s.len() && is_digit(s[i]) {
        digits_end(s, i + 1)
    } else {
        i
    }
}

/// First position at or after `i` that holds no identifier byte.
pub open spec fn ident_end(s: Seq<u8>, i: int) -> int
    decreases s.len() - i,
{
    if 0 <= i < s.len() && is_ident_byte(s[i]) {
        ident_end(s, i + 1)
    } else {
        i
    }
}

/// The one-byte punctuation tokens that no longer token starts with.
pub open spec fn single_kind(b: u8) -> Option<TokenKind> {
    if b == PLUS {
        Some(TokenKind::Plus)
    } else if b == MINUS {
        Some(TokenKind::Minus)
    } else if b == STAR {
        Some(TokenKind::Star)
    } else if b == SLASH {
        Some(TokenKind::Slash)
    } else if b == PERCENT {
        Some(TokenKind::Percent)
    } else if b == CARET {
        Some(TokenKind::Caret)
    } else if b == QUESTION {
        Some(TokenKind::Question)
    } else if b == COLON {
        Some(TokenKind::Colon)
    } else if b == LPAREN {
        Some(TokenKind::LParen)
    } else if b == RPAREN {
        Some(TokenKind::RParen)
    } else if b == LBRACKET {
        Some(TokenKind::LBracket)
    } else if b == RBRACKET {
        Some(TokenKind::RBracket)
    } else if b == DOT {
        Some(TokenKind::Dot)
    } else if b == COMMA {
        Some(TokenKind::Comma)
    } else {
        None
    }
}

/// The two-byte operators.
pub open spec fn pair_kind(b: u8, c: u8) -> Option<TokenKind> {
    if b == AMP && c == AMP {
        Some(TokenKind::AndAnd)
    } else if b == PIPE && c == PIPE {
        Some(TokenKind::OrOr)
    } else if b == EQUALS && c == EQUALS {
        Some(TokenKind::EqEq)
    } else if b == BANG && c == EQUALS {
        Some(TokenKind::BangEq)
    } else if b == LESS && c == EQUALS {
        Some(TokenKind::LtEq)
    } else if b == GREATER && c == EQUALS {
        Some(TokenKind::GtEq)
    } else {
        None
    }
}

/// The one-byte operators that a two-byte operator starts with.
pub open spec fn short_kind(b: u8) -> Option<TokenKind> {
    if b == BANG {
        Some(TokenKind::Bang)
    } else if b == LESS {
        Some(TokenKind::Lt)
    } else if b == GREATER {
        Some(TokenKind::Gt)
    } else {
        None
    }
}

/// The token that starts at byte `i`, as its class and end, if one does.
pub open spec fn tok_at(s: Seq<u8>, i: int) -> Option<(TokenKind, int)> {
    let b = s[i];
    if single_kind(b) is Some {
        Some((single_kind(b)->0, i + 1))
    } else if i + 1 < s.len() && pair_kind(b, s[i + 1]) is Some {
        Some((pair_kind(b, s[i + 1])->0, i + 2))
    } else if short_kind(b) is Some {
        Some((short_kind(b)->0, i + 1))
    } else if is_digit(b) {
        Some((TokenKind::Int, digits_end(s, i + 1)))
    } else if is_ident_start(b) {
        Some((TokenKind::Ident, ident_end(s, i + 1)))
    } else {
        None
    }
}

/// A token of `s` with the given class and span.
pub open spec fn mk_tok(s: Seq<u8>, kind: TokenKind, start: int, end: int) -> Tok {
    Tok { kind, start, end, text: decode_utf8(s.subrange(start, end)) }
}

/// First token at or after byte `i`; `Eof` at the end of the input.
pub open spec fn next_tok(s: Seq<u8>, i: int) -> Tok
    decreases s.len() - i,
{
    if 0 <= i < s.len() {
        match tok_at(s, i) {
            Some((kind, end)) => mk_tok(s, kind, i, end),
            None => next_tok(s, i + 1),
        }
    } else {
        mk_tok(s, TokenKind::Eof, s.len() as int, s.len() as int)
    }
}

/// All tokens at or after byte `i`, the last one `Eof`.
pub open spec fn lex_from(s: Seq<u8>, i: int) -> Seq<Tok>
    decreases s.len() - i,
{
    let t = next_tok(s, i);
    if t.kind == TokenKind::Eof || !(i < t.end <= s.len()) {
        seq![t]
    } else {
        seq![t] + lex_from(s, t.end)
    }
}

/// The token stream of a source.
pub open spec fn lex(s: Seq<u8>) -> Seq<Tok> {
    lex_from(s, 0)
}

impl Token {
    /// The model of this token in source `s`.
    pub open spec fn model(self, s: Seq<u8>) -> Tok {
        mk_tok(s, self.kind, self.start as int, self.end as int)
    }
}

/// The models of a sequence of tokens in source `s`.
pub open spec fn models(ts: Seq<Token>, s: Seq<u8>) -> Seq<Tok> {
    Seq::new(ts.len(), |i: int| ts[i].model(s))
}

// ---- Facts about the lexical rules -------------------------------------

pub proof fn lemma_digits_end(s: Seq<u8>, i: int)
    requires
        0 <= i <= s.len(),
    ensures
        i <= digits_end(s, i) <= s.len(),
        forall|k: int| i <= k < digits_end(s, i) ==> is_digit(#[trigger] s[k]),
        digits_end(s, i) < s.len() ==> !is_digit(s[digits_end(s, i)]),
    decreases s.len() - i,
{
    if i < s.len() && is_digit(s[i]) {
        lemma_digits_end(s, i + 1);
    }
}

pub proof fn lemma_ident_end(s: Seq<u8>, i: int)
    requires
        0 <= i <= s.len(),
    ensures
        i <= ident_end(s, i) <= s.len(),
        forall|k: int| i <= k < ident_end(s, i) ==> is_ident_byte(#[trigger] s[k]),
        ident_end(s, i) < s.len() ==> !is_ident_byte(s[ident_end(s, i)]),
    decreases s.len() - i,
{
    if i < s.len() && is_ident_byte(s[i]) {
        lemma_ident_end(s, i + 1);
    }
}

/// A token covers at least one byte, and ASCII bytes only.
pub proof fn lemma_tok_at(s: Seq<u8>, i: int)
    requires
        0 <= i < s.len(),
    ensures
        tok_at(s, i) matches Some((kind, end)) ==> {
            &&& i < end <= s.len()
            &&& kind != TokenKind::Eof
            &&& forall|k: int| i <= k < end ==> #[trigger] s[k] < 128
        },
{
    lemma_digits_end(s, i + 1);
    lemma_ident_end(s, i + 1);
}

pub proof fn lemma_next_tok(s: Seq<u8>, i: int)
    requires
        0 <= i <= s.len(),
    ensures
        ({
            let t = next_tok(s, i);
            &&& i <= t.start <= t.end <= s.len()
            &&& t.kind != TokenKind::Eof ==> i < t.end && t.start < t.end && tok_at(s, t.start) == Some(
                (t.kind, t.end),
            )
            &&& t.kind == TokenKind::Eof ==> t.start == s.len() && t.end == s.len()
            &&& t.text == decode_utf8(s.subrange(t.start, t.end))
            &&& t == next_tok(s, t.start)
        }),
    decreases s.len() - i,
{
    if i < s.len() {
        lemma_tok_at(s, i);
        if tok_at(s, i) is None {
            lemma_next_tok(s, i + 1);
        }
    }
}

/// Shape of a token stream: non-empty, `Eof` exactly at the end, spans in
/// order and non-empty, and every suffix is again a token stream.
pub open spec fn stream_ok(s: Seq<u8>, a: Seq<Tok>) -> bool {
    &&& a.len() >= 1
    &&& a.last().kind == TokenKind::Eof
    &&& a.last().start == s.len()
    &&& a.last().end == s.len()
    &&& forall|i: int|
        0 <= i < a.len() - 1 ==> {
            &&& (#[trigger] a[i]).kind != TokenKind::Eof
            &&& 0 <= a[i].start < a[i].end <= s.len()
            &&& tok_at(s, a[i].start) == Some((a[i].kind, a[i].end))
        }
    &&& forall|i: int, j: int|
        0 <= i < j < a.len() ==> (#[trigger] a[i]).end <= (#[trigger] a[j]).start
    &&& forall|i: int|
        0 <= i < a.len() ==> (#[trigger] a[i]) == mk_tok(s, a[i].kind, a[i].start, a[i].end)
}

pub proof fn lemma_lex_from(s: Seq<u8>, i: int)
    requires
        0 <= i <= s.len(),
    ensures
        stream_ok(s, lex_from(s, i)),
        lex_from(s, i)[0] == next_tok(s, i),
        forall|k: int|
            0 <= k < lex_from(s, i).len() ==> (#[trigger] lex_from(s, i)[k]).start >= i,
        lex_from(s, i).len() <= s.len() - i + 1,
    decreases s.len() - i,
{
    lemma_next_tok(s, i);
    let t = next_tok(s, i);
    if t.kind != TokenKind::Eof {
        lemma_lex_from(s, t.end);
        let rest = lex_from(s, t.end);
        let a = lex_from(s, i);
        assert(a =~= seq![t] + rest);
        assert forall|k: int| 0 < k < a.len() implies #[trigger] a[k] == rest[k - 1] by {}
    }
}

/// The stream from a token onward is the stream lexed at that token's start.
pub proof fn lemma_lex_suffix(s: Seq<u8>, i: int, p: int)
    requires
        0 <= i <= s.len(),
        0 <= p < lex_from(s, i).len(),
    ensures
        lex_from(s, lex_from(s, i)[p].start) == lex_from(s, i).skip(p),
        p + 1 < lex_from(s, i).len() ==> lex_from(s, lex_from(s, i)[p].end) == lex_from(s, i).skip(p + 1),
    decreases s.len() - i,
{
    lemma_next_tok(s, i);
    lemma_lex_from(s, i);
    let t = next_tok(s, i);
    let a = lex_from(s, i);
    if p == 0 {
        assert(a.skip(0) =~= a);
        lemma_next_tok(s, t.start);
        assert(lex_from(s, t.start) == a);
        if t.kind != TokenKind::Eof {
            assert(a.skip(1) =~= lex_from(s, t.end));
        }
    } else {
        let rest = lex_from(s, t.end);
        assert(a == seq![t] + rest);
        assert(a[p] == rest[p - 1]);
        lemma_lex_suffix(s, t.end, p - 1);
        assert(a.skip(p) =~= rest.skip(p - 1));
        assert(a.skip(p + 1) =~= rest.skip(p));
    }
}

/// The token boundaries of a valid source are character boundaries.
pub proof fn lemma_boundary(s: Seq<u8>, i: int)
    requires
        valid_utf8(s),
        0 <= i <= s.len(),
        i < s.len() ==> s[i] < 128,
    ensures
        is_char_boundary(s, i),
{
    is_char_boundary_start_end_of_seq(s);
    if i < s.len() {
        is_char_boundary_iff_not_is_continuation_byte(s, i);
        utf8_byte_ranges_bitwise(s[i]);
    }
}

pub proof fn lemma_boundary_after(s: Seq<u8>, i: int)
    requires
        valid_utf8(s),
        0 < i <= s.len(),
        s[i - 1] < 128,
    ensures
        is_char_boundary(s, i),
{
    lemma_boundary(s, i - 1);
    let tail = s.subrange(i - 1, s.len() as int);
    valid_utf8_split(s, i - 1);
    assert(valid_utf8(tail));
    assert(tail[0] == s[i - 1]);
    assert(valid_first_scalar(tail));
    is_char_boundary_start_end_of_seq(s);
    if i < s.len() {
        is_char_boundary_iff_not_is_continuation_byte(s, i);
        utf8_byte_ranges_bitwise(s[i - 1]);
        utf8_byte_ranges_bitwise(s[i]);
        let rest = pop_first_scalar(tail);
        assert(rest =~= s.subrange(i, s.len() as int));
        assert(valid_utf8(rest));
        assert(rest[0] == s[i]);
        assert(valid_first_scalar(rest));
    }
}

// ---- Executable lexer --------------------------------------------------

impl Token {
    /// The source text this token covers.
    pub fn text<'a>(&self, src: &'a str) -> (r: &'a str)
        requires
            self.start <= self.end <= src.spec_bytes().len(),
            is_char_boundary(src.spec_bytes(), self.start as int),
            is_char_boundary(src.spec_bytes(), self.end as int),
        ensures
            r.spec_bytes() == src.spec_bytes().subrange(self.start as int, self.end as int),
            r@ == self.model(src.spec_bytes()).text,
    {
        let ghost s = src.spec_bytes();
        proof {
            encode_utf8_valid_utf8(src@);
        }
        let (_, tail) = src.split_at(self.start as usize);
        let ghost t = tail.spec_bytes();
        let ghost w = self.end - self.start;
        proof {
            lemma_boundary_shift(s, self.start as int, self.end as int);
            assert(t =~= s.subrange(self.start as int, s.len() as int));
        }
        let (r, _) = tail.split_at((self.end - self.start) as usize);
        proof {
            assert(t.subrange(0, w) =~= s.subrange(self.start as int, self.end as int));
            encode_utf8_decode_utf8(r@);
        }
        r
    }
}

/// A character boundary at or after another one is a boundary of the tail.
pub proof fn lemma_boundary_shift(s: Seq<u8>, i: int, j: int)
    requires
        valid_utf8(s),
        0 <= i <= j <= s.len(),
        is_char_boundary(s, i),
        is_char_boundary(s, j),
    ensures
        valid_utf8(s.subrange(i, s.len() as int)),
        is_char_boundary(s.subrange(i, s.len() as int), j - i),
{
    valid_utf8_split(s, i);
    let t = s.subrange(i, s.len() as int);
    is_char_boundary_start_end_of_seq(t);
    if j < s.len() {
        is_char_boundary_iff_not_is_continuation_byte(s, j);
        is_char_boundary_iff_not_is_continuation_byte(t, j - i);
        assert(t[j - i] == s[j]);
    }
}

fn is_ident_byte_exec(b: u8) -> (r: bool)
    ensures
        r == is_ident_byte(b),
{
    b == UNDERSCORE || (LOWER_A <= b && b <= LOWER_Z) || (UPPER_A <= b && b <= UPPER_Z) || (DIGIT_0 <= b && b <= DIGIT_9)
}

/// Whether the two bytes `b`, `c` stand at position `i`.
fn matches_at(bytes: &[u8], i: usize, b: u8, c: u8) -> (r: bool)
    ensures
        r == (i + 1 < bytes@.len() && bytes@[i as int] == b && bytes@[i + 1] == c),
{
    i < bytes.len() && bytes.len() - i >= 2 && bytes[i] == b && bytes[i + 1] == c
}

fn scan_digits(bytes: &[u8], i: usize) -> (j: usize)
    requires
        i <= bytes@.len(),
    ensures
        j == digits_end(bytes@, i as int),
        i <= j <= bytes@.len(),
{
    let mut j: usize = i;
    while j < bytes.len() && DIGIT_0 <= bytes[j] && bytes[j] <= DIGIT_9
        invariant
            i <= j <= bytes@.len(),
            digits_end(bytes@, i as int) == digits_end(bytes@, j as int),
        decreases bytes@.len() - j,
    {
        j = j + 1;
    }
    j
}

fn scan_ident(bytes: &[u8], i: usize) -> (j: usize)
    requires
        i <= bytes@.len(),
    ensures
        j == ident_end(bytes@, i as int),
        i <= j <= bytes@.len(),
{
    let mut j: usize = i;
    while j < bytes.len() && is_ident_byte_exec(bytes[j])
        invariant
            i <= j <= bytes@.len(),
            ident_end(bytes@, i as int) == ident_end(bytes@, j as int),
        decreases bytes@.len() - j,
    {
        j = j + 1;
    }
    j
}

/// The token that starts at byte `i`, if one does.
fn token_at(bytes: &[u8], i: usize) -> (r: Option<(TokenKind, usize)>)
    requires
        i < bytes@.len(),
    ensures
        match r {
            Some((k, e)) => tok_at(bytes@, i as int) == Some((k, e as int)),
            None => tok_at(bytes@, i as int) is None,
        },
{
    let b = bytes[i];
    proof {
        lemma_tok_at(bytes@, i as int);
    }
    if b == PLUS {
        Some((TokenKind::Plus, i + 1))
    } else if b == MINUS {
        Some((TokenKind::Minus, i + 1))
    } else if b == STAR {
        Some((TokenKind::Star, i + 1))
    } else if b == SLASH {
        Some((TokenKind::Slash, i + 1))
    } else if b == PERCENT {
        Some((TokenKind::Percent, i + 1))
    } else if b == CARET {
        Some((TokenKind::Caret, i + 1))
    } else if b == QUESTION {
        Some((TokenKind::Question, i + 1))
    } else if b == COLON {
        Some((TokenKind::Colon, i + 1))
    } else if b == LPAREN {
        Some((TokenKind::LParen, i + 1))
    } else if b == RPAREN {
        Some((TokenKind::RParen, i + 1))
    } else if b == LBRACKET {
        Some((TokenKind::LBracket, i + 1))
    } else if b == RBRACKET {
        Some((TokenKind::RBracket, i + 1))
    } else if b == DOT {
        Some((TokenKind::Dot, i + 1))
    } else if b == COMMA {
        Some((TokenKind::Comma, i + 1))
    } else if matches_at(bytes, i, AMP, AMP) {
        Some((TokenKind::AndAnd, i + 2))
    } else if matches_at(bytes, i, PIPE, PIPE) {
        Some((TokenKind::OrOr, i + 2))
    } else if matches_at(bytes, i, EQUALS, EQUALS) {
        Some((TokenKind::EqEq, i + 2))
    } else if matches_at(bytes, i, BANG, EQUALS) {
        Some((TokenKind::BangEq, i + 2))
    } else if matches_at(bytes, i, LESS, EQUALS) {
        Some((TokenKind::LtEq, i + 2))
    } else if matches_at(bytes, i, GREATER, EQUALS) {
        Some((TokenKind::GtEq, i + 2))
    } else if b == BANG {
        Some((TokenKind::Bang, i + 1))
    } else if b == LESS {
        Some((TokenKind::Lt, i + 1))
    } else if b == GREATER {
        Some((TokenKind::Gt, i + 1))
    } else if DIGIT_0 <= b && b <= DIGIT_9 {
        Some((TokenKind::Int, scan_digits(bytes, i + 1)))
    } else if is_ident_byte_exec(b) {
        Some((TokenKind::Ident, scan_ident(bytes, i + 1)))
    } else {
        None
    }
}

/// Tokenize `src`. Whitespace and unknown bytes are skipped; the stream ends
/// with one `Eof` token at the end of the source.
pub fn tokenize(src: &str) -> (out: Vec<Token>)
    requires
        src.spec_bytes().len() <= u32::MAX,
    ensures
        models(out@, src.spec_bytes()) == lex(src.spec_bytes()),
{
    let bytes = src.as_bytes();
    let n: usize = bytes.len();
    let ghost s = bytes@;
    let mut out: Vec<Token> = Vec::new();
    let mut i: usize = 0;
    proof {
        assert(models(out@, s) + lex_from(s, 0) =~= lex_from(s, 0));
    }
    while i < n
        invariant
            s == bytes@,
            n == s.len(),
            n <= u32::MAX,
            i <= n,
            models(out@, s) + lex_from(s, i as int) == lex(s),
        decreases n - i,
    {
        proof {
            lemma_next_tok(s, i as int);
            lemma_tok_at(s, i as int);
        }
        match token_at(bytes, i) {
            Some((kind, next)) => {
                let ghost before = out@;
                let t = Token { kind, start: i as u32, end: next as u32 };
                out.push(t);
                proof {
                    assert(t.model(s) == next_tok(s, i as int));
                    assert(models(out@, s) =~= models(before, s).push(t.model(s)));
                    assert(models(out@, s) + lex_from(s, next as int) =~= models(before, s)
                        + lex_from(s, i as int));
                }
                i = next;
            },
            None => {
                proof {
                    assert(next_tok(s, i as int) == next_tok(s, i + 1));
                    lemma_next_tok(s, i + 1);
                    assert(lex_from(s, i as int) =~= lex_from(s, i + 1));
                }
                i = i + 1;
            },
        }
    }
    let ghost before = out@;
    let t = Token { kind: TokenKind::Eof, start: n as u32, end: n as u32 };
    out.push(t);
    proof {
        assert(lex_from(s, n as int) =~= seq![t.model(s)]);
        assert(models(out@, s) =~= models(before, s) + lex_from(s, n as int));
    }
    out
}

} // verus!
