//! Lexing on demand: the token at or after a byte, and a cursor that reads one
//! token at a time.

use vstd::prelude::*;
use vstd::string::*;
use vstd::utf8::*;

use crate::ascii::{
    DIGIT_0, DIGIT_9, LOWER_A, LOWER_Z, NEWLINE, RETURN, SPACE, TAB, UNDERSCORE, UPPER_A, UPPER_Z,
};
use crate::runtime::table::{Table, Token, TokenKind};

verus! {

/// A text read byte by byte.
pub trait ByteSource {
    /// The bytes of the text.
    spec fn text(&self) -> Seq<u8>;

    fn byte_len(&self) -> (r: usize)
        ensures
            r == self.text().len(),
    ;

    fn byte_at(&self, i: usize) -> (r: u8)
        requires
            i < self.text().len(),
        ensures
            r == self.text()[i as int],
    ;
}

impl ByteSource for [u8] {
    open spec fn text(&self) -> Seq<u8> {
        self@
    }

    fn byte_len(&self) -> (r: usize) {
        self.len()
    }

    fn byte_at(&self, i: usize) -> (r: u8) {
        self[i]
    }
}

// ---- Tokens ------------------------------------------------------------

pub open spec fn is_space(b: u8) -> bool {
    b == SPACE || b == TAB || b == NEWLINE || b == RETURN
}

pub open spec fn is_digit(b: u8) -> bool {
    DIGIT_0 <= b <= DIGIT_9
}

pub open spec fn is_word_start(b: u8) -> bool {
    b == UNDERSCORE || LOWER_A <= b <= LOWER_Z || UPPER_A <= b <= UPPER_Z
}

pub open spec fn is_word(b: u8) -> bool {
    is_word_start(b) || is_digit(b)
}

/// `text` stands at byte `i`.
pub open spec fn stands_at(b: Seq<u8>, i: int, text: Seq<u8>) -> bool {
    0 <= i && i + text.len() <= b.len() && b.subrange(i, i + text.len()) == text
}

/// The longest of the first `n` symbols that stands at byte `i`.
pub open spec fn longest_symbol(t: Table, b: Seq<u8>, i: int, n: int) -> Option<int>
    decreases n,
{
    if n <= 0 || n > t.syms@.len() {
        None
    } else {
        let r = longest_symbol(t, b, i, n - 1);
        if stands_at(b, i, t.syms@[n - 1].text@) && (r matches Some(k) ==> t.syms@[n - 1].text@.len()
            > t.syms@[k].text@.len()) {
            Some(n - 1)
        } else {
            r
        }
    }
}

/// End of the run of digits from `i` on.
pub open spec fn digits_end(b: Seq<u8>, i: int) -> int
    decreases b.len() - i,
{
    if 0 <= i < b.len() && is_digit(b[i]) {
        digits_end(b, i + 1)
    } else {
        i
    }
}

/// End of the run of word bytes from `i` on.
pub open spec fn word_end(b: Seq<u8>, i: int) -> int
    decreases b.len() - i,
{
    if 0 <= i < b.len() && is_word(b[i]) {
        word_end(b, i + 1)
    } else {
        i
    }
}

/// The token that starts at byte `i`, if one does: its kind and its end.
pub open spec fn token_at(t: Table, b: Seq<u8>, i: int) -> Option<(TokenKind, int)> {
    if !(0 <= i < b.len()) || is_space(b[i]) {
        None
    } else {
        match longest_symbol(t, b, i, t.syms@.len() as int) {
            Some(k) => Some((TokenKind::Sym(k as u32), i + t.syms@[k].text@.len())),
            None => if t.int && is_digit(b[i]) {
                Some((TokenKind::Int, digits_end(b, i)))
            } else if t.ident && is_word_start(b[i]) {
                Some((TokenKind::Ident, word_end(b, i)))
            } else {
                None
            },
        }
    }
}

/// The first token at or after byte `at`; `Eof` if there is none.
pub open spec fn next_token(t: Table, b: Seq<u8>, at: int) -> Token
    decreases b.len() - at,
{
    if at >= b.len() {
        Token { kind: TokenKind::Eof, start: b.len() as u32, end: b.len() as u32 }
    } else {
        match token_at(t, b, at) {
            Some((kind, end)) => Token { kind, start: at as u32, end: end as u32 },
            None => next_token(t, b, at + 1),
        }
    }
}

pub proof fn lemma_longest(t: Table, b: Seq<u8>, i: int, n: int)
    requires
        0 <= n <= t.syms@.len(),
    ensures
        match longest_symbol(t, b, i, n) {
            Some(k) => 0 <= k < n && stands_at(b, i, t.syms@[k].text@) && forall|j: int|
                0 <= j < n && stands_at(b, i, (#[trigger] t.syms@[j]).text@) ==> t.syms@[j].text@.len()
                    <= t.syms@[k].text@.len(),
            None => forall|j: int|
                0 <= j < n ==> !stands_at(b, i, (#[trigger] t.syms@[j]).text@),
        },
    decreases n,
{
    if n > 0 {
        lemma_longest(t, b, i, n - 1);
    }
}

pub proof fn lemma_digits_end(b: Seq<u8>, i: int)
    requires
        0 <= i <= b.len(),
    ensures
        i <= digits_end(b, i) <= b.len(),
        forall|k: int| i <= k < digits_end(b, i) ==> is_digit(#[trigger] b[k]),
        digits_end(b, i) < b.len() ==> !is_digit(b[digits_end(b, i)]),
        i < b.len() && is_digit(b[i]) ==> digits_end(b, i) > i,
    decreases b.len() - i,
{
    if i < b.len() && is_digit(b[i]) {
        lemma_digits_end(b, i + 1);
    }
}

pub proof fn lemma_word_end(b: Seq<u8>, i: int)
    requires
        0 <= i <= b.len(),
    ensures
        i <= word_end(b, i) <= b.len(),
        forall|k: int| i <= k < word_end(b, i) ==> is_word(#[trigger] b[k]),
        word_end(b, i) < b.len() ==> !is_word(b[word_end(b, i)]),
        i < b.len() && is_word(b[i]) ==> word_end(b, i) > i,
    decreases b.len() - i,
{
    if i < b.len() && is_word(b[i]) {
        lemma_word_end(b, i + 1);
    }
}

/// Tokens are not empty and lie in the text.
pub proof fn lemma_token_at(t: Table, b: Seq<u8>, i: int)
    requires
        t.wf(),
        0 <= i,
    ensures
        token_at(t, b, i) matches Some((k, e)) ==> i < e <= b.len() && !(k is Eof),
{
    if i < b.len() {
        lemma_longest(t, b, i, t.syms@.len() as int);
        lemma_digits_end(b, i);
        lemma_word_end(b, i);
    }
}

pub proof fn lemma_next_token(t: Table, b: Seq<u8>, at: int)
    requires
        t.wf(),
        0 <= at,
        b.len() <= u32::MAX,
    ensures
        ({
            let k = next_token(t, b, at);
            &&& k.start <= k.end <= b.len()
            &&& at <= b.len() ==> at <= k.start
            &&& k.kind is Eof ==> k.start == b.len() && k.end == b.len()
            &&& !(k.kind is Eof) ==> k.start < k.end && token_at(t, b, k.start as int) == Some(
                (k.kind, k.end as int),
            )
        }),
        forall|i: int|
            at <= i < next_token(t, b, at).start ==> #[trigger] token_at(t, b, i) is None,
    decreases b.len() - at,
{
    if at < b.len() {
        lemma_token_at(t, b, at);
        if token_at(t, b, at) is None {
            lemma_next_token(t, b, at + 1);
        }
    }
}

/// Whether `text` stands at byte `i`.
fn matches_at<B: ByteSource + ?Sized>(src: &B, i: usize, text: &Vec<u8>) -> (r: bool)
    requires
        i <= src.text().len(),
    ensures
        r == stands_at(src.text(), i as int, text@),
{
    let n: usize = src.byte_len();
    if text.len() > n - i {
        return false;
    }
    let mut k: usize = 0;
    while k < text.len()
        invariant
            k <= text@.len(),
            i + text@.len() <= n,
            n == src.text().len(),
            forall|j: int| 0 <= j < k ==> src.text()[i + j] == #[trigger] text@[j],
        decreases text@.len() - k,
    {
        if src.byte_at(i + k) != text[k] {
            proof {
                assert(src.text().subrange(i as int, i + text@.len())[k as int] != text@[k as int]);
            }
            return false;
        }
        k = k + 1;
    }
    assert(src.text().subrange(i as int, i + text@.len()) =~= text@);
    true
}

fn space(b: u8) -> (r: bool)
    ensures
        r == is_space(b),
{
    b == SPACE || b == TAB || b == NEWLINE || b == RETURN
}

fn digit(b: u8) -> (r: bool)
    ensures
        r == is_digit(b),
{
    DIGIT_0 <= b && b <= DIGIT_9
}

pub(crate) fn word_start(b: u8) -> (r: bool)
    ensures
        r == is_word_start(b),
{
    b == UNDERSCORE || (LOWER_A <= b && b <= LOWER_Z) || (UPPER_A <= b && b <= UPPER_Z)
}

pub(crate) fn word(b: u8) -> (r: bool)
    ensures
        r == is_word(b),
{
    word_start(b) || digit(b)
}

/// The longest symbol at byte `i`.
fn find_symbol<B: ByteSource + ?Sized>(t: &Table, src: &B, i: usize) -> (r: Option<usize>)
    requires
        i <= src.text().len(),
    ensures
        match r {
            Some(k) => longest_symbol(*t, src.text(), i as int, t.syms@.len() as int) == Some(k as int)
                && k < t.syms@.len(),
            None => longest_symbol(*t, src.text(), i as int, t.syms@.len() as int) is None,
        },
{
    let mut best: Option<usize> = None;
    let mut n: usize = 0;
    while n < t.syms.len()
        invariant
            n <= t.syms@.len(),
            i <= src.text().len(),
            match best {
                Some(k) => longest_symbol(*t, src.text(), i as int, n as int) == Some(k as int) && k
                    < n,
                None => longest_symbol(*t, src.text(), i as int, n as int) is None,
            },
        decreases t.syms@.len() - n,
    {
        if matches_at(src, i, &t.syms[n].text) {
            let better: bool = match best {
                Some(k) => t.syms[n].text.len() > t.syms[k].text.len(),
                None => true,
            };
            if better {
                best = Some(n);
            }
        }
        n = n + 1;
    }
    best
}

fn run_of_digits<B: ByteSource + ?Sized>(src: &B, i: usize) -> (r: usize)
    requires
        i <= src.text().len(),
    ensures
        r == digits_end(src.text(), i as int),
{
    let mut j: usize = i;
    while j < src.byte_len() && digit(src.byte_at(j))
        invariant
            j <= src.text().len(),
            digits_end(src.text(), i as int) == digits_end(src.text(), j as int),
        decreases src.text().len() - j,
    {
        j = j + 1;
    }
    j
}

fn run_of_word<B: ByteSource + ?Sized>(src: &B, i: usize) -> (r: usize)
    requires
        i <= src.text().len(),
    ensures
        r == word_end(src.text(), i as int),
{
    let mut j: usize = i;
    while j < src.byte_len() && word(src.byte_at(j))
        invariant
            j <= src.text().len(),
            word_end(src.text(), i as int) == word_end(src.text(), j as int),
        decreases src.text().len() - j,
    {
        j = j + 1;
    }
    j
}

/// The first token at or after byte `at`; white space and unknown bytes are
/// skipped.
pub fn lex_token<B: ByteSource + ?Sized>(t: &Table, src: &B, at: usize) -> (r: Token)
    requires
        t.wf(),
        src.text().len() <= u32::MAX,
    ensures
        r == next_token(*t, src.text(), at as int),
{
    let n: usize = src.byte_len();
    let mut i: usize = at;
    while i < n
        invariant
            n == src.text().len(),
            n <= u32::MAX,
            t.wf(),
            next_token(*t, src.text(), at as int) == next_token(*t, src.text(), i as int),
        decreases n - i,
    {
        let b: u8 = src.byte_at(i);
        if !space(b) {
            proof {
                lemma_token_at(*t, src.text(), i as int);
                lemma_longest(*t, src.text(), i as int, t.syms@.len() as int);
            }
            match find_symbol(t, src, i) {
                Some(k) => {
                    return Token {
                        kind: TokenKind::Sym(k as u32),
                        start: i as u32,
                        end: (i + t.syms[k].text.len()) as u32,
                    };
                },
                None => {},
            }
            if t.int && digit(b) {
                let j: usize = run_of_digits(src, i);
                return Token { kind: TokenKind::Int, start: i as u32, end: j as u32 };
            }
            if t.ident && word_start(b) {
                let j: usize = run_of_word(src, i);
                return Token { kind: TokenKind::Ident, start: i as u32, end: j as u32 };
            }
        }
        i = i + 1;
    }
    Token { kind: TokenKind::Eof, start: n as u32, end: n as u32 }
}

/// All tokens from byte `at` on, ending in `Eof`.
pub open spec fn tokens_from(t: Table, b: Seq<u8>, at: int) -> Seq<Token>
    decreases b.len() - at,
{
    let k = next_token(t, b, at);
    if k.kind is Eof || !(at < k.end <= b.len()) {
        seq![k]
    } else {
        seq![k] + tokens_from(t, b, k.end as int)
    }
}

/// All tokens of `src`, ending in `Eof`.
pub fn tokenize(t: &Table, src: &str) -> (r: Vec<Token>)
    requires
        t.wf(),
        src.spec_bytes().len() <= u32::MAX,
    ensures
        r@ == tokens_from(*t, src.spec_bytes(), 0),
{
    let bytes = src.as_bytes();
    let mut out: Vec<Token> = Vec::new();
    let mut at: usize = 0;
    loop
        invariant_except_break
            out@ + tokens_from(*t, bytes@, at as int) == tokens_from(*t, bytes@, 0),
        invariant
            t.wf(),
            bytes@ == src.spec_bytes(),
            bytes@.len() <= u32::MAX,
            at <= bytes@.len(),
        ensures
            out@ == tokens_from(*t, bytes@, 0),
        decreases bytes@.len() - at,
    {
        let k: Token = lex_token(t, bytes, at);
        proof {
            lemma_next_token(*t, bytes@, at as int);
        }
        if k.kind == TokenKind::Eof {
            assert(out@.push(k) =~= out@ + tokens_from(*t, bytes@, at as int));
            out.push(k);
            break ;
        }
        proof {
            assert(out@.push(k) + tokens_from(*t, bytes@, k.end as int) =~= out@ + tokens_from(
                *t,
                bytes@,
                at as int,
            ));
        }
        out.push(k);
        at = k.end as usize;
    }
    out
}

/// A cursor over a text that lexes one token ahead.
pub struct Lexer<'a> {
    pub table: &'a Table,
    pub bytes: &'a [u8],
    pub cur: Token,
    pub last_end: u32,
    pub lexed: u32,
}

impl<'a> Lexer<'a> {
    /// The token at hand is the next after the last one passed.
    pub open spec fn wf(&self) -> bool {
        &&& self.table.wf()
        &&& self.bytes@.len() <= u32::MAX
        &&& self.last_end <= self.bytes@.len()
        &&& self.cur == next_token(*self.table, self.bytes@, self.last_end as int)
    }

    pub fn new(table: &'a Table, src: &'a str) -> (r: Lexer<'a>)
        requires
            table.wf(),
            src.spec_bytes().len() <= u32::MAX,
        ensures
            r.wf(),
            r.table == table,
            r.bytes@ == src.spec_bytes(),
            r.last_end == 0,
            r.lexed == 1,
    {
        let bytes = src.as_bytes();
        let cur: Token = lex_token(table, bytes, 0);
        Lexer { table, bytes, cur, last_end: 0, lexed: 1 }
    }

    /// The token at hand.
    pub fn peek(&self) -> (r: Token)
        ensures
            r == self.cur,
    {
        self.cur
    }

    /// Pass the token at hand.
    pub fn advance(&mut self) -> (r: Token)
        requires
            old(self).wf(),
        ensures
            r == old(self).cur,
            final(self).wf(),
            final(self).table == old(self).table,
            final(self).bytes == old(self).bytes,
            final(self).last_end == r.end,
            final(self).lexed == (if old(self).lexed == u32::MAX {
                u32::MAX as int
            } else {
                old(self).lexed + 1
            }),
    {
        let k: Token = self.cur;
        proof {
            lemma_next_token(*self.table, self.bytes@, self.last_end as int);
        }
        self.last_end = k.end;
        self.cur = lex_token(self.table, self.bytes, k.end as usize);
        self.lexed = self.lexed.saturating_add(1);
        k
    }

    /// End of the last token passed.
    pub fn last_end(&self) -> (r: u32)
        ensures
            r == self.last_end,
    {
        self.last_end
    }

    /// Move to byte `byte`.
    pub fn reposition(&mut self, byte: u32)
        requires
            old(self).wf(),
            byte <= old(self).bytes@.len(),
        ensures
            final(self).wf(),
            final(self).table == old(self).table,
            final(self).bytes == old(self).bytes,
            final(self).last_end == byte,
            final(self).lexed == (if old(self).lexed == u32::MAX {
                u32::MAX as int
            } else {
                old(self).lexed + 1
            }),
    {
        self.last_end = byte;
        self.cur = lex_token(self.table, self.bytes, byte as usize);
        self.lexed = self.lexed.saturating_add(1);
    }

    /// How many tokens have been lexed.
    pub fn lexed(&self) -> (r: u32)
        ensures
            r == self.lexed,
    {
        self.lexed
    }
}

} // verus!
