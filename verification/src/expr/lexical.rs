//! What tokens are: how each kind is written, and that nothing of a source is lost.

use vstd::prelude::*;
use vstd::utf8::*;

use crate::expr::lexer::{
    is_digit, is_ident_byte, is_space, lemma_digits_end, lemma_ident_end, lemma_lex_from,
    lemma_next_tok, lemma_tok_at, lex, lex_from, next_tok, pair_kind, short_kind, single_kind,
    tok_at, Tok, TokenKind,
};
use crate::expr::unparse::token_chars;

verus! {

/// A decimal digit.
pub open spec fn digit_byte(b: u8) -> bool {
    '0' as u8 <= b <= '9' as u8
}

/// A letter or an underscore.
pub open spec fn letter_byte(b: u8) -> bool {
    b == '_' as u8 || 'a' as u8 <= b <= 'z' as u8 || 'A' as u8 <= b <= 'Z' as u8
}

/// A sign of its own, or the first byte of one.
pub open spec fn sign_byte(b: u8) -> bool {
    ||| b == '+' as u8 || b == '-' as u8 || b == '*' as u8 || b == '/' as u8 || b == '%' as u8
    ||| b == '^' as u8 || b == '?' as u8 || b == ':' as u8 || b == '(' as u8 || b == ')' as u8
    ||| b == '[' as u8 || b == ']' as u8 || b == '.' as u8 || b == ',' as u8
    ||| b == '!' as u8 || b == '<' as u8 || b == '>' as u8
}

/// The bytes of token `i`.
pub open spec fn bytes_at(s: Seq<u8>, i: int) -> Seq<u8> {
    s.subrange(lex(s)[i].start, lex(s)[i].end)
}

/// A text of one byte.
pub open spec fn is_byte(w: Seq<u8>, b: char) -> bool {
    w.len() == 1 && w[0] == b as u8
}

/// A text of two bytes.
pub open spec fn are_bytes(w: Seq<u8>, b: char, c: char) -> bool {
    w.len() == 2 && w[0] == b as u8 && w[1] == c as u8
}

/// Numbers are runs of digits, names begin with a letter and go on with letters and
/// digits, as far as they go; no other token begins so.
pub proof fn law_words_spelled(s: Seq<u8>, i: int)
    requires
        0 <= i < lex(s).len() - 1,
    ensures
        ({
            let t = lex(s)[i];
            let (k, w) = (t.kind, bytes_at(s, i));
            &&& w.len() > 0
            &&& k != TokenKind::Eof
            &&& k == TokenKind::Int <==> digit_byte(w[0])
            &&& k == TokenKind::Ident <==> letter_byte(w[0])
            &&& k == TokenKind::Int ==> {
                &&& forall|j: int| 0 <= j < w.len() ==> digit_byte(#[trigger] w[j])
                &&& t.end < s.len() ==> !digit_byte(s[t.end])
            }
            &&& k == TokenKind::Ident ==> {
                &&& forall|j: int|
                    0 <= j < w.len() ==> letter_byte(#[trigger] w[j]) || digit_byte(w[j])
                &&& t.end < s.len() ==> !letter_byte(s[t.end]) && !digit_byte(s[t.end])
            }
        }),
{
    lemma_lex_from(s, 0);
    let t = lex(s)[i];
    let (x, e) = (t.start, t.end);
    let w = bytes_at(s, i);
    assert(tok_at(s, x) == Some((t.kind, e)));
    assert(w[0] == s[x]);
    lemma_digits_end(s, x + 1);
    lemma_ident_end(s, x + 1);
    if t.kind == TokenKind::Int {
        assert forall|j: int| 0 <= j < w.len() implies digit_byte(#[trigger] w[j]) by {
            assert(w[j] == s[x + j]);
            assert(j > 0 ==> is_digit(s[x + j]));
        }
    }
    if t.kind == TokenKind::Ident {
        assert forall|j: int| 0 <= j < w.len() implies letter_byte(#[trigger] w[j]) || digit_byte(
            w[j],
        ) by {
            assert(w[j] == s[x + j]);
            assert(j > 0 ==> is_ident_byte(s[x + j]));
        }
    }
}

/// Every other kind has one sign, and the sign tells the kind; a sign that a longer one
/// begins with stands only where that does not.
#[verifier::spinoff_prover]
#[verifier::rlimit(60)]
pub proof fn law_signs_spelled(s: Seq<u8>, i: int)
    requires
        0 <= i < lex(s).len() - 1,
    ensures
        ({
            let t = lex(s)[i];
            let (k, w) = (t.kind, bytes_at(s, i));
            &&& k == TokenKind::Plus <==> is_byte(w, '+')
            &&& k == TokenKind::Minus <==> is_byte(w, '-')
            &&& k == TokenKind::Star <==> is_byte(w, '*')
            &&& k == TokenKind::Slash <==> is_byte(w, '/')
            &&& k == TokenKind::Percent <==> is_byte(w, '%')
            &&& k == TokenKind::Caret <==> is_byte(w, '^')
            &&& k == TokenKind::Bang <==> is_byte(w, '!')
            &&& k == TokenKind::AndAnd <==> are_bytes(w, '&', '&')
            &&& k == TokenKind::OrOr <==> are_bytes(w, '|', '|')
            &&& k == TokenKind::EqEq <==> are_bytes(w, '=', '=')
            &&& k == TokenKind::BangEq <==> are_bytes(w, '!', '=')
            &&& k == TokenKind::Lt <==> is_byte(w, '<')
            &&& k == TokenKind::Gt <==> is_byte(w, '>')
            &&& k == TokenKind::LtEq <==> are_bytes(w, '<', '=')
            &&& k == TokenKind::GtEq <==> are_bytes(w, '>', '=')
            &&& k == TokenKind::Question <==> is_byte(w, '?')
            &&& k == TokenKind::Colon <==> is_byte(w, ':')
            &&& k == TokenKind::LParen <==> is_byte(w, '(')
            &&& k == TokenKind::RParen <==> is_byte(w, ')')
            &&& k == TokenKind::LBracket <==> is_byte(w, '[')
            &&& k == TokenKind::RBracket <==> is_byte(w, ']')
            &&& k == TokenKind::Dot <==> is_byte(w, '.')
            &&& k == TokenKind::Comma <==> is_byte(w, ',')
            &&& (k == TokenKind::Bang || k == TokenKind::Lt || k == TokenKind::Gt) && t.end < s.len()
                ==> s[t.end] != '=' as u8
        }),
{
    lemma_lex_from(s, 0);
    let t = lex(s)[i];
    let (x, e) = (t.start, t.end);
    let w = bytes_at(s, i);
    assert(w[0] == s[x]);
    if e >= x + 2 {
        assert(w[1] == s[x + 1]);
    }
    lemma_sign(s, x, t.kind, e);
    if t.kind == TokenKind::Int || t.kind == TokenKind::Ident {
        law_words_spelled(s, i);
    }
}

/// The signs, by their bytes.
proof fn lemma_sign(s: Seq<u8>, x: int, k: TokenKind, e: int)
    requires
        0 <= x < s.len(),
        tok_at(s, x) == Some((k, e)),
    ensures
        x < e <= s.len(),
        k != TokenKind::Int && k != TokenKind::Ident ==> e <= x + 2,
        k != TokenKind::Eof,
        e == x + 1 && k != TokenKind::Int && k != TokenKind::Ident ==> single_kind(s[x])
            == Some(k) || single_kind(s[x]) is None && short_kind(s[x]) == Some(k),
        e == x + 2 && k != TokenKind::Int && k != TokenKind::Ident ==> single_kind(s[x]) is None
            && pair_kind(s[x], s[x + 1]) == Some(k),
        e == x + 1 && short_kind(s[x]) is Some && e < s.len() ==> s[e] != '=' as u8,
{
    lemma_tok_at(s, x);
}

/// A sign is shown as it is written.
pub proof fn law_signs_shown_as_written(s: Seq<u8>, i: int)
    requires
        0 <= i < lex(s).len() - 1,
        lex(s)[i].kind != TokenKind::Int,
        lex(s)[i].kind != TokenKind::Ident,
    ensures
        bytes_at(s, i).len() == token_chars(lex(s)[i].kind).len(),
        forall|j: int|
            0 <= j < bytes_at(s, i).len() ==> (#[trigger] bytes_at(s, i)[j]) as int == token_chars(
                lex(s)[i].kind,
            )[j] as int,
{
    law_signs_spelled(s, i);
    law_words_spelled(s, i);
    reveal_strlit("+");
    reveal_strlit("-");
    reveal_strlit("*");
    reveal_strlit("/");
    reveal_strlit("%");
    reveal_strlit("^");
    reveal_strlit("!");
    reveal_strlit("&&");
    reveal_strlit("||");
    reveal_strlit("==");
    reveal_strlit("!=");
    reveal_strlit("<");
    reveal_strlit(">");
    reveal_strlit("<=");
    reveal_strlit(">=");
    reveal_strlit("?");
    reveal_strlit(":");
    reveal_strlit("(");
    reveal_strlit(")");
    reveal_strlit("[");
    reveal_strlit("]");
    reveal_strlit(".");
    reveal_strlit(",");
}

/// Byte `j` is one of token `i` of `a`.
pub open spec fn of_token(a: Seq<Tok>, i: int, j: int) -> bool {
    0 <= i < a.len() && a[i].start <= j < a[i].end
}

/// Nothing before the next token begins one.
proof fn lemma_skipped(s: Seq<u8>, i: int, j: int)
    requires
        0 <= i <= j < next_tok(s, i).start,
        i <= s.len(),
    ensures
        j < s.len(),
        tok_at(s, j) is None,
    decreases s.len() - i,
{
    lemma_next_tok(s, i);
    if i < s.len() && tok_at(s, i) is None && i < j {
        lemma_skipped(s, i + 1, j);
    }
}

proof fn lemma_covered(s: Seq<u8>, i: int, j: int)
    requires
        0 <= i <= j < s.len(),
        tok_at(s, j) is Some,
    ensures
        exists|k: int| #[trigger] of_token(lex_from(s, i), k, j),
    decreases s.len() - i,
{
    lemma_next_tok(s, i);
    let t = next_tok(s, i);
    let a = lex_from(s, i);
    if j < t.start {
        lemma_skipped(s, i, j);
    } else if j < t.end {
        assert(a[0] == t);
        assert(of_token(a, 0, j));
    } else {
        lemma_covered(s, t.end, j);
        let rest = lex_from(s, t.end);
        let k = choose|k: int| #[trigger] of_token(rest, k, j);
        assert(a == seq![t] + rest);
        assert(a[k + 1] == rest[k]);
        assert(of_token(a, k + 1, j));
    }
}

/// Nothing is lost: every digit, letter and sign of a source belongs to a token, and so
/// does the first of two bytes that make a sign together. What belongs to none is a blank
/// or no part of the language.
pub proof fn law_no_byte_lost(s: Seq<u8>, j: int)
    requires
        0 <= j < s.len(),
        ({
            ||| digit_byte(s[j]) || letter_byte(s[j]) || sign_byte(s[j])
            ||| j + 1 < s.len() && s[j] == s[j + 1] && (s[j] == '&' as u8 || s[j] == '|' as u8
                || s[j] == '=' as u8)
        }),
    ensures
        exists|i: int| #[trigger] of_token(lex(s), i, j),
{
    lemma_covered(s, 0, j);
    let k = choose|k: int| #[trigger] of_token(lex_from(s, 0), k, j);
    assert(of_token(lex(s), k, j));
}

/// Blanks belong to no token.
pub proof fn law_blanks_part_tokens(s: Seq<u8>, i: int, j: int)
    requires
        0 <= i < lex(s).len() - 1,
        of_token(lex(s), i, j),
    ensures
        s[j] != ' ' as u8 && s[j] != '\t' as u8 && s[j] != '\n' as u8 && s[j] != '\r' as u8,
        !is_space(s[j]),
{
    lemma_lex_from(s, 0);
    let t = lex(s)[i];
    assert(tok_at(s, t.start) == Some((t.kind, t.end)));
    lemma_digits_end(s, t.start + 1);
    lemma_ident_end(s, t.start + 1);
}

} // verus!
