//! What symbols are called, how they are ordered, and which are refused.

use vstd::prelude::*;

use crate::expr::lexer::TokenKind;
use crate::expr::unparse::token_chars;
use crate::generator::emitter::both_fault;
use crate::generator::symbols::{char_name, chars_name, named_char, precedes, variant_of, Sym};
use crate::generator::text::{decimal, quoted};

verus! {

/// What the tokens of the expression language are called.
pub open spec fn kind_name(k: TokenKind) -> Seq<char> {
    match k {
        TokenKind::Int => "Int"@,
        TokenKind::Ident => "Ident"@,
        TokenKind::Plus => "Plus"@,
        TokenKind::Minus => "Minus"@,
        TokenKind::Star => "Star"@,
        TokenKind::Slash => "Slash"@,
        TokenKind::Percent => "Percent"@,
        TokenKind::Caret => "Caret"@,
        TokenKind::Bang => "Bang"@,
        TokenKind::AndAnd => "AndAnd"@,
        TokenKind::OrOr => "OrOr"@,
        TokenKind::EqEq => "EqEq"@,
        TokenKind::BangEq => "BangEq"@,
        TokenKind::Lt => "Lt"@,
        TokenKind::Gt => "Gt"@,
        TokenKind::LtEq => "LtEq"@,
        TokenKind::GtEq => "GtEq"@,
        TokenKind::Question => "Question"@,
        TokenKind::Colon => "Colon"@,
        TokenKind::LParen => "LParen"@,
        TokenKind::RParen => "RParen"@,
        TokenKind::LBracket => "LBracket"@,
        TokenKind::RBracket => "RBracket"@,
        TokenKind::Dot => "Dot"@,
        TokenKind::Comma => "Comma"@,
        TokenKind::Eof => "Eof"@,
    }
}

/// Signs are called as the tokens of the expression language are, but for doubled `&` and
/// `|` and the comma.
pub proof fn law_named_alike(k: TokenKind)
    requires
        !(k == TokenKind::Int || k == TokenKind::Ident || k == TokenKind::Eof || k
            == TokenKind::AndAnd || k == TokenKind::OrOr || k == TokenKind::Comma),
    ensures
        variant_of(token_chars(k)) == kind_name(k),
{
    reveal_strlit("+");
    reveal_strlit("-");
    reveal_strlit("*");
    reveal_strlit("/");
    reveal_strlit("%");
    reveal_strlit("^");
    reveal_strlit("!");
    reveal_strlit("==");
    reveal_strlit("!=");
    reveal_strlit("<");
    reveal_strlit(">");
    reveal_strlit("<=");
    reveal_strlit(">=");
    reveal_strlit("?");
    reveal_strlit(":");
    reveal_strlit("(");
    reveal_strlit(")");
    reveal_strlit("[");
    reveal_strlit("]");
    reveal_strlit(".");
    let s = token_chars(k);
    if s.len() == 1 {
        lemma_one(s);
    } else {
        lemma_two(s);
        reveal_strlit("EqEq");
        reveal_strlit("Eq");
        reveal_strlit("BangEq");
        reveal_strlit("Bang");
        reveal_strlit("LtEq");
        reveal_strlit("Lt");
        reveal_strlit("GtEq");
        reveal_strlit("Gt");
        assert("Eq"@ + "Eq"@ =~= "EqEq"@);
        assert("Bang"@ + "Eq"@ =~= "BangEq"@);
        assert("Lt"@ + "Eq"@ =~= "LtEq"@);
        assert("Gt"@ + "Eq"@ =~= "GtEq"@);
    }
}

proof fn lemma_one(s: Seq<char>)
    requires
        s.len() == 1,
    ensures
        variant_of(s) == named_char(s[0]),
{
    reveal_with_fuel(chars_name, 2);
    assert(Seq::<char>::empty() + named_char(s[0]) =~= named_char(s[0]));
}

proof fn lemma_two(s: Seq<char>)
    requires
        s.len() == 2,
    ensures
        variant_of(s) == named_char(s[0]) + named_char(s[1]),
{
    reveal_with_fuel(chars_name, 3);
    assert(Seq::<char>::empty() + named_char(s[0]) =~= named_char(s[0]));
}

/// A symbol is called by its characters, one after the other.
pub proof fn law_named_by_parts(a: Seq<char>, b: Seq<char>)
    ensures
        variant_of(a + b) == variant_of(a) + variant_of(b),
    decreases b.len(),
{
    let s = a + b;
    if b.len() == 0 {
        assert(s =~= a);
        assert(variant_of(a) + variant_of(b) =~= variant_of(a));
    } else {
        let (n, m) = (s.len() as int, b.len() as int);
        law_named_by_parts(a, b.drop_last());
        assert(a + b.drop_last() =~= s.drop_last());
        lemma_front(s, s.drop_last(), n - 1);
        lemma_front(b, b.drop_last(), m - 1);
        assert(s[n - 1] == b[m - 1]);
        assert(variant_of(s) =~= variant_of(a) + variant_of(b));
    }
}

proof fn lemma_front(s: Seq<char>, t: Seq<char>, n: int)
    requires
        0 <= n <= t.len() <= s.len(),
        forall|i: int| 0 <= i < n ==> s[i] == #[trigger] t[i],
    ensures
        chars_name(s, n) == chars_name(t, n),
    decreases n,
{
    if n > 0 {
        lemma_front(s, t, n - 1);
        assert(s[n - 1] == t[n - 1]);
    }
}

/// Two characters have the same name but for `L` and `R` before it.
pub open spec fn left_and_right(a: char, b: char) -> bool {
    exists|x: Seq<char>| char_name(a) == Some(#[trigger] ("L"@ + x)) && char_name(b) == Some("R"@ + x)
}

/// Brackets are called left and right alike; letters, digits and what else has no name of
/// its own go by their number.
pub proof fn law_brackets_named(c: char)
    ensures
        left_and_right('(', ')'),
        left_and_right('[', ']'),
        left_and_right('{', '}'),
        'a' <= c <= 'z' || 'A' <= c <= 'Z' || '0' <= c <= '9' || c == '_' || c == ' ' || c == ','
            || c == ';' || c > '~' ==> named_char(c) == "Tok"@ + decimal(c as nat),
        '!' <= c <= '~' && !('a' <= c <= 'z' || 'A' <= c <= 'Z' || '0' <= c <= '9' || c == '_' || c
            == ',' || c == ';' || c == '"' || c == '\'' || c == '`' || c == '\\') ==> char_name(c)
            is Some,
{
    reveal_strlit("L");
    reveal_strlit("R");
    reveal_strlit("LParen");
    reveal_strlit("RParen");
    reveal_strlit("LBracket");
    reveal_strlit("RBracket");
    reveal_strlit("LBrace");
    reveal_strlit("RBrace");
    reveal_strlit("Paren");
    reveal_strlit("Bracket");
    reveal_strlit("Brace");
    assert("L"@ + "Paren"@ =~= "LParen"@);
    assert("R"@ + "Paren"@ =~= "RParen"@);
    assert("L"@ + "Bracket"@ =~= "LBracket"@);
    assert("R"@ + "Bracket"@ =~= "RBracket"@);
    assert("L"@ + "Brace"@ =~= "LBrace"@);
    assert("R"@ + "Brace"@ =~= "RBrace"@);
}

/// Dictionary order: what begins alike is ordered by what follows, single characters by
/// their number, and nothing comes before the empty text.
pub proof fn law_dictionary(p: Seq<char>, a: Seq<char>, b: Seq<char>, x: char, y: char)
    ensures
        precedes(p + a, p + b) == precedes(a, b),
        precedes(seq![x] + a, seq![y] + b) == (x < y || x == y && precedes(a, b)),
        !precedes(a, Seq::empty()),
        a.len() > 0 ==> precedes(Seq::empty(), a),
    decreases p.len(),
{
    let (u, v) = (seq![x] + a, seq![y] + b);
    assert(u.skip(1) =~= a);
    assert(v.skip(1) =~= b);
    if p.len() == 0 {
        assert(p + a =~= a);
        assert(p + b =~= b);
    } else {
        law_dictionary(p.skip(1), a, b, x, y);
        assert((p + a).skip(1) =~= p.skip(1) + a);
        assert((p + b).skip(1) =~= p.skip(1) + b);
    }
}

/// A symbol is in two roles that exclude each other.
pub open spec fn in_both(v: Seq<Sym>, i: int) -> bool {
    0 <= i < v.len() && v[i].roles.infix is Some && v[i].roles.postfix_lbp is Some
}

/// A symbol may not stand both between and after operands; the first that does is named in
/// the complaint.
pub proof fn law_both_refused(v: Seq<Sym>, n: int)
    requires
        0 <= n <= v.len(),
    ensures
        match both_fault(v, n) {
            Some(x) => exists|i: int|
                i < n && #[trigger] in_both(v, i) && (forall|j: int|
                    j < i ==> !#[trigger] in_both(v, j)) && x == "symbol "@ + quoted(v[i].text@)
                    + " declared as both infix and postfix"@,
            None => forall|i: int| i < n ==> !#[trigger] in_both(v, i),
        },
    decreases n,
{
    if n > 0 {
        law_both_refused(v, n - 1);
        if both_fault(v, n - 1) is None && in_both(v, n - 1) {
            assert(in_both(v, n - 1));
        }
    }
}

} // verus!
