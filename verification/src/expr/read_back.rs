//! The text of a tree in full parentheses, token by token, and what it parses
//! back to.

use vstd::prelude::*;
use vstd::string::*;
use vstd::utf8::*;

use crate::ascii::{
    AMP, BANG, CARET, COLON, COMMA, DOT, EQUALS, GREATER, LBRACKET, LESS, LPAREN, MINUS, PERCENT,
    PIPE, PLUS, QUESTION, RBRACKET, RPAREN, SLASH, SPACE, STAR,
};
use crate::expr::ast::{Node, Shape, ShapeKind};
use crate::expr::edit::lemma_encode_concat;
use crate::expr::full_parens::{
    holds, lemma_operand, list_pieces, name, pieces, reads, reads_inside, sound,
    sym, word_of,
};
use crate::expr::grammar::{at, nt, parse_stream, Form, FormKind};
use crate::expr::lexer::{
    is_digit, is_ident_start, lemma_lex_from, lemma_tok_at, lex, tok_at, Tok, TokenKind,
};
use crate::expr::op::chain_kind;
use crate::expr::own_text::lemma_cut_tok;
use crate::expr::parser::parsed;
use crate::expr::respell::{apart, breaks, glued, law_pieces_lex, lead, parted, whole, Piece};
use crate::expr::shape::{flat, is_bin, lemma_flat_nonempty, lemma_norm_call, norm, norms};
use crate::expr::spelling::{law_tree_spells_source, spells};
use crate::expr::unparse::{token_chars, unparsed, unparsed_upto};

verus! {

// ---- Words -------------------------------------------------------------

/// A kind with a text of its own.
pub open spec fn spelt(k: TokenKind) -> bool {
    k != TokenKind::Int && k != TokenKind::Ident && k != TokenKind::Eof
}

/// The bytes of a kind's text.
pub open spec fn kind_bytes(k: TokenKind) -> Seq<u8> {
    match k {
        TokenKind::Plus => seq![PLUS],
        TokenKind::Minus => seq![MINUS],
        TokenKind::Star => seq![STAR],
        TokenKind::Slash => seq![SLASH],
        TokenKind::Percent => seq![PERCENT],
        TokenKind::Caret => seq![CARET],
        TokenKind::Bang => seq![BANG],
        TokenKind::AndAnd => seq![AMP, AMP],
        TokenKind::OrOr => seq![PIPE, PIPE],
        TokenKind::EqEq => seq![EQUALS, EQUALS],
        TokenKind::BangEq => seq![BANG, EQUALS],
        TokenKind::Lt => seq![LESS],
        TokenKind::Gt => seq![GREATER],
        TokenKind::LtEq => seq![LESS, EQUALS],
        TokenKind::GtEq => seq![GREATER, EQUALS],
        TokenKind::Question => seq![QUESTION],
        TokenKind::Colon => seq![COLON],
        TokenKind::LParen => seq![LPAREN],
        TokenKind::RParen => seq![RPAREN],
        TokenKind::LBracket => seq![LBRACKET],
        TokenKind::RBracket => seq![RBRACKET],
        TokenKind::Dot => seq![DOT],
        TokenKind::Comma => seq![COMMA],
        _ => seq![SPACE],
    }
}

proof fn lemma_one_char(s: Seq<char>, c: char)
    requires
        s.len() == 1,
        s[0] == c,
        c <= '\u{7f}',
    ensures
        encode_utf8(s) == seq![c as u8],
{
    is_ascii_chars_encode_utf8(s);
    assert(encode_utf8(s)[0] == c as u8);
    assert(encode_utf8(s) =~= seq![c as u8]);
}

proof fn lemma_two_chars(s: Seq<char>, c: char, d: char)
    requires
        s.len() == 2,
        s[0] == c,
        s[1] == d,
        c <= '\u{7f}',
        d <= '\u{7f}',
    ensures
        encode_utf8(s) == seq![c as u8, d as u8],
{
    assert forall|i| 0 <= i < s.len() implies '\0' <= #[trigger] s[i] <= '\u{7f}' by {
        if i == 0 {
        } else {
            assert(s[i] == s[1]);
        }
    }
    is_ascii_chars_encode_utf8(s);
    assert(s[0] as u8 == encode_utf8(s)[0]);
    assert(s[1] as u8 == encode_utf8(s)[1]);
    assert(encode_utf8(s) =~= seq![c as u8, d as u8]);
}

/// A kind's text in bytes.
proof fn lemma_kind_bytes(k: TokenKind)
    requires
        spelt(k),
    ensures
        encode_utf8(token_chars(k)) == kind_bytes(k),
{
    reveal_strlit("+");
    reveal_strlit("-");
    reveal_strlit("*");
    reveal_strlit("/");
    reveal_strlit("%");
    reveal_strlit("^");
    reveal_strlit("!");
    reveal_strlit("&&");
    reveal_strlit("||");
    reveal_strlit("==");
    reveal_strlit("!=");
    reveal_strlit("<");
    reveal_strlit(">");
    reveal_strlit("<=");
    reveal_strlit(">=");
    reveal_strlit("?");
    reveal_strlit(":");
    reveal_strlit("(");
    reveal_strlit(")");
    reveal_strlit("[");
    reveal_strlit("]");
    reveal_strlit(".");
    reveal_strlit(",");
    let s = token_chars(k);
    match k {
        TokenKind::AndAnd => lemma_two_chars(s, '&', '&'),
        TokenKind::OrOr => lemma_two_chars(s, '|', '|'),
        TokenKind::EqEq => lemma_two_chars(s, '=', '='),
        TokenKind::BangEq => lemma_two_chars(s, '!', '='),
        TokenKind::LtEq => lemma_two_chars(s, '<', '='),
        TokenKind::GtEq => lemma_two_chars(s, '>', '='),
        _ => lemma_one_char(s, s[0]),
    }
}

/// A kind's text is one token of the kind.
proof fn lemma_sym(k: TokenKind, gap: bool)
    requires
        spelt(k),
    ensures
        whole(sym(k, gap)),
        sym(k, gap).word == kind_bytes(k),
{
    lemma_kind_bytes(k);
    let w = kind_bytes(k);
    assert(tok_at(w, 0) == Some((k, w.len() as int)));
}

// ---- Text --------------------------------------------------------------

/// All pieces, written one after the other.
pub open spec fn text(ps: Seq<Piece>) -> Seq<u8> {
    glued(ps, ps.len() as int)
}

proof fn lemma_glued_concat(ps: Seq<Piece>, qs: Seq<Piece>, k: int)
    requires
        0 <= k <= qs.len(),
    ensures
        glued(ps + qs, ps.len() + k) == text(ps) + glued(qs, k),
    decreases k,
{
    if k == 0 {
        lemma_glued_same(ps + qs, ps, ps.len() as int);
        assert(text(ps) + glued(qs, 0) =~= text(ps));
    } else {
        lemma_glued_concat(ps, qs, k - 1);
        let x = qs[k - 1];
        assert((ps + qs)[ps.len() + k - 1] == x);
        assert(text(ps) + glued(qs, k - 1) + lead(x) + x.word =~= text(ps) + (glued(qs, k - 1) + lead(
            x,
        ) + x.word));
    }
}

proof fn lemma_glued_same(ps: Seq<Piece>, qs: Seq<Piece>, k: int)
    requires
        0 <= k <= ps.len(),
        k <= qs.len(),
        forall|i: int| 0 <= i < k ==> ps[i] == qs[i],
    ensures
        glued(ps, k) == glued(qs, k),
    decreases k,
{
    if k > 0 {
        lemma_glued_same(ps, qs, k - 1);
    }
}

proof fn lemma_text_concat(ps: Seq<Piece>, qs: Seq<Piece>)
    ensures
        text(ps + qs) == text(ps) + text(qs),
{
    lemma_glued_concat(ps, qs, qs.len() as int);
}

proof fn lemma_text_one(x: Piece)
    ensures
        text(seq![x]) == lead(x) + x.word,
{
    let ps = seq![x];
    assert(glued(ps, 0) == Seq::<u8>::empty());
    assert(glued(ps, 1) =~= lead(x) + x.word);
}

/// A space, or none.
pub open spec fn gap_bytes(gap: bool) -> Seq<u8> {
    if gap {
        seq![SPACE]
    } else {
        Seq::empty()
    }
}

/// One more part of a text.
proof fn lemma_grow(ps: Seq<Piece>, qs: Seq<Piece>, a: Seq<char>, b: Seq<char>, pre: Seq<u8>)
    requires
        text(ps) == pre + encode_utf8(a),
        text(qs) == encode_utf8(b),
    ensures
        text(ps + qs) == pre + encode_utf8(a + b),
{
    lemma_text_concat(ps, qs);
    lemma_encode_concat(a, b);
    assert((pre + encode_utf8(a)) + encode_utf8(b) =~= pre + (encode_utf8(a) + encode_utf8(b)));
}

/// A token with a space before it.
proof fn lemma_spaced_sym(k: TokenKind)
    ensures
        text(seq![sym(k, true)]) == encode_utf8(" "@ + token_chars(k)),
        text(seq![sym(k, false)]) == encode_utf8(token_chars(k)),
{
    reveal_strlit(" ");
    lemma_one_char(" "@, ' ');
    lemma_encode_concat(" "@, token_chars(k));
    lemma_text_one(sym(k, true));
    lemma_text_one(sym(k, false));
    assert(Seq::<u8>::empty() + sym(k, false).word =~= sym(k, false).word);
}

/// A part with a space before it.
proof fn lemma_spaced_part(t: Shape)
    requires
        text(pieces(t, true)) == gap_bytes(true) + encode_utf8(unparsed(t)),
    ensures
        text(pieces(t, true)) == encode_utf8(" "@ + unparsed(t)),
{
    reveal_strlit(" ");
    lemma_one_char(" "@, ' ');
    lemma_encode_concat(" "@, unparsed(t));
}

proof fn lemma_bare_part(t: Shape)
    requires
        text(pieces(t, false)) == gap_bytes(false) + encode_utf8(unparsed(t)),
    ensures
        text(pieces(t, false)) == encode_utf8(unparsed(t)),
{
    assert(Seq::<u8>::empty() + encode_utf8(unparsed(t)) =~= encode_utf8(unparsed(t)));
}

proof fn lemma_open(gap: bool)
    ensures
        text(seq![sym(TokenKind::LParen, gap)]) == gap_bytes(gap) + encode_utf8("("@),
{
    lemma_text_one(sym(TokenKind::LParen, gap));
}

/// The pieces of a tree spell its text.
proof fn lemma_text(t: Shape, gap: bool)
    requires
        sound(t),
    ensures
        text(pieces(t, gap)) == gap_bytes(gap) + encode_utf8(unparsed(t)),
    decreases t, 1int,
{
    match t.kind {
        ShapeKind::Atom(s) => lemma_text_one(name(s, gap)),
        ShapeKind::Prefix { op, child } => {
            let pre = gap_bytes(gap);
            let open = seq![sym(TokenKind::LParen, gap)];
            let close = seq![sym(TokenKind::RParen, false)];
            lemma_open(gap);
            lemma_spaced_sym(op);
            lemma_spaced_sym(TokenKind::RParen);
            lemma_text(*child, false);
            lemma_bare_part(*child);
            let (x, y) = (seq![sym(op, false)], pieces(*child, false));
            let (a, b, c) = ("("@, token_chars(op), unparsed(*child));
            lemma_grow(open, x, a, b, pre);
            lemma_grow(open + x, y, a + b, c, pre);
            lemma_grow(open + x + y, close, a + b + c, ")"@, pre);
        },
        ShapeKind::Binary { op, left, right } => lemma_text_binary(t, gap),
        ShapeKind::Ternary { cond, then, else_ } => lemma_text_ternary(t, gap),
        ShapeKind::Paren { inner } => lemma_text(*inner, gap),
        ShapeKind::Call { callee, args } => lemma_text_call(t, gap),
        ShapeKind::Index { array, index } => lemma_text_index(t, gap),
        ShapeKind::Member { object, field } => {
            let pre = gap_bytes(gap);
            let open = seq![sym(TokenKind::LParen, gap)];
            let close = seq![sym(TokenKind::RParen, false)];
            lemma_open(gap);
            lemma_spaced_sym(TokenKind::Dot);
            lemma_spaced_sym(TokenKind::RParen);
            lemma_text(*object, false);
            lemma_bare_part(*object);
            lemma_text_one(name(field, false));
            let (x, y, z) = (
                pieces(*object, false),
                seq![sym(TokenKind::Dot, false)],
                seq![name(field, false)],
            );
            assert(text(z) =~= encode_utf8(field));
            let (a, b) = ("("@, unparsed(*object));
            lemma_grow(open, x, a, b, pre);
            lemma_grow(open + x, y, a + b, "."@, pre);
            lemma_grow(open + x + y, z, a + b + "."@, field, pre);
            lemma_grow(open + x + y + z, close, a + b + "."@ + field, ")"@, pre);
        },
        ShapeKind::Missing => {},
        ShapeKind::Error { skipped } => {},
    }
}

proof fn lemma_text_binary(t: Shape, gap: bool)
    requires
        sound(t),
        t.kind is Binary,
    ensures
        text(pieces(t, gap)) == gap_bytes(gap) + encode_utf8(unparsed(t)),
    decreases t, 0int,
{
    let pre = gap_bytes(gap);
    let open = seq![sym(TokenKind::LParen, gap)];
    let close = seq![sym(TokenKind::RParen, false)];
    if let ShapeKind::Binary { op, left, right } = t.kind {
        lemma_open(gap);
        lemma_spaced_sym(op);
        lemma_spaced_sym(TokenKind::RParen);
        lemma_text(*left, false);
        lemma_bare_part(*left);
        lemma_text(*right, true);
        lemma_spaced_part(*right);
        let (x, y, z) = (pieces(*left, false), seq![sym(op, true)], pieces(*right, true));
        let (a, b, c) = ("("@, unparsed(*left), unparsed(*right));
        let (o, d) = (" "@ + token_chars(op), " "@ + c);
        lemma_grow(open, x, a, b, pre);
        lemma_grow(open + x, y, a + b, o, pre);
        lemma_grow(open + x + y, z, a + b + o, d, pre);
        lemma_grow(open + x + y + z, close, a + b + o + d, ")"@, pre);
        assert(a + b + o + d + ")"@ =~= unparsed(t));
    }
}

proof fn lemma_text_ternary(t: Shape, gap: bool)
    requires
        sound(t),
        t.kind is Ternary,
    ensures
        text(pieces(t, gap)) == gap_bytes(gap) + encode_utf8(unparsed(t)),
    decreases t, 0int,
{
    let pre = gap_bytes(gap);
    let open = seq![sym(TokenKind::LParen, gap)];
    let close = seq![sym(TokenKind::RParen, false)];
    if let ShapeKind::Ternary { cond, then, else_ } = t.kind {
        lemma_open(gap);
        lemma_spaced_sym(TokenKind::Question);
        lemma_spaced_sym(TokenKind::Colon);
        lemma_spaced_sym(TokenKind::RParen);
        lemma_text(*cond, false);
        lemma_bare_part(*cond);
        lemma_text(*then, true);
        lemma_spaced_part(*then);
        lemma_text(*else_, true);
        lemma_spaced_part(*else_);
        let (x, y, z) = (pieces(*cond, false), pieces(*then, true), pieces(*else_, true));
        let (q, r) = (seq![sym(TokenKind::Question, true)], seq![sym(TokenKind::Colon, true)]);
        let (a, b) = ("("@, unparsed(*cond));
        let (c, d) = (" "@ + unparsed(*then), " "@ + unparsed(*else_));
        let (o, e) = (" "@ + "?"@, " "@ + ":"@);
        lemma_grow(open, x, a, b, pre);
        lemma_grow(open + x, q, a + b, o, pre);
        lemma_grow(open + x + q, y, a + b + o, c, pre);
        lemma_grow(open + x + q + y, r, a + b + o + c, e, pre);
        lemma_grow(open + x + q + y + r, z, a + b + o + c + e, d, pre);
        lemma_grow(open + x + q + y + r + z, close, a + b + o + c + e + d, ")"@, pre);
        reveal_strlit(" ");
        reveal_strlit("?");
        reveal_strlit(":");
        reveal_strlit(" ? ");
        reveal_strlit(" : ");
        assert(" ? "@ =~= " "@ + "?"@ + " "@);
        assert(" : "@ =~= " "@ + ":"@ + " "@);
        assert(a + b + o + c + e + d + ")"@ =~= unparsed(t));
    }
}

proof fn lemma_text_index(t: Shape, gap: bool)
    requires
        sound(t),
        t.kind is Index,
    ensures
        text(pieces(t, gap)) == gap_bytes(gap) + encode_utf8(unparsed(t)),
    decreases t, 0int,
{
    let pre = gap_bytes(gap);
    let open = seq![sym(TokenKind::LParen, gap)];
    let close = seq![sym(TokenKind::RParen, false)];
    if let ShapeKind::Index { array, index } = t.kind {
        lemma_open(gap);
        lemma_spaced_sym(TokenKind::LBracket);
        lemma_spaced_sym(TokenKind::RBracket);
        lemma_spaced_sym(TokenKind::RParen);
        lemma_text(*array, false);
        lemma_bare_part(*array);
        lemma_text(*index, false);
        lemma_bare_part(*index);
        let (x, y) = (pieces(*array, false), pieces(*index, false));
        let (q, r) = (seq![sym(TokenKind::LBracket, false)], seq![sym(TokenKind::RBracket, false)]);
        let (a, b, c) = ("("@, unparsed(*array), unparsed(*index));
        lemma_grow(open, x, a, b, pre);
        lemma_grow(open + x, q, a + b, "["@, pre);
        lemma_grow(open + x + q, y, a + b + "["@, c, pre);
        lemma_grow(open + x + q + y, r, a + b + "["@ + c, "]"@, pre);
        lemma_grow(open + x + q + y + r, close, a + b + "["@ + c + "]"@, ")"@, pre);
        reveal_strlit("]");
        reveal_strlit(")");
        reveal_strlit("])");
        assert("])"@ =~= "]"@ + ")"@);
        assert(a + b + "["@ + c + "]"@ + ")"@ =~= unparsed(t));
    }
}

proof fn lemma_text_call(t: Shape, gap: bool)
    requires
        sound(t),
        t.kind is Call,
    ensures
        text(pieces(t, gap)) == gap_bytes(gap) + encode_utf8(unparsed(t)),
    decreases t, 0int,
{
    let pre = gap_bytes(gap);
    let open = seq![sym(TokenKind::LParen, gap)];
    let close = seq![sym(TokenKind::RParen, false)];
    if let ShapeKind::Call { callee, args } = t.kind {
        let n = args.len() as int;
        lemma_open(gap);
        lemma_spaced_sym(TokenKind::LParen);
        lemma_spaced_sym(TokenKind::RParen);
        lemma_text(*callee, false);
        lemma_bare_part(*callee);
        lemma_text_list(args, n);
        let (x, y) = (pieces(*callee, false), list_pieces(args, n));
        let q = seq![sym(TokenKind::LParen, false)];
        let (a, b, c) = ("("@, unparsed(*callee), unparsed_upto(args, n));
        lemma_grow(open, x, a, b, pre);
        lemma_grow(open + x, q, a + b, "("@, pre);
        lemma_grow(open + x + q, y, a + b + "("@, c, pre);
        lemma_grow(open + x + q + y, close, a + b + "("@ + c, ")"@, pre);
        lemma_grow(open + x + q + y + close, close, a + b + "("@ + c + ")"@, ")"@, pre);
        reveal_strlit(")");
        reveal_strlit("))");
        assert("))"@ =~= ")"@ + ")"@);
        assert(a + b + "("@ + c + ")"@ + ")"@ =~= unparsed(t));
    }
}

proof fn lemma_text_list(ts: Seq<Shape>, k: int)
    requires
        0 <= k <= ts.len(),
        forall|i: int| 0 <= i < ts.len() ==> sound(#[trigger] ts[i]),
    ensures
        text(list_pieces(ts, k)) == encode_utf8(unparsed_upto(ts, k)),
    decreases ts, k,
{
    if k == 0 {
        assert(encode_utf8(Seq::<char>::empty()) =~= Seq::<u8>::empty());
    } else {
        assert(sound(ts[k - 1]));
        if k == 1 {
            lemma_text(ts[0], false);
            lemma_bare_part(ts[0]);
        } else {
            let none = Seq::<u8>::empty();
            lemma_text_list(ts, k - 1);
            lemma_spaced_sym(TokenKind::Comma);
            lemma_text(ts[k - 1], true);
            lemma_spaced_part(ts[k - 1]);
            let (x, y, z) = (
                list_pieces(ts, k - 1),
                seq![sym(TokenKind::Comma, false)],
                pieces(ts[k - 1], true),
            );
            let (a, c) = (unparsed_upto(ts, k - 1), " "@ + unparsed(ts[k - 1]));
            assert(none + encode_utf8(a) =~= encode_utf8(a));
            lemma_grow(x, y, a, ","@, none);
            lemma_grow(x + y, z, a + ","@, c, none);
            reveal_strlit(" ");
            reveal_strlit(",");
            reveal_strlit(", ");
            assert(", "@ =~= ","@ + " "@);
            assert(a + ","@ + c =~= unparsed_upto(ts, k));
            assert(none + encode_utf8(a + ","@ + c) =~= encode_utf8(a + ","@ + c));
        }
    }
}

// ---- Tokens stay apart -------------------------------------------------

/// An expression in full parentheses can start with this byte.
pub open spec fn starts(c: u8) -> bool {
    c == LPAREN || is_digit(c) || is_ident_start(c)
}

/// An expression in full parentheses can end with this token.
pub open spec fn ends(w: Seq<u8>) -> bool {
    w[0] == RPAREN || is_digit(w[0]) || is_ident_start(w[0])
}

/// Pieces of an expression.
pub open spec fn whole_text(ps: Seq<Piece>, gap: bool) -> bool {
    &&& ps.len() > 0
    &&& apart(ps)
    &&& ps[0].gap == gap
    &&& starts(ps[0].word[0])
    &&& ends(ps.last().word)
}

proof fn lemma_join(ps: Seq<Piece>, qs: Seq<Piece>)
    requires
        ps.len() > 0,
        qs.len() > 0,
        apart(ps),
        apart(qs),
        qs[0].gap || breaks(ps.last().word, qs[0].word[0]),
    ensures
        (ps + qs).len() > 0,
        apart(ps + qs),
        (ps + qs)[0] == ps[0],
        (ps + qs).last() == qs.last(),
{
    let all = ps + qs;
    let n = ps.len() as int;
    assert forall|i: int| 0 <= i < all.len() implies whole(#[trigger] all[i]) by {
        if i < n {
            assert(all[i] == ps[i]);
        } else {
            assert(all[i] == qs[i - n]);
        }
    }
    assert forall|i: int| 0 < i < all.len() implies #[trigger] parted(all, i) by {
        if i < n {
            assert(parted(ps, i));
            assert(all[i] == ps[i] && all[i - 1] == ps[i - 1]);
        } else if i == n {
            assert(all[i] == qs[0] && all[i - 1] == ps.last());
        } else {
            assert(parted(qs, i - n));
            assert(all[i] == qs[i - n] && all[i - 1] == qs[i - 1 - n]);
        }
    }
}

/// One token of a kind's text.
proof fn lemma_sym_apart(k: TokenKind, gap: bool)
    requires
        spelt(k),
    ensures
        apart(seq![sym(k, gap)]),
        seq![sym(k, gap)].last() == sym(k, gap),
        sym(k, gap).word == kind_bytes(k),
{
    lemma_sym(k, gap);
}

/// No two tokens of an expression in full parentheses run together.
proof fn lemma_apart(t: Shape, gap: bool)
    requires
        sound(t),
    ensures
        whole_text(pieces(t, gap), gap),
    decreases t, 1int,
{
    match t.kind {
        ShapeKind::Atom(s) => {
            assert(whole(name(s, gap)));
            lemma_name_start(s, TokenKind::Int);
            lemma_name_start(s, TokenKind::Ident);
        },
        ShapeKind::Prefix { op, child } => lemma_apart_prefix(t, gap),
        ShapeKind::Binary { op, left, right } => lemma_apart_binary(t, gap),
        ShapeKind::Ternary { cond, then, else_ } => lemma_apart_ternary(t, gap),
        ShapeKind::Paren { inner } => lemma_apart(*inner, gap),
        ShapeKind::Call { callee, args } => lemma_apart_call(t, gap),
        ShapeKind::Index { array, index } => lemma_apart_index(t, gap),
        ShapeKind::Member { object, field } => lemma_apart_member(t, gap),
        ShapeKind::Missing => {},
        ShapeKind::Error { skipped } => {},
    }
}

proof fn lemma_apart_prefix(t: Shape, gap: bool)
    requires
        sound(t),
        t.kind is Prefix,
    ensures
        whole_text(pieces(t, gap), gap),
    decreases t, 0int,
{
    let open = seq![sym(TokenKind::LParen, gap)];
    let close = seq![sym(TokenKind::RParen, false)];
    lemma_sym_apart(TokenKind::LParen, gap);
    lemma_sym_apart(TokenKind::RParen, false);
    if let ShapeKind::Prefix { op, child } = t.kind {
        let (x, y) = (seq![sym(op, false)], pieces(*child, false));
        lemma_sym_apart(op, false);
        lemma_apart(*child, false);
        lemma_join(open, x);
        lemma_join(open + x, y);
        lemma_join(open + x + y, close);
    }
}

proof fn lemma_apart_binary(t: Shape, gap: bool)
    requires
        sound(t),
        t.kind is Binary,
    ensures
        whole_text(pieces(t, gap), gap),
    decreases t, 0int,
{
    let open = seq![sym(TokenKind::LParen, gap)];
    let close = seq![sym(TokenKind::RParen, false)];
    lemma_sym_apart(TokenKind::LParen, gap);
    lemma_sym_apart(TokenKind::RParen, false);
    if let ShapeKind::Binary { op, left, right } = t.kind {
        let (x, y, z) = (pieces(*left, false), seq![sym(op, true)], pieces(*right, true));
        lemma_sym_apart(op, true);
        lemma_apart(*left, false);
        lemma_apart(*right, true);
        lemma_join(open, x);
        lemma_join(open + x, y);
        lemma_join(open + x + y, z);
        lemma_join(open + x + y + z, close);
    }
}

proof fn lemma_apart_ternary(t: Shape, gap: bool)
    requires
        sound(t),
        t.kind is Ternary,
    ensures
        whole_text(pieces(t, gap), gap),
    decreases t, 0int,
{
    let open = seq![sym(TokenKind::LParen, gap)];
    let close = seq![sym(TokenKind::RParen, false)];
    lemma_sym_apart(TokenKind::LParen, gap);
    lemma_sym_apart(TokenKind::RParen, false);
    if let ShapeKind::Ternary { cond, then, else_ } = t.kind {
        let (x, y, z) = (pieces(*cond, false), pieces(*then, true), pieces(*else_, true));
        let (q, r) = (seq![sym(TokenKind::Question, true)], seq![sym(TokenKind::Colon, true)]);
        lemma_sym_apart(TokenKind::Question, true);
        lemma_sym_apart(TokenKind::Colon, true);
        lemma_apart(*cond, false);
        lemma_apart(*then, true);
        lemma_apart(*else_, true);
        lemma_join(open, x);
        lemma_join(open + x, q);
        lemma_join(open + x + q, y);
        lemma_join(open + x + q + y, r);
        lemma_join(open + x + q + y + r, z);
        lemma_join(open + x + q + y + r + z, close);
    }
}

proof fn lemma_apart_index(t: Shape, gap: bool)
    requires
        sound(t),
        t.kind is Index,
    ensures
        whole_text(pieces(t, gap), gap),
    decreases t, 0int,
{
    let open = seq![sym(TokenKind::LParen, gap)];
    let close = seq![sym(TokenKind::RParen, false)];
    lemma_sym_apart(TokenKind::LParen, gap);
    lemma_sym_apart(TokenKind::RParen, false);
    if let ShapeKind::Index { array, index } = t.kind {
        let (x, y) = (pieces(*array, false), pieces(*index, false));
        let (q, r) = (seq![sym(TokenKind::LBracket, false)], seq![sym(TokenKind::RBracket, false)]);
        lemma_sym_apart(TokenKind::LBracket, false);
        lemma_sym_apart(TokenKind::RBracket, false);
        lemma_apart(*array, false);
        lemma_apart(*index, false);
        lemma_join(open, x);
        lemma_join(open + x, q);
        lemma_join(open + x + q, y);
        lemma_join(open + x + q + y, r);
        lemma_join(open + x + q + y + r, close);
    }
}

proof fn lemma_apart_member(t: Shape, gap: bool)
    requires
        sound(t),
        t.kind is Member,
    ensures
        whole_text(pieces(t, gap), gap),
    decreases t, 0int,
{
    let open = seq![sym(TokenKind::LParen, gap)];
    let close = seq![sym(TokenKind::RParen, false)];
    lemma_sym_apart(TokenKind::LParen, gap);
    lemma_sym_apart(TokenKind::RParen, false);
    if let ShapeKind::Member { object, field } = t.kind {
        let x = pieces(*object, false);
        let (q, r) = (seq![sym(TokenKind::Dot, false)], seq![name(field, false)]);
        lemma_sym_apart(TokenKind::Dot, false);
        lemma_name_start(field, TokenKind::Ident);
        lemma_apart(*object, false);
        assert(whole(name(field, false)));
        lemma_join(open, x);
        lemma_join(open + x, q);
        lemma_join(open + x + q, r);
        lemma_join(open + x + q + r, close);
    }
}

/// What a word starts with.
proof fn lemma_name_start(s: Seq<char>, k: TokenKind)
    requires
        k == TokenKind::Int || k == TokenKind::Ident,
    ensures
        word_of(s, k) ==> is_digit(encode_utf8(s)[0]) || is_ident_start(encode_utf8(s)[0]),
{
}

proof fn lemma_apart_call(t: Shape, gap: bool)
    requires
        sound(t),
        t.kind is Call,
    ensures
        whole_text(pieces(t, gap), gap),
    decreases t, 0int,
{
    let open = seq![sym(TokenKind::LParen, gap)];
    let close = seq![sym(TokenKind::RParen, false)];
    let q = seq![sym(TokenKind::LParen, false)];
    lemma_sym_apart(TokenKind::LParen, gap);
    lemma_sym_apart(TokenKind::LParen, false);
    lemma_sym_apart(TokenKind::RParen, false);
    if let ShapeKind::Call { callee, args } = t.kind {
        let n = args.len() as int;
        let (x, y) = (pieces(*callee, false), list_pieces(args, n));
        lemma_apart(*callee, false);
        lemma_join(open, x);
        lemma_join(open + x, q);
        if n > 0 {
            lemma_apart_list(args, n);
            lemma_join(open + x + q, y);
        } else {
            assert(open + x + q + y =~= open + x + q);
        }
        lemma_join(open + x + q + y, close);
        lemma_join(open + x + q + y + close, close);
    }
}

proof fn lemma_apart_list(ts: Seq<Shape>, k: int)
    requires
        0 < k <= ts.len(),
        forall|i: int| 0 <= i < ts.len() ==> sound(#[trigger] ts[i]),
    ensures
        whole_text(list_pieces(ts, k), false),
    decreases ts, k,
{
    assert(sound(ts[k - 1]));
    if k == 1 {
        lemma_apart(ts[0], false);
    } else {
        let (x, y, z) = (
            list_pieces(ts, k - 1),
            seq![sym(TokenKind::Comma, false)],
            pieces(ts[k - 1], true),
        );
        lemma_sym_apart(TokenKind::Comma, false);
        lemma_apart_list(ts, k - 1);
        lemma_apart(ts[k - 1], true);
        lemma_join(x, y);
        lemma_join(x + y, z);
    }
}

// ---- Trees as parsed ---------------------------------------------------

/// `f` is spelt by tokens of `a`.
pub open spec fn spelled(a: Seq<Tok>, f: Form) -> bool {
    exists|x: int| #[trigger] spells(a, x, f)
}

/// The text of a token of a source is that token.
proof fn lemma_token_word(src: Seq<u8>, i: int)
    requires
        0 <= i < lex(src).len() - 1,
    ensures
        word_of(lex(src)[i].text, lex(src)[i].kind),
{
    lemma_lex_from(src, 0);
    let t = lex(src)[i];
    assert(0 <= t.start < t.end <= src.len());
    assert(tok_at(src, t.start) == Some((t.kind, t.end)));
    let w = src.subrange(t.start, t.end);
    lemma_cut_tok(src, t.start, t.end, t.start);
    lemma_tok_at(src, t.start);
    assert forall|j: int| 0 <= j < w.len() implies #[trigger] is_leading_byte_width_1(w[j]) by {
        assert(w[j] == src[t.start + j]);
        assert(src[t.start + j] < 128);
        utf8_byte_ranges_bitwise(w[j]);
    }
    assert(w.subrange(0, 0) =~= Seq::<u8>::empty());
    partial_valid_utf8_extend_ascii_block(w, 0, w.len() as int);
    assert(w.subrange(0, w.len() as int) =~= w);
    decode_utf8_encode_utf8(w);
}

/// A tree that is spelt by the tokens of a source can be written.
proof fn lemma_sound(src: Seq<u8>, t: Shape)
    requires
        spelled(lex(src), norm(t)),
    ensures
        sound(t),
    decreases t, 2int,
{
    let a = lex(src);
    let x = choose|x: int| #[trigger] spells(a, x, norm(t));
    match t.kind {
        ShapeKind::Atom(s) => lemma_token_word(src, x),
        ShapeKind::Prefix { op, child } => {
            assert(spells(a, x + 1, norm(*child)));
            lemma_sound(src, *child);
        },
        ShapeKind::Binary { op, left, right } => {
            if chain_kind(op) {
                let (l, r) = (flat(*left, op), flat(*right, op));
                let all = l + r;
                assert(norm(t).kind == FormKind::Chain { op, operands: all });
                assert forall|i: int| 0 <= i < all.len() implies spelled(a, #[trigger] all[i]) by {
                    assert(spells(a, at(x, all, i), all[i]));
                }
                assert forall|i: int| 0 <= i < l.len() implies spelled(a, #[trigger] l[i]) by {
                    assert(all[i] == l[i]);
                }
                assert forall|i: int| 0 <= i < r.len() implies spelled(a, #[trigger] r[i]) by {
                    assert(all[l.len() + i] == r[i]);
                }
                lemma_sound_chain(src, *left, op);
                lemma_sound_chain(src, *right, op);
            } else {
                assert(spells(a, x, norm(*left)));
                assert(spells(a, x + nt(norm(*left)) + 1, norm(*right)));
                lemma_sound(src, *left);
                lemma_sound(src, *right);
            }
        },
        ShapeKind::Ternary { cond, then, else_ } => {
            let q = x + nt(norm(*cond));
            let r = q + nt(norm(*then)) + 1;
            assert(spells(a, x, norm(*cond)));
            assert(spells(a, q + 1, norm(*then)));
            assert(spells(a, r + 1, norm(*else_)));
            lemma_sound(src, *cond);
            lemma_sound(src, *then);
            lemma_sound(src, *else_);
        },
        ShapeKind::Paren { inner } => {
            assert(spells(a, x + 1, norm(*inner)));
            lemma_sound(src, *inner);
        },
        ShapeKind::Call { callee, args } => {
            lemma_norm_call(t);
            assert(spells(a, x, norm(*callee)));
            lemma_sound(src, *callee);
            let gs = norms(args);
            assert forall|i: int| 0 <= i < args.len() implies sound(#[trigger] args[i]) by {
                let q = x + nt(norm(*callee)) + 1;
                assert(spells(a, at(q, gs, i), gs[i]));
                assert(gs[i] == norm(args[i]));
                lemma_sound(src, args[i]);
            }
        },
        ShapeKind::Index { array, index } => {
            assert(spells(a, x, norm(*array)));
            assert(spells(a, x + nt(norm(*array)) + 1, norm(*index)));
            lemma_sound(src, *array);
            lemma_sound(src, *index);
        },
        ShapeKind::Member { object, field } => {
            assert(spells(a, x, norm(*object)));
            lemma_sound(src, *object);
            lemma_token_word(src, x + nt(norm(*object)) + 1);
        },
        ShapeKind::Missing => {},
        ShapeKind::Error { skipped } => {},
    }
}

/// The same of a part of a chain.
proof fn lemma_sound_chain(src: Seq<u8>, t: Shape, op: TokenKind)
    requires
        chain_kind(op),
        forall|i: int| 0 <= i < flat(t, op).len() ==> spelled(lex(src), #[trigger] flat(t, op)[i]),
    ensures
        sound(t),
    decreases t, 3int,
{
    let all = flat(t, op);
    if is_bin(t, op) {
        if let ShapeKind::Binary { op: o, left, right } = t.kind {
            let (l, r) = (flat(*left, op), flat(*right, op));
            assert(all == l + r);
            assert forall|i: int| 0 <= i < l.len() implies spelled(lex(src), #[trigger] l[i]) by {
                assert(all[i] == l[i]);
            }
            assert forall|i: int| 0 <= i < r.len() implies spelled(lex(src), #[trigger] r[i]) by {
                assert(all[l.len() + i] == r[i]);
            }
            lemma_sound_chain(src, *left, op);
            lemma_sound_chain(src, *right, op);
        }
    } else {
        lemma_flat_nonempty(t, op);
        assert(all[0] == norm(t));
        assert(spelled(lex(src), all[0]));
        lemma_sound(src, t);
    }
}

// ---- Back again --------------------------------------------------------

/// A tree that is `t` with parentheses around every operator is written as `t`
/// is.
proof fn lemma_same_text(w: Shape, t: Shape)
    requires
        reads(norm(w), t),
    ensures
        unparsed(w) == unparsed(t),
    decreases t, 0int,
{
    match t.kind {
        ShapeKind::Paren { inner } => lemma_same_text(w, *inner),
        ShapeKind::Atom(s) => {},
        _ => {
            if let ShapeKind::Paren { inner: v } = w.kind {
                assert(reads_inside(norm(*v), t));
                assert(unparsed(w) == unparsed(*v));
                lemma_norm_call(*v);
                match t.kind {
                    ShapeKind::Prefix { op, child } => {
                        lemma_same_text(*v.kind->Prefix_child, *child);
                    },
                    ShapeKind::Binary { op, left, right } => {
                        lemma_two(*v, op);
                        lemma_same_text(*v.kind->Binary_left, *left);
                        lemma_same_text(*v.kind->Binary_right, *right);
                    },
                    ShapeKind::Ternary { cond, then, else_ } => {
                        lemma_same_text(*v.kind->Ternary_cond, *cond);
                        lemma_same_text(*v.kind->Ternary_then, *then);
                        lemma_same_text(*v.kind->Ternary_else_, *else_);
                    },
                    ShapeKind::Call { callee, args } => {
                        let us = v.kind->Call_args;
                        lemma_same_text(*v.kind->Call_callee, *callee);
                        assert forall|i: int| 0 <= i < args.len() implies reads(
                            norm(us[i]),
                            #[trigger] args[i],
                        ) by {
                            assert(norms(us)[i] == norm(us[i]));
                        }
                        lemma_same_list(us, args, args.len() as int);
                    },
                    ShapeKind::Index { array, index } => {
                        lemma_same_text(*v.kind->Index_array, *array);
                        lemma_same_text(*v.kind->Index_index, *index);
                    },
                    ShapeKind::Member { object, field } => {
                        lemma_same_text(*v.kind->Member_object, *object);
                    },
                    _ => {},
                }
            }
        },
    }
}

proof fn lemma_same_list(us: Seq<Shape>, ts: Seq<Shape>, k: int)
    requires
        us.len() == ts.len(),
        0 <= k <= ts.len(),
        forall|i: int| 0 <= i < ts.len() ==> reads(norm(us[i]), #[trigger] ts[i]),
    ensures
        unparsed_upto(us, k) == unparsed_upto(ts, k),
    decreases ts, k,
{
    if k > 0 {
        assert(reads(norm(us[k - 1]), ts[k - 1]));
        lemma_same_text(us[k - 1], ts[k - 1]);
        lemma_same_list(us, ts, k - 1);
    }
}

/// A chain of two operands is one node.
proof fn lemma_two(v: Shape, op: TokenKind)
    ensures
        norm(v).kind matches FormKind::Chain { op: o, operands } ==> o == op && operands.len() == 2
            ==> (v.kind matches ShapeKind::Binary { op: q, left, right } && q == op && operands[0]
            == norm(*left) && operands[1] == norm(*right)),
{
    if let ShapeKind::Binary { op: q, left, right } = v.kind {
        let (l, r) = (flat(*left, op), flat(*right, op));
        lemma_flat_nonempty(*left, op);
        lemma_flat_nonempty(*right, op);
        if is_bin(*left, op) {
            lemma_flat_nonempty(*left.kind->Binary_left, op);
            lemma_flat_nonempty(*left.kind->Binary_right, op);
        }
        if is_bin(*right, op) {
            lemma_flat_nonempty(*right.kind->Binary_left, op);
            lemma_flat_nonempty(*right.kind->Binary_right, op);
        }
        if l.len() == 1 && r.len() == 1 {
            assert((l + r)[0] == l[0]);
            assert((l + r)[1] == r[0]);
        }
    }
}

/// The text of a sound tree parses, to the tree in full parentheses.
proof fn lemma_reads_back(t: Shape)
    requires
        sound(t),
    ensures
        parse_stream(lex(encode_utf8(unparsed(t)))) matches Ok(f) && reads(f, t),
{
    let ps = pieces(t, false);
    let s = encode_utf8(unparsed(t));
    lemma_text(t, false);
    assert(text(ps) =~= s);
    lemma_apart(t, false);
    law_pieces_lex(ps);
    let c = lex(s);
    assert(holds(c, 0, ps)) by {
        assert forall|i: int| 0 <= i < ps.len() implies c[0 + i].kind == (#[trigger] ps[i]).kind
            && c[0 + i].text == decode_utf8(ps[i].word) by {
            assert(c[i].kind == ps[i].kind);
        }
    }
    let n = ps.len() as int;
    assert(c[n].kind == TokenKind::Eof) by {
        lemma_lex_from(s, 0);
    }
    lemma_operand(c, 0, t, false, 0);
}

/// The text of a tree in full parentheses parses, and what it parses to is
/// written the same way.
pub proof fn law_unparse_parses_back(tree: &Node, src: Seq<u8>, again: &Node)
    requires
        src.len() <= u32::MAX,
        parsed(*tree, src),
    ensures
        parse_stream(lex(encode_utf8(unparsed(tree@)))) is Ok,
        parsed(*again, encode_utf8(unparsed(tree@))) ==> unparsed(again@) == unparsed(tree@),
{
    law_tree_spells_source(tree, src);
    assert(spelled(lex(src), norm(tree@)));
    lemma_sound(src, tree@);
    lemma_reads_back(tree@);
    if parsed(*again, encode_utf8(unparsed(tree@))) {
        lemma_same_text(again@, tree@);
    }
}

} // verus!
