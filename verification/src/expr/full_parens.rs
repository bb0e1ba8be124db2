//! A tree written in full parentheses parses back to the same structure.

use vstd::prelude::*;
use vstd::utf8::*;

use crate::expr::ast::{Shape, ShapeKind};
use crate::expr::grammar::{
    lb, list_at, loop_at, min_of, no_spine, nud_at, parse_at, seal, stamp, step_at, Form, FormKind,
    Out, OutSeq,
};
use crate::expr::lexer::{tok_at, Tok, TokenKind};
use crate::expr::op::{chain_kind, prefix_rbp_of, rbp_of};
use crate::expr::respell::Piece;
use crate::expr::spelling::infix_kind;
use crate::expr::unparse::token_chars;

verus! {

/// A token whose text is that of its kind.
pub open spec fn sym(k: TokenKind, gap: bool) -> Piece {
    Piece { kind: k, word: encode_utf8(token_chars(k)), gap }
}

/// An atom or a field.
pub open spec fn name(s: Seq<char>, gap: bool) -> Piece {
    let kind = match tok_at(encode_utf8(s), 0) {
        Some((k, _)) => k,
        None => TokenKind::Eof,
    };
    Piece { kind, word: encode_utf8(s), gap }
}

/// `s` is one token of kind `k`.
pub open spec fn word_of(s: Seq<char>, k: TokenKind) -> bool {
    let w = encode_utf8(s);
    w.len() > 0 && tok_at(w, 0) == Some((k, w.len() as int))
}

/// The tokens of a tree written in full parentheses, with a space before the
/// first one if `gap`.
pub open spec fn pieces(t: Shape, gap: bool) -> Seq<Piece>
    decreases t, 0int,
{
    let open = seq![sym(TokenKind::LParen, gap)];
    let close = seq![sym(TokenKind::RParen, false)];
    match t.kind {
        ShapeKind::Atom(s) => seq![name(s, gap)],
        ShapeKind::Prefix { op, child } => open + seq![sym(op, false)] + pieces(*child, false)
            + close,
        ShapeKind::Binary { op, left, right } => open + pieces(*left, false) + seq![sym(op, true)]
            + pieces(*right, true) + close,
        ShapeKind::Ternary { cond, then, else_ } => open + pieces(*cond, false) + seq![
            sym(TokenKind::Question, true),
        ] + pieces(*then, true) + seq![sym(TokenKind::Colon, true)] + pieces(*else_, true) + close,
        ShapeKind::Paren { inner } => pieces(*inner, gap),
        ShapeKind::Call { callee, args } => open + pieces(*callee, false) + seq![
            sym(TokenKind::LParen, false),
        ] + list_pieces(args, args.len() as int) + close + close,
        ShapeKind::Index { array, index } => open + pieces(*array, false) + seq![
            sym(TokenKind::LBracket, false),
        ] + pieces(*index, false) + seq![sym(TokenKind::RBracket, false)] + close,
        ShapeKind::Member { object, field } => open + pieces(*object, false) + seq![
            sym(TokenKind::Dot, false),
        ] + seq![name(field, false)] + close,
        ShapeKind::Missing => Seq::empty(),
        ShapeKind::Error { skipped } => Seq::empty(),
    }
}

/// The first `k` trees of a list, a comma between each two.
pub open spec fn list_pieces(ts: Seq<Shape>, k: int) -> Seq<Piece>
    decreases ts, k,
{
    if 0 < k <= ts.len() {
        if k == 1 {
            pieces(ts[0], false)
        } else {
            list_pieces(ts, k - 1) + seq![sym(TokenKind::Comma, false)] + pieces(ts[k - 1], true)
        }
    } else {
        Seq::empty()
    }
}

/// Atoms and fields are tokens, operators are operators, and nothing is missing
/// or in error.
pub open spec fn sound(t: Shape) -> bool
    decreases t,
{
    match t.kind {
        ShapeKind::Atom(s) => word_of(s, TokenKind::Int) || word_of(s, TokenKind::Ident),
        ShapeKind::Prefix { op, child } => (op == TokenKind::Minus || op == TokenKind::Bang)
            && sound(*child),
        ShapeKind::Binary { op, left, right } => infix_kind(op) && sound(*left) && sound(*right),
        ShapeKind::Ternary { cond, then, else_ } => sound(*cond) && sound(*then) && sound(*else_),
        ShapeKind::Paren { inner } => sound(*inner),
        ShapeKind::Call { callee, args } => sound(*callee) && forall|i: int|
            0 <= i < args.len() ==> sound(#[trigger] args[i]),
        ShapeKind::Index { array, index } => sound(*array) && sound(*index),
        ShapeKind::Member { object, field } => sound(*object) && word_of(field, TokenKind::Ident),
        ShapeKind::Missing => false,
        ShapeKind::Error { skipped } => false,
    }
}

/// `f` is `t`, with a pair of parentheses around every operator.
pub open spec fn reads(f: Form, t: Shape) -> bool
    decreases t, 1int,
{
    match t.kind {
        ShapeKind::Atom(s) => f.kind == FormKind::Atom(s),
        ShapeKind::Paren { inner } => reads(f, *inner),
        ShapeKind::Missing => false,
        ShapeKind::Error { skipped } => false,
        _ => f.kind matches FormKind::Paren { inner } && reads_inside(*inner, t),
    }
}

/// `f` is what stands in those parentheses.
pub open spec fn reads_inside(f: Form, t: Shape) -> bool
    decreases t, 0int,
{
    match t.kind {
        ShapeKind::Prefix { op, child } => f.kind matches FormKind::Prefix { op: o, child: c } && o
            == op && reads(*c, *child),
        ShapeKind::Binary { op, left, right } => if chain_kind(op) {
            f.kind matches FormKind::Chain { op: o, operands } && o == op && operands.len() == 2
                && reads(operands[0], *left) && reads(operands[1], *right)
        } else {
            f.kind matches FormKind::Binary { op: o, left: l, right: r } && o == op && reads(
                *l,
                *left,
            ) && reads(*r, *right)
        },
        ShapeKind::Ternary { cond, then, else_ } => f.kind matches FormKind::Ternary {
            cond: c,
            then: h,
            else_: e,
        } && reads(*c, *cond) && reads(*h, *then) && reads(*e, *else_),
        ShapeKind::Call { callee, args } => f.kind matches FormKind::Call { callee: c, args: gs }
            && reads(*c, *callee) && gs.len() == args.len() && forall|i: int|
            0 <= i < args.len() ==> reads(gs[i], #[trigger] args[i]),
        ShapeKind::Index { array, index } => f.kind matches FormKind::Index { array: x, index: y }
            && reads(*x, *array) && reads(*y, *index),
        ShapeKind::Member { object, field } => f.kind matches FormKind::Member {
            object: o,
            field: s,
        } && reads(*o, *object) && s == field,
        _ => false,
    }
}

/// The bands of a form do not matter.
proof fn lemma_reads_kind(f: Form, g: Form, t: Shape)
    requires
        reads(f, t),
        f.kind == g.kind,
    ensures
        reads(g, t),
    decreases t,
{
    if let ShapeKind::Paren { inner } = t.kind {
        lemma_reads_kind(f, g, *inner);
    }
}

// ---- Parsing -----------------------------------------------------------

/// The tokens of `c` from number `p` on are the pieces, and more follow.
pub open spec fn holds(c: Seq<Tok>, p: int, ps: Seq<Piece>) -> bool {
    &&& 0 <= p
    &&& p + ps.len() < c.len()
    &&& forall|i: int|
        0 <= i < ps.len() ==> c[p + i].kind == (#[trigger] ps[i]).kind && c[p + i].text
            == decode_utf8(ps[i].word)
}

proof fn lemma_holds_parts(c: Seq<Tok>, p: int, ps: Seq<Piece>, qs: Seq<Piece>)
    requires
        holds(c, p, ps + qs),
    ensures
        holds(c, p, ps),
        holds(c, p + ps.len(), qs),
{
    assert forall|i: int| 0 <= i < ps.len() implies c[p + i].kind == (#[trigger] ps[i]).kind
        && c[p + i].text == decode_utf8(ps[i].word) by {
        assert((ps + qs)[i] == ps[i]);
    }
    assert forall|i: int| 0 <= i < qs.len() implies c[p + ps.len() + i].kind == (
    #[trigger] qs[i]).kind && c[p + ps.len() + i].text == decode_utf8(qs[i].word) by {
        assert((ps + qs)[ps.len() + i] == qs[i]);
        assert(p + (ps.len() + i) == p + ps.len() + i);
    }
}

proof fn lemma_holds_one(c: Seq<Tok>, p: int, x: Piece)
    requires
        holds(c, p, seq![x]),
    ensures
        c[p].kind == x.kind,
        c[p].text == decode_utf8(x.word),
{
    assert(seq![x][0] == x);
    assert(p + 0 == p);
}

/// An operand before a token that does not bind above `m`.
proof fn lemma_stops(c: Seq<Tok>, x: int, m: int, f: Form, y: int)
    requires
        0 <= x < y < c.len(),
        nud_at(c, x) == Out::Done(f, y),
        lb(c, y) <= m,
    ensures
        parse_at(c, x, m) == Out::Done(stamp(f, lb(c, y)), y),
{
    assert(seal(stamp(f, lb(c, y)), no_spine()) == stamp(f, lb(c, y)));
}

/// An operand and one operator after it.
proof fn lemma_steps(c: Seq<Tok>, x: int, f: Form, y: int, g: Form, z: int)
    requires
        0 <= x < y < z < c.len(),
        nud_at(c, x) == Out::Done(f, y),
        0 < lb(c, y) <= 90,
        step_at(c, x, stamp(f, lb(c, y)), lb(c, y), y) == Out::Done(g, z),
        lb(c, z) == 0,
    ensures
        parse_at(c, x, 0) matches Out::Done(h, q) && q == z && h.kind == g.kind,
{
    let left = stamp(f, lb(c, y));
    let s = lb(c, y);
    assert(min_of(no_spine(), s) == s);
    assert(loop_at(c, x, 0, stamp(g, 0), s, z) == Out::Done(seal(stamp(g, 0), s), z));
    assert(loop_at(c, x, 0, left, no_spine(), y) == loop_at(c, x, 0, stamp(g, 0), s, z));
}

/// What stands in parentheses.
proof fn lemma_group(c: Seq<Tok>, p: int, f: Form, q: int, t: Shape)
    requires
        0 <= p < q < c.len(),
        c[p].kind == TokenKind::LParen,
        parse_at(c, p + 1, 0) == Out::Done(f, q),
        c[q].kind == TokenKind::RParen,
        reads_inside(f, t),
        !(t.kind is Paren),
    ensures
        nud_at(c, p) matches Out::Done(g, r) && r == q + 1 && reads(g, t),
{
}

/// The operand that is written at token `x`, before a token that does not bind
/// above `m`.
pub proof fn lemma_operand(c: Seq<Tok>, x: int, t: Shape, gap: bool, m: int)
    requires
        sound(t),
        holds(c, x, pieces(t, gap)),
        lb(c, x + pieces(t, gap).len()) <= m,
    ensures
        parse_at(c, x, m) matches Out::Done(f, y) && y == x + pieces(t, gap).len() && x < y && reads(
            f,
            t,
        ),
    decreases t, 2int,
{
    lemma_read(c, x, t, gap);
    let f = nud_at(c, x)->Done_0;
    let y = x + pieces(t, gap).len();
    lemma_stops(c, x, m, f, y);
    lemma_reads_kind(f, stamp(f, lb(c, y)), t);
}

/// What is written at token `p` is an operand there.
proof fn lemma_read(c: Seq<Tok>, p: int, t: Shape, gap: bool)
    requires
        sound(t),
        holds(c, p, pieces(t, gap)),
    ensures
        nud_at(c, p) matches Out::Done(f, q) && q == p + pieces(t, gap).len() && p < q && reads(f, t),
    decreases t, 1int,
{
    match t.kind {
        ShapeKind::Atom(s) => {
            lemma_holds_one(c, p, name(s, gap));
            encode_utf8_decode_utf8(s);
        },
        ShapeKind::Prefix { op, child } => lemma_read_prefix(c, p, t, gap),
        ShapeKind::Binary { op, left, right } => lemma_read_infix(c, p, t, gap),
        ShapeKind::Ternary { cond, then, else_ } => lemma_read_ternary(c, p, t, gap),
        ShapeKind::Paren { inner } => lemma_read(c, p, *inner, gap),
        ShapeKind::Call { callee, args } => lemma_read_call(c, p, t, gap),
        ShapeKind::Index { array, index } => lemma_read_place(c, p, t, gap),
        ShapeKind::Member { object, field } => lemma_read_member(c, p, t, gap),
        ShapeKind::Missing => {},
        ShapeKind::Error { skipped } => {},
    }
}

proof fn lemma_read_prefix(c: Seq<Tok>, p: int, t: Shape, gap: bool)
    requires
        t.kind is Prefix,
        sound(t),
        holds(c, p, pieces(t, gap)),
    ensures
        nud_at(c, p) matches Out::Done(f, q) && q == p + pieces(t, gap).len() && p < q && reads(f, t),
    decreases t, 0int,
{
    let open = seq![sym(TokenKind::LParen, gap)];
    let close = seq![sym(TokenKind::RParen, false)];
    if let ShapeKind::Prefix { op, child } = t.kind {
        let b = pieces(*child, false);
        lemma_holds_parts(c, p, open + seq![sym(op, false)] + b, close);
        lemma_holds_parts(c, p, open + seq![sym(op, false)], b);
        lemma_holds_parts(c, p, open, seq![sym(op, false)]);
        lemma_holds_one(c, p, sym(TokenKind::LParen, gap));
        lemma_holds_one(c, p + 1, sym(op, false));
        let z = p + 2 + b.len();
        lemma_holds_one(c, z, sym(TokenKind::RParen, false));
        lemma_operand(c, p + 2, *child, false, prefix_rbp_of(op) as int);
        let f = nud_at(c, p + 1)->Done_0;
        assert(nud_at(c, p + 1) == Out::Done(f, z));
        lemma_stops(c, p + 1, 0, f, z);
        lemma_group(c, p, stamp(f, 0), z, t);
    }
}

proof fn lemma_read_infix(c: Seq<Tok>, p: int, t: Shape, gap: bool)
    requires
        t.kind is Binary,
        sound(t),
        holds(c, p, pieces(t, gap)),
    ensures
        nud_at(c, p) matches Out::Done(f, q) && q == p + pieces(t, gap).len() && p < q && reads(f, t),
    decreases t, 0int,
{
    let open = seq![sym(TokenKind::LParen, gap)];
    let close = seq![sym(TokenKind::RParen, false)];
    if let ShapeKind::Binary { op, left, right } = t.kind {
        let (a, b) = (pieces(*left, false), pieces(*right, true));
        let o = seq![sym(op, true)];
        lemma_holds_parts(c, p, open + a + o + b, close);
        lemma_holds_parts(c, p, open + a + o, b);
        lemma_holds_parts(c, p, open + a, o);
        lemma_holds_parts(c, p, open, a);
        lemma_holds_one(c, p, sym(TokenKind::LParen, gap));
        let y = p + 1 + a.len();
        let z = y + 1 + b.len();
        lemma_holds_one(c, y, sym(op, true));
        lemma_holds_one(c, z, sym(TokenKind::RParen, false));
        lemma_read(c, p + 1, *left, false);
        lemma_operand(c, y + 1, *right, true, rbp_of(op) as int);
        lemma_read_binary(c, p, y, z, t);
    }
}

proof fn lemma_read_place(c: Seq<Tok>, p: int, t: Shape, gap: bool)
    requires
        t.kind is Index,
        sound(t),
        holds(c, p, pieces(t, gap)),
    ensures
        nud_at(c, p) matches Out::Done(f, q) && q == p + pieces(t, gap).len() && p < q && reads(f, t),
    decreases t, 0int,
{
    let open = seq![sym(TokenKind::LParen, gap)];
    let close = seq![sym(TokenKind::RParen, false)];
    if let ShapeKind::Index { array, index } = t.kind {
        let (a, b) = (pieces(*array, false), pieces(*index, false));
        let o = seq![sym(TokenKind::LBracket, false)];
        let e = seq![sym(TokenKind::RBracket, false)];
        lemma_holds_parts(c, p, open + a + o + b + e, close);
        lemma_holds_parts(c, p, open + a + o + b, e);
        lemma_holds_parts(c, p, open + a + o, b);
        lemma_holds_parts(c, p, open + a, o);
        lemma_holds_parts(c, p, open, a);
        lemma_holds_one(c, p, sym(TokenKind::LParen, gap));
        let y = p + 1 + a.len();
        let z = y + 1 + b.len();
        lemma_holds_one(c, y, sym(TokenKind::LBracket, false));
        lemma_holds_one(c, z, sym(TokenKind::RBracket, false));
        lemma_holds_one(c, z + 1, sym(TokenKind::RParen, false));
        lemma_read(c, p + 1, *array, false);
        lemma_operand(c, y + 1, *index, false, 0);
        lemma_read_index(c, p, y, z, t);
    }
}

proof fn lemma_read_member(c: Seq<Tok>, p: int, t: Shape, gap: bool)
    requires
        t.kind is Member,
        sound(t),
        holds(c, p, pieces(t, gap)),
    ensures
        nud_at(c, p) matches Out::Done(f, q) && q == p + pieces(t, gap).len() && p < q && reads(f, t),
    decreases t, 0int,
{
    let open = seq![sym(TokenKind::LParen, gap)];
    let close = seq![sym(TokenKind::RParen, false)];
    if let ShapeKind::Member { object, field } = t.kind {
        let a = pieces(*object, false);
        let o = seq![sym(TokenKind::Dot, false)];
        let e = seq![name(field, false)];
        lemma_holds_parts(c, p, open + a + o + e, close);
        lemma_holds_parts(c, p, open + a + o, e);
        lemma_holds_parts(c, p, open + a, o);
        lemma_holds_parts(c, p, open, a);
        lemma_holds_one(c, p, sym(TokenKind::LParen, gap));
        let y = p + 1 + a.len();
        lemma_holds_one(c, y, sym(TokenKind::Dot, false));
        lemma_holds_one(c, y + 1, name(field, false));
        lemma_holds_one(c, y + 2, sym(TokenKind::RParen, false));
        encode_utf8_decode_utf8(field);
        lemma_read(c, p + 1, *object, false);
        let f = nud_at(c, p + 1)->Done_0;
        let left = stamp(f, lb(c, y));
        lemma_reads_kind(f, left, *object);
        let g = step_at(c, p + 1, left, lb(c, y), y)->Done_0;
        assert(step_at(c, p + 1, left, lb(c, y), y) == Out::Done(g, y + 2));
        lemma_steps(c, p + 1, f, y, g, y + 2);
        let h = parse_at(c, p + 1, 0)->Done_0;
        lemma_group(c, p, h, y + 2, t);
    }
}

proof fn lemma_read_binary(c: Seq<Tok>, p: int, y: int, z: int, t: Shape)
    requires
        t.kind matches ShapeKind::Binary { op, left, right } && {
            &&& infix_kind(op)
            &&& c[y].kind == op
            &&& nud_at(c, p + 1) matches Out::Done(f, q) && q == y && reads(f, *left)
            &&& parse_at(c, y + 1, rbp_of(op) as int) matches Out::Done(g, q) && q == z && reads(
                g,
                *right,
            )
        },
        0 <= p < p + 1 < y < y + 1 < z < c.len(),
        c[p].kind == TokenKind::LParen,
        c[z].kind == TokenKind::RParen,
    ensures
        nud_at(c, p) matches Out::Done(g, r) && r == z + 1 && reads(g, t),
{
    if let ShapeKind::Binary { op, left, right } = t.kind {
        let f = nud_at(c, p + 1)->Done_0;
        let l = stamp(f, lb(c, y));
        lemma_reads_kind(f, l, *left);
        let r = parse_at(c, y + 1, rbp_of(op) as int)->Done_0;
        if chain_kind(op) {
            let acc = seq![l];
            assert(list_at(c, y + 1, op, rbp_of(op) as int, acc) == OutSeq::Done(acc.push(r), z));
        }
        let g = step_at(c, p + 1, l, lb(c, y), y)->Done_0;
        assert(step_at(c, p + 1, l, lb(c, y), y) == Out::Done(g, z));
        assert(reads_inside(g, t));
        lemma_steps(c, p + 1, f, y, g, z);
        let h = parse_at(c, p + 1, 0)->Done_0;
        assert(reads_inside(h, t));
        lemma_group(c, p, h, z, t);
    }
}

proof fn lemma_read_index(c: Seq<Tok>, p: int, y: int, z: int, t: Shape)
    requires
        t.kind matches ShapeKind::Index { array, index } && {
            &&& nud_at(c, p + 1) matches Out::Done(f, q) && q == y && reads(f, *array)
            &&& parse_at(c, y + 1, 0) matches Out::Done(g, q) && q == z && reads(g, *index)
        },
        0 <= p < p + 1 < y < y + 1 < z < z + 1 < c.len(),
        c[p].kind == TokenKind::LParen,
        c[y].kind == TokenKind::LBracket,
        c[z].kind == TokenKind::RBracket,
        c[z + 1].kind == TokenKind::RParen,
    ensures
        nud_at(c, p) matches Out::Done(g, r) && r == z + 2 && reads(g, t),
{
    if let ShapeKind::Index { array, index } = t.kind {
        let f = nud_at(c, p + 1)->Done_0;
        let l = stamp(f, lb(c, y));
        lemma_reads_kind(f, l, *array);
        let g = step_at(c, p + 1, l, lb(c, y), y)->Done_0;
        assert(step_at(c, p + 1, l, lb(c, y), y) == Out::Done(g, z + 1));
        assert(reads_inside(g, t));
        lemma_steps(c, p + 1, f, y, g, z + 1);
        let h = parse_at(c, p + 1, 0)->Done_0;
        assert(reads_inside(h, t));
        lemma_group(c, p, h, z + 1, t);
    }
}

proof fn lemma_read_ternary(c: Seq<Tok>, p: int, t: Shape, gap: bool)
    requires
        t.kind is Ternary,
        sound(t),
        holds(c, p, pieces(t, gap)),
    ensures
        nud_at(c, p) matches Out::Done(f, q) && q == p + pieces(t, gap).len() && p < q && reads(f, t),
    decreases t, 0int,
{
    let open = seq![sym(TokenKind::LParen, gap)];
    let close = seq![sym(TokenKind::RParen, false)];
    if let ShapeKind::Ternary { cond, then, else_ } = t.kind {
        let (a, b, d) = (pieces(*cond, false), pieces(*then, true), pieces(*else_, true));
        let (o, e) = (seq![sym(TokenKind::Question, true)], seq![sym(TokenKind::Colon, true)]);
        lemma_holds_parts(c, p, open + a + o + b + e + d, close);
        lemma_holds_parts(c, p, open + a + o + b + e, d);
        lemma_holds_parts(c, p, open + a + o + b, e);
        lemma_holds_parts(c, p, open + a + o, b);
        lemma_holds_parts(c, p, open + a, o);
        lemma_holds_parts(c, p, open, a);
        lemma_holds_one(c, p, sym(TokenKind::LParen, gap));
        let y = p + 1 + a.len();
        let x = y + 1 + b.len();
        let z = x + 1 + d.len();
        lemma_holds_one(c, y, sym(TokenKind::Question, true));
        lemma_holds_one(c, x, sym(TokenKind::Colon, true));
        lemma_holds_one(c, z, sym(TokenKind::RParen, false));
        lemma_read(c, p + 1, *cond, false);
        lemma_operand(c, y + 1, *then, true, 0);
        lemma_operand(c, x + 1, *else_, true, rbp_of(TokenKind::Question) as int);
        let f = nud_at(c, p + 1)->Done_0;
        let l = stamp(f, lb(c, y));
        lemma_reads_kind(f, l, *cond);
        let g = step_at(c, p + 1, l, lb(c, y), y)->Done_0;
        assert(step_at(c, p + 1, l, lb(c, y), y) == Out::Done(g, z));
        assert(reads_inside(g, t));
        lemma_steps(c, p + 1, f, y, g, z);
        let h = parse_at(c, p + 1, 0)->Done_0;
        assert(reads_inside(h, t));
        lemma_group(c, p, h, z, t);
    }
}

/// `gs` are the first `k` trees of the list.
pub open spec fn reads_list(gs: Seq<Form>, ts: Seq<Shape>, k: int) -> bool {
    &&& gs.len() == k
    &&& forall|i: int| 0 <= i < k ==> reads(#[trigger] gs[i], ts[i])
}

/// Arguments from number `k` on.
proof fn lemma_read_list(c: Seq<Tok>, p: int, ts: Seq<Shape>, k: int, acc: Seq<Form>)
    requires
        0 <= k < ts.len(),
        forall|i: int| 0 <= i < ts.len() ==> sound(#[trigger] ts[i]),
        holds(c, p, list_pieces(ts, ts.len() as int)),
        c[p + list_pieces(ts, ts.len() as int).len()].kind == TokenKind::RParen,
        reads_list(acc, ts, k),
    ensures
        list_at(
            c,
            p + list_pieces(ts, k).len() + if k == 0 {
                0int
            } else {
                1int
            },
            TokenKind::Comma,
            0,
            acc,
        ) matches OutSeq::Done(gs, r) && r == p + list_pieces(ts, ts.len() as int).len()
            && reads_list(gs, ts, ts.len() as int),
    decreases ts, ts.len() - k,
{
    let n = ts.len() as int;
    lemma_list_prefix(c, p, ts, k + 1, n);
    let x = p + list_pieces(ts, k).len() + if k == 0 {
        0int
    } else {
        1int
    };
    let comma = seq![sym(TokenKind::Comma, false)];
    let b = pieces(ts[k], k > 0);
    if k == 0 {
        assert(list_pieces(ts, 1) == b);
        assert(list_pieces(ts, 0).len() == 0);
    } else {
        lemma_holds_parts(c, p, list_pieces(ts, k) + comma, b);
    }
    let y = p + list_pieces(ts, k + 1).len();
    assert(y == x + b.len());
    assert(holds(c, x, b));
    if k + 1 < n {
        lemma_list_prefix(c, p, ts, k + 2, n);
        lemma_holds_parts(c, p, list_pieces(ts, k + 1) + comma, pieces(ts[k + 1], true));
        lemma_holds_parts(c, p, list_pieces(ts, k + 1), comma);
        lemma_holds_one(c, y, sym(TokenKind::Comma, false));
    }
    assert(sound(ts[k]));
    lemma_operand(c, x, ts[k], k > 0, 0);
    let f = parse_at(c, x, 0)->Done_0;
    let next = acc.push(f);
    assert(reads_list(next, ts, k + 1)) by {
        assert forall|i: int| 0 <= i < k + 1 implies reads(#[trigger] next[i], ts[i]) by {
            if i < k {
                assert(next[i] == acc[i]);
            }
        }
    }
    if k + 1 < n {
        lemma_read_list(c, p, ts, k + 1, next);
    }
}

proof fn lemma_list_prefix(c: Seq<Tok>, p: int, ts: Seq<Shape>, k: int, n: int)
    requires
        0 < k <= n <= ts.len(),
        holds(c, p, list_pieces(ts, n)),
    ensures
        holds(c, p, list_pieces(ts, k)),
    decreases n - k,
{
    if k < n {
        let comma = seq![sym(TokenKind::Comma, false)];
        lemma_holds_parts(c, p, list_pieces(ts, n - 1) + comma, pieces(ts[n - 1], true));
        lemma_holds_parts(c, p, list_pieces(ts, n - 1), comma);
        lemma_list_prefix(c, p, ts, k, n - 1);
    }
}

/// What is written starts an operand.
proof fn lemma_starts(c: Seq<Tok>, p: int, t: Shape, gap: bool)
    requires
        sound(t),
        holds(c, p, pieces(t, gap)),
    ensures
        c[p].kind != TokenKind::RParen,
    decreases t, 2int,
{
    lemma_read(c, p, t, gap);
}

proof fn lemma_read_call(c: Seq<Tok>, p: int, t: Shape, gap: bool)
    requires
        t.kind is Call,
        sound(t),
        holds(c, p, pieces(t, gap)),
    ensures
        nud_at(c, p) matches Out::Done(f, q) && q == p + pieces(t, gap).len() && p < q && reads(f, t),
    decreases t, 0int,
{
    let open = seq![sym(TokenKind::LParen, gap)];
    let close = seq![sym(TokenKind::RParen, false)];
    if let ShapeKind::Call { callee, args } = t.kind {
        let n = args.len() as int;
        let (a, b) = (pieces(*callee, false), list_pieces(args, n));
        let o = seq![sym(TokenKind::LParen, false)];
        lemma_holds_parts(c, p, open + a + o + b + close, close);
        lemma_holds_parts(c, p, open + a + o + b, close);
        lemma_holds_parts(c, p, open + a + o, b);
        lemma_holds_parts(c, p, open + a, o);
        lemma_holds_parts(c, p, open, a);
        lemma_holds_one(c, p, sym(TokenKind::LParen, gap));
        let y = p + 1 + a.len();
        let z = y + 1 + b.len();
        lemma_holds_one(c, y, sym(TokenKind::LParen, false));
        lemma_holds_one(c, z, sym(TokenKind::RParen, false));
        lemma_holds_one(c, z + 1, sym(TokenKind::RParen, false));
        lemma_read(c, p + 1, *callee, false);
        let f = nud_at(c, p + 1)->Done_0;
        let l = stamp(f, lb(c, y));
        lemma_reads_kind(f, l, *callee);
        let none = Seq::<Form>::empty();
        if n > 0 {
            lemma_read_list(c, y + 1, args, 0, none);
            lemma_list_prefix(c, y + 1, args, 1, n);
            assert(sound(args[0]));
            lemma_starts(c, y + 1, args[0], false);
        }
        let g = step_at(c, p + 1, l, lb(c, y), y)->Done_0;
        assert(step_at(c, p + 1, l, lb(c, y), y) == Out::Done(g, z + 1));
        assert(reads_inside(g, t)) by {
            let gs = g.kind->Call_args;
            assert forall|i: int| 0 <= i < args.len() implies reads(gs[i], #[trigger] args[i]) by {
                assert(reads(gs[i], args[i]));
            }
        }
        lemma_steps(c, p + 1, f, y, g, z + 1);
        let h = parse_at(c, p + 1, 0)->Done_0;
        assert(reads_inside(h, t));
        lemma_group(c, p, h, z + 1, t);
    }
}

} // verus!
