//! A tree spells the tokens it was parsed from.

use vstd::prelude::*;

use crate::expr::ast::Node;
use crate::expr::grammar::{
    at, chain_form, lb, list_at, listed, loop_at, lt, min_of, no_spine, nt, nud_at, parse_at, stamp,
    state_ok, step_at, toks_ok, Form, FormKind, Out, OutSeq,
};
use crate::expr::lexer::{lemma_lex_from, lex, Tok, TokenKind};
use crate::expr::op::{lbp_of, postfix_kind, prefix_rbp_of, rbp_of};
use crate::expr::parser::parsed;
use crate::expr::placement::{lemma_list, lemma_listed_push, lemma_nud, lemma_parse, lemma_step};
use crate::expr::pratt_core::lemma_lex_toks;
use crate::expr::shape::{fits, norm};

verus! {

/// An operator between two operands.
pub open spec fn infix_kind(k: TokenKind) -> bool {
    lbp_of(k) > 0 && !postfix_kind(k) && k != TokenKind::Question
}

/// The tokens of `a` from number `p` on are those of `f`: its atoms and fields
/// with their texts, its operators, each of which is one, and its brackets, in
/// order. Nothing of `f` is missing or in error.
pub open spec fn spells(a: Seq<Tok>, p: int, f: Form) -> bool
    decreases f,
{
    match f.kind {
        FormKind::Atom(s) => {
            &&& 0 <= p < a.len() - 1
            &&& a[p].kind == TokenKind::Int || a[p].kind == TokenKind::Ident
            &&& a[p].text == s
        },
        FormKind::Prefix { op, child } => {
            &&& op == TokenKind::Minus || op == TokenKind::Bang
            &&& a[p].kind == op
            &&& spells(a, p + 1, *child)
        },
        FormKind::Binary { op, left, right } => {
            &&& infix_kind(op)
            &&& spells(a, p, *left)
            &&& a[p + nt(*left)].kind == op
            &&& spells(a, p + nt(*left) + 1, *right)
        },
        FormKind::Chain { op, operands } => {
            &&& infix_kind(op)
            &&& forall|i: int|
                0 <= i < operands.len() ==> spells(a, #[trigger] at(p, operands, i), operands[i])
            &&& forall|i: int|
                0 < i < operands.len() ==> a[#[trigger] at(p, operands, i) - 1].kind == op
        },
        FormKind::Ternary { cond, then, else_ } => {
            let q = p + nt(*cond);
            let r = q + nt(*then) + 1;
            &&& spells(a, p, *cond)
            &&& a[q].kind == TokenKind::Question
            &&& spells(a, q + 1, *then)
            &&& a[r].kind == TokenKind::Colon
            &&& spells(a, r + 1, *else_)
        },
        FormKind::Paren { inner } => {
            &&& a[p].kind == TokenKind::LParen
            &&& spells(a, p + 1, *inner)
            &&& a[p + 1 + nt(*inner)].kind == TokenKind::RParen
        },
        FormKind::Call { callee, args } => {
            let q = p + nt(*callee);
            &&& spells(a, p, *callee)
            &&& a[q].kind == TokenKind::LParen
            &&& forall|i: int|
                0 <= i < args.len() ==> spells(a, #[trigger] at(q + 1, args, i), args[i])
            &&& forall|i: int|
                0 < i < args.len() ==> a[#[trigger] at(q + 1, args, i) - 1].kind == TokenKind::Comma
            &&& a[p + nt(f) - 1].kind == TokenKind::RParen
        },
        FormKind::Index { array, index } => {
            let q = p + nt(*array);
            &&& spells(a, p, *array)
            &&& a[q].kind == TokenKind::LBracket
            &&& spells(a, q + 1, *index)
            &&& a[q + 1 + nt(*index)].kind == TokenKind::RBracket
        },
        FormKind::Member { object, field } => {
            let q = p + nt(*object);
            &&& spells(a, p, *object)
            &&& 0 <= q + 1 < a.len() - 1
            &&& a[q].kind == TokenKind::Dot
            &&& a[q + 1].kind == TokenKind::Ident
            &&& a[q + 1].text == field
        },
        FormKind::Missing => false,
        FormKind::Error { skipped } => false,
    }
}

/// The forms of a list, with separators between them.
pub open spec fn spells_list(a: Seq<Tok>, p: int, sep: TokenKind, fs: Seq<Form>) -> bool {
    &&& forall|i: int| 0 <= i < fs.len() ==> spells(a, #[trigger] at(p, fs, i), fs[i])
    &&& forall|i: int| 0 < i < fs.len() ==> a[#[trigger] at(p, fs, i) - 1].kind == sep
}

proof fn lemma_spell_parse(a: Seq<Tok>, p: int, m: int)
    requires
        toks_ok(a),
        0 <= m < no_spine(),
    ensures
        parse_at(a, p, m) matches Out::Done(f, q) ==> spells(a, p, f),
    decreases a.len() - p, 3int,
{
    if 0 <= p < a.len() {
        lemma_nud(a, p);
        lemma_spell_nud(a, p);
        if let Out::Done(left, q) = nud_at(a, p) {
            if p < q < a.len() {
                lemma_spell_loop(a, p, m, stamp(left, lb(a, q)), no_spine(), q);
            }
        }
    }
}

proof fn lemma_spell_nud(a: Seq<Tok>, p: int)
    requires
        toks_ok(a),
    ensures
        nud_at(a, p) matches Out::Done(f, q) ==> spells(a, p, f),
    decreases a.len() - p, 2int,
{
    if 0 <= p < a.len() {
        lemma_parse(a, p + 1, 0);
        lemma_spell_parse(a, p + 1, 0);
        lemma_spell_parse(a, p + 1, prefix_rbp_of(a[p].kind) as int);
    }
}

proof fn lemma_spell_loop(a: Seq<Tok>, p: int, m: int, left: Form, spine: int, q: int)
    requires
        toks_ok(a),
        0 <= m < spine,
        state_ok(a, p, left, spine, q),
        spells(a, p, left),
    ensures
        loop_at(a, p, m, left, spine, q) matches Out::Done(f, r) ==> spells(a, p, f),
    decreases a.len() - q, 2int,
{
    if 0 <= q < a.len() && lb(a, q) > m {
        let s = min_of(spine, lb(a, q));
        lemma_step(a, p, left, spine, q);
        lemma_spell_step(a, p, left, spine, q);
        if let Out::Done(next, r) = step_at(a, p, left, s, q) {
            if q < r < a.len() {
                lemma_spell_loop(a, p, m, stamp(next, lb(a, r)), s, r);
            }
        }
    }
}

#[verifier::rlimit(50)]
proof fn lemma_spell_step(a: Seq<Tok>, p: int, left: Form, spine: int, q: int)
    requires
        toks_ok(a),
        state_ok(a, p, left, spine, q),
        lb(a, q) > 0,
        spells(a, p, left),
    ensures
        step_at(a, p, left, lb(a, q), q) matches Out::Done(f, r) ==> spells(a, p, f),
    decreases a.len() - q, 1int,
{
    let k = a[q].kind;
    assert(q == p + nt(left));
    if let Out::Done(f, z) = step_at(a, p, left, lb(a, q), q) {
        if k == TokenKind::LParen {
            if a[q + 1].kind != TokenKind::RParen {
                let none = Seq::<Form>::empty();
                lemma_list(a, q + 1, q + 1, TokenKind::Comma, 0, none);
                lemma_spell_list(a, q + 1, q + 1, TokenKind::Comma, 0, none);
                if let OutSeq::Done(args, r) = list_at(a, q + 1, TokenKind::Comma, 0, none) {
                    assert(nt(f) == nt(left) + 1 + lt(args, args.len() as int));
                    assert(spells_list(a, q + 1, TokenKind::Comma, args));
                }
            }
        } else if k == TokenKind::LBracket {
            lemma_parse(a, q + 1, 0);
            lemma_spell_parse(a, q + 1, 0);
        } else if k == TokenKind::Dot {
        } else if k == TokenKind::Question {
            lemma_parse(a, q + 1, 0);
            lemma_spell_parse(a, q + 1, 0);
            if let Out::Done(then, r) = parse_at(a, q + 1, 0) {
                lemma_spell_parse(a, r + 1, rbp_of(k) as int);
            }
        } else if crate::expr::op::chain_kind(k) {
            let acc = seq![left];
            assert(lt(acc, 0) == 0);
            assert(lt(acc, 1) == nt(left) + 1);
            assert(listed(a, p, acc));
            assert(spells_list(a, p, k, acc)) by {
                assert(at(p, acc, 0) == p);
            }
            lemma_spell_list(a, p, q + 1, k, rbp_of(k) as int, acc);
            if let OutSeq::Done(fs, r) = list_at(a, q + 1, k, rbp_of(k) as int, acc) {
                assert(f == chain_form(a, p, k, fs, r));
                assert(spells_list(a, p, k, fs));
            }
        } else {
            lemma_spell_parse(a, q + 1, rbp_of(k) as int);
        }
    }
}

proof fn lemma_spell_list(a: Seq<Tok>, p: int, q: int, sep: TokenKind, m: int, acc: Seq<Form>)
    requires
        toks_ok(a),
        0 <= m < no_spine(),
        0 <= p,
        q == p + lt(acc, acc.len() as int),
        listed(a, p, acc),
        spells_list(a, p, sep, acc),
        acc.len() > 0 ==> a[q - 1].kind == sep,
    ensures
        list_at(a, q, sep, m, acc) matches OutSeq::Done(fs, r) ==> spells_list(a, p, sep, fs),
    decreases a.len() - q, 4int,
{
    lemma_parse(a, q, m);
    lemma_spell_parse(a, q, m);
    if let Out::Done(f, r) = parse_at(a, q, m) {
        if 0 <= q < r < a.len() {
            let next = acc.push(f);
            let n = acc.len() as int;
            lemma_listed_push(a, p, acc, f, q, r);
            assert forall|i: int| 0 <= i < next.len() implies spells(
                a,
                #[trigger] at(p, next, i),
                next[i],
            ) && (0 < i ==> a[at(p, next, i) - 1].kind == sep) by {
                assert(at(p, next, i) == at(p, acc, i));
                if i < n {
                    assert(next[i] == acc[i]);
                }
            }
            if a[r].kind == sep {
                lemma_spell_list(a, p, r + 1, sep, m, next);
            }
        }
    }
}

/// The tokens read off a tree are those of the source, all of them; every node
/// is as wide as its tokens, from the first to the last.
pub proof fn law_tree_spells_source(tree: &Node, src: Seq<u8>)
    requires
        src.len() <= u32::MAX,
        parsed(*tree, src),
    ensures
        spells(lex(src), 0, norm(tree@)),
        nt(norm(tree@)) == lex(src).len() - 1,
        fits(lex(src), 0, tree@),
{
    let a = lex(src);
    lemma_lex_toks(src);
    lemma_lex_from(src, 0);
    lemma_parse(a, 0, 0);
    lemma_spell_parse(a, 0, 0);
    if let Out::Done(f, q) = parse_at(a, 0, 0) {
        assert(a[q].kind == TokenKind::Eof);
    }
}

} // verus!
