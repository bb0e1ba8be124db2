//! Trees obey precedence: what an operator takes binds tighter than it does.

use vstd::prelude::*;

use crate::expr::ast::Node;
use crate::expr::grammar::{
    chain_form, lb, list_at, loop_at, min_of, no_spine, nud_at, parse_at, stamp, state_ok, step_at,
    toks_ok, Form, FormKind, Out, OutSeq,
};
use crate::expr::lexer::{lex, Tok, TokenKind};
use crate::expr::op::{chain_kind, law_binding_powers, lbp_of, postfix_kind, prefix_rbp_of, rbp_of};
use crate::expr::parser::{parsed, ParseError};
use crate::expr::placement::{lemma_list, lemma_nud, lemma_parse, lemma_step};
use crate::expr::pratt_core::lemma_lex_toks;
use crate::expr::shape::norm;

verus! {

/// How tight the outermost operator of an expression binds: nothing is tighter than an
/// atom or a parenthesis.
pub open spec fn rank(f: Form) -> int {
    match f.kind {
        FormKind::Prefix { op, child } => prefix_rbp_of(op) as int,
        FormKind::Binary { op, left, right } => lbp_of(op) as int,
        FormKind::Chain { op, operands } => lbp_of(op) as int,
        FormKind::Ternary { cond, then, else_ } => lbp_of(TokenKind::Question) as int,
        FormKind::Call { callee, args } => lbp_of(TokenKind::LParen) as int,
        FormKind::Index { array, index } => lbp_of(TokenKind::LBracket) as int,
        FormKind::Member { object, field } => lbp_of(TokenKind::Dot) as int,
        _ => no_spine(),
    }
}

/// An expression that takes more than one operand.
pub open spec fn composed(f: Form) -> bool {
    f.kind is Binary || f.kind is Chain || f.kind is Ternary
}

/// What stands on the left of `op` can stand there: it binds tighter, or as tight if `op`
/// groups to the left.
pub open spec fn left_of(op: TokenKind, f: Form) -> bool {
    if op == TokenKind::Caret || op == TokenKind::Question {
        rank(f) > lbp_of(op)
    } else {
        rank(f) >= lbp_of(op)
    }
}

/// What stands on the right of `op` can stand there: it binds tighter, or as tight if `op`
/// groups to the right.
pub open spec fn right_of(op: TokenKind, f: Form) -> bool {
    if op == TokenKind::Caret || op == TokenKind::Question {
        rank(f) >= lbp_of(op)
    } else {
        rank(f) > lbp_of(op)
    }
}

/// Every operator of `f` has operands that can stand beside it. Between brackets, and
/// between `?` and `:`, all expressions can stand.
pub open spec fn obeys(f: Form) -> bool
    decreases f,
{
    match f.kind {
        FormKind::Atom(s) => true,
        FormKind::Prefix { op, child } => obeys(*child) && !composed(*child),
        FormKind::Binary { op, left, right } => {
            &&& obeys(*left)
            &&& obeys(*right)
            &&& left_of(op, *left)
            &&& right_of(op, *right)
        },
        FormKind::Chain { op, operands } => {
            &&& forall|i: int| 0 <= i < operands.len() ==> obeys(#[trigger] operands[i])
            &&& forall|i: int| 0 < i < operands.len() ==> right_of(op, #[trigger] operands[i])
            &&& operands.len() > 0 ==> left_of(op, operands[0])
        },
        FormKind::Ternary { cond, then, else_ } => {
            &&& obeys(*cond)
            &&& obeys(*then)
            &&& obeys(*else_)
            &&& left_of(TokenKind::Question, *cond)
            &&& right_of(TokenKind::Question, *else_)
        },
        FormKind::Paren { inner } => obeys(*inner),
        FormKind::Call { callee, args } => {
            &&& obeys(*callee)
            &&& !composed(*callee) && !(callee.kind is Prefix)
            &&& forall|i: int| 0 <= i < args.len() ==> obeys(#[trigger] args[i])
        },
        FormKind::Index { array, index } => {
            &&& obeys(*array)
            &&& !composed(*array) && !(array.kind is Prefix)
            &&& obeys(*index)
        },
        FormKind::Member { object, field } => {
            &&& obeys(*object)
            &&& !composed(*object) && !(object.kind is Prefix)
        },
        FormKind::Missing => false,
        FormKind::Error { skipped } => false,
    }
}

/// The tightest operator that can still follow `f`.
spec fn allowance(f: Form) -> int {
    match f.kind {
        FormKind::Prefix { op, child } => prefix_rbp_of(op) as int,
        FormKind::Binary { op, left, right } => rbp_of(op) as int,
        FormKind::Chain { op, operands } => rbp_of(op) as int,
        FormKind::Ternary { cond, then, else_ } => rbp_of(TokenKind::Question) as int,
        _ => rank(f),
    }
}

/// What a parse at `m` gives.
spec fn fine(f: Form, m: int) -> bool {
    obeys(f) && (rank(f) > m || f.kind is Prefix)
}

/// The operators there are.
spec fn known(f: Form) -> bool {
    match f.kind {
        FormKind::Prefix { op, child } => op == TokenKind::Minus || op == TokenKind::Bang,
        FormKind::Binary { op, left, right } => lbp_of(op) > 0 && !postfix_kind(op) && op
            != TokenKind::Question,
        FormKind::Chain { op, operands } => chain_kind(op),
        _ => true,
    }
}

proof fn lemma_obey_parse(a: Seq<Tok>, p: int, m: int)
    requires
        toks_ok(a),
        0 <= m < no_spine(),
    ensures
        parse_at(a, p, m) matches Out::Done(f, q) ==> fine(f, m) && known(f),
    decreases a.len() - p, 3int,
{
    if 0 <= p < a.len() {
        lemma_nud(a, p);
        lemma_obey_nud(a, p);
        if let Out::Done(left, q) = nud_at(a, p) {
            if p < q < a.len() {
                lemma_obey_loop(a, p, m, stamp(left, lb(a, q)), no_spine(), q);
            }
        }
    }
}

proof fn lemma_obey_nud(a: Seq<Tok>, p: int)
    requires
        toks_ok(a),
    ensures
        nud_at(a, p) matches Out::Done(f, q) ==> {
            &&& obeys(f)
            &&& known(f)
            &&& f.kind is Prefix || f.kind is Atom || f.kind is Paren
            &&& 0 <= q < a.len() ==> lb(a, q) <= allowance(f)
        },
    decreases a.len() - p, 2int,
{
    if 0 <= p < a.len() {
        let m = prefix_rbp_of(a[p].kind) as int;
        lemma_parse(a, p + 1, 0);
        lemma_obey_parse(a, p + 1, 0);
        lemma_parse(a, p + 1, m);
        lemma_obey_parse(a, p + 1, m);
    }
}

proof fn lemma_obey_loop(a: Seq<Tok>, p: int, m: int, left: Form, spine: int, q: int)
    requires
        toks_ok(a),
        0 <= m < spine,
        state_ok(a, p, left, spine, q),
        fine(left, m),
        known(left),
        lb(a, q) <= allowance(left),
    ensures
        loop_at(a, p, m, left, spine, q) matches Out::Done(f, r) ==> fine(f, m) && known(f),
    decreases a.len() - q, 2int,
{
    if 0 <= q < a.len() && lb(a, q) > m {
        let s = min_of(spine, lb(a, q));
        lemma_step(a, p, left, spine, q);
        lemma_obey_step(a, p, left, spine, q);
        if let Out::Done(next, r) = step_at(a, p, left, s, q) {
            if q < r < a.len() {
                lemma_obey_loop(a, p, m, stamp(next, lb(a, r)), s, r);
            }
        }
    }
}

#[verifier::rlimit(50)]
proof fn lemma_obey_step(a: Seq<Tok>, p: int, left: Form, spine: int, q: int)
    requires
        toks_ok(a),
        state_ok(a, p, left, spine, q),
        lb(a, q) > 0,
        obeys(left),
        known(left),
        lb(a, q) <= allowance(left),
    ensures
        step_at(a, p, left, lb(a, q), q) matches Out::Done(f, r) ==> {
            &&& obeys(f)
            &&& known(f)
            &&& rank(f) == lb(a, q)
            &&& 0 <= r < a.len() ==> lb(a, r) <= allowance(f)
        },
    decreases a.len() - q, 1int,
{
    let k = a[q].kind;
    law_binding_powers(k);
    assert(left_of(k, left));
    if let Out::Done(f, z) = step_at(a, p, left, lb(a, q), q) {
        if k == TokenKind::LParen {
            if a[q + 1].kind != TokenKind::RParen {
                let none = Seq::<Form>::empty();
                lemma_list(a, q + 1, q + 1, TokenKind::Comma, 0, none);
                lemma_obey_list(a, q + 1, TokenKind::Comma, 0, none);
            }
        } else if k == TokenKind::LBracket {
            lemma_parse(a, q + 1, 0);
            lemma_obey_parse(a, q + 1, 0);
        } else if k == TokenKind::Dot {
        } else if k == TokenKind::Question {
            lemma_parse(a, q + 1, 0);
            lemma_obey_parse(a, q + 1, 0);
            if let Out::Done(then, r) = parse_at(a, q + 1, 0) {
                lemma_parse(a, r + 1, rbp_of(k) as int);
                lemma_obey_parse(a, r + 1, rbp_of(k) as int);
            }
        } else if chain_kind(k) {
            let acc = seq![left];
            lemma_obey_list(a, q + 1, k, rbp_of(k) as int, acc);
            if let OutSeq::Done(fs, r) = list_at(a, q + 1, k, rbp_of(k) as int, acc) {
                assert(f == chain_form(a, p, k, fs, r));
                assert(fs[0] == acc[0]);
                assert forall|i: int| 0 < i < fs.len() implies right_of(k, #[trigger] fs[i]) by {
                    assert(fine(fs[i], rbp_of(k) as int));
                }
                assert forall|i: int| 0 <= i < fs.len() implies obeys(#[trigger] fs[i]) by {
                    if i > 0 {
                        assert(fine(fs[i], rbp_of(k) as int));
                    }
                }
            }
        } else {
            lemma_parse(a, q + 1, rbp_of(k) as int);
            lemma_obey_parse(a, q + 1, rbp_of(k) as int);
        }
    }
}

proof fn lemma_obey_list(a: Seq<Tok>, q: int, sep: TokenKind, m: int, acc: Seq<Form>)
    requires
        toks_ok(a),
        0 <= m < no_spine(),
    ensures
        list_at(a, q, sep, m, acc) matches OutSeq::Done(fs, r) ==> {
            &&& fs.len() > acc.len()
            &&& forall|i: int| 0 <= i < acc.len() ==> #[trigger] fs[i] == acc[i]
            &&& forall|i: int|
                acc.len() <= i < fs.len() ==> fine(#[trigger] fs[i], m) && known(fs[i])
            &&& lb(a, r) <= m
        },
    decreases a.len() - q, 4int,
{
    lemma_parse(a, q, m);
    lemma_obey_parse(a, q, m);
    if let Out::Done(f, r) = parse_at(a, q, m) {
        if 0 <= q < r < a.len() {
            let next = acc.push(f);
            if a[r].kind == sep {
                lemma_obey_list(a, r + 1, sep, m, next);
                if let OutSeq::Done(fs, z) = list_at(a, r + 1, sep, m, next) {
                    assert forall|i: int| 0 <= i < acc.len() implies #[trigger] fs[i] == acc[i] by {
                        assert(fs[i] == next[i]);
                    }
                    assert(fs[acc.len() as int] == next[acc.len() as int]);
                }
            }
        }
    }
}

/// A parsed tree obeys precedence: the operand of a prefix operator is an operand, what is
/// called, indexed or read a member of is none with a prefix, and what stands beside an
/// operator binds tighter, or as tight on the side that the operator groups to.
pub proof fn law_tree_obeys_precedence(tree: &Node, src: Seq<u8>)
    requires
        src.len() <= u32::MAX,
        parsed(*tree, src),
    ensures
        obeys(norm(tree@)),
{
    lemma_lex_toks(src);
    lemma_obey_parse(lex(src), 0, 0);
}

// ---- The rules, one by one ---------------------------------------------

/// What an operand is: an atom, an operator before an operand, or an expression between
/// parentheses; anything else is unexpected, and a parenthesis that does not close where
/// the expression ends is missed there.
pub proof fn law_operand(a: Seq<Tok>, p: int)
    requires
        toks_ok(a),
        0 <= p < a.len(),
    ensures
        ({
            let k = a[p].kind;
            let (bare, sign) = (
                k == TokenKind::Int || k == TokenKind::Ident,
                k == TokenKind::Minus || k == TokenKind::Bang,
            );
            let inner = parse_at(a, p + 1, 0);
            let child = parse_at(a, p + 1, prefix_rbp_of(k) as int);
            &&& bare ==> (nud_at(a, p) matches Out::Done(f, q) && f.kind == FormKind::Atom(a[p].text)
                && q == p + 1)
            &&& sign ==> match child {
                Out::Done(c, q) => nud_at(a, p) matches Out::Done(f, r) && r == q && f.kind
                    == (FormKind::Prefix { op: k, child: Box::new(c) }),
                Out::Fail(e) => nud_at(a, p) == Out::Fail(e),
            }
            &&& k == TokenKind::LParen ==> match inner {
                Out::Done(g, q) => if a[q].kind == TokenKind::RParen {
                    nud_at(a, p) matches Out::Done(f, r) && r == q + 1 && f.kind == (
                    FormKind::Paren { inner: Box::new(g) })
                } else {
                    nud_at(a, p) == Out::Fail(
                        ParseError::MissingRParen { at: a[q].start as u32 },
                    )
                },
                Out::Fail(e) => nud_at(a, p) == Out::Fail(e),
            }
            &&& k == TokenKind::Eof ==> nud_at(a, p) == Out::Fail(ParseError::UnexpectedEof)
            &&& !bare && !sign && k != TokenKind::LParen && k != TokenKind::Eof ==> nud_at(a, p)
                == Out::Fail(ParseError::UnexpectedToken { kind: k, at: a[p].start as u32 })
        }),
{
    lemma_parse(a, p + 1, 0);
    lemma_parse(a, p + 1, prefix_rbp_of(a[p].kind) as int);
}

/// An expression at `m` is an operand and, from left to right, what follows it as long as
/// that binds tighter than `m`; a whole source is one expression at 0, up to its end.
pub proof fn law_expression(a: Seq<Tok>, p: int, m: int)
    requires
        toks_ok(a),
        0 <= p < a.len(),
        0 <= m < no_spine(),
    ensures
        match nud_at(a, p) {
            Out::Fail(e) => parse_at(a, p, m) == Out::Fail(e),
            Out::Done(f, q) => lb(a, q) <= m ==> (parse_at(a, p, m) matches Out::Done(g, r) && r == q
                && g.kind == f.kind),
        },
        parse_at(a, p, m) matches Out::Done(f, q) ==> p < q < a.len() && lb(a, q) <= m,
        crate::expr::grammar::parse_stream(a) == (match parse_at(a, 0, 0) {
            Out::Fail(e) => Err::<Form, ParseError>(e),
            Out::Done(f, q) => if q == a.len() - 1 {
                Ok(f)
            } else {
                Err(ParseError::TrailingTokens { at: a[q].start as u32 })
            },
        }),
{
    lemma_nud(a, p);
    lemma_parse(a, p, m);
    lemma_parse(a, 0, 0);
}

/// What follows `left`: arguments between parentheses, an index between brackets, a member
/// after a dot, the two ways of a choice, or the right operand of an operator. Between
/// brackets and between `?` and `:` stands any expression.
#[verifier::rlimit(50)]
pub proof fn law_continuation(a: Seq<Tok>, p: int, left: Form, s: int, q: int)
    requires
        toks_ok(a),
        0 <= p < q < a.len(),
    ensures
        ({
            let k = a[q].kind;
            let step = step_at(a, p, left, s, q);
            let inner = parse_at(a, q + 1, 0);
            let right = parse_at(a, q + 1, rbp_of(k) as int);
            &&& k == TokenKind::LParen && a[q + 1].kind == TokenKind::RParen ==> (step matches Out::Done(
                f,
                r,
            ) && r == q + 2 && f.kind == (FormKind::Call {
                callee: Box::new(left),
                args: Seq::empty(),
            }))
            &&& k == TokenKind::LBracket ==> match inner {
                Out::Done(g, r) => if a[r].kind == TokenKind::RBracket {
                    step matches Out::Done(f, z) && z == r + 1 && f.kind == (FormKind::Index {
                        array: Box::new(left),
                        index: Box::new(g),
                    })
                } else {
                    step == Out::Fail(ParseError::MissingRBracket { at: a[r].start as u32 })
                },
                Out::Fail(e) => step == Out::Fail(e),
            }
            &&& k == TokenKind::Dot ==> if a[q + 1].kind == TokenKind::Ident {
                step matches Out::Done(f, z) && z == q + 2 && f.kind == (FormKind::Member {
                    object: Box::new(left),
                    field: a[q + 1].text,
                })
            } else {
                step == Out::Fail(ParseError::MissingMemberName { at: a[q + 1].start as u32 })
            }
            &&& k == TokenKind::Question ==> match inner {
                Out::Done(g, r) => if a[r].kind == TokenKind::Colon {
                    match parse_at(a, r + 1, rbp_of(k) as int) {
                        Out::Done(h, z) => step matches Out::Done(f, y) && y == z && f.kind == (
                        FormKind::Ternary {
                            cond: Box::new(left),
                            then: Box::new(g),
                            else_: Box::new(h),
                        }),
                        Out::Fail(e) => step == Out::Fail(e),
                    }
                } else {
                    step == Out::Fail(ParseError::MissingColon { at: a[r].start as u32 })
                },
                Out::Fail(e) => step == Out::Fail(e),
            }
            &&& lbp_of(k) > 0 && !postfix_kind(k) && k != TokenKind::Question && !chain_kind(k)
                ==> match right {
                Out::Done(g, r) => step matches Out::Done(f, z) && z == r && f.kind == (
                FormKind::Binary { op: k, left: Box::new(left), right: Box::new(g) }),
                Out::Fail(e) => step == Out::Fail(e),
            }
        }),
{
    lemma_parse(a, q + 1, 0);
    lemma_parse(a, q + 1, rbp_of(a[q].kind) as int);
    if let Out::Done(g, r) = parse_at(a, q + 1, 0) {
        lemma_parse(a, r + 1, rbp_of(a[q].kind) as int);
    }
}

/// Arguments are expressions with commas between them, a chain's operands are operands of
/// its operator with that between them; the list ends where no separator follows.
pub proof fn law_list(a: Seq<Tok>, p: int, left: Form, s: int, q: int)
    requires
        toks_ok(a),
        0 <= p < q < a.len(),
    ensures
        ({
            let k = a[q].kind;
            let step = step_at(a, p, left, s, q);
            &&& k == TokenKind::LParen && a[q + 1].kind != TokenKind::RParen ==> match list_at(
                a,
                q + 1,
                TokenKind::Comma,
                0,
                Seq::empty(),
            ) {
                OutSeq::Done(args, r) => if a[r].kind == TokenKind::RParen {
                    step matches Out::Done(f, z) && z == r + 1 && f.kind == (FormKind::Call {
                        callee: Box::new(left),
                        args,
                    })
                } else {
                    step == Out::Fail(ParseError::MissingRParen { at: a[r].start as u32 })
                },
                OutSeq::Fail(e) => step == Out::Fail(e),
            }
            &&& chain_kind(k) ==> match list_at(a, q + 1, k, rbp_of(k) as int, seq![left]) {
                OutSeq::Done(fs, r) => step matches Out::Done(f, z) && z == r && f.kind == (
                FormKind::Chain { op: k, operands: fs }),
                OutSeq::Fail(e) => step == Out::Fail(e),
            }
        }),
        forall|sep: TokenKind, m: int, acc: Seq<Form>|
            0 <= m < no_spine() ==> match parse_at(a, q, m) {
                Out::Fail(e) => #[trigger] list_at(a, q, sep, m, acc) == OutSeq::Fail(e),
                Out::Done(f, r) => if a[r].kind == sep {
                    list_at(a, q, sep, m, acc) == list_at(a, r + 1, sep, m, acc.push(f))
                } else {
                    list_at(a, q, sep, m, acc) == OutSeq::Done(acc.push(f), r)
                },
            },
{
    lemma_list(a, q + 1, q + 1, TokenKind::Comma, 0, Seq::empty());
    assert forall|sep: TokenKind, m: int, acc: Seq<Form>| 0 <= m < no_spine() implies match parse_at(
        a,
        q,
        m,
    ) {
        Out::Fail(e) => #[trigger] list_at(a, q, sep, m, acc) == OutSeq::Fail(e),
        Out::Done(f, r) => if a[r].kind == sep {
            list_at(a, q, sep, m, acc) == list_at(a, r + 1, sep, m, acc.push(f))
        } else {
            list_at(a, q, sep, m, acc) == OutSeq::Done(acc.push(f), r)
        },
    } by {
        lemma_parse(a, q, m);
    }
}

} // verus!
