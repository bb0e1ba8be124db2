//! Trees and the expressions they stand for.
//!
//! `norm` maps a tree to its expression: the reuse metadata and subtrees, with
//! every chain of one associativity-conflict operator flattened, so that trees
//! that differ only in how a chain is grouped have one normal form.

use vstd::arithmetic::power::{lemma_pow0, lemma_pow1, lemma_pow_adds, lemma_pow_positive, pow};
use vstd::prelude::*;

use crate::expr::ast::{count_upto, node_count, Shape, ShapeKind};
use crate::expr::grammar::{
    at, lb, lemma_lt_skip, loop_at, lt, nt, parse_at, span, toks_ok, Form, FormKind, Out,
};
use crate::expr::lexer::{Tok, TokenKind};
use crate::expr::op::{chain_kind, lbp_of, prefix_rbp_of, rbp_of};
use crate::expr::locality::{agree, same_tok};
use crate::expr::resume::{deep, parses, resumes, suffix_form};

verus! {

pub open spec fn is_bin(t: Shape, op: TokenKind) -> bool {
    t.kind matches ShapeKind::Binary { op: o, left, right } && o == op
}

/// The expression a tree stands for.
pub open spec fn norm(t: Shape) -> Form
    decreases t, 0int,
{
    Form {
        width: t.width,
        m_spine: t.m_spine,
        stop_lbp: t.stop_lbp,
        kind: match t.kind {
            ShapeKind::Atom(s) => FormKind::Atom(s),
            ShapeKind::Prefix { op, child } => FormKind::Prefix {
                op,
                child: Box::new(norm(*child)),
            },
            ShapeKind::Binary { op, left, right } => if chain_kind(op) {
                FormKind::Chain { op, operands: flat(*left, op) + flat(*right, op) }
            } else {
                FormKind::Binary {
                    op,
                    left: Box::new(norm(*left)),
                    right: Box::new(norm(*right)),
                }
            },
            ShapeKind::Ternary { cond, then, else_ } => FormKind::Ternary {
                cond: Box::new(norm(*cond)),
                then: Box::new(norm(*then)),
                else_: Box::new(norm(*else_)),
            },
            ShapeKind::Paren { inner } => FormKind::Paren { inner: Box::new(norm(*inner)) },
            ShapeKind::Call { callee, args } => FormKind::Call {
                callee: Box::new(norm(*callee)),
                args: Seq::new(
                    args.len(),
                    |i: int|
                        if 0 <= i < args.len() {
                            norm(args[i])
                        } else {
                            arbitrary()
                        },
                ),
            },
            ShapeKind::Index { array, index } => FormKind::Index {
                array: Box::new(norm(*array)),
                index: Box::new(norm(*index)),
            },
            ShapeKind::Member { object, field } => FormKind::Member {
                object: Box::new(norm(*object)),
                field,
            },
            ShapeKind::Missing => FormKind::Missing,
            ShapeKind::Error { skipped } => FormKind::Error { skipped },
        },
    }
}

/// The operands of a tree seen as a chain of `op`, left to right.
pub open spec fn flat(t: Shape, op: TokenKind) -> Seq<Form>
    decreases t, 1int,
{
    match t.kind {
        ShapeKind::Binary { op: o, left, right } => if o == op {
            flat(*left, op) + flat(*right, op)
        } else {
            seq![norm(t)]
        },
        _ => seq![norm(t)],
    }
}

pub open spec fn norms(ts: Seq<Shape>) -> Seq<Form> {
    Seq::new(ts.len(), |i: int| norm(ts[i]))
}

/// Number of tokens a tree spans.
pub open spec fn sn(t: Shape) -> int {
    nt(norm(t))
}

/// What a chain spine node below the chain's root carries: the operator's
/// binding power as `m_spine`, and as `stop_lbp` either that same power (so
/// that it is never reused alone) or what stopped its last operand.
pub open spec fn inner_ok(t: Shape, op: TokenKind) -> bool {
    is_bin(t, op) ==> {
        &&& t.m_spine == lbp_of(op)
        &&& t.stop_lbp == lbp_of(op) || t.stop_lbp == flat(t, op).last().stop_lbp
    }
}

/// The tree's widths are those of the tokens from `p` on, every `m_floor` is
/// below its `m_spine`, and chain spines carry consistent metadata.
pub open spec fn fits(a: Seq<Tok>, p: int, t: Shape) -> bool
    decreases t,
{
    &&& t.width == span(a, p, p + sn(t))
    &&& t.m_floor < t.m_spine
    &&& match t.kind {
        ShapeKind::Atom(s) => true,
        ShapeKind::Prefix { op, child } => fits(a, p + 1, *child),
        ShapeKind::Binary { op, left, right } => {
            &&& fits(a, p, *left)
            &&& fits(a, p + sn(*left) + 1, *right)
            &&& chain_kind(op) ==> inner_ok(*left, op) && inner_ok(*right, op)
        },
        ShapeKind::Ternary { cond, then, else_ } => {
            &&& fits(a, p, *cond)
            &&& fits(a, p + sn(*cond) + 1, *then)
            &&& fits(a, p + sn(*cond) + sn(*then) + 2, *else_)
        },
        ShapeKind::Paren { inner } => fits(a, p + 1, *inner),
        ShapeKind::Call { callee, args } => {
            &&& fits(a, p, *callee)
            &&& forall|i: int|
                0 <= i < args.len() ==> fits(
                    a,
                    #[trigger] at(p + sn(*callee) + 1, norms(args), i),
                    args[i],
                )
        },
        ShapeKind::Index { array, index } => {
            &&& fits(a, p, *array)
            &&& fits(a, p + sn(*array) + 1, *index)
        },
        ShapeKind::Member { object, field } => fits(a, p, *object),
        ShapeKind::Missing => false,
        ShapeKind::Error { skipped } => false,
    }
}

/// The grouping and the diagnostics of a tree built by a parse at `m` without
/// reuse: chains are split in halves (the left one the longer), and `m_floor`
/// is the `min_prec` of the loop that made the node. `whole` says whether the
/// tree is a finished expression or a left operand.
pub open spec fn canon(t: Shape, m: int, whole: bool) -> bool
    decreases t, 0int,
{
    match t.kind {
        ShapeKind::Atom(s) => t.m_floor == 0,
        ShapeKind::Prefix { op, child } => {
            &&& t.m_floor == prefix_rbp_of(op)
            &&& canon(*child, prefix_rbp_of(op) as int, true)
        },
        ShapeKind::Binary { op, left, right } => if chain_kind(op) {
            &&& t.m_floor == (if whole {
                m
            } else {
                lbp_of(op) - 1
            })
            &&& halved(*left, *right, op)
            &&& canon_part(*left, op, m, true)
            &&& canon_part(*right, op, m, false)
        } else {
            &&& t.m_floor == m
            &&& canon(*left, m, false)
            &&& canon(*right, rbp_of(op) as int, true)
        },
        ShapeKind::Ternary { cond, then, else_ } => {
            &&& t.m_floor == m
            &&& canon(*cond, m, false)
            &&& canon(*then, 0, true)
            &&& canon(*else_, rbp_of(TokenKind::Question) as int, true)
        },
        ShapeKind::Paren { inner } => t.m_floor == 0 && canon(*inner, 0, true),
        ShapeKind::Call { callee, args } => {
            &&& t.m_floor == m
            &&& canon(*callee, m, false)
            &&& forall|i: int| 0 <= i < args.len() ==> canon(#[trigger] args[i], 0, true)
        },
        ShapeKind::Index { array, index } => {
            &&& t.m_floor == m
            &&& canon(*array, m, false)
            &&& canon(*index, 0, true)
        },
        ShapeKind::Member { object, field } => t.m_floor == m && canon(*object, m, false),
        ShapeKind::Missing => false,
        ShapeKind::Error { skipped } => false,
    }
}

/// The left part of a chain holds half of its operands, rounded up.
pub open spec fn halved(left: Shape, right: Shape, op: TokenKind) -> bool {
    let n = flat(left, op).len() + flat(right, op).len();
    flat(left, op).len() == (n + 1) / 2
}

/// `canon` for a part of a chain of `op`; `first` says whether the part holds
/// the chain's first operand.
pub open spec fn canon_part(t: Shape, op: TokenKind, m: int, first: bool) -> bool
    decreases t, 1int,
{
    if is_bin(t, op) {
        match t.kind {
            ShapeKind::Binary { op: o, left, right } => {
                &&& t.m_floor == lbp_of(op) - 1
                &&& t.m_spine == lbp_of(op)
                &&& t.stop_lbp == flat(t, op).last().stop_lbp
                &&& halved(*left, *right, op)
                &&& canon_part(*left, op, m, first)
                &&& canon_part(*right, op, m, false)
            },
            _ => false,
        }
    } else if first {
        canon(t, m, false)
    } else {
        canon(t, lbp_of(op) as int, true)
    }
}

/// Every chain in the tree is split in halves (the left one the longer), and
/// its spine carries the chain's metadata: the grouping of a parse without
/// reuse.
pub open spec fn grouped(t: Shape) -> bool
    decreases t, 0int,
{
    match t.kind {
        ShapeKind::Atom(s) => true,
        ShapeKind::Prefix { op, child } => grouped(*child),
        ShapeKind::Binary { op, left, right } => if chain_kind(op) {
            &&& halved(*left, *right, op)
            &&& grouped_part(*left, op)
            &&& grouped_part(*right, op)
        } else {
            grouped(*left) && grouped(*right)
        },
        ShapeKind::Ternary { cond, then, else_ } => grouped(*cond) && grouped(*then) && grouped(
            *else_,
        ),
        ShapeKind::Paren { inner } => grouped(*inner),
        ShapeKind::Call { callee, args } => {
            &&& grouped(*callee)
            &&& forall|i: int| 0 <= i < args.len() ==> grouped(#[trigger] args[i])
        },
        ShapeKind::Index { array, index } => grouped(*array) && grouped(*index),
        ShapeKind::Member { object, field } => grouped(*object),
        ShapeKind::Missing => true,
        ShapeKind::Error { skipped } => true,
    }
}

/// Neither is more than three times the other.
pub open spec fn near(x: int, y: int) -> bool {
    x <= 3 * y && y <= 3 * x
}

/// In a tree seen as a chain of `op`, no side of a node holds more than three
/// times as many operands as the other.
pub open spec fn level(t: Shape, op: TokenKind) -> bool
    decreases t,
{
    match t.kind {
        ShapeKind::Binary { op: o, left, right } => o == op ==> {
            &&& level(*left, op)
            &&& level(*right, op)
            &&& near(flat(*left, op).len() as int, flat(*right, op).len() as int)
        },
        _ => true,
    }
}

/// Every chain of a tree is balanced by weight: no side of a node holds more
/// than three times as many operands as the other.
pub open spec fn levelled(t: Shape) -> bool
    decreases t,
{
    match t.kind {
        ShapeKind::Atom(_) => true,
        ShapeKind::Prefix { op, child } => levelled(*child),
        ShapeKind::Binary { op, left, right } => {
            &&& levelled(*left)
            &&& levelled(*right)
            &&& chain_kind(op) ==> near(
                flat(*left, op).len() as int,
                flat(*right, op).len() as int,
            )
        },
        ShapeKind::Ternary { cond, then, else_ } => levelled(*cond) && levelled(*then) && levelled(
            *else_,
        ),
        ShapeKind::Paren { inner } => levelled(*inner),
        ShapeKind::Call { callee, args } => {
            &&& levelled(*callee)
            &&& forall|i: int| 0 <= i < args.len() ==> levelled(#[trigger] args[i])
        },
        ShapeKind::Index { array, index } => levelled(*array) && levelled(*index),
        ShapeKind::Member { object, field } => levelled(*object),
        ShapeKind::Missing => true,
        ShapeKind::Error { skipped } => true,
    }
}

/// Number of nodes on the longest way from the root of a chain to an operand.
pub open spec fn chain_height(t: Shape, op: TokenKind) -> nat
    decreases t,
{
    match t.kind {
        ShapeKind::Binary { op: o, left, right } => if o == op {
            let (x, y) = (chain_height(*left, op), chain_height(*right, op));
            1 + if x < y {
                y
            } else {
                x
            }
        } else {
            0
        },
        _ => 0,
    }
}

/// A balanced chain of `n` operands is no higher than the logarithm of `n` to the
/// base `4 / 3`.
pub proof fn law_level_height(t: Shape, op: TokenKind)
    requires
        level(t, op),
    ensures
        pow(4, chain_height(t, op)) <= pow(3, chain_height(t, op)) * flat(t, op).len(),
    decreases t,
{
    lemma_pow0(4);
    lemma_pow0(3);
    lemma_flat_nonempty(t, op);
    if let ShapeKind::Binary { op: o, left, right } = t.kind {
        if o == op {
            law_level_height(*left, op);
            law_level_height(*right, op);
            let (x, y) = (flat(*left, op).len() as int, flat(*right, op).len() as int);
            let (h, k) = (chain_height(*left, op), chain_height(*right, op));
            if h < k {
                lemma_height_step(k, y, x);
            } else {
                lemma_height_step(h, x, y);
            }
        }
    }
}

/// One more node above a part of `x` operands, beside one of `y`.
proof fn lemma_height_step(h: nat, x: int, y: int)
    requires
        pow(4, h) <= pow(3, h) * x,
        near(x, y),
    ensures
        pow(4, h + 1) <= pow(3, h + 1) * (x + y),
{
    lemma_pow_positive(3, h);
    lemma_pow_adds(4, h, 1);
    lemma_pow_adds(3, h, 1);
    lemma_pow1(4);
    lemma_pow1(3);
    let (f, g) = (pow(4, h), pow(3, h));
    assert(4 * f <= g * (4 * x)) by (nonlinear_arith)
        requires
            f <= g * x,
    ;
    assert(g * (4 * x) <= g * (3 * (x + y))) by (nonlinear_arith)
        requires
            4 * x <= 3 * (x + y),
            g > 0,
    ;
    assert(g * (3 * (x + y)) == (g * 3) * (x + y)) by (nonlinear_arith);
}

/// Whether chains are balanced does not hang on the root's metadata.
pub proof fn lemma_levelled_kids(t: Shape, u: Shape)
    requires
        t.kind == u.kind,
    ensures
        levelled(t) == levelled(u),
{
}

/// `grouped` for a part of a chain of `op`.
pub open spec fn grouped_part(t: Shape, op: TokenKind) -> bool
    decreases t, 1int,
{
    &&& is_bin(t, op) ==> t.m_spine == lbp_of(op) && t.stop_lbp == flat(t, op).last().stop_lbp
    &&& grouped(t)
}

/// A tree built without reuse is grouped.
pub proof fn lemma_canon_grouped(t: Shape, m: int, whole: bool)
    requires
        canon(t, m, whole),
    ensures
        grouped(t),
    decreases t, 0int,
{
    match t.kind {
        ShapeKind::Prefix { op, child } => lemma_canon_grouped(
            *child,
            prefix_rbp_of(op) as int,
            true,
        ),
        ShapeKind::Binary { op, left, right } => if chain_kind(op) {
            lemma_canon_part_grouped(*left, op, m, true);
            lemma_canon_part_grouped(*right, op, m, false);
        } else {
            lemma_canon_grouped(*left, m, false);
            lemma_canon_grouped(*right, rbp_of(op) as int, true);
        },
        ShapeKind::Ternary { cond, then, else_ } => {
            lemma_canon_grouped(*cond, m, false);
            lemma_canon_grouped(*then, 0, true);
            lemma_canon_grouped(*else_, rbp_of(TokenKind::Question) as int, true);
        },
        ShapeKind::Paren { inner } => lemma_canon_grouped(*inner, 0, true),
        ShapeKind::Call { callee, args } => {
            lemma_canon_grouped(*callee, m, false);
            assert forall|i: int| 0 <= i < args.len() implies grouped(#[trigger] args[i]) by {
                lemma_canon_grouped(args[i], 0, true);
            }
        },
        ShapeKind::Index { array, index } => {
            lemma_canon_grouped(*array, m, false);
            lemma_canon_grouped(*index, 0, true);
        },
        ShapeKind::Member { object, field } => lemma_canon_grouped(*object, m, false),
        _ => {},
    }
}

proof fn lemma_canon_part_grouped(t: Shape, op: TokenKind, m: int, first: bool)
    requires
        chain_kind(op),
        canon_part(t, op, m, first),
    ensures
        grouped_part(t, op),
    decreases t, 1int,
{
    if is_bin(t, op) {
        if let ShapeKind::Binary { op: o, left, right } = t.kind {
            lemma_canon_part_grouped(*left, op, m, first);
            lemma_canon_part_grouped(*right, op, m, false);
        }
    } else if first {
        lemma_canon_grouped(t, m, false);
    } else {
        lemma_canon_grouped(t, lbp_of(op) as int, true);
    }
}

/// The trees are the same apart from `m_floor`.
pub open spec fn alike(t: Shape, u: Shape) -> bool
    decreases t,
{
    &&& t.width == u.width
    &&& t.m_spine == u.m_spine
    &&& t.stop_lbp == u.stop_lbp
    &&& match (t.kind, u.kind) {
        (ShapeKind::Atom(x), ShapeKind::Atom(y)) => x == y,
        (ShapeKind::Prefix { op: o, child: x }, ShapeKind::Prefix { op: p, child: y }) => o == p
            && alike(*x, *y),
        (
            ShapeKind::Binary { op: o, left: x, right: v },
            ShapeKind::Binary { op: p, left: y, right: w },
        ) => o == p && alike(*x, *y) && alike(*v, *w),
        (
            ShapeKind::Ternary { cond: x, then: v, else_: c },
            ShapeKind::Ternary { cond: y, then: w, else_: d },
        ) => alike(*x, *y) && alike(*v, *w) && alike(*c, *d),
        (ShapeKind::Paren { inner: x }, ShapeKind::Paren { inner: y }) => alike(*x, *y),
        (
            ShapeKind::Call { callee: x, args: v },
            ShapeKind::Call { callee: y, args: w },
        ) => alike(*x, *y) && v.len() == w.len() && forall|i: int|
            0 <= i < v.len() ==> alike(#[trigger] v[i], w[i]),
        (
            ShapeKind::Index { array: x, index: v },
            ShapeKind::Index { array: y, index: w },
        ) => alike(*x, *y) && alike(*v, *w),
        (ShapeKind::Member { object: x, field: f }, ShapeKind::Member { object: y, field: g }) => f
            == g && alike(*x, *y),
        (ShapeKind::Missing, ShapeKind::Missing) => true,
        (ShapeKind::Error { skipped: x }, ShapeKind::Error { skipped: y }) => x == y,
        _ => false,
    }
}

/// Trees of one expression that are grouped alike are alike.
pub proof fn lemma_grouped_alike(a: Seq<Tok>, p: int, t: Shape, u: Shape)
    requires
        norm(t) == norm(u),
        fits(a, p, t),
        fits(a, p, u),
        grouped(t),
        grouped(u),
    ensures
        alike(t, u),
    decreases t, 2int,
{
    lemma_norm_call(t);
    lemma_norm_call(u);
    match (t.kind, u.kind) {
        (ShapeKind::Prefix { op: o, child: x }, ShapeKind::Prefix { op: q, child: y }) => {
            lemma_grouped_alike(a, p + 1, *x, *y);
        },
        (
            ShapeKind::Binary { op: o, left: x, right: v },
            ShapeKind::Binary { op: q, left: y, right: w },
        ) => {
            if chain_kind(o) {
                lemma_parts_alike(a, p, t, u, o);
            } else {
                lemma_grouped_alike(a, p, *x, *y);
                lemma_grouped_alike(a, p + sn(*x) + 1, *v, *w);
            }
        },
        (
            ShapeKind::Ternary { cond: x, then: v, else_: c },
            ShapeKind::Ternary { cond: y, then: w, else_: d },
        ) => {
            lemma_grouped_alike(a, p, *x, *y);
            lemma_grouped_alike(a, p + sn(*x) + 1, *v, *w);
            lemma_grouped_alike(a, p + sn(*x) + sn(*v) + 2, *c, *d);
        },
        (ShapeKind::Paren { inner: x }, ShapeKind::Paren { inner: y }) => {
            lemma_grouped_alike(a, p + 1, *x, *y);
        },
        (
            ShapeKind::Call { callee: x, args: v },
            ShapeKind::Call { callee: y, args: w },
        ) => {
            lemma_grouped_alike(a, p, *x, *y);
            assert(norms(v) == norms(w));
            assert forall|i: int| 0 <= i < v.len() implies alike(#[trigger] v[i], w[i]) by {
                assert(norms(v)[i] == norms(w)[i]);
                assert(fits(a, at(p + sn(*x) + 1, norms(v), i), v[i]));
                assert(fits(a, at(p + sn(*y) + 1, norms(w), i), w[i]));
                lemma_grouped_alike(a, at(p + sn(*x) + 1, norms(v), i), v[i], w[i]);
            }
        },
        (
            ShapeKind::Index { array: x, index: v },
            ShapeKind::Index { array: y, index: w },
        ) => {
            lemma_grouped_alike(a, p, *x, *y);
            lemma_grouped_alike(a, p + sn(*x) + 1, *v, *w);
        },
        (ShapeKind::Member { object: x, field: f }, ShapeKind::Member { object: y, field: g }) => {
            lemma_grouped_alike(a, p, *x, *y);
        },
        _ => {},
    }
}

/// Two chains of the same operands, split in halves, have the same parts.
proof fn lemma_parts_alike(a: Seq<Tok>, p: int, t: Shape, u: Shape, op: TokenKind)
    requires
        chain_kind(op),
        is_bin(t, op),
        is_bin(u, op),
        flat(t, op) == flat(u, op),
        t.width == u.width,
        t.m_spine == u.m_spine,
        t.stop_lbp == u.stop_lbp,
        fits(a, p, t),
        fits(a, p, u),
        grouped(t),
        grouped(u),
    ensures
        alike(t, u),
    decreases t, 1int,
{
    if let (
        ShapeKind::Binary { op: o, left: x, right: v },
        ShapeKind::Binary { op: q, left: y, right: w },
    ) = (t.kind, u.kind) {
        let (fx, fy, fv, fw) = (flat(*x, op), flat(*y, op), flat(*v, op), flat(*w, op));
        assert(fx.len() == fy.len());
        assert(fx =~= (fx + fv).take(fx.len() as int));
        assert(fy =~= (fy + fw).take(fy.len() as int));
        assert(fv =~= (fx + fv).skip(fx.len() as int));
        assert(fw =~= (fy + fw).skip(fy.len() as int));
        lemma_flat_tokens(*x, *y, op);
        lemma_flat_tokens(*v, *w, op);
        lemma_part_alike(a, p, *x, *y, op);
        lemma_part_alike(a, p + sn(*x) + 1, *v, *w, op);
    }
}

proof fn lemma_part_alike(a: Seq<Tok>, p: int, t: Shape, u: Shape, op: TokenKind)
    requires
        chain_kind(op),
        flat(t, op) == flat(u, op),
        sn(t) == sn(u),
        fits(a, p, t),
        fits(a, p, u),
        grouped_part(t, op),
        grouped_part(u, op),
    ensures
        alike(t, u),
    decreases t, 3int,
{
    lemma_flat_nonempty(t, op);
    lemma_flat_nonempty(u, op);
    if is_bin(t, op) {
        if let ShapeKind::Binary { op: o, left: x, right: v } = t.kind {
            lemma_flat_nonempty(*x, op);
            lemma_flat_nonempty(*v, op);
        }
        assert(is_bin(u, op));
        lemma_parts_alike(a, p, t, u, op);
    } else {
        if is_bin(u, op) {
            if let ShapeKind::Binary { op: o, left: x, right: v } = u.kind {
                lemma_flat_nonempty(*x, op);
                lemma_flat_nonempty(*v, op);
            }
        }
        assert(flat(t, op)[0] == norm(t));
        assert(flat(u, op)[0] == norm(u));
        lemma_grouped_alike(a, p, t, u);
    }
}

/// Trees of the same operands span as many tokens.
proof fn lemma_flat_tokens(t: Shape, u: Shape, op: TokenKind)
    requires
        chain_kind(op),
        flat(t, op) == flat(u, op),
    ensures
        sn(t) == sn(u),
{
    let fs = flat(t, op);
    lemma_flat_nonempty(t, op);
    lemma_flat_nonempty(u, op);
    assert(fs.subrange(0, fs.len() as int) =~= fs);
    lemma_part_tokens(t, op, fs, 0, fs.len() as int);
    lemma_part_tokens(u, op, fs, 0, fs.len() as int);
}

/// Number of operands of the chain a tree is the root of, 1 if it is none.
pub open spec fn weight(t: Shape) -> int {
    match t.kind {
        ShapeKind::Binary { op, left, right } => if chain_kind(op) {
            flat(t, op).len() as int
        } else {
            1
        },
        _ => 1,
    }
}

/// The tree is what a parse from token `p` gives at every `min_prec` of its
/// acceptance band `stop_lbp <= m < m_spine`.
pub open spec fn band_ok(a: Seq<Tok>, p: int, t: Shape) -> bool {
    forall|m: int|
        0 <= m && t.stop_lbp <= m < t.m_spine ==> #[trigger] parse_at(a, p, m) == Out::Done(
            norm(t),
            p + sn(t),
        )
}

/// `band_ok` holds of the tree and of all its subtrees.
pub open spec fn bands_ok(a: Seq<Tok>, p: int, t: Shape) -> bool
    decreases t,
{
    &&& 0 <= p && p + sn(t) < a.len() && sn(t) >= 1
    &&& band_ok(a, p, t)
    &&& match t.kind {
        ShapeKind::Atom(s) => true,
        ShapeKind::Prefix { op, child } => bands_ok(a, p + 1, *child),
        ShapeKind::Binary { op, left, right } => {
            &&& bands_ok(a, p, *left)
            &&& bands_ok(a, p + sn(*left) + 1, *right)
            &&& sn(t) == sn(*left) + 1 + sn(*right)
        },
        ShapeKind::Ternary { cond, then, else_ } => {
            &&& bands_ok(a, p, *cond)
            &&& bands_ok(a, p + sn(*cond) + 1, *then)
            &&& bands_ok(a, p + sn(*cond) + sn(*then) + 2, *else_)
        },
        ShapeKind::Paren { inner } => bands_ok(a, p + 1, *inner),
        ShapeKind::Call { callee, args } => {
            &&& bands_ok(a, p, *callee)
            &&& forall|i: int|
                0 <= i < args.len() ==> bands_ok(
                    a,
                    #[trigger] at(p + sn(*callee) + 1, norms(args), i),
                    args[i],
                )
        },
        ShapeKind::Index { array, index } => {
            &&& bands_ok(a, p, *array)
            &&& bands_ok(a, p + sn(*array) + 1, *index)
        },
        ShapeKind::Member { object, field } => bands_ok(a, p, *object),
        ShapeKind::Missing => false,
        ShapeKind::Error { skipped } => false,
    }
}

pub proof fn lemma_norm_call(t: Shape)
    ensures
        t.kind matches ShapeKind::Call { callee, args } ==> norm(t).kind == (FormKind::Call {
            callee: Box::new(norm(*callee)),
            args: norms(args),
        }),
{
    if let ShapeKind::Call { callee, args } = t.kind {
        assert(norm(t).kind->Call_args =~= norms(args));
    }
}

/// An atom, a prefix operator or a parenthesis.
pub open spec fn is_operand(t: Shape) -> bool {
    t.kind is Atom || t.kind is Prefix || t.kind is Paren
}

/// Stamping the root changes the root's metadata and nothing else.
pub proof fn lemma_restamp(t: Shape, u: Shape)
    requires
        u.width == t.width,
        u.kind == t.kind,
        u.m_floor < u.m_spine,
    ensures
        norm(u) == (Form { m_spine: u.m_spine, stop_lbp: u.stop_lbp, ..norm(t) }),
        sn(u) == sn(t),
        forall|a: Seq<Tok>, p: int| #[trigger] fits(a, p, t) ==> fits(a, p, u),
        forall|op: TokenKind| is_bin(u, op) == is_bin(t, op),
        u.m_floor == t.m_floor ==> forall|m: int, w: bool| canon(u, m, w) == #[trigger] canon(t, m, w),
        !is_operand(t) ==> forall|m: int|
            u.m_floor == m && canon(t, m, false) ==> #[trigger] canon(u, m, true),
{
    lemma_norm_call(t);
    lemma_norm_call(u);
    assert(nt(norm(u)) == nt(norm(t)));
}

/// A chain has an operand.
pub proof fn lemma_flat_nonempty(t: Shape, op: TokenKind)
    ensures
        flat(t, op).len() >= 1,
        !is_bin(t, op) ==> flat(t, op) == seq![norm(t)],
    decreases t,
{
    if let ShapeKind::Binary { op: o, left, right } = t.kind {
        if o == op {
            lemma_flat_nonempty(*left, op);
            lemma_flat_nonempty(*right, op);
        }
    }
}

/// A resumable expression is what parsing gives within its band.
pub proof fn lemma_resumes_band(a: Seq<Tok>, p: int, f: Form, m: int)
    requires
        resumes(a, p, f),
        0 <= p + nt(f) < a.len(),
        f.stop_lbp == lb(a, p + nt(f)),
        0 <= m,
        f.stop_lbp <= m < f.m_spine,
    ensures
        parse_at(a, p, m) == Out::Done(f, p + nt(f)),
{
    assert(parse_at(a, p, m) == loop_at(a, p, m, f, f.m_spine, p + nt(f)));
}

pub proof fn lemma_deep_band(a: Seq<Tok>, p: int, t: Shape)
    requires
        deep(a, p, norm(t)),
    ensures
        band_ok(a, p, t),
        0 <= p && p + sn(t) < a.len() && sn(t) >= 1,
{
    assert forall|m: int| 0 <= m && t.stop_lbp <= m < t.m_spine implies #[trigger] parse_at(a, p, m)
        == Out::Done(norm(t), p + sn(t)) by {
        lemma_resumes_band(a, p, norm(t), m);
    }
}

/// A tree that fits a stream and whose expression the grammar produces there
/// may be reused, whole or in part, anywhere in its bands.
pub proof fn lemma_bands(a: Seq<Tok>, p: int, t: Shape)
    requires
        toks_ok(a),
        deep(a, p, norm(t)),
        fits(a, p, t),
    ensures
        bands_ok(a, p, t),
    decreases t, 2int,
{
    lemma_deep_band(a, p, t);
    match t.kind {
        ShapeKind::Atom(s) => {},
        ShapeKind::Prefix { op, child } => {
            lemma_bands(a, p + 1, *child);
        },
        ShapeKind::Binary { op, left, right } => {
            if chain_kind(op) {
                lemma_bands_chain(a, p, t);
            } else {
                lemma_bands(a, p, *left);
                lemma_bands(a, p + sn(*left) + 1, *right);
            }
        },
        ShapeKind::Ternary { cond, then, else_ } => {
            lemma_bands(a, p, *cond);
            lemma_bands(a, p + sn(*cond) + 1, *then);
            lemma_bands(a, p + sn(*cond) + sn(*then) + 2, *else_);
        },
        ShapeKind::Paren { inner } => {
            lemma_bands(a, p + 1, *inner);
        },
        ShapeKind::Call { callee, args } => {
            lemma_bands_call(a, p, t);
        },
        ShapeKind::Index { array, index } => {
            lemma_bands(a, p, *array);
            lemma_bands(a, p + sn(*array) + 1, *index);
        },
        ShapeKind::Member { object, field } => {
            lemma_bands(a, p, *object);
        },
        ShapeKind::Missing => {},
        ShapeKind::Error { skipped } => {},
    }
}

proof fn lemma_bands_chain(a: Seq<Tok>, p: int, t: Shape)
    requires
        toks_ok(a),
        deep(a, p, norm(t)),
        fits(a, p, t),
        t.kind matches ShapeKind::Binary { op, left, right } && chain_kind(op),
    ensures
        bands_ok(a, p, t),
    decreases t, 1int,
{
    lemma_deep_band(a, p, t);
    if let ShapeKind::Binary { op, left, right } = t.kind {
        let l = flat(*left, op);
        let r = flat(*right, op);
        let fs = l + r;
        lemma_flat_nonempty(*left, op);
        lemma_flat_nonempty(*right, op);
        assert(fs.subrange(0, l.len() as int) =~= l);
        assert(fs.subrange(l.len() as int, fs.len() as int) =~= r);
        lemma_part_tokens(*left, op, fs, 0, l.len() as int);
        lemma_part_tokens(*right, op, fs, l.len() as int, fs.len() as int);
        assert(at(p, fs, 0) == p);
        assert(sn(t) == lt(fs, fs.len() as int) - 1);
        assert(chain_deep(a, p, op, fs));
        lemma_chain_part(a, p, op, fs, 0, l.len() as int, *left);
        lemma_chain_part(a, p, op, fs, l.len() as int, fs.len() as int, *right);
    }
}

proof fn lemma_bands_call(a: Seq<Tok>, p: int, t: Shape)
    requires
        toks_ok(a),
        deep(a, p, norm(t)),
        fits(a, p, t),
        t.kind is Call,
    ensures
        bands_ok(a, p, t),
    decreases t, 1int,
{
    lemma_deep_band(a, p, t);
    if let ShapeKind::Call { callee, args } = t.kind {
        lemma_norm_call(t);
        lemma_bands(a, p, *callee);
        let p2 = p + sn(*callee) + 1;
        assert forall|i: int| 0 <= i < args.len() implies bands_ok(
            a,
            #[trigger] at(p2, norms(args), i),
            args[i],
        ) by {
            lemma_bands(a, at(p2, norms(args), i), args[i]);
        }
    }
}

/// A tree has no more nodes than tokens.
pub proof fn lemma_count_bound(a: Seq<Tok>, p: int, t: Shape)
    requires
        bands_ok(a, p, t),
    ensures
        node_count(t) <= sn(t),
    decreases t, 1int,
{
    match t.kind {
        ShapeKind::Atom(s) => {},
        ShapeKind::Prefix { op, child } => lemma_count_bound(a, p + 1, *child),
        ShapeKind::Binary { op, left, right } => {
            lemma_count_bound(a, p, *left);
            lemma_count_bound(a, p + sn(*left) + 1, *right);
        },
        ShapeKind::Ternary { cond, then, else_ } => {
            lemma_count_bound(a, p, *cond);
            lemma_count_bound(a, p + sn(*cond) + 1, *then);
            lemma_count_bound(a, p + sn(*cond) + sn(*then) + 2, *else_);
        },
        ShapeKind::Paren { inner } => lemma_count_bound(a, p + 1, *inner),
        ShapeKind::Call { callee, args } => {
            lemma_norm_call(t);
            lemma_count_bound(a, p, *callee);
            lemma_count_bound_args(a, p + sn(*callee) + 1, args, args.len() as int);
        },
        ShapeKind::Index { array, index } => {
            lemma_count_bound(a, p, *array);
            lemma_count_bound(a, p + sn(*array) + 1, *index);
        },
        ShapeKind::Member { object, field } => lemma_count_bound(a, p, *object),
        ShapeKind::Missing => {},
        ShapeKind::Error { skipped } => {},
    }
}

proof fn lemma_count_bound_args(a: Seq<Tok>, p: int, ts: Seq<Shape>, k: int)
    requires
        0 <= k <= ts.len(),
        forall|i: int| 0 <= i < ts.len() ==> bands_ok(a, #[trigger] at(p, norms(ts), i), ts[i]),
    ensures
        count_upto(ts, k) <= lt(norms(ts), k),
    decreases ts, k,
{
    if k > 0 {
        lemma_count_bound_args(a, p, ts, k - 1);
        assert(bands_ok(a, at(p, norms(ts), k - 1), ts[k - 1]));
        lemma_count_bound(a, at(p, norms(ts), k - 1), ts[k - 1]);
    }
}

/// A tree fits wherever its tokens recur.
pub proof fn lemma_fits_move(
    a: Seq<Tok>,
    b: Seq<Tok>,
    lo: int,
    hi: int,
    d: int,
    e: int,
    p: int,
    t: Shape,
)
    requires
        agree(a, b, lo, hi, d, e),
        lo <= p,
        p + sn(t) <= hi,
        bands_ok(a, p, t),
        fits(a, p, t),
    ensures
        fits(b, p + d, t),
    decreases t, 1int,
{
    assert(same_tok(a[p], b[p + d], e));
    assert(same_tok(a[p + sn(t) - 1], b[p + sn(t) - 1 + d], e));
    match t.kind {
        ShapeKind::Atom(s) => {},
        ShapeKind::Prefix { op, child } => {
            lemma_fits_move(a, b, lo, hi, d, e, p + 1, *child);
        },
        ShapeKind::Binary { op, left, right } => {
            assert(bands_ok(a, p, *left));
            assert(bands_ok(a, p + sn(*left) + 1, *right));
            lemma_fits_move(a, b, lo, hi, d, e, p, *left);
            lemma_fits_move(a, b, lo, hi, d, e, p + sn(*left) + 1, *right);
        },
        ShapeKind::Ternary { cond, then, else_ } => {
            assert(bands_ok(a, p, *cond));
            assert(bands_ok(a, p + sn(*cond) + 1, *then));
            assert(bands_ok(a, p + sn(*cond) + sn(*then) + 2, *else_));
            lemma_fits_move(a, b, lo, hi, d, e, p, *cond);
            lemma_fits_move(a, b, lo, hi, d, e, p + sn(*cond) + 1, *then);
            lemma_fits_move(a, b, lo, hi, d, e, p + sn(*cond) + sn(*then) + 2, *else_);
        },
        ShapeKind::Paren { inner } => {
            lemma_fits_move(a, b, lo, hi, d, e, p + 1, *inner);
        },
        ShapeKind::Call { callee, args } => {
            lemma_fits_move_call(a, b, lo, hi, d, e, p, t);
        },
        ShapeKind::Index { array, index } => {
            assert(bands_ok(a, p, *array));
            assert(bands_ok(a, p + sn(*array) + 1, *index));
            lemma_fits_move(a, b, lo, hi, d, e, p, *array);
            lemma_fits_move(a, b, lo, hi, d, e, p + sn(*array) + 1, *index);
        },
        ShapeKind::Member { object, field } => {
            lemma_fits_move(a, b, lo, hi, d, e, p, *object);
        },
        ShapeKind::Missing => {},
        ShapeKind::Error { skipped } => {},
    }
}

proof fn lemma_fits_move_call(
    a: Seq<Tok>,
    b: Seq<Tok>,
    lo: int,
    hi: int,
    d: int,
    e: int,
    p: int,
    t: Shape,
)
    requires
        agree(a, b, lo, hi, d, e),
        lo <= p,
        p + sn(t) <= hi,
        bands_ok(a, p, t),
        fits(a, p, t),
        t.kind is Call,
    ensures
        fits(b, p + d, t),
    decreases t, 0int,
{
    assert(same_tok(a[p], b[p + d], e));
    assert(same_tok(a[p + sn(t) - 1], b[p + sn(t) - 1 + d], e));
    if let ShapeKind::Call { callee, args } = t.kind {
        lemma_norm_call(t);
        let fs = norms(args);
        let p2 = p + sn(*callee) + 1;
        assert(bands_ok(a, p, *callee));
        assert(sn(t) == sn(*callee) + 1 + (if args.len() == 0 {
            1
        } else {
            lt(fs, args.len() as int)
        }));
        if args.len() > 0 {
            assert(at(p2, fs, 0) == p2);
            lemma_list_end(a, p2, args, 0);
            assert(bands_ok(a, at(p2, fs, 0), args[0]));
        }
        assert(p2 + d == (p + d) + sn(*callee) + 1);
        lemma_fits_move(a, b, lo, hi, d, e, p, *callee);
        assert forall|i: int| 0 <= i < args.len() implies fits(
            b,
            #[trigger] at(p2 + d, fs, i),
            args[i],
        ) by {
            assert(bands_ok(a, at(p2, fs, i), args[i]));
            assert(fits(a, at(p2, fs, i), args[i]));
            lemma_list_end(a, p2, args, i);
            lemma_fits_move(a, b, lo, hi, d, e, at(p2, fs, i), args[i]);
        }
    }
}

/// A list element ends before the list does.
proof fn lemma_list_end(a: Seq<Tok>, p: int, ts: Seq<Shape>, i: int)
    requires
        0 <= i < ts.len(),
        forall|k: int| 0 <= k < ts.len() ==> bands_ok(a, #[trigger] at(p, norms(ts), k), ts[k]),
    ensures
        at(p, norms(ts), 0) <= at(p, norms(ts), i),
        at(p, norms(ts), i) + sn(ts[i]) < at(p, norms(ts), ts.len() as int),
    decreases ts.len() - i,
{
    let fs = norms(ts);
    assert(lt(fs, i + 1) == lt(fs, i) + nt(fs[i]) + 1);
    if i + 1 < ts.len() {
        lemma_list_end(a, p, ts, i + 1);
        assert(bands_ok(a, at(p, fs, i + 1), ts[i + 1]));
    }
    lemma_list_start(a, p, ts, i);
}

proof fn lemma_list_start(a: Seq<Tok>, p: int, ts: Seq<Shape>, i: int)
    requires
        0 <= i < ts.len(),
        forall|k: int| 0 <= k < ts.len() ==> bands_ok(a, #[trigger] at(p, norms(ts), k), ts[k]),
    ensures
        at(p, norms(ts), 0) <= at(p, norms(ts), i),
    decreases i,
{
    if i > 0 {
        let fs = norms(ts);
        lemma_list_start(a, p, ts, i - 1);
        assert(lt(fs, i) == lt(fs, i - 1) + nt(fs[i - 1]) + 1);
        assert(bands_ok(a, at(p, fs, i - 1), ts[i - 1]));
    }
}

/// Token count of a stretch of a chain.
pub proof fn lemma_part_tokens(t: Shape, op: TokenKind, fs: Seq<Form>, i: int, j: int)
    requires
        chain_kind(op),
        0 <= i < j <= fs.len(),
        flat(t, op) == fs.subrange(i, j),
    ensures
        sn(t) == lt(fs, j) - lt(fs, i) - 1,
{
    lemma_flat_nonempty(t, op);
    if is_bin(t, op) {
        let gs = fs.subrange(i, j);
        assert(norm(t).kind == (FormKind::Chain { op, operands: gs }));
        lemma_lt_skip(fs, i, j - i);
        crate::expr::grammar::lemma_lt_prefix(gs, fs.skip(i), j - i);
    } else {
        assert(fs.subrange(i, j).len() == 1);
        assert(fs.subrange(i, j)[0] == fs[i]);
        assert(lt(fs, i + 1) == lt(fs, i) + nt(fs[i]) + 1);
    }
}

/// What `deep` says of a chain.
pub open spec fn chain_deep(a: Seq<Tok>, p: int, op: TokenKind, fs: Seq<Form>) -> bool {
    &&& forall|i: int| 0 <= i < fs.len() ==> deep(a, #[trigger] at(p, fs, i), fs[i])
    &&& forall|i: int|
        0 <= i < fs.len() - 1 ==> resumes(a, at(p, fs, i), #[trigger] suffix_form(a, p, op, fs, i))
    &&& forall|i: int|
        0 < i < fs.len() ==> {
            &&& a[#[trigger] at(p, fs, i) - 1].kind == op
            &&& parses(a, at(p, fs, i), rbp_of(op) as int, fs[i])
        }
}

proof fn lemma_chain_part(
    a: Seq<Tok>,
    p: int,
    op: TokenKind,
    fs: Seq<Form>,
    i: int,
    j: int,
    t: Shape,
)
    requires
        toks_ok(a),
        chain_kind(op),
        chain_deep(a, p, op, fs),
        0 <= p,
        0 <= i < j <= fs.len(),
        flat(t, op) == fs.subrange(i, j),
        fits(a, at(p, fs, i), t),
        inner_ok(t, op),
    ensures
        bands_ok(a, at(p, fs, i), t),
    decreases t, 3int,
{
    let c = at(p, fs, i);
    lemma_flat_nonempty(t, op);
    lemma_part_tokens(t, op, fs, i, j);
    assert(at(p, fs, j) == c + sn(t) + 1);
    if is_bin(t, op) {
        if let ShapeKind::Binary { op: o, left, right } = t.kind {
            let l = flat(*left, op);
            let r = flat(*right, op);
            let k = i + l.len();
            lemma_flat_nonempty(*left, op);
            lemma_flat_nonempty(*right, op);
            assert(fs.subrange(i, k) =~= l) by {
                assert((l + r).subrange(0, l.len() as int) =~= l);
                assert(fs.subrange(i, j).subrange(0, l.len() as int) =~= fs.subrange(i, k));
            }
            assert(fs.subrange(k, j) =~= r) by {
                assert((l + r).subrange(l.len() as int, (l + r).len() as int) =~= r);
                assert(fs.subrange(i, j).subrange(l.len() as int, j - i) =~= fs.subrange(k, j));
            }
            lemma_part_tokens(*left, op, fs, i, k);
            lemma_part_tokens(*right, op, fs, k, j);
            lemma_chain_part(a, p, op, fs, i, k, *left);
            lemma_chain_part(a, p, op, fs, k, j, *right);
            assert(deep(a, at(p, fs, j - 1), fs[j - 1]));
            assert(lt(fs, j) == lt(fs, j - 1) + nt(fs[j - 1]) + 1);
            lemma_chain_band(a, p, op, fs, i, j, t);
        }
    } else {
        assert(fs.subrange(i, j).len() == 1);
        assert(fs.subrange(i, j)[0] == fs[i]);
        assert(norm(t) == fs[i]);
        lemma_bands(a, c, t);
    }
}

proof fn lemma_chain_band(
    a: Seq<Tok>,
    p: int,
    op: TokenKind,
    fs: Seq<Form>,
    i: int,
    j: int,
    t: Shape,
)
    requires
        toks_ok(a),
        chain_kind(op),
        chain_deep(a, p, op, fs),
        0 <= p,
        0 <= i < j <= fs.len(),
        i < j - 1,
        flat(t, op) == fs.subrange(i, j),
        is_bin(t, op),
        inner_ok(t, op),
        t.width == span(a, at(p, fs, i), at(p, fs, i) + sn(t)),
        at(p, fs, j) == at(p, fs, i) + sn(t) + 1,
        0 <= at(p, fs, j) - 1 < a.len(),
        fs[j - 1].stop_lbp == lb(a, at(p, fs, j) - 1),
    ensures
        band_ok(a, at(p, fs, i), t),
{
    let c = at(p, fs, i);
    assert(fs.subrange(i, j).last() == fs[j - 1]);
    if j == fs.len() {
        if t.stop_lbp == fs[j - 1].stop_lbp {
            assert(fs.subrange(i, j) =~= fs.skip(i));
            let g = suffix_form(a, p, op, fs, i);
            assert(fs.skip(i).last() == fs.last());
            assert(norm(t) == g);
            assert(resumes(a, c, g));
            assert forall|m: int| 0 <= m && t.stop_lbp <= m < t.m_spine implies #[trigger] parse_at(
                a,
                c,
                m,
            ) == Out::Done(norm(t), c + sn(t)) by {
                lemma_resumes_band(a, c, g, m);
            }
        }
    } else {
        assert(a[at(p, fs, j) - 1].kind == op);
    }
}

} // verus!
