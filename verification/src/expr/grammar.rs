//! The expression grammar as a mathematical function.
//!
//! `parse_at` says which expression starts at a token of a stream when parsed
//! at a given `min_prec`. Its results are `Form`s: syntax trees in which a
//! chain of one associativity-conflict operator is a flat list of operands.

use vstd::prelude::*;

use crate::expr::lexer::{Tok, TokenKind};
use crate::expr::op::{chain_kind, lbp_of, prefix_kind, prefix_rbp_of, rbp_of};
use crate::expr::parser::ParseError;

verus! {

/// `m_spine` of an expression that absorbed no operator.
pub open spec fn no_spine() -> int {
    u32::MAX as int
}

/// An expression with its reuse metadata, chains flattened.
pub ghost struct Form {
    pub width: int,
    pub m_spine: int,
    pub stop_lbp: int,
    pub kind: FormKind,
}

pub ghost enum FormKind {
    Atom(Seq<char>),
    Prefix { op: TokenKind, child: Box<Form> },
    Binary { op: TokenKind, left: Box<Form>, right: Box<Form> },
    Chain { op: TokenKind, operands: Seq<Form> },
    Ternary { cond: Box<Form>, then: Box<Form>, else_: Box<Form> },
    Paren { inner: Box<Form> },
    Call { callee: Box<Form>, args: Seq<Form> },
    Index { array: Box<Form>, index: Box<Form> },
    Member { object: Box<Form>, field: Seq<char> },
    Missing,
    Error { skipped: Seq<TokenKind> },
}

/// Outcome of parsing one expression: the expression and the token after it.
pub ghost enum Out {
    Done(Form, int),
    Fail(ParseError),
}

/// Outcome of parsing a list of expressions.
pub ghost enum OutSeq {
    Done(Seq<Form>, int),
    Fail(ParseError),
}

/// Left-binding power of token `q`.
pub open spec fn lb(a: Seq<Tok>, q: int) -> int {
    lbp_of(a[q].kind) as int
}

/// Byte width of tokens `p..q`.
pub open spec fn span(a: Seq<Tok>, p: int, q: int) -> int {
    a[q - 1].end - a[p].start
}

pub open spec fn stamp(f: Form, stop: int) -> Form {
    Form { stop_lbp: stop, ..f }
}

/// What the operator loop returns once it stops.
pub open spec fn seal(left: Form, spine: int) -> Form {
    if spine < no_spine() {
        Form { m_spine: spine, ..left }
    } else {
        left
    }
}

pub open spec fn min_of(x: int, y: int) -> int {
    if x <= y {
        x
    } else {
        y
    }
}

pub open spec fn mk(width: int, m_spine: int, kind: FormKind) -> Form {
    Form { width, m_spine, stop_lbp: 0, kind }
}

/// The expression at token `p`, absorbing operators that bind tighter than `m`.
pub open spec fn parse_at(a: Seq<Tok>, p: int, m: int) -> Out
    decreases a.len() - p, 2int,
{
    if !(0 <= p < a.len()) {
        Out::Fail(ParseError::UnexpectedEof)
    } else {
        match nud_at(a, p) {
            Out::Fail(e) => Out::Fail(e),
            Out::Done(left, q) => if p < q < a.len() {
                loop_at(a, p, m, stamp(left, lb(a, q)), no_spine(), q)
            } else {
                Out::Fail(ParseError::UnexpectedEof)
            },
        }
    }
}

/// The operand at token `p`: an atom, a prefix operator, a parenthesis.
pub open spec fn nud_at(a: Seq<Tok>, p: int) -> Out
    decreases a.len() - p, 1int,
{
    let t = a[p];
    if !(0 <= p < a.len()) || t.kind == TokenKind::Eof {
        Out::Fail(ParseError::UnexpectedEof)
    } else if !prefix_kind(t.kind) {
        Out::Fail(ParseError::UnexpectedToken { kind: t.kind, at: t.start as u32 })
    } else if t.kind == TokenKind::Int || t.kind == TokenKind::Ident {
        Out::Done(mk(span(a, p, p + 1), no_spine(), FormKind::Atom(t.text)), p + 1)
    } else if t.kind == TokenKind::LParen {
        match parse_at(a, p + 1, 0) {
            Out::Fail(e) => Out::Fail(e),
            Out::Done(inner, q) => if !(p < q < a.len()) || a[q].kind != TokenKind::RParen {
                Out::Fail(ParseError::MissingRParen { at: a[q].start as u32 })
            } else {
                Out::Done(
                    mk(span(a, p, q + 1), no_spine(), FormKind::Paren { inner: Box::new(inner) }),
                    q + 1,
                )
            },
        }
    } else {
        match parse_at(a, p + 1, prefix_rbp_of(t.kind) as int) {
            Out::Fail(e) => Out::Fail(e),
            Out::Done(child, q) => Out::Done(
                mk(
                    span(a, p, q),
                    no_spine(),
                    FormKind::Prefix { op: t.kind, child: Box::new(child) },
                ),
                q,
            ),
        }
    }
}

/// The operator loop: `left` spans tokens `p..q` and has absorbed operators no
/// looser than `spine`.
pub open spec fn loop_at(a: Seq<Tok>, p: int, m: int, left: Form, spine: int, q: int) -> Out
    decreases a.len() - q, 1int,
{
    if !(0 <= q < a.len()) {
        Out::Fail(ParseError::UnexpectedEof)
    } else if lb(a, q) <= m {
        Out::Done(seal(left, spine), q)
    } else {
        let s = min_of(spine, lb(a, q));
        match step_at(a, p, left, s, q) {
            Out::Fail(e) => Out::Fail(e),
            Out::Done(next, r) => if q < r < a.len() {
                loop_at(a, p, m, stamp(next, lb(a, r)), s, r)
            } else {
                Out::Fail(ParseError::UnexpectedEof)
            },
        }
    }
}

/// One turn of the operator loop: absorb the operator at token `q`.
pub open spec fn step_at(a: Seq<Tok>, p: int, left: Form, spine: int, q: int) -> Out
    decreases a.len() - q, 0int,
{
    let k = a[q].kind;
    if !(0 <= q < a.len()) {
        Out::Fail(ParseError::UnexpectedEof)
    } else if k == TokenKind::LParen {
        if q + 1 < a.len() && a[q + 1].kind == TokenKind::RParen {
            Out::Done(
                mk(
                    span(a, p, q + 2),
                    spine,
                    FormKind::Call { callee: Box::new(left), args: Seq::empty() },
                ),
                q + 2,
            )
        } else {
            match list_at(a, q + 1, TokenKind::Comma, 0, Seq::empty()) {
                OutSeq::Fail(e) => Out::Fail(e),
                OutSeq::Done(args, r) => if !(q < r < a.len()) || a[r].kind != TokenKind::RParen {
                    Out::Fail(ParseError::MissingRParen { at: a[r].start as u32 })
                } else {
                    Out::Done(
                        mk(
                            span(a, p, r + 1),
                            spine,
                            FormKind::Call { callee: Box::new(left), args },
                        ),
                        r + 1,
                    )
                },
            }
        }
    } else if k == TokenKind::LBracket {
        match parse_at(a, q + 1, 0) {
            Out::Fail(e) => Out::Fail(e),
            Out::Done(index, r) => if !(q < r < a.len()) || a[r].kind != TokenKind::RBracket {
                Out::Fail(ParseError::MissingRBracket { at: a[r].start as u32 })
            } else {
                Out::Done(
                    mk(
                        span(a, p, r + 1),
                        spine,
                        FormKind::Index { array: Box::new(left), index: Box::new(index) },
                    ),
                    r + 1,
                )
            },
        }
    } else if k == TokenKind::Dot {
        if q + 1 < a.len() && a[q + 1].kind == TokenKind::Ident {
            Out::Done(
                mk(
                    span(a, p, q + 2),
                    spine,
                    FormKind::Member { object: Box::new(left), field: a[q + 1].text },
                ),
                q + 2,
            )
        } else {
            Out::Fail(ParseError::MissingMemberName { at: a[q + 1].start as u32 })
        }
    } else if k == TokenKind::Question {
        match parse_at(a, q + 1, 0) {
            Out::Fail(e) => Out::Fail(e),
            Out::Done(then, r) => if !(q < r < a.len()) || a[r].kind != TokenKind::Colon {
                Out::Fail(ParseError::MissingColon { at: a[r].start as u32 })
            } else {
                match parse_at(a, r + 1, rbp_of(k) as int) {
                    Out::Fail(e) => Out::Fail(e),
                    Out::Done(else_, z) => Out::Done(
                        mk(
                            span(a, p, z),
                            spine,
                            FormKind::Ternary {
                                cond: Box::new(left),
                                then: Box::new(then),
                                else_: Box::new(else_),
                            },
                        ),
                        z,
                    ),
                }
            },
        }
    } else if chain_kind(k) {
        match list_at(a, q + 1, k, rbp_of(k) as int, seq![left]) {
            OutSeq::Fail(e) => Out::Fail(e),
            OutSeq::Done(operands, r) => Out::Done(chain_form(a, p, k, operands, r), r),
        }
    } else {
        match parse_at(a, q + 1, rbp_of(k) as int) {
            Out::Fail(e) => Out::Fail(e),
            Out::Done(right, r) => Out::Done(
                mk(
                    span(a, p, r),
                    spine,
                    FormKind::Binary { op: k, left: Box::new(left), right: Box::new(right) },
                ),
                r,
            ),
        }
    }
}

/// The chain of `operands` over tokens `p..r`.
pub open spec fn chain_form(a: Seq<Tok>, p: int, op: TokenKind, operands: Seq<Form>, r: int) -> Form {
    Form {
        width: span(a, p, r),
        m_spine: lbp_of(op) as int,
        stop_lbp: operands.last().stop_lbp,
        kind: FormKind::Chain { op, operands },
    }
}

/// Expressions parsed at `m` and separated by `sep` tokens, from token `q`,
/// after those in `acc`: call arguments and chain operands.
pub open spec fn list_at(a: Seq<Tok>, q: int, sep: TokenKind, m: int, acc: Seq<Form>) -> OutSeq
    decreases a.len() - q, 3int,
{
    match parse_at(a, q, m) {
        Out::Fail(e) => OutSeq::Fail(e),
        Out::Done(f, r) => if !(0 <= q < r < a.len()) {
            OutSeq::Fail(ParseError::UnexpectedEof)
        } else if a[r].kind == sep {
            list_at(a, r + 1, sep, m, acc.push(f))
        } else {
            OutSeq::Done(acc.push(f), r)
        },
    }
}

/// The parse of a whole token stream.
pub open spec fn parse_stream(a: Seq<Tok>) -> Result<Form, ParseError> {
    match parse_at(a, 0, 0) {
        Out::Fail(e) => Err(e),
        Out::Done(f, q) => if a[q].kind == TokenKind::Eof {
            Ok(f)
        } else {
            Err(ParseError::TrailingTokens { at: a[q].start as u32 })
        },
    }
}

// ---- Token counts ------------------------------------------------------

/// Number of tokens an expression spans.
pub open spec fn nt(f: Form) -> int
    decreases f, 0int,
{
    match f.kind {
        FormKind::Atom(_) => 1,
        FormKind::Prefix { op, child } => 1 + nt(*child),
        FormKind::Binary { op, left, right } => nt(*left) + 1 + nt(*right),
        FormKind::Chain { op, operands } => lt(operands, operands.len() as int) - 1,
        FormKind::Ternary { cond, then, else_ } => nt(*cond) + nt(*then) + nt(*else_) + 2,
        FormKind::Paren { inner } => nt(*inner) + 2,
        FormKind::Call { callee, args } => nt(*callee) + 1 + (if args.len() == 0 {
            1
        } else {
            lt(args, args.len() as int)
        }),
        FormKind::Index { array, index } => nt(*array) + nt(*index) + 2,
        FormKind::Member { object, field } => nt(*object) + 2,
        FormKind::Missing => 0,
        FormKind::Error { skipped } => skipped.len() as int,
    }
}

/// Number of tokens of the first `k` list elements, each with one separator.
pub open spec fn lt(fs: Seq<Form>, k: int) -> int
    decreases fs, k,
{
    if 0 < k <= fs.len() {
        lt(fs, k - 1) + nt(fs[k - 1]) + 1
    } else {
        0
    }
}

/// `lt` looks at the first `k` elements only.
pub proof fn lemma_lt_prefix(fs: Seq<Form>, gs: Seq<Form>, k: int)
    requires
        0 <= k <= fs.len(),
        k <= gs.len(),
        forall|i: int| 0 <= i < k ==> fs[i] == gs[i],
    ensures
        lt(fs, k) == lt(gs, k),
    decreases k,
{
    if k > 0 {
        lemma_lt_prefix(fs, gs, k - 1);
    }
}

pub proof fn lemma_lt_skip(fs: Seq<Form>, i: int, k: int)
    requires
        0 <= i <= fs.len(),
        0 <= k <= fs.len() - i,
    ensures
        lt(fs.skip(i), k) == lt(fs, i + k) - lt(fs, i),
    decreases k,
{
    if k > 0 {
        lemma_lt_skip(fs, i, k - 1);
        assert(fs.skip(i)[k - 1] == fs[i + k - 1]);
    }
}

// ---- Well-formed streams and forms -------------------------------------

/// A token stream: `Eof` exactly at the end, spans in order and non-empty.
pub open spec fn toks_ok(a: Seq<Tok>) -> bool {
    &&& a.len() >= 1
    &&& a.last().kind == TokenKind::Eof
    &&& forall|i: int| 0 <= i < a.len() - 1 ==> (#[trigger] a[i]).kind != TokenKind::Eof
    &&& forall|i: int| 0 <= i < a.len() - 1 ==> (#[trigger] a[i]).start < a[i].end
    &&& forall|i: int, j: int|
        0 <= i < j < a.len() ==> (#[trigger] a[i]).end <= (#[trigger] a[j]).start
    &&& forall|i: int| 0 <= i < a.len() ==> 0 <= (#[trigger] a[i]).start <= a[i].end <= u32::MAX
}

pub open spec fn is_chain_of(f: Form, op: TokenKind) -> bool {
    f.kind matches FormKind::Chain { op: o, operands } && o == op
}

/// Chains are maximal: at least two operands, none a chain of the same
/// operator.
pub open spec fn form_ok(f: Form) -> bool
    decreases f,
{
    &&& 0 <= f.m_spine <= no_spine()
    &&& 0 <= f.stop_lbp <= 90
    &&& match f.kind {
        FormKind::Atom(_) => true,
        FormKind::Prefix { op, child } => form_ok(*child),
        FormKind::Binary { op, left, right } => !chain_kind(op) && form_ok(*left) && form_ok(
            *right,
        ),
        FormKind::Chain { op, operands } => {
            &&& chain_kind(op)
            &&& operands.len() >= 2
            &&& f.m_spine == lbp_of(op)
            &&& forall|i: int|
                0 <= i < operands.len() ==> form_ok(#[trigger] operands[i]) && !is_chain_of(
                    operands[i],
                    op,
                )
        },
        FormKind::Ternary { cond, then, else_ } => form_ok(*cond) && form_ok(*then) && form_ok(
            *else_,
        ),
        FormKind::Paren { inner } => form_ok(*inner),
        FormKind::Call { callee, args } => form_ok(*callee) && forall|i: int|
            0 <= i < args.len() ==> form_ok(#[trigger] args[i]),
        FormKind::Index { array, index } => form_ok(*array) && form_ok(*index),
        FormKind::Member { object, field } => form_ok(*object),
        FormKind::Missing => false,
        FormKind::Error { skipped } => false,
    }
}

/// What is known of an operand that spans tokens `p..q`.
pub open spec fn placed(a: Seq<Tok>, p: int, f: Form, q: int) -> bool {
    &&& 0 <= p < q < a.len()
    &&& q == p + nt(f)
    &&& f.width == span(a, p, q)
    &&& form_ok(f)
}

/// What holds of the operator loop's state.
pub open spec fn state_ok(a: Seq<Tok>, p: int, left: Form, spine: int, q: int) -> bool {
    &&& placed(a, p, left, q)
    &&& left.stop_lbp == lb(a, q)
    &&& left.m_spine == spine
    &&& spine <= no_spine()
    &&& lb(a, q) <= spine
    &&& !is_chain_of(left, a[q].kind)
}

/// First token of list element `i` when the list starts at token `p`.
pub open spec fn at(p: int, fs: Seq<Form>, i: int) -> int {
    p + lt(fs, i)
}

/// The list elements `fs` stand one after the other from token `p`, each
/// followed by one separator token.
pub open spec fn listed(a: Seq<Tok>, p: int, fs: Seq<Form>) -> bool {
    forall|i: int|
        0 <= i < fs.len() ==> {
            &&& placed(a, #[trigger] at(p, fs, i), fs[i], at(p, fs, i) + nt(fs[i]))
            &&& fs[i].stop_lbp == lb(a, at(p, fs, i) + nt(fs[i]))
        }
}

} // verus!
