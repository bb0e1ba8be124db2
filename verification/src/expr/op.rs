//! Operator table: binding powers and conflict classes.

use vstd::prelude::*;

use crate::expr::lexer::TokenKind;

verus! {

/// Lowest `min_prec`: every operator is absorbed.
pub const MIN_PREC: u32 = 0;

/// Left-binding power of a token that is no operator.
pub const LBP_NONE: u32 = 0;

/// Conflict class of an operator.
#[derive(Debug, Clone, Copy, PartialEq, Eq, Structural)]
pub enum OperatorClass {
    Strong,
    Weak,
    AssociativityConflict,
}

pub open spec fn lbp_of(kind: TokenKind) -> u32 {
    match kind {
        TokenKind::Question => 5,
        TokenKind::OrOr => 10,
        TokenKind::AndAnd => 20,
        TokenKind::EqEq | TokenKind::BangEq => 30,
        TokenKind::Lt | TokenKind::Gt | TokenKind::LtEq | TokenKind::GtEq => 40,
        TokenKind::Plus | TokenKind::Minus => 50,
        TokenKind::Star | TokenKind::Slash | TokenKind::Percent => 60,
        TokenKind::Caret => 70,
        TokenKind::LParen | TokenKind::LBracket | TokenKind::Dot => 90,
        _ => LBP_NONE,
    }
}

pub open spec fn rbp_of(kind: TokenKind) -> u32 {
    if kind == TokenKind::Caret || kind == TokenKind::Question {
        (lbp_of(kind) - 1) as u32
    } else {
        lbp_of(kind)
    }
}

pub open spec fn postfix_kind(kind: TokenKind) -> bool {
    kind == TokenKind::LParen || kind == TokenKind::LBracket || kind == TokenKind::Dot
}

pub open spec fn prefix_kind(kind: TokenKind) -> bool {
    kind == TokenKind::Minus || kind == TokenKind::Bang || kind == TokenKind::LParen || kind
        == TokenKind::Int || kind == TokenKind::Ident
}

pub open spec fn prefix_rbp_of(kind: TokenKind) -> u32 {
    if kind == TokenKind::Minus || kind == TokenKind::Bang {
        80
    } else {
        0
    }
}

pub open spec fn chain_kind(kind: TokenKind) -> bool {
    kind == TokenKind::Plus || kind == TokenKind::Star || kind == TokenKind::AndAnd || kind
        == TokenKind::OrOr
}

pub open spec fn class_of(kind: TokenKind) -> OperatorClass {
    if chain_kind(kind) {
        OperatorClass::AssociativityConflict
    } else if lbp_of(kind) > 0 {
        OperatorClass::Weak
    } else {
        OperatorClass::Strong
    }
}

/// Left-binding power: how tightly `kind` binds the operand to its left.
pub fn lbp(kind: TokenKind) -> (r: u32)
    ensures
        r == lbp_of(kind),
{
    match kind {
        TokenKind::Question => 5,
        TokenKind::OrOr => 10,
        TokenKind::AndAnd => 20,
        TokenKind::EqEq | TokenKind::BangEq => 30,
        TokenKind::Lt | TokenKind::Gt | TokenKind::LtEq | TokenKind::GtEq => 40,
        TokenKind::Plus | TokenKind::Minus => 50,
        TokenKind::Star | TokenKind::Slash | TokenKind::Percent => 60,
        TokenKind::Caret => 70,
        TokenKind::LParen | TokenKind::LBracket | TokenKind::Dot => 90,
        _ => LBP_NONE,
    }
}

/// Whether `kind` opens a call, an index or a member access.
pub fn is_postfix(kind: TokenKind) -> (r: bool)
    ensures
        r == postfix_kind(kind),
{
    matches!(kind, TokenKind::LParen | TokenKind::LBracket | TokenKind::Dot)
}

/// Right-binding power: the `min_prec` of the right operand. One below the
/// left-binding power for right-associative operators.
pub fn rbp(kind: TokenKind) -> (r: u32)
    ensures
        r == rbp_of(kind),
{
    match kind {
        TokenKind::Caret => lbp(kind) - 1,
        TokenKind::Question => lbp(kind) - 1,
        _ => lbp(kind),
    }
}

/// Whether `kind` continues an expression to its left with a further operand:
/// it binds, and is no postfix operator.
pub fn is_infix(kind: TokenKind) -> (r: bool)
    ensures
        r == (lbp_of(kind) > 0 && !postfix_kind(kind)),
{
    lbp(kind) > LBP_NONE && !is_postfix(kind)
}

/// Whether an expression can start with `kind`.
pub fn is_prefix(kind: TokenKind) -> (r: bool)
    ensures
        r == prefix_kind(kind),
{
    matches!(
        kind,
        TokenKind::Minus | TokenKind::Bang | TokenKind::LParen | TokenKind::Int | TokenKind::Ident
    )
}

/// The `min_prec` of a prefix operator's operand.
pub fn prefix_rbp(kind: TokenKind) -> (r: u32)
    ensures
        r == prefix_rbp_of(kind),
{
    match kind {
        TokenKind::Minus | TokenKind::Bang => 80,
        _ => 0,
    }
}

/// Conflict class of `kind`.
pub fn operator_class(kind: TokenKind) -> (r: OperatorClass)
    ensures
        r == class_of(kind),
{
    match kind {
        TokenKind::Plus | TokenKind::Star | TokenKind::AndAnd | TokenKind::OrOr => {
            OperatorClass::AssociativityConflict
        },
        TokenKind::Minus
        | TokenKind::Slash
        | TokenKind::Percent
        | TokenKind::EqEq
        | TokenKind::BangEq
        | TokenKind::Lt
        | TokenKind::Gt
        | TokenKind::LtEq
        | TokenKind::GtEq
        | TokenKind::Caret
        | TokenKind::Question
        | TokenKind::LParen
        | TokenKind::LBracket
        | TokenKind::Dot => OperatorClass::Weak,
        _ => OperatorClass::Strong,
    }
}

/// Whether chains of `kind` may be regrouped without changing their value.
pub fn is_associativity_conflict(kind: TokenKind) -> (r: bool)
    ensures
        r == chain_kind(kind),
{
    matches!(operator_class(kind), OperatorClass::AssociativityConflict)
}

/// Synonym of `is_associativity_conflict`.
pub fn is_associative(kind: TokenKind) -> (r: bool)
    ensures
        r == chain_kind(kind),
{
    is_associativity_conflict(kind)
}

/// Binding powers never exceed that of the postfix operators, and a right
/// operand never admits an operator looser than the one it belongs to.
pub proof fn law_binding_powers(kind: TokenKind)
    ensures
        lbp_of(kind) <= 90,
        postfix_kind(kind) ==> lbp_of(kind) == 90,
        rbp_of(kind) <= lbp_of(kind),
        chain_kind(kind) ==> rbp_of(kind) == lbp_of(kind) && lbp_of(kind) > 0,
{
}

/// A prefix operator applies to the operand right after it, with all calls, indices
/// and members of that: it binds tighter than every operator between operands and
/// looser than every postfix one.
pub proof fn law_prefix_binds(p: TokenKind, k: TokenKind)
    requires
        p == TokenKind::Minus || p == TokenKind::Bang,
    ensures
        lbp_of(k) > 0 && !postfix_kind(k) ==> lbp_of(k) < prefix_rbp_of(p),
        postfix_kind(k) ==> prefix_rbp_of(p) < lbp_of(k),
{
}

/// `==` and `!=`.
pub open spec fn equates(k: TokenKind) -> bool {
    k == TokenKind::EqEq || k == TokenKind::BangEq
}

/// The comparisons of order.
pub open spec fn compares(k: TokenKind) -> bool {
    k == TokenKind::Lt || k == TokenKind::Gt || k == TokenKind::LtEq || k == TokenKind::GtEq
}

/// `+` and `-`.
pub open spec fn sums(k: TokenKind) -> bool {
    k == TokenKind::Plus || k == TokenKind::Minus
}

/// `*`, `/` and `%`.
pub open spec fn multiplies(k: TokenKind) -> bool {
    k == TokenKind::Star || k == TokenKind::Slash || k == TokenKind::Percent
}

/// From the loosest to the tightest: the choice, or, and, equality, order, sums,
/// products, powers, prefix and postfix operators. Operators of one kind bind alike;
/// each kind binds ten tighter than the one before, the choice half as tight as or.
pub proof fn law_precedence_order(e: TokenKind, c: TokenKind, s: TokenKind, m: TokenKind, p: TokenKind)
    requires
        equates(e),
        compares(c),
        sums(s),
        multiplies(m),
        postfix_kind(p),
    ensures
        0 < lbp_of(TokenKind::Question) < lbp_of(TokenKind::OrOr),
        2 * lbp_of(TokenKind::Question) == lbp_of(TokenKind::OrOr),
        lbp_of(TokenKind::AndAnd) == lbp_of(TokenKind::OrOr) + 10,
        lbp_of(e) == lbp_of(TokenKind::AndAnd) + 10,
        lbp_of(c) == lbp_of(e) + 10,
        lbp_of(s) == lbp_of(c) + 10,
        lbp_of(m) == lbp_of(s) + 10,
        lbp_of(TokenKind::Caret) == lbp_of(m) + 10,
        prefix_rbp_of(TokenKind::Minus) == lbp_of(TokenKind::Caret) + 10,
        prefix_rbp_of(TokenKind::Bang) == lbp_of(TokenKind::Caret) + 10,
        lbp_of(p) == prefix_rbp_of(TokenKind::Minus) + 10,
{
}

/// No other token binds: an operand, a closing bracket, a separator or the end of the
/// source ends an expression. What opens a bracket or a member follows its operand.
pub proof fn law_what_binds(k: TokenKind)
    ensures
        lbp_of(k) > 0 <==> equates(k) || compares(k) || sums(k) || multiplies(k) || postfix_kind(k)
            || k == TokenKind::Question || k == TokenKind::OrOr || k == TokenKind::AndAnd || k
            == TokenKind::Caret,
        postfix_kind(k) <==> k == TokenKind::LParen || k == TokenKind::LBracket || k
            == TokenKind::Dot,
        prefix_rbp_of(k) > 0 <==> prefix_kind(k) && k != TokenKind::Int && k != TokenKind::Ident
            && k != TokenKind::LParen,
        prefix_kind(TokenKind::Int) && prefix_kind(TokenKind::Ident) && prefix_kind(
            TokenKind::LParen,
        ) && prefix_kind(TokenKind::Minus) && prefix_kind(TokenKind::Bang),
        prefix_kind(k) ==> !postfix_kind(k) || k == TokenKind::LParen,
        prefix_kind(k) && lbp_of(k) > 0 ==> k == TokenKind::LParen || k == TokenKind::Minus,
{
}

/// Powers and choices group to the right, all others to the left: the right operand
/// takes a further operator of the same power exactly for those two, and never a looser
/// one.
pub proof fn law_associativity(k: TokenKind, j: TokenKind)
    requires
        lbp_of(k) > 0,
    ensures
        lbp_of(j) == lbp_of(k) ==> (lbp_of(j) > rbp_of(k) <==> k == TokenKind::Caret || k
            == TokenKind::Question),
        lbp_of(j) < lbp_of(k) ==> lbp_of(j) <= rbp_of(k),
        lbp_of(j) > lbp_of(k) ==> lbp_of(j) > rbp_of(k),
        lbp_of(k) - rbp_of(k) <= 1,
{
}

/// The classes part the tokens: what does not bind is strong; of what binds, only `+`,
/// `*`, `&&` and `||` may be regrouped.
pub proof fn law_classes(k: TokenKind)
    ensures
        class_of(k) is Strong <==> lbp_of(k) == 0,
        class_of(k) is AssociativityConflict <==> chain_kind(k),
        chain_kind(k) ==> lbp_of(k) > 0 && !postfix_kind(k) && rbp_of(k) == lbp_of(k),
{
}

} // verus!
