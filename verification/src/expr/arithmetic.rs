//! What the operators compute.

use vstd::prelude::*;
use vstd::utf8::*;

use crate::expr::ast::{Shape, ShapeKind};
use crate::expr::lexer::TokenKind;
use crate::expr::meaning::{
    atom_meaning, binary_value, digits_value, law_chain_associative, number, prefix_value,
    value_of, Bindings,
};
use crate::expr::op::{chain_kind, lbp_of, postfix_kind};

verus! {

/// Sums, differences and products are those of the integers where those fit in 64 bits,
/// and else differ from them by a multiple of 2^64.
pub proof fn law_ring(a: i64, b: i64)
    ensures
        i64::MIN <= a + b <= i64::MAX ==> binary_value(TokenKind::Plus, a, b) == a + b,
        i64::MIN <= a - b <= i64::MAX ==> binary_value(TokenKind::Minus, a, b) == a - b,
        i64::MIN <= a * b <= i64::MAX ==> binary_value(TokenKind::Star, a, b) == a * b,
        (binary_value(TokenKind::Plus, a, b) - (a + b)) % 0x1_0000_0000_0000_0000 == 0,
        (binary_value(TokenKind::Minus, a, b) - (a - b)) % 0x1_0000_0000_0000_0000 == 0,
        (binary_value(TokenKind::Star, a, b) - (a * b)) % 0x1_0000_0000_0000_0000 == 0,
        prefix_value(TokenKind::Minus, b) == binary_value(TokenKind::Minus, 0, b),
        binary_value(TokenKind::Plus, binary_value(TokenKind::Minus, a, b), b) == a,
        binary_value(TokenKind::Plus, a, b) == binary_value(TokenKind::Plus, b, a),
        binary_value(TokenKind::Star, a, b) == binary_value(TokenKind::Star, b, a),
{
    let r: int = 0x1_0000_0000_0000_0000;
    let p = a * b;
    assert(a * b == b * a) by (nonlinear_arith);
    let m = p % r;
    let c = vstd::wrapping::i64_specs::signed_crop(p) as int;
    assert(c == binary_value(TokenKind::Star, a, b));
    vstd::arithmetic::div_mod::lemma_fundamental_div_mod(p, r);
    assert(p == r * (p / r) + m);
    if m > i64::MAX {
        assert(c - p == r * (-(p / r) - 1)) by (nonlinear_arith)
            requires
                c == m - r,
                p == r * (p / r) + m,
        ;
        vstd::arithmetic::div_mod::lemma_mod_multiples_basic(-(p / r) - 1, r);
    } else {
        assert(c - p == r * (-(p / r))) by (nonlinear_arith)
            requires
                c == m,
                p == r * (p / r) + m,
        ;
        vstd::arithmetic::div_mod::lemma_mod_multiples_basic(-(p / r), r);
    }
    assert((c - p) % r == 0) by {
        assert((-(p / r) - 1) * r == r * (-(p / r) - 1)) by (nonlinear_arith);
        assert((-(p / r)) * r == r * (-(p / r))) by (nonlinear_arith);
    }
}

/// Quotient and remainder make up the dividend; the remainder is smaller than the divisor
/// and has the sign of the dividend. Division by 0, and one that does not fit, gives 0.
pub proof fn law_division(a: i64, b: i64)
    ensures
        ({
            let q = binary_value(TokenKind::Slash, a, b);
            let r = binary_value(TokenKind::Percent, a, b);
            if b == 0 || a == i64::MIN && b == -1 {
                q == 0 && r == 0
            } else {
                &&& a == q * b + r
                &&& -r < (if b < 0 { -b } else { b as int })
                &&& r < (if b < 0 { -b } else { b as int })
                &&& r > 0 ==> a > 0
                &&& r < 0 ==> a < 0
            }
        }),
{
    if b != 0 {
        let (x, d) = (
            if a < 0 {
                -a
            } else {
                a as int
            },
            if b < 0 {
                -b
            } else {
                b as int
            },
        );
        vstd::arithmetic::div_mod::lemma_fundamental_div_mod(x, d);
        vstd::arithmetic::div_mod::lemma_mod_bound(x, d);
        vstd::arithmetic::div_mod::lemma_div_pos_is_pos(x, d);
        vstd::arithmetic::div_mod::lemma_div_is_ordered_by_denominator(x, 1, d);
        let (q, r) = (x / d, x % d);
        assert(x == d * q + r);
        assert(a * -1 == -a && b * -1 == -b);
        assert(x == q * d + r && -x == q * (-d) - r && -x == (-q) * d - r && x == (-q) * (-d) + r)
            by (nonlinear_arith)
            requires
                x == d * q + r,
        ;
        assert(q <= x) by {
            vstd::arithmetic::div_mod::lemma_div_nonincreasing(x, d);
        }
        if x == 0 {
            assert(q == 0 && r == 0) by {
                vstd::arithmetic::div_mod::lemma_div_of0(d);
            }
        }
        if a == i64::MIN && b == -1 {
            vstd::arithmetic::div_mod::lemma_div_by_self(x);
            assert(x / 1 == x);
        } else if a < 0 && b < 0 {
            assert(q <= i64::MAX) by {
                if a == i64::MIN {
                    assert(d >= 2);
                    assert(2 * q <= x) by (nonlinear_arith)
                        requires
                            x == d * q + r,
                            r >= 0,
                            d >= 2,
                            q >= 0,
                    ;
                }
            }
        }
    }
}

/// Powers: a number to the 0 is 1, to one more is one factor more; to less than 0 it is 0.
pub proof fn law_power(a: i64, e: i64)
    ensures
        binary_value(TokenKind::Caret, a, 0) == 1,
        0 <= e < i64::MAX ==> binary_value(TokenKind::Caret, a, (e + 1) as i64) == binary_value(
            TokenKind::Star,
            a,
            binary_value(TokenKind::Caret, a, e),
        ),
        e < 0 ==> binary_value(TokenKind::Caret, a, e) == 0,
{
    reveal_with_fuel(crate::expr::meaning::power, 2);
}

/// Comparisons tell how the numbers stand: 1 if so, else 0.
pub proof fn law_comparisons(a: i64, b: i64)
    ensures
        binary_value(TokenKind::Lt, a, b) == 1 <==> a < b,
        binary_value(TokenKind::Lt, a, b) == 0 <==> a >= b,
        binary_value(TokenKind::Gt, a, b) == binary_value(TokenKind::Lt, b, a),
        binary_value(TokenKind::LtEq, a, b) == prefix_value(
            TokenKind::Bang,
            binary_value(TokenKind::Gt, a, b),
        ),
        binary_value(TokenKind::GtEq, a, b) == binary_value(TokenKind::LtEq, b, a),
        binary_value(TokenKind::EqEq, a, b) == binary_value(
            TokenKind::AndAnd,
            binary_value(TokenKind::LtEq, a, b),
            binary_value(TokenKind::GtEq, a, b),
        ),
        binary_value(TokenKind::EqEq, a, b) == 1 <==> a == b,
        binary_value(TokenKind::BangEq, a, b) == prefix_value(
            TokenKind::Bang,
            binary_value(TokenKind::EqEq, a, b),
        ),
{
}

/// Logic: what is not 0 counts as true; results are 1 and 0.
pub proof fn law_logic(a: i64, b: i64)
    ensures
        prefix_value(TokenKind::Bang, a) == 1 <==> a == 0,
        prefix_value(TokenKind::Bang, a) == 0 <==> a != 0,
        binary_value(TokenKind::AndAnd, a, b) == 1 <==> a != 0 && b != 0,
        binary_value(TokenKind::AndAnd, a, b) == 0 <==> a == 0 || b == 0,
        binary_value(TokenKind::OrOr, a, b) == prefix_value(
            TokenKind::Bang,
            binary_value(
                TokenKind::AndAnd,
                prefix_value(TokenKind::Bang, a),
                prefix_value(TokenKind::Bang, b),
            ),
        ),
{
}

/// Three numbers that tell an operator from an associative one.
spec fn witness(op: TokenKind) -> (i64, i64, i64) {
    match op {
        TokenKind::Minus => (0, 0, 1),
        TokenKind::Slash => (8, 4, 2),
        TokenKind::Percent => (7, 5, 3),
        TokenKind::Caret => (2, 1, 2),
        TokenKind::EqEq => (2, 3, 0),
        TokenKind::BangEq => (2, 3, 1),
        TokenKind::LtEq | TokenKind::GtEq => (0, 0, 0),
        _ => (1, 0, 1),
    }
}

/// The operators whose chains may be regrouped are exactly the associative ones.
pub proof fn law_chains_are_associative(op: TokenKind)
    requires
        lbp_of(op) > 0,
        !postfix_kind(op),
        op != TokenKind::Question,
    ensures
        chain_kind(op) <==> forall|x: i64, y: i64, z: i64| #[trigger]
            binary_value(op, binary_value(op, x, y), z) == binary_value(
                op,
                x,
                binary_value(op, y, z),
            ),
{
    if chain_kind(op) {
        assert forall|x: i64, y: i64, z: i64| #[trigger]
            binary_value(op, binary_value(op, x, y), z) == binary_value(
            op,
            x,
            binary_value(op, y, z),
        ) by {
            law_chain_associative(op, x, y, z);
        }
    } else {
        let (x, y, z) = witness(op);
        reveal_with_fuel(crate::expr::meaning::power, 4);
        let (p, q) = (binary_value(op, x, y), binary_value(op, y, z));
        if op == TokenKind::Caret {
            law_power(2, 0);
            law_power(2, 1);
            law_power(1, 0);
            law_power(1, 1);
            law_ring(2, 1);
            law_ring(2, 2);
            law_ring(1, 1);
            assert(p == 2 && q == 1);
        } else if op == TokenKind::Minus {
            law_ring(0, 0);
            law_ring(0, 1);
            law_ring(0, q);
        } else if op == TokenKind::Slash {
            assert(8int / 4 == 2 && 4int / 2 == 2 && 2int / 2 == 1 && 8int / 2 == 4);
        } else if op == TokenKind::Percent {
            assert(7int % 5 == 2 && 5int % 3 == 2 && 2int % 3 == 2 && 7int % 2 == 1);
        }
        assert(binary_value(op, p, z) != binary_value(op, x, q));
    }
}

// ---- Expressions -------------------------------------------------------

/// The value of a tree is what its outermost form makes of the values of its parts: a
/// parenthesis changes nothing, a choice is its second part where the first is not 0 and
/// else its third, an index is added, a call and a member are what they are made on.
pub proof fn law_values(t: Shape, env: Bindings)
    ensures
        match t.kind {
            ShapeKind::Atom(s) => value_of(t, env) == atom_meaning(s, env),
            ShapeKind::Prefix { op, child } => value_of(t, env) == prefix_value(
                op,
                value_of(*child, env),
            ),
            ShapeKind::Binary { op, left, right } => value_of(t, env) == binary_value(
                op,
                value_of(*left, env),
                value_of(*right, env),
            ),
            ShapeKind::Ternary { cond, then, else_ } => {
                &&& value_of(*cond, env) != 0 ==> value_of(t, env) == value_of(*then, env)
                &&& value_of(*cond, env) == 0 ==> value_of(t, env) == value_of(*else_, env)
            },
            ShapeKind::Paren { inner } => value_of(t, env) == value_of(*inner, env),
            ShapeKind::Call { callee, args } => value_of(t, env) == value_of(*callee, env),
            ShapeKind::Index { array, index } => value_of(t, env) == binary_value(
                TokenKind::Plus,
                value_of(*array, env),
                value_of(*index, env),
            ),
            ShapeKind::Member { object, field } => value_of(t, env) == value_of(*object, env),
            ShapeKind::Missing => value_of(t, env) == 0,
            ShapeKind::Error { skipped } => value_of(t, env) == 0,
        },
{
}

/// A name has the value it is bound to, 0 if it is bound to none; binding one name changes
/// no other.
pub proof fn law_names(env: Bindings, name: Seq<char>, other: Seq<char>, v: i64)
    requires
        number(encode_utf8(name)) is None,
        number(encode_utf8(other)) is None,
        name != other,
    ensures
        atom_meaning(name, env.insert(name, v)) == v,
        atom_meaning(other, env.insert(name, v)) == atom_meaning(other, env),
        atom_meaning(name, Map::empty()) == 0,
{
}

/// The value of a digit.
pub open spec fn digit(b: u8) -> int {
    b - '0' as u8
}

/// All bytes are digits.
pub open spec fn digits(b: Seq<u8>) -> bool {
    forall|i: int| 0 <= i < b.len() ==> '0' as u8 <= #[trigger] b[i] <= '9' as u8
}

proof fn lemma_digits_push(b: Seq<u8>, c: u8, i: int, acc: int)
    requires
        digits(b),
        '0' as u8 <= c <= '9' as u8,
        0 <= i <= b.len(),
        acc >= 0,
    ensures
        digits_value(b, i, acc) is Some,
        digits_value(b, i, acc)->0 >= 0,
        digits_value(b.push(c), i, acc) == Some(digits_value(b, i, acc)->0 * 10 + digit(c)),
    decreases b.len() - i,
{
    if i < b.len() {
        assert(b.push(c)[i] == b[i]);
        lemma_digits_push(b, c, i + 1, acc * 10 + digit(b[i]));
    } else {
        reveal_with_fuel(digits_value, 2);
        assert(b.push(c)[i] == c);
    }
}

/// Numbers are read in decimal: a further digit makes ten times the number and the digit.
pub proof fn law_decimal(b: Seq<u8>, c: u8)
    requires
        digits(b),
        '0' as u8 <= c <= '9' as u8,
    ensures
        b.len() == 0 ==> number(b.push(c)) == Some(digit(c) as i64),
        b.len() > 0 ==> match number(b) {
            Some(v) => if v * 10 + digit(c) <= i64::MAX {
                number(b.push(c)) == Some((v * 10 + digit(c)) as i64)
            } else {
                number(b.push(c)) is None
            },
            None => number(b.push(c)) is None,
        },
        number(Seq::empty()) is None,
{
    lemma_digits_push(b, c, 0, 0);
    let d = b.push(c);
    if b.len() > 0 {
        assert(d[0] == b[0]);
        assert('0' as u8 <= b[0]);
    } else {
        assert(d[0] == c);
        assert(digits_value(b, 0, 0) == Some(0int));
    }
}

/// What is no run of digits, with a sign at most, is no number: names are not.
pub proof fn law_names_are_no_numbers(b: Seq<u8>)
    requires
        b.len() > 0,
        crate::expr::lexical::letter_byte(b[0]),
    ensures
        number(b) is None,
{
}

} // verus!
