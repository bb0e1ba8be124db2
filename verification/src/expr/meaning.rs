//! What an expression evaluates to under an environment.

use vstd::prelude::*;
use vstd::string::*;
use vstd::utf8::*;

use crate::ascii::{DIGIT_0, DIGIT_9, MINUS, PLUS};
use crate::expr::ast::{Shape, ShapeKind};
use crate::expr::grammar::{Form, FormKind};
use crate::expr::lexer::TokenKind;
use crate::expr::op::chain_kind;
use crate::expr::shape::{flat, is_bin, lemma_flat_nonempty, lemma_norm_call, norm};

verus! {

// ---- Integer literals --------------------------------------------------

/// The number that decimal digits `i..` of `b` continue `acc` to; `None` if
/// one is no digit.
pub open spec fn digits_value(b: Seq<u8>, i: int, acc: int) -> Option<int>
    decreases b.len() - i,
{
    if i >= b.len() {
        Some(acc)
    } else if DIGIT_0 <= b[i] <= DIGIT_9 {
        digits_value(b, i + 1, acc * 10 + (b[i] - DIGIT_0))
    } else {
        None
    }
}

/// The 64-bit integer that `b` writes in decimal: an optional sign and at
/// least one digit.
pub open spec fn number(b: Seq<u8>) -> Option<i64> {
    let signed = b.len() > 0 && (b[0] == MINUS || b[0] == PLUS);
    let first = if signed {
        1int
    } else {
        0int
    };
    if first >= b.len() {
        None
    } else {
        match digits_value(b, first, 0) {
            None => None,
            Some(v) => {
                let x = if b[0] == MINUS {
                    -v
                } else {
                    v
                };
                if i64::MIN <= x <= i64::MAX {
                    Some(x as i64)
                } else {
                    None
                }
            },
        }
    }
}

proof fn lemma_digits_grow(b: Seq<u8>, i: int, acc: int)
    requires
        0 <= i,
        acc >= 0,
    ensures
        digits_value(b, i, acc) matches Some(v) ==> v >= acc,
    decreases b.len() - i,
{
    if i < b.len() && DIGIT_0 <= b[i] <= DIGIT_9 {
        lemma_digits_grow(b, i + 1, acc * 10 + (b[i] - DIGIT_0));
    }
}

/// Read a decimal integer.
pub fn parse_i64(s: &str) -> (r: Option<i64>)
    ensures
        r == number(s.spec_bytes()),
{
    let b = s.as_bytes();
    let n: usize = b.len();
    let signed: bool = n > 0 && (b[0] == MINUS || b[0] == PLUS);
    let mut i: usize = if signed {
        1
    } else {
        0
    };
    if i >= n {
        return None;
    }
    let negative: bool = b[0] == MINUS;
    let ghost first = i as int;
    let mut acc: i128 = 0;
    while i < n
        invariant
            b@ == s.spec_bytes(),
            n == b@.len(),
            first <= i <= n,
            n > 0,
            first < n,
            negative == (b@[0] == MINUS),
            first == (if b@[0] == MINUS || b@[0] == PLUS {
                1int
            } else {
                0int
            }),
            0 <= acc <= 9223372036854775808,
            digits_value(b@, first, 0) == digits_value(b@, i as int, acc as int),
        decreases n - i,
    {
        let c: u8 = b[i];
        if c < DIGIT_0 || c > DIGIT_9 {
            return None;
        }
        let next: i128 = acc * 10 + (c - DIGIT_0) as i128;
        proof {
            assert(digits_value(b@, i as int, acc as int) == digits_value(b@, i + 1, next as int));
        }
        if next > 9223372036854775808 {
            proof {
                lemma_digits_grow(b@, i + 1, next as int);
            }
            return None;
        }
        acc = next;
        i = i + 1;
    }
    if negative {
        if acc == 9223372036854775808 {
            return Some(i64::MIN);
        }
        Some(-(acc as i64))
    } else if acc <= 9223372036854775807 {
        Some(acc as i64)
    } else {
        None
    }
}

// ---- Powers ------------------------------------------------------------

/// `a` to the `e`, in 64-bit two's complement arithmetic.
pub open spec fn power(a: i64, e: int) -> i64
    decreases e,
{
    if e <= 0 {
        1
    } else {
        a.wrapping_mul(power(a, e - 1))
    }
}

/// Equal remainders give equal products modulo `r`.
proof fn lemma_mod_mul(x: int, y: int, z: int, r: int)
    requires
        r > 0,
        x % r == y % r,
    ensures
        (x * z) % r == (y * z) % r,
{
    vstd::arithmetic::div_mod::lemma_mul_mod_noop_left(x, z, r);
    vstd::arithmetic::div_mod::lemma_mul_mod_noop_left(y, z, r);
}

/// A product cropped to 64 bits has the product's remainder modulo 2^64.
proof fn lemma_crop(x: int)
    ensures
        (vstd::wrapping::i64_specs::signed_crop(x) as int) % 0x1_0000_0000_0000_0000 == x
            % 0x1_0000_0000_0000_0000,
{
    let r: int = 0x1_0000_0000_0000_0000;
    let m = x % r;
    assert(0 <= m < r);
    if m > i64::MAX {
        vstd::arithmetic::div_mod::lemma_mod_add_multiples_vanish(m - r, r);
        assert((m - r) % r == m % r);
    }
    vstd::arithmetic::div_mod::lemma_small_mod(m as nat, r as nat);
}

/// Wrapping multiplication is a commutative monoid.
proof fn lemma_wrapping_mul(x: i64, y: i64, z: i64)
    ensures
        x.wrapping_mul(y).wrapping_mul(z) == x.wrapping_mul(y.wrapping_mul(z)),
        x.wrapping_mul(y) == y.wrapping_mul(x),
        1i64.wrapping_mul(x) == x,
{
    let r: int = 0x1_0000_0000_0000_0000;
    let xy = x.wrapping_mul(y) as int;
    let yz = y.wrapping_mul(z) as int;
    lemma_crop(x * y);
    lemma_crop(y * z);
    assert(x * y == y * x) by (nonlinear_arith);
    lemma_mod_mul(xy, x * y, z as int, r);
    lemma_mod_mul(yz, y * z, x as int, r);
    assert((y * z) * x == (x * y) * z) by (nonlinear_arith);
    assert(yz * x == x * yz) by (nonlinear_arith);
    assert(1 * x == x);
    let m = (x as int) % r;
    if x >= 0 {
        vstd::arithmetic::div_mod::lemma_small_mod(x as nat, r as nat);
    } else {
        vstd::arithmetic::div_mod::lemma_mod_add_multiples_vanish(x as int, r);
        vstd::arithmetic::div_mod::lemma_small_mod((x + r) as nat, r as nat);
    }
}

/// Splitting an exponent.
proof fn lemma_power_sum(a: i64, d: int, e: int)
    requires
        d >= 0,
        e >= 0,
    ensures
        power(a, d + e) == power(a, d).wrapping_mul(power(a, e)),
    decreases d,
{
    if d == 0 {
        lemma_wrapping_mul(power(a, e), 1, 1);
    } else {
        lemma_power_sum(a, d - 1, e);
        lemma_wrapping_mul(a, power(a, d - 1), power(a, e));
    }
}

/// The power of a square.
proof fn lemma_power_square(a: i64, e: int)
    requires
        e >= 0,
    ensures
        power(a.wrapping_mul(a), e) == power(a, 2 * e),
    decreases e,
{
    if e > 0 {
        lemma_power_square(a, e - 1);
        let p = power(a, 2 * e - 2);
        assert(power(a, 2 * e - 1) == a.wrapping_mul(p));
        assert(power(a, 2 * e) == a.wrapping_mul(power(a, 2 * e - 1)));
        lemma_wrapping_mul(a, a, p);
    }
}

/// `a` to the `b`; 0 if `b` is negative.
pub fn ipow(a: i64, b: i64) -> (r: i64)
    ensures
        r == (if b < 0 {
            0i64
        } else {
            power(a, b as int)
        }),
{
    if b < 0 {
        return 0;
    }
    let mut r: i64 = 1;
    let mut base: i64 = a;
    let mut e: u64 = b as u64;
    proof {
        lemma_wrapping_mul(power(a, b as int), 1, 1);
    }
    while e > 0
        invariant
            r.wrapping_mul(power(base, e as int)) == power(a, b as int),
        decreases e,
    {
        let half: u64 = e / 2;
        proof {
            lemma_power_square(base, half as int);
        }
        if e % 2 == 1 {
            proof {
                assert(e == 2 * half + 1);
                lemma_wrapping_mul(r, base, power(base, 2 * half));
            }
            r = r.wrapping_mul(base);
        }
        base = base.wrapping_mul(base);
        e = half;
    }
    proof {
        lemma_wrapping_mul(r, 1, 1);
    }
    r
}

// ---- Operators ---------------------------------------------------------

pub open spec fn flag(b: bool) -> i64 {
    if b {
        1
    } else {
        0
    }
}

pub open spec fn or_zero(x: Option<i64>) -> i64 {
    match x {
        Some(v) => v,
        None => 0,
    }
}

pub open spec fn prefix_value(op: TokenKind, x: i64) -> i64 {
    match op {
        TokenKind::Minus => 0i64.wrapping_sub(x),
        TokenKind::Bang => flag(x == 0),
        _ => x,
    }
}

pub open spec fn binary_value(op: TokenKind, a: i64, b: i64) -> i64 {
    match op {
        TokenKind::Plus => a.wrapping_add(b),
        TokenKind::Minus => a.wrapping_sub(b),
        TokenKind::Star => a.wrapping_mul(b),
        TokenKind::Slash => or_zero(a.checked_div(b)),
        TokenKind::Percent => or_zero(a.checked_rem(b)),
        TokenKind::Caret => if b < 0 {
            0
        } else {
            power(a, b as int)
        },
        TokenKind::AndAnd => flag(a != 0 && b != 0),
        TokenKind::OrOr => flag(a != 0 || b != 0),
        TokenKind::EqEq => flag(a == b),
        TokenKind::BangEq => flag(a != b),
        TokenKind::Lt => flag(a < b),
        TokenKind::Gt => flag(a > b),
        TokenKind::LtEq => flag(a <= b),
        TokenKind::GtEq => flag(a >= b),
        _ => 0,
    }
}

/// An environment as a map.
pub type Bindings = Map<Seq<char>, i64>;

/// The value of a name; 0 if it is not bound.
pub open spec fn lookup(env: Bindings, name: Seq<char>) -> i64 {
    if env.contains_key(name) {
        env[name]
    } else {
        0
    }
}

/// The value of an atom: a literal, or a name.
pub open spec fn atom_meaning(s: Seq<char>, env: Bindings) -> i64 {
    match number(encode_utf8(s)) {
        Some(v) => v,
        None => lookup(env, s),
    }
}

/// The value of a tree.
pub open spec fn value_of(t: Shape, env: Bindings) -> i64
    decreases t,
{
    match t.kind {
        ShapeKind::Atom(s) => atom_meaning(s, env),
        ShapeKind::Prefix { op, child } => prefix_value(op, value_of(*child, env)),
        ShapeKind::Binary { op, left, right } => binary_value(
            op,
            value_of(*left, env),
            value_of(*right, env),
        ),
        ShapeKind::Ternary { cond, then, else_ } => if value_of(*cond, env) != 0 {
            value_of(*then, env)
        } else {
            value_of(*else_, env)
        },
        ShapeKind::Paren { inner } => value_of(*inner, env),
        ShapeKind::Call { callee, args } => value_of(*callee, env),
        ShapeKind::Index { array, index } => value_of(*array, env).wrapping_add(
            value_of(*index, env),
        ),
        ShapeKind::Member { object, field } => value_of(*object, env),
        ShapeKind::Missing => 0,
        ShapeKind::Error { skipped } => 0,
    }
}

fn bit(b: bool) -> (r: i64)
    ensures
        r == flag(b),
{
    if b {
        1
    } else {
        0
    }
}

pub fn apply_prefix(op: TokenKind, x: i64) -> (r: i64)
    ensures
        r == prefix_value(op, x),
{
    match op {
        TokenKind::Minus => 0i64.wrapping_sub(x),
        TokenKind::Bang => bit(x == 0),
        _ => x,
    }
}

pub fn apply_binary(op: TokenKind, a: i64, b: i64) -> (r: i64)
    ensures
        r == binary_value(op, a, b),
{
    match op {
        TokenKind::Plus => a.wrapping_add(b),
        TokenKind::Minus => a.wrapping_sub(b),
        TokenKind::Star => a.wrapping_mul(b),
        TokenKind::Slash => match a.checked_div(b) {
            Some(v) => v,
            None => 0,
        },
        TokenKind::Percent => match a.checked_rem(b) {
            Some(v) => v,
            None => 0,
        },
        TokenKind::Caret => ipow(a, b),
        TokenKind::AndAnd => bit(a != 0 && b != 0),
        TokenKind::OrOr => bit(a != 0 || b != 0),
        TokenKind::EqEq => bit(a == b),
        TokenKind::BangEq => bit(a != b),
        TokenKind::Lt => bit(a < b),
        TokenKind::Gt => bit(a > b),
        TokenKind::LtEq => bit(a <= b),
        TokenKind::GtEq => bit(a >= b),
        _ => 0,
    }
}

// ---- Grouping ----------------------------------------------------------

/// The value of an expression; a chain is evaluated from the left.
pub open spec fn form_value(f: Form, env: Bindings) -> i64
    decreases f, 0int,
{
    match f.kind {
        FormKind::Atom(s) => atom_meaning(s, env),
        FormKind::Prefix { op, child } => prefix_value(op, form_value(*child, env)),
        FormKind::Chain { op, operands } => chain_value(op, operands, operands.len() as int, env),
        FormKind::Binary { op, left, right } => binary_value(
            op,
            form_value(*left, env),
            form_value(*right, env),
        ),
        FormKind::Ternary { cond, then, else_ } => if form_value(*cond, env) != 0 {
            form_value(*then, env)
        } else {
            form_value(*else_, env)
        },
        FormKind::Paren { inner } => form_value(*inner, env),
        FormKind::Call { callee, args } => form_value(*callee, env),
        FormKind::Index { array, index } => form_value(*array, env).wrapping_add(
            form_value(*index, env),
        ),
        FormKind::Member { object, field } => form_value(*object, env),
        FormKind::Missing => 0,
        FormKind::Error { skipped } => 0,
    }
}

/// The value of the first `k` operands of a chain.
pub open spec fn chain_value(op: TokenKind, fs: Seq<Form>, k: int, env: Bindings) -> i64
    decreases fs, k,
{
    if 0 < k <= fs.len() {
        if k == 1 {
            form_value(fs[0], env)
        } else {
            binary_value(op, chain_value(op, fs, k - 1, env), form_value(fs[k - 1], env))
        }
    } else {
        0
    }
}

/// Wrapping addition is associative.
proof fn lemma_wrapping_add(x: i64, y: i64, z: i64)
    ensures
        x.wrapping_add(y).wrapping_add(z) == x.wrapping_add(y.wrapping_add(z)),
{
}

/// The chain operators are associative.
pub proof fn law_chain_associative(op: TokenKind, x: i64, y: i64, z: i64)
    requires
        chain_kind(op),
    ensures
        binary_value(op, binary_value(op, x, y), z) == binary_value(op, x, binary_value(op, y, z)),
{
    lemma_wrapping_add(x, y, z);
    lemma_wrapping_mul(x, y, z);
}

proof fn lemma_chain_prefix(op: TokenKind, fs: Seq<Form>, gs: Seq<Form>, k: int, env: Bindings)
    requires
        0 <= k <= fs.len(),
        k <= gs.len(),
        forall|i: int| 0 <= i < k ==> fs[i] == gs[i],
    ensures
        chain_value(op, fs, k, env) == chain_value(op, gs, k, env),
    decreases k,
{
    if k > 0 {
        lemma_chain_prefix(op, fs, gs, k - 1, env);
    }
}

/// The value of two chains in a row.
proof fn lemma_chain_concat(op: TokenKind, fs: Seq<Form>, gs: Seq<Form>, k: int, env: Bindings)
    requires
        chain_kind(op),
        fs.len() >= 1,
        1 <= k <= gs.len(),
    ensures
        chain_value(op, fs + gs, fs.len() + k, env) == binary_value(
            op,
            chain_value(op, fs, fs.len() as int, env),
            chain_value(op, gs, k, env),
        ),
    decreases k,
{
    let all = fs + gs;
    let n = fs.len() as int;
    assert(all[n + k - 1] == gs[k - 1]);
    if k == 1 {
        lemma_chain_prefix(op, all, fs, n, env);
    } else {
        lemma_chain_concat(op, fs, gs, k - 1, env);
        law_chain_associative(
            op,
            chain_value(op, fs, n, env),
            chain_value(op, gs, k - 1, env),
            form_value(gs[k - 1], env),
        );
    }
}

proof fn lemma_value_flat(t: Shape, op: TokenKind, env: Bindings)
    requires
        chain_kind(op),
    ensures
        value_of(t, env) == chain_value(op, flat(t, op), flat(t, op).len() as int, env),
    decreases t, 1int,
{
    lemma_flat_nonempty(t, op);
    if is_bin(t, op) {
        if let ShapeKind::Binary { op: o, left, right } = t.kind {
            lemma_value_flat(*left, op, env);
            lemma_value_flat(*right, op, env);
            lemma_flat_nonempty(*left, op);
            lemma_flat_nonempty(*right, op);
            lemma_chain_concat(op, flat(*left, op), flat(*right, op), flat(*right, op).len() as int, env);
        }
    } else {
        lemma_value_norm(t, env);
    }
}

/// A tree has the value of the expression it stands for.
pub proof fn lemma_value_norm(t: Shape, env: Bindings)
    ensures
        value_of(t, env) == form_value(norm(t), env),
    decreases t, 0int,
{
    match t.kind {
        ShapeKind::Atom(s) => {},
        ShapeKind::Prefix { op, child } => {
            lemma_value_norm(*child, env);
        },
        ShapeKind::Binary { op, left, right } => {
            if chain_kind(op) {
                lemma_value_flat(*left, op, env);
                lemma_value_flat(*right, op, env);
                lemma_flat_nonempty(*left, op);
                lemma_flat_nonempty(*right, op);
                lemma_chain_concat(
                    op,
                    flat(*left, op),
                    flat(*right, op),
                    flat(*right, op).len() as int,
                    env,
                );
            } else {
                lemma_value_norm(*left, env);
                lemma_value_norm(*right, env);
            }
        },
        ShapeKind::Ternary { cond, then, else_ } => {
            lemma_value_norm(*cond, env);
            lemma_value_norm(*then, env);
            lemma_value_norm(*else_, env);
        },
        ShapeKind::Paren { inner } => {
            lemma_value_norm(*inner, env);
        },
        ShapeKind::Call { callee, args } => {
            lemma_norm_call(t);
            lemma_value_norm(*callee, env);
        },
        ShapeKind::Index { array, index } => {
            lemma_value_norm(*array, env);
            lemma_value_norm(*index, env);
        },
        ShapeKind::Member { object, field } => {
            lemma_value_norm(*object, env);
        },
        ShapeKind::Missing => {},
        ShapeKind::Error { skipped } => {},
    }
}

/// How chains are grouped does not change the value: a reparsed tree evaluates
/// like a freshly parsed one.
pub proof fn law_grouping_keeps_value(t: Shape, u: Shape, env: Bindings)
    requires
        norm(t) == norm(u),
    ensures
        value_of(t, env) == value_of(u, env),
{
    lemma_value_norm(t, env);
    lemma_value_norm(u, env);
}

} // verus!
