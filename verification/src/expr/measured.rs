//! What is drawn for measurements is fit for it.

use vstd::prelude::*;

use crate::expr::bench_support::{
    atom_drawn, binop_text, choices, deepest, digit_text, drawn, edit_drawn, edit_kind,
    expr_drawn, field_text, form_drawn, lcg_step, letter_text, op_byte_text, op_drawn,
    planned, renamed_text, replaceable, small_number, sought, source_op_text, typed_text, Draw,
    EditKind, Style,
};
use crate::expr::lexer::TokenKind;
use crate::expr::lexical::{digit_byte, letter_byte};
use crate::expr::op::{lbp_of, postfix_kind};
use crate::expr::unparse::token_chars;

verus! {

/// The inverse of the generator's factor, modulo 2^64.
pub const UNSTEP: u64 = 13877824140714322085;

/// The generator's steps can be taken back: it passes through no state twice before it has
/// come round.
pub proof fn law_steps_reversible(s: u64)
    ensures
        lcg_step(s).wrapping_sub(1442695040888963407).wrapping_mul(UNSTEP) == s,
{
    reveal(lcg_step);
    let r: int = 0x1_0000_0000_0000_0000;
    let (a, c, u) = (6364136223846793005int, 1442695040888963407int, UNSTEP as int);
    let p = s.wrapping_mul(6364136223846793005) as int;
    let q = lcg_step(s).wrapping_sub(1442695040888963407) as int;
    assert(p == (s * a) % r);
    assert(q == p) by {
        vstd::arithmetic::div_mod::lemma_small_mod(p as nat, r as nat);
    }
    assert((p * u) % r == ((s * a) * u) % r) by {
        vstd::arithmetic::div_mod::lemma_mul_mod_noop_left(s * a, u, r);
    }
    assert(a * u == 4787856489426250814int * r + 1);
    let k: int = 4787856489426250814;
    assert((s * a) * u == s * (a * u)) by (nonlinear_arith);
    assert(s * (k * r + 1) == s + (s * k) * r) by (nonlinear_arith);
    vstd::arithmetic::div_mod::lemma_mod_multiples_vanish(s * k, s as int, r);
    assert((s * k) * r + s == r * (s * k) + s) by (nonlinear_arith);
    vstd::arithmetic::div_mod::lemma_small_mod(s as nat, r as nat);
}

/// `t` is how an operator between operands is shown.
pub open spec fn is_operator_text(t: Seq<char>) -> bool {
    exists|k: TokenKind|
        lbp_of(k) > 0 && !postfix_kind(k) && k != TokenKind::Question && #[trigger] token_chars(k)
            == t
}

/// What is drawn as an operator is one.
pub proof fn law_operators_drawn(k: int)
    ensures
        is_operator_text(binop_text(k)),
        is_operator_text(source_op_text(k)),
        is_operator_text(op_byte_text(k)),
{
    assert(token_chars(TokenKind::Plus) == "+"@);
    assert(token_chars(TokenKind::Minus) == "-"@);
    assert(token_chars(TokenKind::Star) == "*"@);
    assert(token_chars(TokenKind::Slash) == "/"@);
    assert(token_chars(TokenKind::AndAnd) == "&&"@);
    assert(token_chars(TokenKind::OrOr) == "||"@);
    assert(token_chars(TokenKind::EqEq) == "=="@);
    assert(token_chars(TokenKind::BangEq) == "!="@);
    assert(token_chars(TokenKind::Lt) == "<"@);
    assert(token_chars(TokenKind::Gt) == ">"@);
    assert(token_chars(TokenKind::Percent) == "%"@);
}

/// Of thirteen choices `+` and `*` take two each, all other operators drawn one.
pub proof fn law_operator_mix(j: int, k: int)
    requires
        0 <= j < k < 13,
    ensures
        binop_text(j) == binop_text(k) <==> j == 0 && k == 11 || j == 2 && k == 12,
{
    reveal_strlit("+");
    reveal_strlit("-");
    reveal_strlit("*");
    reveal_strlit("/");
    reveal_strlit("&&");
    reveal_strlit("||");
    reveal_strlit("==");
    reveal_strlit("!=");
    reveal_strlit("<");
    reveal_strlit(">");
    reveal_strlit("%");
    let (x, y) = (binop_text(j), binop_text(k));
    assert(x.len() > 0 && y.len() > 0);
    assert(x == y ==> x[0] == y[0] && x.len() == y.len());
}

/// A character is a decimal digit.
pub open spec fn digit_char(c: char) -> bool {
    '0' <= c && c <= '9'
}

/// A character is a small letter.
pub open spec fn small_letter(c: char) -> bool {
    'a' <= c && c <= 'z'
}

/// Digits drawn are digits, in order; letters and fields are letters.
pub proof fn law_characters_drawn(d: int, k: int)
    ensures
        digit_text(d).len() == 1 && digit_char(digit_text(d)[0]),
        0 <= d < 10 ==> digit_text(d)[0] as int == '0' as int + d,
        letter_text(k).len() == 1 && small_letter(letter_text(k)[0]),
        renamed_text(k).len() == 1 && small_letter(renamed_text(k)[0]),
        field_text(k).len() > 0 && forall|i: int|
            0 <= i < field_text(k).len() ==> small_letter(#[trigger] field_text(k)[i]),
{
    reveal_strlit("0");
    reveal_strlit("1");
    reveal_strlit("2");
    reveal_strlit("3");
    reveal_strlit("4");
    reveal_strlit("5");
    reveal_strlit("6");
    reveal_strlit("7");
    reveal_strlit("8");
    reveal_strlit("9");
    reveal_strlit("a");
    reveal_strlit("b");
    reveal_strlit("c");
    reveal_strlit("x");
    reveal_strlit("y");
    reveal_strlit("f");
    reveal_strlit("g");
    reveal_strlit("field");
    reveal_strlit("next");
}

/// An atom drawn is a letter, or a number below a hundred in decimal.
pub proof fn law_atoms_drawn(s: u64)
    ensures
        ({
            let t = atom_drawn(s).0;
            ||| t.len() == 1 && small_letter(t[0])
            ||| exists|n: int|
                0 <= n < 100 && #[trigger] small_number(n) == t && (if n < 10 {
                    t.len() == 1 && t[0] as int == '0' as int + n
                } else {
                    t.len() == 2 && 10 * (t[0] as int - '0' as int) + (t[1] as int - '0' as int)
                        == n
                })
        }),
{
    let t = lcg_step(s);
    let n = drawn(t, 100) as int;
    reveal_strlit("a");
    reveal_strlit("x");
    reveal_strlit("n");
    assert(0 <= n < 100);
    law_characters_drawn(n, 0);
    law_characters_drawn(n / 10, 0);
    law_characters_drawn(n % 10, 0);
    if drawn(s, 4) == 2 {
        assert(small_number(n) == atom_drawn(s).0);
    }
}

/// A random edit takes one byte at most, inside the source, and puts in one character at
/// most; what replaces a byte for a name, a number or an operator is of that kind, and so
/// is the byte it replaces.
pub proof fn law_edits_planned(b: Seq<u8>, cursor: int, kind: EditKind, s: u64)
    requires
        0 <= cursor,
        0 < b.len() <= u32::MAX,
    ensures
        planned(b, cursor, kind, s).0 matches Some(p) ==> {
            &&& 0 <= p.start <= p.end <= b.len()
            &&& p.end - p.start <= 1
            &&& p.text.len() <= 1
            &&& kind is InsertChar ==> p.end == p.start && p.text.len() == 1 && p.cursor == p.start
                + 1 && (cursor <= b.len() ==> p.start == cursor)
            &&& kind is DeleteChar ==> p.end == p.start + 1 && p.text.len() == 0 && p.cursor
                == p.start && (0 < cursor <= b.len() ==> p.start == cursor - 1)
            &&& kind is CursorJump ==> p.end == p.start && p.text.len() == 0 && 0 <= p.cursor
                < b.len()
            &&& kind is RenameIdent ==> p.end == p.start + 1 && letter_byte(b[p.start])
                && small_letter(p.text[0])
            &&& kind is ChangeConstant ==> p.end == p.start + 1 && digit_byte(b[p.start])
                && digit_char(p.text[0])
            &&& kind is SwapOp ==> p.end == p.start + 1 && is_operator_text(p.text)
                && is_operator_text(seq![b[p.start] as char])
        },
{
    let f = sought(
        b,
        kind,
        crate::expr::bench_support::within(cursor, b.len() as int),
        s,
        16,
    );
    lemma_sought(b, kind, crate::expr::bench_support::within(cursor, b.len() as int), s, 16);
    let t = drawn(f.1, 5) as int;
    law_characters_drawn(drawn(f.1, 10) as int, t);
    law_operators_drawn(drawn(f.1, 7) as int);
    lemma_typed(drawn(s, 8) as int);
    lemma_op_byte(drawn(f.1, 7) as int);
    if kind is SwapOp && replaceable(kind, b[f.0]) {
        lemma_operator_byte(b[f.0]);
    }
}

proof fn lemma_sought(b: Seq<u8>, kind: EditKind, p: int, s: u64, k: nat)
    requires
        0 <= p < b.len(),
    ensures
        0 <= sought(b, kind, p, s, k).0 < b.len(),
    decreases k,
{
    if k > 0 && !replaceable(kind, b[p]) {
        lemma_sought(
            b,
            kind,
            crate::expr::bench_support::within(
                p + crate::expr::bench_support::offset_drawn(s, 8),
                b.len() as int,
            ),
            lcg_step(lcg_step(s)),
            (k - 1) as nat,
        );
    }
}

proof fn lemma_typed(k: int)
    ensures
        typed_text(k).len() == 1,
{
    reveal_strlit("a");
    reveal_strlit("b");
    reveal_strlit("x");
    reveal_strlit("y");
    reveal_strlit("1");
    reveal_strlit("2");
    reveal_strlit(" ");
    reveal_strlit("0");
}

proof fn lemma_op_byte(k: int)
    ensures
        op_byte_text(k).len() == 1,
{
    reveal_strlit("+");
    reveal_strlit("-");
    reveal_strlit("*");
    reveal_strlit("/");
    reveal_strlit("<");
    reveal_strlit(">");
    reveal_strlit("%");
}

proof fn lemma_operator_byte(b: u8)
    requires
        replaceable(EditKind::SwapOp, b),
    ensures
        is_operator_text(seq![b as char]),
{
    reveal_strlit("+");
    reveal_strlit("-");
    reveal_strlit("*");
    reveal_strlit("/");
    reveal_strlit("<");
    reveal_strlit(">");
    reveal_strlit("%");
    let t = seq![b as char];
    if b == '+' as u8 {
        assert(token_chars(TokenKind::Plus) =~= t);
    } else if b == '-' as u8 {
        assert(token_chars(TokenKind::Minus) =~= t);
    } else if b == '*' as u8 {
        assert(token_chars(TokenKind::Star) =~= t);
    } else if b == '/' as u8 {
        assert(token_chars(TokenKind::Slash) =~= t);
    } else if b == '<' as u8 {
        assert(token_chars(TokenKind::Lt) =~= t);
    } else if b == '>' as u8 {
        assert(token_chars(TokenKind::Gt) =~= t);
    } else {
        assert(token_chars(TokenKind::Percent) =~= t);
    }
}

/// Of a hundred edits forty type, twenty delete, fifteen rename, fifteen change a number,
/// five swap an operator and five move the cursor.
pub proof fn law_edit_mix(k: int)
    requires
        0 <= k < 100,
    ensures
        edit_kind(k) is InsertChar <==> k < 40,
        edit_kind(k) is DeleteChar <==> 40 <= k < 40 + 20,
        edit_kind(k) is RenameIdent <==> 60 <= k < 60 + 15,
        edit_kind(k) is ChangeConstant <==> 75 <= k < 75 + 15,
        edit_kind(k) is SwapOp <==> 90 <= k < 90 + 5,
        edit_kind(k) is CursorJump <==> 95 <= k,
{
}

/// A one-byte edit replaces one byte by a digit, a letter or an operator, or puts in a
/// blank or a digit; in an empty source it puts in a letter.
pub proof fn law_edits_drawn(len: int, s: u64)
    requires
        0 <= len <= u32::MAX,
    ensures
        ({
            let (start, end, text) = edit_drawn(len, s);
            &&& 0 <= start <= end <= len
            &&& text.len() == 1
            &&& end == start + 1 ==> digit_char(text[0]) || small_letter(text[0])
                || is_operator_text(text)
            &&& end != start + 1 ==> end == start && (digit_char(text[0]) || text[0] == ' ' || len
                == 0 && small_letter(text[0]))
        }),
{
    reveal_strlit("a");
    reveal_strlit(" ");
    let s2 = lcg_step(lcg_step(s));
    law_characters_drawn(drawn(s2, 10) as int, drawn(s2, 4) as int);
    law_operators_drawn(drawn(s2, 7) as int);
    lemma_op_byte(drawn(s2, 7) as int);
}

// ---- Expressions -------------------------------------------------------

/// Every form of a style is drawn, and no other: without calls, members and indexing
/// where the style has none.
pub proof fn law_forms_drawn(style: Style, k: int, f: Draw)
    requires
        0 <= k < choices(style),
    ensures
        style is Core ==> !(form_drawn(style, k) is Call || form_drawn(style, k) is Member
            || form_drawn(style, k) is Index || form_drawn(style, k) is Empty),
        !(style is Core && (f is Call || f is Member || f is Index || f is Empty)) ==> exists|
            j: int,
        |
            0 <= j < choices(style) && #[trigger] form_drawn(style, j) == f,
        forall|j: int|
            0 <= j < choices(style) && j != k && form_drawn(style, j) == form_drawn(style, k)
                ==> #[trigger] form_drawn(style, j) is Infix || form_drawn(style, j) is Member
                || form_drawn(style, j) is Paren && style is Source || form_drawn(style, j)
                is Choice && style is Core,
{
    match f {
        Draw::Infix => assert(form_drawn(style, 0) == f),
        Draw::Paren => assert(form_drawn(style, 5) == f),
        Draw::Minus => assert(form_drawn(style, 6) == f),
        Draw::Not => assert(form_drawn(style, 7) == f),
        Draw::Choice => assert(form_drawn(style, 8) == f),
        Draw::Call => assert(style is Core || form_drawn(style, 9) == f),
        Draw::Member => assert(style is Core || form_drawn(style, 10) == f),
        Draw::Index => assert(style is Core || form_drawn(style, 11) == f),
        Draw::Empty => assert(style is Core || form_drawn(style, 12) == f),
    }
}

/// A name of one letter or a number of up to two digits.
pub open spec fn operand_text(s: Seq<char>) -> bool {
    ||| s.len() == 1 && (small_letter(s[0]) || digit_char(s[0]))
    ||| s.len() == 2 && digit_char(s[0]) && digit_char(s[1])
}

/// A name.
pub open spec fn name_text(s: Seq<char>) -> bool {
    s.len() > 0 && forall|i: int| 0 <= i < s.len() ==> small_letter(#[trigger] s[i])
}

/// `s` is made of expressions `x`, `y` and `z` and an operator or a name `o`, as far as its
/// form has them; without calls, members and indexing if `core`.
pub open spec fn shaped(
    core: bool,
    s: Seq<char>,
    x: Seq<char>,
    y: Seq<char>,
    z: Seq<char>,
    o: Seq<char>,
) -> bool {
    ||| is_operator_text(o) && s == x + " "@ + o + " "@ + y
    ||| s == "("@ + x + ")"@
    ||| s == "-"@ + x
    ||| s == "!"@ + x
    ||| s == "("@ + x + " ? "@ + y + " : "@ + z + ")"@
    ||| !core && s == x + "("@ + y + ")"@
    ||| !core && s == x + "["@ + y + "]"@
    ||| !core && s == x + "()"@
    ||| !core && name_text(o) && s == x + "."@ + o
}

/// `s` is an expression, built from smaller ones in up to `k` steps.
pub open spec fn sentence(core: bool, s: Seq<char>, k: nat) -> bool
    decreases k,
{
    operand_text(s) || k > 0 && exists|x: Seq<char>, y: Seq<char>, z: Seq<char>, o: Seq<char>|
        #[trigger] shaped(core, s, x, y, z, o) && sentence(core, x, (k - 1) as nat) && sentence(
            core,
            y,
            (k - 1) as nat,
        ) && sentence(core, z, (k - 1) as nat)
}

/// What is drawn is an expression, of core forms only where the style has no others.
pub proof fn law_expressions_drawn(style: Style, depth: int, budget: int, s: u64)
    requires
        0 <= depth <= 13,
    ensures
        sentence(style is Core, expr_drawn(style, depth, budget, s).text, (13 - depth) as nat),
    decreases 13 - depth,
{
    let core = style is Core;
    if budget < 4 || depth > deepest(style) {
        lemma_operand(s);
    } else {
        let d = depth + 1;
        let b = budget - 3;
        let t = lcg_step(s);
        let k = drawn(s, choices(style)) as int;
        let x = expr_drawn(style, d, b, t);
        law_expressions_drawn(style, d, b, t);
        law_forms_drawn(style, k, Draw::Infix);
        let j = (12 - depth) as nat;
        let w = expr_drawn(style, depth, budget, s).text;
        assert(sentence(core, x.text, j));
        match form_drawn(style, k) {
            Draw::Infix => {
                let o = op_drawn(style, x.state);
                let y = expr_drawn(style, d, x.budget, lcg_step(x.state));
                law_expressions_drawn(style, d, x.budget, lcg_step(x.state));
                law_operators_drawn(drawn(x.state, 9) as int);
                law_operators_drawn(drawn(x.state, 13) as int);
                assert(is_operator_text(o) && sentence(core, y.text, j));
                assert(w == x.text + " "@ + o + " "@ + y.text);
                assert(shaped(core, w, x.text, y.text, y.text, o));
            },
            Draw::Paren => {
                assert(w == "("@ + x.text + ")"@);
                assert(shaped(core, w, x.text, x.text, x.text, x.text));
            },
            Draw::Minus => {
                assert(w == "-"@ + x.text);
                assert(shaped(core, w, x.text, x.text, x.text, x.text));
            },
            Draw::Not => {
                assert(w == "!"@ + x.text);
                assert(shaped(core, w, x.text, x.text, x.text, x.text));
            },
            Draw::Choice => {
                let y = expr_drawn(style, d, x.budget, x.state);
                let z = expr_drawn(style, d, y.budget, y.state);
                law_expressions_drawn(style, d, x.budget, x.state);
                law_expressions_drawn(style, d, y.budget, y.state);
                assert(sentence(core, y.text, j) && sentence(core, z.text, j));
                assert(w == "("@ + x.text + " ? "@ + y.text + " : "@ + z.text + ")"@);
                assert(shaped(core, w, x.text, y.text, z.text, x.text));
            },
            Draw::Call => {
                let y = expr_drawn(style, d, x.budget, x.state);
                law_expressions_drawn(style, d, x.budget, x.state);
                assert(sentence(core, y.text, j));
                assert(w == x.text + "("@ + y.text + ")"@);
                assert(shaped(core, w, x.text, y.text, y.text, x.text));
            },
            Draw::Index => {
                let y = expr_drawn(style, d, x.budget, x.state);
                law_expressions_drawn(style, d, x.budget, x.state);
                assert(sentence(core, y.text, j));
                assert(w == x.text + "["@ + y.text + "]"@);
                assert(shaped(core, w, x.text, y.text, y.text, x.text));
            },
            Draw::Member => {
                let f = field_text(drawn(x.state, 4) as int);
                law_characters_drawn(0, drawn(x.state, 4) as int);
                assert(name_text(f));
                assert(w == x.text + "."@ + f);
                assert(shaped(core, w, x.text, x.text, x.text, f));
            },
            Draw::Empty => {
                assert(w == x.text + "()"@);
                assert(shaped(core, w, x.text, x.text, x.text, x.text));
            },
        }
    }
}

proof fn lemma_operand(s: u64)
    ensures
        operand_text(atom_drawn(s).0),
{
    let n = drawn(lcg_step(s), 100) as int;
    reveal_strlit("a");
    reveal_strlit("x");
    reveal_strlit("n");
    law_characters_drawn(n, 0);
    law_characters_drawn(n / 10, 0);
    law_characters_drawn(n % 10, 0);
}

} // verus!
