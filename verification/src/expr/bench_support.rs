//! Reproducible random expressions and edits for measurements: every choice
//! is drawn from a seeded generator.

use vstd::prelude::*;
use vstd::string::*;
use vstd::utf8::*;

use crate::ascii::{
    DIGIT_0, DIGIT_9, GREATER, LESS, LOWER_A, LOWER_Z, MINUS, PERCENT, PLUS, SLASH, STAR,
};
use crate::expr::edit::Edit;

verus! {

/// 64-bit linear congruential generator.
#[derive(Clone, Copy)]
pub struct Lcg(pub u64);

/// The state after `s`.
#[verifier::opaque]
pub open spec fn lcg_step(s: u64) -> u64 {
    s.wrapping_mul(6364136223846793005).wrapping_add(1442695040888963407)
}

/// The choice among `n` that the state after `s` gives.
pub open spec fn drawn(s: u64, n: usize) -> usize {
    (lcg_step(s) as usize) % (if n > 1 {
        n
    } else {
        1
    })
}

impl Lcg {
    pub fn new(seed: u64) -> (r: Lcg)
        ensures
            r.0 == seed,
    {
        Lcg(seed)
    }

    pub fn next(&mut self) -> (r: u64)
        ensures
            r == lcg_step(old(self).0),
            final(self).0 == r,
    {
        proof {
            reveal(lcg_step);
        }
        self.0 = self.0.wrapping_mul(6364136223846793005).wrapping_add(1442695040888963407);
        self.0
    }

    /// A number below `n`, or 0 if `n` is 0.
    pub fn range(&mut self, n: usize) -> (r: usize)
        ensures
            r == drawn(old(self).0, n),
            final(self).0 == lcg_step(old(self).0),
            n > 0 ==> r < n,
    {
        let m: usize = if n > 1 {
            n
        } else {
            1
        };
        (self.next() as usize) % m
    }
}

/// A decimal digit.
pub open spec fn digit_text(d: int) -> Seq<char> {
    if d == 0 {
        "0"@
    } else if d == 1 {
        "1"@
    } else if d == 2 {
        "2"@
    } else if d == 3 {
        "3"@
    } else if d == 4 {
        "4"@
    } else if d == 5 {
        "5"@
    } else if d == 6 {
        "6"@
    } else if d == 7 {
        "7"@
    } else if d == 8 {
        "8"@
    } else {
        "9"@
    }
}

fn digit(d: usize) -> (r: &'static str)
    requires
        d < 10,
    ensures
        r@ == digit_text(d as int),
{
    if d == 0 {
        "0"
    } else if d == 1 {
        "1"
    } else if d == 2 {
        "2"
    } else if d == 3 {
        "3"
    } else if d == 4 {
        "4"
    } else if d == 5 {
        "5"
    } else if d == 6 {
        "6"
    } else if d == 7 {
        "7"
    } else if d == 8 {
        "8"
    } else {
        "9"
    }
}

/// A number below 100 in decimal.
pub open spec fn small_number(n: int) -> Seq<char> {
    if n < 10 {
        digit_text(n)
    } else {
        digit_text(n / 10) + digit_text(n % 10)
    }
}

/// The atom drawn from state `s`, and the state after.
pub open spec fn atom_drawn(s: u64) -> (Seq<char>, u64) {
    let k = drawn(s, 4);
    let t = lcg_step(s);
    if k == 0 {
        ("a"@, t)
    } else if k == 1 {
        ("x"@, t)
    } else if k == 2 {
        (small_number(drawn(t, 100) as int), lcg_step(t))
    } else {
        ("n"@, t)
    }
}

/// One of `a`, `x`, `n`, or a number below 100.
pub fn gen_atom(rng: &mut Lcg) -> (r: String)
    ensures
        (r@, final(rng).0) == atom_drawn(old(rng).0),
{
    let k: usize = rng.range(4);
    if k == 0 {
        "a".to_owned()
    } else if k == 1 {
        "x".to_owned()
    } else if k == 2 {
        let n: usize = rng.range(100);
        if n < 10 {
            digit(n).to_owned()
        } else {
            let mut out: String = digit(n / 10).to_owned();
            out.append(digit(n % 10));
            out
        }
    } else {
        "n".to_owned()
    }
}

/// The operator that choice `k` of thirteen stands for.
pub open spec fn binop_text(k: int) -> Seq<char> {
    if k == 0 {
        "+"@
    } else if k == 1 {
        "-"@
    } else if k == 2 {
        "*"@
    } else if k == 3 {
        "/"@
    } else if k == 4 {
        "&&"@
    } else if k == 5 {
        "||"@
    } else if k == 6 {
        "=="@
    } else if k == 7 {
        "!="@
    } else if k == 8 {
        "<"@
    } else if k == 9 {
        ">"@
    } else if k == 10 {
        "%"@
    } else if k == 11 {
        "+"@
    } else {
        "*"@
    }
}

/// An infix operator, `+` and `*` somewhat more often than the others.
pub fn gen_binop(rng: &mut Lcg) -> (r: &'static str)
    ensures
        r@ == binop_text(drawn(old(rng).0, 13) as int),
        final(rng).0 == lcg_step(old(rng).0),
{
    let k: usize = rng.range(13);
    if k == 0 {
        "+"
    } else if k == 1 {
        "-"
    } else if k == 2 {
        "*"
    } else if k == 3 {
        "/"
    } else if k == 4 {
        "&&"
    } else if k == 5 {
        "||"
    } else if k == 6 {
        "=="
    } else if k == 7 {
        "!="
    } else if k == 8 {
        "<"
    } else if k == 9 {
        ">"
    } else if k == 10 {
        "%"
    } else if k == 11 {
        "+"
    } else {
        "*"
    }
}

/// The operator that choice `k` of nine stands for.
pub open spec fn source_op_text(k: int) -> Seq<char> {
    if k == 0 {
        "+"@
    } else if k == 1 {
        "-"@
    } else if k == 2 {
        "*"@
    } else if k == 3 {
        "/"@
    } else if k == 4 {
        "&&"@
    } else if k == 5 {
        "||"@
    } else if k == 6 {
        "=="@
    } else if k == 7 {
        "<"@
    } else {
        ">"@
    }
}

fn gen_source_op(rng: &mut Lcg) -> (r: &'static str)
    ensures
        r@ == source_op_text(drawn(old(rng).0, 9) as int),
        final(rng).0 == lcg_step(old(rng).0),
{
    let k: usize = rng.range(9);
    if k == 0 {
        "+"
    } else if k == 1 {
        "-"
    } else if k == 2 {
        "*"
    } else if k == 3 {
        "/"
    } else if k == 4 {
        "&&"
    } else if k == 5 {
        "||"
    } else if k == 6 {
        "=="
    } else if k == 7 {
        "<"
    } else {
        ">"
    }
}

/// The field name that choice `k` of four stands for.
pub open spec fn field_text(k: int) -> Seq<char> {
    if k == 0 {
        "f"@
    } else if k == 1 {
        "g"@
    } else if k == 2 {
        "field"@
    } else {
        "next"@
    }
}

/// A field name.
pub fn gen_field(rng: &mut Lcg) -> (r: &'static str)
    ensures
        r@ == field_text(drawn(old(rng).0, 4) as int),
        final(rng).0 == lcg_step(old(rng).0),
{
    let k: usize = rng.range(4);
    if k == 0 {
        "f"
    } else if k == 1 {
        "g"
    } else if k == 2 {
        "field"
    } else {
        "next"
    }
}

// ---- Expressions -------------------------------------------------------

/// Which forms are drawn, and how often.
#[derive(Clone, Copy, PartialEq, Eq, Structural)]
pub enum Style {
    /// All forms.
    Full,
    /// No calls, members or indexing.
    Core,
    /// All forms, parentheses more often: a source to edit.
    Source,
}

/// A form of expression.
#[derive(Clone, Copy, PartialEq, Eq, Structural)]
pub enum Draw {
    Infix,
    Paren,
    Minus,
    Not,
    Choice,
    Call,
    Member,
    Index,
    Empty,
}

/// Number of choices of a style.
pub open spec fn choices(style: Style) -> usize {
    if style is Core {
        10
    } else {
        14
    }
}

/// The form that choice `k` stands for.
pub open spec fn form_drawn(style: Style, k: int) -> Draw {
    let last_infix = if style is Source {
        3int
    } else {
        4
    };
    if k <= last_infix {
        Draw::Infix
    } else if k <= 5 {
        Draw::Paren
    } else if k == 6 {
        Draw::Minus
    } else if k == 7 {
        Draw::Not
    } else if k == 8 || style is Core {
        Draw::Choice
    } else if k == 9 {
        Draw::Call
    } else if k == 10 {
        Draw::Member
    } else if k == 11 {
        Draw::Index
    } else if k == 12 {
        Draw::Empty
    } else {
        Draw::Member
    }
}

fn gen_form(style: Style, rng: &mut Lcg) -> (r: Draw)
    ensures
        r == form_drawn(style, drawn(old(rng).0, choices(style)) as int),
        final(rng).0 == lcg_step(old(rng).0),
{
    let core: bool = style == Style::Core;
    let k: usize = rng.range(
        if core {
            10
        } else {
            14
        },
    );
    let last_infix: usize = if style == Style::Source {
        3
    } else {
        4
    };
    if k <= last_infix {
        Draw::Infix
    } else if k <= 5 {
        Draw::Paren
    } else if k == 6 {
        Draw::Minus
    } else if k == 7 {
        Draw::Not
    } else if k == 8 || core {
        Draw::Choice
    } else if k == 9 {
        Draw::Call
    } else if k == 10 {
        Draw::Member
    } else if k == 11 {
        Draw::Index
    } else if k == 12 {
        Draw::Empty
    } else {
        Draw::Member
    }
}

/// Deepest nesting of a style.
pub open spec fn deepest(style: Style) -> int {
    if style is Source {
        10
    } else {
        12
    }
}

/// A text drawn, with the budget and the generator's state left.
pub ghost struct Drawn {
    pub text: Seq<char>,
    pub budget: int,
    pub state: u64,
}

/// The operator drawn from state `s`.
pub open spec fn op_drawn(style: Style, s: u64) -> Seq<char> {
    if style is Source {
        source_op_text(drawn(s, 9) as int)
    } else {
        binop_text(drawn(s, 13) as int)
    }
}

/// The expression drawn at `depth` with `budget` bytes left.
pub open spec fn expr_drawn(style: Style, depth: int, budget: int, s: u64) -> Drawn
    decreases 13 - depth,
{
    if budget < 4 || depth > deepest(style) {
        let a = atom_drawn(s);
        Drawn { text: a.0, budget, state: a.1 }
    } else {
        let d = depth + 1;
        let b = budget - 3;
        let t = lcg_step(s);
        match form_drawn(style, drawn(s, choices(style)) as int) {
            Draw::Infix => {
                let x = expr_drawn(style, d, b, t);
                let y = expr_drawn(style, d, x.budget, lcg_step(x.state));
                Drawn {
                    text: x.text + " "@ + op_drawn(style, x.state) + " "@ + y.text,
                    budget: y.budget,
                    state: y.state,
                }
            },
            Draw::Paren => {
                let x = expr_drawn(style, d, b, t);
                Drawn { text: "("@ + x.text + ")"@, ..x }
            },
            Draw::Minus => {
                let x = expr_drawn(style, d, b, t);
                Drawn { text: "-"@ + x.text, ..x }
            },
            Draw::Not => {
                let x = expr_drawn(style, d, b, t);
                Drawn { text: "!"@ + x.text, ..x }
            },
            Draw::Choice => {
                let x = expr_drawn(style, d, b, t);
                let y = expr_drawn(style, d, x.budget, x.state);
                let z = expr_drawn(style, d, y.budget, y.state);
                Drawn {
                    text: "("@ + x.text + " ? "@ + y.text + " : "@ + z.text + ")"@,
                    budget: z.budget,
                    state: z.state,
                }
            },
            Draw::Call => {
                let x = expr_drawn(style, d, b, t);
                let y = expr_drawn(style, d, x.budget, x.state);
                Drawn { text: x.text + "("@ + y.text + ")"@, budget: y.budget, state: y.state }
            },
            Draw::Member => {
                let x = expr_drawn(style, d, b, t);
                Drawn {
                    text: x.text + "."@ + field_text(drawn(x.state, 4) as int),
                    budget: x.budget,
                    state: lcg_step(x.state),
                }
            },
            Draw::Index => {
                let x = expr_drawn(style, d, b, t);
                let y = expr_drawn(style, d, x.budget, x.state);
                Drawn { text: x.text + "["@ + y.text + "]"@, budget: y.budget, state: y.state }
            },
            Draw::Empty => {
                let x = expr_drawn(style, d, b, t);
                Drawn { text: x.text + "()"@, ..x }
            },
        }
    }
}

/// Draw an expression.
#[verifier::rlimit(40)]
fn gen(style: Style, depth: u32, budget: &mut usize, rng: &mut Lcg) -> (r: String)
    requires
        depth <= 13,
    ensures
        ({
            let g = expr_drawn(style, depth as int, *old(budget) as int, old(rng).0);
            &&& r@ == g.text
            &&& *final(budget) == g.budget
            &&& final(rng).0 == g.state
        }),
    decreases 13 - depth,
{
    let limit: u32 = if style == Style::Source {
        10
    } else {
        12
    };
    if *budget < 4 || depth > limit {
        return gen_atom(rng);
    }
    let form = gen_form(style, rng);
    *budget = *budget - 3;
    let d: u32 = depth + 1;
    match form {
        Draw::Infix => {
            let mut out: String = gen(style, d, budget, rng);
            let op = if style == Style::Source {
                gen_source_op(rng)
            } else {
                gen_binop(rng)
            };
            let y: String = gen(style, d, budget, rng);
            out.append(" ");
            out.append(op);
            out.append(" ");
            out.append(y.as_str());
            out
        },
        Draw::Paren => {
            let mut out: String = "(".to_owned();
            let x: String = gen(style, d, budget, rng);
            out.append(x.as_str());
            out.append(")");
            out
        },
        Draw::Minus => {
            let mut out: String = "-".to_owned();
            let x: String = gen(style, d, budget, rng);
            out.append(x.as_str());
            out
        },
        Draw::Not => {
            let mut out: String = "!".to_owned();
            let x: String = gen(style, d, budget, rng);
            out.append(x.as_str());
            out
        },
        Draw::Choice => {
            let x: String = gen(style, d, budget, rng);
            let y: String = gen(style, d, budget, rng);
            let z: String = gen(style, d, budget, rng);
            let mut out: String = "(".to_owned();
            out.append(x.as_str());
            out.append(" ? ");
            out.append(y.as_str());
            out.append(" : ");
            out.append(z.as_str());
            out.append(")");
            out
        },
        Draw::Call => {
            let mut out: String = gen(style, d, budget, rng);
            let y: String = gen(style, d, budget, rng);
            out.append("(");
            out.append(y.as_str());
            out.append(")");
            out
        },
        Draw::Member => {
            let mut out: String = gen(style, d, budget, rng);
            let f = gen_field(rng);
            out.append(".");
            out.append(f);
            out
        },
        Draw::Index => {
            let mut out: String = gen(style, d, budget, rng);
            let y: String = gen(style, d, budget, rng);
            out.append("[");
            out.append(y.as_str());
            out.append("]");
            out
        },
        Draw::Empty => {
            let mut out: String = gen(style, d, budget, rng);
            out.append("()");
            out
        },
    }
}

/// A random expression of about `target_bytes` bytes.
pub fn gen_expr(style: Style, target_bytes: usize, rng: Lcg) -> (r: String)
    ensures
        r@ == expr_drawn(style, 0, target_bytes as int, rng.0).text,
{
    let mut budget: usize = target_bytes;
    let mut rng = rng;
    gen(style, 0, &mut budget, &mut rng)
}

/// A source to edit, of about `target_bytes` bytes.
pub fn gen_base_source(target_bytes: usize, rng: Lcg) -> (r: String)
    ensures
        r@ == expr_drawn(Style::Source, 0, target_bytes as int, rng.0).text,
{
    gen_expr(Style::Source, target_bytes, rng)
}

// ---- Edits -------------------------------------------------------------

/// The replacement of byte edits: letters.
pub open spec fn letter_text(k: int) -> Seq<char> {
    if k == 0 {
        "a"@
    } else if k == 1 {
        "b"@
    } else if k == 2 {
        "x"@
    } else {
        "y"@
    }
}

fn letter(k: usize) -> (r: &'static str)
    ensures
        r@ == letter_text(k as int),
{
    if k == 0 {
        "a"
    } else if k == 1 {
        "b"
    } else if k == 2 {
        "x"
    } else {
        "y"
    }
}

/// The replacement of byte edits: operators.
pub open spec fn op_byte_text(k: int) -> Seq<char> {
    if k == 0 {
        "+"@
    } else if k == 1 {
        "-"@
    } else if k == 2 {
        "*"@
    } else if k == 3 {
        "/"@
    } else if k == 4 {
        "<"@
    } else if k == 5 {
        ">"@
    } else {
        "%"@
    }
}

fn op_byte(k: usize) -> (r: &'static str)
    ensures
        r@ == op_byte_text(k as int),
{
    if k == 0 {
        "+"
    } else if k == 1 {
        "-"
    } else if k == 2 {
        "*"
    } else if k == 3 {
        "/"
    } else if k == 4 {
        "<"
    } else if k == 5 {
        ">"
    } else {
        "%"
    }
}

/// The one-byte edit drawn for a source of `len` bytes: its range and
/// replacement.
pub open spec fn edit_drawn(len: int, s: u64) -> (int, int, Seq<char>) {
    if len == 0 {
        (0, 0, "a"@)
    } else {
        let pos = drawn(s, len as usize) as int;
        let s1 = lcg_step(s);
        let kind = drawn(s1, 5);
        let s2 = lcg_step(s1);
        if kind == 0 {
            (pos, pos + 1, digit_text(drawn(s2, 10) as int))
        } else if kind == 1 {
            (pos, pos + 1, letter_text(drawn(s2, 4) as int))
        } else if kind == 2 {
            (pos, pos, " "@)
        } else if kind == 3 {
            (pos, pos, digit_text(drawn(s2, 10) as int))
        } else {
            (pos, pos + 1, op_byte_text(drawn(s2, 7) as int))
        }
    }
}

/// A random one-byte edit.
pub fn gen_edit(src: &str, rng: Lcg) -> (r: Edit)
    requires
        src.spec_bytes().len() <= u32::MAX,
    ensures
        (r.start as int, r.end as int, r.replacement@) == edit_drawn(
            src.spec_bytes().len() as int,
            rng.0,
        ),
        r.start <= r.end <= src.spec_bytes().len(),
{
    let mut rng = rng;
    let len: usize = src.as_bytes().len();
    if len == 0 {
        return Edit { start: 0, end: 0, replacement: "a".to_owned() };
    }
    let pos: u32 = rng.range(len) as u32;
    let kind: usize = rng.range(5);
    if kind == 0 {
        Edit { start: pos, end: pos + 1, replacement: digit(rng.range(10)).to_owned() }
    } else if kind == 1 {
        Edit { start: pos, end: pos + 1, replacement: letter(rng.range(4)).to_owned() }
    } else if kind == 2 {
        Edit { start: pos, end: pos, replacement: " ".to_owned() }
    } else if kind == 3 {
        Edit { start: pos, end: pos, replacement: digit(rng.range(10)).to_owned() }
    } else {
        Edit { start: pos, end: pos + 1, replacement: op_byte(rng.range(7)).to_owned() }
    }
}

/// What a developer does next.
#[derive(Clone, Copy, Debug, PartialEq, Eq, Structural)]
pub enum EditKind {
    InsertChar,
    DeleteChar,
    RenameIdent,
    ChangeConstant,
    SwapOp,
    CursorJump,
}

/// The kind that choice `k` of a hundred stands for.
pub open spec fn edit_kind(k: int) -> EditKind {
    if k < 40 {
        EditKind::InsertChar
    } else if k < 60 {
        EditKind::DeleteChar
    } else if k < 75 {
        EditKind::RenameIdent
    } else if k < 90 {
        EditKind::ChangeConstant
    } else if k < 95 {
        EditKind::SwapOp
    } else {
        EditKind::CursorJump
    }
}

pub fn pick_edit_kind(rng: &mut Lcg) -> (r: EditKind)
    ensures
        r == edit_kind(drawn(old(rng).0, 100) as int),
        final(rng).0 == lcg_step(old(rng).0),
{
    let k: usize = rng.range(100);
    if k < 40 {
        EditKind::InsertChar
    } else if k < 60 {
        EditKind::DeleteChar
    } else if k < 75 {
        EditKind::RenameIdent
    } else if k < 90 {
        EditKind::ChangeConstant
    } else if k < 95 {
        EditKind::SwapOp
    } else {
        EditKind::CursorJump
    }
}

/// The bytes a kind of edit replaces.
pub open spec fn replaceable(kind: EditKind, b: u8) -> bool {
    match kind {
        EditKind::RenameIdent => LOWER_A <= b <= LOWER_Z,
        EditKind::ChangeConstant => DIGIT_0 <= b <= DIGIT_9,
        EditKind::SwapOp => b == PLUS || b == MINUS || b == STAR || b == SLASH || b == LESS || b
            == GREATER || b == PERCENT,
        _ => false,
    }
}

fn is_replaceable(kind: EditKind, b: u8) -> (r: bool)
    ensures
        r == replaceable(kind, b),
{
    match kind {
        EditKind::RenameIdent => LOWER_A <= b && b <= LOWER_Z,
        EditKind::ChangeConstant => DIGIT_0 <= b && b <= DIGIT_9,
        EditKind::SwapOp => b == PLUS || b == MINUS || b == STAR || b == SLASH || b == LESS || b
            == GREATER || b == PERCENT,
        _ => false,
    }
}

/// The sum of two offsets, each within `sigma`.
pub open spec fn offset_drawn(s: u64, sigma: usize) -> int {
    let t = lcg_step(s);
    (drawn(s, (2 * sigma) as usize) - sigma) + (drawn(t, (2 * sigma) as usize) - sigma)
}

/// A random offset, small ones more often.
pub fn clustered_offset(rng: &mut Lcg, sigma: usize) -> (r: i64)
    requires
        2 * sigma <= usize::MAX,
        2 * sigma <= i64::MAX,
    ensures
        r == offset_drawn(old(rng).0, sigma),
        final(rng).0 == lcg_step(lcg_step(old(rng).0)),
        -2 * sigma <= r <= 2 * sigma,
{
    let a: usize = rng.range(2 * sigma);
    let b: usize = rng.range(2 * sigma);
    (a as i64 - sigma as i64) + (b as i64 - sigma as i64)
}

/// `x` within `0..len`.
pub open spec fn within(x: int, len: int) -> int {
    if x < 0 {
        0
    } else if x >= len {
        len - 1
    } else {
        x
    }
}

/// Where the search for a byte to replace ends, after at most `k` moves from
/// `p`, and the generator's state then.
pub open spec fn sought(b: Seq<u8>, kind: EditKind, p: int, s: u64, k: nat) -> (int, u64)
    decreases k,
{
    if k == 0 || replaceable(kind, b[p]) {
        (p, s)
    } else {
        sought(
            b,
            kind,
            within(p + offset_drawn(s, 8), b.len() as int),
            lcg_step(lcg_step(s)),
            (k - 1) as nat,
        )
    }
}

fn seek(b: &[u8], kind: EditKind, start: usize, rng: &mut Lcg) -> (r: usize)
    requires
        start < b@.len() <= u32::MAX,
    ensures
        (r as int, final(rng).0) == sought(b@, kind, start as int, old(rng).0, 16),
        r < b@.len(),
{
    let len: usize = b.len();
    let mut p: usize = start;
    let mut k: u32 = 16;
    while k > 0 && !is_replaceable(kind, b[p])
        invariant
            p < len,
            len == b@.len(),
            len <= u32::MAX,
            k <= 16,
            sought(b@, kind, start as int, old(rng).0, 16) == sought(
                b@,
                kind,
                p as int,
                rng.0,
                k as nat,
            ),
        decreases k,
    {
        let off: i64 = clustered_offset(rng, 8);
        let q: i64 = p as i64 + off;
        p = if q < 0 {
            0
        } else if q >= len as i64 {
            len - 1
        } else {
            q as usize
        };
        k = k - 1;
    }
    p
}

/// A character typed.
pub open spec fn typed_text(k: int) -> Seq<char> {
    if k == 0 {
        "a"@
    } else if k == 1 {
        "b"@
    } else if k == 2 {
        "x"@
    } else if k == 3 {
        "y"@
    } else if k == 4 {
        "1"@
    } else if k == 5 {
        "2"@
    } else if k == 6 {
        " "@
    } else {
        "0"@
    }
}

fn typed(k: usize) -> (r: &'static str)
    ensures
        r@ == typed_text(k as int),
{
    if k == 0 {
        "a"
    } else if k == 1 {
        "b"
    } else if k == 2 {
        "x"
    } else if k == 3 {
        "y"
    } else if k == 4 {
        "1"
    } else if k == 5 {
        "2"
    } else if k == 6 {
        " "
    } else {
        "0"
    }
}

/// A letter of a renamed identifier.
pub open spec fn renamed_text(k: int) -> Seq<char> {
    if k == 0 {
        "a"@
    } else if k == 1 {
        "b"@
    } else if k == 2 {
        "c"@
    } else if k == 3 {
        "x"@
    } else {
        "y"@
    }
}

fn renamed(k: usize) -> (r: &'static str)
    ensures
        r@ == renamed_text(k as int),
{
    if k == 0 {
        "a"
    } else if k == 1 {
        "b"
    } else if k == 2 {
        "c"
    } else if k == 3 {
        "x"
    } else {
        "y"
    }
}


/// An edit planned: its range, its replacement and the cursor after it.
pub ghost struct Plan {
    pub start: int,
    pub end: int,
    pub text: Seq<char>,
    pub cursor: int,
}

/// The edit of kind `kind` near `cursor`, and the generator's state after;
/// none if there is nothing to delete, to move in or to replace nearby.
pub open spec fn planned(b: Seq<u8>, cursor: int, kind: EditKind, s: u64) -> (Option<Plan>, u64) {
    let len = b.len() as int;
    if len == 0 {
        if kind == EditKind::InsertChar {
            (Some(Plan { start: 0, end: 0, text: "a"@, cursor: 1 }), s)
        } else {
            (None, s)
        }
    } else {
        match kind {
            EditKind::InsertChar => {
                let pos = if cursor < len {
                    cursor
                } else {
                    len
                };
                (
                    Some(
                        Plan {
                            start: pos,
                            end: pos,
                            text: typed_text(drawn(s, 8) as int),
                            cursor: pos + 1,
                        },
                    ),
                    lcg_step(s),
                )
            },
            EditKind::DeleteChar => {
                let pos = within(
                    (if cursor < len {
                        cursor
                    } else {
                        len
                    }) - 1,
                    len,
                );
                (Some(Plan { start: pos, end: pos + 1, text: Seq::empty(), cursor: pos }), s)
            },
            EditKind::CursorJump => (
                Some(
                    Plan {
                        start: 0,
                        end: 0,
                        text: Seq::empty(),
                        cursor: drawn(s, len as usize) as int,
                    },
                ),
                lcg_step(s),
            ),
            _ => {
                let f = sought(b, kind, within(cursor, len), s, 16);
                if !replaceable(kind, b[f.0]) {
                    (None, f.1)
                } else {
                    let text = match kind {
                        EditKind::RenameIdent => renamed_text(drawn(f.1, 5) as int),
                        EditKind::ChangeConstant => digit_text(drawn(f.1, 10) as int),
                        _ => op_byte_text(drawn(f.1, 7) as int),
                    };
                    (
                        Some(Plan { start: f.0, end: f.0 + 1, text, cursor: f.0 + 1 }),
                        lcg_step(f.1),
                    )
                }
            },
        }
    }
}

/// An edit of kind `kind` at or near `cursor`, and the cursor after it; `None`
/// if there is nothing to delete, to move in or to replace nearby.
pub fn make_edit(src: &str, cursor: usize, kind: EditKind, rng: &mut Lcg) -> (r: Option<(Edit, usize)>)
    requires
        src.spec_bytes().len() < u32::MAX,
    ensures
        final(rng).0 == planned(src.spec_bytes(), cursor as int, kind, old(rng).0).1,
        match r {
            Some((e, c)) => planned(src.spec_bytes(), cursor as int, kind, old(rng).0).0 == Some(
                Plan { start: e.start as int, end: e.end as int, text: e.replacement@, cursor: c as int },
            ),
            None => planned(src.spec_bytes(), cursor as int, kind, old(rng).0).0 is None,
        },
        r matches Some((e, c)) ==> e.start <= e.end <= src.spec_bytes().len() && c
            <= src.spec_bytes().len() + 1,
{
    let b = src.as_bytes();
    let len: usize = b.len();
    if len == 0 {
        return match kind {
            EditKind::InsertChar => Some(
                (Edit { start: 0, end: 0, replacement: "a".to_owned() }, 1),
            ),
            _ => None,
        };
    }
    match kind {
        EditKind::InsertChar => {
            let pos: usize = if cursor < len {
                cursor
            } else {
                len
            };
            let c = typed(rng.range(8));
            Some((Edit { start: pos as u32, end: pos as u32, replacement: c.to_owned() }, pos + 1))
        },
        EditKind::DeleteChar => {
            let at: usize = if cursor < len {
                cursor
            } else {
                len
            };
            let pos: usize = if at > 1 {
                at - 1
            } else {
                0
            };
            Some(
                (
                    Edit { start: pos as u32, end: (pos + 1) as u32, replacement: String::new() },
                    pos,
                ),
            )
        },
        EditKind::CursorJump => {
            let c: usize = rng.range(len);
            Some((Edit { start: 0, end: 0, replacement: String::new() }, c))
        },
        _ => {
            let start: usize = if cursor < len {
                cursor
            } else {
                len - 1
            };
            let p: usize = seek(b, kind, start, rng);
            if !is_replaceable(kind, b[p]) {
                return None;
            }
            let c = match kind {
                EditKind::RenameIdent => renamed(rng.range(5)),
                EditKind::ChangeConstant => digit(rng.range(10)),
                _ => op_byte(rng.range(7)),
            };
            Some((Edit { start: p as u32, end: (p + 1) as u32, replacement: c.to_owned() }, p + 1))
        },
    }
}

} // verus!
