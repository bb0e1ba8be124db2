//! What a text parses to under a grammar table, and what that depends on.

use std::sync::Arc;
use vstd::prelude::*;
use vstd::utf8::*;

use crate::runtime::ast::{Form, Node, NodeKind, floor_ok, form_of, join};
use crate::runtime::cursor::{lemma_next_token, next_token};
use crate::runtime::lexing::{lemma_head_next, lemma_rest_next, same_head, same_rest};
use crate::runtime::table::{Table, Token, TokenKind, MIN_PREC};

verus! {

#[derive(Debug, Clone, Copy, PartialEq, Eq, Structural)]
pub enum ParseError {
    UnexpectedToken { kind: TokenKind, at: u32 },
    UnexpectedEof,
    MissingCloseParen { at: u32 },
    TrailingTokens { at: u32 },
}

/// A form and where it ends, or an error.
pub type Parsed = Result<(Form, int), ParseError>;

/// Parsing of an operand from byte `at` on: an atom, a prefix operator and its
/// operand, or a group.
pub open spec fn nud(t: Table, b: Seq<u8>, at: int) -> Parsed
    decreases b.len() - at, 0int,
{
    let k = next_token(t, b, at);
    if k.kind is Eof || !(at < k.end <= b.len()) {
        Err(ParseError::UnexpectedEof)
    } else if t.atom(k.kind) {
        Ok((Form::Atom(decode_utf8(b.subrange(k.start as int, k.end as int))), k.end as int))
    } else if t.prefix_of(k.kind) is Some {
        match expr(t, b, k.end as int, t.prefix_of(k.kind)->0) {
            Ok((f, e)) => Ok((Form::Prefix { op: k.kind, child: Box::new(f) }, e)),
            Err(x) => Err(x),
        }
    } else if k.kind == TokenKind::Sym(t.open) {
        match expr(t, b, k.end as int, MIN_PREC) {
            Ok((f, e)) => {
                let c = next_token(t, b, e);
                if c.kind == TokenKind::Sym(t.close) {
                    Ok((Form::Paren { inner: Box::new(f) }, c.end as int))
                } else {
                    Err(ParseError::MissingCloseParen { at: c.start })
                }
            },
            Err(x) => Err(x),
        }
    } else {
        Err(ParseError::UnexpectedToken { kind: k.kind, at: k.start })
    }
}

/// Parsing of an expression of operators that bind above `m`.
pub open spec fn expr(t: Table, b: Seq<u8>, at: int, m: u32) -> Parsed
    decreases b.len() - at, 1int,
{
    match nud(t, b, at) {
        Ok((f, e)) => if at < e <= b.len() {
            climb(t, b, e, f, m)
        } else {
            Err(ParseError::UnexpectedEof)
        },
        Err(x) => Err(x),
    }
}

/// Passing of the operators that bind above `m`, after `left`.
pub open spec fn climb(t: Table, b: Seq<u8>, at: int, left: Form, m: u32) -> Parsed
    decreases b.len() - at, 0int,
{
    let k = next_token(t, b, at);
    if t.left_power(k.kind) <= m {
        Ok((left, at))
    } else if !(at < k.end <= b.len()) {
        Err(ParseError::UnexpectedEof)
    } else if t.postfix_of(k.kind) is Some {
        climb(t, b, k.end as int, Form::Postfix { op: k.kind, child: Box::new(left) }, m)
    } else {
        match expr(t, b, k.end as int, t.right_power(k.kind)) {
            Ok((f, e)) => if k.end < e <= b.len() {
                climb(t, b, e, join(t, k.kind, left, f), m)
            } else {
                Err(ParseError::UnexpectedEof)
            },
            Err(x) => Err(x),
        }
    }
}

/// What a text parses to.
pub open spec fn parsed(t: Table, b: Seq<u8>) -> Result<Form, ParseError> {
    match expr(t, b, 0, MIN_PREC) {
        Ok((f, e)) => {
            let k = next_token(t, b, e);
            if k.kind is Eof {
                Ok(f)
            } else {
                Err(ParseError::TrailingTokens { at: k.start })
            }
        },
        Err(x) => Err(x),
    }
}

// ---- Progress ----------------------------------------------------------

pub proof fn lemma_nud(t: Table, b: Seq<u8>, at: int)
    requires
        t.wf(),
        0 <= at <= b.len() <= u32::MAX,
    ensures
        nud(t, b, at) matches Ok((f, e)) ==> {
            &&& !(next_token(t, b, at).kind is Eof)
            &&& at < next_token(t, b, at).end <= e <= b.len()
        },
        next_token(t, b, at).kind is Eof <==> !(at < next_token(t, b, at).end) || next_token(
            t,
            b,
            at,
        ).kind is Eof,
    decreases b.len() - at, 0int,
{
    lemma_next_token(t, b, at);
    let k = next_token(t, b, at);
    if !(k.kind is Eof) && !t.atom(k.kind) {
        if t.prefix_of(k.kind) is Some {
            lemma_expr(t, b, k.end as int, t.prefix_of(k.kind)->0);
        } else if k.kind == TokenKind::Sym(t.open) {
            lemma_expr(t, b, k.end as int, MIN_PREC);
            if let Ok((f, e)) = expr(t, b, k.end as int, MIN_PREC) {
                lemma_next_token(t, b, e);
            }
        }
    }
}

pub proof fn lemma_expr(t: Table, b: Seq<u8>, at: int, m: u32)
    requires
        t.wf(),
        0 <= at <= b.len() <= u32::MAX,
    ensures
        expr(t, b, at, m) matches Ok((f, e)) ==> {
            &&& !(next_token(t, b, at).kind is Eof)
            &&& at < next_token(t, b, at).end <= e <= b.len()
            &&& t.left_power(next_token(t, b, e).kind) <= m
        },
    decreases b.len() - at, 1int,
{
    lemma_nud(t, b, at);
    if let Ok((f, e)) = nud(t, b, at) {
        lemma_climb(t, b, e, f, m);
    }
}

pub proof fn lemma_climb(t: Table, b: Seq<u8>, at: int, left: Form, m: u32)
    requires
        t.wf(),
        0 <= at <= b.len() <= u32::MAX,
    ensures
        climb(t, b, at, left, m) matches Ok((f, e)) ==> {
            &&& at <= e <= b.len()
            &&& t.left_power(next_token(t, b, e).kind) <= m
            &&& at < e ==> t.left_power(next_token(t, b, at).kind) > m && at < next_token(
                t,
                b,
                at,
            ).end <= e
        },
    decreases b.len() - at, 0int,
{
    lemma_next_token(t, b, at);
    let k = next_token(t, b, at);
    if t.left_power(k.kind) > m {
        if t.postfix_of(k.kind) is Some {
            lemma_climb(
                t,
                b,
                k.end as int,
                Form::Postfix { op: k.kind, child: Box::new(left) },
                m,
            );
        } else {
            lemma_expr(t, b, k.end as int, t.right_power(k.kind));
            if let Ok((f, e)) = expr(t, b, k.end as int, t.right_power(k.kind)) {
                lemma_climb(t, b, e, join(t, k.kind, left, f), m);
            }
        }
    }
}

/// Parsing from before a token is parsing from its start.
pub proof fn lemma_from_start(t: Table, b: Seq<u8>, at: int, m: u32)
    requires
        t.wf(),
        0 <= at <= b.len() <= u32::MAX,
    ensures
        ({
            let s = next_token(t, b, at).start as int;
            &&& at <= s <= b.len()
            &&& next_token(t, b, s) == next_token(t, b, at)
            &&& nud(t, b, s) == nud(t, b, at)
            &&& expr(t, b, s, m) == expr(t, b, at, m)
        }),
{
    lemma_next_token(t, b, at);
    let s = next_token(t, b, at).start as int;
    lemma_next_token(t, b, s);
    lemma_nud(t, b, at);
    lemma_nud(t, b, s);
}

// ---- Steps -------------------------------------------------------------

/// Passing of one operator after `left`, whatever it binds: the form, its end
/// and the binding power.
pub open spec fn step(t: Table, b: Seq<u8>, at: int, left: Form) -> Option<(Form, int, u32)> {
    let k = next_token(t, b, at);
    let l = t.left_power(k.kind);
    if l == 0 {
        None
    } else if t.postfix_of(k.kind) is Some {
        Some((Form::Postfix { op: k.kind, child: Box::new(left) }, k.end as int, l))
    } else {
        match expr(t, b, k.end as int, t.right_power(k.kind)) {
            Ok((f, e)) => Some((join(t, k.kind, left, f), e, l)),
            Err(x) => None,
        }
    }
}

/// The smaller one.
pub open spec fn least(p: u32, l: u32) -> u32 {
    if l < p {
        l
    } else {
        p
    }
}

/// An operand from byte `s` on and `n` operators after it: the form, its end
/// and the least binding power.
pub open spec fn run(t: Table, b: Seq<u8>, s: int, n: nat) -> Option<(Form, int, u32)>
    decreases n,
{
    if n == 0 {
        match nud(t, b, s) {
            Ok((f, e)) => Some((f, e, u32::MAX)),
            Err(x) => None,
        }
    } else {
        match run(t, b, s, (n - 1) as nat) {
            Some((f, e, p)) => match step(t, b, e, f) {
                Some((g, d, l)) => Some((g, d, least(p, l))),
                None => None,
            },
            None => None,
        }
    }
}

/// Parsing from byte `s` on comes past `f`, which ends at `e`; the loosest of
/// the operators it passes binds `p`.
#[verifier::opaque]
pub open spec fn reached(t: Table, b: Seq<u8>, s: int, f: Form, e: int, p: u32) -> bool {
    exists|n: nat| (#[trigger] run(t, b, s, n)) matches Some((g, d, q)) && g == f && d == e && q == p
}

proof fn lemma_run(t: Table, b: Seq<u8>, s: int, n: nat, m: u32)
    requires
        t.wf(),
        0 <= s <= b.len() <= u32::MAX,
        run(t, b, s, n) is Some,
    ensures
        run(t, b, s, n) matches Some((f, e, p)) && {
            &&& !(next_token(t, b, s).kind is Eof)
            &&& s < next_token(t, b, s).end <= e <= b.len()
            &&& m < p ==> expr(t, b, s, m) == climb(t, b, e, f, m)
        },
    decreases n,
{
    lemma_nud(t, b, s);
    if n > 0 {
        lemma_run(t, b, s, (n - 1) as nat, m);
        let (f, e, p) = run(t, b, s, (n - 1) as nat)->0;
        lemma_next_token(t, b, e);
        let k = next_token(t, b, e);
        lemma_expr(t, b, k.end as int, t.right_power(k.kind));
    }
}

/// What is reached is where parsing at a lower precedence continues.
pub proof fn lemma_reached(t: Table, b: Seq<u8>, s: int, f: Form, e: int, p: u32, m: u32)
    requires
        t.wf(),
        0 <= s <= b.len() <= u32::MAX,
        reached(t, b, s, f, e, p),
    ensures
        !(next_token(t, b, s).kind is Eof),
        s < next_token(t, b, s).end <= e <= b.len(),
        m < p ==> expr(t, b, s, m) == climb(t, b, e, f, m),
{
    reveal(reached);
    let n = choose|n: nat|
        (#[trigger] run(t, b, s, n)) matches Some((g, d, q)) && g == f && d == e && q == p;
    lemma_run(t, b, s, n, m);
}

/// An operand is reached.
pub proof fn lemma_reached_nud(t: Table, b: Seq<u8>, s: int)
    requires
        nud(t, b, s) is Ok,
    ensures
        nud(t, b, s) matches Ok((f, e)) && reached(t, b, s, f, e, u32::MAX),
{
    reveal(reached);
    assert(run(t, b, s, 0) is Some);
}

/// From what is reached, one operator further.
pub proof fn lemma_reached_step(t: Table, b: Seq<u8>, s: int, f: Form, e: int, p: u32)
    requires
        reached(t, b, s, f, e, p),
        step(t, b, e, f) is Some,
    ensures
        step(t, b, e, f) matches Some((g, d, l)) && reached(t, b, s, g, d, least(p, l)),
{
    reveal(reached);
    let n = choose|n: nat|
        (#[trigger] run(t, b, s, n)) matches Some((g, d, q)) && g == f && d == e && q == p;
    assert(run(t, b, s, n + 1) is Some);
}

// ---- Locality ----------------------------------------------------------

/// The `w` bytes from `s` in `a` and from `r` in `b` are the same, lex the
/// same, and what follows them binds the same.
#[verifier::opaque]
pub open spec fn window(t: Table, a: Seq<u8>, s: int, b: Seq<u8>, r: int, w: int) -> bool {
    &&& 0 <= s
    &&& 0 <= r
    &&& 0 <= w
    &&& s + w <= a.len() <= u32::MAX
    &&& r + w <= b.len() <= u32::MAX
    &&& forall|x: int| 0 <= x < w ==> #[trigger] a[s + x] == b[r + x]
    &&& forall|x: int|
        0 <= x < w && inside(t, a, #[trigger] shifted(s, x), s + w) ==> moved(
            next_token(t, a, s + x),
            next_token(t, b, r + x),
            r - s,
        )
    &&& t.left_power(next_token(t, a, s + w).kind) == t.left_power(next_token(t, b, r + w).kind)
}

pub open spec fn shifted(s: int, x: int) -> int {
    s + x
}

/// There is a token at or after `at`, and it ends by `end`.
pub open spec fn inside(t: Table, b: Seq<u8>, at: int, end: int) -> bool {
    !(next_token(t, b, at).kind is Eof) && next_token(t, b, at).end <= end
}

/// `l` is `k`, `d` bytes on.
pub open spec fn moved(k: Token, l: Token, d: int) -> bool {
    l.kind == k.kind && l.start == k.start + d && l.end == k.end + d
}

/// What ends at `at` ends with the window, or before a token in it.
pub open spec fn known(t: Table, b: Seq<u8>, at: int, end: int) -> bool {
    at == end || inside(t, b, at, end)
}

pub proof fn lemma_window(t: Table, a: Seq<u8>, s: int, b: Seq<u8>, r: int, w: int)
    requires
        window(t, a, s, b, r, w),
    ensures
        0 <= s,
        0 <= r,
        0 <= w,
        s + w <= a.len() <= u32::MAX,
        r + w <= b.len() <= u32::MAX,
        t.left_power(next_token(t, a, s + w).kind) == t.left_power(next_token(t, b, r + w).kind),
{
    reveal(window);
}

proof fn lemma_token_moves(t: Table, a: Seq<u8>, s: int, b: Seq<u8>, r: int, w: int, x: int)
    requires
        window(t, a, s, b, r, w),
        0 <= x < w,
        inside(t, a, s + x, s + w),
    ensures
        moved(next_token(t, a, s + x), next_token(t, b, r + x), r - s),
{
    reveal(window);
    assert(inside(t, a, shifted(s, x), s + w));
}

proof fn lemma_text_moves(
    t: Table,
    a: Seq<u8>,
    s: int,
    b: Seq<u8>,
    r: int,
    w: int,
    x: int,
    y: int,
)
    requires
        window(t, a, s, b, r, w),
        0 <= x <= y <= w,
    ensures
        a.subrange(s + x, s + y) == b.subrange(r + x, r + y),
{
    reveal(window);
    let p = a.subrange(s + x, s + y);
    let q = b.subrange(r + x, r + y);
    assert forall|i: int| 0 <= i < y - x implies p[i] == q[i] by {
        assert(a[s + (x + i)] == b[r + (x + i)]);
    }
    assert(p =~= q);
}

/// `e`, moved.
pub open spec fn moved_to(p: Parsed, d: int) -> Parsed {
    match p {
        Ok((f, e)) => Ok((f, e + d)),
        Err(x) => Err(x),
    }
}

pub proof fn lemma_nud_moves(t: Table, a: Seq<u8>, s: int, b: Seq<u8>, r: int, w: int, x: int)
    requires
        t.wf(),
        window(t, a, s, b, r, w),
        0 <= x < w,
        nud(t, a, s + x) matches Ok((f, e)) && e <= s + w && known(t, a, e, s + w),
    ensures
        nud(t, b, r + x) == moved_to(nud(t, a, s + x), r - s),
    decreases a.len() - (s + x), 0int,
{
    lemma_window(t, a, s, b, r, w);
    let d = r - s;
    lemma_nud(t, a, s + x);
    lemma_next_token(t, a, s + x);
    let k = next_token(t, a, s + x);
    lemma_token_moves(t, a, s, b, r, w, x);
    let l = next_token(t, b, r + x);
    let y = k.end - s;
    if t.atom(k.kind) {
        lemma_text_moves(t, a, s, b, r, w, k.start - s, y);
    } else if t.prefix_of(k.kind) is Some {
        lemma_expr(t, a, k.end as int, t.prefix_of(k.kind)->0);
        lemma_expr_moves(t, a, s, b, r, w, y, t.prefix_of(k.kind)->0);
    } else {
        lemma_expr(t, a, k.end as int, MIN_PREC);
        let (f, e) = expr(t, a, k.end as int, MIN_PREC)->Ok_0;
        lemma_next_token(t, a, e);
        lemma_expr_moves(t, a, s, b, r, w, y, MIN_PREC);
        lemma_token_moves(t, a, s, b, r, w, e - s);
    }
}

pub proof fn lemma_expr_moves(
    t: Table,
    a: Seq<u8>,
    s: int,
    b: Seq<u8>,
    r: int,
    w: int,
    x: int,
    m: u32,
)
    requires
        t.wf(),
        window(t, a, s, b, r, w),
        0 <= x < w,
        expr(t, a, s + x, m) matches Ok((f, e)) && e <= s + w && known(t, a, e, s + w),
    ensures
        expr(t, b, r + x, m) == moved_to(expr(t, a, s + x, m), r - s),
    decreases a.len() - (s + x), 1int,
{
    lemma_window(t, a, s, b, r, w);
    lemma_nud(t, a, s + x);
    let (f, e) = nud(t, a, s + x)->Ok_0;
    lemma_climb(t, a, e, f, m);
    lemma_next_token(t, a, e);
    lemma_nud_moves(t, a, s, b, r, w, x);
    lemma_climb_moves(t, a, s, b, r, w, e - s, f, m);
}

pub proof fn lemma_climb_moves(
    t: Table,
    a: Seq<u8>,
    s: int,
    b: Seq<u8>,
    r: int,
    w: int,
    x: int,
    left: Form,
    m: u32,
)
    requires
        t.wf(),
        window(t, a, s, b, r, w),
        0 <= x <= w,
        climb(t, a, s + x, left, m) matches Ok((f, e)) && e <= s + w && known(t, a, e, s + w),
    ensures
        climb(t, b, r + x, left, m) == moved_to(climb(t, a, s + x, left, m), r - s),
    decreases a.len() - (s + x), 0int,
{
    lemma_window(t, a, s, b, r, w);
    let k = next_token(t, a, s + x);
    lemma_climb(t, a, s + x, left, m);
    lemma_next_token(t, a, s + x);
    if t.left_power(k.kind) <= m {
        if x < w {
            lemma_token_moves(t, a, s, b, r, w, x);
        }
    } else {
        let y = k.end - s;
        if t.postfix_of(k.kind) is Some {
            let g = Form::Postfix { op: k.kind, child: Box::new(left) };
            lemma_climb(t, a, k.end as int, g, m);
            lemma_token_moves(t, a, s, b, r, w, x);
            lemma_climb_moves(t, a, s, b, r, w, y, g, m);
        } else {
            lemma_expr(t, a, k.end as int, t.right_power(k.kind));
            let (f, e) = expr(t, a, k.end as int, t.right_power(k.kind))->Ok_0;
            let g = join(t, k.kind, left, f);
            lemma_climb(t, a, e, g, m);
            lemma_next_token(t, a, e);
            lemma_token_moves(t, a, s, b, r, w, x);
            lemma_expr_moves(t, a, s, b, r, w, y, t.right_power(k.kind));
            lemma_climb_moves(t, a, s, b, r, w, e - s, g, m);
        }
    }
}

proof fn lemma_run_moves(
    t: Table,
    a: Seq<u8>,
    s: int,
    b: Seq<u8>,
    r: int,
    w: int,
    x: int,
    n: nat,
)
    requires
        t.wf(),
        window(t, a, s, b, r, w),
        0 <= x < w,
        run(t, a, s + x, n) matches Some((f, e, p)) && e <= s + w && known(t, a, e, s + w),
    ensures
        run(t, a, s + x, n) matches Some((f, e, p)) && run(t, b, r + x, n) == Some((f, e + (r - s), p)),
    decreases n,
{
    lemma_window(t, a, s, b, r, w);
    if n == 0 {
        lemma_nud_moves(t, a, s, b, r, w, x);
    } else {
        lemma_run(t, a, s + x, (n - 1) as nat, 0);
        let (f, e, p) = run(t, a, s + x, (n - 1) as nat)->0;
        lemma_next_token(t, a, e);
        let k = next_token(t, a, e);
        lemma_expr(t, a, k.end as int, t.right_power(k.kind));
        assert(inside(t, a, e, s + w));
        lemma_run_moves(t, a, s, b, r, w, x, (n - 1) as nat);
        lemma_token_moves(t, a, s, b, r, w, e - s);
        if t.postfix_of(k.kind) is None {
            lemma_expr_moves(t, a, s, b, r, w, k.end - s, t.right_power(k.kind));
        }
    }
}

/// What is reached in a window is reached where the window stands elsewhere.
pub proof fn lemma_reached_moves(
    t: Table,
    a: Seq<u8>,
    s: int,
    b: Seq<u8>,
    r: int,
    w: int,
    x: int,
    f: Form,
    e: int,
    p: u32,
)
    requires
        t.wf(),
        window(t, a, s, b, r, w),
        0 <= x < w,
        reached(t, a, s + x, f, e, p),
        e <= s + w,
        known(t, a, e, s + w),
    ensures
        reached(t, b, r + x, f, e + (r - s), p),
{
    lemma_window(t, a, s, b, r, w);
    reveal(reached);
    let n = choose|n: nat|
        (#[trigger] run(t, a, s + x, n)) matches Some((g, d, q)) && g == f && d == e && q == p;
    lemma_run_moves(t, a, s, b, r, w, x, n);
    assert(run(t, b, r + x, n) is Some);
}

// ---- Trees in a text ---------------------------------------------------

/// The tree stands at byte `s`, every node of it: it is what parsing reaches
/// there, past operators the loosest of which binds as the node says, and was
/// parsed at a precedence below them.
pub open spec fn stands(t: Table, b: Seq<u8>, s: int, n: Node) -> bool
    decreases n,
{
    let e = s + n.width;
    let k = next_token(t, b, s);
    &&& 0 <= s < e <= b.len()
    &&& k.start == s
    &&& !(k.kind is Eof)
    &&& k.end <= e
    &&& reached(t, b, s, form_of(t, n), e, n.m_spine)
    &&& n.stop_lbp == t.left_power(next_token(t, b, e).kind)
    &&& floor_ok(t, n)
    &&& match n.kind {
        NodeKind::Atom(a) => k.end == e,
        NodeKind::Prefix { op, child } => {
            let c = next_token(t, b, k.end as int).start as int;
            stands(t, b, c, *child) && c + child.width == e
        },
        NodeKind::Postfix { op, child } => {
            let o = next_token(t, b, s + child.width);
            stands(t, b, s, *child) && !(o.kind is Eof) && o.end == e
        },
        NodeKind::Binary { op, left, right } => {
            let o = next_token(t, b, s + left.width);
            let c = next_token(t, b, o.end as int).start as int;
            &&& stands(t, b, s, *left)
            &&& !(o.kind is Eof)
            &&& stands(t, b, c, *right)
            &&& c + right.width == e
        },
        NodeKind::Paren { inner } => {
            let c = next_token(t, b, k.end as int).start as int;
            let o = next_token(t, b, c + inner.width);
            stands(t, b, c, *inner) && !(o.kind is Eof) && o.end == e
        },
    }
}

/// A shared tree stands at byte `s`.
pub open spec fn tree_stands(t: Table, b: Seq<u8>, s: int, n: Arc<Node>) -> bool {
    stands(t, b, s, *n)
}

/// Each node takes a byte of its own.
pub proof fn lemma_stands_count(t: Table, b: Seq<u8>, s: int, n: Arc<Node>)
    requires
        t.wf(),
        stands(t, b, s, *n),
        b.len() <= u32::MAX,
    ensures
        crate::runtime::ast::node_count(*n) <= n.width,
    decreases n,
{
    lemma_next_token(t, b, s);
    let k = next_token(t, b, s);
    match n.kind {
        NodeKind::Atom(a) => {},
        NodeKind::Prefix { op, child } => {
            lemma_next_token(t, b, k.end as int);
            lemma_stands_count(t, b, next_token(t, b, k.end as int).start as int, child);
        },
        NodeKind::Postfix { op, child } => {
            lemma_next_token(t, b, s + child.width);
            lemma_stands_count(t, b, s, child);
        },
        NodeKind::Binary { op, left, right } => {
            lemma_stands_count(t, b, s, left);
            lemma_next_token(t, b, s + left.width);
            let o = next_token(t, b, s + left.width);
            lemma_next_token(t, b, o.end as int);
            lemma_stands_count(t, b, next_token(t, b, o.end as int).start as int, right);
        },
        NodeKind::Paren { inner } => {
            lemma_next_token(t, b, k.end as int);
            let c = next_token(t, b, k.end as int).start as int;
            lemma_stands_count(t, b, c, inner);
            lemma_next_token(t, b, c + inner.width);
        },
    }
}

/// A subtree that starts after byte `s + y` moves with the window.
proof fn lemma_child_moves(
    t: Table,
    a: Seq<u8>,
    s: int,
    b: Seq<u8>,
    r: int,
    w: int,
    y: int,
    n: Arc<Node>,
)
    requires
        t.wf(),
        window(t, a, s, b, r, w),
        0 <= y < w,
        ({
            let c = next_token(t, a, s + y).start as int;
            &&& stands(t, a, c, *n)
            &&& c + n.width <= s + w
            &&& known(t, a, c + n.width, s + w)
        }),
    ensures
        ({
            let c = next_token(t, a, s + y).start as int;
            let d = next_token(t, b, r + y).start as int;
            d == c + (r - s) && stands(t, b, d, *n)
        }),
    decreases n, 1int,
{
    lemma_window(t, a, s, b, r, w);
    lemma_next_token(t, a, s + y);
    lemma_from_start(t, a, s + y, 0);
    let c = next_token(t, a, s + y).start as int;
    lemma_token_moves(t, a, s, b, r, w, y);
    lemma_stands_moves(t, a, s, b, r, w, c - s, n);
}

/// A tree stands wherever the window it stands in does.
#[verifier::rlimit(60)]
pub proof fn lemma_stands_moves(
    t: Table,
    a: Seq<u8>,
    s: int,
    b: Seq<u8>,
    r: int,
    w: int,
    x: int,
    n: Arc<Node>,
)
    requires
        t.wf(),
        window(t, a, s, b, r, w),
        0 <= x < w,
        stands(t, a, s + x, *n),
        s + x + n.width <= s + w,
        known(t, a, s + x + n.width, s + w),
    ensures
        stands(t, b, r + x, *n),
    decreases n, 0int,
{
    lemma_window(t, a, s, b, r, w);
    let p = s + x;
    let e = p + n.width;
    let k = next_token(t, a, p);
    lemma_next_token(t, a, p);
    lemma_token_moves(t, a, s, b, r, w, x);
    lemma_reached_moves(t, a, s, b, r, w, x, crate::runtime::ast::form(t, n), e, n.m_spine);
    if e < s + w {
        lemma_token_moves(t, a, s, b, r, w, e - s);
    }
    match n.kind {
        NodeKind::Atom(_) => {},
        NodeKind::Prefix { op, child } => {
            lemma_next_token(t, a, k.end as int);
            assert(stands(t, a, next_token(t, a, k.end as int).start as int, *child));
            lemma_child_moves(t, a, s, b, r, w, k.end - s, child);
        },
        NodeKind::Postfix { op, child } => {
            lemma_next_token(t, a, p + child.width);
            assert(stands(t, a, p, *child));
            lemma_token_moves(t, a, s, b, r, w, x + child.width);
            lemma_stands_moves(t, a, s, b, r, w, x, child);
        },
        NodeKind::Binary { op, left, right } => {
            lemma_next_token(t, a, p + left.width);
            let o = next_token(t, a, p + left.width);
            lemma_next_token(t, a, o.end as int);
            assert(stands(t, a, p, *left));
            assert(stands(t, a, next_token(t, a, o.end as int).start as int, *right));
            assert(inside(t, a, p + left.width, s + w));
            lemma_token_moves(t, a, s, b, r, w, x + left.width);
            lemma_stands_moves(t, a, s, b, r, w, x, left);
            lemma_child_moves(t, a, s, b, r, w, o.end - s, right);
        },
        NodeKind::Paren { inner } => {
            lemma_next_token(t, a, k.end as int);
            let c = next_token(t, a, k.end as int).start as int;
            assert(stands(t, a, c, *inner));
            lemma_next_token(t, a, c + inner.width);
            assert(inside(t, a, c + inner.width, s + w));
            lemma_token_moves(t, a, s, b, r, w, c + inner.width - s);
            lemma_child_moves(t, a, s, b, r, w, k.end - s, inner);
        },
    }
}

/// The same bytes, with the same byte after them or none, lex the same.
pub proof fn lemma_window_of_bytes(
    t: Table,
    a: Seq<u8>,
    s: int,
    b: Seq<u8>,
    r: int,
    w: int,
)
    requires
        t.wf(),
        t.one_byte_context(),
        0 <= s,
        0 <= r,
        0 <= w,
        s + w <= a.len() <= u32::MAX,
        r + w <= b.len() <= u32::MAX,
        a.subrange(s, s + w) == b.subrange(r, r + w),
        (s + w == a.len() && r + w == b.len()) || (s + w < a.len() && r + w < b.len() && a[s + w]
            == b[r + w]),
        t.left_power(next_token(t, a, s + w).kind) == t.left_power(next_token(t, b, r + w).kind),
    ensures
        window(t, a, s, b, r, w),
{
    reveal(window);
    let p = a.skip(s);
    let q = b.skip(r);
    assert forall|x: int| 0 <= x < w implies #[trigger] a[s + x] == b[r + x] by {
        assert(a.subrange(s, s + w)[x] == a[s + x]);
        assert(b.subrange(r, r + w)[x] == b[r + x]);
    }
    assert forall|x: int| 0 <= x < w && inside(t, a, #[trigger] shifted(s, x), s + w) implies moved(
        next_token(t, a, s + x),
        next_token(t, b, r + x),
        r - s,
    ) by {
        assert(same_rest(a, s + x, p, x));
        assert(same_rest(b, r + x, q, x));
        lemma_rest_next(t, a, s + x, p, x);
        lemma_rest_next(t, b, r + x, q, x);
        if s + w == a.len() {
            assert(p =~= q) by {
                assert forall|i: int| 0 <= i < w implies p[i] == q[i] by {
                    assert(a[s + i] == b[r + i]);
                }
            }
        } else {
            assert(same_head(p, q, w + 1)) by {
                assert forall|i: int| 0 <= i < w + 1 implies p[i] == #[trigger] q[i] by {
                    if i < w {
                        assert(a[s + i] == b[r + i]);
                    }
                }
            }
            lemma_head_next(t, p, q, w + 1, x);
        }
    }
}

} // verus!
