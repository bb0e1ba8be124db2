//! The rules that texts are read by, one by one: tokens, expressions, programs.

use vstd::prelude::*;
use vstd::utf8::*;

use crate::runtime::ast::{items, join, Form};
use crate::runtime::cursor::{
    is_word, lemma_digits_end, lemma_longest, lemma_next_token, lemma_word_end, next_token,
    stands_at, token_at, word_end,
};
use crate::runtime::grammar::{climb, expr, lemma_expr, lemma_nud, nud, parsed, ParseError};
use crate::runtime::host_grammar::{
    choices, chosen, first_term, head_len, head_open, is_keyword, lit, literal_stands, prod_parsed,
    program_parsed, scanned, sub_model, terminator, terms_parsed, then_kids, Fault, Grammar,
    KidKind, KidModel, Term,
};
use crate::runtime::table::{Table, TokenKind};
use crate::runtime::verify::past_space;

verus! {

// ---- Tokens ------------------------------------------------------------

/// A decimal digit.
pub open spec fn digit_byte(b: u8) -> bool {
    '0' as u8 <= b <= '9' as u8
}

/// A letter or an underscore.
pub open spec fn letter_byte(b: u8) -> bool {
    b == '_' as u8 || 'a' as u8 <= b <= 'z' as u8 || 'A' as u8 <= b <= 'Z' as u8
}

/// White space.
pub open spec fn blank(b: u8) -> bool {
    b == ' ' as u8 || b == '\t' as u8 || b == '\n' as u8 || b == '\r' as u8
}

/// Some symbol of the table stands at byte `i`.
pub open spec fn some_symbol(t: Table, b: Seq<u8>, i: int) -> bool {
    exists|j: int| 0 <= j < t.syms@.len() && #[trigger] stands_at(b, i, t.syms@[j].text@)
}

/// A token is the longest symbol that stands there; where none does, a run of digits or a
/// word, as far as it goes, if the table has such atoms.
pub proof fn law_token(t: Table, b: Seq<u8>, at: int)
    requires
        t.wf(),
        0 <= at <= b.len() <= u32::MAX,
    ensures
        ({
            let k = next_token(t, b, at);
            let (s, e) = (k.start as int, k.end as int);
            match k.kind {
                TokenKind::Sym(j) => {
                    &&& j < t.syms@.len()
                    &&& stands_at(b, s, t.syms@[j as int].text@)
                    &&& e == s + t.syms@[j as int].text@.len()
                    &&& forall|i: int|
                        0 <= i < t.syms@.len() && #[trigger] stands_at(b, s, t.syms@[i].text@)
                            ==> t.syms@[i].text@.len() <= t.syms@[j as int].text@.len()
                },
                TokenKind::Int => {
                    &&& t.int && !some_symbol(t, b, s)
                    &&& at <= s < e <= b.len()
                    &&& forall|i: int| s <= i < e ==> digit_byte(#[trigger] b[i])
                    &&& e < b.len() ==> !digit_byte(b[e])
                },
                TokenKind::Ident => {
                    &&& t.ident && !some_symbol(t, b, s)
                    &&& at <= s < e <= b.len()
                    &&& letter_byte(b[s])
                    &&& forall|i: int|
                        s <= i < e ==> letter_byte(#[trigger] b[i]) || digit_byte(b[i])
                    &&& e < b.len() ==> !letter_byte(b[e]) && !digit_byte(b[e])
                },
                TokenKind::Eof => s == b.len() && e == b.len(),
            }
        }),
{
    let k = next_token(t, b, at);
    let s = k.start as int;
    lemma_next_token(t, b, at);
    if s < b.len() {
        lemma_longest(t, b, s, t.syms@.len() as int);
        lemma_digits_end(b, s);
        lemma_word_end(b, s);
        if k.kind is Ident {
            assert forall|i: int| s <= i < k.end implies letter_byte(#[trigger] b[i]) || digit_byte(
                b[i],
            ) by {
                assert(is_word(b[i]));
            }
        }
        if k.kind is Int {
            assert forall|i: int| s <= i < k.end implies digit_byte(#[trigger] b[i]) by {
                assert(crate::runtime::cursor::is_digit(b[i]));
            }
        }
    }
}

/// What is passed over before a token is white space, or begins nothing that the table
/// knows.
pub proof fn law_passed_over(t: Table, b: Seq<u8>, at: int, i: int)
    requires
        t.wf(),
        0 <= at <= b.len() <= u32::MAX,
        at <= i < next_token(t, b, at).start,
    ensures
        blank(b[i]) || {
            &&& !some_symbol(t, b, i)
            &&& t.int ==> !digit_byte(b[i])
            &&& t.ident ==> !letter_byte(b[i])
        },
{
    lemma_next_token(t, b, at);
    assert(token_at(t, b, i) is None);
    lemma_longest(t, b, i, t.syms@.len() as int);
    if !blank(b[i]) && some_symbol(t, b, i) {
        let j = choose|j: int| 0 <= j < t.syms@.len() && #[trigger] stands_at(b, i, t.syms@[j].text@);
        assert(stands_at(b, i, t.syms@[j].text@));
    }
}

/// White space belongs to no token's start.
pub proof fn law_tokens_begin(t: Table, b: Seq<u8>, at: int)
    requires
        t.wf(),
        0 <= at <= b.len() <= u32::MAX,
        !(next_token(t, b, at).kind is Eof),
    ensures
        at <= next_token(t, b, at).start < next_token(t, b, at).end <= b.len(),
        !blank(b[next_token(t, b, at).start as int]),
{
    lemma_next_token(t, b, at);
}

proof fn lemma_past_space(b: Seq<u8>, pos: int)
    requires
        0 <= pos <= b.len(),
    ensures
        pos <= past_space(b, pos) <= b.len(),
        forall|i: int| pos <= i < past_space(b, pos) ==> blank(#[trigger] b[i]),
        past_space(b, pos) < b.len() ==> !blank(b[past_space(b, pos)]),
    decreases b.len() - pos,
{
    if pos < b.len() && blank(b[pos]) {
        lemma_past_space(b, pos + 1);
    }
}

/// White space is passed over up to the first byte that is none.
pub proof fn law_past_space(b: Seq<u8>, pos: int)
    requires
        0 <= pos <= b.len(),
    ensures
        pos <= past_space(b, pos) <= b.len(),
        forall|i: int| pos <= i < past_space(b, pos) ==> blank(#[trigger] b[i]),
        past_space(b, pos) < b.len() ==> !blank(b[past_space(b, pos)]),
{
    lemma_past_space(b, pos);
}

/// The power read off the bytes is that of the next token, unless bytes are passed over
/// that the table does not know.
pub proof fn law_power_after(t: Table, b: Seq<u8>, pos: int)
    requires
        t.wf(),
        0 <= pos <= b.len() <= u32::MAX,
        next_token(t, b, pos).start == past_space(b, pos),
    ensures
        t.power_after(b, pos) == t.left_power(next_token(t, b, pos).kind),
{
    let p = past_space(b, pos);
    lemma_past_space(b, pos);
    lemma_next_token(t, b, pos);
    if p < b.len() {
        lemma_longest(t, b, p, t.syms@.len() as int);
    }
}

// ---- Tables ------------------------------------------------------------

/// What a table says of its symbol `i`: an operator between operands has the powers and the
/// class of that role, one after an operand its own power; all else binds nothing.
pub proof fn law_table(t: Table, i: u32)
    requires
        t.wf(),
        i < t.syms@.len(),
    ensures
        ({
            let (s, k) = (t.syms@[i as int], TokenKind::Sym(i));
            &&& s.infix matches Some(r) ==> t.left_power(k) == r.lbp && t.right_power(k) == r.rbp
                && t.class_of(k) == r.class
            &&& s.postfix matches Some(l) ==> t.left_power(k) == l && t.class_of(k) is Strong
            &&& s.infix is None && s.postfix is None ==> t.left_power(k) == 0 && t.right_power(k) == 0
                && t.class_of(k) is Strong
            &&& s.infix is None ==> t.right_power(k) == t.left_power(k)
            &&& t.prefix_of(k) == s.prefix
            &&& t.kind_text(k) == s.name@
            &&& !t.atom(k)
        }),
        forall|k: TokenKind| !(k is Sym) ==> #[trigger] t.left_power(k) == 0,
        t.atom(TokenKind::Int) == t.int,
        t.atom(TokenKind::Ident) == t.ident,
        !t.atom(TokenKind::Eof),
{
}

/// Where a form stands beside an operator whose chains may be regrouped, its operands and
/// those of the other side make one chain; beside any other, two operands.
pub proof fn law_join(t: Table, op: TokenKind, left: Form, right: Form)
    ensures
        t.regroups(op) ==> join(t, op, left, right) == (Form::Chain {
            op,
            items: items(op, left) + items(op, right),
        }),
        !t.regroups(op) ==> join(t, op, left, right) == (Form::Binary {
            op,
            left: Box::new(left),
            right: Box::new(right),
        }),
        t.regroups(op) ==> items(op, join(t, op, left, right)) == items(op, left) + items(op, right),
        !(left is Chain) ==> items(op, left) == seq![left],
        left matches Form::Chain { op: o, items: s } ==> items(op, left) == (if o == op {
            s
        } else {
            seq![left]
        }),
{
}

// ---- Expressions -------------------------------------------------------

/// What an operand is: an atom, a prefix operator and what it takes, or an expression
/// between the table's parentheses.
pub proof fn law_operand(t: Table, b: Seq<u8>, at: int)
    requires
        t.wf(),
        0 <= at <= b.len() <= u32::MAX,
    ensures
        ({
            let k = next_token(t, b, at);
            let e = k.end as int;
            let atom = t.atom(k.kind);
            let group = k.kind == TokenKind::Sym(t.open) && t.prefix_of(k.kind) is None;
            &&& atom ==> nud(t, b, at) == Ok::<(Form, int), ParseError>(
                (Form::Atom(decode_utf8(b.subrange(k.start as int, e))), e),
            )
            &&& t.prefix_of(k.kind) matches Some(m) ==> match expr(t, b, e, m) {
                Ok((f, z)) => nud(t, b, at) == Ok::<(Form, int), ParseError>(
                    (Form::Prefix { op: k.kind, child: Box::new(f) }, z),
                ),
                Err(x) => nud(t, b, at) == Err::<(Form, int), ParseError>(x),
            }
            &&& group ==> match expr(t, b, e, 0) {
                Ok((f, z)) => if next_token(t, b, z).kind == TokenKind::Sym(t.close) {
                    nud(t, b, at) == Ok::<(Form, int), ParseError>(
                        (Form::Paren { inner: Box::new(f) }, next_token(t, b, z).end as int),
                    )
                } else {
                    nud(t, b, at) == Err::<(Form, int), ParseError>(
                        ParseError::MissingCloseParen { at: next_token(t, b, z).start },
                    )
                },
                Err(x) => nud(t, b, at) == Err::<(Form, int), ParseError>(x),
            }
            &&& k.kind is Eof ==> nud(t, b, at) == Err::<(Form, int), ParseError>(
                ParseError::UnexpectedEof,
            )
            &&& !atom && t.prefix_of(k.kind) is None && !group && !(k.kind is Eof) ==> nud(t, b, at)
                == Err::<(Form, int), ParseError>(
                ParseError::UnexpectedToken { kind: k.kind, at: k.start },
            )
        }),
{
    lemma_next_token(t, b, at);
    lemma_nud(t, b, at);
}

/// An expression at `m` is an operand and what follows it as long as that binds above `m`:
/// postfix operators, and operators with a right operand at their right power.
pub proof fn law_expression(t: Table, b: Seq<u8>, at: int, left: Form, m: u32)
    requires
        t.wf(),
        0 <= at <= b.len() <= u32::MAX,
    ensures
        match nud(t, b, at) {
            Ok((f, e)) => expr(t, b, at, m) == climb(t, b, e, f, m),
            Err(x) => expr(t, b, at, m) == Err::<(Form, int), ParseError>(x),
        },
        ({
            let k = next_token(t, b, at);
            let e = k.end as int;
            let power = t.left_power(k.kind);
            &&& power <= m ==> climb(t, b, at, left, m) == Ok::<(Form, int), ParseError>((left, at))
            &&& power > m && t.postfix_of(k.kind) is Some ==> climb(t, b, at, left, m) == climb(
                t,
                b,
                e,
                Form::Postfix { op: k.kind, child: Box::new(left) },
                m,
            )
            &&& power > m && t.infix_of(k.kind) is Some ==> match expr(
                t,
                b,
                e,
                t.right_power(k.kind),
            ) {
                Ok((f, z)) => climb(t, b, at, left, m) == climb(
                    t,
                    b,
                    z,
                    join(t, k.kind, left, f),
                    m,
                ),
                Err(x) => climb(t, b, at, left, m) == Err::<(Form, int), ParseError>(x),
            }
        }),
        climb(t, b, at, left, m) matches Ok((f, e)) ==> t.left_power(next_token(t, b, e).kind) <= m,
    decreases b.len() - at,
{
    let k = next_token(t, b, at);
    lemma_next_token(t, b, at);
    lemma_nud(t, b, at);
    lemma_expr(t, b, at, m);
    if t.left_power(k.kind) > m {
        lemma_expr(t, b, k.end as int, t.right_power(k.kind));
        if t.postfix_of(k.kind) is Some {
            law_expression(
                t,
                b,
                k.end as int,
                Form::Postfix { op: k.kind, child: Box::new(left) },
                m,
            );
        } else if let Ok((f, e)) = expr(t, b, k.end as int, t.right_power(k.kind)) {
            law_expression(t, b, e, join(t, k.kind, left, f), m);
        }
    }
}

/// A whole text is one expression at 0, with nothing after it.
pub proof fn law_whole_text(t: Table, b: Seq<u8>)
    ensures
        parsed(t, b) == (match expr(t, b, 0, 0) {
            Ok((f, e)) => if next_token(t, b, e).kind is Eof {
                Ok(f)
            } else {
                Err(ParseError::TrailingTokens { at: next_token(t, b, e).start })
            },
            Err(x) => Err(x),
        }),
{
}

// ---- Programs ----------------------------------------------------------

/// How many bytes of a literal at `at` alternative `a` of production `p` begins with.
pub open spec fn lead(g: Grammar, b: Seq<u8>, p: int, a: int, at: int) -> Option<int> {
    head_len(g, b, first_term(g.terms(p, a)), at, 0)
}

/// Alternative `a` of production `p` can begin without a literal.
pub open spec fn leaderless(g: Grammar, p: int, a: int) -> bool {
    head_open(g, first_term(g.terms(p, a)), 0)
}

proof fn lemma_choices(g: Grammar, b: Seq<u8>, p: int, at: int, n: int)
    requires
        0 <= n <= g.prods@[p].alts@.len(),
    ensures
        ({
            let c = choices(g, b, p, at, n);
            &&& match c.best {
                Some((a, l)) => {
                    &&& 0 <= a < n
                    &&& lead(g, b, p, a, at) == Some(l)
                    &&& forall|i: int|
                        0 <= i < n ==> (#[trigger] lead(g, b, p, i, at) matches Some(m) ==> m <= l
                            && (m == l ==> a <= i))
                },
                None => forall|i: int| 0 <= i < n ==> (#[trigger] lead(g, b, p, i, at)) is None,
            }
            &&& match c.open {
                Some(a) => {
                    &&& 0 <= a < n
                    &&& lead(g, b, p, a, at) is None
                    &&& leaderless(g, p, a)
                    &&& forall|i: int|
                        a < i < n && (#[trigger] lead(g, b, p, i, at)) is None ==> !leaderless(
                            g,
                            p,
                            i,
                        )
                },
                None => forall|i: int|
                    0 <= i < n && (#[trigger] lead(g, b, p, i, at)) is None ==> !leaderless(g, p, i),
            }
        }),
    decreases n,
{
    if n > 0 {
        lemma_choices(g, b, p, at, n - 1);
        let x = lead(g, b, p, n - 1, at);
        assert(g.terms(p, n - 1) == g.prods@[p].alts@[n - 1].terms@);
    }
}

/// The first literal chooses: the alternative with the longest one that stands there, the
/// first of several; else the last one that needs none; else there is no statement.
pub proof fn law_choice(g: Grammar, b: Seq<u8>, p: int, pos: int)
    ensures
        ({
            let at = past_space(b, pos);
            let n = g.prods@[p].alts@.len();
            match chosen(g, b, p, pos) {
                Some(a) => {
                    &&& 0 <= a < n
                    &&& match lead(g, b, p, a, at) {
                        Some(l) => forall|i: int|
                            0 <= i < n ==> (#[trigger] lead(g, b, p, i, at) matches Some(m) ==> m <= l
                                && (m == l ==> a <= i)),
                        None => {
                            &&& leaderless(g, p, a)
                            &&& forall|i: int|
                                0 <= i < n ==> (#[trigger] lead(g, b, p, i, at)) is None
                            &&& forall|i: int| a < i < n ==> !#[trigger] leaderless(g, p, i)
                        },
                    }
                },
                None => forall|i: int|
                    0 <= i < n ==> (#[trigger] lead(g, b, p, i, at)) is None && !leaderless(g, p, i),
            }
        }),
{
    let at = past_space(b, pos);
    let n = g.prods@[p].alts@.len() as int;
    lemma_choices(g, b, p, at, n);
    let c = choices(g, b, p, at, n);
    if c.best is None {
        if let Some(a) = c.open {
            assert forall|i: int| a < i < n implies !#[trigger] leaderless(g, p, i) by {
                assert(lead(g, b, p, i, at) is None);
            }
        }
    }
}

/// A production is one of its alternatives, read term by term; a program is the start
/// production, with nothing but white space after it.
pub proof fn law_production(t: Table, g: Grammar, b: Seq<u8>, p: int, pos: int)
    ensures
        match chosen(g, b, p, pos) {
            None => prod_parsed(t, g, b, p, pos) == Err::<(int, Seq<KidModel>, int), Fault>(
                Fault::Expected("statement"@, past_space(b, pos)),
            ),
            Some(a) => match terms_parsed(t, g, b, p, a, 0, pos, false) {
                Ok((kids, e)) => prod_parsed(t, g, b, p, pos) == Ok::<
                    (int, Seq<KidModel>, int),
                    Fault,
                >((a, kids, e)),
                Err(x) => prod_parsed(t, g, b, p, pos) == Err::<(int, Seq<KidModel>, int), Fault>(x),
            },
        },
        program_parsed(t, g, b) == (match prod_parsed(t, g, b, g.start as int, 0) {
            Ok((a, kids, e)) => if past_space(b, e) == b.len() {
                Ok((a, kids, e))
            } else {
                Err(Fault::Trailing(e))
            },
            Err(x) => Err(x),
        }),
{
}

/// How a term is read, white space before it passed over: a literal where it stands, a
/// name up to where the word ends, unless it is a keyword.
pub proof fn law_word_terms(
    t: Table,
    g: Grammar,
    b: Seq<u8>,
    p: int,
    a: int,
    i: int,
    pos: int,
    moved: bool,
)
    requires
        g.wf(),
        0 <= p < g.prods@.len(),
        0 <= a < g.prods@[p].alts@.len(),
        0 <= i < g.terms(p, a).len(),
        0 <= pos <= b.len(),
    ensures
        ({
            let at = past_space(b, pos);
            let all = terms_parsed(t, g, b, p, a, i, pos, moved);
            match g.terms(p, a)[i] {
                Term::Tok(s) => if literal_stands(b, at, lit(s)) {
                    let e = at + lit(s).len();
                    all == then_kids(
                        seq![KidModel { width: e - pos, what: KidKind::Tok(s@) }],
                        terms_parsed(t, g, b, p, a, i + 1, e, true),
                    )
                } else {
                    all == Err::<(Seq<KidModel>, int), Fault>(Fault::Expected(s@, at))
                },
                Term::Ident => {
                    let e = word_end(b, at);
                    let word = decode_utf8(b.subrange(at, e));
                    if at < e && !is_keyword(g, word) {
                        all == then_kids(
                            seq![KidModel { width: e - pos, what: KidKind::Id(word) }],
                            terms_parsed(t, g, b, p, a, i + 1, e, true),
                        )
                    } else {
                        all == Err::<(Seq<KidModel>, int), Fault>(
                            Fault::Expected("identifier"@, at),
                        )
                    }
                },
                _ => true,
            }
        }),
        forall|word: Seq<char>| #[trigger]
            is_keyword(g, word) <==> exists|k: int|
                0 <= k < g.keywords@.len() && (#[trigger] g.keywords@[k])@ == word,
{
    lemma_past_space(b, pos);
    let at = past_space(b, pos);
    lemma_word_end(b, at);
    assert(g.term_ok(g.terms(p, a)[i]));
}

/// An expression is all up to the literal after it, or to the end of the text.
pub proof fn law_expr_term(
    t: Table,
    g: Grammar,
    b: Seq<u8>,
    p: int,
    a: int,
    i: int,
    pos: int,
    moved: bool,
)
    requires
        t.wf(),
        0 <= i < g.terms(p, a).len(),
        0 <= pos <= b.len() <= u32::MAX,
        g.terms(p, a)[i] is Expr,
    ensures
        ({
            let e = scanned(b, pos, terminator(g.terms(p, a), i));
            let all = terms_parsed(t, g, b, p, a, i, pos, moved);
            &&& pos <= e <= b.len()
            &&& match terminator(g.terms(p, a), i) {
                Some(s) => s.len() > 0 ==> (e < b.len() ==> stands_at(b, e, s)) && forall|j: int|
                    pos <= j < e ==> !#[trigger] stands_at(b, j, s),
                None => e == b.len(),
            }
            &&& match parsed(t, b.subrange(pos, e)) {
                Ok(f) => all == then_kids(
                    seq![KidModel { width: e - pos, what: KidKind::Expr(f) }],
                    terms_parsed(t, g, b, p, a, i + 1, e, true),
                ),
                Err(x) => all == Err::<(Seq<KidModel>, int), Fault>(Fault::Expr(x)),
            }
        }),
{
    let s = terminator(g.terms(p, a), i);
    let e = scanned(b, pos, s);
    lemma_scanned(b, pos, s);
    if pos == e {
        let none = b.subrange(pos, e);
        assert(none.len() == 0);
        lemma_nud(t, none, 0);
        lemma_next_token(t, none, 0);
    }
}

proof fn lemma_scanned(b: Seq<u8>, pos: int, s: Option<Seq<u8>>)
    requires
        0 <= pos <= b.len(),
    ensures
        pos <= scanned(b, pos, s) <= b.len(),
        s matches Some(x) ==> x.len() > 0 ==> {
            &&& scanned(b, pos, s) < b.len() ==> stands_at(b, scanned(b, pos, s), x)
            &&& forall|j: int| pos <= j < scanned(b, pos, s) ==> !#[trigger] stands_at(b, j, x)
        },
        s is None ==> scanned(b, pos, s) == b.len(),
    decreases b.len() - pos,
{
    if let Some(x) = s {
        if x.len() > 0 && pos + x.len() <= b.len() && !stands_at(b, pos, x) {
            lemma_scanned(b, pos + 1, s);
        }
    }
}

/// A production that is repeated is read again and again until the literal after it
/// stands there, or the text ends.
pub proof fn law_repetition(
    t: Table,
    g: Grammar,
    b: Seq<u8>,
    p: int,
    a: int,
    i: int,
    pos: int,
    j: usize,
)
    requires
        0 <= i < g.terms(p, a).len(),
        0 <= pos <= b.len(),
        g.terms(p, a)[i] == Term::Rep(j),
        g.rank(j as int) < g.top(),
    ensures
        ({
            let at = past_space(b, pos);
            let all = terms_parsed(t, g, b, p, a, i, pos, true);
            let ended = at == b.len() || (terminator(g.terms(p, a), i) matches Some(s)
                && literal_stands(b, at, s));
            &&& ended ==> all == terms_parsed(t, g, b, p, a, i + 1, pos, true)
            &&& !ended ==> match prod_parsed(t, g, b, j as int, pos) {
                Ok((c, kids, e)) => pos < e <= b.len() ==> all == then_kids(
                    seq![sub_model(pos, j as int, c, kids, e)],
                    terms_parsed(t, g, b, p, a, i, e, true),
                ),
                Err(x) => all == Err::<(Seq<KidModel>, int), Fault>(x),
            }
        }),
{
    lemma_past_space(b, pos);
}

} // verus!
