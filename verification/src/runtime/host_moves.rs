//! What a parse of a program depends on: the text from its start on, and not
//! much past its end.

use vstd::prelude::*;
use vstd::utf8::*;

use crate::expr::lexer::lemma_boundary_after;
use crate::runtime::cursor::{is_space, is_word, lemma_word_end, stands_at, word_end};
use crate::runtime::host::{
    ended, lemma_chosen, lemma_literal_boundary, lemma_literal_start, lemma_past_space,
    lemma_progress, lemma_scanned, lemma_solid_prod, lemma_space_boundary,
};
use crate::runtime::host_grammar::{
    choices, chosen, first_term, head_len, heads_len, lit, literal_stands, prod_parsed, scanned,
    sub_model, takes_bytes, terminator, terms_parsed, then_kids, Fault, Grammar, KidKind, KidModel,
    Term,
};
use crate::runtime::lexing::{
    lemma_head_stands, lemma_rest_at, lemma_rest_stands, lemma_rest_word, same_head, same_rest,
};
use crate::runtime::table::Table;
use crate::runtime::verify::past_space;

verus! {

// ---- The text from the start on ----------------------------------------

pub proof fn lemma_rest_space(a: Seq<u8>, i: int, b: Seq<u8>, j: int)
    requires
        same_rest(a, i, b, j),
    ensures
        past_space(b, j) == past_space(a, i) - i + j,
    decreases a.len() - i,
{
    if i < a.len() {
        lemma_rest_at(a, i, b, j, i);
        lemma_rest_at(a, i, b, j, i + 1);
        if is_space(a[i]) {
            lemma_rest_space(a, i + 1, b, j + 1);
        }
    }
}

proof fn lemma_rest_literal(a: Seq<u8>, i: int, b: Seq<u8>, j: int, s: Seq<u8>)
    requires
        same_rest(a, i, b, j),
    ensures
        literal_stands(a, i, s) == literal_stands(b, j, s),
{
    lemma_rest_stands(a, i, b, j, s);
    if stands_at(a, i, s) {
        lemma_rest_at(a, i, b, j, i + s.len());
    }
}

proof fn lemma_rest_scanned(a: Seq<u8>, i: int, b: Seq<u8>, j: int, s: Option<Seq<u8>>)
    requires
        same_rest(a, i, b, j),
    ensures
        scanned(b, j, s) == scanned(a, i, s) - i + j,
    decreases a.len() - i,
{
    if let Some(x) = s {
        if x.len() > 0 && i + x.len() <= a.len() {
            lemma_rest_stands(a, i, b, j, x);
            if !stands_at(a, i, x) {
                lemma_rest_at(a, i, b, j, i + 1);
                lemma_rest_scanned(a, i + 1, b, j + 1, s);
            }
        }
    }
}

proof fn lemma_rest_head(
    g: Grammar,
    a: Seq<u8>,
    i: int,
    b: Seq<u8>,
    j: int,
    x: Option<Term>,
    depth: int,
)
    requires
        same_rest(a, i, b, j),
    ensures
        head_len(g, a, x, i, depth) == head_len(g, b, x, j, depth),
    decreases g.prods@.len() + 1 - depth, 1int, 0int,
{
    if depth <= g.prods@.len() {
        match x {
            Some(Term::Tok(s)) => lemma_rest_literal(a, i, b, j, lit(s)),
            Some(Term::Nt(k)) => lemma_rest_heads(
                g,
                a,
                i,
                b,
                j,
                k as int,
                g.prods@[k as int].alts@.len() as int,
                depth,
            ),
            Some(Term::Rep(k)) => lemma_rest_heads(
                g,
                a,
                i,
                b,
                j,
                k as int,
                g.prods@[k as int].alts@.len() as int,
                depth,
            ),
            _ => {},
        }
    }
}

proof fn lemma_rest_heads(
    g: Grammar,
    a: Seq<u8>,
    i: int,
    b: Seq<u8>,
    j: int,
    p: int,
    n: int,
    depth: int,
)
    requires
        same_rest(a, i, b, j),
    ensures
        heads_len(g, a, p, n, i, depth) == heads_len(g, b, p, n, j, depth),
    decreases g.prods@.len() + 1 - depth, 0int, n,
{
    if n > 0 && depth <= g.prods@.len() {
        lemma_rest_heads(g, a, i, b, j, p, n - 1, depth);
        lemma_rest_head(g, a, i, b, j, first_term(g.prods@[p].alts@[n - 1].terms@), depth + 1);
    }
}

proof fn lemma_rest_choices(g: Grammar, a: Seq<u8>, i: int, b: Seq<u8>, j: int, p: int, n: int)
    requires
        same_rest(a, i, b, j),
    ensures
        choices(g, a, p, i, n) == choices(g, b, p, j, n),
    decreases n,
{
    if n > 0 {
        lemma_rest_choices(g, a, i, b, j, p, n - 1);
        lemma_rest_head(g, a, i, b, j, first_term(g.prods@[p].alts@[n - 1].terms@), 0);
    }
}

proof fn lemma_rest_chosen(g: Grammar, a: Seq<u8>, i: int, b: Seq<u8>, j: int, p: int)
    requires
        same_rest(a, i, b, j),
    ensures
        chosen(g, a, p, i) == chosen(g, b, p, j),
{
    lemma_past_space(a, i);
    lemma_rest_space(a, i, b, j);
    let x = past_space(a, i);
    lemma_rest_at(a, i, b, j, x);
    lemma_rest_choices(g, a, x, b, x - i + j, p, g.prods@[p].alts@.len() as int);
}

proof fn lemma_rest_part(a: Seq<u8>, i: int, b: Seq<u8>, j: int, x: int, y: int)
    requires
        same_rest(a, i, b, j),
        i <= x <= y <= a.len(),
    ensures
        a.subrange(x, y) == b.subrange(x - i + j, y - i + j),
{
    let (u, v) = (a.subrange(x, y), b.subrange(x - i + j, y - i + j));
    assert forall|k: int| 0 <= k < u.len() implies u[k] == v[k] by {
        assert(b[j + (x - i + k)] == a[i + (x - i + k)]);
    }
    assert(u =~= v);
}

/// The text of `a` from byte `pos` on is that of `b`, `d` bytes further.
#[verifier::opaque]
pub open spec fn goes_on(a: Seq<u8>, b: Seq<u8>, pos: int, d: int) -> bool {
    same_rest(a, pos, b, pos + d)
}

proof fn lemma_on_at(a: Seq<u8>, b: Seq<u8>, pos: int, d: int, x: int)
    requires
        goes_on(a, b, pos, d),
        pos <= x <= a.len(),
    ensures
        goes_on(a, b, x, d),
{
    reveal(goes_on);
    lemma_rest_at(a, pos, b, pos + d, x);
}

proof fn lemma_on_space(a: Seq<u8>, b: Seq<u8>, pos: int, d: int)
    requires
        goes_on(a, b, pos, d),
    ensures
        0 <= pos <= past_space(a, pos) <= a.len(),
        a.len() + d == b.len(),
        past_space(b, pos + d) == past_space(a, pos) + d,
        goes_on(a, b, past_space(a, pos), d),
{
    reveal(goes_on);
    lemma_past_space(a, pos);
    lemma_rest_space(a, pos, b, pos + d);
    lemma_rest_at(a, pos, b, pos + d, past_space(a, pos));
}

proof fn lemma_on_literal(a: Seq<u8>, b: Seq<u8>, at: int, d: int, s: Seq<u8>)
    requires
        goes_on(a, b, at, d),
    ensures
        literal_stands(a, at, s) == literal_stands(b, at + d, s),
        literal_stands(a, at, s) ==> goes_on(a, b, at + s.len(), d),
{
    reveal(goes_on);
    lemma_rest_literal(a, at, b, at + d, s);
    if stands_at(a, at, s) {
        lemma_rest_at(a, at, b, at + d, at + s.len());
    }
}

proof fn lemma_on_word(a: Seq<u8>, b: Seq<u8>, at: int, d: int)
    requires
        goes_on(a, b, at, d),
    ensures
        ({
            let e = word_end(a, at);
            &&& at <= e <= a.len()
            &&& word_end(b, at + d) == e + d
            &&& a.subrange(at, e) == b.subrange(at + d, e + d)
            &&& goes_on(a, b, e, d)
        }),
{
    reveal(goes_on);
    lemma_rest_word(a, at, b, at + d);
    lemma_word_end(a, at);
    lemma_rest_part(a, at, b, at + d, at, word_end(a, at));
    lemma_rest_at(a, at, b, at + d, word_end(a, at));
}

proof fn lemma_on_scanned(a: Seq<u8>, b: Seq<u8>, pos: int, d: int, x: Option<Seq<u8>>)
    requires
        goes_on(a, b, pos, d),
    ensures
        ({
            let e = scanned(a, pos, x);
            &&& pos <= e <= a.len()
            &&& scanned(b, pos + d, x) == e + d
            &&& a.subrange(pos, e) == b.subrange(pos + d, e + d)
            &&& goes_on(a, b, e, d)
        }),
{
    reveal(goes_on);
    lemma_rest_scanned(a, pos, b, pos + d, x);
    lemma_scanned(a, pos, x);
    lemma_rest_part(a, pos, b, pos + d, pos, scanned(a, pos, x));
    lemma_rest_at(a, pos, b, pos + d, scanned(a, pos, x));
}

/// A production parses alike wherever the same text goes on to the end.
pub proof fn lemma_rest_prod(
    t: Table,
    g: Grammar,
    a: Seq<u8>,
    b: Seq<u8>,
    p: int,
    pos: int,
    d: int,
)
    requires
        goes_on(a, b, pos, d),
    ensures
        prod_parsed(t, g, a, p, pos) matches Ok((c, ks, e)) ==> prod_parsed(t, g, b, p, pos + d)
            == Ok::<(int, Seq<KidModel>, int), Fault>((c, ks, e + d)),
    decreases a.len() - pos, g.rank(p), 1int, 0int,
{
    assert(chosen(g, a, p, pos) == chosen(g, b, p, pos + d)) by {
        reveal(goes_on);
        lemma_rest_chosen(g, a, pos, b, pos + d, p);
    }
    if let Some(c) = chosen(g, a, p, pos) {
        lemma_rest_terms(t, g, a, b, p, c, 0, pos, d, false);
    }
}

#[verifier::rlimit(40)]
pub proof fn lemma_rest_terms(
    t: Table,
    g: Grammar,
    a: Seq<u8>,
    b: Seq<u8>,
    p: int,
    c: int,
    i: int,
    pos: int,
    d: int,
    moved: bool,
)
    requires
        goes_on(a, b, pos, d),
    ensures
        terms_parsed(t, g, a, p, c, i, pos, moved) matches Ok((ks, e)) ==> terms_parsed(
            t,
            g,
            b,
            p,
            c,
            i,
            pos + d,
            moved,
        ) == Ok::<(Seq<KidModel>, int), Fault>((ks, e + d)),
    decreases
            a.len() - pos,
            (if moved {
                g.top()
            } else {
                g.rank(p)
            }),
            0int,
            g.terms(p, c).len() - i,
{
    let terms = g.terms(p, c);
    if 0 <= i < terms.len() && terms_parsed(t, g, a, p, c, i, pos, moved) is Ok {
        lemma_on_space(a, b, pos, d);
        let at = past_space(a, pos);
        match terms[i] {
            Term::Tok(s) => {
                lemma_on_literal(a, b, at, d, lit(s));
                lemma_rest_terms(t, g, a, b, p, c, i + 1, at + lit(s).len(), d, true);
            },
            Term::Ident => {
                lemma_on_word(a, b, at, d);
                lemma_rest_terms(t, g, a, b, p, c, i + 1, word_end(a, at), d, true);
            },
            Term::Expr => {
                let x = terminator(terms, i);
                lemma_on_scanned(a, b, pos, d, x);
                lemma_rest_terms(t, g, a, b, p, c, i + 1, scanned(a, pos, x), d, true);
            },
            Term::Nt(j) => {
                lemma_rest_prod(t, g, a, b, j as int, pos, d);
                let e = (prod_parsed(t, g, a, j as int, pos)->Ok_0).2;
                lemma_on_at(a, b, pos, d, e);
                lemma_rest_terms(t, g, a, b, p, c, i + 1, e, d, moved || pos < e);
            },
            Term::Rep(j) => {
                if let Some(s) = terminator(terms, i) {
                    lemma_on_literal(a, b, at, d, s);
                }
                assert(ended(a, terms, i, pos) == ended(b, terms, i, pos + d));
                if ended(a, terms, i, pos) {
                    lemma_rest_terms(t, g, a, b, p, c, i + 1, pos, d, moved);
                } else {
                    lemma_rest_prod(t, g, a, b, j as int, pos, d);
                    let e = (prod_parsed(t, g, a, j as int, pos)->Ok_0).2;
                    lemma_on_at(a, b, pos, d, e);
                    lemma_rest_terms(t, g, a, b, p, c, i, e, d, true);
                }
            },
        }
    }
}

// ---- Not much past the end ---------------------------------------------

/// Every literal of the grammar is shorter than `m` bytes.
pub open spec fn shorter(g: Grammar, m: int) -> bool {
    &&& m >= 1
    &&& forall|p: int, a: int, i: int|
        0 <= p < g.prods@.len() && 0 <= a < g.prods@[p].alts@.len() && 0 <= i < g.terms(p, a).len()
            ==> (#[trigger] g.terms(p, a)[i] matches Term::Tok(s) ==> lit(s).len() < m)
}

/// White space ends no earlier from a later place on.
proof fn lemma_space_order(b: Seq<u8>, x: int, y: int)
    requires
        0 <= x <= y <= b.len(),
    ensures
        past_space(b, x) <= past_space(b, y),
    decreases y - x,
{
    lemma_past_space(b, y);
    if x < y && is_space(b[x]) {
        lemma_space_order(b, x + 1, y);
    }
}

proof fn lemma_head_space(a: Seq<u8>, b: Seq<u8>, lim: int, x: int)
    requires
        same_head(a, b, lim),
        0 <= x <= a.len(),
        past_space(a, x) < lim,
    ensures
        past_space(b, x) == past_space(a, x),
    decreases a.len() - x,
{
    lemma_past_space(a, x);
    assert(a[x] == b[x]);
    if is_space(a[x]) {
        lemma_head_space(a, b, lim, x + 1);
    }
}

proof fn lemma_head_word(a: Seq<u8>, b: Seq<u8>, lim: int, x: int)
    requires
        same_head(a, b, lim),
        0 <= x <= a.len(),
        word_end(a, x) < lim,
    ensures
        word_end(b, x) == word_end(a, x),
    decreases a.len() - x,
{
    lemma_word_end(a, x);
    assert(a[x] == b[x]);
    if is_word(a[x]) {
        lemma_head_word(a, b, lim, x + 1);
    }
}

proof fn lemma_head_literal(a: Seq<u8>, b: Seq<u8>, lim: int, x: int, s: Seq<u8>)
    requires
        same_head(a, b, lim),
        0 <= x,
        x + s.len() < lim,
    ensures
        literal_stands(a, x, s) == literal_stands(b, x, s),
{
    lemma_head_stands(a, b, lim, x, s);
    assert(a[x + s.len()] == b[x + s.len()]);
}

proof fn lemma_head_scanned(a: Seq<u8>, b: Seq<u8>, lim: int, x: int, s: Seq<u8>)
    requires
        same_head(a, b, lim),
        0 <= x <= a.len(),
        scanned(a, x, Some(s)) + s.len() <= lim,
        s.len() > 0,
    ensures
        scanned(b, x, Some(s)) == scanned(a, x, Some(s)),
    decreases a.len() - x,
{
    lemma_scanned(a, x, Some(s));
    if x + s.len() <= a.len() {
        lemma_head_stands(a, b, lim, x, s);
        if !stands_at(a, x, s) {
            lemma_head_scanned(a, b, lim, x + 1, s);
        }
    }
}

proof fn lemma_head_head(
    g: Grammar,
    a: Seq<u8>,
    b: Seq<u8>,
    lim: int,
    m: int,
    x: Option<Term>,
    at: int,
    depth: int,
)
    requires
        g.wf(),
        same_head(a, b, lim),
        shorter(g, m),
        0 <= at,
        at + m <= lim,
        x matches Some(y) ==> g.term_ok(y) && (y matches Term::Tok(s) ==> lit(s).len() < m),
    ensures
        head_len(g, a, x, at, depth) == head_len(g, b, x, at, depth),
    decreases g.prods@.len() + 1 - depth, 1int, 0int,
{
    if depth <= g.prods@.len() {
        match x {
            Some(Term::Tok(s)) => lemma_head_literal(a, b, lim, at, lit(s)),
            Some(Term::Nt(k)) => lemma_head_heads(
                g,
                a,
                b,
                lim,
                m,
                k as int,
                g.prods@[k as int].alts@.len() as int,
                at,
                depth,
            ),
            Some(Term::Rep(k)) => lemma_head_heads(
                g,
                a,
                b,
                lim,
                m,
                k as int,
                g.prods@[k as int].alts@.len() as int,
                at,
                depth,
            ),
            _ => {},
        }
    }
}

proof fn lemma_first_term(g: Grammar, m: int, p: int, a: int)
    requires
        g.wf(),
        shorter(g, m),
        0 <= p < g.prods@.len(),
        0 <= a < g.prods@[p].alts@.len(),
    ensures
        first_term(g.prods@[p].alts@[a].terms@) matches Some(y) ==> g.term_ok(y) && (
        y matches Term::Tok(s) ==> lit(s).len() < m),
{
    if g.terms(p, a).len() > 0 {
        assert(g.term_ok(g.terms(p, a)[0]));
    }
}

proof fn lemma_head_heads(
    g: Grammar,
    a: Seq<u8>,
    b: Seq<u8>,
    lim: int,
    m: int,
    p: int,
    n: int,
    at: int,
    depth: int,
)
    requires
        g.wf(),
        same_head(a, b, lim),
        shorter(g, m),
        0 <= at,
        at + m <= lim,
        0 <= p < g.prods@.len(),
        n <= g.prods@[p].alts@.len(),
    ensures
        heads_len(g, a, p, n, at, depth) == heads_len(g, b, p, n, at, depth),
    decreases g.prods@.len() + 1 - depth, 0int, n,
{
    if n > 0 && depth <= g.prods@.len() {
        lemma_head_heads(g, a, b, lim, m, p, n - 1, at, depth);
        lemma_first_term(g, m, p, n - 1);
        lemma_head_head(
            g,
            a,
            b,
            lim,
            m,
            first_term(g.prods@[p].alts@[n - 1].terms@),
            at,
            depth + 1,
        );
    }
}

proof fn lemma_head_choices(
    g: Grammar,
    a: Seq<u8>,
    b: Seq<u8>,
    lim: int,
    m: int,
    p: int,
    at: int,
    n: int,
)
    requires
        g.wf(),
        same_head(a, b, lim),
        shorter(g, m),
        0 <= at,
        at + m <= lim,
        0 <= p < g.prods@.len(),
        n <= g.prods@[p].alts@.len(),
    ensures
        choices(g, a, p, at, n) == choices(g, b, p, at, n),
    decreases n,
{
    if n > 0 {
        lemma_head_choices(g, a, b, lim, m, p, at, n - 1);
        lemma_first_term(g, m, p, n - 1);
        lemma_head_head(g, a, b, lim, m, first_term(g.prods@[p].alts@[n - 1].terms@), at, 0);
    }
}

/// A production parses alike in texts that are the same up to `m` bytes past
/// the white space after it.
pub proof fn lemma_head_prod(
    t: Table,
    g: Grammar,
    a: Seq<u8>,
    b: Seq<u8>,
    lim: int,
    m: int,
    p: int,
    pos: int,
)
    requires
        g.wf(),
        same_head(a, b, lim),
        shorter(g, m),
        0 <= p < g.prods@.len(),
        0 <= pos <= a.len(),
        prod_parsed(t, g, a, p, pos) matches Ok((c, ks, e)) && past_space(a, e) + m <= lim,
    ensures
        prod_parsed(t, g, b, p, pos) == prod_parsed(t, g, a, p, pos),
    decreases a.len() - pos, g.rank(p), 1int, 0int,
{
    let c = chosen(g, a, p, pos)->0;
    lemma_chosen(g, a, p, pos);
    lemma_progress(t, g, a, p, c, 0, pos, false, 0);
    let e = (terms_parsed(t, g, a, p, c, 0, pos, false)->Ok_0).1;
    lemma_past_space(a, pos);
    lemma_space_order(a, pos, e);
    lemma_head_space(a, b, lim, pos);
    lemma_head_choices(
        g,
        a,
        b,
        lim,
        m,
        p,
        past_space(a, pos),
        g.prods@[p].alts@.len() as int,
    );
    lemma_head_terms(t, g, a, b, lim, m, p, c, 0, pos, false);
}

#[verifier::rlimit(60)]
proof fn lemma_head_terms(
    t: Table,
    g: Grammar,
    a: Seq<u8>,
    b: Seq<u8>,
    lim: int,
    m: int,
    p: int,
    c: int,
    i: int,
    pos: int,
    moved: bool,
)
    requires
        g.wf(),
        same_head(a, b, lim),
        shorter(g, m),
        0 <= p < g.prods@.len(),
        0 <= c < g.prods@[p].alts@.len(),
        0 <= pos <= a.len(),
        0 <= i,
        terms_parsed(t, g, a, p, c, i, pos, moved) matches Ok((ks, e)) && past_space(a, e) + m
            <= lim,
    ensures
        terms_parsed(t, g, b, p, c, i, pos, moved) == terms_parsed(t, g, a, p, c, i, pos, moved),
    decreases
            a.len() - pos,
            (if moved {
                g.top()
            } else {
                g.rank(p)
            }),
            0int,
            g.terms(p, c).len() - i,
{
    let terms = g.terms(p, c);
    if i < terms.len() {
        lemma_progress(t, g, a, p, c, i, pos, moved, i);
        let end = (terms_parsed(t, g, a, p, c, i, pos, moved)->Ok_0).1;
        lemma_past_space(a, pos);
        lemma_past_space(a, end);
        lemma_space_order(a, pos, end);
        lemma_head_space(a, b, lim, pos);
        let at = past_space(a, pos);
        assert(g.term_ok(terms[i]));
        match terms[i] {
            Term::Tok(s) => {
                lemma_head_literal(a, b, lim, at, lit(s));
                let e = at + lit(s).len();
                lemma_head_terms(t, g, a, b, lim, m, p, c, i + 1, e, true);
            },
            Term::Ident => {
                let e = word_end(a, at);
                lemma_word_end(a, at);
                lemma_progress(t, g, a, p, c, i + 1, e, true, 0);
                lemma_head_word(a, b, lim, at);
                assert(a.subrange(at, e) =~= b.subrange(at, e));
                lemma_head_terms(t, g, a, b, lim, m, p, c, i + 1, e, true);
            },
            Term::Expr => {
                let e = scanned(a, pos, terminator(terms, i));
                lemma_scanned(a, pos, terminator(terms, i));
                lemma_progress(t, g, a, p, c, i + 1, e, true, 0);
                lemma_past_space(a, e);
                assert(e <= end < a.len());
                let s = terminator(terms, i)->0;
                assert(terms[i + 1] is Tok);
                assert(g.term_ok(terms[i + 1]));
                lemma_progress(t, g, a, p, c, i + 2, past_space(a, e) + s.len(), true, 0);
                lemma_head_scanned(a, b, lim, pos, s);
                assert(a.subrange(pos, e) =~= b.subrange(pos, e));
                lemma_head_terms(t, g, a, b, lim, m, p, c, i + 1, e, true);
            },
            Term::Nt(j) => {
                let e = (prod_parsed(t, g, a, j as int, pos)->Ok_0).2;
                lemma_progress(t, g, a, p, c, i + 1, e, moved || pos < e, 0);
                lemma_space_order(a, e, end);
                lemma_head_prod(t, g, a, b, lim, m, j as int, pos);
                lemma_head_terms(t, g, a, b, lim, m, p, c, i + 1, e, moved || pos < e);
            },
            Term::Rep(j) => {
                if i + 1 < terms.len() {
                    assert(g.term_ok(terms[i + 1]));
                }
                if let Some(s) = terminator(terms, i) {
                    lemma_head_literal(a, b, lim, at, s);
                }
                assert(ended(a, terms, i, pos) == ended(b, terms, i, pos));
                if ended(a, terms, i, pos) {
                    lemma_head_terms(t, g, a, b, lim, m, p, c, i + 1, pos, moved);
                } else {
                    let e = (prod_parsed(t, g, a, j as int, pos)->Ok_0).2;
                    lemma_progress(t, g, a, p, c, i, e, true, 0);
                    lemma_space_order(a, e, end);
                    lemma_head_prod(t, g, a, b, lim, m, j as int, pos);
                    lemma_head_terms(t, g, a, b, lim, m, p, c, i, e, true);
                }
            },
        }
    }
}

// ---- One child at a time -----------------------------------------------

/// The term to go on with after a child of term `i`.
pub open spec fn after(terms: Seq<Term>, i: int) -> int {
    if terms[i] is Rep {
        i
    } else {
        i + 1
    }
}

/// Whether term `i` takes a child at byte `pos`: no repetition ends there.
pub open spec fn takes_child(b: Seq<u8>, terms: Seq<Term>, i: int, pos: int) -> bool {
    terms[i] is Rep ==> !ended(b, terms, i, pos)
}

/// What term `i` makes of child `k` at byte `pos`.
#[verifier::opaque]
pub open spec fn child_fits(
    t: Table,
    g: Grammar,
    b: Seq<u8>,
    terms: Seq<Term>,
    i: int,
    pos: int,
    k: KidModel,
) -> bool {
    match terms[i] {
        Term::Tok(s) => {
            let e = past_space(b, pos) + lit(s).len();
            &&& literal_stands(b, past_space(b, pos), lit(s))
            &&& k == (KidModel { width: e - pos, what: KidKind::Tok(s@) })
            &&& pos < e
        },
        Term::Ident => {
            let at = past_space(b, pos);
            let e = word_end(b, at);
            let word = decode_utf8(b.subrange(at, e));
            &&& e != at
            &&& !crate::runtime::host_grammar::is_keyword(g, word)
            &&& k == (KidModel { width: e - pos, what: KidKind::Id(word) })
            &&& pos < e
        },
        Term::Expr => {
            let e = scanned(b, pos, terminator(terms, i));
            &&& pos < e
            &&& k.width == e - pos
            &&& k.what is Expr
            &&& crate::runtime::grammar::parsed(t, b.subrange(pos, e)) is Ok
            &&& crate::runtime::grammar::parsed(t, b.subrange(pos, e))->Ok_0 == k.what->Expr_0
        },
        Term::Nt(j) => {
            &&& k.what matches KidKind::Sub { prod, alt, kids } && prod == j && prod_parsed(
                t,
                g,
                b,
                prod,
                pos,
            ) == Ok::<(int, Seq<KidModel>, int), Fault>((alt, kids, pos + k.width))
            &&& k.width >= 0
        },
        Term::Rep(j) => {
            &&& k.what matches KidKind::Sub { prod, alt, kids } && prod == j && prod_parsed(
                t,
                g,
                b,
                prod,
                pos,
            ) == Ok::<(int, Seq<KidModel>, int), Fault>((alt, kids, pos + k.width))
            &&& k.width > 0
        },
    }
}

/// A parse begins with the child of its first term.
pub proof fn lemma_first_child(
    t: Table,
    g: Grammar,
    b: Seq<u8>,
    p: int,
    c: int,
    i: int,
    pos: int,
    moved: bool,
)
    requires
        0 <= i < g.terms(p, c).len(),
        takes_child(b, g.terms(p, c), i, pos),
        terms_parsed(t, g, b, p, c, i, pos, moved) is Ok,
    ensures
        ({
            let (ks, e) = terms_parsed(t, g, b, p, c, i, pos, moved)->Ok_0;
            &&& ks.len() > 0
            &&& child_fits(t, g, b, g.terms(p, c), i, pos, ks[0])
            &&& pos + ks[0].width <= b.len()
            &&& terms_parsed(
                t,
                g,
                b,
                p,
                c,
                after(g.terms(p, c), i),
                pos + ks[0].width,
                moved || ks[0].width > 0,
            ) == Ok::<(Seq<KidModel>, int), Fault>((ks.skip(1), e))
        }),
{
    reveal(child_fits);
    let terms = g.terms(p, c);
    let (ks, e) = terms_parsed(t, g, b, p, c, i, pos, moved)->Ok_0;
    match terms[i] {
        Term::Tok(s) => {
            lemma_skip_first(ks, terms_parsed(t, g, b, p, c, i + 1, past_space(b, pos) + lit(s).len(), true)->Ok_0.0);
        },
        Term::Ident => {
            lemma_skip_first(ks, terms_parsed(t, g, b, p, c, i + 1, word_end(b, past_space(b, pos)), true)->Ok_0.0);
        },
        Term::Expr => {
            lemma_skip_first(ks, terms_parsed(t, g, b, p, c, i + 1, scanned(b, pos, terminator(terms, i)), true)->Ok_0.0);
        },
        Term::Nt(j) => {
            let x = (prod_parsed(t, g, b, j as int, pos)->Ok_0).2;
            lemma_skip_first(ks, terms_parsed(t, g, b, p, c, i + 1, x, moved || pos < x)->Ok_0.0);
        },
        Term::Rep(j) => {
            let x = (prod_parsed(t, g, b, j as int, pos)->Ok_0).2;
            lemma_skip_first(ks, terms_parsed(t, g, b, p, c, i, x, true)->Ok_0.0);
        },
    }
}

proof fn lemma_skip_first(ks: Seq<KidModel>, rest: Seq<KidModel>)
    ensures
        ks.len() > 0 && ks == seq![ks[0]] + rest ==> ks.skip(1) == rest,
{
    if ks.len() > 0 && ks == seq![ks[0]] + rest {
        assert(ks.skip(1) =~= rest);
    }
}

/// The term may lead to a production.
pub open spec fn may_lead(g: Grammar, p: int, x: Term, moved: bool) -> bool {
    match x {
        Term::Nt(j) => (moved || g.rank(j as int) < g.rank(p)) && g.rank(j as int) < g.top(),
        Term::Rep(j) => (moved || g.rank(j as int) < g.rank(p)) && g.rank(j as int) < g.top(),
        _ => true,
    }
}

/// A child that fits, then the parse from its end on.
pub proof fn lemma_with_child(
    t: Table,
    g: Grammar,
    b: Seq<u8>,
    p: int,
    c: int,
    i: int,
    pos: int,
    moved: bool,
    k: KidModel,
)
    requires
        0 <= i < g.terms(p, c).len(),
        takes_child(b, g.terms(p, c), i, pos),
        child_fits(t, g, b, g.terms(p, c), i, pos, k),
        pos + k.width <= b.len(),
        may_lead(g, p, g.terms(p, c)[i], moved),
    ensures
        terms_parsed(t, g, b, p, c, i, pos, moved) == then_kids(
            seq![k],
            terms_parsed(
                t,
                g,
                b,
                p,
                c,
                after(g.terms(p, c), i),
                pos + k.width,
                moved || k.width > 0,
            ),
        ),
{
    reveal(child_fits);
    match g.terms(p, c)[i] {
        Term::Nt(j) => {
            let (a, ks, e) = prod_parsed(t, g, b, j as int, pos)->Ok_0;
            assert(sub_model(pos, j as int, a, ks, e) == k);
        },
        Term::Rep(j) => {
            let (a, ks, e) = prod_parsed(t, g, b, j as int, pos)->Ok_0;
            assert(sub_model(pos, j as int, a, ks, e) == k);
        },
        _ => {},
    }
}

/// Bytes taken before do not matter to a ranked grammar.
pub proof fn lemma_flag(
    t: Table,
    g: Grammar,
    b: Seq<u8>,
    p: int,
    c: int,
    i: int,
    pos: int,
    moved: bool,
)
    requires
        g.wf(),
        g.ranked(g.ranks()),
        0 <= p < g.prods@.len(),
        0 <= c < g.prods@[p].alts@.len(),
        0 <= i,
        0 <= pos <= b.len(),
        moved || g.loose_before(g.terms(p, c), i),
    ensures
        terms_parsed(t, g, b, p, c, i, pos, moved) == terms_parsed(t, g, b, p, c, i, pos, true),
    decreases g.terms(p, c).len() - i,
{
    let terms = g.terms(p, c);
    if !moved && i < terms.len() {
        assert(g.term_ok(terms[i]));
        let r = g.ranks();
        assert(r[p] <= g.prods@.len());
        match terms[i] {
            Term::Nt(j) => {
                assert(r[j as int] <= g.prods@.len());
                if let Ok((x, ks, e)) = prod_parsed(t, g, b, j as int, pos) {
                    if e == pos {
                        if g.solid(j as int) {
                            lemma_solid_prod(t, g, b, j as int, pos, g.prods@.len());
                        }
                        lemma_flag(t, g, b, p, c, i + 1, e, false);
                    }
                }
            },
            Term::Rep(j) => {
                assert(r[j as int] <= g.prods@.len());
                if ended(b, terms, i, pos) {
                    lemma_flag(t, g, b, p, c, i + 1, pos, false);
                }
            },
            _ => {},
        }
    }
}

/// Leaves end at character boundaries.
pub proof fn lemma_leaf_boundary(
    t: Table,
    g: Grammar,
    b: Seq<u8>,
    terms: Seq<Term>,
    i: int,
    pos: int,
    k: KidModel,
)
    requires
        valid_utf8(b),
        0 <= pos <= b.len(),
        is_char_boundary(b, pos),
        0 <= i < terms.len(),
        child_fits(t, g, b, terms, i, pos, k),
        takes_bytes(terms[i]),
        i + 1 < terms.len() ==> g.term_ok(terms[i + 1]),
    ensures
        is_char_boundary(b, pos + k.width),
{
    reveal(child_fits);
    lemma_past_space(b, pos);
    lemma_space_boundary(b, pos);
    let at = past_space(b, pos);
    match terms[i] {
        Term::Tok(s) => {
            encode_utf8_valid_utf8(s@);
            lemma_literal_boundary(b, at, lit(s));
        },
        Term::Ident => {
            lemma_word_end(b, at);
            let e = word_end(b, at);
            assert(is_word(b[e - 1]));
            lemma_boundary_after(b, e);
        },
        Term::Expr => {
            let x = terminator(terms, i);
            lemma_scanned(b, pos, x);
            is_char_boundary_start_end_of_seq(b);
            if scanned(b, pos, x) < b.len() {
                if let Term::Tok(s) = terms[i + 1] {
                    encode_utf8_valid_utf8(s@);
                    lemma_literal_start(b, scanned(b, pos, x), lit(s));
                }
            }
        },
        _ => {},
    }
}

/// Parses end at character boundaries.
pub proof fn lemma_terms_boundary(
    t: Table,
    g: Grammar,
    b: Seq<u8>,
    p: int,
    c: int,
    i: int,
    pos: int,
    moved: bool,
)
    requires
        g.wf(),
        valid_utf8(b),
        0 <= p < g.prods@.len(),
        0 <= c < g.prods@[p].alts@.len(),
        0 <= i,
        0 <= pos <= b.len(),
        is_char_boundary(b, pos),
    ensures
        terms_parsed(t, g, b, p, c, i, pos, moved) matches Ok((ks, e)) ==> is_char_boundary(b, e),
    decreases
            b.len() - pos,
            (if moved {
                g.top()
            } else {
                g.rank(p)
            }),
            0int,
            g.terms(p, c).len() - i,
{
    let terms = g.terms(p, c);
    if i < terms.len() && terms_parsed(t, g, b, p, c, i, pos, moved) is Ok {
        assert(g.term_ok(terms[i]));
        if i + 1 < terms.len() {
            assert(g.term_ok(terms[i + 1]));
        }
        if terms[i] is Rep && ended(b, terms, i, pos) {
            lemma_terms_boundary(t, g, b, p, c, i + 1, pos, moved);
        } else {
            lemma_first_child(t, g, b, p, c, i, pos, moved);
            let k = (terms_parsed(t, g, b, p, c, i, pos, moved)->Ok_0).0[0];
            reveal(child_fits);
            if takes_bytes(terms[i]) {
                lemma_leaf_boundary(t, g, b, terms, i, pos, k);
            } else {
                let j = match terms[i] {
                    Term::Nt(j) => j as int,
                    Term::Rep(j) => j as int,
                    _ => 0,
                };
                lemma_prod_boundary(t, g, b, j, pos);
            }
            lemma_terms_boundary(
                t,
                g,
                b,
                p,
                c,
                after(terms, i),
                pos + k.width,
                moved || k.width > 0,
            );
        }
    }
}

pub proof fn lemma_prod_boundary(t: Table, g: Grammar, b: Seq<u8>, p: int, pos: int)
    requires
        g.wf(),
        valid_utf8(b),
        0 <= p < g.prods@.len(),
        0 <= pos <= b.len(),
        is_char_boundary(b, pos),
    ensures
        prod_parsed(t, g, b, p, pos) matches Ok((c, ks, e)) ==> is_char_boundary(b, e),
    decreases b.len() - pos, g.rank(p), 1int, 0int,
{
    lemma_chosen(g, b, p, pos);
    if let Some(c) = chosen(g, b, p, pos) {
        lemma_terms_boundary(t, g, b, p, c, 0, pos, false);
    }
}

/// Children end at character boundaries, forward in the text.
pub proof fn lemma_child_boundary(
    t: Table,
    g: Grammar,
    b: Seq<u8>,
    p: int,
    c: int,
    i: int,
    pos: int,
    k: KidModel,
)
    requires
        g.wf(),
        valid_utf8(b),
        0 <= p < g.prods@.len(),
        0 <= c < g.prods@[p].alts@.len(),
        0 <= i < g.terms(p, c).len(),
        0 <= pos <= b.len(),
        is_char_boundary(b, pos),
        child_fits(t, g, b, g.terms(p, c), i, pos, k),
    ensures
        is_char_boundary(b, pos + k.width),
        k.width >= 0,
        g.takes(g.terms(p, c)[i]) || g.terms(p, c)[i] is Rep ==> k.width > 0,
{
    let terms = g.terms(p, c);
    assert(g.term_ok(terms[i]));
    if i + 1 < terms.len() {
        assert(g.term_ok(terms[i + 1]));
    }
    reveal(child_fits);
    match terms[i] {
        Term::Nt(j) => {
            lemma_prod_boundary(t, g, b, j as int, pos);
            if g.solid(j as int) {
                lemma_solid_prod(t, g, b, j as int, pos, g.prods@.len());
            }
        },
        Term::Rep(j) => lemma_prod_boundary(t, g, b, j as int, pos),
        _ => lemma_leaf_boundary(t, g, b, terms, i, pos, k),
    }
}

/// The production of a child that is one.
pub open spec fn leads_to(x: Term, j: int) -> bool {
    match x {
        Term::Nt(k) => k == j,
        Term::Rep(k) => k == j,
        _ => false,
    }
}

/// A production as a child that fits.
pub proof fn lemma_sub_fits(
    t: Table,
    g: Grammar,
    b: Seq<u8>,
    terms: Seq<Term>,
    i: int,
    pos: int,
    j: int,
    alt: int,
    kids: Seq<KidModel>,
    e: int,
)
    requires
        leads_to(terms[i], j),
        prod_parsed(t, g, b, j, pos) == Ok::<(int, Seq<KidModel>, int), Fault>((alt, kids, e)),
        pos <= e,
        terms[i] is Rep ==> pos < e,
    ensures
        child_fits(t, g, b, terms, i, pos, sub_model(pos, j, alt, kids, e)),
{
    reveal(child_fits);
}

/// An expression as a child that fits.
pub proof fn lemma_expr_fits(
    t: Table,
    g: Grammar,
    b: Seq<u8>,
    terms: Seq<Term>,
    i: int,
    pos: int,
    k: KidModel,
)
    requires
        terms[i] is Expr,
        k.what is Expr,
        pos + k.width == scanned(b, pos, terminator(terms, i)),
        k.width > 0,
        crate::runtime::grammar::parsed(t, b.subrange(pos, pos + k.width)) is Ok,
        crate::runtime::grammar::parsed(t, b.subrange(pos, pos + k.width))->Ok_0
            == k.what->Expr_0,
    ensures
        child_fits(t, g, b, terms, i, pos, k),
{
    reveal(child_fits);
}

/// What fits a term that leads to a production.
pub proof fn lemma_fits_sub(
    t: Table,
    g: Grammar,
    b: Seq<u8>,
    terms: Seq<Term>,
    i: int,
    pos: int,
    k: KidModel,
    j: int,
)
    requires
        child_fits(t, g, b, terms, i, pos, k),
        leads_to(terms[i], j),
    ensures
        k.what matches KidKind::Sub { prod, alt, kids } && prod == j && prod_parsed(
            t,
            g,
            b,
            j,
            pos,
        ) == Ok::<(int, Seq<KidModel>, int), Fault>((alt, kids, pos + k.width)),
{
    reveal(child_fits);
}

} // verus!
