//! Resolving statement grammars.

use vstd::prelude::*;
use vstd::string::*;
use vstd::utf8::*;

use crate::generator::host_model::{
    alt_terms, alts_fault, alts_model, alts_terms, choice_fault, choices_fault, clashes, expr_byte,
    first_of, firsts_of, head, heads_of, holds_punct, host_names, host_ok, index_in, is_default,
    is_word_text, keywords_of, keywords_of_alts, keywords_of_terms, prod_names, prod_terms,
    prods_model, prods_terms, punct_byte, resolves_to, seen_with, term_fault, term_model,
    terms_fault, terms_model, undefined, word_term, words_terms, TermModel, Terms,
};
use crate::generator::spec::{same_text, Host, HostProd, Spec};
use crate::generator::symbols::Sym;
use crate::generator::text::{put_number, quote, split_words, views, words_from};
use crate::runtime::cursor::{is_word, word, word_start};
use crate::runtime::host_grammar::{lit, Alt, Grammar, Production, Term};

verus! {

/// A text with characters has bytes.
proof fn lemma_some_bytes(s: Seq<char>)
    requires
        s.len() > 0,
    ensures
        encode_utf8(s).len() > 0,
{
}

// ---- Terms -------------------------------------------------------------

/// The place of the production named `w`.
fn find_prod(raw: &Vec<HostProd>, w: &str) -> (r: Result<usize, String>)
    ensures
        match r {
            Ok(i) => index_in(host_names(raw@), w@, 0) == Some(i as int) && i < raw@.len(),
            Err(x) => index_in(host_names(raw@), w@, 0) is None && x@ == undefined(w@),
        },
{
    let mut i: usize = 0;
    while i < raw.len()
        invariant
            i <= raw@.len(),
            index_in(host_names(raw@), w@, 0) == index_in(host_names(raw@), w@, i as int),
        decreases raw@.len() - i,
    {
        if same_text(&raw[i].name, w) {
            return Ok(i);
        }
        i = i + 1;
    }
    let mut x: String = "host grammar references undefined production ".to_owned();
    let q: String = quote(w);
    x.append(q.as_str());
    Err(x)
}

/// The term that a word is.
fn resolve_word(raw: &Vec<HostProd>, prod: &String, w: &String) -> (r: Result<Term, String>)
    ensures
        match r {
            Ok(x) => {
                &&& word_term(host_names(raw@), prod@, w@) == Ok::<TermModel, Seq<char>>(
                    term_model(x),
                )
                &&& match x {
                    Term::Tok(s) => lit(s).len() > 0,
                    Term::Nt(i) => i < raw@.len(),
                    Term::Rep(i) => i < raw@.len(),
                    _ => true,
                }
            },
            Err(x) => word_term(host_names(raw@), prod@, w@) == Err::<TermModel, Seq<char>>(x@),
        },
{
    let t: &str = w.as_str();
    let n: usize = t.unicode_len();
    if n >= 2 && t.get_char(0) == '\'' && t.get_char(n - 1) == '\'' {
        if n == 2 {
            let mut x: String = "empty literal in production ".to_owned();
            let q: String = quote(prod.as_str());
            x.append(q.as_str());
            return Err(x);
        }
        let s: String = t.substring_char(1, n - 1).to_owned();
        proof {
            lemma_some_bytes(s@);
        }
        return Ok(Term::Tok(s));
    }
    if same_text(w, "expr") {
        return Ok(Term::Expr);
    }
    if same_text(w, "ident") {
        return Ok(Term::Ident);
    }
    if n > 0 && t.get_char(n - 1) == '*' {
        let name: &str = t.substring_char(0, n - 1);
        assert(name@ =~= w@.drop_last());
        return match find_prod(raw, name) {
            Ok(i) => Ok(Term::Rep(i)),
            Err(x) => Err(x),
        };
    }
    match find_prod(raw, t) {
        Ok(i) => Ok(Term::Nt(i)),
        Err(x) => Err(x),
    }
}

/// Terms refer to the first `n` productions, literals are not empty.
pub open spec fn fit(terms: Seq<Term>, n: int) -> bool {
    forall|i: int|
        0 <= i < terms.len() ==> (match #[trigger] terms[i] {
            Term::Tok(s) => lit(s).len() > 0,
            Term::Nt(j) => j < n,
            Term::Rep(j) => j < n,
            _ => true,
        })
}

/// The terms of an alternative.
fn resolve_alt(raw: &Vec<HostProd>, prod: &String, alt: &String) -> (r: Result<Alt, String>)
    ensures
        match r {
            Ok(x) => alt_terms(host_names(raw@), prod@, alt@) == Ok::<Terms, Seq<char>>(
                terms_model(x.terms@),
            ) && fit(x.terms@, raw@.len() as int),
            Err(x) => alt_terms(host_names(raw@), prod@, alt@) == Err::<Terms, Seq<char>>(x@),
        },
{
    let ws: Vec<String> = split_words(alt.as_str());
    let ghost names = host_names(raw@);
    if ws.len() == 0 {
        let mut x: String = "production ".to_owned();
        let q: String = quote(prod.as_str());
        x.append(q.as_str());
        x.append(" has an empty alternative");
        return Err(x);
    }
    let n: usize = ws.len();
    assert(views(ws@).len() == n);
    let mut terms: Vec<Term> = Vec::new();
    let mut i: usize = 0;
    assert(terms_model(terms@) =~= Seq::empty());
    while i < n
        invariant
            n == ws@.len(),
            i <= n,
            names == host_names(raw@),
            views(ws@) == words_from(alt@, 0),
            words_from(alt@, 0).len() == n,
            n > 0,
            fit(terms@, raw@.len() as int),
            words_terms(names, prod@, views(ws@), i as int) == Ok::<Terms, Seq<char>>(
                terms_model(terms@),
            ),
        decreases n - i,
    {
        assert(views(ws@)[i as int] == ws@[i as int]@);
        match resolve_word(raw, prod, &ws[i]) {
            Ok(x) => {
                let ghost before = terms@;
                terms.push(x);
                assert(terms_model(terms@) =~= terms_model(before).push(term_model(x)));
            },
            Err(x) => {
                proof {
                    lemma_words_err(names, prod@, views(ws@), i + 1, n as int);
                }
                return Err(x);
            },
        }
        i = i + 1;
    }
    Ok(Alt { terms })
}

proof fn lemma_words_err(
    names: Seq<Seq<char>>,
    prod: Seq<char>,
    ws: Seq<Seq<char>>,
    m: int,
    n: int,
)
    requires
        0 <= m <= n,
        words_terms(names, prod, ws, m) is Err,
    ensures
        words_terms(names, prod, ws, n) == words_terms(names, prod, ws, m),
    decreases n - m,
{
    if m < n {
        lemma_words_err(names, prod, ws, m, n - 1);
    }
}

proof fn lemma_alts_err(
    names: Seq<Seq<char>>,
    prod: Seq<char>,
    alts: Seq<Seq<char>>,
    m: int,
    n: int,
)
    requires
        0 <= m <= n,
        alts_terms(names, prod, alts, m) is Err,
    ensures
        alts_terms(names, prod, alts, n) == alts_terms(names, prod, alts, m),
    decreases n - m,
{
    if m < n {
        lemma_alts_err(names, prod, alts, m, n - 1);
    }
}

/// All alternatives fit.
pub open spec fn all_fit(alts: Seq<Alt>, n: int) -> bool {
    forall|a: int| 0 <= a < alts.len() ==> fit((#[trigger] alts[a]).terms@, n)
}

// ---- Terminators -------------------------------------------------------

/// Whether an expression can hold the byte.
fn in_expr(spec: &Spec, syms: &Vec<Sym>, b: u8) -> (r: bool)
    ensures
        r == expr_byte(*spec, syms@, b),
{
    let mut i: usize = 0;
    while i < syms.len()
        invariant
            i <= syms@.len(),
            forall|k: int|
                0 <= k < i ==> !encode_utf8((#[trigger] syms@[k]).text@).contains(b),
        decreases syms@.len() - i,
    {
        let x = syms[i].text.as_str().as_bytes();
        let mut k: usize = 0;
        while k < x.len()
            invariant
                i < syms@.len(),
                k <= x@.len(),
                x@ == encode_utf8(syms@[i as int].text@),
                forall|j: int| 0 <= j < k ==> x@[j] != b,
            decreases x@.len() - k,
        {
            if x[k] == b {
                assert(x@.contains(b));
                return true;
            }
            k = k + 1;
        }
        i = i + 1;
    }
    (spec.atoms.int && word(b) && !word_start(b)) || (spec.atoms.ident && word_start(b))
}

/// Whether the literal has a byte that an expression can hold.
fn literal_clashes(spec: &Spec, syms: &Vec<Sym>, s: &String) -> (r: bool)
    ensures
        r == clashes(*spec, syms@, s@),
{
    let x = s.as_str().as_bytes();
    let mut k: usize = 0;
    while k < x.len()
        invariant
            k <= x@.len(),
            x@ == encode_utf8(s@),
            forall|j: int| 0 <= j < k ==> !expr_byte(*spec, syms@, #[trigger] x@[j]),
        decreases x@.len() - k,
    {
        if in_expr(spec, syms, x[k]) {
            assert(expr_byte(*spec, syms@, encode_utf8(s@)[k as int]));
            return true;
        }
        k = k + 1;
    }
    false
}

/// What is wrong with term `i`.
fn check_term(
    spec: &Spec,
    syms: &Vec<Sym>,
    last: bool,
    prod: &String,
    terms: &Vec<Term>,
    i: usize,
) -> (r: Option<String>)
    requires
        i < terms@.len(),
    ensures
        term_fault(*spec, syms@, last, prod@, terms_model(terms@), i as int) == (match r {
            Some(x) => Some(x@),
            None => None,
        }),
{
    let open: bool = match &terms[i] {
        Term::Expr => true,
        Term::Rep(_) => true,
        _ => false,
    };
    if !open {
        return None;
    }
    let n: usize = terms.len();
    let mut next: bool = false;
    if i + 1 < n {
        assert(terms_model(terms@)[i + 1] == term_model(terms@[i + 1]));
        if let Term::Tok(s) = &terms[i + 1] {
            if literal_clashes(spec, syms, s) {
                let mut x: String = "terminator ".to_owned();
                let q: String = quote(s.as_str());
                x.append(q.as_str());
                x.append(" in production ");
                let q: String = quote(prod.as_str());
                x.append(q.as_str());
                x.append(" collides with an expression token byte");
                return Some(x);
            }
            return None;
        }
        next = true;
    }
    if !next && last {
        return None;
    }
    let mut x: String = "expr/repetition in production ".to_owned();
    let q: String = quote(prod.as_str());
    x.append(q.as_str());
    x.append(" must be followed by a literal terminator");
    Some(x)
}

/// The first thing wrong with the terms.
fn check_terms(spec: &Spec, syms: &Vec<Sym>, last: bool, prod: &String, terms: &Vec<Term>) -> (r:
    Option<String>)
    ensures
        terms_fault(
            *spec,
            syms@,
            last,
            prod@,
            terms_model(terms@),
            terms@.len() as int,
        ) == (match r {
            Some(x) => Some(x@),
            None => None,
        }),
{
    let n: usize = terms.len();
    let mut i: usize = 0;
    while i < n
        invariant
            n == terms@.len(),
            i <= n,
            terms_fault(*spec, syms@, last, prod@, terms_model(terms@), i as int) is None,
        decreases n - i,
    {
        if let Some(x) = check_term(spec, syms, last, prod, terms, i) {
            proof {
                lemma_terms_fault(
                    *spec,
                    syms@,
                    last,
                    prod@,
                    terms_model(terms@),
                    i + 1,
                    n as int,
                );
            }
            return Some(x);
        }
        i = i + 1;
    }
    None
}

proof fn lemma_terms_fault(
    spec: Spec,
    syms: Seq<Sym>,
    last: bool,
    prod: Seq<char>,
    terms: Terms,
    m: int,
    n: int,
)
    requires
        0 <= m <= n,
        terms_fault(spec, syms, last, prod, terms, m) is Some,
    ensures
        terms_fault(spec, syms, last, prod, terms, n) == terms_fault(
            spec,
            syms,
            last,
            prod,
            terms,
            m,
        ),
    decreases n - m,
{
    if m < n {
        lemma_terms_fault(spec, syms, last, prod, terms, m, n - 1);
    }
}

proof fn lemma_alts_fault(
    spec: Spec,
    syms: Seq<Sym>,
    last: bool,
    prod: Seq<char>,
    alts: Seq<Terms>,
    m: int,
    n: int,
)
    requires
        0 <= m <= n,
        alts_fault(spec, syms, last, prod, alts, m) is Some,
    ensures
        alts_fault(spec, syms, last, prod, alts, n) == alts_fault(
            spec,
            syms,
            last,
            prod,
            alts,
            m,
        ),
    decreases n - m,
{
    if m < n {
        lemma_alts_fault(spec, syms, last, prod, alts, m, n - 1);
    }
}

/// The alternatives of a production.
fn resolve_prod(
    spec: &Spec,
    syms: &Vec<Sym>,
    raw: &Vec<HostProd>,
    last: bool,
    p: &HostProd,
) -> (r: Result<Vec<Alt>, String>)
    ensures
        ({
            let made = prod_terms(
                *spec,
                syms@,
                host_names(raw@),
                last,
                p.name@,
                views(p.alts@),
            );
            match r {
                Ok(v) => made == Ok::<Seq<Terms>, Seq<char>>(alts_model(v@)) && all_fit(
                    v@,
                    raw@.len() as int,
                ),
                Err(x) => made == Err::<Seq<Terms>, Seq<char>>(x@),
            }
        }),
{
    let ghost names = host_names(raw@);
    let ghost texts = views(p.alts@);
    let n: usize = p.alts.len();
    let mut alts: Vec<Alt> = Vec::new();
    let mut i: usize = 0;
    assert(alts_model(alts@) =~= Seq::empty());
    while i < n
        invariant
            n == p.alts@.len(),
            i <= n,
            alts@.len() == i,
            names == host_names(raw@),
            texts == views(p.alts@),
            all_fit(alts@, raw@.len() as int),
            alts_terms(names, p.name@, texts, i as int) == Ok::<Seq<Terms>, Seq<char>>(
                alts_model(alts@),
            ),
        decreases n - i,
    {
        assert(texts[i as int] == p.alts@[i as int]@);
        match resolve_alt(raw, &p.name, &p.alts[i]) {
            Ok(x) => {
                let ghost before = alts@;
                alts.push(x);
                assert(alts_model(alts@) =~= alts_model(before).push(terms_model(x.terms@)));
            },
            Err(x) => {
                proof {
                    lemma_alts_err(names, p.name@, texts, i + 1, n as int);
                }
                return Err(x);
            },
        }
        i = i + 1;
    }
    let ghost model = alts_model(alts@);
    let mut i: usize = 0;
    while i < n
        invariant
            n == p.alts@.len(),
            alts@.len() == n,
            i <= n,
            texts == views(p.alts@),
            model == alts_model(alts@),
            names == host_names(raw@),
            alts_terms(names, p.name@, texts, n as int) == Ok::<Seq<Terms>, Seq<char>>(model),
            alts_fault(*spec, syms@, last, p.name@, model, i as int) is None,
        decreases n - i,
    {
        if let Some(x) = check_terms(spec, syms, last, &p.name, &alts[i].terms) {
            proof {
                assert(model[i as int] == terms_model(alts@[i as int].terms@));
                lemma_alts_fault(*spec, syms@, last, p.name@, model, i + 1, n as int);
            }
            return Err(x);
        }
        assert(model[i as int] == terms_model(alts@[i as int].terms@));
        i = i + 1;
    }
    Ok(alts)
}

proof fn lemma_prods_err(
    spec: Spec,
    syms: Seq<Sym>,
    raw: Seq<HostProd>,
    start: int,
    m: int,
    n: int,
)
    requires
        0 <= m <= n,
        prods_terms(spec, syms, raw, start, m) is Err,
    ensures
        prods_terms(spec, syms, raw, start, n) == prods_terms(spec, syms, raw, start, m),
    decreases n - m,
{
    if m < n {
        lemma_prods_err(spec, syms, raw, start, m, n - 1);
    }
}

/// All productions fit.
pub open spec fn prods_fit(prods: Seq<Production>, n: int) -> bool {
    forall|p: int| 0 <= p < prods.len() ==> all_fit((#[trigger] prods[p]).alts@, n)
}

/// All productions.
fn resolve_prods(spec: &Spec, syms: &Vec<Sym>, raw: &Vec<HostProd>, start: usize) -> (r: Result<
    Vec<Production>,
    String,
>)
    ensures
        ({
            let made = prods_terms(*spec, syms@, raw@, start as int, raw@.len() as int);
            match r {
                Ok(v) => {
                    &&& made == Ok::<Seq<Seq<Terms>>, Seq<char>>(prods_model(v@))
                    &&& prod_names(v@) == host_names(raw@)
                    &&& v@.len() == raw@.len()
                    &&& prods_fit(v@, raw@.len() as int)
                },
                Err(x) => made == Err::<Seq<Seq<Terms>>, Seq<char>>(x@),
            }
        }),
{
    let n: usize = raw.len();
    let mut prods: Vec<Production> = Vec::new();
    let mut i: usize = 0;
    assert(prods_model(prods@) =~= Seq::empty());
    while i < n
        invariant
            n == raw@.len(),
            i <= n,
            prods@.len() == i,
            forall|k: int| 0 <= k < i ==> (#[trigger] prods@[k]).name@ == raw@[k].name@,
            prods_fit(prods@, raw@.len() as int),
            prods_terms(*spec, syms@, raw@, start as int, i as int) == Ok::<
                Seq<Seq<Terms>>,
                Seq<char>,
            >(prods_model(prods@)),
        decreases n - i,
    {
        match resolve_prod(spec, syms, raw, i == start, &raw[i]) {
            Ok(alts) => {
                let ghost before = prods@;
                prods.push(Production { name: raw[i].name.clone(), alts });
                assert(prods_model(prods@) =~= prods_model(before).push(alts_model(alts@)));
            },
            Err(x) => {
                proof {
                    lemma_prods_err(*spec, syms@, raw@, start as int, i + 1, n as int);
                }
                return Err(x);
            },
        }
        i = i + 1;
    }
    assert(prod_names(prods@) =~= host_names(raw@));
    Ok(prods)
}

// ---- Choice by the first literal ---------------------------------------

/// The literals that an alternative can begin with, and whether it can begin
/// without one.
fn alt_first(prods: &Vec<Production>, terms: &Vec<Term>, depth: usize) -> (r: (Vec<String>, bool))
    requires
        prods_fit(prods@, prods@.len() as int),
        fit(terms@, prods@.len() as int),
        prods@.len() < usize::MAX,
    ensures
        first_of(prods_model(prods@), head(terms_model(terms@)), depth as int) == (
            views(r.0@),
            r.1,
        ),
    decreases prods@.len() + 1 - depth,
{
    let ghost model = prods_model(prods@);
    let mut lits: Vec<String> = Vec::new();
    assert(views(lits@) =~= Seq::empty());
    if depth > prods.len() {
        return (lits, false);
    }
    if terms.len() == 0 {
        return (lits, true);
    }
    assert(terms_model(terms@)[0] == term_model(terms@[0]));
    let p: usize = match &terms[0] {
        Term::Tok(s) => {
            lits.push(s.clone());
            assert(views(lits@) =~= seq![s@]);
            return (lits, false);
        },
        Term::Nt(i) => *i,
        _ => {
            return (lits, true);
        },
    };
    let mut open: bool = false;
    let mut a: usize = 0;
    let n: usize = prods[p].alts.len();
    assert(model[p as int] == alts_model(prods@[p as int].alts@));
    while a < n
        invariant
            prods_fit(prods@, prods@.len() as int),
            prods@.len() < usize::MAX,
            model == prods_model(prods@),
            p < prods@.len(),
            depth <= prods@.len(),
            n == prods@[p as int].alts@.len(),
            a <= n,
            firsts_of(model, p as int, a as int, depth as int) == (views(lits@), open),
        decreases n - a,
    {
        proof {
            assert(all_fit(prods@[p as int].alts@, prods@.len() as int));
            assert(fit(prods@[p as int].alts@[a as int].terms@, prods@.len() as int));
            assert(model[p as int] == alts_model(prods@[p as int].alts@));
            assert(model[p as int][a as int] == terms_model(
                prods@[p as int].alts@[a as int].terms@,
            ));
        }
        let (mut more, o): (Vec<String>, bool) = alt_first(prods, &prods[p].alts[a].terms, depth + 1);
        let ghost before = lits@;
        let ghost added = more@;
        lits.append(&mut more);
        proof {
            assert(views(lits@) =~= views(before) + views(added));
        }
        open = open || o;
        a = a + 1;
    }
    (lits, open)
}

/// Whether `s` is one of the texts.
fn is_one_of(v: &Vec<String>, s: &String) -> (r: bool)
    ensures
        r == views(v@).contains(s@),
{
    let mut i: usize = 0;
    while i < v.len()
        invariant
            i <= v@.len(),
            forall|k: int| 0 <= k < i ==> (#[trigger] views(v@)[k]) != s@,
        decreases v@.len() - i,
    {
        if v[i] == *s {
            assert(views(v@)[i as int] == s@);
            return true;
        }
        i = i + 1;
    }
    false
}

proof fn lemma_seen_err(
    prod: Seq<char>,
    seen: Seq<Seq<char>>,
    more: Seq<Seq<char>>,
    m: int,
    n: int,
)
    requires
        0 <= m <= n,
        seen_with(prod, seen, more, m) is Err,
    ensures
        seen_with(prod, seen, more, n) == seen_with(prod, seen, more, m),
    decreases n - m,
{
    if m < n {
        lemma_seen_err(prod, seen, more, m, n - 1);
    }
}

proof fn lemma_heads_err(prods: Seq<Seq<Terms>>, prod: Seq<char>, p: int, m: int, n: int)
    requires
        0 <= m <= n,
        heads_of(prods, prod, p, m) is Err,
    ensures
        heads_of(prods, prod, p, n) == heads_of(prods, prod, p, m),
    decreases n - m,
{
    if m < n {
        lemma_heads_err(prods, prod, p, m, n - 1);
    }
}

/// Add literals to those seen, unless one comes twice.
fn see(prod: &String, seen: &mut Vec<String>, more: &Vec<String>) -> (r: Option<String>)
    ensures
        seen_with(prod@, views(old(seen)@), views(more@), more@.len() as int) == (match r {
            Some(x) => Err::<Seq<Seq<char>>, Seq<char>>(x@),
            None => Ok::<Seq<Seq<char>>, Seq<char>>(views(final(seen)@)),
        }),
{
    let ghost start = views(seen@);
    let n: usize = more.len();
    let mut k: usize = 0;
    while k < n
        invariant
            n == more@.len(),
            k <= n,
            start == views(old(seen)@),
            seen_with(prod@, start, views(more@), k as int) == Ok::<Seq<Seq<char>>, Seq<char>>(
                views(seen@),
            ),
        decreases n - k,
    {
        assert(views(more@)[k as int] == more@[k as int]@);
        if is_one_of(seen, &more[k]) {
            let mut x: String = "production ".to_owned();
            let q: String = quote(prod.as_str());
            x.append(q.as_str());
            x.append(" is ambiguous: two alternatives both start with ");
            let q: String = quote(more[k].as_str());
            x.append(q.as_str());
            proof {
                lemma_seen_err(prod@, start, views(more@), k + 1, n as int);
            }
            return Some(x);
        }
        let ghost before = seen@;
        seen.push(more[k].clone());
        assert(views(seen@) =~= views(before).push(more@[k as int]@));
        k = k + 1;
    }
    None
}

/// What keeps the first literal from choosing an alternative of production
/// `p`.
fn check_choice(prods: &Vec<Production>, p: usize) -> (r: Option<String>)
    requires
        prods_fit(prods@, prods@.len() as int),
        prods@.len() < usize::MAX,
        p < prods@.len(),
    ensures
        choice_fault(prods_model(prods@), prods@[p as int].name@, p as int) == (match r {
            Some(x) => Some(x@),
            None => None,
        }),
{
    let ghost model = prods_model(prods@);
    let name = &prods[p].name;
    let n: usize = prods[p].alts.len();
    let mut seen: Vec<String> = Vec::new();
    let mut open: usize = 0;
    let mut a: usize = 0;
    proof {
        assert(views(seen@) =~= Seq::empty());
        assert(model[p as int] == alts_model(prods@[p as int].alts@));
    }
    while a < n
        invariant
            prods_fit(prods@, prods@.len() as int),
            prods@.len() < usize::MAX,
            model == prods_model(prods@),
            p < prods@.len(),
            name@ == prods@[p as int].name@,
            n == prods@[p as int].alts@.len(),
            a <= n,
            open <= a,
            model[p as int].len() == n,
            heads_of(model, name@, p as int, a as int) == Ok::<(Seq<Seq<char>>, nat), Seq<char>>(
                (views(seen@), open as nat),
            ),
        decreases n - a,
    {
        proof {
            assert(all_fit(prods@[p as int].alts@, prods@.len() as int));
            assert(fit(prods@[p as int].alts@[a as int].terms@, prods@.len() as int));
            assert(model[p as int] == alts_model(prods@[p as int].alts@));
            assert(model[p as int][a as int] == terms_model(
                prods@[p as int].alts@[a as int].terms@,
            ));
        }
        let (more, o): (Vec<String>, bool) = alt_first(prods, &prods[p].alts[a].terms, 0);
        assert(views(more@).len() == more@.len());
        if let Some(x) = see(name, &mut seen, &more) {
            proof {
                lemma_heads_err(model, name@, p as int, a + 1, n as int);
            }
            return Some(x);
        }
        if o {
            open = open + 1;
        }
        a = a + 1;
    }
    if open > 1 {
        let mut x: String = "production ".to_owned();
        let q: String = quote(name.as_str());
        x.append(q.as_str());
        x.append(" has ");
        put_number(&mut x, open as u64);
        x.append(" alternatives with no leading literal (need <=1 for LL(1) dispatch)");
        return Some(x);
    }
    None
}

proof fn lemma_choices_fault(prods: Seq<Seq<Terms>>, names: Seq<Seq<char>>, m: int, n: int)
    requires
        0 <= m <= n,
        choices_fault(prods, names, m) is Some,
    ensures
        choices_fault(prods, names, n) == choices_fault(prods, names, m),
    decreases n - m,
{
    if m < n {
        lemma_choices_fault(prods, names, m, n - 1);
    }
}

// ---- Words and punctuation ---------------------------------------------

/// Whether the literal is a word.
fn word_text(s: &String) -> (r: bool)
    ensures
        r == is_word_text(s@),
{
    let x = s.as_str().as_bytes();
    let mut k: usize = 0;
    while k < x.len()
        invariant
            k <= x@.len(),
            x@ == encode_utf8(s@),
            forall|j: int| 0 <= j < k ==> is_word(#[trigger] x@[j]),
        decreases x@.len() - k,
    {
        if !word(x[k]) {
            assert(!is_word(encode_utf8(s@)[k as int]));
            return false;
        }
        k = k + 1;
    }
    true
}

/// Add the words among the terms to the keywords.
fn add_keywords(kws: &mut Vec<String>, terms: &Vec<Term>)
    ensures
        views(final(kws)@) == keywords_of_terms(
            views(old(kws)@),
            terms_model(terms@),
            terms@.len() as int,
        ),
{
    let ghost start = views(kws@);
    let mut i: usize = 0;
    while i < terms.len()
        invariant
            i <= terms@.len(),
            views(kws@) == keywords_of_terms(start, terms_model(terms@), i as int),
        decreases terms@.len() - i,
    {
        assert(terms_model(terms@)[i as int] == term_model(terms@[i as int]));
        if let Term::Tok(s) = &terms[i] {
            if word_text(s) && !is_one_of(kws, s) {
                let ghost before = kws@;
                kws.push(s.clone());
                assert(views(kws@) =~= views(before).push(s@));
            }
        }
        i = i + 1;
    }
}

/// The keywords, and the words among all terms.
fn all_keywords(given: &Vec<String>, prods: &Vec<Production>) -> (r: Vec<String>)
    ensures
        views(r@) == keywords_of(views(given@), prods_model(prods@), prods@.len() as int),
{
    let ghost model = prods_model(prods@);
    let mut kws: Vec<String> = Vec::new();
    let mut i: usize = 0;
    while i < given.len()
        invariant
            i <= given@.len(),
            kws@.len() == i,
            forall|k: int| 0 <= k < i ==> (#[trigger] kws@[k])@ == given@[k]@,
        decreases given@.len() - i,
    {
        kws.push(given[i].clone());
        i = i + 1;
    }
    assert(views(kws@) =~= views(given@));
    let mut p: usize = 0;
    while p < prods.len()
        invariant
            p <= prods@.len(),
            model == prods_model(prods@),
            views(kws@) == keywords_of(views(given@), model, p as int),
        decreases prods@.len() - p,
    {
        let alts = &prods[p].alts;
        let ghost start = views(kws@);
        let mut a: usize = 0;
        assert(model[p as int] == alts_model(alts@));
        while a < alts.len()
            invariant
                a <= alts@.len(),
                views(kws@) == keywords_of_alts(start, alts_model(alts@), a as int),
            decreases alts@.len() - a,
        {
            assert(alts_model(alts@)[a as int] == terms_model(alts@[a as int].terms@));
            add_keywords(&mut kws, &alts[a].terms);
            a = a + 1;
        }
        p = p + 1;
    }
    kws
}

/// Bytes in order, none twice.
pub open spec fn rising(v: Seq<u8>) -> bool {
    forall|i: int, j: int| 0 <= i < j < v.len() ==> #[trigger] v[i] < #[trigger] v[j]
}

/// Put a byte into its place.
fn put_byte(v: &mut Vec<u8>, b: u8)
    requires
        rising(old(v)@),
    ensures
        rising(final(v)@),
        forall|x: u8| #[trigger] final(v)@.contains(x) <==> old(v)@.contains(x) || x == b,
{
    let ghost before = v@;
    let n: usize = v.len();
    let mut i: usize = 0;
    while i < n && v[i] < b
        invariant
            n == v@.len(),
            before == v@,
            i <= n,
            forall|j: int| 0 <= j < i ==> #[trigger] v@[j] < b,
        decreases n - i,
    {
        i = i + 1;
    }
    if i < n && v[i] == b {
        return;
    }
    v.insert(i, b);
    proof {
        let after = v@;
        assert(after =~= before.insert(i as int, b));
        assert forall|x: u8| #[trigger] after.contains(x) <==> before.contains(x) || x == b by {
            if after.contains(x) {
                let j = choose|j: int| 0 <= j < after.len() && after[j] == x;
                if j < i {
                    assert(before[j] == x);
                } else if j > i {
                    assert(before[j - 1] == x);
                }
            }
            if before.contains(x) {
                let j = choose|j: int| 0 <= j < before.len() && before[j] == x;
                if j < i {
                    assert(after[j] == x);
                } else {
                    assert(after[j + 1] == x);
                }
            }
            if x == b {
                assert(after[i as int] == x);
            }
        }
        assert forall|j: int, k: int| 0 <= j < k < after.len() implies #[trigger] after[j]
            < #[trigger] after[k] by {
            let x = if j < i {
                j
            } else {
                j - 1
            };
            let y = if k < i {
                k
            } else {
                k - 1
            };
            if j != i && k != i {
                assert(after[j] == before[x] && after[k] == before[y]);
            } else if j == i {
                assert(after[k] == before[k - 1]);
                if k > i + 1 {
                    assert(before[i as int] < before[k - 1]);
                }
            } else {
                assert(after[j] == before[j]);
            }
        }
    }
}

/// A byte of punctuation of a term.
fn add_punct(v: &mut Vec<u8>, x: &Term)
    requires
        rising(old(v)@),
    ensures
        rising(final(v)@),
        forall|b: u8| #[trigger]
            final(v)@.contains(b) <==> old(v)@.contains(b) || holds_punct(term_model(*x), b),
{
    if let Term::Tok(s) = x {
        if !word_text(s) {
            let y = s.as_str().as_bytes();
            let ghost start = v@;
            let mut k: usize = 0;
            while k < y.len()
                invariant
                    k <= y@.len(),
                    y@ == encode_utf8(s@),
                    rising(v@),
                    forall|b: u8| #[trigger]
                        v@.contains(b) <==> start.contains(b) || exists|j: int|
                            0 <= j < k && #[trigger] y@[j] == b,
                decreases y@.len() - k,
            {
                let ghost before = v@;
                put_byte(v, y[k]);
                assert forall|b: u8| #[trigger] v@.contains(b) <==> start.contains(b) || exists|
                    j: int,
                |
                    0 <= j < k + 1 && #[trigger] y@[j] == b by {
                    assert(v@.contains(b) <==> before.contains(b) || b == y@[k as int]);
                }
                k = k + 1;
            }
        }
    }
}

/// A byte of punctuation of the productions before `p`, of the alternatives
/// before `a` of production `p`, and of the terms before `i` of alternative
/// `a`.
pub open spec fn punct_before(prods: Seq<Seq<Terms>>, b: u8, p: int, a: int, i: int) -> bool {
    exists|q: int, c: int, k: int|
        0 <= q < prods.len() && 0 <= c < prods[q].len() && 0 <= k < prods[q][c].len() && (q < p || (q
            == p && (c < a || (c == a && k < i)))) && holds_punct(#[trigger] prods[q][c][k], b)
}

proof fn lemma_punct_next(prods: Seq<Seq<Terms>>, b: u8, p: int, a: int, i: int)
    requires
        0 <= p < prods.len(),
        0 <= a < prods[p].len(),
        0 <= i < prods[p][a].len(),
    ensures
        punct_before(prods, b, p, a, i + 1) <==> punct_before(prods, b, p, a, i) || holds_punct(
            prods[p][a][i],
            b,
        ),
{
    if punct_before(prods, b, p, a, i + 1) {
        let (q, c, k) = choose|q: int, c: int, k: int|
            0 <= q < prods.len() && 0 <= c < prods[q].len() && 0 <= k < prods[q][c].len() && (q < p
                || (q == p && (c < a || (c == a && k < i + 1)))) && holds_punct(
                #[trigger] prods[q][c][k],
                b,
            );
        assert(holds_punct(prods[q][c][k], b));
    }
    if holds_punct(prods[p][a][i], b) {
        assert(holds_punct(prods[p][a][i], b));
    }
}

/// The bytes of punctuation of all terms.
fn all_punct(prods: &Vec<Production>) -> (v: Vec<u8>)
    ensures
        rising(v@),
        forall|b: u8| #[trigger] v@.contains(b) <==> punct_byte(prods_model(prods@), b),
{
    let ghost model = prods_model(prods@);
    let mut v: Vec<u8> = Vec::new();
    let n: usize = prods.len();
    let mut p: usize = 0;
    while p < n
        invariant
            n == prods@.len(),
            p <= n,
            model == prods_model(prods@),
            rising(v@),
            forall|b: u8| #[trigger] v@.contains(b) <==> punct_before(model, b, p as int, 0, 0),
        decreases n - p,
    {
        let alts = &prods[p].alts;
        let m: usize = alts.len();
        let mut a: usize = 0;
        while a < m
            invariant
                n == prods@.len(),
                p < n,
                model == prods_model(prods@),
                alts == &prods@[p as int].alts,
                m == alts@.len(),
                a <= m,
                rising(v@),
                forall|b: u8| #[trigger]
                    v@.contains(b) <==> punct_before(model, b, p as int, a as int, 0),
            decreases m - a,
        {
            let terms = &alts[a].terms;
            let l: usize = terms.len();
            let mut i: usize = 0;
            while i < l
                invariant
                    n == prods@.len(),
                    p < n,
                    model == prods_model(prods@),
                    alts == &prods@[p as int].alts,
                    m == alts@.len(),
                    a < m,
                    terms == &alts@[a as int].terms,
                    l == terms@.len(),
                    i <= l,
                    rising(v@),
                    forall|b: u8| #[trigger]
                        v@.contains(b) <==> punct_before(model, b, p as int, a as int, i as int),
                decreases l - i,
            {
                let ghost before = v@;
                add_punct(&mut v, &terms[i]);
                proof {
                    assert(model[p as int] == alts_model(alts@));
                    assert(model[p as int][a as int] == terms_model(terms@));
                    assert(model[p as int][a as int][i as int] == term_model(terms@[i as int]));
                    assert forall|b: u8| #[trigger]
                        v@.contains(b) <==> punct_before(
                            model,
                            b,
                            p as int,
                            a as int,
                            i + 1,
                        ) by {
                        lemma_punct_next(model, b, p as int, a as int, i as int);
                        assert(v@.contains(b) <==> before.contains(b) || holds_punct(
                            term_model(terms@[i as int]),
                            b,
                        ));
                    }
                }
                i = i + 1;
            }
            proof {
                assert(model[p as int] == alts_model(alts@));
                assert(model[p as int][a as int] == terms_model(terms@));
                assert forall|b: u8| #[trigger]
                    v@.contains(b) <==> punct_before(model, b, p as int, a + 1, 0) by {
                    lemma_punct_same(model, b, p as int, a as int, l as int, p as int, a + 1, 0);
                }
            }
            a = a + 1;
        }
        proof {
            assert(model[p as int] == alts_model(alts@));
            assert forall|b: u8| #[trigger]
                v@.contains(b) <==> punct_before(model, b, p + 1, 0, 0) by {
                lemma_punct_same(model, b, p as int, m as int, 0, p + 1, 0, 0);
            }
        }
        p = p + 1;
    }
    proof {
        assert forall|b: u8| #[trigger] v@.contains(b) <==> punct_byte(model, b) by {
            if punct_byte(model, b) {
                let (q, c, k) = choose|q: int, c: int, k: int|
                    0 <= q < model.len() && 0 <= c < model[q].len() && 0 <= k < model[q][c].len()
                        && holds_punct(#[trigger] model[q][c][k], b);
                assert(holds_punct(model[q][c][k], b));
            }
            if punct_before(model, b, n as int, 0, 0) {
                let (q, c, k) = choose|q: int, c: int, k: int|
                    0 <= q < model.len() && 0 <= c < model[q].len() && 0 <= k < model[q][c].len()
                        && (q < n || (q == n && (c < 0 || (c == 0 && k < 0)))) && holds_punct(
                        #[trigger] model[q][c][k],
                        b,
                    );
                assert(holds_punct(model[q][c][k], b));
            }
        }
    }
    v
}

/// The end of one part is the start of the next.
proof fn lemma_punct_same(
    prods: Seq<Seq<Terms>>,
    b: u8,
    p: int,
    a: int,
    i: int,
    q: int,
    c: int,
    j: int,
)
    requires
        0 <= p < prods.len(),
        (a < prods[p].len() && i == prods[p][a].len() && q == p && c == a + 1 && j == 0 && 0 <= a)
            || (a == prods[p].len() && i == 0 && q == p + 1 && c == 0 && j == 0),
    ensures
        punct_before(prods, b, p, a, i) <==> punct_before(prods, b, q, c, j),
{
    if punct_before(prods, b, p, a, i) {
        let (x, y, z) = choose|x: int, y: int, z: int|
            0 <= x < prods.len() && 0 <= y < prods[x].len() && 0 <= z < prods[x][y].len() && (x < p
                || (x == p && (y < a || (y == a && z < i)))) && holds_punct(
                #[trigger] prods[x][y][z],
                b,
            );
        assert(holds_punct(prods[x][y][z], b));
    }
    if punct_before(prods, b, q, c, j) {
        let (x, y, z) = choose|x: int, y: int, z: int|
            0 <= x < prods.len() && 0 <= y < prods[x].len() && 0 <= z < prods[x][y].len() && (x < q
                || (x == q && (y < c || (y == c && z < j)))) && holds_punct(
                #[trigger] prods[x][y][z],
                b,
            );
        assert(holds_punct(prods[x][y][z], b));
    }
}

// ---- The whole ---------------------------------------------------------

/// Statements that bind, group, or compute.
fn default_host() -> (h: Host)
    ensures
        is_default(h),
{
    let mut keywords: Vec<String> = Vec::new();
    keywords.push("let".to_owned());
    let mut program: Vec<String> = Vec::new();
    program.push("stmt*".to_owned());
    let mut stmt: Vec<String> = Vec::new();
    stmt.push("'let' ident '=' expr ';'".to_owned());
    stmt.push("'{' stmt* '}'".to_owned());
    stmt.push("expr ';'".to_owned());
    let mut prods: Vec<HostProd> = Vec::new();
    proof {
        assert(views(keywords@) =~= seq!["let"@]);
        assert(views(program@) =~= seq!["stmt*"@]);
        assert(views(stmt@) =~= seq![
            "'let' ident '=' expr ';'"@,
            "'{' stmt* '}'"@,
            "expr ';'"@,
        ]);
    }
    prods.push(HostProd { name: "program".to_owned(), alts: program });
    prods.push(HostProd { name: "stmt".to_owned(), alts: stmt });
    Host { start: "program".to_owned(), keywords, prods }
}

/// Resolve a statement grammar, or say what is wrong with it.
pub fn resolve_host(spec: &Spec, syms: &Vec<Sym>, host: &Host) -> (r: Result<Grammar, String>)
    requires
        host.prods@.len() < usize::MAX,
    ensures
        resolves_to(*spec, syms@, *host, r),
{
    let raw = &host.prods;
    let n: usize = raw.len();
    if n == 0 {
        return Err("host grammar has no productions".to_owned());
    }
    let start: usize = match find_prod(raw, host.start.as_str()) {
        Ok(i) => i,
        Err(x) => {
            return Err(x);
        },
    };
    let prods: Vec<Production> = match resolve_prods(spec, syms, raw, start) {
        Ok(v) => v,
        Err(x) => {
            return Err(x);
        },
    };
    let ghost model = prods_model(prods@);
    let ghost names = host_names(raw@);
    let mut p: usize = 0;
    while p < n
        invariant
            n == raw@.len(),
            n == prods@.len(),
            n < usize::MAX,
            p <= n,
            raw == &host.prods,
            n > 0,
            index_in(names, host.start@, 0) == Some(start as int),
            prods_terms(*spec, syms@, raw@, start as int, n as int) == Ok::<
                Seq<Seq<Terms>>,
                Seq<char>,
            >(model),
            model == prods_model(prods@),
            names == host_names(raw@),
            prod_names(prods@) == names,
            prods_fit(prods@, n as int),
            choices_fault(model, names, p as int) is None,
        decreases n - p,
    {
        assert(prod_names(prods@)[p as int] == prods@[p as int].name@);
        if let Some(x) = check_choice(&prods, p) {
            proof {
                lemma_choices_fault(model, names, p + 1, n as int);
            }
            return Err(x);
        }
        p = p + 1;
    }
    let keywords = all_keywords(&host.keywords, &prods);
    let punct_bytes = all_punct(&prods);
    let g = Grammar { prods, start, keywords, punct_bytes };
    proof {
        assert forall|p: int, a: int, i: int|
            0 <= p < g.prods@.len() && 0 <= a < g.prods@[p].alts@.len() && 0 <= i < g.terms(
                p,
                a,
            ).len() implies g.term_ok(#[trigger] g.terms(p, a)[i]) by {
            assert(all_fit(g.prods@[p].alts@, n as int));
            assert(fit(g.prods@[p].alts@[a].terms@, n as int));
        }
    }
    Ok(g)
}

/// The statement grammar of a specification, or what is wrong with it.
pub fn build_host_model(spec: &Spec, syms: &Vec<Sym>) -> (r: Result<Grammar, String>)
    requires
        spec.host matches Some(h) ==> h.prods@.len() < usize::MAX,
    ensures
        host_ok(*spec, syms@, r),
{
    match &spec.host {
        Some(h) => {
            let r = resolve_host(spec, syms, h);
            assert(resolves_to(*spec, syms@, *h, r));
            r
        },
        None => {
            let h = default_host();
            let r = resolve_host(spec, syms, &h);
            assert(resolves_to(*spec, syms@, h, r));
            r
        },
    }
}

} // verus!
