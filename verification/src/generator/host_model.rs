//! Statement grammars: from productions written as words to the grammar that
//! programs are parsed by, and what makes one unfit.

use vstd::prelude::*;
use vstd::string::*;
use vstd::utf8::*;

use crate::generator::spec::{Host, HostProd, Spec};
use crate::generator::symbols::Sym;
use crate::generator::text::{decimal, quoted, views, words_from};
use crate::runtime::cursor::{is_digit, is_word, is_word_start};
use crate::runtime::host_grammar::{Alt, Grammar, Production, Term};

verus! {

// ---- Terms -------------------------------------------------------------

/// A term of an alternative.
pub ghost enum TermModel {
    Tok(Seq<char>),
    Ident,
    Expr,
    Nt(int),
    Rep(int),
}

pub type Terms = Seq<TermModel>;

/// What is made, or what is wrong.
pub type Made<T> = Result<T, Seq<char>>;

pub open spec fn term_model(x: Term) -> TermModel {
    match x {
        Term::Tok(s) => TermModel::Tok(s@),
        Term::Ident => TermModel::Ident,
        Term::Expr => TermModel::Expr,
        Term::Nt(i) => TermModel::Nt(i as int),
        Term::Rep(i) => TermModel::Rep(i as int),
    }
}

pub open spec fn terms_model(v: Seq<Term>) -> Terms {
    Seq::new(v.len(), |i: int| term_model(v[i]))
}

pub open spec fn alts_model(v: Seq<Alt>) -> Seq<Terms> {
    Seq::new(v.len(), |i: int| terms_model(v[i].terms@))
}

pub open spec fn prods_model(v: Seq<Production>) -> Seq<Seq<Terms>> {
    Seq::new(v.len(), |i: int| alts_model(v[i].alts@))
}

pub open spec fn prod_names(v: Seq<Production>) -> Seq<Seq<char>> {
    Seq::new(v.len(), |i: int| v[i].name@)
}

pub open spec fn host_names(v: Seq<HostProd>) -> Seq<Seq<char>> {
    Seq::new(v.len(), |i: int| v[i].name@)
}

/// The first place of `w` among `names`, from `i` on.
pub open spec fn index_in(names: Seq<Seq<char>>, w: Seq<char>, i: int) -> Option<int>
    decreases names.len() - i,
{
    if i < 0 || i >= names.len() {
        None
    } else if names[i] == w {
        Some(i)
    } else {
        index_in(names, w, i + 1)
    }
}

proof fn lemma_index_in(names: Seq<Seq<char>>, w: Seq<char>, i: int)
    ensures
        index_in(names, w, i) matches Some(k) ==> 0 <= k < names.len(),
    decreases names.len() - i,
{
    if 0 <= i < names.len() && names[i] != w {
        lemma_index_in(names, w, i + 1);
    }
}

pub open spec fn undefined(w: Seq<char>) -> Seq<char> {
    "host grammar references undefined production "@ + quoted(w)
}

/// The term that a word of a production's alternative is.
pub open spec fn word_term(names: Seq<Seq<char>>, prod: Seq<char>, w: Seq<char>) -> Made<TermModel> {
    if w.len() >= 2 && w[0] == '\'' && w.last() == '\'' {
        if w.len() == 2 {
            Err("empty literal in production "@ + quoted(prod))
        } else {
            Ok(TermModel::Tok(w.subrange(1, w.len() - 1)))
        }
    } else if w == "expr"@ {
        Ok(TermModel::Expr)
    } else if w == "ident"@ {
        Ok(TermModel::Ident)
    } else if w.len() > 0 && w.last() == '*' {
        match index_in(names, w.drop_last(), 0) {
            Some(i) => Ok(TermModel::Rep(i)),
            None => Err(undefined(w.drop_last())),
        }
    } else {
        match index_in(names, w, 0) {
            Some(i) => Ok(TermModel::Nt(i)),
            None => Err(undefined(w)),
        }
    }
}

/// The terms that the first `n` words are.
pub open spec fn words_terms(
    names: Seq<Seq<char>>,
    prod: Seq<char>,
    ws: Seq<Seq<char>>,
    n: int,
) -> Made<Terms>
    decreases n,
{
    if n <= 0 {
        Ok(Seq::empty())
    } else {
        match words_terms(names, prod, ws, n - 1) {
            Err(x) => Err(x),
            Ok(s) => match word_term(names, prod, ws[n - 1]) {
                Err(x) => Err(x),
                Ok(t) => Ok(s.push(t)),
            },
        }
    }
}

/// The terms of an alternative.
pub open spec fn alt_terms(names: Seq<Seq<char>>, prod: Seq<char>, alt: Seq<char>) -> Made<Terms> {
    let ws = words_from(alt, 0);
    if ws.len() == 0 {
        Err("production "@ + quoted(prod) + " has an empty alternative"@)
    } else {
        words_terms(names, prod, ws, ws.len() as int)
    }
}

/// The terms of the first `n` alternatives.
pub open spec fn alts_terms(
    names: Seq<Seq<char>>,
    prod: Seq<char>,
    alts: Seq<Seq<char>>,
    n: int,
) -> Made<Seq<Terms>>
    decreases n,
{
    if n <= 0 {
        Ok(Seq::empty())
    } else {
        match alts_terms(names, prod, alts, n - 1) {
            Err(x) => Err(x),
            Ok(s) => match alt_terms(names, prod, alts[n - 1]) {
                Err(x) => Err(x),
                Ok(t) => Ok(s.push(t)),
            },
        }
    }
}

// ---- Terminators -------------------------------------------------------

/// A byte that an expression can hold.
pub open spec fn expr_byte(spec: Spec, syms: Seq<Sym>, b: u8) -> bool {
    ||| exists|i: int| 0 <= i < syms.len() && encode_utf8((#[trigger] syms[i]).text@).contains(b)
    ||| spec.atoms.int && is_digit(b)
    ||| spec.atoms.ident && is_word_start(b)
}

/// A literal with a byte that an expression can hold.
pub open spec fn clashes(spec: Spec, syms: Seq<Sym>, s: Seq<char>) -> bool {
    exists|k: int|
        0 <= k < encode_utf8(s).len() && expr_byte(spec, syms, #[trigger] encode_utf8(s)[k])
}

/// What is wrong with term `i`: expressions and repetitions end before a
/// literal that no expression holds, or with the program.
pub open spec fn term_fault(
    spec: Spec,
    syms: Seq<Sym>,
    last: bool,
    prod: Seq<char>,
    terms: Terms,
    i: int,
) -> Option<Seq<char>> {
    if !(terms[i] is Expr || terms[i] is Rep) {
        None
    } else if i + 1 < terms.len() && terms[i + 1] is Tok {
        let s = terms[i + 1]->Tok_0;
        if clashes(spec, syms, s) {
            Some(
                "terminator "@ + quoted(s) + " in production "@ + quoted(prod)
                    + " collides with an expression token byte"@,
            )
        } else {
            None
        }
    } else if i + 1 >= terms.len() && last {
        None
    } else {
        Some(
            "expr/repetition in production "@ + quoted(prod)
                + " must be followed by a literal terminator"@,
        )
    }
}

/// The first thing wrong with the first `n` terms.
pub open spec fn terms_fault(
    spec: Spec,
    syms: Seq<Sym>,
    last: bool,
    prod: Seq<char>,
    terms: Terms,
    n: int,
) -> Option<Seq<char>>
    decreases n,
{
    if n <= 0 {
        None
    } else {
        match terms_fault(spec, syms, last, prod, terms, n - 1) {
            Some(x) => Some(x),
            None => term_fault(spec, syms, last, prod, terms, n - 1),
        }
    }
}

/// The first thing wrong with the first `n` alternatives.
pub open spec fn alts_fault(
    spec: Spec,
    syms: Seq<Sym>,
    last: bool,
    prod: Seq<char>,
    alts: Seq<Terms>,
    n: int,
) -> Option<Seq<char>>
    decreases n,
{
    if n <= 0 {
        None
    } else {
        match alts_fault(spec, syms, last, prod, alts, n - 1) {
            Some(x) => Some(x),
            None => terms_fault(spec, syms, last, prod, alts[n - 1], alts[n - 1].len() as int),
        }
    }
}

/// The alternatives of a production.
pub open spec fn prod_terms(
    spec: Spec,
    syms: Seq<Sym>,
    names: Seq<Seq<char>>,
    last: bool,
    prod: Seq<char>,
    alts: Seq<Seq<char>>,
) -> Made<Seq<Terms>> {
    match alts_terms(names, prod, alts, alts.len() as int) {
        Err(x) => Err(x),
        Ok(s) => match alts_fault(spec, syms, last, prod, s, s.len() as int) {
            Some(x) => Err(x),
            None => Ok(s),
        },
    }
}

/// The first `n` productions.
pub open spec fn prods_terms(
    spec: Spec,
    syms: Seq<Sym>,
    raw: Seq<HostProd>,
    start: int,
    n: int,
) -> Made<Seq<Seq<Terms>>>
    decreases n,
{
    if n <= 0 {
        Ok(Seq::empty())
    } else {
        match prods_terms(spec, syms, raw, start, n - 1) {
            Err(x) => Err(x),
            Ok(s) => match prod_terms(
                spec,
                syms,
                host_names(raw),
                n - 1 == start,
                raw[n - 1].name@,
                views(raw[n - 1].alts@),
            ) {
                Err(x) => Err(x),
                Ok(t) => Ok(s.push(t)),
            },
        }
    }
}

// ---- Choice by the first literal ---------------------------------------

/// The literals that an alternative led by `x` can begin with, and whether it
/// can begin without one.
pub open spec fn first_of(prods: Seq<Seq<Terms>>, x: Option<TermModel>, depth: int) -> (
    Seq<Seq<char>>,
    bool,
)
    decreases prods.len() + 1 - depth, 1int, 0int,
{
    if depth > prods.len() {
        (Seq::empty(), false)
    } else {
        match x {
            Some(TermModel::Tok(s)) => (seq![s], false),
            Some(TermModel::Nt(i)) => firsts_of(prods, i, prods[i].len() as int, depth),
            _ => (Seq::empty(), true),
        }
    }
}

/// The same over the first `n` alternatives of production `p`.
pub open spec fn firsts_of(prods: Seq<Seq<Terms>>, p: int, n: int, depth: int) -> (
    Seq<Seq<char>>,
    bool,
)
    decreases prods.len() + 1 - depth, 0int, n,
{
    if n <= 0 || depth > prods.len() {
        (Seq::empty(), false)
    } else {
        let (s, open) = firsts_of(prods, p, n - 1, depth);
        let (t, more) = first_of(prods, head(prods[p][n - 1]), depth + 1);
        (s + t, open || more)
    }
}

pub open spec fn head(terms: Terms) -> Option<TermModel> {
    if terms.len() > 0 {
        Some(terms[0])
    } else {
        None
    }
}

pub open spec fn ambiguous(prod: Seq<char>, s: Seq<char>) -> Seq<char> {
    "production "@ + quoted(prod) + " is ambiguous: two alternatives both start with "@ + quoted(s)
}

/// `seen` and the first `n` of `more`, unless one comes twice.
pub open spec fn seen_with(
    prod: Seq<char>,
    seen: Seq<Seq<char>>,
    more: Seq<Seq<char>>,
    n: int,
) -> Made<Seq<Seq<char>>>
    decreases n,
{
    if n <= 0 {
        Ok(seen)
    } else {
        match seen_with(prod, seen, more, n - 1) {
            Err(x) => Err(x),
            Ok(s) => if s.contains(more[n - 1]) {
                Err(ambiguous(prod, more[n - 1]))
            } else {
                Ok(s.push(more[n - 1]))
            },
        }
    }
}

/// The literals that the first `n` alternatives of production `p` begin with,
/// and how many of them need none.
pub open spec fn heads_of(prods: Seq<Seq<Terms>>, prod: Seq<char>, p: int, n: int) -> Made<
    (Seq<Seq<char>>, nat),
>
    decreases n,
{
    if n <= 0 {
        Ok((Seq::empty(), 0))
    } else {
        match heads_of(prods, prod, p, n - 1) {
            Err(x) => Err(x),
            Ok((seen, open)) => {
                let (more, o) = first_of(prods, head(prods[p][n - 1]), 0);
                match seen_with(prod, seen, more, more.len() as int) {
                    Err(x) => Err(x),
                    Ok(s) => Ok(
                        (
                            s,
                            if o {
                                open + 1
                            } else {
                                open
                            },
                        ),
                    ),
                }
            },
        }
    }
}

/// What keeps the first literal from choosing an alternative of production
/// `p`.
pub open spec fn choice_fault(prods: Seq<Seq<Terms>>, prod: Seq<char>, p: int) -> Option<Seq<char>> {
    match heads_of(prods, prod, p, prods[p].len() as int) {
        Err(x) => Some(x),
        Ok((seen, open)) => if open > 1 {
            Some(
                "production "@ + quoted(prod) + " has "@ + decimal(open)
                    + " alternatives with no leading literal (need <=1 for LL(1) dispatch)"@,
            )
        } else {
            None
        },
    }
}

/// The first such fault of the first `n` productions.
pub open spec fn choices_fault(
    prods: Seq<Seq<Terms>>,
    names: Seq<Seq<char>>,
    n: int,
) -> Option<Seq<char>>
    decreases n,
{
    if n <= 0 {
        None
    } else {
        match choices_fault(prods, names, n - 1) {
            Some(x) => Some(x),
            None => choice_fault(prods, names[n - 1], n - 1),
        }
    }
}

// ---- Words and punctuation ---------------------------------------------

/// A literal that is a word.
pub open spec fn is_word_text(s: Seq<char>) -> bool {
    forall|k: int| 0 <= k < encode_utf8(s).len() ==> is_word(#[trigger] encode_utf8(s)[k])
}

/// The keywords and the words among the first `n` terms, each once.
pub open spec fn keywords_of_terms(kws: Seq<Seq<char>>, terms: Terms, n: int) -> Seq<Seq<char>>
    decreases n,
{
    if n <= 0 {
        kws
    } else {
        let s = keywords_of_terms(kws, terms, n - 1);
        match terms[n - 1] {
            TermModel::Tok(w) => if is_word_text(w) && !s.contains(w) {
                s.push(w)
            } else {
                s
            },
            _ => s,
        }
    }
}

pub open spec fn keywords_of_alts(kws: Seq<Seq<char>>, alts: Seq<Terms>, n: int) -> Seq<Seq<char>>
    decreases n,
{
    if n <= 0 {
        kws
    } else {
        keywords_of_terms(
            keywords_of_alts(kws, alts, n - 1),
            alts[n - 1],
            alts[n - 1].len() as int,
        )
    }
}

pub open spec fn keywords_of(kws: Seq<Seq<char>>, prods: Seq<Seq<Terms>>, n: int) -> Seq<Seq<char>>
    decreases n,
{
    if n <= 0 {
        kws
    } else {
        keywords_of_alts(keywords_of(kws, prods, n - 1), prods[n - 1], prods[n - 1].len() as int)
    }
}

/// A term that holds punctuation byte `b`.
pub open spec fn holds_punct(x: TermModel, b: u8) -> bool {
    x matches TermModel::Tok(s) && !is_word_text(s) && encode_utf8(s).contains(b)
}

/// A byte of a literal that is no word.
pub open spec fn punct_byte(prods: Seq<Seq<Terms>>, b: u8) -> bool {
    exists|p: int, a: int, i: int|
        0 <= p < prods.len() && 0 <= a < prods[p].len() && 0 <= i < prods[p][a].len()
            && holds_punct(#[trigger] prods[p][a][i], b)
}

// ---- The whole ---------------------------------------------------------

/// A statement grammar, resolved.
pub ghost struct HostParts {
    pub prods: Seq<Seq<Terms>>,
    pub start: int,
    pub keywords: Seq<Seq<char>>,
}

/// What a statement grammar is resolved to, or what is wrong with it.
pub open spec fn resolved(spec: Spec, syms: Seq<Sym>, host: Host) -> Made<HostParts> {
    let raw = host.prods@;
    if raw.len() == 0 {
        Err("host grammar has no productions"@)
    } else {
        match index_in(host_names(raw), host.start@, 0) {
            None => Err(undefined(host.start@)),
            Some(start) => match prods_terms(spec, syms, raw, start, raw.len() as int) {
                Err(x) => Err(x),
                Ok(prods) => match choices_fault(prods, host_names(raw), raw.len() as int) {
                    Some(x) => Err(x),
                    None => Ok(
                        HostParts {
                            prods,
                            start,
                            keywords: keywords_of(
                                views(host.keywords@),
                                prods,
                                prods.len() as int,
                            ),
                        },
                    ),
                },
            },
        }
    }
}

/// The grammar says what the parts say.
pub open spec fn made_of(g: Grammar, host: Host, parts: HostParts) -> bool {
    &&& prods_model(g.prods@) == parts.prods
    &&& prod_names(g.prods@) == host_names(host.prods@)
    &&& g.start == parts.start
    &&& views(g.keywords@) == parts.keywords
    &&& forall|i: int, j: int|
        0 <= i < j < g.punct_bytes@.len() ==> #[trigger] g.punct_bytes@[i]
            < #[trigger] g.punct_bytes@[j]
    &&& forall|b: u8| #[trigger] g.punct_bytes@.contains(b) <==> punct_byte(parts.prods, b)
}

/// The grammar of a specification that gives none: bindings, blocks and
/// expression statements.
pub open spec fn is_default(h: Host) -> bool {
    &&& h.start@ == "program"@
    &&& views(h.keywords@) == seq!["let"@]
    &&& h.prods@.len() == 2
    &&& h.prods@[0].name@ == "program"@
    &&& views(h.prods@[0].alts@) == seq!["stmt*"@]
    &&& h.prods@[1].name@ == "stmt"@
    &&& views(h.prods@[1].alts@) == seq![
        "'let' ident '=' expr ';'"@,
        "'{' stmt* '}'"@,
        "expr ';'"@,
    ]
}

/// What a specification's statement grammar comes to.
pub open spec fn host_ok(spec: Spec, syms: Seq<Sym>, r: Result<Grammar, String>) -> bool {
    exists|h: Host|
        (match spec.host {
            Some(x) => h == x,
            None => is_default(h),
        }) && #[trigger] resolves_to(spec, syms, h, r)
}

pub open spec fn resolves_to(
    spec: Spec,
    syms: Seq<Sym>,
    h: Host,
    r: Result<Grammar, String>,
) -> bool {
    match r {
        Ok(g) => g.wf() && resolved(spec, syms, h) is Ok && made_of(
            g,
            h,
            resolved(spec, syms, h)->Ok_0,
        ),
        Err(x) => resolved(spec, syms, h) == Err::<HostParts, Seq<char>>(x@),
    }
}

} // verus!
