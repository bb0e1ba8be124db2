//! Statement grammars around expressions, and what a program parses to.

use vstd::prelude::*;
use vstd::utf8::*;

use crate::runtime::ast::Form;
use crate::runtime::cursor::{is_word, stands_at, word_end};
use crate::runtime::grammar::{parsed, ParseError};
use crate::runtime::table::Table;
use crate::runtime::verify::past_space;

verus! {

/// One term of an alternative.
#[derive(Debug)]
pub enum Term {
    /// A literal: a keyword or punctuation.
    Tok(String),
    /// An identifier that is no keyword.
    Ident,
    /// An expression, up to the literal after it or the end of the text.
    Expr,
    /// A production.
    Nt(usize),
    /// A production any number of times, up to the literal after it or the end
    /// of the text.
    Rep(usize),
}

#[derive(Debug)]
pub struct Alt {
    pub terms: Vec<Term>,
}

#[derive(Debug)]
pub struct Production {
    pub name: String,
    pub alts: Vec<Alt>,
}

#[derive(Debug)]
pub struct Grammar {
    pub prods: Vec<Production>,
    /// The production of whole programs.
    pub start: usize,
    /// Words that are no identifiers.
    pub keywords: Vec<String>,
    /// Bytes of punctuation.
    pub punct_bytes: Vec<u8>,
}

/// A literal in UTF-8.
pub open spec fn lit(s: String) -> Seq<u8> {
    encode_utf8(s@)
}

impl Grammar {
    pub open spec fn terms(&self, p: int, a: int) -> Seq<Term> {
        self.prods@[p].alts@[a].terms@
    }

    /// Terms refer to productions, literals are not empty.
    pub open spec fn term_ok(&self, x: Term) -> bool {
        match x {
            Term::Tok(s) => lit(s).len() > 0,
            Term::Nt(i) => i < self.prods@.len(),
            Term::Rep(i) => i < self.prods@.len(),
            _ => true,
        }
    }

    pub open spec fn wf(&self) -> bool {
        &&& self.start < self.prods@.len()
        &&& self.prods@.len() < usize::MAX
        &&& forall|p: int, a: int, i: int|
            0 <= p < self.prods@.len() && 0 <= a < self.prods@[p].alts@.len() && 0 <= i < self.terms(
                p,
                a,
            ).len() ==> self.term_ok(#[trigger] self.terms(p, a)[i])
    }

    /// Some term takes a byte, or leads to a production that takes one, within
    /// `d` levels.
    pub open spec fn firm(&self, terms: Seq<Term>, d: nat) -> bool
        decreases d, 1int,
    {
        exists|i: int|
            0 <= i < terms.len() && (takes_bytes(#[trigger] terms[i]) || (terms[i] is Nt
                && self.solid_in(terms[i]->Nt_0 as int, d)))
    }

    /// Every alternative of production `p` takes a byte, within `d` levels.
    pub open spec fn solid_in(&self, p: int, d: nat) -> bool
        decreases d, 0int,
    {
        d > 0 && forall|a: int|
            0 <= a < self.prods@[p].alts@.len() ==> self.firm(
                #[trigger] self.terms(p, a),
                (d - 1) as nat,
            )
    }

    /// Production `p` cannot be empty.
    pub open spec fn solid(&self, p: int) -> bool {
        self.solid_in(p, self.prods@.len())
    }

    /// A term that cannot be empty.
    pub open spec fn takes(&self, x: Term) -> bool {
        takes_bytes(x) || (x is Nt && self.solid(x->Nt_0 as int))
    }

    /// Every term before `i` can be empty.
    pub open spec fn loose_before(&self, terms: Seq<Term>, i: int) -> bool {
        forall|j: int| 0 <= j < i ==> !self.takes(#[trigger] terms[j])
    }

    /// A production reached before a byte is taken ranks below.
    pub open spec fn ranked(&self, r: Seq<nat>) -> bool {
        &&& r.len() == self.prods@.len()
        &&& forall|p: int| 0 <= p < r.len() ==> #[trigger] r[p] <= self.prods@.len()
        &&& forall|p: int, a: int, i: int|
            0 <= p < self.prods@.len() && 0 <= a < self.prods@[p].alts@.len() && 0 <= i < self.terms(
                p,
                a,
            ).len() && self.loose_before(self.terms(p, a), i) ==> match #[trigger] self.terms(p, a)[i] {
                Term::Nt(j) => r[j as int] < r[p],
                Term::Rep(j) => r[j as int] < r[p],
                _ => true,
            }
        &&& forall|p: int, a: int, i: int|
            0 <= p < self.prods@.len() && 0 <= a < self.prods@[p].alts@.len() && 0 <= i < self.terms(
                p,
                a,
            ).len() ==> match #[trigger] self.terms(p, a)[i] {
                Term::Rep(j) => self.solid(j as int),
                _ => true,
            }
    }

    /// Parsing by this grammar ends: no production leads to itself without
    /// taking a byte, and what is repeated takes one.
    pub open spec fn grounded(&self) -> bool {
        exists|r: Seq<nat>| #[trigger] self.ranked(r)
    }

    /// A ranking.
    pub open spec fn ranks(&self) -> Seq<nat> {
        choose|r: Seq<nat>| #[trigger] self.ranked(r)
    }

    /// The rank of production `p`; no rank reaches `top`.
    pub open spec fn rank(&self, p: int) -> nat {
        if 0 <= p < self.prods@.len() && self.ranks()[p] <= self.prods@.len() {
            self.ranks()[p]
        } else {
            0
        }
    }

    pub open spec fn top(&self) -> nat {
        (self.prods@.len() + 1) as nat
    }
}

/// A term that takes a byte at least.
pub open spec fn takes_bytes(x: Term) -> bool {
    x is Tok || x is Ident || x is Expr
}

// ---- Programs ----------------------------------------------------------

/// A child: the bytes it takes, white space before it included, and what it
/// is.
pub ghost struct KidModel {
    pub width: int,
    pub what: KidKind,
}

pub ghost enum KidKind {
    Tok(Seq<char>),
    Id(Seq<char>),
    Expr(Form),
    Sub { prod: int, alt: int, kids: Seq<KidModel> },
}

/// Why a program does not parse.
pub ghost enum Fault {
    Expr(ParseError),
    Expected(Seq<char>, int),
    Trailing(int),
    /// The grammar does not come to an end.
    Endless,
}

/// Children and where they end.
pub type Kids = Result<(Seq<KidModel>, int), Fault>;

/// A production: its alternative, its children and where they end.
pub type Tree3 = Result<(int, Seq<KidModel>, int), Fault>;

/// Every byte is one of a word.
pub open spec fn all_word(s: Seq<u8>) -> bool {
    forall|i: int| 0 <= i < s.len() ==> is_word(#[trigger] s[i])
}

/// A literal stands at byte `i`; a word ends there.
pub open spec fn literal_stands(b: Seq<u8>, i: int, s: Seq<u8>) -> bool {
    &&& stands_at(b, i, s)
    &&& all_word(s) ==> i + s.len() >= b.len() || !is_word(b[i + s.len()])
}

/// The literal after term `i`.
pub open spec fn terminator(terms: Seq<Term>, i: int) -> Option<Seq<u8>> {
    if i + 1 < terms.len() {
        match terms[i + 1] {
            Term::Tok(s) => Some(lit(s)),
            _ => None,
        }
    } else {
        None
    }
}

/// The first place at or after `pos` where the literal stands, or the end of
/// the text.
pub open spec fn scanned(b: Seq<u8>, pos: int, s: Option<Seq<u8>>) -> int
    decreases b.len() - pos,
{
    match s {
        None => b.len() as int,
        Some(x) => if pos < 0 || x.len() == 0 || pos + x.len() > b.len() {
            b.len() as int
        } else if stands_at(b, pos, x) {
            pos
        } else {
            scanned(b, pos + 1, s)
        },
    }
}

/// The longer of two lengths.
pub open spec fn longer(x: Option<int>, y: Option<int>) -> Option<int> {
    match (x, y) {
        (Some(i), Some(j)) => if i >= j {
            x
        } else {
            y
        },
        (None, _) => y,
        (_, None) => x,
    }
}

/// Length of the longest literal at byte `at` that an alternative led by term
/// `x` can begin with.
pub open spec fn head_len(g: Grammar, b: Seq<u8>, x: Option<Term>, at: int, depth: int) -> Option<int>
    decreases g.prods@.len() + 1 - depth, 1int, 0int,
{
    if depth > g.prods@.len() {
        None
    } else {
        match x {
            None => None,
            Some(Term::Tok(s)) => if literal_stands(b, at, lit(s)) {
                Some(lit(s).len() as int)
            } else {
                None
            },
            Some(Term::Nt(i)) => heads_len(g, b, i as int, g.prods@[i as int].alts@.len() as int, at, depth),
            Some(Term::Rep(i)) => heads_len(g, b, i as int, g.prods@[i as int].alts@.len() as int, at, depth),
            Some(Term::Ident) => None,
            Some(Term::Expr) => None,
        }
    }
}

/// The same over the first `n` alternatives of production `p`.
pub open spec fn heads_len(g: Grammar, b: Seq<u8>, p: int, n: int, at: int, depth: int) -> Option<int>
    decreases g.prods@.len() + 1 - depth, 0int, n,
{
    if n <= 0 || depth > g.prods@.len() {
        None
    } else {
        longer(
            heads_len(g, b, p, n - 1, at, depth),
            head_len(g, b, first_term(g.prods@[p].alts@[n - 1].terms@), at, depth + 1),
        )
    }
}

pub open spec fn first_term(terms: Seq<Term>) -> Option<Term> {
    if terms.len() > 0 {
        Some(terms[0])
    } else {
        None
    }
}

/// An alternative led by term `x` can begin without a literal.
pub open spec fn head_open(g: Grammar, x: Option<Term>, depth: int) -> bool
    decreases g.prods@.len() + 1 - depth,
{
    if depth > g.prods@.len() {
        false
    } else {
        match x {
            None => true,
            Some(Term::Tok(s)) => false,
            Some(Term::Nt(i)) => exists|a: int|
                0 <= a < g.prods@[i as int].alts@.len() && head_open(
                    g,
                    first_term((#[trigger] g.prods@[i as int].alts@[a]).terms@),
                    depth + 1,
                ),
            _ => true,
        }
    }
}

/// A choice among alternatives: the one with the longest literal, and the last
/// one that needs none.
pub ghost struct Choice {
    pub best: Option<(int, int)>,
    pub open: Option<int>,
}

/// The choice among the first `n` alternatives of production `p`.
pub open spec fn choices(g: Grammar, b: Seq<u8>, p: int, head: int, n: int) -> Choice
    decreases n,
{
    if n <= 0 {
        Choice { best: None, open: None }
    } else {
        let c = choices(g, b, p, head, n - 1);
        let x = first_term(g.prods@[p].alts@[n - 1].terms@);
        match head_len(g, b, x, head, 0) {
            Some(len) => if c.best matches Some((a, l)) && len <= l {
                c
            } else {
                Choice { best: Some((n - 1, len)), ..c }
            },
            None => if head_open(g, x, 0) {
                Choice { open: Some(n - 1), ..c }
            } else {
                c
            },
        }
    }
}

/// The alternative of production `p` that the text from `pos` on calls for.
pub open spec fn chosen(g: Grammar, b: Seq<u8>, p: int, pos: int) -> Option<int> {
    let c = choices(g, b, p, past_space(b, pos), g.prods@[p].alts@.len() as int);
    match c.best {
        Some((a, l)) => Some(a),
        None => c.open,
    }
}

/// `word` is a keyword.
pub open spec fn is_keyword(g: Grammar, word: Seq<char>) -> bool {
    exists|i: int| 0 <= i < g.keywords@.len() && (#[trigger] g.keywords@[i])@ == word
}

/// `kids`, then what comes of the rest.
pub open spec fn then_kids(kids: Seq<KidModel>, rest: Kids) -> Kids {
    match rest {
        Ok((s, e)) => Ok((kids + s, e)),
        Err(x) => Err(x),
    }
}

/// Parsing of production `p` from byte `pos` on.
pub open spec fn prod_parsed(t: Table, g: Grammar, b: Seq<u8>, p: int, pos: int) -> Tree3
    decreases b.len() - pos, g.rank(p), 1int, 0int,
{
    match chosen(g, b, p, pos) {
        None => Err(Fault::Expected("statement"@, past_space(b, pos))),
        Some(a) => match terms_parsed(t, g, b, p, a, 0, pos, false) {
            Ok((kids, e)) => Ok((a, kids, e)),
            Err(x) => Err(x),
        },
    }
}

/// Parsing of the terms from `i` on of alternative `a` of production `p`, from
/// byte `pos` on, where bytes have been taken before or not.
pub open spec fn terms_parsed(
    t: Table,
    g: Grammar,
    b: Seq<u8>,
    p: int,
    a: int,
    i: int,
    pos: int,
    moved: bool,
) -> Kids
    decreases
            b.len() - pos,
            (if moved {
                g.top()
            } else {
                g.rank(p)
            }),
            0int,
            g.terms(p, a).len() - i,
{
    let terms = g.terms(p, a);
    if i >= terms.len() || i < 0 {
        Ok((Seq::empty(), pos))
    } else {
        match terms[i] {
            Term::Tok(s) => {
                let at = past_space(b, pos);
                let e = at + lit(s).len();
                if !literal_stands(b, at, lit(s)) {
                    Err(Fault::Expected(s@, at))
                } else if !(pos < e <= b.len()) {
                    Err(Fault::Endless)
                } else {
                    then_kids(
                        seq![KidModel { width: e - pos, what: KidKind::Tok(s@) }],
                        terms_parsed(t, g, b, p, a, i + 1, e, true),
                    )
                }
            },
            Term::Ident => {
                let at = past_space(b, pos);
                let e = word_end(b, at);
                let word = decode_utf8(b.subrange(at, e));
                if e == at || is_keyword(g, word) {
                    Err(Fault::Expected("identifier"@, at))
                } else if !(pos < e <= b.len()) {
                    Err(Fault::Endless)
                } else {
                    then_kids(
                        seq![KidModel { width: e - pos, what: KidKind::Id(word) }],
                        terms_parsed(t, g, b, p, a, i + 1, e, true),
                    )
                }
            },
            Term::Expr => {
                let e = scanned(b, pos, terminator(terms, i));
                match parsed(t, b.subrange(pos, e)) {
                    Err(x) => Err(Fault::Expr(x)),
                    Ok(f) => if !(pos < e <= b.len()) {
                        Err(Fault::Endless)
                    } else {
                        then_kids(
                            seq![KidModel { width: e - pos, what: KidKind::Expr(f) }],
                            terms_parsed(t, g, b, p, a, i + 1, e, true),
                        )
                    },
                }
            },
            Term::Nt(j) => if (moved || g.rank(j as int) < g.rank(p)) && g.rank(j as int) < g.top()
                && pos <= b.len() {
                match prod_parsed(t, g, b, j as int, pos) {
                    Err(x) => Err(x),
                    Ok((c, kids, e)) => if !(pos <= e <= b.len()) {
                        Err(Fault::Endless)
                    } else {
                        then_kids(
                            seq![sub_model(pos, j as int, c, kids, e)],
                            terms_parsed(t, g, b, p, a, i + 1, e, moved || pos < e),
                        )
                    },
                }
            } else {
                Err(Fault::Endless)
            },
            Term::Rep(j) => {
                let at = past_space(b, pos);
                let ended = at >= b.len() || (terminator(terms, i) matches Some(s) && literal_stands(
                    b,
                    at,
                    s,
                ));
                if ended {
                    terms_parsed(t, g, b, p, a, i + 1, pos, moved)
                } else if (moved || g.rank(j as int) < g.rank(p)) && g.rank(j as int) < g.top() {
                    match prod_parsed(t, g, b, j as int, pos) {
                        Err(x) => Err(x),
                        Ok((c, kids, e)) => if !(pos < e <= b.len()) {
                            Err(Fault::Endless)
                        } else {
                            then_kids(
                                seq![sub_model(pos, j as int, c, kids, e)],
                                terms_parsed(t, g, b, p, a, i, e, true),
                            )
                        },
                    }
                } else {
                    Err(Fault::Endless)
                }
            },
        }
    }
}

/// A production as a child.
pub open spec fn sub_model(pos: int, p: int, a: int, kids: Seq<KidModel>, e: int) -> KidModel {
    KidModel { width: e - pos, what: KidKind::Sub { prod: p, alt: a, kids } }
}

/// Parsing of a whole program: its alternative and its children.
pub open spec fn program_parsed(t: Table, g: Grammar, b: Seq<u8>) -> Tree3 {
    match prod_parsed(t, g, b, g.start as int, 0) {
        Err(x) => Err(x),
        Ok((a, kids, e)) => if past_space(b, e) == b.len() {
            Ok((a, kids, e))
        } else {
            Err(Fault::Trailing(e))
        },
    }
}

} // verus!
