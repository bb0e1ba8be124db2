//! A program that uses every statement of a grammar.

use vstd::prelude::*;
use vstd::string::*;

use crate::generator::emitter::Emitter;
use crate::runtime::host_grammar::{Grammar, Term};

verus! {

/// A term that leads to a production.
pub open spec fn refers(x: Term) -> bool {
    x is Nt || x is Rep
}

/// The production a term leads to.
pub open spec fn target(x: Term) -> int {
    match x {
        Term::Nt(i) => i as int,
        Term::Rep(i) => i as int,
        _ => 0,
    }
}

/// No term leads to a production.
pub open spec fn plain(terms: Seq<Term>) -> bool {
    forall|i: int| 0 <= i < terms.len() ==> !refers(#[trigger] terms[i])
}

/// The first alternative of production `p`, from `a` on, that leads to no
/// production; else the first of all.
pub open spec fn minimal(g: Grammar, p: int, a: int) -> int
    decreases g.prods@[p].alts@.len() - a,
{
    if a < 0 || a >= g.prods@[p].alts@.len() {
        0
    } else if plain(g.terms(p, a)) {
        a
    } else {
        minimal(g, p, a + 1)
    }
}

/// Writing out production `p` by minimal alternatives ends within `k` levels.
pub open spec fn settles(g: Grammar, p: int, k: nat) -> bool
    decreases k,
{
    k > 0 && g.prods@[p].alts@.len() > 0 && forall|i: int|
        0 <= i < g.terms(p, minimal(g, p, 0)).len() && refers(
            #[trigger] g.terms(p, minimal(g, p, 0))[i],
        ) ==> settles(g, target(g.terms(p, minimal(g, p, 0))[i]), (k - 1) as nat)
}

/// The same of every production that the terms lead to.
pub open spec fn all_settle(g: Grammar, terms: Seq<Term>, k: nat) -> bool {
    forall|i: int|
        0 <= i < terms.len() && refers(#[trigger] terms[i]) ==> settles(g, target(terms[i]), k)
}

/// Writing out a sample program ends.
pub open spec fn sample_ok(g: Grammar) -> bool {
    let k = g.prods@.len();
    &&& g.prods@[g.start as int].alts@.len() > 0
    &&& forall|i: int|
        0 <= i < g.terms(g.start as int, 0).len() ==> (match #[trigger] g.terms(
            g.start as int,
            0,
        )[i] {
            Term::Nt(j) => settles(g, j as int, k),
            Term::Rep(j) => every_settles(g, j as int, k),
            _ => true,
        })
}

/// Every alternative of production `p` can be written out.
pub open spec fn every_settles(g: Grammar, p: int, k: nat) -> bool {
    forall|a: int| 0 <= a < g.prods@[p].alts@.len() ==> all_settle(g, #[trigger] g.terms(p, a), k)
}

/// `base` and the first `n` terms, productions by their minimal alternative.
pub open spec fn expanded(
    base: Seq<char>,
    g: Grammar,
    terms: Seq<Term>,
    n: int,
    atom: Seq<char>,
    k: nat,
) -> Seq<char>
    decreases k, n,
{
    if n <= 0 {
        base
    } else {
        let s = expanded(base, g, terms, n - 1, atom, k);
        let x = terms[n - 1];
        match x {
            Term::Tok(w) => s + w@ + " "@,
            Term::Ident => s + "a "@,
            Term::Expr => s + atom + " "@,
            _ => if k == 0 {
                s
            } else {
                let t = g.terms(target(x), minimal(g, target(x), 0));
                expanded(s, g, t, t.len() as int, atom, (k - 1) as nat)
            },
        }
    }
}

/// `base` and the first `n` alternatives of production `p`.
pub open spec fn covered(base: Seq<char>, g: Grammar, p: int, n: int, atom: Seq<char>) -> Seq<char>
    decreases n,
{
    if n <= 0 {
        base
    } else {
        expanded(
            covered(base, g, p, n - 1, atom),
            g,
            g.terms(p, n - 1),
            g.terms(p, n - 1).len() as int,
            atom,
            g.prods@.len(),
        )
    }
}

/// `base` and the first `n` terms, every alternative of what is repeated.
pub open spec fn sampled(base: Seq<char>, g: Grammar, terms: Seq<Term>, n: int, atom: Seq<char>) -> Seq<
    char,
>
    decreases n,
{
    if n <= 0 {
        base
    } else {
        let s = sampled(base, g, terms, n - 1, atom);
        match terms[n - 1] {
            Term::Rep(p) => covered(s, g, p as int, g.prods@[p as int].alts@.len() as int, atom),
            _ => expanded(s, g, seq![terms[n - 1]], 1, atom, g.prods@.len()),
        }
    }
}

/// The sample program of an emitter.
pub open spec fn sample_text(e: Emitter) -> Seq<char> {
    let g = e.host;
    let terms = g.terms(g.start as int, 0);
    sampled(
        Seq::empty(),
        g,
        terms,
        terms.len() as int,
        if e.spec.atoms.int {
            "1"@
        } else {
            "a"@
        },
    )
}

fn is_plain(terms: &Vec<Term>) -> (r: bool)
    ensures
        r == plain(terms@),
{
    let mut i: usize = 0;
    while i < terms.len()
        invariant
            i <= terms@.len(),
            forall|k: int| 0 <= k < i ==> !refers(#[trigger] terms@[k]),
        decreases terms@.len() - i,
    {
        let r: bool = match &terms[i] {
            Term::Nt(_) => true,
            Term::Rep(_) => true,
            _ => false,
        };
        if r {
            assert(refers(terms@[i as int]));
            return false;
        }
        i = i + 1;
    }
    true
}

fn minimal_alt(g: &Grammar, p: usize) -> (r: usize)
    requires
        p < g.prods@.len(),
    ensures
        r == minimal(*g, p as int, 0),
        g.prods@[p as int].alts@.len() > 0 ==> r < g.prods@[p as int].alts@.len(),
{
    let mut a: usize = 0;
    while a < g.prods[p].alts.len()
        invariant
            p < g.prods@.len(),
            a <= g.prods@[p as int].alts@.len(),
            minimal(*g, p as int, 0) == minimal(*g, p as int, a as int),
        decreases g.prods@[p as int].alts@.len() - a,
    {
        if is_plain(&g.prods[p].alts[a].terms) {
            return a;
        }
        a = a + 1;
    }
    0
}

/// A term of the grammar refers to its productions.
pub open spec fn in_bounds(g: Grammar, terms: Seq<Term>) -> bool {
    forall|i: int|
        0 <= i < terms.len() && refers(#[trigger] terms[i]) ==> target(terms[i]) < g.prods@.len()
}

proof fn lemma_in_bounds(g: Grammar, p: int, a: int)
    requires
        g.wf(),
        0 <= p < g.prods@.len(),
        0 <= a < g.prods@[p].alts@.len(),
    ensures
        in_bounds(g, g.terms(p, a)),
{
    assert forall|i: int| 0 <= i < g.terms(p, a).len() && refers(#[trigger] g.terms(p, a)[i]) implies target(
        g.terms(p, a)[i],
    ) < g.prods@.len() by {
        assert(g.term_ok(g.terms(p, a)[i]));
    }
}

/// Write one term, productions by their minimal alternative.
fn expand_term(g: &Grammar, x: &Term, atom: &str, k: usize, out: &mut String)
    requires
        g.wf(),
        in_bounds(*g, seq![*x]),
        refers(*x) ==> settles(*g, target(*x), k as nat),
    ensures
        final(out)@ == expanded(old(out)@, *g, seq![*x], 1, atom@, k as nat),
    decreases k, 1int, 0int,
{
    let ghost base = out@;
    let ghost one = seq![*x];
    proof {
        assert(one[0] == *x);
        reveal_with_fuel(expanded, 2);
    }
    let p: usize = match x {
        Term::Tok(w) => {
            out.append(w.as_str());
            out.append(" ");
            return;
        },
        Term::Ident => {
            out.append("a ");
            return;
        },
        Term::Expr => {
            out.append(atom);
            out.append(" ");
            return;
        },
        Term::Nt(p) => *p,
        Term::Rep(p) => *p,
    };
    proof {
        assert(refers(one[0]));
        assert(target(one[0]) == p);
    }
    let a: usize = minimal_alt(g, p);
    proof {
        lemma_in_bounds(*g, p as int, a as int);
    }
    expand_alt(g, &g.prods[p].alts[a].terms, atom, k - 1, out);
}

/// Write terms, productions by their minimal alternative.
fn expand_alt(g: &Grammar, terms: &Vec<Term>, atom: &str, k: usize, out: &mut String)
    requires
        g.wf(),
        in_bounds(*g, terms@),
        all_settle(*g, terms@, k as nat),
    ensures
        final(out)@ == expanded(old(out)@, *g, terms@, terms@.len() as int, atom@, k as nat),
    decreases k, 2int, 0int,
{
    let ghost base = out@;
    let mut i: usize = 0;
    while i < terms.len()
        invariant
            i <= terms@.len(),
            g.wf(),
            in_bounds(*g, terms@),
            all_settle(*g, terms@, k as nat),
            out@ == expanded(base, *g, terms@, i as int, atom@, k as nat),
        decreases terms@.len() - i,
    {
        let ghost before = out@;
        proof {
            let x = terms@[i as int];
            assert(in_bounds(*g, seq![x])) by {
                assert(seq![x][0] == x);
            }
        }
        expand_term(g, &terms[i], atom, k, out);
        proof {
            let x = terms@[i as int];
            lemma_expand_one(before, *g, x, atom@, k as nat);
        }
        i = i + 1;
    }
}

/// One term.
proof fn lemma_expand_one(base: Seq<char>, g: Grammar, x: Term, atom: Seq<char>, k: nat)
    ensures
        expanded(base, g, seq![x], 1, atom, k) == (match x {
            Term::Tok(w) => base + w@ + " "@,
            Term::Ident => base + "a "@,
            Term::Expr => base + atom + " "@,
            _ => if k == 0 {
                base
            } else {
                let t = g.terms(target(x), minimal(g, target(x), 0));
                expanded(base, g, t, t.len() as int, atom, (k - 1) as nat)
            },
        }),
{
    reveal_with_fuel(expanded, 2);
    assert(seq![x][0] == x);
}

/// Whether writing out production `p` ends within `k` levels.
fn ends(g: &Grammar, p: usize, k: usize) -> (r: bool)
    requires
        g.wf(),
        p < g.prods@.len(),
    ensures
        r == settles(*g, p as int, k as nat),
    decreases k, 0int,
{
    if k == 0 || g.prods[p].alts.len() == 0 {
        return false;
    }
    let a: usize = minimal_alt(g, p);
    proof {
        lemma_in_bounds(*g, p as int, a as int);
    }
    all_end(g, &g.prods[p].alts[a].terms, k - 1)
}

fn all_end(g: &Grammar, terms: &Vec<Term>, k: usize) -> (r: bool)
    requires
        g.wf(),
        in_bounds(*g, terms@),
    ensures
        r == all_settle(*g, terms@, k as nat),
    decreases k, 1int,
{
    let mut i: usize = 0;
    while i < terms.len()
        invariant
            i <= terms@.len(),
            g.wf(),
            in_bounds(*g, terms@),
            forall|j: int|
                0 <= j < i && refers(#[trigger] terms@[j]) ==> settles(
                    *g,
                    target(terms@[j]),
                    k as nat,
                ),
        decreases terms@.len() - i,
    {
        let p: Option<usize> = match &terms[i] {
            Term::Nt(p) => Some(*p),
            Term::Rep(p) => Some(*p),
            _ => None,
        };
        if let Some(p) = p {
            assert(refers(terms@[i as int]) && target(terms@[i as int]) == p);
            if !ends(g, p, k) {
                return false;
            }
        }
        i = i + 1;
    }
    true
}

impl Emitter {
    /// Whether a sample program can be written out.
    pub fn can_sample(&self) -> (r: bool)
        requires
            self.host.wf(),
        ensures
            r == sample_ok(self.host),
    {
        let g = &self.host;
        let start: usize = g.start;
        let k: usize = g.prods.len();
        if g.prods[start].alts.len() == 0 {
            return false;
        }
        let terms = &g.prods[start].alts[0].terms;
        proof {
            lemma_in_bounds(*g, start as int, 0);
            assert(terms@ == g.terms(start as int, 0));
        }
        let mut i: usize = 0;
        while i < terms.len()
            invariant
                i <= terms@.len(),
                g == &self.host,
                g.wf(),
                start == g.start,
                k == g.prods@.len(),
                terms@ == g.terms(start as int, 0),
                in_bounds(*g, terms@),
                forall|j: int|
                    0 <= j < i ==> (match #[trigger] g.terms(start as int, 0)[j] {
                        Term::Nt(p) => settles(*g, p as int, k as nat),
                        Term::Rep(p) => every_settles(*g, p as int, k as nat),
                        _ => true,
                    }),
            decreases terms@.len() - i,
        {
            assert(terms@[i as int] == g.terms(start as int, 0)[i as int]);
            match &terms[i] {
                Term::Nt(p) => {
                    assert(refers(terms@[i as int]) && target(terms@[i as int]) == *p);
                    if !ends(g, *p, k) {
                        return false;
                    }
                },
                Term::Rep(p) => {
                    let p: usize = *p;
                    assert(refers(terms@[i as int]) && target(terms@[i as int]) == p);
                    let n: usize = g.prods[p].alts.len();
                    let mut a: usize = 0;
                    while a < n
                        invariant
                            g == &self.host,
                            g.wf(),
                            start == g.start,
                            k == g.prods@.len(),
                            i < terms@.len(),
                            terms@ == g.terms(start as int, 0),
                            terms@[i as int] == Term::Rep(p),
                            p < g.prods@.len(),
                            n == g.prods@[p as int].alts@.len(),
                            a <= n,
                            forall|c: int|
                                0 <= c < a ==> all_settle(
                                    *g,
                                    #[trigger] g.terms(p as int, c),
                                    k as nat,
                                ),
                        decreases n - a,
                    {
                        proof {
                            lemma_in_bounds(*g, p as int, a as int);
                            assert(g.prods@[p as int].alts@[a as int].terms@ == g.terms(
                                p as int,
                                a as int,
                            ));
                        }
                        if !all_end(g, &g.prods[p].alts[a].terms, k) {
                            assert(!every_settles(*g, p as int, k as nat));
                            return false;
                        }
                        a = a + 1;
                    }
                },
                _ => {},
            }
            i = i + 1;
        }
        true
    }

    /// A program that uses every alternative of the statements.
    pub fn sample_program(&self) -> (out: String)
        requires
            self.host.wf(),
            sample_ok(self.host),
        ensures
            out@ == sample_text(*self),
    {
        let g = &self.host;
        let start: usize = g.start;
        let k: usize = g.prods.len();
        let atom: &str = if self.spec.atoms.int {
            "1"
        } else {
            "a"
        };
        let terms = &g.prods[start].alts[0].terms;
        let mut out: String = String::new();
        let mut i: usize = 0;
        proof {
            lemma_in_bounds(*g, start as int, 0);
            assert(terms@ == g.terms(start as int, 0));
        }
        while i < terms.len()
            invariant
                i <= terms@.len(),
                g == &self.host,
                g.wf(),
                sample_ok(*g),
                start == g.start,
                k == g.prods@.len(),
                terms@ == g.terms(start as int, 0),
                in_bounds(*g, terms@),
                out@ == sampled(Seq::empty(), *g, terms@, i as int, atom@),
            decreases terms@.len() - i,
        {
            let ghost x = terms@[i as int];
            assert(x == g.terms(start as int, 0)[i as int]);
            if let Term::Rep(p) = &terms[i] {
                let p: usize = *p;
                assert(refers(x) && target(x) == p);
                assert(every_settles(*g, p as int, k as nat));
                let n: usize = g.prods[p].alts.len();
                let ghost base = out@;
                let mut a: usize = 0;
                while a < n
                    invariant
                        g == &self.host,
                        g.wf(),
                        k == g.prods@.len(),
                        p < g.prods@.len(),
                        n == g.prods@[p as int].alts@.len(),
                        a <= n,
                        every_settles(*g, p as int, k as nat),
                        out@ == covered(base, *g, p as int, a as int, atom@),
                    decreases n - a,
                {
                    proof {
                        lemma_in_bounds(*g, p as int, a as int);
                        assert(g.prods@[p as int].alts@[a as int].terms@ == g.terms(
                            p as int,
                            a as int,
                        ));
                    }
                    expand_alt(g, &g.prods[p].alts[a].terms, atom, k, &mut out);
                    a = a + 1;
                }
            } else {
                proof {
                    assert(in_bounds(*g, seq![x])) by {
                        assert(seq![x][0] == x);
                    }
                }
                expand_term(g, &terms[i], atom, k, &mut out);
            }
            i = i + 1;
        }
        out
    }
}

} // verus!
