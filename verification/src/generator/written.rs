//! The sample program is a program of its grammar, and shows all of what is repeated.

use vstd::prelude::*;

use crate::generator::declared::run_on;
use crate::generator::emitted::{holds_text, stands_at};
use crate::generator::emitter::Emitter;
use crate::generator::sample::{
    all_settle, covered, every_settles, expanded, minimal, refers, sample_ok, sample_text, sampled,
    settles, target,
};
use crate::runtime::host_grammar::{Grammar, Term};

verus! {

/// `s` is an instance of term `x`, `k` levels deep at most: the term's word; a name; an
/// expression; an instance of an alternative of the production; any number of those.
pub open spec fn derives(g: Grammar, atom: Seq<char>, x: Term, s: Seq<char>, k: nat) -> bool
    decreases k, 0int,
{
    match x {
        Term::Tok(w) => s == w@ + " "@,
        Term::Ident => s == "a "@,
        Term::Expr => s == atom + " "@,
        Term::Nt(p) => k > 0 && derives_prod(g, atom, p as int, s, (k - 1) as nat),
        Term::Rep(p) => k > 0 && exists|parts: Seq<Seq<char>>| #[trigger]
            run_on(parts) == s && forall|i: int|
                0 <= i < parts.len() ==> derives_prod(
                    g,
                    atom,
                    p as int,
                    #[trigger] parts[i],
                    (k - 1) as nat,
                ),
    }
}

/// `s` is an instance of terms, one after the other.
pub open spec fn derives_all(
    g: Grammar,
    atom: Seq<char>,
    terms: Seq<Term>,
    s: Seq<char>,
    k: nat,
) -> bool
    decreases k, 1int,
{
    exists|parts: Seq<Seq<char>>| #[trigger]
        run_on(parts) == s && parts.len() == terms.len() && forall|i: int|
            0 <= i < parts.len() ==> derives(g, atom, terms[i], #[trigger] parts[i], k)
}

/// `s` is an instance of an alternative of production `p`.
pub open spec fn derives_prod(g: Grammar, atom: Seq<char>, p: int, s: Seq<char>, k: nat) -> bool
    decreases k, 2int,
{
    exists|a: int|
        0 <= a < g.prods@[p].alts@.len() && derives_all(g, atom, #[trigger] g.terms(p, a), s, k)
}

/// `s` is an instance of `x`.
pub open spec fn is_written(g: Grammar, atom: Seq<char>, x: Term, s: Seq<char>) -> bool {
    exists|k: nat| #[trigger] derives(g, atom, x, s, k)
}

/// What an expression is in the sample: a number where those are atoms, else a name.
pub open spec fn sample_atom(e: Emitter) -> Seq<char> {
    if e.spec.atoms.int {
        "1"@
    } else {
        "a"@
    }
}

/// The sample program is an instance of the first alternative of the grammar's start.
pub proof fn law_sample_written(e: Emitter)
    requires
        sample_ok(e.host),
    ensures
        ({
            let terms = e.host.terms(e.host.start as int, 0);
            exists|parts: Seq<Seq<char>>| #[trigger]
                run_on(parts) == sample_text(e) && parts.len() == terms.len() && forall|i: int|
                    0 <= i < parts.len() ==> is_written(
                        e.host,
                        sample_atom(e),
                        terms[i],
                        #[trigger] parts[i],
                    )
        }),
{
    let g = e.host;
    let atom = sample_atom(e);
    let terms = g.terms(g.start as int, 0);
    let parts = Seq::new(terms.len(), |i: int| portion(g, atom, terms[i]));
    lemma_sampled(g, atom, terms, terms.len() as int);
    assert(Seq::new(terms.len(), |i: int| portion(g, atom, terms[i])) =~= parts);
    assert(sample_text(e) =~= run_on(parts));
    assert forall|i: int| 0 <= i < parts.len() implies is_written(
        g,
        atom,
        terms[i],
        #[trigger] parts[i],
    ) by {
        lemma_portion(g, atom, i);
    }
}

/// Every alternative of what the start repeats has an instance in the sample program.
pub proof fn law_sample_covers(e: Emitter, i: int, a: int)
    requires
        sample_ok(e.host),
        0 <= i < e.host.terms(e.host.start as int, 0).len(),
        e.host.terms(e.host.start as int, 0)[i] is Rep,
        0 <= a < e.host.prods@[target(e.host.terms(e.host.start as int, 0)[i])].alts@.len(),
    ensures
        exists|s: Seq<char>| #[trigger]
            holds_text(sample_text(e), s) && derives_all(
                e.host,
                sample_atom(e),
                e.host.terms(target(e.host.terms(e.host.start as int, 0)[i]), a),
                s,
                e.host.prods@.len(),
            ),
{
    let g = e.host;
    let atom = sample_atom(e);
    let terms = g.terms(g.start as int, 0);
    let x = terms[i];
    let p = target(x);
    let k = g.prods@.len();
    let parts = Seq::new(terms.len(), |j: int| portion(g, atom, terms[j]));
    lemma_sampled(g, atom, terms, terms.len() as int);
    assert(sample_text(e) =~= run_on(parts));
    let n = g.prods@[p].alts@.len() as int;
    let pieces = Seq::new(n as nat, |j: int| piece(g, atom, p, j));
    lemma_covered(Seq::empty(), g, atom, p, n);
    assert(portion(g, atom, x) =~= run_on(pieces));
    lemma_part_of(pieces, a);
    lemma_part_of(parts, i);
    let s = piece(g, atom, p, a);
    let (u, v) = (before(pieces, a), before(parts, i));
    assert(stands_at(run_on(pieces), s, u.len() as int));
    let (whole, part) = (run_on(parts), run_on(pieces));
    assert(parts[i] == part);
    let (i0, j0, n0) = (v.len() as int, u.len() as int, s.len() as int);
    assert(whole.subrange(i0 + j0, i0 + j0 + n0) =~= part.subrange(j0, j0 + n0)) by {
        assert(whole.subrange(i0, i0 + part.len()) == part);
    }
    assert(stands_at(sample_text(e), s, i0 + j0));
    assert(every_settles(g, p, k)) by {
        assert(match terms[i] {
            Term::Rep(j) => every_settles(g, j as int, k),
            _ => true,
        });
    }
    lemma_alternative(g, atom, p, a, k);
    assert(holds_text(sample_text(e), s));
}

/// The parts before part `i`.
spec fn before(parts: Seq<Seq<char>>, i: int) -> Seq<char> {
    run_on(parts.take(i))
}

proof fn lemma_part_of(parts: Seq<Seq<char>>, i: int)
    requires
        0 <= i < parts.len(),
    ensures
        stands_at(run_on(parts), parts[i], before(parts, i).len() as int),
    decreases parts.len(),
{
    let front = parts.drop_last();
    assert(run_on(parts) == run_on(front) + parts.last());
    if i == parts.len() - 1 {
        assert(parts.take(i) =~= front);
        assert(run_on(parts).subrange(run_on(front).len() as int, run_on(parts).len() as int)
            =~= parts[i]);
    } else {
        lemma_part_of(front, i);
        assert(front.take(i) =~= parts.take(i));
        let n = before(parts, i).len() as int;
        assert(run_on(parts).subrange(n, n + parts[i].len()) =~= run_on(front).subrange(
            n,
            n + parts[i].len(),
        ));
    }
}

/// One term written out.
spec fn single(g: Grammar, atom: Seq<char>, x: Term, k: nat) -> Seq<char> {
    expanded(Seq::empty(), g, seq![x], 1, atom, k)
}

/// An alternative written out.
spec fn piece(g: Grammar, atom: Seq<char>, p: int, a: int) -> Seq<char> {
    expanded(Seq::empty(), g, g.terms(p, a), g.terms(p, a).len() as int, atom, g.prods@.len())
}

/// What the sample holds for a term of the start.
spec fn portion(g: Grammar, atom: Seq<char>, x: Term) -> Seq<char> {
    match x {
        Term::Rep(p) => covered(
            Seq::empty(),
            g,
            p as int,
            g.prods@[p as int].alts@.len() as int,
            atom,
        ),
        _ => single(g, atom, x, g.prods@.len()),
    }
}

/// What is written out does not depend on what stands before it.
proof fn lemma_expanded(
    base: Seq<char>,
    g: Grammar,
    terms: Seq<Term>,
    n: int,
    atom: Seq<char>,
    k: nat,
)
    requires
        0 <= n <= terms.len(),
    ensures
        expanded(base, g, terms, n, atom, k) == base + run_on(
            Seq::new(n as nat, |i: int| single(g, atom, terms[i], k)),
        ),
    decreases k, n,
{
    let parts = Seq::new(n as nat, |i: int| single(g, atom, terms[i], k));
    if n == 0 {
        assert(run_on(parts) =~= Seq::empty());
        assert(base + run_on(parts) =~= base);
    } else {
        let x = terms[n - 1];
        let s = expanded(base, g, terms, n - 1, atom, k);
        let front = Seq::new((n - 1) as nat, |i: int| single(g, atom, terms[i], k));
        lemma_expanded(base, g, terms, n - 1, atom, k);
        assert(parts.drop_last() =~= front);
        assert(parts.last() == single(g, atom, x, k));
        assert(run_on(parts) == run_on(front) + single(g, atom, x, k));
        lemma_single(g, atom, x, k);
        if refers(x) && k > 0 {
            let t = g.terms(target(x), minimal(g, target(x), 0));
            lemma_expanded(s, g, t, t.len() as int, atom, (k - 1) as nat);
            lemma_expanded(Seq::empty(), g, t, t.len() as int, atom, (k - 1) as nat);
            let inner = Seq::new(t.len(), |i: int| single(g, atom, t[i], (k - 1) as nat));
            assert(Seq::<char>::empty() + run_on(inner) =~= run_on(inner));
            assert(expanded(base, g, terms, n, atom, k) == s + run_on(inner));
        }
        assert(expanded(base, g, terms, n, atom, k) =~= s + single(g, atom, x, k));
        assert(s + single(g, atom, x, k) =~= base + run_on(parts));
    }
}

proof fn lemma_single(g: Grammar, atom: Seq<char>, x: Term, k: nat)
    ensures
        single(g, atom, x, k) == (match x {
            Term::Tok(w) => w@ + " "@,
            Term::Ident => "a "@,
            Term::Expr => atom + " "@,
            _ => if k == 0 {
                Seq::empty()
            } else {
                let t = g.terms(target(x), minimal(g, target(x), 0));
                expanded(Seq::empty(), g, t, t.len() as int, atom, (k - 1) as nat)
            },
        }),
{
    reveal_with_fuel(expanded, 2);
    assert(seq![x][0] == x);
    let none = Seq::<char>::empty();
    match x {
        Term::Tok(w) => {
            assert(none + w@ + " "@ =~= w@ + " "@);
        },
        Term::Ident => {
            assert(none + "a "@ =~= "a "@);
        },
        Term::Expr => {
            assert(none + atom + " "@ =~= atom + " "@);
        },
        _ => {},
    }
}

/// Terms written out are an instance of them.
proof fn lemma_terms(g: Grammar, atom: Seq<char>, terms: Seq<Term>, k: nat)
    requires
        all_settle(g, terms, k),
    ensures
        derives_all(
            g,
            atom,
            terms,
            expanded(Seq::empty(), g, terms, terms.len() as int, atom, k),
            k,
        ),
    decreases k, 1int,
{
    let s = expanded(Seq::empty(), g, terms, terms.len() as int, atom, k);
    let parts = Seq::new(terms.len(), |i: int| single(g, atom, terms[i], k));
    lemma_expanded(Seq::empty(), g, terms, terms.len() as int, atom, k);
    assert(s =~= run_on(parts));
    assert forall|i: int| 0 <= i < parts.len() implies derives(
        g,
        atom,
        terms[i],
        #[trigger] parts[i],
        k,
    ) by {
        assert(refers(terms[i]) ==> settles(g, target(terms[i]), k));
        lemma_term(g, atom, terms[i], k);
    }
}

proof fn lemma_term(g: Grammar, atom: Seq<char>, x: Term, k: nat)
    requires
        refers(x) ==> settles(g, target(x), k),
    ensures
        derives(g, atom, x, single(g, atom, x, k), k),
    decreases k, 0int,
{
    lemma_single(g, atom, x, k);
    if refers(x) {
        let p = target(x);
        let a = minimal(g, p, 0);
        let t = g.terms(p, a);
        let s = single(g, atom, x, k);
        lemma_minimal(g, p, 0);
        assert(all_settle(g, t, (k - 1) as nat));
        lemma_terms(g, atom, t, (k - 1) as nat);
        assert(derives_all(g, atom, g.terms(p, a), s, (k - 1) as nat));
        assert(derives_prod(g, atom, p, s, (k - 1) as nat));
        let once = seq![s];
        reveal_with_fuel(run_on, 2);
        assert(once.drop_last() =~= Seq::empty());
        assert(run_on(once) =~= s);
    }
}

proof fn lemma_minimal(g: Grammar, p: int, a: int)
    requires
        0 <= a,
        g.prods@[p].alts@.len() > 0,
    ensures
        0 <= minimal(g, p, a) < g.prods@[p].alts@.len(),
    decreases g.prods@[p].alts@.len() - a,
{
    if a < g.prods@[p].alts@.len() {
        lemma_minimal(g, p, a + 1);
    }
}

proof fn lemma_alternative(g: Grammar, atom: Seq<char>, p: int, a: int, k: nat)
    requires
        k == g.prods@.len(),
        every_settles(g, p, k),
        0 <= a < g.prods@[p].alts@.len(),
    ensures
        derives_all(g, atom, g.terms(p, a), piece(g, atom, p, a), k),
{
    assert(all_settle(g, g.terms(p, a), k));
    lemma_terms(g, atom, g.terms(p, a), k);
}

proof fn lemma_covered(base: Seq<char>, g: Grammar, atom: Seq<char>, p: int, n: int)
    requires
        0 <= n,
    ensures
        covered(base, g, p, n, atom) == base + run_on(
            Seq::new(n as nat, |a: int| piece(g, atom, p, a)),
        ),
    decreases n,
{
    let pieces = Seq::new(n as nat, |a: int| piece(g, atom, p, a));
    if n == 0 {
        assert(run_on(pieces) =~= Seq::empty());
        assert(base + run_on(pieces) =~= base);
    } else {
        let front = Seq::new((n - 1) as nat, |a: int| piece(g, atom, p, a));
        let t = g.terms(p, n - 1);
        let s = covered(base, g, p, n - 1, atom);
        let k = g.prods@.len();
        lemma_covered(base, g, atom, p, n - 1);
        assert(pieces.drop_last() =~= front);
        lemma_expanded(s, g, t, t.len() as int, atom, k);
        lemma_expanded(Seq::empty(), g, t, t.len() as int, atom, k);
        let inner = Seq::new(t.len(), |i: int| single(g, atom, t[i], k));
        assert(Seq::<char>::empty() + run_on(inner) =~= run_on(inner));
        assert(covered(base, g, p, n, atom) == s + piece(g, atom, p, n - 1));
        assert(run_on(pieces) == run_on(front) + piece(g, atom, p, n - 1));
        assert(s + piece(g, atom, p, n - 1) =~= base + run_on(pieces));
    }
}

proof fn lemma_sampled(g: Grammar, atom: Seq<char>, terms: Seq<Term>, n: int)
    requires
        0 <= n <= terms.len(),
    ensures
        sampled(Seq::empty(), g, terms, n, atom) == run_on(
            Seq::new(n as nat, |i: int| portion(g, atom, terms[i])),
        ),
    decreases n,
{
    let parts = Seq::new(n as nat, |i: int| portion(g, atom, terms[i]));
    if n == 0 {
        assert(run_on(parts) =~= Seq::empty());
    } else {
        let x = terms[n - 1];
        let front = Seq::new((n - 1) as nat, |i: int| portion(g, atom, terms[i]));
        let s = sampled(Seq::empty(), g, terms, n - 1, atom);
        lemma_sampled(g, atom, terms, n - 1);
        assert(parts.drop_last() =~= front);
        assert(run_on(parts) == run_on(front) + portion(g, atom, x));
        match x {
            Term::Rep(p) => {
                let m = g.prods@[p as int].alts@.len() as int;
                lemma_covered(s, g, atom, p as int, m);
                lemma_covered(Seq::empty(), g, atom, p as int, m);
                let pieces = Seq::new(m as nat, |a: int| piece(g, atom, p as int, a));
                assert(Seq::<char>::empty() + run_on(pieces) =~= run_on(pieces));
            },
            _ => {
                let k = g.prods@.len();
                lemma_expanded(s, g, seq![x], 1, atom, k);
                let one = Seq::new(1, |i: int| single(g, atom, seq![x][i], k));
                reveal_with_fuel(run_on, 2);
                assert(one.drop_last() =~= Seq::empty());
                assert(seq![x][0] == x);
                assert(run_on(one) =~= single(g, atom, x, k));
            },
        }
    }
}

proof fn lemma_portion(g: Grammar, atom: Seq<char>, i: int)
    requires
        sample_ok(g),
        0 <= i < g.terms(g.start as int, 0).len(),
    ensures
        is_written(
            g,
            atom,
            g.terms(g.start as int, 0)[i],
            portion(g, atom, g.terms(g.start as int, 0)[i]),
        ),
{
    let k = g.prods@.len();
    let x = g.terms(g.start as int, 0)[i];
    match x {
        Term::Rep(p) => {
            let m = g.prods@[p as int].alts@.len() as int;
            let s = portion(g, atom, x);
            let pieces = Seq::new(m as nat, |a: int| piece(g, atom, p as int, a));
            lemma_covered(Seq::empty(), g, atom, p as int, m);
            assert(s =~= run_on(pieces));
            assert forall|a: int| 0 <= a < pieces.len() implies derives_prod(
                g,
                atom,
                p as int,
                #[trigger] pieces[a],
                k,
            ) by {
                lemma_alternative(g, atom, p as int, a, k);
                assert(derives_all(g, atom, g.terms(p as int, a), pieces[a], k));
            }
            assert(derives(g, atom, x, s, k + 1));
        },
        _ => {
            lemma_term(g, atom, x, k);
        },
    }
}

} // verus!
