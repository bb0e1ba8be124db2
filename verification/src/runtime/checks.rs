//! Deciding what incremental parsing asks of a grammar.

use vstd::prelude::*;

use crate::runtime::cursor::{is_digit, is_word, word, word_start};
use crate::runtime::host_grammar::{takes_bytes, Grammar, Term};
use crate::runtime::lexing::ends_token;
use crate::runtime::table::Table;

verus! {

impl Table {
    /// Whether the first `n` bytes of `s` are a symbol.
    fn has_symbol(&self, s: &Vec<u8>, n: usize) -> (r: bool)
        requires
            n <= s@.len(),
        ensures
            r == self.is_symbol(s@.take(n as int)),
    {
        let mut i: usize = 0;
        while i < self.syms.len()
            invariant
                i <= self.syms@.len(),
                n <= s@.len(),
                forall|k: int| 0 <= k < i ==> (#[trigger] self.syms@[k]).text@ != s@.take(n as int),
            decreases self.syms@.len() - i,
        {
            let x = &self.syms[i].text;
            if x.len() == n {
                let mut k: usize = 0;
                while k < n && x[k] == s[k]
                    invariant
                        i < self.syms@.len(),
                        x == &self.syms@[i as int].text,
                        x@.len() == n,
                        n <= s@.len(),
                        k <= n,
                        forall|j: int| 0 <= j < k ==> x@[j] == #[trigger] s@[j],
                    decreases n - k,
                {
                    k = k + 1;
                }
                if k == n {
                    assert(x@ =~= s@.take(n as int));
                    return true;
                }
                assert(x@[k as int] != s@.take(n as int)[k as int]);
            }
            i = i + 1;
        }
        false
    }

    /// Whether the first `n` bytes of `s` are a token, if the byte after them
    /// follows.
    fn token_ends(&self, s: &Vec<u8>, n: usize) -> (r: bool)
        requires
            1 <= n < s@.len(),
        ensures
            r == ends_token(*self, s@, n as int),
    {
        let (mut digits, mut words): (bool, bool) = (true, true);
        let mut k: usize = 0;
        while k < n
            invariant
                k <= n < s@.len(),
                digits == (forall|j: int| 0 <= j < k ==> is_digit(#[trigger] s@[j])),
                words == (forall|j: int| 0 <= j < k ==> is_word(#[trigger] s@[j])),
            decreases n - k,
        {
            digits = digits && word(s[k]) && !word_start(s[k]);
            words = words && word(s[k]);
            k = k + 1;
        }
        let digit_next: bool = word(s[n]) && !word_start(s[n]);
        self.has_symbol(s, n) || (self.int && digits && !digit_next) || (self.ident && word_start(
            s[0],
        ) && words && !word(s[n]))
    }

    /// Whether one byte past a token decides that it ends there.
    pub fn has_one_byte_context(&self) -> (r: bool)
        ensures
            r == self.one_byte_context(),
    {
        let m: usize = self.syms.len();
        let mut j: usize = 0;
        while j < m
            invariant
                m == self.syms@.len(),
                j <= m,
                forall|i: int, n: int|
                    0 <= i < j && 1 <= n <= self.syms@[i].text@.len() - 2 && #[trigger] ends_token(
                        *self,
                        self.syms@[i].text@,
                        n,
                    ) ==> self.is_symbol(self.syms@[i].text@.take(n + 1)),
                forall|i: int|
                    0 <= i < j && (#[trigger] self.syms@[i]).text@.len() >= 4 ==> self.is_symbol(
                        self.syms@[i].text@.take(1),
                    ),
            decreases m - j,
        {
            let s = &self.syms[j].text;
            let len: usize = s.len();
            if len >= 4 && !self.has_symbol(s, 1) {
                assert(!self.is_symbol(self.syms@[j as int].text@.take(1)));
                return false;
            }
            let mut n: usize = 1;
            while n < len && n + 1 < len
                invariant
                    j < self.syms@.len(),
                    s == &self.syms@[j as int].text,
                    len == s@.len(),
                    1 <= n,
                    forall|k: int|
                        1 <= k < n && k <= len - 2 && #[trigger] ends_token(*self, s@, k)
                            ==> self.is_symbol(s@.take(k + 1)),
                decreases len - n,
            {
                if self.token_ends(s, n) && !self.has_symbol(s, n + 1) {
                    assert(ends_token(*self, self.syms@[j as int].text@, n as int));
                    return false;
                }
                n = n + 1;
            }
            j = j + 1;
        }
        true
    }
}

// ---- Statement grammars ------------------------------------------------

/// The production a term leads to.
pub open spec fn leads(x: Term) -> Option<int> {
    match x {
        Term::Nt(j) => Some(j as int),
        Term::Rep(j) => Some(j as int),
        _ => None,
    }
}

impl Grammar {
    /// Chains of productions from `p`, each reached before a byte is taken,
    /// are shorter than `k`.
    pub open spec fn shallow(&self, p: int, k: nat) -> bool
        decreases k,
    {
        k > 0 && forall|a: int, i: int|
            0 <= a < self.prods@[p].alts@.len() && 0 <= i < self.terms(p, a).len() && self.loose_before(
                self.terms(p, a),
                i,
            ) && leads(#[trigger] self.terms(p, a)[i]) is Some ==> self.shallow(
                leads(self.terms(p, a)[i])->0,
                (k - 1) as nat,
            )
    }

    /// A longer bound holds too.
    proof fn lemma_shallow(&self, p: int, k: nat, m: nat)
        requires
            self.shallow(p, k),
            k <= m,
        ensures
            self.shallow(p, m),
        decreases k,
    {
        assert forall|a: int, i: int|
            0 <= a < self.prods@[p].alts@.len() && 0 <= i < self.terms(p, a).len() && self.loose_before(
                self.terms(p, a),
                i,
            ) && leads(#[trigger] self.terms(p, a)[i]) is Some implies self.shallow(
            leads(self.terms(p, a)[i])->0,
            (m - 1) as nat,
        ) by {
            self.lemma_shallow(leads(self.terms(p, a)[i])->0, (k - 1) as nat, (m - 1) as nat);
        }
    }

    /// In a ranked grammar chains are no longer than ranks.
    proof fn lemma_ranked_shallow(&self, r: Seq<nat>, p: int)
        requires
            self.wf(),
            self.ranked(r),
            0 <= p < self.prods@.len(),
        ensures
            self.shallow(p, r[p] + 1),
        decreases r[p],
    {
        assert forall|a: int, i: int|
            0 <= a < self.prods@[p].alts@.len() && 0 <= i < self.terms(p, a).len() && self.loose_before(
                self.terms(p, a),
                i,
            ) && leads(#[trigger] self.terms(p, a)[i]) is Some implies self.shallow(
            leads(self.terms(p, a)[i])->0,
            r[p],
        ) by {
            let j = leads(self.terms(p, a)[i])->0;
            assert(self.term_ok(self.terms(p, a)[i]));
            self.lemma_ranked_shallow(r, j);
            self.lemma_shallow(j, r[j] + 1, r[p]);
        }
    }

    /// The least bound, less one.
    pub open spec fn depth(&self, p: int, k: nat) -> nat
        decreases k,
    {
        if k == 0 || !self.shallow(p, (k - 1) as nat) {
            (k - 1) as nat
        } else {
            self.depth(p, (k - 1) as nat)
        }
    }

    proof fn lemma_depth(&self, p: int, k: nat)
        requires
            self.shallow(p, k),
        ensures
            self.depth(p, k) < k,
            self.shallow(p, self.depth(p, k) + 1),
            !self.shallow(p, self.depth(p, k)),
        decreases k,
    {
        if self.shallow(p, (k - 1) as nat) {
            self.lemma_depth(p, (k - 1) as nat);
        }
    }

    /// Short chains make a ranking.
    proof fn lemma_shallow_ranked(&self)
        requires
            self.wf(),
            forall|p: int| 0 <= p < self.prods@.len() ==> self.shallow(p, self.top()),
            self.reps_solid(),
        ensures
            self.grounded(),
    {
        let k = self.top();
        let r = Seq::new(self.prods@.len(), |p: int| self.depth(p, k));
        assert forall|p: int| 0 <= p < r.len() implies #[trigger] r[p] <= self.prods@.len() by {
            self.lemma_depth(p, k);
        }
        assert forall|p: int, a: int, i: int|
            0 <= p < self.prods@.len() && 0 <= a < self.prods@[p].alts@.len() && 0 <= i
                < self.terms(p, a).len() && self.loose_before(self.terms(p, a), i) implies (
        match #[trigger] self.terms(p, a)[i] {
            Term::Nt(j) => r[j as int] < r[p],
            Term::Rep(j) => r[j as int] < r[p],
            _ => true,
        }) by {
            assert(self.term_ok(self.terms(p, a)[i]));
            if leads(self.terms(p, a)[i]) is Some {
                let j = leads(self.terms(p, a)[i])->0;
                self.lemma_depth(p, k);
                self.lemma_depth(j, k);
                assert(self.shallow(j, r[p]));
                if r[j] >= r[p] {
                    self.lemma_shallow(j, r[p], r[j]);
                }
            }
        }
        assert forall|p: int, a: int, i: int|
            0 <= p < self.prods@.len() && 0 <= a < self.prods@[p].alts@.len() && 0 <= i
                < self.terms(p, a).len() implies (match #[trigger] self.terms(p, a)[i] {
            Term::Rep(j) => self.solid(j as int),
            _ => true,
        }) by {
            assert(self.rep_solid(self.terms(p, a)[i]));
        }
        assert(self.ranked(r));
    }

    /// What is repeated takes a byte.
    pub open spec fn rep_solid(&self, x: Term) -> bool {
        x matches Term::Rep(j) ==> self.solid(j as int)
    }

    pub open spec fn reps_solid(&self) -> bool {
        forall|p: int, a: int, i: int|
            0 <= p < self.prods@.len() && 0 <= a < self.prods@[p].alts@.len() && 0 <= i
                < self.terms(p, a).len() ==> self.rep_solid(#[trigger] self.terms(p, a)[i])
    }

    fn is_shallow(&self, p: usize, k: usize) -> (r: bool)
        requires
            self.wf(),
            p < self.prods@.len(),
        ensures
            r == self.shallow(p as int, k as nat),
        decreases k,
    {
        if k == 0 {
            return false;
        }
        let alts = &self.prods[p].alts;
        let mut a: usize = 0;
        while a < alts.len()
            invariant
                self.wf(),
                k > 0,
                p < self.prods@.len(),
                alts == &self.prods@[p as int].alts,
                a <= alts@.len(),
                forall|c: int, i: int|
                    0 <= c < a && 0 <= i < self.terms(p as int, c).len() && self.loose_before(
                        self.terms(p as int, c),
                        i,
                    ) && leads(#[trigger] self.terms(p as int, c)[i]) is Some ==> self.shallow(
                        leads(self.terms(p as int, c)[i])->0,
                        (k - 1) as nat,
                    ),
            decreases alts@.len() - a,
        {
            let terms = &alts[a].terms;
            let mut i: usize = 0;
            let mut loose: bool = true;
            assert(terms@ == self.terms(p as int, a as int));
            while i < terms.len() && loose
                invariant
                    self.wf(),
                    k > 0,
                    p < self.prods@.len(),
                    alts == &self.prods@[p as int].alts,
                    a < alts@.len(),
                    terms@ == self.terms(p as int, a as int),
                    i <= terms@.len(),
                    loose ==> self.loose_before(terms@, i as int),
                    !loose ==> i > 0 && self.takes(terms@[i - 1]),
                    forall|j: int|
                        0 <= j < i && self.loose_before(terms@, j) && leads(
                            #[trigger] self.terms(p as int, a as int)[j],
                        ) is Some ==> self.shallow(
                            leads(self.terms(p as int, a as int)[j])->0,
                            (k - 1) as nat,
                        ),
                decreases terms@.len() - i,
            {
                assert(self.term_ok(self.terms(p as int, a as int)[i as int]));
                let j: Option<usize> = match &terms[i] {
                    Term::Nt(j) => Some(*j),
                    Term::Rep(j) => Some(*j),
                    _ => None,
                };
                match j {
                    Some(j) => {
                        if let Term::Nt(_) = &terms[i] {
                            loose = !self.is_solid_in(j, self.prods.len());
                        }
                        if !self.is_shallow(j, k - 1) {
                            assert(leads(self.terms(p as int, a as int)[i as int]) == Some(
                                j as int,
                            ));
                            return false;
                        }
                    },
                    None => {
                        loose = false;
                    },
                }
                i = i + 1;
            }
            proof {
                assert forall|j: int|
                    0 <= j < terms@.len() && self.loose_before(terms@, j) && leads(
                        #[trigger] self.terms(p as int, a as int)[j],
                    ) is Some implies self.shallow(
                    leads(self.terms(p as int, a as int)[j])->0,
                    (k - 1) as nat,
                ) by {
                    if j >= i {
                        assert(self.takes(terms@[i - 1]));
                    }
                }
            }
            a = a + 1;
        }
        true
    }

    fn is_solid_in(&self, p: usize, d: usize) -> (r: bool)
        requires
            self.wf(),
            p < self.prods@.len(),
        ensures
            r == self.solid_in(p as int, d as nat),
        decreases d, 0int,
    {
        if d == 0 {
            return false;
        }
        let n: usize = self.prods[p].alts.len();
        let mut a: usize = 0;
        while a < n
            invariant
                self.wf(),
                p < self.prods@.len(),
                d > 0,
                n == self.prods@[p as int].alts@.len(),
                a <= n,
                forall|c: int|
                    0 <= c < a ==> self.firm(#[trigger] self.terms(p as int, c), (d - 1) as nat),
            decreases n - a,
        {
            let terms = &self.prods[p].alts[a].terms;
            let m: usize = d - 1;
            assert(terms@ == self.terms(p as int, a as int));
            let mut found: bool = false;
            let mut i: usize = 0;
            while i < terms.len() && !found
                invariant
                    self.wf(),
                    p < self.prods@.len(),
                    a < self.prods@[p as int].alts@.len(),
                    terms@ == self.terms(p as int, a as int),
                    d > 0,
                    m == d - 1,
                    i <= terms@.len(),
                    found ==> i > 0 && (takes_bytes(terms@[i - 1]) || (terms@[i - 1] is Nt
                        && self.solid_in(terms@[i - 1]->Nt_0 as int, m as nat))),
                    !found ==> forall|k: int|
                        0 <= k < i ==> !takes_bytes(#[trigger] terms@[k]) && !(terms@[k] is Nt
                            && self.solid_in(terms@[k]->Nt_0 as int, m as nat)),
                decreases terms@.len() - i,
            {
                assert(self.term_ok(self.terms(p as int, a as int)[i as int]));
                found = match &terms[i] {
                    Term::Nt(j) => self.is_solid_in(*j, m),
                    Term::Rep(_) => false,
                    _ => true,
                };
                i = i + 1;
            }
            if !found {
                assert(!self.firm(self.terms(p as int, a as int), m as nat));
                return false;
            }
            assert(self.firm(self.terms(p as int, a as int), m as nat));
            a = a + 1;
        }
        true
    }

    /// Whether parsing by this grammar ends.
    pub fn is_grounded(&self) -> (r: bool)
        requires
            self.wf(),
        ensures
            r == self.grounded(),
    {
        let n: usize = self.prods.len();
        let mut p: usize = 0;
        while p < n
            invariant
                self.wf(),
                n == self.prods@.len(),
                p <= n,
                forall|q: int| 0 <= q < p ==> self.shallow(q, self.top()),
                forall|q: int, a: int, i: int|
                    0 <= q < p && 0 <= a < self.prods@[q].alts@.len() && 0 <= i < self.terms(
                        q,
                        a,
                    ).len() ==> self.rep_solid(#[trigger] self.terms(q, a)[i]),
            decreases n - p,
        {
            if !self.is_shallow(p, n + 1) {
                proof {
                    if self.grounded() {
                        let r = self.ranks();
                        self.lemma_ranked_shallow(r, p as int);
                        self.lemma_shallow(p as int, r[p as int] + 1, self.top());
                    }
                }
                return false;
            }
            let m: usize = self.prods[p].alts.len();
            let mut a: usize = 0;
            while a < m
                invariant
                    self.wf(),
                    n == self.prods@.len(),
                    p < n,
                    m == self.prods@[p as int].alts@.len(),
                    a <= m,
                    forall|c: int, i: int|
                        0 <= c < a && 0 <= i < self.terms(p as int, c).len() ==> self.rep_solid(
                            #[trigger] self.terms(p as int, c)[i],
                        ),
                decreases m - a,
            {
                let terms = &self.prods[p].alts[a].terms;
                let mut i: usize = 0;
                assert(terms@ == self.terms(p as int, a as int));
                while i < terms.len()
                    invariant
                        self.wf(),
                        n == self.prods@.len(),
                        p < self.prods@.len(),
                        a < self.prods@[p as int].alts@.len(),
                        terms@ == self.terms(p as int, a as int),
                        i <= terms@.len(),
                        forall|k: int|
                            0 <= k < i ==> self.rep_solid(
                                #[trigger] self.terms(p as int, a as int)[k],
                            ),
                    decreases terms@.len() - i,
                {
                    assert(self.term_ok(self.terms(p as int, a as int)[i as int]));
                    if let Term::Rep(j) = &terms[i] {
                        if !self.is_solid_in(*j, n) {
                            proof {
                                assert(self.terms(p as int, a as int)[i as int] == Term::Rep(*j));
                                if self.grounded() {
                                    assert(self.ranked(self.ranks()));
                                }
                            }
                            return false;
                        }
                    }
                    i = i + 1;
                }
                a = a + 1;
            }
            p = p + 1;
        }
        proof {
            self.lemma_shallow_ranked();
        }
        true
    }
}

} // verus!
