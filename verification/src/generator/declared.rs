//! What a specification declares, and what its statement grammar is resolved to.

use vstd::prelude::*;
use vstd::string::*;
use vstd::utf8::*;

use crate::generator::host_model::{
    alt_terms, alts_fault, alts_terms, choice_fault, choices_fault, clashes, first_of, head,
    heads_of, host_names, index_in, keywords_of, keywords_of_alts, keywords_of_terms, prod_terms,
    prods_terms, resolved, seen_with, term_fault, terms_fault, word_term, words_terms, TermModel,
    Terms,
};
use crate::generator::spec::{Host, HostProd, Infix, Postfix, Prefix, Spec};
use crate::generator::symbols::{infix_of, postfix_of, prefix_of, Sym};
use crate::generator::text::{is_white, lemma_word_stop, views, word_stop, words_from};
use crate::runtime::table::OperatorClass;

verus! {

// ---- Operators ---------------------------------------------------------

/// A prefix operator is one that is declared; the last declaration counts.
pub proof fn law_prefix_declared(v: Seq<Prefix>, s: Seq<char>, n: int)
    requires
        0 <= n <= v.len(),
    ensures
        match prefix_of(v, s, n) {
            Some(p) => exists|i: int|
                0 <= i < n && (#[trigger] v[i]).sym@ == s && v[i].rbp == p && forall|j: int|
                    i < j < n ==> (#[trigger] v[j]).sym@ != s,
            None => forall|i: int| 0 <= i < n ==> (#[trigger] v[i]).sym@ != s,
        },
    decreases n,
{
    if n > 0 {
        law_prefix_declared(v, s, n - 1);
        if v[n - 1].sym@ != s && prefix_of(v, s, n) is Some {
            let i = choose|i: int|
                0 <= i < n - 1 && (#[trigger] v[i]).sym@ == s && v[i].rbp == prefix_of(v, s, n)->0
                    && forall|j: int| i < j < n - 1 ==> (#[trigger] v[j]).sym@ != s;
            assert(v[i].sym@ == s);
        } else if v[n - 1].sym@ == s {
            assert(v[n - 1].rbp == prefix_of(v, s, n)->0);
        }
    }
}

/// A postfix operator is one that is declared; the last declaration counts.
pub proof fn law_postfix_declared(v: Seq<Postfix>, s: Seq<char>, n: int)
    requires
        0 <= n <= v.len(),
    ensures
        match postfix_of(v, s, n) {
            Some(p) => exists|i: int|
                0 <= i < n && (#[trigger] v[i]).sym@ == s && v[i].lbp == p && forall|j: int|
                    i < j < n ==> (#[trigger] v[j]).sym@ != s,
            None => forall|i: int| 0 <= i < n ==> (#[trigger] v[i]).sym@ != s,
        },
    decreases n,
{
    if n > 0 {
        law_postfix_declared(v, s, n - 1);
        if v[n - 1].sym@ != s && postfix_of(v, s, n) is Some {
            let i = choose|i: int|
                0 <= i < n - 1 && (#[trigger] v[i]).sym@ == s && v[i].lbp == postfix_of(v, s, n)->0
                    && forall|j: int| i < j < n - 1 ==> (#[trigger] v[j]).sym@ != s;
            assert(v[i].sym@ == s);
        } else if v[n - 1].sym@ == s {
            assert(v[n - 1].lbp == postfix_of(v, s, n)->0);
        }
    }
}

/// What an operator between operands is declared as: its left power; for the right one,
/// one less if it groups to the right; and its class.
pub open spec fn declared_as(x: Infix, lbp: u32, rbp: u32, class: OperatorClass) -> bool {
    &&& lbp == x.lbp
    &&& x.assoc@ == "right"@ && x.lbp > 0 ==> rbp + 1 == x.lbp
    &&& x.assoc@ != "right"@ || x.lbp == 0 ==> rbp == x.lbp
    &&& class is AssociativityConflict <==> x.class@ == "assoc"@ || x.class@ == "assoc_conflict"@
        || x.class@ == "associativity_conflict"@
    &&& class is Strong <==> x.class@ == "strong"@
}

/// An operator between operands is one that is declared; the last declaration counts.
pub proof fn law_infix_declared(v: Seq<Infix>, s: Seq<char>, n: int)
    requires
        0 <= n <= v.len(),
    ensures
        match infix_of(v, s, n) {
            Some(r) => exists|i: int|
                0 <= i < n && (#[trigger] v[i]).sym@ == s && declared_as(v[i], r.lbp, r.rbp, r.class)
                    && forall|j: int| i < j < n ==> (#[trigger] v[j]).sym@ != s,
            None => forall|i: int| 0 <= i < n ==> (#[trigger] v[i]).sym@ != s,
        },
    decreases n,
{
    if n > 0 {
        law_infix_declared(v, s, n - 1);
        if v[n - 1].sym@ != s && infix_of(v, s, n) is Some {
            let r = infix_of(v, s, n)->0;
            let i = choose|i: int|
                0 <= i < n - 1 && (#[trigger] v[i]).sym@ == s && declared_as(
                    v[i],
                    r.lbp,
                    r.rbp,
                    r.class,
                ) && forall|j: int| i < j < n - 1 ==> (#[trigger] v[j]).sym@ != s;
            assert(v[i].sym@ == s);
        } else if v[n - 1].sym@ == s {
            let r = infix_of(v, s, n)->0;
            reveal_strlit("assoc");
            reveal_strlit("assoc_conflict");
            reveal_strlit("associativity_conflict");
            reveal_strlit("strong");
            assert("assoc"@.len() == 5 && "assoc_conflict"@.len() == 14
                && "associativity_conflict"@.len() == 22 && "strong"@.len() == 6);
            assert(declared_as(v[n - 1], r.lbp, r.rbp, r.class));
        }
    }
}

// ---- Words -------------------------------------------------------------

/// White space: of the ASCII characters the blank and what moves the carriage; of
/// the others the spaces and the separators, whatever their width.
pub proof fn law_white(c: char)
    ensures
        c <= '\u{7f}' ==> (is_white(c) <==> c == ' ' || c == '\t' || c == '\n' || c == '\r' || c
            == '\u{b}' || c == '\u{c}'),
        c > '\u{7f}' ==> (is_white(c) <==> c == '\u{85}' || c == '\u{a0}' || c == '\u{1680}' || c
            == '\u{202f}' || c == '\u{205f}' || c == '\u{3000}' || '\u{2000}' <= c <= '\u{200a}' || c
            == '\u{2028}' || c == '\u{2029}'),
{
}

/// A text without its white space.
pub open spec fn black(s: Seq<char>) -> Seq<char>
    decreases s.len(),
{
    if s.len() == 0 {
        Seq::empty()
    } else if is_white(s.last()) {
        black(s.drop_last())
    } else {
        black(s.drop_last()).push(s.last())
    }
}

/// The words, one after the other.
pub open spec fn run_on(ws: Seq<Seq<char>>) -> Seq<char>
    decreases ws.len(),
{
    if ws.len() == 0 {
        Seq::empty()
    } else {
        run_on(ws.drop_last()) + ws.last()
    }
}

proof fn lemma_black_concat(s: Seq<char>, t: Seq<char>)
    ensures
        black(s + t) == black(s) + black(t),
    decreases t.len(),
{
    if t.len() == 0 {
        assert(s + t =~= s);
        assert(black(s) + black(t) =~= black(s));
    } else {
        lemma_black_concat(s, t.drop_last());
        assert((s + t).drop_last() =~= s + t.drop_last());
        assert((s + t).last() == t.last());
        assert(black(s + t) =~= black(s) + black(t));
    }
}

proof fn lemma_black_word(s: Seq<char>)
    requires
        forall|i: int| 0 <= i < s.len() ==> !is_white(#[trigger] s[i]),
    ensures
        black(s) == s,
    decreases s.len(),
{
    if s.len() > 0 {
        lemma_black_word(s.drop_last());
        assert(s =~= s.drop_last().push(s.last()));
    } else {
        assert(black(s) =~= s);
    }
}

proof fn lemma_run_on(w: Seq<char>, ws: Seq<Seq<char>>)
    ensures
        run_on(seq![w] + ws) == w + run_on(ws),
    decreases ws.len(),
{
    let all = seq![w] + ws;
    if ws.len() == 0 {
        assert(all.drop_last() =~= Seq::empty());
        assert(run_on(all.drop_last()) =~= Seq::empty());
        assert(run_on(all) =~= w + run_on(ws));
    } else {
        lemma_run_on(w, ws.drop_last());
        assert(all.drop_last() =~= seq![w] + ws.drop_last());
        assert(all.last() == ws.last());
        assert(run_on(all) =~= w + run_on(ws));
    }
}

proof fn lemma_word_body(s: Seq<char>, i: int)
    requires
        0 <= i <= s.len(),
    ensures
        i <= word_stop(s, i) <= s.len(),
        forall|k: int| i <= k < word_stop(s, i) ==> !is_white(#[trigger] s[k]),
        word_stop(s, i) < s.len() ==> is_white(s[word_stop(s, i)]),
    decreases s.len() - i,
{
    if i < s.len() && !is_white(s[i]) {
        lemma_word_body(s, i + 1);
    }
}

proof fn lemma_words(s: Seq<char>, i: int)
    requires
        0 <= i <= s.len(),
    ensures
        run_on(words_from(s, i)) == black(s.skip(i)),
        forall|k: int|
            0 <= k < words_from(s, i).len() ==> (#[trigger] words_from(s, i)[k]).len() > 0,
        forall|k: int, j: int|
            0 <= k < words_from(s, i).len() && 0 <= j < words_from(s, i)[k].len() ==> !is_white(
                #[trigger] words_from(s, i)[k][j],
            ),
    decreases s.len() - i,
{
    let ws = words_from(s, i);
    if i == s.len() {
        assert(s.skip(i) =~= Seq::empty());
    } else if is_white(s[i]) {
        lemma_words(s, i + 1);
        assert(s.skip(i) =~= seq![s[i]] + s.skip(i + 1));
        lemma_black_concat(seq![s[i]], s.skip(i + 1));
        assert(seq![s[i]].drop_last() =~= Seq::empty());
        assert(black(Seq::<char>::empty()) =~= Seq::empty());
        assert(seq![s[i]].last() == s[i]);
        assert(black(seq![s[i]]) =~= Seq::empty());
        assert(black(s.skip(i)) =~= black(s.skip(i + 1)));
    } else {
        let j = word_stop(s, i);
        lemma_word_body(s, i);
        lemma_word_stop(s, i);
        lemma_words(s, j);
        let w = s.subrange(i, j);
        let rest = words_from(s, j);
        assert(ws == seq![w] + rest);
        lemma_run_on(w, rest);
        assert(s.skip(i) =~= w + s.skip(j));
        lemma_black_concat(w, s.skip(j));
        assert forall|k: int| 0 <= k < w.len() implies !is_white(#[trigger] w[k]) by {
            assert(w[k] == s[i + k]);
        }
        lemma_black_word(w);
        assert forall|k: int| 0 <= k < ws.len() implies (#[trigger] ws[k]).len() > 0 by {
            if k > 0 {
                assert(ws[k] == rest[k - 1]);
            }
        }
        assert forall|k: int, h: int| 0 <= k < ws.len() && 0 <= h < ws[k].len() implies !is_white(
            #[trigger] ws[k][h],
        ) by {
            if k > 0 {
                assert(ws[k] == rest[k - 1]);
                assert(!is_white(rest[k - 1][h]));
            } else {
                assert(ws[k] == w);
            }
        }
    }
}

/// The words of a text are what white space leaves of it: none is empty or holds white
/// space, and one after the other they are the text without it.
pub proof fn law_words(s: Seq<char>)
    ensures
        run_on(words_from(s, 0)) == black(s),
        forall|k: int|
            0 <= k < words_from(s, 0).len() ==> (#[trigger] words_from(s, 0)[k]).len() > 0,
        forall|k: int, j: int|
            0 <= k < words_from(s, 0).len() && 0 <= j < words_from(s, 0)[k].len() ==> !is_white(
                #[trigger] words_from(s, 0)[k][j],
            ),
        is_white(' ') && is_white('\t') && is_white('\n') && is_white('\r'),
        forall|c: char| '!' <= c && c <= '~' ==> !#[trigger] is_white(c),
{
    lemma_words(s, 0);
    assert(s.skip(0) =~= s);
}

/// A blank parts words: what stands before it and what stands after it are words apart.
pub proof fn law_words_parted(w: Seq<char>, rest: Seq<char>)
    requires
        w.len() > 0,
        forall|i: int| 0 <= i < w.len() ==> !is_white(#[trigger] w[i]),
    ensures
        words_from(w + seq![' '] + rest, 0) == seq![w] + words_from(rest, 0),
{
    let s = w + seq![' '] + rest;
    let n = w.len() as int;
    lemma_word_at(s, w, 0);
    assert(s[n] == ' ');
    assert(s.subrange(0, n) =~= w);
    lemma_words_skip(s, n + 1);
    assert(s.skip(n + 1) =~= rest);
    assert(words_from(s, n) == words_from(s, n + 1));
}

proof fn lemma_word_at(s: Seq<char>, w: Seq<char>, i: int)
    requires
        0 <= i <= w.len() < s.len(),
        forall|k: int| 0 <= k < w.len() ==> s[k] == #[trigger] w[k] && !is_white(w[k]),
        is_white(s[w.len() as int]),
    ensures
        word_stop(s, i) == w.len(),
    decreases w.len() - i,
{
    if i < w.len() {
        assert(s[i] == w[i]);
        lemma_word_at(s, w, i + 1);
    }
}

/// The words from a place on are those of the text from there.
proof fn lemma_words_skip(s: Seq<char>, i: int)
    requires
        0 <= i <= s.len(),
    ensures
        words_from(s, i) == words_from(s.skip(i), 0),
{
    lemma_words_shift(s, i, 0);
}

proof fn lemma_words_shift(s: Seq<char>, i: int, k: int)
    requires
        0 <= i,
        0 <= k,
        i + k <= s.len(),
    ensures
        words_from(s, i + k) == words_from(s.skip(i), k),
    decreases s.len() - i - k,
{
    let t = s.skip(i);
    if i + k < s.len() {
        assert(t[k] == s[i + k]);
        if is_white(s[i + k]) {
            lemma_words_shift(s, i, k + 1);
        } else {
            lemma_stop_shift(s, i, k);
            let j = word_stop(t, k);
            lemma_word_stop(t, k);
            lemma_words_shift(s, i, j);
            assert(s.subrange(i + k, i + j) =~= t.subrange(k, j));
        }
    }
}

proof fn lemma_stop_shift(s: Seq<char>, i: int, k: int)
    requires
        0 <= i,
        0 <= k,
        i + k <= s.len(),
    ensures
        word_stop(s, i + k) == i + word_stop(s.skip(i), k),
    decreases s.len() - i - k,
{
    if i + k < s.len() {
        assert(s.skip(i)[k] == s[i + k]);
        if !is_white(s[i + k]) {
            lemma_stop_shift(s, i, k + 1);
        }
    }
}

// ---- Terms -------------------------------------------------------------

proof fn lemma_index(names: Seq<Seq<char>>, w: Seq<char>, i: int)
    requires
        0 <= i,
    ensures
        match index_in(names, w, i) {
            Some(k) => i <= k < names.len() && names[k] == w && forall|j: int|
                i <= j < k ==> #[trigger] names[j] != w,
            None => forall|j: int| i <= j < names.len() ==> #[trigger] names[j] != w,
        },
    decreases names.len() - i,
{
    if i < names.len() && names[i] != w {
        lemma_index(names, w, i + 1);
    }
}

/// A word in quotes is the literal between them.
pub proof fn law_literal_word(names: Seq<Seq<char>>, prod: Seq<char>, s: Seq<char>)
    ensures
        s.len() > 0 ==> word_term(names, prod, seq!['\''] + s + seq!['\''])
            == Ok::<TermModel, Seq<char>>(TermModel::Tok(s)),
        s.len() == 0 ==> word_term(names, prod, seq!['\''] + s + seq!['\'']) is Err,
{
    let w = seq!['\''] + s + seq!['\''];
    assert(w.subrange(1, w.len() - 1) =~= s);
    assert(w[0] == '\'' && w.last() == '\'');
}

/// Any other word is `expr`, `ident`, or the name of a production, alone or with a star for
/// any number of it; the first production of the name counts, and there must be one.
pub proof fn law_plain_word(names: Seq<Seq<char>>, prod: Seq<char>, w: Seq<char>)
    requires
        w.len() > 0,
        w[0] != '\'' || w.last() != '\'' || w.len() == 1,
    ensures
        w == "expr"@ ==> word_term(names, prod, w) == Ok::<TermModel, Seq<char>>(TermModel::Expr),
        w == "ident"@ ==> word_term(names, prod, w) == Ok::<TermModel, Seq<char>>(
            TermModel::Ident,
        ),
        w != "expr"@ && w != "ident"@ ==> match word_term(names, prod, w) {
            Ok(TermModel::Nt(k)) => {
                &&& w.last() != '*'
                &&& 0 <= k < names.len()
                &&& names[k] == w
                &&& forall|j: int| 0 <= j < k ==> #[trigger] names[j] != w
            },
            Ok(TermModel::Rep(k)) => {
                &&& 0 <= k < names.len()
                &&& names[k] + seq!['*'] == w
                &&& forall|j: int| 0 <= j < k ==> #[trigger] names[j] != names[k]
            },
            Ok(_) => false,
            Err(x) => forall|j: int|
                0 <= j < names.len() ==> if w.last() == '*' {
                    #[trigger] names[j] + seq!['*'] != w
                } else {
                    names[j] != w
                },
        },
{
    reveal_strlit("expr");
    reveal_strlit("ident");
    assert("expr"@.len() == 4 && "ident"@.len() == 5);
    lemma_index(names, w, 0);
    lemma_index(names, w.drop_last(), 0);
    if w.last() == '*' {
        assert(w.drop_last() + seq!['*'] =~= w);
        assert forall|j: int| 0 <= j < names.len() && #[trigger] names[j] + seq!['*'] == w implies names[j]
            == w.drop_last() by {
            assert((names[j] + seq!['*']).drop_last() =~= names[j]);
        }
    }
}

/// An alternative has one term for each of its words, in order.
proof fn lemma_words_terms(names: Seq<Seq<char>>, prod: Seq<char>, ws: Seq<Seq<char>>, n: int)
    requires
        0 <= n <= ws.len(),
    ensures
        match words_terms(names, prod, ws, n) {
            Ok(ts) => ts.len() == n && forall|i: int|
                0 <= i < n ==> word_term(names, prod, #[trigger] ws[i]) == Ok::<
                    TermModel,
                    Seq<char>,
                >(ts[i]),
            Err(x) => exists|i: int|
                0 <= i < n && word_term(names, prod, #[trigger] ws[i]) == Err::<
                    TermModel,
                    Seq<char>,
                >(x),
        },
    decreases n,
{
    if n > 0 {
        lemma_words_terms(names, prod, ws, n - 1);
        match words_terms(names, prod, ws, n - 1) {
            Ok(ts) => {
                if let Err(x) = word_term(names, prod, ws[n - 1]) {
                    assert(word_term(names, prod, ws[n - 1]) == Err::<TermModel, Seq<char>>(x));
                }
            },
            Err(x) => {
                let i = choose|i: int|
                    0 <= i < n - 1 && word_term(names, prod, #[trigger] ws[i]) == Err::<
                        TermModel,
                        Seq<char>,
                    >(x);
                assert(word_term(names, prod, ws[i]) == Err::<TermModel, Seq<char>>(x));
            },
        }
    }
}

/// An alternative has one term for each of its words, in order; it fails where a word does,
/// or where it has none.
pub proof fn law_alternative(names: Seq<Seq<char>>, prod: Seq<char>, alt: Seq<char>)
    ensures
        ({
            let ws = words_from(alt, 0);
            match alt_terms(names, prod, alt) {
                Ok(ts) => ts.len() == ws.len() && ts.len() > 0 && forall|i: int|
                    0 <= i < ws.len() ==> word_term(names, prod, #[trigger] ws[i]) == Ok::<
                        TermModel,
                        Seq<char>,
                    >(ts[i]),
                Err(x) => ws.len() == 0 || exists|i: int|
                    0 <= i < ws.len() && word_term(names, prod, #[trigger] ws[i]) == Err::<
                        TermModel,
                        Seq<char>,
                    >(x),
            }
        }),
{
    let ws = words_from(alt, 0);
    lemma_words_terms(names, prod, ws, ws.len() as int);
}

// ---- What an accepted grammar keeps ------------------------------------

/// Where an expression or a repetition ends can be told: a literal that no expression
/// holds follows, or the program ends.
pub open spec fn ends_told(spec: Spec, syms: Seq<Sym>, last: bool, terms: Terms, i: int) -> bool {
    terms[i] is Expr || terms[i] is Rep ==> {
        ||| i + 1 < terms.len() && (terms[i + 1] matches TermModel::Tok(s) && !clashes(
            spec,
            syms,
            s,
        ))
        ||| i + 1 == terms.len() && last
    }
}

proof fn lemma_terms_told(
    spec: Spec,
    syms: Seq<Sym>,
    last: bool,
    prod: Seq<char>,
    terms: Terms,
    n: int,
)
    requires
        0 <= n <= terms.len(),
    ensures
        terms_fault(spec, syms, last, prod, terms, n) is None <==> forall|i: int|
            0 <= i < n ==> #[trigger] ends_told(spec, syms, last, terms, i),
    decreases n,
{
    if n > 0 {
        lemma_terms_told(spec, syms, last, prod, terms, n - 1);
        assert(term_fault(spec, syms, last, prod, terms, n - 1) is None <==> ends_told(
            spec,
            syms,
            last,
            terms,
            n - 1,
        ));
    }
}

proof fn lemma_alts_told(
    spec: Spec,
    syms: Seq<Sym>,
    last: bool,
    prod: Seq<char>,
    alts: Seq<Terms>,
    n: int,
)
    requires
        0 <= n <= alts.len(),
    ensures
        alts_fault(spec, syms, last, prod, alts, n) is None <==> forall|a: int, i: int|
            0 <= a < n && 0 <= i < alts[a].len() ==> #[trigger] ends_told(
                spec,
                syms,
                last,
                alts[a],
                i,
            ),
    decreases n,
{
    if n > 0 {
        lemma_alts_told(spec, syms, last, prod, alts, n - 1);
        let t = alts[n - 1];
        lemma_terms_told(spec, syms, last, prod, t, t.len() as int);
        if alts_fault(spec, syms, last, prod, alts, n) is None {
            assert forall|a: int, i: int| 0 <= a < n && 0 <= i < alts[a].len() implies #[trigger] ends_told(
                spec,
                syms,
                last,
                alts[a],
                i,
            ) by {}
        }
        if forall|a: int, i: int|
            0 <= a < n && 0 <= i < alts[a].len() ==> #[trigger] ends_told(
                spec,
                syms,
                last,
                alts[a],
                i,
            ) {
            assert forall|i: int| 0 <= i < t.len() implies #[trigger] ends_told(
                spec,
                syms,
                last,
                t,
                i,
            ) by {
                assert(ends_told(spec, syms, last, alts[n - 1], i));
            }
        }
    }
}

proof fn lemma_alts_terms(
    names: Seq<Seq<char>>,
    prod: Seq<char>,
    alts: Seq<Seq<char>>,
    n: int,
)
    requires
        0 <= n <= alts.len(),
    ensures
        alts_terms(names, prod, alts, n) matches Ok(ts) ==> ts.len() == n && forall|i: int|
            0 <= i < n ==> alt_terms(names, prod, #[trigger] alts[i]) == Ok::<Terms, Seq<char>>(
                ts[i],
            ),
    decreases n,
{
    if n > 0 {
        lemma_alts_terms(names, prod, alts, n - 1);
    }
}

/// A resolved production has its alternatives as written, and where an expression or a
/// repetition in it ends can be told.
pub proof fn law_production_resolved(
    spec: Spec,
    syms: Seq<Sym>,
    names: Seq<Seq<char>>,
    last: bool,
    prod: Seq<char>,
    alts: Seq<Seq<char>>,
)
    ensures
        prod_terms(spec, syms, names, last, prod, alts) matches Ok(ts) ==> {
            &&& ts.len() == alts.len()
            &&& forall|i: int|
                0 <= i < alts.len() ==> alt_terms(names, prod, #[trigger] alts[i]) == Ok::<
                    Terms,
                    Seq<char>,
                >(ts[i])
            &&& forall|a: int, i: int|
                0 <= a < ts.len() && 0 <= i < ts[a].len() ==> #[trigger] ends_told(
                    spec,
                    syms,
                    last,
                    ts[a],
                    i,
                )
        },
        prod_terms(spec, syms, names, last, prod, alts) is Err <==> (match alts_terms(
            names,
            prod,
            alts,
            alts.len() as int,
        ) {
            Err(x) => true,
            Ok(ts) => exists|a: int, i: int|
                0 <= a < ts.len() && 0 <= i < ts[a].len() && !#[trigger] ends_told(
                    spec,
                    syms,
                    last,
                    ts[a],
                    i,
                ),
        }),
{
    let n = alts.len() as int;
    lemma_alts_terms(names, prod, alts, n);
    if let Ok(ts) = alts_terms(names, prod, alts, n) {
        lemma_alts_told(spec, syms, last, prod, ts, ts.len() as int);
    }
}

proof fn lemma_seen(
    prod: Seq<char>,
    seen: Seq<Seq<char>>,
    more: Seq<Seq<char>>,
    n: int,
)
    requires
        0 <= n <= more.len(),
    ensures
        seen_with(prod, seen, more, n) matches Ok(s) ==> {
            &&& forall|i: int| 0 <= i < n ==> !seen.contains(#[trigger] more[i])
            &&& forall|x: Seq<char>| #[trigger] seen.contains(x) ==> s.contains(x)
            &&& forall|i: int| 0 <= i < n ==> s.contains(#[trigger] more[i])
        },
    decreases n,
{
    if n > 0 {
        lemma_seen(prod, seen, more, n - 1);
        if let Ok(s) = seen_with(prod, seen, more, n - 1) {
            if !s.contains(more[n - 1]) {
                let t = s.push(more[n - 1]);
                assert(t[s.len() as int] == more[n - 1]);
                assert forall|x: Seq<char>| s.contains(x) implies #[trigger] t.contains(x) by {
                    let j = choose|j: int| 0 <= j < s.len() && s[j] == x;
                    assert(t[j] == x);
                }
            }
        }
    }
}

/// The literals that alternative `a` of production `p` can begin with, and whether it can
/// begin without one.
pub open spec fn leads(prods: Seq<Seq<Terms>>, p: int, a: int) -> (Seq<Seq<char>>, bool) {
    first_of(prods, head(prods[p][a]), 0)
}

/// Both alternatives can begin with the literal.
pub open spec fn shared(prods: Seq<Seq<Terms>>, p: int, a: int, c: int, x: Seq<char>) -> bool {
    leads(prods, p, a).0.contains(x) && leads(prods, p, c).0.contains(x)
}

proof fn lemma_heads(prods: Seq<Seq<Terms>>, prod: Seq<char>, p: int, n: int)
    requires
        0 <= n <= prods[p].len(),
    ensures
        heads_of(prods, prod, p, n) matches Ok((seen, open)) ==> {
            &&& forall|a: int, x: Seq<char>|
                0 <= a < n && #[trigger] leads(prods, p, a).0.contains(x) ==> seen.contains(x)
            &&& forall|a: int, c: int, x: Seq<char>|
                0 <= a < c < n ==> !#[trigger] shared(prods, p, a, c, x)
            &&& open == 0 ==> forall|a: int| 0 <= a < n ==> !(#[trigger] leads(prods, p, a)).1
            &&& open == 1 ==> forall|a: int, c: int|
                0 <= a < c < n ==> !((#[trigger] leads(prods, p, a)).1 && (#[trigger] leads(
                    prods,
                    p,
                    c,
                )).1)
        },
    decreases n,
{
    if n > 0 {
        lemma_heads(prods, prod, p, n - 1);
        if let Ok((seen, open)) = heads_of(prods, prod, p, n - 1) {
            let (more, o) = leads(prods, p, n - 1);
            lemma_seen(prod, seen, more, more.len() as int);
            if let Ok(s) = seen_with(prod, seen, more, more.len() as int) {
                assert forall|a: int, x: Seq<char>|
                    0 <= a < n && #[trigger] leads(prods, p, a).0.contains(x) implies s.contains(x) by {
                    if a < n - 1 {
                        assert(seen.contains(x));
                    } else {
                        let i = choose|i: int| 0 <= i < more.len() && more[i] == x;
                        assert(s.contains(more[i]));
                    }
                }
                assert forall|a: int, c: int, x: Seq<char>| 0 <= a < c < n implies !#[trigger] shared(
                    prods,
                    p,
                    a,
                    c,
                    x,
                ) by {
                    if c == n - 1 && shared(prods, p, a, c, x) {
                        assert(leads(prods, p, a).0.contains(x));
                        assert(seen.contains(x));
                        let i = choose|i: int| 0 <= i < more.len() && more[i] == x;
                        assert(!seen.contains(more[i]));
                    }
                }
            }
        }
    }
}

proof fn lemma_choices(prods: Seq<Seq<Terms>>, names: Seq<Seq<char>>, n: int, p: int)
    requires
        0 <= p < n,
        choices_fault(prods, names, n) is None,
    ensures
        choice_fault(prods, names[p], p) is None,
    decreases n,
{
    if p < n - 1 {
        lemma_choices(prods, names, n - 1, p);
    }
}

proof fn lemma_prods(
    spec: Spec,
    syms: Seq<Sym>,
    raw: Seq<HostProd>,
    start: int,
    n: int,
)
    requires
        0 <= n <= raw.len(),
    ensures
        prods_terms(spec, syms, raw, start, n) matches Ok(ps) ==> ps.len() == n && forall|p: int|
            0 <= p < n ==> prod_terms(
                spec,
                syms,
                host_names(raw),
                p == start,
                (#[trigger] raw[p]).name@,
                views(raw[p].alts@),
            ) == Ok::<Seq<Terms>, Seq<char>>(ps[p]),
    decreases n,
{
    if n > 0 {
        lemma_prods(spec, syms, raw, start, n - 1);
    }
}

/// An accepted statement grammar can be read by its first literals: two alternatives of a
/// production share none, and at most one needs none. It starts with the production it
/// names, and every production is as it is written.
pub proof fn law_accepted(spec: Spec, syms: Seq<Sym>, host: Host)
    requires
        resolved(spec, syms, host) is Ok,
    ensures
        ({
            let g = resolved(spec, syms, host)->Ok_0;
            let raw = host.prods@;
            &&& raw.len() > 0
            &&& g.prods.len() == raw.len()
            &&& 0 <= g.start < raw.len()
            &&& raw[g.start].name@ == host.start@
            &&& forall|p: int|
                0 <= p < raw.len() ==> prod_terms(
                    spec,
                    syms,
                    host_names(raw),
                    p == g.start,
                    (#[trigger] raw[p]).name@,
                    views(raw[p].alts@),
                ) == Ok::<Seq<Terms>, Seq<char>>(g.prods[p])
            &&& forall|p: int, a: int, c: int, x: Seq<char>|
                0 <= p < g.prods.len() && 0 <= a < c < g.prods[p].len() ==> !#[trigger] shared(
                    g.prods,
                    p,
                    a,
                    c,
                    x,
                )
            &&& forall|p: int, a: int, c: int|
                0 <= p < g.prods.len() && 0 <= a < c < g.prods[p].len() ==> !((#[trigger] leads(
                    g.prods,
                    p,
                    a,
                )).1 && (#[trigger] leads(g.prods, p, c)).1)
        }),
{
    let g = resolved(spec, syms, host)->Ok_0;
    let raw = host.prods@;
    let n = raw.len() as int;
    lemma_index(host_names(raw), host.start@, 0);
    lemma_prods(spec, syms, raw, g.start, n);
    assert forall|p: int| 0 <= p < n implies choice_fault(g.prods, #[trigger] host_names(raw)[p], p) is None by {
        lemma_choices(g.prods, host_names(raw), n, p);
    }
    assert forall|p: int, a: int, c: int, x: Seq<char>|
        0 <= p < g.prods.len() && 0 <= a < c < g.prods[p].len() implies !#[trigger] shared(
        g.prods,
        p,
        a,
        c,
        x,
    ) by {
        lemma_heads(g.prods, host_names(raw)[p], p, g.prods[p].len() as int);
        assert(choice_fault(g.prods, host_names(raw)[p], p) is None);
    }
    assert forall|p: int, a: int, c: int|
        0 <= p < g.prods.len() && 0 <= a < c < g.prods[p].len() implies !((#[trigger] leads(
        g.prods,
        p,
        a,
    )).1 && (#[trigger] leads(g.prods, p, c)).1) by {
        lemma_heads(g.prods, host_names(raw)[p], p, g.prods[p].len() as int);
        assert(choice_fault(g.prods, host_names(raw)[p], p) is None);
    }
}

/// What an alternative can begin with: its first literal; what a production it begins with
/// can begin with; nothing certain, if it begins with a name, an expression or a
/// repetition.
pub proof fn law_leads(prods: Seq<Seq<Terms>>, x: TermModel, depth: int)
    requires
        0 <= depth <= prods.len(),
    ensures
        ({
            let (s, open) = first_of(prods, Some(x), depth);
            match x {
                TermModel::Tok(w) => s == seq![w] && !open,
                TermModel::Ident => s.len() == 0 && open,
                TermModel::Expr => s.len() == 0 && open,
                TermModel::Rep(i) => s.len() == 0 && open,
                TermModel::Nt(i) => true,
            }
        }),
{
}

// ---- Keywords ----------------------------------------------------------

/// A literal of ASCII letters, digits and underscores.
pub open spec fn is_word_literal(x: TermModel, w: Seq<char>) -> bool {
    x == TermModel::Tok(w) && crate::generator::host_model::is_word_text(w)
}

proof fn lemma_keyword_terms(kws: Seq<Seq<char>>, terms: Terms, n: int, w: Seq<char>)
    requires
        0 <= n <= terms.len(),
    ensures
        keywords_of_terms(kws, terms, n).contains(w) <==> kws.contains(w) || exists|i: int|
            0 <= i < n && is_word_literal(#[trigger] terms[i], w),
    decreases n,
{
    if n > 0 {
        lemma_keyword_terms(kws, terms, n - 1, w);
        let s = keywords_of_terms(kws, terms, n - 1);
        let t = keywords_of_terms(kws, terms, n);
        if t != s {
            let x = terms[n - 1]->Tok_0;
            assert(t == s.push(x));
            assert(t[s.len() as int] == x);
            if s.contains(w) {
                let j = choose|j: int| 0 <= j < s.len() && s[j] == w;
                assert(t[j] == w);
            }
            if w == x {
                assert(is_word_literal(terms[n - 1], w));
            }
        }
        if is_word_literal(terms[n - 1], w) {
            assert(t.contains(w));
        }
        if exists|i: int| 0 <= i < n - 1 && is_word_literal(#[trigger] terms[i], w) {
            let i = choose|i: int| 0 <= i < n - 1 && is_word_literal(#[trigger] terms[i], w);
            assert(is_word_literal(terms[i], w));
        }
    }
}

proof fn lemma_keyword_alts(kws: Seq<Seq<char>>, alts: Seq<Terms>, n: int, w: Seq<char>)
    requires
        0 <= n <= alts.len(),
    ensures
        keywords_of_alts(kws, alts, n).contains(w) <==> kws.contains(w) || exists|a: int, i: int|
            0 <= a < n && 0 <= i < alts[a].len() && is_word_literal(#[trigger] alts[a][i], w),
    decreases n,
{
    if n > 0 {
        lemma_keyword_alts(kws, alts, n - 1, w);
        let k = keywords_of_alts(kws, alts, n - 1);
        let t = alts[n - 1];
        lemma_keyword_terms(k, t, t.len() as int, w);
        if exists|i: int| 0 <= i < t.len() && is_word_literal(#[trigger] t[i], w) {
            let i = choose|i: int| 0 <= i < t.len() && is_word_literal(#[trigger] t[i], w);
            assert(is_word_literal(alts[n - 1][i], w));
        }
        if exists|a: int, i: int|
            0 <= a < n && 0 <= i < alts[a].len() && is_word_literal(#[trigger] alts[a][i], w) {
            let (a, i) = choose|a: int, i: int|
                0 <= a < n && 0 <= i < alts[a].len() && is_word_literal(#[trigger] alts[a][i], w);
            if a == n - 1 {
                assert(is_word_literal(t[i], w));
            }
        }
    }
}

/// The keywords are those declared and the literals that are words, no others.
pub proof fn law_keywords(kws: Seq<Seq<char>>, prods: Seq<Seq<Terms>>, n: int, w: Seq<char>)
    requires
        0 <= n <= prods.len(),
    ensures
        keywords_of(kws, prods, n).contains(w) <==> kws.contains(w) || exists|p: int, a: int, i: int|
            0 <= p < n && 0 <= a < prods[p].len() && 0 <= i < prods[p][a].len() && is_word_literal(
                #[trigger] prods[p][a][i],
                w,
            ),
    decreases n,
{
    if n > 0 {
        law_keywords(kws, prods, n - 1, w);
        let k = keywords_of(kws, prods, n - 1);
        let t = prods[n - 1];
        lemma_keyword_alts(k, t, t.len() as int, w);
        if exists|a: int, i: int|
            0 <= a < t.len() && 0 <= i < t[a].len() && is_word_literal(#[trigger] t[a][i], w) {
            let (a, i) = choose|a: int, i: int|
                0 <= a < t.len() && 0 <= i < t[a].len() && is_word_literal(#[trigger] t[a][i], w);
            assert(is_word_literal(prods[n - 1][a][i], w));
        }
        if exists|p: int, a: int, i: int|
            0 <= p < n && 0 <= a < prods[p].len() && 0 <= i < prods[p][a].len() && is_word_literal(
                #[trigger] prods[p][a][i],
                w,
            ) {
            let (p, a, i) = choose|p: int, a: int, i: int|
                0 <= p < n && 0 <= a < prods[p].len() && 0 <= i < prods[p][a].len()
                    && is_word_literal(#[trigger] prods[p][a][i], w);
            if p == n - 1 {
                assert(is_word_literal(t[a][i], w));
            }
        }
    }
}

} // verus!
