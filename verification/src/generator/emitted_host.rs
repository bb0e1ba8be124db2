//! What the emitted statement grammar and certificate say.

use vstd::prelude::*;
use vstd::string::*;
use vstd::utf8::*;

use crate::generator::emit::{
    alt_lines, byte_numbers, certificate_text, has_power, host_text, logic_arms, power_of,
    prod_lines, quoted_all, return_arms, term_texts,
};
use crate::generator::emitted::{holds_text, is_table_of, stands_at, sym};
use crate::generator::emitter::Emitter;
use crate::generator::sample::sample_text;
use crate::generator::templates::{HOST_1, HOST_2, HOST_6};
use crate::generator::text::{decimal, joined, quoted, replaced};
use crate::runtime::host_grammar::{Alt, Grammar, Production, Term};
use crate::runtime::table::Table;

verus! {

// ---- The statement grammar ---------------------------------------------

/// A term as an expression of the emitted source.
pub open spec fn shown_term(x: Term) -> Seq<char> {
    match x {
        Term::Tok(s) => "Term::Tok("@ + quoted(s@) + ")"@,
        Term::Ident => "Term::Ident"@,
        Term::Expr => "Term::Expr"@,
        Term::Nt(i) => "Term::Nt("@ + decimal(i as nat) + ")"@,
        Term::Rep(i) => "Term::Rep("@ + decimal(i as nat) + ")"@,
    }
}

/// Pieces of a list, a comma and a blank between each two.
pub open spec fn comma_list(pieces: Seq<Seq<char>>) -> Seq<char>
    decreases pieces.len(),
{
    if pieces.len() == 0 {
        Seq::empty()
    } else if pieces.len() == 1 {
        pieces[0]
    } else {
        comma_list(pieces.drop_last()) + ", "@ + pieces.last()
    }
}

/// Alternatives, a line each.
pub open spec fn shown_alts(alts: Seq<Alt>) -> Seq<char>
    decreases alts.len(),
{
    if alts.len() == 0 {
        Seq::empty()
    } else {
        let terms = alts.last().terms@;
        shown_alts(alts.drop_last()) + "        Alt { terms: &["@ + comma_list(
            Seq::new(terms.len(), |i: int| shown_term(terms[i])),
        ) + "] },\n"@
    }
}

/// Productions, each with its name and its alternatives.
pub open spec fn shown_prods(prods: Seq<Production>) -> Seq<char>
    decreases prods.len(),
{
    if prods.len() == 0 {
        Seq::empty()
    } else {
        shown_prods(prods.drop_last()) + "    Production { name: "@ + quoted(prods.last().name@)
            + ", alts: &[\n"@ + shown_alts(prods.last().alts@) + "    ] },\n"@
    }
}

pub proof fn lemma_comma_list(pieces: Seq<Seq<char>>, k: int)
    requires
        0 <= k <= pieces.len(),
    ensures
        joined(pieces, ", "@, k) == comma_list(pieces.take(k)),
    decreases k,
{
    let x = pieces.take(k);
    if k == 1 {
        assert(x[0] == pieces[0]);
    } else if k > 1 {
        lemma_comma_list(pieces, k - 1);
        assert(x.drop_last() =~= pieces.take(k - 1));
        assert(x.last() == pieces[k - 1]);
    }
}

proof fn lemma_alts(alts: Seq<Alt>, n: int)
    requires
        0 <= n <= alts.len(),
    ensures
        alt_lines(Seq::empty(), alts, n) == shown_alts(alts.take(n)),
    decreases n,
{
    let x = alts.take(n);
    if n > 0 {
        lemma_alts(alts, n - 1);
        assert(x.drop_last() =~= alts.take(n - 1));
        assert(x.last() == alts[n - 1]);
        let terms = alts[n - 1].terms@;
        let shown = Seq::new(terms.len(), |i: int| shown_term(terms[i]));
        assert(term_texts(terms) =~= shown);
        lemma_comma_list(shown, terms.len() as int);
        assert(shown.take(terms.len() as int) =~= shown);
    }
}

proof fn lemma_prods(prods: Seq<Production>, n: int)
    requires
        0 <= n <= prods.len(),
    ensures
        prod_lines(Seq::empty(), prods, n) == shown_prods(prods.take(n)),
    decreases n,
{
    let x = prods.take(n);
    if n > 0 {
        lemma_prods(prods, n - 1);
        assert(x.drop_last() =~= prods.take(n - 1));
        assert(x.last() == prods[n - 1]);
        let alts = prods[n - 1].alts@;
        lemma_alts(alts, alts.len() as int);
        assert(alts.take(alts.len() as int) =~= alts);
    }
}

/// The emitted statement grammar is the resolved one: its start, its keywords, its bytes of
/// punctuation and its productions, in order; with it comes the sample program.
pub proof fn law_emitted_grammar(e: Emitter)
    ensures
        ({
            let g = e.host;
            holds_text(
                host_text(e),
                "pub const GRAMMAR: Grammar = Grammar {\n    start: "@ + decimal(g.start as nat)
                    + ",\n    keywords: &["@ + comma_list(
                    Seq::new(g.keywords@.len(), |i: int| quoted(g.keywords@[i]@)),
                ) + "],\n    punct_bytes: &["@ + comma_list(
                    Seq::new(
                        g.punct_bytes@.len(),
                        |i: int| decimal(g.punct_bytes@[i] as nat) + "u8"@,
                    ),
                ) + "],\n    prods: &[\n"@ + shown_prods(g.prods@) + "    ],\n};\n"@,
            )
        }),
        holds_text(
            host_text(e),
            "pub const SAMPLE_PROGRAM: &str = "@ + quoted(sample_text(e)) + ";\n"@,
        ),
{
    let g = e.host;
    let ks = Seq::new(g.keywords@.len(), |i: int| quoted(g.keywords@[i]@));
    let bs = Seq::new(g.punct_bytes@.len(), |i: int| decimal(g.punct_bytes@[i] as nat) + "u8"@);
    assert(quoted_all(g.keywords@) =~= ks);
    assert(byte_numbers(g.punct_bytes@) =~= bs);
    lemma_comma_list(ks, ks.len() as int);
    lemma_comma_list(bs, bs.len() as int);
    assert(ks.take(ks.len() as int) =~= ks);
    assert(bs.take(bs.len() as int) =~= bs);
    lemma_prods(g.prods@, g.prods@.len() as int);
    assert(g.prods@.take(g.prods@.len() as int) =~= g.prods@);
    let pre = HOST_1@ + e.spec.name@ + HOST_2@;
    let p1 = "pub const GRAMMAR: Grammar = Grammar {\n    start: "@;
    let p2 = p1 + decimal(g.start as nat);
    let p3 = p2 + ",\n    keywords: &["@;
    let p4 = p3 + comma_list(ks);
    let p5 = p4 + "],\n    punct_bytes: &["@;
    let p6 = p5 + comma_list(bs);
    let p7 = p6 + "],\n    prods: &[\n"@;
    let p8 = p7 + shown_prods(g.prods@);
    let part = p8 + "    ],\n};\n"@;
    lemma_regroup(pre, p1, decimal(g.start as nat));
    lemma_regroup(pre, p2, ",\n    keywords: &["@);
    lemma_regroup(pre, p3, comma_list(ks));
    lemma_regroup(pre, p4, "],\n    punct_bytes: &["@);
    lemma_regroup(pre, p5, comma_list(bs));
    lemma_regroup(pre, p6, "],\n    prods: &[\n"@);
    lemma_regroup(pre, p7, shown_prods(g.prods@));
    lemma_regroup(pre, p8, "    ],\n};\n"@);
    let base = pre + part + HOST_6@;
    let (q1, q2, q3) = (
        "pub const SAMPLE_PROGRAM: &str = "@,
        quoted(sample_text(e)),
        ";\n"@,
    );
    assert(host_text(e) == base + q1 + q2 + q3);
    lemma_middle(pre, part, HOST_6@ + q1 + q2 + q3);
    lemma_regroup(pre + part, HOST_6@, q1);
    lemma_regroup(pre + part, HOST_6@ + q1, q2);
    lemma_regroup(pre + part, HOST_6@ + q1 + q2, q3);
    lemma_middle(base, q1 + q2 + q3, Seq::empty());
    lemma_regroup(base, q1, q2);
    lemma_regroup(base, q1 + q2, q3);
    assert(base + (q1 + q2 + q3) + Seq::<char>::empty() =~= base + (q1 + q2 + q3));
}

pub proof fn lemma_regroup(x: Seq<char>, y: Seq<char>, z: Seq<char>)
    ensures
        x + y + z == x + (y + z),
{
    assert(x + y + z =~= x + (y + z));
}

proof fn lemma_middle(pre: Seq<char>, part: Seq<char>, post: Seq<char>)
    ensures
        holds_text(pre + part + post, part),
{
    let text = pre + part + post;
    assert(text.subrange(pre.len() as int, (pre.len() + part.len()) as int) =~= part);
    assert(stands_at(text, part, pre.len() as int));
}

// ---- The certificate ---------------------------------------------------

/// The operators of the table that follow an operand, among the first `n` symbols.
pub open spec fn followers(t: Table, n: int) -> Seq<int>
    decreases n,
{
    if n <= 0 {
        Seq::empty()
    } else if t.infix_of(sym(n - 1)) is Some || t.postfix_of(sym(n - 1)) is Some {
        followers(t, n - 1).push(n - 1)
    } else {
        followers(t, n - 1)
    }
}

/// One test of a byte for each of the symbols, with its left binding power in the table.
pub open spec fn tests_text(t: Table, ops: Seq<int>) -> Seq<char>
    decreases ops.len(),
{
    if ops.len() == 0 {
        Seq::empty()
    } else {
        tests_text(t, ops.drop_last()) + "if b == "@ + decimal(t.syms@[ops.last()].text@[0] as nat)
            + "u8 { "@ + decimal(t.left_power(sym(ops.last())) as nat) + " } else "@
    }
}

/// One branch on a byte for each of the symbols, with its left binding power in the table.
pub open spec fn branches_text(t: Table, ops: Seq<int>) -> Seq<char>
    decreases ops.len(),
{
    if ops.len() == 0 {
        Seq::empty()
    } else {
        branches_text(t, ops.drop_last()) + decimal(t.syms@[ops.last()].text@[0] as nat)
            + "u8 => return "@ + decimal(t.left_power(sym(ops.last())) as nat)
            + ",\n            "@
    }
}

proof fn lemma_certificate_arms(e: Emitter, t: Table, n: int)
    requires
        is_table_of(e, t),
        0 <= n <= e.syms@.len(),
    ensures
        logic_arms(Seq::empty(), e.syms@, n) == tests_text(t, followers(t, n)),
        return_arms(Seq::empty(), e.syms@, n) == branches_text(t, followers(t, n)),
    decreases n,
{
    if n > 0 {
        lemma_certificate_arms(e, t, n - 1);
        assert(e.symbol_ok(n - 1, t.syms@[n - 1]));
        let s = e.syms@[n - 1];
        assert(t.infix_of(sym(n - 1)) == s.roles.infix);
        assert(t.postfix_of(sym(n - 1)) == s.roles.postfix_lbp);
        if has_power(s) {
            let x = followers(t, n);
            assert(x.drop_last() =~= followers(t, n - 1));
            assert(x.last() == n - 1);
            assert(power_of(s) == t.left_power(sym(n - 1)));
        }
    }
}

proof fn lemma_followers(t: Table, n: int, i: int)
    requires
        0 <= i < n,
    ensures
        followers(t, n).contains(i) <==> t.infix_of(sym(i)) is Some || t.postfix_of(sym(i)) is Some,
    decreases n,
{
    let (x, y) = (followers(t, n - 1), followers(t, n));
    if i < n - 1 {
        lemma_followers(t, n - 1, i);
        if x.contains(i) {
            let j = choose|j: int| 0 <= j < x.len() && x[j] == i;
            assert(y[j] == i);
        }
        if y.contains(i) {
            let j = choose|j: int| 0 <= j < y.len() && y[j] == i;
            assert(x[j] == i);
        }
    } else {
        lemma_followers_below(t, n - 1);
        if y.len() > x.len() {
            assert(y[x.len() as int] == i);
        }
    }
}

proof fn lemma_followers_below(t: Table, n: int)
    ensures
        forall|j: int| 0 <= j < followers(t, n).len() ==> 0 <= #[trigger] followers(t, n)[j] < n,
    decreases n,
{
    if n > 0 {
        lemma_followers_below(t, n - 1);
        let (x, y) = (followers(t, n - 1), followers(t, n));
        assert forall|j: int| 0 <= j < y.len() implies 0 <= #[trigger] y[j] < n by {
            if j < x.len() {
                assert(y[j] == x[j]);
            }
        }
    }
}

/// The certificate is its template with three marks filled in: the name of the grammar,
/// and, in two forms, the left binding power in the table of every operator that follows
/// an operand, and of no other symbol, by its byte; all other bytes bind 0.
pub proof fn law_emitted_certificate(e: Emitter, t: Table, template: Seq<char>, i: int)
    requires
        is_table_of(e, t),
        0 <= i < e.syms@.len(),
    ensures
        ({
            let ops = followers(t, t.syms@.len() as int);
            &&& ops.contains(i) <==> t.infix_of(sym(i)) is Some || t.postfix_of(sym(i)) is Some
            &&& certificate_text(e, template) == replaced(
                replaced(
                    replaced(template, "/*@GRAMMAR@*/"@, e.spec.name@, 0),
                    "/*@LBP_OF_BYTE_LOGIC@*/"@,
                    tests_text(t, ops) + "{ 0 }"@,
                    0,
                ),
                "/*@NEXT_TOKEN_LBP_OP@*/"@,
                branches_text(t, ops),
                0,
            )
        }),
{
    lemma_certificate_arms(e, t, e.syms@.len() as int);
    lemma_followers(t, e.syms@.len() as int, i);
}

/// `from` stands at place `i` of `s`.
pub open spec fn occurs_at(s: Seq<char>, from: Seq<char>, i: int) -> bool {
    0 <= i && i + from.len() <= s.len() && s.subrange(i, i + from.len()) == from
}

proof fn lemma_replaced_up_to(s: Seq<char>, from: Seq<char>, to: Seq<char>, i: int, k: int)
    requires
        from.len() > 0,
        0 <= i <= k <= s.len(),
        forall|j: int| i <= j < k ==> !#[trigger] occurs_at(s, from, j),
        occurs_at(s, from, k) || k == s.len(),
    ensures
        occurs_at(s, from, k) ==> replaced(s, from, to, i) == s.subrange(i, k) + to + replaced(
            s,
            from,
            to,
            k + from.len(),
        ),
        !occurs_at(s, from, k) ==> replaced(s, from, to, i) == s.skip(i),
    decreases k - i,
{
    let n = from.len() as int;
    if i == k {
        if occurs_at(s, from, k) {
            let r = replaced(s, from, to, k + n);
            assert(s.subrange(k, k) + to + r =~= to + r);
        }
    } else {
        assert(!occurs_at(s, from, i));
        lemma_replaced_up_to(s, from, to, i + 1, k);
        if i + n <= s.len() {
            if occurs_at(s, from, k) {
                let r = replaced(s, from, to, k + n);
                assert(seq![s[i]] + (s.subrange(i + 1, k) + to + r) =~= s.subrange(i, k) + to + r);
            } else {
                assert(seq![s[i]] + s.skip(i + 1) =~= s.skip(i));
            }
        } else {
            assert(!occurs_at(s, from, k));
        }
    }
}

/// Filling in a mark: what stands before its first place stays, then comes what it is
/// replaced by, then the rest with the mark filled in; a text without it stays as it is.
pub proof fn law_replaced(s: Seq<char>, from: Seq<char>, to: Seq<char>, i: int, k: int)
    requires
        from.len() > 0,
        0 <= i <= k <= s.len(),
        forall|j: int| i <= j < k ==> !#[trigger] occurs_at(s, from, j),
        occurs_at(s, from, k) || k == s.len(),
    ensures
        occurs_at(s, from, k) ==> replaced(s, from, to, i) == s.subrange(i, k) + to + replaced(
            s,
            from,
            to,
            k + from.len(),
        ),
        !occurs_at(s, from, k) ==> replaced(s, from, to, i) == s.skip(i),
{
    lemma_replaced_up_to(s, from, to, i, k);
}

/// The last digit of a number in decimal is the number modulo ten; what stands before it
/// is a tenth of the number. Digits are written as themselves.
pub proof fn law_decimal(n: nat)
    ensures
        decimal(n).len() > 0,
        decimal(n).last() as int == '0' as int + n % 10,
        n >= 10 ==> decimal(n).drop_last() == decimal(n / 10),
        n < 10 ==> decimal(n).len() == 1,
{
    if n >= 10 {
        assert(decimal(n).drop_last() =~= decimal(n / 10));
    }
}

} // verus!
