//! The sources of a parser, as text.

use vstd::prelude::*;
use vstd::string::*;
use vstd::utf8::*;

use crate::generator::emitter::Emitter;
use crate::generator::sample::{sample_ok, sample_text};
use crate::generator::spec::class_name;
use crate::generator::symbols::Sym;
use crate::generator::templates::{
    ATOM_HEAD, CERTIFICATE_MANIFEST_1, CERTIFICATE_MANIFEST_2, CERTIFICATE_MANIFEST_3,
    CERTIFICATE_MANIFEST_4, CLASS_HEAD, CLASS_TAIL, CLOSE_HEAD, CLOSE_TAIL, CREUSOT_REV,
    DISPLAY_1, DISPLAY_2, FLOORS, GRAMMAR_HEAD, GRAMMAR_TAIL, HOST_1, HOST_2, HOST_3, HOST_4,
    HOST_5, HOST_6, HOST_7, KINDS_HEAD, KINDS_TAIL, LBP_HEAD, LBP_TAIL, LEXER_1, LEXER_10,
    LEXER_11, LEXER_2, LEXER_3, LEXER_4, LEXER_5, LEXER_6, LEXER_7, LEXER_8, LEXER_9,
    LEXER_ARM_1, LEXER_ARM_2, LEXER_ARM_3, LEXER_ARM_4, LEXER_IDENT, LEXER_INT, LEX_HEAD,
    LEX_TAIL, MANIFEST_1, MANIFEST_2, MANIFEST_3, OPEN_HEAD, OPERATORS_1, OPERATORS_2,
    OPERATORS_3, OPERATORS_4, OPERATORS_5, OPERATORS_6, OPERATORS_7, OPERATORS_8, PIECES_HEAD,
    POSTFIX_TEST_HEAD, POWER_ARM_1, POWER_ARM_2, POWER_ARM_3, POWER_HEAD, POWER_TAIL,
    PREFIX_HEAD, PREFIX_TAIL, PREFIX_TEST_HEAD, RBP_HEAD, RBP_TAIL, SAMPLE_HEAD, TEST_TAIL,
    TEXT_HEAD, TEXT_TAIL,
};
use crate::generator::text::{decimal, join, joined, put_number, quote, quoted, replace, replaced, views};
use crate::runtime::host_grammar::{Alt, Production, Term};
use crate::runtime::table::OperatorClass;

verus! {

// ---- Manifests ---------------------------------------------------------

/// The manifest of the parser's crate.
pub open spec fn manifest_text(e: Emitter) -> Seq<char> {
    MANIFEST_1@ + e.spec.name@ + MANIFEST_2@ + e.spec.name@ + MANIFEST_3@
}

/// The manifest of the certificate's crate.
pub open spec fn certificate_manifest_text(e: Emitter) -> Seq<char> {
    CERTIFICATE_MANIFEST_1@ + e.spec.name@ + CERTIFICATE_MANIFEST_2@ + e.spec.name@
        + CERTIFICATE_MANIFEST_3@ + CREUSOT_REV@ + CERTIFICATE_MANIFEST_4@
}

// ---- Symbols -----------------------------------------------------------

/// Length of a symbol in bytes.
pub open spec fn byte_length(s: Sym) -> nat {
    encode_utf8(s.text@).len()
}

/// The first place from `i` on where symbol `k` goes: before a shorter one.
pub open spec fn slot(v: Seq<Sym>, order: Seq<int>, k: int, i: int) -> int
    decreases order.len() - i,
{
    if 0 <= i < order.len() && byte_length(v[order[i]]) >= byte_length(v[k]) {
        slot(v, order, k, i + 1)
    } else {
        i
    }
}

/// The first `n` symbols, the longest first, those of one length in order.
pub open spec fn longest_first(v: Seq<Sym>, n: int) -> Seq<int>
    decreases n,
{
    if n <= 0 {
        Seq::empty()
    } else {
        let order = longest_first(v, n - 1);
        order.insert(slot(v, order, n - 1, 0), n - 1)
    }
}

proof fn lemma_slot(v: Seq<Sym>, order: Seq<int>, k: int, i: int)
    requires
        0 <= i <= order.len(),
    ensures
        i <= slot(v, order, k, i) <= order.len(),
        forall|j: int|
            i <= j < slot(v, order, k, i) ==> byte_length(v[#[trigger] order[j]]) >= byte_length(
                v[k],
            ),
        slot(v, order, k, i) < order.len() ==> byte_length(v[order[slot(v, order, k, i)]])
            < byte_length(v[k]),
    decreases order.len() - i,
{
    if i < order.len() && byte_length(v[order[i]]) >= byte_length(v[k]) {
        lemma_slot(v, order, k, i + 1);
    }
}

/// All symbols are tried, a longer one before a shorter one: no symbol hides
/// one that it begins.
pub proof fn law_longest_first(v: Seq<Sym>, n: int)
    requires
        0 <= n <= v.len(),
    ensures
        longest_first(v, n).len() == n,
        forall|k: int| 0 <= k < n ==> #[trigger] longest_first(v, n).contains(k),
        forall|i: int| 0 <= i < n ==> 0 <= #[trigger] longest_first(v, n)[i] < n,
        forall|i: int, j: int|
            0 <= i < j < n ==> byte_length(v[#[trigger] longest_first(v, n)[i]]) >= byte_length(
                v[#[trigger] longest_first(v, n)[j]],
            ),
    decreases n,
{
    if n > 0 {
        law_longest_first(v, n - 1);
        let order = longest_first(v, n - 1);
        let s = slot(v, order, n - 1, 0);
        lemma_slot(v, order, n - 1, 0);
        let all = order.insert(s, n - 1);
        assert(all == longest_first(v, n));
        assert forall|k: int| 0 <= k < n implies #[trigger] all.contains(k) by {
            if k == n - 1 {
                assert(all[s] == k);
            } else {
                assert(order.contains(k));
                let i = choose|i: int| 0 <= i < order.len() && order[i] == k;
                if i < s {
                    assert(all[i] == k);
                } else {
                    assert(all[i + 1] == k);
                }
            }
        }
        assert forall|i: int, j: int| 0 <= i < j < n implies byte_length(v[#[trigger] all[i]])
            >= byte_length(v[#[trigger] all[j]]) by {
            let x = if i < s {
                i
            } else {
                i - 1
            };
            let y = if j < s {
                j
            } else {
                j - 1
            };
            if i != s {
                assert(all[i] == order[x]);
            }
            if j != s {
                assert(all[j] == order[y]);
            }
            if i == s && j > s + 1 {
                assert(byte_length(v[order[s]]) >= byte_length(v[order[j - 1]]));
            }
        }
        assert forall|i: int| 0 <= i < n implies 0 <= #[trigger] all[i] < n by {
            if i < s {
                assert(all[i] == order[i]);
            } else if i > s {
                assert(all[i] == order[i - 1]);
            }
        }
    }
}

/// A list of places.
pub open spec fn places(v: Seq<usize>) -> Seq<int> {
    Seq::new(v.len(), |i: int| v[i] as int)
}

fn order_of(v: &Vec<Sym>) -> (r: Vec<usize>)
    ensures
        places(r@) == longest_first(v@, v@.len() as int),
        r@.len() == v@.len(),
        forall|i: int| 0 <= i < r@.len() ==> #[trigger] r@[i] < v@.len(),
{
    let mut order: Vec<usize> = Vec::new();
    let mut k: usize = 0;
    assert(places(order@) =~= Seq::empty());
    while k < v.len()
        invariant
            k <= v@.len(),
            order@.len() == k,
            places(order@) == longest_first(v@, k as int),
            forall|i: int| 0 <= i < order@.len() ==> #[trigger] order@[i] < k,
        decreases v@.len() - k,
    {
        let n: usize = v[k].text.as_str().as_bytes().len();
        let mut i: usize = 0;
        while i < order.len() && v[order[i]].text.as_str().as_bytes().len() >= n
            invariant
                k < v@.len(),
                n == byte_length(v@[k as int]),
                i <= order@.len(),
                forall|i: int| 0 <= i < order@.len() ==> #[trigger] order@[i] < k,
                slot(v@, places(order@), k as int, 0) == slot(
                    v@,
                    places(order@),
                    k as int,
                    i as int,
                ),
            decreases order@.len() - i,
        {
            i = i + 1;
        }
        let ghost before = order@;
        assert(slot(v@, places(before), k as int, 0) == i);
        order.insert(i, k);
        proof {
            assert(places(order@) =~= places(before).insert(i as int, k as int));
            assert forall|j: int| 0 <= j < order@.len() implies #[trigger] order@[j] < k + 1 by {
                if j < i {
                    assert(order@[j] == before[j]);
                } else if j > i {
                    assert(order@[j] == before[j - 1]);
                }
            }
        }
        k = k + 1;
    }
    order
}

/// `TokenKind::` and the names, as a pattern; one that never matches if there
/// are none.
pub open spec fn or_pattern_text(names: Seq<Seq<char>>) -> Seq<char> {
    if names.len() == 0 {
        "_ if false"@
    } else {
        joined(kinds(names), " | "@, names.len() as int)
    }
}

pub open spec fn kinds(names: Seq<Seq<char>>) -> Seq<Seq<char>> {
    Seq::new(names.len(), |i: int| "TokenKind::"@ + names[i])
}

fn or_pattern(variants: &Vec<String>) -> (r: String)
    ensures
        r@ == or_pattern_text(views(variants@)),
{
    if variants.len() == 0 {
        return "_ if false".to_owned();
    }
    let mut pieces: Vec<String> = Vec::new();
    let mut i: usize = 0;
    while i < variants.len()
        invariant
            i <= variants@.len(),
            pieces@.len() == i,
            forall|k: int|
                0 <= k < i ==> (#[trigger] pieces@[k])@ == "TokenKind::"@ + variants@[k]@,
        decreases variants@.len() - i,
    {
        let mut x: String = "TokenKind::".to_owned();
        x.append(variants[i].as_str());
        pieces.push(x);
        i = i + 1;
    }
    assert(views(pieces@) =~= kinds(views(variants@)));
    join(&pieces, " | ")
}

/// A byte string literal.
pub open spec fn byte_literal_text(s: Seq<char>) -> Seq<char> {
    "b"@ + quoted(s)
}

fn byte_literal(s: &str) -> (r: String)
    ensures
        r@ == byte_literal_text(s@),
{
    let mut x: String = "b".to_owned();
    let q: String = quote(s);
    x.append(q.as_str());
    x
}

/// `base` and a line for each of the first `n` symbols: its variant.
pub open spec fn variant_lines(base: Seq<char>, v: Seq<Sym>, n: int) -> Seq<char>
    decreases n,
{
    if n <= 0 {
        base
    } else {
        variant_lines(base, v, n - 1) + "    "@ + v[n - 1].roles.variant@ + ",\n"@
    }
}

/// The variants of a token's kind.
pub open spec fn variants_text(e: Emitter) -> Seq<char> {
    let a = if e.spec.atoms.int {
        Seq::empty() + "    Int,\n"@
    } else {
        Seq::empty()
    };
    let b = if e.spec.atoms.ident {
        a + "    Ident,\n"@
    } else {
        a
    };
    variant_lines(b, e.syms@, e.syms@.len() as int)
}

/// `base` and an arm of the lexer for each of the first `n` symbols of
/// `order`.
pub open spec fn lexer_arms(base: Seq<char>, v: Seq<Sym>, order: Seq<int>, n: int) -> Seq<char>
    decreases n,
{
    if n <= 0 {
        base
    } else {
        let s = v[order[n - 1]];
        lexer_arms(base, v, order, n - 1) + LEXER_ARM_1@ + byte_literal_text(s.text@) + LEXER_ARM_2@
            + s.roles.variant@ + LEXER_ARM_3@ + decimal(byte_length(s)) + LEXER_ARM_4@
    }
}

// ---- Samples -----------------------------------------------------------

/// Three atoms.
pub open spec fn atom_text(e: Emitter, i: int) -> Seq<char> {
    if e.spec.atoms.int {
        if i == 0 {
            "1"@
        } else if i == 1 {
            "2"@
        } else {
            "7"@
        }
    } else {
        if i == 0 {
            "a"@
        } else if i == 1 {
            "b"@
        } else {
            "x"@
        }
    }
}

/// Texts of single tokens: atoms, symbols and a blank.
pub open spec fn pieces_of(e: Emitter) -> Seq<Seq<char>> {
    seq![quoted(atom_text(e, 0)), quoted(atom_text(e, 1)), quoted(atom_text(e, 2))] + Seq::new(
        e.syms@.len(),
        |i: int| quoted(e.syms@[i].text@),
    ) + seq![quoted(" "@)]
}

/// The first symbol from `i` on that is infix.
pub open spec fn first_infix(v: Seq<Sym>, i: int) -> Option<Seq<char>>
    decreases v.len() - i,
{
    if i < 0 || i >= v.len() {
        None
    } else if v[i].roles.infix is Some {
        Some(v[i].text@)
    } else {
        first_infix(v, i + 1)
    }
}

/// The first symbol from `i` on that is postfix.
pub open spec fn first_postfix(v: Seq<Sym>, i: int) -> Option<Seq<char>>
    decreases v.len() - i,
{
    if i < 0 || i >= v.len() {
        None
    } else if v[i].roles.postfix_lbp is Some {
        Some(v[i].text@)
    } else {
        first_postfix(v, i + 1)
    }
}

/// What an expression can be extended by.
pub open spec fn grow_text(e: Emitter) -> Seq<char> {
    match first_infix(e.syms@, 0) {
        Some(op) => op + e.spec.paren.open@ + atom_text(e, 0) + op + atom_text(e, 1)
            + e.spec.paren.close@,
        None => match first_postfix(e.syms@, 0) {
            Some(s) => s,
            None => Seq::empty(),
        },
    }
}

/// An infix symbol, or a plus.
pub open spec fn infix_text(e: Emitter) -> Seq<char> {
    match first_infix(e.syms@, 0) {
        Some(op) => op,
        None => "+"@,
    }
}

/// The lexer, through the kinds of tokens.
pub open spec fn lexer_through_kinds(e: Emitter) -> Seq<char> {
    LEXER_1@ + e.spec.name@ + LEXER_2@ + KINDS_HEAD@ + variants_text(e) + KINDS_TAIL@
}

/// Then how a token is found.
pub open spec fn lexer_through_lex(e: Emitter) -> Seq<char> {
    lexer_through_kinds(e) + LEXER_3@ + LEX_HEAD@
        + lexer_arms(Seq::empty(), e.syms@, longest_first(e.syms@, e.syms@.len() as int), e.syms@.len() as int)
        + (if e.spec.atoms.int { LEXER_INT@ } else { ""@ })
        + (if e.spec.atoms.ident { LEXER_IDENT@ } else { ""@ }) + LEX_TAIL@
}

/// The lexer.
pub open spec fn lexer_text(e: Emitter) -> Seq<char> {
    lexer_through_lex(e) + LEXER_4@
        + PIECES_HEAD@ + joined(pieces_of(e), ", "@, pieces_of(e).len() as int) + LEXER_5@
        + quoted(atom_text(e, 0)) + LEXER_6@ + quoted(grow_text(e)) + LEXER_7@
        + quoted(if e.spec.atoms.int { "1"@ } else { "a"@ }) + LEXER_8@ + quoted(infix_text(e))
        + LEXER_9@ + quoted(e.spec.paren.open@) + LEXER_10@ + quoted(e.spec.paren.close@)
        + LEXER_11@
}

// ---- Operator tables ---------------------------------------------------

/// `base` and an arm for each of the first `n` symbols: its left binding
/// power.
pub open spec fn lbp_arms(base: Seq<char>, v: Seq<Sym>, n: int) -> Seq<char>
    decreases n,
{
    if n <= 0 {
        base
    } else {
        let s = lbp_arms(base, v, n - 1);
        let r = v[n - 1].roles;
        let t = match r.infix {
            Some(x) => number_arm(s, r.variant@, x.lbp),
            None => s,
        };
        match r.postfix_lbp {
            Some(l) => number_arm(t, r.variant@, l),
            None => t,
        }
    }
}

/// `base` and an arm from a token's kind to a number.
pub open spec fn number_arm(base: Seq<char>, variant: Seq<char>, n: u32) -> Seq<char> {
    base + "        TokenKind::"@ + variant + " => "@ + decimal(n as nat) + ",\n"@
}

/// The same with right binding powers.
pub open spec fn rbp_arms(base: Seq<char>, v: Seq<Sym>, n: int) -> Seq<char>
    decreases n,
{
    if n <= 0 {
        base
    } else {
        let s = rbp_arms(base, v, n - 1);
        match v[n - 1].roles.infix {
            Some(x) => number_arm(s, v[n - 1].roles.variant@, x.rbp),
            None => s,
        }
    }
}

/// The same with the precedence of prefix operands.
pub open spec fn prefix_arms(base: Seq<char>, v: Seq<Sym>, n: int) -> Seq<char>
    decreases n,
{
    if n <= 0 {
        base
    } else {
        let s = prefix_arms(base, v, n - 1);
        match v[n - 1].roles.prefix_rbp {
            Some(x) => number_arm(s, v[n - 1].roles.variant@, x),
            None => s,
        }
    }
}

/// The same with classes.
pub open spec fn class_arms(base: Seq<char>, v: Seq<Sym>, n: int) -> Seq<char>
    decreases n,
{
    if n <= 0 {
        base
    } else {
        let s = class_arms(base, v, n - 1);
        match v[n - 1].roles.infix {
            Some(x) => s + "        TokenKind::"@ + v[n - 1].roles.variant@
                + " => OperatorClass::"@ + class_name(x.class) + ",\n"@,
            None => s,
        }
    }
}

/// The variants of the prefix operators among the first `n` symbols.
pub open spec fn prefix_names(v: Seq<Sym>, n: int) -> Seq<Seq<char>>
    decreases n,
{
    if n <= 0 {
        Seq::empty()
    } else if v[n - 1].roles.prefix_rbp is Some {
        prefix_names(v, n - 1).push(v[n - 1].roles.variant@)
    } else {
        prefix_names(v, n - 1)
    }
}

/// The variants of the postfix operators among the first `n` symbols.
pub open spec fn postfix_names(v: Seq<Sym>, n: int) -> Seq<Seq<char>>
    decreases n,
{
    if n <= 0 {
        Seq::empty()
    } else if v[n - 1].roles.postfix_lbp is Some {
        postfix_names(v, n - 1).push(v[n - 1].roles.variant@)
    } else {
        postfix_names(v, n - 1)
    }
}

/// The variant of the symbol that opens groups, among the first `n`.
pub open spec fn open_name(v: Seq<Sym>, n: int) -> Seq<char>
    decreases n,
{
    if n <= 0 {
        Seq::empty()
    } else if v[n - 1].roles.open_paren {
        v[n - 1].roles.variant@
    } else {
        open_name(v, n - 1)
    }
}

/// The variant of the symbol that closes groups, among the first `n`.
pub open spec fn close_name(v: Seq<Sym>, n: int) -> Seq<char>
    decreases n,
{
    if n <= 0 {
        Seq::empty()
    } else if v[n - 1].roles.close_paren {
        v[n - 1].roles.variant@
    } else {
        close_name(v, n - 1)
    }
}

/// The variants of atoms.
pub open spec fn atom_names(e: Emitter) -> Seq<Seq<char>> {
    if e.spec.atoms.int && e.spec.atoms.ident {
        seq!["Int"@, "Ident"@]
    } else if e.spec.atoms.int {
        seq!["Int"@]
    } else if e.spec.atoms.ident {
        seq!["Ident"@]
    } else {
        Seq::empty()
    }
}

/// Left binding power of a symbol; 0 if it is no operator.
pub open spec fn power_of(s: Sym) -> u32 {
    match s.roles.infix {
        Some(x) => x.lbp,
        None => match s.roles.postfix_lbp {
            Some(l) => l,
            None => 0,
        },
    }
}

/// `base` and a line for each of the first `n` symbols of `order`: its left
/// binding power.
pub open spec fn power_arms(base: Seq<char>, v: Seq<Sym>, order: Seq<int>, n: int) -> Seq<char>
    decreases n,
{
    if n <= 0 {
        base
    } else {
        let s = v[order[n - 1]];
        power_arms(base, v, order, n - 1) + POWER_ARM_1@ + byte_literal_text(s.text@) + POWER_ARM_2@
            + decimal(power_of(s) as nat) + POWER_ARM_3@
    }
}

/// The operator tables, through the left binding powers.
pub open spec fn op_through_lbp(e: Emitter) -> Seq<char> {
    OPERATORS_1@ + e.spec.name@ + OPERATORS_2@ + FLOORS@ + OPERATORS_3@ + LBP_HEAD@ + lbp_arms(
        Seq::empty(),
        e.syms@,
        e.syms@.len() as int,
    ) + LBP_TAIL@
}

/// Then the right binding powers.
pub open spec fn op_through_rbp(e: Emitter) -> Seq<char> {
    op_through_lbp(e) + OPERATORS_4@ + RBP_HEAD@ + rbp_arms(
        Seq::empty(),
        e.syms@,
        e.syms@.len() as int,
    ) + RBP_TAIL@
}

/// Then those of prefix operators.
pub open spec fn op_through_prefix(e: Emitter) -> Seq<char> {
    op_through_rbp(e) + OPERATORS_5@ + PREFIX_HEAD@ + prefix_arms(
        Seq::empty(),
        e.syms@,
        e.syms@.len() as int,
    ) + PREFIX_TAIL@
}

/// Then the classes.
pub open spec fn op_through_class(e: Emitter) -> Seq<char> {
    op_through_prefix(e) + OPERATORS_6@ + CLASS_HEAD@ + class_arms(
        Seq::empty(),
        e.syms@,
        e.syms@.len() as int,
    ) + CLASS_TAIL@
}

/// Then which tokens are atoms.
pub open spec fn op_through_atoms(e: Emitter) -> Seq<char> {
    op_through_class(e) + OPERATORS_7@ + ATOM_HEAD@ + or_pattern_text(atom_names(e)) + TEST_TAIL@
}

/// Then which are prefix operators.
pub open spec fn op_through_prefixes(e: Emitter) -> Seq<char> {
    op_through_atoms(e) + PREFIX_TEST_HEAD@ + or_pattern_text(
        prefix_names(e.syms@, e.syms@.len() as int),
    ) + TEST_TAIL@
}

/// Then which are postfix operators.
pub open spec fn op_through_postfixes(e: Emitter) -> Seq<char> {
    op_through_prefixes(e) + POSTFIX_TEST_HEAD@ + or_pattern_text(
        postfix_names(e.syms@, e.syms@.len() as int),
    ) + TEST_TAIL@
}

/// Then what opens and what closes a group.
pub open spec fn op_through_groups(e: Emitter) -> Seq<char> {
    op_through_postfixes(e) + OPEN_HEAD@ + open_name(e.syms@, e.syms@.len() as int) + TEST_TAIL@
        + CLOSE_HEAD@ + close_name(e.syms@, e.syms@.len() as int) + CLOSE_TAIL@
}

/// The operator tables.
pub open spec fn op_text(e: Emitter) -> Seq<char> {
    op_through_groups(e) + OPERATORS_8@ + POWER_HEAD@ + power_arms(
        Seq::empty(),
        e.syms@,
        longest_first(e.syms@, e.syms@.len() as int),
        e.syms@.len() as int,
    ) + POWER_TAIL@
}

// ---- The statement grammar ---------------------------------------------

/// A term as source.
pub open spec fn term_text(x: Term) -> Seq<char> {
    match x {
        Term::Tok(s) => "Term::Tok("@ + quoted(s@) + ")"@,
        Term::Ident => "Term::Ident"@,
        Term::Expr => "Term::Expr"@,
        Term::Nt(i) => "Term::Nt("@ + decimal(i as nat) + ")"@,
        Term::Rep(i) => "Term::Rep("@ + decimal(i as nat) + ")"@,
    }
}

pub open spec fn term_texts(v: Seq<Term>) -> Seq<Seq<char>> {
    Seq::new(v.len(), |i: int| term_text(v[i]))
}

/// `base` and the first `n` alternatives.
pub open spec fn alt_lines(base: Seq<char>, v: Seq<Alt>, n: int) -> Seq<char>
    decreases n,
{
    if n <= 0 {
        base
    } else {
        alt_lines(base, v, n - 1) + "        Alt { terms: &["@ + joined(
            term_texts(v[n - 1].terms@),
            ", "@,
            v[n - 1].terms@.len() as int,
        ) + "] },\n"@
    }
}

/// `base` and the first `n` productions.
pub open spec fn prod_lines(base: Seq<char>, v: Seq<Production>, n: int) -> Seq<char>
    decreases n,
{
    if n <= 0 {
        base
    } else {
        prod_lines(base, v, n - 1) + "    Production { name: "@ + quoted(v[n - 1].name@)
            + ", alts: &[\n"@ + alt_lines(Seq::empty(), v[n - 1].alts@, v[n - 1].alts@.len() as int)
            + "    ] },\n"@
    }
}

pub open spec fn quoted_all(v: Seq<String>) -> Seq<Seq<char>> {
    Seq::new(v.len(), |i: int| quoted(v[i]@))
}

pub open spec fn byte_numbers(v: Seq<u8>) -> Seq<Seq<char>> {
    Seq::new(v.len(), |i: int| decimal(v[i] as nat) + "u8"@)
}

/// The statement grammar as source, with a program that uses every statement.
pub open spec fn host_text(e: Emitter) -> Seq<char> {
    let g = e.host;
    HOST_1@ + e.spec.name@ + HOST_2@ + GRAMMAR_HEAD@ + decimal(g.start as nat) + HOST_3@
        + joined(quoted_all(g.keywords@), ", "@, g.keywords@.len() as int) + HOST_4@
        + joined(byte_numbers(g.punct_bytes@), ", "@, g.punct_bytes@.len() as int) + HOST_5@
        + prod_lines(Seq::empty(), g.prods@, g.prods@.len() as int) + GRAMMAR_TAIL@ + HOST_6@
        + SAMPLE_HEAD@ + quoted(sample_text(e)) + HOST_7@
}

// ---- Display text ------------------------------------------------------

/// `base` and an arm for each of the first `n` symbols: its text.
pub open spec fn text_arms(base: Seq<char>, v: Seq<Sym>, n: int) -> Seq<char>
    decreases n,
{
    if n <= 0 {
        base
    } else {
        text_arms(base, v, n - 1) + "        TokenKind::"@ + v[n - 1].roles.variant@ + " => "@
            + quoted(v[n - 1].text@) + ",\n"@
    }
}

/// How tokens are shown.
pub open spec fn display_text(e: Emitter) -> Seq<char> {
    let a = if e.spec.atoms.int {
        Seq::empty() + "        TokenKind::Int => \"<int>\",\n"@
    } else {
        Seq::empty()
    };
    let b = if e.spec.atoms.ident {
        a + "        TokenKind::Ident => \"<id>\",\n"@
    } else {
        a
    };
    DISPLAY_1@ + e.spec.name@ + DISPLAY_2@ + TEXT_HEAD@ + text_arms(
        b,
        e.syms@,
        e.syms@.len() as int,
    ) + TEXT_TAIL@
}

// ---- The certificate ---------------------------------------------------

/// A symbol with a left binding power.
pub open spec fn has_power(s: Sym) -> bool {
    s.roles.infix is Some || s.roles.postfix_lbp is Some
}

/// `base` and a test for each operator among the first `n` symbols.
pub open spec fn logic_arms(base: Seq<char>, v: Seq<Sym>, n: int) -> Seq<char>
    decreases n,
{
    if n <= 0 {
        base
    } else {
        let s = logic_arms(base, v, n - 1);
        if has_power(v[n - 1]) {
            s + "if b == "@ + decimal(encode_utf8(v[n - 1].text@)[0] as nat) + "u8 { "@ + decimal(
                power_of(v[n - 1]) as nat,
            ) + " } else "@
        } else {
            s
        }
    }
}

/// `base` and a branch for each operator among the first `n` symbols.
pub open spec fn return_arms(base: Seq<char>, v: Seq<Sym>, n: int) -> Seq<char>
    decreases n,
{
    if n <= 0 {
        base
    } else {
        let s = return_arms(base, v, n - 1);
        if has_power(v[n - 1]) {
            s + decimal(encode_utf8(v[n - 1].text@)[0] as nat) + "u8 => return "@ + decimal(
                power_of(v[n - 1]) as nat,
            ) + ",\n            "@
        } else {
            s
        }
    }
}

/// The certificate: the template with the grammar's name and its operators
/// filled in.
pub open spec fn certificate_text(e: Emitter, template: Seq<char>) -> Seq<char> {
    let n = e.syms@.len() as int;
    let a = replaced(template, "/*@GRAMMAR@*/"@, e.spec.name@, 0);
    let b = replaced(
        a,
        "/*@LBP_OF_BYTE_LOGIC@*/"@,
        logic_arms(Seq::empty(), e.syms@, n) + "{ 0 }"@,
        0,
    );
    replaced(b, "/*@NEXT_TOKEN_LBP_OP@*/"@, return_arms(Seq::empty(), e.syms@, n), 0)
}

// ---- Writing -----------------------------------------------------------

fn put_number_arm(out: &mut String, variant: &String, n: u32)
    ensures
        final(out)@ == number_arm(old(out)@, variant@, n),
{
    out.append("        TokenKind::");
    out.append(variant.as_str());
    out.append(" => ");
    put_number(out, n as u64);
    out.append(",\n");
}

fn term_source(x: &Term) -> (r: String)
    ensures
        r@ == term_text(*x),
{
    match x {
        Term::Tok(s) => {
            let mut out: String = "Term::Tok(".to_owned();
            let q: String = quote(s.as_str());
            out.append(q.as_str());
            out.append(")");
            out
        },
        Term::Ident => "Term::Ident".to_owned(),
        Term::Expr => "Term::Expr".to_owned(),
        Term::Nt(i) => {
            let mut out: String = "Term::Nt(".to_owned();
            put_number(&mut out, *i as u64);
            out.append(")");
            out
        },
        Term::Rep(i) => {
            let mut out: String = "Term::Rep(".to_owned();
            put_number(&mut out, *i as u64);
            out.append(")");
            out
        },
    }
}

fn terms_source(v: &Vec<Term>) -> (r: String)
    ensures
        r@ == joined(term_texts(v@), ", "@, v@.len() as int),
{
    let mut pieces: Vec<String> = Vec::new();
    let mut i: usize = 0;
    while i < v.len()
        invariant
            i <= v@.len(),
            pieces@.len() == i,
            forall|k: int| 0 <= k < i ==> (#[trigger] pieces@[k])@ == term_text(v@[k]),
        decreases v@.len() - i,
    {
        pieces.push(term_source(&v[i]));
        i = i + 1;
    }
    assert(views(pieces@) =~= term_texts(v@));
    join(&pieces, ", ")
}

fn prods_source(v: &Vec<Production>) -> (out: String)
    ensures
        out@ == prod_lines(Seq::empty(), v@, v@.len() as int),
{
    let mut out: String = String::new();
    let mut p: usize = 0;
    while p < v.len()
        invariant
            p <= v@.len(),
            out@ == prod_lines(Seq::empty(), v@, p as int),
        decreases v@.len() - p,
    {
        let mut lines: String = String::new();
        let alts = &v[p].alts;
        let mut a: usize = 0;
        while a < alts.len()
            invariant
                a <= alts@.len(),
                lines@ == alt_lines(Seq::empty(), alts@, a as int),
            decreases alts@.len() - a,
        {
            lines.append("        Alt { terms: &[");
            let terms: String = terms_source(&alts[a].terms);
            lines.append(terms.as_str());
            lines.append("] },\n");
            a = a + 1;
        }
        out.append("    Production { name: ");
        let q: String = quote(v[p].name.as_str());
        out.append(q.as_str());
        out.append(", alts: &[\n");
        out.append(lines.as_str());
        out.append("    ] },\n");
        p = p + 1;
    }
    out
}

fn keywords_source(v: &Vec<String>) -> (r: String)
    ensures
        r@ == joined(quoted_all(v@), ", "@, v@.len() as int),
{
    let mut pieces: Vec<String> = Vec::new();
    let mut i: usize = 0;
    while i < v.len()
        invariant
            i <= v@.len(),
            pieces@.len() == i,
            forall|k: int| 0 <= k < i ==> (#[trigger] pieces@[k])@ == quoted(v@[k]@),
        decreases v@.len() - i,
    {
        pieces.push(quote(v[i].as_str()));
        i = i + 1;
    }
    assert(views(pieces@) =~= quoted_all(v@));
    join(&pieces, ", ")
}

fn bytes_source(v: &Vec<u8>) -> (r: String)
    ensures
        r@ == joined(byte_numbers(v@), ", "@, v@.len() as int),
{
    let mut pieces: Vec<String> = Vec::new();
    let mut i: usize = 0;
    while i < v.len()
        invariant
            i <= v@.len(),
            pieces@.len() == i,
            forall|k: int|
                0 <= k < i ==> (#[trigger] pieces@[k])@ == decimal(v@[k] as nat) + "u8"@,
        decreases v@.len() - i,
    {
        let mut x: String = String::new();
        put_number(&mut x, v[i] as u64);
        x.append("u8");
        proof {
            assert(Seq::<char>::empty() + decimal(v@[i as int] as nat) =~= decimal(
                v@[i as int] as nat,
            ));
        }
        pieces.push(x);
        i = i + 1;
    }
    assert(views(pieces@) =~= byte_numbers(v@));
    join(&pieces, ", ")
}

impl Emitter {
    /// The manifest of the parser's crate.
    pub fn gen_cargo_toml(&self) -> (out: String)
        ensures
            out@ == manifest_text(*self),
    {
        let mut out: String = MANIFEST_1.to_owned();
        out.append(self.spec.name.as_str());
        out.append(MANIFEST_2);
        out.append(self.spec.name.as_str());
        out.append(MANIFEST_3);
        out
    }

    /// The manifest of the certificate's crate.
    pub fn gen_creusot_cargo_toml(&self) -> (out: String)
        ensures
            out@ == certificate_manifest_text(*self),
    {
        let mut out: String = CERTIFICATE_MANIFEST_1.to_owned();
        out.append(self.spec.name.as_str());
        out.append(CERTIFICATE_MANIFEST_2);
        out.append(self.spec.name.as_str());
        out.append(CERTIFICATE_MANIFEST_3);
        out.append(CREUSOT_REV);
        out.append(CERTIFICATE_MANIFEST_4);
        out
    }

    /// The certificate, from its template.
    pub fn gen_creusot_lib(&self, template: &str) -> (out: String)
        requires
            forall|i: int|
                0 <= i < self.syms@.len() ==> encode_utf8((#[trigger] self.syms@[i]).text@).len()
                    == 1,
        ensures
            out@ == certificate_text(*self, template@),
    {
        let mut logic: String = String::new();
        let mut op: String = String::new();
        let mut i: usize = 0;
        while i < self.syms.len()
            invariant
                i <= self.syms@.len(),
                forall|i: int|
                    0 <= i < self.syms@.len() ==> encode_utf8(
                        (#[trigger] self.syms@[i]).text@,
                    ).len() == 1,
                logic@ == logic_arms(Seq::empty(), self.syms@, i as int),
                op@ == return_arms(Seq::empty(), self.syms@, i as int),
            decreases self.syms@.len() - i,
        {
            let s = &self.syms[i];
            if s.roles.infix.is_some() || s.roles.postfix_lbp.is_some() {
                let b: u8 = s.text.as_str().as_bytes()[0];
                let l: u32 = power(s);
                logic.append("if b == ");
                put_number(&mut logic, b as u64);
                logic.append("u8 { ");
                put_number(&mut logic, l as u64);
                logic.append(" } else ");
                put_number(&mut op, b as u64);
                op.append("u8 => return ");
                put_number(&mut op, l as u64);
                op.append(",\n            ");
            }
            i = i + 1;
        }
        logic.append("{ 0 }");
        proof {
            reveal_strlit("/*@GRAMMAR@*/");
            reveal_strlit("/*@LBP_OF_BYTE_LOGIC@*/");
            reveal_strlit("/*@NEXT_TOKEN_LBP_OP@*/");
        }
        let a: String = replace(template, "/*@GRAMMAR@*/", self.spec.name.as_str());
        let b: String = replace(a.as_str(), "/*@LBP_OF_BYTE_LOGIC@*/", logic.as_str());
        replace(b.as_str(), "/*@NEXT_TOKEN_LBP_OP@*/", op.as_str())
    }

    /// Texts of single tokens, an expression, and what it can be extended by.
    pub fn corpus(&self) -> (r: (String, String, String))
        ensures
            r.0@ == joined(pieces_of(*self), ", "@, pieces_of(*self).len() as int),
            r.1@ == quoted(atom_text(*self, 0)),
            r.2@ == quoted(grow_text(*self)),
    {
        let (a, b, c): (&str, &str, &str) = if self.spec.atoms.int {
            ("1", "2", "7")
        } else {
            ("a", "b", "x")
        };
        let mut pieces: Vec<String> = Vec::new();
        pieces.push(quote(a));
        pieces.push(quote(b));
        pieces.push(quote(c));
        let mut i: usize = 0;
        while i < self.syms.len()
            invariant
                i <= self.syms@.len(),
                pieces@.len() == i + 3,
                pieces@[0]@ == quoted(atom_text(*self, 0)),
                pieces@[1]@ == quoted(atom_text(*self, 1)),
                pieces@[2]@ == quoted(atom_text(*self, 2)),
                forall|k: int|
                    3 <= k < i + 3 ==> (#[trigger] pieces@[k])@ == quoted(self.syms@[k - 3].text@),
            decreases self.syms@.len() - i,
        {
            pieces.push(quote(self.syms[i].text.as_str()));
            i = i + 1;
        }
        pieces.push(quote(" "));
        assert(views(pieces@) =~= pieces_of(*self));
        let mut grow: String = String::new();
        match self.find_infix() {
            Some(op) => {
                grow = op.text.clone();
                grow.append(self.spec.paren.open.as_str());
                grow.append(a);
                grow.append(op.text.as_str());
                grow.append(b);
                grow.append(self.spec.paren.close.as_str());
            },
            None => {
                if let Some(s) = self.find_postfix() {
                    grow = s.text.clone();
                }
            },
        }
        (join(&pieces, ", "), quote(a), quote(grow.as_str()))
    }

    fn find_infix(&self) -> (r: Option<&Sym>)
        ensures
            first_infix(self.syms@, 0) == (match r {
                Some(s) => Some(s.text@),
                None => None,
            }),
    {
        let mut i: usize = 0;
        while i < self.syms.len()
            invariant
                i <= self.syms@.len(),
                first_infix(self.syms@, 0) == first_infix(self.syms@, i as int),
            decreases self.syms@.len() - i,
        {
            if self.syms[i].roles.infix.is_some() {
                return Some(&self.syms[i]);
            }
            i = i + 1;
        }
        None
    }

    fn find_postfix(&self) -> (r: Option<&Sym>)
        ensures
            first_postfix(self.syms@, 0) == (match r {
                Some(s) => Some(s.text@),
                None => None,
            }),
    {
        let mut i: usize = 0;
        while i < self.syms.len()
            invariant
                i <= self.syms@.len(),
                first_postfix(self.syms@, 0) == first_postfix(self.syms@, i as int),
            decreases self.syms@.len() - i,
        {
            if self.syms[i].roles.postfix_lbp.is_some() {
                return Some(&self.syms[i]);
            }
            i = i + 1;
        }
        None
    }

    fn variants(&self) -> (out: String)
        ensures
            out@ == variants_text(*self),
    {
        let mut out: String = String::new();
        if self.spec.atoms.int {
            out.append("    Int,\n");
        }
        if self.spec.atoms.ident {
            out.append("    Ident,\n");
        }
        let ghost base = out@;
        let mut i: usize = 0;
        while i < self.syms.len()
            invariant
                i <= self.syms@.len(),
                out@ == variant_lines(base, self.syms@, i as int),
            decreases self.syms@.len() - i,
        {
            out.append("    ");
            out.append(self.syms[i].roles.variant.as_str());
            out.append(",\n");
            i = i + 1;
        }
        out
    }

    fn lexer_arms(&self) -> (out: String)
        ensures
            out@ == lexer_arms(
                Seq::empty(),
                self.syms@,
                longest_first(self.syms@, self.syms@.len() as int),
                self.syms@.len() as int,
            ),
    {
        let order: Vec<usize> = order_of(&self.syms);
        let ghost places = longest_first(self.syms@, self.syms@.len() as int);
        let mut out: String = String::new();
        let mut i: usize = 0;
        while i < order.len()
            invariant
                i <= order@.len(),
                order@.len() == self.syms@.len(),
                places == self::places(order@),
                forall|i: int| 0 <= i < order@.len() ==> #[trigger] order@[i] < self.syms@.len(),
                out@ == lexer_arms(Seq::empty(), self.syms@, places, i as int),
            decreases order@.len() - i,
        {
            let s = &self.syms[order[i]];
            assert(places[i as int] == order@[i as int]);
            out.append(LEXER_ARM_1);
            let b: String = byte_literal(s.text.as_str());
            out.append(b.as_str());
            out.append(LEXER_ARM_2);
            out.append(s.roles.variant.as_str());
            out.append(LEXER_ARM_3);
            put_number(&mut out, s.text.as_str().as_bytes().len() as u64);
            out.append(LEXER_ARM_4);
            i = i + 1;
        }
        out
    }

    /// The lexer.
    pub fn gen_lexer(&self) -> (out: String)
        ensures
            out@ == lexer_text(*self),
    {
        let variants: String = self.variants();
        let arms: String = self.lexer_arms();
        let (pieces, seed, grow): (String, String, String) = self.corpus();
        let atom: String = quote(
            if self.spec.atoms.int {
                "1"
            } else {
                "a"
            },
        );
        let infix: String = match self.find_infix() {
            Some(s) => quote(s.text.as_str()),
            None => quote("+"),
        };
        let open: String = quote(self.spec.paren.open.as_str());
        let close: String = quote(self.spec.paren.close.as_str());
        let mut out: String = LEXER_1.to_owned();
        out.append(self.spec.name.as_str());
        out.append(LEXER_2);
        out.append(KINDS_HEAD);
        out.append(variants.as_str());
        out.append(KINDS_TAIL);
        out.append(LEXER_3);
        out.append(LEX_HEAD);
        out.append(arms.as_str());
        out.append(if self.spec.atoms.int { LEXER_INT } else { "" });
        out.append(if self.spec.atoms.ident { LEXER_IDENT } else { "" });
        out.append(LEX_TAIL);
        out.append(LEXER_4);
        out.append(PIECES_HEAD);
        out.append(pieces.as_str());
        out.append(LEXER_5);
        out.append(seed.as_str());
        out.append(LEXER_6);
        out.append(grow.as_str());
        out.append(LEXER_7);
        out.append(atom.as_str());
        out.append(LEXER_8);
        out.append(infix.as_str());
        out.append(LEXER_9);
        out.append(open.as_str());
        out.append(LEXER_10);
        out.append(close.as_str());
        out.append(LEXER_11);
        out
    }

    fn powers(&self) -> (out: String)
        ensures
            out@ == power_arms(
                Seq::empty(),
                self.syms@,
                longest_first(self.syms@, self.syms@.len() as int),
                self.syms@.len() as int,
            ),
    {
        let order: Vec<usize> = order_of(&self.syms);
        let ghost places = longest_first(self.syms@, self.syms@.len() as int);
        let mut out: String = String::new();
        let mut i: usize = 0;
        while i < order.len()
            invariant
                i <= order@.len(),
                order@.len() == self.syms@.len(),
                places == self::places(order@),
                forall|i: int| 0 <= i < order@.len() ==> #[trigger] order@[i] < self.syms@.len(),
                out@ == power_arms(Seq::empty(), self.syms@, places, i as int),
            decreases order@.len() - i,
        {
            let s = &self.syms[order[i]];
            assert(places[i as int] == order@[i as int]);
            out.append(POWER_ARM_1);
            let b: String = byte_literal(s.text.as_str());
            out.append(b.as_str());
            out.append(POWER_ARM_2);
            put_number(&mut out, power(s) as u64);
            out.append(POWER_ARM_3);
            i = i + 1;
        }
        out
    }

    fn atom_pattern(&self) -> (r: String)
        ensures
            r@ == or_pattern_text(atom_names(*self)),
    {
        let mut v: Vec<String> = Vec::new();
        if self.spec.atoms.int {
            v.push("Int".to_owned());
        }
        if self.spec.atoms.ident {
            v.push("Ident".to_owned());
        }
        assert(views(v@) =~= atom_names(*self));
        or_pattern(&v)
    }

    /// The operator tables.
    pub fn gen_op(&self) -> (out: String)
        ensures
            out@ == op_text(*self),
    {
        let mut lbp: String = String::new();
        let mut rbp: String = String::new();
        let mut prefix: String = String::new();
        let mut class: String = String::new();
        let mut prefix_variants: Vec<String> = Vec::new();
        let mut postfix_variants: Vec<String> = Vec::new();
        let mut open: String = String::new();
        let mut close: String = String::new();
        let n: usize = self.syms.len();
        let mut i: usize = 0;
        proof {
            assert(views(prefix_variants@) =~= Seq::empty());
            assert(views(postfix_variants@) =~= Seq::empty());
        }
        while i < n
            invariant
                n == self.syms@.len(),
                i <= n,
                lbp@ == lbp_arms(Seq::empty(), self.syms@, i as int),
                rbp@ == rbp_arms(Seq::empty(), self.syms@, i as int),
                prefix@ == prefix_arms(Seq::empty(), self.syms@, i as int),
                class@ == class_arms(Seq::empty(), self.syms@, i as int),
                views(prefix_variants@) == prefix_names(self.syms@, i as int),
                views(postfix_variants@) == postfix_names(self.syms@, i as int),
                open@ == open_name(self.syms@, i as int),
                close@ == close_name(self.syms@, i as int),
            decreases n - i,
        {
            let r = &self.syms[i].roles;
            if let Some(x) = &r.infix {
                put_number_arm(&mut lbp, &r.variant, x.lbp);
                put_number_arm(&mut rbp, &r.variant, x.rbp);
                class.append("        TokenKind::");
                class.append(r.variant.as_str());
                class.append(" => OperatorClass::");
                class.append(class_source(x.class));
                class.append(",\n");
            }
            if let Some(l) = r.postfix_lbp {
                put_number_arm(&mut lbp, &r.variant, l);
                let ghost before = postfix_variants@;
                postfix_variants.push(r.variant.clone());
                assert(views(postfix_variants@) =~= views(before).push(r.variant@));
            }
            if let Some(x) = r.prefix_rbp {
                put_number_arm(&mut prefix, &r.variant, x);
                let ghost before = prefix_variants@;
                prefix_variants.push(r.variant.clone());
                assert(views(prefix_variants@) =~= views(before).push(r.variant@));
            }
            if r.open_paren {
                open = r.variant.clone();
            }
            if r.close_paren {
                close = r.variant.clone();
            }
            i = i + 1;
        }
        let atoms: String = self.atom_pattern();
        let prefix_pat: String = or_pattern(&prefix_variants);
        let postfix_pat: String = or_pattern(&postfix_variants);
        let powers: String = self.powers();
        let mut out: String = OPERATORS_1.to_owned();
        out.append(self.spec.name.as_str());
        out.append(OPERATORS_2);
        out.append(FLOORS);
        out.append(OPERATORS_3);
        out.append(LBP_HEAD);
        out.append(lbp.as_str());
        out.append(LBP_TAIL);
        out.append(OPERATORS_4);
        out.append(RBP_HEAD);
        out.append(rbp.as_str());
        out.append(RBP_TAIL);
        out.append(OPERATORS_5);
        out.append(PREFIX_HEAD);
        out.append(prefix.as_str());
        out.append(PREFIX_TAIL);
        out.append(OPERATORS_6);
        out.append(CLASS_HEAD);
        out.append(class.as_str());
        out.append(CLASS_TAIL);
        out.append(OPERATORS_7);
        out.append(ATOM_HEAD);
        out.append(atoms.as_str());
        out.append(TEST_TAIL);
        out.append(PREFIX_TEST_HEAD);
        out.append(prefix_pat.as_str());
        out.append(TEST_TAIL);
        out.append(POSTFIX_TEST_HEAD);
        out.append(postfix_pat.as_str());
        out.append(TEST_TAIL);
        out.append(OPEN_HEAD);
        out.append(open.as_str());
        out.append(TEST_TAIL);
        out.append(CLOSE_HEAD);
        out.append(close.as_str());
        out.append(CLOSE_TAIL);
        out.append(OPERATORS_8);
        out.append(POWER_HEAD);
        out.append(powers.as_str());
        out.append(POWER_TAIL);
        out
    }

    /// The statement grammar as source.
    pub fn gen_host_grammar(&self) -> (out: String)
        requires
            self.host.wf(),
            sample_ok(self.host),
        ensures
            out@ == host_text(*self),
    {
        let prods: String = prods_source(&self.host.prods);
        let keywords: String = keywords_source(&self.host.keywords);
        let punct: String = bytes_source(&self.host.punct_bytes);
        let program: String = self.sample_program();
        let sample: String = quote(program.as_str());
        let mut out: String = HOST_1.to_owned();
        out.append(self.spec.name.as_str());
        out.append(HOST_2);
        out.append(GRAMMAR_HEAD);
        put_number(&mut out, self.host.start as u64);
        out.append(HOST_3);
        out.append(keywords.as_str());
        out.append(HOST_4);
        out.append(punct.as_str());
        out.append(HOST_5);
        out.append(prods.as_str());
        out.append(GRAMMAR_TAIL);
        out.append(HOST_6);
        out.append(SAMPLE_HEAD);
        out.append(sample.as_str());
        out.append(HOST_7);
        out
    }

    /// How tokens are shown, as source.
    pub fn gen_grammar_text(&self) -> (out: String)
        ensures
            out@ == display_text(*self),
    {
        let mut arms: String = String::new();
        if self.spec.atoms.int {
            arms.append("        TokenKind::Int => \"<int>\",\n");
        }
        if self.spec.atoms.ident {
            arms.append("        TokenKind::Ident => \"<id>\",\n");
        }
        let ghost base = arms@;
        let mut i: usize = 0;
        while i < self.syms.len()
            invariant
                i <= self.syms@.len(),
                arms@ == text_arms(base, self.syms@, i as int),
            decreases self.syms@.len() - i,
        {
            arms.append("        TokenKind::");
            arms.append(self.syms[i].roles.variant.as_str());
            arms.append(" => ");
            let q: String = quote(self.syms[i].text.as_str());
            arms.append(q.as_str());
            arms.append(",\n");
            i = i + 1;
        }
        let mut out: String = DISPLAY_1.to_owned();
        out.append(self.spec.name.as_str());
        out.append(DISPLAY_2);
        out.append(TEXT_HEAD);
        out.append(arms.as_str());
        out.append(TEXT_TAIL);
        out
    }
}

fn power(s: &Sym) -> (r: u32)
    ensures
        r == power_of(*s),
{
    match &s.roles.infix {
        Some(x) => x.lbp,
        None => match s.roles.postfix_lbp {
            Some(l) => l,
            None => 0,
        },
    }
}

fn class_source(c: OperatorClass) -> (r: &'static str)
    ensures
        r@ == class_name(c),
{
    match c {
        OperatorClass::AssociativityConflict => "AssociativityConflict",
        OperatorClass::Strong => "Strong",
        OperatorClass::Weak => "Weak",
    }
}

} // verus!
