//! What ends an expression in a statement, and the statements of a specification that
//! gives none.

use vstd::prelude::*;
use vstd::utf8::*;

use crate::generator::host_model::{
    alt_terms, clashes, expr_byte, host_names, index_in, is_default, word_term, words_terms,
    TermModel, Terms,
};
use crate::generator::spec::{Host, Spec};
use crate::generator::symbols::Sym;
use crate::generator::text::{is_white, views, word_stop, words_from};

verus! {

/// A byte can be part of a number.
pub open spec fn of_number(b: u8) -> bool {
    '0' as u8 <= b <= '9' as u8
}

/// A byte can begin a name.
pub open spec fn of_name(b: u8) -> bool {
    'a' as u8 <= b <= 'z' as u8 || 'A' as u8 <= b <= 'Z' as u8 || b == '_' as u8
}

/// A literal ends an expression exactly if none of its bytes, wherever it stands, is of a
/// symbol, of a number where those are atoms, or of a name where those are.
pub proof fn law_terminator(spec: Spec, syms: Seq<Sym>, s: Seq<char>)
    ensures
        !clashes(spec, syms, s) <==> forall|k: int|
            0 <= k < encode_utf8(s).len() ==> {
                let b = #[trigger] encode_utf8(s)[k];
                &&& spec.atoms.int ==> !of_number(b)
                &&& spec.atoms.ident ==> !of_name(b)
                &&& forall|i: int|
                    0 <= i < syms.len() ==> !encode_utf8((#[trigger] syms[i]).text@).contains(b)
            },
{
    if clashes(spec, syms, s) {
        let k = choose|k: int|
            0 <= k < encode_utf8(s).len() && expr_byte(spec, syms, #[trigger] encode_utf8(s)[k]);
        let b = encode_utf8(s)[k];
        assert(expr_byte(spec, syms, b));
    } else {
        assert forall|k: int| 0 <= k < encode_utf8(s).len() implies {
            let b = #[trigger] encode_utf8(s)[k];
            &&& spec.atoms.int ==> !of_number(b)
            &&& spec.atoms.ident ==> !of_name(b)
            &&& forall|i: int|
                0 <= i < syms.len() ==> !encode_utf8((#[trigger] syms[i]).text@).contains(b)
        } by {
            assert(!expr_byte(spec, syms, encode_utf8(s)[k]));
        }
    }
}

/// The terms of a statement that binds a name.
pub open spec fn binding() -> Terms {
    seq![
        TermModel::Tok("let"@),
        TermModel::Ident,
        TermModel::Tok("="@),
        TermModel::Expr,
        TermModel::Tok(";"@),
    ]
}

/// A program, where nothing else is said, is any number of statements; a statement binds a
/// name to an expression, or is a block of statements, or is an expression.
pub proof fn law_default_statements(h: Host, prod: Seq<char>)
    requires
        is_default(h),
    ensures
        ({
            let names = host_names(h.prods@);
            let (programs, stmts) = (views(h.prods@[0].alts@), views(h.prods@[1].alts@));
            &&& names == seq![h.start@, "stmt"@]
            &&& programs.len() == 1
            &&& stmts.len() == 3
            &&& alt_terms(names, prod, programs[0]) == Ok::<Terms, Seq<char>>(
                seq![TermModel::Rep(1)],
            )
            &&& alt_terms(names, prod, stmts[0]) == Ok::<Terms, Seq<char>>(binding())
            &&& alt_terms(names, prod, stmts[1]) == Ok::<Terms, Seq<char>>(
                seq![TermModel::Tok("{"@), TermModel::Rep(1), TermModel::Tok("}"@)],
            )
            &&& alt_terms(names, prod, stmts[2]) == Ok::<Terms, Seq<char>>(
                seq![TermModel::Expr, TermModel::Tok(";"@)],
            )
        }),
{
    let names = host_names(h.prods@);
    assert(names =~= seq!["program"@, "stmt"@]);
    lemma_program(names, prod);
    lemma_binding(names, prod);
    lemma_block(names, prod);
    lemma_expression(names, prod);
}

proof fn lemma_program(names: Seq<Seq<char>>, prod: Seq<char>)
    requires
        names == seq!["program"@, "stmt"@],
    ensures
        alt_terms(names, prod, "stmt*"@) == Ok::<Terms, Seq<char>>(seq![TermModel::Rep(1)]),
{
    reveal_strlit("stmt*");
    let s = "stmt*"@;
    lemma_word(s, 0, 5);
    assert(s.subrange(0, 5) =~= s);
    assert(words_from(s, 0) =~= seq![s]);
    lemma_repeated(names, prod);
    reveal_with_fuel(words_terms, 2);
    assert(alt_terms(names, prod, s)->Ok_0 =~= seq![TermModel::Rep(1)]);
}

proof fn lemma_repeated(names: Seq<Seq<char>>, prod: Seq<char>)
    requires
        names == seq!["program"@, "stmt"@],
    ensures
        word_term(names, prod, "stmt*"@) == Ok::<TermModel, Seq<char>>(TermModel::Rep(1)),
{
    reveal_strlit("stmt*");
    reveal_strlit("stmt");
    reveal_strlit("program");
    reveal_strlit("expr");
    reveal_strlit("ident");
    let s = "stmt*"@;
    assert(s[0] == 's' && s[4] == '*');
    assert("ident"@[0] == 'i');
    assert(s.drop_last() =~= "stmt"@);
    assert("program"@.len() == 7 && "stmt"@.len() == 4);
    reveal_with_fuel(index_in, 3);
}

proof fn lemma_literal(names: Seq<Seq<char>>, prod: Seq<char>, w: Seq<char>, s: Seq<char>)
    requires
        w == seq!['\''] + s + seq!['\''],
        s.len() > 0,
    ensures
        word_term(names, prod, w) == Ok::<TermModel, Seq<char>>(TermModel::Tok(s)),
{
    assert(w.subrange(1, w.len() - 1) =~= s);
    assert(w[0] == '\'' && w.last() == '\'');
}

/// A word, and the words after the blank that ends it.
proof fn lemma_word(s: Seq<char>, i: int, j: int)
    requires
        0 <= i < j <= s.len(),
        forall|k: int| i <= k < j ==> !is_white(#[trigger] s[k]),
        j == s.len() || is_white(s[j]),
    ensures
        words_from(s, i) == seq![s.subrange(i, j)] + words_from(s, j + 1),
{
    lemma_stop(s, i, j);
    assert(!is_white(s[i]));
    if j < s.len() {
        assert(words_from(s, j) == words_from(s, j + 1));
    } else {
        assert(words_from(s, j) =~= Seq::empty());
        assert(words_from(s, j + 1) =~= Seq::empty());
    }
}

proof fn lemma_stop(s: Seq<char>, i: int, j: int)
    requires
        0 <= i <= j <= s.len(),
        forall|k: int| i <= k < j ==> !is_white(#[trigger] s[k]),
        j == s.len() || is_white(s[j]),
    ensures
        word_stop(s, i) == j,
    decreases j - i,
{
    if i < j {
        lemma_stop(s, i + 1, j);
        assert(!is_white(s[i]));
    }
}

proof fn lemma_binding(names: Seq<Seq<char>>, prod: Seq<char>)
    ensures
        alt_terms(names, prod, "'let' ident '=' expr ';'"@) == Ok::<Terms, Seq<char>>(binding()),
{
    reveal_strlit("'let' ident '=' expr ';'");
    reveal_strlit("let");
    reveal_strlit("=");
    reveal_strlit(";");
    reveal_strlit("ident");
    reveal_strlit("expr");
    let s = "'let' ident '=' expr ';'"@;
    assert(s.len() == 24);
    lemma_word(s, 0, 5);
    lemma_word(s, 6, 11);
    lemma_word(s, 12, 15);
    lemma_word(s, 16, 20);
    lemma_word(s, 21, 24);
    let ws = seq![
        s.subrange(0, 5),
        s.subrange(6, 11),
        s.subrange(12, 15),
        s.subrange(16, 20),
        s.subrange(21, 24),
    ];
    assert(words_from(s, 25) =~= Seq::empty());
    assert(words_from(s, 0) =~= ws);
    assert(ws[0] =~= seq!['\''] + "let"@ + seq!['\'']);
    assert(ws[1] =~= "ident"@);
    assert(ws[2] =~= seq!['\''] + "="@ + seq!['\'']);
    assert(ws[3] =~= "expr"@);
    assert(ws[4] =~= seq!['\''] + ";"@ + seq!['\'']);
    lemma_literal(names, prod, ws[0], "let"@);
    lemma_literal(names, prod, ws[2], "="@);
    lemma_literal(names, prod, ws[4], ";"@);
    assert("ident"@[0] == 'i' && "expr"@[0] == 'e');
    reveal_with_fuel(words_terms, 6);
    assert(alt_terms(names, prod, s)->Ok_0 =~= binding());
}

proof fn lemma_block(names: Seq<Seq<char>>, prod: Seq<char>)
    requires
        names == seq!["program"@, "stmt"@],
    ensures
        alt_terms(names, prod, "'{' stmt* '}'"@) == Ok::<Terms, Seq<char>>(
            seq![TermModel::Tok("{"@), TermModel::Rep(1), TermModel::Tok("}"@)],
        ),
{
    reveal_strlit("'{' stmt* '}'");
    reveal_strlit("{");
    reveal_strlit("}");
    reveal_strlit("stmt*");
    let s = "'{' stmt* '}'"@;
    assert(s.len() == 13);
    lemma_word(s, 0, 3);
    lemma_word(s, 4, 9);
    lemma_word(s, 10, 13);
    let ws = seq![s.subrange(0, 3), s.subrange(4, 9), s.subrange(10, 13)];
    assert(words_from(s, 14) =~= Seq::empty());
    assert(words_from(s, 0) =~= ws);
    assert(ws[0] =~= seq!['\''] + "{"@ + seq!['\'']);
    assert(ws[1] =~= "stmt*"@);
    assert(ws[2] =~= seq!['\''] + "}"@ + seq!['\'']);
    lemma_literal(names, prod, ws[0], "{"@);
    lemma_literal(names, prod, ws[2], "}"@);
    lemma_repeated(names, prod);
    reveal_with_fuel(words_terms, 4);
    assert(alt_terms(names, prod, s)->Ok_0 =~= seq![
        TermModel::Tok("{"@),
        TermModel::Rep(1),
        TermModel::Tok("}"@),
    ]);
}

proof fn lemma_expression(names: Seq<Seq<char>>, prod: Seq<char>)
    ensures
        alt_terms(names, prod, "expr ';'"@) == Ok::<Terms, Seq<char>>(
            seq![TermModel::Expr, TermModel::Tok(";"@)],
        ),
{
    reveal_strlit("expr ';'");
    reveal_strlit(";");
    reveal_strlit("expr");
    let s = "expr ';'"@;
    assert(s.len() == 8);
    lemma_word(s, 0, 4);
    lemma_word(s, 5, 8);
    let ws = seq![s.subrange(0, 4), s.subrange(5, 8)];
    assert(words_from(s, 9) =~= Seq::empty());
    assert(words_from(s, 0) =~= ws);
    assert(ws[0] =~= "expr"@);
    assert(ws[1] =~= seq!['\''] + ";"@ + seq!['\'']);
    lemma_literal(names, prod, ws[1], ";"@);
    assert("expr"@[0] == 'e');
    reveal_with_fuel(words_terms, 3);
    assert(alt_terms(names, prod, s)->Ok_0 =~= seq![TermModel::Expr, TermModel::Tok(";"@)]);
}

} // verus!
