//! What the emitted crate is exercised with, and its name.

use vstd::prelude::*;

use crate::generator::emit::{
    atom_text, certificate_manifest_text, first_infix, first_postfix, grow_text, infix_text,
    lexer_text, lexer_through_lex, manifest_text, pieces_of,
};
use crate::generator::emitted_host::{comma_list, lemma_comma_list, lemma_regroup};
use crate::generator::emitter::Emitter;
use crate::generator::symbols::Sym;
use crate::generator::templates::{
    CERTIFICATE_MANIFEST_3, CERTIFICATE_MANIFEST_4, CREUSOT_REV, LEXER_4, MANIFEST_3,
};
use crate::generator::text::quoted;

verus! {

/// Symbol `i` stands between operands.
pub open spec fn is_infix_symbol(v: Seq<Sym>, i: int) -> bool {
    0 <= i < v.len() && v[i].roles.infix is Some
}

/// Symbol `i` stands after an operand.
pub open spec fn is_postfix_symbol(v: Seq<Sym>, i: int) -> bool {
    0 <= i < v.len() && v[i].roles.postfix_lbp is Some
}

/// What the corpus is made of: three atoms that differ, digits where numbers are atoms and
/// else letters.
pub proof fn law_corpus_atoms(e: Emitter, i: int, j: int)
    requires
        0 <= i < j < 3,
    ensures
        atom_text(e, i) != atom_text(e, j),
        atom_text(e, i).len() == 1,
        atom_text(e, j).len() == 1,
        e.spec.atoms.int ==> '0' <= atom_text(e, i)[0] <= '9' && '0' <= atom_text(e, j)[0] <= '9',
        !e.spec.atoms.int ==> 'a' <= atom_text(e, i)[0] <= 'z' && 'a' <= atom_text(e, j)[0] <= 'z',
{
    reveal_strlit("1");
    reveal_strlit("2");
    reveal_strlit("7");
    reveal_strlit("a");
    reveal_strlit("b");
    reveal_strlit("x");
    assert(atom_text(e, i)[0] != atom_text(e, j)[0]);
}

/// An expression grows by an operator that stands between operands and a group of two
/// atoms around the same operator; where there is no such operator, by one that stands
/// after an operand; and else not at all.
pub proof fn law_growth(e: Emitter)
    ensures
        ({
            let v = e.syms@;
            if exists|i: int| is_infix_symbol(v, i) {
                exists|i: int| #[trigger]
                    is_infix_symbol(v, i) && infix_text(e) == v[i].text@ && grow_text(e)
                        == v[i].text@ + (e.spec.paren.open@ + (atom_text(e, 0) + v[i].text@
                        + atom_text(e, 1)) + e.spec.paren.close@)
            } else if exists|i: int| is_postfix_symbol(v, i) {
                exists|i: int| #[trigger] is_postfix_symbol(v, i) && grow_text(e) == v[i].text@
            } else {
                grow_text(e) == Seq::<char>::empty()
            }
        }),
{
    let v = e.syms@;
    lemma_first_infix(v, 0);
    lemma_first_postfix(v, 0);
    if exists|i: int| is_infix_symbol(v, i) {
        let k = choose|i: int| is_infix_symbol(v, i);
        let op = first_infix(v, 0)->0;
        let i = choose|i: int| 0 <= i && is_infix_symbol(v, i) && first_infix(v, 0) == Some(
            v[i].text@,
        );
        assert(is_infix_symbol(v, i));
        assert(grow_text(e) =~= op + (e.spec.paren.open@ + (atom_text(e, 0) + op + atom_text(e, 1))
            + e.spec.paren.close@));
    } else if exists|i: int| is_postfix_symbol(v, i) {
        let k = choose|i: int| is_postfix_symbol(v, i);
        let i = choose|i: int| 0 <= i && is_postfix_symbol(v, i) && first_postfix(v, 0) == Some(
            v[i].text@,
        );
        assert(is_postfix_symbol(v, i));
    }
}

proof fn lemma_first_infix(v: Seq<Sym>, j: int)
    requires
        0 <= j,
    ensures
        match first_infix(v, j) {
            Some(s) => exists|i: int| j <= i && #[trigger] is_infix_symbol(v, i) && v[i].text@ == s,
            None => forall|i: int| j <= i ==> !#[trigger] is_infix_symbol(v, i),
        },
    decreases v.len() - j,
{
    if j < v.len() {
        lemma_first_infix(v, j + 1);
        if v[j].roles.infix is Some {
            assert(is_infix_symbol(v, j));
        }
    }
}

proof fn lemma_first_postfix(v: Seq<Sym>, j: int)
    requires
        0 <= j,
    ensures
        match first_postfix(v, j) {
            Some(s) => exists|i: int|
                j <= i && #[trigger] is_postfix_symbol(v, i) && v[i].text@ == s,
            None => forall|i: int| j <= i ==> !#[trigger] is_postfix_symbol(v, i),
        },
    decreases v.len() - j,
{
    if j < v.len() {
        lemma_first_postfix(v, j + 1);
        if v[j].roles.postfix_lbp is Some {
            assert(is_postfix_symbol(v, j));
        }
    }
}

/// Texts as a list of literals.
pub open spec fn literals(texts: Seq<Seq<char>>) -> Seq<char> {
    comma_list(Seq::new(texts.len(), |i: int| quoted(texts[i])))
}

/// The emitted corpus: the pieces are the three atoms, every symbol and a blank; the seed
/// is an atom, and so is that of nested sources, which are built with the operator that an
/// expression grows by and the grammar's parentheses.
pub proof fn law_emitted_corpus(e: Emitter)
    ensures
        ({
            let v = e.syms@;
            let atoms = seq![atom_text(e, 0), atom_text(e, 1), atom_text(e, 2)];
            lexer_text(e) == lexer_through_lex(e) + LEXER_4@ + ("pub const PIECES: &[&str] = &["@
                + literals(atoms + Seq::new(v.len(), |i: int| v[i].text@) + seq![" "@])) + "];\n\
    /// A minimal valid expression and a growth suffix that keeps it valid.\n\
    pub const SEED_EXPR: &str = "@ + quoted(atom_text(e, 0)) + ";\npub const GROW: &str = "@
                + quoted(grow_text(e)) + ";\n\
    /// Building blocks for a balanced nested bench source.\n\
    pub const ATOM: &str = "@ + quoted(atom_text(e, 0)) + ";\npub const INFIX: &str = "@ + quoted(
                infix_text(e),
            ) + ";\npub const POPEN: &str = "@ + quoted(e.spec.paren.open@)
                + ";\npub const PCLOSE: &str = "@ + quoted(e.spec.paren.close@) + ";\n"@
        }),
{
    let v = e.syms@;
    let texts = seq![atom_text(e, 0), atom_text(e, 1), atom_text(e, 2)] + Seq::new(
        v.len(),
        |i: int| v[i].text@,
    ) + seq![" "@];
    let shown = Seq::new(texts.len(), |i: int| quoted(texts[i]));
    assert(shown =~= pieces_of(e));
    lemma_comma_list(shown, shown.len() as int);
    assert(shown.take(shown.len() as int) =~= shown);
    lemma_regroup(
        lexer_through_lex(e) + LEXER_4@,
        "pub const PIECES: &[&str] = &["@,
        comma_list(shown),
    );
}

/// The crate is named after the grammar, and says what it was made from.
pub proof fn law_manifest_named(e: Emitter)
    ensures
        manifest_text(e) == "# GENERATED by incremental-pratt-gen from grammars/"@ + e.spec.name@
            + (".toml\n[package]\nname = \"ip_"@ + e.spec.name@) + MANIFEST_3@,
        certificate_manifest_text(e) == "# GENERATED Creusot certificate crate for grammar `"@
            + e.spec.name@ + "`.\n\
    # Verify with: cargo creusot   (expects `Proved (N files)`)\n\
    [package]\n\
    name = \"ip_"@ + e.spec.name@ + CERTIFICATE_MANIFEST_3@ + CREUSOT_REV@
            + CERTIFICATE_MANIFEST_4@,
{
    assert(manifest_text(e) =~= "# GENERATED by incremental-pratt-gen from grammars/"@
        + e.spec.name@ + (".toml\n[package]\nname = \"ip_"@ + e.spec.name@) + MANIFEST_3@);
}

} // verus!
