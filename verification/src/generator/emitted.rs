//! What the emitted sources say: their functions over token kinds, read as tables,
//! are the grammar's.

use vstd::prelude::*;
use vstd::string::*;
use vstd::utf8::*;

use crate::generator::emit::{
    atom_names, byte_length, class_arms, close_name, display_text, kinds, law_longest_first,
    lbp_arms, lexer_arms, lexer_text, lexer_through_kinds, lexer_through_lex, longest_first,
    open_name, op_text, op_through_atoms, op_through_class, op_through_groups, op_through_lbp,
    op_through_postfixes, op_through_prefix, op_through_prefixes, op_through_rbp, or_pattern_text,
    postfix_names, power_arms, power_of, prefix_arms, prefix_names, rbp_arms, text_arms,
    variant_lines, variants_text,
};
use crate::generator::emitter::Emitter;
use crate::generator::symbols::{
    law_variant_unique, lemma_precedes_total, precedes, roles_ok, texts, variant_of, Sym,
};
use crate::generator::templates::{
    DISPLAY_1, DISPLAY_2, FLOORS, LEXER_1, LEXER_2, LEXER_3, OPERATORS_1, OPERATORS_2, OPERATORS_3,
    OPERATORS_4, OPERATORS_5, OPERATORS_6, OPERATORS_7, OPERATORS_8,
};
use crate::generator::spec::class_name;
use crate::generator::text::{decimal, joined, quoted};
use crate::runtime::table::{OperatorClass, Table, TokenKind};

verus! {

// ---- Texts -------------------------------------------------------------

/// `part` stands somewhere in `text`.
pub open spec fn holds_text(text: Seq<char>, part: Seq<char>) -> bool {
    exists|i: int| #[trigger] stands_at(text, part, i)
}

/// `part` stands at place `i` of `text`.
pub open spec fn stands_at(text: Seq<char>, part: Seq<char>, i: int) -> bool {
    0 <= i && i + part.len() <= text.len() && text.subrange(i, i + part.len()) == part
}

proof fn lemma_holds_more(text: Seq<char>, more: Seq<char>, part: Seq<char>)
    ensures
        holds_text(text, part) ==> holds_text(text + more, part),
{
    if holds_text(text, part) {
        let i = choose|i: int| #[trigger] stands_at(text, part, i);
        assert((text + more).subrange(i, i + part.len()) =~= part);
        assert(stands_at(text + more, part, i));
    }
}

proof fn lemma_holds_last(pre: Seq<char>, head: Seq<char>, body: Seq<char>, tail: Seq<char>)
    ensures
        holds_text(pre + head + body + tail, head + body + tail),
{
    let text = pre + head + body + tail;
    let part = head + body + tail;
    assert(text.subrange(pre.len() as int, (pre.len() + part.len()) as int) =~= part);
    assert(stands_at(text, part, pre.len() as int));
}

// ---- Tables ------------------------------------------------------------

/// A line of a `match` over the kinds of tokens.
pub ghost struct Arm {
    pub variant: Seq<char>,
    pub value: Seq<char>,
}

/// The lines, one after the other.
pub open spec fn arms_text(arms: Seq<Arm>) -> Seq<char>
    decreases arms.len(),
{
    if arms.len() == 0 {
        Seq::empty()
    } else {
        arms_text(arms.drop_last()) + "        TokenKind::"@ + arms.last().variant + " => "@
            + arms.last().value + ",\n"@
    }
}

/// `text` holds a function that begins with `head`, with these lines, then `tail`.
pub open spec fn emits(text: Seq<char>, head: Seq<char>, arms: Seq<Arm>, tail: Seq<char>) -> bool {
    holds_text(text, head + arms_text(arms) + tail)
}

/// The name of symbol `i` among the kinds of tokens.
pub open spec fn variant(e: Emitter, i: int) -> Seq<char> {
    variant_of(e.syms@[i].text@)
}

/// A `match` with these lines answers `f(i)` for every symbol `i`: it has one line for
/// each that `f` gives something for, with that, and no other line.
pub open spec fn answers(e: Emitter, arms: Seq<Arm>, f: spec_fn(int) -> Option<Seq<char>>) -> bool {
    &&& forall|j: int, k: int|
        0 <= j < k < arms.len() ==> (#[trigger] arms[j]).variant != (#[trigger] arms[k]).variant
    &&& forall|i: int|
        0 <= i < e.syms@.len() ==> match #[trigger] f(i) {
            Some(x) => arms.contains(Arm { variant: variant(e, i), value: x }),
            None => forall|j: int|
                0 <= j < arms.len() ==> (#[trigger] arms[j]).variant != variant(e, i),
        }
    &&& forall|j: int| 0 <= j < arms.len() ==> names_one(e, (#[trigger] arms[j]).variant, f)
}

/// `x` is the name of a symbol that `f` gives something for.
pub open spec fn names_one(
    e: Emitter,
    x: Seq<char>,
    f: spec_fn(int) -> Option<Seq<char>>,
) -> bool {
    exists|i: int| 0 <= i < e.syms@.len() && variant(e, i) == x && (#[trigger] f(i)) is Some
}

/// `t` is the table of the emitter's expression grammar.
pub open spec fn is_table_of(e: Emitter, t: Table) -> bool {
    &&& t.syms@.len() == e.syms@.len()
    &&& e.syms@.len() <= u32::MAX
    &&& forall|i: int| 0 <= i < t.syms@.len() ==> e.symbol_ok(i, #[trigger] t.syms@[i])
    &&& t.int == e.spec.atoms.int
    &&& t.ident == e.spec.atoms.ident
    &&& t.open < t.syms@.len()
    &&& t.close < t.syms@.len()
    &&& t.syms@[t.open as int].name@ == e.spec.paren.open@
    &&& t.syms@[t.close as int].name@ == e.spec.paren.close@
}

/// The kind of symbol `i`.
pub open spec fn sym(i: int) -> TokenKind {
    TokenKind::Sym(i as u32)
}

/// The symbols among the first `n` that `f` gives something for.
spec fn who(f: spec_fn(int) -> Option<Seq<char>>, n: int) -> Seq<int>
    decreases n,
{
    if n <= 0 {
        Seq::empty()
    } else if f(n - 1) is Some {
        who(f, n - 1).push(n - 1)
    } else {
        who(f, n - 1)
    }
}

proof fn lemma_who(f: spec_fn(int) -> Option<Seq<char>>, n: int)
    ensures
        forall|j: int|
            0 <= j < who(f, n).len() ==> 0 <= #[trigger] who(f, n)[j] < n && f(who(f, n)[j]) is Some,
        forall|j: int, k: int|
            0 <= j < k < who(f, n).len() ==> #[trigger] who(f, n)[j] < #[trigger] who(f, n)[k],
        forall|i: int| 0 <= i < n && (#[trigger] f(i)) is Some ==> who(f, n).contains(i),
    decreases n,
{
    if n > 0 {
        lemma_who(f, n - 1);
        let (w, x) = (who(f, n - 1), who(f, n));
        assert forall|i: int| 0 <= i < n && (#[trigger] f(i)) is Some implies x.contains(i) by {
            if i < n - 1 {
                let j = choose|j: int| 0 <= j < w.len() && w[j] == i;
                assert(x[j] == i);
            } else {
                assert(x[w.len() as int] == i);
            }
        }
    }
}

spec fn arms_of(e: Emitter, f: spec_fn(int) -> Option<Seq<char>>, w: Seq<int>) -> Seq<Arm> {
    Seq::new(w.len(), |j: int| Arm { variant: variant(e, w[j]), value: f(w[j])->0 })
}

/// Different symbols have different names.
proof fn lemma_variants(e: Emitter, i: int, j: int)
    requires
        e.wf(),
        0 <= i < e.syms@.len(),
        0 <= j < e.syms@.len(),
        i != j,
    ensures
        variant(e, i) != variant(e, j),
        e.syms@[i].text@ != e.syms@[j].text@,
{
    let (a, b) = (e.syms@[i].text@, e.syms@[j].text@);
    assert(texts(e.syms@)[i] == a && texts(e.syms@)[j] == b);
    lemma_precedes_total(a, a);
    if i < j {
        assert(precedes(a, b));
    } else {
        assert(precedes(b, a));
    }
    law_variant_unique(a, b);
}

proof fn lemma_answers(e: Emitter, f: spec_fn(int) -> Option<Seq<char>>)
    requires
        e.wf(),
    ensures
        answers(e, arms_of(e, f, who(f, e.syms@.len() as int)), f),
{
    let n = e.syms@.len() as int;
    let w = who(f, n);
    let arms = arms_of(e, f, w);
    lemma_who(f, n);
    assert forall|j: int, k: int| 0 <= j < k < arms.len() implies (#[trigger] arms[j]).variant != (
    #[trigger] arms[k]).variant by {
        lemma_variants(e, w[j], w[k]);
    }
    assert forall|i: int| 0 <= i < n implies match #[trigger] f(i) {
        Some(x) => arms.contains(Arm { variant: variant(e, i), value: x }),
        None => forall|j: int| 0 <= j < arms.len() ==> (#[trigger] arms[j]).variant != variant(e, i),
    } by {
        if f(i) is Some {
            let j = choose|j: int| 0 <= j < w.len() && w[j] == i;
            assert(arms[j] == Arm { variant: variant(e, i), value: f(i)->0 });
        } else {
            assert forall|j: int| 0 <= j < arms.len() implies (#[trigger] arms[j]).variant
                != variant(e, i) by {
                assert(f(w[j]) is Some);
                lemma_variants(e, w[j], i);
            }
        }
    }
    assert forall|j: int| 0 <= j < arms.len() implies names_one(e, (#[trigger] arms[j]).variant, f) by {
        assert(f(w[j]) is Some);
    }
}

/// One more line, or none.
proof fn lemma_arms_step(e: Emitter, f: spec_fn(int) -> Option<Seq<char>>, n: int)
    requires
        n > 0,
    ensures
        arms_text(arms_of(e, f, who(f, n))) == (match f(n - 1) {
            Some(x) => arms_text(arms_of(e, f, who(f, n - 1))) + "        TokenKind::"@ + variant(
                e,
                n - 1,
            ) + " => "@ + x + ",\n"@,
            None => arms_text(arms_of(e, f, who(f, n - 1))),
        }),
{
    if f(n - 1) is Some {
        let (w, x) = (who(f, n - 1), who(f, n));
        let a = arms_of(e, f, x);
        assert(a.drop_last() =~= arms_of(e, f, w));
        assert(a.last() == Arm { variant: variant(e, n - 1), value: f(n - 1)->0 });
    }
}

/// What symbol `i` is in the table.
proof fn lemma_symbol(e: Emitter, t: Table, i: int)
    requires
        e.wf(),
        is_table_of(e, t),
        0 <= i < e.syms@.len(),
    ensures
        t.infix_of(sym(i)) == e.syms@[i].roles.infix,
        t.postfix_of(sym(i)) == e.syms@[i].roles.postfix_lbp,
        t.prefix_of(sym(i)) == e.syms@[i].roles.prefix_rbp,
        !(t.infix_of(sym(i)) is Some && t.postfix_of(sym(i)) is Some),
        e.syms@[i].roles.variant@ == variant(e, i),
        e.syms@[i].roles.open_paren == (t.open == i),
        e.syms@[i].roles.close_paren == (t.close == i),
        t.syms@[i].name@ == e.syms@[i].text@,
{
    assert(e.symbol_ok(i, t.syms@[i]));
    assert(e.symbol_ok(t.open as int, t.syms@[t.open as int]));
    assert(e.symbol_ok(t.close as int, t.syms@[t.close as int]));
    assert(roles_ok(e.spec, e.syms@[i].text@, e.syms@[i].roles));
    if i != t.open {
        lemma_variants(e, i, t.open as int);
    }
    if i != t.close {
        lemma_variants(e, i, t.close as int);
    }
}

// ---- Binding powers ----------------------------------------------------

/// Left binding powers of the operators that follow an operand.
pub open spec fn left_powers(t: Table) -> spec_fn(int) -> Option<Seq<char>> {
    |i: int|
        if t.infix_of(sym(i)) is Some || t.postfix_of(sym(i)) is Some {
            Some(decimal(t.left_power(sym(i)) as nat))
        } else {
            None
        }
}

/// Right binding powers of the operators between operands.
pub open spec fn right_powers(t: Table) -> spec_fn(int) -> Option<Seq<char>> {
    |i: int|
        if t.infix_of(sym(i)) is Some {
            Some(decimal(t.right_power(sym(i)) as nat))
        } else {
            None
        }
}

/// Binding powers of the prefix operators.
pub open spec fn prefix_powers(t: Table) -> spec_fn(int) -> Option<Seq<char>> {
    |i: int|
        match t.prefix_of(sym(i)) {
            Some(p) => Some(decimal(p as nat)),
            None => None,
        }
}

/// Classes of the operators between operands.
pub open spec fn classes(t: Table) -> spec_fn(int) -> Option<Seq<char>> {
    |i: int|
        if t.infix_of(sym(i)) is Some {
            Some(
                match t.class_of(sym(i)) {
                    OperatorClass::AssociativityConflict => "OperatorClass::AssociativityConflict"@,
                    OperatorClass::Strong => "OperatorClass::Strong"@,
                    OperatorClass::Weak => "OperatorClass::Weak"@,
                },
            )
        } else {
            None
        }
}

/// What stands in the operator tables stands in all that follows.
proof fn lemma_op_carries(e: Emitter, part: Seq<char>)
    ensures
        holds_text(op_through_lbp(e), part) ==> holds_text(op_through_rbp(e), part),
        holds_text(op_through_rbp(e), part) ==> holds_text(op_through_prefix(e), part),
        holds_text(op_through_prefix(e), part) ==> holds_text(op_through_class(e), part),
        holds_text(op_through_class(e), part) ==> holds_text(op_through_atoms(e), part),
        holds_text(op_through_atoms(e), part) ==> holds_text(op_through_prefixes(e), part),
        holds_text(op_through_prefixes(e), part) ==> holds_text(op_through_postfixes(e), part),
        holds_text(op_through_postfixes(e), part) ==> holds_text(op_through_groups(e), part),
        holds_text(op_through_groups(e), part) ==> holds_text(op_text(e), part),
{
    lemma_carry(op_through_lbp(e), op_through_rbp(e), part);
    lemma_carry(op_through_rbp(e), op_through_prefix(e), part);
    lemma_carry(op_through_prefix(e), op_through_class(e), part);
    lemma_carry(op_through_class(e), op_through_atoms(e), part);
    lemma_carry(op_through_atoms(e), op_through_prefixes(e), part);
    lemma_carry(op_through_prefixes(e), op_through_postfixes(e), part);
    lemma_carry(op_through_postfixes(e), op_through_groups(e), part);
    lemma_carry(op_through_groups(e), op_text(e), part);
}

/// A text that begins with another holds what it holds.
proof fn lemma_carry(text: Seq<char>, more: Seq<char>, part: Seq<char>)
    requires
        text.len() <= more.len(),
        forall|i: int| 0 <= i < text.len() ==> #[trigger] more[i] == text[i],
    ensures
        holds_text(text, part) ==> holds_text(more, part),
{
    lemma_holds_more(text, more.skip(text.len() as int), part);
    assert(text + more.skip(text.len() as int) =~= more);
}

/// The emitted `lbp` gives every operator that follows an operand, and nothing else,
/// its left binding power in the table; all other kinds it gives none.
pub proof fn law_emitted_lbp(e: Emitter, t: Table)
    requires
        e.wf(),
        is_table_of(e, t),
    ensures
        exists|arms: Seq<Arm>|
            answers(e, arms, left_powers(t)) && #[trigger] emits(
                op_text(e),
                "pub fn lbp(kind: TokenKind) -> u32 {\n    match kind {\n"@,
                arms,
                "        _ => LBP_NONE,\n    }\n}\n"@,
            ),
{
    let f = left_powers(t);
    let n = e.syms@.len() as int;
    let arms = arms_of(e, f, who(f, n));
    lemma_answers(e, f);
    lemma_lbp(e, t, n);
    let head = "pub fn lbp(kind: TokenKind) -> u32 {\n    match kind {\n"@;
    let tail = "        _ => LBP_NONE,\n    }\n}\n"@;
    let part = head + arms_text(arms) + tail;
    let pre = OPERATORS_1@ + e.spec.name@
        + OPERATORS_2@ + FLOORS@
        + OPERATORS_3@;
    lemma_holds_last(pre, head, arms_text(arms), tail);
    assert(op_through_lbp(e) == pre + head + arms_text(arms) + tail);
    lemma_op_carries(e, part);
    assert(emits(op_text(e), head, arms, tail));
}

proof fn lemma_lbp(e: Emitter, t: Table, n: int)
    requires
        e.wf(),
        is_table_of(e, t),
        0 <= n <= e.syms@.len(),
    ensures
        lbp_arms(Seq::empty(), e.syms@, n) == arms_text(
            arms_of(e, left_powers(t), who(left_powers(t), n)),
        ),
    decreases n,
{
    if n > 0 {
        lemma_lbp(e, t, n - 1);
        lemma_symbol(e, t, n - 1);
        lemma_arms_step(e, left_powers(t), n);
    }
}

/// The emitted `rbp` gives every operator between operands, and nothing else, its right
/// binding power in the table; all other kinds it gives the left one, as the table does.
pub proof fn law_emitted_rbp(e: Emitter, t: Table)
    requires
        e.wf(),
        is_table_of(e, t),
    ensures
        exists|arms: Seq<Arm>|
            answers(e, arms, right_powers(t)) && #[trigger] emits(
                op_text(e),
                "pub fn rbp(kind: TokenKind) -> u32 {\n    match kind {\n"@,
                arms,
                "        _ => lbp(kind),\n    }\n}\n"@,
            ),
{
    let f = right_powers(t);
    let n = e.syms@.len() as int;
    let arms = arms_of(e, f, who(f, n));
    lemma_answers(e, f);
    lemma_rbp(e, t, n);
    let head = "pub fn rbp(kind: TokenKind) -> u32 {\n    match kind {\n"@;
    let tail = "        _ => lbp(kind),\n    }\n}\n"@;
    let part = head + arms_text(arms) + tail;
    let pre = op_through_lbp(e) + OPERATORS_4@;
    lemma_holds_last(pre, head, arms_text(arms), tail);
    assert(op_through_rbp(e) == pre + head + arms_text(arms) + tail);
    lemma_op_carries(e, part);
    assert(emits(op_text(e), head, arms, tail));
}

proof fn lemma_rbp(e: Emitter, t: Table, n: int)
    requires
        e.wf(),
        is_table_of(e, t),
        0 <= n <= e.syms@.len(),
    ensures
        rbp_arms(Seq::empty(), e.syms@, n) == arms_text(arms_of(e, right_powers(t), who(right_powers(t), n))),
    decreases n,
{
    if n > 0 {
        lemma_rbp(e, t, n - 1);
        lemma_symbol(e, t, n - 1);
        lemma_arms_step(e, right_powers(t), n);
    }
}

/// The emitted `prefix_rbp` gives every prefix operator, and nothing else, its binding
/// power in the table; all other kinds it gives 0.
pub proof fn law_emitted_prefix_rbp(e: Emitter, t: Table)
    requires
        e.wf(),
        is_table_of(e, t),
    ensures
        exists|arms: Seq<Arm>|
            answers(e, arms, prefix_powers(t)) && #[trigger] emits(
                op_text(e),
                "pub fn prefix_rbp(kind: TokenKind) -> u32 {\n    match kind {\n"@,
                arms,
                "        _ => 0,\n    }\n}\n"@,
            ),
{
    let f = prefix_powers(t);
    let n = e.syms@.len() as int;
    let arms = arms_of(e, f, who(f, n));
    lemma_answers(e, f);
    lemma_prefix_rbp(e, t, n);
    let head = "pub fn prefix_rbp(kind: TokenKind) -> u32 {\n    match kind {\n"@;
    let tail = "        _ => 0,\n    }\n}\n"@;
    let part = head + arms_text(arms) + tail;
    let pre = op_through_rbp(e) + OPERATORS_5@;
    lemma_holds_last(pre, head, arms_text(arms), tail);
    assert(op_through_prefix(e) == pre + head + arms_text(arms) + tail);
    lemma_op_carries(e, part);
    assert(emits(op_text(e), head, arms, tail));
}

proof fn lemma_prefix_rbp(e: Emitter, t: Table, n: int)
    requires
        e.wf(),
        is_table_of(e, t),
        0 <= n <= e.syms@.len(),
    ensures
        prefix_arms(Seq::empty(), e.syms@, n) == arms_text(arms_of(e, prefix_powers(t), who(prefix_powers(t), n))),
    decreases n,
{
    if n > 0 {
        lemma_prefix_rbp(e, t, n - 1);
        lemma_symbol(e, t, n - 1);
        lemma_arms_step(e, prefix_powers(t), n);
    }
}

/// The emitted `operator_class` gives every operator between operands its class in the
/// table; all other kinds are strong, as in the table.
pub proof fn law_emitted_class(e: Emitter, t: Table)
    requires
        e.wf(),
        is_table_of(e, t),
    ensures
        exists|arms: Seq<Arm>|
            answers(e, arms, classes(t)) && #[trigger] emits(
                op_text(e),
                "pub fn operator_class(kind: TokenKind) -> OperatorClass {\n    match kind {\n"@,
                arms,
                "        _ => OperatorClass::Strong,\n    }\n}\n"@,
            ),
{
    let f = classes(t);
    let n = e.syms@.len() as int;
    let arms = arms_of(e, f, who(f, n));
    lemma_answers(e, f);
    lemma_class(e, t, n);
    let head = "pub fn operator_class(kind: TokenKind) -> OperatorClass {\n    match kind {\n"@;
    let tail = "        _ => OperatorClass::Strong,\n    }\n}\n"@;
    let part = head + arms_text(arms) + tail;
    let pre = op_through_prefix(e) + OPERATORS_6@;
    lemma_holds_last(pre, head, arms_text(arms), tail);
    assert(op_through_class(e) == pre + head + arms_text(arms) + tail);
    lemma_op_carries(e, part);
    assert(emits(op_text(e), head, arms, tail));
}

proof fn lemma_class(e: Emitter, t: Table, n: int)
    requires
        e.wf(),
        is_table_of(e, t),
        0 <= n <= e.syms@.len(),
    ensures
        class_arms(Seq::empty(), e.syms@, n) == arms_text(arms_of(e, classes(t), who(classes(t), n))),
    decreases n,
{
    if n > 0 {
        lemma_class(e, t, n - 1);
        lemma_symbol(e, t, n - 1);
        lemma_arms_step(e, classes(t), n);
        if e.syms@[n - 1].roles.infix is Some {
            lemma_class_name(e, t, n - 1, class_arms(Seq::empty(), e.syms@, n - 1));
        }
    }
}

/// How a class is written.
proof fn lemma_class_name(e: Emitter, t: Table, i: int, base: Seq<char>)
    requires
        e.wf(),
        is_table_of(e, t),
        0 <= i < e.syms@.len(),
        e.syms@[i].roles.infix is Some,
    ensures
        base + "        TokenKind::"@ + variant(e, i) + " => OperatorClass::"@ + class_name(
            e.syms@[i].roles.infix->0.class,
        ) + ",\n"@ == base + "        TokenKind::"@ + variant(e, i) + " => "@ + classes(t)(i)->0
            + ",\n"@,
{
    lemma_symbol(e, t, i);
    reveal_strlit(" => OperatorClass::");
    reveal_strlit(" => ");
    reveal_strlit("AssociativityConflict");
    reveal_strlit("Strong");
    reveal_strlit("Weak");
    reveal_strlit("OperatorClass::AssociativityConflict");
    reveal_strlit("OperatorClass::Strong");
    reveal_strlit("OperatorClass::Weak");
    let c = class_name(e.syms@[i].roles.infix->0.class);
    let x = classes(t)(i)->0;
    assert(" => OperatorClass::"@ + c =~= " => "@ + x);
    let b = base + "        TokenKind::"@ + variant(e, i);
    assert(b + " => OperatorClass::"@ + c + ",\n"@ =~= b + (" => OperatorClass::"@ + c) + ",\n"@);
    assert(b + " => "@ + x + ",\n"@ =~= b + (" => "@ + x) + ",\n"@);
}

// ---- Which kinds are operators -----------------------------------------

/// The names as alternatives of a pattern; one that never matches if there are none.
pub open spec fn one_of(names: Seq<Seq<char>>) -> Seq<char>
    decreases names.len(),
{
    if names.len() == 0 {
        "_ if false"@
    } else if names.len() == 1 {
        "TokenKind::"@ + names[0]
    } else {
        one_of(names.drop_last()) + " | "@ + ("TokenKind::"@ + names.last())
    }
}

proof fn lemma_one_of(names: Seq<Seq<char>>, k: int)
    requires
        0 < k <= names.len(),
    ensures
        joined(kinds(names), " | "@, k) == one_of(names.take(k)),
    decreases k,
{
    let x = names.take(k);
    if k == 1 {
        assert(x[0] == names[0]);
    } else {
        lemma_one_of(names, k - 1);
        assert(x.drop_last() =~= names.take(k - 1));
        assert(x.last() == names[k - 1]);
    }
}

proof fn lemma_pattern(names: Seq<Seq<char>>)
    ensures
        or_pattern_text(names) == one_of(names),
{
    if names.len() > 0 {
        lemma_one_of(names, names.len() as int);
        assert(names.take(names.len() as int) =~= names);
    }
}

/// `names` are the names of the symbols that `f` gives something for.
pub open spec fn names_all(
    e: Emitter,
    names: Seq<Seq<char>>,
    f: spec_fn(int) -> Option<Seq<char>>,
) -> bool {
    &&& forall|i: int|
        0 <= i < e.syms@.len() ==> ((#[trigger] f(i)) is Some <==> names.contains(variant(e, i)))
    &&& forall|j: int| 0 <= j < names.len() ==> names_one(e, #[trigger] names[j], f)
}

spec fn names_of(e: Emitter, w: Seq<int>) -> Seq<Seq<char>> {
    Seq::new(w.len(), |j: int| variant(e, w[j]))
}

proof fn lemma_names(e: Emitter, f: spec_fn(int) -> Option<Seq<char>>)
    requires
        e.wf(),
    ensures
        names_all(e, names_of(e, who(f, e.syms@.len() as int)), f),
{
    let n = e.syms@.len() as int;
    let w = who(f, n);
    let names = names_of(e, w);
    lemma_who(f, n);
    assert forall|i: int| 0 <= i < n implies ((#[trigger] f(i)) is Some <==> names.contains(
        variant(e, i),
    )) by {
        if f(i) is Some {
            let j = choose|j: int| 0 <= j < w.len() && w[j] == i;
            assert(names[j] == variant(e, i));
        } else if names.contains(variant(e, i)) {
            let j = choose|j: int| 0 <= j < names.len() && names[j] == variant(e, i);
            assert(f(w[j]) is Some);
            lemma_variants(e, w[j], i);
        }
    }
    assert forall|j: int| 0 <= j < names.len() implies names_one(e, #[trigger] names[j], f) by {
        assert(f(w[j]) is Some);
    }
}

/// Powers of the postfix operators.
pub open spec fn postfix_powers(t: Table) -> spec_fn(int) -> Option<Seq<char>> {
    |i: int|
        match t.postfix_of(sym(i)) {
            Some(p) => Some(decimal(p as nat)),
            None => None,
        }
}

proof fn lemma_operator_names(e: Emitter, t: Table, n: int)
    requires
        e.wf(),
        is_table_of(e, t),
        0 <= n <= e.syms@.len(),
    ensures
        prefix_names(e.syms@, n) == names_of(e, who(prefix_powers(t), n)),
        postfix_names(e.syms@, n) == names_of(e, who(postfix_powers(t), n)),
    decreases n,
{
    if n > 0 {
        lemma_operator_names(e, t, n - 1);
        lemma_symbol(e, t, n - 1);
        assert(prefix_names(e.syms@, n) =~= names_of(e, who(prefix_powers(t), n)));
        assert(postfix_names(e.syms@, n) =~= names_of(e, who(postfix_powers(t), n)));
    } else {
        assert(prefix_names(e.syms@, n) =~= names_of(e, who(prefix_powers(t), n)));
        assert(postfix_names(e.syms@, n) =~= names_of(e, who(postfix_powers(t), n)));
    }
}

/// The emitted `is_prefix_op` and `is_postfix_op` hold of exactly the prefix and the
/// postfix operators of the table.
pub proof fn law_emitted_operators(e: Emitter, t: Table)
    requires
        e.wf(),
        is_table_of(e, t),
    ensures
        exists|names: Seq<Seq<char>>|
            names_all(e, names, prefix_powers(t)) && #[trigger] holds_text(
                op_text(e),
                "pub fn is_prefix_op(kind: TokenKind) -> bool { matches!(kind, "@ + one_of(names)
                    + ") }\n"@,
            ),
        exists|names: Seq<Seq<char>>|
            names_all(e, names, postfix_powers(t)) && #[trigger] holds_text(
                op_text(e),
                "pub fn is_postfix_op(kind: TokenKind) -> bool { matches!(kind, "@ + one_of(names)
                    + ") }\n"@,
            ),
{
    let n = e.syms@.len() as int;
    let (p, q) = (
        names_of(e, who(prefix_powers(t), n)),
        names_of(e, who(postfix_powers(t), n)),
    );
    lemma_operator_names(e, t, n);
    lemma_names(e, prefix_powers(t));
    lemma_names(e, postfix_powers(t));
    lemma_pattern(p);
    lemma_pattern(q);
    let head = "pub fn is_prefix_op(kind: TokenKind) -> bool { matches!(kind, "@;
    let tail = ") }\n"@;
    lemma_holds_last(op_through_atoms(e), head, one_of(p), tail);
    assert(op_through_prefixes(e) == op_through_atoms(e) + head + one_of(p) + tail);
    lemma_op_carries(e, head + one_of(p) + tail);
    let head2 = "pub fn is_postfix_op(kind: TokenKind) -> bool { matches!(kind, "@;
    lemma_holds_last(op_through_prefixes(e), head2, one_of(q), tail);
    assert(op_through_postfixes(e) == op_through_prefixes(e) + head2 + one_of(q) + tail);
    lemma_op_carries(e, head2 + one_of(q) + tail);
}

/// The emitted `is_atom` holds of the kinds of atoms that the table has.
pub proof fn law_emitted_atoms(e: Emitter, t: Table)
    requires
        e.wf(),
        is_table_of(e, t),
    ensures
        exists|names: Seq<Seq<char>>| #[trigger]
            holds_text(
                op_text(e),
                "pub fn is_atom(kind: TokenKind) -> bool { matches!(kind, "@ + one_of(names)
                    + ") }\n"@,
            ) && (names.contains("Int"@) <==> t.int) && (names.contains("Ident"@) <==> t.ident)
                && forall|j: int|
                0 <= j < names.len() ==> #[trigger] names[j] == "Int"@ || names[j] == "Ident"@,
{
    let names = atom_names(e);
    lemma_pattern(names);
    reveal_strlit("Int");
    reveal_strlit("Ident");
    assert("Int"@.len() == 3 && "Ident"@.len() == 5);
    let head = "pub fn is_atom(kind: TokenKind) -> bool { matches!(kind, "@;
    let tail = ") }\n"@;
    lemma_holds_last(op_through_class(e) + OPERATORS_7@, head, one_of(names), tail);
    assert(op_through_atoms(e) == op_through_class(e) + OPERATORS_7@ + head + one_of(names) + tail);
    lemma_op_carries(e, head + one_of(names) + tail);
    if t.int {
        assert(names[0] == "Int"@);
    }
    if t.ident {
        assert(names.last() == "Ident"@);
    }
}

proof fn lemma_group_names(e: Emitter, t: Table, n: int)
    requires
        e.wf(),
        is_table_of(e, t),
        0 <= n <= e.syms@.len(),
    ensures
        t.open < n ==> open_name(e.syms@, n) == variant(e, t.open as int),
        t.close < n ==> close_name(e.syms@, n) == variant(e, t.close as int),
    decreases n,
{
    if n > 0 {
        lemma_group_names(e, t, n - 1);
        lemma_symbol(e, t, n - 1);
    }
}

/// Groups open and close with the table's symbols; nothing binds less than no operator,
/// and a whole expression is parsed at that power.
pub proof fn law_emitted_groups(e: Emitter, t: Table)
    requires
        e.wf(),
        is_table_of(e, t),
    ensures
        holds_text(
            op_text(e),
            "pub fn is_open_paren(kind: TokenKind) -> bool { matches!(kind, TokenKind::"@ + variant(
                e,
                t.open as int,
            ) + ") }\n"@,
        ),
        holds_text(
            op_text(e),
            "pub fn close_paren_kind() -> TokenKind { TokenKind::"@ + variant(e, t.close as int)
                + " }\n"@,
        ),
        holds_text(
            op_text(e),
            "pub const MIN_PREC: u32 = 0;\npub const LBP_NONE: u32 = 0;\n"@,
        ),
{
    let n = e.syms@.len() as int;
    lemma_group_names(e, t, n);
    let (o, c) = (variant(e, t.open as int), variant(e, t.close as int));
    let head = "pub fn is_open_paren(kind: TokenKind) -> bool { matches!(kind, TokenKind::"@;
    let tail = ") }\n"@;
    let base = op_through_postfixes(e);
    lemma_holds_last(base, head, o, tail);
    let head2 = "pub fn close_paren_kind() -> TokenKind { TokenKind::"@;
    let tail2 = " }\n"@;
    lemma_holds_last(base + head + o + tail, head2, c, tail2);
    assert(op_through_groups(e) == base + head + o + tail + head2 + c + tail2);
    lemma_carry(base + head + o + tail, op_through_groups(e), head + o + tail);
    lemma_op_carries(e, head + o + tail);
    lemma_op_carries(e, head2 + c + tail2);
    let floors = "pub const MIN_PREC: u32 = 0;\npub const LBP_NONE: u32 = 0;\n"@;
    let none = Seq::<char>::empty();
    let pre = OPERATORS_1@ + e.spec.name@ + OPERATORS_2@;
    lemma_holds_last(pre, floors, none, none);
    assert(pre + floors + none + none =~= pre + floors);
    assert(floors + none + none =~= floors);
    lemma_carry(pre + floors, op_through_lbp(e), floors);
    lemma_op_carries(e, floors);
}

// ---- Longest match -----------------------------------------------------

/// All symbols, each once, none before a longer one.
pub open spec fn longest_match(e: Emitter, order: Seq<int>) -> bool {
    &&& order.len() == e.syms@.len()
    &&& forall|i: int| 0 <= i < e.syms@.len() ==> #[trigger] order.contains(i)
    &&& forall|j: int| 0 <= j < order.len() ==> 0 <= #[trigger] order[j] < e.syms@.len()
    &&& forall|j: int, k: int|
        0 <= j < k < order.len() ==> encode_utf8(e.syms@[#[trigger] order[j]].text@).len()
            >= encode_utf8(e.syms@[#[trigger] order[k]].text@).len()
}

/// A line for each of the first `n` symbols of `order`: where its text stands, its left
/// binding power in the table is returned.
pub open spec fn power_lines(e: Emitter, t: Table, order: Seq<int>, n: int) -> Seq<char>
    decreases n,
{
    if n <= 0 {
        Seq::empty()
    } else {
        power_lines(e, t, order, n - 1) + "    if matches_at(src, pos, "@ + ("b"@ + quoted(
            e.syms@[order[n - 1]].text@,
        )) + ") { return "@ + decimal(t.left_power(sym(order[n - 1])) as nat) + "; }\n"@
    }
}

/// The emitted `next_token_lbp` skips blanks and tries every symbol, a longer one before a
/// shorter one: it returns the left binding power in the table of the first that stands
/// there.
pub proof fn law_emitted_next_power(e: Emitter, t: Table)
    requires
        e.wf(),
        is_table_of(e, t),
    ensures
        exists|order: Seq<int>|
            longest_match(e, order) && #[trigger] holds_text(
                op_text(e),
                "pub fn next_token_lbp(src: &[u8], mut pos: usize) -> u32 {\n    while pos < src.len() && matches!(src[pos], b' ' | b'\\t' | b'\\n' | b'\\r') { pos += 1; }\n    if pos >= src.len() { return LBP_NONE; }\n"@
                    + power_lines(e, t, order, order.len() as int) + "    LBP_NONE\n}\n"@,
            ),
{
    let n = e.syms@.len() as int;
    let order = longest_first(e.syms@, n);
    law_longest_first(e.syms@, n);
    lemma_order(e);
    lemma_power_lines(e, t, order, n);
    let head =
        "pub fn next_token_lbp(src: &[u8], mut pos: usize) -> u32 {\n    while pos < src.len() && matches!(src[pos], b' ' | b'\\t' | b'\\n' | b'\\r') { pos += 1; }\n    if pos >= src.len() { return LBP_NONE; }\n"@;
    let tail = "    LBP_NONE\n}\n"@;
    let lines = power_lines(e, t, order, n);
    lemma_holds_last(op_through_groups(e) + OPERATORS_8@, head, lines, tail);
    assert(op_text(e) == op_through_groups(e) + OPERATORS_8@ + head + lines + tail);
}

proof fn lemma_order(e: Emitter)
    ensures
        longest_match(e, longest_first(e.syms@, e.syms@.len() as int)),
{
    let n = e.syms@.len() as int;
    let order = longest_first(e.syms@, n);
    law_longest_first(e.syms@, n);
    assert forall|j: int, k: int| 0 <= j < k < order.len() implies encode_utf8(
        e.syms@[#[trigger] order[j]].text@,
    ).len() >= encode_utf8(e.syms@[#[trigger] order[k]].text@).len() by {
        assert(byte_length(e.syms@[order[j]]) >= byte_length(e.syms@[order[k]]));
    }
}

proof fn lemma_power_lines(e: Emitter, t: Table, order: Seq<int>, n: int)
    requires
        e.wf(),
        is_table_of(e, t),
        longest_match(e, order),
        0 <= n <= order.len(),
    ensures
        power_arms(Seq::empty(), e.syms@, order, n) == power_lines(e, t, order, n),
    decreases n,
{
    if n > 0 {
        lemma_power_lines(e, t, order, n - 1);
        lemma_symbol(e, t, order[n - 1]);
        assert(power_of(e.syms@[order[n - 1]]) == t.left_power(sym(order[n - 1])));
    }
}

/// A line for each of the first `n` symbols of `order`: where its text stands, a token of
/// its kind and of the text's length in bytes is returned.
pub open spec fn token_lines(e: Emitter, order: Seq<int>, n: int) -> Seq<char>
    decreases n,
{
    if n <= 0 {
        Seq::empty()
    } else {
        let s = e.syms@[order[n - 1]].text@;
        token_lines(e, order, n - 1) + "            if matches_at(src, i, "@ + ("b"@ + quoted(s))
            + ") { return Token { kind: TokenKind::"@ + variant_of(s)
            + ", start: i as u32, end: (i + "@ + decimal(encode_utf8(s).len())
            + ") as u32 }; }\n"@
    }
}

proof fn lemma_token_lines(e: Emitter, order: Seq<int>, n: int)
    requires
        e.wf(),
        longest_match(e, order),
        0 <= n <= order.len(),
    ensures
        lexer_arms(Seq::empty(), e.syms@, order, n) == token_lines(e, order, n),
    decreases n,
{
    if n > 0 {
        lemma_token_lines(e, order, n - 1);
        let s = e.syms@[order[n - 1]];
        assert(roles_ok(e.spec, s.text@, s.roles));
    }
}

/// A run of digits as a token.
pub open spec fn int_lines() -> Seq<char> {
    "            if b.is_ascii_digit() {\n                let mut j = i + 1;\n                while j < src.byte_len() && src.byte_at(j).is_ascii_digit() { j += 1; }\n                return Token { kind: TokenKind::Int, start: i as u32, end: j as u32 };\n            }\n"@
}

/// A word as a token.
pub open spec fn ident_lines() -> Seq<char> {
    "            if b == b'_' || b.is_ascii_alphabetic() {\n                let mut j = i + 1;\n                while j < src.byte_len() && (src.byte_at(j) == b'_' || src.byte_at(j).is_ascii_alphanumeric()) { j += 1; }\n                return Token { kind: TokenKind::Ident, start: i as u32, end: j as u32 };\n            }\n"@
}

/// The emitted lexer skips blanks and tries every symbol, a longer one before a shorter
/// one, then the kinds of atoms that the grammar has; other bytes it skips.
pub proof fn law_emitted_lexer(e: Emitter, t: Table)
    requires
        e.wf(),
        is_table_of(e, t),
    ensures
        exists|order: Seq<int>|
            longest_match(e, order) && #[trigger] holds_text(
                lexer_text(e),
                "pub fn lex_token<B: ByteSource + ?Sized>(src: &B, at: usize) -> Token {\n    let mut i = at;\n    loop {\n        while i < src.byte_len() && matches!(src.byte_at(i), b' ' | b'\\t' | b'\\n' | b'\\r') { i += 1; }\n        if i >= src.byte_len() { let n = src.byte_len() as u32; return Token { kind: TokenKind::Eof, start: n, end: n }; }\n        let b = src.byte_at(i);\n"@
                    + (token_lines(e, order, order.len() as int) + atom_line(t.int, int_lines())
                    + atom_line(t.ident, ident_lines()))
                    + "        // Unknown byte: skip and keep scanning.\n        i += 1;\n    }\n}\n"@,
            ),
{
    let n = e.syms@.len() as int;
    let order = longest_first(e.syms@, n);
    law_longest_first(e.syms@, n);
    lemma_order(e);
    lemma_token_lines(e, order, n);
    let head =
        "pub fn lex_token<B: ByteSource + ?Sized>(src: &B, at: usize) -> Token {\n    let mut i = at;\n    loop {\n        while i < src.byte_len() && matches!(src.byte_at(i), b' ' | b'\\t' | b'\\n' | b'\\r') { i += 1; }\n        if i >= src.byte_len() { let n = src.byte_len() as u32; return Token { kind: TokenKind::Eof, start: n, end: n }; }\n        let b = src.byte_at(i);\n"@;
    let tail = "        // Unknown byte: skip and keep scanning.\n        i += 1;\n    }\n}\n"@;
    let (x, y, z) = (
        token_lines(e, order, n),
        atom_line(t.int, int_lines()),
        atom_line(t.ident, ident_lines()),
    );
    reveal_strlit("");
    assert(""@ =~= Seq::<char>::empty());
    let pre = lexer_through_kinds(e) + LEXER_3@;
    lemma_holds_last(pre, head, x + y + z, tail);
    assert(lexer_through_lex(e) =~= pre + head + (x + y + z) + tail);
    lemma_carry(lexer_through_lex(e), lexer_text(e), head + (x + y + z) + tail);
}

/// The names, a line each.
pub open spec fn name_lines(names: Seq<Seq<char>>) -> Seq<char>
    decreases names.len(),
{
    if names.len() == 0 {
        Seq::empty()
    } else {
        name_lines(names.drop_last()) + "    "@ + names.last() + ",\n"@
    }
}

/// The names of the kinds of tokens: the atoms that the table has, then every symbol.
pub open spec fn kind_names(e: Emitter, t: Table) -> Seq<Seq<char>> {
    (if t.int {
        seq!["Int"@]
    } else {
        Seq::empty()
    }) + (if t.ident {
        seq!["Ident"@]
    } else {
        Seq::empty()
    }) + Seq::new(e.syms@.len(), |i: int| variant(e, i))
}

proof fn lemma_name_lines(e: Emitter, base: Seq<Seq<char>>, n: int)
    requires
        e.wf(),
        0 <= n <= e.syms@.len(),
    ensures
        variant_lines(name_lines(base), e.syms@, n) == name_lines(
            base + Seq::new(n as nat, |i: int| variant(e, i)),
        ),
    decreases n,
{
    let all = base + Seq::new(n as nat, |i: int| variant(e, i));
    if n > 0 {
        lemma_name_lines(e, base, n - 1);
        assert(roles_ok(e.spec, e.syms@[n - 1].text@, e.syms@[n - 1].roles));
        assert(all.drop_last() =~= base + Seq::new((n - 1) as nat, |i: int| variant(e, i)));
        assert(all.last() == variant(e, n - 1));
    } else {
        assert(all =~= base);
    }
}

/// The emitted kinds of tokens are those of the table: its atoms, its symbols, each
/// under a name of its own, and the end of the text.
pub proof fn law_emitted_kinds(e: Emitter, t: Table)
    requires
        e.wf(),
        is_table_of(e, t),
    ensures
        holds_text(
            lexer_text(e),
            "pub enum TokenKind {\n"@ + name_lines(kind_names(e, t)) + "    Eof,\n}\n"@,
        ),
        forall|i: int, j: int|
            0 <= i < j < e.syms@.len() ==> #[trigger] variant(e, i) != #[trigger] variant(e, j),
{
    let n = e.syms@.len() as int;
    let a = if t.int {
        seq!["Int"@]
    } else {
        Seq::empty()
    };
    let b = a + (if t.ident {
        seq!["Ident"@]
    } else {
        Seq::empty()
    });
    lemma_atom_lines(t.int, t.ident);
    lemma_name_lines(e, b, n);
    let names = kind_names(e, t);
    assert(names =~= b + Seq::new(n as nat, |i: int| variant(e, i)));
    let (head, tail) = ("pub enum TokenKind {\n"@, "    Eof,\n}\n"@);
    let pre = LEXER_1@ + e.spec.name@ + LEXER_2@;
    assert(variants_text(e) == name_lines(names));
    lemma_holds_last(pre, head, name_lines(names), tail);
    assert(lexer_through_kinds(e) == pre + head + name_lines(names) + tail);
    let part = head + name_lines(names) + tail;
    lemma_carry(lexer_through_kinds(e), lexer_through_lex(e), part);
    lemma_carry(lexer_through_lex(e), lexer_text(e), part);
    assert forall|i: int, j: int| 0 <= i < j < n implies #[trigger] variant(e, i)
        != #[trigger] variant(e, j) by {
        lemma_variants(e, i, j);
    }
}

proof fn lemma_atom_lines(ints: bool, words: bool)
    ensures
        ({
            let a = if ints {
                seq!["Int"@]
            } else {
                Seq::empty()
            };
            let b = a + (if words {
                seq!["Ident"@]
            } else {
                Seq::empty()
            });
            let x = if ints {
                Seq::empty() + "    Int,\n"@
            } else {
                Seq::empty()
            };
            name_lines(b) == (if words {
                x + "    Ident,\n"@
            } else {
                x
            })
        }),
{
    let a = if ints {
        seq!["Int"@]
    } else {
        Seq::empty()
    };
    let b = a + (if words {
        seq!["Ident"@]
    } else {
        Seq::empty()
    });
    let none = Seq::<Seq<char>>::empty();
    reveal_strlit("    ");
    reveal_strlit("Int");
    reveal_strlit("Ident");
    reveal_strlit(",\n");
    reveal_strlit("    Int,\n");
    reveal_strlit("    Ident,\n");
    assert(name_lines(none) =~= Seq::empty());
    if ints {
        assert(a.drop_last() =~= none);
        assert(name_lines(a) =~= Seq::empty() + "    Int,\n"@);
    }
    if words {
        assert(b.drop_last() =~= a);
        assert(b.last() == "Ident"@);
        assert(name_lines(b) =~= name_lines(a) + "    Ident,\n"@);
    } else {
        assert(b =~= a);
    }
}

// ---- Display texts -----------------------------------------------------

/// The texts of the symbols, as literals.
pub open spec fn symbol_texts(t: Table) -> spec_fn(int) -> Option<Seq<char>> {
    |i: int| Some(quoted(t.syms@[i].name@))
}

/// The line of a kind of atoms.
pub open spec fn atom_line(here: bool, line: Seq<char>) -> Seq<char> {
    if here {
        line
    } else {
        Seq::empty()
    }
}

/// The emitted `token_text` shows every symbol as it is written, and atoms and the end of
/// the text as the table shows them.
pub proof fn law_emitted_texts(e: Emitter, t: Table)
    requires
        e.wf(),
        is_table_of(e, t),
    ensures
        exists|arms: Seq<Arm>|
            answers(e, arms, symbol_texts(t)) && #[trigger] holds_text(
                display_text(e),
                "pub fn token_text(t: TokenKind) -> &'static str {\n    match t {\n"@ + (atom_line(
                    t.int,
                    "        TokenKind::Int => \"<int>\",\n"@,
                ) + atom_line(t.ident, "        TokenKind::Ident => \"<id>\",\n"@) + arms_text(
                    arms,
                )) + "        TokenKind::Eof => \"<eof>\",\n    }\n}\n"@,
            ),
{
    let f = symbol_texts(t);
    let n = e.syms@.len() as int;
    let arms = arms_of(e, f, who(f, n));
    lemma_answers(e, f);
    let (x, y) = (
        atom_line(t.int, "        TokenKind::Int => \"<int>\",\n"@),
        atom_line(t.ident, "        TokenKind::Ident => \"<id>\",\n"@),
    );
    let base = x + y;
    lemma_text_arms(e, t, base, n);
    let head = "pub fn token_text(t: TokenKind) -> &'static str {\n    match t {\n"@;
    let tail = "        TokenKind::Eof => \"<eof>\",\n    }\n}\n"@;
    let pre = DISPLAY_1@ + e.spec.name@ + DISPLAY_2@;
    lemma_holds_last(pre, head, x + y + arms_text(arms), tail);
    let a = if e.spec.atoms.int {
        Seq::empty() + "        TokenKind::Int => \"<int>\",\n"@
    } else {
        Seq::empty()
    };
    let b = if e.spec.atoms.ident {
        a + "        TokenKind::Ident => \"<id>\",\n"@
    } else {
        a
    };
    assert(b =~= base);
    assert(display_text(e) == pre + head + text_arms(base, e.syms@, n) + tail);
}

proof fn lemma_text_arms(e: Emitter, t: Table, base: Seq<char>, n: int)
    requires
        e.wf(),
        is_table_of(e, t),
        0 <= n <= e.syms@.len(),
    ensures
        text_arms(base, e.syms@, n) == base + arms_text(
            arms_of(e, symbol_texts(t), who(symbol_texts(t), n)),
        ),
    decreases n,
{
    let f = symbol_texts(t);
    if n > 0 {
        lemma_text_arms(e, t, base, n - 1);
        lemma_symbol(e, t, n - 1);
        lemma_arms_step(e, f, n);
        let old = arms_text(arms_of(e, f, who(f, n - 1)));
        let new = arms_text(arms_of(e, f, who(f, n)));
        assert(text_arms(base, e.syms@, n) =~= base + new);
    } else {
        assert(text_arms(base, e.syms@, n) =~= base + arms_text(arms_of(e, f, who(f, n))));
    }
}

} // verus!
