//! What a tree is shown as.

use std::sync::Arc;

use vstd::prelude::*;

use crate::runtime::ast::{
    form, form_text, items, items_text, join, lemma_arc_full, lemma_items_text_concat,
    node_count, text_of, Form, Node, NodeKind,
};
use crate::runtime::host::{kid_text, kids_text};
use crate::runtime::host_grammar::{KidKind, KidModel};
use crate::runtime::table::{Table, TokenKind};

verus! {

/// A text without parentheses and blanks.
pub open spec fn squeezed(s: Seq<char>) -> Seq<char>
    decreases s.len(),
{
    if s.len() == 0 {
        Seq::empty()
    } else if s.last() == '(' || s.last() == ')' || s.last() == ' ' {
        squeezed(s.drop_last())
    } else {
        squeezed(s.drop_last()).push(s.last())
    }
}

/// Operands and operators of a tree in the order they are written in.
pub open spec fn in_order(t: Table, n: Node) -> Seq<char>
    decreases n,
{
    match n.kind {
        NodeKind::Atom(s) => s@,
        NodeKind::Prefix { op, child } => t.kind_text(op) + in_order(t, *child),
        NodeKind::Postfix { op, child } => in_order(t, *child) + t.kind_text(op),
        NodeKind::Binary { op, left, right } => in_order(t, *left) + t.kind_text(op) + in_order(
            t,
            *right,
        ),
        NodeKind::Paren { inner } => in_order(t, *inner),
    }
}

/// Apart from parentheses and blanks a tree is shown as it is written, whether chains are
/// shown flat or not.
pub proof fn law_shown_in_order(t: Table, n: Arc<Node>)
    ensures
        squeezed(text_of(t, *n)) == squeezed(in_order(t, *n)),
        squeezed(form_text(t, form(t, n))) == squeezed(in_order(t, *n)),
    decreases n,
{
    lemma_signs();
    match n.kind {
        NodeKind::Atom(s) => {},
        NodeKind::Prefix { op, child } => {
            let o = t.kind_text(op);
            law_shown_in_order(t, child);
            let (x, y) = (shown(t, child), flat(t, child));
            lemma_framed(o + x);
            lemma_framed(o + y);
            assert("("@ + o + x + ")"@ =~= "("@ + (o + x) + ")"@);
            assert("("@ + o + y + ")"@ =~= "("@ + (o + y) + ")"@);
            lemma_squeezed(o, x);
            lemma_squeezed(o, y);
            lemma_squeezed(o, said(t, child));
        },
        NodeKind::Postfix { op, child } => {
            let o = t.kind_text(op);
            law_shown_in_order(t, child);
            let (x, y) = (shown(t, child), flat(t, child));
            lemma_framed(x + o);
            lemma_framed(y + o);
            assert("("@ + x + o + ")"@ =~= "("@ + (x + o) + ")"@);
            assert("("@ + y + o + ")"@ =~= "("@ + (y + o) + ")"@);
            lemma_squeezed(x, o);
            lemma_squeezed(y, o);
            lemma_squeezed(said(t, child), o);
        },
        NodeKind::Binary { op, left, right } => {
            let o = t.kind_text(op);
            law_shown_in_order(t, left);
            law_shown_in_order(t, right);
            let (x, y) = (shown(t, left), shown(t, right));
            lemma_between(x, o, y);
            assert("("@ + x + " "@ + o + " "@ + y + ")"@ =~= "("@ + (x + " "@ + o + " "@ + y)
                + ")"@);
            lemma_framed(x + " "@ + o + " "@ + y);
            lemma_join(t, op, left, right);
            let (p, q) = (said(t, left), said(t, right));
            lemma_squeezed(p + o, q);
            lemma_squeezed(p, o);
        },
        NodeKind::Paren { inner } => {
            law_shown_in_order(t, inner);
        },
    }
}

/// Every operator is shown in parentheses of its own, its operands inside them in full.
pub proof fn law_shown_whole(t: Table, n: Node)
    ensures
        ({
            let s = text_of(t, n);
            match n.kind {
                NodeKind::Atom(a) => s == a@,
                NodeKind::Paren { inner } => s == text_of(t, *inner),
                NodeKind::Prefix { op, child } => {
                    let x = text_of(t, *child);
                    s[0] == '(' && s.last() == ')' && x.len() < s.len() && s.subrange(
                        s.len() - 1 - x.len(),
                        s.len() - 1,
                    ) == x
                },
                NodeKind::Postfix { op, child } => {
                    let x = text_of(t, *child);
                    s[0] == '(' && s.last() == ')' && x.len() < s.len() && s.subrange(
                        1,
                        1 + x.len() as int,
                    ) == x
                },
                NodeKind::Binary { op, left, right } => {
                    let (x, y) = (text_of(t, *left), text_of(t, *right));
                    s[0] == '(' && s.last() == ')' && x.len() + y.len() + 1 < s.len() && s.subrange(
                        1,
                        1 + x.len() as int,
                    ) == x && s[1 + x.len() as int] == ' ' && s.subrange(
                        s.len() - 1 - y.len(),
                        s.len() - 1,
                    ) == y && s[s.len() - 2 - y.len()] == ' '
                },
            }
        }),
{
    lemma_signs();
    let s = text_of(t, n);
    match n.kind {
        NodeKind::Prefix { op, child } => {
            let x = shown(t, child);
            assert(s.subrange(s.len() - 1 - x.len(), s.len() - 1) =~= x);
        },
        NodeKind::Postfix { op, child } => {
            let x = shown(t, child);
            assert(s.subrange(1, 1 + x.len() as int) =~= x);
        },
        NodeKind::Binary { op, left, right } => {
            let (x, y) = (shown(t, left), shown(t, right));
            assert(s.subrange(1, 1 + x.len() as int) =~= x);
            assert(s.subrange(s.len() - 1 - y.len(), s.len() - 1) =~= y);
        },
        _ => {},
    }
}

/// A subtree in full parentheses.
spec fn shown(t: Table, n: Arc<Node>) -> Seq<char> {
    text_of(t, *n)
}

/// A subtree with its chains flat.
spec fn flat(t: Table, n: Arc<Node>) -> Seq<char> {
    form_text(t, form(t, n))
}

/// A subtree in the order it is written in.
spec fn said(t: Table, n: Arc<Node>) -> Seq<char> {
    in_order(t, *n)
}

proof fn lemma_signs()
    ensures
        "("@ == seq!['('],
        ")"@ == seq![')'],
        " "@ == seq![' '],
{
    reveal_strlit("(");
    reveal_strlit(")");
    reveal_strlit(" ");
    assert("("@ =~= seq!['(']);
    assert(")"@ =~= seq![')']);
    assert(" "@ =~= seq![' ']);
}

proof fn lemma_squeezed(a: Seq<char>, b: Seq<char>)
    ensures
        squeezed(a + b) == squeezed(a) + squeezed(b),
    decreases b.len(),
{
    if b.len() == 0 {
        assert(a + b =~= a);
        assert(squeezed(a) + squeezed(b) =~= squeezed(a));
    } else {
        assert((a + b).drop_last() =~= a + b.drop_last());
        lemma_squeezed(a, b.drop_last());
        assert(squeezed(a + b) =~= squeezed(a) + squeezed(b));
    }
}

proof fn lemma_one(c: char)
    requires
        c == '(' || c == ')' || c == ' ',
    ensures
        squeezed(seq![c]) == Seq::<char>::empty(),
{
    reveal_with_fuel(squeezed, 2);
    assert(seq![c].drop_last() =~= Seq::empty());
}

proof fn lemma_framed(x: Seq<char>)
    ensures
        squeezed("("@ + x + ")"@) == squeezed(x),
{
    lemma_signs();
    lemma_one('(');
    lemma_one(')');
    lemma_squeezed("("@ + x, ")"@);
    lemma_squeezed("("@, x);
    assert(Seq::<char>::empty() + squeezed(x) + Seq::<char>::empty() =~= squeezed(x));
}

proof fn lemma_between(x: Seq<char>, o: Seq<char>, y: Seq<char>)
    ensures
        squeezed(x + " "@ + o + " "@ + y) == squeezed(x) + squeezed(o) + squeezed(y),
{
    lemma_signs();
    lemma_one(' ');
    lemma_squeezed(x + " "@ + o + " "@, y);
    lemma_squeezed(x + " "@ + o, " "@);
    lemma_squeezed(x + " "@, o);
    lemma_squeezed(x, " "@);
    assert(squeezed(x) + Seq::<char>::empty() =~= squeezed(x));
    assert(squeezed(x) + squeezed(o) + Seq::<char>::empty() =~= squeezed(x) + squeezed(o));
}

proof fn lemma_items(t: Table, op: TokenKind, f: Form)
    requires
        items(op, f).len() > 0,
    ensures
        squeezed(items_text(t, op, items(op, f), items(op, f).len() as int)) == squeezed(
            form_text(t, f),
        ),
{
    match f {
        Form::Chain { op: o, items: s } => if o == op {
            lemma_framed(items_text(t, op, s, s.len() as int));
        },
        _ => {},
    }
}

proof fn lemma_join(t: Table, op: TokenKind, left: Arc<Node>, right: Arc<Node>)
    ensures
        squeezed(form_text(t, join(t, op, form(t, left), form(t, right)))) == squeezed(
            flat(t, left),
        ) + squeezed(t.kind_text(op)) + squeezed(flat(t, right)),
{
    let (l, r) = (form(t, left), form(t, right));
    let o = t.kind_text(op);
    lemma_arc_full(t, left);
    lemma_arc_full(t, right);
    if t.regroups(op) {
        let (a, b) = (items(op, l), items(op, r));
        assert(a.len() > 0 && b.len() > 0);
        lemma_items_text_concat(t, op, a, b, b.len() as int);
        let (x, y) = (items_text(t, op, a, a.len() as int), items_text(t, op, b, b.len() as int));
        lemma_between(x, o, y);
        lemma_framed(x + " "@ + o + " "@ + y);
        lemma_items(t, op, l);
        lemma_items(t, op, r);
        assert((a + b).len() == a.len() + b.len());
    } else {
        let (x, y) = (form_text(t, l), form_text(t, r));
        lemma_between(x, o, y);
        lemma_framed(x + " "@ + o + " "@ + y);
        assert("("@ + x + " "@ + o + " "@ + y + ")"@ =~= "("@ + (x + " "@ + o + " "@ + y) + ")"@);
    }
}

// ---- Programs ----------------------------------------------------------

/// The words and expressions of the first `n` children, in order, those of productions
/// among them.
pub open spec fn leaves_upto(ks: Seq<KidModel>, n: int) -> Seq<KidModel>
    decreases ks, n,
{
    if n <= 0 || n > ks.len() {
        Seq::empty()
    } else {
        leaves_upto(ks, n - 1) + (match ks[n - 1].what {
            KidKind::Sub { prod, alt, kids } => leaves_upto(kids, kids.len() as int),
            _ => seq![ks[n - 1]],
        })
    }
}

/// Words and expressions, a blank after each.
pub open spec fn words_text(t: Table, ls: Seq<KidModel>) -> Seq<char>
    decreases ls.len(),
{
    if ls.len() == 0 {
        Seq::empty()
    } else {
        words_text(t, ls.drop_last()) + (match ls.last().what {
            KidKind::Tok(s) => s,
            KidKind::Id(s) => s,
            KidKind::Expr(f) => form_text(t, f),
            _ => Seq::empty(),
        }) + seq![' ']
    }
}

/// A program is shown as its words and expressions, in order, a blank after each.
pub proof fn law_program_shown(t: Table, ks: Seq<KidModel>)
    ensures
        kids_text(t, ks, ks.len() as int) == words_text(t, leaves_upto(ks, ks.len() as int)),
{
    lemma_kids_shown(t, ks, ks.len() as int);
}

proof fn lemma_kids_shown(t: Table, ks: Seq<KidModel>, n: int)
    requires
        0 <= n <= ks.len(),
    ensures
        kids_text(t, ks, n) == words_text(t, leaves_upto(ks, n)),
    decreases ks, n,
{
    if n > 0 {
        lemma_kids_shown(t, ks, n - 1);
        let front = leaves_upto(ks, n - 1);
        assert(kids_text(t, ks, n) == kids_text(t, ks, n - 1) + kid_text(t, ks[n - 1]));
        match ks[n - 1].what {
            KidKind::Sub { prod, alt, kids } => {
                lemma_kids_shown(t, kids, kids.len() as int);
                lemma_words(t, front, leaves_upto(kids, kids.len() as int));
                assert(kid_text(t, ks[n - 1]) == kids_text(t, kids, kids.len() as int));
            },
            _ => {
                let all = front + seq![ks[n - 1]];
                assert(all.drop_last() =~= front);
                assert(all.last() == ks[n - 1]);
                assert(leaves_upto(ks, n) == all);
                assert(words_text(t, all) =~= words_text(t, front) + kid_text(t, ks[n - 1]));
            },
        }
    }
}

proof fn lemma_words(t: Table, a: Seq<KidModel>, b: Seq<KidModel>)
    ensures
        words_text(t, a + b) == words_text(t, a) + words_text(t, b),
    decreases b.len(),
{
    if b.len() == 0 {
        assert(a + b =~= a);
        assert(words_text(t, a) + words_text(t, b) =~= words_text(t, a));
    } else {
        assert((a + b).drop_last() =~= a + b.drop_last());
        lemma_words(t, a, b.drop_last());
        assert(words_text(t, a + b) =~= words_text(t, a) + words_text(t, b));
    }
}

// ---- Nodes -------------------------------------------------------------

/// The trees right below a node, in order.
pub open spec fn children(n: Node) -> Seq<Arc<Node>> {
    match n.kind {
        NodeKind::Atom(s) => Seq::empty(),
        NodeKind::Prefix { op, child } => seq![child],
        NodeKind::Postfix { op, child } => seq![child],
        NodeKind::Binary { op, left, right } => seq![left, right],
        NodeKind::Paren { inner } => seq![inner],
    }
}

/// The nodes of some trees.
pub open spec fn total(ns: Seq<Arc<Node>>) -> nat
    decreases ns.len(),
{
    if ns.len() == 0 {
        0
    } else {
        total(ns.drop_last()) + node_count(*ns.last())
    }
}

/// A tree has its root and the nodes of the trees below it, no matter what the root is.
pub proof fn law_counted(n: Node)
    ensures
        node_count(n) == 1 + total(children(n)),
{
    reveal_with_fuel(total, 3);
    let ks = children(n);
    if ks.len() == 1 {
        assert(ks.drop_last() =~= Seq::empty());
    } else if ks.len() == 2 {
        assert(ks.drop_last() =~= seq![ks[0]]);
        assert(seq![ks[0]].drop_last() =~= Seq::empty());
    }
}

} // verus!
