//! Canonical renderings of trees.

use std::sync::Arc;
use vstd::prelude::*;
use vstd::string::*;

use crate::expr::ast::{lemma_call_shape, shapes, Node, NodeKind, Shape, ShapeKind};
use crate::expr::grammar::{Form, FormKind};
use crate::expr::lexer::TokenKind;
use crate::expr::op::{chain_kind, is_associativity_conflict};
use crate::expr::shape::{alike, flat, is_bin, lemma_flat_nonempty, lemma_norm_call, norm, norms};

verus! {

/// Display text of a token kind.
pub open spec fn token_chars(t: TokenKind) -> Seq<char> {
    match t {
        TokenKind::Plus => "+"@,
        TokenKind::Minus => "-"@,
        TokenKind::Star => "*"@,
        TokenKind::Slash => "/"@,
        TokenKind::Percent => "%"@,
        TokenKind::Caret => "^"@,
        TokenKind::Bang => "!"@,
        TokenKind::AndAnd => "&&"@,
        TokenKind::OrOr => "||"@,
        TokenKind::EqEq => "=="@,
        TokenKind::BangEq => "!="@,
        TokenKind::Lt => "<"@,
        TokenKind::Gt => ">"@,
        TokenKind::LtEq => "<="@,
        TokenKind::GtEq => ">="@,
        TokenKind::Question => "?"@,
        TokenKind::Colon => ":"@,
        TokenKind::LParen => "("@,
        TokenKind::RParen => ")"@,
        TokenKind::LBracket => "["@,
        TokenKind::RBracket => "]"@,
        TokenKind::Dot => "."@,
        TokenKind::Comma => ","@,
        TokenKind::Int => "<int>"@,
        TokenKind::Ident => "<id>"@,
        TokenKind::Eof => "<eof>"@,
    }
}

/// Display text of a token kind.
pub fn token_text(t: TokenKind) -> (r: &'static str)
    ensures
        r@ == token_chars(t),
{
    match t {
        TokenKind::Plus => "+",
        TokenKind::Minus => "-",
        TokenKind::Star => "*",
        TokenKind::Slash => "/",
        TokenKind::Percent => "%",
        TokenKind::Caret => "^",
        TokenKind::Bang => "!",
        TokenKind::AndAnd => "&&",
        TokenKind::OrOr => "||",
        TokenKind::EqEq => "==",
        TokenKind::BangEq => "!=",
        TokenKind::Lt => "<",
        TokenKind::Gt => ">",
        TokenKind::LtEq => "<=",
        TokenKind::GtEq => ">=",
        TokenKind::Question => "?",
        TokenKind::Colon => ":",
        TokenKind::LParen => "(",
        TokenKind::RParen => ")",
        TokenKind::LBracket => "[",
        TokenKind::RBracket => "]",
        TokenKind::Dot => ".",
        TokenKind::Comma => ",",
        TokenKind::Int => "<int>",
        TokenKind::Ident => "<id>",
        TokenKind::Eof => "<eof>",
    }
}

/// Fully parenthesised rendering of a tree.
pub open spec fn unparsed(t: Shape) -> Seq<char>
    decreases t, 0int,
{
    match t.kind {
        ShapeKind::Atom(s) => s,
        ShapeKind::Prefix { op, child } => "("@ + token_chars(op) + unparsed(*child) + ")"@,
        ShapeKind::Binary { op, left, right } => "("@ + unparsed(*left) + " "@ + token_chars(op)
            + " "@ + unparsed(*right) + ")"@,
        ShapeKind::Ternary { cond, then, else_ } => "("@ + unparsed(*cond) + " ? "@ + unparsed(
            *then,
        ) + " : "@ + unparsed(*else_) + ")"@,
        ShapeKind::Paren { inner } => unparsed(*inner),
        ShapeKind::Call { callee, args } => "("@ + unparsed(*callee) + "("@ + unparsed_upto(
            args,
            args.len() as int,
        ) + "))"@,
        ShapeKind::Index { array, index } => "("@ + unparsed(*array) + "["@ + unparsed(*index)
            + "])"@,
        ShapeKind::Member { object, field } => "("@ + unparsed(*object) + "."@ + field + ")"@,
        ShapeKind::Missing => "⟨missing⟩"@,
        ShapeKind::Error { skipped } => "⟨error⟩"@,
    }
}

/// The first `k` trees of a list, separated by commas.
pub open spec fn unparsed_upto(ts: Seq<Shape>, k: int) -> Seq<char>
    decreases ts, k,
{
    if 0 < k <= ts.len() {
        if k == 1 {
            unparsed(ts[0])
        } else {
            unparsed_upto(ts, k - 1) + ", "@ + unparsed(ts[k - 1])
        }
    } else {
        Seq::empty()
    }
}

/// Rendering of an expression; a chain is one n-ary form.
pub open spec fn form_text(f: Form) -> Seq<char>
    decreases f, 0int,
{
    match f.kind {
        FormKind::Atom(s) => s,
        FormKind::Prefix { op, child } => "("@ + token_chars(op) + form_text(*child) + ")"@,
        FormKind::Chain { op, operands } => "("@ + list_text(
            operands,
            operands.len() as int,
            " "@ + token_chars(op) + " "@,
        ) + ")"@,
        FormKind::Binary { op, left, right } => "("@ + form_text(*left) + " "@ + token_chars(op)
            + " "@ + form_text(*right) + ")"@,
        FormKind::Ternary { cond, then, else_ } => "("@ + form_text(*cond) + " ? "@ + form_text(
            *then,
        ) + " : "@ + form_text(*else_) + ")"@,
        FormKind::Paren { inner } => form_text(*inner),
        FormKind::Call { callee, args } => "("@ + form_text(*callee) + "("@ + list_text(
            args,
            args.len() as int,
            ", "@,
        ) + "))"@,
        FormKind::Index { array, index } => "("@ + form_text(*array) + "["@ + form_text(*index)
            + "])"@,
        FormKind::Member { object, field } => "("@ + form_text(*object) + "."@ + field + ")"@,
        FormKind::Missing => "⟨missing⟩"@,
        FormKind::Error { skipped } => "⟨error⟩"@,
    }
}

/// The first `k` expressions of a list, separated by `sep`.
pub open spec fn list_text(fs: Seq<Form>, k: int, sep: Seq<char>) -> Seq<char>
    decreases fs, k,
{
    if 0 < k <= fs.len() {
        if k == 1 {
            form_text(fs[0])
        } else {
            list_text(fs, k - 1, sep) + sep + form_text(fs[k - 1])
        }
    } else {
        Seq::empty()
    }
}

proof fn lemma_list_text_prefix(fs: Seq<Form>, gs: Seq<Form>, k: int, sep: Seq<char>)
    requires
        0 <= k <= fs.len(),
    ensures
        list_text(fs + gs, k, sep) == list_text(fs, k, sep),
    decreases k,
{
    if k > 0 {
        assert((fs + gs)[k - 1] == fs[k - 1]);
        assert((fs + gs)[0] == fs[0]);
        lemma_list_text_prefix(fs, gs, k - 1, sep);
    }
}

proof fn lemma_list_text_concat(fs: Seq<Form>, gs: Seq<Form>, k: int, sep: Seq<char>)
    requires
        fs.len() >= 1,
        1 <= k <= gs.len(),
    ensures
        list_text(fs + gs, fs.len() + k, sep) == list_text(fs, fs.len() as int, sep) + sep + list_text(
            gs,
            k,
            sep,
        ),
    decreases k,
{
    let all = fs + gs;
    let n = fs.len() as int;
    assert(all[n + k - 1] == gs[k - 1]);
    if k == 1 {
        lemma_list_text_prefix(fs, gs, n, sep);
    } else {
        lemma_list_text_concat(fs, gs, k - 1, sep);
        assert(list_text(fs, n, sep) + sep + list_text(gs, k, sep) =~= (list_text(fs, n, sep) + sep
            + list_text(gs, k - 1, sep)) + sep + form_text(gs[k - 1]));
    }
}

fn unparse_args(args: &Vec<Arc<Node>>) -> (r: String)
    ensures
        r@ == unparsed_upto(shapes(args@), args@.len() as int),
    decreases args,
{
    let mut out: String = String::new();
    let mut i: usize = 0;
    while i < args.len()
        invariant
            i <= args@.len(),
            out@ == unparsed_upto(shapes(args@), i as int),
        decreases args@.len() - i,
    {
        if i > 0 {
            out.append(", ");
        }
        let part = args[i].unparse();
        out.append(part.as_str());
        proof {
            assert(shapes(args@)[i as int] == args@[i as int]@);
            assert(out@ =~= unparsed_upto(shapes(args@), i + 1));
        }
        i = i + 1;
    }
    out
}

fn normalized_args(args: &Vec<Arc<Node>>) -> (r: String)
    ensures
        r@ == list_text(norms(shapes(args@)), args@.len() as int, ", "@),
    decreases args, 0int,
{
    let mut out: String = String::new();
    let mut i: usize = 0;
    while i < args.len()
        invariant
            i <= args@.len(),
            out@ == list_text(norms(shapes(args@)), i as int, ", "@),
        decreases args@.len() - i,
    {
        if i > 0 {
            out.append(", ");
        }
        let part = args[i].unparse_normalized();
        out.append(part.as_str());
        proof {
            assert(norms(shapes(args@))[i as int] == norm(args@[i as int]@));
            assert(out@ =~= list_text(norms(shapes(args@)), i + 1, ", "@));
        }
        i = i + 1;
    }
    out
}

/// The operands of a tree seen as a chain of `chain_op`, rendered and
/// separated by the operator.
fn flatten_assoc(node: &Node, chain_op: TokenKind) -> (r: String)
    requires
        chain_kind(chain_op),
    ensures
        r@ == list_text(
            flat(node@, chain_op),
            flat(node@, chain_op).len() as int,
            " "@ + token_chars(chain_op) + " "@,
        ),
    decreases node, 1int,
{
    proof {
        lemma_flat_nonempty(node@, chain_op);
    }
    match &node.kind {
        NodeKind::Binary { op, left, right } => if *op == chain_op {
            let mut out = flatten_assoc(left, chain_op);
            out.append(" ");
            out.append(token_text(chain_op));
            out.append(" ");
            let tail = flatten_assoc(right, chain_op);
            out.append(tail.as_str());
            proof {
                let l = flat(left@, chain_op);
                let r = flat(right@, chain_op);
                let sep = " "@ + token_chars(chain_op) + " "@;
                lemma_flat_nonempty(left@, chain_op);
                lemma_flat_nonempty(right@, chain_op);
                lemma_list_text_concat(l, r, r.len() as int, sep);
                assert(out@ =~= list_text(l, l.len() as int, sep) + sep + list_text(
                    r,
                    r.len() as int,
                    sep,
                ));
            }
            out
        } else {
            node.unparse_normalized()
        },
        _ => node.unparse_normalized(),
    }
}

impl Node {
    /// Canonical rendering: fully parenthesised, independent of positions.
    pub fn unparse(&self) -> (r: String)
        ensures
            r@ == unparsed(self@),
        decreases self,
    {
        match &self.kind {
            NodeKind::Atom(s) => s.clone(),
            NodeKind::Prefix { op, child } => {
                let mut out: String = "(".to_owned();
                out.append(token_text(*op));
                let c = child.unparse();
                out.append(c.as_str());
                out.append(")");
                out
            },
            NodeKind::Binary { op, left, right } => {
                let mut out: String = "(".to_owned();
                let l = left.unparse();
                out.append(l.as_str());
                out.append(" ");
                out.append(token_text(*op));
                out.append(" ");
                let r = right.unparse();
                out.append(r.as_str());
                out.append(")");
                out
            },
            NodeKind::Ternary { cond, then, else_ } => {
                let mut out: String = "(".to_owned();
                let c = cond.unparse();
                out.append(c.as_str());
                out.append(" ? ");
                let t = then.unparse();
                out.append(t.as_str());
                out.append(" : ");
                let e = else_.unparse();
                out.append(e.as_str());
                out.append(")");
                out
            },
            NodeKind::Paren { inner } => inner.unparse(),
            NodeKind::Call { callee, args } => {
                let mut out: String = "(".to_owned();
                let c = callee.unparse();
                out.append(c.as_str());
                out.append("(");
                let a = unparse_args(args);
                out.append(a.as_str());
                out.append("))");
                proof {
                    lemma_call_shape(self);
                }
                out
            },
            NodeKind::Index { array, index } => {
                let mut out: String = "(".to_owned();
                let a = array.unparse();
                out.append(a.as_str());
                out.append("[");
                let i = index.unparse();
                out.append(i.as_str());
                out.append("])");
                out
            },
            NodeKind::Member { object, field } => {
                let mut out: String = "(".to_owned();
                let o = object.unparse();
                out.append(o.as_str());
                out.append(".");
                out.append(field.as_str());
                out.append(")");
                out
            },
            NodeKind::Missing => "⟨missing⟩".to_owned(),
            NodeKind::Error { skipped: _ } => "⟨error⟩".to_owned(),
        }
    }

    /// Canonical rendering in which every chain of one associativity-conflict
    /// operator is one n-ary form: trees that differ only in how a chain is
    /// grouped render alike.
    pub fn unparse_normalized(&self) -> (r: String)
        ensures
            r@ == form_text(norm(self@)),
        decreases self, 0int,
    {
        match &self.kind {
            NodeKind::Atom(s) => s.clone(),
            NodeKind::Prefix { op, child } => {
                let mut out: String = "(".to_owned();
                out.append(token_text(*op));
                let c = child.unparse_normalized();
                out.append(c.as_str());
                out.append(")");
                out
            },
            NodeKind::Binary { op, left, right } => {
                let mut out: String = "(".to_owned();
                if is_associativity_conflict(*op) {
                    let head = flatten_assoc(left, *op);
                    out.append(head.as_str());
                    out.append(" ");
                    out.append(token_text(*op));
                    out.append(" ");
                    let tail = flatten_assoc(right, *op);
                    out.append(tail.as_str());
                    proof {
                        let l = flat(left@, *op);
                        let r = flat(right@, *op);
                        let sep = " "@ + token_chars(*op) + " "@;
                        lemma_flat_nonempty(left@, *op);
                        lemma_flat_nonempty(right@, *op);
                        lemma_list_text_concat(l, r, r.len() as int, sep);
                        assert(out@ =~= "("@ + (list_text(l, l.len() as int, sep) + sep + list_text(
                            r,
                            r.len() as int,
                            sep,
                        )));
                    }
                } else {
                    let l = left.unparse_normalized();
                    out.append(l.as_str());
                    out.append(" ");
                    out.append(token_text(*op));
                    out.append(" ");
                    let r = right.unparse_normalized();
                    out.append(r.as_str());
                }
                out.append(")");
                out
            },
            NodeKind::Ternary { cond, then, else_ } => {
                let mut out: String = "(".to_owned();
                let c = cond.unparse_normalized();
                out.append(c.as_str());
                out.append(" ? ");
                let t = then.unparse_normalized();
                out.append(t.as_str());
                out.append(" : ");
                let e = else_.unparse_normalized();
                out.append(e.as_str());
                out.append(")");
                out
            },
            NodeKind::Paren { inner } => inner.unparse_normalized(),
            NodeKind::Call { callee, args } => {
                let mut out: String = "(".to_owned();
                let c = callee.unparse_normalized();
                out.append(c.as_str());
                out.append("(");
                let a = normalized_args(args);
                out.append(a.as_str());
                out.append("))");
                proof {
                    lemma_call_shape(self);
                    lemma_norm_call(self@);
                }
                out
            },
            NodeKind::Index { array, index } => {
                let mut out: String = "(".to_owned();
                let a = array.unparse_normalized();
                out.append(a.as_str());
                out.append("[");
                let i = index.unparse_normalized();
                out.append(i.as_str());
                out.append("])");
                out
            },
            NodeKind::Member { object, field } => {
                let mut out: String = "(".to_owned();
                let o = object.unparse_normalized();
                out.append(o.as_str());
                out.append(".");
                out.append(field.as_str());
                out.append(")");
                out
            },
            NodeKind::Missing => "⟨missing⟩".to_owned(),
            NodeKind::Error { skipped: _ } => "⟨error⟩".to_owned(),
        }
    }
}

/// Regrouping a chain does not change the normal form: it keeps the operands
/// and their order.
pub proof fn law_regrouping(t: Shape, u: Shape, op: TokenKind)
    requires
        chain_kind(op),
        is_bin(t, op),
        is_bin(u, op),
        flat(t, op) == flat(u, op),
        t.width == u.width,
        t.m_spine == u.m_spine,
        t.stop_lbp == u.stop_lbp,
    ensures
        norm(t) == norm(u),
        form_text(norm(t)) == form_text(norm(u)),
{
}

/// Trees that are alike are written alike.
pub proof fn law_alike_unparse(t: Shape, u: Shape)
    requires
        alike(t, u),
    ensures
        unparsed(t) == unparsed(u),
    decreases t,
{
    match (t.kind, u.kind) {
        (ShapeKind::Prefix { op: o, child: x }, ShapeKind::Prefix { op: p, child: y }) => {
            law_alike_unparse(*x, *y);
        },
        (
            ShapeKind::Binary { op: o, left: x, right: v },
            ShapeKind::Binary { op: p, left: y, right: w },
        ) => {
            law_alike_unparse(*x, *y);
            law_alike_unparse(*v, *w);
        },
        (
            ShapeKind::Ternary { cond: x, then: v, else_: c },
            ShapeKind::Ternary { cond: y, then: w, else_: d },
        ) => {
            law_alike_unparse(*x, *y);
            law_alike_unparse(*v, *w);
            law_alike_unparse(*c, *d);
        },
        (ShapeKind::Paren { inner: x }, ShapeKind::Paren { inner: y }) => {
            law_alike_unparse(*x, *y);
        },
        (ShapeKind::Call { callee: x, args: v }, ShapeKind::Call { callee: y, args: w }) => {
            law_alike_unparse(*x, *y);
            lemma_alike_upto(v, w, v.len() as int);
        },
        (ShapeKind::Index { array: x, index: v }, ShapeKind::Index { array: y, index: w }) => {
            law_alike_unparse(*x, *y);
            law_alike_unparse(*v, *w);
        },
        (ShapeKind::Member { object: x, field: f }, ShapeKind::Member { object: y, field: g }) => {
            law_alike_unparse(*x, *y);
        },
        _ => {},
    }
}

proof fn lemma_alike_upto(v: Seq<Shape>, w: Seq<Shape>, k: int)
    requires
        v.len() == w.len(),
        0 <= k <= v.len(),
        forall|i: int| 0 <= i < v.len() ==> alike(#[trigger] v[i], w[i]),
    ensures
        unparsed_upto(v, k) == unparsed_upto(w, k),
    decreases v, k,
{
    if k > 0 {
        assert(alike(v[k - 1], w[k - 1]));
        law_alike_unparse(v[k - 1], w[k - 1]);
        lemma_alike_upto(v, w, k - 1);
        if k == 1 {
            assert(alike(v[0], w[0]));
        }
    }
}

} // verus!
