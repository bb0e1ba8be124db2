//! Programs of a statement grammar around expressions: trees and parsing from
//! scratch.

use std::sync::Arc;
use vstd::prelude::*;
use vstd::string::*;
use vstd::utf8::*;

use crate::ascii::{NEWLINE, RETURN, SPACE, TAB};
use crate::expr::lexer::lemma_boundary_after;
use crate::runtime::ast::{form, form_text, Node};
use crate::runtime::cursor::{is_space, is_word, lemma_word_end, stands_at, word, word_end};
use crate::runtime::grammar::{expr, lemma_nud, nud, parsed, ParseError};
use crate::runtime::host_grammar::{
    choices, chosen, first_term, head_len, head_open, heads_len, is_keyword, lit, literal_stands,
    prod_parsed, program_parsed, scanned, takes_bytes, terminator, terms_parsed, then_kids, Fault,
    Grammar, KidKind, KidModel, Kids, Term, Tree3,
};
use crate::runtime::parser::{is_parse, parse};
use crate::runtime::table::{Table, MIN_PREC};
use crate::runtime::verify::past_space;
use crate::text::slice;

verus! {

// ---- Trees -------------------------------------------------------------

/// A child of a tree: the bytes it takes, white space before it included, and
/// what it is.
#[derive(Debug)]
pub struct Child {
    pub width: u32,
    pub node: ChildNode,
}

#[derive(Debug)]
pub enum ChildNode {
    /// A literal.
    Tok(String),
    /// An identifier.
    Id(String),
    /// An expression.
    Expr(Arc<Node>),
    /// A production.
    Sub(Arc<Tree>),
}

/// A production and its children. `width` is the sum of theirs.
#[derive(Debug)]
pub struct Tree {
    pub prod: usize,
    pub alt: usize,
    pub kids: Vec<Child>,
    pub width: u32,
}

#[derive(Debug)]
pub struct Program {
    pub root: Tree,
}

/// What a reparse did.
#[derive(Debug, Clone, Copy)]
pub struct HostStats {
    /// Productions kept whole.
    pub stmts_reused: u32,
    /// Productions parsed again.
    pub stmts_reparsed: u32,
    /// Expressions kept inside the edited expression.
    pub exprs_reused: u32,
    /// The whole program was parsed again.
    pub fell_back: bool,
    /// Depth of the innermost production parsed again; 0 is the root.
    pub reuse_depth: u32,
}

#[derive(Debug)]
pub enum HostError {
    /// An expression does not parse.
    Expr(ParseError),
    /// What was expected, and where.
    Expected(String, u32),
    /// The program ends before the text does.
    Trailing(u32),
}

impl Default for HostStats {
    fn default() -> (r: HostStats)
        ensures
            r.stmts_reused == 0 && r.stmts_reparsed == 0 && r.exprs_reused == 0 && !r.fell_back
                && r.reuse_depth == 0,
    {
        HostStats {
            stmts_reused: 0,
            stmts_reparsed: 0,
            exprs_reused: 0,
            fell_back: false,
            reuse_depth: 0,
        }
    }
}

impl Clone for Child {
    fn clone(&self) -> (r: Child)
        ensures
            r == *self,
    {
        let node = match &self.node {
            ChildNode::Tok(s) => ChildNode::Tok(s.clone()),
            ChildNode::Id(s) => ChildNode::Id(s.clone()),
            ChildNode::Expr(n) => ChildNode::Expr(n.clone()),
            ChildNode::Sub(s) => ChildNode::Sub(s.clone()),
        };
        Child { width: self.width, node }
    }
}

/// What a child says.
pub open spec fn kid_model(t: Table, c: Child) -> KidModel
    decreases c,
{
    KidModel {
        width: c.width as int,
        what: match c.node {
            ChildNode::Tok(s) => KidKind::Tok(s@),
            ChildNode::Id(s) => KidKind::Id(s@),
            ChildNode::Expr(n) => KidKind::Expr(form(t, n)),
            ChildNode::Sub(s) => KidKind::Sub {
                prod: s.prod as int,
                alt: s.alt as int,
                kids: tree_kids(t, *s),
            },
        },
    }
}

/// What the children of a tree say.
pub open spec fn tree_kids(t: Table, tree: Tree) -> Seq<KidModel>
    decreases tree,
{
    Seq::new(
        tree.kids@.len(),
        |i: int|
            if 0 <= i < tree.kids@.len() {
                kid_model(t, tree.kids@[i])
            } else {
                arbitrary()
            },
    )
}

pub open spec fn kids_of(t: Table, s: Seq<Child>) -> Seq<KidModel> {
    Seq::new(s.len(), |i: int| kid_model(t, s[i]))
}

pub proof fn lemma_tree_kids(t: Table, tree: Tree)
    ensures
        tree_kids(t, tree) == kids_of(t, tree.kids@),
{
    assert(tree_kids(t, tree) =~= kids_of(t, tree.kids@));
}

/// The bytes that children take.
pub open spec fn extent(s: Seq<Child>) -> int
    decreases s.len(),
{
    if s.len() == 0 {
        0
    } else {
        extent(s.drop_last()) + s.last().width
    }
}

/// Where child `i` starts.
pub open spec fn place(pos: int, s: Seq<Child>, i: int) -> int {
    pos + extent(s.take(i))
}

/// The tree is made of what stands from byte `pos` on: widths add up, and
/// expressions are those of their bytes.
pub open spec fn sound(t: Table, b: Seq<u8>, pos: int, tree: Tree) -> bool
    decreases tree,
{
    &&& 0 <= pos
    &&& pos + tree.width <= b.len()
    &&& tree.width == extent(tree.kids@)
    &&& forall|i: int|
        0 <= i < tree.kids@.len() ==> kid_sound(
            t,
            b,
            place(pos, tree.kids@, i),
            #[trigger] tree.kids@[i],
        )
}

pub open spec fn kid_sound(t: Table, b: Seq<u8>, pos: int, c: Child) -> bool
    decreases c,
{
    match c.node {
        ChildNode::Expr(n) => is_parse(t, b.subrange(pos, pos + c.width), n),
        ChildNode::Sub(s) => s.width == c.width && sound(t, b, pos, *s),
        _ => true,
    }
}

/// A tree as a parse of its production: its alternative, its children and
/// where it ends.
pub open spec fn outcome(t: Table, pos: int, tree: Tree) -> Tree3 {
    Ok((tree.alt as int, tree_kids(t, tree), pos + tree.width))
}

/// The tree is what its production parses to from byte `pos` on.
pub open spec fn holds(t: Table, g: Grammar, b: Seq<u8>, pos: int, tree: Tree) -> bool {
    &&& prod_parsed(t, g, b, tree.prod as int, pos) == outcome(t, pos, tree)
    &&& sound(t, b, pos, tree)
}

/// An error as a fault.
pub open spec fn fault_of(x: HostError) -> Fault {
    match x {
        HostError::Expr(y) => Fault::Expr(y),
        HostError::Expected(s, at) => Fault::Expected(s@, at as int),
        HostError::Trailing(at) => Fault::Trailing(at as int),
    }
}

/// The program is what the text parses to.
pub open spec fn is_program(t: Table, g: Grammar, b: Seq<u8>, prog: Program) -> bool {
    &&& prog.root.prod == g.start
    &&& program_parsed(t, g, b) == outcome(t, 0, prog.root)
    &&& sound(t, b, 0, prog.root)
    &&& measured(prog.root)
}

/// What parsing a program returns: the program, or the fault.
pub open spec fn program_ok(
    t: Table,
    g: Grammar,
    b: Seq<u8>,
    r: Result<Program, HostError>,
) -> bool {
    match r {
        Ok(prog) => is_program(t, g, b, prog),
        Err(x) => program_parsed(t, g, b) == Err::<(int, Seq<KidModel>, int), Fault>(fault_of(x)),
    }
}

// ---- Places ------------------------------------------------------------

pub proof fn lemma_past_space(b: Seq<u8>, pos: int)
    requires
        0 <= pos <= b.len(),
    ensures
        pos <= past_space(b, pos) <= b.len(),
        forall|k: int| pos <= k < past_space(b, pos) ==> is_space(#[trigger] b[k]),
        past_space(b, pos) < b.len() ==> !is_space(b[past_space(b, pos)]),
    decreases b.len() - pos,
{
    if pos < b.len() && is_space(b[pos]) {
        lemma_past_space(b, pos + 1);
    }
}

/// White space ends at character boundaries.
pub proof fn lemma_space_boundary(b: Seq<u8>, pos: int)
    requires
        valid_utf8(b),
        0 <= pos <= b.len(),
        is_char_boundary(b, pos),
    ensures
        is_char_boundary(b, past_space(b, pos)),
{
    lemma_past_space(b, pos);
    let e = past_space(b, pos);
    if e > pos {
        assert(is_space(b[e - 1]));
        lemma_boundary_after(b, e);
    }
}

/// Where a part that is UTF-8 starts and text that is UTF-8 goes on, the part
/// ends at a character boundary.
proof fn lemma_part_boundary(s: Seq<u8>, n: int)
    requires
        valid_utf8(s),
        0 <= n <= s.len(),
        valid_utf8(s.subrange(0, n)),
    ensures
        is_char_boundary(s, n),
    decreases n,
{
    if n > 0 {
        let h = s.subrange(0, n);
        assert(h[0] == s[0]);
        assert(valid_first_scalar(h) && valid_first_scalar(s));
        let k = length_of_first_scalar(s);
        assert(length_of_first_scalar(h) == k);
        assert(1 <= k <= n);
        assert(pop_first_scalar(h) =~= pop_first_scalar(s).subrange(0, n - k));
        lemma_part_boundary(pop_first_scalar(s), n - k);
    }
}

pub proof fn lemma_literal_boundary(b: Seq<u8>, at: int, x: Seq<u8>)
    requires
        valid_utf8(b),
        valid_utf8(x),
        stands_at(b, at, x),
        is_char_boundary(b, at),
    ensures
        is_char_boundary(b, at + x.len()),
{
    valid_utf8_split(b, at);
    let s = b.subrange(at, b.len() as int);
    assert(s.subrange(0, x.len() as int) =~= x);
    lemma_part_boundary(s, x.len() as int);
    is_char_boundary_start_end_of_seq(b);
    if at + x.len() < b.len() {
        is_char_boundary_iff_not_is_continuation_byte(s, x.len() as int);
        is_char_boundary_iff_not_is_continuation_byte(b, at + x.len());
        assert(s[x.len() as int] == b[at + x.len()]);
    }
}

/// A literal starts at a character boundary.
pub proof fn lemma_literal_start(b: Seq<u8>, at: int, x: Seq<u8>)
    requires
        valid_utf8(b),
        valid_utf8(x),
        x.len() > 0,
        stands_at(b, at, x),
    ensures
        is_char_boundary(b, at),
{
    assert(b.subrange(at, at + x.len())[0] == b[at]);
    is_char_boundary_start_end_of_seq(x);
    is_char_boundary_iff_not_is_continuation_byte(x, 0);
    is_char_boundary_iff_not_is_continuation_byte(b, at);
}

pub proof fn lemma_scanned(b: Seq<u8>, pos: int, s: Option<Seq<u8>>)
    requires
        0 <= pos <= b.len(),
    ensures
        pos <= scanned(b, pos, s) <= b.len(),
        scanned(b, pos, s) == b.len() || (s is Some && s->0.len() > 0 && stands_at(
            b,
            scanned(b, pos, s),
            s->0,
        )),
        s is Some ==> forall|k: int|
            pos <= k < scanned(b, pos, s) && s->0.len() > 0 ==> !#[trigger] stands_at(b, k, s->0),
    decreases b.len() - pos,
{
    if s is Some && s->0.len() > 0 && pos + s->0.len() <= b.len() && !stands_at(b, pos, s->0) {
        lemma_scanned(b, pos + 1, s);
    }
}

/// Nothing parses to no expression.
pub proof fn lemma_no_expr(t: Table, b: Seq<u8>)
    requires
        t.wf(),
        b.len() == 0,
    ensures
        parsed(t, b) is Err,
{
    lemma_nud(t, b, 0);
    assert(crate::runtime::cursor::next_token(t, b, 0).kind is Eof);
    assert(nud(t, b, 0) is Err);
    assert(expr(t, b, 0, MIN_PREC) is Err);
}

pub proof fn lemma_then(a: Seq<KidModel>, k: KidModel, rest: Kids)
    ensures
        then_kids(a, then_kids(seq![k], rest)) == then_kids(a.push(k), rest),
{
    match rest {
        Ok((s, e)) => {
            assert(a + (seq![k] + s) =~= a.push(k) + s);
        },
        Err(x) => {},
    }
}

pub proof fn lemma_push_kid(t: Table, b: Seq<u8>, pos: int, s: Seq<Child>, c: Child)
    ensures
        kids_of(t, s.push(c)) == kids_of(t, s).push(kid_model(t, c)),
        extent(s.push(c)) == extent(s) + c.width,
        forall|i: int| 0 <= i <= s.len() ==> #[trigger] place(pos, s.push(c), i) == place(pos, s, i),
{
    assert(kids_of(t, s.push(c)) =~= kids_of(t, s).push(kid_model(t, c)));
    assert(s.push(c).drop_last() =~= s);
    assert forall|i: int| 0 <= i <= s.len() implies #[trigger] place(pos, s.push(c), i) == place(
        pos,
        s,
        i,
    ) by {
        assert(s.push(c).take(i) =~= s.take(i));
    }
}

/// The children so far are made of what stands from byte `pos` on.
pub open spec fn kids_sound(t: Table, b: Seq<u8>, pos: int, s: Seq<Child>) -> bool {
    forall|i: int| 0 <= i < s.len() ==> kid_sound(t, b, place(pos, s, i), #[trigger] s[i])
}

pub proof fn lemma_push_sound(t: Table, b: Seq<u8>, pos: int, s: Seq<Child>, c: Child)
    requires
        kids_sound(t, b, pos, s),
        kid_sound(t, b, pos + extent(s), c),
    ensures
        kids_sound(t, b, pos, s.push(c)),
{
    lemma_push_kid(t, b, pos, s, c);
    assert(s.take(s.len() as int) =~= s);
    assert forall|i: int| 0 <= i < s.push(c).len() implies kid_sound(
        t,
        b,
        place(pos, s.push(c), i),
        #[trigger] s.push(c)[i],
    ) by {
        if i < s.len() {
            assert(s.push(c)[i] == s[i]);
        }
    }
}

// ---- Parsing -----------------------------------------------------------

/// A text to parse.
pub struct HostParser<'a> {
    pub t: &'a Table,
    pub g: &'a Grammar,
    pub s: &'a str,
    pub b: &'a [u8],
}

impl<'a> HostParser<'a> {
    pub open spec fn ok(&self) -> bool {
        &&& self.t.wf()
        &&& self.g.wf()
        &&& self.g.ranked(self.g.ranks())
        &&& self.b@ == self.s.spec_bytes()
        &&& self.b@.len() <= u32::MAX
        &&& valid_utf8(self.b@)
    }

    /// `pos` is a place of the text.
    pub open spec fn at(&self, pos: int) -> bool {
        0 <= pos <= self.b@.len() && is_char_boundary(self.b@, pos)
    }

    pub fn new(t: &'a Table, g: &'a Grammar, s: &'a str) -> (r: HostParser<'a>)
        requires
            t.wf(),
            g.wf(),
            g.grounded(),
            s.spec_bytes().len() <= u32::MAX,
        ensures
            r.ok(),
            r.t == t,
            r.g == g,
            r.b@ == s.spec_bytes(),
    {
        proof {
            encode_utf8_valid_utf8(s@);
        }
        HostParser { t, g, s, b: s.as_bytes() }
    }

    /// The first byte at or after `pos` that is no white space.
    pub fn past_ws(&self, pos: usize) -> (r: usize)
        requires
            pos <= self.b@.len(),
        ensures
            r == past_space(self.b@, pos as int),
            pos <= r <= self.b@.len(),
    {
        let mut i: usize = pos;
        while i < self.b.len() && (self.b[i] == SPACE || self.b[i] == TAB || self.b[i] == NEWLINE
            || self.b[i] == RETURN)
            invariant
                pos <= i <= self.b@.len(),
                past_space(self.b@, pos as int) == past_space(self.b@, i as int),
            decreases self.b@.len() - i,
        {
            i = i + 1;
        }
        i
    }

    /// Whether `x` stands at byte `i`.
    fn bytes_at(&self, i: usize, x: &[u8]) -> (r: bool)
        requires
            i <= self.b@.len(),
        ensures
            r == stands_at(self.b@, i as int, x@),
    {
        let n: usize = self.b.len();
        if x.len() > n - i {
            return false;
        }
        let mut k: usize = 0;
        while k < x.len()
            invariant
                k <= x@.len(),
                i + x@.len() <= n,
                n == self.b@.len(),
                forall|j: int| 0 <= j < k ==> self.b@[i + j] == #[trigger] x@[j],
            decreases x@.len() - k,
        {
            if self.b[i + k] != x[k] {
                proof {
                    assert(self.b@.subrange(i as int, i + x@.len())[k as int] != x@[k as int]);
                }
                return false;
            }
            k = k + 1;
        }
        assert(self.b@.subrange(i as int, i + x@.len()) =~= x@);
        true
    }

    /// Whether the literal stands at byte `i`, as a whole word if it is one.
    pub fn literal_at(&self, i: usize, s: &String) -> (r: bool)
        requires
            i <= self.b@.len(),
        ensures
            r == literal_stands(self.b@, i as int, lit(*s)),
    {
        let x = s.as_str().as_bytes();
        if !self.bytes_at(i, x) {
            return false;
        }
        let mut k: usize = 0;
        while k < x.len()
            invariant
                k <= x@.len(),
                forall|j: int| 0 <= j < k ==> is_word(#[trigger] x@[j]),
                x@ == lit(*s),
                stands_at(self.b@, i as int, x@),
            decreases x@.len() - k,
        {
            if !word(x[k]) {
                return true;
            }
            k = k + 1;
        }
        let n: usize = self.b.len();
        i + x.len() >= n || !word(self.b[i + x.len()])
    }

    /// Length of the longest literal at byte `at` that an alternative of
    /// these terms can begin with.
    fn head_match(&self, terms: &Vec<Term>, at: usize, depth: usize) -> (r: Option<usize>)
        requires
            self.ok(),
            at <= self.b@.len(),
            forall|i: int| 0 <= i < terms@.len() ==> self.g.term_ok(#[trigger] terms@[i]),
        ensures
            match r {
                Some(n) => head_len(*self.g, self.b@, first_term(terms@), at as int, depth as int)
                    == Some(n as int),
                None => head_len(*self.g, self.b@, first_term(terms@), at as int, depth as int)
                    is None,
            },
        decreases self.g.prods@.len() + 1 - depth,
    {
        if depth > self.g.prods.len() || terms.len() == 0 {
            return None;
        }
        let p: usize = match &terms[0] {
            Term::Tok(s) => {
                return if self.literal_at(at, s) {
                    Some(s.as_str().as_bytes().len())
                } else {
                    None
                };
            },
            Term::Nt(i) => *i,
            Term::Rep(i) => *i,
            Term::Ident => {
                return None;
            },
            Term::Expr => {
                return None;
            },
        };
        assert(self.g.term_ok(terms@[0]));
        let alts = &self.g.prods[p].alts;
        let mut best: Option<usize> = None;
        let mut a: usize = 0;
        while a < alts.len()
            invariant
                self.ok(),
                p < self.g.prods@.len(),
                alts == &self.g.prods@[p as int].alts,
                at <= self.b@.len(),
                depth <= self.g.prods@.len(),
                a <= alts@.len(),
                match best {
                    Some(n) => heads_len(*self.g, self.b@, p as int, a as int, at as int, depth as int)
                        == Some(n as int),
                    None => heads_len(*self.g, self.b@, p as int, a as int, at as int, depth as int)
                        is None,
                },
            decreases alts@.len() - a,
        {
            proof {
                self.lemma_terms_ok(p as int, a as int);
            }
            match self.head_match(&alts[a].terms, at, depth + 1) {
                Some(n) => {
                    let better: bool = match best {
                        Some(m) => n > m,
                        None => true,
                    };
                    if better {
                        best = Some(n);
                    }
                },
                None => {},
            }
            a = a + 1;
        }
        best
    }

    pub proof fn lemma_terms_ok(&self, p: int, a: int)
        requires
            self.ok(),
            0 <= p < self.g.prods@.len(),
            0 <= a < self.g.prods@[p].alts@.len(),
        ensures
            forall|i: int|
                0 <= i < self.g.prods@[p].alts@[a].terms@.len() ==> self.g.term_ok(
                    #[trigger] self.g.prods@[p].alts@[a].terms@[i],
                ),
    {
        assert forall|i: int| 0 <= i < self.g.prods@[p].alts@[a].terms@.len() implies self.g.term_ok(
            #[trigger] self.g.prods@[p].alts@[a].terms@[i],
        ) by {
            assert(self.g.term_ok(self.g.terms(p, a)[i]));
        }
    }

    /// Whether an alternative of these terms can begin without a literal.
    fn head_is_open(&self, terms: &Vec<Term>, depth: usize) -> (r: bool)
        requires
            self.ok(),
            forall|i: int| 0 <= i < terms@.len() ==> self.g.term_ok(#[trigger] terms@[i]),
        ensures
            r == head_open(*self.g, first_term(terms@), depth as int),
        decreases self.g.prods@.len() + 1 - depth,
    {
        if depth > self.g.prods.len() {
            return false;
        }
        if terms.len() == 0 {
            return true;
        }
        let p: usize = match &terms[0] {
            Term::Tok(s) => {
                return false;
            },
            Term::Nt(i) => *i,
            _ => {
                return true;
            },
        };
        assert(self.g.term_ok(terms@[0]));
        let alts = &self.g.prods[p].alts;
        let mut a: usize = 0;
        while a < alts.len()
            invariant
                self.ok(),
                p < self.g.prods@.len(),
                alts == &self.g.prods@[p as int].alts,
                depth <= self.g.prods@.len(),
                a <= alts@.len(),
                terms@.len() > 0,
                terms@[0] == Term::Nt(p),
                forall|k: int|
                    0 <= k < a ==> !head_open(
                        *self.g,
                        first_term((#[trigger] self.g.prods@[p as int].alts@[k]).terms@),
                        depth + 1,
                    ),
            decreases alts@.len() - a,
        {
            proof {
                self.lemma_terms_ok(p as int, a as int);
            }
            if self.head_is_open(&alts[a].terms, depth + 1) {
                proof {
                    let x = self.g.prods@[p as int].alts@[a as int];
                    assert(head_open(*self.g, first_term(x.terms@), depth + 1));
                }
                return true;
            }
            a = a + 1;
        }
        false
    }

    /// The alternative of production `p` that the text from `pos` on calls
    /// for: the one whose first literal is the longest that stands there, or
    /// else the last that needs none.
    pub fn choose_alt(&self, p: usize, pos: usize) -> (r: Result<usize, HostError>)
        requires
            self.ok(),
            p < self.g.prods@.len(),
            pos <= self.b@.len(),
        ensures
            match r {
                Ok(a) => chosen(*self.g, self.b@, p as int, pos as int) == Some(a as int) && a
                    < self.g.prods@[p as int].alts@.len(),
                Err(x) => {
                    &&& chosen(*self.g, self.b@, p as int, pos as int) is None
                    &&& fault_of(x) == Fault::Expected(
                        "statement"@,
                        past_space(self.b@, pos as int),
                    )
                },
            },
    {
        let head: usize = self.past_ws(pos);
        let alts = &self.g.prods[p].alts;
        let mut best: Option<(usize, usize)> = None;
        let mut open: Option<usize> = None;
        let mut a: usize = 0;
        while a < alts.len()
            invariant
                self.ok(),
                p < self.g.prods@.len(),
                alts == &self.g.prods@[p as int].alts,
                head <= self.b@.len(),
                a <= alts@.len(),
                ({
                    let c = choices(*self.g, self.b@, p as int, head as int, a as int);
                    &&& c.best == (match best {
                        Some((x, n)) => Some((x as int, n as int)),
                        None => None,
                    })
                    &&& c.open == (match open {
                        Some(x) => Some(x as int),
                        None => None,
                    })
                }),
                best matches Some((x, n)) ==> x < alts@.len(),
                open matches Some(x) ==> x < alts@.len(),
            decreases alts@.len() - a,
        {
            proof {
                self.lemma_terms_ok(p as int, a as int);
            }
            match self.head_match(&alts[a].terms, head, 0) {
                Some(n) => {
                    let better: bool = match best {
                        Some((_, m)) => n > m,
                        None => true,
                    };
                    if better {
                        best = Some((a, n));
                    }
                },
                None => {
                    if self.head_is_open(&alts[a].terms, 0) {
                        open = Some(a);
                    }
                },
            }
            a = a + 1;
        }
        match best {
            Some((x, _)) => {
                return Ok(x);
            },
            None => {},
        }
        match open {
            Some(x) => Ok(x),
            None => Err(HostError::Expected("statement".to_owned(), head as u32)),
        }
    }

    /// The first place at or after `pos` where the literal after term `ti`
    /// stands, or the end of the text.
    pub fn scan_to(&self, terms: &Vec<Term>, ti: usize, pos: usize) -> (r: usize)
        requires
            self.ok(),
            ti < terms@.len(),
            forall|i: int| 0 <= i < terms@.len() ==> self.g.term_ok(#[trigger] terms@[i]),
            pos <= self.b@.len(),
        ensures
            r == scanned(self.b@, pos as int, terminator(terms@, ti as int)),
            pos <= r <= self.b@.len(),
            self.at(pos as int) ==> self.at(r as int),
    {
        let ghost x = terminator(terms@, ti as int);
        proof {
            lemma_scanned(self.b@, pos as int, x);
            is_char_boundary_start_end_of_seq(self.b@);
        }
        let n: usize = terms.len();
        if ti + 1 < n {
            assert(self.g.term_ok(terms@[ti + 1]));
            if let Term::Tok(s) = &terms[ti + 1] {
                let k = s.as_str().as_bytes();
                let mut i: usize = pos;
                while i <= self.b.len() && k.len() <= self.b.len() - i
                    invariant
                        pos <= i <= self.b@.len(),
                        k@ == lit(*s),
                        k@.len() > 0,
                        valid_utf8(self.b@),
                        scanned(self.b@, pos as int, Some(k@)) == scanned(
                            self.b@,
                            i as int,
                            Some(k@),
                        ),
                        x == Some(k@),
                        x == terminator(terms@, ti as int),
                    decreases self.b@.len() - i,
                {
                    if self.bytes_at(i, k) {
                        proof {
                            encode_utf8_valid_utf8(s@);
                            lemma_literal_start(self.b@, i as int, k@);
                        }
                        return i;
                    }
                    i = i + 1;
                }
                return self.b.len();
            }
        }
        self.b.len()
    }

    /// Whether a repetition at term `ti` ends at byte `pos`: at the end of the
    /// text or before the literal after it.
    pub fn rep_ended(&self, terms: &Vec<Term>, ti: usize, pos: usize) -> (r: bool)
        requires
            self.ok(),
            ti < terms@.len(),
            pos <= self.b@.len(),
        ensures
            r == ended(self.b@, terms@, ti as int, pos as int),
    {
        let at: usize = self.past_ws(pos);
        if at >= self.b.len() {
            return true;
        }
        let n: usize = terms.len();
        if ti + 1 < n {
            if let Term::Tok(s) = &terms[ti + 1] {
                return self.literal_at(at, s);
            }
        }
        false
    }

    /// The literal as a child at byte `q`.
    pub fn tok_child(&self, s: &String, q: usize) -> (r: Result<Child, HostError>)
        requires
            self.ok(),
            self.at(q as int),
            lit(*s).len() > 0,
        ensures
            ({
                let at = past_space(self.b@, q as int);
                let e = at + lit(*s).len();
                match r {
                    Ok(c) => {
                        &&& literal_stands(self.b@, at, lit(*s))
                        &&& c == (Child { width: (e - q) as u32, node: ChildNode::Tok(*s) })
                        &&& q < e <= self.b@.len()
                        &&& self.at(e)
                    },
                    Err(x) => !literal_stands(self.b@, at, lit(*s)) && fault_of(x)
                        == Fault::Expected(s@, at),
                }
            }),
    {
        let at: usize = self.past_ws(q);
        if !self.literal_at(at, s) {
            return Err(HostError::Expected(s.clone(), at as u32));
        }
        let n: usize = s.as_str().as_bytes().len();
        proof {
            lemma_space_boundary(self.b@, q as int);
            encode_utf8_valid_utf8(s@);
            lemma_literal_boundary(self.b@, at as int, lit(*s));
        }
        Ok(Child { width: (at + n - q) as u32, node: ChildNode::Tok(s.clone()) })
    }

    /// The identifier as a child at byte `q`.
    pub fn ident_child(&self, q: usize) -> (r: Result<Child, HostError>)
        requires
            self.ok(),
            self.at(q as int),
        ensures
            ({
                let at = past_space(self.b@, q as int);
                let e = word_end(self.b@, at);
                let name = decode_utf8(self.b@.subrange(at, e));
                match r {
                    Ok(c) => {
                        &&& e != at
                        &&& !is_keyword(*self.g, name)
                        &&& c.width == e - q
                        &&& c.node is Id
                        &&& kid_model(*self.t, c) == (KidModel {
                            width: e - q,
                            what: KidKind::Id(name),
                        })
                        &&& q < e <= self.b@.len()
                        &&& self.at(e)
                    },
                    Err(x) => (e == at || is_keyword(*self.g, name)) && fault_of(x)
                        == Fault::Expected("identifier"@, at),
                }
            }),
    {
        let at: usize = self.past_ws(q);
        let n: usize = self.b.len();
        let mut j: usize = at;
        while j < n && word(self.b[j])
            invariant
                n == self.b@.len(),
                at <= j <= n,
                word_end(self.b@, at as int) == word_end(self.b@, j as int),
            decreases n - j,
        {
            j = j + 1;
        }
        proof {
            lemma_word_end(self.b@, at as int);
            lemma_space_boundary(self.b@, q as int);
        }
        if j == at {
            return Err(HostError::Expected("identifier".to_owned(), at as u32));
        }
        proof {
            assert(is_word(self.b@[j - 1]));
            lemma_boundary_after(self.b@, j as int);
        }
        let name: String = slice(self.s, at, j).to_owned();
        if self.keyword(&name) {
            return Err(HostError::Expected("identifier".to_owned(), at as u32));
        }
        Ok(Child { width: (j - q) as u32, node: ChildNode::Id(name) })
    }

    fn keyword(&self, name: &String) -> (r: bool)
        ensures
            r == is_keyword(*self.g, name@),
    {
        let mut i: usize = 0;
        while i < self.g.keywords.len()
            invariant
                i <= self.g.keywords@.len(),
                forall|k: int| 0 <= k < i ==> (#[trigger] self.g.keywords@[k])@ != name@,
            decreases self.g.keywords@.len() - i,
        {
            if self.g.keywords[i] == *name {
                return true;
            }
            i = i + 1;
        }
        false
    }

    /// The expression as a child at byte `q`, term `ti`.
    fn expr_child(&self, terms: &Vec<Term>, ti: usize, q: usize) -> (r: Result<Child, HostError>)
        requires
            self.ok(),
            self.at(q as int),
            ti < terms@.len(),
            forall|i: int| 0 <= i < terms@.len() ==> self.g.term_ok(#[trigger] terms@[i]),
        ensures
            ({
                let e = scanned(self.b@, q as int, terminator(terms@, ti as int));
                let x = parsed(*self.t, self.b@.subrange(q as int, e));
                match r {
                    Ok(c) => {
                        &&& x is Ok
                        &&& kid_model(*self.t, c) == (KidModel {
                            width: e - q,
                            what: KidKind::Expr(x->Ok_0),
                        })
                        &&& kid_sound(*self.t, self.b@, q as int, c)
                        &&& q < e <= self.b@.len()
                        &&& self.at(e)
                    },
                    Err(y) => x is Err && fault_of(y) == Fault::Expr(x->Err_0),
                }
            }),
    {
        let e: usize = self.scan_to(terms, ti, q);
        let part = slice(self.s, q, e);
        match parse(self.t, part) {
            Ok(node) => {
                proof {
                    if e == q {
                        lemma_no_expr(*self.t, part.spec_bytes());
                    }
                }
                Ok(Child { width: (e - q) as u32, node: ChildNode::Expr(node) })
            },
            Err(x) => Err(HostError::Expr(x)),
        }
    }

    /// The child that term `ti` takes at byte `q`, and the term to go on with;
    /// none if a repetition ends there. The production starts at byte `pos`.
    #[verifier::rlimit(60)]
    fn next_child(&self, p: usize, ai: usize, ti: usize, pos: usize, q: usize) -> (r: Result<
        Option<(Child, usize)>,
        HostError,
    >)
        requires
            self.ok(),
            p < self.g.prods@.len(),
            ai < self.g.prods@[p as int].alts@.len(),
            ti < self.g.terms(p as int, ai as int).len(),
            pos <= q,
            self.at(q as int),
            q == pos ==> self.g.loose_before(self.g.terms(p as int, ai as int), ti as int),
        ensures
            ({
                let (t, g, b) = (*self.t, *self.g, self.b@);
                let terms = g.terms(p as int, ai as int);
                let here = terms_parsed(t, g, b, p as int, ai as int, ti as int, q as int, q > pos);
                match r {
                    Ok(Some((c, next))) => {
                        &&& here == then_kids(
                            seq![kid_model(t, c)],
                            terms_parsed(
                                t,
                                g,
                                b,
                                p as int,
                                ai as int,
                                next as int,
                                q + c.width,
                                q + c.width > pos,
                            ),
                        )
                        &&& kid_sound(t, b, q as int, c)
                        &&& self.at(q + c.width)
                        &&& next == ti + 1 || (next == ti && c.width > 0)
                        &&& c.width == 0 ==> !g.takes(terms[ti as int])
                    },
                    Ok(None) => terms[ti as int] is Rep && here == terms_parsed(
                        t,
                        g,
                        b,
                        p as int,
                        ai as int,
                        ti + 1,
                        q as int,
                        q > pos,
                    ),
                    Err(x) => here == Err::<(Seq<KidModel>, int), Fault>(fault_of(x)),
                }
            }),
        decreases
                self.b@.len() - q,
                (if q > pos {
                    self.g.top()
                } else {
                    self.g.rank(p as int)
                }),
                0int,
    {
        let terms = &self.g.prods[p].alts[ai].terms;
        proof {
            self.lemma_terms_ok(p as int, ai as int);
            assert(self.g.term_ok(terms@[ti as int]));
        }
        let n: usize = terms.len();
        match &terms[ti] {
            Term::Tok(s) => match self.tok_child(s, q) {
                Ok(c) => Ok(Some((c, ti + 1))),
                Err(x) => Err(x),
            },
            Term::Ident => match self.ident_child(q) {
                Ok(c) => Ok(Some((c, ti + 1))),
                Err(x) => Err(x),
            },
            Term::Expr => match self.expr_child(terms, ti, q) {
                Ok(c) => Ok(Some((c, ti + 1))),
                Err(x) => Err(x),
            },
            Term::Nt(j) => {
                proof {
                    self.lemma_lower(p as int, ai as int, ti as int, *j as int);
                }
                match self.parse_prod(*j, q) {
                    Ok(sub) => {
                        proof {
                            if self.g.solid(*j as int) {
                                self.lemma_solid(*j as int, q as int);
                            }
                        }
                        Ok(
                            Some(
                                (
                                    Child { width: sub.width, node: ChildNode::Sub(Arc::new(sub)) },
                                    ti + 1,
                                ),
                            ),
                        )
                    },
                    Err(x) => Err(x),
                }
            },
            Term::Rep(j) => {
                if self.rep_ended(terms, ti, q) {
                    return Ok(None);
                }
                proof {
                    self.lemma_lower(p as int, ai as int, ti as int, *j as int);
                }
                match self.parse_prod(*j, q) {
                    Ok(sub) => {
                        proof {
                            self.lemma_solid(*j as int, q as int);
                        }
                        Ok(
                            Some(
                                (
                                    Child { width: sub.width, node: ChildNode::Sub(Arc::new(sub)) },
                                    ti,
                                ),
                            ),
                        )
                    },
                    Err(x) => Err(x),
                }
            },
        }
    }

    /// Parse production `p` from byte `pos` on.
    #[verifier::rlimit(60)]
    pub fn parse_prod(&self, p: usize, pos: usize) -> (r: Result<Tree, HostError>)
        requires
            self.ok(),
            p < self.g.prods@.len(),
            self.at(pos as int),
        ensures
            match r {
                Ok(tree) => {
                    &&& tree.prod == p
                    &&& holds(*self.t, *self.g, self.b@, pos as int, tree)
                    &&& self.at(pos + tree.width)
                },
                Err(x) => prod_parsed(*self.t, *self.g, self.b@, p as int, pos as int) == Err::<
                    (int, Seq<KidModel>, int),
                    Fault,
                >(fault_of(x)),
            },
        decreases self.b@.len() - pos, self.g.rank(p as int), 1int,
    {
        let ai: usize = match self.choose_alt(p, pos) {
            Ok(a) => a,
            Err(x) => {
                return Err(x);
            },
        };
        let terms = &self.g.prods[p].alts[ai].terms;
        let ghost (t, g, b) = (*self.t, *self.g, self.b@);
        let ghost whole = terms_parsed(t, g, b, p as int, ai as int, 0, pos as int, false);
        let mut kids: Vec<Child> = Vec::new();
        let mut ti: usize = 0;
        let mut q: usize = pos;
        proof {
            self.lemma_terms_ok(p as int, ai as int);
            assert(terms@ =~= g.terms(p as int, ai as int));
            assert(kids_of(t, kids@) =~= Seq::empty());
            lemma_then_none(whole);
        }
        while ti < terms.len()
            invariant
                self.ok(),
                t == *self.t,
                g == *self.g,
                b == self.b@,
                p < g.prods@.len(),
                ai < g.prods@[p as int].alts@.len(),
                terms@ == g.terms(p as int, ai as int),
                forall|i: int| 0 <= i < terms@.len() ==> g.term_ok(#[trigger] terms@[i]),
                ti <= terms@.len(),
                pos <= q,
                self.at(q as int),
                q == pos ==> g.loose_before(terms@, ti as int),
                q == pos + extent(kids@),
                kids_sound(t, b, pos as int, kids@),
                whole == then_kids(
                    kids_of(t, kids@),
                    terms_parsed(t, g, b, p as int, ai as int, ti as int, q as int, q > pos),
                ),
                prod_parsed(t, g, b, p as int, pos as int) == (match whole {
                    Ok((ks, e)) => Ok((ai as int, ks, e)),
                    Err(x) => Err(x),
                }),
            decreases self.b@.len() - q, terms@.len() - ti,
        {
            match self.next_child(p, ai, ti, pos, q) {
                Ok(Some((c, next))) => {
                    let w: usize = c.width as usize;
                    proof {
                        self.lemma_next(
                            p as int,
                            ai as int,
                            ti as int,
                            pos as int,
                            q as int,
                            kids@,
                            c,
                            next as int,
                        );
                    }
                    kids.push(c);
                    q = q + w;
                    ti = next;
                },
                Ok(None) => {
                    ti = ti + 1;
                },
                Err(x) => {
                    return Err(x);
                },
            }
        }
        let tree = Tree { prod: p, alt: ai, kids, width: (q - pos) as u32 };
        proof {
            lemma_tree_kids(t, tree);
            assert(kids_of(t, kids@) + Seq::<KidModel>::empty() =~= kids_of(t, kids@));
        }
        Ok(tree)
    }

    /// A production reached before a byte is taken ranks below.
    proof fn lemma_lower(&self, p: int, a: int, i: int, j: int)
        requires
            self.ok(),
            0 <= p < self.g.prods@.len(),
            0 <= a < self.g.prods@[p].alts@.len(),
            0 <= i < self.g.terms(p, a).len(),
            self.g.terms(p, a)[i] is Nt || self.g.terms(p, a)[i] is Rep,
            j == (match self.g.terms(p, a)[i] {
                Term::Nt(k) => k as int,
                Term::Rep(k) => k as int,
                _ => 0,
            }),
        ensures
            self.g.loose_before(self.g.terms(p, a), i) ==> self.g.rank(j) < self.g.rank(p),
            self.g.rank(j) < self.g.top(),
            self.g.terms(p, a)[i] is Rep ==> self.g.solid(j),
    {
        let r = self.g.ranks();
        assert(self.g.term_ok(self.g.terms(p, a)[i]));
        assert(r[p] <= self.g.prods@.len() && r[j] <= self.g.prods@.len());
    }

    /// A production that cannot be empty takes a byte.
    proof fn lemma_solid(&self, p: int, pos: int)
        requires
            self.ok(),
            0 <= p < self.g.prods@.len(),
            self.g.solid(p),
            0 <= pos <= self.b@.len(),
        ensures
            prod_parsed(*self.t, *self.g, self.b@, p, pos) matches Ok((a, ks, e)) ==> pos < e,
    {
        lemma_solid_prod(*self.t, *self.g, self.b@, p, pos, self.g.prods@.len());
    }

    /// One more child.
    proof fn lemma_next(
        &self,
        p: int,
        a: int,
        i: int,
        pos: int,
        q: int,
        before: Seq<Child>,
        c: Child,
        next: int,
    )
        requires
            pos + extent(before) == q,
            kids_sound(*self.t, self.b@, pos, before),
            kid_sound(*self.t, self.b@, q, c),
            terms_parsed(*self.t, *self.g, self.b@, p, a, i, q, q > pos) == then_kids(
                seq![kid_model(*self.t, c)],
                terms_parsed(*self.t, *self.g, self.b@, p, a, next, q + c.width, q + c.width > pos),
            ),
        ensures
            kids_sound(*self.t, self.b@, pos, before.push(c)),
            extent(before.push(c)) == extent(before) + c.width,
            then_kids(
                kids_of(*self.t, before),
                terms_parsed(*self.t, *self.g, self.b@, p, a, i, q, q > pos),
            ) == then_kids(
                kids_of(*self.t, before.push(c)),
                terms_parsed(*self.t, *self.g, self.b@, p, a, next, q + c.width, q + c.width > pos),
            ),
    {
        lemma_push_kid(*self.t, self.b@, pos, before, c);
        lemma_push_sound(*self.t, self.b@, pos, before, c);
        lemma_then(
            kids_of(*self.t, before),
            kid_model(*self.t, c),
            terms_parsed(*self.t, *self.g, self.b@, p, a, next, q + c.width, q + c.width > pos),
        );
    }
}

pub proof fn lemma_then_none(rest: Kids)
    ensures
        then_kids(Seq::empty(), rest) == rest,
{
    match rest {
        Ok((s, e)) => {
            assert(Seq::<KidModel>::empty() + s =~= s);
        },
        Err(x) => {},
    }
}

/// What is chosen is an alternative.
pub proof fn lemma_chosen(g: Grammar, b: Seq<u8>, p: int, pos: int)
    ensures
        chosen(g, b, p, pos) matches Some(a) ==> 0 <= a < g.prods@[p].alts@.len(),
{
    lemma_choices(g, b, p, past_space(b, pos), g.prods@[p].alts@.len() as int);
}

proof fn lemma_choices(g: Grammar, b: Seq<u8>, p: int, head: int, n: int)
    ensures
        choices(g, b, p, head, n).best matches Some((a, l)) ==> 0 <= a < n,
        choices(g, b, p, head, n).open matches Some(a) ==> 0 <= a < n,
    decreases n,
{
    if n > 0 {
        lemma_choices(g, b, p, head, n - 1);
    }
}

/// Parsing goes forward, and takes a byte where a term ahead does.
pub proof fn lemma_progress(
    t: Table,
    g: Grammar,
    b: Seq<u8>,
    p: int,
    a: int,
    i: int,
    pos: int,
    moved: bool,
    k: int,
)
    requires
        0 <= pos <= b.len(),
        0 <= i,
    ensures
        terms_parsed(t, g, b, p, a, i, pos, moved) matches Ok((ks, e)) ==> pos <= e <= b.len() && (i
            <= k < g.terms(p, a).len() && takes_bytes(g.terms(p, a)[k]) ==> pos < e),
    decreases b.len() - pos, g.terms(p, a).len() - i,
{
    let terms = g.terms(p, a);
    if i < terms.len() {
        match terms[i] {
            Term::Tok(s) => {
                let e = past_space(b, pos) + lit(s).len();
                if pos < e <= b.len() {
                    lemma_progress(t, g, b, p, a, i + 1, e, true, k);
                }
            },
            Term::Ident => {
                let e = word_end(b, past_space(b, pos));
                if pos < e <= b.len() {
                    lemma_progress(t, g, b, p, a, i + 1, e, true, k);
                }
            },
            Term::Expr => {
                let e = scanned(b, pos, terminator(terms, i));
                if pos < e <= b.len() {
                    lemma_progress(t, g, b, p, a, i + 1, e, true, k);
                }
            },
            Term::Nt(j) => {
                match prod_parsed(t, g, b, j as int, pos) {
                    Ok((c, ks, e)) => {
                        if pos <= e <= b.len() {
                            lemma_progress(t, g, b, p, a, i + 1, e, moved || pos < e, k);
                        }
                    },
                    Err(x) => {},
                }
            },
            Term::Rep(j) => {
                if ended(b, terms, i, pos) {
                    lemma_progress(t, g, b, p, a, i + 1, pos, moved, k);
                } else {
                    match prod_parsed(t, g, b, j as int, pos) {
                        Ok((c, ks, e)) => {
                            if pos < e <= b.len() {
                                lemma_progress(t, g, b, p, a, i, e, true, k);
                            }
                        },
                        Err(x) => {},
                    }
                }
            },
        }
    }
}

/// A production that cannot be empty takes a byte.
pub proof fn lemma_solid_prod(t: Table, g: Grammar, b: Seq<u8>, p: int, pos: int, d: nat)
    requires
        g.wf(),
        0 <= p < g.prods@.len(),
        g.solid_in(p, d),
        0 <= pos <= b.len(),
    ensures
        prod_parsed(t, g, b, p, pos) matches Ok((a, ks, e)) ==> pos < e,
    decreases d, 1int, 0int, 0int,
{
    if let Some(a) = chosen(g, b, p, pos) {
        lemma_chosen(g, b, p, pos);
        let m = (d - 1) as nat;
        let terms = g.terms(p, a);
        assert(g.firm(terms, m));
        let k = choose|k: int|
            0 <= k < terms.len() && (takes_bytes(#[trigger] terms[k]) || (terms[k] is Nt
                && g.solid_in(terms[k]->Nt_0 as int, m)));
        assert(g.term_ok(terms[k]));
        lemma_solid_terms(t, g, b, p, a, 0, pos, false, k, m);
    }
}

proof fn lemma_solid_terms(
    t: Table,
    g: Grammar,
    b: Seq<u8>,
    p: int,
    a: int,
    i: int,
    pos: int,
    moved: bool,
    k: int,
    d: nat,
)
    requires
        g.wf(),
        0 <= pos <= b.len(),
        0 <= i <= k < g.terms(p, a).len(),
        takes_bytes(g.terms(p, a)[k]) || (g.terms(p, a)[k] is Nt && g.solid_in(
            g.terms(p, a)[k]->Nt_0 as int,
            d,
        ) && g.terms(p, a)[k]->Nt_0 < g.prods@.len()),
    ensures
        terms_parsed(t, g, b, p, a, i, pos, moved) matches Ok((ks, e)) ==> pos < e,
    decreases d, 2int, b.len() - pos, g.terms(p, a).len() - i,
{
    let terms = g.terms(p, a);
    lemma_progress(t, g, b, p, a, i, pos, moved, k);
    if !takes_bytes(terms[k]) {
        match terms[i] {
            Term::Nt(j) => {
                if let Ok((c, ks, e)) = prod_parsed(t, g, b, j as int, pos) {
                    if i == k {
                        lemma_solid_prod(t, g, b, j as int, pos, d);
                    }
                    if pos <= e <= b.len() {
                        lemma_progress(t, g, b, p, a, i + 1, e, moved || pos < e, k);
                        if i < k {
                            lemma_solid_terms(t, g, b, p, a, i + 1, e, moved || pos < e, k, d);
                        }
                    }
                }
            },
            Term::Rep(j) => {
                if ended(b, terms, i, pos) {
                    lemma_solid_terms(t, g, b, p, a, i + 1, pos, moved, k, d);
                } else if let Ok((c, ks, e)) = prod_parsed(t, g, b, j as int, pos) {
                    if pos < e <= b.len() {
                        lemma_progress(t, g, b, p, a, i, e, true, k);
                    }
                }
            },
            _ => {
                lemma_progress(t, g, b, p, a, i, pos, moved, i);
            },
        }
    }
}

/// Parse a whole program.
pub fn parse_program(t: &Table, g: &Grammar, src: &str) -> (r: Result<Program, HostError>)
    requires
        t.wf(),
        g.wf(),
        g.grounded(),
        src.spec_bytes().len() <= u32::MAX,
    ensures
        program_ok(*t, *g, src.spec_bytes(), r),
{
    let p = HostParser::new(t, g, src);
    proof {
        is_char_boundary_start_end_of_seq(p.b@);
    }
    let root = match p.parse_prod(g.start, 0) {
        Ok(root) => root,
        Err(x) => {
            return Err(x);
        },
    };
    let e: usize = root.width as usize;
    if p.past_ws(e) != p.b.len() {
        return Err(HostError::Trailing(root.width));
    }
    proof {
        lemma_measured(*t, p.b@, 0, &root);
    }
    Ok(Program { root })
}

/// A repetition at term `i` ends at byte `pos`.
pub open spec fn ended(b: Seq<u8>, terms: Seq<Term>, i: int, pos: int) -> bool {
    past_space(b, pos) >= b.len() || (terminator(terms, i) matches Some(s) && literal_stands(
        b,
        past_space(b, pos),
        s,
    ))
}

// ---- Reading programs --------------------------------------------------

/// Widths add up throughout the tree.
pub open spec fn measured(tree: Tree) -> bool
    decreases tree,
{
    &&& tree.width == extent(tree.kids@)
    &&& forall|i: int| 0 <= i < tree.kids@.len() ==> kid_measured(#[trigger] tree.kids@[i])
}

pub open spec fn kid_measured(c: Child) -> bool
    decreases c,
{
    match c.node {
        ChildNode::Sub(s) => s.width == c.width && measured(*s),
        _ => true,
    }
}

/// Widths add up in a tree that is sound.
#[verifier::spinoff_prover]
#[verifier::rlimit(40)]
pub proof fn lemma_measured(t: Table, b: Seq<u8>, pos: int, tree: &Tree)
    requires
        sound(t, b, pos, *tree),
    ensures
        measured(*tree),
    decreases tree,
{
    assert forall|i: int| 0 <= i < tree.kids@.len() implies kid_measured(
        #[trigger] tree.kids@[i],
    ) by {
        let c = tree.kids@[i];
        assert(kid_sound(t, b, place(pos, tree.kids@, i), c));
        if let ChildNode::Sub(s) = c.node {
            assert(sound(t, b, place(pos, tree.kids@, i), *s));
            lemma_measured(t, b, place(pos, tree.kids@, i), &*s);
        }
    }
}

/// The tokens and expressions of a child, each with a blank after it.
pub open spec fn kid_text(t: Table, k: KidModel) -> Seq<char>
    decreases k,
{
    match k.what {
        KidKind::Tok(s) => s + seq![' '],
        KidKind::Id(s) => s + seq![' '],
        KidKind::Expr(f) => form_text(t, f) + seq![' '],
        KidKind::Sub { prod, alt, kids } => kids_text(t, kids, kids.len() as int),
    }
}

/// The same of the first `n` children.
pub open spec fn kids_text(t: Table, ks: Seq<KidModel>, n: int) -> Seq<char>
    decreases ks, n,
{
    if n <= 0 || n > ks.len() {
        Seq::empty()
    } else {
        kids_text(t, ks, n - 1) + kid_text(t, ks[n - 1])
    }
}

/// The span of the first expression among children `i` and on, depth first;
/// child `i` starts at byte `pos`.
pub open spec fn first_expr(ks: Seq<KidModel>, i: int, pos: int) -> Option<(int, int)>
    decreases ks, ks.len() - i,
{
    if i < 0 || i >= ks.len() {
        None
    } else {
        let within = match ks[i].what {
            KidKind::Expr(f) => Some((pos, pos + ks[i].width)),
            KidKind::Sub { prod, alt, kids } => first_expr(kids, 0, pos),
            _ => None,
        };
        if within is Some {
            within
        } else {
            first_expr(ks, i + 1, pos + ks[i].width)
        }
    }
}

/// Write the tokens and expressions of the tree, each with a blank after it.
fn unparse_tree(t: &Table, tree: &Tree, out: &mut String)
    ensures
        final(out)@ == old(out)@ + kids_text(
            *t,
            tree_kids(*t, *tree),
            tree_kids(*t, *tree).len() as int,
        ),
    decreases tree,
{
    let ghost ks = tree_kids(*t, *tree);
    let ghost start = out@;
    let mut i: usize = 0;
    assert(start + Seq::<char>::empty() =~= start);
    while i < tree.kids.len()
        invariant
            i <= tree.kids@.len(),
            ks == tree_kids(*t, *tree),
            ks.len() == tree.kids@.len(),
            out@ == start + kids_text(*t, ks, i as int),
        decreases tree.kids@.len() - i,
    {
        let ghost before = out@;
        let k = &tree.kids[i];
        assert(ks[i as int] == kid_model(*t, *k));
        match &k.node {
            ChildNode::Tok(s) => {
                out.append(s.as_str());
                out.append(" ");
                proof {
                    reveal_strlit(" ");
                    assert(out@ =~= before + kid_text(*t, ks[i as int]));
                }
            },
            ChildNode::Id(s) => {
                out.append(s.as_str());
                out.append(" ");
                proof {
                    reveal_strlit(" ");
                    assert(out@ =~= before + kid_text(*t, ks[i as int]));
                }
            },
            ChildNode::Expr(n) => {
                let text: String = n.unparse_normalized(t);
                out.append(text.as_str());
                out.append(" ");
                proof {
                    reveal_strlit(" ");
                    assert(out@ =~= before + kid_text(*t, ks[i as int]));
                }
            },
            ChildNode::Sub(sub) => {
                unparse_tree(t, sub, out);
                assert(out@ =~= before + kid_text(*t, ks[i as int]));
            },
        }
        assert(out@ =~= start + kids_text(*t, ks, i + 1));
        i = i + 1;
    }
}

/// The span of the first expression of the tree, which starts at byte `base`.
fn expr_span(t: &Table, tree: &Tree, base: u32) -> (r: Option<(u32, u32)>)
    requires
        measured(*tree),
        base + tree.width <= u32::MAX,
    ensures
        first_expr(tree_kids(*t, *tree), 0, base as int) == (match r {
            Some((s, e)) => Some((s as int, e as int)),
            None => None,
        }),
    decreases tree,
{
    let ghost ks = tree_kids(*t, *tree);
    let mut pos: u32 = base;
    let mut i: usize = 0;
    assert(extent(tree.kids@.take(0)) == 0);
    while i < tree.kids.len()
        invariant
            i <= tree.kids@.len(),
            ks == tree_kids(*t, *tree),
            ks.len() == tree.kids@.len(),
            measured(*tree),
            base + tree.width <= u32::MAX,
            pos == base + extent(tree.kids@.take(i as int)),
            first_expr(ks, 0, base as int) == first_expr(ks, i as int, pos as int),
        decreases tree.kids@.len() - i,
    {
        let k = &tree.kids[i];
        proof {
            assert(ks[i as int] == kid_model(*t, *k));
            assert(kid_measured(tree.kids@[i as int]));
            assert(tree.kids@.take(i + 1).drop_last() =~= tree.kids@.take(i as int));
            lemma_extent_part(tree.kids@, i + 1);
        }
        match &k.node {
            ChildNode::Expr(_) => {
                return Some((pos, pos + k.width));
            },
            ChildNode::Sub(sub) => {
                assert(measured(**sub));
                match expr_span(t, sub, pos) {
                    Some(r) => {
                        return Some(r);
                    },
                    None => {},
                }
            },
            _ => {},
        }
        pos = pos + k.width;
        i = i + 1;
    }
    None
}

/// Some children take no more than all do.
pub proof fn lemma_extent_part(s: Seq<Child>, n: int)
    requires
        0 <= n <= s.len(),
    ensures
        0 <= extent(s.take(n)) <= extent(s),
    decreases s.len(),
{
    if s.len() > 0 {
        if n < s.len() {
            assert(s.drop_last().take(n) =~= s.take(n));
            lemma_extent_part(s.drop_last(), n);
        } else {
            assert(s.take(n) =~= s);
            lemma_extent_part(s.drop_last(), n - 1);
        }
    } else {
        assert(s.take(n) =~= s);
    }
}

impl Program {
    /// The tokens and expressions of the program, each with a blank after it:
    /// its structure, whatever the white space.
    pub fn unparse(&self, t: &Table) -> (r: String)
        ensures
            r@ == kids_text(
                *t,
                tree_kids(*t, self.root),
                tree_kids(*t, self.root).len() as int,
            ),
    {
        let mut s: String = String::new();
        unparse_tree(t, &self.root, &mut s);
        proof {
            assert(Seq::<char>::empty() + kids_text(
                *t,
                tree_kids(*t, self.root),
                tree_kids(*t, self.root).len() as int,
            ) =~= s@);
        }
        s
    }

    /// The span of the first expression of the program, depth first.
    pub fn first_expr_span(&self, t: &Table) -> (r: Option<(u32, u32)>)
        requires
            measured(self.root),
        ensures
            first_expr(tree_kids(*t, self.root), 0, 0) == (match r {
                Some((s, e)) => Some((s as int, e as int)),
                None => None,
            }),
    {
        expr_span(t, &self.root, 0)
    }
}

} // verus!
