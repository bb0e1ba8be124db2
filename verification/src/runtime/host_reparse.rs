//! Reparsing a program after an edit.
//!
//! Productions before and after the edit are kept, the one child that holds it
//! is reparsed, and what is around it is checked against the edited text. Where
//! a check fails, the production around is parsed again, at last the whole
//! program.

use std::sync::Arc;
use vstd::prelude::*;
use vstd::string::*;
use vstd::utf8::*;

use crate::expr::edit::{bytes_of, Edit};
use crate::expr::lexer::lemma_boundary_shift;
use crate::runtime::cursor::stands_at;
use crate::runtime::host::{
    ended, extent, fault_of, holds, is_program, kid_model, kid_sound, kids_of, kids_sound,
    kids_text, lemma_extent_part, lemma_measured, lemma_push_kid, lemma_push_sound, lemma_then,
    lemma_then_none, lemma_tree_kids, measured, parse_program, place, program_ok, sound, tree_kids,
    Child, ChildNode, HostError, HostParser, HostStats, Program, Tree,
};
use crate::runtime::grammar::parsed;
use crate::runtime::host_grammar::{
    chosen, lit, prod_parsed, scanned, terminator, terms_parsed, then_kids, Fault, Grammar, KidKind,
    KidModel, Term,
};
use crate::runtime::host_moves::{
    after, child_fits, goes_on, lemma_first_child, lemma_flag, lemma_head_prod,
    lemma_child_boundary, lemma_expr_fits, lemma_fits_sub, lemma_prod_boundary, lemma_rest_terms, lemma_sub_fits,
    lemma_with_child, leads_to, may_lead, shorter, takes_child,
};
use crate::runtime::incremental::incremental_parse;
use crate::runtime::lexing::same_head;
use crate::runtime::ast::Node;
use crate::runtime::table::{Table, MIN_PREC};
use crate::runtime::verify::past_space;
use crate::runtime::walk::{at_first, tree_world};
use crate::text::slice;

verus! {

// ---- Trees in two texts ------------------------------------------------

/// A tree is made of its bytes, wherever they stand.
#[verifier::spinoff_prover]
#[verifier::rlimit(40)]
pub proof fn lemma_sound_moves(
    t: Table,
    a: Seq<u8>,
    pos: int,
    b: Seq<u8>,
    to: int,
    tree: &Tree,
)
    requires
        sound(t, a, pos, *tree),
        0 <= to,
        to + tree.width <= b.len(),
        a.subrange(pos, pos + tree.width) == b.subrange(to, to + tree.width),
    ensures
        sound(t, b, to, *tree),
    decreases tree,
{
    assert forall|i: int| 0 <= i < tree.kids@.len() implies kid_sound(
        t,
        b,
        place(to, tree.kids@, i),
        #[trigger] tree.kids@[i],
    ) by {
        assert(kid_sound(t, a, place(pos, tree.kids@, i), tree.kids@[i]));
        lemma_place(tree.kids@, i);
        let x = extent(tree.kids@.take(i));
        lemma_part_of_part(a, pos, b, to, tree.width as int, x, tree.kids@[i].width as int);
        lemma_kid_moves(t, a, pos + x, b, to + x, &tree.kids@[i]);
    }
}

/// A child lies in the extent of all.
proof fn lemma_place(s: Seq<Child>, i: int)
    requires
        0 <= i < s.len(),
    ensures
        0 <= extent(s.take(i)),
        extent(s.take(i)) + s[i].width == extent(s.take(i + 1)),
        extent(s.take(i + 1)) <= extent(s),
{
    lemma_extent_part(s, i);
    lemma_extent_part(s, i + 1);
    assert(s.take(i + 1).drop_last() =~= s.take(i));
}

proof fn lemma_part_of_part(
    a: Seq<u8>,
    pos: int,
    b: Seq<u8>,
    to: int,
    n: int,
    x: int,
    w: int,
)
    requires
        0 <= pos,
        pos + n <= a.len(),
        0 <= to,
        to + n <= b.len(),
        a.subrange(pos, pos + n) == b.subrange(to, to + n),
        0 <= x,
        0 <= w,
        x + w <= n,
    ensures
        a.subrange(pos + x, pos + x + w) == b.subrange(to + x, to + x + w),
{
    let (u, v) = (a.subrange(pos, pos + n), b.subrange(to, to + n));
    assert(u.subrange(x, x + w) =~= a.subrange(pos + x, pos + x + w));
    assert(v.subrange(x, x + w) =~= b.subrange(to + x, to + x + w));
}

proof fn lemma_kid_moves(t: Table, a: Seq<u8>, pos: int, b: Seq<u8>, to: int, c: &Child)
    requires
        kid_sound(t, a, pos, *c),
        0 <= pos,
        pos + c.width <= a.len(),
        0 <= to,
        to + c.width <= b.len(),
        a.subrange(pos, pos + c.width) == b.subrange(to, to + c.width),
    ensures
        kid_sound(t, b, to, *c),
    decreases c,
{
    if let ChildNode::Sub(s) = &c.node {
        assert(sound(t, a, pos, **s));
        lemma_sound_moves(t, a, pos, b, to, &**s);
    }
}

/// A text and its edited version, and the edit.
pub struct Reparser<'a> {
    pub old: HostParser<'a>,
    pub new: HostParser<'a>,
    pub edit: &'a Edit,
    /// Length of the longest literal.
    pub reach: usize,
    /// Length change of the edit.
    pub delta: i64,
}

impl<'a> Reparser<'a> {
    pub open spec fn ok(&self) -> bool {
        &&& self.old.ok()
        &&& self.new.ok()
        &&& self.old.t == self.new.t
        &&& self.old.g == self.new.g
        &&& self.old.t.one_byte_context()
        &&& self.edit.in_range(self.old.b@)
        &&& self.edit.small(self.old.b@)
        &&& self.new.b@ == self.edit.applied(self.old.b@)
        &&& shorter(*self.old.g, self.reach + 1)
        &&& self.delta == self.edit.delta()
    }

    /// The tree is what its production parses to in the old text at `abs`,
    /// before the edit.
    #[verifier::opaque]
    pub open spec fn stood(&self, tree: Tree, abs: int) -> bool {
        &&& holds(*self.old.t, *self.old.g, self.old.b@, abs, tree)
        &&& measured(tree)
        &&& tree.prod < self.old.g.prods@.len()
        &&& self.old.at(abs)
        &&& self.new.at(abs)
    }

    /// The tree is what its production parses to in the new text at `abs`.
    pub open spec fn stands(&self, tree: Tree, abs: int) -> bool {
        &&& holds(*self.new.t, *self.new.g, self.new.b@, abs, tree)
        &&& self.new.at(abs + tree.width)
    }

    /// Text before the edit is the same.
    proof fn lemma_same_head(&self)
        requires
            self.ok(),
        ensures
            same_head(self.old.b@, self.new.b@, self.edit.start as int),
    {
        let (a, b) = (self.old.b@, self.new.b@);
        assert forall|k: int| 0 <= k < self.edit.start implies a[k] == #[trigger] b[k] by {}
    }

    /// Text after the edit goes on alike.
    proof fn lemma_goes_on(&self, pos: int)
        requires
            self.ok(),
            self.edit.end <= pos <= self.old.b@.len(),
        ensures
            goes_on(self.old.b@, self.new.b@, pos, self.delta as int),
            self.new.b@.len() == self.old.b@.len() + self.delta,
    {
        reveal(goes_on);
    }

    /// Child `k` holds the edit.
    pub open spec fn holds_edit(&self, kids: Seq<Child>, abs: int, k: int) -> bool {
        place(abs, kids, k) <= self.edit.start && self.edit.end <= place(abs, kids, k)
            + kids[k].width
    }

    /// The first child from number `k` on that holds the edit; none if the edit
    /// inserts between it and the next.
    pub open spec fn located(&self, kids: Seq<Child>, abs: int, k: int) -> Option<int>
        decreases kids.len() - k,
    {
        if k < 0 || k >= kids.len() {
            None
        } else if self.holds_edit(kids, abs, k) {
            let end = place(abs, kids, k) + kids[k].width;
            if self.edit.start == end && self.edit.end == end && k + 1 < kids.len() {
                None
            } else {
                Some(k)
            }
        } else {
            self.located(kids, abs, k + 1)
        }
    }

    /// The tree's production, parsed on its own in the new text, ends where the
    /// edit moved its end to, up to white space at the end of the text.
    pub open spec fn parses_alone(&self, old: Tree, abs: int) -> bool {
        let b = self.new.b@;
        let expected = abs + old.width + self.delta;
        prod_parsed(*self.new.t, *self.new.g, b, old.prod as int, abs) matches Ok((_, _, e)) && (
        if expected == b.len() {
            past_space(b, e)
        } else {
            e
        }) == expected
    }

    /// Term `ti` takes a child of `w` bytes at byte `q` of the new text.
    pub open spec fn recurs(&self, terms: Seq<Term>, ti: int, q: int, w: int) -> bool {
        exists|m: KidModel| #[trigger]
            child_fits(*self.new.t, *self.new.g, self.new.b@, terms, ti, q, m) && m.width == w
    }

    /// The term of child `ci`, where both texts are taken apart alike before
    /// it, from child `k`, term `ti` and byte `q` on: repetitions end alike,
    /// and children have the same widths.
    pub open spec fn walked(&self, old: Tree, ci: int, k: int, ti: int, q: int) -> Option<int>
        decreases ci - k, self.terms(old).len() - ti,
    {
        let terms = self.terms(old);
        if ti < 0 || ti >= terms.len() || k < 0 || k > ci || k >= old.kids@.len() {
            None
        } else if takes_child(self.old.b@, terms, ti, q) != takes_child(self.new.b@, terms, ti, q) {
            None
        } else if !takes_child(self.new.b@, terms, ti, q) {
            self.walked(old, ci, k, ti + 1, q)
        } else if k == ci {
            Some(ti)
        } else if self.recurs(terms, ti, q, old.kids@[k].width as int) {
            self.walked(old, ci, k + 1, after(terms, ti), q + old.kids@[k].width)
        } else {
            None
        }
    }

    /// The expression of term `ti` at byte `q`, once `w` bytes long, can be
    /// reparsed: what replaces the edited part is no statement syntax, and it
    /// ends where the edit moved its end to.
    pub open spec fn expr_reparses(&self, terms: Seq<Term>, ti: int, q: int, w: int) -> bool {
        let e = scanned(self.new.b@, q, terminator(terms, ti));
        &&& expr_safe(*self.old.g, bytes_of(self.edit.replacement))
        &&& e == q + w + self.delta
        &&& e != q
        &&& parsed(*self.new.t, self.new.b@.subrange(q, e)) is Ok
    }

    /// After child `ci`, which now ends at byte `q1`, the rest of the tree
    /// stands: it has only moved, or nothing is left but repetitions that end.
    pub open spec fn closes(&self, old: Tree, abs: int, ci: int, ti: int, q1: int) -> bool {
        let terms = self.terms(old);
        ||| q1 == place(abs, old.kids@, ci) + old.kids@[ci].width + self.delta
        ||| ci + 1 == old.kids@.len() && forall|i: int|
            after(terms, ti) <= i < terms.len() ==> (#[trigger] terms[i]) is Rep && ended(
                self.new.b@,
                terms,
                i,
                q1,
            )
    }

    /// The tree can be put together again around child `ci`.
    pub open spec fn splices(&self, old: Tree, abs: int, ci: int) -> bool
        decreases old, 0int,
    {
        let q = place(abs, old.kids@, ci);
        &&& 0 <= ci < old.kids@.len()
        &&& chosen(*self.new.g, self.new.b@, old.prod as int, abs) == Some(old.alt as int)
        &&& self.walked(old, ci, 0, 0, abs) matches Some(ti) && match old.kids@[ci].node {
            ChildNode::Sub(sub) => {
                &&& self.reparses(*sub, q)
                &&& prod_parsed(*self.new.t, *self.new.g, self.new.b@, sub.prod as int, q) matches Ok(
                    (_, _, e),
                ) && e > q && self.closes(old, abs, ci, ti, e)
            },
            ChildNode::Expr(_) => self.expr_reparses(
                self.terms(old),
                ti,
                q,
                old.kids@[ci].width as int,
            ),
            _ => false,
        }
    }

    /// The tree can be reparsed: around the child that holds the edit, or on
    /// its own.
    pub open spec fn reparses(&self, old: Tree, abs: int) -> bool
        decreases old, 1int,
    {
        ||| self.located(old.kids@, abs, 0) matches Some(ci) && self.splices(old, abs, ci)
        ||| self.parses_alone(old, abs)
    }

    /// The edit within a part of the text that starts at byte `q`.
    pub open spec fn local_edit(&self, q: int) -> Edit {
        Edit {
            start: (self.edit.start - q) as u32,
            end: (self.edit.end - q) as u32,
            replacement: self.edit.replacement,
        }
    }

    /// Number of nodes that are kept of the edited expression `node`, the
    /// parse of the `w` bytes from `q` on.
    pub open spec fn kept_inside(&self, node: Arc<Node>, q: int, w: int) -> u32 {
        tree_world(
            *self.old.t,
            node,
            self.old.b@.subrange(q, q + w),
            self.local_edit(q),
        ).counted(0, MIN_PREC, at_first()).nodes_reused
    }

    /// What reparsing the tree counts, from `st` on.
    pub open spec fn tally(&self, old: Tree, abs: int, depth: u32, st: HostStats) -> HostStats
        decreases old, 1int,
    {
        if self.located(old.kids@, abs, 0) matches Some(ci) && self.splices(old, abs, ci) {
            self.tally_around(old, abs, self.located(old.kids@, abs, 0)->0, depth, st)
        } else {
            HostStats {
                stmts_reparsed: st.stmts_reparsed.saturating_add(1),
                reuse_depth: depth,
                ..st
            }
        }
    }

    /// What putting the tree together again around child `ci` counts.
    pub open spec fn tally_around(
        &self,
        old: Tree,
        abs: int,
        ci: int,
        depth: u32,
        st: HostStats,
    ) -> HostStats
        decreases old, 0int,
    {
        let inner = if 0 <= ci < old.kids@.len() {
            match old.kids@[ci].node {
                ChildNode::Sub(sub) => self.tally(
                    *sub,
                    place(abs, old.kids@, ci),
                    depth.saturating_add(1),
                    st,
                ),
                ChildNode::Expr(node) => HostStats {
                    exprs_reused: st.exprs_reused.saturating_add(
                        self.kept_inside(
                            node,
                            place(abs, old.kids@, ci),
                            old.kids@[ci].width as int,
                        ),
                    ),
                    reuse_depth: depth,
                    ..st
                },
                _ => st,
            }
        } else {
            st
        };
        HostStats {
            stmts_reused: capped(
                inner.stmts_reused + subs_beside(old.kids@, ci, old.kids@.len() as int),
            ),
            ..inner
        }
    }

    /// The child of the tree that holds the edit.
    fn locate(&self, old: &Tree, abs: usize) -> (r: Option<usize>)
        requires
            self.ok(),
            measured(*old),
            abs + old.width <= self.old.b@.len(),
        ensures
            match r {
                Some(i) => {
                    &&& self.located(old.kids@, abs as int, 0) == Some(i as int)
                    &&& i < old.kids@.len()
                    &&& place(abs as int, old.kids@, i as int) <= self.edit.start
                    &&& self.edit.end <= place(abs as int, old.kids@, i as int)
                        + old.kids@[i as int].width
                },
                None => self.located(old.kids@, abs as int, 0) is None,
            },
    {
        let mut pos: u32 = abs as u32;
        let mut i: usize = 0;
        let n: usize = old.kids.len();
        assert(extent(old.kids@.take(0)) == 0);
        while i < n
            invariant
                self.ok(),
                n == old.kids@.len(),
                i <= n,
                measured(*old),
                abs + old.width <= self.old.b@.len() <= u32::MAX,
                pos == place(abs as int, old.kids@, i as int),
                self.located(old.kids@, abs as int, 0) == self.located(
                    old.kids@,
                    abs as int,
                    i as int,
                ),
            decreases n - i,
        {
            proof {
                lemma_extent_part(old.kids@, i + 1);
                assert(old.kids@.take(i + 1).drop_last() =~= old.kids@.take(i as int));
            }
            let end: u32 = pos + old.kids[i].width;
            if pos <= self.edit.start && self.edit.end <= end {
                if self.edit.start == end && self.edit.end == end && i + 1 < n {
                    return None;
                }
                return Some(i);
            }
            pos = end;
            i = i + 1;
        }
        None
    }

    /// Parse the production of `old` again from byte `abs` on; it is taken if
    /// it ends where the text after the edit expects it.
    fn local_reparse(&self, was: &Tree, abs: usize, depth: u32, stats: &mut HostStats) -> (r:
        Option<Tree>)
        requires
            self.ok(),
            self.stood(*was, abs as int),
        ensures
            match r {
                Some(tree) => {
                    &&& tree.prod == was.prod
                    &&& self.stands(tree, abs as int)
                    &&& self.parses_alone(*was, abs as int)
                    &&& *final(stats) == (HostStats {
                        stmts_reparsed: old(stats).stmts_reparsed.saturating_add(1),
                        reuse_depth: depth,
                        ..*old(stats)
                    })
                },
                None => !self.parses_alone(*was, abs as int) && *final(stats) == *old(stats),
            },
    {
        proof {
            self.lemma_stood(*was, abs as int);
        }
        let expected: i64 = abs as i64 + was.width as i64 + self.delta;
        let tree = match self.new.parse_prod(was.prod, abs) {
            Ok(tree) => tree,
            Err(_) => {
                return None;
            },
        };
        let n: usize = self.new.b.len();
        let mut end: usize = abs + tree.width as usize;
        if expected == n as i64 {
            end = self.new.past_ws(end);
        }
        if end as i64 != expected {
            return None;
        }
        stats.stmts_reparsed = stats.stmts_reparsed.saturating_add(1);
        stats.reuse_depth = depth;
        Some(tree)
    }

    /// Terms of the tree's alternative.
    pub open spec fn terms(&self, old: Tree) -> Seq<Term> {
        self.old.g.terms(old.prod as int, old.alt as int)
    }

    /// What the terms from `ti` on parse to in the new text from byte `q` on.
    pub open spec fn rest(&self, old: Tree, abs: int, ti: int, q: int) -> Result<
        (Seq<KidModel>, int),
        Fault,
    > {
        terms_parsed(
            *self.new.t,
            *self.new.g,
            self.new.b@,
            old.prod as int,
            old.alt as int,
            ti,
            q,
            q > abs,
        )
    }

    /// `kids` stand in the new text, and the terms from `ti` on go on at byte
    /// `q`.
    #[verifier::opaque]
    pub open spec fn begun(&self, old: Tree, abs: int, kids: Seq<Child>, ti: int, q: int) -> bool {
        let (t, g, b) = (*self.new.t, *self.new.g, self.new.b@);
        &&& 0 <= ti <= self.terms(old).len()
        &&& abs <= q
        &&& q == abs + extent(kids)
        &&& q == abs ==> self.old.g.loose_before(self.terms(old), ti)
        &&& self.new.at(q)
        &&& kids_sound(t, b, abs, kids)
        &&& chosen(g, b, old.prod as int, abs) == Some(old.alt as int)
        &&& terms_parsed(t, g, b, old.prod as int, old.alt as int, 0, abs, false) == then_kids(
            kids_of(t, kids),
            self.rest(old, abs, ti, q),
        )
    }

    /// In the old text the terms from `ti` on parse to the children from `k`
    /// on.
    #[verifier::opaque]
    pub open spec fn went_on(&self, old: Tree, abs: int, k: int, ti: int, q: int) -> bool {
        &&& 0 <= k <= old.kids@.len()
        &&& q == place(abs, old.kids@, k)
        &&& abs <= q
        &&& q == abs ==> self.old.g.loose_before(self.terms(old), ti)
        &&& self.old.at(q)
        &&& terms_parsed(
            *self.old.t,
            *self.old.g,
            self.old.b@,
            old.prod as int,
            old.alt as int,
            ti,
            q,
            q > abs,
        ) == Ok::<(Seq<KidModel>, int), Fault>(
            (kids_of(*self.old.t, old.kids@.skip(k)), abs + old.width),
        )
    }

    /// What there is to know of a tree that stood.
    proof fn lemma_stood(&self, old: Tree, abs: int)
        requires
            self.stood(old, abs),
        ensures
            measured(old),
            old.prod < self.old.g.prods@.len(),
            self.old.at(abs),
            self.new.at(abs),
            abs + old.width <= self.old.b@.len(),
    {
        reveal(Reparser::stood);
    }

    proof fn lemma_begun(&self, old: Tree, abs: int, kids: Seq<Child>, ti: int, q: int)
        requires
            self.begun(old, abs, kids, ti, q),
        ensures
            0 <= ti <= self.terms(old).len(),
            abs <= q,
            q == abs + extent(kids),
            self.new.at(q),
    {
        reveal(Reparser::begun);
    }

    /// While children are left, so are terms.
    proof fn lemma_went_on(&self, old: Tree, abs: int, k: int, ti: int, q: int)
        requires
            self.went_on(old, abs, k, ti, q),
        ensures
            0 <= k <= old.kids@.len(),
            abs <= q,
            q == place(abs, old.kids@, k),
            self.old.at(q),
            0 <= ti && k < old.kids@.len() ==> ti < self.terms(old).len(),
    {
        reveal(Reparser::went_on);
        if 0 <= ti && ti >= self.terms(old).len() {
            assert(kids_of(*self.old.t, old.kids@.skip(k)).len() == 0);
        }
    }

    /// A repetition that ends in both texts.
    proof fn lemma_rep_ended(&self, old: Tree, abs: int, kids: Seq<Child>, k: int, ti: int, q: int)
        requires
            self.begun(old, abs, kids, ti, q),
            self.went_on(old, abs, k, ti, q),
            0 <= ti < self.terms(old).len(),
            self.ok(),
            self.terms(old)[ti] is Rep,
            ended(self.old.b@, self.terms(old), ti, q),
            ended(self.new.b@, self.terms(old), ti, q),
        ensures
            self.begun(old, abs, kids, ti + 1, q),
            self.went_on(old, abs, k, ti + 1, q),
    {
        reveal(Reparser::begun);
        reveal(Reparser::went_on);
    }

    proof fn lemma_open(&self, old: Tree, abs: int)
        requires
            self.ok(),
            self.stood(old, abs),
        ensures
            old.alt < self.old.g.prods@[old.prod as int].alts@.len(),
            self.went_on(old, abs, 0, 0, abs),
            chosen(*self.old.g, self.old.b@, old.prod as int, abs) == Some(old.alt as int),
    {
        reveal(Reparser::stood);
        reveal(Reparser::went_on);
        crate::runtime::host::lemma_chosen(*self.old.g, self.old.b@, old.prod as int, abs);
        lemma_tree_kids(*self.old.t, old);
        assert(old.kids@.skip(0) =~= old.kids@);
        assert(extent(old.kids@.take(0)) == 0);
    }

    /// The next child in the old text.
    proof fn lemma_old_child(&self, old: Tree, abs: int, k: int, ti: int, q: int)
        requires
            self.ok(),
            self.stood(old, abs),
            old.alt < self.old.g.prods@[old.prod as int].alts@.len(),
            self.went_on(old, abs, k, ti, q),
            0 <= ti < self.terms(old).len(),
            takes_child(self.old.b@, self.terms(old), ti, q),
        ensures
            k < old.kids@.len(),
            child_fits(
                *self.old.t,
                *self.old.g,
                self.old.b@,
                self.terms(old),
                ti,
                q,
                kid_model(*self.old.t, old.kids@[k]),
            ),
            kid_sound(*self.old.t, self.old.b@, q, old.kids@[k]),
            q + old.kids@[k].width <= abs + old.width,
            self.went_on(old, abs, k + 1, after(self.terms(old), ti), q + old.kids@[k].width),
    {
        self.lemma_stood(old, abs);
        self.lemma_went_on(old, abs, k, ti, q);
        self.lemma_old_first(old, abs, k, ti, q);
        self.lemma_kid_at(old, abs, k);
        lemma_place(old.kids@, k);
        lemma_child_boundary(
            *self.old.t,
            *self.old.g,
            self.old.b@,
            old.prod as int,
            old.alt as int,
            ti,
            q,
            kid_model(*self.old.t, old.kids@[k]),
        );
        self.lemma_old_step(old, abs, k, ti, q);
    }

    /// Children of a tree that stood are sound.
    proof fn lemma_kid_at(&self, old: Tree, abs: int, k: int)
        requires
            self.stood(old, abs),
            0 <= k < old.kids@.len(),
        ensures
            kid_sound(*self.old.t, self.old.b@, place(abs, old.kids@, k), old.kids@[k]),
    {
        reveal(Reparser::stood);
    }

    proof fn lemma_old_first(&self, old: Tree, abs: int, k: int, ti: int, q: int)
        requires
            self.went_on(old, abs, k, ti, q),
            0 <= ti < self.terms(old).len(),
            takes_child(self.old.b@, self.terms(old), ti, q),
        ensures
            k < old.kids@.len(),
            child_fits(
                *self.old.t,
                *self.old.g,
                self.old.b@,
                self.terms(old),
                ti,
                q,
                kid_model(*self.old.t, old.kids@[k]),
            ),
    {
        reveal(Reparser::went_on);
        let t = *self.old.t;
        lemma_first_child(
            t,
            *self.old.g,
            self.old.b@,
            old.prod as int,
            old.alt as int,
            ti,
            q,
            q > abs,
        );
        assert(old.kids@.skip(k)[0] == old.kids@[k]);
    }

    #[verifier::spinoff_prover]
    #[verifier::rlimit(80)]
    proof fn lemma_old_step(&self, old: Tree, abs: int, k: int, ti: int, q: int)
        requires
            self.went_on(old, abs, k, ti, q),
            0 <= ti < self.terms(old).len(),
            takes_child(self.old.b@, self.terms(old), ti, q),
            k < old.kids@.len(),
            self.old.at(q + old.kids@[k].width),
            self.old.g.takes(self.terms(old)[ti]) ==> old.kids@[k].width > 0,
        ensures
            self.went_on(old, abs, k + 1, after(self.terms(old), ti), q + old.kids@[k].width),
    {
        reveal(Reparser::went_on);
        let t = *self.old.t;
        lemma_first_child(
            t,
            *self.old.g,
            self.old.b@,
            old.prod as int,
            old.alt as int,
            ti,
            q,
            q > abs,
        );
        assert(old.kids@.skip(k)[0] == old.kids@[k]);
        assert(kids_of(t, old.kids@.skip(k)).skip(1) =~= kids_of(t, old.kids@.skip(k + 1)));
        lemma_place(old.kids@, k);
    }

    /// One more child in the new text.
    proof fn lemma_new_child(
        &self,
        old: Tree,
        abs: int,
        kids: Seq<Child>,
        ti: int,
        q: int,
        c: Child,
    )
        requires
            self.ok(),
            old.prod < self.old.g.prods@.len(),
            old.alt < self.old.g.prods@[old.prod as int].alts@.len(),
            self.begun(old, abs, kids, ti, q),
            ti < self.terms(old).len(),
            takes_child(self.new.b@, self.terms(old), ti, q),
            child_fits(
                *self.new.t,
                *self.new.g,
                self.new.b@,
                self.terms(old),
                ti,
                q,
                kid_model(*self.new.t, c),
            ),
            kid_sound(*self.new.t, self.new.b@, q, c),
            self.new.at(q + c.width),
        ensures
            self.begun(old, abs, kids.push(c), after(self.terms(old), ti), q + c.width),
    {
        let (t, g, b) = (*self.new.t, *self.new.g, self.new.b@);
        let (p, a) = (old.prod as int, old.alt as int);
        let terms = self.terms(old);
        self.lemma_begun(old, abs, kids, ti, q);
        lemma_child_boundary(t, g, b, p, a, ti, q, kid_model(t, c));
        self.lemma_leads(old, ti);
        lemma_push_kid(t, b, abs, kids, c);
        self.lemma_new_step(old, abs, kids, ti, q, c);
    }

    proof fn lemma_leads(&self, old: Tree, ti: int)
        requires
            self.ok(),
            old.prod < self.old.g.prods@.len(),
            old.alt < self.old.g.prods@[old.prod as int].alts@.len(),
            0 <= ti < self.terms(old).len(),
        ensures
            may_lead(*self.old.g, old.prod as int, self.terms(old)[ti], true),
            self.old.g.loose_before(self.terms(old), ti) ==> may_lead(
                *self.old.g,
                old.prod as int,
                self.terms(old)[ti],
                false,
            ),
    {
        let g = *self.old.g;
        let terms = self.terms(old);
        let r = g.ranks();
        assert(g.term_ok(terms[ti]));
        assert(terms[ti] == g.terms(old.prod as int, old.alt as int)[ti]);
        assert(r[old.prod as int] <= g.prods@.len());
        match terms[ti] {
            Term::Nt(j) => assert(r[j as int] <= g.prods@.len()),
            Term::Rep(j) => assert(r[j as int] <= g.prods@.len()),
            _ => {},
        }
    }

    #[verifier::spinoff_prover]
    #[verifier::rlimit(80)]
    proof fn lemma_new_step(
        &self,
        old: Tree,
        abs: int,
        kids: Seq<Child>,
        ti: int,
        q: int,
        c: Child,
    )
        requires
            self.begun(old, abs, kids, ti, q),
            0 <= ti < self.terms(old).len(),
            self.old.g == self.new.g,
            takes_child(self.new.b@, self.terms(old), ti, q),
            child_fits(
                *self.new.t,
                *self.new.g,
                self.new.b@,
                self.terms(old),
                ti,
                q,
                kid_model(*self.new.t, c),
            ),
            kid_sound(*self.new.t, self.new.b@, q, c),
            self.new.at(q + c.width),
            may_lead(*self.old.g, old.prod as int, self.terms(old)[ti], true),
            self.old.g.loose_before(self.terms(old), ti) ==> may_lead(
                *self.old.g,
                old.prod as int,
                self.terms(old)[ti],
                false,
            ),
            self.old.g.takes(self.terms(old)[ti]) ==> c.width > 0,
            extent(kids.push(c)) == extent(kids) + c.width,
            kids_of(*self.new.t, kids.push(c)) == kids_of(*self.new.t, kids).push(
                kid_model(*self.new.t, c),
            ),
        ensures
            self.begun(old, abs, kids.push(c), after(self.terms(old), ti), q + c.width),
    {
        let (t, g, b) = (*self.new.t, *self.new.g, self.new.b@);
        let (p, a) = (old.prod as int, old.alt as int);
        reveal(Reparser::begun);
        assert(may_lead(g, p, g.terms(p, a)[ti], q > abs));
        lemma_with_child(t, g, b, p, a, ti, q, q > abs, kid_model(t, c));
        lemma_push_sound(t, b, abs, kids, c);
        lemma_then(
            kids_of(t, kids),
            kid_model(t, c),
            self.rest(old, abs, after(self.terms(old), ti), q + c.width),
        );
    }

    /// The child `k` of the tree, before the edit, at byte `q` of the new
    /// text: kept, or parsed again where the edit is near.
    #[verifier::spinoff_prover]
    #[verifier::rlimit(80)]
    fn keep_child(&self, old: &Tree, abs: usize, k: usize, ti: usize, q: usize) -> (r: Option<
        Child,
    >)
        requires
            self.ok(),
            self.stood(*old, abs as int),
            old.alt < self.old.g.prods@[old.prod as int].alts@.len(),
            self.went_on(*old, abs as int, k as int, ti as int, q as int),
            ti < self.terms(*old).len(),
            takes_child(self.old.b@, self.terms(*old), ti as int, q as int),
            takes_child(self.new.b@, self.terms(*old), ti as int, q as int),
            k < old.kids@.len(),
            self.new.at(q as int),
            q + old.kids@[k as int].width <= self.edit.start,
        ensures
            r is Some <==> self.recurs(
                self.terms(*old),
                ti as int,
                q as int,
                old.kids@[k as int].width as int,
            ),
            r matches Some(c) ==> {
                &&& c.width == old.kids@[k as int].width
                &&& child_fits(
                    *self.new.t,
                    *self.new.g,
                    self.new.b@,
                    self.terms(*old),
                    ti as int,
                    q as int,
                    kid_model(*self.new.t, c),
                )
                &&& kid_sound(*self.new.t, self.new.b@, q as int, c)
                &&& self.new.at(q + c.width)
            },
    {
        proof {
            self.lemma_stood(*old, abs as int);
            self.lemma_went_on(*old, abs as int, k as int, ti as int, q as int);
            self.lemma_old_child(*old, abs as int, k as int, ti as int, q as int);
            self.lemma_same_head();
            self.old.lemma_terms_ok(old.prod as int, old.alt as int);
        }
        let terms = &self.old.g.prods[old.prod].alts[old.alt].terms;
        let kid = &old.kids[k];
        let ghost (t, g, a, b) = (*self.new.t, *self.new.g, self.old.b@, self.new.b@);
        proof {
            assert(terms@ == self.terms(*old));
            assert(g.term_ok(terms@[ti as int]));
            assert(a.subrange(q as int, q + kid.width) =~= b.subrange(q as int, q + kid.width));
            lemma_kid_moves(t, a, q as int, b, q as int, kid);
            lemma_child_boundary(
                t,
                g,
                a,
                old.prod as int,
                old.alt as int,
                ti as int,
                q as int,
                kid_model(t, *kid),
            );
        }
        let r: Option<Child> = match &terms[ti] {
            Term::Tok(s) => match self.new.tok_child(s, q) {
                Ok(c) => {
                    proof {
                        reveal(child_fits);
                    }
                    Some(c)
                },
                Err(_) => {
                    proof {
                        reveal(child_fits);
                    }
                    None
                },
            },
            Term::Ident => match self.new.ident_child(q) {
                Ok(c) => {
                    proof {
                        reveal(child_fits);
                    }
                    Some(c)
                },
                Err(_) => {
                    proof {
                        reveal(child_fits);
                    }
                    None
                },
            },
            Term::Expr => {
                let e: usize = self.new.scan_to(terms, ti, q);
                if e - q == kid.width as usize {
                    proof {
                        reveal(child_fits);
                    }
                    Some(kid.clone())
                } else {
                    proof {
                        reveal(child_fits);
                    }
                    None
                }
            },
            Term::Nt(j) => self.keep_prod(terms, ti, *j, kid, q),
            Term::Rep(j) => self.keep_prod(terms, ti, *j, kid, q),
        };
        match r {
            Some(c) => {
                proof {
                    assert forall|m: KidModel| #[trigger]
                        child_fits(t, g, b, terms@, ti as int, q as int, m) implies m.width
                        == c.width by {
                        lemma_one_width(
                            t,
                            g,
                            b,
                            terms@,
                            ti as int,
                            q as int,
                            m,
                            kid_model(t, c),
                        );
                    }
                    assert(kid_model(t, c).width == c.width);
                    assert(child_fits(t, g, b, terms@, ti as int, q as int, kid_model(t, c)));
                }
                if c.width == kid.width {
                    Some(c)
                } else {
                    None
                }
            },
            None => {
                assert(!self.recurs(terms@, ti as int, q as int, kid.width as int));
                None
            },
        }
    }

    /// The same of a child that is a production.
    fn keep_prod(&self, terms: &Vec<Term>, ti: usize, j: usize, kid: &Child, q: usize) -> (r: Option<
        Child,
    >)
        requires
            self.ok(),
            j < self.old.g.prods@.len(),
            ti < terms@.len(),
            leads_to(terms@[ti as int], j as int),
            self.new.at(q as int),
            q + kid.width <= self.edit.start,
            terms@[ti as int] is Rep ==> kid.width > 0,
            child_fits(
                *self.old.t,
                *self.old.g,
                self.old.b@,
                terms@,
                ti as int,
                q as int,
                kid_model(*self.old.t, *kid),
            ),
            kid_sound(*self.new.t, self.new.b@, q as int, *kid),
        ensures
            r is Some <==> self.recurs(terms@, ti as int, q as int, kid.width as int),
            r matches Some(c) ==> {
                &&& c.width == kid.width
                &&& child_fits(
                    *self.new.t,
                    *self.new.g,
                    self.new.b@,
                    terms@,
                    ti as int,
                    q as int,
                    kid_model(*self.new.t, c),
                )
                &&& kid_sound(*self.new.t, self.new.b@, q as int, c)
                &&& self.new.at(q + c.width)
            },
    {
        let ghost (t, g, a, b) = (*self.new.t, *self.new.g, self.old.b@, self.new.b@);
        let ghost m = kid_model(t, *kid);
        let w: usize = kid.width as usize;
        let e: usize = self.old.past_ws(q + w);
        proof {
            lemma_fits_sub(t, g, a, terms@, ti as int, q as int, m, j as int);
        }
        if self.reach <= self.edit.start as usize && e < self.edit.start as usize - self.reach {
            proof {
                self.lemma_same_head();
                lemma_head_prod(
                    t,
                    g,
                    a,
                    b,
                    self.edit.start as int,
                    self.reach + 1,
                    j as int,
                    q as int,
                );
                lemma_prod_boundary(t, g, b, j as int, q as int);
                if let KidKind::Sub { prod, alt, kids } = m.what {
                    lemma_sub_fits(
                        t,
                        g,
                        b,
                        terms@,
                        ti as int,
                        q as int,
                        j as int,
                        alt,
                        kids,
                        q + kid.width,
                    );
                }
            }
            return Some(kid.clone());
        }
        match self.new.parse_prod(j, q) {
            Ok(sub) => {
                if sub.width != kid.width {
                    proof {
                        self.lemma_recurs_sub(terms@, ti as int, j as int, q as int, kid.width as int);
                    }
                    return None;
                }
                let ghost (alt, kids, x) = (sub.alt as int, tree_kids(t, sub), q + sub.width);
                let c = Child { width: sub.width, node: ChildNode::Sub(Arc::new(sub)) };
                proof {
                    lemma_sub_fits(
                        t,
                        g,
                        b,
                        terms@,
                        ti as int,
                        q as int,
                        j as int,
                        alt,
                        kids,
                        x,
                    );
                }
                Some(c)
            },
            Err(_) => {
                proof {
                    self.lemma_recurs_sub(terms@, ti as int, j as int, q as int, kid.width as int);
                }
                None
            },
        }
    }

    /// A production that recurs parses to that many bytes.
    proof fn lemma_recurs_sub(&self, terms: Seq<Term>, ti: int, j: int, q: int, w: int)
        requires
            leads_to(terms[ti], j),
        ensures
            self.recurs(terms, ti, q, w) ==> (prod_parsed(
                *self.new.t,
                *self.new.g,
                self.new.b@,
                j,
                q,
            ) matches Ok((_, _, e)) && e == q + w),
    {
        let (t, g, b) = (*self.new.t, *self.new.g, self.new.b@);
        if self.recurs(terms, ti, q, w) {
            let m = choose|m: KidModel| #[trigger]
                child_fits(t, g, b, terms, ti, q, m) && m.width == w;
            lemma_fits_sub(t, g, b, terms, ti, q, m, j);
        }
    }

    /// Walk the children before child `ci`, in both texts at once.
    #[verifier::spinoff_prover]
    #[verifier::rlimit(80)]
    fn walk(&self, old: &Tree, abs: usize, ci: usize) -> (r: Option<(Vec<Child>, usize)>)
        requires
            self.ok(),
            self.stood(*old, abs as int),
            ci < old.kids@.len(),
            place(abs as int, old.kids@, ci as int) <= self.edit.start,
        ensures
            r is Some <==> chosen(*self.new.g, self.new.b@, old.prod as int, abs as int) == Some(
                old.alt as int,
            ) && self.walked(*old, ci as int, 0, 0, abs as int) is Some,
            r matches Some((kids, ti)) ==> {
                let q = place(abs as int, old.kids@, ci as int);
                &&& self.walked(*old, ci as int, 0, 0, abs as int) == Some(ti as int)
                &&& old.alt < self.old.g.prods@[old.prod as int].alts@.len()
                &&& ti < self.terms(*old).len()
                &&& takes_child(self.old.b@, self.terms(*old), ti as int, q)
                &&& takes_child(self.new.b@, self.terms(*old), ti as int, q)
                &&& self.begun(*old, abs as int, kids@, ti as int, q)
                &&& self.went_on(*old, abs as int, ci as int, ti as int, q)
            },
    {
        proof {
            self.lemma_stood(*old, abs as int);
            self.lemma_open(*old, abs as int);
        }
        match self.new.choose_alt(old.prod, abs) {
            Ok(a) => {
                if a != old.alt {
                    return None;
                }
            },
            Err(_) => {
                return None;
            },
        }
        let terms = &self.old.g.prods[old.prod].alts[old.alt].terms;
        let mut kids: Vec<Child> = Vec::new();
        let mut k: usize = 0;
        let mut ti: usize = 0;
        let mut q: usize = abs;
        proof {
            assert(terms@ == self.terms(*old));
            assert(kids_of(*self.new.t, kids@) =~= Seq::empty());
            reveal(Reparser::begun);
            self.lemma_stood(*old, abs as int);
            lemma_then_none(self.rest(*old, abs as int, 0, abs as int));
        }
        loop
            invariant
                self.ok(),
                self.stood(*old, abs as int),
                old.alt < self.old.g.prods@[old.prod as int].alts@.len(),
                terms@ == self.terms(*old),
                k <= ci < old.kids@.len(),
                place(abs as int, old.kids@, ci as int) <= self.edit.start,
                self.begun(*old, abs as int, kids@, ti as int, q as int),
                self.went_on(*old, abs as int, k as int, ti as int, q as int),
                chosen(*self.new.g, self.new.b@, old.prod as int, abs as int) == Some(
                    old.alt as int,
                ),
                self.walked(*old, ci as int, 0, 0, abs as int) == self.walked(
                    *old,
                    ci as int,
                    k as int,
                    ti as int,
                    q as int,
                ),
            decreases ci - k, terms@.len() - ti,
        {
            let n: usize = terms.len();
            proof {
                self.lemma_stood(*old, abs as int);
                self.lemma_begun(*old, abs as int, kids@, ti as int, q as int);
                self.lemma_went_on(*old, abs as int, k as int, ti as int, q as int);
            }
            if let Term::Rep(_) = &terms[ti] {
                let done: bool = self.old.rep_ended(terms, ti, q);
                if done != self.new.rep_ended(terms, ti, q) {
                    return None;
                }
                if done {
                    proof {
                        self.lemma_rep_ended(
                            *old,
                            abs as int,
                            kids@,
                            k as int,
                            ti as int,
                            q as int,
                        );
                    }
                    ti = ti + 1;
                    continue ;
                }
            }
            if k == ci {
                return Some((kids, ti));
            }
            proof {
                lemma_place(old.kids@, k as int);
                lemma_extent_part(old.kids@.take(ci as int), k + 1);
                assert(old.kids@.take(ci as int).take(k + 1) =~= old.kids@.take(k + 1));
                self.lemma_old_child(*old, abs as int, k as int, ti as int, q as int);
            }
            let c = match self.keep_child(old, abs, k, ti, q) {
                Some(c) => c,
                None => {
                    return None;
                },
            };
            let w: usize = c.width as usize;
            proof {
                self.lemma_new_child(*old, abs as int, kids@, ti as int, q as int, c);
            }
            kids.push(c);
            q = q + w;
            k = k + 1;
            let rep: bool = if let Term::Rep(_) = &terms[ti] {
                true
            } else {
                false
            };
            if !rep {
                ti = ti + 1;
            }
        }
    }

    /// The edited expression, child `ci` of the tree, at byte `q`.
    #[verifier::spinoff_prover]
    #[verifier::rlimit(80)]
    fn edited_expr(
        &self,
        was: &Tree,
        ci: usize,
        ti: usize,
        q: usize,
        depth: u32,
        stats: &mut HostStats,
    ) -> (r: Option<Child>)
        requires
            self.ok(),
            was.prod < self.old.g.prods@.len(),
            was.alt < self.old.g.prods@[was.prod as int].alts@.len(),
            ti < self.terms(*was).len(),
            self.terms(*was)[ti as int] is Expr,
            ci < was.kids@.len(),
            child_fits(
                *self.old.t,
                *self.old.g,
                self.old.b@,
                self.terms(*was),
                ti as int,
                q as int,
                kid_model(*self.old.t, was.kids@[ci as int]),
            ),
            kid_sound(*self.old.t, self.old.b@, q as int, was.kids@[ci as int]),
            self.old.at(q as int),
            self.new.at(q as int),
            self.old.at(q + was.kids@[ci as int].width),
            q <= self.edit.start,
            self.edit.end <= q + was.kids@[ci as int].width,
        ensures
            r is Some <==> self.expr_reparses(
                self.terms(*was),
                ti as int,
                q as int,
                was.kids@[ci as int].width as int,
            ),
            r matches Some(c) ==> {
                &&& c.width == was.kids@[ci as int].width + self.delta
                &&& was.kids@[ci as int].node matches ChildNode::Expr(node) && *final(stats) == (
                HostStats {
                    exprs_reused: old(stats).exprs_reused.saturating_add(
                        self.kept_inside(node, q as int, was.kids@[ci as int].width as int),
                    ),
                    reuse_depth: depth,
                    ..*old(stats)
                })
                &&& child_fits(
                    *self.new.t,
                    *self.new.g,
                    self.new.b@,
                    self.terms(*was),
                    ti as int,
                    q as int,
                    kid_model(*self.new.t, c),
                )
                &&& kid_sound(*self.new.t, self.new.b@, q as int, c)
                &&& self.new.at(q + c.width)
            },
            r is None ==> *final(stats) == *old(stats),
    {
        let ghost (t, g, a, b) = (*self.new.t, *self.new.g, self.old.b@, self.new.b@);
        let terms = &self.old.g.prods[was.prod].alts[was.alt].terms;
        proof {
            assert(terms@ == self.terms(*was));
            self.old.lemma_terms_ok(was.prod as int, was.alt as int);
            self.lemma_goes_on(self.edit.end as int);
        }
        let kid = &was.kids[ci];
        let node = match &kid.node {
            ChildNode::Expr(node) => node,
            _ => {
                proof {
                    reveal(child_fits);
                }
                return None;
            },
        };
        if !self.repl_is_expr_safe() {
            return None;
        }
        let w: usize = kid.width as usize;
        let e: usize = self.new.scan_to(terms, ti, q);
        if e as i64 != q as i64 + w as i64 + self.delta || e == q {
            return None;
        }
        let part = slice(self.old.s, q, q + w);
        let local = Edit {
            start: self.edit.start - q as u32,
            end: self.edit.end - q as u32,
            replacement: self.edit.replacement.clone(),
        };
        proof {
            self.lemma_local(&local, q as int, w as int);
            assert(local == self.local_edit(q as int));
            assert(part.spec_bytes() =~= self.old.b@.subrange(q as int, q + w));
        }
        match incremental_parse(self.new.t, node, part, &local) {
            Ok((n, _, es)) => {
                stats.exprs_reused = stats.exprs_reused.saturating_add(es.nodes_reused);
                stats.reuse_depth = depth;
                let c = Child { width: (e - q) as u32, node: ChildNode::Expr(n) };
                proof {
                    lemma_expr_fits(
                        t,
                        g,
                        b,
                        terms@,
                        ti as int,
                        q as int,
                        kid_model(t, c),
                    );
                }
                Some(c)
            },
            Err(_) => None,
        }
    }

    /// The edit within a part of the text.
    proof fn lemma_local(&self, local: &Edit, q: int, w: int)
        requires
            self.ok(),
            0 <= q,
            q + w <= self.old.b@.len(),
            self.old.at(q),
            self.old.at(q + w),
            q <= self.edit.start,
            self.edit.end <= q + w,
            local.start == self.edit.start - q,
            local.end == self.edit.end - q,
            local.replacement == self.edit.replacement,
        ensures
            local.in_range(self.old.b@.subrange(q, q + w)),
            local.small(self.old.b@.subrange(q, q + w)),
            local.applied(self.old.b@.subrange(q, q + w)) == self.new.b@.subrange(
                q,
                q + w + self.delta,
            ),
    {
        let (a, b) = (self.old.b@, self.new.b@);
        let part = a.subrange(q, q + w);
        assert(local.applied(part) =~= b.subrange(q, q + w + self.delta));
        lemma_part_boundary_at(a, q, q + w, self.edit.start as int);
        lemma_part_boundary_at(a, q, q + w, self.edit.end as int);
    }

    /// Whether the replacement holds no byte of punctuation and no keyword.
    fn repl_is_expr_safe(&self) -> (r: bool)
        ensures
            r == expr_safe(*self.old.g, bytes_of(self.edit.replacement)),
    {
        let x = self.edit.replacement.as_str().as_bytes();
        let n: usize = x.len();
        let puncts = &self.old.g.punct_bytes;
        let mut i: usize = 0;
        while i < n
            invariant
                n == x@.len(),
                i <= n,
                x@ == bytes_of(self.edit.replacement),
                puncts == &self.old.g.punct_bytes,
                forall|k: int| 0 <= k < i ==> !puncts@.contains(#[trigger] x@[k]),
            decreases n - i,
        {
            let mut j: usize = 0;
            while j < puncts.len()
                invariant
                    i < n == x@.len(),
                    j <= puncts@.len(),
                    x@ == bytes_of(self.edit.replacement),
                    puncts == &self.old.g.punct_bytes,
                    forall|k: int| 0 <= k < j ==> puncts@[k] != x@[i as int],
                decreases puncts@.len() - j,
            {
                if puncts[j] == x[i] {
                    assert(puncts@.contains(x@[i as int]));
                    return false;
                }
                j = j + 1;
            }
            i = i + 1;
        }
        let words = &self.old.g.keywords;
        let mut k: usize = 0;
        while k < words.len()
            invariant
                n == x@.len(),
                x@ == bytes_of(self.edit.replacement),
                words == &self.old.g.keywords,
                k <= words@.len(),
                forall|m: int, i: int|
                    0 <= m < k && 0 <= i <= x@.len() ==> !#[trigger] stands_at(
                        x@,
                        i,
                        lit(words@[m]),
                    ),
            decreases words@.len() - k,
        {
            let y = words[k].as_str().as_bytes();
            let mut i: usize = 0;
            while i < n
                invariant
                    n == x@.len(),
                    x@ == bytes_of(self.edit.replacement),
                    words == &self.old.g.keywords,
                    k < words@.len(),
                    y@ == lit(words@[k as int]),
                    i <= n,
                    forall|j: int|
                        0 <= j < i ==> !#[trigger] stands_at(x@, j, lit(words@[k as int])),
                decreases n - i,
            {
                if part_at(x, i, y) {
                    assert(stands_at(x@, i as int, lit(self.old.g.keywords@[k as int])));
                    return false;
                }
                i = i + 1;
            }
            if part_at(x, n, y) {
                assert(stands_at(x@, n as int, lit(self.old.g.keywords@[k as int])));
                return false;
            }
            k = k + 1;
        }
        true
    }

    /// All children stand: the tree is what its production parses to.
    #[verifier::spinoff_prover]
    #[verifier::rlimit(80)]
    proof fn lemma_close(&self, old: Tree, abs: int, kids: Seq<Child>, q: int, tree: Tree)
        requires
            self.ok(),
            old.prod < self.old.g.prods@.len(),
            self.begun(old, abs, kids, self.terms(old).len() as int, q),
            tree.prod == old.prod,
            tree.alt == old.alt,
            tree.kids@ == kids,
            tree.width == q - abs,
            0 <= abs,
        ensures
            self.stands(tree, abs),
    {
        reveal(Reparser::begun);
        let t = *self.new.t;
        lemma_tree_kids(t, tree);
        assert(kids_of(t, kids) + Seq::<KidModel>::empty() =~= kids_of(t, kids));
    }

    /// Repetitions end with the text.
    proof fn lemma_skip_rep(&self, old: Tree, abs: int, kids: Seq<Child>, ti: int, q: int)
        requires
            self.ok(),
            self.begun(old, abs, kids, ti, q),
            0 <= ti < self.terms(old).len(),
            self.terms(old)[ti] is Rep,
            ended(self.new.b@, self.terms(old), ti, q),
        ensures
            self.begun(old, abs, kids, ti + 1, q),
    {
        reveal(Reparser::begun);
    }

    /// After the edit the old children stand in the new text.
    #[verifier::spinoff_prover]
    #[verifier::rlimit(80)]
    proof fn lemma_tail(
        &self,
        old: Tree,
        abs: int,
        k: int,
        kids: Seq<Child>,
        ti: int,
        q: int,
    )
        requires
            self.ok(),
            old.prod < self.old.g.prods@.len(),
            old.alt < self.old.g.prods@[old.prod as int].alts@.len(),
            self.begun(old, abs, kids, ti, q + self.delta),
            self.went_on(old, abs, k, ti, q),
            self.edit.end <= q,
        ensures
            self.rest(old, abs, ti, q + self.delta) == Ok::<(Seq<KidModel>, int), Fault>(
                (kids_of(*self.old.t, old.kids@.skip(k)), abs + old.width + self.delta),
            ),
    {
        reveal(Reparser::begun);
        reveal(Reparser::went_on);
        let (t, g, a, b) = (*self.old.t, *self.old.g, self.old.b@, self.new.b@);
        let (p, c) = (old.prod as int, old.alt as int);
        let d = self.delta as int;
        self.lemma_goes_on(q);
        lemma_flag(t, g, a, p, c, ti, q, q > abs);
        lemma_rest_terms(t, g, a, b, p, c, ti, q, d, true);
        lemma_flag(t, g, b, p, c, ti, q + d, q + d > abs);
    }

    /// The tree of the children that stand and the old ones after the edit.
    #[verifier::spinoff_prover]
    #[verifier::rlimit(80)]
    proof fn lemma_close_tail(
        &self,
        old: Tree,
        abs: int,
        k: int,
        kids: Seq<Child>,
        ti: int,
        q: int,
        tree: Tree,
    )
        requires
            self.ok(),
            old.prod < self.old.g.prods@.len(),
            old.alt < self.old.g.prods@[old.prod as int].alts@.len(),
            self.begun(old, abs, kids, ti, q + self.delta),
            self.went_on(old, abs, k, ti, q),
            self.edit.end <= q,
            0 <= abs,
            self.new.at(abs),
            tree.prod == old.prod,
            tree.alt == old.alt,
            tree.kids@ == kids + old.kids@.skip(k),
            tree.width == abs + old.width + self.delta - abs,
            tree.width == extent(tree.kids@),
            abs + tree.width <= self.new.b@.len(),
            kids_sound(*self.new.t, self.new.b@, abs, tree.kids@),
        ensures
            self.stands(tree, abs),
    {
        let t = *self.new.t;
        self.lemma_tail(old, abs, k, kids, ti, q);
        reveal(Reparser::begun);
        lemma_tree_kids(t, tree);
        assert(kids_of(t, kids) + kids_of(t, old.kids@.skip(k)) =~= kids_of(t, tree.kids@));
        lemma_prod_boundary(t, *self.new.g, self.new.b@, old.prod as int, abs);
    }

    /// Keep the old children from `k` on, which go on at byte `q` of the old
    /// text, after `kids`.
    fn append_tail(&self, was: &Tree, abs: usize, k: usize, kids: &mut Vec<Child>, q: usize)
        requires
            self.ok(),
            self.stood(*was, abs as int),
            k <= was.kids@.len(),
            q == place(abs as int, was.kids@, k as int),
            self.edit.end <= q,
            abs + extent(old(kids)@) == q + self.delta,
            kids_sound(*self.new.t, self.new.b@, abs as int, old(kids)@),
        ensures
            final(kids)@ == old(kids)@ + was.kids@.skip(k as int),
            kids_sound(*self.new.t, self.new.b@, abs as int, final(kids)@),
            extent(final(kids)@) == was.width + self.delta,
    {
        let ghost before = kids@;
        let ghost (t, a, b, d) = (*self.new.t, self.old.b@, self.new.b@, self.delta as int);
        let mut i: usize = k;
        let n: usize = was.kids.len();
        proof {
            assert(before + was.kids@.subrange(k as int, k as int) =~= before);
            self.lemma_stood(*was, abs as int);
            lemma_extent_part(was.kids@, k as int);
        }
        while i < n
            invariant
                self.ok(),
                self.stood(*was, abs as int),
                measured(*was),
                abs + was.width <= a.len(),
                n == was.kids@.len(),
                k <= i <= n,
                t == *self.new.t,
                a == self.old.b@,
                b == self.new.b@,
                d == self.delta,
                self.edit.end <= place(abs as int, was.kids@, i as int),
                abs + extent(kids@) == place(abs as int, was.kids@, i as int) + d,
                kids_sound(t, b, abs as int, kids@),
                kids@ == before + was.kids@.subrange(k as int, i as int),
            decreases n - i,
        {
            proof {
                let x = place(abs as int, was.kids@, i as int);
                let w = was.kids@[i as int].width as int;
                lemma_place(was.kids@, i as int);
                self.lemma_kid_at(*was, abs as int, i as int);
                self.lemma_goes_on(x);
                self.lemma_after(x, w);
                lemma_kid_moves(t, a, x, b, x + d, &was.kids@[i as int]);
                lemma_push_sound(t, b, abs as int, kids@, was.kids@[i as int]);
                lemma_push_kid(t, b, abs as int, kids@, was.kids@[i as int]);
                assert(was.kids@.subrange(k as int, i + 1) =~= was.kids@.subrange(
                    k as int,
                    i as int,
                ).push(was.kids@[i as int]));
            }
            kids.push(was.kids[i].clone());
            i = i + 1;
        }
        proof {
            assert(was.kids@.subrange(k as int, n as int) =~= was.kids@.skip(k as int));
            assert(was.kids@.take(n as int) =~= was.kids@);
        }
    }

    /// Parts after the edit are the same, moved.
    proof fn lemma_after(&self, x: int, w: int)
        requires
            self.ok(),
            self.edit.end <= x,
            0 <= w,
            x + w <= self.old.b@.len(),
        ensures
            self.old.b@.subrange(x, x + w) == self.new.b@.subrange(
                x + self.delta,
                x + self.delta + w,
            ),
            0 <= x + self.delta,
            x + w + self.delta <= self.new.b@.len(),
    {
        assert(self.old.b@.subrange(x, x + w) =~= self.new.b@.subrange(
            x + self.delta,
            x + self.delta + w,
        ));
    }

    /// Reparse child `ci`, which holds the edit, and put the tree together
    /// again.
    #[verifier::spinoff_prover]
    #[verifier::rlimit(80)]
    fn splice(&self, was: &Tree, abs: usize, ci: usize, depth: u32, stats: &mut HostStats) -> (r:
        Option<Tree>)
        requires
            self.ok(),
            self.stood(*was, abs as int),
            ci < was.kids@.len(),
            place(abs as int, was.kids@, ci as int) <= self.edit.start,
            self.edit.end <= place(abs as int, was.kids@, ci as int) + was.kids@[ci as int].width,
        ensures
            r is Some <==> self.splices(*was, abs as int, ci as int),
            r matches Some(tree) ==> tree.prod == was.prod && self.stands(tree, abs as int),
            final(stats).fell_back == old(stats).fell_back,
            r is Some ==> *final(stats) == self.tally_around(
                *was,
                abs as int,
                ci as int,
                depth,
                *old(stats),
            ),
        decreases was, 0int,
    {
        let (mut kids, ti): (Vec<Child>, usize) = match self.walk(was, abs, ci) {
            Some(x) => x,
            None => {
                return None;
            },
        };
        let ghost q0 = place(abs as int, was.kids@, ci as int);
        proof {
            self.lemma_stood(*was, abs as int);
            self.lemma_begun(*was, abs as int, kids@, ti as int, q0);
            self.lemma_went_on(*was, abs as int, ci as int, ti as int, q0);
            self.lemma_old_child(*was, abs as int, ci as int, ti as int, q0);
            lemma_place(was.kids@, ci as int);
            self.lemma_went_on(
                *was,
                abs as int,
                ci + 1,
                after(self.terms(*was), ti as int),
                q0 + was.kids@[ci as int].width,
            );
        }
        let m: usize = was.kids.len();
        let q: usize = self.place_of(was, abs, ci);
        let w: usize = was.kids[ci].width as usize;
        let terms = &self.old.g.prods[was.prod].alts[was.alt].terms;
        let n: usize = terms.len();
        assert(terms@ == self.terms(*was));
        let c = match &was.kids[ci].node {
            ChildNode::Sub(sub) => {
                proof {
                    self.lemma_sub_stood(*was, abs as int, ci as int, ti as int);
                }
                match self.reparse_tree(sub, q, depth.saturating_add(1), stats) {
                    Some(tree) => {
                        let ghost (prod, alt, ks, e) = (
                            tree.prod as int,
                            tree.alt as int,
                            tree_kids(*self.new.t, tree),
                            q + tree.width,
                        );
                        if tree.width == 0 {
                            return None;
                        }
                        let c = Child { width: tree.width, node: ChildNode::Sub(Arc::new(tree)) };
                        proof {
                            lemma_sub_fits(
                                *self.new.t,
                                *self.new.g,
                                self.new.b@,
                                terms@,
                                ti as int,
                                q as int,
                                prod,
                                alt,
                                ks,
                                e,
                            );
                        }
                        c
                    },
                    None => {
                        return None;
                    },
                }
            },
            ChildNode::Expr(_) => {
                proof {
                    self.lemma_expr_term(*was, ci as int, ti as int, q as int);
                }
                match self.edited_expr(was, ci, ti, q, depth, stats) {
                    Some(c) => c,
                    None => {
                        return None;
                    },
                }
            },
            _ => {
                return None;
            },
        };
        proof {
            self.lemma_new_child(*was, abs as int, kids@, ti as int, q as int, c);
        }
        let cw: usize = c.width as usize;
        kids.push(c);
        let t0: usize = ti;
        let mut ti: usize = ti;
        let rep: bool = if let Term::Rep(_) = &terms[ti] {
            true
        } else {
            false
        };
        if !rep {
            ti = ti + 1;
        }
        let q1: usize = q + cw;
        self.count_kept(was, ci, stats);
        if q1 as i64 == q as i64 + w as i64 + self.delta {
            let ghost middle = kids@;
            proof {
                self.lemma_begun(*was, abs as int, kids@, ti as int, q1 as int);
                self.lemma_begun_sound(*was, abs as int, kids@, ti as int, q1 as int);
            }
            self.append_tail(was, abs, ci + 1, &mut kids, q + w);
            let width: u32 = (was.width as i64 + self.delta) as u32;
            let tree = Tree { prod: was.prod, alt: was.alt, kids, width };
            proof {
                self.lemma_goes_on(self.edit.end as int);
                self.lemma_close_tail(
                    *was,
                    abs as int,
                    ci + 1,
                    middle,
                    ti as int,
                    q + w,
                    tree,
                );
            }
            return Some(tree);
        }
        if ci + 1 != m {
            return None;
        }
        while ti < n
            invariant
                self.ok(),
                n == terms@.len(),
                terms@ == self.terms(*was),
                after(terms@, t0 as int) <= ti <= n,
                q1 <= self.new.b@.len(),
                forall|i: int|
                    after(terms@, t0 as int) <= i < ti ==> (#[trigger] terms@[i]) is Rep && ended(
                        self.new.b@,
                        terms@,
                        i,
                        q1 as int,
                    ),
                stats.fell_back == old(stats).fell_back,
                *stats == self.tally_around(*was, abs as int, ci as int, depth, *old(stats)),
                q1 != place(abs as int, was.kids@, ci as int) + was.kids@[ci as int].width
                    + self.delta,
                self.splices(*was, abs as int, ci as int) == self.closes(
                    *was,
                    abs as int,
                    ci as int,
                    t0 as int,
                    q1 as int,
                ),
                self.begun(*was, abs as int, kids@, ti as int, q1 as int),
            decreases n - ti,
        {
            let rep: bool = if let Term::Rep(_) = &terms[ti] {
                true
            } else {
                false
            };
            if !rep || !self.new.rep_ended(terms, ti, q1) {
                return None;
            }
            proof {
                self.lemma_skip_rep(*was, abs as int, kids@, ti as int, q1 as int);
            }
            ti = ti + 1;
        }
        proof {
            self.lemma_begun(*was, abs as int, kids@, ti as int, q1 as int);
        }
        let tree = Tree { prod: was.prod, alt: was.alt, kids, width: (q1 - abs) as u32 };
        proof {
            self.lemma_close(*was, abs as int, tree.kids@, q1 as int, tree);
        }
        Some(tree)
    }

    proof fn lemma_begun_sound(&self, old: Tree, abs: int, kids: Seq<Child>, ti: int, q: int)
        requires
            self.begun(old, abs, kids, ti, q),
        ensures
            kids_sound(*self.new.t, self.new.b@, abs, kids),
    {
        reveal(Reparser::begun);
    }

    /// A child that is a production stood.
    proof fn lemma_sub_stood(&self, old: Tree, abs: int, k: int, ti: int)
        requires
            self.ok(),
            self.stood(old, abs),
            0 <= k < old.kids@.len(),
            old.alt < self.old.g.prods@[old.prod as int].alts@.len(),
            0 <= ti < self.terms(old).len(),
            old.kids@[k].node is Sub,
            self.old.at(place(abs, old.kids@, k)),
            self.new.at(place(abs, old.kids@, k)),
            child_fits(
                *self.old.t,
                *self.old.g,
                self.old.b@,
                self.terms(old),
                ti,
                place(abs, old.kids@, k),
                kid_model(*self.old.t, old.kids@[k]),
            ),
        ensures
            self.stood(*old.kids@[k].node->Sub_0, place(abs, old.kids@, k)),
            leads_to(self.terms(old)[ti], old.kids@[k].node->Sub_0.prod as int),
    {
        self.lemma_stood(old, abs);
        self.lemma_kid_at(old, abs, k);
        let g = *self.old.g;
        assert(g.term_ok(self.terms(old)[ti])) by {
            assert(g.term_ok(g.terms(old.prod as int, old.alt as int)[ti]));
        }
        reveal(child_fits);
        reveal(Reparser::stood);
    }

    proof fn lemma_expr_term(&self, old: Tree, k: int, ti: int, q: int)
        requires
            0 <= k < old.kids@.len(),
            old.kids@[k].node is Expr,
            child_fits(
                *self.old.t,
                *self.old.g,
                self.old.b@,
                self.terms(old),
                ti,
                q,
                kid_model(*self.old.t, old.kids@[k]),
            ),
        ensures
            self.terms(old)[ti] is Expr,
    {
        reveal(child_fits);
    }

    /// Where child `ci` starts.
    fn place_of(&self, old: &Tree, abs: usize, ci: usize) -> (r: usize)
        requires
            self.ok(),
            measured(*old),
            abs + old.width <= self.old.b@.len(),
            ci < old.kids@.len(),
        ensures
            r == place(abs as int, old.kids@, ci as int),
    {
        let mut pos: usize = abs;
        let mut i: usize = 0;
        let n: usize = self.old.b.len();
        assert(extent(old.kids@.take(0)) == 0);
        while i < ci
            invariant
                i <= ci < old.kids@.len(),
                measured(*old),
                abs + old.width <= n,
                pos == place(abs as int, old.kids@, i as int),
            decreases ci - i,
        {
            proof {
                lemma_place(old.kids@, i as int);
            }
            pos = pos + old.kids[i].width as usize;
            i = i + 1;
        }
        pos
    }

    /// Count the productions beside child `ci`.
    fn count_kept(&self, was: &Tree, ci: usize, stats: &mut HostStats)
        ensures
            *final(stats) == (HostStats {
                stmts_reused: capped(
                    old(stats).stmts_reused + subs_beside(
                        was.kids@,
                        ci as int,
                        was.kids@.len() as int,
                    ),
                ),
                ..*old(stats)
            }),
    {
        let mut i: usize = 0;
        while i < was.kids.len()
            invariant
                i <= was.kids@.len(),
                *stats == (HostStats {
                    stmts_reused: capped(
                        old(stats).stmts_reused + subs_beside(was.kids@, ci as int, i as int),
                    ),
                    ..*old(stats)
                }),
            decreases was.kids@.len() - i,
        {
            if i != ci {
                if let ChildNode::Sub(_) = &was.kids[i].node {
                    stats.stmts_reused = stats.stmts_reused.saturating_add(1);
                }
            }
            i = i + 1;
        }
    }

    /// Reparse the tree, which starts at byte `abs`; none if the production
    /// around it has to be parsed again.
    fn reparse_tree(&self, was: &Tree, abs: usize, depth: u32, stats: &mut HostStats) -> (r: Option<
        Tree,
    >)
        requires
            self.ok(),
            self.stood(*was, abs as int),
        ensures
            r is Some <==> self.reparses(*was, abs as int),
            r matches Some(tree) ==> tree.prod == was.prod && self.stands(tree, abs as int),
            final(stats).fell_back == old(stats).fell_back,
            r is Some ==> *final(stats) == self.tally(*was, abs as int, depth, *old(stats)),
            r is None ==> *final(stats) == *old(stats),
        decreases was, 1int,
    {
        proof {
            self.lemma_stood(*was, abs as int);
        }
        if let Some(ci) = self.locate(was, abs) {
            let saved: HostStats = *stats;
            if let Some(tree) = self.splice(was, abs, ci, depth, stats) {
                return Some(tree);
            }
            *stats = saved;
        }
        self.local_reparse(was, abs, depth, stats)
    }
}

/// Number of productions among the first `n` children, child `ci` apart.
pub open spec fn subs_beside(kids: Seq<Child>, ci: int, n: int) -> nat
    decreases n,
{
    if n <= 0 {
        0
    } else if n - 1 != ci && kids[n - 1].node is Sub {
        subs_beside(kids, ci, n - 1) + 1
    } else {
        subs_beside(kids, ci, n - 1)
    }
}

/// A count, up to the largest that is kept.
pub open spec fn capped(n: int) -> u32 {
    if n > u32::MAX {
        u32::MAX
    } else {
        n as u32
    }
}

/// Length of the longest literal of the grammar.
fn longest_literal(g: &Grammar) -> (r: usize)
    ensures
        shorter(*g, r + 1),
{
    let mut m: usize = 0;
    let mut p: usize = 0;
    while p < g.prods.len()
        invariant
            p <= g.prods@.len(),
            forall|q: int, a: int, i: int|
                0 <= q < p && 0 <= a < g.prods@[q].alts@.len() && 0 <= i < g.terms(q, a).len() ==> (
                #[trigger] g.terms(q, a)[i] matches Term::Tok(s) ==> lit(s).len() <= m),
        decreases g.prods@.len() - p,
    {
        let alts = &g.prods[p].alts;
        let mut a: usize = 0;
        while a < alts.len()
            invariant
                p < g.prods@.len(),
                alts == &g.prods@[p as int].alts,
                a <= alts@.len(),
                forall|q: int, b: int, i: int|
                    0 <= q < p && 0 <= b < g.prods@[q].alts@.len() && 0 <= i < g.terms(q, b).len()
                        ==> (#[trigger] g.terms(q, b)[i] matches Term::Tok(s) ==> lit(s).len() <= m),
                forall|b: int, i: int|
                    0 <= b < a && 0 <= i < g.terms(p as int, b).len() ==> (#[trigger] g.terms(
                        p as int,
                        b,
                    )[i] matches Term::Tok(s) ==> lit(s).len() <= m),
            decreases alts@.len() - a,
        {
            let terms = &alts[a].terms;
            let mut i: usize = 0;
            while i < terms.len()
                invariant
                    p < g.prods@.len(),
                    alts == &g.prods@[p as int].alts,
                    a < alts@.len(),
                    terms == &alts@[a as int].terms,
                    i <= terms@.len(),
                    forall|q: int, b: int, j: int|
                        0 <= q < p && 0 <= b < g.prods@[q].alts@.len() && 0 <= j < g.terms(q, b).len()
                            ==> (#[trigger] g.terms(q, b)[j] matches Term::Tok(s) ==> lit(s).len()
                            <= m),
                    forall|b: int, j: int|
                        0 <= b < a && 0 <= j < g.terms(p as int, b).len() ==> (#[trigger] g.terms(
                            p as int,
                            b,
                        )[j] matches Term::Tok(s) ==> lit(s).len() <= m),
                    forall|j: int|
                        0 <= j < i ==> (#[trigger] g.terms(p as int, a as int)[j] matches Term::Tok(
                            s,
                        ) ==> lit(s).len() <= m),
                decreases terms@.len() - i,
            {
                assert(g.terms(p as int, a as int)[i as int] == terms@[i as int]);
                if let Term::Tok(s) = &terms[i] {
                    let n: usize = s.as_str().as_bytes().len();
                    if n > m {
                        m = n;
                    }
                }
                i = i + 1;
            }
            a = a + 1;
        }
        p = p + 1;
    }
    m
}

impl<'a> Reparser<'a> {
    /// The reparse is of the program of `old_src` after `edit`.
    pub open spec fn goes_by(&self, t: Table, g: Grammar, old_src: Seq<u8>, edit: Edit) -> bool {
        &&& self.ok()
        &&& *self.old.t == t
        &&& *self.old.g == g
        &&& self.old.b@ == old_src
        &&& *self.edit == edit
    }

    /// The whole text is the production of `root`, up to white space at its
    /// end.
    pub open spec fn reaches_end(&self, root: Tree) -> bool {
        let b = self.new.b@;
        prod_parsed(*self.new.t, *self.new.g, b, root.prod as int, 0) matches Ok((_, _, e))
            && past_space(b, e) == b.len()
    }

    /// What is counted: the program is parsed again as a whole exactly where
    /// its root cannot be reparsed.
    pub open spec fn counts(&self, old: Program, new: Program, stats: HostStats) -> bool {
        &&& stats.fell_back == !(self.reparses(old.root, 0) && self.reaches_end(old.root))
        &&& !stats.fell_back ==> stats == self.tally(
            old.root,
            0,
            0,
            HostStats {
                stmts_reused: 0,
                stmts_reparsed: 0,
                exprs_reused: 0,
                fell_back: false,
                reuse_depth: 0,
            },
        )
        &&& stats.fell_back ==> stats == (HostStats {
            stmts_reused: 0,
            stmts_reparsed: new.root.kids@.len() as u32,
            exprs_reused: 0,
            fell_back: true,
            reuse_depth: 0,
        })
    }
}

/// Reparse `old`, the program of `old_src`, after `edit`: what parsing the
/// edited source from scratch gives.
pub fn reparse_program(t: &Table, g: &Grammar, old: &Program, old_src: &str, edit: &Edit) -> (r:
    Result<(Program, String, HostStats), HostError>)
    requires
        t.wf(),
        t.one_byte_context(),
        g.wf(),
        g.grounded(),
        is_program(*t, *g, old_src.spec_bytes(), *old),
        edit.in_range(old_src.spec_bytes()),
        edit.small(old_src.spec_bytes()),
    ensures
        match r {
            Ok((prog, src, stats)) => bytes_of(src) == edit.applied(old_src.spec_bytes())
                && program_ok(*t, *g, edit.applied(old_src.spec_bytes()), Ok(prog)),
            Err(x) => program_ok(*t, *g, edit.applied(old_src.spec_bytes()), Err(x)),
        },
        r matches Ok((prog, _, stats)) ==> exists|p: Reparser<'_>| #[trigger]
            p.goes_by(*t, *g, old_src.spec_bytes(), *edit) && p.counts(*old, prog, stats),
{
    let new_src: String = edit.apply(old_src);
    let added: i64 = edit.replacement.as_str().as_bytes().len() as i64;
    let delta: i64 = added - (edit.end - edit.start) as i64;
    let reach: usize = longest_literal(g);
    let mut stats = HostStats::default();
    {
        let p = Reparser {
            old: HostParser::new(t, g, old_src),
            new: HostParser::new(t, g, new_src.as_str()),
            edit,
            reach,
            delta,
        };
        proof {
            is_char_boundary_start_end_of_seq(p.old.b@);
            is_char_boundary_start_end_of_seq(p.new.b@);
            reveal(Reparser::stood);
            assert(p.goes_by(*t, *g, old_src.spec_bytes(), *edit));
        }
        if let Some(root) = p.reparse_tree(&old.root, 0, 0, &mut stats) {
            let n: usize = p.new.b.len();
            if p.new.past_ws(root.width as usize) == n {
                proof {
                    lemma_measured(*t, p.new.b@, 0, &root);
                }
                return Ok((Program { root }, new_src, stats));
            }
        }
    }
    let prog = match parse_program(t, g, new_src.as_str()) {
        Ok(prog) => prog,
        Err(x) => {
            return Err(x);
        },
    };
    let stats = HostStats {
        stmts_reused: 0,
        stmts_reparsed: prog.root.kids.len() as u32,
        exprs_reused: 0,
        fell_back: true,
        reuse_depth: 0,
    };
    Ok((prog, new_src, stats))
}

/// A replacement that holds no byte of punctuation and no keyword.
pub open spec fn expr_safe(g: Grammar, x: Seq<u8>) -> bool {
    &&& forall|k: int| 0 <= k < x.len() ==> !g.punct_bytes@.contains(#[trigger] x[k])
    &&& forall|m: int, i: int|
        0 <= m < g.keywords@.len() && 0 <= i <= x.len() ==> !#[trigger] stands_at(
            x,
            i,
            lit(g.keywords@[m]),
        )
}

/// Whether `y` stands at byte `i` of `x`.
fn part_at(x: &[u8], i: usize, y: &[u8]) -> (r: bool)
    requires
        i <= x@.len(),
    ensures
        r == stands_at(x@, i as int, y@),
{
    let n: usize = x.len();
    if y.len() > n - i {
        return false;
    }
    let mut k: usize = 0;
    while k < y.len()
        invariant
            k <= y@.len(),
            i + y@.len() <= n,
            n == x@.len(),
            forall|j: int| 0 <= j < k ==> x@[i + j] == #[trigger] y@[j],
        decreases y@.len() - k,
    {
        if x[i + k] != y[k] {
            proof {
                assert(x@.subrange(i as int, i + y@.len())[k as int] != y@[k as int]);
            }
            return false;
        }
        k = k + 1;
    }
    assert(x@.subrange(i as int, i + y@.len()) =~= y@);
    true
}

/// What a term takes at a byte has one width.
proof fn lemma_one_width(
    t: Table,
    g: Grammar,
    b: Seq<u8>,
    terms: Seq<Term>,
    i: int,
    pos: int,
    x: KidModel,
    y: KidModel,
)
    requires
        child_fits(t, g, b, terms, i, pos, x),
        child_fits(t, g, b, terms, i, pos, y),
    ensures
        x.width == y.width,
{
    reveal(child_fits);
}

/// A character boundary of a text is one of a part.
proof fn lemma_part_boundary_at(a: Seq<u8>, i: int, j: int, x: int)
    requires
        valid_utf8(a),
        0 <= i <= x <= j <= a.len(),
        is_char_boundary(a, i),
        is_char_boundary(a, j),
        is_char_boundary(a, x),
    ensures
        is_char_boundary(a.subrange(i, j), x - i),
{
    let u = a.subrange(i, a.len() as int);
    lemma_boundary_shift(a, i, j);
    let part = a.subrange(i, j);
    assert(u.subrange(0, j - i) =~= part);
    valid_utf8_split(u, j - i);
    is_char_boundary_start_end_of_seq(part);
    if x < j {
        is_char_boundary_iff_not_is_continuation_byte(a, x);
        is_char_boundary_iff_not_is_continuation_byte(part, x - i);
        assert(part[x - i] == a[x]);
    }
}

/// Whatever was kept, two parses of one text say the same: the same structure,
/// widths and rendering, or the same fault.
pub proof fn law_reparse_matches_fresh(
    t: Table,
    g: Grammar,
    b: Seq<u8>,
    fresh: Result<Program, HostError>,
    again: Result<Program, HostError>,
)
    requires
        program_ok(t, g, b, fresh),
        program_ok(t, g, b, again),
    ensures
        match (fresh, again) {
            (Ok(x), Ok(y)) => {
                &&& x.root.alt == y.root.alt
                &&& x.root.width == y.root.width
                &&& tree_kids(t, x.root) == tree_kids(t, y.root)
                &&& kids_text(t, tree_kids(t, x.root), tree_kids(t, x.root).len() as int)
                    == kids_text(t, tree_kids(t, y.root), tree_kids(t, y.root).len() as int)
            },
            (Err(x), Err(y)) => fault_of(x) == fault_of(y),
            _ => false,
        },
{
}

} // verus!
