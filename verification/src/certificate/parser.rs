//! Pratt parser of the calculator grammar, into an arena of nodes.

use vstd::prelude::*;

use crate::certificate::lexer::{
    law_tokens_ordered, left_power, lex, lexed, ordered, right_power, ByteIndex, Token,
};

verus! {

pub type BindingPower = i32;

pub type NodeId = usize;

pub const BP_INFINITY: BindingPower = i32::MAX;

pub const BP_NEG_INFINITY: BindingPower = i32::MIN;

/// Most nodes of a parse tree.
pub const MAX_NODES: usize = 1024;

/// Most operators of one expression.
pub const MAX_PARSE_ITER: usize = 1024;

/// Deepest nesting of expressions.
pub const MAX_PARSE_DEPTH: usize = 256;

/// A node: what it is, the bytes it spans, and its precedence band. `m_spine`
/// is the least binding power of the operators on its spine, `stop_lbp` the
/// binding power of the token that ended it.
#[derive(Debug, Clone, Copy, PartialEq, Eq, Structural)]
pub struct Node {
    pub kind: NodeKind,
    pub start: ByteIndex,
    pub end: ByteIndex,
    pub m_spine: BindingPower,
    pub stop_lbp: BindingPower,
}

#[derive(Debug, Clone, Copy, PartialEq, Eq, Structural)]
pub enum NodeKind {
    Int(u8),
    Paren { inner: NodeId },
    Infix { op: Token, left: NodeId, right: NodeId },
    Postfix { op: Token, operand: NodeId },
}

/// A parse tree: nodes that refer to each other by index.
#[derive(Debug)]
pub struct ParseTree {
    pub nodes: Vec<Node>,
    pub root: NodeId,
}

/// Operands lie within what holds them, in order, and were parsed before it.
pub open spec fn laid_out(nodes: Seq<Node>, i: int) -> bool {
    let n = nodes[i];
    &&& n.start < n.end
    &&& match n.kind {
        NodeKind::Int(v) => true,
        NodeKind::Paren { inner } => inner < i && n.start < nodes[inner as int].start
            && nodes[inner as int].end < n.end,
        NodeKind::Infix { op, left, right } => left < i && right < i && n.start
            == nodes[left as int].start && nodes[left as int].end < nodes[right as int].start
            && nodes[right as int].end == n.end,
        NodeKind::Postfix { op, operand } => operand < i && n.start == nodes[operand as int].start
            && nodes[operand as int].end < n.end,
    }
}

pub open spec fn arena_ok(nodes: Seq<Node>) -> bool {
    forall|i: int| 0 <= i < nodes.len() ==> #[trigger] laid_out(nodes, i)
}

impl ParseTree {
    pub open spec fn wf(&self) -> bool {
        self.root < self.nodes@.len() && arena_ok(self.nodes@)
    }

    pub fn node(&self, id: NodeId) -> (r: &Node)
        requires
            id < self.nodes@.len(),
        ensures
            *r == self.nodes@[id as int],
    {
        &self.nodes[id]
    }

    pub fn root_node(&self) -> (r: &Node)
        requires
            self.wf(),
        ensures
            *r == self.nodes@[self.root as int],
    {
        &self.nodes[self.root]
    }
}

// ---- What the parser does ----------------------------------------------

/// Tokens, each with its position.
pub type Tokens = Seq<(Token, ByteIndex)>;

/// How far parsing has come: the tokens passed and the nodes made.
pub ghost struct State {
    pub pos: int,
    pub nodes: Seq<Node>,
}

/// The state with one more token passed; the last token stays.
pub open spec fn passed(ts: Tokens, st: State) -> State {
    State {
        pos: if st.pos + 1 < ts.len() {
            st.pos + 1
        } else {
            st.pos
        },
        ..st
    }
}

/// The state with one more node, and that node's index.
pub open spec fn pushed(st: State, n: Node) -> Option<(int, State)> {
    if st.nodes.len() >= MAX_NODES {
        None
    } else {
        Some((st.nodes.len() as int, State { nodes: st.nodes.push(n), ..st }))
    }
}

pub open spec fn least(a: BindingPower, b: BindingPower) -> BindingPower {
    if a <= b {
        a
    } else {
        b
    }
}

/// The state with node `id` ended by a token of binding power `lbp`.
pub open spec fn stopped(st: State, id: int, lbp: BindingPower) -> State {
    State { nodes: st.nodes.update(id, Node { stop_lbp: lbp, ..st.nodes[id] }), ..st }
}

/// The state with an operator of binding power `lbp` on the spine of `id`.
pub open spec fn spined(st: State, id: int, lbp: BindingPower) -> State {
    State {
        nodes: st.nodes.update(
            id,
            Node { m_spine: least(lbp, st.nodes[id].m_spine), ..st.nodes[id] },
        ),
        ..st
    }
}

/// Parsing of an operand: a digit or a parenthesised expression.
pub open spec fn prefix_parsed(ts: Tokens, st: State, depth: int) -> Option<(int, State)>
    decreases MAX_PARSE_DEPTH - depth, 0int, 0int,
{
    let at = ts[st.pos].1;
    if depth >= MAX_PARSE_DEPTH {
        None
    } else {
        match ts[st.pos].0 {
            Token::Int(n) => pushed(
                passed(ts, st),
                Node {
                    kind: NodeKind::Int(n),
                    start: at,
                    end: (at + 1) as usize,
                    m_spine: BP_INFINITY,
                    stop_lbp: BP_NEG_INFINITY,
                },
            ),
            Token::LParen => match expr_parsed(ts, passed(ts, st), BP_NEG_INFINITY, depth + 1) {
                None => None,
                Some((inner, s1)) => if ts[s1.pos].0 is RParen {
                    pushed(
                        passed(ts, s1),
                        Node {
                            kind: NodeKind::Paren { inner: inner as usize },
                            start: at,
                            end: (ts[s1.pos].1 + 1) as usize,
                            m_spine: BP_INFINITY,
                            stop_lbp: BP_NEG_INFINITY,
                        },
                    )
                } else {
                    None
                },
            },
            _ => None,
        }
    }
}

/// Parsing of an expression of operators that bind above `min_prec`.
pub open spec fn expr_parsed(ts: Tokens, st: State, min_prec: BindingPower, depth: int) -> Option<
    (int, State),
>
    decreases MAX_PARSE_DEPTH - depth, 1int, 0int,
{
    match prefix_parsed(ts, st, depth) {
        None => None,
        Some((left, s1)) => climbed(ts, s1, left, min_prec, depth, MAX_PARSE_ITER as nat),
    }
}

/// Passing of at most `k` operators after the operand `left`.
pub open spec fn climbed(
    ts: Tokens,
    st: State,
    left: int,
    min_prec: BindingPower,
    depth: int,
    k: nat,
) -> Option<(int, State)>
    decreases MAX_PARSE_DEPTH - depth, 0int, k,
{
    if k == 0 || depth >= MAX_PARSE_DEPTH {
        None
    } else {
        match left_power(ts[st.pos].0) {
            None => Some((left, stopped(st, left, BP_NEG_INFINITY))),
            Some(lbp) => if lbp <= min_prec {
                Some((left, stopped(st, left, lbp)))
            } else {
                match applied(ts, st, left, lbp, depth) {
                    None => None,
                    Some((id, s1)) => climbed(ts, s1, id, min_prec, depth, (k - 1) as nat),
                }
            },
        }
    }
}

/// Passing of one operator, of binding power `lbp`, after the operand `left`.
pub open spec fn applied(ts: Tokens, st: State, left: int, lbp: BindingPower, depth: int) -> Option<
    (int, State),
>
    decreases MAX_PARSE_DEPTH - depth, 0int, 0int,
{
    let op = ts[st.pos].0;
    let s1 = spined(passed(ts, st), left, lbp);
    if depth >= MAX_PARSE_DEPTH {
        None
    } else if op is Fact {
        pushed(
            s1,
            Node {
                kind: NodeKind::Postfix { op, operand: left as usize },
                start: s1.nodes[left].start,
                end: (ts[st.pos].1 + 1) as usize,
                m_spine: least(lbp, s1.nodes[left].m_spine),
                stop_lbp: s1.nodes[left].stop_lbp,
            },
        )
    } else {
        let rbp = match right_power(op) {
            Some(p) => p,
            None => lbp,
        };
        match expr_parsed(ts, s1, rbp, depth + 1) {
            None => None,
            Some((right, s2)) => pushed(
                s2,
                Node {
                    kind: NodeKind::Infix { op, left: left as usize, right: right as usize },
                    start: s2.nodes[left].start,
                    end: s2.nodes[right].end,
                    m_spine: least(least(lbp, s2.nodes[left].m_spine), s2.nodes[right].m_spine),
                    stop_lbp: s2.nodes[left].stop_lbp,
                },
            ),
        }
    }
}

/// The nodes and the root of the parse tree of `input`.
pub open spec fn parsed(input: Seq<u8>) -> Option<(Seq<Node>, int)> {
    let ts = lexed(input, 0);
    match expr_parsed(ts, State { pos: 0, nodes: Seq::empty() }, BP_NEG_INFINITY, 0) {
        None => None,
        Some((root, st)) => if ts[st.pos].0 is Eof {
            Some((st.nodes, root))
        } else {
            None
        },
    }
}

// ---- The parser --------------------------------------------------------

struct Parser<'a> {
    tokens: &'a Vec<(Token, ByteIndex)>,
    pos: usize,
    nodes: Vec<Node>,
}

impl<'a> Parser<'a> {
    spec fn state(&self) -> State {
        State { pos: self.pos as int, nodes: self.nodes@ }
    }

    spec fn wf(&self) -> bool {
        &&& ordered(self.tokens@)
        &&& self.pos < self.tokens@.len()
        &&& self.nodes@.len() <= MAX_NODES
    }

    fn new(tokens: &'a Vec<(Token, ByteIndex)>) -> (r: Parser<'a>)
        requires
            ordered(tokens@),
        ensures
            r.wf(),
            r.tokens == tokens,
            r.state() == (State { pos: 0, nodes: Seq::empty() }),
    {
        Parser { tokens, pos: 0, nodes: Vec::new() }
    }

    fn peek(&self) -> (r: Token)
        requires
            self.wf(),
        ensures
            r == self.tokens@[self.pos as int].0,
    {
        self.tokens[self.pos].0
    }

    fn peek_pos(&self) -> (r: ByteIndex)
        requires
            self.wf(),
        ensures
            r == self.tokens@[self.pos as int].1,
    {
        self.tokens[self.pos].1
    }

    fn advance(&mut self)
        requires
            old(self).wf(),
        ensures
            final(self).wf(),
            final(self).tokens == old(self).tokens,
            final(self).state() == passed(old(self).tokens@, old(self).state()),
    {
        if self.tokens.len() - self.pos > 1 {
            self.pos = self.pos + 1;
        }
    }

    fn push(&mut self, node: Node) -> (r: Option<NodeId>)
        requires
            old(self).wf(),
        ensures
            final(self).wf(),
            final(self).tokens == old(self).tokens,
            match r {
                Some(id) => pushed(old(self).state(), node) == Some((id as int, final(self).state()))
                    && id < final(self).nodes@.len(),
                None => pushed(old(self).state(), node) is None,
            },
    {
        if self.nodes.len() >= MAX_NODES {
            return None;
        }
        let id: usize = self.nodes.len();
        self.nodes.push(node);
        Some(id)
    }

    /// Set the binding power of the token that ended node `id`.
    fn stop(&mut self, id: NodeId, lbp: BindingPower)
        requires
            old(self).wf(),
            id < old(self).nodes@.len(),
        ensures
            final(self).wf(),
            final(self).tokens == old(self).tokens,
            final(self).state() == stopped(old(self).state(), id as int, lbp),
    {
        let mut n: Node = self.nodes[id];
        n.stop_lbp = lbp;
        self.nodes.set(id, n);
    }

    /// Parse an expression of operators that bind above `min_prec`.
    fn parse_expr(&mut self, min_prec: BindingPower, depth: usize) -> (r: Option<NodeId>)
        requires
            old(self).wf(),
            depth <= MAX_PARSE_DEPTH,
        ensures
            final(self).wf(),
            final(self).tokens == old(self).tokens,
            match r {
                Some(id) => expr_parsed(
                    old(self).tokens@,
                    old(self).state(),
                    min_prec,
                    depth as int,
                ) == Some((id as int, final(self).state())) && id < final(self).nodes@.len()
                    && final(self).nodes@.len() >= old(self).nodes@.len(),
                None => expr_parsed(
                    old(self).tokens@,
                    old(self).state(),
                    min_prec,
                    depth as int,
                ) is None,
            },
        decreases MAX_PARSE_DEPTH - depth, 1int, 0int,
    {
        let mut left: NodeId = match self.parse_prefix(depth) {
            Some(id) => id,
            None => {
                return None;
            },
        };
        if depth >= MAX_PARSE_DEPTH {
            return None;
        }
        let ghost ts = self.tokens@;
        let ghost whole = climbed(
            ts,
            self.state(),
            left as int,
            min_prec,
            depth as int,
            MAX_PARSE_ITER as nat,
        );
        let mut k: usize = MAX_PARSE_ITER;
        while k > 0
            invariant
                self.wf(),
                self.tokens == old(self).tokens,
                ts == self.tokens@,
                depth < MAX_PARSE_DEPTH,
                left < self.nodes@.len(),
                self.nodes@.len() >= old(self).nodes@.len(),
                whole == expr_parsed(old(self).tokens@, old(self).state(), min_prec, depth as int),
                whole == climbed(
                    ts,
                    self.state(),
                    left as int,
                    min_prec,
                    depth as int,
                    k as nat,
                ),
            decreases k,
        {
            let lbp: BindingPower = match self.peek().lbp() {
                Some(p) => p,
                None => {
                    self.stop(left, BP_NEG_INFINITY);
                    return Some(left);
                },
            };
            if lbp <= min_prec {
                self.stop(left, lbp);
                return Some(left);
            }
            left = match self.apply(left, lbp, depth) {
                Some(id) => id,
                None => {
                    return None;
                },
            };
            k = k - 1;
        }
        None
    }

    /// Pass the operator at hand, of binding power `lbp`, after `left`.
    #[verifier::rlimit(30)]
    fn apply(&mut self, left: NodeId, lbp: BindingPower, depth: usize) -> (r: Option<NodeId>)
        requires
            old(self).wf(),
            depth < MAX_PARSE_DEPTH,
            left < old(self).nodes@.len(),
            left_power(old(self).tokens@[old(self).pos as int].0) == Some(lbp),
        ensures
            final(self).wf(),
            final(self).tokens == old(self).tokens,
            match r {
                Some(id) => applied(
                    old(self).tokens@,
                    old(self).state(),
                    left as int,
                    lbp,
                    depth as int,
                ) == Some((id as int, final(self).state())) && id < final(self).nodes@.len()
                    && final(self).nodes@.len() >= old(self).nodes@.len(),
                None => applied(
                    old(self).tokens@,
                    old(self).state(),
                    left as int,
                    lbp,
                    depth as int,
                ) is None,
            },
        decreases MAX_PARSE_DEPTH - depth, 0int, 0int,
    {
        let ghost s0 = self.state();
        let op: Token = self.peek();
        let op_pos: ByteIndex = self.peek_pos();
        proof {
            assert(op_pos < self.tokens@.last().1);
        }
        self.advance();
        let mut n: Node = self.nodes[left];
        if lbp < n.m_spine {
            n.m_spine = lbp;
            self.nodes.set(left, n);
        }
        proof {
            assert(self.state().nodes =~= spined(passed(self.tokens@, s0), left as int, lbp).nodes);
        }
        if op == Token::Fact {
            let l: Node = self.nodes[left];
            let m: BindingPower = if lbp <= l.m_spine {
                lbp
            } else {
                l.m_spine
            };
            self.push(
                Node {
                    kind: NodeKind::Postfix { op, operand: left },
                    start: l.start,
                    end: op_pos + 1,
                    m_spine: m,
                    stop_lbp: l.stop_lbp,
                },
            )
        } else {
            let rbp: BindingPower = match op.rbp() {
                Some(p) => p,
                None => lbp,
            };
            let right: NodeId = match self.parse_expr(rbp, depth + 1) {
                Some(id) => id,
                None => {
                    return None;
                },
            };
            let l: Node = self.nodes[left];
            let r: Node = self.nodes[right];
            let m1: BindingPower = if lbp <= l.m_spine {
                lbp
            } else {
                l.m_spine
            };
            let m: BindingPower = if m1 <= r.m_spine {
                m1
            } else {
                r.m_spine
            };
            self.push(
                Node {
                    kind: NodeKind::Infix { op, left, right },
                    start: l.start,
                    end: r.end,
                    m_spine: m,
                    stop_lbp: l.stop_lbp,
                },
            )
        }
    }

    /// Parse a digit or a parenthesised expression.
    fn parse_prefix(&mut self, depth: usize) -> (r: Option<NodeId>)
        requires
            old(self).wf(),
            depth <= MAX_PARSE_DEPTH,
        ensures
            final(self).wf(),
            final(self).tokens == old(self).tokens,
            match r {
                Some(id) => prefix_parsed(old(self).tokens@, old(self).state(), depth as int)
                    == Some((id as int, final(self).state())) && id < final(self).nodes@.len()
                    && final(self).nodes@.len() >= old(self).nodes@.len(),
                None => prefix_parsed(old(self).tokens@, old(self).state(), depth as int) is None,
            },
        decreases MAX_PARSE_DEPTH - depth, 0int, 0int,
    {
        if depth >= MAX_PARSE_DEPTH {
            return None;
        }
        let tok: Token = self.peek();
        let pos: ByteIndex = self.peek_pos();
        match tok {
            Token::Int(n) => {
                proof {
                    assert(pos < self.tokens@.last().1);
                }
                self.advance();
                self.push(
                    Node {
                        kind: NodeKind::Int(n),
                        start: pos,
                        end: pos + 1,
                        m_spine: BP_INFINITY,
                        stop_lbp: BP_NEG_INFINITY,
                    },
                )
            },
            Token::LParen => {
                self.advance();
                let inner: NodeId = match self.parse_expr(BP_NEG_INFINITY, depth + 1) {
                    Some(id) => id,
                    None => {
                        return None;
                    },
                };
                if self.peek() != Token::RParen {
                    return None;
                }
                let rparen_pos: ByteIndex = self.peek_pos();
                proof {
                    assert(rparen_pos < self.tokens@.last().1);
                }
                self.advance();
                self.push(
                    Node {
                        kind: NodeKind::Paren { inner },
                        start: pos,
                        end: rparen_pos + 1,
                        m_spine: BP_INFINITY,
                        stop_lbp: BP_NEG_INFINITY,
                    },
                )
            },
            _ => None,
        }
    }
}

// ---- Laws --------------------------------------------------------------

/// The nodes of `a` are those of `b`, but for their bands.
pub open spec fn kept(a: Seq<Node>, b: Seq<Node>) -> bool {
    a.len() <= b.len() && forall|i: int|
        0 <= i < a.len() ==> (#[trigger] b[i]).kind == a[i].kind && b[i].start == a[i].start
            && b[i].end == a[i].end
}

spec fn sane(ts: Tokens, st: State) -> bool {
    ordered(ts) && 0 <= st.pos < ts.len() && arena_ok(st.nodes)
}

/// A node made from the token at `from` on.
spec fn made(ts: Tokens, st: State, from: int, r: Option<(int, State)>) -> bool {
    r matches Some((id, s1)) ==> {
        &&& sane(ts, s1)
        &&& kept(st.nodes, s1.nodes)
        &&& from < s1.pos
        &&& 0 <= id < s1.nodes.len()
        &&& s1.nodes[id].start == ts[from].1
        &&& s1.nodes[id].end <= ts[s1.pos].1
    }
}

proof fn lemma_kept_ok(a: Seq<Node>, b: Seq<Node>)
    requires
        arena_ok(a),
        kept(a, b),
        a.len() == b.len(),
    ensures
        arena_ok(b),
{
    assert forall|i: int| 0 <= i < b.len() implies #[trigger] laid_out(b, i) by {
        assert(laid_out(a, i));
        assert(b[i].kind == a[i].kind);
        match a[i].kind {
            NodeKind::Int(v) => {},
            NodeKind::Paren { inner } => assert(b[inner as int].kind == a[inner as int].kind),
            NodeKind::Infix { op, left, right } => {
                assert(b[left as int].kind == a[left as int].kind);
                assert(b[right as int].kind == a[right as int].kind);
            },
            NodeKind::Postfix { op, operand } => assert(b[operand as int].kind
                == a[operand as int].kind),
        }
    }
}

proof fn lemma_pushed_ok(nodes: Seq<Node>, n: Node)
    requires
        arena_ok(nodes),
        laid_out(nodes.push(n), nodes.len() as int),
    ensures
        arena_ok(nodes.push(n)),
        kept(nodes, nodes.push(n)),
{
    let b = nodes.push(n);
    assert forall|i: int| 0 <= i < b.len() implies #[trigger] laid_out(b, i) by {
        if i < nodes.len() {
            assert(laid_out(nodes, i));
            assert(b[i] == nodes[i]);
        }
    }
}

/// A token that is not the last is passed.
proof fn lemma_passed(ts: Tokens, st: State)
    requires
        ordered(ts),
        0 <= st.pos < ts.len(),
        !(ts[st.pos].0 is Eof),
    ensures
        passed(ts, st).pos == st.pos + 1,
        st.pos + 1 < ts.len(),
        ts[st.pos].1 < ts[st.pos + 1].1,
{
    assert(st.pos != ts.len() - 1);
}

#[verifier::rlimit(30)]
proof fn lemma_prefix(ts: Tokens, st: State, depth: int)
    requires
        sane(ts, st),
    ensures
        made(ts, st, st.pos, prefix_parsed(ts, st, depth)),
        prefix_parsed(ts, st, depth) matches Some((id, s1)) ==> s1.nodes[id].m_spine == BP_INFINITY,
    decreases MAX_PARSE_DEPTH - depth, 0int, 0int,
{
    if depth < MAX_PARSE_DEPTH && prefix_parsed(ts, st, depth) is Some {
        lemma_passed(ts, st);
        let (id, s1) = prefix_parsed(ts, st, depth)->0;
        match ts[st.pos].0 {
            Token::Int(n) => {
                lemma_pushed_ok(st.nodes, s1.nodes[id]);
            },
            Token::LParen => {
                let s0 = passed(ts, st);
                lemma_expr(ts, s0, BP_NEG_INFINITY, depth + 1);
                let (inner, s2) = expr_parsed(ts, s0, BP_NEG_INFINITY, depth + 1)->0;
                lemma_passed(ts, s2);
                assert(ts[st.pos].1 < ts[s0.pos].1);
                lemma_pushed_ok(s2.nodes, s1.nodes[id]);
            },
            _ => {},
        }
    }
}

proof fn lemma_expr(ts: Tokens, st: State, min_prec: BindingPower, depth: int)
    requires
        sane(ts, st),
    ensures
        made(ts, st, st.pos, expr_parsed(ts, st, min_prec, depth)),
        expr_parsed(ts, st, min_prec, depth) matches Some((id, s1)) ==> s1.nodes[id].stop_lbp
            <= min_prec && (min_prec < BP_INFINITY ==> min_prec < s1.nodes[id].m_spine),
    decreases MAX_PARSE_DEPTH - depth, 1int, 0int,
{
    lemma_prefix(ts, st, depth);
    if let Some((left, s1)) = prefix_parsed(ts, st, depth) {
        lemma_climbed(ts, s1, st.pos, left, min_prec, depth, MAX_PARSE_ITER as nat);
    }
}

proof fn lemma_climbed(
    ts: Tokens,
    st: State,
    from: int,
    left: int,
    min_prec: BindingPower,
    depth: int,
    k: nat,
)
    requires
        made(ts, st, from, Some((left, st))),
        0 <= from,
        min_prec < BP_INFINITY ==> min_prec < st.nodes[left].m_spine,
    ensures
        made(ts, st, from, climbed(ts, st, left, min_prec, depth, k)),
        climbed(ts, st, left, min_prec, depth, k) matches Some((id, s1)) ==> s1.nodes[id].stop_lbp
            <= min_prec && (min_prec < BP_INFINITY ==> min_prec < s1.nodes[id].m_spine),
    decreases MAX_PARSE_DEPTH - depth, 0int, k,
{
    if k > 0 && depth < MAX_PARSE_DEPTH {
        match left_power(ts[st.pos].0) {
            None => lemma_kept_ok(st.nodes, stopped(st, left, BP_NEG_INFINITY).nodes),
            Some(lbp) => if lbp <= min_prec {
                lemma_kept_ok(st.nodes, stopped(st, left, lbp).nodes);
            } else {
                lemma_applied(ts, st, from, left, lbp, min_prec, depth);
                if let Some((id, s1)) = applied(ts, st, left, lbp, depth) {
                    lemma_climbed(ts, s1, from, id, min_prec, depth, (k - 1) as nat);
                }
            },
        }
    }
}

#[verifier::rlimit(40)]
proof fn lemma_applied(
    ts: Tokens,
    st: State,
    from: int,
    left: int,
    lbp: BindingPower,
    min_prec: BindingPower,
    depth: int,
)
    requires
        made(ts, st, from, Some((left, st))),
        0 <= from,
        left_power(ts[st.pos].0) == Some(lbp),
        min_prec < lbp,
        min_prec < st.nodes[left].m_spine,
    ensures
        made(ts, st, from, applied(ts, st, left, lbp, depth)),
        applied(ts, st, left, lbp, depth) matches Some((id, s1)) ==> min_prec < s1.nodes[id].m_spine
            && s1.nodes[id].m_spine <= lbp && s1.nodes[id].m_spine <= st.nodes[left].m_spine,
    decreases MAX_PARSE_DEPTH - depth, 0int, 0int,
{
    if depth < MAX_PARSE_DEPTH && applied(ts, st, left, lbp, depth) is Some {
        lemma_passed(ts, st);
        let op = ts[st.pos].0;
        let s1 = spined(passed(ts, st), left, lbp);
        lemma_kept_ok(st.nodes, s1.nodes);
        let (id, s3) = applied(ts, st, left, lbp, depth)->0;
        if op is Fact {
            lemma_pushed_ok(s1.nodes, s3.nodes[id]);
        } else {
            let rbp = match right_power(op) {
                Some(p) => p,
                None => lbp,
            };
            lemma_expr(ts, s1, rbp, depth + 1);
            lemma_spine_kept(ts, s1, left, rbp, depth + 1);
            let (right, s2) = expr_parsed(ts, s1, rbp, depth + 1)->0;
            assert(s2.nodes[left] == s1.nodes[left]);
            assert(left as usize == left && right as usize == right);
            assert(laid_out(s2.nodes, left) && laid_out(s2.nodes, right));
            assert(s2.nodes[right].start == ts[st.pos + 1].1);
            assert(s2.nodes.push(s3.nodes[id])[left] == s2.nodes[left]);
            assert(s2.nodes.push(s3.nodes[id])[right] == s2.nodes[right]);
            lemma_pushed_ok(s2.nodes, s3.nodes[id]);
        }
    }
}

/// Parsing changes no node made before it.
proof fn lemma_spine_kept(ts: Tokens, st: State, i: int, min_prec: BindingPower, depth: int)
    requires
        sane(ts, st),
        0 <= i < st.nodes.len(),
    ensures
        expr_parsed(ts, st, min_prec, depth) matches Some((id, s1)) ==> s1.nodes[i] == st.nodes[i]
            && id >= st.nodes.len(),
    decreases MAX_PARSE_DEPTH - depth, 3int, 0int,
{
    lemma_prefix(ts, st, depth);
    lemma_prefix_kept(ts, st, i, depth);
    if let Some((left, s1)) = prefix_parsed(ts, st, depth) {
        lemma_climbed_kept(ts, s1, st.pos, left, i, min_prec, depth, MAX_PARSE_ITER as nat);
    }
}

proof fn lemma_prefix_kept(ts: Tokens, st: State, i: int, depth: int)
    requires
        sane(ts, st),
        0 <= i < st.nodes.len(),
    ensures
        prefix_parsed(ts, st, depth) matches Some((id, s1)) ==> s1.nodes[i] == st.nodes[i] && id
            >= st.nodes.len(),
    decreases MAX_PARSE_DEPTH - depth, 2int, 0int,
{
    if depth < MAX_PARSE_DEPTH && prefix_parsed(ts, st, depth) is Some {
        lemma_passed(ts, st);
        if ts[st.pos].0 is LParen {
            lemma_spine_kept(ts, passed(ts, st), i, BP_NEG_INFINITY, depth + 1);
            lemma_expr(ts, passed(ts, st), BP_NEG_INFINITY, depth + 1);
        }
    }
}

proof fn lemma_climbed_kept(
    ts: Tokens,
    st: State,
    from: int,
    left: int,
    i: int,
    min_prec: BindingPower,
    depth: int,
    k: nat,
)
    requires
        made(ts, st, from, Some((left, st))),
        0 <= from,
        0 <= i < left,
        min_prec < BP_INFINITY ==> min_prec < st.nodes[left].m_spine,
    ensures
        climbed(ts, st, left, min_prec, depth, k) matches Some((id, s1)) ==> s1.nodes[i]
            == st.nodes[i] && id >= left,
    decreases MAX_PARSE_DEPTH - depth, 2int, k,
{
    if k > 0 && depth < MAX_PARSE_DEPTH {
        if let Some(lbp) = left_power(ts[st.pos].0) {
            if lbp > min_prec {
                lemma_applied(ts, st, from, left, lbp, min_prec, depth);
                if let Some((id, s1)) = applied(ts, st, left, lbp, depth) {
                    lemma_passed(ts, st);
                    let op = ts[st.pos].0;
                    let s2 = spined(passed(ts, st), left, lbp);
                    lemma_kept_ok(st.nodes, s2.nodes);
                    if !(op is Fact) {
                        let rbp = match right_power(op) {
                            Some(p) => p,
                            None => lbp,
                        };
                        lemma_spine_kept(ts, s2, i, rbp, depth + 1);
                        lemma_expr(ts, s2, rbp, depth + 1);
                    }
                    lemma_climbed_kept(ts, s1, from, id, i, min_prec, depth, (k - 1) as nat);
                }
            }
        }
    }
}

/// The nodes of a parse tree lie within one another, in order.
pub proof fn law_arena(input: Seq<u8>)
    requires
        input.len() <= usize::MAX,
    ensures
        parsed(input) matches Some((nodes, root)) ==> arena_ok(nodes) && 0 <= root < nodes.len(),
{
    law_tokens_ordered(input);
    lemma_expr(
        lexed(input, 0),
        State { pos: 0, nodes: Seq::empty() },
        BP_NEG_INFINITY,
        0,
    );
}

/// A parsed expression's band holds the precedence it was parsed at: what
/// ended it binds no tighter, its spine does.
pub proof fn law_band_holds(ts: Tokens, st: State, min_prec: BindingPower, depth: int)
    requires
        ordered(ts),
        0 <= st.pos < ts.len(),
        arena_ok(st.nodes),
        min_prec < BP_INFINITY,
    ensures
        expr_parsed(ts, st, min_prec, depth) matches Some((id, s1)) ==> s1.nodes[id].stop_lbp
            <= min_prec < s1.nodes[id].m_spine,
{
    lemma_expr(ts, st, min_prec, depth);
}

proof fn lemma_climbed_band(
    ts: Tokens,
    st: State,
    from: int,
    left: int,
    p: BindingPower,
    q: BindingPower,
    depth: int,
    k: nat,
)
    requires
        made(ts, st, from, Some((left, st))),
        0 <= from,
        p < st.nodes[left].m_spine,
        climbed(ts, st, left, p, depth, k) matches Some((id, s1)) && s1.nodes[id].stop_lbp <= q
            < s1.nodes[id].m_spine,
    ensures
        climbed(ts, st, left, q, depth, k) == climbed(ts, st, left, p, depth, k),
        climbed(ts, st, left, p, depth, k) matches Some((id, s1)) && s1.nodes[id].m_spine
            <= st.nodes[left].m_spine,
    decreases k,
{
    if k > 0 && depth < MAX_PARSE_DEPTH {
        if let Some(lbp) = left_power(ts[st.pos].0) {
            if lbp > p {
                lemma_applied(ts, st, from, left, lbp, p, depth);
                if let Some((id, s1)) = applied(ts, st, left, lbp, depth) {
                    lemma_climbed_band(ts, s1, from, id, p, q, depth, (k - 1) as nat);
                }
            }
        }
    }
}

/// An expression parses to the same nodes at every precedence in its band.
pub proof fn law_band_determines(
    ts: Tokens,
    st: State,
    p: BindingPower,
    q: BindingPower,
    depth: int,
)
    requires
        ordered(ts),
        0 <= st.pos < ts.len(),
        arena_ok(st.nodes),
        p < BP_INFINITY,
        expr_parsed(ts, st, p, depth) matches Some((id, s1)) && s1.nodes[id].stop_lbp <= q
            < s1.nodes[id].m_spine,
    ensures
        expr_parsed(ts, st, q, depth) == expr_parsed(ts, st, p, depth),
{
    lemma_prefix(ts, st, depth);
    let (left, s1) = prefix_parsed(ts, st, depth)->0;
    lemma_climbed_band(ts, s1, st.pos, left, p, q, depth, MAX_PARSE_ITER as nat);
}

/// Parse `input`; `None` if it is no expression, or too large a one.
pub fn batch_parse(input: &[u8]) -> (r: Option<ParseTree>)
    ensures
        match r {
            Some(t) => parsed(input@) == Some((t.nodes@, t.root as int)) && t.wf(),
            None => parsed(input@) is None,
        },
{
    let n: usize = input.len();
    proof {
        law_tokens_ordered(input@);
    }
    let toks = lex(input);
    let mut p = Parser::new(&toks);
    let root: NodeId = match p.parse_expr(BP_NEG_INFINITY, 0) {
        Some(id) => id,
        None => {
            return None;
        },
    };
    if p.peek() != Token::Eof {
        return None;
    }
    proof {
        law_arena(input@);
    }
    Some(ParseTree { nodes: p.nodes, root })
}

} // verus!
