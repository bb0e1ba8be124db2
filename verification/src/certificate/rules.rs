//! The rules of the calculator grammar.

use vstd::prelude::*;

use crate::certificate::incremental::{
    byte_at, cond_boundaries_match, cond_disjoint_region, cond_precedence_band, translate_logic,
    Edit,
};
use crate::certificate::lexer::{
    is_blank, lbp_of_byte_logic, left_power, lexed, next_token_lbp_logic, ordered, right_power,
    token_of, Token,
};
use crate::certificate::parser::{
    applied, arena_ok, climbed, expr_parsed, law_band_determines, law_band_holds, parsed,
    passed, prefix_parsed, spined, stopped, BindingPower, Node, NodeKind, State, Tokens,
    BP_INFINITY, BP_NEG_INFINITY, MAX_NODES, MAX_PARSE_DEPTH,
    MAX_PARSE_ITER,
};

verus! {

// ---- Tokens ------------------------------------------------------------

/// What each byte is: a digit is its value, each sign its own token; blanks are none.
pub proof fn law_bytes(b: u8)
    ensures
        '0' as u8 <= b <= '9' as u8 <==> token_of(b) is Some && token_of(b)->0 is Int,
        '0' as u8 <= b <= '9' as u8 ==> token_of(b) == Some(Token::Int((b - '0' as u8) as u8)),
        token_of(b) == Some(Token::Plus) <==> b == '+' as u8,
        token_of(b) == Some(Token::Minus) <==> b == '-' as u8,
        token_of(b) == Some(Token::Times) <==> b == '*' as u8,
        token_of(b) == Some(Token::Divide) <==> b == '/' as u8,
        token_of(b) == Some(Token::Pow) <==> b == '^' as u8,
        token_of(b) == Some(Token::Fact) <==> b == '!' as u8,
        token_of(b) == Some(Token::LParen) <==> b == '(' as u8,
        token_of(b) == Some(Token::RParen) <==> b == ')' as u8,
        token_of(b) != Some(Token::Eof),
        is_blank(b) <==> b == ' ' as u8 || b == '\t' as u8 || b == '\n' as u8,
        is_blank(b) ==> token_of(b) is None,
{
}

/// Sums bind loosest, then products, powers and factorials, each ten tighter than the one
/// before. Powers group to the right, sums and products to the left.
pub proof fn law_powers(t: Token)
    ensures
        left_power(Token::Plus) == Some(10i32),
        left_power(Token::Minus) == left_power(Token::Plus),
        left_power(Token::Times)->0 == left_power(Token::Plus)->0 + 10,
        left_power(Token::Divide) == left_power(Token::Times),
        left_power(Token::Pow)->0 == left_power(Token::Times)->0 + 10,
        left_power(Token::Fact)->0 == left_power(Token::Pow)->0 + 10,
        left_power(t) is Some <==> t is Plus || t is Minus || t is Times || t is Divide || t is Pow
            || t is Fact,
        right_power(t) is Some <==> left_power(t) is Some && !(t is Fact),
        right_power(t) is Some && !(t is Pow) ==> right_power(t) == left_power(t),
        right_power(Token::Pow)->0 == left_power(Token::Pow)->0 - 1,
{
}

/// The power of a byte is that of the token it is; what is no operator binds less than
/// all.
pub proof fn law_power_of_byte(b: u8)
    ensures
        lbp_of_byte_logic(b) == (match token_of(b) {
            Some(t) => match left_power(t) {
                Some(p) => p as int,
                None => i32::MIN as int,
            },
            None => i32::MIN as int,
        }),
{
}

/// The power read off the bytes from a place on is that of the first token there.
pub proof fn law_next_power(b: Seq<u8>, i: int)
    requires
        0 <= i <= b.len() <= usize::MAX,
    ensures
        lexed(b, i).len() > 0,
        next_token_lbp_logic(b, i) == (match left_power(lexed(b, i)[0].0) {
            Some(p) => p as int,
            None => i32::MIN as int,
        }),
    decreases b.len() - i,
{
    if i < b.len() {
        if is_blank(b[i]) {
            law_next_power(b, i + 1);
        } else {
            law_power_of_byte(b[i]);
            if token_of(b[i]) is Some {
                assert(lexed(b, i)[0].0 == token_of(b[i])->0);
            }
        }
    }
}

/// Every token is the byte it stands at, and what lies before it, up to the token before,
/// is blank; the tokens end with the input or at a byte that is none.
pub proof fn law_tokens(b: Seq<u8>, i: int, k: int)
    requires
        0 <= i <= b.len() <= usize::MAX,
        0 <= k < lexed(b, i).len(),
    ensures
        ({
            let ts = lexed(b, i);
            let p = ts[k].1 as int;
            let from = if k == 0 {
                i
            } else {
                ts[k - 1].1 + 1
            };
            &&& from <= p <= b.len()
            &&& forall|j: int| from <= j < p ==> is_blank(#[trigger] b[j])
            &&& k < ts.len() - 1 ==> p < b.len() && token_of(b[p]) == Some(ts[k].0)
            &&& k == ts.len() - 1 ==> ts[k].0 is Eof && (p < b.len() ==> token_of(b[p]) is None
                && !is_blank(b[p]))
        }),
    decreases b.len() - i,
{
    let ts = lexed(b, i);
    if i < b.len() {
        if is_blank(b[i]) {
            law_tokens(b, i + 1, k);
        } else if token_of(b[i]) is Some {
            let rest = lexed(b, i + 1);
            assert(ts == seq![(token_of(b[i])->0, i as usize)] + rest);
            law_next_power(b, i + 1);
            if k > 0 {
                law_tokens(b, i + 1, k - 1);
                assert(ts[k] == rest[k - 1]);
                if k > 1 {
                    assert(ts[k - 1] == rest[k - 2]);
                }
            }
        }
    }
}

// ---- Expressions -------------------------------------------------------

/// The kind of the node that a parse has made.
pub open spec fn made_kind(r: Option<(int, State)>) -> Option<NodeKind> {
    match r {
        Some((id, st)) => Some(st.nodes[id].kind),
        None => None,
    }
}

/// An operand is a digit, or an expression between parentheses.
pub proof fn law_operand(ts: Tokens, st: State, depth: int)
    requires
        0 <= st.pos < ts.len(),
        st.nodes.len() < MAX_NODES,
        depth < MAX_PARSE_DEPTH,
    ensures
        match ts[st.pos].0 {
            Token::Int(n) => made_kind(prefix_parsed(ts, st, depth)) == Some(NodeKind::Int(n)),
            Token::LParen => match expr_parsed(ts, passed(ts, st), BP_NEG_INFINITY, depth + 1) {
                Some((inner, s1)) => {
                    &&& !(ts[s1.pos].0 is RParen) ==> prefix_parsed(ts, st, depth) is None
                    &&& ts[s1.pos].0 is RParen && s1.nodes.len() < MAX_NODES ==> made_kind(
                        prefix_parsed(ts, st, depth),
                    ) == Some(NodeKind::Paren { inner: inner as usize })
                },
                None => prefix_parsed(ts, st, depth) is None,
            },
            _ => prefix_parsed(ts, st, depth) is None,
        },
{
}

/// After an operand, operators are applied as long as they bind tighter than asked for; an
/// expression ends before the first that does not.
pub proof fn law_climb(
    ts: Tokens,
    st: State,
    left: int,
    min_prec: BindingPower,
    depth: int,
    k: nat,
)
    requires
        k > 0,
        depth < MAX_PARSE_DEPTH,
    ensures
        match left_power(ts[st.pos].0) {
            None => climbed(ts, st, left, min_prec, depth, k) == Some(
                (left, stopped(st, left, BP_NEG_INFINITY)),
            ),
            Some(p) => {
                &&& p <= min_prec ==> climbed(ts, st, left, min_prec, depth, k) == Some(
                    (left, stopped(st, left, p)),
                )
                &&& p > min_prec ==> match applied(ts, st, left, p, depth) {
                    Some((id, s1)) => climbed(ts, st, left, min_prec, depth, k) == climbed(
                        ts,
                        s1,
                        id,
                        min_prec,
                        depth,
                        (k - 1) as nat,
                    ),
                    None => climbed(ts, st, left, min_prec, depth, k) is None,
                }
            },
        },
{
}

/// A factorial stands after its operand alone; every other operator takes an expression at
/// its right power.
pub proof fn law_operator(ts: Tokens, st: State, left: int, lbp: BindingPower, depth: int)
    requires
        0 <= st.pos < ts.len(),
        0 <= left < st.nodes.len() < MAX_NODES,
        depth < MAX_PARSE_DEPTH,
        left_power(ts[st.pos].0) == Some(lbp),
    ensures
        ({
            let op = ts[st.pos].0;
            let s1 = spined(passed(ts, st), left, lbp);
            let all = applied(ts, st, left, lbp, depth);
            &&& op is Fact ==> made_kind(all) == Some(
                NodeKind::Postfix { op, operand: left as usize },
            )
            &&& !(op is Fact) ==> match expr_parsed(ts, s1, right_power(op)->0, depth + 1) {
                Some((right, s2)) => s2.nodes.len() < MAX_NODES ==> made_kind(all) == Some(
                    NodeKind::Infix { op, left: left as usize, right: right as usize },
                ),
                None => all is None,
            }
        }),
{
}

/// An input is one expression, with nothing after it.
pub proof fn law_input(input: Seq<u8>)
    ensures
        ({
            let ts = lexed(input, 0);
            match expr_parsed(ts, State { pos: 0, nodes: Seq::empty() }, i32::MIN, 0) {
                Some((root, st)) => if ts[st.pos].0 is Eof {
                    parsed(input) == Some((st.nodes, root))
                } else {
                    parsed(input) is None
                },
                None => parsed(input) is None,
            }
        }),
{
}

/// How large an expression may be: no operand is read below 256 levels, and no node is
/// added to 1024.
pub proof fn law_limits(ts: Tokens, st: State, min_prec: BindingPower, depth: int)
    ensures
        depth >= 256 ==> prefix_parsed(ts, st, depth) is None && expr_parsed(
            ts,
            st,
            min_prec,
            depth,
        ) is None,
        MAX_NODES == 1024,
        MAX_PARSE_DEPTH == 256,
        MAX_PARSE_ITER == 1024,
        BP_NEG_INFINITY == i32::MIN,
        BP_INFINITY == i32::MAX,
{
}

// ---- Edits -------------------------------------------------------------

/// `new` is `old` with the bytes of the edit replaced.
pub open spec fn edited(e: Edit, old: Seq<u8>, new: Seq<u8>) -> bool {
    &&& e.start + e.removed <= old.len()
    &&& new.len() == old.len() - e.removed + e.added
    &&& forall|i: int| 0 <= i < e.start ==> #[trigger] new[i] == old[i]
    &&& forall|i: int|
        e.start + e.removed <= i < old.len() ==> #[trigger] old[i] == new[i - e.removed + e.added]
}

/// A byte outside the edit is found where it is translated to; one inside is found
/// nowhere, and two bytes keep their distance on one side of it.
pub proof fn law_translate(e: Edit, old: Seq<u8>, new: Seq<u8>, i: int)
    requires
        edited(e, old, new),
        0 <= i < old.len(),
    ensures
        match translate_logic(e, i) {
            Some(j) => byte_at(new, j) == byte_at(old, i),
            None => e.start <= i < e.start + e.removed,
        },
        i < e.start || i >= e.start + e.removed ==> translate_logic(e, i) is Some,
{
}

/// A subtree that the edit leaves alone, a byte between them, may be reused exactly if the
/// precedence is in its band and what follows it binds as before.
pub proof fn law_reuse_apart(t: Node, e: Edit, old: Seq<u8>, new: Seq<u8>)
    requires
        edited(e, old, new),
        t.start <= t.end <= old.len(),
        t.end < e.start || e.start + e.removed < t.start,
    ensures
        cond_disjoint_region(t, e),
        cond_boundaries_match(t, e, old, new),
        translate_logic(e, t.end as int) == Some(
            if t.end < e.start {
                t.end as int
            } else {
                t.end + new.len() - old.len()
            },
        ),
{
    if t.start > 0 {
        law_translate(e, old, new, t.start - 1);
    }
    if t.end < old.len() {
        law_translate(e, old, new, t.end as int);
    }
}

/// A subtree is not reused if a byte of it was replaced, or the one before or after it.
pub proof fn law_reuse_touched(t: Node, e: Edit, old: Seq<u8>, new: Seq<u8>, i: int)
    requires
        edited(e, old, new),
        t.start <= t.end <= old.len(),
        t.start - 1 <= i <= t.end,
        0 <= i < old.len(),
        e.start <= i < e.start + e.removed,
    ensures
        !(cond_disjoint_region(t, e) && cond_boundaries_match(t, e, old, new)),
{
    law_translate(e, old, new, i);
}

/// The band of an expression is where it parses to the same nodes: it holds the precedence
/// that it was parsed at, and at all others in it nothing changes.
pub proof fn law_band(ts: Tokens, st: State, p: BindingPower, q: BindingPower, depth: int)
    requires
        ordered(ts),
        0 <= st.pos < ts.len(),
        arena_ok(st.nodes),
        p < BP_INFINITY,
        expr_parsed(ts, st, p, depth) is Some,
    ensures
        ({
            let (id, s1) = expr_parsed(ts, st, p, depth)->0;
            &&& cond_precedence_band(s1.nodes[id], p)
            &&& cond_precedence_band(s1.nodes[id], q) ==> expr_parsed(ts, st, q, depth)
                == expr_parsed(ts, st, p, depth)
        }),
{
    let (id, s1) = expr_parsed(ts, st, p, depth)->0;
    law_band_holds(ts, st, p, depth);
    if cond_precedence_band(s1.nodes[id], q) {
        law_band_determines(ts, st, p, q, depth);
    }
}

} // verus!
