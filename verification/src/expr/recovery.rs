//! Cost-optimal error recovery: the cheapest sequence of token insertions,
//! deletions and substitutions after which a source parses.

use std::sync::Arc;
use vstd::hash_set::StringHashSet;
use vstd::prelude::*;
use vstd::string::*;
use vstd::utf8::*;

use crate::ascii::{COLON, DIGIT_0, LOWER_X, PLUS, RBRACKET, RPAREN, SPACE};
use crate::expr::ast::{Node, Shape, ShapeKind};
use crate::expr::edit::{bytes_of, lemma_encode_concat};
use crate::expr::exchange::{lemma_search, lemma_search_plain, plain, search_ok, seen, slots_ok};
use crate::expr::expand::{copy_repairs, item_ok, successors};
use crate::expr::frontier::{load, no_later, Frontier, Item};
use crate::expr::grammar::{lb, loop_at, no_spine, nud_at, parse_stream, stamp, Out};
use crate::expr::lexer::{
    digits_end, lemma_boundary, lemma_boundary_after, lemma_lex_from, lemma_tok_at, lex,
    lex_from, models, next_tok, tok_at, tokenize, Tok, Token, TokenKind,
};
use crate::expr::parser::{parse, parsed};
use crate::expr::preference::{
    found, lemma_order, lemma_order_step, lemma_same_rank, lemma_upto, lemma_upto_self, order_ok,
    upto,
};
use crate::expr::repair::{
    allowed, canon_bytes, in_alphabet, joined, legal, lemma_path_cost, move_cost, moved, path_cost,
    rendered, repairs_of, run, slot_text, start, sum_of, sum_upto, texts, Cost, Move, Repair, RepairCosts,
    Slot,
};
use crate::expr::respell::law_spaced_parses_alike;
use crate::expr::region::{as_ints, open_contexts, open_contexts_at_error, region_window, window_of};
use crate::expr::shape::canon;

verus! {

/// Cost bound of the searches that set none.
pub const MAX_REPAIR_COST: Cost = 6;

/// A repaired source.
pub struct RepairResult {
    /// The tree of the repaired stream.
    pub tree: Arc<Node>,
    /// The repairs, in the order they were made.
    pub repairs: Vec<Repair>,
    /// Their total cost.
    pub cost: Cost,
}

/// `path` leads from the tokens of `s` to a stream that parses.
pub open spec fn mends(s: Seq<u8>, w: Option<(usize, usize)>, path: Seq<Move>) -> bool {
    let n = lex(s).len() - 1;
    legal(n, w, path) && parse_stream(lex(rendered(s, run(n, path)))) is Ok
}

/// `r` is what `path` makes of `s`.
pub open spec fn result_of(
    s: Seq<u8>,
    w: Option<(usize, usize)>,
    c: RepairCosts,
    path: Seq<Move>,
    r: RepairResult,
) -> bool {
    let n = lex(s).len() - 1;
    &&& mends(s, w, path)
    &&& r.repairs@ == repairs_of(n, path)
    &&& r.cost == path_cost(c, path)
    &&& parsed(*r.tree, rendered(s, run(n, path)))
    &&& canon(r.tree@, 0, true)
}

/// No sequence of repairs inside the window that mends `s` costs less than
/// `bound`.
pub open spec fn none_below(s: Seq<u8>, w: Option<(usize, usize)>, c: RepairCosts, bound: int) -> bool {
    forall|path: Seq<Move>| #[trigger] mends(s, w, path) ==> path_cost(c, path) >= bound
}

/// None does that deletes or replaces no token that repairs can put in.
pub open spec fn none_plain_below(
    s: Seq<u8>,
    w: Option<(usize, usize)>,
    c: RepairCosts,
    bound: int,
) -> bool {
    forall|path: Seq<Move>| #[trigger]
        mends(s, w, path) && plain(s, lex(s).len() - 1, path) ==> path_cost(c, path) >= bound
}

/// No sequence of repairs inside the window that mends `s` is preferred to
/// `path`.
pub open spec fn none_before(
    s: Seq<u8>,
    w: Option<(usize, usize)>,
    c: RepairCosts,
    path: Seq<Move>,
) -> bool {
    forall|p: Seq<Move>| #[trigger] mends(s, w, p) ==> upto(lex(s).len() - 1, c, path, p)
}

/// Up to which cost a search up to cost `max` takes all repairs into account: a
/// stream of cost `max` is not repaired further, though deletions be free.
pub open spec fn limit(c: RepairCosts, max: int) -> int {
    if c.positive() {
        max
    } else {
        max - 1
    }
}

/// What a search inside window `w` up to cost `max` returns.
pub open spec fn search_result(
    s: Seq<u8>,
    w: Option<(usize, usize)>,
    c: RepairCosts,
    max: int,
    r: Option<RepairResult>,
) -> bool {
    match r {
        Some(x) => {
            &&& x.cost <= max
            &&& exists|path: Seq<Move>| #[trigger]
                result_of(s, w, c, path, x) && (c.positive() ==> none_before(s, w, c, path))
            &&& c.paid() ==> none_below(s, w, c, x.cost as int)
            &&& none_plain_below(s, w, c, x.cost as int)
        },
        None => {
            &&& c.paid() ==> none_below(s, w, c, limit(c, max) + 1)
            &&& none_plain_below(s, w, c, limit(c, max) + 1)
        },
    }
}

/// The text of a synthesized token.
pub fn canon_text(tok: TokenKind) -> (r: &'static str)
    requires
        in_alphabet(tok),
    ensures
        r.spec_bytes() == canon_bytes(tok),
{
    proof {
        reveal_strlit("0");
        reveal_strlit("x");
        reveal_strlit("+");
        reveal_strlit(")");
        reveal_strlit("]");
        reveal_strlit(":");
        is_ascii_chars_encode_utf8("0"@);
        is_ascii_chars_encode_utf8("x"@);
        is_ascii_chars_encode_utf8("+"@);
        is_ascii_chars_encode_utf8(")"@);
        is_ascii_chars_encode_utf8("]"@);
        is_ascii_chars_encode_utf8(":"@);
        assert("0".spec_bytes() =~= seq![DIGIT_0]);
        assert("x".spec_bytes() =~= seq![LOWER_X]);
        assert("+".spec_bytes() =~= seq![PLUS]);
        assert(")".spec_bytes() =~= seq![RPAREN]);
        assert("]".spec_bytes() =~= seq![RBRACKET]);
        assert(":".spec_bytes() =~= seq![COLON]);
    }
    match tok {
        TokenKind::Int => "0",
        TokenKind::Ident => "x",
        TokenKind::Plus => "+",
        TokenKind::RParen => ")",
        TokenKind::RBracket => "]",
        _ => ":",
    }
}

/// The text of an original token.
fn kept_text<'a>(tokens: &[Token], i: usize, src: &'a str) -> (r: &'a str)
    requires
        models(tokens@, src.spec_bytes()) == lex(src.spec_bytes()),
        i < tokens@.len() - 1,
    ensures
        r.spec_bytes() == slot_text(src.spec_bytes(), Slot::Keep(i)),
{
    proof {
        let s = src.spec_bytes();
        let a = lex(s);
        lemma_lex_from(s, 0);
        let t = a[i as int];
        assert(t == tokens@[i as int].model(s));
        assert(a[i as int].kind != TokenKind::Eof);
        lemma_tok_at(s, t.start);
        encode_utf8_valid_utf8(src@);
        lemma_boundary(s, t.start);
        lemma_boundary_after(s, t.end);
    }
    tokens[i].text(src)
}

/// A candidate stream as source text, tokens separated by spaces.
fn render(slots: &Vec<Slot>, tokens: &[Token], src: &str) -> (r: String)
    requires
        models(tokens@, src.spec_bytes()) == lex(src.spec_bytes()),
        slots_ok(tokens@.len() - 1, slots@),
    ensures
        bytes_of(r) == rendered(src.spec_bytes(), slots@),
{
    let ghost s = src.spec_bytes();
    let ghost ts = texts(s, slots@);
    let mut out: String = String::new();
    let mut i: usize = 0;
    while i < slots.len()
        invariant
            i <= slots@.len(),
            models(tokens@, src.spec_bytes()) == lex(src.spec_bytes()),
            slots_ok(tokens@.len() - 1, slots@),
            s == src.spec_bytes(),
            ts == texts(s, slots@),
            bytes_of(out) == joined(ts, i as int),
        decreases slots@.len() - i,
    {
        let text: &str = match slots[i] {
            Slot::Keep(o) => kept_text(tokens, o, src),
            Slot::Synth(k) => canon_text(k),
        };
        let ghost before = out@;
        if i > 0 {
            out.append(" ");
        }
        proof {
            reveal_strlit(" ");
            is_ascii_chars_encode_utf8(" "@);
            assert(" ".spec_bytes() =~= seq![SPACE]);
            if i > 0 {
                lemma_encode_concat(before, " "@);
            }
            lemma_encode_concat(out@, text@);
            assert(ts[i as int] == text.spec_bytes());
            assert(Seq::<u8>::empty() + ts[i as int] =~= ts[i as int]);
        }
        out.append(text);
        i = i + 1;
    }
    out
}

// ---- Bounds ------------------------------------------------------------

/// Number of kept tokens.
spec fn kept(s: Seq<Slot>) -> int
    decreases s.len(),
{
    if s.len() == 0 {
        0
    } else {
        kept(s.drop_last()) + (if s.last() is Keep {
            1int
        } else {
            0
        })
    }
}

proof fn lemma_kept_concat(x: Seq<Slot>, y: Seq<Slot>)
    ensures
        kept(x + y) == kept(x) + kept(y),
        0 <= kept(y) <= y.len(),
    decreases y.len(),
{
    if y.len() == 0 {
        assert(x + y =~= x);
    } else {
        assert((x + y).drop_last() =~= x + y.drop_last());
        lemma_kept_concat(x, y.drop_last());
    }
}

proof fn lemma_kept_one(x: Slot)
    ensures
        kept(seq![x]) == (if x is Keep {
            1int
        } else {
            0
        }),
{
    assert(seq![x].drop_last() =~= Seq::<Slot>::empty());
    assert(kept(Seq::<Slot>::empty()) == 0);
}

proof fn lemma_kept_moved(s: Seq<Slot>, m: Move)
    requires
        match m {
            Move::Del(i) => 0 <= i < s.len() && s[i] is Keep,
            Move::Sub(i, k) => 0 <= i < s.len() && s[i] is Keep,
            Move::Ins(g, k) => 0 <= g <= s.len(),
        },
    ensures
        kept(moved(s, m)) == kept(s) - (if m is Ins {
            0int
        } else {
            1
        }),
{
    match m {
        Move::Del(i) => {
            let x = s.take(i);
            let y = s.skip(i + 1);
            assert(s =~= x + (seq![s[i]] + y));
            assert(s.remove(i) =~= x + y);
            lemma_kept_concat(x, seq![s[i]] + y);
            lemma_kept_concat(seq![s[i]], y);
            lemma_kept_concat(x, y);
            lemma_kept_one(s[i]);
        },
        Move::Sub(i, k) => {
            let x = s.take(i);
            let y = s.skip(i + 1);
            let z = Slot::Synth(k);
            assert(s =~= x + (seq![s[i]] + y));
            assert(s.update(i, z) =~= x + (seq![z] + y));
            lemma_kept_concat(x, seq![s[i]] + y);
            lemma_kept_concat(seq![s[i]], y);
            lemma_kept_concat(x, seq![z] + y);
            lemma_kept_concat(seq![z], y);
            lemma_kept_one(s[i]);
            lemma_kept_one(z);
        },
        Move::Ins(g, k) => {
            let x = s.take(g);
            let y = s.skip(g);
            let z = Slot::Synth(k);
            assert(s =~= x + y);
            assert(s.insert(g, z) =~= x + (seq![z] + y));
            lemma_kept_concat(x, y);
            lemma_kept_concat(x, seq![z] + y);
            lemma_kept_concat(seq![z], y);
            lemma_kept_one(z);
        },
    }
}

/// How long a sequence of steps, and what it leads to, can be.
proof fn lemma_path_bounds(n: int, w: Option<(usize, usize)>, c: RepairCosts, path: Seq<Move>)
    requires
        0 <= n,
        legal(n, w, path),
        c.insert >= 1,
    ensures
        path.len() + kept(run(n, path)) <= n + path_cost(c, path),
        kept(run(n, path)) >= 0,
        path.len() <= n + path_cost(c, path),
        run(n, path).len() <= n + path_cost(c, path),
    decreases path.len(),
{
    lemma_kept_concat(Seq::empty(), run(n, path));
    assert(Seq::<Slot>::empty() + run(n, path) =~= run(n, path));
    if path.len() > 0 {
        lemma_path_bounds(n, w, c, path.drop_last());
        lemma_kept_moved(run(n, path.drop_last()), path.last());
    }
}

/// Bytes of the first `k` slots, each with one separator.
spec fn room(s: Seq<u8>, slots: Seq<Slot>, k: int) -> int
    decreases k,
{
    if 0 < k <= slots.len() {
        room(s, slots, k - 1) + slot_text(s, slots[k - 1]).len() + 1
    } else {
        0
    }
}

proof fn lemma_room_prefix(s: Seq<u8>, x: Seq<Slot>, y: Seq<Slot>, k: int)
    requires
        0 <= k <= x.len(),
        k <= y.len(),
        forall|i: int| 0 <= i < k ==> x[i] == y[i],
    ensures
        room(s, x, k) == room(s, y, k),
    decreases k,
{
    if k > 0 {
        lemma_room_prefix(s, x, y, k - 1);
    }
}

proof fn lemma_room_del(s: Seq<u8>, x: Seq<Slot>, i: int, k: int)
    requires
        0 <= i <= k < x.len(),
    ensures
        room(s, x.remove(i), k) + slot_text(s, x[i]).len() + 1 == room(s, x, k + 1),
    decreases k,
{
    if k == i {
        lemma_room_prefix(s, x.remove(i), x, i);
    } else {
        lemma_room_del(s, x, i, k - 1);
        assert(x.remove(i)[k - 1] == x[k]);
    }
}

proof fn lemma_room_sub(s: Seq<u8>, x: Seq<Slot>, i: int, z: Slot, k: int)
    requires
        0 <= i < k <= x.len(),
    ensures
        room(s, x.update(i, z), k) - slot_text(s, z).len() == room(s, x, k) - slot_text(s, x[i]).len(),
    decreases k,
{
    if k == i + 1 {
        lemma_room_prefix(s, x.update(i, z), x, i);
    } else {
        lemma_room_sub(s, x, i, z, k - 1);
    }
}

/// Rendered streams are short enough for 32-bit offsets.
proof fn lemma_room(s: Seq<u8>, w: Option<(usize, usize)>, c: RepairCosts, path: Seq<Move>)
    requires
        s.len() <= u32::MAX,
        c.insert >= 1,
        legal(lex(s).len() - 1, w, path),
        slots_ok(lex(s).len() - 1, run(lex(s).len() - 1, path)),
    ensures
        room(s, run(lex(s).len() - 1, path), run(lex(s).len() - 1, path).len() as int) <= 2 * s.len()
            + 2 * path_cost(c, path),
        slots_ok(lex(s).len() - 1, run(lex(s).len() - 1, path)),
    decreases path.len(),
{
    let n = lex(s).len() - 1;
    let x = run(n, path);
    lemma_lex_from(s, 0);
    if path.len() == 0 {
        lemma_room_start(s, n);
    } else {
        let p = run(n, path.drop_last());
        lemma_path_slots(n, w, path.drop_last());
        lemma_room(s, w, c, path.drop_last());
        match path.last() {
            Move::Del(i) => {
                lemma_room_del(s, p, i, p.len() - 1);
            },
            Move::Sub(i, k) => {
                lemma_room_sub(s, p, i, Slot::Synth(k), p.len() as int);
                let o = p[i]->Keep_0 as int;
                assert(p[i] is Keep);
                assert(lex(s)[o].start < lex(s)[o].end);
            },
            Move::Ins(g, k) => {
                let z = Slot::Synth(k);
                lemma_room_del(s, x, g, x.len() - 1);
                assert(x.remove(g) =~= p);
            },
        }
    }
}

proof fn lemma_path_slots(n: int, w: Option<(usize, usize)>, path: Seq<Move>)
    requires
        0 <= n <= usize::MAX,
        legal(n, w, path),
    ensures
        slots_ok(n, run(n, path)),
    decreases path.len(),
{
    if path.len() > 0 {
        lemma_path_slots(n, w, path.drop_last());
    }
}

proof fn lemma_room_start(s: Seq<u8>, k: int)
    requires
        s.len() <= u32::MAX,
        0 <= k < lex(s).len(),
    ensures
        room(s, start(lex(s).len() - 1), k) <= (if k == 0 {
            0
        } else {
            2 * lex(s)[k - 1].end
        }),
        k > 0 ==> lex(s)[k - 1].end <= s.len(),
    decreases k,
{
    lemma_lex_from(s, 0);
    let a = lex(s);
    if k > 0 {
        lemma_room_start(s, k - 1);
        assert(a[k - 1].start < a[k - 1].end);
        assert(start(a.len() - 1)[k - 1] == Slot::Keep((k - 1) as usize));
        assert(slot_text(s, Slot::Keep((k - 1) as usize)).len() == a[k - 1].end - a[k - 1].start);
        if k > 1 {
            assert(a[k - 2].end <= a[k - 1].start);
        }
    }
}

proof fn lemma_rendered_len(s: Seq<u8>, x: Seq<Slot>, k: int)
    requires
        0 <= k <= x.len(),
    ensures
        joined(texts(s, x), k).len() <= room(s, x, k),
    decreases k,
{
    if k > 0 {
        lemma_rendered_len(s, x, k - 1);
    }
}

// ---- The search --------------------------------------------------------

/// Weight of a candidate stream that `k` more repairs can be made to.
spec fn weight(b: int, k: int) -> int
    decreases k,
{
    if k <= 0 {
        1
    } else {
        (b + 1) * weight(b, k - 1)
    }
}

proof fn lemma_weight(b: int, k: int)
    requires
        b >= 0,
    ensures
        weight(b, k) >= 1,
    decreases k,
{
    if k > 0 {
        lemma_weight(b, k - 1);
        assert((b + 1) * weight(b, k - 1) >= 1) by (nonlinear_arith)
            requires
                b >= 0,
                weight(b, k - 1) >= 1,
        ;
    }
}

proof fn lemma_weight_step(b: int, k: int, count: int)
    requires
        0 <= count <= b,
        k >= 1,
    ensures
        count * weight(b, k - 1) < weight(b, k),
{
    lemma_weight(b, k - 1);
    let x = weight(b, k - 1);
    assert(count * x < (b + 1) * x) by (nonlinear_arith)
        requires
            0 <= count <= b,
            x >= 1,
    ;
}

/// The paths of the waiting streams.
pub open spec fn waiting_paths(f: Frontier) -> Seq<Seq<Move>> {
    Seq::new(f.heap@.len(), |i: int| f.items@[f.heap@[i] as int].path@)
}

/// Weights of items, by index.
pub open spec fn by_index(ws: Seq<int>) -> spec_fn(usize) -> int {
    |x: usize| ws[x as int]
}

/// Weight of all waiting streams.
spec fn fuel(f: Frontier, ws: Seq<int>) -> int {
    load(f.heap@, by_index(ws), f.heap@.len() as int)
}

proof fn lemma_load_grown(h: Seq<usize>, ws: Seq<int>, x: int, k: int)
    requires
        0 <= k <= h.len(),
        forall|i: int| 0 <= i < h.len() ==> (#[trigger] h[i]) < ws.len(),
    ensures
        load(h, by_index(ws.push(x)), k) == load(h, by_index(ws), k),
    decreases k,
{
    if k > 0 {
        lemma_load_grown(h, ws, x, k - 1);
        assert(h[k - 1] < ws.len());
    }
}

proof fn lemma_load_least(h: Seq<usize>, ws: Seq<int>, k: int)
    requires
        0 <= k <= h.len(),
        forall|i: int| 0 <= i < h.len() ==> (#[trigger] h[i]) < ws.len(),
        forall|i: int| 0 <= i < ws.len() ==> #[trigger] ws[i] >= 1,
    ensures
        load(h, by_index(ws), k) >= k,
    decreases k,
{
    if k > 0 {
        lemma_load_least(h, ws, k - 1);
        assert(h[k - 1] < ws.len());
        assert(ws[h[k - 1] as int] >= 1);
    }
}

/// The items on record, waiting or not.
spec fn items_ok(
    n: int,
    w: Option<(usize, usize)>,
    c: RepairCosts,
    max: int,
    f: Frontier,
    ws: Seq<int>,
    b: int,
) -> bool {
    &&& f.wf()
    &&& ws.len() == f.items@.len()
    &&& forall|i: int| 0 <= i < f.items@.len() ==> item_ok(n, w, c, max, #[trigger] f.items@[i])
    &&& forall|i: int|
        0 <= i < ws.len() ==> #[trigger] ws[i] == weight(b, n + max - f.items@[i].path@.len())
}

/// The streams expanded so far: none parses, none was dearer than what still
/// waits, and the visited texts are theirs.
spec fn done_ok(
    s: Seq<u8>,
    n: int,
    w: Option<(usize, usize)>,
    c: RepairCosts,
    f: Frontier,
    visited: Set<Seq<char>>,
    dn: Seq<Seq<Move>>,
) -> bool {
    &&& forall|i: int| 0 <= i < dn.len() ==> legal(n, w, #[trigger] dn[i])
    &&& forall|i: int|
        0 <= i < dn.len() ==> parse_stream(lex(rendered(s, run(n, #[trigger] dn[i])))) is Err
    &&& forall|i: int, x: usize|
        0 <= i < dn.len() && #[trigger] f.heap@.contains(x) ==> path_cost(c, #[trigger] dn[i])
            <= f.items@[x as int].cost
    &&& c.positive() ==> forall|i: int, x: usize|
        0 <= i < dn.len() && #[trigger] f.heap@.contains(x) ==> upto(
            n,
            c,
            #[trigger] dn[i],
            f.items@[x as int].path@,
        )
    &&& forall|v: Seq<char>| #[trigger]
        visited.contains(v) ==> exists|i: int|
            0 <= i < dn.len() && encode_utf8(v) == rendered(s, run(n, #[trigger] dn[i]))
}

/// What a waiting stream among `fr` shows, one among `gr` shows too.
proof fn lemma_seen_in(
    s: Seq<u8>,
    n: int,
    c: RepairCosts,
    fr: Seq<Seq<Move>>,
    gr: Seq<Seq<Move>>,
    txt: Seq<u8>,
    bound: int,
)
    requires
        seen(s, n, c, fr, txt, bound),
        forall|i: int| 0 <= i < fr.len() ==> gr.contains(#[trigger] fr[i]),
    ensures
        seen(s, n, c, gr, txt, bound),
{
    let i = choose|i: int|
        0 <= i < fr.len() && rendered(s, run(n, #[trigger] fr[i])) == txt && path_cost(c, fr[i])
            <= bound;
    assert(gr.contains(fr[i]));
    let j = choose|j: int| 0 <= j < gr.len() && gr[j] == fr[i];
    assert(rendered(s, run(n, gr[j])) == txt);
}

/// A stream taken from the waiting ones and expanded, or rendered like an
/// expanded one: the search stays complete.
proof fn lemma_search_step(
    s: Seq<u8>,
    n: int,
    w: Option<(usize, usize)>,
    c: RepairCosts,
    max: int,
    dn: Seq<Seq<Move>>,
    dn2: Seq<Seq<Move>>,
    fr: Seq<Seq<Move>>,
    fr2: Seq<Seq<Move>>,
    x: Seq<Move>,
)
    requires
        search_ok(s, n, w, c, max, dn, fr),
        dn2 == dn || dn2 == dn.push(x) && legal(n, w, x),
        seen(s, n, c, dn2, rendered(s, run(n, x)), path_cost(c, x)),
        forall|i: int| 0 <= i < fr.len() ==> #[trigger] fr[i] == x || fr2.contains(fr[i]),
        dn2 != dn ==> forall|m: Move|
            #[trigger] allowed(n, w, run(n, x), m) && path_cost(c, x) + move_cost(c, m) <= max
                ==> fr2.contains(x.push(m)),
    ensures
        search_ok(s, n, w, c, max, dn2, fr2),
{
    assert forall|txt: Seq<u8>, bound: int|
        seen(s, n, c, dn, txt, bound) || seen(s, n, c, fr, txt, bound) implies #[trigger] seen(
        s,
        n,
        c,
        dn2,
        txt,
        bound,
    ) || seen(s, n, c, fr2, txt, bound) by {
        if seen(s, n, c, dn, txt, bound) {
            assert forall|i: int| 0 <= i < dn.len() implies dn2.contains(#[trigger] dn[i]) by {
                assert(dn2[i] == dn[i]);
            }
            lemma_seen_in(s, n, c, dn, dn2, txt, bound);
        } else {
            let i = choose|i: int|
                0 <= i < fr.len() && rendered(s, run(n, #[trigger] fr[i])) == txt && path_cost(
                    c,
                    fr[i],
                ) <= bound;
            if fr[i] == x {
                let j = choose|j: int|
                    0 <= j < dn2.len() && rendered(s, run(n, #[trigger] dn2[j])) == rendered(
                        s,
                        run(n, x),
                    ) && path_cost(c, dn2[j]) <= path_cost(c, x);
                assert(rendered(s, run(n, dn2[j])) == txt && path_cost(c, dn2[j]) <= bound);
            } else {
                assert(fr2.contains(fr[i]));
                let j = choose|j: int| 0 <= j < fr2.len() && fr2[j] == fr[i];
                assert(rendered(s, run(n, fr2[j])) == txt);
            }
        }
    }
    let t0 = rendered(s, start(n));
    assert(seen(s, n, c, dn2, t0, 0) || seen(s, n, c, fr2, t0, 0));
    assert forall|i: int, m: Move|
        0 <= i < dn2.len() && #[trigger] allowed(n, w, run(n, dn2[i]), m) && path_cost(c, dn2[i])
            + move_cost(c, m) <= max implies {
        let txt = rendered(s, moved(run(n, dn2[i]), m));
        let bound = path_cost(c, dn2[i]) + move_cost(c, m);
        seen(s, n, c, dn2, txt, bound) || seen(s, n, c, fr2, txt, bound)
    } by {
        let txt = rendered(s, moved(run(n, dn2[i]), m));
        let bound = path_cost(c, dn2[i]) + move_cost(c, m);
        if i < dn.len() {
            assert(dn2[i] == dn[i]);
            assert(allowed(n, w, run(n, dn[i]), m));
            assert(seen(s, n, c, dn, txt, bound) || seen(s, n, c, fr, txt, bound));
            assert(seen(s, n, c, dn2, txt, bound) || seen(s, n, c, fr2, txt, bound));
        } else {
            assert(dn2[i] == x);
            let y = x.push(m);
            assert(y.drop_last() =~= x);
            assert(fr2.contains(y));
            let j = choose|j: int| 0 <= j < fr2.len() && fr2[j] == y;
            assert(rendered(s, run(n, fr2[j])) == txt && path_cost(c, fr2[j]) <= bound);
        }
    }
}

/// Waiting streams by index and by place.
proof fn lemma_waiting_index(f: Frontier, x: usize)
    requires
        f.heap@.contains(x),
    ensures
        waiting_paths(f).contains(f.items@[x as int].path@),
{
    let k = choose|k: int| 0 <= k < f.heap@.len() && f.heap@[k] == x;
    assert(waiting_paths(f)[k] == f.items@[x as int].path@);
}

/// Put all of `succ` into the frontier.
fn push_all(
    f: &mut Frontier,
    succ: Vec<Item>,
    Ghost(ws0): Ghost<Seq<int>>,
    Ghost(n): Ghost<int>,
    Ghost(w): Ghost<Option<(usize, usize)>>,
    Ghost(c): Ghost<RepairCosts>,
    Ghost(max): Ghost<int>,
    Ghost(b): Ghost<int>,
    Ghost(len): Ghost<nat>,
) -> (ws: Ghost<Seq<int>>)
    requires
        items_ok(n, w, c, max, *old(f), ws0, b),
        forall|i: int| 0 <= i < succ@.len() ==> item_ok(n, w, c, max, #[trigger] succ@[i]),
        forall|i: int| 0 <= i < succ@.len() ==> (#[trigger] succ@[i]).path@.len() == len,
    ensures
        items_ok(n, w, c, max, *final(f), ws@, b),
        fuel(*final(f), ws@) == fuel(*old(f), ws0) + succ@.len() * weight(b, n + max - len),
        old(f).items@.len() <= final(f).items@.len(),
        forall|i: int| 0 <= i < old(f).items@.len() ==> final(f).items@[i] == #[trigger] old(f).items@[i],
        forall|x: usize| #[trigger] old(f).heap@.contains(x) ==> final(f).heap@.contains(x),
        forall|x: usize| #[trigger]
            final(f).heap@.contains(x) ==> old(f).heap@.contains(x) || exists|i: int|
                0 <= i < succ@.len() && final(f).items@[x as int] == #[trigger] succ@[i],
        forall|i: int|
            0 <= i < succ@.len() ==> waiting_paths(*final(f)).contains((#[trigger] succ@[i]).path@),
{
    let ghost all = succ@;
    let ghost total = succ@.len();
    let ghost f0 = *f;
    let ghost unit = weight(b, n + max - len);
    let mut rest = succ;
    let ghost mut ws = ws0;
    assert(0 * unit == 0) by (nonlinear_arith);
    while rest.len() > 0
        invariant
            rest@ == all.take(rest@.len() as int),
            rest@.len() <= all.len(),
            items_ok(n, w, c, max, *f, ws, b),
            unit == weight(b, n + max - len),
            forall|i: int| 0 <= i < all.len() ==> item_ok(n, w, c, max, #[trigger] all[i]),
            forall|i: int| 0 <= i < all.len() ==> (#[trigger] all[i]).path@.len() == len,
            fuel(*f, ws) == fuel(f0, ws0) + (all.len() - rest@.len()) * unit,
            f0.items@.len() <= f.items@.len(),
            forall|i: int| 0 <= i < f0.items@.len() ==> f.items@[i] == #[trigger] f0.items@[i],
            forall|x: usize| #[trigger] f0.heap@.contains(x) ==> f.heap@.contains(x),
            f0.indices_ok(),
            forall|x: usize| #[trigger]
                f.heap@.contains(x) ==> f0.heap@.contains(x) || exists|i: int|
                    0 <= i < all.len() && f.items@[x as int] == #[trigger] all[i],
            forall|i: int|
                rest@.len() <= i < all.len() ==> waiting_paths(*f).contains((#[trigger] all[i]).path@),
        decreases rest@.len(),
    {
        let ghost k = rest@.len() - 1;
        let ghost prev = *f;
        let ghost pws = ws;
        let fresh: usize = f.items.len();
        if let Some(item) = rest.pop() {
            proof {
                assert(item == all[k]);
                assert(rest@ =~= all.take(k));
                ws = ws.push(unit);
            }
            f.push(item);
            proof {
                let y = fresh;
                lemma_load_grown(prev.heap@, pws, unit, prev.heap@.len() as int);
                assert(load(f.heap@, by_index(ws), f.heap@.len() as int) == load(
                    prev.heap@,
                    by_index(ws),
                    prev.heap@.len() as int,
                ) + by_index(ws)(y));
                assert((all.len() - k) * unit == (all.len() - (k + 1)) * unit + unit) by (nonlinear_arith);
                assert(f.items@[y as int] == all[k]);
                assert(f.heap@.contains(y));
                lemma_waiting_index(*f, y);
                assert forall|x: usize| #[trigger] f.heap@.contains(x) implies f0.heap@.contains(x)
                    || exists|i: int|
                    0 <= i < all.len() && f.items@[x as int] == #[trigger] all[i] by {
                    if x == y {
                        assert(f.items@[x as int] == all[k]);
                    } else {
                        assert(prev.heap@.contains(x));
                        let z = choose|z: int| 0 <= z < prev.heap@.len() && prev.heap@[z] == x;
                        assert(prev.heap@[z] < prev.items@.len());
                        assert(f.items@[x as int] == prev.items@[x as int]);
                    }
                }
                assert forall|i: int| k <= i < all.len() implies waiting_paths(*f).contains(
                    (#[trigger] all[i]).path@,
                ) by {
                    if i > k {
                        assert(waiting_paths(prev).contains(all[i].path@));
                        lemma_waiting_kept(prev, *f, all[i].path@);
                    }
                }
                assert(items_ok(n, w, c, max, *f, ws, b)) by {
                    assert forall|i: int| 0 <= i < f.items@.len() implies item_ok(
                        n,
                        w,
                        c,
                        max,
                        #[trigger] f.items@[i],
                    ) by {
                        if i < prev.items@.len() {
                            assert(f.items@[i] == prev.items@[i]);
                        }
                    }
                    assert forall|i: int| 0 <= i < ws.len() implies #[trigger] ws[i] == weight(
                        b,
                        n + max - f.items@[i].path@.len(),
                    ) by {
                        if i < pws.len() {
                            assert(ws[i] == pws[i]);
                        }
                    }
                }
            }
        }
    }
    proof {
        assert(all.take(0) =~= Seq::empty());
    }
    Ghost(ws)
}

/// Streams that waited still wait.
proof fn lemma_waiting_kept(f: Frontier, g: Frontier, path: Seq<Move>)
    requires
        f.indices_ok(),
        waiting_paths(f).contains(path),
        forall|x: usize| #[trigger] f.heap@.contains(x) ==> g.heap@.contains(x),
        forall|i: int| 0 <= i < f.items@.len() ==> g.items@[i] == #[trigger] f.items@[i],
    ensures
        waiting_paths(g).contains(path),
{
    let k = choose|k: int| 0 <= k < waiting_paths(f).len() && waiting_paths(f)[k] == path;
    let x = f.heap@[k];
    assert(f.heap@.contains(x));
    assert(g.items@[x as int] == f.items@[x as int]);
    lemma_waiting_index(g, x);
}

/// A taken stream renders like one expanded before.
proof fn lemma_duplicate(
    s: Seq<u8>,
    n: int,
    w: Option<(usize, usize)>,
    c: RepairCosts,
    f: Frontier,
    visited: Set<Seq<char>>,
    dn: Seq<Seq<Move>>,
    x: usize,
    txt: Seq<char>,
)
    requires
        done_ok(s, n, w, c, f, visited, dn),
        f.heap@.contains(x),
        f.items@[x as int].cost == path_cost(c, f.items@[x as int].path@),
        visited.contains(txt),
        encode_utf8(txt) == rendered(s, run(n, f.items@[x as int].path@)),
    ensures
        seen(
            s,
            n,
            c,
            dn,
            rendered(s, run(n, f.items@[x as int].path@)),
            path_cost(c, f.items@[x as int].path@),
        ),
        c.positive() ==> found(
            s,
            n,
            c,
            dn,
            rendered(s, run(n, f.items@[x as int].path@)),
            f.items@[x as int].path@,
        ),
{
    let i = choose|i: int|
        0 <= i < dn.len() && encode_utf8(txt) == rendered(s, run(n, #[trigger] dn[i]));
    assert(path_cost(c, dn[i]) <= f.items@[x as int].cost);
    assert(c.positive() ==> upto(n, c, dn[i], f.items@[x as int].path@));
}

/// Items are ordered as their paths.
proof fn lemma_item_order(
    n: int,
    w: Option<(usize, usize)>,
    c: RepairCosts,
    max: int,
    x: Item,
    y: Item,
)
    requires
        item_ok(n, w, c, max, x),
        item_ok(n, w, c, max, y),
        no_later(x, y),
    ensures
        upto(n, c, x.path@, y.path@),
{
    lemma_path_cost(n, c, x.path@);
    lemma_path_cost(n, c, y.path@);
}

/// A stream that parses, taken from the waiting ones, is a preferred one.
proof fn lemma_preferred(
    s: Seq<u8>,
    w: Option<(usize, usize)>,
    c: RepairCosts,
    max: int,
    f: Frontier,
    visited: Set<Seq<char>>,
    dn: Seq<Seq<Move>>,
    x: usize,
)
    requires
        0 <= lex(s).len() - 1 <= usize::MAX,
        c.positive(),
        search_ok(s, lex(s).len() - 1, w, c, max, dn, waiting_paths(f)),
        order_ok(s, lex(s).len() - 1, w, c, max, dn, waiting_paths(f)),
        done_ok(s, lex(s).len() - 1, w, c, f, visited, dn),
        f.indices_ok(),
        x < f.items@.len(),
        forall|i: int|
            0 <= i < f.items@.len() ==> item_ok(
                lex(s).len() - 1,
                w,
                c,
                max,
                #[trigger] f.items@[i],
            ),
        forall|y: usize| #[trigger]
            f.heap@.contains(y) ==> no_later(f.items@[x as int], f.items@[y as int]),
    ensures
        none_before(s, w, c, f.items@[x as int].path@),
{
    let n = lex(s).len() - 1;
    let best = f.items@[x as int].path@;
    assert forall|p: Seq<Move>| #[trigger] mends(s, w, p) implies upto(n, c, best, p) by {
        if path_cost(c, p) <= max {
            lemma_order(s, n, w, c, max, dn, waiting_paths(f), p);
            let txt = rendered(s, run(n, p));
            if found(s, n, c, dn, txt, p) {
                let i = choose|i: int|
                    0 <= i < dn.len() && rendered(s, run(n, #[trigger] dn[i])) == txt && upto(
                        n,
                        c,
                        dn[i],
                        p,
                    );
                assert(parse_stream(lex(rendered(s, run(n, dn[i])))) is Err);
            } else {
                let fr = waiting_paths(f);
                let i = choose|i: int| 0 <= i < fr.len() && upto(n, c, #[trigger] fr[i], p);
                let y = f.heap@[i];
                assert(f.heap@.contains(y));
                lemma_item_order(n, w, c, max, f.items@[x as int], f.items@[y as int]);
                lemma_upto(n, c, best, fr[i], p);
            }
        } else {
            assert(item_ok(n, w, c, max, f.items@[x as int]));
            lemma_upto(n, c, best, p, p);
        }
    }
}

/// A stream that parses, taken from the waiting ones, is a cheapest one.
proof fn lemma_cheapest(
    s: Seq<u8>,
    w: Option<(usize, usize)>,
    c: RepairCosts,
    max: int,
    f: Frontier,
    visited: Set<Seq<char>>,
    dn: Seq<Seq<Move>>,
    bound: int,
)
    requires
        0 <= lex(s).len() - 1 <= usize::MAX,
        search_ok(s, lex(s).len() - 1, w, c, max, dn, waiting_paths(f)),
        done_ok(s, lex(s).len() - 1, w, c, f, visited, dn),
        f.indices_ok(),
        forall|i: int|
            0 <= i < f.items@.len() ==> (#[trigger] f.items@[i]).cost == path_cost(
                c,
                f.items@[i].path@,
            ),
        forall|y: usize| #[trigger] f.heap@.contains(y) ==> bound <= f.items@[y as int].cost,
        bound <= max + 1,
    ensures
        c.paid() ==> none_below(s, w, c, bound),
        none_plain_below(s, w, c, bound),
{
    let n = lex(s).len() - 1;
    assert forall|path: Seq<Move>| #[trigger]
        mends(s, w, path) && (c.paid() || plain(s, n, path)) implies path_cost(c, path) >= bound by {
        let cost = path_cost(c, path);
        if cost <= max {
            if c.paid() {
                lemma_search(s, n, w, c, max, dn, waiting_paths(f), path);
            } else {
                lemma_search_plain(s, n, w, c, max, dn, waiting_paths(f), path);
            }
            let txt = rendered(s, run(n, path));
            if seen(s, n, c, dn, txt, cost) {
                let i = choose|i: int|
                    0 <= i < dn.len() && rendered(s, run(n, #[trigger] dn[i])) == txt && path_cost(
                        c,
                        dn[i],
                    ) <= cost;
                assert(parse_stream(lex(rendered(s, run(n, dn[i])))) is Err);
            } else {
                let fr = waiting_paths(f);
                let i = choose|i: int| 0 <= i < fr.len() && path_cost(c, #[trigger] fr[i]) <= cost;
                let y = f.heap@[i];
                assert(f.heap@.contains(y));
                assert(f.items@[y as int].cost == path_cost(c, f.items@[y as int].path@));
            }
        }
    }
}

/// The cheapest repair of `src` inside `window`, a range of indices into
/// `tokens`, that costs at most `max_cost`: among the streams that repairs lead
/// to, cheapest first, the first one that parses.
#[verifier::rlimit(60)]
pub fn optimal_repair(
    tokens: &[Token],
    src: &str,
    window: Option<(usize, usize)>,
    costs: &RepairCosts,
    max_cost: Cost,
) -> (r: Option<RepairResult>)
    requires
        models(tokens@, src.spec_bytes()) == lex(src.spec_bytes()),
        2 * src.spec_bytes().len() + 2 * max_cost + 2 <= u32::MAX,
        costs.insert >= 1,
    ensures
        search_result(src.spec_bytes(), window, *costs, max_cost as int, r),
{
    let ghost s = src.spec_bytes();
    let ghost a = lex(s);
    let ghost c = *costs;
    let ghost w = window;
    let ghost max = max_cost as int;
    let ghost lim = limit(c, max);
    proof {
        lemma_lex_from(s, 0);
        assert(tokens@.len() == a.len());
    }
    let count: usize = tokens.len() - 1;
    let ghost n = count as int;
    let ghost b = 13 * (n + max + 1);
    let mut frontier = Frontier::new();
    let mut slots: Vec<Slot> = Vec::new();
    let mut i: usize = 0;
    while i < count
        invariant
            i <= count,
            slots@.len() == i,
            forall|k: int| 0 <= k < i ==> #[trigger] slots@[k] == Slot::Keep(k as usize),
        decreases count - i,
    {
        slots.push(Slot::Keep(i));
        i = i + 1;
    }
    let ghost none = Seq::<Move>::empty();
    let first = Item {
        cost: 0,
        deletions: 0,
        slots,
        repairs: Vec::new(),
        path: Ghost(none),
    };
    proof {
        assert(slots@ =~= run(n, none));
        assert(item_ok(n, w, c, max, first));
    }
    let ghost f0 = frontier;
    frontier.push(first);
    let ghost mut ws: Seq<int> = seq![weight(b, n + max)];
    let ghost mut dn: Seq<Seq<Move>> = Seq::empty();
    let mut visited = StringHashSet::new();
    proof {
        assert(frontier.heap@.contains(0usize));
        lemma_waiting_index(frontier, 0usize);
        let fr = waiting_paths(frontier);
        let k = choose|k: int| 0 <= k < fr.len() && fr[k] == none;
        assert(rendered(s, run(n, fr[k])) == rendered(s, start(n)) && path_cost(c, fr[k]) <= 0);
        assert(search_ok(s, n, w, c, lim, dn, fr));
        lemma_upto_self(n, c, none);
        assert(rendered(s, run(n, fr[k])) == rendered(s, start(n)) && upto(n, c, fr[k], none));
        assert(order_ok(s, n, w, c, max, dn, fr));
    }
    let mut more: bool = true;
    while more
        invariant
            models(tokens@, src.spec_bytes()) == lex(src.spec_bytes()),
            2 * src.spec_bytes().len() + 2 * max_cost + 2 <= u32::MAX,
            costs.insert >= 1,
            s == src.spec_bytes(),
            a == lex(s),
            c == *costs,
            w == window,
            max == max_cost,
            n == count,
            count == tokens@.len() - 1,
            a.len() == tokens@.len(),
            b == 13 * (n + max + 1),
            items_ok(n, w, c, max, frontier, ws, b),
            done_ok(s, n, w, c, frontier, visited@, dn),
            lim == limit(c, max),
            search_ok(s, n, w, c, lim, dn, waiting_paths(frontier)),
            c.positive() ==> order_ok(s, n, w, c, max, dn, waiting_paths(frontier)),
            !more ==> frontier.heap@.len() == 0,
        decreases fuel(frontier, ws), (if more {
            1int
        } else {
            0
        }),
    {
        let ghost prev = frontier;
        proof {
            assert forall|i: int| 0 <= i < ws.len() implies #[trigger] ws[i] >= 1 by {
                lemma_weight(b, n + max - frontier.items@[i].path@.len());
            }
            lemma_load_least(frontier.heap@, ws, frontier.heap@.len() as int);
        }
        match frontier.pop() {
            None => {
                more = false;
            },
            Some(y) => {
                let ghost item = prev.items@[y as int];
                let ghost path = item.path@;
                proof {
                    assert(item_ok(n, w, c, max, item));
                    assert(ws[y as int] == weight(b, n + max - path.len()));
                    lemma_weight(b, n + max - path.len());
                    lemma_load_least(frontier.heap@, ws, frontier.heap@.len() as int);
                    assert(load(frontier.heap@, by_index(ws), frontier.heap@.len() as int) == load(
                        prev.heap@,
                        by_index(ws),
                        prev.heap@.len() as int,
                    ) - by_index(ws)(y));
                    lemma_room(s, w, c, path);
                    lemma_rendered_len(s, item.slots@, item.slots@.len() as int);
                    lemma_path_bounds(n, w, c, path);
                }
                let text = render(&frontier.items[y].slots, tokens, src);
                let copy = text.clone();
                let ghost seen_before = visited@;
                if visited.insert(copy) {
                    let cost: Cost = frontier.items[y].cost;
                    match parse(text.as_str()) {
                        Ok(tree) => {
                            let repairs = copy_repairs(&frontier.items[y].repairs);
                            let found = RepairResult { tree, repairs, cost };
                            proof {
                                assert(result_of(s, w, c, path, found));
                                lemma_cheapest(s, w, c, lim, prev, seen_before, dn, cost as int);
                                if c.positive() {
                                    lemma_preferred(s, w, c, max, prev, seen_before, dn, y);
                                }
                            }
                            return Some(found);
                        },
                        Err(_) => {},
                    }
                    let ghost dn2 = dn.push(path);
                    let ghost mid = frontier;
                    let ghost wmid = ws;
                    if cost < max_cost {
                        let succ = successors(&frontier.items[y], count, window, costs, max_cost);
                        let ghost sc = succ@;
                        let ghost len = path.len() + 1;
                        let grown = push_all(
                            &mut frontier,
                            succ,
                            Ghost(ws),
                            Ghost(n),
                            Ghost(w),
                            Ghost(c),
                            Ghost(max),
                            Ghost(b),
                            Ghost(len),
                        );
                        proof {
                            ws = grown@;
                            assert(n + max - len == n + max - path.len() - 1);
                            assert(fuel(mid, wmid) == fuel(prev, wmid) - weight(b, n + max - path.len()));
                            lemma_fuel_drops(sc.len() as int, b, n + max - path.len(), path, sc, n, w, c, max);
                            lemma_expanded(s, n, w, c, max, prev, mid, frontier, y, dn, sc);
                        }
                    } else {
                        proof {
                            lemma_unexpanded(s, n, w, c, max, prev, mid, y, dn);
                        }
                    }
                    proof {
                        if c.positive() {
                            lemma_keys(n, w, c, max, prev, frontier, mid, y);
                        }
                        lemma_done_step(s, n, w, c, prev, mid, frontier, y, seen_before, visited@, dn, text@);
                        dn = dn2;
                    }
                } else {
                    proof {
                        lemma_duplicate(s, n, w, c, prev, seen_before, dn, y, text@);
                        lemma_same_done(s, n, w, c, prev, frontier, seen_before, visited@, dn, text@);
                        lemma_taken(prev, frontier, y);
                        lemma_search_step(s, n, w, c, lim, dn, dn, waiting_paths(prev), waiting_paths(frontier), path);
                        if c.positive() {
                            lemma_order_step(s, n, w, c, max, dn, dn, waiting_paths(prev), waiting_paths(frontier), path);
                        }
                    }
                }
            },
        }
    }
    proof {
        lemma_cheapest(s, w, c, lim, frontier, visited@, dn, lim + 1);
    }
    None
}

/// What waited and was not taken still waits.
proof fn lemma_taken(f: Frontier, g: Frontier, x: usize)
    requires
        f.indices_ok(),
        g.items == f.items,
        forall|y: usize| #[trigger] f.heap@.contains(y) ==> y == x || g.heap@.contains(y),
    ensures
        forall|i: int|
            0 <= i < waiting_paths(f).len() ==> #[trigger] waiting_paths(f)[i]
                == f.items@[x as int].path@ || waiting_paths(g).contains(waiting_paths(f)[i]),
{
    assert forall|i: int| 0 <= i < waiting_paths(f).len() implies #[trigger] waiting_paths(f)[i]
        == f.items@[x as int].path@ || waiting_paths(g).contains(waiting_paths(f)[i]) by {
        let y = f.heap@[i];
        assert(f.heap@.contains(y));
        if y != x {
            lemma_waiting_index(g, y);
        }
    }
}

/// Fewer repairs can be made after one more.
proof fn lemma_fuel_drops(
    count: int,
    b: int,
    k: int,
    path: Seq<Move>,
    sc: Seq<Item>,
    n: int,
    w: Option<(usize, usize)>,
    c: RepairCosts,
    max: int,
)
    requires
        c.insert >= 1,
        0 <= n,
        count == sc.len(),
        0 <= count <= b,
        k == n + max - path.len(),
        forall|i: int| 0 <= i < sc.len() ==> item_ok(n, w, c, max, #[trigger] sc[i]),
        forall|i: int| 0 <= i < sc.len() ==> (#[trigger] sc[i]).path@.len() == path.len() + 1,
    ensures
        0 <= count * weight(b, k - 1) < weight(b, k),
{
    lemma_weight(b, k);
    lemma_weight(b, k - 1);
    assert(0 <= count * weight(b, k - 1)) by (nonlinear_arith)
        requires
            0 <= count,
            1 <= weight(b, k - 1),
    ;
    if count == 0 {
        assert(0 * weight(b, k - 1) == 0) by (nonlinear_arith);
    } else {
        assert(item_ok(n, w, c, max, sc[0]));
        lemma_path_bounds(n, w, c, sc[0].path@);
        assert(sc[0].path@.len() == path.len() + 1);
        lemma_weight_step(b, k, count);
    }
}

/// The search stays complete when a stream is expanded.
proof fn lemma_expanded(
    s: Seq<u8>,
    n: int,
    w: Option<(usize, usize)>,
    c: RepairCosts,
    max: int,
    prev: Frontier,
    mid: Frontier,
    next: Frontier,
    y: usize,
    dn: Seq<Seq<Move>>,
    sc: Seq<Item>,
)
    requires
        prev.indices_ok(),
        mid.indices_ok(),
        prev.heap@.contains(y),
        mid.items == prev.items,
        forall|z: usize| #[trigger] prev.heap@.contains(z) ==> z == y || mid.heap@.contains(z),
        forall|x: usize| #[trigger] mid.heap@.contains(x) ==> next.heap@.contains(x),
        forall|i: int| 0 <= i < mid.items@.len() ==> next.items@[i] == #[trigger] mid.items@[i],
        item_ok(n, w, c, max, prev.items@[y as int]),
        forall|i: int| 0 <= i < sc.len() ==> waiting_paths(next).contains((#[trigger] sc[i]).path@),
        forall|m: Move|
            #[trigger] allowed(n, w, prev.items@[y as int].slots@, m) && prev.items@[y as int].cost
                + move_cost(c, m) <= max ==> crate::expr::expand::holds_path(
                sc,
                prev.items@[y as int].path@.push(m),
            ),
    ensures
        search_ok(s, n, w, c, limit(c, max), dn, waiting_paths(prev)) ==> search_ok(
            s,
            n,
            w,
            c,
            limit(c, max),
            dn.push(prev.items@[y as int].path@),
            waiting_paths(next),
        ),
        c.positive() && order_ok(s, n, w, c, max, dn, waiting_paths(prev)) ==> order_ok(
            s,
            n,
            w,
            c,
            max,
            dn.push(prev.items@[y as int].path@),
            waiting_paths(next),
        ),
{
    let path = prev.items@[y as int].path@;
    let fr = waiting_paths(prev);
    let fr2 = waiting_paths(next);
    lemma_taken(prev, mid, y);
    assert forall|i: int| 0 <= i < fr.len() implies #[trigger] fr[i] == path || fr2.contains(fr[i]) by {
        if fr[i] != path {
            lemma_waiting_kept(mid, next, fr[i]);
        }
    }
    assert forall|m: Move|
        #[trigger] allowed(n, w, run(n, path), m) && path_cost(c, path) + move_cost(c, m) <= max implies fr2.contains(
        path.push(m),
    ) by {
        assert(crate::expr::expand::holds_path(sc, path.push(m)));
        let i = choose|i: int| 0 <= i < sc.len() && (#[trigger] sc[i]).path@ == path.push(m);
        assert(waiting_paths(next).contains(sc[i].path@));
    }
    if search_ok(s, n, w, c, limit(c, max), dn, fr) {
        let dn2 = dn.push(path);
        assert(dn2[dn.len() as int] == path);
        lemma_search_step(s, n, w, c, limit(c, max), dn, dn2, fr, fr2, path);
    }
    if c.positive() && order_ok(s, n, w, c, max, dn, fr) {
        let dn2 = dn.push(path);
        assert(dn2[dn.len() as int] == path);
        lemma_upto_self(n, c, path);
        lemma_order_step(s, n, w, c, max, dn, dn2, fr, fr2, path);
    }
}

/// The search stays complete when a stream is as dear as the bound.
proof fn lemma_unexpanded(
    s: Seq<u8>,
    n: int,
    w: Option<(usize, usize)>,
    c: RepairCosts,
    max: int,
    prev: Frontier,
    mid: Frontier,
    y: usize,
    dn: Seq<Seq<Move>>,
)
    requires
        prev.indices_ok(),
        prev.heap@.contains(y),
        mid.items == prev.items,
        forall|z: usize| #[trigger] prev.heap@.contains(z) ==> z == y || mid.heap@.contains(z),
        item_ok(n, w, c, max, prev.items@[y as int]),
        prev.items@[y as int].cost >= max,
        search_ok(s, n, w, c, limit(c, max), dn, waiting_paths(prev)),
        c.positive() ==> order_ok(s, n, w, c, max, dn, waiting_paths(prev)),
    ensures
        search_ok(
            s,
            n,
            w,
            c,
            limit(c, max),
            dn.push(prev.items@[y as int].path@),
            waiting_paths(mid),
        ),
        c.positive() ==> order_ok(s, n, w, c, max, dn.push(prev.items@[y as int].path@), waiting_paths(mid)),
{
    let path = prev.items@[y as int].path@;
    let dn2 = dn.push(path);
    lemma_taken(prev, mid, y);
    assert(dn2[dn.len() as int] == path);
    lemma_search_step(
        s,
        n,
        w,
        c,
        limit(c, max),
        dn,
        dn2,
        waiting_paths(prev),
        waiting_paths(mid),
        path,
    );
    if c.positive() {
        lemma_upto_self(n, c, path);
        lemma_order_step(s, n, w, c, max, dn, dn2, waiting_paths(prev), waiting_paths(mid), path);
    }
}

/// What is taken is not after what waits, nor after what it leads to.
proof fn lemma_keys(
    n: int,
    w: Option<(usize, usize)>,
    c: RepairCosts,
    max: int,
    prev: Frontier,
    next: Frontier,
    mid: Frontier,
    y: usize,
)
    requires
        prev.indices_ok(),
        prev.heap@.contains(y),
        forall|i: int|
            0 <= i < prev.items@.len() ==> item_ok(n, w, c, max, #[trigger] prev.items@[i]),
        forall|i: int|
            0 <= i < next.items@.len() ==> item_ok(n, w, c, max, #[trigger] next.items@[i]),
        next.indices_ok(),
        forall|z: usize| #[trigger]
            prev.heap@.contains(z) ==> no_later(prev.items@[y as int], prev.items@[z as int]),
        forall|x: usize| #[trigger]
            next.heap@.contains(x) ==> mid.heap@.contains(x) || next.items@[x as int].cost
                > prev.items@[y as int].cost,
    ensures
        forall|z: usize| #[trigger]
            prev.heap@.contains(z) ==> upto(
                n,
                c,
                prev.items@[y as int].path@,
                prev.items@[z as int].path@,
            ),
        forall|x: usize| #[trigger]
            next.heap@.contains(x) ==> mid.heap@.contains(x) || upto(
                n,
                c,
                prev.items@[y as int].path@,
                next.items@[x as int].path@,
            ),
{
    let ky = choose|k: int| 0 <= k < prev.heap@.len() && prev.heap@[k] == y;
    assert(prev.heap@[ky] < prev.items@.len());
    assert(item_ok(n, w, c, max, prev.items@[y as int]));
    assert forall|z: usize| #[trigger] prev.heap@.contains(z) implies upto(
        n,
        c,
        prev.items@[y as int].path@,
        prev.items@[z as int].path@,
    ) by {
        let k = choose|k: int| 0 <= k < prev.heap@.len() && prev.heap@[k] == z;
        assert(prev.heap@[k] < prev.items@.len());
        lemma_item_order(n, w, c, max, prev.items@[y as int], prev.items@[z as int]);
    }
    assert forall|x: usize| #[trigger] next.heap@.contains(x) implies mid.heap@.contains(x) || upto(
        n,
        c,
        prev.items@[y as int].path@,
        next.items@[x as int].path@,
    ) by {
        if !mid.heap@.contains(x) {
            let k = choose|k: int| 0 <= k < next.heap@.len() && next.heap@[k] == x;
            assert(next.heap@[k] < next.items@.len());
            assert(item_ok(n, w, c, max, next.items@[x as int]));
            lemma_upto(n, c, prev.items@[y as int].path@, next.items@[x as int].path@, prev.items@[y as int].path@);
        }
    }
}

/// The record of expanded streams grows by one.
proof fn lemma_done_step(
    s: Seq<u8>,
    n: int,
    w: Option<(usize, usize)>,
    c: RepairCosts,
    prev: Frontier,
    mid: Frontier,
    next: Frontier,
    y: usize,
    v0: Set<Seq<char>>,
    v1: Set<Seq<char>>,
    dn: Seq<Seq<Move>>,
    txt: Seq<char>,
)
    requires
        done_ok(s, n, w, c, prev, v0, dn),
        prev.indices_ok(),
        prev.heap@.contains(y),
        mid.items == prev.items,
        forall|z: usize| #[trigger] mid.heap@.contains(z) ==> prev.heap@.contains(z),
        forall|z: usize| #[trigger]
            prev.heap@.contains(z) ==> prev.items@[y as int].cost <= prev.items@[z as int].cost,
        forall|i: int| 0 <= i < mid.items@.len() ==> next.items@[i] == #[trigger] mid.items@[i],
        forall|x: usize| #[trigger]
            next.heap@.contains(x) ==> mid.heap@.contains(x) || next.items@[x as int].cost
                >= prev.items@[y as int].cost,
        c.positive() ==> forall|z: usize| #[trigger]
            prev.heap@.contains(z) ==> upto(
                n,
                c,
                prev.items@[y as int].path@,
                prev.items@[z as int].path@,
            ),
        c.positive() ==> forall|x: usize| #[trigger]
            next.heap@.contains(x) ==> mid.heap@.contains(x) || upto(
                n,
                c,
                prev.items@[y as int].path@,
                next.items@[x as int].path@,
            ),
        legal(n, w, prev.items@[y as int].path@),
        prev.items@[y as int].cost == path_cost(c, prev.items@[y as int].path@),
        parse_stream(lex(rendered(s, run(n, prev.items@[y as int].path@)))) is Err,
        encode_utf8(txt) == rendered(s, run(n, prev.items@[y as int].path@)),
        v1 == v0.insert(txt),
    ensures
        done_ok(s, n, w, c, next, v1, dn.push(prev.items@[y as int].path@)),
{
    let path = prev.items@[y as int].path@;
    let dn2 = dn.push(path);
    assert forall|i: int| 0 <= i < dn2.len() implies legal(n, w, #[trigger] dn2[i]) by {
        if i < dn.len() {
            assert(dn2[i] == dn[i]);
        }
    }
    assert forall|i: int| 0 <= i < dn2.len() implies parse_stream(
        lex(rendered(s, run(n, #[trigger] dn2[i]))),
    ) is Err by {
        if i < dn.len() {
            assert(dn2[i] == dn[i]);
        }
    }
    assert forall|i: int, x: usize|
        0 <= i < dn2.len() && #[trigger] next.heap@.contains(x) implies path_cost(
        c,
        #[trigger] dn2[i],
    ) <= next.items@[x as int].cost by {
        assert(path_cost(c, dn2[i]) <= prev.items@[y as int].cost) by {
            if i < dn.len() {
                assert(dn2[i] == dn[i]);
                assert(path_cost(c, dn[i]) <= prev.items@[y as int].cost);
            }
        }
        if mid.heap@.contains(x) {
            assert(prev.heap@.contains(x));
            let k = choose|k: int| 0 <= k < prev.heap@.len() && prev.heap@[k] == x;
            assert(prev.heap@[k] < prev.items@.len());
            assert(next.items@[x as int] == mid.items@[x as int]);
        }
    }
    if c.positive() {
        assert forall|i: int, x: usize|
            0 <= i < dn2.len() && #[trigger] next.heap@.contains(x) implies upto(
            n,
            c,
            #[trigger] dn2[i],
            next.items@[x as int].path@,
        ) by {
            assert(upto(n, c, dn2[i], path)) by {
                if i < dn.len() {
                    assert(dn2[i] == dn[i]);
                    assert(upto(n, c, dn[i], prev.items@[y as int].path@));
                } else {
                    lemma_upto_self(n, c, path);
                }
            }
            if mid.heap@.contains(x) {
                assert(prev.heap@.contains(x));
                let k = choose|k: int| 0 <= k < prev.heap@.len() && prev.heap@[k] == x;
                assert(prev.heap@[k] < prev.items@.len());
                assert(next.items@[x as int] == mid.items@[x as int]);
            }
            lemma_upto(n, c, dn2[i], path, next.items@[x as int].path@);
        }
    }
    assert forall|v: Seq<char>| #[trigger] v1.contains(v) implies exists|i: int|
        0 <= i < dn2.len() && encode_utf8(v) == rendered(s, run(n, #[trigger] dn2[i])) by {
        if v == txt {
            assert(dn2[dn.len() as int] == path);
        } else {
            assert(v0.contains(v));
            let i = choose|i: int|
                0 <= i < dn.len() && encode_utf8(v) == rendered(s, run(n, #[trigger] dn[i]));
            assert(dn2[i] == dn[i]);
        }
    }
}

/// The record of expanded streams stays when a duplicate is dropped.
proof fn lemma_same_done(
    s: Seq<u8>,
    n: int,
    w: Option<(usize, usize)>,
    c: RepairCosts,
    prev: Frontier,
    next: Frontier,
    v0: Set<Seq<char>>,
    v1: Set<Seq<char>>,
    dn: Seq<Seq<Move>>,
    txt: Seq<char>,
)
    requires
        done_ok(s, n, w, c, prev, v0, dn),
        next.items == prev.items,
        forall|z: usize| #[trigger] next.heap@.contains(z) ==> prev.heap@.contains(z),
        v0.contains(txt),
        v1 == v0.insert(txt),
    ensures
        done_ok(s, n, w, c, next, v1, dn),
{
    assert(v1 =~= v0);
}

// ---- Entry points ------------------------------------------------------

/// One for every repair.
pub open spec fn unit_costs() -> RepairCosts {
    RepairCosts { insert: 1, delete: 1, substitute: 1 }
}

/// The kinds of the tokens of `s`.
pub open spec fn token_kinds(s: Seq<u8>) -> Seq<TokenKind> {
    Seq::new((lex(s).len() - 1) as nat, |i: int| lex(s)[i].kind)
}

/// The whole of `s` as one error, every token deleted.
pub open spec fn is_fallback(s: Seq<u8>, r: RepairResult) -> bool {
    &&& r.tree@ == (Shape {
        width: s.len() as int,
        m_spine: u32::MAX as int,
        stop_lbp: 0,
        m_floor: 0,
        kind: ShapeKind::Error { skipped: token_kinds(s) },
    })
    &&& r.repairs@ == Seq::new((lex(s).len() - 1) as nat, |i: int| Repair::Delete { at: i as usize })
    &&& r.cost == lex(s).len() - 1
}

/// What repairing all of `s` up to cost `max` returns: a cheapest repair, or
/// the fallback if there is none within the bound.
pub open spec fn global_result(s: Seq<u8>, max: int, r: RepairResult) -> bool {
    ||| search_result(s, None, unit_costs(), max, Some(r))
    ||| none_below(s, None, unit_costs(), max + 1) && is_fallback(s, r)
}

/// The result when no repair is cheap enough.
fn fallback_result(src: &str) -> (r: RepairResult)
    requires
        src.spec_bytes().len() <= u32::MAX,
    ensures
        is_fallback(src.spec_bytes(), r),
{
    let tokens = tokenize(src);
    let ghost s = src.spec_bytes();
    proof {
        lemma_lex_from(s, 0);
        assert(tokens@.len() == lex(s).len());
    }
    let count: usize = tokens.len() - 1;
    let mut skipped: Vec<TokenKind> = Vec::new();
    let mut repairs: Vec<Repair> = Vec::new();
    let mut i: usize = 0;
    while i < count
        invariant
            i <= count,
            count == tokens@.len() - 1,
            models(tokens@, s) == lex(s),
            lex(s).len() == tokens@.len(),
            skipped@.len() == i,
            repairs@.len() == i,
            forall|k: int| 0 <= k < i ==> #[trigger] skipped@[k] == lex(s)[k].kind,
            forall|k: int| 0 <= k < i ==> #[trigger] repairs@[k] == (Repair::Delete { at: k as usize }),
        decreases count - i,
    {
        proof {
            assert(lex(s)[i as int] == tokens@[i as int].model(s));
        }
        skipped.push(tokens[i].kind);
        repairs.push(Repair::Delete { at: i });
        i = i + 1;
    }
    proof {
        assert(skipped@ =~= token_kinds(s));
        assert(repairs@ =~= Seq::new(
            (lex(s).len() - 1) as nat,
            |i: int| Repair::Delete { at: i as usize },
        ));
    }
    let width: u32 = src.len() as u32;
    RepairResult { tree: Arc::new(Node::error(skipped, width)), repairs, cost: count as Cost }
}

/// A cheapest repair of `src` that costs at most `max_cost`; the fallback if
/// there is none.
pub fn global_optimal_repair_bounded(src: &str, max_cost: Cost) -> (r: RepairResult)
    requires
        2 * src.spec_bytes().len() + 2 * max_cost + 2 <= u32::MAX,
    ensures
        global_result(src.spec_bytes(), max_cost as int, r),
{
    let tokens = tokenize(src);
    let costs = RepairCosts::default();
    assert(costs == unit_costs());
    match optimal_repair(tokens.as_slice(), src, None, &costs, max_cost) {
        Some(r) => r,
        None => fallback_result(src),
    }
}

/// A cheapest repair of `src` within `MAX_REPAIR_COST`.
pub fn global_optimal_repair(src: &str) -> (r: RepairResult)
    requires
        2 * src.spec_bytes().len() + 14 <= u32::MAX,
    ensures
        global_result(src.spec_bytes(), MAX_REPAIR_COST as int, r),
{
    global_optimal_repair_bounded(src, MAX_REPAIR_COST)
}

/// Parse `src`, repairing it if need be. A source that parses is left alone.
pub fn recover_parse(src: &str) -> (r: (Arc<Node>, Vec<Repair>))
    requires
        2 * src.spec_bytes().len() + 14 <= u32::MAX,
    ensures
        parse_stream(lex(src.spec_bytes())) is Ok ==> {
            &&& parsed(*r.0, src.spec_bytes())
            &&& canon(r.0@, 0, true)
            &&& r.1@.len() == 0
        },
        parse_stream(lex(src.spec_bytes())) is Err ==> exists|x: RepairResult|
            #[trigger] global_result(src.spec_bytes(), MAX_REPAIR_COST as int, x) && r.0 == x.tree
                && r.1 == x.repairs,
        r.1@.len() == 0 <==> parse_stream(lex(src.spec_bytes())) is Ok,
{
    match parse(src) {
        Ok(tree) => (tree, Vec::new()),
        Err(_) => {
            let r = global_optimal_repair(src);
            proof {
                assert(global_result(src.spec_bytes(), MAX_REPAIR_COST as int, r));
                law_repairs_iff_broken(src.spec_bytes(), MAX_REPAIR_COST as int, r);
            }
            (r.tree, r.repairs)
        },
    }
}

/// The stream with window `lo..hi` replaced by one operand.
pub open spec fn skeleton(n: int, lo: int, hi: int) -> Seq<Slot> {
    start(lo) + seq![Slot::Synth(TokenKind::Int)] + Seq::new(
        (n - hi) as nat,
        |i: int| Slot::Keep((hi + i) as usize),
    )
}

/// The window holds the only error: with one operand in its place, the rest
/// parses.
pub open spec fn sole_error(s: Seq<u8>, w: (usize, usize)) -> bool {
    let n = lex(s).len() - 1;
    w.0 <= w.1 <= n && parse_stream(lex(rendered(s, skeleton(n, w.0 as int, w.1 as int)))) is Ok
}

/// Whether the window holds the only error of `src`.
fn region_is_sole_error(tokens: &[Token], src: &str, window: (usize, usize)) -> (r: bool)
    requires
        models(tokens@, src.spec_bytes()) == lex(src.spec_bytes()),
        2 * src.spec_bytes().len() + 2 <= u32::MAX,
    ensures
        r == sole_error(src.spec_bytes(), window),
{
    let ghost s = src.spec_bytes();
    proof {
        lemma_lex_from(s, 0);
        assert(tokens@.len() == lex(s).len());
    }
    let count: usize = tokens.len() - 1;
    let (lo, hi) = window;
    if lo > hi || hi > count {
        return false;
    }
    let ghost n = count as int;
    let mut slots: Vec<Slot> = Vec::new();
    let mut i: usize = 0;
    while i < lo
        invariant
            i <= lo,
            slots@.len() == i,
            forall|k: int| 0 <= k < i ==> #[trigger] slots@[k] == Slot::Keep(k as usize),
        decreases lo - i,
    {
        slots.push(Slot::Keep(i));
        i = i + 1;
    }
    slots.push(Slot::Synth(TokenKind::Int));
    let mut j: usize = hi;
    while j < count
        invariant
            lo <= hi <= j <= count,
            n == count,
            slots@.len() == lo + 1 + (j - hi),
            forall|k: int| 0 <= k < lo ==> #[trigger] slots@[k] == Slot::Keep(k as usize),
            slots@[lo as int] == Slot::Synth(TokenKind::Int),
            forall|k: int|
                lo < k < slots@.len() ==> #[trigger] slots@[k] == Slot::Keep(
                    (hi + (k - lo - 1)) as usize,
                ),
        decreases count - j,
    {
        slots.push(Slot::Keep(j));
        j = j + 1;
    }
    proof {
        assert(slots@ =~= skeleton(n, lo as int, hi as int));
        lemma_room_skeleton(s, n, lo as int, hi as int);
        lemma_rendered_len(s, slots@, slots@.len() as int);
    }
    let text = render(&slots, tokens, src);
    parse(text.as_str()).is_ok()
}

/// A skeleton is not longer than the stream with one token more.
proof fn lemma_room_skeleton(s: Seq<u8>, n: int, lo: int, hi: int)
    requires
        s.len() <= u32::MAX,
        n == lex(s).len() - 1,
        0 <= lo <= hi <= n,
    ensures
        room(s, skeleton(n, lo, hi), lo + 1 + (n - hi)) <= 2 * s.len() + 2,
{
    let x = skeleton(n, lo, hi);
    let all = start(n);
    lemma_lex_from(s, 0);
    lemma_room_prefix(s, x, all, lo);
    assert(x[lo] == Slot::Synth(TokenKind::Int));
    lemma_room_tail(s, n, lo, hi, n - hi);
    lemma_room_mono(s, all, lo, hi);
    lemma_room_start(s, n);
}

proof fn lemma_room_mono(s: Seq<u8>, x: Seq<Slot>, i: int, j: int)
    requires
        0 <= i <= j <= x.len(),
    ensures
        room(s, x, i) <= room(s, x, j),
    decreases j - i,
{
    if i < j {
        lemma_room_mono(s, x, i, j - 1);
    }
}

proof fn lemma_room_tail(s: Seq<u8>, n: int, lo: int, hi: int, k: int)
    requires
        0 <= lo <= hi <= n <= usize::MAX,
        0 <= k <= n - hi,
    ensures
        room(s, skeleton(n, lo, hi), lo + 1 + k) - room(s, skeleton(n, lo, hi), lo + 1) == room(
            s,
            start(n),
            hi + k,
        ) - room(s, start(n), hi),
    decreases k,
{
    if k > 0 {
        lemma_room_tail(s, n, lo, hi, k - 1);
        assert(skeleton(n, lo, hi)[lo + k] == start(n)[hi + k - 1]);
    }
}

/// A repair confined to a region around the error.
pub struct LocalRepairResult {
    pub result: RepairResult,
    /// The region; `None` if the search covered the whole stream.
    pub region: Option<(usize, usize)>,
    pub escalated_to_global: bool,
}

/// Context `j` has a region that holds the only error and can be repaired
/// within cost `max`.
pub open spec fn usable(s: Seq<u8>, ts: Seq<Token>, j: int, max: int) -> bool {
    window_of(ts, open_contexts(s), j) matches Some((lo, hi)) && lo <= usize::MAX && hi <= usize::MAX
        && sole_error(s, (lo as usize, hi as usize)) && !none_below(
        s,
        Some((lo as usize, hi as usize)),
        unit_costs(),
        max + 1,
    )
}

/// Context `j` is the innermost one with a usable region.
pub open spec fn innermost(s: Seq<u8>, ts: Seq<Token>, j: int, max: int) -> bool {
    &&& 0 <= j < open_contexts(s).len()
    &&& usable(s, ts, j, max)
    &&& forall|k: int| j < k < open_contexts(s).len() ==> !#[trigger] usable(s, ts, k, max)
}

/// Repairing `s` inside window `w` costs more than repairing it anywhere.
pub open spec fn dearer(s: Seq<u8>, w: (usize, usize)) -> bool {
    exists|bound: int| #[trigger]
        none_below(s, Some(w), unit_costs(), bound) && !none_below(s, None, unit_costs(), bound)
}

/// What repairing `s` locally up to cost `max` returns: a cheapest repair in
/// the innermost usable region, if no repair outside of it is cheaper; else
/// what repairing all of `s` returns.
pub open spec fn local_result(s: Seq<u8>, ts: Seq<Token>, max: int, r: LocalRepairResult) -> bool {
    match r.region {
        Some(w) => {
            &&& !r.escalated_to_global
            &&& exists|j: int| #[trigger]
                innermost(s, ts, j, max) && window_of(ts, open_contexts(s), j) == as_ints(Some(w))
            &&& search_result(s, Some(w), unit_costs(), max, Some(r.result))
            &&& none_below(s, None, unit_costs(), r.result.cost as int)
        },
        None => {
            &&& r.escalated_to_global
            &&& forall|j: int, w: (usize, usize)| #[trigger]
                innermost(s, ts, j, max) && #[trigger] as_ints(Some(w)) == window_of(
                    ts,
                    open_contexts(s),
                    j,
                ) ==> dearer(s, w)
            &&& global_result(s, max, r.result)
        },
    }
}

/// A cheapest repair in the innermost region around the error that can be
/// repaired on its own within `max_cost`; a repair of the whole source if there
/// is none, or if that is cheaper. It costs what a cheapest repair of the whole
/// source costs.
pub fn local_optimal_repair_bounded(src: &str, max_cost: Cost) -> (r: LocalRepairResult)
    requires
        2 * src.spec_bytes().len() + 2 * max_cost + 2 <= u32::MAX,
    ensures
        exists|ts: Seq<Token>|
            models(ts, src.spec_bytes()) == lex(src.spec_bytes()) && #[trigger] local_result(
                src.spec_bytes(),
                ts,
                max_cost as int,
                r,
            ),
        forall|g: RepairResult| #[trigger]
            global_result(src.spec_bytes(), max_cost as int, g) ==> r.result.cost == g.cost,
        r.region is Some <==> !r.escalated_to_global,
{
    let tokens = tokenize(src);
    let costs = RepairCosts::default();
    let ghost s = src.spec_bytes();
    let ghost ts = tokens@;
    let ghost max = max_cost as int;
    proof {
        assert(costs == unit_costs());
        lemma_lex_from(s, 0);
        assert(ts.len() == lex(s).len());
    }
    let ctxs = open_contexts_at_error(tokens.as_slice(), src);
    let mut j: usize = ctxs.len();
    while j > 0
        invariant
            j <= ctxs@.len(),
            ctxs@ == open_contexts(s),
            s == src.spec_bytes(),
            ts == tokens@,
            max == max_cost,
            models(ts, s) == lex(s),
            ts.len() >= 1,
            costs == unit_costs(),
            2 * src.spec_bytes().len() + 2 * max_cost + 2 <= u32::MAX,
            forall|k: int| j <= k < ctxs@.len() ==> !#[trigger] usable(s, ts, k, max),
        decreases j,
    {
        j = j - 1;
        if let Some(window) = region_window(&ctxs, j, tokens.as_slice()) {
            if region_is_sole_error(tokens.as_slice(), src, window) {
                if let Some(result) = optimal_repair(
                    tokens.as_slice(),
                    src,
                    Some(window),
                    &costs,
                    max_cost,
                ) {
                    proof {
                        lemma_innermost(s, ts, j as int, max, window, result);
                    }
                    if result.cost > 1 {
                        if let Some(better) = optimal_repair(
                            tokens.as_slice(),
                            src,
                            None,
                            &costs,
                            result.cost - 1,
                        ) {
                            let r = LocalRepairResult {
                                result: better,
                                region: None,
                                escalated_to_global: true,
                            };
                            proof {
                                lemma_escalated(s, ts, j as int, max, window, result, r);
                            }
                            return r;
                        }
                    }
                    let r = LocalRepairResult {
                        result,
                        region: Some(window),
                        escalated_to_global: false,
                    };
                    proof {
                        lemma_cheapest_anywhere(s, max, window, result);
                        assert(local_result(s, ts, max, r));
                        lemma_local_is_global(s, ts, max, r);
                    }
                    return r;
                }
            }
        }
    }
    let result = global_optimal_repair_bounded(src, max_cost);
    let r = LocalRepairResult { result, region: None, escalated_to_global: true };
    proof {
        assert(local_result(s, ts, max, r));
        lemma_local_is_global(s, ts, max, r);
    }
    r
}

/// Region `w`, of context `j`, with the repair found in it.
proof fn lemma_innermost(
    s: Seq<u8>,
    ts: Seq<Token>,
    j: int,
    max: int,
    w: (usize, usize),
    r: RepairResult,
)
    requires
        0 <= j < open_contexts(s).len(),
        window_of(ts, open_contexts(s), j) == as_ints(Some(w)),
        sole_error(s, w),
        search_result(s, Some(w), unit_costs(), max, Some(r)),
        forall|k: int| j < k < open_contexts(s).len() ==> !#[trigger] usable(s, ts, k, max),
    ensures
        innermost(s, ts, j, max),
{
    let c = unit_costs();
    let path = choose|path: Seq<Move>| #[trigger] result_of(s, Some(w), c, path, r);
    assert(mends(s, Some(w), path));
    assert(path_cost(c, path) <= max);
    assert(!none_below(s, Some(w), c, max + 1));
}

/// A repair anywhere that is cheaper than the region's.
proof fn lemma_escalated(
    s: Seq<u8>,
    ts: Seq<Token>,
    j: int,
    max: int,
    w: (usize, usize),
    found: RepairResult,
    r: LocalRepairResult,
)
    requires
        innermost(s, ts, j, max),
        window_of(ts, open_contexts(s), j) == as_ints(Some(w)),
        search_result(s, Some(w), unit_costs(), max, Some(found)),
        search_result(s, None, unit_costs(), found.cost - 1, Some(r.result)),
        r.region is None,
        r.escalated_to_global,
    ensures
        local_result(s, ts, max, r),
        forall|g: RepairResult| #[trigger]
            global_result(s, max, g) ==> r.result.cost == g.cost,
{
    let c = unit_costs();
    assert(dearer(s, w)) by {
        let path = choose|path: Seq<Move>| #[trigger] result_of(s, None, c, path, r.result);
        assert(mends(s, None, path));
        assert(path_cost(c, path) < found.cost);
        assert(none_below(s, Some(w), c, found.cost as int));
        assert(!none_below(s, None, c, found.cost as int));
    }
    assert forall|i: int, v: (usize, usize)| #[trigger]
        innermost(s, ts, i, max) && #[trigger] as_ints(Some(v)) == window_of(
            ts,
            open_contexts(s),
            i,
        ) implies dearer(s, v) by {
        if i < j {
            assert(!usable(s, ts, j, max));
        } else if j < i {
            assert(!usable(s, ts, i, max));
        }
        assert(v == w);
    }
    assert(global_result(s, max, r.result));
    lemma_local_is_global(s, ts, max, r);
}

/// A repair in a region that costs no more than one is a cheapest one; so is
/// one that no cheaper repair was found for.
proof fn lemma_cheapest_anywhere(s: Seq<u8>, max: int, w: (usize, usize), r: RepairResult)
    requires
        search_result(s, Some(w), unit_costs(), max, Some(r)),
        r.cost > 1 ==> search_result(s, None, unit_costs(), r.cost - 1, None),
    ensures
        none_below(s, None, unit_costs(), r.cost as int),
{
    let c = unit_costs();
    assert forall|path: Seq<Move>| #[trigger] mends(s, None, path) implies path_cost(c, path)
        >= r.cost by {
        lemma_path_cost(lex(s).len() - 1, c, path);
        if r.cost == 1 {
            if path.len() > 0 {
                assert(path_cost(c, path) == path_cost(c, path.drop_last()) + move_cost(
                    c,
                    path.last(),
                ));
                lemma_path_cost(lex(s).len() - 1, c, path.drop_last());
            } else {
                assert(path =~= Seq::<Move>::empty());
                assert(mends(s, Some(w), path));
            }
        }
    }
}

proof fn lemma_local_is_global(s: Seq<u8>, ts: Seq<Token>, max: int, local: LocalRepairResult)
    requires
        local_result(s, ts, max, local),
    ensures
        forall|g: RepairResult| #[trigger]
            global_result(s, max, g) ==> local.result.cost == g.cost,
{
    assert forall|g: RepairResult| #[trigger] global_result(s, max, g) implies local.result.cost
        == g.cost by {
        law_local_is_global(s, ts, max, local, g);
    }
}

/// A local repair within `MAX_REPAIR_COST`.
pub fn local_optimal_repair(src: &str) -> (r: LocalRepairResult)
    requires
        2 * src.spec_bytes().len() + 14 <= u32::MAX,
    ensures
        exists|ts: Seq<Token>|
            models(ts, src.spec_bytes()) == lex(src.spec_bytes()) && #[trigger] local_result(
                src.spec_bytes(),
                ts,
                MAX_REPAIR_COST as int,
                r,
            ),
        forall|g: RepairResult| #[trigger]
            global_result(src.spec_bytes(), MAX_REPAIR_COST as int, g) ==> r.result.cost == g.cost,
        r.region is Some <==> !r.escalated_to_global,
{
    local_optimal_repair_bounded(src, MAX_REPAIR_COST)
}

// ---- Laws --------------------------------------------------------------

/// The cost of a repaired source is the sum of the costs of its repairs.
pub proof fn law_cost_is_total(
    s: Seq<u8>,
    w: Option<(usize, usize)>,
    c: RepairCosts,
    path: Seq<Move>,
    r: RepairResult,
)
    requires
        result_of(s, w, c, path, r),
    ensures
        r.cost == sum_of(c, r.repairs@),
{
    lemma_path_cost(lex(s).len() - 1, c, path);
}

/// What mends a source inside a window mends it.
pub proof fn law_window_narrows(s: Seq<u8>, w: (usize, usize), path: Seq<Move>)
    requires
        mends(s, Some(w), path),
    ensures
        mends(s, None, path),
{
    lemma_legal_widens(lex(s).len() - 1, w, path);
}

proof fn lemma_legal_widens(n: int, w: (usize, usize), path: Seq<Move>)
    requires
        legal(n, Some(w), path),
    ensures
        legal(n, None, path),
    decreases path.len(),
{
    if path.len() > 0 {
        lemma_legal_widens(n, w, path.drop_last());
    }
}

/// A local repair costs what a global one costs, within any bound.
pub proof fn law_local_is_global(
    s: Seq<u8>,
    ts: Seq<Token>,
    max: int,
    local: LocalRepairResult,
    global: RepairResult,
)
    requires
        local_result(s, ts, max, local),
        global_result(s, max, global),
    ensures
        local.result.cost == global.cost,
{
    let c = unit_costs();
    match local.region {
        Some(w) => {
            let path = choose|path: Seq<Move>| #[trigger]
                result_of(s, Some(w), c, path, local.result);
            law_window_narrows(s, w, path);
            assert(mends(s, None, path));
            assert(search_result(s, None, c, max, Some(global)));
            let best = choose|best: Seq<Move>| #[trigger] result_of(s, None, c, best, global);
            assert(mends(s, None, best));
        },
        None => {
            lemma_global_cost(s, max, local.result, global);
        },
    }
}

proof fn lemma_deletes(rs: Seq<Repair>, k: int)
    requires
        0 <= k <= rs.len(),
        forall|i: int| 0 <= i < rs.len() ==> #[trigger] rs[i] is Delete,
    ensures
        sum_upto(unit_costs(), rs, k) == k,
    decreases k,
{
    if k > 0 {
        lemma_deletes(rs, k - 1);
        assert(rs[k - 1] is Delete);
    }
}

/// A local repair costs the sum of the costs of its repairs.
pub proof fn law_local_cost_is_total(s: Seq<u8>, ts: Seq<Token>, max: int, local: LocalRepairResult)
    requires
        local_result(s, ts, max, local),
    ensures
        local.result.cost == sum_of(unit_costs(), local.result.repairs@),
{
    let c = unit_costs();
    let r = local.result;
    if local.region is Some || search_result(s, None, c, max, Some(r)) {
        let path = choose|path: Seq<Move>| #[trigger] result_of(s, local.region, c, path, r);
        law_cost_is_total(s, local.region, c, path, r);
    } else {
        lemma_deletes(r.repairs@, r.repairs@.len() as int);
    }
}

/// All repairs of a source within a bound cost the same.
proof fn lemma_global_cost(s: Seq<u8>, max: int, a: RepairResult, b: RepairResult)
    requires
        global_result(s, max, a),
        global_result(s, max, b),
    ensures
        a.cost == b.cost,
{
    let c = unit_costs();
    if search_result(s, None, c, max, Some(a)) {
        let p = choose|p: Seq<Move>| #[trigger] result_of(s, None, c, p, a);
        assert(mends(s, None, p));
    }
    if search_result(s, None, c, max, Some(b)) {
        let p = choose|p: Seq<Move>| #[trigger] result_of(s, None, c, p, b);
        assert(mends(s, None, p));
    }
}

/// A larger bound changes no repair that a smaller one found; and where that
/// found none, all of the source is one error, every token deleted.
pub proof fn law_larger_bound(s: Seq<u8>, b: int, r: RepairResult, c: int, x: RepairResult)
    requires
        s.len() <= u32::MAX,
        b <= c,
        global_result(s, b, r),
        global_result(s, c, x),
    ensures
        !none_below(s, None, unit_costs(), b + 1) ==> r.cost <= b && x.cost == r.cost && x.repairs@
            == r.repairs@,
        none_below(s, None, unit_costs(), b + 1) ==> is_fallback(s, r),
{
    let u = unit_costs();
    if none_below(s, None, u, b + 1) {
        if search_result(s, None, u, b, Some(r)) {
            let p = choose|p: Seq<Move>| #[trigger] result_of(s, None, u, p, r);
            assert(mends(s, None, p));
        }
    } else {
        assert(search_result(s, None, u, b, Some(r)));
        let p = choose|p: Seq<Move>| #[trigger] result_of(s, None, u, p, r);
        assert(mends(s, None, p));
        assert(search_result(s, None, u, c, Some(x)));
        law_repairs_fixed(s, None, u, c, r, x);
    }
}

/// The repairs found are fixed by the source: whichever way they are searched
/// for, they are the preferred ones.
pub proof fn law_repairs_fixed(
    s: Seq<u8>,
    w: Option<(usize, usize)>,
    c: RepairCosts,
    max: int,
    a: RepairResult,
    b: RepairResult,
)
    requires
        s.len() <= u32::MAX,
        c.positive(),
        search_result(s, w, c, max, Some(a)),
        search_result(s, w, c, max, Some(b)),
    ensures
        a.repairs@ == b.repairs@,
        a.cost == b.cost,
{
    let n = lex(s).len() - 1;
    lemma_lex_from(s, 0);
    let p = choose|p: Seq<Move>| #[trigger]
        result_of(s, w, c, p, a) && (c.positive() ==> none_before(s, w, c, p));
    let q = choose|q: Seq<Move>| #[trigger]
        result_of(s, w, c, q, b) && (c.positive() ==> none_before(s, w, c, q));
    assert(mends(s, w, p) && mends(s, w, q));
    lemma_same_rank(n, w, c, p, q);
}

/// Making no repair mends exactly a source that parses.
proof fn lemma_clean(s: Seq<u8>, w: Option<(usize, usize)>, path: Seq<Move>)
    requires
        2 * s.len() + 1 <= u32::MAX,
        path.len() == 0,
    ensures
        mends(s, w, path) <==> parse_stream(lex(s)) is Ok,
{
    law_spaced_parses_alike(s);
    assert(run(lex(s).len() - 1, path) == start(lex(s).len() - 1));
}

/// A stream of one operand parses.
proof fn lemma_one_token_parses(a: Seq<Tok>)
    requires
        a.len() == 2,
        a[0].kind == TokenKind::Int,
        a[1].kind == TokenKind::Eof,
    ensures
        parse_stream(a) is Ok,
{
    assert(nud_at(a, 0) matches Out::Done(f, q) && q == 1);
    let f = nud_at(a, 0)->Done_0;
    assert(lb(a, 1) == 0);
    assert(loop_at(a, 0, 0, stamp(f, 0), no_spine(), 1) matches Out::Done(g, q) && q == 1);
}

/// An operand alone is one token.
proof fn lemma_operand_parses(w: Seq<u8>)
    requires
        w == seq![DIGIT_0],
    ensures
        parse_stream(lex(w)) is Ok,
{
    let a = lex(w);
    assert(digits_end(w, 1) == 1);
    assert(tok_at(w, 0) == Some((TokenKind::Int, 1int)));
    let t = next_tok(w, 0);
    assert(t.kind == TokenKind::Int && t.end == 1);
    let e = next_tok(w, 1);
    assert(e.kind == TokenKind::Eof);
    assert(lex_from(w, 1) == seq![e]);
    assert(a == seq![t] + seq![e]);
    lemma_one_token_parses(a);
}

/// An operand mends a source without tokens.
proof fn lemma_empty_mended(s: Seq<u8>)
    requires
        lex(s).len() == 1,
    ensures
        !none_below(s, None, unit_costs(), 2),
{
    let none = Seq::<Move>::empty();
    let m = Move::Ins(0, TokenKind::Int);
    let path = none.push(m);
    assert(path.drop_last() =~= none);
    let slots = run(0, path);
    assert(run(0, none) == start(0));
    assert(slots == start(0).insert(0, Slot::Synth(TokenKind::Int)));
    let r = rendered(s, slots);
    assert(texts(s, slots)[0] == canon_bytes(TokenKind::Int));
    assert(r == seq![DIGIT_0]);
    lemma_operand_parses(r);
    assert(legal(0, None, none));
    assert(mends(s, None, path));
    assert(path_cost(unit_costs(), none) == 0);
    assert(path_cost(unit_costs(), path) == 1);
}

/// What was found by a search makes no repair, and costs nothing, exactly where
/// the source parses.
proof fn lemma_found_clean(
    s: Seq<u8>,
    w: Option<(usize, usize)>,
    max: int,
    r: RepairResult,
)
    requires
        2 * s.len() + 1 <= u32::MAX,
        search_result(s, w, unit_costs(), max, Some(r)),
    ensures
        r.repairs@.len() == 0 <==> parse_stream(lex(s)) is Ok,
        r.cost == 0 <==> parse_stream(lex(s)) is Ok,
{
    let n = lex(s).len() - 1;
    let c = unit_costs();
    let path = choose|path: Seq<Move>| #[trigger] result_of(s, w, c, path, r);
    let none = Seq::<Move>::empty();
    lemma_path_cost(n, c, path);
    lemma_clean(s, w, none);
    assert(path_cost(c, none) == 0);
    if path.len() > 0 {
        lemma_path_cost(n, c, path.drop_last());
        assert(path_cost(c, path) == path_cost(c, path.drop_last()) + move_cost(c, path.last()));
        if parse_stream(lex(s)) is Ok {
            assert(mends(s, w, none));
        }
    } else {
        lemma_clean(s, w, path);
    }
}

/// Repairs are made, and cost something, exactly where the source does not
/// parse.
pub proof fn law_repairs_iff_broken(s: Seq<u8>, max: int, r: RepairResult)
    requires
        2 * s.len() + 1 <= u32::MAX,
        1 <= max,
        global_result(s, max, r),
    ensures
        r.repairs@.len() == 0 <==> parse_stream(lex(s)) is Ok,
        r.cost == 0 <==> parse_stream(lex(s)) is Ok,
{
    let c = unit_costs();
    if search_result(s, None, c, max, Some(r)) {
        lemma_found_clean(s, None, max, r);
    } else {
        let none = Seq::<Move>::empty();
        lemma_clean(s, None, none);
        assert(path_cost(c, none) == 0);
        lemma_lex_from(s, 0);
        if lex(s).len() == 1 {
            lemma_empty_mended(s);
            let path = choose|path: Seq<Move>| #[trigger]
                mends(s, None, path) && path_cost(c, path) < 2;
            assert(mends(s, None, path));
        }
        assert(!mends(s, None, none));
    }
}

/// The same of a local repair.
pub proof fn law_local_repairs_iff_broken(
    s: Seq<u8>,
    ts: Seq<Token>,
    max: int,
    local: LocalRepairResult,
)
    requires
        2 * s.len() + 1 <= u32::MAX,
        1 <= max,
        local_result(s, ts, max, local),
    ensures
        local.result.repairs@.len() == 0 <==> parse_stream(lex(s)) is Ok,
        local.result.cost == 0 <==> parse_stream(lex(s)) is Ok,
{
    match local.region {
        Some(w) => lemma_found_clean(s, Some(w), max, local.result),
        None => law_repairs_iff_broken(s, max, local.result),
    }
}

} // verus!
