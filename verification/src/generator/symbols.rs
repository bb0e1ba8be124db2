//! The symbols of a specification and the roles they play.

use vstd::prelude::*;
use vstd::string::*;

use crate::generator::spec::{class_of, Infix, Postfix, Prefix, Spec};
use crate::generator::text::{digit_char, decimal, put_number, views};
use crate::runtime::table::InfixRole;

verus! {

/// What a symbol is used for.
#[derive(Debug)]
pub struct Roles {
    /// The name of its token kind.
    pub variant: String,
    pub prefix_rbp: Option<u32>,
    pub postfix_lbp: Option<u32>,
    pub infix: Option<InfixRole>,
    pub open_paren: bool,
    pub close_paren: bool,
}

#[derive(Debug)]
pub struct Sym {
    pub text: String,
    pub roles: Roles,
}

// ---- Order -------------------------------------------------------------

/// `a` comes before `b` in a dictionary.
pub open spec fn precedes(a: Seq<char>, b: Seq<char>) -> bool
    decreases a.len(),
{
    if b.len() == 0 {
        false
    } else if a.len() == 0 {
        true
    } else if a[0] != b[0] {
        a[0] < b[0]
    } else {
        precedes(a.skip(1), b.skip(1))
    }
}

pub proof fn lemma_precedes_total(a: Seq<char>, b: Seq<char>)
    ensures
        precedes(a, b) || precedes(b, a) || a == b,
        !(precedes(a, b) && precedes(b, a)),
        !precedes(a, a),
    decreases a.len(),
{
    if a.len() > 0 {
        if b.len() > 0 {
            lemma_precedes_total(a.skip(1), b.skip(1));
            if a[0] == b[0] && a.skip(1) == b.skip(1) {
                assert forall|i: int| 0 <= i < a.len() implies a[i] == b[i] by {
                    if i > 0 {
                        assert(a.skip(1)[i - 1] == b.skip(1)[i - 1]);
                    }
                }
                assert(a.skip(1).len() == b.skip(1).len());
                assert(a =~= b);
            }
        } else {
            lemma_precedes_total(a.skip(1), a.skip(1));
        }
    } else if b.len() == 0 {
        assert(a =~= b);
    }
}

proof fn lemma_precedes_chain(a: Seq<char>, b: Seq<char>, c: Seq<char>)
    requires
        precedes(a, b),
        precedes(b, c),
    ensures
        precedes(a, c),
    decreases a.len(),
{
    if a.len() > 0 && a[0] == b[0] && b[0] == c[0] {
        lemma_precedes_chain(a.skip(1), b.skip(1), c.skip(1));
    }
}

/// Whether `a` comes before `b`.
fn comes_before(a: &str, b: &str) -> (r: bool)
    ensures
        r == precedes(a@, b@),
{
    let (m, n): (usize, usize) = (a.unicode_len(), b.unicode_len());
    let mut i: usize = 0;
    proof {
        assert(a@.skip(0) =~= a@);
        assert(b@.skip(0) =~= b@);
    }
    while i < m && i < n
        invariant
            m == a@.len(),
            n == b@.len(),
            i <= m,
            i <= n,
            precedes(a@, b@) == precedes(a@.skip(i as int), b@.skip(i as int)),
        decreases m - i,
    {
        let (x, y): (u32, u32) = (a.get_char(i) as u32, b.get_char(i) as u32);
        if x != y {
            return x < y;
        }
        proof {
            assert(a@.skip(i as int).skip(1) =~= a@.skip(i + 1));
            assert(b@.skip(i as int).skip(1) =~= b@.skip(i + 1));
        }
        i = i + 1;
    }
    i < n
}

/// Names in dictionary order, none twice.
pub open spec fn in_order(v: Seq<Seq<char>>) -> bool {
    forall|i: int, j: int| 0 <= i < j < v.len() ==> precedes(#[trigger] v[i], #[trigger] v[j])
}

/// Put a name into its place.
fn put_name(names: &mut Vec<String>, s: &String)
    requires
        in_order(views(old(names)@)),
    ensures
        in_order(views(final(names)@)),
        forall|x: Seq<char>|
            views(final(names)@).contains(x) <==> views(old(names)@).contains(x) || x == s@,
{
    let ghost before = views(names@);
    let n: usize = names.len();
    let mut i: usize = 0;
    while i < n && comes_before(names[i].as_str(), s.as_str())
        invariant
            n == names@.len(),
            i <= n,
            before == views(names@),
            forall|j: int| 0 <= j < i ==> precedes(#[trigger] before[j], s@),
        decreases n - i,
    {
        i = i + 1;
    }
    if i < n {
        assert(before[i as int] == names@[i as int]@);
        if names[i] == *s {
            return;
        }
        proof {
            lemma_precedes_total(before[i as int], s@);
        }
    }
    names.insert(i, s.clone());
    proof {
        let after = views(names@);
        assert(after =~= before.insert(i as int, s@));
        assert forall|j: int, k: int| 0 <= j < k < after.len() implies precedes(
            #[trigger] after[j],
            #[trigger] after[k],
        ) by {
            let a = before.insert(i as int, s@);
            if j == i {
                if k > i + 1 {
                    lemma_precedes_chain(s@, before[i as int], before[k - 1]);
                }
            } else if k == i {
                assert(a[j] == before[j]);
            } else {
                let x = if j < i {
                    j
                } else {
                    j - 1
                };
                let y = if k < i {
                    k
                } else {
                    k - 1
                };
                assert(a[j] == before[x] && a[k] == before[y]);
            }
        }
        assert forall|x: Seq<char>| after.contains(x) <==> before.contains(x) || x == s@ by {
            if after.contains(x) {
                let j = choose|j: int| 0 <= j < after.len() && after[j] == x;
                if j < i {
                    assert(before[j] == x);
                } else if j > i {
                    assert(before[j - 1] == x);
                }
            }
            if before.contains(x) {
                let j = choose|j: int| 0 <= j < before.len() && before[j] == x;
                if j < i {
                    assert(after[j] == x);
                } else {
                    assert(after[j + 1] == x);
                }
            }
            if x == s@ {
                assert(after[i as int] == x);
            }
        }
    }
}

// ---- Names of token kinds ----------------------------------------------

/// The name of a character in the names of token kinds.
pub open spec fn char_name(c: char) -> Option<Seq<char>> {
    match c {
        '+' => Some("Plus"@),
        '-' => Some("Minus"@),
        '*' => Some("Star"@),
        '/' => Some("Slash"@),
        '%' => Some("Percent"@),
        '^' => Some("Caret"@),
        '!' => Some("Bang"@),
        '&' => Some("Amp"@),
        '|' => Some("Pipe"@),
        '=' => Some("Eq"@),
        '<' => Some("Lt"@),
        '>' => Some("Gt"@),
        '~' => Some("Tilde"@),
        '?' => Some("Question"@),
        ':' => Some("Colon"@),
        '.' => Some("Dot"@),
        '@' => Some("At"@),
        '#' => Some("Hash"@),
        '$' => Some("Dollar"@),
        '(' => Some("LParen"@),
        ')' => Some("RParen"@),
        '[' => Some("LBracket"@),
        ']' => Some("RBracket"@),
        '{' => Some("LBrace"@),
        '}' => Some("RBrace"@),
        _ => None,
    }
}

/// The name of a character: its own, or `Tok` and its number.
pub open spec fn named_char(c: char) -> Seq<char> {
    match char_name(c) {
        Some(name) => name,
        None => "Tok"@ + decimal(c as nat),
    }
}

/// The names of the first `n` characters.
pub open spec fn chars_name(s: Seq<char>, n: int) -> Seq<char>
    decreases n,
{
    if n <= 0 || n > s.len() {
        Seq::empty()
    } else {
        chars_name(s, n - 1) + named_char(s[n - 1])
    }
}

/// The name of a symbol's token kind.
pub open spec fn variant_of(s: Seq<char>) -> Seq<char> {
    chars_name(s, s.len() as int)
}

fn name_of_char(c: char) -> (r: Option<&'static str>)
    ensures
        match r {
            Some(x) => char_name(c) == Some(x@),
            None => char_name(c) is None,
        },
{
    match c {
        '+' => Some("Plus"),
        '-' => Some("Minus"),
        '*' => Some("Star"),
        '/' => Some("Slash"),
        '%' => Some("Percent"),
        '^' => Some("Caret"),
        '!' => Some("Bang"),
        '&' => Some("Amp"),
        '|' => Some("Pipe"),
        '=' => Some("Eq"),
        '<' => Some("Lt"),
        '>' => Some("Gt"),
        '~' => Some("Tilde"),
        '?' => Some("Question"),
        ':' => Some("Colon"),
        '.' => Some("Dot"),
        '@' => Some("At"),
        '#' => Some("Hash"),
        '$' => Some("Dollar"),
        '(' => Some("LParen"),
        ')' => Some("RParen"),
        '[' => Some("LBracket"),
        ']' => Some("RBracket"),
        '{' => Some("LBrace"),
        '}' => Some("RBrace"),
        _ => None,
    }
}

/// The name of a symbol's token kind, which no other symbol has.
pub fn sym_to_variant(s: &str) -> (r: String)
    ensures
        r@ == variant_of(s@),
{
    let n: usize = s.unicode_len();
    let mut out: String = String::new();
    let mut i: usize = 0;
    while i < n
        invariant
            n == s@.len(),
            i <= n,
            chars_name(s@, i as int) == out@,
        decreases n - i,
    {
        let c: char = s.get_char(i);
        match name_of_char(c) {
            Some(x) => {
                out.append(x);
            },
            None => {
                let mut t: String = "Tok".to_owned();
                put_number(&mut t, c as u32 as u64);
                out.append(t.as_str());
            },
        }
        i = i + 1;
    }
    out
}

// ---- Names tell symbols apart ------------------------------------------

/// A capital letter.
spec fn capital(c: char) -> bool {
    'A' <= c && c <= 'Z'
}

/// A decimal digit.
spec fn numeric(c: char) -> bool {
    '0' <= c && c <= '9'
}

/// What tells names apart: the first two letters, and of names that share
/// those, a letter further on.
spec fn tag(x: Seq<char>) -> (char, char, char) {
    let third = if x[0] == 'D' {
        x[2]
    } else if x[1] == 'B' {
        x[5]
    } else {
        ' '
    };
    (x[0], x[1], third)
}

/// How names begin.
proof fn lemma_char_name(c: char)
    ensures
        match char_name(c) {
            Some(x) => {
                &&& x.len() >= 2
                &&& capital(x[0])
                &&& x[0] == 'D' ==> x.len() >= 3
                &&& x[1] == 'B' ==> x.len() >= 6
                &&& x[0] != 'T' || x[1] != 'o'
                &&& c == tagged(tag(x)).0
                &&& x.len() == tagged(tag(x)).1
            },
            None => true,
        },
{
    reveal_strlit("Plus");
    reveal_strlit("Minus");
    reveal_strlit("Star");
    reveal_strlit("Slash");
    reveal_strlit("Percent");
    reveal_strlit("Caret");
    reveal_strlit("Bang");
    reveal_strlit("Amp");
    reveal_strlit("Pipe");
    reveal_strlit("Eq");
    reveal_strlit("Lt");
    reveal_strlit("Gt");
    reveal_strlit("Tilde");
    reveal_strlit("Question");
    reveal_strlit("Colon");
    reveal_strlit("Dot");
    reveal_strlit("At");
    reveal_strlit("Hash");
    reveal_strlit("Dollar");
    reveal_strlit("LParen");
    reveal_strlit("RParen");
    reveal_strlit("LBracket");
    reveal_strlit("RBracket");
    reveal_strlit("LBrace");
    reveal_strlit("RBrace");
}

/// The character of a name that begins so, and the length of its name.
spec fn tagged(t: (char, char, char)) -> (char, int) {
    if t.0 == 'P' && t.1 == 'l' {
        ('+', 4)
    } else if t.0 == 'M' {
        ('-', 5)
    } else if t.0 == 'S' && t.1 == 't' {
        ('*', 4)
    } else if t.0 == 'S' {
        ('/', 5)
    } else if t.0 == 'P' && t.1 == 'e' {
        ('%', 7)
    } else if t.0 == 'C' && t.1 == 'a' {
        ('^', 5)
    } else if t.0 == 'B' {
        ('!', 4)
    } else if t.0 == 'A' && t.1 == 'm' {
        ('&', 3)
    } else if t.0 == 'P' {
        ('|', 4)
    } else if t.0 == 'E' {
        ('=', 2)
    } else if t.0 == 'L' && t.1 == 't' {
        ('<', 2)
    } else if t.0 == 'G' {
        ('>', 2)
    } else if t.0 == 'T' {
        ('~', 5)
    } else if t.0 == 'Q' {
        ('?', 8)
    } else if t.0 == 'C' {
        (':', 5)
    } else if t.0 == 'D' && t.2 == 't' {
        ('.', 3)
    } else if t.0 == 'A' {
        ('@', 2)
    } else if t.0 == 'H' {
        ('#', 4)
    } else if t.0 == 'D' {
        ('$', 6)
    } else if t.0 == 'L' && t.1 == 'P' {
        ('(', 6)
    } else if t.0 == 'R' && t.1 == 'P' {
        (')', 6)
    } else if t.0 == 'L' && t.2 == 'k' {
        ('[', 8)
    } else if t.0 == 'R' && t.2 == 'k' {
        (']', 8)
    } else if t.0 == 'L' {
        ('{', 6)
    } else {
        ('}', 6)
    }
}

proof fn lemma_decimal(n: nat)
    ensures
        decimal(n).len() > 0,
        forall|i: int| 0 <= i < decimal(n).len() ==> numeric(#[trigger] decimal(n)[i]),
    decreases n,
{
    if n >= 10 {
        lemma_decimal(n / 10);
    }
}

proof fn lemma_decimal_injective(m: nat, n: nat)
    requires
        decimal(m) == decimal(n),
    ensures
        m == n,
    decreases m,
{
    lemma_decimal(m);
    lemma_decimal(n);
    assert(decimal(m).last() == digit_char((m % 10) as int));
    assert(decimal(n).last() == digit_char((n % 10) as int));
    assert(m % 10 == n % 10);
    assert(m == 10 * (m / 10) + m % 10 && n == 10 * (n / 10) + n % 10);
    if m >= 10 {
        lemma_decimal(m / 10);
    }
    if n >= 10 {
        lemma_decimal(n / 10);
    }
    if m >= 10 && n >= 10 {
        assert(decimal(m).drop_last() =~= decimal(m / 10));
        assert(decimal(n).drop_last() =~= decimal(n / 10));
        lemma_decimal_injective(m / 10, n / 10);
    }
}

/// How the name of a character begins.
proof fn lemma_named_char(c: char)
    ensures
        named_char(c).len() >= 2,
        capital(named_char(c)[0]),
{
    reveal_strlit("Tok");
    lemma_char_name(c);
    lemma_decimal(c as nat);
}

/// The name of a number ends where no digit follows.
proof fn lemma_number_prefix(x: Seq<char>, y: Seq<char>, u: Seq<char>, v: Seq<char>)
    requires
        x + u == y + v,
        forall|i: int| 0 <= i < x.len() ==> numeric(#[trigger] x[i]),
        forall|i: int| 0 <= i < y.len() ==> numeric(#[trigger] y[i]),
        u.len() > 0 ==> !numeric(u[0]),
        v.len() > 0 ==> !numeric(v[0]),
    ensures
        x == y,
{
    let s = x + u;
    let t = y + v;
    if x.len() < y.len() {
        assert(s[x.len() as int] == u[0]);
        assert(t[x.len() as int] == y[x.len() as int]);
    }
    if y.len() < x.len() {
        assert(t[y.len() as int] == v[0]);
        assert(s[y.len() as int] == x[y.len() as int]);
    }
    assert(x =~= s.take(x.len() as int));
    assert(y =~= t.take(y.len() as int));
}

/// A name followed by names tells which character it names.
proof fn lemma_first_char(c: char, d: char, u: Seq<char>, v: Seq<char>)
    requires
        named_char(c) + u == named_char(d) + v,
        u.len() > 0 ==> capital(u[0]),
        v.len() > 0 ==> capital(v[0]),
    ensures
        c == d,
        u == v,
{
    let (x, y) = (named_char(c), named_char(d));
    let s = x + u;
    let t = y + v;
    reveal_strlit("Tok");
    lemma_char_name(c);
    lemma_char_name(d);
    lemma_decimal(c as nat);
    lemma_decimal(d as nat);
    assert(x[0] == s[0] && x[1] == s[1]);
    assert(y[0] == t[0] && y[1] == t[1]);
    if char_name(c) is Some && char_name(d) is Some {
        if x[0] == 'D' {
            assert(x[2] == s[2] && y[2] == t[2]);
        }
        if x[1] == 'B' {
            assert(x[5] == s[5] && y[5] == t[5]);
        }
        assert(tag(x) == tag(y));
    } else if char_name(c) is None && char_name(d) is None {
        let (m, n) = (decimal(c as nat), decimal(d as nat));
        assert(s.skip(3) =~= m + u);
        assert(t.skip(3) =~= n + v);
        lemma_number_prefix(m, n, u, v);
        lemma_decimal_injective(c as nat, d as nat);
    }
    assert(x == y);
    assert(u =~= s.skip(x.len() as int));
    assert(v =~= t.skip(y.len() as int));
}

/// The first character's name, then those of the rest.
proof fn lemma_chars_first(s: Seq<char>, n: int)
    requires
        0 < n <= s.len(),
    ensures
        chars_name(s, n) == named_char(s[0]) + chars_name(s.skip(1), n - 1),
    decreases n,
{
    if n == 1 {
        assert(chars_name(s, 0) =~= Seq::empty());
        assert(chars_name(s.skip(1), 0) =~= Seq::empty());
        assert(chars_name(s, 1) =~= named_char(s[0]) + chars_name(s.skip(1), 0));
    } else {
        lemma_chars_first(s, n - 1);
        assert(s.skip(1)[n - 2] == s[n - 1]);
        assert(chars_name(s, n) =~= named_char(s[0]) + chars_name(s.skip(1), n - 1));
    }
}

/// Symbols have different token kinds: names are names of one symbol only.
pub proof fn law_variant_unique(s: Seq<char>, t: Seq<char>)
    requires
        s != t,
    ensures
        variant_of(s) != variant_of(t),
    decreases s.len(),
{
    if s.len() > 0 {
        lemma_chars_first(s, s.len() as int);
        lemma_named_char(s[0]);
    }
    if t.len() > 0 {
        lemma_chars_first(t, t.len() as int);
        lemma_named_char(t[0]);
    }
    if s.len() == 0 && t.len() == 0 {
        assert(s =~= t);
    }
    if s.len() > 0 && t.len() > 0 && variant_of(s) == variant_of(t) {
        let (u, v) = (s.skip(1), t.skip(1));
        if u.len() > 0 {
            lemma_chars_first(u, u.len() as int);
            lemma_named_char(u[0]);
        }
        if v.len() > 0 {
            lemma_chars_first(v, v.len() as int);
            lemma_named_char(v[0]);
        }
        lemma_first_char(s[0], t[0], variant_of(u), variant_of(v));
        if u != v {
            law_variant_unique(u, v);
        }
        assert(s =~= seq![s[0]] + u);
        assert(t =~= seq![t[0]] + v);
    }
}

// ---- Roles -------------------------------------------------------------

/// A symbol of the specification.
pub open spec fn mentioned(spec: Spec, s: Seq<char>) -> bool {
    ||| s == spec.paren.open@
    ||| s == spec.paren.close@
    ||| exists|i: int| 0 <= i < spec.prefix@.len() && (#[trigger] spec.prefix@[i]).sym@ == s
    ||| exists|i: int| 0 <= i < spec.postfix@.len() && (#[trigger] spec.postfix@[i]).sym@ == s
    ||| exists|i: int| 0 <= i < spec.infix@.len() && (#[trigger] spec.infix@[i]).sym@ == s
}

/// The last of the first `n` prefix operators written `s`.
pub open spec fn prefix_of(v: Seq<Prefix>, s: Seq<char>, n: int) -> Option<u32>
    decreases n,
{
    if n <= 0 {
        None
    } else if v[n - 1].sym@ == s {
        Some(v[n - 1].rbp)
    } else {
        prefix_of(v, s, n - 1)
    }
}

pub open spec fn postfix_of(v: Seq<Postfix>, s: Seq<char>, n: int) -> Option<u32>
    decreases n,
{
    if n <= 0 {
        None
    } else if v[n - 1].sym@ == s {
        Some(v[n - 1].lbp)
    } else {
        postfix_of(v, s, n - 1)
    }
}

pub open spec fn infix_of(v: Seq<Infix>, s: Seq<char>, n: int) -> Option<InfixRole>
    decreases n,
{
    if n <= 0 {
        None
    } else if v[n - 1].sym@ == s {
        Some(
            InfixRole {
                lbp: v[n - 1].lbp,
                rbp: v[n - 1].right(),
                class: class_of(v[n - 1].class@),
            },
        )
    } else {
        infix_of(v, s, n - 1)
    }
}

/// The roles that the specification gives a symbol.
pub open spec fn roles_ok(spec: Spec, s: Seq<char>, r: Roles) -> bool {
    &&& r.variant@ == variant_of(s)
    &&& r.prefix_rbp == prefix_of(spec.prefix@, s, spec.prefix@.len() as int)
    &&& r.postfix_lbp == postfix_of(spec.postfix@, s, spec.postfix@.len() as int)
    &&& r.infix == infix_of(spec.infix@, s, spec.infix@.len() as int)
    &&& r.open_paren == (s == spec.paren.open@)
    &&& r.close_paren == (s == spec.paren.close@)
}

/// The texts of symbols.
pub open spec fn texts(v: Seq<Sym>) -> Seq<Seq<char>> {
    Seq::new(v.len(), |i: int| v[i].text@)
}

/// All symbols of the specification in dictionary order, with their roles.
pub open spec fn syms_ok(spec: Spec, v: Seq<Sym>) -> bool {
    &&& in_order(texts(v))
    &&& forall|s: Seq<char>| #[trigger] texts(v).contains(s) <==> mentioned(spec, s)
    &&& forall|i: int| 0 <= i < v.len() ==> roles_ok(spec, (#[trigger] v[i]).text@, v[i].roles)
}

fn roles_for(spec: &Spec, s: &String) -> (r: Roles)
    ensures
        roles_ok(*spec, s@, r),
{
    let mut prefix_rbp: Option<u32> = None;
    let mut i: usize = 0;
    while i < spec.prefix.len()
        invariant
            i <= spec.prefix@.len(),
            prefix_rbp == prefix_of(spec.prefix@, s@, i as int),
        decreases spec.prefix@.len() - i,
    {
        if spec.prefix[i].sym == *s {
            prefix_rbp = Some(spec.prefix[i].rbp);
        }
        i = i + 1;
    }
    let mut postfix_lbp: Option<u32> = None;
    let mut i: usize = 0;
    while i < spec.postfix.len()
        invariant
            i <= spec.postfix@.len(),
            postfix_lbp == postfix_of(spec.postfix@, s@, i as int),
        decreases spec.postfix@.len() - i,
    {
        if spec.postfix[i].sym == *s {
            postfix_lbp = Some(spec.postfix[i].lbp);
        }
        i = i + 1;
    }
    let mut infix: Option<InfixRole> = None;
    let mut i: usize = 0;
    while i < spec.infix.len()
        invariant
            i <= spec.infix@.len(),
            infix == infix_of(spec.infix@, s@, i as int),
        decreases spec.infix@.len() - i,
    {
        let x = &spec.infix[i];
        if x.sym == *s {
            infix = Some(InfixRole { lbp: x.lbp, rbp: x.rbp(), class: x.operator_class() });
        }
        i = i + 1;
    }
    Roles {
        variant: sym_to_variant(s.as_str()),
        prefix_rbp,
        postfix_lbp,
        infix,
        open_paren: *s == spec.paren.open,
        close_paren: *s == spec.paren.close,
    }
}

/// The names that the first operators mention.
pub open spec fn gathered(spec: Spec, x: Seq<char>, a: int, b: int, c: int) -> bool {
    ||| x == spec.paren.open@
    ||| x == spec.paren.close@
    ||| exists|i: int| 0 <= i < a && (#[trigger] spec.prefix@[i]).sym@ == x
    ||| exists|i: int| 0 <= i < b && (#[trigger] spec.postfix@[i]).sym@ == x
    ||| exists|i: int| 0 <= i < c && (#[trigger] spec.infix@[i]).sym@ == x
}

/// The names of all symbols in dictionary order.
fn names_of(spec: &Spec) -> (names: Vec<String>)
    ensures
        in_order(views(names@)),
        forall|x: Seq<char>| #[trigger] views(names@).contains(x) <==> mentioned(*spec, x),
{
    let mut names: Vec<String> = Vec::new();
    put_name(&mut names, &spec.paren.open);
    put_name(&mut names, &spec.paren.close);
    let (np, nq, nr): (usize, usize, usize) = (
        spec.prefix.len(),
        spec.postfix.len(),
        spec.infix.len(),
    );
    let mut i: usize = 0;
    while i < np
        invariant
            np == spec.prefix@.len(),
            i <= np,
            in_order(views(names@)),
            forall|x: Seq<char>|
                #[trigger] views(names@).contains(x) <==> gathered(*spec, x, i as int, 0, 0),
        decreases np - i,
    {
        let ghost before = views(names@);
        put_name(&mut names, &spec.prefix[i].sym);
        assert forall|x: Seq<char>|
            #[trigger] views(names@).contains(x) <==> gathered(*spec, x, i + 1, 0, 0) by {
            assert(views(names@).contains(x) <==> before.contains(x) || x
                == spec.prefix@[i as int].sym@);
        }
        i = i + 1;
    }
    let mut i: usize = 0;
    while i < nq
        invariant
            np == spec.prefix@.len(),
            nq == spec.postfix@.len(),
            i <= nq,
            in_order(views(names@)),
            forall|x: Seq<char>|
                #[trigger] views(names@).contains(x) <==> gathered(*spec, x, np as int, i as int, 0),
        decreases nq - i,
    {
        let ghost before = views(names@);
        put_name(&mut names, &spec.postfix[i].sym);
        assert forall|x: Seq<char>|
            #[trigger] views(names@).contains(x) <==> gathered(*spec, x, np as int, i + 1, 0) by {
            assert(views(names@).contains(x) <==> before.contains(x) || x
                == spec.postfix@[i as int].sym@);
        }
        i = i + 1;
    }
    let mut i: usize = 0;
    while i < nr
        invariant
            np == spec.prefix@.len(),
            nq == spec.postfix@.len(),
            nr == spec.infix@.len(),
            i <= nr,
            in_order(views(names@)),
            forall|x: Seq<char>|
                #[trigger] views(names@).contains(x) <==> gathered(
                    *spec,
                    x,
                    np as int,
                    nq as int,
                    i as int,
                ),
        decreases nr - i,
    {
        let ghost before = views(names@);
        put_name(&mut names, &spec.infix[i].sym);
        assert forall|x: Seq<char>|
            #[trigger] views(names@).contains(x) <==> gathered(
                *spec,
                x,
                np as int,
                nq as int,
                i + 1,
            ) by {
            assert(views(names@).contains(x) <==> before.contains(x) || x
                == spec.infix@[i as int].sym@);
        }
        i = i + 1;
    }
    names
}

/// The symbols of a specification in dictionary order, with their roles.
pub fn symbols_of(spec: &Spec) -> (r: Vec<Sym>)
    ensures
        syms_ok(*spec, r@),
{
    let names = names_of(spec);
    let mut out: Vec<Sym> = Vec::new();
    let mut i: usize = 0;
    while i < names.len()
        invariant
            i <= names@.len(),
            out@.len() == i,
            forall|k: int| 0 <= k < i ==> (#[trigger] out@[k]).text@ == views(names@)[k],
            forall|k: int|
                0 <= k < i ==> roles_ok(*spec, (#[trigger] out@[k]).text@, out@[k].roles),
        decreases names@.len() - i,
    {
        out.push(Sym { text: names[i].clone(), roles: roles_for(spec, &names[i]) });
        i = i + 1;
    }
    assert(texts(out@) =~= views(names@));
    out
}

} // verus!
