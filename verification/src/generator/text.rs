//! Pieces of text.

use vstd::prelude::*;
use vstd::string::*;

verus! {

/// How std writes a string with `{:?}`: in double quotes, special characters
/// escaped.
pub uninterp spec fn quoted(s: Seq<char>) -> Seq<char>;

/// `format!("{:?}", s)` of std. Not stated is which characters are escaped and
/// how; `quoted` names the text.
#[verifier::external_body]
pub(crate) fn quote(s: &str) -> (r: String)
    ensures
        r@ == quoted(s@),
{
    format!("{:?}", s)
}

/// A digit.
pub open spec fn digit_char(d: int) -> char {
    if d == 0 {
        '0'
    } else if d == 1 {
        '1'
    } else if d == 2 {
        '2'
    } else if d == 3 {
        '3'
    } else if d == 4 {
        '4'
    } else if d == 5 {
        '5'
    } else if d == 6 {
        '6'
    } else if d == 7 {
        '7'
    } else if d == 8 {
        '8'
    } else {
        '9'
    }
}

/// A number in decimal.
pub open spec fn decimal(n: nat) -> Seq<char>
    decreases n,
{
    if n < 10 {
        seq![digit_char(n as int)]
    } else {
        decimal(n / 10).push(digit_char((n % 10) as int))
    }
}

fn digit_text(d: u64) -> (r: &'static str)
    requires
        d < 10,
    ensures
        r@ == seq![digit_char(d as int)],
{
    proof {
        reveal_strlit("0");
        reveal_strlit("1");
        reveal_strlit("2");
        reveal_strlit("3");
        reveal_strlit("4");
        reveal_strlit("5");
        reveal_strlit("6");
        reveal_strlit("7");
        reveal_strlit("8");
        reveal_strlit("9");
    }
    let r: &'static str = match d {
        0 => "0",
        1 => "1",
        2 => "2",
        3 => "3",
        4 => "4",
        5 => "5",
        6 => "6",
        7 => "7",
        8 => "8",
        _ => "9",
    };
    assert(r@ =~= seq![digit_char(d as int)]);
    r
}

/// Write a number in decimal.
pub(crate) fn put_number(out: &mut String, n: u64)
    ensures
        final(out)@ == old(out)@ + decimal(n as nat),
    decreases n,
{
    if n >= 10 {
        put_number(out, n / 10);
    }
    out.append(digit_text(n % 10));
    proof {
        if n < 10 {
            assert(out@ =~= old(out)@ + decimal(n as nat));
        } else {
            assert(out@ =~= old(out)@ + decimal(n as nat));
        }
    }
}

/// Texts of a list of strings.
pub open spec fn views(v: Seq<String>) -> Seq<Seq<char>> {
    Seq::new(v.len(), |i: int| v[i]@)
}

/// The first `n` pieces, with `sep` between them.
pub open spec fn joined(pieces: Seq<Seq<char>>, sep: Seq<char>, n: int) -> Seq<char>
    decreases n,
{
    if n <= 0 {
        Seq::empty()
    } else if n == 1 {
        pieces[0]
    } else {
        joined(pieces, sep, n - 1) + sep + pieces[n - 1]
    }
}

/// The pieces with `sep` between them.
pub(crate) fn join(pieces: &Vec<String>, sep: &str) -> (r: String)
    ensures
        r@ == joined(views(pieces@), sep@, pieces@.len() as int),
{
    let mut out: String = String::new();
    let mut i: usize = 0;
    while i < pieces.len()
        invariant
            i <= pieces@.len(),
            out@ == joined(views(pieces@), sep@, i as int),
        decreases pieces@.len() - i,
    {
        if i > 0 {
            out.append(sep);
        }
        out.append(pieces[i].as_str());
        proof {
            assert(views(pieces@)[i as int] == pieces@[i as int]@);
            if i == 0 {
                assert(out@ =~= joined(views(pieces@), sep@, 1));
            }
        }
        i = i + 1;
    }
    out
}

/// Unicode white space.
pub open spec fn is_white(c: char) -> bool {
    let x = c as int;
    ||| 0x9 <= x <= 0xd
    ||| x == 0x20
    ||| x == 0x85
    ||| x == 0xa0
    ||| x == 0x1680
    ||| 0x2000 <= x <= 0x200a
    ||| x == 0x2028
    ||| x == 0x2029
    ||| x == 0x202f
    ||| x == 0x205f
    ||| x == 0x3000
}

fn white(c: char) -> (r: bool)
    ensures
        r == is_white(c),
{
    let x: u32 = c as u32;
    (0x9 <= x && x <= 0xd) || x == 0x20 || x == 0x85 || x == 0xa0 || x == 0x1680 || (0x2000 <= x
        && x <= 0x200a) || x == 0x2028 || x == 0x2029 || x == 0x202f || x == 0x205f || x == 0x3000
}

/// Where the word at `i` stops.
pub open spec fn word_stop(s: Seq<char>, i: int) -> int
    decreases s.len() - i,
{
    if 0 <= i < s.len() && !is_white(s[i]) {
        word_stop(s, i + 1)
    } else {
        i
    }
}

pub proof fn lemma_word_stop(s: Seq<char>, i: int)
    requires
        0 <= i <= s.len(),
    ensures
        i <= word_stop(s, i) <= s.len(),
        i < s.len() && !is_white(s[i]) ==> i < word_stop(s, i),
    decreases s.len() - i,
{
    if i < s.len() && !is_white(s[i]) {
        lemma_word_stop(s, i + 1);
    }
}

/// The words from `i` on, separated by white space.
pub open spec fn words_from(s: Seq<char>, i: int) -> Seq<Seq<char>>
    decreases s.len() - i,
{
    if i < 0 || i >= s.len() {
        Seq::empty()
    } else if is_white(s[i]) {
        words_from(s, i + 1)
    } else {
        let j = word_stop(s, i);
        if j <= i || j > s.len() {
            Seq::empty()
        } else {
            seq![s.subrange(i, j)] + words_from(s, j)
        }
    }
}

/// The words of a text, separated by white space.
pub fn split_words(s: &str) -> (r: Vec<String>)
    ensures
        views(r@) == words_from(s@, 0),
{
    let n: usize = s.unicode_len();
    let mut out: Vec<String> = Vec::new();
    let mut i: usize = 0;
    proof {
        assert(views(out@) + words_from(s@, 0) =~= words_from(s@, 0));
    }
    while i < n
        invariant
            n == s@.len(),
            i <= n,
            views(out@) + words_from(s@, i as int) == words_from(s@, 0),
        decreases n - i,
    {
        if white(s.get_char(i)) {
            i = i + 1;
        } else {
            let mut j: usize = i;
            while j < n && !white(s.get_char(j))
                invariant
                    n == s@.len(),
                    i <= j <= n,
                    word_stop(s@, i as int) == word_stop(s@, j as int),
                decreases n - j,
            {
                j = j + 1;
            }
            proof {
                lemma_word_stop(s@, i as int);
            }
            let w: String = s.substring_char(i, j).to_owned();
            let ghost before = views(out@);
            out.push(w);
            proof {
                assert(views(out@) =~= before.push(s@.subrange(i as int, j as int)));
                assert(views(out@) + words_from(s@, j as int) =~= before + words_from(
                    s@,
                    i as int,
                ));
            }
            i = j;
        }
    }
    assert(views(out@) + words_from(s@, i as int) =~= views(out@));
    out
}

/// The text from `i` on with every `from` replaced by `to`, left to right.
pub open spec fn replaced(s: Seq<char>, from: Seq<char>, to: Seq<char>, i: int) -> Seq<char>
    decreases s.len() - i,
{
    if i < 0 || from.len() == 0 || i + from.len() > s.len() {
        s.skip(i)
    } else if s.subrange(i, i + from.len()) == from {
        to + replaced(s, from, to, i + from.len())
    } else {
        seq![s[i]] + replaced(s, from, to, i + 1)
    }
}

/// Whether `x` stands at character `i`.
fn stands(s: &str, i: usize, x: &str) -> (r: bool)
    requires
        i + x@.len() <= s@.len(),
    ensures
        r == (s@.subrange(i as int, i + x@.len()) == x@),
{
    let n: usize = x.unicode_len();
    let m: usize = s.unicode_len();
    let mut k: usize = 0;
    while k < n
        invariant
            n == x@.len(),
            m == s@.len(),
            i + n <= m,
            k <= n,
            forall|j: int| 0 <= j < k ==> s@[i + j] == #[trigger] x@[j],
        decreases n - k,
    {
        if s.get_char(i + k) != x.get_char(k) {
            proof {
                assert(s@.subrange(i as int, i + x@.len())[k as int] != x@[k as int]);
            }
            return false;
        }
        k = k + 1;
    }
    assert(s@.subrange(i as int, i + x@.len()) =~= x@);
    true
}

/// The text with every `from` replaced by `to`.
pub(crate) fn replace(s: &str, from: &str, to: &str) -> (out: String)
    requires
        from@.len() > 0,
    ensures
        out@ == replaced(s@, from@, to@, 0),
{
    let n: usize = s.unicode_len();
    let m: usize = from.unicode_len();
    let mut out: String = String::new();
    let mut start: usize = 0;
    let mut i: usize = 0;
    proof {
        assert(out@ + s@.subrange(0, 0) + replaced(s@, from@, to@, 0) =~= replaced(
            s@,
            from@,
            to@,
            0,
        ));
    }
    while i <= n && m <= n - i
        invariant
            n == s@.len(),
            m == from@.len(),
            m > 0,
            start <= i <= n,
            out@ + s@.subrange(start as int, i as int) + replaced(s@, from@, to@, i as int)
                == replaced(s@, from@, to@, 0),
        decreases n - i,
    {
        let ghost rest = replaced(s@, from@, to@, i as int);
        let ghost before = out@;
        if stands(s, i, from) {
            out.append(s.substring_char(start, i));
            out.append(to);
            proof {
                let next = replaced(s@, from@, to@, i + m);
                assert(out@ + s@.subrange(i + m, i + m) + next =~= before + s@.subrange(
                    start as int,
                    i as int,
                ) + (to@ + next));
            }
            i = i + m;
            start = i;
        } else {
            proof {
                let next = replaced(s@, from@, to@, i + 1);
                assert(s@.subrange(start as int, i + 1) =~= s@.subrange(
                    start as int,
                    i as int,
                ).push(s@[i as int]));
                assert(out@ + s@.subrange(start as int, i + 1) + next =~= before + s@.subrange(
                    start as int,
                    i as int,
                ) + (seq![s@[i as int]] + next));
            }
            i = i + 1;
        }
    }
    let ghost before = out@;
    out.append(s.substring_char(start, n));
    proof {
        assert(before + s@.subrange(start as int, i as int) + s@.skip(i as int) =~= out@);
    }
    out
}

} // verus!
