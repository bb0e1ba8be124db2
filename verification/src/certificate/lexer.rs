//! Lexer of the calculator grammar: every token is one byte.

use vstd::prelude::*;

use crate::ascii::{
    BANG, CARET, DIGIT_0, DIGIT_9, LPAREN, MINUS, NEWLINE, PLUS, RPAREN, SLASH, SPACE, STAR, TAB,
};

verus! {

pub type ByteIndex = usize;

/// The binding power of what is no operator.
pub const BP_NEG_INFINITY_I32: i32 = i32::MIN;

#[derive(Debug, Clone, Copy, PartialEq, Eq, Structural)]
pub enum Token {
    /// A decimal digit.
    Int(u8),
    Plus,
    Minus,
    Times,
    Divide,
    Pow,
    Fact,
    LParen,
    RParen,
    /// End of input.
    Eof,
}

/// Left binding power of an operator.
pub open spec fn left_power(t: Token) -> Option<i32> {
    match t {
        Token::Plus | Token::Minus => Some(10),
        Token::Times | Token::Divide => Some(20),
        Token::Pow => Some(30),
        Token::Fact => Some(40),
        _ => None,
    }
}

/// Right binding power of an operator with a right operand.
pub open spec fn right_power(t: Token) -> Option<i32> {
    match t {
        Token::Plus | Token::Minus => Some(10),
        Token::Times | Token::Divide => Some(20),
        Token::Pow => Some(29),
        _ => None,
    }
}

impl Token {
    /// Left binding power; `None` of what is no operator.
    pub fn lbp(self) -> (r: Option<i32>)
        ensures
            r == left_power(self),
    {
        match self {
            Token::Plus | Token::Minus => Some(10),
            Token::Times | Token::Divide => Some(20),
            Token::Pow => Some(30),
            Token::Fact => Some(40),
            _ => None,
        }
    }

    /// Right binding power; `^` groups to the right.
    pub fn rbp(self) -> (r: Option<i32>)
        ensures
            r == right_power(self),
    {
        match self {
            Token::Plus | Token::Minus => Some(10),
            Token::Times | Token::Divide => Some(20),
            Token::Pow => Some(29),
            _ => None,
        }
    }
}

/// Bytes between tokens.
pub open spec fn is_blank(b: u8) -> bool {
    b == SPACE || b == TAB || b == NEWLINE
}

/// The token a byte is.
pub open spec fn token_of(b: u8) -> Option<Token> {
    if DIGIT_0 <= b <= DIGIT_9 {
        Some(Token::Int((b - DIGIT_0) as u8))
    } else if b == PLUS {
        Some(Token::Plus)
    } else if b == MINUS {
        Some(Token::Minus)
    } else if b == STAR {
        Some(Token::Times)
    } else if b == SLASH {
        Some(Token::Divide)
    } else if b == CARET {
        Some(Token::Pow)
    } else if b == BANG {
        Some(Token::Fact)
    } else if b == LPAREN {
        Some(Token::LParen)
    } else if b == RPAREN {
        Some(Token::RParen)
    } else {
        None
    }
}

fn read_token(b: u8) -> (r: Option<Token>)
    ensures
        r == token_of(b),
{
    if DIGIT_0 <= b && b <= DIGIT_9 {
        Some(Token::Int(b - DIGIT_0))
    } else if b == PLUS {
        Some(Token::Plus)
    } else if b == MINUS {
        Some(Token::Minus)
    } else if b == STAR {
        Some(Token::Times)
    } else if b == SLASH {
        Some(Token::Divide)
    } else if b == CARET {
        Some(Token::Pow)
    } else if b == BANG {
        Some(Token::Fact)
    } else if b == LPAREN {
        Some(Token::LParen)
    } else if b == RPAREN {
        Some(Token::RParen)
    } else {
        None
    }
}

/// Binding power of the token a byte is, as an infix or postfix operator.
pub open spec fn lbp_of_byte_logic(b: u8) -> int {
    if b == PLUS || b == MINUS {
        10
    } else if b == STAR || b == SLASH {
        20
    } else if b == CARET {
        30
    } else if b == BANG {
        40
    } else {
        i32::MIN as int
    }
}

/// Binding power of the first token at or after `pos`.
pub open spec fn next_token_lbp_logic(src: Seq<u8>, pos: int) -> int
    decreases src.len() - pos,
{
    if pos < 0 || pos >= src.len() {
        i32::MIN as int
    } else if is_blank(src[pos]) {
        next_token_lbp_logic(src, pos + 1)
    } else {
        lbp_of_byte_logic(src[pos])
    }
}

/// Binding power of the first token at or after `pos`.
pub fn next_token_lbp(src: &[u8], pos: usize) -> (r: i32)
    ensures
        r == next_token_lbp_logic(src@, pos as int),
{
    let mut i: usize = pos;
    while i < src.len()
        invariant
            next_token_lbp_logic(src@, pos as int) == next_token_lbp_logic(src@, i as int),
        decreases src@.len() - i,
    {
        let b: u8 = src[i];
        if b == SPACE || b == TAB || b == NEWLINE {
            i = i + 1;
        } else if b == PLUS || b == MINUS {
            return 10;
        } else if b == STAR || b == SLASH {
            return 20;
        } else if b == CARET {
            return 30;
        } else if b == BANG {
            return 40;
        } else {
            return BP_NEG_INFINITY_I32;
        }
    }
    BP_NEG_INFINITY_I32
}

/// The tokens from byte `i` on, each with its position, up to the end of input
/// or the first byte that is no token; then `Eof`.
pub open spec fn lexed(b: Seq<u8>, i: int) -> Seq<(Token, ByteIndex)>
    decreases b.len() - i,
{
    if 0 <= i < b.len() {
        if is_blank(b[i]) {
            lexed(b, i + 1)
        } else {
            match token_of(b[i]) {
                Some(t) => seq![(t, i as usize)] + lexed(b, i + 1),
                None => seq![(Token::Eof, i as usize)],
            }
        }
    } else {
        seq![(Token::Eof, i as usize)]
    }
}

/// Split `input` into tokens with their positions, ending in `Eof`.
pub fn lex(input: &[u8]) -> (r: Vec<(Token, ByteIndex)>)
    ensures
        r@ == lexed(input@, 0),
{
    let mut out: Vec<(Token, ByteIndex)> = Vec::new();
    let mut i: usize = 0;
    while i < input.len()
        invariant_except_break
            out@ + lexed(input@, i as int) == lexed(input@, 0),
        invariant
            i <= input@.len(),
        ensures
            out@.push((Token::Eof, i)) == lexed(input@, 0),
        decreases input@.len() - i,
    {
        let b: u8 = input[i];
        if b == SPACE || b == TAB || b == NEWLINE {
            i = i + 1;
            continue ;
        }
        match read_token(b) {
            Some(t) => {
                proof {
                    assert(out@.push((t, i)) + lexed(input@, i + 1) =~= out@ + lexed(
                        input@,
                        i as int,
                    ));
                }
                out.push((t, i));
                i = i + 1;
            },
            None => {
                assert(out@.push((Token::Eof, i)) =~= out@ + lexed(input@, i as int));
                break ;
            },
        }
    }
    out.push((Token::Eof, i));
    out
}

/// Tokens in order: `Eof` comes last and only there, and every token starts
/// after the one before it.
pub open spec fn ordered(ts: Seq<(Token, ByteIndex)>) -> bool {
    &&& ts.len() > 0
    &&& ts.last().0 is Eof
    &&& forall|i: int| 0 <= i < ts.len() - 1 ==> !((#[trigger] ts[i]).0 is Eof)
    &&& forall|i: int, j: int| 0 <= i < j < ts.len() ==> (#[trigger] ts[i]).1 < (#[trigger] ts[j]).1
}

proof fn lemma_lexed(b: Seq<u8>, i: int)
    requires
        0 <= i <= b.len() <= usize::MAX,
    ensures
        ordered(lexed(b, i)),
        forall|k: int| 0 <= k < lexed(b, i).len() ==> i <= (#[trigger] lexed(b, i)[k]).1 <= b.len(),
    decreases b.len() - i,
{
    if i < b.len() {
        lemma_lexed(b, i + 1);
        if !is_blank(b[i]) && token_of(b[i]) is Some {
            let rest = lexed(b, i + 1);
            let all = lexed(b, i);
            assert(all == seq![(token_of(b[i])->0, i as usize)] + rest);
            assert forall|k: int| 0 <= k < all.len() implies i <= (#[trigger] all[k]).1 <= b.len() by {
                if k > 0 {
                    assert(all[k] == rest[k - 1]);
                }
            }
            assert forall|k: int| 0 <= k < all.len() - 1 implies !((#[trigger] all[k]).0 is Eof) by {
                if k > 0 {
                    assert(all[k] == rest[k - 1]);
                }
            }
            assert forall|p: int, q: int| 0 <= p < q < all.len() implies (#[trigger] all[p]).1 < (
            #[trigger] all[q]).1 by {
                assert(all[q] == rest[q - 1]);
                if p > 0 {
                    assert(all[p] == rest[p - 1]);
                }
            }
            assert(all.last() == rest.last());
        }
    }
}

/// Tokens come in order.
pub proof fn law_tokens_ordered(b: Seq<u8>)
    requires
        b.len() <= usize::MAX,
    ensures
        ordered(lexed(b, 0)),
        forall|k: int| 0 <= k < lexed(b, 0).len() ==> (#[trigger] lexed(b, 0)[k]).1 <= b.len(),
{
    lemma_lexed(b, 0);
}

} // verus!
