//! Named ASCII bytes.

use vstd::prelude::*;

verus! {

pub const PLUS: u8 = 43;

pub const MINUS: u8 = 45;

pub const STAR: u8 = 42;

pub const SLASH: u8 = 47;

pub const PERCENT: u8 = 37;

pub const CARET: u8 = 94;

pub const QUESTION: u8 = 63;

pub const BANG: u8 = 33;

pub const COLON: u8 = 58;

pub const LPAREN: u8 = 40;

pub const RPAREN: u8 = 41;

pub const LBRACKET: u8 = 91;

pub const RBRACKET: u8 = 93;

pub const DOT: u8 = 46;

pub const COMMA: u8 = 44;

pub const AMP: u8 = 38;

pub const PIPE: u8 = 124;

pub const EQUALS: u8 = 61;

pub const LESS: u8 = 60;

pub const GREATER: u8 = 62;

pub const UNDERSCORE: u8 = 95;

pub const LOWER_A: u8 = 97;

pub const LOWER_X: u8 = 120;

pub const LOWER_Z: u8 = 122;

pub const UPPER_A: u8 = 65;

pub const UPPER_Z: u8 = 90;

pub const DIGIT_0: u8 = 48;

pub const DIGIT_9: u8 = 57;

pub const SPACE: u8 = 32;

pub const TAB: u8 = 9;

pub const NEWLINE: u8 = 10;

pub const RETURN: u8 = 13;

pub const QUOTE: u8 = 39;

pub const SEMICOLON: u8 = 59;

pub const LBRACE: u8 = 123;

pub const RBRACE: u8 = 125;

} // verus!
