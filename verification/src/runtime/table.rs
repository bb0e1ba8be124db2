//! Grammar tables: the symbols of an expression grammar and their roles.

use vstd::prelude::*;
use vstd::string::*;
use vstd::utf8::*;

verus! {

/// Precedence of a whole expression.
pub const MIN_PREC: u32 = 0;

/// Binding power of what is no operator.
pub const LBP_NONE: u32 = 0;

/// How equal operators next to each other group.
#[derive(Debug, Clone, Copy, PartialEq, Eq, Structural)]
pub enum OperatorClass {
    Strong,
    Weak,
    AssociativityConflict,
}

/// An infix operator's binding powers and class.
#[derive(Debug, Clone, Copy, PartialEq, Eq, Structural)]
pub struct InfixRole {
    pub lbp: u32,
    pub rbp: u32,
    pub class: OperatorClass,
}

/// A symbol: its spelling and the roles it plays.
#[derive(Debug)]
pub struct Symbol {
    pub name: String,
    /// The name in UTF-8.
    pub text: Vec<u8>,
    pub prefix: Option<u32>,
    pub postfix: Option<u32>,
    pub infix: Option<InfixRole>,
}

/// An expression grammar.
#[derive(Debug)]
pub struct Table {
    pub syms: Vec<Symbol>,
    /// Runs of digits are atoms.
    pub int: bool,
    /// Identifiers are atoms.
    pub ident: bool,
    /// The symbol that opens a group.
    pub open: u32,
    /// The symbol that closes one.
    pub close: u32,
}

#[derive(Debug, Clone, Copy, PartialEq, Eq, Structural)]
pub enum TokenKind {
    Int,
    Ident,
    /// A symbol of the table.
    Sym(u32),
    Eof,
}

/// A token and the bytes it spans.
#[derive(Debug, Clone, Copy, PartialEq, Eq, Structural)]
pub struct Token {
    pub kind: TokenKind,
    pub start: u32,
    pub end: u32,
}

impl Table {
    /// Symbols are distinct and not empty, and no symbol is both infix and
    /// postfix.
    pub open spec fn wf(&self) -> bool {
        &&& self.syms@.len() <= u32::MAX
        &&& self.open < self.syms@.len()
        &&& self.close < self.syms@.len()
        &&& forall|i: int|
            0 <= i < self.syms@.len() ==> (#[trigger] self.syms@[i]).text@.len() > 0
                && self.syms@[i].text@ == encode_utf8(self.syms@[i].name@)
        &&& forall|i: int, j: int|
            0 <= i < j < self.syms@.len() ==> (#[trigger] self.syms@[i]).text@ != (
            #[trigger] self.syms@[j]).text@
        &&& forall|i: int|
            0 <= i < self.syms@.len() ==> !((#[trigger] self.syms@[i]).infix is Some
                && self.syms@[i].postfix is Some)
    }

    /// The symbol a kind names.
    pub open spec fn symbol(&self, k: TokenKind) -> Option<Symbol> {
        match k {
            TokenKind::Sym(i) => if i < self.syms@.len() {
                Some(self.syms@[i as int])
            } else {
                None
            },
            _ => None,
        }
    }

    /// The infix role of a kind.
    pub open spec fn infix_of(&self, k: TokenKind) -> Option<InfixRole> {
        match self.symbol(k) {
            Some(s) => s.infix,
            None => None,
        }
    }

    /// The postfix binding power of a kind.
    pub open spec fn postfix_of(&self, k: TokenKind) -> Option<u32> {
        match self.symbol(k) {
            Some(s) => s.postfix,
            None => None,
        }
    }

    /// The prefix binding power of a kind.
    pub open spec fn prefix_of(&self, k: TokenKind) -> Option<u32> {
        match self.symbol(k) {
            Some(s) => s.prefix,
            None => None,
        }
    }

    /// Left binding power of an infix or postfix operator; 0 otherwise.
    pub open spec fn left_power(&self, k: TokenKind) -> u32 {
        match self.infix_of(k) {
            Some(r) => r.lbp,
            None => match self.postfix_of(k) {
                Some(l) => l,
                None => LBP_NONE,
            },
        }
    }

    /// Precedence of an infix operator's right operand.
    pub open spec fn right_power(&self, k: TokenKind) -> u32 {
        match self.infix_of(k) {
            Some(r) => r.rbp,
            None => self.left_power(k),
        }
    }

    pub open spec fn class_of(&self, k: TokenKind) -> OperatorClass {
        match self.infix_of(k) {
            Some(r) => r.class,
            None => OperatorClass::Strong,
        }
    }

    /// Chains of the operator may be regrouped.
    pub open spec fn regroups(&self, k: TokenKind) -> bool {
        self.class_of(k) is AssociativityConflict
    }

    pub open spec fn atom(&self, k: TokenKind) -> bool {
        (k is Int && self.int) || (k is Ident && self.ident)
    }

    /// How a kind is written.
    pub open spec fn kind_text(&self, k: TokenKind) -> Seq<char> {
        match k {
            TokenKind::Int => "<int>"@,
            TokenKind::Ident => "<id>"@,
            TokenKind::Eof => "<eof>"@,
            TokenKind::Sym(i) => if i < self.syms@.len() {
                self.syms@[i as int].name@
            } else {
                Seq::empty()
            },
        }
    }

    pub fn token_text(&self, k: TokenKind) -> (r: &str)
        ensures
            r@ == self.kind_text(k),
    {
        match k {
            TokenKind::Int => "<int>",
            TokenKind::Ident => "<id>",
            TokenKind::Eof => "<eof>",
            TokenKind::Sym(i) => if (i as usize) < self.syms.len() {
                self.syms[i as usize].name.as_str()
            } else {
                proof {
                    reveal_strlit("");
                }
                ""
            },
        }
    }

    fn infix(&self, k: TokenKind) -> (r: Option<InfixRole>)
        ensures
            r == self.infix_of(k),
    {
        match k {
            TokenKind::Sym(i) => if (i as usize) < self.syms.len() {
                self.syms[i as usize].infix
            } else {
                None
            },
            _ => None,
        }
    }

    fn postfix(&self, k: TokenKind) -> (r: Option<u32>)
        ensures
            r == self.postfix_of(k),
    {
        match k {
            TokenKind::Sym(i) => if (i as usize) < self.syms.len() {
                self.syms[i as usize].postfix
            } else {
                None
            },
            _ => None,
        }
    }

    fn prefix(&self, k: TokenKind) -> (r: Option<u32>)
        ensures
            r == self.prefix_of(k),
    {
        match k {
            TokenKind::Sym(i) => if (i as usize) < self.syms.len() {
                self.syms[i as usize].prefix
            } else {
                None
            },
            _ => None,
        }
    }

    pub fn lbp(&self, k: TokenKind) -> (r: u32)
        ensures
            r == self.left_power(k),
    {
        match self.infix(k) {
            Some(r) => r.lbp,
            None => match self.postfix(k) {
                Some(l) => l,
                None => LBP_NONE,
            },
        }
    }

    pub fn rbp(&self, k: TokenKind) -> (r: u32)
        ensures
            r == self.right_power(k),
    {
        match self.infix(k) {
            Some(r) => r.rbp,
            None => self.lbp(k),
        }
    }

    /// Precedence of a prefix operator's operand.
    pub fn prefix_rbp(&self, k: TokenKind) -> (r: u32)
        ensures
            r == (match self.prefix_of(k) {
                Some(p) => p,
                None => 0,
            }),
    {
        match self.prefix(k) {
            Some(p) => p,
            None => 0,
        }
    }

    pub fn operator_class(&self, k: TokenKind) -> (r: OperatorClass)
        ensures
            r == self.class_of(k),
    {
        match self.infix(k) {
            Some(r) => r.class,
            None => OperatorClass::Strong,
        }
    }

    pub fn is_atom(&self, k: TokenKind) -> (r: bool)
        ensures
            r == self.atom(k),
    {
        (k == TokenKind::Int && self.int) || (k == TokenKind::Ident && self.ident)
    }

    pub fn is_prefix_op(&self, k: TokenKind) -> (r: bool)
        ensures
            r == (self.prefix_of(k) is Some),
    {
        self.prefix(k).is_some()
    }

    pub fn is_postfix_op(&self, k: TokenKind) -> (r: bool)
        ensures
            r == (self.postfix_of(k) is Some),
    {
        self.postfix(k).is_some()
    }

    pub fn is_open_paren(&self, k: TokenKind) -> (r: bool)
        ensures
            r == (k == TokenKind::Sym(self.open)),
    {
        k == TokenKind::Sym(self.open)
    }

    pub fn close_paren_kind(&self) -> (r: TokenKind)
        ensures
            r == TokenKind::Sym(self.close),
    {
        TokenKind::Sym(self.close)
    }

    pub fn is_associativity_conflict(&self, k: TokenKind) -> (r: bool)
        ensures
            r == self.regroups(k),
    {
        self.operator_class(k) == OperatorClass::AssociativityConflict
    }
}

} // verus!
