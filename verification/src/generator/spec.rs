//! Grammar specifications: atoms, a bracket pair, operators with their binding
//! powers, and a statement grammar around expressions.

use vstd::prelude::*;
use vstd::string::*;

use crate::runtime::table::OperatorClass;

verus! {

#[derive(Debug)]
pub struct Spec {
    pub name: String,
    pub atoms: Atoms,
    pub paren: Paren,
    pub prefix: Vec<Prefix>,
    pub postfix: Vec<Postfix>,
    pub infix: Vec<Infix>,
    /// The statement grammar; if there is none, one of bindings, blocks and
    /// expression statements is used.
    pub host: Option<Host>,
}

/// A statement grammar. Each alternative is a list of words: `'literal'`,
/// `ident`, `expr`, the name of a production, or a name and `*` for any number
/// of it.
#[derive(Debug)]
pub struct Host {
    /// Name of the production of whole programs.
    pub start: String,
    /// Words that are no identifiers. Literals that are words are added.
    pub keywords: Vec<String>,
    pub prods: Vec<HostProd>,
}

#[derive(Debug)]
pub struct HostProd {
    pub name: String,
    pub alts: Vec<String>,
}

#[derive(Debug)]
pub struct Atoms {
    /// Runs of digits are atoms.
    pub int: bool,
    /// Identifiers are atoms.
    pub ident: bool,
}

#[derive(Debug)]
pub struct Paren {
    pub open: String,
    pub close: String,
}

#[derive(Debug)]
pub struct Prefix {
    pub sym: String,
    /// Precedence of the operand.
    pub rbp: u32,
}

#[derive(Debug)]
pub struct Postfix {
    pub sym: String,
    /// Left binding power.
    pub lbp: u32,
}

#[derive(Debug)]
pub struct Infix {
    pub sym: String,
    /// Left binding power.
    pub lbp: u32,
    /// `right` for operators that group to the right; others group to the
    /// left.
    pub assoc: String,
    /// `assoc` for operators whose chains may be regrouped, `strong`, or weak.
    pub class: String,
}

impl Default for Atoms {
    fn default() -> (r: Atoms)
        ensures
            !r.int && !r.ident,
    {
        Atoms { int: false, ident: false }
    }
}

/// The class a word names.
pub open spec fn class_of(word: Seq<char>) -> OperatorClass {
    if word == "assoc"@ || word == "assoc_conflict"@ || word == "associativity_conflict"@ {
        OperatorClass::AssociativityConflict
    } else if word == "strong"@ {
        OperatorClass::Strong
    } else {
        OperatorClass::Weak
    }
}

/// The name of a class.
pub open spec fn class_name(c: OperatorClass) -> Seq<char> {
    match c {
        OperatorClass::AssociativityConflict => "AssociativityConflict"@,
        OperatorClass::Strong => "Strong"@,
        OperatorClass::Weak => "Weak"@,
    }
}

/// Whether two texts are the same.
pub(crate) fn same_text(a: &String, b: &str) -> (r: bool)
    ensures
        r == (a@ == b@),
{
    let c: String = b.to_owned();
    *a == c
}

impl Infix {
    /// Precedence of the right operand: one below the left binding power for
    /// operators that group to the right.
    pub open spec fn right(&self) -> u32 {
        if self.assoc@ == "right"@ && self.lbp > 0 {
            (self.lbp - 1) as u32
        } else {
            self.lbp
        }
    }

    pub fn rbp(&self) -> (r: u32)
        ensures
            r == self.right(),
    {
        if same_text(&self.assoc, "right") {
            self.lbp.saturating_sub(1)
        } else {
            self.lbp
        }
    }

    /// The operator's class.
    pub fn operator_class(&self) -> (r: OperatorClass)
        ensures
            r == class_of(self.class@),
    {
        if same_text(&self.class, "assoc") || same_text(&self.class, "assoc_conflict")
            || same_text(&self.class, "associativity_conflict") {
            OperatorClass::AssociativityConflict
        } else if same_text(&self.class, "strong") {
            OperatorClass::Strong
        } else {
            OperatorClass::Weak
        }
    }

    /// The name of the operator's class.
    pub fn class_variant(&self) -> (r: &'static str)
        ensures
            r@ == class_name(class_of(self.class@)),
    {
        match self.operator_class() {
            OperatorClass::AssociativityConflict => "AssociativityConflict",
            OperatorClass::Strong => "Strong",
            OperatorClass::Weak => "Weak",
        }
    }
}

} // verus!
