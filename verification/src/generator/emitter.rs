//! Emitters: checked specifications, and the grammars they stand for.

use vstd::prelude::*;
use vstd::string::*;
use vstd::utf8::*;

use crate::generator::host_model::host_ok;
use crate::generator::resolve::build_host_model;
use crate::generator::spec::Spec;
use crate::generator::symbols::{
    lemma_precedes_total, mentioned, precedes, roles_ok, symbols_of, syms_ok, texts, Sym,
};
use crate::generator::text::{quote, quoted};
use crate::runtime::host_grammar::Grammar;
use crate::runtime::table::{Symbol, Table};

verus! {

/// A specification that has been checked.
#[derive(Debug)]
pub struct Emitter {
    pub spec: Spec,
    /// The symbols in dictionary order.
    pub syms: Vec<Sym>,
    /// The statement grammar.
    pub host: Grammar,
}

/// The first of the first `n` symbols that is both infix and postfix.
pub open spec fn both_fault(v: Seq<Sym>, n: int) -> Option<Seq<char>>
    decreases n,
{
    if n <= 0 {
        None
    } else {
        match both_fault(v, n - 1) {
            Some(x) => Some(x),
            None => if v[n - 1].roles.infix is Some && v[n - 1].roles.postfix_lbp is Some {
                Some(
                    "symbol "@ + quoted(v[n - 1].text@)
                        + " declared as both infix and postfix"@,
                )
            } else {
                None
            },
        }
    }
}

proof fn lemma_both_none(v: Seq<Sym>, n: int)
    requires
        0 <= n <= v.len(),
        both_fault(v, n) is None,
    ensures
        forall|i: int|
            0 <= i < n ==> !((#[trigger] v[i]).roles.infix is Some && v[i].roles.postfix_lbp
                is Some),
    decreases n,
{
    if n > 0 {
        lemma_both_none(v, n - 1);
    }
}

proof fn lemma_both_some(v: Seq<Sym>, m: int, n: int)
    requires
        0 <= m <= n,
        both_fault(v, m) is Some,
    ensures
        both_fault(v, n) == both_fault(v, m),
    decreases n - m,
{
    if m < n {
        lemma_both_some(v, m, n - 1);
    }
}

/// What a specification with symbols `v` comes to: what is wrong with it, or
/// an emitter.
pub open spec fn emitter_of(spec: Spec, v: Seq<Sym>, r: Result<Emitter, String>) -> bool {
    match both_fault(v, v.len() as int) {
        Some(x) => r is Err && r->Err_0@ == x,
        None => if !spec.atoms.int && !spec.atoms.ident {
            r is Err && r->Err_0@
                == "grammar must enable at least one atom kind (int or ident)"@
        } else {
            match r {
                Ok(e) => e.spec == spec && e.syms@ == v && host_ok(spec, v, Ok(e.host)),
                Err(x) => host_ok(spec, v, Err(x)),
            }
        },
    }
}

impl Emitter {
    /// The symbols are those of the specification, none is both infix and
    /// postfix, there are atoms, and the statement grammar is well formed.
    pub open spec fn wf(&self) -> bool {
        &&& syms_ok(self.spec, self.syms@)
        &&& forall|i: int|
            0 <= i < self.syms@.len() ==> !((#[trigger] self.syms@[i]).roles.infix is Some
                && self.syms@[i].roles.postfix_lbp is Some)
        &&& self.spec.atoms.int || self.spec.atoms.ident
        &&& self.host.wf()
    }

    /// Check a specification.
    pub fn new(spec: Spec) -> (r: Result<Emitter, String>)
        requires
            spec.host matches Some(h) ==> h.prods@.len() < usize::MAX,
        ensures
            exists|v: Seq<Sym>| syms_ok(spec, v) && #[trigger] emitter_of(spec, v, r),
            r matches Ok(e) ==> e.wf(),
    {
        let syms: Vec<Sym> = symbols_of(&spec);
        let n: usize = syms.len();
        let ghost v = syms@;
        let mut i: usize = 0;
        while i < n
            invariant
                n == syms@.len(),
                v == syms@,
                i <= n,
                syms_ok(spec, v),
                both_fault(v, i as int) is None,
            decreases n - i,
        {
            let r = &syms[i].roles;
            if r.infix.is_some() && r.postfix_lbp.is_some() {
                let mut x: String = "symbol ".to_owned();
                let q: String = quote(syms[i].text.as_str());
                x.append(q.as_str());
                x.append(" declared as both infix and postfix");
                proof {
                    lemma_both_some(v, i + 1, n as int);
                    assert(emitter_of(spec, v, Err::<Emitter, String>(x)));
                }
                return Err(x);
            }
            i = i + 1;
        }
        proof {
            lemma_both_none(v, n as int);
        }
        if !spec.atoms.int && !spec.atoms.ident {
            let x: String = "grammar must enable at least one atom kind (int or ident)".to_owned();
            assert(emitter_of(spec, v, Err::<Emitter, String>(x)));
            return Err(x);
        }
        match build_host_model(&spec, &syms) {
            Ok(host) => {
                let e = Emitter { spec, syms, host };
                assert(emitter_of(spec, v, Ok::<Emitter, String>(e)));
                Ok(e)
            },
            Err(x) => {
                assert(emitter_of(spec, v, Err::<Emitter, String>(x)));
                Err(x)
            },
        }
    }

    /// Every symbol is a single byte.
    pub fn all_single_byte(&self) -> (r: bool)
        ensures
            r == (forall|i: int|
                0 <= i < self.syms@.len() ==> encode_utf8((#[trigger] self.syms@[i]).text@).len()
                    == 1),
    {
        let mut i: usize = 0;
        while i < self.syms.len()
            invariant
                i <= self.syms@.len(),
                forall|k: int|
                    0 <= k < i ==> encode_utf8((#[trigger] self.syms@[k]).text@).len() == 1,
            decreases self.syms@.len() - i,
        {
            if self.syms[i].text.as_str().as_bytes().len() != 1 {
                return false;
            }
            i = i + 1;
        }
        true
    }

    /// A symbol of the grammar, with the roles the specification gives it.
    pub open spec fn symbol_ok(&self, i: int, s: Symbol) -> bool {
        &&& s.name@ == self.syms@[i].text@
        &&& s.text@ == encode_utf8(self.syms@[i].text@)
        &&& s.prefix == self.syms@[i].roles.prefix_rbp
        &&& s.postfix == self.syms@[i].roles.postfix_lbp
        &&& s.infix == self.syms@[i].roles.infix
    }

    /// The expression grammar.
    pub fn table(&self) -> (t: Table)
        requires
            self.wf(),
            self.syms@.len() <= u32::MAX,
            !mentioned(self.spec, Seq::empty()),
        ensures
            t.wf(),
            t.syms@.len() == self.syms@.len(),
            forall|i: int|
                0 <= i < t.syms@.len() ==> self.symbol_ok(i, #[trigger] t.syms@[i]),
            t.int == self.spec.atoms.int,
            t.ident == self.spec.atoms.ident,
            t.syms@[t.open as int].name@ == self.spec.paren.open@,
            t.syms@[t.close as int].name@ == self.spec.paren.close@,
    {
        let n: usize = self.syms.len();
        let mut syms: Vec<Symbol> = Vec::new();
        let mut open: u32 = 0;
        let mut close: u32 = 0;
        let mut i: usize = 0;
        proof {
            assert(mentioned(self.spec, self.spec.paren.open@));
            assert(mentioned(self.spec, self.spec.paren.close@));
            assert(texts(self.syms@).contains(self.spec.paren.open@));
            assert(texts(self.syms@).contains(self.spec.paren.close@));
        }
        let ghost o = choose|k: int|
            0 <= k < self.syms@.len() && texts(self.syms@)[k] == self.spec.paren.open@;
        let ghost c = choose|k: int|
            0 <= k < self.syms@.len() && texts(self.syms@)[k] == self.spec.paren.close@;
        while i < n
            invariant
                n == self.syms@.len(),
                n <= u32::MAX,
                i <= n,
                self.wf(),
                syms@.len() == i,
                forall|k: int| 0 <= k < i ==> self.symbol_ok(k, #[trigger] syms@[k]),
                0 <= o < n,
                0 <= c < n,
                texts(self.syms@)[o] == self.spec.paren.open@,
                texts(self.syms@)[c] == self.spec.paren.close@,
                o < i ==> open < i && syms@[open as int].name@ == self.spec.paren.open@,
                c < i ==> close < i && syms@[close as int].name@ == self.spec.paren.close@,
                i == 0 ==> open == 0 && close == 0,
                open < i || open == 0,
                close < i || close == 0,
            decreases n - i,
        {
            let s = &self.syms[i];
            assert(roles_ok(self.spec, self.syms@[i as int].text@, self.syms@[i as int].roles));
            let sym = Symbol {
                name: s.text.clone(),
                text: bytes_vec(s.text.as_str()),
                prefix: s.roles.prefix_rbp,
                postfix: s.roles.postfix_lbp,
                infix: s.roles.infix,
            };
            syms.push(sym);
            if s.roles.open_paren {
                open = i as u32;
            }
            if s.roles.close_paren {
                close = i as u32;
            }
            i = i + 1;
        }
        let t = Table {
            syms,
            int: self.spec.atoms.int,
            ident: self.spec.atoms.ident,
            open,
            close,
        };
        proof {
            assert forall|i: int| 0 <= i < t.syms@.len() implies (#[trigger] t.syms@[i]).text@.len()
                > 0 && t.syms@[i].text@ == encode_utf8(t.syms@[i].name@) by {
                assert(self.symbol_ok(i, t.syms@[i]));
                assert(texts(self.syms@)[i] == self.syms@[i].text@);
                assert(texts(self.syms@).contains(self.syms@[i].text@));
                if self.syms@[i].text@.len() == 0 {
                    assert(self.syms@[i].text@ =~= Seq::empty());
                }
            }
            assert forall|i: int, j: int| 0 <= i < j < t.syms@.len() implies (
            #[trigger] t.syms@[i]).text@ != (#[trigger] t.syms@[j]).text@ by {
                assert(self.symbol_ok(i, t.syms@[i]) && self.symbol_ok(j, t.syms@[j]));
                let (a, b) = (self.syms@[i].text@, self.syms@[j].text@);
                assert(texts(self.syms@)[i] == a && texts(self.syms@)[j] == b);
                assert(precedes(a, b));
                lemma_precedes_total(a, a);
                encode_utf8_decode_utf8(a);
                encode_utf8_decode_utf8(b);
            }
            assert forall|i: int| 0 <= i < t.syms@.len() implies !((
            #[trigger] t.syms@[i]).infix is Some && t.syms@[i].postfix is Some) by {
                assert(self.symbol_ok(i, t.syms@[i]));
            }
        }
        t
    }
}

/// The bytes of a text.
fn bytes_vec(s: &str) -> (r: Vec<u8>)
    ensures
        r@ == encode_utf8(s@),
{
    let b = s.as_bytes();
    let mut out: Vec<u8> = Vec::new();
    let mut i: usize = 0;
    while i < b.len()
        invariant
            i <= b@.len(),
            out@ == b@.take(i as int),
        decreases b@.len() - i,
    {
        out.push(b[i]);
        assert(b@.take(i + 1) =~= b@.take(i as int).push(b@[i as int]));
        i = i + 1;
    }
    assert(b@.take(i as int) =~= b@);
    out
}

} // verus!
