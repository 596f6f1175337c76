//! A closed sum over the concrete constraint kinds, so that one
//! intersection can mix them.

use vstd::prelude::*;

use crate::bits::ByteBitset;
use crate::column::ColumnConstraint;
use crate::constantconstraint::ConstantConstraint;
use crate::hashtriblesetconstraint::HashTribleSetConstraint;
use crate::query::{Binding, Constraint};
use crate::triblesetconstraint::TribleSetConstraint;

verus! {

/// One constraint of any kind.
pub enum AnyConstraint<'a> {
    Constant(ConstantConstraint),
    Triple(TribleSetConstraint<'a>),
    HashTriple(HashTribleSetConstraint<'a>),
    Column(ColumnConstraint<'a>),
}

impl<'a> AnyConstraint<'a> {
    /// Every kind mentions finitely many variables.
    pub proof fn lemma_vars_finite(&self)
        ensures
            self.vars().finite(),
    {
        match self {
            AnyConstraint::Constant(c) => assert(c.vars().finite()),
            AnyConstraint::Triple(c) => assert(c.vars().finite()),
            AnyConstraint::HashTriple(c) => assert(c.vars().finite()),
            AnyConstraint::Column(c) => assert(c.vars().finite()),
        }
    }
}

impl<'a> Constraint for AnyConstraint<'a> {
    open spec fn vars(&self) -> Set<u8> {
        match self {
            AnyConstraint::Constant(c) => c.vars(),
            AnyConstraint::Triple(c) => c.vars(),
            AnyConstraint::HashTriple(c) => c.vars(),
            AnyConstraint::Column(c) => c.vars(),
        }
    }

    open spec fn ok(&self, m: Map<u8, Seq<u8>>) -> bool {
        match self {
            AnyConstraint::Constant(c) => c.ok(m),
            AnyConstraint::Triple(c) => c.ok(m),
            AnyConstraint::HashTriple(c) => c.ok(m),
            AnyConstraint::Column(c) => c.ok(m),
        }
    }

    open spec fn wf(&self) -> bool {
        match self {
            AnyConstraint::Constant(c) => c.wf(),
            AnyConstraint::Triple(c) => c.wf(),
            AnyConstraint::HashTriple(c) => c.wf(),
            AnyConstraint::Column(c) => c.wf(),
        }
    }

    open spec fn partial_ok(&self, b: Map<u8, Seq<u8>>) -> bool {
        match self {
            AnyConstraint::Constant(c) => c.partial_ok(b),
            AnyConstraint::Triple(c) => c.partial_ok(b),
            AnyConstraint::HashTriple(c) => c.partial_ok(b),
            AnyConstraint::Column(c) => c.partial_ok(b),
        }
    }

    open spec fn est(&self, b: Map<u8, Seq<u8>>, variable: u8) -> int {
        match self {
            AnyConstraint::Constant(c) => c.est(b, variable),
            AnyConstraint::Triple(c) => c.est(b, variable),
            AnyConstraint::HashTriple(c) => c.est(b, variable),
            AnyConstraint::Column(c) => c.est(b, variable),
        }
    }

    proof fn lemma_partial_empty(&self, b: Map<u8, Seq<u8>>) {
        match self {
            AnyConstraint::Constant(c) => c.lemma_partial_empty(b),
            AnyConstraint::Triple(c) => c.lemma_partial_empty(b),
            AnyConstraint::HashTriple(c) => c.lemma_partial_empty(b),
            AnyConstraint::Column(c) => c.lemma_partial_empty(b),
        }
    }

    proof fn lemma_partial_insensitive(&self, b: Map<u8, Seq<u8>>, variable: u8, val: Seq<u8>) {
        match self {
            AnyConstraint::Constant(c) => c.lemma_partial_insensitive(b, variable, val),
            AnyConstraint::Triple(c) => c.lemma_partial_insensitive(b, variable, val),
            AnyConstraint::HashTriple(c) => c.lemma_partial_insensitive(b, variable, val),
            AnyConstraint::Column(c) => c.lemma_partial_insensitive(b, variable, val),
        }
    }

    proof fn lemma_partial_total(&self, b: Map<u8, Seq<u8>>) {
        match self {
            AnyConstraint::Constant(c) => {
                c.lemma_partial_total(b);
                let m = choose|m: Map<u8, Seq<u8>>|
                    #[trigger] c.ok(m) && m.dom() == c.vars() && (forall|v: u8|
                        c.vars().contains(v) ==> m[v] == b[v]);
                assert(self.ok(m) && m.dom() == self.vars() && (forall|v: u8|
                    self.vars().contains(v) ==> m[v] == b[v]));
            },
            AnyConstraint::Triple(c) => {
                c.lemma_partial_total(b);
                let m = choose|m: Map<u8, Seq<u8>>|
                    #[trigger] c.ok(m) && m.dom() == c.vars() && (forall|v: u8|
                        c.vars().contains(v) ==> m[v] == b[v]);
                assert(self.ok(m) && m.dom() == self.vars() && (forall|v: u8|
                    self.vars().contains(v) ==> m[v] == b[v]));
            },
            AnyConstraint::HashTriple(c) => {
                c.lemma_partial_total(b);
                let m = choose|m: Map<u8, Seq<u8>>|
                    #[trigger] c.ok(m) && m.dom() == c.vars() && (forall|v: u8|
                        c.vars().contains(v) ==> m[v] == b[v]);
                assert(self.ok(m) && m.dom() == self.vars() && (forall|v: u8|
                    self.vars().contains(v) ==> m[v] == b[v]));
            },
            AnyConstraint::Column(c) => {
                c.lemma_partial_total(b);
                let m = choose|m: Map<u8, Seq<u8>>|
                    #[trigger] c.ok(m) && m.dom() == c.vars() && (forall|v: u8|
                        c.vars().contains(v) ==> m[v] == b[v]);
                assert(self.ok(m) && m.dom() == self.vars() && (forall|v: u8|
                    self.vars().contains(v) ==> m[v] == b[v]));
            },
        }
    }

    fn variables(&self) -> (r: ByteBitset) {
        match self {
            AnyConstraint::Constant(c) => c.variables(),
            AnyConstraint::Triple(c) => c.variables(),
            AnyConstraint::HashTriple(c) => c.variables(),
            AnyConstraint::Column(c) => c.variables(),
        }
    }

    fn estimate(&self, variable: u8, binding: &Binding) -> (r: usize) {
        match self {
            AnyConstraint::Constant(c) => c.estimate(variable, binding),
            AnyConstraint::Triple(c) => c.estimate(variable, binding),
            AnyConstraint::HashTriple(c) => c.estimate(variable, binding),
            AnyConstraint::Column(c) => c.estimate(variable, binding),
        }
    }

    fn propose(&self, variable: u8, binding: &Binding) -> (r: Vec<Vec<u8>>) {
        match self {
            AnyConstraint::Constant(c) => c.propose(variable, binding),
            AnyConstraint::Triple(c) => c.propose(variable, binding),
            AnyConstraint::HashTriple(c) => c.propose(variable, binding),
            AnyConstraint::Column(c) => c.propose(variable, binding),
        }
    }

    fn confirm(&self, variable: u8, binding: &Binding, proposals: &mut Vec<Vec<u8>>) {
        match self {
            AnyConstraint::Constant(c) => c.confirm(variable, binding, proposals),
            AnyConstraint::Triple(c) => c.confirm(variable, binding, proposals),
            AnyConstraint::HashTriple(c) => c.confirm(variable, binding, proposals),
            AnyConstraint::Column(c) => c.confirm(variable, binding, proposals),
        }
    }
}

} // verus!
