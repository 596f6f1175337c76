//! A constraint that pins one variable to one constant value.

use vstd::prelude::*;

use crate::bits::ByteBitset;
use crate::keys::bytes_eq;
use crate::query::{contains_val, Binding, Constraint};

verus! {

/// Admits exactly the assignment that binds its variable to its constant.
pub struct ConstantConstraint {
    pub variable: u8,
    pub constant: Vec<u8>,
}

impl ConstantConstraint {
    pub fn new(variable: u8, constant: Vec<u8>) -> (r: ConstantConstraint)
        requires
            constant@.len() == 32,
        ensures
            r.variable == variable,
            r.constant@ == constant@,
            r.wf(),
    {
        ConstantConstraint { variable, constant }
    }
}

impl Constraint for ConstantConstraint {
    open spec fn vars(&self) -> Set<u8> {
        Set::empty().insert(self.variable)
    }

    open spec fn ok(&self, m: Map<u8, Seq<u8>>) -> bool {
        m[self.variable] == self.constant@
    }

    open spec fn wf(&self) -> bool {
        self.constant@.len() == 32
    }

    open spec fn partial_ok(&self, b: Map<u8, Seq<u8>>) -> bool {
        b.dom().contains(self.variable) ==> b[self.variable] == self.constant@
    }

    open spec fn est(&self, b: Map<u8, Seq<u8>>, variable: u8) -> int {
        1
    }

    proof fn lemma_partial_empty(&self, b: Map<u8, Seq<u8>>) {
    }

    proof fn lemma_partial_insensitive(&self, b: Map<u8, Seq<u8>>, variable: u8, val: Seq<u8>) {
    }

    proof fn lemma_partial_total(&self, b: Map<u8, Seq<u8>>) {
        let m = Map::<u8, Seq<u8>>::empty().insert(self.variable, self.constant@);
        assert(m.dom() =~= self.vars());
        assert(self.ok(m));
        assert(self.vars().contains(self.variable));
        assert(b[self.variable] == self.constant@);
    }

    fn variables(&self) -> (r: ByteBitset) {
        let r = ByteBitset::new_singleton(self.variable);
        proof {
            assert(r@ =~= self.vars());
        }
        r
    }

    fn estimate(&self, variable: u8, binding: &Binding) -> (r: usize)
        ensures
            r == 1,
    {
        1
    }

    fn propose(&self, variable: u8, binding: &Binding) -> (r: Vec<Vec<u8>>)
        ensures
            r@.len() == 1,
            r@[0]@ == self.constant@,
    {
        let mut r: Vec<Vec<u8>> = Vec::new();
        r.push(self.constant.clone());
        proof {
            assert forall|val: Seq<u8>|
                (exists|m: Map<u8, Seq<u8>>|
                    #[trigger] self.ok(m) && m.dom() == self.vars() && (forall|v: u8|
                        self.vars().contains(v) && binding@.dom().contains(v) ==> m[v] == binding@[v])
                        && m[variable] == val) implies contains_val(r@, val) by {
                let m = choose|m: Map<u8, Seq<u8>>|
                    #[trigger] self.ok(m) && m.dom() == self.vars() && (forall|v: u8|
                        self.vars().contains(v) && binding@.dom().contains(v) ==> m[v] == binding@[v])
                        && m[variable] == val;
                assert(variable == self.variable);
                assert(val == self.constant@);
                assert(r@[0]@ == val);
            }
        }
        r
    }

    fn confirm(&self, variable: u8, binding: &Binding, proposals: &mut Vec<Vec<u8>>)
        ensures
            forall|val: Seq<u8>|
                #![trigger contains_val(final(proposals)@, val)]
                contains_val(final(proposals)@, val) == (contains_val(old(proposals)@, val) && val
                    == self.constant@),
    {
        let n = proposals.len();
        let mut found = false;
        let mut i: usize = 0;
        while i < n
            invariant
                self.wf(),
                n == proposals@.len(),
                0 <= i <= n,
                *proposals == *old(proposals),
                found ==> contains_val(proposals@, self.constant@),
                !found ==> forall|x: int| 0 <= x < i ==> (#[trigger] proposals@[x])@ != self.constant@,
            decreases n - i,
        {
            if bytes_eq(&proposals[i], &self.constant) {
                found = true;
                proof {
                    assert(proposals@[i as int]@ == self.constant@);
                }
            }
            i += 1;
        }
        let ghost oldp = proposals@;
        proposals.clear();
        if found {
            proposals.push(self.constant.clone());
        }
        proof {
            assert(variable == self.variable);
            if found {
                assert(proposals@.len() == 1 && proposals@[0]@ == self.constant@);
            }
            assert forall|val: Seq<u8>|
                contains_val(oldp, val) && (exists|m: Map<u8, Seq<u8>>|
                    #[trigger] self.ok(m) && m.dom() == self.vars() && (forall|v: u8|
                        self.vars().contains(v) && binding@.dom().contains(v) ==> m[v] == binding@[v])
                        && m[variable] == val) implies contains_val(proposals@, val) by {
                assert(val == self.constant@);
                assert(found);
                assert(proposals@[0]@ == val);
            }
        }
    }
}

} // verus!
