//! Conjunction of constraints.
//!
//! An `IntersectionConstraint` composes member constraints: it mentions the
//! union of their variables, admits the assignments admitted by every
//! member, estimates by the cheapest member, proposes from the member with
//! the least estimate and confirms against every member that mentions the
//! variable.

use vstd::prelude::*;

use crate::bits::ByteBitset;
use crate::query::{contains_val, full_ok, sorted_lex, Binding, Constraint};

verus! {

/// The union of the variables of the constraints in `s`.
pub open spec fn union_vars<C: Constraint>(s: Seq<C>) -> Set<u8>
    decreases s.len(),
{
    if s.len() == 0 {
        Set::empty()
    } else {
        union_vars(s.drop_last()).union(s.last().vars())
    }
}

/// Each member's variables lie inside the union.
pub proof fn lemma_member_vars<C: Constraint>(s: Seq<C>, i: int)
    requires
        0 <= i < s.len(),
    ensures
        s[i].vars().subset_of(union_vars(s)),
    decreases s.len(),
{
    if i == s.len() - 1 {
    } else {
        lemma_member_vars(s.drop_last(), i);
    }
}

/// A variable of the union belongs to some member.
pub proof fn lemma_union_vars_elem<C: Constraint>(s: Seq<C>, w: u8)
    requires
        union_vars(s).contains(w),
    ensures
        exists|i: int| 0 <= i < s.len() && (#[trigger] s[i]).vars().contains(w),
    decreases s.len(),
{
    if s.len() > 0 {
        if s.last().vars().contains(w) {
            assert(s[s.len() - 1].vars().contains(w));
        } else {
            lemma_union_vars_elem(s.drop_last(), w);
            let i = choose|i: int|
                0 <= i < s.drop_last().len() && (#[trigger] s.drop_last()[i]).vars().contains(w);
            assert(s[i].vars().contains(w));
        }
    }
}

/// The union is finite when each member's variable set is.
pub proof fn lemma_union_vars_finite<C: Constraint>(s: Seq<C>)
    requires
        forall|i: int| 0 <= i < s.len() ==> (#[trigger] s[i]).vars().finite(),
    ensures
        union_vars(s).finite(),
    decreases s.len(),
{
    if s.len() > 0 {
        lemma_union_vars_finite(s.drop_last());
        assert(s[s.len() - 1].vars().finite());
        vstd::set_lib::lemma_set_union_finite_iff(union_vars(s.drop_last()), s.last().vars());
    }
}

/// The least estimate among the members of `s` that mention `v` (the
/// largest machine word when none does).
pub open spec fn min_est<C: Constraint>(s: Seq<C>, b: Map<u8, Seq<u8>>, v: u8) -> int
    decreases s.len(),
{
    if s.len() == 0 {
        usize::MAX as int
    } else {
        let rest = min_est(s.drop_last(), b, v);
        if s.last().vars().contains(v) {
            let e = s.last().est(b, v);
            if e < rest {
                e
            } else {
                rest
            }
        } else {
            rest
        }
    }
}

/// The conjunction of its members.
pub struct IntersectionConstraint<C: Constraint> {
    pub members: Vec<C>,
}

impl<C: Constraint> IntersectionConstraint<C> {
    pub fn new(members: Vec<C>) -> (r: IntersectionConstraint<C>)
        requires
            forall|i: int| 0 <= i < members@.len() ==> (#[trigger] members@[i]).wf(),
        ensures
            r.wf(),
            r.members == members,
    {
        IntersectionConstraint { members }
    }

    /// An admitted composite assignment is admissible for every member that
    /// mentions the variable.
    proof fn lemma_member_admissible(
        &self,
        b: Map<u8, Seq<u8>>,
        variable: u8,
        val: Seq<u8>,
        i: int,
    )
        requires
            self.wf(),
            0 <= i < self.members@.len(),
            self.members@[i].vars().contains(variable),
            exists|m: Map<u8, Seq<u8>>|
                #[trigger] self.ok(m) && m.dom() == self.vars() && (forall|v: u8|
                    self.vars().contains(v) && b.dom().contains(v) ==> m[v] == b[v]) && m[variable]
                    == val,
        ensures
            exists|m: Map<u8, Seq<u8>>|
                #[trigger] self.members@[i].ok(m) && m.dom() == self.members@[i].vars() && (forall|
                    v: u8,
                |
                    self.members@[i].vars().contains(v) && b.dom().contains(v) ==> m[v] == b[v])
                    && m[variable] == val,
    {
        let m = choose|m: Map<u8, Seq<u8>>|
            #[trigger] self.ok(m) && m.dom() == self.vars() && (forall|v: u8|
                self.vars().contains(v) && b.dom().contains(v) ==> m[v] == b[v]) && m[variable]
                == val;
        assert(full_ok(&self.members@[i], m));
        let mi = choose|mi: Map<u8, Seq<u8>>|
            #[trigger] self.members@[i].ok(mi) && mi.dom() == self.members@[i].vars() && (forall|
                v: u8,
            |
                self.members@[i].vars().contains(v) ==> mi[v] == m[v]);
        lemma_member_vars(self.members@, i);
        assert forall|v: u8|
            self.members@[i].vars().contains(v) && b.dom().contains(v) implies mi[v] == b[v] by {
            assert(self.vars().contains(v));
        }
        assert(mi[variable] == m[variable]);
    }
}

impl<C: Constraint> Constraint for IntersectionConstraint<C> {
    open spec fn vars(&self) -> Set<u8> {
        union_vars(self.members@)
    }

    open spec fn ok(&self, m: Map<u8, Seq<u8>>) -> bool {
        forall|i: int| 0 <= i < self.members@.len() ==> full_ok(&self.members@[i], m)
    }

    open spec fn wf(&self) -> bool {
        forall|i: int| 0 <= i < self.members@.len() ==> (#[trigger] self.members@[i]).wf()
    }

    open spec fn partial_ok(&self, b: Map<u8, Seq<u8>>) -> bool {
        forall|i: int| 0 <= i < self.members@.len() ==> (#[trigger] self.members@[i]).partial_ok(b)
    }

    open spec fn est(&self, b: Map<u8, Seq<u8>>, variable: u8) -> int {
        min_est(self.members@, b, variable)
    }

    proof fn lemma_partial_empty(&self, b: Map<u8, Seq<u8>>) {
        assert forall|i: int|
            0 <= i < self.members@.len() implies (#[trigger] self.members@[i]).partial_ok(b) by {
            lemma_member_vars(self.members@, i);
            assert forall|v: u8|
                b.dom().contains(v) implies !self.members@[i].vars().contains(v) by {
                if self.members@[i].vars().contains(v) {
                    assert(self.vars().contains(v));
                }
            }
            self.members@[i].lemma_partial_empty(b);
        }
    }

    proof fn lemma_partial_insensitive(&self, b: Map<u8, Seq<u8>>, variable: u8, val: Seq<u8>) {
        assert forall|i: int|
            0 <= i < self.members@.len() implies (#[trigger] self.members@[i]).partial_ok(
            b.insert(variable, val),
        ) by {
            lemma_member_vars(self.members@, i);
            if self.members@[i].vars().contains(variable) {
                assert(self.vars().contains(variable));
            }
            self.members@[i].lemma_partial_insensitive(b, variable, val);
        }
    }

    proof fn lemma_partial_total(&self, b: Map<u8, Seq<u8>>) {
        let m = Map::<u8, Seq<u8>>::new(|w: u8| self.vars().contains(w), |w: u8| b[w]);
        assert(m.dom() =~= self.vars());
        assert forall|i: int|
            0 <= i < self.members@.len() implies full_ok(&self.members@[i], m) by {
            lemma_member_vars(self.members@, i);
            self.members@[i].lemma_partial_total(b);
            let mi = choose|mi: Map<u8, Seq<u8>>|
                #[trigger] self.members@[i].ok(mi) && mi.dom() == self.members@[i].vars() && (
                forall|v: u8| self.members@[i].vars().contains(v) ==> mi[v] == b[v]);
            assert forall|v: u8|
                self.members@[i].vars().contains(v) implies mi[v] == m[v] by {
                assert(self.vars().contains(v));
            }
        }
        assert(self.ok(m));
        assert forall|v: u8| self.vars().contains(v) implies m[v] == b[v] by {}
    }

    fn variables(&self) -> (r: ByteBitset) {
        let n = self.members.len();
        let mut r = ByteBitset::new_empty();
        let mut i: usize = 0;
        proof {
            assert(union_vars(self.members@.subrange(0, 0)) =~= Set::<u8>::empty());
        }
        while i < n
            invariant
                self.wf(),
                n == self.members@.len(),
                0 <= i <= n,
                r.wf(),
                r@ == union_vars(self.members@.subrange(0, i as int)),
            decreases n - i,
        {
            let mv = self.members[i].variables();
            let r2 = r.union_with(&mv);
            proof {
                assert(self.members@.subrange(0, i + 1).drop_last() =~= self.members@.subrange(
                    0,
                    i as int,
                ));
                assert(self.members@.subrange(0, i + 1).last() == self.members@[i as int]);
            }
            r = r2;
            i += 1;
        }
        proof {
            assert(self.members@.subrange(0, n as int) =~= self.members@);
        }
        r
    }

    fn estimate(&self, variable: u8, binding: &Binding) -> (r: usize) {
        let n = self.members.len();
        let mut best: usize = usize::MAX;
        let mut i: usize = 0;
        proof {
            assert(min_est(self.members@.subrange(0, 0), binding@, variable) == usize::MAX as int);
        }
        while i < n
            invariant
                self.wf(),
                binding.wf(),
                !binding@.dom().contains(variable),
                n == self.members@.len(),
                0 <= i <= n,
                best as int == min_est(self.members@.subrange(0, i as int), binding@, variable),
            decreases n - i,
        {
            let mv = self.members[i].variables();
            proof {
                assert(self.members@.subrange(0, i + 1).drop_last() =~= self.members@.subrange(
                    0,
                    i as int,
                ));
                assert(self.members@.subrange(0, i + 1).last() == self.members@[i as int]);
            }
            if mv.is_set(variable) {
                let e = self.members[i].estimate(variable, binding);
                if e < best {
                    best = e;
                }
            }
            i += 1;
        }
        proof {
            assert(self.members@.subrange(0, n as int) =~= self.members@);
        }
        best
    }

    fn propose(&self, variable: u8, binding: &Binding) -> (r: Vec<Vec<u8>>) {
        let n = self.members.len();
        let mut best: usize = n;
        let mut best_est: usize = 0;
        let mut i: usize = 0;
        while i < n
            invariant
                self.wf(),
                binding.wf(),
                !binding@.dom().contains(variable),
                n == self.members@.len(),
                0 <= i <= n,
                best <= n,
                best < n ==> self.members@[best as int].vars().contains(variable),
                best == n ==> forall|j: int|
                    0 <= j < i ==> !(#[trigger] self.members@[j]).vars().contains(variable),
            decreases n - i,
        {
            let mv = self.members[i].variables();
            if mv.is_set(variable) {
                let e = self.members[i].estimate(variable, binding);
                if best == n || e < best_est {
                    best = i;
                    best_est = e;
                }
            }
            i += 1;
        }
        proof {
            // the variable belongs to the union, so some member mentions it
            if best == n as usize {
                lemma_union_vars_elem(self.members@, variable);
                let j = choose|j: int|
                    0 <= j < self.members@.len() && (#[trigger] self.members@[j]).vars().contains(
                        variable,
                    );
                assert(false);
            }
        }
        let r = self.members[best].propose(variable, binding);
        proof {
            assert forall|val: Seq<u8>|
                #![trigger contains_val(r@, val)]
                (exists|m: Map<u8, Seq<u8>>|
                    #[trigger] self.ok(m) && m.dom() == self.vars() && (forall|v: u8|
                        self.vars().contains(v) && binding@.dom().contains(v) ==> m[v] == binding@[v])
                        && m[variable] == val) implies contains_val(r@, val) by {
                self.lemma_member_admissible(binding@, variable, val, best as int);
            }
        }
        r
    }

    fn confirm(&self, variable: u8, binding: &Binding, proposals: &mut Vec<Vec<u8>>) {
        let n = self.members.len();
        let ghost orig = proposals@;
        let mut i: usize = 0;
        while i < n
            invariant
                self.wf(),
                binding.wf(),
                self.vars().contains(variable),
                !binding@.dom().contains(variable),
                self.partial_ok(binding@),
                n == self.members@.len(),
                0 <= i <= n,
                sorted_lex(proposals@),
                forall|x: int|
                    0 <= x < proposals@.len() ==> (#[trigger] proposals@[x])@.len() == 32,
                forall|x: int|
                    0 <= x < proposals@.len() ==> contains_val(orig, (#[trigger] proposals@[x])@),
                forall|x: int, j: int|
                    0 <= x < proposals@.len() && 0 <= j < i && (#[trigger] self.members@[j]).vars()
                        .contains(variable) ==> self.members@[j].partial_ok(
                        binding@.insert(variable, (#[trigger] proposals@[x])@),
                    ),
                forall|val: Seq<u8>|
                    #![trigger contains_val(proposals@, val)]
                    contains_val(orig, val) && (exists|m: Map<u8, Seq<u8>>|
                        #[trigger] self.ok(m) && m.dom() == self.vars() && (forall|v: u8|
                            self.vars().contains(v) && binding@.dom().contains(v) ==> m[v]
                                == binding@[v]) && m[variable] == val) ==> contains_val(
                        proposals@,
                        val,
                    ),
            decreases n - i,
        {
            let mv = self.members[i].variables();
            if mv.is_set(variable) {
                let ghost before = proposals@;
                self.members[i].confirm(variable, binding, proposals);
                proof {
                    assert forall|x: int, j: int|
                        0 <= x < proposals@.len() && 0 <= j < i + 1 && (
                        #[trigger] self.members@[j]).vars().contains(variable) implies self
                        .members@[j].partial_ok(
                        binding@.insert(variable, (#[trigger] proposals@[x])@),
                    ) by {
                        assert(contains_val(proposals@, proposals@[x]@));
                        if j < i {
                            assert(contains_val(before, proposals@[x]@));
                            let y = choose|y: int|
                                0 <= y < before.len() && (#[trigger] before[y])@ == proposals@[x]@;
                        }
                    }
                    assert forall|x: int|
                        0 <= x < proposals@.len() implies contains_val(
                        orig,
                        (#[trigger] proposals@[x])@,
                    ) by {
                        assert(contains_val(proposals@, proposals@[x]@));
                        assert(contains_val(before, proposals@[x]@));
                        let y = choose|y: int|
                            0 <= y < before.len() && (#[trigger] before[y])@ == proposals@[x]@;
                    }
                    assert forall|val: Seq<u8>|
                        #![trigger contains_val(proposals@, val)]
                        contains_val(orig, val) && (exists|m: Map<u8, Seq<u8>>|
                            #[trigger] self.ok(m) && m.dom() == self.vars() && (forall|v: u8|
                                self.vars().contains(v) && binding@.dom().contains(v) ==> m[v]
                                    == binding@[v]) && m[variable] == val) implies contains_val(
                        proposals@,
                        val,
                    ) by {
                        assert(contains_val(before, val));
                        self.lemma_member_admissible(binding@, variable, val, i as int);
                    }
                }
            }
            i += 1;
        }
        proof {
            assert forall|x: int|
                0 <= x < proposals@.len() implies self.partial_ok(
                binding@.insert(variable, (#[trigger] proposals@[x])@),
            ) by {
                let b2 = binding@.insert(variable, proposals@[x]@);
                assert forall|j: int|
                    0 <= j < self.members@.len() implies (#[trigger] self.members@[j]).partial_ok(
                    b2,
                ) by {
                    if self.members@[j].vars().contains(variable) {
                    } else {
                        self.members@[j].lemma_partial_insensitive(
                            binding@,
                            variable,
                            proposals@[x]@,
                        );
                    }
                }
            }
        }
    }
}

} // verus!
