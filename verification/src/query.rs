//! The worst-case-optimal join driver.
//!
//! A query is a conjunction of constraints over up to 256 variables, each
//! holding a 32-byte value.  The driver binds one variable at a time — the
//! unbound variable with the least cardinality estimate, ties broken towards
//! the lowest identifier — asks a constraint to propose candidate values,
//! intersects the candidates against every constraint that mentions the
//! variable, and backtracks when a level is exhausted.  Results are exactly
//! the total assignments admitted by every constraint, each one emitted once,
//! in an order that is a function of the constraints alone.

use vstd::prelude::*;

use crate::bits::ByteBitset;
use crate::keys::{lemma_lex_lt_ne, lex_lt};

verus! {

/// A partial assignment of 32-byte values to variables.
pub struct Binding {
    pub bound: ByteBitset,
    pub values: Vec<Vec<u8>>,
}

impl View for Binding {
    type V = Map<u8, Seq<u8>>;

    open spec fn view(&self) -> Map<u8, Seq<u8>> {
        Map::new(|v: u8| self.bound@.contains(v), |v: u8| self.values@[v as int]@)
    }
}

impl Binding {
    pub open spec fn wf(self) -> bool {
        &&& self.bound.wf()
        &&& self.values@.len() == 256
        &&& forall|v: u8|
            self.bound@.contains(v) ==> (#[trigger] self.values@[v as int])@.len() == 32
    }

    pub fn new() -> (r: Binding)
        ensures
            r.wf(),
            r@ =~= Map::<u8, Seq<u8>>::empty(),
    {
        let bound = ByteBitset::new_empty();
        let mut values: Vec<Vec<u8>> = Vec::new();
        let mut i: usize = 0;
        while i < 256
            invariant
                0 <= i <= 256,
                values@.len() == i,
            decreases 256 - i,
        {
            values.push(Vec::new());
            i += 1;
        }
        let r = Binding { bound, values };
        proof {
            assert(r@.dom() =~= Set::<u8>::empty());
            assert(r@ =~= Map::<u8, Seq<u8>>::empty());
        }
        r
    }

    /// Binds `variable` to `value`.
    pub fn set(&mut self, variable: u8, value: Vec<u8>)
        requires
            old(self).wf(),
            value@.len() == 32,
        ensures
            final(self).wf(),
            final(self)@ == old(self)@.insert(variable, value@),
    {
        let ghost gv = value@;
        self.values[variable as usize] = value;
        self.bound.set(variable);
        proof {
            assert(self@ =~= old(self)@.insert(variable, gv));
        }
    }

    /// Unbinds `variable`.
    pub fn unset(&mut self, variable: u8)
        requires
            old(self).wf(),
        ensures
            final(self).wf(),
            final(self)@ == old(self)@.remove(variable),
    {
        self.bound.unset(variable);
        proof {
            assert(self@ =~= old(self)@.remove(variable));
        }
    }

    /// The value bound to `variable`, if any.
    pub fn get(&self, variable: u8) -> (r: Option<Vec<u8>>)
        requires
            self.wf(),
        ensures
            match r {
                Some(v) => self@.dom().contains(variable) && v@ == self@[variable] && v@.len()
                    == 32,
                None => !self@.dom().contains(variable),
            },
    {
        if self.bound.is_set(variable) {
            Some(self.values[variable as usize].clone())
        } else {
            None
        }
    }

    /// Whether `variable` is bound.
    pub fn is_bound(&self, variable: u8) -> (r: bool)
        requires
            self.wf(),
        ensures
            r == self@.dom().contains(variable),
    {
        self.bound.is_set(variable)
    }

    /// A fresh binding with the same assignment.
    pub fn duplicate(&self) -> (r: Binding)
        requires
            self.wf(),
        ensures
            r.wf(),
            r@ == self@,
    {
        let mut values: Vec<Vec<u8>> = Vec::new();
        let mut i: usize = 0;
        while i < 256
            invariant
                self.wf(),
                0 <= i <= 256,
                values@.len() == i,
                forall|j: int| 0 <= j < i ==> (#[trigger] values@[j])@ == self.values@[j]@,
            decreases 256 - i,
        {
            values.push(self.values[i].clone());
            i += 1;
        }
        let bound = ByteBitset { bits: self.bound.bits.clone() };
        let r = Binding { bound, values };
        proof {
            assert(r.bound@ =~= self.bound@);
            assert(r@ =~= self@);
        }
        r
    }
}

impl Default for Binding {
    fn default() -> (r: Self)
        ensures
            r.wf(),
            r@ =~= Map::<u8, Seq<u8>>::empty(),
    {
        Binding::new()
    }
}

/// Whether `s` is strictly ascending in ordering-space (hence duplicate-free).
pub open spec fn sorted_lex(s: Seq<Vec<u8>>) -> bool {
    forall|x: int, y: int| 0 <= x < y < s.len() ==> lex_lt((#[trigger] s[x])@, (#[trigger] s[y])@)
}

/// Whether the list `s` holds the byte string `val`.
pub open spec fn contains_val(s: Seq<Vec<u8>>, val: Seq<u8>) -> bool {
    exists|x: int| 0 <= x < s.len() && (#[trigger] s[x])@ == val
}

/// Whether some total assignment over `c`'s variables that agrees with `b`
/// there is admitted by `c`.
pub open spec fn full_ok<C: Constraint>(c: &C, b: Map<u8, Seq<u8>>) -> bool {
    exists|m: Map<u8, Seq<u8>>|
        #[trigger] c.ok(m) && m.dom() == c.vars() && (forall|v: u8|
            c.vars().contains(v) ==> m[v] == b[v])
}

/// Whether binding `variable` to `val` under `b` can still be extended to a
/// total assignment admitted by `c`.
pub open spec fn admissible<C: Constraint>(
    c: &C,
    b: Map<u8, Seq<u8>>,
    variable: u8,
    val: Seq<u8>,
) -> bool {
    exists|m: Map<u8, Seq<u8>>|
        #[trigger] c.ok(m) && m.dom() == c.vars() && (forall|v: u8|
            c.vars().contains(v) && b.dom().contains(v) ==> m[v] == b[v]) && m[variable] == val
}

/// One relation of a query: it reports its variables, estimates how many
/// values could extend a binding, proposes candidate values, and intersects
/// candidate lists with its own admitted set.
pub trait Constraint: Sized {
    /// The variables this constraint mentions.
    spec fn vars(&self) -> Set<u8>;

    /// Whether the total assignment `m` (with domain `vars`) is admitted.
    spec fn ok(&self, m: Map<u8, Seq<u8>>) -> bool;

    spec fn wf(&self) -> bool;

    /// Whether the constraint is still satisfiable under the partial binding
    /// `b`; exact whenever every mentioned variable is bound.
    spec fn partial_ok(&self, b: Map<u8, Seq<u8>>) -> bool;

    /// A binding that touches none of the mentioned variables rules nothing
    /// out.
    proof fn lemma_partial_empty(&self, b: Map<u8, Seq<u8>>)
        requires
            self.wf(),
            forall|v: u8| b.dom().contains(v) ==> !self.vars().contains(v),
        ensures
            self.partial_ok(b),
    ;

    /// Binding a variable the constraint does not mention rules nothing out.
    proof fn lemma_partial_insensitive(&self, b: Map<u8, Seq<u8>>, variable: u8, val: Seq<u8>)
        requires
            self.wf(),
            self.partial_ok(b),
            !self.vars().contains(variable),
        ensures
            self.partial_ok(b.insert(variable, val)),
    ;

    /// Once every mentioned variable is bound, `partial_ok` means admitted.
    proof fn lemma_partial_total(&self, b: Map<u8, Seq<u8>>)
        requires
            self.wf(),
            self.partial_ok(b),
            self.vars().subset_of(b.dom()),
        ensures
            exists|m: Map<u8, Seq<u8>>|
                #[trigger] self.ok(m) && m.dom() == self.vars() && (forall|v: u8|
                    self.vars().contains(v) ==> m[v] == b[v]),
    ;

    fn variables(&self) -> (r: ByteBitset)
        requires
            self.wf(),
        ensures
            r.wf(),
            r@ == self.vars(),
    ;

    /// What `estimate` reports for extending `b` at `variable`: each
    /// implementation pins it to the size of the index set it consults,
    /// which bounds the extensions consistently with `propose`.
    spec fn est(&self, b: Map<u8, Seq<u8>>, variable: u8) -> int;

    /// An upper bound on how many values could extend `binding` at
    /// `variable`; used to pick the cheapest variable first.
    fn estimate(&self, variable: u8, binding: &Binding) -> (r: usize)
        requires
            self.wf(),
            binding.wf(),
            self.vars().contains(variable),
            !binding@.dom().contains(variable),
        ensures
            r as int == self.est(binding@, variable),
    ;

    /// Candidate values for `variable`: an ascending, duplicate-free list
    /// holding every value that could extend `binding` to an admitted total
    /// assignment.
    fn propose(&self, variable: u8, binding: &Binding) -> (r: Vec<Vec<u8>>)
        requires
            self.wf(),
            binding.wf(),
            self.vars().contains(variable),
            !binding@.dom().contains(variable),
        ensures
            sorted_lex(r@),
            forall|x: int| 0 <= x < r@.len() ==> (#[trigger] r@[x])@.len() == 32,
            forall|val: Seq<u8>|
                #![trigger contains_val(r@, val)]
                (exists|m: Map<u8, Seq<u8>>|
                    #[trigger] self.ok(m) && m.dom() == self.vars() && (forall|v: u8|
                        self.vars().contains(v) && binding@.dom().contains(v) ==> m[v] == binding@[v]) && m[variable] == val) ==> contains_val(r@, val),
    ;

    /// Intersects `proposals` in place with this constraint's admitted set:
    /// no admissible value is dropped, every kept value keeps the constraint
    /// satisfiable, and order is preserved.
    fn confirm(&self, variable: u8, binding: &Binding, proposals: &mut Vec<Vec<u8>>)
        requires
            self.wf(),
            binding.wf(),
            self.vars().contains(variable),
            !binding@.dom().contains(variable),
            self.partial_ok(binding@),
            sorted_lex(old(proposals)@),
            forall|x: int| 0 <= x < old(proposals)@.len() ==> (#[trigger] old(proposals)@[x])@.len() == 32,
        ensures
            sorted_lex(final(proposals)@),
            forall|x: int|
                0 <= x < final(proposals)@.len() ==> (#[trigger] final(proposals)@[x])@.len() == 32,
            forall|x: int|
                0 <= x < final(proposals)@.len() ==> contains_val(
                    old(proposals)@,
                    (#[trigger] final(proposals)@[x])@,
                ),
            forall|x: int|
                0 <= x < final(proposals)@.len() ==> self.partial_ok(
                    binding@.insert(variable, (#[trigger] final(proposals)@[x])@),
                ),
            forall|val: Seq<u8>|
                #![trigger contains_val(final(proposals)@, val)]
                contains_val(old(proposals)@, val) && (exists|m: Map<u8, Seq<u8>>|
                    #[trigger] self.ok(m) && m.dom() == self.vars() && (forall|v: u8|
                        self.vars().contains(v) && binding@.dom().contains(v) ==> m[v] == binding@[v]) && m[variable] == val) ==> contains_val(final(proposals)@, val),
    ;
}

/// Depth-first search over the unbound variables: fills `out` with every
/// admitted total assignment extending `binding`, each exactly once, and
/// restores `binding`.
fn search<C: Constraint>(c: &C, binding: &mut Binding, out: &mut Vec<Binding>)
    requires
        c.wf(),
        c.vars().finite(),
        old(binding).wf(),
        c.partial_ok(old(binding)@),
    ensures
        final(binding).wf(),
        final(binding)@ == old(binding)@,
        final(out)@.len() >= old(out)@.len(),
        forall|x: int| 0 <= x < old(out)@.len() ==> final(out)@[x] == old(out)@[x],
        forall|x: int|
            old(out)@.len() <= x < final(out)@.len() ==> (#[trigger] final(out)@[x]).wf()
                && final(out)@[x]@.dom() == old(binding)@.dom().union(c.vars()) && (forall|v: u8|
                old(binding)@.dom().contains(v) ==> final(out)@[x]@[v] == old(binding)@[v])
                && full_ok(c, final(out)@[x]@),
        forall|m: Map<u8, Seq<u8>>|
            m.dom() == old(binding)@.dom().union(c.vars()) && (forall|v: u8|
                old(binding)@.dom().contains(v) ==> m[v] == old(binding)@[v])
                && #[trigger] full_ok(c, m) ==> exists|x: int|
                old(out)@.len() <= x < final(out)@.len() && (#[trigger] final(out)@[x])@ == m,
        forall|x: int, y: int|
            old(out)@.len() <= x < y < final(out)@.len() ==> (#[trigger] final(out)@[x])@ != (
            #[trigger] final(out)@[y])@,
    decreases c.vars().difference(old(binding)@.dom()).len(),
{
    let vs = c.variables();
    let mut best: usize = 256;
    let mut best_est: usize = 0;
    let mut v: usize = 0;
    while v < 256
        invariant
            c.wf(),
            binding.wf(),
            *binding == *old(binding),
            vs.wf(),
            vs@ == c.vars(),
            0 <= v <= 256,
            best <= 256,
            best < 256 ==> best < v && c.vars().contains(best as u8) && !binding@.dom().contains(
                best as u8,
            ),
            best == 256 ==> forall|w: int|
                0 <= w < v ==> !(c.vars().contains(w as u8) && !(#[trigger] binding@.dom().contains(
                    w as u8,
                ))),
        decreases 256 - v,
    {
        if vs.is_set(v as u8) && !binding.is_bound(v as u8) {
            let e = c.estimate(v as u8, binding);
            if best == 256 || e < best_est {
                best = v;
                best_est = e;
            }
        }
        v += 1;
    }
    if best == 256 {
        proof {
            assert forall|w: u8| c.vars().contains(w) implies binding@.dom().contains(w) by {
                assert(!(c.vars().contains(w as int as u8) && !binding@.dom().contains(
                    w as int as u8,
                )));
            }
            c.lemma_partial_total(binding@);
        }
        let b2 = binding.duplicate();
        out.push(b2);
        proof {
            assert(binding@.dom().union(c.vars()) =~= binding@.dom());
            assert forall|m: Map<u8, Seq<u8>>|
                m.dom() == old(binding)@.dom().union(c.vars()) && (forall|w: u8|
                    old(binding)@.dom().contains(w) ==> m[w] == old(binding)@[w])
                    && #[trigger] full_ok(c, m) implies m == binding@ by {
                assert(m =~= binding@);
            }
            assert(out@[out@.len() - 1]@ == binding@);
        }
        return ;
    }
    let vb = best as u8;
    let mut cands = c.propose(vb, binding);
    c.confirm(vb, binding, &mut cands);
    let ghost bpre = binding@;
    let ghost outbase = out@.len() as int;
    let n = cands.len();
    let mut idx: usize = 0;
    while idx < n
        invariant
            c.wf(),
            c.vars().finite(),
            binding.wf(),
            binding@ == bpre,
            bpre == old(binding)@,
            c.partial_ok(bpre),
            c.vars().contains(vb),
            !bpre.dom().contains(vb),
            n == cands@.len(),
            0 <= idx <= n,
            sorted_lex(cands@),
            forall|x: int| 0 <= x < n ==> (#[trigger] cands@[x])@.len() == 32,
            forall|x: int|
                0 <= x < n ==> c.partial_ok(bpre.insert(vb, (#[trigger] cands@[x])@)),
            forall|val: Seq<u8>| admissible(c, bpre, vb, val) ==> contains_val(cands@, val),
            out@.len() >= outbase,
            outbase <= out@.len(),
            forall|x: int| 0 <= x < outbase ==> out@[x] == old(out)@[x],
            outbase == old(out)@.len(),
            forall|x: int|
                outbase <= x < out@.len() ==> (#[trigger] out@[x]).wf() && out@[x]@.dom()
                    == bpre.dom().union(c.vars()) && (forall|w: u8|
                    bpre.dom().contains(w) ==> out@[x]@[w] == bpre[w]) && full_ok(c, out@[x]@),
            forall|x: int|
                outbase <= x < out@.len() ==> exists|y: int|
                    0 <= y < idx && (#[trigger] out@[x])@[vb] == (#[trigger] cands@[y])@,
            forall|m: Map<u8, Seq<u8>>, y: int|
                #![trigger full_ok(c, m), cands@[y]]
                m.dom() == bpre.dom().union(c.vars()) && (forall|w: u8|
                    bpre.dom().contains(w) ==> m[w] == bpre[w]) && full_ok(c, m) && 0 <= y < idx
                    && m[vb] == cands@[y]@ ==> exists|x: int|
                    outbase <= x < out@.len() && (#[trigger] out@[x])@ == m,
            forall|x: int, y: int|
                outbase <= x < y < out@.len() ==> (#[trigger] out@[x])@ != (#[trigger] out@[y])@,
        decreases n - idx,
    {
        let val = cands[idx].clone();
        proof {
            assert(val@ == (cands@[idx as int])@);
            assert(c.partial_ok(bpre.insert(vb, val@)));
            // the recursion binds one more variable, so the unbound set shrinks
            assert(c.vars().difference(bpre.insert(vb, val@).dom()) =~= c.vars().difference(
                bpre.dom(),
            ).remove(vb));
            vstd::set_lib::lemma_set_subset_finite(c.vars(), c.vars().difference(bpre.dom()));
            assert(c.vars().difference(bpre.dom()).contains(vb));
        }
        binding.set(vb, val);
        let ghost outlen = out@.len() as int;
        search(c, binding, out);
        binding.unset(vb);
        proof {
            assert(binding@ =~= bpre);
            let bnew = bpre.insert(vb, cands@[idx as int]@);
            assert(bnew.dom().union(c.vars()) =~= bpre.dom().union(c.vars()));
            // the fresh emissions carry the idx-th candidate at vb
            assert forall|x: int| outlen <= x < out@.len() implies (#[trigger] out@[x]).wf()
                && out@[x]@.dom() == bpre.dom().union(c.vars()) && (forall|w: u8|
                bpre.dom().contains(w) ==> out@[x]@[w] == bpre[w]) && full_ok(c, out@[x]@) && out@[
            x]@[vb] == cands@[idx as int]@ by {
                assert(out@[x]@.dom() == bnew.dom().union(c.vars()));
                assert forall|w: u8| bpre.dom().contains(w) implies out@[x]@[w] == bpre[w] by {
                    assert(bnew.dom().contains(w));
                    assert(out@[x]@[w] == bnew[w]);
                }
                assert(bnew.dom().contains(vb));
                assert(out@[x]@[vb] == bnew[vb]);
            }
            // completeness for candidates up to and including idx
            assert forall|m: Map<u8, Seq<u8>>, y: int|
                #![trigger full_ok(c, m), cands@[y]]
                m.dom() == bpre.dom().union(c.vars()) && (forall|w: u8|
                    bpre.dom().contains(w) ==> m[w] == bpre[w]) && full_ok(c, m) && 0 <= y < idx + 1
                    && m[vb] == cands@[y]@ implies exists|x: int|
                outbase <= x < out@.len() && (#[trigger] out@[x])@ == m by {
                if y == idx {
                    assert(m.dom() == bnew.dom().union(c.vars()));
                    assert forall|w: u8| bnew.dom().contains(w) implies m[w] == bnew[w] by {
                        if w == vb {
                            assert(m[vb] == cands@[idx as int]@);
                        } else {
                            assert(bpre.dom().contains(w));
                        }
                    }
                    let x = choose|x: int|
                        outlen <= x < out@.len() && (#[trigger] out@[x])@ == m;
                    assert(out@[x]@ == m);
                }
            }
            // emissions of different candidates differ at vb
            assert forall|x: int, y: int|
                outbase <= x < y < out@.len() implies (#[trigger] out@[x])@ != (
            #[trigger] out@[y])@ by {
                if x < outlen && y >= outlen {
                    let yx = choose|yx: int|
                        0 <= yx < idx && (out@[x])@[vb] == (#[trigger] cands@[yx])@;
                    assert(out@[y]@[vb] == cands@[idx as int]@);
                    lemma_lex_lt_ne(cands@[yx]@, cands@[idx as int]@);
                }
            }
        }
        idx += 1;
    }
    proof {
        // every admitted extension appears: its value at vb is admissible,
        // so it stands somewhere in the confirmed candidate list
        assert forall|m: Map<u8, Seq<u8>>|
            m.dom() == old(binding)@.dom().union(c.vars()) && (forall|w: u8|
                old(binding)@.dom().contains(w) ==> m[w] == old(binding)@[w]) && #[trigger] full_ok(
                c,
                m,
            ) implies exists|x: int|
            outbase <= x < out@.len() && (#[trigger] out@[x])@ == m by {
            let m0 = choose|m0: Map<u8, Seq<u8>>|
                #[trigger] c.ok(m0) && m0.dom() == c.vars() && (forall|w: u8|
                    c.vars().contains(w) ==> m0[w] == m[w]);
            assert(c.vars().contains(vb));
            assert(m0[vb] == m[vb]);
            assert forall|w: u8|
                c.vars().contains(w) && bpre.dom().contains(w) implies m0[w] == bpre[w] by {
                assert(m[w] == bpre[w]);
            }
            assert(admissible(c, bpre, vb, m[vb]));
            assert(contains_val(cands@, m[vb]));
            let y = choose|y: int| 0 <= y < cands@.len() && (#[trigger] cands@[y])@ == m[vb];
            assert(full_ok(c, m) && 0 <= y < idx && m[vb] == cands@[y]@);
        }
    }
}

/// The join iterator: computes, eagerly and depth first, every binding of
/// the constraint's variables that the constraint admits, and hands them out
/// one at a time.
pub struct ConstraintIterator<C: Constraint> {
    pub constraint: C,
    pub results: Vec<Binding>,
    pub next_index: usize,
}

impl<C: Constraint> ConstraintIterator<C> {
    pub open spec fn wf(self) -> bool {
        &&& self.constraint.wf()
        &&& self.next_index <= self.results@.len()
        &&& forall|x: int| 0 <= x < self.results@.len() ==> (#[trigger] self.results@[x]).wf()
        &&& forall|x: int|
            0 <= x < self.results@.len() ==> (#[trigger] self.results@[x])@.dom()
                == self.constraint.vars()
        &&& forall|x: int|
            0 <= x < self.results@.len() ==> full_ok(
                &self.constraint,
                (#[trigger] self.results@[x])@,
            )
        &&& forall|m: Map<u8, Seq<u8>>|
            m.dom() == self.constraint.vars() && #[trigger] full_ok(&self.constraint, m)
                ==> exists|x: int|
                0 <= x < self.results@.len() && (#[trigger] self.results@[x])@ == m
        &&& forall|x: int, y: int|
            0 <= x < y < self.results@.len() ==> (#[trigger] self.results@[x])@ != (
            #[trigger] self.results@[y])@
    }

    /// Runs the search.  Afterwards `wf` pins the results down: they are
    /// exactly the admitted total assignments over the constraint's
    /// variables, each exactly once.
    pub fn new(constraint: C) -> (r: ConstraintIterator<C>)
        requires
            constraint.wf(),
            constraint.vars().finite(),
        ensures
            r.wf(),
            r.constraint == constraint,
            r.next_index == 0,
    {
        let mut binding = Binding::new();
        let mut results: Vec<Binding> = Vec::new();
        proof {
            constraint.lemma_partial_empty(binding@);
        }
        search(&constraint, &mut binding, &mut results);
        proof {
            assert(binding@.dom() =~= Set::<u8>::empty());
            assert(binding@.dom().union(constraint.vars()) =~= constraint.vars());
            assert forall|m: Map<u8, Seq<u8>>|
                m.dom() == constraint.vars() && #[trigger] full_ok(&constraint, m) implies exists|
                x: int,
            |
                0 <= x < results@.len() && (#[trigger] results@[x])@ == m by {
                assert(m.dom() == binding@.dom().union(constraint.vars()));
            }
        }
        let r = ConstraintIterator { constraint, results, next_index: 0 };
        proof {
            assert(r.wf()) by {
                assert(r.constraint.wf());
                assert(r.next_index <= r.results@.len());
                assert(forall|x: int|
                    0 <= x < r.results@.len() ==> (#[trigger] r.results@[x]).wf());
                assert(forall|x: int|
                    0 <= x < r.results@.len() ==> (#[trigger] r.results@[x])@.dom()
                        == r.constraint.vars());
                assert(forall|x: int|
                    0 <= x < r.results@.len() ==> full_ok(
                        &r.constraint,
                        (#[trigger] r.results@[x])@,
                    ));
                assert(forall|m: Map<u8, Seq<u8>>|
                    m.dom() == r.constraint.vars() && #[trigger] full_ok(&r.constraint, m)
                        ==> exists|x: int|
                        0 <= x < r.results@.len() && (#[trigger] r.results@[x])@ == m);
                assert(forall|x: int, y: int|
                    0 <= x < y < r.results@.len() ==> (#[trigger] r.results@[x])@ != (
                    #[trigger] r.results@[y])@);
            }
        }
        r
    }

    /// The next binding, or `None` when the enumeration is exhausted.
    pub fn next(&mut self) -> (r: Option<Binding>)
        requires
            old(self).wf(),
        ensures
            final(self).wf(),
            final(self).constraint == old(self).constraint,
            final(self).results == old(self).results,
            match r {
                Some(b) => old(self).next_index < old(self).results@.len() && b.wf() && b@ == old(
                    self,
                ).results@[old(self).next_index as int]@ && final(self).next_index == old(
                    self,
                ).next_index + 1,
                None => old(self).next_index == old(self).results@.len() && final(self).next_index
                    == old(self).next_index,
            },
    {
        if self.next_index < self.results.len() {
            let b = self.results[self.next_index].duplicate();
            self.next_index += 1;
            Some(b)
        } else {
            None
        }
    }
}

/// A typed query variable: an index into the binding.
pub struct Variable {
    pub index: u8,
}

impl Variable {
    pub fn new(index: u8) -> (r: Variable)
        ensures
            r.index == index,
    {
        Variable { index }
    }
}

/// Intersects two ascending duplicate-free lists of 32-byte values.
pub fn intersect_sorted(a: &Vec<Vec<u8>>, b: &Vec<Vec<u8>>) -> (r: Vec<Vec<u8>>)
    requires
        sorted_lex(a@),
        sorted_lex(b@),
        forall|x: int| 0 <= x < a@.len() ==> (#[trigger] a@[x])@.len() == 32,
        forall|x: int| 0 <= x < b@.len() ==> (#[trigger] b@[x])@.len() == 32,
    ensures
        sorted_lex(r@),
        forall|x: int| 0 <= x < r@.len() ==> (#[trigger] r@[x])@.len() == 32,
        forall|val: Seq<u8>|
            #![trigger contains_val(r@, val)]
            contains_val(r@, val) <==> (contains_val(a@, val) && contains_val(b@, val)),
{
    let al = a.len();
    let bl = b.len();
    let mut r: Vec<Vec<u8>> = Vec::new();
    let mut i: usize = 0;
    let mut j: usize = 0;
    while i < al && j < bl
        invariant
            sorted_lex(a@),
            sorted_lex(b@),
            forall|x: int| 0 <= x < a@.len() ==> (#[trigger] a@[x])@.len() == 32,
            forall|x: int| 0 <= x < b@.len() ==> (#[trigger] b@[x])@.len() == 32,
            al == a@.len(),
            bl == b@.len(),
            0 <= i <= al,
            0 <= j <= bl,
            sorted_lex(r@),
            forall|x: int| 0 <= x < r@.len() ==> (#[trigger] r@[x])@.len() == 32,
            forall|val: Seq<u8>|
                #![trigger contains_val(r@, val)]
                contains_val(r@, val) <==> (contains_val(a@.subrange(0, i as int), val)
                    && contains_val(b@, val)),
            forall|y: int|
                0 <= y < j ==> contains_val(r@, (#[trigger] b@[y])@) || (forall|x: int|
                    i <= x < al ==> lex_lt(b@[y]@, (#[trigger] a@[x])@)),
            forall|x: int|
                0 <= x < i ==> contains_val(r@, (#[trigger] a@[x])@) || (forall|y: int|
                    j <= y < bl ==> lex_lt(a@[x]@, (#[trigger] b@[y])@)),
            forall|z: int, x: int|
                0 <= z < r@.len() && i <= x < al ==> lex_lt((#[trigger] r@[z])@, (#[trigger] a@[x])@),
        decreases al - i + bl - j,
    {
        let c = crate::keys::bytes_cmp(&a[i], &b[j]);
        if c == 1 {
            let ghost gr = r@;
            r.push(a[i].clone());
            proof {
                assert(r@[r@.len() - 1]@ == a@[i as int]@);
                assert forall|val: Seq<u8>|
                    #![trigger contains_val(r@, val)]
                    contains_val(r@, val) <==> (contains_val(a@.subrange(0, i + 1), val)
                        && contains_val(b@, val)) by {
                    if contains_val(r@, val) {
                        let z = choose|z: int| 0 <= z < r@.len() && (#[trigger] r@[z])@ == val;
                        if z < gr.len() {
                            assert(contains_val(gr, val));
                            let x = choose|x: int|
                                0 <= x < i && (#[trigger] a@.subrange(0, i as int)[x])@ == val;
                            assert((a@.subrange(0, i + 1)[x])@ == val);
                        } else {
                            assert((a@.subrange(0, i + 1)[i as int])@ == val);
                            assert((b@[j as int])@ == val);
                        }
                    }
                    if contains_val(a@.subrange(0, i + 1), val) && contains_val(b@, val) {
                        let x = choose|x: int|
                            0 <= x < i + 1 && (#[trigger] a@.subrange(0, i + 1)[x])@ == val;
                        if x < i {
                            assert(contains_val(a@.subrange(0, i as int), val));
                            assert(contains_val(gr, val));
                            let z = choose|z: int| 0 <= z < gr.len() && (#[trigger] gr[z])@ == val;
                            assert(r@[z]@ == val);
                        } else {
                            assert(r@[r@.len() - 1]@ == val);
                        }
                    }
                }
            }
            i += 1;
            j += 1;
        } else if c == 0 {
            proof {
                // a[i] precedes b[j], so it cannot stand anywhere in b
                assert forall|val: Seq<u8>|
                    #![trigger contains_val(r@, val)]
                    contains_val(r@, val) <==> (contains_val(a@.subrange(0, i + 1), val)
                        && contains_val(b@, val)) by {
                    if contains_val(a@.subrange(0, i + 1), val) && contains_val(b@, val) {
                        let x = choose|x: int|
                            0 <= x < i + 1 && (#[trigger] a@.subrange(0, i + 1)[x])@ == val;
                        if x == i {
                            let y = choose|y: int| 0 <= y < bl && (#[trigger] b@[y])@ == val;
                            if y < j {
                                if contains_val(r@, b@[y]@) {
                                    let z = choose|z: int|
                                        0 <= z < r@.len() && (#[trigger] r@[z])@ == val;
                                    lemma_lex_lt_ne(r@[z]@, a@[i as int]@);
                                } else {
                                    lemma_lex_lt_ne(b@[y]@, a@[i as int]@);
                                }
                            } else {
                                if y > j {
                                    crate::keys::lemma_lex_lt_trans(
                                        a@[i as int]@,
                                        b@[j as int]@,
                                        b@[y]@,
                                    );
                                }
                                lemma_lex_lt_ne(a@[i as int]@, b@[y]@);
                            }
                        } else {
                            assert(contains_val(a@.subrange(0, i as int), val));
                        }
                    } else {
                        if contains_val(r@, val) {
                            let x = choose|x: int|
                                0 <= x < i && (#[trigger] a@.subrange(0, i as int)[x])@ == val;
                            assert((a@.subrange(0, i + 1)[x])@ == val);
                        }
                    }
                }
                assert forall|x: int|
                    0 <= x < i + 1 implies contains_val(r@, (#[trigger] a@[x])@) || (forall|y: int|
                    j <= y < bl ==> lex_lt(a@[x]@, (#[trigger] b@[y])@)) by {
                    if x == i {
                        assert forall|y: int|
                            j <= y < bl implies lex_lt(a@[i as int]@, (#[trigger] b@[y])@) by {
                            if y > j {
                                crate::keys::lemma_lex_lt_trans(
                                    a@[i as int]@,
                                    b@[j as int]@,
                                    b@[y]@,
                                );
                            }
                        }
                    }
                }
            }
            i += 1;
        } else {
            proof {
                assert forall|y: int|
                    0 <= y < j + 1 implies contains_val(r@, (#[trigger] b@[y])@) || (forall|x: int|
                    i <= x < al ==> lex_lt(b@[y]@, (#[trigger] a@[x])@)) by {
                    if y == j {
                        assert forall|x: int|
                            i <= x < al implies lex_lt(b@[j as int]@, (#[trigger] a@[x])@) by {
                            if x > i {
                                crate::keys::lemma_lex_lt_trans(
                                    b@[j as int]@,
                                    a@[i as int]@,
                                    a@[x]@,
                                );
                            }
                        }
                    }
                }
            }
            j += 1;
        }
    }
    proof {
        assert forall|val: Seq<u8>|
            #![trigger contains_val(r@, val)]
            contains_val(r@, val) <==> (contains_val(a@, val) && contains_val(b@, val)) by {
            if contains_val(r@, val) {
                let x = choose|x: int|
                    0 <= x < i && (#[trigger] a@.subrange(0, i as int)[x])@ == val;
                assert((a@[x])@ == val);
            }
            if contains_val(a@, val) && contains_val(b@, val) {
                let x = choose|x: int| 0 <= x < al && (#[trigger] a@[x])@ == val;
                let y = choose|y: int| 0 <= y < bl && (#[trigger] b@[y])@ == val;
                if x < i {
                    assert((a@.subrange(0, i as int)[x])@ == val);
                    assert(contains_val(a@.subrange(0, i as int), val));
                } else {
                    // b is exhausted here, so b[y] was passed over
                    assert(j == bl);
                    if contains_val(r@, b@[y]@) {
                    } else {
                        assert(lex_lt(b@[y]@, a@[x]@));
                        lemma_lex_lt_ne(b@[y]@, a@[x]@);
                    }
                }
            }
        }
    }
    r
}

/// The value bound to a variable that is known to be bound.
pub fn must_get(binding: &Binding, variable: u8) -> (r: Vec<u8>)
    requires
        binding.wf(),
        binding@.dom().contains(variable),
    ensures
        r@ == binding@[variable],
        r@.len() == 32,
{
    match binding.get(variable) {
        Some(x) => x,
        None => {
            proof {
                assert(false);
            }
            Vec::new()
        },
    }
}

/// `contains_val` on a list agrees with membership in its element set.
pub proof fn lemma_contains_val_set(r: Seq<Vec<u8>>, val: Seq<u8>)
    ensures
        contains_val(r, val) == r.map_values(|v: Vec<u8>| v@).to_set().contains(val),
{
    let ms = r.map_values(|v: Vec<u8>| v@);
    if contains_val(r, val) {
        let x = choose|x: int| 0 <= x < r.len() && (#[trigger] r[x])@ == val;
        assert(ms[x] == val);
        assert(ms.contains(val));
    }
    if ms.to_set().contains(val) {
        let x = choose|x: int| 0 <= x < ms.len() && ms[x] == val;
        assert(r[x]@ == val);
    }
}

} // verus!
