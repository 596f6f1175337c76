//! The PATCH-backed triple-pattern constraint.
//!
//! One constraint per triple pattern `(?e ?a ?v)` over a `TribleSet`: each
//! of the twelve (variable, bound-set) cases is answered from the index
//! whose ordering puts the bound fields first, by `segmented_len` for
//! estimates, `infixes` for proposals and membership for confirmation.

use vstd::prelude::*;

use crate::bits::ByteBitset;
use crate::id::{embedded_id, id_from_value, id_into_value, id_of, value_of_id};
use crate::keys::{concat_bytes, lemma_lex_lt_prepend, lex_lt, KeyShape};
use crate::patch::Patch;
use crate::query::{contains_val, lemma_contains_val_set, must_get, sorted_lex, Binding, Constraint, Variable};
use crate::trible::{is_tri_shape, tri_len, tri_perm_at, tri_start, TribleSet};

verus! {

/// The 64-byte triple key for the given field values.
pub open spec fn key_of(ev: Seq<u8>, av: Seq<u8>, vv: Seq<u8>) -> Seq<u8> {
    id_of(ev) + id_of(av) + vv
}

/// The ordering image of a 64-byte key under a triple shape is the
/// concatenation of its fields in ordering rank.
proof fn lemma_tri_ord(s: KeyShape, o0: int, o1: int, o2: int, k: Seq<u8>)
    requires
        is_tri_shape(s, o0, o1, o2),
        k.len() == 64,
        0 <= o0 < 3,
        0 <= o1 < 3,
        0 <= o2 < 3,
        o0 != o1,
        o0 != o2,
        o1 != o2,
    ensures
        s.ord(k) == k.subrange(tri_start(o0), tri_start(o0) + tri_len(o0)) + k.subrange(
            tri_start(o1),
            tri_start(o1) + tri_len(o1),
        ) + k.subrange(tri_start(o2), tri_start(o2) + tri_len(o2)),
{
    let c = k.subrange(tri_start(o0), tri_start(o0) + tri_len(o0)) + k.subrange(
        tri_start(o1),
        tri_start(o1) + tri_len(o1),
    ) + k.subrange(tri_start(o2), tri_start(o2) + tri_len(o2));
    assert forall|i: int| 0 <= i < 64 implies s.ord(k)[i] == c[i] by {
        assert(s.perm@[i] == tri_perm_at(i, o0, o1, o2));
    }
    assert(s.ord(k) =~= c);
}

/// Embeds a sorted list of 16-byte ids into 32-byte values, keeping order.
pub(crate) fn embed_all(ids: &Vec<Vec<u8>>) -> (r: Vec<Vec<u8>>)
    requires
        sorted_lex(ids@),
        forall|x: int| 0 <= x < ids@.len() ==> (#[trigger] ids@[x])@.len() == 16,
    ensures
        r@.len() == ids@.len(),
        forall|x: int| 0 <= x < r@.len() ==> (#[trigger] r@[x])@ == value_of_id(ids@[x]@),
        forall|x: int| 0 <= x < r@.len() ==> (#[trigger] r@[x])@.len() == 32,
        sorted_lex(r@),
{
    let n = ids.len();
    let mut r: Vec<Vec<u8>> = Vec::new();
    let mut i: usize = 0;
    while i < n
        invariant
            sorted_lex(ids@),
            forall|x: int| 0 <= x < ids@.len() ==> (#[trigger] ids@[x])@.len() == 16,
            n == ids@.len(),
            0 <= i <= n,
            r@.len() == i,
            forall|x: int| 0 <= x < i ==> (#[trigger] r@[x])@ == value_of_id(ids@[x]@),
        decreases n - i,
    {
        r.push(id_into_value(&ids[i]));
        i += 1;
    }
    proof {
        assert forall|x: int, y: int|
            0 <= x < y < r@.len() implies lex_lt((#[trigger] r@[x])@, (#[trigger] r@[y])@) by {
            lemma_lex_lt_prepend(crate::id::zero16(), ids@[x]@, ids@[y]@);
        }
        assert forall|x: int| 0 <= x < r@.len() implies (#[trigger] r@[x])@.len() == 32 by {
            assert(r@[x]@ == value_of_id(ids@[x]@));
        }
    }
    r
}

/// The number of distinct continuations of `p` in `tree`, as a machine word.
fn seg_count(tree: &Patch, p: &Vec<u8>) -> (r: usize)
    requires
        tree.wf(),
        p@.len() < tree.shape.key_len(),
    ensures
        r as int == tree.seg_projections(p@).len(),
{
    let nk = tree.keys.len();
    let c = tree.segmented_len(p);
    proof {
        assert(c <= nk as u64);
    }
    c as usize
}

/// A triple pattern over a `TribleSet`.
pub struct TribleSetConstraint<'a> {
    pub variable_e: Variable,
    pub variable_a: Variable,
    pub variable_v: Variable,
    pub set: &'a TribleSet,
}

impl<'a> TribleSetConstraint<'a> {
    pub open spec fn ve(self) -> u8 {
        self.variable_e.index
    }

    pub open spec fn va(self) -> u8 {
        self.variable_a.index
    }

    pub open spec fn vv(self) -> u8 {
        self.variable_v.index
    }

    pub fn new(
        variable_e: Variable,
        variable_a: Variable,
        variable_v: Variable,
        set: &'a TribleSet,
    ) -> (r: TribleSetConstraint<'a>)
        requires
            set.wf(),
            variable_e.index != variable_a.index,
            variable_e.index != variable_v.index,
            variable_a.index != variable_v.index,
        ensures
            r.wf(),
            r.ve() == variable_e.index,
            r.va() == variable_a.index,
            r.vv() == variable_v.index,
            r.set == set,
    {
        TribleSetConstraint { variable_e, variable_a, variable_v, set }
    }

    /// A member triple that agrees with the bound variables witnesses an
    /// admitted assignment for any one variable of the pattern.
    proof fn lemma_triple_admissible(
        &self,
        b: Map<u8, Seq<u8>>,
        variable: u8,
        val: Seq<u8>,
        t: Seq<u8>,
    )
        requires
            self.wf(),
            self.set.contents().contains(t),
            t.len() == 64,
            b.dom().contains(self.ve()) ==> embedded_id(b[self.ve()]) && t.subrange(0, 16)
                == id_of(b[self.ve()]),
            b.dom().contains(self.va()) ==> embedded_id(b[self.va()]) && t.subrange(16, 32)
                == id_of(b[self.va()]),
            b.dom().contains(self.vv()) ==> t.subrange(32, 64) == b[self.vv()],
            variable == self.ve() || variable == self.va() || variable == self.vv(),
            variable == self.ve() ==> val == value_of_id(t.subrange(0, 16)),
            variable == self.va() ==> val == value_of_id(t.subrange(16, 32)),
            variable == self.vv() ==> val == t.subrange(32, 64),
        ensures
            exists|m: Map<u8, Seq<u8>>|
                #[trigger] self.ok(m) && m.dom() == self.vars() && (forall|v: u8|
                    self.vars().contains(v) && b.dom().contains(v) ==> m[v] == b[v]) && m[variable]
                    == val,
    {
        let m = Map::<u8, Seq<u8>>::empty().insert(self.ve(), value_of_id(t.subrange(0, 16)))
            .insert(self.va(), value_of_id(t.subrange(16, 32))).insert(
            self.vv(),
            t.subrange(32, 64),
        );
        assert(m.dom() =~= self.vars());
        crate::id::lemma_value_of_id(t.subrange(0, 16));
        crate::id::lemma_value_of_id(t.subrange(16, 32));
        assert(key_of(m[self.ve()], m[self.va()], m[self.vv()]) =~= t);
        assert(self.ok(m));
        assert forall|v: u8|
            self.vars().contains(v) && b.dom().contains(v) implies m[v] == b[v] by {
            if v == self.ve() {
                crate::id::lemma_embedded_id(b[self.ve()]);
            } else if v == self.va() {
                crate::id::lemma_embedded_id(b[self.va()]);
            }
        }
        assert(m[variable] == val);
    }

    /// Exactly the values that extend `binding` at `variable` to a triple of
    /// the set, ascending and duplicate-free.
    fn options(&self, variable: u8, binding: &Binding) -> (r: Vec<Vec<u8>>)
        requires
            self.wf(),
            binding.wf(),
            self.vars().contains(variable),
            !binding@.dom().contains(variable),
        ensures
            sorted_lex(r@),
            forall|x: int| 0 <= x < r@.len() ==> (#[trigger] r@[x])@.len() == 32,
            forall|val: Seq<u8>|
                #![trigger contains_val(r@, val)]
                (exists|m: Map<u8, Seq<u8>>|
                    #[trigger] self.ok(m) && m.dom() == self.vars() && (forall|v: u8|
                        self.vars().contains(v) && binding@.dom().contains(v) ==> m[v] == binding@[v])
                        && m[variable] == val) ==> contains_val(r@, val),
            forall|val: Seq<u8>|
                #![trigger contains_val(r@, val)]
                contains_val(r@, val) ==> (exists|m: Map<u8, Seq<u8>>|
                    #[trigger] self.ok(m) && m.dom() == self.vars() && (forall|v: u8|
                        self.vars().contains(v) && binding@.dom().contains(v) ==> m[v] == binding@[v])
                        && m[variable] == val),
            forall|x: int|
                0 <= x < r@.len() ==> self.partial_ok(
                    binding@.insert(variable, (#[trigger] r@[x])@),
                ),
    {
        let e_bound = binding.is_bound(self.variable_e.index);
        let a_bound = binding.is_bound(self.variable_a.index);
        let v_bound = binding.is_bound(self.variable_v.index);
        if variable == self.variable_v.index {
            self.options_v(binding, e_bound, a_bound)
        } else if variable == self.variable_e.index {
            self.options_e(binding, a_bound, v_bound)
        } else {
            self.options_a(binding, e_bound, v_bound)
        }
    }

    fn options_v(&self, binding: &Binding, e_bound: bool, a_bound: bool) -> (r: Vec<Vec<u8>>)
        requires
            self.wf(),
            binding.wf(),
            !binding@.dom().contains(self.vv()),
            e_bound == binding@.dom().contains(self.ve()),
            a_bound == binding@.dom().contains(self.va()),
        ensures
            sorted_lex(r@),
            forall|x: int| 0 <= x < r@.len() ==> (#[trigger] r@[x])@.len() == 32,
            forall|val: Seq<u8>|
                #![trigger contains_val(r@, val)]
                (exists|m: Map<u8, Seq<u8>>|
                    #[trigger] self.ok(m) && m.dom() == self.vars() && (forall|v: u8|
                        self.vars().contains(v) && binding@.dom().contains(v) ==> m[v] == binding@[v])
                        && m[self.vv()] == val) ==> contains_val(r@, val),
            forall|val: Seq<u8>|
                #![trigger contains_val(r@, val)]
                contains_val(r@, val) ==> (exists|m: Map<u8, Seq<u8>>|
                    #[trigger] self.ok(m) && m.dom() == self.vars() && (forall|v: u8|
                        self.vars().contains(v) && binding@.dom().contains(v) ==> m[v] == binding@[v])
                        && m[self.vv()] == val),
            forall|x: int|
                0 <= x < r@.len() ==> self.partial_ok(
                    binding@.insert(self.vv(), (#[trigger] r@[x])@),
                ),
    {
        if e_bound && a_bound {
            let evv = must_get(binding, self.variable_e.index);
            let avv = must_get(binding, self.variable_a.index);
            if !crate::id::is_embedded_id(&evv) || !crate::id::is_embedded_id(&avv) {
                let r: Vec<Vec<u8>> = Vec::new();
                proof {
                    self.lemma_no_admissible_v(binding@, r@);
                }
                return r;
            }
            let p = concat_bytes(id_from_value(&evv), &id_from_value(&avv));
            let tree = &self.set.eav;
            proof {
                assert(tree.shape.perm@[32] == 32 && tree.shape.perm@[63] == 63);
                assert(tree.shape.seg@[32] == 2 && tree.shape.seg@[63] == 2);
            }
            let r = tree.infixes(&p, 32);
            proof {
                let b = binding@;
                let gp = id_of(b[self.ve()]) + id_of(b[self.va()]);
                assert(p@ == gp);
                assert forall|val: Seq<u8>|
                    #![trigger contains_val(r@, val)]
                    (exists|m: Map<u8, Seq<u8>>|
                        #[trigger] self.ok(m) && m.dom() == self.vars() && (forall|v: u8|
                            self.vars().contains(v) && b.dom().contains(v) ==> m[v] == b[v])
                            && m[self.vv()] == val) implies contains_val(r@, val) by {
                    let m = choose|m: Map<u8, Seq<u8>>|
                        #[trigger] self.ok(m) && m.dom() == self.vars() && (forall|v: u8|
                            self.vars().contains(v) && b.dom().contains(v) ==> m[v] == b[v])
                            && m[self.vv()] == val;
                    let k = key_of(m[self.ve()], m[self.va()], m[self.vv()]);
                    lemma_tri_ord(tree.shape, 0, 1, 2, k);
                    assert(tree.shape.ord(k) =~= k);
                    assert(k.subrange(0, 32) =~= gp);
                    assert(tree.shape.ord(k).subrange(0, 32) == p@);
                    assert(tree.shape.matches(k, p@));
                    assert(tree.shape.ord(k).subrange(32, 64) =~= val);
                    assert(tree.key_set().contains(k));
                    assert(tree.infix_set(p@, 32).contains(val));
                    lemma_contains_val_set(r@, val);
                }
                assert forall|x: int|
                    0 <= x < r@.len() implies self.partial_ok(
                    b.insert(self.vv(), (#[trigger] r@[x])@),
                ) by {
                    lemma_contains_val_set(r@, r@[x]@);
                    assert(tree.infix_set(p@, 32).contains(r@[x]@));
                    let k2 = choose|k2: Seq<u8>|
                        #[trigger] tree.key_set().contains(k2) && tree.shape.matches(k2, p@)
                            && r@[x]@ == tree.shape.ord(k2).subrange(32, 64);
                    lemma_tri_ord(tree.shape, 0, 1, 2, k2);
                    assert(tree.shape.ord(k2) =~= k2);
                    assert(k2 =~= gp + r@[x]@);
                    let b2 = b.insert(self.vv(), r@[x]@);
                    assert(key_of(b2[self.ve()], b2[self.va()], b2[self.vv()]) =~= k2);
                }
                assert forall|val: Seq<u8>|
                    #![trigger contains_val(r@, val)]
                    contains_val(r@, val) implies (exists|m: Map<u8, Seq<u8>>|
                        #[trigger] self.ok(m) && m.dom() == self.vars() && (forall|v: u8|
                            self.vars().contains(v) && b.dom().contains(v) ==> m[v] == b[v])
                            && m[self.vv()] == val) by {
                    lemma_contains_val_set(r@, val);
                    assert(tree.infix_set(p@, 32).contains(val));
                    let k = choose|k: Seq<u8>|
                        #[trigger] tree.key_set().contains(k) && tree.shape.matches(k, p@) && val
                            == tree.shape.ord(k).subrange(32, 64);
                    tree.lemma_idx_of(k);
                    assert(tree.shape.key_ok(tree.keys_seq()[tree.idx_of(k)]));
                    lemma_tri_ord(tree.shape, 0, 1, 2, k);
                    assert(tree.shape.ord(k) =~= k.subrange(0, 16) + k.subrange(16, 32) + k.subrange(32, 64));
                    assert(k.subrange(0, 16) =~= tree.shape.ord(k).subrange(0, 16));
                    assert(tree.shape.ord(k).subrange(0, 16) =~= gp.subrange(0, 16));
                    assert(gp.subrange(0, 16) =~= id_of(b[self.ve()]));
                    assert(k.subrange(16, 32) =~= tree.shape.ord(k).subrange(16, 32));
                    assert(tree.shape.ord(k).subrange(16, 32) =~= gp.subrange(16, 32));
                    assert(gp.subrange(16, 32) =~= id_of(b[self.va()]));
                    assert(val =~= k.subrange(32, 64));
                    self.lemma_triple_admissible(b, self.vv(), val, k);
                }
            }
            r
        } else if e_bound {
            let evv = must_get(binding, self.variable_e.index);
            if !crate::id::is_embedded_id(&evv) {
                let r: Vec<Vec<u8>> = Vec::new();
                proof {
                    self.lemma_no_admissible_v(binding@, r@);
                }
                return r;
            }
            let p = id_from_value(&evv);
            let tree = &self.set.eva;
            proof {
                assert(tree.shape.perm@[16] == 32 && tree.shape.perm@[47] == 63);
                assert(tree.shape.seg@[32] == 1 && tree.shape.seg@[63] == 1);
            }
            let r = tree.infixes(&p, 32);
            proof {
                let b = binding@;
                self.lemma_middle_v(b);
                assert forall|val: Seq<u8>|
                    #![trigger contains_val(r@, val)]
                    (exists|m: Map<u8, Seq<u8>>|
                        #[trigger] self.ok(m) && m.dom() == self.vars() && (forall|v: u8|
                            self.vars().contains(v) && b.dom().contains(v) ==> m[v] == b[v])
                            && m[self.vv()] == val) implies contains_val(r@, val) by {
                    let m = choose|m: Map<u8, Seq<u8>>|
                        #[trigger] self.ok(m) && m.dom() == self.vars() && (forall|v: u8|
                            self.vars().contains(v) && b.dom().contains(v) ==> m[v] == b[v])
                            && m[self.vv()] == val;
                    let k = key_of(m[self.ve()], m[self.va()], m[self.vv()]);
                    lemma_tri_ord(tree.shape, 0, 2, 1, k);
                    assert(tree.shape.ord(k) =~= k.subrange(0, 16) + k.subrange(32, 64)
                        + k.subrange(16, 32));
                    assert(k.subrange(0, 16) =~= id_of(m[self.ve()]));
                    assert(tree.shape.ord(k).subrange(0, 16) =~= p@);
                    assert(tree.shape.matches(k, p@));
                    assert(tree.shape.ord(k).subrange(16, 48) =~= val);
                    assert(tree.key_set().contains(k));
                    assert(tree.infix_set(p@, 32).contains(val));
                    lemma_contains_val_set(r@, val);
                }
                assert forall|val: Seq<u8>|
                    #![trigger contains_val(r@, val)]
                    contains_val(r@, val) implies (exists|m: Map<u8, Seq<u8>>|
                        #[trigger] self.ok(m) && m.dom() == self.vars() && (forall|v: u8|
                            self.vars().contains(v) && b.dom().contains(v) ==> m[v] == b[v])
                            && m[self.vv()] == val) by {
                    lemma_contains_val_set(r@, val);
                    assert(tree.infix_set(p@, 32).contains(val));
                    let k = choose|k: Seq<u8>|
                        #[trigger] tree.key_set().contains(k) && tree.shape.matches(k, p@) && val
                            == tree.shape.ord(k).subrange(16, 48);
                    tree.lemma_idx_of(k);
                    assert(tree.shape.key_ok(tree.keys_seq()[tree.idx_of(k)]));
                    lemma_tri_ord(tree.shape, 0, 2, 1, k);
                    assert(tree.shape.ord(k) =~= k.subrange(0, 16) + k.subrange(32, 64) + k.subrange(16, 32));
                    assert(k.subrange(0, 16) =~= tree.shape.ord(k).subrange(0, 16));
                    assert(tree.shape.ord(k).subrange(0, 16) =~= p@);
                    assert(val =~= k.subrange(32, 64));
                    self.lemma_triple_admissible(b, self.vv(), val, k);
                }
            }
            r
        } else if a_bound {
            let avv = must_get(binding, self.variable_a.index);
            if !crate::id::is_embedded_id(&avv) {
                let r: Vec<Vec<u8>> = Vec::new();
                proof {
                    self.lemma_no_admissible_v(binding@, r@);
                }
                return r;
            }
            let p = id_from_value(&avv);
            let tree = &self.set.ave;
            proof {
                assert(tree.shape.perm@[16] == 32 && tree.shape.perm@[47] == 63);
                assert(tree.shape.seg@[32] == 1 && tree.shape.seg@[63] == 1);
            }
            let r = tree.infixes(&p, 32);
            proof {
                let b = binding@;
                self.lemma_middle_v(b);
                assert forall|val: Seq<u8>|
                    #![trigger contains_val(r@, val)]
                    (exists|m: Map<u8, Seq<u8>>|
                        #[trigger] self.ok(m) && m.dom() == self.vars() && (forall|v: u8|
                            self.vars().contains(v) && b.dom().contains(v) ==> m[v] == b[v])
                            && m[self.vv()] == val) implies contains_val(r@, val) by {
                    let m = choose|m: Map<u8, Seq<u8>>|
                        #[trigger] self.ok(m) && m.dom() == self.vars() && (forall|v: u8|
                            self.vars().contains(v) && b.dom().contains(v) ==> m[v] == b[v])
                            && m[self.vv()] == val;
                    let k = key_of(m[self.ve()], m[self.va()], m[self.vv()]);
                    lemma_tri_ord(tree.shape, 1, 2, 0, k);
                    assert(tree.shape.ord(k) =~= k.subrange(16, 32) + k.subrange(32, 64)
                        + k.subrange(0, 16));
                    assert(k.subrange(16, 32) =~= id_of(m[self.va()]));
                    assert(tree.shape.ord(k).subrange(0, 16) =~= p@);
                    assert(tree.shape.matches(k, p@));
                    assert(tree.shape.ord(k).subrange(16, 48) =~= val);
                    assert(tree.key_set().contains(k));
                    assert(tree.infix_set(p@, 32).contains(val));
                    lemma_contains_val_set(r@, val);
                }
                assert forall|val: Seq<u8>|
                    #![trigger contains_val(r@, val)]
                    contains_val(r@, val) implies (exists|m: Map<u8, Seq<u8>>|
                        #[trigger] self.ok(m) && m.dom() == self.vars() && (forall|v: u8|
                            self.vars().contains(v) && b.dom().contains(v) ==> m[v] == b[v])
                            && m[self.vv()] == val) by {
                    lemma_contains_val_set(r@, val);
                    assert(tree.infix_set(p@, 32).contains(val));
                    let k = choose|k: Seq<u8>|
                        #[trigger] tree.key_set().contains(k) && tree.shape.matches(k, p@) && val
                            == tree.shape.ord(k).subrange(16, 48);
                    tree.lemma_idx_of(k);
                    assert(tree.shape.key_ok(tree.keys_seq()[tree.idx_of(k)]));
                    lemma_tri_ord(tree.shape, 1, 2, 0, k);
                    assert(tree.shape.ord(k) =~= k.subrange(16, 32) + k.subrange(32, 64) + k.subrange(0, 16));
                    assert(k.subrange(16, 32) =~= tree.shape.ord(k).subrange(0, 16));
                    assert(tree.shape.ord(k).subrange(0, 16) =~= p@);
                    assert(val =~= k.subrange(32, 64));
                    self.lemma_triple_admissible(b, self.vv(), val, k);
                }
            }
            r
        } else {
            let p: Vec<u8> = Vec::new();
            let tree = &self.set.vea;
            proof {
                assert(tree.shape.perm@[0] == 32 && tree.shape.perm@[31] == 63);
                assert(tree.shape.seg@[32] == 0 && tree.shape.seg@[63] == 0);
            }
            let r = tree.infixes(&p, 32);
            proof {
                let b = binding@;
                self.lemma_middle_v(b);
                assert forall|val: Seq<u8>|
                    #![trigger contains_val(r@, val)]
                    (exists|m: Map<u8, Seq<u8>>|
                        #[trigger] self.ok(m) && m.dom() == self.vars() && (forall|v: u8|
                            self.vars().contains(v) && b.dom().contains(v) ==> m[v] == b[v])
                            && m[self.vv()] == val) implies contains_val(r@, val) by {
                    let m = choose|m: Map<u8, Seq<u8>>|
                        #[trigger] self.ok(m) && m.dom() == self.vars() && (forall|v: u8|
                            self.vars().contains(v) && b.dom().contains(v) ==> m[v] == b[v])
                            && m[self.vv()] == val;
                    let k = key_of(m[self.ve()], m[self.va()], m[self.vv()]);
                    lemma_tri_ord(tree.shape, 2, 0, 1, k);
                    assert(tree.shape.ord(k) =~= k.subrange(32, 64) + k.subrange(0, 16)
                        + k.subrange(16, 32));
                    assert(p@ =~= tree.shape.ord(k).subrange(0, 0));
                    assert(tree.shape.matches(k, p@));
                    assert(tree.shape.ord(k).subrange(0, 32) =~= val);
                    assert(tree.key_set().contains(k));
                    assert(tree.infix_set(p@, 32).contains(val));
                    lemma_contains_val_set(r@, val);
                }
                assert forall|val: Seq<u8>|
                    #![trigger contains_val(r@, val)]
                    contains_val(r@, val) implies (exists|m: Map<u8, Seq<u8>>|
                        #[trigger] self.ok(m) && m.dom() == self.vars() && (forall|v: u8|
                            self.vars().contains(v) && b.dom().contains(v) ==> m[v] == b[v])
                            && m[self.vv()] == val) by {
                    lemma_contains_val_set(r@, val);
                    assert(tree.infix_set(p@, 32).contains(val));
                    let k = choose|k: Seq<u8>|
                        #[trigger] tree.key_set().contains(k) && tree.shape.matches(k, p@) && val
                            == tree.shape.ord(k).subrange(0, 32);
                    tree.lemma_idx_of(k);
                    assert(tree.shape.key_ok(tree.keys_seq()[tree.idx_of(k)]));
                    lemma_tri_ord(tree.shape, 2, 0, 1, k);
                    assert(tree.shape.ord(k) =~= k.subrange(32, 64) + k.subrange(0, 16) + k.subrange(16, 32));
                    assert(val =~= k.subrange(32, 64));
                    self.lemma_triple_admissible(b, self.vv(), val, k);
                }
            }
            r
        }
    }

    /// When the bound values cannot be triple fields, nothing is admissible.
    proof fn lemma_no_admissible_v(&self, b: Map<u8, Seq<u8>>, r: Seq<Vec<u8>>)
        requires
            self.wf(),
            r.len() == 0,
            (b.dom().contains(self.ve()) && !embedded_id(b[self.ve()])) || (b.dom().contains(
                self.va(),
            ) && !embedded_id(b[self.va()])),
        ensures
            forall|val: Seq<u8>|
                #![trigger contains_val(r, val)]
                (exists|m: Map<u8, Seq<u8>>|
                    #[trigger] self.ok(m) && m.dom() == self.vars() && (forall|v: u8|
                        self.vars().contains(v) && b.dom().contains(v) ==> m[v] == b[v])
                        && m[self.vv()] == val) ==> contains_val(r, val),
            forall|x: int|
                0 <= x < r.len() ==> self.partial_ok(b.insert(self.vv(), (#[trigger] r[x])@)),
    {
        assert forall|val: Seq<u8>|
            #![trigger contains_val(r, val)]
            (exists|m: Map<u8, Seq<u8>>|
                #[trigger] self.ok(m) && m.dom() == self.vars() && (forall|v: u8|
                    self.vars().contains(v) && b.dom().contains(v) ==> m[v] == b[v]) && m[self.vv()]
                    == val) implies contains_val(r, val) by {
            let m = choose|m: Map<u8, Seq<u8>>|
                #[trigger] self.ok(m) && m.dom() == self.vars() && (forall|v: u8|
                    self.vars().contains(v) && b.dom().contains(v) ==> m[v] == b[v]) && m[self.vv()]
                    == val;
            assert(false);
        }
    }

    /// Binding the value variable while another variable stays unbound keeps
    /// `partial_ok` trivially true.
    proof fn lemma_middle_v(&self, b: Map<u8, Seq<u8>>)
        requires
            self.wf(),
            !b.dom().contains(self.ve()) || !b.dom().contains(self.va()),
        ensures
            forall|val: Seq<u8>| self.partial_ok(#[trigger] b.insert(self.vv(), val)),
    {
        assert forall|val: Seq<u8>| self.partial_ok(#[trigger] b.insert(self.vv(), val)) by {
            let b2 = b.insert(self.vv(), val);
            if !b.dom().contains(self.ve()) {
                assert(!b2.dom().contains(self.ve()));
                assert(!self.vars().subset_of(b2.dom()));
            } else {
                assert(!b2.dom().contains(self.va()));
                assert(!self.vars().subset_of(b2.dom()));
            }
        }
    }
}


impl<'a> TribleSetConstraint<'a> {
    fn options_e(&self, binding: &Binding, a_bound: bool, v_bound: bool) -> (r: Vec<Vec<u8>>)
        requires
            self.wf(),
            binding.wf(),
            !binding@.dom().contains(self.ve()),
            a_bound == binding@.dom().contains(self.va()),
            v_bound == binding@.dom().contains(self.vv()),
        ensures
            sorted_lex(r@),
            forall|x: int| 0 <= x < r@.len() ==> (#[trigger] r@[x])@.len() == 32,
            forall|val: Seq<u8>|
                #![trigger contains_val(r@, val)]
                (exists|m: Map<u8, Seq<u8>>|
                    #[trigger] self.ok(m) && m.dom() == self.vars() && (forall|v: u8|
                        self.vars().contains(v) && binding@.dom().contains(v) ==> m[v] == binding@[v])
                        && m[self.ve()] == val) ==> contains_val(r@, val),
            forall|val: Seq<u8>|
                #![trigger contains_val(r@, val)]
                contains_val(r@, val) ==> (exists|m: Map<u8, Seq<u8>>|
                    #[trigger] self.ok(m) && m.dom() == self.vars() && (forall|v: u8|
                        self.vars().contains(v) && binding@.dom().contains(v) ==> m[v] == binding@[v])
                        && m[self.ve()] == val),
            forall|x: int|
                0 <= x < r@.len() ==> self.partial_ok(
                    binding@.insert(self.ve(), (#[trigger] r@[x])@),
                ),
    {
        if a_bound && v_bound {
            let avv = must_get(binding, self.variable_a.index);
            let vvv = must_get(binding, self.variable_v.index);
            if !crate::id::is_embedded_id(&avv) {
                let r: Vec<Vec<u8>> = Vec::new();
                proof {
                    self.lemma_no_admissible_e(binding@, r@);
                }
                return r;
            }
            let p = concat_bytes(id_from_value(&avv), &vvv);
            let tree = &self.set.ave;
            proof {
                assert(tree.shape.perm@[48] == 0 && tree.shape.perm@[63] == 15);
                assert(tree.shape.seg@[0] == 2 && tree.shape.seg@[15] == 2);
            }
            let ids = tree.infixes(&p, 16);
            let r = embed_all(&ids);
            proof {
                let b = binding@;
                let gp = id_of(b[self.va()]) + b[self.vv()];
                assert(p@ == gp);
                assert forall|val: Seq<u8>|
                    #![trigger contains_val(r@, val)]
                    (exists|m: Map<u8, Seq<u8>>|
                        #[trigger] self.ok(m) && m.dom() == self.vars() && (forall|v: u8|
                            self.vars().contains(v) && b.dom().contains(v) ==> m[v] == b[v])
                            && m[self.ve()] == val) implies contains_val(r@, val) by {
                    let m = choose|m: Map<u8, Seq<u8>>|
                        #[trigger] self.ok(m) && m.dom() == self.vars() && (forall|v: u8|
                            self.vars().contains(v) && b.dom().contains(v) ==> m[v] == b[v])
                            && m[self.ve()] == val;
                    let k = key_of(m[self.ve()], m[self.va()], m[self.vv()]);
                    lemma_tri_ord(tree.shape, 1, 2, 0, k);
                    assert(tree.shape.ord(k) =~= k.subrange(16, 32) + k.subrange(32, 64)
                        + k.subrange(0, 16));
                    assert(p@ =~= tree.shape.ord(k).subrange(0, 48));
                    assert(tree.shape.matches(k, p@));
                    let id0 = id_of(val);
                    crate::id::lemma_embedded_id(val);
                    assert(tree.shape.ord(k).subrange(48, 64) =~= id0);
                    assert(tree.key_set().contains(k));
                    assert(tree.infix_set(p@, 16).contains(id0));
                    lemma_contains_val_set(ids@, id0);
                    let x = choose|x: int| 0 <= x < ids@.len() && (#[trigger] ids@[x])@ == id0;
                    assert(r@[x]@ == value_of_id(id0));
                    assert(r@[x]@ == val);
                }
                assert forall|x: int|
                    0 <= x < r@.len() implies self.partial_ok(
                    b.insert(self.ve(), (#[trigger] r@[x])@),
                ) by {
                    lemma_contains_val_set(ids@, ids@[x]@);
                    assert(contains_val(ids@, ids@[x]@));
                    assert(tree.infix_set(p@, 16).contains(ids@[x]@));
                    let k2 = choose|k2: Seq<u8>|
                        #[trigger] tree.key_set().contains(k2) && tree.shape.matches(k2, p@)
                            && ids@[x]@ == tree.shape.ord(k2).subrange(48, 64);
                    lemma_tri_ord(tree.shape, 1, 2, 0, k2);
                    assert(tree.shape.ord(k2) =~= k2.subrange(16, 32) + k2.subrange(32, 64)
                        + k2.subrange(0, 16));
                    assert(k2.subrange(16, 32) =~= gp.subrange(0, 16));
                    assert(k2.subrange(32, 64) =~= gp.subrange(16, 48));
                    assert(k2.subrange(0, 16) =~= ids@[x]@);
                    crate::id::lemma_value_of_id(ids@[x]@);
                    let b2 = b.insert(self.ve(), r@[x]@);
                    assert(embedded_id(b2[self.ve()]));
                    assert(gp.subrange(0, 16) =~= id_of(b[self.va()]));
                    assert(gp.subrange(16, 48) =~= b[self.vv()]);
                    assert(k2 =~= k2.subrange(0, 16) + k2.subrange(16, 32) + k2.subrange(32, 64));
                    assert(key_of(b2[self.ve()], b2[self.va()], b2[self.vv()]) =~= k2);
                    assert(self.set.contents().contains(key_of(
                        b2[self.ve()],
                        b2[self.va()],
                        b2[self.vv()],
                    )));
                }
                assert forall|val: Seq<u8>|
                    #![trigger contains_val(r@, val)]
                    contains_val(r@, val) implies (exists|m: Map<u8, Seq<u8>>|
                        #[trigger] self.ok(m) && m.dom() == self.vars() && (forall|v: u8|
                            self.vars().contains(v) && b.dom().contains(v) ==> m[v] == b[v])
                            && m[self.ve()] == val) by {
                    let y = choose|y: int| 0 <= y < r@.len() && (#[trigger] r@[y])@ == val;
                    assert(val == value_of_id(ids@[y]@));
                    lemma_contains_val_set(ids@, ids@[y]@);
                    assert(contains_val(ids@, ids@[y]@));
                    assert(tree.infix_set(p@, 16).contains(ids@[y]@));
                    let k = choose|k: Seq<u8>|
                        #[trigger] tree.key_set().contains(k) && tree.shape.matches(k, p@) && ids@[
                        y]@ == tree.shape.ord(k).subrange(48, 64);
                    tree.lemma_idx_of(k);
                    assert(tree.shape.key_ok(tree.keys_seq()[tree.idx_of(k)]));
                    lemma_tri_ord(tree.shape, 1, 2, 0, k);
                    assert(tree.shape.ord(k) =~= k.subrange(16, 32) + k.subrange(32, 64) + k.subrange(0, 16));
                    assert(k.subrange(16, 32) =~= tree.shape.ord(k).subrange(0, 16));
                    assert(tree.shape.ord(k).subrange(0, 16) =~= gp.subrange(0, 16));
                    assert(gp.subrange(0, 16) =~= id_of(b[self.va()]));
                    assert(k.subrange(32, 64) =~= tree.shape.ord(k).subrange(16, 48));
                    assert(tree.shape.ord(k).subrange(16, 48) =~= gp.subrange(16, 48));
                    assert(gp.subrange(16, 48) =~= b[self.vv()]);
                    assert(ids@[y]@ =~= k.subrange(0, 16));
                    self.lemma_triple_admissible(b, self.ve(), val, k);
                }
            }
            r
        } else if a_bound {
            let avv = must_get(binding, self.variable_a.index);
            if !crate::id::is_embedded_id(&avv) {
                let r: Vec<Vec<u8>> = Vec::new();
                proof {
                    self.lemma_no_admissible_e(binding@, r@);
                }
                return r;
            }
            let p = id_from_value(&avv);
            let tree = &self.set.aev;
            proof {
                assert(tree.shape.perm@[16] == 0 && tree.shape.perm@[31] == 15);
                assert(tree.shape.seg@[0] == 1 && tree.shape.seg@[15] == 1);
            }
            let ids = tree.infixes(&p, 16);
            let r = embed_all(&ids);
            proof {
                let b = binding@;
                self.lemma_middle_e(b);
                assert forall|val: Seq<u8>|
                    #![trigger contains_val(r@, val)]
                    (exists|m: Map<u8, Seq<u8>>|
                        #[trigger] self.ok(m) && m.dom() == self.vars() && (forall|v: u8|
                            self.vars().contains(v) && b.dom().contains(v) ==> m[v] == b[v])
                            && m[self.ve()] == val) implies contains_val(r@, val) by {
                    let m = choose|m: Map<u8, Seq<u8>>|
                        #[trigger] self.ok(m) && m.dom() == self.vars() && (forall|v: u8|
                            self.vars().contains(v) && b.dom().contains(v) ==> m[v] == b[v])
                            && m[self.ve()] == val;
                    let k = key_of(m[self.ve()], m[self.va()], m[self.vv()]);
                    lemma_tri_ord(tree.shape, 1, 0, 2, k);
                    assert(tree.shape.ord(k) =~= k.subrange(16, 32) + k.subrange(0, 16)
                        + k.subrange(32, 64));
                    assert(p@ =~= tree.shape.ord(k).subrange(0, 16));
                    assert(tree.shape.matches(k, p@));
                    let id0 = id_of(val);
                    crate::id::lemma_embedded_id(val);
                    assert(tree.shape.ord(k).subrange(16, 32) =~= id0);
                    assert(tree.key_set().contains(k));
                    assert(tree.infix_set(p@, 16).contains(id0));
                    lemma_contains_val_set(ids@, id0);
                    let x = choose|x: int| 0 <= x < ids@.len() && (#[trigger] ids@[x])@ == id0;
                    assert(r@[x]@ == value_of_id(id0));
                    assert(r@[x]@ == val);
                }
                assert forall|val: Seq<u8>|
                    #![trigger contains_val(r@, val)]
                    contains_val(r@, val) implies (exists|m: Map<u8, Seq<u8>>|
                        #[trigger] self.ok(m) && m.dom() == self.vars() && (forall|v: u8|
                            self.vars().contains(v) && b.dom().contains(v) ==> m[v] == b[v])
                            && m[self.ve()] == val) by {
                    let y = choose|y: int| 0 <= y < r@.len() && (#[trigger] r@[y])@ == val;
                    assert(val == value_of_id(ids@[y]@));
                    lemma_contains_val_set(ids@, ids@[y]@);
                    assert(contains_val(ids@, ids@[y]@));
                    assert(tree.infix_set(p@, 16).contains(ids@[y]@));
                    let k = choose|k: Seq<u8>|
                        #[trigger] tree.key_set().contains(k) && tree.shape.matches(k, p@) && ids@[
                        y]@ == tree.shape.ord(k).subrange(16, 32);
                    tree.lemma_idx_of(k);
                    assert(tree.shape.key_ok(tree.keys_seq()[tree.idx_of(k)]));
                    lemma_tri_ord(tree.shape, 1, 0, 2, k);
                    assert(tree.shape.ord(k) =~= k.subrange(16, 32) + k.subrange(0, 16) + k.subrange(32, 64));
                    assert(k.subrange(16, 32) =~= tree.shape.ord(k).subrange(0, 16));
                    assert(tree.shape.ord(k).subrange(0, 16) =~= p@);
                    assert(ids@[y]@ =~= k.subrange(0, 16));
                    self.lemma_triple_admissible(b, self.ve(), val, k);
                }
            }
            r
        } else if v_bound {
            let vvv = must_get(binding, self.variable_v.index);
            let p = vvv;
            let tree = &self.set.vea;
            proof {
                assert(tree.shape.perm@[32] == 0 && tree.shape.perm@[47] == 15);
                assert(tree.shape.seg@[0] == 1 && tree.shape.seg@[15] == 1);
            }
            let ids = tree.infixes(&p, 16);
            let r = embed_all(&ids);
            proof {
                let b = binding@;
                self.lemma_middle_e(b);
                assert forall|val: Seq<u8>|
                    #![trigger contains_val(r@, val)]
                    (exists|m: Map<u8, Seq<u8>>|
                        #[trigger] self.ok(m) && m.dom() == self.vars() && (forall|v: u8|
                            self.vars().contains(v) && b.dom().contains(v) ==> m[v] == b[v])
                            && m[self.ve()] == val) implies contains_val(r@, val) by {
                    let m = choose|m: Map<u8, Seq<u8>>|
                        #[trigger] self.ok(m) && m.dom() == self.vars() && (forall|v: u8|
                            self.vars().contains(v) && b.dom().contains(v) ==> m[v] == b[v])
                            && m[self.ve()] == val;
                    let k = key_of(m[self.ve()], m[self.va()], m[self.vv()]);
                    lemma_tri_ord(tree.shape, 2, 0, 1, k);
                    assert(tree.shape.ord(k) =~= k.subrange(32, 64) + k.subrange(0, 16)
                        + k.subrange(16, 32));
                    assert(p@ =~= tree.shape.ord(k).subrange(0, 32));
                    assert(tree.shape.matches(k, p@));
                    let id0 = id_of(val);
                    crate::id::lemma_embedded_id(val);
                    assert(tree.shape.ord(k).subrange(32, 48) =~= id0);
                    assert(tree.key_set().contains(k));
                    assert(tree.infix_set(p@, 16).contains(id0));
                    lemma_contains_val_set(ids@, id0);
                    let x = choose|x: int| 0 <= x < ids@.len() && (#[trigger] ids@[x])@ == id0;
                    assert(r@[x]@ == value_of_id(id0));
                    assert(r@[x]@ == val);
                }
                assert forall|val: Seq<u8>|
                    #![trigger contains_val(r@, val)]
                    contains_val(r@, val) implies (exists|m: Map<u8, Seq<u8>>|
                        #[trigger] self.ok(m) && m.dom() == self.vars() && (forall|v: u8|
                            self.vars().contains(v) && b.dom().contains(v) ==> m[v] == b[v])
                            && m[self.ve()] == val) by {
                    let y = choose|y: int| 0 <= y < r@.len() && (#[trigger] r@[y])@ == val;
                    assert(val == value_of_id(ids@[y]@));
                    lemma_contains_val_set(ids@, ids@[y]@);
                    assert(contains_val(ids@, ids@[y]@));
                    assert(tree.infix_set(p@, 16).contains(ids@[y]@));
                    let k = choose|k: Seq<u8>|
                        #[trigger] tree.key_set().contains(k) && tree.shape.matches(k, p@) && ids@[
                        y]@ == tree.shape.ord(k).subrange(32, 48);
                    tree.lemma_idx_of(k);
                    assert(tree.shape.key_ok(tree.keys_seq()[tree.idx_of(k)]));
                    lemma_tri_ord(tree.shape, 2, 0, 1, k);
                    assert(tree.shape.ord(k) =~= k.subrange(32, 64) + k.subrange(0, 16) + k.subrange(16, 32));
                    assert(k.subrange(32, 64) =~= tree.shape.ord(k).subrange(0, 32));
                    assert(tree.shape.ord(k).subrange(0, 32) =~= p@);
                    assert(ids@[y]@ =~= k.subrange(0, 16));
                    self.lemma_triple_admissible(b, self.ve(), val, k);
                }
            }
            r
        } else if !a_bound && !v_bound {
            
            let p = Vec::new();
            let tree = &self.set.eav;
            proof {
                assert(tree.shape.perm@[0] == 0 && tree.shape.perm@[15] == 15);
                assert(tree.shape.seg@[0] == 0 && tree.shape.seg@[15] == 0);
            }
            let ids = tree.infixes(&p, 16);
            let r = embed_all(&ids);
            proof {
                let b = binding@;
                self.lemma_middle_e(b);
                assert forall|val: Seq<u8>|
                    #![trigger contains_val(r@, val)]
                    (exists|m: Map<u8, Seq<u8>>|
                        #[trigger] self.ok(m) && m.dom() == self.vars() && (forall|v: u8|
                            self.vars().contains(v) && b.dom().contains(v) ==> m[v] == b[v])
                            && m[self.ve()] == val) implies contains_val(r@, val) by {
                    let m = choose|m: Map<u8, Seq<u8>>|
                        #[trigger] self.ok(m) && m.dom() == self.vars() && (forall|v: u8|
                            self.vars().contains(v) && b.dom().contains(v) ==> m[v] == b[v])
                            && m[self.ve()] == val;
                    let k = key_of(m[self.ve()], m[self.va()], m[self.vv()]);
                    lemma_tri_ord(tree.shape, 0, 1, 2, k);
                    assert(tree.shape.ord(k) =~= k.subrange(0, 16) + k.subrange(16, 32)
                        + k.subrange(32, 64));
                    assert(p@ =~= tree.shape.ord(k).subrange(0, 0));
                    assert(tree.shape.matches(k, p@));
                    let id0 = id_of(val);
                    crate::id::lemma_embedded_id(val);
                    assert(tree.shape.ord(k).subrange(0, 16) =~= id0);
                    assert(tree.key_set().contains(k));
                    assert(tree.infix_set(p@, 16).contains(id0));
                    lemma_contains_val_set(ids@, id0);
                    let x = choose|x: int| 0 <= x < ids@.len() && (#[trigger] ids@[x])@ == id0;
                    assert(r@[x]@ == value_of_id(id0));
                    assert(r@[x]@ == val);
                }
                assert forall|val: Seq<u8>|
                    #![trigger contains_val(r@, val)]
                    contains_val(r@, val) implies (exists|m: Map<u8, Seq<u8>>|
                        #[trigger] self.ok(m) && m.dom() == self.vars() && (forall|v: u8|
                            self.vars().contains(v) && b.dom().contains(v) ==> m[v] == b[v])
                            && m[self.ve()] == val) by {
                    let y = choose|y: int| 0 <= y < r@.len() && (#[trigger] r@[y])@ == val;
                    assert(val == value_of_id(ids@[y]@));
                    lemma_contains_val_set(ids@, ids@[y]@);
                    assert(contains_val(ids@, ids@[y]@));
                    assert(tree.infix_set(p@, 16).contains(ids@[y]@));
                    let k = choose|k: Seq<u8>|
                        #[trigger] tree.key_set().contains(k) && tree.shape.matches(k, p@) && ids@[
                        y]@ == tree.shape.ord(k).subrange(0, 16);
                    tree.lemma_idx_of(k);
                    assert(tree.shape.key_ok(tree.keys_seq()[tree.idx_of(k)]));
                    lemma_tri_ord(tree.shape, 0, 1, 2, k);
                    assert(tree.shape.ord(k) =~= k.subrange(0, 16) + k.subrange(16, 32) + k.subrange(32, 64));
                    assert(ids@[y]@ =~= k.subrange(0, 16));
                    self.lemma_triple_admissible(b, self.ve(), val, k);
                }
            }
            r
        } else {
            let r: Vec<Vec<u8>> = Vec::new();
            proof {
                assert(false);
            }
            r
        }
    }

    proof fn lemma_no_admissible_e(&self, b: Map<u8, Seq<u8>>, r: Seq<Vec<u8>>)
        requires
            self.wf(),
            r.len() == 0,
            (b.dom().contains(self.va()) && !embedded_id(b[self.va()])),
        ensures
            forall|val: Seq<u8>|
                #![trigger contains_val(r, val)]
                (exists|m: Map<u8, Seq<u8>>|
                    #[trigger] self.ok(m) && m.dom() == self.vars() && (forall|v: u8|
                        self.vars().contains(v) && b.dom().contains(v) ==> m[v] == b[v])
                        && m[self.ve()] == val) ==> contains_val(r, val),
            forall|x: int|
                0 <= x < r.len() ==> self.partial_ok(b.insert(self.ve(), (#[trigger] r[x])@)),
    {
        assert forall|val: Seq<u8>|
            #![trigger contains_val(r, val)]
            (exists|m: Map<u8, Seq<u8>>|
                #[trigger] self.ok(m) && m.dom() == self.vars() && (forall|v: u8|
                    self.vars().contains(v) && b.dom().contains(v) ==> m[v] == b[v]) && m[self.ve()]
                    == val) implies contains_val(r, val) by {
            let m = choose|m: Map<u8, Seq<u8>>|
                #[trigger] self.ok(m) && m.dom() == self.vars() && (forall|v: u8|
                    self.vars().contains(v) && b.dom().contains(v) ==> m[v] == b[v]) && m[self.ve()]
                    == val;
            assert(false);
        }
    }

    proof fn lemma_middle_e(&self, b: Map<u8, Seq<u8>>)
        requires
            self.wf(),
            !b.dom().contains(self.va()) || !b.dom().contains(self.vv()),
        ensures
            forall|val: Seq<u8>| self.partial_ok(#[trigger] b.insert(self.ve(), val)),
    {
        assert forall|val: Seq<u8>| self.partial_ok(#[trigger] b.insert(self.ve(), val)) by {
            let b2 = b.insert(self.ve(), val);
            if !b.dom().contains(self.va()) {
                assert(!b2.dom().contains(self.va()));
                assert(!self.vars().subset_of(b2.dom()));
            } else {
                assert(!b2.dom().contains(self.vv()));
                assert(!self.vars().subset_of(b2.dom()));
            }
        }
    }


}

impl<'a> TribleSetConstraint<'a> {
    fn options_a(&self, binding: &Binding, e_bound: bool, v_bound: bool) -> (r: Vec<Vec<u8>>)
        requires
            self.wf(),
            binding.wf(),
            !binding@.dom().contains(self.va()),
            e_bound == binding@.dom().contains(self.ve()),
            v_bound == binding@.dom().contains(self.vv()),
        ensures
            sorted_lex(r@),
            forall|x: int| 0 <= x < r@.len() ==> (#[trigger] r@[x])@.len() == 32,
            forall|val: Seq<u8>|
                #![trigger contains_val(r@, val)]
                (exists|m: Map<u8, Seq<u8>>|
                    #[trigger] self.ok(m) && m.dom() == self.vars() && (forall|v: u8|
                        self.vars().contains(v) && binding@.dom().contains(v) ==> m[v] == binding@[v])
                        && m[self.va()] == val) ==> contains_val(r@, val),
            forall|val: Seq<u8>|
                #![trigger contains_val(r@, val)]
                contains_val(r@, val) ==> (exists|m: Map<u8, Seq<u8>>|
                    #[trigger] self.ok(m) && m.dom() == self.vars() && (forall|v: u8|
                        self.vars().contains(v) && binding@.dom().contains(v) ==> m[v] == binding@[v])
                        && m[self.va()] == val),
            forall|x: int|
                0 <= x < r@.len() ==> self.partial_ok(
                    binding@.insert(self.va(), (#[trigger] r@[x])@),
                ),
    {
        if e_bound && v_bound {
            let evv = must_get(binding, self.variable_e.index);
            let vvv = must_get(binding, self.variable_v.index);
            if !crate::id::is_embedded_id(&evv) {
                let r: Vec<Vec<u8>> = Vec::new();
                proof {
                    self.lemma_no_admissible_a(binding@, r@);
                }
                return r;
            }
            let p = concat_bytes(id_from_value(&evv), &vvv);
            let tree = &self.set.eva;
            proof {
                assert(tree.shape.perm@[48] == 16 && tree.shape.perm@[63] == 31);
                assert(tree.shape.seg@[16] == 2 && tree.shape.seg@[31] == 2);
            }
            let ids = tree.infixes(&p, 16);
            let r = embed_all(&ids);
            proof {
                let b = binding@;
                let gp = id_of(b[self.ve()]) + b[self.vv()];
                assert(p@ == gp);
                assert forall|val: Seq<u8>|
                    #![trigger contains_val(r@, val)]
                    (exists|m: Map<u8, Seq<u8>>|
                        #[trigger] self.ok(m) && m.dom() == self.vars() && (forall|v: u8|
                            self.vars().contains(v) && b.dom().contains(v) ==> m[v] == b[v])
                            && m[self.va()] == val) implies contains_val(r@, val) by {
                    let m = choose|m: Map<u8, Seq<u8>>|
                        #[trigger] self.ok(m) && m.dom() == self.vars() && (forall|v: u8|
                            self.vars().contains(v) && b.dom().contains(v) ==> m[v] == b[v])
                            && m[self.va()] == val;
                    let k = key_of(m[self.ve()], m[self.va()], m[self.vv()]);
                    lemma_tri_ord(tree.shape, 0, 2, 1, k);
                    assert(tree.shape.ord(k) =~= k.subrange(0, 16) + k.subrange(32, 64)
                        + k.subrange(16, 32));
                    assert(p@ =~= tree.shape.ord(k).subrange(0, 48));
                    assert(tree.shape.matches(k, p@));
                    let id0 = id_of(val);
                    crate::id::lemma_embedded_id(val);
                    assert(tree.shape.ord(k).subrange(48, 64) =~= id0);
                    assert(tree.key_set().contains(k));
                    assert(tree.infix_set(p@, 16).contains(id0));
                    lemma_contains_val_set(ids@, id0);
                    let x = choose|x: int| 0 <= x < ids@.len() && (#[trigger] ids@[x])@ == id0;
                    assert(r@[x]@ == value_of_id(id0));
                    assert(r@[x]@ == val);
                }
                assert forall|x: int|
                    0 <= x < r@.len() implies self.partial_ok(
                    b.insert(self.va(), (#[trigger] r@[x])@),
                ) by {
                    lemma_contains_val_set(ids@, ids@[x]@);
                    assert(contains_val(ids@, ids@[x]@));
                    assert(tree.infix_set(p@, 16).contains(ids@[x]@));
                    let k2 = choose|k2: Seq<u8>|
                        #[trigger] tree.key_set().contains(k2) && tree.shape.matches(k2, p@)
                            && ids@[x]@ == tree.shape.ord(k2).subrange(48, 64);
                    lemma_tri_ord(tree.shape, 0, 2, 1, k2);
                    assert(tree.shape.ord(k2) =~= k2.subrange(0, 16) + k2.subrange(32, 64)
                        + k2.subrange(16, 32));
                    assert(k2.subrange(0, 16) =~= gp.subrange(0, 16));
                    assert(k2.subrange(32, 64) =~= gp.subrange(16, 48));
                    assert(k2.subrange(16, 32) =~= ids@[x]@);
                    crate::id::lemma_value_of_id(ids@[x]@);
                    let b2 = b.insert(self.va(), r@[x]@);
                    assert(embedded_id(b2[self.va()]));
                    assert(gp.subrange(0, 16) =~= id_of(b[self.ve()]));
                    assert(gp.subrange(16, 48) =~= b[self.vv()]);
                    assert(k2 =~= k2.subrange(0, 16) + k2.subrange(16, 32) + k2.subrange(32, 64));
                    assert(key_of(b2[self.ve()], b2[self.va()], b2[self.vv()]) =~= k2);
                    assert(self.set.contents().contains(key_of(
                        b2[self.ve()],
                        b2[self.va()],
                        b2[self.vv()],
                    )));
                }
                assert forall|val: Seq<u8>|
                    #![trigger contains_val(r@, val)]
                    contains_val(r@, val) implies (exists|m: Map<u8, Seq<u8>>|
                        #[trigger] self.ok(m) && m.dom() == self.vars() && (forall|v: u8|
                            self.vars().contains(v) && b.dom().contains(v) ==> m[v] == b[v])
                            && m[self.va()] == val) by {
                    let y = choose|y: int| 0 <= y < r@.len() && (#[trigger] r@[y])@ == val;
                    assert(val == value_of_id(ids@[y]@));
                    lemma_contains_val_set(ids@, ids@[y]@);
                    assert(contains_val(ids@, ids@[y]@));
                    assert(tree.infix_set(p@, 16).contains(ids@[y]@));
                    let k = choose|k: Seq<u8>|
                        #[trigger] tree.key_set().contains(k) && tree.shape.matches(k, p@) && ids@[
                        y]@ == tree.shape.ord(k).subrange(48, 64);
                    tree.lemma_idx_of(k);
                    assert(tree.shape.key_ok(tree.keys_seq()[tree.idx_of(k)]));
                    lemma_tri_ord(tree.shape, 0, 2, 1, k);
                    assert(tree.shape.ord(k) =~= k.subrange(0, 16) + k.subrange(32, 64) + k.subrange(16, 32));
                    assert(k.subrange(0, 16) =~= tree.shape.ord(k).subrange(0, 16));
                    assert(tree.shape.ord(k).subrange(0, 16) =~= gp.subrange(0, 16));
                    assert(gp.subrange(0, 16) =~= id_of(b[self.ve()]));
                    assert(k.subrange(32, 64) =~= tree.shape.ord(k).subrange(16, 48));
                    assert(tree.shape.ord(k).subrange(16, 48) =~= gp.subrange(16, 48));
                    assert(gp.subrange(16, 48) =~= b[self.vv()]);
                    assert(ids@[y]@ =~= k.subrange(16, 32));
                    self.lemma_triple_admissible(b, self.va(), val, k);
                }
            }
            r
        } else if e_bound {
            let evv = must_get(binding, self.variable_e.index);
            if !crate::id::is_embedded_id(&evv) {
                let r: Vec<Vec<u8>> = Vec::new();
                proof {
                    self.lemma_no_admissible_a(binding@, r@);
                }
                return r;
            }
            let p = id_from_value(&evv);
            let tree = &self.set.eav;
            proof {
                assert(tree.shape.perm@[16] == 16 && tree.shape.perm@[31] == 31);
                assert(tree.shape.seg@[16] == 1 && tree.shape.seg@[31] == 1);
            }
            let ids = tree.infixes(&p, 16);
            let r = embed_all(&ids);
            proof {
                let b = binding@;
                self.lemma_middle_a(b);
                assert forall|val: Seq<u8>|
                    #![trigger contains_val(r@, val)]
                    (exists|m: Map<u8, Seq<u8>>|
                        #[trigger] self.ok(m) && m.dom() == self.vars() && (forall|v: u8|
                            self.vars().contains(v) && b.dom().contains(v) ==> m[v] == b[v])
                            && m[self.va()] == val) implies contains_val(r@, val) by {
                    let m = choose|m: Map<u8, Seq<u8>>|
                        #[trigger] self.ok(m) && m.dom() == self.vars() && (forall|v: u8|
                            self.vars().contains(v) && b.dom().contains(v) ==> m[v] == b[v])
                            && m[self.va()] == val;
                    let k = key_of(m[self.ve()], m[self.va()], m[self.vv()]);
                    lemma_tri_ord(tree.shape, 0, 1, 2, k);
                    assert(tree.shape.ord(k) =~= k.subrange(0, 16) + k.subrange(16, 32)
                        + k.subrange(32, 64));
                    assert(p@ =~= tree.shape.ord(k).subrange(0, 16));
                    assert(tree.shape.matches(k, p@));
                    let id0 = id_of(val);
                    crate::id::lemma_embedded_id(val);
                    assert(tree.shape.ord(k).subrange(16, 32) =~= id0);
                    assert(tree.key_set().contains(k));
                    assert(tree.infix_set(p@, 16).contains(id0));
                    lemma_contains_val_set(ids@, id0);
                    let x = choose|x: int| 0 <= x < ids@.len() && (#[trigger] ids@[x])@ == id0;
                    assert(r@[x]@ == value_of_id(id0));
                    assert(r@[x]@ == val);
                }
                assert forall|val: Seq<u8>|
                    #![trigger contains_val(r@, val)]
                    contains_val(r@, val) implies (exists|m: Map<u8, Seq<u8>>|
                        #[trigger] self.ok(m) && m.dom() == self.vars() && (forall|v: u8|
                            self.vars().contains(v) && b.dom().contains(v) ==> m[v] == b[v])
                            && m[self.va()] == val) by {
                    let y = choose|y: int| 0 <= y < r@.len() && (#[trigger] r@[y])@ == val;
                    assert(val == value_of_id(ids@[y]@));
                    lemma_contains_val_set(ids@, ids@[y]@);
                    assert(contains_val(ids@, ids@[y]@));
                    assert(tree.infix_set(p@, 16).contains(ids@[y]@));
                    let k = choose|k: Seq<u8>|
                        #[trigger] tree.key_set().contains(k) && tree.shape.matches(k, p@) && ids@[
                        y]@ == tree.shape.ord(k).subrange(16, 32);
                    tree.lemma_idx_of(k);
                    assert(tree.shape.key_ok(tree.keys_seq()[tree.idx_of(k)]));
                    lemma_tri_ord(tree.shape, 0, 1, 2, k);
                    assert(tree.shape.ord(k) =~= k.subrange(0, 16) + k.subrange(16, 32) + k.subrange(32, 64));
                    assert(k.subrange(0, 16) =~= tree.shape.ord(k).subrange(0, 16));
                    assert(tree.shape.ord(k).subrange(0, 16) =~= p@);
                    assert(ids@[y]@ =~= k.subrange(16, 32));
                    self.lemma_triple_admissible(b, self.va(), val, k);
                }
            }
            r
        } else if v_bound {
            let vvv = must_get(binding, self.variable_v.index);
            let p = vvv;
            let tree = &self.set.vae;
            proof {
                assert(tree.shape.perm@[32] == 16 && tree.shape.perm@[47] == 31);
                assert(tree.shape.seg@[16] == 1 && tree.shape.seg@[31] == 1);
            }
            let ids = tree.infixes(&p, 16);
            let r = embed_all(&ids);
            proof {
                let b = binding@;
                self.lemma_middle_a(b);
                assert forall|val: Seq<u8>|
                    #![trigger contains_val(r@, val)]
                    (exists|m: Map<u8, Seq<u8>>|
                        #[trigger] self.ok(m) && m.dom() == self.vars() && (forall|v: u8|
                            self.vars().contains(v) && b.dom().contains(v) ==> m[v] == b[v])
                            && m[self.va()] == val) implies contains_val(r@, val) by {
                    let m = choose|m: Map<u8, Seq<u8>>|
                        #[trigger] self.ok(m) && m.dom() == self.vars() && (forall|v: u8|
                            self.vars().contains(v) && b.dom().contains(v) ==> m[v] == b[v])
                            && m[self.va()] == val;
                    let k = key_of(m[self.ve()], m[self.va()], m[self.vv()]);
                    lemma_tri_ord(tree.shape, 2, 1, 0, k);
                    assert(tree.shape.ord(k) =~= k.subrange(32, 64) + k.subrange(16, 32)
                        + k.subrange(0, 16));
                    assert(p@ =~= tree.shape.ord(k).subrange(0, 32));
                    assert(tree.shape.matches(k, p@));
                    let id0 = id_of(val);
                    crate::id::lemma_embedded_id(val);
                    assert(tree.shape.ord(k).subrange(32, 48) =~= id0);
                    assert(tree.key_set().contains(k));
                    assert(tree.infix_set(p@, 16).contains(id0));
                    lemma_contains_val_set(ids@, id0);
                    let x = choose|x: int| 0 <= x < ids@.len() && (#[trigger] ids@[x])@ == id0;
                    assert(r@[x]@ == value_of_id(id0));
                    assert(r@[x]@ == val);
                }
                assert forall|val: Seq<u8>|
                    #![trigger contains_val(r@, val)]
                    contains_val(r@, val) implies (exists|m: Map<u8, Seq<u8>>|
                        #[trigger] self.ok(m) && m.dom() == self.vars() && (forall|v: u8|
                            self.vars().contains(v) && b.dom().contains(v) ==> m[v] == b[v])
                            && m[self.va()] == val) by {
                    let y = choose|y: int| 0 <= y < r@.len() && (#[trigger] r@[y])@ == val;
                    assert(val == value_of_id(ids@[y]@));
                    lemma_contains_val_set(ids@, ids@[y]@);
                    assert(contains_val(ids@, ids@[y]@));
                    assert(tree.infix_set(p@, 16).contains(ids@[y]@));
                    let k = choose|k: Seq<u8>|
                        #[trigger] tree.key_set().contains(k) && tree.shape.matches(k, p@) && ids@[
                        y]@ == tree.shape.ord(k).subrange(32, 48);
                    tree.lemma_idx_of(k);
                    assert(tree.shape.key_ok(tree.keys_seq()[tree.idx_of(k)]));
                    lemma_tri_ord(tree.shape, 2, 1, 0, k);
                    assert(tree.shape.ord(k) =~= k.subrange(32, 64) + k.subrange(16, 32) + k.subrange(0, 16));
                    assert(k.subrange(32, 64) =~= tree.shape.ord(k).subrange(0, 32));
                    assert(tree.shape.ord(k).subrange(0, 32) =~= p@);
                    assert(ids@[y]@ =~= k.subrange(16, 32));
                    self.lemma_triple_admissible(b, self.va(), val, k);
                }
            }
            r
        } else if !e_bound && !v_bound {
            
            let p = Vec::new();
            let tree = &self.set.aev;
            proof {
                assert(tree.shape.perm@[0] == 16 && tree.shape.perm@[15] == 31);
                assert(tree.shape.seg@[16] == 0 && tree.shape.seg@[31] == 0);
            }
            let ids = tree.infixes(&p, 16);
            let r = embed_all(&ids);
            proof {
                let b = binding@;
                self.lemma_middle_a(b);
                assert forall|val: Seq<u8>|
                    #![trigger contains_val(r@, val)]
                    (exists|m: Map<u8, Seq<u8>>|
                        #[trigger] self.ok(m) && m.dom() == self.vars() && (forall|v: u8|
                            self.vars().contains(v) && b.dom().contains(v) ==> m[v] == b[v])
                            && m[self.va()] == val) implies contains_val(r@, val) by {
                    let m = choose|m: Map<u8, Seq<u8>>|
                        #[trigger] self.ok(m) && m.dom() == self.vars() && (forall|v: u8|
                            self.vars().contains(v) && b.dom().contains(v) ==> m[v] == b[v])
                            && m[self.va()] == val;
                    let k = key_of(m[self.ve()], m[self.va()], m[self.vv()]);
                    lemma_tri_ord(tree.shape, 1, 0, 2, k);
                    assert(tree.shape.ord(k) =~= k.subrange(16, 32) + k.subrange(0, 16)
                        + k.subrange(32, 64));
                    assert(p@ =~= tree.shape.ord(k).subrange(0, 0));
                    assert(tree.shape.matches(k, p@));
                    let id0 = id_of(val);
                    crate::id::lemma_embedded_id(val);
                    assert(tree.shape.ord(k).subrange(0, 16) =~= id0);
                    assert(tree.key_set().contains(k));
                    assert(tree.infix_set(p@, 16).contains(id0));
                    lemma_contains_val_set(ids@, id0);
                    let x = choose|x: int| 0 <= x < ids@.len() && (#[trigger] ids@[x])@ == id0;
                    assert(r@[x]@ == value_of_id(id0));
                    assert(r@[x]@ == val);
                }
                assert forall|val: Seq<u8>|
                    #![trigger contains_val(r@, val)]
                    contains_val(r@, val) implies (exists|m: Map<u8, Seq<u8>>|
                        #[trigger] self.ok(m) && m.dom() == self.vars() && (forall|v: u8|
                            self.vars().contains(v) && b.dom().contains(v) ==> m[v] == b[v])
                            && m[self.va()] == val) by {
                    let y = choose|y: int| 0 <= y < r@.len() && (#[trigger] r@[y])@ == val;
                    assert(val == value_of_id(ids@[y]@));
                    lemma_contains_val_set(ids@, ids@[y]@);
                    assert(contains_val(ids@, ids@[y]@));
                    assert(tree.infix_set(p@, 16).contains(ids@[y]@));
                    let k = choose|k: Seq<u8>|
                        #[trigger] tree.key_set().contains(k) && tree.shape.matches(k, p@) && ids@[
                        y]@ == tree.shape.ord(k).subrange(0, 16);
                    tree.lemma_idx_of(k);
                    assert(tree.shape.key_ok(tree.keys_seq()[tree.idx_of(k)]));
                    lemma_tri_ord(tree.shape, 1, 0, 2, k);
                    assert(tree.shape.ord(k) =~= k.subrange(16, 32) + k.subrange(0, 16) + k.subrange(32, 64));
                    assert(ids@[y]@ =~= k.subrange(16, 32));
                    self.lemma_triple_admissible(b, self.va(), val, k);
                }
            }
            r
        } else {
            let r: Vec<Vec<u8>> = Vec::new();
            proof {
                assert(false);
            }
            r
        }
    }

    proof fn lemma_no_admissible_a(&self, b: Map<u8, Seq<u8>>, r: Seq<Vec<u8>>)
        requires
            self.wf(),
            r.len() == 0,
            (b.dom().contains(self.ve()) && !embedded_id(b[self.ve()])),
        ensures
            forall|val: Seq<u8>|
                #![trigger contains_val(r, val)]
                (exists|m: Map<u8, Seq<u8>>|
                    #[trigger] self.ok(m) && m.dom() == self.vars() && (forall|v: u8|
                        self.vars().contains(v) && b.dom().contains(v) ==> m[v] == b[v])
                        && m[self.va()] == val) ==> contains_val(r, val),
            forall|x: int|
                0 <= x < r.len() ==> self.partial_ok(b.insert(self.va(), (#[trigger] r[x])@)),
    {
        assert forall|val: Seq<u8>|
            #![trigger contains_val(r, val)]
            (exists|m: Map<u8, Seq<u8>>|
                #[trigger] self.ok(m) && m.dom() == self.vars() && (forall|v: u8|
                    self.vars().contains(v) && b.dom().contains(v) ==> m[v] == b[v]) && m[self.va()]
                    == val) implies contains_val(r, val) by {
            let m = choose|m: Map<u8, Seq<u8>>|
                #[trigger] self.ok(m) && m.dom() == self.vars() && (forall|v: u8|
                    self.vars().contains(v) && b.dom().contains(v) ==> m[v] == b[v]) && m[self.va()]
                    == val;
            assert(false);
        }
    }

    proof fn lemma_middle_a(&self, b: Map<u8, Seq<u8>>)
        requires
            self.wf(),
            !b.dom().contains(self.ve()) || !b.dom().contains(self.vv()),
        ensures
            forall|val: Seq<u8>| self.partial_ok(#[trigger] b.insert(self.va(), val)),
    {
        assert forall|val: Seq<u8>| self.partial_ok(#[trigger] b.insert(self.va(), val)) by {
            let b2 = b.insert(self.va(), val);
            if !b.dom().contains(self.ve()) {
                assert(!b2.dom().contains(self.ve()));
                assert(!self.vars().subset_of(b2.dom()));
            } else {
                assert(!b2.dom().contains(self.vv()));
                assert(!self.vars().subset_of(b2.dom()));
            }
        }
    }


}

impl<'a> Constraint for TribleSetConstraint<'a> {
    open spec fn vars(&self) -> Set<u8> {
        Set::empty().insert(self.ve()).insert(self.va()).insert(self.vv())
    }

    open spec fn ok(&self, m: Map<u8, Seq<u8>>) -> bool {
        &&& embedded_id(m[self.ve()])
        &&& embedded_id(m[self.va()])
        &&& m[self.vv()].len() == 32
        &&& self.set.contents().contains(key_of(m[self.ve()], m[self.va()], m[self.vv()]))
    }

    open spec fn wf(&self) -> bool {
        &&& self.set.wf()
        &&& self.ve() != self.va()
        &&& self.ve() != self.vv()
        &&& self.va() != self.vv()
    }

    open spec fn partial_ok(&self, b: Map<u8, Seq<u8>>) -> bool {
        self.vars().subset_of(b.dom()) ==> (embedded_id(b[self.ve()]) && embedded_id(b[self.va()])
            && b[self.vv()].len() == 32 && self.set.contents().contains(key_of(
            b[self.ve()],
            b[self.va()],
            b[self.vv()],
        )))
    }

    open spec fn est(&self, b: Map<u8, Seq<u8>>, variable: u8) -> int {
        if (b.dom().contains(self.ve()) && !embedded_id(b[self.ve()])) || (b.dom().contains(
            self.va(),
        ) && !embedded_id(b[self.va()])) {
            0
        } else if variable == self.vv() {
            if b.dom().contains(self.ve()) && b.dom().contains(self.va()) {
                self.set.eav.seg_projections(id_of(b[self.ve()]) + id_of(b[self.va()])).len()
                    as int
            } else if b.dom().contains(self.ve()) {
                self.set.eva.seg_projections(id_of(b[self.ve()])).len() as int
            } else if b.dom().contains(self.va()) {
                self.set.ave.seg_projections(id_of(b[self.va()])).len() as int
            } else {
                self.set.vea.seg_projections(Seq::<u8>::empty()).len() as int
            }
        } else if variable == self.ve() {
            if b.dom().contains(self.va()) && b.dom().contains(self.vv()) {
                self.set.ave.seg_projections(id_of(b[self.va()]) + b[self.vv()]).len() as int
            } else if b.dom().contains(self.va()) {
                self.set.aev.seg_projections(id_of(b[self.va()])).len() as int
            } else if b.dom().contains(self.vv()) {
                self.set.vea.seg_projections(b[self.vv()]).len() as int
            } else {
                self.set.eav.seg_projections(Seq::<u8>::empty()).len() as int
            }
        } else {
            if b.dom().contains(self.ve()) && b.dom().contains(self.vv()) {
                self.set.eva.seg_projections(id_of(b[self.ve()]) + b[self.vv()]).len() as int
            } else if b.dom().contains(self.ve()) {
                self.set.eav.seg_projections(id_of(b[self.ve()])).len() as int
            } else if b.dom().contains(self.vv()) {
                self.set.vae.seg_projections(b[self.vv()]).len() as int
            } else {
                self.set.aev.seg_projections(Seq::<u8>::empty()).len() as int
            }
        }
    }

    proof fn lemma_partial_empty(&self, b: Map<u8, Seq<u8>>) {
        if self.vars().subset_of(b.dom()) {
            assert(self.vars().contains(self.ve()));
            assert(b.dom().contains(self.ve()));
        }
    }

    proof fn lemma_partial_insensitive(&self, b: Map<u8, Seq<u8>>, variable: u8, val: Seq<u8>) {
        let b2 = b.insert(variable, val);
        if self.vars().subset_of(b2.dom()) {
            assert(self.vars().contains(self.ve()) && self.vars().contains(self.va())
                && self.vars().contains(self.vv()));
            assert(b.dom().contains(self.ve()) && b.dom().contains(self.va()) && b.dom().contains(
                self.vv(),
            ));
            assert(self.vars().subset_of(b.dom()));
        }
    }

    proof fn lemma_partial_total(&self, b: Map<u8, Seq<u8>>) {
        let m = Map::<u8, Seq<u8>>::new(|w: u8| self.vars().contains(w), |w: u8| b[w]);
        assert(m.dom() =~= self.vars());
        assert(self.vars().contains(self.ve()) && self.vars().contains(self.va())
            && self.vars().contains(self.vv()));
        assert(m[self.ve()] == b[self.ve()] && m[self.va()] == b[self.va()] && m[self.vv()]
            == b[self.vv()]);
        assert(self.ok(m));
    }

    fn variables(&self) -> (r: ByteBitset) {
        let mut r = ByteBitset::new_empty();
        r.set(self.variable_e.index);
        r.set(self.variable_a.index);
        r.set(self.variable_v.index);
        proof {
            assert(r@ =~= self.vars());
        }
        r
    }

    fn estimate(&self, variable: u8, binding: &Binding) -> (r: usize) {
        let e_bound = binding.is_bound(self.variable_e.index);
        let a_bound = binding.is_bound(self.variable_a.index);
        let v_bound = binding.is_bound(self.variable_v.index);
        let mut valid = true;
        let mut eid: Vec<u8> = Vec::new();
        let mut aid: Vec<u8> = Vec::new();
        let mut vval: Vec<u8> = Vec::new();
        if e_bound {
            let evv = must_get(binding, self.variable_e.index);
            if crate::id::is_embedded_id(&evv) {
                eid = id_from_value(&evv);
            } else {
                valid = false;
            }
        }
        if a_bound {
            let avv = must_get(binding, self.variable_a.index);
            if crate::id::is_embedded_id(&avv) {
                aid = id_from_value(&avv);
            } else {
                valid = false;
            }
        }
        if v_bound {
            vval = must_get(binding, self.variable_v.index);
        }
        if !valid {
            return 0;
        }
        if variable == self.variable_v.index {
            if e_bound && a_bound {
                seg_count(&self.set.eav, &concat_bytes(eid, &aid))
            } else if e_bound {
                seg_count(&self.set.eva, &eid)
            } else if a_bound {
                seg_count(&self.set.ave, &aid)
            } else {
                seg_count(&self.set.vea, &Vec::new())
            }
        } else if variable == self.variable_e.index {
            if a_bound && v_bound {
                seg_count(&self.set.ave, &concat_bytes(aid, &vval))
            } else if a_bound {
                seg_count(&self.set.aev, &aid)
            } else if v_bound {
                seg_count(&self.set.vea, &vval)
            } else {
                seg_count(&self.set.eav, &Vec::new())
            }
        } else {
            if e_bound && v_bound {
                seg_count(&self.set.eva, &concat_bytes(eid, &vval))
            } else if e_bound {
                seg_count(&self.set.eav, &eid)
            } else if v_bound {
                seg_count(&self.set.vae, &vval)
            } else {
                seg_count(&self.set.aev, &Vec::new())
            }
        }
    }

    fn propose(&self, variable: u8, binding: &Binding) -> (r: Vec<Vec<u8>>)
        ensures
            forall|val: Seq<u8>|
                #![trigger contains_val(r@, val)]
                contains_val(r@, val) == (exists|m: Map<u8, Seq<u8>>|
                    #[trigger] self.ok(m) && m.dom() == self.vars() && (forall|v: u8|
                        self.vars().contains(v) && binding@.dom().contains(v) ==> m[v] == binding@[v])
                        && m[variable] == val),
            forall|x: int|
                0 <= x < r@.len() ==> self.partial_ok(
                    binding@.insert(variable, (#[trigger] r@[x])@),
                ),
    {
        self.options(variable, binding)
    }

    fn confirm(&self, variable: u8, binding: &Binding, proposals: &mut Vec<Vec<u8>>)
        ensures
            forall|val: Seq<u8>|
                #![trigger contains_val(final(proposals)@, val)]
                contains_val(final(proposals)@, val) == (contains_val(old(proposals)@, val) && (
                exists|m: Map<u8, Seq<u8>>|
                    #[trigger] self.ok(m) && m.dom() == self.vars() && (forall|v: u8|
                        self.vars().contains(v) && binding@.dom().contains(v) ==> m[v] == binding@[v])
                        && m[variable] == val)),
    {
        let opts = self.options(variable, binding);
        let merged = crate::query::intersect_sorted(proposals, &opts);
        let ghost oldp = proposals@;
        *proposals = merged;
        proof {
            assert forall|x: int|
                0 <= x < proposals@.len() implies self.partial_ok(
                binding@.insert(variable, (#[trigger] proposals@[x])@),
            ) by {
                assert(contains_val(proposals@, proposals@[x]@));
                assert(contains_val(opts@, proposals@[x]@));
                let y = choose|y: int|
                    0 <= y < opts@.len() && (#[trigger] opts@[y])@ == proposals@[x]@;
            }
            assert forall|x: int|
                0 <= x < proposals@.len() implies contains_val(
                oldp,
                (#[trigger] proposals@[x])@,
            ) by {
                assert(contains_val(proposals@, proposals@[x]@));
            }
            assert forall|val: Seq<u8>|
                #![trigger contains_val(proposals@, val)]
                contains_val(oldp, val) && (exists|m: Map<u8, Seq<u8>>|
                    #[trigger] self.ok(m) && m.dom() == self.vars() && (forall|v: u8|
                        self.vars().contains(v) && binding@.dom().contains(v) ==> m[v] == binding@[v])
                        && m[variable] == val) implies contains_val(proposals@, val) by {
                assert(contains_val(opts@, val));
            }
        }
    }
}

/// On the VAE-ordered tree, a 32-byte prefix match is exactly agreement on
/// the value field.
pub proof fn lemma_vae_prefix(s: KeyShape, t: Seq<u8>, p: Seq<u8>)
    requires
        is_tri_shape(s, 2, 1, 0),
        t.len() == 64,
        p.len() == 32,
        s.perm@.len() == 64,
    ensures
        s.matches(t, p) == (t.subrange(32, 64) == p),
{
    lemma_tri_ord(s, 2, 1, 0, t);
    assert(s.ord(t).subrange(0, 32) =~= t.subrange(32, 64));
    if s.matches(t, p) {
    } else {
        if t.subrange(32, 64) == p {
            assert(p =~= s.ord(t).subrange(0, 32));
        }
    }
}

} // verus!
