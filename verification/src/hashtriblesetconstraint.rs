//! The triple-pattern constraint over the hashed fallback index.
//!
//! Estimates come from the thirteen containers; candidate enumeration walks
//! the sorted triple set, filters by the bound fields and collects the
//! target field in ascending order.

use vstd::prelude::*;

use crate::bits::ByteBitset;
use crate::id::{embedded_id, id_from_value, id_of, value_of_id};
use crate::hashtribleset::HashTribleSet;
use crate::keys::{concat_bytes, range_eq, sub_bytes};
use crate::query::{
    contains_val, lemma_contains_val_set, must_get, sorted_lex, Binding, Constraint, Variable,
};
use crate::triblesetconstraint::key_of;
use crate::vecset::VecSet;

verus! {

/// The candidate that the triple `t` offers for the target field: the
/// embedded entity id, the embedded attribute id, or the value.
pub open spec fn cand_of(t: Seq<u8>, tgt: int) -> Seq<u8> {
    if tgt == 0 {
        value_of_id(t.subrange(0, 16))
    } else if tgt == 1 {
        value_of_id(t.subrange(16, 32))
    } else {
        t.subrange(32, 64)
    }
}

/// A triple pattern over a `HashTribleSet`.
pub struct HashTribleSetConstraint<'a> {
    pub variable_e: Variable,
    pub variable_a: Variable,
    pub variable_v: Variable,
    pub set: &'a HashTribleSet,
}

impl<'a> HashTribleSetConstraint<'a> {
    pub open spec fn ve(self) -> u8 {
        self.variable_e.index
    }

    pub open spec fn va(self) -> u8 {
        self.variable_a.index
    }

    pub open spec fn vv(self) -> u8 {
        self.variable_v.index
    }

    pub fn new(
        variable_e: Variable,
        variable_a: Variable,
        variable_v: Variable,
        set: &'a HashTribleSet,
    ) -> (r: HashTribleSetConstraint<'a>)
        requires
            set.wf(),
            variable_e.index != variable_a.index,
            variable_e.index != variable_v.index,
            variable_a.index != variable_v.index,
        ensures
            r.wf(),
            r.ve() == variable_e.index,
            r.va() == variable_a.index,
            r.vv() == variable_v.index,
            r.set == set,
    {
        HashTribleSetConstraint { variable_e, variable_a, variable_v, set }
    }

    /// The field a variable of this pattern ranges over.
    pub open spec fn target_of(self, variable: u8) -> int {
        if variable == self.ve() {
            0
        } else if variable == self.va() {
            1
        } else {
            2
        }
    }

    /// Whether the triple `t` agrees with the values that `b` binds among
    /// this pattern's variables.
    pub open spec fn t_matches(self, t: Seq<u8>, b: Map<u8, Seq<u8>>) -> bool {
        &&& b.dom().contains(self.ve()) ==> t.subrange(0, 16) == id_of(b[self.ve()])
        &&& b.dom().contains(self.va()) ==> t.subrange(16, 32) == id_of(b[self.va()])
        &&& b.dom().contains(self.vv()) ==> t.subrange(32, 64) == b[self.vv()]
    }

    /// Exactly the candidates that the matching triples offer for the
    /// target field.
    pub open spec fn scan_set(self, b: Map<u8, Seq<u8>>, tgt: int) -> Set<Seq<u8>> {
        Set::new(
            |q: Seq<u8>|
                exists|t: Seq<u8>|
                    #[trigger] self.set.contents().contains(t) && self.t_matches(t, b) && q
                        == cand_of(t, tgt),
        )
    }

    /// Exactly the values that extend `binding` at `variable` to a triple of
    /// the set, ascending and duplicate-free.
    fn options(&self, variable: u8, binding: &Binding) -> (r: Vec<Vec<u8>>)
        requires
            self.wf(),
            binding.wf(),
            self.vars().contains(variable),
            !binding@.dom().contains(variable),
        ensures
            sorted_lex(r@),
            forall|x: int| 0 <= x < r@.len() ==> (#[trigger] r@[x])@.len() == 32,
            forall|val: Seq<u8>|
                #![trigger contains_val(r@, val)]
                contains_val(r@, val) == (exists|m: Map<u8, Seq<u8>>|
                    #[trigger] self.ok(m) && m.dom() == self.vars() && (forall|v: u8|
                        self.vars().contains(v) && binding@.dom().contains(v) ==> m[v] == binding@[v])
                        && m[variable] == val),
            forall|x: int|
                0 <= x < r@.len() ==> self.partial_ok(
                    binding@.insert(variable, (#[trigger] r@[x])@),
                ),
    {
        let ghost b = binding@;
        let e_bound = binding.is_bound(self.variable_e.index);
        let a_bound = binding.is_bound(self.variable_a.index);
        let v_bound = binding.is_bound(self.variable_v.index);
        // target field of the variable being solved
        let tgt: usize = if variable == self.variable_e.index {
            0
        } else if variable == self.variable_a.index {
            1
        } else {
            2
        };
        // reject bindings whose id positions carry no embedded id
        let mut valid = true;
        let mut eid: Vec<u8> = Vec::new();
        let mut aid: Vec<u8> = Vec::new();
        let mut vval: Vec<u8> = Vec::new();
        if e_bound {
            let ev = must_get(binding, self.variable_e.index);
            if crate::id::is_embedded_id(&ev) {
                eid = id_from_value(&ev);
            } else {
                valid = false;
            }
        }
        if a_bound {
            let av = must_get(binding, self.variable_a.index);
            if crate::id::is_embedded_id(&av) {
                aid = id_from_value(&av);
            } else {
                valid = false;
            }
        }
        if v_bound {
            vval = must_get(binding, self.variable_v.index);
        }
        if !valid {
            let r: Vec<Vec<u8>> = Vec::new();
            proof {
                assert forall|val: Seq<u8>|
                    #![trigger contains_val(r@, val)]
                    contains_val(r@, val) == (exists|m: Map<u8, Seq<u8>>|
                        #[trigger] self.ok(m) && m.dom() == self.vars() && (forall|v: u8|
                            self.vars().contains(v) && b.dom().contains(v) ==> m[v] == b[v])
                            && m[variable] == val) by {
                    if exists|m: Map<u8, Seq<u8>>|
                        #[trigger] self.ok(m) && m.dom() == self.vars() && (forall|v: u8|
                            self.vars().contains(v) && b.dom().contains(v) ==> m[v] == b[v])
                            && m[variable] == val {
                        let m = choose|m: Map<u8, Seq<u8>>|
                            #[trigger] self.ok(m) && m.dom() == self.vars() && (forall|v: u8|
                                self.vars().contains(v) && b.dom().contains(v) ==> m[v] == b[v])
                                && m[variable] == val;
                        assert(false);
                    }
                }
            }
            return r;
        }
        let n = self.set.all.len();
        let mut out = VecSet::new();
        let mut i: usize = 0;
        proof {
            assert(out.view_set() =~= Set::<Seq<u8>>::empty());
        }
        while i < n
            invariant
                self.wf(),
                binding.wf(),
                b == binding@,
                self.vars().contains(variable),
                !b.dom().contains(variable),
                n == self.set.all.items@.len(),
                0 <= i <= n,
                tgt <= 2,
                variable == self.variable_e.index ==> tgt == 0,
                variable == self.variable_a.index ==> tgt == 1,
                variable == self.variable_v.index ==> tgt == 2,
                e_bound == b.dom().contains(self.ve()),
                a_bound == b.dom().contains(self.va()),
                v_bound == b.dom().contains(self.vv()),
                e_bound ==> embedded_id(b[self.ve()]) && eid@ == id_of(b[self.ve()]),
                a_bound ==> embedded_id(b[self.va()]) && aid@ == id_of(b[self.va()]),
                v_bound ==> vval@ == b[self.vv()] && vval@.len() == 32,
                out.wf(32),
                out.view_set() =~= Set::new(
                    |q: Seq<u8>|
                        exists|j: int|
                            0 <= j < i && self.t_matches(
                                (#[trigger] self.set.all.items@[j])@,
                                b,
                            ) && q == cand_of(self.set.all.items@[j]@, tgt as int),
                ),
            decreases n - i,
        {
            proof {
                assert(self.set.all.items@[i as int]@.len() == 64);
            }
            let t = &self.set.all.items[i];
            let mut keep = true;
            if e_bound && !range_eq(t, 0, 16, &eid) {
                keep = false;
            }
            if a_bound && !range_eq(t, 16, 32, &aid) {
                keep = false;
            }
            if v_bound && !range_eq(t, 32, 64, &vval) {
                keep = false;
            }
            let ghost oldset = out.view_set();
            if keep {
                let c: Vec<u8> = if tgt == 0 {
                    crate::id::id_into_value(&sub_bytes(t, 0, 16))
                } else if tgt == 1 {
                    crate::id::id_into_value(&sub_bytes(t, 16, 32))
                } else {
                    sub_bytes(t, 32, 64)
                };
                proof {
                    assert(c@ == cand_of(self.set.all.items@[i as int]@, tgt as int));
                    assert(self.t_matches(self.set.all.items@[i as int]@, b));
                    assert(out.wf(32) && c@.len() == 32);
                }
                out.insert(c);
            }
            proof {
                let upto = |jj: int|
                    Set::new(
                        |q: Seq<u8>|
                            exists|j: int|
                                0 <= j < jj && self.t_matches(
                                    (#[trigger] self.set.all.items@[j])@,
                                    b,
                                ) && q == cand_of(self.set.all.items@[j]@, tgt as int),
                    );
                if keep {
                    assert(upto(i + 1) =~= oldset.insert(
                        cand_of(self.set.all.items@[i as int]@, tgt as int),
                    ));
                } else {
                    assert(!self.t_matches(self.set.all.items@[i as int]@, b));
                    assert(upto(i + 1) =~= oldset);
                }
                assert(out.view_set() =~= upto(i + 1));
            }
            i += 1;
        }
        let r = out.items;
        proof {
            let ms = r@.map_values(|v: Vec<u8>| v@);
            assert(out.view_set() =~= self.scan_set(b, tgt as int)) by {
                assert forall|q: Seq<u8>|
                    out.view_set().contains(q) implies self.scan_set(b, tgt as int).contains(
                    q,
                ) by {
                    let j = choose|j: int|
                        0 <= j < n && self.t_matches((#[trigger] self.set.all.items@[j])@, b) && q
                            == cand_of(self.set.all.items@[j]@, tgt as int);
                    let ams = self.set.all.items@.map_values(|v: Vec<u8>| v@);
                    assert(ams[j] == self.set.all.items@[j]@);
                    assert(ams.contains(ams[j]));
                    assert(self.set.contents().contains(self.set.all.items@[j]@));
                }
                assert forall|q: Seq<u8>|
                    self.scan_set(b, tgt as int).contains(q) implies out.view_set().contains(
                    q,
                ) by {
                    let t = choose|t: Seq<u8>|
                        #[trigger] self.set.contents().contains(t) && self.t_matches(t, b) && q
                            == cand_of(t, tgt as int);
                    let ams = self.set.all.items@.map_values(|v: Vec<u8>| v@);
                    let j = choose|j: int| 0 <= j < ams.len() && ams[j] == t;
                    assert(self.set.all.items@[j]@ == t);
                }
            }
            assert forall|val: Seq<u8>|
                #![trigger contains_val(r@, val)]
                contains_val(r@, val) == (exists|m: Map<u8, Seq<u8>>|
                    #[trigger] self.ok(m) && m.dom() == self.vars() && (forall|v: u8|
                        self.vars().contains(v) && b.dom().contains(v) ==> m[v] == b[v])
                        && m[variable] == val) by {
                if exists|m: Map<u8, Seq<u8>>|
                    #[trigger] self.ok(m) && m.dom() == self.vars() && (forall|v: u8|
                        self.vars().contains(v) && b.dom().contains(v) ==> m[v] == b[v])
                        && m[variable] == val {
                    let m = choose|m: Map<u8, Seq<u8>>|
                        #[trigger] self.ok(m) && m.dom() == self.vars() && (forall|v: u8|
                            self.vars().contains(v) && b.dom().contains(v) ==> m[v] == b[v])
                            && m[variable] == val;
                    let t = key_of(m[self.ve()], m[self.va()], m[self.vv()]);
                    assert(t.subrange(0, 16) =~= id_of(m[self.ve()]));
                    assert(t.subrange(16, 32) =~= id_of(m[self.va()]));
                    assert(t.subrange(32, 64) =~= m[self.vv()]);
                    assert(self.t_matches(t, b));
                    if tgt == 0 {
                        crate::id::lemma_embedded_id(m[self.ve()]);
                        assert(val == cand_of(t, tgt as int));
                    } else if tgt == 1 {
                        crate::id::lemma_embedded_id(m[self.va()]);
                        assert(val == cand_of(t, tgt as int));
                    } else {
                        assert(val == cand_of(t, tgt as int));
                    }
                    assert(self.scan_set(b, tgt as int).contains(val));
                    lemma_contains_val_set(r@, val);
                }
                if contains_val(r@, val) {
                    // every offered value comes from a matching member triple
                    lemma_contains_val_set(r@, val);
                    assert(self.scan_set(b, tgt as int).contains(val));
                    let t = choose|t: Seq<u8>|
                        #[trigger] self.set.contents().contains(t) && self.t_matches(t, b) && val
                            == cand_of(t, tgt as int);
                    assert(t.len() == 64) by {
                        let ams = self.set.all.items@.map_values(|v: Vec<u8>| v@);
                        let j = choose|j: int| 0 <= j < ams.len() && ams[j] == t;
                        assert(self.set.all.items@[j]@ == t);
                    }
                    let m = Map::<u8, Seq<u8>>::empty().insert(
                        self.ve(),
                        value_of_id(t.subrange(0, 16)),
                    ).insert(self.va(), value_of_id(t.subrange(16, 32))).insert(
                        self.vv(),
                        t.subrange(32, 64),
                    );
                    assert(m.dom() =~= self.vars());
                    crate::id::lemma_value_of_id(t.subrange(0, 16));
                    crate::id::lemma_value_of_id(t.subrange(16, 32));
                    assert(key_of(m[self.ve()], m[self.va()], m[self.vv()]) =~= t);
                    assert(self.ok(m));
                    assert forall|v: u8|
                        self.vars().contains(v) && b.dom().contains(v) implies m[v] == b[v] by {
                        if v == self.ve() {
                            crate::id::lemma_embedded_id(b[self.ve()]);
                        } else if v == self.va() {
                            crate::id::lemma_embedded_id(b[self.va()]);
                        }
                    }
                    assert(m[variable] == val);
                }
            }
            assert forall|x: int|
                0 <= x < r@.len() implies self.partial_ok(
                binding@.insert(variable, (#[trigger] r@[x])@),
            ) by {
                let b2 = b.insert(variable, r@[x]@);
                if self.vars().subset_of(b2.dom()) {
                    assert(self.vars().contains(self.ve()) && self.vars().contains(self.va())
                        && self.vars().contains(self.vv()));
                    lemma_contains_val_set(r@, r@[x]@);
                    assert(out.view_set().contains(r@[x]@));
                    assert(self.scan_set(b, tgt as int).contains(r@[x]@));
                    let t = choose|t: Seq<u8>|
                        #[trigger] self.set.contents().contains(t) && self.t_matches(t, b) && r@[
                        x]@ == cand_of(t, tgt as int);
                    // with the two other fields bound, the matching triple is
                    // exactly the one the extended binding denotes
                    assert(t.len() == 64) by {
                        let ams = self.set.all.items@.map_values(|v: Vec<u8>| v@);
                        let j = choose|j: int| 0 <= j < ams.len() && ams[j] == t;
                        assert(self.set.all.items@[j]@ == t);
                    }
                    if tgt == 0 {
                        assert(b2.dom().contains(self.va()) && b.dom().contains(self.va()));
                        assert(b2.dom().contains(self.vv()) && b.dom().contains(self.vv()));
                        crate::id::lemma_value_of_id(t.subrange(0, 16));
                        assert(embedded_id(b2[self.ve()]));
                        assert(key_of(b2[self.ve()], b2[self.va()], b2[self.vv()]) =~= t);
                    } else if tgt == 1 {
                        assert(b2.dom().contains(self.ve()) && b.dom().contains(self.ve()));
                        assert(b2.dom().contains(self.vv()) && b.dom().contains(self.vv()));
                        crate::id::lemma_value_of_id(t.subrange(16, 32));
                        assert(embedded_id(b2[self.va()]));
                        assert(key_of(b2[self.ve()], b2[self.va()], b2[self.vv()]) =~= t);
                    } else {
                        assert(b2.dom().contains(self.ve()) && b.dom().contains(self.ve()));
                        assert(b2.dom().contains(self.va()) && b.dom().contains(self.va()));
                        assert(key_of(b2[self.ve()], b2[self.va()], b2[self.vv()]) =~= t);
                    }
                }
            }
        }
        r
    }
}

impl<'a> Constraint for HashTribleSetConstraint<'a> {
    open spec fn vars(&self) -> Set<u8> {
        Set::empty().insert(self.ve()).insert(self.va()).insert(self.vv())
    }

    open spec fn ok(&self, m: Map<u8, Seq<u8>>) -> bool {
        &&& embedded_id(m[self.ve()])
        &&& embedded_id(m[self.va()])
        &&& m[self.vv()].len() == 32
        &&& self.set.contents().contains(key_of(m[self.ve()], m[self.va()], m[self.vv()]))
    }

    open spec fn wf(&self) -> bool {
        &&& self.set.wf()
        &&& self.ve() != self.va()
        &&& self.ve() != self.vv()
        &&& self.va() != self.vv()
    }

    open spec fn partial_ok(&self, b: Map<u8, Seq<u8>>) -> bool {
        self.vars().subset_of(b.dom()) ==> (embedded_id(b[self.ve()]) && embedded_id(b[self.va()])
            && b[self.vv()].len() == 32 && self.set.contents().contains(key_of(
            b[self.ve()],
            b[self.va()],
            b[self.vv()],
        )))
    }

    open spec fn est(&self, b: Map<u8, Seq<u8>>, variable: u8) -> int {
        if (b.dom().contains(self.ve()) && !embedded_id(b[self.ve()])) || (b.dom().contains(
            self.va(),
        ) && !embedded_id(b[self.va()])) {
            0
        } else if variable == self.ve() {
            if b.dom().contains(self.va()) && b.dom().contains(self.vv()) {
                self.set.ave.entry_len(id_of(b[self.va()]) + b[self.vv()])
            } else if b.dom().contains(self.va()) {
                self.set.ae.entry_len(id_of(b[self.va()]))
            } else if b.dom().contains(self.vv()) {
                self.set.ve.entry_len(b[self.vv()])
            } else {
                self.set.e.items@.len() as int
            }
        } else if variable == self.va() {
            if b.dom().contains(self.ve()) && b.dom().contains(self.vv()) {
                self.set.eva.entry_len(id_of(b[self.ve()]) + b[self.vv()])
            } else if b.dom().contains(self.ve()) {
                self.set.ea.entry_len(id_of(b[self.ve()]))
            } else if b.dom().contains(self.vv()) {
                self.set.va.entry_len(b[self.vv()])
            } else {
                self.set.a.items@.len() as int
            }
        } else {
            if b.dom().contains(self.ve()) && b.dom().contains(self.va()) {
                self.set.eav.entry_len(id_of(b[self.ve()]) + id_of(b[self.va()]))
            } else if b.dom().contains(self.ve()) {
                self.set.ev.entry_len(id_of(b[self.ve()]))
            } else if b.dom().contains(self.va()) {
                self.set.av.entry_len(id_of(b[self.va()]))
            } else {
                self.set.v.items@.len() as int
            }
        }
    }

    proof fn lemma_partial_empty(&self, b: Map<u8, Seq<u8>>) {
        if self.vars().subset_of(b.dom()) {
            assert(self.vars().contains(self.ve()));
            assert(b.dom().contains(self.ve()));
        }
    }

    proof fn lemma_partial_insensitive(&self, b: Map<u8, Seq<u8>>, variable: u8, val: Seq<u8>) {
        let b2 = b.insert(variable, val);
        if self.vars().subset_of(b2.dom()) {
            assert(self.vars().contains(self.ve()) && self.vars().contains(self.va())
                && self.vars().contains(self.vv()));
            assert(b.dom().contains(self.ve()) && b.dom().contains(self.va()) && b.dom().contains(
                self.vv(),
            ));
            assert(self.vars().subset_of(b.dom()));
        }
    }

    proof fn lemma_partial_total(&self, b: Map<u8, Seq<u8>>) {
        let m = Map::<u8, Seq<u8>>::new(|w: u8| self.vars().contains(w), |w: u8| b[w]);
        assert(m.dom() =~= self.vars());
        assert(self.vars().contains(self.ve()) && self.vars().contains(self.va())
            && self.vars().contains(self.vv()));
        assert(m[self.ve()] == b[self.ve()] && m[self.va()] == b[self.va()] && m[self.vv()]
            == b[self.vv()]);
        assert(self.ok(m));
    }

    fn variables(&self) -> (r: ByteBitset) {
        let mut r = ByteBitset::new_empty();
        r.set(self.variable_e.index);
        r.set(self.variable_a.index);
        r.set(self.variable_v.index);
        proof {
            assert(r@ =~= self.vars());
        }
        r
    }

    fn estimate(&self, variable: u8, binding: &Binding) -> (r: usize) {
        let e_bound = binding.is_bound(self.variable_e.index);
        let a_bound = binding.is_bound(self.variable_a.index);
        let v_bound = binding.is_bound(self.variable_v.index);
        let mut eid: Vec<u8> = Vec::new();
        let mut aid: Vec<u8> = Vec::new();
        let mut vval: Vec<u8> = Vec::new();
        if e_bound {
            let ev = must_get(binding, self.variable_e.index);
            if !crate::id::is_embedded_id(&ev) {
                return 0;
            }
            eid = id_from_value(&ev);
        }
        if a_bound {
            let av = must_get(binding, self.variable_a.index);
            if !crate::id::is_embedded_id(&av) {
                return 0;
            }
            aid = id_from_value(&av);
        }
        if v_bound {
            vval = must_get(binding, self.variable_v.index);
        }
        if variable == self.variable_e.index {
            if a_bound && v_bound {
                match self.set.ave.find(&concat_bytes(aid, &vval)) {
                    Some(i) => {
                        proof {
                            self.set.ave.lemma_entry_len(48, 16, i as int);
                        }
                        self.set.ave.entries[i].1.len()
                    },
                    None => 0,
                }
            } else if a_bound {
                match self.set.ae.find(&aid) {
                    Some(i) => {
                        proof {
                            self.set.ae.lemma_entry_len(16, 16, i as int);
                        }
                        self.set.ae.entries[i].1.len()
                    },
                    None => 0,
                }
            } else if v_bound {
                match self.set.ve.find(&vval) {
                    Some(i) => {
                        proof {
                            self.set.ve.lemma_entry_len(32, 16, i as int);
                        }
                        self.set.ve.entries[i].1.len()
                    },
                    None => 0,
                }
            } else {
                self.set.e.len()
            }
        } else if variable == self.variable_a.index {
            if e_bound && v_bound {
                match self.set.eva.find(&concat_bytes(eid, &vval)) {
                    Some(i) => {
                        proof {
                            self.set.eva.lemma_entry_len(48, 16, i as int);
                        }
                        self.set.eva.entries[i].1.len()
                    },
                    None => 0,
                }
            } else if e_bound {
                match self.set.ea.find(&eid) {
                    Some(i) => {
                        proof {
                            self.set.ea.lemma_entry_len(16, 16, i as int);
                        }
                        self.set.ea.entries[i].1.len()
                    },
                    None => 0,
                }
            } else if v_bound {
                match self.set.va.find(&vval) {
                    Some(i) => {
                        proof {
                            self.set.va.lemma_entry_len(32, 16, i as int);
                        }
                        self.set.va.entries[i].1.len()
                    },
                    None => 0,
                }
            } else {
                self.set.a.len()
            }
        } else {
            if e_bound && a_bound {
                match self.set.eav.find(&concat_bytes(eid, &aid)) {
                    Some(i) => {
                        proof {
                            self.set.eav.lemma_entry_len(32, 32, i as int);
                        }
                        self.set.eav.entries[i].1.len()
                    },
                    None => 0,
                }
            } else if e_bound {
                match self.set.ev.find(&eid) {
                    Some(i) => {
                        proof {
                            self.set.ev.lemma_entry_len(16, 32, i as int);
                        }
                        self.set.ev.entries[i].1.len()
                    },
                    None => 0,
                }
            } else if a_bound {
                match self.set.av.find(&aid) {
                    Some(i) => {
                        proof {
                            self.set.av.lemma_entry_len(16, 32, i as int);
                        }
                        self.set.av.entries[i].1.len()
                    },
                    None => 0,
                }
            } else {
                self.set.v.len()
            }
        }
    }

    fn propose(&self, variable: u8, binding: &Binding) -> (r: Vec<Vec<u8>>)
        ensures
            forall|val: Seq<u8>|
                #![trigger contains_val(r@, val)]
                contains_val(r@, val) == (exists|m: Map<u8, Seq<u8>>|
                    #[trigger] self.ok(m) && m.dom() == self.vars() && (forall|v: u8|
                        self.vars().contains(v) && binding@.dom().contains(v) ==> m[v] == binding@[v])
                        && m[variable] == val),
            forall|x: int|
                0 <= x < r@.len() ==> self.partial_ok(
                    binding@.insert(variable, (#[trigger] r@[x])@),
                ),
    {
        self.options(variable, binding)
    }

    fn confirm(&self, variable: u8, binding: &Binding, proposals: &mut Vec<Vec<u8>>)
        ensures
            forall|val: Seq<u8>|
                #![trigger contains_val(final(proposals)@, val)]
                contains_val(final(proposals)@, val) == (contains_val(old(proposals)@, val) && (
                exists|m: Map<u8, Seq<u8>>|
                    #[trigger] self.ok(m) && m.dom() == self.vars() && (forall|v: u8|
                        self.vars().contains(v) && binding@.dom().contains(v) ==> m[v] == binding@[v])
                        && m[variable] == val)),
    {
        let opts = self.options(variable, binding);
        let merged = crate::query::intersect_sorted(proposals, &opts);
        let ghost oldp = proposals@;
        *proposals = merged;
        proof {
            assert forall|x: int|
                0 <= x < proposals@.len() implies self.partial_ok(
                binding@.insert(variable, (#[trigger] proposals@[x])@),
            ) by {
                assert(contains_val(proposals@, proposals@[x]@));
                assert(contains_val(opts@, proposals@[x]@));
                let y = choose|y: int|
                    0 <= y < opts@.len() && (#[trigger] opts@[y])@ == proposals@[x]@;
            }
            assert forall|x: int|
                0 <= x < proposals@.len() implies contains_val(
                oldp,
                (#[trigger] proposals@[x])@,
            ) by {
                assert(contains_val(proposals@, proposals@[x]@));
            }
            assert forall|val: Seq<u8>|
                #![trigger contains_val(proposals@, val)]
                contains_val(oldp, val) && (exists|m: Map<u8, Seq<u8>>|
                    #[trigger] self.ok(m) && m.dom() == self.vars() && (forall|v: u8|
                        self.vars().contains(v) && binding@.dom().contains(v) ==> m[v] == binding@[v])
                        && m[variable] == val) implies contains_val(proposals@, val) by {
                assert(contains_val(opts@, val));
            }
        }
    }
}

} // verus!
