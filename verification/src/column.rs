//! A single-attribute column and its two-variable constraint.
//!
//! A column relates entity ids to 32-byte values; it is held in both
//! directions so that either side can drive a join.

use vstd::prelude::*;

use crate::bits::ByteBitset;
use crate::id::{embedded_id, id_from_value, id_of, value_of_id};
use crate::keys::lex_lt;
use crate::query::{contains_val, must_get, sorted_lex, Binding, Constraint, Variable};
use crate::triblesetconstraint::embed_all;
use crate::vecset::{copy_list, VecMap};

verus! {

/// An entity-to-value relation, indexed in both directions.
pub struct Column {
    pub ev: VecMap,
    pub ve: VecMap,
}

impl Column {
    pub open spec fn wf(self) -> bool {
        &&& self.ev.wf(16, 32)
        &&& self.ve.wf(32, 16)
        &&& forall|e: Seq<u8>, v: Seq<u8>|
            #![trigger self.ev.has_pair(e, v)]
            #![trigger self.ve.has_pair(v, e)]
            self.ev.has_pair(e, v) == self.ve.has_pair(v, e)
    }

    /// The abstract contents: which (entity id, value) pairs the column holds.
    pub open spec fn has(self, e: Seq<u8>, v: Seq<u8>) -> bool {
        self.ev.has_pair(e, v)
    }

    pub fn new() -> (r: Column)
        ensures
            r.wf(),
            forall|e: Seq<u8>, v: Seq<u8>| !r.has(e, v),
    {
        Column { ev: VecMap::new(), ve: VecMap::new() }
    }

    /// Relates the entity id `e` to the value `v`.
    pub fn add(&mut self, e: &Vec<u8>, v: &Vec<u8>)
        requires
            old(self).wf(),
            e@.len() == 16,
            v@.len() == 32,
        ensures
            final(self).wf(),
            forall|e2: Seq<u8>, v2: Seq<u8>|
                final(self).has(e2, v2) == (old(self).has(e2, v2) || (e2 == e@ && v2 == v@)),
    {
        self.ev.add(e.clone(), v.clone());
        self.ve.add(v.clone(), e.clone());
    }
}

/// A constraint binding an entity variable and a value variable to the
/// pairs of a column.
pub struct ColumnConstraint<'a> {
    pub variable_e: Variable,
    pub variable_v: Variable,
    pub column: &'a Column,
}

impl<'a> ColumnConstraint<'a> {
    pub open spec fn ve(self) -> u8 {
        self.variable_e.index
    }

    pub open spec fn vv(self) -> u8 {
        self.variable_v.index
    }

    pub fn new(variable_e: Variable, variable_v: Variable, column: &'a Column) -> (r:
        ColumnConstraint<'a>)
        requires
            column.wf(),
            variable_e.index != variable_v.index,
        ensures
            r.wf(),
            r.ve() == variable_e.index,
            r.vv() == variable_v.index,
            r.column == column,
    {
        ColumnConstraint { variable_e, variable_v, column }
    }

    /// Exactly the values that extend `binding` at `variable` to a pair of
    /// the column, ascending and duplicate-free.
    fn options(&self, variable: u8, binding: &Binding) -> (r: Vec<Vec<u8>>)
        requires
            self.wf(),
            binding.wf(),
            self.vars().contains(variable),
            !binding@.dom().contains(variable),
        ensures
            sorted_lex(r@),
            forall|x: int| 0 <= x < r@.len() ==> (#[trigger] r@[x])@.len() == 32,
            forall|val: Seq<u8>|
                #![trigger contains_val(r@, val)]
                (exists|m: Map<u8, Seq<u8>>|
                    #[trigger] self.ok(m) && m.dom() == self.vars() && (forall|v: u8|
                        self.vars().contains(v) && binding@.dom().contains(v) ==> m[v] == binding@[v])
                        && m[variable] == val) ==> contains_val(r@, val),
            forall|val: Seq<u8>|
                #![trigger contains_val(r@, val)]
                contains_val(r@, val) ==> (exists|m: Map<u8, Seq<u8>>|
                    #[trigger] self.ok(m) && m.dom() == self.vars() && (forall|v: u8|
                        self.vars().contains(v) && binding@.dom().contains(v) ==> m[v] == binding@[v])
                        && m[variable] == val),
            forall|x: int|
                0 <= x < r@.len() ==> self.partial_ok(
                    binding@.insert(variable, (#[trigger] r@[x])@),
                ),
    {
        let ghost b = binding@;
        if variable == self.variable_v.index {
            if binding.is_bound(self.variable_e.index) {
                // entity bound: the values under it, exactly
                let ev = must_get(binding, self.variable_e.index);
                if !crate::id::is_embedded_id(&ev) {
                    let r: Vec<Vec<u8>> = Vec::new();
                    proof {
                        self.lemma_empty_ok(b, variable, r@);
                    }
                    return r;
                }
                let eid = id_from_value(&ev);
                match self.column.ev.find(&eid) {
                    Some(i) => {
                        let r = copy_list(&self.column.ev.entries[i].1.items);
                        proof {
                            self.column.ev.lemma_key_unique(16, 32, i as int, eid@);
                            let vset = self.column.ev.entries@[i as int].1;
                            assert forall|x: int, y: int|
                                0 <= x < y < r@.len() implies lex_lt(
                                (#[trigger] r@[x])@,
                                (#[trigger] r@[y])@,
                            ) by {
                                assert(vset.items@[x]@ == r@[x]@);
                                assert(vset.items@[y]@ == r@[y]@);
                            }
                            assert forall|val: Seq<u8>|
                                #![trigger contains_val(r@, val)]
                                (exists|m: Map<u8, Seq<u8>>|
                                    #[trigger] self.ok(m) && m.dom() == self.vars() && (forall|
                                        v: u8,
                                    |
                                        self.vars().contains(v) && b.dom().contains(v) ==> m[v]
                                            == b[v]) && m[variable] == val) implies contains_val(
                                r@,
                                val,
                            ) by {
                                let m = choose|m: Map<u8, Seq<u8>>|
                                    #[trigger] self.ok(m) && m.dom() == self.vars() && (forall|
                                        v: u8,
                                    |
                                        self.vars().contains(v) && b.dom().contains(v) ==> m[v]
                                            == b[v]) && m[variable] == val;
                                assert(self.column.ev.has_pair(eid@, val));
                                let j = choose|j: int|
                                    0 <= j < self.column.ev.entries@.len() && (
                                    #[trigger] self.column.ev.entries@[j]).0@ == eid@
                                        && self.column.ev.entries@[j].1.view_set().contains(val);
                                assert(j == i);
                                let ms = vset.items@.map_values(|q: Vec<u8>| q@);
                                let x = choose|x: int| 0 <= x < ms.len() && ms[x] == val;
                                assert(r@[x]@ == val);
                            }
                            assert forall|x: int|
                                0 <= x < r@.len() implies self.partial_ok(
                                b.insert(variable, (#[trigger] r@[x])@),
                            ) by {
                                assert(vset.items@[x]@ == r@[x]@);
                                let ms = vset.items@.map_values(|q: Vec<u8>| q@);
                                assert(ms[x] == r@[x]@);
                                assert(ms.contains(r@[x]@));
                                assert(self.column.ev.has_pair(eid@, r@[x]@));
                                let b2 = b.insert(variable, r@[x]@);
                                assert(id_of(b2[self.ve()]) == eid@);
                            }
                            assert forall|val: Seq<u8>|
                                #![trigger contains_val(r@, val)]
                                contains_val(r@, val) implies (exists|m: Map<u8, Seq<u8>>|
                                    #[trigger] self.ok(m) && m.dom() == self.vars() && (forall|
                                        v: u8,
                                    |
                                        self.vars().contains(v) && b.dom().contains(v) ==> m[v]
                                            == b[v]) && m[variable] == val) by {
                                let y = choose|y: int|
                                    0 <= y < r@.len() && (#[trigger] r@[y])@ == val;
                                assert(vset.items@[y]@ == val);
                                let ms = vset.items@.map_values(|q: Vec<u8>| q@);
                                assert(ms[y] == val);
                                assert(ms.contains(val));
                                assert(self.column.ev.has_pair(eid@, val));
                                self.lemma_pair_admissible(b, variable, val, eid@, val);
                            }
                        }
                        r
                    },
                    None => {
                        let r: Vec<Vec<u8>> = Vec::new();
                        proof {
                            assert forall|val: Seq<u8>|
                                #![trigger contains_val(r@, val)]
                                (exists|m: Map<u8, Seq<u8>>|
                                    #[trigger] self.ok(m) && m.dom() == self.vars() && (forall|
                                        v: u8,
                                    |
                                        self.vars().contains(v) && b.dom().contains(v) ==> m[v]
                                            == b[v]) && m[variable] == val) implies contains_val(
                                r@,
                                val,
                            ) by {
                                let m = choose|m: Map<u8, Seq<u8>>|
                                    #[trigger] self.ok(m) && m.dom() == self.vars() && (forall|
                                        v: u8,
                                    |
                                        self.vars().contains(v) && b.dom().contains(v) ==> m[v]
                                            == b[v]) && m[variable] == val;
                                assert(self.column.ev.has_pair(eid@, val));
                                assert(self.column.ev.has_key(eid@));
                            }
                        }
                        r
                    },
                }
            } else {
                // nothing bound: every value of the column
                let r = self.column.ve.keys();
                proof {
                    self.lemma_middle(b, variable);
                    assert forall|x: int, y: int|
                        0 <= x < y < r@.len() implies lex_lt(
                        (#[trigger] r@[x])@,
                        (#[trigger] r@[y])@,
                    ) by {
                        assert(r@[x]@ == self.column.ve.entries@[x].0@);
                        assert(r@[y]@ == self.column.ve.entries@[y].0@);
                    }
                    assert forall|x: int| 0 <= x < r@.len() implies (#[trigger] r@[x])@.len()
                        == 32 by {
                        assert(r@[x]@ == self.column.ve.entries@[x].0@);
                    }
                    assert forall|val: Seq<u8>|
                        #![trigger contains_val(r@, val)]
                        (exists|m: Map<u8, Seq<u8>>|
                            #[trigger] self.ok(m) && m.dom() == self.vars() && (forall|v: u8|
                                self.vars().contains(v) && b.dom().contains(v) ==> m[v] == b[v])
                                && m[variable] == val) implies contains_val(r@, val) by {
                        let m = choose|m: Map<u8, Seq<u8>>|
                            #[trigger] self.ok(m) && m.dom() == self.vars() && (forall|v: u8|
                                self.vars().contains(v) && b.dom().contains(v) ==> m[v] == b[v])
                                && m[variable] == val;
                        assert(self.column.ev.has_pair(id_of(m[self.ve()]), val));
                        assert(self.column.ve.has_pair(val, id_of(m[self.ve()])));
                        let j = choose|j: int|
                            0 <= j < self.column.ve.entries@.len() && (
                            #[trigger] self.column.ve.entries@[j]).0@ == val
                                && self.column.ve.entries@[j].1.view_set().contains(
                                id_of(m[self.ve()]),
                            );
                        assert(r@[j]@ == val);
                    }
                    assert forall|val: Seq<u8>|
                        #![trigger contains_val(r@, val)]
                        contains_val(r@, val) implies (exists|m: Map<u8, Seq<u8>>|
                                    #[trigger] self.ok(m) && m.dom() == self.vars() && (forall|
                                        v: u8,
                                    |
                                        self.vars().contains(v) && b.dom().contains(v) ==> m[v]
                                            == b[v]) && m[variable] == val) by {
                        let y = choose|y: int| 0 <= y < r@.len() && (#[trigger] r@[y])@ == val;
                        assert(r@[y]@ == self.column.ve.entries@[y].0@);
                        let vset = self.column.ve.entries@[y].1;
                        assert(vset.items@.len() > 0);
                        let elem = vset.items@[0]@;
                        let ms = vset.items@.map_values(|q: Vec<u8>| q@);
                        assert(ms[0] == elem);
                        assert(ms.contains(elem));
                        assert(self.column.ve.has_pair(val, elem));
                        assert(self.column.ev.has_pair(elem, val));
                        self.lemma_pair_admissible(b, variable, val, elem, val);
                    }
                }
                r
            }
        } else {
            if binding.is_bound(self.variable_v.index) {
                // value bound: the entity ids under it, embedded, exactly
                let vv = must_get(binding, self.variable_v.index);
                match self.column.ve.find(&vv) {
                    Some(i) => {
                        let ghost vset = self.column.ve.entries@[i as int].1;
                        proof {
                            assert(vset.wf(16));
                        }
                        let ids = copy_list(&self.column.ve.entries[i].1.items);
                        proof {
                            assert forall|x: int, y: int|
                                0 <= x < y < ids@.len() implies lex_lt(
                                (#[trigger] ids@[x])@,
                                (#[trigger] ids@[y])@,
                            ) by {
                                assert(vset.items@[x]@ == ids@[x]@);
                                assert(vset.items@[y]@ == ids@[y]@);
                            }
                            assert forall|x: int| 0 <= x < ids@.len() implies (
                            #[trigger] ids@[x])@.len() == 16 by {
                                assert(vset.items@[x]@ == ids@[x]@);
                            }
                        }
                        let r = embed_all(&ids);
                        proof {
                            self.column.ve.lemma_key_unique(32, 16, i as int, vv@);
                            assert forall|val: Seq<u8>|
                                #![trigger contains_val(r@, val)]
                                (exists|m: Map<u8, Seq<u8>>|
                                    #[trigger] self.ok(m) && m.dom() == self.vars() && (forall|
                                        v: u8,
                                    |
                                        self.vars().contains(v) && b.dom().contains(v) ==> m[v]
                                            == b[v]) && m[variable] == val) implies contains_val(
                                r@,
                                val,
                            ) by {
                                let m = choose|m: Map<u8, Seq<u8>>|
                                    #[trigger] self.ok(m) && m.dom() == self.vars() && (forall|
                                        v: u8,
                                    |
                                        self.vars().contains(v) && b.dom().contains(v) ==> m[v]
                                            == b[v]) && m[variable] == val;
                                assert(self.column.ev.has_pair(id_of(val), vv@));
                                assert(self.column.ve.has_pair(vv@, id_of(val)));
                                let j = choose|j: int|
                                    0 <= j < self.column.ve.entries@.len() && (
                                    #[trigger] self.column.ve.entries@[j]).0@ == vv@
                                        && self.column.ve.entries@[j].1.view_set().contains(
                                        id_of(val),
                                    );
                                assert(j == i);
                                let ms = vset.items@.map_values(|q: Vec<u8>| q@);
                                let x = choose|x: int| 0 <= x < ms.len() && ms[x] == id_of(val);
                                assert(ids@[x]@ == id_of(val));
                                assert(r@[x]@ == value_of_id(id_of(val)));
                                crate::id::lemma_embedded_id(val);
                            }
                            assert forall|x: int|
                                0 <= x < r@.len() implies self.partial_ok(
                                b.insert(variable, (#[trigger] r@[x])@),
                            ) by {
                                assert(vset.items@[x]@ == ids@[x]@);
                                let ms = vset.items@.map_values(|q: Vec<u8>| q@);
                                assert(ms[x] == ids@[x]@);
                                assert(ms.contains(ids@[x]@));
                                assert(self.column.ve.has_pair(vv@, ids@[x]@));
                                assert(self.column.ev.has_pair(ids@[x]@, vv@));
                                crate::id::lemma_value_of_id(ids@[x]@);
                                let b2 = b.insert(variable, r@[x]@);
                                assert(embedded_id(b2[self.ve()]));
                                assert(id_of(b2[self.ve()]) == ids@[x]@);
                            }
                            assert forall|val: Seq<u8>|
                                #![trigger contains_val(r@, val)]
                                contains_val(r@, val) implies (exists|m: Map<u8, Seq<u8>>|
                                    #[trigger] self.ok(m) && m.dom() == self.vars() && (forall|
                                        v: u8,
                                    |
                                        self.vars().contains(v) && b.dom().contains(v) ==> m[v]
                                            == b[v]) && m[variable] == val) by {
                                let y = choose|y: int|
                                    0 <= y < r@.len() && (#[trigger] r@[y])@ == val;
                                assert(val == value_of_id(ids@[y]@));
                                assert(vset.items@[y]@ == ids@[y]@);
                                let ms = vset.items@.map_values(|q: Vec<u8>| q@);
                                assert(ms[y] == ids@[y]@);
                                assert(ms.contains(ids@[y]@));
                                assert(self.column.ve.has_pair(vv@, ids@[y]@));
                                assert(self.column.ev.has_pair(ids@[y]@, vv@));
                                self.lemma_pair_admissible(b, variable, val, ids@[y]@, vv@);
                            }
                        }
                        r
                    },
                    None => {
                        let r: Vec<Vec<u8>> = Vec::new();
                        proof {
                            assert forall|val: Seq<u8>|
                                #![trigger contains_val(r@, val)]
                                (exists|m: Map<u8, Seq<u8>>|
                                    #[trigger] self.ok(m) && m.dom() == self.vars() && (forall|
                                        v: u8,
                                    |
                                        self.vars().contains(v) && b.dom().contains(v) ==> m[v]
                                            == b[v]) && m[variable] == val) implies contains_val(
                                r@,
                                val,
                            ) by {
                                let m = choose|m: Map<u8, Seq<u8>>|
                                    #[trigger] self.ok(m) && m.dom() == self.vars() && (forall|
                                        v: u8,
                                    |
                                        self.vars().contains(v) && b.dom().contains(v) ==> m[v]
                                            == b[v]) && m[variable] == val;
                                assert(self.column.ev.has_pair(id_of(val), vv@));
                                assert(self.column.ve.has_pair(vv@, id_of(val)));
                                assert(self.column.ve.has_key(vv@));
                            }
                        }
                        r
                    },
                }
            } else {
                // nothing bound: every entity id of the column, embedded
                let ids = self.column.ev.keys();
                proof {
                    assert forall|x: int, y: int|
                        0 <= x < y < ids@.len() implies lex_lt(
                        (#[trigger] ids@[x])@,
                        (#[trigger] ids@[y])@,
                    ) by {
                        assert(ids@[x]@ == self.column.ev.entries@[x].0@);
                        assert(ids@[y]@ == self.column.ev.entries@[y].0@);
                    }
                    assert forall|x: int| 0 <= x < ids@.len() implies (#[trigger] ids@[x])@.len()
                        == 16 by {
                        assert(ids@[x]@ == self.column.ev.entries@[x].0@);
                    }
                }
                let r = embed_all(&ids);
                proof {
                    self.lemma_middle(b, variable);
                    assert forall|val: Seq<u8>|
                        #![trigger contains_val(r@, val)]
                        (exists|m: Map<u8, Seq<u8>>|
                            #[trigger] self.ok(m) && m.dom() == self.vars() && (forall|v: u8|
                                self.vars().contains(v) && b.dom().contains(v) ==> m[v] == b[v])
                                && m[variable] == val) implies contains_val(r@, val) by {
                        let m = choose|m: Map<u8, Seq<u8>>|
                            #[trigger] self.ok(m) && m.dom() == self.vars() && (forall|v: u8|
                                self.vars().contains(v) && b.dom().contains(v) ==> m[v] == b[v])
                                && m[variable] == val;
                        assert(self.column.ev.has_pair(id_of(val), m[self.vv()]));
                        let j = choose|j: int|
                            0 <= j < self.column.ev.entries@.len() && (
                            #[trigger] self.column.ev.entries@[j]).0@ == id_of(val)
                                && self.column.ev.entries@[j].1.view_set().contains(m[self.vv()]);
                        assert(ids@[j]@ == id_of(val));
                        assert(r@[j]@ == value_of_id(id_of(val)));
                        crate::id::lemma_embedded_id(val);
                    }
                    assert forall|val: Seq<u8>|
                        #![trigger contains_val(r@, val)]
                        contains_val(r@, val) implies (exists|m: Map<u8, Seq<u8>>|
                                    #[trigger] self.ok(m) && m.dom() == self.vars() && (forall|
                                        v: u8,
                                    |
                                        self.vars().contains(v) && b.dom().contains(v) ==> m[v]
                                            == b[v]) && m[variable] == val) by {
                        let y = choose|y: int| 0 <= y < r@.len() && (#[trigger] r@[y])@ == val;
                        assert(val == value_of_id(ids@[y]@));
                        assert(ids@[y]@ == self.column.ev.entries@[y].0@);
                        let vset = self.column.ev.entries@[y].1;
                        assert(vset.items@.len() > 0);
                        let elem = vset.items@[0]@;
                        let ms = vset.items@.map_values(|q: Vec<u8>| q@);
                        assert(ms[0] == elem);
                        assert(ms.contains(elem));
                        assert(self.column.ev.has_pair(ids@[y]@, elem));
                        self.lemma_pair_admissible(b, variable, val, ids@[y]@, elem);
                    }
                }
                r
            }
        }
    }

    /// A member pair that agrees with the bound variables witnesses an
    /// admitted assignment for either variable of the pattern.
    proof fn lemma_pair_admissible(
        &self,
        b: Map<u8, Seq<u8>>,
        variable: u8,
        val: Seq<u8>,
        eid0: Seq<u8>,
        vval0: Seq<u8>,
    )
        requires
            self.wf(),
            self.column.has(eid0, vval0),
            eid0.len() == 16,
            vval0.len() == 32,
            b.dom().contains(self.ve()) ==> embedded_id(b[self.ve()]) && eid0 == id_of(
                b[self.ve()],
            ),
            b.dom().contains(self.vv()) ==> vval0 == b[self.vv()],
            variable == self.ve() || variable == self.vv(),
            variable == self.ve() ==> val == value_of_id(eid0),
            variable == self.vv() ==> val == vval0,
        ensures
            exists|m: Map<u8, Seq<u8>>|
                #[trigger] self.ok(m) && m.dom() == self.vars() && (forall|v: u8|
                    self.vars().contains(v) && b.dom().contains(v) ==> m[v] == b[v]) && m[variable]
                    == val,
    {
        let m = Map::<u8, Seq<u8>>::empty().insert(self.ve(), value_of_id(eid0)).insert(
            self.vv(),
            vval0,
        );
        assert(m.dom() =~= self.vars());
        crate::id::lemma_value_of_id(eid0);
        assert(self.ok(m));
        assert forall|v: u8|
            self.vars().contains(v) && b.dom().contains(v) implies m[v] == b[v] by {
            if v == self.ve() {
                crate::id::lemma_embedded_id(b[self.ve()]);
            }
        }
        assert(m[variable] == val);
    }

    /// When a bound value cannot be an embedded id, nothing is admissible.
    proof fn lemma_empty_ok(&self, b: Map<u8, Seq<u8>>, variable: u8, r: Seq<Vec<u8>>)
        requires
            self.wf(),
            r.len() == 0,
            b.dom().contains(self.ve()) && !embedded_id(b[self.ve()]),
        ensures
            forall|val: Seq<u8>|
                #![trigger contains_val(r, val)]
                (exists|m: Map<u8, Seq<u8>>|
                    #[trigger] self.ok(m) && m.dom() == self.vars() && (forall|v: u8|
                        self.vars().contains(v) && b.dom().contains(v) ==> m[v] == b[v])
                        && m[variable] == val) ==> contains_val(r, val),
            forall|x: int|
                0 <= x < r.len() ==> self.partial_ok(b.insert(variable, (#[trigger] r[x])@)),
    {
        assert forall|val: Seq<u8>|
            #![trigger contains_val(r, val)]
            (exists|m: Map<u8, Seq<u8>>|
                #[trigger] self.ok(m) && m.dom() == self.vars() && (forall|v: u8|
                    self.vars().contains(v) && b.dom().contains(v) ==> m[v] == b[v]) && m[variable]
                    == val) implies contains_val(r, val) by {
            let m = choose|m: Map<u8, Seq<u8>>|
                #[trigger] self.ok(m) && m.dom() == self.vars() && (forall|v: u8|
                    self.vars().contains(v) && b.dom().contains(v) ==> m[v] == b[v]) && m[variable]
                    == val;
            assert(self.vars().contains(self.ve()));
            assert(false);
        }
    }

    /// Binding one variable while the other stays unbound keeps
    /// `partial_ok` trivially true.
    proof fn lemma_middle(&self, b: Map<u8, Seq<u8>>, variable: u8)
        requires
            self.wf(),
            variable == self.ve() || variable == self.vv(),
            variable == self.ve() ==> !b.dom().contains(self.vv()),
            variable == self.vv() ==> !b.dom().contains(self.ve()),
        ensures
            forall|val: Seq<u8>| self.partial_ok(#[trigger] b.insert(variable, val)),
    {
        assert forall|val: Seq<u8>| self.partial_ok(#[trigger] b.insert(variable, val)) by {
            let b2 = b.insert(variable, val);
            if variable == self.ve() {
                assert(!b2.dom().contains(self.vv()));
                assert(self.vars().contains(self.vv()));
                assert(!self.vars().subset_of(b2.dom()));
            } else {
                assert(!b2.dom().contains(self.ve()));
                assert(self.vars().contains(self.ve()));
                assert(!self.vars().subset_of(b2.dom()));
            }
        }
    }
}

impl<'a> Constraint for ColumnConstraint<'a> {
    open spec fn vars(&self) -> Set<u8> {
        Set::empty().insert(self.ve()).insert(self.vv())
    }

    open spec fn ok(&self, m: Map<u8, Seq<u8>>) -> bool {
        &&& embedded_id(m[self.ve()])
        &&& m[self.vv()].len() == 32
        &&& self.column.has(id_of(m[self.ve()]), m[self.vv()])
    }

    open spec fn wf(&self) -> bool {
        &&& self.column.wf()
        &&& self.ve() != self.vv()
    }

    open spec fn partial_ok(&self, b: Map<u8, Seq<u8>>) -> bool {
        self.vars().subset_of(b.dom()) ==> (embedded_id(b[self.ve()]) && b[self.vv()].len() == 32
            && self.column.has(id_of(b[self.ve()]), b[self.vv()]))
    }

    open spec fn est(&self, b: Map<u8, Seq<u8>>, variable: u8) -> int {
        if variable == self.vv() {
            if b.dom().contains(self.ve()) {
                if embedded_id(b[self.ve()]) {
                    self.column.ev.entry_len(id_of(b[self.ve()]))
                } else {
                    0
                }
            } else {
                self.column.ve.entries@.len() as int
            }
        } else {
            if b.dom().contains(self.vv()) {
                self.column.ve.entry_len(b[self.vv()])
            } else {
                self.column.ev.entries@.len() as int
            }
        }
    }

    proof fn lemma_partial_empty(&self, b: Map<u8, Seq<u8>>) {
        if self.vars().subset_of(b.dom()) {
            assert(self.vars().contains(self.ve()));
            assert(b.dom().contains(self.ve()));
        }
    }

    proof fn lemma_partial_insensitive(&self, b: Map<u8, Seq<u8>>, variable: u8, val: Seq<u8>) {
        let b2 = b.insert(variable, val);
        if self.vars().subset_of(b2.dom()) {
            assert(self.vars().contains(self.ve()) && self.vars().contains(self.vv()));
            assert(b.dom().contains(self.ve()) && b.dom().contains(self.vv()));
            assert(self.vars().subset_of(b.dom()));
        }
    }

    proof fn lemma_partial_total(&self, b: Map<u8, Seq<u8>>) {
        let m = Map::<u8, Seq<u8>>::new(|w: u8| self.vars().contains(w), |w: u8| b[w]);
        assert(m.dom() =~= self.vars());
        assert(self.vars().contains(self.ve()) && self.vars().contains(self.vv()));
        assert(m[self.ve()] == b[self.ve()] && m[self.vv()] == b[self.vv()]);
        assert(self.ok(m));
    }

    fn variables(&self) -> (r: ByteBitset) {
        let mut r = ByteBitset::new_empty();
        r.set(self.variable_e.index);
        r.set(self.variable_v.index);
        proof {
            assert(r@ =~= self.vars());
        }
        r
    }

    fn estimate(&self, variable: u8, binding: &Binding) -> (r: usize) {
        if variable == self.variable_v.index {
            if binding.is_bound(self.variable_e.index) {
                let ev = must_get(binding, self.variable_e.index);
                if !crate::id::is_embedded_id(&ev) {
                    return 0;
                }
                let eid = id_from_value(&ev);
                match self.column.ev.find(&eid) {
                    Some(i) => {
                        proof {
                            self.column.ev.lemma_entry_len(16, 32, i as int);
                        }
                        self.column.ev.entries[i].1.len()
                    },
                    None => 0,
                }
            } else {
                self.column.ve.len()
            }
        } else {
            if binding.is_bound(self.variable_v.index) {
                let vv = must_get(binding, self.variable_v.index);
                match self.column.ve.find(&vv) {
                    Some(i) => {
                        proof {
                            self.column.ve.lemma_entry_len(32, 16, i as int);
                        }
                        self.column.ve.entries[i].1.len()
                    },
                    None => 0,
                }
            } else {
                self.column.ev.len()
            }
        }
    }

    fn propose(&self, variable: u8, binding: &Binding) -> (r: Vec<Vec<u8>>)
        ensures
            forall|val: Seq<u8>|
                #![trigger contains_val(r@, val)]
                contains_val(r@, val) == (exists|m: Map<u8, Seq<u8>>|
                    #[trigger] self.ok(m) && m.dom() == self.vars() && (forall|v: u8|
                        self.vars().contains(v) && binding@.dom().contains(v) ==> m[v] == binding@[v])
                        && m[variable] == val),
            forall|x: int|
                0 <= x < r@.len() ==> self.partial_ok(
                    binding@.insert(variable, (#[trigger] r@[x])@),
                ),
    {
        self.options(variable, binding)
    }

    fn confirm(&self, variable: u8, binding: &Binding, proposals: &mut Vec<Vec<u8>>)
        ensures
            forall|val: Seq<u8>|
                #![trigger contains_val(final(proposals)@, val)]
                contains_val(final(proposals)@, val) == (contains_val(old(proposals)@, val) && (
                exists|m: Map<u8, Seq<u8>>|
                    #[trigger] self.ok(m) && m.dom() == self.vars() && (forall|v: u8|
                        self.vars().contains(v) && binding@.dom().contains(v) ==> m[v] == binding@[v])
                        && m[variable] == val)),
    {
        let opts = self.options(variable, binding);
        let merged = crate::query::intersect_sorted(proposals, &opts);
        let ghost oldp = proposals@;
        *proposals = merged;
        proof {
            assert forall|x: int|
                0 <= x < proposals@.len() implies self.partial_ok(
                binding@.insert(variable, (#[trigger] proposals@[x])@),
            ) by {
                assert(contains_val(proposals@, proposals@[x]@));
                assert(contains_val(opts@, proposals@[x]@));
                let y = choose|y: int|
                    0 <= y < opts@.len() && (#[trigger] opts@[y])@ == proposals@[x]@;
            }
            assert forall|x: int|
                0 <= x < proposals@.len() implies contains_val(
                oldp,
                (#[trigger] proposals@[x])@,
            ) by {
                assert(contains_val(proposals@, proposals@[x]@));
            }
            assert forall|val: Seq<u8>|
                #![trigger contains_val(proposals@, val)]
                contains_val(oldp, val) && (exists|m: Map<u8, Seq<u8>>|
                    #[trigger] self.ok(m) && m.dom() == self.vars() && (forall|v: u8|
                        self.vars().contains(v) && binding@.dom().contains(v) ==> m[v] == binding@[v])
                        && m[variable] == val) implies contains_val(proposals@, val) by {
                assert(contains_val(opts@, val));
            }
        }
    }
}

} // verus!
