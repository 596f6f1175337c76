//! A hashed fallback index over triples.
//!
//! Thirteen containers hold one triple set redundantly: the three field
//! sets, every projection map from bound fields to a candidate field, and
//! the set of whole triples.  Each container is tied to the triple set by an
//! invariant, so the query adapters can answer from whichever fits.

use vstd::prelude::*;

use crate::keys::concat_bytes;
use crate::trible::Trible;
use crate::vecset::{VecMap, VecSet};

verus! {

pub struct HashTribleSet {
    pub e: VecSet,
    pub a: VecSet,
    pub v: VecSet,
    pub ea: VecMap,
    pub ev: VecMap,
    pub ae: VecMap,
    pub av: VecMap,
    pub ve: VecMap,
    pub va: VecMap,
    pub eav: VecMap,
    pub eva: VecMap,
    pub ave: VecMap,
    pub all: VecSet,
}

impl HashTribleSet {
    /// The abstract contents: the set of 64-byte triple keys.
    pub open spec fn contents(self) -> Set<Seq<u8>> {
        self.all.view_set()
    }

    pub open spec fn wf(self) -> bool {
        &&& self.all.wf(64)
        &&& self.e.wf(16)
        &&& self.a.wf(16)
        &&& self.v.wf(32)
        &&& self.ea.wf(16, 16)
        &&& self.ev.wf(16, 32)
        &&& self.ae.wf(16, 16)
        &&& self.av.wf(16, 32)
        &&& self.ve.wf(32, 16)
        &&& self.va.wf(32, 16)
        &&& self.eav.wf(32, 32)
        &&& self.eva.wf(48, 16)
        &&& self.ave.wf(48, 16)
        &&& forall|x: Seq<u8>|
            self.e.view_set().contains(x) == exists|t: Seq<u8>|
                #[trigger] self.contents().contains(t) && t.subrange(0, 16) == x
        &&& forall|x: Seq<u8>|
            self.a.view_set().contains(x) == exists|t: Seq<u8>|
                #[trigger] self.contents().contains(t) && t.subrange(16, 32) == x
        &&& forall|x: Seq<u8>|
            self.v.view_set().contains(x) == exists|t: Seq<u8>|
                #[trigger] self.contents().contains(t) && t.subrange(32, 64) == x
        &&& forall|k: Seq<u8>, x: Seq<u8>|
            self.ea.has_pair(k, x) == exists|t: Seq<u8>|
                #[trigger] self.contents().contains(t) && t.subrange(0, 16) == k && t.subrange(
                    16,
                    32,
                ) == x
        &&& forall|k: Seq<u8>, x: Seq<u8>|
            self.ev.has_pair(k, x) == exists|t: Seq<u8>|
                #[trigger] self.contents().contains(t) && t.subrange(0, 16) == k && t.subrange(
                    32,
                    64,
                ) == x
        &&& forall|k: Seq<u8>, x: Seq<u8>|
            self.ae.has_pair(k, x) == exists|t: Seq<u8>|
                #[trigger] self.contents().contains(t) && t.subrange(16, 32) == k && t.subrange(
                    0,
                    16,
                ) == x
        &&& forall|k: Seq<u8>, x: Seq<u8>|
            self.av.has_pair(k, x) == exists|t: Seq<u8>|
                #[trigger] self.contents().contains(t) && t.subrange(16, 32) == k && t.subrange(
                    32,
                    64,
                ) == x
        &&& forall|k: Seq<u8>, x: Seq<u8>|
            self.ve.has_pair(k, x) == exists|t: Seq<u8>|
                #[trigger] self.contents().contains(t) && t.subrange(32, 64) == k && t.subrange(
                    0,
                    16,
                ) == x
        &&& forall|k: Seq<u8>, x: Seq<u8>|
            self.va.has_pair(k, x) == exists|t: Seq<u8>|
                #[trigger] self.contents().contains(t) && t.subrange(32, 64) == k && t.subrange(
                    16,
                    32,
                ) == x
        &&& forall|k: Seq<u8>, x: Seq<u8>|
            self.eav.has_pair(k, x) == exists|t: Seq<u8>|
                #[trigger] self.contents().contains(t) && t.subrange(0, 32) == k && t.subrange(
                    32,
                    64,
                ) == x
        &&& forall|k: Seq<u8>, x: Seq<u8>|
            self.eva.has_pair(k, x) == exists|t: Seq<u8>|
                #[trigger] self.contents().contains(t) && t.subrange(0, 16) + t.subrange(32, 64)
                    == k && t.subrange(16, 32) == x
        &&& forall|k: Seq<u8>, x: Seq<u8>|
            self.ave.has_pair(k, x) == exists|t: Seq<u8>|
                #[trigger] self.contents().contains(t) && t.subrange(16, 32) + t.subrange(32, 64)
                    == k && t.subrange(0, 16) == x
    }

    pub fn new() -> (r: HashTribleSet)
        ensures
            r.wf(),
            r.contents() =~= Set::<Seq<u8>>::empty(),
    {
        let r = HashTribleSet {
            e: VecSet::new(),
            a: VecSet::new(),
            v: VecSet::new(),
            ea: VecMap::new(),
            ev: VecMap::new(),
            ae: VecMap::new(),
            av: VecMap::new(),
            ve: VecMap::new(),
            va: VecMap::new(),
            eav: VecMap::new(),
            eva: VecMap::new(),
            ave: VecMap::new(),
            all: VecSet::new(),
        };
        proof {
            assert(r.contents() =~= Set::<Seq<u8>>::empty());
        }
        r
    }

    /// The number of distinct triples.
    pub fn len(&self) -> (r: usize)
        requires
            self.wf(),
        ensures
            r == self.contents().len(),
    {
        proof {
            self.all.lemma_distinct(64);
        }
        self.all.len()
    }

    /// Adds one triple to every container.
    pub fn add(&mut self, trible: &Trible)
        requires
            old(self).wf(),
            trible.wf(),
        ensures
            final(self).wf(),
            final(self).contents() =~= old(self).contents().insert(trible.data@),
    {
        let e0 = trible.e();
        let a0 = trible.a();
        let v0 = trible.v();
        let ghost t0 = trible.data@;
        let ghost oldc = self.contents();
        proof {
            assert(self.e.wf(16) && e0@.len() == 16);
            assert(self.a.wf(16) && a0@.len() == 16);
            assert(self.v.wf(32) && v0@.len() == 32);
        }
        self.e.insert(e0.clone());
        self.a.insert(a0.clone());
        self.v.insert(v0.clone());
        self.ea.add(e0.clone(), a0.clone());
        self.ev.add(e0.clone(), v0.clone());
        self.ae.add(a0.clone(), e0.clone());
        self.av.add(a0.clone(), v0.clone());
        self.ve.add(v0.clone(), e0.clone());
        self.va.add(v0.clone(), a0.clone());
        let ea_key = concat_bytes(e0.clone(), &a0);
        let ev_key = concat_bytes(e0.clone(), &v0);
        let av_key = concat_bytes(a0.clone(), &v0);
        self.eav.add(ea_key, v0.clone());
        self.eva.add(ev_key, a0.clone());
        self.ave.add(av_key, e0.clone());
        proof {
            assert(self.all.wf(64) && trible.data@.len() == 64);
        }
        self.all.insert(trible.data.clone());
        proof {
            let newc = self.contents();
            assert(newc =~= oldc.insert(t0));
            assert(e0@ == t0.subrange(0, 16));
            assert(a0@ == t0.subrange(16, 32));
            assert(v0@ == t0.subrange(32, 64));
            assert forall|x: Seq<u8>|
                self.e.view_set().contains(x) == (exists|t: Seq<u8>|
                    #[trigger] newc.contains(t) && t.subrange(0, 16) == x) by {
                if self.e.view_set().contains(x) {
                    if x == e0@ {
                        assert(newc.contains(t0) && t0.subrange(0, 16) == x);
                    } else {
                        let t = choose|t: Seq<u8>|
                            #[trigger] oldc.contains(t) && t.subrange(0, 16) == x;
                        assert(newc.contains(t));
                    }
                }
                if exists|t: Seq<u8>| #[trigger] newc.contains(t) && t.subrange(0, 16) == x {
                    let t = choose|t: Seq<u8>|
                        #[trigger] newc.contains(t) && t.subrange(0, 16) == x;
                    if t == t0 {
                    } else {
                        assert(oldc.contains(t));
                    }
                }
            }
            assert forall|x: Seq<u8>|
                self.a.view_set().contains(x) == (exists|t: Seq<u8>|
                    #[trigger] newc.contains(t) && t.subrange(16, 32) == x) by {
                if self.a.view_set().contains(x) {
                    if x == a0@ {
                        assert(newc.contains(t0) && t0.subrange(16, 32) == x);
                    } else {
                        let t = choose|t: Seq<u8>|
                            #[trigger] oldc.contains(t) && t.subrange(16, 32) == x;
                        assert(newc.contains(t));
                    }
                }
                if exists|t: Seq<u8>| #[trigger] newc.contains(t) && t.subrange(16, 32) == x {
                    let t = choose|t: Seq<u8>|
                        #[trigger] newc.contains(t) && t.subrange(16, 32) == x;
                    if t == t0 {
                    } else {
                        assert(oldc.contains(t));
                    }
                }
            }
            assert forall|x: Seq<u8>|
                self.v.view_set().contains(x) == (exists|t: Seq<u8>|
                    #[trigger] newc.contains(t) && t.subrange(32, 64) == x) by {
                if self.v.view_set().contains(x) {
                    if x == v0@ {
                        assert(newc.contains(t0) && t0.subrange(32, 64) == x);
                    } else {
                        let t = choose|t: Seq<u8>|
                            #[trigger] oldc.contains(t) && t.subrange(32, 64) == x;
                        assert(newc.contains(t));
                    }
                }
                if exists|t: Seq<u8>| #[trigger] newc.contains(t) && t.subrange(32, 64) == x {
                    let t = choose|t: Seq<u8>|
                        #[trigger] newc.contains(t) && t.subrange(32, 64) == x;
                    if t == t0 {
                    } else {
                        assert(oldc.contains(t));
                    }
                }
            }
            assert forall|k: Seq<u8>, x: Seq<u8>|
                self.ea.has_pair(k, x) == (exists|t: Seq<u8>|
                    #[trigger] newc.contains(t) && t.subrange(0, 16) == k && t.subrange(16, 32)
                        == x) by {
                if self.ea.has_pair(k, x) {
                    if k == e0@ && x == a0@ {
                        assert(newc.contains(t0));
                    } else {
                        let t = choose|t: Seq<u8>|
                            #[trigger] oldc.contains(t) && t.subrange(0, 16) == k && t.subrange(
                                16,
                                32,
                            ) == x;
                        assert(newc.contains(t));
                    }
                }
                if exists|t: Seq<u8>|
                    #[trigger] newc.contains(t) && t.subrange(0, 16) == k && t.subrange(16, 32)
                        == x {
                    let t = choose|t: Seq<u8>|
                        #[trigger] newc.contains(t) && t.subrange(0, 16) == k && t.subrange(16, 32)
                            == x;
                    if t == t0 {
                    } else {
                        assert(oldc.contains(t));
                    }
                }
            }
            assert forall|k: Seq<u8>, x: Seq<u8>|
                self.ev.has_pair(k, x) == (exists|t: Seq<u8>|
                    #[trigger] newc.contains(t) && t.subrange(0, 16) == k && t.subrange(32, 64)
                        == x) by {
                if self.ev.has_pair(k, x) {
                    if k == e0@ && x == v0@ {
                        assert(newc.contains(t0));
                    } else {
                        let t = choose|t: Seq<u8>|
                            #[trigger] oldc.contains(t) && t.subrange(0, 16) == k && t.subrange(
                                32,
                                64,
                            ) == x;
                        assert(newc.contains(t));
                    }
                }
                if exists|t: Seq<u8>|
                    #[trigger] newc.contains(t) && t.subrange(0, 16) == k && t.subrange(32, 64)
                        == x {
                    let t = choose|t: Seq<u8>|
                        #[trigger] newc.contains(t) && t.subrange(0, 16) == k && t.subrange(32, 64)
                            == x;
                    if t == t0 {
                    } else {
                        assert(oldc.contains(t));
                    }
                }
            }
            assert forall|k: Seq<u8>, x: Seq<u8>|
                self.ae.has_pair(k, x) == (exists|t: Seq<u8>|
                    #[trigger] newc.contains(t) && t.subrange(16, 32) == k && t.subrange(0, 16)
                        == x) by {
                if self.ae.has_pair(k, x) {
                    if k == a0@ && x == e0@ {
                        assert(newc.contains(t0));
                    } else {
                        let t = choose|t: Seq<u8>|
                            #[trigger] oldc.contains(t) && t.subrange(16, 32) == k && t.subrange(
                                0,
                                16,
                            ) == x;
                        assert(newc.contains(t));
                    }
                }
                if exists|t: Seq<u8>|
                    #[trigger] newc.contains(t) && t.subrange(16, 32) == k && t.subrange(0, 16)
                        == x {
                    let t = choose|t: Seq<u8>|
                        #[trigger] newc.contains(t) && t.subrange(16, 32) == k && t.subrange(0, 16)
                            == x;
                    if t == t0 {
                    } else {
                        assert(oldc.contains(t));
                    }
                }
            }
            assert forall|k: Seq<u8>, x: Seq<u8>|
                self.av.has_pair(k, x) == (exists|t: Seq<u8>|
                    #[trigger] newc.contains(t) && t.subrange(16, 32) == k && t.subrange(32, 64)
                        == x) by {
                if self.av.has_pair(k, x) {
                    if k == a0@ && x == v0@ {
                        assert(newc.contains(t0));
                    } else {
                        let t = choose|t: Seq<u8>|
                            #[trigger] oldc.contains(t) && t.subrange(16, 32) == k && t.subrange(
                                32,
                                64,
                            ) == x;
                        assert(newc.contains(t));
                    }
                }
                if exists|t: Seq<u8>|
                    #[trigger] newc.contains(t) && t.subrange(16, 32) == k && t.subrange(32, 64)
                        == x {
                    let t = choose|t: Seq<u8>|
                        #[trigger] newc.contains(t) && t.subrange(16, 32) == k && t.subrange(
                            32,
                            64,
                        ) == x;
                    if t == t0 {
                    } else {
                        assert(oldc.contains(t));
                    }
                }
            }
            assert forall|k: Seq<u8>, x: Seq<u8>|
                self.ve.has_pair(k, x) == (exists|t: Seq<u8>|
                    #[trigger] newc.contains(t) && t.subrange(32, 64) == k && t.subrange(0, 16)
                        == x) by {
                if self.ve.has_pair(k, x) {
                    if k == v0@ && x == e0@ {
                        assert(newc.contains(t0));
                    } else {
                        let t = choose|t: Seq<u8>|
                            #[trigger] oldc.contains(t) && t.subrange(32, 64) == k && t.subrange(
                                0,
                                16,
                            ) == x;
                        assert(newc.contains(t));
                    }
                }
                if exists|t: Seq<u8>|
                    #[trigger] newc.contains(t) && t.subrange(32, 64) == k && t.subrange(0, 16)
                        == x {
                    let t = choose|t: Seq<u8>|
                        #[trigger] newc.contains(t) && t.subrange(32, 64) == k && t.subrange(0, 16)
                            == x;
                    if t == t0 {
                    } else {
                        assert(oldc.contains(t));
                    }
                }
            }
            assert forall|k: Seq<u8>, x: Seq<u8>|
                self.va.has_pair(k, x) == (exists|t: Seq<u8>|
                    #[trigger] newc.contains(t) && t.subrange(32, 64) == k && t.subrange(16, 32)
                        == x) by {
                if self.va.has_pair(k, x) {
                    if k == v0@ && x == a0@ {
                        assert(newc.contains(t0));
                    } else {
                        let t = choose|t: Seq<u8>|
                            #[trigger] oldc.contains(t) && t.subrange(32, 64) == k && t.subrange(
                                16,
                                32,
                            ) == x;
                        assert(newc.contains(t));
                    }
                }
                if exists|t: Seq<u8>|
                    #[trigger] newc.contains(t) && t.subrange(32, 64) == k && t.subrange(16, 32)
                        == x {
                    let t = choose|t: Seq<u8>|
                        #[trigger] newc.contains(t) && t.subrange(32, 64) == k && t.subrange(
                            16,
                            32,
                        ) == x;
                    if t == t0 {
                    } else {
                        assert(oldc.contains(t));
                    }
                }
            }
            assert(t0.subrange(0, 32) =~= e0@ + a0@);
            assert forall|k: Seq<u8>, x: Seq<u8>|
                self.eav.has_pair(k, x) == (exists|t: Seq<u8>|
                    #[trigger] newc.contains(t) && t.subrange(0, 32) == k && t.subrange(32, 64)
                        == x) by {
                if self.eav.has_pair(k, x) {
                    if k == e0@ + a0@ && x == v0@ {
                        assert(newc.contains(t0));
                    } else {
                        let t = choose|t: Seq<u8>|
                            #[trigger] oldc.contains(t) && t.subrange(0, 32) == k && t.subrange(
                                32,
                                64,
                            ) == x;
                        assert(newc.contains(t));
                    }
                }
                if exists|t: Seq<u8>|
                    #[trigger] newc.contains(t) && t.subrange(0, 32) == k && t.subrange(32, 64)
                        == x {
                    let t = choose|t: Seq<u8>|
                        #[trigger] newc.contains(t) && t.subrange(0, 32) == k && t.subrange(32, 64)
                            == x;
                    if t == t0 {
                        assert(k == t0.subrange(0, 32) && x == v0@);
                    } else {
                        assert(oldc.contains(t));
                    }
                }
            }
            assert forall|k: Seq<u8>, x: Seq<u8>|
                self.eva.has_pair(k, x) == (exists|t: Seq<u8>|
                    #[trigger] newc.contains(t) && t.subrange(0, 16) + t.subrange(32, 64) == k
                        && t.subrange(16, 32) == x) by {
                if self.eva.has_pair(k, x) {
                    if k == e0@ + v0@ && x == a0@ {
                        assert(newc.contains(t0) && t0.subrange(0, 16) + t0.subrange(32, 64) == k);
                    } else {
                        let t = choose|t: Seq<u8>|
                            #[trigger] oldc.contains(t) && t.subrange(0, 16) + t.subrange(32, 64)
                                == k && t.subrange(16, 32) == x;
                        assert(newc.contains(t));
                    }
                }
                if exists|t: Seq<u8>|
                    #[trigger] newc.contains(t) && t.subrange(0, 16) + t.subrange(32, 64) == k
                        && t.subrange(16, 32) == x {
                    let t = choose|t: Seq<u8>|
                        #[trigger] newc.contains(t) && t.subrange(0, 16) + t.subrange(32, 64) == k
                            && t.subrange(16, 32) == x;
                    if t == t0 {
                        assert(k == e0@ + v0@ && x == a0@);
                    } else {
                        assert(oldc.contains(t));
                    }
                }
            }
            assert forall|k: Seq<u8>, x: Seq<u8>|
                self.ave.has_pair(k, x) == (exists|t: Seq<u8>|
                    #[trigger] newc.contains(t) && t.subrange(16, 32) + t.subrange(32, 64) == k
                        && t.subrange(0, 16) == x) by {
                if self.ave.has_pair(k, x) {
                    if k == a0@ + v0@ && x == e0@ {
                        assert(newc.contains(t0) && t0.subrange(16, 32) + t0.subrange(32, 64)
                            == k);
                    } else {
                        let t = choose|t: Seq<u8>|
                            #[trigger] oldc.contains(t) && t.subrange(16, 32) + t.subrange(32, 64)
                                == k && t.subrange(0, 16) == x;
                        assert(newc.contains(t));
                    }
                }
                if exists|t: Seq<u8>|
                    #[trigger] newc.contains(t) && t.subrange(16, 32) + t.subrange(32, 64) == k
                        && t.subrange(0, 16) == x {
                    let t = choose|t: Seq<u8>|
                        #[trigger] newc.contains(t) && t.subrange(16, 32) + t.subrange(32, 64)
                            == k && t.subrange(0, 16) == x;
                    if t == t0 {
                        assert(k == a0@ + v0@ && x == e0@);
                    } else {
                        assert(oldc.contains(t));
                    }
                }
            }
        }
    }
}

} // verus!
