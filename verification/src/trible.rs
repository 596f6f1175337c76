//! Triples and the six-way indexed triple store.
//!
//! A triple is a 64-byte key: a 16-byte entity id, a 16-byte attribute id
//! and a 32-byte value.  A `TribleSet` holds the same set of triple keys in
//! six PATCH instances, one per ordering permutation of the three fields,
//! segmented at the field boundaries.

use vstd::prelude::*;

use crate::keys::KeyShape;
use crate::patch::{Entry, Patch};

verus! {

/// The field of key position `p`: entity, attribute or value.
pub open spec fn tri_block(p: int) -> int {
    if p < 16 {
        0
    } else if p < 32 {
        1
    } else {
        2
    }
}

pub open spec fn tri_start(b: int) -> int {
    if b == 0 {
        0
    } else if b == 1 {
        16
    } else {
        32
    }
}

pub open spec fn tri_len(b: int) -> int {
    if b == 2 {
        32
    } else {
        16
    }
}

/// Ordering rank of field `b` under the ordering `(o0, o1, o2)`.
pub open spec fn tri_rank(b: int, o0: int, o1: int, o2: int) -> int {
    if b == o0 {
        0
    } else if b == o1 {
        1
    } else {
        2
    }
}

/// Ordering depth at which the field of rank `t` begins.
pub open spec fn tri_off(t: int, o0: int, o1: int, o2: int) -> int {
    if t == 0 {
        0
    } else if t == 1 {
        tri_len(o0)
    } else {
        tri_len(o0) + tri_len(o1)
    }
}

/// The key position read at ordering depth `i` under `(o0, o1, o2)`.
pub open spec fn tri_perm_at(i: int, o0: int, o1: int, o2: int) -> int {
    if i < tri_len(o0) {
        tri_start(o0) + i
    } else if i < tri_len(o0) + tri_len(o1) {
        tri_start(o1) + (i - tri_len(o0))
    } else {
        tri_start(o2) + (i - tri_len(o0) - tri_len(o1))
    }
}

/// Whether `s` is the 64-byte triple shape that orders the fields as
/// `(o0, o1, o2)` and segments at the field boundaries.
pub open spec fn is_tri_shape(s: KeyShape, o0: int, o1: int, o2: int) -> bool {
    &&& s.perm@.len() == 64
    &&& forall|i: int| 0 <= i < 64 ==> (#[trigger] s.perm@[i]) == tri_perm_at(i, o0, o1, o2)
    &&& forall|p: int|
        0 <= p < 64 ==> (#[trigger] s.seg@[p]) == tri_rank(tri_block(p), o0, o1, o2)
}

/// Builds the triple shape for the field ordering `(o0, o1, o2)`, a
/// permutation of entity (0), attribute (1) and value (2).
pub fn triple_shape(o0: usize, o1: usize, o2: usize) -> (s: KeyShape)
    requires
        o0 < 3,
        o1 < 3,
        o2 < 3,
        o0 != o1,
        o0 != o2,
        o1 != o2,
    ensures
        s.wf(),
        s.key_len() == 64,
        is_tri_shape(s, o0 as int, o1 as int, o2 as int),
{
    let ghost g0 = o0 as int;
    let ghost g1 = o1 as int;
    let ghost g2 = o2 as int;
    let mut perm: Vec<usize> = Vec::new();
    let mut i: usize = 0;
    while i < 64
        invariant
            0 <= i <= 64,
            perm@.len() == i,
            o0 < 3 && o1 < 3 && o2 < 3 && o0 != o1 && o0 != o2 && o1 != o2,
            g0 == o0 as int && g1 == o1 as int && g2 == o2 as int,
            forall|j: int| 0 <= j < i ==> (#[trigger] perm@[j]) == tri_perm_at(j, g0, g1, g2),
        decreases 64 - i,
    {
        let l0 = if o0 == 2 {
            32
        } else {
            16
        };
        let l1 = if o1 == 2 {
            32
        } else {
            16
        };
        let p: usize = if i < l0 {
            (if o0 == 0 {
                0
            } else if o0 == 1 {
                16
            } else {
                32
            }) + i
        } else if i < l0 + l1 {
            (if o1 == 0 {
                0
            } else if o1 == 1 {
                16
            } else {
                32
            }) + (i - l0)
        } else {
            (if o2 == 0 {
                0
            } else if o2 == 1 {
                16
            } else {
                32
            }) + (i - l0 - l1)
        };
        proof {
            assert(p as int == tri_perm_at(i as int, g0, g1, g2));
        }
        perm.push(p);
        i += 1;
    }
    let mut seg: Vec<usize> = Vec::new();
    let mut inv: Vec<usize> = Vec::new();
    let mut p: usize = 0;
    while p < 64
        invariant
            0 <= p <= 64,
            seg@.len() == p,
            inv@.len() == p,
            o0 < 3 && o1 < 3 && o2 < 3 && o0 != o1 && o0 != o2 && o1 != o2,
            g0 == o0 as int && g1 == o1 as int && g2 == o2 as int,
            forall|q: int|
                0 <= q < p ==> (#[trigger] seg@[q]) == tri_rank(tri_block(q), g0, g1, g2),
            forall|q: int|
                0 <= q < p ==> (#[trigger] inv@[q]) == tri_off(
                    tri_rank(tri_block(q), g0, g1, g2),
                    g0,
                    g1,
                    g2,
                ) + (q - tri_start(tri_block(q))),
        decreases 64 - p,
    {
        let b: usize = if p < 16 {
            0
        } else if p < 32 {
            1
        } else {
            2
        };
        let t: usize = if b == o0 {
            0
        } else if b == o1 {
            1
        } else {
            2
        };
        let l0 = if o0 == 2 {
            32
        } else {
            16
        };
        let l1 = if o1 == 2 {
            32
        } else {
            16
        };
        let off: usize = if t == 0 {
            0
        } else if t == 1 {
            l0
        } else {
            l0 + l1
        };
        let start: usize = if b == 0 {
            0
        } else if b == 1 {
            16
        } else {
            32
        };
        proof {
            assert(t as int == tri_rank(tri_block(p as int), g0, g1, g2));
            assert((off + (p - start)) as int == tri_off(
                tri_rank(tri_block(p as int), g0, g1, g2),
                g0,
                g1,
                g2,
            ) + (p - tri_start(tri_block(p as int))));
        }
        seg.push(t);
        inv.push(off + (p - start));
        p += 1;
    }
    let s = KeyShape { perm, perm_inv: inv, seg };
    proof {
        assert forall|i: int| 0 <= i < 64 implies (#[trigger] s.perm@[i]) < 64 by {
            assert(s.perm@[i] == tri_perm_at(i, g0, g1, g2));
        }
        assert forall|i: int|
            0 <= i < 64 implies s.perm_inv@[#[trigger] s.perm@[i] as int] == i by {
            let q = tri_perm_at(i, g0, g1, g2);
            assert(s.perm@[i] == q);
            assert(tri_block(q) == if i < tri_len(g0) {
                g0
            } else if i < tri_len(g0) + tri_len(g1) {
                g1
            } else {
                g2
            });
        }
        assert forall|q: int|
            0 <= q < 64 implies (#[trigger] s.perm_inv@[q]) < 64 && s.perm@[s.perm_inv@[q] as int]
            == q by {
            let b = tri_block(q);
            let t = tri_rank(b, g0, g1, g2);
            assert(s.perm_inv@[q] == tri_off(t, g0, g1, g2) + (q - tri_start(b)));
            assert(s.perm@[s.perm_inv@[q] as int] == tri_perm_at(
                tri_off(t, g0, g1, g2) + (q - tri_start(b)),
                g0,
                g1,
                g2,
            ));
        }
        assert forall|i: int, j: int|
            0 <= i <= j < 64 implies (#[trigger] s.seg@[s.perm@[i] as int]) <= (#[trigger] s.seg@[
            s.perm@[j] as int]) by {
            assert(s.perm@[i] == tri_perm_at(i, g0, g1, g2));
            assert(s.perm@[j] == tri_perm_at(j, g0, g1, g2));
        }
        assert(s.wf());
    }
    s
}

/// A 64-byte triple: entity id, attribute id, value.
pub struct Trible {
    pub data: Vec<u8>,
}

impl Trible {
    pub open spec fn wf(self) -> bool {
        self.data@.len() == 64
    }

    pub open spec fn e_spec(self) -> Seq<u8> {
        self.data@.subrange(0, 16)
    }

    pub open spec fn a_spec(self) -> Seq<u8> {
        self.data@.subrange(16, 32)
    }

    pub open spec fn v_spec(self) -> Seq<u8> {
        self.data@.subrange(32, 64)
    }

    pub fn new(e: &Vec<u8>, a: &Vec<u8>, v: &Vec<u8>) -> (t: Trible)
        requires
            e@.len() == 16,
            a@.len() == 16,
            v@.len() == 32,
        ensures
            t.wf(),
            t.data@ == e@ + a@ + v@,
            t.e_spec() == e@,
            t.a_spec() == a@,
            t.v_spec() == v@,
    {
        let mut data: Vec<u8> = Vec::new();
        let mut e2 = e.clone();
        let mut a2 = a.clone();
        let mut v2 = v.clone();
        data.append(&mut e2);
        data.append(&mut a2);
        data.append(&mut v2);
        proof {
            assert(data@ == e@ + a@ + v@);
            assert(data@.subrange(0, 16) =~= e@);
            assert(data@.subrange(16, 32) =~= a@);
            assert(data@.subrange(32, 64) =~= v@);
        }
        Trible { data }
    }

    /// The entity id.
    pub fn e(&self) -> (r: Vec<u8>)
        requires
            self.wf(),
        ensures
            r@ == self.e_spec(),
    {
        let mut r: Vec<u8> = Vec::new();
        let mut i: usize = 0;
        while i < 16
            invariant
                self.wf(),
                0 <= i <= 16,
                r@.len() == i,
                forall|j: int| 0 <= j < i ==> r@[j] == self.data@[j],
            decreases 16 - i,
        {
            r.push(self.data[i]);
            i += 1;
        }
        proof {
            assert(r@ =~= self.e_spec());
        }
        r
    }

    /// The attribute id.
    pub fn a(&self) -> (r: Vec<u8>)
        requires
            self.wf(),
        ensures
            r@ == self.a_spec(),
    {
        let mut r: Vec<u8> = Vec::new();
        let mut i: usize = 16;
        while i < 32
            invariant
                self.wf(),
                16 <= i <= 32,
                r@.len() == i - 16,
                forall|j: int| 0 <= j < i - 16 ==> r@[j] == self.data@[16 + j],
            decreases 32 - i,
        {
            r.push(self.data[i]);
            i += 1;
        }
        proof {
            assert(r@ =~= self.a_spec());
        }
        r
    }

    /// The value.
    pub fn v(&self) -> (r: Vec<u8>)
        requires
            self.wf(),
        ensures
            r@ == self.v_spec(),
    {
        let mut r: Vec<u8> = Vec::new();
        let mut i: usize = 32;
        while i < 64
            invariant
                self.wf(),
                32 <= i <= 64,
                r@.len() == i - 32,
                forall|j: int| 0 <= j < i - 32 ==> r@[j] == self.data@[32 + j],
            decreases 64 - i,
        {
            r.push(self.data[i]);
            i += 1;
        }
        proof {
            assert(r@ =~= self.v_spec());
        }
        r
    }
}

/// The same set of triple keys held under all six orderings of the fields.
pub struct TribleSet {
    pub eav: Patch,
    pub eva: Patch,
    pub aev: Patch,
    pub ave: Patch,
    pub vea: Patch,
    pub vae: Patch,
}

impl TribleSet {
    pub open spec fn wf(self) -> bool {
        &&& self.eav.wf() && is_tri_shape(self.eav.shape, 0, 1, 2)
        &&& self.eva.wf() && is_tri_shape(self.eva.shape, 0, 2, 1)
        &&& self.aev.wf() && is_tri_shape(self.aev.shape, 1, 0, 2)
        &&& self.ave.wf() && is_tri_shape(self.ave.shape, 1, 2, 0)
        &&& self.vea.wf() && is_tri_shape(self.vea.shape, 2, 0, 1)
        &&& self.vae.wf() && is_tri_shape(self.vae.shape, 2, 1, 0)
        &&& self.eva.key_set() == self.eav.key_set()
        &&& self.aev.key_set() == self.eav.key_set()
        &&& self.ave.key_set() == self.eav.key_set()
        &&& self.vea.key_set() == self.eav.key_set()
        &&& self.vae.key_set() == self.eav.key_set()
    }

    /// The abstract contents: the set of 64-byte triple keys.
    pub open spec fn contents(self) -> Set<Seq<u8>> {
        self.eav.key_set()
    }

    pub fn new() -> (t: TribleSet)
        ensures
            t.wf(),
            t.contents() =~= Set::<Seq<u8>>::empty(),
    {
        let t = TribleSet {
            eav: Patch::new(triple_shape(0, 1, 2)),
            eva: Patch::new(triple_shape(0, 2, 1)),
            aev: Patch::new(triple_shape(1, 0, 2)),
            ave: Patch::new(triple_shape(1, 2, 0)),
            vea: Patch::new(triple_shape(2, 0, 1)),
            vae: Patch::new(triple_shape(2, 1, 0)),
        };
        proof {
            assert(t.eva.key_set() =~= t.eav.key_set());
            assert(t.aev.key_set() =~= t.eav.key_set());
            assert(t.ave.key_set() =~= t.eav.key_set());
            assert(t.vea.key_set() =~= t.eav.key_set());
            assert(t.vae.key_set() =~= t.eav.key_set());
        }
        t
    }

    /// Adds one triple; insertion fans out to all six indices.
    pub fn add(&mut self, t: &Trible)
        requires
            old(self).wf(),
            t.wf(),
        ensures
            final(self).wf(),
            final(self).contents() =~= old(self).contents().insert(t.data@),
    {
        let entry = Entry::new(t.data.clone(), Vec::new());
        self.eav.insert(&entry);
        self.eva.insert(&entry);
        self.aev.insert(&entry);
        self.ave.insert(&entry);
        self.vea.insert(&entry);
        self.vae.insert(&entry);
    }

    /// Folds every triple of `other` into `self`.
    pub fn union(&mut self, other: &TribleSet)
        requires
            old(self).wf(),
            other.wf(),
        ensures
            final(self).wf(),
            final(self).contents() =~= old(self).contents().union(other.contents()),
    {
        proof {
            assert(self.eav.shape.perm@ =~= other.eav.shape.perm@);
            assert(self.eva.shape.perm@ =~= other.eva.shape.perm@);
            assert(self.aev.shape.perm@ =~= other.aev.shape.perm@);
            assert(self.ave.shape.perm@ =~= other.ave.shape.perm@);
            assert(self.vea.shape.perm@ =~= other.vea.shape.perm@);
            assert(self.vae.shape.perm@ =~= other.vae.shape.perm@);
        }
        self.eav.union(&other.eav);
        self.eva.union(&other.eva);
        self.aev.union(&other.aev);
        self.ave.union(&other.ave);
        self.vea.union(&other.vea);
        self.vae.union(&other.vae);
    }

    /// Whether the triple is a member (its payload is bare membership).
    pub fn get(&self, t: &Trible) -> (r: bool)
        requires
            self.wf(),
            t.wf(),
        ensures
            r == self.contents().contains(t.data@),
    {
        match self.eav.get(&t.data) {
            Some(_) => true,
            None => false,
        }
    }

    /// The number of distinct triples.
    pub fn len(&self) -> (r: u64)
        requires
            self.wf(),
        ensures
            r == self.contents().len(),
    {
        self.eav.len()
    }
}

/// All six indices of a well-formed `TribleSet` agree: same contents, same
/// number of triples, same commutative fingerprint.
pub proof fn lemma_indices_agree(t: TribleSet)
    requires
        t.wf(),
    ensures
        t.eva.key_set() == t.eav.key_set(),
        t.aev.key_set() == t.eav.key_set(),
        t.ave.key_set() == t.eav.key_set(),
        t.vea.key_set() == t.eav.key_set(),
        t.vae.key_set() == t.eav.key_set(),
        t.eva.hash == t.eav.hash && t.aev.hash == t.eav.hash && t.ave.hash == t.eav.hash
            && t.vea.hash == t.eav.hash && t.vae.hash == t.eav.hash,
        t.eva.keys@.len() == t.eav.keys@.len() && t.aev.keys@.len() == t.eav.keys@.len()
            && t.ave.keys@.len() == t.eav.keys@.len() && t.vea.keys@.len() == t.eav.keys@.len()
            && t.vae.keys@.len() == t.eav.keys@.len(),
{
    crate::patch::lemma_contents_determine(t.eva, t.eav);
    crate::patch::lemma_contents_determine(t.aev, t.eav);
    crate::patch::lemma_contents_determine(t.ave, t.eav);
    crate::patch::lemma_contents_determine(t.vea, t.eav);
    crate::patch::lemma_contents_determine(t.vae, t.eav);
}

/// Under a triple shape, the first ordering positions read exactly the
/// leading field.
pub proof fn lemma_is_tri_perm(s: KeyShape, o0: int, o1: int, o2: int, t: Seq<u8>)
    requires
        is_tri_shape(s, o0, o1, o2),
        0 <= o0 < 3,
        0 <= o1 < 3,
        0 <= o2 < 3,
        o0 != o1,
        o0 != o2,
        o1 != o2,
        t.len() == 64,
    ensures
        s.ord(t).subrange(0, tri_len(o0)) == t.subrange(
            tri_start(o0),
            tri_start(o0) + tri_len(o0),
        ),
{
    assert forall|i: int| 0 <= i < tri_len(o0) implies s.ord(t)[i] == t.subrange(
        tri_start(o0),
        tri_start(o0) + tri_len(o0),
    )[i] by {
        assert(s.perm@[i] == tri_perm_at(i, o0, o1, o2));
    }
    assert(s.ord(t).subrange(0, tri_len(o0)) =~= t.subrange(
        tri_start(o0),
        tri_start(o0) + tri_len(o0),
    ));
}

} // verus!
