//! The PATCH: a persistent set of fixed-length keys indexed under a key
//! ordering and segmentation, with a commutative XOR-of-SipHash fingerprint.
//!
//! The structure holds its keys sorted by their ordering-space bytes, each
//! with its payload and its cached fingerprint, and maintains the XOR of all
//! member fingerprints.  All set-level behaviour — membership, prefix search,
//! segment counting, union — is specified against the abstract set of keys.

use vstd::prelude::*;

use crate::fingerprint::{lemma_set_hash_insert, set_hash, sip_hash, sip_hash_of};
use crate::keys::{
    key_cmp, key_matches, lemma_lex_lt_ne, lemma_lex_lt_skip, lemma_lex_lt_subrange,
    lemma_lex_lt_trans, lemma_seg_end_char, lex_lt, ord_range_eq, seg_end, KeyShape,
};

verus! {

/// One insertion: a key with its payload and its precomputed fingerprint,
/// reusable across many inserts.
pub struct Entry {
    pub key: Vec<u8>,
    pub val: Vec<u8>,
    pub hash: u128,
}

impl Entry {
    pub open spec fn wf(self) -> bool {
        self.hash == sip_hash_of(self.key@)
    }

    pub fn new(key: Vec<u8>, val: Vec<u8>) -> (e: Entry)
        ensures
            e.wf(),
            e.key@ == key@,
            e.val@ == val@,
    {
        let h = sip_hash(&key);
        Entry { key, val, hash: h }
    }
}

/// A persistent adaptive trie over fixed-length keys, abstractly a finite set
/// of keys (each with one payload) plus its XOR fingerprint.
pub struct Patch {
    pub shape: KeyShape,
    pub keys: Vec<Vec<u8>>,
    pub vals: Vec<Vec<u8>>,
    pub hashes: Vec<u128>,
    pub hash: u128,
}

impl Patch {
    /// The member keys, in ascending ordering-space order.
    pub open spec fn keys_seq(self) -> Seq<Seq<u8>> {
        self.keys@.map_values(|k: Vec<u8>| k@)
    }

    /// The abstract contents: the set of member keys.
    pub open spec fn key_set(self) -> Set<Seq<u8>> {
        self.keys_seq().to_set()
    }

    pub open spec fn sorted(self) -> bool {
        forall|i: int, j: int|
            0 <= i < j < self.keys_seq().len() ==> lex_lt(
                self.shape.ord(#[trigger] self.keys_seq()[i]),
                self.shape.ord(#[trigger] self.keys_seq()[j]),
            )
    }

    pub open spec fn wf(self) -> bool {
        &&& self.shape.wf()
        &&& self.vals@.len() == self.keys@.len()
        &&& self.hashes@.len() == self.keys@.len()
        &&& forall|i: int|
            0 <= i < self.keys@.len() ==> self.shape.key_ok(#[trigger] self.keys_seq()[i])
        &&& self.sorted()
        &&& forall|i: int|
            0 <= i < self.keys@.len() ==> self.hashes@[i] == sip_hash_of(
                #[trigger] self.keys_seq()[i],
            )
        &&& self.hash == set_hash(self.key_set())
    }

    /// Index of `k` among the member keys.
    pub open spec fn idx_of(self, k: Seq<u8>) -> int {
        choose|i: int| 0 <= i < self.keys@.len() && self.keys_seq()[i] == k
    }

    /// The payloads: a map from each member key to the bytes stored with it.
    pub open spec fn pay(self) -> Map<Seq<u8>, Seq<u8>> {
        Map::new(|k: Seq<u8>| self.key_set().contains(k), |k: Seq<u8>| self.vals@[self.idx_of(k)]@)
    }

    /// Two distinct member positions hold distinct keys.
    pub proof fn lemma_distinct(self)
        requires
            self.wf(),
        ensures
            self.keys_seq().no_duplicates(),
            self.key_set().finite(),
            self.key_set().len() == self.keys@.len(),
    {
        assert forall|i: int, j: int|
            0 <= i < self.keys_seq().len() && 0 <= j < self.keys_seq().len() && i != j implies self
            .keys_seq()[i] != self.keys_seq()[j] by {
            if i < j {
                lemma_lex_lt_ne(self.shape.ord(self.keys_seq()[i]), self.shape.ord(self.keys_seq()[j]));
            } else {
                lemma_lex_lt_ne(self.shape.ord(self.keys_seq()[j]), self.shape.ord(self.keys_seq()[i]));
            }
        }
        broadcast use vstd::seq_lib::seq_to_set_is_finite;

        self.keys_seq().unique_seq_to_set();
    }

    /// Each member key sits at exactly one position, and `idx_of` finds it.
    pub proof fn lemma_idx_of(self, k: Seq<u8>)
        requires
            self.wf(),
            self.key_set().contains(k),
        ensures
            0 <= self.idx_of(k) < self.keys@.len(),
            self.keys_seq()[self.idx_of(k)] == k,
            forall|i: int|
                0 <= i < self.keys@.len() && self.keys_seq()[i] == k ==> i == self.idx_of(k),
    {
        self.lemma_distinct();
        assert(exists|i: int| 0 <= i < self.keys@.len() && self.keys_seq()[i] == k);
        let w = self.idx_of(k);
        assert forall|i: int|
            0 <= i < self.keys@.len() && self.keys_seq()[i] == k implies i == w by {
            if i != w {
                assert(self.keys_seq()[i] == self.keys_seq()[w]);
            }
        }
    }

    /// An empty PATCH under the given ordering and segmentation.
    pub fn new(shape: KeyShape) -> (p: Patch)
        requires
            shape.wf(),
        ensures
            p.wf(),
            p.shape == shape,
            p.key_set() =~= Set::<Seq<u8>>::empty(),
            p.hash == 0,
    {
        let p = Patch { shape, keys: Vec::new(), vals: Vec::new(), hashes: Vec::new(), hash: 0 };
        proof {
            assert(p.keys_seq() =~= Seq::<Seq<u8>>::empty());
            assert(p.key_set() =~= Set::<Seq<u8>>::empty());
        }
        p
    }

    /// The number of distinct keys inserted.
    pub fn len(&self) -> (r: u64)
        requires
            self.wf(),
        ensures
            r == self.key_set().len(),
    {
        proof {
            self.lemma_distinct();
        }
        self.keys.len() as u64
    }

    /// The commutative fingerprint: the XOR over the distinct member keys of
    /// their SipHash-2-4 fingerprints.
    pub fn fingerprint(&self) -> (r: u128)
        requires
            self.wf(),
        ensures
            r == set_hash(self.key_set()),
    {
        self.hash
    }

    /// Inserts `entry`'s key and payload; a key already present is left as it
    /// is (set semantics: the key's payload and the fingerprint are unchanged).
    pub fn insert(&mut self, entry: &Entry)
        requires
            old(self).wf(),
            entry.wf(),
            old(self).shape.key_ok(entry.key@),
        ensures
            final(self).wf(),
            final(self).shape == old(self).shape,
            final(self).key_set() =~= old(self).key_set().insert(entry.key@),
            old(self).key_set().contains(entry.key@) ==> final(self).pay() == old(self).pay(),
            !old(self).key_set().contains(entry.key@) ==> final(self).pay() == old(self).pay()
                .insert(entry.key@, entry.val@),
    {
        proof {
            self.lemma_distinct();
        }
        let n = self.keys.len();
        let mut i: usize = 0;
        let mut found = false;
        let mut past = false;
        while i < n
            invariant_except_break
                !found && !past,
            invariant
                self.wf(),
                entry.wf(),
                self.shape.key_ok(entry.key@),
                n == self.keys@.len(),
                0 <= i <= n,
                forall|j: int|
                    0 <= j < i ==> lex_lt(
                        self.shape.ord(#[trigger] self.keys_seq()[j]),
                        self.shape.ord(entry.key@),
                    ),
            ensures
                0 <= i <= n,
                forall|j: int|
                    0 <= j < i ==> lex_lt(
                        self.shape.ord(#[trigger] self.keys_seq()[j]),
                        self.shape.ord(entry.key@),
                    ),
                found ==> i < n && self.keys_seq()[i as int] == entry.key@,
                past ==> i < n && lex_lt(
                    self.shape.ord(entry.key@),
                    self.shape.ord(self.keys_seq()[i as int]),
                ),
                !found && !past ==> i == n,
            decreases n - i,
        {
            proof {
                assert(self.keys_seq()[i as int] == self.keys@[i as int]@);
            }
            let r = key_cmp(&self.shape, &self.keys[i], &entry.key);
            if r == 1 {
                found = true;
                break;
            }
            if r == 2 {
                past = true;
                break;
            }
            i += 1;
        }
        if found {
            proof {
                assert(self.key_set().contains(self.keys_seq()[i as int]));
                assert(self.key_set().insert(entry.key@) =~= self.key_set());
            }
            return;
        }
        proof {
            // The new key is absent: at every position the stored key is
            // strictly smaller or strictly larger in ordering space.
            assert forall|j: int| 0 <= j < n implies self.keys_seq()[j] != entry.key@ by {
                if j < i {
                    lemma_lex_lt_ne(self.shape.ord(self.keys_seq()[j]), self.shape.ord(entry.key@));
                } else if i < n {
                    if j > i {
                        lemma_lex_lt_trans(
                            self.shape.ord(entry.key@),
                            self.shape.ord(self.keys_seq()[i as int]),
                            self.shape.ord(self.keys_seq()[j]),
                        );
                    }
                    lemma_lex_lt_ne(self.shape.ord(entry.key@), self.shape.ord(self.keys_seq()[j]));
                }
            }
            if self.key_set().contains(entry.key@) {
                self.lemma_idx_of(entry.key@);
            }
        }
        let ghost oldp = *self;
        self.keys.insert(i, entry.key.clone());
        self.vals.insert(i, entry.val.clone());
        self.hashes.insert(i, entry.hash);
        self.hash = self.hash ^ entry.hash;
        proof {
            assert(self.keys_seq() =~= oldp.keys_seq().insert(i as int, entry.key@));
            let ks = self.keys_seq();
            let old_ks = oldp.keys_seq();
            // Sortedness of the widened sequence.
            assert forall|x: int, y: int|
                0 <= x < y < ks.len() implies lex_lt(
                self.shape.ord(ks[x]),
                self.shape.ord(ks[y]),
            ) by {
                if x < i && y == i {
                } else if x == i && y > i {
                    if i < n {
                        if y > i + 1 {
                            lemma_lex_lt_trans(
                                self.shape.ord(entry.key@),
                                self.shape.ord(old_ks[i as int]),
                                self.shape.ord(old_ks[y - 1]),
                            );
                        }
                    }
                } else if x < i && y > i {
                    if i < n {
                        if y > i + 1 {
                            lemma_lex_lt_trans(
                                self.shape.ord(old_ks[x]),
                                self.shape.ord(old_ks[i as int]),
                                self.shape.ord(old_ks[y - 1]),
                            );
                        }
                    } else {
                        assert(false);
                    }
                }
            }
            // The key set grew by exactly the new key.
            assert(self.key_set() =~= oldp.key_set().insert(entry.key@)) by {
                assert forall|k: Seq<u8>| self.key_set().contains(k) implies oldp.key_set().insert(
                    entry.key@,
                ).contains(k) by {
                    let j = choose|j: int| 0 <= j < ks.len() && ks[j] == k;
                    if j < i {
                        assert(old_ks[j] == k);
                    } else if j > i {
                        assert(old_ks[j - 1] == k);
                    }
                }
                assert forall|k: Seq<u8>|
                    oldp.key_set().insert(entry.key@).contains(k) implies self.key_set().contains(
                    k,
                ) by {
                    if k == entry.key@ {
                        assert(ks[i as int] == k);
                    } else {
                        let j = choose|j: int| 0 <= j < old_ks.len() && old_ks[j] == k;
                        if j < i {
                            assert(ks[j] == k);
                        } else {
                            assert(ks[j + 1] == k);
                        }
                    }
                }
            }
            oldp.lemma_distinct();
            lemma_set_hash_insert(oldp.key_set(), entry.key@);
            // The payload map grew by exactly the new binding.
            self.lemma_distinct();
            assert(self.pay() =~= oldp.pay().insert(entry.key@, entry.val@)) by {
                assert forall|k: Seq<u8>| self.key_set().contains(k) implies self.pay()[k]
                    == oldp.pay().insert(entry.key@, entry.val@)[k] by {
                    self.lemma_idx_of(k);
                    let j = self.idx_of(k);
                    if j == i {
                        assert(k == entry.key@);
                        assert(self.vals@[j]@ == entry.val@);
                    } else if j < i {
                        assert(oldp.keys_seq()[j] == k);
                        assert(oldp.key_set().contains(k));
                        oldp.lemma_idx_of(k);
                        assert(oldp.idx_of(k) == j);
                        assert(self.vals@[j]@ == oldp.vals@[j]@);
                    } else {
                        assert(oldp.keys_seq()[j - 1] == k);
                        assert(oldp.key_set().contains(k));
                        oldp.lemma_idx_of(k);
                        assert(oldp.idx_of(k) == j - 1);
                        assert(self.vals@[j]@ == oldp.vals@[j - 1]@);
                    }
                }
            }
        }
    }

    /// Looks a key up and returns the payload stored with it.
    pub fn get(&self, key: &Vec<u8>) -> (r: Option<&Vec<u8>>)
        requires
            self.wf(),
            self.shape.key_ok(key@),
        ensures
            match r {
                Some(v) => self.key_set().contains(key@) && v@ == self.pay()[key@],
                None => !self.key_set().contains(key@),
            },
    {
        let n = self.keys.len();
        let mut i: usize = 0;
        while i < n
            invariant
                self.wf(),
                self.shape.key_ok(key@),
                n == self.keys@.len(),
                0 <= i <= n,
                forall|j: int| 0 <= j < i ==> (#[trigger] self.keys_seq()[j]) != key@,
            decreases n - i,
        {
            proof {
                assert(self.keys_seq()[i as int] == self.keys@[i as int]@);
            }
            let r = key_cmp(&self.shape, &self.keys[i], key);
            if r == 1 {
                proof {
                    assert(self.keys_seq().contains(self.keys_seq()[i as int]));
                    assert(self.key_set().contains(key@));
                    self.lemma_idx_of(key@);
                }
                return Some(&self.vals[i]);
            }
            proof {
                if self.keys_seq()[i as int] == key@ {
                    if r == 0 {
                        lemma_lex_lt_ne(
                            self.shape.ord(self.keys_seq()[i as int]),
                            self.shape.ord(key@),
                        );
                    } else {
                        lemma_lex_lt_ne(
                            self.shape.ord(key@),
                            self.shape.ord(self.keys_seq()[i as int]),
                        );
                    }
                }
            }
            i += 1;
        }
        proof {
            if self.key_set().contains(key@) {
                self.lemma_idx_of(key@);
            }
        }
        None
    }

    /// Whether any member key begins with `prefix` (in ordering space).
    pub fn has_prefix(&self, prefix: &Vec<u8>) -> (r: bool)
        requires
            self.wf(),
            prefix@.len() <= self.shape.key_len(),
        ensures
            r == exists|k: Seq<u8>|
                #[trigger] self.key_set().contains(k) && self.shape.matches(k, prefix@),
    {
        let n = self.keys.len();
        let mut i: usize = 0;
        while i < n
            invariant
                self.wf(),
                prefix@.len() <= self.shape.key_len(),
                n == self.keys@.len(),
                0 <= i <= n,
                forall|j: int| 0 <= j < i ==> !self.shape.matches(#[trigger] self.keys_seq()[j], prefix@),
            decreases n - i,
        {
            proof {
                assert(self.keys_seq()[i as int] == self.keys@[i as int]@);
            }
            if key_matches(&self.shape, &self.keys[i], prefix) {
                proof {
                    assert(self.keys_seq().contains(self.keys_seq()[i as int]));
                    assert(self.key_set().contains(self.keys_seq()[i as int]));
                }
                return true;
            }
            i += 1;
        }
        proof {
            assert forall|k: Seq<u8>|
                #[trigger] self.key_set().contains(k) implies !self.shape.matches(k, prefix@) by {
                self.lemma_idx_of(k);
            }
        }
        false
    }
}

/// Pushing onto a sequence inserts into its set of elements.
proof fn lemma_to_set_push(s: Seq<Seq<u8>>, x: Seq<u8>)
    ensures
        s.push(x).to_set() =~= s.to_set().insert(x),
{
    assert forall|k: Seq<u8>| s.push(x).to_set().contains(k) implies s.to_set().insert(x).contains(
        k,
    ) by {
        let idx = choose|idx: int| 0 <= idx < s.push(x).len() && s.push(x)[idx] == k;
        if idx < s.len() {
            assert(s[idx] == k);
        }
    }
    assert forall|k: Seq<u8>| s.to_set().insert(x).contains(k) implies s.push(x).to_set().contains(
        k,
    ) by {
        if k == x {
            assert(s.push(x)[s.len() as int] == k);
        } else {
            let idx = choose|idx: int| 0 <= idx < s.len() && s[idx] == k;
            assert(s.push(x)[idx] == k);
        }
    }
}

impl Patch {
    /// Folds every key of `other` into `self`: afterwards the contents are
    /// the set union, with `self`'s payload kept for keys present on both
    /// sides.
    pub fn union(&mut self, other: &Patch)
        requires
            old(self).wf(),
            other.wf(),
            old(self).shape.perm@ == other.shape.perm@,
        ensures
            final(self).wf(),
            final(self).shape == old(self).shape,
            final(self).key_set() =~= old(self).key_set().union(other.key_set()),
            forall|k: Seq<u8>|
                old(self).key_set().contains(k) ==> final(self).pay()[k] == old(self).pay()[k],
            forall|k: Seq<u8>|
                !old(self).key_set().contains(k) && other.key_set().contains(k)
                    ==> final(self).pay()[k] == other.pay()[k],
    {
        proof {
            self.lemma_distinct();
            other.lemma_distinct();
            broadcast use vstd::seq_lib::seq_to_set_is_finite;

            // the two instances order keys identically
            assert forall|k: Seq<u8>| #[trigger] other.shape.ord(k) == self.shape.ord(k) by {
                assert(other.shape.ord(k) =~= self.shape.ord(k));
            }
        }
        let sl = self.keys.len();
        let ol = other.keys.len();
        let mut keys: Vec<Vec<u8>> = Vec::new();
        let mut vals: Vec<Vec<u8>> = Vec::new();
        let mut hashes: Vec<u128> = Vec::new();
        let mut h: u128 = 0;
        let mut i: usize = 0;
        let mut j: usize = 0;
        proof {
            assert(keys@.map_values(|k: Vec<u8>| k@) =~= Seq::<Seq<u8>>::empty());
            assert(keys@.map_values(|k: Vec<u8>| k@).to_set() =~= Set::<Seq<u8>>::empty());
            assert(self.keys_seq().subrange(0, 0).to_set() =~= Set::<Seq<u8>>::empty());
            assert(other.keys_seq().subrange(0, 0).to_set() =~= Set::<Seq<u8>>::empty());
        }
        while i < sl || j < ol
            invariant
                self.wf(),
                other.wf(),
                self.shape.perm@ == other.shape.perm@,
                forall|k: Seq<u8>| #[trigger] other.shape.ord(k) == self.shape.ord(k),
                sl == self.keys@.len(),
                ol == other.keys@.len(),
                0 <= i <= sl,
                0 <= j <= ol,
                vals@.len() == keys@.len(),
                hashes@.len() == keys@.len(),
                forall|x: int| 0 <= x < keys@.len() ==> self.shape.key_ok((#[trigger] keys@[x])@),
                forall|x: int, y: int|
                    0 <= x < y < keys@.len() ==> lex_lt(
                        self.shape.ord((#[trigger] keys@[x])@),
                        self.shape.ord((#[trigger] keys@[y])@),
                    ),
                forall|x: int|
                    0 <= x < keys@.len() ==> hashes@[x] == sip_hash_of((#[trigger] keys@[x])@),
                keys@.map_values(|k: Vec<u8>| k@).to_set() =~= self.keys_seq().subrange(
                    0,
                    i as int,
                ).to_set().union(other.keys_seq().subrange(0, j as int).to_set()),
                h == set_hash(keys@.map_values(|k: Vec<u8>| k@).to_set()),
                forall|x: int, a: int|
                    0 <= x < keys@.len() && i <= a < sl ==> lex_lt(
                        self.shape.ord((#[trigger] keys@[x])@),
                        self.shape.ord(#[trigger] self.keys_seq()[a]),
                    ),
                forall|x: int, b: int|
                    0 <= x < keys@.len() && j <= b < ol ==> lex_lt(
                        self.shape.ord((#[trigger] keys@[x])@),
                        self.shape.ord(#[trigger] other.keys_seq()[b]),
                    ),
                forall|x: int|
                    0 <= x < keys@.len() && self.key_set().contains((#[trigger] keys@[x])@)
                        ==> vals@[x]@ == self.vals@[self.idx_of(keys@[x]@)]@,
                forall|x: int|
                    0 <= x < keys@.len() && !self.key_set().contains((#[trigger] keys@[x])@)
                        ==> other.key_set().contains(keys@[x]@) && vals@[x]@ == other.vals@[
                        other.idx_of(keys@[x]@)]@,
            decreases sl - i + ol - j,
        {
            let mut from_self = false;
            let mut advance_other = false;
            let mut r: u8 = 3;
            if i < sl && j < ol {
                proof {
                    assert(self.keys_seq()[i as int] == self.keys@[i as int]@);
                    assert(other.keys_seq()[j as int] == other.keys@[j as int]@);
                }
                r = key_cmp(&self.shape, &self.keys[i], &other.keys[j]);
                if r == 0 {
                    from_self = true;
                } else if r == 1 {
                    from_self = true;
                    advance_other = true;
                }
            } else if i < sl {
                from_self = true;
            }
            let ghost gkeys = keys@;
            let ghost gset = keys@.map_values(|k: Vec<u8>| k@).to_set();
            if from_self {
                proof {
                    assert(self.keys_seq()[i as int] == self.keys@[i as int]@);
                }
                let ghost k = self.keys_seq()[i as int];
                keys.push(self.keys[i].clone());
                vals.push(self.vals[i].clone());
                hashes.push(self.hashes[i]);
                proof {
                    assert(keys@.map_values(|q: Vec<u8>| q@) =~= gkeys.map_values(
                        |q: Vec<u8>| q@,
                    ).push(k));
                    lemma_to_set_push(gkeys.map_values(|q: Vec<u8>| q@), k);
                    assert forall|x: int| 0 <= x < gkeys.len() implies (#[trigger] gkeys[x])@
                        != k by {
                        lemma_lex_lt_ne(self.shape.ord(gkeys[x]@), self.shape.ord(k));
                    }
                    if gset.contains(k) {
                        let ms = gkeys.map_values(|q: Vec<u8>| q@);
                        let x = choose|x: int| 0 <= x < ms.len() && ms[x] == k;
                        assert(gkeys[x]@ == k);
                    }
                    lemma_set_hash_insert(gset, k);
                    // the merged-prefix set absorbs the pushed key
                    assert(self.keys_seq().subrange(0, i + 1) =~= self.keys_seq().subrange(
                        0,
                        i as int,
                    ).push(k));
                    lemma_to_set_push(self.keys_seq().subrange(0, i as int), k);
                    if advance_other {
                        assert(other.keys_seq()[j as int] == k);
                        assert(other.keys_seq().subrange(0, j + 1) =~= other.keys_seq().subrange(
                            0,
                            j as int,
                        ).push(k));
                        lemma_to_set_push(other.keys_seq().subrange(0, j as int), k);
                    }
                    // payload provenance for the pushed key
                    assert(self.key_set().contains(k));
                    self.lemma_idx_of(k);
                    assert(self.idx_of(k) == i as int);
                }
                proof {
                    // the pushed key stays ahead of both frontiers
                    assert forall|b: int|
                        (if advance_other {
                            j + 1
                        } else {
                            j as int
                        }) <= b < ol implies lex_lt(
                        self.shape.ord(k),
                        self.shape.ord(#[trigger] other.keys_seq()[b]),
                    ) by {
                        if advance_other {
                            assert(k == other.keys_seq()[j as int]);
                        } else {
                            assert(j < ol && r == 0);
                            if b > j {
                                lemma_lex_lt_trans(
                                    self.shape.ord(k),
                                    self.shape.ord(other.keys_seq()[j as int]),
                                    self.shape.ord(other.keys_seq()[b]),
                                );
                            }
                        }
                    }
                }
                h = h ^ self.hashes[i];
                i += 1;
                if advance_other {
                    j += 1;
                }
            } else {
                proof {
                    assert(other.keys_seq()[j as int] == other.keys@[j as int]@);
                }
                let ghost k = other.keys_seq()[j as int];
                keys.push(other.keys[j].clone());
                vals.push(other.vals[j].clone());
                hashes.push(other.hashes[j]);
                proof {
                    assert(keys@.map_values(|q: Vec<u8>| q@) =~= gkeys.map_values(
                        |q: Vec<u8>| q@,
                    ).push(k));
                    lemma_to_set_push(gkeys.map_values(|q: Vec<u8>| q@), k);
                    assert forall|x: int| 0 <= x < gkeys.len() implies (#[trigger] gkeys[x])@
                        != k by {
                        lemma_lex_lt_ne(self.shape.ord(gkeys[x]@), self.shape.ord(k));
                    }
                    if gset.contains(k) {
                        let ms = gkeys.map_values(|q: Vec<u8>| q@);
                        let x = choose|x: int| 0 <= x < ms.len() && ms[x] == k;
                        assert(gkeys[x]@ == k);
                    }
                    lemma_set_hash_insert(gset, k);
                    assert(other.keys_seq().subrange(0, j + 1) =~= other.keys_seq().subrange(
                        0,
                        j as int,
                    ).push(k));
                    lemma_to_set_push(other.keys_seq().subrange(0, j as int), k);
                    // the pushed key is absent from `self`
                    assert forall|a: int| 0 <= a < sl implies self.keys_seq()[a] != k by {
                        if a < i {
                            assert(self.keys_seq().subrange(0, i as int)[a] == self.keys_seq()[a]);
                            assert(gset.contains(self.keys_seq()[a]));
                            let ms = gkeys.map_values(|q: Vec<u8>| q@);
                            let x = choose|x: int| 0 <= x < ms.len() && ms[x] == self.keys_seq()[a];
                            assert(gkeys[x]@ == self.keys_seq()[a]);
                            lemma_lex_lt_ne(
                                self.shape.ord(self.keys_seq()[a]),
                                self.shape.ord(k),
                            );
                        } else {
                            // here the comparison put the other key first
                            if a > i {
                                lemma_lex_lt_trans(
                                    self.shape.ord(k),
                                    self.shape.ord(self.keys_seq()[i as int]),
                                    self.shape.ord(self.keys_seq()[a]),
                                );
                            }
                            lemma_lex_lt_ne(self.shape.ord(k), self.shape.ord(self.keys_seq()[a]));
                        }
                    }
                    if self.key_set().contains(k) {
                        self.lemma_idx_of(k);
                    }
                    assert(other.key_set().contains(k));
                    other.lemma_idx_of(k);
                    assert(other.idx_of(k) == j as int);
                }
                proof {
                    assert forall|a: int| i <= a < sl implies lex_lt(
                        self.shape.ord(k),
                        self.shape.ord(#[trigger] self.keys_seq()[a]),
                    ) by {
                        assert(r == 2);
                        if a > i {
                            lemma_lex_lt_trans(
                                self.shape.ord(k),
                                self.shape.ord(self.keys_seq()[i as int]),
                                self.shape.ord(self.keys_seq()[a]),
                            );
                        }
                    }
                }
                h = h ^ other.hashes[j];
                j += 1;
            }
        }
        proof {
            assert(self.keys_seq().subrange(0, i as int) =~= self.keys_seq());
            assert(other.keys_seq().subrange(0, j as int) =~= other.keys_seq());
        }
        let ghost oldp = *self;
        self.keys = keys;
        self.vals = vals;
        self.hashes = hashes;
        self.hash = h;
        proof {
            assert(self.keys_seq() == self.keys@.map_values(|k: Vec<u8>| k@));
            assert(self.key_set() =~= oldp.key_set().union(other.key_set()));
            self.lemma_distinct();
            assert forall|k: Seq<u8>| oldp.key_set().contains(k) implies self.pay()[k]
                == oldp.pay()[k] by {
                assert(self.key_set().contains(k));
                self.lemma_idx_of(k);
                let x = self.idx_of(k);
                assert(self.keys@[x]@ == k);
            }
            assert forall|k: Seq<u8>|
                !oldp.key_set().contains(k) && other.key_set().contains(k) implies self.pay()[k]
                == other.pay()[k] by {
                assert(self.key_set().contains(k));
                self.lemma_idx_of(k);
                let x = self.idx_of(k);
                assert(self.keys@[x]@ == k);
            }
        }
    }
}

/// The fingerprint and the length of a PATCH depend only on its abstract
/// contents: two well-formed instances over the same key set agree on both,
/// whatever the order (or multiplicity) of the insertions that built them.
pub proof fn lemma_contents_determine(a: Patch, b: Patch)
    requires
        a.wf(),
        b.wf(),
        a.key_set() == b.key_set(),
    ensures
        a.hash == b.hash,
        a.keys@.len() == b.keys@.len(),
{
    a.lemma_distinct();
    b.lemma_distinct();
}

/// Set insertion is commutative and idempotent, so by `Patch::insert`'s
/// contract the contents — and with them fingerprint and length — of a PATCH
/// depend only on the set underlying the inserted multiset of keys.
pub proof fn lemma_insert_commutes(s: Set<Seq<u8>>, x: Seq<u8>, y: Seq<u8>)
    ensures
        s.insert(x).insert(y) == s.insert(y).insert(x),
        s.insert(x).insert(x) == s.insert(x),
{
    assert(s.insert(x).insert(y) =~= s.insert(y).insert(x));
    assert(s.insert(x).insert(x) =~= s.insert(x));
}

/// Inclusion–exclusion for the fingerprint of a union of two PATCHes.
pub proof fn lemma_union_fingerprint(a: Patch, b: Patch)
    requires
        a.wf(),
        b.wf(),
    ensures
        set_hash(a.key_set().union(b.key_set())) == a.hash ^ b.hash ^ set_hash(
            a.key_set().intersect(b.key_set()),
        ),
{
    a.lemma_distinct();
    b.lemma_distinct();
    crate::fingerprint::lemma_set_hash_union(a.key_set(), b.key_set());
}

impl Patch {
    /// The ordering-space image of the member key at position `j`, cut at
    /// depth `e`.
    pub open spec fn proj_at(self, e: int, j: int) -> Seq<u8> {
        self.shape.ord(self.keys_seq()[j]).subrange(0, e)
    }

    /// The distinct continuations of `p` within the segment containing depth
    /// `|p|`: the ordering-space images, cut at that segment's end, of the
    /// member keys that begin with `p`.
    pub open spec fn seg_projections(self, p: Seq<u8>) -> Set<Seq<u8>> {
        Set::new(
            |q: Seq<u8>|
                exists|k: Seq<u8>|
                    #[trigger] self.key_set().contains(k) && self.shape.matches(k, p) && q
                        == self.shape.ord(k).subrange(0, self.shape.seg_end_from(p.len() as int)),
        )
    }

    /// The projections contributed by the first `i` member positions.
    pub open spec fn proj_upto(self, p: Seq<u8>, e: int, i: int) -> Set<Seq<u8>> {
        Set::new(
            |q: Seq<u8>|
                exists|j: int|
                    0 <= j < i && #[trigger] self.shape.matches(self.keys_seq()[j], p) && q
                        == self.proj_at(e, j),
        )
    }

    /// The keys among the first `i` member positions that begin with `p`.
    pub open spec fn match_upto(self, p: Seq<u8>, i: int) -> Set<Seq<u8>> {
        Set::new(
            |k: Seq<u8>|
                (exists|j: int| 0 <= j < i && #[trigger] self.keys_seq()[j] == k)
                    && self.shape.matches(k, p),
        )
    }

    /// The number of distinct keys that begin with `prefix`, counted within
    /// the segment containing depth `|prefix|`: distinct keys whose
    /// continuations agree through that whole segment are counted once.
    pub fn segmented_len(&self, prefix: &Vec<u8>) -> (r: u64)
        requires
            self.wf(),
            prefix@.len() < self.shape.key_len(),
        ensures
            r == self.seg_projections(prefix@).len(),
            r <= self.keys@.len(),
    {
        let plen = prefix.len();
        let e = seg_end(&self.shape, plen);
        proof {
            lemma_seg_end_char(self.shape, plen as int, e as int);
        }
        let ghost ee = e as int;
        let n = self.keys.len();
        let mut count: u64 = 0;
        let mut last: usize = 0;
        let mut i: usize = 0;
        proof {
            assert(self.proj_upto(prefix@, ee, 0) =~= Set::<Seq<u8>>::empty());
        }
        while i < n
            invariant
                self.wf(),
                prefix@.len() < self.shape.key_len(),
                plen == prefix@.len(),
                n == self.keys@.len(),
                0 <= i <= n,
                plen < ee <= self.shape.key_len(),
                ee == self.shape.seg_end_from(plen as int),
                ee == e,
                count <= i,
                self.proj_upto(prefix@, ee, i as int).finite(),
                count == self.proj_upto(prefix@, ee, i as int).len(),
                count > 0 ==> last < i && self.shape.matches(self.keys_seq()[last as int], prefix@)
                    && forall|j: int|
                    0 <= j < i && #[trigger] self.shape.matches(self.keys_seq()[j], prefix@) ==> (
                    self.proj_at(ee, j) == self.proj_at(ee, last as int) || lex_lt(
                        self.proj_at(ee, j),
                        self.proj_at(ee, last as int),
                    )),
                count == 0 ==> forall|j: int|
                    0 <= j < i ==> !self.shape.matches(#[trigger] self.keys_seq()[j], prefix@),
            decreases n - i,
        {
            proof {
                assert(self.keys_seq()[i as int] == self.keys@[i as int]@);
            }
            if key_matches(&self.shape, &self.keys[i], prefix) {
                let mut fresh = true;
                if count > 0 {
                    proof {
                        assert(self.keys_seq()[last as int] == self.keys@[last as int]@);
                    }
                    if ord_range_eq(&self.shape, &self.keys[i], &self.keys[last], 0, e) {
                        fresh = false;
                    }
                }
                proof {
                    let pu = self.proj_upto(prefix@, ee, i as int);
                    let q = self.proj_at(ee, i as int);
                    assert(self.proj_upto(prefix@, ee, i + 1) =~= pu.insert(q));
                    if count == 0 {
                        assert(!pu.contains(q));
                    } else {
                        let ql = self.proj_at(ee, last as int);
                        if fresh {
                            // the new projection strictly exceeds the running maximum
                            lemma_lex_lt_subrange(
                                self.shape.ord(self.keys_seq()[last as int]),
                                self.shape.ord(self.keys_seq()[i as int]),
                                ee,
                            );
                            assert(lex_lt(ql, q));
                            if pu.contains(q) {
                                let j = choose|j: int|
                                    0 <= j < i && #[trigger] self.shape.matches(
                                        self.keys_seq()[j],
                                        prefix@,
                                    ) && q == self.proj_at(ee, j);
                                if self.proj_at(ee, j) == ql {
                                    lemma_lex_lt_ne(ql, q);
                                } else {
                                    lemma_lex_lt_trans(q, ql, q);
                                    lemma_lex_lt_ne(q, q);
                                }
                            }
                        } else {
                            assert(q == ql);
                            assert(pu.contains(ql));
                        }
                    }
                }
                if fresh {
                    count = count + 1;
                }
                proof {
                    // the last matching index becomes the running maximum
                    let q = self.proj_at(ee, i as int);
                    assert forall|j: int|
                        0 <= j < i + 1 && #[trigger] self.shape.matches(
                            self.keys_seq()[j],
                            prefix@,
                        ) implies (self.proj_at(ee, j) == q || lex_lt(self.proj_at(ee, j), q)) by {
                        if j < i {
                            lemma_lex_lt_subrange(
                                self.shape.ord(self.keys_seq()[j]),
                                self.shape.ord(self.keys_seq()[i as int]),
                                ee,
                            );
                        }
                    }
                }
                last = i;
            } else {
                proof {
                    assert(self.proj_upto(prefix@, ee, i + 1) =~= self.proj_upto(
                        prefix@,
                        ee,
                        i as int,
                    ));
                }
            }
            i += 1;
        }
        proof {
            assert(self.seg_projections(prefix@) =~= self.proj_upto(prefix@, ee, n as int)) by {
                assert forall|q: Seq<u8>| self.seg_projections(prefix@).contains(q) implies self
                    .proj_upto(prefix@, ee, n as int).contains(q) by {
                    let k = choose|k: Seq<u8>|
                        #[trigger] self.key_set().contains(k) && self.shape.matches(k, prefix@) && q
                            == self.shape.ord(k).subrange(
                            0,
                            self.shape.seg_end_from(plen as int),
                        );
                    self.lemma_idx_of(k);
                    let j = self.idx_of(k);
                    assert(self.shape.matches(self.keys_seq()[j], prefix@));
                    assert(q == self.proj_at(ee, j));
                }
                assert forall|q: Seq<u8>|
                    self.proj_upto(prefix@, ee, n as int).contains(q) implies self.seg_projections(
                    prefix@,
                ).contains(q) by {
                    let j = choose|j: int|
                        0 <= j < n && #[trigger] self.shape.matches(self.keys_seq()[j], prefix@)
                            && q == self.proj_at(ee, j);
                    assert(self.keys_seq().contains(self.keys_seq()[j]));
                    assert(self.key_set().contains(self.keys_seq()[j]));
                }
            }
        }
        count
    }

    /// The number of member keys that begin with `prefix`.
    pub fn matched_count(&self, prefix: &Vec<u8>) -> (r: u64)
        requires
            self.wf(),
            prefix@.len() <= self.shape.key_len(),
        ensures
            r == self.key_set().filter(|k: Seq<u8>| self.shape.matches(k, prefix@)).len(),
    {
        let n = self.keys.len();
        let mut count: u64 = 0;
        let mut i: usize = 0;
        proof {
            self.lemma_distinct();
            assert(self.match_upto(prefix@, 0) =~= Set::<Seq<u8>>::empty());
        }
        while i < n
            invariant
                self.wf(),
                prefix@.len() <= self.shape.key_len(),
                n == self.keys@.len(),
                0 <= i <= n,
                count <= i,
                self.match_upto(prefix@, i as int).finite(),
                count == self.match_upto(prefix@, i as int).len(),
            decreases n - i,
        {
            proof {
                assert(self.keys_seq()[i as int] == self.keys@[i as int]@);
            }
            if key_matches(&self.shape, &self.keys[i], prefix) {
                proof {
                    let k = self.keys_seq()[i as int];
                    assert(self.match_upto(prefix@, i + 1) =~= self.match_upto(
                        prefix@,
                        i as int,
                    ).insert(k));
                    if self.match_upto(prefix@, i as int).contains(k) {
                        let j = choose|j: int| 0 <= j < i && #[trigger] self.keys_seq()[j] == k;
                        self.lemma_distinct();
                        assert(self.keys_seq()[j] == self.keys_seq()[i as int]);
                    }
                }
                count = count + 1;
            } else {
                proof {
                    assert(self.match_upto(prefix@, i + 1) =~= self.match_upto(prefix@, i as int));
                }
            }
            i += 1;
        }
        proof {
            assert(self.match_upto(prefix@, n as int) =~= self.key_set().filter(
                |k: Seq<u8>| self.shape.matches(k, prefix@),
            )) by {
                assert forall|k: Seq<u8>|
                    self.match_upto(prefix@, n as int).contains(k) implies self.key_set().filter(
                    |k: Seq<u8>| self.shape.matches(k, prefix@),
                ).contains(k) by {
                    let j = choose|j: int| 0 <= j < n && #[trigger] self.keys_seq()[j] == k;
                    assert(self.keys_seq().contains(self.keys_seq()[j]));
                    assert(self.key_set().contains(k));
                }
                assert forall|k: Seq<u8>|
                    self.key_set().filter(|k: Seq<u8>| self.shape.matches(k, prefix@)).contains(
                    k,
                ) implies self.match_upto(prefix@, n as int).contains(k) by {
                    self.lemma_idx_of(k);
                    let j = self.idx_of(k);
                    assert(self.keys_seq()[j] == k);
                }
            }
        }
        count
    }
}

impl Patch {
    /// The infix of the member key at position `j`: its ordering-space bytes
    /// at `[s, s + l)`.
    pub open spec fn infix_at(self, s: int, l: int, j: int) -> Seq<u8> {
        self.shape.ord(self.keys_seq()[j]).subrange(s, s + l)
    }

    /// For two keys that share the prefix `p`, the relative ordering-space
    /// order carries over to the infix that follows the prefix.
    proof fn lemma_infix_order(self, p: Seq<u8>, l: int, j1: int, j2: int)
        requires
            self.wf(),
            0 <= j1 < self.keys@.len(),
            0 <= j2 < self.keys@.len(),
            self.shape.matches(self.keys_seq()[j1], p),
            self.shape.matches(self.keys_seq()[j2], p),
            lex_lt(self.shape.ord(self.keys_seq()[j1]), self.shape.ord(self.keys_seq()[j2])),
            p.len() + l <= self.shape.key_len(),
            0 <= l,
        ensures
            self.infix_at(p.len() as int, l, j1) == self.infix_at(p.len() as int, l, j2) || lex_lt(
                self.infix_at(p.len() as int, l, j1),
                self.infix_at(p.len() as int, l, j2),
            ),
    {
        let s = p.len() as int;
        let o1 = self.shape.ord(self.keys_seq()[j1]);
        let o2 = self.shape.ord(self.keys_seq()[j2]);
        assert(o1.subrange(0, s) == o2.subrange(0, s));
        lemma_lex_lt_skip(o1, o2, s);
        lemma_lex_lt_subrange(o1.skip(s), o2.skip(s), l);
        assert(o1.skip(s).subrange(0, l) =~= o1.subrange(s, s + l));
        assert(o2.skip(s).subrange(0, l) =~= o2.subrange(s, s + l));
    }

    /// The infixes contributed by the first `i` member positions.
    pub open spec fn infix_upto(self, p: Seq<u8>, l: int, i: int) -> Set<Seq<u8>> {
        Set::new(
            |q: Seq<u8>|
                exists|j: int|
                    0 <= j < i && #[trigger] self.shape.matches(self.keys_seq()[j], p) && q
                        == self.infix_at(p.len() as int, l, j),
        )
    }

    /// Every distinct infix `ord(k)[|p| .. |p| + l]` of the member keys `k`
    /// that begin with `p`.
    pub open spec fn infix_set(self, p: Seq<u8>, l: int) -> Set<Seq<u8>> {
        Set::new(
            |q: Seq<u8>|
                exists|k: Seq<u8>|
                    #[trigger] self.key_set().contains(k) && self.shape.matches(k, p) && q
                        == self.shape.ord(k).subrange(p.len() as int, p.len() + l),
        )
    }

    /// Enumerates, in ascending ordering-space order and each exactly once,
    /// every distinct infix `ord(k)[|prefix| .. |prefix| + infix_len]` of the
    /// member keys `k` that begin with `prefix`.  A zero `infix_len` tests
    /// bare prefix existence; a positive one must stay within the segment
    /// that starts the infix.
    pub fn infixes(&self, prefix: &Vec<u8>, infix_len: usize) -> (r: Vec<Vec<u8>>)
        requires
            self.wf(),
            prefix@.len() + infix_len <= self.shape.key_len(),
            infix_len > 0 ==> self.shape.seg_of(prefix@.len() as int) == self.shape.seg_of(
                prefix@.len() + infix_len - 1,
            ),
        ensures
            forall|x: int, y: int|
                0 <= x < y < r@.len() ==> lex_lt((#[trigger] r@[x])@, (#[trigger] r@[y])@),
            r@.map_values(|v: Vec<u8>| v@).to_set() == self.infix_set(prefix@, infix_len as int),
            forall|x: int| 0 <= x < r@.len() ==> (#[trigger] r@[x])@.len() == infix_len,
    {
        let plen = prefix.len();
        let klen = self.shape.perm.len();
        let pe = plen + infix_len;
        let ghost s = plen as int;
        let ghost l = infix_len as int;
        let n = self.keys.len();
        let mut r: Vec<Vec<u8>> = Vec::new();
        let mut last: usize = 0;
        let mut i: usize = 0;
        proof {
            assert(r@.map_values(|v: Vec<u8>| v@) =~= Seq::<Seq<u8>>::empty());
            assert(r@.map_values(|v: Vec<u8>| v@).to_set() =~= Set::<Seq<u8>>::empty());
            assert(self.infix_upto(prefix@, l, 0) =~= Set::<Seq<u8>>::empty());
        }
        while i < n
            invariant
                self.wf(),
                plen == prefix@.len(),
                s == plen as int,
                l == infix_len as int,
                klen == self.shape.perm@.len(),
                pe == plen + infix_len,
                prefix@.len() + infix_len <= self.shape.key_len(),
                n == self.keys@.len(),
                0 <= i <= n,
                forall|x: int, y: int|
                    0 <= x < y < r@.len() ==> lex_lt((#[trigger] r@[x])@, (#[trigger] r@[y])@),
                forall|x: int| 0 <= x < r@.len() ==> (#[trigger] r@[x])@.len() == infix_len,
                r@.map_values(|v: Vec<u8>| v@).to_set() =~= self.infix_upto(prefix@, l, i as int),
                r@.len() > 0 ==> last < i && self.shape.matches(
                    self.keys_seq()[last as int],
                    prefix@,
                ) && r@[r@.len() - 1]@ == self.infix_at(s, l, last as int),
                r@.len() == 0 ==> forall|j: int|
                    0 <= j < i ==> !self.shape.matches(#[trigger] self.keys_seq()[j], prefix@),
            decreases n - i,
        {
            proof {
                assert(self.keys_seq()[i as int] == self.keys@[i as int]@);
            }
            if key_matches(&self.shape, &self.keys[i], prefix) {
                let mut fresh = true;
                if r.len() > 0 {
                    proof {
                        assert(self.keys_seq()[last as int] == self.keys@[last as int]@);
                    }
                    if ord_range_eq(&self.shape, &self.keys[i], &self.keys[last], plen, pe) {
                        fresh = false;
                    }
                }
                let ghost q = self.infix_at(s, l, i as int);
                proof {
                    assert(self.infix_upto(prefix@, l, i + 1) =~= self.infix_upto(
                        prefix@,
                        l,
                        i as int,
                    ).insert(q));
                }
                if fresh {
                    let ghost gr = r@;
                    let v = crate::keys::extract_ord_range(
                        &self.shape,
                        &self.keys[i],
                        plen,
                        infix_len,
                    );
                    proof {
                        assert(v@ == q);
                        if gr.len() > 0 {
                            self.lemma_infix_order(prefix@, l, last as int, i as int);
                            assert(lex_lt(gr[gr.len() - 1]@, q));
                        }
                    }
                    r.push(v);
                    proof {
                        assert(r@.map_values(|w: Vec<u8>| w@) =~= gr.map_values(
                            |w: Vec<u8>| w@,
                        ).push(q));
                        lemma_to_set_push(gr.map_values(|w: Vec<u8>| w@), q);
                        assert forall|x: int, y: int|
                            0 <= x < y < r@.len() implies lex_lt(
                            (#[trigger] r@[x])@,
                            (#[trigger] r@[y])@,
                        ) by {
                            if y == r@.len() - 1 && gr.len() > 0 && x < gr.len() - 1 {
                                lemma_lex_lt_trans(r@[x]@, gr[gr.len() - 1]@, r@[y]@);
                            }
                        }
                    }
                } else {
                    proof {
                        assert(q == self.infix_at(s, l, last as int));
                        assert(self.infix_upto(prefix@, l, i as int).contains(q)) by {
                            assert(self.shape.matches(self.keys_seq()[last as int], prefix@)
                                && q == self.infix_at(s, l, last as int));
                        }
                        assert(self.infix_upto(prefix@, l, i as int).insert(q)
                            =~= self.infix_upto(prefix@, l, i as int));
                    }
                }
                last = i;
            } else {
                proof {
                    assert(self.infix_upto(prefix@, l, i + 1) =~= self.infix_upto(
                        prefix@,
                        l,
                        i as int,
                    ));
                }
            }
            i += 1;
        }
        proof {
            assert(self.infix_upto(prefix@, l, n as int) =~= self.infix_set(prefix@, l)) by {
                assert forall|q: Seq<u8>|
                    self.infix_upto(prefix@, l, n as int).contains(q) implies self.infix_set(
                    prefix@,
                    l,
                ).contains(q) by {
                    let j = choose|j: int|
                        0 <= j < n && #[trigger] self.shape.matches(self.keys_seq()[j], prefix@)
                            && q == self.infix_at(s, l, j);
                    assert(self.keys_seq().contains(self.keys_seq()[j]));
                    assert(self.key_set().contains(self.keys_seq()[j]));
                }
                assert forall|q: Seq<u8>|
                    self.infix_set(prefix@, l).contains(q) implies self.infix_upto(
                    prefix@,
                    l,
                    n as int,
                ).contains(q) by {
                    let k = choose|k: Seq<u8>|
                        #[trigger] self.key_set().contains(k) && self.shape.matches(k, prefix@)
                            && q == self.shape.ord(k).subrange(s, s + l);
                    self.lemma_idx_of(k);
                    let j = self.idx_of(k);
                    assert(self.shape.matches(self.keys_seq()[j], prefix@));
                    assert(q == self.infix_at(s, l, j));
                }
            }
        }
        r
    }
}

/// Every prefix of a member key is present: for any key in the set and any
/// length, some member begins with that key's ordering-space prefix — the
/// key itself does.
pub proof fn lemma_member_prefix(p: Patch, k: Seq<u8>, l: int)
    requires
        p.wf(),
        p.key_set().contains(k),
        0 <= l <= p.shape.key_len(),
    ensures
        exists|k2: Seq<u8>|
            #[trigger] p.key_set().contains(k2) && p.shape.matches(
                k2,
                p.shape.ord(k).subrange(0, l),
            ),
{
    p.lemma_idx_of(k);
    assert(p.shape.key_ok(k));
    assert(p.shape.matches(k, p.shape.ord(k).subrange(0, l)));
}

impl Patch {
    /// A fresh instance with the same contents: afterwards the two values
    /// evolve independently, so a mutation of one leaves the other's
    /// fingerprint, length and every key as they were.
    pub fn snapshot(&self) -> (r: Patch)
        requires
            self.wf(),
        ensures
            r.wf(),
            r.shape.perm@ == self.shape.perm@,
            r.shape.seg@ == self.shape.seg@,
            r.key_set() == self.key_set(),
            r.pay() == self.pay(),
            r.hash == self.hash,
            r.keys@.len() == self.keys@.len(),
    {
        let shape = KeyShape {
            perm: self.shape.perm.clone(),
            perm_inv: self.shape.perm_inv.clone(),
            seg: self.shape.seg.clone(),
        };
        let keys = crate::vecset::copy_list(&self.keys);
        let vals = crate::vecset::copy_list(&self.vals);
        let hashes = self.hashes.clone();
        let r = Patch { shape, keys, vals, hashes, hash: self.hash };
        proof {
            assert(r.shape.perm@ =~= self.shape.perm@);
            assert(r.shape.perm_inv@ =~= self.shape.perm_inv@);
            assert(r.shape.seg@ =~= self.shape.seg@);
            assert(r.shape.wf());
            assert forall|k: Seq<u8>| #[trigger] r.shape.ord(k) == self.shape.ord(k) by {
                assert(r.shape.ord(k) =~= self.shape.ord(k));
            }
            assert(r.keys_seq() =~= self.keys_seq());
            assert(r.key_set() =~= self.key_set());
            assert(r.hashes@ =~= self.hashes@);
            assert forall|k: Seq<u8>| r.key_set().contains(k) implies r.pay()[k]
                == self.pay()[k] by {
                r.lemma_idx_of(k);
                self.lemma_idx_of(k);
                assert(r.idx_of(k) == self.idx_of(k));
            }
            assert(r.pay() =~= self.pay());
        }
        r
    }
}

} // verus!
