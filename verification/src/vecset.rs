//! Sorted duplicate-free byte-string sets and maps keyed by byte strings.
//!
//! These back the hashed fallback index and the columns: contents are held
//! in ascending lexicographic order, so membership, enumeration order and
//! set views are all exact.

use vstd::prelude::*;

use crate::keys::{bytes_cmp, lemma_lex_lt_ne, lemma_lex_lt_trans, lex_lt};

verus! {

/// A set of equal-length byte strings in ascending order.
pub struct VecSet {
    pub items: Vec<Vec<u8>>,
}

impl VecSet {
    /// Well-formed with element length `l`.
    pub open spec fn wf(self, l: int) -> bool {
        &&& forall|i: int| 0 <= i < self.items@.len() ==> (#[trigger] self.items@[i])@.len() == l
        &&& forall|i: int, j: int|
            0 <= i < j < self.items@.len() ==> lex_lt(
                (#[trigger] self.items@[i])@,
                (#[trigger] self.items@[j])@,
            )
    }

    /// The abstract contents.
    pub open spec fn view_set(self) -> Set<Seq<u8>> {
        self.items@.map_values(|v: Vec<u8>| v@).to_set()
    }

    pub proof fn lemma_distinct(self, l: int)
        requires
            self.wf(l),
        ensures
            self.items@.map_values(|v: Vec<u8>| v@).no_duplicates(),
            self.view_set().finite(),
            self.view_set().len() == self.items@.len(),
    {
        let ms = self.items@.map_values(|v: Vec<u8>| v@);
        assert forall|i: int, j: int|
            0 <= i < ms.len() && 0 <= j < ms.len() && i != j implies ms[i] != ms[j] by {
            if i < j {
                lemma_lex_lt_ne(self.items@[i]@, self.items@[j]@);
            } else {
                lemma_lex_lt_ne(self.items@[j]@, self.items@[i]@);
            }
        }
        broadcast use vstd::seq_lib::seq_to_set_is_finite;

        ms.unique_seq_to_set();
    }

    pub fn new() -> (r: VecSet)
        ensures
            forall|l: int| r.wf(l),
            r.view_set() =~= Set::<Seq<u8>>::empty(),
    {
        let r = VecSet { items: Vec::new() };
        proof {
            assert(r.items@.map_values(|v: Vec<u8>| v@) =~= Seq::<Seq<u8>>::empty());
            assert(r.view_set() =~= Set::<Seq<u8>>::empty());
        }
        r
    }

    pub fn len(&self) -> (r: usize)
        ensures
            r == self.items@.len(),
    {
        self.items.len()
    }

    pub fn contains(&self, v: &Vec<u8>) -> (r: bool)
        requires
            exists|l: int| self.wf(l) && v@.len() == l,
        ensures
            r == self.view_set().contains(v@),
    {
        let ghost l = choose|l: int| self.wf(l) && v@.len() == l;
        let n = self.items.len();
        let mut i: usize = 0;
        while i < n
            invariant
                self.wf(l),
                v@.len() == l,
                n == self.items@.len(),
                0 <= i <= n,
                forall|j: int| 0 <= j < i ==> (#[trigger] self.items@[j])@ != v@,
            decreases n - i,
        {
            let c = bytes_cmp(&self.items[i], v);
            if c == 1 {
                proof {
                    let ms = self.items@.map_values(|q: Vec<u8>| q@);
                    assert(ms[i as int] == v@);
                    assert(ms.contains(v@));
                }
                return true;
            }
            proof {
                if c == 0 {
                    lemma_lex_lt_ne(self.items@[i as int]@, v@);
                } else {
                    lemma_lex_lt_ne(v@, self.items@[i as int]@);
                }
            }
            i += 1;
        }
        proof {
            if self.view_set().contains(v@) {
                let ms = self.items@.map_values(|q: Vec<u8>| q@);
                let j = choose|j: int| 0 <= j < ms.len() && ms[j] == v@;
                assert(self.items@[j]@ == v@);
            }
        }
        false
    }

    /// Inserts `v`; a value already present is left alone.
    pub fn insert(&mut self, v: Vec<u8>)
        requires
            exists|l: int| old(self).wf(l) && v@.len() == l,
        ensures
            forall|l: int| old(self).wf(l) && v@.len() == l ==> final(self).wf(l),
            final(self).view_set() =~= old(self).view_set().insert(v@),
            final(self).items@.len() >= old(self).items@.len(),
            final(self).items@.len() > 0,
    {
        let ghost l = choose|l: int| old(self).wf(l) && v@.len() == l;
        let n = self.items.len();
        let mut i: usize = 0;
        let mut found = false;
        let mut past = false;
        while i < n
            invariant_except_break
                !found && !past,
            invariant
                self.wf(l),
                *self == *old(self),
                v@.len() == l,
                n == self.items@.len(),
                0 <= i <= n,
                forall|j: int| 0 <= j < i ==> lex_lt((#[trigger] self.items@[j])@, v@),
            ensures
                0 <= i <= n,
                forall|j: int| 0 <= j < i ==> lex_lt((#[trigger] self.items@[j])@, v@),
                *self == *old(self),
                found ==> i < n && self.items@[i as int]@ == v@,
                past ==> i < n && lex_lt(v@, self.items@[i as int]@),
                !found && !past ==> i == n,
            decreases n - i,
        {
            let c = bytes_cmp(&self.items[i], &v);
            if c == 1 {
                found = true;
                break ;
            }
            if c == 2 {
                past = true;
                break ;
            }
            i += 1;
        }
        if found {
            proof {
                let ms = self.items@.map_values(|q: Vec<u8>| q@);
                assert(ms[i as int] == v@);
                assert(ms.contains(v@));
                assert(self.view_set().insert(v@) =~= self.view_set());
            }
            return ;
        }
        let ghost oldset = self.view_set();
        let ghost old_items = self.items@;
        self.items.insert(i, v);
        proof {
            let ms = self.items@.map_values(|q: Vec<u8>| q@);
            let old_ms = old_items.map_values(|q: Vec<u8>| q@);
            assert(ms =~= old_ms.insert(i as int, v@));
            assert forall|x: int, y: int|
                0 <= x < y < self.items@.len() implies lex_lt(
                (#[trigger] self.items@[x])@,
                (#[trigger] self.items@[y])@,
            ) by {
                if x < i && y == i {
                } else if x == i && y > i {
                    if i < n && y > i + 1 {
                        lemma_lex_lt_trans(v@, old_items[i as int]@, old_items[y - 1]@);
                    }
                } else if x < i && y > i {
                    if i < n {
                        if y > i + 1 {
                            lemma_lex_lt_trans(
                                old_items[x]@,
                                old_items[i as int]@,
                                old_items[y - 1]@,
                            );
                        }
                    } else {
                        assert(false);
                    }
                }
            }
            assert(self.view_set() =~= oldset.insert(v@)) by {
                assert forall|k: Seq<u8>| self.view_set().contains(k) implies oldset.insert(
                    v@,
                ).contains(k) by {
                    let j = choose|j: int| 0 <= j < ms.len() && ms[j] == k;
                    if j < i {
                        assert(old_ms[j] == k);
                    } else if j > i {
                        assert(old_ms[j - 1] == k);
                    }
                }
                assert forall|k: Seq<u8>|
                    oldset.insert(v@).contains(k) implies self.view_set().contains(k) by {
                    if k == v@ {
                        assert(ms[i as int] == k);
                    } else {
                        let j = choose|j: int| 0 <= j < old_ms.len() && old_ms[j] == k;
                        if j < i {
                            assert(ms[j] == k);
                        } else {
                            assert(ms[j + 1] == k);
                        }
                    }
                }
            }
        }
    }
}

/// A map from byte-string keys to `VecSet` values, keys ascending.
pub struct VecMap {
    pub entries: Vec<(Vec<u8>, VecSet)>,
}

impl VecMap {
    /// Well-formed with key length `kl` and element length `vl`.
    pub open spec fn wf(self, kl: int, vl: int) -> bool {
        &&& forall|i: int|
            0 <= i < self.entries@.len() ==> (#[trigger] self.entries@[i]).0@.len() == kl
        &&& forall|i: int| 0 <= i < self.entries@.len() ==> (#[trigger] self.entries@[i]).1.wf(vl)
        &&& forall|i: int|
            0 <= i < self.entries@.len() ==> (#[trigger] self.entries@[i]).1.items@.len() > 0
        &&& forall|i: int, j: int|
            0 <= i < j < self.entries@.len() ==> lex_lt(
                (#[trigger] self.entries@[i]).0@,
                (#[trigger] self.entries@[j]).0@,
            )
    }

    /// The abstract contents: which pairs (key, element) the map holds.
    pub open spec fn has_pair(self, k: Seq<u8>, v: Seq<u8>) -> bool {
        exists|i: int|
            0 <= i < self.entries@.len() && (#[trigger] self.entries@[i]).0@ == k && self.entries@[
            i].1.view_set().contains(v)
    }

    /// Whether some pair has key `k`.
    pub open spec fn has_key(self, k: Seq<u8>) -> bool {
        exists|i: int| 0 <= i < self.entries@.len() && (#[trigger] self.entries@[i]).0@ == k
    }

    pub fn new() -> (r: VecMap)
        ensures
            forall|kl: int, vl: int| r.wf(kl, vl),
            forall|k: Seq<u8>, v: Seq<u8>| !r.has_pair(k, v),
            forall|k: Seq<u8>| !r.has_key(k),
    {
        VecMap { entries: Vec::new() }
    }

    pub fn len(&self) -> (r: usize)
        ensures
            r == self.entries@.len(),
    {
        self.entries.len()
    }

    /// Position of key `k`, if present.
    pub fn find(&self, k: &Vec<u8>) -> (r: Option<usize>)
        requires
            exists|kl: int, vl: int| self.wf(kl, vl) && k@.len() == kl,
        ensures
            match r {
                Some(i) => i < self.entries@.len() && self.entries@[i as int].0@ == k@,
                None => !self.has_key(k@),
            },
    {
        let ghost kl = choose|kl: int, vl: int| self.wf(kl, vl) && k@.len() == kl;
        let n = self.entries.len();
        let mut i: usize = 0;
        while i < n
            invariant
                exists|kl: int, vl: int| self.wf(kl, vl) && k@.len() == kl,
                n == self.entries@.len(),
                0 <= i <= n,
                forall|j: int| 0 <= j < i ==> (#[trigger] self.entries@[j]).0@ != k@,
            decreases n - i,
        {
            proof {
                let (kl2, vl2) = choose|kl2: int, vl2: int| self.wf(kl2, vl2) && k@.len() == kl2;
                assert(self.entries@[i as int].0@.len() == kl2);
            }
            let c = bytes_cmp(&self.entries[i].0, k);
            if c == 1 {
                return Some(i);
            }
            proof {
                if c == 0 {
                    lemma_lex_lt_ne(self.entries@[i as int].0@, k@);
                } else {
                    lemma_lex_lt_ne(k@, self.entries@[i as int].0@);
                }
            }
            i += 1;
        }
        None
    }

    /// Adds the pair `(k, v)`.
    pub fn add(&mut self, k: Vec<u8>, v: Vec<u8>)
        requires
            exists|kl: int, vl: int|
                old(self).wf(kl, vl) && k@.len() == kl && v@.len() == vl,
        ensures
            forall|kl: int, vl: int|
                old(self).wf(kl, vl) && k@.len() == kl && v@.len() == vl ==> final(self).wf(
                    kl,
                    vl,
                ),
            forall|k2: Seq<u8>, v2: Seq<u8>|
                final(self).has_pair(k2, v2) == (old(self).has_pair(k2, v2) || (k2 == k@ && v2
                    == v@)),
            forall|k2: Seq<u8>|
                final(self).has_key(k2) == (old(self).has_key(k2) || k2 == k@),
    {
        let ghost gkl = choose|kl: int, vl: int|
            old(self).wf(kl, vl) && k@.len() == kl && v@.len() == vl;
        let r = self.find(&k);
        match r {
            Some(i) => {
                let ghost olde = self.entries@;
                let entry = &mut self.entries[i];
                proof {
                    let (kl2, vl2) = choose|kl2: int, vl2: int|
                        old(self).wf(kl2, vl2) && k@.len() == kl2 && v@.len() == vl2;
                    assert(olde[i as int].1.wf(vl2));
                }
                entry.1.insert(v);
                proof {
                    assert forall|kl2: int, vl2: int|
                        old(self).wf(kl2, vl2) && k@.len() == kl2 && v@.len()
                            == vl2 implies self.wf(kl2, vl2) by {
                        assert forall|x: int|
                            0 <= x < self.entries@.len() implies (#[trigger] self.entries@[x]).1.wf(
                            vl2,
                        ) by {
                            if x != i {
                                assert(self.entries@[x] == olde[x]);
                            }
                        }
                    }
                    assert forall|k2: Seq<u8>, v2: Seq<u8>|
                        self.has_pair(k2, v2) == (old(self).has_pair(k2, v2) || (k2 == k@ && v2
                            == v@)) by {
                        if self.has_pair(k2, v2) {
                            let x = choose|x: int|
                                0 <= x < self.entries@.len() && (#[trigger] self.entries@[x]).0@
                                    == k2 && self.entries@[x].1.view_set().contains(v2);
                            if x != i {
                                assert(olde[x] == self.entries@[x]);
                                assert(old(self).has_pair(k2, v2));
                            } else {
                                if v2 != v@ {
                                    assert(olde[x].1.view_set().contains(v2));
                                    assert(old(self).has_pair(k2, v2));
                                }
                            }
                        }
                        if old(self).has_pair(k2, v2) {
                            let x = choose|x: int|
                                0 <= x < olde.len() && (#[trigger] olde[x]).0@ == k2 && olde[
                                x].1.view_set().contains(v2);
                            assert(self.entries@[x].0@ == k2);
                            assert(self.entries@[x].1.view_set().contains(v2));
                        }
                        if k2 == k@ && v2 == v@ {
                            assert(self.entries@[i as int].0@ == k2);
                            assert(self.entries@[i as int].1.view_set().contains(v2));
                        }
                    }
                    assert forall|k2: Seq<u8>|
                        self.has_key(k2) == (old(self).has_key(k2) || k2 == k@) by {
                        if self.has_key(k2) {
                            let x = choose|x: int|
                                0 <= x < self.entries@.len() && (#[trigger] self.entries@[x]).0@
                                    == k2;
                            assert(olde[x].0@ == k2);
                        }
                        if old(self).has_key(k2) {
                            let x = choose|x: int|
                                0 <= x < olde.len() && (#[trigger] olde[x]).0@ == k2;
                            assert(self.entries@[x].0@ == k2);
                        }
                    }
                }
            },
            None => {
                let mut vs = VecSet::new();
                proof {
                    assert(vs.wf(v@.len() as int));
                }
                vs.insert(v);
                let ghost olde = self.entries@;
                // find the insertion position among the sorted keys
                let n = self.entries.len();
                let mut i: usize = 0;
                while i < n
                    invariant
                        exists|kl2: int, vl2: int|
                            self.wf(kl2, vl2) && k@.len() == kl2,
                        *self == *old(self),
                        n == self.entries@.len(),
                        0 <= i <= n,
                        forall|j: int| 0 <= j < i ==> lex_lt((#[trigger] self.entries@[j]).0@, k@),
                        !self.has_key(k@),
                    ensures
                        0 <= i <= n,
                        *self == *old(self),
                        forall|j: int| 0 <= j < i ==> lex_lt((#[trigger] self.entries@[j]).0@, k@),
                        i < n ==> lex_lt(k@, self.entries@[i as int].0@),
                    decreases n - i,
                {
                    proof {
                        let (kl2, vl2) = choose|kl2: int, vl2: int|
                            self.wf(kl2, vl2) && k@.len() == kl2;
                        assert(self.entries@[i as int].0@.len() == kl2);
                    }
                    let c = bytes_cmp(&self.entries[i].0, &k);
                    if c == 2 {
                        break ;
                    }
                    proof {
                        if c == 1 {
                            assert(self.entries@[i as int].0@ == k@);
                            assert(false);
                        }
                    }
                    i += 1;
                }
                self.entries.insert(i, (k, vs));
                proof {
                    assert forall|kl2: int, vl2: int|
                        old(self).wf(kl2, vl2) && k@.len() == kl2 && v@.len()
                            == vl2 implies self.wf(kl2, vl2) by {
                        assert forall|x: int, y: int|
                            0 <= x < y < self.entries@.len() implies lex_lt(
                            (#[trigger] self.entries@[x]).0@,
                            (#[trigger] self.entries@[y]).0@,
                        ) by {
                            if x < i && y == i {
                            } else if x == i && y > i {
                                if i < n && y > i + 1 {
                                    lemma_lex_lt_trans(
                                        k@,
                                        olde[i as int].0@,
                                        olde[y - 1].0@,
                                    );
                                }
                            } else if x < i && y > i {
                                if i < n {
                                    if y > i + 1 {
                                        lemma_lex_lt_trans(
                                            olde[x].0@,
                                            olde[i as int].0@,
                                            olde[y - 1].0@,
                                        );
                                    }
                                } else {
                                    assert(false);
                                }
                            }
                        }
                    }
                    assert forall|k2: Seq<u8>, v2: Seq<u8>|
                        self.has_pair(k2, v2) == (old(self).has_pair(k2, v2) || (k2 == k@ && v2
                            == v@)) by {
                        if self.has_pair(k2, v2) {
                            let x = choose|x: int|
                                0 <= x < self.entries@.len() && (#[trigger] self.entries@[x]).0@
                                    == k2 && self.entries@[x].1.view_set().contains(v2);
                            if x < i {
                                assert(olde[x] == self.entries@[x]);
                                assert(old(self).has_pair(k2, v2));
                            } else if x > i {
                                assert(olde[x - 1] == self.entries@[x]);
                                assert(old(self).has_pair(k2, v2));
                            } else {
                                assert(vs.view_set().contains(v2));
                                assert(vs.view_set() =~= Set::<Seq<u8>>::empty().insert(v@));
                            }
                        }
                        if old(self).has_pair(k2, v2) {
                            let x = choose|x: int|
                                0 <= x < olde.len() && (#[trigger] olde[x]).0@ == k2 && olde[
                                x].1.view_set().contains(v2);
                            if x < i {
                                assert(self.entries@[x].0@ == k2);
                                assert(self.entries@[x].1.view_set().contains(v2));
                            } else {
                                assert(self.entries@[x + 1].0@ == k2);
                                assert(self.entries@[x + 1].1.view_set().contains(v2));
                            }
                        }
                        if k2 == k@ && v2 == v@ {
                            assert(self.entries@[i as int].0@ == k2);
                            assert(vs.view_set().contains(v2)) by {
                                assert(vs.view_set() =~= Set::<Seq<u8>>::empty().insert(v@));
                            }
                            assert(self.entries@[i as int].1.view_set().contains(v2));
                        }
                    }
                    assert forall|k2: Seq<u8>|
                        self.has_key(k2) == (old(self).has_key(k2) || k2 == k@) by {
                        if self.has_key(k2) {
                            let x = choose|x: int|
                                0 <= x < self.entries@.len() && (#[trigger] self.entries@[x]).0@
                                    == k2;
                            if x < i {
                                assert(olde[x].0@ == k2);
                                assert(old(self).has_key(k2));
                            } else if x > i {
                                assert(olde[x - 1].0@ == k2);
                                assert(old(self).has_key(k2));
                            } else {
                                assert(k2 == k@);
                            }
                        }
                        if old(self).has_key(k2) {
                            let x = choose|x: int|
                                0 <= x < olde.len() && (#[trigger] olde[x]).0@ == k2;
                            if x < i {
                                assert(self.entries@[x].0@ == k2);
                            } else {
                                assert(self.entries@[x + 1].0@ == k2);
                            }
                        }
                        if k2 == k@ {
                            assert(self.entries@[i as int].0@ == k2);
                        }
                    }
                }
            },
        }
    }
}

impl VecMap {
    /// A key names at most one entry.
    pub proof fn lemma_key_unique(self, kl: int, vl: int, i: int, k: Seq<u8>)
        requires
            self.wf(kl, vl),
            0 <= i < self.entries@.len(),
            self.entries@[i].0@ == k,
        ensures
            forall|j: int|
                0 <= j < self.entries@.len() && (#[trigger] self.entries@[j]).0@ == k ==> j == i,
    {
        assert forall|j: int|
            0 <= j < self.entries@.len() && (#[trigger] self.entries@[j]).0@ == k implies j
            == i by {
            if j < i {
                lemma_lex_lt_ne(self.entries@[j].0@, self.entries@[i].0@);
            } else if j > i {
                lemma_lex_lt_ne(self.entries@[i].0@, self.entries@[j].0@);
            }
        }
    }

    /// The keys, in ascending order.
    pub fn keys(&self) -> (r: Vec<Vec<u8>>)
        ensures
            r@.len() == self.entries@.len(),
            forall|x: int| 0 <= x < r@.len() ==> (#[trigger] r@[x])@ == self.entries@[x].0@,
    {
        let n = self.entries.len();
        let mut r: Vec<Vec<u8>> = Vec::new();
        let mut i: usize = 0;
        while i < n
            invariant
                n == self.entries@.len(),
                0 <= i <= n,
                r@.len() == i,
                forall|x: int| 0 <= x < i ==> (#[trigger] r@[x])@ == self.entries@[x].0@,
            decreases n - i,
        {
            r.push(self.entries[i].0.clone());
            i += 1;
        }
        r
    }
}

/// A fresh list with the same byte strings.
pub fn copy_list(v: &Vec<Vec<u8>>) -> (r: Vec<Vec<u8>>)
    ensures
        r@.len() == v@.len(),
        forall|x: int| 0 <= x < r@.len() ==> (#[trigger] r@[x])@ == v@[x]@,
{
    let n = v.len();
    let mut r: Vec<Vec<u8>> = Vec::new();
    let mut i: usize = 0;
    while i < n
        invariant
            n == v@.len(),
            0 <= i <= n,
            r@.len() == i,
            forall|x: int| 0 <= x < i ==> (#[trigger] r@[x])@ == v@[x]@,
        decreases n - i,
    {
        r.push(v[i].clone());
        i += 1;
    }
    r
}

impl VecMap {
    /// The position of the entry keyed `k` (meaningful when the key is held).
    pub open spec fn key_at(self, k: Seq<u8>) -> int {
        choose|i: int| 0 <= i < self.entries@.len() && (#[trigger] self.entries@[i]).0@ == k
    }

    /// How many elements stand under the key `k` (zero when absent).
    pub open spec fn entry_len(self, k: Seq<u8>) -> int {
        if self.has_key(k) {
            self.entries@[self.key_at(k)].1.items@.len() as int
        } else {
            0
        }
    }

    /// `entry_len` counts the one entry that holds the key.
    pub proof fn lemma_entry_len(self, kl: int, vl: int, i: int)
        requires
            self.wf(kl, vl),
            0 <= i < self.entries@.len(),
        ensures
            self.entry_len(self.entries@[i].0@) == self.entries@[i].1.items@.len(),
    {
        let k = self.entries@[i].0@;
        assert(self.has_key(k));
        self.lemma_key_unique(kl, vl, i, k);
        assert(self.key_at(k) == i);
    }
}

} // verus!
