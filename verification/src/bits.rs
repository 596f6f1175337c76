//! A 256-bit set of variable identifiers.

use vstd::prelude::*;

verus! {

/// A fixed 256-slot bitset, abstractly a finite set of `u8`.
pub struct ByteBitset {
    pub bits: Vec<bool>,
}

impl View for ByteBitset {
    type V = Set<u8>;

    open spec fn view(&self) -> Set<u8> {
        Set::new(|v: u8| self.bits@[v as int])
    }
}

impl ByteBitset {
    pub open spec fn wf(self) -> bool {
        self.bits@.len() == 256
    }

    /// Any value of this type denotes a finite set.
    pub proof fn lemma_finite(self)
        ensures
            self@.finite(),
    {
        broadcast use vstd::set_lib::full_set_properties;

        vstd::set_lib::lemma_set_subset_finite(Set::<u8>::full(), self@);
    }

    pub fn new_empty() -> (r: ByteBitset)
        ensures
            r.wf(),
            r@ =~= Set::<u8>::empty(),
    {
        let mut bits: Vec<bool> = Vec::new();
        let mut i: usize = 0;
        while i < 256
            invariant
                0 <= i <= 256,
                bits@.len() == i,
                forall|j: int| 0 <= j < i ==> !(#[trigger] bits@[j]),
            decreases 256 - i,
        {
            bits.push(false);
            i += 1;
        }
        ByteBitset { bits }
    }

    pub fn new_singleton(v: u8) -> (r: ByteBitset)
        ensures
            r.wf(),
            r@ =~= Set::<u8>::empty().insert(v),
    {
        let mut r = ByteBitset::new_empty();
        r.set(v);
        proof {
            assert(r@ =~= Set::<u8>::empty().insert(v));
        }
        r
    }

    pub fn set(&mut self, v: u8)
        requires
            old(self).wf(),
        ensures
            final(self).wf(),
            final(self)@ == old(self)@.insert(v),
    {
        self.bits[v as usize] = true;
        proof {
            assert(self@ =~= old(self)@.insert(v));
        }
    }

    pub fn unset(&mut self, v: u8)
        requires
            old(self).wf(),
        ensures
            final(self).wf(),
            final(self)@ == old(self)@.remove(v),
    {
        self.bits[v as usize] = false;
        proof {
            assert(self@ =~= old(self)@.remove(v));
        }
    }

    pub fn is_set(&self, v: u8) -> (r: bool)
        requires
            self.wf(),
        ensures
            r == self@.contains(v),
    {
        self.bits[v as usize]
    }

    /// The members of `self` that are not members of `other`.
    pub fn subtract(&self, other: &ByteBitset) -> (r: ByteBitset)
        requires
            self.wf(),
            other.wf(),
        ensures
            r.wf(),
            r@ == self@.difference(other@),
    {
        let mut bits: Vec<bool> = Vec::new();
        let mut i: usize = 0;
        while i < 256
            invariant
                0 <= i <= 256,
                self.wf(),
                other.wf(),
                bits@.len() == i,
                forall|j: int|
                    0 <= j < i ==> (#[trigger] bits@[j]) == (self.bits@[j] && !other.bits@[j]),
            decreases 256 - i,
        {
            bits.push(self.bits[i] && !other.bits[i]);
            i += 1;
        }
        let r = ByteBitset { bits };
        proof {
            assert(r@ =~= self@.difference(other@));
        }
        r
    }

    /// The members of either set.
    pub fn union_with(&self, other: &ByteBitset) -> (r: ByteBitset)
        requires
            self.wf(),
            other.wf(),
        ensures
            r.wf(),
            r@ == self@.union(other@),
    {
        let mut bits: Vec<bool> = Vec::new();
        let mut i: usize = 0;
        while i < 256
            invariant
                0 <= i <= 256,
                self.wf(),
                other.wf(),
                bits@.len() == i,
                forall|j: int|
                    0 <= j < i ==> (#[trigger] bits@[j]) == (self.bits@[j] || other.bits@[j]),
            decreases 256 - i,
        {
            bits.push(self.bits[i] || other.bits[i]);
            i += 1;
        }
        let r = ByteBitset { bits };
        proof {
            assert(r@ =~= self@.union(other@));
        }
        r
    }
}

impl ByteBitset {
    /// The least member at or above `from`, scanning ascending.
    pub fn find_first_set(&self, from: usize) -> (r: Option<u8>)
        requires
            self.wf(),
        ensures
            match r {
                Some(v) => self@.contains(v) && v >= from && forall|w: u8|
                    self@.contains(w) && w >= from ==> v <= w,
                None => forall|w: u8| w >= from ==> !self@.contains(w),
            },
    {
        if from >= 256 {
            return None;
        }
        let mut i: usize = from;
        while i < 256
            invariant
                self.wf(),
                from <= i <= 256,
                forall|w: u8| from <= w < i ==> !self@.contains(w),
            decreases 256 - i,
        {
            if self.bits[i] {
                return Some(i as u8);
            }
            i += 1;
        }
        None
    }

    /// The greatest member, if any.
    pub fn find_last_set(&self) -> (r: Option<u8>)
        requires
            self.wf(),
        ensures
            match r {
                Some(v) => self@.contains(v) && forall|w: u8| self@.contains(w) ==> w <= v,
                None => forall|w: u8| !self@.contains(w),
            },
    {
        let mut i: usize = 256;
        while i > 0
            invariant
                self.wf(),
                0 <= i <= 256,
                forall|w: u8| w >= i ==> !self@.contains(w),
            decreases i,
        {
            i -= 1;
            if self.bits[i] {
                return Some(i as u8);
            }
        }
        None
    }
}

} // verus!
