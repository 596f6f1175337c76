//! A persistent mapping from content digests to blobs.
//!
//! Blobs are keyed by the SHA-256 digest of their bytes in a PATCH under
//! the identity ordering with a single segment.  `keep` retains the blobs
//! whose digest stands as the value of some triple: deliberately
//! conservative and type-agnostic, so that an attacker cannot starve the
//! collector by writing values that merely look like foreign digests.

use vstd::prelude::*;

use crate::errors::BlobParseError;
use crate::keys::KeyShape;
use crate::patch::{Entry, Patch};
use crate::trible::TribleSet;

verus! {

/// Digest of a byte string: SHA-256.
pub uninterp spec fn sha256_of(data: Seq<u8>) -> Seq<u8>;

/// Relies on sha2's `Sha256` through the `Digest` trait: the digest is a
/// pure function of the hashed bytes, 32 bytes long.
#[verifier::external_body]
fn sha256(data: &Vec<u8>) -> (r: Vec<u8>)
    ensures
        r@ == sha256_of(data@),
        r@.len() == 32,
{
    let d = <sha2::Sha256 as sha2::digest::Digest>::digest(data.as_slice());
    d.as_slice().to_vec()
}

/// A typed handle to a stored blob: its content digest.
pub struct Handle {
    pub hash: Vec<u8>,
}

impl Handle {
    pub open spec fn wf(self) -> bool {
        self.hash@.len() == 32
    }

    pub fn new(hash: Vec<u8>) -> (r: Handle)
        requires
            hash@.len() == 32,
        ensures
            r.wf(),
            r.hash@ == hash@,
    {
        Handle { hash }
    }
}

/// A value that can pass through blob storage.
pub trait Bloblike: Sized {
    /// The bytes this value serialises to.
    spec fn blob_spec(&self) -> Seq<u8>;

    fn into_blob(self) -> (b: Vec<u8>)
        ensures
            b@ == self.blob_spec(),
    ;

    fn from_blob(b: Vec<u8>) -> (r: Result<Self, BlobParseError>)
        ensures
            r matches Ok(t) ==> t.blob_spec() == b@,
    ;
}

impl Bloblike for Vec<u8> {
    open spec fn blob_spec(&self) -> Seq<u8> {
        self@
    }

    fn into_blob(self) -> (b: Vec<u8>) {
        self
    }

    /// Raw bytes decode as themselves: always, and unchanged.
    fn from_blob(b: Vec<u8>) -> (r: Result<Self, BlobParseError>)
        ensures
            r matches Ok(t) && t@ == b@,
    {
        Ok(b)
    }
}

/// The identity ordering over 32-byte keys, with one segment.
fn identity_shape() -> (s: KeyShape)
    ensures
        s.wf(),
        s.key_len() == 32,
        forall|i: int| 0 <= i < 32 ==> (#[trigger] s.perm@[i]) == i,
{
    let mut perm: Vec<usize> = Vec::new();
    let mut inv: Vec<usize> = Vec::new();
    let mut seg: Vec<usize> = Vec::new();
    let mut i: usize = 0;
    while i < 32
        invariant
            0 <= i <= 32,
            perm@.len() == i,
            inv@.len() == i,
            seg@.len() == i,
            forall|j: int| 0 <= j < i ==> (#[trigger] perm@[j]) == j,
            forall|j: int| 0 <= j < i ==> (#[trigger] inv@[j]) == j,
            forall|j: int| 0 <= j < i ==> (#[trigger] seg@[j]) == 0,
        decreases 32 - i,
    {
        perm.push(i);
        inv.push(i);
        seg.push(0);
        i += 1;
    }
    let s = KeyShape { perm, perm_inv: inv, seg };
    proof {
        assert(s.wf());
    }
    s
}

/// A persistent mapping from digests to blobs.
pub struct BlobSet {
    pub blobs: Patch,
}

impl BlobSet {
    pub open spec fn wf(self) -> bool {
        &&& self.blobs.wf()
        &&& self.blobs.shape.key_len() == 32
        &&& forall|i: int|
            0 <= i < 32 ==> (#[trigger] self.blobs.shape.perm@[i]) == i
        &&& forall|k: Seq<u8>|
            #[trigger] self.blobs.key_set().contains(k) ==> k == sha256_of(self.blobs.pay()[k])
    }

    /// The digests stored.
    pub open spec fn digests(self) -> Set<Seq<u8>> {
        self.blobs.key_set()
    }

    /// The digest-to-blob mapping.
    pub open spec fn contents(self) -> Map<Seq<u8>, Seq<u8>> {
        self.blobs.pay()
    }

    pub fn new() -> (r: BlobSet)
        ensures
            r.wf(),
            r.digests() =~= Set::<Seq<u8>>::empty(),
    {
        BlobSet { blobs: Patch::new(identity_shape()) }
    }

    /// The number of stored blobs.
    pub fn len(&self) -> (r: u64)
        requires
            self.wf(),
        ensures
            r == self.digests().len(),
    {
        self.blobs.len()
    }

    /// Folds every blob of `other` into `self`.
    pub fn union(&mut self, other: &BlobSet)
        requires
            old(self).wf(),
            other.wf(),
        ensures
            final(self).wf(),
            final(self).digests() =~= old(self).digests().union(other.digests()),
            forall|k: Seq<u8>|
                old(self).digests().contains(k)
                    ==> final(self).contents()[k] == old(self).contents()[k],
            forall|k: Seq<u8>|
                !old(self).digests().contains(k) && other.digests().contains(k)
                    ==> final(self).contents()[k] == other.contents()[k],
    {
        proof {
            assert(self.blobs.shape.perm@ =~= other.blobs.shape.perm@);
        }
        self.blobs.union(&other.blobs);
    }

    /// Stores raw bytes under their digest and returns the digest.
    /// Storing bytes whose digest is already present changes nothing.
    pub fn put_raw(&mut self, blob: Vec<u8>) -> (h: Vec<u8>)
        requires
            old(self).wf(),
        ensures
            final(self).wf(),
            h@ == sha256_of(blob@),
            h@.len() == 32,
            final(self).digests() =~= old(self).digests().insert(h@),
            !old(self).digests().contains(h@)
                ==> final(self).contents() == old(self).contents().insert(h@, blob@),
            old(self).digests().contains(h@) ==> final(self).contents() == old(self).contents(),
    {
        let digest = sha256(&blob);
        let ghost gblob = blob@;
        let entry = Entry::new(digest.clone(), blob);
        self.blobs.insert(&entry);
        proof {
            assert forall|k: Seq<u8>|
                #[trigger] self.blobs.key_set().contains(k) implies k == sha256_of(
                self.blobs.pay()[k],
            ) by {
                if k == entry.key@ && !old(self).blobs.key_set().contains(k) {
                    assert(self.blobs.pay()[k] == gblob);
                }
            }
        }
        digest
    }

    /// Serialises a value, stores it, and returns its typed handle.
    pub fn put<T: Bloblike>(&mut self, value: T) -> (h: Handle)
        requires
            old(self).wf(),
        ensures
            final(self).wf(),
            h.wf(),
            h.hash@ == sha256_of(value.blob_spec()),
            final(self).digests() =~= old(self).digests().insert(h.hash@),
            !old(self).digests().contains(h.hash@)
                ==> final(self).contents() == old(self).contents().insert(
                h.hash@,
                value.blob_spec(),
            ),
            old(self).digests().contains(h.hash@)
                ==> final(self).contents() == old(self).contents(),
    {
        let blob = value.into_blob();
        let d = self.put_raw(blob);
        Handle::new(d)
    }

    /// The raw bytes stored under a digest.
    pub fn get_raw(&self, hash: &Vec<u8>) -> (r: Option<&Vec<u8>>)
        requires
            self.wf(),
            hash@.len() == 32,
        ensures
            match r {
                Some(b) => self.digests().contains(hash@) && b@ == self.contents()[hash@],
                None => !self.digests().contains(hash@),
            },
    {
        self.blobs.get(hash)
    }

    /// Looks a handle up and decodes the blob.
    pub fn get<T: Bloblike>(&self, handle: &Handle) -> (r: Option<Result<T, BlobParseError>>)
        requires
            self.wf(),
            handle.wf(),
        ensures
            match r {
                Some(p) => self.digests().contains(handle.hash@) && (p matches Ok(t) ==> t
                    .blob_spec() == self.contents()[handle.hash@]),
                None => !self.digests().contains(handle.hash@),
            },
    {
        match self.get_raw(&handle.hash) {
            Some(b) => Some(T::from_blob(b.clone())),
            None => None,
        }
    }

    /// Every (digest, blob) pair, ascending by digest.
    pub fn each_raw(&self) -> (r: Vec<(Vec<u8>, Vec<u8>)>)
        requires
            self.wf(),
        ensures
            forall|x: int, y: int|
                0 <= x < y < r@.len() ==> crate::keys::lex_lt(
                    (#[trigger] r@[x]).0@,
                    (#[trigger] r@[y]).0@,
                ),
            forall|x: int|
                0 <= x < r@.len() ==> self.digests().contains((#[trigger] r@[x]).0@) && r@[x].1@
                    == self.contents()[r@[x].0@],
            forall|k: Seq<u8>|
                #[trigger] self.digests().contains(k) ==> exists|x: int|
                    0 <= x < r@.len() && (#[trigger] r@[x]).0@ == k,
    {
        let n = self.blobs.keys.len();
        let mut r: Vec<(Vec<u8>, Vec<u8>)> = Vec::new();
        let mut i: usize = 0;
        while i < n
            invariant
                self.wf(),
                n == self.blobs.keys@.len(),
                0 <= i <= n,
                r@.len() == i,
                forall|x: int|
                    0 <= x < i ==> (#[trigger] r@[x]).0@ == self.blobs.keys_seq()[x] && r@[x].1@
                        == self.blobs.vals@[x]@,
            decreases n - i,
        {
            proof {
                assert(self.blobs.keys_seq()[i as int] == self.blobs.keys@[i as int]@);
            }
            r.push((self.blobs.keys[i].clone(), self.blobs.vals[i].clone()));
            i += 1;
        }
        proof {
            assert forall|x: int, y: int|
                0 <= x < y < r@.len() implies crate::keys::lex_lt(
                (#[trigger] r@[x]).0@,
                (#[trigger] r@[y]).0@,
            ) by {
                // the ordering is the identity, so stored order is byte order
                assert(self.blobs.shape.ord(self.blobs.keys_seq()[x])
                    =~= self.blobs.keys_seq()[x]);
                assert(self.blobs.shape.ord(self.blobs.keys_seq()[y])
                    =~= self.blobs.keys_seq()[y]);
            }
            assert forall|x: int|
                0 <= x < r@.len() implies self.digests().contains((#[trigger] r@[x]).0@) && r@[
            x].1@ == self.contents()[r@[x].0@] by {
                assert(self.blobs.keys_seq().contains(self.blobs.keys_seq()[x]));
                self.blobs.lemma_idx_of(self.blobs.keys_seq()[x]);
            }
            assert forall|k: Seq<u8>| #[trigger] self.digests().contains(k) implies exists|x: int|
                0 <= x < r@.len() && (#[trigger] r@[x]).0@ == k by {
                self.blobs.lemma_idx_of(k);
                let x = self.blobs.idx_of(k);
                assert(r@[x].0@ == k);
            }
        }
        r
    }

    /// Retains the blobs whose digest stands as the value of some triple:
    /// conservative on purpose, whatever the attribute's declared type.
    pub fn keep(&self, tribles: &TribleSet) -> (r: BlobSet)
        requires
            self.wf(),
            tribles.wf(),
        ensures
            r.wf(),
            forall|k: Seq<u8>|
                #[trigger] r.digests().contains(k) == (self.digests().contains(k) && exists|
                    t: Seq<u8>,
                |
                    #[trigger] tribles.contents().contains(t) && t.subrange(32, 64) == k),
            forall|k: Seq<u8>|
                #[trigger] r.digests().contains(k) ==> r.contents()[k] == self.contents()[k],
            r.digests().len() <= self.digests().len(),
    {
        let n = self.blobs.keys.len();
        let mut r = BlobSet::new();
        let mut i: usize = 0;
        while i < n
            invariant
                self.wf(),
                tribles.wf(),
                r.wf(),
                n == self.blobs.keys@.len(),
                0 <= i <= n,
                forall|k: Seq<u8>|
                    #[trigger] r.digests().contains(k) == (exists|j: int|
                        0 <= j < i && (#[trigger] self.blobs.keys_seq()[j]) == k && exists|
                            t: Seq<u8>,
                        |
                            #[trigger] tribles.contents().contains(t) && t.subrange(32, 64) == k),
                forall|k: Seq<u8>|
                    #[trigger] r.digests().contains(k) ==> self.digests().contains(k)
                        && r.contents()[k] == self.contents()[k],
            decreases n - i,
        {
            proof {
                assert(self.blobs.keys_seq()[i as int] == self.blobs.keys@[i as int]@);
                assert(self.blobs.keys_seq().contains(self.blobs.keys_seq()[i as int]));
                assert(self.digests().contains(self.blobs.keys_seq()[i as int]));
            }
            let ghost k0 = self.blobs.keys_seq()[i as int];
            let ghost rpre = r;
            let matched = tribles.vae.has_prefix(&self.blobs.keys[i]);
            proof {
                // on the VAE index a 32-byte prefix is exactly the value field
                assert(matched == exists|t: Seq<u8>|
                    #[trigger] tribles.contents().contains(t) && t.subrange(32, 64) == k0) by {
                    if matched {
                        let t = choose|t: Seq<u8>|
                            #[trigger] tribles.vae.key_set().contains(t)
                                && tribles.vae.shape.matches(t, k0);
                        crate::triblesetconstraint::lemma_vae_prefix(tribles.vae.shape, t, k0);
                        assert(tribles.contents().contains(t) && t.subrange(32, 64) == k0);
                    } else {
                        if exists|t: Seq<u8>|
                            #[trigger] tribles.contents().contains(t) && t.subrange(32, 64) == k0 {
                            let t = choose|t: Seq<u8>|
                                #[trigger] tribles.contents().contains(t) && t.subrange(32, 64)
                                    == k0;
                            assert(tribles.vae.key_set().contains(t));
                            crate::triblesetconstraint::lemma_vae_prefix(tribles.vae.shape, t, k0);
                        }
                    }
                }
            }
            if matched {
                let entry = Entry::new(self.blobs.keys[i].clone(), self.blobs.vals[i].clone());
                proof {
                    self.blobs.lemma_idx_of(k0);
                    assert(self.blobs.idx_of(k0) == i as int);
                    assert(self.blobs.vals@[i as int]@ == self.contents()[k0]);
                }
                r.blobs.insert(&entry);
                proof {
                    assert forall|k: Seq<u8>|
                        #[trigger] r.digests().contains(k) implies self.digests().contains(k)
                            && r.contents()[k] == self.contents()[k] by {
                        if k == k0 {
                            if rpre.digests().contains(k0) {
                                assert(r.contents()[k] == rpre.contents()[k]);
                            } else {
                                assert(r.contents()[k] == self.contents()[k0]);
                            }
                        } else {
                            assert(rpre.digests().contains(k));
                        }
                    }
                    assert forall|k: Seq<u8>|
                        #[trigger] r.digests().contains(k) == (exists|j: int|
                            0 <= j < i + 1 && (#[trigger] self.blobs.keys_seq()[j]) == k && exists|
                                t: Seq<u8>,
                            |
                                #[trigger] tribles.contents().contains(t) && t.subrange(32, 64)
                                    == k) by {
                        if r.digests().contains(k) {
                            if k == k0 {
                                assert(self.blobs.keys_seq()[i as int] == k);
                            } else {
                                assert(rpre.digests().contains(k));
                            }
                        } else {
                            assert(!rpre.digests().contains(k) && k != k0);
                        }
                    }
                }
            } else {
                proof {
                    assert forall|k: Seq<u8>|
                        #[trigger] r.digests().contains(k) == (exists|j: int|
                            0 <= j < i + 1 && (#[trigger] self.blobs.keys_seq()[j]) == k && exists|
                                t: Seq<u8>,
                            |
                                #[trigger] tribles.contents().contains(t) && t.subrange(32, 64)
                                    == k) by {
                        if !r.digests().contains(k) {
                            if exists|j: int|
                                0 <= j < i + 1 && (#[trigger] self.blobs.keys_seq()[j]) == k
                                    && exists|t: Seq<u8>|
                                    #[trigger] tribles.contents().contains(t) && t.subrange(32, 64)
                                        == k {
                                let j = choose|j: int|
                                    0 <= j < i + 1 && (#[trigger] self.blobs.keys_seq()[j]) == k
                                        && exists|t: Seq<u8>|
                                        #[trigger] tribles.contents().contains(t) && t.subrange(
                                            32,
                                            64,
                                        ) == k;
                                assert(j < i);
                            }
                        }
                    }
                }
            }
            i += 1;
        }
        proof {
            assert forall|k: Seq<u8>|
                #[trigger] r.digests().contains(k) == (self.digests().contains(k) && exists|
                    t: Seq<u8>,
                |
                    #[trigger] tribles.contents().contains(t) && t.subrange(32, 64) == k) by {
                if self.digests().contains(k) {
                    self.blobs.lemma_idx_of(k);
                }
            }
            self.blobs.lemma_distinct();
            r.blobs.lemma_distinct();
            assert(r.digests().subset_of(self.digests()));
            vstd::set_lib::lemma_len_subset(r.digests(), self.digests());
        }
        r
    }
}

} // verus!
