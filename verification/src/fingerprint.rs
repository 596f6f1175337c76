//! The commutative fingerprint.
//!
//! Every key is fingerprinted by SipHash-2-4 under one fixed 128-bit key
//! baked into the build; a set of keys is fingerprinted by the XOR of the
//! members' fingerprints.  XOR makes the set fingerprint independent of
//! insertion order and cheap to combine across disjoint sets.

use vstd::prelude::*;

verus! {

/// Fingerprint of one key: SipHash-2-4 of its bytes under the build's fixed key.
pub uninterp spec fn sip_hash_of(key: Seq<u8>) -> u128;

/// Relies on siphasher's `SipHasher24` (the 128-bit `sip128` variant): the
/// result is a pure function of the hashed bytes and of the hasher key, which
/// is fixed here.
#[verifier::external_body]
pub(crate) fn sip_hash(key: &Vec<u8>) -> (r: u128)
    ensures
        r == sip_hash_of(key@),
{
    let sip_key: [u8; 16] = [31, 41, 59, 26, 53, 58, 97, 93, 23, 84, 62, 64, 33, 83, 27, 95];
    let mut hasher = siphasher::sip128::SipHasher24::new_with_key(&sip_key);
    std::hash::Hasher::write(&mut hasher, key.as_slice());
    siphasher::sip128::Hasher128::finish128(&hasher).as_u128()
}

/// XOR of the fingerprints of the members of `s`.
pub open spec fn set_hash(s: Set<Seq<u8>>) -> u128
    decreases s.len(),
    when s.finite()
{
    if s.len() == 0 {
        0
    } else {
        let k = s.choose();
        sip_hash_of(k) ^ set_hash(s.remove(k))
    }
}

proof fn lemma_xor_comm(a: u128, b: u128)
    ensures
        a ^ b == b ^ a,
{
    assert(a ^ b == b ^ a) by (bit_vector);
}

proof fn lemma_xor_shuffle(a: u128, b: u128, h: u128)
    ensures
        a ^ (b ^ h) == b ^ (a ^ h),
{
    assert(a ^ (b ^ h) == b ^ (a ^ h)) by (bit_vector);
}

proof fn lemma_xor_zero(a: u128)
    ensures
        a ^ 0 ^ 0 == a,
{
    assert(a ^ 0 ^ 0 == a) by (bit_vector);
}

proof fn lemma_xor_shared(x: u128, y: u128, z: u128, k: u128)
    ensures
        x ^ y ^ z == x ^ (k ^ y) ^ (z ^ k),
{
    assert(x ^ y ^ z == x ^ (k ^ y) ^ (z ^ k)) by (bit_vector);
}

proof fn lemma_xor_fresh(x: u128, y: u128, z: u128, k: u128)
    ensures
        (x ^ y ^ z) ^ k == x ^ (k ^ y) ^ z,
{
    assert((x ^ y ^ z) ^ k == x ^ (k ^ y) ^ z) by (bit_vector);
}

/// Removing any member `c` splits the set fingerprint as an XOR.
pub proof fn lemma_set_hash_remove(s: Set<Seq<u8>>, c: Seq<u8>)
    requires
        s.finite(),
        s.contains(c),
    ensures
        set_hash(s) == sip_hash_of(c) ^ set_hash(s.remove(c)),
    decreases s.len(),
{
    if s.len() == 0 {
        assert(s =~= Set::empty());
    }
    let x = s.choose();
    assert(s.contains(x));
    if x == c {
    } else {
        let s1 = s.remove(x);
        let s2 = s.remove(c);
        lemma_set_hash_remove(s1, c);
        lemma_set_hash_remove(s2, x);
        assert(s1.remove(c) =~= s2.remove(x));
        lemma_xor_shuffle(sip_hash_of(x), sip_hash_of(c), set_hash(s1.remove(c)));
    }
}

/// Inserting a fresh key XORs its fingerprint into the set fingerprint.
pub proof fn lemma_set_hash_insert(s: Set<Seq<u8>>, k: Seq<u8>)
    requires
        s.finite(),
        !s.contains(k),
    ensures
        set_hash(s.insert(k)) == set_hash(s) ^ sip_hash_of(k),
{
    lemma_set_hash_remove(s.insert(k), k);
    assert(s.insert(k).remove(k) =~= s);
    lemma_xor_comm(sip_hash_of(k), set_hash(s));
}

/// Inclusion–exclusion under XOR: the fingerprint of a union is the XOR of
/// both fingerprints and of the intersection's fingerprint (shared keys would
/// otherwise cancel).
pub proof fn lemma_set_hash_union(a: Set<Seq<u8>>, b: Set<Seq<u8>>)
    requires
        a.finite(),
        b.finite(),
    ensures
        set_hash(a.union(b)) == set_hash(a) ^ set_hash(b) ^ set_hash(a.intersect(b)),
    decreases b.len(),
{
    if b.len() == 0 {
        assert(b =~= Set::empty());
        assert(a.union(b) =~= a);
        assert(a.intersect(b) =~= Set::<Seq<u8>>::empty());
        lemma_xor_zero(set_hash(a));
    } else {
        let k = b.choose();
        assert(b.contains(k));
        let b1 = b.remove(k);
        lemma_set_hash_union(a, b1);
        lemma_set_hash_remove(b, k);
        if a.contains(k) {
            assert(a.union(b) =~= a.union(b1));
            assert(a.intersect(b) =~= a.intersect(b1).insert(k));
            assert(!a.intersect(b1).contains(k));
            vstd::set_lib::lemma_len_subset(a.intersect(b1), a);
            lemma_set_hash_insert(a.intersect(b1), k);
            lemma_xor_shared(
                set_hash(a),
                set_hash(b1),
                set_hash(a.intersect(b1)),
                sip_hash_of(k),
            );
        } else {
            assert(a.union(b) =~= a.union(b1).insert(k));
            assert(!a.union(b1).contains(k));
            vstd::set_lib::lemma_set_union_finite_iff(a, b1);
            lemma_set_hash_insert(a.union(b1), k);
            assert(a.intersect(b) =~= a.intersect(b1));
            lemma_xor_fresh(
                set_hash(a),
                set_hash(b1),
                set_hash(a.intersect(b1)),
                sip_hash_of(k),
            );
        }
    }
}

} // verus!
