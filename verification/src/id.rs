//! 16-byte identifiers and their embedding into 32-byte values.
//!
//! An id is carried inside a value as its low 16 bytes: the first 16 bytes
//! of the value are zero, the id follows.

use vstd::prelude::*;

verus! {

/// The 16 zero bytes that precede an embedded id.
pub open spec fn zero16() -> Seq<u8> {
    Seq::new(16, |i: int| 0u8)
}

/// Whether the 32-byte value `v` carries an embedded 16-byte id.
pub open spec fn embedded_id(v: Seq<u8>) -> bool {
    v.len() == 32 && forall|i: int| 0 <= i < 16 ==> v[i] == 0
}

/// The id carried by the value `v`.
pub open spec fn id_of(v: Seq<u8>) -> Seq<u8> {
    v.subrange(16, 32)
}

/// The value that carries `id`.
pub open spec fn value_of_id(id: Seq<u8>) -> Seq<u8> {
    zero16() + id
}

/// An embedded value is exactly the embedding of its id.
pub proof fn lemma_embedded_id(v: Seq<u8>)
    requires
        embedded_id(v),
    ensures
        v == value_of_id(id_of(v)),
{
    assert(v =~= value_of_id(id_of(v)));
}

/// Embeds a 16-byte id as the low half of a 32-byte value.
pub fn id_into_value(id: &Vec<u8>) -> (r: Vec<u8>)
    requires
        id@.len() == 16,
    ensures
        r@ == value_of_id(id@),
        embedded_id(r@),
        id_of(r@) == id@,
{
    let mut r: Vec<u8> = Vec::new();
    let mut i: usize = 0;
    while i < 16
        invariant
            0 <= i <= 16,
            r@.len() == i,
            forall|j: int| 0 <= j < i ==> r@[j] == 0,
        decreases 16 - i,
    {
        r.push(0);
        i += 1;
    }
    let mut i: usize = 0;
    while i < 16
        invariant
            0 <= i <= 16,
            id@.len() == 16,
            r@.len() == 16 + i,
            forall|j: int| 0 <= j < 16 ==> r@[j] == 0,
            forall|j: int| 0 <= j < i ==> r@[16 + j] == id@[j],
        decreases 16 - i,
    {
        r.push(id[i]);
        i += 1;
    }
    proof {
        assert(r@ =~= value_of_id(id@));
        assert(id_of(r@) =~= id@);
    }
    r
}

/// Extracts the id carried by a 32-byte value.
pub fn id_from_value(v: &Vec<u8>) -> (r: Vec<u8>)
    requires
        v@.len() == 32,
    ensures
        r@ == id_of(v@),
{
    let mut r: Vec<u8> = Vec::new();
    let mut i: usize = 16;
    while i < 32
        invariant
            16 <= i <= 32,
            v@.len() == 32,
            r@.len() == i - 16,
            forall|j: int| 0 <= j < i - 16 ==> r@[j] == v@[16 + j],
        decreases 32 - i,
    {
        r.push(v[i]);
        i += 1;
    }
    proof {
        assert(r@ =~= id_of(v@));
    }
    r
}

/// Whether `v` carries an embedded id.
pub fn is_embedded_id(v: &Vec<u8>) -> (r: bool)
    ensures
        r == embedded_id(v@),
{
    if v.len() != 32 {
        return false;
    }
    let mut i: usize = 0;
    while i < 16
        invariant
            0 <= i <= 16,
            v@.len() == 32,
            forall|j: int| 0 <= j < i ==> v@[j] == 0,
        decreases 16 - i,
    {
        if v[i] != 0 {
            return false;
        }
        i += 1;
    }
    true
}

/// Relies on rand's thread-local generator (`rand::rng`) and
/// `fill_bytes`: draws 16 bytes.  Nothing is promised of the drawn values,
/// only of their number.
#[verifier::external_body]
pub fn idgen() -> (r: Vec<u8>)
    ensures
        r@.len() == 16,
{
    let mut rng = rand::rng();
    let mut id: Vec<u8> = vec![0; 16];
    rand::Rng::fill_bytes(&mut rng, id.as_mut_slice());
    id
}

/// The embedding of an id is embedded, and carries that id.
pub proof fn lemma_value_of_id(id: Seq<u8>)
    requires
        id.len() == 16,
    ensures
        embedded_id(value_of_id(id)),
        id_of(value_of_id(id)) == id,
{
    assert(id_of(value_of_id(id)) =~= id);
}

} // verus!
