//! Key orderings and segmentations.
//!
//! A PATCH indexes fixed-length byte keys under a compile-chosen permutation
//! of byte positions (the ordering) and a partition of those positions into
//! contiguous ranges (the segmentation).  Both are carried here as explicit
//! tables with a well-formedness invariant.

use vstd::prelude::*;

verus! {

/// Strict lexicographic order on equal-length byte sequences.
pub open spec fn lex_lt(a: Seq<u8>, b: Seq<u8>) -> bool
    decreases a.len(),
{
    if a.len() == 0 || b.len() == 0 {
        false
    } else if a[0] < b[0] {
        true
    } else if a[0] > b[0] {
        false
    } else {
        lex_lt(a.drop_first(), b.drop_first())
    }
}

pub proof fn lemma_lex_lt_ne(a: Seq<u8>, b: Seq<u8>)
    requires
        lex_lt(a, b),
    ensures
        a != b,
    decreases a.len(),
{
    if a[0] < b[0] {
        if a == b {
            assert(a[0] == b[0]);
        }
    } else {
        lemma_lex_lt_ne(a.drop_first(), b.drop_first());
        if a == b {
            assert(a.drop_first() == b.drop_first());
        }
    }
}

pub proof fn lemma_lex_lt_trans(a: Seq<u8>, b: Seq<u8>, c: Seq<u8>)
    requires
        a.len() == b.len(),
        b.len() == c.len(),
        lex_lt(a, b),
        lex_lt(b, c),
    ensures
        lex_lt(a, c),
    decreases a.len(),
{
    if a[0] == b[0] && b[0] == c[0] {
        lemma_lex_lt_trans(a.drop_first(), b.drop_first(), c.drop_first());
    }
}

/// If `a` and `b` agree on positions `[0, i)` and `a[i] < b[i]`, then `a`
/// precedes `b` lexicographically.
pub proof fn lemma_lex_lt_point(a: Seq<u8>, b: Seq<u8>, i: int)
    requires
        a.len() == b.len(),
        0 <= i < a.len(),
        forall|j: int| 0 <= j < i ==> a[j] == b[j],
        a[i] < b[i],
    ensures
        lex_lt(a, b),
    decreases i,
{
    if i > 0 {
        lemma_lex_lt_point(a.drop_first(), b.drop_first(), i - 1);
    }
}

/// The byte-position permutation and segmentation of one PATCH instance.
///
/// `perm[i]` gives the key-space position read at ordering depth `i`;
/// `perm_inv` is its inverse; `seg[p]` gives the segment of key position `p`.
pub struct KeyShape {
    pub perm: Vec<usize>,
    pub perm_inv: Vec<usize>,
    pub seg: Vec<usize>,
}

impl KeyShape {
    pub open spec fn key_len(self) -> int {
        self.perm@.len() as int
    }

    pub open spec fn wf(self) -> bool {
        &&& self.perm@.len() == self.perm_inv@.len()
        &&& self.perm@.len() == self.seg@.len()
        &&& self.perm@.len() >= 1
        &&& forall|i: int|
            0 <= i < self.key_len() ==> (#[trigger] self.perm@[i]) < self.perm@.len()
        &&& forall|i: int|
            0 <= i < self.key_len() ==> (#[trigger] self.perm_inv@[i]) < self.perm@.len()
        &&& forall|i: int|
            0 <= i < self.key_len() ==> self.perm_inv@[#[trigger] self.perm@[i] as int] == i
        &&& forall|i: int|
            0 <= i < self.key_len() ==> self.perm@[#[trigger] self.perm_inv@[i] as int] == i
        &&& forall|i: int, j: int|
            0 <= i <= j < self.key_len() ==> (#[trigger] self.seg@[self.perm@[i] as int])
                <= (#[trigger] self.seg@[self.perm@[j] as int])
    }

    /// Whether `k` has the right length for this shape.
    pub open spec fn key_ok(self, k: Seq<u8>) -> bool {
        k.len() == self.perm@.len()
    }

    /// The bytes of `k` read in ordering space.
    pub open spec fn ord(self, k: Seq<u8>) -> Seq<u8> {
        Seq::new(self.perm@.len(), |i: int| k[self.perm@[i] as int])
    }

    /// Whether the key `k` begins with `p` in ordering space.
    pub open spec fn matches(self, k: Seq<u8>, p: Seq<u8>) -> bool {
        p.len() <= self.perm@.len() && p == self.ord(k).subrange(0, p.len() as int)
    }

    /// The segment that ordering depth `d` falls in.
    pub open spec fn seg_of(self, d: int) -> int {
        self.seg@[self.perm@[d] as int] as int
    }

    /// The ordering depth at which the segment containing depth `d` ends.
    pub open spec fn seg_end_from(self, d: int) -> int
        decreases self.key_len() - d,
        when 0 <= d < self.key_len()
    {
        if d + 1 == self.key_len() || self.seg_of(d + 1) != self.seg_of(d) {
            d + 1
        } else {
            self.seg_end_from(d + 1)
        }
    }
}

/// Any depth with the three characteristic properties of a segment end is
/// `seg_end_from`.
pub proof fn lemma_seg_end_char(s: KeyShape, d: int, e: int)
    requires
        s.wf(),
        0 <= d < s.key_len(),
        d < e <= s.key_len(),
        forall|j: int| d <= j < e ==> s.seg_of(j) == s.seg_of(d),
        e < s.key_len() ==> s.seg_of(e) != s.seg_of(d),
    ensures
        e == s.seg_end_from(d),
    decreases e - d,
{
    if d + 1 == e {
    } else {
        assert(s.seg_of(d + 1) == s.seg_of(d));
        lemma_seg_end_char(s, d + 1, e);
    }
}

/// Keys with equal ordering-space images are equal.
pub proof fn lemma_ord_injective(shape: KeyShape, a: Seq<u8>, b: Seq<u8>)
    requires
        shape.wf(),
        shape.key_ok(a),
        shape.key_ok(b),
        shape.ord(a) == shape.ord(b),
    ensures
        a == b,
{
    assert forall|p: int| 0 <= p < a.len() implies a[p] == b[p] by {
        let i = shape.perm_inv@[p] as int;
        assert(shape.ord(a)[i] == a[p]);
        assert(shape.ord(b)[i] == b[p]);
    }
    assert(a =~= b);
}

/// Three-way comparison of two keys in ordering space.
/// Returns 0 when `a` precedes `b`, 1 when the keys are equal, 2 otherwise.
pub fn key_cmp(shape: &KeyShape, a: &Vec<u8>, b: &Vec<u8>) -> (r: u8)
    requires
        shape.wf(),
        shape.key_ok(a@),
        shape.key_ok(b@),
    ensures
        r <= 2,
        r == 0 ==> lex_lt(shape.ord(a@), shape.ord(b@)),
        r == 1 ==> a@ == b@,
        r == 2 ==> lex_lt(shape.ord(b@), shape.ord(a@)),
{
    let len = shape.perm.len();
    let mut i: usize = 0;
    while i < len
        invariant
            0 <= i <= len,
            len == shape.key_len(),
            shape.wf(),
            shape.key_ok(a@),
            shape.key_ok(b@),
            forall|j: int| 0 <= j < i ==> shape.ord(a@)[j] == shape.ord(b@)[j],
        decreases len - i,
    {
        let p = shape.perm[i];
        let av = a[p];
        let bv = b[p];
        if av < bv {
            proof {
                lemma_lex_lt_point(shape.ord(a@), shape.ord(b@), i as int);
            }
            return 0;
        }
        if av > bv {
            proof {
                lemma_lex_lt_point(shape.ord(b@), shape.ord(a@), i as int);
            }
            return 2;
        }
        i += 1;
    }
    proof {
        assert(shape.ord(a@) =~= shape.ord(b@));
        lemma_ord_injective(*shape, a@, b@);
    }
    1
}

/// Whether the key `k` begins with the prefix `p` in ordering space.
pub fn key_matches(shape: &KeyShape, k: &Vec<u8>, p: &Vec<u8>) -> (r: bool)
    requires
        shape.wf(),
        shape.key_ok(k@),
        p@.len() <= shape.key_len(),
    ensures
        r == shape.matches(k@, p@),
{
    let plen = p.len();
    let mut i: usize = 0;
    while i < plen
        invariant
            0 <= i <= plen,
            plen == p@.len(),
            shape.wf(),
            shape.key_ok(k@),
            p@.len() <= shape.key_len(),
            forall|j: int| 0 <= j < i ==> shape.ord(k@)[j] == p@[j],
        decreases plen - i,
    {
        if k[shape.perm[i]] != p[i] {
            proof {
                let sub = shape.ord(k@).subrange(0, p@.len() as int);
                if p@ == sub {
                    assert(p@[i as int] == sub[i as int]);
                }
            }
            return false;
        }
        i += 1;
    }
    proof {
        assert(p@ =~= shape.ord(k@).subrange(0, p@.len() as int));
    }
    true
}

/// The first ordering depth at or after `d` that starts a different segment
/// (or the key length, when the segment of `d` runs to the end).
pub fn seg_end(shape: &KeyShape, d: usize) -> (e: usize)
    requires
        shape.wf(),
        0 <= d < shape.key_len(),
    ensures
        d < e <= shape.key_len(),
        forall|j: int| d <= j < e ==> shape.seg_of(j) == shape.seg_of(d as int),
        e < shape.key_len() ==> shape.seg_of(e as int) != shape.seg_of(d as int),
{
    let len = shape.perm.len();
    let s = shape.seg[shape.perm[d]];
    let mut e: usize = d + 1;
    while e < len
        invariant
            d < e <= len,
            len == shape.key_len(),
            shape.wf(),
            d < shape.key_len(),
            s == shape.seg_of(d as int),
            forall|j: int| d <= j < e ==> shape.seg_of(j) == shape.seg_of(d as int),
        decreases len - e,
    {
        if shape.seg[shape.perm[e]] != s {
            return e;
        }
        e += 1;
    }
    e
}

/// Ordered sequences either agree on their first `e` positions or are
/// already ordered there.
pub proof fn lemma_lex_lt_subrange(a: Seq<u8>, b: Seq<u8>, e: int)
    requires
        a.len() == b.len(),
        lex_lt(a, b),
        0 <= e <= a.len(),
    ensures
        a.subrange(0, e) == b.subrange(0, e) || lex_lt(a.subrange(0, e), b.subrange(0, e)),
    decreases e,
{
    if e == 0 {
        assert(a.subrange(0, 0) =~= b.subrange(0, 0));
    } else if a[0] < b[0] {
        lemma_lex_lt_point(a.subrange(0, e), b.subrange(0, e), 0);
    } else {
        assert(a[0] == b[0]);
        lemma_lex_lt_subrange(a.drop_first(), b.drop_first(), e - 1);
        assert(a.subrange(0, e).drop_first() =~= a.drop_first().subrange(0, e - 1));
        assert(b.subrange(0, e).drop_first() =~= b.drop_first().subrange(0, e - 1));
        if a.drop_first().subrange(0, e - 1) == b.drop_first().subrange(0, e - 1) {
            assert forall|j: int| 0 <= j < e implies a.subrange(0, e)[j] == b.subrange(0, e)[j] by {
                if j > 0 {
                    assert(a.subrange(0, e).drop_first()[j - 1] == b.subrange(0, e).drop_first()[
                        j - 1
                    ]);
                }
            }
            assert(a.subrange(0, e) =~= b.subrange(0, e));
        } else {
            assert(a.subrange(0, e)[0] == b.subrange(0, e)[0]);
        }
    }
}

/// Dropping an agreed-on prefix keeps ordered sequences ordered.
pub proof fn lemma_lex_lt_skip(a: Seq<u8>, b: Seq<u8>, s: int)
    requires
        a.len() == b.len(),
        lex_lt(a, b),
        0 <= s <= a.len(),
        a.subrange(0, s) == b.subrange(0, s),
    ensures
        lex_lt(a.skip(s), b.skip(s)),
    decreases s,
{
    if s == 0 {
        assert(a.skip(0) =~= a);
        assert(b.skip(0) =~= b);
    } else {
        assert(a.subrange(0, s)[0] == b.subrange(0, s)[0]);
        assert(a.subrange(0, s)[0] == a[0]);
        assert(b.subrange(0, s)[0] == b[0]);
        assert(a[0] == b[0]);
        assert(a.drop_first().subrange(0, s - 1) =~= a.subrange(0, s).drop_first());
        assert(b.drop_first().subrange(0, s - 1) =~= b.subrange(0, s).drop_first());
        lemma_lex_lt_skip(a.drop_first(), b.drop_first(), s - 1);
        assert(a.drop_first().skip(s - 1) =~= a.skip(s));
        assert(b.drop_first().skip(s - 1) =~= b.skip(s));
    }
}

/// Whether two keys agree on ordering positions `[start, e)`.
pub fn ord_range_eq(shape: &KeyShape, a: &Vec<u8>, b: &Vec<u8>, start: usize, e: usize) -> (r:
    bool)
    requires
        shape.wf(),
        shape.key_ok(a@),
        shape.key_ok(b@),
        start <= e <= shape.key_len(),
    ensures
        r == (shape.ord(a@).subrange(start as int, e as int) == shape.ord(b@).subrange(
            start as int,
            e as int,
        )),
{
    let mut i: usize = start;
    while i < e
        invariant
            start <= i <= e,
            e <= shape.key_len(),
            shape.wf(),
            shape.key_ok(a@),
            shape.key_ok(b@),
            forall|j: int| start <= j < i ==> shape.ord(a@)[j] == shape.ord(b@)[j],
        decreases e - i,
    {
        if a[shape.perm[i]] != b[shape.perm[i]] {
            proof {
                let sa = shape.ord(a@).subrange(start as int, e as int);
                let sb = shape.ord(b@).subrange(start as int, e as int);
                if sa == sb {
                    assert(sa[i - start] == sb[i - start]);
                }
            }
            return false;
        }
        i += 1;
    }
    proof {
        assert(shape.ord(a@).subrange(start as int, e as int) =~= shape.ord(b@).subrange(
            start as int,
            e as int,
        ));
    }
    true
}

/// Copies the bytes of `k` at ordering positions `[start, start + len)`.
pub fn extract_ord_range(shape: &KeyShape, k: &Vec<u8>, start: usize, len: usize) -> (r: Vec<u8>)
    requires
        shape.wf(),
        shape.key_ok(k@),
        start + len <= shape.key_len(),
    ensures
        r@ == shape.ord(k@).subrange(start as int, start as int + len as int),
{
    let n = shape.perm.len();
    let mut r: Vec<u8> = Vec::new();
    let mut i: usize = 0;
    while i < len
        invariant
            0 <= i <= len,
            n == shape.perm@.len(),
            start + len <= n,
            shape.wf(),
            shape.key_ok(k@),
            r@.len() == i,
            forall|j: int| 0 <= j < i ==> r@[j] == shape.ord(k@)[start + j],
        decreases len - i,
    {
        r.push(k[shape.perm[start + i]]);
        i += 1;
    }
    proof {
        assert(r@ =~= shape.ord(k@).subrange(start as int, start as int + len as int));
    }
    r
}

/// Whether two byte strings are equal.
pub fn bytes_eq(a: &Vec<u8>, b: &Vec<u8>) -> (r: bool)
    ensures
        r == (a@ == b@),
{
    if a.len() != b.len() {
        proof {
            if a@ == b@ {
                assert(a@.len() == b@.len());
            }
        }
        return false;
    }
    let n = a.len();
    let mut i: usize = 0;
    while i < n
        invariant
            0 <= i <= n,
            n == a@.len(),
            n == b@.len(),
            forall|j: int| 0 <= j < i ==> a@[j] == b@[j],
        decreases n - i,
    {
        if a[i] != b[i] {
            proof {
                if a@ == b@ {
                    assert(a@[i as int] == b@[i as int]);
                }
            }
            return false;
        }
        i += 1;
    }
    proof {
        assert(a@ =~= b@);
    }
    true
}

/// Three-way comparison of two equal-length byte strings.
/// Returns 0 when `a` precedes `b`, 1 when they are equal, 2 otherwise.
pub fn bytes_cmp(a: &Vec<u8>, b: &Vec<u8>) -> (r: u8)
    requires
        a@.len() == b@.len(),
    ensures
        r <= 2,
        r == 0 ==> lex_lt(a@, b@),
        r == 1 ==> a@ == b@,
        r == 2 ==> lex_lt(b@, a@),
{
    let n = a.len();
    let mut i: usize = 0;
    while i < n
        invariant
            0 <= i <= n,
            n == a@.len(),
            n == b@.len(),
            forall|j: int| 0 <= j < i ==> a@[j] == b@[j],
        decreases n - i,
    {
        if a[i] < b[i] {
            proof {
                lemma_lex_lt_point(a@, b@, i as int);
            }
            return 0;
        }
        if a[i] > b[i] {
            proof {
                lemma_lex_lt_point(b@, a@, i as int);
            }
            return 2;
        }
        i += 1;
    }
    proof {
        assert(a@ =~= b@);
    }
    1
}

/// Prepending a common prefix keeps ordered sequences ordered.
pub proof fn lemma_lex_lt_prepend(p: Seq<u8>, a: Seq<u8>, b: Seq<u8>)
    requires
        a.len() == b.len(),
        lex_lt(a, b),
    ensures
        lex_lt(p + a, p + b),
    decreases p.len(),
{
    if p.len() == 0 {
        assert(p + a =~= a);
        assert(p + b =~= b);
    } else {
        lemma_lex_lt_prepend(p.drop_first(), a, b);
        assert((p + a)[0] == (p + b)[0]);
        assert((p + a).drop_first() =~= p.drop_first() + a);
        assert((p + b).drop_first() =~= p.drop_first() + b);
    }
}

/// Concatenates two byte strings.
pub fn concat_bytes(a: Vec<u8>, b: &Vec<u8>) -> (r: Vec<u8>)
    ensures
        r@ == a@ + b@,
{
    let mut r = a;
    let mut b2 = b.clone();
    r.append(&mut b2);
    r
}

/// Whether `t[lo..hi]` equals `w`.
pub fn range_eq(t: &Vec<u8>, lo: usize, hi: usize, w: &Vec<u8>) -> (r: bool)
    requires
        lo <= hi <= t@.len(),
        w@.len() == hi - lo,
    ensures
        r == (t@.subrange(lo as int, hi as int) == w@),
{
    let mut i: usize = lo;
    while i < hi
        invariant
            lo <= i <= hi,
            hi <= t@.len(),
            w@.len() == hi - lo,
            forall|j: int| lo <= j < i ==> t@[j] == w@[j - lo],
        decreases hi - i,
    {
        if t[i] != w[i - lo] {
            proof {
                let sub = t@.subrange(lo as int, hi as int);
                if sub == w@ {
                    assert(sub[i - lo] == w@[i - lo]);
                }
            }
            return false;
        }
        i += 1;
    }
    proof {
        assert(t@.subrange(lo as int, hi as int) =~= w@);
    }
    true
}

/// Copies `t[lo..hi]`.
pub fn sub_bytes(t: &Vec<u8>, lo: usize, hi: usize) -> (r: Vec<u8>)
    requires
        lo <= hi <= t@.len(),
    ensures
        r@ == t@.subrange(lo as int, hi as int),
{
    let mut r: Vec<u8> = Vec::new();
    let mut i: usize = lo;
    while i < hi
        invariant
            lo <= i <= hi,
            hi <= t@.len(),
            r@.len() == i - lo,
            forall|j: int| 0 <= j < i - lo ==> r@[j] == t@[lo + j],
        decreases hi - i,
    {
        r.push(t[i]);
        i += 1;
    }
    proof {
        assert(r@ =~= t@.subrange(lo as int, hi as int));
    }
    r
}

} // verus!
