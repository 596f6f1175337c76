//! A read-optimised archive of a triple set.
//!
//! The archive holds the sorted, deduplicated value domain, one Elias–Fano
//! sequence per field mapping each triple to its field's domain rank, and
//! one wavelet matrix per ordering over the domain ranks of the trailing
//! field.  The succinct structures come from the sucds crate and stay
//! opaque; the domain and every rank fed into them are computed and
//! specified here.

use vstd::prelude::*;

use crate::id::value_of_id;
use crate::keys::{bytes_cmp, lemma_lex_lt_ne, lemma_lex_lt_prepend, lemma_lex_lt_subrange,
    lemma_lex_lt_trans, lex_lt};
use crate::trible::{tri_len, tri_start};
use vstd::arithmetic::power2::pow2;
use crate::patch::Patch;
use crate::trible::TribleSet;
use crate::triblesetconstraint::embed_all;
use crate::vecset::VecSet;

verus! {

#[verifier::external_type_specification]
#[verifier::external_body]
pub struct ExEliasFano(sucds::mii_sequences::EliasFano);

#[verifier::external_type_specification]
#[verifier::external_body]
pub struct ExEliasFanoBuilder(sucds::mii_sequences::EliasFanoBuilder);

#[verifier::external_type_specification]
#[verifier::external_body]
pub struct ExCompactVector(sucds::int_vectors::CompactVector);

#[verifier::external_type_specification]
#[verifier::external_body]
#[verifier::reject_recursive_types(B)]
pub struct ExWaveletMatrix<B>(sucds::char_sequences::WaveletMatrix<B>);

#[verifier::external_type_specification]
#[verifier::external_body]
pub struct ExDArray(sucds::bit_vectors::DArray);

#[verifier::external_type_specification]
#[verifier::external_body]
pub struct ExSucdsError(sucds::errors::SucdsError);

/// The integers an Elias–Fano builder has accepted so far.
pub uninterp spec fn efb_ints(b: sucds::mii_sequences::EliasFanoBuilder) -> Seq<u64>;

/// The integers an Elias–Fano sequence holds.
pub uninterp spec fn ef_ints(e: sucds::mii_sequences::EliasFano) -> Seq<u64>;

/// The universe bound an Elias–Fano builder was made with.
pub uninterp spec fn efb_universe(b: sucds::mii_sequences::EliasFanoBuilder) -> u64;

/// The number of integers an Elias–Fano builder was made for.
pub uninterp spec fn efb_capacity(b: sucds::mii_sequences::EliasFanoBuilder) -> int;

/// The bit width a compact vector stores each integer in.
pub uninterp spec fn cv_width(v: sucds::int_vectors::CompactVector) -> int;

/// The integers a compact vector holds.
pub uninterp spec fn cv_ints(v: sucds::int_vectors::CompactVector) -> Seq<u64>;

/// The integers a wavelet matrix holds.
pub uninterp spec fn wm_ints(w: sucds::char_sequences::WaveletMatrix<
    sucds::bit_vectors::DArray,
>) -> Seq<u64>;

/// Relies on sucds' `EliasFanoBuilder::new`: it fails only for a zero
/// count, and a fresh builder has accepted nothing.  The size bound keeps
/// the builder's internal bit-vector sizing within address arithmetic.
#[verifier::external_body]
fn efb_new(universe: u64, num_vals: usize) -> (r: Result<
    sucds::mii_sequences::EliasFanoBuilder,
    sucds::errors::SucdsError,
>)
    requires
        num_vals <= usize::MAX / 4,
    ensures
        num_vals > 0 ==> r is Ok,
        r matches Ok(b) ==> efb_ints(b) == Seq::<u64>::empty() && efb_universe(b) == universe
            && efb_capacity(b) == num_vals as int,
{
    sucds::mii_sequences::EliasFanoBuilder::new(universe, num_vals)
}

/// Relies on sucds' `EliasFanoBuilder::push`: it accepts whenever the
/// builder is not full, the value is below the universe and no smaller than
/// the last accepted one; on success the value is appended and the
/// builder's bounds are unchanged.
#[verifier::external_body]
fn efb_push(b: &mut sucds::mii_sequences::EliasFanoBuilder, val: u64) -> (r: Result<
    (),
    sucds::errors::SucdsError,
>)
    ensures
        efb_ints(*old(b)).len() < efb_capacity(*old(b)) && val < efb_universe(*old(b)) && (
        efb_ints(*old(b)).len() == 0 || efb_ints(*old(b)).last() <= val) ==> r is Ok,
        r matches Ok(u) ==> efb_ints(*final(b)) == efb_ints(*old(b)).push(val) && efb_universe(
            *final(b),
        ) == efb_universe(*old(b)) && efb_capacity(*final(b)) == efb_capacity(*old(b)),
{
    b.push(val)
}

/// Relies on sucds' `EliasFanoBuilder::build`: the sequence holds exactly
/// what the builder accepted.
#[verifier::external_body]
fn ef_build(b: sucds::mii_sequences::EliasFanoBuilder) -> (r:
    sucds::mii_sequences::EliasFano)
    ensures
        ef_ints(r) == efb_ints(b),
{
    b.build()
}

/// Relies on sucds' `CompactVector::with_capacity`: it fails only for a
/// width outside 1..=64, and a fresh vector is empty, with that width.  The
/// size bound keeps the reserved bit count within address arithmetic.
#[verifier::external_body]
fn cv_with_capacity(capa: usize, width: usize) -> (r: Result<
    sucds::int_vectors::CompactVector,
    sucds::errors::SucdsError,
>)
    requires
        capa <= usize::MAX / 64,
    ensures
        1 <= width <= 64 ==> r is Ok,
        r matches Ok(v) ==> cv_ints(v) == Seq::<u64>::empty() && cv_width(v) == width as int,
{
    sucds::int_vectors::CompactVector::with_capacity(capa, width)
}

/// Relies on sucds' `CompactVector::push_int`: it accepts any value that
/// fits the vector's width; on success the value is appended and the width
/// is unchanged.
#[verifier::external_body]
fn cv_push(v: &mut sucds::int_vectors::CompactVector, val: u64) -> (r: Result<
    (),
    sucds::errors::SucdsError,
>)
    ensures
        (val as nat) < pow2(cv_width(*old(v)) as nat) ==> r is Ok,
        r matches Ok(u) ==> cv_ints(*final(v)) == cv_ints(*old(v)).push(val) && cv_width(
            *final(v),
        ) == cv_width(*old(v)),
{
    v.push_int(val)
}

/// Relies on sucds' `WaveletMatrix::new`: it fails only for an empty
/// sequence (the bit-vector builder behind `DArray` never does), and the
/// matrix holds exactly the integers of the given vector.
#[verifier::external_body]
fn wm_new(seq: sucds::int_vectors::CompactVector) -> (r: Result<
    sucds::char_sequences::WaveletMatrix<sucds::bit_vectors::DArray>,
    sucds::errors::SucdsError,
>)
    ensures
        cv_ints(seq).len() > 0 ==> r is Ok,
        r matches Ok(w) ==> wm_ints(w) == cv_ints(seq),
{
    sucds::char_sequences::WaveletMatrix::new(seq)
}

/// Relies on sucds' `utils::needed_bits`: the result is between 1 and 64,
/// and `x` fits in that many bits.
#[verifier::external_body]
fn needed_bits(x: u64) -> (r: usize)
    ensures
        1 <= r <= 64,
        (x as nat) < pow2(r as nat),
{
    sucds::utils::needed_bits(x)
}

/// The value that stands in the archive domain for one field of the key
/// `t` (entity 0, attribute 1, value 2): ids are embedded.
pub open spec fn field_value(t: Seq<u8>, f: int) -> Seq<u8> {
    if f == 0 {
        value_of_id(t.subrange(0, 16))
    } else if f == 1 {
        value_of_id(t.subrange(16, 32))
    } else {
        t.subrange(32, 64)
    }
}

/// The set of byte strings a list holds.
pub open spec fn list_set(domain: Seq<Vec<u8>>) -> Set<Seq<u8>> {
    domain.map_values(|v: Vec<u8>| v@).to_set()
}

/// The position of `q` in the sorted domain (meaningful when present).
pub open spec fn rank_of(domain: Seq<Vec<u8>>, q: Seq<u8>) -> int {
    choose|x: int| 0 <= x < domain.len() && (#[trigger] domain[x])@ == q
}

/// In a strictly ascending domain, a present value has exactly one rank.
proof fn lemma_rank_of(domain: Seq<Vec<u8>>, q: Seq<u8>)
    requires
        forall|x: int, y: int|
            0 <= x < y < domain.len() ==> lex_lt((#[trigger] domain[x])@, (#[trigger] domain[y])@),
        list_set(domain).contains(q),
    ensures
        0 <= rank_of(domain, q) < domain.len(),
        domain[rank_of(domain, q)]@ == q,
        forall|x: int| 0 <= x < domain.len() && (#[trigger] domain[x])@ == q ==> x == rank_of(
            domain,
            q,
        ),
{
    let ms = domain.map_values(|v: Vec<u8>| v@);
    let j = choose|j: int| 0 <= j < ms.len() && ms[j] == q;
    assert(domain[j]@ == q);
    let r = rank_of(domain, q);
    assert forall|x: int|
        0 <= x < domain.len() && (#[trigger] domain[x])@ == q implies x == r by {
        if x < r {
            lemma_lex_lt_ne(domain[x]@, domain[r]@);
        } else if x > r {
            lemma_lex_lt_ne(domain[r]@, domain[x]@);
        }
    }
}

/// Ranks respect the byte order of present values.
proof fn lemma_rank_monotone(domain: Seq<Vec<u8>>, a: Seq<u8>, b: Seq<u8>)
    requires
        forall|x: int, y: int|
            0 <= x < y < domain.len() ==> lex_lt((#[trigger] domain[x])@, (#[trigger] domain[y])@),
        forall|x: int| 0 <= x < domain.len() ==> (#[trigger] domain[x])@.len() == 32,
        list_set(domain).contains(a),
        list_set(domain).contains(b),
        a.len() == 32,
        b.len() == 32,
        a == b || lex_lt(a, b),
    ensures
        rank_of(domain, a) <= rank_of(domain, b),
{
    lemma_rank_of(domain, a);
    lemma_rank_of(domain, b);
    if a == b {
    } else {
        let ra = rank_of(domain, a);
        let rb = rank_of(domain, b);
        if ra > rb {
            assert(lex_lt(domain[rb]@, domain[ra]@));
            lemma_lex_lt_trans(a, b, a);
            lemma_lex_lt_ne(a, a);
        }
    }
}

/// The ranks, one per member key in storage order, of field `f` of each key.
pub open spec fn rank_seq(tree: Patch, f: int, domain: Seq<Vec<u8>>) -> Seq<u64> {
    Seq::new(
        tree.keys@.len(),
        |i: int| rank_of(domain, field_value(tree.keys_seq()[i], f)) as u64,
    )
}

/// Every field value of every member key of an index stands in the domain.
proof fn lemma_fields_in_domain(set: TribleSet, tree: Patch, f: int, domain: Seq<Vec<u8>>)
    requires
        tree.wf(),
        tree.key_set() == set.contents(),
        0 <= f < 3,
        TribleSetArchive::domain_ok(domain, set),
    ensures
        forall|i: int|
            0 <= i < tree.keys@.len() ==> list_set(domain).contains(
                field_value(#[trigger] tree.keys_seq()[i], f),
            ),
{
    assert forall|i: int|
        0 <= i < tree.keys@.len() implies list_set(domain).contains(
        field_value(#[trigger] tree.keys_seq()[i], f),
    ) by {
        assert(tree.keys_seq().contains(tree.keys_seq()[i]));
        assert(tree.key_set().contains(tree.keys_seq()[i]));
        assert(set.contents().contains(tree.keys_seq()[i]));
    }
}

/// A read-optimised, succinct archive of one triple set.
pub struct TribleSetArchive {
    pub domain: Vec<Vec<u8>>,
    pub e_a: sucds::mii_sequences::EliasFano,
    pub a_a: sucds::mii_sequences::EliasFano,
    pub v_a: sucds::mii_sequences::EliasFano,
    pub eav_c: sucds::char_sequences::WaveletMatrix<sucds::bit_vectors::DArray>,
    pub vea_c: sucds::char_sequences::WaveletMatrix<sucds::bit_vectors::DArray>,
    pub ave_c: sucds::char_sequences::WaveletMatrix<sucds::bit_vectors::DArray>,
    pub vae_c: sucds::char_sequences::WaveletMatrix<sucds::bit_vectors::DArray>,
    pub eva_c: sucds::char_sequences::WaveletMatrix<sucds::bit_vectors::DArray>,
    pub aev_c: sucds::char_sequences::WaveletMatrix<sucds::bit_vectors::DArray>,
}

impl TribleSetArchive {
    /// Whether `domain` is the sorted, deduplicated domain of `set`: every
    /// embedded entity id, embedded attribute id and value of its triples.
    pub open spec fn domain_ok(domain: Seq<Vec<u8>>, set: TribleSet) -> bool {
        &&& forall|x: int, y: int|
            0 <= x < y < domain.len() ==> lex_lt((#[trigger] domain[x])@, (#[trigger] domain[y])@)
        &&& forall|q: Seq<u8>|
            #[trigger] list_set(domain).contains(q) == exists|t: Seq<u8>, last: int|
                #![trigger set.contents().contains(t), field_value(t, last)]
                set.contents().contains(t) && 0 <= last < 3 && q == field_value(t, last)
    }

    /// The index of `q` in the sorted domain.
    fn domain_index(domain: &Vec<Vec<u8>>, q: &Vec<u8>) -> (r: Option<usize>)
        requires
            forall|x: int| 0 <= x < domain@.len() ==> (#[trigger] domain@[x])@.len() == 32,
            q@.len() == 32,
        ensures
            r matches Some(i) ==> i < domain@.len() && domain@[i as int]@ == q@,
            r is None ==> forall|x: int| 0 <= x < domain@.len() ==> (#[trigger] domain@[x])@ != q@,
    {
        let n = domain.len();
        let mut i: usize = 0;
        while i < n
            invariant
                forall|x: int| 0 <= x < domain@.len() ==> (#[trigger] domain@[x])@.len() == 32,
                q@.len() == 32,
                n == domain@.len(),
                0 <= i <= n,
                forall|x: int| 0 <= x < i ==> (#[trigger] domain@[x])@ != q@,
            decreases n - i,
        {
            let c = bytes_cmp(&domain[i], q);
            if c == 1 {
                return Some(i);
            }
            proof {
                if c == 0 {
                    crate::keys::lemma_lex_lt_ne(domain@[i as int]@, q@);
                } else {
                    crate::keys::lemma_lex_lt_ne(q@, domain@[i as int]@);
                }
            }
            i += 1;
        }
        None
    }

    /// Feeds the domain rank of field `f` of every member key, in storage
    /// order, into a compact vector and closes it into a wavelet matrix.
    fn matrix_for(tree: &Patch, f: usize, domain: &Vec<Vec<u8>>, width: usize) -> (r:
        sucds::char_sequences::WaveletMatrix<sucds::bit_vectors::DArray>)
        requires
            tree.wf(),
            tree.shape.key_len() == 64,
            f < 3,
            tree.keys@.len() > 0,
            tree.keys@.len() <= usize::MAX / 64,
            1 <= width <= 64,
            domain@.len() > 0,
            ((domain@.len() - 1) as nat) < pow2(width as nat),
            forall|x: int, y: int|
                0 <= x < y < domain@.len() ==> lex_lt(
                    (#[trigger] domain@[x])@,
                    (#[trigger] domain@[y])@,
                ),
            forall|x: int| 0 <= x < domain@.len() ==> (#[trigger] domain@[x])@.len() == 32,
            forall|i: int|
                0 <= i < tree.keys@.len() ==> list_set(domain@).contains(
                    field_value(#[trigger] tree.keys_seq()[i], f as int),
                ),
        ensures
            wm_ints(r) == rank_seq(*tree, f as int, domain@),
    {
        let n = tree.keys.len();
        let mut cv = match cv_with_capacity(n, width) {
            Ok(c) => c,
            Err(_) => vstd::pervasive::unreached(),
        };
        let mut i: usize = 0;
        while i < n
            invariant
                tree.wf(),
                tree.shape.key_len() == 64,
                f < 3,
                n == tree.keys@.len(),
                0 <= i <= n,
                domain@.len() > 0,
                ((domain@.len() - 1) as nat) < pow2(width as nat),
                cv_width(cv) == width as int,
                1 <= width <= 64,
                forall|x: int, y: int|
                    0 <= x < y < domain@.len() ==> lex_lt(
                        (#[trigger] domain@[x])@,
                        (#[trigger] domain@[y])@,
                    ),
                forall|x: int| 0 <= x < domain@.len() ==> (#[trigger] domain@[x])@.len() == 32,
                forall|j: int|
                    0 <= j < tree.keys@.len() ==> list_set(domain@).contains(
                        field_value(#[trigger] tree.keys_seq()[j], f as int),
                    ),
                cv_ints(cv) == rank_seq(*tree, f as int, domain@).subrange(0, i as int),
            decreases n - i,
        {
            proof {
                assert(tree.keys_seq()[i as int] == tree.keys@[i as int]@);
            }
            let t = &tree.keys[i];
            let q: Vec<u8> = if f == 0 {
                crate::id::id_into_value(&crate::keys::sub_bytes(t, 0, 16))
            } else if f == 1 {
                crate::id::id_into_value(&crate::keys::sub_bytes(t, 16, 32))
            } else {
                crate::keys::sub_bytes(t, 32, 64)
            };
            proof {
                assert(q@ == field_value(tree.keys_seq()[i as int], f as int));
                assert(list_set(domain@).contains(q@));
                let ms = domain@.map_values(|v: Vec<u8>| v@);
                let j = choose|j: int| 0 <= j < ms.len() && ms[j] == q@;
                assert(domain@[j]@ == q@);
            }
            let idx = match Self::domain_index(domain, &q) {
                Some(x) => x,
                None => vstd::pervasive::unreached(),
            };
            let ghost pre = cv;
            proof {
                lemma_rank_of(domain@, q@);
                assert(idx as int == rank_of(domain@, q@));
                assert((idx as u64 as nat) < pow2(cv_width(cv) as nat));
            }
            match cv_push(&mut cv, idx as u64) {
                Ok(u) => (),
                Err(_) => {
                    proof {
                        assert(false);
                    }
                },
            }
            proof {
                assert(cv_ints(cv) =~= rank_seq(*tree, f as int, domain@).subrange(0, i + 1));
            }
            i += 1;
        }
        proof {
            assert(rank_seq(*tree, f as int, domain@).subrange(0, n as int) =~= rank_seq(
                *tree,
                f as int,
                domain@,
            ));
            assert(cv_ints(cv).len() == n > 0);
        }
        match wm_new(cv) {
            Ok(w) => w,
            Err(_) => vstd::pervasive::unreached(),
        }
    }

    /// Feeds the domain rank of field `f` of every member key — `f` being
    /// the leading field of this index's ordering, so the ranks ascend —
    /// into an Elias–Fano sequence.
    fn ranks_for(
        tree: &Patch,
        f: usize,
        domain: &Vec<Vec<u8>>,
        universe: u64,
        num_vals: usize,
    ) -> (r: sucds::mii_sequences::EliasFano)
        requires
            tree.wf(),
            tree.shape.key_len() == 64,
            f < 3,
            num_vals == tree.keys@.len(),
            num_vals > 0,
            num_vals <= usize::MAX / 64,
            universe as int == domain@.len(),
            forall|x: int, y: int|
                0 <= x < y < domain@.len() ==> lex_lt(
                    (#[trigger] domain@[x])@,
                    (#[trigger] domain@[y])@,
                ),
            forall|x: int| 0 <= x < domain@.len() ==> (#[trigger] domain@[x])@.len() == 32,
            forall|i: int|
                0 <= i < tree.keys@.len() ==> list_set(domain@).contains(
                    field_value(#[trigger] tree.keys_seq()[i], f as int),
                ),
            forall|k: Seq<u8>|
                k.len() == 64 ==> (#[trigger] tree.shape.ord(k)).subrange(0, tri_len(f as int))
                    == k.subrange(tri_start(f as int), tri_start(f as int) + tri_len(f as int)),
        ensures
            ef_ints(r) == rank_seq(*tree, f as int, domain@),
    {
        let mut b = match efb_new(universe, num_vals) {
            Ok(x) => x,
            Err(_) => vstd::pervasive::unreached(),
        };
        let n = tree.keys.len();
        let mut i: usize = 0;
        while i < n
            invariant
                tree.wf(),
                tree.shape.key_len() == 64,
                f < 3,
                n == tree.keys@.len(),
                num_vals == tree.keys@.len(),
                0 <= i <= n,
                universe as int == domain@.len(),
                efb_universe(b) == universe,
                efb_capacity(b) == num_vals as int,
                forall|x: int, y: int|
                    0 <= x < y < domain@.len() ==> lex_lt(
                        (#[trigger] domain@[x])@,
                        (#[trigger] domain@[y])@,
                    ),
                forall|x: int| 0 <= x < domain@.len() ==> (#[trigger] domain@[x])@.len() == 32,
                forall|j: int|
                    0 <= j < tree.keys@.len() ==> list_set(domain@).contains(
                        field_value(#[trigger] tree.keys_seq()[j], f as int),
                    ),
                forall|k: Seq<u8>|
                    k.len() == 64 ==> (#[trigger] tree.shape.ord(k)).subrange(
                        0,
                        tri_len(f as int),
                    ) == k.subrange(tri_start(f as int), tri_start(f as int) + tri_len(f as int)),
                efb_ints(b) == rank_seq(*tree, f as int, domain@).subrange(0, i as int),
            decreases n - i,
        {
            proof {
                assert(tree.keys_seq()[i as int] == tree.keys@[i as int]@);
            }
            let t = &tree.keys[i];
            let q: Vec<u8> = if f == 0 {
                crate::id::id_into_value(&crate::keys::sub_bytes(t, 0, 16))
            } else if f == 1 {
                crate::id::id_into_value(&crate::keys::sub_bytes(t, 16, 32))
            } else {
                crate::keys::sub_bytes(t, 32, 64)
            };
            proof {
                assert(q@ == field_value(tree.keys_seq()[i as int], f as int));
                assert(list_set(domain@).contains(q@));
                let ms = domain@.map_values(|v: Vec<u8>| v@);
                let j = choose|j: int| 0 <= j < ms.len() && ms[j] == q@;
                assert(domain@[j]@ == q@);
            }
            let idx = match Self::domain_index(domain, &q) {
                Some(x) => x,
                None => vstd::pervasive::unreached(),
            };
            proof {
                lemma_rank_of(domain@, q@);
                assert(idx as int == rank_of(domain@, q@));
                // the ranks ascend: consecutive keys ascend in ordering
                // space, their leading fields ascend byte-wise, and ranks
                // respect byte order
                if i > 0 {
                    let prev = tree.keys_seq()[i - 1];
                    let cur = tree.keys_seq()[i as int];
                    let fl = tri_len(f as int);
                    let fs = tri_start(f as int);
                    assert(lex_lt(tree.shape.ord(prev), tree.shape.ord(cur)));
                    lemma_lex_lt_subrange(tree.shape.ord(prev), tree.shape.ord(cur), fl);
                    let pf = prev.subrange(fs, fs + fl);
                    let cf = cur.subrange(fs, fs + fl);
                    assert(pf == cf || lex_lt(pf, cf));
                    let pq = field_value(prev, f as int);
                    let cq = field_value(cur, f as int);
                    if f < 2 {
                        if pf == cf {
                            assert(pq == cq);
                        } else {
                            lemma_lex_lt_prepend(crate::id::zero16(), pf, cf);
                        }
                    }
                    lemma_rank_monotone(domain@, pq, cq);
                    lemma_rank_of(domain@, pq);
                    assert(efb_ints(b).last() == rank_of(domain@, pq) as u64);
                }
            }
            match efb_push(&mut b, idx as u64) {
                Ok(u) => (),
                Err(_) => {
                    proof {
                        assert(false);
                    }
                },
            }
            proof {
                assert(efb_ints(b) =~= rank_seq(*tree, f as int, domain@).subrange(0, i + 1));
            }
            i += 1;
        }
        proof {
            assert(rank_seq(*tree, f as int, domain@).subrange(0, n as int) =~= rank_seq(
                *tree,
                f as int,
                domain@,
            ));
        }
        ef_build(b)
    }

    /// Builds the archive of a non-empty triple set: the sorted value
    /// domain, three leading-field rank sequences and six trailing-field
    /// matrices.  The size bound is a machine limit: the succinct builders
    /// size their bit stores by multiplying counts by a bit width.
    pub fn from_tribles(set: &TribleSet) -> (a: TribleSetArchive)
        requires
            set.wf(),
            set.contents().len() > 0,
            set.contents().len() <= usize::MAX / 64,
        ensures
            Self::domain_ok(a.domain@, *set),
            ef_ints(a.e_a) == rank_seq(set.eav, 0, a.domain@),
            ef_ints(a.a_a) == rank_seq(set.aev, 1, a.domain@),
            ef_ints(a.v_a) == rank_seq(set.vea, 2, a.domain@),
            wm_ints(a.eav_c) == rank_seq(set.eav, 2, a.domain@),
            wm_ints(a.vea_c) == rank_seq(set.vea, 1, a.domain@),
            wm_ints(a.ave_c) == rank_seq(set.ave, 0, a.domain@),
            wm_ints(a.vae_c) == rank_seq(set.vae, 0, a.domain@),
            wm_ints(a.eva_c) == rank_seq(set.eva, 1, a.domain@),
            wm_ints(a.aev_c) == rank_seq(set.aev, 2, a.domain@),
    {
        proof {
            assert(set.eav.shape.perm@[0] == 0 && set.eav.shape.perm@[15] == 15);
            assert(set.eav.shape.seg@[0] == 0 && set.eav.shape.seg@[15] == 0);
            assert(set.aev.shape.perm@[0] == 16 && set.aev.shape.perm@[15] == 31);
            assert(set.aev.shape.seg@[16] == 0 && set.aev.shape.seg@[31] == 0);
            assert(set.vea.shape.perm@[0] == 32 && set.vea.shape.perm@[31] == 63);
            assert(set.vea.shape.seg@[32] == 0 && set.vea.shape.seg@[63] == 0);
        }
        let es = set.eav.infixes(&Vec::new(), 16);
        let as_ = set.aev.infixes(&Vec::new(), 16);
        let vs = set.vea.infixes(&Vec::new(), 32);
        let evs = embed_all(&es);
        let avs = embed_all(&as_);
        let mut dset = VecSet::new();
        let ghost gset = *set;
        let mut i: usize = 0;
        while i < evs.len()
            invariant
                0 <= i <= evs@.len(),
                forall|x: int| 0 <= x < evs@.len() ==> (#[trigger] evs@[x])@.len() == 32,
                dset.wf(32),
                dset.view_set() =~= Set::new(
                    |q: Seq<u8>| exists|x: int| 0 <= x < i && q == (#[trigger] evs@[x])@,
                ),
            decreases evs@.len() - i,
        {
            let ghost pre = dset.view_set();
            dset.insert(evs[i].clone());
            proof {
                assert(dset.view_set() =~= pre.insert(evs@[i as int]@));
                assert(dset.view_set() =~= Set::new(
                    |q: Seq<u8>| exists|x: int| 0 <= x < i + 1 && q == (#[trigger] evs@[x])@,
                ));
            }
            i += 1;
        }
        let mut i: usize = 0;
        while i < avs.len()
            invariant
                0 <= i <= avs@.len(),
                forall|x: int| 0 <= x < avs@.len() ==> (#[trigger] avs@[x])@.len() == 32,
                dset.wf(32),
                dset.view_set() =~= Set::new(
                    |q: Seq<u8>|
                        (exists|x: int| 0 <= x < evs@.len() && q == (#[trigger] evs@[x])@) || (
                        exists|x: int| 0 <= x < i && q == (#[trigger] avs@[x])@),
                ),
            decreases avs@.len() - i,
        {
            let ghost pre = dset.view_set();
            dset.insert(avs[i].clone());
            proof {
                assert(dset.view_set() =~= pre.insert(avs@[i as int]@));
                assert(dset.view_set() =~= Set::new(
                    |q: Seq<u8>|
                        (exists|x: int| 0 <= x < evs@.len() && q == (#[trigger] evs@[x])@) || (
                        exists|x: int| 0 <= x < i + 1 && q == (#[trigger] avs@[x])@),
                ));
            }
            i += 1;
        }
        let mut i: usize = 0;
        while i < vs.len()
            invariant
                0 <= i <= vs@.len(),
                forall|x: int| 0 <= x < vs@.len() ==> (#[trigger] vs@[x])@.len() == 32,
                dset.wf(32),
                dset.view_set() =~= Set::new(
                    |q: Seq<u8>|
                        (exists|x: int| 0 <= x < evs@.len() && q == (#[trigger] evs@[x])@) || (
                        exists|x: int| 0 <= x < avs@.len() && q == (#[trigger] avs@[x])@) || (
                        exists|x: int| 0 <= x < i && q == (#[trigger] vs@[x])@),
                ),
            decreases vs@.len() - i,
        {
            let ghost pre = dset.view_set();
            dset.insert(vs[i].clone());
            proof {
                assert(dset.view_set() =~= pre.insert(vs@[i as int]@));
                assert(dset.view_set() =~= Set::new(
                    |q: Seq<u8>|
                        (exists|x: int| 0 <= x < evs@.len() && q == (#[trigger] evs@[x])@) || (
                        exists|x: int| 0 <= x < avs@.len() && q == (#[trigger] avs@[x])@) || (
                        exists|x: int| 0 <= x < i + 1 && q == (#[trigger] vs@[x])@),
                ));
            }
            i += 1;
        }
        let domain = dset.items;
        proof {
            Self::lemma_domain(gset, es@, as_@, vs@, evs@, avs@, domain@);
        }
        proof {
            crate::trible::lemma_indices_agree(gset);
            set.eav.lemma_distinct();
            lemma_fields_in_domain(gset, set.eav, 0, domain@);
            lemma_fields_in_domain(gset, set.eav, 2, domain@);
            lemma_fields_in_domain(gset, set.aev, 1, domain@);
            lemma_fields_in_domain(gset, set.aev, 2, domain@);
            lemma_fields_in_domain(gset, set.vea, 1, domain@);
            lemma_fields_in_domain(gset, set.vea, 2, domain@);
            lemma_fields_in_domain(gset, set.ave, 0, domain@);
            lemma_fields_in_domain(gset, set.vae, 0, domain@);
            lemma_fields_in_domain(gset, set.eva, 1, domain@);
            // the leading ordering positions of each rank tree read its field
            assert forall|k: Seq<u8>|
                k.len() == 64 implies (#[trigger] set.eav.shape.ord(k)).subrange(0, tri_len(0))
                == k.subrange(tri_start(0), tri_start(0) + tri_len(0)) by {
                crate::trible::lemma_is_tri_perm(set.eav.shape, 0, 1, 2, k);
            }
            assert forall|k: Seq<u8>|
                k.len() == 64 implies (#[trigger] set.aev.shape.ord(k)).subrange(0, tri_len(1))
                == k.subrange(tri_start(1), tri_start(1) + tri_len(1)) by {
                crate::trible::lemma_is_tri_perm(set.aev.shape, 1, 0, 2, k);
            }
            assert forall|k: Seq<u8>|
                k.len() == 64 implies (#[trigger] set.vea.shape.ord(k)).subrange(0, tri_len(2))
                == k.subrange(tri_start(2), tri_start(2) + tri_len(2)) by {
                crate::trible::lemma_is_tri_perm(set.vea.shape, 2, 0, 1, k);
            }
            // a non-empty set puts at least one value into the domain
            assert(set.eav.keys@.len() > 0);
            assert(list_set(domain@).contains(field_value(set.eav.keys_seq()[0], 0)));
            let ms = domain@.map_values(|v: Vec<u8>| v@);
            let j = choose|j: int|
                0 <= j < ms.len() && ms[j] == field_value(set.eav.keys_seq()[0], 0);
            assert(domain@.len() > 0);
        }
        let dlen = domain.len();
        let universe: u64 = dlen as u64;
        let tc: usize = set.eav.keys.len();
        let width = needed_bits((dlen - 1) as u64);
        proof {
            assert(((domain@.len() - 1) as nat) < pow2(width as nat));
        }
        let e_a = Self::ranks_for(&set.eav, 0, &domain, universe, tc);
        let a_a = Self::ranks_for(&set.aev, 1, &domain, universe, tc);
        let v_a = Self::ranks_for(&set.vea, 2, &domain, universe, tc);
        let eav_c = Self::matrix_for(&set.eav, 2, &domain, width);
        let vea_c = Self::matrix_for(&set.vea, 1, &domain, width);
        let ave_c = Self::matrix_for(&set.ave, 0, &domain, width);
        let vae_c = Self::matrix_for(&set.vae, 0, &domain, width);
        let eva_c = Self::matrix_for(&set.eva, 1, &domain, width);
        let aev_c = Self::matrix_for(&set.aev, 2, &domain, width);
        TribleSetArchive { domain, e_a, a_a, v_a, eav_c, vea_c, ave_c, vae_c, eva_c, aev_c }
    }

    /// The merged, deduplicated field images form exactly the domain.
    proof fn lemma_domain(
        set: TribleSet,
        es: Seq<Vec<u8>>,
        as_: Seq<Vec<u8>>,
        vs: Seq<Vec<u8>>,
        evs: Seq<Vec<u8>>,
        avs: Seq<Vec<u8>>,
        domain: Seq<Vec<u8>>,
    )
        requires
            set.wf(),
            es.map_values(|v: Vec<u8>| v@).to_set() == set.eav.infix_set(Seq::<u8>::empty(), 16),
            as_.map_values(|v: Vec<u8>| v@).to_set() == set.aev.infix_set(Seq::<u8>::empty(), 16),
            vs.map_values(|v: Vec<u8>| v@).to_set() == set.vea.infix_set(Seq::<u8>::empty(), 32),
            evs.len() == es.len(),
            forall|x: int| 0 <= x < evs.len() ==> (#[trigger] evs[x])@ == value_of_id(es[x]@),
            avs.len() == as_.len(),
            forall|x: int| 0 <= x < avs.len() ==> (#[trigger] avs[x])@ == value_of_id(as_[x]@),
            forall|x: int, y: int|
                0 <= x < y < domain.len() ==> lex_lt(
                    (#[trigger] domain[x])@,
                    (#[trigger] domain[y])@,
                ),
            domain.map_values(|v: Vec<u8>| v@).to_set() =~= Set::new(
                |q: Seq<u8>|
                    (exists|x: int| 0 <= x < evs.len() && q == (#[trigger] evs[x])@) || (exists|
                        x: int,
                    |
                        0 <= x < avs.len() && q == (#[trigger] avs[x])@) || (exists|x: int|
                        0 <= x < vs.len() && q == (#[trigger] vs[x])@),
            ),
        ensures
            TribleSetArchive::domain_ok(domain, set),
    {
        let dset = list_set(domain);
        assert forall|q: Seq<u8>| #[trigger] dset.contains(q) implies exists|t: Seq<u8>, last: int|
            #![trigger set.contents().contains(t), field_value(t, last)]
            set.contents().contains(t) && 0 <= last < 3 && q == field_value(t, last) by {
            if exists|x: int| 0 <= x < evs.len() && q == (#[trigger] evs[x])@ {
                let x = choose|x: int| 0 <= x < evs.len() && q == (#[trigger] evs[x])@;
                assert(es.map_values(|v: Vec<u8>| v@)[x] == es[x]@);
                assert(es.map_values(|v: Vec<u8>| v@).contains(es[x]@));
                assert(set.eav.infix_set(Seq::<u8>::empty(), 16).contains(es[x]@));
                let t = choose|t: Seq<u8>|
                    #[trigger] set.eav.key_set().contains(t) && set.eav.shape.matches(
                        t,
                        Seq::<u8>::empty(),
                    ) && es[x]@ == set.eav.shape.ord(t).subrange(0, 16);
                assert(set.eav.shape.ord(t).subrange(0, 16) =~= t.subrange(0, 16)) by {
                    crate::trible::lemma_is_tri_perm(set.eav.shape, 0, 1, 2, t);
                }
                assert(set.contents().contains(t) && q == field_value(t, 0));
            } else if exists|x: int| 0 <= x < avs.len() && q == (#[trigger] avs[x])@ {
                let x = choose|x: int| 0 <= x < avs.len() && q == (#[trigger] avs[x])@;
                assert(as_.map_values(|v: Vec<u8>| v@)[x] == as_[x]@);
                assert(as_.map_values(|v: Vec<u8>| v@).contains(as_[x]@));
                assert(set.aev.infix_set(Seq::<u8>::empty(), 16).contains(as_[x]@));
                let t = choose|t: Seq<u8>|
                    #[trigger] set.aev.key_set().contains(t) && set.aev.shape.matches(
                        t,
                        Seq::<u8>::empty(),
                    ) && as_[x]@ == set.aev.shape.ord(t).subrange(0, 16);
                assert(set.aev.shape.ord(t).subrange(0, 16) =~= t.subrange(16, 32)) by {
                    crate::trible::lemma_is_tri_perm(set.aev.shape, 1, 0, 2, t);
                }
                assert(set.contents().contains(t) && q == field_value(t, 1));
            } else {
                let x = choose|x: int| 0 <= x < vs.len() && q == (#[trigger] vs[x])@;
                assert(vs.map_values(|v: Vec<u8>| v@)[x] == vs[x]@);
                assert(vs.map_values(|v: Vec<u8>| v@).contains(vs[x]@));
                assert(set.vea.infix_set(Seq::<u8>::empty(), 32).contains(vs[x]@));
                let t = choose|t: Seq<u8>|
                    #[trigger] set.vea.key_set().contains(t) && set.vea.shape.matches(
                        t,
                        Seq::<u8>::empty(),
                    ) && vs[x]@ == set.vea.shape.ord(t).subrange(0, 32);
                assert(set.vea.shape.ord(t).subrange(0, 32) =~= t.subrange(32, 64)) by {
                    crate::trible::lemma_is_tri_perm(set.vea.shape, 2, 0, 1, t);
                }
                assert(set.contents().contains(t) && q == field_value(t, 2));
            }
        }
        assert forall|t: Seq<u8>, last: int|
            #![trigger set.contents().contains(t), field_value(t, last)]
            set.contents().contains(t) && 0 <= last < 3 implies dset.contains(
            field_value(t, last),
        ) by {
            assert(t.len() == 64) by {
                set.eav.lemma_idx_of(t);
            }
            if last == 0 {
                assert(set.eav.shape.matches(t, Seq::<u8>::empty())) by {
                    assert(Seq::<u8>::empty() =~= set.eav.shape.ord(t).subrange(0, 0));
                }
                assert(set.eav.infix_set(Seq::<u8>::empty(), 16).contains(
                    set.eav.shape.ord(t).subrange(0, 16),
                ));
                assert(set.eav.shape.ord(t).subrange(0, 16) =~= t.subrange(0, 16)) by {
                    crate::trible::lemma_is_tri_perm(set.eav.shape, 0, 1, 2, t);
                }
                crate::query::lemma_contains_val_set(es, t.subrange(0, 16));
                let x = choose|x: int| 0 <= x < es.len() && (#[trigger] es[x])@ == t.subrange(0, 16);
                assert(evs[x]@ == field_value(t, 0));
            } else if last == 1 {
                assert(set.aev.key_set().contains(t));
                assert(set.aev.shape.matches(t, Seq::<u8>::empty())) by {
                    assert(Seq::<u8>::empty() =~= set.aev.shape.ord(t).subrange(0, 0));
                }
                assert(set.aev.infix_set(Seq::<u8>::empty(), 16).contains(
                    set.aev.shape.ord(t).subrange(0, 16),
                ));
                assert(set.aev.shape.ord(t).subrange(0, 16) =~= t.subrange(16, 32)) by {
                    crate::trible::lemma_is_tri_perm(set.aev.shape, 1, 0, 2, t);
                }
                crate::query::lemma_contains_val_set(as_, t.subrange(16, 32));
                let x = choose|x: int|
                    0 <= x < as_.len() && (#[trigger] as_[x])@ == t.subrange(16, 32);
                assert(avs[x]@ == field_value(t, 1));
            } else {
                assert(set.vea.key_set().contains(t));
                assert(set.vea.shape.matches(t, Seq::<u8>::empty())) by {
                    assert(Seq::<u8>::empty() =~= set.vea.shape.ord(t).subrange(0, 0));
                }
                assert(set.vea.infix_set(Seq::<u8>::empty(), 32).contains(
                    set.vea.shape.ord(t).subrange(0, 32),
                ));
                assert(set.vea.shape.ord(t).subrange(0, 32) =~= t.subrange(32, 64)) by {
                    crate::trible::lemma_is_tri_perm(set.vea.shape, 2, 0, 1, t);
                }
                crate::query::lemma_contains_val_set(vs, t.subrange(32, 64));
                let x = choose|x: int| 0 <= x < vs.len() && (#[trigger] vs[x])@ == t.subrange(32, 64);
                assert(vs[x]@ == field_value(t, 2));
            }
        }
    }
}

} // verus!
