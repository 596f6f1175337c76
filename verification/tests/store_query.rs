use tribles::anyconstraint::AnyConstraint;
use tribles::blobset::BlobSet;
use tribles::column::{Column, ColumnConstraint};
use tribles::constantconstraint::ConstantConstraint;
use tribles::hashtribleset::HashTribleSet;
use tribles::hashtriblesetconstraint::HashTribleSetConstraint;
use tribles::id::{id_from_value, id_into_value, idgen};
use tribles::intersectionconstraint::IntersectionConstraint;
use tribles::query::{Binding, Constraint, ConstraintIterator, Variable};
use tribles::trible::{Trible, TribleSet};
use tribles::triblesetconstraint::TribleSetConstraint;

fn id(b: u8) -> Vec<u8> {
    vec![b; 16]
}

fn val(b: u8) -> Vec<u8> {
    vec![b; 32]
}

#[test]
fn tribleset_segmented_lens() {
    let e = id(0x01);
    let a1 = id(0x02);
    let a2 = id(0x04);
    let v1 = val(0x03);
    let v2 = val(0x05);
    let mut set = TribleSet::new();
    set.add(&Trible::new(&e, &a1, &v1));
    set.add(&Trible::new(&e, &a2, &v2));
    // two attributes under the entity, one entity under the first attribute
    assert_eq!(set.eav.segmented_len(&e), 2);
    assert_eq!(set.aev.segmented_len(&a1), 1);
    assert_eq!(set.len(), 2);
}

#[test]
fn six_indices_agree() {
    let mut set = TribleSet::new();
    set.add(&Trible::new(&id(1), &id(2), &val(3)));
    set.add(&Trible::new(&id(1), &id(4), &val(5)));
    set.add(&Trible::new(&id(1), &id(4), &val(5)));
    let trees = [&set.eav, &set.eva, &set.aev, &set.ave, &set.vea, &set.vae];
    for t in trees {
        assert_eq!(t.len(), 2);
        assert_eq!(t.fingerprint(), set.eav.fingerprint());
    }
    let mut other = TribleSet::new();
    other.add(&Trible::new(&id(9), &id(2), &val(3)));
    set.union(&other);
    assert_eq!(set.len(), 3);
    assert_eq!(set.vae.len(), 3);
}

#[test]
fn blobset_put_get_roundtrip() {
    let mut blobs = BlobSet::new();
    let hello: Vec<u8> = b"hello".to_vec();
    let handle = blobs.put(hello.clone());
    assert_eq!(handle.hash.len(), 32);
    assert_ne!(handle.hash, hello);
    // the digest is SHA-256 of the bytes
    let direct = <sha2::Sha256 as sha2::digest::Digest>::digest(hello.as_slice());
    assert_eq!(handle.hash, direct.as_slice().to_vec());
    let got: Option<Result<Vec<u8>, _>> = blobs.get(&handle);
    assert_eq!(got.unwrap().unwrap(), hello);
    // a second put of the same bytes is a no-op at the length level
    let h2 = blobs.put(hello.clone());
    assert_eq!(h2.hash, handle.hash);
    assert_eq!(blobs.len(), 1);
}

#[test]
fn blobset_keep_retains_referenced_digest() {
    let mut blobs = BlobSet::new();
    let h_hello = blobs.put(b"hello".to_vec());
    let h_other = blobs.put(b"stale".to_vec());
    assert_eq!(blobs.len(), 2);
    let mut tribles = TribleSet::new();
    tribles.add(&Trible::new(&id(1), &id(2), &h_hello.hash));
    let kept = blobs.keep(&tribles);
    assert_eq!(kept.len(), 1);
    assert!(kept.get_raw(&h_hello.hash).is_some());
    assert!(kept.get_raw(&h_other.hash).is_none());
    assert_eq!(kept.get_raw(&h_hello.hash).unwrap(), &b"hello".to_vec());
}

#[test]
fn keep() {
    let mut kb = TribleSet::new();
    let mut blobs = BlobSet::new();
    let description = idgen();
    for i in 0..2000u32 {
        let text = format!("name {}", i).into_bytes();
        let handle = blobs.put(text);
        let entity = idgen();
        let mut one = TribleSet::new();
        one.add(&Trible::new(&entity, &description, &handle.hash));
        kb.union(&one);
    }
    let kept = blobs.keep(&kb);
    assert_eq!(blobs.len(), kept.len());
    let pairs = blobs.each_raw();
    for (digest, blob) in pairs {
        assert_eq!(kept.get_raw(&digest), Some(&blob));
    }
}

#[test]
fn unique() {
    assert!(idgen() != idgen());
}

#[test]
fn id_embedding_roundtrip() {
    let i = id(0xAB);
    let v = id_into_value(&i);
    assert_eq!(v.len(), 32);
    assert_eq!(&v[..16], &[0u8; 16]);
    assert_eq!(id_from_value(&v), i);
}

fn run_query(c: IntersectionConstraint<AnyConstraint<'_>>) -> Vec<Vec<Option<Vec<u8>>>> {
    let mut it = ConstraintIterator::new(c);
    let mut out = Vec::new();
    while let Some(b) = it.next() {
        out.push(vec![b.get(0), b.get(1), b.get(2)]);
    }
    out
}

#[test]
fn join_over_tribleset() {
    let mut set = TribleSet::new();
    set.add(&Trible::new(&id(1), &id(2), &val(3)));
    set.add(&Trible::new(&id(1), &id(4), &val(5)));
    set.add(&Trible::new(&id(6), &id(2), &val(7)));
    // (?e ?a ?v): one binding per triple
    let tsc = TribleSetConstraint::new(Variable::new(0), Variable::new(1), Variable::new(2), &set);
    let rows = run_query(IntersectionConstraint::new(vec![AnyConstraint::Triple(tsc)]));
    assert_eq!(rows.len(), 3);
    // each admitted binding appears exactly once
    for x in 0..rows.len() {
        for y in (x + 1)..rows.len() {
            assert_ne!(rows[x], rows[y]);
        }
    }
    for row in &rows {
        let e = id_from_value(row[0].as_ref().unwrap());
        let a = id_from_value(row[1].as_ref().unwrap());
        let v = row[2].clone().unwrap();
        assert!(set.get(&Trible::new(&e, &a, &v)));
    }
    // the same query twice enumerates in the same order
    let tsc2 = TribleSetConstraint::new(Variable::new(0), Variable::new(1), Variable::new(2), &set);
    let rows2 = run_query(IntersectionConstraint::new(vec![AnyConstraint::Triple(tsc2)]));
    assert_eq!(rows, rows2);
    // constraining the attribute keeps only its triples
    let tsc3 = TribleSetConstraint::new(Variable::new(0), Variable::new(1), Variable::new(2), &set);
    let cc = ConstantConstraint::new(1, id_into_value(&id(2)));
    let rows3 = run_query(
        IntersectionConstraint::new(
            vec![AnyConstraint::Triple(tsc3), AnyConstraint::Constant(cc)],
        ),
    );
    assert_eq!(rows3.len(), 2);
    for row in &rows3 {
        assert_eq!(row[1].clone().unwrap(), id_into_value(&id(2)));
    }
}

#[test]
fn join_over_hashtribleset_matches_patch_indexes() {
    let mut hts = HashTribleSet::new();
    let mut set = TribleSet::new();
    for (e, a, v) in [(1u8, 2u8, 3u8), (1, 4, 5), (6, 2, 7)] {
        hts.add(&Trible::new(&id(e), &id(a), &val(v)));
        set.add(&Trible::new(&id(e), &id(a), &val(v)));
    }
    assert_eq!(hts.len(), 3);
    let hc = HashTribleSetConstraint::new(
        Variable::new(0),
        Variable::new(1),
        Variable::new(2),
        &hts,
    );
    let rows_h = run_query(IntersectionConstraint::new(vec![AnyConstraint::HashTriple(hc)]));
    let tc = TribleSetConstraint::new(Variable::new(0), Variable::new(1), Variable::new(2), &set);
    let rows_t = run_query(IntersectionConstraint::new(vec![AnyConstraint::Triple(tc)]));
    assert_eq!(rows_h, rows_t);
}

#[test]
fn hashtribleset_deduplicates() {
    let mut hts = HashTribleSet::new();
    let t = Trible::new(&id(1), &id(2), &val(3));
    hts.add(&t);
    hts.add(&t);
    assert_eq!(hts.len(), 1);
    assert_eq!(hts.e.len(), 1);
    assert_eq!(hts.ea.len(), 1);
}

#[test]
fn column_constraint_both_directions() {
    let mut col = Column::new();
    col.add(&id(1), &val(3));
    col.add(&id(1), &val(5));
    col.add(&id(6), &val(3));
    // entity bound: its values come back
    let cc = ColumnConstraint::new(Variable::new(0), Variable::new(1), &col);
    let e_const = ConstantConstraint::new(0, id_into_value(&id(1)));
    let rows = run_query(
        IntersectionConstraint::new(
            vec![AnyConstraint::Column(cc), AnyConstraint::Constant(e_const)],
        ),
    );
    assert_eq!(rows.len(), 2);
    // value bound: its entities come back
    let cc2 = ColumnConstraint::new(Variable::new(0), Variable::new(1), &col);
    let v_const = ConstantConstraint::new(1, val(3));
    let rows2 = run_query(
        IntersectionConstraint::new(
            vec![AnyConstraint::Column(cc2), AnyConstraint::Constant(v_const)],
        ),
    );
    assert_eq!(rows2.len(), 2);
    for row in &rows2 {
        assert_eq!(row[1].clone().unwrap(), val(3));
    }
}

#[test]
fn constant_constraint_alone() {
    let cc = ConstantConstraint::new(0, val(9));
    let rows = run_query(IntersectionConstraint::new(vec![AnyConstraint::Constant(cc)]));
    assert_eq!(rows.len(), 1);
    assert_eq!(rows[0][0].clone().unwrap(), val(9));
}

#[test]
fn error_values_carry_their_kind() {
    let e: tribles::errors::TransferError<u8, u16, u32> = tribles::errors::TransferError::List(1);
    assert!(matches!(e, tribles::errors::TransferError::List(1)));
    let e2: tribles::errors::TransferError<u8, u16, u32> = tribles::errors::TransferError::Load(2);
    assert!(matches!(e2, tribles::errors::TransferError::Load(2)));
    let e3: tribles::errors::TransferError<u8, u16, u32> =
        tribles::errors::TransferError::Store(3);
    assert!(matches!(e3, tribles::errors::TransferError::Store(3)));
    let nf = tribles::errors::NotFoundErr();
    assert_eq!(format!("{:?}", nf), "NotFoundErr");
}

#[test]
fn archive_domain_is_sorted_and_complete() {
    let mut set = TribleSet::new();
    set.add(&Trible::new(&id(1), &id(2), &val(3)));
    set.add(&Trible::new(&id(1), &id(4), &val(5)));
    let archive = tribles::archive::TribleSetArchive::from_tribles(&set);
    // distinct domain values: e {1}, a {2, 4}, v {3, 5}
    assert_eq!(archive.domain.len(), 5);
    for w in archive.domain.windows(2) {
        assert!(w[0] < w[1]);
    }
    assert!(archive.domain.contains(&id_into_value(&id(1))));
    assert!(archive.domain.contains(&id_into_value(&id(2))));
    assert!(archive.domain.contains(&id_into_value(&id(4))));
    assert!(archive.domain.contains(&val(3)));
    assert!(archive.domain.contains(&val(5)));
}

#[test]
fn estimates_report_index_sizes() {
    let mut col = Column::new();
    col.add(&id(1), &val(3));
    col.add(&id(1), &val(5));
    col.add(&id(6), &val(3));
    let cc = ColumnConstraint::new(Variable::new(0), Variable::new(1), &col);
    let empty = Binding::new();
    // nothing bound: the number of distinct values, then entities
    assert_eq!(cc.estimate(1, &empty), 2);
    assert_eq!(cc.estimate(0, &empty), 2);
    // entity bound: the values under it
    let mut b = Binding::new();
    b.set(0, id_into_value(&id(1)));
    assert_eq!(cc.estimate(1, &b), 2);
    // value bound: the entities under it
    let mut b2 = Binding::new();
    b2.set(1, val(3));
    assert_eq!(cc.estimate(0, &b2), 2);
    // triple-pattern estimates count distinct continuations per segment
    let mut set = TribleSet::new();
    set.add(&Trible::new(&id(1), &id(2), &val(3)));
    set.add(&Trible::new(&id(1), &id(4), &val(5)));
    let tc = TribleSetConstraint::new(Variable::new(0), Variable::new(1), Variable::new(2), &set);
    assert_eq!(tc.estimate(0, &empty), 1);
    assert_eq!(tc.estimate(1, &empty), 2);
    let mut hts = HashTribleSet::new();
    hts.add(&Trible::new(&id(1), &id(2), &val(3)));
    hts.add(&Trible::new(&id(1), &id(4), &val(5)));
    let hc = HashTribleSetConstraint::new(
        Variable::new(0),
        Variable::new(1),
        Variable::new(2),
        &hts,
    );
    assert_eq!(hc.estimate(2, &empty), 2);
    let mut b3 = Binding::new();
    b3.set(0, id_into_value(&id(1)));
    assert_eq!(hc.estimate(1, &b3), 2);
}
