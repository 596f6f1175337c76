use tribles::keys::KeyShape;
use tribles::patch::{Entry, Patch};

fn ident_shape(n: usize) -> KeyShape {
    let mut perm = Vec::new();
    let mut inv = Vec::new();
    let mut seg = Vec::new();
    for i in 0..n {
        perm.push(i);
        inv.push(i);
        seg.push(0usize);
    }
    KeyShape { perm, perm_inv: inv, seg }
}

fn key32(fill: u8, last: u8) -> Vec<u8> {
    let mut k = vec![fill; 32];
    k[31] = last;
    k
}

/// The fingerprint of a one-key set: the SipHash of that key.
fn sip_of(k: &[u8]) -> u128 {
    let mut p = Patch::new(ident_shape(32));
    p.insert(&Entry::new(k.to_vec(), Vec::new()));
    p.fingerprint()
}

#[test]
fn insert_len_hash_prefix() {
    // three keys into an empty 32-byte PATCH
    let k1 = key32(0x00, 0x00);
    let k2 = key32(0x00, 0x01);
    let k3 = key32(0xFF, 0xFF);
    let mut p = Patch::new(ident_shape(32));
    p.insert(&Entry::new(k1.clone(), Vec::new()));
    p.insert(&Entry::new(k2.clone(), Vec::new()));
    p.insert(&Entry::new(k3.clone(), Vec::new()));
    assert_eq!(p.len(), 3);
    let expected = sip_of(&k1) ^ sip_of(&k2) ^ sip_of(&k3);
    assert_eq!(p.fingerprint(), expected);
    assert!(p.has_prefix(&vec![0x00]));
    assert!(!p.has_prefix(&vec![0x80]));
}

#[test]
fn member_prefixes_all_lengths() {
    let k = key32(0x42, 0x07);
    let mut p = Patch::new(ident_shape(32));
    p.insert(&Entry::new(k.clone(), Vec::new()));
    for l in 0..=32usize {
        let prefix: Vec<u8> = k[..l].to_vec();
        assert!(p.has_prefix(&prefix));
    }
}

#[test]
fn insertion_order_and_duplicates_do_not_matter() {
    let k1 = key32(0x00, 0x00);
    let k2 = key32(0x00, 0x01);
    let k3 = key32(0xFF, 0xFF);
    let mut p = Patch::new(ident_shape(32));
    let mut q = Patch::new(ident_shape(32));
    for k in [&k1, &k2, &k3] {
        p.insert(&Entry::new((*k).clone(), Vec::new()));
    }
    for k in [&k3, &k1, &k2, &k1] {
        q.insert(&Entry::new((*k).clone(), Vec::new()));
    }
    assert_eq!(p.len(), q.len());
    assert_eq!(p.fingerprint(), q.fingerprint());
    assert_eq!(p.keys, q.keys);
    let mut u = p;
    u.union(&q);
    assert_eq!(u.len(), 3);
}

#[test]
fn union_hash_inclusion_exclusion() {
    let k1 = key32(0x01, 0x01);
    let k2 = key32(0x02, 0x02);
    let k3 = key32(0x03, 0x03);
    let mut a = Patch::new(ident_shape(32));
    a.insert(&Entry::new(k1.clone(), Vec::new()));
    a.insert(&Entry::new(k2.clone(), Vec::new()));
    let mut b = Patch::new(ident_shape(32));
    b.insert(&Entry::new(k2.clone(), Vec::new()));
    b.insert(&Entry::new(k3.clone(), Vec::new()));
    let ha = a.fingerprint();
    let hb = b.fingerprint();
    let mut u = a;
    u.union(&b);
    // the shared key would cancel, so it is XORed back in
    assert_eq!(u.fingerprint(), ha ^ hb ^ sip_of(&k2));
    assert_eq!(u.len(), 3);

    // disjoint sets combine by plain XOR
    let mut c = Patch::new(ident_shape(32));
    c.insert(&Entry::new(k1.clone(), Vec::new()));
    let mut d = Patch::new(ident_shape(32));
    d.insert(&Entry::new(k3.clone(), Vec::new()));
    let hc = c.fingerprint();
    let hd = d.fingerprint();
    let mut ud = c;
    ud.union(&d);
    assert_eq!(ud.fingerprint(), hc ^ hd);
}

#[test]
fn snapshot_keeps_the_old_value_under_mutation() {
    // a snapshot observes its pre-mutation state, whatever is later done
    // to the value it was taken from
    let k1 = key32(0x10, 0x00);
    let k2 = key32(0x20, 0x00);
    let mut p = Patch::new(ident_shape(32));
    p.insert(&Entry::new(k1.clone(), Vec::new()));
    let q = p.snapshot();
    p.insert(&Entry::new(k2.clone(), Vec::new()));
    assert_eq!(q.len(), 1);
    assert_eq!(q.keys.len(), 1);
    assert_eq!(q.keys[0], k1);
    assert_ne!(p.fingerprint(), q.fingerprint());
    assert_eq!(q.fingerprint(), sip_of(&k1));
    assert!(q.has_prefix(&k1));
    assert!(!q.has_prefix(&k2));
    assert!(p.has_prefix(&k2));
}

#[test]
fn fingerprint_depends_on_the_key() {
    let k1 = key32(0x00, 0x01);
    let k2 = key32(0x00, 0x02);
    assert_ne!(sip_of(&k1), sip_of(&k2));
    assert_eq!(sip_of(&k1), sip_of(&k1.clone()));
    assert_ne!(sip_of(&k1), 0);
}

#[test]
fn get_returns_the_stored_payload() {
    let k1 = key32(0x05, 0x05);
    let mut p = Patch::new(ident_shape(32));
    p.insert(&Entry::new(k1.clone(), vec![1, 2, 3]));
    assert_eq!(p.get(&k1), Some(&vec![1, 2, 3]));
    let k2 = key32(0x06, 0x06);
    assert_eq!(p.get(&k2), None);
    // set semantics: a second insert under the same key changes nothing
    p.insert(&Entry::new(k1.clone(), vec![9, 9]));
    assert_eq!(p.get(&k1), Some(&vec![1, 2, 3]));
    assert_eq!(p.len(), 1);
}

#[test]
fn infixes_are_sorted_and_deduplicated() {
    let mut p = Patch::new(ident_shape(32));
    for (a, b) in [(2u8, 9u8), (1, 7), (1, 8), (2, 9)] {
        let mut k = vec![0u8; 32];
        k[0] = a;
        k[1] = b;
        p.insert(&Entry::new(k, Vec::new()));
    }
    let firsts = p.infixes(&Vec::new(), 1);
    assert_eq!(firsts, vec![vec![1u8], vec![2u8]]);
    let seconds = p.infixes(&vec![1u8], 1);
    assert_eq!(seconds, vec![vec![7u8], vec![8u8]]);
    let empty = p.infixes(&vec![9u8], 1);
    assert!(empty.is_empty());
}
