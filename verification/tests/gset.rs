use zynk::crdt::{CRDT, GSet};

#[test]
fn insert_contains_len() {
    let mut s = GSet::new();
    assert_eq!(s.len(), 0);
    assert!(!s.contains(b"a".as_slice()));
    s.insert(b"b".to_vec());
    s.insert(b"a".to_vec());
    s.insert(b"b".to_vec());
    assert_eq!(s.len(), 2);
    assert!(s.contains(b"a".as_slice()));
    assert!(s.contains(b"b".as_slice()));
    assert!(!s.contains(b"c".as_slice()));
}

#[test]
fn elements_come_out_sorted() {
    let mut s = GSet::new();
    s.insert(b"pear".to_vec());
    s.insert(b"apple".to_vec());
    s.insert(b"plum".to_vec());
    let es = s.elements();
    assert_eq!(es, vec![b"apple".to_vec(), b"pear".to_vec(), b"plum".to_vec()]);
    assert_eq!(s.iter().len(), 3);
}

#[test]
fn wire_form_is_little_endian() {
    let mut s = GSet::new();
    s.insert(b"hi".to_vec());
    let bytes = s.to_bytes();
    // count 1 LE, length 2 LE, then the element.
    assert_eq!(bytes, vec![1, 0, 0, 0, 2, 0, 0, 0, b'h', b'i']);
}

#[test]
fn wire_round_trip() {
    let mut s = GSet::new();
    s.insert(b"x".to_vec());
    s.insert(b"longer-element".to_vec());
    s.insert(b"mid".to_vec());
    let back = GSet::from_bytes(&s.to_bytes());
    assert_eq!(back.elements(), s.elements());
}

#[test]
fn from_bytes_is_lenient_about_truncation() {
    assert_eq!(GSet::from_bytes(b"ab".as_slice()).len(), 0);
    // Count promises two elements but only one is carried.
    let bytes = [2u8, 0, 0, 0, 1, 0, 0, 0, b'q', 0, 0, 0, 9];
    let s = GSet::from_bytes(&bytes);
    assert_eq!(s.elements(), vec![b"q".to_vec()]);
}

#[test]
fn merge_is_a_deduplicated_union() {
    let mut a = GSet::new();
    a.insert(b"1".to_vec());
    a.insert(b"2".to_vec());
    let mut b = GSet::new();
    b.insert(b"2".to_vec());
    b.insert(b"3".to_vec());
    a.merge(&b);
    assert_eq!(a.elements(), vec![b"1".to_vec(), b"2".to_vec(), b"3".to_vec()]);
    // Merging again changes nothing: the union is idempotent.
    a.merge(&b);
    assert_eq!(a.len(), 3);
}

#[test]
fn merge_commutes_on_contents() {
    let mut a1 = GSet::new();
    a1.insert(b"k".to_vec());
    a1.insert(b"m".to_vec());
    let mut b1 = GSet::new();
    b1.insert(b"a".to_vec());
    b1.insert(b"m".to_vec());
    let mut left = GSet::from_bytes(&a1.to_bytes());
    left.merge(&b1);
    let mut right = GSet::from_bytes(&b1.to_bytes());
    right.merge(&a1);
    assert_eq!(left.elements(), right.elements());
}
