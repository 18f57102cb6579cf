use lsm_tree::{compare_bytes, Bound, KeyRange};
use std::cmp::Ordering;

fn kr(a: &[u8], b: &[u8]) -> KeyRange {
    KeyRange::new((a.to_vec(), b.to_vec()))
}

#[test]
fn compare_bytes_orders() {
    assert_eq!(compare_bytes(b"a", b"b"), Ordering::Less);
    assert_eq!(compare_bytes(b"b", b"a"), Ordering::Greater);
    assert_eq!(compare_bytes(b"ab", b"ab"), Ordering::Equal);
    assert_eq!(compare_bytes(b"a", b"ab"), Ordering::Less);
    assert_eq!(compare_bytes(b"", b""), Ordering::Equal);
    assert_eq!(compare_bytes(&[0xff], &[0x00, 0x01]), Ordering::Greater);
}

#[test]
fn key_range_contains() {
    let r = kr(b"c", b"k");
    assert!(r.contains_key(b"c"));
    assert!(r.contains_key(b"f"));
    assert!(r.contains_key(b"k"));
    assert!(!r.contains_key(b"ka"));
    assert!(!r.contains_key(b"b"));
}

#[test]
fn key_range_overlaps() {
    let r = kr(b"c", b"k");
    assert!(r.overlaps_with_key_range(&kr(b"k", b"z")));
    assert!(!r.overlaps_with_key_range(&kr(b"l", b"z")));
    assert!(r.overlaps_with_key_range(&kr(b"a", b"c")));
    assert!(!r.overlaps_with_key_range(&kr(b"a", b"b")));
    assert!(r.overlaps_with_key_range(&kr(b"d", b"e")));
}

#[test]
fn key_range_bounds() {
    let r = kr(b"c", b"k");
    assert!(r.overlaps_with_bounds(&(Bound::Unbounded, Bound::Unbounded)));
    assert!(r.overlaps_with_bounds(&(Bound::Included(b"k".to_vec()), Bound::Unbounded)));
    assert!(!r.overlaps_with_bounds(&(Bound::Excluded(b"k".to_vec()), Bound::Unbounded)));
    assert!(r.overlaps_with_bounds(&(Bound::Unbounded, Bound::Included(b"c".to_vec()))));
    assert!(!r.overlaps_with_bounds(&(Bound::Unbounded, Bound::Excluded(b"c".to_vec()))));
    assert!(r.overlaps_with_bounds(&(Bound::Included(b"a".to_vec()), Bound::Excluded(b"d".to_vec()))));
    assert!(!r.overlaps_with_bounds(&(Bound::Included(b"l".to_vec()), Bound::Excluded(b"z".to_vec()))));
}

#[test]
fn key_range_is_disjoint() {
    let a = kr(b"a", b"c");
    let b = kr(b"d", b"f");
    let c = kr(b"e", b"g");
    assert!(KeyRange::is_disjoint(&[]));
    assert!(KeyRange::is_disjoint(&[&a]));
    assert!(KeyRange::is_disjoint(&[&a, &b]));
    assert!(!KeyRange::is_disjoint(&[&a, &b, &c]));
    assert!(!KeyRange::is_disjoint(&[&c, &a, &b]));
    assert!(KeyRange::is_disjoint(&[&c, &a]));
}
