use lsm_tree::{BloomFilter, Bound, DeserializeError, Error, InternalValue, Segment, ValueType};

fn v(key: &[u8], value: &[u8], seqno: u64) -> InternalValue {
    InternalValue::from_components(key.to_vec(), value.to_vec(), seqno, ValueType::Value)
}

fn sample() -> Segment {
    let items = vec![
        v(b"a", b"a3", 3),
        v(b"a", b"a2", 2),
        v(b"b", b"b9", 9),
        InternalValue::new_tombstone(b"c".to_vec(), 7),
        v(b"c", b"c5", 5),
        v(b"c", b"c1", 1),
        v(b"d", b"d4", 4),
    ];
    Segment::from_items(0, 1, items).expect("sorted")
}

fn values(items: &[InternalValue]) -> Vec<Vec<u8>> {
    items.iter().map(|x| x.value.clone()).collect()
}

#[test]
fn segment_metadata() {
    let seg = sample();
    assert_eq!(seg.metadata.key_range.min, b"a".to_vec());
    assert_eq!(seg.metadata.key_range.max, b"d".to_vec());
    assert_eq!(seg.metadata.seqnos, (1, 9));
    assert_eq!(seg.metadata.item_count, 7);
    assert_eq!(seg.metadata.key_count, 4);
    assert_eq!(seg.tombstone_count(), 1);
    assert_eq!(seg.get_lsn(), 9);
    assert_eq!(seg.metadata.id, 1);
    // 15 bytes of framing per record, plus keys and values
    assert_eq!(seg.metadata.file_size, 7 * 15 + 7 + 12);
}

#[test]
fn segment_key_range_is_min_max_of_keys() {
    let items = vec![v(b"m", b"", 1), v(b"q", b"", 1), v(b"x", b"", 1)];
    let seg = Segment::from_items(3, 4, items).expect("sorted");
    assert_eq!(seg.metadata.key_range.min, b"m".to_vec());
    assert_eq!(seg.metadata.key_range.max, b"x".to_vec());
    assert_eq!(seg.tree_id, 3);
}

#[test]
fn segment_rejects_unordered() {
    assert!(Segment::from_items(0, 1, vec![]).is_none());
    assert!(Segment::from_items(0, 1, vec![v(b"b", b"", 1), v(b"a", b"", 2)]).is_none());
    // same key, sequence numbers must descend
    assert!(Segment::from_items(0, 1, vec![v(b"a", b"", 1), v(b"a", b"", 2)]).is_none());
    assert!(Segment::from_items(0, 1, vec![v(b"a", b"", 1), v(b"a", b"", 1)]).is_none());
}

#[test]
fn segment_get_latest() {
    let seg = sample();
    assert_eq!(seg.get(b"a", None).expect("exists").value, b"a3".to_vec());
    assert_eq!(seg.get(b"b", None).expect("exists").value, b"b9".to_vec());
    assert_eq!(seg.get(b"d", None).expect("exists").value, b"d4".to_vec());
    assert!(seg.get(b"e", None).is_none());
    assert!(seg.get(b"0", None).is_none());
    assert!(seg.get(b"bb", None).is_none());
}

#[test]
fn segment_get_snapshot() {
    let seg = sample();
    assert_eq!(seg.get(b"a", Some(3)).expect("exists").value, b"a2".to_vec());
    assert_eq!(seg.get(b"a", Some(4)).expect("exists").value, b"a3".to_vec());
    assert!(seg.get(b"a", Some(2)).is_none());
    assert_eq!(seg.get(b"c", Some(7)).expect("exists").value, b"c5".to_vec());
    assert_eq!(seg.get(b"c", Some(2)).expect("exists").value, b"c1".to_vec());
    // the whole segment is newer than the snapshot
    assert!(seg.get(b"c", Some(1)).is_none());
    assert!(seg.get(b"b", Some(9)).is_none());
}

#[test]
fn segment_get_tombstone() {
    let seg = sample();
    let t = seg.get(b"c", Some(8)).expect("exists");
    assert!(t.is_tombstone());
    assert_eq!(t.key.seqno, 7);
    let t = seg.get(b"c", None).expect("exists");
    assert_eq!(t.key.value_type, ValueType::Tombstone);
}

#[test]
fn segment_read_own_write() {
    let seg = Segment::from_items(0, 9, vec![v(b"k", b"w", 5)]).expect("sorted");
    assert_eq!(seg.get(b"k", None).expect("exists").value, b"w".to_vec());
}

#[test]
fn segment_iter_all() {
    let seg = sample();
    let all = seg.iter();
    assert_eq!(all.len(), 7);
    assert_eq!(values(&all)[0], b"a3".to_vec());
    assert_eq!(values(&all)[6], b"d4".to_vec());
}

#[test]
fn segment_range() {
    let seg = sample();
    let r = seg.range(&(Bound::Included(b"b".to_vec()), Bound::Excluded(b"d".to_vec())));
    assert_eq!(values(&r), vec![b"b9".to_vec(), vec![], b"c5".to_vec(), b"c1".to_vec()]);
    let r = seg.range(&(Bound::Excluded(b"c".to_vec()), Bound::Unbounded));
    assert_eq!(values(&r), vec![b"d4".to_vec()]);
    let r = seg.range(&(Bound::Unbounded, Bound::Included(b"a".to_vec())));
    assert_eq!(values(&r), vec![b"a3".to_vec(), b"a2".to_vec()]);
    let r = seg.range(&(Bound::Included(b"x".to_vec()), Bound::Unbounded));
    assert!(r.is_empty());
}

#[test]
fn segment_range_rev_is_reverse() {
    let seg = sample();
    let bounds = (Bound::Included(b"a".to_vec()), Bound::Included(b"c".to_vec()));
    let mut fwd = values(&seg.range(&bounds));
    let rev = values(&seg.range_rev(&bounds));
    fwd.reverse();
    assert_eq!(fwd, rev);
    assert_eq!(rev.len(), 6);
}

#[test]
fn segment_prefix() {
    let items = vec![v(b"ab", b"1", 1), v(b"abc", b"2", 1), v(b"abd", b"3", 1), v(b"b", b"4", 1)];
    let seg = Segment::from_items(0, 1, items).expect("sorted");
    assert_eq!(values(&seg.prefix(b"ab")), vec![b"1".to_vec(), b"2".to_vec(), b"3".to_vec()]);
    assert_eq!(values(&seg.prefix(b"abc")), vec![b"2".to_vec()]);
    assert_eq!(seg.prefix(b"").len(), 4);
    assert!(seg.prefix(b"c").is_empty());
}

#[test]
fn segment_check_key_range_overlap() {
    let seg = sample();
    assert!(seg.check_key_range_overlap(&(Bound::Included(b"d".to_vec()), Bound::Unbounded)));
    assert!(!seg.check_key_range_overlap(&(Bound::Excluded(b"d".to_vec()), Bound::Unbounded)));
    assert!(seg.check_key_range_overlap(&(Bound::Unbounded, Bound::Unbounded)));
}

#[test]
fn segment_recover() {
    let seg = sample();
    let mut bytes = Vec::new();
    for item in &seg.items {
        bytes.extend(item.serialize().expect("should encode"));
    }
    let back = Segment::recover(0, 1, &bytes).expect("should recover");
    assert_eq!(back.items, seg.items);
    assert_eq!(back.metadata.key_range.min, b"a".to_vec());
    assert_eq!(back.metadata.key_range.max, b"d".to_vec());
    assert_eq!(back.metadata.file_size, bytes.len() as u64);
    assert_eq!(back.get(b"a", Some(3)).expect("exists").value, b"a2".to_vec());
}

#[test]
fn segment_recover_errors() {
    assert_eq!(
        Segment::recover(0, 1, &[]).err(),
        Some(Error::Deserialize(DeserializeError::LengthMismatch))
    );
    let mut bytes = v(b"b", b"", 1).serialize().expect("should encode");
    bytes.extend(v(b"a", b"", 1).serialize().expect("should encode"));
    assert_eq!(
        Segment::recover(0, 1, &bytes).err(),
        Some(Error::Deserialize(DeserializeError::Unordered))
    );
    bytes.pop();
    assert_eq!(
        Segment::recover(0, 1, &bytes).err(),
        Some(Error::Deserialize(DeserializeError::LengthMismatch))
    );
}

#[test]
fn segment_bloom_filter() {
    let seg = sample();
    assert_eq!(seg.bloom_filter_size(), 8);
    for key in [b"a", b"b", b"c", b"d"] {
        assert!(seg.bloom_filter.contains(key));
    }
}

#[test]
fn bloom_filter_no_false_negatives() {
    let mut f = BloomFilter::new(64, 5);
    assert_eq!(f.len(), 64);
    assert!(!f.contains(b"x"));
    let keys: Vec<Vec<u8>> = (0u64..200).map(|i| i.to_be_bytes().to_vec()).collect();
    for k in &keys {
        f.insert(k);
    }
    for k in &keys {
        assert!(f.contains(k));
    }
}
