use lsm_tree::{BloomFilter, InternalValue, KeyRange, Level, Metadata, Segment, SegmentId, ValueType};

fn fixture_segment(id: SegmentId, key_range: KeyRange) -> Segment {
    Segment {
        tree_id: 0,
        metadata: Metadata {
            id,
            file_size: 0,
            item_count: 0,
            key_count: 0,
            tombstone_count: 0,
            key_range,
            seqnos: (0, 0),
        },
        items: vec![],
        bloom_filter: BloomFilter::new(1, 1),
    }
}

fn flushed(id: SegmentId, records: Vec<(Vec<u8>, u64)>) -> Segment {
    let items = records
        .into_iter()
        .map(|(k, s)| InternalValue::from_components(k.clone(), k, s, ValueType::Value))
        .collect();
    Segment::from_items(0, id, items).expect("should flush")
}

#[test]
fn level_disjoint() {
    let mut level = Level::default();
    let mut x = 0_u64;
    for id in 0..10 {
        let mut records = vec![];
        for _ in 0..10 {
            let key = x.to_be_bytes();
            x += 1;
            records.push((key.to_vec(), 0));
        }
        level.insert(flushed(id, records));
    }
    assert_eq!(level.len(), 10);
    assert!(level.is_disjoint);
}

#[test]
fn level_not_disjoint() {
    let mut level = Level::default();
    for i in 0..10 {
        level.insert(flushed(i, vec![(b"a".to_vec(), i), (b"z".to_vec(), i)]));
    }
    assert_eq!(level.len(), 10);
    assert!(!level.is_disjoint);
}

#[test]
fn level_overlaps() {
    let seg0 = fixture_segment(1, KeyRange::new((b"c".to_vec().into(), b"k".to_vec().into())));
    let seg1 = fixture_segment(2, KeyRange::new((b"l".to_vec().into(), b"z".to_vec().into())));

    let mut level = Level::default();
    level.insert(seg0);
    level.insert(seg1);

    assert_eq!(
        Vec::<SegmentId>::new(),
        level
            .overlapping_segments(&KeyRange::new((b"a".to_vec().into(), b"b".to_vec().into())))
            .iter()
            .map(|x| x.metadata.id)
            .collect::<Vec<_>>(),
    );

    assert_eq!(
        vec![1],
        level
            .overlapping_segments(&KeyRange::new((b"d".to_vec().into(), b"k".to_vec().into())))
            .iter()
            .map(|x| x.metadata.id)
            .collect::<Vec<_>>(),
    );

    assert_eq!(
        vec![1, 2],
        level
            .overlapping_segments(&KeyRange::new((b"f".to_vec().into(), b"x".to_vec().into())))
            .iter()
            .map(|x| x.metadata.id)
            .collect::<Vec<_>>(),
    );
}

#[test]
fn level_disjoint_sorted_by_min_key() {
    let mut level = Level::default();
    level.insert(fixture_segment(3, KeyRange::new((b"x".to_vec(), b"z".to_vec()))));
    level.insert(fixture_segment(1, KeyRange::new((b"a".to_vec(), b"c".to_vec()))));
    level.insert(fixture_segment(2, KeyRange::new((b"m".to_vec(), b"p".to_vec()))));
    assert!(level.is_disjoint);
    assert_eq!(level.ids(), vec![1, 2, 3]);
}

#[test]
fn level_overlapping_sorted_newest_first() {
    let mut level = Level::default();
    level.insert(flushed(1, vec![(b"a".to_vec(), 5), (b"z".to_vec(), 5)]));
    level.insert(flushed(2, vec![(b"a".to_vec(), 9), (b"z".to_vec(), 9)]));
    level.insert(flushed(3, vec![(b"a".to_vec(), 7), (b"z".to_vec(), 7)]));
    assert!(!level.is_disjoint);
    assert_eq!(level.ids(), vec![2, 3, 1]);
}

#[test]
fn level_remove_restores_disjoint() {
    let mut level = Level::default();
    level.insert(fixture_segment(1, KeyRange::new((b"a".to_vec(), b"m".to_vec()))));
    level.insert(fixture_segment(2, KeyRange::new((b"k".to_vec(), b"z".to_vec()))));
    assert!(!level.is_disjoint);
    level.remove(2);
    assert!(level.is_disjoint);
    assert_eq!(level.ids(), vec![1]);
    level.remove(1);
    assert!(level.is_empty());
    assert!(level.is_disjoint);
    level.remove(42);
    assert_eq!(level.len(), 0);
}

#[test]
fn level_size_sums_file_sizes() {
    let mut level = Level::default();
    let mut a = fixture_segment(1, KeyRange::new((b"a".to_vec(), b"b".to_vec())));
    a.metadata.file_size = 100;
    let mut b = fixture_segment(2, KeyRange::new((b"c".to_vec(), b"d".to_vec())));
    b.metadata.file_size = 23;
    level.insert(a);
    level.insert(b);
    assert_eq!(level.size(), 123);
    let mut c = fixture_segment(3, KeyRange::new((b"e".to_vec(), b"f".to_vec())));
    c.metadata.file_size = u64::MAX;
    level.insert(c);
    assert_eq!(level.size(), u64::MAX);
}

#[test]
fn level_get_segment_containing_key() {
    let mut level = Level::default();
    level.insert(fixture_segment(1, KeyRange::new((b"c".to_vec(), b"k".to_vec()))));
    level.insert(fixture_segment(2, KeyRange::new((b"l".to_vec(), b"z".to_vec()))));
    assert_eq!(level.get_segment_containing_key(b"a").map(|s| s.metadata.id), Some(1));
    assert_eq!(level.get_segment_containing_key(b"k").map(|s| s.metadata.id), Some(1));
    assert_eq!(level.get_segment_containing_key(b"ka").map(|s| s.metadata.id), Some(2));
    assert_eq!(level.get_segment_containing_key(b"zz").map(|s| s.metadata.id), None);
}
