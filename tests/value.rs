use lsm_tree::{DeserializeError, InternalKey, InternalValue, SerializeError, ValueType};

#[test]
fn pik_cmp_user_key() {
    let a = InternalKey::new(b"a".to_vec(), 0, ValueType::Value);
    let b = InternalKey::new(b"b".to_vec(), 0, ValueType::Value);
    assert!(a < b);
}

#[test]
fn pik_cmp_seqno() {
    let a = InternalKey::new(b"a".to_vec(), 0, ValueType::Value);
    let b = InternalKey::new(b"a".to_vec(), 1, ValueType::Value);
    assert!(a > b);
}

#[test]
fn pik_cmp_type_breaks_ties() {
    let a = InternalKey::new(b"a".to_vec(), 5, ValueType::Value);
    let b = InternalKey::new(b"a".to_vec(), 5, ValueType::Tombstone);
    assert!(a < b);
    assert!(a == a.clone());
    assert!(a != b);
}

#[test]
fn pik_cmp_prefix_sorts_first() {
    let a = InternalKey::new(b"ab".to_vec(), 0, ValueType::Value);
    let b = InternalKey::new(b"abc".to_vec(), 9, ValueType::Value);
    assert!(a < b);
}

#[test]
fn value_raw() {
    let value = InternalValue::from_components(vec![1, 2, 3], vec![3, 2, 1], 1, ValueType::Value);

    let bytes = &[
        // Key
        0, 3, 1, 2, 3,
        // Seqno
        0, 0, 0, 0, 0, 0, 0, 1,
        // Type
        0,
        // Value
        0, 0, 0, 3, 3, 2, 1,
    ];

    let (deserialized, n) = InternalValue::deserialize(bytes).expect("should decode");
    assert_eq!(value, deserialized);
    assert_eq!(n, bytes.len());
}

#[test]
fn value_empty_value() {
    let value = InternalValue::from_components(vec![1, 2, 3], vec![], 42, ValueType::Value);
    let serialized = value.serialize().expect("should encode");
    let (deserialized, _) = InternalValue::deserialize(&serialized).expect("should decode");
    assert_eq!(value, deserialized);
}

#[test]
fn value_with_value() {
    let value = InternalValue::from_components(
        vec![1, 2, 3],
        vec![6, 2, 6, 2, 7, 5, 7, 8, 98],
        42,
        ValueType::Value,
    );
    let serialized = value.serialize().expect("should encode");
    let (deserialized, _) = InternalValue::deserialize(&serialized).expect("should decode");
    assert_eq!(value, deserialized);
}

#[test]
fn serialize_golden_bytes() {
    let value = InternalValue::from_components(vec![1, 2, 3], vec![3, 2, 1], 1, ValueType::Value);
    let bytes = value.serialize().expect("should encode");
    assert_eq!(
        bytes,
        vec![0, 3, 1, 2, 3, 0, 0, 0, 0, 0, 0, 0, 1, 0, 0, 0, 0, 3, 3, 2, 1]
    );
}

#[test]
fn serialize_multibyte_integers() {
    let value = InternalValue::from_components(
        vec![7; 258],
        vec![9; 3],
        0x0102_0304_0506_0708,
        ValueType::WeakTombstone,
    );
    let bytes = value.serialize().expect("should encode");
    assert_eq!(&bytes[0..2], &[1, 2]);
    assert_eq!(&bytes[260..268], &[1, 2, 3, 4, 5, 6, 7, 8]);
    assert_eq!(bytes[268], 2);
    assert_eq!(&bytes[269..273], &[0, 0, 0, 3]);
    assert_eq!(bytes.len(), 276);
    let (back, n) = InternalValue::deserialize(&bytes).expect("should decode");
    assert_eq!(back, value);
    assert_eq!(n, 276);
}

#[test]
fn round_trip_tombstones() {
    let t = InternalValue::new_tombstone(b"key".to_vec(), 77);
    let w = InternalValue::new_weak_tombstone(b"key".to_vec(), 78);
    assert!(t.is_tombstone());
    assert!(w.is_tombstone());
    assert!(t.value.is_empty());
    for v in [t, w] {
        let bytes = v.serialize().expect("should encode");
        let (back, _) = InternalValue::deserialize(&bytes).expect("should decode");
        assert_eq!(back, v);
    }
}

#[test]
fn deserialize_with_trailing_bytes() {
    let value = InternalValue::from_components(b"k".to_vec(), b"v".to_vec(), 3, ValueType::Value);
    let mut bytes = value.serialize().expect("should encode");
    let n0 = bytes.len();
    bytes.extend_from_slice(&[0xff, 0xee]);
    let (back, n) = InternalValue::deserialize(&bytes).expect("should decode");
    assert_eq!(back, value);
    assert_eq!(n, n0);
}

#[test]
fn deserialize_truncated() {
    let value = InternalValue::from_components(b"key".to_vec(), b"value".to_vec(), 3, ValueType::Value);
    let bytes = value.serialize().expect("should encode");
    for cut in 0..bytes.len() {
        assert_eq!(
            InternalValue::deserialize(&bytes[..cut]),
            Err(DeserializeError::LengthMismatch)
        );
    }
}

#[test]
fn deserialize_unknown_value_type() {
    let bytes = [0, 1, b'a', 0, 0, 0, 0, 0, 0, 0, 1, 3, 0, 0, 0, 0];
    assert_eq!(
        InternalValue::deserialize(&bytes),
        Err(DeserializeError::UnknownValueType(3))
    );
}

#[test]
fn serialize_key_too_large() {
    let value = InternalValue {
        key: InternalKey { user_key: vec![0; 65536], seqno: 0, value_type: ValueType::Value },
        value: vec![],
    };
    assert_eq!(value.serialize(), Err(SerializeError::KeyTooLarge));
}

#[test]
fn value_type_bytes() {
    assert_eq!(u8::from(ValueType::Value), 0);
    assert_eq!(u8::from(ValueType::Tombstone), 1);
    assert_eq!(u8::from(ValueType::WeakTombstone), 2);
    assert_eq!(ValueType::try_from(2u8), Ok(ValueType::WeakTombstone));
    assert_eq!(ValueType::try_from(7u8), Err(DeserializeError::UnknownValueType(7)));
    assert_eq!(ValueType::from_byte(1), Some(ValueType::Tombstone));
}
