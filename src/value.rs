use crate::coding::{
    lemma_u16_round_trip, lemma_u32_round_trip, lemma_u64_round_trip, push_u16, push_u32, push_u64,
    read_u16_at, read_u32_at, read_u64_at, u16_be, u16_of_be, u32_be, u32_of_be, u64_be, u64_of_be,
};
use crate::key::InternalKey;
use vstd::prelude::*;

verus! {

/// Sequence number: a monotonically increasing counter. A record with a
/// higher sequence number shadows one with the same key and a lower one.
pub type SeqNo = u64;

/// User-defined key (a non-empty byte string).
pub type UserKey = Vec<u8>;

/// User-defined value (an arbitrary byte string).
pub type UserValue = Vec<u8>;

/// Mathematical form of an [`InternalValue`]: the key's view and the value's bytes.
pub type ValueModel = ((Seq<u8>, u64, ValueType), Seq<u8>);

/// Kind of a record.
#[derive(Copy, Clone, Debug, PartialEq, Eq, Structural)]
pub enum ValueType {
    /// Existing value
    Value,
    /// Deletion of every older version of the key
    Tombstone,
    /// Deletion of the immediately older version of the key only
    WeakTombstone,
}

impl ValueType {
    /// The byte that stands for this kind on disk.
    pub open spec fn byte(self) -> u8 {
        match self {
            ValueType::Value => 0,
            ValueType::Tombstone => 1,
            ValueType::WeakTombstone => 2,
        }
    }

    /// The kind that a byte stands for, if any.
    pub open spec fn of_byte(b: u8) -> Option<ValueType> {
        if b == 0 {
            Some(ValueType::Value)
        } else if b == 1 {
            Some(ValueType::Tombstone)
        } else if b == 2 {
            Some(ValueType::WeakTombstone)
        } else {
            None
        }
    }

    pub fn to_byte(self) -> (r: u8)
        ensures
            r == self.byte(),
    {
        match self {
            ValueType::Value => 0,
            ValueType::Tombstone => 1,
            ValueType::WeakTombstone => 2,
        }
    }

    pub fn from_byte(b: u8) -> (r: Option<ValueType>)
        ensures
            r == Self::of_byte(b),
    {
        if b == 0 {
            Some(ValueType::Value)
        } else if b == 1 {
            Some(ValueType::Tombstone)
        } else if b == 2 {
            Some(ValueType::WeakTombstone)
        } else {
            None
        }
    }
}

impl From<ValueType> for u8 {
    fn from(value: ValueType) -> u8 {
        value.to_byte()
    }
}

impl vstd::std_specs::convert::FromSpecImpl<ValueType> for u8 {
    open spec fn obeys_from_spec() -> bool {
        true
    }

    open spec fn from_spec(v: ValueType) -> u8 {
        v.byte()
    }
}

/// Why an encoding could not be produced.
#[derive(Copy, Clone, Debug, PartialEq, Eq, Structural)]
pub enum SerializeError {
    /// The user key is longer than 65535 bytes.
    KeyTooLarge,
    /// The user value is longer than 4294967295 bytes.
    ValueTooLarge,
}

/// Why bytes could not be decoded.
#[derive(Copy, Clone, Debug, PartialEq, Eq, Structural)]
pub enum DeserializeError {
    /// The bytes end before a length prefix says they should.
    LengthMismatch,
    /// The record kind byte names no known kind.
    UnknownValueType(u8),
    /// Records are not in strictly ascending key order.
    Unordered,
}

impl TryFrom<u8> for ValueType {
    type Error = DeserializeError;

    fn try_from(b: u8) -> Result<ValueType, DeserializeError> {
        match ValueType::from_byte(b) {
            Some(t) => Ok(t),
            None => Err(DeserializeError::UnknownValueType(b)),
        }
    }
}

impl vstd::std_specs::convert::TryFromSpecImpl<u8> for ValueType {
    open spec fn obeys_try_from_spec() -> bool {
        true
    }

    open spec fn try_from_spec(b: u8) -> Result<ValueType, DeserializeError> {
        match ValueType::of_byte(b) {
            Some(t) => Ok(t),
            None => Err(DeserializeError::UnknownValueType(b)),
        }
    }
}

/// A key-value record annotated with its sequence number and kind.
#[derive(Debug)]
pub struct InternalValue {
    /// Internal key
    pub key: InternalKey,
    /// User-defined value; empty for tombstones
    pub value: UserValue,
}

impl View for InternalValue {
    type V = ValueModel;

    open spec fn view(&self) -> ValueModel {
        (self.key@, self.value@)
    }
}

impl Clone for InternalValue {
    fn clone(&self) -> (r: Self)
        ensures
            r@ == self@,
    {
        let value = self.value.clone();
        assert(value@ =~= self.value@);
        InternalValue { key: self.key.clone(), value }
    }
}

impl PartialEq for InternalValue {
    fn eq(&self, other: &InternalValue) -> (r: bool) {
        let same_key = self.key == other.key;
        let same_value = matches!(
            crate::lex::compare_bytes(self.value.as_slice(), other.value.as_slice()),
            core::cmp::Ordering::Equal
        );
        same_key && same_value
    }
}

impl vstd::std_specs::cmp::PartialEqSpecImpl for InternalValue {
    open spec fn obeys_eq_spec() -> bool {
        true
    }

    open spec fn eq_spec(&self, other: &InternalValue) -> bool {
        self@ == other@
    }
}

/// Encoding of a key: `u16 key_len | key | u64 seqno | u8 kind`, big-endian.
pub open spec fn encode_key(k: (Seq<u8>, u64, ValueType)) -> Seq<u8> {
    u16_be(k.0.len() as u16) + k.0 + u64_be(k.1) + seq![k.2.byte()]
}

/// Encoding of a record: its key's encoding, then `u32 value_len | value`.
pub open spec fn encode_value(v: ValueModel) -> Seq<u8> {
    encode_key(v.0) + u32_be(v.1.len() as u32) + v.1
}

/// A record whose lengths fit their prefixes.
pub open spec fn encodable(v: ValueModel) -> bool {
    v.0.0.len() <= u16::MAX && v.1.len() <= u32::MAX
}

/// The record that `s` starts with, and how many bytes it takes.
pub open spec fn decode_value(s: Seq<u8>) -> Result<(ValueModel, nat), DeserializeError> {
    if s.len() < 2 {
        Err(DeserializeError::LengthMismatch)
    } else {
        let kl = u16_of_be(s) as int;
        if s.len() < kl + 11 {
            Err(DeserializeError::LengthMismatch)
        } else {
            match ValueType::of_byte(s[kl + 10]) {
                None => Err(DeserializeError::UnknownValueType(s[kl + 10])),
                Some(t) => {
                    if s.len() < kl + 15 {
                        Err(DeserializeError::LengthMismatch)
                    } else {
                        let vl = u32_of_be(s.subrange(kl + 11, kl + 15)) as int;
                        if s.len() < kl + 15 + vl {
                            Err(DeserializeError::LengthMismatch)
                        } else {
                            Ok(
                                (
                                    (
                                        (
                                            s.subrange(2, kl + 2),
                                            u64_of_be(s.subrange(kl + 2, kl + 10)),
                                            t,
                                        ),
                                        s.subrange(kl + 15, kl + 15 + vl),
                                    ),
                                    (kl + 15 + vl) as nat,
                                ),
                            )
                        }
                    }
                },
            }
        }
    }
}

/// Decoding the encoding of a record, whatever follows it, gives back the
/// record and consumes exactly its encoding.
pub proof fn lemma_decode_encode(v: ValueModel, rest: Seq<u8>)
    requires
        encodable(v),
    ensures
        decode_value(encode_value(v) + rest) == Ok::<(ValueModel, nat), DeserializeError>(
            (v, encode_value(v).len()),
        ),
{
    let k = v.0.0;
    let kl = k.len() as int;
    let vl = v.1.len() as int;
    lemma_u16_round_trip(kl as u16);
    lemma_u32_round_trip(vl as u32);
    lemma_u64_round_trip(v.0.1);
    let s = encode_value(v) + rest;
    assert(encode_value(v).len() == kl + 15 + vl);
    assert(s.subrange(0, 2) =~= u16_be(kl as u16));
    assert(u16_of_be(s) == u16_of_be(s.subrange(0, 2)));
    assert(s.subrange(2, kl + 2) =~= k);
    assert(s.subrange(kl + 2, kl + 10) =~= u64_be(v.0.1));
    assert(s[kl + 10] == v.0.2.byte());
    assert(s.subrange(kl + 11, kl + 15) =~= u32_be(vl as u32));
    assert(s.subrange(kl + 15, kl + 15 + vl) =~= v.1);
    assert(ValueType::of_byte(v.0.2.byte()) == Some(v.0.2));
}

fn copy_range(bytes: &[u8], start: usize, end: usize) -> (r: Vec<u8>)
    requires
        start <= end <= bytes@.len(),
    ensures
        r@ == bytes@.subrange(start as int, end as int),
{
    let mut out: Vec<u8> = Vec::new();
    let mut i: usize = start;
    while i < end
        invariant
            start <= i <= end <= bytes@.len(),
            out@ == bytes@.subrange(start as int, i as int),
        decreases end - i,
    {
        out.push(bytes[i]);
        assert(out@ =~= bytes@.subrange(start as int, i + 1));
        i = i + 1;
    }
    out
}

impl InternalValue {
    /// Creates a record from a key and a value.
    pub fn new(key: InternalKey, value: UserValue) -> (r: Self)
        requires
            key.user_key@.len() > 0,
            value@.len() <= u32::MAX,
        ensures
            r.key == key,
            r.value == value,
    {
        InternalValue { key, value }
    }

    /// Creates a record from its parts.
    pub fn from_components(user_key: UserKey, value: UserValue, seqno: SeqNo, value_type: ValueType) -> (r: Self)
        requires
            0 < user_key@.len() <= u16::MAX,
            value@.len() <= u32::MAX,
        ensures
            r@ == ((user_key@, seqno, value_type), value@),
    {
        let key = InternalKey::new(user_key, seqno, value_type);
        Self::new(key, value)
    }

    /// Creates a tombstone, which hides every older version of the key.
    pub fn new_tombstone(key: UserKey, seqno: SeqNo) -> (r: Self)
        requires
            0 < key@.len() <= u16::MAX,
        ensures
            r@ == ((key@, seqno, ValueType::Tombstone), Seq::<u8>::empty()),
    {
        let key = InternalKey::new(key, seqno, ValueType::Tombstone);
        let r = Self::new(key, Vec::new());
        assert(r.value@ =~= Seq::<u8>::empty());
        r
    }

    /// Creates a weak tombstone, which hides only the next older version of the key.
    pub fn new_weak_tombstone(key: UserKey, seqno: SeqNo) -> (r: Self)
        requires
            0 < key@.len() <= u16::MAX,
        ensures
            r@ == ((key@, seqno, ValueType::WeakTombstone), Seq::<u8>::empty()),
    {
        let key = InternalKey::new(key, seqno, ValueType::WeakTombstone);
        let r = Self::new(key, Vec::new());
        assert(r.value@ =~= Seq::<u8>::empty());
        r
    }

    /// Whether the record is a deletion marker of either kind.
    pub fn is_tombstone(&self) -> (r: bool)
        ensures
            r == (self.key.value_type != ValueType::Value),
    {
        self.key.is_tombstone()
    }

    /// Appends the record's encoding to `out`.
    pub fn serialize_into(&self, out: &mut Vec<u8>)
        requires
            encodable(self@),
        ensures
            final(out)@ == old(out)@ + encode_value(self@),
    {
        push_u16(out, self.key.user_key.len() as u16);
        let mut i: usize = 0;
        let ghost start = out@;
        while i < self.key.user_key.len()
            invariant
                i <= self.key.user_key@.len(),
                out@ == start + self.key.user_key@.subrange(0, i as int),
            decreases self.key.user_key@.len() - i,
        {
            out.push(self.key.user_key[i]);
            assert(self.key.user_key@.subrange(0, i + 1) =~= self.key.user_key@.subrange(
                0,
                i as int,
            ).push(self.key.user_key@[i as int]));
            i = i + 1;
        }
        assert(self.key.user_key@.subrange(0, i as int) =~= self.key.user_key@);
        push_u64(out, self.key.seqno);
        out.push(self.key.value_type.to_byte());
        push_u32(out, self.value.len() as u32);
        let ghost mid = out@;
        let mut j: usize = 0;
        while j < self.value.len()
            invariant
                j <= self.value@.len(),
                out@ == mid + self.value@.subrange(0, j as int),
            decreases self.value@.len() - j,
        {
            out.push(self.value[j]);
            assert(self.value@.subrange(0, j + 1) =~= self.value@.subrange(0, j as int).push(
                self.value@[j as int],
            ));
            j = j + 1;
        }
        assert(self.value@.subrange(0, j as int) =~= self.value@);
        assert(out@ =~= old(out)@ + encode_value(self@));
    }

    /// Encodes the record: `u16 key_len | key | u64 seqno | u8 kind | u32
    /// value_len | value`, big-endian.
    pub fn serialize(&self) -> (r: Result<Vec<u8>, SerializeError>)
        ensures
            self@.0.0.len() > u16::MAX ==> r == Err::<Vec<u8>, SerializeError>(
                SerializeError::KeyTooLarge,
            ),
            self@.0.0.len() <= u16::MAX && self@.1.len() > u32::MAX ==> r == Err::<
                Vec<u8>,
                SerializeError,
            >(SerializeError::ValueTooLarge),
            encodable(self@) ==> (r matches Ok(b) && b@ == encode_value(self@)),
    {
        if self.key.user_key.len() > 65535 {
            return Err(SerializeError::KeyTooLarge);
        }
        if self.value.len() > u32::MAX as usize {
            return Err(SerializeError::ValueTooLarge);
        }
        let mut out: Vec<u8> = Vec::new();
        self.serialize_into(&mut out);
        assert(out@ =~= encode_value(self@));
        Ok(out)
    }

    /// Decodes the record at the start of `bytes`; on success also returns
    /// how many bytes it took.
    pub fn deserialize(bytes: &[u8]) -> (r: Result<(InternalValue, usize), DeserializeError>)
        ensures
            match r {
                Ok((v, n)) => decode_value(bytes@) == Ok::<(ValueModel, nat), DeserializeError>(
                    (v@, n as nat),
                ),
                Err(e) => decode_value(bytes@) == Err::<(ValueModel, nat), DeserializeError>(e),
            },
    {
        let len = bytes.len() as u64;
        if len < 2 {
            return Err(DeserializeError::LengthMismatch);
        }
        let kl = read_u16_at(bytes, 0);
        assert(bytes@.subrange(0, 2)[0] == bytes@[0] && bytes@.subrange(0, 2)[1] == bytes@[1]);
        if len < kl as u64 + 11 {
            return Err(DeserializeError::LengthMismatch);
        }
        let k = kl as usize;
        let user_key = copy_range(bytes, 2, k + 2);
        let seqno = read_u64_at(bytes, k + 2);
        let value_type = match ValueType::from_byte(bytes[k + 10]) {
            Some(t) => t,
            None => {
                return Err(DeserializeError::UnknownValueType(bytes[k + 10]));
            },
        };
        if len < kl as u64 + 15 {
            return Err(DeserializeError::LengthMismatch);
        }
        let vl = read_u32_at(bytes, k + 11);
        if len < kl as u64 + 15 + vl as u64 {
            return Err(DeserializeError::LengthMismatch);
        }
        let end = k + 15 + vl as usize;
        let value = copy_range(bytes, k + 15, end);
        let v = InternalValue { key: InternalKey { user_key, seqno, value_type }, value };
        Ok((v, end))
    }
}

} // verus!
