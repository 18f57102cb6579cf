use crate::lex::{compare_bytes, lex_lt};
use crate::value::{SeqNo, UserKey, ValueType};
use vstd::prelude::*;

verus! {

/// Key of a record: the user key, the sequence number and the kind.
///
/// Keys sort by user key ascending, then by sequence number descending, then
/// by kind, so that the newest version of a user key comes first.
#[derive(Debug)]
pub struct InternalKey {
    pub user_key: UserKey,
    pub seqno: SeqNo,
    pub value_type: ValueType,
}

impl View for InternalKey {
    type V = (Seq<u8>, u64, ValueType);

    open spec fn view(&self) -> (Seq<u8>, u64, ValueType) {
        (self.user_key@, self.seqno, self.value_type)
    }
}

/// How two keys compare.
pub open spec fn key_cmp(a: (Seq<u8>, u64, ValueType), b: (Seq<u8>, u64, ValueType)) -> core::cmp::Ordering {
    if lex_lt(a.0, b.0) {
        core::cmp::Ordering::Less
    } else if lex_lt(b.0, a.0) {
        core::cmp::Ordering::Greater
    } else if a.1 > b.1 {
        core::cmp::Ordering::Less
    } else if a.1 < b.1 {
        core::cmp::Ordering::Greater
    } else if a.2.byte() < b.2.byte() {
        core::cmp::Ordering::Less
    } else if a.2.byte() > b.2.byte() {
        core::cmp::Ordering::Greater
    } else {
        core::cmp::Ordering::Equal
    }
}

impl InternalKey {
    /// Creates a key.
    pub fn new(user_key: UserKey, seqno: SeqNo, value_type: ValueType) -> (r: Self)
        requires
            0 < user_key@.len() <= u16::MAX,
        ensures
            r.user_key == user_key,
            r.seqno == seqno,
            r.value_type == value_type,
    {
        InternalKey { user_key, seqno, value_type }
    }

    /// Whether the key marks a deletion of either kind.
    pub fn is_tombstone(&self) -> (r: bool)
        ensures
            r == (self.value_type != ValueType::Value),
    {
        !matches!(self.value_type, ValueType::Value)
    }
}

impl Clone for InternalKey {
    fn clone(&self) -> (r: Self)
        ensures
            r@ == self@,
    {
        let user_key = self.user_key.clone();
        assert(user_key@ =~= self.user_key@);
        InternalKey { user_key, seqno: self.seqno, value_type: self.value_type }
    }
}

impl PartialEq for InternalKey {
    fn eq(&self, other: &InternalKey) -> (r: bool) {
        let c = compare_bytes(self.user_key.as_slice(), other.user_key.as_slice());
        matches!(c, core::cmp::Ordering::Equal) && self.seqno == other.seqno && self.value_type
            == other.value_type
    }
}

impl vstd::std_specs::cmp::PartialEqSpecImpl for InternalKey {
    open spec fn obeys_eq_spec() -> bool {
        true
    }

    open spec fn eq_spec(&self, other: &InternalKey) -> bool {
        self@ == other@
    }
}

impl PartialOrd for InternalKey {
    fn partial_cmp(&self, other: &InternalKey) -> (r: Option<core::cmp::Ordering>) {
        let c = compare_bytes(self.user_key.as_slice(), other.user_key.as_slice());
        match c {
            core::cmp::Ordering::Less => Some(core::cmp::Ordering::Less),
            core::cmp::Ordering::Greater => Some(core::cmp::Ordering::Greater),
            core::cmp::Ordering::Equal => {
                let a = self.value_type.to_byte();
                let b = other.value_type.to_byte();
                if self.seqno > other.seqno {
                    Some(core::cmp::Ordering::Less)
                } else if self.seqno < other.seqno {
                    Some(core::cmp::Ordering::Greater)
                } else if a < b {
                    Some(core::cmp::Ordering::Less)
                } else if a > b {
                    Some(core::cmp::Ordering::Greater)
                } else {
                    Some(core::cmp::Ordering::Equal)
                }
            },
        }
    }
}

impl vstd::std_specs::cmp::PartialOrdSpecImpl for InternalKey {
    open spec fn obeys_partial_cmp_spec() -> bool {
        true
    }

    open spec fn partial_cmp_spec(&self, other: &InternalKey) -> Option<core::cmp::Ordering> {
        Some(key_cmp(self@, other@))
    }
}

} // verus!
