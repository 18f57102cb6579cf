use crate::key::InternalKey;
use crate::key_range::{
    bytes_lt, has_prefix, in_bounds, starts_with, within_bounds, Bound, KeyRange,
};
use crate::lex::{
    compare_bytes, lemma_lex_asymmetric, lemma_lex_le_iff_not_lt, lemma_lex_le_lt, lex_le, lex_lt,
};
use crate::bloom::{BloomFilter, MAX_FILTER_BYTES};
use crate::error::Error;
use crate::value::{decode_value, DeserializeError, InternalValue, SeqNo, ValueModel, ValueType};
use vstd::prelude::*;

verus! {

/// Identifier of a segment, unique within a tree.
pub type SegmentId = u64;

/// Identifier of a tree.
pub type TreeId = u64;

/// `a` sorts strictly before `b` in a segment: by user key ascending, then by
/// sequence number descending.
pub open spec fn precedes(a: (Seq<u8>, u64, ValueType), b: (Seq<u8>, u64, ValueType)) -> bool {
    lex_lt(a.0, b.0) || (a.0 == b.0 && a.1 > b.1)
}

/// A record is seen by a read of `key` at the optional snapshot.
pub open spec fn visible(v: ValueModel, key: Seq<u8>, snapshot: Option<SeqNo>) -> bool {
    &&& v.0.0 == key
    &&& match snapshot {
        Some(s) => v.0.1 < s,
        None => true,
    }
}

/// The records whose user key lies within the bounds, in their order.
pub open spec fn records_in_bounds(s: Seq<ValueModel>, lo: Bound, hi: Bound) -> Seq<ValueModel>
    decreases s.len(),
{
    if s.len() == 0 {
        s
    } else if within_bounds(s.last().0.0, lo, hi) {
        records_in_bounds(s.drop_last(), lo, hi).push(s.last())
    } else {
        records_in_bounds(s.drop_last(), lo, hi)
    }
}

/// The records whose user key starts with `p`, in their order.
pub open spec fn records_with_prefix(s: Seq<ValueModel>, p: Seq<u8>) -> Seq<ValueModel>
    decreases s.len(),
{
    if s.len() == 0 {
        s
    } else if has_prefix(s.last().0.0, p) {
        records_with_prefix(s.drop_last(), p).push(s.last())
    } else {
        records_with_prefix(s.drop_last(), p)
    }
}

/// Number of deletion markers among the records.
pub open spec fn count_tombstones(s: Seq<ValueModel>) -> nat
    decreases s.len(),
{
    if s.len() == 0 {
        0
    } else {
        count_tombstones(s.drop_last()) + if s.last().0.2 != ValueType::Value {
            1nat
        } else {
            0nat
        }
    }
}

/// Number of runs of equal user keys among the records; for sorted records,
/// the number of distinct user keys.
pub open spec fn count_keys(s: Seq<ValueModel>) -> nat
    decreases s.len(),
{
    if s.len() == 0 {
        0
    } else {
        count_keys(s.drop_last()) + if s.len() == 1 || s[s.len() - 2].0.0 != s.last().0.0 {
            1nat
        } else {
            0nat
        }
    }
}

/// Bytes that the records take once encoded.
pub open spec fn records_size(s: Seq<ValueModel>) -> nat
    decreases s.len(),
{
    if s.len() == 0 {
        0
    } else {
        records_size(s.drop_last()) + 15 + s.last().0.0.len() + s.last().1.len()
    }
}

/// Records strictly ordered by [`precedes`].
pub open spec fn sorted_records(s: Seq<ValueModel>) -> bool {
    forall|i: int, j: int| 0 <= i < j < s.len() ==> precedes(#[trigger] s[i].0, #[trigger] s[j].0)
}

pub proof fn lemma_precedes_transitive(
    a: (Seq<u8>, u64, ValueType),
    b: (Seq<u8>, u64, ValueType),
    c: (Seq<u8>, u64, ValueType),
)
    requires
        precedes(a, b),
        precedes(b, c),
    ensures
        precedes(a, c),
{
    lemma_lex_le_lt(a.0, b.0, c.0);
}

/// A range read over sorted records returns exactly the stored records
/// within the bounds, each once, in sorted order.
pub proof fn lemma_range_is_sorted_filter(s: Seq<ValueModel>, lo: Bound, hi: Bound)
    requires
        sorted_records(s),
    ensures
        sorted_records(records_in_bounds(s, lo, hi)),
        forall|m: ValueModel| #[trigger]
            records_in_bounds(s, lo, hi).contains(m) ==> s.contains(m) && within_bounds(m.0.0, lo, hi),
        forall|i: int|
            0 <= i < s.len() && within_bounds(s[i].0.0, lo, hi) ==> records_in_bounds(s, lo, hi).contains(
                #[trigger] s[i],
            ),
    decreases s.len(),
{
    if s.len() > 0 {
        let dl = s.drop_last();
        let x = s.last();
        assert(sorted_records(dl)) by {
            assert forall|i: int, j: int| 0 <= i < j < dl.len() implies precedes(#[trigger] dl[i].0, #[trigger] dl[j].0) by {
                assert(dl[i] == s[i] && dl[j] == s[j]);
            }
        }
        lemma_range_is_sorted_filter(dl, lo, hi);
        let rd = records_in_bounds(dl, lo, hi);
        let r = records_in_bounds(s, lo, hi);
        assert forall|m: ValueModel| #[trigger] r.contains(m) implies s.contains(m) && within_bounds(m.0.0, lo, hi) by {
            if rd.contains(m) {
                let k = choose|k: int| 0 <= k < dl.len() && dl[k] == m;
                assert(s[k] == m);
            } else {
                let k = choose|k: int| 0 <= k < r.len() && r[k] == m;
                assert(k == r.len() - 1);
                assert(s[s.len() - 1] == m);
            }
        }
        assert forall|i: int| 0 <= i < s.len() && within_bounds(s[i].0.0, lo, hi) implies r.contains(#[trigger] s[i]) by {
            if i < s.len() - 1 {
                assert(dl[i] == s[i]);
                assert(rd.contains(dl[i]));
                if within_bounds(x.0.0, lo, hi) {
                    let k = choose|k: int| 0 <= k < rd.len() && rd[k] == s[i];
                    assert(r[k] == s[i]);
                }
            } else {
                assert(r[r.len() - 1] == s[i]);
            }
        }
        if within_bounds(x.0.0, lo, hi) {
            assert forall|i: int, j: int| 0 <= i < j < r.len() implies precedes(#[trigger] r[i].0, #[trigger] r[j].0) by {
                if j == r.len() - 1 {
                    assert(rd.contains(r[i]));
                    let k = choose|k: int| 0 <= k < dl.len() && dl[k] == r[i];
                    assert(precedes(s[k].0, s[s.len() - 1].0));
                } else {
                    assert(r[i] == rd[i] && r[j] == rd[j]);
                }
            }
        }
    }
}

/// `n`, or `u64::MAX` where it is larger.
pub open spec fn saturate(n: nat) -> u64 {
    if n > u64::MAX {
        u64::MAX
    } else {
        n as u64
    }
}

fn saturating_add(a: u64, b: u64) -> (r: u64)
    ensures
        r == saturate((a + b) as nat),
{
    if a > u64::MAX - b {
        u64::MAX
    } else {
        a + b
    }
}

/// Records stored back to back, each as [`crate::encode_value`] writes it.
pub open spec fn decode_all(s: Seq<u8>) -> Result<Seq<ValueModel>, DeserializeError>
    decreases s.len(),
{
    if s.len() == 0 {
        Ok(Seq::empty())
    } else {
        match decode_value(s) {
            Err(e) => Err(e),
            Ok((v, n)) => {
                if 0 < n <= s.len() {
                    match decode_all(s.subrange(n as int, s.len() as int)) {
                        Ok(rest) => Ok(seq![v] + rest),
                        Err(e) => Err(e),
                    }
                } else {
                    Err(DeserializeError::LengthMismatch)
                }
            },
        }
    }
}

/// `vs` followed by the records of `r`, or the error of `r`.
pub open spec fn prepend(vs: Seq<ValueModel>, r: Result<Seq<ValueModel>, DeserializeError>) -> Result<Seq<ValueModel>, DeserializeError> {
    match r {
        Ok(rest) => Ok(vs + rest),
        Err(e) => Err(e),
    }
}

/// Persisted description of a segment.
#[derive(Debug)]
pub struct Metadata {
    /// Segment identifier
    pub id: SegmentId,
    /// Bytes that the segment's records take once encoded
    pub file_size: u64,
    /// Number of records
    pub item_count: u64,
    /// Number of distinct user keys
    pub key_count: u64,
    /// Number of deletion markers
    pub tombstone_count: u64,
    /// Least and greatest user key
    pub key_range: KeyRange,
    /// Least and greatest sequence number, both inclusive
    pub seqnos: (SeqNo, SeqNo),
}

/// Immutable sorted run of records (a sorted-string table).
///
/// Records are strictly ordered by user key ascending, then by sequence
/// number descending, so the newest version of a key comes first.
#[derive(Debug)]
pub struct Segment {
    pub tree_id: TreeId,
    /// Segment metadata
    pub metadata: Metadata,
    /// The records, in order
    pub items: Vec<InternalValue>,
    /// Filter over the records' user keys
    pub bloom_filter: BloomFilter,
}

/// Hash functions of the filters that segments build.
pub const BLOOM_HASH_COUNT: u64 = 5;

impl Segment {
    /// The user key of the record at `i`.
    pub open spec fn user_key_at(&self, i: int) -> Seq<u8> {
        self.items@[i].key.user_key@
    }

    /// The records, as values.
    pub open spec fn records(&self) -> Seq<ValueModel> {
        self.items@.map_values(|v: InternalValue| v@)
    }

    /// Records are strictly ordered and the metadata's key range and
    /// sequence number interval enclose them.
    pub open spec fn wf(&self) -> bool {
        &&& forall|i: int, j: int|
            0 <= i < j < self.items@.len() ==> precedes(
                #[trigger] self.items@[i].key@,
                #[trigger] self.items@[j].key@,
            )
        &&& forall|i: int|
            0 <= i < self.items@.len() ==> {
                &&& lex_le(self.metadata.key_range.min@, #[trigger] self.items@[i].key.user_key@)
                &&& lex_le(self.items@[i].key.user_key@, self.metadata.key_range.max@)
                &&& self.metadata.seqnos.0 <= self.items@[i].key.seqno <= self.metadata.seqnos.1
                &&& self.bloom_filter.may_contain(self.items@[i].key.user_key@)
            }
        &&& self.bloom_filter.wf()
    }

    /// `i` is the first record seen by a read of `key` at `snapshot`.
    pub open spec fn is_first_visible(&self, i: int, key: Seq<u8>, snapshot: Option<SeqNo>) -> bool {
        &&& 0 <= i < self.items@.len()
        &&& visible(self.items@[i]@, key, snapshot)
        &&& forall|j: int| 0 <= j < i ==> !visible(#[trigger] self.items@[j]@, key, snapshot)
    }

    /// Builds a segment from records, computing its metadata and filter.
    /// Returns `None` when there are no records or they are not strictly
    /// ordered by [`precedes`].
    pub fn from_items(tree_id: TreeId, id: SegmentId, items: Vec<InternalValue>) -> (r: Option<Segment>)
        ensures
            r is None <==> (items@.len() == 0 || !(forall|i: int, j: int|
                0 <= i < j < items@.len() ==> precedes(
                    #[trigger] items@[i].key@,
                    #[trigger] items@[j].key@,
                ))),
            r matches Some(seg) ==> {
                &&& seg.wf()
                &&& seg.tree_id == tree_id
                &&& seg.metadata.id == id
                &&& seg.items == items
                &&& seg.metadata.key_range.min@ == items@[0].key.user_key@
                &&& seg.metadata.key_range.max@ == items@.last().key.user_key@
                &&& (exists|i: int| 0 <= i < items@.len() && #[trigger] items@[i].key.seqno == seg.metadata.seqnos.0)
                &&& (exists|i: int| 0 <= i < items@.len() && #[trigger] items@[i].key.seqno == seg.metadata.seqnos.1)
                &&& seg.metadata.item_count == items@.len()
                &&& seg.metadata.tombstone_count == count_tombstones(seg.records())
                &&& seg.metadata.key_count == count_keys(seg.records())
                &&& seg.metadata.file_size == saturate(records_size(seg.records()))
            },
    {
        let n = items.len();
        if n == 0 {
            return None;
        }
        let ghost vs = items@.map_values(|v: InternalValue| v@);
        let mut lo: u64 = items[0].key.seqno;
        let mut hi: u64 = items[0].key.seqno;
        let mut tombstones: u64 = 0;
        let mut keys: u64 = 0;
        let mut size: u64 = 0;
        let n_bytes = if n < MAX_FILTER_BYTES {
            n + 1
        } else {
            MAX_FILTER_BYTES
        };
        let mut bloom = BloomFilter::new(n_bytes, BLOOM_HASH_COUNT);
        let mut i: usize = 0;
        while i < n
            invariant
                bloom.wf(),
                forall|a: int| 0 <= a < i ==> bloom.may_contain(#[trigger] items@[a].key.user_key@),
                n == items@.len(),
                vs == items@.map_values(|v: InternalValue| v@),
                0 < n,
                i <= n,
                forall|a: int, b: int| 0 <= a < b < i ==> precedes(
                    #[trigger] items@[a].key@,
                    #[trigger] items@[b].key@,
                ),
                forall|a: int| 0 <= a < i ==> lo <= #[trigger] items@[a].key.seqno <= hi,
                i == 0 ==> lo == items@[0].key.seqno && hi == items@[0].key.seqno,
                exists|a: int| 0 <= a < n && #[trigger] items@[a].key.seqno == lo,
                exists|a: int| 0 <= a < n && #[trigger] items@[a].key.seqno == hi,
                tombstones == count_tombstones(vs.subrange(0, i as int)),
                keys == count_keys(vs.subrange(0, i as int)),
                tombstones <= i,
                keys <= i,
                size == saturate(records_size(vs.subrange(0, i as int))),
            decreases n - i,
        {
            let ghost next = vs.subrange(0, i + 1);
            assert(next.drop_last() =~= vs.subrange(0, i as int));
            assert(next.last() == items@[i as int]@);
            let mut new_key = true;
            if i > 0 {
                assert(next[i - 1] == items@[i - 1]@);
                let c = compare_bytes(
                    items[i - 1].key.user_key.as_slice(),
                    items[i].key.user_key.as_slice(),
                );
                match c {
                    core::cmp::Ordering::Less => {},
                    core::cmp::Ordering::Equal => {
                        if items[i - 1].key.seqno <= items[i].key.seqno {
                            proof {
                                crate::lex::lemma_lex_irreflexive(items@[i as int].key.user_key@);
                            }
                            return None;
                        }
                        new_key = false;
                    },
                    core::cmp::Ordering::Greater => {
                        proof {
                            lemma_lex_asymmetric(items@[i as int].key.user_key@, items@[i - 1].key.user_key@);
                        }
                        return None;
                    },
                }
                proof {
                    assert forall|a: int, b: int| 0 <= a < b < i + 1 implies precedes(
                        #[trigger] items@[a].key@,
                        #[trigger] items@[b].key@,
                    ) by {
                        if b == i && a < i - 1 {
                            lemma_precedes_transitive(items@[a].key@, items@[i - 1].key@, items@[b].key@);
                        }
                    }
                }
            }
            let item = &items[i];
            let ghost b0 = bloom;
            bloom.insert(item.key.user_key.as_slice());
            proof {
                assert forall|a: int| 0 <= a < i + 1 implies bloom.may_contain(#[trigger] items@[a].key.user_key@) by {
                    if a < i {
                        let k = items@[a].key.user_key@;
                        assert(b0.may_contain(k));
                        assert forall|q: u64| q < bloom.hash_count implies #[trigger] bloom.bit(
                            crate::bloom::bit_position(crate::bloom::fnv1a(k), q, bloom.bit_count()) as int,
                        ) by {
                            assert(b0.bit(crate::bloom::bit_position(crate::bloom::fnv1a(k), q, b0.bit_count()) as int));
                        }
                    }
                }
            }
            if item.key.seqno < lo {
                lo = item.key.seqno;
            }
            if item.key.seqno > hi {
                hi = item.key.seqno;
            }
            if item.is_tombstone() {
                tombstones = tombstones + 1;
            }
            if new_key {
                keys = keys + 1;
            }
            size = saturating_add(size, 15);
            size = saturating_add(size, item.key.user_key.len() as u64);
            size = saturating_add(size, item.value.len() as u64);
            i = i + 1;
        }
        assert(vs.subrange(0, n as int) =~= vs);
        let min = items[0].key.user_key.clone();
        let max = items[n - 1].key.user_key.clone();
        assert(min@ =~= items@[0].key.user_key@);
        assert(max@ =~= items@[n - 1].key.user_key@);
        let metadata = Metadata {
            id,
            file_size: size,
            item_count: n as u64,
            key_count: keys,
            tombstone_count: tombstones,
            key_range: KeyRange { min, max },
            seqnos: (lo, hi),
        };
        let seg = Segment { tree_id, metadata, items, bloom_filter: bloom };
        proof {
            assert(seg.records() =~= vs);
            assert forall|a: int| 0 <= a < n implies {
                &&& lex_le(seg.metadata.key_range.min@, #[trigger] seg.items@[a].key.user_key@)
                &&& lex_le(seg.items@[a].key.user_key@, seg.metadata.key_range.max@)
            } by {
                if a > 0 {
                    assert(precedes(seg.items@[0].key@, seg.items@[a].key@));
                }
                if a < n - 1 {
                    assert(precedes(seg.items@[a].key@, seg.items@[n - 1].key@));
                }
            }
        }
        Some(seg)
    }

    /// Recovers a segment from its stored records: encoded records back to
    /// back, strictly ordered.
    pub fn recover(tree_id: TreeId, id: SegmentId, bytes: &[u8]) -> (r: Result<Segment, Error>)
        ensures
            bytes@.len() == 0 ==> r == Err::<Segment, Error>(Error::Deserialize(DeserializeError::LengthMismatch)),
            bytes@.len() > 0 ==> match decode_all(bytes@) {
                Err(e) => r == Err::<Segment, Error>(Error::Deserialize(e)),
                Ok(rs) => {
                    &&& !sorted_records(rs) ==> r == Err::<Segment, Error>(Error::Deserialize(DeserializeError::Unordered))
                    &&& sorted_records(rs) ==> (r matches Ok(seg) && {
                        &&& seg.wf()
                        &&& seg.records() == rs
                        &&& seg.tree_id == tree_id
                        &&& seg.metadata.id == id
                        &&& seg.metadata.key_range@ == (rs[0].0.0, rs.last().0.0)
                    })
                },
            },
    {
        if bytes.len() == 0 {
            return Err(Error::Deserialize(DeserializeError::LengthMismatch));
        }
        let mut items: Vec<InternalValue> = Vec::new();
        let mut pos: usize = 0;
        assert(bytes@.subrange(0, bytes@.len() as int) =~= bytes@);
        assert(items@.map_values(|v: InternalValue| v@) =~= Seq::<ValueModel>::empty());
        while pos < bytes.len()
            invariant
                pos <= bytes@.len(),
                pos > 0 ==> items@.len() > 0,
                decode_all(bytes@) == prepend(
                    items@.map_values(|v: InternalValue| v@),
                    decode_all(bytes@.subrange(pos as int, bytes@.len() as int)),
                ),
            decreases bytes@.len() - pos,
        {
            let rest = &bytes[pos..bytes.len()];
            match InternalValue::deserialize(rest) {
                Err(e) => {
                    return Err(Error::Deserialize(e));
                },
                Ok((v, n)) => {
                    let ghost vs0 = items@.map_values(|v: InternalValue| v@);
                    let ghost tail = rest@.subrange(n as int, rest@.len() as int);
                    assert(tail =~= bytes@.subrange(pos + n, bytes@.len() as int));
                    assert(decode_all(rest@) == prepend(seq![v@], decode_all(tail)));
                    items.push(v);
                    assert(items@.map_values(|v: InternalValue| v@) =~= vs0.push(v@));
                    assert(prepend(vs0, prepend(seq![v@], decode_all(tail))) == prepend(vs0.push(v@), decode_all(tail))) by {
                        if let Ok(t) = decode_all(tail) {
                            assert(vs0 + (seq![v@] + t) =~= vs0.push(v@) + t);
                        }
                    }
                    pos = pos + n;
                },
            }
        }
        let ghost vs = items@.map_values(|v: InternalValue| v@);
        assert(bytes@.subrange(pos as int, bytes@.len() as int) =~= Seq::<u8>::empty());
        assert(vs + Seq::<ValueModel>::empty() =~= vs);
        match Segment::from_items(tree_id, id, items) {
            Some(seg) => {
                assert(seg.records() =~= vs);
                Ok(seg)
            },
            None => {
                proof {
                    if sorted_records(vs) {
                        assert forall|i: int, j: int| 0 <= i < j < items@.len() implies precedes(
                            #[trigger] items@[i].key@,
                            #[trigger] items@[j].key@,
                        ) by {
                            assert(vs[i] == items@[i]@ && vs[j] == items@[j]@);
                            assert(precedes(vs[i].0, vs[j].0));
                        }
                    }
                }
                Err(Error::Deserialize(DeserializeError::Unordered))
            },
        }
    }

    /// A read without a snapshot sees the record just written for a key when
    /// no newer version of that key is stored: it is the first record seen.
    pub proof fn lemma_read_own_write(&self, t: int)
        requires
            self.wf(),
            0 <= t < self.items@.len(),
            forall|j: int|
                0 <= j < self.items@.len() && #[trigger] self.user_key_at(j) == self.user_key_at(t)
                    ==> self.items@[j].key.seqno <= self.items@[t].key.seqno,
        ensures
            self.is_first_visible(t, self.user_key_at(t), None),
            forall|i: int| #[trigger] self.is_first_visible(i, self.user_key_at(t), None) ==> i == t,
    {
        assert forall|j: int| 0 <= j < t implies !visible(#[trigger] self.items@[j]@, self.user_key_at(t), None) by {
            assert(precedes(self.items@[j].key@, self.items@[t].key@));
            if self.user_key_at(j) == self.user_key_at(t) {
                crate::lex::lemma_lex_irreflexive(self.user_key_at(t));
            }
        }
    }

    /// A read at snapshot `s` returns a version older than `s`, and the
    /// segment holds no version of the key between the two.
    pub proof fn lemma_snapshot_read_newest(&self, key: Seq<u8>, s: SeqNo, i: int)
        requires
            self.wf(),
            self.is_first_visible(i, key, Some(s)),
        ensures
            self.items@[i].key.seqno < s,
            forall|j: int|
                0 <= j < self.items@.len() && #[trigger] self.user_key_at(j) == key
                    && self.items@[i].key.seqno < self.items@[j].key.seqno ==> self.items@[j].key.seqno >= s,
    {
        assert forall|j: int|
            0 <= j < self.items@.len() && #[trigger] self.user_key_at(j) == key
                && self.items@[i].key.seqno < self.items@[j].key.seqno implies self.items@[j].key.seqno >= s by {
            crate::lex::lemma_lex_irreflexive(key);
            if j > i {
                assert(precedes(self.items@[i].key@, self.items@[j].key@));
            } else if j < i {
                assert(!visible(self.items@[j]@, key, Some(s)));
            }
        }
    }

    /// A read just above a tombstone's sequence number finds that tombstone:
    /// it is the first record seen, so no older version shows through.
    pub proof fn lemma_tombstone_hides(&self, t: int)
        requires
            self.wf(),
            0 <= t < self.items@.len(),
            self.items@[t].key.value_type == ValueType::Tombstone,
            self.items@[t].key.seqno < u64::MAX,
        ensures
            self.is_first_visible(t, self.user_key_at(t), Some((self.items@[t].key.seqno + 1) as u64)),
            forall|i: int|
                #[trigger] self.is_first_visible(i, self.user_key_at(t), Some((self.items@[t].key.seqno + 1) as u64))
                    ==> i == t,
    {
        let s = (self.items@[t].key.seqno + 1) as u64;
        let key = self.user_key_at(t);
        crate::lex::lemma_lex_irreflexive(key);
        assert forall|j: int| 0 <= j < t implies !visible(#[trigger] self.items@[j]@, key, Some(s)) by {
            assert(precedes(self.items@[j].key@, self.items@[t].key@));
        }
        assert forall|i: int| #[trigger] self.is_first_visible(i, key, Some(s)) implies i == t by {
            if i < t {
                assert(precedes(self.items@[i].key@, self.items@[t].key@));
            } else if i > t {
                assert(visible(self.items@[t]@, key, Some(s)));
            }
        }
    }

    /// Index of the first record whose user key is not below `key`.
    fn lower_bound(&self, key: &[u8]) -> (r: usize)
        requires
            self.wf(),
        ensures
            r <= self.items@.len(),
            forall|j: int| 0 <= j < r ==> lex_lt(#[trigger] self.user_key_at(j), key@),
            forall|j: int| r <= j < self.items@.len() ==> !lex_lt(#[trigger] self.user_key_at(j), key@),
    {
        let mut lo: usize = 0;
        let mut hi: usize = self.items.len();
        while lo < hi
            invariant
                self.wf(),
                lo <= hi <= self.items@.len(),
                forall|j: int| 0 <= j < lo ==> lex_lt(#[trigger] self.user_key_at(j), key@),
                forall|j: int| hi <= j < self.items@.len() ==> !lex_lt(#[trigger] self.user_key_at(j), key@),
            decreases hi - lo,
        {
            let mid = lo + (hi - lo) / 2;
            if bytes_lt(self.items[mid].key.user_key.as_slice(), key) {
                proof {
                    assert forall|j: int| 0 <= j < mid + 1 implies lex_lt(#[trigger] self.user_key_at(j), key@) by {
                        if j < mid {
                            assert(precedes(self.items@[j].key@, self.items@[mid as int].key@));
                            lemma_lex_le_lt(self.user_key_at(j), self.user_key_at(mid as int), key@);
                        }
                    }
                }
                lo = mid + 1;
            } else {
                proof {
                    assert forall|j: int| mid <= j < self.items@.len() implies !lex_lt(#[trigger] self.user_key_at(j), key@) by {
                        if j > mid {
                            assert(precedes(self.items@[mid as int].key@, self.items@[j].key@));
                            lemma_lex_le_iff_not_lt(key@, self.user_key_at(mid as int));
                            lemma_lex_le_lt(key@, self.user_key_at(mid as int), self.user_key_at(j));
                            lemma_lex_le_iff_not_lt(key@, self.user_key_at(j));
                        }
                    }
                }
                hi = mid;
            }
        }
        lo
    }

    /// Retrieves the newest record of `key` that a read at `seqno` sees: with
    /// `Some(s)`, only records with a sequence number below `s` count.
    /// Deletion markers are returned like values.
    pub fn get(&self, key: &[u8], seqno: Option<SeqNo>) -> (r: Option<InternalValue>)
        requires
            self.wf(),
        ensures
            match r {
                Some(v) => exists|i: int| #[trigger] self.is_first_visible(i, key@, seqno) && v@ == self.items@[i]@,
                None => forall|i: int| 0 <= i < self.items@.len() ==> !visible(#[trigger] self.items@[i]@, key@, seqno),
            },
    {
        if let Some(s) = seqno {
            if self.metadata.seqnos.0 >= s {
                return None;
            }
        }
        if !self.metadata.key_range.contains_key(key) {
            return None;
        }
        if !self.bloom_filter.contains(key) {
            return None;
        }
        let lo = self.lower_bound(key);
        proof {
            assert forall|j: int| 0 <= j < lo implies !visible(#[trigger] self.items@[j]@, key@, seqno) by {
                assert(lex_lt(self.user_key_at(j), key@));
                lemma_lex_asymmetric(self.user_key_at(j), key@);
            }
        }
        let mut i: usize = lo;
        while i < self.items.len()
            invariant
                self.wf(),
                lo <= i <= self.items@.len(),
                forall|j: int| 0 <= j < lo ==> lex_lt(#[trigger] self.user_key_at(j), key@),
                forall|j: int| lo <= j < self.items@.len() ==> !lex_lt(#[trigger] self.user_key_at(j), key@),
                forall|j: int| 0 <= j < i ==> !visible(#[trigger] self.items@[j]@, key@, seqno),
            decreases self.items@.len() - i,
        {
            let item = &self.items[i];
            let same = matches!(
                compare_bytes(item.key.user_key.as_slice(), key),
                core::cmp::Ordering::Equal
            );
            if !same {
                proof {
                    assert forall|j: int| 0 <= j < self.items@.len() implies !visible(#[trigger] self.items@[j]@, key@, seqno) by {
                        if j < lo {
                            assert(lex_lt(self.user_key_at(j), key@));
                            lemma_lex_asymmetric(self.user_key_at(j), key@);
                        } else if j > i {
                            assert(precedes(self.items@[i as int].key@, self.items@[j].key@));
                            lemma_lex_le_iff_not_lt(key@, self.user_key_at(i as int));
                            lemma_lex_le_lt(key@, self.user_key_at(i as int), self.user_key_at(j));
                            lemma_lex_asymmetric(key@, self.user_key_at(j));
                        }
                    }
                }
                return None;
            }
            let seen = match seqno {
                Some(s) => item.key.seqno < s,
                None => true,
            };
            if seen {
                let v = item.clone();
                assert(self.is_first_visible(i as int, key@, seqno));
                return Some(v);
            }
            i = i + 1;
        }
        None
    }

    /// All records, in order.
    pub fn iter(&self) -> (r: Vec<InternalValue>)
        ensures
            r@.map_values(|v: InternalValue| v@) == self.records(),
    {
        let mut out: Vec<InternalValue> = Vec::new();
        let mut i: usize = 0;
        while i < self.items.len()
            invariant
                i <= self.items@.len(),
                out@.map_values(|v: InternalValue| v@) == self.records().subrange(0, i as int),
            decreases self.items@.len() - i,
        {
            let v = self.items[i].clone();
            let ghost before = out@;
            out.push(v);
            assert(out@.map_values(|v: InternalValue| v@) =~= before.map_values(|v: InternalValue| v@).push(v@));
            assert(self.records().subrange(0, i + 1) =~= self.records().subrange(0, i as int).push(self.records()[i as int]));
            i = i + 1;
        }
        assert(self.records().subrange(0, i as int) =~= self.records());
        out
    }

    /// The records whose user key lies within the bounds, in order.
    pub fn range(&self, bounds: &(Bound, Bound)) -> (r: Vec<InternalValue>)
        ensures
            r@.map_values(|v: InternalValue| v@) == records_in_bounds(self.records(), bounds.0, bounds.1),
    {
        let mut out: Vec<InternalValue> = Vec::new();
        let mut i: usize = 0;
        while i < self.items.len()
            invariant
                i <= self.items@.len(),
                out@.map_values(|v: InternalValue| v@) == records_in_bounds(
                    self.records().subrange(0, i as int),
                    bounds.0,
                    bounds.1,
                ),
            decreases self.items@.len() - i,
        {
            let ghost before = out@;
            let ghost next = self.records().subrange(0, i + 1);
            assert(next.drop_last() =~= self.records().subrange(0, i as int));
            assert(next.last() == self.items@[i as int]@);
            if in_bounds(self.items[i].key.user_key.as_slice(), bounds) {
                let v = self.items[i].clone();
                out.push(v);
                assert(out@.map_values(|v: InternalValue| v@) =~= before.map_values(|v: InternalValue| v@).push(v@));
            }
            i = i + 1;
        }
        assert(self.records().subrange(0, i as int) =~= self.records());
        out
    }

    /// The records of [`Segment::range`], last first.
    pub fn range_rev(&self, bounds: &(Bound, Bound)) -> (r: Vec<InternalValue>)
        ensures
            r@.map_values(|v: InternalValue| v@) == records_in_bounds(self.records(), bounds.0, bounds.1).reverse(),
    {
        let fwd = self.range(bounds);
        let ghost f = fwd@.map_values(|v: InternalValue| v@);
        let mut out: Vec<InternalValue> = Vec::new();
        let mut i: usize = fwd.len();
        while i > 0
            invariant
                i <= fwd@.len(),
                f == fwd@.map_values(|v: InternalValue| v@),
                out@.map_values(|v: InternalValue| v@) == f.subrange(i as int, f.len() as int).reverse(),
            decreases i,
        {
            i = i - 1;
            let v = fwd[i].clone();
            let ghost before = out@;
            out.push(v);
            assert(out@.map_values(|v: InternalValue| v@) =~= before.map_values(|v: InternalValue| v@).push(v@));
            assert(f.subrange(i as int, f.len() as int).reverse() =~= f.subrange(i + 1, f.len() as int).reverse().push(f[i as int]));
        }
        assert(f.subrange(0, f.len() as int) =~= f);
        out
    }

    /// The records whose user key starts with `prefix`, in order.
    pub fn prefix(&self, prefix: &[u8]) -> (r: Vec<InternalValue>)
        ensures
            r@.map_values(|v: InternalValue| v@) == records_with_prefix(self.records(), prefix@),
    {
        let mut out: Vec<InternalValue> = Vec::new();
        let mut i: usize = 0;
        while i < self.items.len()
            invariant
                i <= self.items@.len(),
                out@.map_values(|v: InternalValue| v@) == records_with_prefix(
                    self.records().subrange(0, i as int),
                    prefix@,
                ),
            decreases self.items@.len() - i,
        {
            let ghost before = out@;
            let ghost next = self.records().subrange(0, i + 1);
            assert(next.drop_last() =~= self.records().subrange(0, i as int));
            assert(next.last() == self.items@[i as int]@);
            if starts_with(self.items[i].key.user_key.as_slice(), prefix) {
                let v = self.items[i].clone();
                out.push(v);
                assert(out@.map_values(|v: InternalValue| v@) =~= before.map_values(|v: InternalValue| v@).push(v@));
            }
            i = i + 1;
        }
        assert(self.records().subrange(0, i as int) =~= self.records());
        out
    }

    /// Size of the segment's filter in bytes.
    pub fn bloom_filter_size(&self) -> (r: usize)
        ensures
            r == self.bloom_filter.bytes@.len(),
    {
        self.bloom_filter.len()
    }

    /// The highest sequence number in the segment.
    pub fn get_lsn(&self) -> (r: SeqNo)
        ensures
            r == self.metadata.seqnos.1,
    {
        self.metadata.seqnos.1
    }

    /// The number of deletion markers in the segment.
    pub fn tombstone_count(&self) -> (r: u64)
        ensures
            r == self.metadata.tombstone_count,
    {
        self.metadata.tombstone_count
    }

    /// Whether the segment's key range meets the span between two bounds.
    pub fn check_key_range_overlap(&self, bounds: &(Bound, Bound)) -> (r: bool)
        ensures
            r == crate::key_range::ranges_meet_bounds(self.metadata.key_range@, bounds.0, bounds.1),
    {
        self.metadata.key_range.overlaps_with_bounds(bounds)
    }
}

} // verus!
