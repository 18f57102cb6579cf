//! Core of a log-structured merge-tree key-value store: multi-version
//! records, their on-disk encoding, sorted segments with their filters, and
//! the levels that organise them.

mod bloom;
mod coding;
mod error;
mod key;
mod key_range;
mod level;
mod lex;
mod segment;
mod value;

pub use bloom::{
    bit_position, fnv1a, BloomFilter, FNV_OFFSET, FNV_PRIME, MAX_FILTER_BYTES, MAX_HASH_COUNT,
};
pub use coding::{u16_be, u16_of_be, u32_be, u32_of_be, u64_be, u64_of_be};
pub use error::Error;
pub use key::{key_cmp, InternalKey};
pub use key_range::{
    has_prefix, in_bounds, lower_admits, ranges_disjoint, ranges_meet_bounds, ranges_overlap,
    starts_with, upper_admits, within_bounds, Bound, KeyRange, RangeModel,
};
pub use level::{
    in_order, key_ranges, overlapping, sorted_segments, total_size, without_id, Level,
};
pub use lex::{compare_bytes, lex_le, lex_lt};
pub use segment::{
    count_keys, count_tombstones, decode_all, lemma_precedes_transitive,
    lemma_range_is_sorted_filter, precedes, prepend, records_in_bounds, records_size,
    records_with_prefix, saturate, sorted_records, visible, Metadata, Segment, SegmentId, TreeId,
    BLOOM_HASH_COUNT,
};
pub use value::{
    decode_value, encodable, encode_key, encode_value, lemma_decode_encode, DeserializeError,
    InternalValue, SeqNo, SerializeError, UserKey, UserValue, ValueModel, ValueType,
};
