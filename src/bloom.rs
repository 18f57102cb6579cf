use vstd::prelude::*;

verus! {

pub const FNV_OFFSET: u64 = 0xcbf2_9ce4_8422_2325;

pub const FNV_PRIME: u64 = 0x0100_0000_01b3;

/// Largest filter, in bytes.
pub const MAX_FILTER_BYTES: usize = 0x2000_0000;

/// Most hash functions a filter may use.
pub const MAX_HASH_COUNT: u64 = 64;

/// 64-bit FNV-1a hash of a byte string.
pub open spec fn fnv1a(s: Seq<u8>) -> u64
    decreases s.len(),
{
    if s.len() == 0 {
        FNV_OFFSET
    } else {
        (((fnv1a(s.drop_last()) ^ (s.last() as u64)) as nat * FNV_PRIME as nat) % 0x1_0000_0000_0000_0000nat) as u64
    }
}

/// The bit that the `i`-th hash function picks for hash `h` among `m` bits
/// (double hashing on the two halves of `h`).
pub open spec fn bit_position(h: u64, i: u64, m: u64) -> u64 {
    (((h % m) as nat + i as nat * ((h / 0x1_0000_0000u64) % m) as nat) % m as nat) as u64
}

fn hash_key(key: &[u8]) -> (r: u64)
    ensures
        r == fnv1a(key@),
{
    let mut h: u64 = FNV_OFFSET;
    let mut i: usize = 0;
    while i < key.len()
        invariant
            i <= key@.len(),
            h == fnv1a(key@.subrange(0, i as int)),
        decreases key@.len() - i,
    {
        let ghost next = key@.subrange(0, i + 1);
        assert(next.drop_last() =~= key@.subrange(0, i as int));
        h = (h ^ (key[i] as u64)).wrapping_mul(FNV_PRIME);
        i = i + 1;
    }
    assert(key@.subrange(0, i as int) =~= key@);
    h
}

fn position(h: u64, i: u64, m: u64) -> (r: u64)
    requires
        0 < m <= 8 * MAX_FILTER_BYTES,
        i < MAX_HASH_COUNT,
    ensures
        r == bit_position(h, i, m),
        r < m,
{
    let a = h % m;
    let b = (h / 0x1_0000_0000u64) % m;
    assert(i * b <= 64 * m) by (nonlinear_arith)
        requires
            i < 64,
            b < m,
    ;
    (a + i * b) % m
}

/// Membership pre-filter over user keys: a key that was inserted is always
/// reported; one that was not may be reported too.
#[derive(Debug)]
pub struct BloomFilter {
    /// The bit array, eight bits per byte, least significant bit first
    pub bytes: Vec<u8>,
    /// Number of hash functions
    pub hash_count: u64,
}

impl BloomFilter {
    pub open spec fn wf(&self) -> bool {
        &&& 0 < self.bytes@.len() <= MAX_FILTER_BYTES
        &&& 0 < self.hash_count <= MAX_HASH_COUNT
    }

    /// Number of bits.
    pub open spec fn bit_count(&self) -> u64 {
        (self.bytes@.len() * 8) as u64
    }

    /// Whether bit `p` is set.
    pub open spec fn bit(&self, p: int) -> bool {
        (self.bytes@[p / 8] >> ((p % 8) as u8)) & 1u8 == 1u8
    }

    /// Every bit that a hash function picks for `key` is set.
    pub open spec fn may_contain(&self, key: Seq<u8>) -> bool {
        forall|i: u64|
            i < self.hash_count ==> #[trigger] self.bit(
                bit_position(fnv1a(key), i, self.bit_count()) as int,
            )
    }

    /// Creates an empty filter of `n_bytes` bytes using `hash_count` hash
    /// functions.
    pub fn new(n_bytes: usize, hash_count: u64) -> (r: Self)
        requires
            0 < n_bytes <= MAX_FILTER_BYTES,
            0 < hash_count <= MAX_HASH_COUNT,
        ensures
            r.wf(),
            r.bytes@.len() == n_bytes,
            r.hash_count == hash_count,
            forall|p: int| 0 <= p < r.bit_count() ==> !#[trigger] r.bit(p),
    {
        let bytes = vec![0u8; n_bytes];
        let r = BloomFilter { bytes, hash_count };
        assert forall|p: int| 0 <= p < r.bit_count() implies !#[trigger] r.bit(p) by {
            let j = (p % 8) as u8;
            assert(r.bytes@[p / 8] == 0u8);
            assert((0u8 >> j) & 1u8 == 0u8) by (bit_vector);
        }
        r
    }

    /// Adds `key`; every key the filter reported before it still reports.
    pub fn insert(&mut self, key: &[u8])
        requires
            old(self).wf(),
        ensures
            final(self).wf(),
            final(self).bytes@.len() == old(self).bytes@.len(),
            final(self).hash_count == old(self).hash_count,
            final(self).may_contain(key@),
            forall|p: int| 0 <= p < old(self).bit_count() && old(self).bit(p) ==> #[trigger] final(self).bit(p),
    {
        let h = hash_key(key);
        let m = (self.bytes.len() as u64) * 8;
        let ghost start = *self;
        let mut i: u64 = 0;
        while i < self.hash_count
            invariant
                self.wf(),
                self.bytes@.len() == start.bytes@.len(),
                self.hash_count == start.hash_count,
                m == self.bit_count(),
                h == fnv1a(key@),
                i <= self.hash_count,
                forall|q: u64| q < i ==> #[trigger] self.bit(bit_position(h, q, m) as int),
                forall|p: int| 0 <= p < m && start.bit(p) ==> #[trigger] self.bit(p),
            decreases self.hash_count - i,
        {
            let p = position(h, i, m);
            let idx = (p / 8) as usize;
            let j = (p % 8) as u8;
            let ghost before = *self;
            let old_byte = self.bytes[idx];
            self.bytes[idx] = old_byte | (1u8 << j);
            proof {
                assert(((old_byte | (1u8 << j)) >> j) & 1u8 == 1u8) by (bit_vector)
                    requires
                        j < 8,
                ;
                assert forall|q: int| 0 <= q < m && before.bit(q) implies #[trigger] self.bit(q) by {
                    let j2 = (q % 8) as u8;
                    if q / 8 == idx as int {
                        assert(((old_byte >> j2) & 1u8 == 1u8) ==> (((old_byte | (1u8 << j)) >> j2) & 1u8
                            == 1u8)) by (bit_vector)
                            requires
                                j < 8,
                                j2 < 8,
                        ;
                    }
                }
                assert(self.bit(p as int));
            }
            i = i + 1;
        }
    }

    /// Whether `key` may have been inserted; `false` only for keys that were
    /// not.
    pub fn contains(&self, key: &[u8]) -> (r: bool)
        requires
            self.wf(),
        ensures
            r == self.may_contain(key@),
    {
        let h = hash_key(key);
        let m = (self.bytes.len() as u64) * 8;
        let mut i: u64 = 0;
        while i < self.hash_count
            invariant
                self.wf(),
                m == self.bit_count(),
                h == fnv1a(key@),
                i <= self.hash_count,
                forall|q: u64| q < i ==> #[trigger] self.bit(bit_position(h, q, m) as int),
            decreases self.hash_count - i,
        {
            let p = position(h, i, m);
            let idx = (p / 8) as usize;
            let j = (p % 8) as u8;
            if (self.bytes[idx] >> j) & 1u8 != 1u8 {
                assert(!self.bit(bit_position(h, i, m) as int));
                return false;
            }
            i = i + 1;
        }
        true
    }

    /// Size of the filter in bytes.
    pub fn len(&self) -> (r: usize)
        ensures
            r == self.bytes@.len(),
    {
        self.bytes.len()
    }
}

} // verus!
