use crate::lex::{compare_bytes, lex_le, lex_lt};
use crate::value::UserKey;
use vstd::prelude::*;

verus! {

/// Mathematical form of a [`KeyRange`]: its least and greatest user key.
pub type RangeModel = (Seq<u8>, Seq<u8>);

/// Inclusive interval of user keys.
#[derive(Debug)]
pub struct KeyRange {
    pub min: UserKey,
    pub max: UserKey,
}

/// One end of a key interval.
#[derive(Debug)]
pub enum Bound {
    Included(UserKey),
    Excluded(UserKey),
    Unbounded,
}

impl View for KeyRange {
    type V = RangeModel;

    open spec fn view(&self) -> RangeModel {
        (self.min@, self.max@)
    }
}

/// Two inclusive intervals share a key.
pub open spec fn ranges_overlap(a: RangeModel, b: RangeModel) -> bool {
    lex_le(a.0, b.1) && lex_le(b.0, a.1)
}

/// No two intervals of the sequence share a key.
pub open spec fn ranges_disjoint(rs: Seq<RangeModel>) -> bool {
    forall|i: int, j: int| 0 <= i < j < rs.len() ==> !ranges_overlap(#[trigger] rs[i], #[trigger] rs[j])
}

/// A lower bound admits some key not above `max`.
pub open spec fn lower_admits(lo: Bound, max: Seq<u8>) -> bool {
    match lo {
        Bound::Included(k) => lex_le(k@, max),
        Bound::Excluded(k) => lex_lt(k@, max),
        Bound::Unbounded => true,
    }
}

/// An upper bound admits some key not below `min`.
pub open spec fn upper_admits(hi: Bound, min: Seq<u8>) -> bool {
    match hi {
        Bound::Included(k) => lex_le(min, k@),
        Bound::Excluded(k) => lex_lt(min, k@),
        Bound::Unbounded => true,
    }
}

/// An interval meets the span between two bounds.
pub open spec fn ranges_meet_bounds(r: RangeModel, lo: Bound, hi: Bound) -> bool {
    lower_admits(lo, r.1) && upper_admits(hi, r.0)
}

/// A key lies within a pair of bounds.
pub open spec fn within_bounds(key: Seq<u8>, lo: Bound, hi: Bound) -> bool {
    &&& match lo {
        Bound::Included(k) => lex_le(k@, key),
        Bound::Excluded(k) => lex_lt(k@, key),
        Bound::Unbounded => true,
    }
    &&& match hi {
        Bound::Included(k) => lex_le(key, k@),
        Bound::Excluded(k) => lex_lt(key, k@),
        Bound::Unbounded => true,
    }
}

pub(crate) fn bytes_le(a: &[u8], b: &[u8]) -> (r: bool)
    ensures
        r == lex_le(a@, b@),
{
    let c = compare_bytes(a, b);
    proof {
        crate::lex::lemma_lex_total(a@, b@);
        if lex_lt(b@, a@) {
            crate::lex::lemma_lex_asymmetric(b@, a@);
        }
    }
    !matches!(c, core::cmp::Ordering::Greater)
}

pub(crate) fn bytes_lt(a: &[u8], b: &[u8]) -> (r: bool)
    ensures
        r == lex_lt(a@, b@),
{
    matches!(compare_bytes(a, b), core::cmp::Ordering::Less)
}

/// Whether `key` lies within the pair of bounds.
pub fn in_bounds(key: &[u8], bounds: &(Bound, Bound)) -> (r: bool)
    ensures
        r == within_bounds(key@, bounds.0, bounds.1),
{
    let lo_ok = match &bounds.0 {
        Bound::Included(k) => bytes_le(k.as_slice(), key),
        Bound::Excluded(k) => bytes_lt(k.as_slice(), key),
        Bound::Unbounded => true,
    };
    let hi_ok = match &bounds.1 {
        Bound::Included(k) => bytes_le(key, k.as_slice()),
        Bound::Excluded(k) => bytes_lt(key, k.as_slice()),
        Bound::Unbounded => true,
    };
    lo_ok && hi_ok
}

/// `p` is a prefix of `key`.
pub open spec fn has_prefix(key: Seq<u8>, p: Seq<u8>) -> bool {
    p.len() <= key.len() && key.subrange(0, p.len() as int) == p
}

/// Whether `key` starts with `p`.
pub fn starts_with(key: &[u8], p: &[u8]) -> (r: bool)
    ensures
        r == has_prefix(key@, p@),
{
    if p.len() > key.len() {
        return false;
    }
    let mut i: usize = 0;
    while i < p.len()
        invariant
            p@.len() <= key@.len(),
            i <= p@.len(),
            key@.subrange(0, i as int) == p@.subrange(0, i as int),
        decreases p@.len() - i,
    {
        if key[i] != p[i] {
            assert(key@.subrange(0, p@.len() as int)[i as int] != p@[i as int]);
            return false;
        }
        assert(key@.subrange(0, i + 1) =~= key@.subrange(0, i as int).push(key@[i as int]));
        assert(p@.subrange(0, i + 1) =~= p@.subrange(0, i as int).push(p@[i as int]));
        i = i + 1;
    }
    assert(p@.subrange(0, i as int) =~= p@);
    true
}

impl Clone for KeyRange {
    fn clone(&self) -> (r: Self)
        ensures
            r@ == self@,
    {
        let min = self.min.clone();
        let max = self.max.clone();
        assert(min@ =~= self.min@);
        assert(max@ =~= self.max@);
        KeyRange { min, max }
    }
}

impl KeyRange {
    /// Creates the interval `[range.0, range.1]`.
    pub fn new(range: (UserKey, UserKey)) -> (r: Self)
        ensures
            r@ == (range.0@, range.1@),
    {
        let (min, max) = range;
        KeyRange { min, max }
    }

    /// Whether `key` lies in the interval.
    pub fn contains_key(&self, key: &[u8]) -> (r: bool)
        ensures
            r == (lex_le(self.min@, key@) && lex_le(key@, self.max@)),
    {
        bytes_le(self.min.as_slice(), key) && bytes_le(key, self.max.as_slice())
    }

    /// Whether the two intervals share a key.
    pub fn overlaps_with_key_range(&self, other: &KeyRange) -> (r: bool)
        ensures
            r == ranges_overlap(self@, other@),
    {
        bytes_le(self.min.as_slice(), other.max.as_slice()) && bytes_le(
            other.min.as_slice(),
            self.max.as_slice(),
        )
    }

    /// Whether the interval meets the span between two bounds.
    pub fn overlaps_with_bounds(&self, bounds: &(Bound, Bound)) -> (r: bool)
        ensures
            r == ranges_meet_bounds(self@, bounds.0, bounds.1),
    {
        let lo_ok = match &bounds.0 {
            Bound::Included(k) => bytes_le(k.as_slice(), self.max.as_slice()),
            Bound::Excluded(k) => bytes_lt(k.as_slice(), self.max.as_slice()),
            Bound::Unbounded => true,
        };
        let hi_ok = match &bounds.1 {
            Bound::Included(k) => bytes_le(self.min.as_slice(), k.as_slice()),
            Bound::Excluded(k) => bytes_lt(self.min.as_slice(), k.as_slice()),
            Bound::Unbounded => true,
        };
        lo_ok && hi_ok
    }

    /// Whether no two of the intervals share a key.
    pub fn is_disjoint(ranges: &[&KeyRange]) -> (r: bool)
        ensures
            r == (forall|i: int, j: int|
                0 <= i < j < ranges@.len() ==> !ranges_overlap(#[trigger] ranges@[i]@, #[trigger] ranges@[j]@)),
    {
        let mut i: usize = 0;
        while i < ranges.len()
            invariant
                i <= ranges@.len(),
                forall|a: int, b: int| 0 <= a < b < ranges@.len() && a < i ==> !ranges_overlap(#[trigger] ranges@[a]@, #[trigger] ranges@[b]@),
            decreases ranges@.len() - i,
        {
            let mut j: usize = i + 1;
            while j < ranges.len()
                invariant
                    i < ranges@.len(),
                    i + 1 <= j <= ranges@.len(),
                        forall|a: int, b: int| 0 <= a < b < ranges@.len() && a < i ==> !ranges_overlap(#[trigger] ranges@[a]@, #[trigger] ranges@[b]@),
                    forall|b: int| i < b < j ==> !ranges_overlap(ranges@[i as int]@, #[trigger] ranges@[b]@),
                decreases ranges@.len() - j,
            {
                if ranges[i].overlaps_with_key_range(ranges[j]) {
                    return false;
                }
                j = j + 1;
            }
            i = i + 1;
        }
        true
    }
}

} // verus!
