use crate::key_range::{bytes_lt, ranges_disjoint, ranges_overlap, KeyRange, RangeModel};
use crate::lex::{lemma_lex_le_iff_not_lt, lemma_lex_le_lt, lex_le, lex_lt};
use crate::segment::{Segment, SegmentId};
use vstd::multiset::Multiset;
use vstd::prelude::*;
use vstd::seq_lib::group_to_multiset_ensures;

verus! {

broadcast use group_to_multiset_ensures;

/// Key ranges of a sequence of segments.
pub open spec fn key_ranges(s: Seq<Segment>) -> Seq<RangeModel> {
    s.map_values(|x: Segment| x.metadata.key_range@)
}

/// Whether `a` may stand before `b`: by least key ascending, or by highest
/// sequence number descending.
pub open spec fn in_order(a: Segment, b: Segment, by_key_range: bool) -> bool {
    if by_key_range {
        lex_le(a.metadata.key_range.min@, b.metadata.key_range.min@)
    } else {
        a.metadata.seqnos.1 >= b.metadata.seqnos.1
    }
}

/// Every earlier segment may stand before every later one.
pub open spec fn sorted_segments(s: Seq<Segment>, by_key_range: bool) -> bool {
    forall|i: int, j: int| 0 <= i < j < s.len() ==> in_order(#[trigger] s[i], #[trigger] s[j], by_key_range)
}

/// The segments whose id differs from `id`, in order.
pub open spec fn without_id(s: Seq<Segment>, id: SegmentId) -> Seq<Segment>
    decreases s.len(),
{
    if s.len() == 0 {
        s
    } else if s.last().metadata.id != id {
        without_id(s.drop_last(), id).push(s.last())
    } else {
        without_id(s.drop_last(), id)
    }
}

/// The segments whose key range meets `r`, in order.
pub open spec fn overlapping(s: Seq<Segment>, r: RangeModel) -> Seq<Segment>
    decreases s.len(),
{
    if s.len() == 0 {
        s
    } else if ranges_overlap(s.last().metadata.key_range@, r) {
        overlapping(s.drop_last(), r).push(s.last())
    } else {
        overlapping(s.drop_last(), r)
    }
}

/// Sum of the segments' file sizes.
pub open spec fn total_size(s: Seq<Segment>) -> nat
    decreases s.len(),
{
    if s.len() == 0 {
        0
    } else {
        total_size(s.drop_last()) + s.last().metadata.file_size as nat
    }
}

proof fn lemma_insert_multiset<A>(s: Seq<A>, p: int, x: A)
    requires
        0 <= p <= s.len(),
    ensures
        s.insert(p, x).to_multiset() == s.to_multiset().insert(x),
{
    let t = s.insert(p, x);
    assert(t.remove(p) =~= s);
    assert(t.to_multiset().count(x) > 0) by {
        assert(t.contains(x)) by {
            assert(t[p] == x);
        }
    }
    assert(t.to_multiset() =~= s.to_multiset().insert(x));
}

proof fn lemma_repeated_count<A>(s: Seq<A>, i: int, j: int)
    requires
        0 <= i < s.len(),
        0 <= j < s.len(),
        i != j,
        s[i] == s[j],
    ensures
        s.to_multiset().count(s[i]) >= 2,
{
    let r = s.remove(i);
    assert(r.to_multiset() =~= s.to_multiset().remove(s[i]));
    assert(s.contains(s[i]));
    assert(s.to_multiset().count(s[i]) > 0);
    let k = if j < i {
        j
    } else {
        j - 1
    };
    assert(r[k] == s[j]);
    assert(r.contains(s[i]));
    assert(r.to_multiset().count(s[i]) > 0);
}

proof fn lemma_repeated_indices<A>(s: Seq<A>, x: A) -> (r: (int, int))
    requires
        s.to_multiset().count(x) >= 2,
    ensures
        0 <= r.0 < s.len(),
        0 <= r.1 < s.len(),
        r.0 != r.1,
        s[r.0] == x,
        s[r.1] == x,
{
    assert(s.contains(x));
    let a = choose|a: int| 0 <= a < s.len() && s[a] == x;
    let t = s.remove(a);
    assert(t.to_multiset().count(x) >= 1);
    assert(t.contains(x));
    let b0 = choose|b: int| 0 <= b < t.len() && t[b] == x;
    let b = if b0 < a {
        b0
    } else {
        b0 + 1
    };
    (a, b)
}

/// Rearranging segments keeps their key ranges disjoint.
proof fn lemma_disjoint_permutation(s: Seq<Segment>, t: Seq<Segment>)
    requires
        s.to_multiset() == t.to_multiset(),
    ensures
        ranges_disjoint(key_ranges(s)) ==> ranges_disjoint(key_ranges(t)),
{
    if ranges_disjoint(key_ranges(s)) {
        assert forall|i: int, j: int| 0 <= i < j < key_ranges(t).len() implies !ranges_overlap(
            #[trigger] key_ranges(t)[i],
            #[trigger] key_ranges(t)[j],
        ) by {
            let x = t[i];
            let y = t[j];
            let (a, b) = if x == y {
                lemma_repeated_count(t, i, j);
                lemma_repeated_indices(s, x)
            } else {
                assert(t.contains(x));
                assert(t.contains(y));
                assert(t.to_multiset().count(x) > 0);
                assert(t.to_multiset().count(y) > 0);
                assert(s.to_multiset().count(x) > 0);
                assert(s.to_multiset().count(y) > 0);
                assert(s.contains(x));
                assert(s.contains(y));
                let a = choose|a: int| 0 <= a < s.len() && s[a] == x;
                let b = choose|b: int| 0 <= b < s.len() && s[b] == y;
                (a, b)
            };
            if a < b {
                assert(!ranges_overlap(key_ranges(s)[a], key_ranges(s)[b]));
            } else {
                assert(!ranges_overlap(key_ranges(s)[b], key_ranges(s)[a]));
            }
        }
    }
}

/// Ordered collection of the segments of one level of the tree.
///
/// A disjoint level is sorted by least key; any other by highest sequence
/// number, newest first.
#[derive(Debug)]
pub struct Level {
    /// List of segments
    pub segments: Vec<Segment>,
    /// Whether no two segments' key ranges overlap; recomputed on every change
    pub is_disjoint: bool,
}

impl Default for Level {
    fn default() -> (r: Self)
        ensures
            r.segments@.len() == 0,
            r.is_disjoint,
            r.wf(),
    {
        Level { segments: Vec::new(), is_disjoint: true }
    }
}

impl Level {
    /// The flag reflects the segments, which are sorted as it says.
    pub open spec fn wf(&self) -> bool {
        &&& self.is_disjoint == ranges_disjoint(key_ranges(self.segments@))
        &&& sorted_segments(self.segments@, self.is_disjoint)
    }

    /// Adds a segment.
    pub fn insert(&mut self, segment: Segment)
        ensures
            final(self).segments@.to_multiset() == old(self).segments@.to_multiset().insert(segment),
            final(self).wf(),
    {
        self.segments.push(segment);
        self.set_disjoint_flag();
        let ghost before = self.segments@;
        self.sort();
        proof {
            lemma_disjoint_permutation(before, self.segments@);
            lemma_disjoint_permutation(self.segments@, before);
        }
    }

    /// Removes every segment with the given id.
    pub fn remove(&mut self, segment_id: SegmentId)
        ensures
            final(self).segments@.to_multiset() == without_id(old(self).segments@, segment_id).to_multiset(),
            final(self).wf(),
    {
        let mut rest: Vec<Segment> = Vec::new();
        core::mem::swap(&mut rest, &mut self.segments);
        let ghost all = rest@;
        let mut kept: Vec<Segment> = Vec::new();
        // Walk from the back and rebuild the kept segments in order.
        while rest.len() > 0
            invariant
                without_id(all, segment_id) == without_id(rest@, segment_id) + kept@.reverse(),
            decreases rest@.len(),
        {
            let ghost r0 = rest@;
            let seg = rest.pop().unwrap();
            assert(r0.drop_last() == rest@);
            assert(r0.last() == seg);
            if seg.metadata.id != segment_id {
                let ghost k0 = kept@;
                kept.push(seg);
                assert(kept@.reverse() =~= seq![seg] + k0.reverse());
                assert(without_id(r0, segment_id) == without_id(rest@, segment_id).push(seg));
                assert(without_id(rest@, segment_id).push(seg) + k0.reverse() =~= without_id(rest@, segment_id) + kept@.reverse());
            }
        }
        assert(without_id(rest@, segment_id) =~= Seq::<Segment>::empty());
        let mut out: Vec<Segment> = Vec::new();
        while kept.len() > 0
            invariant
                without_id(all, segment_id) == out@ + kept@.reverse(),
            decreases kept@.len(),
        {
            let ghost k0 = kept@;
            let seg = kept.pop().unwrap();
            assert(k0 == kept@.push(seg));
            assert(k0.reverse() =~= seq![seg] + kept@.reverse());
            out.push(seg);
        }
        assert(kept@.reverse() =~= Seq::<Segment>::empty());
        assert(out@ =~= without_id(all, segment_id));
        self.segments = out;
        self.set_disjoint_flag();
        let ghost before = self.segments@;
        self.sort();
        proof {
            lemma_disjoint_permutation(before, self.segments@);
            lemma_disjoint_permutation(self.segments@, before);
        }
    }

    /// Recomputes whether the level is disjoint.
    fn set_disjoint_flag(&mut self)
        ensures
            final(self).segments == old(self).segments,
            final(self).is_disjoint == ranges_disjoint(key_ranges(old(self).segments@)),
    {
        let mut ranges: Vec<&KeyRange> = Vec::new();
        let mut i: usize = 0;
        while i < self.segments.len()
            invariant
                i <= self.segments@.len(),
                ranges@.len() == i,
                forall|q: int| 0 <= q < i ==> (#[trigger] ranges@[q])@ == self.segments@[q].metadata.key_range@,
            decreases self.segments@.len() - i,
        {
            ranges.push(&self.segments[i].metadata.key_range);
            i = i + 1;
        }
        let d = KeyRange::is_disjoint(ranges.as_slice());
        proof {
            let kr = key_ranges(self.segments@);
            if d {
                assert forall|a: int, b: int| 0 <= a < b < kr.len() implies !ranges_overlap(
                    #[trigger] kr[a],
                    #[trigger] kr[b],
                ) by {
                    assert(!ranges_overlap(ranges@[a]@, ranges@[b]@));
                }
            } else {
                let (a, b) = choose|a: int, b: int|
                    0 <= a < b < ranges@.len() && ranges_overlap(ranges@[a]@, ranges@[b]@);
                assert(ranges_overlap(kr[a], kr[b]));
            }
        }
        self.is_disjoint = d;
    }

    /// Sorts the segments as the disjoint flag says.
    fn sort(&mut self)
        ensures
            final(self).segments@.to_multiset() == old(self).segments@.to_multiset(),
            final(self).is_disjoint == old(self).is_disjoint,
            sorted_segments(final(self).segments@, final(self).is_disjoint),
    {
        if self.is_disjoint {
            self.sort_by_key_range();
        } else {
            self.sort_by_seqno();
        }
    }

    /// Sorts the segments by least key, ascending.
    fn sort_by_key_range(&mut self)
        ensures
            final(self).segments@.to_multiset() == old(self).segments@.to_multiset(),
            final(self).is_disjoint == old(self).is_disjoint,
            sorted_segments(final(self).segments@, true),
    {
        self.sort_segments(true);
    }

    /// Sorts the segments from newest to oldest by highest sequence number,
    /// so that a point read meets the newer version of a key first.
    fn sort_by_seqno(&mut self)
        ensures
            final(self).segments@.to_multiset() == old(self).segments@.to_multiset(),
            final(self).is_disjoint == old(self).is_disjoint,
            sorted_segments(final(self).segments@, false),
    {
        self.sort_segments(false);
    }

    fn sort_segments(&mut self, by_key_range: bool)
        ensures
            final(self).segments@.to_multiset() == old(self).segments@.to_multiset(),
            final(self).is_disjoint == old(self).is_disjoint,
            sorted_segments(final(self).segments@, by_key_range),
    {
            let mut rest: Vec<Segment> = Vec::new();
        core::mem::swap(&mut rest, &mut self.segments);
        let ghost all = rest@;
        let mut out: Vec<Segment> = Vec::new();
        while rest.len() > 0
            invariant
                sorted_segments(out@, by_key_range),
                out@.to_multiset().add(rest@.to_multiset()) == all.to_multiset(),
            decreases rest@.len(),
        {
            let ghost r0 = rest@;
            let seg = rest.pop().unwrap();
            assert(r0 =~= rest@.push(seg));
            assert(r0.to_multiset() == rest@.to_multiset().insert(seg));
            let mut p: usize = 0;
            while p < out.len() && !Self::goes_before(&seg, &out[p], by_key_range)
                invariant
                    p <= out@.len(),
                    forall|q: int| 0 <= q < p ==> in_order(#[trigger] out@[q], seg, by_key_range),
                decreases out@.len() - p,
            {
                proof {
                    if by_key_range {
                        lemma_lex_le_iff_not_lt(
                            out@[p as int].metadata.key_range.min@,
                            seg.metadata.key_range.min@,
                        );
                    }
                }
                p = p + 1;
            }
            let ghost o0 = out@;
            out.insert(p, seg);
            proof {
                lemma_insert_multiset(o0, p as int, seg);
                assert(out@.to_multiset().add(rest@.to_multiset()) =~= all.to_multiset());
                assert forall|i: int, j: int| 0 <= i < j < out@.len() implies in_order(
                    #[trigger] out@[i],
                    #[trigger] out@[j],
                    by_key_range,
                ) by {
                    if i < p && j > p {
                        assert(in_order(o0[i], o0[j - 1], by_key_range));
                    } else if i == p && j > p {
                        assert(in_order(o0[p as int], o0[j - 1], by_key_range) || j - 1 == p);
                        if by_key_range {
                            lemma_lex_le_lt(
                                seg.metadata.key_range.min@,
                                o0[p as int].metadata.key_range.min@,
                                o0[j - 1].metadata.key_range.min@,
                            );
                        }
                    } else if i > p {
                        assert(in_order(o0[i - 1], o0[j - 1], by_key_range));
                    }
                }
            }
        }
        assert(rest@.to_multiset() =~= Multiset::empty());
        assert(out@.to_multiset() =~= all.to_multiset());
        self.segments = out;
    }

    /// The ids of the level's segments, in order.
    pub fn ids(&self) -> (r: Vec<SegmentId>)
        ensures
            r@.len() == self.segments@.len(),
            forall|i: int| 0 <= i < r@.len() ==> #[trigger] r@[i] == self.segments@[i].metadata.id,
    {
        let mut out: Vec<SegmentId> = Vec::new();
        let mut i: usize = 0;
        while i < self.segments.len()
            invariant
                i <= self.segments@.len(),
                out@.len() == i,
                forall|q: int| 0 <= q < i ==> #[trigger] out@[q] == self.segments@[q].metadata.id,
            decreases self.segments@.len() - i,
        {
            out.push(self.segments[i].metadata.id);
            i = i + 1;
        }
        out
    }

    /// Whether the level holds no segment.
    pub fn is_empty(&self) -> (r: bool)
        ensures
            r == (self.segments@.len() == 0),
    {
        self.segments.is_empty()
    }

    /// The number of segments.
    pub fn len(&self) -> (r: usize)
        ensures
            r == self.segments@.len(),
    {
        self.segments.len()
    }

    /// The level's size in bytes: the sum of its segments' file sizes,
    /// saturating at `u64::MAX`.
    pub fn size(&self) -> (r: u64)
        ensures
            r == if total_size(self.segments@) > u64::MAX {
                u64::MAX as nat
            } else {
                total_size(self.segments@)
            },
    {
        let mut sum: u64 = 0;
        let mut saturated = false;
        let mut i: usize = 0;
        while i < self.segments.len()
            invariant
                i <= self.segments@.len(),
                saturated == (total_size(self.segments@.subrange(0, i as int)) > u64::MAX),
                !saturated ==> sum == total_size(self.segments@.subrange(0, i as int)),
                saturated ==> sum == u64::MAX,
            decreases self.segments@.len() - i,
        {
            let ghost next = self.segments@.subrange(0, i + 1);
            assert(next.drop_last() =~= self.segments@.subrange(0, i as int));
            let f = self.segments[i].metadata.file_size;
            if !saturated {
                if sum > u64::MAX - f {
                    saturated = true;
                    sum = u64::MAX;
                } else {
                    sum = sum + f;
                }
            }
            i = i + 1;
        }
        assert(self.segments@.subrange(0, i as int) =~= self.segments@);
        sum
    }

    /// The segments whose key range meets `key_range`, in order.
    pub fn overlapping_segments<'a>(&'a self, key_range: &KeyRange) -> (r: Vec<&'a Segment>)
        ensures
            r@.len() == overlapping(self.segments@, key_range@).len(),
            forall|i: int| 0 <= i < r@.len() ==> *#[trigger] r@[i] == overlapping(self.segments@, key_range@)[i],
    {
        let mut out: Vec<&Segment> = Vec::new();
        let mut i: usize = 0;
        while i < self.segments.len()
            invariant
                i <= self.segments@.len(),
                out@.len() == overlapping(self.segments@.subrange(0, i as int), key_range@).len(),
                forall|q: int| 0 <= q < out@.len() ==> *#[trigger] out@[q] == overlapping(self.segments@.subrange(0, i as int), key_range@)[q],
            decreases self.segments@.len() - i,
        {
            let ghost next = self.segments@.subrange(0, i + 1);
            assert(next.drop_last() =~= self.segments@.subrange(0, i as int));
            if self.segments[i].metadata.key_range.overlaps_with_key_range(key_range) {
                out.push(&self.segments[i]);
            }
            i = i + 1;
        }
        assert(self.segments@.subrange(0, i as int) =~= self.segments@);
        out
    }

    /// The segment that may hold `key`: the first whose greatest key is not
    /// below `key`. Only meaningful on a disjoint level; the segment still
    /// needs a point read, as it may not hold the key.
    pub fn get_segment_containing_key(&self, key: &[u8]) -> (r: Option<&Segment>)
        requires
            self.is_disjoint,
        ensures
            match r {
                Some(seg) => exists|i: int|
                    0 <= i < self.segments@.len() && *seg == self.segments@[i] && !lex_lt(
                        self.segments@[i].metadata.key_range.max@,
                        key@,
                    ) && forall|j: int|
                        0 <= j < i ==> lex_lt(
                            (#[trigger] self.segments@[j]).metadata.key_range.max@,
                            key@,
                        ),
                None => forall|j: int|
                    0 <= j < self.segments@.len() ==> lex_lt(
                        (#[trigger] self.segments@[j]).metadata.key_range.max@,
                        key@,
                    ),
            },
    {
        let mut i: usize = 0;
        while i < self.segments.len()
            invariant
                i <= self.segments@.len(),
                forall|j: int| 0 <= j < i ==> lex_lt((#[trigger] self.segments@[j]).metadata.key_range.max@, key@),
            decreases self.segments@.len() - i,
        {
            if !bytes_lt(self.segments[i].metadata.key_range.max.as_slice(), key) {
                return Some(&self.segments[i]);
            }
            i = i + 1;
        }
        None
    }

    /// `a` must stand before `b` in the chosen order.
    fn goes_before(a: &Segment, b: &Segment, by_key_range: bool) -> (r: bool)
        ensures
            r == if by_key_range {
                lex_lt(a.metadata.key_range.min@, b.metadata.key_range.min@)
            } else {
                a.metadata.seqnos.1 > b.metadata.seqnos.1
            },
    {
        if by_key_range {
            bytes_lt(a.metadata.key_range.min.as_slice(), b.metadata.key_range.min.as_slice())
        } else {
            a.metadata.seqnos.1 > b.metadata.seqnos.1
        }
    }
}

} // verus!
