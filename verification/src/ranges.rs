//! The range index: an ordered set of `(start, end, asn)` interval entries
//! keyed by `start`, answering point queries with the entry whose `start` is
//! the greatest one at or below the needle, provided its `end` also covers
//! the needle. Parametric over the key width (32-bit keys for IPv4, 128-bit
//! keys for IPv6).

use vstd::prelude::*;

verus! {

/// The keys a range index can be built over: unsigned integers seen in
/// specifications through their mathematical value.
pub trait RangeKey: Copy + Sized {
    /// The mathematical value of the key.
    spec fn key(self) -> int;

    /// Exec comparison, tied to the mathematical order.
    fn key_le(self, other: Self) -> (r: bool)
        ensures
            r == (self.key() <= other.key()),
    ;
}

impl RangeKey for u32 {
    open spec fn key(self) -> int {
        self as int
    }

    fn key_le(self, other: Self) -> (r: bool) {
        self <= other
    }
}

impl RangeKey for u128 {
    open spec fn key(self) -> int {
        self as int
    }

    fn key_le(self, other: Self) -> (r: bool) {
        self <= other
    }
}

/// Mathematical image of one stored range entry.
pub struct SpecRange {
    pub start: int,
    pub end: int,
    pub asn: u32,
}

/// Range storage entry.
#[derive(Clone, Copy)]
pub struct IPRangeEntry<T> {
    pub starts: T,
    pub ends: T,
    pub asn: u32,
}

impl<T: RangeKey> View for IPRangeEntry<T> {
    type V = SpecRange;

    open spec fn view(&self) -> SpecRange {
        SpecRange { start: self.starts.key(), end: self.ends.key(), asn: self.asn }
    }
}

/// The entries are strictly ordered by `start`; starts are unique.
pub open spec fn sorted_by_start(s: Seq<SpecRange>) -> bool {
    forall|i: int, j: int| 0 <= i < j < s.len() ==> s[i].start < s[j].start
}

/// No two entries overlap: each ends before the next one starts. Together
/// with `sorted_by_start` this is the ingestor-maintained invariant under
/// which a lookup is exact.
pub open spec fn non_overlapping(s: Seq<SpecRange>) -> bool {
    forall|i: int, j: int| 0 <= i < j < s.len() ==> s[i].end < s[j].start
}

/// Where an entry lands when inserted into a start-ordered sequence: before
/// every strictly greater start; dropped when its start is already present.
pub open spec fn spec_insert_range(s: Seq<SpecRange>, r: SpecRange) -> Seq<SpecRange>
    decreases s.len(),
{
    if s.len() == 0 {
        seq![r]
    } else if s.last().start < r.start {
        s.push(r)
    } else if s.last().start == r.start {
        s
    } else {
        spec_insert_range(s.drop_last(), r).push(s.last())
    }
}

/// What a point query over a start-ordered sequence returns: the entry with
/// the greatest `start <= x`, and only when its `end` also reaches `x`.
pub open spec fn spec_find(s: Seq<SpecRange>, x: int) -> Option<SpecRange>
    decreases s.len(),
{
    if s.len() == 0 {
        None
    } else if s.last().start <= x {
        if s.last().end >= x {
            Some(s.last())
        } else {
            None
        }
    } else {
        spec_find(s.drop_last(), x)
    }
}

/// Range storage set.
pub struct IPRangeSet<T> {
    pub entries: Vec<IPRangeEntry<T>>,
}

impl<T: RangeKey> View for IPRangeSet<T> {
    type V = Seq<SpecRange>;

    open spec fn view(&self) -> Seq<SpecRange> {
        self.entries@.map_values(|e: IPRangeEntry<T>| e@)
    }
}

impl<T: RangeKey> IPRangeSet<T> {
    /// The index keeps its entries strictly ordered by `start`.
    pub open spec fn wf(self) -> bool {
        sorted_by_start(self@)
    }

    /// An empty index.
    pub fn new() -> (r: Self)
        ensures
            r@ =~= Seq::<SpecRange>::empty(),
            r.wf(),
    {
        IPRangeSet { entries: Vec::new() }
    }

    /// How many entries the index holds.
    pub fn len(&self) -> (r: usize)
        ensures
            r == self@.len(),
    {
        self.entries.len()
    }

    /// The entry at a position, in ascending `start` order.
    pub fn entry_at(&self, i: usize) -> (r: IPRangeEntry<T>)
        requires
            i < self@.len(),
        ensures
            r@ == self@[i as int],
    {
        self.entries[i]
    }

    /// Add a range entry. A start that is already present leaves the index
    /// unchanged (callers guarantee unique starts).
    pub fn insert(&mut self, starts: T, ends: T, asn: u32)
        requires
            old(self).wf(),
        ensures
            final(self).wf(),
            final(self)@ == spec_insert_range(
                old(self)@,
                SpecRange { start: starts.key(), end: ends.key(), asn },
            ),
    {
        let ghost r = SpecRange { start: starts.key(), end: ends.key(), asn };
        let mut lo: usize = 0;
        let mut hi: usize = self.entries.len();
        while lo < hi
            invariant
                r == (SpecRange { start: starts.key(), end: ends.key(), asn }),
                0 <= lo <= hi <= self@.len(),
                self.wf(),
                forall|j: int| 0 <= j < lo ==> self@[j].start < r.start,
                forall|j: int| hi <= j < self@.len() ==> self@[j].start >= r.start,
            decreases hi - lo,
        {
            let mid = lo + (hi - lo) / 2;
            let e = self.entries[mid];
            proof {
                assert(self@[mid as int] == self.entries@[mid as int]@);
            }
            if !starts.key_le(e.starts) {
                // entries[mid].start < r.start
                proof {
                    assert(self@[mid as int].start < r.start);
                    assert forall|j: int| 0 <= j < mid + 1 implies self@[j].start < r.start by {
                        if j < mid {
                            assert(self@[j].start < self@[mid as int].start);
                        }
                    }
                }
                lo = mid + 1;
            } else {
                proof {
                    assert forall|j: int| mid <= j < self@.len() implies self@[j].start
                        >= r.start by {
                        if j > mid {
                            assert(self@[mid as int].start < self@[j].start);
                        }
                    }
                }
                hi = mid;
            }
        }
        let pos = lo;
        proof {
            if pos < self@.len() {
                assert(self@[pos as int] == self.entries@[pos as int]@);
            }
        }
        if pos < self.entries.len() && self.entries[pos].starts.key_le(starts) && starts.key_le(
            self.entries[pos].starts,
        ) {
            proof {
                lemma_insert_range_dup(self@, r, pos as int);
            }
            return ;
        }
        proof {
            assert forall|j: int| pos <= j < self@.len() implies self@[j].start > r.start by {
                if j > pos {
                    assert(self@[pos as int].start < self@[j].start);
                }
            }
            lemma_insert_range_at(self@, r, pos as int);
        }
        let ghost pre = self@;
        self.entries.insert(pos, IPRangeEntry { starts, ends, asn });
        proof {
            assert(self@ =~= pre.subrange(0, pos as int) + seq![r] + pre.subrange(
                pos as int,
                pre.len() as int,
            ));
            assert forall|i: int, j: int| 0 <= i < j < self@.len() implies self@[i].start
                < self@[j].start by {
                let a = self@[i];
                let b = self@[j];
                if i < pos {
                    assert(a == pre[i]);
                } else if i == pos {
                    assert(a == r);
                } else {
                    assert(a == pre[i - 1]);
                }
                if j < pos {
                    assert(b == pre[j]);
                } else if j == pos {
                    assert(b == r);
                } else {
                    assert(b == pre[j - 1]);
                }
            }
        }
    }

    /// Point lookup: the entry `e` with the greatest `e.start <= needle`,
    /// returned only when `e.end >= needle`.
    pub fn find(&self, needle: T) -> (r: Option<IPRangeEntry<T>>)
        requires
            self.wf(),
        ensures
            (r is Some) == (spec_find(self@, needle.key()) is Some),
            r matches Some(e) ==> spec_find(self@, needle.key()) == Some(e@),
    {
        let mut lo: usize = 0;
        let mut hi: usize = self.entries.len();
        while lo < hi
            invariant
                0 <= lo <= hi <= self@.len(),
                self.wf(),
                forall|j: int| 0 <= j < lo ==> self@[j].start <= needle.key(),
                forall|j: int| hi <= j < self@.len() ==> self@[j].start > needle.key(),
            decreases hi - lo,
        {
            let mid = lo + (hi - lo) / 2;
            let e = self.entries[mid];
            proof {
                assert(self@[mid as int] == self.entries@[mid as int]@);
            }
            if e.starts.key_le(needle) {
                proof {
                    assert(self@[mid as int].start <= needle.key());
                    assert forall|j: int| 0 <= j < mid + 1 implies self@[j].start
                        <= needle.key() by {
                        if j < mid {
                            assert(self@[j].start < self@[mid as int].start);
                        }
                    }
                }
                lo = mid + 1;
            } else {
                proof {
                    assert forall|j: int| mid <= j < self@.len() implies self@[j].start
                        > needle.key() by {
                        if j > mid {
                            assert(self@[mid as int].start < self@[j].start);
                        }
                    }
                }
                hi = mid;
            }
        }
        if lo == 0 {
            proof {
                lemma_spec_find_none(self@, needle.key());
            }
            None
        } else {
            let p = lo - 1;
            proof {
                lemma_spec_find_pred(self@, needle.key(), p as int);
            }
            let e = self.entries[p];
            proof {
                assert(e@ == self@[p as int]);
            }
            if needle.key_le(e.ends) {
                Some(e)
            } else {
                None
            }
        }
    }
}

proof fn lemma_insert_range_at(s: Seq<SpecRange>, r: SpecRange, i: int)
    requires
        sorted_by_start(s),
        0 <= i <= s.len(),
        forall|j: int| 0 <= j < i ==> s[j].start < r.start,
        forall|j: int| i <= j < s.len() ==> s[j].start > r.start,
    ensures
        spec_insert_range(s, r) == s.subrange(0, i) + seq![r] + s.subrange(i, s.len() as int),
    decreases s.len(),
{
    if s.len() == 0 {
        assert(spec_insert_range(s, r) =~= s.subrange(0, i) + seq![r] + s.subrange(
            i,
            s.len() as int,
        ));
    } else if i == s.len() {
        assert(s.last().start < r.start);
        assert(s.push(r) =~= s.subrange(0, i) + seq![r] + s.subrange(i, s.len() as int));
    } else {
        assert(s.last().start > r.start);
        lemma_insert_range_at(s.drop_last(), r, i);
        assert(spec_insert_range(s.drop_last(), r).push(s.last()) =~= s.subrange(0, i) + seq![r]
            + s.subrange(i, s.len() as int));
    }
}

proof fn lemma_insert_range_dup(s: Seq<SpecRange>, r: SpecRange, i: int)
    requires
        sorted_by_start(s),
        0 <= i < s.len(),
        s[i].start == r.start,
    ensures
        spec_insert_range(s, r) == s,
    decreases s.len(),
{
    if i == s.len() - 1 {
        assert(s.last().start == r.start);
    } else {
        assert(s.last().start > r.start);
        lemma_insert_range_dup(s.drop_last(), r, i);
        assert(spec_insert_range(s.drop_last(), r).push(s.last()) =~= s);
    }
}

/// Inserting a start greater than every present one appends the entry.
pub proof fn lemma_insert_range_append(s: Seq<SpecRange>, r: SpecRange)
    requires
        sorted_by_start(s),
        forall|j: int| 0 <= j < s.len() ==> s[j].start < r.start,
    ensures
        spec_insert_range(s, r) == s.push(r),
{
    lemma_insert_range_at(s, r, s.len() as int);
    assert(s.subrange(0, s.len() as int) + seq![r] + s.subrange(s.len() as int, s.len() as int)
        =~= s.push(r));
}

proof fn lemma_spec_find_none(s: Seq<SpecRange>, x: int)
    requires
        forall|j: int| 0 <= j < s.len() ==> s[j].start > x,
    ensures
        spec_find(s, x) is None,
    decreases s.len(),
{
    if s.len() > 0 {
        lemma_spec_find_none(s.drop_last(), x);
    }
}

proof fn lemma_spec_find_pred(s: Seq<SpecRange>, x: int, p: int)
    requires
        sorted_by_start(s),
        0 <= p < s.len(),
        s[p].start <= x,
        forall|j: int| p < j < s.len() ==> s[j].start > x,
    ensures
        spec_find(s, x) == (if s[p].end >= x {
            Some(s[p])
        } else {
            Option::<SpecRange>::None
        }),
    decreases s.len(),
{
    if p == s.len() - 1 {
        assert(s.last().start <= x);
    } else {
        assert(s.last().start > x);
        lemma_spec_find_pred(s.drop_last(), x, p);
    }
}

/// Law: a point inside an installed range is resolved to exactly that range.
/// Holds under the ingestor-maintained invariant that ranges are ordered and
/// do not overlap.
pub proof fn lemma_find_hit(s: Seq<SpecRange>, i: int, x: int)
    requires
        sorted_by_start(s),
        non_overlapping(s),
        0 <= i < s.len(),
        s[i].start <= x <= s[i].end,
    ensures
        spec_find(s, x) == Some(s[i]),
    decreases s.len(),
{
    if i == s.len() - 1 {
    } else {
        assert(s[i].end < s.last().start);
        lemma_find_hit(s.drop_last(), i, x);
    }
}

/// Law: a point that no installed range covers is not found. This needs no
/// ordering at all: a gap between two adjacent ranges, the space before the
/// first or after the last — every uncovered point misses.
pub proof fn lemma_find_miss(s: Seq<SpecRange>, x: int)
    requires
        forall|i: int| 0 <= i < s.len() ==> !(#[trigger] s[i].start <= x <= s[i].end),
    ensures
        spec_find(s, x) is None,
    decreases s.len(),
{
    if s.len() > 0 {
        assert(!(s[s.len() - 1].start <= x <= s[s.len() - 1].end));
        lemma_find_miss(s.drop_last(), x);
    }
}

} // verus!
