//! ASN records and the ASN table: a keyed mapping from AS number to its
//! attributes (two-byte country tag and description). Inserting an AS number
//! that is already present overwrites the prior record — during ingest the
//! last row wins.

use vstd::prelude::*;

verus! {

/// Mathematical image of one ASN record.
pub struct SpecAsn {
    pub asn: u32,
    pub c0: u8,
    pub c1: u8,
    pub desc: Seq<u8>,
}

/// An ASN record: routing data identified by its AS number.
pub struct ASNEntry {
    pub asn: u32,
    pub country: [u8; 2],
    pub description: Vec<u8>,
}

impl View for ASNEntry {
    type V = SpecAsn;

    open spec fn view(&self) -> SpecAsn {
        SpecAsn { asn: self.asn, c0: self.country@[0], c1: self.country@[1], desc: self.description@ }
    }
}

/// How a country tag renders: `"--"` when unknown (first byte zero);
/// otherwise the two bytes as characters. A tag is ASCII letters or two
/// zero bytes, so a byte past ASCII can only arrive through a hand-made
/// dump or snapshot; such a tag renders as `"--"` too — deliberately, in
/// place of attempting a UTF-8 decode of arbitrary bytes.
pub open spec fn spec_country(c0: u8, c1: u8) -> Seq<char> {
    if c0 == 0 || c0 > 0x7f || c1 > 0x7f {
        seq!['-', '-']
    } else {
        seq![c0 as char, c1 as char]
    }
}

/// Relies on `String::push`: appends exactly the one character.
#[verifier::external_body]
fn push_char(s: &mut String, c: char)
    ensures
        final(s)@ == old(s)@.push(c),
{
    s.push(c);
}

impl ASNEntry {
    /// The rendered country tag.
    pub fn country(&self) -> (r: String)
        ensures
            r@ == spec_country(self@.c0, self@.c1),
    {
        let c0 = self.country[0];
        let c1 = self.country[1];
        if c0 == 0 || c0 > 0x7f || c1 > 0x7f {
            let r = "--".to_owned();
            proof {
                reveal_strlit("--");
                assert(r@ =~= seq!['-', '-']);
            }
            r
        } else {
            let mut r = String::new();
            push_char(&mut r, c0 as char);
            push_char(&mut r, c1 as char);
            proof {
                assert(r@ =~= seq![c0 as char, c1 as char]);
            }
            r
        }
    }
}

/// The records are strictly ordered by AS number; numbers are unique.
pub open spec fn sorted_by_asn(s: Seq<SpecAsn>) -> bool {
    forall|i: int, j: int| 0 <= i < j < s.len() ==> s[i].asn < s[j].asn
}

/// Where a record lands when inserted into an asn-ordered sequence: before
/// every strictly greater number; replacing a record with the same number.
pub open spec fn spec_insert_asn(s: Seq<SpecAsn>, e: SpecAsn) -> Seq<SpecAsn>
    decreases s.len(),
{
    if s.len() == 0 {
        seq![e]
    } else if s.last().asn < e.asn {
        s.push(e)
    } else if s.last().asn == e.asn {
        s.drop_last().push(e)
    } else {
        spec_insert_asn(s.drop_last(), e).push(s.last())
    }
}

/// The record carrying a given AS number, if any.
pub open spec fn spec_asn_lookup(s: Seq<SpecAsn>, asn: u32) -> Option<SpecAsn>
    decreases s.len(),
{
    if s.len() == 0 {
        None
    } else if s.last().asn == asn {
        Some(s.last())
    } else {
        spec_asn_lookup(s.drop_last(), asn)
    }
}

/// The ASN table: records ordered by AS number.
pub struct AsnTable {
    pub entries: Vec<ASNEntry>,
}

impl View for AsnTable {
    type V = Seq<SpecAsn>;

    open spec fn view(&self) -> Seq<SpecAsn> {
        self.entries@.map_values(|e: ASNEntry| e@)
    }
}

impl AsnTable {
    /// The table keeps its records strictly ordered by AS number.
    pub open spec fn wf(self) -> bool {
        sorted_by_asn(self@)
    }

    /// An empty table.
    pub fn new() -> (r: Self)
        ensures
            r@ =~= Seq::<SpecAsn>::empty(),
            r.wf(),
    {
        AsnTable { entries: Vec::new() }
    }

    /// How many records the table holds.
    pub fn len(&self) -> (r: usize)
        ensures
            r == self@.len(),
    {
        self.entries.len()
    }

    /// A borrow of the record at a position, in ascending AS-number order.
    pub fn entry_at(&self, i: usize) -> (r: &ASNEntry)
        requires
            i < self@.len(),
        ensures
            r@ == self@[i as int],
    {
        &self.entries[i]
    }

    /// Insert a record; a record with the same AS number is overwritten.
    pub fn insert(&mut self, entry: ASNEntry)
        requires
            old(self).wf(),
        ensures
            final(self).wf(),
            final(self)@ == spec_insert_asn(old(self)@, entry@),
    {
        let ghost e = entry@;
        let a = entry.asn;
        let mut lo: usize = 0;
        let mut hi: usize = self.entries.len();
        while lo < hi
            invariant
                e.asn == a,
                0 <= lo <= hi <= self@.len(),
                self.wf(),
                forall|j: int| 0 <= j < lo ==> self@[j].asn < e.asn,
                forall|j: int| hi <= j < self@.len() ==> self@[j].asn >= e.asn,
            decreases hi - lo,
        {
            let mid = lo + (hi - lo) / 2;
            let m = self.entries[mid].asn;
            proof {
                assert(self@[mid as int] == self.entries@[mid as int]@);
            }
            if m < a {
                proof {
                    assert forall|j: int| 0 <= j < mid + 1 implies self@[j].asn < e.asn by {
                        if j < mid {
                            assert(self@[j].asn < self@[mid as int].asn);
                        }
                    }
                }
                lo = mid + 1;
            } else {
                proof {
                    assert forall|j: int| mid <= j < self@.len() implies self@[j].asn >= e.asn by {
                        if j > mid {
                            assert(self@[mid as int].asn < self@[j].asn);
                        }
                    }
                }
                hi = mid;
            }
        }
        let pos = lo;
        let ghost pre = self@;
        proof {
            if pos < self@.len() {
                assert(self@[pos as int] == self.entries@[pos as int]@);
            }
        }
        if pos < self.entries.len() && self.entries[pos].asn == a {
            proof {
                lemma_insert_asn_dup(pre, e, pos as int);
            }
            self.entries[pos] = entry;
            proof {
                assert(self@ =~= pre.update(pos as int, e));
                assert forall|i: int, j: int| 0 <= i < j < self@.len() implies self@[i].asn
                    < self@[j].asn by {
                    assert(pre[i].asn < pre[j].asn);
                }
            }
        } else {
            proof {
                assert forall|j: int| pos <= j < self@.len() implies self@[j].asn > e.asn by {
                    if j > pos {
                        assert(self@[pos as int].asn < self@[j].asn);
                    }
                }
                lemma_insert_asn_at(pre, e, pos as int);
            }
            self.entries.insert(pos, entry);
            proof {
                assert(self@ =~= pre.subrange(0, pos as int) + seq![e] + pre.subrange(
                    pos as int,
                    pre.len() as int,
                ));
                assert forall|i: int, j: int| 0 <= i < j < self@.len() implies self@[i].asn
                    < self@[j].asn by {
                    let a1 = self@[i];
                    let b1 = self@[j];
                    if i < pos {
                        assert(a1 == pre[i]);
                    } else if i == pos {
                        assert(a1 == e);
                    } else {
                        assert(a1 == pre[i - 1]);
                    }
                    if j < pos {
                        assert(b1 == pre[j]);
                    } else if j == pos {
                        assert(b1 == e);
                    } else {
                        assert(b1 == pre[j - 1]);
                    }
                }
            }
        }
    }

    /// Look up the record for an AS number.
    pub fn get(&self, asn: u32) -> (r: Option<&ASNEntry>)
        requires
            self.wf(),
        ensures
            (r is Some) == (spec_asn_lookup(self@, asn) is Some),
            r matches Some(e) ==> spec_asn_lookup(self@, asn) == Some(e@),
    {
        let mut lo: usize = 0;
        let mut hi: usize = self.entries.len();
        while lo < hi
            invariant
                0 <= lo <= hi <= self@.len(),
                self.wf(),
                forall|j: int| 0 <= j < lo ==> self@[j].asn < asn,
                forall|j: int| hi <= j < self@.len() ==> self@[j].asn > asn,
            decreases hi - lo,
        {
            let mid = lo + (hi - lo) / 2;
            let m = self.entries[mid].asn;
            proof {
                assert(self@[mid as int] == self.entries@[mid as int]@);
            }
            if m < asn {
                proof {
                    assert forall|j: int| 0 <= j < mid + 1 implies self@[j].asn < asn by {
                        if j < mid {
                            assert(self@[j].asn < self@[mid as int].asn);
                        }
                    }
                }
                lo = mid + 1;
            } else if m > asn {
                proof {
                    assert forall|j: int| mid <= j < self@.len() implies self@[j].asn > asn by {
                        if j > mid {
                            assert(self@[mid as int].asn < self@[j].asn);
                        }
                    }
                }
                hi = mid;
            } else {
                proof {
                    lemma_lookup_at(self@, asn, mid as int);
                }
                return Some(&self.entries[mid]);
            }
        }
        proof {
            assert forall|j: int| 0 <= j < self@.len() implies self@[j].asn != asn by {}
            lemma_lookup_none(self@, asn);
        }
        None
    }
}

proof fn lemma_insert_asn_at(s: Seq<SpecAsn>, e: SpecAsn, i: int)
    requires
        sorted_by_asn(s),
        0 <= i <= s.len(),
        forall|j: int| 0 <= j < i ==> s[j].asn < e.asn,
        forall|j: int| i <= j < s.len() ==> s[j].asn > e.asn,
    ensures
        spec_insert_asn(s, e) == s.subrange(0, i) + seq![e] + s.subrange(i, s.len() as int),
    decreases s.len(),
{
    if s.len() == 0 {
        assert(spec_insert_asn(s, e) =~= s.subrange(0, i) + seq![e] + s.subrange(
            i,
            s.len() as int,
        ));
    } else if i == s.len() {
        assert(s.last().asn < e.asn);
        assert(s.push(e) =~= s.subrange(0, i) + seq![e] + s.subrange(i, s.len() as int));
    } else {
        assert(s.last().asn > e.asn);
        lemma_insert_asn_at(s.drop_last(), e, i);
        assert(spec_insert_asn(s.drop_last(), e).push(s.last()) =~= s.subrange(0, i) + seq![e]
            + s.subrange(i, s.len() as int));
    }
}

proof fn lemma_insert_asn_dup(s: Seq<SpecAsn>, e: SpecAsn, i: int)
    requires
        sorted_by_asn(s),
        0 <= i < s.len(),
        s[i].asn == e.asn,
    ensures
        spec_insert_asn(s, e) == s.update(i, e),
    decreases s.len(),
{
    if i == s.len() - 1 {
        assert(s.drop_last().push(e) =~= s.update(i, e));
    } else {
        assert(s.last().asn > s[i].asn);
        lemma_insert_asn_dup(s.drop_last(), e, i);
        assert(s.drop_last().update(i, e).push(s.last()) =~= s.update(i, e));
    }
}

/// Inserting an AS number greater than every present one appends the record.
pub proof fn lemma_insert_asn_append(s: Seq<SpecAsn>, e: SpecAsn)
    requires
        sorted_by_asn(s),
        forall|j: int| 0 <= j < s.len() ==> s[j].asn < e.asn,
    ensures
        spec_insert_asn(s, e) == s.push(e),
{
    lemma_insert_asn_at(s, e, s.len() as int);
    assert(s.subrange(0, s.len() as int) + seq![e] + s.subrange(s.len() as int, s.len() as int)
        =~= s.push(e));
}

proof fn lemma_lookup_at(s: Seq<SpecAsn>, asn: u32, i: int)
    requires
        sorted_by_asn(s),
        0 <= i < s.len(),
        s[i].asn == asn,
    ensures
        spec_asn_lookup(s, asn) == Some(s[i]),
    decreases s.len(),
{
    if i == s.len() - 1 {
    } else {
        assert(s.last().asn > s[i].asn);
        lemma_lookup_at(s.drop_last(), asn, i);
    }
}

proof fn lemma_lookup_none(s: Seq<SpecAsn>, asn: u32)
    requires
        forall|j: int| 0 <= j < s.len() ==> s[j].asn != asn,
    ensures
        spec_asn_lookup(s, asn) is None,
    decreases s.len(),
{
    if s.len() > 0 {
        lemma_lookup_none(s.drop_last(), asn);
    }
}

} // verus!
