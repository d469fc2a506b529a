//! The database facade: one IPv4 range index, one IPv6 range index, one ASN
//! table. Populated once — from a tab-separated dump or from a binary
//! snapshot — then queried.

use vstd::prelude::*;
use vstd::string::StringSliceAdditionalSpecFns;
use crate::asn::{ASNEntry, AsnTable, SpecAsn, spec_asn_lookup, spec_insert_asn};
use crate::ranges::{
    IPRangeSet,
    SpecRange,
    spec_find,
    spec_insert_range,
    sorted_by_start,
    non_overlapping,
    lemma_find_hit,
    lemma_find_miss,
};
use crate::ipparse::{ParsedIp, spec_parse_ip, parse_ip};
use crate::tsv::{spec_split, spec_parse_u32, split_bytes, parse_u32_bytes};
use crate::codec::{
    DbView,
    wf_view,
    LoadError,
    spec_save,
    spec_load,
    spec_encodable,
    spec_header,
    spec_pool_off,
    spec_pool_bytes,
    spec_signature,
    spec_encode_asns,
    spec_v4_records,
    spec_v6_records,
    spec_load_asns,
    spec_load_v4,
    spec_load_v6,
    seg_index,
    lemma_seg_index_of,
    lemma_encode_prefix,
    lemma_concat_take_le,
    lemma_concat_push,
    lemma_save_load_round_trip,
};
use crate::stringpool::{StringPool, concat_segs, spec_unpack};
use crate::wire::{push_u16_be, push_u32_be, push_u128_be, read_u16_be, read_u32_be, read_u128_be};
use vstd::bytes::{u32_to_le_bytes, u32_from_le_bytes, spec_u32_from_le_bytes, spec_u32_to_le_bytes, lemma_auto_spec_u32_to_from_le_bytes};

verus! {

/// IPv4 and IPv6 query system.
pub struct IPDatabase {
    pub ipv4: IPRangeSet<u32>,
    pub ipv6: IPRangeSet<u128>,
    pub asn_map: AsnTable,
}

impl View for IPDatabase {
    type V = DbView;

    open spec fn view(&self) -> DbView {
        DbView { asns: self.asn_map@, v4: self.ipv4@, v6: self.ipv6@ }
    }
}

/// What a numeric point query returns: the covering range's AS number
/// resolved through the ASN table; none when no range covers the point or
/// the AS number is absent (a referential-integrity violation).
pub open spec fn spec_query_num(v: DbView, ip: ParsedIp) -> Option<SpecAsn> {
    match ip {
        ParsedIp::V4(x) => match spec_find(v.v4, x as int) {
            None => None,
            Some(r) => spec_asn_lookup(v.asns, r.asn),
        },
        ParsedIp::V6(x) => match spec_find(v.v6, x as int) {
            None => None,
            Some(r) => spec_asn_lookup(v.asns, r.asn),
        },
    }
}

/// What a text query returns: none for unparseable text, otherwise the
/// numeric query on the parsed address.
pub open spec fn spec_query(v: DbView, s: Seq<u8>) -> Option<SpecAsn> {
    match spec_parse_ip(s) {
        None => None,
        Some(ip) => spec_query_num(v, ip),
    }
}

/// The effect of one dump line: fewer than five fields, an unparseable
/// address or AS number, or a mixed-family range (start and end of
/// different families) — the row is skipped and contributes nothing.
/// Otherwise insert the ASN record (a country field that is not exactly
/// two bytes leaves the tag zeroed, "unknown") and insert the range into
/// the index of its family.
pub open spec fn spec_line(v: DbView, line: Seq<u8>) -> DbView {
    let f = spec_split(line, 9);
    if f.len() < 5 {
        v
    } else {
        let c0 = if f[3].len() == 2 {
            f[3][0]
        } else {
            0
        };
        let c1 = if f[3].len() == 2 {
            f[3][1]
        } else {
            0
        };
        match (spec_parse_ip(f[0]), spec_parse_ip(f[1]), spec_parse_u32(f[2])) {
            (Some(ParsedIp::V4(x)), Some(ParsedIp::V4(y)), Some(a)) => DbView {
                asns: spec_insert_asn(v.asns, SpecAsn { asn: a, c0, c1, desc: f[4] }),
                v4: spec_insert_range(v.v4, SpecRange { start: x as int, end: y as int, asn: a }),
                v6: v.v6,
            },
            (Some(ParsedIp::V6(x)), Some(ParsedIp::V6(y)), Some(a)) => DbView {
                asns: spec_insert_asn(v.asns, SpecAsn { asn: a, c0, c1, desc: f[4] }),
                v4: v.v4,
                v6: spec_insert_range(v.v6, SpecRange { start: x as int, end: y as int, asn: a }),
            },
            _ => v,
        }
    }
}

/// The effect of a whole dump: its lines folded in order.
pub open spec fn spec_ingest(v: DbView, lines: Seq<Seq<u8>>) -> DbView
    decreases lines.len(),
{
    if lines.len() == 0 {
        v
    } else {
        spec_ingest(spec_line(v, lines[0]), lines.skip(1))
    }
}

impl IPDatabase {
    /// The database's tables are well-formed: each ordered by its key.
    pub open spec fn wf(self) -> bool {
        self.ipv4.wf() && self.ipv6.wf() && self.asn_map.wf()
    }

    /// An empty database.
    pub fn new() -> (r: Self)
        ensures
            r.wf(),
            r@.asns =~= Seq::<SpecAsn>::empty(),
            r@.v4 =~= Seq::<SpecRange>::empty(),
            r@.v6 =~= Seq::<SpecRange>::empty(),
    {
        IPDatabase { ipv4: IPRangeSet::new(), ipv6: IPRangeSet::new(), asn_map: AsnTable::new() }
    }

    /// Look up the ASN record announcing the range that contains `ip`,
    /// given as text. Unparseable text is no match, not an error.
    pub fn query(&self, ip: &str) -> (r: Option<&ASNEntry>)
        requires
            self.wf(),
        ensures
            (r is Some) == (spec_query(self@, ip.spec_bytes()) is Some),
            r matches Some(e) ==> spec_query(self@, ip.spec_bytes()) == Some(e@),
    {
        let bytes = ip.as_bytes();
        match parse_ip(bytes) {
            None => None,
            Some(ParsedIp::V4(x)) => {
                match self.ipv4.find(x) {
                    None => None,
                    Some(entry) => self.asn_map.get(entry.asn),
                }
            },
            Some(ParsedIp::V6(x)) => {
                match self.ipv6.find(x) {
                    None => None,
                    Some(entry) => self.asn_map.get(entry.asn),
                }
            },
        }
    }

    /// Ingest one dump line.
    fn ingest_line(&mut self, line: &[u8])
        requires
            old(self).wf(),
        ensures
            final(self).wf(),
            final(self)@ == spec_line(old(self)@, line@),
    {
        let fields = split_bytes(line, 9);
        let ghost f = spec_split(line@, 9);
        proof {
            assert(fields@.map_values(|v: Vec<u8>| v@) == f);
        }
        if fields.len() < 5 {
            return ;
        }
        proof {
            assert(fields@[0]@ == f[0]);
            assert(fields@[1]@ == f[1]);
            assert(fields@[2]@ == f[2]);
            assert(fields@[3]@ == f[3]);
            assert(fields@[4]@ == f[4]);
        }
        let ip_s = parse_ip(fields[0].as_slice());
        let ip_e = parse_ip(fields[1].as_slice());
        let asn_num = parse_u32_bytes(fields[2].as_slice());
        let s0 = match ip_s {
            Some(x) => x,
            None => {
                return ;
            },
        };
        let e0 = match ip_e {
            Some(x) => x,
            None => {
                return ;
            },
        };
        let a = match asn_num {
            Some(x) => x,
            None => {
                return ;
            },
        };
        let f3 = &fields[3];
        let country: [u8; 2] = if f3.len() == 2 {
            [f3[0], f3[1]]
        } else {
            [0u8, 0u8]
        };
        let description = vstd::slice::slice_to_vec(fields[4].as_slice());
        let entry = ASNEntry { asn: a, country, description };
        proof {
            assert(entry@ == (SpecAsn {
                asn: a,
                c0: if f[3].len() == 2 {
                    f[3][0]
                } else {
                    0
                },
                c1: if f[3].len() == 2 {
                    f[3][1]
                } else {
                    0
                },
                desc: f[4],
            }));
        }
        // A mixed-family range skips the whole row: nothing is inserted.
        match (s0, e0) {
            (ParsedIp::V4(x), ParsedIp::V4(y)) => {
                self.asn_map.insert(entry);
                self.ipv4.insert(x, y, a);
            },
            (ParsedIp::V6(x), ParsedIp::V6(y)) => {
                self.asn_map.insert(entry);
                self.ipv6.insert(x, y, a);
            },
            _ => {},
        }
    }

    /// Populate from a tab-separated dump: one row per line, the first five
    /// fields read, malformed rows skipped. Forgiving by design: the goal is
    /// to absorb the good rows and discard the bad without failing the load.
    pub fn load_from_tsv(&mut self, contents: &[u8])
        requires
            old(self).wf(),
        ensures
            final(self).wf(),
            final(self)@ == spec_ingest(old(self)@, spec_split(contents@, 10)),
    {
        let ghost all = spec_split(contents@, 10);
        let ghost v0 = self@;
        let lines = split_bytes(contents, 10);
        let n = lines.len();
        let mut k: usize = 0;
        proof {
            assert(all.skip(0) =~= all);
        }
        while k < n
            invariant
                n == lines@.len(),
                lines@.map_values(|v: Vec<u8>| v@) == all,
                0 <= k <= n,
                self.wf(),
                spec_ingest(self@, all.skip(k as int)) == spec_ingest(v0, all),
            decreases n - k,
        {
            let ghost pre = self@;
            proof {
                assert(lines@[k as int]@ == all[k as int]);
                assert(all.skip(k as int)[0] == all[k as int]);
                assert(all.skip(k as int).skip(1) =~= all.skip(k as int + 1));
                assert(spec_ingest(pre, all.skip(k as int)) == spec_ingest(
                    spec_line(pre, all[k as int]),
                    all.skip(k as int + 1),
                ));
            }
            self.ingest_line(lines[k].as_slice());
            k = k + 1;
        }
        proof {
            assert(all.skip(n as int) =~= Seq::<Seq<u8>>::empty());
            assert(spec_ingest(self@, all.skip(n as int)) == self@);
        }
    }

    /// Serialize to the snapshot format: the 1024-byte header, then the ASN
    /// records with their descriptions interned through a fresh string pool,
    /// the IPv4 entries, the IPv6 entries (both in ascending-start order),
    /// and finally the pool bytes.
    #[verifier::rlimit(100)]
    pub fn save(&self) -> (out: Vec<u8>)
        requires
            self.wf(),
            spec_encodable(self@),
        ensures
            out@ == spec_save(self@),
    {
        let ghost asns = self@.asns;
        let na = self.asn_map.len();
        let n4 = self.ipv4.len();
        let n6 = self.ipv6.len();
        let mut strpool = StringPool::new();
        let mut recs: Vec<u8> = Vec::new();
        let mut k: usize = 0;
        proof {
            lemma_auto_spec_u32_to_from_le_bytes();
            assert(asns.take(0) =~= Seq::<SpecAsn>::empty());
            assert(strpool.segs() =~= spec_encode_asns(asns.take(0)).0);
            assert(recs@ =~= spec_encode_asns(asns.take(0)).1);
        }
        while k < na
            invariant
                asns == self@.asns,
                na == asns.len(),
                0 <= k <= na,
                self.wf(),
                spec_encodable(self@),
                strpool.wf(),
                strpool.segs() == spec_encode_asns(asns.take(k as int)).0,
                recs@ == spec_encode_asns(asns.take(k as int)).1,
            decreases na - k,
        {
            let e = self.asn_map.entry_at(k);
            let ghost segs0 = strpool.segs();
            let ghost d = asns[k as int].desc;
            let ghost segs1 = spec_encode_asns(asns.take(k as int + 1)).0;
            let ghost fin = spec_encode_asns(asns).0;
            let ghost off_spec = if segs0.contains(d) {
                concat_segs(segs0.take(seg_index(segs0, d))).len() as int
            } else {
                concat_segs(segs0).len() as int
            };
            proof {
                lemma_auto_spec_u32_to_from_le_bytes();
                assert(e@ == asns[k as int]);
                assert(e.description@ == d);
                assert(asns.take(k as int + 1).drop_last() =~= asns.take(k as int));
                assert(asns.take(k as int + 1).last() == asns[k as int]);
                assert(segs1 == (if segs0.contains(d) {
                    segs0
                } else {
                    segs0.push(d)
                }));
                lemma_encode_prefix(asns, k as int + 1);
                assert(segs1 == fin.take(segs1.len() as int));
                lemma_concat_take_le(fin, segs1.len() as int);
                assert(concat_segs(fin).len() < 0x1_0000_0000);
                if !segs0.contains(d) {
                    lemma_concat_push(segs0, d);
                    assert(concat_segs(segs1).len() == strpool.pool@.len() + d.len());
                    assert(strpool.pool@.len() + d.len() < 0x1_0000_0000);
                }
            }
            let token = strpool.pack(e.description.as_slice());
            proof {
                assert(strpool.segs() == segs1);
                let i = choose|i: int|
                    0 <= i < strpool.segs().len() && #[trigger] strpool.segs()[i] == d
                        && token.0 as int == concat_segs(strpool.segs().take(i)).len();
                if segs0.contains(d) {
                    lemma_seg_index_of(segs0, d);
                    let idx = seg_index(segs0, d);
                    if i != idx {
                        assert(segs1[i] == segs1[idx]);
                        assert(false);
                    }
                } else {
                    let m = segs0.len() as int;
                    if i != m {
                        assert(segs1[i] == segs0[i]);
                        assert(segs0.contains(d));
                        assert(false);
                    }
                    assert(segs1.take(m) =~= segs0);
                }
                assert(token.0 as int == off_spec);
                assert(token.1 == d.len());
            }
            let ghost pre_recs = recs@;
            push_u32_be(&mut recs, e.asn);
            recs.push(e.country[0]);
            recs.push(e.country[1]);
            let t0 = u32_to_le_bytes(token.0);
            recs.extend_from_slice(t0.as_slice());
            let t1 = u32_to_le_bytes(token.1);
            recs.extend_from_slice(t1.as_slice());
            proof {
                lemma_auto_spec_u32_to_from_le_bytes();
                assert(e.country@[0] == asns[k as int].c0);
                assert(e.country@[1] == asns[k as int].c1);
                assert(recs@ =~= pre_recs + crate::wire::spec_u32_to_be(asns[k as int].asn)
                    + seq![asns[k as int].c0, asns[k as int].c1] + spec_u32_to_le_bytes(
                    off_spec as u32,
                ) + spec_u32_to_le_bytes(d.len() as u32));
                assert(recs@ =~= spec_encode_asns(asns.take(k as int + 1)).1);
            }
            k = k + 1;
        }
        proof {
            assert(asns.take(na as int) =~= asns);
        }
        // Counts, pool offset and pool length all fit 32 bits.
        let plen = strpool.save().len();
        let na32 = na as u32;
        let n432 = n4 as u32;
        let n632 = n6 as u32;
        let off64: u64 = 1024u64 + 14u64 * (na as u64) + 12u64 * (n4 as u64) + 36u64 * (n6
            as u64);
        proof {
            assert(off64 as int == spec_pool_off(self@));
            assert(plen == spec_pool_bytes(self@).len());
        }
        let pool_off32 = off64 as u32;
        let plen32 = plen as u32;
        let mut out: Vec<u8> = Vec::new();
        out.push(0x5f);
        out.push(0x49);
        out.push(0x50);
        out.push(0x52);
        out.push(0x41);
        out.push(0x4e);
        out.push(0x47);
        out.push(0x45);
        out.push(0x43);
        out.push(0x41);
        out.push(0x43);
        out.push(0x48);
        out.push(0x45);
        out.push(0x5f);
        out.push(0x44);
        out.push(0x42);
        proof {
            assert(out@ =~= spec_signature());
        }
        push_u16_be(&mut out, 2);
        push_u32_be(&mut out, pool_off32);
        push_u32_be(&mut out, plen32);
        push_u32_be(&mut out, 0);
        push_u32_be(&mut out, na32);
        push_u32_be(&mut out, n432);
        push_u32_be(&mut out, n632);
        let ghost head42 = out@;
        let mut z: usize = 0;
        while z < 982
            invariant
                0 <= z <= 982,
                out@ == head42 + Seq::new(z as nat, |i: int| 0u8),
            decreases 982 - z,
        {
            out.push(0u8);
            proof {
                assert(out@ =~= head42 + Seq::new((z + 1) as nat, |i: int| 0u8));
            }
            z = z + 1;
        }
        proof {
            assert(out@ =~= spec_header(self@));
        }
        out.extend_from_slice(recs.as_slice());
        let ghost pre4 = out@;
        proof {
            assert(self@.v4.take(0) =~= Seq::<SpecRange>::empty());
            assert(pre4 + spec_v4_records(self@.v4.take(0)) =~= pre4);
        }
        let mut k4: usize = 0;
        while k4 < n4
            invariant
                n4 == self@.v4.len(),
                0 <= k4 <= n4,
                self.wf(),
                out@ == pre4 + spec_v4_records(self@.v4.take(k4 as int)),
            decreases n4 - k4,
        {
            let e = self.ipv4.entry_at(k4);
            proof {
                assert(e@ == self@.v4[k4 as int]);
                assert(self@.v4.take(k4 as int + 1).drop_last() =~= self@.v4.take(k4 as int));
                assert(self@.v4.take(k4 as int + 1).last() == self@.v4[k4 as int]);
                assert((self@.v4[k4 as int].start as u32) == e.starts);
                assert((self@.v4[k4 as int].end as u32) == e.ends);
            }
            push_u32_be(&mut out, e.starts);
            push_u32_be(&mut out, e.ends);
            push_u32_be(&mut out, e.asn);
            proof {
                assert(out@ =~= pre4 + spec_v4_records(self@.v4.take(k4 as int + 1)));
            }
            k4 = k4 + 1;
        }
        let ghost pre6 = out@;
        proof {
            assert(self@.v6.take(0) =~= Seq::<SpecRange>::empty());
            assert(pre6 + spec_v6_records(self@.v6.take(0)) =~= pre6);
        }
        let mut k6: usize = 0;
        while k6 < n6
            invariant
                n6 == self@.v6.len(),
                0 <= k6 <= n6,
                self.wf(),
                out@ == pre6 + spec_v6_records(self@.v6.take(k6 as int)),
            decreases n6 - k6,
        {
            let e = self.ipv6.entry_at(k6);
            proof {
                assert(e@ == self@.v6[k6 as int]);
                assert(self@.v6.take(k6 as int + 1).drop_last() =~= self@.v6.take(k6 as int));
                assert(self@.v6.take(k6 as int + 1).last() == self@.v6[k6 as int]);
                assert((self@.v6[k6 as int].start as u128) == e.starts);
                assert((self@.v6[k6 as int].end as u128) == e.ends);
            }
            push_u128_be(&mut out, e.starts);
            push_u128_be(&mut out, e.ends);
            push_u32_be(&mut out, e.asn);
            proof {
                assert(out@ =~= pre6 + spec_v6_records(self@.v6.take(k6 as int + 1)));
            }
            k6 = k6 + 1;
        }
        out.extend_from_slice(strpool.save().as_slice());
        proof {
            assert(self@.v4.take(n4 as int) =~= self@.v4);
            assert(self@.v6.take(n6 as int) =~= self@.v6);
            assert(out@ =~= spec_save(self@));
        }
        out
    }

    /// Rebuild a database from snapshot bytes. The signature is verified
    /// first, then the version; the header's region bounds are held against
    /// the byte length; then the pool is adopted and the records read.
    #[verifier::rlimit(100)]
    pub fn load(bytes: &[u8]) -> (r: Result<IPDatabase, LoadError>)
        ensures
            r matches Ok(db) ==> spec_load(bytes@) == Ok::<DbView, LoadError>(db@) && db.wf(),
            r matches Err(e) ==> spec_load(bytes@) == Err::<DbView, LoadError>(e),
    {
        let len = bytes.len();
        if len < 1024 {
            return Err(LoadError::Truncated);
        }
        let mut i: usize = 0;
        while i < 16
            invariant
                0 <= i <= 16,
                len == bytes@.len(),
                len >= 1024,
                forall|j: int| 0 <= j < i ==> bytes@[j] == spec_signature()[j],
            decreases 16 - i,
        {
            let b = *vstd::slice::slice_index_get(bytes, i);
            let expect = sig_byte(i);
            if b != expect {
                proof {
                    assert(bytes@.subrange(0, 16)[i as int] != spec_signature()[i as int]);
                }
                return Err(LoadError::InvalidSignature);
            }
            i = i + 1;
        }
        proof {
            assert(bytes@.subrange(0, 16) =~= spec_signature());
        }
        let version = read_u16_be(bytes, 16);
        if version != 2 {
            return Err(LoadError::InvalidVersion);
        }
        let pool_off = read_u32_be(bytes, 18);
        let pool_len = read_u32_be(bytes, 22);
        let asn_count = read_u32_be(bytes, 30);
        let v4_count = read_u32_be(bytes, 34);
        let v6_count = read_u32_be(bytes, 38);
        if pool_off as u64 + pool_len as u64 > len as u64 {
            return Err(LoadError::Truncated);
        }
        if 1024u64 + 14u64 * (asn_count as u64) + 12u64 * (v4_count as u64) + 36u64 * (v6_count
            as u64) > len as u64 {
            return Err(LoadError::Truncated);
        }
        let pool_end = pool_off as usize + pool_len as usize;
        let pvec = vstd::slice::slice_to_vec(
            vstd::slice::slice_subrange(bytes, pool_off as usize, pool_end),
        );
        let strpool = StringPool::load(pvec);
        let ghost pool = bytes@.subrange(pool_off as int, pool_off as int + pool_len as int);
        proof {
            assert(strpool.pool@ == pool);
        }
        let mut db = IPDatabase::new();
        let nasn = asn_count as usize;
        let nv4 = v4_count as usize;
        let nv6 = v6_count as usize;
        let mut base: usize = 1024;
        let mut k: usize = 0;
        proof {
            assert(db.asn_map@ =~= spec_load_asns(bytes@, pool, 0));
        }
        while k < nasn
            invariant
                len == bytes@.len(),
                nasn == asn_count,
                nv4 == v4_count,
                nv6 == v6_count,
                1024 + 14 * (nasn as int) + 12 * (nv4 as int) + 36 * (nv6 as int) <= len,
                0 <= k <= nasn,
                base == 1024 + 14 * k,
                strpool.pool@ == pool,
                db.wf(),
                db.asn_map@ == spec_load_asns(bytes@, pool, k as int),
                db.ipv4@ == Seq::<SpecRange>::empty(),
                db.ipv6@ == Seq::<SpecRange>::empty(),
            decreases nasn - k,
        {
            let asn = read_u32_be(bytes, base);
            let c0 = *vstd::slice::slice_index_get(bytes, base + 4);
            let c1 = *vstd::slice::slice_index_get(bytes, base + 5);
            let t0 = u32_from_le_bytes(vstd::slice::slice_subrange(bytes, base + 6, base + 10));
            let t1 = u32_from_le_bytes(vstd::slice::slice_subrange(bytes, base + 10, base + 14));
            let description = strpool.unpack(t0, t1);
            let entry = ASNEntry { asn, country: [c0, c1], description };
            proof {
                assert(entry@ == (SpecAsn {
                    asn: crate::wire::spec_u32_from_be(
                        bytes@.subrange(base as int, base as int + 4),
                    ),
                    c0: bytes@[base as int + 4],
                    c1: bytes@[base as int + 5],
                    desc: spec_unpack(
                        pool,
                        spec_u32_from_le_bytes(bytes@.subrange(base as int + 6, base as int + 10)),
                        spec_u32_from_le_bytes(bytes@.subrange(base as int + 10, base as int + 14)),
                    ),
                }));
            }
            db.asn_map.insert(entry);
            proof {
                assert(db.asn_map@ == spec_load_asns(bytes@, pool, k as int + 1));
            }
            base = base + 14;
            k = k + 1;
        }
        let ghost base4 = 1024 + 14 * (nasn as int);
        let mut k4: usize = 0;
        proof {
            assert(db.ipv4@ =~= spec_load_v4(bytes@, base4, 0));
        }
        while k4 < nv4
            invariant
                len == bytes@.len(),
                nasn == asn_count,
                nv4 == v4_count,
                nv6 == v6_count,
                1024 + 14 * (nasn as int) + 12 * (nv4 as int) + 36 * (nv6 as int) <= len,
                base4 == 1024 + 14 * (nasn as int),
                0 <= k4 <= nv4,
                base == base4 + 12 * k4,
                db.wf(),
                db.asn_map@ == spec_load_asns(bytes@, pool, nasn as int),
                db.ipv4@ == spec_load_v4(bytes@, base4, k4 as int),
                db.ipv6@ == Seq::<SpecRange>::empty(),
            decreases nv4 - k4,
        {
            let start = read_u32_be(bytes, base);
            let end = read_u32_be(bytes, base + 4);
            let a = read_u32_be(bytes, base + 8);
            db.ipv4.insert(start, end, a);
            proof {
                assert(db.ipv4@ == spec_load_v4(bytes@, base4, k4 as int + 1));
            }
            base = base + 12;
            k4 = k4 + 1;
        }
        let ghost base6 = base4 + 12 * (nv4 as int);
        let mut k6: usize = 0;
        proof {
            assert(db.ipv6@ =~= spec_load_v6(bytes@, base6, 0));
        }
        while k6 < nv6
            invariant
                len == bytes@.len(),
                nasn == asn_count,
                nv4 == v4_count,
                nv6 == v6_count,
                1024 + 14 * (nasn as int) + 12 * (nv4 as int) + 36 * (nv6 as int) <= len,
                base4 == 1024 + 14 * (nasn as int),
                base6 == base4 + 12 * (nv4 as int),
                0 <= k6 <= nv6,
                base == base6 + 36 * k6,
                db.wf(),
                db.asn_map@ == spec_load_asns(bytes@, pool, nasn as int),
                db.ipv4@ == spec_load_v4(bytes@, base4, nv4 as int),
                db.ipv6@ == spec_load_v6(bytes@, base6, k6 as int),
            decreases nv6 - k6,
        {
            let start = read_u128_be(bytes, base);
            let end = read_u128_be(bytes, base + 16);
            let a = read_u32_be(bytes, base + 32);
            db.ipv6.insert(start, end, a);
            proof {
                assert(db.ipv6@ == spec_load_v6(bytes@, base6, k6 as int + 1));
            }
            base = base + 36;
            k6 = k6 + 1;
        }
        proof {
            assert(db@ =~= (DbView {
                asns: spec_load_asns(bytes@, pool, asn_count as int),
                v4: spec_load_v4(bytes@, 1024 + 14 * (asn_count as int), v4_count as int),
                v6: spec_load_v6(
                    bytes@,
                    1024 + 14 * (asn_count as int) + 12 * (v4_count as int),
                    v6_count as int,
                ),
            }));
            assert(spec_load(bytes@) == Ok::<DbView, LoadError>(db@));
        }
        Ok(db)
    }
}

fn sig_byte(i: usize) -> (r: u8)
    requires
        i < 16,
    ensures
        r == spec_signature()[i as int],
{
    if i == 0 {
        0x5f
    } else if i == 1 {
        0x49
    } else if i == 2 {
        0x50
    } else if i == 3 {
        0x52
    } else if i == 4 {
        0x41
    } else if i == 5 {
        0x4e
    } else if i == 6 {
        0x47
    } else if i == 7 {
        0x45
    } else if i == 8 {
        0x43
    } else if i == 9 {
        0x41
    } else if i == 10 {
        0x43
    } else if i == 11 {
        0x48
    } else if i == 12 {
        0x45
    } else if i == 13 {
        0x5f
    } else if i == 14 {
        0x44
    } else {
        0x42
    }
}

/// Law (parse failure is not an error): text that is not an IP literal
/// yields no match — and `query` itself is verified never to panic.
pub proof fn lemma_query_unparseable(v: DbView, s: Seq<u8>)
    requires
        spec_parse_ip(s) is None,
    ensures
        spec_query(v, s) is None,
{
}

/// Law (range correctness, IPv4 hit): when the index is ordered and
/// non-overlapping, a point inside an installed range resolves to that
/// range's AS number.
pub proof fn lemma_query_range_hit_v4(v: DbView, i: int, x: u32)
    requires
        sorted_by_start(v.v4),
        non_overlapping(v.v4),
        0 <= i < v.v4.len(),
        v.v4[i].start <= x as int <= v.v4[i].end,
    ensures
        spec_query_num(v, ParsedIp::V4(x)) == spec_asn_lookup(v.asns, v.v4[i].asn),
{
    lemma_find_hit(v.v4, i, x as int);
}

/// Law (range correctness, IPv4 miss): a point covered by no installed
/// range — a gap between ranges, or the space before the first or after
/// the last — yields no match.
pub proof fn lemma_query_range_miss_v4(v: DbView, x: u32)
    requires
        forall|i: int|
            0 <= i < v.v4.len() ==> !((#[trigger] v.v4[i]).start <= x as int <= v.v4[i].end),
    ensures
        spec_query_num(v, ParsedIp::V4(x)) is None,
{
    lemma_find_miss(v.v4, x as int);
}

/// Law (range correctness, IPv6 hit): as for IPv4.
pub proof fn lemma_query_range_hit_v6(v: DbView, i: int, x: u128)
    requires
        sorted_by_start(v.v6),
        non_overlapping(v.v6),
        0 <= i < v.v6.len(),
        v.v6[i].start <= x as int <= v.v6[i].end,
    ensures
        spec_query_num(v, ParsedIp::V6(x)) == spec_asn_lookup(v.asns, v.v6[i].asn),
{
    lemma_find_hit(v.v6, i, x as int);
}

/// Law (range correctness, IPv6 miss): as for IPv4.
pub proof fn lemma_query_range_miss_v6(v: DbView, x: u128)
    requires
        forall|i: int|
            0 <= i < v.v6.len() ==> !((#[trigger] v.v6[i]).start <= x as int <= v.v6[i].end),
    ensures
        spec_query_num(v, ParsedIp::V6(x)) is None,
{
    lemma_find_miss(v.v6, x as int);
}

/// Law (round trip): loading the bytes `save` emits restores a database
/// image that answers every query exactly as the saved one did.
pub proof fn lemma_round_trip_query(v: DbView, q: Seq<u8>)
    requires
        wf_view(v),
        spec_encodable(v),
    ensures
        spec_load(spec_save(v)) == Ok::<DbView, LoadError>(v),
        spec_load(spec_save(v)) matches Ok(w) ==> spec_query(w, q) == spec_query(v, q),
{
    lemma_save_load_round_trip(v);
}

/// A database built through this module's operations also satisfies the
/// view-level well-formedness the codec's laws speak of: its range keys
/// are within their address widths by construction.
pub proof fn lemma_db_wf_view(db: IPDatabase)
    requires
        db.wf(),
    ensures
        wf_view(db@),
{
    assert forall|i: int| 0 <= i < db@.v4.len() implies 0 <= (#[trigger] db@.v4[i]).start
        < 0x1_0000_0000 && 0 <= db@.v4[i].end < 0x1_0000_0000 by {
        assert(db@.v4[i] == db.ipv4.entries@[i]@);
    }
    assert forall|i: int| 0 <= i < db@.v6.len() implies 0 <= (#[trigger] db@.v6[i]).start
        < 0x1_0000_0000_0000_0000_0000_0000_0000_0000 && 0 <= db@.v6[i].end
        < 0x1_0000_0000_0000_0000_0000_0000_0000_0000 by {
        assert(db@.v6[i] == db.ipv6.entries@[i]@);
    }
}

} // verus!
