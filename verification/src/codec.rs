//! The binary snapshot format, as mathematics: what `save` emits and what
//! `load` accepts. The file is a fixed 1024-byte header followed by ASN
//! records, IPv4 range entries, IPv6 range entries, and the string pool.
//! Structural integers are big-endian; the string-pool tokens embedded in
//! ASN records are little-endian — a historical wart preserved for
//! byte-for-byte compatibility.

use vstd::prelude::*;
use vstd::bytes::{
    spec_u32_to_le_bytes,
    spec_u32_from_le_bytes,
    lemma_auto_spec_u32_to_from_le_bytes,
};
use crate::asn::{SpecAsn, sorted_by_asn, spec_insert_asn, lemma_insert_asn_append};
use crate::ranges::{SpecRange, sorted_by_start, spec_insert_range, lemma_insert_range_append};
use crate::stringpool::{concat_segs, spec_unpack};
use crate::wire::{
    spec_u16_to_be,
    spec_u16_from_be,
    spec_u32_to_be,
    spec_u32_from_be,
    spec_u128_to_be,
    spec_u128_from_be,
    lemma_u16_be_round_trip,
    lemma_u32_be_round_trip,
    lemma_u128_be_round_trip,
};

verus! {

/// Mathematical image of a whole database: the ASN table and both range
/// indexes, each in its stored order.
#[verifier::ext_equal]
pub struct DbView {
    pub asns: Seq<SpecAsn>,
    pub v4: Seq<SpecRange>,
    pub v6: Seq<SpecRange>,
}

/// The shape every database holds by construction: tables ordered by their
/// keys, range keys within their address width.
pub open spec fn wf_view(v: DbView) -> bool {
    &&& sorted_by_asn(v.asns)
    &&& sorted_by_start(v.v4)
    &&& sorted_by_start(v.v6)
    &&& forall|i: int|
        0 <= i < v.v4.len() ==> 0 <= (#[trigger] v.v4[i]).start < 0x1_0000_0000 && 0 <= v.v4[i].end
            < 0x1_0000_0000
    &&& forall|i: int|
        0 <= i < v.v6.len() ==> 0 <= (#[trigger] v.v6[i]).start < 0x1_0000_0000_0000_0000_0000_0000_0000_0000
            && 0 <= v.v6[i].end < 0x1_0000_0000_0000_0000_0000_0000_0000_0000
}

/// Why a snapshot was rejected.
#[derive(Clone, Copy, PartialEq, Eq, Structural, Debug)]
pub enum LoadError {
    /// The signature bytes differ from the format's.
    InvalidSignature,
    /// The version word differs from the current version.
    InvalidVersion,
    /// The file ends before a region the header promises.
    Truncated,
}

/// The 16 signature bytes: the ASCII of `_IPRANGECACHE_DB`.
pub open spec fn spec_signature() -> Seq<u8> {
    seq![0x5fu8, 0x49, 0x50, 0x52, 0x41, 0x4e, 0x47, 0x45, 0x43, 0x41, 0x43, 0x48, 0x45, 0x5f,
        0x44, 0x42]
}

/// The snapshot format version.
pub open spec fn spec_version() -> u16 {
    2
}

/// Index of segment `d` among `segs` (the last occurrence; with pairwise
/// distinct segments, the only one).
pub open spec fn seg_index(segs: Seq<Seq<u8>>, d: Seq<u8>) -> int
    decreases segs.len(),
{
    if segs.len() == 0 {
        0
    } else if segs.last() == d {
        segs.len() - 1
    } else {
        seg_index(segs.drop_last(), d)
    }
}

pub proof fn lemma_seg_index_of(segs: Seq<Seq<u8>>, d: Seq<u8>)
    requires
        segs.contains(d),
    ensures
        0 <= seg_index(segs, d) < segs.len(),
        segs[seg_index(segs, d)] == d,
    decreases segs.len(),
{
    if segs.last() != d {
        let i = choose|i: int| 0 <= i < segs.len() && segs[i] == d;
        assert(segs.drop_last()[i] == d);
        assert(segs.drop_last().contains(d));
        lemma_seg_index_of(segs.drop_last(), d);
    }
}

/// Folding the ASN records through the interning pool: the resulting
/// segments and the emitted record bytes. Each record is 4 bytes of AS
/// number (big-endian), the 2 country bytes, and the 8-byte little-endian
/// `(offset, length)` token of its description.
pub open spec fn spec_encode_asns(asns: Seq<SpecAsn>) -> (Seq<Seq<u8>>, Seq<u8>)
    decreases asns.len(),
{
    if asns.len() == 0 {
        (Seq::<Seq<u8>>::empty(), Seq::<u8>::empty())
    } else {
        let prev = spec_encode_asns(asns.drop_last());
        let e = asns.last();
        let segs = if prev.0.contains(e.desc) {
            prev.0
        } else {
            prev.0.push(e.desc)
        };
        let off = if prev.0.contains(e.desc) {
            concat_segs(prev.0.take(seg_index(prev.0, e.desc))).len() as int
        } else {
            concat_segs(prev.0).len() as int
        };
        (
            segs,
            prev.1 + spec_u32_to_be(e.asn) + seq![e.c0, e.c1] + spec_u32_to_le_bytes(off as u32)
                + spec_u32_to_le_bytes(e.desc.len() as u32),
        )
    }
}

/// The token offset recorded for record `k`.
pub open spec fn spec_rec_off(asns: Seq<SpecAsn>, k: int) -> int {
    let segs0 = spec_encode_asns(asns.take(k)).0;
    let d = asns[k].desc;
    if segs0.contains(d) {
        concat_segs(segs0.take(seg_index(segs0, d))).len() as int
    } else {
        concat_segs(segs0).len() as int
    }
}

/// The 14 bytes of ASN record `k`.
pub open spec fn spec_asn_record(asns: Seq<SpecAsn>, k: int) -> Seq<u8> {
    spec_u32_to_be(asns[k].asn) + seq![asns[k].c0, asns[k].c1] + spec_u32_to_le_bytes(
        spec_rec_off(asns, k) as u32,
    ) + spec_u32_to_le_bytes(asns[k].desc.len() as u32)
}

/// The 12-byte IPv4 range entries: start, end, AS number, each big-endian.
pub open spec fn spec_v4_records(s: Seq<SpecRange>) -> Seq<u8>
    decreases s.len(),
{
    if s.len() == 0 {
        Seq::<u8>::empty()
    } else {
        spec_v4_records(s.drop_last()) + spec_u32_to_be(s.last().start as u32) + spec_u32_to_be(
            s.last().end as u32,
        ) + spec_u32_to_be(s.last().asn)
    }
}

/// The 36-byte IPv6 range entries: start, end, AS number, each big-endian.
pub open spec fn spec_v6_records(s: Seq<SpecRange>) -> Seq<u8>
    decreases s.len(),
{
    if s.len() == 0 {
        Seq::<u8>::empty()
    } else {
        spec_v6_records(s.drop_last()) + spec_u128_to_be(s.last().start as u128) + spec_u128_to_be(
            s.last().end as u128,
        ) + spec_u32_to_be(s.last().asn)
    }
}

/// The string pool bytes of a snapshot of `v`.
pub open spec fn spec_pool_bytes(v: DbView) -> Seq<u8> {
    concat_segs(spec_encode_asns(v.asns).0)
}

/// Byte offset of the string pool within the file: everything before it is
/// fixed-width.
pub open spec fn spec_pool_off(v: DbView) -> int {
    1024 + 14 * v.asns.len() as int + 12 * v.v4.len() as int + 36 * v.v6.len() as int
}

/// The 1024-byte header: signature, version, pool offset and length, a
/// reserved word kept zero, the three counts, zero padding.
pub open spec fn spec_header(v: DbView) -> Seq<u8> {
    spec_signature() + spec_u16_to_be(spec_version()) + spec_u32_to_be(spec_pool_off(v) as u32)
        + spec_u32_to_be(spec_pool_bytes(v).len() as u32) + spec_u32_to_be(0u32) + spec_u32_to_be(
        v.asns.len() as u32,
    ) + spec_u32_to_be(v.v4.len() as u32) + spec_u32_to_be(v.v6.len() as u32) + Seq::new(
        982,
        |i: int| 0u8,
    )
}

/// A database small enough for the format: counts fit the header's 32-bit
/// fields and the whole file stays within a 32-bit offset.
pub open spec fn spec_encodable(v: DbView) -> bool {
    &&& v.asns.len() < 0x1_0000_0000
    &&& v.v4.len() < 0x1_0000_0000
    &&& v.v6.len() < 0x1_0000_0000
    &&& spec_pool_off(v) + spec_pool_bytes(v).len() < 0x1_0000_0000
}

/// The bytes `save` emits for a database with image `v`.
pub open spec fn spec_save(v: DbView) -> Seq<u8> {
    spec_header(v) + spec_encode_asns(v.asns).1 + spec_v4_records(v.v4) + spec_v6_records(v.v6)
        + spec_pool_bytes(v)
}

/// The ASN records a loader reconstructs: record `k` is parsed at byte
/// `1024 + 14k`, its description unpacked from the pool region, and the
/// records are folded through the table insert in file order.
pub open spec fn spec_load_asns(bytes: Seq<u8>, pool: Seq<u8>, n: int) -> Seq<SpecAsn>
    decreases n,
{
    if n <= 0 {
        Seq::<SpecAsn>::empty()
    } else {
        let prev = spec_load_asns(bytes, pool, n - 1);
        let base = 1024 + 14 * (n - 1);
        spec_insert_asn(
            prev,
            SpecAsn {
                asn: spec_u32_from_be(bytes.subrange(base, base + 4)),
                c0: bytes[base + 4],
                c1: bytes[base + 5],
                desc: spec_unpack(
                    pool,
                    spec_u32_from_le_bytes(bytes.subrange(base + 6, base + 10)),
                    spec_u32_from_le_bytes(bytes.subrange(base + 10, base + 14)),
                ),
            },
        )
    }
}

/// The IPv4 entries reconstructed from `n` records starting at `base0`.
pub open spec fn spec_load_v4(bytes: Seq<u8>, base0: int, n: int) -> Seq<SpecRange>
    decreases n,
{
    if n <= 0 {
        Seq::<SpecRange>::empty()
    } else {
        let prev = spec_load_v4(bytes, base0, n - 1);
        let base = base0 + 12 * (n - 1);
        spec_insert_range(
            prev,
            SpecRange {
                start: spec_u32_from_be(bytes.subrange(base, base + 4)) as int,
                end: spec_u32_from_be(bytes.subrange(base + 4, base + 8)) as int,
                asn: spec_u32_from_be(bytes.subrange(base + 8, base + 12)),
            },
        )
    }
}

/// The IPv6 entries reconstructed from `n` records starting at `base0`.
pub open spec fn spec_load_v6(bytes: Seq<u8>, base0: int, n: int) -> Seq<SpecRange>
    decreases n,
{
    if n <= 0 {
        Seq::<SpecRange>::empty()
    } else {
        let prev = spec_load_v6(bytes, base0, n - 1);
        let base = base0 + 36 * (n - 1);
        spec_insert_range(
            prev,
            SpecRange {
                start: spec_u128_from_be(bytes.subrange(base, base + 16)) as int,
                end: spec_u128_from_be(bytes.subrange(base + 16, base + 32)) as int,
                asn: spec_u32_from_be(bytes.subrange(base + 32, base + 36)),
            },
        )
    }
}

/// What a loader makes of a byte string: the reconstructed database image,
/// or the reason the snapshot is rejected. The signature is checked first,
/// then the version; the header's region bounds are held against the file
/// length before anything is read from them.
pub open spec fn spec_load(bytes: Seq<u8>) -> Result<DbView, LoadError> {
    if bytes.len() < 1024 {
        Err(LoadError::Truncated)
    } else if bytes.subrange(0, 16) != spec_signature() {
        Err(LoadError::InvalidSignature)
    } else if spec_u16_from_be(bytes.subrange(16, 18)) != spec_version() {
        Err(LoadError::InvalidVersion)
    } else {
        let pool_off = spec_u32_from_be(bytes.subrange(18, 22));
        let pool_len = spec_u32_from_be(bytes.subrange(22, 26));
        let asn_count = spec_u32_from_be(bytes.subrange(30, 34));
        let v4_count = spec_u32_from_be(bytes.subrange(34, 38));
        let v6_count = spec_u32_from_be(bytes.subrange(38, 42));
        if pool_off + pool_len > bytes.len() {
            Err(LoadError::Truncated)
        } else if 1024 + 14 * asn_count + 12 * v4_count + 36 * v6_count > bytes.len() {
            Err(LoadError::Truncated)
        } else {
            let pool = bytes.subrange(pool_off as int, pool_off + pool_len);
            Ok(
                DbView {
                    asns: spec_load_asns(bytes, pool, asn_count as int),
                    v4: spec_load_v4(bytes, 1024 + 14 * asn_count, v4_count as int),
                    v6: spec_load_v6(
                        bytes,
                        1024 + 14 * asn_count + 12 * v4_count,
                        v6_count as int,
                    ),
                },
            )
        }
    }
}

/// Law (header rejection): a file whose signature differs is rejected as
/// invalid-signature; a right-signature file whose version differs is
/// rejected as invalid-version. Both statements ask that the full
/// 1024-byte header be present: the header is read first, so a file
/// shorter than that is rejected as truncated before either check.
pub proof fn lemma_header_rejection(bytes: Seq<u8>)
    requires
        bytes.len() >= 1024,
    ensures
        bytes.subrange(0, 16) != spec_signature() ==> spec_load(bytes) == Err::<
            DbView,
            LoadError,
        >(LoadError::InvalidSignature),
        bytes.subrange(0, 16) == spec_signature() && spec_u16_from_be(bytes.subrange(16, 18))
            != spec_version() ==> spec_load(bytes) == Err::<DbView, LoadError>(
            LoadError::InvalidVersion,
        ),
{
}

/// The emitted ASN record bytes are 14 per record.
pub proof fn lemma_encode_asns_len(asns: Seq<SpecAsn>)
    ensures
        spec_encode_asns(asns).1.len() == 14 * asns.len(),
    decreases asns.len(),
{
    lemma_auto_spec_u32_to_from_le_bytes();
    if asns.len() > 0 {
        lemma_encode_asns_len(asns.drop_last());
    }
}

/// The emitted IPv4 entries are 12 bytes each.
pub proof fn lemma_v4_records_len(s: Seq<SpecRange>)
    ensures
        spec_v4_records(s).len() == 12 * s.len(),
    decreases s.len(),
{
    if s.len() > 0 {
        lemma_v4_records_len(s.drop_last());
    }
}

/// The emitted IPv6 entries are 36 bytes each.
pub proof fn lemma_v6_records_len(s: Seq<SpecRange>)
    ensures
        spec_v6_records(s).len() == 36 * s.len(),
    decreases s.len(),
{
    if s.len() > 0 {
        lemma_v6_records_len(s.drop_last());
    }
}

/// The header is exactly 1024 bytes.
pub proof fn lemma_header_len(v: DbView)
    ensures
        spec_header(v).len() == 1024,
{
    lemma_auto_spec_u32_to_from_le_bytes();
}


/// `a` is `b`'s prefix (segment sequences).
pub open spec fn is_seg_prefix(a: Seq<Seq<u8>>, b: Seq<Seq<u8>>) -> bool {
    a.len() <= b.len() && a == b.take(a.len() as int)
}

pub proof fn lemma_seg_prefix_trans(a: Seq<Seq<u8>>, b: Seq<Seq<u8>>, c: Seq<Seq<u8>>)
    requires
        is_seg_prefix(a, b),
        is_seg_prefix(b, c),
    ensures
        is_seg_prefix(a, c),
{
    assert(c.take(b.len() as int).take(a.len() as int) =~= c.take(a.len() as int));
}

proof fn lemma_encode_step_prefix(asns: Seq<SpecAsn>)
    requires
        asns.len() > 0,
    ensures
        is_seg_prefix(spec_encode_asns(asns.drop_last()).0, spec_encode_asns(asns).0),
{
    let a = spec_encode_asns(asns.drop_last()).0;
    let b = spec_encode_asns(asns).0;
    if a.contains(asns.last().desc) {
        assert(b == a);
        assert(b.take(a.len() as int) =~= a);
    } else {
        assert(b == a.push(asns.last().desc));
        assert(b.take(a.len() as int) =~= a);
    }
}

/// The segments interned after `k` records are a prefix of the final ones.
pub proof fn lemma_encode_prefix(asns: Seq<SpecAsn>, k: int)
    requires
        0 <= k <= asns.len(),
    ensures
        is_seg_prefix(spec_encode_asns(asns.take(k)).0, spec_encode_asns(asns).0),
    decreases asns.len(),
{
    if k == asns.len() {
        let a = spec_encode_asns(asns.take(k)).0;
        assert(asns.take(k) =~= asns);
        assert(a.take(a.len() as int) =~= a);
    } else {
        let dl = asns.drop_last();
        assert(asns.take(k) =~= dl.take(k));
        lemma_encode_prefix(dl, k);
        lemma_encode_step_prefix(asns);
        lemma_seg_prefix_trans(
            spec_encode_asns(asns.take(k)).0,
            spec_encode_asns(dl).0,
            spec_encode_asns(asns).0,
        );
    }
}

/// Appending one segment appends its bytes.
pub proof fn lemma_concat_push(segs: Seq<Seq<u8>>, d: Seq<u8>)
    ensures
        concat_segs(segs.push(d)) == concat_segs(segs) + d,
{
    assert(segs.push(d).drop_last() =~= segs);
    assert(segs.push(d).last() == d);
}

proof fn lemma_concat_take_step(segs: Seq<Seq<u8>>, i: int)
    requires
        0 <= i < segs.len(),
    ensures
        concat_segs(segs.take(i + 1)) == concat_segs(segs.take(i)) + segs[i],
{
    assert(segs.take(i + 1).drop_last() =~= segs.take(i));
    assert(segs.take(i + 1).last() == segs[i]);
}

/// The bytes of a segment prefix are a prefix of the whole pool's bytes.
pub proof fn lemma_concat_take_le(segs: Seq<Seq<u8>>, i: int)
    requires
        0 <= i <= segs.len(),
    ensures
        concat_segs(segs.take(i)).len() <= concat_segs(segs).len(),
        concat_segs(segs).take(concat_segs(segs.take(i)).len() as int) == concat_segs(
            segs.take(i),
        ),
    decreases segs.len() - i,
{
    if i == segs.len() {
        assert(segs.take(i) =~= segs);
        assert(concat_segs(segs).take(concat_segs(segs).len() as int) =~= concat_segs(segs));
    } else {
        lemma_concat_take_le(segs, i + 1);
        lemma_concat_take_step(segs, i);
        let a = concat_segs(segs.take(i));
        let b = concat_segs(segs.take(i + 1));
        let c = concat_segs(segs);
        assert(b == a + segs[i]);
        assert(c.take(b.len() as int).take(a.len() as int) =~= c.take(a.len() as int));
        assert(b.take(a.len() as int) =~= a);
    }
}

/// Slicing the pool at a segment's recorded offset gives the segment back.
proof fn lemma_seg_slice(segs: Seq<Seq<u8>>, i: int)
    requires
        0 <= i < segs.len(),
    ensures
        concat_segs(segs.take(i)).len() + segs[i].len() <= concat_segs(segs).len(),
        concat_segs(segs).subrange(
            concat_segs(segs.take(i)).len() as int,
            concat_segs(segs.take(i)).len() as int + segs[i].len() as int,
        ) == segs[i],
{
    let off = concat_segs(segs.take(i)).len() as int;
    lemma_concat_take_step(segs, i);
    lemma_concat_take_le(segs, i + 1);
    let b = concat_segs(segs.take(i + 1));
    let c = concat_segs(segs);
    assert(b.len() == off + segs[i].len());
    assert(c.take(b.len() as int) == b);
    assert forall|k: int| 0 <= k < segs[i].len() implies c[off + k] == segs[i][k] by {
        assert(c.take(b.len() as int)[off + k] == c[off + k]);
        assert(b[off + k] == segs[i][k]);
    }
    assert(c.subrange(off, off + segs[i].len()) =~= segs[i]);
}

/// The token recorded for record `k` addresses exactly its description in
/// the final pool bytes.
pub proof fn lemma_asn_desc_token(asns: Seq<SpecAsn>, k: int)
    requires
        0 <= k < asns.len(),
    ensures
        spec_rec_off(asns, k) + asns[k].desc.len() <= concat_segs(spec_encode_asns(asns).0).len(),
        0 <= spec_rec_off(asns, k),
        concat_segs(spec_encode_asns(asns).0).subrange(
            spec_rec_off(asns, k),
            spec_rec_off(asns, k) + asns[k].desc.len() as int,
        ) == asns[k].desc,
{
    let d = asns[k].desc;
    let segs0 = spec_encode_asns(asns.take(k)).0;
    let fin = spec_encode_asns(asns).0;
    lemma_encode_prefix(asns, k);
    if segs0.contains(d) {
        let idx = seg_index(segs0, d);
        lemma_seg_index_of(segs0, d);
        assert(fin.take(segs0.len() as int) == segs0);
        assert(fin[idx] == segs0[idx]);
        assert(segs0.take(idx) =~= fin.take(segs0.len() as int).take(idx));
        assert(fin.take(segs0.len() as int).take(idx) =~= fin.take(idx));
        lemma_seg_slice(fin, idx);
    } else {
        let segs1 = spec_encode_asns(asns.take(k + 1)).0;
        assert(asns.take(k + 1).drop_last() =~= asns.take(k));
        assert(asns.take(k + 1).last() == asns[k]);
        assert(segs1 == spec_encode_asns(asns.take(k + 1).drop_last()).0.push(d));
        assert(segs1 == segs0.push(d));
        lemma_encode_prefix(asns, k + 1);
        let m = segs0.len() as int;
        assert(fin.take(segs1.len() as int) == segs1);
        assert(fin[m] == segs1[m]);
        assert(segs1[m] == d);
        assert(fin.take(m) =~= fin.take(segs1.len() as int).take(m));
        assert(segs1.take(m) =~= segs0);
        assert(fin.take(m) == segs0);
        lemma_seg_slice(fin, m);
    }
}

/// The emitted ASN record bytes, sliced at `14k`, are record `k`.
pub proof fn lemma_asn_records_slice(asns: Seq<SpecAsn>, k: int)
    requires
        0 <= k < asns.len(),
    ensures
        spec_encode_asns(asns).1.subrange(14 * k, 14 * k + 14) == spec_asn_record(asns, k),
    decreases asns.len(),
{
    lemma_auto_spec_u32_to_from_le_bytes();
    let n = asns.len() as int;
    let dl = asns.drop_last();
    lemma_encode_asns_len(dl);
    let prev = spec_encode_asns(dl);
    if k == n - 1 {
        assert(dl =~= asns.take(k));
        assert(spec_rec_off(asns, k) == (if prev.0.contains(asns[k].desc) {
            concat_segs(prev.0.take(seg_index(prev.0, asns[k].desc))).len() as int
        } else {
            concat_segs(prev.0).len() as int
        }));
        assert(spec_encode_asns(asns).1.subrange(14 * k, 14 * k + 14) =~= spec_asn_record(
            asns,
            k,
        ));
    } else {
        lemma_asn_records_slice(dl, k);
        assert(dl.take(k) =~= asns.take(k));
        assert(dl[k] == asns[k]);
        assert(spec_asn_record(dl, k) == spec_asn_record(asns, k));
        lemma_encode_asns_len(asns);
        assert(spec_encode_asns(asns).1.subrange(14 * k, 14 * k + 14) =~= prev.1.subrange(
            14 * k,
            14 * k + 14,
        ));
    }
}

/// The emitted IPv4 entry bytes, sliced at `12k`, are entry `k`.
pub proof fn lemma_v4_records_slice(s: Seq<SpecRange>, k: int)
    requires
        0 <= k < s.len(),
    ensures
        spec_v4_records(s).subrange(12 * k, 12 * k + 12) == spec_u32_to_be(s[k].start as u32)
            + spec_u32_to_be(s[k].end as u32) + spec_u32_to_be(s[k].asn),
    decreases s.len(),
{
    let n = s.len() as int;
    let dl = s.drop_last();
    lemma_v4_records_len(dl);
    if k == n - 1 {
        assert(spec_v4_records(s).subrange(12 * k, 12 * k + 12) =~= spec_u32_to_be(
            s[k].start as u32,
        ) + spec_u32_to_be(s[k].end as u32) + spec_u32_to_be(s[k].asn));
    } else {
        lemma_v4_records_slice(dl, k);
        assert(dl[k] == s[k]);
        assert(spec_v4_records(s).subrange(12 * k, 12 * k + 12) =~= spec_v4_records(dl).subrange(
            12 * k,
            12 * k + 12,
        ));
    }
}

/// The emitted IPv6 entry bytes, sliced at `36k`, are entry `k`.
pub proof fn lemma_v6_records_slice(s: Seq<SpecRange>, k: int)
    requires
        0 <= k < s.len(),
    ensures
        spec_v6_records(s).subrange(36 * k, 36 * k + 36) == spec_u128_to_be(s[k].start as u128)
            + spec_u128_to_be(s[k].end as u128) + spec_u32_to_be(s[k].asn),
    decreases s.len(),
{
    let n = s.len() as int;
    let dl = s.drop_last();
    lemma_v6_records_len(dl);
    if k == n - 1 {
        assert(spec_v6_records(s).subrange(36 * k, 36 * k + 36) =~= spec_u128_to_be(
            s[k].start as u128,
        ) + spec_u128_to_be(s[k].end as u128) + spec_u32_to_be(s[k].asn));
    } else {
        lemma_v6_records_slice(dl, k);
        assert(dl[k] == s[k]);
        assert(spec_v6_records(s).subrange(36 * k, 36 * k + 36) =~= spec_v6_records(dl).subrange(
            36 * k,
            36 * k + 36,
        ));
    }
}


#[verifier::rlimit(100)]
proof fn lemma_load_asns_round(v: DbView, bytes: Seq<u8>, k: int)
    requires
        wf_view(v),
        spec_encodable(v),
        bytes == spec_save(v),
        0 <= k <= v.asns.len(),
    ensures
        spec_load_asns(bytes, spec_pool_bytes(v), k) == v.asns.take(k),
    decreases k,
{
    if k == 0 {
        assert(v.asns.take(0) =~= Seq::<SpecAsn>::empty());
    } else {
        lemma_load_asns_round(v, bytes, k - 1);
        lemma_auto_spec_u32_to_from_le_bytes();
        lemma_header_len(v);
        lemma_encode_asns_len(v.asns);
        lemma_v4_records_len(v.v4);
        lemma_v6_records_len(v.v6);
        let e = v.asns[k - 1];
        let base = 1024 + 14 * (k - 1);
        let a = spec_encode_asns(v.asns).1;
        lemma_asn_records_slice(v.asns, k - 1);
        let rec = spec_asn_record(v.asns, k - 1);
        let off = spec_rec_off(v.asns, k - 1);
        assert(bytes.subrange(base, base + 14) =~= a.subrange(14 * (k - 1), 14 * (k - 1) + 14));
        let brec = bytes.subrange(base, base + 14);
        assert(brec == rec);
        assert(rec.subrange(0, 4) =~= spec_u32_to_be(e.asn));
        assert(bytes.subrange(base, base + 4) =~= brec.subrange(0, 4));
        lemma_u32_be_round_trip(e.asn);
        assert(bytes[base + 4] == brec[4]);
        assert(rec[4] == e.c0);
        assert(bytes[base + 5] == brec[5]);
        assert(rec[5] == e.c1);
        assert(rec.subrange(6, 10) =~= spec_u32_to_le_bytes(off as u32));
        assert(bytes.subrange(base + 6, base + 10) =~= brec.subrange(6, 10));
        assert(rec.subrange(10, 14) =~= spec_u32_to_le_bytes(e.desc.len() as u32));
        assert(bytes.subrange(base + 10, base + 14) =~= brec.subrange(10, 14));
        lemma_asn_desc_token(v.asns, k - 1);
        let p = spec_pool_bytes(v);
        assert(p.len() < 0x1_0000_0000);
        assert((off as u32) as int == off);
        assert((e.desc.len() as u32) as int == e.desc.len() as int);
        assert(spec_unpack(p, off as u32, e.desc.len() as u32) == e.desc);
        assert(SpecAsn {
            asn: spec_u32_from_be(bytes.subrange(base, base + 4)),
            c0: bytes[base + 4],
            c1: bytes[base + 5],
            desc: spec_unpack(
                p,
                spec_u32_from_le_bytes(bytes.subrange(base + 6, base + 10)),
                spec_u32_from_le_bytes(bytes.subrange(base + 10, base + 14)),
            ),
        } == e);
        assert forall|i: int, j: int| 0 <= i < j < k - 1 implies (#[trigger] v.asns.take(k - 1)[i]).asn
            < (#[trigger] v.asns.take(k - 1)[j]).asn by {
            assert(v.asns[i].asn < v.asns[j].asn);
        }
        assert forall|j: int| 0 <= j < k - 1 implies (#[trigger] v.asns.take(k - 1)[j]).asn < e.asn by {
            assert(v.asns[j].asn < v.asns[k - 1].asn);
        }
        lemma_insert_asn_append(v.asns.take(k - 1), e);
        assert(v.asns.take(k - 1).push(e) =~= v.asns.take(k));
    }
}

#[verifier::rlimit(100)]
proof fn lemma_load_v4_round(v: DbView, bytes: Seq<u8>, k: int)
    requires
        wf_view(v),
        spec_encodable(v),
        bytes == spec_save(v),
        0 <= k <= v.v4.len(),
    ensures
        spec_load_v4(bytes, 1024 + 14 * v.asns.len() as int, k) == v.v4.take(k),
    decreases k,
{
    if k == 0 {
        assert(v.v4.take(0) =~= Seq::<SpecRange>::empty());
    } else {
        lemma_load_v4_round(v, bytes, k - 1);
        lemma_header_len(v);
        lemma_encode_asns_len(v.asns);
        lemma_v4_records_len(v.v4);
        lemma_v6_records_len(v.v6);
        let e = v.v4[k - 1];
        let base = 1024 + 14 * v.asns.len() as int + 12 * (k - 1);
        lemma_v4_records_slice(v.v4, k - 1);
        let r4 = spec_v4_records(v.v4);
        let rec = spec_u32_to_be(e.start as u32) + spec_u32_to_be(e.end as u32) + spec_u32_to_be(
            e.asn,
        );
        assert(bytes.subrange(base, base + 12) =~= r4.subrange(12 * (k - 1), 12 * (k - 1) + 12));
        let brec = bytes.subrange(base, base + 12);
        assert(brec == rec);
        assert(rec.subrange(0, 4) =~= spec_u32_to_be(e.start as u32));
        assert(bytes.subrange(base, base + 4) =~= brec.subrange(0, 4));
        assert(rec.subrange(4, 8) =~= spec_u32_to_be(e.end as u32));
        assert(bytes.subrange(base + 4, base + 8) =~= brec.subrange(4, 8));
        assert(rec.subrange(8, 12) =~= spec_u32_to_be(e.asn));
        assert(bytes.subrange(base + 8, base + 12) =~= brec.subrange(8, 12));
        lemma_u32_be_round_trip(e.start as u32);
        lemma_u32_be_round_trip(e.end as u32);
        lemma_u32_be_round_trip(e.asn);
        assert((e.start as u32) as int == e.start);
        assert((e.end as u32) as int == e.end);
        assert(SpecRange {
            start: spec_u32_from_be(bytes.subrange(base, base + 4)) as int,
            end: spec_u32_from_be(bytes.subrange(base + 4, base + 8)) as int,
            asn: spec_u32_from_be(bytes.subrange(base + 8, base + 12)),
        } == e);
        assert forall|i: int, j: int| 0 <= i < j < k - 1 implies (#[trigger] v.v4.take(k - 1)[i]).start
            < (#[trigger] v.v4.take(k - 1)[j]).start by {
            assert(v.v4[i].start < v.v4[j].start);
        }
        assert forall|j: int| 0 <= j < k - 1 implies (#[trigger] v.v4.take(k - 1)[j]).start < e.start by {
            assert(v.v4[j].start < v.v4[k - 1].start);
        }
        lemma_insert_range_append(v.v4.take(k - 1), e);
        assert(v.v4.take(k - 1).push(e) =~= v.v4.take(k));
    }
}

#[verifier::rlimit(100)]
proof fn lemma_load_v6_round(v: DbView, bytes: Seq<u8>, k: int)
    requires
        wf_view(v),
        spec_encodable(v),
        bytes == spec_save(v),
        0 <= k <= v.v6.len(),
    ensures
        spec_load_v6(
            bytes,
            1024 + 14 * v.asns.len() as int + 12 * v.v4.len() as int,
            k,
        ) == v.v6.take(k),
    decreases k,
{
    if k == 0 {
        assert(v.v6.take(0) =~= Seq::<SpecRange>::empty());
    } else {
        lemma_load_v6_round(v, bytes, k - 1);
        lemma_header_len(v);
        lemma_encode_asns_len(v.asns);
        lemma_v4_records_len(v.v4);
        lemma_v6_records_len(v.v6);
        let e = v.v6[k - 1];
        let base = 1024 + 14 * v.asns.len() as int + 12 * v.v4.len() as int + 36 * (k - 1);
        lemma_v6_records_slice(v.v6, k - 1);
        let r6 = spec_v6_records(v.v6);
        let rec = spec_u128_to_be(e.start as u128) + spec_u128_to_be(e.end as u128)
            + spec_u32_to_be(e.asn);
        assert(bytes.subrange(base, base + 36) =~= r6.subrange(36 * (k - 1), 36 * (k - 1) + 36));
        let brec = bytes.subrange(base, base + 36);
        assert(brec == rec);
        assert(rec.subrange(0, 16) =~= spec_u128_to_be(e.start as u128));
        assert(bytes.subrange(base, base + 16) =~= brec.subrange(0, 16));
        assert(rec.subrange(16, 32) =~= spec_u128_to_be(e.end as u128));
        assert(bytes.subrange(base + 16, base + 32) =~= brec.subrange(16, 32));
        assert(rec.subrange(32, 36) =~= spec_u32_to_be(e.asn));
        assert(bytes.subrange(base + 32, base + 36) =~= brec.subrange(32, 36));
        lemma_u128_be_round_trip(e.start as u128);
        lemma_u128_be_round_trip(e.end as u128);
        lemma_u32_be_round_trip(e.asn);
        assert((e.start as u128) as int == e.start);
        assert((e.end as u128) as int == e.end);
        assert(SpecRange {
            start: spec_u128_from_be(bytes.subrange(base, base + 16)) as int,
            end: spec_u128_from_be(bytes.subrange(base + 16, base + 32)) as int,
            asn: spec_u32_from_be(bytes.subrange(base + 32, base + 36)),
        } == e);
        assert forall|i: int, j: int| 0 <= i < j < k - 1 implies (#[trigger] v.v6.take(k - 1)[i]).start
            < (#[trigger] v.v6.take(k - 1)[j]).start by {
            assert(v.v6[i].start < v.v6[j].start);
        }
        assert forall|j: int| 0 <= j < k - 1 implies (#[trigger] v.v6.take(k - 1)[j]).start < e.start by {
            assert(v.v6[j].start < v.v6[k - 1].start);
        }
        lemma_insert_range_append(v.v6.take(k - 1), e);
        assert(v.v6.take(k - 1).push(e) =~= v.v6.take(k));
    }
}

/// Law (round trip): loading the bytes that `save` emits restores the
/// database image exactly — and with it every query answer, since queries
/// are a function of the image.
#[verifier::rlimit(100)]
pub proof fn lemma_save_load_round_trip(v: DbView)
    requires
        wf_view(v),
        spec_encodable(v),
    ensures
        spec_load(spec_save(v)) == Ok::<DbView, LoadError>(v),
{
    lemma_auto_spec_u32_to_from_le_bytes();
    let bytes = spec_save(v);
    let p = spec_pool_bytes(v);
    lemma_header_len(v);
    lemma_encode_asns_len(v.asns);
    lemma_v4_records_len(v.v4);
    lemma_v6_records_len(v.v6);
    let na = v.asns.len() as int;
    let n4 = v.v4.len() as int;
    let n6 = v.v6.len() as int;
    assert(bytes.len() == 1024 + 14 * na + 12 * n4 + 36 * n6 + p.len());
    assert(bytes.subrange(0, 16) =~= spec_signature());
    assert(bytes.subrange(16, 18) =~= spec_u16_to_be(spec_version()));
    lemma_u16_be_round_trip(spec_version());
    let off32 = spec_pool_off(v) as u32;
    let plen32 = p.len() as u32;
    assert(bytes.subrange(18, 22) =~= spec_u32_to_be(off32));
    assert(bytes.subrange(22, 26) =~= spec_u32_to_be(plen32));
    assert(bytes.subrange(30, 34) =~= spec_u32_to_be(na as u32));
    assert(bytes.subrange(34, 38) =~= spec_u32_to_be(n4 as u32));
    assert(bytes.subrange(38, 42) =~= spec_u32_to_be(n6 as u32));
    lemma_u32_be_round_trip(off32);
    lemma_u32_be_round_trip(plen32);
    lemma_u32_be_round_trip(na as u32);
    lemma_u32_be_round_trip(n4 as u32);
    lemma_u32_be_round_trip(n6 as u32);
    assert(off32 as int == spec_pool_off(v));
    assert(plen32 as int == p.len() as int);
    assert((na as u32) as int == na);
    assert((n4 as u32) as int == n4);
    assert((n6 as u32) as int == n6);
    assert(off32 as int + plen32 as int == bytes.len());
    assert(bytes.subrange(off32 as int, off32 as int + plen32 as int) =~= p);
    lemma_load_asns_round(v, bytes, na);
    lemma_load_v4_round(v, bytes, n4);
    lemma_load_v6_round(v, bytes, n6);
    assert(v.asns.take(na) =~= v.asns);
    assert(v.v4.take(n4) =~= v.v4);
    assert(v.v6.take(n6) =~= v.v6);
    assert(spec_load_asns(bytes, bytes.subrange(off32 as int, off32 as int + plen32 as int), na)
        == v.asns);
    let loaded = DbView {
        asns: spec_load_asns(
            bytes,
            bytes.subrange(off32 as int, off32 as int + plen32 as int),
            na,
        ),
        v4: spec_load_v4(bytes, 1024 + 14 * na, n4),
        v6: spec_load_v6(bytes, 1024 + 14 * na + 12 * n4, n6),
    };
    assert(loaded =~= v);
}


/// Law (dedup): the pool segments a snapshot interns are pairwise
/// distinct, and every record's description is among them — so a
/// description shared by any number of records is stored exactly once.
pub proof fn lemma_pool_dedup(asns: Seq<SpecAsn>)
    ensures
        forall|i: int, j: int|
            0 <= i < j < spec_encode_asns(asns).0.len() ==> spec_encode_asns(asns).0[i]
                != spec_encode_asns(asns).0[j],
        forall|k: int|
            0 <= k < asns.len() ==> spec_encode_asns(asns).0.contains(#[trigger] asns[k].desc),
    decreases asns.len(),
{
    if asns.len() > 0 {
        let dl = asns.drop_last();
        lemma_pool_dedup(dl);
        let prev = spec_encode_asns(dl).0;
        let fin = spec_encode_asns(asns).0;
        let d = asns.last().desc;
        if prev.contains(d) {
            assert(fin == prev);
        } else {
            assert(fin == prev.push(d));
            assert forall|i: int, j: int| 0 <= i < j < fin.len() implies fin[i] != fin[j] by {
                if j < prev.len() {
                    assert(prev[i] != prev[j]);
                } else {
                    assert(fin[j] == d);
                    if fin[i] == d {
                        assert(prev[i] == d);
                        assert(prev.contains(d));
                    }
                }
            }
        }
        assert forall|k: int| 0 <= k < asns.len() implies fin.contains(
            #[trigger] asns[k].desc,
        ) by {
            if k < asns.len() - 1 {
                assert(dl[k] == asns[k]);
                assert(prev.contains(asns[k].desc));
                let i = choose|i: int| 0 <= i < prev.len() && prev[i] == asns[k].desc;
                assert(fin[i] == asns[k].desc);
            } else {
                if prev.contains(d) {
                    let i = choose|i: int| 0 <= i < prev.len() && prev[i] == d;
                    assert(fin[i] == d);
                } else {
                    assert(fin[prev.len() as int] == d);
                }
            }
        }
    }
}

} // verus!
