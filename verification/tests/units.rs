//! Unit tests for the library's pieces: the IP literal parser, the decimal
//! field parser, the string pool, the range index, and the byte encoders.

use asndb::ipparse::{parse_ip, parse_ipv4, parse_ipv6, ParsedIp};
use asndb::ranges::IPRangeSet;
use asndb::stringpool::StringPool;
use asndb::tsv::parse_u32_bytes;
use asndb::wire::{push_u128_be, push_u32_be, read_u128_be, read_u32_be};

#[test]
fn parse_ipv4_accepts_plain_quads() {
    assert_eq!(parse_ipv4(b"1.2.3.4"), Some(0x01020304));
    assert_eq!(parse_ipv4(b"0.0.0.0"), Some(0));
    assert_eq!(parse_ipv4(b"255.255.255.255"), Some(0xffffffff));
}

#[test]
fn parse_ipv4_rejects_malformed_quads() {
    assert_eq!(parse_ipv4(b"256.1.1.1"), None);
    assert_eq!(parse_ipv4(b"01.2.3.4"), None);
    assert_eq!(parse_ipv4(b"1.2.3"), None);
    assert_eq!(parse_ipv4(b"1.2.3.4.5"), None);
    assert_eq!(parse_ipv4(b"1.2.3.4x"), None);
    assert_eq!(parse_ipv4(b"1..2.3"), None);
    assert_eq!(parse_ipv4(b""), None);
    assert_eq!(parse_ipv4(b"1234.1.1.1"), None);
}

#[test]
fn parse_ipv6_basic_forms() {
    assert_eq!(parse_ipv6(b"::"), Some(0));
    assert_eq!(parse_ipv6(b"::1"), Some(1));
    assert_eq!(parse_ipv6(b"1::"), Some(1u128 << 112));
    assert_eq!(
        parse_ipv6(b"1:2:3:4:5:6:7:8"),
        Some(
            (1u128 << 112) | (2u128 << 96) | (3u128 << 80) | (4u128 << 64) | (5u128 << 48)
                | (6u128 << 32) | (7u128 << 16) | 8,
        ),
    );
    assert_eq!(
        parse_ipv6(b"2001:db8::ffff"),
        Some((0x2001u128 << 112) | (0xdb8u128 << 96) | 0xffff),
    );
}

#[test]
fn parse_ipv6_embedded_v4_tail() {
    assert_eq!(parse_ipv6(b"::ffff:1.2.3.4"), Some((0xffffu128 << 32) | 0x01020304));
    assert_eq!(parse_ipv6(b"1:2:3:4:5:6:7.8.9.10"), parse_ipv6(b"1:2:3:4:5:6:708:90a"));
}

#[test]
fn parse_ipv6_rejects_malformed() {
    assert_eq!(parse_ipv6(b":::"), None);
    assert_eq!(parse_ipv6(b"1:2:3:4:5:6:7"), None);
    assert_eq!(parse_ipv6(b"1:2:3:4:5:6:7:8:9"), None);
    assert_eq!(parse_ipv6(b"1::2:3:4:5:6:7:8"), None);
    assert_eq!(parse_ipv6(b"12345::"), None);
    assert_eq!(parse_ipv6(b"1::2::3"), None);
    assert_eq!(parse_ipv6(b"g::"), None);
    assert_eq!(parse_ipv6(b"1.2.3.4::"), None);
}

#[test]
fn parse_ip_picks_the_family() {
    assert_eq!(parse_ip(b"1.2.3.4"), Some(ParsedIp::V4(0x01020304)));
    assert_eq!(parse_ip(b"::1"), Some(ParsedIp::V6(1)));
    assert_eq!(parse_ip(b"neither"), None);
}

#[test]
fn parse_u32_field() {
    assert_eq!(parse_u32_bytes(b"0"), Some(0));
    assert_eq!(parse_u32_bytes(b"13335"), Some(13335));
    assert_eq!(parse_u32_bytes(b"+13335"), Some(13335));
    assert_eq!(parse_u32_bytes(b"4294967295"), Some(u32::MAX));
    assert_eq!(parse_u32_bytes(b"4294967296"), None);
    assert_eq!(parse_u32_bytes(b"99999999999999999999"), None);
    assert_eq!(parse_u32_bytes(b""), None);
    assert_eq!(parse_u32_bytes(b"+"), None);
    assert_eq!(parse_u32_bytes(b"12a"), None);
    assert_eq!(parse_u32_bytes(b"-1"), None);
    assert_eq!(parse_u32_bytes(b"007"), Some(7));
}

#[test]
fn pool_pack_dedups() {
    let mut pool = StringPool::new();
    let t1 = pool.pack(b"CLOUDFLARENET");
    let t2 = pool.pack(b"GOOGLE");
    let t3 = pool.pack(b"CLOUDFLARENET");
    assert_eq!(t1, (0, 13));
    assert_eq!(t2, (13, 6));
    assert_eq!(t3, t1);
    assert_eq!(pool.save().as_slice(), b"CLOUDFLARENETGOOGLE");
}

#[test]
fn pool_unpack_reads_back() {
    let mut pool = StringPool::new();
    let (o1, l1) = pool.pack(b"alpha");
    let (o2, l2) = pool.pack(b"beta");
    assert_eq!(pool.unpack(o1, l1), b"alpha".to_vec());
    assert_eq!(pool.unpack(o2, l2), b"beta".to_vec());
}

#[test]
fn pool_unpack_out_of_bounds_degrades_to_empty() {
    let pool = StringPool::load(b"abc".to_vec());
    assert_eq!(pool.unpack(0, 3), b"abc".to_vec());
    assert_eq!(pool.unpack(1, 3), Vec::<u8>::new());
    assert_eq!(pool.unpack(u32::MAX, u32::MAX), Vec::<u8>::new());
}

#[test]
fn range_set_finds_by_predecessor() {
    let mut set: IPRangeSet<u32> = IPRangeSet::new();
    set.insert(100, 200, 1);
    set.insert(300, 400, 2);
    set.insert(10, 20, 3);
    assert!(set.find(9).is_none());
    assert_eq!(set.find(10).unwrap().asn, 3);
    assert_eq!(set.find(20).unwrap().asn, 3);
    assert!(set.find(21).is_none());
    assert_eq!(set.find(150).unwrap().asn, 1);
    assert!(set.find(250).is_none());
    assert_eq!(set.find(400).unwrap().asn, 2);
    assert!(set.find(401).is_none());
}

#[test]
fn range_set_v6_keys() {
    let mut set: IPRangeSet<u128> = IPRangeSet::new();
    set.insert(1u128 << 100, (1u128 << 100) + 5, 9);
    assert_eq!(set.find(1u128 << 100).unwrap().asn, 9);
    assert!(set.find((1u128 << 100) + 6).is_none());
}

#[test]
fn wire_round_trips() {
    let mut v: Vec<u8> = Vec::new();
    push_u32_be(&mut v, 0xdeadbeef);
    assert_eq!(v, vec![0xde, 0xad, 0xbe, 0xef]);
    assert_eq!(read_u32_be(&v, 0), 0xdeadbeef);
    let mut w: Vec<u8> = Vec::new();
    push_u128_be(&mut w, 0x0102030405060708090a0b0c0d0e0f10);
    assert_eq!(w.len(), 16);
    assert_eq!(read_u128_be(&w, 0), 0x0102030405060708090a0b0c0d0e0f10);
}

#[test]
fn parse_ipv6_trailing_compress_after_seven_groups() {
    assert_eq!(
        parse_ipv6(b"1:2:3:4:5:6:7::"),
        Some(
            (1u128 << 112) | (2u128 << 96) | (3u128 << 80) | (4u128 << 64) | (5u128 << 48)
                | (6u128 << 32) | (7u128 << 16),
        ),
    );
    assert_eq!(parse_ipv6(b"1:2:3:4:5:6:7:8::"), None);
}

#[test]
fn parse_ipv6_leading_zero_groups_allowed() {
    assert_eq!(parse_ipv6(b"0:0:0:0:0:0:0:1"), Some(1));
    assert_eq!(parse_ipv6(b"2001:0db8::0001"), parse_ipv6(b"2001:db8::1"));
}

#[test]
fn parse_ipv6_all_ones() {
    assert_eq!(parse_ipv6(b"ffff:ffff:ffff:ffff:ffff:ffff:ffff:ffff"), Some(u128::MAX));
    assert_eq!(parse_ipv6(b"::ffff:255.255.255.255"), Some((0xffffu128 << 32) | 0xffffffff));
}
