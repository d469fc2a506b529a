//! End-to-end scenarios: ingest from tab-separated text, query, save and
//! reload snapshots, and the documented failure modes.

use asndb::codec::LoadError;
use asndb::db::IPDatabase;

fn db_from(tsv: &[u8]) -> IPDatabase {
    let mut db = IPDatabase::new();
    db.load_from_tsv(tsv);
    db
}

#[test]
fn s1_single_v4_row() {
    let db = db_from(b"1.0.0.0\t1.0.0.255\t13335\tUS\tCLOUDFLARENET");
    let hit = db.query("1.0.0.128").expect("address inside the range");
    assert_eq!(hit.asn, 13335);
    assert_eq!(hit.country(), "US");
    assert_eq!(hit.description, b"CLOUDFLARENET".to_vec());
    assert!(db.query("1.0.1.0").is_none());
}

#[test]
fn s2_dedup_and_gap() {
    let db = db_from(b"2.0.0.0\t2.0.0.10\t100\tUS\tDESC\n2.0.0.20\t2.0.0.30\t200\tUS\tDESC");
    let bytes = db.save();
    // Pool offset and length from the header (big-endian).
    let off = u32::from_be_bytes([bytes[18], bytes[19], bytes[20], bytes[21]]) as usize;
    let len = u32::from_be_bytes([bytes[22], bytes[23], bytes[24], bytes[25]]) as usize;
    let pool = &bytes[off..off + len];
    // The shared description is in the pool exactly once.
    assert_eq!(pool, b"DESC");
    // The gap between the two ranges, and a point in the second.
    assert!(db.query("2.0.0.15").is_none());
    assert_eq!(db.query("2.0.0.25").unwrap().asn, 200);
}

#[test]
fn s3_v6_row_with_dash_country() {
    let db = db_from(b"2001:db8::\t2001:db8::ffff\t64500\t--\tEXAMPLE");
    let hit = db.query("2001:db8::1").expect("address inside the range");
    assert_eq!(hit.asn, 64500);
    assert_eq!(hit.country(), "--");
    assert_eq!(hit.description, b"EXAMPLE".to_vec());
}

#[test]
fn s4_wrong_signature() {
    let mut bytes = vec![0u8; 1024];
    bytes[..16].copy_from_slice(b"WRONGSIGNATURE__");
    match IPDatabase::load(&bytes) {
        Err(LoadError::InvalidSignature) => {},
        _ => panic!("a wrong signature must be rejected as invalid-signature"),
    }
}

#[test]
fn s4_wrong_version() {
    let mut bytes = vec![0u8; 1024];
    bytes[..16].copy_from_slice(b"_IPRANGECACHE_DB");
    bytes[16] = 0;
    bytes[17] = 3;
    match IPDatabase::load(&bytes) {
        Err(LoadError::InvalidVersion) => {},
        _ => panic!("an unknown version must be rejected as invalid-version"),
    }
}

#[test]
fn s5_one_byte_country() {
    let db = db_from(b"3.0.0.0\t3.0.0.5\t55\tU\tSOMEWHERE");
    let hit = db.query("3.0.0.1").expect("record still inserted");
    assert_eq!(hit.asn, 55);
    assert_eq!(hit.country(), "--");
}

#[test]
fn s6_garbage_line() {
    let db = db_from(b"garbage");
    let bytes = db.save();
    // All three counts in the header are zero.
    assert_eq!(&bytes[30..42], &[0u8; 12]);
    assert!(db.query("0.0.0.0").is_none());
}

#[test]
fn p4_parse_failure_is_not_an_error() {
    let db = db_from(b"1.0.0.0\t1.0.0.255\t13335\tUS\tCLOUDFLARENET");
    assert!(db.query("not-an-ip").is_none());
    assert!(db.query("").is_none());
    assert!(db.query(" 1.0.0.1").is_none());
    assert!(db.query("1.0.0.1/24").is_none());
}

#[test]
fn p1_round_trip_queries() {
    let db = db_from(
        b"1.0.0.0\t1.0.0.255\t13335\tUS\tCLOUDFLARENET\n\
          8.8.8.0\t8.8.8.255\t15169\tUS\tGOOGLE\n\
          2001:db8::\t2001:db8::ffff\t64500\tDE\tEXAMPLE\n\
          10.0.0.0\t10.0.0.7\t64512\t--\tPRIVATE\n",
    );
    let bytes = db.save();
    let db2 = IPDatabase::load(&bytes).expect("own snapshot loads");
    for ip in [
        "1.0.0.0",
        "1.0.0.255",
        "1.0.1.0",
        "8.8.8.8",
        "8.8.7.255",
        "2001:db8::1",
        "2001:db8::1:0",
        "10.0.0.3",
        "10.0.0.8",
        "255.255.255.255",
        "::",
        "nonsense",
    ] {
        let a = db.query(ip);
        let b = db2.query(ip);
        match (a, b) {
            (None, None) => {},
            (Some(x), Some(y)) => {
                assert_eq!(x.asn, y.asn);
                assert_eq!(x.country(), y.country());
                assert_eq!(x.description, y.description);
            },
            _ => panic!("round trip changed the answer for {ip}"),
        }
    }
    // The reloaded database saves to the identical bytes.
    let bytes2 = db2.save();
    assert_eq!(bytes, bytes2);
}

#[test]
fn p3_range_boundaries() {
    let db = db_from(b"10.0.0.10\t10.0.0.20\t7\tFR\tRENATER");
    assert!(db.query("10.0.0.9").is_none());
    assert_eq!(db.query("10.0.0.10").unwrap().asn, 7);
    assert_eq!(db.query("10.0.0.15").unwrap().asn, 7);
    assert_eq!(db.query("10.0.0.20").unwrap().asn, 7);
    assert!(db.query("10.0.0.21").is_none());
}

#[test]
fn p6_country_rendering() {
    // A two-byte ASCII tag renders as itself; zeroed bytes render as "--".
    let db = db_from(b"4.0.0.0\t4.0.0.1\t1\tUS\tA\n5.0.0.0\t5.0.0.1\t2\t\tB");
    assert_eq!(db.query("4.0.0.0").unwrap().country(), "US");
    assert_eq!(db.query("5.0.0.0").unwrap().country(), "--");
}

#[test]
fn mixed_family_row_is_skipped() {
    // Start is v4, end is v6: the whole row is skipped, nothing inserted.
    let db = db_from(b"6.0.0.0\t2001:db8::1\t77\tUS\tMIXED");
    assert!(db.query("6.0.0.0").is_none());
    let bytes = db.save();
    // All three counts in the header are zero: no record, no range.
    assert_eq!(&bytes[30..42], &[0u8; 12]);
}

#[test]
fn truncated_file_is_rejected() {
    match IPDatabase::load(&[0u8; 100]) {
        Err(LoadError::Truncated) => {},
        _ => panic!("a short file must be rejected as truncated"),
    }
}

#[test]
fn overrunning_counts_are_rejected() {
    let mut bytes = vec![0u8; 1024];
    bytes[..16].copy_from_slice(b"_IPRANGECACHE_DB");
    bytes[17] = 2;
    // Claim one v4 entry although the file ends at the header.
    bytes[34..38].copy_from_slice(&1u32.to_be_bytes());
    match IPDatabase::load(&bytes) {
        Err(LoadError::Truncated) => {},
        _ => panic!("counts past the end of the file must be rejected as truncated"),
    }
}

#[test]
fn empty_snapshot_round_trips() {
    let db = IPDatabase::new();
    let bytes = db.save();
    assert_eq!(bytes.len(), 1024);
    let db2 = IPDatabase::load(&bytes).expect("empty snapshot loads");
    assert!(db2.query("1.2.3.4").is_none());
}

#[test]
fn last_row_wins_for_repeated_asn() {
    let db = db_from(b"7.0.0.0\t7.0.0.9\t42\tUS\tFIRST\n7.0.1.0\t7.0.1.9\t42\tDE\tSECOND");
    let hit = db.query("7.0.0.5").unwrap();
    assert_eq!(hit.asn, 42);
    assert_eq!(hit.country(), "DE");
    assert_eq!(hit.description, b"SECOND".to_vec());
}

#[test]
fn trailing_newline_and_blank_lines_are_tolerated() {
    let db = db_from(b"\n1.0.0.0\t1.0.0.9\t9\tUS\tX\n\n");
    assert_eq!(db.query("1.0.0.5").unwrap().asn, 9);
}

#[test]
fn fields_past_the_fifth_are_ignored() {
    let db = db_from(b"9.0.0.0\t9.0.0.9\t19\tUS\tNAME\textra\tmore");
    let hit = db.query("9.0.0.1").unwrap();
    assert_eq!(hit.description, b"NAME".to_vec());
}

#[test]
fn header_layout_fields() {
    let db = db_from(b"1.0.0.0\t1.0.0.255\t13335\tUS\tCLOUDFLARENET");
    let bytes = db.save();
    assert_eq!(&bytes[..16], b"_IPRANGECACHE_DB");
    assert_eq!(u16::from_be_bytes([bytes[16], bytes[17]]), 2);
    // Reserved word stays zero in version-2 snapshots.
    assert_eq!(&bytes[26..30], &[0u8; 4]);
    let asn_count = u32::from_be_bytes([bytes[30], bytes[31], bytes[32], bytes[33]]);
    let v4_count = u32::from_be_bytes([bytes[34], bytes[35], bytes[36], bytes[37]]);
    let v6_count = u32::from_be_bytes([bytes[38], bytes[39], bytes[40], bytes[41]]);
    assert_eq!((asn_count, v4_count, v6_count), (1, 1, 0));
    // Padding to the fixed header size is zeroed.
    assert_eq!(&bytes[42..1024], &[0u8; 982][..]);
    // One 14-byte ASN record: AS number big-endian, then the country tag,
    // then the little-endian (offset, length) token of the description.
    assert_eq!(&bytes[1024..1028], &13335u32.to_be_bytes());
    assert_eq!(&bytes[1028..1030], b"US");
    assert_eq!(&bytes[1030..1034], &0u32.to_le_bytes());
    assert_eq!(&bytes[1034..1038], &13u32.to_le_bytes());
    // One 12-byte IPv4 entry, all big-endian.
    assert_eq!(&bytes[1038..1042], &0x01000000u32.to_be_bytes());
    assert_eq!(&bytes[1042..1046], &0x010000ffu32.to_be_bytes());
    assert_eq!(&bytes[1046..1050], &13335u32.to_be_bytes());
    // The pool holds exactly the one description.
    assert_eq!(&bytes[1050..], b"CLOUDFLARENET");
}

#[test]
fn v6_snapshot_round_trips() {
    let db = db_from(b"::1\t::ff\t65000\tJP\tLOCAL6");
    let bytes = db.save();
    let db2 = IPDatabase::load(&bytes).expect("snapshot loads");
    assert_eq!(db2.query("::2").unwrap().asn, 65000);
    assert!(db2.query("::100").is_none());
}
