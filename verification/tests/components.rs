//! Component-level behaviour: the key codec, the registry, the version
//! allocator, the byte ordering and a pre-seeded store.

use mvcc::{acquire_next_version, decode_key, Entry, Key, KVEngine, MvccError, Registry, MVCC};
use mvcc::bytes::{bytes_eq, bytes_lt};

#[test]
fn key_encoding_is_escaped_terminated_big_endian() {
    let k = Key { raw_key: b"ab".to_vec(), version: 258 };
    let mut expected: Vec<u8> = Vec::new();
    expected.extend_from_slice(b"ab");
    expected.extend_from_slice(&[0x00, 0x00]);
    expected.extend_from_slice(&[0, 0, 0, 0, 0, 0, 0x01, 0x02]);
    assert_eq!(k.encode(), expected);
    // a zero byte inside the raw key is escaped as 0x00 0xFF
    let z = Key { raw_key: vec![0x61, 0x00], version: 1 };
    assert_eq!(z.encode(), vec![0x61, 0x00, 0xff, 0x00, 0x00, 0, 0, 0, 0, 0, 0, 0, 0x01]);
}

#[test]
fn key_encoding_preserves_pair_order() {
    // the raw key decides first, whatever the key lengths
    let e_aa = Key { raw_key: b"aa".to_vec(), version: 7 }.encode();
    let e_b = Key { raw_key: b"b".to_vec(), version: 7 }.encode();
    assert!(e_aa < e_b);
    // a key sorts before its own extensions
    let e_a = Key { raw_key: b"a".to_vec(), version: 9 }.encode();
    let e_a0 = Key { raw_key: vec![0x61, 0x00], version: 9 }.encode();
    assert!(e_a < e_a0);
    // equal keys: numeric version order, across byte boundaries
    let e_v255 = Key { raw_key: b"k".to_vec(), version: 255 }.encode();
    let e_v256 = Key { raw_key: b"k".to_vec(), version: 256 }.encode();
    assert!(e_v255 < e_v256);
}

#[test]
fn key_codec_round_trips() {
    let k = Key { raw_key: b"some key".to_vec(), version: u64::MAX - 1 };
    let decoded = decode_key(&k.encode());
    assert_eq!(decoded.raw_key, k.raw_key);
    assert_eq!(decoded.version, k.version);
    let tricky = Key { raw_key: vec![0x00, 0xff, 0x00, 0x00, 0x61], version: 513 };
    let decoded = decode_key(&tricky.encode());
    assert_eq!(decoded.raw_key, tricky.raw_key);
    assert_eq!(decoded.version, tricky.version);
    let empty = Key { raw_key: Vec::new(), version: 0 };
    let decoded = decode_key(&empty.encode());
    assert!(decoded.raw_key.is_empty());
    assert_eq!(decoded.version, 0);
}

#[test]
fn registry_tracks_active_versions_and_write_sets() {
    let mut reg = Registry::new();
    assert!(!reg.is_registered(7));
    reg.register(7);
    assert!(reg.is_registered(7));
    reg.record_write(7, b"k1").unwrap();
    reg.record_write(7, b"k2").unwrap();
    // recording the same key twice keeps it once
    reg.record_write(7, b"k1").unwrap();
    let versions = reg.active_versions();
    assert_eq!(versions, vec![7]);
    let writes = reg.deregister(7).unwrap();
    assert_eq!(writes, vec![b"k1".to_vec(), b"k2".to_vec()]);
    assert!(!reg.is_registered(7));
    assert!(reg.deregister(7).is_none());
}

#[test]
fn record_write_for_unknown_version_is_an_invariant_violation() {
    let mut reg = Registry::new();
    assert_eq!(reg.record_write(3, b"k"), Err(MvccError::StoreInvariantViolation));
}

#[test]
fn version_allocation_is_strictly_increasing() {
    let mut counter: u64 = 1;
    let a = acquire_next_version(&mut counter);
    let b = acquire_next_version(&mut counter);
    let c = acquire_next_version(&mut counter);
    assert_eq!((a, b, c), (1, 2, 3));
    assert_eq!(counter, 4);
}

#[test]
fn byte_order_is_lexicographic() {
    assert!(bytes_lt(b"", b"a"));
    assert!(bytes_lt(b"a", b"aa"));
    assert!(bytes_lt(b"ab", b"b"));
    assert!(!bytes_lt(b"b", b"ab"));
    assert!(!bytes_lt(b"a", b"a"));
    assert!(bytes_eq(b"abc", b"abc"));
    assert!(!bytes_eq(b"abc", b"abd"));
    assert!(!bytes_eq(b"ab", b"abc"));
}

#[test]
fn coordinator_over_seeded_store_allocates_past_it() {
    let kv = KVEngine {
        entries: vec![
            Entry { key: b"a".to_vec(), version: 4, value: Some(b"v".to_vec()) },
            Entry { key: b"b".to_vec(), version: 9, value: None },
        ],
    };
    let mut m = MVCC::new(kv);
    let t = m.begin_transaction();
    assert_eq!(t.version, 10);
    // the seeded entries are visible: a live value and a tombstone
    assert_eq!(t.get(&m, b"a").unwrap(), Some(b"v".to_vec()));
    assert_eq!(t.get(&m, b"b").unwrap(), None);
    assert_eq!(t.scan_visible(&m).unwrap(), vec![(b"a".to_vec(), b"v".to_vec())]);
}
