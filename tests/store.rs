use lilredis::{decode, encode, Corruption, Database, Decoded, LilRedis, HEADER_LEN};

fn record(log: &[u8], pos: usize) -> (Vec<u8>, Vec<u8>, usize) {
    match decode(log, pos) {
        Decoded::Record { record, next } => (record.key, record.value, next),
        Decoded::EndOfLog => panic!("end of log at {}", pos),
        Decoded::Corrupt { stored, computed } => {
            panic!("corrupt record at {}: {:08x} != {:08x}", pos, stored, computed)
        }
    }
}

#[test]
fn encode_layout_is_little_endian_with_crc32() {
    let bytes = encode(b"1234", b"56789");
    assert_eq!(bytes.len(), HEADER_LEN + 9);
    // CRC-32 (IEEE) of "123456789" is 0xCBF43926.
    assert_eq!(&bytes[0..4], &[0x26, 0x39, 0xF4, 0xCB]);
    assert_eq!(&bytes[4..8], &[4, 0, 0, 0]);
    assert_eq!(&bytes[8..12], &[5, 0, 0, 0]);
    assert_eq!(&bytes[12..], b"123456789");
}

#[test]
fn round_trip_decodes_key_and_value() {
    let bytes = encode(b"key", b"value");
    let (k, v, next) = record(&bytes, 0);
    assert_eq!(k, b"key".to_vec());
    assert_eq!(v, b"value".to_vec());
    assert_eq!(next, bytes.len());
}

#[test]
fn round_trip_with_empty_value() {
    let bytes = encode(b"k", b"");
    assert_eq!(bytes.len(), HEADER_LEN + 1);
    let (k, v, next) = record(&bytes, 0);
    assert_eq!(k, b"k".to_vec());
    assert!(v.is_empty());
    assert_eq!(next, bytes.len());
}

#[test]
fn flipped_payload_byte_is_detected() {
    let mut bytes = encode(b"hello", b"world");
    let stored = u32::from_le_bytes([bytes[0], bytes[1], bytes[2], bytes[3]]);
    bytes[HEADER_LEN + 6] ^= 0x01;
    match decode(&bytes, 0) {
        Decoded::Corrupt { stored: s, computed } => {
            assert_eq!(s, stored);
            assert_ne!(computed, stored);
        }
        _ => panic!("corruption not detected"),
    }
}

#[test]
fn short_header_and_short_payload_are_end_of_log() {
    let bytes = encode(b"abc", b"def");
    assert!(matches!(decode(&bytes, bytes.len()), Decoded::EndOfLog));
    assert!(matches!(decode(&bytes[..HEADER_LEN - 1], 0), Decoded::EndOfLog));
    assert!(matches!(decode(&bytes[..bytes.len() - 1], 0), Decoded::EndOfLog));
}

#[test]
fn example_three_inserts() {
    let mut store = LilRedis::new();
    store.insert(b"a", b"1").unwrap();
    store.insert(b"b", b"2").unwrap();
    store.insert(b"a", b"3").unwrap();
    assert_eq!(store.get(b"a"), Some(b"3".to_vec()));
    assert_eq!(store.get(b"b"), Some(b"2".to_vec()));
    assert_eq!(store.get(b"c"), None);
}

#[test]
fn last_write_wins_and_both_records_stay() {
    let mut store = LilRedis::new();
    let first = store.insert(b"k", b"v1").unwrap();
    let second = store.update(b"k", b"v2").unwrap();
    assert_eq!(store.get(b"k"), Some(b"v2".to_vec()));
    assert_eq!(store.log().len(), first.len() + second.len());
    let (k1, v1, next) = record(store.log(), 0);
    assert_eq!((k1, v1), (b"k".to_vec(), b"v1".to_vec()));
    let (k2, v2, end) = record(store.log(), next);
    assert_eq!((k2, v2), (b"k".to_vec(), b"v2".to_vec()));
    assert_eq!(end, store.log().len());
}

#[test]
fn delete_leaves_empty_value() {
    let mut store = LilRedis::new();
    store.insert(b"k", b"v").unwrap();
    let tombstone = store.delete(b"k").unwrap();
    assert_eq!(tombstone, encode(b"k", b""));
    assert_eq!(store.get(b"k"), Some(Vec::new()));
    store.insert(b"k", b"again").unwrap();
    assert_eq!(store.get(b"k"), Some(b"again".to_vec()));
}

#[test]
fn missing_key_is_absent() {
    let mut store = LilRedis::new();
    assert_eq!(store.get(b"x"), None);
    store.insert(b"y", b"1").unwrap();
    assert_eq!(store.get(b"x"), None);
}

#[test]
fn insert_returns_the_appended_record() {
    let mut store = LilRedis::new();
    store.insert(b"first", b"one").unwrap();
    let before = store.log().to_vec();
    let appended = store.insert(b"second", b"two").unwrap();
    assert_eq!(appended, encode(b"second", b"two"));
    let mut expected = before;
    expected.extend_from_slice(&appended);
    assert_eq!(store.log(), &expected[..]);
}

#[test]
fn offset_points_at_the_new_record() {
    let mut store = LilRedis::new();
    store.insert(b"a", b"xyz").unwrap();
    let end = store.seek_to_end() as usize;
    store.insert(b"b", b"pq").unwrap();
    let (k, v, next) = record(store.log(), end);
    assert_eq!((k, v), (b"b".to_vec(), b"pq".to_vec()));
    assert_eq!(next, store.log().len());
    assert_eq!(store.seek_to_end() as usize, store.log().len());
}

#[test]
fn reload_reproduces_every_key() {
    let mut store = LilRedis::new();
    let writes: [(&[u8], &[u8]); 7] = [
        (b"a", b"1"),
        (b"b", b"2"),
        (b"a", b"3"),
        (b"c", b""),
        (b"b", b"4"),
        (b"d", b"5"),
        (b"a", b"6"),
    ];
    let mut file: Vec<u8> = Vec::new();
    for (k, v) in writes.iter() {
        file.extend_from_slice(&store.insert(k, v).unwrap());
    }
    let mut reopened = LilRedis::new();
    reopened.load(file).unwrap();
    for key in [b"a", b"b", b"c", b"d", b"e"] {
        assert_eq!(reopened.get(key), store.get(key));
    }
    assert_eq!(reopened.get(b"a"), Some(b"6".to_vec()));
    assert_eq!(reopened.get(b"c"), Some(Vec::new()));
    assert_eq!(reopened.get(b"e"), None);
}

#[test]
fn load_stops_at_truncated_tail() {
    let mut log = encode(b"a", b"1");
    let tail = encode(b"b", b"2");
    log.extend_from_slice(&tail[..tail.len() - 1]);
    let mut store = LilRedis::new();
    store.load(log).unwrap();
    assert_eq!(store.get(b"a"), Some(b"1".to_vec()));
    assert_eq!(store.get(b"b"), None);
}

#[test]
fn load_reports_corruption() {
    let mut log = encode(b"a", b"1");
    let second_at = log.len();
    let mut bad = encode(b"b", b"2");
    let stored = u32::from_le_bytes([bad[0], bad[1], bad[2], bad[3]]);
    bad[HEADER_LEN + 1] = b'9';
    let computed = u32::from_le_bytes([encode(b"b", b"9")[0], encode(b"b", b"9")[1], encode(b"b", b"9")[2], encode(b"b", b"9")[3]]);
    log.extend_from_slice(&bad);
    let mut store = LilRedis::new();
    store.insert(b"kept", b"yes").unwrap();
    let err = store.load(log).unwrap_err();
    assert!(err == Corruption { offset: second_at as u64, stored, computed });
    assert_eq!(store.get(b"kept"), Some(b"yes".to_vec()));
    assert_eq!(store.get(b"a"), None);
}

#[test]
fn load_of_empty_log_is_empty() {
    let mut store = LilRedis::new();
    store.insert(b"x", b"1").unwrap();
    store.load(Vec::new()).unwrap();
    assert_eq!(store.get(b"x"), None);
    assert_eq!(store.seek_to_end(), 0);
}

#[test]
fn database_insert_replaces_value() {
    let mut db = Database::new();
    db.insert("k".to_string(), "v1".to_string());
    db.insert("other".to_string(), "x".to_string());
    db.insert("k".to_string(), "v2".to_string());
    assert_eq!(db.get(&"k".to_string()), Some("v2".to_string()));
    assert_eq!(db.get(&"other".to_string()), Some("x".to_string()));
    assert_eq!(db.get(&"missing".to_string()), None);
}
