use lilredis::index::{bytes_equal, KeyIndex};
use lilredis::{decode, encode, Decoded, LilRedis, HEADER_LEN};

#[test]
fn index_put_replaces_offset() {
    let mut index = KeyIndex::new();
    assert_eq!(index.get(b"k"), None);
    index.put(b"k", 0);
    index.put(b"j", 17);
    index.put(b"k", 42);
    assert_eq!(index.get(b"k"), Some(42));
    assert_eq!(index.get(b"j"), Some(17));
    assert_eq!(index.get(b"kk"), None);
}

#[test]
fn bytes_equal_compares_contents() {
    assert!(bytes_equal(b"abc", b"abc"));
    assert!(bytes_equal(b"", b""));
    assert!(!bytes_equal(b"abc", b"abd"));
    assert!(!bytes_equal(b"ab", b"abc"));
}

#[test]
fn every_single_byte_change_is_detected() {
    let original = encode(b"some key", b"some value");
    for i in HEADER_LEN..original.len() {
        for delta in [0x01u8, 0x80, 0xff] {
            let mut bytes = original.clone();
            bytes[i] ^= delta;
            assert!(
                matches!(decode(&bytes, 0), Decoded::Corrupt { .. }),
                "change at {} not detected",
                i
            );
        }
    }
}

#[test]
fn empty_key_and_value_round_trip() {
    let mut store = LilRedis::new();
    store.insert(b"", b"").unwrap();
    assert_eq!(store.get(b""), Some(Vec::new()));
    assert_eq!(store.log().len(), HEADER_LEN);
    let mut reopened = LilRedis::new();
    reopened.load(store.log().to_vec()).unwrap();
    assert_eq!(reopened.get(b""), Some(Vec::new()));
}

#[test]
fn decode_in_the_middle_of_a_log() {
    let mut log = encode(b"one", b"1");
    let at = log.len();
    log.extend_from_slice(&encode(b"two", b"22"));
    match decode(&log, at) {
        Decoded::Record { record, next } => {
            assert_eq!(record.key, b"two".to_vec());
            assert_eq!(record.value, b"22".to_vec());
            assert_eq!(next, log.len());
        }
        _ => panic!("record not found"),
    }
}
