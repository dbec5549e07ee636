//! Round trips and ordering of the key encoding.

use mvcc::{Error, Key};

#[test]
fn test_key_encode_layout() {
    assert_eq!(vec![0x01], Key::TxnNext.encode());
    assert_eq!(
        vec![0x02, 0, 0, 0, 0, 0, 0, 0, 7],
        Key::TxnActive(7).encode()
    );
    assert_eq!(
        vec![0x03, 0, 0, 0, 0, 0, 0, 1, 0],
        Key::TxnSnapshot(256).encode()
    );
    assert_eq!(
        vec![0x04, 0, 0, 0, 0, 0, 0, 0, 1, 0xab, 0xcd],
        Key::TxnUpdate(1, vec![0xab, 0xcd]).encode()
    );
    assert_eq!(
        vec![0x05, 0xab, 0x00, 0x00],
        Key::Metadata(vec![0xab]).encode()
    );
    // 0x00 in an embedded key is escaped as 0x00 0xff, then terminated
    assert_eq!(
        vec![0xff, 0x00, 0xff, 0xab, 0x00, 0x00, 0, 0, 0, 0, 0, 0, 0, 3],
        Key::Record(vec![0x00, 0xab], 3).encode()
    );
}

#[test]
fn test_key_roundtrip() {
    let keys = vec![
        Key::TxnNext,
        Key::TxnActive(0),
        Key::TxnActive(u64::MAX),
        Key::TxnSnapshot(42),
        Key::TxnUpdate(3, vec![]),
        Key::TxnUpdate(3, vec![0x00, 0xff, 0x01]),
        Key::Metadata(vec![]),
        Key::Metadata(b"meta".to_vec()),
        Key::Record(vec![], 0),
        Key::Record(vec![0x00], 1),
        Key::Record(b"key".to_vec(), u64::MAX),
    ];
    for key in keys {
        let encoded = key.encode();
        assert_eq!(Ok(key), Key::decode(&encoded));
    }
}

#[test]
fn test_key_decode_rejects_malformed() {
    // empty input
    assert_eq!(
        Err(Error::Value("Unable to parse MVCC key".into())),
        Key::decode(&[])
    );
    // unknown tag
    assert_eq!(
        Err(Error::Value("Unable to parse MVCC key".into())),
        Key::decode(&[0x42])
    );
    // truncated u64, with the number of bytes that remained
    assert_eq!(
        Err(Error::Value("Unable to decode u64, got 2 bytes".into())),
        Key::decode(&[0x02, 0, 0])
    );
    // unterminated byte string
    assert_eq!(
        Err(Error::Value("Unexpected end of input".into())),
        Key::decode(&[0x05, 0xab])
    );
    // bad escape after 0x00
    assert_eq!(
        Err(Error::Value("Unexpected 0x00 encoding".into())),
        Key::decode(&[0x05, 0x00, 0x01])
    );
    // record missing its version
    assert_eq!(
        Err(Error::Value("Unable to decode u64, got 2 bytes".into())),
        Key::decode(&[0xff, 0xab, 0x00, 0x00, 0, 0])
    );
}

#[test]
fn test_key_order_is_preserved() {
    // tags order the variants: counter, active, snapshot, update, metadata,
    // record
    let ordered = vec![
        Key::TxnNext.encode(),
        Key::TxnActive(1).encode(),
        Key::TxnActive(2).encode(),
        Key::TxnSnapshot(1).encode(),
        Key::TxnUpdate(1, vec![]).encode(),
        Key::TxnUpdate(1, vec![0x01]).encode(),
        Key::TxnUpdate(2, vec![]).encode(),
        Key::Metadata(vec![0x01]).encode(),
        Key::Metadata(vec![0x02]).encode(),
        Key::Record(vec![], 0).encode(),
        Key::Record(vec![], 1).encode(),
        Key::Record(vec![0x00], 0).encode(),
        Key::Record(vec![0x00, 0x00], 0).encode(),
        Key::Record(vec![0x00, 0x01], u64::MAX).encode(),
        Key::Record(vec![0x01], 0).encode(),
    ];
    for pair in ordered.windows(2) {
        assert!(pair[0] < pair[1], "{:?} should sort before {:?}", pair[0], pair[1]);
    }
}

#[test]
fn test_record_order_matches_key_version_order() {
    // encoded records compare exactly as their (user key, version) pairs
    let a1 = Key::Record(b"a".to_vec(), 1).encode();
    let a2 = Key::Record(b"a".to_vec(), 2).encode();
    let b0 = Key::Record(b"b".to_vec(), 0).encode();
    let a_long = Key::Record(b"ab".to_vec(), 0).encode();
    assert!(a1 < a2);
    assert!(a2 < a_long);
    assert!(a_long < b0);
}
