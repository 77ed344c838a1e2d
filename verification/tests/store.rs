use streamtune::store::{bytes_equal, is_valid_key, starts_with, StreamDB, StreamDBError};

#[test]
fn read_after_write() {
    let mut db = StreamDB::new();
    assert!(db.insert(b"a", b"1").is_ok());
    assert!(db.insert(b"b", b"2").is_ok());
    assert_eq!(db.get(b"a"), Some(b"1".to_vec()));
    assert!(db.insert(b"a", b"3").is_ok());
    assert_eq!(db.get(b"a"), Some(b"3".to_vec()));
    assert_eq!(db.get(b"b"), Some(b"2".to_vec()));
    assert_eq!(db.get(b"c"), None);
}

#[test]
fn delete_entries() {
    let mut db = StreamDB::new();
    db.insert(b"a", b"1").ok().unwrap();
    assert!(db.delete(b"a").is_ok());
    assert_eq!(db.get(b"a"), None);
    match db.delete(b"a") {
        Err(StreamDBError::InvalidKey(msg)) => assert_eq!(msg, "Path not found"),
        Ok(()) => panic!("deleted twice"),
    }
}

#[test]
fn invalid_keys_refused() {
    let mut db = StreamDB::new();
    for k in [&b""[..], b"a//b", b"a\0b", &[b'x'; 1025][..]] {
        assert!(!is_valid_key(k));
        assert!(db.insert(k, b"v").is_err());
    }
    assert!(is_valid_key(&[b'x'; 1024]));
    assert!(is_valid_key(b"a/b/"));
    assert!(db.prefix_search(b"").is_empty());
}

#[test]
fn prefix_search_in_store_order() {
    let mut db = StreamDB::new();
    db.insert(b"audio:b", b"1").ok().unwrap();
    db.insert(b"playlist:x", b"2").ok().unwrap();
    db.insert(b"audio:a", b"3").ok().unwrap();
    db.insert(b"audio:b", b"4").ok().unwrap();
    assert_eq!(db.prefix_search(b"audio:"), vec![b"audio:b".to_vec(), b"audio:a".to_vec()]);
    assert_eq!(db.prefix_search(b"").len(), 3);
    assert!(db.prefix_search(b"zz").is_empty());
}

#[test]
fn snapshot_roundtrip() {
    let mut db = StreamDB::new();
    db.insert(b"k1", b"").ok().unwrap();
    db.insert(b"k2", &[7u8; 300]).ok().unwrap();
    let bytes = db.to_bytes();
    assert_eq!(&bytes[..4], &[2, b'k', b'1', 0]);
    let back = StreamDB::from_bytes(&bytes).unwrap();
    assert_eq!(back.get(b"k2"), Some(vec![7u8; 300]));
    assert_eq!(back.prefix_search(b"k"), vec![b"k1".to_vec(), b"k2".to_vec()]);
    assert_eq!(back.to_bytes(), bytes);
    assert!(StreamDB::from_bytes(&bytes[..bytes.len() - 1]).is_none());
    // an invalid key in a snapshot
    assert!(StreamDB::from_bytes(&[0, 0]).is_none());
    assert!(StreamDB::from_bytes(&[]).unwrap().prefix_search(b"").is_empty());
}

#[test]
fn byte_helpers() {
    assert!(bytes_equal(b"abc", b"abc"));
    assert!(!bytes_equal(b"abc", b"abd"));
    assert!(!bytes_equal(b"ab", b"abc"));
    assert!(starts_with(b"audio:x", b"audio:"));
    assert!(!starts_with(b"audi", b"audio:"));
    assert!(starts_with(b"x", b""));
}
