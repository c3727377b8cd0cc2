use dupefiles::digest::IncrementalDigest;

// SHA-1 of the three bytes "abc".
const SHA1_ABC: [u8; 20] = [
    0xa9, 0x99, 0x3e, 0x36, 0x47, 0x06, 0x81, 0x6a, 0xba, 0x3e, 0x25, 0x71, 0x78, 0x50, 0xc2,
    0x6c, 0x9c, 0xd0, 0xd8, 0x9d,
];

#[test]
fn snapshot_exposes_real_digest() {
    let mut d = IncrementalDigest::new(b"abc".to_vec());
    let (covered0, hash0) = d.snapshot();
    assert_eq!(covered0, 0);
    assert!(hash0.is_empty(), "nothing covered yet");
    d.extend(3);
    let (covered, hash) = d.snapshot();
    assert_eq!(covered, 3);
    assert_eq!(hash.as_slice(), SHA1_ABC.as_slice());
}

#[test]
fn extend_is_monotone_and_idempotent() {
    let mut d = IncrementalDigest::new(vec![0u8; 5]);
    d.extend(10);
    assert_eq!(d.bytes_read(), 5, "extension stops at end of file");
    d.extend(3);
    assert_eq!(d.bytes_read(), 5, "re-extending to a smaller target is a no-op");
    d.extend(5);
    assert_eq!(d.bytes_read(), 5);
}

#[test]
fn extend_covers_whole_chunks() {
    let mut d = IncrementalDigest::new(vec![0u8; 3 * 4096]);
    d.extend(1);
    assert_eq!(d.bytes_read(), 4096, "coverage grows a chunk at a time");
    d.extend(4097);
    assert_eq!(d.bytes_read(), 2 * 4096);
    d.extend(u64::MAX);
    assert_eq!(d.bytes_read(), 3 * 4096);
}
