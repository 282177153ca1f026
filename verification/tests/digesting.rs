use filematch::Digest;
use filematch::FileHasher;

fn hash_of(content: &[u8]) -> Digest {
    let mut h = FileHasher::new();
    h.update(content);
    h.finalize()
}

#[test]
fn equal_content_same_digest() {
    let a = hash_of(b"hello world");
    let b = hash_of(b"hello world");
    assert!(a.matches(&b));
}

#[test]
fn chunking_does_not_change_digest() {
    let mut h = FileHasher::new();
    h.update(b"he");
    h.update(b"llo");
    let chunked = h.finalize();
    let whole = hash_of(b"hello");
    assert!(chunked.matches(&whole));
}

#[test]
fn different_content_different_digest() {
    let a = hash_of(b"aaaa");
    let b = hash_of(b"aaab");
    assert!(!a.matches(&b));
}

#[test]
fn empty_content_digest() {
    let a = hash_of(b"");
    let b = hash_of(b"");
    assert!(a.matches(&b));
    let c = hash_of(b"x");
    assert!(!a.matches(&c));
}

#[test]
fn digest_is_blake3() {
    // The BLAKE3 digest of the empty input, from the reference test vectors.
    let expected: [u8; 32] = [
        0xaf, 0x13, 0x49, 0xb9, 0xf5, 0xf9, 0xa1, 0xa6, 0xa0, 0x40, 0x4d, 0xea, 0x36, 0xdc,
        0xc9, 0x49, 0x9b, 0xcb, 0x25, 0xc9, 0xad, 0xc1, 0x12, 0xb7, 0xcc, 0x9a, 0x93, 0xca,
        0xe4, 0x1f, 0x32, 0x62,
    ];
    let d = hash_of(b"");
    assert_eq!(d.as_bytes().as_slice(), &expected);
}

#[test]
fn digest_has_fixed_width() {
    assert_eq!(hash_of(b"").as_bytes().len(), 32);
    assert_eq!(hash_of(b"some longer content, well past one block").as_bytes().len(), 32);
}
