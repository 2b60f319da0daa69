use dupfinder::hasher::{hash_bytes, ContentHasher, CHUNK_SIZE};
use dupfinder::text::{decimal_string, hex_string};
use sha2::{Digest, Sha256};

#[test]
fn digest_of_a_known_text() {
    assert_eq!(
        hash_bytes(b"hello world"),
        "b94d27b9934d3e08a52e52d7da7dabfac484efe37a5380ee9088f7ace2efcde9"
    );
}

#[test]
fn digest_of_no_bytes() {
    assert_eq!(
        hash_bytes(b""),
        "e3b0c44298fc1c149afbf4c8996fb92427ae41e4649b934ca495991b7852b855"
    );
    assert_eq!(
        ContentHasher::new().finish(),
        "e3b0c44298fc1c149afbf4c8996fb92427ae41e4649b934ca495991b7852b855"
    );
}

#[test]
fn digest_does_not_depend_on_the_chunks() {
    let mut hasher = ContentHasher::new();
    hasher.update(b"hello");
    hasher.update(b"");
    hasher.update(b" wor");
    hasher.update(b"ld");
    assert_eq!(hasher.finish(), hash_bytes(b"hello world"));
}

#[test]
fn digest_of_content_longer_than_a_chunk() {
    let mut data: Vec<u8> = Vec::new();
    for i in 0..(2 * CHUNK_SIZE + 1234) {
        data.push((i % 251) as u8);
    }
    let expected = Sha256::digest(&data);
    let expected: String = expected.iter().map(|b| format!("{:02x}", b)).collect();
    assert_eq!(hash_bytes(&data), expected);
    assert_eq!(hash_bytes(&data).len(), 64);
    assert_eq!(hash_bytes(&data[..CHUNK_SIZE]).len(), 64);
}

#[test]
fn identical_content_has_identical_digests() {
    assert_eq!(hash_bytes(b"Hello World identical"), hash_bytes(b"Hello World identical"));
    assert_ne!(hash_bytes(b"Size identical, but...A"), hash_bytes(b"Size identical, but...B"));
}

#[test]
fn hexadecimal_is_lowercase_and_two_characters_a_byte() {
    assert_eq!(hex_string(&[0x00, 0xff, 0x1a, 0xb2, 0x09]), "00ff1ab209");
    assert_eq!(hex_string(&[]), "");
    assert_eq!(hex_string(&[0x0f]), "0f");
}

#[test]
fn decimal_numerals() {
    assert_eq!(decimal_string(0), "0");
    assert_eq!(decimal_string(7), "7");
    assert_eq!(decimal_string(10), "10");
    assert_eq!(decimal_string(1234567890), "1234567890");
    assert_eq!(decimal_string(u64::MAX), "18446744073709551615");
}
