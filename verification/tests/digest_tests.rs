use dupfinder::digest::{content_digest, StreamHasher};
use sha2::Digest;

fn bytes_of(s: &str) -> Vec<u8> {
    s.as_bytes().to_vec()
}

#[test]
fn digest_is_32_bytes() {
    let d = content_digest(&bytes_of("hello world"));
    assert_eq!(d.len(), 32);
}

#[test]
fn digest_deterministic() {
    let data = bytes_of("same content, hashed twice");
    let first = content_digest(&data);
    let second = content_digest(&data);
    assert_eq!(first, second);
}

#[test]
fn equal_content_equal_digest() {
    let a = bytes_of("identical bytes");
    let b = bytes_of("identical bytes");
    assert_eq!(content_digest(&a), content_digest(&b));
}

#[test]
fn empty_files_share_a_digest() {
    let a: Vec<u8> = Vec::new();
    let b: Vec<u8> = Vec::new();
    assert_eq!(content_digest(&a), content_digest(&b));
}

#[test]
fn different_content_different_digest() {
    let a = bytes_of("content a");
    let b = bytes_of("content b");
    assert_ne!(content_digest(&a), content_digest(&b));
}

#[test]
fn digest_matches_sha256_of_empty_input() {
    // The SHA-256 of the empty byte string, as its specification fixes it.
    let expected = "e3b0c44298fc1c149afbf4c8996fb92427ae41e4649b934ca495991b7852b855";
    let d = content_digest(&Vec::new());
    let mut rendered = String::new();
    for b in &d {
        rendered.push_str(&format!("{:02x}", b));
    }
    assert_eq!(rendered, expected);
}

#[test]
fn digest_agrees_with_direct_sha256() {
    let data = bytes_of("cross-checked against the hash crate itself");
    let direct = sha2::Sha256::digest(data.as_slice());
    assert_eq!(content_digest(&data), direct.to_vec());
}

#[test]
fn streaming_chunks_match_whole_input() {
    let data = bytes_of("fed in three separate chunks");
    let mut hasher = StreamHasher::new();
    hasher.update(&data[..5]);
    hasher.update(&data[5..12]);
    hasher.update(&data[12..]);
    assert_eq!(hasher.finalize(), content_digest(&data));
}
