use bittorrent_starter_rust::utils::{bytes_to_string_lossy, hash_sha1};

#[test]
fn test_hash_sha1() {
    fn check(input: &[u8], expected: &str) {
        assert_eq!(hex::encode(hash_sha1(input)), expected);
    }

    check(&[], "da39a3ee5e6b4b0d3255bfef95601890afd80709");
    check(b"hello", "aaf4c61ddcc5e8a2dabede0f3b482cd9aea9434d");
}

#[test]
fn test_bytes_to_string_lossy() {
    assert_eq!(bytes_to_string_lossy(b"plain ascii"), "plain ascii");
    assert_eq!(bytes_to_string_lossy(&[0xFF, 0x61]), "\u{FFFD}a");
}
