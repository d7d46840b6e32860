use aerate::checksum::digest::{digest, Hasher, MAX_INPUT};

#[test]
fn digest_of_known_texts() {
    assert_eq!(digest(b"").unwrap(), "da39a3ee5e6b4b0d3255bfef95601890afd80709");
    assert_eq!(digest(b"abc").unwrap(), "a9993e364706816aba3e25717850c26c9cd0d89d");
    assert_eq!(digest(b"hello world").unwrap(), "2aae6c35c94fcfb415dbe95f408b9ce91ee846ed");
    assert_eq!(
        digest(b"The quick brown fox jumps over the lazy dog").unwrap(),
        "2fd4e1c67a2d28fced849ee1bb76e7391b93eb12"
    );
}

#[test]
fn digest_is_forty_lower_case_hex_digits() {
    for content in [&b""[..], &b"a"[..], &[0u8; 1000][..], &[0xffu8; 64][..]] {
        let hex = digest(content).unwrap();
        assert_eq!(hex.len(), 40);
        assert!(hex.chars().all(|c| matches!(c, '0'..='9' | 'a'..='f')), "{}", hex);
    }
}

#[test]
fn hasher_takes_chunks_of_any_size() {
    let content: Vec<u8> = (0..1000u32).map(|i| (i % 251) as u8).collect();
    let whole = digest(&content).unwrap();
    for size in [1usize, 3, 63, 64, 65, 128, 999, 1000, 4096] {
        let mut hasher = Hasher::new();
        for chunk in content.chunks(size) {
            assert!(hasher.update(chunk));
        }
        assert_eq!(hasher.len(), 1000);
        assert_eq!(hasher.finish(), whole, "chunks of {}", size);
    }
}

#[test]
fn hasher_takes_empty_chunks() {
    let mut hasher = Hasher::new();
    assert!(hasher.update(b""));
    assert!(hasher.update(b"abc"));
    assert!(hasher.update(b""));
    assert_eq!(hasher.len(), 3);
    assert_eq!(hasher.finish(), "a9993e364706816aba3e25717850c26c9cd0d89d");
}

#[test]
fn hasher_is_reset_for_the_next_file() {
    let mut hasher = Hasher::new();
    assert!(hasher.update(b"first file"));
    let first = hasher.finish();
    assert_eq!(first, digest(b"first file").unwrap());
    hasher.reset();
    assert!(!hasher.is_finished());
    assert_eq!(hasher.len(), 0);
    assert!(hasher.update(b"abc"));
    assert_eq!(hasher.finish(), "a9993e364706816aba3e25717850c26c9cd0d89d");
}

#[test]
fn hasher_reset_forgets_what_was_taken() {
    let mut hasher = Hasher::new();
    assert!(hasher.update(b"to be forgotten"));
    hasher.reset();
    assert_eq!(hasher.finish(), "da39a3ee5e6b4b0d3255bfef95601890afd80709");
}

#[test]
fn hasher_takes_nothing_after_the_digest() {
    let mut hasher = Hasher::new();
    assert!(hasher.update(b"abc"));
    let hex = hasher.finish();
    assert!(hasher.is_finished());
    assert!(!hasher.update(b"more"));
    assert_eq!(hasher.len(), 3);
    assert_eq!(hasher.finish(), hex);
}

#[test]
fn max_input_is_what_a_count_of_bits_allows() {
    assert_eq!(MAX_INPUT, u64::MAX / 8);
    assert_eq!(MAX_INPUT, (1u64 << 61) - 1);
}
