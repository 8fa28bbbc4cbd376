use fastzip::hash::{file_checksum, file_checksums, parse_hash_algorithm, HashAlgorithm};

#[test]
fn crc32_digest_is_eight_lower_hex_digits() {
    let r = file_checksum(b"hello world", HashAlgorithm::Crc32);
    assert_eq!(r.algorithm, HashAlgorithm::Crc32);
    assert_eq!(r.hex_digest, "0d4a1185");
    assert_eq!(r.file_size, 11);
    assert_eq!(file_checksum(b"", HashAlgorithm::Crc32).hex_digest, "00000000");
    assert_eq!(file_checksum(b"123456789", HashAlgorithm::Crc32).hex_digest, "cbf43926");
}

#[test]
fn sha256_digest_matches_known_value() {
    let r = file_checksum(b"hello world", HashAlgorithm::Sha256);
    assert_eq!(
        r.hex_digest,
        "b94d27b9934d3e08a52e52d7da7dabfac484efe37a5380ee9088f7ace2efcde9"
    );
    assert_eq!(
        file_checksum(b"", HashAlgorithm::Sha256).hex_digest,
        "e3b0c44298fc1c149afbf4c8996fb92427ae41e4649b934ca495991b7852b855"
    );
}

#[test]
fn blake3_digest_matches_the_crate_rendering() {
    let r = file_checksum(b"hello world", HashAlgorithm::Blake3);
    assert_eq!(r.hex_digest, blake3::hash(b"hello world").to_hex().to_string());
    assert_eq!(r.hex_digest.len(), 64);
    assert_ne!(r.hex_digest, "hello world");
}

#[test]
fn all_checksums_in_listed_order() {
    let results = file_checksums(b"abc");
    let order: Vec<HashAlgorithm> = results.iter().map(|r| r.algorithm).collect();
    assert_eq!(order, vec![HashAlgorithm::Sha256, HashAlgorithm::Blake3, HashAlgorithm::Crc32]);
    assert_eq!(HashAlgorithm::all(), order);
    assert_eq!(results[2].hex_digest, "352441c2");
    assert!(results.iter().all(|r| r.file_size == 3));
}

#[test]
fn algorithm_labels() {
    assert_eq!(HashAlgorithm::Crc32.label(), "CRC-32");
    assert_eq!(HashAlgorithm::Sha256.label(), "SHA-256");
    assert_eq!(HashAlgorithm::Blake3.label(), "BLAKE3");
}

#[test]
fn algorithm_names_parse_in_any_case() {
    assert_eq!(parse_hash_algorithm("SHA256"), Ok(HashAlgorithm::Sha256));
    assert_eq!(parse_hash_algorithm("Blake3"), Ok(HashAlgorithm::Blake3));
    assert_eq!(parse_hash_algorithm("crc32"), Ok(HashAlgorithm::Crc32));
    assert_eq!(
        parse_hash_algorithm("MD5"),
        Err("Unknown hash algorithm: md5".to_string())
    );
}
