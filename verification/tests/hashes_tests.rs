use gcstool::hashes::{estimate_lines, parse_hash_type, u64_from_hex, HashType};

#[test]
fn hash_names_parse_case_insensitively() {
    assert_eq!(parse_hash_type("hex"), Ok(HashType::Hex));
    assert_eq!(parse_hash_type("md5"), Ok(HashType::Md5));
    assert_eq!(parse_hash_type("MD5"), Ok(HashType::Md5));
    assert_eq!(parse_hash_type("sha1"), Ok(HashType::Sha1));
    assert_eq!(parse_hash_type("Sha256"), Ok(HashType::Sha2_256));
    assert_eq!(parse_hash_type("SHA512"), Ok(HashType::Sha2_512));
    assert_eq!(parse_hash_type("Blake2b"), Ok(HashType::Blake2b));
    assert!(parse_hash_type("sha384").is_err());
    assert!(parse_hash_type("").is_err());
    assert!(parse_hash_type("hexx").is_err());
}

#[test]
fn digests_hash_known_inputs() {
    // First eight digest bytes, big-endian, of the empty input.
    assert_eq!(HashType::Md5.digest(b""), Some(0xd41d8cd98f00b204));
    assert_eq!(HashType::Sha1.digest(b""), Some(0xda39a3ee5e6b4b0d));
    assert_eq!(HashType::Sha2_256.digest(b""), Some(0xe3b0c44298fc1c14));
    assert_eq!(HashType::Sha2_512.digest(b""), Some(0xcf83e1357eefb8bd));
    assert_eq!(HashType::Blake2b.digest(b""), Some(0x786a02f742015903));
    // And of a well-known password.
    assert_eq!(HashType::Md5.digest(b"password"), Some(0x5f4dcc3b5aa765d6));
    assert_eq!(HashType::Sha1.digest(b"password"), Some(0x5baa61e4c9b93f3f));
}

#[test]
fn hex_hashing_reads_sixteen_digits() {
    assert_eq!(HashType::Hex.digest(b"00000000000000ff trailing junk"), Some(0xff));
    assert_eq!(HashType::Hex.digest(b"0123456789abcdef"), Some(0x0123456789abcdef));
    assert_eq!(HashType::Hex.digest(b"0123456789abcde"), None);
    assert_eq!(HashType::Hex.digest(b"0123456789abcdxx"), None);
}

#[test]
fn hex_parsing() {
    assert_eq!(u64_from_hex(b""), Some(0));
    assert_eq!(u64_from_hex(b"0"), Some(0));
    assert_eq!(u64_from_hex(b"Ff"), Some(255));
    assert_eq!(u64_from_hex(b"ffffffffffffffff"), Some(u64::MAX));
    assert_eq!(u64_from_hex(b"10000000000000000"), None);
    assert_eq!(u64_from_hex(b"12g4"), None);
}

#[test]
fn line_estimates_scale_the_sample() {
    assert_eq!(estimate_lines(b"", 1000), 0);
    assert_eq!(estimate_lines(b"a\nb\nc\n", 6), 3);
    // A 6-byte sample with 3 newlines, scaled to a 60-byte file.
    assert_eq!(estimate_lines(b"a\nb\nc\n", 60), 30);
}
