use gcstool::bitio::BitReader;
use gcstool::gcs::{golomb_decode, GCSBuilder, GCSReader, GcsError, GolombEncoder};

fn build(values: &[u64], n: u64, p: u64, g: u64) -> Vec<u8> {
    let mut b = GCSBuilder::new(n, p, g).unwrap();
    for &v in values {
        b.add(v);
    }
    b.finish().unwrap()
}

fn be(v: u64) -> [u8; 8] {
    v.to_be_bytes()
}

#[test]
fn tiny_build_has_exact_bytes() {
    // n = 4, p = 16, g = 2; reduced values [5, 12, 5, 27] mod 64; after
    // sort and dedup [5, 12, 27]; deltas [5, 7, 15]; codewords 00101 00111
    // 01111, padded to two bytes.
    let data = build(&[5, 12, 5, 27], 4, 16, 2);
    let mut expected: Vec<u8> = vec![0x29, 0xde];
    expected.extend_from_slice(&be(27));
    expected.extend_from_slice(&be(15));
    expected.extend_from_slice(&be(4));
    expected.extend_from_slice(&be(16));
    expected.extend_from_slice(&be(2));
    expected.extend_from_slice(&be(1));
    expected.extend_from_slice(b"[GCS:v0]");
    assert_eq!(data, expected);
}

#[test]
fn tiny_build_queries() {
    let data = build(&[5, 12, 5, 27], 4, 16, 2);
    let mut reader = GCSReader::new(data);
    reader.initialize().unwrap();
    assert_eq!(reader.n, 4);
    assert_eq!(reader.p, 16);
    assert!(reader.lookup(5).unwrap());
    assert!(reader.lookup(12).unwrap());
    assert!(reader.lookup(27).unwrap());
    assert!(!reader.lookup(13).unwrap());
    // Hashes reduce modulo n * p = 64.
    assert!(reader.lookup(64 + 12).unwrap());
    assert!(!reader.lookup(64 + 13).unwrap());
}

#[test]
fn truncated_file_fails_magic_check() {
    let mut data = build(&[5, 12, 5, 27], 4, 16, 2);
    data.pop();
    let mut reader = GCSReader::new(data);
    assert_eq!(reader.initialize(), Err(GcsError::BadMagic));
}

#[test]
fn short_file_is_rejected() {
    let mut reader = GCSReader::new(vec![1, 2, 3]);
    assert_eq!(reader.initialize(), Err(GcsError::UnexpectedEof));
}

#[test]
fn empty_set_finds_nothing() {
    let b = GCSBuilder::new(0, 16, 1024).unwrap();
    let data = b.finish().unwrap();
    // Zero-length payload, empty index, footer only.
    assert_eq!(data.len(), 40);
    let mut reader = GCSReader::new(data);
    reader.initialize().unwrap();
    for x in [0u64, 1, 7, u64::MAX] {
        assert!(!reader.lookup(x).unwrap());
    }
}

#[test]
fn zero_is_reported_present_by_the_implicit_entry() {
    // The in-memory index always starts with the implicit (0, 0) entry, so
    // a hash reducing to zero is reported found even when it was never
    // added: a designed false positive.
    let data = build(&[5, 12, 5, 27], 4, 16, 2);
    let mut reader = GCSReader::new(data);
    reader.initialize().unwrap();
    assert!(reader.lookup(0).unwrap());
    assert!(reader.lookup(64).unwrap());
}

#[test]
fn oversized_index_length_is_rejected() {
    let mut data = build(&[5, 12, 5, 27], 4, 16, 2);
    // Corrupt the footer's index length; the index region no longer fits.
    let at = data.len() - 9;
    data[at] = 0xff;
    let mut reader = GCSReader::new(data);
    assert_eq!(reader.initialize(), Err(GcsError::UnexpectedEof));
}

#[test]
fn overflowing_parameters_are_rejected() {
    let sink = GCSBuilder::new(1u64 << 40, 1u64 << 40, 1024);
    assert_eq!(sink.err(), Some(GcsError::Overflow));
    assert_eq!(GCSBuilder::new(4, 0, 2).err(), Some(GcsError::InvalidParameter));
    assert_eq!(GCSBuilder::new(4, 16, 0).err(), Some(GcsError::InvalidParameter));
}

#[test]
fn seek_to_index_offset_and_decode() {
    // In the tiny build the third codeword begins at bit 10; decoding there
    // yields the delta 15 for the third element.
    let data = build(&[5, 12, 5, 27], 4, 16, 2);
    let mut r = BitReader::new(data);
    r.seek(10).unwrap();
    assert_eq!(golomb_decode(&mut r, 16, 4, 15), Some(15));
    // The sole stored index entry records bit offset 15: the position where
    // decoding resumes to reproduce the element after 27, which is the end
    // of the payload.
    r.seek(15).unwrap();
    assert_eq!(golomb_decode(&mut r, 16, 4, 15), None);
}

#[test]
fn golomb_codec_round_trip() {
    let values = [0u64, 1, 5, 15, 16, 17, 255, 1000, 100_000];
    for &p in &[1u64, 2, 3, 16, 100, 1 << 24] {
        let mut enc = GolombEncoder::new(Vec::new(), p);
        let mut lens: Vec<u64> = Vec::new();
        for &v in &values {
            lens.push(enc.encode(v));
        }
        let total: u64 = lens.iter().sum();
        enc.finish();
        let mut r = BitReader::new(enc.into_inner());
        let log2p = (64 - (p - 1).leading_zeros()) as u8;
        let end = total + 7;
        for &v in &values {
            assert_eq!(golomb_decode(&mut r, p, log2p, end), Some(v));
        }
    }
}

#[test]
fn duplicates_change_nothing() {
    let once = build(&[3, 1, 2], 3, 16, 2);
    let twice = build(&[3, 1, 2, 3, 1, 2], 3, 16, 2);
    assert_eq!(once, twice);
}

#[test]
fn input_order_changes_nothing() {
    let a = build(&[9, 100, 3, 77, 42], 5, 64, 2);
    let b = build(&[42, 3, 100, 77, 9], 5, 64, 2);
    assert_eq!(a, b);
}

#[test]
fn large_sequential_membership_and_false_positives() {
    let n: u64 = 100_000;
    let p: u64 = 256;
    let mut b = GCSBuilder::new(n, p, 32).unwrap();
    for v in 0..n {
        b.add(v);
    }
    let data = b.finish().unwrap();
    let mut reader = GCSReader::new(data);
    reader.initialize().unwrap();
    for v in 0..n {
        assert!(reader.lookup(v).unwrap());
    }
    // Sample hashes that were never added, from the full 64-bit range, with
    // a fixed linear congruence; their reductions modulo n * p collide with
    // a member at a rate of about 1 / p.
    let mut state: u64 = 0x2545_f491_4f6c_dd1d;
    let mut found: u64 = 0;
    let mut trials: u64 = 0;
    while trials < 10_000 {
        state = state.wrapping_mul(6_364_136_223_846_793_005).wrapping_add(1_442_695_040_888_963_407);
        if state < n {
            continue;
        }
        trials += 1;
        if reader.lookup(state).unwrap() {
            found += 1;
        }
    }
    let expected = trials / p;
    assert!(found <= 2 * expected, "false positives: {found}");
    assert!(found >= expected / 2, "false positives: {found}");
}

#[test]
fn unaligned_parameter_is_supported() {
    // p need not be a power of two; remainders use ceil(log2(p)) bits.
    let data = build(&[0, 10, 20, 30, 99], 5, 10, 2);
    let mut reader = GCSReader::new(data);
    reader.initialize().unwrap();
    for x in [0u64, 10, 20, 30, 49] {
        assert!(reader.lookup(x).unwrap());
    }
    assert!(!reader.lookup(31).unwrap());
}
