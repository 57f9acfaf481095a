use fastdata_tfrecord::crc32c::{get_masked_crc, verify_masked_crc, MASK_DELTA};
use fastdata_tfrecord::error::Error;

/// An independent bit-at-a-time CRC-32C, for cross-checking the
/// library's table-driven one.
fn crc32c_ref(data: &[u8]) -> u32 {
    let mut crc: u32 = 0xFFFF_FFFF;
    for &b in data {
        crc ^= b as u32;
        for _ in 0..8 {
            let mask = (crc & 1).wrapping_neg();
            crc = (crc >> 1) ^ (0x82F6_3B78 & mask);
        }
    }
    !crc
}

fn masked_ref(data: &[u8]) -> u32 {
    let c = crc32c_ref(data);
    ((c >> 15) | (c << 17)).wrapping_add(MASK_DELTA)
}

#[test]
fn crc32c_reference_vector() {
    // The catalogued check value for CRC-32C over "123456789".
    assert_eq!(crc32c_ref(b"123456789"), 0xe306_9283);
}

#[test]
fn masked_crc_matches_reference() {
    let cases: &[&[u8]] = &[
        b"",
        b"123456789",
        b"hello",
        b"\x05\x00\x00\x00\x00\x00\x00\x00",
        b"The quick brown fox jumps over the lazy dog",
    ];
    for case in cases {
        assert_eq!(get_masked_crc(case), masked_ref(case));
    }
}

#[test]
fn masked_crc_depends_on_input() {
    // Two different inputs with the same length must not collide here.
    assert_ne!(get_masked_crc(b"hello"), get_masked_crc(b"hellp"));
}

#[test]
fn verify_masked_crc_accepts_and_rejects() {
    let good = get_masked_crc(b"hello");
    assert!(verify_masked_crc(b"hello", good).is_ok());
    let r = verify_masked_crc(b"hello", good ^ 1);
    match r {
        Err(Error::ChecksumMismatch { found, expect }) => {
            assert_eq!(found, good);
            assert_eq!(expect, good ^ 1);
        }
        other => panic!("expected a checksum mismatch, got {:?}", other),
    }
}
