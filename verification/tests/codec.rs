//! Checksums, LSNs, configuration, errors and the record codec.

use open_wal::crc32c;
use open_wal::record::decode;
use open_wal::record::encode_into;
use open_wal::record::framed_size;
use open_wal::record::framed_size_u64;
use open_wal::record::padding_for;
use open_wal::record::padding_for_u64;
use open_wal::record::peek;
use open_wal::record::DecodeError;
use open_wal::record::Decoded;
use open_wal::record::RECORD_HEADER_SIZE;
use open_wal::record::REC_TYPE_FULL;
use open_wal::record::REC_TYPE_SENTINEL;
use open_wal::Lsn;
use open_wal::WalConfig;
use open_wal::WalError;

const LEN_OFF: usize = 4;
const REC_TYPE_OFF: usize = 16;
const PAYLOAD_OFF: usize = RECORD_HEADER_SIZE;

/// A bound for tests that are not about it.
const MAX: u32 = 1 << 20;

const CHECK_123456789: u32 = 0xE306_9283;
const ISO_HDLC_123456789: u32 = 0xCBF4_3926;

#[test]
fn default_satisfies_section_5_3_bound() {
    let c = WalConfig::default();
    assert!(u64::from(c.max_record_size) + 91 <= c.segment_size);
}

#[test]
fn default_sizes_are_128_and_1_mebibyte() {
    let c = WalConfig::default();
    assert_eq!(c.segment_size, 134_217_728);
    assert_eq!(c.max_record_size, 1_048_576);
    assert!(c.is_valid());
    assert!(!WalConfig { segment_size: 90, max_record_size: 0 }.is_valid());
    assert!(WalConfig { segment_size: 91, max_record_size: 0 }.is_valid());
}

#[test]
fn empty_input_is_zero() {
    assert_eq!(crc32c(b""), 0x0000_0000);
}

#[test]
fn canonical_check_vector() {
    assert_eq!(crc32c(b"123456789"), CHECK_123456789);
}

#[test]
fn is_castagnoli_not_iso_hdlc() {
    assert_ne!(crc32c(b"123456789"), ISO_HDLC_123456789);
}

#[test]
fn known_answer_all_zeros() {
    assert_eq!(crc32c(&[0x00u8; 32]), 0x8A91_36AA);
}

#[test]
fn known_answer_all_ones() {
    assert_eq!(crc32c(&[0xFFu8; 32]), 0x62A8_AB43);
}

#[test]
fn detects_single_bit_flip() {
    let a = crc32c(b"the quick brown fox");
    let b = crc32c(b"the quick brown gox");
    assert_ne!(a, b);
}

/// The checksum by its definition, one bit at a time.
fn slow_crc(data: &[u8]) -> u32 {
    let mut crc = 0xFFFF_FFFFu32;
    for &b in data {
        crc ^= u32::from(b);
        for _ in 0..8 {
            crc = if crc & 1 == 1 { (crc >> 1) ^ 0x82F6_3B78 } else { crc >> 1 };
        }
    }
    !crc
}

#[test]
fn checksum_matches_its_definition_for_all_lengths() {
    let data: Vec<u8> = (0..5000u32).map(|i| (i * 197 + 31) as u8).collect();
    for len in [0usize, 1, 3, 7, 8, 9, 63, 64, 65, 255, 768, 1024, 3072, 4096, 5000] {
        assert_eq!(crc32c(&data[..len]), slow_crc(&data[..len]), "len {len}");
    }
}

#[test]
fn io_error_source_is_preserved() {
    let io = std::io::Error::other("boom");
    let err = WalError::from(io);
    assert!(err.source().is_some());
    assert!(WalError::Locked.source().is_none());
}

#[test]
fn display_includes_location_context() {
    let err = WalError::Corruption {
        segment: Lsn(100001),
        offset: 84,
        detail: "crc mismatch",
    };
    let s = err.to_string();
    assert!(s.contains("100001"));
    assert!(s.contains("84"));
    assert!(s.contains("crc mismatch"));
}

#[test]
fn io_error_text_is_included() {
    let err = WalError::from(std::io::Error::other("boom"));
    assert!(err.to_string().contains("boom"));
}

#[test]
fn none_and_first() {
    assert_eq!(Lsn::none(), Lsn(0));
    assert_eq!(Lsn::first(), Lsn(1));
    assert!(Lsn::none().is_none());
    assert!(!Lsn::first().is_none());
}

#[test]
fn next_is_monotone_and_dense() {
    assert_eq!(Lsn::none().next(), Lsn::first());
    assert_eq!(Lsn(41).next(), Lsn(42));
}

#[test]
fn next_saturates_without_panicking() {
    assert_eq!(Lsn(u64::MAX).next(), Lsn(u64::MAX));
}

#[test]
fn ordering() {
    assert!(Lsn(1) < Lsn(2));
    assert!(Lsn::none() < Lsn::first());
}

#[test]
fn display_is_the_underlying_integer() {
    assert_eq!(Lsn(0).to_string(), "0");
    assert_eq!(Lsn(100001).to_string(), "100001");
}

#[test]
fn display_of_the_largest_lsn() {
    assert_eq!(Lsn(u64::MAX).to_string(), "18446744073709551615");
}

fn assert_roundtrip(lsn: Lsn, payload: &[u8]) {
    let mut buf = Vec::new();
    let framed = encode_into(&mut buf, lsn, payload);

    assert_eq!(framed, framed_size(payload.len()));
    assert_eq!(framed % 8, 0, "framed size must be 8-aligned");
    assert_eq!(buf.len(), framed);

    match decode(&buf, MAX) {
        Decoded::Record { lsn: got_lsn, payload: got_payload, framed_len } => {
            assert_eq!(got_lsn, lsn);
            assert_eq!(got_payload, payload);
            assert_eq!(framed_len, framed);
        }
        other => panic!("expected Record, got {other:?}"),
    }
}

#[test]
fn roundtrip_alignment_edge_sizes() {
    for len in [0usize, 1, 7, 8, 9] {
        let payload: Vec<u8> = (0..len).map(|i| i as u8).collect();
        assert_roundtrip(Lsn(1), &payload);
    }
}

#[test]
fn roundtrip_spread_and_max() {
    for len in [16usize, 100, 1000, MAX as usize] {
        let payload: Vec<u8> = (0..len).map(|i| (i * 31 + 7) as u8).collect();
        assert_roundtrip(Lsn(42), &payload);
    }
}

#[test]
fn padding_formula_and_zero_bytes() {
    for len in 0usize..=64 {
        let expected_pad = (8 - ((RECORD_HEADER_SIZE + len) % 8)) % 8;
        assert_eq!(padding_for(len), expected_pad);
        assert_eq!(framed_size(len), RECORD_HEADER_SIZE + len + expected_pad);

        let payload = vec![0xABu8; len];
        let mut buf = Vec::new();
        let framed = encode_into(&mut buf, Lsn(1), &payload);
        for &b in &buf[PAYLOAD_OFF + len..framed] {
            assert_eq!(b, 0);
        }
    }
}

#[test]
fn padding_is_inside_crc_coverage() {
    let mut buf = Vec::new();
    let framed = encode_into(&mut buf, Lsn(1), &[0x55]);
    let pad = padding_for(1);
    assert!(pad > 0, "need a padded payload to test this");

    let pad_idx = PAYLOAD_OFF + 1;
    assert!(pad_idx < framed);
    buf[pad_idx] ^= 0xFF;

    assert!(matches!(decode(&buf, MAX), Decoded::Invalid(DecodeError::BadCrc)));
}

#[test]
fn payload_and_crc_field_corruption_detected() {
    let mut buf = Vec::new();
    encode_into(&mut buf, Lsn(7), &[1, 2, 3, 4, 5]);

    let mut a = buf.clone();
    a[PAYLOAD_OFF] ^= 0x01;
    assert!(matches!(decode(&a, MAX), Decoded::Invalid(DecodeError::BadCrc)));

    let mut b = buf.clone();
    b[0] ^= 0x01;
    assert!(matches!(decode(&b, MAX), Decoded::Invalid(DecodeError::BadCrc)));
}

#[test]
fn length_over_max_rejected_without_oob() {
    let mut buf = vec![0u8; RECORD_HEADER_SIZE];
    buf[REC_TYPE_OFF] = REC_TYPE_FULL;
    buf[LEN_OFF..LEN_OFF + 4].copy_from_slice(&u32::MAX.to_le_bytes());

    assert!(matches!(
        decode(&buf, 64),
        Decoded::Invalid(DecodeError::LengthTooLarge)
    ));
}

#[test]
fn framed_overrun_is_incomplete_without_oob() {
    let mut buf = vec![0u8; RECORD_HEADER_SIZE];
    buf[REC_TYPE_OFF] = REC_TYPE_FULL;
    buf[LEN_OFF..LEN_OFF + 4].copy_from_slice(&100u32.to_le_bytes());
    assert!(matches!(decode(&buf, MAX), Decoded::Incomplete));
}

#[test]
fn short_buffer_is_incomplete() {
    for n in 0..RECORD_HEADER_SIZE {
        assert!(matches!(decode(&vec![0xFFu8; n], MAX), Decoded::Incomplete));
    }
}

#[test]
fn sentinel_header_detected() {
    let mut buf = vec![0xFFu8; RECORD_HEADER_SIZE];
    buf[REC_TYPE_OFF] = REC_TYPE_SENTINEL;
    assert!(matches!(decode(&buf, MAX), Decoded::Sentinel));

    assert!(matches!(
        decode(&[0u8; RECORD_HEADER_SIZE], MAX),
        Decoded::Sentinel
    ));
}

#[test]
fn unknown_rec_type_with_valid_crc_is_invalid() {
    let mut buf = Vec::new();
    let framed = encode_into(&mut buf, Lsn(3), &[9, 8, 7]);
    buf[REC_TYPE_OFF] = 2;
    let crc = crc32c(&buf[LEN_OFF..framed]);
    buf[0..LEN_OFF].copy_from_slice(&crc.to_le_bytes());

    assert!(matches!(
        decode(&buf, MAX),
        Decoded::Invalid(DecodeError::UnknownRecType)
    ));
}

#[test]
fn lsn_roundtrips_small_and_large() {
    assert_roundtrip(Lsn(1), b"first");
    assert_roundtrip(Lsn(u64::MAX), b"last");
}

#[test]
fn padding_for_u64_matches_usize_helper() {
    for len in 0u64..=64 {
        assert_eq!(padding_for_u64(len), padding_for(len as usize) as u64);
    }
    for len in [u32::MAX as u64, u32::MAX as u64 + 1, u64::MAX] {
        let expected = (8 - ((20u64 + len % 8) % 8)) % 8;
        assert_eq!(padding_for_u64(len), expected);
    }
}

#[test]
fn framed_size_u64_matches_and_does_not_wrap() {
    for len in [0usize, 1, 7, 8, 9, 20, 4096] {
        assert_eq!(framed_size_u64(len as u64), framed_size(len) as u64);
    }
    let big = u32::MAX as u64;
    let f = framed_size_u64(big);
    assert!(f >= 20 + big, "framed_size_u64 must not wrap for a huge length");
    assert_eq!(f % 8, 0, "framed size is always 8-aligned");
}

#[test]
fn one_record_has_exactly_these_bytes() {
    let mut buf = vec![0xEE];
    assert_eq!(encode_into(&mut buf, Lsn(0x0102_0304_0506_0708), b"hello"), 32);
    let mut tail = vec![5, 0, 0, 0, 8, 7, 6, 5, 4, 3, 2, 1, 1, 0, 0, 0];
    tail.extend_from_slice(b"hello");
    tail.extend_from_slice(&[0; 7]);
    let mut want = vec![0xEE];
    want.extend_from_slice(&slow_crc(&tail).to_le_bytes());
    want.extend_from_slice(&tail);
    assert_eq!(buf, want);
    assert_eq!(peek(&buf[1..]), (Lsn(0x0102_0304_0506_0708), 32));
}

#[test]
fn every_changed_byte_is_seen() {
    let mut buf = Vec::new();
    encode_into(&mut buf, Lsn(9), b"some payload");
    for i in 0..buf.len() {
        let mut changed = buf.clone();
        changed[i] ^= 0x40;
        let same = matches!(
            decode(&changed, MAX),
            Decoded::Record { lsn: Lsn(9), payload: b"some payload", .. }
        );
        assert!(!same, "byte {i}");
        if !(4..8).contains(&i) {
            assert!(matches!(decode(&changed, MAX), Decoded::Invalid(DecodeError::BadCrc)), "byte {i}");
        }
    }
}
