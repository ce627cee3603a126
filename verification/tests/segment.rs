//! Headers, file names and the scanner.

use open_wal::crc32c;
use open_wal::record::encode_into;
use open_wal::segment::decode_header;
use open_wal::segment::encode_header;
use open_wal::segment::filename_for;
use open_wal::segment::parse_base_lsn;
use open_wal::segment::read_record_at;
use open_wal::segment::ScanOutcome;
use open_wal::Lsn;
use open_wal::WalError;

const VERSION_OFF: usize = 8;
const BASE_LSN_OFF: usize = 12;
const HEADER_CRC_OFF: usize = 60;

#[test]
fn header_round_trips() {
    let h = encode_header(Lsn(100_001), 1234);
    let decoded = decode_header(&h).expect("valid header");
    assert_eq!(decoded.base_lsn, Lsn(100_001));
}

#[test]
fn corrupted_magic_rejected() {
    let mut h = encode_header(Lsn(1), 0);
    h[0] ^= 0xFF;
    assert!(matches!(decode_header(&h), Err(WalError::BadSegmentHeader)));
}

#[test]
fn corrupted_crc_rejected() {
    let mut h = encode_header(Lsn(7), 0);
    h[BASE_LSN_OFF] ^= 0x01;
    assert!(matches!(decode_header(&h), Err(WalError::BadSegmentHeader)));
}

#[test]
fn base_lsn_zero_rejected() {
    let h = encode_header(Lsn(0), 0);
    assert!(matches!(decode_header(&h), Err(WalError::BadSegmentHeader)));
}

#[test]
fn wrong_version_rejected() {
    let mut h = encode_header(Lsn(1), 0);
    h[VERSION_OFF] = 2;
    let crc = crc32c(&h[0..HEADER_CRC_OFF]);
    h[HEADER_CRC_OFF..HEADER_CRC_OFF + 4].copy_from_slice(&crc.to_le_bytes());
    assert!(matches!(decode_header(&h), Err(WalError::BadSegmentHeader)));
}

#[test]
fn short_header_rejected() {
    assert!(matches!(
        decode_header(&[0u8; 10]),
        Err(WalError::BadSegmentHeader)
    ));
}

#[test]
fn filename_round_trips_including_edges() {
    for base in [1u64, 42, 100_001, u64::MAX] {
        let name = filename_for(Lsn(base));
        assert_eq!(name.len(), 24);
        assert_eq!(parse_base_lsn(&name), Some(base));
    }
}

#[test]
fn parse_rejects_non_segment_names() {
    assert_eq!(parse_base_lsn("LOCK"), None);
    assert_eq!(parse_base_lsn("0000000000000000001.wal"), None);
    assert_eq!(parse_base_lsn("000000000000000000001.wal"), None);
    assert_eq!(parse_base_lsn("0000000000000000000a.wal"), None);
    assert_eq!(parse_base_lsn("00000000000000000001.dat"), None);
}

#[test]
fn parse_rejects_what_no_lsn_has() {
    assert_eq!(parse_base_lsn("18446744073709551615.wal"), Some(u64::MAX));
    assert_eq!(parse_base_lsn("18446744073709551616.wal"), None);
    assert_eq!(parse_base_lsn("99999999999999999999.wal"), None);
    assert_eq!(parse_base_lsn("+0000000000000000001.wal"), None);
    assert_eq!(parse_base_lsn("0000000000000000000\u{0661}.wal"), None);
    assert_eq!(parse_base_lsn(""), None);
}

#[test]
fn filename_is_exact() {
    assert_eq!(filename_for(Lsn(100_001)), "00000000000000100001.wal");
}

#[test]
fn header_has_exactly_these_bytes() {
    let h = encode_header(Lsn(0x1122), 0x3344);
    assert_eq!(&h[0..8], b"WAL\0SEG1");
    assert_eq!(&h[8..12], &[1, 0, 0, 0]);
    assert_eq!(&h[12..20], &0x1122u64.to_le_bytes());
    assert_eq!(&h[20..28], &0x3344u64.to_le_bytes());
    assert_eq!(&h[28..60], &[0u8; 32]);
    assert_eq!(&h[60..64], &crc32c(&h[..60]).to_le_bytes());
    assert_eq!(h.len(), 64);
}

#[test]
fn every_changed_header_byte_is_seen() {
    let h = encode_header(Lsn(5), 99);
    for i in 0..h.len() {
        let mut changed = h.clone();
        changed[i] ^= 0x10;
        assert!(matches!(decode_header(&changed), Err(WalError::BadSegmentHeader)), "byte {i}");
    }
}

#[test]
fn scanner_tells_records_ends_and_faults_apart() {
    let mut file = encode_header(Lsn(1), 0);
    encode_into(&mut file, Lsn(1), b"abc");
    file.resize(256, 0);
    match read_record_at(&file, 64, 256, 100) {
        ScanOutcome::Record { lsn, payload, framed_len } => {
            assert_eq!((lsn, payload, framed_len), (Lsn(1), &b"abc"[..], 24));
        }
        other => panic!("expected a record, got {other:?}"),
    }
    // Zeros behind it.
    assert!(matches!(read_record_at(&file, 88, 256, 100), ScanOutcome::CleanEnd));
    // No header fits any more.
    assert!(matches!(read_record_at(&file, 237, 256, 100), ScanOutcome::CleanEnd));
    assert!(matches!(read_record_at(&file, 9999, 256, 100), ScanOutcome::CleanEnd));
    // Over the bound.
    assert!(matches!(read_record_at(&file, 64, 256, 2), ScanOutcome::Invalid));
    // The frame overruns the segment.
    assert!(matches!(read_record_at(&file, 64, 87, 100), ScanOutcome::Invalid));
    // The file is cut off, in the frame and in the header.
    assert!(matches!(read_record_at(&file[..87], 64, 256, 100), ScanOutcome::Invalid));
    assert!(matches!(read_record_at(&file[..80], 64, 256, 100), ScanOutcome::Invalid));
    // A type of zero alone ends nothing.
    let mut zeroed = file.clone();
    zeroed[64 + 16] = 0;
    assert!(matches!(read_record_at(&zeroed, 64, 256, 100), ScanOutcome::Invalid));
    // Not even under a checksum that matches.
    let crc = crc32c(&zeroed[68..88]);
    zeroed[64..68].copy_from_slice(&crc.to_le_bytes());
    assert!(matches!(read_record_at(&zeroed, 64, 256, 100), ScanOutcome::Invalid));
}

#[test]
fn nothing_behind_the_segment_is_looked_at() {
    let mut file = encode_header(Lsn(1), 0);
    encode_into(&mut file, Lsn(1), b"abc");
    encode_into(&mut file, Lsn(2), b"defgh");
    for size in [64u64, 80, 87, 88, 100, 119, 120] {
        for offset in (64..=120u64).step_by(8) {
            let whole = format!("{:?}", read_record_at(&file, offset, size, 100));
            let cut = format!("{:?}", read_record_at(&file[..size as usize], offset, size, 100));
            assert_eq!(whole, cut, "size {size} offset {offset}");
        }
    }
}

#[test]
fn segments_have_distinct_names_in_order() {
    let bases = [0u64, 1, 9, 10, 99, 100, 12345, u64::MAX - 1, u64::MAX];
    for pair in bases.windows(2) {
        assert!(filename_for(Lsn(pair[0])) < filename_for(Lsn(pair[1])));
    }
}
