//! Recovery of single segments.

use open_wal::crc32c;
use open_wal::fuzzing::decode_record;
use open_wal::fuzzing::encode_record_into;
use open_wal::fuzzing::recover_segment_classify;
use open_wal::fuzzing::recover_segment_probe;
use open_wal::fuzzing::scan_bound;
use open_wal::fuzzing::scan_probe_peak;
use open_wal::fuzzing::scan_probe_reset;
use open_wal::fuzzing::segment_header_bytes;
use open_wal::fuzzing::SegClass;
use open_wal::record::encode_into;
use open_wal::record::framed_size;
use open_wal::recovery::ScanProbe;
use open_wal::recovery::SegmentRecovery;
use open_wal::segment::encode_header;
use open_wal::segment::read_record_at;
use open_wal::segment::ScanOutcome;
use open_wal::Lsn;
use open_wal::TailState;
use open_wal::WalError;

const SEGMENT_SIZE: u64 = 64 * 1024;
const MAX_RECORD_SIZE: u32 = 4096;
const HEADER_SIZE: u64 = 64;

fn fresh_segment(base: Lsn) -> Vec<u8> {
    let mut file = encode_header(base, 7);
    file.resize(SEGMENT_SIZE as usize, 0);
    file
}

fn write_at(file: &mut Vec<u8>, bytes: &[u8], offset: u64) {
    let at = offset as usize;
    if file.len() < at + bytes.len() {
        file.resize(at + bytes.len(), 0);
    }
    file[at..at + bytes.len()].copy_from_slice(bytes);
}

fn flip(file: &mut [u8], offset: u64) {
    file[offset as usize] ^= 0xFF;
}

/// Writes `payloads` as dense records from `base` on; returns the offset behind.
fn write_dense(file: &mut Vec<u8>, base: Lsn, payloads: &[&[u8]]) -> u64 {
    let mut offset = HEADER_SIZE;
    let mut lsn = base;
    for p in payloads {
        let mut buf = Vec::new();
        let framed = encode_into(&mut buf, lsn, p);
        write_at(file, &buf, offset);
        offset += framed as u64;
        lsn = lsn.next();
    }
    offset
}

/// Recovers the file, and zeroes a torn tail as its owner has to.
fn recover_segment(
    file: &mut Vec<u8>,
    base: Lsn,
    is_active: bool,
    segment_size: u64,
    max_record_size: u32,
) -> Result<SegmentRecovery, WalError> {
    let mut probe = ScanProbe::new();
    let r = open_wal::recovery::recover_segment(
        file,
        base,
        is_active,
        segment_size,
        max_record_size,
        &mut probe,
    );
    assert!(scan_probe_peak(&probe) <= scan_bound(max_record_size));
    if let Ok(rec) = &r {
        if let TailState::TruncatedAt { offset, .. } = rec.tail_state {
            assert_eq!(offset, rec.write_offset);
            file.truncate(offset as usize);
            file.resize(segment_size as usize, 0);
        }
    }
    r
}

#[test]
fn empty_active_segment_is_clean_with_base_minus_one() {
    let mut file = fresh_segment(Lsn(101));
    let rec = recover_segment(&mut file, Lsn(101), true, SEGMENT_SIZE, MAX_RECORD_SIZE).unwrap();
    assert_eq!(rec.max_lsn, Lsn(100));
    assert_eq!(rec.write_offset, HEADER_SIZE);
    assert_eq!(rec.tail_state, TailState::Clean);
}

#[test]
fn clean_run_recovers_all_records_without_zeroing() {
    let mut file = fresh_segment(Lsn(1));
    let end = write_dense(&mut file, Lsn(1), &[b"a", b"bb", b"ccc"]);
    let rec = recover_segment(&mut file, Lsn(1), true, SEGMENT_SIZE, MAX_RECORD_SIZE).unwrap();
    assert_eq!(rec.max_lsn, Lsn(3));
    assert_eq!(rec.write_offset, end);
    assert_eq!(rec.tail_state, TailState::Clean);
}

#[test]
fn corrupt_last_record_is_a_torn_tail_and_is_zeroed() {
    let mut file = fresh_segment(Lsn(1));
    write_dense(&mut file, Lsn(1), &[b"first", b"second"]);
    let x = HEADER_SIZE + framed_size(5) as u64;
    flip(&mut file, x + 20);

    let rec = recover_segment(&mut file, Lsn(1), true, SEGMENT_SIZE, MAX_RECORD_SIZE).unwrap();
    assert_eq!(rec.max_lsn, Lsn(1));
    assert_eq!(rec.write_offset, x);
    assert_eq!(
        rec.tail_state,
        TailState::TruncatedAt { segment_base: Lsn(1), offset: x }
    );
    assert!(file[x as usize..].iter().all(|&b| b == 0), "tail must be zeroed to EOF");
}

#[test]
fn corrupt_middle_acked_record_is_fatal_tornmidlog() {
    let mut file = fresh_segment(Lsn(1));
    write_dense(&mut file, Lsn(1), &[b"one", b"two", b"three"]);
    let x = HEADER_SIZE + framed_size(3) as u64;
    flip(&mut file, x + 20);

    let err = recover_segment(&mut file, Lsn(1), true, SEGMENT_SIZE, MAX_RECORD_SIZE).unwrap_err();
    assert!(
        matches!(err, WalError::TornMidLog { segment, offset } if segment == Lsn(1) && offset == x),
        "expected TornMidLog at {x}, got {err:?}"
    );
}

#[test]
fn sealed_segment_invalid_record_is_fatal_corruption() {
    let mut file = fresh_segment(Lsn(1));
    write_dense(&mut file, Lsn(1), &[b"one", b"two", b"three"]);
    let x = HEADER_SIZE + framed_size(3) as u64;
    flip(&mut file, x + 20);

    let err = recover_segment(&mut file, Lsn(1), false, SEGMENT_SIZE, MAX_RECORD_SIZE).unwrap_err();
    assert!(
        matches!(err, WalError::Corruption { segment, offset, .. } if segment == Lsn(1) && offset == x),
        "expected Corruption at {x}, got {err:?}"
    );
}

#[test]
fn sealed_torn_last_record_is_also_fatal() {
    let mut file = fresh_segment(Lsn(1));
    write_dense(&mut file, Lsn(1), &[b"first", b"second"]);
    let x = HEADER_SIZE + framed_size(5) as u64;
    flip(&mut file, x + 20);

    assert!(matches!(
        recover_segment(&mut file, Lsn(1), false, SEGMENT_SIZE, MAX_RECORD_SIZE),
        Err(WalError::Corruption { .. })
    ));
    assert!(matches!(
        recover_segment(&mut file, Lsn(1), true, SEGMENT_SIZE, MAX_RECORD_SIZE),
        Ok(SegmentRecovery { tail_state: TailState::TruncatedAt { .. }, .. })
    ));
}

#[test]
fn recovery_is_idempotent_after_torn_tail() {
    let mut file = fresh_segment(Lsn(1));
    write_dense(&mut file, Lsn(1), &[b"first", b"second"]);
    let x = HEADER_SIZE + framed_size(5) as u64;
    flip(&mut file, x + 20);

    let first = recover_segment(&mut file, Lsn(1), true, SEGMENT_SIZE, MAX_RECORD_SIZE).unwrap();
    assert!(matches!(first.tail_state, TailState::TruncatedAt { .. }));

    for _ in 0..3 {
        let again =
            recover_segment(&mut file, Lsn(1), true, SEGMENT_SIZE, MAX_RECORD_SIZE).unwrap();
        assert_eq!(again.max_lsn, Lsn(1));
        assert_eq!(again.write_offset, x);
        assert_eq!(again.tail_state, TailState::Clean);
    }
}

#[test]
fn truncated_file_below_segment_size_recovers_without_panic() {
    let mut file = fresh_segment(Lsn(1));
    let end = write_dense(&mut file, Lsn(1), &[b"alpha", b"beta", b"gamma"]);
    file.truncate((end - 4) as usize);

    let rec = recover_segment(&mut file, Lsn(1), true, SEGMENT_SIZE, MAX_RECORD_SIZE).unwrap();
    assert_eq!(rec.max_lsn, Lsn(2));
    assert!(matches!(rec.tail_state, TailState::TruncatedAt { .. }));
    assert_eq!(file.len() as u64, SEGMENT_SIZE);
}

#[test]
fn zeroing_prevents_resurrection_of_stale_valid_record() {
    let mut file = fresh_segment(Lsn(1));
    let x = write_dense(&mut file, Lsn(1), &[b"first"]);
    let mut torn = Vec::new();
    encode_into(&mut torn, Lsn(2), b"torn-r2");
    torn[0] ^= 0xFF;
    write_at(&mut file, &torn, x);

    let bound = u64::from(MAX_RECORD_SIZE) + 28;
    let stale_off = x + bound + 256;
    let mut stale = Vec::new();
    encode_into(&mut stale, Lsn(2), b"STALE-RESURRECTABLE");
    write_at(&mut file, &stale, stale_off);

    assert!(matches!(
        read_record_at(&file, stale_off, SEGMENT_SIZE, MAX_RECORD_SIZE),
        ScanOutcome::Record { lsn: Lsn(2), .. }
    ));

    let rec = recover_segment(&mut file, Lsn(1), true, SEGMENT_SIZE, MAX_RECORD_SIZE).unwrap();
    assert_eq!(rec.max_lsn, Lsn(1));
    assert!(matches!(rec.tail_state, TailState::TruncatedAt { offset, .. } if offset == x));

    assert!(matches!(
        read_record_at(&file, stale_off, SEGMENT_SIZE, MAX_RECORD_SIZE),
        ScanOutcome::CleanEnd
    ));

    let again = recover_segment(&mut file, Lsn(1), true, SEGMENT_SIZE, MAX_RECORD_SIZE).unwrap();
    assert_eq!(again.max_lsn, Lsn(1));
    assert_eq!(again.write_offset, x);
    assert_eq!(again.tail_state, TailState::Clean);
}

fn write_record_at(file: &mut Vec<u8>, offset: u64, lsn: Lsn, payload: &[u8]) {
    let mut buf = Vec::new();
    encode_into(&mut buf, lsn, payload);
    write_at(file, &buf, offset);
}

fn write_torn_at(file: &mut Vec<u8>, offset: u64, lsn: Lsn, payload: &[u8]) {
    let mut buf = Vec::new();
    encode_into(&mut buf, lsn, payload);
    buf[0] ^= 0xFF;
    write_at(file, &buf, offset);
}

#[test]
fn forward_scan_just_within_bound_is_fatal_tornmidlog() {
    let mut file = fresh_segment(Lsn(1));
    let x = write_dense(&mut file, Lsn(1), &[b"first"]);
    write_torn_at(&mut file, x, Lsn(2), b"z");

    let bound = u64::from(MAX_RECORD_SIZE) + 28;
    let end = x + 8 + bound;
    let within = (end / 8) * 8;
    assert!(within > x + 8 && within <= end);
    write_record_at(&mut file, within, Lsn(2), b"genuine-continuation");

    let err = recover_segment(&mut file, Lsn(1), true, SEGMENT_SIZE, MAX_RECORD_SIZE).unwrap_err();
    assert!(
        matches!(err, WalError::TornMidLog { offset, .. } if offset == x),
        "a continuation at the bound edge must be fatal, got {err:?}"
    );
}

#[test]
fn forward_scan_just_beyond_bound_is_torn_tail() {
    let mut file = fresh_segment(Lsn(1));
    let x = write_dense(&mut file, Lsn(1), &[b"first"]);
    write_torn_at(&mut file, x, Lsn(2), b"z");

    let bound = u64::from(MAX_RECORD_SIZE) + 28;
    let end = x + 8 + bound;
    let beyond = (end / 8) * 8 + 8;
    assert!(beyond > end);
    write_record_at(&mut file, beyond, Lsn(2), b"genuine-continuation");

    let rec = recover_segment(&mut file, Lsn(1), true, SEGMENT_SIZE, MAX_RECORD_SIZE).unwrap();
    assert_eq!(rec.max_lsn, Lsn(1));
    assert!(matches!(rec.tail_state, TailState::TruncatedAt { offset, .. } if offset == x));
    assert!(matches!(
        read_record_at(&file, beyond, SEGMENT_SIZE, MAX_RECORD_SIZE),
        ScanOutcome::CleanEnd
    ));
}

#[test]
fn unknown_rec_type_at_tail_is_treated_as_torn_tail() {
    let mut file = fresh_segment(Lsn(1));
    let x = write_dense(&mut file, Lsn(1), &[b"first"]);

    let mut buf = Vec::new();
    let framed = encode_into(&mut buf, Lsn(2), b"reserved-type");
    buf[16] = 2;
    let crc = crc32c(&buf[4..framed]);
    buf[0..4].copy_from_slice(&crc.to_le_bytes());
    write_at(&mut file, &buf, x);

    let rec = recover_segment(&mut file, Lsn(1), true, SEGMENT_SIZE, MAX_RECORD_SIZE).unwrap();
    assert_eq!(rec.max_lsn, Lsn(1));
    assert!(matches!(rec.tail_state, TailState::TruncatedAt { offset, .. } if offset == x));
}

#[test]
fn arbitrary_bytes_never_panic_and_terminate() {
    for seed in 0u64..64 {
        let base = Lsn(seed + 1);
        let mut file = fresh_segment(base);
        let mut state = seed.wrapping_mul(0x9E37_79B9_7F4A_7C15).wrapping_add(1);
        let mut bytes = vec![0u8; 4096];
        for b in &mut bytes {
            state = state
                .wrapping_mul(6364136223846793005)
                .wrapping_add(1442695040888963407);
            *b = (state >> 33) as u8;
        }
        write_at(&mut file, &bytes, HEADER_SIZE);
        let _ = recover_segment(&mut file, base, true, SEGMENT_SIZE, MAX_RECORD_SIZE);
    }
}

#[test]
fn probe_measures_exactly_how_far_the_scan_went() {
    let mut file = fresh_segment(Lsn(1));
    let x = write_dense(&mut file, Lsn(1), &[b"first"]);
    write_torn_at(&mut file, x, Lsn(2), b"z");
    let mut probe = ScanProbe::new();
    // To the bound, in steps of 8.
    assert!(recover_segment_probe(&file, 1, true, SEGMENT_SIZE, MAX_RECORD_SIZE, &mut probe));
    assert_eq!(scan_bound(MAX_RECORD_SIZE), 4124);
    assert_eq!(scan_probe_peak(&probe), 4120);
    // To the record that it finds.
    write_record_at(&mut file, x + 80, Lsn(2), b"y");
    assert!(!recover_segment_probe(&file, 1, true, SEGMENT_SIZE, MAX_RECORD_SIZE, &mut probe));
    assert_eq!(scan_probe_peak(&probe), 72);
    // A sealed segment is not scanned ahead.
    assert!(!recover_segment_probe(&file, 1, false, SEGMENT_SIZE, MAX_RECORD_SIZE, &mut probe));
    assert_eq!(scan_probe_peak(&probe), 0);
    probe.peak = 5;
    scan_probe_reset(&mut probe);
    assert_eq!(scan_probe_peak(&probe), 0);
}

#[test]
fn classification_of_each_kind() {
    let mut file = segment_header_bytes(10);
    encode_record_into(&mut file, 10, b"ten");
    encode_record_into(&mut file, 11, b"eleven");
    file.resize(4096, 0);
    let classify = |f: &[u8], active: bool| recover_segment_classify(f, 10, active, 4096, 256);
    assert_eq!(classify(&file, true), SegClass::Clean { max_lsn: 11 });
    let mut torn = file.clone();
    torn[64 + 24 + 20] ^= 1;
    assert_eq!(classify(&torn, true), SegClass::Truncated { offset: 88, max_lsn: 10 });
    assert_eq!(classify(&torn, false), SegClass::Corruption { offset: 88 });
    let mut mid = file.clone();
    mid[64 + 20] ^= 1;
    assert_eq!(classify(&mid, true), SegClass::TornMidLog { offset: 64 });
    // The reserved base stands for the first one.
    let empty = segment_header_bytes(1);
    let mut zeroed = empty.clone();
    zeroed.resize(4096, 0);
    assert_eq!(recover_segment_classify(&zeroed, 0, true, 4096, 256), SegClass::Clean { max_lsn: 0 });
}

#[test]
fn decode_record_gives_lengths_within_bounds() {
    let mut buf = Vec::new();
    encode_record_into(&mut buf, 3, b"12345");
    assert_eq!(decode_record(&buf, 5), Some((5, 32)));
    assert_eq!(decode_record(&buf, 4), None);
    assert_eq!(decode_record(&buf[..31], 5), None);
    assert_eq!(decode_record(&[0; 20], 5), None);
}

#[test]
fn lsns_that_saturate_still_terminate() {
    let mut file = fresh_segment(Lsn(u64::MAX));
    let x = write_dense(&mut file, Lsn(u64::MAX), &[b"a", b"b", b"c"]);
    let rec = recover_segment(&mut file, Lsn(u64::MAX), true, SEGMENT_SIZE, MAX_RECORD_SIZE).unwrap();
    assert_eq!(rec.max_lsn, Lsn(u64::MAX));
    assert_eq!(rec.write_offset, x);
}

#[test]
fn damage_of_every_single_byte_is_classified() {
    let mut file = segment_header_bytes(1);
    let first = file.len();
    let n = encode_record_into(&mut file, 1, b"payload one");
    let m = encode_record_into(&mut file, 2, b"payload two!");
    file.resize(2048, 0);
    for i in 0..n + m {
        let mut bad = file.clone();
        bad[first + i] ^= 0x80;
        let got = recover_segment_classify(&bad, 1, true, 2048, 256);
        if i < n {
            assert_eq!(got, SegClass::TornMidLog { offset: 64 }, "byte {i}");
        } else {
            assert_eq!(got, SegClass::Truncated { offset: (64 + n) as u64, max_lsn: 1 }, "byte {i}");
        }
    }
}

#[test]
fn a_write_cut_short_anywhere_keeps_whole_records() {
    let mut whole = segment_header_bytes(1);
    let n = encode_record_into(&mut whole, 1, b"first");
    let m = encode_record_into(&mut whole, 2, b"second record");
    for cut in 0..=n + m {
        let mut file = whole[..64 + cut].to_vec();
        file.resize(1024, 0);
        let got = recover_segment_classify(&file, 1, true, 1024, 256);
        // The padding is zero, and so is what the write has not reached.
        let kept = if cut >= n + 33 { 2 } else if cut >= 25 { 1 } else { 0 };
        match got {
            SegClass::Clean { max_lsn } => assert_eq!(max_lsn, kept, "cut {cut}"),
            SegClass::Truncated { max_lsn, .. } => assert_eq!(max_lsn, kept, "cut {cut}"),
            other => panic!("cut {cut}: {other:?}"),
        }
    }
}
