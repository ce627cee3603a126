//! Scripts, hostile directories and the decisions of the harnesses.

use open_wal::fuzzing::recover_segment_classify;
use open_wal::fuzzing::segment_header_bytes;
use open_wal::fuzzing::SegClass;
use open_wal::harness::ack_line;
use open_wal::harness::count_segments;
use open_wal::harness::marker_exit_code;
use open_wal::harness::parse_ack;
use open_wal::harness::parse_number;
use open_wal::harness::parse_sink;
use open_wal::harness::read_capture;
use open_wal::harness::record_payload;
use open_wal::harness::record_tag;
use open_wal::harness::wal_config;
use open_wal::harness::Capture;
use open_wal::harness::Finding;
use open_wal::harness::Marker;
use open_wal::harness::SinkSpec;
use open_wal::harness::Verifier;
use open_wal::harness::Workload;
use open_wal::record::encode_into;
use open_wal::scenario::apply_mutation;
use open_wal::scenario::body_bytes;
use open_wal::scenario::build_segment;
use open_wal::scenario::check_dense_prefix;
use open_wal::scenario::check_outcome;
use open_wal::scenario::directory_config;
use open_wal::scenario::safe_name;
use open_wal::scenario::segment_base;
use open_wal::scenario::segment_config;
use open_wal::scenario::Body;
use open_wal::scenario::Mutation;
use open_wal::scenario::Name;
use open_wal::scenario::Opened;
use open_wal::scenario::Rec;
use open_wal::script::arbitrary_payload;
use open_wal::script::script_from;
use open_wal::script::Op;
use open_wal::Lsn;
use open_wal::TailState;
use open_wal::WalConfig;

#[test]
fn script_of_no_bytes_is_empty() {
    let (c, ops) = script_from(&[]).unwrap();
    assert_eq!((c.segment_size, c.max_record_size), (256, 0));
    assert!(ops.is_empty());
}

#[test]
fn script_is_drawn_byte_by_byte() {
    let mut data = vec![3];
    data.extend_from_slice(&5006u32.to_le_bytes());
    // 83 steps are two, of 81 choices.
    data.push(83);
    // A checkpoint.
    data.push(12 + 16);
    data.extend_from_slice(&77u64.to_le_bytes());
    // An append of a drawn length, of which two bytes are left.
    data.push(5);
    data.push(6);
    data.extend_from_slice(&(1001u16 + 4).to_le_bytes());
    data.extend_from_slice(&[9, 8]);
    let (c, ops) = script_from(&data).unwrap();
    assert_eq!((c.segment_size, c.max_record_size), (4096, 1000));
    assert_eq!(ops.len(), 2);
    assert!(matches!(ops[0], Op::Checkpoint(77)));
    assert!(matches!(&ops[1], Op::Append(p) if p == &[9, 8, 0, 0]));
}

#[test]
fn script_knows_every_step() {
    let mut data = vec![2];
    data.extend_from_slice(&10u32.to_le_bytes());
    data.push(7);
    data.extend_from_slice(&[8, 14, 15]);
    // Appends of one byte, of eight, and of the bound.
    data.extend_from_slice(&[0, 1, 0xAA]);
    data.extend_from_slice(&[0, 2, 1, 2, 3, 4, 5, 6, 7, 8]);
    data.extend_from_slice(&[7, 3, 1, 2, 3, 4, 5, 6, 7, 8, 9, 10]);
    data.extend_from_slice(&[3, 0]);
    let (c, ops) = script_from(&data).unwrap();
    assert_eq!((c.segment_size, c.max_record_size), (512, 10));
    assert!(matches!(ops[0], Op::Commit));
    assert!(matches!(ops[1], Op::CrashAndRecover));
    assert!(matches!(ops[2], Op::Reopen));
    assert!(matches!(&ops[3], Op::Append(p) if p == &[0xAA]));
    assert!(matches!(&ops[4], Op::Append(p) if p == &[1, 2, 3, 4, 5, 6, 7, 8]));
    assert!(matches!(&ops[5], Op::Append(p) if p.len() == 10));
    assert!(matches!(&ops[6], Op::Append(p) if p.is_empty()));
    assert_eq!(ops.len(), 7);
}

#[test]
fn payload_is_drawn_from_any_source() {
    let data = [5u8, 3, 0, 1, 2, 3, 4];
    let mut u = arbitrary::Unstructured::new(&data);
    assert_eq!(arbitrary_payload(&mut u, 100).unwrap(), vec![1, 2, 3]);
    assert_eq!(u.len(), 1);
    let mut none = arbitrary::Unstructured::new(&[7, 9, 9]);
    assert_eq!(arbitrary_payload(&mut none, 0).unwrap(), Vec::<u8>::new());
}

#[test]
fn names_that_are_no_files_are_left_out() {
    assert_eq!(safe_name(&Name::Wal(7)).unwrap(), "00000000000000000007.wal");
    for bad in ["", ".", "..", "a/b", "a\0b"] {
        assert!(safe_name(&Name::Raw(bad.to_owned())).is_none(), "{bad:?}");
    }
    for good in ["...", ".a", "LOCK", "x.wal", "\u{e4}"] {
        assert_eq!(safe_name(&Name::Raw(good.to_owned())).unwrap(), good);
    }
    // The limit counts bytes.
    assert!(safe_name(&Name::Raw("a".repeat(64))).is_some());
    assert!(safe_name(&Name::Raw("a".repeat(65))).is_none());
    assert!(safe_name(&Name::Raw("\u{e4}".repeat(32))).is_some());
    assert!(safe_name(&Name::Raw("\u{e4}".repeat(33))).is_none());
}

#[test]
fn bodies_are_header_records_and_rest() {
    assert_eq!(body_bytes(&Body::Raw(vec![1, 2]), 9), vec![1, 2]);
    let body = Body::Structured {
        base: 4,
        recs: vec![
            Rec { lsn: 4, payload: vec![1, 2, 3], corrupt: false },
            Rec { lsn: 5, payload: vec![7; 50], corrupt: true },
        ],
        trailing: vec![0xEE],
    };
    let mut want = segment_header_bytes(4);
    encode_into(&mut want, Lsn(4), &[1, 2, 3]);
    let at = want.len();
    encode_into(&mut want, Lsn(5), &[7; 10]);
    want[at] ^= 0xFF;
    want.push(0xEE);
    assert_eq!(body_bytes(&body, 10), want);
}

#[test]
fn configurations_are_reduced_into_range() {
    let c = directory_config(9, 65536 - 91 + 3);
    assert_eq!((c.segment_size, c.max_record_size), (65536, 2));
    assert_eq!(directory_config(5, 7).segment_size, 256);
    let c = segment_config(false, u32::MAX);
    assert_eq!(c.segment_size, 4096);
    assert_eq!(u64::from(c.max_record_size), u64::from(u32::MAX) % 4006);
    assert_eq!(segment_base(0), 1);
    assert_eq!(segment_base((1 << 40) - 1), 1 << 40);
    assert_eq!(segment_base(1 << 40), 1);
}

#[test]
fn every_mutation_is_seen_by_recovery() {
    let config = WalConfig { segment_size: 4096, max_record_size: 256 };
    let payloads = vec![vec![1; 5], vec![2; 80], vec![], vec![4; 4], vec![5], vec![6], vec![7]];
    let built = build_segment(100, &payloads, config);
    // Six records at most, of 64 bytes at most.
    assert_eq!(built.recs.len(), 6);
    assert_eq!(built.origs[1].len(), 64);
    assert_eq!(built.recs[1].off, 64 + 32);
    assert_eq!(built.recs[1].framed, 88);
    for mutation in [
        Mutation::FlipCrc,
        Mutation::FlipBody,
        Mutation::ZeroRecType,
        Mutation::ExtendLength,
        Mutation::TamperPadding,
        Mutation::ReservedRecType,
    ] {
        assert!(mutation.invalidates());
        for index in 0..6 {
            for sel in [0u32, 1, 5, 17, 4_000_000_001] {
                let rec = built.recs[index];
                let mut bytes = built.bytes.clone();
                apply_mutation(&mut bytes, mutation, rec.off, rec.framed, rec.plen, sel);
                assert_ne!(bytes, built.bytes);
                bytes.resize(4096, 0);
                let class = recover_segment_classify(&bytes, 100, true, 4096, 256);
                let opened = match class {
                    SegClass::TornMidLog { .. } => Opened::Damaged,
                    SegClass::Truncated { offset, max_lsn } => Opened::Recovered {
                        oldest: 100,
                        durable: max_lsn,
                        tail: TailState::TruncatedAt { segment_base: Lsn(100), offset },
                    },
                    _ => Opened::Failed,
                };
                assert!(
                    check_outcome(opened, 100, 6, Some((index, rec.off))),
                    "{mutation:?} {index} {sel}: {class:?}"
                );
            }
        }
    }
}

#[test]
fn outcomes_that_are_wrong_are_seen() {
    let clean = |durable| Opened::Recovered { oldest: 5, durable, tail: TailState::Clean };
    assert!(check_outcome(clean(6), 5, 2, None));
    assert!(check_outcome(clean(4), 5, 2, None));
    assert!(!check_outcome(clean(3), 5, 2, None));
    assert!(!check_outcome(clean(8), 5, 2, None));
    assert!(!check_outcome(clean(5), 5, 2, Some((1, 96))));
    assert!(!check_outcome(Opened::Damaged, 5, 2, None));
    assert!(!check_outcome(Opened::Damaged, 5, 2, Some((1, 96))));
    assert!(check_outcome(Opened::Damaged, 5, 2, Some((0, 64))));
    assert!(!check_outcome(Opened::Failed, 5, 2, Some((0, 64))));
}

#[test]
fn replays_are_held_to_what_was_built() {
    let origs = vec![vec![1u8], vec![2], vec![3]];
    let good = vec![(9u64, vec![1u8]), (10, vec![2])];
    assert!(check_dense_prefix(&good, 9, 10, &origs));
    assert!(check_dense_prefix(&vec![], 9, 8, &origs));
    assert!(!check_dense_prefix(&good, 9, 11, &origs));
    assert!(!check_dense_prefix(&vec![(9, vec![1]), (11, vec![2])], 9, 10, &origs));
    assert!(!check_dense_prefix(&vec![(9, vec![1]), (10, vec![9])], 9, 10, &origs));
    assert!(!check_dense_prefix(&good, 9, 8, &origs));
}

#[test]
fn reports_read_back() {
    assert_eq!(ack_line(3, 192), "3,192\n");
    for (seq, lsn) in [(0u64, 0u64), (1, 64), (u64::MAX, u64::MAX)] {
        let line = ack_line(seq, lsn);
        assert_eq!(parse_ack(line.trim_end_matches('\n')), Some((seq, lsn)));
    }
}

#[test]
fn reports_that_were_cut_off_are_none() {
    assert_eq!(parse_ack(""), None);
    assert_eq!(parse_ack("12"), None);
    assert_eq!(parse_ack("12,"), None);
    assert_eq!(parse_ack(",12"), None);
    assert_eq!(parse_ack("1,2,3"), None);
    assert_eq!(parse_ack("1,-2"), None);
    assert_eq!(parse_ack("1,18446744073709551616"), None);
    assert_eq!(parse_ack(" 1\t,\u{3000}2\u{a0}"), Some((1, 2)));
    assert_eq!(parse_ack("+1,+2"), Some((1, 2)));
}

#[test]
fn white_space_is_that_of_unicode() {
    for c in (0..0x11_0000u32).filter_map(char::from_u32) {
        if c == ',' || c == '+' || c.is_ascii_digit() {
            continue;
        }
        let mut line = String::from("1,");
        line.push(c);
        line.push('2');
        let n = c as u32;
        let space = (0x09..=0x0d).contains(&n)
            || (0x2000..=0x200a).contains(&n)
            || [0x20, 0x85, 0xa0, 0x1680, 0x2028, 0x2029, 0x202f, 0x205f, 0x3000].contains(&n);
        assert_eq!(parse_ack(&line).is_some(), space, "{n:x}");
        assert_eq!(c.is_whitespace(), space, "{n:x}");
    }
}

#[test]
fn numbers_are_digits_within_range() {
    assert_eq!(parse_number("0"), Some(0));
    assert_eq!(parse_number("+007"), Some(7));
    assert_eq!(parse_number("18446744073709551615"), Some(u64::MAX));
    for bad in ["", "+", "-1", " 1", "1 ", "1a", "++1", "18446744073709551616", "\u{0661}"] {
        assert_eq!(parse_number(bad), None, "{bad:?}");
        assert!(bad.parse::<u64>().is_err());
    }
}

#[test]
fn capture_is_complete_only_without_gaps() {
    assert_eq!(read_capture(&vec![]), Capture::Empty);
    assert_eq!(
        read_capture(&vec![(1, 8), (2, 16), (3, 20)]),
        Capture::Complete { high_water: 20 }
    );
    // In any order; the last of several counts.
    assert_eq!(
        read_capture(&vec![(2, 5), (1, 8), (2, 16)]),
        Capture::Complete { high_water: 16 }
    );
    assert_eq!(
        read_capture(&vec![(1, 8), (2, 16), (4, 40)]),
        Capture::Gap { seq: 3, high_water: 16 }
    );
    assert_eq!(read_capture(&vec![(2, 16)]), Capture::Gap { seq: 1, high_water: 0 });
    assert_eq!(
        read_capture(&vec![(0, 1), (1, 8)]),
        Capture::Gap { seq: 1, high_water: 0 }
    );
}

#[test]
fn tags_and_payloads_tell_their_lsn() {
    assert_eq!(record_tag(42, 16), b"rec-0000000000000042".to_vec());
    assert_eq!(record_tag(42, 8), b"rec-00000042".to_vec());
    assert_eq!(record_tag(u64::MAX, 16), b"rec-18446744073709551615".to_vec());
    assert_eq!(record_tag(0, 0), b"rec-0".to_vec());
    assert_eq!(record_payload(7, 0), b"rec-0000000000000007".to_vec());
    assert_eq!(record_payload(7, 23), b"rec-0000000000000007...".to_vec());
    assert_eq!(record_payload(u64::MAX, 20), b"rec-1844674407370955".to_vec());
}

#[test]
fn verifier_finds_holes_wrong_payloads_and_losses() {
    let mut v = Verifier::new(0, 2);
    assert_eq!(v.expected, 1);
    assert_eq!(v.check(1, &record_payload(1, 64)), Ok(()));
    assert_eq!(v.finish(), Err(Finding::Lost { high_water: 2, reached: 1 }));
    assert_eq!(v.check(3, b""), Err(Finding::NotDense { expected: 2, got: 3 }));
    assert_eq!(v.check(2, b"rec-other"), Err(Finding::WrongPayload { lsn: 2 }));
    assert_eq!(v.check(2, &record_payload(2, 20)), Ok(()));
    assert_eq!(v.finish(), Ok(()));
    // Beyond what was reported anything goes.
    assert_eq!(v.check(3, b"whatever"), Ok(()));
    assert_eq!(v.finish(), Ok(()));
}

#[test]
fn workload_commits_by_batches() {
    let mut w = Workload::resume(10, 13, 2);
    assert!(w.wants_record());
    assert!(!w.appended());
    assert!(w.appended());
    assert_eq!(w.committed(), 1);
    assert!(w.wants_record());
    assert!(!w.appended());
    assert!(!w.wants_record());
    assert_eq!(w.closed(13), Some(2));
    assert_eq!(w.closed(0), None);
    // Without an end, and with every record on its own.
    let mut w = Workload::resume(0, 0, 0);
    assert!(w.wants_record());
    assert!(w.appended());
}

#[test]
fn workload_before_a_kill_commits_its_first_record() {
    let mut w = Workload::resume(0, 100, 3);
    assert!(w.appended_before_kill());
    w.committed();
    assert!(!w.appended_before_kill());
    assert!(!w.appended_before_kill());
    assert!(w.appended_before_kill());
}

#[test]
fn sinks_are_told_apart() {
    assert!(matches!(parse_sink("tcp:host:1"), Some(SinkSpec::Tcp(a)) if a == "host:1"));
    assert!(matches!(parse_sink("file:/tmp/x"), Some(SinkSpec::File(p)) if p == "/tmp/x"));
    assert!(matches!(parse_sink("serial:"), Some(SinkSpec::Serial(p)) if p.is_empty()));
    assert!(matches!(parse_sink("stdout"), Some(SinkSpec::Stdout)));
    assert!(parse_sink("stdouts").is_none());
    assert!(parse_sink("tcp").is_none());
    assert!(parse_sink("").is_none());
}

#[test]
fn settings_replace_defaults_where_they_are_numbers() {
    let d = WalConfig { segment_size: 8, max_record_size: 4 };
    let c = wal_config(Some("4096"), Some("256"), d);
    assert_eq!((c.segment_size, c.max_record_size), (4096, 256));
    let c = wal_config(Some("x"), Some("4294967296"), d);
    assert_eq!((c.segment_size, c.max_record_size), (8, 4));
    let c = wal_config(None, Some("4294967295"), d);
    assert_eq!((c.segment_size, c.max_record_size), (8, u32::MAX));
}

#[test]
fn segments_are_counted_by_their_ending() {
    let names = ["a.wal", "LOCK", ".wal", "wal", "b.wal.tmp", "00000000000000000001.wal"];
    let names: Vec<String> = names.iter().map(|n| n.to_string()).collect();
    assert_eq!(count_segments(&names), 3);
}

#[test]
fn only_a_marker_that_is_gone_passes() {
    assert_eq!(marker_exit_code(Marker::Gone), 0);
    assert_eq!(marker_exit_code(Marker::Survived), 1);
    assert_eq!(marker_exit_code(Marker::Unknown), 2);
}
