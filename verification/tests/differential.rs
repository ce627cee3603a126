//! A second, slow classifier of segments, compared with the library's.

use open_wal::crc32c;
use open_wal::fuzzing::encode_record_into;
use open_wal::fuzzing::recover_segment_classify;
use open_wal::fuzzing::segment_header_bytes;
use open_wal::fuzzing::SegClass;

const HEADER_SIZE: usize = 64;
const REC_HEADER: usize = 20;
const CRC_OFF: usize = 0;
const LEN_OFF: usize = 4;
const LSN_OFF: usize = 8;
const REC_TYPE_OFF: usize = 16;
const REC_TYPE_FULL: u8 = 1;

fn ref_padding(payload_len: u64) -> u64 {
    (8 - ((REC_HEADER as u64 + payload_len) % 8)) % 8
}

fn ref_scan_bound(max_record_size: u32) -> u64 {
    u64::from(max_record_size) + 28
}

enum RScan {
    Record { lsn: u64, framed: u64 },
    CleanEnd,
    Invalid,
}

fn ref_read_record_at(bytes: &[u8], offset: u64, segment_size: u64, max_record_size: u32) -> RScan {
    let remaining = segment_size.saturating_sub(offset);
    if remaining < REC_HEADER as u64 {
        return RScan::CleanEnd;
    }
    let off = offset as usize;
    let header = match bytes.get(off..off + REC_HEADER) {
        Some(h) => h,
        None => return RScan::Invalid,
    };
    if header.iter().all(|&b| b == 0) {
        return RScan::CleanEnd;
    }
    let length = u32::from_le_bytes(header[LEN_OFF..LEN_OFF + 4].try_into().unwrap());
    if length > max_record_size {
        return RScan::Invalid;
    }
    let framed = REC_HEADER as u64 + u64::from(length) + ref_padding(u64::from(length));
    if framed > remaining {
        return RScan::Invalid;
    }
    let full = match bytes.get(off..off + framed as usize) {
        Some(f) => f,
        None => return RScan::Invalid,
    };
    let stored = u32::from_le_bytes(full[CRC_OFF..CRC_OFF + 4].try_into().unwrap());
    if crc32c(&full[LEN_OFF..framed as usize]) != stored {
        return RScan::Invalid;
    }
    if full[REC_TYPE_OFF] != REC_TYPE_FULL {
        return RScan::Invalid;
    }
    let lsn = u64::from_le_bytes(full[LSN_OFF..LSN_OFF + 8].try_into().unwrap());
    RScan::Record { lsn, framed }
}

fn ref_forward_scan_finds_valid(
    bytes: &[u8],
    x: u64,
    expected: u64,
    segment_size: u64,
    max_record_size: u32,
) -> bool {
    let bound = ref_scan_bound(max_record_size);
    let start = x.saturating_add(8);
    let end = start.saturating_add(bound);
    let mut p = start;
    while p <= end {
        if let RScan::Record { lsn, .. } =
            ref_read_record_at(bytes, p, segment_size, max_record_size)
        {
            if lsn >= expected {
                return true;
            }
        }
        p += 8;
    }
    false
}

fn reference_classify(
    bytes: &[u8],
    base_lsn: u64,
    is_active: bool,
    segment_size: u64,
    max_record_size: u32,
) -> SegClass {
    let base = base_lsn.max(1);
    let mut offset = HEADER_SIZE as u64;
    let mut expected = base;
    let mut last_valid = base - 1;

    loop {
        match ref_read_record_at(bytes, offset, segment_size, max_record_size) {
            RScan::Record { lsn, framed } => {
                if lsn != expected {
                    return ref_classify_boundary(
                        bytes,
                        base,
                        is_active,
                        segment_size,
                        max_record_size,
                        offset,
                        expected,
                        last_valid,
                    );
                }
                last_valid = lsn;
                offset += framed;
                expected = lsn + 1;
            }
            RScan::CleanEnd => {
                return SegClass::Clean {
                    max_lsn: last_valid,
                };
            }
            RScan::Invalid => {
                return ref_classify_boundary(
                    bytes,
                    base,
                    is_active,
                    segment_size,
                    max_record_size,
                    offset,
                    expected,
                    last_valid,
                );
            }
        }
    }
}

fn ref_classify_boundary(
    bytes: &[u8],
    _base: u64,
    is_active: bool,
    segment_size: u64,
    max_record_size: u32,
    x: u64,
    expected: u64,
    last_valid: u64,
) -> SegClass {
    if !is_active {
        return SegClass::Corruption { offset: x };
    }
    if ref_forward_scan_finds_valid(bytes, x, expected, segment_size, max_record_size) {
        SegClass::TornMidLog { offset: x }
    } else {
        SegClass::Truncated {
            offset: x,
            max_lsn: last_valid,
        }
    }
}


struct Harness {
    checked: usize,
}

impl Harness {
    fn new() -> Self {
        Harness { checked: 0 }
    }

    fn check(&mut self, label: &str, bytes: &[u8], base: u64, is_active: bool, seg: u64, max: u32) {
        let prod = recover_segment_classify(bytes, base, is_active, seg, max);
        let reference = reference_classify(bytes, base, is_active, seg, max);
        assert_eq!(
            prod, reference,
            "DIVERGENCE [{label}] active={is_active} base={base} seg={seg} max={max}: \
             production={prod:?} reference={reference:?}"
        );
        self.checked += 1;
    }
}

fn framed_size(payload_len: usize) -> usize {
    REC_HEADER + payload_len + ref_padding(payload_len as u64) as usize
}

fn build_segment(base: u64, payloads: &[&[u8]]) -> (Vec<u8>, Vec<usize>) {
    let mut bytes = segment_header_bytes(base);
    let mut offsets = Vec::new();
    for (i, p) in payloads.iter().enumerate() {
        offsets.push(bytes.len());
        encode_record_into(&mut bytes, base + i as u64, p);
    }
    (bytes, offsets)
}

fn refix_crc(bytes: &mut [u8], off: usize, framed: usize) {
    let crc = crc32c(&bytes[off + 4..off + framed]);
    bytes[off..off + 4].copy_from_slice(&crc.to_le_bytes());
}

fn scenario_cases(h: &mut Harness) {
    let configs: &[(u64, u32)] = &[(4096, 256), (65536, 4096)];

    for &(seg, max) in configs {
        let base = 1u64;
        let pcap = (max as usize).min(48);
        let p = |n: usize| vec![0xABu8; n.min(pcap)];
        let sizes = [0usize, 1, 7, 8, 20, pcap];

        {
            let mut bytes = segment_header_bytes(base);
            bytes.resize(seg as usize, 0);
            for &active in &[true, false] {
                h.check("empty", &bytes, base, active, seg, max);
            }
        }

        for k in 1..=5usize {
            for &sz in &sizes {
                let pl: Vec<Vec<u8>> = (0..k).map(|_| p(sz)).collect();
                let refs: Vec<&[u8]> = pl.iter().map(|v| v.as_slice()).collect();
                let (mut bytes, _offs) = build_segment(base, &refs);
                if bytes.len() > seg as usize {
                    continue;
                }
                bytes.resize(seg as usize, 0);
                for &active in &[true, false] {
                    h.check("clean-run", &bytes, base, active, seg, max);
                }
            }
        }

        for kind in [
            "flip_crc",
            "zero_rectype",
            "extend_len",
            "reserved_type",
            "flip_pad",
        ] {
            let pl = [p(8), p(8), p(8)];
            let refs: Vec<&[u8]> = pl.iter().map(|v| v.as_slice()).collect();
            let (mut bytes, offs) = build_segment(base, &refs);
            let last = *offs.last().unwrap();
            let framed = framed_size(8);
            match kind {
                "flip_crc" => bytes[last] ^= 0xFF,
                "zero_rectype" => bytes[last + REC_TYPE_OFF] = 0,
                "extend_len" => {
                    let nl = 8u32.wrapping_add(8);
                    bytes[last + 4..last + 8].copy_from_slice(&nl.to_le_bytes());
                }
                "reserved_type" => {
                    bytes[last + REC_TYPE_OFF] = 2;
                    refix_crc(&mut bytes, last, framed);
                }
                "flip_pad" => {
                    bytes[last + REC_HEADER + 8] ^= 0xFF;
                }
                _ => unreachable!(),
            }
            bytes.resize(seg as usize, 0);
            for &active in &[true, false] {
                h.check(&format!("torn-last-{kind}"), &bytes, base, active, seg, max);
            }
        }

        for kind in ["flip_crc", "zero_rectype"] {
            let pl = [p(8), p(8), p(8)];
            let refs: Vec<&[u8]> = pl.iter().map(|v| v.as_slice()).collect();
            let (mut bytes, offs) = build_segment(base, &refs);
            let mid = offs[1];
            match kind {
                "flip_crc" => bytes[mid] ^= 0xFF,
                "zero_rectype" => bytes[mid + REC_TYPE_OFF] = 0,
                _ => unreachable!(),
            }
            bytes.resize(seg as usize, 0);
            for &active in &[true, false] {
                h.check(&format!("interior-{kind}"), &bytes, base, active, seg, max);
            }
        }

        {
            let (mut bytes, offs) = build_segment(base, &[&p(8), &p(8)]);
            let mut rec = segment_header_bytes(base);
            rec.clear();
            encode_record_into(&mut rec, base + 5, &p(8));
            let at = offs[1];
            bytes[at..at + rec.len()].copy_from_slice(&rec);
            bytes.resize(seg as usize, 0);
            for &active in &[true, false] {
                h.check("lsn-gap", &bytes, base, active, seg, max);
            }
        }

        {
            let (mut bytes, offs) = build_segment(base, &[&p(8), &p(8)]);
            let at = offs[1];
            for b in &mut bytes[at..at + REC_HEADER] {
                *b = 0;
            }
            bytes.resize(seg as usize, 0);
            for &active in &[true, false] {
                h.check("mid-sentinel", &bytes, base, active, seg, max);
            }
        }

        {
            let (bytes, offs) = build_segment(base, &[&p(8), &p(8), &p(8)]);
            let last = *offs.last().unwrap();
            let cut = last + REC_HEADER + 2;
            let short = bytes[..cut.min(bytes.len())].to_vec();
            for &active in &[true, false] {
                h.check("phys-truncated", &short, base, active, seg, max);
            }
        }

        for within in [true, false] {
            let (mut bytes, offs) = build_segment(base, &[&p(8)]);
            let x = offs[0] + framed_size(8);
            let mut torn = Vec::new();
            encode_record_into(&mut torn, base + 1, &p(4));
            torn[0] ^= 0xFF;
            if x + torn.len() <= seg as usize {
                bytes.resize(x, 0);
                bytes.extend_from_slice(&torn);
            }
            let bound = ref_scan_bound(max);
            let end = (x as u64) + 8 + bound;
            let cont_off = if within {
                ((end / 8) * 8) as usize
            } else {
                (((end / 8) * 8) + 8) as usize
            };
            let mut cont = Vec::new();
            encode_record_into(&mut cont, base + 1, &p(8));
            let needed = cont_off + cont.len();
            if needed <= seg as usize {
                if bytes.len() < needed {
                    bytes.resize(needed, 0);
                }
                bytes[cont_off..cont_off + cont.len()].copy_from_slice(&cont);
                bytes.resize(seg as usize, 0);
                for &active in &[true, false] {
                    let label = if within {
                        "cont-within-bound"
                    } else {
                        "cont-beyond-bound"
                    };
                    h.check(label, &bytes, base, active, seg, max);
                }
            }
        }

        {
            let (mut bytes, offs) = build_segment(base, &[&p(8), &p(8)]);
            let at = offs[0];
            bytes[at + REC_TYPE_OFF] = 3;
            refix_crc(&mut bytes, at, framed_size(8));
            bytes.resize(seg as usize, 0);
            for &active in &[true, false] {
                h.check("reserved-interior", &bytes, base, active, seg, max);
            }
        }

        {
            let (mut bytes, offs) = build_segment(base, &[&p(8), &p(8)]);
            let at = offs[0];
            let huge = max.wrapping_add(1);
            bytes[at + 4..at + 8].copy_from_slice(&huge.to_le_bytes());
            bytes.resize(seg as usize, 0);
            for &active in &[true, false] {
                h.check("len-over-max", &bytes, base, active, seg, max);
            }
        }

        {
            let b2 = 1000u64;
            let (mut bytes, offs) = build_segment(b2, &[&p(8), &p(8)]);
            let last = *offs.last().unwrap();
            bytes[last] ^= 0xFF;
            bytes.resize(seg as usize, 0);
            for &active in &[true, false] {
                h.check("nonone-base-torn", &bytes, b2, active, seg, max);
            }
        }
    }
}

#[test]
fn differential_scenario_matrix() {
    let mut h = Harness::new();
    scenario_cases(&mut h);
    assert!(
        h.checked > 100,
        "expected a broad scenario matrix, ran {}",
        h.checked
    );
    println!("differential scenario matrix: {} cases agreed", h.checked);
}

#[test]
fn differential_over_pseudo_random_bodies() {
    let mut h = Harness::new();
    let mut state = 12345u64;
    let mut rand = |n: u64| {
        state = state.wrapping_mul(6364136223846793005).wrapping_add(1442695040888963407);
        (state >> 33) % n
    };
    for _ in 0..3000 {
        let (seg, max) = (1024u64, 128u32);
        let mut bytes = segment_header_bytes(7);
        for i in 0..rand(6) {
            let len = rand(129) as usize;
            let payload: Vec<u8> = (0..len).map(|_| rand(256) as u8).collect();
            encode_record_into(&mut bytes, 7 + i, &payload);
        }
        if rand(4) > 0 {
            bytes.resize(seg as usize, 0);
        }
        for _ in 0..rand(4) {
            let at = 64 + rand(bytes.len() as u64 - 63) as usize;
            if at < bytes.len() {
                bytes[at] ^= 1 << rand(8);
            }
        }
        for active in [true, false] {
            h.check("random", &bytes, 7, active, seg, max);
        }
    }
}
