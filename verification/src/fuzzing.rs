//! Hooks for fuzzing and differential testing.
//!
//! The way to test recovery is to open a log over a hostile directory. These hooks
//! serve beside it: they measure forward scans, decode single records, classify
//! single segments, and generate valid bytes.

use vstd::prelude::*;

use crate::error::WalError;
use crate::image::law_scan_is_bounded;
use crate::lsn::Lsn;
use crate::record::decode;
use crate::record::encode_into;
use crate::record::frame;
use crate::record::frame_len;
use crate::record::parse;
use crate::record::Decoded;
use crate::record::Parsed;
use crate::recovery::nth_lsn;
use crate::recovery::recover_segment;
use crate::recovery::scan_limit;
use crate::recovery::scan_reach;
use crate::recovery::segment_run;
use crate::recovery::verdict;
use crate::recovery::ScanProbe;
use crate::recovery::TailState;
use crate::recovery::Verdict;
use crate::segment::encode_header;
use crate::segment::header;
use crate::segment::HEADER_SIZE;

verus! {

/// Decodes one record from any bytes: the lengths of its payload and its frame, or
/// `None` where there is no record.
#[must_use]
pub fn decode_record(buf: &[u8], max_record_size: u32) -> (r: Option<(usize, usize)>)
    ensures
        match parse(buf@, max_record_size) {
            Parsed::Record { payload, .. } => r matches Some((payload_len, framed_len))
                && payload_len == payload.len() && framed_len == frame_len(payload.len() as int),
            _ => r is None,
        },
        r matches Some((payload_len, framed_len)) ==> payload_len <= max_record_size && framed_len
            <= buf@.len(),
{
    reveal(parse);
    match decode(buf, max_record_size) {
        Decoded::Record { payload, framed_len, .. } => Some((payload.len(), framed_len)),
        _ => None,
    }
}

/// The base that stands for `base_lsn`: the reserved LSN becomes the first one.
pub open spec fn legal_base(base_lsn: u64) -> u64 {
    if base_lsn == 0 {
        1
    } else {
        base_lsn
    }
}

/// Recovers one segment from the bytes of its file, measures the forward scan from
/// zero, and says whether recovery succeeded.
#[must_use]
pub fn recover_segment_probe(
    file: &[u8],
    base_lsn: u64,
    is_active: bool,
    segment_size: u64,
    max_record_size: u32,
    probe: &mut ScanProbe,
) -> (ok: bool)
    ensures
        ok == match verdict(
            file@,
            legal_base(base_lsn),
            is_active,
            segment_size as int,
            max_record_size,
        ) {
            Verdict::Clean { .. } => true,
            Verdict::Truncated { .. } => true,
            _ => false,
        },
        ({
            let base = legal_base(base_lsn);
            let found = segment_run(file@, base, segment_size as int, max_record_size);
            final(probe).peak == if found.clean || !is_active {
                0
            } else {
                scan_reach(
                    file@,
                    found.end,
                    nth_lsn(base, found.payloads.len() as int),
                    segment_size as int,
                    max_record_size,
                )
            }
        }),
        final(probe).peak <= scan_limit(max_record_size),
{
    scan_probe_reset(probe);
    let base = if base_lsn == 0 {
        Lsn::first()
    } else {
        Lsn(base_lsn)
    };
    proof {
        let found = segment_run(file@, base.0, segment_size as int, max_record_size);
        law_scan_is_bounded(
            file@,
            found.end,
            nth_lsn(base.0, found.payloads.len() as int),
            segment_size as int,
            max_record_size,
        );
    }
    match recover_segment(file, base, is_active, segment_size, max_record_size, probe) {
        Ok(_) => true,
        Err(_) => false,
    }
}

/// The largest distance that a forward scan goes.
#[must_use]
pub fn scan_bound(max_record_size: u32) -> (n: u64)
    ensures
        n == scan_limit(max_record_size),
{
    crate::recovery::scan_bound(max_record_size)
}

/// Forgets what the probe has measured.
pub fn scan_probe_reset(probe: &mut ScanProbe)
    ensures
        final(probe).peak == 0,
{
    probe.peak = 0;
}

/// The largest distance of a forward scan since the last reset.
#[must_use]
pub fn scan_probe_peak(probe: &ScanProbe) -> (peak: u64)
    ensures
        peak == probe.peak,
{
    probe.peak
}

/// The header of the segment at `base_lsn`, with no time of creation.
#[must_use]
pub fn segment_header_bytes(base_lsn: u64) -> (h: Vec<u8>)
    ensures
        h@ == header(base_lsn, 0),
        h@.len() == HEADER_SIZE,
{
    encode_header(Lsn(base_lsn), 0)
}

/// Appends the frame of one record to `buf` and returns the frame's length.
pub fn encode_record_into(buf: &mut Vec<u8>, lsn: u64, payload: &[u8]) -> (framed: usize)
    requires
        payload@.len() <= u32::MAX,
    ensures
        final(buf)@ == old(buf)@ + frame(lsn, payload@),
        framed == frame_len(payload@.len() as int),
{
    encode_into(buf, Lsn(lsn), payload)
}

/// What recovery makes of one segment, as a plain value.
#[derive(Debug, Clone, Copy, PartialEq, Eq, Structural)]
pub enum SegClass {
    /// The records end cleanly, with `max_lsn` as the last one.
    Clean {
        /// LSN of the last record, or the one before the base.
        max_lsn: u64,
    },
    /// A torn tail of the active segment was cut off at `offset`.
    Truncated {
        /// Where the torn tail starts.
        offset: u64,
        /// LSN of the last record before it.
        max_lsn: u64,
    },
    /// A record follows something that is none.
    TornMidLog {
        /// Where the damage starts.
        offset: u64,
    },
    /// A sealed segment holds something that is no record.
    Corruption {
        /// Where the damage starts.
        offset: u64,
    },
    /// Any other error.
    OtherErr,
}

/// Recovers one segment from the bytes of its file and says what came of it. It is
/// never `OtherErr`.
#[must_use]
pub fn recover_segment_classify(
    file: &[u8],
    base_lsn: u64,
    is_active: bool,
    segment_size: u64,
    max_record_size: u32,
) -> (class: SegClass)
    ensures
        class == match verdict(
            file@,
            legal_base(base_lsn),
            is_active,
            segment_size as int,
            max_record_size,
        ) {
            Verdict::Clean { max_lsn, .. } => SegClass::Clean { max_lsn },
            Verdict::Truncated { max_lsn, end } => SegClass::Truncated {
                offset: end as u64,
                max_lsn,
            },
            Verdict::TornMidLog { at } => SegClass::TornMidLog { offset: at as u64 },
            Verdict::Corruption { at } => SegClass::Corruption { offset: at as u64 },
        },
{
    let base = if base_lsn == 0 {
        Lsn::first()
    } else {
        Lsn(base_lsn)
    };
    let mut probe = ScanProbe::new();
    match recover_segment(file, base, is_active, segment_size, max_record_size, &mut probe) {
        Ok(rec) => match rec.tail_state {
            TailState::Clean => SegClass::Clean { max_lsn: rec.max_lsn.0 },
            TailState::TruncatedAt { offset, .. } => SegClass::Truncated {
                offset,
                max_lsn: rec.max_lsn.0,
            },
        },
        Err(WalError::TornMidLog { offset, .. }) => SegClass::TornMidLog { offset },
        Err(WalError::Corruption { offset, .. }) => SegClass::Corruption { offset },
        Err(_) => SegClass::OtherErr,
    }
}

} // verus!
