//! Recovery of one segment.
//!
//! The records of a segment are the longest run from the header on in which each
//! record carries the LSN that is due. Where the run ends cleanly, there is
//! nothing to decide. Otherwise something that is no record follows it:
//!
//! - A sealed segment was synced whole before its successor existed, so it has no
//!   torn tail, and whatever is wrong in it is corruption.
//! - In the active segment a bounded forward scan decides. A record further on
//!   whose LSN is due or later was genuine and acknowledged, and dropping it would
//!   lose it: recovery fails. Without one the rest is a torn tail, which is cut off
//!   and must be overwritten with zeros up to the end of the segment.
//!
//! Recovery is a function of the file's bytes alone, and total over them.

use vstd::prelude::*;

use crate::error::WalError;
use crate::lsn::next_lsn;
use crate::lsn::Lsn;
use crate::record::frame_len;
use crate::segment::lemma_record_fits;
use crate::segment::read_record_at;
use crate::segment::slot_at;
use crate::segment::ScanOutcome;
use crate::segment::Slot;
use crate::segment::HEADER_SIZE;

verus! {

/// Bytes by which the largest frame can exceed its payload, rounded up: the
/// record header and the padding.
pub const FRAME_OVERHEAD: u64 = 28;

/// The state of the active segment's tail on opening.
#[derive(Debug, Clone, Copy, PartialEq, Eq, Structural)]
pub enum TailState {
    /// The records ended cleanly.
    Clean,
    /// A torn tail was cut off.
    TruncatedAt {
        /// Base of the active segment.
        segment_base: Lsn,
        /// Offset at which the tail was cut.
        offset: u64,
    },
}

/// What recovering one segment found.
#[derive(Debug)]
pub struct SegmentRecovery {
    /// LSN of the last record, or the one before the base where there is none.
    pub max_lsn: Lsn,
    /// Offset just behind the last record.
    pub write_offset: u64,
    /// Whether a torn tail starts at `write_offset`. It then has to be zeroed to
    /// the end of the segment before the log is written again.
    pub tail_state: TailState,
}

/// Measures forward scans: the largest distance that any of them has gone.
#[derive(Debug, Clone, Copy)]
pub struct ScanProbe {
    /// The largest distance so far.
    pub peak: u64,
}

impl ScanProbe {
    /// A probe that has measured nothing.
    pub fn new() -> (p: ScanProbe)
        ensures
            p.peak == 0,
    {
        ScanProbe { peak: 0 }
    }

    /// Takes a distance into account.
    fn note(&mut self, distance: u64)
        ensures
            final(self).peak == larger(old(self).peak as int, distance as int),
    {
        if distance > self.peak {
            self.peak = distance;
        }
    }
}

/// The larger of two numbers.
pub open spec fn larger(a: int, b: int) -> int {
    if a < b {
        b
    } else {
        a
    }
}

/// The LSN of the record `k` places behind the record `base`.
pub open spec fn nth_lsn(base: u64, k: int) -> u64 {
    if base + k > u64::MAX {
        u64::MAX
    } else {
        (base + k) as u64
    }
}

/// The LSN of the last of `n` records from `base` on, or the one before `base`.
pub open spec fn last_lsn(base: u64, n: int) -> u64 {
    if n == 0 {
        (base - 1) as u64
    } else {
        nth_lsn(base, n - 1)
    }
}

/// A run of records that are due one after the other.
pub struct Run {
    /// The payloads, in order.
    pub payloads: Seq<Seq<u8>>,
    /// Offset behind the last of them.
    pub end: int,
    /// Whether the records end there, rather than meeting something invalid.
    pub clean: bool,
}

/// The run at offset `at`, where the record `next` is due.
pub open spec fn run(file: Seq<u8>, at: int, next: u64, size: int, max: u32) -> Run
    decreases size - at,
    when 0 <= at
{
    match slot_at(file, at, size, max) {
        Slot::Record { lsn, payload } => if lsn == next {
            proof {
                lemma_record_fits(file, at, size, max);
            }
            let rest = run(file, at + frame_len(payload.len() as int), next_lsn(next), size, max);
            Run { payloads: seq![payload] + rest.payloads, end: rest.end, clean: rest.clean }
        } else {
            Run { payloads: seq![], end: at, clean: false }
        },
        Slot::End => Run { payloads: seq![], end: at, clean: true },
        Slot::Invalid => Run { payloads: seq![], end: at, clean: false },
    }
}

/// The records of a segment.
pub open spec fn segment_run(file: Seq<u8>, base: u64, size: int, max: u32) -> Run {
    run(file, HEADER_SIZE as int, base, size, max)
}

/// How far a forward scan may look.
pub open spec fn scan_limit(max: u32) -> int {
    max + FRAME_OVERHEAD
}

/// Whether a record that is due or later stands `d` bytes into a forward scan
/// that starts behind offset `x`.
pub open spec fn continues_at(
    file: Seq<u8>,
    x: int,
    due: u64,
    size: int,
    max: u32,
    d: int,
) -> bool {
    &&& 0 <= d <= scan_limit(max)
    &&& d % 8 == 0
    &&& slot_at(file, x + 8 + d, size, max) matches Slot::Record { lsn, .. } && lsn >= due
}

/// Whether a forward scan finds such a record.
pub open spec fn continues_ahead(file: Seq<u8>, x: int, due: u64, size: int, max: u32) -> bool {
    exists|d: int| continues_at(file, x, due, size, max, d)
}

/// Whether the first such record stands `d` bytes into the scan.
pub open spec fn first_continues_at(
    file: Seq<u8>,
    x: int,
    due: u64,
    size: int,
    max: u32,
    d: int,
) -> bool {
    &&& continues_at(file, x, due, size, max, d)
    &&& forall|e: int| continues_at(file, x, due, size, max, e) ==> d <= e
}

/// How far a forward scan goes: to the first such record, or to its limit.
pub open spec fn scan_reach(file: Seq<u8>, x: int, due: u64, size: int, max: u32) -> int {
    if continues_ahead(file, x, due, size, max) {
        choose|d: int| first_continues_at(file, x, due, size, max, d)
    } else {
        scan_limit(max) - scan_limit(max) % 8
    }
}

/// What recovery makes of a segment.
pub enum Verdict {
    /// Its records end cleanly.
    Clean { max_lsn: u64, end: int },
    /// It has a torn tail.
    Truncated { max_lsn: u64, end: int },
    /// A record follows something that is none.
    TornMidLog { at: int },
    /// Something that is no record stands in a sealed segment.
    Corruption { at: int },
}

/// The verdict on the segment at `base`.
pub open spec fn verdict(file: Seq<u8>, base: u64, active: bool, size: int, max: u32) -> Verdict {
    let r = segment_run(file, base, size, max);
    let n = r.payloads.len() as int;
    if r.clean {
        Verdict::Clean { max_lsn: last_lsn(base, n), end: r.end }
    } else if !active {
        Verdict::Corruption { at: r.end }
    } else if continues_ahead(file, r.end, nth_lsn(base, n), size, max) {
        Verdict::TornMidLog { at: r.end }
    } else {
        Verdict::Truncated { max_lsn: last_lsn(base, n), end: r.end }
    }
}

/// Whether `r` reports verdict `v` on the segment at `base`.
pub open spec fn reports(r: Result<SegmentRecovery, WalError>, base: u64, v: Verdict) -> bool {
    match v {
        Verdict::Clean { max_lsn, end } => r matches Ok(rec) && rec.max_lsn.0 == max_lsn
            && rec.write_offset == end && rec.tail_state == TailState::Clean,
        Verdict::Truncated { max_lsn, end } => r matches Ok(rec) && rec.max_lsn.0 == max_lsn
            && rec.write_offset == end && rec.tail_state == (TailState::TruncatedAt {
            segment_base: Lsn(base),
            offset: end as u64,
        }),
        Verdict::TornMidLog { at } => r matches Err(WalError::TornMidLog { segment, offset })
            && segment.0 == base && offset == at,
        Verdict::Corruption { at } => r matches Err(
            WalError::Corruption { segment, offset, detail },
        ) && segment.0 == base && offset == at && detail@ == "invalid record in sealed segment"@,
    }
}

/// The largest distance that a forward scan goes.
#[must_use]
pub fn scan_bound(max_record_size: u32) -> (n: u64)
    ensures
        n == scan_limit(max_record_size),
{
    max_record_size as u64 + FRAME_OVERHEAD
}

/// The fixed parameters of one segment's recovery.
struct RecoverCtx {
    base_lsn: Lsn,
    is_active: bool,
    segment_size: u64,
    max_record_size: u32,
}

/// Recovers the records of the segment at `base_lsn`, whose header the caller has
/// validated and whose file holds `file`.
pub fn recover_segment(
    file: &[u8],
    base_lsn: Lsn,
    is_active: bool,
    segment_size: u64,
    max_record_size: u32,
    probe: &mut ScanProbe,
) -> (r: Result<SegmentRecovery, WalError>)
    requires
        base_lsn.0 >= 1,
    ensures
        reports(
            r,
            base_lsn.0,
            verdict(file@, base_lsn.0, is_active, segment_size as int, max_record_size),
        ),
        ({
            let found = segment_run(file@, base_lsn.0, segment_size as int, max_record_size);
            final(probe).peak == if found.clean || !is_active {
                old(probe).peak as int
            } else {
                larger(
                    old(probe).peak as int,
                    scan_reach(
                        file@,
                        found.end,
                        nth_lsn(base_lsn.0, found.payloads.len() as int),
                        segment_size as int,
                        max_record_size,
                    ),
                )
            }
        }),
{
    let ctx = RecoverCtx { base_lsn, is_active, segment_size, max_record_size };
    let ghost size = segment_size as int;
    let ghost whole = segment_run(file@, base_lsn.0, size, max_record_size);
    let ghost mut seen: Seq<Seq<u8>> = seq![];
    let mut offset: u64 = HEADER_SIZE;
    let mut expected: Lsn = base_lsn;
    let mut last_valid: Lsn = Lsn(base_lsn.0 - 1);
    assert(seen + whole.payloads =~= whole.payloads);
    loop
        invariant
            ctx.base_lsn == base_lsn,
            ctx.is_active == is_active,
            ctx.segment_size == segment_size,
            ctx.max_record_size == max_record_size,
            size == segment_size,
            base_lsn.0 >= 1,
            *probe == *old(probe),
            whole == segment_run(file@, base_lsn.0, size, max_record_size),
            ({
                let rest = run(file@, offset as int, expected.0, size, max_record_size);
                &&& whole.payloads == seen + rest.payloads
                &&& whole.end == rest.end
                &&& whole.clean == rest.clean
            }),
            expected.0 == nth_lsn(base_lsn.0, seen.len() as int),
            last_valid.0 == last_lsn(base_lsn.0, seen.len() as int),
        decreases segment_size - offset,
    {
        let ghost rest = run(file@, offset as int, expected.0, size, max_record_size);
        match read_record_at(file, offset, segment_size, max_record_size) {
            ScanOutcome::Record { lsn, payload, framed_len } => {
                if lsn.0 != expected.0 {
                    assert(seen + rest.payloads =~= seen);
                    return classify(file, &ctx, offset, expected, last_valid, probe);
                }
                proof {
                    let after = run(
                        file@,
                        offset + framed_len,
                        next_lsn(expected.0),
                        size,
                        max_record_size,
                    );
                    assert(seen + (seq![payload@] + after.payloads) =~= seen.push(payload@)
                        + after.payloads);
                    seen = seen.push(payload@);
                }
                last_valid = lsn;
                offset = offset + framed_len as u64;
                expected = lsn.next();
            },
            ScanOutcome::CleanEnd => {
                assert(seen + rest.payloads =~= seen);
                return Ok(
                    SegmentRecovery {
                        max_lsn: last_valid,
                        write_offset: offset,
                        tail_state: TailState::Clean,
                    },
                );
            },
            ScanOutcome::Invalid => {
                assert(seen + rest.payloads =~= seen);
                return classify(file, &ctx, offset, expected, last_valid, probe);
            },
        }
    }
}

/// Decides what an invalid record at offset `x` means.
fn classify(
    file: &[u8],
    ctx: &RecoverCtx,
    x: u64,
    expected: Lsn,
    last_valid: Lsn,
    probe: &mut ScanProbe,
) -> (r: Result<SegmentRecovery, WalError>)
    ensures
        reports(
            r,
            ctx.base_lsn.0,
            if !ctx.is_active {
                Verdict::Corruption { at: x as int }
            } else if continues_ahead(
                file@,
                x as int,
                expected.0,
                ctx.segment_size as int,
                ctx.max_record_size,
            ) {
                Verdict::TornMidLog { at: x as int }
            } else {
                Verdict::Truncated { max_lsn: last_valid.0, end: x as int }
            },
        ),
        final(probe).peak == if ctx.is_active {
            larger(
                old(probe).peak as int,
                scan_reach(
                    file@,
                    x as int,
                    expected.0,
                    ctx.segment_size as int,
                    ctx.max_record_size,
                ),
            )
        } else {
            old(probe).peak as int
        },
{
    if !ctx.is_active {
        return Err(
            WalError::Corruption {
                segment: ctx.base_lsn,
                offset: x,
                detail: "invalid record in sealed segment",
            },
        );
    }
    if forward_scan_finds_valid(file, ctx, x, expected, probe) {
        return Err(WalError::TornMidLog { segment: ctx.base_lsn, offset: x });
    }
    Ok(
        SegmentRecovery {
            max_lsn: last_valid,
            write_offset: x,
            tail_state: TailState::TruncatedAt { segment_base: ctx.base_lsn, offset: x },
        },
    )
}

/// Looks for a record that is due or later, in steps of 8 bytes from `x + 8` on,
/// over at most `scan_bound` bytes. When the record at `x` is itself a damaged
/// one, the next genuine record carries the LSN after the one that is due.
fn forward_scan_finds_valid(
    file: &[u8],
    ctx: &RecoverCtx,
    x: u64,
    expected: Lsn,
    probe: &mut ScanProbe,
) -> (found: bool)
    ensures
        found == continues_ahead(
            file@,
            x as int,
            expected.0,
            ctx.segment_size as int,
            ctx.max_record_size,
        ),
        final(probe).peak == larger(
            old(probe).peak as int,
            scan_reach(
                file@,
                x as int,
                expected.0,
                ctx.segment_size as int,
                ctx.max_record_size,
            ),
        ),
{
    let bound: u64 = scan_bound(ctx.max_record_size);
    let ghost size = ctx.segment_size as int;
    let ghost max = ctx.max_record_size;
    let mut d: u64 = 0;
    while d <= bound
        invariant
            bound == scan_limit(max),
            size == ctx.segment_size,
            max == ctx.max_record_size,
            d % 8 == 0,
            d <= bound + 8,
            probe.peak == if d == 0 {
                old(probe).peak as int
            } else {
                larger(old(probe).peak as int, d - 8)
            },
            forall|e: int| 0 <= e < d ==> !continues_at(file@, x as int, expected.0, size, max, e),
        decreases bound + 8 - d,
    {
        probe.note(d);
        let p: u64 = x.saturating_add(8).saturating_add(d);
        if let ScanOutcome::Record { lsn, .. } = read_record_at(
            file,
            p,
            ctx.segment_size,
            ctx.max_record_size,
        ) {
            if lsn.0 >= expected.0 {
                proof {
                    assert(first_continues_at(file@, x as int, expected.0, size, max, d as int));
                    let first = scan_reach(file@, x as int, expected.0, size, max);
                    assert(first_continues_at(file@, x as int, expected.0, size, max, first));
                }
                return true;
            }
        }
        assert(!continues_at(file@, x as int, expected.0, size, max, d as int));
        assert forall|e: int| 0 <= e < d + 8 implies !continues_at(
            file@,
            x as int,
            expected.0,
            size,
            max,
            e,
        ) by {
            if e > d {
                assert(e % 8 != 0);
            }
        }
        d = d + 8;
    }
    false
}

} // verus!
