//! Recovery of a segment: what it makes of the bytes of a file.

use vstd::prelude::*;

use crate::crc::crc32c_of;
use crate::error::WalError;
use crate::fuzzing::recover_segment_classify;
use crate::fuzzing::recover_segment_probe;
use crate::fuzzing::scan_probe_peak;
use crate::fuzzing::scan_probe_reset;
use crate::fuzzing::SegClass;
use crate::image::law_scan_is_bounded;
use crate::lsn::next_lsn;
use crate::lsn::Lsn;
use crate::promises::codec::all_zero;
use crate::promises::codec::framed;
use crate::promises::codec::lemma_framed;
use crate::promises::codec::lemma_number_at;
use crate::promises::codec::record_bytes;
use crate::promises::writing::total_framed;
use crate::record::parse;
use crate::record::zeros;
use crate::recovery::continues_ahead;
use crate::recovery::continues_at;
use crate::recovery::first_continues_at;
use crate::recovery::nth_lsn;
use crate::recovery::recover_segment;
use crate::recovery::run;
use crate::recovery::scan_bound;
use crate::recovery::scan_reach;
use crate::recovery::segment_run;
use crate::recovery::Run;
use crate::recovery::ScanProbe;
use crate::recovery::SegmentRecovery;
use crate::recovery::TailState;
use crate::segment::lemma_record_fits;
use crate::segment::read_record_at;
use crate::segment::slot_at;
use crate::segment::ScanOutcome;
use crate::segment::Slot;

verus! {

/// Whether the record `lsn` stands at `at` of a segment: its bytes are there, under a
/// checksum that matches, within the segment, and its payload within the bound.
pub open spec fn record_at(
    file: Seq<u8>,
    at: int,
    size: int,
    max: u32,
    lsn: u64,
    payload: Seq<u8>,
) -> bool {
    let end = at + framed(payload.len() as int);
    &&& payload.len() <= max
    &&& end <= size
    &&& record_bytes(file, at, lsn, payload, crc32c_of(file.subrange(at + 4, end)))
}

/// Whether no record `lsn` stands at `at` of a segment.
pub open spec fn no_record_at(file: Seq<u8>, at: int, size: int, max: u32, lsn: u64) -> bool {
    forall|payload: Seq<u8>| !record_at(file, at, size, max, lsn, payload)
}

/// Whether the records end at `at`: no record header fits into the segment any more, or
/// one full of zeros stands there.
pub open spec fn ends_at(file: Seq<u8>, at: int, size: int) -> bool {
    ||| size - at < 20
    ||| at + 20 <= file.len() && all_zero(file, at, at + 20)
}

/// What stands at an offset, by the bytes there.
pub proof fn lemma_slot_by_bytes(file: Seq<u8>, at: int, size: int, max: u32)
    requires
        0 <= at,
    ensures
        slot_at(file, at, size, max) is End <==> ends_at(file, at, size),
        forall|lsn: u64, payload: Seq<u8>|
            slot_at(file, at, size, max) == (Slot::Record { lsn, payload }) <==> #[trigger] record_at(
                file,
                at,
                size,
                max,
                lsn,
                payload,
            ),
{
    if at + 20 <= file.len() {
        let head = file.subrange(at, at + 20);
        if all_zero(file, at, at + 20) {
            assert(head =~= zeros(20));
        } else {
            let i = choose|i: int| at <= i < at + 20 && file[i] != 0;
            assert(head[i - at] == file[i]);
            assert(zeros(20)[i - at] == 0);
        }
    }
    assert forall|lsn: u64, payload: Seq<u8>|
        slot_at(file, at, size, max) == (Slot::Record { lsn, payload }) <==> #[trigger] record_at(
            file,
            at,
            size,
            max,
            lsn,
            payload,
        ) by {
        if slot_at(file, at, size, max) == (Slot::Record { lsn, payload }) {
            lemma_record_has_bytes(file, at, size, max);
        }
        if record_at(file, at, size, max, lsn, payload) {
            lemma_bytes_are_record(file, at, size, max, lsn, payload);
        }
    }
}

/// A record has its bytes.
proof fn lemma_record_has_bytes(file: Seq<u8>, at: int, size: int, max: u32)
    requires
        0 <= at,
        slot_at(file, at, size, max) is Record,
    ensures
        record_at(
            file,
            at,
            size,
            max,
            slot_at(file, at, size, max)->lsn,
            slot_at(file, at, size, max)->payload,
        ),
{
    reveal(parse);
    lemma_record_fits(file, at, size, max);
    let payload = slot_at(file, at, size, max)->payload;
    let end = if file.len() < size {
        file.len() as int
    } else {
        size
    };
    let buf = file.subrange(at, end);
    let n = framed(payload.len() as int);
    lemma_framed(payload.len() as int);
    lemma_number_in(file, at, end, 0, 4);
    lemma_number_in(file, at, end, 4, 4);
    lemma_number_in(file, at, end, 8, 8);
    lemma_number_at(buf, 0);
    lemma_number_at(buf, 4);
    lemma_number_at(buf, 8);
    assert(buf.subrange(4, n) =~= file.subrange(at + 4, at + n));
    assert forall|i: int| 0 <= i < payload.len() implies #[trigger] payload[i] == file[at + 20
        + i] by {
        assert(payload == buf.subrange(20, 20 + payload.len() as int));
    }
}

/// A number within a part.
proof fn lemma_number_in(s: Seq<u8>, at: int, end: int, i: int, n: nat)
    requires
        0 <= at <= end <= s.len(),
        0 <= i,
        at + i + n <= end,
    ensures
        crate::promises::codec::number_at(s.subrange(at, end), i, n)
            == crate::promises::codec::number_at(s, at + i, n),
    decreases n,
{
    if n > 0 {
        lemma_number_in(s, at, end, i + 1, (n - 1) as nat);
    }
}

/// The bytes of a record are that record.
proof fn lemma_bytes_are_record(
    file: Seq<u8>,
    at: int,
    size: int,
    max: u32,
    lsn: u64,
    payload: Seq<u8>,
)
    requires
        record_at(file, at, size, max, lsn, payload),
    ensures
        slot_at(file, at, size, max) == (Slot::Record { lsn, payload }),
{
    reveal(parse);
    let end = if file.len() < size {
        file.len() as int
    } else {
        size
    };
    let buf = file.subrange(at, end);
    let n = framed(payload.len() as int);
    lemma_framed(payload.len() as int);
    lemma_number_in(file, at, end, 0, 4);
    lemma_number_in(file, at, end, 4, 4);
    lemma_number_in(file, at, end, 8, 8);
    lemma_number_at(buf, 0);
    lemma_number_at(buf, 4);
    lemma_number_at(buf, 8);
    assert(buf.subrange(4, n) =~= file.subrange(at + 4, at + n));
    assert(buf.subrange(20, 20 + payload.len() as int) =~= payload) by {
        assert forall|i: int| 0 <= i < payload.len() implies buf[20 + i] == payload[i] by {
            assert(payload[i] == file[at + 20 + i]);
        }
    }
    assert(file.subrange(at, at + 20)[16] == 1);
    assert(zeros(20)[16] == 0);
}

/// The scanner finds a record exactly where its bytes are, and the end of the records
/// exactly where no header fits any more or one full of zeros stands; anything else is a
/// fault.
pub proof fn law_scanner_goes_by_the_bytes(
    file: &[u8],
    offset: u64,
    size: u64,
    max: u32,
    out: ScanOutcome<'_>,
    lsn: Lsn,
    payload: Seq<u8>,
)
    requires
        call_ensures(read_record_at, (file, offset, size, max), out),
    ensures
        out is CleanEnd <==> ends_at(file@, offset as int, size as int),
        out matches ScanOutcome::Record { lsn: l, payload: p, framed_len } ==> record_at(
            file@,
            offset as int,
            size as int,
            max,
            l.0,
            p@,
        ) && framed_len == framed(p@.len() as int),
        record_at(file@, offset as int, size as int, max, lsn.0, payload) ==> (
        out matches ScanOutcome::Record { lsn: l, payload: p, .. } && l == lsn && p@ == payload),
{
    lemma_slot_by_bytes(file@, offset as int, size as int, max);
    if let ScanOutcome::Record { payload: p, .. } = out {
        lemma_framed(p@.len() as int);
    }
    if record_at(file@, offset as int, size as int, max, lsn.0, payload) {
        assert(slot_at(file@, offset as int, size as int, max) == (Slot::Record {
            lsn: lsn.0,
            payload,
        }));
    }
}

/// Whether the records `first` and on, with these payloads, stand back to back at `at` of
/// a segment.
pub open spec fn records_at(
    file: Seq<u8>,
    at: int,
    size: int,
    max: u32,
    first: u64,
    payloads: Seq<Seq<u8>>,
) -> bool
    decreases payloads.len(),
{
    payloads.len() > 0 ==> {
        &&& record_at(file, at, size, max, first, payloads[0])
        &&& records_at(
            file,
            at + framed(payloads[0].len() as int),
            size,
            max,
            next_lsn(first),
            payloads.drop_first(),
        )
    }
}

/// Whether a record whose LSN is `due` or any later one stands `d` bytes behind `x + 8`,
/// as far ahead as recovery looks.
pub open spec fn later_record(
    file: Seq<u8>,
    x: int,
    size: int,
    max: u32,
    due: u64,
    d: int,
    lsn: u64,
    payload: Seq<u8>,
) -> bool {
    &&& 0 <= d <= max + 28
    &&& d % 8 == 0
    &&& due <= lsn
    &&& record_at(file, x + 8 + d, size, max, lsn, payload)
}

/// Records back to back start a run.
proof fn lemma_run_of_records(
    file: Seq<u8>,
    at: int,
    size: int,
    max: u32,
    first: u64,
    payloads: Seq<Seq<u8>>,
)
    requires
        0 <= at,
        records_at(file, at, size, max, first, payloads),
    ensures
        ({
            let rest = run(
                file,
                at + total_framed(payloads),
                nth_lsn(first, payloads.len() as int),
                size,
                max,
            );
            run(file, at, first, size, max) == (Run {
                payloads: payloads + rest.payloads,
                end: rest.end,
                clean: rest.clean,
            })
        }),
        0 <= total_framed(payloads),
    decreases payloads.len(),
{
    if payloads.len() == 0 {
        let rest = run(file, at, first, size, max);
        assert(payloads + rest.payloads =~= rest.payloads);
    } else {
        let n = framed(payloads[0].len() as int);
        let tail = payloads.drop_first();
        lemma_slot_by_bytes(file, at, size, max);
        lemma_framed(payloads[0].len() as int);
        assert(slot_at(file, at, size, max) == (Slot::Record { lsn: first, payload: payloads[0] }));
        lemma_run_of_records(file, at + n, size, max, next_lsn(first), tail);
        crate::image::lemma_nth_lsn_step(first, tail.len() as int);
        let rest = run(
            file,
            at + total_framed(payloads),
            nth_lsn(first, payloads.len() as int),
            size,
            max,
        );
        assert(seq![payloads[0]] + (tail + rest.payloads) =~= payloads + rest.payloads);
    }
}

/// Recovery tells a clean end, a torn tail, a tear in the middle of the log and corruption
/// apart. Behind the records that stand back to back from the header on, each with the
/// LSN that is due, and before anything else:
///
/// - where the records end, it reports them, and a clean tail;
/// - otherwise a sealed segment is corrupt there;
/// - an active one is torn in the middle there, if any record whose LSN is due or later,
///   however much later, stands within reach: nothing that was acknowledged is dropped;
/// - and without such a record its tail is torn there, and its records are reported.
pub proof fn law_recovery_tells_the_ends_apart(
    file: &[u8],
    base: Lsn,
    is_active: bool,
    size: u64,
    max: u32,
    probe: &mut ScanProbe,
    r: Result<SegmentRecovery, WalError>,
    payloads: Seq<Seq<u8>>,
)
    requires
        1 <= base.0,
        base.0 + payloads.len() <= u64::MAX,
        records_at(file@, 64, size as int, max, base.0, payloads),
        no_record_at(
            file@,
            64 + total_framed(payloads),
            size as int,
            max,
            (base.0 + payloads.len()) as u64,
        ),
        call_ensures(recover_segment, (file, base, is_active, size, max, probe), r),
    ensures
        ({
            let x = 64 + total_framed(payloads);
            let due = (base.0 + payloads.len()) as u64;
            if ends_at(file@, x, size as int) {
                &&& r matches Ok(rec)
                &&& rec.max_lsn.0 + 1 == due
                &&& rec.write_offset == x
                &&& rec.tail_state == TailState::Clean
            } else if !is_active {
                &&& r matches Err(WalError::Corruption { segment, offset, detail })
                &&& segment == base
                &&& offset == x
                &&& detail@ == "invalid record in sealed segment"@
            } else if exists|d: int, lsn: u64, p: Seq<u8>|
                later_record(file@, x, size as int, max, due, d, lsn, p) {
                &&& r matches Err(WalError::TornMidLog { segment, offset })
                &&& segment == base
                &&& offset == x
            } else {
                &&& r matches Ok(rec)
                &&& rec.max_lsn.0 + 1 == due
                &&& rec.write_offset == x
                &&& rec.tail_state matches TailState::TruncatedAt { segment_base, offset }
                &&& segment_base == base
                &&& offset == x
            }
        }),
        ({
            let x = 64 + total_framed(payloads);
            let due = (base.0 + payloads.len()) as u64;
            let (a, b) = (old(probe).peak, final(probe).peak);
            if ends_at(file@, x, size as int) || !is_active {
                b == a
            } else if r is Ok {
                b == if a > (max + 28) / 8 * 8 {
                    a as int
                } else {
                    (max + 28) / 8 * 8
                }
            } else {
                exists|d: int, lsn: u64, p: Seq<u8>|
                    {
                        &&& #[trigger] later_record(file@, x, size as int, max, due, d, lsn, p)
                        &&& b == if a > d {
                            a as int
                        } else {
                            d
                        }
                        &&& forall|e: int, l: u64, q: Seq<u8>|
                            e < d ==> !later_record(file@, x, size as int, max, due, e, l, q)
                    }
            }
        }),
{
    let x = 64 + total_framed(payloads);
    let due = (base.0 + payloads.len()) as u64;
    lemma_run_of_records(file@, 64, size as int, max, base.0, payloads);
    lemma_slot_by_bytes(file@, x, size as int, max);
    let slot = slot_at(file@, x, size as int, max);
    if let Slot::Record { lsn, payload } = slot {
        assert(record_at(file@, x, size as int, max, lsn, payload));
    }
    let none: Seq<Seq<u8>> = seq![];
    assert(payloads + none =~= payloads);
    assert(segment_run(file@, base.0, size as int, max) == (Run {
        payloads,
        end: x,
        clean: slot is End,
    }));
    lemma_continuation_by_bytes(file@, x, size as int, max, due);
    law_scan_is_bounded(file@, x, due, size as int, max);
    if continues_ahead(file@, x, due, size as int, max) {
        let d = scan_reach(file@, x, due, size as int, max);
        assert(first_continues_at(file@, x, due, size as int, max, d));
        lemma_slot_by_bytes(file@, x + 8 + d, size as int, max);
        let found = slot_at(file@, x + 8 + d, size as int, max);
        assert(record_at(file@, x + 8 + d, size as int, max, found->lsn, found->payload));
        assert(later_record(file@, x, size as int, max, due, d, found->lsn, found->payload));
        assert forall|e: int, l: u64, q: Seq<u8>| e < d implies !later_record(
            file@,
            x,
            size as int,
            max,
            due,
            e,
            l,
            q,
        ) by {
            if later_record(file@, x, size as int, max, due, e, l, q) {
                lemma_slot_by_bytes(file@, x + 8 + e, size as int, max);
                assert(slot_at(file@, x + 8 + e, size as int, max) == (Slot::Record {
                    lsn: l,
                    payload: q,
                }));
                assert(continues_at(file@, x, due, size as int, max, e));
            }
        }
    }
}

/// A record that continues the log, by its bytes.
proof fn lemma_continuation_by_bytes(file: Seq<u8>, x: int, size: int, max: u32, due: u64)
    requires
        0 <= x,
    ensures
        continues_ahead(file, x, due, size, max) <==> exists|d: int, lsn: u64, p: Seq<u8>|
            later_record(file, x, size, max, due, d, lsn, p),
{
    if continues_ahead(file, x, due, size, max) {
        let d = choose|d: int| continues_at(file, x, due, size, max, d);
        lemma_slot_by_bytes(file, x + 8 + d, size, max);
        let slot = slot_at(file, x + 8 + d, size, max);
        assert(record_at(file, x + 8 + d, size, max, slot->lsn, slot->payload));
        assert(later_record(file, x, size, max, due, d, slot->lsn, slot->payload));
    }
    if exists|d: int, lsn: u64, p: Seq<u8>| later_record(file, x, size, max, due, d, lsn, p) {
        let (d, lsn, p) = choose|d: int, lsn: u64, p: Seq<u8>|
            later_record(file, x, size, max, due, d, lsn, p);
        lemma_slot_by_bytes(file, x + 8 + d, size, max);
        assert(slot_at(file, x + 8 + d, size, max) == (Slot::Record { lsn, payload: p }));
        assert(continues_at(file, x, due, size, max, d));
    }
}

/// Every file has such records back to back from the header on, perhaps none, before
/// anything else.
pub proof fn law_every_file_has_a_first_end(file: Seq<u8>, base: u64, size: int, max: u32)
    requires
        base + segment_run(file, base, size, max).payloads.len() <= u64::MAX,
    ensures
        exists|payloads: Seq<Seq<u8>>| #[trigger]
            records_at(file, 64, size, max, base, payloads) && base + payloads.len() <= u64::MAX
                && no_record_at(
                file,
                64 + total_framed(payloads),
                size,
                max,
                (base + payloads.len()) as u64,
            ),
{
    let payloads = segment_run(file, base, size, max).payloads;
    lemma_run_has_records(file, 64, size, max, base);
    assert(records_at(file, 64, size, max, base, payloads));
}

/// The records of a run stand back to back, and none that is due follows.
pub proof fn lemma_run_has_records(file: Seq<u8>, at: int, size: int, max: u32, first: u64)
    requires
        0 <= at,
        first + run(file, at, first, size, max).payloads.len() <= u64::MAX,
    ensures
        ({
            let r = run(file, at, first, size, max);
            &&& records_at(file, at, size, max, first, r.payloads)
            &&& r.end == at + total_framed(r.payloads)
            &&& no_record_at(file, r.end, size, max, (first + r.payloads.len()) as u64)
        }),
    decreases size - at,
{
    let r = run(file, at, first, size, max);
    lemma_slot_by_bytes(file, at, size, max);
    match slot_at(file, at, size, max) {
        Slot::Record { lsn, payload } => {
            assert(record_at(file, at, size, max, lsn, payload));
            if lsn == first {
                lemma_record_fits(file, at, size, max);
                lemma_framed(payload.len() as int);
                let n = framed(payload.len() as int);
                assert(r.payloads.drop_first() =~= run(
                    file,
                    at + n,
                    next_lsn(first),
                    size,
                    max,
                ).payloads);
                lemma_run_has_records(file, at + n, size, max, next_lsn(first));
            } else {
                assert forall|p: Seq<u8>| !record_at(file, at, size, max, first, p) by {
                    if record_at(file, at, size, max, first, p) {
                        assert(slot_at(file, at, size, max) == (Slot::Record {
                            lsn: first,
                            payload: p,
                        }));
                    }
                }
            }
        },
        _ => {
            assert forall|p: Seq<u8>| !record_at(file, at, size, max, first, p) by {
                if record_at(file, at, size, max, first, p) {
                    assert(slot_at(file, at, size, max) == (Slot::Record {
                        lsn: first,
                        payload: p,
                    }));
                }
            }
        },
    }
}

/// The hooks for testing say what recovery says of the same bytes.
pub proof fn law_hooks_agree_with_recovery(
    file: &[u8],
    base: u64,
    is_active: bool,
    size: u64,
    max: u32,
    probe: &mut ScanProbe,
    r: Result<SegmentRecovery, WalError>,
    class: SegClass,
    measured: &mut ScanProbe,
    ok: bool,
    bound: u64,
)
    requires
        1 <= base,
        old(probe).peak == 0,
        call_ensures(recover_segment, (file, Lsn(base), is_active, size, max, probe), r),
        call_ensures(recover_segment_classify, (file, base, is_active, size, max), class),
        call_ensures(recover_segment_probe, (file, base, is_active, size, max, measured), ok),
        call_ensures(scan_bound, (max,), bound),
    ensures
        ok == r is Ok,
        final(measured).peak == final(probe).peak,
        final(measured).peak <= bound,
        bound == max + 28,
        match r {
            Ok(rec) => match rec.tail_state {
                TailState::Clean => class == (SegClass::Clean { max_lsn: rec.max_lsn.0 }),
                TailState::TruncatedAt { offset, .. } => class == (SegClass::Truncated {
                    offset,
                    max_lsn: rec.max_lsn.0,
                }),
            },
            Err(WalError::TornMidLog { offset, .. }) => class == (SegClass::TornMidLog { offset }),
            Err(WalError::Corruption { offset, .. }) => class == (SegClass::Corruption { offset }),
            Err(_) => false,
        },
{
    let found = segment_run(file@, base, size as int, max);
    let due = nth_lsn(base, found.payloads.len() as int);
    law_scan_is_bounded(file@, found.end, due, size as int, max);
}

/// For the hooks the reserved base stands for the first one.
pub proof fn law_hooks_take_the_reserved_base_for_the_first(
    file: &[u8],
    is_active: bool,
    size: u64,
    max: u32,
    none: SegClass,
    first: SegClass,
    probe_none: &mut ScanProbe,
    ok_none: bool,
    probe_first: &mut ScanProbe,
    ok_first: bool,
)
    requires
        call_ensures(recover_segment_classify, (file, 0u64, is_active, size, max), none),
        call_ensures(recover_segment_classify, (file, 1u64, is_active, size, max), first),
        call_ensures(recover_segment_probe, (file, 0u64, is_active, size, max, probe_none), ok_none),
        call_ensures(
            recover_segment_probe,
            (file, 1u64, is_active, size, max, probe_first),
            ok_first,
        ),
    ensures
        none == first,
        ok_none == ok_first,
        final(probe_none).peak == final(probe_first).peak,
{
}

/// The probe starts from nothing, and tells what it has measured.
pub proof fn law_probe_tells_its_peak(probe: &mut ScanProbe, other: &ScanProbe, peak: u64)
    requires
        call_ensures(scan_probe_reset, (probe,), ()),
        call_ensures(scan_probe_peak, (other,), peak),
    ensures
        final(probe).peak == 0,
        peak == other.peak,
{
}

} // verus!
