//! The bytes of a segment's file, and what recovery makes of them after each kind
//! of damage.

use vstd::prelude::*;

use crate::bytes::u64_at;
use crate::lsn::next_lsn;
use crate::record::frame;
use crate::record::frame_len;
use crate::record::law_changed_byte_is_detected;
use crate::record::lemma_frame_fields;
use crate::record::parse;
use crate::record::zeros;
use crate::record::RECORD_HEADER_SIZE;
use crate::recovery::continues_ahead;
use crate::recovery::continues_at;
use crate::recovery::last_lsn;
use crate::recovery::nth_lsn;
use crate::recovery::run;
use crate::recovery::scan_limit;
use crate::recovery::scan_reach;
use crate::recovery::segment_run;
use crate::recovery::verdict;
use crate::recovery::first_continues_at;
use crate::recovery::Run;
use crate::recovery::Verdict;
use crate::segment::lemma_record_fits;
use crate::segment::slot_at;
use crate::segment::Slot;
use crate::segment::HEADER_SIZE;

verus! {

/// The frames of consecutive records, the first of them `base`.
pub open spec fn frames(base: u64, payloads: Seq<Seq<u8>>) -> Seq<u8>
    decreases payloads.len(),
{
    if payloads.len() == 0 {
        seq![]
    } else {
        frame(base, payloads[0]) + frames(next_lsn(base), payloads.drop_first())
    }
}

/// Length of the frames of `payloads`.
pub open spec fn span(payloads: Seq<Seq<u8>>) -> int
    decreases payloads.len(),
{
    if payloads.len() == 0 {
        0
    } else {
        frame_len(payloads[0].len() as int) + span(payloads.drop_first())
    }
}

/// Whether each payload is within the bound.
pub open spec fn bounded(payloads: Seq<Seq<u8>>, max: u32) -> bool {
    forall|i: int| 0 <= i < payloads.len() ==> (#[trigger] payloads[i]).len() <= max
}

/// Whether the bytes `part` stand at offset `at` of `file`.
pub open spec fn holds_at(file: Seq<u8>, at: int, part: Seq<u8>) -> bool {
    &&& 0 <= at
    &&& at + part.len() <= file.len()
    &&& file.subrange(at, at + part.len()) == part
}

/// `file` with everything from `from` to the end of the segment zeroed, and
/// extended to the size of the segment where it was shorter.
pub open spec fn zeroed(file: Seq<u8>, from: int, size: int) -> Seq<u8> {
    Seq::new(
        (if file.len() < size {
            size
        } else {
            file.len() as int
        }) as nat,
        |i: int|
            if from <= i < size || file.len() <= i {
                0u8
            } else {
                file[i]
            },
    )
}

/// A frame within a segment is the record that it frames.
pub proof fn lemma_slot_of_frame(
    file: Seq<u8>,
    at: int,
    lsn: u64,
    payload: Seq<u8>,
    size: int,
    max: u32,
)
    requires
        holds_at(file, at, frame(lsn, payload)),
        payload.len() <= max,
        at + frame(lsn, payload).len() <= size,
    ensures
        slot_at(file, at, size, max) == (Slot::Record { lsn, payload }),
        frame(lsn, payload).len() == frame_len(payload.len() as int),
{
    let f = frame(lsn, payload);
    let end = if file.len() < size {
        file.len() as int
    } else {
        size
    };
    let buf = file.subrange(at, end);
    assert(buf.subrange(0, f.len() as int) =~= f);
    assert(f =~= buf.subrange(0, f.len() as int));
    lemma_frame_fields(lsn, payload, buf);
    reveal(parse);
    let head = file.subrange(at, at + RECORD_HEADER_SIZE);
    assert(head[16] == buf[16]);
    assert(zeros(RECORD_HEADER_SIZE as nat)[16] == 0);
}

/// A record depends on the bytes of its frame only.
pub proof fn lemma_slot_is_local(
    file: Seq<u8>,
    other: Seq<u8>,
    at: int,
    size: int,
    other_size: int,
    max: u32,
)
    requires
        0 <= at,
        slot_at(file, at, size, max) is Record,
        ({
            let end = at + frame_len(slot_at(file, at, size, max)->payload.len() as int);
            &&& end <= other.len()
            &&& end <= other_size
            &&& other.subrange(at, end) == file.subrange(at, end)
        }),
    ensures
        slot_at(other, at, other_size, max) == slot_at(file, at, size, max),
{
    reveal(parse);
    lemma_record_fits(file, at, size, max);
    let payload = slot_at(file, at, size, max)->payload;
    let n = frame_len(payload.len() as int);
    let a = file.subrange(
        at,
        if file.len() < size {
            file.len() as int
        } else {
            size
        },
    );
    let b = other.subrange(
        at,
        if other.len() < other_size {
            other.len() as int
        } else {
            other_size
        },
    );
    assert forall|i: int| 0 <= i < n implies a[i] == b[i] by {
        assert(file.subrange(at, at + n)[i] == other.subrange(at, at + n)[i]);
    }
    assert(a.subrange(4, n) =~= b.subrange(4, n));
    assert(a.subrange(20, 20 + payload.len() as int) =~= b.subrange(20, 20 + payload.len() as int));
    assert(file.subrange(at, at + 20)[16] == a[16]);
    assert(other.subrange(at, at + 20)[16] == b[16]);
    assert(zeros(20)[16] == 0);
}

/// A run does not end before it starts, nor behind the segment, and its records
/// are bounded.
pub proof fn lemma_run_extent(file: Seq<u8>, at: int, next: u64, size: int, max: u32)
    requires
        0 <= at,
    ensures
        at <= run(file, at, next, size, max).end,
        run(file, at, next, size, max).end <= size || run(file, at, next, size, max).end == at,
        run(file, at, next, size, max).end <= file.len() || run(file, at, next, size, max).end == at,
        bounded(run(file, at, next, size, max).payloads, max),
    decreases size - at,
{
    let whole = run(file, at, next, size, max);
    match slot_at(file, at, size, max) {
        Slot::Record { lsn, payload } => {
            if lsn == next {
                lemma_record_fits(file, at, size, max);
                let n = frame_len(payload.len() as int);
                let rest = run(file, at + n, next_lsn(next), size, max);
                lemma_run_extent(file, at + n, next_lsn(next), size, max);
                assert forall|i: int| 0 <= i < whole.payloads.len() implies (
                #[trigger] whole.payloads[i]).len() <= max by {
                    if i > 0 {
                        assert(whole.payloads[i] == rest.payloads[i - 1]);
                    }
                }
            }
        },
        _ => {},
    }
}

/// The LSN `k + 1` places on is `k` places behind the next one.
pub proof fn lemma_nth_lsn_step(base: u64, k: int)
    requires
        0 <= k,
    ensures
        nth_lsn(next_lsn(base), k) == nth_lsn(base, k + 1),
{
}

/// A run starts with the records whose frames stand at its start, and goes on
/// behind them.
pub proof fn lemma_run_of_frames(
    file: Seq<u8>,
    at: int,
    base: u64,
    payloads: Seq<Seq<u8>>,
    size: int,
    max: u32,
)
    requires
        holds_at(file, at, frames(base, payloads)),
        bounded(payloads, max),
        at + frames(base, payloads).len() <= size,
    ensures
        ({
            let rest = run(
                file,
                at + frames(base, payloads).len(),
                nth_lsn(base, payloads.len() as int),
                size,
                max,
            );
            run(file, at, base, size, max) == (Run {
                payloads: payloads + rest.payloads,
                end: rest.end,
                clean: rest.clean,
            })
        }),
    decreases payloads.len(),
{
    let all = frames(base, payloads);
    if payloads.len() == 0 {
        let rest = run(file, at, base, size, max);
        assert(payloads + rest.payloads =~= rest.payloads);
    } else {
        let first = frame(base, payloads[0]);
        let tail = payloads.drop_first();
        let more = frames(next_lsn(base), tail);
        assert(file.subrange(at, at + first.len()) =~= all.subrange(0, first.len() as int));
        assert(all.subrange(0, first.len() as int) =~= first);
        lemma_slot_of_frame(file, at, base, payloads[0], size, max);
        let next_at = at + first.len();
        assert(file.subrange(next_at, next_at + more.len()) =~= all.subrange(
            first.len() as int,
            all.len() as int,
        ));
        assert(all.subrange(first.len() as int, all.len() as int) =~= more);
        assert forall|i: int| 0 <= i < tail.len() implies (#[trigger] tail[i]).len() <= max by {
            assert(tail[i] == payloads[i + 1]);
        }
        lemma_run_of_frames(file, next_at, next_lsn(base), tail, size, max);
        lemma_nth_lsn_step(base, tail.len() as int);
        let rest = run(
            file,
            at + all.len(),
            nth_lsn(base, payloads.len() as int),
            size,
            max,
        );
        assert(seq![payloads[0]] + (tail + rest.payloads) =~= payloads + rest.payloads);
    }
}

/// A run keeps its records where their bytes stay the same, and goes on behind
/// them.
pub proof fn lemma_run_prefix(
    file: Seq<u8>,
    other: Seq<u8>,
    at: int,
    next: u64,
    size: int,
    max: u32,
)
    requires
        0 <= at,
        ({
            let r = run(file, at, next, size, max);
            &&& r.end <= other.len() || r.payloads.len() == 0
            &&& forall|i: int| at <= i < r.end ==> other[i] == file[i]
        }),
    ensures
        ({
            let r = run(file, at, next, size, max);
            let rest = run(other, r.end, nth_lsn(next, r.payloads.len() as int), size, max);
            run(other, at, next, size, max) == (Run {
                payloads: r.payloads + rest.payloads,
                end: rest.end,
                clean: rest.clean,
            })
        }),
    decreases size - at,
{
    let r = run(file, at, next, size, max);
    let rest = run(other, r.end, nth_lsn(next, r.payloads.len() as int), size, max);
    if r.payloads.len() == 0 {
        assert(r.end == at);
        assert(r.payloads + rest.payloads =~= rest.payloads);
    } else {
        let payload = slot_at(file, at, size, max)->payload;
        lemma_record_fits(file, at, size, max);
        let n = frame_len(payload.len() as int);
        let tail = run(file, at + n, next_lsn(next), size, max);
        lemma_run_extent(file, at + n, next_lsn(next), size, max);
        assert(other.subrange(at, at + n) =~= file.subrange(at, at + n));
        lemma_slot_is_local(file, other, at, size, size, max);
        lemma_run_prefix(file, other, at + n, next_lsn(next), size, max);
        lemma_nth_lsn_step(next, tail.payloads.len() as int);
        assert(seq![payload] + (tail.payloads + rest.payloads) =~= r.payloads + rest.payloads);
    }
}

/// A run from its record `j` on.
pub proof fn lemma_run_suffix(
    file: Seq<u8>,
    at: int,
    next: u64,
    size: int,
    max: u32,
    j: int,
)
    requires
        0 <= at,
        0 <= j <= run(file, at, next, size, max).payloads.len(),
    ensures
        ({
            let r = run(file, at, next, size, max);
            run(file, at + span(r.payloads.take(j)), nth_lsn(next, j), size, max) == (Run {
                payloads: r.payloads.skip(j),
                end: r.end,
                clean: r.clean,
            })
        }),
        0 <= span(run(file, at, next, size, max).payloads.take(j)),
    decreases j,
{
    let r = run(file, at, next, size, max);
    if j == 0 {
        assert(r.payloads.take(0) =~= seq![]);
        assert(r.payloads.skip(0) =~= r.payloads);
    } else {
        let payload = slot_at(file, at, size, max)->payload;
        lemma_record_fits(file, at, size, max);
        let n = frame_len(payload.len() as int);
        let tail = run(file, at + n, next_lsn(next), size, max);
        lemma_run_suffix(file, at + n, next_lsn(next), size, max, j - 1);
        lemma_nth_lsn_step(next, j - 1);
        assert(r.payloads.take(j).drop_first() =~= tail.payloads.take(j - 1));
        assert(r.payloads.skip(j) =~= tail.payloads.skip(j - 1));
    }
}


/// The frames of two runs of records in a row.
pub proof fn lemma_frames_concat(base: u64, a: Seq<Seq<u8>>, b: Seq<Seq<u8>>)
    ensures
        frames(base, a + b) == frames(base, a) + frames(nth_lsn(base, a.len() as int), b),
    decreases a.len(),
{
    if a.len() == 0 {
        assert(a + b =~= b);
        assert(frames(base, a + b) =~= frames(base, a) + frames(base, b));
    } else {
        lemma_frames_concat(next_lsn(base), a.drop_first(), b);
        assert((a + b).drop_first() =~= a.drop_first() + b);
        assert(frames(base, a + b) =~= frames(base, a) + frames(
            nth_lsn(base, a.len() as int),
            b,
        ));
    }
}

/// The frames of one record.
pub proof fn lemma_frames_one(base: u64, payload: Seq<u8>)
    ensures
        frames(base, seq![payload]) == frame(base, payload),
        span(seq![payload]) == frame_len(payload.len() as int),
{
    let one = seq![payload];
    assert(one.drop_first() =~= seq![]);
    assert(frames(next_lsn(base), one.drop_first()) =~= seq![]);
    assert(span(one.drop_first()) == 0);
    assert(frames(base, one) =~= frame(base, payload));
}

/// The span of records is the length of their frames.
pub proof fn lemma_span(base: u64, payloads: Seq<Seq<u8>>)
    requires
        bounded(payloads, u32::MAX),
    ensures
        frames(base, payloads).len() == span(payloads),
        span(payloads) >= 24 * payloads.len(),
    decreases payloads.len(),
{
    if payloads.len() > 0 {
        let tail = payloads.drop_first();
        assert forall|i: int| 0 <= i < tail.len() implies (#[trigger] tail[i]).len()
            <= u32::MAX by {
            assert(tail[i] == payloads[i + 1]);
        }
        lemma_frame_len(base, payloads[0]);
        lemma_span(next_lsn(base), tail);
    }
}

/// The span of two runs of records in a row.
pub proof fn lemma_span_concat(a: Seq<Seq<u8>>, b: Seq<Seq<u8>>)
    ensures
        span(a + b) == span(a) + span(b),
    decreases a.len(),
{
    if a.len() == 0 {
        assert(a + b =~= b);
    } else {
        lemma_span_concat(a.drop_first(), b);
        assert((a + b).drop_first() =~= a.drop_first() + b);
    }
}

/// Parts of bounded payloads are bounded.
pub proof fn lemma_bounded_parts(payloads: Seq<Seq<u8>>, n: int, max: u32)
    requires
        bounded(payloads, max),
        0 <= n <= payloads.len(),
    ensures
        bounded(payloads.take(n), max),
        bounded(payloads.skip(n), max),
        bounded(payloads.take(n), u32::MAX),
        bounded(payloads.skip(n), u32::MAX),
{
    assert forall|i: int| 0 <= i < n implies (#[trigger] payloads.take(n)[i]).len() <= max by {
        assert(payloads.take(n)[i] == payloads[i]);
    }
    assert forall|i: int| 0 <= i < payloads.len() - n implies (#[trigger] payloads.skip(
        n,
    )[i]).len() <= max by {
        assert(payloads.skip(n)[i] == payloads[n + i]);
    }
}

/// Counting on from a counted LSN.
pub proof fn lemma_nth_lsn_add(base: u64, a: int, b: int)
    requires
        0 <= a,
        0 <= b,
    ensures
        nth_lsn(nth_lsn(base, a), b) == nth_lsn(base, a + b),
        nth_lsn(next_lsn(base), a) == next_lsn(nth_lsn(base, a)),
{
}

/// A run ends behind its records.
pub proof fn lemma_run_span(file: Seq<u8>, at: int, next: u64, size: int, max: u32)
    requires
        0 <= at,
    ensures
        run(file, at, next, size, max).end == at + span(run(file, at, next, size, max).payloads),
    decreases size - at,
{
    match slot_at(file, at, size, max) {
        Slot::Record { lsn, payload } => {
            if lsn == next {
                lemma_record_fits(file, at, size, max);
                let n = frame_len(payload.len() as int);
                lemma_run_span(file, at + n, next_lsn(next), size, max);
                let rest = run(file, at + n, next_lsn(next), size, max).payloads;
                assert((seq![payload] + rest).drop_first() =~= rest);
            }
        },
        _ => {},
    }
}

/// Recovery reads back what was written: a segment that holds the frames of
/// `payloads`, with the end of the records behind them, recovers cleanly to
/// exactly these records, active or sealed.
pub proof fn law_recovery_reads_back(
    file: Seq<u8>,
    base: u64,
    payloads: Seq<Seq<u8>>,
    active: bool,
    size: int,
    max: u32,
)
    requires
        holds_at(file, HEADER_SIZE as int, frames(base, payloads)),
        bounded(payloads, max),
        HEADER_SIZE + frames(base, payloads).len() <= size,
        slot_at(file, HEADER_SIZE + frames(base, payloads).len(), size, max) is End,
    ensures
        segment_run(file, base, size, max).payloads == payloads,
        verdict(file, base, active, size, max) == (Verdict::Clean {
            max_lsn: last_lsn(base, payloads.len() as int),
            end: HEADER_SIZE + frames(base, payloads).len(),
        }),
{
    lemma_run_of_frames(file, HEADER_SIZE as int, base, payloads, size, max);
    let rest: Seq<Seq<u8>> = seq![];
    assert(payloads + rest =~= payloads);
}

/// Records that were written stay: whatever bytes come to stand behind their
/// frames, the active segment recovers with all of them, or recovery fails with
/// `TornMidLog` at an offset behind them.
pub proof fn law_written_records_survive(
    file: Seq<u8>,
    base: u64,
    payloads: Seq<Seq<u8>>,
    size: int,
    max: u32,
)
    requires
        holds_at(file, HEADER_SIZE as int, frames(base, payloads)),
        bounded(payloads, max),
        HEADER_SIZE + frames(base, payloads).len() <= size,
    ensures
        payloads.is_prefix_of(segment_run(file, base, size, max).payloads),
        match verdict(file, base, true, size, max) {
            Verdict::Clean { end, .. } => HEADER_SIZE + frames(base, payloads).len() <= end,
            Verdict::Truncated { end, .. } => HEADER_SIZE + frames(base, payloads).len() <= end,
            Verdict::TornMidLog { at } => HEADER_SIZE + frames(base, payloads).len() <= at,
            Verdict::Corruption { .. } => false,
        },
{
    lemma_run_of_frames(file, HEADER_SIZE as int, base, payloads, size, max);
    let end = HEADER_SIZE + frames(base, payloads).len();
    let next = nth_lsn(base, payloads.len() as int);
    lemma_run_extent(file, end, next, size, max);
    let rest = run(file, end, next, size, max);
    assert(payloads =~= (payloads + rest.payloads).subrange(0, payloads.len() as int));
}

/// Cutting off a torn tail settles it: once the tail is zeroed, recovery finds the
/// same records and a clean end, and nothing that stood in the tail comes back.
pub proof fn law_truncation_settles(file: Seq<u8>, base: u64, active: bool, size: int, max: u32)
    requires
        verdict(file, base, true, size, max) is Truncated,
    ensures
        ({
            let v = verdict(file, base, true, size, max);
            let after = zeroed(file, v->Truncated_end, size);
            &&& verdict(after, base, active, size, max) == (Verdict::Clean {
                max_lsn: v->Truncated_max_lsn,
                end: v->Truncated_end,
            })
            &&& segment_run(after, base, size, max).payloads == segment_run(
                file,
                base,
                size,
                max,
            ).payloads
            &&& forall|at: int|
                v->Truncated_end <= at ==> #[trigger] slot_at(after, at, size, max) is End
        }),
{
    let r = segment_run(file, base, size, max);
    let after = zeroed(file, r.end, size);
    lemma_run_extent(file, HEADER_SIZE as int, base, size, max);
    assert forall|at: int| r.end <= at implies #[trigger] slot_at(after, at, size, max) is End by {
        if size - at >= 20 {
            assert(after.subrange(at, at + 20) =~= zeros(20));
        }
    }
    lemma_end_is_not_clean(file, HEADER_SIZE as int, base, size, max);
    lemma_run_prefix(file, after, HEADER_SIZE as int, base, size, max);
    let rest: Seq<Seq<u8>> = seq![];
    assert(slot_at(after, r.end, size, max) is End);
    assert(r.payloads + rest =~= r.payloads);
}

/// A run that does not end cleanly ends where a record header would still fit.
proof fn lemma_end_is_not_clean(file: Seq<u8>, at: int, next: u64, size: int, max: u32)
    requires
        0 <= at,
        !run(file, at, next, size, max).clean,
    ensures
        run(file, at, next, size, max).end + 20 <= size,
        !(slot_at(file, run(file, at, next, size, max).end, size, max) is End),
        at <= run(file, at, next, size, max).end,
        run(file, at, next, size, max).end == at ==> run(file, at, next, size, max).payloads.len()
            == 0,
        run(file, at, next, size, max).end > at ==> run(file, at, next, size, max).end
            <= file.len(),
    decreases size - at,
{
    match slot_at(file, at, size, max) {
        Slot::Record { lsn, payload } => {
            if lsn == next {
                lemma_record_fits(file, at, size, max);
                lemma_end_is_not_clean(
                    file,
                    at + frame_len(payload.len() as int),
                    next_lsn(next),
                    size,
                    max,
                );
            }
        },
        _ => {},
    }
}

/// Damage in front of a record is never cut off in silence: where the frames of
/// `payloads` are followed by something invalid as long as one frame, and that by
/// a record of the log, the active segment fails with `TornMidLog` and a sealed
/// one with `Corruption`, both at the damaged record.
pub proof fn law_damage_before_a_record_is_fatal(
    file: Seq<u8>,
    base: u64,
    payloads: Seq<Seq<u8>>,
    damaged_len: int,
    next_payload: Seq<u8>,
    size: int,
    max: u32,
)
    requires
        holds_at(file, HEADER_SIZE as int, frames(base, payloads)),
        bounded(payloads, max),
        ({
            let x = HEADER_SIZE + frames(base, payloads).len();
            let n = payloads.len() as int;
            &&& slot_at(file, x, size, max) is Invalid
            &&& 0 <= damaged_len <= max
            &&& holds_at(
                file,
                x + frame_len(damaged_len),
                frame(nth_lsn(base, n + 1), next_payload),
            )
            &&& next_payload.len() <= max
            &&& x + frame_len(damaged_len) + frame_len(next_payload.len() as int) <= size
        }),
    ensures
        ({
            let x = HEADER_SIZE + frames(base, payloads).len();
            &&& verdict(file, base, true, size, max) == (Verdict::TornMidLog { at: x })
            &&& verdict(file, base, false, size, max) == (Verdict::Corruption { at: x })
            &&& segment_run(file, base, size, max).payloads == payloads
        }),
{
    let x = HEADER_SIZE + frames(base, payloads).len();
    let n = payloads.len() as int;
    lemma_run_of_frames(file, HEADER_SIZE as int, base, payloads, size, max);
    let rest: Seq<Seq<u8>> = seq![];
    assert(payloads + rest =~= payloads);
    let d = frame_len(damaged_len) - 8;
    let f = frame(nth_lsn(base, n + 1), next_payload);
    lemma_frame_len(nth_lsn(base, n + 1), next_payload);
    lemma_slot_of_frame(file, x + 8 + d, nth_lsn(base, n + 1), next_payload, size, max);
    assert(frame_len(damaged_len) % 8 == 0);
    assert(continues_at(file, x, nth_lsn(base, n), size, max, d));
}

/// Length of a frame.
pub proof fn lemma_frame_len(lsn: u64, payload: Seq<u8>)
    requires
        payload.len() <= u32::MAX,
    ensures
        frame(lsn, payload).len() == frame_len(payload.len() as int),
        frame(lsn, payload).len() % 8 == 0,
        frame(lsn, payload).len() >= 24,
{
    let f = frame(lsn, payload);
    assert(f =~= f.subrange(0, f.len() as int));
    lemma_frame_fields(lsn, payload, f);
}

/// A frame with one byte changed outside the length field is no record any more,
/// and no end of the records either.
pub proof fn law_changed_byte_is_invalid(
    file: Seq<u8>,
    at: int,
    lsn: u64,
    payload: Seq<u8>,
    i: int,
    byte: u8,
    size: int,
    max: u32,
)
    requires
        1 <= lsn,
        payload.len() <= max,
        0 <= i < frame(lsn, payload).len(),
        i < 4 || 8 <= i,
        byte != frame(lsn, payload)[i],
        holds_at(file, at, frame(lsn, payload).update(i, byte)),
        at + frame(lsn, payload).len() <= size,
    ensures
        slot_at(file, at, size, max) is Invalid,
{
    let f = frame(lsn, payload);
    let g = f.update(i, byte);
    lemma_frame_len(lsn, payload);
    let end = if file.len() < size {
        file.len() as int
    } else {
        size
    };
    let buf = file.subrange(at, end);
    let rest = buf.subrange(f.len() as int, buf.len() as int);
    assert(buf =~= g + rest) by {
        assert forall|j: int| 0 <= j < g.len() implies buf[j] == g[j] by {
            assert(file.subrange(at, at + g.len())[j] == g[j]);
        }
    }
    law_changed_byte_is_detected(lsn, payload, rest, max, i, byte);
    // The header keeps a byte that is not zero: the type, or one of the LSN.
    let head = file.subrange(at, at + 20);
    if head == zeros(20) {
        assert forall|j: int| 0 <= j < 20 implies g[j] == 0 by {
            assert(file.subrange(at, at + g.len())[j] == g[j]);
            assert(head[j] == zeros(20)[j]);
        }
        assert(f =~= f.subrange(0, f.len() as int));
        lemma_frame_fields(lsn, payload, f);
        assert(g[16] == 0);
        assert(f[8] == g[8] && f[9] == g[9] && f[10] == g[10] && f[11] == g[11] && f[12] == g[12]
            && f[13] == g[13] && f[14] == g[14] && f[15] == g[15]);
        assert(u64_at(f, 8) == 0) by {
            assert(0u64 | (0u64 << 8) | (0u64 << 16) | (0u64 << 24) | (0u64 << 32) | (0u64 << 40)
                | (0u64 << 48) | (0u64 << 56) == 0) by (bit_vector);
        }
    }
}

/// One byte changed in a record that another record follows, outside its length
/// field, is never cut off in silence.
pub proof fn law_changed_byte_mid_log_is_fatal(
    file: Seq<u8>,
    base: u64,
    payloads: Seq<Seq<u8>>,
    payload: Seq<u8>,
    next_payload: Seq<u8>,
    i: int,
    byte: u8,
    size: int,
    max: u32,
)
    requires
        1 <= base,
        bounded(payloads, max),
        payload.len() <= max,
        next_payload.len() <= max,
        ({
            let n = payloads.len() as int;
            let f = frame(nth_lsn(base, n), payload);
            let g = frame(nth_lsn(base, n + 1), next_payload);
            let x = HEADER_SIZE + frames(base, payloads).len();
            &&& 0 <= i < f.len()
            &&& i < 4 || 8 <= i
            &&& byte != f[i]
            &&& holds_at(file, HEADER_SIZE as int, frames(base, payloads) + f.update(i, byte) + g)
            &&& x + f.len() + g.len() <= size
        }),
    ensures
        ({
            let x = HEADER_SIZE + frames(base, payloads).len();
            &&& verdict(file, base, true, size, max) == (Verdict::TornMidLog { at: x })
            &&& verdict(file, base, false, size, max) == (Verdict::Corruption { at: x })
            &&& segment_run(file, base, size, max).payloads == payloads
        }),
{
    let n = payloads.len() as int;
    let f = frame(nth_lsn(base, n), payload);
    let g = frame(nth_lsn(base, n + 1), next_payload);
    let a = frames(base, payloads);
    let h = HEADER_SIZE as int;
    let x = h + a.len();
    lemma_frame_len(nth_lsn(base, n), payload);
    lemma_frame_len(nth_lsn(base, n + 1), next_payload);
    assert(a + f.update(i, byte) + g =~= a + (f.update(i, byte) + g));
    lemma_holds_parts(file, h, a, f.update(i, byte) + g);
    lemma_holds_parts(file, x, f.update(i, byte), g);
    law_changed_byte_is_invalid(file, x, nth_lsn(base, n), payload, i, byte, size, max);
    law_damage_before_a_record_is_fatal(
        file,
        base,
        payloads,
        payload.len() as int,
        next_payload,
        size,
        max,
    );
}

/// A file that holds two parts in a row holds each.
pub proof fn lemma_holds_parts(file: Seq<u8>, at: int, a: Seq<u8>, b: Seq<u8>)
    requires
        holds_at(file, at, a + b),
    ensures
        holds_at(file, at, a),
        holds_at(file, at + a.len(), b),
{
    let both = file.subrange(at, at + (a + b).len());
    assert forall|i: int| 0 <= i < a.len() implies file[at + i] == a[i] by {
        assert(both[i] == (a + b)[i]);
    }
    assert forall|i: int| 0 <= i < b.len() implies file[at + a.len() + i] == b[i] by {
        assert(both[a.len() + i] == (a + b)[a.len() + i]);
    }
    assert(file.subrange(at, at + a.len()) =~= a);
    assert(file.subrange(at + a.len(), at + a.len() + b.len()) =~= b);
}

/// One byte changed in the last record, outside its length field, cuts the log off
/// at that record and keeps everything before it, unless the damaged frame itself
/// holds what passes for a later record.
pub proof fn law_changed_byte_in_last_record_is_cut_off(
    file: Seq<u8>,
    base: u64,
    payloads: Seq<Seq<u8>>,
    payload: Seq<u8>,
    i: int,
    byte: u8,
    size: int,
    max: u32,
)
    requires
        1 <= base,
        bounded(payloads, max),
        payload.len() <= max,
        ({
            let n = payloads.len() as int;
            let f = frame(nth_lsn(base, n), payload);
            let x = HEADER_SIZE + frames(base, payloads).len();
            &&& 0 <= i < f.len()
            &&& i < 4 || 8 <= i
            &&& byte != f[i]
            &&& holds_at(file, HEADER_SIZE as int, frames(base, payloads) + f.update(i, byte))
            &&& x + f.len() <= size <= file.len()
            &&& forall|j: int| x + f.len() <= j < size ==> file[j] == 0
            &&& forall|at: int|
                x + 8 <= at < x + f.len() ==> !(#[trigger] slot_at(
                    file,
                    at,
                    size,
                    max,
                ) matches Slot::Record { lsn, .. } && lsn >= nth_lsn(base, n))
        }),
    ensures
        ({
            let x = HEADER_SIZE + frames(base, payloads).len();
            &&& verdict(file, base, true, size, max) == (Verdict::Truncated {
                max_lsn: last_lsn(base, payloads.len() as int),
                end: x,
            })
            &&& verdict(file, base, false, size, max) == (Verdict::Corruption { at: x })
            &&& segment_run(file, base, size, max).payloads == payloads
        }),
{
    let n = payloads.len() as int;
    let due = nth_lsn(base, n);
    let f = frame(due, payload);
    let a = frames(base, payloads);
    let x = HEADER_SIZE + a.len();
    lemma_frame_len(due, payload);
    lemma_holds_parts(file, HEADER_SIZE as int, a, f.update(i, byte));
    law_changed_byte_is_invalid(file, x, due, payload, i, byte, size, max);
    lemma_run_of_frames(file, HEADER_SIZE as int, base, payloads, size, max);
    let rest: Seq<Seq<u8>> = seq![];
    assert(payloads + rest =~= payloads);
    assert forall|d: int| !continues_at(file, x, due, size, max, d) by {
        if continues_at(file, x, due, size, max, d) {
            let at = x + 8 + d;
            if at >= x + f.len() && size - at >= 20 {
                assert(file.subrange(at, at + 20) =~= zeros(20));
            }
        }
    }
}

/// Whether no bytes at `x`, or in the rest of a torn record up to `end`, pass for a
/// record that is due or later.
pub open spec fn holds_no_due_record(
    file: Seq<u8>,
    x: int,
    end: int,
    due: u64,
    size: int,
    max: u32,
) -> bool {
    &&& !(slot_at(file, x, size, max) matches Slot::Record { lsn, .. } && lsn == due)
    &&& forall|at: int|
        x + 8 <= at < end && (at - x) % 8 == 0 ==> !(#[trigger] slot_at(
            file,
            at,
            size,
            max,
        ) matches Slot::Record { lsn, .. } && lsn >= due)
}

/// Behind a torn record with zeros after it there is nothing.
pub proof fn lemma_torn_record(file: Seq<u8>, x: int, end: int, due: u64, size: int, max: u32)
    requires
        0 <= x,
        size <= file.len(),
        forall|j: int| end <= j < size ==> file[j] == 0,
        holds_no_due_record(file, x, end, due, size, max),
    ensures
        run(file, x, due, size, max) == (Run {
            payloads: seq![],
            end: x,
            clean: slot_at(file, x, size, max) is End,
        }),
        !continues_ahead(file, x, due, size, max),
{
    assert forall|d: int| !continues_at(file, x, due, size, max, d) by {
        if continues_at(file, x, due, size, max, d) {
            let at = x + 8 + d;
            if at >= end && size - at >= 20 {
                assert(file.subrange(at, at + 20) =~= zeros(20));
            }
        }
    }
}

/// A write that was cut short leaves whole records: where only the first `k` bytes
/// of a record's frame reached the file and the rest still reads as zeros, exactly
/// the records before it are recovered, unless what stands there passes for a
/// record that is due.
pub proof fn law_torn_write_keeps_whole_records(
    file: Seq<u8>,
    base: u64,
    whole: Seq<Seq<u8>>,
    torn: Seq<u8>,
    k: int,
    size: int,
    max: u32,
)
    requires
        bounded(whole, max),
        torn.len() <= max,
        ({
            let x = HEADER_SIZE + frames(base, whole).len();
            let due = nth_lsn(base, whole.len() as int);
            let f = frame(due, torn);
            &&& 0 <= k < f.len()
            &&& holds_at(file, HEADER_SIZE as int, frames(base, whole) + f.take(k))
            &&& x + f.len() <= size <= file.len()
            &&& forall|j: int| x + k <= j < size ==> file[j] == 0
            &&& holds_no_due_record(file, x, x + k, due, size, max)
        }),
    ensures
        segment_run(file, base, size, max).payloads == whole,
        match verdict(file, base, true, size, max) {
            Verdict::Clean { max_lsn, end } => max_lsn == last_lsn(base, whole.len() as int) && end
                == HEADER_SIZE + frames(base, whole).len(),
            Verdict::Truncated { max_lsn, end } => max_lsn == last_lsn(base, whole.len() as int)
                && end == HEADER_SIZE + frames(base, whole).len(),
            _ => false,
        },
{
    let a = frames(base, whole);
    let x = HEADER_SIZE + a.len();
    let due = nth_lsn(base, whole.len() as int);
    lemma_holds_parts(file, HEADER_SIZE as int, a, frame(due, torn).take(k));
    lemma_run_of_frames(file, HEADER_SIZE as int, base, whole, size, max);
    lemma_torn_record(file, x, x + k, due, size, max);
    let rest: Seq<Seq<u8>> = seq![];
    assert(whole + rest =~= whole);
}

/// A forward scan never goes further than its bound, whatever the bytes.
pub proof fn law_scan_is_bounded(file: Seq<u8>, x: int, due: u64, size: int, max: u32)
    ensures
        0 <= scan_reach(file, x, due, size, max) <= scan_limit(max),
        continues_ahead(file, x, due, size, max) ==> first_continues_at(
            file,
            x,
            due,
            size,
            max,
            scan_reach(file, x, due, size, max),
        ),
{
    if continues_ahead(file, x, due, size, max) {
        let d = choose|d: int| continues_at(file, x, due, size, max, d);
        lemma_first_continuation(file, x, due, size, max, d);
    }
}

/// Where some record continues the log, there is a first one.
proof fn lemma_first_continuation(
    file: Seq<u8>,
    x: int,
    due: u64,
    size: int,
    max: u32,
    d: int,
)
    requires
        continues_at(file, x, due, size, max, d),
    ensures
        exists|e: int| first_continues_at(file, x, due, size, max, e),
    decreases d,
{
    if exists|e: int| continues_at(file, x, due, size, max, e) && e < d {
        let e = choose|e: int| continues_at(file, x, due, size, max, e) && e < d;
        lemma_first_continuation(file, x, due, size, max, e);
    } else {
        assert(first_continues_at(file, x, due, size, max, d));
    }
}

} // verus!
