//! What opening a directory comes to: after a clean close, after a crash in the middle
//! of an operation, and over whatever bytes it may hold.

use vstd::prelude::*;

use crate::config::WalConfig;
use crate::disk::continued;
use crate::disk::extended;
use crate::disk::flat;
use crate::disk::law_log_is_append_only;
use crate::disk::lemma_bases_increase;
use crate::disk::lemma_header_is_local;
use crate::disk::lemma_zeros_end;
use crate::disk::represents;
use crate::disk::spliced;
use crate::disk::stored;
use crate::image::frames;
use crate::image::holds_no_due_record;
use crate::image::law_truncation_settles;
use crate::image::lemma_bounded_parts;
use crate::image::lemma_frames_concat;
use crate::image::lemma_run_extent;
use crate::image::lemma_run_of_frames;
use crate::image::lemma_run_prefix;
use crate::image::lemma_run_span;
use crate::image::lemma_span;
use crate::image::lemma_torn_record;
use crate::image::span;
use crate::image::zeroed;
use crate::lsn::next_lsn;
use crate::lsn::Lsn;
use crate::open::as_lsns;
use crate::open::cold;
use crate::open::inspection;
use crate::open::scanned;
use crate::open::started;
use crate::open::stepped;
use crate::open::Fault;
use crate::open::Found;
use crate::open::Inspection;
use crate::open::OpenReply;
use crate::open::OpenState;
use crate::open::Stepped;
use crate::recovery::last_lsn;
use crate::recovery::nth_lsn;
use crate::recovery::run;
use crate::recovery::segment_run;
use crate::recovery::verdict;
use crate::recovery::Run;
use crate::recovery::TailState;
use crate::recovery::Verdict;
use crate::segment::header_base;
use crate::segment::slot_at;
use crate::segment::HEADER_SIZE;
use crate::wal::fitting;
use crate::wal::lemma_fitting;
use crate::wal::ordered;
use crate::wal::Due;
use crate::wal::WalState;

verus! {

/// The bases of segments.
pub open spec fn bases_of(segments: Seq<Lsn>) -> Seq<u64> {
    segments.map_values(|lsn: Lsn| lsn.0)
}

/// What scanning the segments from `next` on comes to.
pub open spec fn scan_outcome(
    disk: Map<u64, Seq<u8>>,
    bases: Seq<u64>,
    next: int,
    prev: Option<u64>,
    size: int,
    max: u32,
) -> Stepped
    decreases bases.len() - next,
    when 0 <= next < bases.len()
{
    match scanned(bases, next, prev, disk[bases[next]], size, max) {
        Stepped::Next(OpenState::Scanning { next: n, prev: p, .. }) => scan_outcome(
            disk,
            bases,
            n,
            p,
            size,
            max,
        ),
        Stepped::Next(OpenState::Zeroing { found }) => Stepped::Next(OpenState::Ready { found }),
        other => other,
    }
}

/// What opening the directory `disk` comes to from `state` on, where nothing fails
/// on the way.
pub open spec fn open_outcome(
    disk: Map<u64, Seq<u8>>,
    state: OpenState,
    size: int,
    max: u32,
) -> Stepped {
    match state {
        OpenState::Inspecting { bases } => match inspection(
            disk[bases.last()],
            bases.last(),
            size,
            max,
        ) {
            Inspection::Keep => scan_outcome(disk, bases, 0, None, size, max),
            Inspection::Discard => if bases.len() == 1 {
                Stepped::Next(OpenState::Ready { found: cold() })
            } else {
                scan_outcome(disk, bases.drop_last(), 0, None, size, max)
            },
            Inspection::Bad => Stepped::Failed(Fault::BadSegmentHeader),
        },
        OpenState::Discarding { bases } => if bases.len() == 1 {
            Stepped::Next(OpenState::Ready { found: cold() })
        } else {
            scan_outcome(disk, bases.drop_last(), 0, None, size, max)
        },
        OpenState::Creating => Stepped::Next(OpenState::Ready { found: cold() }),
        OpenState::Scanning { bases, next, prev } => scan_outcome(
            disk,
            bases,
            next,
            prev,
            size,
            max,
        ),
        OpenState::Zeroing { found } => Stepped::Next(OpenState::Ready { found }),
        other => Stepped::Next(other),
    }
}

/// Whether `reply` does what was wanted in `state`, with the files as they are in
/// `disk`.
pub open spec fn answers(disk: Map<u64, Seq<u8>>, state: OpenState, reply: OpenReply) -> bool {
    match state {
        OpenState::Inspecting { bases } => reply matches OpenReply::File(file) && file@
            == disk[bases.last()],
        OpenState::Scanning { bases, next, .. } => reply matches OpenReply::File(file) && file@
            == disk[bases[next]],
        OpenState::Discarding { .. } => reply is Done,
        OpenState::Creating => reply is Done,
        OpenState::Zeroing { .. } => reply is Done,
        _ => false,
    }
}

/// How many steps lie ahead at most.
pub open spec fn steps_ahead(state: OpenState) -> int {
    match state {
        OpenState::Inspecting { bases } => bases.len() as int + 3,
        OpenState::Discarding { bases } => bases.len() as int + 2,
        OpenState::Scanning { bases, next, .. } => bases.len() - next + 1,
        OpenState::Creating => 1,
        OpenState::Zeroing { .. } => 1,
        _ => 0,
    }
}

/// Opening a log whose segments are known comes, step by step, to what
/// `open_outcome` says of the directory, and to its end: each step leaves fewer
/// ahead.
pub proof fn law_opening_reaches_its_outcome(
    disk: Map<u64, Seq<u8>>,
    state: OpenState,
    reply: OpenReply,
    size: int,
    max: u32,
)
    requires
        state.valid(size),
        answers(disk, state, reply),
    ensures
        match stepped(state, reply, size, max) {
            Stepped::Next(next) => {
                &&& open_outcome(disk, next, size, max) == open_outcome(disk, state, size, max)
                &&& 0 <= steps_ahead(next) < steps_ahead(state)
                &&& steps_ahead(next) == 0 ==> next is Ready
            },
            Stepped::Failed(fault) => open_outcome(disk, state, size, max) == Stepped::Failed(fault),
        },
{
}

/// Whether the first `n` of `segments` hold `parts`, none of them empty, each
/// continued by the next.
spec fn sealed(
    disk: Map<u64, Seq<u8>>,
    segments: Seq<Lsn>,
    parts: Seq<Seq<Seq<u8>>>,
    n: int,
    size: int,
    max: u32,
) -> bool {
    &&& 0 <= n < segments.len()
    &&& n <= parts.len()
    &&& ordered(segments)
    &&& forall|i: int| 0 <= i < n ==> #[trigger] stored(disk, segments, parts, size, max, i)
    &&& forall|i: int| 0 <= i < n ==> #[trigger] continued(segments, parts, i)
}

/// The LSN before segment `next`, where one is before it.
spec fn before(segments: Seq<Lsn>, next: int) -> Option<u64> {
    if next == 0 {
        None
    } else {
        Some((segments[next].0 - 1) as u64)
    }
}

/// Scanning passes over sealed segments.
proof fn lemma_scan_sealed(
    disk: Map<u64, Seq<u8>>,
    segments: Seq<Lsn>,
    parts: Seq<Seq<Seq<u8>>>,
    next: int,
    n: int,
    size: int,
    max: u32,
)
    requires
        sealed(disk, segments, parts, n, size, max),
        n == segments.len() - 1,
        0 <= next <= n,
    ensures
        scan_outcome(disk, bases_of(segments), next, before(segments, next), size, max)
            == scan_outcome(disk, bases_of(segments), n, before(segments, n), size, max),
        n > 0 ==> segments[n].0 >= 1 && next_lsn(before(segments, n)->0) == segments[n].0,
    decreases n - next,
{
    assert(segments[n].0 >= 1);
    if next < n {
        let base = segments[next].0;
        let bases = bases_of(segments);
        assert(bases[next] == base);
        assert(stored(disk, segments, parts, size, max, next));
        assert(continued(segments, parts, next));
        assert(segments[next].0 >= 1);
        lemma_scan_sealed(disk, segments, parts, next + 1, n, size, max);
    }
}

/// The segments of a handle but the active one are sealed.
proof fn lemma_represented_is_sealed(
    disk: Map<u64, Seq<u8>>,
    s: WalState,
    parts: Seq<Seq<Seq<u8>>>,
)
    requires
        represents(disk, s, parts),
    ensures
        sealed(disk, s.segments, parts, s.segments.len() - 1, s.size, s.max),
{
}

/// What recovery finds of handle `s`.
pub open spec fn resumable(s: WalState) -> Found {
    Found {
        bases: bases_of(s.segments),
        write_offset: s.write_offset,
        last: s.durable,
        tail: TailState::Clean,
    }
}

/// The configuration of handle `s`.
pub open spec fn config_of(s: WalState) -> WalConfig {
    WalConfig { segment_size: s.size as u64, max_record_size: s.max }
}

/// Opening brings back what was durable: a directory that holds what a handle takes
/// for durable opens with a clean tail to exactly the segments, the place to write
/// and the last durable LSN of that handle. So opening twice gives the same.
pub proof fn law_reopening_brings_back(
    disk: Map<u64, Seq<u8>>,
    s: WalState,
    parts: Seq<Seq<Seq<u8>>>,
)
    requires
        represents(disk, s, parts),
    ensures
        open_outcome(
            disk,
            OpenState::Inspecting { bases: bases_of(s.segments) },
            s.size,
            s.max,
        ) == Stepped::Next(OpenState::Ready { found: resumable(s) }),
        represents(disk, started(resumable(s), config_of(s)), parts),
{
    let bases = bases_of(s.segments);
    let top = s.segments.len() - 1;
    let base = s.segments[top].0;
    assert(bases.last() == base);
    lemma_represented_is_sealed(disk, s, parts);
    lemma_scan_sealed(disk, s.segments, parts, 0, top, s.size, s.max);
    assert(stored(disk, s.segments, parts, s.size, s.max, top));
    lemma_run_span(disk[base], HEADER_SIZE as int, base, s.size, s.max);
    let t = started(resumable(s), config_of(s));
    assert(t.segments =~= s.segments);
    assert(represents(disk, t, parts));
}

/// What opening comes to by the verdict on the active segment, at `base`.
spec fn outcome_of(bases: Seq<u64>, base: u64, v: Verdict) -> Stepped {
    match v {
        Verdict::Clean { max_lsn, end } => Stepped::Next(
            OpenState::Ready {
                found: Found { bases, write_offset: end, last: max_lsn, tail: TailState::Clean },
            },
        ),
        Verdict::Truncated { max_lsn, end } => Stepped::Next(
            OpenState::Ready {
                found: Found {
                    bases,
                    write_offset: end,
                    last: max_lsn,
                    tail: TailState::TruncatedAt { segment_base: Lsn(base), offset: end as u64 },
                },
            },
        ),
        Verdict::TornMidLog { at } => Stepped::Failed(Fault::TornMidLog { segment: base, at }),
        Verdict::Corruption { at } => Stepped::Failed(Fault::Corruption { segment: base, at }),
    }
}

/// What opening comes to after a crash in the middle of a write, which has left `left`
/// in the active segment.
proof fn lemma_crashed_outcome(
    disk: Map<u64, Seq<u8>>,
    s: WalState,
    parts: Seq<Seq<Seq<u8>>>,
    left: Seq<u8>,
)
    requires
        represents(disk, s, parts),
        s.write_offset <= left.len(),
        forall|i: int| 0 <= i < s.write_offset ==> left[i] == disk[s.segments.last().0][i],
    ensures
        ({
            let base = s.segments.last().0;
            let next = nth_lsn(base, parts.last().len() as int);
            let more = run(left, s.write_offset, next, s.size, s.max);
            &&& open_outcome(
                disk.insert(base, left),
                OpenState::Inspecting { bases: bases_of(s.segments) },
                s.size,
                s.max,
            ) == outcome_of(bases_of(s.segments), base, verdict(left, base, true, s.size, s.max))
            &&& segment_run(left, base, s.size, s.max) == (Run {
                payloads: parts.last() + more.payloads,
                end: more.end,
                clean: more.clean,
            })
        }),
{
    let bases = bases_of(s.segments);
    let top = s.segments.len() - 1;
    let base = s.segments[top].0;
    let old_file = disk[base];
    let after = disk.insert(base, left);
    assert(bases.last() == base);
    assert(stored(disk, s.segments, parts, s.size, s.max, top));
    lemma_header_is_local(left, old_file);
    lemma_run_span(old_file, HEADER_SIZE as int, base, s.size, s.max);
    lemma_run_prefix(old_file, left, HEADER_SIZE as int, base, s.size, s.max);
    lemma_represented_is_sealed(disk, s, parts);
    assert forall|i: int| 0 <= i < top implies (#[trigger] s.segments[i]).0 != base by {
        lemma_bases_increase(disk, s, parts, i, top);
    }
    assert forall|i: int| 0 <= i < top implies #[trigger] stored(
        after,
        s.segments,
        parts,
        s.size,
        s.max,
        i,
    ) by {
        assert(stored(disk, s.segments, parts, s.size, s.max, i));
        assert(s.segments[i].0 != base);
    }
    assert(sealed(after, s.segments, parts, top, s.size, s.max));
    lemma_scan_sealed(after, s.segments, parts, 0, top, s.size, s.max);
}

/// A crash loses nothing that was durable: whatever a write that was under way has
/// left in the active segment from the place to write on, or has cut off there, the
/// log opens with all durable records, or fails with `TornMidLog` behind them.
pub proof fn law_crash_keeps_durable_records(
    disk: Map<u64, Seq<u8>>,
    s: WalState,
    parts: Seq<Seq<Seq<u8>>>,
    left: Seq<u8>,
)
    requires
        represents(disk, s, parts),
        s.write_offset <= left.len(),
        forall|i: int|
            0 <= i < s.write_offset ==> left[i] == disk[s.segments.last().0][i],
    ensures
        ({
            let base = s.segments.last().0;
            let after = disk.insert(base, left);
            &&& parts.last().is_prefix_of(segment_run(left, base, s.size, s.max).payloads)
            &&& match open_outcome(
                after,
                OpenState::Inspecting { bases: bases_of(s.segments) },
                s.size,
                s.max,
            ) {
                Stepped::Next(OpenState::Ready { found }) => {
                    &&& found.bases == bases_of(s.segments)
                    &&& found.last >= s.durable
                    &&& found.write_offset >= s.write_offset
                    &&& found.last == last_lsn(
                        base,
                        segment_run(left, base, s.size, s.max).payloads.len() as int,
                    )
                },
                Stepped::Failed(Fault::TornMidLog { segment, at }) => segment == base && at
                    >= s.write_offset,
                _ => false,
            }
        }),
{
    let base = s.segments.last().0;
    let part = parts.last();
    lemma_crashed_outcome(disk, s, parts, left);
    let next = nth_lsn(base, part.len() as int);
    lemma_run_extent(left, s.write_offset, next, s.size, s.max);
    let more = run(left, s.write_offset, next, s.size, s.max).payloads;
    assert(part =~= (part + more).subrange(0, part.len() as int));
    let got = segment_run(left, base, s.size, s.max).payloads;
    assert(part.len() <= got.len());
}

/// A write that was cut short is recovered from: where a crash has left the first `n`
/// bytes of the frames that were due, the log opens with everything that was durable
/// and those of the due records whose frames have arrived whole, unless what has
/// arrived of the torn one passes for a record that is due.
pub proof fn law_torn_write_is_recovered(
    disk: Map<u64, Seq<u8>>,
    s: WalState,
    parts: Seq<Seq<Seq<u8>>>,
    count: nat,
    n: int,
)
    requires
        represents(disk, s, parts),
        s.due == (Due::Write { count }),
        ({
            let batch = s.pending.take(count as int);
            let first = next_lsn(s.durable);
            let left = spliced(
                disk[s.segments.last().0],
                s.write_offset,
                frames(first, batch).take(n),
            );
            let whole = fitting(batch, n);
            &&& 0 <= n <= span(batch)
            &&& holds_no_due_record(
                left,
                s.write_offset + span(batch.take(whole as int)),
                s.write_offset + n,
                nth_lsn(first, whole as int),
                s.size,
                s.max,
            )
        }),
    ensures
        ({
            let base = s.segments.last().0;
            let batch = s.pending.take(count as int);
            let first = next_lsn(s.durable);
            let left = spliced(disk[base], s.write_offset, frames(first, batch).take(n));
            let whole = fitting(batch, n);
            let end = s.write_offset + span(batch.take(whole as int));
            &&& segment_run(left, base, s.size, s.max).payloads == parts.last() + batch.take(
                whole as int,
            )
            &&& open_outcome(
                disk.insert(base, left),
                OpenState::Inspecting { bases: bases_of(s.segments) },
                s.size,
                s.max,
            ) == Stepped::Next(
                OpenState::Ready {
                    found: Found {
                        bases: bases_of(s.segments),
                        write_offset: end,
                        last: nth_lsn(s.durable, whole as int),
                        tail: if slot_at(left, end, s.size, s.max) is End {
                            TailState::Clean
                        } else {
                            TailState::TruncatedAt { segment_base: Lsn(base), offset: end as u64 }
                        },
                    },
                },
            )
        }),
{
    let base = s.segments.last().0;
    let part = parts.last();
    let batch = s.pending.take(count as int);
    let first = next_lsn(s.durable);
    let bytes = frames(first, batch);
    let left = spliced(disk[base], s.write_offset, bytes.take(n));
    let whole = fitting(batch, n) as int;
    let (head, tail) = (batch.take(whole), batch.skip(whole));
    let end = s.write_offset + span(head);
    let due = nth_lsn(first, whole);
    lemma_bounded_parts(s.pending, count as int, s.max);
    lemma_fitting(batch, n);
    lemma_bounded_parts(batch, whole, s.max);
    lemma_span(first, batch);
    lemma_span(first, head);
    assert(batch =~= head + tail);
    lemma_frames_concat(first, head, tail);
    assert(left.subrange(s.write_offset, end) =~= frames(first, head)) by {
        assert forall|i: int| 0 <= i < span(head) implies left[s.write_offset + i] == frames(
            first,
            head,
        )[i] by {
            assert(bytes.take(n)[i] == bytes[i]);
        }
    }
    assert(nth_lsn(base, part.len() as int) == first);
    lemma_crashed_outcome(disk, s, parts, left);
    lemma_run_of_frames(left, s.write_offset, first, head, s.size, s.max);
    lemma_torn_record(left, end, s.write_offset + n, due, s.size, s.max);
    let rest: Seq<Seq<u8>> = seq![];
    assert(head + rest =~= head);
    assert(nth_lsn(base, (part + head).len() as int) == due);
}

/// A segment whose creation was cut short is passed over: where the newest file is
/// one that inspection discards, the log opens with exactly what was durable before.
pub proof fn law_incomplete_segment_is_discarded(
    disk: Map<u64, Seq<u8>>,
    s: WalState,
    parts: Seq<Seq<Seq<u8>>>,
    base: u64,
    file: Seq<u8>,
)
    requires
        represents(disk, s, parts),
        base > s.segments.last().0,
        inspection(file, base, s.size, s.max) is Discard,
    ensures
        open_outcome(
            disk.insert(base, file),
            OpenState::Inspecting { bases: bases_of(s.segments).push(base) },
            s.size,
            s.max,
        ) == Stepped::Next(OpenState::Ready { found: resumable(s) }),
{
    let after = disk.insert(base, file);
    let bases = bases_of(s.segments).push(base);
    let top = s.segments.len() - 1;
    assert forall|i: int| 0 <= i <= top implies (#[trigger] s.segments[i]).0 != base by {
        if i < top {
            lemma_bases_increase(disk, s, parts, i, top);
        }
    }
    assert forall|i: int| 0 <= i <= top implies #[trigger] stored(
        after,
        s.segments,
        parts,
        s.size,
        s.max,
        i,
    ) by {
        assert(stored(disk, s.segments, parts, s.size, s.max, i));
        assert(s.segments[i].0 != base);
    }
    assert(represents(after, s, parts));
    law_reopening_brings_back(after, s, parts);
    assert(bases.drop_last() =~= bases_of(s.segments));
    assert(stored(after, s.segments, parts, s.size, s.max, top));
    assert(bases_of(s.segments).last() == s.segments[top].0);
}

/// No crash while a segment is created makes the log fail to open: the file is
/// empty, or it is whole with zeros behind whatever has arrived of its header, and
/// then it is kept or discarded.
pub proof fn law_interrupted_creation_is_never_fatal(
    file: Seq<u8>,
    base: u64,
    size: int,
    max: u32,
)
    requires
        max + 91 <= size,
        file.len() == 0 || file.len() == size,
        forall|i: int| HEADER_SIZE <= i < file.len() ==> file[i] == 0,
    ensures
        !(inspection(file, base, size, max) is Bad),
        header_base(file) != Some(base) ==> inspection(file, base, size, max) is Discard,
{
    if file.len() > 0 {
        lemma_zeros_end(file, HEADER_SIZE as int, size, max);
    }
}

/// The records of each of the segments at `bases`.
pub open spec fn parts_of(
    disk: Map<u64, Seq<u8>>,
    bases: Seq<u64>,
    size: int,
    max: u32,
) -> Seq<Seq<Seq<u8>>> {
    Seq::new(bases.len(), |i: int| segment_run(disk[bases[i]], bases[i], size, max).payloads)
}

/// `disk` once the torn tail that recovery found is zeroed.
pub open spec fn settled(disk: Map<u64, Seq<u8>>, found: Found, size: int) -> Map<u64, Seq<u8>> {
    let base = found.bases.last();
    if found.tail is Clean {
        disk
    } else {
        disk.insert(base, zeroed(disk[base], found.write_offset, size))
    }
}

/// Whether segment `i` has its header.
spec fn headed(disk: Map<u64, Seq<u8>>, bases: Seq<u64>, i: int) -> bool {
    header_base(disk[bases[i]]) == Some(bases[i]) && bases[i] >= 1
}

/// Whether segment `i` ends cleanly, is not empty, and its last LSN is the one before
/// the next segment.
spec fn joined(disk: Map<u64, Seq<u8>>, bases: Seq<u64>, size: int, max: u32, i: int) -> bool {
    let r = segment_run(disk[bases[i]], bases[i], size, max);
    &&& r.clean
    &&& r.payloads.len() >= 1
    &&& bases[i + 1] == next_lsn(last_lsn(bases[i], r.payloads.len() as int))
}

/// Whether segment `i` ends cleanly, is not empty, and is continued by the next one.
pub open spec fn linked(
    disk: Map<u64, Seq<u8>>,
    bases: Seq<u64>,
    size: int,
    max: u32,
    i: int,
) -> bool {
    let r = segment_run(disk[bases[i]], bases[i], size, max);
    &&& r.clean
    &&& r.payloads.len() >= 1
    &&& bases[i + 1] == bases[i] + r.payloads.len()
}

/// Whether there is an LSN for each record of segment `i`, and one behind them.
pub open spec fn numbered(
    disk: Map<u64, Seq<u8>>,
    bases: Seq<u64>,
    size: int,
    max: u32,
    i: int,
) -> bool {
    bases[i] + segment_run(disk[bases[i]], bases[i], size, max).payloads.len() <= u64::MAX
}

/// What a scan that succeeds found.
spec fn found_in(disk: Map<u64, Seq<u8>>, bases: Seq<u64>, size: int, max: u32) -> Found {
    let base = bases.last();
    let r = segment_run(disk[base], base, size, max);
    Found {
        bases,
        write_offset: r.end,
        last: last_lsn(base, r.payloads.len() as int),
        tail: if r.clean {
            TailState::Clean
        } else {
            TailState::TruncatedAt { segment_base: Lsn(base), offset: r.end as u64 }
        },
    }
}

/// What a scan that succeeds shows of the segments from `next` on.
proof fn lemma_scan_shows(
    disk: Map<u64, Seq<u8>>,
    bases: Seq<u64>,
    next: int,
    prev: Option<u64>,
    size: int,
    max: u32,
)
    requires
        0 <= next < bases.len(),
        scan_outcome(disk, bases, next, prev, size, max) matches Stepped::Next(
            OpenState::Ready { .. },
        ),
    ensures
        scan_outcome(disk, bases, next, prev, size, max) == Stepped::Next(
            OpenState::Ready { found: found_in(disk, bases, size, max) },
        ),
        verdict(disk[bases.last()], bases.last(), true, size, max) is Truncated || segment_run(
            disk[bases.last()],
            bases.last(),
            size,
            max,
        ).clean,
        prev is Some ==> next_lsn(prev->0) == bases[next],
        forall|i: int| next <= i < bases.len() ==> #[trigger] headed(disk, bases, i),
        forall|i: int| next <= i < bases.len() - 1 ==> #[trigger] joined(disk, bases, size, max, i),
    decreases bases.len() - next,
{
    let base = bases[next];
    let n = segment_run(disk[base], base, size, max).payloads.len() as int;
    if next < bases.len() - 1 {
        lemma_scan_shows(disk, bases, next + 1, Some(last_lsn(base, n)), size, max);
    }
}

/// What a scan that succeeds shows of segments whose records all have their LSNs.
pub proof fn lemma_scan_links(
    disk: Map<u64, Seq<u8>>,
    bases: Seq<u64>,
    found: Found,
    size: int,
    max: u32,
)
    requires
        bases.len() >= 1,
        scan_outcome(disk, bases, 0, None, size, max) == Stepped::Next(OpenState::Ready { found }),
        forall|i: int| 0 <= i < bases.len() ==> #[trigger] numbered(disk, bases, size, max, i),
    ensures
        found.bases == bases,
        forall|i: int|
            0 <= i < bases.len() ==> 1 <= #[trigger] bases[i] && header_base(disk[bases[i]]) == Some(
                bases[i],
            ),
        forall|i: int| 0 <= i < bases.len() - 1 ==> #[trigger] linked(disk, bases, size, max, i),
        ({
            let r = segment_run(disk[bases.last()], bases.last(), size, max);
            &&& found.write_offset == r.end
            &&& found.last == bases.last() + r.payloads.len() - 1
            &&& found.tail is Clean <==> r.clean
            &&& !r.clean ==> verdict(
                disk[bases.last()],
                bases.last(),
                true,
                size,
                max,
            ) is Truncated
        }),
{
    lemma_scan_shows(disk, bases, 0, None, size, max);
    let top = bases.len() - 1;
    assert forall|i: int| 0 <= i < bases.len() implies 1 <= #[trigger] bases[i] && header_base(
        disk[bases[i]],
    ) == Some(bases[i]) by {
        assert(headed(disk, bases, i));
    }
    assert forall|i: int| 0 <= i < top implies #[trigger] linked(disk, bases, size, max, i) by {
        assert(headed(disk, bases, i));
        assert(joined(disk, bases, size, max, i));
        assert(numbered(disk, bases, size, max, i));
    }
    assert(headed(disk, bases, top));
    assert(numbered(disk, bases, size, max, top));
}

/// Segments that are not empty and continue one another have growing bases.
pub proof fn lemma_bases_grow(
    disk: Map<u64, Seq<u8>>,
    bases: Seq<u64>,
    size: int,
    max: u32,
    i: int,
    j: int,
)
    requires
        0 <= i < j < bases.len(),
        forall|k: int| 0 <= k < bases.len() - 1 ==> #[trigger] linked(disk, bases, size, max, k),
    ensures
        bases[i] < bases[j],
    decreases j - i,
{
    assert(linked(disk, bases, size, max, j - 1));
    if i < j - 1 {
        lemma_bases_grow(disk, bases, size, max, i, j - 1);
    }
}

/// Zeroing the torn tail that recovery found changes no record and no header.
pub proof fn lemma_settled_files(
    disk: Map<u64, Seq<u8>>,
    bases: Seq<u64>,
    found: Found,
    size: int,
    max: u32,
    i: int,
)
    requires
        0 <= i < bases.len(),
        forall|j: int| 0 <= j < bases.len() - 1 ==> #[trigger] bases[j] != bases.last(),
        found.bases == bases,
        header_base(disk[bases[i]]) == Some(bases[i]),
        ({
            let r = segment_run(disk[bases.last()], bases.last(), size, max);
            &&& found.write_offset == r.end
            &&& found.tail is Clean <==> r.clean
            &&& !r.clean ==> verdict(
                disk[bases.last()],
                bases.last(),
                true,
                size,
                max,
            ) is Truncated
        }),
    ensures
        ({
            let before = disk[bases[i]];
            let after = settled(disk, found, size)[bases[i]];
            &&& i < bases.len() - 1 ==> after == before
            &&& header_base(after) == header_base(before)
            &&& segment_run(after, bases[i], size, max).payloads == segment_run(
                before,
                bases[i],
                size,
                max,
            ).payloads
            &&& segment_run(after, bases[i], size, max).end == segment_run(
                before,
                bases[i],
                size,
                max,
            ).end
            &&& i == bases.len() - 1 ==> segment_run(after, bases[i], size, max).clean
        }),
{
    let top = bases.len() - 1;
    let base = bases[top];
    let after = settled(disk, found, size);
    if i == top && !(found.tail is Clean) {
        law_truncation_settles(disk[base], base, true, size, max);
        lemma_run_extent(disk[base], HEADER_SIZE as int, base, size, max);
        lemma_header_is_local(after[base], disk[base]);
    }
}

/// A log that opens can be written on: whatever the directory held, once opening it
/// has succeeded and its torn tail is zeroed, the handle stands for exactly the records
/// in it. Behind a clean end the file has to be whole and zero.
pub proof fn law_opened_log_is_whole(
    disk: Map<u64, Seq<u8>>,
    bases: Seq<u64>,
    found: Found,
    config: WalConfig,
)
    requires
        config.valid(),
        bases.len() >= 1,
        forall|i: int| 0 <= i < bases.len() ==> disk.contains_key(#[trigger] bases[i]),
        scan_outcome(
            disk,
            bases,
            0,
            None,
            config.segment_size as int,
            config.max_record_size,
        ) == Stepped::Next(OpenState::Ready { found }),
        forall|i: int|
            0 <= i < bases.len() ==> #[trigger] numbered(
                disk,
                bases,
                config.segment_size as int,
                config.max_record_size,
                i,
            ),
        disk[bases.last()].len() <= config.segment_size,
        found.tail is Clean ==> disk[bases.last()].len() == config.segment_size && forall|j: int|
            found.write_offset <= j < config.segment_size ==> disk[bases.last()][j] == 0,
    ensures
        represents(
            settled(disk, found, config.segment_size as int),
            started(found, config),
            parts_of(disk, bases, config.segment_size as int, config.max_record_size),
        ),
{
    let size = config.segment_size as int;
    let max = config.max_record_size;
    let top = bases.len() - 1;
    let base = bases[top];
    let file = disk[base];
    let parts = parts_of(disk, bases, size, max);
    let after = settled(disk, found, size);
    let s = started(found, config);
    lemma_scan_links(disk, bases, found, size, max);
    lemma_run_span(file, HEADER_SIZE as int, base, size, max);
    lemma_run_extent(file, HEADER_SIZE as int, base, size, max);
    assert(s.segments =~= as_lsns(bases));
    assert forall|i: int| 0 <= i < top implies #[trigger] bases[i] != bases.last() by {
        lemma_bases_grow(disk, bases, size, max, i, top);
    }
    assert forall|i: int| 0 <= i <= top implies #[trigger] stored(
        after,
        s.segments,
        parts,
        size,
        max,
        i,
    ) by {
        assert(disk.contains_key(bases[i]));
        lemma_settled_files(disk, bases, found, size, max, i);
        if i < top {
            assert(linked(disk, bases, size, max, i));
        }
    }
    assert forall|i: int| 0 <= i < top implies #[trigger] continued(s.segments, parts, i) by {
        assert(linked(disk, bases, size, max, i));
    }
    assert(s.valid()) by {
        assert forall|i: int, j: int| 0 <= i <= j < s.segments.len() implies s.segments[i].0
            <= s.segments[j].0 by {
            if i < j {
                lemma_bases_grow(disk, bases, size, max, i, j);
            }
        }
        assert forall|i: int| 0 <= i < s.segments.len() implies 1 <= (#[trigger] s.segments[i]).0 by {
            assert(1 <= bases[i]);
        }
    }
}

/// Scanning again what a scan has settled.
proof fn lemma_scan_settled(
    disk: Map<u64, Seq<u8>>,
    bases: Seq<u64>,
    found: Found,
    next: int,
    prev: Option<u64>,
    size: int,
    max: u32,
)
    requires
        0 <= next < bases.len(),
        forall|j: int| 0 <= j < bases.len() - 1 ==> #[trigger] bases[j] != bases.last(),
        scan_outcome(disk, bases, next, prev, size, max) == Stepped::Next(
            OpenState::Ready { found },
        ),
    ensures
        scan_outcome(settled(disk, found, size), bases, next, prev, size, max) == Stepped::Next(
            OpenState::Ready { found: Found { tail: TailState::Clean, ..found } },
        ),
        header_base(settled(disk, found, size)[bases.last()]) == Some(bases.last()),
    decreases bases.len() - next,
{
    let top = bases.len() - 1;
    let base = bases[next];
    lemma_scan_shows(disk, bases, next, prev, size, max);
    assert(headed(disk, bases, next));
    lemma_settled_files(disk, bases, found, size, max, next);
    if next < top {
        let n = segment_run(disk[base], base, size, max).payloads.len() as int;
        assert(joined(disk, bases, size, max, next));
        lemma_scan_settled(disk, bases, found, next + 1, Some(last_lsn(base, n)), size, max);
    }
}

/// Recovery is idempotent: whatever the directory held, once opening it has succeeded
/// and its torn tail is zeroed, opening it again finds the same, with a clean tail.
pub proof fn law_recovery_is_idempotent(
    disk: Map<u64, Seq<u8>>,
    bases: Seq<u64>,
    found: Found,
    size: int,
    max: u32,
)
    requires
        bases.len() >= 1,
        bases.no_duplicates(),
        scan_outcome(disk, bases, 0, None, size, max) == Stepped::Next(OpenState::Ready { found }),
    ensures
        found.bases == bases,
        open_outcome(
            settled(disk, found, size),
            OpenState::Inspecting { bases: found.bases },
            size,
            max,
        ) == Stepped::Next(OpenState::Ready { found: Found { tail: TailState::Clean, ..found } }),
{
    lemma_scan_shows(disk, bases, 0, None, size, max);
    lemma_scan_settled(disk, bases, found, 0, None, size, max);
}

/// A crash in the middle of a write loses nothing that was durable: whatever it has
/// left in the active segment from the place to write on, or has cut off there, the
/// records of the directory start with all that were durable.
pub proof fn law_recovered_log_keeps_the_durable_one(
    disk: Map<u64, Seq<u8>>,
    s: WalState,
    parts: Seq<Seq<Seq<u8>>>,
    left: Seq<u8>,
)
    requires
        represents(disk, s, parts),
        s.write_offset <= left.len(),
        forall|i: int| 0 <= i < s.write_offset ==> left[i] == disk[s.segments.last().0][i],
    ensures
        flat(parts).is_prefix_of(
            flat(
                parts_of(
                    disk.insert(s.segments.last().0, left),
                    bases_of(s.segments),
                    s.size,
                    s.max,
                ),
            ),
        ),
{
    law_crash_keeps_durable_records(disk, s, parts, left);
    lemma_crashed_parts(disk, s, parts, left);
}

/// A crash in the middle of a write, and the recovery from it, leave a log that can be
/// written on. `left` is what the active segment holds after the crash; where its
/// records end cleanly, the rest of it has to be whole and zero.
pub proof fn law_recovered_log_is_whole(
    disk: Map<u64, Seq<u8>>,
    s: WalState,
    parts: Seq<Seq<Seq<u8>>>,
    left: Seq<u8>,
    found: Found,
)
    requires
        represents(disk, s, parts),
        s.write_offset <= left.len() <= s.size,
        forall|i: int| 0 <= i < s.write_offset ==> left[i] == disk[s.segments.last().0][i],
        open_outcome(
            disk.insert(s.segments.last().0, left),
            OpenState::Inspecting { bases: bases_of(s.segments) },
            s.size,
            s.max,
        ) == Stepped::Next(OpenState::Ready { found }),
        s.segments.last().0 + segment_run(
            left,
            s.segments.last().0,
            s.size,
            s.max,
        ).payloads.len() <= u64::MAX,
        found.tail is Clean ==> left.len() == s.size && forall|j: int|
            found.write_offset <= j < s.size ==> left[j] == 0,
    ensures
        represents(
            settled(disk.insert(s.segments.last().0, left), found, s.size),
            started(found, config_of(s)),
            parts_of(
                disk.insert(s.segments.last().0, left),
                bases_of(s.segments),
                s.size,
                s.max,
            ),
        ),
{
    let bases = bases_of(s.segments);
    let after = disk.insert(s.segments.last().0, left);
    lemma_crashed_is_inspected(disk, s, parts, left);
    lemma_crashed_is_numbered(disk, s, parts, left);
    law_opened_log_is_whole(after, bases, found, config_of(s));
}

/// There is an LSN for each record after a crash in the middle of a write.
pub proof fn lemma_crashed_is_numbered(
    disk: Map<u64, Seq<u8>>,
    s: WalState,
    parts: Seq<Seq<Seq<u8>>>,
    left: Seq<u8>,
)
    requires
        represents(disk, s, parts),
        s.segments.last().0 + segment_run(
            left,
            s.segments.last().0,
            s.size,
            s.max,
        ).payloads.len() <= u64::MAX,
    ensures
        forall|i: int|
            0 <= i < s.segments.len() ==> #[trigger] numbered(
                disk.insert(s.segments.last().0, left),
                bases_of(s.segments),
                s.size,
                s.max,
                i,
            ),
{
    let top = s.segments.len() - 1;
    let base = s.segments[top].0;
    let bases = bases_of(s.segments);
    let after = disk.insert(base, left);
    assert forall|i: int| 0 <= i < s.segments.len() implies #[trigger] numbered(
        after,
        bases,
        s.size,
        s.max,
        i,
    ) by {
        assert(bases[i] == s.segments[i].0);
        if i < top {
            lemma_bases_increase(disk, s, parts, i, top);
            assert(stored(disk, s.segments, parts, s.size, s.max, i));
            assert(continued(s.segments, parts, i));
        }
    }
}

/// A crash in the middle of a write leaves the header of the active segment.
pub proof fn lemma_crashed_is_inspected(
    disk: Map<u64, Seq<u8>>,
    s: WalState,
    parts: Seq<Seq<Seq<u8>>>,
    left: Seq<u8>,
)
    requires
        represents(disk, s, parts),
        s.write_offset <= left.len(),
        forall|i: int| 0 <= i < s.write_offset ==> left[i] == disk[s.segments.last().0][i],
    ensures
        inspection(left, s.segments.last().0, s.size, s.max) is Keep,
        bases_of(s.segments).last() == s.segments.last().0,
        forall|i: int|
            0 <= i < s.segments.len() ==> disk.insert(s.segments.last().0, left).contains_key(
                #[trigger] bases_of(s.segments)[i],
            ),
{
    let base = s.segments.last().0;
    let bases = bases_of(s.segments);
    assert(stored(disk, s.segments, parts, s.size, s.max, s.segments.len() - 1));
    lemma_header_is_local(left, disk[base]);
    assert forall|i: int| 0 <= i < s.segments.len() implies disk.insert(base, left).contains_key(
        #[trigger] bases[i],
    ) by {
        assert(stored(disk, s.segments, parts, s.size, s.max, i));
    }
}

/// The records after a crash in the middle of a write.
proof fn lemma_crashed_parts(
    disk: Map<u64, Seq<u8>>,
    s: WalState,
    parts: Seq<Seq<Seq<u8>>>,
    left: Seq<u8>,
)
    requires
        represents(disk, s, parts),
        parts.last().is_prefix_of(
            segment_run(left, s.segments.last().0, s.size, s.max).payloads,
        ),
    ensures
        flat(parts).is_prefix_of(
            flat(
                parts_of(
                    disk.insert(s.segments.last().0, left),
                    bases_of(s.segments),
                    s.size,
                    s.max,
                ),
            ),
        ),
{
    let top = s.segments.len() - 1;
    let base = s.segments[top].0;
    let bases = bases_of(s.segments);
    let now = parts_of(disk.insert(base, left), bases, s.size, s.max);
    let got = segment_run(left, base, s.size, s.max).payloads;
    let more = got.skip(parts[top].len() as int);
    assert(got =~= parts[top] + more) by {
        assert(parts[top] =~= got.subrange(0, parts[top].len() as int));
    }
    assert forall|i: int| 0 <= i < top implies now[i] == parts[i] by {
        lemma_bases_increase(disk, s, parts, i, top);
        assert(stored(disk, s.segments, parts, s.size, s.max, i));
        assert(bases[i] == s.segments[i].0);
    }
    assert(now =~= extended(parts, more));
    law_log_is_append_only(parts, more, 0);
    assert(flat(parts) =~= (flat(parts) + more).subrange(0, flat(parts).len() as int));
}

} // verus!
