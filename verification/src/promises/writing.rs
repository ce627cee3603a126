//! Appending and committing: what becomes of the records, and of the directory once its
//! caller has done what a commit asked for.

use vstd::prelude::*;

use crate::config::WalConfig;
use crate::crc::crc32c_of;
use crate::disk::extended;
use crate::disk::flat;
use crate::disk::law_log_is_append_only;
use crate::disk::law_log_is_dense;
use crate::disk::law_roll_is_stored;
use crate::disk::law_write_is_stored;
use crate::disk::represents;
use crate::disk::spliced;
use crate::error::WalError;
use crate::history::lemma_planned_is_sound;
use crate::history::World;
use crate::image::bounded;
use crate::image::frames;
use crate::image::lemma_bounded_parts;
use crate::image::lemma_span;
use crate::image::span;
use crate::lsn::next_lsn;
use crate::lsn::Lsn;
use crate::observer::DurabilityObserver;
use crate::promises::codec::framed;
use crate::promises::codec::lemma_frame_bytes;
use crate::promises::codec::lemma_framed;
use crate::promises::codec::record_bytes;
use crate::record::frame;
use crate::segment::encode_header;
use crate::wal::fitting;
use crate::wal::lemma_fitting;
use crate::wal::rolled;
use crate::wal::written;
use crate::wal::CheckpointAction;
use crate::wal::CheckpointEvent;
use crate::wal::CommitAction;
use crate::wal::CommitEvent;
use crate::wal::Due;
use crate::wal::Wal;
use crate::wal::WalState;

verus! {

/// `n` zero bytes.
pub open spec fn zero_bytes(n: int) -> Seq<u8> {
    Seq::new(n as nat, |i: int| 0u8)
}

/// An append numbers its record one behind the last, keeps the directory as it is, and
/// adds the payload to those that wait for a commit. It refuses exactly what is longer
/// than the bound, and everything once the handle is poisoned.
pub proof fn law_append_numbers_and_keeps_the_record<O: DurabilityObserver>(
    w: &mut Wal<O>,
    payload: &[u8],
    r: Result<Lsn, WalError>,
    disk: Map<u64, Seq<u8>>,
    parts: Seq<Seq<Seq<u8>>>,
)
    requires
        old(w).wf(),
        represents(disk, old(w)@, parts),
        call_ensures(Wal::<O>::append, (w, payload), r),
    ensures
        final(w).wf(),
        represents(disk, final(w)@, parts),
        r is Ok <==> !old(w)@.poisoned && payload@.len() <= old(w)@.max,
        r is Ok ==> final(w)@ == (WalState {
            pending: old(w)@.pending.push(payload@),
            ..old(w)@
        }),
        final(w).observer() == old(w).observer(),
        old(w)@.segments[0].0 + flat(parts).len() + old(w)@.pending.len() <= u64::MAX ==> (
        r matches Ok(lsn) ==> lsn.0 == old(w)@.segments[0].0 + flat(parts).len()
            + old(w)@.pending.len()),
        r is Err ==> final(w)@ == old(w)@,
        r matches Err(e) ==> if old(w)@.poisoned {
            e is Poisoned
        } else {
            e is RecordTooLarge
        },
{
    law_log_is_dense(disk, old(w)@, parts);
    final(w).law_handle_is_valid();
    assert(final(w)@.segments == old(w)@.segments);
}

/// The first thing that a commit asks for leaves the records and the directory as they
/// are, and a commit with nothing to do says so with the last record's LSN.
pub proof fn law_commit_starts<O: DurabilityObserver>(
    w: &mut Wal<O>,
    r: Result<CommitAction, WalError>,
    disk: Map<u64, Seq<u8>>,
    parts: Seq<Seq<Seq<u8>>>,
)
    requires
        old(w).wf(),
        represents(disk, old(w)@, parts),
        call_ensures(Wal::<O>::commit, (w,), r),
    ensures
        final(w).wf(),
        represents(disk, final(w)@, parts),
        final(w)@ == (WalState { due: final(w)@.due, ..old(w)@ }),
        !(old(w)@.due is Nothing) ==> final(w)@ == old(w)@,
        final(w).observer() == old(w).observer(),
        r is Ok <==> !old(w)@.poisoned,
        r matches Err(e) ==> e is Poisoned && final(w)@ == old(w)@,
        r matches Ok(CommitAction::Done(lsn)) ==> old(w)@.pending.len() == 0 && lsn.0 + 1
            == old(w)@.segments[0].0 + flat(parts).len(),
        old(w)@.pending.len() == 0 && old(w)@.due is Nothing ==> (r matches Ok(action)
            ==> action is Done),
{
    law_log_is_dense(disk, old(w)@, parts);
    final(w).law_handle_is_valid();
    if !old(w)@.poisoned && old(w)@.due is Nothing {
        lemma_planned_is_sound(World { disk, state: old(w)@, parts });
    }
}

/// Doing the write that a commit asked for stores records: the bytes that it names, put
/// into the segment that it names at the offset that it names, add the first of the
/// waiting records behind all durable ones. Every earlier record stays as it is, and no
/// other segment is touched. Told so, the commit goes on with the rest, and is done only
/// when nothing waits any more.
pub proof fn law_write_asked_for_stores_the_records<O: DurabilityObserver>(
    asking: &mut Wal<O>,
    event: CommitEvent,
    segment: Lsn,
    offset: u64,
    asked: &Wal<O>,
    bytes: &[u8],
    w: &mut Wal<O>,
    r: Result<CommitAction, WalError>,
    disk: Map<u64, Seq<u8>>,
    parts: Seq<Seq<Seq<u8>>>,
)
    requires
        old(asking).wf(),
        call_ensures(
            Wal::<O>::commit,
            (asking,),
            Ok::<CommitAction, WalError>(CommitAction::Write { segment, offset }),
        ) || call_ensures(
            Wal::<O>::commit_step,
            (asking, event),
            Ok::<CommitAction, WalError>(CommitAction::Write { segment, offset }),
        ),
        *asked == *final(asking),
        call_ensures(Wal::<O>::due_bytes, (asked,), bytes),
        *old(w) == *final(asking),
        call_ensures(Wal::<O>::commit_step, (w, CommitEvent::Synced), r),
        represents(disk, old(w)@, parts),
        old(w)@.durable + old(w)@.pending.len() < u64::MAX,
    ensures
        ({
            let n = old(w)@.pending.len() - final(w)@.pending.len();
            let stored = old(w)@.pending.take(n);
            let after = disk.insert(
                segment.0,
                spliced(disk[segment.0], offset as int, bytes@),
            );
            &&& final(w).wf()
            &&& r is Ok
            &&& 0 < n <= old(w)@.pending.len()
            &&& final(w)@.pending == old(w)@.pending.skip(n)
            &&& represents(after, final(w)@, extended(parts, stored))
            &&& flat(extended(parts, stored)) == flat(parts) + stored
            &&& segment == old(w)@.segments[old(w)@.segments.len() - 1]
            &&& final(w)@.segments == old(w)@.segments
            &&& 64 <= offset
            &&& offset + bytes@.len() <= old(w)@.size
            &&& r matches Ok(CommitAction::Done(lsn)) ==> final(w)@.pending.len() == 0 && lsn.0
                + 1 == old(w)@.segments[0].0 + flat(parts).len() + stored.len()
            &&& final(w)@.pending.len() == 0 ==> (r matches Ok(CommitAction::Done(_)))
            &&& (r matches Ok(CommitAction::Roll(_)) ==> offset + bytes@.len() + framed(
                final(w)@.pending[0].len() as int,
            ) > old(w)@.size)
        }),
{
    let s = old(w)@;
    let count = s.due->count;
    assert(s.due is Write);
    law_write_is_stored(disk, s, parts, count);
    let stored = s.pending.take(count as int);
    let after = disk.insert(segment.0, spliced(disk[segment.0], offset as int, bytes@));
    let t = written(s, count);
    let new_parts = extended(parts, stored);
    lemma_planned_is_sound(World { disk: after, state: t, parts: new_parts });
    lemma_bounded_parts(s.pending, count as int, s.max);
    lemma_span(next_lsn(s.durable), stored);
    law_log_is_append_only(parts, stored, 0);
    law_log_is_dense(after, t, new_parts);
    assert(final(w)@.pending =~= s.pending.skip(count as int));
    if final(w)@.pending.len() > 0 {
        lemma_framed(final(w)@.pending[0].len() as int);
    }
}

/// Making the segment that a commit asked for keeps every record: a file of its own, with
/// the header for the base that it names and zeros behind, is ready for the waiting
/// records, and the commit goes on to write them.
pub proof fn law_segment_asked_for_is_ready<O: DurabilityObserver>(
    asking: &mut Wal<O>,
    event: CommitEvent,
    base: Lsn,
    created: u64,
    header_bytes: Vec<u8>,
    w: &mut Wal<O>,
    r: Result<CommitAction, WalError>,
    disk: Map<u64, Seq<u8>>,
    parts: Seq<Seq<Seq<u8>>>,
)
    requires
        old(asking).wf(),
        call_ensures(
            Wal::<O>::commit,
            (asking,),
            Ok::<CommitAction, WalError>(CommitAction::Roll(base)),
        ) || call_ensures(
            Wal::<O>::commit_step,
            (asking, event),
            Ok::<CommitAction, WalError>(CommitAction::Roll(base)),
        ),
        *old(w) == *final(asking),
        call_ensures(encode_header, (base, created), header_bytes),
        call_ensures(Wal::<O>::commit_step, (w, CommitEvent::Rolled), r),
        represents(disk, old(w)@, parts),
        old(w)@.durable + old(w)@.pending.len() < u64::MAX,
    ensures
        ({
            let after = disk.insert(
                base.0,
                header_bytes@ + zero_bytes(old(w)@.size - header_bytes@.len()),
            );
            &&& final(w).wf()
            &&& r matches Ok(CommitAction::Write { .. })
            &&& final(w)@.pending == old(w)@.pending
            &&& represents(after, final(w)@, parts.push(seq![]))
            &&& flat(parts.push(seq![])) == flat(parts)
            &&& final(w)@.segments == old(w)@.segments.push(base)
            &&& base.0 == old(w)@.segments[0].0 + flat(parts).len()
            &&& forall|i: int|
                0 <= i < old(w)@.segments.len() ==> (#[trigger] old(w)@.segments[i]).0 < base.0
        }),
{
    let s = old(w)@;
    assert(s.due is Roll);
    law_roll_is_stored(disk, s, parts, created);
    let after = disk.insert(
        base.0,
        header_bytes@ + zero_bytes(s.size - header_bytes@.len()),
    );
    assert(zero_bytes(s.size - 64) =~= crate::record::zeros((s.size - 64) as nat));
    lemma_planned_is_sound(World { disk: after, state: rolled(s), parts: parts.push(seq![]) });
    crate::wal::law_commit_makes_progress(s);
    law_log_is_append_only(parts, seq![], 0);
    law_log_is_dense(disk, s, parts);
    let t = rolled(s);
    assert forall|i: int| 0 <= i < s.segments.len() implies (#[trigger] s.segments[i]).0 < base.0 by {
        crate::disk::lemma_bases_increase(
            after,
            t,
            parts.push(seq![]),
            i,
            t.segments.len() - 1,
        );
        assert(t.segments[i] == s.segments[i]);
    }
}

/// A failure is final: whatever part of a commit or a checkpoint fails, the error says so,
/// nothing that was durable is taken back, and from then on the handle refuses
/// everything.
pub proof fn law_failure_poisons<O: DurabilityObserver>(
    w: &mut Wal<O>,
    event: CommitEvent,
    r: Result<CommitAction, WalError>,
    later: &mut Wal<O>,
    payload: &[u8],
    appended: Result<Lsn, WalError>,
    committed: Result<CommitAction, WalError>,
    stepped: Result<CommitAction, WalError>,
    next_event: CommitEvent,
    up_to: Lsn,
    checkpointed: Result<CheckpointAction, WalError>,
    reclaimed: Result<CheckpointAction, WalError>,
    reclaim_event: CheckpointEvent,
)
    requires
        old(w).wf(),
        !old(w)@.poisoned,
        call_ensures(Wal::<O>::commit_step, (w, event), r),
        r is Err,
        *old(later) == *final(w),
    ensures
        match event {
            CommitEvent::WriteFailed(e) => r == Err::<CommitAction, WalError>(WalError::Io(e)),
            CommitEvent::SyncFailed => r matches Err(WalError::FsyncFailed),
            CommitEvent::RollFailed(e) => r == Err::<CommitAction, WalError>(WalError::Io(e)),
            _ => false,
        },
        final(w)@.durable == old(w)@.durable,
        final(w)@.segments == old(w)@.segments,
        call_ensures(Wal::<O>::append, (later, payload), appended) ==> appended matches Err(
            WalError::Poisoned,
        ),
        call_ensures(Wal::<O>::commit, (later,), committed) ==> committed matches Err(
            WalError::Poisoned,
        ),
        call_ensures(Wal::<O>::commit_step, (later, next_event), stepped) ==> stepped matches Err(
            WalError::Poisoned,
        ),
        call_ensures(Wal::<O>::checkpoint, (later, up_to), checkpointed) ==> checkpointed matches Err(
            WalError::Poisoned,
        ),
        call_ensures(Wal::<O>::checkpoint_step, (later, reclaim_event), reclaimed)
            ==> reclaimed matches Err(WalError::Poisoned),
{
}

/// A failure of what was asked for is never taken for success.
pub proof fn law_reported_failure_is_an_error<O: DurabilityObserver>(
    w: &mut Wal<O>,
    event: CommitEvent,
    r: Result<CommitAction, WalError>,
)
    requires
        old(w).wf(),
        call_ensures(Wal::<O>::commit_step, (w, event), r),
        match old(w)@.due {
            Due::Write { .. } => event is WriteFailed || event is SyncFailed,
            Due::Roll => event is RollFailed,
            Due::Nothing => false,
        },
    ensures
        r is Err,
        final(w)@.poisoned,
{
}

/// The observer is told of every advance of durability, and of nothing else: of the LSN
/// of the last record that has become durable.
pub proof fn law_observer_is_told_what_is_durable<O: DurabilityObserver>(
    w: &mut Wal<O>,
    event: CommitEvent,
    r: Result<CommitAction, WalError>,
)
    requires
        old(w).wf(),
        call_ensures(Wal::<O>::commit_step, (w, event), r),
        old(w)@.durable + old(w)@.pending.len() < u64::MAX,
    ensures
        if final(w)@.durable != old(w)@.durable {
            old(w).observer().told(Lsn(final(w)@.durable), final(w).observer())
        } else {
            final(w).observer() == old(w).observer()
        },
        final(w)@.durable + final(w)@.pending.len() == old(w)@.durable + old(w)@.pending.len(),
        final(w)@.durable >= old(w)@.durable,
{
    old(w).law_handle_is_valid();
}

/// The getters say what appends and commits have returned.
pub proof fn law_getters_agree<O: DurabilityObserver>(
    w: &mut Wal<O>,
    payload: &[u8],
    lsn: Lsn,
    prior: &Wal<O>,
    last_before: Lsn,
    after: &Wal<O>,
    last: Lsn,
    committing: &mut Wal<O>,
    event: CommitEvent,
    done: Lsn,
    ended: &Wal<O>,
    durable: Lsn,
    all: Lsn,
)
    requires
        old(w).wf(),
        call_ensures(Wal::<O>::append, (w, payload), Ok::<Lsn, WalError>(lsn)),
        *prior == *old(w),
        call_ensures(Wal::<O>::last_lsn, (prior,), last_before),
        *after == *final(w),
        call_ensures(Wal::<O>::last_lsn, (after,), last),
        old(committing).wf(),
        call_ensures(
            Wal::<O>::commit,
            (committing,),
            Ok::<CommitAction, WalError>(CommitAction::Done(done)),
        ) || call_ensures(
            Wal::<O>::commit_step,
            (committing, event),
            Ok::<CommitAction, WalError>(CommitAction::Done(done)),
        ),
        *ended == *final(committing),
        call_ensures(Wal::<O>::durable_lsn, (ended,), durable),
        call_ensures(Wal::<O>::last_lsn, (ended,), all),
    ensures
        last == lsn,
        last_before.0 < u64::MAX ==> lsn.0 == last_before.0 + 1,
        last_before.0 == u64::MAX ==> lsn == last_before,
        durable == done,
        all == done,
{
    old(committing).law_handle_is_valid();
    final(committing).law_handle_is_valid();
}

/// A commit fills its segments: the write that it starts with takes every waiting record
/// for which there is room, whole and in order, and it starts with a new segment only
/// where the first of them has no room behind the durable records.
pub proof fn law_commit_fills_the_segment<O: DurabilityObserver>(
    w: &mut Wal<O>,
    action: CommitAction,
    asked: &Wal<O>,
    bytes: &[u8],
    disk: Map<u64, Seq<u8>>,
    parts: Seq<Seq<Seq<u8>>>,
)
    requires
        old(w).wf(),
        old(w)@.due is Nothing,
        represents(disk, old(w)@, parts),
        call_ensures(Wal::<O>::commit, (w,), Ok::<CommitAction, WalError>(action)),
        *asked == *final(w),
        call_ensures(Wal::<O>::due_bytes, (asked,), bytes),
    ensures
        match action {
            CommitAction::Write { offset, .. } => final(w)@.due matches Due::Write { count } && {
                &&& 0 < count <= old(w)@.pending.len()
                &&& offset + bytes@.len() <= old(w)@.size
                &&& count < old(w)@.pending.len() ==> offset + bytes@.len() + framed(
                    old(w)@.pending[count as int].len() as int,
                ) > old(w)@.size
                &&& old(w)@.durable < u64::MAX ==> holds_records(
                    bytes@,
                    0,
                    (old(w)@.durable + 1) as u64,
                    old(w)@.pending.take(count as int),
                )
            },
            CommitAction::Roll(_) => old(w)@.pending.len() > 0 && 64 + total_framed(
                parts[parts.len() - 1],
            ) + framed(old(w)@.pending[0].len() as int) > old(w)@.size,
            CommitAction::Done(_) => old(w)@.pending.len() == 0,
        },
{
    let s = old(w)@;
    let n = fitting(s.pending, s.size - s.write_offset);
    old(w).law_handle_is_valid();
    lemma_fitting(s.pending, s.size - s.write_offset);
    lemma_total_framed(parts.last());
    if s.pending.len() > 0 {
        lemma_framed(s.pending[0].len() as int);
        assert(s.pending.take(0) =~= seq![]);
    }
    if n > 0 {
        let batch = s.pending.take(n as int);
        lemma_bounded_parts(s.pending, n as int, s.max);
        lemma_span(next_lsn(s.durable), batch);
        if n < s.pending.len() {
            lemma_framed(s.pending[n as int].len() as int);
        }
        if s.durable < u64::MAX {
            lemma_frames_hold_records(bytes@, 0, next_lsn(s.durable), batch, s.max);
        }
    }
}

/// Records become durable only by a write that was asked for and is reported as synced,
/// and a segment is added only by one that was asked for and is reported as made. Any
/// other report changes neither.
pub proof fn law_only_what_was_done_counts<O: DurabilityObserver>(
    w: &mut Wal<O>,
    event: CommitEvent,
    r: Result<CommitAction, WalError>,
    before: &Wal<O>,
    asked: &[u8],
)
    requires
        old(w).wf(),
        *before == *old(w),
        call_ensures(Wal::<O>::due_bytes, (before,), asked),
        call_ensures(Wal::<O>::commit_step, (w, event), r),
    ensures
        final(w)@.durable != old(w)@.durable || final(w)@.pending != old(w)@.pending
            || final(w)@.write_offset != old(w)@.write_offset ==> (event is Synced
            && asked@.len() > 0) || (event is Rolled && old(w)@.due is Roll),
        final(w)@.segments != old(w)@.segments ==> event is Rolled && old(w)@.due is Roll,
        event is Rolled ==> final(w)@.durable == old(w)@.durable && final(w)@.pending
            == old(w)@.pending,
        final(w)@.size == old(w)@.size,
        final(w)@.max == old(w)@.max,
        final(w)@.reclaim == old(w)@.reclaim,
        final(w)@.poisoned && !old(w)@.poisoned ==> event is WriteFailed || event is SyncFailed
            || event is RollFailed,
        old(w)@.poisoned ==> final(w)@ == old(w)@,
        match old(w)@.due {
            Due::Write { .. } => event is Rolled || event is RollFailed ==> final(w)@ == old(w)@,
            Due::Roll => event is Synced || event is SyncFailed || event is WriteFailed ==> final(w)@
                == old(w)@,
            Due::Nothing => final(w)@ == (WalState { due: final(w)@.due, ..old(w)@ }),
        },
{
    let s = old(w)@;
    old(w).law_handle_is_valid();
    if let Due::Write { count } = s.due {
        lemma_bounded_parts(s.pending, count as int, s.max);
        lemma_span(next_lsn(s.durable), s.pending.take(count as int));
    }
}

/// What a commit says is where it stands: done, at the write of the waiting bytes behind
/// the durable ones, or at the segment that the next record starts.
pub proof fn law_commit_says_where_it_stands<O: DurabilityObserver>(
    w: &mut Wal<O>,
    event: CommitEvent,
    action: CommitAction,
    after: &Wal<O>,
    bytes: &[u8],
    config: WalConfig,
)
    requires
        old(w).wf(),
        call_ensures(Wal::<O>::commit, (w,), Ok::<CommitAction, WalError>(action)) || call_ensures(
            Wal::<O>::commit_step,
            (w, event),
            Ok::<CommitAction, WalError>(action),
        ),
        *after == *final(w),
        call_ensures(Wal::<O>::due_bytes, (after,), bytes),
        call_ensures(Wal::<O>::config, (after,), config),
    ensures
        match final(w)@.due {
            Due::Nothing => action == CommitAction::Done(Lsn(final(w)@.durable))
                && final(w)@.pending.len() == 0 && bytes@.len() == 0,
            Due::Write { count } => action == (CommitAction::Write {
                segment: final(w)@.segments[final(w)@.segments.len() - 1],
                offset: final(w)@.write_offset as u64,
            }) && bytes@.len() == total_framed(final(w)@.pending.take(count as int)) && 0 < count,
            Due::Roll => (final(w)@.durable < u64::MAX ==> action == CommitAction::Roll(
                Lsn((final(w)@.durable + 1) as u64),
            )) && action is Roll && bytes@.len() == 0 && final(w)@.pending.len() > 0,
        },
        config.segment_size == old(w)@.size,
        config.max_record_size == old(w)@.max,
{
    let s = final(w)@;
    old(w).law_handle_is_valid();
    final(w).law_handle_is_valid();
    if let Due::Write { count } = s.due {
        let batch = s.pending.take(count as int);
        lemma_bounded_parts(s.pending, count as int, s.max);
        lemma_span(next_lsn(s.durable), batch);
        lemma_total_framed(batch);
    }
}

/// The bytes that records of these payloads take up.
pub open spec fn total_framed(payloads: Seq<Seq<u8>>) -> int
    decreases payloads.len(),
{
    if payloads.len() == 0 {
        0
    } else {
        framed(payloads[0].len() as int) + total_framed(payloads.drop_first())
    }
}

/// Whether the records `first` and on, with these payloads, stand back to back at `at`.
pub open spec fn holds_records(
    s: Seq<u8>,
    at: int,
    first: u64,
    payloads: Seq<Seq<u8>>,
) -> bool
    decreases payloads.len(),
{
    if payloads.len() == 0 {
        0 <= at <= s.len()
    } else {
        let n = framed(payloads[0].len() as int);
        &&& at + n <= s.len()
        &&& record_bytes(s, at, first, payloads[0], crc32c_of(s.subrange(at + 4, at + n)))
        &&& holds_records(s, at + n, next_lsn(first), payloads.drop_first())
    }
}

/// The two ways to say how much room records take.
pub proof fn lemma_total_framed(payloads: Seq<Seq<u8>>)
    ensures
        span(payloads) == total_framed(payloads),
    decreases payloads.len(),
{
    if payloads.len() > 0 {
        lemma_framed(payloads[0].len() as int);
        lemma_total_framed(payloads.drop_first());
    }
}

/// Frames back to back are records back to back.
pub proof fn lemma_frames_hold_records(
    s: Seq<u8>,
    at: int,
    first: u64,
    payloads: Seq<Seq<u8>>,
    max: u32,
)
    requires
        bounded(payloads, max),
        0 <= at <= s.len(),
        frames(first, payloads).is_prefix_of(s.skip(at)),
    ensures
        holds_records(s, at, first, payloads),
    decreases payloads.len(),
{
    if payloads.len() > 0 {
        let tail = payloads.drop_first();
        let f = frame(first, payloads[0]);
        let more = frames(next_lsn(first), tail);
        let rest = s.skip(at);
        let all = frames(first, payloads);
        assert(payloads[0].len() <= max);
        assert forall|i: int| 0 <= i < all.len() implies rest[i] == all[i] by {
            assert(rest.subrange(0, all.len() as int)[i] == all[i]);
        }
        assert(f =~= rest.subrange(0, f.len() as int));
        lemma_frame_bytes(s, at, first, payloads[0]);
        assert forall|i: int| 0 <= i < tail.len() implies (#[trigger] tail[i]).len() <= max by {
            assert(tail[i] == payloads[i + 1]);
        }
        assert(more =~= s.skip(at + f.len()).subrange(0, more.len() as int)) by {
            assert forall|i: int| 0 <= i < more.len() implies more[i] == s.skip(at + f.len())[i] by {
                assert(all[f.len() + i] == more[i]);
                assert(rest[f.len() + i] == all[f.len() + i]);
            }
        }
        lemma_frames_hold_records(s, at + f.len(), next_lsn(first), tail, max);
    }
}

} // verus!
