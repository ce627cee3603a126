//! Checkpoints: what becomes of the directory once its caller has removed what a
//! checkpoint asked for.

use vstd::prelude::*;

use crate::disk::first_bases;
use crate::disk::law_checkpoint_keeps_the_rest;
use crate::disk::represents;
use crate::error::WalError;
use crate::lsn::Lsn;
use crate::observer::DurabilityObserver;
use crate::wal::deletable_prefix_len;
use crate::wal::lemma_deletable;
use crate::wal::ordered;
use crate::wal::CheckpointAction;
use crate::wal::CheckpointEvent;
use crate::wal::Reclaim;
use crate::wal::Wal;
use crate::wal::WalState;

verus! {

/// Whether the first `count` segments, and no more of them, hold no record above `up_to`:
/// a segment ends where the next one begins, and the last one has no end.
pub open spec fn superseded(segments: Seq<Lsn>, count: int, up_to: u64) -> bool {
    &&& 0 <= count
    &&& count < segments.len() || count == 0
    &&& forall|i: int| 1 <= i <= count ==> (#[trigger] segments[i]).0 <= up_to + 1
    &&& count + 1 < segments.len() ==> segments[count + 1].0 > up_to + 1
}

/// Handle `s` without its first `gone` segments, and without a checkpoint under way.
pub open spec fn without(s: WalState, gone: int) -> WalState {
    WalState { segments: s.segments.skip(gone), reclaim: Reclaim::Idle, ..s }
}

/// Whether `disk` holds what handle `s` takes for durable, but for its first `gone`
/// segments.
pub open spec fn reclaimed_so_far(
    disk: Map<u64, Seq<u8>>,
    s: WalState,
    parts: Seq<Seq<Seq<u8>>>,
    gone: int,
) -> bool {
    represents(disk, without(s, gone), parts.skip(gone))
}

/// The boundary that `deletable_prefix_len` finds.
pub proof fn law_deletable_segments_are_superseded(bases: &[Lsn], up_to: Lsn, n: usize)
    requires
        ordered(bases@),
        call_ensures(deletable_prefix_len, (bases, up_to), n),
    ensures
        superseded(bases@, n as int, up_to.0),
{
    lemma_deletable(bases@, up_to.0);
}

/// A checkpoint starts with the oldest segment, where every record of it is superseded,
/// and is done at once where there is none.
pub proof fn law_checkpoint_starts_with_the_oldest<O: DurabilityObserver>(
    w: &mut Wal<O>,
    up_to: Lsn,
    r: Result<CheckpointAction, WalError>,
    disk: Map<u64, Seq<u8>>,
    parts: Seq<Seq<Seq<u8>>>,
)
    requires
        old(w).wf(),
        old(w)@.reclaim is Idle,
        represents(disk, old(w)@, parts),
        call_ensures(Wal::<O>::checkpoint, (w, up_to), r),
    ensures
        final(w).wf(),
        final(w)@ == (WalState { reclaim: final(w)@.reclaim, ..old(w)@ }),
        final(w).observer() == old(w).observer(),
        r is Ok <==> !old(w)@.poisoned,
        r matches Err(e) ==> e is Poisoned && final(w)@ == old(w)@,
        r matches Ok(action) ==> match action {
            CheckpointAction::Done => superseded(old(w)@.segments, 0, up_to.0) && final(w)@
                == old(w)@,
            CheckpointAction::Unlink(base) => {
                &&& base == old(w)@.segments[0]
                &&& base.0 + parts[0].len() - 1 <= up_to.0
                &&& final(w)@.reclaim matches Reclaim::Unlink { at, count }
                &&& at == 0
                &&& 0 < count
                &&& superseded(old(w)@.segments, count, up_to.0)
                &&& reclaimed_so_far(disk, final(w)@, parts, 0)
            },
            CheckpointAction::SyncDir => false,
        },
{
    let s = old(w)@;
    lemma_deletable(s.segments, up_to.0);
    assert(s.segments.skip(0) =~= s.segments);
    assert(parts.skip(0) =~= parts);
    assert(without(s, 0) == s);
    if let Ok(CheckpointAction::Unlink(_)) = r {
        assert(without(final(w)@, 0) == s);
        law_checkpoint_keeps_the_rest(disk, s, parts, up_to.0, 1);
    }
}

/// Removing the segment that a checkpoint asked for keeps every record that is not
/// superseded: it is the oldest that is left, all of its records lie before the first
/// segment that stays, and what is left is the rest of the log. Told so, the checkpoint
/// asks for the next one, or for the sync behind the last.
pub proof fn law_unlink_asked_for_keeps_the_rest<O: DurabilityObserver>(
    asking: &mut Wal<O>,
    up_to: Lsn,
    event: CheckpointEvent,
    base: Lsn,
    w: &mut Wal<O>,
    told: CheckpointEvent,
    r: Result<CheckpointAction, WalError>,
    disk: Map<u64, Seq<u8>>,
    parts: Seq<Seq<Seq<u8>>>,
    at: int,
    count: int,
)
    requires
        old(asking).wf(),
        call_ensures(
            Wal::<O>::checkpoint,
            (asking, up_to),
            Ok::<CheckpointAction, WalError>(CheckpointAction::Unlink(base)),
        ) || call_ensures(
            Wal::<O>::checkpoint_step,
            (asking, event),
            Ok::<CheckpointAction, WalError>(CheckpointAction::Unlink(base)),
        ),
        *old(w) == *final(asking),
        old(w)@.reclaim == (Reclaim::Unlink { at, count }),
        reclaimed_so_far(disk, old(w)@, parts, at),
        parts.len() == old(w)@.segments.len(),
        told is Unlinked || told is Missing,
        call_ensures(Wal::<O>::checkpoint_step, (w, told), r),
    ensures
        final(w).wf(),
        final(w)@.segments == old(w)@.segments,
        base == old(w)@.segments[at],
        at < count,
        base.0 + parts[at].len() - 1 < old(w)@.segments[count].0,
        reclaimed_so_far(disk.remove(base.0), final(w)@, parts, at + 1),
        if at + 1 < count {
            &&& r matches Ok(CheckpointAction::Unlink(next))
            &&& next == old(w)@.segments[at + 1]
            &&& final(w)@.reclaim == (Reclaim::Unlink { at: at + 1, count })
        } else {
            &&& r matches Ok(CheckpointAction::SyncDir)
            &&& final(w)@.reclaim == (Reclaim::Sync { count })
        },
{
    let s = old(w)@;
    old(w).law_handle_is_valid();
    let t = without(s, at);
    let q = parts.skip(at);
    assert(t.segments[0] == s.segments[at]);
    assert(t.segments[1] == s.segments[at + 1]);
    assert(crate::disk::continued(t.segments, q, 0));
    assert(q[0] == parts[at]);
    let bound = (t.segments[1].0 - 1) as u64;
    assert(crate::wal::deletable(t.segments, bound) >= 1) by {
        lemma_deletable(t.segments.drop_first(), bound);
    }
    law_checkpoint_keeps_the_rest(disk, t, q, bound, 1);
    assert(disk.remove_keys(first_bases(t.segments, 1)) =~= disk.remove(base.0)) by {
        assert forall|b: u64| first_bases(t.segments, 1).contains(b) <==> b == base.0 by {
            if b == base.0 {
                assert(t.segments[0].0 == b);
            }
        }
    }
    assert(t.segments.skip(1) =~= s.segments.skip(at + 1));
    assert(q.skip(1) =~= parts.skip(at + 1));
    assert(s.segments[at + 1].0 <= s.segments[count].0);
}

/// A checkpoint ends with the handle on the rest of the log, once its removals are synced:
/// it has forgotten exactly the segments that it asked to remove.
pub proof fn law_checkpoint_ends_with_the_rest<O: DurabilityObserver>(
    w: &mut Wal<O>,
    r: Result<CheckpointAction, WalError>,
    after: &Wal<O>,
    segments: &[Lsn],
    disk: Map<u64, Seq<u8>>,
    parts: Seq<Seq<Seq<u8>>>,
    count: int,
)
    requires
        old(w).wf(),
        !old(w)@.poisoned,
        old(w)@.reclaim == (Reclaim::Sync { count }),
        reclaimed_so_far(disk, old(w)@, parts, count),
        call_ensures(Wal::<O>::checkpoint_step, (w, CheckpointEvent::Synced), r),
        *after == *final(w),
        call_ensures(Wal::<O>::segments, (after,), segments),
    ensures
        final(w).wf(),
        r matches Ok(CheckpointAction::Done),
        segments@ == old(w)@.segments.skip(count),
        segments@.len() >= 1,
        represents(disk, final(w)@, parts.skip(count)),
        final(w)@.pending == old(w)@.pending,
        final(w)@.durable == old(w)@.durable,
{
}

/// A failure of a removal or of its sync is never taken for success, and poisons the
/// handle.
pub proof fn law_failed_removal_is_an_error<O: DurabilityObserver>(
    w: &mut Wal<O>,
    e: std::io::Error,
    r: Result<CheckpointAction, WalError>,
)
    requires
        old(w).wf(),
        !old(w)@.poisoned,
        !(old(w)@.reclaim is Idle),
        call_ensures(Wal::<O>::checkpoint_step, (w, CheckpointEvent::Failed(e)), r),
    ensures
        r == Err::<CheckpointAction, WalError>(WalError::Io(e)),
        final(w)@.poisoned,
        final(w)@.segments == old(w)@.segments,
        final(w)@.durable == old(w)@.durable,
{
}

/// The handle forgets segments only where their removals are reported as synced, and a
/// checkpoint changes nothing else.
pub proof fn law_only_synced_removals_count<O: DurabilityObserver>(
    w: &mut Wal<O>,
    event: CheckpointEvent,
    r: Result<CheckpointAction, WalError>,
)
    requires
        old(w).wf(),
        call_ensures(Wal::<O>::checkpoint_step, (w, event), r),
    ensures
        final(w)@.segments != old(w)@.segments ==> event is Synced && old(w)@.reclaim is Sync,
        final(w)@.segments.last() == old(w)@.segments.last(),
        final(w)@.durable == old(w)@.durable,
        final(w)@.pending == old(w)@.pending,
        final(w)@.write_offset == old(w)@.write_offset,
        final(w).observer() == old(w).observer(),
        final(w)@.due == old(w)@.due,
        final(w)@.size == old(w)@.size,
        final(w)@.max == old(w)@.max,
        event is Synced && old(w)@.reclaim is Unlink ==> final(w)@ == old(w)@,
        (event is Unlinked || event is Missing) && !(old(w)@.reclaim is Unlink) ==> final(w)@
            == old(w)@,
        old(w)@.poisoned || old(w)@.reclaim is Idle ==> final(w)@ == old(w)@,
        final(w)@.poisoned && !old(w)@.poisoned ==> event is Failed,
        r is Err && !old(w)@.poisoned ==> event is Failed,
{
    old(w).law_handle_is_valid();
}

/// What a checkpoint says is where it stands, and one that is under way is taken up as it
/// is.
pub proof fn law_checkpoint_says_where_it_stands<O: DurabilityObserver>(
    w: &mut Wal<O>,
    up_to: Lsn,
    event: CheckpointEvent,
    action: CheckpointAction,
)
    requires
        old(w).wf(),
        call_ensures(
            Wal::<O>::checkpoint,
            (w, up_to),
            Ok::<CheckpointAction, WalError>(action),
        ) || call_ensures(
            Wal::<O>::checkpoint_step,
            (w, event),
            Ok::<CheckpointAction, WalError>(action),
        ),
    ensures
        match final(w)@.reclaim {
            Reclaim::Idle => action is Done,
            Reclaim::Unlink { at, .. } => action == CheckpointAction::Unlink(
                final(w)@.segments[at],
            ),
            Reclaim::Sync { .. } => action is SyncDir,
        },
        call_ensures(
            Wal::<O>::checkpoint,
            (w, up_to),
            Ok::<CheckpointAction, WalError>(action),
        ) && !(old(w)@.reclaim is Idle) ==> final(w)@ == old(w)@,
{
}

} // verus!
