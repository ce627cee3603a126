//! The single-writer handle: append, commit, checkpoint.
//!
//! The handle decides and the caller does the I/O. [`Wal::commit`] and
//! [`Wal::checkpoint`] each return the first thing to do; the caller does it and
//! reports to [`Wal::commit_step`] or [`Wal::checkpoint_step`], which return the
//! next, until there is nothing left. A failure poisons the handle.

use vstd::prelude::*;

use crate::config::WalConfig;
use crate::error::WalError;
use crate::image::bounded;
use crate::image::frames;
use crate::image::lemma_bounded_parts;
use crate::image::lemma_frame_len;
use crate::image::lemma_frames_concat;
use crate::image::lemma_frames_one;
use crate::image::lemma_nth_lsn_add;
use crate::image::lemma_span;
use crate::image::lemma_span_concat;
use crate::image::span;
use crate::lsn::next_lsn;
use crate::lsn::Lsn;
use crate::observer::DurabilityObserver;
use crate::observer::NullObserver;
use crate::record::encode_into;
use crate::record::frame;
use crate::record::frame_len;
use crate::record::lemma_frame_fields;
use crate::record::peek;
use crate::recovery::nth_lsn;
use crate::segment::HEADER_SIZE;

verus! {

/// How many of the first records fit, as whole frames, into `room` bytes.
pub open spec fn fitting(payloads: Seq<Seq<u8>>, room: int) -> nat
    decreases payloads.len(),
{
    if payloads.len() == 0 || frame_len(payloads[0].len() as int) > room {
        0
    } else {
        1 + fitting(payloads.drop_first(), room - frame_len(payloads[0].len() as int))
    }
}

/// What a commit is waiting for.
pub enum Due {
    /// Nothing: no commit is under way.
    Nothing,
    /// That the first `count` pending records are written and synced.
    Write { count: nat },
    /// That a new segment is made for the first pending record.
    Roll,
}

/// What a checkpoint is waiting for.
pub enum Reclaim {
    /// Nothing: no checkpoint is under way.
    Idle,
    /// That segment `at`, of the first `count`, is unlinked.
    Unlink { at: int, count: int },
    /// That the directory is synced, with the first `count` segments gone.
    Sync { count: int },
}

/// A log handle as its contracts see it.
pub struct WalState {
    /// The bases of the live segments, oldest first. The last one is active.
    pub segments: Seq<Lsn>,
    /// Offset in the active segment at which the next record goes.
    pub write_offset: int,
    /// LSN of the last durable record.
    pub durable: u64,
    /// Payloads of the records appended since, in order.
    pub pending: Seq<Seq<u8>>,
    /// What a commit is waiting for.
    pub due: Due,
    /// What a checkpoint is waiting for.
    pub reclaim: Reclaim,
    /// Whether a failure has poisoned the handle.
    pub poisoned: bool,
    /// Size of a segment.
    pub size: int,
    /// Bound on a payload.
    pub max: u32,
}

/// The state in which a log is opened: everything is durable.
pub open spec fn resumed(
    segments: Seq<Lsn>,
    write_offset: int,
    durable: u64,
    config: WalConfig,
) -> WalState {
    WalState {
        segments,
        write_offset,
        durable,
        pending: seq![],
        due: Due::Nothing,
        reclaim: Reclaim::Idle,
        poisoned: false,
        size: config.segment_size as int,
        max: config.max_record_size,
    }
}

/// What a commit does next in state `s`, once nothing is due: it writes as many
/// whole records as fit into the active segment, and where not one fits it rolls.
pub open spec fn planned(s: WalState) -> WalState {
    let count = fitting(s.pending, s.size - s.write_offset);
    WalState {
        due: if s.pending.len() == 0 {
            Due::Nothing
        } else if count > 0 {
            Due::Write { count }
        } else {
            Due::Roll
        },
        ..s
    }
}

/// State `s` once the records that were due are durable.
pub open spec fn written(s: WalState, count: nat) -> WalState {
    WalState {
        write_offset: s.write_offset + span(s.pending.take(count as int)),
        durable: nth_lsn(s.durable, count as int),
        pending: s.pending.skip(count as int),
        due: Due::Nothing,
        ..s
    }
}

/// State `s` once the new segment exists.
pub open spec fn rolled(s: WalState) -> WalState {
    WalState {
        segments: s.segments.push(Lsn(next_lsn(s.durable))),
        write_offset: HEADER_SIZE as int,
        due: Due::Nothing,
        ..s
    }
}

/// What a commit asks of its caller.
#[derive(Debug, Clone, Copy, PartialEq, Eq, Structural)]
pub enum CommitAction {
    /// The commit is complete, and every record up to this one is durable.
    Done(Lsn),
    /// Write [`Wal::due_bytes`] at `offset` of the segment `segment`, in one write,
    /// and sync its data.
    Write {
        /// Base of the active segment.
        segment: Lsn,
        /// Where the bytes go.
        offset: u64,
    },
    /// Create the segment at this base with its header, sync it, and sync the
    /// directory.
    Roll(Lsn),
}

/// What became of it.
#[derive(Debug)]
pub enum CommitEvent {
    /// The bytes are written and synced.
    Synced,
    /// The write failed.
    WriteFailed(std::io::Error),
    /// The sync failed.
    SyncFailed,
    /// The new segment exists durably.
    Rolled,
    /// The new segment could not be made durable.
    RollFailed(std::io::Error),
}

/// Whether `action` asks for what is due in state `s`.
pub open spec fn asks_commit(action: CommitAction, s: WalState) -> bool {
    action == match s.due {
        Due::Nothing => CommitAction::Done(Lsn(s.durable)),
        Due::Write { .. } => CommitAction::Write {
            segment: s.segments.last(),
            offset: s.write_offset as u64,
        },
        Due::Roll => CommitAction::Roll(Lsn(next_lsn(s.durable))),
    }
}

/// How many of the oldest segments hold no record above `up_to`. A segment ends
/// where the next one begins; the last one has no next and is never counted.
pub open spec fn deletable(segments: Seq<Lsn>, up_to: u64) -> int
    decreases segments.len(),
{
    if segments.len() < 2 || segments[1].0 - 1 > up_to {
        0
    } else {
        1 + deletable(segments.drop_first(), up_to)
    }
}

/// State `s` at the start of a checkpoint.
pub open spec fn reclaiming(s: WalState, up_to: u64) -> WalState {
    let count = deletable(s.segments, up_to);
    WalState {
        reclaim: if count == 0 {
            Reclaim::Idle
        } else {
            Reclaim::Unlink { at: 0, count }
        },
        ..s
    }
}

/// State `s` once the segment that was due is unlinked.
pub open spec fn unlinked(s: WalState, at: int, count: int) -> WalState {
    WalState {
        reclaim: if at + 1 < count {
            Reclaim::Unlink { at: at + 1, count }
        } else {
            Reclaim::Sync { count }
        },
        ..s
    }
}

/// State `s` once the first `count` segments are durably gone.
pub open spec fn reclaimed(s: WalState, count: int) -> WalState {
    WalState { segments: s.segments.skip(count), reclaim: Reclaim::Idle, ..s }
}

/// What a checkpoint asks of its caller.
#[derive(Debug, Clone, Copy, PartialEq, Eq, Structural)]
pub enum CheckpointAction {
    /// The checkpoint is complete.
    Done,
    /// Unlink the segment at this base.
    Unlink(Lsn),
    /// Sync the directory.
    SyncDir,
}

/// What became of it.
#[derive(Debug)]
pub enum CheckpointEvent {
    /// The segment is unlinked.
    Unlinked,
    /// The segment was gone already, as after an earlier checkpoint that did not
    /// get to its sync.
    Missing,
    /// The directory is synced.
    Synced,
    /// The unlink or the sync failed.
    Failed(std::io::Error),
}

/// Whether `action` asks for what is due in state `s`.
pub open spec fn asks_checkpoint(action: CheckpointAction, s: WalState) -> bool {
    action == match s.reclaim {
        Reclaim::Idle => CheckpointAction::Done,
        Reclaim::Unlink { at, .. } => CheckpointAction::Unlink(s.segments[at]),
        Reclaim::Sync { .. } => CheckpointAction::SyncDir,
    }
}

/// The standard library's cell, which can be sent to another thread and not shared
/// with one. No value of it is used.
#[verifier::external_type_specification]
#[verifier::external_body]
#[verifier::reject_recursive_types(T)]
pub struct ExCell<T: ?Sized>(std::cell::Cell<T>);

/// Progress of a commit.
enum Step {
    Idle,
    Write { end: usize, last: Lsn, count: Ghost<nat> },
    Roll { base: Lsn },
}

/// Progress of a checkpoint.
enum Removal {
    Idle,
    Unlink { at: usize, count: usize },
    Sync { count: usize },
}

/// Single-writer, append-only write-ahead log.
pub struct Wal<O: DurabilityObserver = NullObserver> {
    segments: Vec<Lsn>,
    write_offset: u64,
    oldest_lsn: Lsn,
    last_lsn: Lsn,
    durable_lsn: Lsn,
    config: WalConfig,
    /// Frames of the current batch. Those before `pos` are durable.
    staging: Vec<u8>,
    pos: usize,
    step: Step,
    removal: Removal,
    observer: O,
    poisoned: bool,
    pending: Ghost<Seq<Seq<u8>>>,
    /// Keeps the handle from being shared between threads.
    not_sync: std::marker::PhantomData<std::cell::Cell<()>>,
}

/// Whether bases are in order, and none is the reserved one.
pub open spec fn ordered(segments: Seq<Lsn>) -> bool {
    &&& forall|i: int, j: int| 0 <= i <= j < segments.len() ==> segments[i].0 <= segments[j].0
    &&& forall|i: int| 0 <= i < segments.len() ==> 1 <= (#[trigger] segments[i]).0
}

impl WalState {
    /// The LSN of the last record, durable or pending.
    pub open spec fn last(self) -> u64 {
        nth_lsn(self.durable, self.pending.len() as int)
    }

    /// What always holds of a handle.
    pub open spec fn valid(self) -> bool {
        &&& self.max + 91 <= self.size <= u64::MAX
        &&& self.segments.len() >= 1
        &&& ordered(self.segments)
        &&& self.segments.last().0 <= next_lsn(self.durable)
        &&& HEADER_SIZE <= self.write_offset <= self.size
        &&& bounded(self.pending, self.max)
        &&& match self.due {
            Due::Nothing => true,
            Due::Write { count } => 0 < count <= self.pending.len() && self.write_offset + span(
                self.pending.take(count as int),
            ) <= self.size,
            Due::Roll => 0 < self.pending.len() && self.write_offset + frame_len(
                self.pending[0].len() as int,
            ) > self.size,
        }
        &&& match self.reclaim {
            Reclaim::Idle => true,
            Reclaim::Unlink { at, count } => 0 <= at < count < self.segments.len(),
            Reclaim::Sync { count } => 0 < count < self.segments.len(),
        }
    }
}

impl<O: DurabilityObserver> View for Wal<O> {
    type V = WalState;

    closed spec fn view(&self) -> WalState {
        WalState {
            segments: self.segments@,
            write_offset: self.write_offset as int,
            durable: self.durable_lsn.0,
            pending: self.pending@,
            due: match self.step {
                Step::Idle => Due::Nothing,
                Step::Write { count, .. } => Due::Write { count: count@ },
                Step::Roll { .. } => Due::Roll,
            },
            reclaim: match self.removal {
                Removal::Idle => Reclaim::Idle,
                Removal::Unlink { at, count } => Reclaim::Unlink {
                    at: at as int,
                    count: count as int,
                },
                Removal::Sync { count } => Reclaim::Sync { count: count as int },
            },
            poisoned: self.poisoned,
            size: self.config.segment_size as int,
            max: self.config.max_record_size,
        }
    }
}

/// What fits fits, and the next record does not.
pub proof fn lemma_fitting(payloads: Seq<Seq<u8>>, room: int)
    requires
        0 <= room,
    ensures
        fitting(payloads, room) <= payloads.len(),
        span(payloads.take(fitting(payloads, room) as int)) <= room,
        fitting(payloads, room) < payloads.len() ==> span(
            payloads.take(fitting(payloads, room) as int),
        ) + frame_len(payloads[fitting(payloads, room) as int].len() as int) > room,
    decreases payloads.len(),
{
    let n = fitting(payloads, room);
    if payloads.len() == 0 || frame_len(payloads[0].len() as int) > room {
        assert(payloads.take(0) =~= seq![]);
    } else {
        let tail = payloads.drop_first();
        lemma_fitting(tail, room - frame_len(payloads[0].len() as int));
        assert(payloads.take(n as int).drop_first() =~= tail.take(n - 1));
    }
}

/// Where `n` records fit and the next one does not, `n` is how many fit.
proof fn lemma_fitting_is(payloads: Seq<Seq<u8>>, room: int, n: int)
    requires
        0 <= n <= payloads.len(),
        span(payloads.take(n)) <= room,
        n < payloads.len() ==> span(payloads.take(n)) + frame_len(payloads[n].len() as int) > room,
        bounded(payloads, u32::MAX),
    ensures
        fitting(payloads, room) == n,
    decreases payloads.len(),
{
    if payloads.len() > 0 {
        let tail = payloads.drop_first();
        assert forall|i: int| 0 <= i < tail.len() implies (#[trigger] tail[i]).len()
            <= u32::MAX by {
            assert(tail[i] == payloads[i + 1]);
        }
        if n == 0 {
            assert(payloads.take(0) =~= seq![]);
        } else {
            let head = payloads.take(n);
            assert(head.drop_first() =~= tail.take(n - 1));
            assert forall|i: int| 0 <= i < n - 1 implies (#[trigger] tail.take(n - 1)[i]).len()
                <= u32::MAX by {
                assert(tail.take(n - 1)[i] == tail[i]);
            }
            lemma_span(0, tail.take(n - 1));
            lemma_fitting_is(tail, room - frame_len(payloads[0].len() as int), n - 1);
        }
    } else {
        assert(payloads.take(0) =~= seq![]);
    }
}

/// What stands at the record `n` of a batch of frames.
proof fn lemma_batch_at(bytes: Seq<u8>, base: u64, payloads: Seq<Seq<u8>>, n: int)
    requires
        bytes == frames(base, payloads),
        bounded(payloads, u32::MAX),
        0 <= n < payloads.len(),
    ensures
        ({
            let at = span(payloads.take(n));
            let f = frame(nth_lsn(base, n), payloads[n]);
            &&& 0 <= at
            &&& at + f.len() <= bytes.len()
            &&& f.len() == frame_len(payloads[n].len() as int)
            &&& f.is_prefix_of(bytes.skip(at))
            &&& span(payloads.take(n + 1)) == at + f.len()
        }),
{
    let a = payloads.take(n);
    let b = payloads.skip(n);
    let lsn = nth_lsn(base, n);
    assert(payloads =~= a + b);
    lemma_frames_concat(base, a, b);
    assert forall|i: int| 0 <= i < a.len() implies (#[trigger] a[i]).len() <= u32::MAX by {
        assert(a[i] == payloads[i]);
    }
    lemma_span(base, a);
    assert(b[0] == payloads[n]);
    lemma_frame_len(lsn, b[0]);
    let f = frame(lsn, b[0]);
    let rest = frames(next_lsn(lsn), b.drop_first());
    assert(frames(lsn, b) == f + rest);
    assert(bytes.skip(span(a)) =~= f + rest);
    assert(f =~= bytes.skip(span(a)).subrange(0, f.len() as int));
    assert(payloads.take(n + 1) =~= a + seq![payloads[n]]);
    lemma_span_concat(a, seq![payloads[n]]);
    lemma_frames_one(lsn, payloads[n]);
}

impl<O: DurabilityObserver> Wal<O> {
    /// Holds of every handle, and is kept by every operation.
    pub closed spec fn wf(&self) -> bool {
        &&& self@.valid()
        &&& self.oldest_lsn == self.segments@[0]
        &&& self.last_lsn.0 == self@.last()
        &&& self.pos <= self.staging@.len()
        &&& self.staging@.skip(self.pos as int) == frames(
            next_lsn(self.durable_lsn.0),
            self.pending@,
        )
        &&& match self.step {
            Step::Idle => true,
            Step::Write { end, last, count } => end == self.pos + span(
                self.pending@.take(count@ as int),
            ) && end <= self.staging@.len() && last.0 == nth_lsn(
                self.durable_lsn.0,
                count@ as int,
            ),
            Step::Roll { base } => base.0 == next_lsn(self.durable_lsn.0),
        }
    }

    /// Every handle is in a valid state.
    pub proof fn law_handle_is_valid(&self)
        requires
            self.wf(),
        ensures
            self@.valid(),
    {
    }

    /// A handle on a log whose segments have been recovered.
    pub(crate) fn resume(
        segments: Vec<Lsn>,
        write_offset: u64,
        last_lsn: Lsn,
        config: WalConfig,
        observer: O,
    ) -> (wal: Wal<O>)
        requires
            config.valid(),
            segments@.len() >= 1,
            ordered(segments@),
            segments@.last().0 <= next_lsn(last_lsn.0),
            HEADER_SIZE <= write_offset <= config.segment_size,
        ensures
            wal.wf(),
            wal@ == resumed(segments@, write_offset as int, last_lsn.0, config),
            wal.observer() == observer,
    {
        let oldest_lsn: Lsn = segments[0];
        let pending: Ghost<Seq<Seq<u8>>> = Ghost(Seq::empty());
        let wal = Wal {
            segments,
            write_offset,
            oldest_lsn,
            last_lsn,
            durable_lsn: last_lsn,
            config,
            staging: Vec::new(),
            pos: 0,
            step: Step::Idle,
            removal: Removal::Idle,
            observer,
            poisoned: false,
            pending,
            not_sync: std::marker::PhantomData,
        };
        assert(wal.staging@.skip(0) =~= seq![]);
        wal
    }

    /// The observer.
    pub closed spec fn observer(&self) -> O {
        self.observer
    }

    /// Numbers a record and buffers it. The record is durable once a later commit
    /// has covered it.
    pub fn append(&mut self, payload: &[u8]) -> (r: Result<Lsn, WalError>)
        requires
            old(self).wf(),
        ensures
            final(self).wf(),
            final(self).observer() == old(self).observer(),
            match r {
                Ok(lsn) => {
                    &&& !old(self)@.poisoned && payload@.len() <= old(self)@.max
                    &&& lsn.0 == next_lsn(old(self)@.last())
                    &&& final(self)@ == (WalState {
                        pending: old(self)@.pending.push(payload@),
                        ..old(self)@
                    })
                },
                Err(WalError::Poisoned) => old(self)@.poisoned && final(self)@ == old(self)@,
                Err(WalError::RecordTooLarge) => !old(self)@.poisoned && payload@.len() > old(
                    self,
                )@.max && final(self)@ == old(self)@,
                Err(_) => false,
            },
    {
        if self.poisoned {
            return Err(WalError::Poisoned);
        }
        if payload.len() as u64 > self.config.max_record_size as u64 {
            return Err(WalError::RecordTooLarge);
        }
        let ghost before = *self;
        let lsn: Lsn = self.last_lsn.next();
        encode_into(&mut self.staging, lsn, payload);
        self.last_lsn = lsn;
        self.pending = Ghost(self.pending@.push(payload@));
        proof {
            let base = next_lsn(self.durable_lsn.0);
            let old_pending = before.pending@;
            let one = seq![payload@];
            assert(self.pending@ =~= old_pending + one);
            lemma_frames_concat(base, old_pending, one);
            lemma_frames_one(lsn.0, payload@);
            assert(self.staging@.skip(self.pos as int) =~= before.staging@.skip(self.pos as int)
                + frame(lsn.0, payload@));
            assert forall|i: int| 0 <= i < self.pending@.len() implies (
            #[trigger] self.pending@[i]).len() <= self.config.max_record_size by {
                if i < old_pending.len() {
                    assert(self.pending@[i] == old_pending[i]);
                }
            }
            if let Step::Write { count, .. } = self.step {
                assert(self.pending@.take(count@ as int) =~= old_pending.take(count@ as int));
            }
        }
        Ok(lsn)
    }

    /// Decides what a commit does next.
    fn plan(&mut self) -> (action: CommitAction)
        requires
            old(self).wf(),
            old(self)@.due is Nothing,
        ensures
            final(self).wf(),
            final(self)@ == planned(old(self)@),
            final(self).observer() == old(self).observer(),
            asks_commit(action, final(self)@),
    {
        let ghost payloads = self.pending@;
        let ghost base = next_lsn(self.durable_lsn.0);
        let ghost bytes = self.staging@.skip(self.pos as int);
        proof {
            lemma_span(base, payloads);
        }
        let total: usize = self.staging.len();
        let pos: usize = self.pos;
        if pos == total {
            self.staging.clear();
            self.pos = 0;
            proof {
                assert(payloads =~= seq![]);
                assert(self.staging@.skip(0) =~= seq![]);
            }
            return CommitAction::Done(self.durable_lsn);
        }
        let remaining: u64 = self.config.segment_size - self.write_offset;
        let ghost mut count: int = 0;
        let mut scan: usize = pos;
        let mut last: Lsn = Lsn::none();
        assert(payloads.take(0) =~= seq![]);
        while scan < total
            invariant
                self.staging@.len() == total,
                pos <= scan <= total,
                remaining <= u64::MAX,
                bytes == self.staging@.skip(pos as int),
                bytes == frames(base, payloads),
                bounded(payloads, u32::MAX),
                bytes.len() == span(payloads),
                0 <= count <= payloads.len(),
                scan == pos + span(payloads.take(count)),
                span(payloads.take(count)) <= remaining,
                count > 0 ==> last.0 == nth_lsn(base, count - 1) && scan > pos,
                count == 0 ==> scan == pos,
                scan == total ==> count == payloads.len(),
            ensures
                count < payloads.len() ==> span(payloads.take(count)) + frame_len(
                    payloads[count].len() as int,
                ) > remaining,
            decreases total - scan,
        {
            proof {
                if count == payloads.len() {
                    assert(payloads.take(count) =~= payloads);
                }
                lemma_batch_at(bytes, base, payloads, count);
                let at = span(payloads.take(count));
                assert(bytes.skip(at) =~= self.staging@.subrange(scan as int, total as int));
                lemma_frame_fields(nth_lsn(base, count), payloads[count], bytes.skip(at));
            }
            let (lsn, framed) = peek(&self.staging[scan..total]);
            if (scan - pos) as u64 + framed as u64 > remaining {
                break;
            }
            last = lsn;
            scan = scan + framed;
            proof {
                count = count + 1;
                let (done, left) = (payloads.take(count), payloads.skip(count));
                assert(payloads =~= done + left);
                lemma_span_concat(done, left);
                assert forall|i: int| 0 <= i < left.len() implies (#[trigger] left[i]).len()
                    <= u32::MAX by {
                    assert(left[i] == payloads[count + i]);
                }
                lemma_span(base, left);
            }
        }
        proof {
            lemma_fitting_is(payloads, remaining as int, count);
            if count == 0 {
                lemma_batch_at(bytes, base, payloads, 0);
                assert(bytes.skip(0) =~= self.staging@.subrange(pos as int, total as int));
                lemma_frame_fields(base, payloads[0], bytes.skip(0));
            }
        }
        if scan > pos {
            self.step = Step::Write { end: scan, last, count: Ghost(count as nat) };
            CommitAction::Write {
                segment: self.segments[self.segments.len() - 1],
                offset: self.write_offset,
            }
        } else {
            let (new_base, _) = peek(&self.staging[pos..total]);
            self.step = Step::Roll { base: new_base };
            CommitAction::Roll(new_base)
        }
    }

    /// Starts a commit, or takes up the one that is under way, and says what there
    /// is to do.
    ///
    /// A commit makes all buffered records durable. A batch that does not fit into
    /// the active segment is split between records, so a failure in the middle
    /// leaves a dense run of whole records durable.
    pub fn commit(&mut self) -> (r: Result<CommitAction, WalError>)
        requires
            old(self).wf(),
        ensures
            final(self).wf(),
            final(self).observer() == old(self).observer(),
            match r {
                Ok(action) => {
                    &&& !old(self)@.poisoned
                    &&& final(self)@ == if old(self)@.due is Nothing {
                        planned(old(self)@)
                    } else {
                        old(self)@
                    }
                    &&& asks_commit(action, final(self)@)
                },
                Err(WalError::Poisoned) => old(self)@.poisoned && final(self)@ == old(self)@,
                Err(_) => false,
            },
    {
        if self.poisoned {
            return Err(WalError::Poisoned);
        }
        match self.step {
            Step::Idle => Ok(self.plan()),
            Step::Write { .. } => Ok(
                CommitAction::Write {
                    segment: self.segments[self.segments.len() - 1],
                    offset: self.write_offset,
                },
            ),
            Step::Roll { base } => Ok(CommitAction::Roll(base)),
        }
    }

    /// The bytes to write where a commit asks for a write, and none otherwise: the
    /// frames of the records that fit into the active segment.
    pub fn due_bytes(&self) -> (bytes: &[u8])
        requires
            self.wf(),
        ensures
            bytes@ == match self@.due {
                Due::Write { count } => frames(
                    next_lsn(self@.durable),
                    self@.pending.take(count as int),
                ),
                _ => seq![],
            },
    {
        let (start, end): (usize, usize) = match self.step {
            Step::Write { end, .. } => (self.pos, end),
            _ => (0, 0),
        };
        proof {
            if let Step::Write { end, count, .. } = self.step {
                let base = next_lsn(self.durable_lsn.0);
                let n = count@ as int;
                let (a, b) = (self.pending@.take(n), self.pending@.skip(n));
                assert(self.pending@ =~= a + b);
                lemma_frames_concat(base, a, b);
                lemma_bounded_parts(self.pending@, n, self.config.max_record_size);
                lemma_span(base, a);
                assert(self.staging@.subrange(start as int, end as int) =~= frames(base, a)) by {
                    assert forall|i: int| 0 <= i < span(a) implies self.staging@[start + i]
                        == frames(base, a)[i] by {
                        assert(self.staging@.skip(start as int)[i] == (frames(base, a) + frames(
                            nth_lsn(base, n),
                            b,
                        ))[i]);
                    }
                }
            }
        }
        &self.staging[start..end]
    }

    /// Takes the report of a new segment into account.
    fn roll(&mut self, base: Lsn)
        requires
            old(self).wf(),
            old(self)@.due is Roll,
            base.0 == next_lsn(old(self)@.durable),
        ensures
            final(self).wf(),
            final(self)@ == rolled(old(self)@),
            final(self).observer() == old(self).observer(),
    {
        let ghost before = self@;
        self.write_offset = HEADER_SIZE;
        self.segments.push(base);
        self.step = Step::Idle;
        proof {
            assert(ordered(self@.segments)) by {
                let s = self@.segments;
                assert forall|i: int, j: int| 0 <= i <= j < s.len() implies s[i].0 <= s[j].0 by {
                    let top = before.segments.len() - 1;
                    if j > top && i <= top {
                        assert(before.segments[i].0 <= before.segments[top].0);
                    }
                }
            }
        }
    }

    /// Takes the report of a write into account.
    fn advance(&mut self, end: usize, last: Lsn, count: Ghost<nat>)
        requires
            old(self).wf(),
            old(self)@.due == (Due::Write { count: count@ }),
            end == old(self).pos + span(old(self)@.pending.take(count@ as int)),
            last.0 == nth_lsn(old(self)@.durable, count@ as int),
        ensures
            final(self).wf(),
            final(self)@ == written(old(self)@, count@),
            old(self).observer().told(last, final(self).observer()),
    {
        let ghost before = *self;
        let ghost n = count@ as int;
        proof {
            lemma_bounded_parts(self.pending@, n, self.config.max_record_size);
            lemma_span(0, self.pending@.take(n));
        }
        self.write_offset = self.write_offset + (end - self.pos) as u64;
        self.durable_lsn = last;
        self.observer.on_durable(last);
        self.pos = end;
        self.step = Step::Idle;
        self.pending = Ghost(self.pending@.skip(n));
        proof {
            let base = next_lsn(before.durable_lsn.0);
            let (a, b) = (before.pending@.take(n), before.pending@.skip(n));
            assert(before.pending@ =~= a + b);
            lemma_frames_concat(base, a, b);
            lemma_span(base, a);
            lemma_nth_lsn_add(before.durable_lsn.0, n, b.len() as int);
            assert(nth_lsn(base, n) == next_lsn(last.0));
            assert(self.staging@.skip(end as int) =~= before.staging@.skip(
                before.pos as int,
            ).skip(span(a)));
            assert((frames(base, a) + frames(nth_lsn(base, n), b)).skip(span(a)) =~= frames(
                nth_lsn(base, n),
                b,
            ));
        }
    }

    /// Reports what became of the last thing that a commit asked for, and says what
    /// there is to do next. A report that answers nothing changes nothing, and the
    /// same thing is asked for again.
    pub fn commit_step(&mut self, event: CommitEvent) -> (r: Result<CommitAction, WalError>)
        requires
            old(self).wf(),
        ensures
            final(self).wf(),
            ({
                let s = old(self)@;
                let t = final(self)@;
                let failed = WalState { poisoned: true, ..s };
                if s.poisoned {
                    r matches Err(WalError::Poisoned) && t == s
                } else {
                    match (s.due, event) {
                        (Due::Write { count }, CommitEvent::Synced) => r matches Ok(action) && t
                            == planned(written(s, count)) && asks_commit(action, t),
                        (Due::Write { .. }, CommitEvent::WriteFailed(e)) => r == Err::<
                            CommitAction,
                            WalError,
                        >(WalError::Io(e)) && t == failed,
                        (
                            Due::Write { .. },
                            CommitEvent::SyncFailed,
                        ) => r matches Err(WalError::FsyncFailed) && t == failed,
                        (Due::Roll, CommitEvent::Rolled) => r matches Ok(action) && t == planned(
                            rolled(s),
                        ) && asks_commit(action, t),
                        (Due::Roll, CommitEvent::RollFailed(e)) => r == Err::<
                            CommitAction,
                            WalError,
                        >(WalError::Io(e)) && t == failed,
                        (Due::Nothing, _) => r matches Ok(action) && t == planned(s)
                            && asks_commit(action, t),
                        (_, _) => r matches Ok(action) && t == s && asks_commit(action, t),
                    }
                }
            }),
            if !old(self)@.poisoned && old(self)@.due is Write && event is Synced {
                old(self).observer().told(
                    Lsn(nth_lsn(old(self)@.durable, old(self)@.due->count as int)),
                    final(self).observer(),
                )
            } else {
                final(self).observer() == old(self).observer()
            },
    {
        if self.poisoned {
            return Err(WalError::Poisoned);
        }
        match self.step {
            Step::Write { end, last, count } => match event {
                CommitEvent::Synced => {
                    self.advance(end, last, count);
                    Ok(self.plan())
                },
                CommitEvent::WriteFailed(e) => {
                    self.poisoned = true;
                    Err(WalError::Io(e))
                },
                CommitEvent::SyncFailed => {
                    self.poisoned = true;
                    Err(WalError::FsyncFailed)
                },
                _ => self.commit(),
            },
            Step::Roll { base } => match event {
                CommitEvent::Rolled => {
                    self.roll(base);
                    Ok(self.plan())
                },
                CommitEvent::RollFailed(e) => {
                    self.poisoned = true;
                    Err(WalError::Io(e))
                },
                _ => self.commit(),
            },
            Step::Idle => self.commit(),
        }
    }

    /// Asks for what a checkpoint is waiting for.
    fn checkpoint_action(&self) -> (action: CheckpointAction)
        requires
            self.wf(),
        ensures
            asks_checkpoint(action, self@),
    {
        match self.removal {
            Removal::Idle => CheckpointAction::Done,
            Removal::Unlink { at, .. } => CheckpointAction::Unlink(self.segments[at]),
            Removal::Sync { .. } => CheckpointAction::SyncDir,
        }
    }

    /// Starts a checkpoint, or takes up the one that is under way, and says what
    /// there is to do.
    ///
    /// A checkpoint deletes the segments whose records all have LSNs up to `up_to`,
    /// oldest first, and never the active one. What is left is a contiguous suffix
    /// of the log after each single deletion. The caller must hold a durable
    /// snapshot that covers `up_to`.
    pub fn checkpoint(&mut self, up_to: Lsn) -> (r: Result<CheckpointAction, WalError>)
        requires
            old(self).wf(),
        ensures
            final(self).wf(),
            final(self).observer() == old(self).observer(),
            match r {
                Ok(action) => {
                    &&& !old(self)@.poisoned
                    &&& final(self)@ == if old(self)@.reclaim is Idle {
                        reclaiming(old(self)@, up_to.0)
                    } else {
                        old(self)@
                    }
                    &&& asks_checkpoint(action, final(self)@)
                },
                Err(WalError::Poisoned) => old(self)@.poisoned && final(self)@ == old(self)@,
                Err(_) => false,
            },
    {
        if self.poisoned {
            return Err(WalError::Poisoned);
        }
        if let Removal::Idle = self.removal {
            let count: usize = deletable_prefix_len(self.segments.as_slice(), up_to);
            if count > 0 {
                self.removal = Removal::Unlink { at: 0, count };
            }
        }
        Ok(self.checkpoint_action())
    }

    /// Reports what became of the last thing that a checkpoint asked for, and says
    /// what there is to do next. A report that answers nothing changes nothing, and
    /// the same thing is asked for again.
    pub fn checkpoint_step(&mut self, event: CheckpointEvent) -> (r: Result<
        CheckpointAction,
        WalError,
    >)
        requires
            old(self).wf(),
        ensures
            final(self).wf(),
            final(self).observer() == old(self).observer(),
            ({
                let s = old(self)@;
                let t = final(self)@;
                if s.poisoned {
                    r matches Err(WalError::Poisoned) && t == s
                } else {
                    match (s.reclaim, event) {
                        (
                            Reclaim::Unlink { at, count },
                            CheckpointEvent::Unlinked,
                        ) => r matches Ok(action) && t == unlinked(s, at, count)
                            && asks_checkpoint(action, t),
                        (
                            Reclaim::Unlink { at, count },
                            CheckpointEvent::Missing,
                        ) => r matches Ok(action) && t == unlinked(s, at, count)
                            && asks_checkpoint(action, t),
                        (
                            Reclaim::Sync { count },
                            CheckpointEvent::Synced,
                        ) => r matches Ok(action) && t == reclaimed(s, count) && asks_checkpoint(
                            action,
                            t,
                        ),
                        (Reclaim::Idle, _) => r matches Ok(action) && t == s && asks_checkpoint(
                            action,
                            t,
                        ),
                        (_, CheckpointEvent::Failed(e)) => r == Err::<CheckpointAction, WalError>(
                            WalError::Io(e),
                        ) && t == (WalState { poisoned: true, ..s }),
                        (_, _) => r matches Ok(action) && t == s && asks_checkpoint(action, t),
                    }
                }
            }),
    {
        if self.poisoned {
            return Err(WalError::Poisoned);
        }
        match self.removal {
            Removal::Unlink { at, count } => match event {
                CheckpointEvent::Unlinked | CheckpointEvent::Missing => {
                    self.removal = if at + 1 < count {
                        Removal::Unlink { at: at + 1, count }
                    } else {
                        Removal::Sync { count }
                    };
                },
                CheckpointEvent::Failed(e) => {
                    self.poisoned = true;
                    return Err(WalError::Io(e));
                },
                CheckpointEvent::Synced => {},
            },
            Removal::Sync { count } => match event {
                CheckpointEvent::Synced => {
                    // Only now, with the deletions durable, the handle forgets
                    // the segments.
                    let ghost before = self.segments@;
                    self.segments = self.segments.split_off(count);
                    self.oldest_lsn = self.segments[0];
                    self.removal = Removal::Idle;
                    proof {
                        let after = self.segments@;
                        assert(after =~= before.skip(count as int));
                        assert forall|i: int, j: int| 0 <= i <= j < after.len() implies after[i].0
                            <= after[j].0 by {
                            assert(before[count + i].0 <= before[count + j].0);
                        }
                        assert forall|i: int| 0 <= i < after.len() implies 1 <= (
                        #[trigger] after[i]).0 by {
                            assert(1 <= before[count + i].0);
                        }
                    }
                },
                CheckpointEvent::Failed(e) => {
                    self.poisoned = true;
                    return Err(WalError::Io(e));
                },
                _ => {},
            },
            Removal::Idle => {},
        }
        Ok(self.checkpoint_action())
    }

    /// Base of the oldest segment.
    pub(crate) fn oldest(&self) -> (lsn: Lsn)
        requires
            self.wf(),
        ensures
            lsn == self@.segments[0],
    {
        self.oldest_lsn
    }

    /// The bases of the live segments, oldest first. The last one is active.
    pub fn segments(&self) -> (segments: &[Lsn])
        requires
            self.wf(),
        ensures
            segments@ == self@.segments,
            segments@.len() >= 1,
    {
        self.segments.as_slice()
    }

    /// The configuration.
    pub fn config(&self) -> (c: WalConfig)
        ensures
            c.segment_size == self@.size,
            c.max_record_size == self@.max,
    {
        self.config
    }

    /// LSN of the last durable record.
    #[must_use]
    pub fn durable_lsn(&self) -> (lsn: Lsn)
        ensures
            lsn.0 == self@.durable,
    {
        self.durable_lsn
    }

    /// LSN of the last record, durable or still buffered.
    #[must_use]
    pub fn last_lsn(&self) -> (lsn: Lsn)
        requires
            self.wf(),
        ensures
            lsn.0 == self@.last(),
    {
        self.last_lsn
    }
}

/// Which segments are deletable, by their successors' bases.
pub proof fn lemma_deletable(segments: Seq<Lsn>, up_to: u64)
    ensures
        0 <= deletable(segments, up_to),
        segments.len() >= 1 ==> deletable(segments, up_to) < segments.len(),
        segments.len() == 0 ==> deletable(segments, up_to) == 0,
        forall|i: int|
            1 <= i <= deletable(segments, up_to) ==> (#[trigger] segments[i]).0 - 1 <= up_to,
        deletable(segments, up_to) + 1 < segments.len() ==> segments[deletable(segments, up_to)
            + 1].0 - 1 > up_to,
    decreases segments.len(),
{
    let n = deletable(segments, up_to);
    if segments.len() >= 2 && segments[1].0 - 1 <= up_to {
        let tail = segments.drop_first();
        lemma_deletable(tail, up_to);
        assert forall|i: int| 1 <= i <= n implies (#[trigger] segments[i]).0 - 1 <= up_to by {
            if i > 1 {
                assert(tail[i - 1] == segments[i]);
            }
        }
    }
}

/// Number of oldest segments that hold no record above `up_to`. The last segment
/// is never counted. Looks the boundary up by halving, as the bases are in order.
pub fn deletable_prefix_len(bases: &[Lsn], up_to: Lsn) -> (n: usize)
    requires
        ordered(bases@),
    ensures
        n == deletable(bases@, up_to.0),
        bases@.len() >= 1 ==> n < bases@.len(),
{
    if bases.len() == 0 {
        return 0;
    }
    let mut low: usize = 0;
    let mut high: usize = bases.len() - 1;
    while low < high
        invariant
            ordered(bases@),
            low <= high < bases@.len(),
            low > 0 ==> bases@[low as int].0 - 1 <= up_to.0,
            high + 1 < bases@.len() ==> bases@[high + 1].0 - 1 > up_to.0,
        decreases high - low,
    {
        let mid: usize = high - (high - low) / 2;
        assert(1 <= bases@[mid as int].0);
        if bases[mid].0 - 1 <= up_to.0 {
            low = mid;
        } else {
            high = mid - 1;
        }
    }
    proof {
        lemma_deletable(bases@, up_to.0);
        let n = deletable(bases@, up_to.0);
        if n < low {
            assert(bases@[n + 1].0 <= bases@[low as int].0);
        } else if low < n {
            assert(bases@[low + 1].0 <= bases@[n].0);
        }
    }
    low
}

/// A commit comes to its end: no roll follows a roll, and every write leaves fewer
/// records pending. On the way no record is renumbered, and the durable LSN never
/// falls.
pub proof fn law_commit_makes_progress(s: WalState)
    requires
        s.valid(),
    ensures
        match s.due {
            Due::Write { count } => {
                let t = planned(written(s, count));
                &&& t.pending.len() < s.pending.len()
                &&& t.durable >= s.durable
                &&& t.last() == s.last()
            },
            Due::Roll => {
                let t = planned(rolled(s));
                &&& t.due is Write
                &&& t.durable == s.durable
                &&& t.last() == s.last()
            },
            Due::Nothing => {
                let t = planned(s);
                &&& t.due is Nothing <==> s.pending.len() == 0
                &&& t.due is Nothing ==> t.durable == t.last()
                &&& t.last() == s.last()
            },
        },
{
    match s.due {
        Due::Write { count } => {
            lemma_nth_lsn_add(s.durable, count as int, s.pending.len() - count);
        },
        Due::Roll => {
            let t = rolled(s);
            assert(t.pending[0].len() <= t.max);
            assert(frame_len(t.pending[0].len() as int) <= t.size - HEADER_SIZE);
        },
        Due::Nothing => {},
    }
}

/// A commit packs its batch: it rolls only where the next record does not fit into
/// the active segment, and it writes as many whole records as fit.
pub proof fn law_commit_fills_segments(s: WalState)
    requires
        s.valid(),
        s.due is Nothing,
    ensures
        match planned(s).due {
            Due::Write { count } => {
                &&& s.write_offset + span(s.pending.take(count as int)) <= s.size
                &&& count < s.pending.len() ==> s.write_offset + span(
                    s.pending.take(count as int + 1),
                ) > s.size
            },
            Due::Roll => s.write_offset + span(s.pending.take(1)) > s.size,
            Due::Nothing => s.pending.len() == 0,
        },
{
    let n = fitting(s.pending, s.size - s.write_offset);
    lemma_fitting(s.pending, s.size - s.write_offset);
    if n < s.pending.len() {
        let one = seq![s.pending[n as int]];
        assert(s.pending.take(n as int + 1) =~= s.pending.take(n as int) + one);
        lemma_span_concat(s.pending.take(n as int), one);
        lemma_frames_one(0, s.pending[n as int]);
        assert(s.pending.take(0) =~= seq![]);
    }
}

/// A second checkpoint up to the same LSN finds nothing to remove.
pub proof fn law_checkpoint_is_idempotent(s: WalState, up_to: u64)
    requires
        s.valid(),
    ensures
        reclaiming(reclaimed(s, deletable(s.segments, up_to)), up_to).reclaim is Idle,
{
    let n = deletable(s.segments, up_to);
    lemma_deletable(s.segments, up_to);
    let left = s.segments.skip(n);
    if left.len() >= 2 {
        assert(left[1] == s.segments[n + 1]);
    }
}

/// Two checkpoints free what one up to the larger LSN frees.
pub proof fn law_checkpoints_add_up(s: WalState, a: u64, b: u64)
    requires
        s.valid(),
    ensures
        ({
            let n = deletable(s.segments, a);
            let m = deletable(s.segments.skip(n), b);
            let larger = if a < b {
                b
            } else {
                a
            };
            &&& n + m == deletable(s.segments, larger)
            &&& reclaimed(reclaimed(s, n), m) == reclaimed(s, deletable(s.segments, larger))
        }),
{
    let n = deletable(s.segments, a);
    lemma_deletable(s.segments, a);
    lemma_deletable_adds(s.segments, a, b);
    let m = deletable(s.segments.skip(n), b);
    lemma_deletable(s.segments.skip(n), b);
    assert(s.segments.skip(n).skip(m) =~= s.segments.skip(n + m));
}

/// What two checkpoints free together.
proof fn lemma_deletable_adds(segments: Seq<Lsn>, a: u64, b: u64)
    requires
        ordered(segments),
    ensures
        deletable(segments, a) + deletable(segments.skip(deletable(segments, a)), b) == deletable(
            segments,
            if a < b {
                b
            } else {
                a
            },
        ),
    decreases segments.len(),
{
    let tail = segments.drop_first();
    if segments.len() >= 2 && segments[1].0 - 1 <= a {
        assert(ordered(tail)) by {
            assert forall|i: int, j: int| 0 <= i <= j < tail.len() implies tail[i].0
                <= tail[j].0 by {
                assert(segments[i + 1].0 <= segments[j + 1].0);
            }
            assert forall|i: int| 0 <= i < tail.len() implies 1 <= (#[trigger] tail[i]).0 by {
                assert(1 <= segments[i + 1].0);
            }
        }
        lemma_deletable(tail, a);
        lemma_deletable_adds(tail, a, b);
        assert(segments.skip(deletable(segments, a)) =~= tail.skip(deletable(tail, a)));
    } else {
        assert(segments.skip(0) =~= segments);
        if b <= a && segments.len() >= 2 {
            assert(segments[1].0 - 1 > b);
        }
    }
}

/// A checkpoint up to an LSN below the oldest record frees nothing.
pub proof fn law_checkpoint_below_the_oldest_frees_nothing(s: WalState, up_to: u64)
    requires
        s.valid(),
        forall|i: int, j: int| 0 <= i < j < s.segments.len() ==> s.segments[i].0 < s.segments[j].0,
        up_to < s.segments[0].0,
    ensures
        deletable(s.segments, up_to) == 0,
        reclaiming(s, up_to).reclaim is Idle,
{
    if s.segments.len() >= 2 {
        assert(s.segments[0].0 < s.segments[1].0);
    }
}

} // verus!
