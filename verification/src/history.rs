//! Replay of a directory, and the whole way of a record: appended, committed, found
//! again by opening the directory, and read back.

use vstd::prelude::*;

use crate::config::WalConfig;
use crate::disk::continued;
use crate::disk::extended;
use crate::disk::flat;
use crate::disk::fresh;
use crate::disk::holds_part;
use crate::disk::law_log_is_append_only;
use crate::disk::law_roll_is_stored;
use crate::disk::law_write_is_stored;
use crate::disk::lemma_flat_len;
use crate::disk::represents;
use crate::disk::spliced;
use crate::disk::stored;
use crate::image::frames;
use crate::image::lemma_bounded_parts;
use crate::image::lemma_nth_lsn_add;
use crate::image::lemma_run_extent;
use crate::image::lemma_run_span;
use crate::image::lemma_run_suffix;
use crate::image::lemma_span;
use crate::image::lemma_span_concat;
use crate::image::span;
use crate::lsn::next_lsn;
use crate::lsn::Lsn;
use crate::open::as_lsns;
use crate::open::started;
use crate::open::Found;
use crate::open::OpenState;
use crate::open::Stepped;
use crate::reader::ahead;
use crate::reader::moved;
use crate::reader::passed;
use crate::reader::reader_at;
use crate::reader::skipped;
use crate::reader::ReaderState;
use crate::recovery::nth_lsn;
use crate::recovery::segment_run;
use crate::reopen::bases_of;
use crate::reopen::config_of;
use crate::reopen::law_recovered_log_keeps_the_durable_one;
use crate::reopen::law_reopening_brings_back;
use crate::reopen::lemma_bases_grow;
use crate::reopen::lemma_crashed_is_inspected;
use crate::reopen::lemma_crashed_is_numbered;
use crate::reopen::lemma_scan_links;
use crate::reopen::lemma_settled_files;
use crate::reopen::linked;
use crate::reopen::numbered;
use crate::reopen::open_outcome;
use crate::reopen::parts_of;
use crate::reopen::resumable;
use crate::reopen::scan_outcome;
use crate::reopen::settled;
use crate::segment::HEADER_SIZE;
use crate::wal::fitting;
use crate::wal::law_commit_makes_progress;
use crate::wal::lemma_fitting;
use crate::wal::planned;
use crate::wal::rolled;
use crate::wal::written;
use crate::wal::Due;
use crate::wal::WalState;

verus! {

/// The records that a reader hands out from state `s` on, when it is given the
/// files of `disk` to the end of the log.
pub open spec fn replay(disk: Map<u64, Seq<u8>>, s: ReaderState) -> Seq<(u64, Seq<u8>)>
    decreases s.segments.len() - s.at, s.size - s.offset,
    when 0 <= s.at < s.segments.len() && 0 <= s.offset
{
    let file = disk[s.segments[s.at].0];
    let payloads = ahead(s, file);
    let k = skipped(s);
    if s.done {
        seq![]
    } else if k < payloads.len() {
        proof {
            lemma_passing_advances(s, file, k + 1);
        }
        seq![(nth_lsn(s.expected, k), payloads[k])] + replay(disk, moved(s, file))
    } else if s.at + 1 < s.segments.len() {
        replay(disk, moved(s, file))
    } else {
        seq![]
    }
}

/// Passing records moves a reader on within the segment.
pub proof fn lemma_passing_advances(s: ReaderState, file: Seq<u8>, n: int)
    requires
        0 <= s.offset,
        0 < n <= ahead(s, file).len(),
    ensures
        s.offset < passed(s, file, n).offset <= s.size,
{
    let payloads = ahead(s, file);
    lemma_run_span(file, s.offset, s.expected, s.size, s.max);
    lemma_run_extent(file, s.offset, s.expected, s.size, s.max);
    lemma_bounded_parts(payloads, n, s.max);
    assert(payloads =~= payloads.take(n) + payloads.skip(n));
    lemma_span_concat(payloads.take(n), payloads.skip(n));
    lemma_span(0, payloads.take(n));
    lemma_span(0, payloads.skip(n));
}

/// A reader with a wanted record ahead hands it out and goes on behind it.
pub proof fn lemma_replay_record(disk: Map<u64, Seq<u8>>, s: ReaderState)
    requires
        0 <= s.at < s.segments.len(),
        0 <= s.offset,
        !s.done,
        skipped(s) < ahead(s, disk[s.segments[s.at].0]).len(),
    ensures
        ({
            let file = disk[s.segments[s.at].0];
            let k = skipped(s);
            replay(disk, s) == seq![(nth_lsn(s.expected, k), ahead(s, file)[k])] + replay(
                disk,
                moved(s, file),
            )
        }),
{
    lemma_passing_advances(s, disk[s.segments[s.at].0], skipped(s) + 1);
}

/// The records of `payloads`, the first of which is `first`, from `from` on.
pub open spec fn records_from(
    first: u64,
    payloads: Seq<Seq<u8>>,
    from: u64,
) -> Seq<(u64, Seq<u8>)> {
    let k = if from > first {
        from - first
    } else {
        0
    };
    Seq::new(
        (if payloads.len() > k {
            payloads.len() - k
        } else {
            0
        }) as nat,
        |i: int| (nth_lsn(first, k + i), payloads[k + i]),
    )
}

/// The records from segment `i` on, without the first `j` of them.
spec fn remaining(parts: Seq<Seq<Seq<u8>>>, i: int, j: int) -> Seq<Seq<u8>> {
    parts[i].skip(j) + flat(parts.skip(i + 1))
}

/// The records ahead of a reader behind the first `j` records of a segment.
proof fn lemma_ahead(file: Seq<u8>, base: u64, part: Seq<Seq<u8>>, r: ReaderState, j: int)
    requires
        holds_part(file, base, part, r.size, r.max),
        0 <= j <= part.len(),
        r.offset == HEADER_SIZE + span(part.take(j)),
        r.expected == nth_lsn(base, j),
    ensures
        ahead(r, file) == part.skip(j),
        HEADER_SIZE <= r.offset,
{
    lemma_run_suffix(file, HEADER_SIZE as int, base, r.size, r.max, j);
}

/// The wanted records are the first of them and those behind it.
proof fn lemma_records_step(first: u64, payloads: Seq<Seq<u8>>, from: u64, k: int)
    requires
        k == if from > first {
            from - first
        } else {
            0
        },
        k < payloads.len(),
    ensures
        records_from(first, payloads, from) == seq![(nth_lsn(first, k), payloads[k])]
            + records_from(nth_lsn(first, k + 1), payloads.skip(k + 1), from),
{
    let rest = payloads.skip(k + 1);
    let next = nth_lsn(first, k + 1);
    assert forall|x: int| 0 <= x implies #[trigger] nth_lsn(next, x) == nth_lsn(
        first,
        k + 1 + x,
    ) by {
        lemma_nth_lsn_add(first, k + 1, x);
    }
    assert(records_from(first, payloads, from) =~= seq![(nth_lsn(first, k), payloads[k])]
        + records_from(next, rest, from));
}

/// Records before the wanted ones do not count.
proof fn lemma_records_cross(first: u64, a: Seq<Seq<u8>>, b: Seq<Seq<u8>>, from: u64)
    requires
        a.len() > 0 ==> from >= first + a.len(),
    ensures
        records_from(first, a + b, from) == records_from(nth_lsn(first, a.len() as int), b, from),
{
    let next = nth_lsn(first, a.len() as int);
    assert forall|x: int| 0 <= x implies #[trigger] nth_lsn(next, x) == nth_lsn(
        first,
        a.len() + x,
    ) by {
        lemma_nth_lsn_add(first, a.len() as int, x);
    }
    assert(records_from(first, a + b, from) =~= records_from(next, b, from));
}

/// Whether the file of segment `i` holds its part of the records.
spec fn kept(
    disk: Map<u64, Seq<u8>>,
    segments: Seq<Lsn>,
    parts: Seq<Seq<Seq<u8>>>,
    size: int,
    max: u32,
    i: int,
) -> bool {
    holds_part(disk[segments[i].0], segments[i].0, parts[i], size, max)
}

/// Whether `segments` hold `parts`, each continued by the next.
#[verifier::opaque]
spec fn laid_out(
    disk: Map<u64, Seq<u8>>,
    segments: Seq<Lsn>,
    parts: Seq<Seq<Seq<u8>>>,
    size: int,
    max: u32,
) -> bool {
    &&& parts.len() == segments.len()
    &&& forall|i: int|
        0 <= i < segments.len() ==> #[trigger] kept(disk, segments, parts, size, max, i)
    &&& forall|i: int| 0 <= i < segments.len() - 1 ==> #[trigger] continued(segments, parts, i)
}

/// Segment `i` of these.
proof fn lemma_laid_out_at(
    disk: Map<u64, Seq<u8>>,
    segments: Seq<Lsn>,
    parts: Seq<Seq<Seq<u8>>>,
    size: int,
    max: u32,
    i: int,
)
    requires
        laid_out(disk, segments, parts, size, max),
        0 <= i < segments.len(),
    ensures
        parts.len() == segments.len(),
        holds_part(disk[segments[i].0], segments[i].0, parts[i], size, max),
        i < segments.len() - 1 ==> segments[i + 1].0 == segments[i].0 + parts[i].len(),
{
    reveal(laid_out);
    assert(kept(disk, segments, parts, size, max, i));
    if i < segments.len() - 1 {
        assert(continued(segments, parts, i));
    }
}

/// What a reader hands out from record `j` of segment `i` on.
proof fn lemma_replay_from(
    disk: Map<u64, Seq<u8>>,
    parts: Seq<Seq<Seq<u8>>>,
    r: ReaderState,
    j: int,
)
    requires
        laid_out(disk, r.segments, parts, r.size, r.max),
        !r.done,
        0 <= r.at < r.segments.len(),
        0 <= j <= parts[r.at].len(),
        r.offset == HEADER_SIZE + span(parts[r.at].take(j)),
        r.expected == nth_lsn(r.segments[r.at].0, j),
    ensures
        replay(disk, r) == records_from(r.expected, remaining(parts, r.at, j), r.from),
    decreases r.segments.len() - r.at, parts[r.at].len() - j,
{
    let i = r.at;
    let top = r.segments.len() - 1;
    let base = r.segments[i].0;
    let file = disk[base];
    let part = parts[i];
    let tail = part.skip(j);
    let k = skipped(r);
    let all = remaining(parts, i, j);
    lemma_laid_out_at(disk, r.segments, parts, r.size, r.max, i);
    lemma_ahead(file, base, part, r, j);
    if k < tail.len() {
        let next = moved(r, file);
        assert(part.take(j + k + 1) =~= part.take(j) + tail.take(k + 1));
        lemma_span_concat(part.take(j), tail.take(k + 1));
        lemma_nth_lsn_add(base, j, k + 1);
        lemma_replay_from(disk, parts, next, j + k + 1);
        assert(remaining(parts, i, j + k + 1) =~= all.skip(k + 1));
        lemma_records_step(r.expected, all, r.from, k);
        assert(all[k] == tail[k]);
        lemma_replay_record(disk, r);
    } else if i < top {
        let next = moved(r, file);
        assert(tail.take(tail.len() as int) =~= tail);
        lemma_nth_lsn_add(base, j, tail.len() as int);
        assert(next.expected == r.segments[i + 1].0);
        assert(parts[i + 1].take(0) =~= seq![]);
        lemma_replay_from(disk, parts, next, 0);
        let rest = remaining(parts, i + 1, 0);
        assert(parts.skip(i + 1).drop_first() =~= parts.skip(i + 2));
        assert(parts[i + 1].skip(0) =~= parts[i + 1]);
        assert(parts.skip(i + 1)[0] == parts[i + 1]);
        assert(rest == flat(parts.skip(i + 1)));
        lemma_records_cross(r.expected, tail, rest, r.from);
        assert(replay(disk, r) == replay(disk, next));
    } else {
        assert(parts.skip(i + 1) =~= seq![]);
        assert(all =~= tail);
        assert(records_from(r.expected, all, r.from) =~= seq![]);
        assert(replay(disk, r).len() == 0);
    }
}

/// Replay reads back what was written: a reader over a directory that holds what a
/// handle takes for durable hands out exactly the durable records from `from` on,
/// each with its LSN and payload, in order and without a gap.
pub proof fn law_replay_reads_back(
    disk: Map<u64, Seq<u8>>,
    w: WalState,
    parts: Seq<Seq<Seq<u8>>>,
    from: u64,
)
    requires
        represents(disk, w, parts),
    ensures
        replay(disk, reader_at(w, from)) == records_from(w.segments[0].0, flat(parts), from),
{
    assert(laid_out(disk, w.segments, parts, w.size, w.max)) by {
        reveal(laid_out);
        assert forall|i: int| 0 <= i < w.segments.len() implies #[trigger] kept(
            disk,
            w.segments,
            parts,
            w.size,
            w.max,
            i,
        ) by {
            assert(stored(disk, w.segments, parts, w.size, w.max, i));
        }
    }
    lemma_replay_laid_out(disk, w, parts, from);
}

/// What a reader hands out of segments that are laid out.
proof fn lemma_replay_laid_out(
    disk: Map<u64, Seq<u8>>,
    w: WalState,
    parts: Seq<Seq<Seq<u8>>>,
    from: u64,
)
    requires
        w.segments.len() >= 1,
        laid_out(disk, w.segments, parts, w.size, w.max),
    ensures
        replay(disk, reader_at(w, from)) == records_from(w.segments[0].0, flat(parts), from),
{
    let r = reader_at(w, from);
    lemma_laid_out_at(disk, w.segments, parts, w.size, w.max, 0);
    assert(parts[0].take(0) =~= seq![]);
    lemma_replay_from(disk, parts, r, 0);
    assert(parts[0].skip(0) =~= parts[0]);
    assert(parts.skip(1) =~= parts.drop_first());
    assert(remaining(parts, 0, 0) =~= flat(parts));
}

/// A log that opens is dense and reads back: whatever the directory held, once opening
/// it has succeeded and its torn tail is zeroed, its records are numbered without a gap
/// from the oldest base to the last LSN that recovery found, and a replay hands out
/// exactly these.
pub proof fn law_opened_log_is_dense(
    disk: Map<u64, Seq<u8>>,
    bases: Seq<u64>,
    found: Found,
    config: WalConfig,
    from: u64,
)
    requires
        bases.len() >= 1,
        scan_outcome(
            disk,
            bases,
            0,
            None,
            config.segment_size as int,
            config.max_record_size,
        ) == Stepped::Next(OpenState::Ready { found }),
        forall|i: int|
            0 <= i < bases.len() ==> #[trigger] numbered(
                disk,
                bases,
                config.segment_size as int,
                config.max_record_size,
                i,
            ),
    ensures
        found.bases == bases,
        bases[0] >= 1,
        ({
            let size = config.segment_size as int;
            let log = flat(parts_of(disk, bases, size, config.max_record_size));
            &&& bases[0] + log.len() == found.last + 1
            &&& replay(settled(disk, found, size), reader_at(started(found, config), from))
                == records_from(bases[0], log, from)
        }),
{
    let size = config.segment_size as int;
    let max = config.max_record_size;
    let top = bases.len() - 1;
    let parts = parts_of(disk, bases, size, max);
    let after = settled(disk, found, size);
    let s = started(found, config);
    lemma_scan_links(disk, bases, found, size, max);
    assert(s.segments =~= as_lsns(bases));
    assert forall|i: int| 0 <= i < top implies #[trigger] bases[i] != bases.last() by {
        lemma_bases_grow(disk, bases, size, max, i, top);
    }
    assert forall|i: int| 0 <= i < top implies #[trigger] continued(s.segments, parts, i) by {
        assert(linked(disk, bases, size, max, i));
    }
    assert(1 <= bases[0]);
    lemma_flat_len(s.segments, parts, 0);
    assert(parts.skip(0) =~= parts);
    assert(laid_out(after, s.segments, parts, size, max)) by {
        reveal(laid_out);
        assert forall|i: int| 0 <= i < s.segments.len() implies #[trigger] kept(
            after,
            s.segments,
            parts,
            size,
            max,
            i,
        ) by {
            assert(1 <= bases[i]);
            lemma_settled_files(disk, bases, found, size, max, i);
            if i < top {
                assert(linked(disk, bases, size, max, i));
            }
        }
    }
    lemma_replay_laid_out(after, s, parts, from);
}

/// A replay after a crash in the middle of a write, and the recovery from it, hands out
/// the records of the directory, which start with all that were durable.
pub proof fn law_replay_after_a_crash_keeps_the_durable_records(
    disk: Map<u64, Seq<u8>>,
    s: WalState,
    parts: Seq<Seq<Seq<u8>>>,
    left: Seq<u8>,
    found: Found,
    from: u64,
)
    requires
        represents(disk, s, parts),
        s.write_offset <= left.len(),
        forall|i: int| 0 <= i < s.write_offset ==> left[i] == disk[s.segments.last().0][i],
        open_outcome(
            disk.insert(s.segments.last().0, left),
            OpenState::Inspecting { bases: bases_of(s.segments) },
            s.size,
            s.max,
        ) == Stepped::Next(OpenState::Ready { found }),
        s.segments.last().0 + segment_run(
            left,
            s.segments.last().0,
            s.size,
            s.max,
        ).payloads.len() <= u64::MAX,
    ensures
        ({
            let after = disk.insert(s.segments.last().0, left);
            let log = flat(parts_of(after, bases_of(s.segments), s.size, s.max));
            &&& flat(parts).is_prefix_of(log)
            &&& replay(
                settled(after, found, s.size),
                reader_at(started(found, config_of(s)), from),
            ) == records_from(s.segments[0].0, log, from)
        }),
{
    let bases = bases_of(s.segments);
    let after = disk.insert(s.segments.last().0, left);
    law_recovered_log_keeps_the_durable_one(disk, s, parts, left);
    lemma_crashed_is_inspected(disk, s, parts, left);
    lemma_crashed_is_numbered(disk, s, parts, left);
    law_opened_log_is_dense(after, bases, found, config_of(s), from);
}

/// A directory, the handle on it, and the records of each segment.
pub struct World {
    /// The directory.
    pub disk: Map<u64, Seq<u8>>,
    /// The handle.
    pub state: WalState,
    /// The records of each segment.
    pub parts: Seq<Seq<Seq<u8>>>,
}

impl World {
    /// Whether the directory holds what the handle takes for durable.
    pub open spec fn sound(self) -> bool {
        represents(self.disk, self.state, self.parts)
    }

    /// The durable records.
    pub open spec fn log(self) -> Seq<Seq<u8>> {
        flat(self.parts)
    }
}

/// `w` once its caller has done what a commit asked for. `created` gives the times of
/// creation of new segments.
pub open spec fn commit_stepped(w: World, created: spec_fn(u64) -> u64) -> World {
    let s = w.state;
    match s.due {
        Due::Write { count } => {
            let base = s.segments.last().0;
            let batch = s.pending.take(count as int);
            let file = spliced(w.disk[base], s.write_offset, frames(next_lsn(s.durable), batch));
            World {
                disk: w.disk.insert(base, file),
                state: planned(written(s, count)),
                parts: extended(w.parts, batch),
            }
        },
        Due::Roll => {
            let base = next_lsn(s.durable);
            World {
                disk: w.disk.insert(base, fresh(base, created(base), s.size)),
                state: planned(rolled(s)),
                parts: w.parts.push(seq![]),
            }
        },
        Due::Nothing => w,
    }
}

/// `w` at the end of its commit.
pub open spec fn commit_ended(w: World, created: spec_fn(u64) -> u64) -> World
    decreases
            w.state.pending.len(),
            if w.state.due is Roll {
                1int
            } else {
                0int
            },
    when w.state.valid()
{
    if w.state.due is Nothing {
        w
    } else {
        proof {
            law_commit_makes_progress(w.state);
        }
        commit_ended(commit_stepped(w, created), created)
    }
}

/// `w` once a whole commit has been done.
pub open spec fn committed(w: World, created: spec_fn(u64) -> u64) -> World {
    commit_ended(World { state: planned(w.state), ..w }, created)
}

/// `w` once records have been appended.
pub open spec fn appended(w: World, payloads: Seq<Seq<u8>>) -> World {
    World { state: WalState { pending: w.state.pending + payloads, ..w.state }, ..w }
}

/// Planning a commit changes nothing but what is due.
pub proof fn lemma_planned_is_sound(w: World)
    requires
        w.sound(),
        w.state.due is Nothing,
    ensures
        (World { state: planned(w.state), ..w }).sound(),
{
    let s = w.state;
    lemma_fitting(s.pending, s.size - s.write_offset);
    if fitting(s.pending, s.size - s.write_offset) == 0 && s.pending.len() > 0 {
        assert(s.pending.take(0) =~= seq![]);
    }
    let t = planned(s);
    assert(t.valid());
    assert(t.segments == s.segments);
}

/// Each step of a commit leaves a sound log: a crash between any two of them loses
/// nothing that was durable. A step adds the records that were due to the log, and
/// changes no others.
pub proof fn law_commit_step_keeps_the_log(w: World, created: spec_fn(u64) -> u64)
    requires
        w.sound(),
        w.state.durable + w.state.pending.len() < u64::MAX,
    ensures
        ({
            let n = commit_stepped(w, created);
            &&& n.sound()
            &&& n.log() + n.state.pending == w.log() + w.state.pending
            &&& w.log().is_prefix_of(n.log())
            &&& n.state.last() == w.state.last()
            &&& n.state.durable + n.state.pending.len() == w.state.durable + w.state.pending.len()
            &&& n.state.segments[0] == w.state.segments[0]
        }),
{
    let s = w.state;
    match s.due {
        Due::Write { count } => {
            lemma_write_step_is_sound(w, created, count);
            lemma_write_step_adds(w, created, count);
        },
        Due::Roll => {
            lemma_roll_step_is_sound(w, created);
            law_log_is_append_only(w.parts, seq![], 0);
            assert(w.log() =~= w.log().subrange(0, w.log().len() as int));
        },
        Due::Nothing => {
            assert(w.log() =~= w.log().subrange(0, w.log().len() as int));
        },
    }
}

/// A write keeps the log sound.
proof fn lemma_write_step_is_sound(w: World, created: spec_fn(u64) -> u64, count: nat)
    requires
        w.sound(),
        w.state.due == (Due::Write { count }),
        w.state.durable + count < u64::MAX,
    ensures
        commit_stepped(w, created).sound(),
{
    law_write_is_stored(w.disk, w.state, w.parts, count);
    let n = commit_stepped(w, created);
    lemma_planned_is_sound(World { state: written(w.state, count), ..n });
}

/// A roll keeps the log sound.
proof fn lemma_roll_step_is_sound(w: World, created: spec_fn(u64) -> u64)
    requires
        w.sound(),
        w.state.due is Roll,
        w.state.durable < u64::MAX,
    ensures
        commit_stepped(w, created).sound(),
{
    law_roll_is_stored(w.disk, w.state, w.parts, created(next_lsn(w.state.durable)));
    let n = commit_stepped(w, created);
    lemma_planned_is_sound(World { state: rolled(w.state), ..n });
}

/// What a write adds to the log.
proof fn lemma_write_step_adds(w: World, created: spec_fn(u64) -> u64, count: nat)
    requires
        w.parts.len() >= 1,
        w.state.due == (Due::Write { count }),
        count <= w.state.pending.len(),
        w.state.durable + w.state.pending.len() < u64::MAX,
    ensures
        ({
            let n = commit_stepped(w, created);
            &&& n.log() + n.state.pending == w.log() + w.state.pending
            &&& w.log().is_prefix_of(n.log())
            &&& n.state.last() == w.state.last()
            &&& n.state.durable + n.state.pending.len() == w.state.durable + w.state.pending.len()
        }),
{
    let s = w.state;
    let batch = s.pending.take(count as int);
    law_log_is_append_only(w.parts, batch, 0);
    assert(s.pending =~= batch + s.pending.skip(count as int));
    assert(w.log() + batch + s.pending.skip(count as int) =~= w.log() + s.pending);
    assert(w.log() =~= (w.log() + batch).subrange(0, w.log().len() as int));
}

/// What a commit comes to.
pub proof fn lemma_commit_ends(w: World, created: spec_fn(u64) -> u64)
    requires
        w.sound(),
        w.state.due is Nothing ==> w.state.pending.len() == 0,
        w.state.durable + w.state.pending.len() < u64::MAX,
    ensures
        ({
            let e = commit_ended(w, created);
            &&& e.sound()
            &&& e.state.due is Nothing
            &&& e.state.pending.len() == 0
            &&& e.log() == w.log() + w.state.pending
            &&& e.state.durable == w.state.last()
            &&& e.state.segments[0] == w.state.segments[0]
            &&& e.state.size == w.state.size
            &&& e.state.max == w.state.max
        }),
    decreases
            w.state.pending.len(),
            if w.state.due is Roll {
                1int
            } else {
                0int
            },
{
    if w.state.due is Nothing {
        assert(w.log() + w.state.pending =~= w.log());
    } else {
        law_commit_makes_progress(w.state);
        law_commit_step_keeps_the_log(w, created);
        lemma_commit_ends(commit_stepped(w, created), created);
    }
}

/// What was committed is read back: once a commit has ended, every record that was
/// appended before it is durable, in order behind all earlier ones. Opening the
/// directory again brings back exactly these records, and a replay hands out exactly
/// these, from the wanted one on.
pub proof fn law_committed_records_are_read_back(
    w: World,
    created: spec_fn(u64) -> u64,
    from: u64,
)
    requires
        w.sound(),
        w.state.due is Nothing,
        w.state.durable + w.state.pending.len() < u64::MAX,
    ensures
        ({
            let e = committed(w, created);
            let found = resumable(e.state);
            &&& e.sound()
            &&& e.state.durable == w.state.last()
            &&& e.log() == w.log() + w.state.pending
            &&& open_outcome(
                e.disk,
                OpenState::Inspecting { bases: bases_of(e.state.segments) },
                e.state.size,
                e.state.max,
            ) == Stepped::Next(OpenState::Ready { found })
            &&& found.last == w.state.last()
            &&& replay(e.disk, reader_at(started(found, config_of(e.state)), from))
                == records_from(w.state.segments[0].0, w.log() + w.state.pending, from)
        }),
{
    let p = World { state: planned(w.state), ..w };
    lemma_planned_is_sound(w);
    lemma_commit_ends(p, created);
    let e = commit_ended(p, created);
    law_reopening_brings_back(e.disk, e.state, e.parts);
    let t = started(resumable(e.state), config_of(e.state));
    assert(t.segments =~= e.state.segments);
    law_replay_reads_back(e.disk, t, e.parts, from);
}

} // verus!
