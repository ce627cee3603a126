//! The log's directory as a whole, and what the log's operations make of it.
//!
//! A directory is modelled as a map from the bases of its segments to the bytes of
//! their files.

use vstd::prelude::*;

use crate::config::WalConfig;
use crate::image::frames;
use crate::image::lemma_bounded_parts;
use crate::image::lemma_run_of_frames;
use crate::image::lemma_run_prefix;
use crate::image::lemma_run_span;
use crate::image::lemma_span;
use crate::image::lemma_span_concat;
use crate::image::span;
use crate::lsn::next_lsn;
use crate::lsn::Lsn;
use crate::open::as_lsns;
use crate::open::cold;
use crate::open::started;
use crate::record::zeros;
use crate::recovery::segment_run;
use crate::segment::header;
use crate::segment::header_base;
use crate::segment::law_header_round_trip;
use crate::segment::slot_at;
use crate::segment::HEADER_SIZE;
use crate::wal::deletable;
use crate::wal::lemma_deletable;
use crate::wal::reclaimed;
use crate::wal::rolled;
use crate::wal::written;
use crate::wal::Due;
use crate::wal::WalState;

verus! {

/// `file` with `bytes` written at `at`.
pub open spec fn spliced(file: Seq<u8>, at: int, bytes: Seq<u8>) -> Seq<u8> {
    Seq::new(
        file.len(),
        |i: int|
            if at <= i < at + bytes.len() {
                bytes[i - at]
            } else {
                file[i]
            },
    )
}

/// A new segment.
pub open spec fn fresh(base: u64, created: u64, size: int) -> Seq<u8> {
    header(base, created) + zeros((size - HEADER_SIZE) as nat)
}

/// Whether `file` is the segment at `base` with the records of `part`.
pub open spec fn holds_part(
    file: Seq<u8>,
    base: u64,
    part: Seq<Seq<u8>>,
    size: int,
    max: u32,
) -> bool {
    &&& header_base(file) == Some(base)
    &&& segment_run(file, base, size, max).payloads == part
    &&& segment_run(file, base, size, max).clean
}

/// Whether segment `i` is in the directory, with its part of the records.
pub open spec fn stored(
    disk: Map<u64, Seq<u8>>,
    segments: Seq<Lsn>,
    parts: Seq<Seq<Seq<u8>>>,
    size: int,
    max: u32,
    i: int,
) -> bool {
    let base = segments[i].0;
    disk.contains_key(base) && holds_part(disk[base], base, parts[i], size, max)
}

/// Whether segment `i` is not empty, and the next one continues it.
pub open spec fn continued(segments: Seq<Lsn>, parts: Seq<Seq<Seq<u8>>>, i: int) -> bool {
    parts[i].len() >= 1 && segments[i + 1].0 == segments[i].0 + parts[i].len()
}

/// Whether the directory `disk` holds what handle `s` takes for durable, with the
/// records of each segment in `parts`: every segment continues the one before, none
/// but the last is empty, and behind the last record there are only zeros.
pub open spec fn represents(
    disk: Map<u64, Seq<u8>>,
    s: WalState,
    parts: Seq<Seq<Seq<u8>>>,
) -> bool {
    let top = s.segments.len() - 1;
    &&& s.valid()
    &&& parts.len() == s.segments.len()
    &&& forall|i: int|
        0 <= i <= top ==> #[trigger] stored(disk, s.segments, parts, s.size, s.max, i)
    &&& forall|i: int| 0 <= i < top ==> #[trigger] continued(s.segments, parts, i)
    &&& s.durable == s.segments[top].0 + parts[top].len() - 1
    &&& s.write_offset == HEADER_SIZE + span(parts[top])
    &&& disk[s.segments[top].0].len() == s.size
    &&& forall|j: int| s.write_offset <= j < s.size ==> disk[s.segments[top].0][j] == 0
}

/// The records of `parts`, one after the other.
pub open spec fn flat(parts: Seq<Seq<Seq<u8>>>) -> Seq<Seq<u8>>
    decreases parts.len(),
{
    if parts.len() == 0 {
        seq![]
    } else {
        parts[0] + flat(parts.drop_first())
    }
}

/// `parts` with the records of `more` added to the last one.
pub open spec fn extended(parts: Seq<Seq<Seq<u8>>>, more: Seq<Seq<u8>>) -> Seq<Seq<Seq<u8>>> {
    parts.update(parts.len() - 1, parts.last() + more)
}

/// Zeros, or too little room, end the records.
pub proof fn lemma_zeros_end(file: Seq<u8>, at: int, size: int, max: u32)
    requires
        0 <= at,
        file.len() == size,
        forall|j: int| at <= j < size ==> file[j] == 0,
    ensures
        slot_at(file, at, size, max) is End,
{
    if size - at >= 20 {
        assert(file.subrange(at, at + 20) =~= zeros(20));
    }
}

/// A header depends on the first 64 bytes of a file only.
pub proof fn lemma_header_is_local(a: Seq<u8>, b: Seq<u8>)
    requires
        HEADER_SIZE <= a.len(),
        HEADER_SIZE <= b.len(),
        forall|i: int| 0 <= i < HEADER_SIZE ==> a[i] == b[i],
    ensures
        header_base(a) == header_base(b),
{
    assert(a.subrange(0, 8) =~= b.subrange(0, 8));
    assert(a.subrange(0, 60) =~= b.subrange(0, 60));
}

/// Bases of segments in order differ.
pub proof fn lemma_bases_increase(disk: Map<u64, Seq<u8>>, s: WalState, parts: Seq<Seq<Seq<u8>>>, i: int, j: int)
    requires
        represents(disk, s, parts),
        0 <= i < j < s.segments.len(),
    ensures
        s.segments[i].0 < s.segments[j].0,
    decreases j - i,
{
    assert(continued(s.segments, parts, j - 1));
    if i < j - 1 {
        lemma_bases_increase(disk, s, parts, i, j - 1);
    }
}

/// A write that a commit asks for, done and synced, makes exactly the records that
/// were due durable, and touches no segment but the active one.
pub proof fn law_write_is_stored(
    disk: Map<u64, Seq<u8>>,
    s: WalState,
    parts: Seq<Seq<Seq<u8>>>,
    count: nat,
)
    requires
        represents(disk, s, parts),
        s.due == (Due::Write { count }),
        s.durable + count < u64::MAX,
    ensures
        ({
            let base = s.segments.last().0;
            let batch = s.pending.take(count as int);
            let file = spliced(disk[base], s.write_offset, frames(next_lsn(s.durable), batch));
            let after = disk.insert(base, file);
            &&& represents(after, written(s, count), extended(parts, batch))
            &&& forall|i: int| 0 <= i < s.segments.len() - 1 ==> after[(#[trigger] s.segments[i]).0]
                == disk[s.segments[i].0]
        }),
{
    let top = s.segments.len() - 1;
    let base = s.segments[top].0;
    let batch = s.pending.take(count as int);
    let first = next_lsn(s.durable);
    let bytes = frames(first, batch);
    let old_file = disk[base];
    let file = spliced(old_file, s.write_offset, bytes);
    let after = disk.insert(base, file);
    let t = written(s, count);
    let part = parts[top];
    let longer = part + batch;
    let new_parts = extended(parts, batch);
    lemma_bounded_parts(s.pending, count as int, s.max);
    lemma_span(first, batch);
    lemma_span_concat(part, batch);
    assert(stored(disk, s.segments, parts, s.size, s.max, top));
    lemma_header_is_local(file, old_file);
    lemma_run_span(old_file, HEADER_SIZE as int, base, s.size, s.max);
    lemma_run_prefix(old_file, file, HEADER_SIZE as int, base, s.size, s.max);
    assert(file.subrange(s.write_offset, s.write_offset + span(batch)) =~= bytes);
    lemma_run_of_frames(file, s.write_offset, first, batch, s.size, s.max);
    lemma_zeros_end(file, s.write_offset + span(batch), s.size, s.max);
    assert(segment_run(file, base, s.size, s.max).payloads =~= longer);
    assert forall|i: int| 0 <= i < top implies (#[trigger] s.segments[i]).0 != base by {
        lemma_bases_increase(disk, s, parts, i, top);
    }
    assert forall|i: int| 0 <= i <= top implies #[trigger] stored(
        after,
        t.segments,
        new_parts,
        t.size,
        t.max,
        i,
    ) by {
        if i < top {
            assert(stored(disk, s.segments, parts, s.size, s.max, i));
            assert(s.segments[i].0 != base);
        }
    }
    assert forall|i: int| 0 <= i < top implies #[trigger] continued(
        t.segments,
        new_parts,
        i,
    ) by {
        assert(continued(s.segments, parts, i));
    }
    assert(t.valid());
}

/// A segment that a commit asks for, made and synced with its directory, is an
/// empty successor of the active one, which is sealed with the records it has.
pub proof fn law_roll_is_stored(
    disk: Map<u64, Seq<u8>>,
    s: WalState,
    parts: Seq<Seq<Seq<u8>>>,
    created: u64,
)
    requires
        represents(disk, s, parts),
        s.due is Roll,
        s.durable < u64::MAX,
    ensures
        ({
            let base = next_lsn(s.durable);
            let after = disk.insert(base, fresh(base, created, s.size));
            &&& represents(after, rolled(s), parts.push(seq![]))
            &&& forall|i: int| 0 <= i < s.segments.len() ==> after[(#[trigger] s.segments[i]).0]
                == disk[s.segments[i].0]
        }),
{
    let top = s.segments.len() - 1;
    let base = next_lsn(s.durable);
    let file = fresh(base, created, s.size);
    let after = disk.insert(base, file);
    let t = rolled(s);
    let empty: Seq<Seq<u8>> = seq![];
    let new_parts = parts.push(empty);
    assert(header(base, created).len() == HEADER_SIZE);
    law_header_round_trip(base, created, zeros((s.size - HEADER_SIZE) as nat));
    assert(span(empty) == 0);
    lemma_zeros_end(file, HEADER_SIZE as int, s.size, s.max);
    assert(holds_part(file, base, empty, s.size, s.max));
    // A record that does not fit shows that the segment is not empty.
    if parts[top].len() == 0 {
        assert(parts[top] =~= empty);
    }
    assert forall|i: int| 0 <= i <= top implies (#[trigger] s.segments[i]).0 != base by {
        if i < top {
            lemma_bases_increase(disk, s, parts, i, top);
        }
    }
    assert forall|i: int| 0 <= i < t.segments.len() - 1 implies #[trigger] continued(
        t.segments,
        new_parts,
        i,
    ) by {
        if i < top {
            assert(continued(s.segments, parts, i));
        }
    }
    assert forall|i: int| 0 <= i < t.segments.len() implies #[trigger] stored(
        after,
        t.segments,
        new_parts,
        t.size,
        t.max,
        i,
    ) by {
        if i <= top {
            assert(stored(disk, s.segments, parts, s.size, s.max, i));
            assert(s.segments[i].0 != base);
        }
    }
    assert(t.valid()) by {
        let g = t.segments;
        assert forall|i: int, j: int| 0 <= i <= j < g.len() implies g[i].0 <= g[j].0 by {
            if j == top + 1 && i <= top {
                assert(s.segments[i].0 <= s.segments[top].0);
            }
        }
    }
}

/// A new log: the directory holds its first segment, and no record.
pub proof fn law_cold_start_is_stored(created: u64, config: WalConfig)
    requires
        config.valid(),
    ensures
        represents(
            map![1u64 => fresh(1, created, config.segment_size as int)],
            started(cold(), config),
            seq![Seq::<Seq<u8>>::empty()],
        ),
{
    let size = config.segment_size as int;
    let max = config.max_record_size;
    let file = fresh(1, created, size);
    let empty: Seq<Seq<u8>> = Seq::empty();
    assert(header(1, created).len() == HEADER_SIZE);
    law_header_round_trip(1, created, zeros((size - HEADER_SIZE) as nat));
    assert(span(empty) == 0);
    lemma_zeros_end(file, HEADER_SIZE as int, size, max);
    assert(holds_part(file, 1, empty, size, max));
    assert(as_lsns(cold().bases) =~= seq![Lsn(1)]);
    let s = started(cold(), config);
    let parts = seq![empty];
    let disk = map![1u64 => file];
    assert(stored(disk, s.segments, parts, size, max, 0));
}

/// The bases of the first `gone` of `segments`.
pub open spec fn first_bases(segments: Seq<Lsn>, gone: int) -> Set<u64> {
    Set::new(|b: u64| exists|i: int| 0 <= i < gone && b == (#[trigger] segments[i]).0)
}

/// Removing the first segments leaves the files of the others.
proof fn lemma_removal_leaves(
    disk: Map<u64, Seq<u8>>,
    s: WalState,
    parts: Seq<Seq<Seq<u8>>>,
    gone: int,
    i: int,
)
    requires
        represents(disk, s, parts),
        0 <= gone <= i < s.segments.len(),
    ensures
        ({
            let after = disk.remove_keys(first_bases(s.segments, gone));
            let base = s.segments[i].0;
            &&& after.contains_key(base)
            &&& after[base] == disk[base]
            &&& holds_part(after[base], base, parts[i], s.size, s.max)
        }),
{
    let lost = first_bases(s.segments, gone);
    let base = s.segments[i].0;
    assert(stored(disk, s.segments, parts, s.size, s.max, i));
    if lost.contains(base) {
        let j = choose|j: int| 0 <= j < gone && base == (#[trigger] s.segments[j]).0;
        lemma_bases_increase(disk, s, parts, j, i);
    }
}

/// A handle without its first segments is one still.
proof fn lemma_reclaimed_is_valid(s: WalState, gone: int)
    requires
        s.valid(),
        s.reclaim is Idle,
        0 <= gone < s.segments.len(),
    ensures
        reclaimed(s, gone).valid(),
        reclaimed(s, gone).segments.last() == s.segments.last(),
{
    let t = reclaimed(s, gone);
    assert forall|i: int, j: int| 0 <= i <= j < t.segments.len() implies t.segments[i].0
        <= t.segments[j].0 by {
        assert(s.segments[gone + i].0 <= s.segments[gone + j].0);
    }
    assert forall|i: int| 0 <= i < t.segments.len() implies 1 <= (#[trigger] t.segments[i]).0 by {
        assert(1 <= s.segments[gone + i].0);
    }
}

/// A checkpoint removes no record above the LSN that it was given, and after each
/// single removal, also where a crash or a failure stops it there, what is left is
/// the log from a later segment on.
pub proof fn law_checkpoint_keeps_the_rest(
    disk: Map<u64, Seq<u8>>,
    s: WalState,
    parts: Seq<Seq<Seq<u8>>>,
    up_to: u64,
    gone: int,
)
    requires
        represents(disk, s, parts),
        s.reclaim is Idle,
        0 <= gone <= deletable(s.segments, up_to),
    ensures
        represents(
            disk.remove_keys(first_bases(s.segments, gone)),
            reclaimed(s, gone),
            parts.skip(gone),
        ),
        forall|i: int|
            0 <= i < gone ==> (#[trigger] s.segments[i]).0 + parts[i].len() - 1 <= up_to,
{
    let after = disk.remove_keys(first_bases(s.segments, gone));
    let t = reclaimed(s, gone);
    let left = parts.skip(gone);
    let top = s.segments.len() - 1;
    lemma_deletable(s.segments, up_to);
    lemma_reclaimed_is_valid(s, gone);
    assert forall|i: int| 0 <= i < gone implies (#[trigger] s.segments[i]).0 + parts[i].len() - 1
        <= up_to by {
        assert(continued(s.segments, parts, i));
        assert(s.segments[i + 1].0 - 1 <= up_to);
    }
    assert forall|i: int| 0 <= i < t.segments.len() implies #[trigger] stored(
        after,
        t.segments,
        left,
        t.size,
        t.max,
        i,
    ) by {
        lemma_removal_leaves(disk, s, parts, gone, gone + i);
    }
    assert forall|i: int| 0 <= i < t.segments.len() - 1 implies #[trigger] continued(
        t.segments,
        left,
        i,
    ) by {
        assert(continued(s.segments, parts, gone + i));
    }
    lemma_removal_leaves(disk, s, parts, gone, top);
    assert(left.last() == parts[top]);
}

/// The records of two runs of segments.
proof fn lemma_flat_concat(a: Seq<Seq<Seq<u8>>>, b: Seq<Seq<Seq<u8>>>)
    ensures
        flat(a + b) == flat(a) + flat(b),
    decreases a.len(),
{
    if a.len() == 0 {
        assert(a + b =~= b);
        assert(flat(a) + flat(b) =~= flat(b));
    } else {
        lemma_flat_concat(a.drop_first(), b);
        assert((a + b).drop_first() =~= a.drop_first() + b);
        assert(flat(a + b) =~= flat(a) + flat(b));
    }
}

/// The records of one segment.
proof fn lemma_flat_one(part: Seq<Seq<u8>>)
    ensures
        flat(seq![part]) == part,
{
    let one = seq![part];
    assert(one.drop_first() =~= seq![]);
    assert(flat(one.drop_first()) =~= seq![]);
    assert(flat(one) =~= part);
}

/// The log grows only at its end and shrinks only at its start: a write adds its
/// records behind all others, a roll adds none, and what a checkpoint leaves is a
/// suffix.
pub proof fn law_log_is_append_only(parts: Seq<Seq<Seq<u8>>>, more: Seq<Seq<u8>>, gone: int)
    requires
        parts.len() >= 1,
        0 <= gone <= parts.len(),
    ensures
        flat(extended(parts, more)) == flat(parts) + more,
        flat(parts.push(seq![])) == flat(parts),
        flat(parts) == flat(parts.take(gone)) + flat(parts.skip(gone)),
{
    let (head, last) = (parts.drop_last(), parts.last());
    assert(parts =~= head + seq![last]);
    assert(extended(parts, more) =~= head + seq![last + more]);
    lemma_flat_concat(head, seq![last]);
    lemma_flat_concat(head, seq![last + more]);
    lemma_flat_one(last);
    lemma_flat_one(last + more);
    assert(flat(extended(parts, more)) =~= flat(parts) + more);
    let empty: Seq<Seq<u8>> = seq![];
    assert(parts.push(empty) =~= parts + seq![empty]);
    lemma_flat_concat(parts, seq![empty]);
    lemma_flat_one(empty);
    assert(flat(parts) + empty =~= flat(parts));
    assert(parts =~= parts.take(gone) + parts.skip(gone));
    lemma_flat_concat(parts.take(gone), parts.skip(gone));
}

/// The durable records are numbered densely, from the base of the oldest segment to
/// the durable LSN.
pub proof fn law_log_is_dense(disk: Map<u64, Seq<u8>>, s: WalState, parts: Seq<Seq<Seq<u8>>>)
    requires
        represents(disk, s, parts),
    ensures
        s.segments[0].0 + flat(parts).len() == s.durable + 1,
{
    lemma_flat_len(s.segments, parts, 0);
    assert(parts.skip(0) =~= parts);
}

/// Number of records from segment `i` on.
pub proof fn lemma_flat_len(segments: Seq<Lsn>, parts: Seq<Seq<Seq<u8>>>, i: int)
    requires
        0 <= i < parts.len(),
        parts.len() == segments.len(),
        forall|k: int| 0 <= k < parts.len() - 1 ==> #[trigger] continued(segments, parts, k),
    ensures
        segments[i].0 + flat(parts.skip(i)).len() == segments[parts.len() - 1].0
            + parts.last().len(),
    decreases parts.len() - i,
{
    let rest = parts.skip(i);
    assert(rest.drop_first() =~= parts.skip(i + 1));
    assert(rest[0] == parts[i]);
    if i + 1 < parts.len() {
        assert(continued(segments, parts, i));
        lemma_flat_len(segments, parts, i + 1);
    } else {
        assert(flat(parts.skip(i + 1)) =~= seq![]);
    }
}

} // verus!
