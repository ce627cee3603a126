//! Replay: what a reader hands out.

use vstd::prelude::*;

use crate::disk::flat;
use crate::disk::law_log_is_dense;
use crate::disk::represents;
use crate::error::WalError;
use crate::history::law_replay_reads_back;
use crate::history::lemma_replay_record;
use crate::history::replay;
use crate::image::lemma_frames_one;
use crate::image::lemma_nth_lsn_add;
use crate::image::lemma_span_concat;
use crate::image::span;
use crate::lsn::Lsn;
use crate::observer::DurabilityObserver;
use crate::promises::codec::framed;
use crate::promises::codec::lemma_framed;
use crate::promises::recovery::lemma_slot_by_bytes;
use crate::promises::recovery::no_record_at;
use crate::promises::recovery::record_at;
use crate::reader::ahead;
use crate::reader::skipped;
use crate::reader::Reader;
use crate::reader::ReaderState;
use crate::reader::Replay;
use crate::segment::slot_at;
use crate::segment::Slot;
use crate::wal::Wal;

verus! {

/// Whether `records` are the records of `log`, which starts with the record `first`, from
/// `from` on: each with its LSN and its whole payload, in order, and no others.
pub open spec fn are_records_from(
    records: Seq<(u64, Seq<u8>)>,
    first: u64,
    log: Seq<Seq<u8>>,
    from: u64,
) -> bool {
    let passed = if from > first {
        from - first
    } else {
        0
    };
    &&& records.len() == if log.len() > passed {
        log.len() - passed
    } else {
        0
    }
    &&& forall|i: int|
        0 <= i < records.len() ==> (#[trigger] records[i]).0 == first + passed + i && records[i].1
            == log[passed + i]
}

/// A reader starts with all durable records from the wanted one on ahead of it, over a
/// directory that holds what the handle takes for durable. A wanted record that is no
/// longer there is refused, and nothing else is.
pub proof fn law_reader_starts_before_the_wanted_records<O: DurabilityObserver>(
    w: &Wal<O>,
    from: Lsn,
    r: Result<Reader<'_>, WalError>,
    disk: Map<u64, Seq<u8>>,
    parts: Seq<Seq<Seq<u8>>>,
)
    requires
        w.wf(),
        represents(disk, w@, parts),
        call_ensures(Wal::<O>::reader_from, (w, from), r),
    ensures
        from.0 != 0 && from.0 < w@.segments[0].0 ==> r matches Err(WalError::ContiguityViolation),
        from.0 == 0 || from.0 >= w@.segments[0].0 ==> {
            &&& r matches Ok(reader)
            &&& reader.wf()
            &&& are_records_from(
                replay(disk, reader@),
                w@.segments[0].0,
                flat(parts),
                from.0,
            )
        },
{
    if let Ok(reader) = r {
        let wanted = if from.0 == 0 {
            1
        } else {
            from.0
        };
        law_replay_reads_back(disk, w@, parts, wanted);
        law_log_is_dense(disk, w@, parts);
        assert(1 <= w@.segments[0].0);
    }
}

/// Each call of `next`, with the bytes of the segment that the reader names, hands out
/// the first of the records that are ahead, or goes on to another segment with the same
/// records ahead, or is the end, with none ahead. So the calls to the end of the log hand
/// out exactly the records that were ahead at the start.
pub proof fn law_next_hands_out_the_records_ahead(
    reader: &mut Reader<'_>,
    before: &Reader<'_>,
    base: Lsn,
    bytes: &[u8],
    r: Option<Result<Replay<'_>, WalError>>,
    disk: Map<u64, Seq<u8>>,
)
    requires
        old(reader).wf(),
        *before == *old(reader),
        call_ensures(Reader::segment, (before,), base),
        bytes@ == disk[base.0],
        call_ensures(Reader::next, (reader, Ok::<&[u8], std::io::Error>(bytes)), r),
        !old(reader)@.done,
    ensures
        final(reader).wf(),
        match r {
            Some(Ok(Replay::Record(lsn, payload))) => replay(disk, old(reader)@) == seq![
                (lsn.0, payload@),
            ] + replay(disk, final(reader)@) && !final(reader)@.done,
            Some(Ok(Replay::Segment(next))) => {
                &&& replay(disk, final(reader)@) == replay(disk, old(reader)@)
                &&& final(reader)@.at == old(reader)@.at + 1
                &&& next == final(reader)@.segments[final(reader)@.at]
                &&& !final(reader)@.done
            },
            Some(Err(_)) => false,
            None => replay(disk, old(reader)@).len() == 0 && final(reader)@.done,
        },
{
    let s = old(reader)@;
    let file = disk[base.0];
    old(reader).law_reader_is_valid();
    let n = ahead(s, file).len() as int;
    if skipped(s) < n {
        lemma_replay_record(disk, s);
    } else {
        crate::image::lemma_run_span(file, s.offset, s.expected, s.size, s.max);
        assert(ahead(s, file).take(n) =~= ahead(s, file));
        crate::image::lemma_run_extent(file, s.offset, s.expected, s.size, s.max);
    }
}

/// A segment that cannot be read ends the replay with its error, and after the end there
/// is nothing more.
pub proof fn law_replay_ends_with_an_error(
    reader: &mut Reader<'_>,
    e: std::io::Error,
    r: Option<Result<Replay<'_>, WalError>>,
    again: &mut Reader<'_>,
    file: Result<&[u8], std::io::Error>,
    q: Option<Result<Replay<'_>, WalError>>,
)
    requires
        old(reader).wf(),
        !old(reader)@.done,
        call_ensures(Reader::next, (reader, Err::<&[u8], std::io::Error>(e)), r),
        *old(again) == *final(reader),
        call_ensures(Reader::next, (again, file), q),
    ensures
        r matches Some(Err(WalError::Io(f))) && f == e,
        q is None,
{
}

/// A reader goes by the bytes that it is given, whatever they are: it hands out the record
/// that is due where it stands, if it is wanted; passes over it, if it is not; and takes
/// anything else for the end of the segment.
pub proof fn law_next_goes_by_the_bytes(
    reader: &mut Reader<'_>,
    bytes: &[u8],
    r: Option<Result<Replay<'_>, WalError>>,
    ahead_of_it: &mut Reader<'_>,
    q: Option<Result<Replay<'_>, WalError>>,
    payload: Seq<u8>,
)
    requires
        old(reader).wf(),
        old(ahead_of_it).wf(),
        !old(reader)@.done,
        old(reader)@.expected < u64::MAX,
        call_ensures(Reader::next, (reader, Ok::<&[u8], std::io::Error>(bytes)), r),
        old(ahead_of_it)@ == (ReaderState {
            offset: old(reader)@.offset + framed(payload.len() as int),
            expected: (old(reader)@.expected + 1) as u64,
            ..old(reader)@
        }),
        call_ensures(Reader::next, (ahead_of_it, Ok::<&[u8], std::io::Error>(bytes)), q),
    ensures
        ({
            let s = old(reader)@;
            let due = record_at(bytes@, s.offset, s.size, s.max, s.expected, payload);
            &&& due && s.expected >= s.from ==> (r matches Some(
                Ok(Replay::Record(lsn, p)),
            ) && lsn.0 == s.expected && p@ == payload) && final(reader)@ == old(ahead_of_it)@
            &&& due && s.expected < s.from ==> final(reader)@ == final(ahead_of_it)@ && match (
                r,
                q,
            ) {
                (Some(Ok(Replay::Record(a, p))), Some(Ok(Replay::Record(b, o)))) => a == b && p@
                    == o@,
                (Some(Ok(Replay::Segment(a))), Some(Ok(Replay::Segment(b)))) => a == b,
                (None, None) => true,
                _ => false,
            }
            &&& no_record_at(bytes@, s.offset, s.size, s.max, s.expected) ==> if s.at + 1
                < s.segments.len() {
                &&& r matches Some(Ok(Replay::Segment(base)))
                &&& base == s.segments[s.at + 1]
                &&& final(reader)@ == (ReaderState { at: s.at + 1, offset: 64, ..s })
            } else {
                r is None && final(reader)@ == (ReaderState { done: true, ..s })
            }
        }),
{
    let s = old(reader)@;
    let t = old(ahead_of_it)@;
    old(reader).law_reader_is_valid();
    lemma_slot_by_bytes(bytes@, s.offset, s.size, s.max);
    lemma_framed(payload.len() as int);
    let all = ahead(s, bytes@);
    if record_at(bytes@, s.offset, s.size, s.max, s.expected, payload) {
        let rest = ahead(t, bytes@);
        assert(slot_at(bytes@, s.offset, s.size, s.max) == (Slot::Record {
            lsn: s.expected,
            payload,
        }));
        assert(all =~= seq![payload] + rest);
        assert(all.take(1) =~= seq![payload]);
        lemma_frames_one(0, payload);
        if s.expected < s.from {
            let k = skipped(s);
            let n = if k < all.len() {
                k + 1
            } else {
                all.len() as int
            };
            assert(all.take(n) =~= seq![payload] + rest.take(n - 1));
            lemma_span_concat(seq![payload], rest.take(n - 1));
            lemma_nth_lsn_add(s.expected, 1, n - 1);
            lemma_nth_lsn_add(s.expected, 1, k - 1);
        }
    }
    if no_record_at(bytes@, s.offset, s.size, s.max, s.expected) {
        if let Slot::Record { lsn, payload: p } = slot_at(bytes@, s.offset, s.size, s.max) {
            assert(record_at(bytes@, s.offset, s.size, s.max, lsn, p));
        }
        assert(all =~= seq![]);
        assert(all.take(0) =~= seq![]);
        assert(span(all.take(0)) == 0);
    }
}

} // verus!
