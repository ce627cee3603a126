//! Replay of the log.
//!
//! A [`Reader`] walks over the records of one segment after the other. Its caller
//! holds the bytes of the segment that is being read and hands them to
//! [`Reader::next`], which lends the payloads out of them.

use vstd::prelude::*;

use crate::error::WalError;
use crate::image::lemma_frames_one;
use crate::image::lemma_nth_lsn_add;
use crate::image::lemma_span_concat;
use crate::image::span;
use crate::lsn::Lsn;
use crate::observer::DurabilityObserver;
use crate::recovery::nth_lsn;
use crate::recovery::run;
use crate::segment::read_record_at;
use crate::segment::HEADER_SIZE;
use crate::segment::ScanOutcome;
use crate::wal::Wal;
use crate::wal::WalState;

verus! {

/// A reader as its contracts see it.
pub struct ReaderState {
    /// The bases of the segments to replay, oldest first.
    pub segments: Seq<Lsn>,
    /// Which of them is being read.
    pub at: int,
    /// Offset of the next record in it.
    pub offset: int,
    /// LSN of the next record.
    pub expected: u64,
    /// LSN of the first record to hand out.
    pub from: u64,
    /// Whether the replay is over.
    pub done: bool,
    /// Size of a segment.
    pub size: int,
    /// Bound on a payload.
    pub max: u32,
}

/// What a reader hands out.
#[derive(Debug)]
pub enum Replay<'b> {
    /// A record, and its payload within the bytes that were handed in.
    Record(Lsn, &'b [u8]),
    /// The records of the segment are through: read on with the bytes of the
    /// segment at this base.
    Segment(Lsn),
}

/// A reader at the start of the oldest segment of handle `w`.
pub open spec fn reader_at(w: WalState, from: u64) -> ReaderState {
    ReaderState {
        segments: w.segments,
        at: 0,
        offset: HEADER_SIZE as int,
        expected: w.segments[0].0,
        from,
        done: false,
        size: w.size,
        max: w.max,
    }
}

/// How many records lie between the one due and the first one wanted.
pub open spec fn skipped(s: ReaderState) -> int {
    if s.from > s.expected {
        s.from - s.expected
    } else {
        0
    }
}

/// The records that stand at the place of reader `s` in a segment.
pub open spec fn ahead(s: ReaderState, file: Seq<u8>) -> Seq<Seq<u8>> {
    run(file, s.offset, s.expected, s.size, s.max).payloads
}

/// Reader `s` behind the next `n` records of the segment that holds `file`.
pub open spec fn passed(s: ReaderState, file: Seq<u8>, n: int) -> ReaderState {
    ReaderState {
        offset: s.offset + span(ahead(s, file).take(n)),
        expected: nth_lsn(s.expected, n),
        ..s
    }
}

/// Reader `s` at the start of the next segment, or at its end where there is none.
pub open spec fn crossed(s: ReaderState) -> ReaderState {
    if s.at + 1 < s.segments.len() {
        ReaderState { at: s.at + 1, offset: HEADER_SIZE as int, ..s }
    } else {
        ReaderState { done: true, ..s }
    }
}

/// Reader `s` after one call with the bytes of its segment. Either a wanted record
/// is ahead, and it is behind that record; or the rest of the segment is through.
pub open spec fn moved(s: ReaderState, file: Seq<u8>) -> ReaderState {
    let n = ahead(s, file).len() as int;
    let k = skipped(s);
    if s.done {
        s
    } else if k < n {
        passed(s, file, k + 1)
    } else {
        crossed(passed(s, file, n))
    }
}

/// Whether `r` is what that call hands out.
pub open spec fn hands_out(
    r: Option<Result<Replay<'_>, WalError>>,
    s: ReaderState,
    file: Seq<u8>,
) -> bool {
    let n = ahead(s, file).len() as int;
    let k = skipped(s);
    if s.done {
        r is None
    } else if k < n {
        r matches Some(Ok(Replay::Record(lsn, payload))) && lsn.0 == nth_lsn(s.expected, k)
            && payload@ == ahead(s, file)[k]
    } else if s.at + 1 < s.segments.len() {
        r matches Some(Ok(Replay::Segment(base))) && base == s.segments[s.at + 1]
    } else {
        r is None
    }
}

/// Streaming reader over the log, from an LSN of the caller's choice on. It borrows
/// the log, which cannot be written meanwhile.
pub struct Reader<'w> {
    segments: &'w [Lsn],
    seg_idx: usize,
    offset: u64,
    expected_lsn: Lsn,
    from: Lsn,
    segment_size: u64,
    max_record_size: u32,
    done: bool,
}

impl<'w> View for Reader<'w> {
    type V = ReaderState;

    closed spec fn view(&self) -> ReaderState {
        ReaderState {
            segments: self.segments@,
            at: self.seg_idx as int,
            offset: self.offset as int,
            expected: self.expected_lsn.0,
            from: self.from.0,
            done: self.done,
            size: self.segment_size as int,
            max: self.max_record_size,
        }
    }
}

impl<'w> Reader<'w> {
    /// Holds of every reader.
    pub closed spec fn wf(&self) -> bool {
        self.seg_idx < self.segments@.len()
    }

    /// Every reader stands in one of its segments.
    pub proof fn law_reader_is_valid(&self)
        requires
            self.wf(),
        ensures
            0 <= self@.at < self@.segments.len(),
            0 <= self@.offset,
    {
    }

    /// A reader at the start of the first of `segments`.
    pub(crate) fn new(
        segments: &'w [Lsn],
        from: Lsn,
        segment_size: u64,
        max_record_size: u32,
    ) -> (r: Reader<'w>)
        requires
            segments@.len() >= 1,
        ensures
            r.wf(),
            r@ == (ReaderState {
                segments: segments@,
                at: 0,
                offset: HEADER_SIZE as int,
                expected: segments@[0].0,
                from: from.0,
                done: false,
                size: segment_size as int,
                max: max_record_size,
            }),
    {
        Reader {
            segments,
            seg_idx: 0,
            offset: HEADER_SIZE,
            expected_lsn: segments[0],
            from,
            segment_size,
            max_record_size,
            done: false,
        }
    }

    /// The base of the segment whose bytes the next call needs.
    pub fn segment(&self) -> (base: Lsn)
        requires
            self.wf(),
        ensures
            base == self@.segments[self@.at],
    {
        self.segments[self.seg_idx]
    }

    /// Goes on to the next segment, if there is one. The LSN that is due stays.
    fn advance_segment(&mut self) -> (more: bool)
        requires
            old(self).wf(),
        ensures
            final(self).wf(),
            final(self)@ == crossed(old(self)@),
            more == (old(self)@.at + 1 < old(self)@.segments.len()),
    {
        if self.seg_idx >= self.segments.len() - 1 {
            self.done = true;
            return false;
        }
        self.seg_idx = self.seg_idx + 1;
        self.offset = HEADER_SIZE;
        true
    }

    /// Hands out the next wanted record of the segment whose bytes are in `file`, or
    /// the base of the segment to read on with, or `None` at the end of the log.
    ///
    /// Records before the first wanted one are passed over. Whatever ends the run of
    /// due records ends the segment; telling a torn tail from corruption is the
    /// business of recovery. Where the segment could not be read, the replay ends
    /// with that error.
    pub fn next<'b>(&mut self, file: Result<&'b [u8], std::io::Error>) -> (r: Option<
        Result<Replay<'b>, WalError>,
    >)
        requires
            old(self).wf(),
        ensures
            final(self).wf(),
            match file {
                Ok(bytes) => final(self)@ == moved(old(self)@, bytes@) && hands_out(
                    r,
                    old(self)@,
                    bytes@,
                ),
                Err(e) => if old(self)@.done {
                    r is None && final(self)@ == old(self)@
                } else {
                    r == Some(Err::<Replay<'b>, WalError>(WalError::Io(e))) && final(self)@ == (
                    ReaderState { done: true, ..old(self)@ })
                },
            },
    {
        if self.done {
            return None;
        }
        let bytes: &'b [u8] = match file {
            Ok(bytes) => bytes,
            Err(e) => {
                self.done = true;
                return Some(Err(WalError::Io(e)));
            },
        };
        let ghost s = self@;
        let ghost whole = ahead(s, bytes@);
        let ghost mut seen: Seq<Seq<u8>> = seq![];
        proof {
            assert(seen + whole =~= whole);
            assert(span(seen) == 0);
        }
        loop
            invariant
                self.wf(),
                file == Ok::<&'b [u8], std::io::Error>(bytes),
                s == old(self)@,
                !s.done,
                s.size == self.segment_size,
                whole == ahead(s, bytes@),
                whole == seen + run(bytes@, self@.offset, self@.expected, s.size, s.max).payloads,
                self@ == (ReaderState {
                    offset: s.offset + span(seen),
                    expected: nth_lsn(s.expected, seen.len() as int),
                    ..s
                }),
                seen.len() <= skipped(s),
            decreases self.segment_size - self.offset,
        {
            let ghost here = *self;
            let ghost rest = run(bytes@, self@.offset, self@.expected, s.size, s.max);
            match read_record_at(bytes, self.offset, self.segment_size, self.max_record_size) {
                ScanOutcome::Record { lsn, payload, framed_len } => {
                    if lsn.0 == self.expected_lsn.0 {
                        self.offset = self.offset + framed_len as u64;
                        self.expected_lsn = lsn.next();
                        proof {
                            let after = run(
                                bytes@,
                                self@.offset,
                                self@.expected,
                                s.size,
                                s.max,
                            ).payloads;
                            assert(whole =~= seen.push(payload@) + after);
                            assert(seen.push(payload@) =~= seen + seq![payload@]);
                            lemma_span_concat(seen, seq![payload@]);
                            lemma_frames_one(0, payload@);
                            lemma_nth_lsn_add(s.expected, seen.len() as int, 1);
                            seen = seen.push(payload@);
                            assert(whole.take(seen.len() as int) =~= seen);
                        }
                        if lsn.0 >= self.from.0 {
                            assert(skipped(s) == seen.len() - 1);
                            return Some(Ok(Replay::Record(lsn, payload)));
                        }
                        continue;
                    }
                },
                _ => {},
            }
            proof {
                assert(seen + rest.payloads =~= seen);
                assert(whole.take(whole.len() as int) =~= whole);
            }
            if self.advance_segment() {
                return Some(Ok(Replay::Segment(self.segment())));
            }
            return None;
        }
    }
}

impl<O: DurabilityObserver> Wal<O> {
    /// A reader that starts at the record `from`, or at the oldest one where `from`
    /// is the reserved LSN. Records that a checkpoint has removed are a gap, never
    /// passed over in silence.
    pub fn reader_from(&self, from: Lsn) -> (r: Result<Reader<'_>, WalError>)
        requires
            self.wf(),
        ensures
            match r {
                Ok(reader) => {
                    &&& from.0 == 0 || self@.segments[0].0 <= from.0
                    &&& reader.wf()
                    &&& reader@ == reader_at(
                        self@,
                        if from.0 == 0 {
                            1
                        } else {
                            from.0
                        },
                    )
                },
                Err(WalError::ContiguityViolation) => 0 < from.0 < self@.segments[0].0,
                Err(_) => false,
            },
    {
        if from.0 != 0 && from.0 < self.oldest().0 {
            return Err(WalError::ContiguityViolation);
        }
        let effective_from: Lsn = if from.0 == 0 {
            Lsn::first()
        } else {
            from
        };
        let config = self.config();
        Ok(
            Reader::new(
                self.segments(),
                effective_from,
                config.segment_size,
                config.max_record_size,
            ),
        )
    }
}

} // verus!
