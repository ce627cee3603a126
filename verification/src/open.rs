//! Opening a log: discovery, recovery of every segment, and the report.
//!
//! [`Wal::open`] starts an [`Opening`]. It asks its caller for one thing at a time
//! with [`Opening::action`] and takes the reply with [`Opening::advance`], until
//! [`Opening::finish`] hands out the log.
//!
//! Discovery goes by file names alone, and never by the order in which the
//! directory lists them. A newest segment whose header was never completed is the
//! trace of a crash while it was made; it holds no record and is discarded. A
//! directory without segments starts a new log at the first LSN. All other
//! segments must have their headers and continue one another without a gap.

use vstd::prelude::*;

use crate::config::WalConfig;
use crate::error::WalError;
use crate::image::law_scan_is_bounded;
use crate::image::lemma_run_extent;
use crate::lsn::next_lsn;
use crate::lsn::Lsn;
use crate::observer::DurabilityObserver;
use crate::observer::NullObserver;
use crate::recovery::larger;
use crate::recovery::nth_lsn;
use crate::recovery::recover_segment;
use crate::recovery::scan_limit;
use crate::recovery::scan_reach;
use crate::recovery::segment_run;
use crate::recovery::verdict;
use crate::recovery::ScanProbe;
use crate::recovery::TailState;
use crate::recovery::Verdict;
use crate::segment::decode_header;
use crate::segment::header_base;
use crate::segment::law_segment_names_are_distinct;
use crate::segment::parse_base_lsn;
use crate::segment::read_record_at;
use crate::segment::segment_name;
use crate::segment::slot_at;
use crate::segment::ScanOutcome;
use crate::segment::HEADER_SIZE;
use crate::wal::resumed;
use crate::wal::Wal;
use crate::wal::WalState;

verus! {

/// The base in a segment's file name.
pub open spec fn named_base(name: Seq<char>) -> Option<u64> {
    if exists|base: u64| name == segment_name(base) {
        Some(choose|base: u64| name == segment_name(base))
    } else {
        None
    }
}

/// The bases in the segment names among `names`.
pub open spec fn named_bases(names: Seq<String>) -> Seq<u64>
    decreases names.len(),
{
    if names.len() == 0 {
        seq![]
    } else {
        match named_base(names.last()@) {
            Some(base) => named_bases(names.drop_last()).push(base),
            None => named_bases(names.drop_last()),
        }
    }
}

/// The order of bases.
pub open spec fn base_order() -> spec_fn(u64, u64) -> bool {
    |a: u64, b: u64| a <= b
}

/// The bases of a directory that holds `names`, in order.
pub open spec fn listed(names: Seq<String>) -> Seq<u64> {
    named_bases(names).sort_by(base_order())
}

/// Inserts a base into bases that are in order.
fn insert_base(bases: &mut Vec<u64>, base: u64)
    requires
        vstd::relations::sorted_by(old(bases)@, base_order()),
    ensures
        vstd::relations::sorted_by(final(bases)@, base_order()),
        final(bases)@.to_multiset() == old(bases)@.to_multiset().insert(base),
{
    let ghost before = bases@;
    let mut i: usize = bases.len();
    while i > 0 && bases[i - 1] > base
        invariant
            i <= bases@.len(),
            bases@ == before,
            forall|j: int| i <= j < before.len() ==> before[j] > base,
        decreases i,
    {
        i = i - 1;
    }
    proof {
        assert forall|j: int| 0 <= j < i implies before[j] <= base by {
            if j < i - 1 {
                assert(base_order()(before[j], before[i - 1]));
            }
        }
    }
    bases.insert(i, base);
    proof {
        let after = bases@;
        assert forall|j: int, k: int| 0 <= j < k < after.len() implies #[trigger] base_order()(
            after[j],
            after[k],
        ) by {
            let p = if j < i {
                j
            } else {
                j - 1
            };
            let q = if k < i {
                k
            } else {
                k - 1
            };
            if j != i && k != i {
                assert(base_order()(before[p], before[q]));
            }
        }
        assert(after.remove(i as int) =~= before);
        broadcast use vstd::seq_lib::group_to_multiset_ensures;

        vstd::seq_lib::to_multiset_remove(after, i as int);
        assert(after.contains(after[i as int]));
        assert(after.to_multiset() =~= before.to_multiset().insert(base));
    }
}

/// The bases of the segments among `names`, in order.
pub fn discover(names: &Vec<String>) -> (bases: Vec<u64>)
    ensures
        bases@ == listed(names@),
{
    let mut bases: Vec<u64> = Vec::new();
    let mut i: usize = 0;
    assert(names@.take(0) =~= seq![]);
    while i < names.len()
        invariant
            i <= names@.len(),
            vstd::relations::sorted_by(bases@, base_order()),
            bases@.to_multiset() == named_bases(names@.take(i as int)).to_multiset(),
        decreases names@.len() - i,
    {
        let ghost head = names@.take(i as int);
        assert(names@.take(i + 1).drop_last() =~= head);
        assert(names@.take(i + 1).last() == names@[i as int]);
        match parse_base_lsn(names[i].as_str()) {
            Some(base) => {
                proof {
                    let name = names@[i as int]@;
                    assert(name == segment_name(base));
                    law_segment_names_are_distinct(base, named_base(name)->0);
                    vstd::seq_lib::to_multiset_build(named_bases(head), base);
                }
                insert_base(&mut bases, base);
            },
            None => {},
        }
        i = i + 1;
    }
    proof {
        assert(names@.take(i as int) =~= names@);
        let found = named_bases(names@);
        found.lemma_sort_by_ensures(base_order());
        vstd::seq_lib::lemma_sorted_unique(bases@, found.sort_by(base_order()), base_order());
    }
    bases
}

/// Taking out a name takes out its base.
proof fn lemma_named_bases_remove(names: Seq<String>, at: int)
    requires
        0 <= at < names.len(),
    ensures
        named_bases(names).to_multiset() == match named_base(names[at]@) {
            Some(base) => named_bases(names.remove(at)).to_multiset().insert(base),
            None => named_bases(names.remove(at)).to_multiset(),
        },
    decreases names.len(),
{
    broadcast use vstd::seq_lib::group_to_multiset_ensures;

    let last = names.len() - 1;
    if at == last {
        assert(names.remove(at) =~= names.drop_last());
        if let Some(base) = named_base(names[at]@) {
            vstd::seq_lib::to_multiset_build(named_bases(names.drop_last()), base);
        }
    } else {
        lemma_named_bases_remove(names.drop_last(), at);
        assert(names.remove(at).drop_last() =~= names.drop_last().remove(at));
        assert(names.remove(at).last() == names.last());
        if let Some(base) = named_base(names.last()@) {
            vstd::seq_lib::to_multiset_build(named_bases(names.drop_last()), base);
            vstd::seq_lib::to_multiset_build(named_bases(names.remove(at).drop_last()), base);
        }
        assert(named_bases(names).to_multiset() =~= match named_base(names[at]@) {
            Some(base) => named_bases(names.remove(at)).to_multiset().insert(base),
            None => named_bases(names.remove(at)).to_multiset(),
        });
    }
}

/// The same names give the same bases.
proof fn lemma_named_bases_permute(a: Seq<String>, b: Seq<String>)
    requires
        a.to_multiset() == b.to_multiset(),
    ensures
        named_bases(a).to_multiset() == named_bases(b).to_multiset(),
    decreases a.len(),
{
    broadcast use vstd::seq_lib::group_to_multiset_ensures;

    a.to_multiset_ensures();
    b.to_multiset_ensures();
    if a.len() > 0 {
        let at = a.len() - 1;
        let name = a[at];
        assert(a.contains(name));
        assert(b.to_multiset().count(name) > 0);
        assert(b.contains(name));
        let j = choose|j: int| 0 <= j < b.len() && b[j] == name;
        vstd::seq_lib::to_multiset_remove(a, at);
        vstd::seq_lib::to_multiset_remove(b, j);
        lemma_named_bases_permute(a.remove(at), b.remove(j));
        lemma_named_bases_remove(a, at);
        lemma_named_bases_remove(b, j);
    } else {
        assert(a =~= b);
    }
}

/// The order in which a directory lists its names does not matter.
pub proof fn law_listing_order_is_irrelevant(a: Seq<String>, b: Seq<String>)
    requires
        a.to_multiset() == b.to_multiset(),
    ensures
        listed(a) == listed(b),
        vstd::relations::sorted_by(listed(a), base_order()),
{
    lemma_named_bases_permute(a, b);
    let (x, y) = (named_bases(a), named_bases(b));
    x.lemma_sort_by_ensures(base_order());
    y.lemma_sort_by_ensures(base_order());
    vstd::seq_lib::lemma_sorted_unique(
        x.sort_by(base_order()),
        y.sort_by(base_order()),
        base_order(),
    );
}

/// What recovery found in a directory.
pub struct Found {
    /// The bases of the segments, in order.
    pub bases: Seq<u64>,
    /// Offset in the last segment at which the next record goes.
    pub write_offset: int,
    /// LSN of the last record.
    pub last: u64,
    /// The tail of the last segment.
    pub tail: TailState,
}

/// Where opening a log stands.
pub enum OpenState {
    /// The directory has to be locked.
    Locking,
    /// The directory has to be listed.
    Listing,
    /// The newest segment has to be read, to see whether it was completed.
    Inspecting { bases: Seq<u64> },
    /// The newest segment has to be removed.
    Discarding { bases: Seq<u64> },
    /// The first segment of a new log has to be made.
    Creating,
    /// Segment `next` has to be read. `prev` is the last LSN of the one before.
    Scanning { bases: Seq<u64>, next: int, prev: Option<u64> },
    /// The torn tail has to be zeroed.
    Zeroing { found: Found },
    /// The log is recovered.
    Ready { found: Found },
}

/// Why a log does not open.
pub enum Fault {
    /// Another writer holds the lock.
    Locked,
    /// An I/O operation failed.
    Io(std::io::Error),
    /// Zeroing a torn tail could not be made durable.
    FsyncFailed,
    /// A segment does not have the header that its name promises.
    BadSegmentHeader,
    /// A segment is empty, or does not continue the one before.
    ContiguityViolation,
    /// A record follows something that is none.
    TornMidLog { segment: u64, at: int },
    /// A sealed segment holds something that is no record.
    Corruption { segment: u64, at: int },
}

/// Outcome of one step of opening a log.
pub enum Stepped {
    /// It goes on.
    Next(OpenState),
    /// It failed.
    Failed(Fault),
}

/// Whether error `e` stands for `fault`.
pub open spec fn tells(e: WalError, fault: Fault) -> bool {
    match fault {
        Fault::Locked => e is Locked,
        Fault::Io(io) => e == WalError::Io(io),
        Fault::FsyncFailed => e is FsyncFailed,
        Fault::BadSegmentHeader => e is BadSegmentHeader,
        Fault::ContiguityViolation => e is ContiguityViolation,
        Fault::TornMidLog { segment, at } => e matches WalError::TornMidLog { segment: s, offset }
            && s.0 == segment && offset == at,
        Fault::Corruption { segment, at } => e matches WalError::Corruption {
            segment: s,
            offset,
            detail,
        } && s.0 == segment && offset == at && detail@ == "invalid record in sealed segment"@,
    }
}

/// What to make of the newest segment.
#[derive(Debug, Clone, Copy, PartialEq, Eq, Structural)]
pub enum Inspection {
    /// It has its header.
    Keep,
    /// It was never completed, and holds no record.
    Discard,
    /// It has lost its header.
    Bad,
}

/// What to make of the newest segment, at `base`, by the bytes of its file. A
/// segment is made empty, grows to its full size at once, and gets its header
/// before any record. So an empty file was never completed, and one shorter than a
/// header has been cut off. In a longer one without its header a record in the
/// first place shows that there once was a header.
pub open spec fn inspection(file: Seq<u8>, base: u64, size: int, max: u32) -> Inspection {
    if file.len() < HEADER_SIZE {
        if file.len() == 0 {
            Inspection::Discard
        } else {
            Inspection::Bad
        }
    } else if header_base(file) == Some(base) {
        Inspection::Keep
    } else if slot_at(file, HEADER_SIZE as int, size, max) is Record {
        Inspection::Bad
    } else {
        Inspection::Discard
    }
}

/// Where to go once the segments that count are known.
pub open spec fn recovering(bases: Seq<u64>) -> OpenState {
    if bases.len() == 0 {
        OpenState::Creating
    } else {
        OpenState::Scanning { bases, next: 0, prev: None }
    }
}

/// What the bytes of segment `next` lead to.
pub open spec fn scanned(
    bases: Seq<u64>,
    next: int,
    prev: Option<u64>,
    file: Seq<u8>,
    size: int,
    max: u32,
) -> Stepped {
    let base = bases[next];
    let active = next == bases.len() - 1;
    if header_base(file) != Some(base) {
        Stepped::Failed(Fault::BadSegmentHeader)
    } else if prev is Some && next_lsn(prev->0) != base {
        Stepped::Failed(Fault::ContiguityViolation)
    } else {
        match verdict(file, base, active, size, max) {
            Verdict::TornMidLog { at } => Stepped::Failed(Fault::TornMidLog { segment: base, at }),
            Verdict::Corruption { at } => Stepped::Failed(Fault::Corruption { segment: base, at }),
            Verdict::Truncated { max_lsn, end } => Stepped::Next(
                OpenState::Zeroing {
                    found: Found {
                        bases,
                        write_offset: end,
                        last: max_lsn,
                        tail: TailState::TruncatedAt { segment_base: Lsn(base), offset: end as u64 },
                    },
                },
            ),
            Verdict::Clean { max_lsn, end } => if active {
                Stepped::Next(
                    OpenState::Ready {
                        found: Found {
                            bases,
                            write_offset: end,
                            last: max_lsn,
                            tail: TailState::Clean,
                        },
                    },
                )
            } else if max_lsn < base {
                Stepped::Failed(Fault::ContiguityViolation)
            } else {
                Stepped::Next(OpenState::Scanning { bases, next: next + 1, prev: Some(max_lsn) })
            },
        }
    }
}

/// The largest distance of a forward scan, from `peak` on, once the bytes of
/// segment `next` are taken into account. Only an active segment that does not end
/// cleanly is scanned ahead.
pub open spec fn scan_peak(
    bases: Seq<u64>,
    next: int,
    prev: Option<u64>,
    file: Seq<u8>,
    peak: int,
    size: int,
    max: u32,
) -> int {
    let base = bases[next];
    let found = segment_run(file, base, size, max);
    if header_base(file) == Some(base) && (prev is None || next_lsn(prev->0) == base) && next
        == bases.len() - 1 && !found.clean {
        larger(
            peak,
            scan_reach(file, found.end, nth_lsn(base, found.payloads.len() as int), size, max),
        )
    } else {
        peak
    }
}

/// The largest distance of a forward scan, from `peak` on, once `reply` is taken
/// into account.
pub open spec fn probed(
    state: OpenState,
    reply: OpenReply,
    peak: int,
    size: int,
    max: u32,
) -> int {
    match (state, reply) {
        (OpenState::Scanning { bases, next, prev }, OpenReply::File(file)) => scan_peak(
            bases,
            next,
            prev,
            file@,
            peak,
            size,
            max,
        ),
        (_, _) => peak,
    }
}

/// Opening a log keeps every forward scan within its bound, whatever the files
/// hold.
pub proof fn law_opening_scan_is_bounded(
    state: OpenState,
    reply: OpenReply,
    peak: int,
    size: int,
    max: u32,
)
    requires
        peak <= scan_limit(max),
    ensures
        probed(state, reply, peak, size, max) <= scan_limit(max),
{
    match (state, reply) {
        (OpenState::Scanning { bases, next, .. }, OpenReply::File(file)) => {
            let found = segment_run(file@, bases[next], size, max);
            let due = nth_lsn(bases[next], found.payloads.len() as int);
            law_scan_is_bounded(file@, found.end, due, size, max);
        },
        (_, _) => {},
    }
}

/// A new log.
pub open spec fn cold() -> Found {
    Found { bases: seq![1u64], write_offset: HEADER_SIZE as int, last: 0, tail: TailState::Clean }
}

/// What opening a log asks of its caller.
#[derive(Debug, Clone, Copy, PartialEq, Eq, Structural)]
pub enum OpenAction {
    /// Create the directory where it is missing, and lock it against other writers.
    Lock,
    /// List the names in the directory.
    List,
    /// Read the file of the segment at this base, up to the size of a segment.
    Read(Lsn),
    /// Remove the segment at this base, and sync the directory.
    Remove(Lsn),
    /// Create the segment at this base with its header, sync it, and sync the
    /// directory.
    Create(Lsn),
    /// Overwrite the segment with zeros from `from` to the size of a segment, and
    /// sync its data.
    Zero {
        /// Base of the segment.
        segment: Lsn,
        /// Where the torn tail starts.
        from: u64,
    },
    /// Nothing more: the log is ready.
    Finish,
}

/// The reply.
#[derive(Debug)]
pub enum OpenReply {
    /// It is done.
    Done,
    /// Another writer holds the lock.
    Busy,
    /// It failed.
    Failed(std::io::Error),
    /// The bytes are written, but could not be synced.
    SyncFailed,
    /// The names in the directory.
    Names(Vec<String>),
    /// The bytes of a file.
    File(Vec<u8>),
}

/// What `reply` leads to in `state`. A reply that answers nothing changes nothing.
pub open spec fn stepped(state: OpenState, reply: OpenReply, size: int, max: u32) -> Stepped {
    match (state, reply) {
        (OpenState::Ready { .. }, _) => Stepped::Next(state),
        (_, OpenReply::Failed(e)) => Stepped::Failed(Fault::Io(e)),
        (OpenState::Locking, OpenReply::Done) => Stepped::Next(OpenState::Listing),
        (OpenState::Locking, OpenReply::Busy) => Stepped::Failed(Fault::Locked),
        (OpenState::Listing, OpenReply::Names(names)) => Stepped::Next(
            if listed(names@).len() == 0 {
                OpenState::Creating
            } else {
                OpenState::Inspecting { bases: listed(names@) }
            },
        ),
        (OpenState::Inspecting { bases }, OpenReply::File(file)) => match inspection(
            file@,
            bases.last(),
            size,
            max,
        ) {
            Inspection::Keep => Stepped::Next(recovering(bases)),
            Inspection::Discard => Stepped::Next(OpenState::Discarding { bases }),
            Inspection::Bad => Stepped::Failed(Fault::BadSegmentHeader),
        },
        (OpenState::Discarding { bases }, OpenReply::Done) => Stepped::Next(
            recovering(bases.drop_last()),
        ),
        (OpenState::Creating, OpenReply::Done) => Stepped::Next(OpenState::Ready { found: cold() }),
        (OpenState::Scanning { bases, next, prev }, OpenReply::File(file)) => scanned(
            bases,
            next,
            prev,
            file@,
            size,
            max,
        ),
        (OpenState::Zeroing { found }, OpenReply::Done) => Stepped::Next(
            OpenState::Ready { found },
        ),
        (OpenState::Zeroing { .. }, OpenReply::SyncFailed) => Stepped::Failed(Fault::FsyncFailed),
        (_, _) => Stepped::Next(state),
    }
}

/// What has to be done in `state`.
pub open spec fn wanted(state: OpenState) -> OpenAction {
    match state {
        OpenState::Locking => OpenAction::Lock,
        OpenState::Listing => OpenAction::List,
        OpenState::Inspecting { bases } => OpenAction::Read(Lsn(bases.last())),
        OpenState::Discarding { bases } => OpenAction::Remove(Lsn(bases.last())),
        OpenState::Creating => OpenAction::Create(Lsn(1)),
        OpenState::Scanning { bases, next, .. } => OpenAction::Read(Lsn(bases[next])),
        OpenState::Zeroing { found } => OpenAction::Zero {
            segment: Lsn(found.bases.last()),
            from: found.write_offset as u64,
        },
        OpenState::Ready { .. } => OpenAction::Finish,
    }
}

/// Whether what was found can be written on.
pub open spec fn writable(found: Found, size: int) -> bool {
    &&& found.bases.len() >= 1
    &&& vstd::relations::sorted_by(found.bases, base_order())
    &&& 1 <= found.bases[0]
    &&& found.bases.last() <= next_lsn(found.last)
    &&& HEADER_SIZE <= found.write_offset <= size
}

impl OpenState {
    /// What always holds while a log is opened.
    pub open spec fn valid(self, size: int) -> bool {
        match self {
            OpenState::Locking => true,
            OpenState::Listing => true,
            OpenState::Creating => true,
            OpenState::Inspecting { bases } => bases.len() >= 1 && vstd::relations::sorted_by(
                bases,
                base_order(),
            ),
            OpenState::Discarding { bases } => bases.len() >= 1 && vstd::relations::sorted_by(
                bases,
                base_order(),
            ),
            OpenState::Scanning { bases, next, prev } => {
                &&& 0 <= next < bases.len()
                &&& vstd::relations::sorted_by(bases, base_order())
                &&& next > 0 ==> 1 <= bases[0]
            },
            OpenState::Zeroing { found } => writable(found, size),
            OpenState::Ready { found } => writable(found, size),
        }
    }
}

/// The recovered state of the log.
struct Recovered {
    bases: Vec<u64>,
    write_offset: u64,
    last_lsn: Lsn,
    tail_state: TailState,
}

impl View for Recovered {
    type V = Found;

    closed spec fn view(&self) -> Found {
        Found {
            bases: self.bases@,
            write_offset: self.write_offset as int,
            last: self.last_lsn.0,
            tail: self.tail_state,
        }
    }
}

/// Progress of opening a log.
enum Phase {
    Locking,
    Listing,
    Inspecting { bases: Vec<u64> },
    Discarding { bases: Vec<u64> },
    Creating,
    Scanning { bases: Vec<u64>, next: usize, prev_max: Option<Lsn> },
    Zeroing { recovered: Recovered },
    Ready { recovered: Recovered },
}

impl View for Phase {
    type V = OpenState;

    closed spec fn view(&self) -> OpenState {
        match *self {
            Phase::Locking => OpenState::Locking,
            Phase::Listing => OpenState::Listing,
            Phase::Inspecting { bases } => OpenState::Inspecting { bases: bases@ },
            Phase::Discarding { bases } => OpenState::Discarding { bases: bases@ },
            Phase::Creating => OpenState::Creating,
            Phase::Scanning { bases, next, prev_max } => OpenState::Scanning {
                bases: bases@,
                next: next as int,
                prev: match prev_max {
                    Some(lsn) => Some(lsn.0),
                    None => None,
                },
            },
            Phase::Zeroing { recovered } => OpenState::Zeroing { found: recovered@ },
            Phase::Ready { recovered } => OpenState::Ready { found: recovered@ },
        }
    }
}

/// Whether `r` is the outcome `s`.
closed spec fn outcome(r: Result<Phase, WalError>, s: Stepped) -> bool {
    match s {
        Stepped::Next(state) => r matches Ok(phase) && phase@ == state,
        Stepped::Failed(fault) => r matches Err(e) && tells(e, fault),
    }
}

/// Decides what to make of the newest segment.
pub fn discard_incomplete_highest(file: &[u8], base: Lsn, config: WalConfig) -> (i: Inspection)
    ensures
        i == inspection(file@, base.0, config.segment_size as int, config.max_record_size),
{
    if (file.len() as u64) < HEADER_SIZE {
        return if file.len() == 0 {
            Inspection::Discard
        } else {
            Inspection::Bad
        };
    }
    if let Ok(header) = decode_header(file) {
        if header.base_lsn.0 == base.0 {
            return Inspection::Keep;
        }
    }
    match read_record_at(file, HEADER_SIZE, config.segment_size, config.max_record_size) {
        ScanOutcome::Record { .. } => Inspection::Bad,
        _ => Inspection::Discard,
    }
}

/// A new log, whose first segment is there and empty.
fn cold_start() -> (r: Recovered)
    ensures
        r@ == cold(),
{
    let bases: Vec<u64> = vec![1];
    assert(bases@ =~= seq![1u64]);
    Recovered {
        bases,
        write_offset: HEADER_SIZE,
        last_lsn: Lsn::none(),
        tail_state: TailState::Clean,
    }
}

/// Goes on to recover the segments at `bases`, or to make the first one.
fn recover_all(bases: Vec<u64>) -> (phase: Phase)
    ensures
        phase@ == recovering(bases@),
{
    if bases.len() == 0 {
        Phase::Creating
    } else {
        Phase::Scanning { bases, next: 0, prev_max: None }
    }
}

/// Recovers segment `next` from the bytes of its file.
fn recover_next(
    bases: Vec<u64>,
    next: usize,
    prev_max: Option<Lsn>,
    file: &[u8],
    config: WalConfig,
    probe: &mut ScanProbe,
) -> (r: Result<Phase, WalError>)
    requires
        next < bases@.len(),
    ensures
        outcome(
            r,
            scanned(
                bases@,
                next as int,
                match prev_max {
                    Some(lsn) => Some(lsn.0),
                    None => None,
                },
                file@,
                config.segment_size as int,
                config.max_record_size,
            ),
        ),
        final(probe).peak == scan_peak(
            bases@,
            next as int,
            match prev_max {
                Some(lsn) => Some(lsn.0),
                None => None,
            },
            file@,
            old(probe).peak as int,
            config.segment_size as int,
            config.max_record_size,
        ),
{
    let base = Lsn(bases[next]);
    let is_active = next == bases.len() - 1;
    match decode_header(file) {
        Ok(header) => if header.base_lsn.0 != base.0 {
            return Err(WalError::BadSegmentHeader);
        },
        Err(_) => {
            return Err(WalError::BadSegmentHeader);
        },
    }
    if let Some(prev) = prev_max {
        if prev.next().0 != base.0 {
            return Err(WalError::ContiguityViolation);
        }
    }
    let seg = match recover_segment(
        file,
        base,
        is_active,
        config.segment_size,
        config.max_record_size,
        probe,
    ) {
        Ok(seg) => seg,
        Err(e) => {
            return Err(e);
        },
    };
    if is_active {
        let recovered = Recovered {
            bases,
            write_offset: seg.write_offset,
            last_lsn: seg.max_lsn,
            tail_state: seg.tail_state,
        };
        return match seg.tail_state {
            TailState::Clean => Ok(Phase::Ready { recovered }),
            TailState::TruncatedAt { .. } => Ok(Phase::Zeroing { recovered }),
        };
    }
    // A roll happens only to write a record that did not fit, so a sealed segment
    // is never empty.
    if seg.max_lsn.0 < base.0 {
        return Err(WalError::ContiguityViolation);
    }
    Ok(Phase::Scanning { bases, next: next + 1, prev_max: Some(seg.max_lsn) })
}

/// What recovery found, reported with the opened log.
#[derive(Debug, Clone, Copy)]
pub struct RecoveryReport {
    /// Base of the oldest segment.
    pub oldest_lsn: Lsn,
    /// LSN of the last durable record, or the one before the active segment's base
    /// where that segment is empty.
    pub durable_lsn: Lsn,
    /// The tail of the active segment.
    pub tail_state: TailState,
    /// Number of segments.
    pub segments_scanned: usize,
}

/// A log that is being opened.
pub struct Opening<O: DurabilityObserver = NullObserver> {
    config: WalConfig,
    observer: O,
    phase: Phase,
}

impl<O: DurabilityObserver> View for Opening<O> {
    type V = OpenState;

    closed spec fn view(&self) -> OpenState {
        self.phase@
    }
}

/// The bases as LSNs.
pub open spec fn as_lsns(bases: Seq<u64>) -> Seq<Lsn> {
    bases.map_values(|base: u64| Lsn(base))
}

/// The state of a log opened with what recovery found.
pub open spec fn started(found: Found, config: WalConfig) -> WalState {
    resumed(as_lsns(found.bases), found.write_offset, found.last, config)
}

/// A step keeps what always holds.
pub proof fn lemma_stepped_valid(state: OpenState, reply: OpenReply, size: int, max: u32)
    requires
        state.valid(size),
        max + 91 <= size,
    ensures
        stepped(state, reply, size, max) matches Stepped::Next(next) ==> next.valid(size),
{
    match (state, reply) {
        (OpenState::Listing, OpenReply::Names(names)) => {
            named_bases(names@).lemma_sort_by_ensures(base_order());
        },
        (OpenState::Discarding { bases }, OpenReply::Done) => {
            let rest = bases.drop_last();
            assert forall|i: int, j: int| 0 <= i < j < rest.len() implies #[trigger] base_order()(
                rest[i],
                rest[j],
            ) by {
                assert(base_order()(bases[i], bases[j]));
            }
        },
        (OpenState::Scanning { bases, next, .. }, OpenReply::File(file)) => {
            lemma_run_extent(file@, HEADER_SIZE as int, bases[next], size, max);
        },
        _ => {},
    }
}

impl<O: DurabilityObserver> Opening<O> {
    /// Holds of every log that is being opened.
    pub closed spec fn wf(&self) -> bool {
        &&& self.config.valid()
        &&& self@.valid(self.config.segment_size as int)
    }

    /// Every log that is being opened is in a valid state.
    pub proof fn law_opening_is_valid(&self)
        requires
            self.wf(),
        ensures
            self.config().valid(),
            self@.valid(self.config().segment_size as int),
    {
    }

    /// The configuration.
    pub closed spec fn config(&self) -> WalConfig {
        self.config
    }

    /// The observer that the log will have.
    pub closed spec fn observer(&self) -> O {
        self.observer
    }

    /// What has to be done next.
    pub fn action(&self) -> (action: OpenAction)
        requires
            self.wf(),
        ensures
            action == wanted(self@),
    {
        match &self.phase {
            Phase::Locking => OpenAction::Lock,
            Phase::Listing => OpenAction::List,
            Phase::Inspecting { bases } => OpenAction::Read(Lsn(bases[bases.len() - 1])),
            Phase::Discarding { bases } => OpenAction::Remove(Lsn(bases[bases.len() - 1])),
            Phase::Creating => OpenAction::Create(Lsn::first()),
            Phase::Scanning { bases, next, .. } => OpenAction::Read(Lsn(bases[*next])),
            Phase::Zeroing { recovered } => OpenAction::Zero {
                segment: Lsn(recovered.bases[recovered.bases.len() - 1]),
                from: recovered.write_offset,
            },
            Phase::Ready { .. } => OpenAction::Finish,
        }
    }

    /// Takes the reply to the last action and goes on. A reply that answers nothing
    /// changes nothing.
    pub fn advance(self, reply: OpenReply) -> (r: Result<Opening<O>, WalError>)
        requires
            self.wf(),
        ensures
            match stepped(
                self@,
                reply,
                self.config().segment_size as int,
                self.config().max_record_size,
            ) {
                Stepped::Next(state) => {
                    &&& r matches Ok(next)
                    &&& next.wf()
                    &&& next@ == state
                    &&& next.config() == self.config()
                    &&& next.observer() == self.observer()
                },
                Stepped::Failed(fault) => r matches Err(e) && tells(e, fault),
            },
    {
        let mut probe = ScanProbe::new();
        self.advance_probed(reply, &mut probe)
    }

    /// `advance`, with the forward scan measured.
    pub fn advance_probed(self, reply: OpenReply, probe: &mut ScanProbe) -> (r: Result<
        Opening<O>,
        WalError,
    >)
        requires
            self.wf(),
        ensures
            match stepped(
                self@,
                reply,
                self.config().segment_size as int,
                self.config().max_record_size,
            ) {
                Stepped::Next(state) => {
                    &&& r matches Ok(next)
                    &&& next.wf()
                    &&& next@ == state
                    &&& next.config() == self.config()
                    &&& next.observer() == self.observer()
                },
                Stepped::Failed(fault) => r matches Err(e) && tells(e, fault),
            },
            final(probe).peak == probed(
                self@,
                reply,
                old(probe).peak as int,
                self.config().segment_size as int,
                self.config().max_record_size,
            ),
    {
        proof {
            lemma_stepped_valid(
                self@,
                reply,
                self.config.segment_size as int,
                self.config.max_record_size,
            );
        }
        let config = self.config;
        let observer = self.observer;
        let phase = match (self.phase, reply) {
            (Phase::Ready { recovered }, _) => Phase::Ready { recovered },
            (_, OpenReply::Failed(e)) => {
                return Err(WalError::Io(e));
            },
            (Phase::Locking, OpenReply::Done) => Phase::Listing,
            (Phase::Locking, OpenReply::Busy) => {
                return Err(WalError::Locked);
            },
            (Phase::Listing, OpenReply::Names(names)) => {
                let bases: Vec<u64> = discover(&names);
                if bases.len() == 0 {
                    Phase::Creating
                } else {
                    Phase::Inspecting { bases }
                }
            },
            (Phase::Inspecting { bases }, OpenReply::File(file)) => {
                let base = Lsn(bases[bases.len() - 1]);
                match discard_incomplete_highest(file.as_slice(), base, config) {
                    Inspection::Keep => recover_all(bases),
                    Inspection::Discard => Phase::Discarding { bases },
                    Inspection::Bad => {
                        return Err(WalError::BadSegmentHeader);
                    },
                }
            },
            (Phase::Discarding { bases }, OpenReply::Done) => {
                let mut bases = bases;
                let ghost before = bases@;
                bases.pop();
                assert(bases@ =~= before.drop_last());
                recover_all(bases)
            },
            (Phase::Creating, OpenReply::Done) => Phase::Ready { recovered: cold_start() },
            (Phase::Scanning { bases, next, prev_max }, OpenReply::File(file)) => {
                match recover_next(bases, next, prev_max, file.as_slice(), config, probe) {
                    Ok(phase) => phase,
                    Err(e) => {
                        return Err(e);
                    },
                }
            },
            (Phase::Zeroing { recovered }, OpenReply::Done) => Phase::Ready { recovered },
            (Phase::Zeroing { .. }, OpenReply::SyncFailed) => {
                return Err(WalError::FsyncFailed);
            },
            (phase, _) => phase,
        };
        Ok(Opening { config, observer, phase })
    }

    /// Hands out the log, once it is ready.
    pub fn finish(self) -> (r: Option<(Wal<O>, RecoveryReport)>)
        requires
            self.wf(),
        ensures
            match self@ {
                OpenState::Ready { found } => {
                    &&& r matches Some((wal, report))
                    &&& wal.wf()
                    &&& wal@ == started(found, self.config())
                    &&& wal.observer() == self.observer()
                    &&& report.oldest_lsn.0 == found.bases[0]
                    &&& report.durable_lsn.0 == found.last
                    &&& report.tail_state == found.tail
                    &&& report.segments_scanned == found.bases.len()
                },
                _ => r is None,
            },
    {
        let recovered = match self.phase {
            Phase::Ready { recovered } => recovered,
            _ => {
                return None;
            },
        };
        let bases: Vec<u64> = recovered.bases;
        let mut segments: Vec<Lsn> = Vec::new();
        let mut i: usize = 0;
        while i < bases.len()
            invariant
                i <= bases@.len(),
                segments@ == as_lsns(bases@.take(i as int)),
            decreases bases@.len() - i,
        {
            segments.push(Lsn(bases[i]));
            i = i + 1;
            assert(segments@ =~= as_lsns(bases@.take(i as int)));
        }
        proof {
            assert(bases@.take(i as int) =~= bases@);
            assert forall|j: int, k: int| 0 <= j <= k < segments@.len() implies segments@[j].0
                <= segments@[k].0 by {
                if j < k {
                    assert(base_order()(bases@[j], bases@[k]));
                }
            }
            assert forall|j: int| 0 <= j < segments@.len() implies 1 <= (#[trigger] segments@[j]).0 by {
                assert(segments@[0].0 <= segments@[j].0);
            }
        }
        let report = RecoveryReport {
            oldest_lsn: Lsn(bases[0]),
            durable_lsn: recovered.last_lsn,
            tail_state: recovered.tail_state,
            segments_scanned: bases.len(),
        };
        let wal = Wal::resume(
            segments,
            recovered.write_offset,
            recovered.last_lsn,
            self.config,
            self.observer,
        );
        Some((wal, report))
    }
}

impl Wal<NullObserver> {
    /// Starts to open or create a log that nobody observes.
    pub fn open(config: WalConfig) -> (r: Result<Opening<NullObserver>, WalError>)
        ensures
            match r {
                Ok(opening) => config.valid() && opening.wf() && opening@ == OpenState::Locking
                    && opening.config() == config && opening.observer() == NullObserver,
                Err(WalError::InvalidConfig) => !config.valid(),
                Err(_) => false,
            },
    {
        Wal::open_with(config, NullObserver)
    }
}

impl<O: DurabilityObserver> Wal<O> {
    /// Starts to open or create a log whose commits are reported to `observer`.
    pub fn open_with(config: WalConfig, observer: O) -> (r: Result<Opening<O>, WalError>)
        ensures
            match r {
                Ok(opening) => config.valid() && opening.wf() && opening@ == OpenState::Locking
                    && opening.config() == config && opening.observer() == observer,
                Err(WalError::InvalidConfig) => !config.valid(),
                Err(_) => false,
            },
    {
        if !config.is_valid() {
            return Err(WalError::InvalidConfig);
        }
        Ok(Opening { config, observer, phase: Phase::Locking })
    }
}

} // verus!
