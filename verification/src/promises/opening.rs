//! Opening a directory: what becomes of it once its caller has done what the opening
//! asked for, and what the log is that comes out.

use vstd::prelude::*;

use crate::config::WalConfig;
use crate::disk::flat;
use crate::disk::fresh;
use crate::disk::law_cold_start_is_stored;
use crate::disk::represents;
use crate::error::WalError;
use crate::history::law_opened_log_is_dense;
use crate::history::replay;
use crate::image::zeroed;
use crate::lsn::Lsn;
use crate::observer::DurabilityObserver;
use crate::observer::NullObserver;
use crate::open::as_lsns;
use crate::open::base_order;
use crate::open::cold;
use crate::open::discard_incomplete_highest;
use crate::open::discover;
use crate::open::inspection;
use crate::open::listed;
use crate::open::named_base;
use crate::open::named_bases;
use crate::open::scanned;
use crate::open::stepped;
use crate::open::Found;
use crate::open::Inspection;
use crate::open::OpenAction;
use crate::open::Opening;
use crate::open::OpenReply;
use crate::open::OpenState;
use crate::open::RecoveryReport;
use crate::open::Stepped;
use crate::promises::reading::are_records_from;
use crate::promises::recovery::lemma_slot_by_bytes;
use crate::promises::recovery::record_at;
use crate::promises::segments::heads;
use crate::promises::segments::lemma_header_by_bytes;
use crate::promises::writing::zero_bytes;
use crate::reader::reader_at;
use crate::recovery::recover_segment;
use crate::recovery::ScanProbe;
use crate::recovery::SegmentRecovery;
use crate::reopen::bases_of;
use crate::reopen::law_opened_log_is_whole;
use crate::reopen::law_reopening_brings_back;
use crate::reopen::numbered;
use crate::reopen::open_outcome;
use crate::reopen::parts_of;
use crate::reopen::resumable;
use crate::reopen::scan_outcome;
use crate::reopen::settled;
use crate::segment::encode_header;
use crate::segment::law_segment_names_are_distinct;
use crate::segment::segment_name;
use crate::segment::slot_at;
use crate::segment::Slot;
use crate::wal::Wal;
use crate::wal::WalState;

verus! {

/// Whether `names` lists the directory: every segment's name once, and besides only names
/// of other things.
pub open spec fn lists(names: Seq<String>, disk: Map<u64, Seq<u8>>) -> bool {
    &&& forall|b: u64|
        disk.contains_key(b) <==> exists|i: int|
            0 <= i < names.len() && (#[trigger] names[i])@ == #[trigger] segment_name(b)
    &&& forall|i: int, j: int| 0 <= i < j < names.len() ==> names[i]@ != names[j]@
}

/// Whether `bases` are the bases of the segments in the directory, from the lowest to the
/// highest.
pub open spec fn in_order(bases: Seq<u64>, disk: Map<u64, Seq<u8>>) -> bool {
    &&& forall|i: int, j: int| 0 <= i < j < bases.len() ==> bases[i] < bases[j]
    &&& forall|b: u64| #[trigger] disk.contains_key(b) <==> bases.contains(b)
}

/// Whether the caller has done `action` on the directory `disk`, which is `after` then,
/// and answered with `reply`.
pub open spec fn done(
    action: OpenAction,
    reply: OpenReply,
    disk: Map<u64, Seq<u8>>,
    after: Map<u64, Seq<u8>>,
    size: int,
) -> bool {
    match action {
        OpenAction::Lock => reply is Done && after == disk,
        OpenAction::List => reply matches OpenReply::Names(names) && lists(names@, disk) && after
            == disk,
        OpenAction::Read(base) => reply matches OpenReply::File(file) && file@ == disk[base.0]
            && after == disk,
        OpenAction::Remove(base) => reply is Done && after == disk.remove(base.0),
        OpenAction::Create(base) => reply is Done && exists|created: u64, h: Vec<u8>|
            #[trigger] call_ensures(encode_header, (base, created), h) && after == disk.insert(
                base.0,
                h@ + zero_bytes(size - 64),
            ),
        OpenAction::Zero { segment, from } => reply is Done && after == disk.insert(
            segment.0,
            zeroed(disk[segment.0], from as int, size),
        ),
        OpenAction::Finish => false,
    }
}

/// Whether the file of the newest segment shows that it was never completed: it is empty,
/// or it has no header and no record in the first place.
pub open spec fn incomplete(file: Seq<u8>, base: u64, size: int, max: u32) -> bool {
    ||| file.len() == 0
    ||| file.len() >= 64 && !heads(file, base) && forall|lsn: u64, payload: Seq<u8>|
        !record_at(file, 64, size, max, lsn, payload)
}

/// Whether `now` is the directory `disk`, but for its newest segment where that was never
/// completed.
pub open spec fn kept(
    disk: Map<u64, Seq<u8>>,
    now: Map<u64, Seq<u8>>,
    size: int,
    max: u32,
) -> bool {
    ||| now == disk
    ||| exists|bases: Seq<u64>| #[trigger]
        in_order(bases, disk) && bases.len() > 0 && incomplete(
            disk[bases.last()],
            bases.last(),
            size,
            max,
        ) && now == disk.remove(bases.last())
}

/// Whether the directory `now` is what an opening that stands at `state` has made of
/// `disk`.
pub open spec fn pursued(
    disk: Map<u64, Seq<u8>>,
    now: Map<u64, Seq<u8>>,
    state: OpenState,
    size: int,
    max: u32,
) -> bool {
    match state {
        OpenState::Locking => now == disk,
        OpenState::Listing => now == disk,
        OpenState::Inspecting { bases } => now == disk && in_order(bases, disk) && bases.len() > 0,
        OpenState::Discarding { bases } => now == disk && in_order(bases, disk) && bases.len() > 0
            && incomplete(disk[bases.last()], bases.last(), size, max),
        OpenState::Creating => kept(disk, now, size, max) && in_order(seq![], now),
        OpenState::Scanning { bases, next, prev } => kept(disk, now, size, max) && in_order(
            bases,
            now,
        ) && scan_outcome(now, bases, next, prev, size, max) == scan_outcome(
            now,
            bases,
            0,
            None,
            size,
            max,
        ),
        OpenState::Zeroing { found } => kept(disk, now, size, max) && in_order(found.bases, now)
            && found.bases.len() > 0 && !(found.tail is Clean) && scan_outcome(
            now,
            found.bases,
            0,
            None,
            size,
            max,
        ) == Stepped::Next(OpenState::Ready { found }),
        OpenState::Ready { found } => new_log(disk, now, found, size, max) || recovered(
            disk,
            now,
            found,
            size,
            max,
        ),
    }
}

/// Whether a new log has been started: nothing was there, and now there is a first segment,
/// empty.
pub open spec fn new_log(
    disk: Map<u64, Seq<u8>>,
    now: Map<u64, Seq<u8>>,
    found: Found,
    size: int,
    max: u32,
) -> bool {
    exists|before: Map<u64, Seq<u8>>, created: u64, h: Vec<u8>|
        #![trigger call_ensures(encode_header, (Lsn(1), created), h), kept(disk, before, size, max)]
        {
            &&& kept(disk, before, size, max)
            &&& in_order(seq![], before)
            &&& call_ensures(encode_header, (Lsn(1), created), h)
            &&& now == before.insert(1u64, h@ + zero_bytes(size - 64))
            &&& found.bases == seq![1u64]
            &&& found.write_offset == 64
            &&& found.last == 0
            &&& found.tail is Clean
        }
}

/// Whether a log has been recovered: a scan of all its segments has found it, and its torn
/// tail, if it has one, is zeroed.
pub open spec fn recovered(
    disk: Map<u64, Seq<u8>>,
    now: Map<u64, Seq<u8>>,
    found: Found,
    size: int,
    max: u32,
) -> bool {
    exists|before: Map<u64, Seq<u8>>| #[trigger]
        kept(disk, before, size, max) && in_order(found.bases, before) && found.bases.len() > 0
            && scan_outcome(before, found.bases, 0, None, size, max) == Stepped::Next(
            OpenState::Ready { found },
        ) && now == settled(before, found, size)
}

/// An opening starts with the directory as it is, for every configuration whose longest
/// record fits into a segment, and for no other.
pub proof fn law_opening_starts<O: DurabilityObserver>(
    config: WalConfig,
    observer: O,
    r: Result<Opening<O>, WalError>,
    disk: Map<u64, Seq<u8>>,
)
    requires
        call_ensures(Wal::<O>::open_with, (config, observer), r),
    ensures
        r is Ok <==> config.max_record_size + 91 <= config.segment_size,
        r matches Err(e) ==> e is InvalidConfig,
        r matches Ok(o) ==> o.wf() && o.config() == config && o.observer() == observer && pursued(
            disk,
            disk,
            o@,
            config.segment_size as int,
            config.max_record_size,
        ),
{
}

/// What to make of the newest segment goes by its bytes: it is discarded only where it was
/// never completed, and refused only where it has lost its header.
pub proof fn law_newest_segment_goes_by_its_bytes(
    file: &[u8],
    base: Lsn,
    config: WalConfig,
    i: Inspection,
)
    requires
        call_ensures(discard_incomplete_highest, (file, base, config), i),
    ensures
        i is Keep <==> heads(file@, base.0),
        i is Discard <==> incomplete(
            file@,
            base.0,
            config.segment_size as int,
            config.max_record_size,
        ),
{
    lemma_inspection_by_bytes(
        file@,
        base.0,
        config.segment_size as int,
        config.max_record_size,
    );
}

/// The inspection of the newest segment, by its bytes.
proof fn lemma_inspection_by_bytes(file: Seq<u8>, base: u64, size: int, max: u32)
    ensures
        inspection(file, base, size, max) is Keep <==> heads(file, base),
        inspection(file, base, size, max) is Discard <==> incomplete(file, base, size, max),
{
    lemma_header_by_bytes(file, base);
    lemma_slot_by_bytes(file, 64, size, max);
    match slot_at(file, 64, size, max) {
        Slot::Record { lsn, payload } => {
            assert(record_at(file, 64, size, max, lsn, payload));
        },
        _ => {
            assert forall|lsn: u64, payload: Seq<u8>| !record_at(
                file,
                64,
                size,
                max,
                lsn,
                payload,
            ) by {
                if record_at(file, 64, size, max, lsn, payload) {
                    assert(slot_at(file, 64, size, max) == (Slot::Record { lsn, payload }));
                }
            }
        },
    }
}

/// The bases that names hold.
proof fn lemma_named_bases_are(names: Seq<String>, b: u64)
    ensures
        named_bases(names).contains(b) <==> exists|i: int|
            0 <= i < names.len() && (#[trigger] names[i])@ == segment_name(b),
    decreases names.len(),
{
    if names.len() > 0 {
        let before = names.drop_last();
        let name = names.last()@;
        lemma_named_bases_are(before, b);
        if named_base(name) is Some {
            lemma_segment_names_are_distinct(name, b);
        }
        if name == segment_name(b) {
            assert(named_base(name) == Some(b)) by {
                lemma_segment_names_are_distinct(name, b);
            }
            let all = named_bases(names);
            assert(all[all.len() - 1] == b);
        }
        if named_bases(before).contains(b) {
            let i = choose|i: int| 0 <= i < before.len() && (#[trigger] before[i])@ == segment_name(
                b,
            );
            assert(names[i]@ == segment_name(b));
            let k = choose|k: int| 0 <= k < named_bases(before).len() && named_bases(before)[k] == b;
            assert(named_bases(names)[k] == b);
        }
        if exists|i: int| 0 <= i < names.len() && (#[trigger] names[i])@ == segment_name(b) {
            let i = choose|i: int| 0 <= i < names.len() && (#[trigger] names[i])@ == segment_name(b);
            if i < before.len() {
                assert(before[i]@ == segment_name(b));
            }
        }
        if named_bases(names).contains(b) && !named_bases(before).contains(b) {
            let k = choose|k: int| 0 <= k < named_bases(names).len() && named_bases(names)[k] == b;
            if k < named_bases(before).len() {
                assert(named_bases(before)[k] == b);
            }
            assert(names[names.len() - 1]@ == segment_name(b));
        }
    }
}

/// A name names one segment.
proof fn lemma_segment_names_are_distinct(name: Seq<char>, b: u64)
    requires
        named_base(name) is Some || name == segment_name(b),
    ensures
        named_base(name) is Some,
        name == segment_name(named_base(name)->0),
        name == segment_name(b) ==> named_base(name) == Some(b),
{
    if name == segment_name(b) {
        let c = choose|c: u64| name == segment_name(c);
        law_segment_names_are_distinct(b, c);
    }
}

/// Different names hold different bases.
proof fn lemma_named_bases_differ(names: Seq<String>)
    requires
        forall|i: int, j: int| 0 <= i < j < names.len() ==> names[i]@ != names[j]@,
    ensures
        named_bases(names).no_duplicates(),
    decreases names.len(),
{
    if names.len() > 0 {
        let before = names.drop_last();
        let name = names.last()@;
        assert forall|i: int, j: int| 0 <= i < j < before.len() implies before[i]@ != before[j]@ by {
            assert(names[i]@ != names[j]@);
        }
        lemma_named_bases_differ(before);
        if let Some(b) = named_base(name) {
            lemma_segment_names_are_distinct(name, b);
            lemma_named_bases_are(before, b);
            if named_bases(before).contains(b) {
                let i = choose|i: int| 0 <= i < before.len() && (#[trigger] before[i])@
                    == segment_name(b);
                assert(names[i]@ != names[names.len() - 1]@);
            }
        }
    }
}

/// Listed bases are those of the directory, in order.
proof fn lemma_listed_in_order(names: Seq<String>, disk: Map<u64, Seq<u8>>)
    requires
        lists(names, disk),
    ensures
        in_order(listed(names), disk),
{
    broadcast use vstd::seq_lib::group_to_multiset_ensures;

    let raw = named_bases(names);
    let bases = listed(names);
    raw.lemma_sort_by_ensures(base_order());
    lemma_named_bases_differ(names);
    raw.lemma_multiset_has_no_duplicates();
    bases.lemma_multiset_has_no_duplicates_conv();
    assert forall|i: int, j: int| 0 <= i < j < bases.len() implies bases[i] < bases[j] by {
        assert(base_order()(bases[i], bases[j]));
        assert(bases[i] != bases[j]);
    }
    assert forall|b: u64| #[trigger] disk.contains_key(b) <==> bases.contains(b) by {
        lemma_named_bases_are(names, b);
        assert(raw.contains(b) <==> raw.to_multiset().count(b) > 0);
        assert(bases.contains(b) <==> bases.to_multiset().count(b) > 0);
        assert(disk.contains_key(b) <==> exists|i: int|
            0 <= i < names.len() && (#[trigger] names[i])@ == segment_name(b));
    }
}

/// Discovery finds every segment of the directory, each once, from the lowest to the
/// highest, and takes nothing else for one.
pub proof fn law_discovery_finds_the_segments(
    names: &Vec<String>,
    bases: Vec<u64>,
    disk: Map<u64, Seq<u8>>,
)
    requires
        lists(names@, disk),
        call_ensures(discover, (names,), bases),
    ensures
        in_order(bases@, disk),
{
    lemma_listed_in_order(names@, disk);
}

/// Without the highest base.
proof fn lemma_in_order_without_last(bases: Seq<u64>, disk: Map<u64, Seq<u8>>)
    requires
        in_order(bases, disk),
        bases.len() > 0,
    ensures
        in_order(bases.drop_last(), disk.remove(bases.last())),
{
    let rest = bases.drop_last();
    let last = bases.last();
    let after = disk.remove(last);
    assert forall|b: u64| #[trigger] after.contains_key(b) <==> rest.contains(b) by {
        assert(disk.contains_key(b) <==> bases.contains(b));
        if rest.contains(b) {
            let i = choose|i: int| 0 <= i < rest.len() && rest[i] == b;
            assert(bases[i] == b && bases[i] < bases[bases.len() - 1]);
        }
        if after.contains_key(b) {
            let i = choose|i: int| 0 <= i < bases.len() && bases[i] == b;
            assert(rest[i] == b);
        }
    }
}

/// Each step keeps to the directory: where the caller has done exactly what the opening
/// asked for and answered, the opening goes on with the directory as it is then, comes
/// nearer to its end, and in the end has recovered exactly the log that was there. It
/// removes nothing but a newest segment that was never completed, and zeroes nothing but a
/// torn tail.
pub proof fn law_opening_keeps_to_the_directory<O: DurabilityObserver>(
    o: Opening<O>,
    asked: &Opening<O>,
    action: OpenAction,
    reply: OpenReply,
    r: Result<Opening<O>, WalError>,
    disk: Map<u64, Seq<u8>>,
    now: Map<u64, Seq<u8>>,
    after: Map<u64, Seq<u8>>,
)
    requires
        o.wf(),
        *asked == o,
        call_ensures(Opening::<O>::action, (asked,), action),
        pursued(
            disk,
            now,
            o@,
            o.config().segment_size as int,
            o.config().max_record_size,
        ),
        done(action, reply, now, after, o.config().segment_size as int),
        call_ensures(Opening::<O>::advance, (o, reply), r),
    ensures
        r matches Ok(next) ==> {
            &&& next.wf()
            &&& next.config() == o.config()
            &&& next.observer() == o.observer()
            &&& pursued(
                disk,
                after,
                next@,
                o.config().segment_size as int,
                o.config().max_record_size,
            )
            &&& 0 <= steps_left(next@) < steps_left(o@) || o@ is Listing || o@ is Locking
        },
        r matches Err(e) ==> match o@ {
            OpenState::Inspecting { bases } => e is BadSegmentHeader && !heads(
                now[bases.last()],
                bases.last(),
            ) && !incomplete(
                now[bases.last()],
                bases.last(),
                o.config().segment_size as int,
                o.config().max_record_size,
            ),
            OpenState::Scanning { .. } => true,
            _ => false,
        },
        o@ matches OpenState::Scanning { bases, next, .. } ==> (!heads(
            now[bases[next]],
            bases[next],
        ) ==> r matches Err(WalError::BadSegmentHeader)),
        o@ matches OpenState::Inspecting { bases } ==> {
            let newest = now[bases.last()];
            &&& heads(newest, bases.last()) ==> (r matches Ok(next) && next@ == (
            OpenState::Scanning { bases, next: 0, prev: None }))
            &&& incomplete(
                newest,
                bases.last(),
                o.config().segment_size as int,
                o.config().max_record_size,
            ) ==> (r matches Ok(next) && next@ == (OpenState::Discarding { bases }))
            &&& !heads(newest, bases.last()) && !incomplete(
                newest,
                bases.last(),
                o.config().segment_size as int,
                o.config().max_record_size,
            ) ==> (r matches Err(WalError::BadSegmentHeader))
        },
        o@ is Locking ==> (r matches Ok(next) && next@ is Listing),
        o@ is Zeroing || o@ is Creating ==> (r matches Ok(next) && next@ is Ready),
{
    let size = o.config().segment_size as int;
    let max = o.config().max_record_size;
    o.law_opening_is_valid();
    match o@ {
        OpenState::Locking => {},
        OpenState::Listing => {
            let names = reply->Names_0;
            lemma_listed_in_order(names@, now);
            if listed(names@).len() == 0 {
                assert(listed(names@) =~= seq![]);
            }
        },
        OpenState::Inspecting { bases } => {
            lemma_inspection_by_bytes(now[bases.last()], bases.last(), size, max);
        },
        OpenState::Discarding { bases } => {
            lemma_in_order_without_last(bases, now);
            assert(kept(disk, after, size, max));
            if bases.len() == 1 {
                assert(bases.drop_last() =~= seq![]);
            }
        },
        OpenState::Creating => {
            let (created, h) = choose|created: u64, h: Vec<u8>|
                #[trigger] call_ensures(encode_header, (Lsn(1), created), h) && after
                    == now.insert(1u64, h@ + zero_bytes(size - 64));
            assert(call_ensures(encode_header, (Lsn(1), created), h));
            assert(kept(disk, now, size, max));
            assert(new_log(disk, after, cold(), size, max));
        },
        OpenState::Scanning { bases, next, prev } => {
            lemma_header_by_bytes(now[bases[next]], bases[next]);
            lemma_scan_step(disk, now, bases, next, prev, reply, size, max);
        },
        OpenState::Zeroing { found } => {
            assert(kept(disk, now, size, max));
            assert(after == settled(now, found, size));
            assert(recovered(disk, after, found, size, max));
        },
        OpenState::Ready { .. } => {},
    }
}

/// How many steps are left at most, from the listing on.
pub open spec fn steps_left(state: OpenState) -> int {
    match state {
        OpenState::Inspecting { bases } => bases.len() as int + 3,
        OpenState::Discarding { bases } => bases.len() as int + 2,
        OpenState::Scanning { bases, next, .. } => bases.len() - next + 1,
        OpenState::Creating => 1,
        OpenState::Zeroing { .. } => 1,
        _ => 0,
    }
}

/// A step of the scan keeps to the directory.
proof fn lemma_scan_step(
    disk: Map<u64, Seq<u8>>,
    now: Map<u64, Seq<u8>>,
    bases: Seq<u64>,
    next: int,
    prev: Option<u64>,
    reply: OpenReply,
    size: int,
    max: u32,
)
    requires
        0 <= next < bases.len(),
        pursued(disk, now, OpenState::Scanning { bases, next, prev }, size, max),
        reply matches OpenReply::File(file) && file@ == now[bases[next]],
    ensures
        stepped(OpenState::Scanning { bases, next, prev }, reply, size, max) matches Stepped::Next(
            state,
        ) ==> pursued(disk, now, state, size, max) && steps_left(state) < bases.len() - next + 1,
{
    match scanned(bases, next, prev, now[bases[next]], size, max) {
        Stepped::Next(OpenState::Ready { found }) => {
            assert(kept(disk, now, size, max));
            assert(settled(now, found, size) == now);
            assert(recovered(disk, now, found, size, max));
        },
        _ => {},
    }
}

/// What an opening hands out at its end: a handle that is ready, under the configuration
/// and the observer that it was given, and a report that says the same as the handle.
pub proof fn law_opening_hands_out_the_log<O: DurabilityObserver>(
    o: Opening<O>,
    asked: &Opening<O>,
    action: OpenAction,
    r: Option<(Wal<O>, RecoveryReport)>,
    log: &Wal<O>,
    segments: &[Lsn],
    durable: Lsn,
    last: Lsn,
    config: WalConfig,
)
    requires
        o.wf(),
        *asked == o,
        call_ensures(Opening::<O>::action, (asked,), action),
        call_ensures(Opening::<O>::finish, (o,), r),
        r matches Some((wal, _)) ==> *log == wal,
        call_ensures(Wal::<O>::segments, (log,), segments),
        call_ensures(Wal::<O>::durable_lsn, (log,), durable),
        call_ensures(Wal::<O>::last_lsn, (log,), last),
        call_ensures(Wal::<O>::config, (log,), config),
    ensures
        r is Some <==> action is Finish,
        r matches Some((wal, report)) ==> {
            &&& wal.wf()
            &&& wal.observer() == o.observer()
            &&& config.segment_size == o.config().segment_size
            &&& config.max_record_size == o.config().max_record_size
            &&& segments@.len() >= 1
            &&& report.oldest_lsn == segments@[0]
            &&& report.segments_scanned == segments@.len()
            &&& report.durable_lsn == durable
            &&& last == durable
            &&& wal@.pending.len() == 0
            &&& wal@.due is Nothing
            &&& wal@.reclaim is Idle
            &&& !wal@.poisoned
        },
{
    o.law_opening_is_valid();
}

/// The log that comes out of an opening is the one in the directory: its records are dense
/// from its oldest LSN to its durable one, they are those that stand in the segments, and
/// a reader over the directory as it is now has exactly them ahead.
pub proof fn law_opened_log_is_the_one_in_the_directory<O: DurabilityObserver>(
    o: Opening<O>,
    wal: Wal<O>,
    report: RecoveryReport,
    disk: Map<u64, Seq<u8>>,
    now: Map<u64, Seq<u8>>,
    before: Map<u64, Seq<u8>>,
    found: Found,
    from: u64,
)
    requires
        o.wf(),
        call_ensures(Opening::<O>::finish, (o,), Some((wal, report))),
        o@ == (OpenState::Ready { found }),
        kept(
            disk,
            before,
            o.config().segment_size as int,
            o.config().max_record_size,
        ),
        in_order(found.bases, before),
        found.bases.len() > 0,
        scan_outcome(
            before,
            found.bases,
            0,
            None,
            o.config().segment_size as int,
            o.config().max_record_size,
        ) == Stepped::Next(OpenState::Ready { found }),
        now == settled(before, found, o.config().segment_size as int),
        forall|i: int|
            0 <= i < found.bases.len() ==> #[trigger] numbered(
                before,
                found.bases,
                o.config().segment_size as int,
                o.config().max_record_size,
                i,
            ),
    ensures
        ({
            let log = flat(
                parts_of(
                    before,
                    found.bases,
                    o.config().segment_size as int,
                    o.config().max_record_size,
                ),
            );
            &&& report.oldest_lsn.0 + log.len() == report.durable_lsn.0 + 1
            &&& report.tail_state == found.tail
            &&& are_records_from(
                replay(now, reader_at(wal@, from)),
                report.oldest_lsn.0,
                log,
                from,
            )
        }),
{
    law_opened_log_is_dense(before, found.bases, found, o.config(), from);
}

/// Two lists of the same segments in order are the same.
proof fn lemma_in_order_is_unique(a: Seq<u64>, b: Seq<u64>, disk: Map<u64, Seq<u8>>)
    requires
        in_order(a, disk),
        in_order(b, disk),
    ensures
        a == b,
    decreases a.len(),
{
    if a.len() == 0 {
        if b.len() > 0 {
            assert(b.contains(b[0]));
            assert(disk.contains_key(b[0]));
            assert(a.contains(b[0]));
        }
        assert(a =~= b);
    } else {
        assert(a.contains(a[0]));
        assert(disk.contains_key(a[0]));
        assert(b.contains(a[0]));
        let (x, y) = (a[a.len() - 1], b[b.len() - 1]);
        assert(a.contains(x) && b.contains(y));
        assert(disk.contains_key(x) && disk.contains_key(y));
        assert(b.contains(x) && a.contains(y));
        let i = choose|i: int| 0 <= i < b.len() && b[i] == x;
        let j = choose|j: int| 0 <= j < a.len() && a[j] == y;
        if i < b.len() - 1 && j < a.len() - 1 {
            assert(b[i] < b[b.len() - 1]);
            assert(a[j] < a[a.len() - 1]);
        }
        if i == b.len() - 1 {
            assert(x == y);
        } else {
            assert(x < y);
            if j < a.len() - 1 {
                assert(y < x);
            }
        }
        assert(x == y);
        lemma_in_order_without_last(a, disk);
        lemma_in_order_without_last(b, disk);
        lemma_in_order_is_unique(a.drop_last(), b.drop_last(), disk.remove(x));
        assert(a =~= a.drop_last().push(x));
        assert(b =~= b.drop_last().push(x));
    }
}

/// Opening again brings back exactly what was durable: over a directory that holds what a
/// handle takes for durable, an opening that has come to its end has changed nothing in
/// it, and hands out a handle on the same records, with a clean tail.
pub proof fn law_reopened_log_is_the_same<O: DurabilityObserver>(
    o: Opening<O>,
    wal: Wal<O>,
    report: RecoveryReport,
    disk: Map<u64, Seq<u8>>,
    now: Map<u64, Seq<u8>>,
    s: WalState,
    parts: Seq<Seq<Seq<u8>>>,
)
    requires
        o.wf(),
        call_ensures(Opening::<O>::finish, (o,), Some((wal, report))),
        s.size == o.config().segment_size,
        s.max == o.config().max_record_size,
        represents(disk, s, parts),
        in_order(bases_of(s.segments), disk),
        pursued(disk, now, o@, s.size, s.max),
    ensures
        now == disk,
        represents(now, wal@, parts),
        wal@.segments == s.segments,
        report.durable_lsn.0 == s.durable,
        report.oldest_lsn == s.segments[0],
        report.tail_state is Clean,
{
    let bases = bases_of(s.segments);
    let top = s.segments.len() - 1;
    let found = o@->Ready_found;
    law_reopening_brings_back(disk, s, parts);
    assert(crate::disk::stored(disk, s.segments, parts, s.size, s.max, top));
    assert(bases.last() == s.segments[top].0);
    lemma_header_by_bytes(disk[bases.last()], bases.last());
    assert forall|before: Map<u64, Seq<u8>>| kept(disk, before, s.size, s.max) implies before
        == disk by {
        if before != disk {
            let other = choose|other: Seq<u64>| #[trigger]
                in_order(other, disk) && other.len() > 0 && incomplete(
                    disk[other.last()],
                    other.last(),
                    s.size,
                    s.max,
                ) && before == disk.remove(other.last());
            lemma_in_order_is_unique(other, bases, disk);
        }
    }
    if new_log(disk, now, found, s.size, s.max) {
        let (before, created, h) = choose|before: Map<u64, Seq<u8>>, created: u64, h: Vec<u8>|
            #![trigger call_ensures(encode_header, (Lsn(1), created), h), kept(disk, before, s.size, s.max)]
            {
                &&& kept(disk, before, s.size, s.max)
                &&& in_order(seq![], before)
                &&& call_ensures(encode_header, (Lsn(1), created), h)
                &&& now == before.insert(1u64, h@ + zero_bytes(s.size - 64))
                &&& found.bases == seq![1u64]
                &&& found.write_offset == 64
                &&& found.last == 0
                &&& found.tail is Clean
            };
        assert(bases.contains(bases[0]));
        assert(before.contains_key(bases[0]));
        assert(false);
    }
    let before = choose|before: Map<u64, Seq<u8>>| #[trigger]
        kept(disk, before, s.size, s.max) && in_order(found.bases, before) && found.bases.len() > 0
            && scan_outcome(before, found.bases, 0, None, s.size, s.max) == Stepped::Next(
            OpenState::Ready { found },
        ) && now == settled(before, found, s.size);
    lemma_in_order_is_unique(found.bases, bases, disk);
    assert(found == resumable(s));
    assert(as_lsns(bases) =~= s.segments);
}

/// How a segment is taken up goes by its header, by the segment before it, and by what
/// recovery says of it: nothing that recovery refuses is opened, and nothing else is
/// refused.
pub proof fn law_segments_are_taken_up_for_cause<O: DurabilityObserver>(
    o: Opening<O>,
    file: Vec<u8>,
    bytes: &[u8],
    r: Result<Opening<O>, WalError>,
    probe: &mut ScanProbe,
    rec: Result<SegmentRecovery, WalError>,
    bases: Seq<u64>,
    next: int,
    prev: Option<u64>,
)
    requires
        o.wf(),
        o@ == (OpenState::Scanning { bases, next, prev }),
        bases[next] >= 1,
        bytes@ == file@,
        call_ensures(Opening::<O>::advance, (o, OpenReply::File(file)), r),
        call_ensures(
            recover_segment,
            (
                bytes,
                Lsn(bases[next]),
                next == bases.len() - 1,
                o.config().segment_size,
                o.config().max_record_size,
                probe,
            ),
            rec,
        ),
    ensures
        if !heads(file@, bases[next]) {
            r matches Err(WalError::BadSegmentHeader)
        } else if prev matches Some(p) && (p == u64::MAX && bases[next] != p || p < u64::MAX && p + 1
            != bases[next]) {
            r matches Err(WalError::ContiguityViolation)
        } else {
            match rec {
                Err(WalError::TornMidLog { segment, offset }) => r matches Err(
                    WalError::TornMidLog { segment: s, offset: x },
                ) && s == segment && x == offset,
                Err(WalError::Corruption { segment, offset, .. }) => r matches Err(
                    WalError::Corruption { segment: s, offset: x, .. },
                ) && s == segment && x == offset,
                Err(_) => false,
                Ok(found) => if next < bases.len() - 1 {
                    if found.max_lsn.0 < bases[next] {
                        r matches Err(WalError::ContiguityViolation)
                    } else {
                        r matches Ok(n) && n@ == (OpenState::Scanning {
                            bases,
                            next: next + 1,
                            prev: Some(found.max_lsn.0),
                        })
                    }
                } else {
                    let all = Found {
                        bases,
                        write_offset: found.write_offset as int,
                        last: found.max_lsn.0,
                        tail: found.tail_state,
                    };
                    if found.tail_state is Clean {
                        r matches Ok(n) && n@ == (OpenState::Ready { found: all })
                    } else {
                        r matches Ok(n) && n@ == (OpenState::Zeroing { found: all })
                    }
                },
            }
        },
{
    o.law_opening_is_valid();
    lemma_header_by_bytes(file@, bases[next]);
}

/// What fails on the way fails the opening with its own error, until the log is ready.
pub proof fn law_failures_end_the_opening<O: DurabilityObserver>(
    o: Opening<O>,
    asked: &Opening<O>,
    action: OpenAction,
    reply: OpenReply,
    r: Result<Opening<O>, WalError>,
)
    requires
        o.wf(),
        *asked == o,
        call_ensures(Opening::<O>::action, (asked,), action),
        call_ensures(Opening::<O>::advance, (o, reply), r),
        !(action is Finish),
    ensures
        reply matches OpenReply::Failed(e) ==> r == Err::<Opening<O>, WalError>(WalError::Io(e)),
        reply is Busy && action is Lock ==> r matches Err(WalError::Locked),
        reply is SyncFailed && action is Zero ==> r matches Err(WalError::FsyncFailed),
{
}

/// A reply that answers nothing changes nothing, a log that is ready stays so, and none is
/// handed out before.
pub proof fn law_other_replies_change_nothing<O: DurabilityObserver>(
    o: Opening<O>,
    asked: &Opening<O>,
    action: OpenAction,
    reply: OpenReply,
    r: Result<Opening<O>, WalError>,
    handed: Option<(Wal<O>, RecoveryReport)>,
)
    requires
        o.wf(),
        *asked == o,
        call_ensures(Opening::<O>::action, (asked,), action),
        call_ensures(Opening::<O>::advance, (o, reply), r),
        call_ensures(Opening::<O>::finish, (o,), handed),
    ensures
        match action {
            OpenAction::Lock => !(reply is Done || reply is Busy || reply is Failed),
            OpenAction::List => !(reply is Names || reply is Failed),
            OpenAction::Read(_) => !(reply is File || reply is Failed),
            OpenAction::Remove(_) => !(reply is Done || reply is Failed),
            OpenAction::Create(_) => !(reply is Done || reply is Failed),
            OpenAction::Zero { .. } => !(reply is Done || reply is SyncFailed || reply is Failed),
            OpenAction::Finish => true,
        } ==> (r matches Ok(next) && next.wf() && next@ == o@ && next.config() == o.config()
            && next.observer() == o.observer()),
        handed is Some <==> action is Finish,
{
}

/// A log that was recovered can be written on: the handle stands for exactly the records in
/// the directory as it is now. Behind a clean end the file has to be whole and zero.
pub proof fn law_recovered_log_can_be_written_on<O: DurabilityObserver>(
    o: Opening<O>,
    wal: Wal<O>,
    report: RecoveryReport,
    before: Map<u64, Seq<u8>>,
    now: Map<u64, Seq<u8>>,
    found: Found,
)
    requires
        o.wf(),
        call_ensures(Opening::<O>::finish, (o,), Some((wal, report))),
        o@ == (OpenState::Ready { found }),
        in_order(found.bases, before),
        found.bases.len() > 0,
        scan_outcome(
            before,
            found.bases,
            0,
            None,
            o.config().segment_size as int,
            o.config().max_record_size,
        ) == Stepped::Next(OpenState::Ready { found }),
        now == settled(before, found, o.config().segment_size as int),
        forall|i: int|
            0 <= i < found.bases.len() ==> #[trigger] numbered(
                before,
                found.bases,
                o.config().segment_size as int,
                o.config().max_record_size,
                i,
            ),
        before[found.bases.last()].len() <= o.config().segment_size,
        found.tail is Clean ==> before[found.bases.last()].len() == o.config().segment_size
            && forall|j: int|
            found.write_offset <= j < o.config().segment_size
                ==> before[found.bases.last()][j] == 0,
    ensures
        represents(
            now,
            wal@,
            parts_of(
                before,
                found.bases,
                o.config().segment_size as int,
                o.config().max_record_size,
            ),
        ),
{
    o.law_opening_is_valid();
    assert forall|i: int| 0 <= i < found.bases.len() implies before.contains_key(
        #[trigger] found.bases[i],
    ) by {
        assert(found.bases.contains(found.bases[i]));
    }
    law_opened_log_is_whole(before, found.bases, found, o.config());
}

/// A new log can be written on, and holds no record: over an empty directory an opening
/// that has come to its end has made the first segment, and nothing else.
pub proof fn law_new_log_can_be_written_on<O: DurabilityObserver>(
    o: Opening<O>,
    wal: Wal<O>,
    report: RecoveryReport,
    disk: Map<u64, Seq<u8>>,
    now: Map<u64, Seq<u8>>,
)
    requires
        o.wf(),
        call_ensures(Opening::<O>::finish, (o,), Some((wal, report))),
        disk == Map::<u64, Seq<u8>>::empty(),
        pursued(
            disk,
            now,
            o@,
            o.config().segment_size as int,
            o.config().max_record_size,
        ),
    ensures
        represents(now, wal@, seq![Seq::<Seq<u8>>::empty()]),
        report.durable_lsn.0 == 0,
        report.oldest_lsn.0 == 1,
        report.tail_state is Clean,
        wal@.segments == seq![Lsn(1)],
        forall|b: u64| now.contains_key(b) <==> b == 1,
{
    let size = o.config().segment_size as int;
    let max = o.config().max_record_size;
    let found = o@->Ready_found;
    o.law_opening_is_valid();
    assert forall|before: Map<u64, Seq<u8>>| kept(disk, before, size, max) implies before == disk by {
        if before != disk {
            let other = choose|other: Seq<u64>| #[trigger]
                in_order(other, disk) && other.len() > 0 && incomplete(
                    disk[other.last()],
                    other.last(),
                    size,
                    max,
                ) && before == disk.remove(other.last());
            assert(other.contains(other[0]));
            assert(disk.contains_key(other[0]));
        }
    }
    if recovered(disk, now, found, size, max) {
        let before = choose|before: Map<u64, Seq<u8>>| #[trigger]
            kept(disk, before, size, max) && in_order(found.bases, before) && found.bases.len() > 0
                && scan_outcome(before, found.bases, 0, None, size, max) == Stepped::Next(
                OpenState::Ready { found },
            ) && now == settled(before, found, size);
        assert(found.bases.contains(found.bases[0]));
        assert(before.contains_key(found.bases[0]));
    }
    let (before, created, h) = choose|before: Map<u64, Seq<u8>>, created: u64, h: Vec<u8>|
        #![trigger call_ensures(encode_header, (Lsn(1), created), h), kept(disk, before, size, max)]
        {
            &&& kept(disk, before, size, max)
            &&& in_order(seq![], before)
            &&& call_ensures(encode_header, (Lsn(1), created), h)
            &&& now == before.insert(1u64, h@ + zero_bytes(size - 64))
            &&& found.bases == seq![1u64]
            &&& found.write_offset == 64
            &&& found.last == 0
            &&& found.tail is Clean
        };
    law_cold_start_is_stored(created, o.config());
    assert(zero_bytes(size - 64) =~= crate::record::zeros((size - 64) as nat));
    assert(now =~= map![1u64 => fresh(1, created, size)]);
    assert(found == cold());
    assert(as_lsns(seq![1u64]) =~= seq![Lsn(1)]);
}

/// The end of an opening is what the laws on whole directories speak of.
pub proof fn law_opening_ends_as_its_directory_says(
    disk: Map<u64, Seq<u8>>,
    now: Map<u64, Seq<u8>>,
    found: Found,
    bases: Seq<u64>,
    size: int,
    max: u32,
)
    requires
        pursued(disk, now, OpenState::Ready { found }, size, max),
        in_order(bases, disk),
        bases.len() > 0,
        heads(disk[bases.last()], bases.last()),
    ensures
        open_outcome(disk, OpenState::Inspecting { bases }, size, max) == Stepped::Next(
            OpenState::Ready { found },
        ),
        now == settled(disk, found, size),
{
    lemma_inspection_by_bytes(disk[bases.last()], bases.last(), size, max);
    assert forall|before: Map<u64, Seq<u8>>| kept(disk, before, size, max) implies before == disk by {
        if before != disk {
            let other = choose|other: Seq<u64>| #[trigger]
                in_order(other, disk) && other.len() > 0 && incomplete(
                    disk[other.last()],
                    other.last(),
                    size,
                    max,
                ) && before == disk.remove(other.last());
            lemma_in_order_is_unique(other, bases, disk);
        }
    }
    if new_log(disk, now, found, size, max) {
        assert(bases.contains(bases[0]));
        assert(disk.contains_key(bases[0]));
    } else {
        let before = choose|before: Map<u64, Seq<u8>>| #[trigger]
            kept(disk, before, size, max) && in_order(found.bases, before) && found.bases.len() > 0
                && scan_outcome(before, found.bases, 0, None, size, max) == Stepped::Next(
                OpenState::Ready { found },
            ) && now == settled(before, found, size);
        lemma_in_order_is_unique(found.bases, bases, disk);
    }
}

/// Measuring changes nothing about an opening, and measures what recovery measures: the
/// segment that is taken up, and nothing before or after.
pub proof fn law_measured_opening_is_the_same<O: DurabilityObserver>(
    o: Opening<O>,
    reply: OpenReply,
    plain: Result<Opening<O>, WalError>,
    probe: &mut ScanProbe,
    r: Result<Opening<O>, WalError>,
    bytes: &[u8],
    alone: &mut ScanProbe,
    rec: Result<SegmentRecovery, WalError>,
)
    requires
        o.wf(),
        call_ensures(Opening::<O>::advance, (o, reply), plain),
        call_ensures(Opening::<O>::advance_probed, (o, reply, probe), r),
        old(alone).peak == old(probe).peak,
        o@ matches OpenState::Scanning { bases, next, .. } ==> bases[next] >= 1 && call_ensures(
            recover_segment,
            (
                bytes,
                Lsn(bases[next]),
                next == bases.len() - 1,
                o.config().segment_size,
                o.config().max_record_size,
                alone,
            ),
            rec,
        ),
        reply matches OpenReply::File(file) ==> bytes@ == file@,
    ensures
        r is Ok <==> plain is Ok,
        r matches Ok(a) ==> (plain matches Ok(b) ==> a@ == b@ && a.config() == b.config()
            && a.observer() == b.observer()),
        !(o@ is Scanning && reply is File) ==> final(probe).peak == old(probe).peak,
        o@ is Scanning && reply is File ==> final(probe).peak == old(probe).peak || final(probe).peak
            == final(alone).peak,
        o@ is Scanning && reply is File && r is Ok ==> final(probe).peak == final(alone).peak,
{
    o.law_opening_is_valid();
}

/// An opening that nobody observes is an opening.
pub proof fn law_plain_opening_is_an_opening(
    config: WalConfig,
    r: Result<Opening<NullObserver>, WalError>,
    observed: Result<Opening<NullObserver>, WalError>,
)
    requires
        call_ensures(Wal::<NullObserver>::open, (config,), r),
        call_ensures(Wal::<NullObserver>::open_with, (config, NullObserver), observed),
    ensures
        r is Ok <==> observed is Ok,
        r matches Ok(a) ==> (observed matches Ok(b) ==> a.wf() && a@ == b@ && a.config()
            == b.config()),
        r matches Err(e) ==> e is InvalidConfig,
{
}

} // verus!
