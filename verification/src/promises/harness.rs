//! The harnesses: reports, workloads and the verifier.

use vstd::prelude::*;

use crate::config::WalConfig;
use crate::harness::ack_line;
use crate::harness::by_seq;
use crate::harness::comma_in;
use crate::harness::count_segments;
use crate::harness::digit_bytes;
use crate::harness::is_space;
use crate::harness::law_report_reads_back;
use crate::harness::lemma_comma_behind;
use crate::harness::marker_exit_code;
use crate::harness::parse_ack;
use crate::harness::parse_number;
use crate::harness::parse_sink;
use crate::harness::read_capture;
use crate::harness::record_payload;
use crate::harness::record_tag;
use crate::harness::trimmed;
use crate::harness::wal_config;
use crate::harness::Capture;
use crate::harness::Finding;
use crate::harness::Marker;
use crate::harness::SinkSpec;
use crate::harness::Verifier;
use crate::harness::Workload;
use crate::promises::segments::ten_to;
use crate::promises::values::lemma_tenth;

verus! {

/// A report that was written reads back.
pub proof fn law_written_report_reads_back(
    seq: u64,
    lsn: u64,
    line: String,
    text: &str,
    r: Option<(u64, u64)>,
)
    requires
        call_ensures(ack_line, (seq, lsn), line),
        call_ensures(parse_ack, (text,), r),
        text@ + seq!['\n'] == line@,
    ensures
        r == Some((seq, lsn)),
{
    law_report_reads_back(seq, lsn);
    assert(text@ =~= line@.drop_last());
}

/// A report is two numbers around the first comma; a space behind it does not matter.
pub proof fn law_report_is_two_numbers(
    text: &str,
    r: Option<(u64, u64)>,
    left: &str,
    right: &str,
    seq: Option<u64>,
    lsn: Option<u64>,
)
    requires
        call_ensures(parse_ack, (text,), r),
        call_ensures(parse_number, (left,), seq),
        call_ensures(parse_number, (right,), lsn),
        !left@.contains(','),
        left@.len() > 0 ==> !is_space(left@[0]) && !is_space(left@.last()),
        right@.len() > 0 ==> !is_space(right@[0]) && !is_space(right@.last()),
    ensures
        text@ == left@ + seq![','] + right@ ==> r == match (seq, lsn) {
            (Some(a), Some(b)) => Some((a, b)),
            _ => None,
        },
        text@ == left@ + seq![',', ' '] + right@ && right@.len() > 0 ==> r == match (seq, lsn) {
            (Some(a), Some(b)) => Some((a, b)),
            _ => None,
        },
        text@ == left@ ==> r is None,
{
    assert forall|i: int| 0 <= i < left@.len() implies left@[i] != ',' by {
        assert(left@.contains(left@[i]));
    }
    if text@ == left@ + seq![','] + right@ {
        let tail = seq![','] + right@;
        assert(text@ =~= left@ + tail);
        lemma_comma_behind(left@, tail);
        assert(text@.take(left@.len() as int) =~= left@);
        assert(text@.skip(left@.len() as int + 1) =~= right@);
    }
    if text@ == left@ + seq![',', ' '] + right@ && right@.len() > 0 {
        let tail = seq![',', ' '] + right@;
        assert(text@ =~= left@ + tail);
        lemma_comma_behind(left@, tail);
        assert(text@.take(left@.len() as int) =~= left@);
        let spaced = text@.skip(left@.len() as int + 1);
        assert(spaced =~= seq![' '] + right@);
        assert(spaced[0] == ' ');
        assert(is_space(' '));
        assert(spaced.skip(1) =~= right@);
        assert(trimmed(spaced) == trimmed(right@));
        assert(trimmed(right@) == right@);
    }
    if text@ == left@ {
        lemma_no_comma(left@);
    }
}

/// Text without a comma.
proof fn lemma_no_comma(s: Seq<char>)
    requires
        forall|i: int| 0 <= i < s.len() ==> s[i] != ',',
    ensures
        comma_in(s) == s.len(),
    decreases s.len(),
{
    if s.len() > 0 {
        lemma_no_comma(s.skip(1));
    }
}

/// Whether `acks[i]` is the last report with its number.
pub open spec fn last_of_its_number(acks: Seq<(u64, u64)>, i: int) -> bool {
    &&& 0 <= i < acks.len()
    &&& forall|j: int| i < j < acks.len() ==> (#[trigger] acks[j]).0 != acks[i].0
}

/// Whether some report has the number `s`.
pub open spec fn is_reported(acks: Seq<(u64, u64)>, s: u64) -> bool {
    exists|i: int| 0 <= i < acks.len() && (#[trigger] acks[i]).0 == s
}

/// The reports by number.
proof fn lemma_by_seq(acks: Seq<(u64, u64)>, s: u64)
    ensures
        by_seq(acks).contains_key(s) <==> is_reported(acks, s),
        forall|i: int|
            #[trigger] last_of_its_number(acks, i) && acks[i].0 == s ==> by_seq(acks)[s]
                == acks[i].1,
    decreases acks.len(),
{
    if acks.len() > 0 {
        let front = acks.drop_last();
        lemma_by_seq(front, s);
        assert(acks[acks.len() - 1] == acks.last());
        if is_reported(front, s) {
            let i = choose|i: int| 0 <= i < front.len() && (#[trigger] front[i]).0 == s;
            assert(acks[i].0 == s);
        }
        if is_reported(acks, s) && acks.last().0 != s {
            let i = choose|i: int| 0 <= i < acks.len() && (#[trigger] acks[i]).0 == s;
            assert(front[i].0 == s);
        }
        assert forall|i: int|
            #[trigger] last_of_its_number(acks, i) && acks[i].0 == s implies by_seq(acks)[s]
            == acks[i].1 by {
            if i < acks.len() - 1 {
                assert(acks[acks.len() - 1].0 != acks[i].0);
                assert(front[i] == acks[i]);
                assert forall|j: int| i < j < front.len() implies (#[trigger] front[j]).0
                    != front[i].0 by {
                    assert(acks[j].0 != acks[i].0);
                }
                assert(last_of_its_number(front, i));
            }
        }
    }
}

/// Reports whose numbers are exactly those from one to `n` are complete, and the report
/// with the number `n` says how far the log got. Where a number is missing before another
/// one, the gap is at the first that is missing. Where there are none, nothing was reported.
pub proof fn law_capture_shows_the_reports(acks: &Vec<(u64, u64)>, c: Capture, n: u64, i: int)
    requires
        call_ensures(read_capture, (acks,), c),
    ensures
        acks@.len() == 0 <==> c is Empty,
        n >= 1 && (forall|s: u64| is_reported(acks@, s) <==> 1 <= s <= n) && last_of_its_number(
            acks@,
            i,
        ) && acks@[i].0 == n ==> c == (Capture::Complete { high_water: acks@[i].1 }),
        is_reported(acks@, 0) ==> c == (Capture::Gap { seq: 1, high_water: 0 }),
        acks@.len() > 0 && !is_reported(acks@, 0) && !is_reported(acks@, 1) ==> c == (Capture::Gap {
            seq: 1,
            high_water: 0,
        }),
        1 <= n < u64::MAX && !is_reported(acks@, 0) && (forall|s: u64|
            1 <= s <= n ==> is_reported(acks@, s)) && !is_reported(acks@, (n + 1) as u64) && (
        exists|s: u64| s > n && is_reported(acks@, s)) && last_of_its_number(acks@, i)
            && acks@[i].0 == n ==> c == (Capture::Gap {
            seq: (n + 1) as u64,
            high_water: acks@[i].1,
        }),
{
    let m = by_seq(acks@);
    assert forall|s: u64| m.contains_key(s) <==> is_reported(acks@, s) by {
        lemma_by_seq(acks@, s);
    }
    lemma_by_seq(acks@, n);
    if acks@.len() > 0 {
        assert(is_reported(acks@, acks@[0].0));
        assert(m.contains_key(acks@[0].0));
        assert(m.dom().contains(acks@[0].0));
    } else {
        assert(m.dom() =~= Set::empty());
        assert(forall|s: u64| !m.contains_key(s));
    }
    match c {
        Capture::Complete { high_water } => {
            let top = choose|top: u64|
                {
                    &&& top >= 1
                    &&& #[trigger] m.contains_key(top)
                    &&& forall|s: u64| m.contains_key(s) <==> 1 <= s <= top
                    &&& high_water == m[top]
                };
            assert(m.contains_key(1));
            assert(m.contains_key(n) <==> 1 <= n <= top);
            if n < u64::MAX {
                assert(m.contains_key((n + 1) as u64) <==> 1 <= n + 1 <= top);
            }
            assert(m.contains_key(0) <==> 1 <= 0u64 <= top);
            if (forall|s: u64| is_reported(acks@, s) <==> 1 <= s <= n) {
                assert(is_reported(acks@, top));
            }
        },
        Capture::Gap { seq, high_water } => {
            if !m.contains_key(0) {
                assert(!m.contains_key(seq));
                if (forall|s: u64| is_reported(acks@, s) <==> 1 <= s <= n) {
                    assert(!is_reported(acks@, seq));
                    let s = choose|s: u64| #[trigger] m.contains_key(s) && !(1 <= s < seq);
                    assert(is_reported(acks@, s));
                }
                if seq > 1 {
                    assert(m.contains_key(1));
                }
                if 1 <= n < u64::MAX && n + 1 < seq {
                    assert(m.contains_key((n + 1) as u64));
                }
                if n >= 1 && seq <= n {
                    assert(!is_reported(acks@, seq));
                }
            }
        },
        Capture::Empty => {},
    }
}

/// Whether `bytes` is `n` in decimal digits, highest first.
pub open spec fn byte_digits_of(bytes: Seq<u8>, n: int) -> bool {
    &&& bytes.len() >= 1
    &&& 0 <= n < ten_to(bytes.len())
    &&& forall|i: int|
        0 <= i < bytes.len() ==> #[trigger] bytes[i] == 48 + n / ten_to(
            (bytes.len() - 1 - i) as nat,
        ) as int % 10
}

/// Digits as bytes.
proof fn lemma_digit_bytes(n: nat, width: nat)
    ensures
        byte_digits_of(digit_bytes(n, width), n as int),
        digit_bytes(n, width).len() >= width,
        digit_bytes(n, width).len() > width && width >= 1 ==> digit_bytes(n, width)[0] != 48,
        n >= 10 && width == 0 ==> digit_bytes(n, width)[0] != 48,
    decreases n, width,
{
    let bytes = digit_bytes(n, width);
    let len = bytes.len();
    assert(ten_to(0) == 1);
    assert(n as int / 1 == n);
    if n < 10 && width <= 1 {
        assert(ten_to(1) == 10);
    } else {
        let less = if width == 0 {
            0
        } else {
            (width - 1) as nat
        };
        let front = digit_bytes(n / 10, less);
        lemma_digit_bytes(n / 10, less);
        assert(ten_to(len) == 10 * ten_to((len - 1) as nat));
        assert forall|i: int| 0 <= i < len implies #[trigger] bytes[i] == 48 + n as int / ten_to(
            (len - 1 - i) as nat,
        ) as int % 10 by {
            if i < len - 1 {
                assert(bytes[i] == front[i]);
                lemma_tenth(n as int, (len - 1 - i) as nat);
            }
        }
        assert(bytes[0] == front[0]);
        if less == 0 && n / 10 < 10 {
            assert(front =~= seq![(48 + n / 10) as u8]);
        }
    }
}

/// A record's tag is `rec-` and its LSN in digits, filled up with zeros to the width; a
/// record's payload is its tag, and dots up to its length.
pub proof fn law_payload_tells_its_record(
    lsn: u64,
    width: u64,
    t: Vec<u8>,
    wide: Vec<u8>,
    len: usize,
    p: Vec<u8>,
)
    requires
        call_ensures(record_tag, (lsn, width), t),
        call_ensures(record_tag, (lsn, 16u64), wide),
        call_ensures(record_payload, (lsn, len), p),
    ensures
        t@.len() >= 4 + width,
        t@.take(4) == seq![0x72u8, 0x65, 0x63, 0x2d],
        byte_digits_of(t@.skip(4), lsn as int),
        t@.len() > 4 + width && width >= 1 ==> t@[4] != 48,
        p@.len() == if len < 20 {
            20
        } else {
            len as int
        },
        forall|i: int| 0 <= i < p@.len() && i < wide@.len() ==> p@[i] == wide@[i],
        forall|i: int| wide@.len() <= i < p@.len() ==> p@[i] == 0x2e,
{
    lemma_digit_bytes(lsn as nat, width as nat);
    assert(t@.skip(4) =~= digit_bytes(lsn as nat, width as nat));
    assert(t@.take(4) =~= seq![0x72u8, 0x65, 0x63, 0x2d]);
    assert(t@[4] == t@.skip(4)[0]);
}

/// The verifier starts at the oldest record, or at the first one where there is none.
pub proof fn law_verifier_starts_at_the_oldest(oldest: u64, high_water: u64, v: Verifier)
    requires
        call_ensures(Verifier::new, (oldest, high_water), v),
    ensures
        oldest > 0 ==> v.expected == oldest,
        oldest == 0 ==> v.expected == 1,
        v.highest_seen == 0,
        v.high_water == high_water,
{
}

/// A record passes exactly where it is the one that is due and, if it was reported, its
/// payload starts with its tag. One that does not pass leaves the verifier as it was.
pub proof fn law_record_passes_for_cause(
    v: &mut Verifier,
    lsn: u64,
    payload: &[u8],
    r: Result<(), Finding>,
    t: Vec<u8>,
)
    requires
        old(v).expected < u64::MAX,
        call_ensures(Verifier::check, (v, lsn, payload), r),
        call_ensures(record_tag, (lsn, 16u64), t),
    ensures
        r is Ok <==> lsn == old(v).expected && (lsn > old(v).high_water || t@.is_prefix_of(
            payload@,
        )),
        r is Ok ==> final(v).expected == lsn + 1 && final(v).highest_seen == lsn,
        r is Err ==> *final(v) == *old(v),
        final(v).high_water == old(v).high_water,
        lsn != old(v).expected ==> r == Err::<(), Finding>(
            Finding::NotDense { expected: old(v).expected, got: lsn },
        ),
        lsn == old(v).expected && r is Err ==> r == Err::<(), Finding>(
            Finding::WrongPayload { lsn },
        ),
{
}

/// A replay passes at its end exactly where everything that was reported has come.
pub proof fn law_replay_passes_for_cause(v: &Verifier, r: Result<(), Finding>)
    requires
        call_ensures(Verifier::finish, (v,), r),
    ensures
        r is Ok <==> v.high_water <= v.highest_seen,
        r is Err ==> r == Err::<(), Finding>(
            Finding::Lost { high_water: v.high_water, reached: v.highest_seen },
        ),
{
}

/// A workload goes on where the log ends, and wants records up to its total.
pub proof fn law_workload_goes_on_behind_the_log(
    durable: u64,
    total: u64,
    batch: u64,
    w: Workload,
    more: bool,
)
    requires
        durable < u64::MAX,
        call_ensures(Workload::resume, (durable, total, batch), w),
        call_ensures(Workload::wants_record, (&w,), more),
    ensures
        w.next_lsn == durable + 1,
        w.total == total,
        w.batch == batch,
        w.since_commit == 0,
        w.seq == 0,
        more <==> total == 0 || durable < total,
{
}

/// Each append takes the next LSN, and a commit comes with every batch; before a kill it
/// comes behind the first record of all, too.
pub proof fn law_workload_commits_by_batches(
    w: &mut Workload,
    commit: bool,
    k: &mut Workload,
    commit_first: bool,
)
    requires
        old(w).next_lsn < u64::MAX,
        old(w).since_commit < u64::MAX,
        *old(k) == *old(w),
        call_ensures(Workload::appended, (w,), commit),
        call_ensures(Workload::appended_before_kill, (k,), commit_first),
    ensures
        final(w).next_lsn == old(w).next_lsn + 1,
        final(w).since_commit == old(w).since_commit + 1,
        final(w).seq == old(w).seq,
        final(w).total == old(w).total,
        final(w).batch == old(w).batch,
        *final(k) == *final(w),
        commit <==> final(w).since_commit >= final(w).batch,
        commit_first <==> old(k).next_lsn == 1 || final(k).since_commit == final(k).batch,
{
}

/// Reports are numbered from one on, without gaps, and each starts a new batch. The last
/// commit is reported only where the log holds a record.
pub proof fn law_workload_numbers_its_reports(
    w: &mut Workload,
    seq: u64,
    c: &mut Workload,
    durable: u64,
    last: Option<u64>,
)
    requires
        old(w).seq < u64::MAX,
        *old(c) == *old(w),
        call_ensures(Workload::committed, (w,), seq),
        call_ensures(Workload::closed, (c, durable), last),
    ensures
        seq == old(w).seq + 1,
        final(w).seq == seq,
        final(w).since_commit == 0,
        final(w).next_lsn == old(w).next_lsn,
        final(w).total == old(w).total,
        final(w).batch == old(w).batch,
        durable > 0 ==> last == Some(seq) && *final(c) == *final(w),
        durable == 0 ==> last is None && *final(c) == *old(c),
{
}

/// Where reports go is what follows the kind, to the letter.
pub proof fn law_sink_is_what_follows_its_kind(text: &str, r: Option<SinkSpec>, rest: Seq<char>)
    requires
        call_ensures(parse_sink, (text,), r),
    ensures
        text@ == "tcp:"@ + rest ==> (r matches Some(SinkSpec::Tcp(to)) && to@ == rest),
        text@ == "file:"@ + rest ==> (r matches Some(SinkSpec::File(to)) && to@ == rest),
        text@ == "serial:"@ + rest ==> (r matches Some(SinkSpec::Serial(to)) && to@ == rest),
        text@ == "stdout"@ ==> (r matches Some(SinkSpec::Stdout)),
        match r {
            Some(SinkSpec::Tcp(to)) => text@ == "tcp:"@ + to@,
            Some(SinkSpec::File(to)) => text@ == "file:"@ + to@,
            Some(SinkSpec::Serial(to)) => text@ == "serial:"@ + to@,
            Some(SinkSpec::Stdout) => text@ == "stdout"@,
            None => true,
        },
{
    reveal_strlit("tcp:");
    reveal_strlit("file:");
    reveal_strlit("serial:");
    reveal_strlit("stdout");
    let s = text@;
    if s == "tcp:"@ + rest {
        assert(s.take(4) =~= "tcp:"@ && s.skip(4) =~= rest);
    }
    if s == "file:"@ + rest {
        assert(s.take(5) =~= "file:"@ && s.skip(5) =~= rest);
        assert(s.take(4)[0] == 'f' && "tcp:"@[0] == 't');
    }
    if s == "serial:"@ + rest {
        assert(s.take(7) =~= "serial:"@ && s.skip(7) =~= rest);
        assert(s.take(4)[0] == 's' && "tcp:"@[0] == 't');
        assert(s.take(5)[0] == 's' && "file:"@[0] == 'f');
    }
    if s == "stdout"@ {
        assert(s.take(4)[0] == 's' && "tcp:"@[0] == 't');
        assert(s.take(5)[0] == 's' && "file:"@[0] == 'f');
    }
    match r {
        Some(SinkSpec::Tcp(to)) => assert(s =~= s.take(4) + s.skip(4)),
        Some(SinkSpec::File(to)) => assert(s =~= s.take(5) + s.skip(5)),
        Some(SinkSpec::Serial(to)) => assert(s =~= s.take(7) + s.skip(7)),
        _ => {},
    }
}

/// A setting counts where it is a number in range, and the default where it is not or
/// is not there.
pub proof fn law_setting_counts_where_it_is_a_number(
    size: &str,
    max: &str,
    defaults: WalConfig,
    set: WalConfig,
    unset: WalConfig,
    a: Option<u64>,
    b: Option<u64>,
)
    requires
        call_ensures(wal_config, (Some(size), Some(max), defaults), set),
        call_ensures(wal_config, (None::<&str>, None::<&str>, defaults), unset),
        call_ensures(parse_number, (size,), a),
        call_ensures(parse_number, (max,), b),
    ensures
        set.segment_size == match a {
            Some(n) => n,
            None => defaults.segment_size,
        },
        match b {
            Some(n) => set.max_record_size == if n <= 0xffff_ffff {
                n
            } else {
                defaults.max_record_size as u64
            },
            None => set.max_record_size == defaults.max_record_size,
        },
        unset == defaults,
{
}

/// A name counts where it ends in `.wal`.
pub proof fn law_segments_are_counted_one_by_one(
    names: &Vec<String>,
    more: &Vec<String>,
    name: String,
    n: usize,
    m: usize,
)
    requires
        call_ensures(count_segments, (names,), n),
        call_ensures(count_segments, (more,), m),
        more@ == names@.push(name),
    ensures
        names@.len() == 0 ==> n == 0,
        m == if exists|stem: Seq<char>| name@ == stem + ".wal"@ {
            n + 1
        } else {
            n as int
        },
{
    reveal_strlit(".wal");
    assert(more@.drop_last() =~= names@);
    if name@.len() >= 4 && name@.skip(name@.len() - 4) == ".wal"@ {
        assert(name@ =~= name@.take(name@.len() - 4) + ".wal"@);
    }
    if exists|stem: Seq<char>| name@ == stem + ".wal"@ {
        let stem = choose|stem: Seq<char>| name@ == stem + ".wal"@;
        assert(name@.skip(name@.len() - 4) =~= ".wal"@);
    }
}

/// The probe succeeds exactly where the marker is gone, and its three answers differ.
pub proof fn law_probe_succeeds_where_the_marker_is_gone(a: Marker, x: u8, b: Marker, y: u8)
    requires
        call_ensures(marker_exit_code, (a,), x),
        call_ensures(marker_exit_code, (b,), y),
    ensures
        x == 0 <==> a is Gone,
        x == 1 <==> a is Survived,
        x == 2 <==> a is Unknown,
        x == y <==> a == b,
{
}

} // verus!
