//! The decisions of the power-cut and crash harnesses.
//!
//! A workload appends records whose payloads tell their LSNs, commits them in
//! batches, and reports each durable LSN over a side channel, as lines of a sequence
//! number and that LSN. After the cut a verifier reads the lines back, replays the
//! recovered log, and checks that everything that was reported is still there.

use std::collections::BTreeMap;

use vstd::prelude::*;

use crate::config::WalConfig;
use crate::text::decimal;
use crate::text::digits_value;
use crate::text::is_digit;
use crate::text::lemma_digits_value_grows;
use crate::text::push_decimal;

verus! {

/// Whether `c` has Unicode's property `White_Space`.
pub open spec fn is_space(c: char) -> bool {
    let n = c as u32;
    0x09 <= n <= 0x0d || n == 0x20 || n == 0x85 || n == 0xa0 || n == 0x1680 || 0x2000 <= n <= 0x200a
        || n == 0x2028 || n == 0x2029 || n == 0x202f || n == 0x205f || n == 0x3000
}

/// `char::is_whitespace`: whether the character has Unicode's property
/// `White_Space`, whose members `is_space` lists.
pub assume_specification[ char::is_whitespace ](c: char) -> (b: bool)
    ensures
        b == is_space(c),
;

/// `s` without a plus sign in front.
pub open spec fn unsigned(s: Seq<char>) -> Seq<char> {
    if s.len() > 0 && s[0] == '+' {
        s.skip(1)
    } else {
        s
    }
}

/// The number that `s` stands for: digits, with a plus sign allowed in front.
pub open spec fn number_in(s: Seq<char>) -> Option<u64> {
    let digits = unsigned(s);
    if digits.len() > 0 && (forall|i: int| 0 <= i < digits.len() ==> is_digit(digits[i]))
        && digits_value(digits) <= u64::MAX {
        Some(digits_value(digits) as u64)
    } else {
        None
    }
}

/// The number that the characters `from..to` of `s` stand for.
fn parse_part(s: &str, from: usize, to: usize) -> (r: Option<u64>)
    requires
        from <= to <= s@.len(),
    ensures
        r == number_in(s@.subrange(from as int, to as int)),
{
    let ghost part = s@.subrange(from as int, to as int);
    let start: usize = if from < to && s.get_char(from) == '+' {
        from + 1
    } else {
        from
    };
    let ghost digits = unsigned(part);
    assert(digits =~= s@.subrange(start as int, to as int));
    if start == to {
        return None;
    }
    let mut value: u64 = 0;
    let mut i: usize = start;
    assert(digits.take(0) =~= seq![]);
    while i < to
        invariant
            start <= i <= to <= s@.len(),
            start < to,
            digits == s@.subrange(start as int, to as int),
            digits == unsigned(part),
            from <= to,
            part == s@.subrange(from as int, to as int),
            forall|j: int| 0 <= j < i - start ==> is_digit(digits[j]),
            value == digits_value(digits.take(i - start)),
        decreases to - i,
    {
        let c: char = s.get_char(i);
        let code: u32 = c as u32;
        let ghost taken = digits.take(i - start + 1);
        assert(taken.drop_last() =~= digits.take(i - start));
        assert(taken.last() == c);
        if code < 48 || code > 57 {
            assert(digits[i - start] == c);
            assert(!is_digit(digits[i - start]));
            return None;
        }
        let d: u64 = (code - 48) as u64;
        if value > (u64::MAX - d) / 10 {
            proof {
                assert(digits_value(taken) > u64::MAX);
                lemma_digits_value_grows(digits, i - start + 1);
            }
            return None;
        }
        value = value * 10 + d;
        i = i + 1;
    }
    assert(digits.take(i - start) =~= digits);
    Some(value)
}

/// The number that `s` stands for.
pub fn parse_number(s: &str) -> (r: Option<u64>)
    ensures
        r == number_in(s@),
{
    assert(s@.subrange(0, s@.len() as int) =~= s@);
    parse_part(s, 0, s.unicode_len())
}

/// `s` without white space at its ends.
pub open spec fn trimmed(s: Seq<char>) -> Seq<char>
    decreases s.len(),
{
    if s.len() == 0 {
        s
    } else if is_space(s[0]) {
        trimmed(s.skip(1))
    } else if is_space(s.last()) {
        trimmed(s.drop_last())
    } else {
        s
    }
}

/// The number that the characters `from..to` of `s` stand for, without the white
/// space at their ends.
fn parse_trimmed(s: &str, from: usize, to: usize) -> (r: Option<u64>)
    requires
        from <= to <= s@.len(),
    ensures
        r == number_in(trimmed(s@.subrange(from as int, to as int))),
    decreases to - from,
{
    let ghost part = s@.subrange(from as int, to as int);
    if from == to {
        assert(part =~= trimmed(part));
        return parse_part(s, from, to);
    }
    if s.get_char(from).is_whitespace() {
        assert(part.skip(1) =~= s@.subrange(from + 1, to as int));
        return parse_trimmed(s, from + 1, to);
    }
    if s.get_char(to - 1).is_whitespace() {
        assert(part.drop_last() =~= s@.subrange(from as int, to - 1));
        return parse_trimmed(s, from, to - 1);
    }
    parse_part(s, from, to)
}

/// The first comma of `s`, or its end.
pub open spec fn comma_in(s: Seq<char>) -> int
    decreases s.len(),
{
    if s.len() == 0 || s[0] == ',' {
        0
    } else {
        1 + comma_in(s.skip(1))
    }
}

/// The sequence number and the LSN in a line of the side channel.
pub open spec fn ack_in(line: Seq<char>) -> Option<(u64, u64)> {
    let at = comma_in(line);
    if at < line.len() {
        match (number_in(trimmed(line.take(at))), number_in(trimmed(line.skip(at + 1)))) {
            (Some(seq), Some(lsn)) => Some((seq, lsn)),
            _ => None,
        }
    } else {
        None
    }
}

/// Reads a line of the side channel. A line that was cut off is none.
pub fn parse_ack(line: &str) -> (r: Option<(u64, u64)>)
    ensures
        r == ack_in(line@),
{
    let n: usize = line.unicode_len();
    let mut at: usize = 0;
    assert(line@.skip(0) =~= line@);
    while at < n && line.get_char(at) != ','
        invariant
            at <= n,
            n == line@.len(),
            comma_in(line@) == at + comma_in(line@.skip(at as int)),
        decreases n - at,
    {
        assert(line@.skip(at as int).skip(1) =~= line@.skip(at + 1));
        at = at + 1;
    }
    if at == n {
        return None;
    }
    assert(line@.subrange(0, at as int) =~= line@.take(at as int));
    assert(line@.subrange(at + 1, n as int) =~= line@.skip(at + 1));
    match parse_trimmed(line, 0, at) {
        None => None,
        Some(seq) => match parse_trimmed(line, at + 1, n) {
            None => None,
            Some(lsn) => Some((seq, lsn)),
        },
    }
}

/// A line of the side channel.
pub open spec fn ack_text(seq: u64, lsn: u64) -> Seq<char> {
    decimal(seq as nat) + ","@ + decimal(lsn as nat) + "\n"@
}

/// Writes a line of the side channel.
pub fn ack_line(seq: u64, lsn: u64) -> (line: String)
    ensures
        line@ == ack_text(seq, lsn),
{
    let mut line = String::new();
    push_decimal(&mut line, seq);
    line.append(",");
    push_decimal(&mut line, lsn);
    line.append("\n");
    assert(line@ =~= ack_text(seq, lsn));
    line
}

/// What the side channel shows.
#[derive(Debug, Clone, Copy, PartialEq, Eq, Structural)]
pub enum Capture {
    /// Nothing was reported.
    Empty,
    /// Reports are missing from `seq` on; up to there `high_water` was reported.
    Gap {
        /// The first sequence number that is missing.
        seq: u64,
        /// The last LSN before it.
        high_water: u64,
    },
    /// All reports are there, and the last one says `high_water`.
    Complete {
        /// The last LSN that was reported.
        high_water: u64,
    },
}

/// The reports by sequence number. Of several with the same number the last counts.
pub open spec fn by_seq(acks: Seq<(u64, u64)>) -> Map<u64, u64>
    decreases acks.len(),
{
    if acks.len() == 0 {
        Map::empty()
    } else {
        by_seq(acks.drop_last()).insert(acks.last().0, acks.last().1)
    }
}

/// Whether `c` is what the reports `m` show: they are complete where their sequence
/// numbers are exactly those from one to the highest.
pub open spec fn shows(c: Capture, m: Map<u64, u64>) -> bool {
    match c {
        Capture::Empty => m.dom() =~= Set::empty(),
        Capture::Complete { high_water } => exists|n: u64|
            {
                &&& n >= 1
                &&& #[trigger] m.contains_key(n)
                &&& forall|s: u64| m.contains_key(s) <==> 1 <= s <= n
                &&& high_water == m[n]
            },
        Capture::Gap { seq, high_water } => {
            &&& seq >= 1
            &&& exists|s: u64| #[trigger] m.contains_key(s) && !(1 <= s < seq)
            &&& if m.contains_key(0) {
                seq == 1 && high_water == 0
            } else {
                &&& forall|s: u64| 1 <= s < seq ==> #[trigger] m.contains_key(s)
                &&& !m.contains_key(seq)
                &&& high_water == if seq == 1 {
                    0
                } else {
                    m[(seq - 1) as u64]
                }
            }
        },
    }
}

/// There are finitely many reports.
proof fn lemma_by_seq_finite(acks: Seq<(u64, u64)>)
    ensures
        by_seq(acks).dom().finite(),
    decreases acks.len(),
{
    if acks.len() > 0 {
        lemma_by_seq_finite(acks.drop_last());
    }
}

/// Finds out what the reports show.
pub fn read_capture(acks: &Vec<(u64, u64)>) -> (c: Capture)
    ensures
        shows(c, by_seq(acks@)),
{
    broadcast use vstd::std_specs::btree::group_btree_axioms;

    let mut reports: BTreeMap<u64, u64> = BTreeMap::new();
    let mut i: usize = 0;
    assert(acks@.take(0) =~= seq![]);
    while i < acks.len()
        invariant
            i <= acks@.len(),
            reports@ == by_seq(acks@.take(i as int)),
        decreases acks@.len() - i,
    {
        assert(acks@.take(i + 1).drop_last() =~= acks@.take(i as int));
        reports.insert(acks[i].0, acks[i].1);
        i = i + 1;
    }
    assert(acks@.take(i as int) =~= acks@);
    let ghost m = reports@;
    proof {
        lemma_by_seq_finite(acks@);
    }
    let total: usize = reports.len();
    if total == 0 {
        proof {
            assert(m.dom().len() == 0);
            assert(m.dom() =~= Set::empty());
        }
        return Capture::Empty;
    }
    if reports.contains_key(&0u64) {
        return Capture::Gap { seq: 1, high_water: 0 };
    }
    let ghost mut seen: Set<u64> = Set::empty();
    let mut high_water: u64 = 0;
    let mut n: usize = 0;
    while n < total
        invariant
            n <= total,
            total > 0,
            m == reports@,
            m == by_seq(acks@),
            m.dom().finite(),
            total == m.dom().len(),
            !m.contains_key(0),
            seen.finite(),
            seen.len() == n,
            seen.subset_of(m.dom()),
            forall|s: u64| #[trigger] seen.contains(s) <==> 1 <= s <= n,
            n > 0 ==> high_water == m[n as u64],
            n == 0 ==> high_water == 0,
        ensures
            n == total,
        decreases total - n,
    {
        let expected: u64 = n as u64 + 1;
        match reports.get(&expected) {
            Some(lsn) => {
                high_water = *lsn;
            },
            None => {
                proof {
                    if forall|s: u64| #[trigger] m.contains_key(s) ==> 1 <= s < expected {
                        assert(m.dom() =~= seen);
                    }
                }
                return Capture::Gap { seq: expected, high_water };
            },
        }
        proof {
            seen = seen.insert(expected);
        }
        n = n + 1;
    }
    proof {
        vstd::set_lib::lemma_subset_equality(seen, m.dom());
        let top = n as u64;
        assert(forall|s: u64| #[trigger] m.contains_key(s) <==> seen.contains(s));
        assert(m.contains_key(top) && high_water == m[top]);
    }
    Capture::Complete { high_water }
}

/// `n` in decimal digits as bytes, at least `width` of them.
pub open spec fn digit_bytes(n: nat, width: nat) -> Seq<u8>
    decreases n, width,
{
    if n < 10 && width <= 1 {
        seq![(48 + n) as u8]
    } else {
        digit_bytes(
            n / 10,
            if width == 0 {
                0
            } else {
                (width - 1) as nat
            },
        ).push((48 + n % 10) as u8)
    }
}

/// Appends `n` in decimal digits, at least `width` of them.
fn push_digits(out: &mut Vec<u8>, n: u64, width: u64)
    ensures
        final(out)@ == old(out)@ + digit_bytes(n as nat, width as nat),
    decreases n, width,
{
    if n < 10 && width <= 1 {
        out.push(48 + n as u8);
    } else {
        push_digits(out, n / 10, width.saturating_sub(1));
        out.push(48 + (n % 10) as u8);
    }
    assert(out@ =~= old(out)@ + digit_bytes(n as nat, width as nat));
}

/// `rec-` and the LSN in at least `width` digits.
pub open spec fn tag(lsn: u64, width: nat) -> Seq<u8> {
    seq![0x72u8, 0x65, 0x63, 0x2d] + digit_bytes(lsn as nat, width)
}

/// The tag of record `lsn`: `rec-` and the LSN in at least `width` digits.
pub fn record_tag(lsn: u64, width: u64) -> (bytes: Vec<u8>)
    ensures
        bytes@ == tag(lsn, width as nat),
{
    let mut bytes: Vec<u8> = Vec::new();
    bytes.push(0x72);
    bytes.push(0x65);
    bytes.push(0x63);
    bytes.push(0x2d);
    push_digits(&mut bytes, lsn, width);
    assert(bytes@ =~= tag(lsn, width as nat));
    bytes
}

/// The payload of record `lsn`: its tag, cut or filled up with dots to `len` bytes,
/// and to no less than 20.
pub open spec fn payload_of(lsn: u64, len: nat) -> Seq<u8> {
    let t = tag(lsn, 16);
    let n = if len < 20 {
        20
    } else {
        len
    };
    Seq::new(
        n,
        |i: int|
            if i < t.len() {
                t[i]
            } else {
                0x2eu8
            },
    )
}

/// The payload of record `lsn` in a workload of payloads of `len` bytes.
pub fn record_payload(lsn: u64, len: usize) -> (payload: Vec<u8>)
    ensures
        payload@ == payload_of(lsn, len as nat),
{
    let n: usize = if len < 20 {
        20
    } else {
        len
    };
    let mut payload: Vec<u8> = record_tag(lsn, 16);
    payload.resize(n, 0x2e);
    assert(payload@ =~= payload_of(lsn, len as nat));
    payload
}

/// Whether `prefix` stands at the start of `bytes`.
fn starts_with(bytes: &[u8], prefix: &Vec<u8>) -> (b: bool)
    ensures
        b == prefix@.is_prefix_of(bytes@),
{
    if bytes.len() < prefix.len() {
        return false;
    }
    let mut i: usize = 0;
    while i < prefix.len()
        invariant
            i <= prefix@.len() <= bytes@.len(),
            forall|j: int| 0 <= j < i ==> bytes@[j] == prefix@[j],
        decreases prefix@.len() - i,
    {
        if bytes[i] != prefix[i] {
            assert(bytes@.subrange(0, prefix@.len() as int)[i as int] != prefix@[i as int]);
            return false;
        }
        i = i + 1;
    }
    assert(prefix@ =~= bytes@.subrange(0, prefix@.len() as int));
    true
}

/// A fault in a recovered log.
#[derive(Debug, Clone, Copy, PartialEq, Eq, Structural)]
pub enum Finding {
    /// A record is missing.
    NotDense {
        /// The LSN that was due.
        expected: u64,
        /// The LSN that came.
        got: u64,
    },
    /// A record that was reported does not have the payload that was written.
    WrongPayload {
        /// Its LSN.
        lsn: u64,
    },
    /// A record that was reported is not there.
    Lost {
        /// The last LSN that was reported.
        high_water: u64,
        /// The last LSN that is there.
        reached: u64,
    },
}

/// Checks the replay of a recovered log against what was reported.
#[derive(Debug, Clone, Copy)]
pub struct Verifier {
    /// The LSN that is due.
    pub expected: u64,
    /// The last LSN that was there.
    pub highest_seen: u64,
    /// The last LSN that was reported.
    pub high_water: u64,
}

/// What is wrong with record `lsn`, where `expected` is due.
pub open spec fn finding(v: Verifier, lsn: u64, payload: Seq<u8>) -> Option<Finding> {
    if lsn != v.expected {
        Some(Finding::NotDense { expected: v.expected, got: lsn })
    } else if lsn <= v.high_water && !tag(lsn, 16).is_prefix_of(payload) {
        Some(Finding::WrongPayload { lsn })
    } else {
        None
    }
}

impl Verifier {
    /// A verifier for a log whose oldest LSN is `oldest`.
    pub fn new(oldest: u64, high_water: u64) -> (v: Verifier)
        ensures
            v == (Verifier {
                expected: if oldest == 0 {
                    1
                } else {
                    oldest
                },
                highest_seen: 0,
                high_water,
            }),
    {
        Verifier {
            expected: if oldest == 0 {
                1
            } else {
                oldest
            },
            highest_seen: 0,
            high_water,
        }
    }

    /// Takes the next record of the replay.
    pub fn check(&mut self, lsn: u64, payload: &[u8]) -> (r: Result<(), Finding>)
        requires
            old(self).expected < u64::MAX,
        ensures
            match finding(*old(self), lsn, payload@) {
                Some(f) => r == Err::<(), Finding>(f) && *final(self) == *old(self),
                None => r is Ok && *final(self) == (Verifier {
                    expected: (lsn + 1) as u64,
                    highest_seen: lsn,
                    ..*old(self)
                }),
            },
    {
        if lsn != self.expected {
            return Err(Finding::NotDense { expected: self.expected, got: lsn });
        }
        if lsn <= self.high_water {
            let want: Vec<u8> = record_tag(lsn, 16);
            if !starts_with(payload, &want) {
                return Err(Finding::WrongPayload { lsn });
            }
        }
        self.highest_seen = lsn;
        self.expected = self.expected + 1;
        Ok(())
    }

    /// Takes the end of the replay. Records beyond those that were reported are in
    /// order.
    pub fn finish(&self) -> (r: Result<(), Finding>)
        ensures
            r == if self.highest_seen < self.high_water {
                Err(Finding::Lost { high_water: self.high_water, reached: self.highest_seen })
            } else {
                Ok::<(), Finding>(())
            },
    {
        if self.highest_seen < self.high_water {
            return Err(
                Finding::Lost { high_water: self.high_water, reached: self.highest_seen },
            );
        }
        Ok(())
    }
}

/// Where a workload stands.
#[derive(Debug, Clone, Copy)]
pub struct Workload {
    /// The LSN of the next record.
    pub next_lsn: u64,
    /// The last LSN to write, or zero for no end.
    pub total: u64,
    /// How many records go into a commit.
    pub batch: u64,
    /// How many records were appended since the last commit.
    pub since_commit: u64,
    /// How many reports were made.
    pub seq: u64,
}

impl Workload {
    /// A workload that goes on behind `durable`.
    pub fn resume(durable: u64, total: u64, batch: u64) -> (w: Workload)
        requires
            durable < u64::MAX,
        ensures
            w == (Workload {
                next_lsn: (durable + 1) as u64,
                total,
                batch,
                since_commit: 0,
                seq: 0,
            }),
    {
        Workload { next_lsn: durable + 1, total, batch, since_commit: 0, seq: 0 }
    }

    /// Whether a record is still to be written.
    pub fn wants_record(&self) -> (b: bool)
        ensures
            b == (self.total == 0 || self.next_lsn <= self.total),
    {
        self.total == 0 || self.next_lsn <= self.total
    }

    /// Takes note of a record that was appended, and says whether to commit now.
    pub fn appended(&mut self) -> (commit: bool)
        requires
            old(self).next_lsn < u64::MAX,
            old(self).since_commit < u64::MAX,
        ensures
            *final(self) == (Workload {
                next_lsn: (old(self).next_lsn + 1) as u64,
                since_commit: (old(self).since_commit + 1) as u64,
                ..*old(self)
            }),
            commit == (old(self).since_commit + 1 >= old(self).batch),
    {
        self.next_lsn = self.next_lsn + 1;
        self.since_commit = self.since_commit + 1;
        self.since_commit >= self.batch
    }

    /// Takes note of a commit, and gives the sequence number of its report. Nothing
    /// is reported before its commit has returned.
    pub fn committed(&mut self) -> (seq: u64)
        requires
            old(self).seq < u64::MAX,
        ensures
            *final(self) == (Workload {
                since_commit: 0,
                seq: (old(self).seq + 1) as u64,
                ..*old(self)
            }),
            seq == old(self).seq + 1,
    {
        self.since_commit = 0;
        self.seq = self.seq + 1;
        self.seq
    }

    /// Takes note of the last commit, up to `durable`, and gives the sequence number
    /// of its report, if there is one.
    pub fn closed(&mut self, durable: u64) -> (seq: Option<u64>)
        requires
            old(self).seq < u64::MAX,
        ensures
            if durable >= 1 {
                seq == Some((old(self).seq + 1) as u64) && *final(self) == (Workload {
                    since_commit: 0,
                    seq: (old(self).seq + 1) as u64,
                    ..*old(self)
                })
            } else {
                seq is None && *final(self) == *old(self)
            },
    {
        if durable >= 1 {
            Some(self.committed())
        } else {
            None
        }
    }

    /// Takes note of a record that was appended to a log that will be killed, and
    /// says whether to commit now: behind the very first record, so that the log is
    /// known to stand, and then by batches.
    pub fn appended_before_kill(&mut self) -> (commit: bool)
        requires
            old(self).next_lsn < u64::MAX,
            old(self).since_commit < u64::MAX,
        ensures
            *final(self) == (Workload {
                next_lsn: (old(self).next_lsn + 1) as u64,
                since_commit: (old(self).since_commit + 1) as u64,
                ..*old(self)
            }),
            commit == (old(self).next_lsn == 1 || old(self).since_commit + 1 == old(self).batch),
    {
        self.next_lsn = self.next_lsn + 1;
        self.since_commit = self.since_commit + 1;
        self.next_lsn == 2 || self.since_commit == self.batch
    }
}

/// Where reports go.
#[derive(Debug)]
pub enum SinkSpec {
    /// To a host and port.
    Tcp(String),
    /// To a file, synced after each line.
    File(String),
    /// To a character device.
    Serial(String),
    /// To the standard output.
    Stdout,
}

/// Whether `part` stands at the start of `s`.
pub open spec fn begins(s: Seq<char>, part: Seq<char>) -> bool {
    part.len() <= s.len() && s.take(part.len() as int) == part
}

/// Whether `s` starts with `part`.
fn has_prefix(s: &str, part: &str) -> (b: bool)
    ensures
        b == begins(s@, part@),
{
    let n: usize = part.unicode_len();
    if s.unicode_len() < n {
        return false;
    }
    let mut i: usize = 0;
    while i < n
        invariant
            i <= n,
            n == part@.len(),
            n <= s@.len(),
            forall|j: int| 0 <= j < i ==> s@[j] == part@[j],
        decreases n - i,
    {
        if s.get_char(i) != part.get_char(i) {
            assert(s@.take(n as int)[i as int] != part@[i as int]);
            return false;
        }
        i = i + 1;
    }
    assert(s@.take(n as int) =~= part@);
    true
}

/// What follows the first `n` characters of `s`.
fn rest_of(s: &str, n: usize) -> (r: String)
    requires
        n <= s@.len(),
    ensures
        r@ == s@.skip(n as int),
{
    let end: usize = s.unicode_len();
    assert(s@.subrange(n as int, end as int) =~= s@.skip(n as int));
    s.substring_char(n, end).to_owned()
}

/// Reads where reports go: `tcp:HOST:PORT`, `file:PATH`, `serial:PATH` or `stdout`.
pub fn parse_sink(spec_text: &str) -> (r: Option<SinkSpec>)
    ensures
        ({
            let s = spec_text@;
            if begins(s, "tcp:"@) {
                r matches Some(SinkSpec::Tcp(addr)) && addr@ == s.skip(4)
            } else if begins(s, "file:"@) {
                r matches Some(SinkSpec::File(path)) && path@ == s.skip(5)
            } else if begins(s, "serial:"@) {
                r matches Some(SinkSpec::Serial(path)) && path@ == s.skip(7)
            } else if s == "stdout"@ {
                r matches Some(SinkSpec::Stdout)
            } else {
                r is None
            }
        }),
{
    proof {
        reveal_strlit("tcp:");
        reveal_strlit("file:");
        reveal_strlit("serial:");
        reveal_strlit("stdout");
    }
    if has_prefix(spec_text, "tcp:") {
        return Some(SinkSpec::Tcp(rest_of(spec_text, 4)));
    }
    if has_prefix(spec_text, "file:") {
        return Some(SinkSpec::File(rest_of(spec_text, 5)));
    }
    if has_prefix(spec_text, "serial:") {
        return Some(SinkSpec::Serial(rest_of(spec_text, 7)));
    }
    if has_prefix(spec_text, "stdout") && spec_text.unicode_len() == 6 {
        assert(spec_text@.take(6) =~= spec_text@);
        return Some(SinkSpec::Stdout);
    }
    proof {
        if spec_text@ == "stdout"@ {
            assert(spec_text@.take(6) =~= spec_text@);
        }
    }
    None
}

/// The configuration of a harness: its defaults, each replaced by a setting that is
/// a number in range.
pub fn wal_config(
    segment_size: Option<&str>,
    max_record_size: Option<&str>,
    defaults: WalConfig,
) -> (c: WalConfig)
    ensures
        c.segment_size == match segment_size {
            Some(text) => match number_in(text@) {
                Some(n) => n,
                None => defaults.segment_size,
            },
            None => defaults.segment_size,
        },
        c.max_record_size == match max_record_size {
            Some(text) => match number_in(text@) {
                Some(n) => if n <= u32::MAX {
                    n as u32
                } else {
                    defaults.max_record_size
                },
                None => defaults.max_record_size,
            },
            None => defaults.max_record_size,
        },
{
    let size: u64 = match segment_size {
        Some(text) => match parse_number(text) {
            Some(n) => n,
            None => defaults.segment_size,
        },
        None => defaults.segment_size,
    };
    let max: u32 = match max_record_size {
        Some(text) => match parse_number(text) {
            Some(n) => if n <= u32::MAX as u64 {
                n as u32
            } else {
                defaults.max_record_size
            },
            None => defaults.max_record_size,
        },
        None => defaults.max_record_size,
    };
    WalConfig { segment_size: size, max_record_size: max }
}

/// Whether a name ends in `.wal`.
pub open spec fn is_wal_name(name: Seq<char>) -> bool {
    name.len() >= 4 && name.skip(name.len() - 4) == ".wal"@
}

/// How many of `names` end in `.wal`.
pub open spec fn wal_names(names: Seq<String>) -> nat
    decreases names.len(),
{
    if names.len() == 0 {
        0
    } else {
        wal_names(names.drop_last()) + if is_wal_name(names.last()@) {
            1nat
        } else {
            0nat
        }
    }
}

/// Counts the names that end in `.wal`. The number grows when a commit rolls.
pub fn count_segments(names: &Vec<String>) -> (n: usize)
    ensures
        n == wal_names(names@),
{
    let mut n: usize = 0;
    let mut i: usize = 0;
    assert(names@.take(0) =~= seq![]);
    while i < names.len()
        invariant
            i <= names@.len(),
            n <= i,
            n == wal_names(names@.take(i as int)),
        decreases names@.len() - i,
    {
        assert(names@.take(i + 1).drop_last() =~= names@.take(i as int));
        let name = names[i].as_str();
        let len: usize = name.unicode_len();
        proof {
            reveal_strlit(".wal");
            if len >= 4 {
                let end = name@.skip(len - 4);
                assert(end[0] == name@[len - 4] && end[1] == name@[len - 3] && end[2] == name@[len
                    - 2] && end[3] == name@[len - 1]);
                if end[0] == '.' && end[1] == 'w' && end[2] == 'a' && end[3] == 'l' {
                    assert(end =~= ".wal"@);
                }
            }
        }
        if len >= 4 && name.get_char(len - 4) == '.' && name.get_char(len - 3) == 'w'
            && name.get_char(len - 2) == 'a' && name.get_char(len - 1) == 'l' {
            n = n + 1;
        }
        i = i + 1;
    }
    assert(names@.take(i as int) =~= names@);
    n
}

/// What became of a marker that was written without a sync, after a power cut.
#[derive(Debug, Clone, Copy, PartialEq, Eq, Structural)]
pub enum Marker {
    /// It is still there.
    Survived,
    /// It is gone.
    Gone,
    /// It cannot be told.
    Unknown,
}

/// The exit code of the storage probe. Only a marker that is gone shows that the
/// storage loses what was not synced.
pub fn marker_exit_code(marker: Marker) -> (code: u8)
    ensures
        code == match marker {
            Marker::Gone => 0u8,
            Marker::Survived => 1u8,
            Marker::Unknown => 2u8,
        },
{
    match marker {
        Marker::Gone => 0,
        Marker::Survived => 1,
        Marker::Unknown => 2,
    }
}

/// Digits of a decimal number, and what they stand for.
proof fn lemma_decimal(n: nat)
    ensures
        decimal(n).len() >= 1,
        forall|i: int| 0 <= i < decimal(n).len() ==> is_digit(#[trigger] decimal(n)[i]),
        digits_value(decimal(n)) == n,
    decreases n,
{
    if n >= 10 {
        lemma_decimal(n / 10);
        assert(decimal(n).drop_last() =~= decimal(n / 10));
    } else {
        let d = decimal(n);
        assert(d.drop_last() =~= seq![]);
        assert(digits_value(d.drop_last()) == 0);
    }
}

/// A decimal number reads back, with or without white space allowed around it.
proof fn lemma_number_in_decimal(n: u64)
    ensures
        number_in(trimmed(decimal(n as nat))) == Some(n),
{
    let d = decimal(n as nat);
    lemma_decimal(n as nat);
    assert(is_digit(d[0]) && is_digit(d[d.len() - 1]));
    assert(trimmed(d) == d);
}

/// The first comma behind text without one.
pub proof fn lemma_comma_behind(a: Seq<char>, b: Seq<char>)
    requires
        forall|i: int| 0 <= i < a.len() ==> a[i] != ',',
        b.len() > 0 && b[0] == ',',
    ensures
        comma_in(a + b) == a.len(),
    decreases a.len(),
{
    if a.len() > 0 {
        assert((a + b).skip(1) =~= a.skip(1) + b);
        lemma_comma_behind(a.skip(1), b);
    } else {
        assert(a + b =~= b);
    }
}

/// A report reads back as it was written.
pub proof fn law_report_reads_back(seq: u64, lsn: u64)
    ensures
        ack_in(ack_text(seq, lsn).drop_last()) == Some((seq, lsn)),
{
    reveal_strlit(",");
    reveal_strlit("\n");
    let (a, b) = (decimal(seq as nat), decimal(lsn as nat));
    let line = ack_text(seq, lsn).drop_last();
    let tail = ","@ + b;
    assert(line =~= a + tail);
    lemma_decimal(seq as nat);
    lemma_decimal(lsn as nat);
    assert forall|i: int| 0 <= i < a.len() implies a[i] != ',' by {
        assert(is_digit(a[i]));
    }
    lemma_comma_behind(a, tail);
    assert(line.take(a.len() as int) =~= a);
    assert(line.skip(a.len() as int + 1) =~= b);
    lemma_number_in_decimal(seq);
    lemma_number_in_decimal(lsn);
}

/// The verifier behind records that all passed, or `None` where one did not.
pub open spec fn audited(v: Verifier, records: Seq<(u64, Seq<u8>)>) -> Option<Verifier>
    decreases records.len(),
{
    if records.len() == 0 {
        Some(v)
    } else {
        let (lsn, payload) = records.last();
        match audited(v, records.drop_last()) {
            Some(w) => if finding(w, lsn, payload) is None {
                Some(Verifier { expected: (lsn + 1) as u64, highest_seen: lsn, ..w })
            } else {
                None
            },
            None => None,
        }
    }
}

/// What records that passed are.
proof fn lemma_audited(v: Verifier, records: Seq<(u64, Seq<u8>)>)
    requires
        v.expected + records.len() <= u64::MAX,
        audited(v, records) is Some,
    ensures
        ({
            let w = audited(v, records)->0;
            &&& w.high_water == v.high_water
            &&& w.expected == v.expected + records.len()
            &&& records.len() > 0 ==> w.highest_seen == v.expected + records.len() - 1
            &&& records.len() == 0 ==> w == v
        }),
        forall|i: int|
            0 <= i < records.len() ==> {
                &&& (#[trigger] records[i]).0 == v.expected + i
                &&& records[i].0 <= v.high_water ==> tag(records[i].0, 16).is_prefix_of(
                    records[i].1,
                )
            },
    decreases records.len(),
{
    if records.len() > 0 {
        let before = records.drop_last();
        lemma_audited(v, before);
        assert forall|i: int| 0 <= i < records.len() implies {
            &&& (#[trigger] records[i]).0 == v.expected + i
            &&& records[i].0 <= v.high_water ==> tag(records[i].0, 16).is_prefix_of(records[i].1)
        } by {
            if i < before.len() {
                assert(before[i] == records[i]);
            }
        }
    }
}

/// A log that passes has lost nothing: where every record of the replay passed and
/// so did its end, each reported LSN from the oldest on is there, in order, with the
/// payload that was written.
pub proof fn law_passing_log_has_every_report(
    oldest: u64,
    high_water: u64,
    records: Seq<(u64, Seq<u8>)>,
)
    requires
        1 <= oldest,
        oldest + records.len() <= u64::MAX,
        ({
            let v = Verifier { expected: oldest, highest_seen: 0, high_water };
            audited(v, records) matches Some(w) && w.highest_seen >= w.high_water
        }),
    ensures
        forall|lsn: u64|
            oldest <= lsn <= high_water ==> {
                &&& lsn - oldest < records.len()
                &&& records[lsn - oldest].0 == lsn
                &&& (#[trigger] tag(lsn, 16)).is_prefix_of(records[lsn - oldest].1)
            },
{
    let v = Verifier { expected: oldest, highest_seen: 0, high_water };
    lemma_audited(v, records);
    assert forall|lsn: u64| oldest <= lsn <= high_water implies {
        &&& lsn - oldest < records.len()
        &&& records[lsn - oldest].0 == lsn
        &&& (#[trigger] tag(lsn, 16)).is_prefix_of(records[lsn - oldest].1)
    } by {
        let i = lsn - oldest;
        assert(records[i].0 == oldest + i);
    }
}

} // verus!
