//! The handle over a directory in memory.

use std::cell::RefCell;
use std::collections::BTreeMap;
use std::rc::Rc;

use open_wal::crc32c;
use open_wal::fuzzing::scan_bound;
use open_wal::record::encode_into;
use open_wal::recovery::ScanProbe;
use open_wal::segment::encode_header;
use open_wal::segment::filename_for;
use open_wal::segment::parse_base_lsn;
use open_wal::wal::deletable_prefix_len;
use open_wal::CheckpointAction;
use open_wal::CheckpointEvent;
use open_wal::CommitAction;
use open_wal::CommitEvent;
use open_wal::DurabilityObserver;
use open_wal::Lsn;
use open_wal::NullObserver;
use open_wal::OpenAction;
use open_wal::OpenReply;
use open_wal::RecoveryReport;
use open_wal::Replay;
use open_wal::TailState;
use open_wal::Wal;
use open_wal::WalConfig;
use open_wal::WalError;

const SEGMENT_SIZE: u64 = 64 * 1024;
const HEADER_SIZE: u64 = 64;

/// What fails next in a directory.
#[derive(Clone, Copy, PartialEq)]
enum Fault {
    Write,
    Sync,
    Create,
    Unlink,
    SyncDir,
}

/// A directory in memory.
#[derive(Default)]
struct Files {
    files: BTreeMap<String, Vec<u8>>,
    locked: bool,
    faults: Vec<(usize, Fault)>,
    /// How many operations of each kind were done.
    done: BTreeMap<&'static str, usize>,
    /// The segments that were written or zeroed.
    touched: Vec<u64>,
}

#[derive(Clone, Default)]
struct Dir(Rc<RefCell<Files>>);

impl Dir {
    fn has(&self, base: u64) -> bool {
        self.0.borrow().files.contains_key(&filename_for(Lsn(base)))
    }

    fn read(&self, base: u64) -> Vec<u8> {
        self.0.borrow().files[&filename_for(Lsn(base))].clone()
    }

    fn put(&self, base: u64, bytes: Vec<u8>) {
        self.0.borrow_mut().files.insert(filename_for(Lsn(base)), bytes);
    }

    fn remove(&self, base: u64) {
        self.0.borrow_mut().files.remove(&filename_for(Lsn(base)));
    }

    fn flip(&self, base: u64, offset: u64) {
        let mut f = self.read(base);
        f[offset as usize] ^= 0xFF;
        self.put(base, f);
    }

    fn truncate(&self, base: u64, len: u64) {
        let mut f = self.read(base);
        f.truncate(len as usize);
        self.put(base, f);
    }

    fn bases(&self) -> Vec<u64> {
        self.0.borrow().files.keys().filter_map(|n| parse_base_lsn(n)).collect()
    }

    /// Lets the operation of this kind fail that comes after `after` others of it.
    fn fail(&self, after: usize, fault: Fault) {
        self.0.borrow_mut().faults.push((after, fault));
    }

    fn op(&self, kind: Fault, name: &'static str) -> Result<(), std::io::Error> {
        let mut d = self.0.borrow_mut();
        *d.done.entry(name).or_insert(0) += 1;
        let mut failed = false;
        for f in d.faults.iter_mut() {
            if f.1 == kind {
                if f.0 == 0 {
                    failed = true;
                } else {
                    f.0 -= 1;
                }
            }
        }
        if failed {
            Err(std::io::Error::other("injected"))
        } else {
            Ok(())
        }
    }

    fn count(&self, name: &'static str) -> usize {
        self.0.borrow().done.get(name).copied().unwrap_or(0)
    }

    fn create(&self, base: Lsn, size: u64) -> Result<(), std::io::Error> {
        self.op(Fault::Create, "create")?;
        assert!(!self.has(base.0), "a segment is never made twice");
        let mut f = encode_header(base, 42);
        f.resize(size as usize, 0);
        self.put(base.0, f);
        Ok(())
    }

    fn write(&self, base: Lsn, offset: u64, bytes: &[u8]) -> Result<(), std::io::Error> {
        self.op(Fault::Write, "write")?;
        let mut f = self.read(base.0);
        let at = offset as usize;
        assert!(at + bytes.len() <= f.len(), "a write stays within its segment");
        f[at..at + bytes.len()].copy_from_slice(bytes);
        self.put(base.0, f);
        self.0.borrow_mut().touched.push(base.0);
        Ok(())
    }
}

/// A log in a directory in memory.
struct Log<O: DurabilityObserver = NullObserver> {
    dir: Dir,
    wal: Wal<O>,
}

impl<O: DurabilityObserver> Drop for Log<O> {
    fn drop(&mut self) {
        self.dir.0.borrow_mut().locked = false;
    }
}

fn open(dir: &Dir, config: WalConfig) -> Result<(Log, RecoveryReport), WalError> {
    open_with(dir, config, NullObserver)
}

fn open_with<O: DurabilityObserver>(
    dir: &Dir,
    config: WalConfig,
    observer: O,
) -> Result<(Log<O>, RecoveryReport), WalError> {
    let mut probe = ScanProbe::new();
    let mut opening = Wal::open_with(config, observer)?;
    let mut held = false;
    loop {
        let reply = match opening.action() {
            OpenAction::Lock => {
                let mut d = dir.0.borrow_mut();
                if d.locked {
                    OpenReply::Busy
                } else {
                    d.locked = true;
                    held = true;
                    OpenReply::Done
                }
            }
            OpenAction::List => {
                let mut names: Vec<String> = dir.0.borrow().files.keys().cloned().collect();
                names.push("LOCK".to_owned());
                // No order may be relied on.
                names.reverse();
                OpenReply::Names(names)
            }
            OpenAction::Read(base) => OpenReply::File(dir.read(base.0)),
            OpenAction::Remove(base) => {
                dir.remove(base.0);
                OpenReply::Done
            }
            OpenAction::Create(base) => match dir.create(base, config.segment_size) {
                Ok(()) => OpenReply::Done,
                Err(e) => OpenReply::Failed(e),
            },
            OpenAction::Zero { segment, from } => {
                if let Err(e) = dir.op(Fault::Write, "zero") {
                    OpenReply::Failed(e)
                } else if dir.op(Fault::Sync, "sync").is_err() {
                    OpenReply::SyncFailed
                } else {
                    let mut f = dir.read(segment.0);
                    f.truncate(from as usize);
                    f.resize(config.segment_size as usize, 0);
                    dir.put(segment.0, f);
                    dir.0.borrow_mut().touched.push(segment.0);
                    OpenReply::Done
                }
            }
            OpenAction::Finish => {
                let (wal, report) = opening.finish().expect("ready");
                return Ok((Log { dir: dir.clone(), wal }, report));
            }
        };
        let next = opening.advance_probed(reply, &mut probe);
        assert!(probe.peak <= scan_bound(config.max_record_size));
        opening = match next {
            Ok(o) => o,
            Err(e) => {
                if held {
                    dir.0.borrow_mut().locked = false;
                }
                return Err(e);
            }
        };
    }
}

impl<O: DurabilityObserver> Log<O> {
    fn append(&mut self, payload: &[u8]) -> Result<Lsn, WalError> {
        self.wal.append(payload)
    }

    fn commit(&mut self) -> Result<Lsn, WalError> {
        let size = self.wal.config().segment_size;
        let mut action = self.wal.commit()?;
        loop {
            let event = match action {
                CommitAction::Done(lsn) => return Ok(lsn),
                CommitAction::Write { segment, offset } => {
                    match self.dir.write(segment, offset, self.wal.due_bytes()) {
                        Err(e) => CommitEvent::WriteFailed(e),
                        Ok(()) => match self.dir.op(Fault::Sync, "sync") {
                            Err(_) => CommitEvent::SyncFailed,
                            Ok(()) => CommitEvent::Synced,
                        },
                    }
                }
                CommitAction::Roll(base) => {
                    match self
                        .dir
                        .create(base, size)
                        .and_then(|()| self.dir.op(Fault::SyncDir, "syncdir"))
                    {
                        Ok(()) => CommitEvent::Rolled,
                        Err(e) => CommitEvent::RollFailed(e),
                    }
                }
            };
            action = self.wal.commit_step(event)?;
        }
    }

    fn checkpoint(&mut self, up_to: Lsn) -> Result<(), WalError> {
        let mut action = self.wal.checkpoint(up_to)?;
        loop {
            let event = match action {
                CheckpointAction::Done => return Ok(()),
                CheckpointAction::Unlink(base) => match self.dir.op(Fault::Unlink, "unlink") {
                    Err(e) => CheckpointEvent::Failed(e),
                    Ok(()) => {
                        if self.dir.has(base.0) {
                            self.dir.remove(base.0);
                            CheckpointEvent::Unlinked
                        } else {
                            CheckpointEvent::Missing
                        }
                    }
                },
                CheckpointAction::SyncDir => match self.dir.op(Fault::SyncDir, "syncdir") {
                    Err(e) => CheckpointEvent::Failed(e),
                    Ok(()) => CheckpointEvent::Synced,
                },
            };
            action = self.wal.checkpoint_step(event)?;
        }
    }

    fn collect_from(&self, from: Lsn) -> Result<Vec<(Lsn, Vec<u8>)>, WalError> {
        let mut reader = self.wal.reader_from(from)?;
        let mut out = Vec::new();
        let mut file = self.dir.read(reader.segment().0);
        while let Some(item) = reader.next(Ok(&file)) {
            match item? {
                Replay::Record(lsn, payload) => out.push((lsn, payload.to_vec())),
                Replay::Segment(base) => {
                    assert_eq!(base, reader.segment());
                    file = self.dir.read(base.0);
                }
            }
        }
        // The end stays the end.
        assert!(reader.next(Ok(&file)).is_none());
        Ok(out)
    }

    fn lsns_from(&self, from: Lsn) -> Vec<u64> {
        self.collect_from(from).unwrap().iter().map(|r| r.0 .0).collect()
    }

    fn durable_lsn(&self) -> Lsn {
        self.wal.durable_lsn()
    }

    fn last_lsn(&self) -> Lsn {
        self.wal.last_lsn()
    }

    fn segments(&self) -> Vec<Lsn> {
        self.wal.segments().to_vec()
    }
}

fn cfg() -> WalConfig {
    WalConfig { segment_size: 64 * 1024, max_record_size: 4096 }
}

fn tiny_cfg() -> WalConfig {
    WalConfig { segment_size: 512, max_record_size: 256 }
}

fn tmp() -> Dir {
    Dir::default()
}

/// A segment at `base` with `payloads` as dense records.
fn fab_segment(dir: &Dir, base: Lsn, payloads: &[&[u8]]) {
    let mut f = encode_header(base, 1);
    let mut lsn = base;
    for p in payloads {
        encode_into(&mut f, lsn, p);
        lsn = lsn.next();
    }
    f.resize(cfg().segment_size as usize, 0);
    dir.put(base.0, f);
}

fn clobber_header(dir: &Dir, base: Lsn) {
    let mut f = dir.read(base.0);
    f[..8].copy_from_slice(&[0xFF; 8]);
    dir.put(base.0, f);
}

fn one(lsn: u64, payload: &[u8]) -> (Lsn, Vec<u8>) {
    (Lsn(lsn), payload.to_vec())
}

fn framed(len: usize) -> u64 {
    let pad = (8 - ((20 + len) % 8)) % 8;
    (20 + len + pad) as u64
}

fn offset_of(payloads: &[&[u8]], i: usize) -> u64 {
    HEADER_SIZE + payloads[..i].iter().map(|p| framed(p.len())).sum::<u64>()
}

fn write_clean(dir: &Dir, payloads: &[&[u8]]) {
    let (mut wal, _) = open(dir, cfg()).unwrap();
    for p in payloads {
        wal.append(p).unwrap();
    }
    wal.commit().unwrap();
}

fn read_range(dir: &Dir, from: u64, to: u64) -> Vec<u8> {
    dir.read(1)[from as usize..to as usize].to_vec()
}

fn replay<O: DurabilityObserver>(wal: &Log<O>) -> Vec<Vec<u8>> {
    let mut out = Vec::new();
    for (i, (lsn, payload)) in wal.collect_from(Lsn(0)).unwrap().into_iter().enumerate() {
        assert_eq!(lsn, Lsn(i as u64 + 1), "recovered LSNs must be dense from 1");
        out.push(payload);
    }
    out
}

fn open_err(dir: &Dir) -> WalError {
    match open(dir, cfg()) {
        Ok(_) => panic!("expected recovery to fail, but open() succeeded"),
        Err(e) => e,
    }
}

#[test]
fn open_rejects_config_violating_section_5_3() {
    let dir = tmp();
    let bad = WalConfig { segment_size: 100, max_record_size: 100 };
    assert!(matches!(open(&dir, bad), Err(WalError::InvalidConfig)));

    for tiny in [
        WalConfig { segment_size: 90, max_record_size: 0 },
        WalConfig { segment_size: 0, max_record_size: 0 },
    ] {
        assert!(matches!(open(&dir, tiny), Err(WalError::InvalidConfig)));
    }
}

#[test]
fn cold_start_creates_first_segment() {
    let dir = tmp();
    let (wal, report) = open(&dir, cfg()).unwrap();
    assert_eq!(report.oldest_lsn, Lsn(1));
    assert_eq!(report.durable_lsn, Lsn(0));
    assert_eq!(report.tail_state, TailState::Clean);
    assert_eq!(wal.last_lsn(), Lsn(0));
    assert!(dir.0.borrow().files.contains_key("00000000000000000001.wal"));
}

#[test]
fn lsn_assignment_is_monotone_dense_from_one() {
    let dir = tmp();
    let (mut wal, _) = open(&dir, cfg()).unwrap();
    assert_eq!(wal.append(b"a").unwrap(), Lsn(1));
    assert_eq!(wal.append(b"b").unwrap(), Lsn(2));
    assert_eq!(wal.append(b"c").unwrap(), Lsn(3));
    assert_eq!(wal.last_lsn(), Lsn(3));
    assert_eq!(wal.durable_lsn(), Lsn(0));
}

#[test]
fn append_rejects_oversized_payload() {
    let dir = tmp();
    let (mut wal, _) = open(&dir, cfg()).unwrap();
    let too_big = vec![0u8; cfg().max_record_size as usize + 1];
    assert!(matches!(wal.append(&too_big), Err(WalError::RecordTooLarge)));
    let max = vec![0u8; cfg().max_record_size as usize];
    assert!(wal.append(&max).is_ok());
}

#[test]
fn max_sized_record_fits_segment_and_round_trips() {
    let dir = tmp();
    let c = WalConfig { segment_size: 8 * 1024, max_record_size: 8 * 1024 - 91 };
    let (mut wal, _) = open(&dir, c).unwrap();
    let payload = vec![0xABu8; c.max_record_size as usize];
    wal.append(&payload).unwrap();
    assert_eq!(wal.commit().unwrap(), Lsn(1));

    assert_eq!(wal.collect_from(Lsn(1)).unwrap(), vec![(Lsn(1), payload)]);
}

#[test]
fn commit_then_read_back() {
    let dir = tmp();
    let (mut wal, _) = open(&dir, cfg()).unwrap();
    wal.append(b"hello").unwrap();
    wal.append(b"world").unwrap();
    assert_eq!(wal.commit().unwrap(), Lsn(2));
    assert_eq!(wal.durable_lsn(), Lsn(2));

    assert_eq!(
        wal.collect_from(Lsn(1)).unwrap(),
        vec![one(1, b"hello"), one(2, b"world")]
    );
}

#[test]
fn empty_commit_is_a_noop() {
    let dir = tmp();
    let (mut wal, _) = open(&dir, cfg()).unwrap();
    assert_eq!(wal.commit().unwrap(), Lsn(0));
    assert_eq!(dir.count("write"), 0);
}

#[test]
fn reopen_recovers_committed_records() {
    let dir = tmp();
    {
        let (mut wal, _) = open(&dir, cfg()).unwrap();
        wal.append(b"one").unwrap();
        wal.append(b"two").unwrap();
        wal.commit().unwrap();
    }
    let (wal, report) = open(&dir, cfg()).unwrap();
    assert_eq!(report.durable_lsn, Lsn(2));
    assert_eq!(report.oldest_lsn, Lsn(1));
    assert_eq!(wal.last_lsn(), Lsn(2));

    assert_eq!(
        wal.collect_from(Lsn(1)).unwrap(),
        vec![one(1, b"one"), one(2, b"two")]
    );
}

#[test]
fn append_after_reopen_resumes_write_offset() {
    let dir = tmp();
    {
        let (mut wal, _) = open(&dir, cfg()).unwrap();
        wal.append(b"a").unwrap();
        wal.append(b"b").unwrap();
        wal.append(b"c").unwrap();
        wal.commit().unwrap();
    }
    {
        let (mut wal, report) = open(&dir, cfg()).unwrap();
        assert_eq!(report.durable_lsn, Lsn(3));
        assert_eq!(wal.append(b"d").unwrap(), Lsn(4));
        assert_eq!(wal.append(b"e").unwrap(), Lsn(5));
        assert_eq!(wal.commit().unwrap(), Lsn(5));
    }
    let (wal, report) = open(&dir, cfg()).unwrap();
    assert_eq!(report.durable_lsn, Lsn(5));
    assert_eq!(
        wal.collect_from(Lsn(0)).unwrap(),
        vec![one(1, b"a"), one(2, b"b"), one(3, b"c"), one(4, b"d"), one(5, b"e")]
    );
}

#[test]
fn commit_splits_batch_across_segments_on_whole_records() {
    let dir = tmp();
    let (mut wal, _) = open(&dir, tiny_cfg()).unwrap();
    let payload = vec![0xCDu8; 200];
    for _ in 0..5 {
        wal.append(&payload).unwrap();
    }
    assert_eq!(wal.commit().unwrap(), Lsn(5));
    assert_eq!(wal.durable_lsn(), Lsn(5));
    assert_eq!(wal.segments(), vec![Lsn(1), Lsn(3), Lsn(5)]);
    for b in [1u64, 3, 5] {
        assert!(dir.has(b), "segment {b} should exist");
    }
    let want: Vec<_> = (1..=5).map(|i| one(i, &payload)).collect();
    assert_eq!(wal.collect_from(Lsn(0)).unwrap(), want);
}

struct Rec(Rc<RefCell<Vec<u64>>>);

impl DurabilityObserver for Rec {
    fn on_durable(&mut self, lsn: Lsn) {
        self.0.borrow_mut().push(lsn.0);
    }
}

#[test]
fn commit_split_advances_durable_lsn_per_segment() {
    let dir = tmp();
    let seen = Rc::new(RefCell::new(Vec::new()));
    let (mut wal, _) = open_with(&dir, tiny_cfg(), Rec(seen.clone())).unwrap();
    for _ in 0..5 {
        wal.append(&[0u8; 200]).unwrap();
    }
    assert_eq!(wal.commit().unwrap(), Lsn(5));
    assert_eq!(*seen.borrow(), vec![2, 4, 5]);
}

#[test]
fn commit_handles_empty_prefix_seal_and_roll() {
    let dir = tmp();
    let (mut wal, _) = open(&dir, tiny_cfg()).unwrap();
    wal.append(&[0u8; 200]).unwrap();
    assert_eq!(wal.commit().unwrap(), Lsn(1));
    wal.append(&[1u8; 256]).unwrap();
    assert_eq!(wal.commit().unwrap(), Lsn(2));
    assert_eq!(wal.segments(), vec![Lsn(1), Lsn(2)]);
    assert_eq!(wal.collect_from(Lsn(2)).unwrap(), vec![one(2, &[1u8; 256])]);
}

#[test]
fn append_after_reopen_resumes_across_a_roll() {
    let dir = tmp();
    let payload = vec![7u8; 200];
    {
        let (mut wal, _) = open(&dir, tiny_cfg()).unwrap();
        for _ in 0..3 {
            wal.append(&payload).unwrap();
        }
        assert_eq!(wal.commit().unwrap(), Lsn(3));
    }
    {
        let (mut wal, report) = open(&dir, tiny_cfg()).unwrap();
        assert_eq!(report.durable_lsn, Lsn(3));
        for _ in 0..2 {
            wal.append(&payload).unwrap();
        }
        assert_eq!(wal.commit().unwrap(), Lsn(5));
    }
    let (wal, report) = open(&dir, tiny_cfg()).unwrap();
    assert_eq!(report.durable_lsn, Lsn(5));
    assert_eq!(wal.segments(), vec![Lsn(1), Lsn(3), Lsn(5)]);
    assert_eq!(wal.lsns_from(Lsn(0)), vec![1, 2, 3, 4, 5]);
}

#[test]
fn recover_multi_segment_clean_roundtrip() {
    let dir = tmp();
    fab_segment(&dir, Lsn(1), &[b"a", b"b"]);
    fab_segment(&dir, Lsn(3), &[b"c"]);
    let (wal, report) = open(&dir, cfg()).unwrap();
    assert_eq!(report.oldest_lsn, Lsn(1));
    assert_eq!(report.durable_lsn, Lsn(3));
    assert_eq!(report.segments_scanned, 2);
    assert_eq!(
        wal.collect_from(Lsn(0)).unwrap(),
        vec![one(1, b"a"), one(2, b"b"), one(3, b"c")]
    );
}

#[test]
fn recover_is_idempotent_across_repeated_open() {
    let dir = tmp();
    fab_segment(&dir, Lsn(1), &[b"a", b"b"]);
    fab_segment(&dir, Lsn(3), &[b"c", b"d"]);
    for _ in 0..3 {
        let (wal, report) = open(&dir, cfg()).unwrap();
        assert_eq!(report.oldest_lsn, Lsn(1));
        assert_eq!(report.durable_lsn, Lsn(4));
        assert_eq!(wal.segments(), vec![Lsn(1), Lsn(3)]);
    }
}

#[test]
fn recover_cross_segment_gap_is_contiguity_violation() {
    let dir = tmp();
    fab_segment(&dir, Lsn(1), &[b"a", b"b"]);
    fab_segment(&dir, Lsn(5), &[b"c"]);
    assert!(matches!(open(&dir, cfg()), Err(WalError::ContiguityViolation)));
}

#[test]
fn recover_empty_sealed_segment_is_contiguity_violation() {
    let dir = tmp();
    fab_segment(&dir, Lsn(1), &[b"a"]);
    fab_segment(&dir, Lsn(2), &[]);
    fab_segment(&dir, Lsn(3), &[b"c"]);
    assert!(matches!(open(&dir, cfg()), Err(WalError::ContiguityViolation)));
}

#[test]
fn recover_empty_active_segment_yields_base_minus_one() {
    let dir = tmp();
    fab_segment(&dir, Lsn(1), &[b"a", b"b"]);
    fab_segment(&dir, Lsn(3), &[]);
    let (wal, report) = open(&dir, cfg()).unwrap();
    assert_eq!(report.oldest_lsn, Lsn(1));
    assert_eq!(report.durable_lsn, Lsn(2));
    assert_eq!(report.tail_state, TailState::Clean);
    assert_eq!(wal.segments(), vec![Lsn(1), Lsn(3)]);
    assert_eq!(wal.lsns_from(Lsn(0)), vec![1, 2]);
}

#[test]
fn recover_discards_incomplete_highest_base_file() {
    let dir = tmp();
    fab_segment(&dir, Lsn(1), &[b"a", b"b"]);
    dir.create(Lsn(3), cfg().segment_size).unwrap();
    clobber_header(&dir, Lsn(3));
    let (wal, report) = open(&dir, cfg()).unwrap();
    assert_eq!(report.durable_lsn, Lsn(2));
    assert_eq!(wal.segments(), vec![Lsn(1)]);
    assert!(!dir.has(3), "the incomplete highest-base file must be unlinked");
}

#[test]
fn recover_incomplete_sole_segment_cold_starts() {
    let dir = tmp();
    dir.create(Lsn(1), cfg().segment_size).unwrap();
    clobber_header(&dir, Lsn(1));
    let (wal, report) = open(&dir, cfg()).unwrap();
    assert_eq!(report.oldest_lsn, Lsn(1));
    assert_eq!(report.durable_lsn, Lsn(0));
    assert_eq!(wal.segments(), vec![Lsn(1)]);
}

#[test]
fn recover_corrupt_header_on_populated_highest_is_fatal() {
    let dir = tmp();
    fab_segment(&dir, Lsn(1), &[b"a", b"b"]);
    fab_segment(&dir, Lsn(3), &[b"c"]);
    clobber_header(&dir, Lsn(3));
    assert!(matches!(open(&dir, cfg()), Err(WalError::BadSegmentHeader)));
}

#[test]
fn recover_corrupt_header_on_sealed_segment_is_fatal() {
    let dir = tmp();
    fab_segment(&dir, Lsn(1), &[b"a", b"b"]);
    fab_segment(&dir, Lsn(3), &[b"c"]);
    clobber_header(&dir, Lsn(1));
    assert!(matches!(open(&dir, cfg()), Err(WalError::BadSegmentHeader)));
}

#[test]
fn recover_missing_prefix_is_accepted_silently() {
    let dir = tmp();
    fab_segment(&dir, Lsn(5), &[b"e", b"f"]);
    let (wal, report) = open(&dir, cfg()).unwrap();
    assert_eq!(report.oldest_lsn, Lsn(5));
    assert_eq!(report.durable_lsn, Lsn(6));
    assert!(matches!(
        wal.wal.reader_from(Lsn(4)),
        Err(WalError::ContiguityViolation)
    ));
    assert_eq!(
        wal.collect_from(Lsn(5)).unwrap(),
        vec![one(5, b"e"), one(6, b"f")]
    );
}

#[test]
fn second_open_is_locked() {
    let dir = tmp();
    let (_held, _) = open(&dir, cfg()).unwrap();
    assert!(matches!(open(&dir, cfg()), Err(WalError::Locked)));
}

#[test]
fn handle_is_send() {
    fn assert_send<T: Send>() {}
    assert_send::<Wal<NullObserver>>();
}

#[test]
fn reader_from_skips_earlier_records() {
    let dir = tmp();
    let (mut wal, _) = open(&dir, cfg()).unwrap();
    for i in 1..=5u8 {
        wal.append(&[i]).unwrap();
    }
    wal.commit().unwrap();
    assert_eq!(
        wal.collect_from(Lsn(3)).unwrap(),
        vec![one(3, &[3]), one(4, &[4]), one(5, &[5])]
    );
}

#[test]
fn deletable_prefix_len_boundary_math() {
    let bases = [Lsn(1), Lsn(3), Lsn(6)];
    let cases: &[(u64, usize)] = &[
        (0, 0),
        (1, 0),
        (2, 1),
        (3, 1),
        (4, 1),
        (5, 2),
        (6, 2),
        (1000, 2),
    ];
    for &(up_to, want) in cases {
        assert_eq!(
            deletable_prefix_len(&bases, Lsn(up_to)),
            want,
            "up_to={up_to}"
        );
    }
    assert_eq!(deletable_prefix_len(&[Lsn(1)], Lsn(u64::MAX)), 0);
    assert_eq!(deletable_prefix_len(&[Lsn(42)], Lsn(u64::MAX)), 0);
    assert_eq!(deletable_prefix_len(&[], Lsn(u64::MAX)), 0);
}

/// A log with segments at 1, 3 and 5.
fn three_segment_log(dir: &Dir) -> Vec<Vec<u8>> {
    let (mut wal, _) = open(dir, tiny_cfg()).unwrap();
    let payloads: Vec<Vec<u8>> = (1..=5u8).map(|i| vec![i; 200]).collect();
    for p in &payloads {
        wal.append(p).unwrap();
    }
    assert_eq!(wal.commit().unwrap(), Lsn(5));
    assert_eq!(wal.segments(), vec![Lsn(1), Lsn(3), Lsn(5)]);
    payloads
}

#[test]
fn checkpoint_deletes_superseded_sealed_segments_oldest_first() {
    let dir = tmp();
    three_segment_log(&dir);
    let (mut wal, _) = open(&dir, tiny_cfg()).unwrap();
    wal.checkpoint(Lsn(2)).unwrap();
    assert_eq!(wal.segments(), vec![Lsn(3), Lsn(5)]);
    assert!(matches!(wal.wal.reader_from(Lsn(2)), Err(WalError::ContiguityViolation)));
    assert!(wal.wal.reader_from(Lsn(3)).is_ok());
    assert!(!dir.has(1));
    assert!(dir.has(3));
    assert!(dir.has(5));
}

#[test]
fn checkpoint_never_deletes_the_active_segment() {
    let dir = tmp();
    three_segment_log(&dir);
    let (mut wal, _) = open(&dir, tiny_cfg()).unwrap();
    wal.checkpoint(Lsn(u64::MAX)).unwrap();
    assert_eq!(wal.segments(), vec![Lsn(5)]);
    assert_eq!(wal.durable_lsn(), Lsn(5));
    assert_eq!(wal.last_lsn(), Lsn(5));
}

#[test]
fn checkpoint_boundary_is_exact() {
    let dir = tmp();
    three_segment_log(&dir);
    {
        let (mut wal, _) = open(&dir, tiny_cfg()).unwrap();
        wal.checkpoint(Lsn(1)).unwrap();
        assert_eq!(wal.segments(), vec![Lsn(1), Lsn(3), Lsn(5)]);
    }
    let (mut wal, _) = open(&dir, tiny_cfg()).unwrap();
    wal.checkpoint(Lsn(2)).unwrap();
    assert_eq!(wal.segments(), vec![Lsn(3), Lsn(5)]);
}

#[test]
fn checkpoint_then_reopen_recovers_dense_suffix() {
    let dir = tmp();
    let payloads = three_segment_log(&dir);
    {
        let (mut wal, _) = open(&dir, tiny_cfg()).unwrap();
        wal.checkpoint(Lsn(2)).unwrap();
    }
    let (wal, report) = open(&dir, tiny_cfg()).unwrap();
    assert_eq!(report.oldest_lsn, Lsn(3));
    assert_eq!(report.durable_lsn, Lsn(5));
    assert!(matches!(
        wal.wal.reader_from(Lsn(2)),
        Err(WalError::ContiguityViolation)
    ));
    let want: Vec<_> = (3..=5u64).map(|l| one(l, &payloads[l as usize - 1])).collect();
    assert_eq!(wal.collect_from(Lsn(0)).unwrap(), want);
}

#[test]
fn checkpoint_is_idempotent_and_below_oldest_is_noop() {
    let dir = tmp();
    three_segment_log(&dir);
    let (mut wal, _) = open(&dir, tiny_cfg()).unwrap();
    wal.checkpoint(Lsn(2)).unwrap();
    assert_eq!(wal.segments(), vec![Lsn(3), Lsn(5)]);
    wal.checkpoint(Lsn(2)).unwrap();
    assert_eq!(wal.segments(), vec![Lsn(3), Lsn(5)]);
    wal.checkpoint(Lsn(0)).unwrap();
    assert_eq!(wal.segments(), vec![Lsn(3), Lsn(5)]);
    assert_eq!(dir.count("unlink"), 1);
}

#[test]
fn checkpoint_can_still_append_and_roll_after() {
    let dir = tmp();
    three_segment_log(&dir);
    let (mut wal, _) = open(&dir, tiny_cfg()).unwrap();
    wal.checkpoint(Lsn(4)).unwrap();
    assert_eq!(wal.segments(), vec![Lsn(5)]);
    for _ in 0..3 {
        wal.append(&[9u8; 200]).unwrap();
    }
    assert_eq!(wal.commit().unwrap(), Lsn(8));
    assert_eq!(wal.lsns_from(Lsn(0)), vec![5, 6, 7, 8]);
}

#[test]
fn checkpoint_on_poisoned_handle_errors_and_deletes_nothing() {
    let dir = tmp();
    three_segment_log(&dir);
    let (mut wal, _) = open(&dir, tiny_cfg()).unwrap();
    wal.append(b"x").unwrap();
    dir.fail(0, Fault::Sync);
    assert!(matches!(wal.commit(), Err(WalError::FsyncFailed)));
    assert!(matches!(wal.checkpoint(Lsn(2)), Err(WalError::Poisoned)));
    assert!(dir.has(1));
}

#[test]
fn reader_from_mid_log_returns_exact_suffix() {
    let dir = tmp();
    write_clean(&dir, &[b"a", b"b", b"c", b"d", b"e"]);
    let (wal, report) = open(&dir, cfg()).unwrap();
    assert_eq!(report.durable_lsn, Lsn(5));

    assert_eq!(
        wal.collect_from(Lsn(3)).unwrap(),
        vec![
            (Lsn(3), b"c".to_vec()),
            (Lsn(4), b"d".to_vec()),
            (Lsn(5), b"e".to_vec()),
        ]
    );
    assert_eq!(wal.collect_from(Lsn(5)).unwrap(), vec![(Lsn(5), b"e".to_vec())]);
}

#[test]
fn reader_from_at_or_beyond_durable_is_empty() {
    let dir = tmp();
    write_clean(&dir, &[b"a", b"b"]);
    let (wal, report) = open(&dir, cfg()).unwrap();
    assert_eq!(report.durable_lsn, Lsn(2));

    assert!(wal.collect_from(Lsn(3)).unwrap().is_empty());
    assert!(wal.collect_from(Lsn(100)).unwrap().is_empty());
}

#[test]
fn last_record_payload_corruption_is_truncated_and_recoverable() {
    let dir = tmp();
    let payloads: &[&[u8]] = &[b"first", b"second", b"third"];
    write_clean(&dir, payloads);

    let x = offset_of(payloads, 2);
    dir.flip(1, x + 20);

    let (wal, report) = open(&dir, cfg()).unwrap();
    assert_eq!(report.durable_lsn, Lsn(2));
    assert_eq!(
        report.tail_state,
        TailState::TruncatedAt { segment_base: Lsn(1), offset: x }
    );
    assert_eq!(replay(&wal), vec![b"first".to_vec(), b"second".to_vec()]);
}

#[test]
fn last_record_crc_field_corruption_is_truncated() {
    let dir = tmp();
    let payloads: &[&[u8]] = &[b"alpha", b"beta"];
    write_clean(&dir, payloads);
    let x = offset_of(payloads, 1);
    dir.flip(1, x);

    let (wal, report) = open(&dir, cfg()).unwrap();
    assert_eq!(report.durable_lsn, Lsn(1));
    assert!(matches!(report.tail_state, TailState::TruncatedAt { .. }));
    assert_eq!(replay(&wal), vec![b"alpha".to_vec()]);
}

#[test]
fn last_record_padding_corruption_is_truncated() {
    let dir = tmp();
    let payloads: &[&[u8]] = &[b"xyz", b"ab"];
    write_clean(&dir, payloads);
    let x = offset_of(payloads, 1);
    dir.flip(1, x + 20 + 2);

    let (wal, report) = open(&dir, cfg()).unwrap();
    assert_eq!(report.durable_lsn, Lsn(1));
    assert!(matches!(report.tail_state, TailState::TruncatedAt { .. }));
    assert_eq!(replay(&wal), vec![b"xyz".to_vec()]);
}

#[test]
fn middle_record_corruption_is_fatal_tornmidlog() {
    let dir = tmp();
    let payloads: &[&[u8]] = &[b"one", b"two", b"three", b"four"];
    write_clean(&dir, payloads);

    let x = offset_of(payloads, 1);
    dir.flip(1, x + 20);

    let err = open_err(&dir);
    assert!(
        matches!(err, WalError::TornMidLog { segment, offset } if segment == Lsn(1) && offset == x),
        "expected TornMidLog at {x}, got {err:?}"
    );
}

#[test]
fn middle_record_length_field_corruption_is_fatal() {
    let dir = tmp();
    let payloads: &[&[u8]] = &[b"one", b"two", b"three"];
    write_clean(&dir, payloads);
    let x = offset_of(payloads, 1);
    dir.flip(1, x + 4);

    assert!(matches!(open_err(&dir), WalError::TornMidLog { .. }));
}

#[test]
fn segment_header_corruption_is_fatal() {
    let dir = tmp();
    write_clean(&dir, &[b"a", b"b"]);
    dir.flip(1, 0);

    assert!(matches!(open_err(&dir), WalError::BadSegmentHeader));
}

#[test]
fn append_after_torn_tail_recovery_stays_dense() {
    let dir = tmp();
    let payloads: &[&[u8]] = &[b"keep1", b"keep2", b"torn"];
    write_clean(&dir, payloads);
    dir.flip(1, offset_of(payloads, 2) + 20);

    {
        let (mut wal, report) = open(&dir, cfg()).unwrap();
        assert_eq!(report.durable_lsn, Lsn(2));
        assert_eq!(wal.append(b"new3").unwrap(), Lsn(3));
        assert_eq!(wal.commit().unwrap(), Lsn(3));
    }

    let (wal, report) = open(&dir, cfg()).unwrap();
    assert_eq!(report.durable_lsn, Lsn(3));
    assert_eq!(report.tail_state, TailState::Clean);
    assert_eq!(
        replay(&wal),
        vec![b"keep1".to_vec(), b"keep2".to_vec(), b"new3".to_vec()]
    );
}

/// Writes `n` records of 200 bytes in one commit, two to a segment.
fn write_n(dir: &Dir, n: u8) -> u64 {
    let (mut wal, _) = open(dir, tiny_cfg()).unwrap();
    for i in 1..=n {
        let p = vec![i; 200];
        wal.append(&p).unwrap();
    }
    wal.commit().unwrap().0
}

#[test]
fn writer_produces_and_recovers_multi_segment_log() {
    let dir = tmp();
    assert_eq!(write_n(&dir, 5), 5);
    for b in [1u64, 3, 5] {
        assert!(dir.has(b), "segment {b} should exist");
    }

    let (wal, report) = open(&dir, tiny_cfg()).unwrap();
    assert_eq!(report.oldest_lsn, Lsn(1));
    assert_eq!(report.durable_lsn, Lsn(5));
    assert_eq!(report.segments_scanned, 3);
    assert_eq!(report.tail_state, TailState::Clean);
    assert_eq!(wal.lsns_from(Lsn(0)), vec![1, 2, 3, 4, 5]);
}

#[test]
fn torn_tail_in_active_segment_recovers_dense_prefix() {
    let dir = tmp();
    write_n(&dir, 5);
    dir.flip(5, HEADER_SIZE + 20);

    let (wal, report) = open(&dir, tiny_cfg()).unwrap();
    assert_eq!(report.durable_lsn, Lsn(4));
    assert!(matches!(
        report.tail_state,
        TailState::TruncatedAt { segment_base, .. } if segment_base == Lsn(5)
    ));
    assert_eq!(wal.lsns_from(Lsn(0)), vec![1, 2, 3, 4]);
}

#[test]
fn deleting_a_middle_segment_is_a_fatal_gap() {
    let dir = tmp();
    write_n(&dir, 5);
    dir.remove(3);

    match open(&dir, tiny_cfg()) {
        Err(WalError::ContiguityViolation) => {}
        Err(e) => panic!("expected ContiguityViolation, got {e:?}"),
        Ok(_) => panic!("expected ContiguityViolation, but open() succeeded"),
    }
}

#[test]
fn deleting_the_oldest_prefix_is_accepted_silently() {
    let dir = tmp();
    write_n(&dir, 5);
    dir.remove(1);

    let (wal, report) = open(&dir, tiny_cfg()).unwrap();
    assert_eq!(report.oldest_lsn, Lsn(3));
    assert_eq!(report.durable_lsn, Lsn(5));
    assert_eq!(wal.lsns_from(Lsn(3)), vec![3, 4, 5]);
    assert!(matches!(
        wal.wal.reader_from(Lsn(2)),
        Err(WalError::ContiguityViolation)
    ));
}

#[test]
fn append_continues_after_multi_segment_reopen() {
    let dir = tmp();
    write_n(&dir, 5);
    {
        let (mut wal, report) = open(&dir, tiny_cfg()).unwrap();
        assert_eq!(report.durable_lsn, Lsn(5));
        wal.append(&[6u8; 200]).unwrap();
        wal.append(&[7u8; 200]).unwrap();
        assert_eq!(wal.commit().unwrap(), Lsn(7));
    }
    let (wal, report) = open(&dir, tiny_cfg()).unwrap();
    assert_eq!(report.durable_lsn, Lsn(7));
    assert_eq!(wal.lsns_from(Lsn(0)), vec![1, 2, 3, 4, 5, 6, 7]);
}

#[test]
fn torn_tail_zeroes_old_record_bytes() {
    let dir = tmp();
    let payloads: &[&[u8]] = &[b"keep", b"OLD-LONG-RECORD-PAYLOAD"];
    write_clean(&dir, payloads);
    let x = offset_of(payloads, 1);
    let old_end = x + framed(payloads[1].len());
    dir.flip(1, x + 20);

    let (_wal, report) = open(&dir, cfg()).unwrap();
    assert_eq!(report.durable_lsn, Lsn(1));
    assert!(matches!(report.tail_state, TailState::TruncatedAt { .. }));

    assert!(
        read_range(&dir, x, SEGMENT_SIZE).iter().all(|&b| b == 0),
        "[X, EOF) must be zeroed by recovery"
    );
    assert!(read_range(&dir, x, old_end).iter().all(|&b| b == 0));
}

#[test]
fn shorter_rewrite_after_torn_tail_leaves_no_buried_record() {
    let dir = tmp();
    let payloads: &[&[u8]] = &[b"r1", b"r2", b"OLD-LONG-THIRD-RECORD-PAYLOAD"];
    write_clean(&dir, payloads);
    let x = offset_of(payloads, 2);
    let old_end = x + framed(payloads[2].len());
    dir.flip(1, x + 20);

    {
        let (mut wal, report) = open(&dir, cfg()).unwrap();
        assert_eq!(report.durable_lsn, Lsn(2));
        assert_eq!(wal.append(b"x").unwrap(), Lsn(3));
        wal.commit().unwrap();
    }

    let short_end = x + framed(1);
    assert!(
        read_range(&dir, short_end, old_end).iter().all(|&b| b == 0),
        "old record tail must remain zeroed after a shorter rewrite"
    );

    let (wal, report) = open(&dir, cfg()).unwrap();
    assert_eq!(report.durable_lsn, Lsn(3));
    assert_eq!(report.tail_state, TailState::Clean);
    assert_eq!(
        replay(&wal),
        vec![b"r1".to_vec(), b"r2".to_vec(), b"x".to_vec()]
    );
}

#[test]
fn repeated_torn_recovery_is_idempotent() {
    let dir = tmp();
    let payloads: &[&[u8]] = &[b"a", b"b", b"c"];
    write_clean(&dir, payloads);
    dir.flip(1, offset_of(payloads, 2) + 20);

    let mut prev: Option<(Lsn, Vec<Vec<u8>>)> = None;
    for i in 0..4 {
        let (wal, report) = open(&dir, cfg()).unwrap();
        if i > 0 {
            assert_eq!(report.tail_state, TailState::Clean);
        }
        let snap = (report.durable_lsn, replay(&wal));
        if let Some(p) = &prev {
            assert_eq!(&snap, p, "recovery must be idempotent");
        }
        prev = Some(snap);
    }
    assert_eq!(prev.unwrap().0, Lsn(2));
}

#[test]
fn open_after_torn_tail_does_not_error() {
    let dir = tmp();
    write_clean(&dir, &[b"only"]);
    dir.flip(1, HEADER_SIZE + 20);
    match open(&dir, cfg()) {
        Ok((_w, report)) => {
            assert_eq!(report.durable_lsn, Lsn(0));
            assert!(matches!(report.tail_state, TailState::TruncatedAt { .. }));
        }
        Err(e) => panic!("torn tail must recover, got {e:?}"),
    }
    let _ = WalError::Poisoned;
}

fn assert_recovers_prefix(dir: &Dir, payloads: &[&[u8]], keep: usize) {
    let (wal, report) = open(dir, cfg()).unwrap();
    assert_eq!(report.durable_lsn, Lsn(keep as u64));
    assert!(
        matches!(report.tail_state, TailState::TruncatedAt { .. }),
        "a physically truncated tail must be re-truncated + zeroed"
    );
    let want: Vec<Vec<u8>> = payloads[..keep].iter().map(|p| p.to_vec()).collect();
    assert_eq!(replay(&wal), want);
    assert_eq!(
        dir.read(1).len() as u64,
        SEGMENT_SIZE,
        "zeroing must re-extend the segment to its pre-allocated size"
    );
}

#[test]
fn mid_header_truncation_is_bad_header_not_a_panic() {
    let dir = tmp();
    write_clean(&dir, &[b"a", b"b"]);
    dir.truncate(1, 30);
    assert!(matches!(open(&dir, cfg()), Err(WalError::BadSegmentHeader)));
}

#[test]
fn mid_record_truncation_recovers_prefix() {
    let dir = tmp();
    let payloads: &[&[u8]] = &[b"alpha", b"beta", b"gamma", b"delta"];
    write_clean(&dir, payloads);
    dir.truncate(1, offset_of(payloads, 3) + 4);
    assert_recovers_prefix(&dir, payloads, 3);
}

#[test]
fn between_records_truncation_recovers_prefix() {
    let dir = tmp();
    let payloads: &[&[u8]] = &[b"alpha", b"beta", b"gamma", b"delta"];
    write_clean(&dir, payloads);
    dir.truncate(1, offset_of(payloads, 2));
    assert_recovers_prefix(&dir, payloads, 2);
}

#[test]
fn mid_padding_truncation_recovers_prefix() {
    let dir = tmp();
    let payloads: &[&[u8]] = &[b"alpha", b"beta", b"abc"];
    write_clean(&dir, payloads);
    dir.truncate(1, offset_of(payloads, 2) + 23);
    assert_recovers_prefix(&dir, payloads, 2);
}

#[test]
fn truncation_just_past_last_record_preserves_all() {
    let dir = tmp();
    let payloads: &[&[u8]] = &[b"one", b"two", b"three"];
    write_clean(&dir, payloads);
    dir.truncate(1, offset_of(payloads, 3));
    assert_recovers_prefix(&dir, payloads, 3);
}

#[test]
fn recovered_truncation_is_idempotent_and_appendable() {
    let dir = tmp();
    let payloads: &[&[u8]] = &[b"keep1", b"keep2", b"cut"];
    write_clean(&dir, payloads);
    dir.truncate(1, offset_of(payloads, 2) + 3);

    {
        let (mut wal, _) = open(&dir, cfg()).unwrap();
        assert_eq!(wal.append(b"new3").unwrap(), Lsn(3));
        wal.commit().unwrap();
    }
    let (wal, report) = open(&dir, cfg()).unwrap();
    assert_eq!(report.durable_lsn, Lsn(3));
    assert_eq!(report.tail_state, TailState::Clean);
    assert_eq!(
        replay(&wal),
        vec![b"keep1".to_vec(), b"keep2".to_vec(), b"new3".to_vec()]
    );
}

#[test]
fn sealed_segments_are_immutable_across_activity_and_recovery() {
    let dir = tmp();
    {
        let (mut wal, _) = open(&dir, tiny_cfg()).unwrap();
        for i in 0..6u8 {
            wal.append(&[i; 200]).unwrap();
        }
        assert_eq!(wal.commit().unwrap().0, 6);
    }

    let bases = dir.bases();
    assert!(bases.len() >= 2, "expected multiple segments, got {bases:?}");
    let sealed: Vec<(u64, u32)> = bases[..bases.len() - 1]
        .iter()
        .map(|&b| (b, crc32c(&dir.read(b))))
        .collect();
    dir.0.borrow_mut().touched.clear();

    {
        let (mut wal, report) = open(&dir, tiny_cfg()).unwrap();
        assert_eq!(report.durable_lsn.0, 6);
        for i in 0..5u8 {
            wal.append(&[100 + i; 200]).unwrap();
        }
        assert_eq!(wal.commit().unwrap().0, 11);
    }

    {
        let _ = open(&dir, tiny_cfg()).unwrap();
    }

    for (base, before) in &sealed {
        assert!(dir.has(*base), "sealed segment {base} must still exist (no checkpoint here)");
        assert_eq!(
            crc32c(&dir.read(*base)),
            *before,
            "sealed segment {base} was modified"
        );
        assert!(!dir.0.borrow().touched.contains(base));
    }
}

#[test]
fn write_failure_poisons_and_keeps_its_error() {
    let dir = tmp();
    let (mut wal, _) = open(&dir, cfg()).unwrap();
    wal.append(b"a").unwrap();
    dir.fail(0, Fault::Write);
    match wal.commit() {
        Err(WalError::Io(e)) => assert_eq!(e.to_string(), "injected"),
        other => panic!("{other:?}"),
    }
    assert!(matches!(wal.append(b"b"), Err(WalError::Poisoned)));
    assert!(matches!(wal.commit(), Err(WalError::Poisoned)));
    assert_eq!(wal.durable_lsn(), Lsn(0));
    assert_eq!(wal.last_lsn(), Lsn(1));
    assert!(matches!(wal.wal.commit_step(CommitEvent::Synced), Err(WalError::Poisoned)));
    assert!(matches!(
        wal.wal.checkpoint_step(CheckpointEvent::Synced),
        Err(WalError::Poisoned)
    ));
}

#[test]
fn poisoned_handle_rejects_even_an_oversized_payload_as_poisoned() {
    let dir = tmp();
    let (mut wal, _) = open(&dir, cfg()).unwrap();
    wal.append(b"a").unwrap();
    dir.fail(0, Fault::Sync);
    assert!(matches!(wal.commit(), Err(WalError::FsyncFailed)));
    assert!(matches!(wal.append(&[0; 5000]), Err(WalError::Poisoned)));
}

#[test]
fn second_sync_failure_in_a_split_rests_at_the_first_segment() {
    let dir = tmp();
    let seen = Rc::new(RefCell::new(Vec::new()));
    let (mut wal, _) = open_with(&dir, tiny_cfg(), Rec(seen.clone())).unwrap();
    for _ in 0..5 {
        wal.append(&[3u8; 200]).unwrap();
    }
    dir.fail(1, Fault::Sync);
    assert!(matches!(wal.commit(), Err(WalError::FsyncFailed)));
    assert_eq!(wal.durable_lsn(), Lsn(2));
    assert_eq!(*seen.borrow(), vec![2]);
    drop(wal);
    dir.0.borrow_mut().faults.clear();
    let (wal, report) = open(&dir, tiny_cfg()).unwrap();
    assert!(report.durable_lsn >= Lsn(2));
    let lsns = wal.lsns_from(Lsn(0));
    assert_eq!(lsns, (1..=report.durable_lsn.0).collect::<Vec<_>>());
}

#[test]
fn failed_roll_rests_at_the_first_segment() {
    let dir = tmp();
    let (mut wal, _) = open(&dir, tiny_cfg()).unwrap();
    for _ in 0..5 {
        wal.append(&[3u8; 200]).unwrap();
    }
    dir.fail(0, Fault::SyncDir);
    assert!(matches!(wal.commit(), Err(WalError::Io(_))));
    assert_eq!(wal.durable_lsn(), Lsn(2));
    assert_eq!(wal.segments(), vec![Lsn(1)]);
    assert!(matches!(wal.commit(), Err(WalError::Poisoned)));
    drop(wal);
    dir.0.borrow_mut().faults.clear();
    let (_, report) = open(&dir, tiny_cfg()).unwrap();
    assert_eq!(report.durable_lsn, Lsn(2));
}

#[test]
fn checkpoint_failures_poison_and_lose_nothing_kept() {
    for (after, fault, left) in [
        (1, Fault::Unlink, vec![3u64, 5]),
        (0, Fault::SyncDir, vec![5u64]),
    ] {
        let dir = tmp();
        three_segment_log(&dir);
        dir.0.borrow_mut().faults.clear();
        let (mut wal, _) = open(&dir, tiny_cfg()).unwrap();
        dir.fail(after, fault);
        assert!(matches!(wal.checkpoint(Lsn(4)), Err(WalError::Io(_))));
        assert_eq!(wal.segments(), vec![Lsn(1), Lsn(3), Lsn(5)]);
        assert!(matches!(wal.checkpoint(Lsn(4)), Err(WalError::Poisoned)));
        drop(wal);
        dir.0.borrow_mut().faults.clear();
        let (wal, report) = open(&dir, tiny_cfg()).unwrap();
        assert_eq!(dir.bases(), left);
        assert_eq!(report.oldest_lsn, Lsn(left[0]));
        assert_eq!(wal.lsns_from(Lsn(0)), (left[0]..=5).collect::<Vec<_>>());
    }
}

#[test]
fn checkpoint_tolerates_a_segment_that_is_gone() {
    let dir = tmp();
    three_segment_log(&dir);
    let (mut wal, _) = open(&dir, tiny_cfg()).unwrap();
    dir.remove(1);
    wal.checkpoint(Lsn(4)).unwrap();
    assert_eq!(wal.segments(), vec![Lsn(5)]);
}

#[test]
fn commit_asks_again_after_a_report_that_answers_nothing() {
    let dir = tmp();
    let (mut wal, _) = open(&dir, tiny_cfg()).unwrap();
    for _ in 0..3 {
        wal.append(&[1u8; 200]).unwrap();
    }
    let first = wal.wal.commit().unwrap();
    assert_eq!(first, CommitAction::Write { segment: Lsn(1), offset: 64 });
    assert_eq!(wal.wal.due_bytes().len(), 448);
    assert_eq!(wal.wal.commit().unwrap(), first);
    assert_eq!(wal.wal.commit_step(CommitEvent::Rolled).unwrap(), first);
    let roll = wal.wal.commit_step(CommitEvent::Synced).unwrap();
    assert_eq!(roll, CommitAction::Roll(Lsn(3)));
    assert_eq!(wal.wal.due_bytes().len(), 0);
    assert_eq!(wal.wal.commit_step(CommitEvent::Synced).unwrap(), roll);
    // A record appended meanwhile goes with the rest.
    assert_eq!(wal.append(&[2u8; 8]).unwrap(), Lsn(4));
    let second = wal.wal.commit_step(CommitEvent::Rolled).unwrap();
    assert_eq!(second, CommitAction::Write { segment: Lsn(3), offset: 64 });
    assert_eq!(wal.wal.due_bytes().len(), 224 + 32);
    assert_eq!(
        wal.wal.commit_step(CommitEvent::Synced).unwrap(),
        CommitAction::Done(Lsn(4))
    );
    assert_eq!(wal.wal.commit().unwrap(), CommitAction::Done(Lsn(4)));
}

#[test]
fn opening_ignores_replies_that_answer_nothing_and_maps_failures() {
    let opening = Wal::open(cfg()).unwrap();
    assert_eq!(opening.action(), OpenAction::Lock);
    let opening = opening.advance(OpenReply::Names(vec![])).unwrap();
    assert_eq!(opening.action(), OpenAction::Lock);
    assert!(matches!(
        opening.advance(OpenReply::Failed(std::io::Error::other("no"))),
        Err(WalError::Io(_))
    ));
    let opening = Wal::open(cfg()).unwrap().advance(OpenReply::Done).unwrap();
    assert_eq!(opening.action(), OpenAction::List);
    let opening = opening.advance(OpenReply::Names(vec![])).unwrap();
    assert_eq!(opening.action(), OpenAction::Create(Lsn(1)));
    assert!(opening.finish().is_none());
}

#[test]
fn zeroing_that_cannot_be_synced_fails_the_opening() {
    let dir = tmp();
    write_clean(&dir, &[b"only"]);
    dir.flip(1, HEADER_SIZE + 20);
    dir.fail(0, Fault::Sync);
    assert!(matches!(open(&dir, cfg()), Err(WalError::FsyncFailed)));
}

#[test]
fn empty_newest_file_is_discarded() {
    let dir = tmp();
    fab_segment(&dir, Lsn(1), &[b"a", b"b"]);
    dir.put(3, Vec::new());
    let (wal, report) = open(&dir, cfg()).unwrap();
    assert_eq!(report.durable_lsn, Lsn(2));
    assert_eq!(wal.segments(), vec![Lsn(1)]);
    assert!(!dir.has(3));
}

#[test]
fn header_of_another_segment_is_fatal_in_a_sealed_one() {
    let dir = tmp();
    fab_segment(&dir, Lsn(1), &[b"a", b"b"]);
    fab_segment(&dir, Lsn(3), &[b"c"]);
    let f = dir.read(3);
    dir.put(2, f);
    assert!(matches!(open(&dir, cfg()), Err(WalError::BadSegmentHeader)));
}

#[test]
fn sealed_damage_is_corruption_with_its_place() {
    let dir = tmp();
    write_n(&dir, 5);
    dir.flip(1, HEADER_SIZE + 20);
    match open(&dir, tiny_cfg()) {
        Err(WalError::Corruption { segment, offset, detail }) => {
            assert_eq!((segment, offset), (Lsn(1), 64));
            assert_eq!(detail, "invalid record in sealed segment");
        }
        Err(e) => panic!("{e:?}"),
        Ok(_) => panic!("expected Corruption"),
    }
}

#[test]
fn reader_passes_an_unreadable_segment_on_and_ends() {
    let dir = tmp();
    write_n(&dir, 3);
    let (wal, _) = open(&dir, tiny_cfg()).unwrap();
    let mut reader = wal.wal.reader_from(Lsn(0)).unwrap();
    match reader.next(Err(std::io::Error::other("gone"))) {
        Some(Err(WalError::Io(e))) => assert_eq!(e.to_string(), "gone"),
        _ => panic!("expected the error"),
    }
    assert!(reader.next(Ok(&dir.read(1))).is_none());
}

#[test]
fn reader_follows_the_roll_at_a_break_of_the_lsns() {
    // Segment 1 holds records 1 and 2, and behind them one that is not due.
    let dir = tmp();
    fab_segment(&dir, Lsn(1), &[b"a", b"b"]);
    fab_segment(&dir, Lsn(3), &[b"c"]);
    let (wal, _) = open(&dir, cfg()).unwrap();
    let mut f = dir.read(1);
    let mut stray = Vec::new();
    encode_into(&mut stray, Lsn(9), b"stray");
    f[112..112 + stray.len()].copy_from_slice(&stray);
    dir.put(1, f);
    assert_eq!(wal.lsns_from(Lsn(0)), vec![1, 2, 3]);
}

/// A small generator of pseudo-random numbers.
struct Lcg(u64);

impl Lcg {
    fn next(&mut self, n: u64) -> u64 {
        self.0 = self.0.wrapping_mul(6364136223846793005).wrapping_add(1442695040888963407);
        (self.0 >> 33) % n
    }
}

#[test]
fn random_programs_keep_exactly_what_was_committed() {
    for seed in 0..40u64 {
        let mut rng = Lcg(seed);
        let c = WalConfig { segment_size: 256 + 64 * rng.next(5), max_record_size: 100 };
        let dir = tmp();
        let mut durable: Vec<Vec<u8>> = Vec::new();
        let mut staged: Vec<Vec<u8>> = Vec::new();
        let (mut wal, _) = open(&dir, c).unwrap();
        let mut oldest = 1u64;
        for _ in 0..200 {
            match rng.next(16) {
                0..=7 => {
                    let len = rng.next(101) as usize;
                    let p: Vec<u8> = (0..len).map(|_| rng.next(256) as u8).collect();
                    let lsn = wal.append(&p).unwrap();
                    staged.push(p);
                    assert_eq!(lsn.0, (durable.len() + staged.len()) as u64);
                }
                8..=11 => {
                    durable.append(&mut staged);
                    assert_eq!(wal.commit().unwrap().0, durable.len() as u64);
                }
                12..=13 => {
                    let up_to = rng.next(durable.len() as u64 + 1);
                    wal.checkpoint(Lsn(up_to)).unwrap();
                    let now = wal.segments()[0].0;
                    assert!(now >= oldest && now <= up_to + 1 || now == oldest);
                    oldest = now;
                }
                14 => {
                    staged.clear();
                    drop(wal);
                    wal = open(&dir, c).unwrap().0;
                }
                _ => {
                    durable.append(&mut staged);
                    wal.commit().unwrap();
                    drop(wal);
                    let (w, report) = open(&dir, c).unwrap();
                    assert_eq!(report.tail_state, TailState::Clean);
                    wal = w;
                }
            }
            assert_eq!(wal.durable_lsn().0, durable.len() as u64);
            let got = wal.collect_from(Lsn(0)).unwrap();
            let want: Vec<_> = (oldest..=durable.len() as u64)
                .map(|l| one(l, &durable[l as usize - 1]))
                .collect();
            assert_eq!(got, want, "seed {seed}");
        }
    }
}

#[test]
fn a_crash_anywhere_in_a_write_keeps_what_was_durable() {
    let dir = tmp();
    let (mut wal, _) = open(&dir, tiny_cfg()).unwrap();
    wal.append(b"durable one").unwrap();
    wal.append(b"durable two").unwrap();
    wal.commit().unwrap();
    let before = dir.read(1);
    wal.append(b"third").unwrap();
    wal.append(b"fourth").unwrap();
    wal.commit().unwrap();
    drop(wal);
    let after = dir.read(1);
    for cut in 128..=after.len() {
        let mut left = after[..cut].to_vec();
        left.extend_from_slice(&before[cut..]);
        dir.put(1, left);
        let (wal, report) = open(&dir, tiny_cfg()).unwrap();
        assert!(report.durable_lsn >= Lsn(2), "cut {cut}");
        let got = wal.collect_from(Lsn(0)).unwrap();
        assert_eq!(got.len() as u64, report.durable_lsn.0);
        assert_eq!(got[0], one(1, b"durable one"));
        assert_eq!(got[1], one(2, b"durable two"));
        if got.len() > 2 {
            assert_eq!(got[2], one(3, b"third"));
        }
    }
}

#[test]
fn a_crash_anywhere_in_the_creation_of_a_segment_is_recovered() {
    // The header arrives in part, or not at all, in a file that is empty or whole.
    for arrived in 0..=64usize {
        let dir = tmp();
        fab_segment(&dir, Lsn(1), &[b"a", b"b"]);
        let mut f = encode_header(Lsn(3), 9)[..arrived].to_vec();
        f.resize(cfg().segment_size as usize, 0);
        dir.put(3, f);
        let (wal, report) = open(&dir, cfg()).unwrap();
        assert_eq!(report.durable_lsn, Lsn(2), "arrived {arrived}");
        assert_eq!(wal.lsns_from(Lsn(0)), vec![1, 2]);
        assert_eq!(wal.segments().len(), if arrived == 64 { 2 } else { 1 });
    }
}

#[test]
fn a_checkpoint_that_stops_anywhere_leaves_a_suffix() {
    for removed in 0..=2usize {
        let dir = tmp();
        let payloads = three_segment_log(&dir);
        for base in [1u64, 3].iter().take(removed) {
            dir.remove(*base);
        }
        let (wal, report) = open(&dir, tiny_cfg()).unwrap();
        let oldest = 1 + 2 * removed as u64;
        assert_eq!(report.oldest_lsn, Lsn(oldest));
        let want: Vec<_> = (oldest..=5).map(|l| one(l, &payloads[l as usize - 1])).collect();
        assert_eq!(wal.collect_from(Lsn(0)).unwrap(), want);
    }
}

#[test]
fn a_crash_between_any_two_steps_of_a_commit_loses_nothing_durable() {
    for steps in 0..=6usize {
        let dir = tmp();
        let (mut log, _) = open(&dir, tiny_cfg()).unwrap();
        log.append(b"before").unwrap();
        log.commit().unwrap();
        for i in 0..6u8 {
            log.append(&[i; 200]).unwrap();
        }
        let mut action = log.wal.commit().unwrap();
        for _ in 0..steps {
            let event = match action {
                CommitAction::Done(_) => break,
                CommitAction::Write { segment, offset } => {
                    dir.write(segment, offset, log.wal.due_bytes()).unwrap();
                    CommitEvent::Synced
                }
                CommitAction::Roll(base) => {
                    dir.create(base, 512).unwrap();
                    CommitEvent::Rolled
                }
            };
            action = log.wal.commit_step(event).unwrap();
        }
        let durable = log.durable_lsn();
        drop(log);
        let (log, report) = open(&dir, tiny_cfg()).unwrap();
        assert_eq!(report.durable_lsn, durable, "steps {steps}");
        assert_eq!(report.tail_state, TailState::Clean);
        let got = log.collect_from(Lsn(0)).unwrap();
        assert_eq!(got[0], one(1, b"before"));
        for (i, r) in got[1..].iter().enumerate() {
            assert_eq!(*r, one(i as u64 + 2, &[i as u8; 200]));
        }
        assert_eq!(got.len() as u64, durable.0);
    }
}

#[test]
fn p3_commit_boundary_invariance() {
    for seed in 0..30u64 {
        let mut rng = Lcg(seed);
        let payloads: Vec<Vec<u8>> = (0..40)
            .map(|_| {
                let len = rng.next(257) as usize;
                (0..len).map(|_| rng.next(256) as u8).collect()
            })
            .collect();
        let (a, b) = (tmp(), tmp());
        let (mut one_by_one, _) = open(&a, tiny_cfg()).unwrap();
        for p in &payloads {
            one_by_one.append(p).unwrap();
            one_by_one.commit().unwrap();
        }
        let (mut grouped, _) = open(&b, tiny_cfg()).unwrap();
        for p in &payloads {
            grouped.append(p).unwrap();
            if rng.next(5) == 0 {
                grouped.commit().unwrap();
            }
        }
        grouped.commit().unwrap();
        assert_eq!(one_by_one.durable_lsn(), grouped.durable_lsn());
        assert_eq!(one_by_one.segments(), grouped.segments());
        assert_eq!(
            one_by_one.collect_from(Lsn(0)).unwrap(),
            grouped.collect_from(Lsn(0)).unwrap()
        );
        assert_eq!(a.bases(), b.bases());
        for base in a.bases() {
            assert_eq!(a.read(base), b.read(base), "seed {seed} segment {base}");
        }
    }
}

#[test]
fn two_checkpoints_free_what_the_larger_frees() {
    let bases = [Lsn(1), Lsn(3), Lsn(6), Lsn(10)];
    for a in 0..12u64 {
        for b in 0..12u64 {
            let n = deletable_prefix_len(&bases, Lsn(a));
            let m = deletable_prefix_len(&bases[n..], Lsn(b));
            assert_eq!(n + m, deletable_prefix_len(&bases, Lsn(a.max(b))));
        }
    }
    assert_eq!(deletable_prefix_len(&bases[1..], Lsn(2)), 0);
}

#[test]
fn a_directory_with_stale_bytes_opens_densely_and_the_same_again() {
    // A clean end, and behind it bytes that are neither zero nor looked at.
    let dir = tmp();
    fab_segment(&dir, Lsn(4), &[b"a", b"b"]);
    fab_segment(&dir, Lsn(6), &[b"c"]);
    let mut f = dir.read(6);
    let end = f.len();
    f[end - 100..].fill(0xEE);
    f.extend_from_slice(&[7; 50]);
    dir.put(6, f);
    for _ in 0..3 {
        let (wal, report) = open(&dir, cfg()).unwrap();
        assert_eq!(report.oldest_lsn, Lsn(4));
        assert_eq!(report.durable_lsn, Lsn(6));
        assert_eq!(report.tail_state, TailState::Clean);
        assert_eq!(
            wal.collect_from(Lsn(0)).unwrap(),
            vec![one(4, b"a"), one(5, b"b"), one(6, b"c")]
        );
    }
}
