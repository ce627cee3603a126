//! Hostile directories for recovery: files with chosen names and contents, segments
//! with one damaged record, and what recovery has to make of them.

use vstd::prelude::*;

use crate::bytes::le32;
use crate::bytes::lemma_le32_round_trip;
use crate::bytes::u32_at;
use crate::config::WalConfig;
use crate::crc::crc32c;
use crate::crc::crc32c_of;
use crate::fuzzing::encode_record_into;
use crate::fuzzing::segment_header_bytes;
use crate::image::frames;
use crate::image::holds_at;
use crate::image::law_changed_byte_is_invalid;
use crate::image::lemma_frame_len;
use crate::image::lemma_frames_concat;
use crate::image::lemma_frames_one;
use crate::image::lemma_span_concat;
use crate::image::span;
use crate::lsn::Lsn;
use crate::record::frame;
use crate::record::frame_len;
use crate::record::framed_size;
use crate::record::lemma_frame_fields;
use crate::record::parse;
use crate::record::zeros;
use crate::recovery::TailState;
use crate::script::reduce_config;
use crate::script::reduced;
use crate::segment::filename_for;
use crate::segment::header;
use crate::segment::segment_name;
use crate::segment::slot_at;

verus! {

/// The name of a file.
#[derive(Debug)]
pub enum Name {
    /// The name of the segment at this base.
    Wal(u64),
    /// Any name.
    Raw(String),
}

/// Whether a name can be the name of a file, and is not too long.
pub open spec fn usable(name: Seq<char>) -> bool {
    &&& 0 < name.len()
    &&& vstd::utf8::encode_utf8(name).len() <= 64
    &&& name != seq!['.']
    &&& name != seq!['.', '.']
    &&& !name.contains('/')
    &&& !name.contains('\0')
}

/// The name as one component of a path, or `None` where it cannot be one.
pub fn safe_name(name: &Name) -> (r: Option<String>)
    ensures
        match *name {
            Name::Wal(base) => r matches Some(s) && s@ == segment_name(base),
            Name::Raw(raw) => if usable(raw@) {
                r matches Some(s) && s@ == raw@
            } else {
                r is None
            },
        },
{
    let raw = match name {
        Name::Wal(base) => {
            return Some(filename_for(Lsn(*base)));
        },
        Name::Raw(raw) => raw.as_str(),
    };
    let n: usize = raw.unicode_len();
    if n == 0 {
        return None;
    }
    if raw.as_bytes().len() > 64 {
        return None;
    }
    let mut dots = n <= 2;
    let mut i: usize = 0;
    while i < n
        invariant
            i <= n,
            n == raw@.len(),
            *name matches Name::Raw(s) && s@ == raw@,
            dots == (n <= 2 && forall|j: int| 0 <= j < i ==> raw@[j] == '.'),
            forall|j: int| 0 <= j < i ==> raw@[j] != '/' && raw@[j] != '\0',
        decreases n - i,
    {
        let c: char = raw.get_char(i);
        if c == '/' || c == '\0' {
            assert(raw@.contains(c));
            return None;
        }
        if c != '.' {
            dots = false;
        }
        i = i + 1;
    }
    if dots {
        assert(raw@ =~= seq!['.'] || raw@ =~= seq!['.', '.']);
        return None;
    }
    proof {
        let one = seq!['.'];
        let two = seq!['.', '.'];
        assert(raw@ != one && raw@ != two);
    }
    Some(raw.to_owned())
}

/// One record of a file.
#[derive(Debug)]
pub struct Rec {
    /// Its LSN.
    pub lsn: u64,
    /// Its payload, cut to the bound.
    pub payload: Vec<u8>,
    /// Whether its checksum is spoilt.
    pub corrupt: bool,
}

/// The contents of a file.
#[derive(Debug)]
pub enum Body {
    /// Any bytes.
    Raw(Vec<u8>),
    /// A segment: its header, records, and any bytes behind them.
    Structured {
        /// The base in the header.
        base: u64,
        /// The records.
        recs: Vec<Rec>,
        /// What follows them.
        trailing: Vec<u8>,
    },
}

/// `payload` cut to `max` bytes.
pub open spec fn clipped(payload: Seq<u8>, max: int) -> Seq<u8> {
    if payload.len() <= max {
        payload
    } else {
        payload.take(max)
    }
}

/// The bytes of one record, with the first byte of its checksum inverted where it is
/// spoilt.
pub open spec fn rec_bytes(rec: Rec, max: u32) -> Seq<u8> {
    let f = frame(rec.lsn, clipped(rec.payload@, max as int));
    if rec.corrupt {
        f.update(0, f[0] ^ 0xff)
    } else {
        f
    }
}

/// The bytes of records.
pub open spec fn recs_bytes(recs: Seq<Rec>, max: u32) -> Seq<u8>
    decreases recs.len(),
{
    if recs.len() == 0 {
        seq![]
    } else {
        recs_bytes(recs.drop_last(), max) + rec_bytes(recs.last(), max)
    }
}

/// The bytes of a file, with payloads cut to `max_record_size`.
pub fn body_bytes(body: &Body, max_record_size: u32) -> (bytes: Vec<u8>)
    ensures
        bytes@ == match *body {
            Body::Raw(raw) => raw@,
            Body::Structured { base, recs, trailing } => header(base, 0) + recs_bytes(
                recs@,
                max_record_size,
            ) + trailing@,
        },
{
    match body {
        Body::Raw(raw) => {
            let mut bytes: Vec<u8> = Vec::new();
            bytes.extend_from_slice(raw.as_slice());
            assert(bytes@ =~= raw@);
            bytes
        },
        Body::Structured { base, recs, trailing } => {
            let mut buf: Vec<u8> = segment_header_bytes(*base);
            let mut i: usize = 0;
            assert(recs@.take(0) =~= seq![]);
            assert(buf@ =~= header(*base, 0) + recs_bytes(recs@.take(0), max_record_size));
            while i < recs.len()
                invariant
                    i <= recs@.len(),
                    buf@ == header(*base, 0) + recs_bytes(recs@.take(i as int), max_record_size),
                decreases recs@.len() - i,
            {
                let ghost before = buf@;
                let rec: &Rec = &recs[i];
                let clamp: usize = if rec.payload.len() as u64 <= max_record_size as u64 {
                    rec.payload.len()
                } else {
                    max_record_size as usize
                };
                let start: usize = buf.len();
                assert(rec.payload@.subrange(0, clamp as int) =~= clipped(
                    rec.payload@,
                    max_record_size as int,
                ));
                let framed: usize = encode_record_into(&mut buf, rec.lsn, &rec.payload[0..clamp]);
                let ghost f = frame(rec.lsn, clipped(rec.payload@, max_record_size as int));
                assert(f.len() == framed) by {
                    assert(buf@.len() == before.len() + f.len());
                    lemma_frame_len(
                        rec.lsn,
                        clipped(rec.payload@, max_record_size as int),
                    );
                }
                if rec.corrupt && framed > 0 {
                    let b: u8 = buf[start];
                    buf.set(start, b ^ 0xff);
                }
                proof {
                    assert(buf@ =~= before + rec_bytes(*rec, max_record_size));
                    assert(recs@.take(i + 1).drop_last() =~= recs@.take(i as int));
                    assert(recs@.take(i + 1).last() == *rec);
                    assert(buf@ =~= header(*base, 0) + recs_bytes(
                        recs@.take(i + 1),
                        max_record_size,
                    ));
                }
                i = i + 1;
            }
            assert(recs@.take(i as int) =~= recs@);
            buf.extend_from_slice(trailing.as_slice());
            buf
        },
    }
}

/// The segment sizes of hostile directories.
pub open spec fn directory_segment(sel: u8) -> u64 {
    if sel % 5 == 0 {
        256
    } else if sel % 5 == 1 {
        512
    } else if sel % 5 == 2 {
        1024
    } else if sel % 5 == 3 {
        4096
    } else {
        65536
    }
}

/// The configuration of a hostile directory.
pub fn directory_config(seg_sel: u8, max_sel: u32) -> (c: WalConfig)
    ensures
        c == reduced(directory_segment(seg_sel), max_sel),
        c.valid(),
{
    let segment_size: u64 = match seg_sel % 5 {
        0 => 256,
        1 => 512,
        2 => 1024,
        3 => 4096,
        _ => 65536,
    };
    reduce_config(segment_size, max_sel)
}

/// The configuration of a segment with one damaged record.
pub fn segment_config(seg_big: bool, max_sel: u32) -> (c: WalConfig)
    ensures
        c == reduced(
            if seg_big {
                65536
            } else {
                4096
            },
            max_sel,
        ),
        c.valid(),
{
    let segment_size: u64 = if seg_big {
        65536
    } else {
        4096
    };
    reduce_config(segment_size, max_sel)
}

/// A base from 1 to 2^40, so that no LSN of its records overflows.
pub fn segment_base(raw: u64) -> (base: u64)
    ensures
        base == raw % 0x100_0000_0000 + 1,
{
    raw % 0x100_0000_0000 + 1
}

/// How one record is damaged.
#[derive(Debug, Clone, Copy, PartialEq, Eq, Structural)]
pub enum Mutation {
    /// A byte of the checksum is inverted.
    FlipCrc,
    /// A byte that the checksum covers is inverted.
    FlipBody,
    /// The type is zeroed.
    ZeroRecType,
    /// The length grows by eight.
    ExtendLength,
    /// A byte of the padding is inverted, or any byte that the checksum covers where
    /// there is no padding.
    TamperPadding,
    /// The type becomes a reserved one, under a checksum that matches.
    ReservedRecType,
}

impl Mutation {
    /// Whether the record does not hold any more. Each kind of damage sees to that.
    pub fn invalidates(self) -> (b: bool)
        ensures
            b,
    {
        true
    }
}

/// `bytes` with the byte at `at` inverted.
pub open spec fn inverted(bytes: Seq<u8>, at: int) -> Seq<u8> {
    bytes.update(at, bytes[at] ^ 0xff)
}

/// `bytes` with `part` written at `at`.
pub open spec fn overwritten(bytes: Seq<u8>, at: int, part: Seq<u8>) -> Seq<u8> {
    Seq::new(
        bytes.len(),
        |i: int|
            if at <= i < at + part.len() {
                part[i - at]
            } else {
                bytes[i]
            },
    )
}

/// `bytes` with the record of `framed` bytes at `off`, whose payload has `plen`
/// bytes, damaged. `sel` picks a byte where there is a choice.
pub open spec fn mutated(
    bytes: Seq<u8>,
    mutation: Mutation,
    off: int,
    framed: int,
    plen: int,
    sel: int,
) -> Seq<u8> {
    match mutation {
        Mutation::FlipCrc => inverted(bytes, off + sel % 4),
        Mutation::FlipBody => inverted(bytes, off + 4 + sel % (framed - 4)),
        Mutation::ZeroRecType => bytes.update(off + 16, 0),
        Mutation::ExtendLength => overwritten(bytes, off + 4, le32(((plen + 8) % 0x1_0000_0000) as u32)),
        Mutation::TamperPadding => if framed > 20 + plen {
            inverted(bytes, off + 20 + plen + sel % (framed - 20 - plen))
        } else {
            inverted(bytes, off + 4 + sel % (framed - 4))
        },
        Mutation::ReservedRecType => {
            let typed = bytes.update(off + 16, 2);
            overwritten(typed, off, le32(crc32c_of(typed.subrange(off + 4, off + framed))))
        },
    }
}

/// Inverts the byte at `at`.
fn invert(bytes: &mut Vec<u8>, at: usize)
    requires
        at < old(bytes)@.len(),
    ensures
        final(bytes)@ == inverted(old(bytes)@, at as int),
{
    let b: u8 = bytes[at];
    bytes.set(at, b ^ 0xff);
}

/// Writes a number of four bytes at `at`.
fn overwrite_u32(bytes: &mut Vec<u8>, at: usize, v: u32)
    requires
        at + 4 <= old(bytes)@.len(),
    ensures
        final(bytes)@ == overwritten(old(bytes)@, at as int, le32(v)),
{
    let len: usize = bytes.len();
    bytes.set(at, (v & 0xff) as u8);
    bytes.set(at + 1, ((v >> 8) & 0xff) as u8);
    bytes.set(at + 2, ((v >> 16) & 0xff) as u8);
    bytes.set(at + 3, ((v >> 24) & 0xff) as u8);
    assert(bytes@ =~= overwritten(old(bytes)@, at as int, le32(v)));
}

/// Damages the record of `framed` bytes at `off`, whose payload has `plen` bytes.
pub fn apply_mutation(
    bytes: &mut Vec<u8>,
    mutation: Mutation,
    off: usize,
    framed: usize,
    plen: usize,
    sel: u32,
)
    requires
        20 + plen <= framed,
        plen <= u32::MAX,
        off + framed <= old(bytes)@.len(),
    ensures
        final(bytes)@ == mutated(
            old(bytes)@,
            mutation,
            off as int,
            framed as int,
            plen as int,
            sel as int,
        ),
{
    let end: usize = bytes.len();
    let sel: usize = sel as usize;
    match mutation {
        Mutation::FlipCrc => {
            invert(bytes, off + sel % 4);
        },
        Mutation::FlipBody => {
            invert(bytes, off + 4 + sel % (framed - 4));
        },
        Mutation::ZeroRecType => {
            bytes.set(off + 16, 0);
        },
        Mutation::ExtendLength => {
            overwrite_u32(bytes, off + 4, (plen as u32).wrapping_add(8));
        },
        Mutation::TamperPadding => {
            let pad: usize = framed - 20 - plen;
            if pad > 0 {
                invert(bytes, off + 20 + plen + sel % pad);
            } else {
                invert(bytes, off + 4 + sel % (framed - 4));
            }
        },
        Mutation::ReservedRecType => {
            bytes.set(off + 16, 2);
            let crc: u32 = crc32c(&bytes[off + 4..off + framed]);
            overwrite_u32(bytes, off, crc);
        },
    }
}

/// Where a record stands in a segment.
#[derive(Debug, Clone, Copy)]
pub struct Placed {
    /// Offset of its frame.
    pub off: usize,
    /// Length of its frame.
    pub framed: usize,
    /// Length of its payload.
    pub plen: usize,
}

/// The payloads of a generated segment.
pub open spec fn built_payloads(raw: Seq<Vec<u8>>, cap: int, room: int, left: nat) -> Seq<Seq<u8>>
    decreases left,
{
    if left == 0 || raw.len() == 0 || frame_len(clipped(raw[0]@, cap).len() as int) > room {
        seq![]
    } else {
        let payload = clipped(raw[0]@, cap);
        seq![payload] + built_payloads(
            raw.drop_first(),
            cap,
            room - frame_len(payload.len() as int),
            (left - 1) as nat,
        )
    }
}

/// A generated segment.
#[derive(Debug)]
pub struct Built {
    /// The header and the frames.
    pub bytes: Vec<u8>,
    /// Where each record stands.
    pub recs: Vec<Placed>,
    /// The payloads.
    pub origs: Vec<Vec<u8>>,
}

/// The payloads as sequences.
pub open spec fn payload_views(payloads: Seq<Vec<u8>>) -> Seq<Seq<u8>> {
    payloads.map_values(|p: Vec<u8>| p@)
}

/// Whether `recs` say where the frames of `payloads` stand, from `at` on.
pub open spec fn places(recs: Seq<Placed>, payloads: Seq<Seq<u8>>) -> bool {
    &&& recs.len() == payloads.len()
    &&& forall|i: int|
        0 <= i < recs.len() ==> {
            &&& (#[trigger] recs[i]).off == 64 + span(payloads.take(i))
            &&& recs[i].plen == payloads[i].len()
            &&& recs[i].framed == frame_len(payloads[i].len() as int)
        }
}

/// Builds a segment at `base` from the first six payloads, each cut to 64 bytes and
/// to the bound, as far as they fit.
pub fn build_segment(base: u64, payloads: &Vec<Vec<u8>>, config: WalConfig) -> (built: Built)
    requires
        config.valid(),
        config.segment_size <= usize::MAX,
        base <= u64::MAX - 6,
    ensures
        ({
            let cap = if config.max_record_size < 64 {
                config.max_record_size as int
            } else {
                64
            };
            let chosen = built_payloads(payloads@, cap, config.segment_size - 64, 6);
            &&& payload_views(built.origs@) == chosen
            &&& built.bytes@ == header(base, 0) + frames(base, chosen)
            &&& places(built.recs@, chosen)
            &&& chosen.len() <= 6
        }),
{
    let cap: usize = if config.max_record_size < 64 {
        config.max_record_size as usize
    } else {
        64
    };
    let ghost room = config.segment_size - 64;
    let ghost whole = built_payloads(payloads@, cap as int, room, 6);
    let mut bytes: Vec<u8> = segment_header_bytes(base);
    let mut recs: Vec<Placed> = Vec::new();
    let mut origs: Vec<Vec<u8>> = Vec::new();
    let mut i: usize = 0;
    proof {
        assert(payload_views(origs@) =~= seq![]);
        assert(payloads@.skip(0) =~= payloads@);
        assert(payload_views(origs@) + whole =~= whole);
        assert(frames(base, payload_views(origs@)) =~= seq![]);
        assert(bytes@ =~= header(base, 0) + frames(base, payload_views(origs@)));
        assert(span(payload_views(origs@)) == 0);
    }
    while i < 6 && i < payloads.len()
        invariant
            i <= 6,
            i <= payloads@.len(),
            base <= u64::MAX - 6,
            cap <= 64,
            config.valid(),
            config.segment_size <= usize::MAX,
            room == config.segment_size - 64,
            whole == built_payloads(payloads@, cap as int, room, 6),
            origs@.len() == i,
            whole == payload_views(origs@) + built_payloads(
                payloads@.skip(i as int),
                cap as int,
                room - span(payload_views(origs@)),
                (6 - i) as nat,
            ),
            bytes@ == header(base, 0) + frames(base, payload_views(origs@)),
            bytes@.len() == 64 + span(payload_views(origs@)),
            bytes@.len() <= config.segment_size,
            places(recs@, payload_views(origs@)),
        ensures
            whole == payload_views(origs@),
        decreases 6 - i,
    {
        let ghost done = payload_views(origs@);
        let ghost left = payloads@.skip(i as int);
        let ghost payload = clipped(payloads@[i as int]@, cap as int);
        assert(left[0] == payloads@[i as int]);
        let raw: &Vec<u8> = &payloads[i];
        let plen: usize = if raw.len() < cap {
            raw.len()
        } else {
            cap
        };
        let off: usize = bytes.len();
        assert(raw@.subrange(0, plen as int) =~= payload);
        if framed_size(plen) > config.segment_size as usize - off {
            assert(done + Seq::<Seq<u8>>::empty() =~= done);
            break;
        }
        let lsn: u64 = base + i as u64;
        let framed: usize = encode_record_into(&mut bytes, lsn, &raw[0..plen]);
        let mut orig: Vec<u8> = Vec::new();
        orig.extend_from_slice(&raw[0..plen]);
        assert(orig@ =~= payload);
        let ghost old_recs = recs@;
        recs.push(Placed { off, framed, plen });
        origs.push(orig);
        i = i + 1;
        proof {
            let now = payload_views(origs@);
            assert(now =~= done + seq![payload]);
            assert(left.drop_first() =~= payloads@.skip(i as int));
            lemma_frames_concat(base, done, seq![payload]);
            lemma_span_concat(done, seq![payload]);
            lemma_frames_one(lsn, payload);
            lemma_frame_len(lsn, payload);
            assert(bytes@ =~= header(base, 0) + frames(base, now));
            let rest = built_payloads(
                left.drop_first(),
                cap as int,
                room - span(now),
                (6 - i) as nat,
            );
            assert(done + (seq![payload] + rest) =~= now + rest);
            assert forall|k: int| 0 <= k < recs@.len() implies {
                &&& (#[trigger] recs@[k]).off == 64 + span(now.take(k))
                &&& recs@[k].plen == now[k].len()
                &&& recs@[k].framed == frame_len(now[k].len() as int)
            } by {
                if k < old_recs.len() {
                    assert(old_recs[k].off == 64 + span(done.take(k)));
                    assert(now.take(k) =~= done.take(k));
                } else {
                    assert(now.take(k) =~= done);
                }
            }
        }
    }
    Built { bytes, recs, origs }
}

/// Whether a replay is the dense run from `base` to `durable` with these payloads.
pub open spec fn dense_prefix(
    replay: Seq<(u64, Vec<u8>)>,
    base: u64,
    durable: u64,
    origs: Seq<Vec<u8>>,
) -> bool {
    &&& replay.len() == durable + 1 - base
    &&& replay.len() <= origs.len()
    &&& forall|i: int|
        0 <= i < replay.len() ==> (#[trigger] replay[i]).0 == base + i && replay[i].1@ == origs[i]@
}

/// Whether two byte strings are equal.
fn same_bytes(a: &Vec<u8>, b: &Vec<u8>) -> (same: bool)
    ensures
        same == (a@ == b@),
{
    if a.len() != b.len() {
        return false;
    }
    let mut i: usize = 0;
    while i < a.len()
        invariant
            i <= a@.len(),
            a@.len() == b@.len(),
            forall|j: int| 0 <= j < i ==> a@[j] == b@[j],
        decreases a@.len() - i,
    {
        if a[i] != b[i] {
            return false;
        }
        i = i + 1;
    }
    assert(a@ =~= b@);
    true
}

/// Checks that a replay is the dense run from `base` to `durable`, with the payloads
/// that were built.
pub fn check_dense_prefix(
    replay: &Vec<(u64, Vec<u8>)>,
    base: u64,
    durable: u64,
    origs: &Vec<Vec<u8>>,
) -> (ok: bool)
    ensures
        ok == dense_prefix(replay@, base, durable, origs@),
{
    let n: usize = replay.len();
    if n > origs.len() || base as u128 + n as u128 != durable as u128 + 1 {
        return false;
    }
    let mut i: usize = 0;
    while i < n
        invariant
            i <= n,
            n == replay@.len(),
            n <= origs@.len(),
            base + n == durable + 1,
            forall|j: int|
                0 <= j < i ==> (#[trigger] replay@[j]).0 == base + j && replay@[j].1@ == origs@[j]@,
        decreases n - i,
    {
        if replay[i].0 != base + i as u64 {
            return false;
        }
        if !same_bytes(&replay[i].1, &origs[i]) {
            assert(replay@[i as int].1@ != origs@[i as int]@);
            return false;
        }
        i = i + 1;
    }
    true
}

/// What opening a generated segment came to.
#[derive(Debug, Clone, Copy)]
pub enum Opened {
    /// It opened.
    Recovered {
        /// Base of the oldest segment.
        oldest: u64,
        /// LSN of the last record.
        durable: u64,
        /// State of the tail.
        tail: TailState,
    },
    /// It failed with `TornMidLog` or `Corruption`.
    Damaged,
    /// It failed otherwise.
    Failed,
}

/// Whether that is right for `n` records from `base` on, of which the one at `index`
/// and `offset` was damaged. Damage in front of a record is fatal; damage to the last
/// record cuts the log off there.
pub open spec fn right_outcome(
    opened: Opened,
    base: u64,
    n: int,
    damaged: Option<(usize, usize)>,
) -> bool {
    match opened {
        Opened::Recovered { oldest, durable, tail } => {
            &&& oldest == base
            &&& base <= durable + 1 && durable <= base + n
            &&& damaged matches Some((index, offset)) ==> {
                &&& index == n - 1
                &&& durable == base + index - 1
                &&& tail == (TailState::TruncatedAt {
                    segment_base: Lsn(base),
                    offset: offset as u64,
                })
            }
        },
        Opened::Damaged => damaged matches Some((index, _)) && index < n - 1,
        Opened::Failed => false,
    }
}

/// Checks what opening a generated segment came to.
pub fn check_outcome(
    opened: Opened,
    base: u64,
    n: usize,
    damaged: Option<(usize, usize)>,
) -> (ok: bool)
    ensures
        ok == right_outcome(opened, base, n as int, damaged),
{
    match opened {
        Opened::Recovered { oldest, durable, tail } => {
            let (low, high) = (base as u128, base as u128 + n as u128);
            if oldest != base || low > durable as u128 + 1 || durable as u128 > high {
                return false;
            }
            match damaged {
                None => true,
                Some((index, offset)) => {
                    if index as u128 + 1 != n as u128 || durable as u128 + 1 != low + index as u128 {
                        return false;
                    }
                    match tail {
                        TailState::TruncatedAt { segment_base, offset: cut } => segment_base.0
                            == base && cut == offset as u64,
                        TailState::Clean => false,
                    }
                },
            }
        },
        Opened::Damaged => match damaged {
            Some((index, _)) => (index as u128) + 1 < n as u128,
            None => false,
        },
        Opened::Failed => false,
    }
}

/// Damage is damage: a record that was mutated is neither a record nor an end of the
/// records any more. Where a mutation changes the length field this is not claimed,
/// as the frame then covers other bytes.
pub proof fn law_mutation_invalidates(
    bytes: Seq<u8>,
    mutation: Mutation,
    off: int,
    lsn: u64,
    payload: Seq<u8>,
    sel: int,
    size: int,
    max: u32,
)
    requires
        1 <= lsn,
        payload.len() <= max,
        0 <= sel,
        holds_at(bytes, off, frame(lsn, payload)),
        off + frame(lsn, payload).len() <= size,
        ({
            let framed = frame_len(payload.len() as int);
            let plen = payload.len() as int;
            match mutation {
                Mutation::ExtendLength => false,
                Mutation::FlipBody => sel % (framed - 4) >= 4,
                Mutation::TamperPadding => framed > 20 + plen || sel % (framed - 4) >= 4,
                _ => true,
            }
        }),
    ensures
        slot_at(
            mutated(
                bytes,
                mutation,
                off,
                frame_len(payload.len() as int),
                payload.len() as int,
                sel,
            ),
            off,
            size,
            max,
        ) is Invalid,
{
    let f = frame(lsn, payload);
    let framed = frame_len(payload.len() as int);
    let plen = payload.len() as int;
    let after = mutated(bytes, mutation, off, framed, plen, sel);
    lemma_frame_len(lsn, payload);
    assert forall|i: int| 0 <= i < f.len() implies bytes[off + i] == f[i] by {
        assert(bytes.subrange(off, off + f.len())[i] == f[i]);
    }
    assert(f =~= f.subrange(0, f.len() as int));
    lemma_frame_fields(lsn, payload, f);
    if mutation is ReservedRecType {
        let end = if after.len() < size {
            after.len() as int
        } else {
            size
        };
        let buf = after.subrange(off, end);
        let typed = bytes.update(off + 16, 2);
        let crc = crc32c_of(typed.subrange(off + 4, off + framed));
        assert(buf.subrange(0, 4) =~= le32(crc));
        lemma_le32_round_trip(crc, buf, 0);
        assert(buf.subrange(4, framed) =~= typed.subrange(off + 4, off + framed));
        assert(u32_at(buf, 4) == u32_at(f, 4));
        assert(buf[16] == 2);
        reveal(parse);
        assert(after.subrange(off, off + 20)[16] == 2);
        assert(zeros(20)[16] == 0);
    } else {
        let i = match mutation {
            Mutation::FlipCrc => sel % 4,
            Mutation::FlipBody => 4 + sel % (framed - 4),
            Mutation::ZeroRecType => 16,
            Mutation::TamperPadding => if framed > 20 + plen {
                20 + plen + sel % (framed - 20 - plen)
            } else {
                4 + sel % (framed - 4)
            },
            _ => 0,
        };
        let byte = after[off + i];
        let old_byte = f[i];
        assert(old_byte ^ 0xff != old_byte) by (bit_vector);
        assert(byte != f[i]);
        assert(after.subrange(off, off + f.len()) =~= f.update(i, byte));
        law_changed_byte_is_invalid(after, off, lsn, payload, i, byte, size, max);
    }
}

} // verus!
