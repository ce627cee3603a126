//! Segments: header, file names, and the scanner that recovery and readers share.
//!
//! A segment is a file of fixed size, named by the LSN of its first record. It
//! starts with a header of 64 bytes; records follow back to back, and zeros fill
//! the rest.
//!
//! | Offset | Size | Field |
//! |---|---|---|
//! | 0 | 8 | `WAL\0SEG1` |
//! | 8 | 2 | format version, 1 |
//! | 10 | 2 | flags, zero |
//! | 12 | 8 | LSN of the first record |
//! | 20 | 8 | time of creation, for people |
//! | 28 | 32 | zero |
//! | 60 | 4 | CRC-32C of the first 60 bytes |

use vstd::prelude::*;

use crate::bytes::get_u16;
use crate::bytes::get_u32;
use crate::bytes::get_u64;
use crate::bytes::le16;
use crate::bytes::le32;
use crate::bytes::le64;
use crate::bytes::lemma_le16_round_trip;
use crate::bytes::lemma_le32_round_trip;
use crate::bytes::lemma_le64_round_trip;
use crate::bytes::lemma_u32_at_injective;
use crate::bytes::put_u16;
use crate::bytes::put_u32;
use crate::bytes::put_u64;
use crate::bytes::u16_at;
use crate::bytes::u32_at;
use crate::bytes::u64_at;
use crate::crc::crc32c;
use crate::crc::crc32c_of;
use crate::crc::law_one_changed_byte_changes_checksum;
use crate::error::WalError;
use crate::lsn::Lsn;
use crate::record::decode;
use crate::record::frame_len;
use crate::record::parse;
use crate::record::zeros;
use crate::record::Decoded;
use crate::record::Parsed;
use crate::record::RECORD_HEADER_SIZE;
use crate::text::digits_value;
use crate::text::is_digit;
use crate::text::lemma_digits_are_padded;
use crate::text::lemma_digits_value_grows;
use crate::text::lemma_padded;
use crate::text::lemma_padded_holds_u64;
use crate::text::padded;
use crate::text::push_padded;

verus! {

/// Size of a segment's header.
pub const HEADER_SIZE: u64 = 64;

/// Version of the format.
pub const FORMAT_VERSION: u16 = 1;

/// The first eight bytes of a segment: `WAL\0SEG1`.
pub open spec fn magic() -> Seq<u8> {
    seq![0x57u8, 0x41, 0x4C, 0x00, 0x53, 0x45, 0x47, 0x31]
}

/// What the header's checksum covers.
pub open spec fn header_body(base: u64, created: u64) -> Seq<u8> {
    magic() + le16(FORMAT_VERSION) + le16(0) + le64(base) + le64(created) + zeros(32)
}

/// The header of the segment whose first record is `base`.
pub open spec fn header(base: u64, created: u64) -> Seq<u8> {
    header_body(base, created) + le32(crc32c_of(header_body(base, created)))
}

/// The base that the header at the front of `file` promises, if it is a header.
pub open spec fn header_base(file: Seq<u8>) -> Option<u64> {
    if file.len() >= HEADER_SIZE && file.subrange(0, 8) == magic() && crc32c_of(
        file.subrange(0, 60),
    ) == u32_at(file, 60) && u16_at(file, 8) == FORMAT_VERSION && u64_at(file, 12) != 0 {
        Some(u64_at(file, 12))
    } else {
        None
    }
}

/// What a valid header says.
#[derive(Debug, Clone, Copy)]
pub struct SegmentHeader {
    /// LSN of the segment's first record, never the reserved one.
    pub base_lsn: Lsn,
}

/// The header of the segment at `base_lsn`.
pub fn encode_header(base_lsn: Lsn, created_unix_nanos: u64) -> (h: Vec<u8>)
    ensures
        h@ == header(base_lsn.0, created_unix_nanos),
        h@.len() == HEADER_SIZE,
{
    let mut h: Vec<u8> = Vec::new();
    h.push(0x57);
    h.push(0x41);
    h.push(0x4C);
    h.push(0x00);
    h.push(0x53);
    h.push(0x45);
    h.push(0x47);
    h.push(0x31);
    put_u16(&mut h, FORMAT_VERSION);
    put_u16(&mut h, 0);
    put_u64(&mut h, base_lsn.0);
    put_u64(&mut h, created_unix_nanos);
    let ghost fields = h@;
    assert(fields =~= magic() + le16(FORMAT_VERSION) + le16(0) + le64(base_lsn.0) + le64(
        created_unix_nanos,
    ));
    let mut i: usize = 0;
    while i < 32
        invariant
            i <= 32,
            h@ == fields + zeros(i as nat),
        decreases 32 - i,
    {
        h.push(0);
        i = i + 1;
        assert(h@ =~= fields + zeros(i as nat));
    }
    let crc: u32 = crc32c(h.as_slice());
    put_u32(&mut h, crc);
    h
}

/// Whether the first eight bytes are the magic.
fn has_magic(bytes: &[u8]) -> (b: bool)
    requires
        bytes@.len() >= 8,
    ensures
        b == (bytes@.subrange(0, 8) == magic()),
{
    let b = bytes[0] == 0x57 && bytes[1] == 0x41 && bytes[2] == 0x4C && bytes[3] == 0x00 && bytes[4]
        == 0x53 && bytes[5] == 0x45 && bytes[6] == 0x47 && bytes[7] == 0x31;
    proof {
        let s = bytes@.subrange(0, 8);
        if b {
            assert(s =~= magic());
        } else {
            assert(forall|i: int| 0 <= i < 8 ==> s[i] == bytes@[i]);
            assert(s[0] == bytes@[0]);
            assert(s != magic());
        }
    }
    b
}

/// Validates a segment's header. A header is written and synced before any
/// record, so a bad one is never a torn tail.
pub fn decode_header(bytes: &[u8]) -> (r: Result<SegmentHeader, WalError>)
    ensures
        match r {
            Ok(h) => header_base(bytes@) == Some(h.base_lsn.0),
            Err(WalError::BadSegmentHeader) => header_base(bytes@) is None,
            Err(_) => false,
        },
        r matches Ok(h) ==> h.base_lsn.0 != 0,
{
    if (bytes.len() as u64) < HEADER_SIZE {
        return Err(WalError::BadSegmentHeader);
    }
    if !has_magic(bytes) {
        return Err(WalError::BadSegmentHeader);
    }
    let stored: u32 = get_u32(bytes, 60);
    if crc32c(&bytes[0..60]) != stored {
        return Err(WalError::BadSegmentHeader);
    }
    if get_u16(bytes, 8) != FORMAT_VERSION {
        return Err(WalError::BadSegmentHeader);
    }
    let base_lsn = Lsn(get_u64(bytes, 12));
    if base_lsn.is_none() {
        return Err(WalError::BadSegmentHeader);
    }
    Ok(SegmentHeader { base_lsn })
}

/// The name of the segment at `base`: twenty digits and `.wal`.
pub open spec fn segment_name(base: u64) -> Seq<char> {
    padded(base as nat, 20) + ".wal"@
}

/// The file name of the segment at `base_lsn`.
pub fn filename_for(base_lsn: Lsn) -> (name: String)
    ensures
        name@ == segment_name(base_lsn.0),
{
    let mut name = String::new();
    push_padded(&mut name, base_lsn.0, 20);
    assert(name@ =~= padded(base_lsn.0 as nat, 20));
    name.append(".wal");
    name
}

/// The base in a segment's file name, or `None` for any other name.
pub fn parse_base_lsn(name: &str) -> (r: Option<u64>)
    ensures
        match r {
            Some(base) => name@ == segment_name(base),
            None => forall|base: u64| name@ != segment_name(base),
        },
{
    proof {
        reveal_strlit(".wal");
        assert forall|base: u64| true implies #[trigger] segment_name(base).len() == 24 by {
            lemma_padded(base as nat, 20);
        }
    }
    if name.unicode_len() != 24 {
        return None;
    }
    let suffix_ok = name.get_char(20) == '.' && name.get_char(21) == 'w' && name.get_char(22) == 'a'
        && name.get_char(23) == 'l';
    if !suffix_ok {
        proof {
            assert forall|base: u64| true implies name@ != #[trigger] segment_name(base) by {
                lemma_padded(base as nat, 20);
                let s = segment_name(base);
                assert(s[20] == '.' && s[21] == 'w' && s[22] == 'a' && s[23] == 'l');
            }
        }
        return None;
    }
    let ghost digits = name@.take(20);
    let mut base: u64 = 0;
    let mut i: usize = 0;
    while i < 20
        invariant
            i <= 20,
            name@.len() == 24,
            digits == name@.take(20),
            ".wal"@.len() == 4,
            forall|j: int| 0 <= j < i ==> is_digit(digits[j]),
            base == digits_value(digits.take(i as int)),
        decreases 20 - i,
    {
        let c: char = name.get_char(i);
        let code: u32 = c as u32;
        let ghost taken = digits.take(i + 1);
        assert(taken.drop_last() =~= digits.take(i as int));
        assert(taken.last() == c);
        if code < 48 || code > 57 {
            proof {
                assert forall|b: u64| true implies name@ != #[trigger] segment_name(b) by {
                    lemma_padded(b as nat, 20);
                    assert(segment_name(b)[i as int] == padded(b as nat, 20)[i as int]);
                    assert(name@[i as int] == c);
                }
            }
            return None;
        }
        let d: u64 = (code - 48) as u64;
        if base > (u64::MAX - d) / 10 {
            proof {
                assert(digits_value(taken) > u64::MAX);
                lemma_digits_value_grows(digits, i + 1);
                assert forall|b: u64| true implies name@ != #[trigger] segment_name(b) by {
                    lemma_padded(b as nat, 20);
                    if name@ == segment_name(b) {
                        assert(digits =~= padded(b as nat, 20));
                    }
                }
            }
            return None;
        }
        base = base * 10 + d;
        i = i + 1;
    }
    proof {
        assert(digits.take(20) =~= digits);
        lemma_digits_are_padded(digits);
        assert(name@ =~= digits + ".wal"@);
    }
    Some(base)
}

/// What stands at an offset of a segment.
pub enum Slot {
    /// A record.
    Record { lsn: u64, payload: Seq<u8> },
    /// The end of the records.
    End,
    /// Something that is neither.
    Invalid,
}

/// What stands at offset `at` of a segment of `size` bytes whose file holds
/// `file`, with payloads bounded by `max`. The records end where no header fits
/// into the segment any more, or at a header of zeros.
pub open spec fn slot_at(file: Seq<u8>, at: int, size: int, max: u32) -> Slot {
    if size - at < RECORD_HEADER_SIZE {
        Slot::End
    } else if file.len() < at + RECORD_HEADER_SIZE {
        Slot::Invalid
    } else if file.subrange(at, at + RECORD_HEADER_SIZE) == zeros(RECORD_HEADER_SIZE as nat) {
        Slot::End
    } else {
        let end = if file.len() < size {
            file.len() as int
        } else {
            size
        };
        match parse(file.subrange(at, end), max) {
            Parsed::Record { lsn, payload } => Slot::Record { lsn, payload },
            _ => Slot::Invalid,
        }
    }
}

/// A record in a segment lies within the segment and the file.
pub proof fn lemma_record_fits(file: Seq<u8>, at: int, size: int, max: u32)
    requires
        0 <= at,
    ensures
        slot_at(file, at, size, max) matches Slot::Record { payload, .. } ==> {
            &&& payload.len() <= max
            &&& 20 <= frame_len(payload.len() as int)
            &&& at + frame_len(payload.len() as int) <= size
            &&& at + frame_len(payload.len() as int) <= file.len()
        },
{
    let end = if file.len() < size {
        file.len() as int
    } else {
        size
    };
    if slot_at(file, at, size, max) is Record {
        reveal(parse);
        let buf = file.subrange(at, end);
        assert(buf.len() == end - at);
    }
}

/// What the scanner found at an offset.
#[derive(Debug)]
pub enum ScanOutcome<'a> {
    /// A record: bounds and checksum hold.
    Record {
        /// The record's LSN. Whether it continues the log is the caller's check.
        lsn: Lsn,
        /// The payload, borrowed from the file's bytes.
        payload: &'a [u8],
        /// Length of the frame.
        framed_len: usize,
    },
    /// The end of the segment's records, never a torn tail.
    CleanEnd,
    /// No record, and no clean end either: a length over the bound, a frame that
    /// overruns the segment or the file, a wrong checksum or type.
    Invalid,
}

impl<'a> View for ScanOutcome<'a> {
    type V = Slot;

    open spec fn view(&self) -> Slot {
        match *self {
            ScanOutcome::Record { lsn, payload, .. } => Slot::Record {
                lsn: lsn.0,
                payload: payload@,
            },
            ScanOutcome::CleanEnd => Slot::End,
            ScanOutcome::Invalid => Slot::Invalid,
        }
    }
}

/// Whether the record header at `at` holds zeros only.
fn is_zero_header(file: &[u8], at: usize) -> (b: bool)
    requires
        at + RECORD_HEADER_SIZE <= file@.len(),
    ensures
        b == (file@.subrange(at as int, at + RECORD_HEADER_SIZE) == zeros(
            RECORD_HEADER_SIZE as nat,
        )),
{
    let ghost head = file@.subrange(at as int, at + RECORD_HEADER_SIZE);
    let end: usize = file.len();
    let mut i: usize = 0;
    while i < RECORD_HEADER_SIZE
        invariant
            i <= RECORD_HEADER_SIZE,
            end == file@.len(),
            at + RECORD_HEADER_SIZE <= file@.len(),
            head == file@.subrange(at as int, at + RECORD_HEADER_SIZE),
            forall|j: int| 0 <= j < i ==> head[j] == 0,
        decreases RECORD_HEADER_SIZE - i,
    {
        if file[at + i] != 0 {
            assert(head[i as int] != zeros(RECORD_HEADER_SIZE as nat)[i as int]);
            return false;
        }
        assert(head[i as int] == 0);
        i = i + 1;
    }
    assert(head =~= zeros(RECORD_HEADER_SIZE as nat));
    true
}

/// Reads what stands at `offset` of a segment whose file holds `file`. It looks
/// at no byte beyond `segment_size` or the end of the file, whatever a damaged
/// length says.
pub fn read_record_at(file: &[u8], offset: u64, segment_size: u64, max_record_size: u32) -> (out:
    ScanOutcome<'_>)
    ensures
        out@ == slot_at(file@, offset as int, segment_size as int, max_record_size),
        out matches ScanOutcome::Record { payload, framed_len, .. } ==> framed_len == frame_len(
            payload@.len() as int,
        ) && offset + framed_len <= segment_size && offset + framed_len <= file@.len(),
{
    let remaining: u64 = segment_size.saturating_sub(offset);
    if remaining < RECORD_HEADER_SIZE as u64 {
        return ScanOutcome::CleanEnd;
    }
    // A file shorter than its segment was cut off: a boundary, not a clean end.
    let len: u64 = file.len() as u64;
    if len < offset || len - offset < RECORD_HEADER_SIZE as u64 {
        return ScanOutcome::Invalid;
    }
    let at: usize = offset as usize;
    if is_zero_header(file, at) {
        return ScanOutcome::CleanEnd;
    }
    let end: usize = if len < segment_size {
        file.len()
    } else {
        segment_size as usize
    };
    match decode(&file[at..end], max_record_size) {
        Decoded::Record { lsn, payload, framed_len } => ScanOutcome::Record {
            lsn,
            payload,
            framed_len,
        },
        _ => ScanOutcome::Invalid,
    }
}

/// Nothing behind the end of a segment is looked at.
pub proof fn law_scan_stays_within_the_segment(file: Seq<u8>, at: int, size: int, max: u32)
    requires
        0 <= at,
        0 <= size <= file.len(),
    ensures
        slot_at(file, at, size, max) == slot_at(file.take(size), at, size, max),
{
    if size - at >= RECORD_HEADER_SIZE {
        assert(file.subrange(at, at + RECORD_HEADER_SIZE) =~= file.take(size).subrange(
            at,
            at + RECORD_HEADER_SIZE,
        ));
        assert(file.subrange(at, size) =~= file.take(size).subrange(at, size));
    }
}

/// A header says which segment it heads, whatever follows it.
pub proof fn law_header_round_trip(base: u64, created: u64, rest: Seq<u8>)
    requires
        base != 0,
    ensures
        header_base(header(base, created) + rest) == Some(base),
{
    let body = header_body(base, created);
    let file = header(base, created) + rest;
    assert(body.len() == 60);
    assert(file.subrange(0, 60) =~= body);
    assert(file.subrange(0, 8) =~= magic());
    assert(file.subrange(8, 10) =~= le16(FORMAT_VERSION));
    assert(file.subrange(12, 20) =~= le64(base));
    assert(file.subrange(60, 64) =~= le32(crc32c_of(body)));
    lemma_le16_round_trip(FORMAT_VERSION, file, 8);
    lemma_le64_round_trip(base, file, 12);
    lemma_le32_round_trip(crc32c_of(body), file, 60);
}

/// A header with one byte changed is no header.
pub proof fn law_changed_header_byte_is_rejected(
    base: u64,
    created: u64,
    rest: Seq<u8>,
    at: int,
    byte: u8,
)
    requires
        0 <= at < HEADER_SIZE,
        byte != header(base, created)[at],
    ensures
        header_base(header(base, created).update(at, byte) + rest) is None,
{
    let body = header_body(base, created);
    let good = header(base, created);
    let file = good.update(at, byte) + rest;
    assert(body.len() == 60);
    assert(good.subrange(60, 64) =~= le32(crc32c_of(body)));
    lemma_le32_round_trip(crc32c_of(body), good, 60);
    if at < 60 {
        assert(file.subrange(0, 60) =~= body.update(at, byte));
        assert(file.subrange(60, 64) =~= le32(crc32c_of(body)));
        lemma_le32_round_trip(crc32c_of(body), file, 60);
        law_one_changed_byte_changes_checksum(body, at, byte);
    } else {
        assert(file.subrange(0, 60) =~= body);
        if u32_at(file, 60) == u32_at(good, 60) {
            lemma_u32_at_injective(file, good, 60);
        }
    }
}

/// No two segments share a file name.
pub proof fn law_segment_names_are_distinct(a: u64, b: u64)
    requires
        segment_name(a) == segment_name(b),
    ensures
        a == b,
{
    lemma_padded(a as nat, 20);
    lemma_padded(b as nat, 20);
    lemma_padded_holds_u64(a);
    lemma_padded_holds_u64(b);
    assert(segment_name(a).take(20) =~= padded(a as nat, 20));
    assert(segment_name(b).take(20) =~= padded(b as nat, 20));
}

} // verus!
