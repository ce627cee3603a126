//! The record codec: one record framed as bytes.
//!
//! | Offset | Size | Field |
//! |---|---|---|
//! | 0 | 4 | CRC-32C of everything after this field, padding included |
//! | 4 | 4 | payload length |
//! | 8 | 8 | LSN |
//! | 16 | 1 | type: 1 for a record, 0 never, the rest reserved |
//! | 17 | 3 | reserved, zero |
//! | 20 | length | payload |
//! | | 0 to 7 | zeros up to a multiple of 8 |
//!
//! All integers are little-endian. Whether an LSN continues the log is not the
//! codec's concern.

use vstd::prelude::*;

use crate::bytes::get_u32;
use crate::bytes::get_u64;
use crate::bytes::le32;
use crate::bytes::le64;
use crate::bytes::lemma_le32_round_trip;
use crate::bytes::lemma_le64_round_trip;
use crate::bytes::lemma_u32_at_injective;
use crate::bytes::put_u32;
use crate::bytes::put_u64;
use crate::bytes::u32_at;
use crate::bytes::u64_at;
use crate::crc::crc32c;
use crate::crc::crc32c_of;
use crate::crc::law_one_changed_byte_changes_checksum;
use crate::lsn::Lsn;

verus! {

/// Size of the fixed record header.
pub const RECORD_HEADER_SIZE: usize = 20;

/// Type of a record.
pub const REC_TYPE_FULL: u8 = 1;

/// Type that no record has.
pub const REC_TYPE_SENTINEL: u8 = 0;

/// `n` zero bytes.
pub open spec fn zeros(n: nat) -> Seq<u8> {
    Seq::new(n, |i: int| 0u8)
}

/// Length of the padding behind a payload of `n` bytes.
pub open spec fn pad_len(n: int) -> int {
    (8 - (20 + n) % 8) % 8
}

/// Length of the frame around a payload of `n` bytes.
pub open spec fn frame_len(n: int) -> int {
    20 + n + pad_len(n)
}

/// What a record's checksum covers.
pub open spec fn frame_tail(lsn: u64, payload: Seq<u8>) -> Seq<u8> {
    le32(payload.len() as u32) + le64(lsn) + seq![REC_TYPE_FULL, 0u8, 0u8, 0u8] + payload + zeros(
        pad_len(payload.len() as int) as nat,
    )
}

/// A record as bytes.
#[verifier::opaque]
pub open spec fn frame(lsn: u64, payload: Seq<u8>) -> Seq<u8> {
    le32(crc32c_of(frame_tail(lsn, payload))) + frame_tail(lsn, payload)
}

/// What stands at the front of some bytes.
pub enum Parsed {
    /// A record whose checksum holds.
    Record { lsn: u64, payload: Seq<u8> },
    /// A header of the type that no record has.
    Sentinel,
    /// Too few bytes for the header, or for the frame that it announces.
    Incomplete,
    /// A header whose record does not hold.
    Invalid(DecodeError),
}

/// Why a record that has a header does not hold.
#[derive(Debug, Clone, Copy, PartialEq, Eq, Structural)]
pub enum DecodeError {
    /// The length is over the bound.
    LengthTooLarge,
    /// The checksum does not match.
    BadCrc,
    /// The checksum matches, but the type is a reserved one.
    UnknownRecType,
}

/// The record at the front of `buf`, with payloads bounded by `max`.
#[verifier::opaque]
pub open spec fn parse(buf: Seq<u8>, max: u32) -> Parsed {
    let len = u32_at(buf, 4);
    if buf.len() < RECORD_HEADER_SIZE {
        Parsed::Incomplete
    } else if buf[16] == REC_TYPE_SENTINEL {
        Parsed::Sentinel
    } else if len > max {
        Parsed::Invalid(DecodeError::LengthTooLarge)
    } else if buf.len() < frame_len(len as int) {
        Parsed::Incomplete
    } else if crc32c_of(buf.subrange(4, frame_len(len as int))) != u32_at(buf, 0) {
        Parsed::Invalid(DecodeError::BadCrc)
    } else if buf[16] != REC_TYPE_FULL {
        Parsed::Invalid(DecodeError::UnknownRecType)
    } else {
        Parsed::Record { lsn: u64_at(buf, 8), payload: buf.subrange(20, 20 + len) }
    }
}

/// Number of zero bytes behind a payload of `payload_len` bytes.
#[must_use]
pub fn padding_for(payload_len: usize) -> (pad: usize)
    ensures
        pad == pad_len(payload_len as int),
        pad < 8,
{
    (8 - (RECORD_HEADER_SIZE % 8 + payload_len % 8) % 8) % 8
}

/// `padding_for` over 64 bits, whatever the width of `usize`.
#[must_use]
pub fn padding_for_u64(payload_len: u64) -> (pad: u64)
    ensures
        pad == pad_len(payload_len as int),
        pad < 8,
{
    (8 - (RECORD_HEADER_SIZE as u64 % 8 + payload_len % 8) % 8) % 8
}

/// Length of the frame around a payload of `payload_len` bytes, a multiple of 8.
#[must_use]
pub fn framed_size(payload_len: usize) -> (n: usize)
    requires
        frame_len(payload_len as int) <= usize::MAX,
    ensures
        n == frame_len(payload_len as int),
        n % 8 == 0,
{
    RECORD_HEADER_SIZE + payload_len + padding_for(payload_len)
}

/// `framed_size` over 64 bits, so that sizing a record cannot wrap where `usize`
/// has 32 bits.
#[must_use]
pub fn framed_size_u64(payload_len: u64) -> (n: u64)
    requires
        frame_len(payload_len as int) <= u64::MAX,
    ensures
        n == frame_len(payload_len as int),
        n % 8 == 0,
{
    RECORD_HEADER_SIZE as u64 + payload_len + padding_for_u64(payload_len)
}

/// What decoding the front of a byte slice found.
#[derive(Debug)]
pub enum Decoded<'a> {
    /// A record: bounds and checksum hold.
    Record {
        /// The record's LSN.
        lsn: Lsn,
        /// The payload, borrowed from the input.
        payload: &'a [u8],
        /// Length of the frame.
        framed_len: usize,
    },
    /// A header of the type that no record has.
    Sentinel,
    /// Too few bytes for the header or the frame.
    Incomplete,
    /// A header whose record does not hold.
    Invalid(DecodeError),
}

impl<'a> View for Decoded<'a> {
    type V = Parsed;

    open spec fn view(&self) -> Parsed {
        match *self {
            Decoded::Record { lsn, payload, .. } => Parsed::Record { lsn: lsn.0, payload: payload@ },
            Decoded::Sentinel => Parsed::Sentinel,
            Decoded::Incomplete => Parsed::Incomplete,
            Decoded::Invalid(e) => Parsed::Invalid(e),
        }
    }
}

/// Appends the frame of one record to `buf` and returns the frame's length.
pub fn encode_into(buf: &mut Vec<u8>, lsn: Lsn, payload: &[u8]) -> (framed: usize)
    requires
        payload@.len() <= u32::MAX,
    ensures
        final(buf)@ == old(buf)@ + frame(lsn.0, payload@),
        framed == frame_len(payload@.len() as int),
        framed == frame(lsn.0, payload@).len(),
{
    reveal(frame);
    let ghost before = buf@;
    let ghost tail = frame_tail(lsn.0, payload@);
    let start: usize = buf.len();
    let pad: usize = padding_for(payload.len());
    // One reservation, so that a buffer that is too small grows once.
    if payload.len() <= usize::MAX - RECORD_HEADER_SIZE - 7 {
        buf.reserve(framed_size(payload.len()));
    }
    put_u32(buf, 0);
    put_u32(buf, payload.len() as u32);
    put_u64(buf, lsn.0);
    buf.push(REC_TYPE_FULL);
    buf.push(0);
    buf.push(0);
    buf.push(0);
    buf.extend_from_slice(payload);
    let ghost unpadded = buf@;
    let mut i: usize = 0;
    while i < pad
        invariant
            i <= pad,
            buf@ == unpadded + zeros(i as nat),
        decreases pad - i,
    {
        buf.push(0);
        i = i + 1;
        assert(buf@ =~= unpadded + zeros(i as nat));
    }
    let framed: usize = buf.len() - start;
    assert(buf@ =~= before + le32(0) + tail);
    let crc: u32 = crc32c(&buf[start + 4..start + framed]);
    assert((before + le32(0) + tail).subrange(start + 4, start + framed) =~= tail);
    buf.set(start, (crc & 0xff) as u8);
    buf.set(start + 1, ((crc >> 8) & 0xff) as u8);
    buf.set(start + 2, ((crc >> 16) & 0xff) as u8);
    buf.set(start + 3, ((crc >> 24) & 0xff) as u8);
    assert(buf@ =~= before + frame(lsn.0, payload@));
    framed
}

/// Decodes the record at the front of `buf`, with payloads bounded by
/// `max_record_size`. It reads no byte outside `buf`, whatever `buf` holds.
pub fn decode(buf: &[u8], max_record_size: u32) -> (d: Decoded<'_>)
    ensures
        d@ == parse(buf@, max_record_size),
        d matches Decoded::Record { payload, framed_len, .. } ==> framed_len == frame_len(
            payload@.len() as int,
        ) && framed_len <= buf@.len(),
{
    reveal(parse);
    if buf.len() < RECORD_HEADER_SIZE {
        return Decoded::Incomplete;
    }
    let rec_type: u8 = buf[16];
    if rec_type == REC_TYPE_SENTINEL {
        return Decoded::Sentinel;
    }
    let length: u32 = get_u32(buf, 4);
    // The bound comes before any look at the payload.
    if length > max_record_size {
        return Decoded::Invalid(DecodeError::LengthTooLarge);
    }
    let framed_u64: u64 = framed_size_u64(length as u64);
    if framed_u64 > buf.len() as u64 {
        return Decoded::Incomplete;
    }
    let framed: usize = framed_u64 as usize;
    let stored: u32 = get_u32(buf, 0);
    let computed: u32 = crc32c(&buf[4..framed]);
    if computed != stored {
        return Decoded::Invalid(DecodeError::BadCrc);
    }
    if rec_type != REC_TYPE_FULL {
        return Decoded::Invalid(DecodeError::UnknownRecType);
    }
    let lsn = Lsn(get_u64(buf, 8));
    Decoded::Record { lsn, payload: &buf[20..20 + length as usize], framed_len: framed }
}

/// LSN and frame length of the record at the front of `buf`, which holds frames
/// that this codec wrote.
pub fn peek(buf: &[u8]) -> (r: (Lsn, usize))
    requires
        buf@.len() >= RECORD_HEADER_SIZE,
        frame_len(u32_at(buf@, 4) as int) <= usize::MAX,
    ensures
        r.0.0 == u64_at(buf@, 8),
        r.1 == frame_len(u32_at(buf@, 4) as int),
{
    (Lsn(get_u64(buf, 8)), framed_size(get_u32(buf, 4) as usize))
}

/// A frame's length, and where its fields lie.
pub proof fn lemma_frame_fields(lsn: u64, payload: Seq<u8>, buf: Seq<u8>)
    requires
        payload.len() <= u32::MAX,
        frame(lsn, payload).is_prefix_of(buf),
    ensures
        frame(lsn, payload).len() == frame_len(payload.len() as int),
        u32_at(buf, 0) == crc32c_of(frame_tail(lsn, payload)),
        u32_at(buf, 4) == payload.len(),
        u64_at(buf, 8) == lsn,
        buf[16] == REC_TYPE_FULL,
        buf.subrange(4, frame_len(payload.len() as int)) == frame_tail(lsn, payload),
        buf.subrange(20, 20 + payload.len() as int) == payload,
{
    reveal(frame);
    let n = payload.len() as int;
    let tail = frame_tail(lsn, payload);
    let f = frame(lsn, payload);
    assert(tail.len() == frame_len(n) - 4);
    assert(forall|i: int| 0 <= i < f.len() ==> buf[i] == f[i]) by {
        assert forall|i: int| 0 <= i < f.len() implies buf[i] == f[i] by {
            assert(buf.subrange(0, f.len() as int)[i] == f[i]);
        }
    }
    assert(buf.subrange(0, 4) =~= le32(crc32c_of(tail)));
    assert(buf.subrange(4, 8) =~= le32(payload.len() as u32));
    assert(buf.subrange(8, 16) =~= le64(lsn));
    lemma_le32_round_trip(crc32c_of(tail), buf, 0);
    lemma_le32_round_trip(payload.len() as u32, buf, 4);
    lemma_le64_round_trip(lsn, buf, 8);
    assert(buf.subrange(4, frame_len(n)) =~= tail);
    assert(buf.subrange(20, 20 + n) =~= payload);
}

/// Decoding gives back what encoding wrote, whatever bytes follow the frame, and a
/// frame fills whole units of 8 bytes.
pub proof fn law_codec_round_trip(lsn: u64, payload: Seq<u8>, rest: Seq<u8>, max: u32)
    requires
        payload.len() <= max,
    ensures
        parse(frame(lsn, payload) + rest, max) == (Parsed::Record { lsn, payload }),
        frame(lsn, payload).len() == frame_len(payload.len() as int),
        frame(lsn, payload).len() % 8 == 0,
{
    reveal(parse);
    let buf = frame(lsn, payload) + rest;
    assert(frame(lsn, payload) =~= buf.subrange(0, frame(lsn, payload).len() as int));
    lemma_frame_fields(lsn, payload, buf);
}

/// No change of one byte of a frame passes for the record that was written. Outside
/// the length field the decoder sees the change itself: the checksum fails, or the
/// type has become the one that no record has.
pub proof fn law_changed_byte_is_detected(
    lsn: u64,
    payload: Seq<u8>,
    rest: Seq<u8>,
    max: u32,
    at: int,
    byte: u8,
)
    requires
        payload.len() <= max,
        0 <= at < frame(lsn, payload).len(),
        byte != frame(lsn, payload)[at],
    ensures
        parse(frame(lsn, payload).update(at, byte) + rest, max) != (Parsed::Record {
            lsn,
            payload,
        }),
        at == 16 && byte == REC_TYPE_SENTINEL ==> parse(
            frame(lsn, payload).update(at, byte) + rest,
            max,
        ) == Parsed::Sentinel,
        (at < 4 || 8 <= at) && !(at == 16 && byte == REC_TYPE_SENTINEL) ==> parse(
            frame(lsn, payload).update(at, byte) + rest,
            max,
        ) == Parsed::Invalid(DecodeError::BadCrc),
{
    let n = payload.len() as int;
    let f = frame(lsn, payload);
    assert(f =~= f.subrange(0, f.len() as int));
    lemma_frame_fields(lsn, payload, f);
    let buf = f.update(at, byte) + rest;
    assert(forall|i: int| 0 <= i < f.len() && i != at ==> buf[i] == f[i]);
    assert(buf[at] == byte);
    if at < 4 {
        assert(buf.subrange(4, frame_len(n)) =~= f.subrange(4, frame_len(n)));
        assert(u32_at(buf, 4) == u32_at(f, 4));
        if u32_at(buf, 0) == u32_at(f, 0) {
            lemma_u32_at_injective(buf, f, 0);
        }
        assert(parse(buf, max) == Parsed::Invalid(DecodeError::BadCrc)) by {
            reveal(parse);
        }
    } else if at < 8 {
        if u32_at(buf, 4) == u32_at(f, 4) {
            lemma_u32_at_injective(buf, f, 4);
        }
        assert(parse(buf, max) != (Parsed::Record { lsn, payload })) by {
            reveal(parse);
            if parse(buf, max) is Record {
                assert(parse(buf, max)->payload.len() == u32_at(buf, 4));
            }
        }
    } else {
        let tail = frame_tail(lsn, payload);
        assert(u32_at(buf, 0) == u32_at(f, 0));
        assert(u32_at(buf, 4) == u32_at(f, 4));
        assert(f[at] == tail[at - 4]) by {
            assert(f[at] == f.subrange(4, frame_len(n))[at - 4]);
        }
        assert(buf.subrange(4, frame_len(n)) =~= tail.update(at - 4, byte)) by {
            assert forall|i: int| 0 <= i < tail.len() implies buf.subrange(4, frame_len(n))[i]
                == tail.update(at - 4, byte)[i] by {
                assert(f.subrange(4, frame_len(n))[i] == tail[i]);
            }
        }
        law_one_changed_byte_changes_checksum(tail, at - 4, byte);
        assert(parse(buf, max) == if buf[16] == REC_TYPE_SENTINEL {
            Parsed::Sentinel
        } else {
            Parsed::Invalid(DecodeError::BadCrc)
        }) by {
            reveal(parse);
        }
    }
}

} // verus!
