//! Records and headers as bytes.

use vstd::prelude::*;

use crate::bytes::u16_at;
use crate::bytes::u32_at;
use crate::bytes::u64_at;
use crate::crc::crc32c;
use crate::crc::crc32c_of;
use crate::fuzzing::decode_record;
use crate::fuzzing::encode_record_into;
use crate::fuzzing::segment_header_bytes;
use crate::image::lemma_frame_len;
use crate::lsn::Lsn;
use crate::record::decode;
use crate::record::encode_into;
use crate::record::frame;
use crate::record::frame_len;
use crate::record::framed_size;
use crate::record::framed_size_u64;
use crate::record::law_changed_byte_is_detected;
use crate::record::law_codec_round_trip;
use crate::record::lemma_frame_fields;
use crate::record::padding_for;
use crate::record::padding_for_u64;
use crate::record::parse;
use crate::record::peek;
use crate::record::Decoded;
use crate::record::DecodeError;
use crate::segment::encode_header;

verus! {

/// The number in `n` bytes at `at`, low byte first.
pub open spec fn number_at(s: Seq<u8>, at: int, n: nat) -> nat
    decreases n,
{
    if n == 0 {
        0
    } else {
        (s[at] + 256 * number_at(s, at + 1, (n - 1) as nat)) as nat
    }
}

/// Two, four and eight bytes as numbers.
pub proof fn lemma_number_at(s: Seq<u8>, at: int)
    ensures
        u16_at(s, at) == number_at(s, at, 2),
        u32_at(s, at) == number_at(s, at, 4),
        u64_at(s, at) == number_at(s, at, 8),
{
    reveal_with_fuel(number_at, 9);
    let (a, b, c, d) = (s[at], s[at + 1], s[at + 2], s[at + 3]);
    let (e, f, g, h) = (s[at + 4], s[at + 5], s[at + 6], s[at + 7]);
    assert((a as u16) | ((b as u16) << 8) == a + 256 * b) by (bit_vector);
    assert((a as u32) | ((b as u32) << 8) | ((c as u32) << 16) | ((d as u32) << 24) == a + 256 * b
        + 65536 * c + 16777216 * d) by (bit_vector);
    assert((a as u64) | ((b as u64) << 8) | ((c as u64) << 16) | ((d as u64) << 24) | ((e as u64)
        << 32) | ((f as u64) << 40) | ((g as u64) << 48) | ((h as u64) << 56) == a + 256 * b + 65536
        * c + 16777216 * d + 4294967296 * e + 1099511627776 * f + 281474976710656 * g
        + 72057594037927936 * h) by (bit_vector);
}

/// Length of the frame around `n` bytes: 20 more, rounded up to a multiple of 8.
pub open spec fn framed(n: int) -> int {
    (n + 27) / 8 * 8
}

/// The two ways to say the length of a frame.
pub proof fn lemma_framed(n: int)
    requires
        0 <= n,
    ensures
        frame_len(n) == framed(n),
{
}

/// Whether the bytes at `at` of `s` are a record's: its length, LSN, type and payload
/// stand where they belong, and its checksum is `crc`.
pub open spec fn record_bytes(s: Seq<u8>, at: int, lsn: u64, payload: Seq<u8>, crc: u32) -> bool {
    &&& 0 <= at
    &&& at + framed(payload.len() as int) <= s.len()
    &&& number_at(s, at, 4) == crc
    &&& number_at(s, at + 4, 4) == payload.len()
    &&& number_at(s, at + 8, 8) == lsn
    &&& s[at + 16] == 1
    &&& forall|i: int| 0 <= i < payload.len() ==> #[trigger] payload[i] == s[at + 20 + i]
}

/// Whether the bytes `from..to` are zero.
pub open spec fn all_zero(s: Seq<u8>, from: int, to: int) -> bool {
    forall|i: int| from <= i < to ==> s[i] == 0
}

/// Encoding appends a record whose bytes hold the payload, the LSN and the length in
/// the places of the format, zeros in the reserved bytes and the padding, and the
/// checksum of everything behind the checksum. What the buffer held before stays.
pub proof fn law_encoded_bytes(
    buf: &mut Vec<u8>,
    lsn: Lsn,
    payload: &[u8],
    n: usize,
    covered: &[u8],
    crc: u32,
)
    requires
        payload@.len() <= u32::MAX,
        call_ensures(encode_into, (buf, lsn, payload), n),
        covered@ == final(buf)@.skip(old(buf)@.len() as int + 4),
        call_ensures(crc32c, (covered,), crc),
    ensures
        final(buf)@.len() == old(buf)@.len() + n,
        n == framed(payload@.len() as int),
        final(buf)@.take(old(buf)@.len() as int) == old(buf)@,
        record_bytes(final(buf)@, old(buf)@.len() as int, lsn.0, payload@, crc),
        all_zero(final(buf)@, old(buf)@.len() as int + 17, old(buf)@.len() as int + 20),
        all_zero(
            final(buf)@,
            old(buf)@.len() as int + 20 + payload@.len(),
            final(buf)@.len() as int,
        ),
{
    let at = old(buf)@.len() as int;
    assert(final(buf)@.skip(at) =~= frame(lsn.0, payload@));
    lemma_frame_bytes(final(buf)@, at, lsn.0, payload@);
    assert(covered@ =~= final(buf)@.subrange(at + 4, at + n));
    assert(final(buf)@.take(at) =~= old(buf)@);
}

/// The bytes of a frame at `at`.
pub proof fn lemma_frame_bytes(s: Seq<u8>, at: int, lsn: u64, payload: Seq<u8>)
    requires
        payload.len() <= u32::MAX,
        0 <= at <= s.len(),
        frame(lsn, payload).is_prefix_of(s.skip(at)),
    ensures
        frame(lsn, payload).len() == framed(payload.len() as int),
        record_bytes(
            s,
            at,
            lsn,
            payload,
            crc32c_of(s.subrange(at + 4, at + framed(payload.len() as int))),
        ),
        all_zero(s, at + 17, at + 20),
        all_zero(s, at + 20 + payload.len(), at + framed(payload.len() as int)),
{
    let f = frame(lsn, payload);
    let n = framed(payload.len() as int);
    let tail = s.skip(at);
    lemma_framed(payload.len() as int);
    lemma_frame_fields(lsn, payload, tail);
    lemma_number_at(tail, 0);
    lemma_number_at(tail, 4);
    lemma_number_at(tail, 8);
    lemma_number_shift(s, at, 0, 4);
    lemma_number_shift(s, at, 4, 4);
    lemma_number_shift(s, at, 8, 8);
    assert(s.subrange(at + 4, at + n) =~= tail.subrange(4, n));
    assert forall|i: int| 0 <= i < payload.len() implies #[trigger] payload[i] == s[at + 20 + i] by {
        assert(tail.subrange(20, 20 + payload.len() as int)[i] == payload[i]);
    }
    lemma_frame_zeros(lsn, payload);
    assert forall|i: int|
        at + 17 <= i < at + 20 || at + 20 + payload.len() <= i < at + n implies s[i] == 0 by {
        assert(tail.subrange(0, f.len() as int)[i - at] == f[i - at]);
    }
}

/// The zeros of a frame.
proof fn lemma_frame_zeros(lsn: u64, payload: Seq<u8>)
    ensures
        forall|i: int| 17 <= i < 20 ==> frame(lsn, payload)[i] == 0,
        forall|i: int|
            20 + payload.len() <= i < frame(lsn, payload).len() ==> frame(lsn, payload)[i] == 0,
{
    reveal(crate::record::frame);
}

/// A number within a suffix.
pub proof fn lemma_number_shift(s: Seq<u8>, at: int, i: int, n: nat)
    requires
        0 <= at,
        0 <= i,
        at + i + n <= s.len(),
    ensures
        number_at(s.skip(at), i, n) == number_at(s, at + i, n),
    decreases n,
{
    if n > 0 {
        lemma_number_shift(s, at, i + 1, (n - 1) as nat);
    }
}

/// Decoding gives back what encoding wrote, whatever follows it, wherever the bound
/// admits the payload.
pub proof fn law_decoding_undoes_encoding(
    buf: &mut Vec<u8>,
    lsn: Lsn,
    payload: &[u8],
    n: usize,
    rest: Seq<u8>,
    bytes: &[u8],
    max: u32,
    d: Decoded<'_>,
)
    requires
        payload@.len() <= max,
        call_ensures(encode_into, (buf, lsn, payload), n),
        bytes@ == final(buf)@.skip(old(buf)@.len() as int) + rest,
        call_ensures(decode, (bytes, max), d),
    ensures
        d matches Decoded::Record { lsn: l, payload: p, framed_len } && l == lsn && p@ == payload@
            && framed_len == n,
{
    assert(final(buf)@.skip(old(buf)@.len() as int) =~= frame(lsn.0, payload@));
    law_codec_round_trip(lsn.0, payload@, rest, max);
}

/// Decoding finds what stands in the bytes, and nothing else: a record exactly where its
/// bytes are there, within the bound, under a checksum that matches; and each other
/// outcome exactly for its cause.
pub proof fn law_decoded_bytes(
    bytes: &[u8],
    max: u32,
    d: Decoded<'_>,
    covered: &[u8],
    crc: u32,
)
    requires
        call_ensures(decode, (bytes, max), d),
        bytes@.len() >= 20 && framed(number_at(bytes@, 4, 4) as int) <= bytes@.len() ==> covered@
            == bytes@.subrange(4, framed(number_at(bytes@, 4, 4) as int)),
        call_ensures(crc32c, (covered,), crc),
    ensures
        ({
            let b = bytes@;
            let len = number_at(b, 4, 4) as int;
            if b.len() < 20 {
                d is Incomplete
            } else if b[16] == 0 {
                d is Sentinel
            } else if len > max {
                d matches Decoded::Invalid(DecodeError::LengthTooLarge)
            } else if b.len() < framed(len) {
                d is Incomplete
            } else if number_at(b, 0, 4) != crc {
                d matches Decoded::Invalid(DecodeError::BadCrc)
            } else if b[16] != 1 {
                d matches Decoded::Invalid(DecodeError::UnknownRecType)
            } else {
                &&& d matches Decoded::Record { lsn, payload, framed_len }
                &&& payload@.len() == len
                &&& framed_len == framed(len)
                &&& record_bytes(b, 0, lsn.0, payload@, crc)
            }
        }),
{
    reveal(parse);
    let b = bytes@;
    lemma_number_at(b, 0);
    lemma_number_at(b, 4);
    lemma_number_at(b, 8);
    lemma_framed(number_at(b, 4, 4) as int);
}

/// No byte of a record can change unseen: decoding never takes the changed bytes for the
/// record that was written.
pub proof fn law_changed_record_never_decodes_as_written(
    buf: &mut Vec<u8>,
    lsn: Lsn,
    payload: &[u8],
    n: usize,
    i: int,
    byte: u8,
    rest: Seq<u8>,
    bytes: &[u8],
    max: u32,
    d: Decoded<'_>,
)
    requires
        payload@.len() <= max,
        call_ensures(encode_into, (buf, lsn, payload), n),
        0 <= i < n,
        byte != final(buf)@[old(buf)@.len() + i],
        bytes@ == final(buf)@.skip(old(buf)@.len() as int).update(i, byte) + rest,
        call_ensures(decode, (bytes, max), d),
    ensures
        !(d matches Decoded::Record { lsn: l, payload: p, .. } && l == lsn && p@ == payload@),
        (i < 4 || 8 <= i) && !(i == 16 && byte == 0) ==> d matches Decoded::Invalid(
            DecodeError::BadCrc,
        ),
{
    let f = frame(lsn.0, payload@);
    assert(final(buf)@.skip(old(buf)@.len() as int) =~= f);
    assert(f[i] == final(buf)@[old(buf)@.len() + i]);
    lemma_frame_len(lsn.0, payload@);
    law_changed_byte_is_detected(lsn.0, payload@, rest, max, i, byte);
}

/// A look at an encoded record tells its LSN and the length of its frame.
pub proof fn law_peek_tells_the_record(
    buf: &mut Vec<u8>,
    lsn: Lsn,
    payload: &[u8],
    n: usize,
    rest: Seq<u8>,
    bytes: &[u8],
    r: (Lsn, usize),
)
    requires
        payload@.len() <= u32::MAX,
        call_ensures(encode_into, (buf, lsn, payload), n),
        bytes@ == final(buf)@.skip(old(buf)@.len() as int) + rest,
        call_ensures(peek, (bytes,), r),
    ensures
        r == (lsn, n),
{
    let f = frame(lsn.0, payload@);
    assert(final(buf)@.skip(old(buf)@.len() as int) =~= f);
    assert(f =~= bytes@.subrange(0, f.len() as int));
    lemma_frame_fields(lsn.0, payload@, bytes@);
}

/// Padding fills a record up to the next multiple of 8, and no further, in both widths.
pub proof fn law_padding_fills_up_to_eight(
    n: usize,
    pad: usize,
    whole: usize,
    m: u64,
    pad_wide: u64,
    whole_wide: u64,
)
    requires
        call_ensures(padding_for, (n,), pad),
        call_ensures(framed_size, (n,), whole),
        call_ensures(padding_for_u64, (m,), pad_wide),
        call_ensures(framed_size_u64, (m,), whole_wide),
    ensures
        pad < 8,
        whole == 20 + n + pad,
        whole % 8 == 0,
        pad_wide < 8,
        whole_wide == 20 + m + pad_wide,
        whole_wide % 8 == 0,
{
}

/// The hooks for testing read and write the same records.
pub proof fn law_hooks_agree_with_the_codec(
    bytes: &[u8],
    max: u32,
    d: Decoded<'_>,
    lengths: Option<(usize, usize)>,
    a: &mut Vec<u8>,
    b: &mut Vec<u8>,
    lsn: Lsn,
    payload: &[u8],
    n: usize,
    m: usize,
    base: u64,
    written: Vec<u8>,
    plain: Vec<u8>,
)
    requires
        call_ensures(decode, (bytes, max), d),
        call_ensures(decode_record, (bytes, max), lengths),
        *old(a) == *old(b),
        payload@.len() <= u32::MAX,
        call_ensures(encode_into, (a, lsn, payload), n),
        call_ensures(encode_record_into, (b, lsn.0, payload), m),
        call_ensures(segment_header_bytes, (base,), written),
        call_ensures(encode_header, (Lsn(base), 0u64), plain),
    ensures
        match d {
            Decoded::Record { payload: p, framed_len, .. } => lengths == Some(
                (p@.len() as usize, framed_len),
            ),
            _ => lengths is None,
        },
        final(a)@ == final(b)@,
        n == m,
        written@ == plain@,
{
}

} // verus!
