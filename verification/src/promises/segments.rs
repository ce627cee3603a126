//! Segment headers and file names.

use vstd::prelude::*;

use crate::bytes::le64;
use crate::bytes::lemma_le64_round_trip;
use crate::crc::crc32c_of;
use crate::error::WalError;
use crate::lsn::Lsn;
use crate::promises::codec::all_zero;
use crate::promises::codec::lemma_number_at;
use crate::promises::codec::number_at;
use crate::segment::decode_header;
use crate::segment::encode_header;
use crate::segment::filename_for;
use crate::segment::header_base;
use crate::segment::header_body;
use crate::segment::law_header_round_trip;
use crate::segment::law_segment_names_are_distinct;
use crate::segment::magic;
use crate::segment::parse_base_lsn;
use crate::segment::segment_name;
use crate::segment::SegmentHeader;
use crate::text::digit_char;
use crate::text::lemma_padded;
use crate::text::padded;

verus! {

/// Whether `file` starts with the header of the segment at `base`.
pub open spec fn heads(file: Seq<u8>, base: u64) -> bool {
    &&& file.len() >= 64
    &&& file[0] == 0x57 && file[1] == 0x41 && file[2] == 0x4C && file[3] == 0x00
    &&& file[4] == 0x53 && file[5] == 0x45 && file[6] == 0x47 && file[7] == 0x31
    &&& number_at(file, 8, 2) == 1
    &&& number_at(file, 12, 8) == base
    &&& base != 0
    &&& number_at(file, 60, 4) == crc32c_of(file.subrange(0, 60))
}

/// A header, by its bytes.
pub proof fn lemma_header_by_bytes(file: Seq<u8>, base: u64)
    ensures
        header_base(file) == Some(base) <==> heads(file, base),
{
    if file.len() >= 64 {
        lemma_number_at(file, 8);
        lemma_number_at(file, 12);
        lemma_number_at(file, 60);
        let front = file.subrange(0, 8);
        assert(forall|i: int| 0 <= i < 8 ==> front[i] == file[i]);
        if front == magic() {
            assert(front[0] == 0x57 && front[1] == 0x41 && front[2] == 0x4C && front[3] == 0x00
                && front[4] == 0x53 && front[5] == 0x45 && front[6] == 0x47 && front[7] == 0x31);
        }
        if heads(file, base) {
            assert(front =~= magic());
        }
    }
}

/// A header that is written is the header of its segment, whatever follows it, and holds
/// the time of creation and zeros in the rest.
pub proof fn law_written_header_heads_its_segment(
    base: Lsn,
    created: u64,
    h: Vec<u8>,
    rest: Seq<u8>,
)
    requires
        base.0 != 0,
        call_ensures(encode_header, (base, created), h),
    ensures
        h@.len() == 64,
        heads(h@ + rest, base.0),
        number_at(h@, 20, 8) == created,
        all_zero(h@, 10, 12),
        all_zero(h@, 28, 60),
{
    law_header_round_trip(base.0, created, rest);
    lemma_header_by_bytes(h@ + rest, base.0);
    let body = header_body(base.0, created);
    assert(body.len() == 60);
    assert(h@.subrange(20, 28) =~= le64(created));
    lemma_le64_round_trip(created, h@, 20);
    lemma_number_at(h@, 20);
    assert(forall|i: int| 0 <= i < 60 ==> h@[i] == body[i]);
    assert((0u16 & 0xff) as u8 == 0 && ((0u16 >> 8) & 0xff) as u8 == 0) by (bit_vector);
    assert(h@[10] == 0 && h@[11] == 0);
}

/// Reading a header says whose it is, and refuses everything that is none.
pub proof fn law_header_is_read_by_its_bytes(
    bytes: &[u8],
    r: Result<SegmentHeader, WalError>,
    base: u64,
)
    requires
        call_ensures(decode_header, (bytes,), r),
    ensures
        match r {
            Ok(h) => heads(bytes@, h.base_lsn.0),
            Err(e) => e is BadSegmentHeader && !heads(bytes@, base),
        },
{
    lemma_header_by_bytes(bytes@, base);
    if let Ok(h) = r {
        lemma_header_by_bytes(bytes@, h.base_lsn.0);
    }
}

/// Ten to the power `k`.
pub open spec fn ten_to(k: nat) -> nat
    decreases k,
{
    if k == 0 {
        1
    } else {
        10 * ten_to((k - 1) as nat)
    }
}

/// Whether `name` is twenty decimal digits of `base`, highest first, and `.wal`.
pub open spec fn names(name: Seq<char>, base: u64) -> bool {
    &&& name.len() == 24
    &&& forall|i: int|
        0 <= i < 20 ==> #[trigger] name[i] as u32 == 48 + base as int / ten_to((19 - i) as nat) as int
            % 10
    &&& name[20] == '.' && name[21] == 'w' && name[22] == 'a' && name[23] == 'l'
}

/// A digit of a padded number.
proof fn lemma_padded_digit(n: nat, width: nat, i: int)
    requires
        0 <= i < width,
    ensures
        padded(n, width).len() == width,
        padded(n, width)[i] as u32 == 48 + n as int / ten_to((width - 1 - i) as nat) as int % 10,
    decreases width,
{
    lemma_padded(n, width);
    if i == width - 1 {
        assert(padded(n, width)[i] == digit_char(n % 10));
        assert(n as int / 1 == n);
    } else {
        let k = (width - 1 - i) as nat;
        lemma_padded_digit(n / 10, (width - 1) as nat, i);
        lemma_ten_to(k);
        lemma_ten_to((k - 1) as nat);
        vstd::arithmetic::div_mod::lemma_div_denominator(
            n as int,
            10,
            ten_to((k - 1) as nat) as int,
        );
    }
}

/// Powers of ten are positive.
pub proof fn lemma_ten_to(k: nat)
    ensures
        ten_to(k) > 0,
    decreases k,
{
    if k > 0 {
        lemma_ten_to((k - 1) as nat);
    }
}

/// The name of a segment, by its characters.
pub proof fn lemma_segment_name(base: u64)
    ensures
        names(segment_name(base), base),
{
    reveal_strlit(".wal");
    let name = segment_name(base);
    lemma_padded(base as nat, 20);
    assert forall|i: int| 0 <= i < 20 implies #[trigger] name[i] as u32 == 48 + base as int / ten_to(
        (19 - i) as nat,
    ) as int % 10 by {
        lemma_padded_digit(base as nat, 20, i);
        assert(name[i] == padded(base as nat, 20)[i]);
    }
}

/// A segment's file name is its base in twenty digits and `.wal`; it reads back as that
/// base; and no other name reads as a base at all.
pub proof fn law_file_name_is_the_base(base: Lsn, name: String, text: &str, r: Option<u64>)
    requires
        call_ensures(filename_for, (base,), name),
        call_ensures(parse_base_lsn, (text,), r),
    ensures
        names(name@, base.0),
        text@ == name@ ==> r == Some(base.0),
        r matches Some(found) ==> names(text@, found),
        r == Some(base.0) ==> text@ == name@,
{
    lemma_segment_name(base.0);
    if let Some(found) = r {
        lemma_segment_name(found);
        if text@ == name@ {
            law_segment_names_are_distinct(found, base.0);
        }
    }
}

} // verus!
