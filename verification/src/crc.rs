//! The CRC-32C (Castagnoli) checksum.

use vstd::prelude::*;

verus! {

/// The Castagnoli polynomial, with its bits reversed.
pub const POLYNOMIAL: u32 = 0x82F6_3B78;

/// One bit of the division by the polynomial.
pub open spec fn crc_bit(crc: u32) -> u32 {
    if crc & 1 == 1 {
        (crc >> 1) ^ POLYNOMIAL
    } else {
        crc >> 1
    }
}

/// The register after one more byte of data.
pub open spec fn crc_byte(crc: u32, byte: u8) -> u32 {
    crc_bit(crc_bit(crc_bit(crc_bit(crc_bit(crc_bit(crc_bit(crc_bit(crc ^ byte as u32))))))))
}

/// The register after all of `data`, started at `crc`.
pub open spec fn crc_run(crc: u32, data: Seq<u8>) -> u32
    decreases data.len(),
{
    if data.len() == 0 {
        crc
    } else {
        crc_byte(crc_run(crc, data.drop_last()), data.last())
    }
}

/// CRC-32C of `data`.
pub open spec fn crc32c_of(data: Seq<u8>) -> u32 {
    !crc_run(0xFFFF_FFFF, data)
}

/// Computes the CRC-32C (Castagnoli) checksum of `data`.
///
/// Calls `crc32c::crc32c`, which computes the CRC-32C of its argument: the
/// register starts with all bits set, takes in each byte by eight steps of
/// division by the reversed Castagnoli polynomial, and is inverted at the end.
#[must_use]
#[verifier::external_body]
pub fn crc32c(data: &[u8]) -> (crc: u32)
    ensures
        crc == crc32c_of(data@),
{
    crc32c::crc32c(data)
}

/// A step of the division loses nothing: the register before it can be told from
/// the register after it.
proof fn lemma_crc_bit_injective(a: u32, b: u32)
    requires
        crc_bit(a) == crc_bit(b),
    ensures
        a == b,
{
    assert((if a & 1 == 1 {
        (a >> 1) ^ 0x82F6_3B78u32
    } else {
        a >> 1
    }) == (if b & 1 == 1 {
        (b >> 1) ^ 0x82F6_3B78u32
    } else {
        b >> 1
    }) ==> a == b) by (bit_vector);
}

/// A byte's eight steps lose nothing.
proof fn lemma_crc_byte_injective(a: u32, x: u8, b: u32, y: u8)
    requires
        crc_byte(a, x) == crc_byte(b, y),
    ensures
        a ^ x as u32 == b ^ y as u32,
{
    let a0 = a ^ x as u32;
    let b0 = b ^ y as u32;
    let (a1, b1) = (crc_bit(a0), crc_bit(b0));
    let (a2, b2) = (crc_bit(a1), crc_bit(b1));
    let (a3, b3) = (crc_bit(a2), crc_bit(b2));
    let (a4, b4) = (crc_bit(a3), crc_bit(b3));
    let (a5, b5) = (crc_bit(a4), crc_bit(b4));
    let (a6, b6) = (crc_bit(a5), crc_bit(b5));
    let (a7, b7) = (crc_bit(a6), crc_bit(b6));
    lemma_crc_bit_injective(a7, b7);
    lemma_crc_bit_injective(a6, b6);
    lemma_crc_bit_injective(a5, b5);
    lemma_crc_bit_injective(a4, b4);
    lemma_crc_bit_injective(a3, b3);
    lemma_crc_bit_injective(a2, b2);
    lemma_crc_bit_injective(a1, b1);
    lemma_crc_bit_injective(a0, b0);
}

/// Registers that differ stay different under the same data.
proof fn lemma_crc_run_injective(a: u32, b: u32, data: Seq<u8>)
    requires
        crc_run(a, data) == crc_run(b, data),
    ensures
        a == b,
    decreases data.len(),
{
    if data.len() > 0 {
        let (p, q) = (crc_run(a, data.drop_last()), crc_run(b, data.drop_last()));
        let x = data.last();
        lemma_crc_byte_injective(p, x, q, x);
        assert(p ^ x as u32 == q ^ x as u32 ==> p == q) by (bit_vector);
        lemma_crc_run_injective(a, b, data.drop_last());
    }
}

/// The register over a concatenation is the second part's, started where the
/// first part ended.
proof fn lemma_crc_run_concat(crc: u32, a: Seq<u8>, b: Seq<u8>)
    ensures
        crc_run(crc, a + b) == crc_run(crc_run(crc, a), b),
    decreases b.len(),
{
    if b.len() == 0 {
        assert(a + b =~= a);
    } else {
        assert((a + b).drop_last() =~= a + b.drop_last());
        assert((a + b).last() == b.last());
        lemma_crc_run_concat(crc, a, b.drop_last());
    }
}

/// The checksum tells apart any two inputs that differ in exactly one byte.
pub proof fn law_one_changed_byte_changes_checksum(data: Seq<u8>, at: int, byte: u8)
    requires
        0 <= at < data.len(),
        byte != data[at],
    ensures
        crc32c_of(data.update(at, byte)) != crc32c_of(data),
{
    let changed = data.update(at, byte);
    let head = data.subrange(0, at);
    let tail = data.subrange(at + 1, data.len() as int);
    assert(data =~= head.push(data[at]) + tail);
    assert(changed =~= head.push(byte) + tail);
    let start = 0xFFFF_FFFFu32;
    lemma_crc_run_concat(start, head.push(data[at]), tail);
    lemma_crc_run_concat(start, head.push(byte), tail);
    let c = crc_run(start, head);
    assert(head.push(data[at]).drop_last() =~= head);
    assert(head.push(byte).drop_last() =~= head);
    let (p, q) = (crc_run(start, data), crc_run(start, changed));
    if !p == !q {
        assert(!p == !q ==> p == q) by (bit_vector);
        lemma_crc_run_injective(crc_byte(c, data[at]), crc_byte(c, byte), tail);
        lemma_crc_byte_injective(c, data[at], c, byte);
        let (x, y) = (data[at], byte);
        assert(c ^ x as u32 == c ^ y as u32 ==> x == y) by (bit_vector);
    }
}

} // verus!
