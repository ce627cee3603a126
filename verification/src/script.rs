//! Random programs for the log, drawn from the bytes of a fuzzer.
//!
//! A script is a configuration and a list of operations, weighted towards appends.
//! It is a function of the bytes; bytes that have run out read as zeros.

use vstd::prelude::*;

use crate::bytes::u16_at;
use crate::bytes::u32_at;
use crate::bytes::u64_at;
use crate::config::WalConfig;
use crate::config::SEGMENT_OVERHEAD;

verus! {

/// The `arbitrary` crate's source of raw bytes.
#[verifier::external_type_specification]
#[verifier::external_body]
pub struct ExUnstructured<'a>(arbitrary::Unstructured<'a>);

/// The `arbitrary` crate's error.
#[verifier::external_type_specification]
#[verifier::external_body]
pub struct ExArbitraryError(arbitrary::Error);

/// The bytes that a source has left.
pub uninterp spec fn undrawn(u: arbitrary::Unstructured<'_>) -> Seq<u8>;

/// The first `n` of `data`, with zeros for those that are missing.
pub open spec fn front(data: Seq<u8>, n: nat) -> Seq<u8> {
    Seq::new(
        n,
        |i: int|
            if i < data.len() {
                data[i]
            } else {
                0u8
            },
    )
}

/// `data` without its first `n`.
pub open spec fn behind(data: Seq<u8>, n: nat) -> Seq<u8> {
    if n < data.len() {
        data.skip(n as int)
    } else {
        seq![]
    }
}

/// `arbitrary::Unstructured::new`: a source that has all of `data` left.
#[verifier::external_body]
fn source<'a>(data: &'a [u8]) -> (u: arbitrary::Unstructured<'a>)
    ensures
        undrawn(u) == data@,
{
    arbitrary::Unstructured::new(data)
}

/// `u8::arbitrary`, of `arbitrary::Arbitrary`: takes the next byte, or zero where
/// none is left. It never fails.
#[verifier::external_body]
fn draw_u8(u: &mut arbitrary::Unstructured<'_>) -> (r: Result<u8, arbitrary::Error>)
    ensures
        r matches Ok(v) && v == front(undrawn(*old(u)), 1)[0],
        undrawn(*final(u)) == behind(undrawn(*old(u)), 1),
{
    arbitrary::Arbitrary::arbitrary(u)
}

/// `u16::arbitrary`, of `arbitrary::Arbitrary`: takes the next two bytes, low byte
/// first, with zeros for those that are missing. It never fails.
#[verifier::external_body]
fn draw_u16(u: &mut arbitrary::Unstructured<'_>) -> (r: Result<u16, arbitrary::Error>)
    ensures
        r matches Ok(v) && v == u16_at(front(undrawn(*old(u)), 2), 0),
        undrawn(*final(u)) == behind(undrawn(*old(u)), 2),
{
    arbitrary::Arbitrary::arbitrary(u)
}

/// `u32::arbitrary`, of `arbitrary::Arbitrary`: takes the next four bytes, low byte
/// first, with zeros for those that are missing. It never fails.
#[verifier::external_body]
fn draw_u32(u: &mut arbitrary::Unstructured<'_>) -> (r: Result<u32, arbitrary::Error>)
    ensures
        r matches Ok(v) && v == u32_at(front(undrawn(*old(u)), 4), 0),
        undrawn(*final(u)) == behind(undrawn(*old(u)), 4),
{
    arbitrary::Arbitrary::arbitrary(u)
}

/// `u64::arbitrary`, of `arbitrary::Arbitrary`: takes the next eight bytes, low byte
/// first, with zeros for those that are missing. It never fails.
#[verifier::external_body]
fn draw_u64(u: &mut arbitrary::Unstructured<'_>) -> (r: Result<u64, arbitrary::Error>)
    ensures
        r matches Ok(v) && v == u64_at(front(undrawn(*old(u)), 8), 0),
        undrawn(*final(u)) == behind(undrawn(*old(u)), 8),
{
    arbitrary::Arbitrary::arbitrary(u)
}

/// `arbitrary::Unstructured::int_in_range` from zero to `max`, which has to fit into
/// one byte: takes the next byte, or zero where none is left, modulo the number of
/// choices. It never fails.
#[verifier::external_body]
fn draw_up_to(u: &mut arbitrary::Unstructured<'_>, max: u32) -> (r: Result<u32, arbitrary::Error>)
    requires
        1 <= max <= 255,
    ensures
        r matches Ok(v) && v == front(undrawn(*old(u)), 1)[0] as int % (max + 1),
        undrawn(*final(u)) == behind(undrawn(*old(u)), 1),
{
    u.int_in_range(0..=max)
}

/// `arbitrary::Unstructured::fill_buffer`: fills `buffer` with the next bytes, and
/// with zeros where they run out. It never fails.
#[verifier::external_body]
fn draw_into(u: &mut arbitrary::Unstructured<'_>, buffer: &mut [u8]) -> (r: Result<
    (),
    arbitrary::Error,
>)
    ensures
        r is Ok,
        final(buffer)@ == front(undrawn(*old(u)), old(buffer)@.len()),
        undrawn(*final(u)) == behind(undrawn(*old(u)), old(buffer)@.len()),
{
    u.fill_buffer(buffer)
}

/// A step of a random program.
#[derive(Debug)]
pub enum Op {
    /// Append a record with this payload.
    Append(Vec<u8>),
    /// Commit.
    Commit,
    /// Checkpoint up to this LSN, or up to the durable one where that is lower.
    Checkpoint(u64),
    /// Drop the handle without a commit, and open the log again.
    CrashAndRecover,
    /// Commit, drop the handle, and open the log again.
    Reopen,
}

/// A step as its contracts see it.
pub enum OpView {
    /// See [`Op::Append`].
    Append(Seq<u8>),
    /// See [`Op::Commit`].
    Commit,
    /// See [`Op::Checkpoint`].
    Checkpoint(u64),
    /// See [`Op::CrashAndRecover`].
    CrashAndRecover,
    /// See [`Op::Reopen`].
    Reopen,
}

impl View for Op {
    type V = OpView;

    open spec fn view(&self) -> OpView {
        match *self {
            Op::Append(payload) => OpView::Append(payload@),
            Op::Commit => OpView::Commit,
            Op::Checkpoint(up_to) => OpView::Checkpoint(up_to),
            Op::CrashAndRecover => OpView::CrashAndRecover,
            Op::Reopen => OpView::Reopen,
        }
    }
}

/// The steps as their contracts see them.
pub open spec fn op_views(ops: Seq<Op>) -> Seq<OpView> {
    ops.map_values(|op: Op| op@)
}

/// The bytes could not be drawn.
#[derive(Debug, Clone, Copy, PartialEq, Eq, Structural)]
pub struct DrawError;

/// The segment sizes of scripts, small so that they roll often.
pub open spec fn script_segment(sel: u8) -> u64 {
    if sel % 4 == 0 {
        256
    } else if sel % 4 == 1 {
        384
    } else if sel % 4 == 2 {
        512
    } else {
        4096
    }
}

/// The configuration with segments of `segment_size` whose bound on payloads is
/// `raw`, reduced to what fits.
pub open spec fn reduced(segment_size: u64, raw: u32) -> WalConfig {
    WalConfig {
        segment_size,
        max_record_size: (raw as int % (segment_size - SEGMENT_OVERHEAD + 1)) as u32,
    }
}

/// The configuration that `data` starts with.
pub open spec fn config_in(data: Seq<u8>) -> WalConfig {
    reduced(script_segment(front(data, 1)[0]), u32_at(front(behind(data, 1), 4), 0))
}

/// A configuration with segments of `segment_size`, whose bound on payloads is `raw`
/// reduced to what fits.
pub fn reduce_config(segment_size: u64, raw: u32) -> (c: WalConfig)
    requires
        SEGMENT_OVERHEAD <= segment_size <= u32::MAX,
    ensures
        c == reduced(segment_size, raw),
        c.valid(),
{
    let room: u32 = (segment_size - SEGMENT_OVERHEAD) as u32;
    WalConfig { segment_size, max_record_size: raw % (room + 1) }
}

/// Draws a configuration. It is always a valid one.
pub fn arbitrary_config(u: &mut arbitrary::Unstructured<'_>) -> (r: Result<WalConfig, DrawError>)
    ensures
        r matches Ok(c) && c == config_in(undrawn(*old(u))) && c.valid(),
        undrawn(*final(u)) == behind(behind(undrawn(*old(u)), 1), 4),
{
    let sel: u8 = match draw_u8(u) {
        Ok(v) => v,
        Err(_) => {
            return Err(DrawError);
        },
    };
    let segment_size: u64 = match sel % 4 {
        0 => 256,
        1 => 384,
        2 => 512,
        _ => 4096,
    };
    let raw: u32 = match draw_u32(u) {
        Ok(v) => v,
        Err(_) => {
            return Err(DrawError);
        },
    };
    Ok(reduce_config(segment_size, raw))
}

/// The smaller of two numbers.
pub open spec fn smaller(a: nat, b: nat) -> nat {
    if a < b {
        a
    } else {
        b
    }
}

/// The payload that `data` starts with, and the bytes behind it. Its length is
/// drawn from the edges (empty, one byte, eight, the bound) half of the time.
pub open spec fn payload_in(data: Seq<u8>, max: u32) -> (Seq<u8>, Seq<u8>) {
    let sel = front(data, 1)[0] % 8;
    let rest = behind(data, 1);
    if sel >= 4 && max > 0 {
        let len = (u16_at(front(rest, 2), 0) as nat) % ((max + 1) as nat);
        (front(behind(rest, 2), len), behind(behind(rest, 2), len))
    } else {
        let len = if sel == 1 {
            smaller(1, max as nat)
        } else if sel == 2 {
            smaller(8, max as nat)
        } else if sel == 3 {
            max as nat
        } else {
            0
        };
        (front(rest, len), behind(rest, len))
    }
}

/// Draws a payload. It is never longer than `max`.
pub fn arbitrary_payload(u: &mut arbitrary::Unstructured<'_>, max: u32) -> (r: Result<
    Vec<u8>,
    DrawError,
>)
    requires
        max < usize::MAX,
    ensures
        r matches Ok(p) && p@ == payload_in(undrawn(*old(u)), max).0 && p@.len() <= max,
        undrawn(*final(u)) == payload_in(undrawn(*old(u)), max).1,
{
    let max: usize = max as usize;
    let sel: u8 = match draw_u8(u) {
        Ok(v) => v % 8,
        Err(_) => {
            return Err(DrawError);
        },
    };
    let len: usize = if sel == 0 {
        0
    } else if sel == 1 {
        if max < 1 {
            max
        } else {
            1
        }
    } else if sel == 2 {
        if max < 8 {
            max
        } else {
            8
        }
    } else if sel == 3 {
        max
    } else if max == 0 {
        0
    } else {
        match draw_u16(u) {
            Ok(v) => v as usize % (max + 1),
            Err(_) => {
                return Err(DrawError);
            },
        }
    };
    let mut payload: Vec<u8> = vec![0; len];
    match draw_into(u, payload.as_mut_slice()) {
        Ok(_) => {},
        Err(_) => {
            return Err(DrawError);
        },
    }
    Ok(payload)
}

/// The step that `data` starts with, and the bytes behind it.
pub open spec fn op_in(data: Seq<u8>, max: u32) -> (OpView, Seq<u8>) {
    let sel = front(data, 1)[0] % 16;
    let rest = behind(data, 1);
    if sel < 8 {
        (OpView::Append(payload_in(rest, max).0), payload_in(rest, max).1)
    } else if sel < 12 {
        (OpView::Commit, rest)
    } else if sel < 14 {
        (OpView::Checkpoint(u64_at(front(rest, 8), 0)), behind(rest, 8))
    } else if sel == 14 {
        (OpView::CrashAndRecover, rest)
    } else {
        (OpView::Reopen, rest)
    }
}

/// The `n` steps that `data` starts with, and the bytes behind them.
pub open spec fn ops_in(data: Seq<u8>, n: nat, max: u32) -> (Seq<OpView>, Seq<u8>)
    decreases n,
{
    if n == 0 {
        (seq![], data)
    } else {
        let before = ops_in(data, (n - 1) as nat, max);
        let op = op_in(before.1, max);
        (before.0.push(op.0), op.1)
    }
}

/// Draws at most 80 steps, among sixteen of them eight appends, four commits, two
/// checkpoints, a crash and a clean restart.
pub fn arbitrary_ops(u: &mut arbitrary::Unstructured<'_>, max: u32) -> (r: Result<
    Vec<Op>,
    DrawError,
>)
    requires
        max < usize::MAX,
    ensures
        ({
            let data = undrawn(*old(u));
            let n = (front(data, 1)[0] % 81) as nat;
            let drawn = ops_in(behind(data, 1), n, max);
            &&& r matches Ok(ops)
            &&& op_views(ops@) == drawn.0
            &&& undrawn(*final(u)) == drawn.1
        }),
{
    let n: u32 = match draw_up_to(u, 80) {
        Ok(v) => v,
        Err(_) => {
            return Err(DrawError);
        },
    };
    let ghost data = undrawn(*u);
    let mut ops: Vec<Op> = Vec::new();
    let mut i: u32 = 0;
    assert(op_views(ops@) =~= seq![]);
    while i < n
        invariant
            i <= n,
            max < usize::MAX,
            op_views(ops@) == ops_in(data, i as nat, max).0,
            undrawn(*u) == ops_in(data, i as nat, max).1,
        decreases n - i,
    {
        let ghost before = ops@;
        let sel: u8 = match draw_u8(u) {
            Ok(v) => v % 16,
            Err(_) => {
                return Err(DrawError);
            },
        };
        let op = if sel < 8 {
            match arbitrary_payload(u, max) {
                Ok(payload) => Op::Append(payload),
                Err(e) => {
                    return Err(e);
                },
            }
        } else if sel < 12 {
            Op::Commit
        } else if sel < 14 {
            match draw_u64(u) {
                Ok(up_to) => Op::Checkpoint(up_to),
                Err(_) => {
                    return Err(DrawError);
                },
            }
        } else if sel == 14 {
            Op::CrashAndRecover
        } else {
            Op::Reopen
        };
        let ghost drawn = op;
        ops.push(op);
        i = i + 1;
        assert(op_views(ops@) =~= op_views(before).push(drawn@));
    }
    Ok(ops)
}

/// The script in the bytes of a fuzzer.
pub fn script_from(data: &[u8]) -> (r: Result<(WalConfig, Vec<Op>), DrawError>)
    ensures
        ({
            let config = config_in(data@);
            let rest = behind(behind(data@, 1), 4);
            let n = (front(rest, 1)[0] % 81) as nat;
            &&& r matches Ok((c, ops))
            &&& c == config
            &&& c.valid()
            &&& op_views(ops@) == ops_in(behind(rest, 1), n, config.max_record_size).0
        }),
{
    let mut u = source(data);
    let config = match arbitrary_config(&mut u) {
        Ok(c) => c,
        Err(e) => {
            return Err(e);
        },
    };
    match arbitrary_ops(&mut u, config.max_record_size) {
        Ok(ops) => Ok((config, ops)),
        Err(e) => Err(e),
    }
}

} // verus!
