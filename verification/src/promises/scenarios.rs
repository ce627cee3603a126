//! Hostile directories and random programs.

use vstd::prelude::*;

use crate::config::WalConfig;
use crate::crc::crc32c_of;
use crate::fuzzing::encode_record_into;
use crate::fuzzing::segment_header_bytes;
use crate::image::bounded;
use crate::image::frames;
use crate::image::holds_at;
use crate::image::lemma_bounded_parts;
use crate::image::lemma_frame_len;
use crate::image::lemma_frames_concat;
use crate::image::lemma_frames_one;
use crate::image::lemma_span;
use crate::image::lemma_span_concat;
use crate::image::span;
use crate::lsn::Lsn;
use crate::promises::codec::framed;
use crate::promises::codec::lemma_frame_bytes;
use crate::promises::codec::lemma_framed;
use crate::promises::codec::lemma_number_at;
use crate::promises::codec::number_at;
use crate::promises::codec::record_bytes;
use crate::promises::recovery::record_at;
use crate::promises::segments::heads;
use crate::promises::segments::lemma_header_by_bytes;
use crate::record::encode_into;
use crate::record::frame;
use crate::record::frame_len;
use crate::recovery::TailState;
use crate::scenario::apply_mutation;
use crate::scenario::body_bytes;
use crate::scenario::build_segment;
use crate::scenario::built_payloads;
use crate::scenario::check_dense_prefix;
use crate::scenario::check_outcome;
use crate::scenario::clipped;
use crate::scenario::directory_config;
use crate::scenario::law_mutation_invalidates;
use crate::scenario::payload_views;
use crate::scenario::recs_bytes;
use crate::scenario::safe_name;
use crate::scenario::segment_base;
use crate::scenario::segment_config;
use crate::scenario::Body;
use crate::scenario::Built;
use crate::scenario::Mutation;
use crate::scenario::Name;
use crate::scenario::Opened;
use crate::scenario::Rec;
use crate::script::arbitrary_config;
use crate::script::arbitrary_ops;
use crate::script::arbitrary_payload;
use crate::script::behind;
use crate::script::front;
use crate::script::op_views;
use crate::script::ops_in;
use crate::script::reduce_config;
use crate::script::script_from;
use crate::script::undrawn;
use crate::script::DrawError;
use crate::script::Op;
use crate::script::OpView;
use crate::segment::filename_for;
use crate::segment::header;
use crate::segment::law_header_round_trip;
use crate::segment::read_record_at;
use crate::segment::ScanOutcome;

verus! {

/// A name stays as it is, or is refused where it cannot name a file.
pub proof fn law_name_stays_or_is_refused(name: &Name, r: Option<String>, base: u64, own: String)
    requires
        call_ensures(safe_name, (name,), r),
        call_ensures(filename_for, (Lsn(base),), own),
    ensures
        *name == Name::Wal(base) ==> (r matches Some(s) && s@ == own@),
        *name matches Name::Raw(raw) ==> match r {
            Some(s) => s@ == raw@,
            None => true,
        },
        *name matches Name::Raw(raw) ==> (r is None <==> raw@.len() == 0 || raw@ == seq!['.']
            || raw@ == seq!['.', '.'] || raw@.contains('/') || raw@.contains('\0')
            || vstd::utf8::encode_utf8(raw@).len() > 64),
{
}

/// A file with given bytes has those bytes. A file of records has a header, its records
/// one behind the other, each encoded with its payload cut to the bound, a spoilt one
/// with the first byte of its checksum inverted, and then the bytes that follow.
pub proof fn law_body_is_its_parts(
    base: u64,
    recs: Vec<Rec>,
    more: Vec<Rec>,
    rec: Rec,
    nothing: Vec<u8>,
    trailing: Vec<u8>,
    max: u32,
    shorter: Vec<u8>,
    longer: Vec<u8>,
    h: Vec<u8>,
    cut: &[u8],
    buf: &mut Vec<u8>,
    n: usize,
    plain: Vec<u8>,
)
    requires
        nothing@.len() == 0,
        more@ == recs@.push(rec),
        call_ensures(
            body_bytes,
            (&Body::Structured { base, recs, trailing: nothing }, max),
            shorter,
        ),
        call_ensures(body_bytes, (&Body::Structured { base, recs: more, trailing }, max), longer),
        call_ensures(body_bytes, (&Body::Raw(trailing), max), plain),
        call_ensures(segment_header_bytes, (base,), h),
        cut@ == if rec.payload@.len() <= max {
            rec.payload@
        } else {
            rec.payload@.take(max as int)
        },
        old(buf)@.len() == 0,
        call_ensures(encode_record_into, (buf, rec.lsn, cut), n),
    ensures
        plain@ == trailing@,
        recs@.len() == 0 ==> shorter@ == h@,
        longer@ == shorter@ + (if rec.corrupt {
            final(buf)@.update(0, final(buf)@[0] ^ 0xff)
        } else {
            final(buf)@
        }) + trailing@,
{
    assert(more@.drop_last() =~= recs@);
    let f = frame(rec.lsn, clipped(rec.payload@, max as int));
    assert(final(buf)@ =~= f);
    if recs@.len() == 0 {
        assert(recs_bytes(recs@, max) =~= seq![]);
        assert(shorter@ =~= h@);
    }
    let body = if rec.corrupt {
        f.update(0, f[0] ^ 0xff)
    } else {
        f
    };
    assert(longer@ =~= shorter@ + body + trailing@);
}

/// Configurations of scenarios: their segments have one of a few sizes, and the bound is
/// what was drawn, reduced to what fits.
pub proof fn law_scenario_configurations(
    sel: u8,
    raw: u32,
    big: bool,
    d: WalConfig,
    s: WalConfig,
    size: u64,
    c: WalConfig,
    raw_base: u64,
    base: u64,
)
    requires
        91 <= size <= u32::MAX,
        call_ensures(directory_config, (sel, raw), d),
        call_ensures(segment_config, (big, raw), s),
        call_ensures(reduce_config, (size, raw), c),
        call_ensures(segment_base, (raw_base,), base),
    ensures
        d.segment_size == seq![256u64, 512, 1024, 4096, 65536][sel as int % 5],
        d.max_record_size == raw as int % (d.segment_size - 90),
        s.segment_size == if big {
            65536
        } else {
            4096int
        },
        s.max_record_size == raw as int % (s.segment_size - 90),
        c.segment_size == size,
        c.max_record_size == raw as int % (size - 90),
        base == raw_base as int % 1_099_511_627_776 + 1,
{
}

/// Damage touches the record that it is meant for, in the place that it is meant for, and
/// nothing else.
pub proof fn law_damage_is_where_it_is_meant(
    bytes: &mut Vec<u8>,
    mutation: Mutation,
    off: usize,
    n: usize,
    plen: usize,
    sel: u32,
    always: bool,
)
    requires
        20 + plen <= n,
        plen <= u32::MAX - 8,
        off + n <= old(bytes)@.len(),
        call_ensures(apply_mutation, (bytes, mutation, off, n, plen, sel), ()),
        call_ensures(Mutation::invalidates, (mutation,), always),
    ensures
        always,
        final(bytes)@.len() == old(bytes)@.len(),
        ({
            let (a, b) = (old(bytes)@, final(bytes)@);
            match mutation {
                Mutation::FlipCrc => b == a.update(
                    off + sel as int % 4,
                    a[off + sel as int % 4] ^ 0xff,
                ),
                Mutation::FlipBody => b == a.update(
                    off + 4 + sel as int % (n - 4),
                    a[off + 4 + sel as int % (n - 4)] ^ 0xff,
                ),
                Mutation::ZeroRecType => b == a.update(off + 16, 0),
                Mutation::ExtendLength => number_at(b, off + 4, 4) == plen + 8 && forall|i: int|
                    0 <= i < a.len() && !(off + 4 <= i < off + 8) ==> b[i] == a[i],
                Mutation::TamperPadding => exists|i: int|
                    {
                        &&& off + 4 <= i < off + n
                        &&& n > 20 + plen ==> i == off + 20 + plen + sel as int % (n - 20 - plen)
                        &&& n == 20 + plen ==> i == off + 4 + sel as int % (n - 4)
                        &&& b == a.update(i, #[trigger] a[i] ^ 0xff)
                    },
                Mutation::ReservedRecType => b[off + 16] == 2 && number_at(b, off as int, 4)
                    == crc32c_of(b.subrange(off + 4, off + n)) && forall|i: int|
                    0 <= i < a.len() && !(off <= i < off + 4) && i != off + 16 ==> b[i] == a[i],
            }
        }),
{
    let (a, b) = (old(bytes)@, final(bytes)@);
    match mutation {
        Mutation::ExtendLength => {
            let v = (plen + 8) as u32;
            assert(b.subrange(off + 4, off + 8) =~= crate::bytes::le32(v));
            crate::bytes::lemma_le32_round_trip(v, b, off + 4);
            lemma_number_at(b, off + 4);
        },
        Mutation::TamperPadding => {
            let i = if n > 20 + plen {
                off + 20 + plen + sel as int % (n - 20 - plen)
            } else {
                off + 4 + sel as int % (n - 4)
            };
            assert(b == a.update(i, a[i] ^ 0xff));
        },
        Mutation::ReservedRecType => {
            let typed = a.update(off + 16, 2);
            let v = crc32c_of(typed.subrange(off + 4, off + n));
            assert(b.subrange(off as int, off + 4) =~= crate::bytes::le32(v));
            crate::bytes::lemma_le32_round_trip(v, b, off as int);
            lemma_number_at(b, off as int);
            assert(b.subrange(off + 4, off + n) =~= typed.subrange(off + 4, off + n));
        },
        _ => {},
    }
}

/// A record that was encoded and then damaged does not read back, as a record or as an
/// end of the records. Where a mutation may change the length field this is not claimed.
pub proof fn law_damaged_record_does_not_read_back(
    buf: &mut Vec<u8>,
    lsn: Lsn,
    payload: &[u8],
    n: usize,
    bytes: &mut Vec<u8>,
    mutation: Mutation,
    sel: u32,
    file: &[u8],
    size: u64,
    max: u32,
    r: ScanOutcome<'_>,
)
    requires
        1 <= lsn.0,
        payload@.len() <= max,
        call_ensures(encode_into, (buf, lsn, payload), n),
        old(bytes)@ == final(buf)@,
        final(buf)@.len() <= size,
        final(buf)@.len() <= usize::MAX,
        call_ensures(
            apply_mutation,
            (bytes, mutation, old(buf)@.len() as usize, n, payload@.len() as usize, sel),
            (),
        ),
        match mutation {
            Mutation::ExtendLength => false,
            Mutation::FlipBody => sel as int % (n - 4) >= 4,
            Mutation::TamperPadding => n > 20 + payload@.len() || sel as int % (n - 4) >= 4,
            _ => true,
        },
        file@ == final(bytes)@,
        call_ensures(read_record_at, (file, old(buf)@.len() as u64, size, max), r),
    ensures
        r is Invalid,
{
    let off = old(buf)@.len() as int;
    let f = frame(lsn.0, payload@);
    lemma_frame_len(lsn.0, payload@);
    assert(final(buf)@.subrange(off, off + f.len()) =~= f);
    assert(holds_at(final(buf)@, off, f));
    law_mutation_invalidates(
        final(buf)@,
        mutation,
        off,
        lsn.0,
        payload@,
        sel as int,
        size as int,
        max,
    );
}

/// The payloads of a generated segment.
proof fn lemma_built_payloads(raw: Seq<Vec<u8>>, cap: int, room: int, left: nat)
    requires
        0 <= cap,
    ensures
        ({
            let chosen = built_payloads(raw, cap, room, left);
            &&& chosen.len() <= raw.len()
            &&& chosen.len() <= left
            &&& chosen.len() > 0 ==> span(chosen) <= room
            &&& forall|i: int|
                0 <= i < chosen.len() ==> #[trigger] chosen[i] == clipped(raw[i]@, cap)
            &&& chosen.len() < left && chosen.len() < raw.len() ==> span(chosen) + frame_len(
                clipped(raw[chosen.len() as int]@, cap).len() as int,
            ) > room
        }),
    decreases left,
{
    let chosen = built_payloads(raw, cap, room, left);
    if left == 0 || raw.len() == 0 || frame_len(clipped(raw[0]@, cap).len() as int) > room {
        assert(span(chosen) == 0);
    } else {
        let payload = clipped(raw[0]@, cap);
        let less = room - frame_len(payload.len() as int);
        let rest = built_payloads(raw.drop_first(), cap, less, (left - 1) as nat);
        lemma_built_payloads(raw.drop_first(), cap, less, (left - 1) as nat);
        lemma_span_concat(seq![payload], rest);
        assert(seq![payload].drop_last() =~= seq![]);
        assert(span(seq![payload]) == frame_len(payload.len() as int)) by {
            reveal_with_fuel(span, 2);
        }
        if rest.len() == 0 {
            assert(span(rest) == 0);
        }
        assert forall|i: int| 0 <= i < chosen.len() implies #[trigger] chosen[i] == clipped(
            raw[i]@,
            cap,
        ) by {
            if i > 0 {
                assert(chosen[i] == rest[i - 1]);
                assert(raw.drop_first()[i - 1] == raw[i]);
            }
        }
        if rest.len() + 1 < raw.len() {
            assert(raw.drop_first()[rest.len() as int] == raw[rest.len() as int + 1]);
        }
    }
}

/// A generated segment starts with the header for its base and holds its records densely,
/// from the base on: the payloads that it was given, each cut to 64 bytes and the bound, as
/// many as there are and fit, and at most six.
pub proof fn law_generated_segment_holds_its_records(
    base: u64,
    payloads: &Vec<Vec<u8>>,
    config: WalConfig,
    built: Built,
    i: int,
)
    requires
        config.valid(),
        config.segment_size <= usize::MAX,
        1 <= base <= u64::MAX - 6,
        call_ensures(build_segment, (base, payloads, config), built),
    ensures
        heads(built.bytes@, base),
        built.bytes@.len() <= config.segment_size,
        built.recs@.len() == built.origs@.len(),
        built.origs@.len() <= 6,
        built.origs@.len() <= payloads@.len(),
        0 <= i < built.origs@.len() ==> {
            let p = payloads@[i]@;
            let q = built.origs@[i]@;
            &&& q == p.take(q.len() as int)
            &&& q.len() <= p.len()
            &&& q.len() <= 64 && q.len() <= config.max_record_size
            &&& q.len() == p.len() || q.len() == 64 || q.len() == config.max_record_size
            &&& built.recs@[i].plen == q.len()
            &&& built.recs@[i].framed == framed(q.len() as int)
            &&& built.recs@[i].off == if i == 0 {
                64int
            } else {
                built.recs@[i - 1].off + built.recs@[i - 1].framed
            }
            &&& record_at(
                built.bytes@,
                built.recs@[i].off as int,
                config.segment_size as int,
                config.max_record_size,
                (base + i) as u64,
                q,
            )
        },
        built.origs@.len() < 6 && built.origs@.len() < payloads@.len() ==> {
            let p = payloads@[built.origs@.len() as int]@;
            let m = if p.len() <= 64 && p.len() <= config.max_record_size {
                p.len() as int
            } else if config.max_record_size < 64 {
                config.max_record_size as int
            } else {
                64
            };
            built.bytes@.len() + framed(m) > config.segment_size
        },
{
    let cap = if config.max_record_size < 64 {
        config.max_record_size as int
    } else {
        64
    };
    let room = config.segment_size - 64;
    let chosen = payload_views(built.origs@);
    lemma_built_payloads(payloads@, cap, room, 6);
    law_header_round_trip(base, 0, frames(base, chosen));
    lemma_header_by_bytes(built.bytes@, base);
    lemma_span(base, chosen);
    assert(header(base, 0).len() == 64);
    if chosen.len() == 0 {
        assert(span(chosen) == 0);
    }
    if built.origs@.len() < payloads@.len() {
        let p = payloads@[built.origs@.len() as int]@;
        lemma_framed(clipped(p, cap).len() as int);
    }
    if 0 <= i < chosen.len() {
        let q = chosen[i];
        assert(q == built.origs@[i]@);
        assert(q == clipped(payloads@[i]@, cap));
        assert(q =~= payloads@[i]@.take(q.len() as int));
        let before = chosen.take(i);
        let at = 64 + span(before);
        assert(built.recs@[i].off == at);
        lemma_framed(q.len() as int);
        lemma_built_record(built.bytes@, base, chosen, i);
        if i > 0 {
            assert(built.recs@[i - 1].off == 64 + span(chosen.take(i - 1)));
            assert(before.drop_last() =~= chosen.take(i - 1));
            assert(before =~= chosen.take(i - 1) + seq![chosen[i - 1]]);
            lemma_span_concat(chosen.take(i - 1), seq![chosen[i - 1]]);
            lemma_span_one(chosen[i - 1]);
        } else {
            assert(before =~= seq![]);
            assert(span(before) == 0);
        }
    }
}

/// One of the records of a generated segment.
proof fn lemma_built_record(bytes: Seq<u8>, base: u64, chosen: Seq<Seq<u8>>, i: int)
    requires
        1 <= base <= u64::MAX - 6,
        0 <= i < chosen.len() <= 6,
        bytes == header(base, 0) + frames(base, chosen),
        header(base, 0).len() == 64,
        bounded(chosen, u32::MAX),
    ensures
        ({
            let q = chosen[i];
            let at = 64 + span(chosen.take(i));
            &&& at + framed(q.len() as int) <= bytes.len()
            &&& record_bytes(
                bytes,
                at,
                (base + i) as u64,
                q,
                crc32c_of(bytes.subrange(at + 4, at + framed(q.len() as int))),
            )
        }),
{
    let q = chosen[i];
    let (before, after) = (chosen.take(i), chosen.skip(i + 1));
    let at = 64 + span(before);
    let lsn = (base + i) as u64;
    lemma_framed(q.len() as int);
    lemma_frame_len(lsn, q);
    assert(chosen =~= before + (seq![q] + after));
    lemma_frames_concat(base, before, seq![q] + after);
    lemma_frames_concat(lsn, seq![q], after);
    lemma_frames_one(lsn, q);
    lemma_bounded_parts(chosen, i, u32::MAX);
    lemma_span(base, before);
    let rest = bytes.skip(at);
    let tail = frames((lsn + 1) as u64, after);
    assert(rest =~= frame(lsn, q) + tail);
    assert(frame(lsn, q) =~= rest.subrange(0, frame(lsn, q).len() as int));
    lemma_frame_bytes(bytes, at, lsn, q);
}

/// The frame of one payload.
proof fn lemma_span_one(payload: Seq<u8>)
    ensures
        span(seq![payload]) == frame_len(payload.len() as int),
{
    reveal_with_fuel(span, 2);
    assert(seq![payload].drop_first() =~= seq![]);
    assert(seq![payload].drop_last() =~= seq![]);
}

/// A replay passes exactly where it is the records from the base up to the durable one,
/// each with the payload that was built.
pub proof fn law_dense_prefix_is_the_first_records(
    replay: &Vec<(u64, Vec<u8>)>,
    base: u64,
    durable: u64,
    origs: &Vec<Vec<u8>>,
    ok: bool,
)
    requires
        call_ensures(check_dense_prefix, (replay, base, durable, origs), ok),
    ensures
        ok <==> replay@.len() <= origs@.len() && base + replay@.len() == durable + 1 && (forall|
            i: int,
        |
            0 <= i < replay@.len() ==> (#[trigger] replay@[i]).0 == base + i && replay@[i].1@
                == origs@[i]@),
{
}

/// An undamaged segment has to open; one whose last record is damaged has to open without
/// that record; and one with other damage must not open.
pub proof fn law_outcome_is_right_for_cause(
    opened: Opened,
    base: u64,
    n: usize,
    index: usize,
    offset: usize,
    whole: bool,
    hurt: bool,
)
    requires
        call_ensures(check_outcome, (opened, base, n, None::<(usize, usize)>), whole),
        call_ensures(check_outcome, (opened, base, n, Some((index, offset))), hurt),
    ensures
        match opened {
            Opened::Recovered { oldest, durable, tail } => {
                &&& whole <==> oldest == base && base - 1 <= durable <= base + n
                &&& hurt <==> oldest == base && index + 1 == n && durable + 1 == base + index
                    && tail == (TailState::TruncatedAt {
                    segment_base: Lsn(base),
                    offset: offset as u64,
                })
            },
            Opened::Damaged => !whole && (hurt <==> index + 1 < n),
            Opened::Failed => !whole && !hurt,
        },
{
}

/// Whether a payload was drawn from `data`, and left `rest`: its first byte says how its
/// length comes about, and the bytes behind are the payload.
pub open spec fn payload_from(data: Seq<u8>, max: u32, payload: Seq<u8>, rest: Seq<u8>) -> bool {
    let kind = front(data, 1)[0] as int % 8;
    let (skip, len) = if kind >= 4 && max > 0 {
        (3nat, number_at(front(behind(data, 1), 2), 0, 2) as int % (max + 1))
    } else if kind == 1 && max >= 1 {
        (1nat, 1int)
    } else if kind == 2 && max >= 8 {
        (1nat, 8int)
    } else if kind == 2 || kind == 3 {
        (1nat, max as int)
    } else {
        (1nat, 0int)
    };
    &&& payload.len() == len
    &&& payload == front(behind(data, skip), len as nat)
    &&& rest == behind(data, (skip + len) as nat)
}

/// Whether a step was drawn from `data`, and left `rest`.
pub open spec fn op_from(data: Seq<u8>, max: u32, op: Op, rest: Seq<u8>) -> bool {
    let kind = front(data, 1)[0] as int % 16;
    match op {
        Op::Append(payload) => kind <= 7 && payload_from(behind(data, 1), max, payload@, rest),
        Op::Commit => 8 <= kind <= 11 && rest == behind(data, 1),
        Op::Checkpoint(up_to) => 12 <= kind <= 13 && up_to == number_at(
            front(behind(data, 1), 8),
            0,
            8,
        ) && rest == behind(data, 9),
        Op::CrashAndRecover => kind == 14 && rest == behind(data, 1),
        Op::Reopen => kind == 15 && rest == behind(data, 1),
    }
}

/// What is behind what is behind.
proof fn lemma_behind_behind(data: Seq<u8>, a: nat, b: nat)
    ensures
        behind(behind(data, a), b) == behind(data, a + b),
{
    assert(behind(behind(data, a), b) =~= behind(data, a + b));
}

/// A drawn payload is bytes of the source, within the bound.
pub proof fn law_drawn_payload_is_from_the_source(
    u: &mut arbitrary::Unstructured<'_>,
    max: u32,
    r: Result<Vec<u8>, DrawError>,
)
    requires
        max < usize::MAX,
        call_ensures(arbitrary_payload, (u, max), r),
    ensures
        r matches Ok(p) && p@.len() <= max && payload_from(
            undrawn(*old(u)),
            max,
            p@,
            undrawn(*final(u)),
        ),
{
    let data = undrawn(*old(u));
    lemma_payload_from(data, max, r->Ok_0@, undrawn(*final(u)));
}

/// A payload, by the bytes that it was drawn from.
proof fn lemma_payload_from(data: Seq<u8>, max: u32, payload: Seq<u8>, rest: Seq<u8>)
    requires
        crate::script::payload_in(data, max) == (payload, rest),
    ensures
        payload_from(data, max, payload, rest),
{
    lemma_number_at(front(behind(data, 1), 2), 0);
    lemma_behind_behind(data, 1, 2);
    lemma_behind_behind(data, 1, payload.len());
    lemma_behind_behind(data, 3, payload.len());
}

/// A drawn configuration is a valid one, made of the first five bytes of the source.
pub proof fn law_drawn_configuration_is_from_the_source(
    u: &mut arbitrary::Unstructured<'_>,
    r: Result<WalConfig, DrawError>,
)
    requires
        call_ensures(arbitrary_config, (u,), r),
    ensures
        r matches Ok(c) && {
            let data = undrawn(*old(u));
            &&& c.segment_size == seq![256u64, 384, 512, 4096][front(data, 1)[0] as int % 4]
            &&& c.max_record_size == number_at(front(behind(data, 1), 4), 0, 4) as int % (
            c.segment_size - 90)
            &&& undrawn(*final(u)) == behind(data, 5)
        },
{
    let data = undrawn(*old(u));
    lemma_number_at(front(behind(data, 1), 4), 0);
    lemma_behind_behind(data, 1, 4);
}

/// Drawn steps come one behind the other out of the source, as many as its first byte
/// says, and at most 80.
pub proof fn law_drawn_steps_are_from_the_source(
    u: &mut arbitrary::Unstructured<'_>,
    max: u32,
    r: Result<Vec<Op>, DrawError>,
    i: int,
)
    requires
        max < usize::MAX,
        call_ensures(arbitrary_ops, (u, max), r),
    ensures
        r matches Ok(ops) && {
            let data = undrawn(*old(u));
            &&& ops@.len() == front(data, 1)[0] as int % 81
            &&& exists|rests: Seq<Seq<u8>>|
                {
                    &&& rests.len() == ops@.len() + 1
                    &&& #[trigger] rests[0] == behind(data, 1)
                    &&& rests[ops@.len() as int] == undrawn(*final(u))
                    &&& 0 <= i < ops@.len() ==> op_from(rests[i], max, ops@[i], rests[i + 1])
                }
        },
{
    let data = undrawn(*old(u));
    let rest = behind(data, 1);
    let ops = r->Ok_0@;
    let n = (front(data, 1)[0] % 81) as nat;
    lemma_ops_in(rest, n, max);
    let rests = Seq::new(n + 1, |k: int| ops_in(rest, k as nat, max).1);
    assert(op_views(ops).len() == n);
    assert(rests[0] == behind(data, 1));
    if 0 <= i < n {
        assert(ops_in(rest, n, max).0[i] == op_views(ops)[i]);
        assert(ops[i]@ == op_views(ops)[i]);
        lemma_op_at(rest, n, max, i);
        let from = rests[i];
        lemma_number_at(front(behind(from, 1), 8), 0);
        lemma_behind_behind(from, 1, 8);
        if let OpView::Append(payload) = ops[i]@ {
            lemma_payload_from(behind(from, 1), max, payload, rests[i + 1]);
        }
    }
}

/// As many steps as asked for.
proof fn lemma_ops_in(data: Seq<u8>, n: nat, max: u32)
    ensures
        ops_in(data, n, max).0.len() == n,
    decreases n,
{
    if n > 0 {
        lemma_ops_in(data, (n - 1) as nat, max);
    }
}

/// One of the steps, by what it was drawn from.
proof fn lemma_op_at(data: Seq<u8>, n: nat, max: u32, i: int)
    requires
        0 <= i < n,
    ensures
        crate::script::op_in(ops_in(data, i as nat, max).1, max) == (
            ops_in(data, n, max).0[i],
            ops_in(data, (i + 1) as nat, max).1,
        ),
    decreases n,
{
    lemma_ops_in(data, (n - 1) as nat, max);
    if i < n - 1 {
        lemma_op_at(data, (n - 1) as nat, max, i);
    }
}

/// A script is a configuration and steps for it, drawn one behind the other.
pub proof fn law_script_is_drawn_in_order(
    data: &[u8],
    r: Result<(WalConfig, Vec<Op>), DrawError>,
    first: &mut arbitrary::Unstructured<'_>,
    config: WalConfig,
    later: &mut arbitrary::Unstructured<'_>,
    ops: Vec<Op>,
)
    requires
        call_ensures(script_from, (data,), r),
        undrawn(*old(first)) == data@,
        call_ensures(arbitrary_config, (first,), Ok::<WalConfig, DrawError>(config)),
        undrawn(*old(later)) == undrawn(*final(first)),
        config.max_record_size < usize::MAX,
        call_ensures(
            arbitrary_ops,
            (later, config.max_record_size),
            Ok::<Vec<Op>, DrawError>(ops),
        ),
    ensures
        r matches Ok((c, steps)) && c == config && op_views(steps@) == op_views(ops@),
{
}

} // verus!
