//! The grouping of records into commits: it decides when they become durable, and
//! nothing else.

use vstd::prelude::*;

use crate::bytes::le16;
use crate::bytes::le64;
use crate::config::WalConfig;
use crate::disk::extended;
use crate::disk::flat;
use crate::disk::fresh;
use crate::disk::law_cold_start_is_stored;
use crate::disk::law_roll_is_stored;
use crate::disk::spliced;
use crate::disk::stored;
use crate::history::appended;
use crate::history::commit_ended;
use crate::history::commit_stepped;
use crate::history::committed;
use crate::history::law_commit_step_keeps_the_log;
use crate::history::law_replay_reads_back;
use crate::history::lemma_commit_ends;
use crate::history::lemma_planned_is_sound;
use crate::history::replay;
use crate::history::World;
use crate::image::bounded;
use crate::image::frames;
use crate::image::lemma_bounded_parts;
use crate::image::lemma_frames_concat;
use crate::image::lemma_frames_one;
use crate::image::lemma_nth_lsn_add;
use crate::image::lemma_span;
use crate::image::lemma_span_concat;
use crate::lsn::next_lsn;
use crate::open::cold;
use crate::open::started;
use crate::reader::reader_at;
use crate::record::frame_len;
use crate::record::zeros;
use crate::segment::header_body;
use crate::segment::magic;
use crate::segment::FORMAT_VERSION;
use crate::segment::HEADER_SIZE;
use crate::wal::fitting;
use crate::wal::law_commit_makes_progress;
use crate::wal::lemma_fitting;
use crate::wal::planned;
use crate::wal::rolled;
use crate::wal::Due;
use crate::wal::WalState;

verus! {

/// Whether `w` is a sound log with everything in it durable, and room for `n` more
/// LSNs.
pub open spec fn settled_with_room(w: World, n: int) -> bool {
    &&& w.sound()
    &&& w.state.due is Nothing
    &&& w.state.pending.len() == 0
    &&& w.state.durable + n < u64::MAX
}

/// `w` once each of `groups` has been appended and committed.
pub open spec fn committed_in(
    w: World,
    groups: Seq<Seq<Seq<u8>>>,
    created: spec_fn(u64) -> u64,
) -> World
    decreases groups.len(),
{
    if groups.len() == 0 {
        w
    } else {
        committed_in(committed(appended(w, groups[0]), created), groups.drop_first(), created)
    }
}

/// Appending changes nothing but what is pending.
proof fn lemma_appended_is_sound(w: World, p: Seq<Seq<u8>>)
    requires
        w.sound(),
        w.state.due is Nothing,
        w.state.pending.len() == 0,
        bounded(p, w.state.max),
    ensures
        appended(w, p).sound(),
        appended(w, p).state.pending == p,
        (World { state: planned(appended(w, p).state), ..w }).sound(),
{
    let n = appended(w, p);
    assert(w.state.pending + p =~= p);
    assert(n.state.valid());
    assert(n.state.segments == w.state.segments);
    assert(n.sound());
    lemma_planned_is_sound(n);
}

/// What a commit of appended records comes to.
proof fn lemma_committed(w: World, p: Seq<Seq<u8>>, created: spec_fn(u64) -> u64, n: int)
    requires
        settled_with_room(w, n),
        bounded(p, w.state.max),
        p.len() <= n,
    ensures
        settled_with_room(committed(appended(w, p), created), n - p.len()),
        committed(appended(w, p), created).state.max == w.state.max,
{
    lemma_appended_is_sound(w, p);
    lemma_commit_ends(World { state: planned(appended(w, p).state), ..w }, created);
}

/// A commit of nothing changes nothing.
proof fn lemma_committed_nothing(w: World, created: spec_fn(u64) -> u64)
    requires
        settled_with_room(w, 0),
    ensures
        committed(appended(w, seq![]), created) == w,
{
    let none: Seq<Seq<u8>> = seq![];
    assert(w.state.pending + none =~= w.state.pending);
    assert(appended(w, none) == w);
    assert(planned(w.state) == w.state);
}

/// Two writes in a row are one.
proof fn lemma_spliced_twice(file: Seq<u8>, at: int, a: Seq<u8>, b: Seq<u8>)
    requires
        0 <= at,
        at + a.len() + b.len() <= file.len(),
    ensures
        spliced(spliced(file, at, a), at + a.len(), b) == spliced(file, at, a + b),
{
    assert(spliced(spliced(file, at, a), at + a.len(), b) =~= spliced(file, at, a + b));
}

/// Committing one record that fits into the active segment.
proof fn lemma_commit_one(w: World, payload: Seq<u8>, created: spec_fn(u64) -> u64)
    requires
        settled_with_room(w, 1),
        payload.len() <= w.state.max,
        w.state.write_offset + frame_len(payload.len() as int) <= w.state.size,
    ensures
        ({
            let s = w.state;
            let one = seq![payload];
            let base = s.segments.last().0;
            committed(appended(w, one), created) == (World {
                disk: w.disk.insert(
                    base,
                    spliced(w.disk[base], s.write_offset, frames(next_lsn(s.durable), one)),
                ),
                state: WalState {
                    write_offset: s.write_offset + frame_len(payload.len() as int),
                    durable: next_lsn(s.durable),
                    ..s
                },
                parts: extended(w.parts, one),
            })
        }),
{
    let one = seq![payload];
    let none: Seq<Seq<u8>> = seq![];
    assert(w.state.pending =~= none);
    assert forall|i: int| 0 <= i < one.len() implies (#[trigger] one[i]).len()
        <= w.state.max by {}
    lemma_appended_is_sound(w, one);
    let p = World { state: planned(appended(w, one).state), ..w };
    let room = w.state.size - w.state.write_offset;
    assert(one.drop_first() =~= none);
    assert(fitting(one, room) == 1) by {
        assert(fitting(one.drop_first(), room - frame_len(one[0].len() as int)) == 0);
    }
    assert(one.take(1) =~= one);
    assert(one.skip(1) =~= none);
    lemma_frames_one(0, payload);
    law_commit_step_keeps_the_log(p, created);
    let e = commit_stepped(p, created);
    assert(e.state.due is Nothing);
    assert(commit_ended(e, created) == e);
    assert(commit_ended(p, created) == e);
}

/// Committing records, the first of which fits into the active segment: it may be
/// committed on its own first.
proof fn lemma_commit_splits_fitting(w: World, p: Seq<Seq<u8>>, created: spec_fn(u64) -> u64)
    requires
        settled_with_room(w, p.len() as int),
        bounded(p, w.state.max),
        p.len() >= 1,
        w.state.write_offset + frame_len(p[0].len() as int) <= w.state.size,
    ensures
        committed(appended(w, p), created) == committed(
            appended(committed(appended(w, seq![p[0]]), created), p.drop_first()),
            created,
        ),
{
    let s = w.state;
    let one = seq![p[0]];
    let rest = p.drop_first();
    let room = s.size - s.write_offset;
    let fl = frame_len(p[0].len() as int);
    let base = s.segments.last().0;
    let first = next_lsn(s.durable);
    let count = fitting(p, room) as int;
    assert forall|i: int| 0 <= i < rest.len() implies (#[trigger] rest[i]).len() <= s.max by {
        assert(rest[i] == p[i + 1]);
    }
    assert forall|i: int| 0 <= i < one.len() implies (#[trigger] one[i]).len() <= s.max by {}
    lemma_appended_is_sound(w, p);
    lemma_committed(w, one, created, p.len() as int);
    lemma_commit_one(w, p[0], created);
    let o = committed(appended(w, one), created);
    lemma_appended_is_sound(o, rest);
    let pw = World { state: planned(appended(w, p).state), ..w };
    let rw = World { state: planned(appended(o, rest).state), ..o };
    let v = commit_stepped(pw, created);
    assert(count == 1 + fitting(rest, room - fl));
    lemma_fitting(p, room);
    lemma_frames_one(first, p[0]);
    if count == 1 {
        assert(p.take(1) =~= one);
        assert(p.skip(1) =~= rest);
        assert(v.state == rw.state);
        assert(v == rw);
    } else {
        let more = rest.take(count - 1);
        let u = commit_stepped(rw, created);
        assert(p.take(count) =~= one + more);
        assert(p.skip(count) =~= rest.skip(count - 1));
        lemma_span_concat(one, more);
        lemma_frames_concat(first, one, more);
        lemma_nth_lsn_add(s.durable, 1, count - 1);
        lemma_bounded_parts(p, count, s.max);
        lemma_bounded_parts(rest, count - 1, s.max);
        lemma_span(first, p.take(count));
        lemma_span(next_lsn(first), more);
        lemma_span(first, one);
        lemma_spliced_twice(w.disk[base], s.write_offset, frames(first, one), frames(
            next_lsn(first),
            more,
        ));
        assert(u.state == v.state);
        assert(u.disk =~= v.disk);
        assert(extended(extended(w.parts, one), more) =~= extended(w.parts, one + more)) by {
            assert(w.parts.last() + one + more =~= w.parts.last() + (one + more));
        }
        assert(u == v);
    }
}

/// `w` with a new segment for its next record.
spec fn with_segment(w: World, created: spec_fn(u64) -> u64) -> World {
    let base = next_lsn(w.state.durable);
    World {
        disk: w.disk.insert(base, fresh(base, created(base), w.state.size)),
        state: rolled(w.state),
        parts: w.parts.push(seq![]),
    }
}

/// Committing records, the first of which does not fit into the active segment, starts
/// with a new segment.
proof fn lemma_commit_rolls(w: World, p: Seq<Seq<u8>>, created: spec_fn(u64) -> u64, n: int)
    requires
        settled_with_room(w, n),
        bounded(p, w.state.max),
        p.len() >= 1,
        p.len() <= n,
        w.state.write_offset + frame_len(p[0].len() as int) > w.state.size,
    ensures
        settled_with_room(with_segment(w, created), n),
        with_segment(w, created).state.write_offset + frame_len(p[0].len() as int)
            <= with_segment(w, created).state.size,
        with_segment(w, created).state.max == w.state.max,
        committed(appended(w, p), created) == committed(
            appended(with_segment(w, created), p),
            created,
        ),
{
    let none: Seq<Seq<u8>> = seq![];
    lemma_appended_is_sound(w, p);
    let pw = World { state: planned(appended(w, p).state), ..w };
    let x = with_segment(w, created);
    let base = next_lsn(w.state.durable);
    assert(pw.state.due is Roll);
    assert(p[0].len() <= w.state.max);
    law_roll_is_stored(pw.disk, pw.state, pw.parts, created(base));
    let y = World { state: rolled(pw.state), ..x };
    assert(y.sound());
    assert(x.state.valid()) by {
        assert(x.state.segments == y.state.segments);
    }
    assert(x.sound());
    lemma_appended_is_sound(x, p);
    assert(w.state.pending =~= none);
    assert(rolled(pw.state) == appended(x, p).state);
    assert(commit_stepped(pw, created) == (World { state: planned(appended(x, p).state), ..x }));
}

/// The first of several records may be committed on its own first.
proof fn lemma_commit_splits_first(w: World, p: Seq<Seq<u8>>, created: spec_fn(u64) -> u64)
    requires
        settled_with_room(w, p.len() as int),
        bounded(p, w.state.max),
        p.len() >= 1,
    ensures
        committed(appended(w, p), created) == committed(
            appended(committed(appended(w, seq![p[0]]), created), p.drop_first()),
            created,
        ),
{
    let one = seq![p[0]];
    if w.state.write_offset + frame_len(p[0].len() as int) <= w.state.size {
        lemma_commit_splits_fitting(w, p, created);
    } else {
        assert forall|i: int| 0 <= i < one.len() implies (#[trigger] one[i]).len()
            <= w.state.max by {}
        lemma_commit_rolls(w, p, created, p.len() as int);
        lemma_commit_rolls(w, one, created, p.len() as int);
        lemma_commit_splits_fitting(with_segment(w, created), p, created);
    }
}

/// A commit may be split in two: committing `a` and `b` at once, and committing `a` and
/// then `b`, end in the same files and the same handle.
pub proof fn law_commit_may_be_split(
    w: World,
    a: Seq<Seq<u8>>,
    b: Seq<Seq<u8>>,
    created: spec_fn(u64) -> u64,
)
    requires
        settled_with_room(w, (a + b).len() as int),
        bounded(a + b, w.state.max),
    ensures
        committed(appended(w, a + b), created) == committed(
            appended(committed(appended(w, a), created), b),
            created,
        ),
    decreases a.len(),
{
    if a.len() == 0 {
        assert(a + b =~= b);
        assert(a =~= seq![]);
        lemma_committed_nothing(w, created);
    } else {
        let all = a + b;
        let one = seq![a[0]];
        let rest = a.drop_first();
        assert forall|i: int| 0 <= i < a.len() implies (#[trigger] a[i]).len() <= w.state.max by {
            assert(all[i] == a[i]);
        }
        assert forall|i: int| 0 <= i < one.len() implies (#[trigger] one[i]).len()
            <= w.state.max by {
            assert(a[0].len() <= w.state.max);
        }
        assert(all.drop_first() =~= rest + b);
        assert forall|i: int| 0 <= i < (rest + b).len() implies (#[trigger] (rest + b)[i]).len()
            <= w.state.max by {
            assert((rest + b)[i] == all[i + 1]);
        }
        lemma_commit_splits_first(w, all, created);
        lemma_committed(w, one, created, all.len() as int);
        let x = committed(appended(w, one), created);
        law_commit_may_be_split(x, rest, b, created);
        lemma_commit_splits_first(w, a, created);
    }
}

/// The grouping of commits does not matter: committing records in any groups ends in the
/// same files and the same handle as committing all of them at once.
pub proof fn law_grouping_of_commits_does_not_matter(
    w: World,
    groups: Seq<Seq<Seq<u8>>>,
    created: spec_fn(u64) -> u64,
)
    requires
        settled_with_room(w, flat(groups).len() as int),
        bounded(flat(groups), w.state.max),
    ensures
        committed_in(w, groups, created) == committed(appended(w, flat(groups)), created),
    decreases groups.len(),
{
    if groups.len() == 0 {
        assert(flat(groups) =~= seq![]);
        lemma_committed_nothing(w, created);
    } else {
        let (a, b) = (groups[0], flat(groups.drop_first()));
        assert(flat(groups) == a + b);
        assert forall|i: int| 0 <= i < a.len() implies (#[trigger] a[i]).len() <= w.state.max by {
            assert((a + b)[i] == a[i]);
        }
        assert forall|i: int| 0 <= i < b.len() implies (#[trigger] b[i]).len() <= w.state.max by {
            assert((a + b)[a.len() + i] == b[i]);
        }
        law_commit_may_be_split(w, a, b, created);
        lemma_committed(w, a, created, flat(groups).len() as int);
        law_grouping_of_commits_does_not_matter(
            committed(appended(w, a), created),
            groups.drop_first(),
            created,
        );
    }
}

/// Whether two files agree but for the time of creation in their headers, and the
/// checksum over it.
pub open spec fn same_but_for_time(a: Seq<u8>, b: Seq<u8>) -> bool {
    &&& a.len() == b.len()
    &&& forall|i: int|
        0 <= i < a.len() && !(20 <= i < 28) && !(60 <= i < 64) ==> a[i] == #[trigger] b[i]
}

/// Whether two logs agree in their handles, their records and, but for the times of
/// creation, their files.
pub open spec fn alike(a: World, b: World) -> bool {
    &&& a.state == b.state
    &&& a.parts == b.parts
    &&& a.disk.dom() == b.disk.dom()
    &&& forall|base: u64|
        a.disk.contains_key(base) ==> same_but_for_time(a.disk[base], #[trigger] b.disk[base])
}

/// New segments agree but for their times of creation.
proof fn lemma_fresh_alike(base: u64, a: u64, b: u64, size: int)
    requires
        HEADER_SIZE <= size,
    ensures
        same_but_for_time(fresh(base, a, size), fresh(base, b, size)),
{
    let (x, y) = (header_body(base, a), header_body(base, b));
    let (front, back) = (magic() + le16(FORMAT_VERSION) + le16(0) + le64(base), zeros(32));
    assert(front.len() == 20);
    assert(x =~= front + le64(a) + back);
    assert(y =~= front + le64(b) + back);
    let (f, g) = (fresh(base, a, size), fresh(base, b, size));
    assert forall|i: int| 0 <= i < f.len() && !(20 <= i < 28) && !(60 <= i < 64) implies f[i]
        == #[trigger] g[i] by {
        if i < 60 {
            assert(f[i] == x[i] && g[i] == y[i]);
        }
    }
}

/// A step of a commit keeps logs alike.
proof fn lemma_step_alike(
    a: World,
    b: World,
    created_a: spec_fn(u64) -> u64,
    created_b: spec_fn(u64) -> u64,
)
    requires
        a.sound(),
        alike(a, b),
    ensures
        alike(commit_stepped(a, created_a), commit_stepped(b, created_b)),
{
    let s = a.state;
    let (x, y) = (commit_stepped(a, created_a), commit_stepped(b, created_b));
    match s.due {
        Due::Write { .. } => {
            let base = s.segments.last().0;
            assert(stored(a.disk, s.segments, a.parts, s.size, s.max, s.segments.len() - 1));
            assert(same_but_for_time(a.disk[base], b.disk[base]));
            assert(same_but_for_time(x.disk[base], y.disk[base]));
            assert forall|k: u64| x.disk.contains_key(k) implies same_but_for_time(
                x.disk[k],
                #[trigger] y.disk[k],
            ) by {
                if k != base {
                    assert(same_but_for_time(a.disk[k], b.disk[k]));
                }
            }
        },
        Due::Roll => {
            let base = next_lsn(s.durable);
            lemma_fresh_alike(base, created_a(base), created_b(base), s.size);
            assert forall|k: u64| x.disk.contains_key(k) implies same_but_for_time(
                x.disk[k],
                #[trigger] y.disk[k],
            ) by {
                if k != base {
                    assert(same_but_for_time(a.disk[k], b.disk[k]));
                }
            }
        },
        Due::Nothing => {},
    }
    assert(x.disk.dom() =~= y.disk.dom());
}

/// A commit keeps logs alike.
proof fn lemma_commit_alike(
    a: World,
    b: World,
    created_a: spec_fn(u64) -> u64,
    created_b: spec_fn(u64) -> u64,
)
    requires
        a.sound(),
        alike(a, b),
        a.state.durable + a.state.pending.len() < u64::MAX,
    ensures
        alike(commit_ended(a, created_a), commit_ended(b, created_b)),
    decreases
            a.state.pending.len(),
            if a.state.due is Roll {
                1int
            } else {
                0int
            },
{
    if !(a.state.due is Nothing) {
        law_commit_makes_progress(a.state);
        law_commit_step_keeps_the_log(a, created_a);
        lemma_step_alike(a, b, created_a, created_b);
        lemma_commit_alike(
            commit_stepped(a, created_a),
            commit_stepped(b, created_b),
            created_a,
            created_b,
        );
    }
}

/// Two logs to which the same records are committed stay alike, however the records are
/// grouped and whenever their segments are created: they have the same durable LSN, the
/// same segments and the same files but for the times of creation, and replay the same.
pub proof fn law_logs_with_the_same_records_are_alike(
    a: World,
    b: World,
    groups_a: Seq<Seq<Seq<u8>>>,
    groups_b: Seq<Seq<Seq<u8>>>,
    created_a: spec_fn(u64) -> u64,
    created_b: spec_fn(u64) -> u64,
    from: u64,
)
    requires
        settled_with_room(a, flat(groups_a).len() as int),
        b.sound(),
        alike(a, b),
        flat(groups_a) == flat(groups_b),
        bounded(flat(groups_a), a.state.max),
    ensures
        ({
            let x = committed_in(a, groups_a, created_a);
            let y = committed_in(b, groups_b, created_b);
            &&& alike(x, y)
            &&& x.sound() && y.sound()
            &&& replay(x.disk, reader_at(x.state, from)) == replay(
                y.disk,
                reader_at(y.state, from),
            )
        }),
{
    let all = flat(groups_a);
    let x = committed_in(a, groups_a, created_a);
    let y = committed_in(b, groups_b, created_b);
    law_grouping_of_commits_does_not_matter(a, groups_a, created_a);
    law_grouping_of_commits_does_not_matter(b, groups_b, created_b);
    lemma_appended_is_sound(a, all);
    lemma_commit_alike(
        World { state: planned(appended(a, all).state), ..a },
        World { state: planned(appended(b, all).state), ..b },
        created_a,
        created_b,
    );
    lemma_committed(a, all, created_a, all.len() as int);
    lemma_committed(b, all, created_b, all.len() as int);
    law_replay_reads_back(x.disk, x.state, x.parts, from);
    law_replay_reads_back(y.disk, y.state, y.parts, from);
}

/// A new log, whose first segment was created at `created`.
pub open spec fn new_log(created: u64, config: WalConfig) -> World {
    World {
        disk: map![1u64 => fresh(1, created, config.segment_size as int)],
        state: started(cold(), config),
        parts: seq![Seq::empty()],
    }
}

/// New logs are alike, and ready for records.
pub proof fn law_new_logs_are_alike(a: u64, b: u64, config: WalConfig)
    requires
        config.valid(),
    ensures
        alike(new_log(a, config), new_log(b, config)),
        settled_with_room(new_log(a, config), u64::MAX - 1),
{
    law_cold_start_is_stored(a, config);
    let (x, y) = (new_log(a, config), new_log(b, config));
    lemma_fresh_alike(1, a, b, config.segment_size as int);
    assert(x.disk.dom() =~= y.disk.dom());
    assert forall|base: u64| x.disk.contains_key(base) implies same_but_for_time(
        x.disk[base],
        #[trigger] y.disk[base],
    ) by {
        assert(base == 1);
    }
}

} // verus!
