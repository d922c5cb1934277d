//! Where the dot entries of every directory point once the tree was walked.

use vstd::prelude::*;

use crate::advance::{
    lemma_advanced_below, lemma_dir_advances, lemma_path_kept, lemma_run_at_end, lemma_scan_advances,
    lemma_tree_advances, lemma_visit_outcome, one_fate, scan_outcome,
};
use crate::again::no_end;
use crate::counts::{lemma_dir_counts, lemma_scan_counts, lemma_tree_counts, lemma_visit_counts};
use crate::dir::{dir_start, place_after, place_at, starts_directory, Cursor, Place};
use crate::dir_laws::in_front_of_end;
use crate::dirent::{cluster_field, dot_name, first_cluster, is_deleted, is_end, is_lfn, short_name};
use crate::fat::{marked, raw_entry};
use crate::fs::FsState;
use crate::geometry::Geometry;
use crate::kept::cluster_kept;
use crate::laws::{before, lemma_before, lemma_phases, opening, ready};
use crate::meaning::law_kinds_of_entries;
use crate::mode::RepairMode;
use crate::model::Vol;
use crate::owned::{
    is_slot, lemma_on_path, lemma_path_after, lemma_path_at, lemma_position, lemma_whole_kept, none_marked, on_path,
    owned, slot,
};
use crate::phases::lemma_walk_kept;
use crate::repair::{fat_checked, repaired, tree_checked};
use crate::repeat_laws::{lemma_only_root, lemma_root_claimed, root_chain};
use crate::scratch::DirFrame;
use crate::sound::leads_down;
use crate::stats::RepairStats;
use crate::visits::{
    advanced, fit_name, head, head_settled, is_short, lemma_head, lemma_visit_settles, names_fit, no_new_dirs, run_base,
    run_in, same_slots, thorough, visit_settled,
};
use crate::walk::{
    dir_entered, dir_scanned, dir_skipped, entry_visited, frame_ok, lemma_dir_scanned_advances,
    lemma_scanned_from_advances, no_run, root_frame, scanned_from, tree_walked, DirStep, LfnRun, Visit,
};
verus! {

/// Whether the entry at `p` of the directory of `frame` is no dot entry that points elsewhere than home, and leads to
/// no directory: `.` has to point at the directory itself, `..` at the one above.
pub open spec fn slot_at_home(g: Geometry, img: Seq<u8>, path: Seq<u32>, frame: DirFrame, p: int) -> bool {
    let e = slot(g, img, path, p);
    &&& is_short(e) && dot_name(short_name(e)) ==> cluster_field(e) == if e[1] == 46 {
        frame.parent
    } else {
        frame.cluster
    }
    &&& leads_down(e) ==> !starts_directory(img, g, first_cluster(e)->0)
}

/// What a visit leaves of an entry that does not lead down.
proof fn lemma_visited_home(
    g: Geometry,
    frame: DirFrame,
    path: Seq<u32>,
    pos: u32,
    lfn: LfnRun,
    a: Seq<u8>,
    b: Seq<u8>,
    rest: LfnRun,
    q: Seq<u32>,
    c: Seq<u8>,
)
    requires
        g.wf(a.len()),
        a.len() == b.len(),
        a.len() == c.len(),
        forall|i: int| 0 <= i < path.len() ==> #[trigger] g.valid_cluster(path[i]),
        is_slot(g, path, pos as int),
        run_base(lfn, pos as int) <= pos,
        visit_settled(g, frame, path, pos, lfn, a, b, Visit::Next(rest), q),
        no_new_dirs(g, a, c),
        slot(g, c, path, pos as int) == slot(g, b, path, pos as int),
    ensures
        slot_at_home(g, c, path, frame, pos as int),
{
    let e = slot(g, a, path, pos as int);
    let now = slot(g, b, path, pos as int);
    lemma_position(g, a.len(), path, pos as int);
    if is_short(now) {
        if is_end(e) || is_deleted(e) || is_lfn(e) {
            assert(now == e);
        } else {
            assert(head_settled(e, now));
            assert(now[11] == e[11]);
            law_kinds_of_entries(e);
            law_kinds_of_entries(now);
            if dot_name(short_name(e)) {
                assert(head(now) == head(e));
                lemma_head(now, e);
            } else {
                assert(!dot_name(short_name(now))) by {
                    if head(now) == head(e) {
                        lemma_head(now, e);
                    }
                }
            }
        }
    }
}

/// Where a scan stops at an entry that leads down: in front of that entry, or behind the directory.
pub open spec fn passed_up_to(step: DirStep) -> int {
    match step {
        DirStep::Done => 0x1_0000_0000,
        DirStep::Descend { cluster, resume } => resume - 32,
    }
}

/// What a scan from `lo` on leaves: every entry it has passed is at home, and the one it stopped for leads to where it
/// says.
pub open spec fn scan_at_home(
    g: Geometry,
    img: Seq<u8>,
    path: Seq<u32>,
    frame: DirFrame,
    lo: int,
    step: DirStep,
) -> bool {
    &&& forall|p: int|
        lo <= p < passed_up_to(step) && #[trigger] in_front_of_end(g, img, path, lo, p) ==> slot_at_home(
            g,
            img,
            path,
            frame,
            p,
        )
    &&& step matches DirStep::Descend { cluster, resume } ==> {
        let e = slot(g, img, path, resume - 32);
        &&& lo <= resume - 32
        &&& is_slot(g, path, resume - 32)
        &&& is_short(e) && !dot_name(short_name(e))
        &&& first_cluster(e) == Some(cluster)
    }
}

/// A scan leaves what it has passed at home.
#[verifier::spinoff_prover]
#[verifier::rlimit(40)]
proof fn lemma_scan_at_home(
    g: Geometry,
    mode: RepairMode,
    v: Vol,
    path: Seq<u32>,
    cur: Cursor,
    frame: DirFrame,
    lfn: LfnRun,
)
    requires
        g.wf(v.img.len()),
        thorough(mode),
        owned(g, v.img, path),
        path[0] == dir_start(g, frame.cluster),
        on_path(g, path, cur),
        run_in(g, v.img, path, lfn, cur.pos as int),
        scanned_from(g, v, frame, cur, lfn, mode).1 is Ok,
        names_fit(g, v.stats, scanned_from(g, v, frame, cur, lfn, mode).0.stats),
    ensures
        ({
            let (b, res) = scanned_from(g, v, frame, cur, lfn, mode);
            scan_at_home(g, b.img, path, frame, cur.pos as int, res->Ok_0)
        }),
    decreases u32::MAX - cur.pos,
{
    let at = cur.pos as int;
    let (mid, visited) = entry_visited(g, v, frame, cur, lfn, mode);
    let (b, res) = scanned_from(g, v, frame, cur, lfn, mode);
    lemma_visit_counts(g, v, frame, cur, lfn, mode);
    if let Ok(Visit::Next(rest)) = visited {
        if let Place::At(next) = place_after(mid.img, g, cur) {
            lemma_scan_counts(g, mid, frame, next, rest, mode);
        }
    }
    let q = lemma_visit_settles(g, mode, v, path, cur, frame, lfn);
    let visit = visited->Ok_0;
    lemma_on_path(g, v.img.len(), path, cur);
    lemma_position(g, v.img.len(), path, at);
    lemma_path_after(g, mid.img, path, cur);
    lemma_visit_outcome(g, frame, path, cur, lfn, v.img, mid.img, visit, q);
    lemma_scan_advances(g, mode, v, path, cur, frame, lfn);
    reveal(scan_outcome);
    assert(no_new_dirs(g, v.img, b.img));
    match visit {
        Visit::Finish => {
            assert(is_end(slot(g, b.img, path, at)));
            assert forall|p: int|
                at <= p && #[trigger] in_front_of_end(g, b.img, path, at, p) implies slot_at_home(
                g,
                b.img,
                path,
                frame,
                p,
            ) by {
                assert(!is_end(slot(g, b.img, path, at)));
            }
        },
        Visit::Descend(c) => {
            lemma_stopped_for(g, frame, path, cur.pos, lfn, v.img, mid.img, c, q);
        },
        Visit::Next(rest) => {
            match place_after(mid.img, g, cur) {
                Place::At(next) => {
                    lemma_scan_at_home(g, mode, mid, path, next, frame, rest);
                    lemma_scan_advances(g, mode, mid, path, next, frame, rest);
                    lemma_scanned_from_advances(g, mid, frame, next, rest, mode);
                    let x = slot(g, b.img, path, at);
                    if rest.start is None {
                        assert(same_slots(g, mid.img, b.img, path, 0, at + 32));
                        assert(x == slot(g, mid.img, path, at));
                        lemma_visited_home(g, frame, path, cur.pos, lfn, v.img, mid.img, rest, q, b.img);
                    } else {
                        assert(one_fate(g, mid.img, b.img, path, run_base(rest, at + 32), at + 32));
                        assert(is_lfn(slot(g, mid.img, path, at)));
                        assert(!is_short(x));
                    }
                    assert forall|p: int|
                        at <= p < passed_up_to(res->Ok_0) && #[trigger] in_front_of_end(
                            g,
                            b.img,
                            path,
                            at,
                            p,
                        ) implies slot_at_home(g, b.img, path, frame, p) by {
                        if p > at {
                            assert(p >= at + 32);
                            assert(in_front_of_end(g, b.img, path, at + 32, p));
                        }
                    }
                },
                Place::End => {
                    if let Some(start) = rest.start {
                        lemma_run_at_end(g, mode, mid, path, cur, frame, rest, start);
                        assert(is_deleted(slot(g, b.img, path, at)));
                    } else {
                        lemma_visited_home(g, frame, path, cur.pos, lfn, v.img, mid.img, rest, q, b.img);
                    }
                    assert forall|p: int|
                        at <= p && #[trigger] in_front_of_end(g, b.img, path, at, p) implies slot_at_home(
                        g,
                        b.img,
                        path,
                        frame,
                        p,
                    ) by {
                        assert(p < at + 32);
                        assert(p == at);
                    }
                },
                _ => {},
            }
        },
    }
}

/// The entry that a scan stops for.
proof fn lemma_stopped_for(
    g: Geometry,
    frame: DirFrame,
    path: Seq<u32>,
    pos: u32,
    lfn: LfnRun,
    a: Seq<u8>,
    b: Seq<u8>,
    c: u32,
    q: Seq<u32>,
)
    requires
        g.wf(a.len()),
        a.len() == b.len(),
        forall|i: int| 0 <= i < path.len() ==> #[trigger] g.valid_cluster(path[i]),
        is_slot(g, path, pos as int),
        visit_settled(g, frame, path, pos, lfn, a, b, Visit::Descend(c), q),
    ensures
        ({
            let now = slot(g, b, path, pos as int);
            &&& is_short(now) && !dot_name(short_name(now))
            &&& first_cluster(now) == Some(c)
        }),
{
    let e = slot(g, a, path, pos as int);
    let now = slot(g, b, path, pos as int);
    lemma_position(g, a.len(), path, pos as int);
    assert(head_settled(e, now));
    law_kinds_of_entries(e);
    law_kinds_of_entries(now);
    assert(now[0] == head(now)[0] && e[0] == head(e)[0]);
    assert(now[0] == short_name(now)[0]);
    if head(now) == head(e) {
        lemma_head(now, e);
    }
}

/// Whether `q` is the chain of the directory at `c`, and was not claimed yet in `z`.
pub open spec fn lies_at(g: Geometry, img: Seq<u8>, z: Seq<u8>, c: u32, q: Seq<u32>) -> bool {
    &&& owned(g, img, q)
    &&& q[0] == c
    &&& none_marked(g, z, q)
}

/// Whether, in the directory `own` below the directory `up`, which is along `path`, from `lo` on, and in the
/// directories below it, as far as `room` levels go, every dot entry points home: `.` at the directory that it is in,
/// which is where the chain of that directory starts, and `..` at the one above, in which the directory has its entry.
/// 0 stands for the root. None of the directories below was claimed in `z`.
pub open spec fn tree_at_home(
    g: Geometry,
    img: Seq<u8>,
    path: Seq<u32>,
    own: u32,
    up: u32,
    lo: int,
    room: nat,
    z: Seq<u8>,
) -> bool
    decreases room,
{
    forall|p: int|
        lo <= p < 0x1_0000_0000 && #[trigger] in_front_of_end(g, img, path, lo, p) ==> {
            let e = slot(g, img, path, p);
            let c = first_cluster(e)->0;
            &&& is_short(e) && dot_name(short_name(e)) ==> cluster_field(e) == if e[1] == 46 {
                up
            } else {
                own
            }
            &&& leads_down(e) && g.valid_cluster(c) && starts_directory(img, g, c) && room > 0 ==> exists|q: Seq<u32>|
                #[trigger] lies_at(g, img, z, c, q) && tree_at_home(
                    g,
                    img,
                    q,
                    c,
                    own,
                    0,
                    (room - 1) as nat,
                    z,
                )
        }
}

/// What was claimed between `z` and `a` is the same in `b`, and nothing starts to be a directory.
pub open spec fn claims_stay(g: Geometry, z: Seq<u8>, a: Seq<u8>, b: Seq<u8>) -> bool {
    &&& a.len() == b.len()
    &&& forall|c: u32|
        g.valid_cluster(c) && marked(raw_entry(a, g, c)) && !marked(raw_entry(z, g, c)) ==> #[trigger] raw_entry(
            b,
            g,
            c,
        ) == raw_entry(a, g, c)
    &&& forall|c: u32|
        g.valid_cluster(c) && marked(raw_entry(a, g, c)) && !marked(raw_entry(z, g, c))
            ==> #[trigger] cluster_kept(g, a, b, c)
    &&& no_new_dirs(g, a, b)
}

/// A directory that was claimed between `z` and `a` is the same in `b`.
proof fn lemma_directory_stays(g: Geometry, z: Seq<u8>, a: Seq<u8>, b: Seq<u8>, q: Seq<u32>)
    requires
        g.wf(a.len()),
        claims_stay(g, z, a, b),
        owned(g, a, q),
        none_marked(g, z, q),
    ensures
        owned(g, b, q),
        same_slots(g, a, b, q, 0, no_end()),
{
    assert forall|i: int| 0 <= i < q.len() implies g.valid_cluster(#[trigger] q[i]) && raw_entry(b, g, q[i])
        == raw_entry(a, g, q[i]) && cluster_kept(g, a, b, q[i]) by {
        assert(g.valid_cluster(q[i]));
        assert(marked(raw_entry(a, g, q[i])));
        assert(!marked(raw_entry(z, g, q[i])));
    }
    lemma_whole_kept(g, a, b, q);
    lemma_path_kept(g, a, b, q, 0, no_end());
}

/// What is at home stays there, where the directories stay, and whatever `early` has claimed `z` has too.
#[verifier::spinoff_prover]
#[verifier::rlimit(30)]
proof fn lemma_stays_at_home(
    g: Geometry,
    early: Seq<u8>,
    z: Seq<u8>,
    a: Seq<u8>,
    b: Seq<u8>,
    path: Seq<u32>,
    own: u32,
    up: u32,
    lo: int,
    room: nat,
)
    requires
        g.wf(a.len()),
        claims_stay(g, z, a, b),
        0 <= lo,
        same_slots(g, a, b, path, 0, no_end()),
        tree_at_home(g, a, path, own, up, lo, room, z),
        forall|c: u32| g.valid_cluster(c) && marked(#[trigger] raw_entry(early, g, c)) ==> marked(
            raw_entry(z, g, c),
        ),
    ensures
        tree_at_home(g, b, path, own, up, lo, room, early),
    decreases room,
{
    assert forall|p: int|
        lo <= p < 0x1_0000_0000 && #[trigger] in_front_of_end(g, b, path, lo, p) implies ({
        let e = slot(g, b, path, p);
        let c = first_cluster(e)->0;
        &&& is_short(e) && dot_name(short_name(e)) ==> cluster_field(e) == if e[1] == 46 {
            up
        } else {
            own
        }
        &&& leads_down(e) && g.valid_cluster(c) && starts_directory(b, g, c) && room > 0 ==> exists|
            q: Seq<u32>,
        | #[trigger]
            lies_at(g, b, early, c, q) && tree_at_home(g, b, q, c, own, 0, (room - 1) as nat, early)
    }) by {
        let e = slot(g, b, path, p);
        let c = first_cluster(e)->0;
        assert(in_front_of_end(g, a, path, lo, p)) by {
            assert forall|r: int| is_slot(g, path, r) && lo <= r <= p implies !is_end(
                #[trigger] slot(g, a, path, r),
            ) by {
                assert(slot(g, b, path, r) == slot(g, a, path, r));
            }
        }
        assert(e == slot(g, a, path, p));
        if leads_down(e) && g.valid_cluster(c) && starts_directory(b, g, c) && room > 0 {
            let q = choose|q: Seq<u32>| #[trigger]
                lies_at(g, a, z, c, q) && tree_at_home(g, a, q, c, own, 0, (room - 1) as nat, z);
            lemma_directory_stays(g, z, a, b, q);
            lemma_stays_at_home(g, early, z, a, b, q, c, own, 0, (room - 1) as nat);
            assert(lies_at(g, b, early, c, q));
        }
    }
}

/// Whether every name that was given fits, split over two stretches of a run.
proof fn lemma_names_split(g: Geometry, a: RepairStats, b: RepairStats, c: RepairStats)
    requires
        names_fit(g, a, c),
        a.entries_recovered <= b.entries_recovered <= c.entries_recovered,
    ensures
        names_fit(g, a, b),
        names_fit(g, b, c),
{
}

/// What a scan leaves stays at home while the rest of the walk goes on.
proof fn lemma_front_at_home(
    g: Geometry,
    z: Seq<u8>,
    one: Seq<u8>,
    b: Seq<u8>,
    path: Seq<u32>,
    frame: DirFrame,
    lo: int,
    cluster: u32,
    resume: u32,
    room: nat,
    q: Seq<u32>,
)
    requires
        scan_at_home(g, one, path, frame, lo, DirStep::Descend { cluster, resume }),
        0 <= lo,
        same_slots(g, one, b, path, 0, resume as int),
        no_new_dirs(g, one, b),
        tree_at_home(g, b, path, frame.cluster, frame.parent, resume as int, room, z),
        room > 0 ==> lies_at(g, b, z, cluster, q) && tree_at_home(
            g,
            b,
            q,
            cluster,
            frame.cluster,
            0,
            (room - 1) as nat,
            z,
        ),
    ensures
        tree_at_home(g, b, path, frame.cluster, frame.parent, lo, room, z),
{
    assert forall|p: int|
        lo <= p < 0x1_0000_0000 && #[trigger] in_front_of_end(g, b, path, lo, p) implies ({
        let e = slot(g, b, path, p);
        let c = first_cluster(e)->0;
        &&& is_short(e) && dot_name(short_name(e)) ==> cluster_field(e) == if e[1] == 46 {
            frame.parent
        } else {
            frame.cluster
        }
        &&& leads_down(e) && g.valid_cluster(c) && starts_directory(b, g, c) && room > 0 ==> exists|
            r: Seq<u32>,
        | #[trigger]
            lies_at(g, b, z, c, r) && tree_at_home(g, b, r, c, frame.cluster, 0, (room - 1) as nat, z)
    }) by {
        let e = slot(g, b, path, p);
        if p >= resume {
            assert(in_front_of_end(g, b, path, resume as int, p));
        } else {
            assert(e == slot(g, one, path, p));
            if p == resume - 32 {
                assert(first_cluster(e) == Some(cluster));
            } else {
                assert(p < resume - 32) by {
                    assert(is_slot(g, path, resume - 32));
                }
                assert(in_front_of_end(g, one, path, lo, p)) by {
                    assert forall|r: int| is_slot(g, path, r) && lo <= r <= p implies !is_end(
                        #[trigger] slot(g, one, path, r),
                    ) by {
                        assert(slot(g, b, path, r) == slot(g, one, path, r));
                    }
                }
                assert(slot_at_home(g, one, path, frame, p));
            }
        }
    }
}

/// Once a directory was walked, with everything below it, every dot entry points home: in the directory from where the
/// walk began, and in those below it.
#[verifier::spinoff_prover]
#[verifier::rlimit(40)]
pub proof fn law_dot_entries_point_home(
    g: Geometry,
    mode: RepairMode,
    v: Vol,
    path: Seq<u32>,
    frame: DirFrame,
    room: nat,
)
    requires
        g.wf(v.img.len()),
        thorough(mode),
        owned(g, v.img, path),
        path[0] == dir_start(g, frame.cluster),
        frame_ok(g, frame),
        tree_walked(g, v, frame, room, mode).1 is Ok,
        names_fit(g, v.stats, tree_walked(g, v, frame, room, mode).0.stats),
    ensures
        tree_at_home(
            g,
            tree_walked(g, v, frame, room, mode).0.img,
            path,
            frame.cluster,
            frame.parent,
            frame.resume as int,
            room,
            v.img,
        ),
    decreases room, u32::MAX - frame.resume,
{
    let entered = dir_entered(v, frame);
    let (one, res) = dir_scanned(g, entered, frame, mode);
    let b = tree_walked(g, v, frame, room, mode).0;
    let lo = frame.resume as int;
    lemma_dir_counts(g, entered, frame, mode);
    lemma_dir_scanned_advances(g, entered, frame, mode);
    lemma_path_at(g, v.img, path, frame.resume);
    if let Ok(DirStep::Descend { cluster, resume }) = res {
        let rest = DirFrame { resume, ..frame };
        if room == 0 {
            let skipped = dir_skipped(one);
            lemma_tree_counts(g, skipped, rest, room, mode);
            lemma_names_split(g, v.stats, one.stats, b.stats);
            if let Place::At(cur) = place_at(v.img, g, path[0], frame.resume) {
                lemma_scan_at_home(g, mode, entered, path, cur, frame, no_run());
            }
            lemma_dir_advances(g, mode, entered, path, frame);
            law_dot_entries_point_home(g, mode, skipped, path, rest, room);
            lemma_tree_advances(g, mode, skipped, path, rest, room);
            lemma_no_room(g, b.img, path, frame, resume as int, one.img, v.img);
            lemma_front_at_home(
                g,
                v.img,
                one.img,
                b.img,
                path,
                frame,
                lo,
                cluster,
                resume,
                room,
                Seq::empty(),
            );
        } else {
            let child = DirFrame { cluster, parent: frame.cluster, resume: 0 };
            let below = tree_walked(g, one, child, (room - 1) as nat, mode).0;
            lemma_tree_counts(g, one, child, (room - 1) as nat, mode);
            lemma_tree_counts(g, below, rest, room, mode);
            lemma_names_split(g, v.stats, one.stats, b.stats);
            lemma_names_split(g, one.stats, below.stats, b.stats);
            if let Place::At(cur) = place_at(v.img, g, path[0], frame.resume) {
                lemma_scan_at_home(g, mode, entered, path, cur, frame, no_run());
            }
            let q = lemma_dir_advances(g, mode, entered, path, frame);
            assert(g.valid_cluster(q[0]));
            law_dot_entries_point_home(g, mode, one, q, child, (room - 1) as nat);
            lemma_tree_advances(g, mode, one, q, child, (room - 1) as nat);
            lemma_advanced_below(g, path, q, lo, v.img, one.img, below.img);
            law_dot_entries_point_home(g, mode, below, path, rest, room);
            lemma_tree_advances(g, mode, below, path, rest, room);
            lemma_walk_goes_home(
                g,
                v.img,
                one.img,
                below.img,
                b.img,
                path,
                q,
                frame,
                lo,
                cluster,
                resume,
                room,
            );
        }
    } else {
        if let Place::At(cur) = place_at(v.img, g, path[0], frame.resume) {
            lemma_scan_at_home(g, mode, entered, path, cur, frame, no_run());
        }
        assert forall|p: int|
            lo <= p < 0x1_0000_0000 && #[trigger] in_front_of_end(g, b.img, path, lo, p) implies slot_at_home(
            g,
            b.img,
            path,
            frame,
            p,
        ) by {}
        lemma_done_at_home(g, b.img, path, frame, lo, room, v.img);
    }
}

/// A directory that leads nowhere is at home as far as its own entries are.
proof fn lemma_done_at_home(
    g: Geometry,
    img: Seq<u8>,
    path: Seq<u32>,
    frame: DirFrame,
    lo: int,
    room: nat,
    z: Seq<u8>,
)
    requires
        forall|p: int|
            lo <= p < 0x1_0000_0000 && #[trigger] in_front_of_end(g, img, path, lo, p) ==> slot_at_home(
                g,
                img,
                path,
                frame,
                p,
            ),
    ensures
        tree_at_home(g, img, path, frame.cluster, frame.parent, lo, room, z),
{
}

/// With no level left, it does not matter what was claimed before.
proof fn lemma_no_room(
    g: Geometry,
    img: Seq<u8>,
    path: Seq<u32>,
    frame: DirFrame,
    lo: int,
    z: Seq<u8>,
    early: Seq<u8>,
)
    requires
        tree_at_home(g, img, path, frame.cluster, frame.parent, lo, 0, z),
    ensures
        tree_at_home(g, img, path, frame.cluster, frame.parent, lo, 0, early),
{
}

/// What the three parts of a walk add up to: the scan up to an entry that leads down, the walk of the directory there,
/// and the rest.
#[verifier::spinoff_prover]
#[verifier::rlimit(40)]
proof fn lemma_walk_goes_home(
    g: Geometry,
    z: Seq<u8>,
    one: Seq<u8>,
    below: Seq<u8>,
    b: Seq<u8>,
    path: Seq<u32>,
    q: Seq<u32>,
    frame: DirFrame,
    lo: int,
    cluster: u32,
    resume: u32,
    room: nat,
)
    requires
        g.wf(z.len()),
        room > 0,
        0 <= lo,
        owned(g, z, path),
        advanced(g, path, lo, z, one),
        owned(g, one, path),
        owned(g, one, q),
        q[0] == cluster,
        none_marked(g, z, q),
        advanced(g, q, 0, one, below),
        owned(g, below, q),
        forall|i: int| 0 <= i < path.len() ==> cluster_kept(g, one, below, #[trigger] path[i]),
        owned(g, below, path),
        advanced(g, path, resume as int, below, b),
        scan_at_home(g, one, path, frame, lo, DirStep::Descend { cluster, resume }),
        tree_at_home(g, below, q, cluster, frame.cluster, 0, (room - 1) as nat, one),
        tree_at_home(g, b, path, frame.cluster, frame.parent, resume as int, room, below),
    ensures
        tree_at_home(g, b, path, frame.cluster, frame.parent, lo, room, z),
{
    // The directory below stays as it was left.
    assert(claims_stay(g, one, below, b)) by {
        assert forall|c: u32|
            g.valid_cluster(c) && marked(raw_entry(below, g, c)) && !marked(
                raw_entry(one, g, c),
            ) implies #[trigger] cluster_kept(g, below, b, c) by {
            if path.contains(c) {
                let i = choose|i: int| 0 <= i < path.len() && path[i] == c;
                assert(marked(raw_entry(one, g, path[i])));
            }
        }
    }
    assert forall|c: u32| g.valid_cluster(c) && marked(#[trigger] raw_entry(z, g, c)) implies marked(
        raw_entry(one, g, c),
    ) && marked(raw_entry(below, g, c)) by {
        assert(raw_entry(one, g, c) == raw_entry(z, g, c));
        assert(raw_entry(below, g, c) == raw_entry(one, g, c));
    }
    lemma_child_stays(g, z, one, below, b, path, q, resume as int);
    lemma_stays_at_home(
        g,
        z,
        one,
        below,
        b,
        q,
        cluster,
        frame.cluster,
        0,
        (room - 1) as nat,
    );
    assert(claims_stay(g, below, b, b)) by {
        assert forall|c: u32| g.valid_cluster(c) implies #[trigger] cluster_kept(g, b, b, c) by {}
    }
    lemma_stays_at_home(
        g,
        z,
        below,
        b,
        b,
        path,
        frame.cluster,
        frame.parent,
        resume as int,
        room,
    );
    assert(same_slots(g, one, b, path, 0, resume as int)) by {
        assert forall|i: int| 0 <= i < path.len() implies g.valid_cluster(#[trigger] path[i]) && cluster_kept(
            g,
            one,
            below,
            path[i],
        ) by {
            assert(g.valid_cluster(path[i]));
        }
        lemma_path_kept(g, one, below, path, 0, resume as int);
    }
    lemma_front_at_home(g, z, one, b, path, frame, lo, cluster, resume, room, q);
}

/// The directory below, while the rest of the one above it is walked.
proof fn lemma_child_stays(
    g: Geometry,
    z: Seq<u8>,
    one: Seq<u8>,
    below: Seq<u8>,
    b: Seq<u8>,
    path: Seq<u32>,
    q: Seq<u32>,
    resume: int,
)
    requires
        g.wf(z.len()),
        z.len() == one.len(),
        one.len() == below.len(),
        owned(g, z, path),
        none_marked(g, z, q),
        owned(g, below, q),
        advanced(g, path, resume, below, b),
    ensures
        owned(g, b, q),
        same_slots(g, below, b, q, 0, no_end()),
{
    assert forall|i: int| 0 <= i < q.len() implies g.valid_cluster(#[trigger] q[i]) && raw_entry(b, g, q[i])
        == raw_entry(below, g, q[i]) && cluster_kept(g, below, b, q[i]) by {
        assert(g.valid_cluster(q[i]));
        assert(marked(raw_entry(below, g, q[i])));
        if path.contains(q[i]) {
            let j = choose|j: int| 0 <= j < path.len() && path[j] == q[i];
            assert(marked(raw_entry(z, g, path[j])));
            assert(!marked(raw_entry(z, g, q[i])));
        }
    }
    lemma_whole_kept(g, below, b, q);
    lemma_path_kept(g, below, b, q, 0, no_end());
}

/// After a run that marks, and repairs all that its walk finds, every dot entry of every directory that it went through
/// points home, in the root, where it is 0, and everywhere below. What comes after the walk does not write to
/// directories any more. The names that were given, if any, are fit to be names.
pub proof fn law_repaired_dot_entries(g: Geometry, s: FsState, mode: RepairMode, room: nat)
    requires
        ready(g, s),
        room > 0,
        thorough(mode),
        root_chain(g, before(g, s)).len() > 0,
        repaired(g, s, mode, room).1 matches Ok(stats) && (fit_name(g.volume_label@)
            || stats.entries_recovered == 0),
    ensures
        ({
            let v = opening(g, s, mode);
            let walked = tree_checked(g, v, mode, room).0;
            let t = repaired(g, s, mode, room).0;
            &&& tree_at_home(
                g,
                walked.img,
                root_chain(g, before(g, s)),
                0,
                0,
                0,
                (room - 1) as nat,
                fat_checked(g, v, mode).img,
            )
            &&& forall|i: int| g.fats_end() <= i < s.img.len() ==> #[trigger] t.img[i] == walked.img[i]
        }),
{
    let v = opening(g, s, mode);
    let claimed = fat_checked(g, v, mode);
    let path = root_chain(g, v.img);
    let depth = (room - 1) as nat;
    lemma_before(g, s);
    lemma_phases(g, s, mode, room);
    lemma_only_root(g, v, mode, room);
    lemma_root_claimed(g, v, mode);
    lemma_tree_counts(g, claimed, root_frame(), depth, mode);
    lemma_walk_kept(g, mode, v, room);
    law_dot_entries_point_home(g, mode, claimed, path, root_frame(), depth);
}

} // verus!
