//! The second of two walks of the same tree.

use vstd::prelude::*;

use crate::advance::{
    lemma_advanced_below, lemma_dir_advances, lemma_fate_stays, lemma_path_kept, lemma_paths_disjoint, lemma_run_at_end,
    lemma_scan_advances, lemma_tree_advances, lemma_visit_outcome, one_fate, scan_outcome, step_outcome, visit_outcome,
};
use crate::again::{
    left_behind, lemma_visit_again, lemma_whole_again, no_end, replays, run_again, settled_up_to, silent, values_kept,
    visit_repeats,
};
use crate::counts::{lemma_dir_counts, lemma_scan_counts, lemma_tree_counts, lemma_visit_counts};
use crate::dir::{dir_start, place_after, place_at, starts_directory, Cursor, Place};
use crate::dirent::is_deleted;
use crate::error::Fault;
use crate::fat::{entry_of, marked, raw_entry, FatEntry};
use crate::geometry::Geometry;
use crate::kept::cluster_kept;
use crate::mode::RepairMode;
use crate::model::Vol;
use crate::owned::{
    is_slot, lemma_links, lemma_nth_of_chain, lemma_on_path, lemma_path_after, lemma_path_at, lemma_position,
    none_marked, on_path, owned, slot, whole_chain,
};
use crate::scratch::DirFrame;
use crate::visits::{
    advanced, entry_settled, holes_kept, lemma_start_kept, lemma_visit_settles, names_fit, no_new_dirs, run_in,
    same_slots, thorough, visit_bounded, visit_settled,
};
use crate::walk::{
    dir_ended, dir_entered, dir_scanned, dir_skipped, entry_visited, frame_ok, lemma_dir_scanned_advances,
    lemma_scanned_from_advances, no_run, scanned_from, tree_walked, DirStep, LfnRun, Visit,
};

verus! {

/// Up to where the entries of a directory are not touched any more once its scan has stopped.
pub open spec fn done_up_to(step: DirStep) -> int {
    match step {
        DirStep::Done => no_end(),
        DirStep::Descend { cluster, resume } => resume as int,
    }
}

/// What the first walk left behind in the end, `f`, next to what it had made of `a` some time before, `b`, when it had
/// done with the entries of `path` up to `lo`, and was to descend into the directory on `q`, if any.
pub open spec fn later(
    g: Geometry,
    a: Seq<u8>,
    b: Seq<u8>,
    f: Seq<u8>,
    path: Seq<u32>,
    lo: int,
    q: Seq<u32>,
) -> bool {
    &&& f.len() == b.len()
    &&& forall|c: u32|
        g.valid_cluster(c) && marked(raw_entry(b, g, c)) ==> #[trigger] raw_entry(f, g, c)
            == raw_entry(b, g, c)
    &&& forall|c: u32|
        g.valid_cluster(c) && marked(raw_entry(b, g, c)) && !marked(raw_entry(a, g, c))
            && !q.contains(c) ==> #[trigger] cluster_kept(g, b, f, c)
    &&& no_new_dirs(g, b, f)
    &&& holes_kept(g, b, f)
    &&& same_slots(g, b, f, path, 0, lo)
    &&& q.len() > 0 && starts_directory(b, g, q[0]) ==> starts_directory(f, g, q[0])
}

/// A chain is known by its first cluster.
proof fn lemma_chain_unique(g: Geometry, img: Seq<u8>, q: Seq<u32>, r: Seq<u32>, n: int)
    requires
        whole_chain(g, img, q),
        whole_chain(g, img, r),
        q[0] == r[0],
        0 <= n < q.len(),
    ensures
        n < r.len() && q[n] == r[n],
    decreases n,
{
    if n > 0 {
        lemma_chain_unique(g, img, q, r, n - 1);
        assert(entry_of(raw_entry(img, g, q[n - 1])) == FatEntry::Data(q[n - 1 + 1]));
        if n - 1 == r.len() - 1 {
            assert(r.last() == r[n - 1]);
        } else {
            assert(entry_of(raw_entry(img, g, r[n - 1])) == FatEntry::Data(r[n - 1 + 1]));
        }
    }
}

/// Where a scan stops decides what it has claimed for the directory to descend into.
proof fn lemma_step_unique(
    g: Geometry,
    a: Seq<u8>,
    mid: Seq<u8>,
    b: Seq<u8>,
    step: DirStep,
    q: Seq<u32>,
    r: Seq<u32>,
)
    requires
        step_outcome(g, a, b, step, q),
        step_outcome(g, mid, b, step, r),
    ensures
        q == r,
{
    if step is Descend {
        assert forall|n: int| 0 <= n < q.len() implies n < r.len() && q[n] == r[n] by {
            lemma_chain_unique(g, b, q, r, n);
        }
        assert forall|n: int| 0 <= n < r.len() implies n < q.len() && r[n] == q[n] by {
            lemma_chain_unique(g, b, r, q, n);
        }
        if r.len() > q.len() {
            lemma_chain_unique(g, b, r, q, q.len() as int);
        }
        if q.len() > r.len() {
            lemma_chain_unique(g, b, q, r, r.len() as int);
        }
    }
    assert(q =~= r);
}

/// A cluster that a visit claimed starts a directory in the end if it did so before.
proof fn lemma_claimed_start(
    g: Geometry,
    a: Seq<u8>,
    b: Seq<u8>,
    after: Seq<u8>,
    f: Seq<u8>,
    path: Seq<u32>,
    pos: u32,
    lfn: LfnRun,
    hi: int,
    lo: int,
    visited: Seq<u32>,
    q: Seq<u32>,
)
    requires
        g.wf(a.len()),
        owned(g, a, path),
        visit_bounded(g, path, pos, lfn, a, b, visited),
        visited.len() > 0,
        owned(g, b, visited),
        advanced(g, path, hi, b, after),
        none_marked(g, b, q),
        later(g, a, after, f, path, lo, q),
    ensures
        starts_directory(f, g, visited[0]) == starts_directory(a, g, visited[0]),
{
    let c = visited[0];
    lemma_paths_disjoint(g, a, path, visited);
    lemma_paths_disjoint(g, b, visited, q);
    assert(!path.contains(visited[0]));
    assert(!q.contains(visited[0]));
    assert(g.valid_cluster(visited[0]));
    assert(marked(raw_entry(b, g, visited[0])));
    assert(!marked(raw_entry(a, g, visited[0])));
    assert(raw_entry(after, g, c) == raw_entry(b, g, c));
    assert(cluster_kept(g, a, b, c));
    assert(cluster_kept(g, b, after, c));
    assert(cluster_kept(g, after, f, c));
    lemma_start_kept(g, a, b, c);
    lemma_start_kept(g, b, after, c);
    lemma_start_kept(g, after, f, c);
}

/// What is left behind of a visit that the scan goes on behind, or ends at.
proof fn lemma_left_behind(
    g: Geometry,
    a: Seq<u8>,
    b: Seq<u8>,
    after: Seq<u8>,
    f: Seq<u8>,
    path: Seq<u32>,
    pos: u32,
    lfn: LfnRun,
    frame: DirFrame,
    lo: int,
    visit: Visit,
    visited: Seq<u32>,
    q: Seq<u32>,
)
    requires
        g.wf(a.len()),
        owned(g, a, path),
        !(visit is Descend),
        visit_settled(g, frame, path, pos, lfn, a, b, visit, visited),
        visit_bounded(g, path, pos, lfn, a, b, visited),
        visit_outcome(g, path, pos, lfn, a, b, visit, visited),
        advanced(g, path, settled_up_to(visit, pos as int), b, after),
        one_fate(g, b, after, path, settled_up_to(visit, pos as int), pos + 32),
        none_marked(g, b, q),
        later(g, a, after, f, path, lo, q),
        pos + 32 <= lo,
    ensures
        left_behind(g, a, b, f, path, pos as int, visit, visited),
{
    let p = pos as int;
    let hi = settled_up_to(visit, p);
    assert(hi <= p + 32);
    assert(0 <= hi);
    assert forall|c: u32| g.valid_cluster(c) && marked(raw_entry(b, g, c)) implies #[trigger] raw_entry(
        f,
        g,
        c,
    ) == raw_entry(b, g, c) by {
        assert(raw_entry(after, g, c) == raw_entry(b, g, c));
    }
    assert forall|i: int| is_slot(g, path, i) && 0 <= i < hi implies #[trigger] slot(g, f, path, i)
        == slot(g, b, path, i) by {
        assert(slot(g, after, path, i) == slot(g, b, path, i));
    }
    assert(same_slots(g, after, f, path, hi, p + 32));
    lemma_fate_stays(g, path, hi, p + 32, b, after, f);
    if visited.len() > 0 {
        assert(owned(g, b, visited));
        lemma_claimed_start(g, a, b, after, f, path, pos, lfn, hi, lo, visited, q);
    }
}

/// What is left behind of a visit that leads to another directory.
proof fn lemma_left_descending(
    g: Geometry,
    a: Seq<u8>,
    b: Seq<u8>,
    f: Seq<u8>,
    path: Seq<u32>,
    pos: u32,
    lfn: LfnRun,
    frame: DirFrame,
    visit: Visit,
    q: Seq<u32>,
)
    requires
        visit is Descend,
        visit_settled(g, frame, path, pos, lfn, a, b, visit, q),
        visit_outcome(g, path, pos, lfn, a, b, visit, q),
        later(g, a, b, f, path, pos + 32, q),
    ensures
        left_behind(g, a, b, f, path, pos as int, visit, q),
{
    let now = slot(g, b, path, pos as int);
    assert(entry_settled(g, a, b, now, q, Some(visit->Descend_0)));
}

/// The second walk moves on along the same path.
proof fn lemma_place_after_again(
    g: Geometry,
    b: Seq<u8>,
    w: Seq<u8>,
    path: Seq<u32>,
    cur: Cursor,
)
    requires
        g.wf(b.len()),
        whole_chain(g, b, path),
        whole_chain(g, w, path),
        on_path(g, path, cur),
    ensures
        place_after(w, g, cur) == place_after(b, g, cur),
{
    lemma_on_path(g, b.len(), path, cur);
    lemma_position(g, b.len(), path, cur.pos as int);
    let i = cur.pos as int / g.cluster_size as int;
    lemma_links(g, b, path, i);
    lemma_links(g, w, path, i);
}

/// What a scan needs for the second walk to repeat it.
pub open spec fn scanned_twice(
    g: Geometry,
    mode: RepairMode,
    v: Vol,
    f: Seq<u8>,
    u: Vol,
    path: Seq<u32>,
    cur: Cursor,
    frame: DirFrame,
    lfn: LfnRun,
    lu: LfnRun,
    q: Seq<u32>,
) -> bool {
    let (b, res) = scanned_from(g, v, frame, cur, lfn, mode);
    &&& g.wf(v.img.len())
    &&& thorough(mode)
    &&& owned(g, v.img, path)
    &&& path[0] == dir_start(g, frame.cluster)
    &&& on_path(g, path, cur)
    &&& run_in(g, v.img, path, lfn, cur.pos as int)
    &&& names_fit(g, v.stats, b.stats)
    &&& res matches Ok(step) && step_outcome(g, v.img, b.img, step, q) && later(
        g,
        v.img,
        b.img,
        f,
        path,
        done_up_to(step),
        q,
    )
    &&& replays(g, v, f, u)
    &&& whole_chain(g, u.img, path)
    &&& same_slots(g, f, u.img, path, cur.pos as int, no_end())
    &&& run_again(g, f, path, lfn, lu, cur.pos as int)
}

/// What the same scan comes to in the second walk.
pub open spec fn scan_repeats(
    f: Seq<u8>,
    g: Geometry,
    path: Seq<u32>,
    first: (Vol, Result<DirStep, Fault>),
    u: Vol,
    second: (Vol, Result<DirStep, Fault>),
) -> bool {
    &&& silent(u.stats, second.0.stats)
    &&& values_kept(g, u.img, second.0.img)
    &&& replays(g, first.0, f, second.0)
    &&& first.1 is Ok
    &&& second.1 == first.1
    &&& same_slots(g, f, second.0.img, path, done_up_to(first.1->Ok_0), no_end())
}

/// What is known of the first visit of a scan that is repeated: the second walk repeats it.
proof fn lemma_first_visit_again(
    g: Geometry,
    mode: RepairMode,
    v: Vol,
    f: Seq<u8>,
    u: Vol,
    path: Seq<u32>,
    cur: Cursor,
    frame: DirFrame,
    lfn: LfnRun,
    lu: LfnRun,
    q: Seq<u32>,
)
    requires
        scanned_twice(g, mode, v, f, u, path, cur, frame, lfn, lu, q),
    ensures
        ({
            let (b, res) = entry_visited(g, v, frame, cur, lfn, mode);
            &&& res matches Ok(visit) && visit_repeats(
                g,
                mode,
                b,
                f,
                u,
                path,
                cur,
                frame,
                lu,
                visit,
            )
            &&& owned(g, b.img, path)
            &&& b.img.len() == v.img.len()
            &&& forall|c: u32|
                g.valid_cluster(c) && marked(raw_entry(b.img, g, c)) ==> #[trigger] raw_entry(f, g, c)
                    == raw_entry(b.img, g, c)
            &&& res matches Ok(Visit::Next(rest)) ==> {
                &&& run_in(g, b.img, path, rest, cur.pos + 32)
                &&& place_after(b.img, g, cur) matches Place::At(next) ==> {
                    let (c, step) = scanned_from(g, b, frame, next, rest, mode);
                    &&& on_path(g, path, next)
                    &&& next.pos == cur.pos + 32
                    &&& names_fit(g, b.stats, c.stats)
                    &&& step_outcome(g, b.img, c.img, step->Ok_0, q)
                    &&& later(g, b.img, c.img, f, path, done_up_to(step->Ok_0), q)
                }
            }
        }),
{
    let p = cur.pos as int;
    let (b, visited) = entry_visited(g, v, frame, cur, lfn, mode);
    let (after, res) = scanned_from(g, v, frame, cur, lfn, mode);
    let step = res->Ok_0;
    let lo = done_up_to(step);
    lemma_visit_counts(g, v, frame, cur, lfn, mode);
    if let Ok(Visit::Next(rest)) = visited {
        if let Place::At(next) = place_after(b.img, g, cur) {
            lemma_scan_counts(g, b, frame, next, rest, mode);
        }
    }
    let qv = lemma_visit_settles(g, mode, v, path, cur, frame, lfn);
    let visit = visited->Ok_0;
    lemma_visit_outcome(g, frame, path, cur, lfn, v.img, b.img, visit, qv);
    lemma_path_after(g, b.img, path, cur);
    match visit {
        Visit::Descend(_) => {
            lemma_step_unique(g, v.img, v.img, after.img, step, q, qv);
            lemma_left_descending(g, v.img, b.img, f, path, cur.pos, lfn, frame, visit, q);
        },
        Visit::Finish => {
            lemma_left_behind(
                g,
                v.img,
                b.img,
                b.img,
                f,
                path,
                cur.pos,
                lfn,
                frame,
                lo,
                visit,
                qv,
                q,
            );
        },
        Visit::Next(rest) => {
            match place_after(b.img, g, cur) {
                Place::At(next) => {
                    let qn = lemma_scan_advances(g, mode, b, path, next, frame, rest);
                    reveal(scan_outcome);
                    lemma_scanned_from_advances(g, b, frame, next, rest, mode);
                    lemma_step_unique(g, v.img, b.img, after.img, step, q, qn);
                    lemma_left_behind(
                        g,
                        v.img,
                        b.img,
                        after.img,
                        f,
                        path,
                        cur.pos,
                        lfn,
                        frame,
                        lo,
                        visit,
                        qv,
                        q,
                    );
                },
                _ => {
                    if let Some(start) = rest.start {
                        lemma_run_at_end(g, mode, b, path, cur, frame, rest, start);
                    }
                    lemma_left_behind(
                        g,
                        v.img,
                        b.img,
                        after.img,
                        f,
                        path,
                        cur.pos,
                        lfn,
                        frame,
                        lo,
                        visit,
                        qv,
                        q,
                    );
                },
            }
        },
    }
    lemma_visit_again(g, mode, v, b, f, u, path, cur, frame, lfn, lu, visit, qv);
}

/// The second walk repeats a scan of the first one, and finds nothing wrong.
proof fn lemma_scan_again(
    g: Geometry,
    mode: RepairMode,
    v: Vol,
    f: Seq<u8>,
    u: Vol,
    path: Seq<u32>,
    cur: Cursor,
    frame: DirFrame,
    lfn: LfnRun,
    lu: LfnRun,
    q: Seq<u32>,
)
    requires
        scanned_twice(g, mode, v, f, u, path, cur, frame, lfn, lu, q),
    ensures
        scan_repeats(
            f,
            g,
            path,
            scanned_from(g, v, frame, cur, lfn, mode),
            u,
            scanned_from(g, u, frame, cur, lu, mode),
        ),
    decreases u32::MAX - cur.pos,
{
    lemma_first_visit_again(g, mode, v, f, u, path, cur, frame, lfn, lu, q);
    let (b, visited) = entry_visited(g, v, frame, cur, lfn, mode);
    let (w, again) = entry_visited(g, u, frame, cur, lu, mode);
    if let Ok(Visit::Next(rest)) = visited {
        let ru = again->Ok_0->Next_0;
        lemma_whole_again(g, b, b.img, f, w, path);
        lemma_place_after_again(g, b.img, w.img, path, cur);
        match place_after(b.img, g, cur) {
            Place::At(next) => {
                lemma_scan_again(g, mode, b, f, w, path, next, frame, rest, ru, q);
            },
            Place::End => {
                lemma_run_out_again(g, mode, b, f, w, path, cur, frame, rest, ru, v.img);
            },
            _ => {},
        }
    }
}

/// A run in front of the end of a directory is gone in the second walk.
#[verifier::spinoff_prover]
#[verifier::rlimit(40)]
proof fn lemma_run_out_again(
    g: Geometry,
    mode: RepairMode,
    b: Vol,
    f: Seq<u8>,
    w: Vol,
    path: Seq<u32>,
    cur: Cursor,
    frame: DirFrame,
    rest: LfnRun,
    ru: LfnRun,
    a: Seq<u8>,
)
    requires
        g.wf(b.img.len()),
        thorough(mode),
        owned(g, b.img, path),
        path[0] == dir_start(g, frame.cluster),
        on_path(g, path, cur),
        run_in(g, b.img, path, rest, cur.pos + 32),
        place_after(b.img, g, cur) is End,
        later(g, a, dir_ended(g, b, frame, cur, rest, mode).0.img, f, path, no_end(), Seq::empty()),
        run_again(g, f, path, rest, ru, cur.pos + 32),
        replays(g, b, f, w),
    ensures
        ru.start is None,
        replays(g, dir_ended(g, b, frame, cur, rest, mode).0, f, w),
        dir_ended(g, b, frame, cur, rest, mode).1 matches Ok(DirStep::Done),
{
    let p = cur.pos as int;
    let after = dir_ended(g, b, frame, cur, rest, mode).0;
    if let Some(start) = rest.start {
        lemma_run_at_end(g, mode, b, path, cur, frame, rest, start);
        lemma_on_path(g, b.img.len(), path, cur);
        lemma_position(g, b.img.len(), path, p);
        assert(is_slot(g, path, start as int));
        assert(is_deleted(slot(g, after.img, path, start as int)));
        assert(slot(g, f, path, start as int) == slot(g, after.img, path, start as int));
    }
}

/// The second walk repeats the scan of a directory, and finds nothing wrong.
proof fn lemma_dir_again(
    g: Geometry,
    mode: RepairMode,
    v: Vol,
    f: Seq<u8>,
    u: Vol,
    path: Seq<u32>,
    frame: DirFrame,
    q: Seq<u32>,
)
    requires
        g.wf(v.img.len()),
        thorough(mode),
        owned(g, v.img, path),
        path[0] == dir_start(g, frame.cluster),
        frame_ok(g, frame),
        ({
            let (b, res) = dir_scanned(g, v, frame, mode);
            &&& names_fit(g, v.stats, b.stats)
            &&& res matches Ok(step) && step_outcome(g, v.img, b.img, step, q) && later(
                g,
                v.img,
                b.img,
                f,
                path,
                done_up_to(step),
                q,
            )
        }),
        forall|c: u32|
            g.valid_cluster(c) && marked(raw_entry(v.img, g, c)) ==> #[trigger] raw_entry(f, g, c)
                == raw_entry(v.img, g, c),
        replays(g, v, f, u),
        same_slots(g, f, u.img, path, frame.resume as int, no_end()),
    ensures
        scan_repeats(f, g, path, dir_scanned(g, v, frame, mode), u, dir_scanned(g, u, frame, mode)),
{
    let k = (frame.resume / g.cluster_size) as nat;
    lemma_whole_again(g, v, v.img, f, u, path);
    lemma_nth_of_chain(g, v.img, path, k);
    lemma_nth_of_chain(g, u.img, path, k);
    lemma_path_at(g, v.img, path, frame.resume);
    assert(place_at(u.img, g, path[0], frame.resume) == place_at(v.img, g, path[0], frame.resume));
    if let Place::At(cur) = place_at(v.img, g, path[0], frame.resume) {
        lemma_scan_again(g, mode, v, f, u, path, cur, frame, no_run(), no_run(), q);
    }
}

/// What is left behind of a scan that stopped for a subdirectory.
proof fn lemma_later_before(
    g: Geometry,
    a: Seq<u8>,
    one: Seq<u8>,
    below: Seq<u8>,
    after: Seq<u8>,
    f: Seq<u8>,
    path: Seq<u32>,
    lo: int,
    resume: int,
    q: Seq<u32>,
)
    requires
        g.wf(a.len()),
        owned(g, a, path),
        advanced(g, path, lo, a, one),
        owned(g, one, path),
        owned(g, one, q),
        none_marked(g, a, q),
        advanced(g, q, 0, one, below),
        advanced(g, path, resume, below, after),
        later(g, a, after, f, path, no_end(), Seq::empty()),
        resume <= no_end(),
        forall|i: int| 0 <= i < path.len() ==> cluster_kept(g, one, below, #[trigger] path[i]),
    ensures
        later(g, a, one, f, path, resume, q),
        later(g, one, below, f, q, no_end(), Seq::empty()),
        forall|c: u32|
            g.valid_cluster(c) && marked(raw_entry(below, g, c)) ==> #[trigger] raw_entry(f, g, c)
                == raw_entry(below, g, c),
{
    lemma_paths_disjoint(g, a, path, q);
    let none = Seq::<u32>::empty();
    assert forall|c: u32| g.valid_cluster(c) && marked(raw_entry(below, g, c)) implies #[trigger] raw_entry(
        f,
        g,
        c,
    ) == raw_entry(below, g, c) by {
        assert(raw_entry(after, g, c) == raw_entry(below, g, c));
    }
    assert forall|c: u32| g.valid_cluster(c) && marked(raw_entry(one, g, c)) implies #[trigger] raw_entry(
        f,
        g,
        c,
    ) == raw_entry(one, g, c) by {
        assert(raw_entry(below, g, c) == raw_entry(one, g, c));
    }
    // What was claimed since and is not on the path does not change any more once the walk is below it.
    assert forall|c: u32|
        g.valid_cluster(c) && marked(raw_entry(below, g, c)) && !marked(
            raw_entry(a, g, c),
        ) implies #[trigger] cluster_kept(g, below, f, c) by {
        assert(!path.contains(c)) by {
            if path.contains(c) {
                let i = choose|i: int| 0 <= i < path.len() && path[i] == c;
                assert(marked(raw_entry(a, g, path[i])));
            }
        }
        assert(raw_entry(after, g, c) == raw_entry(below, g, c));
        assert(cluster_kept(g, below, after, c));
        assert(!none.contains(c));
        assert(cluster_kept(g, after, f, c));
    }
    assert forall|c: u32|
        g.valid_cluster(c) && marked(raw_entry(one, g, c)) && !marked(raw_entry(a, g, c))
            && !q.contains(c) implies #[trigger] cluster_kept(g, one, f, c) by {
        assert(raw_entry(below, g, c) == raw_entry(one, g, c));
        assert(cluster_kept(g, one, below, c));
        assert(cluster_kept(g, below, f, c));
    }
    assert forall|i: int| 0 <= i < path.len() implies g.valid_cluster(#[trigger] path[i])
        && cluster_kept(g, one, below, path[i]) by {
        assert(g.valid_cluster(path[i]));
    }
    lemma_path_kept(g, one, below, path, 0, resume);
    assert forall|i: int| is_slot(g, path, i) && 0 <= i < resume implies #[trigger] slot(
        g,
        f,
        path,
        i,
    ) == slot(g, one, path, i) by {
        assert(slot(g, below, path, i) == slot(g, one, path, i));
        assert(slot(g, after, path, i) == slot(g, below, path, i));
    }
    assert forall|i: int| 0 <= i < q.len() implies g.valid_cluster(#[trigger] q[i])
        && cluster_kept(g, below, f, q[i]) by {
        assert(g.valid_cluster(q[i]));
        assert(marked(raw_entry(one, g, q[i])));
        assert(raw_entry(below, g, q[i]) == raw_entry(one, g, q[i]));
        assert(!marked(raw_entry(a, g, q[i])));
    }
    lemma_path_kept(g, below, f, q, 0, no_end());
    assert(g.valid_cluster(q[0]) && cluster_kept(g, below, f, q[0]));
    lemma_start_kept(g, below, f, q[0]);
    assert forall|c: u32|
        g.valid_cluster(c) && marked(raw_entry(below, g, c)) && !marked(raw_entry(one, g, c))
            && !none.contains(c) implies #[trigger] cluster_kept(g, below, f, c) by {
        if marked(raw_entry(a, g, c)) {
            assert(raw_entry(one, g, c) == raw_entry(a, g, c));
        }
    }
}

/// What is left behind of the rest of a walk.
proof fn lemma_later_rest(
    g: Geometry,
    a: Seq<u8>,
    one: Seq<u8>,
    below: Seq<u8>,
    after: Seq<u8>,
    f: Seq<u8>,
    path: Seq<u32>,
    lo: int,
    q: Seq<u32>,
)
    requires
        advanced(g, path, lo, a, one),
        advanced(g, q, 0, one, below),
        later(g, a, after, f, path, no_end(), Seq::empty()),
    ensures
        later(g, below, after, f, path, no_end(), Seq::empty()),
{
    let none = Seq::<u32>::empty();
    assert forall|c: u32|
        g.valid_cluster(c) && marked(raw_entry(after, g, c)) && !marked(raw_entry(below, g, c))
            && !none.contains(c) implies #[trigger] cluster_kept(g, after, f, c) by {
        if marked(raw_entry(a, g, c)) {
            assert(raw_entry(one, g, c) == raw_entry(a, g, c));
            assert(raw_entry(below, g, c) == raw_entry(one, g, c));
        }
    }
}

/// The second walk comes to the clusters that were claimed for a subdirectory as they were left behind.
proof fn lemma_second_child(
    g: Geometry,
    mode: RepairMode,
    v: Vol,
    one: Vol,
    f: Seq<u8>,
    u: Vol,
    path: Seq<u32>,
    frame: DirFrame,
    q: Seq<u32>,
)
    requires
        g.wf(v.img.len()),
        thorough(mode),
        owned(g, v.img, path),
        path[0] == dir_start(g, frame.cluster),
        frame_ok(g, frame),
        replays(g, v, f, u),
        whole_chain(g, u.img, path),
        none_marked(g, v.img, q),
        owned(g, one.img, q),
        forall|c: u32|
            g.valid_cluster(c) && marked(raw_entry(one.img, g, c)) ==> #[trigger] raw_entry(f, g, c)
                == raw_entry(one.img, g, c),
        ({
            let (w, res) = dir_scanned(g, u, frame, mode);
            &&& res is Ok
            &&& silent(u.stats, w.stats)
            &&& replays(g, one, f, w)
        }),
    ensures
        ({
            let w = dir_scanned(g, u, frame, mode).0;
            &&& advanced(g, path, frame.resume as int, u.img, w.img)
            &&& owned(g, u.img, path)
            &&& owned(g, w.img, q)
            &&& none_marked(g, u.img, q)
            &&& same_slots(g, f, w.img, q, 0, no_end())
        }),
{
    let w = dir_scanned(g, u, frame, mode).0;
    assert forall|i: int| 0 <= i < path.len() implies marked(raw_entry(u.img, g, #[trigger] path[i])) by {
        assert(g.valid_cluster(path[i]));
        assert(marked(raw_entry(v.img, g, path[i])));
    }
    lemma_dir_advances(g, mode, u, path, frame);
    lemma_whole_again(g, one, one.img, f, w, q);
    assert forall|i: int| 0 <= i < q.len() implies marked(raw_entry(w.img, g, #[trigger] q[i])) by {
        assert(g.valid_cluster(q[i]));
        assert(marked(raw_entry(one.img, g, q[i])));
    }
    assert forall|i: int| 0 <= i < q.len() implies !marked(raw_entry(u.img, g, #[trigger] q[i])) by {
        assert(g.valid_cluster(q[i]));
        assert(!marked(raw_entry(v.img, g, q[i])));
    }
    lemma_paths_disjoint(g, v.img, path, q);
    assert forall|i: int| 0 <= i < q.len() implies g.valid_cluster(#[trigger] q[i])
        && cluster_kept(g, f, w.img, q[i]) by {
        assert(g.valid_cluster(q[i]));
        assert(!marked(raw_entry(u.img, g, q[i])));
        assert(!path.contains(q[i]));
        assert(cluster_kept(g, f, u.img, q[i]));
        assert(cluster_kept(g, u.img, w.img, q[i]));
    }
    lemma_path_kept(g, f, w.img, q, 0, no_end());
}

/// The second walk comes back to a directory as it was left behind.
proof fn lemma_second_rest(
    g: Geometry,
    f: Seq<u8>,
    u: Seq<u8>,
    w: Seq<u8>,
    x: Seq<u8>,
    path: Seq<u32>,
    q: Seq<u32>,
    lo: int,
    resume: int,
)
    requires
        g.wf(u.len()),
        owned(g, u, path),
        none_marked(g, u, q),
        advanced(g, path, lo, u, w),
        advanced(g, q, 0, w, x),
        same_slots(g, f, w, path, resume, no_end()),
    ensures
        same_slots(g, f, x, path, resume, no_end()),
{
    lemma_advanced_below(g, path, q, lo, u, w, x);
    assert forall|i: int| 0 <= i < path.len() implies g.valid_cluster(#[trigger] path[i])
        && cluster_kept(g, w, x, path[i]) by {
        assert(g.valid_cluster(path[i]));
    }
    lemma_path_kept(g, w, x, path, resume, no_end());
    assert forall|i: int| is_slot(g, path, i) && resume <= i < no_end() implies #[trigger] slot(
        g,
        x,
        path,
        i,
    ) == slot(g, f, path, i) by {
        assert(slot(g, w, path, i) == slot(g, f, path, i));
    }
}

/// The second walk repeats the first one, and finds nothing wrong but the long names of entries that were renamed.
pub proof fn lemma_tree_again(
    g: Geometry,
    mode: RepairMode,
    v: Vol,
    f: Seq<u8>,
    u: Vol,
    path: Seq<u32>,
    frame: DirFrame,
    room: nat,
)
    requires
        g.wf(v.img.len()),
        thorough(mode),
        owned(g, v.img, path),
        path[0] == dir_start(g, frame.cluster),
        frame_ok(g, frame),
        ({
            let (b, res) = tree_walked(g, v, frame, room, mode);
            &&& names_fit(g, v.stats, b.stats)
            &&& res is Ok
            &&& later(g, v.img, b.img, f, path, no_end(), Seq::empty())
        }),
        forall|c: u32|
            g.valid_cluster(c) && marked(raw_entry(v.img, g, c)) ==> #[trigger] raw_entry(f, g, c)
                == raw_entry(v.img, g, c),
        replays(g, v, f, u),
        same_slots(g, f, u.img, path, frame.resume as int, no_end()),
    ensures
        ({
            let b = tree_walked(g, v, frame, room, mode).0;
            let (w, res) = tree_walked(g, u, frame, room, mode);
            &&& silent(u.stats, w.stats)
            &&& values_kept(g, u.img, w.img)
            &&& replays(g, b, f, w)
            &&& res is Ok
        }),
    decreases room, u32::MAX - frame.resume,
{
    let entered = dir_entered(v, frame);
    let entered_again = dir_entered(u, frame);
    let (one, res) = dir_scanned(g, entered, frame, mode);
    let b = tree_walked(g, v, frame, room, mode).0;
    let lo = frame.resume as int;
    lemma_dir_counts(g, entered, frame, mode);
    lemma_dir_scanned_advances(g, entered, frame, mode);
    assert(replays(g, entered, f, entered_again));
    if let Ok(DirStep::Descend { cluster, resume }) = res {
        let rest = DirFrame { resume, ..frame };
        if room == 0 {
            let skipped = dir_skipped(one);
            lemma_tree_counts(g, skipped, rest, room, mode);
            let q = lemma_dir_advances(g, mode, entered, path, frame);
            lemma_tree_advances(g, mode, skipped, path, rest, room);
            lemma_later_before(
                g,
                v.img,
                one.img,
                one.img,
                b.img,
                f,
                path,
                lo,
                resume as int,
                q,
            );
            lemma_later_rest(g, v.img, one.img, one.img, b.img, f, path, lo, q);
            lemma_dir_again(g, mode, entered, f, entered_again, path, frame, q);
            let w = dir_scanned(g, entered_again, frame, mode).0;
            assert(replays(g, skipped, f, dir_skipped(w)));
            lemma_tree_again(g, mode, skipped, f, dir_skipped(w), path, rest, room);
        } else {
            let child = DirFrame { cluster, parent: frame.cluster, resume: 0 };
            let below = tree_walked(g, one, child, (room - 1) as nat, mode).0;
            lemma_tree_counts(g, one, child, (room - 1) as nat, mode);
            lemma_tree_counts(g, below, rest, room, mode);
            let q = lemma_dir_advances(g, mode, entered, path, frame);
            assert(g.valid_cluster(q[0]));
            lemma_tree_advances(g, mode, one, q, child, (room - 1) as nat);
            lemma_advanced_below(g, path, q, lo, v.img, one.img, below.img);
            lemma_tree_advances(g, mode, below, path, rest, room);
            lemma_later_before(
                g,
                v.img,
                one.img,
                below.img,
                b.img,
                f,
                path,
                lo,
                resume as int,
                q,
            );
            lemma_later_rest(g, v.img, one.img, below.img, b.img, f, path, lo, q);
            lemma_whole_again(g, v, v.img, f, u, path);
            lemma_dir_again(g, mode, entered, f, entered_again, path, frame, q);
            let w = dir_scanned(g, entered_again, frame, mode).0;
            lemma_second_child(g, mode, entered, one, f, entered_again, path, frame, q);
            lemma_tree_again(g, mode, one, f, w, q, child, (room - 1) as nat);
            let x = tree_walked(g, w, child, (room - 1) as nat, mode).0;
            lemma_tree_advances(g, mode, w, q, child, (room - 1) as nat);
            lemma_second_rest(g, f, u.img, w.img, x.img, path, q, lo, resume as int);
            lemma_tree_again(g, mode, below, f, x, path, rest, room);
        }
    } else {
        let q = lemma_dir_advances(g, mode, entered, path, frame);
        assert(q =~= Seq::empty());
        lemma_dir_again(g, mode, entered, f, entered_again, path, frame, q);
    }
}

} // verus!
