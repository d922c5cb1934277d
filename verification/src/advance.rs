//! What a thorough run leaves of the directories it has been through.

use vstd::prelude::*;

use crate::counts::{lemma_dir_counts, lemma_scan_counts, lemma_tree_counts, lemma_visit_counts};
use crate::dir::{dir_start, place_after, place_at, starts_directory, Cursor, Place};
use crate::dirent::{is_deleted, is_lfn};
use crate::entry::entries_between;
use crate::fat::{marked, raw_entry};
use crate::geometry::{Geometry, DIR_ENTRY_SIZE};
use crate::kept::cluster_kept;
use crate::mode::RepairMode;
use crate::model::Vol;
use crate::owned::{
    is_slot, lemma_on_path, lemma_path_after, lemma_path_at, lemma_position, lemma_run_deleted, lemma_whole_kept,
    none_marked, on_path, owned, same_fat, slot,
};
use crate::scratch::DirFrame;
use crate::visits::{
    advanced, all_deleted, entry_settled, lemma_slots_bounded, lemma_start_kept, lemma_visit_settles, names_fit,
    run_base, run_in, same_slots, thorough, visit_bounded, visit_settled,
};
use crate::walk::{
    dir_ended, dir_entered, dir_scanned, dir_skipped, entry_visited, frame_ok, lemma_dir_scanned_advances, no_run,
    scanned_from, tree_walked, DirStep, LfnRun, Visit,
};

verus! {

/// Whether a stretch of entries was left as it was, or deleted as a whole.
pub open spec fn one_fate(g: Geometry, a: Seq<u8>, b: Seq<u8>, path: Seq<u32>, lo: int, hi: int) -> bool {
    same_slots(g, a, b, path, lo, hi) || all_deleted(g, b, path, lo, hi)
}

/// What a visit comes to, for the entries in front of it and for what it claims.
pub open spec fn visit_outcome(
    g: Geometry,
    path: Seq<u32>,
    pos: u32,
    lfn: LfnRun,
    a: Seq<u8>,
    b: Seq<u8>,
    visit: Visit,
    q: Seq<u32>,
) -> bool {
    let p = pos as int;
    let base = run_base(lfn, p);
    match visit {
        Visit::Finish => q.len() == 0 && one_fate(g, a, b, path, base, p),
        Visit::Descend(c) => {
            &&& q.len() > 0
            &&& q[0] == c
            &&& owned(g, b, q)
            &&& starts_directory(b, g, c)
            &&& one_fate(g, a, b, path, base, p)
        },
        Visit::Next(rest) => {
            &&& run_in(g, b, path, rest, p + 32)
            &&& base <= run_base(rest, p + 32)
            &&& match rest.start {
                None => one_fate(g, a, b, path, base, p),
                Some(_) => b == a && run_base(rest, p + 32) == base,
            }
        },
    }
}

/// What a visit that leads to another directory comes to.
proof fn lemma_descend_outcome(
    g: Geometry,
    frame: DirFrame,
    path: Seq<u32>,
    cur: Cursor,
    lfn: LfnRun,
    a: Seq<u8>,
    b: Seq<u8>,
    visit: Visit,
    q: Seq<u32>,
)
    requires
        g.wf(a.len()),
        owned(g, a, path),
        on_path(g, path, cur),
        run_in(g, a, path, lfn, cur.pos as int),
        visit_settled(g, frame, path, cur.pos, lfn, a, b, visit, q),
        visit_bounded(g, path, cur.pos, lfn, a, b, q),
        visit is Descend,
    ensures
        visit_outcome(g, path, cur.pos, lfn, a, b, visit, q),
{
    let c = visit->Descend_0;
    let p = cur.pos as int;
    let e = slot(g, a, path, p);
    lemma_on_path(g, a.len(), path, cur);
    let now = slot(g, b, path, p);
    assert(entry_settled(g, a, b, now, q, Some(c)));
    lemma_paths_disjoint(g, a, path, q);
    assert(!path.contains(q[0]));
    assert(cluster_kept(g, a, b, c));
    lemma_start_kept(g, a, b, c);
}

/// What a visit of a long-name entry comes to.
proof fn lemma_join_outcome(
    g: Geometry,
    frame: DirFrame,
    path: Seq<u32>,
    cur: Cursor,
    lfn: LfnRun,
    a: Seq<u8>,
    b: Seq<u8>,
    visit: Visit,
    q: Seq<u32>,
)
    requires
        g.wf(a.len()),
        owned(g, a, path),
        on_path(g, path, cur),
        run_in(g, a, path, lfn, cur.pos as int),
        visit_settled(g, frame, path, cur.pos, lfn, a, b, visit, q),
        visit_bounded(g, path, cur.pos, lfn, a, b, q),
        visit matches Visit::Next(rest) && rest.start is Some,
    ensures
        visit_outcome(g, path, cur.pos, lfn, a, b, visit, q),
{
    let p = cur.pos as int;
    lemma_on_path(g, a.len(), path, cur);
    let e = slot(g, a, path, p);
    let rest = visit->Next_0;
    let start = rest.start->0;
    assert(is_lfn(e) && !is_deleted(e) && b == a);
    assert forall|i: int| is_slot(g, path, i) && start <= i < p + 32 implies is_lfn(
        #[trigger] slot(g, b, path, i),
    ) && !is_deleted(slot(g, b, path, i)) by {
        assert(i <= p);
    }
}

/// What a visit that the scan goes on behind comes to.
proof fn lemma_next_outcome(
    g: Geometry,
    frame: DirFrame,
    path: Seq<u32>,
    cur: Cursor,
    lfn: LfnRun,
    a: Seq<u8>,
    b: Seq<u8>,
    visit: Visit,
    q: Seq<u32>,
)
    requires
        g.wf(a.len()),
        owned(g, a, path),
        on_path(g, path, cur),
        run_in(g, a, path, lfn, cur.pos as int),
        visit_settled(g, frame, path, cur.pos, lfn, a, b, visit, q),
        visit_bounded(g, path, cur.pos, lfn, a, b, q),
        visit matches Visit::Next(rest) && rest.start is None,
    ensures
        visit_outcome(g, path, cur.pos, lfn, a, b, visit, q),
{
    let p = cur.pos as int;
    let e = slot(g, a, path, p);
    let base = run_base(lfn, p);
    if b != a && all_deleted(g, b, path, base, p + 32) {
        assert(all_deleted(g, b, path, base, p));
    }
    assert(one_fate(g, a, b, path, base, p));
}

/// What a visit comes to.
pub proof fn lemma_visit_outcome(
    g: Geometry,
    frame: DirFrame,
    path: Seq<u32>,
    cur: Cursor,
    lfn: LfnRun,
    a: Seq<u8>,
    b: Seq<u8>,
    visit: Visit,
    q: Seq<u32>,
)
    requires
        g.wf(a.len()),
        owned(g, a, path),
        on_path(g, path, cur),
        run_in(g, a, path, lfn, cur.pos as int),
        visit_settled(g, frame, path, cur.pos, lfn, a, b, visit, q),
        visit_bounded(g, path, cur.pos, lfn, a, b, q),
    ensures
        visit_outcome(g, path, cur.pos, lfn, a, b, visit, q),
{
    match visit {
        Visit::Descend(_) => {
            lemma_descend_outcome(g, frame, path, cur, lfn, a, b, visit, q);
        },
        Visit::Next(rest) => {
            if rest.start is Some {
                lemma_join_outcome(g, frame, path, cur, lfn, a, b, visit, q);
            } else {
                lemma_next_outcome(g, frame, path, cur, lfn, a, b, visit, q);
            }
        },
        Visit::Finish => {},
    }
}

/// What a visit comes to, and what it keeps.
#[verifier::opaque]
pub open spec fn visit_bears(
    g: Geometry,
    path: Seq<u32>,
    pos: u32,
    lfn: LfnRun,
    a: Seq<u8>,
    b: Seq<u8>,
    visit: Visit,
    q: Seq<u32>,
) -> bool {
    &&& visit_outcome(g, path, pos, lfn, a, b, visit, q)
    &&& none_marked(g, a, q)
    &&& others_kept(g, path, a, b)
    &&& advanced(g, path, run_base(lfn, pos as int), a, b)
    &&& owned(g, b, path)
}

/// What a visit comes to.
proof fn lemma_visit_comes_to(
    g: Geometry,
    mode: RepairMode,
    v: Vol,
    path: Seq<u32>,
    cur: Cursor,
    frame: DirFrame,
    lfn: LfnRun,
) -> (q: Seq<u32>)
    requires
        g.wf(v.img.len()),
        thorough(mode),
        owned(g, v.img, path),
        path[0] == dir_start(g, frame.cluster),
        on_path(g, path, cur),
        run_in(g, v.img, path, lfn, cur.pos as int),
        ({
            let b = entry_visited(g, v, frame, cur, lfn, mode).0;
            names_fit(g, v.stats, b.stats)
        }),
    ensures
        ({
            let (b, res) = entry_visited(g, v, frame, cur, lfn, mode);
            &&& res is Ok
            &&& visit_bears(g, path, cur.pos, lfn, v.img, b.img, res->Ok_0, q)
            &&& owned(g, b.img, path)
            &&& b.img.len() == v.img.len()
            &&& res matches Ok(Visit::Next(rest)) ==> run_in(g, b.img, path, rest, cur.pos + 32)
        }),
{
    let q = lemma_visit_settles(g, mode, v, path, cur, frame, lfn);
    let (b, res) = entry_visited(g, v, frame, cur, lfn, mode);
    lemma_visit_outcome(g, frame, path, cur, lfn, v.img, b.img, res->Ok_0, q);
    reveal(visit_bears);
    q
}

/// What a scan makes of the volume in two steps.
pub proof fn lemma_advanced_trans(
    g: Geometry,
    path: Seq<u32>,
    lo: int,
    hi: int,
    a: Seq<u8>,
    b: Seq<u8>,
    c: Seq<u8>,
)
    requires
        advanced(g, path, lo, a, b),
        advanced(g, path, hi, b, c),
        lo <= hi,
    ensures
        advanced(g, path, lo, a, c),
{
    assert forall|d: u32| g.valid_cluster(d) && marked(raw_entry(a, g, d)) implies #[trigger] raw_entry(
        c,
        g,
        d,
    ) == raw_entry(a, g, d) by {
        assert(raw_entry(b, g, d) == raw_entry(a, g, d));
    }
    assert forall|d: u32|
        g.valid_cluster(d) && marked(raw_entry(a, g, d)) && !path.contains(
            d,
        ) implies #[trigger] cluster_kept(g, a, c, d) by {
        assert(raw_entry(b, g, d) == raw_entry(a, g, d));
        assert(cluster_kept(g, a, b, d));
        assert(cluster_kept(g, b, c, d));
    }
    assert forall|q: int| is_slot(g, path, q) && 0 <= q < lo implies #[trigger] slot(g, c, path, q)
        == slot(g, a, path, q) by {
        assert(slot(g, b, path, q) == slot(g, a, path, q));
    }
}

/// What is claimed stays claimed.
pub proof fn lemma_advanced_owned(g: Geometry, path: Seq<u32>, lo: int, a: Seq<u8>, b: Seq<u8>, own: Seq<u32>)
    requires
        advanced(g, path, lo, a, b),
        owned(g, a, own),
    ensures
        owned(g, b, own),
{
    assert forall|i: int| 0 <= i < own.len() implies raw_entry(b, g, own[i]) == raw_entry(
        a,
        g,
        #[trigger] own[i],
    ) by {
        assert(g.valid_cluster(own[i]));
        assert(marked(raw_entry(a, g, own[i])));
    }
    lemma_whole_kept(g, a, b, own);
}

/// What was left as it was, or deleted, and is not touched any more.
pub proof fn lemma_fate_stays(
    g: Geometry,
    path: Seq<u32>,
    lo: int,
    hi: int,
    a: Seq<u8>,
    b: Seq<u8>,
    c: Seq<u8>,
)
    requires
        one_fate(g, a, b, path, lo, hi),
        same_slots(g, b, c, path, lo, hi),
    ensures
        one_fate(g, a, c, path, lo, hi),
{
    if same_slots(g, a, b, path, lo, hi) {
        assert forall|q: int| is_slot(g, path, q) && lo <= q < hi implies #[trigger] slot(
            g,
            c,
            path,
            q,
        ) == slot(g, a, path, q) by {
            assert(slot(g, b, path, q) == slot(g, a, path, q));
        }
    } else {
        assert forall|q: int| is_slot(g, path, q) && lo <= q < hi implies is_deleted(
            #[trigger] slot(g, c, path, q),
        ) by {
            assert(is_deleted(slot(g, b, path, q)));
        }
    }
}

/// Clusters that were not marked before a step were not marked before the steps in front of it.
pub proof fn lemma_unclaimed_before(
    g: Geometry,
    path: Seq<u32>,
    lo: int,
    a: Seq<u8>,
    b: Seq<u8>,
    q: Seq<u32>,
)
    requires
        advanced(g, path, lo, a, b),
        none_marked(g, b, q),
        forall|i: int| 0 <= i < q.len() ==> #[trigger] g.valid_cluster(q[i]),
    ensures
        none_marked(g, a, q),
{
    assert forall|i: int| 0 <= i < q.len() implies !marked(raw_entry(a, g, #[trigger] q[i])) by {
        assert(g.valid_cluster(q[i]));
        assert(!marked(raw_entry(b, g, q[i])));
    }
}

/// Whether every cluster that is not on `path` holds what it held.
pub open spec fn others_kept(g: Geometry, path: Seq<u32>, a: Seq<u8>, b: Seq<u8>) -> bool {
    forall|c: u32| g.valid_cluster(c) && !path.contains(c) ==> #[trigger] cluster_kept(g, a, b, c)
}

/// What is kept in two steps.
proof fn lemma_others_trans(g: Geometry, path: Seq<u32>, a: Seq<u8>, b: Seq<u8>, c: Seq<u8>)
    requires
        others_kept(g, path, a, b),
        others_kept(g, path, b, c),
    ensures
        others_kept(g, path, a, c),
{
    assert forall|d: u32| g.valid_cluster(d) && !path.contains(d) implies #[trigger] cluster_kept(
        g,
        a,
        c,
        d,
    ) by {
        assert(cluster_kept(g, a, b, d));
        assert(cluster_kept(g, b, c, d));
    }
}

/// Where a scan stops, and what it has claimed for the directory to descend into.
pub open spec fn step_outcome(g: Geometry, a: Seq<u8>, b: Seq<u8>, step: DirStep, q: Seq<u32>) -> bool {
    match step {
        DirStep::Done => q.len() == 0,
        DirStep::Descend { cluster, resume } => {
            &&& q.len() > 0
            &&& q[0] == cluster
            &&& owned(g, b, q)
            &&& none_marked(g, a, q)
            &&& starts_directory(b, g, cluster)
            &&& resume % DIR_ENTRY_SIZE == 0
        },
    }
}

/// What a scan from `pos` on makes of the volume.
#[verifier::opaque]
pub open spec fn scan_outcome(
    g: Geometry,
    path: Seq<u32>,
    pos: u32,
    lfn: LfnRun,
    a: Seq<u8>,
    b: Seq<u8>,
    step: DirStep,
    q: Seq<u32>,
) -> bool {
    let p = pos as int;
    &&& advanced(g, path, run_base(lfn, p), a, b)
    &&& others_kept(g, path, a, b)
    &&& owned(g, b, path)
    &&& one_fate(g, a, b, path, run_base(lfn, p), p)
    &&& step_outcome(g, a, b, step, q)
}

/// What a scan makes of the volume, given its first step and the rest.
proof fn lemma_scan_goes_on(
    g: Geometry,
    path: Seq<u32>,
    pos: u32,
    next: u32,
    lfn: LfnRun,
    rest: LfnRun,
    a: Seq<u8>,
    mid: Seq<u8>,
    b: Seq<u8>,
    visited: Seq<u32>,
    step: DirStep,
    q: Seq<u32>,
)
    requires
        pos % DIR_ENTRY_SIZE == 0,
        next == pos + 32,
        run_in(g, a, path, lfn, pos as int),
        visit_bears(g, path, pos, lfn, a, mid, Visit::Next(rest), visited),
        scan_outcome(g, path, next, rest, mid, b, step, q),
    ensures
        scan_outcome(g, path, pos, lfn, a, b, step, q),
{
    reveal(visit_bears);
    reveal(scan_outcome);
    let p = pos as int;
    let base = run_base(lfn, p);
    lemma_advanced_trans(g, path, base, run_base(rest, p + 32), a, mid, b);
    lemma_others_trans(g, path, a, mid, b);
    if rest.start is None {
        assert(base >= 0);
        assert(same_slots(g, mid, b, path, base, p)) by {
            assert(same_slots(g, mid, b, path, 0, p + 32));
        }
        lemma_fate_stays(g, path, base, p, a, mid, b);
    }
    if q.len() > 0 {
        lemma_unclaimed_before(g, path, base, a, mid, q);
    }
}

/// What a scan makes of the volume, given its only step.
proof fn lemma_scan_stops(
    g: Geometry,
    path: Seq<u32>,
    pos: u32,
    lfn: LfnRun,
    a: Seq<u8>,
    b: Seq<u8>,
    visit: Visit,
    visited: Seq<u32>,
    step: DirStep,
) -> (q: Seq<u32>)
    requires
        pos % DIR_ENTRY_SIZE == 0,
        visit_bears(g, path, pos, lfn, a, b, visit, visited),
        match visit {
            Visit::Descend(c) => pos + 32 <= u32::MAX && step == (DirStep::Descend {
                cluster: c,
                resume: (pos + DIR_ENTRY_SIZE) as u32,
            }),
            _ => step is Done,
        },
    ensures
        scan_outcome(g, path, pos, lfn, a, b, step, q),
{
    reveal(visit_bears);
    reveal(scan_outcome);
    match visit {
        Visit::Descend(_) => visited,
        _ => Seq::empty(),
    }
}

/// What a scan makes of the volume, given the last step in front of the end of the directory.
proof fn lemma_scan_runs_out(
    g: Geometry,
    mode: RepairMode,
    mid: Vol,
    path: Seq<u32>,
    cur: Cursor,
    frame: DirFrame,
    lfn: LfnRun,
    rest: LfnRun,
    a: Seq<u8>,
    visited: Seq<u32>,
) -> (q: Seq<u32>)
    requires
        g.wf(mid.img.len()),
        thorough(mode),
        owned(g, mid.img, path),
        path[0] == dir_start(g, frame.cluster),
        on_path(g, path, cur),
        run_in(g, mid.img, path, rest, cur.pos + 32),
        visit_bears(g, path, cur.pos, lfn, a, mid.img, Visit::Next(rest), visited),
        place_after(mid.img, g, cur) is End,
    ensures
        ({
            let (b, res) = dir_ended(g, mid, frame, cur, rest, mode);
            &&& res matches Ok(DirStep::Done)
            &&& scan_outcome(g, path, cur.pos, lfn, a, b.img, DirStep::Done, q)
        }),
{
    let p = cur.pos as int;
    let (b, res) = dir_ended(g, mid, frame, cur, rest, mode);
    let none = Seq::<u32>::empty();
    if let Some(start) = rest.start {
        reveal(visit_bears);
        reveal(scan_outcome);
        lemma_run_at_end(g, mode, mid, path, cur, frame, rest, start);
        assert(mid.img == a);
        assert(all_deleted(g, b.img, path, start as int, p));
        none
    } else {
        assert(b == mid);
        lemma_scan_stops(
            g,
            path,
            cur.pos,
            lfn,
            a,
            mid.img,
            Visit::Next(rest),
            visited,
            DirStep::Done,
        )
    }
}

/// What removing the run in front of the end of the directory does.
pub proof fn lemma_run_at_end(
    g: Geometry,
    mode: RepairMode,
    v: Vol,
    path: Seq<u32>,
    cur: Cursor,
    frame: DirFrame,
    lfn: LfnRun,
    start: u32,
)
    requires
        g.wf(v.img.len()),
        thorough(mode),
        owned(g, v.img, path),
        path[0] == dir_start(g, frame.cluster),
        on_path(g, path, cur),
        run_in(g, v.img, path, lfn, cur.pos + 32),
        lfn.start == Some(start),
        place_after(v.img, g, cur) is End,
    ensures
        ({
            let (b, res) = dir_ended(g, v, frame, cur, lfn, mode);
            &&& res matches Ok(DirStep::Done)
            &&& advanced(g, path, start as int, v.img, b.img)
            &&& others_kept(g, path, v.img, b.img)
            &&& owned(g, b.img, path)
            &&& all_deleted(g, b.img, path, start as int, cur.pos + 32)
            &&& same_fat(g, v.img, b.img)
        }),
{
    let p = cur.pos as int;
    let cs = g.cluster_size as int;
    let n = path.len() as int;
    let b = dir_ended(g, v, frame, cur, lfn, mode).0;
    lemma_on_path(g, v.img.len(), path, cur);
    lemma_position(g, v.img.len(), path, p);
    let i = p / cs;
    assert(i * cs + cs <= n * cs) by (nonlinear_arith)
        requires
            0 <= i < n,
            cs > 0,
    ;
    lemma_run_deleted(g, mode, v, path, start, p + 32, RepairMode::long_names());
    assert(entries_between(start, ((cur.pos + DIR_ENTRY_SIZE) as u32) as u64) == ((p + 32 - start)
        / 32) as nat);
    lemma_slots_bounded(g, path, start as int, p + 32, v.img, b.img, Seq::empty());
}

/// What a scan makes of the volume.
pub proof fn lemma_scan_advances(
    g: Geometry,
    mode: RepairMode,
    v: Vol,
    path: Seq<u32>,
    cur: Cursor,
    frame: DirFrame,
    lfn: LfnRun,
) -> (q: Seq<u32>)
    requires
        g.wf(v.img.len()),
        thorough(mode),
        owned(g, v.img, path),
        path[0] == dir_start(g, frame.cluster),
        on_path(g, path, cur),
        run_in(g, v.img, path, lfn, cur.pos as int),
        scanned_from(g, v, frame, cur, lfn, mode).1 is Ok,
        names_fit(g, v.stats, scanned_from(g, v, frame, cur, lfn, mode).0.stats),
    ensures
        ({
            let (b, res) = scanned_from(g, v, frame, cur, lfn, mode);
            scan_outcome(g, path, cur.pos, lfn, v.img, b.img, res->Ok_0, q)
        }),
    decreases u32::MAX - cur.pos,
{
    let (mid, visited) = entry_visited(g, v, frame, cur, lfn, mode);
    let (b, res) = scanned_from(g, v, frame, cur, lfn, mode);
    lemma_visit_counts(g, v, frame, cur, lfn, mode);
    if let Ok(Visit::Next(rest)) = visited {
        if let Place::At(next) = place_after(mid.img, g, cur) {
            lemma_scan_counts(g, mid, frame, next, rest, mode);
        }
    }
    let q = lemma_visit_comes_to(g, mode, v, path, cur, frame, lfn);
    let visit = visited->Ok_0;
    let step = res->Ok_0;
    lemma_path_after(g, mid.img, path, cur);
    if let Visit::Next(rest) = visit {
        if let Place::At(next) = place_after(mid.img, g, cur) {
            let later = lemma_scan_advances(g, mode, mid, path, next, frame, rest);
            lemma_scan_goes_on(
                g,
                path,
                cur.pos,
                next.pos,
                lfn,
                rest,
                v.img,
                mid.img,
                b.img,
                q,
                step,
                later,
            );
            later
        } else {
            lemma_scan_runs_out(g, mode, mid, path, cur, frame, lfn, rest, v.img, q)
        }
    } else {
        lemma_scan_stops(g, path, cur.pos, lfn, v.img, b.img, visit, q, step)
    }
}

/// What a scan of a directory makes of the volume.
pub proof fn lemma_dir_advances(
    g: Geometry,
    mode: RepairMode,
    v: Vol,
    path: Seq<u32>,
    frame: DirFrame,
) -> (q: Seq<u32>)
    requires
        g.wf(v.img.len()),
        thorough(mode),
        owned(g, v.img, path),
        path[0] == dir_start(g, frame.cluster),
        frame_ok(g, frame),
        dir_scanned(g, v, frame, mode).1 is Ok,
        names_fit(g, v.stats, dir_scanned(g, v, frame, mode).0.stats),
    ensures
        ({
            let (b, res) = dir_scanned(g, v, frame, mode);
            &&& advanced(g, path, frame.resume as int, v.img, b.img)
            &&& others_kept(g, path, v.img, b.img)
            &&& owned(g, b.img, path)
            &&& step_outcome(g, v.img, b.img, res->Ok_0, q)
        }),
{
    lemma_path_at(g, v.img, path, frame.resume);
    reveal(scan_outcome);
    match place_at(v.img, g, path[0], frame.resume) {
        Place::At(cur) => lemma_scan_advances(g, mode, v, path, cur, frame, no_run()),
        _ => Seq::empty(),
    }
}

/// The entries of a path whose clusters are kept.
pub proof fn lemma_path_kept(g: Geometry, a: Seq<u8>, b: Seq<u8>, path: Seq<u32>, lo: int, hi: int)
    requires
        g.wf(a.len()),
        a.len() == b.len(),
        forall|i: int|
            0 <= i < path.len() ==> g.valid_cluster(#[trigger] path[i]) && cluster_kept(
                g,
                a,
                b,
                path[i],
            ),
    ensures
        same_slots(g, a, b, path, lo, hi),
{
    assert forall|q: int| is_slot(g, path, q) && lo <= q < hi implies #[trigger] slot(g, b, path, q)
        == slot(g, a, path, q) by {
        lemma_position(g, a.len(), path, q);
        let c = path[q / (g.cluster_size as int)];
        assert(cluster_kept(g, a, b, c));
        assert(slot(g, b, path, q) =~= slot(g, a, path, q));
    }
}

/// No path claimed earlier has a cluster in common with one claimed later.
pub proof fn lemma_paths_disjoint(g: Geometry, img: Seq<u8>, path: Seq<u32>, q: Seq<u32>)
    requires
        owned(g, img, path),
        none_marked(g, img, q),
    ensures
        forall|i: int| 0 <= i < path.len() ==> !q.contains(#[trigger] path[i]),
        forall|i: int| 0 <= i < q.len() ==> !path.contains(#[trigger] q[i]),
{
    assert forall|i: int| 0 <= i < path.len() implies !q.contains(#[trigger] path[i]) by {
        if q.contains(path[i]) {
            let j = choose|j: int| 0 <= j < q.len() && q[j] == path[i];
            assert(!marked(raw_entry(img, g, q[j])));
            assert(marked(raw_entry(img, g, path[i])));
        }
    }
    assert forall|i: int| 0 <= i < q.len() implies !path.contains(#[trigger] q[i]) by {
        if path.contains(q[i]) {
            let j = choose|j: int| 0 <= j < path.len() && path[j] == q[i];
            assert(!q.contains(path[j]));
        }
    }
}

/// Walking what is below a directory leaves the directory as it is.
pub proof fn lemma_advanced_below(
    g: Geometry,
    path: Seq<u32>,
    q: Seq<u32>,
    lo: int,
    a: Seq<u8>,
    b: Seq<u8>,
    c: Seq<u8>,
)
    requires
        g.wf(a.len()),
        owned(g, a, path),
        none_marked(g, a, q),
        advanced(g, path, lo, a, b),
        advanced(g, q, 0, b, c),
    ensures
        advanced(g, path, lo, a, c),
        owned(g, c, path),
        forall|i: int| 0 <= i < path.len() ==> cluster_kept(g, b, c, #[trigger] path[i]),
{
    lemma_paths_disjoint(g, a, path, q);
    lemma_advanced_owned(g, path, lo, a, b, path);
    lemma_advanced_owned(g, q, 0, b, c, path);
    assert forall|d: u32| g.valid_cluster(d) && marked(raw_entry(a, g, d)) implies #[trigger] raw_entry(
        c,
        g,
        d,
    ) == raw_entry(a, g, d) by {
        assert(raw_entry(b, g, d) == raw_entry(a, g, d));
    }
    assert forall|d: u32|
        g.valid_cluster(d) && marked(raw_entry(a, g, d)) && !path.contains(
            d,
        ) implies #[trigger] cluster_kept(g, a, c, d) by {
        assert(raw_entry(b, g, d) == raw_entry(a, g, d));
        assert(!q.contains(d)) by {
            if q.contains(d) {
                let j = choose|j: int| 0 <= j < q.len() && q[j] == d;
                assert(!marked(raw_entry(a, g, q[j])));
            }
        }
        assert(cluster_kept(g, a, b, d));
        assert(cluster_kept(g, b, c, d));
    }
    assert forall|i: int| 0 <= i < path.len() implies g.valid_cluster(#[trigger] path[i])
        && cluster_kept(g, b, c, path[i]) by {
        assert(g.valid_cluster(path[i]));
        assert(marked(raw_entry(b, g, path[i])));
        assert(!q.contains(path[i]));
    }
    lemma_path_kept(g, b, c, path, 0, lo);
    assert forall|i: int| is_slot(g, path, i) && 0 <= i < lo implies #[trigger] slot(g, c, path, i)
        == slot(g, a, path, i) by {
        assert(slot(g, b, path, i) == slot(g, a, path, i));
    }
    assert(g.valid_cluster(path[0]) && cluster_kept(g, b, c, path[0]));
    lemma_start_kept(g, b, c, path[0]);
}

/// What the walk of a directory, with everything below it, makes of the volume.
pub proof fn lemma_tree_advances(
    g: Geometry,
    mode: RepairMode,
    v: Vol,
    path: Seq<u32>,
    frame: DirFrame,
    room: nat,
)
    requires
        g.wf(v.img.len()),
        thorough(mode),
        owned(g, v.img, path),
        path[0] == dir_start(g, frame.cluster),
        frame_ok(g, frame),
        tree_walked(g, v, frame, room, mode).1 is Ok,
        names_fit(g, v.stats, tree_walked(g, v, frame, room, mode).0.stats),
    ensures
        advanced(
            g,
            path,
            frame.resume as int,
            v.img,
            tree_walked(g, v, frame, room, mode).0.img,
        ),
        owned(g, tree_walked(g, v, frame, room, mode).0.img, path),
    decreases room, u32::MAX - frame.resume,
{
    let entered = dir_entered(v, frame);
    let (one, res) = dir_scanned(g, entered, frame, mode);
    let b = tree_walked(g, v, frame, room, mode).0;
    let lo = frame.resume as int;
    lemma_dir_counts(g, entered, frame, mode);
    lemma_dir_scanned_advances(g, entered, frame, mode);
    if let Ok(DirStep::Descend { cluster, resume }) = res {
        let rest = DirFrame { resume, ..frame };
        if room == 0 {
            let skipped = dir_skipped(one);
            lemma_tree_counts(g, skipped, rest, room, mode);
            lemma_dir_advances(g, mode, entered, path, frame);
            lemma_tree_advances(g, mode, skipped, path, rest, room);
            lemma_advanced_trans(g, path, lo, resume as int, v.img, one.img, b.img);
        } else {
            let child = DirFrame { cluster, parent: frame.cluster, resume: 0 };
            let below = tree_walked(g, one, child, (room - 1) as nat, mode).0;
            lemma_tree_counts(g, one, child, (room - 1) as nat, mode);
            lemma_tree_counts(g, below, rest, room, mode);
            let q = lemma_dir_advances(g, mode, entered, path, frame);
            assert(g.valid_cluster(q[0]));
            lemma_tree_advances(g, mode, one, q, child, (room - 1) as nat);
            lemma_advanced_below(g, path, q, lo, v.img, one.img, below.img);
            lemma_tree_advances(g, mode, below, path, rest, room);
            lemma_advanced_trans(g, path, lo, resume as int, v.img, below.img, b.img);
        }
    } else {
        lemma_dir_advances(g, mode, entered, path, frame);
    }
}

} // verus!
