//! What the directory walk counts, it counts up.

use vstd::prelude::*;

use crate::dir::{dir_start, entry_under, place_after, place_at, Cursor, Place};
use crate::dirent::first_cluster;
use crate::entry::{entry_checked, linked_entry_checked, EntrySite};
use crate::geometry::Geometry;
use crate::mode::RepairMode;
use crate::model::Vol;
use crate::scratch::DirFrame;
use crate::stats::{bump, RepairStats};
use crate::walk::{
    dir_entered, dir_scanned, dir_skipped, entry_visited, lemma_dir_scanned_advances, long_name_dropped, no_run,
    scanned_from, short_entry_visited, stack_walked, tree_walked, DirStep, LfnRun, Visit,
};

verus! {

/// Whether no damage that was counted in `a` is missing in `b`. What the walk does not count is the same.
pub open spec fn counted_up(a: RepairStats, b: RepairStats) -> bool {
    &&& a.chains_truncated <= b.chains_truncated
    &&& a.sizes_corrected <= b.sizes_corrected
    &&& a.entries_removed <= b.entries_removed
    &&& a.entries_recovered <= b.entries_recovered
    &&& a.dot_entries_fixed <= b.dot_entries_fixed
    &&& a.cross_links_resolved <= b.cross_links_resolved
    &&& a.dirs_rejected <= b.dirs_rejected
    &&& a.modes_applied == b.modes_applied
    &&& a.mirror_entries_synced == b.mirror_entries_synced
}

/// Checking an entry counts up.
pub proof fn lemma_linked_counts(
    g: Geometry,
    v: Vol,
    first: u32,
    e: Seq<u8>,
    site: EntrySite,
    start: u32,
    mode: RepairMode,
)
    ensures
        counted_up(v.stats, linked_entry_checked(g, v, first, e, site, start, mode).0.stats),
{
}

/// Looking at a short-name entry counts up.
pub proof fn lemma_short_counts(
    g: Geometry,
    v: Vol,
    frame: DirFrame,
    cur: Cursor,
    run_start: u32,
    e: Seq<u8>,
    lfn: LfnRun,
    mode: RepairMode,
)
    ensures
        counted_up(
            v.stats,
            short_entry_visited(g, v, frame, cur, run_start, e, lfn, mode).0.stats,
        ),
{
    let counted = Vol {
        img: v.img,
        stats: RepairStats { files_examined: bump(v.stats.files_examined), ..v.stats },
    };
    let site = EntrySite { pos: cur.pos, run_start, abs_pos: cur.offset(g) as u64 };
    let first = dir_start(g, frame.cluster);
    if let Some(start) = first_cluster(e) {
        lemma_linked_counts(g, counted, first, e, site, start, mode);
    }
    assert(counted_up(v.stats, entry_checked(g, counted, first, e, site, mode).0.stats));
}

/// A visit counts up.
pub proof fn lemma_visit_counts(
    g: Geometry,
    v: Vol,
    frame: DirFrame,
    cur: Cursor,
    lfn: LfnRun,
    mode: RepairMode,
)
    ensures
        counted_up(v.stats, entry_visited(g, v, frame, cur, lfn, mode).0.stats),
{
    reveal(entry_visited);
    let e = entry_under(v.img, g, cur);
    let first = dir_start(g, frame.cluster);
    match lfn.start {
        None => {
            lemma_short_counts(g, v, frame, cur, cur.pos, e, lfn, mode);
        },
        Some(start) => {
            lemma_short_counts(g, v, frame, cur, start, e, lfn, mode);
            let dropped = long_name_dropped(g, v, first, start, cur.pos, mode).0;
            lemma_short_counts(g, dropped, frame, cur, cur.pos, e, lfn, mode);
        },
    }
}

/// A scan counts up.
pub proof fn lemma_scan_counts(
    g: Geometry,
    v: Vol,
    frame: DirFrame,
    cur: Cursor,
    lfn: LfnRun,
    mode: RepairMode,
)
    ensures
        counted_up(v.stats, scanned_from(g, v, frame, cur, lfn, mode).0.stats),
    decreases u32::MAX - cur.pos,
{
    lemma_visit_counts(g, v, frame, cur, lfn, mode);
    let (after, res) = entry_visited(g, v, frame, cur, lfn, mode);
    if let Ok(Visit::Next(rest)) = res {
        if let Place::At(next) = place_after(after.img, g, cur) {
            lemma_scan_counts(g, after, frame, next, rest, mode);
        }
    }
}

/// The scan of a directory counts up.
pub proof fn lemma_dir_counts(g: Geometry, v: Vol, frame: DirFrame, mode: RepairMode)
    ensures
        counted_up(v.stats, dir_scanned(g, v, frame, mode).0.stats),
{
    if let Place::At(cur) = place_at(v.img, g, dir_start(g, frame.cluster), frame.resume) {
        lemma_scan_counts(g, v, frame, cur, no_run(), mode);
    }
}

/// The walk of a directory, with everything below it, counts up.
pub proof fn lemma_tree_counts(g: Geometry, v: Vol, frame: DirFrame, room: nat, mode: RepairMode)
    ensures
        counted_up(v.stats, tree_walked(g, v, frame, room, mode).0.stats),
    decreases room, u32::MAX - frame.resume,
{
    let entered = dir_entered(v, frame);
    lemma_dir_counts(g, entered, frame, mode);
    lemma_dir_scanned_advances(g, entered, frame, mode);
    let (after, res) = dir_scanned(g, entered, frame, mode);
    if let Ok(DirStep::Descend { cluster, resume }) = res {
        let rest = DirFrame { resume, ..frame };
        if room == 0 {
            lemma_tree_counts(g, dir_skipped(after), rest, room, mode);
        } else {
            let child = DirFrame { cluster, parent: frame.cluster, resume: 0 };
            lemma_tree_counts(g, after, child, (room - 1) as nat, mode);
            let below = tree_walked(g, after, child, (room - 1) as nat, mode).0;
            lemma_tree_counts(g, below, rest, room, mode);
        }
    }
}

/// The walk of everything on the stack counts up.
pub proof fn lemma_stack_counts(
    g: Geometry,
    v: Vol,
    stack: Seq<DirFrame>,
    cap: nat,
    mode: RepairMode,
)
    ensures
        counted_up(v.stats, stack_walked(g, v, stack, cap, mode).0.stats),
    decreases stack.len(),
{
    if stack.len() > 0 {
        let room = (cap - stack.len()) as nat;
        lemma_tree_counts(g, v, stack.last(), room, mode);
        let after = tree_walked(g, v, stack.last(), room, mode).0;
        lemma_stack_counts(g, after, stack.drop_last(), cap, mode);
    }
}

} // verus!
