//! What a dry run tells about a repair.

use vstd::prelude::*;

use crate::advance::lemma_path_kept;
use crate::again::no_end;
use crate::chain::{chain_from, chain_scanned, lemma_chain_bounds};
use crate::chain_laws::lemma_chain_linked;
use crate::counts::{
    lemma_dir_counts, lemma_scan_counts, lemma_short_counts, lemma_stack_counts, lemma_tree_counts, lemma_visit_counts,
};
use crate::dir::{dir_start, entry_under, place_after, place_at, starts_directory, Cursor, Place};
use crate::dirent::{first_cluster, is_dir, name_corrupted, short_name};
use crate::dry_walk::{dirs_whole, fresh, lemma_rehearsed_chain, lemma_rehearsed_tree};
use crate::entry::{chain_limit, linked_entry_checked, EntrySite};
use crate::error::Fault;
use crate::fat::{entry_of, marked, raw_entry};
use crate::fs::FsState;
use crate::geometry::Geometry;
use crate::kept::{cluster_kept, data_kept, quiet};
use crate::laws::{
    before, law_every_change_is_reported, lemma_before, lemma_same_divergence, nothing_found, opening, ready,
};
use crate::mode::RepairMode;
use crate::mode_laws::lemma_unmarked_value;
use crate::model::Vol;
use crate::owned::{lemma_chain_claimed, owned, whole_chain};
use crate::passes::{
    compares_mirrors, count_diverging, diverges, lemma_restored_divergence, lemma_rewrite_entries, lemma_unmarked,
    markers_cleared, mirrors_synced, unmarked,
};
use crate::phases::{lemma_fat_prepared, lemma_walk_kept, prepared};
use crate::repair::{
    fat_checked, markers_prepared, mirrors_checked, repaired, scans_root, signatures_checked, tree_checked,
};
use crate::repeat_laws::lemma_only_root;
use crate::scratch::DirFrame;
use crate::stale::same_report;
use crate::stats::{bump, RepairStats};
use crate::visits::{fit_name, same_slots, thorough};
use crate::walk::{
    dir_entered, dir_scanned, dir_skipped, entry_visited, lemma_dir_scanned_advances, long_name_dropped, no_run,
    root_frame, scanned_from, short_entry_visited, stack_walked, tree_walked, DirStep, LfnRun, Visit,
};

verus! {

/// A state with another record of what was carried out.
pub open spec fn recorded(v: Vol, modes: RepairMode) -> Vol {
    Vol { img: v.img, stats: RepairStats { modes_applied: modes, ..v.stats } }
}

/// Whether `dry` writes nothing, and `mode` writes no markers.
pub open spec fn dry_and_real(dry: RepairMode, mode: RepairMode) -> bool {
    !dry.writes() && !mode.marks()
}

/// Where a dry run finds nothing wrong with an entry, a repair does the same.
proof fn lemma_dry_linked(
    g: Geometry,
    v: Vol,
    first: u32,
    e: Seq<u8>,
    site: EntrySite,
    start: u32,
    dry: RepairMode,
    mode: RepairMode,
    modes: RepairMode,
)
    requires
        dry_and_real(dry, mode),
        g.valid_cluster(start),
        quiet(v.stats, linked_entry_checked(g, v, first, e, site, start, dry).0.stats),
    ensures
        ({
            let (b, res) = linked_entry_checked(g, v, first, e, site, start, dry);
            linked_entry_checked(g, recorded(v, modes), first, e, site, start, mode) == (
                recorded(b, modes),
                res,
            )
        }),
{
    if is_dir(e) && !starts_directory(v.img, g, start) {
        lemma_chain_linked(v.img, g, start, None, false);
        let walk = chain_from(v.img, g, start, None, false);
        assert(g.valid_cluster(start) && walk.path.len() > 0 ==> !walk.truncated);
    } else {
        let limit = chain_limit(g, e);
        lemma_chain_linked(v.img, g, start, limit, false);
        assert(!name_corrupted(short_name(e)));
        let walk = chain_from(v.img, g, start, limit, false);
        assert(g.valid_cluster(start) ==> !walk.truncated);
    }
}

/// Where a dry run finds nothing wrong with a short-name entry, a repair does the same.
proof fn lemma_dry_short(
    g: Geometry,
    v: Vol,
    frame: DirFrame,
    cur: Cursor,
    run_start: u32,
    e: Seq<u8>,
    lfn: LfnRun,
    dry: RepairMode,
    mode: RepairMode,
    modes: RepairMode,
)
    requires
        dry_and_real(dry, mode),
        quiet(v.stats, short_entry_visited(g, v, frame, cur, run_start, e, lfn, dry).0.stats),
    ensures
        ({
            let (b, res) = short_entry_visited(g, v, frame, cur, run_start, e, lfn, dry);
            short_entry_visited(g, recorded(v, modes), frame, cur, run_start, e, lfn, mode) == (
                recorded(b, modes),
                res,
            )
        }),
{
    let counted = Vol {
        img: v.img,
        stats: RepairStats { files_examined: bump(v.stats.files_examined), ..v.stats },
    };
    let site = EntrySite { pos: cur.pos, run_start, abs_pos: cur.offset(g) as u64 };
    let dir = dir_start(g, frame.cluster);
    if let Some(start) = first_cluster(e) {
        if g.valid_cluster(start) && quiet(
            v.stats,
            linked_entry_checked(g, counted, dir, e, site, start, dry).0.stats,
        ) {
            lemma_dry_linked(g, counted, dir, e, site, start, dry, mode, modes);
        }
    }
}

/// Where a dry run finds nothing wrong with a visit, a repair does the same.
proof fn lemma_dry_visit(
    g: Geometry,
    v: Vol,
    frame: DirFrame,
    cur: Cursor,
    lfn: LfnRun,
    dry: RepairMode,
    mode: RepairMode,
    modes: RepairMode,
)
    requires
        dry_and_real(dry, mode),
        quiet(v.stats, entry_visited(g, v, frame, cur, lfn, dry).0.stats),
    ensures
        ({
            let (b, res) = entry_visited(g, v, frame, cur, lfn, dry);
            entry_visited(g, recorded(v, modes), frame, cur, lfn, mode) == (
                recorded(b, modes),
                res,
            )
        }),
{
    reveal(entry_visited);
    let e = entry_under(v.img, g, cur);
    let run_start = match lfn.start {
        None => cur.pos,
        Some(start) => start,
    };
    if let Some(start) = lfn.start {
        let dropped = long_name_dropped(g, v, dir_start(g, frame.cluster), start, cur.pos, dry).0;
        lemma_short_counts(g, dropped, frame, cur, cur.pos, e, lfn, dry);
    }
    if quiet(v.stats, short_entry_visited(g, v, frame, cur, run_start, e, lfn, dry).0.stats) {
        lemma_dry_short(g, v, frame, cur, run_start, e, lfn, dry, mode, modes);
    }
}

/// Where a dry run finds nothing wrong with a scan, a repair does the same.
proof fn lemma_dry_scan(
    g: Geometry,
    v: Vol,
    frame: DirFrame,
    cur: Cursor,
    lfn: LfnRun,
    dry: RepairMode,
    mode: RepairMode,
    modes: RepairMode,
)
    requires
        dry_and_real(dry, mode),
        quiet(v.stats, scanned_from(g, v, frame, cur, lfn, dry).0.stats),
    ensures
        ({
            let (b, res) = scanned_from(g, v, frame, cur, lfn, dry);
            scanned_from(g, recorded(v, modes), frame, cur, lfn, mode) == (recorded(b, modes), res)
        }),
    decreases u32::MAX - cur.pos,
{
    let (after, res) = entry_visited(g, v, frame, cur, lfn, dry);
    lemma_visit_counts(g, v, frame, cur, lfn, dry);
    if let Ok(Visit::Next(rest)) = res {
        if let Place::At(next) = place_after(after.img, g, cur) {
            lemma_scan_counts(g, after, frame, next, rest, dry);
            lemma_dry_scan(g, after, frame, next, rest, dry, mode, modes);
        }
    }
    lemma_dry_visit(g, v, frame, cur, lfn, dry, mode, modes);
}

/// Where a dry run finds nothing wrong with a directory, a repair does the same.
proof fn lemma_dry_dir(
    g: Geometry,
    v: Vol,
    frame: DirFrame,
    dry: RepairMode,
    mode: RepairMode,
    modes: RepairMode,
)
    requires
        dry_and_real(dry, mode),
        quiet(v.stats, dir_scanned(g, v, frame, dry).0.stats),
    ensures
        ({
            let (b, res) = dir_scanned(g, v, frame, dry);
            dir_scanned(g, recorded(v, modes), frame, mode) == (recorded(b, modes), res)
        }),
{
    if let Place::At(cur) = place_at(v.img, g, dir_start(g, frame.cluster), frame.resume) {
        lemma_dry_scan(g, v, frame, cur, no_run(), dry, mode, modes);
    }
}

/// Where a dry run finds nothing wrong with a directory and what is below it, a repair does the same.
proof fn lemma_dry_tree(
    g: Geometry,
    v: Vol,
    frame: DirFrame,
    room: nat,
    dry: RepairMode,
    mode: RepairMode,
    modes: RepairMode,
)
    requires
        dry_and_real(dry, mode),
        quiet(v.stats, tree_walked(g, v, frame, room, dry).0.stats),
    ensures
        ({
            let (b, res) = tree_walked(g, v, frame, room, dry);
            tree_walked(g, recorded(v, modes), frame, room, mode) == (recorded(b, modes), res)
        }),
    decreases room, u32::MAX - frame.resume,
{
    let entered = dir_entered(v, frame);
    let (after, res) = dir_scanned(g, entered, frame, dry);
    lemma_dir_counts(g, entered, frame, dry);
    lemma_dir_scanned_advances(g, entered, frame, dry);
    if let Ok(DirStep::Descend { cluster, resume }) = res {
        let rest = DirFrame { resume, ..frame };
        if room == 0 {
            lemma_tree_counts(g, dir_skipped(after), rest, room, dry);
            lemma_dry_dir(g, entered, frame, dry, mode, modes);
            lemma_dry_tree(g, dir_skipped(after), rest, room, dry, mode, modes);
        } else {
            let child = DirFrame { cluster, parent: frame.cluster, resume: 0 };
            let (below, done) = tree_walked(g, after, child, (room - 1) as nat, dry);
            lemma_tree_counts(g, after, child, (room - 1) as nat, dry);
            lemma_tree_counts(g, below, rest, room, dry);
            lemma_dry_dir(g, entered, frame, dry, mode, modes);
            lemma_dry_tree(g, after, child, (room - 1) as nat, dry, mode, modes);
            if done is Ok {
                lemma_dry_tree(g, below, rest, room, dry, mode, modes);
            }
        }
    } else {
        lemma_dry_dir(g, entered, frame, dry, mode, modes);
    }
}

/// Where a dry run finds nothing wrong with what is on the stack, a repair does the same.
proof fn lemma_dry_stack(
    g: Geometry,
    v: Vol,
    stack: Seq<DirFrame>,
    cap: nat,
    dry: RepairMode,
    mode: RepairMode,
    modes: RepairMode,
)
    requires
        dry_and_real(dry, mode),
        quiet(v.stats, stack_walked(g, v, stack, cap, dry).0.stats),
    ensures
        ({
            let (b, res) = stack_walked(g, v, stack, cap, dry);
            stack_walked(g, recorded(v, modes), stack, cap, mode) == (recorded(b, modes), res)
        }),
    decreases stack.len(),
{
    if stack.len() > 0 {
        let room = (cap - stack.len()) as nat;
        let (after, res) = tree_walked(g, v, stack.last(), room, dry);
        lemma_tree_counts(g, v, stack.last(), room, dry);
        if res is Ok {
            lemma_stack_counts(g, after, stack.drop_last(), cap, dry);
        }
        lemma_dry_tree(g, v, stack.last(), room, dry, mode, modes);
        if res is Ok {
            lemma_dry_stack(g, after, stack.drop_last(), cap, dry, mode, modes);
        }
    }
}

/// Whether two modes ask for the same checks of the FAT, of the chain of the root directory and of the `FSInfo` sector.
/// The directory walk looks for all of its classes in any mode.
pub open spec fn same_checks(dry: RepairMode, mode: RepairMode) -> bool {
    &&& dry.contains(RepairMode::fat_signatures()) == mode.contains(RepairMode::fat_signatures())
    &&& dry.contains(RepairMode::fat_mirrors()) == mode.contains(RepairMode::fat_mirrors())
    &&& dry.contains(RepairMode::chains()) == mode.contains(RepairMode::chains())
    &&& dry.contains(RepairMode::fs_info()) == mode.contains(RepairMode::fs_info())
}

/// Where no entry is disputed, there is nothing to copy over the mirrors.
proof fn lemma_nothing_to_sync(img: Seq<u8>, g: Geometry, n: int)
    requires
        count_diverging(img, g, n) == 0,
    ensures
        mirrors_synced(img, g, n) == img,
    decreases n,
{
    if n > 0 {
        lemma_nothing_to_sync(img, g, n - 1);
    }
}

/// Whether a report shows nothing that a repair changes something for, the `FSInfo` sector aside.
pub open spec fn nothing_to_repair(stats: RepairStats) -> bool {
    &&& nothing_found(stats)
    &&& stats.reserved_entries_restored == 0
    &&& stats.mirror_entries_synced == 0
}

/// Where a dry run finds nothing wrong with the FAT and the chain of the root directory, a repair does the same.
proof fn lemma_dry_fat(g: Geometry, v: Vol, dry: RepairMode, mode: RepairMode, modes: RepairMode)
    requires
        dry_and_real(dry, mode),
        mode.writes(),
        same_checks(dry, mode),
        v.stats.reserved_entries_restored == 0,
        v.stats.mirror_entries_synced == 0,
        v.stats.chains_truncated == 0,
        fat_checked(g, v, dry).stats.reserved_entries_restored == 0,
        fat_checked(g, v, dry).stats.mirror_entries_synced == 0,
        fat_checked(g, v, dry).stats.chains_truncated == 0,
    ensures
        fat_checked(g, recorded(v, modes), mode) == recorded(fat_checked(g, v, dry), modes),
{
    let r = recorded(v, modes);
    let one = signatures_checked(g, markers_prepared(g, v, dry), dry);
    assert(signatures_checked(g, markers_prepared(g, r, mode), mode) == recorded(one, modes));
    if compares_mirrors(g, dry) {
        lemma_nothing_to_sync(one.img, g, g.fat_entries());
    }
    let two = mirrors_checked(g, one, dry);
    assert(mirrors_checked(g, recorded(one, modes), mode) == recorded(two, modes));
    assert(two.img == v.img);
    if scans_root(dry) {
        let root = g.root_dir_first_cluster;
        let walk = chain_from(v.img, g, root, None, false);
        assert(g.valid_cluster(root) ==> !walk.truncated);
    }
}

/// A dry run that finds nothing to repair tells the truth, as far as it can see without writing markers: a repair that
/// asks for the same checks, and does not mark, reports the same. It leaves everything behind the FAT as it is, and the
/// FAT entry of every cluster.
pub proof fn law_dry_run_finding_nothing(
    g: Geometry,
    s: FsState,
    dry: RepairMode,
    mode: RepairMode,
    room: nat,
)
    requires
        ready(g, s),
        !dry.writes(),
        mode.writes(),
        !mode.marks(),
        same_checks(dry, mode),
        repaired(g, s, dry, room).1 matches Ok(stats) && nothing_to_repair(stats),
    ensures
        ({
            let (t, res) = repaired(g, s, mode, room);
            let told = repaired(g, s, dry, room).1->Ok_0;
            &&& res == Ok::<RepairStats, Fault>(RepairStats { modes_applied: mode, ..told })
            &&& data_kept(g, s.img, t.img)
            &&& forall|c: u32|
                g.valid_cluster(c) ==> unmarked(#[trigger] raw_entry(t.img, g, c)) == unmarked(
                    raw_entry(before(g, s), g, c),
                ) && marked(raw_entry(t.img, g, c)) == marked(raw_entry(before(g, s), g, c))
        }),
{
    let v = opening(g, s, dry);
    let r = opening(g, s, mode);
    lemma_before(g, s);
    lemma_walk_kept(g, dry, v, room);
    assert(r == recorded(v, mode));
    let checked = fat_checked(g, v, dry);
    let frames = seq![root_frame()];
    lemma_stack_counts(g, checked, frames, room, dry);
    lemma_dry_fat(g, v, dry, mode, mode);
    assert(quiet(checked.stats, stack_walked(g, checked, frames, room, dry).0.stats));
    lemma_dry_stack(g, checked, frames, room, dry, mode, mode);
    let (walked, done) = tree_checked(g, v, dry, room);
    assert(tree_checked(g, r, mode, room) == (recorded(walked, mode), done));
    law_every_change_is_reported(g, s, mode, room);
}

/// A dry run counts the damage to the FAT itself just as a repair does that asks for the same checks, and either does
/// not mark, or finds no markers left over.
pub proof fn law_dry_run_counts_the_fat(
    g: Geometry,
    s: FsState,
    dry: RepairMode,
    mode: RepairMode,
    room: nat,
)
    requires
        ready(g, s),
        !dry.writes(),
        mode.writes(),
        mode.marks() ==> markers_cleared(before(g, s), g) == before(g, s),
        same_checks(dry, mode),
        repaired(g, s, dry, room).1 is Ok,
        repaired(g, s, mode, room).1 is Ok,
    ensures
        ({
            let told = repaired(g, s, dry, room).1->Ok_0;
            let done = repaired(g, s, mode, room).1->Ok_0;
            &&& told.reserved_entries_restored == done.reserved_entries_restored
            &&& told.mirror_entries_synced == done.mirror_entries_synced
        }),
{
    let v = opening(g, s, dry);
    let r = opening(g, s, mode);
    lemma_before(g, s);
    lemma_walk_kept(g, dry, v, room);
    lemma_walk_kept(g, mode, r, room);
    let one = signatures_checked(g, markers_prepared(g, v, dry), dry);
    let two = signatures_checked(g, markers_prepared(g, r, mode), mode);
    assert forall|c: u32| c < g.fat_entries() implies #[trigger] diverges(one.img, g, c) == diverges(
        two.img,
        g,
        c,
    ) by {
        lemma_restored_divergence(g, v.img, c);
    }
    lemma_same_divergence(g, one.img, two.img, g.fat_entries());
}

/// Whether two reports tell of the same damage to the tree. What was synced, what was reclaimed and whether the
/// `FSInfo` sector was wrong are not part of it.
pub open spec fn same_findings(a: RepairStats, b: RepairStats) -> bool {
    a == (RepairStats {
        modes_applied: a.modes_applied,
        mirror_entries_synced: a.mirror_entries_synced,
        fsinfo_corrected: a.fsinfo_corrected,
        orphans_freed: a.orphans_freed,
        clusters_freed: a.clusters_freed,
        ..b
    })
}

/// Up to where the walk begins, a dry run sees what a repair does.
proof fn lemma_dry_prepared(g: Geometry, v: Vol, w: Vol, dry: RepairMode, mode: RepairMode)
    requires
        g.wf(v.img.len()),
        v.img == w.img,
        same_report(v.stats, w.stats),
        !dry.writes(),
        mode.marks(),
        same_checks(dry, mode),
    ensures
        prepared(g, v, dry).img == v.img,
        same_report(prepared(g, v, dry).stats, prepared(g, w, mode).stats),
        fresh(g, v.img, prepared(g, w, mode).img),
        forall|c: u32|
            g.valid_cluster(c) ==> !marked(#[trigger] raw_entry(prepared(g, w, mode).img, g, c)),
        prepared(g, w, mode).stats.cross_links_resolved == w.stats.cross_links_resolved,
        prepared(g, w, mode).stats.dirs_rejected == w.stats.dirs_rejected,
        prepared(g, w, mode).stats.entries_recovered == w.stats.entries_recovered,
{
    let b = prepared(g, w, mode);
    lemma_fat_prepared(g, mode, w);
    assert forall|c: u32| g.valid_cluster(c) implies !marked(#[trigger] raw_entry(b.img, g, c))
        && entry_of(raw_entry(b.img, g, c)) == entry_of(raw_entry(v.img, g, c)) by {
        lemma_unmarked(raw_entry(w.img, g, c));
        lemma_unmarked_value(raw_entry(w.img, g, c));
    }
    assert forall|c: u32| g.valid_cluster(c) implies #[trigger] cluster_kept(g, v.img, b.img, c) by {
        g.lemma_cluster_bounds(v.img.len(), c as int);
    }
    // The reserved entries are no clusters, and are never marked.
    let one = markers_prepared(g, w, mode);
    lemma_rewrite_entries(w.img, g, |raw: u32| unmarked(raw), g.fat_entries());
    assert(raw_entry(one.img, g, 0) == raw_entry(w.img, g, 0));
    assert(raw_entry(one.img, g, 1) == raw_entry(w.img, g, 1));
}

/// A dry run sees the root directory that a repair claims.
proof fn lemma_dry_root(g: Geometry, v: Vol, w: Vol, dry: RepairMode, mode: RepairMode)
    requires
        g.wf(v.img.len()),
        v.img == w.img,
        same_report(v.stats, w.stats),
        !dry.writes(),
        thorough(mode),
        same_checks(dry, mode),
        dirs_whole(g, v.img),
        w.stats.cross_links_resolved == 0,
        fat_checked(g, w, mode).stats.cross_links_resolved == 0,
    ensures
        ({
            let path = chain_from(v.img, g, g.root_dir_first_cluster, None, false).path;
            let p = fat_checked(g, v, dry);
            let q = fat_checked(g, w, mode);
            &&& p.img == v.img
            &&& same_report(p.stats, q.stats)
            &&& q.img.len() == v.img.len()
            &&& fresh(g, v.img, q.img)
            &&& owned(g, q.img, path)
            &&& whole_chain(g, v.img, path)
            &&& path[0] == g.root_dir_first_cluster
            &&& same_slots(g, v.img, q.img, path, 0, no_end())
            &&& q.stats.dirs_rejected == w.stats.dirs_rejected
            &&& q.stats.entries_recovered == w.stats.entries_recovered
        }),
{
    let root = g.root_dir_first_cluster;
    let a = prepared(g, v, dry);
    let b = prepared(g, w, mode);
    let path = chain_from(v.img, g, root, None, false).path;
    lemma_dry_prepared(g, v, w, dry, mode);
    lemma_rehearsed_chain(g, a, b, root, None, dry, mode);
    lemma_chain_linked(v.img, g, root, None, false);
    lemma_chain_bounds(v.img, g, root, None, false);
    lemma_chain_claimed(g, mode, b, root, None);
    let q = fat_checked(g, w, mode);
    assert(q == chain_scanned(g, b, root, None, mode));
    assert forall|c: u32| g.valid_cluster(c) implies #[trigger] cluster_kept(g, v.img, q.img, c) by {
        g.lemma_cluster_bounds(v.img.len(), c as int);
        assert(cluster_kept(g, v.img, b.img, c));
    }
    assert forall|c: u32| g.valid_cluster(c) && !marked(#[trigger] raw_entry(q.img, g, c)) implies entry_of(
        raw_entry(q.img, g, c),
    ) == entry_of(raw_entry(v.img, g, c)) by {
        assert(raw_entry(q.img, g, c) == raw_entry(b.img, g, c));
    }
    assert forall|i: int| 0 <= i < path.len() implies g.valid_cluster(#[trigger] path[i])
        && cluster_kept(g, v.img, q.img, path[i]) by {
        assert(g.valid_cluster(path[i]));
    }
    lemma_path_kept(g, v.img, q.img, path, 0, no_end());
}

/// A dry run tells beforehand what a repair will find wrong with the tree: where the chain of every directory is whole,
/// and the repair finds no cross link and rejects no directory, both count the same damage. The repair is one that
/// marks and repairs all that its walk finds; it gives no unfit name.
pub proof fn law_dry_run_counts_the_tree(
    g: Geometry,
    s: FsState,
    dry: RepairMode,
    mode: RepairMode,
    room: nat,
)
    requires
        ready(g, s),
        !dry.writes(),
        thorough(mode),
        same_checks(dry, mode),
        dirs_whole(g, before(g, s)),
        repaired(g, s, mode, room).1 matches Ok(stats) && stats.cross_links_resolved == 0
            && stats.dirs_rejected == 0 && (fit_name(g.volume_label@) || stats.entries_recovered
            == 0),
    ensures
        repaired(g, s, dry, room).1 matches Ok(told) && same_findings(
            told,
            repaired(g, s, mode, room).1->Ok_0,
        ),
{
    let v = opening(g, s, dry);
    let w = opening(g, s, mode);
    let depth = (room - 1) as nat;
    lemma_before(g, s);
    lemma_walk_kept(g, mode, w, room);
    lemma_only_root(g, v, dry, room);
    lemma_only_root(g, w, mode, room);
    let q = fat_checked(g, w, mode);
    lemma_tree_counts(g, q, root_frame(), depth, mode);
    lemma_dry_root(g, v, w, dry, mode);
    let path = chain_from(v.img, g, g.root_dir_first_cluster, None, false).path;
    lemma_rehearsed_tree(g, fat_checked(g, v, dry), q, path, root_frame(), depth, dry, mode);
}

} // verus!
