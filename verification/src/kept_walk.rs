//! The directory walk keeps what it has to keep, step by step.

use vstd::prelude::*;

use crate::chain::{chain_from, chain_scanned};
use crate::chain_laws::lemma_chain_linked;
use crate::dir::{
    dir_start, entry_at, entry_deleted, entry_under, fields_put, lemma_entry_bounds, lemma_nth_cluster,
    lemma_place_after, link_of, nth_cluster, place_after, starts_directory, Cursor, Link, Place,
};
use crate::dirent::{
    file_size, first_cluster, is_deleted, is_dir, is_end, is_lfn, name_corrupted, recovered_name, short_name,
    with_cluster, with_size,
};
use crate::entry::{
    capacity_of, chain_limit, dir_rejected, dot_fixed, dot_target, emptied, entries_between, entries_deleted,
    entry_checked, entry_discarded, linked_entry_checked, renamed, resized, run_removed, EntrySite,
};
use crate::geometry::{Geometry, DIR_ENTRY_SIZE};
use crate::kept::{
    cluster_kept, contained, edits_dirs, img_kept, in_dir, in_dirs, kept, lemma_chain_kept, lemma_edit_kept,
    lemma_kept_self, lemma_kept_trans, stats_kept,
};
use crate::mode::RepairMode;
use crate::model::Vol;
use crate::scratch::DirFrame;
use crate::stats::{bump, RepairStats};
use crate::walk::{
    dir_entered, dir_scanned, dir_skipped, entry_visited, frame_ok, label_checked, lemma_dir_scanned_advances,
    long_name_dropped, no_run, run_matches, run_ok, scanned_from, short_entry_visited, stack_walked, tree_walked,
    DirStep, LfnRun, Visit,
};

verus! {

/// Whether the walk took `a` to `b` without leaving the directories of `origin`.
pub open spec fn stays(g: Geometry, mode: RepairMode, origin: Seq<u8>, a: Vol, b: Vol) -> bool {
    kept(g, mode, a, b) && contained(g, origin, b.img)
}

/// A link leads from a directory to a directory.
proof fn lemma_dirs_link(g: Geometry, origin: Seq<u8>, img: Seq<u8>, c: u32, next: u32)
    requires
        contained(g, origin, img),
        g.valid_cluster(c),
        in_dirs(g, origin, c),
        link_of(img, g, c) == Link::To(next),
    ensures
        in_dirs(g, origin, next),
{
    let (first, k) = choose|first: u32, k: nat| in_dir(g, origin, first, k, c);
    assert(link_of(origin, g, c) == Link::To(next));
    assert(nth_cluster(origin, g, first, k + 1) == Link::To(next));
    assert(in_dir(g, origin, first, k + 1, next));
}

/// Every cluster behind one that belongs to a directory belongs to a directory.
pub proof fn lemma_dirs_nth(g: Geometry, origin: Seq<u8>, img: Seq<u8>, first: u32, k: nat, c: u32)
    requires
        contained(g, origin, img),
        g.valid_cluster(first),
        in_dirs(g, origin, first),
        nth_cluster(img, g, first, k) == Link::To(c),
    ensures
        in_dirs(g, origin, c),
        g.valid_cluster(c),
    decreases k,
{
    lemma_nth_cluster(img, g, first, k);
    if k > 0 {
        let b = nth_cluster(img, g, first, (k - 1) as nat)->To_0;
        lemma_dirs_nth(g, origin, img, first, (k - 1) as nat, b);
        lemma_dirs_link(g, origin, img, b, c);
    }
}

/// A cluster that starts a directory now belonged to one from the start.
proof fn lemma_dirs_start(g: Geometry, origin: Seq<u8>, img: Seq<u8>, c: u32)
    requires
        g.wf(img.len()),
        contained(g, origin, img),
        g.valid_cluster(c),
        starts_directory(img, g, c),
    ensures
        in_dirs(g, origin, c),
{
    if !in_dirs(g, origin, c) {
        assert(cluster_kept(g, origin, img, c));
        g.lemma_cluster_bounds(img.len(), c as int);
        let at = g.cluster_start(c as int);
        assert(entry_at(img, at) =~= entry_at(origin, at));
        assert(entry_at(img, at + DIR_ENTRY_SIZE) =~= entry_at(origin, at + DIR_ENTRY_SIZE));
        assert(in_dir(g, origin, c, 0, c));
    }
}

/// The root directory is a directory.
pub proof fn lemma_dirs_root(g: Geometry, origin: Seq<u8>)
    requires
        g.valid_cluster(g.root_dir_first_cluster),
    ensures
        in_dirs(g, origin, g.root_dir_first_cluster),
{
    let root = g.root_dir_first_cluster;
    assert(in_dir(g, origin, root, 0, root));
}

/// The place behind an entry of a directory is in a directory.
pub proof fn lemma_dirs_after(g: Geometry, origin: Seq<u8>, img: Seq<u8>, cur: Cursor)
    requires
        contained(g, origin, img),
        cur.wf(g),
        in_dirs(g, origin, cur.cluster),
    ensures
        place_after(img, g, cur) matches Place::At(next) ==> next.wf(g) && in_dirs(
            g,
            origin,
            next.cluster,
        ) && next.pos == cur.pos + DIR_ENTRY_SIZE,
{
    lemma_place_after(img, g, cur);
    if let Place::At(next) = place_after(img, g, cur) {
        if next.cluster != cur.cluster {
            lemma_dirs_link(g, origin, img, cur.cluster, next.cluster);
        }
    }
}

proof fn lemma_entries_deleted_kept(
    g: Geometry,
    mode: RepairMode,
    origin: Seq<u8>,
    img: Seq<u8>,
    cur: Cursor,
    count: nat,
)
    requires
        g.wf(img.len()),
        mode.writes(),
        edits_dirs(mode),
        contained(g, origin, img),
        cur.wf(g),
        in_dirs(g, origin, cur.cluster),
    ensures
        img_kept(g, mode, img, entries_deleted(img, g, cur, count).0),
        contained(g, origin, entries_deleted(img, g, cur, count).0),
    decreases count,
{
    if count > 0 {
        let next = entry_deleted(img, cur.offset(g));
        lemma_edit_kept(g, mode, origin, img, cur, 0, seq![0xE5u8]);
        lemma_dirs_after(g, origin, next, cur);
        if count > 1 {
            if let Place::At(there) = place_after(next, g, cur) {
                lemma_entries_deleted_kept(g, mode, origin, next, there, (count - 1) as nat);
            }
        }
    }
}

/// Removing a run of entries stays in the directory.
pub proof fn lemma_run_removed_stays(
    g: Geometry,
    mode: RepairMode,
    origin: Seq<u8>,
    v: Vol,
    first: u32,
    start: u32,
    count: nat,
    flag: RepairMode,
)
    requires
        g.wf(v.img.len()),
        contained(g, origin, v.img),
        g.valid_cluster(first),
        in_dirs(g, origin, first),
        start % DIR_ENTRY_SIZE == 0,
        mode.applies(flag) ==> edits_dirs(mode),
    ensures
        stays(g, mode, origin, v, run_removed(g, v, first, start, count, mode, flag).0),
{
    if mode.applies(flag) {
        let k = (start / g.cluster_size) as nat;
        if let Link::To(c) = nth_cluster(v.img, g, first, k) {
            lemma_dirs_nth(g, origin, v.img, first, k, c);
            let cur = Cursor { pos: start, cluster: c };
            lemma_entries_deleted_kept(g, mode, origin, v.img, cur, count);
        }
    }
}

/// What the checks of a single entry need to know.
pub open spec fn entry_in_dir(
    g: Geometry,
    origin: Seq<u8>,
    v: Vol,
    first: u32,
    cur: Cursor,
    e: Seq<u8>,
) -> bool {
    &&& g.wf(v.img.len())
    &&& contained(g, origin, v.img)
    &&& g.valid_cluster(first)
    &&& in_dirs(g, origin, first)
    &&& cur.wf(g)
    &&& in_dirs(g, origin, cur.cluster)
    &&& e.len() == DIR_ENTRY_SIZE
}

proof fn lemma_fields_put_kept(
    g: Geometry,
    mode: RepairMode,
    origin: Seq<u8>,
    img: Seq<u8>,
    cur: Cursor,
    e: Seq<u8>,
)
    requires
        g.wf(img.len()),
        mode.writes(),
        edits_dirs(mode),
        contained(g, origin, img),
        cur.wf(g),
        in_dirs(g, origin, cur.cluster),
        e.len() == DIR_ENTRY_SIZE,
    ensures
        img_kept(g, mode, img, fields_put(img, cur.offset(g), e)),
        contained(g, origin, fields_put(img, cur.offset(g), e)),
{
    lemma_edit_kept(g, mode, origin, img, cur, 20, e.subrange(20, 32));
}

proof fn lemma_dot_fixed_stays(
    g: Geometry,
    mode: RepairMode,
    origin: Seq<u8>,
    v: Vol,
    first: u32,
    cur: Cursor,
    e: Seq<u8>,
    frame: DirFrame,
)
    requires
        entry_in_dir(g, origin, v, first, cur, e),
    ensures
        stays(g, mode, origin, v, dot_fixed(v, mode, frame, e, cur.offset(g))),
{
    if mode.applies(RepairMode::entry_validity()) {
        let fixed = with_cluster(e, dot_target(frame, e));
        lemma_fields_put_kept(g, mode, origin, v.img, cur, fixed);
    }
}

proof fn lemma_resized_stays(
    g: Geometry,
    mode: RepairMode,
    origin: Seq<u8>,
    v: Vol,
    first: u32,
    cur: Cursor,
    e: Seq<u8>,
    flag: RepairMode,
    size: u32,
)
    requires
        entry_in_dir(g, origin, v, first, cur, e),
        mode.applies(flag) ==> edits_dirs(mode),
    ensures
        stays(g, mode, origin, v, resized(v, mode, flag, e, cur.offset(g), size)),
{
    if mode.applies(flag) {
        lemma_fields_put_kept(g, mode, origin, v.img, cur, with_size(e, size));
    }
}

proof fn lemma_emptied_stays(
    g: Geometry,
    mode: RepairMode,
    origin: Seq<u8>,
    v: Vol,
    first: u32,
    cur: Cursor,
    e: Seq<u8>,
)
    requires
        entry_in_dir(g, origin, v, first, cur, e),
    ensures
        img_kept(g, mode, v.img, emptied(v, mode, e, cur.offset(g)).img),
        stats_kept(v.stats, emptied(v, mode, e, cur.offset(g)).stats),
        contained(g, origin, emptied(v, mode, e, cur.offset(g)).img),
{
    if mode.applies(RepairMode::chains()) {
        lemma_fields_put_kept(g, mode, origin, v.img, cur, with_cluster(with_size(e, 0), 0));
    }
}

pub proof fn lemma_renamed_stays(
    g: Geometry,
    mode: RepairMode,
    origin: Seq<u8>,
    v: Vol,
    first: u32,
    cur: Cursor,
    e: Seq<u8>,
)
    requires
        entry_in_dir(g, origin, v, first, cur, e),
    ensures
        stays(g, mode, origin, v, renamed(v, mode, cur.offset(g))),
{
    if mode.applies(RepairMode::entry_validity()) {
        let name = recovered_name(v.stats.entries_recovered);
        lemma_edit_kept(g, mode, origin, v.img, cur, 0, name);
    }
}

proof fn lemma_label_checked_stays(
    g: Geometry,
    mode: RepairMode,
    origin: Seq<u8>,
    v: Vol,
    first: u32,
    cur: Cursor,
    e: Seq<u8>,
)
    requires
        entry_in_dir(g, origin, v, first, cur, e),
    ensures
        stays(g, mode, origin, v, label_checked(g, v, e, cur.offset(g), mode)),
{
    if mode.applies(RepairMode::entry_validity()) {
        lemma_edit_kept(g, mode, origin, v.img, cur, 0, g.volume_label@);
    }
}

proof fn lemma_linked_entry_stays(
    g: Geometry,
    mode: RepairMode,
    origin: Seq<u8>,
    v: Vol,
    first: u32,
    cur: Cursor,
    e: Seq<u8>,
    site: EntrySite,
    start: u32,
)
    requires
        entry_in_dir(g, origin, v, first, cur, e),
        site.wf(),
        site.abs_pos == cur.offset(g),
        g.valid_cluster(start),
    ensures
        stays(g, mode, origin, v, linked_entry_checked(g, v, first, e, site, start, mode).0),
        linked_entry_checked(g, v, first, e, site, start, mode).1 matches Ok(Some(c))
            ==> g.valid_cluster(c) && in_dirs(g, origin, c),
{
    let at = cur.offset(g);
    if is_dir(e) && !starts_directory(v.img, g, start) {
        lemma_rejected_stays(g, mode, origin, v, start);
    } else {
        if is_dir(e) {
            lemma_dirs_start(g, origin, v.img, start);
        }
        lemma_true_entry_stays(g, mode, origin, v, first, cur, e, site, start);
    }
}

pub proof fn lemma_rejected_stays(g: Geometry, mode: RepairMode, origin: Seq<u8>, v: Vol, start: u32)
    requires
        g.wf(v.img.len()),
        contained(g, origin, v.img),
    ensures
        stays(g, mode, origin, v, dir_rejected(g, v, start, mode)),
{
    let judged = Vol {
        img: v.img,
        stats: RepairStats { dirs_rejected: bump(v.stats.dirs_rejected), ..v.stats },
    };
    assert(kept(g, mode, v, judged));
    lemma_chain_kept(g, mode, origin, judged, start, None);
    lemma_kept_trans(g, mode, v, judged, chain_scanned(g, judged, start, None, mode));
}

proof fn lemma_true_entry_stays(
    g: Geometry,
    mode: RepairMode,
    origin: Seq<u8>,
    v: Vol,
    first: u32,
    cur: Cursor,
    e: Seq<u8>,
    site: EntrySite,
    start: u32,
)
    requires
        entry_in_dir(g, origin, v, first, cur, e),
        site.wf(),
        site.abs_pos == cur.offset(g),
        g.valid_cluster(start),
        is_dir(e) ==> starts_directory(v.img, g, start) && in_dirs(g, origin, start),
    ensures
        stays(g, mode, origin, v, linked_entry_checked(g, v, first, e, site, start, mode).0),
        linked_entry_checked(g, v, first, e, site, start, mode).1 matches Ok(Some(c))
            ==> g.valid_cluster(c) && in_dirs(g, origin, c),
{
    let at = cur.offset(g);
    let named = if name_corrupted(short_name(e)) {
        renamed(v, mode, at)
    } else {
        v
    };
    lemma_kept_self(g, mode, v);
    if name_corrupted(short_name(e)) {
        lemma_renamed_stays(g, mode, origin, v, first, cur, e);
    }
    let limit = chain_limit(g, e);
    let walk = chain_from(named.img, g, start, limit, mode.marks());
    let scanned = chain_scanned(g, named, start, limit, mode);
    lemma_chain_kept(g, mode, origin, named, start, limit);
    lemma_kept_trans(g, mode, v, named, scanned);
    let reachable = capacity_of(g, walk.path.len() as int);
    let after = linked_entry_checked(g, v, first, e, site, start, mode).0;
    if walk.path.len() == 0 {
        if is_dir(e) {
            lemma_discarded_stays(g, mode, origin, scanned, first, cur, e, site);
        } else {
            lemma_emptied_stays(g, mode, origin, scanned, first, cur, e);
            lemma_chain_linked(named.img, g, start, limit, mode.marks());
            // The chain counts as cut, so this is no quiet step.
            assert(scanned.stats.chains_truncated == bump(named.stats.chains_truncated));
        }
        if is_dir(e) {
            lemma_kept_trans(g, mode, v, scanned, after);
        }
    } else if !is_dir(e) && file_size(e) > reachable {
        lemma_resized_stays(
            g,
            mode,
            origin,
            scanned,
            first,
            cur,
            e,
            RepairMode::chains(),
            reachable,
        );
        lemma_kept_trans(g, mode, v, scanned, after);
    }
}

proof fn lemma_discarded_stays(
    g: Geometry,
    mode: RepairMode,
    origin: Seq<u8>,
    v: Vol,
    first: u32,
    cur: Cursor,
    e: Seq<u8>,
    site: EntrySite,
)
    requires
        entry_in_dir(g, origin, v, first, cur, e),
        site.wf(),
    ensures
        stays(g, mode, origin, v, entry_discarded(g, v, first, site, mode).0),
        !(entry_discarded(g, v, first, site, mode).1 matches Ok(Some(_))),
{
    let end = (site.pos + DIR_ENTRY_SIZE) as u64;
    lemma_run_removed_stays(
        g,
        mode,
        origin,
        v,
        first,
        site.run_start,
        entries_between(site.run_start, end),
        RepairMode::entry_validity(),
    );
}

pub proof fn lemma_entry_checked_stays(
    g: Geometry,
    mode: RepairMode,
    origin: Seq<u8>,
    v: Vol,
    first: u32,
    cur: Cursor,
    e: Seq<u8>,
    site: EntrySite,
)
    requires
        entry_in_dir(g, origin, v, first, cur, e),
        site.wf(),
        site.abs_pos == cur.offset(g),
    ensures
        stays(g, mode, origin, v, entry_checked(g, v, first, e, site, mode).0),
        entry_checked(g, v, first, e, site, mode).1 matches Ok(Some(c)) ==> g.valid_cluster(c)
            && in_dirs(g, origin, c),
{
    lemma_discarded_stays(g, mode, origin, v, first, cur, e, site);
    lemma_resized_stays(g, mode, origin, v, first, cur, e, RepairMode::entry_validity(), 0);
    lemma_kept_self(g, mode, v);
    if let Some(start) = first_cluster(e) {
        if g.valid_cluster(start) {
            lemma_linked_entry_stays(g, mode, origin, v, first, cur, e, site, start);
        }
    }
}

pub proof fn lemma_short_entry_stays(
    g: Geometry,
    mode: RepairMode,
    origin: Seq<u8>,
    v: Vol,
    frame: DirFrame,
    cur: Cursor,
    run_start: u32,
    e: Seq<u8>,
    lfn: LfnRun,
)
    requires
        frame_ok(g, frame),
        entry_in_dir(g, origin, v, dir_start(g, frame.cluster), cur, e),
        run_start % DIR_ENTRY_SIZE == 0,
        run_start <= cur.pos,
    ensures
        stays(
            g,
            mode,
            origin,
            v,
            short_entry_visited(g, v, frame, cur, run_start, e, lfn, mode).0,
        ),
        match short_entry_visited(g, v, frame, cur, run_start, e, lfn, mode).1 {
            Ok(Visit::Descend(c)) => g.valid_cluster(c) && in_dirs(g, origin, c),
            Ok(Visit::Next(rest)) => rest.start is None,
            _ => true,
        },
{
    let first = dir_start(g, frame.cluster);
    lemma_entry_bounds(g, v.img.len(), cur);
    lemma_dot_fixed_stays(g, mode, origin, v, first, cur, e, frame);
    lemma_label_checked_stays(g, mode, origin, v, first, cur, e);
    let counted = Vol {
        img: v.img,
        stats: RepairStats { files_examined: bump(v.stats.files_examined), ..v.stats },
    };
    let site = EntrySite { pos: cur.pos, run_start, abs_pos: cur.offset(g) as u64 };
    lemma_entry_checked_stays(g, mode, origin, counted, first, cur, e, site);
    assert(kept(g, mode, v, counted));
    lemma_kept_trans(g, mode, v, counted, entry_checked(g, counted, first, e, site, mode).0);
}

pub proof fn lemma_visited_stays(
    g: Geometry,
    mode: RepairMode,
    origin: Seq<u8>,
    v: Vol,
    frame: DirFrame,
    cur: Cursor,
    lfn: LfnRun,
)
    requires
        g.wf(v.img.len()),
        contained(g, origin, v.img),
        frame_ok(g, frame),
        in_dirs(g, origin, dir_start(g, frame.cluster)),
        cur.wf(g),
        in_dirs(g, origin, cur.cluster),
        run_ok(lfn, cur.pos),
    ensures
        stays(g, mode, origin, v, entry_visited(g, v, frame, cur, lfn, mode).0),
        match entry_visited(g, v, frame, cur, lfn, mode).1 {
            Ok(Visit::Descend(c)) => g.valid_cluster(c) && in_dirs(g, origin, c),
            Ok(Visit::Next(rest)) => run_ok(rest, cur.pos),
            _ => true,
        },
{
    reveal(entry_visited);
    let first = dir_start(g, frame.cluster);
    let e = entry_under(v.img, g, cur);
    lemma_entry_bounds(g, v.img.len(), cur);
    lemma_kept_self(g, mode, v);
    match lfn.start {
        None => {
            if !is_end(e) && !is_deleted(e) && !is_lfn(e) {
                lemma_short_entry_stays(g, mode, origin, v, frame, cur, cur.pos, e, lfn);
            }
        },
        Some(start) => {
            lemma_run_removed_stays(
                g,
                mode,
                origin,
                v,
                first,
                start,
                entries_between(start, cur.pos as u64),
                RepairMode::long_names(),
            );
            if !is_end(e) && !is_deleted(e) && !is_lfn(e) {
                if run_matches(lfn, short_name(e)) {
                    lemma_short_entry_stays(g, mode, origin, v, frame, cur, start, e, lfn);
                } else {
                    let (after, res) = long_name_dropped(g, v, first, start, cur.pos, mode);
                    if res is Ok {
                        lemma_short_entry_stays(g, mode, origin, after, frame, cur, cur.pos, e, lfn);
                        lemma_kept_trans(
                            g,
                            mode,
                            v,
                            after,
                            short_entry_visited(g, after, frame, cur, cur.pos, e, lfn, mode).0,
                        );
                    }
                }
            }
        },
    }
}

proof fn lemma_scanned_stays(
    g: Geometry,
    mode: RepairMode,
    origin: Seq<u8>,
    v: Vol,
    frame: DirFrame,
    cur: Cursor,
    lfn: LfnRun,
)
    requires
        g.wf(v.img.len()),
        contained(g, origin, v.img),
        frame_ok(g, frame),
        in_dirs(g, origin, dir_start(g, frame.cluster)),
        cur.wf(g),
        in_dirs(g, origin, cur.cluster),
        run_ok(lfn, cur.pos),
    ensures
        stays(g, mode, origin, v, scanned_from(g, v, frame, cur, lfn, mode).0),
        scanned_from(g, v, frame, cur, lfn, mode).1 matches Ok(DirStep::Descend { cluster, resume })
            ==> g.valid_cluster(cluster) && in_dirs(g, origin, cluster) && resume % DIR_ENTRY_SIZE
            == 0,
    decreases u32::MAX - cur.pos,
{
    let (after, res) = entry_visited(g, v, frame, cur, lfn, mode);
    lemma_visited_stays(g, mode, origin, v, frame, cur, lfn);
    if let Ok(Visit::Next(rest)) = res {
        lemma_dirs_after(g, origin, after.img, cur);
        if let Place::At(next) = place_after(after.img, g, cur) {
            lemma_scanned_stays(g, mode, origin, after, frame, next, rest);
            lemma_kept_trans(
                g,
                mode,
                v,
                after,
                scanned_from(g, after, frame, next, rest, mode).0,
            );
        }
        if place_after(after.img, g, cur) is End {
            let end = (cur.pos + DIR_ENTRY_SIZE) as u32;
            let first = dir_start(g, frame.cluster);
            if let Some(start) = rest.start {
                lemma_run_removed_stays(
                    g,
                    mode,
                    origin,
                    after,
                    first,
                    start,
                    entries_between(start, end as u64),
                    RepairMode::long_names(),
                );
                lemma_kept_trans(
                    g,
                    mode,
                    v,
                    after,
                    long_name_dropped(g, after, first, start, end, mode).0,
                );
            }
        }
    }
}

pub proof fn lemma_dir_scanned_stays(
    g: Geometry,
    mode: RepairMode,
    origin: Seq<u8>,
    v: Vol,
    frame: DirFrame,
)
    requires
        g.wf(v.img.len()),
        contained(g, origin, v.img),
        frame_ok(g, frame),
        in_dirs(g, origin, dir_start(g, frame.cluster)),
    ensures
        stays(g, mode, origin, v, dir_scanned(g, v, frame, mode).0),
        dir_scanned(g, v, frame, mode).1 matches Ok(DirStep::Descend { cluster, resume })
            ==> g.valid_cluster(cluster) && in_dirs(g, origin, cluster) && resume % DIR_ENTRY_SIZE
            == 0,
{
    let first = dir_start(g, frame.cluster);
    let k = (frame.resume / g.cluster_size) as nat;
    lemma_kept_self(g, mode, v);
    if let Link::To(c) = nth_cluster(v.img, g, first, k) {
        lemma_dirs_nth(g, origin, v.img, first, k, c);
        let cur = Cursor { pos: frame.resume, cluster: c };
        lemma_scanned_stays(g, mode, origin, v, frame, cur, no_run());
    }
}

/// Walking a directory with everything below it stays in the directories.
pub proof fn lemma_tree_stays(
    g: Geometry,
    mode: RepairMode,
    origin: Seq<u8>,
    v: Vol,
    frame: DirFrame,
    room: nat,
)
    requires
        g.wf(v.img.len()),
        contained(g, origin, v.img),
        frame_ok(g, frame),
        in_dirs(g, origin, dir_start(g, frame.cluster)),
    ensures
        stays(g, mode, origin, v, tree_walked(g, v, frame, room, mode).0),
    decreases room, u32::MAX - frame.resume,
{
    let entered = dir_entered(v, frame);
    assert(kept(g, mode, v, entered));
    let (after, res) = dir_scanned(g, entered, frame, mode);
    lemma_dir_scanned_stays(g, mode, origin, entered, frame);
    lemma_dir_scanned_advances(g, entered, frame, mode);
    lemma_kept_trans(g, mode, v, entered, after);
    if let Ok(DirStep::Descend { cluster, resume }) = res {
        let rest = DirFrame { resume, ..frame };
        if room == 0 {
            let skipped = dir_skipped(after);
            assert(kept(g, mode, after, skipped));
            lemma_kept_trans(g, mode, v, after, skipped);
            lemma_tree_stays(g, mode, origin, skipped, rest, room);
            lemma_kept_trans(g, mode, v, skipped, tree_walked(g, skipped, rest, room, mode).0);
        } else {
            let child = DirFrame { cluster, parent: frame.cluster, resume: 0 };
            let (below, done) = tree_walked(g, after, child, (room - 1) as nat, mode);
            lemma_tree_stays(g, mode, origin, after, child, (room - 1) as nat);
            lemma_kept_trans(g, mode, v, after, below);
            if done is Ok {
                lemma_tree_stays(g, mode, origin, below, rest, room);
                lemma_kept_trans(g, mode, v, below, tree_walked(g, below, rest, room, mode).0);
            }
        }
    }
}

/// Walking everything on the stack stays in the directories.
pub proof fn lemma_stack_stays(
    g: Geometry,
    mode: RepairMode,
    origin: Seq<u8>,
    v: Vol,
    stack: Seq<DirFrame>,
    cap: nat,
)
    requires
        g.wf(v.img.len()),
        contained(g, origin, v.img),
        forall|i: int|
            0 <= i < stack.len() ==> frame_ok(g, #[trigger] stack[i]) && in_dirs(
                g,
                origin,
                dir_start(g, stack[i].cluster),
            ),
    ensures
        stays(g, mode, origin, v, stack_walked(g, v, stack, cap, mode).0),
    decreases stack.len(),
{
    if stack.len() > 0 {
        let top = stack[stack.len() - 1];
        let room = (cap - stack.len()) as nat;
        let (after, res) = tree_walked(g, v, top, room, mode);
        lemma_tree_stays(g, mode, origin, v, top, room);
        if res is Ok {
            let rest = stack.drop_last();
            assert forall|i: int| 0 <= i < rest.len() implies frame_ok(g, #[trigger] rest[i])
                && in_dirs(g, origin, dir_start(g, rest[i].cluster)) by {
                assert(rest[i] == stack[i]);
            }
            lemma_stack_stays(g, mode, origin, after, rest, cap);
            lemma_kept_trans(g, mode, v, after, stack_walked(g, after, rest, cap, mode).0);
        }
    } else {
        lemma_kept_self(g, mode, v);
    }
}

} // verus!
