//! A dry run next to the repair that it is a rehearsal of.

use vstd::prelude::*;

use crate::advance::{
    lemma_advanced_below, lemma_dir_advances, lemma_path_kept, lemma_run_at_end, lemma_tree_advances,
    lemma_visit_outcome, others_kept,
};
use crate::again::no_end;
use crate::chain::{chain_from, chain_scanned, follow, lemma_chain_begins, lemma_chain_bounds};
use crate::chain_laws::lemma_chain_linked;
use crate::counts::{lemma_dir_counts, lemma_scan_counts, lemma_tree_counts, lemma_visit_counts};
use crate::dir::{dir_start, entry_under, lemma_entry_bounds, place_after, place_at, starts_directory, Cursor, Place};
use crate::dirent::{attributes_possible, dot_name, first_cluster, is_dir, is_label, name_corrupted, short_name};
use crate::entry::{chain_limit, linked_entry_checked, renamed, EntrySite};
use crate::error::Fault;
use crate::fat::{entry_of, marked, raw_entry, FatEntry};
use crate::geometry::{Geometry, DIR_ENTRY_SIZE};
use crate::kept::{cluster_kept, lemma_same_fat};
use crate::mode::RepairMode;
use crate::model::Vol;
use crate::owned::{
    is_slot, lemma_chain_claimed, lemma_links, lemma_nth_of_chain, lemma_on_path, lemma_path_after, lemma_path_at,
    lemma_position, lemma_run_deleted, none_marked, on_path, only_slots, outside, owned, same_fat, slot, whole_chain,
};
use crate::scratch::DirFrame;
use crate::stale::{lemma_chain_crosses, same_report};
use crate::stats::{bump, RepairStats};
use crate::visits::{
    is_short, lemma_start_kept, lemma_visit_settles, names_fit, run_base, run_in, same_slots, thorough, visit_bounded,
};
use crate::walk::{
    dir_ended, dir_entered, dir_scanned, dir_skipped, entry_visited, frame_ok, lemma_dir_scanned_advances,
    long_name_dropped, no_run, run_matches, scanned_from, short_entry_visited, tree_walked, DirStep, LfnRun, Visit,
};

verus! {

/// Whether a repair has found no cross link, and no directory that is none, between `a` and `b`.
pub open spec fn untangled(a: RepairStats, b: RepairStats) -> bool {
    &&& b.cross_links_resolved == a.cross_links_resolved < u32::MAX
    &&& b.dirs_rejected == a.dirs_rejected < u32::MAX
}

/// Whether the FAT says in `a` what it says in `o` of every cluster that nobody has claimed in `a`.
pub open spec fn fat_fresh(g: Geometry, o: Seq<u8>, a: Seq<u8>) -> bool {
    forall|c: u32|
        g.valid_cluster(c) && !marked(#[trigger] raw_entry(a, g, c)) ==> entry_of(raw_entry(a, g, c))
            == entry_of(raw_entry(o, g, c))
}

/// Whether every cluster that nobody has claimed in `a` is as it is in `o`.
pub open spec fn fresh(g: Geometry, o: Seq<u8>, a: Seq<u8>) -> bool {
    &&& o.len() == a.len()
    &&& fat_fresh(g, o, a)
    &&& forall|c: u32|
        g.valid_cluster(c) && !marked(raw_entry(a, g, c)) ==> #[trigger] cluster_kept(g, o, a, c)
}

/// Whether the chain of every directory is whole: that of the root, and that of every cluster that begins with `.` and
/// `..`.
pub open spec fn dirs_whole(g: Geometry, img: Seq<u8>) -> bool {
    &&& !chain_from(img, g, g.root_dir_first_cluster, None, false).truncated
    &&& forall|c: u32|
        g.valid_cluster(c) && #[trigger] starts_directory(img, g, c) ==> !chain_from(
            img,
            g,
            c,
            Some(g.max_dir_chain()),
            false,
        ).truncated
}

/// A chain that runs into no claim is the one that the dry run sees.
proof fn lemma_rehearsed_follow(
    o: Seq<u8>,
    a: Seq<u8>,
    g: Geometry,
    c: u32,
    taken: Seq<u32>,
    limit: Option<u32>,
)
    requires
        g.valid_cluster(c),
        fat_fresh(g, o, a),
        !follow(a, g, c, taken, limit, true).cross_linked,
    ensures
        follow(o, g, c, taken, limit, false) == follow(a, g, c, taken, limit, true),
    decreases g.total_clusters - taken.len(),
{
    let path = taken.push(c);
    if !taken.contains(c) && !marked(raw_entry(a, g, c)) && path.len() < g.total_clusters {
        if let FatEntry::Data(next) = entry_of(raw_entry(a, g, c)) {
            if g.valid_cluster(next) && !(limit is Some && path.len() >= limit->0) {
                lemma_rehearsed_follow(o, a, g, next, path, limit);
            }
        }
    }
}

/// Scanning a chain counts the same in a dry run.
pub proof fn lemma_rehearsed_chain(
    g: Geometry,
    o: Vol,
    a: Vol,
    start: u32,
    limit: Option<u32>,
    d: RepairMode,
    m: RepairMode,
)
    requires
        !d.writes(),
        m.marks(),
        g.valid_cluster(start),
        fat_fresh(g, o.img, a.img),
        same_report(o.stats, a.stats),
        chain_scanned(g, a, start, limit, m).stats.cross_links_resolved
            == a.stats.cross_links_resolved < u32::MAX,
    ensures
        chain_from(o.img, g, start, limit, false) == chain_from(a.img, g, start, limit, true),
        chain_scanned(g, o, start, limit, d).img == o.img,
        same_report(
            chain_scanned(g, o, start, limit, d).stats,
            chain_scanned(g, a, start, limit, m).stats,
        ),
{
    lemma_chain_crosses(a.img, g, start, limit, true);
    let walk = chain_from(a.img, g, start, limit, true);
    assert(!walk.cross_linked);
    if limit != Some(0u32) {
        lemma_rehearsed_follow(o.img, a.img, g, start, Seq::empty(), limit);
    }
}

/// Checking an entry with a first cluster in the volume counts the same in a dry run, and leads to the same directory.
proof fn lemma_rehearsed_linked(
    g: Geometry,
    o: Vol,
    a: Vol,
    first: u32,
    e: Seq<u8>,
    site: EntrySite,
    start: u32,
    d: RepairMode,
    m: RepairMode,
)
    requires
        g.wf(a.img.len()),
        g.data_start <= site.abs_pos,
        site.abs_pos + DIR_ENTRY_SIZE <= a.img.len(),
        !d.writes(),
        thorough(m),
        g.valid_cluster(start),
        fresh(g, o.img, a.img),
        same_report(o.stats, a.stats),
        linked_entry_checked(g, a, first, e, site, start, m).1 is Ok,
        untangled(a.stats, linked_entry_checked(g, a, first, e, site, start, m).0.stats),
    ensures
        ({
            let (p, told) = linked_entry_checked(g, o, first, e, site, start, d);
            let (q, done) = linked_entry_checked(g, a, first, e, site, start, m);
            &&& p.img == o.img
            &&& same_report(p.stats, q.stats)
            &&& told == done
            &&& done matches Ok(Some(c)) ==> {
                let path = chain_from(o.img, g, c, Some(g.max_dir_chain()), false).path;
                &&& starts_directory(o.img, g, c)
                &&& path.len() > 0
                &&& owned(g, q.img, path)
                &&& none_marked(g, a.img, path)
            }
        }),
{
    let at = site.abs_pos as int;
    assert(starts_directory(a.img, g, start) || !is_dir(e));
    let named = if name_corrupted(short_name(e)) {
        renamed(a, m, at)
    } else {
        a
    };
    let dry_named = if name_corrupted(short_name(e)) {
        renamed(o, d, at)
    } else {
        o
    };
    g.lemma_copy_bounds(a.img.len(), 0);
    lemma_same_fat(g, a.img, named.img);
    let limit = chain_limit(g, e);
    lemma_rehearsed_chain(g, dry_named, named, start, limit, d, m);
    lemma_chain_claimed(g, m, named, start, limit);
    let path = chain_from(named.img, g, start, limit, true).path;
    if is_dir(e) {
        // A cluster that is claimed already makes a cross link.
        lemma_chain_begins(named.img, g, start, limit, true);
        lemma_chain_crosses(named.img, g, start, limit, true);
        if marked(raw_entry(a.img, g, start)) {
            assert(chain_from(named.img, g, start, limit, true).cross_linked);
        }
        assert(cluster_kept(g, o.img, a.img, start));
        lemma_start_kept(g, o.img, a.img, start);
        assert(none_marked(g, a.img, path)) by {
            assert forall|i: int| 0 <= i < path.len() implies !marked(
                raw_entry(a.img, g, #[trigger] path[i]),
            ) by {
                assert(!marked(raw_entry(named.img, g, path[i])));
                assert(g.valid_cluster(path[i]));
            }
        }
    }
}

/// Editing a claimed directory leaves what nobody has claimed as it is.
proof fn lemma_fresh_slots(
    g: Geometry,
    o: Seq<u8>,
    a: Seq<u8>,
    b: Seq<u8>,
    path: Seq<u32>,
    lo: int,
    hi: int,
)
    requires
        fresh(g, o, a),
        owned(g, a, path),
        only_slots(g, path, lo, hi, a, b),
        same_fat(g, a, b),
    ensures
        fresh(g, o, b),
{
    assert forall|c: u32| g.valid_cluster(c) && !marked(#[trigger] raw_entry(b, g, c)) implies entry_of(
        raw_entry(b, g, c),
    ) == entry_of(raw_entry(o, g, c)) by {
        assert(raw_entry(b, g, c) == raw_entry(a, g, c));
    }
    assert forall|c: u32| g.valid_cluster(c) && !marked(raw_entry(b, g, c)) implies #[trigger] cluster_kept(
        g,
        o,
        b,
        c,
    ) by {
        assert(raw_entry(b, g, c) == raw_entry(a, g, c));
        lemma_not_on_path(g, a, path, c);
        assert(cluster_kept(g, o, a, c));
        assert(cluster_kept(g, a, b, c));
    }
}

/// A cluster that nobody has claimed is on no path that somebody has.
proof fn lemma_not_on_path(g: Geometry, a: Seq<u8>, path: Seq<u32>, c: u32)
    requires
        owned(g, a, path),
        !marked(raw_entry(a, g, c)),
    ensures
        !path.contains(c),
{
    if path.contains(c) {
        let i = choose|i: int| 0 <= i < path.len() && path[i] == c;
        assert(marked(raw_entry(a, g, path[i])));
    }
}

/// What a step of the dry run, next to one of the repair, comes to where the walk goes on or down.
pub open spec fn rehearses(
    g: Geometry,
    o: Vol,
    a: Vol,
    dry: (Vol, Result<Visit, Fault>),
    done: (Vol, Result<Visit, Fault>),
) -> bool {
    &&& dry.0.img == o.img
    &&& same_report(dry.0.stats, done.0.stats)
    &&& dry.1 == done.1
    &&& done.1 matches Ok(Visit::Descend(c)) ==> dir_claimed(g, o.img, a.img, done.0.img, c)
}

/// Whether the directory at `c` was claimed between `a` and `b`, along the chain that it has in `o`.
pub open spec fn dir_claimed(g: Geometry, o: Seq<u8>, a: Seq<u8>, b: Seq<u8>, c: u32) -> bool {
    let path = chain_from(o, g, c, Some(g.max_dir_chain()), false).path;
    &&& g.valid_cluster(c)
    &&& starts_directory(o, g, c)
    &&& path.len() > 0
    &&& owned(g, b, path)
    &&& none_marked(g, a, path)
}

/// Looking at a short-name entry counts the same in a dry run.
proof fn lemma_rehearsed_short(
    g: Geometry,
    o: Vol,
    a: Vol,
    frame: DirFrame,
    cur: Cursor,
    run_start: u32,
    e: Seq<u8>,
    lfn: LfnRun,
    d: RepairMode,
    m: RepairMode,
)
    requires
        g.wf(a.img.len()),
        cur.wf(g),
        !d.writes(),
        thorough(m),
        fresh(g, o.img, a.img),
        same_report(o.stats, a.stats),
        short_entry_visited(g, a, frame, cur, run_start, e, lfn, m).1 is Ok,
        untangled(a.stats, short_entry_visited(g, a, frame, cur, run_start, e, lfn, m).0.stats),
    ensures
        rehearses(
            g,
            o,
            a,
            short_entry_visited(g, o, frame, cur, run_start, e, lfn, d),
            short_entry_visited(g, a, frame, cur, run_start, e, lfn, m),
        ),
{
    lemma_entry_bounds(g, a.img.len(), cur);
    if !dot_name(short_name(e)) && !is_label(e) {
        let ca = Vol {
            img: a.img,
            stats: RepairStats { files_examined: bump(a.stats.files_examined), ..a.stats },
        };
        let co = Vol {
            img: o.img,
            stats: RepairStats { files_examined: bump(o.stats.files_examined), ..o.stats },
        };
        let site = EntrySite { pos: cur.pos, run_start, abs_pos: cur.offset(g) as u64 };
        let dir = dir_start(g, frame.cluster);
        if attributes_possible(e) {
            if let Some(start) = first_cluster(e) {
                if g.valid_cluster(start) {
                    lemma_rehearsed_linked(g, co, ca, dir, e, site, start, d, m);
                    let q = linked_entry_checked(g, ca, dir, e, site, start, m);
                    if let Ok(Some(c)) = q.1 {
                        assert(c == start);
                    }
                }
            }
        }
    }
}

/// A visit counts the same in a dry run, and leads to the same directory.
proof fn lemma_rehearsed_visit(
    g: Geometry,
    o: Vol,
    a: Vol,
    path: Seq<u32>,
    cur: Cursor,
    frame: DirFrame,
    lfn: LfnRun,
    d: RepairMode,
    m: RepairMode,
)
    requires
        g.wf(a.img.len()),
        !d.writes(),
        thorough(m),
        fresh(g, o.img, a.img),
        same_report(o.stats, a.stats),
        owned(g, a.img, path),
        path[0] == dir_start(g, frame.cluster),
        on_path(g, path, cur),
        run_in(g, a.img, path, lfn, cur.pos as int),
        slot(g, o.img, path, cur.pos as int) == slot(g, a.img, path, cur.pos as int),
        entry_visited(g, a, frame, cur, lfn, m).1 is Ok,
        untangled(a.stats, entry_visited(g, a, frame, cur, lfn, m).0.stats),
    ensures
        rehearses(
            g,
            o,
            a,
            entry_visited(g, o, frame, cur, lfn, d),
            entry_visited(g, a, frame, cur, lfn, m),
        ),
{
    reveal(entry_visited);
    let p = cur.pos as int;
    lemma_on_path(g, a.img.len(), path, cur);
    lemma_position(g, a.img.len(), path, p);
    let e = entry_under(a.img, g, cur);
    assert(entry_under(o.img, g, cur) == e);
    if is_short(e) {
        match lfn.start {
            None => {
                lemma_rehearsed_short(g, o, a, frame, cur, cur.pos, e, lfn, d, m);
            },
            Some(start) => {
                if run_matches(lfn, short_name(e)) {
                    lemma_rehearsed_short(g, o, a, frame, cur, start, e, lfn, d, m);
                } else {
                    let after = long_name_dropped(g, a, path[0], start, cur.pos, m).0;
                    let told = long_name_dropped(g, o, path[0], start, cur.pos, d).0;
                    lemma_run_deleted(g, m, a, path, start, p, RepairMode::long_names());
                    lemma_fresh_slots(g, o.img, a.img, after.img, path, start as int, p);
                    lemma_rehearsed_short(g, told, after, frame, cur, cur.pos, e, lfn, d, m);
                    if let Ok(Visit::Descend(c)) = entry_visited(g, a, frame, cur, lfn, m).1 {
                        let q = chain_from(o.img, g, c, Some(g.max_dir_chain()), false).path;
                        let b = entry_visited(g, a, frame, cur, lfn, m).0.img;
                        assert forall|i: int| 0 <= i < q.len() implies !marked(
                            raw_entry(a.img, g, #[trigger] q[i]),
                        ) by {
                            assert(owned(g, b, q));
                            assert(g.valid_cluster(q[i]));
                            assert(!marked(raw_entry(after.img, g, q[i])));
                        }
                    }
                }
            },
        }
    }
}

/// What nobody has claimed behind a visit is as it was.
proof fn lemma_fresh_visit(
    g: Geometry,
    o: Seq<u8>,
    a: Seq<u8>,
    b: Seq<u8>,
    path: Seq<u32>,
    pos: u32,
    lfn: LfnRun,
    q: Seq<u32>,
)
    requires
        fresh(g, o, a),
        owned(g, a, path),
        visit_bounded(g, path, pos, lfn, a, b, q),
    ensures
        fresh(g, o, b),
{
    assert forall|c: u32| g.valid_cluster(c) && !marked(#[trigger] raw_entry(b, g, c)) implies entry_of(
        raw_entry(b, g, c),
    ) == entry_of(raw_entry(o, g, c)) by {
        assert(!marked(raw_entry(a, g, c)));
    }
    assert forall|c: u32| g.valid_cluster(c) && !marked(raw_entry(b, g, c)) implies #[trigger] cluster_kept(
        g,
        o,
        b,
        c,
    ) by {
        assert(!marked(raw_entry(a, g, c)));
        lemma_not_on_path(g, a, path, c);
        assert(cluster_kept(g, o, a, c));
        assert(cluster_kept(g, a, b, c));
    }
}

/// What a scan of the dry run, next to one of the repair, comes to.
pub open spec fn scan_rehearses(
    g: Geometry,
    path: Seq<u32>,
    o: Vol,
    a: Vol,
    dry: (Vol, Result<DirStep, Fault>),
    done: (Vol, Result<DirStep, Fault>),
) -> bool {
    &&& dry.0.img == o.img
    &&& same_report(dry.0.stats, done.0.stats)
    &&& dry.1 == done.1
    &&& fresh(g, o.img, done.0.img)
    &&& done.1 matches Ok(DirStep::Descend { cluster, resume }) ==> {
        &&& dir_claimed(g, o.img, a.img, done.0.img, cluster)
        &&& same_slots(g, o.img, done.0.img, path, resume as int, no_end())
    }
}

/// A scan counts the same in a dry run, and leads to the same directory.
#[verifier::spinoff_prover]
#[verifier::rlimit(40)]
proof fn lemma_rehearsed_scan(
    g: Geometry,
    o: Vol,
    a: Vol,
    path: Seq<u32>,
    cur: Cursor,
    frame: DirFrame,
    lfn: LfnRun,
    d: RepairMode,
    m: RepairMode,
)
    requires
        g.wf(a.img.len()),
        !d.writes(),
        thorough(m),
        fresh(g, o.img, a.img),
        same_report(o.stats, a.stats),
        owned(g, a.img, path),
        whole_chain(g, o.img, path),
        path[0] == dir_start(g, frame.cluster),
        on_path(g, path, cur),
        run_in(g, a.img, path, lfn, cur.pos as int),
        same_slots(g, o.img, a.img, path, cur.pos as int, no_end()),
        scanned_from(g, a, frame, cur, lfn, m).1 is Ok,
        untangled(a.stats, scanned_from(g, a, frame, cur, lfn, m).0.stats),
        names_fit(g, a.stats, scanned_from(g, a, frame, cur, lfn, m).0.stats),
    ensures
        scan_rehearses(
            g,
            path,
            o,
            a,
            scanned_from(g, o, frame, cur, lfn, d),
            scanned_from(g, a, frame, cur, lfn, m),
        ),
    decreases u32::MAX - cur.pos,
{
    let p = cur.pos as int;
    let (mid, visited) = entry_visited(g, a, frame, cur, lfn, m);
    let (told, seen) = entry_visited(g, o, frame, cur, lfn, d);
    lemma_visit_counts(g, a, frame, cur, lfn, m);
    if let Ok(Visit::Next(rest)) = visited {
        if let Place::At(next) = place_after(mid.img, g, cur) {
            lemma_scan_counts(g, mid, frame, next, rest, m);
        }
    }
    lemma_on_path(g, a.img.len(), path, cur);
    let q = lemma_visit_settles(g, m, a, path, cur, frame, lfn);
    let visit = visited->Ok_0;
    lemma_rehearsed_visit(g, o, a, path, cur, frame, lfn, d, m);
    lemma_fresh_visit(g, o.img, a.img, mid.img, path, cur.pos, lfn, q);
    lemma_visit_outcome(g, frame, path, cur, lfn, a.img, mid.img, visit, q);
    lemma_path_after(g, mid.img, path, cur);
    lemma_places_same(g, o.img, mid.img, path, cur);
    assert(same_slots(g, o.img, mid.img, path, p + 32, no_end())) by {
        assert forall|i: int| is_slot(g, path, i) && p + 32 <= i < no_end() implies #[trigger] slot(
            g,
            mid.img,
            path,
            i,
        ) == slot(g, o.img, path, i) by {
            assert(outside(run_base(lfn, p), p + 32, i));
            assert(slot(g, mid.img, path, i) == slot(g, a.img, path, i));
            assert(slot(g, a.img, path, i) == slot(g, o.img, path, i));
        }
    }
    if let Visit::Next(rest) = visit {
        match place_after(mid.img, g, cur) {
            Place::At(next) => {
                lemma_rehearsed_scan(g, told, mid, path, next, frame, rest, d, m);
                let done = scanned_from(g, mid, frame, next, rest, m);
                if let Ok(DirStep::Descend { cluster, resume }) = done.1 {
                    let claimed = chain_from(o.img, g, cluster, Some(g.max_dir_chain()), false).path;
                    assert forall|i: int| 0 <= i < claimed.len() implies !marked(
                        raw_entry(a.img, g, #[trigger] claimed[i]),
                    ) by {
                        assert(owned(g, done.0.img, claimed));
                        assert(g.valid_cluster(claimed[i]));
                        assert(!marked(raw_entry(mid.img, g, claimed[i])));
                    }
                }
            },
            Place::End => {
                if let Some(start) = rest.start {
                    lemma_run_at_end(g, m, mid, path, cur, frame, rest, start);
                    let b = dir_ended(g, mid, frame, cur, rest, m).0;
                    lemma_fresh_others(g, o.img, mid.img, b.img, path);
                }
            },
            _ => {},
        }
    }
}

/// What nobody has claimed stays as it is where only a claimed directory is edited.
proof fn lemma_fresh_others(g: Geometry, o: Seq<u8>, a: Seq<u8>, b: Seq<u8>, path: Seq<u32>)
    requires
        fresh(g, o, a),
        a.len() == b.len(),
        owned(g, a, path),
        others_kept(g, path, a, b),
        same_fat(g, a, b),
    ensures
        fresh(g, o, b),
{
    assert forall|c: u32| g.valid_cluster(c) && !marked(#[trigger] raw_entry(b, g, c)) implies entry_of(
        raw_entry(b, g, c),
    ) == entry_of(raw_entry(o, g, c)) by {
        assert(raw_entry(b, g, c) == raw_entry(a, g, c));
    }
    assert forall|c: u32| g.valid_cluster(c) && !marked(raw_entry(b, g, c)) implies #[trigger] cluster_kept(
        g,
        o,
        b,
        c,
    ) by {
        assert(raw_entry(b, g, c) == raw_entry(a, g, c));
        lemma_not_on_path(g, a, path, c);
        assert(cluster_kept(g, o, a, c));
        assert(cluster_kept(g, a, b, c));
    }
}

/// Moving on along a path that is whole in both.
proof fn lemma_places_same(g: Geometry, a: Seq<u8>, b: Seq<u8>, path: Seq<u32>, cur: Cursor)
    requires
        g.wf(b.len()),
        whole_chain(g, a, path),
        whole_chain(g, b, path),
        on_path(g, path, cur),
    ensures
        place_after(a, g, cur) == place_after(b, g, cur),
{
    lemma_on_path(g, b.len(), path, cur);
    lemma_position(g, b.len(), path, cur.pos as int);
    let i = cur.pos as int / g.cluster_size as int;
    lemma_links(g, a, path, i);
    lemma_links(g, b, path, i);
}

/// The scan of a directory counts the same in a dry run, and leads to the same directory.
proof fn lemma_rehearsed_dir(
    g: Geometry,
    o: Vol,
    a: Vol,
    path: Seq<u32>,
    frame: DirFrame,
    d: RepairMode,
    m: RepairMode,
)
    requires
        g.wf(a.img.len()),
        !d.writes(),
        thorough(m),
        fresh(g, o.img, a.img),
        same_report(o.stats, a.stats),
        owned(g, a.img, path),
        whole_chain(g, o.img, path),
        path[0] == dir_start(g, frame.cluster),
        frame_ok(g, frame),
        same_slots(g, o.img, a.img, path, frame.resume as int, no_end()),
        dir_scanned(g, a, frame, m).1 is Ok,
        untangled(a.stats, dir_scanned(g, a, frame, m).0.stats),
        names_fit(g, a.stats, dir_scanned(g, a, frame, m).0.stats),
    ensures
        scan_rehearses(g, path, o, a, dir_scanned(g, o, frame, d), dir_scanned(g, a, frame, m)),
{
    let k = (frame.resume / g.cluster_size) as nat;
    lemma_nth_of_chain(g, a.img, path, k);
    lemma_nth_of_chain(g, o.img, path, k);
    lemma_path_at(g, a.img, path, frame.resume);
    assert(place_at(o.img, g, path[0], frame.resume) == place_at(a.img, g, path[0], frame.resume));
    if let Place::At(cur) = place_at(a.img, g, path[0], frame.resume) {
        lemma_rehearsed_scan(g, o, a, path, cur, frame, no_run(), d, m);
    }
}

/// A directory whose chain is whole is claimed along it.
proof fn lemma_claimed_whole(g: Geometry, o: Seq<u8>, c: u32)
    requires
        g.valid_cluster(c),
        starts_directory(o, g, c),
        dirs_whole(g, o),
    ensures
        whole_chain(g, o, chain_from(o, g, c, Some(g.max_dir_chain()), false).path),
        chain_from(o, g, c, Some(g.max_dir_chain()), false).path[0] == c,
{
    lemma_chain_linked(o, g, c, Some(g.max_dir_chain()), false);
    lemma_chain_bounds(o, g, c, Some(g.max_dir_chain()), false);
}

/// The walk of a directory and everything below it counts the same in a dry run.
#[verifier::spinoff_prover]
#[verifier::rlimit(40)]
pub proof fn lemma_rehearsed_tree(
    g: Geometry,
    o: Vol,
    a: Vol,
    path: Seq<u32>,
    frame: DirFrame,
    room: nat,
    d: RepairMode,
    m: RepairMode,
)
    requires
        g.wf(a.img.len()),
        !d.writes(),
        thorough(m),
        dirs_whole(g, o.img),
        fresh(g, o.img, a.img),
        same_report(o.stats, a.stats),
        owned(g, a.img, path),
        whole_chain(g, o.img, path),
        path[0] == dir_start(g, frame.cluster),
        frame_ok(g, frame),
        same_slots(g, o.img, a.img, path, frame.resume as int, no_end()),
        tree_walked(g, a, frame, room, m).1 is Ok,
        untangled(a.stats, tree_walked(g, a, frame, room, m).0.stats),
        names_fit(g, a.stats, tree_walked(g, a, frame, room, m).0.stats),
    ensures
        ({
            let (p, told) = tree_walked(g, o, frame, room, d);
            let (q, done) = tree_walked(g, a, frame, room, m);
            &&& p.img == o.img
            &&& same_report(p.stats, q.stats)
            &&& told is Ok
            &&& fresh(g, o.img, q.img)
        }),
    decreases room, u32::MAX - frame.resume,
{
    let ea = dir_entered(a, frame);
    let eo = dir_entered(o, frame);
    let (one, res) = dir_scanned(g, ea, frame, m);
    let (told, seen) = dir_scanned(g, eo, frame, d);
    lemma_dir_counts(g, ea, frame, m);
    lemma_dir_scanned_advances(g, ea, frame, m);
    lemma_dir_scanned_advances(g, eo, frame, d);
    let lo = frame.resume as int;
    if let Ok(DirStep::Descend { cluster, resume }) = res {
        let rest = DirFrame { resume, ..frame };
        if room == 0 {
            lemma_tree_counts(g, dir_skipped(one), rest, room, m);
            lemma_rehearsed_dir(g, eo, ea, path, frame, d, m);
            lemma_dir_advances(g, m, ea, path, frame);
            lemma_rehearsed_tree(g, dir_skipped(told), dir_skipped(one), path, rest, room, d, m);
        } else {
            let child = DirFrame { cluster, parent: frame.cluster, resume: 0 };
            let below = tree_walked(g, one, child, (room - 1) as nat, m).0;
            lemma_tree_counts(g, one, child, (room - 1) as nat, m);
            lemma_tree_counts(g, below, rest, room, m);
            lemma_rehearsed_dir(g, eo, ea, path, frame, d, m);
            lemma_dir_advances(g, m, ea, path, frame);
            let q = chain_from(o.img, g, cluster, Some(g.max_dir_chain()), false).path;
            lemma_claimed_whole(g, o.img, cluster);
            lemma_child_slots(g, o.img, a.img, one.img, path, q);
            lemma_rehearsed_tree(g, told, one, q, child, (room - 1) as nat, d, m);
            let gone = tree_walked(g, told, child, (room - 1) as nat, d).0;
            lemma_tree_advances(g, m, one, q, child, (room - 1) as nat);
            lemma_advanced_below(g, path, q, lo, a.img, one.img, below.img);
            assert forall|i: int| 0 <= i < path.len() implies g.valid_cluster(#[trigger] path[i])
                && cluster_kept(g, one.img, below.img, path[i]) by {
                assert(g.valid_cluster(path[i]));
            }
            lemma_path_kept(g, one.img, below.img, path, resume as int, no_end());
            assert(same_slots(g, o.img, below.img, path, resume as int, no_end())) by {
                assert forall|i: int| is_slot(g, path, i) && resume <= i < no_end() implies #[trigger] slot(
                    g,
                    below.img,
                    path,
                    i,
                ) == slot(g, o.img, path, i) by {
                    assert(slot(g, one.img, path, i) == slot(g, o.img, path, i));
                }
            }
            lemma_rehearsed_tree(g, gone, below, path, rest, room, d, m);
        }
    } else {
        lemma_rehearsed_dir(g, eo, ea, path, frame, d, m);
    }
}

/// A directory that was just claimed is as the dry run sees it.
proof fn lemma_child_slots(
    g: Geometry,
    o: Seq<u8>,
    a: Seq<u8>,
    one: Seq<u8>,
    path: Seq<u32>,
    q: Seq<u32>,
)
    requires
        g.wf(a.len()),
        fresh(g, o, a),
        owned(g, a, path),
        others_kept(g, path, a, one),
        a.len() == one.len(),
        none_marked(g, a, q),
        owned(g, one, q),
    ensures
        same_slots(g, o, one, q, 0, no_end()),
{
    assert forall|i: int| 0 <= i < q.len() implies g.valid_cluster(#[trigger] q[i]) && cluster_kept(
        g,
        o,
        one,
        q[i],
    ) by {
        assert(g.valid_cluster(q[i]));
        assert(!marked(raw_entry(a, g, q[i])));
        lemma_not_on_path(g, a, path, q[i]);
        assert(cluster_kept(g, o, a, q[i]));
        assert(cluster_kept(g, a, one, q[i]));
    }
    lemma_path_kept(g, o, one, q, 0, no_end());
}

} // verus!
