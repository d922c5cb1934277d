//! Where a device that fails may stop the walk.
//!
//! Each predicate here says of one step that `b` is what the device holds after the step was stopped: what the step
//! goes through at some point, except where a write failed. `t` holds the failed writes before the step and after it.

use vstd::prelude::*;

use crate::bytes::u32_bytes;
use crate::chain::{chain_from, chain_scanned, ends_chain, path_marked};
use crate::dir::{dir_start, entry_deleted, entry_under, place_after, place_at, starts_directory, Cursor, Place};
use crate::dirent::{
    attributes_possible, dot_name, first_cluster, is_deleted, is_dir, is_end, is_label, is_lfn, name_corrupted,
    short_name,
};
use crate::entry::{chain_limit, entries_between, renamed, EntrySite};
use crate::fat::{put_fat_copies, raw_entry, with_value, FAT32_EOC, FAT32_VISITED_BIT};
use crate::geometry::{Geometry, DIR_ENTRY_SIZE};
use crate::mode::RepairMode;
use crate::model::Vol;
use crate::scratch::DirFrame;
use crate::stats::{bump, RepairStats};
use crate::storage::struck;
use crate::walk::{
    dir_entered, dir_scanned, dir_skipped, entry_visited, lemma_dir_scanned_advances, long_name_dropped, no_run,
    run_matches, tree_walked, DirStep, LfnRun, Visit,
};

verus! {

/// The failed writes before a step, and after it.
pub struct Torn {
    pub was: Seq<(int, int)>,
    pub now: Seq<(int, int)>,
}

/// `b` is `m`, except where a write failed.
pub open spec fn but_torn(m: Seq<u8>, b: Seq<u8>, t: Torn) -> bool {
    &&& b.len() == m.len()
    &&& forall|i: int| 0 <= i < m.len() && !struck(t.was, t.now, i, i + 1) ==> #[trigger] b[i] == m[i]
}

/// A write to the FAT, stopped: some copies have it, in order, and the others do not.
pub open spec fn write_stopped(
    g: Geometry,
    img: Seq<u8>,
    offset: int,
    data: Seq<u8>,
    b: Seq<u8>,
    t: Torn,
) -> bool {
    exists|n: nat| n <= g.mirrors && #[trigger] but_torn(put_fat_copies(img, g, offset, data, n), b, t)
}

/// A write of one FAT entry, stopped.
pub open spec fn entry_stopped(g: Geometry, img: Seq<u8>, c: u32, raw: u32, b: Seq<u8>, t: Torn) -> bool {
    write_stopped(g, img, 4 * c, u32_bytes(raw), b, t)
}

/// The scan of a chain, stopped when `j` of its clusters were marked.
pub open spec fn marking_stopped(
    g: Geometry,
    img: Seq<u8>,
    path: Seq<u32>,
    j: int,
    b: Seq<u8>,
    t: Torn,
) -> bool {
    let m = path_marked(img, g, path.take(j));
    ||| but_torn(m, b, t)
    ||| j < path.len() && entry_stopped(g, m, path[j], raw_entry(img, g, path[j]) | FAT32_VISITED_BIT, b, t)
}

/// The scan of a chain, stopped: on the way, or where the chain was to be ended.
pub open spec fn chain_stopped(
    g: Geometry,
    img: Seq<u8>,
    start: u32,
    limit: Option<u32>,
    mode: RepairMode,
    b: Seq<u8>,
    t: Torn,
) -> bool {
    let walk = chain_from(img, g, start, limit, mode.marks());
    let m = if mode.marks() {
        path_marked(img, g, walk.path)
    } else {
        img
    };
    ||| but_torn(img, b, t)
    ||| but_torn(m, b, t)
    ||| mode.marks() && exists|j: int|
        0 <= j <= walk.path.len() && #[trigger] marking_stopped(g, img, walk.path, j, b, t)
    ||| ends_chain(walk, mode) && walk.path.len() > 0 && entry_stopped(
        g,
        m,
        walk.path.last(),
        with_value(raw_entry(m, g, walk.path.last()), FAT32_EOC),
        b,
        t,
    )
}

/// The deletion of `count` entries from `cur` on, stopped: some are deleted, in order, and the others are not.
pub open spec fn deletion_stopped(
    g: Geometry,
    img: Seq<u8>,
    cur: Cursor,
    count: nat,
    b: Seq<u8>,
    t: Torn,
) -> bool
    decreases count,
{
    ||| but_torn(img, b, t)
    ||| count > 0 && {
        let next = entry_deleted(img, cur.offset(g));
        ||| but_torn(next, b, t)
        ||| count > 1 && (place_after(next, g, cur) matches Place::At(behind) && deletion_stopped(
            g,
            next,
            behind,
            (count - 1) as nat,
            b,
            t,
        ))
    }
}

/// The removal of a run of entries, stopped.
pub open spec fn removal_stopped(
    g: Geometry,
    img: Seq<u8>,
    first: u32,
    start: u32,
    count: nat,
    mode: RepairMode,
    flag: RepairMode,
    b: Seq<u8>,
    t: Torn,
) -> bool {
    ||| but_torn(img, b, t)
    ||| mode.applies(flag) && (place_at(img, g, first, start) matches Place::At(cur)
        && deletion_stopped(g, img, cur, count, b, t))
}

/// The removal of an entry that cannot be trusted, stopped.
pub open spec fn discard_stopped(
    g: Geometry,
    img: Seq<u8>,
    first: u32,
    site: EntrySite,
    mode: RepairMode,
    b: Seq<u8>,
    t: Torn,
) -> bool {
    let end = (site.pos + DIR_ENTRY_SIZE) as u64;
    removal_stopped(
        g,
        img,
        first,
        site.run_start,
        entries_between(site.run_start, end),
        mode,
        RepairMode::entry_validity(),
        b,
        t,
    )
}

/// The check of an entry whose first cluster is in the volume, stopped: before it was renamed, at its chain, or where
/// it was to be removed or edited.
pub open spec fn linked_stopped(
    g: Geometry,
    v: Vol,
    first: u32,
    e: Seq<u8>,
    site: EntrySite,
    start: u32,
    mode: RepairMode,
    b: Seq<u8>,
    t: Torn,
) -> bool {
    if is_dir(e) && !starts_directory(v.img, g, start) {
        chain_stopped(g, v.img, start, None, mode, b, t)
    } else {
        let named = if name_corrupted(short_name(e)) {
            renamed(v, mode, site.abs_pos as int)
        } else {
            v
        };
        let limit = chain_limit(g, e);
        let scanned = chain_scanned(g, named, start, limit, mode);
        ||| but_torn(v.img, b, t)
        ||| but_torn(named.img, b, t)
        ||| chain_stopped(g, named.img, start, limit, mode, b, t)
        ||| but_torn(scanned.img, b, t)
        ||| is_dir(e) && chain_from(named.img, g, start, limit, mode.marks()).path.len() == 0
            && discard_stopped(g, scanned.img, first, site, mode, b, t)
    }
}

/// The check of an entry, stopped.
pub open spec fn check_stopped(
    g: Geometry,
    v: Vol,
    first: u32,
    e: Seq<u8>,
    site: EntrySite,
    mode: RepairMode,
    b: Seq<u8>,
    t: Torn,
) -> bool {
    ||| but_torn(v.img, b, t)
    ||| if !attributes_possible(e) {
        discard_stopped(g, v.img, first, site, mode, b, t)
    } else {
        match first_cluster(e) {
            None => name_corrupted(short_name(e)) && discard_stopped(g, v.img, first, site, mode, b, t),
            Some(start) => if g.valid_cluster(start) {
                linked_stopped(g, v, first, e, site, start, mode, b, t)
            } else {
                discard_stopped(g, v.img, first, site, mode, b, t)
            },
        }
    }
}

/// A look at a short-name entry, stopped.
pub open spec fn short_stopped(
    g: Geometry,
    v: Vol,
    frame: DirFrame,
    cur: Cursor,
    run_start: u32,
    e: Seq<u8>,
    mode: RepairMode,
    b: Seq<u8>,
    t: Torn,
) -> bool {
    let counted = Vol {
        img: v.img,
        stats: RepairStats { files_examined: bump(v.stats.files_examined), ..v.stats },
    };
    let site = EntrySite { pos: cur.pos, run_start, abs_pos: cur.offset(g) as u64 };
    ||| but_torn(v.img, b, t)
    ||| is_label(e) && but_torn(crate::entry::label_put(v.img, g, mode, cur.offset(g)), b, t)
    ||| !dot_name(short_name(e)) && !is_label(e) && check_stopped(
        g,
        counted,
        dir_start(g, frame.cluster),
        e,
        site,
        mode,
        b,
        t,
    )
}

/// A visit of an entry, stopped: at the removal of the run in front of it, or at the entry itself.
pub open spec fn visit_stopped(
    g: Geometry,
    v: Vol,
    frame: DirFrame,
    cur: Cursor,
    lfn: LfnRun,
    mode: RepairMode,
    b: Seq<u8>,
    t: Torn,
) -> bool {
    let e = entry_under(v.img, g, cur);
    let first = dir_start(g, frame.cluster);
    ||| but_torn(v.img, b, t)
    ||| match lfn.start {
        None => !is_end(e) && !is_deleted(e) && !is_lfn(e) && short_stopped(
            g,
            v,
            frame,
            cur,
            cur.pos,
            e,
            mode,
            b,
            t,
        ),
        Some(start) => if is_end(e) || is_deleted(e) {
            run_stopped(g, v.img, first, start, cur.pos, mode, b, t)
        } else if is_lfn(e) {
            false
        } else if run_matches(lfn, short_name(e)) {
            short_stopped(g, v, frame, cur, start, e, mode, b, t)
        } else {
            let (after, res) = long_name_dropped(g, v, first, start, cur.pos, mode);
            ||| run_stopped(g, v.img, first, start, cur.pos, mode, b, t)
            ||| res is Ok && short_stopped(g, after, frame, cur, cur.pos, e, mode, b, t)
        },
    }
}

/// The removal of the long name from `start` to `pos`, stopped.
pub open spec fn run_stopped(
    g: Geometry,
    img: Seq<u8>,
    first: u32,
    start: u32,
    pos: u32,
    mode: RepairMode,
    b: Seq<u8>,
    t: Torn,
) -> bool {
    removal_stopped(
        g,
        img,
        first,
        start,
        entries_between(start, pos as u64),
        mode,
        RepairMode::long_names(),
        b,
        t,
    )
}

/// The scan of a directory from `cur` on, stopped.
pub open spec fn scan_stopped(
    g: Geometry,
    v: Vol,
    frame: DirFrame,
    cur: Cursor,
    lfn: LfnRun,
    mode: RepairMode,
    b: Seq<u8>,
    t: Torn,
) -> bool
    decreases u32::MAX - cur.pos,
{
    let (after, res) = entry_visited(g, v, frame, cur, lfn, mode);
    ||| visit_stopped(g, v, frame, cur, lfn, mode, b, t)
    ||| res is Ok && but_torn(after.img, b, t)
    ||| match res {
        Ok(Visit::Next(rest)) => match place_after(after.img, g, cur) {
            Place::At(next) => next.pos > cur.pos && scan_stopped(g, after, frame, next, rest, mode, b, t),
            Place::End => rest.start matches Some(start) && run_stopped(
                g,
                after.img,
                dir_start(g, frame.cluster),
                start,
                (cur.pos + DIR_ENTRY_SIZE) as u32,
                mode,
                b,
                t,
            ),
            Place::Lost(_) => false,
        },
        _ => false,
    }
}

/// The scan of a directory, stopped.
pub open spec fn dir_stopped(
    g: Geometry,
    v: Vol,
    frame: DirFrame,
    mode: RepairMode,
    b: Seq<u8>,
    t: Torn,
) -> bool {
    ||| but_torn(v.img, b, t)
    ||| place_at(v.img, g, dir_start(g, frame.cluster), frame.resume) matches Place::At(cur)
        && scan_stopped(g, v, frame, cur, no_run(), mode, b, t)
}

/// The walk of a directory and everything below it, stopped.
pub open spec fn tree_stopped(
    g: Geometry,
    v: Vol,
    frame: DirFrame,
    room: nat,
    mode: RepairMode,
    b: Seq<u8>,
    t: Torn,
) -> bool
    decreases room, u32::MAX - frame.resume,
{
    proof {
        lemma_dir_scanned_advances(g, dir_entered(v, frame), frame, mode);
    }
    let (after, res) = dir_scanned(g, dir_entered(v, frame), frame, mode);
    ||| dir_stopped(g, dir_entered(v, frame), frame, mode, b, t)
    ||| match res {
        Ok(DirStep::Descend { cluster, resume }) => {
            let rest = DirFrame { resume, ..frame };
            if room == 0 {
                tree_stopped(g, dir_skipped(after), rest, room, mode, b, t)
            } else {
                let child = DirFrame { cluster, parent: frame.cluster, resume: 0 };
                let (below, done) = tree_walked(g, after, child, (room - 1) as nat, mode);
                ||| tree_stopped(g, after, child, (room - 1) as nat, mode, b, t)
                ||| done is Ok && tree_stopped(g, below, rest, room, mode, b, t)
            }
        },
        _ => false,
    }
}

/// The walk of the directories on the stack, stopped.
pub open spec fn stack_stopped(
    g: Geometry,
    v: Vol,
    stack: Seq<DirFrame>,
    cap: nat,
    mode: RepairMode,
    b: Seq<u8>,
    t: Torn,
) -> bool
    decreases stack.len(),
{
    if stack.len() == 0 {
        but_torn(v.img, b, t)
    } else {
        let room = (cap - stack.len()) as nat;
        let (after, res) = tree_walked(g, v, stack.last(), room, mode);
        ||| tree_stopped(g, v, stack.last(), room, mode, b, t)
        ||| res is Ok && stack_stopped(g, after, stack.drop_last(), cap, mode, b, t)
    }
}

/// A write that failed leaves everything else as it was.
pub proof fn lemma_but_torn(a: Seq<u8>, b: Seq<u8>, at: int, len: nat, t: Torn)
    requires
        b.len() == a.len(),
        forall|i: int| 0 <= i < a.len() && !(at <= i < at + len) ==> #[trigger] b[i] == a[i],
        t.now == t.was.push((at, at + len)),
    ensures
        but_torn(a, b, t),
{
    assert forall|i: int| 0 <= i < a.len() && !struck(t.was, t.now, i, i + 1) implies #[trigger] b[i]
        == a[i] by {
        let j = t.was.len() as int;
        assert(t.now[j] == (at, at + len));
    }
}

} // verus!
