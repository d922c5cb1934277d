//! Where a device that fails may stop a repair, outside the walk.
//!
//! As in [`halting`](crate::halting), `b` is what the device holds after a step was stopped, and `t` the failed writes.

use vstd::prelude::*;

use crate::fat::{put_entry, raw_entry};
use crate::fatcache::cache_dropped;
use crate::fs::{boot_flag_cleared, info_put, marked_clean, state_flushed, FsInfo, FsState};
use crate::geometry::{Geometry, RESERVED_FAT_ENTRIES};
use crate::halting::{but_torn, chain_stopped, entry_stopped, stack_stopped, write_stopped, Torn};
use crate::mode::RepairMode;
use crate::model::Vol;
use crate::passes::{
    compares_mirrors, diverges, entry_0_damaged, entry_1_damaged, media_entry, mirrors_synced, rewrite_entries, swept,
    unmarked,
};
use crate::repair::{
    counted_by_check, counted_by_sweep, earned_clean, fat_checked, first_report, free_found, info_checked, info_counted,
    markers_prepared, may_reclaim, mirrors_checked, scans_root, signatures_checked, tree_checked, tree_swept,
};
use crate::stats::RepairStats;
use crate::walk::root_frame;

verus! {

/// A pass that makes `f` of the FAT entries one by one, stopped at entry `n`.
pub open spec fn rewrite_stopped_at(
    g: Geometry,
    img: Seq<u8>,
    f: spec_fn(u32) -> u32,
    n: int,
    b: Seq<u8>,
    t: Torn,
) -> bool {
    let m = rewrite_entries(img, g, f, n);
    let c = n as u32;
    ||| but_torn(m, b, t)
    ||| n < g.fat_entries() && entry_stopped(g, m, c, f(raw_entry(img, g, c)), b, t)
}

/// A pass that makes `f` of the FAT entries one by one, stopped.
pub open spec fn rewrite_stopped(
    g: Geometry,
    img: Seq<u8>,
    f: spec_fn(u32) -> u32,
    b: Seq<u8>,
    t: Torn,
) -> bool {
    exists|n: int|
        RESERVED_FAT_ENTRIES <= n <= g.fat_entries() && #[trigger] rewrite_stopped_at(g, img, f, n, b, t)
}

/// The check of the reserved FAT entries, stopped.
pub open spec fn signatures_stopped(
    g: Geometry,
    img: Seq<u8>,
    mode: RepairMode,
    b: Seq<u8>,
    t: Torn,
) -> bool {
    let zero = media_entry(g);
    let one = if entry_0_damaged(img, g) {
        put_entry(img, g, 0, zero)
    } else {
        img
    };
    ||| but_torn(img, b, t)
    ||| mode.applies(RepairMode::fat_signatures()) && {
        ||| entry_0_damaged(img, g) && entry_stopped(g, img, 0, zero, b, t)
        ||| but_torn(one, b, t)
        ||| entry_1_damaged(img, g) && entry_stopped(g, one, 1, u32::MAX, b, t)
    }
}

/// The comparison of the mirrors, stopped at entry `n`.
pub open spec fn mirrors_stopped_at(g: Geometry, img: Seq<u8>, n: int, b: Seq<u8>, t: Torn) -> bool {
    let m = mirrors_synced(img, g, n);
    let c = n as u32;
    ||| but_torn(m, b, t)
    ||| n < g.fat_entries() && diverges(img, g, c) && entry_stopped(g, m, c, raw_entry(img, g, c), b, t)
}

/// The comparison of the mirrors, stopped.
pub open spec fn mirrors_stopped(
    g: Geometry,
    img: Seq<u8>,
    mode: RepairMode,
    b: Seq<u8>,
    t: Torn,
) -> bool {
    ||| but_torn(img, b, t)
    ||| compares_mirrors(g, mode) && mode.writes() && exists|n: int|
        0 <= n <= g.fat_entries() && #[trigger] mirrors_stopped_at(g, img, n, b, t)
}

/// The check of the FAT, stopped.
pub open spec fn fat_check_stopped(g: Geometry, v: Vol, mode: RepairMode, b: Seq<u8>, t: Torn) -> bool {
    let one = markers_prepared(g, v, mode);
    let two = signatures_checked(g, one, mode);
    let three = mirrors_checked(g, two, mode);
    ||| mode.marks() && rewrite_stopped(g, v.img, |raw: u32| unmarked(raw), b, t)
    ||| signatures_stopped(g, one.img, mode, b, t)
    ||| mirrors_stopped(g, two.img, mode, b, t)
    ||| but_torn(three.img, b, t)
    ||| scans_root(mode) && chain_stopped(g, three.img, g.root_dir_first_cluster, None, mode, b, t)
}

/// The storing of the cache, stopped.
pub open spec fn cache_stopped(g: Geometry, s: FsState, b: Seq<u8>, t: Torn) -> bool {
    ||| but_torn(s.img, b, t)
    ||| s.cache.dirty && (s.cache.window matches Some(w) && write_stopped(g, s.img, w * 512, s.cache.buf, b, t))
}

/// The state once the `FSInfo` sector was stored, if it was behind.
pub open spec fn info_stored(g: Geometry, s: FsState) -> FsState {
    if s.info.dirty {
        FsState {
            img: info_put(s.img, g, s.info),
            info: FsInfo { dirty: false, ..s.info },
            ..s
        }
    } else {
        s
    }
}

/// The storing of everything that is held back, stopped.
pub open spec fn flush_stopped(g: Geometry, s: FsState, b: Seq<u8>, t: Torn) -> bool {
    ||| but_torn(s.img, b, t)
    ||| cache_stopped(g, info_stored(g, s), b, t)
    ||| but_torn(state_flushed(s, g).img, b, t)
}

/// The end of a run, stopped: at the flags of the volume, or where what is held back was to be stored.
pub open spec fn wrap_stopped(
    g: Geometry,
    s: FsState,
    stats: RepairStats,
    mode: RepairMode,
    b: Seq<u8>,
    t: Torn,
) -> bool {
    ||| but_torn(s.img, b, t)
    ||| mode.writes() && if earned_clean(stats, mode) {
        ||| but_torn(boot_flag_cleared(s.img), b, t)
        ||| flush_stopped(g, marked_clean(s, g), b, t)
    } else {
        flush_stopped(g, FsState { clean_withheld: true, ..s }, b, t)
    }
}

/// A repair, stopped: what the device holds is what the repair goes through at some point, except where the write that
/// failed was to go.
pub open spec fn repair_stopped(
    g: Geometry,
    s: FsState,
    mode: RepairMode,
    room: nat,
    b: Seq<u8>,
    t: Torn,
) -> bool {
    let start = cache_dropped(s, g);
    let v = Vol { img: start.img, stats: first_report(mode) };
    let (walked, res) = tree_checked(g, v, mode, room);
    let reclaim = may_reclaim(walked.stats);
    let done = tree_swept(g, walked, mode);
    let counted = counted_by_sweep(g, walked, mode, counted_by_check(g, v, mode));
    let free = free_found(g, done.img, counted);
    let known = FsState { img: done.img, info: info_checked(start.info, mode, free), ..start };
    let stats = info_counted(done.stats, start.info, mode, free);
    ||| cache_stopped(g, s, b, t)
    ||| fat_check_stopped(g, v, mode, b, t)
    ||| stack_stopped(g, fat_checked(g, v, mode), seq![root_frame()], room, mode, b, t)
    ||| res is Ok && {
        ||| mode.marks() && rewrite_stopped(g, walked.img, |raw: u32| swept(raw, reclaim), b, t)
        ||| but_torn(done.img, b, t)
        ||| wrap_stopped(g, known, stats, mode, b, t)
    }
}

} // verus!
