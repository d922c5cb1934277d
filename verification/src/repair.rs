//! Repair of a FAT32 file system.
//!
//! This is not a complete check. It looks for the damage that an interrupted write leaves behind: a FAT sector or a
//! directory entry caught half-way by a reset or a power cut. It does not rebuild boot sectors, remap bad blocks, or
//! recover files whose directory entry is gone.
//!
//! The dirty flag of a volume is cleared only by a run that may write, that covered the whole tree, and that was asked
//! to repair at least every class in [`RepairMode::minimal`]. The hard-error flag is never touched: it says that the
//! device returned an error once, which a check of the file system neither verifies nor refutes.

use vstd::prelude::*;

use crate::boot::FatType;
use crate::bounded::{entry_stays, fat_bounded, fat_stays, lemma_bounded_self, lemma_bounded_then};
use crate::chain::{chain_scanned, scan_chain};
use crate::confined::{files_spared, lemma_fat_only_then, lemma_spared, lemma_walk_spares};
use crate::error::{fails_only_by_device, Error, Fault};
use crate::fat::{
    clusters_agree, entry_struck, lemma_entries_agree, lemma_zero_entry, only_fat_changed, raw_entry, read_copy_agrees,
};
use crate::fatcache::{cache_dropped, coherent};
use crate::fs::{marked_clean, state_flushed, FileSystem, FsInfo, FsState};
use crate::geometry::Geometry;
use crate::interrupted::{fat_check_stopped, repair_stopped, rewrite_stopped, wrap_stopped};
use crate::kept::data_kept;
use crate::laws::lemma_before;
use crate::meaning::law_mode_bits;
use crate::mode::RepairMode;
use crate::model::{agrees, state, Vol};
use crate::passes::{
    clear_visited_flags, compares_mirrors, count_free_clusters, count_where, fix_reserved_entries, free_after_sweep,
    free_space, is_free, is_orphan, lemma_unmarked, markers_cleared, mirrors_counted, mirrors_synced, orphans_counted,
    orphans_swept, reserved_entries_counted, reserved_entries_restored, scan_fat_copies, sweep_bounded, sweep_orphans,
    swept, FreeSpace,
};
use crate::phases::{lemma_agrees_front, lemma_checked_contained, lemma_contained, lemma_flush_agrees};
use crate::scratch::RepairScratch;
use crate::stats::{bump, count_one, starting_stats, RepairStats};
use crate::storage::Storage;
use crate::volume::Volume;
use crate::walk::{root_frame, scan_tree, stack_walked};

verus! {

/// The report a run in `mode` starts with. Orphans cannot be found without marking, and marking is a write, so a dry
/// run leaves them out.
pub open spec fn first_report(mode: RepairMode) -> RepairStats {
    if mode.writes() {
        starting_stats(mode)
    } else {
        starting_stats(mode.difference(RepairMode::orphan_clusters()))
    }
}

/// The state after leftover markers were cleared, if the run is going to mark.
pub open spec fn markers_prepared(g: Geometry, v: Vol, mode: RepairMode) -> Vol {
    if mode.marks() {
        Vol { img: markers_cleared(v.img, g), ..v }
    } else {
        v
    }
}

/// The state after the reserved FAT entries were checked, if the mode asks for it.
pub open spec fn signatures_checked(g: Geometry, v: Vol, mode: RepairMode) -> Vol {
    if mode.contains(RepairMode::fat_signatures()) {
        Vol {
            img: if mode.writes() {
                reserved_entries_restored(v.img, g)
            } else {
                v.img
            },
            stats: reserved_entries_counted(v.img, g, v.stats),
        }
    } else {
        v
    }
}

/// The state after the mirrors were checked, if the mode asks for it.
pub open spec fn mirrors_checked(g: Geometry, v: Vol, mode: RepairMode) -> Vol {
    if mode.contains(RepairMode::fat_mirrors()) {
        Vol {
            img: if compares_mirrors(g, mode) && mode.writes() {
                mirrors_synced(v.img, g, g.fat_entries())
            } else {
                v.img
            },
            stats: mirrors_counted(v.img, g, mode, v.stats),
        }
    } else {
        v
    }
}

/// Whether the root directory's own chain is to be scanned. No directory entry names it, so nothing else repairs it,
/// and the sweep would free it.
pub open spec fn scans_root(mode: RepairMode) -> bool {
    mode.contains(RepairMode::chains()) || mode.marks()
}

/// The state after the root directory's own chain was scanned, if the mode asks for it.
pub open spec fn root_claimed(g: Geometry, v: Vol, mode: RepairMode) -> Vol {
    if scans_root(mode) {
        chain_scanned(g, v, g.root_dir_first_cluster, None, mode)
    } else {
        v
    }
}

/// The state after the FAT itself was checked: everything that comes before the directory walk.
pub open spec fn fat_checked(g: Geometry, v: Vol, mode: RepairMode) -> Vol {
    root_claimed(
        g,
        mirrors_checked(g, signatures_checked(g, markers_prepared(g, v, mode), mode), mode),
        mode,
    )
}

/// The free space that the check of the FAT counted on the way.
pub open spec fn counted_by_check(g: Geometry, v: Vol, mode: RepairMode) -> Option<FreeSpace> {
    if mode.contains(RepairMode::fat_mirrors()) {
        let before = signatures_checked(g, markers_prepared(g, v, mode), mode);
        Some(free_space(before.img, g, |raw: u32| is_free(raw), g.fat_entries()))
    } else {
        None
    }
}

/// Whether clusters may be freed: only if the walk saw the whole tree is an unvisited cluster garbage.
pub open spec fn may_reclaim(stats: RepairStats) -> bool {
    stats.dirs_skipped == 0
}

/// The state after the sweep, if the run marks.
pub open spec fn tree_swept(g: Geometry, v: Vol, mode: RepairMode) -> Vol {
    if mode.marks() {
        let reclaim = may_reclaim(v.stats);
        let noted = if reclaim {
            v.stats
        } else {
            RepairStats {
                modes_applied: v.stats.modes_applied.difference(RepairMode::orphan_clusters()),
                ..v.stats
            }
        };
        Vol {
            img: orphans_swept(v.img, g, reclaim),
            stats: orphans_counted(v.img, g, reclaim, noted),
        }
    } else {
        v
    }
}

/// The free space that the sweep counted, or else what was counted before it.
pub open spec fn counted_by_sweep(
    g: Geometry,
    v: Vol,
    mode: RepairMode,
    counted: Option<FreeSpace>,
) -> Option<FreeSpace> {
    if mode.marks() {
        let reclaim = may_reclaim(v.stats);
        Some(free_space(v.img, g, |raw: u32| free_after_sweep(raw, reclaim), g.fat_entries()))
    } else {
        counted
    }
}

/// The free space that goes into the `FSInfo` sector. If no pass has counted it, it is counted now, which yields no
/// allocation hint.
pub open spec fn free_found(g: Geometry, img: Seq<u8>, counted: Option<FreeSpace>) -> FreeSpace {
    match counted {
        Some(free) => free,
        None => FreeSpace {
            count: count_where(img, g, |raw: u32| is_free(raw), g.fat_entries()) as u32,
            first: None,
        },
    }
}

/// What the driver knows about free space once `free` was found.
pub open spec fn info_updated(info: FsInfo, free: FreeSpace) -> FsInfo {
    let counted = if info.free_cluster_count != Some(free.count) {
        FsInfo { free_cluster_count: Some(free.count), dirty: true, verified: true, ..info }
    } else {
        info
    };
    match free.first {
        Some(first) => FsInfo { next_free_cluster: Some(first), dirty: true, ..counted },
        None => counted,
    }
}

/// What the driver knows about free space after it was checked, if the mode asks for it.
pub open spec fn info_checked(info: FsInfo, mode: RepairMode, free: FreeSpace) -> FsInfo {
    if mode.applies(RepairMode::fs_info()) {
        info_updated(info, free)
    } else {
        info
    }
}

/// The report after free space was checked, if the mode asks for it.
pub open spec fn info_counted(
    stats: RepairStats,
    info: FsInfo,
    mode: RepairMode,
    free: FreeSpace,
) -> RepairStats {
    if mode.contains(RepairMode::fs_info()) && info.free_cluster_count != Some(free.count) {
        RepairStats { fsinfo_corrected: bump(stats.fsinfo_corrected), ..stats }
    } else {
        stats
    }
}

/// Whether a run has earned the volume the clean flag: it covered the whole tree, and was allowed to fix every class of
/// structural damage. Directories it rejected do not count: it is never going to repair those.
pub open spec fn earned_clean(stats: RepairStats, mode: RepairMode) -> bool {
    stats.dirs_skipped == 0 && mode.contains(RepairMode::minimal())
}

/// The state at the end of a run that may write.
pub open spec fn wrapped_up(g: Geometry, s: FsState, stats: RepairStats, mode: RepairMode) -> FsState {
    if !mode.writes() {
        s
    } else if earned_clean(stats, mode) {
        state_flushed(marked_clean(s, g), g)
    } else {
        state_flushed(FsState { clean_withheld: true, ..s }, g)
    }
}

/// The state of the volume after the directory walk, and why it went no further, if it did not.
pub open spec fn tree_checked(
    g: Geometry,
    v: Vol,
    mode: RepairMode,
    room: nat,
) -> (Vol, Result<(), Fault>) {
    stack_walked(g, fat_checked(g, v, mode), seq![root_frame()], room, mode)
}

/// The state after a repair, and the report.
pub open spec fn repaired(
    g: Geometry,
    s: FsState,
    mode: RepairMode,
    room: nat,
) -> (FsState, Result<RepairStats, Fault>) {
    let start = cache_dropped(s, g);
    let v = Vol { img: start.img, stats: first_report(mode) };
    let (walked, res) = tree_checked(g, v, mode, room);
    match res {
        Err(fault) => (FsState { img: walked.img, ..start }, Err(fault)),
        Ok(()) => {
            let swept = tree_swept(g, walked, mode);
            let counted = counted_by_sweep(g, walked, mode, counted_by_check(g, v, mode));
            let free = free_found(g, swept.img, counted);
            let stats = info_counted(swept.stats, start.info, mode, free);
            let known = FsState {
                img: swept.img,
                info: info_checked(start.info, mode, free),
                ..start
            };
            (wrapped_up(g, known, stats, mode), Ok(stats))
        },
    }
}

/// What a repair of `v`, finished or not, may have made of the FAT entry of cluster `c`, which was `x`: it stays,
/// markers aside, or a chain ends there. Or the cluster was freed, because the whole tree was walked, and the cluster
/// not reached.
pub open spec fn cluster_accounted(
    g: Geometry,
    v: Vol,
    mode: RepairMode,
    room: nat,
    c: u32,
    x: u32,
    y: u32,
) -> bool {
    ||| entry_stays(x, y)
    ||| {
        let (walked, res) = tree_checked(g, v, mode, room);
        &&& is_free(y)
        &&& mode.marks()
        &&& res is Ok
        &&& walked.stats.dirs_skipped == 0
        &&& is_orphan(raw_entry(walked.img, g, c))
    }
}

/// What a repair of `v`, finished or not, may have made of the FAT, except where a write failed since the failed writes
/// were `was`.
pub open spec fn fat_accounted(
    g: Geometry,
    v: Vol,
    mode: RepairMode,
    room: nat,
    b: Seq<u8>,
    was: Seq<(int, int)>,
    now: Seq<(int, int)>,
) -> bool {
    forall|c: u32|
        g.valid_cluster(c) && !entry_struck(g, was, now, c) ==> cluster_accounted(
            g,
            v,
            mode,
            room,
            c,
            raw_entry(v.img, g, c),
            #[trigger] raw_entry(b, g, c),
        )
}

/// What the driver may know about free space after a repair that failed: what it knew, or, if the repair came as far as
/// that, what it found.
pub open spec fn info_accounted(
    g: Geometry,
    s: FsState,
    mode: RepairMode,
    room: nat,
    info: FsInfo,
) -> bool {
    let start = cache_dropped(s, g);
    let v = Vol { img: start.img, stats: first_report(mode) };
    let (walked, res) = tree_checked(g, v, mode, room);
    let counted = counted_by_sweep(g, walked, mode, counted_by_check(g, v, mode));
    let found = info_checked(s.info, mode, free_found(g, tree_swept(g, walked, mode).img, counted));
    ||| info == s.info
    ||| res is Ok && (info == found || info == (FsInfo { dirty: false, ..found }))
}

/// Storing the cache, before the repair begins.
proof fn lemma_accounted_dropped(g: Geometry, v: Vol, mode: RepairMode, room: nat)
    requires
        g.wf(v.img.len()),
    ensures
        forall|b: Seq<u8>, was: Seq<(int, int)>, now: Seq<(int, int)>| #[trigger]
            read_copy_agrees(g, v.img, b, was, now) ==> fat_accounted(g, v, mode, room, b, was, now),
{
    assert forall|b: Seq<u8>, was: Seq<(int, int)>, now: Seq<(int, int)>| #[trigger]
        read_copy_agrees(g, v.img, b, was, now) implies fat_accounted(
        g,
        v,
        mode,
        room,
        b,
        was,
        now,
    ) by {
        lemma_entries_agree(g, v.img, b, was, now);
    }
}

/// Everything up to the end of the walk.
proof fn lemma_accounted_bounded(g: Geometry, v: Vol, mode: RepairMode, room: nat)
    ensures
        forall|b: Seq<u8>, was: Seq<(int, int)>, now: Seq<(int, int)>| #[trigger]
            fat_bounded(g, v.img, b, was, now) ==> fat_accounted(g, v, mode, room, b, was, now),
{
    reveal(fat_bounded);
}

/// The sweep.
proof fn lemma_accounted_swept(g: Geometry, v: Vol, mode: RepairMode, room: nat)
    requires
        fat_stays(g, v.img, tree_checked(g, v, mode, room).0.img),
        tree_checked(g, v, mode, room).1 is Ok,
    ensures
        ({
            let walked = tree_checked(g, v, mode, room).0;
            let reclaim = may_reclaim(walked.stats);
            &&& forall|b: Seq<u8>, was: Seq<(int, int)>, now: Seq<(int, int)>|
                mode.marks() && #[trigger] sweep_bounded(g, walked.img, b, was, now, reclaim)
                    ==> fat_accounted(g, v, mode, room, b, was, now)
            &&& forall|was: Seq<(int, int)>, now: Seq<(int, int)>| #[trigger]
                fat_accounted(g, v, mode, room, walked.img, was, now)
        }),
{
    reveal(fat_stays);
    reveal(sweep_bounded);
    let walked = tree_checked(g, v, mode, room).0;
    let reclaim = may_reclaim(walked.stats);
    assert forall|b: Seq<u8>, was: Seq<(int, int)>, now: Seq<(int, int)>|
        mode.marks() && #[trigger] sweep_bounded(
            g,
            walked.img,
            b,
            was,
            now,
            reclaim,
        ) implies fat_accounted(g, v, mode, room, b, was, now) by {
        assert forall|c: u32| g.valid_cluster(c) && !entry_struck(g, was, now, c) implies cluster_accounted(
            g,
            v,
            mode,
            room,
            c,
            raw_entry(v.img, g, c),
            #[trigger] raw_entry(b, g, c),
        ) by {
            let raw = raw_entry(walked.img, g, c);
            assert(entry_stays(raw_entry(v.img, g, c), raw));
            lemma_unmarked(raw);
            lemma_zero_entry();
        }
    }
}

/// The end of the run.
proof fn lemma_accounted_then(
    g: Geometry,
    v: Vol,
    mode: RepairMode,
    room: nat,
    m: Seq<u8>,
    torn: Seq<(int, int)>,
)
    requires
        fat_accounted(g, v, mode, room, m, torn, torn),
    ensures
        forall|b: Seq<u8>, now: Seq<(int, int)>| #[trigger] clusters_agree(g, m, b, torn, now)
            ==> fat_accounted(g, v, mode, room, b, torn, now),
{
    assert forall|b: Seq<u8>, now: Seq<(int, int)>| #[trigger]
        clusters_agree(g, m, b, torn, now) implies fat_accounted(g, v, mode, room, b, torn, now) by {
        assert forall|c: u32| g.valid_cluster(c) && !entry_struck(g, torn, now, c) implies cluster_accounted(
            g,
            v,
            mode,
            room,
            c,
            raw_entry(v.img, g, c),
            #[trigger] raw_entry(b, g, c),
        ) by {
            assert(raw_entry(b, g, c) == raw_entry(m, g, c));
            assert(!entry_struck(g, torn, torn, c));
        }
    }
}

/// What changes nothing from the FAT on leaves the FAT as it is.
proof fn lemma_front_agrees(g: Geometry, a: Seq<u8>)
    requires
        g.wf(a.len()),
    ensures
        forall|b: Seq<u8>, was: Seq<(int, int)>, now: Seq<(int, int)>|
            (forall|i: int| g.fat_start <= i < a.len() ==> #[trigger] b[i] == a[i])
                ==> #[trigger] clusters_agree(g, a, b, was, now),
{
    assert forall|b: Seq<u8>, was: Seq<(int, int)>, now: Seq<(int, int)>|
        (forall|i: int|
            g.fat_start <= i < a.len() ==> #[trigger] b[i] == a[i]) implies #[trigger] clusters_agree(
        g,
        a,
        b,
        was,
        now,
    ) by {
        lemma_agrees_front(g, a, b, was, now);
    }
}

/// Check the FAT itself, and count free clusters if the mirrors are compared anyway.
fn check_fat<S: Storage>(vol: &mut Volume<S>, mode: RepairMode, stats: &mut RepairStats) -> (res:
    Result<Option<FreeSpace>, Error<S::Error>>)
    requires
        old(vol).wf(),
    ensures
        final(vol).continues(old(vol)),
        fat_bounded(
            old(vol).geom,
            old(vol).image(),
            final(vol).image(),
            old(vol).torn(),
            final(vol).torn(),
        ),
        res is Ok ==> final(vol).torn() == old(vol).torn(),
        final(vol).torn().len() <= old(vol).torn().len() + 1,
        res is Ok ==> fat_stays(old(vol).geom, old(vol).image(), final(vol).image()),
        only_fat_changed(old(vol).geom, old(vol).image(), final(vol).image()),
        res is Err ==> fat_check_stopped(
            old(vol).geom,
            state(old(vol), *old(stats)),
            mode,
            final(vol).image(),
            final(vol).since(old(vol)),
        ),
        fails_only_by_device(res, old(vol).reliable()),
        !mode.writes() ==> final(vol).image() == old(vol).image(),
        res is Ok ==> state(final(vol), *final(stats)) == fat_checked(
            old(vol).geom,
            state(old(vol), *old(stats)),
            mode,
        ),
        res matches Ok(free) ==> free == counted_by_check(
            old(vol).geom,
            state(old(vol), *old(stats)),
            mode,
        ),
{
    proof {
        lemma_bounded_self(vol.geom, vol.image());
        lemma_bounded_then(vol.geom, vol.image(), vol.image());
    }
    if mode.marks() {
        // A previous repair may have died half way through and left markers behind. Taken for claims, they would cut
        // files short.
        clear_visited_flags(vol)?;
    }
    proof {
        lemma_bounded_then(vol.geom, old(vol).image(), vol.image());
    }
    if mode.contains(RepairMode::fat_signatures()) {
        fix_reserved_entries(vol, mode, stats)?;
    }
    proof {
        lemma_bounded_then(vol.geom, old(vol).image(), vol.image());
    }
    // The mirrors come first, so that the whole repair is made against one agreed copy of the table.
    let counted: Option<FreeSpace> = if mode.contains(RepairMode::fat_mirrors()) {
        Some(scan_fat_copies(vol, mode, stats)?)
    } else {
        None
    };
    proof {
        lemma_bounded_then(vol.geom, old(vol).image(), vol.image());
    }
    if mode.contains(RepairMode::chains()) || mode.marks() {
        let root: u32 = vol.geom.root_dir_first_cluster;
        scan_chain(vol, root, None, mode, stats)?;
    }
    Ok(counted)
}

/// Clear the markers and free what the walk did not reach, if the run marks.
fn sweep<S: Storage>(
    vol: &mut Volume<S>,
    mode: RepairMode,
    counted: Option<FreeSpace>,
    stats: &mut RepairStats,
) -> (res: Result<Option<FreeSpace>, Error<S::Error>>)
    requires
        old(vol).wf(),
    ensures
        final(vol).continues(old(vol)),
        mode.marks() ==> sweep_bounded(
            old(vol).geom,
            old(vol).image(),
            final(vol).image(),
            old(vol).torn(),
            final(vol).torn(),
            may_reclaim(*old(stats)),
        ),
        !mode.marks() ==> final(vol).image() == old(vol).image() && res is Ok,
        res is Ok ==> final(vol).torn() == old(vol).torn(),
        final(vol).torn().len() <= old(vol).torn().len() + 1,
        only_fat_changed(old(vol).geom, old(vol).image(), final(vol).image()),
        res is Err ==> rewrite_stopped(
            old(vol).geom,
            old(vol).image(),
            |raw: u32| swept(raw, may_reclaim(*old(stats))),
            final(vol).image(),
            final(vol).since(old(vol)),
        ),
        fails_only_by_device(res, old(vol).reliable()),
        !mode.writes() ==> final(vol).image() == old(vol).image(),
        res is Ok ==> state(final(vol), *final(stats)) == tree_swept(
            old(vol).geom,
            state(old(vol), *old(stats)),
            mode,
        ),
        res matches Ok(free) ==> free == counted_by_sweep(
            old(vol).geom,
            state(old(vol), *old(stats)),
            mode,
            counted,
        ),
{
    if !mode.marks() {
        return Ok(counted);
    }
    // If any subtree was out of reach, the markers go but the clusters stay, and the caller can run again with more
    // scratch space.
    let reclaim: bool = stats.dirs_skipped == 0;
    if !reclaim {
        stats.modes_applied.remove(RepairMode::orphan_clusters());
    }
    let free: FreeSpace = sweep_orphans(vol, stats, reclaim)?;
    Ok(Some(free))
}

impl<S: Storage> FileSystem<S> {
    /// Bring what the driver knows about free space into line with the FAT, if the mode asks for it.
    fn check_fs_info(
        &mut self,
        mode: RepairMode,
        counted: Option<FreeSpace>,
        stats: &mut RepairStats,
    ) -> (res: Result<(), Error<S::Error>>)
        requires
            old(self).wf(),
            old(self).fat_type is Fat32,
        ensures
            final(self).follows(old(self)),
            final(self).vol.image() == old(self).vol.image(),
            final(self).vol.torn() == old(self).vol.torn(),
            final(self).cache == old(self).cache,
            final(self).clean_withheld == old(self).clean_withheld,
            res is Err ==> final(self).info == old(self).info,
            fails_only_by_device(res, old(self).vol.reliable()),
            res is Ok ==> ({
                let free = free_found(old(self).vol.geom, old(self).vol.image(), counted);
                &&& final(self).state() == (FsState {
                    info: info_checked(old(self).info, mode, free),
                    ..old(self).state()
                })
                &&& *final(stats) == info_counted(*old(stats), old(self).info, mode, free)
            }),
    {
        if !mode.contains(RepairMode::fs_info()) {
            return Ok(());
        }
        let free: FreeSpace = match counted {
            Some(free) => free,
            None => {
                let count: u32 = count_free_clusters(&mut self.vol)?;
                FreeSpace { count, first: None }
            },
        };
        let known: bool = match self.free_cluster_count_hint() {
            Some(count) => count == free.count,
            None => false,
        };
        if !known {
            count_one(&mut stats.fsinfo_corrected);
            if mode.applies(RepairMode::fs_info()) {
                self.set_verified_free_cluster_count(free.count);
            }
        }
        if let Some(first_free) = free.first {
            if mode.applies(RepairMode::fs_info()) {
                self.set_next_free_cluster_hint(first_free);
            }
        }
        Ok(())
    }

    /// Decide about the dirty flag, and write everything that is held back.
    fn wrap_up(&mut self, mode: RepairMode, stats: &RepairStats) -> (res: Result<
        (),
        Error<S::Error>,
    >)
        requires
            old(self).wf(),
            old(self).fat_type is Fat32,
        ensures
            final(self).follows(old(self)),
            stats.dirs_skipped > 0 || mode.bits % 16 != 15 || mode.bits / 32 % 4 != 3 || mode.bits / 128 % 2 == 1
                ==> final(self).vol.image()[65] == old(self).vol.image()[65],
            data_kept(old(self).vol.geom, old(self).vol.image(), final(self).vol.image()),
            coherent(old(self).state(), old(self).vol.geom) ==> coherent(
                final(self).state(),
                old(self).vol.geom,
            ),
            final(self).info == old(self).info || final(self).info == (FsInfo {
                dirty: false,
                ..old(self).info
            }),
            old(self).clean_withheld ==> final(self).clean_withheld,
            res is Err && old(self).cache.window is None && !old(self).cache.dirty ==> wrap_stopped(
                old(self).vol.geom,
                old(self).state(),
                *stats,
                mode,
                final(self).vol.image(),
                final(self).vol.since(&old(self).vol),
            ),
            res is Ok ==> final(self).vol.torn() == old(self).vol.torn(),
            final(self).vol.torn().len() <= old(self).vol.torn().len() + 1,
            old(self).cache.window is None && !old(self).cache.dirty ==> clusters_agree(
                old(self).vol.geom,
                old(self).vol.image(),
                final(self).vol.image(),
                old(self).vol.torn(),
                final(self).vol.torn(),
            ),
            !mode.writes() ==> final(self).vol.image() == old(self).vol.image(),
            fails_only_by_device(res, old(self).vol.reliable()),
            res is Ok ==> final(self).state() == wrapped_up(
                old(self).vol.geom,
                old(self).state(),
                *stats,
                mode,
            ),
            res is Ok && mode.writes() ==> final(self).vol.durable(),
    {
        proof {
            law_mode_bits(mode);
        }
        if !mode.writes() {
            return Ok(());
        }
        // Declaring the volume clean is what stops a device that repairs whenever it mounts a dirty volume from
        // repairing on every mount for ever.
        proof {
            lemma_front_agrees(self.vol.geom, self.vol.image());
        }
        if stats.dirs_skipped == 0 && mode.contains(RepairMode::minimal()) {
            self.mark_clean()?;
        } else {
            // Declining to clear the flag is not enough: unmounting would clear it, because a recomputed free-cluster
            // count gives it that right.
            self.withhold_clean_flag();
        }
        proof {
            if old(self).cache.window is None && !old(self).cache.dirty {
                lemma_flush_agrees(old(self).state(), self.state(), self.vol.geom);
            }
        }
        // Last, because the clean flag in the FAT goes through the FAT cache.
        self.flush_state()
    }

    /// Check a FAT32 volume, and repair any corruption of the requested classes.
    ///
    /// `scratch` is working memory; [`scratch_size_for_depth`] says how much of it a tree needs. What is in it does not
    /// matter.
    ///
    /// Fails with [`Error::InvalidInput`] if this is not a FAT32 volume, or if `scratch` is too small to hold a single
    /// directory frame. A repair that the device interrupts leaves the volume readable and can be run again. Whatever
    /// comes of it, nothing is written into a cluster that belongs to no directory. Except where the one write that
    /// failed was to go, the FAT says of each cluster what it said, or ends a chain there. No cluster becomes free
    /// before the whole tree was walked, and none that the walk has reached. The dirty flag of the boot sector does not
    /// go before the whole tree was walked either.
    ///
    /// [`scratch_size_for_depth`]: crate::scratch::scratch_size_for_depth
    pub fn repair(&mut self, mode: RepairMode, scratch: &mut RepairScratch<'_>) -> (res: Result<
        RepairStats,
        Error<S::Error>,
    >)
        requires
            old(self).wf(),
        ensures
            final(self).follows(old(self)),
            final(self).vol.image()[65] == old(self).vol.image()[65] || ({
                let start = cache_dropped(old(self).state(), old(self).vol.geom);
                let v = Vol { img: start.img, stats: first_report(mode) };
                let (walked, done) = tree_checked(old(self).vol.geom, v, mode, old(scratch).room());
                &&& done is Ok
                &&& walked.stats.dirs_skipped == 0
                &&& mode.bits % 16 == 15 && mode.bits / 32 % 4 == 3
                &&& mode.bits / 128 % 2 == 0
            }),
            res is Ok ==> final(self).vol.torn() == old(self).vol.torn(),
            final(self).vol.torn().len() <= old(self).vol.torn().len() + 1,
            old(scratch).wf() ==> final(scratch).wf(),
            final(scratch).size() == old(scratch).size(),
            res is Ok ==> final(scratch).frames().len() == 0,
            res is Ok && mode.writes() ==> final(self).vol.durable(),
            old(self).fat_type is Fat32 ==> files_spared(
                old(self).vol.geom,
                cache_dropped(old(self).state(), old(self).vol.geom).img,
                old(self).vol.image(),
                final(self).vol.image(),
            ),
            coherent(old(self).state(), old(self).vol.geom) ==> coherent(
                final(self).state(),
                old(self).vol.geom,
            ),
            old(self).clean_withheld ==> final(self).clean_withheld,
            res is Err ==> info_accounted(
                old(self).vol.geom,
                old(self).state(),
                mode,
                old(scratch).room(),
                final(self).info,
            ),
            res matches Err(Error::Io(_)) ==> repair_stopped(
                old(self).vol.geom,
                old(self).state(),
                mode,
                old(scratch).room(),
                final(self).vol.image(),
                final(self).vol.since(&old(self).vol),
            ),
            old(self).fat_type is Fat32 && old(scratch).room() > 0 ==> fat_accounted(
                old(self).vol.geom,
                Vol {
                    img: cache_dropped(old(self).state(), old(self).vol.geom).img,
                    stats: first_report(mode),
                },
                mode,
                old(scratch).room(),
                final(self).vol.image(),
                old(self).vol.torn(),
                final(self).vol.torn(),
            ),
            !mode.writes() && !old(self).cache.dirty ==> final(self).vol.image() == old(
                self,
            ).vol.image(),
            if !(old(self).fat_type is Fat32) || old(scratch).room() == 0 {
                (res matches Err(e) && e is InvalidInput) && final(self).state() == old(
                    self,
                ).state()
            } else {
                agrees(
                    res,
                    final(self).state(),
                    old(self).vol.reliable(),
                    repaired(
                        old(self).vol.geom,
                        old(self).state(),
                        mode,
                        old(scratch).room(),
                    ),
                )
            },
    {
        if self.fat_type() != FatType::Fat32 {
            return Err(Error::InvalidInput);
        }
        let ghost g = self.vol.geom;
        let ghost img = self.vol.image();
        let ghost origin = cache_dropped(self.state(), g).img;
        proof {
            lemma_before(g, self.state());
            lemma_spared(g, img, origin);
            assert(data_kept(g, img, img));
        }
        if scratch.max_depth() == 0 {
            return Err(Error::InvalidInput);
        }
        // A run that failed has left the directories that it was in.
        scratch.clear();
        let ghost torn = self.vol.torn();
        let ghost v = Vol { img: origin, stats: first_report(mode) };
        let ghost room = scratch.room();
        proof {
            lemma_accounted_dropped(g, v, mode, room);
        }
        let mut stats: RepairStats = RepairStats::starting(mode);
        // The repair addresses the FAT copies directly from here on, so the cached window has to go: it would otherwise
        // be written back at the end, over whatever the repair had put there.
        self.drop_fat_cache()?;
        if !mode.writes() {
            stats.modes_applied.remove(RepairMode::orphan_clusters());
        }
        proof {
            lemma_contained(g, origin, origin);
            lemma_checked_contained(g, mode, state(&self.vol, stats));
            lemma_fat_only_then(g, origin, origin);
            lemma_accounted_bounded(g, v, mode, room);
        }
        let counted: Option<FreeSpace> = check_fat(&mut self.vol, mode, &mut stats)?;
        proof {
            lemma_walk_spares(g, origin, self.vol.image());
            lemma_bounded_then(g, origin, self.vol.image());
        }
        scan_tree(&mut self.vol, mode, scratch, &mut stats)?;
        proof {
            lemma_fat_only_then(g, origin, self.vol.image());
            assert(state(&self.vol, stats) == tree_checked(g, v, mode, room).0);
            lemma_accounted_swept(g, v, mode, room);
        }
        let counted: Option<FreeSpace> = sweep(&mut self.vol, mode, counted, &mut stats)?;
        self.check_fs_info(mode, counted, &mut stats)?;
        proof {
            lemma_fat_only_then(g, origin, self.vol.image());
            lemma_accounted_then(g, v, mode, room, self.vol.image(), torn);
        }
        self.wrap_up(mode, &stats)?;
        Ok(stats)
    }
}

} // verus!
