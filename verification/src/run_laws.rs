//! What a repair does, step by step.

use vstd::prelude::*;

use crate::chain::chain_scanned;
use crate::error::{fails_only_by_device, Error, Fault};
use crate::fat::{lemma_zero_entry, raw_entry};
use crate::fatcache::cache_dropped;
use crate::fs::{marked_clean, state_flushed, FsInfo, FsState};
use crate::geometry::Geometry;
use crate::laws::{
    first_free_cluster, free_clusters, lemma_before, lemma_phases, lemma_same_counts, opening, ready, settled,
};
use crate::meaning::{law_counters, law_mode_bits};
use crate::mode::RepairMode;
use crate::model::{agrees, Vol};
use crate::passes::{
    count_diverging, free_after_sweep, is_free, lemma_count_bound, lemma_unmarked, markers_cleared, mirrors_synced,
    orphans_counted, orphans_swept, reserved_entries_counted, reserved_entries_restored, swept, FreeSpace,
};
use crate::phases::{entry_walked, lemma_restored};
use crate::repair::{
    counted_by_check, counted_by_sweep, fat_checked, first_report, free_found, info_checked, info_counted,
    markers_prepared, may_reclaim, repaired, signatures_checked, tree_checked, tree_swept, wrapped_up,
};
use crate::stats::{bump, bump_by, RepairStats};
verus! {

/// A report begins with nothing counted. It names the classes that were asked for, but that a run that may not write
/// cannot look for lost clusters.
pub proof fn law_first_report(mode: RepairMode)
    ensures
        ({
            let r = first_report(mode);
            &&& r.dirs_scanned == 0 && r.dirs_skipped == 0 && r.dirs_rejected == 0 && r.files_examined == 0
            &&& r.entries_recovered == 0 && r.entries_removed == 0 && r.chains_truncated == 0
            &&& r.cross_links_resolved == 0 && r.sizes_corrected == 0 && r.dot_entries_fixed == 0
            &&& r.reserved_entries_restored == 0 && r.mirror_entries_synced == 0
            &&& r.fsinfo_corrected == 0 && r.orphans_freed == 0 && r.clusters_freed == 0
            &&& mode.bits / 128 % 2 == 0 ==> r.modes_applied == mode
            &&& mode.bits / 128 % 2 == 1 ==> r.modes_applied == mode.difference(
                RepairMode::orphan_clusters(),
            )
        }),
{
    law_mode_bits(mode);
}

/// What comes before the walk. A run that marks clears the markers first. Then the reserved entries are checked, if
/// class 0 is asked for, the mirrors are, if class 6 is and there are any, and the chain of the root directory is
/// followed, if class 1 is or the run marks. Only a run that may write restores and syncs.
pub proof fn law_fat_check(g: Geometry, v: Vol, mode: RepairMode)
    ensures
        ({
            let writes = mode.bits / 128 % 2 == 0;
            let marks = writes && mode.bits / 16 % 2 == 1;
            let one = if marks {
                markers_cleared(v.img, g)
            } else {
                v.img
            };
            let two = if mode.bits % 2 == 1 && writes {
                reserved_entries_restored(one, g)
            } else {
                one
            };
            let two_stats = if mode.bits % 2 == 1 {
                reserved_entries_counted(one, g, v.stats)
            } else {
                v.stats
            };
            let compares = mode.bits / 64 % 2 == 1 && g.mirrors > 1;
            let three = Vol {
                img: if compares && writes {
                    mirrors_synced(two, g, g.total_clusters + 2)
                } else {
                    two
                },
                stats: RepairStats {
                    mirror_entries_synced: if compares {
                        bump_by(
                            two_stats.mirror_entries_synced,
                            count_diverging(two, g, g.total_clusters + 2),
                        )
                    } else {
                        two_stats.mirror_entries_synced
                    },
                    ..two_stats
                },
            };
            let four = if mode.bits / 2 % 2 == 1 || marks {
                chain_scanned(g, three, g.root_dir_first_cluster, None, mode)
            } else {
                three
            };
            fat_checked(g, v, mode) == four
        }),
{
    law_mode_bits(mode);
    law_counters(v.stats.mirror_entries_synced, 0);
}

/// What comes after the walk: a run that marks sweeps the FAT, and frees what was not reached, if no directory was
/// skipped. If one was, the report does not name that class.
pub proof fn law_sweep_after_walk(g: Geometry, v: Vol, mode: RepairMode)
    ensures
        ({
            let marks = mode.bits / 128 % 2 == 0 && mode.bits / 16 % 2 == 1;
            let w = tree_swept(g, v, mode);
            &&& !marks ==> w == v
            &&& marks && v.stats.dirs_skipped == 0 ==> w.img == orphans_swept(v.img, g, true) && w.stats
                == orphans_counted(v.img, g, true, v.stats)
            &&& marks && v.stats.dirs_skipped > 0 ==> w.img == orphans_swept(v.img, g, false) && w.stats == (
            RepairStats {
                modes_applied: v.stats.modes_applied.difference(RepairMode::orphan_clusters()),
                ..v.stats
            })
        }),
{
    law_mode_bits(mode);
}

/// Whether `free` is the free space of `img`: how many clusters are free, and, if a pass over the FAT looked for it,
/// the first of them.
pub open spec fn is_free_space(g: Geometry, img: Seq<u8>, free: FreeSpace, looked: bool) -> bool {
    &&& free.count == free_clusters(g, img)
    &&& looked ==> free.first == first_free_cluster(g, img)
    &&& !looked ==> free.first is None
}

/// The free space that a repair finds is the free space that it leaves.
proof fn lemma_free_space_found(g: Geometry, s: FsState, mode: RepairMode, room: nat)
    requires
        ready(g, s),
        tree_checked(g, opening(g, s, mode), mode, room).1 is Ok,
    ensures
        ({
            let v = opening(g, s, mode);
            let walked = tree_checked(g, v, mode, room).0;
            let swept = tree_swept(g, walked, mode);
            let counted = counted_by_sweep(g, walked, mode, counted_by_check(g, v, mode));
            is_free_space(
                g,
                swept.img,
                free_found(g, swept.img, counted),
                mode.marks() || mode.contains(RepairMode::fat_mirrors()),
            )
        }),
{
    lemma_before(g, s);
    lemma_phases(g, s, mode, room);
    let v = opening(g, s, mode);
    let walked = tree_checked(g, v, mode, room).0;
    let mid = tree_swept(g, walked, mode);
    let n = g.fat_entries();
    let q = |raw: u32| is_free(raw);
    let reclaim = may_reclaim(walked.stats);
    let p = |raw: u32| free_after_sweep(raw, reclaim);
    assert(settled(g, s, mode, room).0.img == mid.img);
    lemma_zero_entry();
    lemma_count_bound(mid.img, g, q, n);
    if mode.marks() {
        assert forall|c: u32| g.valid_cluster(c) implies p(#[trigger] raw_entry(walked.img, g, c))
            == q(raw_entry(mid.img, g, c)) by {
            let raw = raw_entry(walked.img, g, c);
            assert(entry_walked(mode, raw_entry(v.img, g, c), raw));
            lemma_unmarked(raw);
            assert(raw_entry(mid.img, g, c) == swept(raw, reclaim));
        }
        lemma_same_counts(g, walked.img, p, mid.img, q, n);
    } else if mode.contains(RepairMode::fat_mirrors()) {
        let early = signatures_checked(g, markers_prepared(g, v, mode), mode);
        lemma_restored(g, v.img);
        assert forall|c: u32| g.valid_cluster(c) implies q(#[trigger] raw_entry(early.img, g, c))
            == q(raw_entry(mid.img, g, c)) by {
            let raw = raw_entry(walked.img, g, c);
            assert(entry_walked(mode, raw_entry(v.img, g, c), raw));
            assert(raw_entry(mid.img, g, c) == raw);
            assert(raw_entry(early.img, g, c) == raw_entry(v.img, g, c));
        }
        lemma_same_counts(g, early.img, q, mid.img, q, n);
    }
}

/// A repair is the check of the FAT, the walk, the sweep, the check of free space, and the end of the run, in that
/// order. One whose walk fails stops there, and reports why. The free space is that of the FAT as it is then; the first
/// free cluster is looked for by a run that marks, or that is asked for class 6.
pub proof fn law_outline(g: Geometry, s: FsState, mode: RepairMode, room: nat) -> (free: FreeSpace)
    requires
        ready(g, s),
    ensures
        ({
            let start = cache_dropped(s, g);
            let v = Vol { img: start.img, stats: first_report(mode) };
            let (walked, done) = tree_checked(g, v, mode, room);
            let swept = tree_swept(g, walked, mode);
            let (t, res) = repaired(g, s, mode, room);
            let looked = mode.bits / 64 % 2 == 1 || (mode.bits / 16 % 2 == 1 && mode.bits / 128 % 2 == 0);
            match done {
                Err(fault) => res == Err::<RepairStats, Fault>(fault) && t == (FsState {
                    img: walked.img,
                    ..start
                }),
                Ok(_) => {
                    let stats = info_counted(swept.stats, start.info, mode, free);
                    let known = FsState {
                        img: swept.img,
                        info: info_checked(start.info, mode, free),
                        clean_withheld: start.clean_withheld,
                        cache: start.cache,
                    };
                    &&& is_free_space(g, swept.img, free, looked)
                    &&& res == Ok::<RepairStats, Fault>(stats)
                    &&& t == wrapped_up(g, known, stats, mode)
                },
            }
        }),
{
    law_mode_bits(mode);
    let v = opening(g, s, mode);
    let (walked, done) = tree_checked(g, v, mode, room);
    let swept = tree_swept(g, walked, mode);
    let counted = counted_by_sweep(g, walked, mode, counted_by_check(g, v, mode));
    if done is Ok {
        lemma_free_space_found(g, s, mode, room);
    }
    free_found(g, swept.img, counted)
}

/// The free space that was found is put down as known, if class 5 is carried out: the count, if it was another, which
/// makes it one that was taken from the FAT, and the first free cluster, if a pass has found one. It counts as
/// corrected if class 5 is asked for, and the count was another.
pub proof fn law_free_space_known(info: FsInfo, stats: RepairStats, mode: RepairMode, free: FreeSpace)
    ensures
        ({
            let now = info_checked(info, mode, free);
            let counted = info_counted(stats, info, mode, free);
            let asked = mode.bits / 32 % 2 == 1;
            let stored = asked && mode.bits / 128 % 2 == 0;
            let other = info.free_cluster_count != Some(free.count);
            &&& !stored ==> now == info
            &&& stored ==> {
                &&& now.free_cluster_count == Some(free.count)
                &&& now.next_free_cluster == match free.first {
                    Some(c) => Some(c),
                    None => info.next_free_cluster,
                }
                &&& now.verified == (info.verified || other)
                &&& now.dirty == (info.dirty || other || free.first is Some)
            }
            &&& counted == (RepairStats {
                fsinfo_corrected: if asked && other {
                    bump(stats.fsinfo_corrected)
                } else {
                    stats.fsinfo_corrected
                },
                ..stats
            })
        }),
{
    law_mode_bits(mode);
}

/// The end of a run: one that may not write does nothing. Any other marks the volume clean, if it has skipped no
/// directory and was asked for classes 0 to 3, 5 and 6, and withholds that otherwise. Then everything that is held back
/// is written.
pub proof fn law_end_of_run(g: Geometry, s: FsState, stats: RepairStats, mode: RepairMode)
    ensures
        ({
            let t = wrapped_up(g, s, stats, mode);
            let earned = stats.dirs_skipped == 0 && mode.bits % 16 == 15 && mode.bits / 32 % 4 == 3;
            &&& mode.bits / 128 % 2 == 1 ==> t == s
            &&& mode.bits / 128 % 2 == 0 && earned ==> t == state_flushed(marked_clean(s, g), g)
            &&& mode.bits / 128 % 2 == 0 && !earned ==> t == state_flushed(
                FsState { img: s.img, info: s.info, clean_withheld: true, cache: s.cache },
                g,
            )
        }),
{
    law_mode_bits(mode);
}

/// A device that never fails lets every step come to what it is expected to: the same state, and the same result, or
/// the same error.
pub proof fn law_reliable_device<V, T, E>(
    res: Result<T, Error<E>>,
    now: V,
    expected: (V, Result<T, Fault>),
)
    requires
        agrees(res, now, true, expected),
    ensures
        now == expected.0,
        match expected.1 {
            Ok(x) => res matches Ok(y) && y == x,
            Err(Fault::UnexpectedEof) => res matches Err(e) && e is UnexpectedEof,
            Err(Fault::CorruptedFileSystem) => res matches Err(e) && e is CorruptedFileSystem,
        },
{
}

/// A device that fails may stop a step, and that is the only thing that keeps it from what it is expected to come to.
pub proof fn law_unreliable_device<V, T, E>(
    res: Result<T, Error<E>>,
    now: V,
    reliable: bool,
    expected: (V, Result<T, Fault>),
)
    requires
        agrees(res, now, reliable, expected),
    ensures
        !(res matches Err(Error::Io(_))) ==> now == expected.0,
        res matches Err(Error::Io(_)) ==> !reliable,
        res matches Ok(x) ==> expected.1 == Ok::<T, Fault>(x),
        !(res matches Err(Error::InvalidInput)),
        fails_only_by_device(res, reliable) ==> res is Ok || (res matches Err(Error::Io(_)) && !reliable),
{
}

} // verus!
