//! What holds of a repair as a whole.

use vstd::prelude::*;

use crate::boot::{describes, fat32_layout, STATUS_DIRTY, STATUS_IO_ERROR, STATUS_OFFSET};
use crate::bytes::le_u32;
use crate::confined::files_spared;
use crate::dirent::{hex_digit, recovered_name};
use crate::error::Fault;
use crate::fat::{
    entry_of, lemma_put_fat_len, lemma_put_fat_outside, lemma_zero_entry, marked, only_fat_changed, raw_entry,
    slack_kept, FAT32_CLEAN_BIT, FAT32_NO_ERROR_BIT, FAT32_VALUE_MASK,
};
use crate::fatcache::{cache_dropped, cache_ok};
use crate::fs::{boot_kept, boot_sector, fs_info_sector, mountable, FsState};
use crate::geometry::{Geometry, MAX_CLUSTERS, RESERVED_FAT_ENTRIES};
use crate::kept::{allocated, cluster_kept, copies_agree, cuts_chains, data_kept, edits_dirs, in_dirs, quiet};
use crate::mode::RepairMode;
use crate::model::Vol;
use crate::passes::{
    count_diverging, count_where, diverges, first_where, free_after_sweep, is_free, is_orphan, lemma_count_bound,
    lemma_mirrors_synced, lemma_restored_divergence, lemma_unmarked, markers_cleared, swept, unmarked,
};
use crate::phases::{
    entry_walked, lemma_restored, lemma_tree_checked, lemma_tree_swept, lemma_unmarked_twice, lemma_wrapped_up,
    status_entry_checked, walked_ok, wrapped_ok,
};
use crate::repair::{
    counted_by_check, counted_by_sweep, earned_clean, fat_checked, first_report, free_found, info_checked, info_counted,
    markers_prepared, may_reclaim, mirrors_checked, repaired, signatures_checked, tree_checked, tree_swept,
};
use crate::stale::{alike, claims_ok, law_walk_ignores_leftover_markers, lemma_alike_chain, same_values};
use crate::stats::RepairStats;
use crate::volume::reserved_kept;
use crate::walk::{frame_ok, root_frame};

verus! {

/// A file system that can be repaired: its layout fits, and its cache holds a part of the FAT.
pub open spec fn ready(g: Geometry, s: FsState) -> bool {
    &&& g.wf(s.img.len())
    &&& cache_ok(s, g)
}

/// The volume as a repair finds it: with what the FAT cache held back on it.
pub open spec fn before(g: Geometry, s: FsState) -> Seq<u8> {
    cache_dropped(s, g).img
}

/// What a repair found before the walk.
pub open spec fn opening(g: Geometry, s: FsState, mode: RepairMode) -> Vol {
    Vol { img: before(g, s), stats: first_report(mode) }
}

/// Giving the cache up touches nothing but the FAT.
pub proof fn lemma_before(g: Geometry, s: FsState)
    requires
        g.wf(s.img.len()),
        cache_ok(s, g),
    ensures
        only_fat_changed(g, s.img, before(g, s)),
        cache_dropped(s, g).cache.window is None,
        !cache_dropped(s, g).cache.dirty,
        cache_dropped(s, g).info == s.info,
        !s.cache.dirty ==> before(g, s) == s.img,
{
    if s.cache.dirty {
        if let Some(w) = s.cache.window {
            let off = w * 512;
            let n = g.mirrors as nat;
            lemma_put_fat_len(s.img, g, off, s.cache.buf, n);
            assert forall|i: int| 0 <= i < g.fat_start || g.fats_end() <= i < s.img.len() implies
                #[trigger] before(g, s)[i] == s.img[i] by {
                g.lemma_copy_bounds(s.img.len(), 0);
                assert forall|k: int| g.first_mirror <= k < g.first_mirror + n implies !(
                #[trigger] g.copy_start(k) + off <= i < g.copy_start(k) + off
                    + s.cache.buf.len()) by {
                    g.lemma_copy_bounds(s.img.len(), k);
                }
                lemma_put_fat_outside(s.img, g, off, s.cache.buf, n, i);
            }
        }
    }
}

/// The state a repair comes to before it decides about the dirty flag, and the report.
pub open spec fn settled(
    g: Geometry,
    s: FsState,
    mode: RepairMode,
    room: nat,
) -> (FsState, RepairStats) {
    let start = cache_dropped(s, g);
    let v = opening(g, s, mode);
    let walked = tree_checked(g, v, mode, room).0;
    let done = tree_swept(g, walked, mode);
    let counted = counted_by_sweep(g, walked, mode, counted_by_check(g, v, mode));
    let free = free_found(g, done.img, counted);
    (
        FsState { img: done.img, info: info_checked(start.info, mode, free), ..start },
        info_counted(done.stats, start.info, mode, free),
    )
}

/// What the phases of a repair add up to.
pub proof fn lemma_phases(g: Geometry, s: FsState, mode: RepairMode, room: nat)
    requires
        ready(g, s),
    ensures
        ({
            let v = opening(g, s, mode);
            let (walked, done) = tree_checked(g, v, mode, room);
            let (t, res) = repaired(g, s, mode, room);
            let (mid, stats) = settled(g, s, mode, room);
            &&& walked_ok(g, mode, v, walked)
            &&& done is Ok == res is Ok
            &&& res is Err ==> t.img == walked.img && t.info == s.info
            &&& res is Ok ==> res == Ok::<RepairStats, Fault>(stats) && wrapped_ok(
                g,
                mode,
                stats,
                mid,
                t,
            )
            &&& only_fat_changed(g, walked.img, mid.img)
            &&& slack_kept(g, walked.img, mid.img)
            &&& forall|c: u32|
                g.valid_cluster(c) ==> #[trigger] raw_entry(mid.img, g, c) == if mode.marks() {
                    swept(raw_entry(walked.img, g, c), may_reclaim(walked.stats))
                } else {
                    raw_entry(walked.img, g, c)
                }
            &&& raw_entry(mid.img, g, 1) == raw_entry(walked.img, g, 1)
            &&& copies_agree(g, walked.img) ==> copies_agree(g, mid.img)
            &&& stats.dirs_skipped == walked.stats.dirs_skipped
        }),
{
    let v = opening(g, s, mode);
    lemma_before(g, s);
    lemma_tree_checked(g, mode, v, room);
    let walked = tree_checked(g, v, mode, room).0;
    lemma_tree_swept(g, mode, walked);
    let (mid, stats) = settled(g, s, mode, room);
    lemma_wrapped_up(g, mode, stats, mid);
}

/// A repair never writes to file data. Behind the FAT, it changes nothing but clusters that belong to directories: the
/// chains of the root and of clusters that begin with `.` and `..`. What is no cluster stays as it is, up to the end of
/// the device.
pub proof fn law_file_data_untouched(g: Geometry, s: FsState, mode: RepairMode, room: nat)
    requires
        ready(g, s),
    ensures
        files_spared(g, before(g, s), s.img, repaired(g, s, mode, room).0.img),
{
    lemma_before(g, s);
    lemma_phases(g, s, mode, room);
    let v = opening(g, s, mode);
    let walked = tree_checked(g, v, mode, room).0;
    let t = repaired(g, s, mode, room).0;
    g.lemma_copy_bounds(s.img.len(), 0);
    g.lemma_cluster_bounds(s.img.len(), 2);
    g.lemma_clusters_disjoint(s.img.len(), 2, g.fat_entries());
    assert forall|c: u32| g.valid_cluster(c) && !in_dirs(g, before(g, s), c) implies #[trigger] cluster_kept(
        g,
        s.img,
        t.img,
        c,
    ) by {
        g.lemma_cluster_bounds(s.img.len(), c as int);
        assert(cluster_kept(g, v.img, walked.img, c));
        assert forall|i: int|
            g.cluster_start(c as int) <= i < g.cluster_start(c as int)
                + g.cluster_size implies #[trigger] t.img[i] == s.img[i] by {
            assert(walked.img[i] == v.img[i]);
        }
    }
    assert forall|i: int|
        g.fats_end() <= i < g.data_start || g.data_end() <= i < s.img.len() implies #[trigger] t.img[i]
        == s.img[i] by {
        assert(walked.img[i] == v.img[i]);
    }
}

/// In front of the FAT, a repair changes nothing but the status flags and the two values of the `FSInfo` sector, and
/// one that stops half-way not even those.
pub proof fn law_layout_untouched(
    g: Geometry,
    s: FsState,
    mode: RepairMode,
    room: nat,
)
    requires
        ready(g, s),
    ensures
        boot_kept(g, s.img, repaired(g, s, mode, room).0.img),
        repaired(g, s, mode, room).1 is Err ==> reserved_kept(
            g,
            s.img,
            repaired(g, s, mode, room).0.img,
        ),
{
    lemma_before(g, s);
    lemma_phases(g, s, mode, room);
}

/// A volume whose layout has not been touched can be mounted, as the same volume, if it could be mounted before. So a
/// repair leaves it, even where the device interrupts it.
pub proof fn law_stays_mountable(g: Geometry, a: Seq<u8>, b: Seq<u8>)
    requires
        mountable(a),
        fat32_layout(boot_sector(a)),
        describes(boot_sector(a), g),
        g.wf(a.len()),
        boot_kept(g, a, b),
    ensures
        mountable(b),
        describes(boot_sector(b), g),
{
    let x = boot_sector(a);
    let y = boot_sector(b);
    assert forall|i: int| 0 <= i < 512 && i != STATUS_OFFSET implies #[trigger] y[i] == x[i] by {
        assert(b[i] == a[i]);
    }
    assert(x.subrange(71, 82) =~= y.subrange(71, 82));
    let p = fs_info_sector(a, g);
    let q = fs_info_sector(b, g);
    assert forall|i: int| 0 <= i < 512 && !(488 <= i < 496) implies #[trigger] q[i] == p[i] by {
        assert(b[g.fs_info_start + i] == a[g.fs_info_start + i]);
    }
    g.lemma_copy_bounds(a.len(), 0);
}

/// A repair decides about the dirty flag, in both places it is kept: a run that may write, covered the whole tree and
/// was allowed to fix every class of structural damage clears it, any other run leaves it. No run touches the other
/// status flags. The one exception is a FAT entry 1 that is damaged beyond its flags: restoring it loses them.
pub proof fn law_status_flags(
    g: Geometry,
    s: FsState,
    mode: RepairMode,
    room: nat,
)
    requires
        ready(g, s),
    ensures
        ({
            let (t, res) = repaired(g, s, mode, room);
            let old_boot = s.img[STATUS_OFFSET as int];
            let new_boot = t.img[STATUS_OFFSET as int];
            let old_entry = status_entry_checked(g, mode, before(g, s));
            let new_entry = raw_entry(t.img, g, 1);
            &&& new_boot & STATUS_IO_ERROR == old_boot & STATUS_IO_ERROR
            &&& new_entry & FAT32_NO_ERROR_BIT == old_entry & FAT32_NO_ERROR_BIT
            &&& match res {
                Ok(stats) => if mode.writes() && earned_clean(stats, mode) {
                    &&& new_boot & STATUS_DIRTY == 0
                    &&& new_entry & FAT32_CLEAN_BIT != 0
                    &&& new_boot == old_boot & !STATUS_DIRTY
                    &&& new_entry == old_entry | FAT32_CLEAN_BIT
                } else {
                    &&& new_boot == old_boot
                    &&& new_entry == old_entry
                },
                Err(_) => new_boot == old_boot && new_entry == old_entry,
            }
        }),
{
    lemma_before(g, s);
    lemma_phases(g, s, mode, room);
    let boot = s.img[STATUS_OFFSET as int];
    let entry = status_entry_checked(g, mode, before(g, s));
    assert((boot & !1u8) & 2u8 == boot & 2u8 && (boot & !1u8) & 1u8 == 0 && (entry | 0x0800_0000u32)
        & 0x0400_0000u32 == entry & 0x0400_0000u32 && (entry | 0x0800_0000u32) & 0x0800_0000u32 != 0)
        by (bit_vector);
}

/// A run that marks leaves no marker behind.
pub proof fn law_no_markers_left(
    g: Geometry,
    s: FsState,
    mode: RepairMode,
    room: nat,
    c: u32,
)
    requires
        ready(g, s),
        mode.marks(),
        repaired(g, s, mode, room).1 is Ok,
        g.valid_cluster(c),
    ensures
        !marked(raw_entry(repaired(g, s, mode, room).0.img, g, c)),
{
    lemma_phases(g, s, mode, room);
    let walked = tree_checked(g, opening(g, s, mode), mode, room).0;
    lemma_unmarked(raw_entry(walked.img, g, c));
    lemma_zero_entry();
}

/// A run that does not mark writes no marker, and takes none away.
pub proof fn law_markers_are_only_for_marking(
    g: Geometry,
    s: FsState,
    mode: RepairMode,
    room: nat,
    c: u32,
)
    requires
        ready(g, s),
        !mode.marks(),
        g.valid_cluster(c),
    ensures
        marked(raw_entry(repaired(g, s, mode, room).0.img, g, c)) == marked(
            raw_entry(before(g, s), g, c),
        ),
{
    lemma_phases(g, s, mode, room);
    let v = opening(g, s, mode);
    let walked = tree_checked(g, v, mode, room).0;
    let mid = settled(g, s, mode, room).0;
    assert(entry_walked(mode, raw_entry(v.img, g, c), raw_entry(walked.img, g, c)));
    assert(raw_entry(mid.img, g, c) == raw_entry(walked.img, g, c));
}

/// A report names the classes that were carried out: those that were asked for, but for the reclaiming of clusters in a
/// dry run, which cannot mark, and in a run that has not seen the whole tree.
pub proof fn law_modes_applied(
    g: Geometry,
    s: FsState,
    mode: RepairMode,
    room: nat,
)
    requires
        ready(g, s),
    ensures
        repaired(g, s, mode, room).1 matches Ok(stats) ==> stats.modes_applied == if !mode.writes()
            || (mode.marks() && stats.dirs_skipped > 0) {
            mode.difference(RepairMode::orphan_clusters())
        } else {
            mode
        },
{
    lemma_phases(g, s, mode, room);
}

/// A repair never allocates a cluster, and frees one only if it marks and has seen the whole tree. What it frees was
/// allocated, and no bad cluster is ever touched.
pub proof fn law_what_is_freed(
    g: Geometry,
    s: FsState,
    mode: RepairMode,
    room: nat,
    c: u32,
)
    requires
        ready(g, s),
        g.valid_cluster(c),
    ensures
        ({
            let (t, res) = repaired(g, s, mode, room);
            let old_raw = raw_entry(before(g, s), g, c);
            let new_raw = raw_entry(t.img, g, c);
            &&& is_free(old_raw) ==> is_free(new_raw)
            &&& entry_of(old_raw) is Bad ==> entry_of(new_raw) is Bad
            &&& is_free(new_raw) && !is_free(old_raw) ==> {
                &&& mode.marks()
                &&& allocated(old_raw)
                &&& res matches Ok(stats) && stats.dirs_skipped == 0
            }
        }),
{
    lemma_phases(g, s, mode, room);
    let v = opening(g, s, mode);
    let walked = tree_checked(g, v, mode, room).0;
    let raw = raw_entry(walked.img, g, c);
    assert(entry_walked(mode, raw_entry(v.img, g, c), raw));
    lemma_unmarked(raw);
    lemma_zero_entry();
}

/// Each class of repairs touches only its own. Without one that edits directories nothing behind the FAT changes.
/// Without the one for chains no chain is cut: a cluster says what it said, unless orphans are freed, which takes that
/// what several chains claim goes to one of them. `FSInfo` is only written by its own.
pub proof fn law_flags_are_independent(
    g: Geometry,
    s: FsState,
    mode: RepairMode,
    room: nat,
)
    requires
        ready(g, s),
    ensures
        ({
            let t = repaired(g, s, mode, room).0;
            &&& !edits_dirs(mode) ==> data_kept(g, s.img, t.img)
            &&& !cuts_chains(mode) ==> forall|c: u32|
                g.valid_cluster(c) ==> entry_of(#[trigger] raw_entry(t.img, g, c)) == entry_of(
                    raw_entry(before(g, s), g, c),
                )
            &&& !mode.applies(RepairMode::fs_info()) && !s.info.dirty ==> t.info == s.info && le_u32(
                t.img,
                g.fs_info_start + 488,
            ) == le_u32(s.img, g.fs_info_start + 488) && le_u32(t.img, g.fs_info_start + 492)
                == le_u32(s.img, g.fs_info_start + 492)
        }),
{
    lemma_before(g, s);
    lemma_phases(g, s, mode, room);
    let v = opening(g, s, mode);
    let walked = tree_checked(g, v, mode, room).0;
    let t = repaired(g, s, mode, room).0;
    lemma_zero_entry();
    if !cuts_chains(mode) {
        assert forall|c: u32| g.valid_cluster(c) implies entry_of(#[trigger] raw_entry(t.img, g, c))
            == entry_of(raw_entry(before(g, s), g, c)) by {
            let raw = raw_entry(walked.img, g, c);
            assert(entry_walked(mode, raw_entry(v.img, g, c), raw));
            lemma_unmarked(raw);
        }
    }
}

/// A repair that brings the mirrors into line leaves every copy of the FAT that is kept in step agreeing with the one
/// that is read about every cluster, and one that finds them agreeing keeps them so.
pub proof fn law_mirrors_agree(
    g: Geometry,
    s: FsState,
    mode: RepairMode,
    room: nat,
)
    requires
        ready(g, s),
        mode.applies(RepairMode::fat_mirrors()) || copies_agree(g, before(g, s)),
    ensures
        copies_agree(g, repaired(g, s, mode, room).0.img),
{
    lemma_phases(g, s, mode, room);
}

/// Counts over entries that satisfy the same are the same, and so are the first of them.
pub proof fn lemma_same_counts(
    g: Geometry,
    a: Seq<u8>,
    p: spec_fn(u32) -> bool,
    b: Seq<u8>,
    q: spec_fn(u32) -> bool,
    n: int,
)
    requires
        g.total_clusters <= MAX_CLUSTERS,
        n <= g.fat_entries(),
        forall|c: u32|
            g.valid_cluster(c) ==> p(#[trigger] raw_entry(a, g, c)) == q(raw_entry(b, g, c)),
    ensures
        count_where(a, g, p, n) == count_where(b, g, q, n),
        first_where(a, g, p, n) == first_where(b, g, q, n),
    decreases n,
{
    if n > RESERVED_FAT_ENTRIES {
        lemma_same_counts(g, a, p, b, q, n - 1);
        let c = (n - 1) as u32;
        assert(g.valid_cluster(c));
        assert(p(raw_entry(a, g, c)) == q(raw_entry(b, g, c)));
    }
}

/// Whether the driver knows no other free-cluster count than the one in the `FSInfo` sector.
pub open spec fn info_in_step(g: Geometry, s: FsState) -> bool {
    !s.info.dirty ==> (s.info.free_cluster_count matches Some(n) ==> le_u32(
        s.img,
        g.fs_info_start + 488,
    ) == n)
}

/// The number of free clusters of a volume.
pub open spec fn free_clusters(g: Geometry, img: Seq<u8>) -> nat {
    count_where(img, g, |raw: u32| is_free(raw), g.fat_entries())
}

/// The lowest-numbered free cluster of a volume.
pub open spec fn first_free_cluster(g: Geometry, img: Seq<u8>) -> Option<u32> {
    first_where(img, g, |raw: u32| is_free(raw), g.fat_entries())
}

/// After a repair that may correct the `FSInfo` sector, the free-cluster count in it is the number of free clusters in
/// the FAT. Where a pass over the whole FAT was made anyway, the allocation hint is the lowest-numbered free cluster.
pub proof fn law_free_count(
    g: Geometry,
    s: FsState,
    mode: RepairMode,
    room: nat,
)
    requires
        ready(g, s),
        info_in_step(g, s),
        mode.applies(RepairMode::fs_info()),
        repaired(g, s, mode, room).1 is Ok,
    ensures
        ({
            let t = repaired(g, s, mode, room).0;
            &&& t.info.free_cluster_count == Some(free_clusters(g, t.img) as u32)
            &&& le_u32(t.img, g.fs_info_start + 488) == free_clusters(g, t.img)
            &&& mode.marks() || mode.contains(RepairMode::fat_mirrors()) ==> (first_free_cluster(
                g,
                t.img,
            ) matches Some(c) ==> le_u32(t.img, g.fs_info_start + 492) == c)
            &&& (mode.marks() || mode.contains(RepairMode::fat_mirrors())) && first_free_cluster(
                g,
                t.img,
            ) is None && !s.info.dirty && s.info.free_cluster_count == t.info.free_cluster_count
                ==> le_u32(t.img, g.fs_info_start + 492) == le_u32(s.img, g.fs_info_start + 492)
        }),
{
    lemma_before(g, s);
    lemma_phases(g, s, mode, room);
    let v = opening(g, s, mode);
    let walked = tree_checked(g, v, mode, room).0;
    let (mid, stats) = settled(g, s, mode, room);
    let t = repaired(g, s, mode, room).0;
    let n = g.fat_entries();
    let q = |raw: u32| is_free(raw);
    let reclaim = may_reclaim(walked.stats);
    let p = |raw: u32| free_after_sweep(raw, reclaim);
    lemma_zero_entry();
    lemma_count_bound(t.img, g, q, n);
    // The end of the run does not touch the FAT entries of clusters.
    assert forall|c: u32| g.valid_cluster(c) implies q(#[trigger] raw_entry(mid.img, g, c)) == q(
        raw_entry(t.img, g, c),
    ) by {
        assert(raw_entry(t.img, g, c) == raw_entry(mid.img, g, c));
    }
    lemma_same_counts(g, mid.img, q, t.img, q, n);
    if mode.marks() {
        assert forall|c: u32| g.valid_cluster(c) implies p(#[trigger] raw_entry(walked.img, g, c))
            == q(raw_entry(mid.img, g, c)) by {
            let raw = raw_entry(walked.img, g, c);
            assert(entry_walked(mode, raw_entry(v.img, g, c), raw));
            lemma_unmarked(raw);
            assert(raw_entry(mid.img, g, c) == swept(raw, reclaim));
        }
        lemma_same_counts(g, walked.img, p, mid.img, q, n);
    } else if mode.contains(RepairMode::fat_mirrors()) {
        let early = signatures_checked(
            g,
            markers_prepared(g, v, mode),
            mode,
        );
        lemma_restored(g, v.img);
        assert forall|c: u32| g.valid_cluster(c) implies q(#[trigger] raw_entry(early.img, g, c))
            == q(raw_entry(mid.img, g, c)) by {
            let raw = raw_entry(walked.img, g, c);
            assert(entry_walked(mode, raw_entry(v.img, g, c), raw));
            assert(raw_entry(mid.img, g, c) == raw);
            assert(raw_entry(early.img, g, c) == raw_entry(v.img, g, c));
        }
        lemma_same_counts(g, early.img, q, mid.img, q, n);
    }
    let at = g.fs_info_start + 488;
    assert(le_u32(mid.img, at) == le_u32(s.img, at));
    assert(le_u32(mid.img, at + 4) == le_u32(s.img, at + 4));
}

/// Whether a report shows no damage of any class that a repair changes something for.
pub open spec fn nothing_found(stats: RepairStats) -> bool {
    &&& stats.chains_truncated == 0
    &&& stats.sizes_corrected == 0
    &&& stats.entries_removed == 0
    &&& stats.entries_recovered == 0
    &&& stats.dot_entries_fixed == 0
    &&& stats.clusters_freed == 0
}

/// What a repair changes, it reports. If the report shows no damage, nothing behind the FAT has changed, and every
/// cluster has the FAT entry it had, without its marker if the run marked.
pub proof fn law_every_change_is_reported(
    g: Geometry,
    s: FsState,
    mode: RepairMode,
    room: nat,
)
    requires
        ready(g, s),
        repaired(g, s, mode, room).1 matches Ok(stats) && nothing_found(stats),
    ensures
        ({
            let t = repaired(g, s, mode, room).0;
            &&& data_kept(g, s.img, t.img)
            &&& forall|c: u32|
                g.valid_cluster(c) ==> unmarked(#[trigger] raw_entry(t.img, g, c)) == unmarked(
                    raw_entry(before(g, s), g, c),
                )
            &&& !mode.marks() ==> forall|c: u32|
                g.valid_cluster(c) ==> marked(#[trigger] raw_entry(t.img, g, c)) == marked(
                    raw_entry(before(g, s), g, c),
                )
        }),
{
    lemma_before(g, s);
    lemma_phases(g, s, mode, room);
    let v = opening(g, s, mode);
    let walked = tree_checked(g, v, mode, room).0;
    let (mid, stats) = settled(g, s, mode, room);
    let t = repaired(g, s, mode, room).0;
    assert(quiet(v.stats, walked.stats));
    let q = |raw: u32| is_orphan(raw);
    assert forall|c: u32| g.valid_cluster(c) implies unmarked(#[trigger] raw_entry(t.img, g, c))
        == unmarked(raw_entry(before(g, s), g, c)) && (!mode.marks() ==> marked(
        raw_entry(t.img, g, c),
    ) == marked(raw_entry(before(g, s), g, c))) by {
        let raw = raw_entry(walked.img, g, c);
        assert(entry_walked(mode, raw_entry(v.img, g, c), raw));
        assert(raw_entry(t.img, g, c) == raw_entry(mid.img, g, c));
        assert(unmarked(raw) == unmarked(raw_entry(v.img, g, c)));
        lemma_unmarked_twice(raw);
        if mode.marks() && may_reclaim(walked.stats) {
            lemma_none_counted(walked.img, g, q, g.fat_entries(), c);
        }
    }
}

/// Where nothing was counted, nothing satisfies what was counted.
proof fn lemma_none_counted(img: Seq<u8>, g: Geometry, p: spec_fn(u32) -> bool, n: int, c: u32)
    requires
        count_where(img, g, p, n) == 0,
        RESERVED_FAT_ENTRIES <= c < n,
    ensures
        !p(raw_entry(img, g, c)),
    decreases n,
{
    if c < n - 1 {
        lemma_none_counted(img, g, p, n - 1, c);
    }
}

/// A run that marks starts from a clean slate: what it does to two volumes that differ only in markers is the same.
pub proof fn law_marking_ignores_leftover_markers(
    g: Geometry,
    s: FsState,
    r: FsState,
    mode: RepairMode,
    room: nat,
)
    requires
        mode.marks(),
        s == (FsState { img: s.img, ..r }),
        !s.cache.dirty,
        markers_cleared(s.img, g) == markers_cleared(r.img, g),
    ensures
        repaired(g, s, mode, room) == repaired(g, r, mode, room),
{
    let a = opening(g, s, mode);
    let b = opening(g, r, mode);
    assert(markers_prepared(g, a, mode) == markers_prepared(
        g,
        b,
        mode,
    ));
}

/// How many entries some copy disagrees about, where the same ones are disputed.
pub proof fn lemma_same_divergence(g: Geometry, a: Seq<u8>, b: Seq<u8>, n: int)
    requires
        g.total_clusters <= MAX_CLUSTERS,
        n <= g.fat_entries(),
        forall|c: u32| c < g.fat_entries() ==> #[trigger] diverges(a, g, c) == diverges(b, g, c),
    ensures
        count_diverging(a, g, n) == count_diverging(b, g, n),
    decreases n,
{
    if n > 0 {
        lemma_same_divergence(g, a, b, n - 1);
        let c = (n - 1) as u32;
        assert(diverges(a, g, c) == diverges(b, g, c));
    }
}

/// Whether two volumes differ only in markers, and the markers are in step: the same entries are disputed.
pub open spec fn same_but_markers(g: Geometry, a: Seq<u8>, b: Seq<u8>) -> bool {
    &&& same_values(g, a, b)
    &&& raw_entry(b, g, 0) == raw_entry(a, g, 0)
    &&& raw_entry(b, g, 1) == raw_entry(a, g, 1)
    &&& forall|c: u32| c < g.fat_entries() ==> #[trigger] diverges(a, g, c) == diverges(b, g, c)
}

/// Restoring the reserved FAT entries takes no notice of leftover markers.
proof fn lemma_alike_signatures(g: Geometry, a: Vol, b: Vol, mode: RepairMode)
    requires
        alike(g, a, b),
        a.stats == b.stats,
        same_but_markers(g, a.img, b.img),
    ensures
        signatures_checked(g, a, mode).stats == signatures_checked(g, b, mode).stats,
        alike(g, signatures_checked(g, a, mode), signatures_checked(g, b, mode)),
        same_but_markers(
            g,
            signatures_checked(g, a, mode).img,
            signatures_checked(g, b, mode).img,
        ),
{
    let a1 = signatures_checked(g, a, mode);
    let b1 = signatures_checked(g, b, mode);
    lemma_restored(g, a.img);
    lemma_restored(g, b.img);
    lemma_restored_divergence(g, a.img, 0);
    lemma_restored_divergence(g, b.img, 0);
    assert forall|c: u32| g.valid_cluster(c) implies (#[trigger] raw_entry(b1.img, g, c))
        & FAT32_VALUE_MASK == raw_entry(a1.img, g, c) & FAT32_VALUE_MASK by {
        lemma_restored_divergence(g, a.img, c);
        lemma_restored_divergence(g, b.img, c);
        assert(raw_entry(b.img, g, c) & FAT32_VALUE_MASK == raw_entry(a.img, g, c)
            & FAT32_VALUE_MASK);
    }
    assert forall|c: u32| c < g.fat_entries() implies #[trigger] diverges(a1.img, g, c) == diverges(
        b1.img,
        g,
        c,
    ) by {
        lemma_restored_divergence(g, a.img, c);
        lemma_restored_divergence(g, b.img, c);
        assert(diverges(a.img, g, c) == diverges(b.img, g, c));
    }
}

/// Bringing the mirrors into line takes no notice of leftover markers.
proof fn lemma_alike_mirrors(g: Geometry, a: Vol, b: Vol, mode: RepairMode)
    requires
        alike(g, a, b),
        a.stats == b.stats,
        same_but_markers(g, a.img, b.img),
    ensures
        mirrors_checked(g, a, mode).stats == mirrors_checked(g, b, mode).stats,
        alike(g, mirrors_checked(g, a, mode), mirrors_checked(g, b, mode)),
{
    let n = g.fat_entries();
    let a2 = mirrors_checked(g, a, mode);
    let b2 = mirrors_checked(g, b, mode);
    lemma_mirrors_synced(a.img, g, n);
    lemma_mirrors_synced(b.img, g, n);
    lemma_same_divergence(g, a.img, b.img, n);
    assert forall|c: u32| g.valid_cluster(c) implies (#[trigger] raw_entry(b2.img, g, c))
        & FAT32_VALUE_MASK == raw_entry(a2.img, g, c) & FAT32_VALUE_MASK by {
        assert(raw_entry(b.img, g, c) & FAT32_VALUE_MASK == raw_entry(a.img, g, c)
            & FAT32_VALUE_MASK);
        assert(raw_entry(a2.img, g, c) == raw_entry(a.img, g, c));
        assert(raw_entry(b2.img, g, c) == raw_entry(b.img, g, c));
    }
}

/// Checking the FAT takes no notice of leftover markers.
proof fn lemma_alike_checked_fat(g: Geometry, a: Vol, b: Vol, mode: RepairMode)
    requires
        !mode.marks(),
        alike(g, a, b),
        a.stats == b.stats,
        same_but_markers(g, a.img, b.img),
    ensures
        fat_checked(g, a, mode).stats == fat_checked(g, b, mode).stats,
        alike(g, fat_checked(g, a, mode), fat_checked(g, b, mode)),
        counted_by_check(g, a, mode) == counted_by_check(g, b, mode),
{
    let a1 = signatures_checked(g, a, mode);
    let b1 = signatures_checked(g, b, mode);
    lemma_alike_signatures(g, a, b, mode);
    lemma_alike_mirrors(g, a1, b1, mode);
    let root = g.root_dir_first_cluster;
    let a2 = mirrors_checked(g, a1, mode);
    let b2 = mirrors_checked(g, b1, mode);
    reveal(claims_ok);
    lemma_alike_chain(g, a2, b2, root, None, mode, mode);
    let q = |raw: u32| is_free(raw);
    assert forall|c: u32| g.valid_cluster(c) implies q(#[trigger] raw_entry(a1.img, g, c)) == q(
        raw_entry(b1.img, g, c),
    ) by {
        assert(raw_entry(b1.img, g, c) & FAT32_VALUE_MASK == raw_entry(a1.img, g, c)
            & FAT32_VALUE_MASK);
    }
    lemma_same_counts(g, a1.img, q, b1.img, q, g.fat_entries());
}

/// A run that does not mark takes no notice of leftover markers: it reports the same about two volumes that differ only
/// in them, leaves the same behind the FAT, and the same values in it.
pub proof fn law_not_marking_ignores_leftover_markers(
    g: Geometry,
    s: FsState,
    r: FsState,
    mode: RepairMode,
    room: nat,
)
    requires
        ready(g, s),
        ready(g, r),
        !mode.marks(),
        s == (FsState { img: s.img, ..r }),
        !s.cache.dirty,
        same_but_markers(g, s.img, r.img),
    ensures
        ({
            let (x, done) = repaired(g, s, mode, room);
            let (y, same) = repaired(g, r, mode, room);
            &&& same == done
            &&& data_kept(g, x.img, y.img)
            &&& forall|c: u32|
                g.valid_cluster(c) ==> (#[trigger] raw_entry(y.img, g, c)) & FAT32_VALUE_MASK
                    == raw_entry(x.img, g, c) & FAT32_VALUE_MASK
        }),
{
    lemma_before(g, s);
    lemma_before(g, r);
    let a = opening(g, s, mode);
    let b = opening(g, r, mode);
    let n = g.fat_entries();
    let q = |raw: u32| is_free(raw);
    lemma_alike_checked_fat(g, a, b, mode);
    let a2 = fat_checked(g, a, mode);
    let b2 = fat_checked(g, b, mode);
    // The walk.
    let frames = seq![root_frame()];
    assert forall|i: int| 0 <= i < frames.len() implies frame_ok(g, #[trigger] frames[i]) by {
        assert(frames[i] == root_frame());
    }
    law_walk_ignores_leftover_markers(g, a2, b2, frames, room, mode);
    let (wa, done) = tree_checked(g, a, mode, room);
    let wb = tree_checked(g, b, mode, room).0;
    assert forall|c: u32| g.valid_cluster(c) implies q(#[trigger] raw_entry(wa.img, g, c)) == q(
        raw_entry(wb.img, g, c),
    ) by {
        assert(raw_entry(wb.img, g, c) & FAT32_VALUE_MASK == raw_entry(wa.img, g, c)
            & FAT32_VALUE_MASK);
    }
    lemma_same_counts(g, wa.img, q, wb.img, q, n);
    // The end.
    lemma_phases(g, s, mode, room);
    lemma_phases(g, r, mode, room);
    let (x, fin) = repaired(g, s, mode, room);
    let y = repaired(g, r, mode, room).0;
    assert forall|c: u32| g.valid_cluster(c) implies (#[trigger] raw_entry(y.img, g, c))
        & FAT32_VALUE_MASK == raw_entry(x.img, g, c) & FAT32_VALUE_MASK by {
        assert(raw_entry(wb.img, g, c) & FAT32_VALUE_MASK == raw_entry(wa.img, g, c)
            & FAT32_VALUE_MASK);
        if fin is Ok {
            let ma = settled(g, s, mode, room).0;
            let mb = settled(g, r, mode, room).0;
            assert(raw_entry(ma.img, g, c) == raw_entry(wa.img, g, c));
            assert(raw_entry(mb.img, g, c) == raw_entry(wb.img, g, c));
            assert(raw_entry(x.img, g, c) == raw_entry(ma.img, g, c));
            assert(raw_entry(y.img, g, c) == raw_entry(mb.img, g, c));
        }
    }
}

/// Allocated clusters that the walk of a marking run did not reach are freed, and the ones it reached are kept, if it
/// has seen the whole tree.
pub proof fn law_unreached_clusters_are_freed(
    g: Geometry,
    s: FsState,
    mode: RepairMode,
    room: nat,
    c: u32,
)
    requires
        ready(g, s),
        mode.marks(),
        repaired(g, s, mode, room).1 matches Ok(stats) && stats.dirs_skipped == 0,
        g.valid_cluster(c),
    ensures
        ({
            let walked = tree_checked(g, opening(g, s, mode), mode, room).0;
            let t = repaired(g, s, mode, room).0;
            allocated(raw_entry(t.img, g, c)) == marked(raw_entry(walked.img, g, c))
        }),
{
    lemma_phases(g, s, mode, room);
    let v = opening(g, s, mode);
    let walked = tree_checked(g, v, mode, room).0;
    let raw = raw_entry(walked.img, g, c);
    assert(entry_walked(mode, raw_entry(v.img, g, c), raw));
    lemma_unmarked(raw);
    lemma_zero_entry();
}

/// Entries that are renamed in one run, up to 65536 of them, get different names.
pub proof fn law_recovered_names_differ(i: u32, j: u32)
    requires
        i < 0x1_0000,
        j < 0x1_0000,
        i != j,
    ensures
        recovered_name(i) != recovered_name(j),
{
    if recovered_name(i) == recovered_name(j) {
        assert(recovered_name(i)[4] == recovered_name(j)[4]);
        assert(recovered_name(i)[5] == recovered_name(j)[5]);
        assert(recovered_name(i)[6] == recovered_name(j)[6]);
        assert(recovered_name(i)[7] == recovered_name(j)[7]);
        lemma_hex_digits_differ(i / 0x1000 % 16, j / 0x1000 % 16);
        lemma_hex_digits_differ(i / 0x100 % 16, j / 0x100 % 16);
        lemma_hex_digits_differ(i / 0x10 % 16, j / 0x10 % 16);
        lemma_hex_digits_differ(i % 16, j % 16);
        assert(i < 0x1_0000 && j < 0x1_0000 && i / 0x1000 % 16 == j / 0x1000 % 16 && i / 0x100 % 16
            == j / 0x100 % 16 && i / 0x10 % 16 == j / 0x10 % 16 && i % 16 == j % 16 ==> i == j)
            by (bit_vector);
    }
}

/// Different numbers have different digits.
proof fn lemma_hex_digits_differ(m: u32, n: u32)
    requires
        m < 16,
        n < 16,
        hex_digit(m) == hex_digit(n),
    ensures
        m == n,
{
}

} // verus!
