//! What each phase of a repair does to the volume as a whole.

use vstd::prelude::*;

use crate::boot::{STATUS_DIRTY, STATUS_OFFSET};
use crate::bytes::{le_u32, lemma_u32_round_trip, splice, u32_bytes};
use crate::dir::{dir_start, link_of};
use crate::fat::{
    clusters_agree, copy_entry, entry_of, entry_struck, lemma_put_entry, lemma_put_fat_inside, lemma_put_fat_len,
    lemma_put_fat_outside, marked, only_fat_changed, put_entry, put_fat, raw_entry, read_copy_between, slack_kept,
    FAT32_CLEAN_BIT,
};
use crate::fatcache::{fat_on_disk, window_on_disk, written_back};
use crate::fs::{boot_flag_cleared, info_field, info_put, marked_clean, may_change, FsInfo, FsState};
use crate::geometry::{Geometry, RESERVED_FAT_ENTRIES};
use crate::kept::{
    allocated, cluster_kept, contained, copies_agree, cuts_chains, data_kept, edits_dirs, entry_kept, in_dirs, kept,
    lemma_chain_kept, lemma_kept_self, lemma_kept_trans, quiet,
};
use crate::kept_walk::{lemma_dirs_root, lemma_stack_stays};
use crate::mode::RepairMode;
use crate::model::Vol;
use crate::passes::{
    compares_mirrors, diverges, entry_0_damaged, entry_1_damaged, lemma_mirrors_synced, lemma_rewrite_entries,
    lemma_unmarked, media_entry, mirrors_synced, reserved_entries_restored, rewrite_entries, signature_damaged, swept,
    unmarked,
};
use crate::repair::{
    earned_clean, fat_checked, markers_prepared, may_reclaim, mirrors_checked, signatures_checked, tree_checked,
    tree_swept, wrapped_up,
};
use crate::stats::RepairStats;
use crate::storage::struck;
use crate::volume::reserved_kept;
use crate::walk::{frame_ok, root_frame};

verus! {

/// Rewriting entries keeps the copies of the FAT in step.
pub proof fn lemma_rewrite_copies(img: Seq<u8>, g: Geometry, f: spec_fn(u32) -> u32, n: int)
    requires
        g.wf(img.len()),
        n <= g.fat_entries(),
        copies_agree(g, img),
    ensures
        copies_agree(g, rewrite_entries(img, g, f, n)),
    decreases n,
{
    if n > RESERVED_FAT_ENTRIES {
        lemma_rewrite_copies(img, g, f, n - 1);
        lemma_rewrite_entries(img, g, f, n - 1);
        let before = rewrite_entries(img, g, f, n - 1);
        let c = (n - 1) as u32;
        lemma_put_copies(before, g, c, f(raw_entry(img, g, c)));
    }
}

/// Replacing an entry keeps the copies of the FAT in step.
pub proof fn lemma_put_copies(img: Seq<u8>, g: Geometry, c: u32, raw: u32)
    requires
        g.wf(img.len()),
        c < g.fat_entries(),
        copies_agree(g, img),
    ensures
        copies_agree(g, put_entry(img, g, c, raw)),
{
    let new = put_entry(img, g, c, raw);
    lemma_put_entry(img, g, c, raw);
    assert forall|k: int, b: u32|
        g.first_mirror <= k < g.first_mirror + g.mirrors && b < g.fat_entries()
            && !signature_damaged(new, g, b) implies #[trigger] copy_entry(new, g, k, b) == raw_entry(
        new,
        g,
        b,
        ) by {
        if b != c {
            assert(raw_entry(new, g, b) == raw_entry(img, g, b));
            assert(!signature_damaged(img, g, b));
            assert(copy_entry(img, g, k, b) == raw_entry(img, g, b));
        }
    }
}

/// Bringing the mirrors into line leaves them in line.
pub proof fn lemma_synced_copies(img: Seq<u8>, g: Geometry)
    requires
        g.wf(img.len()),
    ensures
        copies_agree(g, mirrors_synced(img, g, g.fat_entries())),
{
    let new = mirrors_synced(img, g, g.fat_entries());
    lemma_mirrors_synced(img, g, g.fat_entries());
    assert forall|k: int, c: u32|
        g.first_mirror <= k < g.first_mirror + g.mirrors && c < g.fat_entries()
            && !signature_damaged(new, g, c) implies #[trigger] copy_entry(new, g, k, c) == raw_entry(
        new,
        g,
        c,
        ) by {
        assert(raw_entry(new, g, c) == raw_entry(img, g, c));
        if !diverges(img, g, c) {
            if k >= 1 {
                assert(copy_entry(img, g, k, c) == raw_entry(img, g, c));
            } else {
                assert(g.first_mirror == 0 && k == 0);
            }
        }
    }
}

/// What FAT entry 1 is once it was checked.
pub open spec fn status_entry_checked(g: Geometry, mode: RepairMode, img: Seq<u8>) -> u32 {
    if mode.applies(RepairMode::fat_signatures()) && entry_1_damaged(img, g) {
        u32::MAX
    } else {
        raw_entry(img, g, 1)
    }
}

/// What the check of the FAT, up to the directory walk, may make of the image.
pub open spec fn fat_prepared(g: Geometry, mode: RepairMode, a: Seq<u8>, b: Seq<u8>) -> bool {
    &&& only_fat_changed(g, a, b)
    &&& slack_kept(g, a, b)
    &&& forall|c: u32|
        g.valid_cluster(c) ==> #[trigger] raw_entry(b, g, c) == if mode.marks() {
            unmarked(raw_entry(a, g, c))
        } else {
            raw_entry(a, g, c)
        }
    &&& copies_agree(g, a) ==> copies_agree(g, b)
    &&& mode.applies(RepairMode::fat_mirrors()) ==> copies_agree(g, b)
    &&& raw_entry(b, g, 1) == status_entry_checked(g, mode, a)
}

/// The check of the FAT, up to the directory walk.
pub proof fn lemma_fat_prepared(g: Geometry, mode: RepairMode, v: Vol)
    requires
        g.wf(v.img.len()),
    ensures
        fat_prepared(
            g,
            mode,
            v.img,
            mirrors_checked(
                g,
                signatures_checked(g, markers_prepared(g, v, mode), mode),
                mode,
            ).img,
        ),
{
    let one = markers_prepared(g, v, mode);
    let two = signatures_checked(g, one, mode);
    let three = mirrors_checked(g, two, mode);
    let f = |raw: u32| unmarked(raw);
    lemma_rewrite_entries(v.img, g, f, g.fat_entries());
    if copies_agree(g, v.img) {
        lemma_rewrite_copies(v.img, g, f, g.fat_entries());
    }
    lemma_restored(g, one.img);
    lemma_mirrors_synced(two.img, g, g.fat_entries());
    lemma_synced_copies(two.img, g);
    assert forall|c: u32| g.valid_cluster(c) implies #[trigger] raw_entry(three.img, g, c)
        == if mode.marks() {
        unmarked(raw_entry(v.img, g, c))
    } else {
        raw_entry(v.img, g, c)
    } by {
        assert(raw_entry(two.img, g, c) == raw_entry(one.img, g, c));
    }
    if mode.applies(RepairMode::fat_mirrors()) && !compares_mirrors(g, mode) {
        assert(g.mirrors == 1);
        assert forall|k: int, c: u32|
            g.first_mirror <= k < g.first_mirror + g.mirrors && c < g.fat_entries()
                && !signature_damaged(three.img, g, c) implies #[trigger] copy_entry(
            three.img,
            g,
            k,
            c,
        ) == raw_entry(three.img, g, c) by {
            assert(k == g.first_mirror);
        }
    }
}

/// Restoring the reserved entries touches nothing but them.
pub proof fn lemma_restored(g: Geometry, img: Seq<u8>)
    requires
        g.wf(img.len()),
    ensures
        only_fat_changed(g, img, reserved_entries_restored(img, g)),
        slack_kept(g, img, reserved_entries_restored(img, g)),
        forall|c: u32|
            g.valid_cluster(c) ==> #[trigger] raw_entry(reserved_entries_restored(img, g), g, c)
                == raw_entry(img, g, c),
        raw_entry(reserved_entries_restored(img, g), g, 1) == if entry_1_damaged(img, g) {
            u32::MAX
        } else {
            raw_entry(img, g, 1)
        },
        copies_agree(g, img) ==> copies_agree(g, reserved_entries_restored(img, g)),
{
    let media = media_entry(g);
    let one = if entry_0_damaged(img, g) {
        put_entry(img, g, 0, media)
    } else {
        img
    };
    lemma_put_entry(img, g, 0, media);
    lemma_put_entry(one, g, 1, u32::MAX);
    if copies_agree(g, img) {
        lemma_put_copies(img, g, 0, media);
        lemma_put_copies(one, g, 1, u32::MAX);
    }
}

/// An image with the same data and the same links stays in the directories.
pub proof fn lemma_contained(g: Geometry, a: Seq<u8>, b: Seq<u8>)
    requires
        g.wf(a.len()),
        a.len() == b.len(),
        data_kept(g, a, b),
        forall|c: u32|
            g.valid_cluster(c) ==> entry_of(#[trigger] raw_entry(b, g, c)) == entry_of(
                raw_entry(a, g, c),
            ),
    ensures
        contained(g, a, b),
{
    assert forall|c: u32|
        #![trigger cluster_kept(g, a, b, c)]
        g.valid_cluster(c) && !in_dirs(g, a, c) implies cluster_kept(g, a, b, c) by {
        g.lemma_cluster_bounds(a.len(), c as int);
    }
    assert forall|c: u32| g.valid_cluster(c) implies #[trigger] link_of(b, g, c) == link_of(
        a,
        g,
        c,
    ) by {
        assert(entry_of(raw_entry(b, g, c)) == entry_of(raw_entry(a, g, c)));
    }
}

/// What everything up to the end of the directory walk may make of the FAT entry `x` of a cluster.
pub open spec fn entry_walked(mode: RepairMode, x: u32, y: u32) -> bool {
    &&& entry_of(y) == entry_of(x) || (cuts_chains(mode) && allocated(x)
        && entry_of(y) is EndOfChain)
    &&& mode.marks() ==> (marked(y) ==> allocated(x))
    &&& !mode.marks() ==> marked(y) == marked(x)
}

/// What everything up to the end of the directory walk may make of the volume.
pub open spec fn walked_ok(g: Geometry, mode: RepairMode, a: Vol, b: Vol) -> bool {
    &&& reserved_kept(g, a.img, b.img)
    &&& slack_kept(g, a.img, b.img)
    &&& contained(g, a.img, b.img)
    &&& forall|c: u32|
        g.valid_cluster(c) ==> entry_walked(
            mode,
            raw_entry(a.img, g, c),
            #[trigger] raw_entry(b.img, g, c),
        )
    &&& copies_agree(g, a.img) || mode.applies(RepairMode::fat_mirrors()) ==> copies_agree(
        g,
        b.img,
    )
    &&& !edits_dirs(mode) ==> data_kept(g, a.img, b.img)
    &&& raw_entry(b.img, g, 1) == status_entry_checked(g, mode, a.img)
    &&& quiet(a.stats, b.stats) ==> data_kept(g, a.img, b.img) && forall|c: u32|
        g.valid_cluster(c) ==> unmarked(#[trigger] raw_entry(b.img, g, c)) == unmarked(
            raw_entry(a.img, g, c),
        )
    &&& b.stats.modes_applied == a.stats.modes_applied
    &&& b.stats.fsinfo_corrected == a.stats.fsinfo_corrected
    &&& b.stats.orphans_freed == a.stats.orphans_freed
    &&& b.stats.clusters_freed == a.stats.clusters_freed
}

/// Taking a marker off twice is taking it off once.
pub proof fn lemma_unmarked_twice(raw: u32)
    ensures
        unmarked(unmarked(raw)) == unmarked(raw),
{
    assert((raw & !0x1000_0000u32) & !0x1000_0000u32 == raw & !0x1000_0000u32) by (bit_vector);
}

/// The volume once the FAT was checked, before the root directory is claimed.
pub open spec fn prepared(g: Geometry, v: Vol, mode: RepairMode) -> Vol {
    mirrors_checked(g, signatures_checked(g, markers_prepared(g, v, mode), mode), mode)
}

/// The check of the FAT changes nothing behind it, and chains only by where they are cut.
pub proof fn lemma_checked_contained(g: Geometry, mode: RepairMode, v: Vol)
    requires
        g.wf(v.img.len()),
    ensures
        contained(g, v.img, fat_checked(g, v, mode).img),
{
    let pre = prepared(g, v, mode);
    lemma_fat_prepared(g, mode, v);
    assert forall|c: u32| g.valid_cluster(c) implies entry_of(#[trigger] raw_entry(pre.img, g, c))
        == entry_of(raw_entry(v.img, g, c)) by {
        lemma_unmarked(raw_entry(v.img, g, c));
    }
    lemma_contained(g, v.img, pre.img);
    lemma_chain_kept(g, mode, v.img, pre, g.root_dir_first_cluster, None);
}

/// The directory walk keeps what it has to keep, from when the FAT was checked on.
pub proof fn lemma_walk_kept(
    g: Geometry,
    mode: RepairMode,
    v: Vol,
    room: nat,
)
    requires
        g.wf(v.img.len()),
    ensures
        fat_prepared(g, mode, v.img, prepared(g, v, mode).img),
        kept(g, mode, prepared(g, v, mode), tree_checked(g, v, mode, room).0),
        contained(g, v.img, tree_checked(g, v, mode, room).0.img),
{
    let pre = prepared(g, v, mode);
    lemma_fat_prepared(g, mode, v);
    assert forall|c: u32| g.valid_cluster(c) implies entry_of(#[trigger] raw_entry(pre.img, g, c))
        == entry_of(raw_entry(v.img, g, c)) by {
        lemma_unmarked(raw_entry(v.img, g, c));
    }
    lemma_contained(g, v.img, pre.img);
    let claimed = fat_checked(g, v, mode);
    lemma_kept_self(g, mode, pre);
    lemma_chain_kept(g, mode, v.img, pre, g.root_dir_first_cluster, None);
    let frames = seq![root_frame()];
    lemma_dirs_root(g, v.img);
    assert forall|i: int| 0 <= i < frames.len() implies frame_ok(g, #[trigger] frames[i])
        && in_dirs(g, v.img, dir_start(g, frames[i].cluster)) by {
        assert(frames[i] == root_frame());
    }
    lemma_stack_stays(g, mode, v.img, claimed, frames, room);
    lemma_kept_trans(g, mode, pre, claimed, tree_checked(g, v, mode, room).0);
}

/// Everything up to the end of the directory walk.
pub proof fn lemma_tree_checked(
    g: Geometry,
    mode: RepairMode,
    v: Vol,
    room: nat,
)
    requires
        g.wf(v.img.len()),
    ensures
        walked_ok(g, mode, v, tree_checked(g, v, mode, room).0),
{
    let pre = prepared(g, v, mode);
    lemma_walk_kept(g, mode, v, room);
    assert forall|c: u32| g.valid_cluster(c) implies entry_of(#[trigger] raw_entry(pre.img, g, c))
        == entry_of(raw_entry(v.img, g, c)) && (mode.marks() ==> !marked(
        raw_entry(pre.img, g, c),
    )) by {
        lemma_unmarked(raw_entry(v.img, g, c));
    }
    let walked = tree_checked(g, v, mode, room).0;
    if quiet(v.stats, walked.stats) {
        assert(quiet(pre.stats, walked.stats));
        assert forall|c: u32| g.valid_cluster(c) implies unmarked(
            #[trigger] raw_entry(walked.img, g, c),
        ) == unmarked(raw_entry(v.img, g, c)) by {
            lemma_unmarked(raw_entry(v.img, g, c));
            lemma_unmarked_twice(raw_entry(v.img, g, c));
            assert(unmarked(raw_entry(walked.img, g, c)) == unmarked(raw_entry(pre.img, g, c)));
        }
    }
    assert forall|c: u32| g.valid_cluster(c) implies entry_walked(
        mode,
        raw_entry(v.img, g, c),
        #[trigger] raw_entry(walked.img, g, c),
    ) by {
        assert(entry_kept(mode, raw_entry(pre.img, g, c), raw_entry(walked.img, g, c)));
    }
    assert(raw_entry(walked.img, g, 1) == raw_entry(pre.img, g, 1));
}

/// What the sweep may make of the volume.
pub proof fn lemma_tree_swept(g: Geometry, mode: RepairMode, v: Vol)
    requires
        g.wf(v.img.len()),
    ensures
        only_fat_changed(g, v.img, tree_swept(g, v, mode).img),
        slack_kept(g, v.img, tree_swept(g, v, mode).img),
        forall|c: u32|
            g.valid_cluster(c) ==> #[trigger] raw_entry(tree_swept(g, v, mode).img, g, c)
                == if mode.marks() {
                swept(raw_entry(v.img, g, c), may_reclaim(v.stats))
            } else {
                raw_entry(v.img, g, c)
            },
        raw_entry(tree_swept(g, v, mode).img, g, 1) == raw_entry(v.img, g, 1),
        copies_agree(g, v.img) ==> copies_agree(g, tree_swept(g, v, mode).img),
        tree_swept(g, v, mode).stats.dirs_skipped == v.stats.dirs_skipped,
{
    let reclaim = may_reclaim(v.stats);
    let f = |raw: u32| swept(raw, reclaim);
    lemma_rewrite_entries(v.img, g, f, g.fat_entries());
    if copies_agree(g, v.img) {
        lemma_rewrite_copies(v.img, g, f, g.fat_entries());
    }
}

/// Storing a window of the FAT that was loaded from it, with one entry replaced, replaces that entry.
pub proof fn lemma_put_window(img: Seq<u8>, g: Geometry, raw: u32)
    requires
        g.wf(img.len()),
    ensures
        ({
            let buf = splice(window_on_disk(img, g, 0), 4, u32_bytes(raw));
            let new = put_fat(img, g, 0, buf);
            &&& only_fat_changed(g, img, new)
            &&& raw_entry(new, g, 1) == raw
            &&& forall|c: u32|
                c < g.fat_entries() && c != 1 ==> #[trigger] raw_entry(new, g, c) == raw_entry(
                    img,
                    g,
                    c,
                )
            &&& copies_agree(g, img) ==> copies_agree(g, new)
        }),
{
    let start = g.copy_start(g.first_mirror as int);
    let loaded = window_on_disk(img, g, 0);
    let buf = splice(loaded, 4, u32_bytes(raw));
    let new = put_fat(img, g, 0, buf);
    let n = g.mirrors as nat;
    g.lemma_copy_bounds(img.len(), g.first_mirror as int);
    assert(512 <= g.fat_size);
    lemma_put_fat_len(img, g, 0, buf, n);
    lemma_u32_round_trip(loaded, 4, raw);
    assert forall|i: int| 0 <= i < g.fat_start || g.fats_end() <= i < img.len() implies
        #[trigger] new[i] == img[i] by {
        assert forall|k: int| g.first_mirror <= k < g.first_mirror + n implies !(
        #[trigger] g.copy_start(k) + 0 <= i < g.copy_start(k) + 0 + buf.len()) by {
            g.lemma_copy_bounds(img.len(), k);
        }
        lemma_put_fat_outside(img, g, 0, buf, n, i);
    }
    assert forall|k: int, c: u32|
        g.first_mirror <= k < g.first_mirror + n && c < g.fat_entries() implies #[trigger] copy_entry(
        new,
        g,
        k,
        c,
    ) == if c < 128 {
        le_u32(buf, 4 * c)
    } else {
        copy_entry(img, g, k, c)
    } by {
        g.lemma_copy_bounds(img.len(), k);
        let at = g.entry_start(k, c as int);
        if c < 128 {
            assert forall|j: int| 0 <= j < 4 implies #[trigger] new[at + j] == buf[4 * c + j] by {
                lemma_put_fat_inside(img, g, 0, buf, n, k, at + j);
            }
            assert(new[at + 0] == buf[4 * c + 0]);
        } else {
            assert forall|j: int| 0 <= j < 4 implies #[trigger] new[at + j] == img[at + j] by {
                assert forall|m: int| g.first_mirror <= m < g.first_mirror + n implies !(
                #[trigger] g.copy_start(m) + 0 <= at + j < g.copy_start(m) + 0 + buf.len()) by {
                    if m < k {
                        g.lemma_copies_disjoint(img.len(), m, k);
                    } else if k < m {
                        g.lemma_copies_disjoint(img.len(), k, m);
                    }
                }
                lemma_put_fat_outside(img, g, 0, buf, n, at + j);
            }
            assert(new[at + 0] == img[at + 0]);
        }
    }
    let first = g.first_mirror as int;
    assert(copy_entry(new, g, first, 1) == le_u32(buf, 4));
    assert forall|c: u32| c < g.fat_entries() && c != 1 implies #[trigger] raw_entry(new, g, c)
        == raw_entry(img, g, c) by {
        assert(copy_entry(new, g, first, c) == raw_entry(new, g, c));
        if c < 128 {
            let at = g.entry_start(first, c as int);
            assert(buf[4 * c + 0] == img[at + 0] && buf[4 * c + 1] == img[at + 1] && buf[4 * c + 2]
                == img[at + 2] && buf[4 * c + 3] == img[at + 3]);
        }
    }
    if copies_agree(g, img) {
        assert forall|k: int, c: u32|
            g.first_mirror <= k < g.first_mirror + g.mirrors && c < g.fat_entries()
                && !signature_damaged(new, g, c) implies #[trigger] copy_entry(new, g, k, c) == raw_entry(
            new,
            g,
            c,
            ) by {
            assert(copy_entry(new, g, first, c) == raw_entry(new, g, c));
            if c >= 128 {
                assert(copy_entry(img, g, k, c) == raw_entry(img, g, c));
                assert(copy_entry(img, g, first, c) == raw_entry(img, g, c));
            }
        }
    }
}

/// What the end of a run may make of the file system, when nothing is in the cache.
pub open spec fn wrapped_ok(
    g: Geometry,
    mode: RepairMode,
    stats: RepairStats,
    s: FsState,
    t: FsState,
) -> bool {
    let earned = mode.writes() && earned_clean(stats, mode);
    &&& t.img.len() == s.img.len()
    &&& data_kept(g, s.img, t.img)
    &&& forall|i: int| 0 <= i < g.fat_start && !may_change(g, i) ==> #[trigger] t.img[i] == s.img[i]
    &&& forall|c: u32|
        c < g.fat_entries() && c != 1 ==> #[trigger] raw_entry(t.img, g, c) == raw_entry(s.img, g, c)
    &&& copies_agree(g, s.img) ==> copies_agree(g, t.img)
    &&& !earned || raw_entry(s.img, g, 1) & FAT32_CLEAN_BIT != 0 ==> slack_kept(g, s.img, t.img)
    &&& t.img[STATUS_OFFSET as int] == if earned {
        s.img[STATUS_OFFSET as int] & !STATUS_DIRTY
    } else {
        s.img[STATUS_OFFSET as int]
    }
    &&& raw_entry(t.img, g, 1) == if earned {
        raw_entry(s.img, g, 1) | FAT32_CLEAN_BIT
    } else {
        raw_entry(s.img, g, 1)
    }
    &&& t.info.free_cluster_count == s.info.free_cluster_count
    &&& t.info.next_free_cluster == s.info.next_free_cluster
    &&& t.info.verified == s.info.verified
    &&& mode.writes() ==> !t.info.dirty
    &&& if mode.writes() && s.info.dirty {
        &&& le_u32(t.img, g.fs_info_start + 488) == info_field(s.info.free_cluster_count)
        &&& le_u32(t.img, g.fs_info_start + 492) == info_field(s.info.next_free_cluster)
    } else {
        &&& le_u32(t.img, g.fs_info_start + 488) == le_u32(s.img, g.fs_info_start + 488)
        &&& le_u32(t.img, g.fs_info_start + 492) == le_u32(s.img, g.fs_info_start + 492)
    }
    &&& !mode.writes() ==> t == s
}

/// A change in front of the FAT leaves the FAT and the data as they are.
proof fn lemma_front_kept(g: Geometry, a: Seq<u8>, b: Seq<u8>)
    requires
        g.wf(a.len()),
        a.len() == b.len(),
        forall|i: int| g.fat_start <= i < a.len() ==> #[trigger] b[i] == a[i],
    ensures
        data_kept(g, a, b),
        forall|c: u32|
            c < g.fat_entries() ==> #[trigger] raw_entry(b, g, c) == raw_entry(a, g, c),
        copies_agree(g, a) ==> copies_agree(g, b),
        fat_on_disk(b, g) == fat_on_disk(a, g),
{
    g.lemma_copy_bounds(a.len(), g.first_mirror as int);
    assert forall|k: int, c: u32|
        0 <= k < g.fats && c < g.fat_entries() implies #[trigger] copy_entry(b, g, k, c)
        == copy_entry(a, g, k, c) by {
        g.lemma_copy_bounds(a.len(), k);
    }
    assert forall|c: u32| c < g.fat_entries() implies #[trigger] raw_entry(b, g, c) == raw_entry(
        a,
        g,
        c,
    ) by {
        assert(copy_entry(b, g, g.first_mirror as int, c) == raw_entry(b, g, c));
    }
    if copies_agree(g, a) {
        assert forall|k: int, c: u32|
            g.first_mirror <= k < g.first_mirror + g.mirrors && c < g.fat_entries()
                && !signature_damaged(b, g, c) implies #[trigger] copy_entry(b, g, k, c) == raw_entry(
            b,
            g,
            c,
            ) by {
            assert(copy_entry(a, g, k, c) == raw_entry(a, g, c));
        }
    }
    assert(fat_on_disk(b, g) =~= fat_on_disk(a, g));
}

/// Storing the two values of the `FSInfo` sector.
proof fn lemma_info_put(g: Geometry, img: Seq<u8>, info: FsInfo)
    requires
        g.wf(img.len()),
    ensures
        ({
            let new = info_put(img, g, info);
            &&& new.len() == img.len()
            &&& forall|i: int|
                0 <= i < img.len() && !(g.fs_info_start + 488 <= i < g.fs_info_start + 496)
                    ==> #[trigger] new[i] == img[i]
            &&& data_kept(g, img, new)
            &&& forall|c: u32|
                c < g.fat_entries() ==> #[trigger] raw_entry(new, g, c) == raw_entry(img, g, c)
            &&& copies_agree(g, img) ==> copies_agree(g, new)
            &&& fat_on_disk(new, g) == fat_on_disk(img, g)
            &&& le_u32(new, g.fs_info_start + 488) == info_field(info.free_cluster_count)
            &&& le_u32(new, g.fs_info_start + 492) == info_field(info.next_free_cluster)
        }),
{
    let at = g.fs_info_start + 488;
    let a = u32_bytes(info_field(info.free_cluster_count));
    let b = u32_bytes(info_field(info.next_free_cluster));
    let new = info_put(img, g, info);
    g.lemma_copy_bounds(img.len(), 0);
    assert((a + b).len() == 8);
    lemma_front_kept(g, img, new);
    lemma_u32_round_trip(img, at, info_field(info.free_cluster_count));
    lemma_u32_round_trip(img, at + 4, info_field(info.next_free_cluster));
    let one = splice(img, at, a);
    let two = splice(img, at + 4, b);
    assert(new[at] == one[at] && new[at + 1] == one[at + 1] && new[at + 2] == one[at + 2] && new[at
        + 3] == one[at + 3]);
    assert(new[at + 4] == two[at + 4] && new[at + 5] == two[at + 5] && new[at + 6] == two[at + 6]
        && new[at + 7] == two[at + 7]);
}

/// The end of a run.
#[verifier::rlimit(40)]
pub proof fn lemma_wrapped_up(g: Geometry, mode: RepairMode, stats: RepairStats, s: FsState)
    requires
        g.wf(s.img.len()),
        s.cache.window is None,
        !s.cache.dirty,
    ensures
        wrapped_ok(g, mode, stats, s, wrapped_up(g, s, stats, mode)),
{
    let t = wrapped_up(g, s, stats, mode);
    if mode.writes() {
        let earned = earned_clean(stats, mode);
        g.lemma_copy_bounds(s.img.len(), 0);
        g.lemma_copy_bounds(s.img.len(), g.first_mirror as int);
        // The boot sector.
        let one = if earned {
            boot_flag_cleared(s.img)
        } else {
            s.img
        };
        let status = s.img[STATUS_OFFSET as int];
        assert(status & 1u8 == 0 ==> status & !1u8 == status) by (bit_vector);
        lemma_front_kept(g, s.img, one);
        // The FAT entry is changed in the cache, and stored last.
        let raw = raw_entry(one, g, 1);
        let loaded = window_on_disk(one, g, 0);
        assert(512 <= g.fat_size);
        assert(le_u32(loaded, 4) == raw);
        // The sector in between.
        let two = if s.info.dirty {
            info_put(one, g, s.info)
        } else {
            one
        };
        lemma_info_put(g, one, s.info);
        assert(window_on_disk(two, g, 0) =~= loaded);
        assert(raw & 0x0800_0000u32 != 0 ==> raw | 0x0800_0000u32 == raw) by (bit_vector);
        if earned && raw & FAT32_CLEAN_BIT == 0 {
            lemma_put_window(two, g, raw | FAT32_CLEAN_BIT);
            let buf = splice(loaded, 4, u32_bytes(raw | FAT32_CLEAN_BIT));
            assert(t.img == put_fat(two, g, 0, buf));
        } else {
            assert(t.img == two);
        }
    }
}

/// Images that are the same from the FAT on have the same FAT entries.
pub proof fn lemma_agrees_front(
    g: Geometry,
    a: Seq<u8>,
    b: Seq<u8>,
    was: Seq<(int, int)>,
    now: Seq<(int, int)>,
)
    requires
        g.wf(a.len()),
        forall|i: int| g.fat_start <= i < a.len() ==> #[trigger] b[i] == a[i],
    ensures
        clusters_agree(g, a, b, was, now),
{
    let k = g.first_mirror as int;
    g.lemma_copy_bounds(a.len(), k);
    assert forall|c: u32| g.valid_cluster(c) implies #[trigger] raw_entry(b, g, c) == raw_entry(
        a,
        g,
        c,
    ) by {
        let at = g.entry_start(k, c as int);
        assert(b[at] == a[at] && b[at + 1] == a[at + 1] && b[at + 2] == a[at + 2] && b[at + 3] == a[at
            + 3]);
    }
}

/// Storing what is held back at the end of a run that began with an empty cache changes no cluster's FAT entry, whether
/// it succeeds or not, except where a write failed.
pub proof fn lemma_flush_agrees(s: FsState, m: FsState, g: Geometry)
    requires
        g.wf(s.img.len()),
        s.cache.window is None,
        !s.cache.dirty,
        m == s || m == (FsState { clean_withheld: true, ..s }) || m == marked_clean(s, g),
        m.img.len() == s.img.len(),
        forall|i: int| g.fat_start <= i < s.img.len() ==> #[trigger] m.img[i] == s.img[i],
    ensures
        forall|b: Seq<u8>, was: Seq<(int, int)>, now: Seq<(int, int)>| #[trigger]
            read_copy_between(g, m.img, written_back(m, g).img, b, was, now) ==> clusters_agree(
                g,
                s.img,
                b,
                was,
                now,
            ),
{
    let k = g.first_mirror as int;
    g.lemma_copy_bounds(s.img.len(), k);
    let w = written_back(m, g).img;
    lemma_agrees_front(g, s.img, m.img, Seq::empty(), Seq::empty());
    let start = g.copy_start(k);
    let n = g.mirrors as nat;
    let loaded = window_on_disk(m.img, g, 0);
    assert(512 <= g.fat_size);
    assert forall|i: int| start + 8 <= i < start + g.fat_size implies #[trigger] w[i] == m.img[i] by {
        if m.cache.dirty && m.cache.window is Some {
            let buf = m.cache.buf;
            assert(m.cache.window == Some(0u64));
            if i < start + 512 {
                lemma_put_fat_inside(m.img, g, 0, buf, n, k, i);
                assert(buf[i - start] == loaded[i - start]);
            } else {
                assert forall|j: int| g.first_mirror <= j < g.first_mirror + n implies !(
                #[trigger] g.copy_start(j) + 0 <= i < g.copy_start(j) + 0 + buf.len()) by {
                    if k < j {
                        g.lemma_copies_disjoint(m.img.len(), k, j);
                    }
                }
                lemma_put_fat_outside(m.img, g, 0, buf, n, i);
            }
        }
    }
    assert forall|b: Seq<u8>, was: Seq<(int, int)>, now: Seq<(int, int)>| #[trigger]
        read_copy_between(g, m.img, w, b, was, now) implies clusters_agree(g, s.img, b, was, now) by {
        assert forall|c: u32| g.valid_cluster(c) && !entry_struck(g, was, now, c) implies #[trigger] raw_entry(
            b,
            g,
            c,
        ) == raw_entry(s.img, g, c) by {
            let at = g.entry_start(k, c as int);
            assert forall|j: int| 0 <= j < 4 implies #[trigger] b[at + j] == m.img[at + j] by {
                if struck(was, now, at + j, at + j + 1) {
                    let x = choose|x: int|
                        was.len() <= x < now.len() && (#[trigger] now[x]).0 < at + j + 1 && at + j
                            < now[x].1;
                    assert(now[x].0 < at + 4 && at < now[x].1);
                }
                assert(w[at + j] == m.img[at + j]);
            }
            assert(b[at + 0] == m.img[at + 0]);
            assert(raw_entry(m.img, g, c) == raw_entry(s.img, g, c));
        }
    }
}

} // verus!
