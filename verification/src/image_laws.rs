//! One repair after another, byte by byte.

use vstd::prelude::*;

use crate::boot::STATUS_OFFSET;
use crate::bytes::{le_u32, lemma_u32_bytes_of_field};
use crate::fat::{copy_entry, outside_tables, raw_entry, slack_kept};
use crate::fatcache::CacheView;
use crate::fs::{flushed, fs_info_sector, info_on_mount, may_change, FsState};
use crate::geometry::Geometry;
use crate::kept::{copies_agree, data_kept};
use crate::laws::{
    before, first_free_cluster, free_clusters, info_in_step, law_free_count, law_mirrors_agree, lemma_before,
    lemma_phases, lemma_same_counts, nothing_found, opening, ready, settled,
};
use crate::mode::{law_composite_modes, RepairMode};
use crate::passes::{
    is_free, lemma_count_bound, lemma_mirrors_synced, lemma_rewrite_entries, signature_damaged, unmarked,
};
use crate::phases::{lemma_walk_kept, prepared};
use crate::repair::{earned_clean, markers_prepared, repaired, signatures_checked, tree_checked, wrapped_up};
use crate::repeat_laws::{
    law_all_is_thorough, law_second_repair, lemma_ready_again, lemma_reserved_left, lemma_reserved_swept, root_chain,
};
use crate::visits::{fit_name, thorough};

verus! {

/// Whether a run in `mode` repairs everything: it is thorough, and puts the FAT and the `FSInfo` sector in order.
pub open spec fn complete(mode: RepairMode) -> bool {
    &&& thorough(mode)
    &&& mode.applies(RepairMode::fat_signatures())
    &&& mode.applies(RepairMode::fat_mirrors())
    &&& mode.applies(RepairMode::fs_info())
}

/// The file system as it is once `img` was mounted.
pub open spec fn mounted(img: Seq<u8>, g: Geometry) -> FsState {
    FsState {
        img,
        info: info_on_mount(img, g),
        clean_withheld: false,
        cache: CacheView { window: None, dirty: false, buf: Seq::new(512, |i: int| 0u8) },
    }
}

/// Equal fields are made of equal bytes.
proof fn lemma_field_bytes(a: Seq<u8>, b: Seq<u8>, at: int)
    requires
        a.len() == b.len(),
        0 <= at,
        at + 4 <= a.len(),
        le_u32(a, at) == le_u32(b, at),
    ensures
        forall|i: int| at <= i < at + 4 ==> #[trigger] a[i] == b[i],
{
    lemma_u32_bytes_of_field(a, at);
    lemma_u32_bytes_of_field(b, at);
    let x = a.subrange(at, at + 4);
    let y = b.subrange(at, at + 4);
    assert forall|i: int| at <= i < at + 4 implies #[trigger] a[i] == b[i] by {
        assert(x[i - at] == a[i]);
        assert(y[i - at] == b[i]);
    }
}

/// Volumes whose FATs say the same in every copy that is kept in step, and that are the same everywhere else.
proof fn lemma_same_image(g: Geometry, a: Seq<u8>, b: Seq<u8>)
    requires
        g.wf(a.len()),
        a.len() == b.len(),
        forall|i: int| 0 <= i < g.fat_start ==> #[trigger] b[i] == a[i],
        slack_kept(g, a, b),
        data_kept(g, a, b),
        copies_agree(g, a),
        copies_agree(g, b),
        forall|c: u32| c < g.fat_entries() ==> !signature_damaged(a, g, c),
        forall|c: u32| c < g.fat_entries() ==> !signature_damaged(b, g, c),
        forall|c: u32| c < g.fat_entries() ==> #[trigger] raw_entry(b, g, c) == raw_entry(a, g, c),
    ensures
        b == a,
{
    assert forall|i: int| 0 <= i < a.len() implies #[trigger] b[i] == a[i] by {
        if g.fat_start <= i < g.fats_end() && !outside_tables(g, i) {
            let k = choose|k: int|
                g.first_mirror <= k < g.first_mirror + g.mirrors && #[trigger] g.copy_start(k) <= i
                    < g.copy_start(k) + 4 * g.fat_entries();
            g.lemma_copy_bounds(a.len(), k);
            let c = ((i - g.copy_start(k)) / 4) as u32;
            assert(c < g.fat_entries());
            assert(copy_entry(a, g, k, c) == raw_entry(a, g, c));
            assert(copy_entry(b, g, k, c) == raw_entry(b, g, c));
            lemma_field_bytes(a, b, g.entry_start(k, c as int));
        }
    }
    assert(b =~= a);
}

/// What the check of the FAT makes of reserved entries that are in order: nothing.
proof fn lemma_reserved_again(g: Geometry, r: FsState, mode: RepairMode, room: nat)
    requires
        ready(g, r),
        !signature_damaged(before(g, r), g, 0),
        !signature_damaged(before(g, r), g, 1),
    ensures
        ({
            let mid = settled(g, r, mode, room).0;
            &&& raw_entry(mid.img, g, 0) == raw_entry(before(g, r), g, 0)
            &&& raw_entry(mid.img, g, 1) == raw_entry(before(g, r), g, 1)
        }),
{
    let v = opening(g, r, mode);
    lemma_before(g, r);
    lemma_phases(g, r, mode, room);
    lemma_walk_kept(g, mode, v, room);
    let one = markers_prepared(g, v, mode);
    let two = signatures_checked(g, one, mode);
    let pre = prepared(g, v, mode);
    lemma_rewrite_entries(v.img, g, |raw: u32| unmarked(raw), g.fat_entries());
    assert(raw_entry(one.img, g, 0) == raw_entry(v.img, g, 0));
    assert(raw_entry(one.img, g, 1) == raw_entry(v.img, g, 1));
    assert(two.img == one.img);
    lemma_mirrors_synced(two.img, g, g.fat_entries());
    assert(raw_entry(pre.img, g, 0) == raw_entry(two.img, g, 0));
    assert(raw_entry(pre.img, g, 1) == raw_entry(two.img, g, 1));
    let walked = tree_checked(g, v, mode, room).0;
    assert(raw_entry(walked.img, g, 0) == raw_entry(pre.img, g, 0));
    assert(raw_entry(walked.img, g, 1) == raw_entry(pre.img, g, 1));
    lemma_reserved_swept(g, walked, mode);
}

/// Whether the second of two complete runs finds no long name that goes with no entry: the first one renamed nothing,
/// or the second one removes nothing.
pub open spec fn no_stray_names(g: Geometry, s: FsState, mode: RepairMode, room: nat) -> bool {
    let (once, first) = repaired(g, s, mode, room);
    ||| first->Ok_0.entries_recovered == 0
    ||| {
        &&& fit_name(g.volume_label@)
        &&& repaired(g, once, mode, room).1 matches Ok(stats) ==> stats.entries_removed == 0
    }
}

/// A volume that a complete run has repaired, as it is found by the next one.
proof fn lemma_found_in_order(g: Geometry, s: FsState, r: FsState, mode: RepairMode, room: nat)
    requires
        ready(g, s),
        complete(mode),
        repaired(g, s, mode, room).1 is Ok,
        no_stray_names(g, s, mode, room),
        root_chain(g, before(g, s)).len() > 0,
        ready(g, r),
        r.img == repaired(g, s, mode, room).0.img,
        !r.cache.dirty,
    ensures
        ({
            let (once, first) = repaired(g, s, mode, room);
            let (t, res) = repaired(g, r, mode, room);
            &&& res matches Ok(stats) && nothing_found(stats) && stats.dirs_skipped
                == first->Ok_0.dirs_skipped
            &&& data_kept(g, once.img, t.img)
            &&& forall|c: u32|
                g.valid_cluster(c) ==> #[trigger] raw_entry(t.img, g, c) == raw_entry(once.img, g, c)
        }),
{
    let (once, first) = repaired(g, s, mode, room);
    let (twice, second) = repaired(g, once, mode, room);
    law_second_repair(g, s, mode, room);
    lemma_ready_again(g, s, mode, room);
    lemma_before(g, once);
    lemma_before(g, r);
    lemma_phases(g, once, mode, room);
    lemma_phases(g, r, mode, room);
    let t = repaired(g, r, mode, room).0;
    assert(opening(g, r, mode) == opening(g, once, mode));
    let mid = settled(g, once, mode, room).0;
    let other = settled(g, r, mode, room).0;
    assert(mid.img == other.img);
    assert forall|c: u32| g.valid_cluster(c) implies #[trigger] raw_entry(t.img, g, c) == raw_entry(
        once.img,
        g,
        c,
    ) by {
        assert(raw_entry(t.img, g, c) == raw_entry(other.img, g, c));
        assert(raw_entry(twice.img, g, c) == raw_entry(mid.img, g, c));
    }
}

/// The `FSInfo` sector stays as it is.
proof fn lemma_info_again(g: Geometry, s: FsState, r: FsState, mode: RepairMode, room: nat)
    requires
        ready(g, s),
        info_in_step(g, s),
        complete(mode),
        repaired(g, s, mode, room).1 is Ok,
        ready(g, r),
        r.img == repaired(g, s, mode, room).0.img,
        !r.info.dirty,
        info_in_step(g, r),
        repaired(g, r, mode, room).1 is Ok,
        r.info.free_cluster_count == Some(free_clusters(g, r.img) as u32) || first_free_cluster(
            g,
            r.img,
        ) is Some,
        forall|c: u32|
            g.valid_cluster(c) ==> #[trigger] raw_entry(repaired(g, r, mode, room).0.img, g, c)
                == raw_entry(r.img, g, c),
    ensures
        ({
            let t = repaired(g, r, mode, room).0;
            &&& le_u32(t.img, g.fs_info_start + 488) == le_u32(r.img, g.fs_info_start + 488)
            &&& le_u32(t.img, g.fs_info_start + 492) == le_u32(r.img, g.fs_info_start + 492)
        }),
{
    let t = repaired(g, r, mode, room).0;
    law_free_count(g, s, mode, room);
    law_free_count(g, r, mode, room);
    let q = |raw: u32| is_free(raw);
    assert forall|c: u32| g.valid_cluster(c) implies q(#[trigger] raw_entry(t.img, g, c)) == q(
        raw_entry(r.img, g, c),
    ) by {}
    lemma_same_counts(g, t.img, q, r.img, q, g.fat_entries());
}

/// A complete repair that finds a volume as another one has left it leaves it so, byte for byte, whether the driver was
/// at it all the time or has mounted it anew.
///
/// What [`law_second_repair`] leaves out is left out here, and so are entries that were renamed, if they had long
/// names: the second run removes those. A driver that does not know the free-cluster count of a volume without a free
/// cluster may have a hint to write where there was none.
pub proof fn law_repaired_image_stays(
    g: Geometry,
    s: FsState,
    r: FsState,
    mode: RepairMode,
    room: nat,
)
    requires
        ready(g, s),
        info_in_step(g, s),
        complete(mode),
        repaired(g, s, mode, room).1 is Ok,
        no_stray_names(g, s, mode, room),
        root_chain(g, before(g, s)).len() > 0,
        ready(g, r),
        r.img == repaired(g, s, mode, room).0.img,
        !r.cache.dirty,
        !r.info.dirty,
        info_in_step(g, r),
        r.info.free_cluster_count == Some(free_clusters(g, r.img) as u32) || first_free_cluster(
            g,
            r.img,
        ) is Some,
    ensures
        repaired(g, r, mode, room).1 matches Ok(stats) && nothing_found(stats),
        repaired(g, r, mode, room).0.img == r.img,
{
    let (once, first) = repaired(g, s, mode, room);
    let (t, res) = repaired(g, r, mode, room);
    lemma_found_in_order(g, s, r, mode, room);
    lemma_info_again(g, s, r, mode, room);
    lemma_before(g, s);
    lemma_before(g, r);
    lemma_phases(g, s, mode, room);
    lemma_phases(g, r, mode, room);
    // The reserved entries.
    lemma_reserved_left(g, s, mode, room);
    lemma_reserved_left(g, r, mode, room);
    lemma_reserved_again(g, r, mode, room);
    let mid = settled(g, r, mode, room).0;
    let was = settled(g, s, mode, room).0;
    let earned = earned_clean(first->Ok_0, mode);
    assert(earned_clean(res->Ok_0, mode) == earned);
    let raw = raw_entry(was.img, g, 1);
    assert((raw | 0x0800_0000u32) & 0x0800_0000u32 != 0 && (raw | 0x0800_0000u32) | 0x0800_0000u32
        == raw | 0x0800_0000u32) by (bit_vector);
    assert(raw_entry(t.img, g, 1) == raw_entry(r.img, g, 1));
    assert(raw_entry(t.img, g, 0) == raw_entry(r.img, g, 0));
    assert forall|c: u32| c < g.fat_entries() implies #[trigger] raw_entry(t.img, g, c) == raw_entry(
        r.img,
        g,
        c,
    ) by {
        assert(c == 0 || c == 1 || g.valid_cluster(c));
    }
    law_mirrors_agree(g, s, mode, room);
    law_mirrors_agree(g, r, mode, room);
    // The front.
    let flags = was.img[STATUS_OFFSET as int];
    assert((flags & !1u8) & !1u8 == flags & !1u8) by (bit_vector);
    lemma_front_again(g, s, r, mode, room);
    lemma_same_image(g, r.img, t.img);
}

/// What is in front of the FAT stays as it is.
proof fn lemma_front_again(g: Geometry, s: FsState, r: FsState, mode: RepairMode, room: nat)
    requires
        ready(g, s),
        ready(g, r),
        mode.writes(),
        r.img == repaired(g, s, mode, room).0.img,
        !r.cache.dirty,
        repaired(g, s, mode, room).1 is Ok,
        repaired(g, r, mode, room).1 is Ok,
        earned_clean(repaired(g, r, mode, room).1->Ok_0, mode) == earned_clean(
            repaired(g, s, mode, room).1->Ok_0,
            mode,
        ),
        ({
            let t = repaired(g, r, mode, room).0;
            &&& le_u32(t.img, g.fs_info_start + 488) == le_u32(r.img, g.fs_info_start + 488)
            &&& le_u32(t.img, g.fs_info_start + 492) == le_u32(r.img, g.fs_info_start + 492)
        }),
    ensures
        forall|i: int|
            0 <= i < g.fat_start ==> #[trigger] repaired(g, r, mode, room).0.img[i] == r.img[i],
{
    let t = repaired(g, r, mode, room).0;
    lemma_before(g, s);
    lemma_before(g, r);
    lemma_phases(g, s, mode, room);
    lemma_phases(g, r, mode, room);
    let mid = settled(g, r, mode, room).0;
    let was = settled(g, s, mode, room).0;
    g.lemma_copy_bounds(r.img.len(), 0);
    let flags = was.img[STATUS_OFFSET as int];
    assert((flags & !1u8) & !1u8 == flags & !1u8) by (bit_vector);
    lemma_field_bytes(t.img, r.img, g.fs_info_start + 488);
    lemma_field_bytes(t.img, r.img, g.fs_info_start + 492);
    assert forall|i: int| 0 <= i < g.fat_start implies #[trigger] t.img[i] == r.img[i] by {
        assert(mid.img[i] == r.img[i]);
        if !may_change(g, i) {
            assert(t.img[i] == mid.img[i]);
        }
    }
}

/// Unmounting after a repair writes nothing more.
pub proof fn law_unmount_after_repair(g: Geometry, s: FsState, mode: RepairMode, room: nat)
    requires
        ready(g, s),
        mode.writes(),
        repaired(g, s, mode, room).1 is Ok,
    ensures
        flushed(repaired(g, s, mode, room).0, g).img == repaired(g, s, mode, room).0.img,
{
    let t = repaired(g, s, mode, room).0;
    lemma_before(g, s);
    lemma_phases(g, s, mode, room);
    lemma_ready_again(g, s, mode, room);
    let (mid, stats) = settled(g, s, mode, room);
    assert(t == wrapped_up(g, mid, stats, mode));
    let flags = mid.img[STATUS_OFFSET as int];
    assert((flags & !1u8) & 1u8 == 0) by (bit_vector);
}

/// A complete repair is idempotent: mounted again and repaired again, the volume is the same, byte for byte. The second
/// repair finds nothing. This is law [`law_repaired_image_stays`] for a driver that unmounts the volume in between.
pub proof fn law_repair_is_idempotent(g: Geometry, s: FsState, room: nat)
    requires
        ready(g, s),
        info_in_step(g, s),
        repaired(g, s, RepairMode::all(), room).1 is Ok,
        no_stray_names(g, s, RepairMode::all(), room),
        root_chain(g, before(g, s)).len() > 0,
        repaired(g, s, RepairMode::all(), room).1->Ok_0.dirs_skipped == 0 || first_free_cluster(
            g,
            repaired(g, s, RepairMode::all(), room).0.img,
        ) is Some,
    ensures
        ({
            let all = RepairMode::all();
            let a = flushed(repaired(g, s, all, room).0, g).img;
            let (t, res) = repaired(g, mounted(a, g), all, room);
            &&& res matches Ok(stats) && nothing_found(stats)
            &&& flushed(t, g).img == a
        }),
{
    let all = RepairMode::all();
    law_all_is_complete();
    law_composite_modes();
    law_unmount_after_repair(g, s, all, room);
    let (once, first) = repaired(g, s, all, room);
    let r = mounted(once.img, g);
    lemma_before(g, s);
    lemma_phases(g, s, all, room);
    law_free_count(g, s, all, room);
    lemma_mounted(g, s, all, room);
    law_repaired_image_stays(g, s, r, all, room);
    law_unmount_after_repair(g, r, all, room);
}

/// What a driver knows that mounts a volume after a complete repair.
proof fn lemma_mounted(g: Geometry, s: FsState, mode: RepairMode, room: nat)
    requires
        ready(g, s),
        info_in_step(g, s),
        complete(mode),
        repaired(g, s, mode, room).1 is Ok,
    ensures
        ({
            let (once, first) = repaired(g, s, mode, room);
            let r = mounted(once.img, g);
            &&& ready(g, r)
            &&& info_in_step(g, r)
            &&& earned_clean(first->Ok_0, mode) ==> r.info.free_cluster_count == Some(
                free_clusters(g, r.img) as u32,
            )
        }),
{
    let (once, first) = repaired(g, s, mode, room);
    lemma_before(g, s);
    lemma_phases(g, s, mode, room);
    law_free_count(g, s, mode, room);
    g.lemma_copy_bounds(once.img.len(), 0);
    let sector = fs_info_sector(once.img, g);
    let at = g.fs_info_start as int;
    assert(sector[488] == once.img[at + 488] && sector[489] == once.img[at + 489] && sector[490]
        == once.img[at + 490] && sector[491] == once.img[at + 491]);
    assert(le_u32(sector, 488) == le_u32(once.img, at + 488));
    let mid = settled(g, s, mode, room).0;
    let flags = mid.img[STATUS_OFFSET as int];
    assert((flags & !1u8) & 1u8 == 0) by (bit_vector);
    lemma_count_bound(once.img, g, |raw: u32| is_free(raw), g.fat_entries());
}

/// A run in [`RepairMode::all`] is complete.
pub proof fn law_all_is_complete()
    ensures
        complete(RepairMode::all()),
        RepairMode::all().contains(RepairMode::minimal()),
{
    law_all_is_thorough();
    assert(0x007fu16 & 0x0001u16 == 0x0001u16 && 0x007fu16 & 0x0020u16 == 0x0020u16 && 0x007fu16
        & 0x0040u16 == 0x0040u16 && 0x007fu16 & 0x006fu16 == 0x006fu16 && 0x007fu16 & 0x0080u16
        != 0x0080u16) by (bit_vector);
}

} // verus!
