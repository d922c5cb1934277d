//! What two modes make of the same volume.

use vstd::prelude::*;

use crate::counts::lemma_stack_counts;
use crate::fat::{lemma_zero_entry, marked, raw_entry, FAT32_VALUE_MASK};
use crate::fs::FsState;
use crate::geometry::Geometry;
use crate::kept::data_kept;
use crate::laws::{lemma_before, lemma_phases, opening, ready, settled};
use crate::mode::{law_composite_modes, RepairMode};
use crate::model::Vol;
use crate::passes::{lemma_rewrite_entries, lemma_unmarked, unmarked};
use crate::phases::{lemma_fat_prepared, prepared};
use crate::repair::{fat_checked, markers_prepared, repaired, signatures_checked, tree_checked};
use crate::repeat_laws::law_all_is_thorough;
use crate::stale::{alike, claims_ok, lemma_alike_chain, lemma_alike_stack, no_cross, partners, same_report};
use crate::walk::{frame_ok, root_frame, stack_walked};

verus! {

/// Whether a run in `all` does what one in `min` does, and reclaims what nobody reaches besides.
pub open spec fn reclaims_besides(all: RepairMode, min: RepairMode) -> bool {
    &&& all.marks()
    &&& min.writes()
    &&& partners(all, min)
    &&& all.contains(RepairMode::fat_signatures()) == min.contains(RepairMode::fat_signatures())
    &&& all.contains(RepairMode::fat_mirrors()) == min.contains(RepairMode::fat_mirrors())
    &&& min.contains(RepairMode::chains())
}

/// A marker taken off changes no value.
pub proof fn lemma_unmarked_value(raw: u32)
    ensures
        unmarked(raw) & FAT32_VALUE_MASK == raw & FAT32_VALUE_MASK,
{
    assert((raw & !0x1000_0000u32) & 0x0FFF_FFFFu32 == raw & 0x0FFF_FFFFu32) by (bit_vector);
}

/// Up to where the walk begins, both runs leave the same values and report the same.
proof fn lemma_both_prepared(g: Geometry, v: Vol, w: Vol, all: RepairMode, min: RepairMode)
    requires
        g.wf(v.img.len()),
        v.img == w.img,
        same_report(v.stats, w.stats),
        reclaims_besides(all, min),
    ensures
        alike(g, prepared(g, v, all), prepared(g, w, min)),
        claims_ok(g, all, prepared(g, v, all).img),
        prepared(g, v, all).stats.cross_links_resolved == v.stats.cross_links_resolved,
{
    let a = prepared(g, v, all);
    let b = prepared(g, w, min);
    lemma_fat_prepared(g, all, v);
    lemma_fat_prepared(g, min, w);
    assert forall|c: u32| g.valid_cluster(c) implies (#[trigger] raw_entry(b.img, g, c))
        & FAT32_VALUE_MASK == raw_entry(a.img, g, c) & FAT32_VALUE_MASK by {
        lemma_unmarked_value(raw_entry(v.img, g, c));
    }
    assert(claims_ok(g, all, a.img)) by {
        reveal(claims_ok);
        assert forall|c: u32| g.valid_cluster(c) implies !marked(#[trigger] raw_entry(a.img, g, c)) by {
            lemma_unmarked(raw_entry(v.img, g, c));
        }
    }
    // The reserved entries are no clusters, and are never marked.
    let one = markers_prepared(g, v, all);
    lemma_rewrite_entries(v.img, g, |raw: u32| unmarked(raw), g.fat_entries());
    assert(raw_entry(one.img, g, 0) == raw_entry(v.img, g, 0));
    assert(raw_entry(one.img, g, 1) == raw_entry(v.img, g, 1));
    let two = signatures_checked(g, one, all);
    let other = signatures_checked(g, w, min);
    assert(same_report(two.stats, other.stats));
}

/// Both runs walk the same way, if the one that marks finds no cross link.
proof fn lemma_both_walked(g: Geometry, v: Vol, w: Vol, all: RepairMode, min: RepairMode, room: nat)
    requires
        g.wf(v.img.len()),
        v.img == w.img,
        same_report(v.stats, w.stats),
        reclaims_besides(all, min),
        v.stats.cross_links_resolved == 0,
        tree_checked(g, v, all, room).0.stats.cross_links_resolved == 0,
    ensures
        alike(g, tree_checked(g, v, all, room).0, tree_checked(g, w, min, room).0),
        tree_checked(g, w, min, room).1 == tree_checked(g, v, all, room).1,
{
    lemma_both_prepared(g, v, w, all, min);
    let a = prepared(g, v, all);
    let b = prepared(g, w, min);
    let x = fat_checked(g, v, all);
    let y = fat_checked(g, w, min);
    let frames = seq![root_frame()];
    lemma_stack_counts(g, x, frames, room, all);
    lemma_alike_chain(g, a, b, g.root_dir_first_cluster, None, all, min);
    assert forall|i: int| 0 <= i < frames.len() implies frame_ok(g, #[trigger] frames[i]) by {
        assert(frames[i] == root_frame());
    }
    assert(no_cross(all, x.stats, stack_walked(g, x, frames, room, all).0.stats));
    lemma_alike_stack(g, x, y, frames, room, all, min);
}

/// What a run leaves of the value of a cluster: what the walk left, unless the run marks and frees it.
proof fn lemma_value_left(g: Geometry, s: FsState, mode: RepairMode, room: nat, c: u32)
    requires
        ready(g, s),
        repaired(g, s, mode, room).1 is Ok,
        g.valid_cluster(c),
    ensures
        ({
            let now = raw_entry(repaired(g, s, mode, room).0.img, g, c) & FAT32_VALUE_MASK;
            let walked = tree_checked(g, opening(g, s, mode), mode, room).0;
            now == raw_entry(walked.img, g, c) & FAT32_VALUE_MASK || (mode.marks() && now == 0)
        }),
{
    lemma_phases(g, s, mode, room);
    let t = repaired(g, s, mode, room).0;
    let mid = settled(g, s, mode, room).0;
    let walked = tree_checked(g, opening(g, s, mode), mode, room).0;
    let raw = raw_entry(walked.img, g, c);
    assert(raw_entry(t.img, g, c) == raw_entry(mid.img, g, c));
    lemma_unmarked_value(raw);
    lemma_zero_entry();
}

/// The clusters that a run without marking frees: none.
proof fn lemma_none_freed(g: Geometry, s: FsState, mode: RepairMode, room: nat)
    requires
        ready(g, s),
        !mode.marks(),
    ensures
        repaired(g, s, mode, room).1 matches Ok(stats) ==> stats.clusters_freed == 0
            && stats.orphans_freed == 0,
{
    lemma_phases(g, s, mode, room);
}

/// Where the run that reclaims finds no cross link, the two runs differ in what they reclaim, never in what they keep:
/// what the FAT still says of a cluster behind the one that reclaims, it says behind the other one too. They leave the
/// same behind the FAT. The run that does not reclaim succeeds as well, and frees nothing.
pub proof fn law_modes_keep_the_same(
    g: Geometry,
    s: FsState,
    all: RepairMode,
    min: RepairMode,
    room: nat,
)
    requires
        ready(g, s),
        reclaims_besides(all, min),
        repaired(g, s, all, room).1 matches Ok(stats) && stats.cross_links_resolved == 0,
    ensures
        ({
            let x = repaired(g, s, all, room).0;
            let (y, res) = repaired(g, s, min, room);
            &&& res matches Ok(stats) && stats.clusters_freed == 0 && stats.orphans_freed == 0
            &&& data_kept(g, x.img, y.img)
            &&& forall|c: u32|
                g.valid_cluster(c) && (#[trigger] raw_entry(x.img, g, c)) & FAT32_VALUE_MASK != 0
                    ==> raw_entry(y.img, g, c) & FAT32_VALUE_MASK == raw_entry(x.img, g, c)
                    & FAT32_VALUE_MASK
        }),
{
    let v = opening(g, s, all);
    let w = opening(g, s, min);
    lemma_before(g, s);
    lemma_phases(g, s, all, room);
    lemma_phases(g, s, min, room);
    lemma_both_walked(g, v, w, all, min, room);
    lemma_none_freed(g, s, min, room);
    let x = repaired(g, s, all, room).0;
    let y = repaired(g, s, min, room).0;
    assert forall|c: u32|
        g.valid_cluster(c) && (#[trigger] raw_entry(x.img, g, c)) & FAT32_VALUE_MASK
            != 0 implies raw_entry(y.img, g, c) & FAT32_VALUE_MASK == raw_entry(x.img, g, c)
        & FAT32_VALUE_MASK by {
        lemma_value_left(g, s, all, room, c);
        lemma_value_left(g, s, min, room, c);
        let p = tree_checked(g, v, all, room).0;
        let q = tree_checked(g, w, min, room).0;
        assert(raw_entry(q.img, g, c) & FAT32_VALUE_MASK == raw_entry(p.img, g, c)
            & FAT32_VALUE_MASK);
    }
}

/// [`RepairMode::minimal`] fixes everything that [`RepairMode::all`] does, except for leaks: where `all` resolves no
/// cross link, the two differ in what they reclaim, never in what they keep.
pub proof fn law_minimal_keeps_what_all_keeps(g: Geometry, s: FsState, room: nat)
    requires
        ready(g, s),
        repaired(g, s, RepairMode::all(), room).1 matches Ok(stats) && stats.cross_links_resolved
            == 0,
    ensures
        ({
            let x = repaired(g, s, RepairMode::all(), room).0;
            let (y, res) = repaired(g, s, RepairMode::minimal(), room);
            &&& res matches Ok(stats) && stats.clusters_freed == 0 && stats.orphans_freed == 0
            &&& data_kept(g, x.img, y.img)
            &&& forall|c: u32|
                g.valid_cluster(c) && (#[trigger] raw_entry(x.img, g, c)) & FAT32_VALUE_MASK != 0
                    ==> raw_entry(y.img, g, c) & FAT32_VALUE_MASK == raw_entry(x.img, g, c)
                    & FAT32_VALUE_MASK
        }),
{
    law_composite_modes();
    law_all_is_thorough();
    assert(0x007fu16 & 0x0001u16 == 0x0001u16 && 0x007fu16 & 0x0040u16 == 0x0040u16 && 0x006fu16
        & 0x0001u16 == 0x0001u16 && 0x006fu16 & 0x0040u16 == 0x0040u16 && 0x006fu16 & 0x0002u16
        == 0x0002u16 && 0x006fu16 & 0x0004u16 == 0x0004u16 && 0x006fu16 & 0x0008u16 == 0x0008u16)
        by (bit_vector);
    law_modes_keep_the_same(g, s, RepairMode::all(), RepairMode::minimal(), room);
}

} // verus!
