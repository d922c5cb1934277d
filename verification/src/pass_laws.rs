//! What holds of the passes over the whole FAT.

use vstd::prelude::*;

use crate::bytes::{lemma_splice_same, lemma_u32_bytes_of_field, u32_bytes};
use crate::fat::{copy_entry, lemma_put_entry, lemma_zero_entry, marked, put_entry, put_fat_copies, raw_entry};
use crate::geometry::{Geometry, RESERVED_FAT_ENTRIES};
use crate::passes::{
    diverges, entry_0_damaged, entry_1_damaged, lemma_mirrors_synced, lemma_rewrite_entries, lemma_unmarked,
    markers_cleared, media_entry, mirrors_synced, orphans_swept, reserved_entries_restored, rewrite_entries, swept,
    unmarked,
};
use crate::phases::lemma_unmarked_twice;

verus! {

/// A rewrite that leaves every entry as it is, leaves the image as it is.
proof fn lemma_rewrite_nothing(img: Seq<u8>, g: Geometry, f: spec_fn(u32) -> u32, n: int)
    requires
        g.wf(img.len()),
        n <= g.fat_entries(),
        forall|c: u32| g.valid_cluster(c) ==> f(#[trigger] raw_entry(img, g, c)) == raw_entry(img, g, c),
    ensures
        rewrite_entries(img, g, f, n) == img,
    decreases n,
{
    if n > RESERVED_FAT_ENTRIES {
        lemma_rewrite_nothing(img, g, f, n - 1);
        let c = (n - 1) as u32;
        assert(g.valid_cluster(c));
        assert(f(raw_entry(img, g, c)) == raw_entry(img, g, c));
    }
}

/// Clearing the markers a second time changes nothing.
pub proof fn law_clearing_markers_twice(img: Seq<u8>, g: Geometry)
    requires
        g.wf(img.len()),
    ensures
        markers_cleared(markers_cleared(img, g), g) == markers_cleared(img, g),
{
    let f = |raw: u32| unmarked(raw);
    let once = markers_cleared(img, g);
    lemma_rewrite_entries(img, g, f, g.fat_entries());
    assert forall|c: u32| g.valid_cluster(c) implies f(#[trigger] raw_entry(once, g, c))
        == raw_entry(once, g, c) by {
        lemma_unmarked_twice(raw_entry(img, g, c));
    }
    lemma_rewrite_nothing(once, g, f, g.fat_entries());
}

/// After a sweep no cluster is marked, whatever was there before, and without reclaiming a second sweep changes
/// nothing.
pub proof fn law_sweeping(img: Seq<u8>, g: Geometry, reclaim: bool)
    requires
        g.wf(img.len()),
    ensures
        forall|c: u32|
            g.valid_cluster(c) ==> !marked(#[trigger] raw_entry(orphans_swept(img, g, reclaim), g, c)),
        orphans_swept(orphans_swept(img, g, reclaim), g, false) == orphans_swept(img, g, reclaim),
{
    let f = |raw: u32| swept(raw, reclaim);
    let h = |raw: u32| swept(raw, false);
    let once = orphans_swept(img, g, reclaim);
    lemma_rewrite_entries(img, g, f, g.fat_entries());
    lemma_zero_entry();
    assert forall|c: u32| g.valid_cluster(c) implies !marked(#[trigger] raw_entry(once, g, c))
        && h(raw_entry(once, g, c)) == raw_entry(once, g, c) by {
        lemma_unmarked(raw_entry(img, g, c));
    }
    lemma_rewrite_nothing(once, g, h, g.fat_entries());
}

/// Restoring the reserved FAT entries puts them right: a second look finds nothing to restore.
pub proof fn law_restoring_reserved_entries(img: Seq<u8>, g: Geometry)
    requires
        g.wf(img.len()),
    ensures
        !entry_0_damaged(reserved_entries_restored(img, g), g),
        !entry_1_damaged(reserved_entries_restored(img, g), g),
        reserved_entries_restored(reserved_entries_restored(img, g), g)
            == reserved_entries_restored(img, g),
{
    let m = g.media as u32;
    assert(m <= 0xFF ==> (0x0FFF_FF00u32 | m) & 0x0FFF_FFFFu32 == 0x0FFF_FF00u32 | m)
        by (bit_vector);
    assert((0xFFFF_FFFFu32 & 0x0FFF_FFFFu32) | 0x0C00_0000u32 == 0x0FFF_FFFFu32) by (bit_vector);
    let one = if entry_0_damaged(img, g) {
        put_entry(img, g, 0, media_entry(g))
    } else {
        img
    };
    lemma_put_entry(img, g, 0, media_entry(g));
    lemma_put_entry(one, g, 1, u32::MAX);
}

/// Writing an entry that every copy holds already changes nothing.
proof fn lemma_put_same(img: Seq<u8>, g: Geometry, c: u32, n: nat)
    requires
        g.wf(img.len()),
        c < g.fat_entries(),
        n <= g.mirrors,
        forall|k: int|
            g.first_mirror <= k < g.first_mirror + n ==> #[trigger] copy_entry(img, g, k, c)
                == raw_entry(img, g, c),
    ensures
        put_fat_copies(img, g, 4 * c, u32_bytes(raw_entry(img, g, c)), n) == img,
    decreases n,
{
    if n > 0 {
        lemma_put_same(img, g, c, (n - 1) as nat);
        let k = g.first_mirror + n - 1;
        g.lemma_copy_bounds(img.len(), k);
        let at = g.entry_start(k, c as int);
        assert(copy_entry(img, g, k, c) == raw_entry(img, g, c));
        lemma_u32_bytes_of_field(img, at);
        lemma_splice_same(img, at, u32_bytes(raw_entry(img, g, c)));
    }
}

proof fn lemma_sync_nothing(img: Seq<u8>, g: Geometry, n: int)
    requires
        g.wf(img.len()),
        n <= g.fat_entries(),
        forall|k: int, c: u32|
            g.first_mirror <= k < g.first_mirror + g.mirrors && c < g.fat_entries() && diverges(
                img,
                g,
                c,
            ) ==> #[trigger] copy_entry(img, g, k, c) == raw_entry(img, g, c),
    ensures
        mirrors_synced(img, g, n) == img,
    decreases n,
{
    if n > 0 {
        lemma_sync_nothing(img, g, n - 1);
        let c = (n - 1) as u32;
        if diverges(img, g, c) {
            lemma_put_same(img, g, c, g.mirrors as nat);
        }
    }
}

/// Bringing the mirrors into line a second time changes nothing.
pub proof fn law_syncing_mirrors_twice(img: Seq<u8>, g: Geometry)
    requires
        g.wf(img.len()),
    ensures
        mirrors_synced(mirrors_synced(img, g, g.fat_entries()), g, g.fat_entries())
            == mirrors_synced(img, g, g.fat_entries()),
{
    let once = mirrors_synced(img, g, g.fat_entries());
    lemma_mirrors_synced(img, g, g.fat_entries());
    assert forall|k: int, c: u32|
        g.first_mirror <= k < g.first_mirror + g.mirrors && c < g.fat_entries() && diverges(
            once,
            g,
            c,
        ) implies #[trigger] copy_entry(once, g, k, c) == raw_entry(once, g, c) by {
        if !diverges(img, g, c) {
            let j = choose|j: int|
                1 <= j < g.fats && #[trigger] copy_entry(once, g, j, c) != raw_entry(once, g, c);
            assert(copy_entry(img, g, j, c) != raw_entry(img, g, c));
        }
    }
    lemma_sync_nothing(once, g, g.fat_entries());
}

} // verus!
