//! Passes over the whole FAT.

use vstd::prelude::*;

use crate::again::lemma_distinct;
use crate::bounded::{entry_stays, fat_bounded, fat_stays, lemma_bounded_then, lemma_bounded_write};
use crate::chain::{is_way, lemma_linked_periodic, lemma_way_grows};
use crate::error::{fails_only_by_device, Error};
use crate::fat::{
    classify, copy_entry, entries_agree, entry_of, entry_struck, is_visited, lemma_put_entry, lemma_zero_entry, marked,
    only_fat_changed, put_entry, raw_entry, read_fat_copy, read_fat_raw, slack_kept, write_fat_raw, FatEntry,
    FAT32_FREE, FAT32_STATUS_BITS, FAT32_VALUE_MASK, FAT32_VISITED_BIT,
};
use crate::geometry::{Geometry, RESERVED_FAT_ENTRIES};
use crate::halting::Torn;
use crate::interrupted::{mirrors_stopped, mirrors_stopped_at, rewrite_stopped, rewrite_stopped_at, signatures_stopped};
use crate::mode::RepairMode;
use crate::stats::{bump, bump_by, count_one, RepairStats};
use crate::storage::Storage;
use crate::volume::Volume;

verus! {

/// What a pass over the whole FAT learned about free space.
#[derive(Clone, Copy, Debug, PartialEq, Eq)]
pub struct FreeSpace {
    /// How many clusters are free.
    pub count: u32,
    /// The lowest-numbered free cluster, if there is one.
    pub first: Option<u32>,
}

impl FreeSpace {
    /// Count `cluster` as free.
    pub fn note(&mut self, cluster: u32)
        requires
            old(self).count < u32::MAX,
        ensures
            final(self).count == old(self).count + 1,
            final(self).first == match old(self).first {
                Some(first) => Some(first),
                None => Some(cluster),
            },
    {
        self.count = self.count + 1;
        self.first.get_or_insert(cluster);
    }
}

/// How many of the clusters below `n` have a FAT entry that satisfies `p`.
pub open spec fn count_where(img: Seq<u8>, g: Geometry, p: spec_fn(u32) -> bool, n: int) -> nat
    decreases n,
{
    if n <= RESERVED_FAT_ENTRIES {
        0
    } else {
        count_where(img, g, p, n - 1) + if p(raw_entry(img, g, (n - 1) as u32)) {
            1nat
        } else {
            0nat
        }
    }
}

/// The lowest-numbered cluster below `n` whose FAT entry satisfies `p`.
pub open spec fn first_where(img: Seq<u8>, g: Geometry, p: spec_fn(u32) -> bool, n: int) -> Option<
    u32,
>
    decreases n,
{
    if n <= RESERVED_FAT_ENTRIES {
        None
    } else if first_where(img, g, p, n - 1) is Some {
        first_where(img, g, p, n - 1)
    } else if p(raw_entry(img, g, (n - 1) as u32)) {
        Some((n - 1) as u32)
    } else {
        None
    }
}

/// The clusters below `n` whose FAT entry satisfies `p`, taken as the free ones.
pub open spec fn free_space(img: Seq<u8>, g: Geometry, p: spec_fn(u32) -> bool, n: int) -> FreeSpace {
    FreeSpace { count: count_where(img, g, p, n) as u32, first: first_where(img, g, p, n) }
}

/// A count never exceeds the number of clusters it ranges over.
pub proof fn lemma_count_bound(img: Seq<u8>, g: Geometry, p: spec_fn(u32) -> bool, n: int)
    requires
        RESERVED_FAT_ENTRIES <= n,
    ensures
        count_where(img, g, p, n) <= n - RESERVED_FAT_ENTRIES,
    decreases n,
{
    if n > RESERVED_FAT_ENTRIES {
        lemma_count_bound(img, g, p, n - 1);
    }
}

/// Whether a FAT entry says its cluster is free.
pub open spec fn is_free(raw: u32) -> bool {
    entry_of(raw) is Free
}

/// The image with `f` applied to the FAT entry of every cluster below `n`. An entry that `f` leaves as it is, is not
/// written, so its mirrors stay as they are too.
pub open spec fn rewrite_entries(img: Seq<u8>, g: Geometry, f: spec_fn(u32) -> u32, n: int) -> Seq<
    u8,
>
    decreases n,
{
    if n <= RESERVED_FAT_ENTRIES {
        img
    } else {
        let before = rewrite_entries(img, g, f, n - 1);
        let c = (n - 1) as u32;
        let raw = raw_entry(img, g, c);
        if f(raw) != raw {
            put_entry(before, g, c, f(raw))
        } else {
            before
        }
    }
}

/// What a rewrite does to the FAT: `f` is applied to each entry below `n`, and nothing outside the FAT changes.
pub proof fn lemma_rewrite_entries(img: Seq<u8>, g: Geometry, f: spec_fn(u32) -> u32, n: int)
    requires
        g.wf(img.len()),
        n <= g.fat_entries(),
    ensures
        only_fat_changed(g, img, rewrite_entries(img, g, f, n)),
        slack_kept(g, img, rewrite_entries(img, g, f, n)),
        forall|b: u32|
            b < g.fat_entries() ==> #[trigger] raw_entry(rewrite_entries(img, g, f, n), g, b)
                == if RESERVED_FAT_ENTRIES <= b < n {
                f(raw_entry(img, g, b))
            } else {
                raw_entry(img, g, b)
            },
    decreases n,
{
    if n > RESERVED_FAT_ENTRIES {
        lemma_rewrite_entries(img, g, f, n - 1);
        let before = rewrite_entries(img, g, f, n - 1);
        let c = (n - 1) as u32;
        lemma_put_entry(before, g, c, f(raw_entry(img, g, c)));
    }
}

/// A FAT entry without the reachability marker.
pub open spec fn unmarked(raw: u32) -> u32 {
    raw & !FAT32_VISITED_BIT
}

/// The image without reachability markers.
pub open spec fn markers_cleared(img: Seq<u8>, g: Geometry) -> Seq<u8> {
    rewrite_entries(img, g, |raw: u32| unmarked(raw), g.fat_entries())
}

/// Clearing a marker matters exactly where there is one.
pub proof fn lemma_unmarked(raw: u32)
    ensures
        unmarked(raw) != raw <==> marked(raw),
        !marked(unmarked(raw)),
        entry_of(unmarked(raw)) == entry_of(raw),
{
    assert((raw & !0x1000_0000u32 != raw) == (raw & 0x1000_0000u32 != 0) && (raw & !0x1000_0000u32)
        & 0x1000_0000u32 == 0 && (raw & !0x1000_0000u32) & 0x0FFF_FFFFu32 == raw & 0x0FFF_FFFFu32)
        by (bit_vector);
}

/// Rewriting FAT entries one by one as a repair may is what a repair may do to the FAT.
proof fn lemma_rewritten_bounded(img: Seq<u8>, g: Geometry, f: spec_fn(u32) -> u32, n: int)
    requires
        g.wf(img.len()),
        n <= g.fat_entries(),
        forall|raw: u32| entry_stays(raw, #[trigger] f(raw)),
    ensures
        fat_stays(g, img, rewrite_entries(img, g, f, n)),
        forall|was: Seq<(int, int)>, now: Seq<(int, int)>| #[trigger]
            fat_bounded(g, img, rewrite_entries(img, g, f, n), was, now),
        forall|b: Seq<u8>, was: Seq<(int, int)>, now: Seq<(int, int)>| #[trigger]
            entries_agree(g, rewrite_entries(img, g, f, n), b, was, now) ==> fat_bounded(
                g,
                img,
                b,
                was,
                now,
            ),
{
    lemma_rewrite_entries(img, g, f, n);
    lemma_bounded_write(g, img, rewrite_entries(img, g, f, n));
}

/// Where a pass over the FAT may stop.
proof fn lemma_rewrite_stops(img: Seq<u8>, g: Geometry, f: spec_fn(u32) -> u32, n: int)
    requires
        RESERVED_FAT_ENTRIES <= n <= g.fat_entries(),
    ensures
        forall|t: Torn| #[trigger] rewrite_stopped(g, img, f, rewrite_entries(img, g, f, n), t),
        forall|b: Seq<u8>, t: Torn| #[trigger]
            rewrite_stopped_at(g, img, f, n, b, t) ==> rewrite_stopped(g, img, f, b, t),
{
    assert forall|t: Torn| #[trigger] rewrite_stopped(g, img, f, rewrite_entries(img, g, f, n), t) by {
        assert(rewrite_stopped_at(g, img, f, n, rewrite_entries(img, g, f, n), t));
    }
}

/// Where the comparison of the mirrors may stop.
proof fn lemma_mirrors_stop(img: Seq<u8>, g: Geometry, mode: RepairMode, n: int)
    requires
        0 <= n <= g.fat_entries(),
        compares_mirrors(g, mode),
        mode.writes(),
    ensures
        forall|t: Torn| #[trigger] mirrors_stopped(g, img, mode, mirrors_synced(img, g, n), t),
        forall|b: Seq<u8>, t: Torn| #[trigger]
            mirrors_stopped_at(g, img, n, b, t) ==> mirrors_stopped(g, img, mode, b, t),
{
    assert forall|t: Torn| #[trigger] mirrors_stopped(g, img, mode, mirrors_synced(img, g, n), t) by {
        assert(mirrors_stopped_at(g, img, n, mirrors_synced(img, g, n), t));
    }
}

/// Take the reachability marker off every cluster.
///
/// Entries 0 and 1 are not clusters. They are never marked, and entry 1 has status flags in its reserved bits.
pub fn clear_visited_flags<S: Storage>(vol: &mut Volume<S>) -> (res: Result<(), Error<S::Error>>)
    requires
        old(vol).wf(),
    ensures
        final(vol).continues(old(vol)),
        fat_bounded(
            old(vol).geom,
            old(vol).image(),
            final(vol).image(),
            old(vol).torn(),
            final(vol).torn(),
        ),
        res is Ok ==> final(vol).torn() == old(vol).torn(),
        final(vol).torn().len() <= old(vol).torn().len() + 1,
        res is Ok ==> fat_stays(old(vol).geom, old(vol).image(), final(vol).image()),
        only_fat_changed(old(vol).geom, old(vol).image(), final(vol).image()),
        res is Err ==> rewrite_stopped(
            old(vol).geom,
            old(vol).image(),
            |raw: u32| unmarked(raw),
            final(vol).image(),
            final(vol).since(old(vol)),
        ),
        fails_only_by_device(res, old(vol).reliable()),
        res is Ok ==> final(vol).image() == markers_cleared(old(vol).image(), old(vol).geom),
{
    let count: u32 = vol.geom.fat_entry_count();
    let ghost img = vol.image();
    let ghost g = vol.geom;
    let ghost f = |raw: u32| unmarked(raw);
    proof {
        assert forall|raw: u32| entry_stays(raw, #[trigger] f(raw)) by {
            lemma_unmarked(raw);
        }
        lemma_rewritten_bounded(img, g, f, RESERVED_FAT_ENTRIES as int);
    }
    let mut cluster: u32 = RESERVED_FAT_ENTRIES;
    while cluster < count
        invariant
            old(vol).wf(),
            g == old(vol).geom,
            img == old(vol).image(),
            f == |raw: u32| unmarked(raw),
            vol.continues(old(vol)),
            forall|raw: u32| entry_stays(raw, #[trigger] f(raw)),
            vol.torn() == old(vol).torn(),
            fat_stays(g, img, vol.image()),
            only_fat_changed(old(vol).geom, old(vol).image(), vol.image()),
            RESERVED_FAT_ENTRIES <= cluster <= count,
            count == g.fat_entries(),
            vol.image() == rewrite_entries(img, g, f, cluster as int),
        decreases count - cluster,
    {
        proof {
            lemma_rewrite_entries(img, g, f, cluster as int);
            lemma_rewritten_bounded(img, g, f, cluster as int);
            lemma_rewritten_bounded(img, g, f, cluster + 1);
            lemma_unmarked(raw_entry(img, g, cluster));
            lemma_rewrite_stops(img, g, f, cluster as int);
        }
        let raw: u32 = read_fat_raw(vol, cluster)?;
        if is_visited(raw) {
            let res: Result<(), Error<S::Error>> = write_fat_raw(
                vol,
                cluster,
                raw & !FAT32_VISITED_BIT,
            );
            proof {
                if res is Err {
                    assert(f(raw_entry(img, g, cluster)) == raw & !FAT32_VISITED_BIT);
                    assert(rewrite_stopped_at(
                        g,
                        img,
                        f,
                        cluster as int,
                        vol.image(),
                        vol.since(old(vol)),
                    ));
                }
            }
            res?;
        }
        cluster = cluster + 1;
    }
    proof {
        lemma_bounded_then(g, img, vol.image());
    }
    Ok(())
}

/// What FAT entry 0 has to hold: the media descriptor, padded with ones.
pub open spec fn media_entry(g: Geometry) -> u32 {
    0x0FFF_FF00u32 | (g.media as u32)
}

/// Whether FAT entry 0 is not what it has to be.
pub open spec fn entry_0_damaged(img: Seq<u8>, g: Geometry) -> bool {
    raw_entry(img, g, 0) & FAT32_VALUE_MASK != media_entry(g)
}

/// Whether FAT entry 1 is not an end-of-chain mark, its two status flags aside.
pub open spec fn entry_1_damaged(img: Seq<u8>, g: Geometry) -> bool {
    (raw_entry(img, g, 1) & FAT32_VALUE_MASK) | FAT32_STATUS_BITS != FAT32_VALUE_MASK
}

/// The image with damaged reserved FAT entries restored.
pub open spec fn reserved_entries_restored(img: Seq<u8>, g: Geometry) -> Seq<u8> {
    let one = if entry_0_damaged(img, g) {
        put_entry(img, g, 0, media_entry(g))
    } else {
        img
    };
    if entry_1_damaged(img, g) {
        put_entry(one, g, 1, u32::MAX)
    } else {
        one
    }
}

/// The report after the reserved FAT entries were looked at.
pub open spec fn reserved_entries_counted(
    img: Seq<u8>,
    g: Geometry,
    stats: RepairStats,
) -> RepairStats {
    let one = if entry_0_damaged(img, g) {
        bump(stats.reserved_entries_restored)
    } else {
        stats.reserved_entries_restored
    };
    let two = if entry_1_damaged(img, g) {
        bump(one)
    } else {
        one
    };
    RepairStats { reserved_entries_restored: two, ..stats }
}

/// Restore FAT entries 0 and 1, which hold fixed signature values rather than cluster links.
///
/// Entry 0 is the media descriptor padded with ones. Entry 1 is an end-of-chain mark whose top bits double as the
/// clean-shutdown and hard-error flags. When it is unreadable those flags cannot be recovered, so it is rewritten as
/// clean.
pub fn fix_reserved_entries<S: Storage>(
    vol: &mut Volume<S>,
    mode: RepairMode,
    stats: &mut RepairStats,
) -> (res: Result<(), Error<S::Error>>)
    requires
        old(vol).wf(),
    ensures
        final(vol).continues(old(vol)),
        fat_bounded(
            old(vol).geom,
            old(vol).image(),
            final(vol).image(),
            old(vol).torn(),
            final(vol).torn(),
        ),
        res is Ok ==> final(vol).torn() == old(vol).torn(),
        final(vol).torn().len() <= old(vol).torn().len() + 1,
        res is Ok ==> fat_stays(old(vol).geom, old(vol).image(), final(vol).image()),
        only_fat_changed(old(vol).geom, old(vol).image(), final(vol).image()),
        res is Err ==> signatures_stopped(
            old(vol).geom,
            old(vol).image(),
            mode,
            final(vol).image(),
            final(vol).since(old(vol)),
        ),
        fails_only_by_device(res, old(vol).reliable()),
        !mode.applies(RepairMode::fat_signatures()) ==> final(vol).image() == old(vol).image(),
        res is Ok && mode.applies(RepairMode::fat_signatures()) ==> final(vol).image()
            == reserved_entries_restored(old(vol).image(), old(vol).geom),
        res is Ok ==> *final(stats) == reserved_entries_counted(
            old(vol).image(),
            old(vol).geom,
            *old(stats),
        ),
{
    let writing: bool = mode.applies(RepairMode::fat_signatures());
    let expected_0: u32 = 0x0FFF_FF00u32 | (vol.geom.media as u32);
    let ghost img = vol.image();
    let ghost g = vol.geom;
    proof {
        lemma_put_entry(img, g, 0, expected_0);
        lemma_bounded_write(g, img, img);
        lemma_bounded_write(g, img, put_entry(img, g, 0, expected_0));
    }
    let entry_0: u32 = read_fat_raw(vol, 0)?;
    if entry_0 & FAT32_VALUE_MASK != expected_0 {
        count_one(&mut stats.reserved_entries_restored);
        if writing {
            write_fat_raw(vol, 0, expected_0)?;
        }
    }
    proof {
        lemma_bounded_write(g, img, vol.image());
        lemma_put_entry(vol.image(), g, 1, u32::MAX);
        lemma_bounded_write(g, img, put_entry(vol.image(), g, 1, u32::MAX));
    }
    let entry_1: u32 = read_fat_raw(vol, 1)?;
    if (entry_1 & FAT32_VALUE_MASK) | FAT32_STATUS_BITS != FAT32_VALUE_MASK {
        count_one(&mut stats.reserved_entries_restored);
        if writing {
            write_fat_raw(vol, 1, u32::MAX)?;
        }
    }
    Ok(())
}

/// Whether FAT entry `c` is a reserved one that is not what it has to be. It is no model for the mirrors: to restore it
/// is the first thing to do.
pub open spec fn signature_damaged(img: Seq<u8>, g: Geometry, c: u32) -> bool {
    (c == 0 && entry_0_damaged(img, g)) || (c == 1 && entry_1_damaged(img, g))
}

/// Whether some copy of the FAT that is kept in step disagrees with the one that is read about entry `c`, and should
/// not.
pub open spec fn diverges(img: Seq<u8>, g: Geometry, c: u32) -> bool {
    !signature_damaged(img, g, c) && exists|k: int|
        g.first_mirror <= k < g.first_mirror + g.mirrors && #[trigger] copy_entry(img, g, k, c)
            != raw_entry(img, g, c)
}

/// Nobody disputes a FAT entry that was just written, and another one as much as before.
proof fn lemma_put_divergence(g: Geometry, img: Seq<u8>, c: u32, raw: u32, b: u32)
    requires
        g.wf(img.len()),
        c < g.fat_entries(),
        b < g.fat_entries(),
    ensures
        diverges(put_entry(img, g, c, raw), g, b) == (b != c && diverges(img, g, b)),
{
    let new = put_entry(img, g, c, raw);
    lemma_put_entry(img, g, c, raw);
    if b != c {
        assert forall|k: int|
            g.first_mirror <= k < g.first_mirror + g.mirrors implies #[trigger] copy_entry(
            new,
            g,
            k,
            b,
        ) == copy_entry(img, g, k, b) by {}
        if diverges(img, g, b) {
            let k = choose|k: int|
                g.first_mirror <= k < g.first_mirror + g.mirrors && #[trigger] copy_entry(
                    img,
                    g,
                    k,
                    b,
                ) != raw_entry(img, g, b);
            assert(copy_entry(new, g, k, b) != raw_entry(new, g, b));
        }
    }
}

/// What the copies dispute once the reserved FAT entries were restored.
pub proof fn lemma_restored_divergence(g: Geometry, img: Seq<u8>, c: u32)
    requires
        g.wf(img.len()),
        c < g.fat_entries(),
    ensures
        diverges(reserved_entries_restored(img, g), g, c) == diverges(img, g, c),
        g.valid_cluster(c) ==> raw_entry(reserved_entries_restored(img, g), g, c) == raw_entry(
            img,
            g,
            c,
        ),
        raw_entry(reserved_entries_restored(img, g), g, 0) == if entry_0_damaged(img, g) {
            media_entry(g)
        } else {
            raw_entry(img, g, 0)
        },
        raw_entry(reserved_entries_restored(img, g), g, 1) == if entry_1_damaged(img, g) {
            u32::MAX
        } else {
            raw_entry(img, g, 1)
        },
{
    let one = if entry_0_damaged(img, g) {
        put_entry(img, g, 0, media_entry(g))
    } else {
        img
    };
    lemma_put_entry(img, g, 0, media_entry(g));
    lemma_put_entry(one, g, 1, u32::MAX);
    lemma_put_divergence(g, img, 0, media_entry(g), c);
    lemma_put_divergence(g, one, 1, u32::MAX, c);
}

/// How many of the first `n` entries some copy of the FAT disagrees about.
pub open spec fn count_diverging(img: Seq<u8>, g: Geometry, n: int) -> nat
    decreases n,
{
    if n <= 0 {
        0
    } else {
        count_diverging(img, g, n - 1) + if diverges(img, g, (n - 1) as u32) {
            1nat
        } else {
            0nat
        }
    }
}

/// The image with every disputed entry below `n` copied over the mirrors.
pub open spec fn mirrors_synced(img: Seq<u8>, g: Geometry, n: int) -> Seq<u8>
    decreases n,
{
    if n <= 0 {
        img
    } else {
        let before = mirrors_synced(img, g, n - 1);
        let c = (n - 1) as u32;
        if diverges(img, g, c) {
            put_entry(before, g, c, raw_entry(img, g, c))
        } else {
            before
        }
    }
}

/// What bringing the mirrors into line does: the copy that is read stays as it is, the copies that are kept in step
/// take its disputed entries over, and nothing outside the FAT changes.
pub proof fn lemma_mirrors_synced(img: Seq<u8>, g: Geometry, n: int)
    requires
        g.wf(img.len()),
        n <= g.fat_entries(),
    ensures
        only_fat_changed(g, img, mirrors_synced(img, g, n)),
        slack_kept(g, img, mirrors_synced(img, g, n)),
        forall|b: u32|
            b < g.fat_entries() ==> #[trigger] raw_entry(mirrors_synced(img, g, n), g, b)
                == raw_entry(img, g, b),
        forall|k: int, b: u32|
            0 <= k < g.fats && b < g.fat_entries() ==> #[trigger] copy_entry(
                mirrors_synced(img, g, n),
                g,
                k,
                b,
            ) == if b < n && g.first_mirror <= k < g.first_mirror
                + g.mirrors && diverges(img, g, b) {
                raw_entry(img, g, b)
            } else {
                copy_entry(img, g, k, b)
            },
    decreases n,
{
    if n > 0 {
        lemma_mirrors_synced(img, g, n - 1);
        let before = mirrors_synced(img, g, n - 1);
        let c = (n - 1) as u32;
        lemma_put_entry(before, g, c, raw_entry(img, g, c));
    }
}

/// Whether the mirrors are to be compared at all.
pub open spec fn compares_mirrors(g: Geometry, mode: RepairMode) -> bool {
    mode.contains(RepairMode::fat_mirrors()) && g.mirrors > 1
}

/// Whether `raw` is not what a reserved FAT entry has to be. No other entry is one.
fn is_damaged_signature(cluster: u32, raw: u32, media: u8) -> (damaged: bool)
    ensures
        forall|img: Seq<u8>, g: Geometry|
            g.media == media && #[trigger] raw_entry(img, g, cluster) == raw ==> damaged
                == signature_damaged(img, g, cluster),
{
    if cluster == 0 {
        raw & FAT32_VALUE_MASK != 0x0FFF_FF00u32 | (media as u32)
    } else if cluster == 1 {
        (raw & FAT32_VALUE_MASK) | FAT32_STATUS_BITS != FAT32_VALUE_MASK
    } else {
        false
    }
}

/// Whether some copy of the FAT that is kept in step disagrees with `primary`, the entry in the copy that is read.
fn find_divergence<S: Storage>(vol: &mut Volume<S>, cluster: u32, primary: u32) -> (res: Result<
    bool,
    Error<S::Error>,
>)
    requires
        old(vol).wf(),
        cluster < old(vol).geom.fat_entries(),
        primary == raw_entry(old(vol).image(), old(vol).geom, cluster),
    ensures
        final(vol).geom == old(vol).geom,
        final(vol).reliable() == old(vol).reliable(),
        final(vol).torn() == old(vol).torn(),
        final(vol).image() == old(vol).image(),
        fails_only_by_device(res, old(vol).reliable()),
        res matches Ok(found) ==> found == diverges(old(vol).image(), old(vol).geom, cluster),
{
    if is_damaged_signature(cluster, primary, vol.geom.media) {
        return Ok(false);
    }
    let mut copy: u8 = vol.geom.first_mirror;
    let end: u8 = vol.geom.first_mirror + vol.geom.mirrors;
    while copy < end
        invariant
            old(vol).wf(),
            vol.geom == old(vol).geom,
            vol.reliable() == old(vol).reliable(),
            vol.torn() == old(vol).torn(),
            vol.image() == old(vol).image(),
            cluster < old(vol).geom.fat_entries(),
            primary == raw_entry(old(vol).image(), old(vol).geom, cluster),
            !signature_damaged(old(vol).image(), old(vol).geom, cluster),
            old(vol).geom.first_mirror <= copy <= end,
            end == old(vol).geom.first_mirror + old(vol).geom.mirrors,
            forall|k: int|
                old(vol).geom.first_mirror <= k < copy ==> #[trigger] copy_entry(
                    old(vol).image(),
                    old(vol).geom,
                    k,
                    cluster,
                ) == primary,
        decreases end - copy,
    {
        let other: u32 = read_fat_copy(vol, copy, cluster)?;
        if other != primary {
            return Ok(true);
        }
        copy = copy + 1;
    }
    Ok(false)
}

/// One sequential pass over the FAT that brings the mirrors back into line with the copy that is read, reserved entries
/// included, and counts free clusters.
///
/// A write to the FAT goes to every copy that is kept in step, so repairing a disputed entry takes a single one.
pub fn scan_fat_copies<S: Storage>(
    vol: &mut Volume<S>,
    mode: RepairMode,
    stats: &mut RepairStats,
) -> (res: Result<FreeSpace, Error<S::Error>>)
    requires
        old(vol).wf(),
    ensures
        final(vol).continues(old(vol)),
        fat_bounded(
            old(vol).geom,
            old(vol).image(),
            final(vol).image(),
            old(vol).torn(),
            final(vol).torn(),
        ),
        res is Ok ==> final(vol).torn() == old(vol).torn(),
        final(vol).torn().len() <= old(vol).torn().len() + 1,
        res is Ok ==> fat_stays(old(vol).geom, old(vol).image(), final(vol).image()),
        only_fat_changed(old(vol).geom, old(vol).image(), final(vol).image()),
        res is Err ==> mirrors_stopped(
            old(vol).geom,
            old(vol).image(),
            mode,
            final(vol).image(),
            final(vol).since(old(vol)),
        ),
        fails_only_by_device(res, old(vol).reliable()),
        !(compares_mirrors(old(vol).geom, mode) && mode.writes()) ==> final(vol).image() == old(
            vol,
        ).image(),
        res is Ok && compares_mirrors(old(vol).geom, mode) && mode.writes() ==> final(vol).image()
            == mirrors_synced(old(vol).image(), old(vol).geom, old(vol).geom.fat_entries()),
        res is Ok ==> *final(stats) == mirrors_counted(
            old(vol).image(),
            old(vol).geom,
            mode,
            *old(stats),
        ),
        res matches Ok(free) ==> free == free_space(
            old(vol).image(),
            old(vol).geom,
            |raw: u32| is_free(raw),
            old(vol).geom.fat_entries(),
        ),
{
    let count: u32 = vol.geom.fat_entry_count();
    let sync: bool = mode.contains(RepairMode::fat_mirrors()) && vol.geom.mirrors > 1;
    let mut free = FreeSpace { count: 0, first: None };
    let ghost img = vol.image();
    let ghost g = vol.geom;
    let ghost p = |raw: u32| is_free(raw);
    proof {
        lemma_bounded_write(g, img, img);
    }
    let mut cluster: u32 = 0;
    while cluster < count
        invariant
            old(vol).wf(),
            g == old(vol).geom,
            img == old(vol).image(),
            p == |raw: u32| is_free(raw),
            sync == compares_mirrors(g, mode),
            vol.continues(old(vol)),
            vol.torn() == old(vol).torn(),
            fat_stays(g, img, vol.image()),
            only_fat_changed(old(vol).geom, old(vol).image(), vol.image()),
            cluster <= count,
            count == g.fat_entries(),
            vol.image() == if sync && mode.writes() {
                mirrors_synced(img, g, cluster as int)
            } else {
                img
            },
            *stats == (RepairStats {
                mirror_entries_synced: bump_by(
                    old(stats).mirror_entries_synced,
                    if sync {
                        count_diverging(img, g, cluster as int)
                    } else {
                        0
                    },
                ),
                ..*old(stats)
            }),
            free == free_space(img, g, p, cluster as int),
        decreases count - cluster,
    {
        proof {
            lemma_mirrors_synced(img, g, cluster as int);
            lemma_mirrors_synced(img, g, cluster + 1);
            if sync && mode.writes() {
                lemma_mirrors_stop(img, g, mode, cluster as int);
            }
            lemma_bounded_write(g, img, vol.image());
            lemma_bounded_write(g, img, mirrors_synced(img, g, cluster + 1));
            if cluster >= RESERVED_FAT_ENTRIES {
                lemma_count_bound(img, g, p, cluster as int);
            }
            assert forall|k: int| g.first_mirror <= k < g.first_mirror + g.mirrors implies #[trigger] copy_entry(
                vol.image(),
                g,
                k,
                cluster,
            ) == copy_entry(img, g, k, cluster) by {}
            assert(diverges(vol.image(), g, cluster) == diverges(img, g, cluster)) by {
                if diverges(vol.image(), g, cluster) {
                    let k = choose|k: int|
                        g.first_mirror <= k < g.first_mirror + g.mirrors && #[trigger] copy_entry(
                            vol.image(),
                            g,
                            k,
                            cluster,
                        ) != raw_entry(vol.image(), g, cluster);
                    assert(copy_entry(img, g, k, cluster) != raw_entry(img, g, cluster));
                }
                if diverges(img, g, cluster) {
                    let k = choose|k: int|
                        g.first_mirror <= k < g.first_mirror + g.mirrors && #[trigger] copy_entry(
                            img,
                            g,
                            k,
                            cluster,
                        ) != raw_entry(img, g, cluster);
                    assert(copy_entry(vol.image(), g, k, cluster) != raw_entry(
                        vol.image(),
                        g,
                        cluster,
                    ));
                }
            }
        }
        let primary: u32 = read_fat_raw(vol, cluster)?;
        if cluster >= RESERVED_FAT_ENTRIES && classify(primary) == FatEntry::Free {
            free.note(cluster);
        }
        if sync {
            if find_divergence(vol, cluster, primary)? {
                count_one(&mut stats.mirror_entries_synced);
                if mode.applies(RepairMode::fat_mirrors()) {
                    let res: Result<(), Error<S::Error>> = write_fat_raw(vol, cluster, primary);
                    proof {
                        if res is Err {
                            assert(mirrors_stopped_at(
                                g,
                                img,
                                cluster as int,
                                vol.image(),
                                vol.since(old(vol)),
                            ));
                        }
                    }
                    res?;
                }
            }
        }
        cluster = cluster + 1;
    }
    proof {
        lemma_bounded_then(g, img, vol.image());
    }
    Ok(free)
}

/// The report after the mirrors were compared.
pub open spec fn mirrors_counted(
    img: Seq<u8>,
    g: Geometry,
    mode: RepairMode,
    stats: RepairStats,
) -> RepairStats {
    let found = if compares_mirrors(g, mode) {
        count_diverging(img, g, g.fat_entries())
    } else {
        0
    };
    RepairStats { mirror_entries_synced: bump_by(stats.mirror_entries_synced, found), ..stats }
}

/// Count the free clusters of the volume.
pub fn count_free_clusters<S: Storage>(vol: &mut Volume<S>) -> (res: Result<u32, Error<S::Error>>)
    requires
        old(vol).wf(),
    ensures
        final(vol).geom == old(vol).geom,
        final(vol).reliable() == old(vol).reliable(),
        final(vol).torn() == old(vol).torn(),
        final(vol).image() == old(vol).image(),
        fails_only_by_device(res, old(vol).reliable()),
        res matches Ok(n) ==> n == count_where(
            old(vol).image(),
            old(vol).geom,
            |raw: u32| is_free(raw),
            old(vol).geom.fat_entries(),
        ),
{
    let count: u32 = vol.geom.fat_entry_count();
    let ghost p = |raw: u32| is_free(raw);
    let mut free: u32 = 0;
    let mut cluster: u32 = RESERVED_FAT_ENTRIES;
    while cluster < count
        invariant
            old(vol).wf(),
            vol.geom == old(vol).geom,
            vol.reliable() == old(vol).reliable(),
            vol.torn() == old(vol).torn(),
            vol.image() == old(vol).image(),
            p == |raw: u32| is_free(raw),
            RESERVED_FAT_ENTRIES <= cluster <= count,
            count == old(vol).geom.fat_entries(),
            free == count_where(old(vol).image(), old(vol).geom, p, cluster as int),
        decreases count - cluster,
    {
        proof {
            lemma_count_bound(old(vol).image(), old(vol).geom, p, cluster as int);
        }
        let raw: u32 = read_fat_raw(vol, cluster)?;
        if classify(raw) == FatEntry::Free {
            free = free + 1;
        }
        cluster = cluster + 1;
    }
    Ok(free)
}

/// Whether a FAT entry belongs to an allocated cluster that the walk did not reach.
pub open spec fn is_orphan(raw: u32) -> bool {
    !marked(raw) && (entry_of(raw) is Data || entry_of(raw) is EndOfChain)
}

/// What the sweep makes of a FAT entry.
pub open spec fn swept(raw: u32, reclaim: bool) -> u32 {
    if marked(raw) {
        unmarked(raw)
    } else if reclaim && is_orphan(raw) {
        FAT32_FREE
    } else {
        raw
    }
}

/// Whether a cluster is free once the sweep is done with its FAT entry.
pub open spec fn free_after_sweep(raw: u32, reclaim: bool) -> bool {
    !marked(raw) && (is_free(raw) || reclaim && is_orphan(raw))
}

/// Whether the orphan at `c` is the last one of a chain: it leads to no other orphan.
pub open spec fn ends_orphan_chain(img: Seq<u8>, g: Geometry, c: u32) -> bool {
    &&& is_orphan(raw_entry(img, g, c))
    &&& entry_of(raw_entry(img, g, c)) matches FatEntry::Data(next) ==> !(g.valid_cluster(next)
        && is_orphan(raw_entry(img, g, next)))
}

/// Whether `ring` is a ring of orphans, from its greatest cluster on: each links to the next, and the last one to the
/// first.
pub open spec fn is_orphan_ring(img: Seq<u8>, g: Geometry, ring: Seq<u32>) -> bool {
    &&& ring.len() > 0
    &&& ring.no_duplicates()
    &&& forall|i: int|
        0 <= i < ring.len() ==> {
            &&& g.valid_cluster(#[trigger] ring[i])
            &&& is_orphan(raw_entry(img, g, ring[i]))
            &&& ring[i] <= ring[0]
            &&& entry_of(raw_entry(img, g, ring[i])) == FatEntry::Data(
                if i + 1 < ring.len() {
                    ring[i + 1]
                } else {
                    ring[0]
                },
            )
        }
}

/// Whether the orphan at `c` is the greatest of a ring.
pub open spec fn closes_orphan_ring(img: Seq<u8>, g: Geometry, c: u32) -> bool {
    exists|ring: Seq<u32>| #[trigger] is_orphan_ring(img, g, ring) && ring[0] == c
}

/// How many chains of orphans there are, by their ends below `n`, or by their greatest clusters, if they run in a
/// circle.
pub open spec fn count_orphan_chains(img: Seq<u8>, g: Geometry, n: int) -> nat
    decreases n,
{
    if n <= RESERVED_FAT_ENTRIES {
        0
    } else {
        let c = (n - 1) as u32;
        count_orphan_chains(img, g, n - 1) + if ends_orphan_chain(img, g, c) || closes_orphan_ring(
            img,
            g,
            c,
        ) {
            1nat
        } else {
            0nat
        }
    }
}

/// The image after the sweep.
pub open spec fn orphans_swept(img: Seq<u8>, g: Geometry, reclaim: bool) -> Seq<u8> {
    rewrite_entries(img, g, |raw: u32| swept(raw, reclaim), g.fat_entries())
}

/// The report after the sweep.
pub open spec fn orphans_counted(
    img: Seq<u8>,
    g: Geometry,
    reclaim: bool,
    stats: RepairStats,
) -> RepairStats {
    if reclaim {
        RepairStats {
            orphans_freed: bump_by(
                stats.orphans_freed,
                count_orphan_chains(img, g, g.fat_entries()),
            ),
            clusters_freed: bump_by(
                stats.clusters_freed,
                count_where(img, g, |raw: u32| is_orphan(raw), g.fat_entries()),
            ),
            ..stats
        }
    } else {
        stats
    }
}

/// Whether a cluster whose FAT entry is `raw` is the last one of a chain of orphans.
fn is_orphan_end<S: Storage>(vol: &mut Volume<S>, raw: u32) -> (res: Result<bool, Error<S::Error>>)
    requires
        old(vol).wf(),
    ensures
        final(vol).continues(old(vol)),
        only_fat_changed(old(vol).geom, old(vol).image(), final(vol).image()),
        final(vol).image() == old(vol).image(),
        final(vol).torn() == old(vol).torn(),
        fails_only_by_device(res, old(vol).reliable()),
        res matches Ok(end) ==> forall|c: u32|
            raw == #[trigger] raw_entry(old(vol).image(), old(vol).geom, c) ==> end
                == ends_orphan_chain(old(vol).image(), old(vol).geom, c),
{
    if is_visited(raw) {
        return Ok(false);
    }
    match classify(raw) {
        FatEntry::Free | FatEntry::Bad => Ok(false),
        FatEntry::EndOfChain => Ok(true),
        FatEntry::Data(next) => {
            if !vol.geom.is_valid_cluster(next) {
                return Ok(true);
            }
            let after: u32 = read_fat_raw(vol, next)?;
            let free_or_bad: bool = classify(after) == FatEntry::Free || classify(after)
                == FatEntry::Bad;
            Ok(is_visited(after) || free_or_bad)
        },
    }
}

/// How far a walk from `c` that has taken `path`, and comes to `at`, agrees with a ring.
spec fn along_ring(ring: Seq<u32>, path: Seq<u32>, at: u32) -> bool {
    &&& path.len() <= ring.len()
    &&& at == if path.len() < ring.len() {
        ring[path.len() as int]
    } else {
        ring[0]
    }
}

/// A way that comes back to its start for the first time is a ring.
proof fn lemma_back_at_start(img: Seq<u8>, g: Geometry, c: u32, path: Seq<u32>)
    requires
        is_way(img, g, c, path),
        path.len() > 0,
        entry_of(raw_entry(img, g, path.last())) == FatEntry::Data(c),
        forall|i: int|
            0 <= i < path.len() ==> is_orphan(raw_entry(img, g, #[trigger] path[i])) && path[i] <= c,
        forall|i: int| 0 < i < path.len() ==> #[trigger] path[i] != c,
    ensures
        closes_orphan_ring(img, g, c),
{
    reveal(is_way);
    assert(path.no_duplicates()) by {
        assert forall|i: int, j: int| 0 <= i < j < path.len() implies path[i] != path[j] by {
            if path[i] == path[j] {
                let m = path.len() - 1 - j;
                lemma_linked_periodic(img, g, c, path, i, j, m);
                assert(path[j + m] == path.last());
                assert(entry_of(raw_entry(img, g, path[i + m])) == FatEntry::Data(path[i + m + 1]));
                assert(path[i + m + 1] != c);
            }
        }
    }
    assert forall|i: int| 0 <= i < path.len() implies {
        &&& g.valid_cluster(#[trigger] path[i])
        &&& is_orphan(raw_entry(img, g, path[i]))
        &&& path[i] <= path[0]
        &&& entry_of(raw_entry(img, g, path[i])) == FatEntry::Data(
            if i + 1 < path.len() {
                path[i + 1]
            } else {
                path[0]
            },
        )
    } by {
        if i + 1 < path.len() {
            assert(entry_of(raw_entry(img, g, path[(i + 1) - 1])) == FatEntry::Data(path[i + 1]));
        }
    }
    assert(is_orphan_ring(img, g, path) && path[0] == c);
}

/// Whether cluster `cluster` is the greatest of a ring of orphans.
fn is_ring_head<S: Storage>(vol: &mut Volume<S>, cluster: u32) -> (res: Result<bool, Error<S::Error>>)
    requires
        old(vol).wf(),
        old(vol).geom.valid_cluster(cluster),
    ensures
        final(vol).continues(old(vol)),
        final(vol).image() == old(vol).image(),
        final(vol).torn() == old(vol).torn(),
        fails_only_by_device(res, old(vol).reliable()),
        res matches Ok(found) ==> found == closes_orphan_ring(
            old(vol).image(),
            old(vol).geom,
            cluster,
        ),
{
    let ghost img = vol.image();
    let ghost g = vol.geom;
    let ghost mut path: Seq<u32> = Seq::empty();
    let mut at: u32 = cluster;
    let mut hops: u32 = 0;
    assert(is_way(img, g, cluster, path.push(at))) by {
        reveal(is_way);
    }
    while hops < vol.geom.total_clusters
        invariant
            old(vol).wf(),
            g == old(vol).geom,
            img == old(vol).image(),
            vol.continues(old(vol)),
            vol.image() == img,
            vol.torn() == old(vol).torn(),
            g.valid_cluster(at),
            hops <= g.total_clusters,
            path.len() == hops,
            is_way(img, g, cluster, path.push(at)),
            hops > 0 ==> at != cluster,
            forall|i: int|
                0 <= i < path.len() ==> is_orphan(raw_entry(img, g, #[trigger] path[i])) && path[i]
                    <= cluster,
            forall|i: int| 0 < i < path.len() ==> #[trigger] path[i] != cluster,
            forall|ring: Seq<u32>| #[trigger]
                is_orphan_ring(img, g, ring) && ring[0] == cluster ==> along_ring(ring, path, at),
        decreases vol.geom.total_clusters - hops,
    {
        let raw: u32 = read_fat_raw(vol, at)?;
        proof {
            // Where there is a ring, the walk is at one of its clusters.
            assert forall|ring: Seq<u32>| #[trigger]
                is_orphan_ring(img, g, ring) && ring[0] == cluster implies path.len() < ring.len()
                && ring[path.len() as int] == at by {
                assert(along_ring(ring, path, at));
                assert(ring[0] == cluster);
            }
        }
        // Markers, and whatever is no link, end the walk.
        let next: u32 = match classify(raw) {
            FatEntry::Data(next) => next,
            _ => 0,
        };
        if at > cluster || is_visited(raw) || !vol.geom.is_valid_cluster(next) {
            assert forall|ring: Seq<u32>| #[trigger] is_orphan_ring(img, g, ring) implies ring[0]
                != cluster by {
                if ring[0] == cluster {
                    let i = path.len() as int;
                    assert(ring[i] == at);
                    if i + 1 < ring.len() {
                        assert(g.valid_cluster(ring[i + 1]));
                    }
                    assert(g.valid_cluster(ring[0]));
                }
            }
            return Ok(false);
        }
        proof {
            let longer = path.push(at);
            assert forall|ring: Seq<u32>| #[trigger]
                is_orphan_ring(img, g, ring) && ring[0] == cluster implies along_ring(
                ring,
                longer,
                next,
            ) by {
                assert(ring[path.len() as int] == at);
            }
            assert(longer.last() == at);
            lemma_way_grows(img, g, cluster, longer, next);
            if next == cluster {
                lemma_back_at_start(img, g, cluster, longer);
            }
            path = longer;
        }
        if next == cluster {
            return Ok(true);
        }
        at = next;
        hops = hops + 1;
    }
    assert forall|ring: Seq<u32>| #[trigger] is_orphan_ring(img, g, ring) implies ring[0] != cluster by {
        if ring[0] == cluster {
            assert(along_ring(ring, path, at));
            assert forall|i: int| 0 <= i < ring.len() implies 2 <= #[trigger] ring[i]
                < g.total_clusters + 2 by {
                assert(g.valid_cluster(ring[i]));
            }
            lemma_distinct(ring, 2, g.total_clusters + 2);
        }
    }
    Ok(false)
}

/// Whether a cluster links to itself or to a lesser one. The greatest of a ring does.
fn links_down(cluster: u32, raw: u32) -> (down: bool)
    ensures
        down == (entry_of(raw) matches FatEntry::Data(next) && next <= cluster),
{
    match classify(raw) {
        FatEntry::Data(next) => next <= cluster,
        _ => false,
    }
}

/// Whether a chain of orphans counts at cluster `cluster`: it ends there, or runs in a circle, and this is its greatest
/// cluster.
fn is_orphan_chain<S: Storage>(vol: &mut Volume<S>, cluster: u32) -> (res: Result<
    bool,
    Error<S::Error>,
>)
    requires
        old(vol).wf(),
        old(vol).geom.valid_cluster(cluster),
    ensures
        final(vol).continues(old(vol)),
        final(vol).image() == old(vol).image(),
        final(vol).torn() == old(vol).torn(),
        fails_only_by_device(res, old(vol).reliable()),
        res matches Ok(found) ==> found == (ends_orphan_chain(
            old(vol).image(),
            old(vol).geom,
            cluster,
        ) || closes_orphan_ring(old(vol).image(), old(vol).geom, cluster)),
{
    let raw: u32 = read_fat_raw(vol, cluster)?;
    let ends: bool = is_orphan_end(vol, raw)?;
    proof {
        let img = vol.image();
        let g = vol.geom;
        assert forall|ring: Seq<u32>| #[trigger]
            is_orphan_ring(img, g, ring) && ring[0] == cluster implies !marked(raw) && (entry_of(
            raw,
        ) matches FatEntry::Data(next) && next <= cluster) by {
            if ring.len() > 1 {
                assert(ring[1] <= ring[0]);
            }
            assert(is_orphan(raw_entry(img, g, ring[0])));
        }
    }
    if ends {
        return Ok(true);
    }
    if is_visited(raw) || !links_down(cluster, raw) {
        return Ok(false);
    }
    is_ring_head(vol, cluster)
}

/// Count the chains that no directory entry can reach. This has to come before any of them is freed.
fn note_orphan_chains<S: Storage>(vol: &mut Volume<S>, stats: &mut RepairStats) -> (res: Result<
    (),
    Error<S::Error>,
>)
    requires
        old(vol).wf(),
    ensures
        final(vol).continues(old(vol)),
        only_fat_changed(old(vol).geom, old(vol).image(), final(vol).image()),
        final(vol).image() == old(vol).image(),
        final(vol).torn() == old(vol).torn(),
        fails_only_by_device(res, old(vol).reliable()),
        res is Ok ==> *final(stats) == (RepairStats {
            orphans_freed: bump_by(
                old(stats).orphans_freed,
                count_orphan_chains(
                    old(vol).image(),
                    old(vol).geom,
                    old(vol).geom.fat_entries(),
                ),
            ),
            ..*old(stats)
        }),
{
    let count: u32 = vol.geom.fat_entry_count();
    let ghost img = vol.image();
    let ghost g = vol.geom;
    let mut cluster: u32 = RESERVED_FAT_ENTRIES;
    while cluster < count
        invariant
            old(vol).wf(),
            g == old(vol).geom,
            img == old(vol).image(),
            vol.continues(old(vol)),
            only_fat_changed(old(vol).geom, old(vol).image(), vol.image()),
            vol.image() == img,
            vol.torn() == old(vol).torn(),
            vol.torn() == old(vol).torn(),
            RESERVED_FAT_ENTRIES <= cluster <= count,
            count == g.fat_entries(),
            *stats == (RepairStats {
                orphans_freed: bump_by(
                    old(stats).orphans_freed,
                    count_orphan_chains(img, g, cluster as int),
                ),
                ..*old(stats)
            }),
        decreases count - cluster,
    {
        if is_orphan_chain(vol, cluster)? {
            count_one(&mut stats.orphans_freed);
        }
        cluster = cluster + 1;
    }
    Ok(())
}

/// What the sweep, carried out or not, may have made of the FAT, except where a write failed since the failed writes
/// were `was`: each entry is as it was, or what the sweep is to make of it.
#[verifier::opaque]
pub open spec fn sweep_bounded(
    g: Geometry,
    a: Seq<u8>,
    b: Seq<u8>,
    was: Seq<(int, int)>,
    now: Seq<(int, int)>,
    reclaim: bool,
) -> bool {
    forall|c: u32|
        g.valid_cluster(c) && !entry_struck(g, was, now, c) ==> #[trigger] raw_entry(b, g, c)
            == raw_entry(a, g, c) || raw_entry(b, g, c) == swept(raw_entry(a, g, c), reclaim)
}

/// A sweep that has come to entry `n`.
proof fn lemma_sweep_write(img: Seq<u8>, g: Geometry, f: spec_fn(u32) -> u32, reclaim: bool, n: int)
    requires
        g.wf(img.len()),
        n <= g.fat_entries(),
        f == |raw: u32| swept(raw, reclaim),
    ensures
        forall|was: Seq<(int, int)>, now: Seq<(int, int)>| #[trigger]
            sweep_bounded(g, img, rewrite_entries(img, g, f, n), was, now, reclaim),
        forall|b: Seq<u8>, was: Seq<(int, int)>, now: Seq<(int, int)>| #[trigger]
            entries_agree(g, rewrite_entries(img, g, f, n), b, was, now) ==> sweep_bounded(
                g,
                img,
                b,
                was,
                now,
                reclaim,
            ),
{
    reveal(sweep_bounded);
    let m = rewrite_entries(img, g, f, n);
    lemma_rewrite_entries(img, g, f, n);
    assert forall|b: Seq<u8>, was: Seq<(int, int)>, now: Seq<(int, int)>| #[trigger]
        entries_agree(g, m, b, was, now) implies sweep_bounded(g, img, b, was, now, reclaim) by {
        assert forall|c: u32| g.valid_cluster(c) && !entry_struck(g, was, now, c) implies #[trigger] raw_entry(
            b,
            g,
            c,
        ) == raw_entry(img, g, c) || raw_entry(b, g, c) == swept(raw_entry(img, g, c), reclaim) by {
            assert(raw_entry(b, g, c) == raw_entry(m, g, c));
        }
    }
}

/// Clear the reachability markers, and free every allocated cluster that the walk never reached.
///
/// Clusters are only freed when `reclaim` is true, that is when the walk covered the whole tree. The markers have to be
/// cleared either way, or the next run would read them as claims.
#[verifier::spinoff_prover]
#[verifier::rlimit(40)]
pub fn sweep_orphans<S: Storage>(
    vol: &mut Volume<S>,
    stats: &mut RepairStats,
    reclaim: bool,
) -> (res: Result<FreeSpace, Error<S::Error>>)
    requires
        old(vol).wf(),
    ensures
        final(vol).continues(old(vol)),
        sweep_bounded(
            old(vol).geom,
            old(vol).image(),
            final(vol).image(),
            old(vol).torn(),
            final(vol).torn(),
            reclaim,
        ),
        res is Ok ==> final(vol).torn() == old(vol).torn(),
        final(vol).torn().len() <= old(vol).torn().len() + 1,
        only_fat_changed(old(vol).geom, old(vol).image(), final(vol).image()),
        res is Err ==> rewrite_stopped(
            old(vol).geom,
            old(vol).image(),
            |raw: u32| swept(raw, reclaim),
            final(vol).image(),
            final(vol).since(old(vol)),
        ),
        fails_only_by_device(res, old(vol).reliable()),
        res is Ok ==> final(vol).image() == orphans_swept(
            old(vol).image(),
            old(vol).geom,
            reclaim,
        ),
        res is Ok ==> *final(stats) == orphans_counted(
            old(vol).image(),
            old(vol).geom,
            reclaim,
            *old(stats),
        ),
        res matches Ok(free) ==> free == free_space(
            old(vol).image(),
            old(vol).geom,
            |raw: u32| free_after_sweep(raw, reclaim),
            old(vol).geom.fat_entries(),
        ),
{
    let count: u32 = vol.geom.fat_entry_count();
    let mut free = FreeSpace { count: 0, first: None };
    proof {
        reveal(sweep_bounded);
        let f = |raw: u32| swept(raw, reclaim);
        lemma_rewrite_stops(vol.image(), vol.geom, f, RESERVED_FAT_ENTRIES as int);
        assert(rewrite_entries(vol.image(), vol.geom, f, RESERVED_FAT_ENTRIES as int)
            == vol.image());
    }
    if reclaim {
        note_orphan_chains(vol, stats)?;
    }
    let ghost noted = *stats;
    let ghost img = vol.image();
    let ghost g = vol.geom;
    let ghost f = |raw: u32| swept(raw, reclaim);
    let ghost p = |raw: u32| free_after_sweep(raw, reclaim);
    let ghost q = |raw: u32| is_orphan(raw);
    let mut cluster: u32 = RESERVED_FAT_ENTRIES;
    while cluster < count
        invariant
            old(vol).wf(),
            g == old(vol).geom,
            img == old(vol).image(),
            f == |raw: u32| swept(raw, reclaim),
            p == |raw: u32| free_after_sweep(raw, reclaim),
            q == |raw: u32| is_orphan(raw),
            vol.continues(old(vol)),
            vol.torn() == old(vol).torn(),
            only_fat_changed(old(vol).geom, old(vol).image(), vol.image()),
            RESERVED_FAT_ENTRIES <= cluster <= count,
            count == g.fat_entries(),
            vol.image() == rewrite_entries(img, g, f, cluster as int),
            free == free_space(img, g, p, cluster as int),
            *stats == if reclaim {
                RepairStats {
                    clusters_freed: bump_by(
                        noted.clusters_freed,
                        count_where(img, g, q, cluster as int),
                    ),
                    ..noted
                }
            } else {
                noted
            },
        decreases count - cluster,
    {
        proof {
            lemma_rewrite_entries(img, g, f, cluster as int);
            lemma_rewrite_stops(img, g, f, cluster as int);
            lemma_sweep_write(img, g, f, reclaim, cluster as int);
            lemma_sweep_write(img, g, f, reclaim, cluster + 1);
            lemma_unmarked(raw_entry(img, g, cluster));
            lemma_count_bound(img, g, p, cluster as int);
            lemma_zero_entry();
        }
        let raw: u32 = read_fat_raw(vol, cluster)?;
        let ghost next = rewrite_entries(img, g, f, cluster + 1);
        assert(f(raw) == swept(raw, reclaim));
        assert(raw == raw_entry(img, g, cluster));
        if is_visited(raw) {
            assert(next == put_entry(vol.image(), g, cluster, raw & !FAT32_VISITED_BIT));
            let res: Result<(), Error<S::Error>> = write_fat_raw(
                vol,
                cluster,
                raw & !FAT32_VISITED_BIT,
            );
            proof {
                if res is Err {
                    assert(rewrite_stopped_at(
                        g,
                        img,
                        f,
                        cluster as int,
                        vol.image(),
                        vol.since(old(vol)),
                    ));
                }
            }
            res?;
        } else {
            match classify(raw) {
                FatEntry::Free => {
                    free.note(cluster);
                },
                FatEntry::Bad => {},
                FatEntry::Data(_) | FatEntry::EndOfChain => {
                    if reclaim {
                        assert(next == put_entry(vol.image(), g, cluster, FAT32_FREE));
                        let res: Result<(), Error<S::Error>> = write_fat_raw(
                            vol,
                            cluster,
                            FAT32_FREE,
                        );
                        proof {
                            if res is Err {
                                assert(rewrite_stopped_at(
                                    g,
                                    img,
                                    f,
                                    cluster as int,
                                    vol.image(),
                                    vol.since(old(vol)),
                                ));
                            }
                        }
                        res?;
                        free.note(cluster);
                        count_one(&mut stats.clusters_freed);
                    }
                },
            }
        }
        cluster = cluster + 1;
    }
    proof {
        lemma_sweep_write(img, g, f, reclaim, count as int);
    }
    Ok(free)
}

} // verus!
