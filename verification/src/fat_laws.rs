//! What a repair makes of the FAT, entry by entry.

use vstd::prelude::*;

use crate::bytes::u32_bytes;
use crate::chain::{chain_from, chain_scanned, ends_chain, follow, lemma_path_marked, path_marked, scan_of, Walk};
use crate::fat::{
    copy_entry, entry_of, lemma_put_entry, lemma_put_fat_outside, marked, only_fat_changed, put_entry, raw_entry,
    with_value, FatEntry, FAT32_EOC, FAT32_VISITED_BIT,
};
use crate::geometry::{Geometry, MAX_CLUSTERS};
use crate::laws::{first_free_cluster, free_clusters};
use crate::meaning::{law_fat_value_written, law_fat_values, law_swept_entry};
use crate::mode::RepairMode;
use crate::model::Vol;
use crate::passes::{
    closes_orphan_ring, count_diverging, count_orphan_chains, count_where, diverges, ends_orphan_chain, entry_0_damaged,
    first_where, free_space, is_free, is_orphan, is_orphan_ring, lemma_count_bound, lemma_mirrors_synced,
    lemma_rewrite_entries, markers_cleared, media_entry, mirrors_synced, orphans_counted, orphans_swept,
    reserved_entries_counted, reserved_entries_restored, rewrite_entries, swept, unmarked,
};
use crate::stats::{bump, bump_by, RepairStats};
verus! {

/// A FAT entry is written to every copy that is kept in step, and to no other place.
pub proof fn law_entry_written(img: Seq<u8>, g: Geometry, c: u32, raw: u32)
    requires
        g.wf(img.len()),
        c < g.total_clusters + 2,
    ensures
        ({
            let b = put_entry(img, g, c, raw);
            &&& b.len() == img.len()
            &&& forall|k: int|
                g.first_mirror <= k < g.first_mirror + g.mirrors ==> #[trigger] copy_entry(b, g, k, c) == raw
            &&& forall|i: int|
                0 <= i < img.len() && (forall|k: int|
                    g.first_mirror <= k < g.first_mirror + g.mirrors ==> !(#[trigger] g.copy_start(k) + 4 * c
                        <= i < g.copy_start(k) + 4 * c + 4)) ==> #[trigger] b[i] == img[i]
        }),
{
    lemma_put_entry(img, g, c, raw);
    let b = put_entry(img, g, c, raw);
    let data = u32_bytes(raw);
    assert forall|i: int|
        0 <= i < img.len() && (forall|k: int|
            g.first_mirror <= k < g.first_mirror + g.mirrors ==> !(#[trigger] g.copy_start(k) + 4 * c <= i
                < g.copy_start(k) + 4 * c + 4)) implies #[trigger] b[i] == img[i] by {
        lemma_put_fat_outside(img, g, 4 * c, data, g.mirrors as nat, i);
    }
}

/// Whether a chain goes no further than its last cluster, which links to `next`, for one of the reasons there are: it
/// is as long as it may be, or as the volume, or `next` is no cluster, is on the chain already, or is not in use.
pub open spec fn stops_for_good(
    img: Seq<u8>,
    g: Geometry,
    path: Seq<u32>,
    next: u32,
    limit: Option<u32>,
) -> bool {
    ||| limit matches Some(most) && path.len() >= most
    ||| path.len() >= g.total_clusters
    ||| !(2 <= next < g.total_clusters + 2)
    ||| path.contains(next)
    ||| raw_entry(img, g, next) % 0x1000_0000 == 0
    ||| raw_entry(img, g, next) % 0x1000_0000 == 0x0FFF_FFF7
}

/// What following a chain from `start` has to come to.
///
/// The path starts there. Each cluster on it is in use, unclaimed if the run marks, links to the next one, and is on it
/// once. It goes as far as it can: behind its last cluster there is an end mark, or one of the reasons to stop, or a
/// cluster that another chain has claimed. Only an end mark makes it a chain that was not cut, only a claim a cross
/// link.
pub open spec fn well_followed(
    img: Seq<u8>,
    g: Geometry,
    start: u32,
    limit: Option<u32>,
    marking: bool,
    walk: Walk,
) -> bool {
    let path = walk.path;
    &&& limit matches Some(most) ==> path.len() <= most
    &&& path.len() <= g.total_clusters
    &&& path.no_duplicates()
    &&& forall|i: int|
        0 <= i < path.len() ==> {
            let c = #[trigger] path[i];
            let value = raw_entry(img, g, c) % 0x1000_0000;
            &&& 2 <= c < g.total_clusters + 2
            &&& value != 0 && value != 0x0FFF_FFF7
            &&& marking ==> raw_entry(img, g, c) / 0x1000_0000 % 2 == 0
            &&& i + 1 < path.len() ==> value == path[i + 1]
        }
    &&& if path.len() == 0 {
        let value = raw_entry(img, g, start) % 0x1000_0000;
        let claimed = marking && raw_entry(img, g, start) / 0x1000_0000 % 2 == 1;
        &&& walk.truncated
        &&& limit == Some(0u32) || value == 0 || value == 0x0FFF_FFF7 || claimed
        &&& walk.cross_linked == (limit != Some(0u32) && claimed)
    } else {
        let next = raw_entry(img, g, path[path.len() - 1]) % 0x1000_0000;
        let claimed = marking && raw_entry(img, g, next) / 0x1000_0000 % 2 == 1;
        let onward = 2 <= next < g.total_clusters + 2 && path.len() < g.total_clusters
            && !path.contains(next) && (limit matches Some(most) ==> path.len() < most);
        &&& path[0] == start
        &&& walk.truncated == (next < 0x0FFF_FFF8)
        &&& walk.truncated ==> stops_for_good(img, g, path, next, limit) || claimed
        &&& walk.cross_linked == (onward && claimed)
    }
}

proof fn lemma_well_followed(
    img: Seq<u8>,
    g: Geometry,
    start: u32,
    c: u32,
    taken: Seq<u32>,
    limit: Option<u32>,
    marking: bool,
)
    requires
        g.total_clusters <= MAX_CLUSTERS,
        g.valid_cluster(c),
        limit matches Some(most) ==> taken.len() < most,
        taken.len() < g.total_clusters,
        taken.no_duplicates(),
        taken.len() == 0 ==> c == start,
        taken.len() > 0 ==> taken[0] == start && raw_entry(img, g, taken.last()) % 0x1000_0000 == c,
        forall|i: int|
            0 <= i < taken.len() ==> {
                let d = #[trigger] taken[i];
                let value = raw_entry(img, g, d) % 0x1000_0000;
                &&& 2 <= d < g.total_clusters + 2
                &&& value != 0 && value != 0x0FFF_FFF7
                &&& marking ==> raw_entry(img, g, d) / 0x1000_0000 % 2 == 0
                &&& i + 1 < taken.len() ==> value == taken[i + 1]
            },
    ensures
        well_followed(img, g, start, limit, marking, follow(img, g, c, taken, limit, marking)),
    decreases g.total_clusters - taken.len(),
{
    let raw = raw_entry(img, g, c);
    let path = taken.push(c);
    law_fat_values(raw);
    let entry = entry_of(raw);
    if !taken.contains(c) && !(marking && marked(raw)) && !(entry is Free || entry is Bad) {
        assert(path.no_duplicates());
        assert(path[path.len() - 1] == c);
        assert(path[0] == start);
        if let FatEntry::Data(next) = entry {
            if g.valid_cluster(next) && path.len() < g.total_clusters && !(limit is Some && path.len()
                >= limit->0) {
                assert(path.last() == c);
                lemma_well_followed(img, g, start, next, path, limit, marking);
            }
        }
    } else if taken.len() > 0 {
        assert(taken[taken.len() - 1] == taken.last());
    }
}

/// A chain is followed as far as it goes, and no further.
pub proof fn law_chain_followed(img: Seq<u8>, g: Geometry, start: u32, limit: Option<u32>, marking: bool)
    requires
        1 <= g.total_clusters <= 0x0FFF_FFF4,
        2 <= start < g.total_clusters + 2,
    ensures
        well_followed(img, g, start, limit, marking, chain_from(img, g, start, limit, marking)),
{
    if limit != Some(0u32) {
        lemma_well_followed(img, g, start, start, Seq::empty(), limit, marking);
    }
}

/// What scanning a chain leaves in the FAT entry of each cluster. A run that marks puts the marker on every cluster of
/// the chain. A chain that was cut gets an end mark on its last cluster, if chains may be repaired, or if it ran into
/// another one and the run marks. Nothing else changes, and each cut is counted.
pub proof fn law_chain_scanned(
    g: Geometry,
    v: Vol,
    start: u32,
    limit: Option<u32>,
    mode: RepairMode,
    c: u32,
)
    requires
        g.wf(v.img.len()),
        2 <= start < g.total_clusters + 2,
        2 <= c < g.total_clusters + 2,
    ensures
        ({
            let walk = chain_from(v.img, g, start, limit, mode.marks());
            let w = chain_scanned(g, v, start, limit, mode);
            let was = raw_entry(v.img, g, c);
            let now = raw_entry(w.img, g, c);
            let reached = mode.marks() && walk.path.contains(c);
            let ended = walk.truncated && walk.path.len() > 0 && c == walk.path[walk.path.len() - 1] && (
            mode.applies(RepairMode::chains()) || (walk.cross_linked && mode.marks()));
            &&& ended ==> now % 0x1000_0000 == 0x0FFF_FFFF
            &&& !ended ==> now % 0x1000_0000 == was % 0x1000_0000
            &&& now / 0x1000_0000 % 2 == 1 <==> was / 0x1000_0000 % 2 == 1 || reached
            &&& now / 0x2000_0000 == was / 0x2000_0000
            &&& only_fat_changed(g, v.img, w.img)
            &&& !walk.truncated ==> w.stats == v.stats
            &&& walk.truncated ==> w.stats == (RepairStats {
                chains_truncated: bump(v.stats.chains_truncated),
                cross_links_resolved: if walk.cross_linked {
                    bump(v.stats.cross_links_resolved)
                } else {
                    v.stats.cross_links_resolved
                },
                ..v.stats
            })
        }),
{
    let marking = mode.marks();
    let walk = chain_from(v.img, g, start, limit, marking);
    law_chain_followed(v.img, g, start, limit, marking);
    let path = walk.path;
    assert forall|i: int| 0 <= i < path.len() implies #[trigger] g.valid_cluster(path[i]) by {
        assert(2 <= path[i] < g.total_clusters + 2);
    }
    let reached = if marking {
        path_marked(v.img, g, path)
    } else {
        v.img
    };
    lemma_path_marked(v.img, g, path);
    let raw = raw_entry(v.img, g, c);
    lemma_marked_numbers(raw);
    let between = raw_entry(reached, g, c);
    assert(between == if marking && path.contains(c) {
        raw | FAT32_VISITED_BIT
    } else {
        raw
    });
    if ends_chain(walk, mode) && path.len() > 0 {
        let last = path[path.len() - 1];
        assert(path.contains(last));
        let old_raw = raw_entry(reached, g, last);
        lemma_put_entry(reached, g, last, with_value(old_raw, FAT32_EOC));
        lemma_ended_numbers(old_raw);
    }
}

/// What scanning a chain leaves in each copy of the FAT: the same as in the one that is read, where something is
/// written, and that is to those that are kept in step. What nothing is written to stays as it is.
pub proof fn law_chain_scanned_copies(
    g: Geometry,
    v: Vol,
    start: u32,
    limit: Option<u32>,
    mode: RepairMode,
    k: int,
    c: u32,
)
    requires
        g.wf(v.img.len()),
        2 <= start < g.total_clusters + 2,
        0 <= k < g.fats,
        c < g.total_clusters + 2,
    ensures
        ({
            let walk = chain_from(v.img, g, start, limit, mode.marks());
            let w = chain_scanned(g, v, start, limit, mode);
            let was = raw_entry(v.img, g, c);
            let now = raw_entry(w.img, g, c);
            let written = now != was || (mode.marks() && walk.path.contains(c));
            copy_entry(w.img, g, k, c) == if written && g.first_mirror <= k < g.first_mirror + g.mirrors {
                now
            } else {
                copy_entry(v.img, g, k, c)
            }
        }),
{
    let marking = mode.marks();
    let walk = chain_from(v.img, g, start, limit, marking);
    law_chain_followed(v.img, g, start, limit, marking);
    let path = walk.path;
    assert forall|i: int| 0 <= i < path.len() implies #[trigger] g.valid_cluster(path[i]) by {
        assert(2 <= path[i] < g.total_clusters + 2);
    }
    let reached = if marking {
        path_marked(v.img, g, path)
    } else {
        v.img
    };
    lemma_path_marked(v.img, g, path);
    lemma_copies_marked(v.img, g, path, k, c);
    if ends_chain(walk, mode) && path.len() > 0 {
        let last = path[path.len() - 1];
        assert(path.contains(last));
        lemma_put_entry(reached, g, last, with_value(raw_entry(reached, g, last), FAT32_EOC));
    }
}

/// What a marker makes of the number in a FAT entry.
proof fn lemma_marked_numbers(raw: u32)
    ensures
        (raw | FAT32_VISITED_BIT) % 0x1000_0000 == raw % 0x1000_0000,
        (raw | FAT32_VISITED_BIT) / 0x1000_0000 % 2 == 1,
        (raw | FAT32_VISITED_BIT) / 0x2000_0000 == raw / 0x2000_0000,
{
    assert((raw | 0x1000_0000u32) % 0x1000_0000 == raw % 0x1000_0000 && (raw | 0x1000_0000u32)
        / 0x1000_0000 % 2 == 1 && (raw | 0x1000_0000u32) / 0x2000_0000 == raw / 0x2000_0000)
        by (bit_vector);
}

/// What an end mark makes of the number in a FAT entry.
proof fn lemma_ended_numbers(raw: u32)
    ensures
        with_value(raw, FAT32_EOC) % 0x1000_0000 == 0x0FFF_FFFF,
        with_value(raw, FAT32_EOC) / 0x1000_0000 == raw / 0x1000_0000,
        with_value(raw, FAT32_EOC) / 0x2000_0000 == raw / 0x2000_0000,
        with_value(raw, FAT32_EOC) == raw ==> raw % 0x1000_0000 == 0x0FFF_FFFF,
{
    law_fat_value_written(raw, FAT32_EOC);
    let new_raw = with_value(raw, FAT32_EOC);
    assert(new_raw / 0x1000_0000 == raw / 0x1000_0000 ==> new_raw / 0x2000_0000 == raw / 0x2000_0000)
        by (bit_vector);
}

/// Whether `list` names, in ascending order, the numbers from `lo` on and below `hi` that satisfy `p`, and no others.
pub open spec fn lists(list: Seq<u32>, lo: int, hi: int, p: spec_fn(u32) -> bool) -> bool {
    &&& forall|i: int, j: int| 0 <= i < j < list.len() ==> #[trigger] list[i] < #[trigger] list[j]
    &&& forall|i: int| 0 <= i < list.len() ==> lo <= #[trigger] list[i] < hi && p(list[i])
    &&& forall|c: u32| lo <= c < hi && #[trigger] p(c) ==> list.contains(c)
}

/// A list goes on with the next number, if that satisfies what it lists.
proof fn lemma_listed(list: Seq<u32>, lo: int, hi: int, p: spec_fn(u32) -> bool)
    requires
        lists(list, lo, hi, p),
        0 <= lo <= hi <= u32::MAX,
    ensures
        p(hi as u32) ==> lists(list.push(hi as u32), lo, hi + 1, p),
        !p(hi as u32) ==> lists(list, lo, hi + 1, p),
{
    let n = hi as u32;
    if p(n) {
        let more = list.push(n);
        assert forall|c: u32| lo <= c < hi + 1 && #[trigger] p(c) implies more.contains(c) by {
            if c == n {
                assert(more[list.len() as int] == n);
            } else {
                assert(list.contains(c));
                let i = choose|i: int| 0 <= i < list.len() && list[i] == c;
                assert(more[i] == c);
            }
        }
    }
}

/// The clusters with a certain FAT entry are counted, and the first of them found.
proof fn lemma_count_lists(img: Seq<u8>, g: Geometry, p: spec_fn(u32) -> bool, n: int) -> (list: Seq<u32>)
    requires
        2 <= n <= g.fat_entries(),
        g.total_clusters <= MAX_CLUSTERS,
    ensures
        lists(list, 2, n, |c: u32| p(raw_entry(img, g, c))),
        count_where(img, g, p, n) == list.len(),
        first_where(img, g, p, n) == if list.len() > 0 {
            Some(list[0])
        } else {
            None
        },
    decreases n,
{
    let q = |c: u32| p(raw_entry(img, g, c));
    if n == 2 {
        Seq::empty()
    } else {
        let front = lemma_count_lists(img, g, p, n - 1);
        lemma_listed(front, 2, n - 1, q);
        let c = (n - 1) as u32;
        if q(c) {
            let list = front.push(c);
            assert(front.len() > 0 ==> list[0] == front[0]);
            list
        } else {
            front
        }
    }
}

/// The free space of a volume: as many clusters as there are with a FAT entry of value 0, and the first of them.
pub proof fn law_free_space(img: Seq<u8>, g: Geometry) -> (list: Seq<u32>)
    requires
        g.wf(img.len()),
    ensures
        lists(list, 2, g.total_clusters + 2, |c: u32| raw_entry(img, g, c) % 0x1000_0000 == 0),
        ({
            let found = free_space(img, g, |raw: u32| is_free(raw), g.fat_entries());
            &&& found.count == list.len()
            &&& list.len() == 0 ==> found.first is None
            &&& list.len() > 0 ==> found.first == Some(list[0])
        }),
        free_clusters(g, img) == list.len(),
        first_free_cluster(g, img) == if list.len() > 0 {
            Some(list[0])
        } else {
            None
        },
{
    let p = |raw: u32| is_free(raw);
    let list = lemma_count_lists(img, g, p, g.fat_entries());
    let q = |c: u32| raw_entry(img, g, c) % 0x1000_0000 == 0;
    let r = |c: u32| p(raw_entry(img, g, c));
    assert forall|c: u32| #[trigger] r(c) == q(c) by {
        law_fat_values(raw_entry(img, g, c));
    }
    lemma_same_list(list, 2, g.fat_entries(), r, q);
    lemma_count_bound(img, g, p, g.fat_entries());
    list
}

/// A list of what satisfies the same is the same.
proof fn lemma_same_list(list: Seq<u32>, lo: int, hi: int, p: spec_fn(u32) -> bool, q: spec_fn(u32) -> bool)
    requires
        forall|c: u32| #[trigger] p(c) == q(c),
        lists(list, lo, hi, p),
    ensures
        lists(list, lo, hi, q),
{
    assert forall|i: int| 0 <= i < list.len() implies lo <= #[trigger] list[i] < hi && q(list[i]) by {
        assert(p(list[i]));
    }
    assert forall|c: u32| lo <= c < hi && #[trigger] q(c) implies list.contains(c) by {
        assert(p(c));
    }
}

/// What rewriting FAT entries one by one leaves in each copy: the new entry in those that are kept in step, where it is
/// a new one, and else what was there.
proof fn lemma_copies_rewritten(img: Seq<u8>, g: Geometry, f: spec_fn(u32) -> u32, n: int, k: int, c: u32)
    requires
        g.wf(img.len()),
        n <= g.fat_entries(),
        0 <= k < g.fats,
        c < g.fat_entries(),
    ensures
        ({
            let raw = raw_entry(img, g, c);
            let kept = g.first_mirror <= k < g.first_mirror + g.mirrors;
            copy_entry(rewrite_entries(img, g, f, n), g, k, c) == if 2 <= c < n && kept && f(raw) != raw {
                f(raw)
            } else {
                copy_entry(img, g, k, c)
            }
        }),
    decreases n,
{
    if n > 2 {
        lemma_copies_rewritten(img, g, f, n - 1, k, c);
        lemma_rewrite_entries(img, g, f, n - 1);
        let before = rewrite_entries(img, g, f, n - 1);
        let d = (n - 1) as u32;
        lemma_put_entry(before, g, d, f(raw_entry(img, g, d)));
    }
}

/// What marking a path leaves in each copy.
proof fn lemma_copies_marked(img: Seq<u8>, g: Geometry, path: Seq<u32>, k: int, c: u32)
    requires
        g.wf(img.len()),
        forall|i: int| 0 <= i < path.len() ==> #[trigger] g.valid_cluster(path[i]),
        0 <= k < g.fats,
        c < g.fat_entries(),
    ensures
        ({
            let kept = g.first_mirror <= k < g.first_mirror + g.mirrors;
            copy_entry(path_marked(img, g, path), g, k, c) == if kept && path.contains(c) {
                raw_entry(img, g, c) | FAT32_VISITED_BIT
            } else {
                copy_entry(img, g, k, c)
            }
        }),
    decreases path.len(),
{
    if path.len() > 0 {
        let front = path.drop_last();
        let last = path.last();
        assert forall|i: int| 0 <= i < front.len() implies #[trigger] g.valid_cluster(front[i]) by {
            assert(g.valid_cluster(path[i]));
        }
        assert(g.valid_cluster(path[path.len() - 1]));
        lemma_copies_marked(img, g, front, k, c);
        lemma_path_marked(img, g, front);
        lemma_put_entry(path_marked(img, g, front), g, last, raw_entry(img, g, last) | FAT32_VISITED_BIT);
        assert(path.contains(c) == (front.contains(c) || c == last)) by {
            if path.contains(c) {
                let i = choose|i: int| 0 <= i < path.len() && path[i] == c;
                if i < front.len() {
                    assert(front[i] == c);
                }
            }
            if front.contains(c) {
                let i = choose|i: int| 0 <= i < front.len() && front[i] == c;
                assert(path[i] == c);
            }
            assert(path[path.len() - 1] == last);
        }
    }
}

/// Clearing the markers takes the marker off every FAT entry of a cluster that has one, and changes nothing else. The
/// two reserved entries stay.
pub proof fn law_markers_cleared(img: Seq<u8>, g: Geometry, k: int, c: u32)
    requires
        g.wf(img.len()),
        0 <= k < g.fats,
        c < g.total_clusters + 2,
    ensures
        ({
            let was = raw_entry(img, g, c);
            let now = raw_entry(markers_cleared(img, g), g, c);
            &&& c >= 2 && was / 0x1000_0000 % 2 == 1 ==> now == was - 0x1000_0000
            &&& c < 2 || was / 0x1000_0000 % 2 == 0 ==> now == was
            &&& only_fat_changed(g, img, markers_cleared(img, g))
            &&& copy_entry(markers_cleared(img, g), g, k, c) == if now != was && g.first_mirror <= k
                < g.first_mirror + g.mirrors {
                now
            } else {
                copy_entry(img, g, k, c)
            }
        }),
{
    lemma_copies_rewritten(img, g, |raw: u32| unmarked(raw), g.fat_entries(), k, c);
    lemma_rewrite_entries(img, g, |raw: u32| unmarked(raw), g.fat_entries());
    law_fat_values(raw_entry(img, g, c));
}

/// The sweep takes every marker off. A cluster in use that has none is freed, if that was asked for, and counted; so is
/// each chain of such clusters, by where it ends, or by its greatest cluster, if it runs in a circle. Nothing else
/// changes.
pub proof fn law_sweep(img: Seq<u8>, g: Geometry, reclaim: bool, stats: RepairStats, k: int, c: u32) -> (lists_of: (
    Seq<u32>,
    Seq<u32>,
))
    requires
        g.wf(img.len()),
        0 <= k < g.fats,
        c < g.total_clusters + 2,
    ensures
        ({
            let was = raw_entry(img, g, c);
            let now = raw_entry(orphans_swept(img, g, reclaim), g, c);
            let value = was % 0x1000_0000;
            let reached = was / 0x1000_0000 % 2 == 1;
            let lost = !reached && value != 0 && value != 0x0FFF_FFF7;
            &&& c >= 2 && reached ==> now == was - 0x1000_0000
            &&& c >= 2 && lost && reclaim ==> now == 0
            &&& c < 2 || (!reached && !(lost && reclaim)) ==> now == was
            &&& only_fat_changed(g, img, orphans_swept(img, g, reclaim))
            &&& copy_entry(orphans_swept(img, g, reclaim), g, k, c) == if now != was && g.first_mirror <= k
                < g.first_mirror + g.mirrors {
                now
            } else {
                copy_entry(img, g, k, c)
            }
        }),
        lists(
            lists_of.0,
            2,
            g.total_clusters + 2,
            |d: u32|
                raw_entry(img, g, d) / 0x1000_0000 % 2 == 0 && raw_entry(img, g, d) % 0x1000_0000 != 0
                    && raw_entry(img, g, d) % 0x1000_0000 != 0x0FFF_FFF7,
        ),
        lists(
            lists_of.1,
            2,
            g.total_clusters + 2,
            |d: u32| ends_orphan_chain(img, g, d) || closes_orphan_ring(img, g, d),
        ),
        orphans_counted(img, g, reclaim, stats) == if reclaim {
            RepairStats {
                clusters_freed: bump_by(stats.clusters_freed, lists_of.0.len()),
                orphans_freed: bump_by(stats.orphans_freed, lists_of.1.len()),
                ..stats
            }
        } else {
            stats
        },
{
    let n = g.fat_entries();
    lemma_rewrite_entries(img, g, |raw: u32| swept(raw, reclaim), n);
    lemma_copies_rewritten(img, g, |raw: u32| swept(raw, reclaim), n, k, c);
    law_swept_entry(raw_entry(img, g, c), reclaim);
    let p = |raw: u32| is_orphan(raw);
    let freed = lemma_count_lists(img, g, p, n);
    let r = |d: u32| p(raw_entry(img, g, d));
    let q = |d: u32|
        raw_entry(img, g, d) / 0x1000_0000 % 2 == 0 && raw_entry(img, g, d) % 0x1000_0000 != 0
            && raw_entry(img, g, d) % 0x1000_0000 != 0x0FFF_FFF7;
    assert forall|d: u32| #[trigger] r(d) == q(d) by {
        law_swept_entry(raw_entry(img, g, d), true);
    }
    lemma_same_list(freed, 2, n, r, q);
    let chains = lemma_chains_listed(img, g, n);
    (freed, chains)
}

proof fn lemma_chains_listed(img: Seq<u8>, g: Geometry, n: int) -> (list: Seq<u32>)
    requires
        2 <= n <= g.fat_entries(),
        g.total_clusters <= MAX_CLUSTERS,
    ensures
        lists(list, 2, n, |d: u32| ends_orphan_chain(img, g, d) || closes_orphan_ring(img, g, d)),
        count_orphan_chains(img, g, n) == list.len(),
    decreases n,
{
    let q = |d: u32| ends_orphan_chain(img, g, d) || closes_orphan_ring(img, g, d);
    if n == 2 {
        Seq::empty()
    } else {
        let front = lemma_chains_listed(img, g, n - 1);
        lemma_listed(front, 2, n - 1, q);
        let c = (n - 1) as u32;
        if q(c) {
            front.push(c)
        } else {
            front
        }
    }
}

/// Where a chain of lost clusters ends: at one that is lost, and does not link to another one that is.
pub proof fn law_ends_of_orphan_chains(img: Seq<u8>, g: Geometry, c: u32)
    ensures
        ({
            let value = raw_entry(img, g, c) % 0x1000_0000;
            let next = value as u32;
            &&& ends_orphan_chain(img, g, c) ==> is_orphan(raw_entry(img, g, c))
            &&& is_orphan(raw_entry(img, g, c)) && value >= 0x0FFF_FFF8 ==> ends_orphan_chain(img, g, c)
            &&& is_orphan(raw_entry(img, g, c)) && !(2 <= value < g.total_clusters + 2)
                ==> ends_orphan_chain(img, g, c)
            &&& is_orphan(raw_entry(img, g, c)) && value < 0x0FFF_FFF7 && 2 <= value < g.total_clusters + 2
                ==> (ends_orphan_chain(img, g, c) <==> !is_orphan(raw_entry(img, g, next)))
        }),
{
    law_fat_values(raw_entry(img, g, c));
}

/// The reserved FAT entries have fixed values: the media descriptor, padded with ones to 28 bits, and all ones. One
/// that holds something else is counted, and restored; in the second one, two bits are flags, and may be anything.
/// Nothing else changes.
pub proof fn law_reserved_entries(img: Seq<u8>, g: Geometry, stats: RepairStats, c: u32)
    requires
        g.wf(img.len()),
        c < g.total_clusters + 2,
    ensures
        ({
            let b = reserved_entries_restored(img, g);
            let counted = reserved_entries_counted(img, g, stats);
            let first_wrong = raw_entry(img, g, 0) % 0x1000_0000 != 0x0FFF_FF00 + g.media;
            let second_wrong = raw_entry(img, g, 1) % 0x0400_0000 != 0x03FF_FFFF;
            let once = bump(stats.reserved_entries_restored);
            &&& raw_entry(b, g, 0) == if first_wrong {
                0x0FFF_FF00 + g.media
            } else {
                raw_entry(img, g, 0) as int
            }
            &&& raw_entry(b, g, 1) == if second_wrong {
                0xFFFF_FFFF
            } else {
                raw_entry(img, g, 1)
            }
            &&& c >= 2 ==> raw_entry(b, g, c) == raw_entry(img, g, c)
            &&& only_fat_changed(g, img, b)
            &&& forall|k: int|
                0 <= k < g.fats ==> #[trigger] copy_entry(b, g, k, c) == if g.first_mirror <= k
                    < g.first_mirror + g.mirrors && ((c == 0 && first_wrong) || (c == 1 && second_wrong)) {
                    raw_entry(b, g, c)
                } else {
                    copy_entry(img, g, k, c)
                }
            &&& counted == (RepairStats {
                reserved_entries_restored: if first_wrong && second_wrong {
                    bump(once)
                } else if first_wrong || second_wrong {
                    once
                } else {
                    stats.reserved_entries_restored
                },
                ..stats
            })
        }),
{
    let x = raw_entry(img, g, 0);
    let y = raw_entry(img, g, 1);
    let m = g.media as u32;
    assert((m <= 255 ==> 0x0FFF_FF00u32 | m == 0x0FFF_FF00 + m) && (x & 0x0FFF_FFFFu32 == x % 0x1000_0000)
        && ((y & 0x0FFF_FFFFu32) | 0x0C00_0000u32 == 0x0FFF_FFFFu32) == (y % 0x0400_0000
        == 0x03FF_FFFF)) by (bit_vector);
    let one = if entry_0_damaged(img, g) {
        put_entry(img, g, 0, media_entry(g))
    } else {
        img
    };
    lemma_put_entry(img, g, 0, media_entry(g));
    lemma_put_entry(one, g, 1, u32::MAX);
}

/// Whether one of the copies of the FAT that are kept in step has something else for entry `c` than the one that is
/// read.
pub open spec fn in_dispute(img: Seq<u8>, g: Geometry, c: u32) -> bool {
    exists|k: int|
        g.first_mirror <= k < g.first_mirror + g.mirrors && #[trigger] copy_entry(img, g, k, c) != raw_entry(
            img,
            g,
            c,
        )
}

/// Bringing the mirrors into line makes every copy that is kept in step agree with the one that is read, which itself
/// does not change. Each entry in dispute counts once. A reserved entry of the copy that is read that is damaged itself
/// is no model for the others, and is left out.
pub proof fn law_mirrors_synced(img: Seq<u8>, g: Geometry, k: int, c: u32) -> (list: Seq<u32>)
    requires
        g.wf(img.len()),
        c < g.total_clusters + 2,
        g.first_mirror <= k < g.first_mirror + g.mirrors,
    ensures
        ({
            let b = mirrors_synced(img, g, g.total_clusters + 2);
            &&& raw_entry(b, g, c) == raw_entry(img, g, c)
            &&& c >= 2 ==> copy_entry(b, g, k, c) == raw_entry(img, g, c)
            &&& c == 0 && raw_entry(img, g, 0) % 0x1000_0000 == 0x0FFF_FF00 + g.media ==> copy_entry(
                b,
                g,
                k,
                c,
            ) == raw_entry(img, g, c)
            &&& c == 1 && raw_entry(img, g, 1) % 0x0400_0000 == 0x03FF_FFFF ==> copy_entry(b, g, k, c)
                == raw_entry(img, g, c)
            &&& only_fat_changed(g, img, b)
        }),
        count_diverging(img, g, g.total_clusters + 2) == list.len(),
        forall|i: int, j: int| 0 <= i < j < list.len() ==> #[trigger] list[i] < #[trigger] list[j],
        forall|i: int| 0 <= i < list.len() ==> in_dispute(img, g, #[trigger] list[i]),
        c >= 2 && in_dispute(img, g, c) ==> list.contains(c),
{
    let n = g.fat_entries();
    lemma_mirrors_synced(img, g, n);
    let x = raw_entry(img, g, 0);
    let y = raw_entry(img, g, 1);
    let m = g.media as u32;
    assert((m <= 255 ==> 0x0FFF_FF00u32 | m == 0x0FFF_FF00 + m) && (x & 0x0FFF_FFFFu32 == x % 0x1000_0000)
        && ((y & 0x0FFF_FFFFu32) | 0x0C00_0000u32 == 0x0FFF_FFFFu32) == (y % 0x0400_0000
        == 0x03FF_FFFF)) by (bit_vector);
    let list = lemma_disputes_listed(img, g, n);
    let q = |d: u32| diverges(img, g, d);
    if c >= 2 && in_dispute(img, g, c) {
        assert(q(c));
    }
    assert forall|i: int| 0 <= i < list.len() implies in_dispute(img, g, #[trigger] list[i]) by {
        assert(q(list[i]));
    }
    list
}

proof fn lemma_disputes_listed(img: Seq<u8>, g: Geometry, n: int) -> (list: Seq<u32>)
    requires
        0 <= n <= g.fat_entries(),
        g.total_clusters <= MAX_CLUSTERS,
    ensures
        lists(list, 0, n, |d: u32| diverges(img, g, d)),
        count_diverging(img, g, n) == list.len(),
    decreases n,
{
    let q = |d: u32| diverges(img, g, d);
    if n == 0 {
        Seq::empty()
    } else {
        let front = lemma_disputes_listed(img, g, n - 1);
        lemma_listed(front, 0, n - 1, q);
        let c = (n - 1) as u32;
        if q(c) {
            front.push(c)
        } else {
            front
        }
    }
}

/// Whether `ring` runs in a circle of lost clusters, from its greatest one on, and comes to none twice.
pub open spec fn runs_in_circle(img: Seq<u8>, g: Geometry, ring: Seq<u32>) -> bool {
    &&& ring.len() > 0
    &&& ring.no_duplicates()
    &&& forall|i: int| 0 <= i < ring.len() ==> 2 <= #[trigger] ring[i] < g.total_clusters + 2
    &&& forall|i: int|
        0 <= i < ring.len() ==> raw_entry(img, g, #[trigger] ring[i]) / 0x1000_0000 % 2 == 0 && ring[i]
            <= ring[0]
    &&& forall|i: int|
        0 <= i < ring.len() - 1 ==> raw_entry(img, g, #[trigger] ring[i]) % 0x1000_0000 == ring[i + 1]
    &&& raw_entry(img, g, ring[ring.len() - 1]) % 0x1000_0000 == ring[0]
}

/// A circle of lost clusters counts by its greatest cluster, and by no other.
pub proof fn law_orphan_rings(img: Seq<u8>, g: Geometry, ring: Seq<u32>, c: u32) -> (found: Seq<u32>)
    requires
        g.total_clusters <= 0x0FFF_FFF4,
    ensures
        runs_in_circle(img, g, ring) ==> closes_orphan_ring(img, g, ring[0]),
        closes_orphan_ring(img, g, c) ==> runs_in_circle(img, g, found) && found[0] == c,
{
    if runs_in_circle(img, g, ring) {
        assert forall|i: int| 0 <= i < ring.len() implies {
            &&& g.valid_cluster(#[trigger] ring[i])
            &&& is_orphan(raw_entry(img, g, ring[i]))
            &&& ring[i] <= ring[0]
            &&& entry_of(raw_entry(img, g, ring[i])) == FatEntry::Data(
                if i + 1 < ring.len() {
                    ring[i + 1]
                } else {
                    ring[0]
                },
            )
        } by {
            let raw = raw_entry(img, g, ring[i]);
            law_fat_values(raw);
            if i + 1 < ring.len() {
                assert(raw % 0x1000_0000 == ring[i + 1]);
                assert(2 <= ring[i + 1] < g.total_clusters + 2);
            } else {
                assert(2 <= ring[0] < g.total_clusters + 2);
            }
        }
        assert(is_orphan_ring(img, g, ring));
    }
    let found = if closes_orphan_ring(img, g, c) {
        choose|r: Seq<u32>| #[trigger] is_orphan_ring(img, g, r) && r[0] == c
    } else {
        Seq::empty()
    };
    if closes_orphan_ring(img, g, c) {
        assert forall|i: int| 0 <= i < found.len() implies raw_entry(img, g, #[trigger] found[i])
            / 0x1000_0000 % 2 == 0 && found[i] <= found[0] && raw_entry(img, g, found[i]) % 0x1000_0000 == (
        if i + 1 < found.len() {
            found[i + 1]
        } else {
            found[0]
        }) by {
            law_fat_values(raw_entry(img, g, found[i]));
            assert(g.valid_cluster(found[i]));
        }
        assert forall|i: int| 0 <= i < found.len() implies 2 <= #[trigger] found[i] < g.total_clusters + 2 by {
            assert(g.valid_cluster(found[i]));
        }
        let last = found[found.len() - 1];
        assert(raw_entry(img, g, last) % 0x1000_0000 == found[0]);
    }
    found
}

/// What a scan tells: how many clusters the chain has, whether it was cut, and whether it ran into another one. There
/// is no chain from what is no cluster.
pub proof fn law_scan_told(g: Geometry, v: Vol, start: u32, limit: Option<u32>, mode: RepairMode)
    requires
        1 <= g.total_clusters <= 0x0FFF_FFF4,
    ensures
        ({
            let walk = chain_from(v.img, g, start, limit, mode.marks());
            let told = scan_of(walk);
            &&& told.clusters == walk.path.len()
            &&& told.truncated == walk.truncated
            &&& told.cross_linked == walk.cross_linked
            &&& !(2 <= start < g.total_clusters + 2) ==> walk.path.len() == 0 && walk.truncated
                && !walk.cross_linked && chain_scanned(g, v, start, limit, mode) == v
        }),
{
    if 2 <= start < g.total_clusters + 2 {
        law_chain_followed(v.img, g, start, limit, mode.marks());
    }
}

} // verus!
