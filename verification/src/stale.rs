//! Markers that an interrupted run left behind do not mislead a run that does not mark.

use vstd::prelude::*;

use crate::advance::lemma_paths_disjoint;
use crate::again::{lemma_distinct, lemma_follow_whole};
use crate::bytes::splice;
use crate::chain::{
    chain_from, chain_scanned, follow, lemma_chain_begins, lemma_chain_bounds, lemma_path_marked, path_marked,
};
use crate::chain_laws::{lemma_chain_linked, lemma_follow_same};
use crate::counts::{lemma_dir_counts, lemma_scan_counts, lemma_stack_counts, lemma_tree_counts, lemma_visit_counts};
use crate::dir::{
    dir_start, entry_at, entry_deleted, entry_under, lemma_entry_bounds, lemma_nth_cluster, lemma_place_after, link_of,
    nth_cluster, place_after, place_at, starts_directory, Cursor, Link, Place,
};
use crate::dirent::{
    attributes_possible, dot_name, first_cluster, is_dir, is_label, name_corrupted, recovered_name, short_name,
    with_cluster, with_size,
};
use crate::entry::{
    capacity_of, chain_limit, dir_rejected, dot_target, entries_between, entries_deleted, entry_checked,
    entry_discarded, linked_entry_checked, renamed, run_removed, EntrySite,
};
use crate::fat::{
    entry_of, lemma_put_entry, marked, put_entry, put_value, raw_entry, with_value, FatEntry, FAT32_EOC,
    FAT32_VALUE_MASK,
};
use crate::geometry::{Geometry, DIR_ENTRY_SIZE};
use crate::kept::lemma_same_fat;
use crate::mode::RepairMode;
use crate::model::Vol;
use crate::owned::{lemma_chain_claimed, lemma_whole_kept, owned, same_fat, whole_chain};
use crate::scratch::DirFrame;
use crate::stats::{bump, RepairStats};
use crate::visits::is_short;
use crate::walk::{
    dir_entered, dir_scanned, dir_skipped, entry_visited, frame_ok, lemma_dir_scanned_advances, long_name_dropped,
    no_run, run_matches, run_ok, scanned_from, short_entry_visited, stack_walked, tree_walked, DirStep, LfnRun, Visit,
};

verus! {

/// Whether `a` and `b` differ only in the FAT, and there, about clusters, only in the bits that hold no value. That is
/// where the markers are.
pub open spec fn same_values(g: Geometry, a: Seq<u8>, b: Seq<u8>) -> bool {
    &&& a.len() == b.len()
    &&& forall|i: int| 0 <= i < g.fat_start ==> #[trigger] b[i] == a[i]
    &&& forall|i: int| g.fats_end() <= i < a.len() ==> #[trigger] b[i] == a[i]
    &&& forall|c: u32|
        g.valid_cluster(c) ==> (#[trigger] raw_entry(b, g, c)) & FAT32_VALUE_MASK == raw_entry(a, g, c)
            & FAT32_VALUE_MASK
}

/// Whether two reports are the same, apart from what the run was asked for, and what it found in the mirrors.
pub open spec fn same_report(a: RepairStats, b: RepairStats) -> bool {
    a == (RepairStats {
        modes_applied: a.modes_applied,
        mirror_entries_synced: a.mirror_entries_synced,
        ..b
    })
}

/// Whether `a` and `b` are two states of the same volume that differ only in markers.
pub open spec fn alike(g: Geometry, a: Vol, b: Vol) -> bool {
    &&& g.wf(a.img.len())
    &&& same_values(g, a.img, b.img)
    &&& same_report(a.stats, b.stats)
}

/// Whether the walk of a run in `ma` and of one in `mb` repair the same, and the second one does not mark. The first
/// one may.
pub open spec fn partners(ma: RepairMode, mb: RepairMode) -> bool {
    &&& !mb.marks()
    &&& ma.marks() ==> ma.applies(RepairMode::chains())
    &&& ma.applies(RepairMode::chains()) == mb.applies(RepairMode::chains())
    &&& ma.applies(RepairMode::entry_validity()) == mb.applies(RepairMode::entry_validity())
    &&& ma.applies(RepairMode::long_names()) == mb.applies(RepairMode::long_names())
}

/// Whether every cluster that a run in `mode` has marked is on a chain that it has claimed.
#[verifier::opaque]
pub open spec fn claims_ok(g: Geometry, mode: RepairMode, img: Seq<u8>) -> bool {
    mode.marks() ==> forall|c: u32|
        g.valid_cluster(c) && marked(#[trigger] raw_entry(img, g, c)) ==> exists|path: Seq<u32>| #[trigger]
            owned(g, img, path) && path.contains(c)
}

/// Whether a run in `mode` found no cross link between `a` and `b`. One that does not mark finds none.
pub open spec fn no_cross(mode: RepairMode, a: RepairStats, b: RepairStats) -> bool {
    mode.marks() ==> b.cross_links_resolved == a.cross_links_resolved < u32::MAX
}

/// Claims stay where the FAT does.
proof fn lemma_claims_same(g: Geometry, mode: RepairMode, a: Seq<u8>, b: Seq<u8>)
    requires
        claims_ok(g, mode, a),
        forall|c: u32| g.valid_cluster(c) ==> #[trigger] raw_entry(b, g, c) == raw_entry(a, g, c),
    ensures
        claims_ok(g, mode, b),
{
    reveal(claims_ok);
    if mode.marks() {
        assert forall|c: u32| g.valid_cluster(c) && marked(#[trigger] raw_entry(b, g, c)) implies exists|
            path: Seq<u32>,
        | #[trigger] owned(g, b, path) && path.contains(c) by {
            assert(raw_entry(b, g, c) == raw_entry(a, g, c));
            let path = choose|path: Seq<u32>| #[trigger] owned(g, a, path) && path.contains(c);
            assert forall|i: int| 0 <= i < path.len() implies raw_entry(b, g, path[i]) == raw_entry(
                a,
                g,
                #[trigger] path[i],
            ) by {
                assert(g.valid_cluster(path[i]));
            }
            lemma_whole_kept(g, a, b, path);
            assert(owned(g, b, path) && path.contains(c));
        }
    }
}

/// A chain that runs into no claim is the same whether claims count or not.
proof fn lemma_follow_unclaimed(img: Seq<u8>, g: Geometry, c: u32, taken: Seq<u32>, limit: Option<u32>)
    requires
        !follow(img, g, c, taken, limit, true).cross_linked,
    ensures
        follow(img, g, c, taken, limit, true) == follow(img, g, c, taken, limit, false),
    decreases g.total_clusters - taken.len(),
{
    let path = taken.push(c);
    if path.len() < g.total_clusters {
        if let FatEntry::Data(next) = entry_of(raw_entry(img, g, c)) {
            if g.valid_cluster(next) && !taken.contains(c) && !marked(raw_entry(img, g, c)) && !(
            limit is Some && path.len() >= limit->0) {
                lemma_follow_unclaimed(img, g, next, path, limit);
            }
        }
    }
}

/// Marking a chain changes no value.
proof fn lemma_alike_marked(g: Geometry, a: Seq<u8>, b: Seq<u8>, path: Seq<u32>)
    requires
        g.wf(a.len()),
        same_values(g, a, b),
        forall|i: int| 0 <= i < path.len() ==> #[trigger] g.valid_cluster(path[i]),
    ensures
        same_values(g, path_marked(a, g, path), b),
{
    let m = path_marked(a, g, path);
    lemma_path_marked(a, g, path);
    assert forall|c: u32| g.valid_cluster(c) implies (#[trigger] raw_entry(b, g, c))
        & FAT32_VALUE_MASK == raw_entry(m, g, c) & FAT32_VALUE_MASK by {
        let raw = raw_entry(a, g, c);
        assert((raw | 0x1000_0000u32) & 0x0FFF_FFFFu32 == raw & 0x0FFF_FFFFu32) by (bit_vector);
        assert(raw_entry(b, g, c) & FAT32_VALUE_MASK == raw & FAT32_VALUE_MASK);
    }
}

/// A chain that was claimed joins the claims.
proof fn lemma_claims_grow(
    g: Geometry,
    mode: RepairMode,
    v: Vol,
    start: u32,
    limit: Option<u32>,
)
    requires
        g.wf(v.img.len()),
        mode.marks() ==> mode.applies(RepairMode::chains()),
        g.valid_cluster(start),
        claims_ok(g, mode, v.img),
    ensures
        claims_ok(g, mode, chain_scanned(g, v, start, limit, mode).img),
{
    reveal(claims_ok);
    let b = chain_scanned(g, v, start, limit, mode).img;
    if mode.marks() {
        let q = chain_from(v.img, g, start, limit, true).path;
        lemma_chain_claimed(g, mode, v, start, limit);
        assert forall|c: u32| g.valid_cluster(c) && marked(#[trigger] raw_entry(b, g, c)) implies exists|
            path: Seq<u32>,
        | #[trigger] owned(g, b, path) && path.contains(c) by {
            if q.contains(c) {
                assert(owned(g, b, q) && q.contains(c));
            } else {
                assert(marked(raw_entry(v.img, g, c)));
                let path = choose|path: Seq<u32>| #[trigger] owned(g, v.img, path) && path.contains(c);
                lemma_paths_disjoint(g, v.img, path, q);
                assert forall|i: int| 0 <= i < path.len() implies raw_entry(b, g, path[i])
                    == raw_entry(v.img, g, #[trigger] path[i]) by {
                    assert(g.valid_cluster(path[i]));
                    assert(!q.contains(path[i]));
                }
                lemma_whole_kept(g, v.img, b, path);
                assert(owned(g, b, path) && path.contains(c));
            }
        }
    }
}

/// Scanning a chain takes no notice of markers that are not in its way.
pub proof fn lemma_alike_chain(
    g: Geometry,
    a: Vol,
    b: Vol,
    start: u32,
    limit: Option<u32>,
    ma: RepairMode,
    mb: RepairMode,
)
    requires
        alike(g, a, b),
        partners(ma, mb),
        claims_ok(g, ma, a.img),
        no_cross(ma, a.stats, chain_scanned(g, a, start, limit, ma).stats),
        g.valid_cluster(start),
    ensures
        chain_from(b.img, g, start, limit, false) == chain_from(
            a.img,
            g,
            start,
            limit,
            ma.marks(),
        ),
        alike(
            g,
            chain_scanned(g, a, start, limit, ma),
            chain_scanned(g, b, start, limit, mb),
        ),
        claims_ok(g, ma, chain_scanned(g, a, start, limit, ma).img),
{
    lemma_claims_grow(g, ma, a, start, limit);
    let walk = chain_from(a.img, g, start, limit, ma.marks());
    lemma_chain_linked(a.img, g, start, limit, ma.marks());
    lemma_chain_crosses(a.img, g, start, limit, ma.marks());
    assert(!walk.cross_linked);
    if ma.marks() && limit != Some(0u32) {
        lemma_follow_unclaimed(a.img, g, start, Seq::empty(), limit);
    }
    lemma_alike_entries(g, a.img, b.img);
    lemma_follow_same(a.img, b.img, g, start, Seq::empty(), limit, false);
    lemma_chain_bounds(a.img, g, start, limit, ma.marks());
    let m = if ma.marks() {
        path_marked(a.img, g, walk.path)
    } else {
        a.img
    };
    if ma.marks() {
        lemma_alike_marked(g, a.img, b.img, walk.path);
    }
    assert(same_values(g, m, b.img));
    if walk.path.len() > 0 {
        let last = walk.path[walk.path.len() - 1];
        assert(g.valid_cluster(last));
        lemma_alike_ended(g, m, b.img, last);
        lemma_put_entry(m, g, last, with_value(raw_entry(m, g, last), FAT32_EOC));
    }
}

/// A chain that runs into a claim is cut there, and one that claims do not count for runs into none.
pub proof fn lemma_chain_crosses(img: Seq<u8>, g: Geometry, start: u32, limit: Option<u32>, marking: bool)
    ensures
        chain_from(img, g, start, limit, marking).cross_linked ==> marking && chain_from(
            img,
            g,
            start,
            limit,
            marking,
        ).truncated,
{
    if g.valid_cluster(start) && limit != Some(0u32) {
        lemma_follow_crosses(img, g, start, Seq::empty(), limit, marking);
    }
}

proof fn lemma_follow_crosses(
    img: Seq<u8>,
    g: Geometry,
    c: u32,
    taken: Seq<u32>,
    limit: Option<u32>,
    marking: bool,
)
    ensures
        follow(img, g, c, taken, limit, marking).cross_linked ==> marking && follow(
            img,
            g,
            c,
            taken,
            limit,
            marking,
        ).truncated,
    decreases g.total_clusters - taken.len(),
{
    let path = taken.push(c);
    if path.len() < g.total_clusters {
        if let FatEntry::Data(next) = entry_of(raw_entry(img, g, c)) {
            if g.valid_cluster(next) {
                lemma_follow_crosses(img, g, next, path, limit, marking);
            }
        }
    }
}

/// Passing over what claims to be a directory and is none takes no notice of markers: where the chain is claimed
/// already, it is whole.
proof fn lemma_alike_rejected(
    g: Geometry,
    a: Vol,
    b: Vol,
    start: u32,
    ma: RepairMode,
    mb: RepairMode,
)
    requires
        alike(g, a, b),
        partners(ma, mb),
        claims_ok(g, ma, a.img),
        no_cross(ma, a.stats, dir_rejected(g, a, start, ma).stats),
        g.valid_cluster(start),
    ensures
        alike(g, dir_rejected(g, a, start, ma), dir_rejected(g, b, start, mb)),
        claims_ok(g, ma, dir_rejected(g, a, start, ma).img),
{
    let ja = Vol {
        img: a.img,
        stats: RepairStats { dirs_rejected: bump(a.stats.dirs_rejected), ..a.stats },
    };
    let jb = Vol {
        img: b.img,
        stats: RepairStats { dirs_rejected: bump(b.stats.dirs_rejected), ..b.stats },
    };
    let raw = raw_entry(a.img, g, start);
    lemma_chain_begins(a.img, g, start, None, ma.marks());
    lemma_chain_begins(b.img, g, start, None, false);
    lemma_alike_entries(g, a.img, b.img);
    assert(entry_of(raw_entry(b.img, g, start)) == entry_of(raw));
    if ma.marks() && marked(raw) {
        reveal(claims_ok);
        let q = choose|path: Seq<u32>| #[trigger] owned(g, a.img, path) && path.contains(start);
        let i = choose|i: int| 0 <= i < q.len() && q[i] == start;
        lemma_rest_of_chain(g, a.img, q, i);
        lemma_follow_same(a.img, b.img, g, start, Seq::empty(), None, false);
    } else {
        lemma_alike_chain(g, ja, jb, start, None, ma, mb);
    }
}

/// The rest of a whole chain, from its `i`-th cluster on, is nothing to cut.
proof fn lemma_rest_of_chain(g: Geometry, img: Seq<u8>, q: Seq<u32>, i: int)
    requires
        whole_chain(g, img, q),
        0 <= i < q.len(),
    ensures
        !chain_from(img, g, q[i], None, false).truncated,
        !chain_from(img, g, q[i], None, false).cross_linked,
{
    let rest = q.subrange(i, q.len() as int);
    assert(whole_chain(g, img, rest)) by {
        assert forall|j: int| 0 <= j < rest.len() implies #[trigger] g.valid_cluster(rest[j]) by {
            assert(g.valid_cluster(q[i + j]));
        }
        assert forall|j: int| 0 <= j < rest.len() - 1 implies entry_of(
            raw_entry(img, g, #[trigger] rest[j]),
        ) == FatEntry::Data(rest[j + 1]) by {
            assert(entry_of(raw_entry(img, g, q[i + j])) == FatEntry::Data(q[i + j + 1]));
        }
    }
    assert forall|j: int| 0 <= j < rest.len() implies 2 <= #[trigger] rest[j] < g.total_clusters + 2 by {
        assert(g.valid_cluster(rest[j]));
    }
    lemma_distinct(rest, 2, g.total_clusters + 2);
    assert(g.valid_cluster(rest[0]));
    lemma_follow_whole(g, img, rest, None, false, 0);
    assert(rest.subrange(0, 0) =~= Seq::<u32>::empty());
}


/// Equal value bits say the same.
proof fn lemma_alike_entries(g: Geometry, a: Seq<u8>, b: Seq<u8>)
    requires
        same_values(g, a, b),
    ensures
        forall|c: u32|
            g.valid_cluster(c) ==> entry_of(#[trigger] raw_entry(b, g, c)) == entry_of(
                raw_entry(a, g, c),
            ),
{
}

proof fn lemma_alike_link(g: Geometry, a: Seq<u8>, b: Seq<u8>, c: u32)
    requires
        same_values(g, a, b),
        g.valid_cluster(c),
    ensures
        link_of(b, g, c) == link_of(a, g, c),
{
    assert(entry_of(raw_entry(b, g, c)) == entry_of(raw_entry(a, g, c)));
}

proof fn lemma_alike_nth(g: Geometry, a: Seq<u8>, b: Seq<u8>, first: u32, k: nat)
    requires
        same_values(g, a, b),
        g.valid_cluster(first),
    ensures
        nth_cluster(b, g, first, k) == nth_cluster(a, g, first, k),
    decreases k,
{
    if k > 0 {
        lemma_alike_nth(g, a, b, first, (k - 1) as nat);
        lemma_nth_cluster(a, g, first, (k - 1) as nat);
        if let Link::To(c) = nth_cluster(a, g, first, (k - 1) as nat) {
            lemma_alike_link(g, a, b, c);
        }
    }
}

proof fn lemma_alike_place_at(g: Geometry, a: Seq<u8>, b: Seq<u8>, first: u32, pos: u32)
    requires
        same_values(g, a, b),
        g.valid_cluster(first),
        pos % DIR_ENTRY_SIZE == 0,
    ensures
        place_at(b, g, first, pos) == place_at(a, g, first, pos),
        place_at(a, g, first, pos) matches Place::At(cur) ==> cur.wf(g) && cur.pos == pos,
{
    lemma_alike_nth(g, a, b, first, (pos / g.cluster_size) as nat);
    lemma_nth_cluster(a, g, first, (pos / g.cluster_size) as nat);
}

proof fn lemma_alike_place_after(g: Geometry, a: Seq<u8>, b: Seq<u8>, cur: Cursor)
    requires
        same_values(g, a, b),
        cur.wf(g),
    ensures
        place_after(b, g, cur) == place_after(a, g, cur),
        place_after(a, g, cur) matches Place::At(next) ==> next.wf(g) && next.pos == cur.pos
            + DIR_ENTRY_SIZE,
{
    lemma_alike_link(g, a, b, cur.cluster);
    lemma_place_after(a, g, cur);
}

/// The same edit behind the FAT.
proof fn lemma_alike_edit(g: Geometry, a: Seq<u8>, b: Seq<u8>, at: int, data: Seq<u8>)
    requires
        g.wf(a.len()),
        same_values(g, a, b),
        g.data_start <= at,
        at + data.len() <= a.len(),
    ensures
        same_values(g, splice(a, at, data), splice(b, at, data)),
        same_fat(g, a, splice(a, at, data)),
{
    let x = splice(a, at, data);
    let y = splice(b, at, data);
    g.lemma_copy_bounds(a.len(), 0);
    lemma_same_fat(g, a, x);
    lemma_same_fat(g, b, y);
    assert forall|c: u32| g.valid_cluster(c) implies (#[trigger] raw_entry(y, g, c))
        & FAT32_VALUE_MASK == raw_entry(x, g, c) & FAT32_VALUE_MASK by {
        assert(raw_entry(x, g, c) == raw_entry(a, g, c));
        assert(raw_entry(b, g, c) & FAT32_VALUE_MASK == raw_entry(a, g, c) & FAT32_VALUE_MASK);
    }
}

/// Ending a chain at the same cluster.
proof fn lemma_alike_ended(g: Geometry, a: Seq<u8>, b: Seq<u8>, c: u32)
    requires
        g.wf(a.len()),
        same_values(g, a, b),
        g.valid_cluster(c),
    ensures
        same_values(g, put_value(a, g, c, FAT32_EOC), put_value(b, g, c, FAT32_EOC)),
{
    let p = raw_entry(a, g, c);
    let q = raw_entry(b, g, c);
    assert(q & 0x0FFF_FFFFu32 == p & 0x0FFF_FFFFu32);
    let x = with_value(p, FAT32_EOC);
    let y = with_value(q, FAT32_EOC);
    lemma_put_entry(a, g, c, x);
    lemma_put_entry(b, g, c, y);
    let ones = 0x0FFF_FFFFu32;
    assert(((ones & 0x0FFF_FFFFu32) | (p & !0x0FFF_FFFFu32)) & 0x0FFF_FFFFu32 == ones
        & 0x0FFF_FFFFu32) by (bit_vector);
    assert(((ones & 0x0FFF_FFFFu32) | (q & !0x0FFF_FFFFu32)) & 0x0FFF_FFFFu32 == ones
        & 0x0FFF_FFFFu32) by (bit_vector);
    let na = put_value(a, g, c, FAT32_EOC);
    let nb = put_value(b, g, c, FAT32_EOC);
    assert forall|d: u32| g.valid_cluster(d) implies (#[trigger] raw_entry(nb, g, d))
        & FAT32_VALUE_MASK == raw_entry(na, g, d) & FAT32_VALUE_MASK by {
        assert(raw_entry(b, g, d) & FAT32_VALUE_MASK == raw_entry(a, g, d) & FAT32_VALUE_MASK);
        if d != c {
            assert(raw_entry(put_entry(a, g, c, x), g, d) == raw_entry(a, g, d));
            assert(raw_entry(put_entry(b, g, c, y), g, d) == raw_entry(b, g, d));
        }
    }
}

proof fn lemma_alike_deleted(g: Geometry, a: Seq<u8>, b: Seq<u8>, cur: Cursor, count: nat)
    requires
        g.wf(a.len()),
        same_values(g, a, b),
        cur.wf(g),
    ensures
        same_values(
            g,
            entries_deleted(a, g, cur, count).0,
            entries_deleted(b, g, cur, count).0,
        ),
        entries_deleted(a, g, cur, count).0.len() == a.len(),
        same_fat(g, a, entries_deleted(a, g, cur, count).0),
        entries_deleted(b, g, cur, count).1 == entries_deleted(a, g, cur, count).1,
    decreases count,
{
    if count > 0 {
        let x = entry_deleted(a, cur.offset(g));
        let y = entry_deleted(b, cur.offset(g));
        lemma_entry_bounds(g, a.len(), cur);
        lemma_alike_edit(g, a, b, cur.offset(g), seq![0xE5u8]);
        lemma_alike_place_after(g, x, y, cur);
        if count > 1 {
            if let Place::At(next) = place_after(x, g, cur) {
                lemma_alike_deleted(g, x, y, next, (count - 1) as nat);
            }
        }
    }
}

proof fn lemma_alike_removed(
    g: Geometry,
    a: Vol,
    b: Vol,
    first: u32,
    start: u32,
    count: nat,
    ma: RepairMode,
    mb: RepairMode,
    flag: RepairMode,
)
    requires
        alike(g, a, b),
        ma.applies(flag) == mb.applies(flag),
        claims_ok(g, ma, a.img),
        g.valid_cluster(first),
        start % DIR_ENTRY_SIZE == 0,
    ensures
        claims_ok(g, ma, run_removed(g, a, first, start, count, ma, flag).0.img),
        alike(
            g,
            run_removed(g, a, first, start, count, ma, flag).0,
            run_removed(g, b, first, start, count, mb, flag).0,
        ),
        run_removed(g, b, first, start, count, mb, flag).1 == run_removed(
            g,
            a,
            first,
            start,
            count,
            ma,
            flag,
        ).1,
{
    lemma_alike_place_at(g, a.img, b.img, first, start);
    if let Place::At(cur) = place_at(a.img, g, first, start) {
        lemma_alike_deleted(g, a.img, b.img, cur, count);
        lemma_claims_same(g, ma, a.img, entries_deleted(a.img, g, cur, count).0);
    }
}

proof fn lemma_alike_discarded(
    g: Geometry,
    a: Vol,
    b: Vol,
    first: u32,
    site: EntrySite,
    ma: RepairMode,
    mb: RepairMode,
)
    requires
        alike(g, a, b),
        partners(ma, mb),
        claims_ok(g, ma, a.img),
        g.valid_cluster(first),
        site.wf(),
    ensures
        claims_ok(g, ma, entry_discarded(g, a, first, site, ma).0.img),
        alike(
            g,
            entry_discarded(g, a, first, site, ma).0,
            entry_discarded(g, b, first, site, mb).0,
        ),
        entry_discarded(g, b, first, site, mb).1 == entry_discarded(g, a, first, site, ma).1,
        !(entry_discarded(g, a, first, site, ma).1 matches Ok(Some(_))),
{
    let end = (site.pos + DIR_ENTRY_SIZE) as u64;
    lemma_alike_removed(
        g,
        a,
        b,
        first,
        site.run_start,
        entries_between(site.run_start, end),
        ma,
        mb,
        RepairMode::entry_validity(),
    );
}

proof fn lemma_alike_starts(g: Geometry, a: Seq<u8>, b: Seq<u8>, c: u32)
    requires
        g.wf(a.len()),
        same_values(g, a, b),
        g.valid_cluster(c),
    ensures
        starts_directory(b, g, c) == starts_directory(a, g, c),
{
    g.lemma_cluster_bounds(a.len(), c as int);
    let at = g.cluster_start(c as int);
    assert(entry_at(b, at) =~= entry_at(a, at));
    assert(entry_at(b, at + DIR_ENTRY_SIZE) =~= entry_at(a, at + DIR_ENTRY_SIZE));
}

proof fn lemma_alike_linked(
    g: Geometry,
    a: Vol,
    b: Vol,
    first: u32,
    cur: Cursor,
    e: Seq<u8>,
    site: EntrySite,
    start: u32,
    ma: RepairMode,
    mb: RepairMode,
)
    requires
        alike(g, a, b),
        partners(ma, mb),
        claims_ok(g, ma, a.img),
        no_cross(ma, a.stats, linked_entry_checked(g, a, first, e, site, start, ma).0.stats),
        g.valid_cluster(first),
        cur.wf(g),
        e.len() == DIR_ENTRY_SIZE,
        site.wf(),
        site.abs_pos == cur.offset(g),
        g.valid_cluster(start),
    ensures
        claims_ok(g, ma, linked_entry_checked(g, a, first, e, site, start, ma).0.img),
        alike(
            g,
            linked_entry_checked(g, a, first, e, site, start, ma).0,
            linked_entry_checked(g, b, first, e, site, start, mb).0,
        ),
        linked_entry_checked(g, b, first, e, site, start, mb).1 == linked_entry_checked(
            g,
            a,
            first,
            e,
            site,
            start,
            ma,
        ).1,
        linked_entry_checked(g, a, first, e, site, start, ma).1 matches Ok(Some(c))
            ==> g.valid_cluster(c),
{
    let at = cur.offset(g);
    lemma_entry_bounds(g, a.img.len(), cur);
    lemma_alike_starts(g, a.img, b.img, start);
    if is_dir(e) && !starts_directory(a.img, g, start) {
        lemma_alike_rejected(g, a, b, start, ma, mb);
    } else {
        let na = if name_corrupted(short_name(e)) {
            renamed(a, ma, at)
        } else {
            a
        };
        let nb = if name_corrupted(short_name(e)) {
            renamed(b, mb, at)
        } else {
            b
        };
        lemma_alike_edit(
            g,
            a.img,
            b.img,
            at,
            recovered_name(a.stats.entries_recovered),
        );
        assert(alike(g, na, nb));
        lemma_claims_same(g, ma, a.img, na.img);
        let limit = chain_limit(g, e);
        lemma_alike_chain(g, na, nb, start, limit, ma, mb);
        let sa = chain_scanned(g, na, start, limit, ma);
        let sb = chain_scanned(g, nb, start, limit, mb);
        let n = chain_from(na.img, g, start, limit, ma.marks()).path.len();
        let reachable = capacity_of(g, n as int);
        lemma_alike_discarded(g, sa, sb, first, site, ma, mb);
        lemma_entry_bounds(g, sa.img.len(), cur);
        lemma_alike_edit(
            g,
            sa.img,
            sb.img,
            at + 20,
            with_cluster(with_size(e, 0), 0).subrange(20, 32),
        );
        lemma_alike_edit(g, sa.img, sb.img, at + 20, with_size(e, reachable).subrange(20, 32));
        let done = linked_entry_checked(g, a, first, e, site, start, ma).0;
        if !is_dir(e) {
            lemma_claims_same(g, ma, sa.img, done.img);
        }
    }
}

proof fn lemma_alike_checked(
    g: Geometry,
    a: Vol,
    b: Vol,
    first: u32,
    cur: Cursor,
    e: Seq<u8>,
    site: EntrySite,
    ma: RepairMode,
    mb: RepairMode,
)
    requires
        alike(g, a, b),
        partners(ma, mb),
        claims_ok(g, ma, a.img),
        no_cross(ma, a.stats, entry_checked(g, a, first, e, site, ma).0.stats),
        g.valid_cluster(first),
        cur.wf(g),
        e.len() == DIR_ENTRY_SIZE,
        site.wf(),
        site.abs_pos == cur.offset(g),
    ensures
        claims_ok(g, ma, entry_checked(g, a, first, e, site, ma).0.img),
        alike(
            g,
            entry_checked(g, a, first, e, site, ma).0,
            entry_checked(g, b, first, e, site, mb).0,
        ),
        entry_checked(g, b, first, e, site, mb).1 == entry_checked(g, a, first, e, site, ma).1,
        entry_checked(g, a, first, e, site, ma).1 matches Ok(Some(c)) ==> g.valid_cluster(c),
{
    lemma_alike_discarded(g, a, b, first, site, ma, mb);
    lemma_entry_bounds(g, a.img.len(), cur);
    lemma_alike_edit(g, a.img, b.img, cur.offset(g) + 20, with_size(e, 0).subrange(20, 32));
    if attributes_possible(e) && first_cluster(e) is None && !name_corrupted(short_name(e)) {
        lemma_claims_same(g, ma, a.img, entry_checked(g, a, first, e, site, ma).0.img);
    }
    if let Some(start) = first_cluster(e) {
        if g.valid_cluster(start) && attributes_possible(e) {
            lemma_alike_linked(g, a, b, first, cur, e, site, start, ma, mb);
        }
    }
}

proof fn lemma_alike_short(
    g: Geometry,
    a: Vol,
    b: Vol,
    frame: DirFrame,
    cur: Cursor,
    run_start: u32,
    e: Seq<u8>,
    lfn: LfnRun,
    ma: RepairMode,
    mb: RepairMode,
)
    requires
        alike(g, a, b),
        partners(ma, mb),
        claims_ok(g, ma, a.img),
        no_cross(ma, a.stats, short_entry_visited(g, a, frame, cur, run_start, e, lfn, ma).0.stats),
        frame_ok(g, frame),
        cur.wf(g),
        e.len() == DIR_ENTRY_SIZE,
        run_start % DIR_ENTRY_SIZE == 0,
        run_start <= cur.pos,
    ensures
        claims_ok(g, ma, short_entry_visited(g, a, frame, cur, run_start, e, lfn, ma).0.img),
        alike(
            g,
            short_entry_visited(g, a, frame, cur, run_start, e, lfn, ma).0,
            short_entry_visited(g, b, frame, cur, run_start, e, lfn, mb).0,
        ),
        short_entry_visited(g, b, frame, cur, run_start, e, lfn, mb).1 == short_entry_visited(
            g,
            a,
            frame,
            cur,
            run_start,
            e,
            lfn,
            ma,
        ).1,
        match short_entry_visited(g, a, frame, cur, run_start, e, lfn, ma).1 {
            Ok(Visit::Descend(c)) => g.valid_cluster(c),
            Ok(Visit::Next(rest)) => rest.start is None,
            _ => true,
        },
{
    let first = dir_start(g, frame.cluster);
    let at = cur.offset(g);
    lemma_entry_bounds(g, a.img.len(), cur);
    let target = dot_target(frame, e);
    lemma_alike_edit(g, a.img, b.img, at + 20, with_cluster(e, target).subrange(20, 32));
    lemma_alike_edit(g, a.img, b.img, at, g.volume_label@);
    let ca = Vol {
        img: a.img,
        stats: RepairStats { files_examined: bump(a.stats.files_examined), ..a.stats },
    };
    let cb = Vol {
        img: b.img,
        stats: RepairStats { files_examined: bump(b.stats.files_examined), ..b.stats },
    };
    let site = EntrySite { pos: cur.pos, run_start, abs_pos: at as u64 };
    if dot_name(short_name(e)) || is_label(e) {
        lemma_claims_same(
            g,
            ma,
            a.img,
            short_entry_visited(g, a, frame, cur, run_start, e, lfn, ma).0.img,
        );
    } else {
        lemma_alike_checked(g, ca, cb, first, cur, e, site, ma, mb);
    }
}

proof fn lemma_alike_visited(
    g: Geometry,
    a: Vol,
    b: Vol,
    frame: DirFrame,
    cur: Cursor,
    lfn: LfnRun,
    ma: RepairMode,
    mb: RepairMode,
)
    requires
        alike(g, a, b),
        partners(ma, mb),
        claims_ok(g, ma, a.img),
        no_cross(ma, a.stats, entry_visited(g, a, frame, cur, lfn, ma).0.stats),
        frame_ok(g, frame),
        g.valid_cluster(g.root_dir_first_cluster),
        cur.wf(g),
        run_ok(lfn, cur.pos),
    ensures
        claims_ok(g, ma, entry_visited(g, a, frame, cur, lfn, ma).0.img),
        alike(
            g,
            entry_visited(g, a, frame, cur, lfn, ma).0,
            entry_visited(g, b, frame, cur, lfn, mb).0,
        ),
        entry_visited(g, b, frame, cur, lfn, mb).1 == entry_visited(
            g,
            a,
            frame,
            cur,
            lfn,
            ma,
        ).1,
        match entry_visited(g, a, frame, cur, lfn, ma).1 {
            Ok(Visit::Descend(c)) => g.valid_cluster(c),
            Ok(Visit::Next(rest)) => run_ok(rest, cur.pos),
            _ => true,
        },
{
    reveal(entry_visited);
    let first = dir_start(g, frame.cluster);
    lemma_entry_bounds(g, a.img.len(), cur);
    let e = entry_under(a.img, g, cur);
    assert(entry_under(b.img, g, cur) =~= e);
    match lfn.start {
        None => {
            if is_short(e) {
                lemma_alike_short(g, a, b, frame, cur, cur.pos, e, lfn, ma, mb);
            }
        },
        Some(start) => {
            lemma_alike_removed(
                g,
                a,
                b,
                first,
                start,
                entries_between(start, cur.pos as u64),
                ma,
                mb,
                RepairMode::long_names(),
            );
            let da = long_name_dropped(g, a, first, start, cur.pos, ma).0;
            let db = long_name_dropped(g, b, first, start, cur.pos, mb).0;
            if is_short(e) {
                if run_matches(lfn, short_name(e)) {
                    lemma_alike_short(g, a, b, frame, cur, start, e, lfn, ma, mb);
                } else if long_name_dropped(g, a, first, start, cur.pos, ma).1 is Ok {
                    lemma_alike_short(g, da, db, frame, cur, cur.pos, e, lfn, ma, mb);
                }
            }
        },
    }
}

proof fn lemma_alike_scanned(
    g: Geometry,
    a: Vol,
    b: Vol,
    frame: DirFrame,
    cur: Cursor,
    lfn: LfnRun,
    ma: RepairMode,
    mb: RepairMode,
)
    requires
        alike(g, a, b),
        partners(ma, mb),
        claims_ok(g, ma, a.img),
        no_cross(ma, a.stats, scanned_from(g, a, frame, cur, lfn, ma).0.stats),
        frame_ok(g, frame),
        cur.wf(g),
        run_ok(lfn, cur.pos),
    ensures
        claims_ok(g, ma, scanned_from(g, a, frame, cur, lfn, ma).0.img),
        alike(
            g,
            scanned_from(g, a, frame, cur, lfn, ma).0,
            scanned_from(g, b, frame, cur, lfn, mb).0,
        ),
        scanned_from(g, b, frame, cur, lfn, mb).1 == scanned_from(
            g,
            a,
            frame,
            cur,
            lfn,
            ma,
        ).1,
        scanned_from(g, a, frame, cur, lfn, ma).1 matches Ok(DirStep::Descend { cluster, resume })
            ==> g.valid_cluster(cluster) && resume % DIR_ENTRY_SIZE == 0,
    decreases u32::MAX - cur.pos,
{
    let (x, res) = entry_visited(g, a, frame, cur, lfn, ma);
    let y = entry_visited(g, b, frame, cur, lfn, mb).0;
    lemma_visit_counts(g, a, frame, cur, lfn, ma);
    if let Ok(Visit::Next(rest)) = res {
        if let Place::At(next) = place_after(x.img, g, cur) {
            lemma_scan_counts(g, x, frame, next, rest, ma);
        }
    }
    lemma_alike_visited(g, a, b, frame, cur, lfn, ma, mb);
    if let Ok(Visit::Next(rest)) = res {
        lemma_alike_place_after(g, x.img, y.img, cur);
        if let Place::At(next) = place_after(x.img, g, cur) {
            lemma_alike_scanned(g, x, y, frame, next, rest, ma, mb);
        }
        if place_after(x.img, g, cur) is End && rest.start is Some {
            let end = (cur.pos + DIR_ENTRY_SIZE) as u32;
            let start = rest.start->0;
            lemma_alike_removed(
                g,
                x,
                y,
                dir_start(g, frame.cluster),
                start,
                entries_between(start, end as u64),
                ma,
                mb,
                RepairMode::long_names(),
            );
        }
    }
}

proof fn lemma_alike_dir(g: Geometry, a: Vol, b: Vol, frame: DirFrame, ma: RepairMode,
    mb: RepairMode)
    requires
        alike(g, a, b),
        partners(ma, mb),
        claims_ok(g, ma, a.img),
        no_cross(ma, a.stats, dir_scanned(g, a, frame, ma).0.stats),
        frame_ok(g, frame),
    ensures
        claims_ok(g, ma, dir_scanned(g, a, frame, ma).0.img),
        alike(g, dir_scanned(g, a, frame, ma).0, dir_scanned(g, b, frame, mb).0),
        dir_scanned(g, b, frame, mb).1 == dir_scanned(g, a, frame, ma).1,
        dir_scanned(g, a, frame, ma).1 matches Ok(DirStep::Descend { cluster, resume })
            ==> g.valid_cluster(cluster) && resume % DIR_ENTRY_SIZE == 0,
{
    let first = dir_start(g, frame.cluster);
    lemma_alike_place_at(g, a.img, b.img, first, frame.resume);
    if let Place::At(cur) = place_at(a.img, g, first, frame.resume) {
        lemma_alike_scanned(g, a, b, frame, cur, no_run(), ma, mb);
    }
}

proof fn lemma_alike_tree(
    g: Geometry,
    a: Vol,
    b: Vol,
    frame: DirFrame,
    room: nat,
    ma: RepairMode,
    mb: RepairMode,
)
    requires
        alike(g, a, b),
        partners(ma, mb),
        claims_ok(g, ma, a.img),
        no_cross(ma, a.stats, tree_walked(g, a, frame, room, ma).0.stats),
        frame_ok(g, frame),
    ensures
        claims_ok(g, ma, tree_walked(g, a, frame, room, ma).0.img),
        alike(g, tree_walked(g, a, frame, room, ma).0, tree_walked(g, b, frame, room, mb).0),
        tree_walked(g, b, frame, room, mb).1 == tree_walked(g, a, frame, room, ma).1,
    decreases room, u32::MAX - frame.resume,
{
    let ea = dir_entered(a, frame);
    let eb = dir_entered(b, frame);
    let (x, res) = dir_scanned(g, ea, frame, ma);
    let y = dir_scanned(g, eb, frame, mb).0;
    lemma_dir_scanned_advances(g, ea, frame, ma);
    lemma_dir_counts(g, ea, frame, ma);
    if let Ok(DirStep::Descend { cluster, resume }) = res {
        let rest = DirFrame { resume, ..frame };
        if room == 0 {
            lemma_tree_counts(g, dir_skipped(x), rest, room, ma);
        } else {
            let child = DirFrame { cluster, parent: frame.cluster, resume: 0 };
            let p = tree_walked(g, x, child, (room - 1) as nat, ma).0;
            lemma_tree_counts(g, x, child, (room - 1) as nat, ma);
            lemma_tree_counts(g, p, rest, room, ma);
        }
    }
    lemma_alike_dir(g, ea, eb, frame, ma, mb);
    if let Ok(DirStep::Descend { cluster, resume }) = res {
        let rest = DirFrame { resume, ..frame };
        if room == 0 {
            lemma_alike_tree(g, dir_skipped(x), dir_skipped(y), rest, room, ma, mb);
        } else {
            let child = DirFrame { cluster, parent: frame.cluster, resume: 0 };
            lemma_alike_tree(g, x, y, child, (room - 1) as nat, ma, mb);
            let (p, done) = tree_walked(g, x, child, (room - 1) as nat, ma);
            let q = tree_walked(g, y, child, (room - 1) as nat, mb).0;
            if done is Ok {
                lemma_alike_tree(g, p, q, rest, room, ma, mb);
            }
        }
    }
}

/// Two walks of volumes that differ only in markers, one of which may mark but finds no cross link, go the same way and
/// report the same, and the volumes still differ only in markers.
pub proof fn lemma_alike_stack(
    g: Geometry,
    a: Vol,
    b: Vol,
    stack: Seq<DirFrame>,
    cap: nat,
    ma: RepairMode,
    mb: RepairMode,
)
    requires
        alike(g, a, b),
        partners(ma, mb),
        claims_ok(g, ma, a.img),
        no_cross(ma, a.stats, stack_walked(g, a, stack, cap, ma).0.stats),
        forall|i: int| 0 <= i < stack.len() ==> frame_ok(g, #[trigger] stack[i]),
    ensures
        alike(g, stack_walked(g, a, stack, cap, ma).0, stack_walked(g, b, stack, cap, mb).0),
        stack_walked(g, b, stack, cap, mb).1 == stack_walked(g, a, stack, cap, ma).1,
    decreases stack.len(),
{
    if stack.len() > 0 {
        let top = stack[stack.len() - 1];
        let room = (cap - stack.len()) as nat;
        assert(frame_ok(g, top));
        let (x, done) = tree_walked(g, a, top, room, ma);
        let y = tree_walked(g, b, top, room, mb).0;
        lemma_tree_counts(g, a, top, room, ma);
        if done is Ok {
            lemma_stack_counts(g, x, stack.drop_last(), cap, ma);
        }
        lemma_alike_tree(g, a, b, top, room, ma, mb);
        if done is Ok {
            let rest = stack.drop_last();
            assert forall|i: int| 0 <= i < rest.len() implies frame_ok(g, #[trigger] rest[i]) by {
                assert(rest[i] == stack[i]);
            }
            lemma_alike_stack(g, x, y, rest, cap, ma, mb);
        }
    }
}

/// A walk that does not mark takes no notice of markers: on two volumes that differ only in them it goes the same way
/// and reports the same, and the volumes still differ only in them.
pub proof fn law_walk_ignores_leftover_markers(
    g: Geometry,
    a: Vol,
    b: Vol,
    stack: Seq<DirFrame>,
    cap: nat,
    mode: RepairMode,
)
    requires
        g.wf(a.img.len()),
        same_values(g, a.img, b.img),
        a.stats == b.stats,
        !mode.marks(),
        forall|i: int| 0 <= i < stack.len() ==> frame_ok(g, #[trigger] stack[i]),
    ensures
        ({
            let (x, done) = stack_walked(g, a, stack, cap, mode);
            let (y, same) = stack_walked(g, b, stack, cap, mode);
            &&& same == done
            &&& y.stats == x.stats
            &&& same_values(g, x.img, y.img)
        }),
        g.wf(stack_walked(g, a, stack, cap, mode).0.img.len()),
{
    reveal(claims_ok);
    lemma_alike_stack(g, a, b, stack, cap, mode, mode);
    lemma_stack_counts(g, a, stack, cap, mode);
    lemma_stack_counts(g, b, stack, cap, mode);
}

} // verus!
