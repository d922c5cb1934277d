//! What the directory walk leaves as it is.

use vstd::prelude::*;

use crate::bytes::splice;
use crate::chain::{chain_from, chain_scanned, ends_chain, follow, lemma_marked, path_marked};
use crate::dir::{lemma_entry_bounds, link_of, nth_cluster, starts_directory, Cursor, Link};
use crate::fat::{
    copy_entry, entry_of, lemma_put_entry, marked, put_entry, raw_entry, slack_kept, with_value, FatEntry, FAT32_EOC,
    FAT32_VISITED_BIT,
};
use crate::geometry::{Geometry, DIR_ENTRY_SIZE, RESERVED_FAT_ENTRIES};
use crate::mode::RepairMode;
use crate::model::Vol;
use crate::passes::{signature_damaged, unmarked};
use crate::stats::RepairStats;
use crate::volume::reserved_kept;

verus! {

/// Whether a FAT entry belongs to an allocated cluster.
pub open spec fn allocated(raw: u32) -> bool {
    entry_of(raw) is Data || entry_of(raw) is EndOfChain
}

/// Whether `mode` allows chains to be cut: to repair them, or to keep apart what more than one of them claims.
pub open spec fn cuts_chains(mode: RepairMode) -> bool {
    mode.applies(RepairMode::chains()) || mode.marks()
}

/// What the walk may make of the FAT entry `x` of a cluster: a cut chain ends there, and a marker may be added. A
/// cluster neither becomes free nor stops being free.
pub open spec fn entry_kept(mode: RepairMode, x: u32, y: u32) -> bool {
    &&& entry_of(y) == entry_of(x) || (cuts_chains(mode) && allocated(x)
        && entry_of(y) is EndOfChain)
    &&& marked(x) ==> marked(y)
    &&& marked(y) ==> marked(x) || (mode.marks() && allocated(x))
}

/// Whether the copies of the FAT that are kept in step agree about every entry, reserved ones that are damaged aside.
pub open spec fn copies_agree(g: Geometry, img: Seq<u8>) -> bool {
    forall|k: int, c: u32|
        g.first_mirror <= k < g.first_mirror + g.mirrors && c < g.fat_entries()
            && !signature_damaged(img, g, c)
            ==> #[trigger] copy_entry(img, g, k, c) == raw_entry(img, g, c)
}

/// Whether `mode` allows any edit of a directory.
pub open spec fn edits_dirs(mode: RepairMode) -> bool {
    ||| mode.applies(RepairMode::chains())
    ||| mode.applies(RepairMode::entry_validity())
    ||| mode.applies(RepairMode::long_names())
}

/// Whether `a` and `b` hold the same behind the FAT.
pub open spec fn data_kept(g: Geometry, a: Seq<u8>, b: Seq<u8>) -> bool {
    forall|i: int| g.fats_end() <= i < a.len() ==> #[trigger] b[i] == a[i]
}

/// What the walk may make of the image `a`.
pub open spec fn img_kept(g: Geometry, mode: RepairMode, a: Seq<u8>, b: Seq<u8>) -> bool {
    &&& reserved_kept(g, a, b)
    &&& slack_kept(g, a, b)
    &&& forall|c: u32| c < RESERVED_FAT_ENTRIES ==> #[trigger] raw_entry(b, g, c) == raw_entry(a, g, c)
    &&& forall|c: u32|
        g.valid_cluster(c) ==> entry_kept(mode, raw_entry(a, g, c), #[trigger] raw_entry(b, g, c))
    &&& copies_agree(g, a) ==> copies_agree(g, b)
    &&& !mode.writes() ==> b == a
    &&& !edits_dirs(mode) ==> data_kept(g, a, b)
}

/// Which counters the walk leaves alone, and which it only counts up.
pub open spec fn stats_kept(a: RepairStats, b: RepairStats) -> bool {
    &&& b.modes_applied == a.modes_applied
    &&& b.reserved_entries_restored == a.reserved_entries_restored
    &&& b.mirror_entries_synced == a.mirror_entries_synced
    &&& b.fsinfo_corrected == a.fsinfo_corrected
    &&& b.orphans_freed == a.orphans_freed
    &&& b.clusters_freed == a.clusters_freed
    &&& a.dirs_skipped <= b.dirs_skipped
    &&& a.chains_truncated <= b.chains_truncated
    &&& a.sizes_corrected <= b.sizes_corrected
    &&& a.entries_removed <= b.entries_removed
    &&& a.entries_recovered <= b.entries_recovered
    &&& a.dot_entries_fixed <= b.dot_entries_fixed
}

/// Whether the walk counted no damage between `a` and `b`. A counter at its largest value says nothing.
pub open spec fn quiet(a: RepairStats, b: RepairStats) -> bool {
    &&& b.chains_truncated == a.chains_truncated < u32::MAX
    &&& b.sizes_corrected == a.sizes_corrected < u32::MAX
    &&& b.entries_removed == a.entries_removed < u32::MAX
    &&& b.entries_recovered == a.entries_recovered < u32::MAX
    &&& b.dot_entries_fixed == a.dot_entries_fixed < u32::MAX
}

/// Whether `b` is `a` but for markers.
pub open spec fn only_markers_added(g: Geometry, mode: RepairMode, a: Seq<u8>, b: Seq<u8>) -> bool {
    &&& data_kept(g, a, b)
    &&& forall|c: u32|
        g.valid_cluster(c) ==> unmarked(#[trigger] raw_entry(b, g, c)) == unmarked(raw_entry(a, g, c))
    &&& !mode.marks() ==> b == a
}

/// What the walk may make of the state `a`.
pub open spec fn kept(g: Geometry, mode: RepairMode, a: Vol, b: Vol) -> bool {
    &&& img_kept(g, mode, a.img, b.img)
    &&& stats_kept(a.stats, b.stats)
    &&& quiet(a.stats, b.stats) ==> only_markers_added(g, mode, a.img, b.img)
}

/// Where a directory starts: the root, or a cluster that begins with `.` and `..`.
pub open spec fn dir_root(g: Geometry, origin: Seq<u8>, first: u32) -> bool {
    g.valid_cluster(first) && (first == g.root_dir_first_cluster || starts_directory(origin, g, first))
}

/// Whether cluster `c` is the `k`-th one of the directory that starts at `first`.
pub open spec fn in_dir(g: Geometry, origin: Seq<u8>, first: u32, k: nat, c: u32) -> bool {
    dir_root(g, origin, first) && nth_cluster(origin, g, first, k) == Link::To(c)
}

/// Whether cluster `c` belongs to a directory.
pub open spec fn in_dirs(g: Geometry, origin: Seq<u8>, c: u32) -> bool {
    exists|first: u32, k: nat| in_dir(g, origin, first, k, c)
}

/// Whether cluster `c` holds the same in `a` and `b`.
pub open spec fn cluster_kept(g: Geometry, a: Seq<u8>, b: Seq<u8>, c: u32) -> bool {
    forall|i: int|
        g.cluster_start(c as int) <= i < g.cluster_start(c as int) + g.cluster_size ==> #[trigger] b[i]
            == a[i]
}

/// Whether what is neither part of a FAT nor of a cluster, from the FAT on, is the same in `a` and `b`.
pub open spec fn rest_kept(g: Geometry, a: Seq<u8>, b: Seq<u8>) -> bool {
    &&& forall|i: int| g.fats_end() <= i < g.data_start ==> #[trigger] b[i] == a[i]
    &&& forall|i: int| g.data_end() <= i < a.len() ==> #[trigger] b[i] == a[i]
}

/// `img` differs from `origin`, behind the FAT, only in clusters that belong to directories, and its chains only by
/// where they are cut.
pub open spec fn contained(g: Geometry, origin: Seq<u8>, img: Seq<u8>) -> bool {
    &&& img.len() == origin.len()
    &&& rest_kept(g, origin, img)
    &&& forall|c: u32|
        #![trigger cluster_kept(g, origin, img, c)]
        g.valid_cluster(c) && !in_dirs(g, origin, c) ==> cluster_kept(g, origin, img, c)
    &&& forall|c: u32|
        g.valid_cluster(c) ==> #[trigger] link_of(img, g, c) == link_of(origin, g, c) || link_of(
            img,
            g,
            c,
        ) is End
}

/// A state is kept by itself.
pub proof fn lemma_kept_self(g: Geometry, mode: RepairMode, a: Vol)
    ensures
        kept(g, mode, a, a),
{
}

/// What is kept from `a` to `b` and from `b` to `c` is kept from `a` to `c`.
pub proof fn lemma_kept_trans(g: Geometry, mode: RepairMode, a: Vol, b: Vol, c: Vol)
    requires
        kept(g, mode, a, b),
        kept(g, mode, b, c),
    ensures
        kept(g, mode, a, c),
{
}

/// Images that agree in front of the data have the same FAT.
pub proof fn lemma_same_fat(g: Geometry, a: Seq<u8>, b: Seq<u8>)
    requires
        g.wf(a.len()),
        a.len() == b.len(),
        forall|i: int| 0 <= i < g.data_start ==> #[trigger] b[i] == a[i],
    ensures
        forall|k: int, c: u32|
            0 <= k < g.fats && c < g.fat_entries() ==> #[trigger] copy_entry(b, g, k, c)
                == copy_entry(a, g, k, c),
        forall|c: u32|
            c < g.fat_entries() ==> #[trigger] raw_entry(b, g, c) == raw_entry(a, g, c),
        copies_agree(g, a) == copies_agree(g, b),
{
    assert forall|k: int, c: u32| 0 <= k < g.fats && c < g.fat_entries() implies #[trigger] copy_entry(
        b,
        g,
        k,
        c,
    ) == copy_entry(a, g, k, c) by {
        g.lemma_copy_bounds(a.len(), k);
        let at = g.entry_start(k, c as int);
        assert(b[at] == a[at] && b[at + 1] == a[at + 1] && b[at + 2] == a[at + 2] && b[at + 3]
            == a[at + 3]);
    }
    assert forall|c: u32| c < g.fat_entries() implies #[trigger] raw_entry(b, g, c) == raw_entry(
        a,
        g,
        c,
    ) by {
        assert(copy_entry(b, g, g.first_mirror as int, c) == copy_entry(
            a,
            g,
            g.first_mirror as int,
            c,
        ));
    }
    if copies_agree(g, a) {
        assert forall|k: int, c: u32|
            g.first_mirror <= k < g.first_mirror + g.mirrors && c < g.fat_entries()
                && !signature_damaged(b, g, c) implies #[trigger] copy_entry(b, g, k, c) == raw_entry(
            b,
            g,
            c,
            ) by {
            assert(copy_entry(a, g, k, c) == raw_entry(a, g, c));
        }
    }
    if copies_agree(g, b) {
        assert forall|k: int, c: u32|
            g.first_mirror <= k < g.first_mirror + g.mirrors && c < g.fat_entries()
                && !signature_damaged(a, g, c) implies #[trigger] copy_entry(a, g, k, c) == raw_entry(
            a,
            g,
            c,
            ) by {
            assert(copy_entry(b, g, k, c) == raw_entry(b, g, c));
        }
    }
}

/// Editing an entry of a directory keeps what the walk has to keep.
pub proof fn lemma_edit_kept(
    g: Geometry,
    mode: RepairMode,
    origin: Seq<u8>,
    img: Seq<u8>,
    cur: Cursor,
    off: int,
    data: Seq<u8>,
)
    requires
        g.wf(img.len()),
        mode.writes(),
        edits_dirs(mode),
        contained(g, origin, img),
        cur.wf(g),
        in_dirs(g, origin, cur.cluster),
        0 <= off,
        off + data.len() <= DIR_ENTRY_SIZE,
    ensures
        img_kept(g, mode, img, splice(img, cur.offset(g) + off, data)),
        contained(g, origin, splice(img, cur.offset(g) + off, data)),
{
    let new = splice(img, cur.offset(g) + off, data);
    lemma_entry_bounds(g, img.len(), cur);
    g.lemma_copy_bounds(img.len(), 0);
    g.lemma_clusters_disjoint(img.len(), cur.cluster as int, g.fat_entries());
    lemma_same_fat(g, img, new);
    assert forall|c: u32|
        #![trigger cluster_kept(g, origin, new, c)]
        g.valid_cluster(c) && !in_dirs(g, origin, c) implies cluster_kept(g, origin, new, c) by {
        assert(c != cur.cluster);
        assert(cluster_kept(g, origin, img, c));
        if c < cur.cluster {
            g.lemma_clusters_disjoint(img.len(), c as int, cur.cluster as int);
        } else {
            g.lemma_clusters_disjoint(img.len(), cur.cluster as int, c as int);
        }
        g.lemma_cluster_bounds(img.len(), c as int);
        assert forall|i: int|
            g.cluster_start(c as int) <= i < g.cluster_start(c as int)
                + g.cluster_size implies #[trigger] new[i] == origin[i] by {
            assert(img[i] == origin[i]);
        }
    }
    assert forall|c: u32| g.valid_cluster(c) implies #[trigger] link_of(new, g, c) == link_of(
        origin,
        g,
        c,
    ) || link_of(new, g, c) is End by {
        assert(raw_entry(new, g, c) == raw_entry(img, g, c));
        assert(link_of(img, g, c) == link_of(origin, g, c) || link_of(img, g, c) is End);
    }
}

/// Replacing the FAT entry of a cluster by one that is kept, in every copy that is kept in step.
pub proof fn lemma_put_kept(
    g: Geometry,
    mode: RepairMode,
    origin: Seq<u8>,
    img: Seq<u8>,
    c: u32,
    raw: u32,
)
    requires
        g.wf(img.len()),
        mode.writes(),
        contained(g, origin, img),
        g.valid_cluster(c),
        entry_kept(mode, raw_entry(img, g, c), raw),
    ensures
        img_kept(g, mode, img, put_entry(img, g, c, raw)),
        data_kept(g, img, put_entry(img, g, c, raw)),
        contained(g, origin, put_entry(img, g, c, raw)),
{
    let new = put_entry(img, g, c, raw);
    lemma_put_entry(img, g, c, raw);
    assert forall|b: u32| g.valid_cluster(b) implies entry_kept(
        mode,
        raw_entry(img, g, b),
        #[trigger] raw_entry(new, g, b),
    ) by {
        assert(b == c || raw_entry(new, g, b) == raw_entry(img, g, b));
    }
    if copies_agree(g, img) {
        assert forall|k: int, b: u32|
            g.first_mirror <= k < g.first_mirror + g.mirrors && b < g.fat_entries()
                && !signature_damaged(new, g, b) implies #[trigger] copy_entry(new, g, k, b) == raw_entry(
            new,
            g,
            b,
            ) by {
            assert(copy_entry(img, g, k, b) == raw_entry(img, g, b));
        }
    }
    assert forall|b: u32|
        #![trigger cluster_kept(g, origin, new, b)]
        g.valid_cluster(b) && !in_dirs(g, origin, b) implies cluster_kept(g, origin, new, b) by {
        assert(cluster_kept(g, origin, img, b));
        g.lemma_cluster_bounds(img.len(), b as int);
        assert forall|i: int|
            g.cluster_start(b as int) <= i < g.cluster_start(b as int)
                + g.cluster_size implies #[trigger] new[i] == origin[i] by {
            assert(img[i] == origin[i]);
        }
    }
    assert forall|b: u32| g.valid_cluster(b) implies #[trigger] link_of(new, g, b) == link_of(
        origin,
        g,
        b,
    ) || link_of(new, g, b) is End by {
        assert(link_of(img, g, b) == link_of(origin, g, b) || link_of(img, g, b) is End);
        assert(b == c || raw_entry(new, g, b) == raw_entry(img, g, b));
    }
}

/// The entry that ends a chain.
pub proof fn lemma_ended(raw: u32)
    ensures
        entry_of(with_value(raw, FAT32_EOC)) is EndOfChain,
        marked(with_value(raw, FAT32_EOC)) == marked(raw),
{
    assert(((0x0FFF_FFFFu32 & 0x0FFF_FFFFu32) | (raw & !0x0FFF_FFFFu32)) & 0x0FFF_FFFFu32
        == 0x0FFF_FFFFu32) by (bit_vector);
    assert(((0x0FFF_FFFFu32 & 0x0FFF_FFFFu32) | (raw & !0x0FFF_FFFFu32)) & 0x1000_0000u32 == raw
        & 0x1000_0000u32) by (bit_vector);
}

/// A marker does not show once it is taken off.
pub proof fn lemma_unmarked_marked(raw: u32)
    ensures
        unmarked(raw | FAT32_VISITED_BIT) == unmarked(raw),
{
    assert((raw | 0x1000_0000u32) & !0x1000_0000u32 == raw & !0x1000_0000u32) by (bit_vector);
}

/// The clusters of a chain are clusters of the volume, and allocated.
pub open spec fn path_sound(img: Seq<u8>, g: Geometry, path: Seq<u32>) -> bool {
    forall|i: int|
        0 <= i < path.len() ==> g.valid_cluster(#[trigger] path[i]) && allocated(
            raw_entry(img, g, path[i]),
        )
}

/// The clusters of a chain are clusters of the volume, and allocated.
pub proof fn lemma_follow_sound(
    img: Seq<u8>,
    g: Geometry,
    c: u32,
    taken: Seq<u32>,
    limit: Option<u32>,
    marking: bool,
)
    requires
        g.valid_cluster(c),
        path_sound(img, g, taken),
    ensures
        path_sound(img, g, follow(img, g, c, taken, limit, marking).path),
    decreases g.total_clusters - taken.len(),
{
    let raw = raw_entry(img, g, c);
    let path = taken.push(c);
    if allocated(raw) {
        assert(path_sound(img, g, path)) by {
            assert forall|i: int| 0 <= i < path.len() implies g.valid_cluster(#[trigger] path[i])
                && allocated(raw_entry(img, g, path[i])) by {
                if i < taken.len() {
                    assert(path[i] == taken[i]);
                }
            }
        }
        if path.len() < g.total_clusters {
            if let FatEntry::Data(next) = entry_of(raw) {
                if g.valid_cluster(next) {
                    lemma_follow_sound(img, g, next, path, limit, marking);
                }
            }
        }
    }
}

/// Marking a chain keeps what the walk has to keep.
pub proof fn lemma_path_kept(
    g: Geometry,
    mode: RepairMode,
    origin: Seq<u8>,
    img: Seq<u8>,
    path: Seq<u32>,
)
    requires
        g.wf(img.len()),
        mode.marks(),
        contained(g, origin, img),
        path_sound(img, g, path),
    ensures
        img_kept(g, mode, img, path_marked(img, g, path)),
        only_markers_added(g, mode, img, path_marked(img, g, path)),
        contained(g, origin, path_marked(img, g, path)),
        forall|c: u32|
            g.valid_cluster(c) ==> entry_of(#[trigger] raw_entry(path_marked(img, g, path), g, c))
                == entry_of(raw_entry(img, g, c)),
    decreases path.len(),
{
    if path.len() > 0 {
        let front = path.drop_last();
        let c = path.last();
        let raw = raw_entry(img, g, c);
        assert(path_sound(img, g, front)) by {
            assert forall|i: int| 0 <= i < front.len() implies g.valid_cluster(#[trigger] front[i])
                && allocated(raw_entry(img, g, front[i])) by {
                assert(front[i] == path[i]);
            }
        }
        assert(g.valid_cluster(path[path.len() - 1]));
        lemma_path_kept(g, mode, origin, img, front);
        let before = path_marked(img, g, front);
        let old_raw = raw_entry(before, g, c);
        lemma_marked(raw);
        lemma_unmarked_marked(raw);
        assert(entry_kept(mode, old_raw, raw | FAT32_VISITED_BIT));
        lemma_put_kept(g, mode, origin, before, c, raw | FAT32_VISITED_BIT);
        lemma_put_entry(before, g, c, raw | FAT32_VISITED_BIT);
        let after = path_marked(img, g, path);
        assert forall|b: u32| g.valid_cluster(b) implies unmarked(#[trigger] raw_entry(after, g, b))
            == unmarked(raw_entry(img, g, b)) && entry_of(raw_entry(after, g, b)) == entry_of(
            raw_entry(img, g, b),
        ) by {
            assert(b == c || raw_entry(after, g, b) == raw_entry(before, g, b));
        }
    }
}

/// Scanning a chain keeps what the walk has to keep.
pub proof fn lemma_chain_kept(
    g: Geometry,
    mode: RepairMode,
    origin: Seq<u8>,
    v: Vol,
    start: u32,
    limit: Option<u32>,
)
    requires
        g.wf(v.img.len()),
        contained(g, origin, v.img),
    ensures
        kept(g, mode, v, chain_scanned(g, v, start, limit, mode)),
        contained(g, origin, chain_scanned(g, v, start, limit, mode).img),
{
    if g.valid_cluster(start) {
        let img = v.img;
        let walk = chain_from(img, g, start, limit, mode.marks());
        lemma_follow_sound(img, g, start, Seq::empty(), limit, mode.marks());
        let reached = if mode.marks() {
            path_marked(img, g, walk.path)
        } else {
            img
        };
        if mode.marks() {
            lemma_path_kept(g, mode, origin, img, walk.path);
        }
        let b = chain_scanned(g, v, start, limit, mode);
        if ends_chain(walk, mode) && walk.path.len() > 0 {
            let last = walk.path[walk.path.len() - 1];
            assert(g.valid_cluster(last) && allocated(raw_entry(img, g, last)));
            let raw = raw_entry(reached, g, last);
            lemma_ended(raw);
            if with_value(raw, FAT32_EOC) != raw {
                lemma_put_kept(g, mode, origin, reached, last, with_value(raw, FAT32_EOC));
            }
            let mid = Vol { img: reached, stats: v.stats };
            assert(img_kept(g, mode, img, reached));
            assert(img_kept(g, mode, reached, b.img));
            assert(img_kept(g, mode, img, b.img));
        }
    }
}

} // verus!
