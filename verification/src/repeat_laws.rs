//! What holds of a repair of a volume that was repaired before.

use vstd::prelude::*;

use crate::advance::{lemma_path_kept, lemma_tree_advances};
use crate::again::{lemma_chain_again, no_end, replays, silent, values_kept};
use crate::chain::{chain_from, chain_scanned, lemma_chain_bounds};
use crate::chain_laws::lemma_follow_same;
use crate::counts::lemma_tree_counts;
use crate::dir::starts_directory;
use crate::fat::{
    entry_of, lemma_zero_entry, marked, only_fat_changed, raw_entry, FatEntry, FAT32_CLEAN_BIT, FAT32_STATUS_BITS,
    FAT32_VALUE_MASK,
};
use crate::fatcache::{fat_on_disk, window_on_disk};
use crate::fs::{boot_flag_cleared, FsState};
use crate::geometry::{Geometry, MAX_CLUSTERS, RESERVED_FAT_ENTRIES};
use crate::kept::{allocated, cluster_kept, copies_agree, data_kept};
use crate::laws::{
    before, info_in_step, law_every_change_is_reported, law_free_count, law_mirrors_agree, law_no_markers_left,
    lemma_before, lemma_phases, lemma_same_counts, nothing_found, opening, ready, settled,
};
use crate::mode::RepairMode;
use crate::model::Vol;
use crate::owned::{lemma_chain_claimed, none_marked, owned, whole_chain};
use crate::pass_laws::law_restoring_reserved_entries;
use crate::passes::{
    count_diverging, count_where, entry_0_damaged, entry_1_damaged, is_free, is_orphan, lemma_mirrors_synced,
    lemma_rewrite_entries, lemma_unmarked, markers_cleared, swept, unmarked,
};
use crate::phases::{
    entry_walked, lemma_fat_prepared, lemma_restored, lemma_rewrite_copies, lemma_unmarked_twice, lemma_walk_kept,
    prepared,
};
use crate::repair::{
    fat_checked, markers_prepared, may_reclaim, repaired, signatures_checked, tree_checked, tree_swept, wrapped_up,
};
use crate::scratch::DirFrame;
use crate::stats::RepairStats;
use crate::twice::{later, lemma_tree_again};
use crate::visits::{fit_name, lemma_start_kept, same_slots, thorough};
use crate::walk::{root_frame, stack_walked, tree_walked};

verus! {

/// The chain of the root directory of a volume, leftover markers aside.
pub open spec fn root_chain(g: Geometry, img: Seq<u8>) -> Seq<u32> {
    chain_from(markers_cleared(img, g), g, g.root_dir_first_cluster, None, true).path
}

/// With nothing on the stack, the walk is that of the root.
pub proof fn lemma_only_root(g: Geometry, v: Vol, mode: RepairMode, room: nat)
    ensures
        ({
            let (after, res) = tree_checked(g, v, mode, room);
            let claimed = fat_checked(g, v, mode);
            let (walked, done) = tree_walked(g, claimed, root_frame(), (room - 1) as nat, mode);
            after == walked && res is Ok == done is Ok
        }),
{
    reveal_with_fuel(stack_walked, 3);
    let stack = seq![root_frame()];
    assert(stack.len() == 1);
    assert(stack.last() == root_frame());
    assert(stack.drop_last() =~= Seq::<DirFrame>::empty());
}

/// The root directory is claimed along its chain.
pub proof fn lemma_root_claimed(g: Geometry, v: Vol, mode: RepairMode)
    requires
        g.wf(v.img.len()),
        thorough(mode),
        root_chain(g, v.img).len() > 0,
    ensures
        ({
            let claimed = fat_checked(g, v, mode);
            let path = root_chain(g, v.img);
            &&& claimed.img.len() == v.img.len()
            &&& owned(g, claimed.img, path)
            &&& path[0] == g.root_dir_first_cluster
            &&& forall|c: u32|
                g.valid_cluster(c) ==> marked(#[trigger] raw_entry(claimed.img, g, c))
                    == path.contains(c)
        }),
{
    let pre = prepared(g, v, mode);
    let cleared = markers_cleared(v.img, g);
    let root = g.root_dir_first_cluster;
    lemma_fat_prepared(g, mode, v);
    lemma_rewrite_entries(v.img, g, |raw: u32| unmarked(raw), g.fat_entries());
    assert forall|c: u32| g.valid_cluster(c) implies raw_entry(cleared, g, c) == unmarked(
        raw_entry(v.img, g, c),
    ) && (#[trigger] raw_entry(pre.img, g, c)) == unmarked(raw_entry(v.img, g, c)) && !marked(
        raw_entry(pre.img, g, c),
    ) by {
        lemma_unmarked(raw_entry(v.img, g, c));
    }
    lemma_follow_same(cleared, pre.img, g, root, Seq::empty(), None, true);
    lemma_chain_claimed(g, mode, pre, root, None);
}

/// What the end of a run leaves in the cache: at most what is on the device.
proof fn lemma_cache_left(g: Geometry, s: FsState, stats: RepairStats, mode: RepairMode)
    requires
        g.wf(s.img.len()),
        mode.writes(),
        s.cache.window is None,
        !s.cache.dirty,
        s.cache.buf.len() == 512,
    ensures
        ({
            let t = wrapped_up(g, s, stats, mode);
            &&& t.cache.buf.len() == 512
            &&& !t.cache.dirty
            &&& t.cache.window matches Some(w) ==> w == 0
        }),
{
    g.lemma_copy_bounds(s.img.len(), g.first_mirror as int);
    assert(512 <= g.fat_size);
    assert(fat_on_disk(boot_flag_cleared(s.img), g).len() == g.fat_size);
    assert(window_on_disk(boot_flag_cleared(s.img), g, 0).len() == 512);
}

/// What a repair leaves is ready for the next one.
pub proof fn lemma_ready_again(
    g: Geometry,
    s: FsState,
    mode: RepairMode,
    room: nat,
)
    requires
        ready(g, s),
        mode.writes(),
        repaired(g, s, mode, room).1 is Ok,
    ensures
        ready(g, repaired(g, s, mode, room).0),
        !repaired(g, s, mode, room).0.cache.dirty,
{
    lemma_before(g, s);
    lemma_phases(g, s, mode, room);
    let t = repaired(g, s, mode, room).0;
    let (mid, stats) = settled(g, s, mode, room);
    lemma_cache_left(g, mid, stats, mode);
    assert(t == wrapped_up(g, mid, stats, mode));
    assert(512 <= g.fat_size);
}

/// Nothing is counted where nothing is there to count.
proof fn lemma_nothing_to_count(img: Seq<u8>, g: Geometry, p: spec_fn(u32) -> bool, n: int)
    requires
        g.total_clusters <= MAX_CLUSTERS,
        n <= g.fat_entries(),
        forall|c: u32| g.valid_cluster(c) ==> !p(#[trigger] raw_entry(img, g, c)),
    ensures
        count_where(img, g, p, n) == 0,
    decreases n,
{
    if n > RESERVED_FAT_ENTRIES {
        lemma_nothing_to_count(img, g, p, n - 1);
        assert(g.valid_cluster((n - 1) as u32));
    }
}

/// The FAT that the second run works on, next to the one that the first walk left behind.
proof fn lemma_second_fat(g: Geometry, s: FsState, mode: RepairMode, room: nat)
    requires
        ready(g, s),
        thorough(mode),
        repaired(g, s, mode, room).1 is Ok,
    ensures
        ({
            let t = repaired(g, s, mode, room).0;
            let f = tree_checked(g, opening(g, s, mode), mode, room).0;
            let pre = prepared(g, opening(g, t, mode), mode);
            &&& opening(g, t, mode).img == t.img
            &&& t.img.len() == s.img.len()
            &&& f.img.len() == s.img.len()
            &&& pre.img.len() == s.img.len()
            &&& data_kept(g, f.img, pre.img)
            &&& forall|c: u32|
                g.valid_cluster(c) ==> #[trigger] raw_entry(pre.img, g, c) == unmarked(
                    raw_entry(t.img, g, c),
                )
            &&& forall|c: u32|
                g.valid_cluster(c) ==> !marked(#[trigger] raw_entry(pre.img, g, c)) && (marked(
                    raw_entry(f.img, g, c),
                ) ==> entry_of(raw_entry(pre.img, g, c)) == entry_of(raw_entry(f.img, g, c))) && (
                !allocated(raw_entry(f.img, g, c)) ==> !allocated(raw_entry(pre.img, g, c)))
        }),
{
    let t = repaired(g, s, mode, room).0;
    let v2 = opening(g, t, mode);
    let f = tree_checked(g, opening(g, s, mode), mode, room).0;
    let mid = settled(g, s, mode, room).0;
    let pre = prepared(g, v2, mode);
    lemma_before(g, s);
    lemma_phases(g, s, mode, room);
    lemma_ready_again(g, s, mode, room);
    lemma_before(g, t);
    lemma_fat_prepared(g, mode, v2);
    assert forall|c: u32| g.valid_cluster(c) implies !marked(#[trigger] raw_entry(pre.img, g, c))
        && (marked(raw_entry(f.img, g, c)) ==> entry_of(raw_entry(pre.img, g, c)) == entry_of(
        raw_entry(f.img, g, c),
    )) && (!allocated(raw_entry(f.img, g, c)) ==> !allocated(raw_entry(pre.img, g, c))) by {
        lemma_unmarked(raw_entry(t.img, g, c));
        lemma_unmarked(raw_entry(f.img, g, c));
        assert(raw_entry(t.img, g, c) == raw_entry(mid.img, g, c));
        assert(raw_entry(mid.img, g, c) == swept(raw_entry(f.img, g, c), may_reclaim(f.stats)));
    }
    assert(data_kept(g, f.img, pre.img)) by {
        assert(data_kept(g, mid.img, t.img));
        assert(only_fat_changed(g, f.img, mid.img));
    }
}

/// The second run claims the root directory along the same chain, and starts its walk where the first one did.
proof fn lemma_root_again(
    g: Geometry,
    mode: RepairMode,
    claimed: Vol,
    f: Seq<u8>,
    pre: Vol,
    path: Seq<u32>,
)
    requires
        g.wf(f.len()),
        mode.marks(),
        claimed.img.len() == f.len(),
        pre.img.len() == f.len(),
        owned(g, claimed.img, path),
        path.len() <= g.total_clusters,
        forall|c: u32|
            g.valid_cluster(c) ==> marked(#[trigger] raw_entry(claimed.img, g, c)) == path.contains(c),
        forall|c: u32|
            g.valid_cluster(c) && marked(raw_entry(claimed.img, g, c)) ==> #[trigger] raw_entry(f, g, c)
                == raw_entry(claimed.img, g, c),
        data_kept(g, f, pre.img),
        forall|c: u32|
            g.valid_cluster(c) ==> !marked(#[trigger] raw_entry(pre.img, g, c)) && (marked(
                raw_entry(f, g, c),
            ) ==> entry_of(raw_entry(pre.img, g, c)) == entry_of(raw_entry(f, g, c))) && (
            !allocated(raw_entry(f, g, c)) ==> !allocated(raw_entry(pre.img, g, c))),
        pre.stats.dirs_skipped == claimed.stats.dirs_skipped,
        pre.stats.entries_removed == 0,
        pre.stats.entries_recovered == 0,
    ensures
        ({
            let again = chain_scanned(g, pre, path[0], None, mode);
            &&& replays(g, claimed, f, again)
            &&& same_slots(g, f, again.img, path, 0, no_end())
            &&& values_kept(g, pre.img, again.img)
            &&& again.stats == pre.stats
            &&& chain_from(pre.img, g, path[0], None, true).path == path
        }),
{
    assert forall|i: int| 0 <= i < path.len() implies entry_of(raw_entry(pre.img, g, path[i]))
        == entry_of(raw_entry(claimed.img, g, #[trigger] path[i])) && !marked(
        raw_entry(pre.img, g, path[i]),
    ) by {
        assert(g.valid_cluster(path[i]));
        assert(marked(raw_entry(claimed.img, g, path[i])));
        assert(raw_entry(f, g, path[i]) == raw_entry(claimed.img, g, path[i]));
    }
    assert(whole_chain(g, pre.img, path)) by {
        assert forall|i: int| 0 <= i < path.len() - 1 implies entry_of(
            raw_entry(pre.img, g, #[trigger] path[i]),
        ) == FatEntry::Data(path[i + 1]) by {
            assert(entry_of(raw_entry(pre.img, g, path[i])) == entry_of(
                raw_entry(claimed.img, g, path[i]),
            ));
        }
        let last = path[path.len() - 1];
        assert(last == path.last());
        assert(entry_of(raw_entry(pre.img, g, last)) == entry_of(raw_entry(claimed.img, g, last)));
    }
    assert(none_marked(g, pre.img, path));
    lemma_chain_again(g, mode, pre, path, None);
    let again = chain_scanned(g, pre, path[0], None, mode);
    assert forall|c: u32| g.valid_cluster(c) implies marked(#[trigger] raw_entry(again.img, g, c))
        == marked(raw_entry(claimed.img, g, c)) by {
        assert(!marked(raw_entry(pre.img, g, c)));
    }
    assert forall|c: u32| g.valid_cluster(c) && marked(raw_entry(f, g, c)) implies entry_of(
        #[trigger] raw_entry(again.img, g, c),
    ) == entry_of(raw_entry(f, g, c)) by {
        assert(entry_of(raw_entry(pre.img, g, c)) == entry_of(raw_entry(f, g, c)));
        assert(unmarked(raw_entry(again.img, g, c)) == unmarked(raw_entry(pre.img, g, c)));
        lemma_unmarked(raw_entry(pre.img, g, c));
        lemma_unmarked(raw_entry(again.img, g, c));
    }
    assert forall|c: u32| g.valid_cluster(c) implies #[trigger] cluster_kept(g, f, again.img, c) by {
        g.lemma_cluster_bounds(f.len(), c as int);
    }
    assert forall|i: int| 0 <= i < path.len() implies g.valid_cluster(#[trigger] path[i])
        && cluster_kept(g, f, again.img, path[i]) by {
        assert(g.valid_cluster(path[i]));
    }
    lemma_path_kept(g, f, again.img, path, 0, no_end());
    assert forall|c: u32| g.valid_cluster(c) && #[trigger] starts_directory(
        again.img,
        g,
        c,
    ) implies starts_directory(f, g, c) by {
        assert(cluster_kept(g, f, again.img, c));
        lemma_start_kept(g, f, again.img, c);
    }
    assert forall|c: u32| g.valid_cluster(c) && !allocated(raw_entry(f, g, c)) implies !allocated(
        #[trigger] raw_entry(again.img, g, c),
    ) by {
        assert(!allocated(raw_entry(pre.img, g, c)));
        assert(unmarked(raw_entry(again.img, g, c)) == unmarked(raw_entry(pre.img, g, c)));
        lemma_unmarked(raw_entry(pre.img, g, c));
        lemma_unmarked(raw_entry(again.img, g, c));
    }
}

/// Where the second walk starts, next to where the first one started.
proof fn lemma_second_start(g: Geometry, s: FsState, mode: RepairMode, room: nat)
    requires
        ready(g, s),
        thorough(mode),
        repaired(g, s, mode, room).1 is Ok,
        ({
            let v = opening(g, s, mode);
            let (f, res) = tree_checked(g, v, mode, room);
            &&& fit_name(g.volume_label@) || f.stats.entries_recovered == 0
            &&& root_chain(g, v.img).len() > 0
        }),
    ensures
        ({
            let t = repaired(g, s, mode, room).0;
            let v = opening(g, s, mode);
            let f = tree_checked(g, v, mode, room).0;
            let claimed = fat_checked(g, v, mode);
            let again = fat_checked(g, opening(g, t, mode), mode);
            &&& replays(g, claimed, f.img, again)
            &&& same_slots(g, f.img, again.img, root_chain(g, v.img), 0, no_end())
            &&& values_kept(g, t.img, again.img)
            &&& silent(opening(g, t, mode).stats, again.stats)
            &&& root_chain(g, t.img) == root_chain(g, v.img)
            &&& forall|c: u32|
                g.valid_cluster(c) && marked(raw_entry(claimed.img, g, c)) ==> #[trigger] raw_entry(
                    f.img,
                    g,
                    c,
                ) == raw_entry(claimed.img, g, c)
        }),
{
    let t = repaired(g, s, mode, room).0;
    let v = opening(g, s, mode);
    let v2 = opening(g, t, mode);
    let f = tree_checked(g, v, mode, room).0;
    let claimed = fat_checked(g, v, mode);
    let path = root_chain(g, v.img);
    let depth = (room - 1) as nat;
    lemma_before(g, s);
    lemma_second_fat(g, s, mode, room);
    lemma_only_root(g, v, mode, room);
    lemma_root_claimed(g, v, mode);
    lemma_chain_bounds(markers_cleared(v.img, g), g, g.root_dir_first_cluster, None, true);
    lemma_tree_counts(g, claimed, root_frame(), depth, mode);
    lemma_tree_advances(g, mode, claimed, path, root_frame(), depth);
    let pre = prepared(g, v2, mode);
    let again = fat_checked(g, v2, mode);
    lemma_root_again(g, mode, claimed, f.img, pre, path);
    assert(again == chain_scanned(g, pre, path[0], None, mode));
    // The chain of the root.
    let cleared = markers_cleared(t.img, g);
    lemma_rewrite_entries(t.img, g, |raw: u32| unmarked(raw), g.fat_entries());
    assert forall|c: u32| g.valid_cluster(c) implies #[trigger] raw_entry(cleared, g, c)
        == raw_entry(pre.img, g, c) by {}
    lemma_follow_same(pre.img, cleared, g, path[0], Seq::empty(), None, true);
    assert forall|c: u32| g.valid_cluster(c) implies unmarked(#[trigger] raw_entry(again.img, g, c))
        == unmarked(raw_entry(t.img, g, c)) by {
        lemma_unmarked_twice(raw_entry(t.img, g, c));
        assert(raw_entry(pre.img, g, c) == unmarked(raw_entry(t.img, g, c)));
    }
}

/// The second walk claims every allocated cluster, if the first run has seen the whole tree.
proof fn lemma_nothing_left_to_free(g: Geometry, s: FsState, mode: RepairMode, room: nat)
    requires
        ready(g, s),
        thorough(mode),
        repaired(g, s, mode, room).1 is Ok,
        ({
            let t = repaired(g, s, mode, room).0;
            let f = tree_checked(g, opening(g, s, mode), mode, room).0;
            let w = tree_checked(g, opening(g, t, mode), mode, room).0;
            replays(g, f, f.img, w)
        }),
    ensures
        ({
            let t = repaired(g, s, mode, room).0;
            let w = tree_checked(g, opening(g, t, mode), mode, room).0;
            may_reclaim(w.stats) ==> {
                &&& count_where(w.img, g, |raw: u32| is_orphan(raw), g.fat_entries()) == 0
                &&& forall|c: u32|
                    g.valid_cluster(c) ==> !is_orphan(#[trigger] raw_entry(w.img, g, c))
            }
        }),
{
    let t = repaired(g, s, mode, room).0;
    let v2 = opening(g, t, mode);
    let f = tree_checked(g, opening(g, s, mode), mode, room).0;
    let w = tree_checked(g, v2, mode, room).0;
    lemma_phases(g, s, mode, room);
    lemma_ready_again(g, s, mode, room);
    lemma_before(g, t);
    lemma_phases(g, t, mode, room);
    let mid = settled(g, s, mode, room).0;
    let p = |raw: u32| is_orphan(raw);
    if may_reclaim(w.stats) {
        assert forall|c: u32| g.valid_cluster(c) implies !p(#[trigger] raw_entry(w.img, g, c)) by {
            assert(entry_walked(mode, raw_entry(v2.img, g, c), raw_entry(w.img, g, c)));
            assert(marked(raw_entry(w.img, g, c)) == marked(raw_entry(f.img, g, c)));
            assert(raw_entry(t.img, g, c) == raw_entry(mid.img, g, c));
            assert(raw_entry(mid.img, g, c) == swept(raw_entry(f.img, g, c), true));
            lemma_zero_entry();
        }
        lemma_nothing_to_count(w.img, g, p, g.fat_entries());
    }
}

/// A run in [`RepairMode::all`] is thorough.
pub proof fn law_all_is_thorough()
    ensures
        thorough(RepairMode::all()),
{
    assert(0x007fu16 & 0x0010u16 == 0x0010u16 && 0x007fu16 & 0x0002u16 == 0x0002u16 && 0x007fu16
        & 0x0004u16 == 0x0004u16 && 0x007fu16 & 0x0008u16 == 0x0008u16 && 0x007fu16 & 0x0080u16
        != 0x0080u16) by (bit_vector);
}

/// Whether the walk of a run and its sweep found nothing to repair but long names without an entry.
pub open spec fn only_long_names_found(stats: RepairStats) -> bool {
    nothing_found(RepairStats { entries_removed: 0, ..stats })
}

/// A volume that a thorough run has repaired is sound: the next such run cuts no chain, corrects no size, renames no
/// entry, redirects no dot entry and frees no cluster. It leaves the FAT entry of every cluster as it is. It skips as
/// many directories as the run before. All that it may still find are the long names of entries that the first run has
/// renamed, and which no longer go with them: it removes at most as many as there were renamed. If it removes none, it
/// leaves everything behind the FAT as it is.
///
/// The names that the first run has given must be fit for an entry. Those that it makes up are, but the label in the
/// boot sector may not be. And the root directory must have a chain: one whose first cluster is not allocated is
/// reported by every run.
#[verifier::rlimit(30)]
pub proof fn law_second_repair(g: Geometry, s: FsState, mode: RepairMode, room: nat)
    requires
        ready(g, s),
        thorough(mode),
        repaired(g, s, mode, room).1 matches Ok(stats) && (stats.entries_recovered == 0
            || fit_name(g.volume_label@)),
        root_chain(g, before(g, s)).len() > 0,
    ensures
        ({
            let (once, first) = repaired(g, s, mode, room);
            let (twice, second) = repaired(g, once, mode, room);
            &&& second matches Ok(stats) && {
                &&& only_long_names_found(stats)
                &&& stats.entries_removed <= first->Ok_0.entries_recovered
                &&& stats.dirs_skipped == first->Ok_0.dirs_skipped
                &&& stats.entries_removed == 0 ==> data_kept(g, once.img, twice.img)
            }
            &&& forall|c: u32|
                g.valid_cluster(c) ==> #[trigger] raw_entry(twice.img, g, c) == raw_entry(
                    once.img,
                    g,
                    c,
                )
            &&& root_chain(g, before(g, once)) == root_chain(g, before(g, s))
        }),
{
    let (t, first) = repaired(g, s, mode, room);
    let v = opening(g, s, mode);
    let v2 = opening(g, t, mode);
    let (f, done) = tree_checked(g, v, mode, room);
    let claimed = fat_checked(g, v, mode);
    let again = fat_checked(g, v2, mode);
    let path = root_chain(g, v.img);
    let depth = (room - 1) as nat;
    lemma_before(g, s);
    lemma_phases(g, s, mode, room);
    lemma_ready_again(g, s, mode, room);
    lemma_before(g, t);
    lemma_second_start(g, s, mode, room);
    // The walk.
    lemma_only_root(g, v, mode, room);
    lemma_only_root(g, v2, mode, room);
    lemma_root_claimed(g, v, mode);
    lemma_tree_counts(g, claimed, root_frame(), depth, mode);
    assert(later(g, claimed.img, f.img, f.img, path, no_end(), Seq::empty())) by {
        assert forall|c: u32| #[trigger] cluster_kept(g, f.img, f.img, c) by {}
    }
    lemma_tree_again(g, mode, claimed, f.img, again, path, root_frame(), depth);
    let w = tree_checked(g, v2, mode, room).0;
    // The sweep.
    lemma_phases(g, t, mode, room);
    lemma_nothing_left_to_free(g, s, mode, room);
    let r = repaired(g, t, mode, room).0;
    let mid = settled(g, t, mode, room).0;
    assert forall|c: u32| g.valid_cluster(c) implies #[trigger] raw_entry(r.img, g, c) == raw_entry(
        t.img,
        g,
        c,
    ) by {
        law_no_markers_left(g, s, mode, room, c);
        assert(unmarked(raw_entry(w.img, g, c)) == unmarked(raw_entry(again.img, g, c)));
        assert(unmarked(raw_entry(again.img, g, c)) == unmarked(raw_entry(t.img, g, c)));
        lemma_unmarked(raw_entry(t.img, g, c));
        lemma_unmarked(raw_entry(w.img, g, c));
        assert(raw_entry(r.img, g, c) == raw_entry(mid.img, g, c));
    }
    let stats = settled(g, t, mode, room).1;
    if stats.entries_removed == 0 {
        law_every_change_is_reported(g, t, mode, room);
    }
}

/// A volume that a thorough run has repaired without renaming anything is sound: the next such run finds nothing to
/// repair, and leaves everything behind the FAT as it is, and the FAT entry of every cluster. What
/// [`law_second_repair`] leaves out of the root directory is left out here.
pub proof fn law_second_repair_finds_nothing(g: Geometry, s: FsState, mode: RepairMode, room: nat)
    requires
        ready(g, s),
        thorough(mode),
        repaired(g, s, mode, room).1 matches Ok(stats) && stats.entries_recovered == 0,
        root_chain(g, before(g, s)).len() > 0,
    ensures
        ({
            let once = repaired(g, s, mode, room).0;
            let (twice, second) = repaired(g, once, mode, room);
            &&& second matches Ok(stats) && nothing_found(stats)
            &&& data_kept(g, once.img, twice.img)
            &&& forall|c: u32|
                g.valid_cluster(c) ==> #[trigger] raw_entry(twice.img, g, c) == raw_entry(
                    once.img,
                    g,
                    c,
                )
        }),
{
    law_second_repair(g, s, mode, room);
}

/// Whatever the first of three thorough runs had to repair, the third one finds nothing to repair, and leaves
/// everything behind the FAT as it is, and the FAT entry of every cluster. What [`law_second_repair`] leaves out is
/// left out here.
pub proof fn law_third_repair_finds_nothing(g: Geometry, s: FsState, mode: RepairMode, room: nat)
    requires
        ready(g, s),
        thorough(mode),
        repaired(g, s, mode, room).1 matches Ok(stats) && (stats.entries_recovered == 0
            || fit_name(g.volume_label@)),
        root_chain(g, before(g, s)).len() > 0,
    ensures
        ({
            let once = repaired(g, s, mode, room).0;
            let twice = repaired(g, once, mode, room).0;
            let (thrice, third) = repaired(g, twice, mode, room);
            &&& third matches Ok(stats) && nothing_found(stats)
            &&& data_kept(g, twice.img, thrice.img)
            &&& forall|c: u32|
                g.valid_cluster(c) ==> #[trigger] raw_entry(thrice.img, g, c) == raw_entry(
                    twice.img,
                    g,
                    c,
                )
        }),
{
    law_second_repair(g, s, mode, room);
    lemma_ready_again(g, s, mode, room);
    let once = repaired(g, s, mode, room).0;
    law_second_repair_finds_nothing(g, once, mode, room);
}

/// Where the copies of the FAT agree, none of them is disputed.
proof fn lemma_none_diverging(g: Geometry, img: Seq<u8>, n: int)
    requires
        g.total_clusters <= MAX_CLUSTERS,
        n <= g.fat_entries(),
        copies_agree(g, img),
    ensures
        count_diverging(img, g, n) == 0,
    decreases n,
{
    if n > 0 {
        lemma_none_diverging(g, img, n - 1);
    }
}

/// FAT entry 1 stays in order when its clean-shutdown bit is set.
proof fn lemma_clean_bit_in_order(raw: u32)
    ensures
        ((raw | FAT32_CLEAN_BIT) & FAT32_VALUE_MASK) | FAT32_STATUS_BITS == (raw & FAT32_VALUE_MASK)
            | FAT32_STATUS_BITS,
{
    assert(((raw | 0x0800_0000u32) & 0x0FFF_FFFFu32) | 0x0C00_0000u32 == (raw & 0x0FFF_FFFFu32)
        | 0x0C00_0000u32) by (bit_vector);
}

/// The check of the FAT leaves the reserved entries in order, if it restores them.
proof fn lemma_reserved_prepared(g: Geometry, v: Vol, mode: RepairMode)
    requires
        g.wf(v.img.len()),
        mode.applies(RepairMode::fat_signatures()),
    ensures
        !entry_0_damaged(prepared(g, v, mode).img, g),
        !entry_1_damaged(prepared(g, v, mode).img, g),
{
    let one = markers_prepared(g, v, mode);
    let two = signatures_checked(g, one, mode);
    let pre = prepared(g, v, mode);
    lemma_rewrite_entries(v.img, g, |raw: u32| unmarked(raw), g.fat_entries());
    law_restoring_reserved_entries(one.img, g);
    lemma_restored(g, one.img);
    lemma_mirrors_synced(two.img, g, g.fat_entries());
    assert(raw_entry(pre.img, g, 0) == raw_entry(two.img, g, 0));
    assert(raw_entry(pre.img, g, 1) == raw_entry(two.img, g, 1));
}

/// The sweep leaves the reserved entries alone.
pub proof fn lemma_reserved_swept(g: Geometry, v: Vol, mode: RepairMode)
    requires
        g.wf(v.img.len()),
    ensures
        raw_entry(tree_swept(g, v, mode).img, g, 0) == raw_entry(v.img, g, 0),
{
    let reclaim = may_reclaim(v.stats);
    lemma_rewrite_entries(v.img, g, |raw: u32| swept(raw, reclaim), g.fat_entries());
}

/// A repair that restores the reserved FAT entries leaves them in order.
pub proof fn lemma_reserved_left(
    g: Geometry,
    s: FsState,
    mode: RepairMode,
    room: nat,
)
    requires
        ready(g, s),
        repaired(g, s, mode, room).1 is Ok,
        mode.applies(RepairMode::fat_signatures()),
    ensures
        !entry_0_damaged(repaired(g, s, mode, room).0.img, g),
        !entry_1_damaged(repaired(g, s, mode, room).0.img, g),
{
    let v = opening(g, s, mode);
    lemma_before(g, s);
    lemma_phases(g, s, mode, room);
    lemma_walk_kept(g, mode, v, room);
    lemma_reserved_prepared(g, v, mode);
    let pre = prepared(g, v, mode);
    let walked = tree_checked(g, v, mode, room).0;
    let mid = settled(g, s, mode, room).0;
    let t = repaired(g, s, mode, room).0;
    assert(raw_entry(walked.img, g, 0) == raw_entry(pre.img, g, 0));
    assert(raw_entry(walked.img, g, 1) == raw_entry(pre.img, g, 1));
    lemma_reserved_swept(g, walked, mode);
    assert(raw_entry(t.img, g, 0) == raw_entry(mid.img, g, 0));
    lemma_clean_bit_in_order(raw_entry(mid.img, g, 1));
}

/// What a repair has put in order in the FAT, the next one finds in order, whatever else it is asked to do. Where the
/// reserved entries were restored, none is restored again. Where the mirrors were brought into line, no entry is copied
/// again.
pub proof fn law_fat_stays_in_order(
    g: Geometry,
    s: FsState,
    mode: RepairMode,
    room: nat,
    next: RepairMode,
    next_room: nat,
)
    requires
        ready(g, s),
        repaired(g, s, mode, room).1 is Ok,
        mode.writes(),
    ensures
        repaired(
            g,
            repaired(g, s, mode, room).0,
            next,
            next_room,
        ).1 matches Ok(stats) ==> {
            &&& mode.applies(RepairMode::fat_signatures()) ==> stats.reserved_entries_restored == 0
            &&& mode.applies(RepairMode::fat_mirrors()) ==> stats.mirror_entries_synced == 0
        },
{
    let t = repaired(g, s, mode, room).0;
    lemma_ready_again(g, s, mode, room);
    lemma_before(g, t);
    lemma_phases(g, t, next, next_room);
    let v = opening(g, t, next);
    let one = markers_prepared(g, v, next);
    let two = signatures_checked(g, one, next);
    lemma_rewrite_entries(v.img, g, |raw: u32| unmarked(raw), g.fat_entries());
    lemma_walk_kept(g, next, v, next_room);
    if mode.applies(RepairMode::fat_signatures()) {
        lemma_reserved_left(g, s, mode, room);
        assert(raw_entry(one.img, g, 0) == raw_entry(t.img, g, 0));
        assert(raw_entry(one.img, g, 1) == raw_entry(t.img, g, 1));
    }
    if mode.applies(RepairMode::fat_mirrors()) {
        law_mirrors_agree(g, s, mode, room);
        lemma_rewrite_copies(v.img, g, |raw: u32| unmarked(raw), g.fat_entries());
        lemma_restored(g, one.img);
        lemma_restored(g, two.img);
        lemma_none_diverging(g, two.img, g.fat_entries());
    }
}

/// A volume that a thorough run has repaired has the right free-cluster count, if the run may correct it: the next such
/// run does not correct it again. What is left out of [`law_second_repair_finds_nothing`] is left out here.
pub proof fn law_free_count_stays_right(g: Geometry, s: FsState, mode: RepairMode, room: nat)
    requires
        ready(g, s),
        info_in_step(g, s),
        thorough(mode),
        mode.applies(RepairMode::fs_info()),
        repaired(g, s, mode, room).1 matches Ok(stats) && stats.entries_recovered == 0,
        root_chain(g, before(g, s)).len() > 0,
    ensures
        repaired(
            g,
            repaired(g, s, mode, room).0,
            mode,
            room,
        ).1 matches Ok(stats) && stats.fsinfo_corrected == 0,
{
    let t = repaired(g, s, mode, room).0;
    let r = repaired(g, t, mode, room).0;
    law_second_repair_finds_nothing(g, s, mode, room);
    lemma_ready_again(g, s, mode, room);
    lemma_before(g, t);
    law_free_count(g, s, mode, room);
    law_free_count(g, t, mode, room);
    lemma_phases(g, t, mode, room);
    let q = |raw: u32| is_free(raw);
    assert forall|c: u32| g.valid_cluster(c) implies q(#[trigger] raw_entry(t.img, g, c)) == q(
        raw_entry(r.img, g, c),
    ) by {
        assert(raw_entry(r.img, g, c) == raw_entry(t.img, g, c));
    }
    lemma_same_counts(g, t.img, q, r.img, q, g.fat_entries());
    lemma_walk_kept(g, mode, opening(g, t, mode), room);
}

} // verus!
