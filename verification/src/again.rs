//! Walking once more what a thorough run has left behind.

use vstd::prelude::*;

use crate::advance::{lemma_paths_disjoint, one_fate};
use crate::chain::{chain_from, chain_scanned, follow, lemma_chain_begins, lemma_marked, lemma_path_marked, Walk};
use crate::dir::{dir_start, entry_under, starts_directory, Cursor};
use crate::dirent::{
    cluster_field, dot_name, first_cluster, is_deleted, is_dir, is_end, is_label, is_lfn, name_corrupted, short_name,
};
use crate::entry::{chain_limit, dot_target, entry_checked, EntrySite};
use crate::fat::{entry_of, marked, only_fat_changed, raw_entry, FatEntry, FAT32_VISITED_BIT};
use crate::geometry::{Geometry, DIR_ENTRY_SIZE};
use crate::kept::{allocated, cluster_kept};
use crate::mode::RepairMode;
use crate::model::Vol;
use crate::owned::{
    is_slot, lemma_on_path, lemma_position, lemma_run_deleted, lemma_whole_kept, none_marked, on_path, only_slots,
    owned, same_fat, slot, whole_chain,
};
use crate::passes::{lemma_unmarked, unmarked};
use crate::scratch::DirFrame;
use crate::stats::{bump, RepairStats};
use crate::visits::{
    all_deleted, claims, dead_end, entry_settled, head, head_settled, holes_kept, is_short, lemma_deleted_start_nothing,
    lemma_fat_only, lemma_head, lemma_start_kept, no_new_dirs, rename_counted, run_base, run_in, same_slots, thorough,
    visit_bounded, visit_settled,
};
use crate::walk::{entry_visited, long_name_dropped, run_joined, run_matches, short_entry_visited, LfnRun, Visit};

verus! {

/// Whether the walk counted nothing that it would repair, long names aside.
pub open spec fn silent(a: RepairStats, b: RepairStats) -> bool {
    &&& b.chains_truncated == a.chains_truncated
    &&& b.sizes_corrected == a.sizes_corrected
    &&& b.entries_recovered == a.entries_recovered
    &&& b.dot_entries_fixed == a.dot_entries_fixed
}

/// A position behind every entry of any directory.
pub open spec fn no_end() -> int {
    0x2_0000_0000
}

/// Whether every FAT entry holds what it held, markers aside.
pub open spec fn values_kept(g: Geometry, a: Seq<u8>, b: Seq<u8>) -> bool {
    forall|c: u32|
        g.valid_cluster(c) ==> unmarked(#[trigger] raw_entry(b, g, c)) == unmarked(raw_entry(a, g, c))
}

/// `u` is where the second walk is when the first one was at `v`, if the first one left `f` behind: the same clusters
/// are claimed, what nobody has claimed yet is what was left behind, the FAT says of every cluster that the first walk
/// claimed what that walk left it saying, and what was left free or bad is. No more long names were removed than names
/// were given.
pub open spec fn replays(g: Geometry, v: Vol, f: Seq<u8>, u: Vol) -> bool {
    &&& u.img.len() == f.len()
    &&& v.img.len() == f.len()
    &&& forall|c: u32|
        g.valid_cluster(c) ==> marked(#[trigger] raw_entry(u.img, g, c)) == marked(
            raw_entry(v.img, g, c),
        )
    &&& forall|c: u32|
        g.valid_cluster(c) && marked(raw_entry(f, g, c)) ==> entry_of(
            #[trigger] raw_entry(u.img, g, c),
        ) == entry_of(raw_entry(f, g, c))
    &&& forall|c: u32|
        g.valid_cluster(c) && !marked(raw_entry(u.img, g, c)) ==> #[trigger] cluster_kept(
            g,
            f,
            u.img,
            c,
        )
    &&& no_new_dirs(g, f, u.img)
    &&& forall|c: u32|
        g.valid_cluster(c) && !allocated(raw_entry(f, g, c)) ==> !allocated(
            #[trigger] raw_entry(u.img, g, c),
        )
    &&& u.stats.dirs_skipped == v.stats.dirs_skipped
    &&& u.stats.entries_removed <= v.stats.entries_recovered
    &&& u.stats.entries_recovered == 0
}

/// Numbers without repetition in a range are no more than the range has.
pub proof fn lemma_distinct(s: Seq<u32>, lo: int, hi: int)
    requires
        lo <= hi,
        s.no_duplicates(),
        forall|i: int| 0 <= i < s.len() ==> lo <= #[trigger] s[i] < hi,
    ensures
        s.len() <= hi - lo,
{
    let t = s.map_values(|x: u32| x as int);
    assert(t.no_duplicates());
    t.unique_seq_to_set();
    let all = vstd::set_lib::set_int_range(lo, hi);
    vstd::set_lib::lemma_int_range(lo, hi);
    assert forall|x: int| t.to_set().contains(x) implies all.contains(x) by {
        let i = choose|i: int| 0 <= i < t.len() && t[i] == x;
        assert(lo <= s[i] < hi);
    }
    vstd::set_lib::lemma_len_subset(t.to_set(), all);
}

/// A chain that leaves a cluster of the volume out is shorter than the volume.
pub proof fn lemma_chain_leaves_room(g: Geometry, q: Seq<u32>, c: u32)
    requires
        q.no_duplicates(),
        forall|i: int| 0 <= i < q.len() ==> #[trigger] g.valid_cluster(q[i]),
        g.valid_cluster(c),
        !q.contains(c),
    ensures
        q.len() < g.total_clusters,
{
    let s = q.push(c);
    assert(s.no_duplicates()) by {
        assert forall|i: int, j: int| 0 <= i < s.len() && 0 <= j < s.len() && i != j implies s[i]
            != s[j] by {
            if i < q.len() {
                assert(q.contains(q[i]));
            }
            if j < q.len() {
                assert(q.contains(q[j]));
            }
        }
    }
    assert forall|i: int| 0 <= i < s.len() implies 2 <= #[trigger] s[i] < g.total_clusters + 2 by {
        if i < q.len() {
            assert(g.valid_cluster(q[i]));
        }
    }
    lemma_distinct(s, 2, g.total_clusters + 2);
}

/// A whole chain that nobody has claimed, followed from its `i`-th cluster on.
pub proof fn lemma_follow_whole(
    g: Geometry,
    img: Seq<u8>,
    q: Seq<u32>,
    limit: Option<u32>,
    marking: bool,
    i: int,
)
    requires
        whole_chain(g, img, q),
        marking ==> none_marked(g, img, q),
        q.len() <= g.total_clusters,
        limit matches Some(l) ==> q.len() <= l,
        0 <= i < q.len(),
    ensures
        follow(img, g, q[i], q.subrange(0, i), limit, marking) == (Walk {
            path: q,
            truncated: false,
            cross_linked: false,
        }),
    decreases q.len() - i,
{
    let taken = q.subrange(0, i);
    let c = q[i];
    assert(g.valid_cluster(q[i]));
    assert(marking ==> !marked(raw_entry(img, g, q[i])));
    assert(!taken.contains(c)) by {
        if taken.contains(c) {
            let j = choose|j: int| 0 <= j < taken.len() && taken[j] == c;
            assert(q[j] == q[i]);
        }
    }
    assert(taken.push(c) =~= q.subrange(0, i + 1));
    if i < q.len() - 1 {
        assert(entry_of(raw_entry(img, g, q[i])) == FatEntry::Data(q[i + 1]));
        assert(g.valid_cluster(q[i + 1]));
        lemma_follow_whole(g, img, q, limit, marking, i + 1);
    } else {
        assert(q[i] == q.last());
        assert(q.subrange(0, i + 1) =~= q);
    }
}

/// Scanning a whole chain that nobody has claimed claims it, and finds nothing wrong with it.
pub proof fn lemma_chain_again(
    g: Geometry,
    mode: RepairMode,
    u: Vol,
    q: Seq<u32>,
    limit: Option<u32>,
)
    requires
        g.wf(u.img.len()),
        mode.marks(),
        whole_chain(g, u.img, q),
        none_marked(g, u.img, q),
        q.len() <= g.total_clusters,
        limit matches Some(l) ==> q.len() <= l,
    ensures
        chain_from(u.img, g, q[0], limit, true).path == q,
        ({
            let w = chain_scanned(g, u, q[0], limit, mode);
            &&& w.stats == u.stats
            &&& only_fat_changed(g, u.img, w.img)
            &&& claims(g, u.img, w.img, q)
            &&& values_kept(g, u.img, w.img)
        }),
{
    assert(g.valid_cluster(q[0]));
    lemma_follow_whole(g, u.img, q, limit, true, 0);
    assert(q.subrange(0, 0) =~= Seq::<u32>::empty());
    lemma_path_marked(u.img, g, q);
    let w = chain_scanned(g, u, q[0], limit, mode);
    assert forall|c: u32| g.valid_cluster(c) implies marked(#[trigger] raw_entry(w.img, g, c)) == (
    marked(raw_entry(u.img, g, c)) || q.contains(c)) && unmarked(raw_entry(w.img, g, c))
        == unmarked(raw_entry(u.img, g, c)) by {
        lemma_marked(raw_entry(u.img, g, c));
        lemma_unmarked_again(raw_entry(u.img, g, c));
    }
}

/// Taking a marker off that was just put on.
proof fn lemma_unmarked_again(raw: u32)
    ensures
        unmarked(raw | FAT32_VISITED_BIT) == unmarked(raw),
{
    assert((raw | 0x1000_0000u32) & !0x1000_0000u32 == raw & !0x1000_0000u32) by (bit_vector);
}

/// What the second look at a settled entry, and whatever else was left behind, comes to.
pub open spec fn looked_again(g: Geometry, u: Vol, w: Vol, q: Seq<u32>) -> bool {
    &&& only_fat_changed(g, u.img, w.img)
    &&& claims(g, u.img, w.img, q)
    &&& values_kept(g, u.img, w.img)
    &&& silent(u.stats, w.stats)
    &&& w.stats.dirs_skipped == u.stats.dirs_skipped
    &&& w.stats.entries_removed == u.stats.entries_removed
}

/// Whether an entry that claimed nothing has nothing to claim.
pub open spec fn leads_nowhere(g: Geometry, img: Seq<u8>, e: Seq<u8>) -> bool {
    !dot_name(short_name(e)) && !is_label(e) ==> (first_cluster(e) matches Some(start) ==> dead_end(
        g,
        img,
        start,
    ) && !starts_directory(img, g, start))
}

/// Checking a settled entry again finds nothing wrong with it.
proof fn lemma_entry_again(
    g: Geometry,
    mode: RepairMode,
    a: Seq<u8>,
    b: Seq<u8>,
    u: Vol,
    first: u32,
    e: Seq<u8>,
    site: EntrySite,
    q: Seq<u32>,
    down: Option<u32>,
)
    requires
        g.wf(u.img.len()),
        mode.marks(),
        entry_settled(g, a, b, e, q, down),
        q.len() > 0 ==> chain_ready(g, a, u.img, q),
        q.len() == 0 ==> (first_cluster(e) matches Some(start) ==> dead_end(g, u.img, start)
            && !starts_directory(u.img, g, start)),
    ensures
        ({
            let (w, res) = entry_checked(g, u, first, e, site, mode);
            &&& res matches Ok(again) && again == down
            &&& looked_again(g, u, w, q)
        }),
{
    if let Some(start) = first_cluster(e) {
        if is_dir(e) && !starts_directory(u.img, g, start) {
            let judged = Vol {
                img: u.img,
                stats: RepairStats { dirs_rejected: bump(u.stats.dirs_rejected), ..u.stats },
            };
            lemma_chain_begins(u.img, g, start, None, true);
            if q.len() > 0 {
                lemma_chain_again(g, mode, judged, q, None);
            }
        } else {
            lemma_chain_again(g, mode, u, q, chain_limit(g, e));
        }
    }
}

/// Looking at a settled short-name entry again finds nothing wrong with it.
proof fn lemma_short_again(
    g: Geometry,
    mode: RepairMode,
    a: Seq<u8>,
    b: Seq<u8>,
    u: Vol,
    frame: DirFrame,
    cur: Cursor,
    run_start: u32,
    e: Seq<u8>,
    lfn: LfnRun,
    q: Seq<u32>,
    down: Option<u32>,
)
    requires
        g.wf(u.img.len()),
        mode.marks(),
        if dot_name(short_name(e)) {
            &&& cluster_field(e) == dot_target(frame, e)
            &&& q.len() == 0
            &&& down is None
        } else if is_label(e) {
            &&& !name_corrupted(short_name(e))
            &&& q.len() == 0
            &&& down is None
        } else {
            entry_settled(g, a, b, e, q, down)
        },
        q.len() > 0 ==> chain_ready(g, a, u.img, q),
        q.len() == 0 ==> leads_nowhere(g, u.img, e),
    ensures
        ({
            let (w, res) = short_entry_visited(g, u, frame, cur, run_start, e, lfn, mode);
            &&& res matches Ok(visit) && visit == match down {
                Some(c) => Visit::Descend(c),
                None => Visit::Next(LfnRun { start: None, ..lfn }),
            }
            &&& looked_again(g, u, w, q)
        }),
{
    if !dot_name(short_name(e)) && !is_label(e) {
        let counted = Vol {
            img: u.img,
            stats: RepairStats { files_examined: bump(u.stats.files_examined), ..u.stats },
        };
        let site = EntrySite { pos: cur.pos, run_start, abs_pos: cur.offset(g) as u64 };
        lemma_entry_again(
            g,
            mode,
            a,
            b,
            counted,
            dir_start(g, frame.cluster),
            e,
            site,
            q,
            down,
        );
    }
}

/// How the run that the second walk is in the middle of relates to the one that the first walk was in: it is the same
/// one, unless the first walk has deleted it since.
pub open spec fn run_again(
    g: Geometry,
    f: Seq<u8>,
    path: Seq<u32>,
    lfn: LfnRun,
    lu: LfnRun,
    pos: int,
) -> bool {
    match lfn.start {
        None => lu.start is None,
        Some(start) => {
            ||| {
                &&& lu == lfn
                &&& forall|i: int|
                    is_slot(g, path, i) && start <= i < pos ==> !is_deleted(
                        #[trigger] slot(g, f, path, i),
                    )
            }
            ||| {
                &&& lu.start is None
                &&& all_deleted(g, f, path, start as int, pos)
            }
        },
    }
}

/// Up to where the entries of a directory are not touched any more after a visit.
pub open spec fn settled_up_to(visit: Visit, pos: int) -> int {
    match visit {
        Visit::Next(rest) => run_base(rest, pos + 32),
        _ => pos + 32,
    }
}

/// What the first walk left behind in the end, `f`, next to what it had made of the volume with a visit, `b`.
pub open spec fn left_behind(
    g: Geometry,
    a: Seq<u8>,
    b: Seq<u8>,
    f: Seq<u8>,
    path: Seq<u32>,
    pos: int,
    visit: Visit,
    q: Seq<u32>,
) -> bool {
    &&& f.len() == b.len()
    &&& forall|c: u32|
        g.valid_cluster(c) && marked(raw_entry(b, g, c)) ==> #[trigger] raw_entry(f, g, c)
            == raw_entry(b, g, c)
    &&& no_new_dirs(g, b, f)
    &&& holes_kept(g, b, f)
    &&& same_slots(g, b, f, path, 0, settled_up_to(visit, pos))
    &&& one_fate(g, b, f, path, settled_up_to(visit, pos), pos + 32)
    &&& q.len() > 0 ==> starts_directory(f, g, q[0]) == starts_directory(a, g, q[0])
}

/// A visit of the first walk, what was left behind in the end, and where the second walk is at that visit.
pub open spec fn visited_twice(
    g: Geometry,
    v: Vol,
    b: Vol,
    f: Seq<u8>,
    u: Vol,
    path: Seq<u32>,
    cur: Cursor,
    frame: DirFrame,
    lfn: LfnRun,
    lu: LfnRun,
    visit: Visit,
    q: Seq<u32>,
) -> bool {
    let p = cur.pos as int;
    &&& g.wf(v.img.len())
    &&& owned(g, v.img, path)
    &&& path[0] == dir_start(g, frame.cluster)
    &&& on_path(g, path, cur)
    &&& run_in(g, v.img, path, lfn, p)
    &&& visit_settled(g, frame, path, cur.pos, lfn, v.img, b.img, visit, q)
    &&& visit_bounded(g, path, cur.pos, lfn, v.img, b.img, q)
    &&& b.stats.dirs_skipped == v.stats.dirs_skipped
    &&& v.stats.entries_recovered <= b.stats.entries_recovered
    &&& is_short(slot(g, v.img, path, p)) ==> rename_counted(
        slot(g, v.img, path, p),
        slot(g, b.img, path, p),
        v.stats,
        b.stats,
    )
    &&& left_behind(g, v.img, b.img, f, path, p, visit, q)
    &&& replays(g, v, f, u)
    &&& whole_chain(g, u.img, path)
    &&& same_slots(g, f, u.img, path, p, no_end())
    &&& run_again(g, f, path, lfn, lu, p)
}

/// What the same visit comes to in the second walk.
pub open spec fn visit_repeats(
    g: Geometry,
    mode: RepairMode,
    b: Vol,
    f: Seq<u8>,
    u: Vol,
    path: Seq<u32>,
    cur: Cursor,
    frame: DirFrame,
    lu: LfnRun,
    visit: Visit,
) -> bool {
    let (w, res) = entry_visited(g, u, frame, cur, lu, mode);
    &&& silent(u.stats, w.stats)
    &&& values_kept(g, u.img, w.img)
    &&& replays(g, b, f, w)
    &&& same_slots(g, f, w.img, path, cur.pos + 32, no_end())
    &&& match visit {
        Visit::Finish => res matches Ok(Visit::Finish),
        Visit::Descend(c) => res matches Ok(Visit::Descend(again)) && again == c,
        Visit::Next(rest) => res matches Ok(Visit::Next(ru)) && run_again(
            g,
            f,
            path,
            rest,
            ru,
            cur.pos + 32,
        ),
    }
}

/// The second walk finds the entries that were left behind.
proof fn lemma_slot_again(g: Geometry, v: Vol, f: Seq<u8>, u: Vol, path: Seq<u32>, cur: Cursor)
    requires
        g.wf(f.len()),
        replays(g, v, f, u),
        whole_chain(g, v.img, path),
        on_path(g, path, cur),
        same_slots(g, f, u.img, path, cur.pos as int, no_end()),
    ensures
        entry_under(u.img, g, cur) == slot(g, f, path, cur.pos as int),
        is_slot(g, path, cur.pos as int),
        same_slots(g, f, u.img, path, cur.pos + 32, no_end()),
{
    lemma_on_path(g, f.len(), path, cur);
    assert(slot(g, u.img, path, cur.pos as int) == slot(g, f, path, cur.pos as int));
}

/// What the second walk makes of the volume with a visit, while the first one made `b` of `v`.
pub open spec fn repeated(
    g: Geometry,
    path: Seq<u32>,
    pos: int,
    b: Vol,
    u: Vol,
    w: Vol,
    q: Seq<u32>,
) -> bool {
    &&& u.img.len() == w.img.len()
    &&& claims(g, u.img, w.img, q)
    &&& values_kept(g, u.img, w.img)
    &&& no_new_dirs(g, u.img, w.img)
    &&& forall|i: int|
        is_slot(g, path, i) && pos + 32 <= i ==> #[trigger] slot(g, w.img, path, i) == slot(
            g,
            u.img,
            path,
            i,
        )
    &&& forall|c: u32|
        g.valid_cluster(c) && !path.contains(c) ==> #[trigger] cluster_kept(g, u.img, w.img, c)
    &&& silent(u.stats, w.stats)
    &&& w.stats.dirs_skipped == u.stats.dirs_skipped
    &&& w.stats.entries_removed <= b.stats.entries_recovered
}

/// The second walk is where the first one is behind the same visit.
proof fn lemma_replays_on(
    g: Geometry,
    path: Seq<u32>,
    pos: int,
    v: Vol,
    b: Vol,
    f: Seq<u8>,
    u: Vol,
    w: Vol,
    q: Seq<u32>,
)
    requires
        g.wf(f.len()),
        owned(g, v.img, path),
        replays(g, v, f, u),
        same_slots(g, f, u.img, path, pos, no_end()),
        b.img.len() == v.img.len(),
        claims(g, v.img, b.img, q),
        b.stats.dirs_skipped == v.stats.dirs_skipped,
        repeated(g, path, pos, b, u, w, q),
    ensures
        replays(g, b, f, w),
        same_slots(g, f, w.img, path, pos + 32, no_end()),
{
    assert forall|c: u32| g.valid_cluster(c) implies marked(#[trigger] raw_entry(w.img, g, c))
        == marked(raw_entry(b.img, g, c)) by {
        assert(marked(raw_entry(u.img, g, c)) == marked(raw_entry(v.img, g, c)));
    }
    assert forall|c: u32| g.valid_cluster(c) && marked(raw_entry(f, g, c)) implies entry_of(
        #[trigger] raw_entry(w.img, g, c),
    ) == entry_of(raw_entry(f, g, c)) by {
        assert(entry_of(raw_entry(u.img, g, c)) == entry_of(raw_entry(f, g, c)));
        lemma_unmarked(raw_entry(u.img, g, c));
        lemma_unmarked(raw_entry(w.img, g, c));
    }
    assert forall|c: u32| g.valid_cluster(c) && !allocated(raw_entry(f, g, c)) implies !allocated(
        #[trigger] raw_entry(w.img, g, c),
    ) by {
        assert(!allocated(raw_entry(u.img, g, c)));
        lemma_unmarked(raw_entry(u.img, g, c));
        lemma_unmarked(raw_entry(w.img, g, c));
    }
    assert forall|c: u32| g.valid_cluster(c) && !marked(raw_entry(w.img, g, c)) implies #[trigger] cluster_kept(
        g,
        f,
        w.img,
        c,
    ) by {
        assert(!marked(raw_entry(u.img, g, c)));
        assert(!path.contains(c)) by {
            if path.contains(c) {
                let i = choose|i: int| 0 <= i < path.len() && path[i] == c;
                assert(marked(raw_entry(v.img, g, path[i])));
            }
        }
        assert(cluster_kept(g, f, u.img, c));
        assert(cluster_kept(g, u.img, w.img, c));
    }
    assert forall|i: int| is_slot(g, path, i) && pos + 32 <= i < no_end() implies #[trigger] slot(
        g,
        w.img,
        path,
        i,
    ) == slot(g, f, path, i) by {
        assert(slot(g, u.img, path, i) == slot(g, f, path, i));
    }
}

/// Where the second walk does nothing, it is where the first one is behind the same visit.
proof fn lemma_replays_still(
    g: Geometry,
    mode: RepairMode,
    v: Vol,
    b: Vol,
    f: Seq<u8>,
    u: Vol,
    path: Seq<u32>,
    cur: Cursor,
    frame: DirFrame,
    lfn: LfnRun,
    lu: LfnRun,
    visit: Visit,
    q: Seq<u32>,
)
    requires
        thorough(mode),
        visited_twice(g, v, b, f, u, path, cur, frame, lfn, lu, visit, q),
        q.len() == 0,
    ensures
        replays(g, b, f, u),
        same_slots(g, f, u.img, path, cur.pos + 32, no_end()),
{
    lemma_replays_on(g, path, cur.pos as int, v, b, f, u, u, q);
}

/// A run whose entries were deleted is none in the second walk.
proof fn lemma_run_gone(
    g: Geometry,
    f: Seq<u8>,
    path: Seq<u32>,
    lfn: LfnRun,
    lu: LfnRun,
    pos: int,
)
    requires
        is_slot(g, path, pos),
        lfn.start matches Some(start) ==> start % DIR_ENTRY_SIZE == 0 && start < pos,
        run_again(g, f, path, lfn, lu, pos),
        all_deleted(g, f, path, run_base(lfn, pos), pos),
    ensures
        lu.start is None,
{
    if let Some(start) = lfn.start {
        assert(is_slot(g, path, start as int));
        assert(is_deleted(slot(g, f, path, start as int)));
    }
}

/// A run whose entries were left as they were is the same in the second walk.
proof fn lemma_run_still_there(
    g: Geometry,
    a: Seq<u8>,
    f: Seq<u8>,
    path: Seq<u32>,
    lfn: LfnRun,
    lu: LfnRun,
    pos: int,
)
    requires
        is_slot(g, path, pos),
        run_in(g, a, path, lfn, pos),
        lfn.start is Some,
        run_again(g, f, path, lfn, lu, pos),
        same_slots(g, a, f, path, run_base(lfn, pos), pos),
    ensures
        lu == lfn,
{
    let start = lfn.start->0;
    assert(is_slot(g, path, start as int));
    assert(slot(g, f, path, start as int) == slot(g, a, path, start as int));
}

/// The end of a directory.
proof fn lemma_end_again(
    g: Geometry,
    mode: RepairMode,
    v: Vol,
    b: Vol,
    f: Seq<u8>,
    u: Vol,
    path: Seq<u32>,
    cur: Cursor,
    frame: DirFrame,
    lfn: LfnRun,
    lu: LfnRun,
    visit: Visit,
    q: Seq<u32>,
)
    requires
        thorough(mode),
        visited_twice(g, v, b, f, u, path, cur, frame, lfn, lu, visit, q),
        is_end(slot(g, v.img, path, cur.pos as int)),
    ensures
        visit_repeats(g, mode, b, f, u, path, cur, frame, lu, visit),
{
    reveal(entry_visited);
    let p = cur.pos as int;
    lemma_slot_again(g, v, f, u, path, cur);
    lemma_replays_still(g, mode, v, b, f, u, path, cur, frame, lfn, lu, visit, q);
    assert forall|i: int| is_slot(g, path, i) && run_base(lfn, p) <= i < p implies is_deleted(
        #[trigger] slot(g, f, path, i),
    ) by {
        assert(slot(g, f, path, i) == slot(g, b.img, path, i));
    }
    lemma_run_gone(g, f, path, lfn, lu, p);
}

/// A deleted entry.
proof fn lemma_deleted_again(
    g: Geometry,
    mode: RepairMode,
    v: Vol,
    b: Vol,
    f: Seq<u8>,
    u: Vol,
    path: Seq<u32>,
    cur: Cursor,
    frame: DirFrame,
    lfn: LfnRun,
    lu: LfnRun,
    visit: Visit,
    q: Seq<u32>,
)
    requires
        thorough(mode),
        visited_twice(g, v, b, f, u, path, cur, frame, lfn, lu, visit, q),
        is_deleted(slot(g, v.img, path, cur.pos as int)),
    ensures
        visit_repeats(g, mode, b, f, u, path, cur, frame, lu, visit),
{
    reveal(entry_visited);
    let p = cur.pos as int;
    lemma_slot_again(g, v, f, u, path, cur);
    lemma_replays_still(g, mode, v, b, f, u, path, cur, frame, lfn, lu, visit, q);
    assert(slot(g, f, path, p) == slot(g, b.img, path, p));
    assert forall|i: int| is_slot(g, path, i) && run_base(lfn, p) <= i < p implies is_deleted(
        #[trigger] slot(g, f, path, i),
    ) by {
        assert(slot(g, f, path, i) == slot(g, b.img, path, i));
    }
    lemma_run_gone(g, f, path, lfn, lu, p);
}

/// A long-name entry.
proof fn lemma_long_again(
    g: Geometry,
    mode: RepairMode,
    v: Vol,
    b: Vol,
    f: Seq<u8>,
    u: Vol,
    path: Seq<u32>,
    cur: Cursor,
    frame: DirFrame,
    lfn: LfnRun,
    lu: LfnRun,
    visit: Visit,
    q: Seq<u32>,
)
    requires
        thorough(mode),
        visited_twice(g, v, b, f, u, path, cur, frame, lfn, lu, visit, q),
        ({
            let e = slot(g, v.img, path, cur.pos as int);
            is_lfn(e) && !is_end(e) && !is_deleted(e)
        }),
    ensures
        visit_repeats(g, mode, b, f, u, path, cur, frame, lu, visit),
{
    reveal(entry_visited);
    let p = cur.pos as int;
    let e = slot(g, v.img, path, p);
    let x = slot(g, f, path, p);
    lemma_slot_again(g, v, f, u, path, cur);
    lemma_replays_still(g, mode, v, b, f, u, path, cur, frame, lfn, lu, visit, q);
    let rest = run_joined(lfn, e, cur.pos);
    let base = run_base(rest, p + 32);
    assert(base == run_base(lfn, p));
    if same_slots(g, b.img, f, path, base, p + 32) {
        assert(x == e);
        if lfn.start is Some {
            assert(same_slots(g, v.img, f, path, base, p));
            lemma_run_still_there(g, v.img, f, path, lfn, lu, p);
        }
        assert forall|i: int| is_slot(g, path, i) && base <= i < p + 32 implies !is_deleted(
            #[trigger] slot(g, f, path, i),
        ) by {
            assert(i <= p);
            assert(slot(g, f, path, i) == slot(g, v.img, path, i));
        }
    } else {
        assert(all_deleted(g, f, path, base, p + 32));
        assert(is_deleted(x));
        lemma_run_gone(g, f, path, lfn, lu, p);
    }
}

/// A short-name entry that was deleted.
proof fn lemma_removed_again(
    g: Geometry,
    mode: RepairMode,
    v: Vol,
    b: Vol,
    f: Seq<u8>,
    u: Vol,
    path: Seq<u32>,
    cur: Cursor,
    frame: DirFrame,
    lfn: LfnRun,
    lu: LfnRun,
    visit: Visit,
    q: Seq<u32>,
)
    requires
        thorough(mode),
        visited_twice(g, v, b, f, u, path, cur, frame, lfn, lu, visit, q),
        is_short(slot(g, v.img, path, cur.pos as int)),
        q.len() == 0,
        visit == Visit::Next(LfnRun { start: None, ..lfn }),
        is_deleted(slot(g, b.img, path, cur.pos as int)),
        all_deleted(g, b.img, path, run_base(lfn, cur.pos as int), cur.pos + 32),
    ensures
        visit_repeats(g, mode, b, f, u, path, cur, frame, lu, visit),
{
    reveal(entry_visited);
    lemma_slot_again(g, v, f, u, path, cur);
    lemma_replays_still(g, mode, v, b, f, u, path, cur, frame, lfn, lu, visit, q);
    let p = cur.pos as int;
    assert(slot(g, f, path, p) == slot(g, b.img, path, p));
    assert forall|i: int| is_slot(g, path, i) && run_base(lfn, p) <= i < p implies is_deleted(
        #[trigger] slot(g, f, path, i),
    ) by {
        assert(slot(g, f, path, i) == slot(g, b.img, path, i));
    }
    lemma_run_gone(g, f, path, lfn, lu, p);
}

/// What the first walk claimed is whole in the second one.
pub proof fn lemma_whole_again(g: Geometry, v: Vol, b: Seq<u8>, f: Seq<u8>, u: Vol, q: Seq<u32>)
    requires
        replays(g, v, f, u),
        owned(g, b, q),
        forall|c: u32|
            g.valid_cluster(c) && marked(raw_entry(b, g, c)) ==> #[trigger] raw_entry(f, g, c)
                == raw_entry(b, g, c),
    ensures
        whole_chain(g, u.img, q),
{
    assert forall|i: int| 0 <= i < q.len() implies entry_of(raw_entry(u.img, g, q[i])) == entry_of(
        raw_entry(b, g, #[trigger] q[i]),
    ) by {
        assert(g.valid_cluster(q[i]));
        assert(marked(raw_entry(b, g, q[i])));
        assert(raw_entry(f, g, q[i]) == raw_entry(b, g, q[i]));
    }
    assert forall|i: int| 0 <= i < q.len() - 1 implies entry_of(
        raw_entry(u.img, g, #[trigger] q[i]),
    ) == FatEntry::Data(q[i + 1]) by {
        assert(entry_of(raw_entry(u.img, g, q[i])) == entry_of(raw_entry(b, g, q[i])));
    }
    let last = q[q.len() - 1];
    assert(last == q.last());
    assert(entry_of(raw_entry(u.img, g, last)) == entry_of(raw_entry(b, g, last)));
}

/// What the second walk needs to know of the chain of a settled entry.
pub open spec fn chain_ready(g: Geometry, a: Seq<u8>, u: Seq<u8>, q: Seq<u32>) -> bool {
    &&& whole_chain(g, u, q)
    &&& none_marked(g, u, q)
    &&& q.len() <= g.total_clusters
    &&& starts_directory(u, g, q[0]) == starts_directory(a, g, q[0])
}

/// The second walk finds the chain of a settled entry.
proof fn lemma_chain_ready(
    g: Geometry,
    v: Vol,
    b: Seq<u8>,
    f: Seq<u8>,
    u: Vol,
    path: Seq<u32>,
    q: Seq<u32>,
)
    requires
        g.wf(f.len()),
        replays(g, v, f, u),
        owned(g, v.img, path),
        owned(g, b, q),
        none_marked(g, v.img, q),
        forall|c: u32|
            g.valid_cluster(c) && marked(raw_entry(b, g, c)) ==> #[trigger] raw_entry(f, g, c)
                == raw_entry(b, g, c),
        starts_directory(f, g, q[0]) == starts_directory(v.img, g, q[0]),
    ensures
        chain_ready(g, v.img, u.img, q),
{
    lemma_whole_again(g, v, b, f, u, q);
    assert forall|i: int| 0 <= i < q.len() implies !marked(raw_entry(u.img, g, #[trigger] q[i])) by {
        assert(g.valid_cluster(q[i]));
        assert(!marked(raw_entry(v.img, g, q[i])));
    }
    lemma_paths_disjoint(g, v.img, path, q);
    assert(g.valid_cluster(path[0]));
    assert(!q.contains(path[0]));
    lemma_chain_leaves_room(g, q, path[0]);
    assert(g.valid_cluster(q[0]));
    assert(!marked(raw_entry(u.img, g, q[0])));
    assert(cluster_kept(g, f, u.img, q[0]));
    lemma_start_kept(g, f, u.img, q[0]);
}

/// The chain of a settled entry is not touched where a long name is removed.
proof fn lemma_chain_still_ready(
    g: Geometry,
    path: Seq<u32>,
    lo: int,
    hi: int,
    a: Seq<u8>,
    u: Seq<u8>,
    mid: Seq<u8>,
    q: Seq<u32>,
)
    requires
        g.wf(u.len()),
        chain_ready(g, a, u, q),
        only_slots(g, path, lo, hi, u, mid),
        same_fat(g, u, mid),
        !path.contains(q[0]),
    ensures
        chain_ready(g, a, mid, q),
{
    assert forall|i: int| 0 <= i < q.len() implies raw_entry(mid, g, q[i]) == raw_entry(
        u,
        g,
        #[trigger] q[i],
    ) by {
        assert(g.valid_cluster(q[i]));
    }
    lemma_whole_kept(g, u, mid, q);
    assert forall|i: int| 0 <= i < q.len() implies !marked(raw_entry(mid, g, #[trigger] q[i])) by {
        assert(!marked(raw_entry(u, g, q[i])));
        assert(raw_entry(mid, g, q[i]) == raw_entry(u, g, q[i]));
    }
    assert(g.valid_cluster(q[0]));
    assert(cluster_kept(g, u, mid, q[0]));
    lemma_start_kept(g, u, mid, q[0]);
}

/// What the second walk is in the middle of when it comes to a settled entry: the run that the first one was in the
/// middle of, if that was the entry's own, and none otherwise.
proof fn lemma_run_at_settled(
    g: Geometry,
    mode: RepairMode,
    v: Vol,
    b: Vol,
    f: Seq<u8>,
    u: Vol,
    path: Seq<u32>,
    cur: Cursor,
    frame: DirFrame,
    lfn: LfnRun,
    lu: LfnRun,
    visit: Visit,
    q: Seq<u32>,
)
    requires
        thorough(mode),
        visited_twice(g, v, b, f, u, path, cur, frame, lfn, lu, visit, q),
        is_short(slot(g, v.img, path, cur.pos as int)),
        !is_deleted(slot(g, b.img, path, cur.pos as int)),
    ensures
        lfn.start is Some && run_matches(lfn, short_name(slot(g, v.img, path, cur.pos as int)))
            ==> lu == lfn,
        !(lfn.start is Some && run_matches(lfn, short_name(slot(g, v.img, path, cur.pos as int))))
            ==> lu.start is None,
{
    let p = cur.pos as int;
    let base = run_base(lfn, p);
    let e = slot(g, v.img, path, p);
    lemma_on_path(g, v.img.len(), path, cur);
    if lfn.start is Some && run_matches(lfn, short_name(e)) {
        assert forall|i: int| is_slot(g, path, i) && base <= i < p implies #[trigger] slot(
            g,
            f,
            path,
            i,
        ) == slot(g, v.img, path, i) by {
            assert(slot(g, b.img, path, i) == slot(g, v.img, path, i));
        }
        lemma_run_still_there(g, v.img, f, path, lfn, lu, p);
    } else if lfn.start is Some {
        assert forall|i: int| is_slot(g, path, i) && base <= i < p implies is_deleted(
            #[trigger] slot(g, f, path, i),
        ) by {
            assert(slot(g, f, path, i) == slot(g, b.img, path, i));
        }
        lemma_run_gone(g, f, path, lfn, lu, p);
    }
}

/// What the second look at a settled entry does to the volume, given that it first removed the long name in front.
proof fn lemma_repeated_behind(
    g: Geometry,
    path: Seq<u32>,
    lo: int,
    pos: int,
    b: Vol,
    u: Vol,
    mid: Vol,
    w: Vol,
    q: Seq<u32>,
)
    requires
        g.wf(u.img.len()),
        forall|i: int| 0 <= i < path.len() ==> #[trigger] g.valid_cluster(path[i]),
        only_slots(g, path, lo, pos, u.img, mid.img),
        no_new_dirs(g, u.img, mid.img),
        lo <= pos,
        same_fat(g, u.img, mid.img),
        silent(u.stats, mid.stats),
        mid.stats.dirs_skipped == u.stats.dirs_skipped,
        mid.stats.entries_removed <= b.stats.entries_recovered,
        looked_again(g, mid, w, q),
    ensures
        repeated(g, path, pos, b, u, w, q),
{
    lemma_fat_only(g, path, mid.img, w.img, pos);
    assert forall|c: u32| g.valid_cluster(c) && #[trigger] starts_directory(w.img, g, c) implies starts_directory(
        u.img,
        g,
        c,
    ) by {
        g.lemma_cluster_bounds(u.img.len(), c as int);
        lemma_start_kept(g, mid.img, w.img, c);
    }
    assert forall|c: u32| g.valid_cluster(c) && q.contains(c) implies allocated(
        #[trigger] raw_entry(u.img, g, c),
    ) by {
        assert(allocated(raw_entry(mid.img, g, c)));
    }
    assert forall|c: u32| g.valid_cluster(c) implies marked(#[trigger] raw_entry(w.img, g, c)) == (
    marked(raw_entry(u.img, g, c)) || q.contains(c)) && (!q.contains(c) ==> raw_entry(w.img, g, c)
        == raw_entry(u.img, g, c)) && unmarked(raw_entry(w.img, g, c)) == unmarked(
        raw_entry(u.img, g, c),
    ) by {
        assert(raw_entry(mid.img, g, c) == raw_entry(u.img, g, c));
    }
    assert forall|i: int| is_slot(g, path, i) && pos + 32 <= i implies #[trigger] slot(
        g,
        w.img,
        path,
        i,
    ) == slot(g, u.img, path, i) by {
        assert(slot(g, mid.img, path, i) == slot(g, u.img, path, i));
    }
    assert forall|c: u32| g.valid_cluster(c) && !path.contains(c) implies #[trigger] cluster_kept(
        g,
        u.img,
        w.img,
        c,
    ) by {
        assert(cluster_kept(g, u.img, mid.img, c));
        assert(cluster_kept(g, mid.img, w.img, c));
    }
}

/// What is known of a settled entry when the second walk looks at it.
proof fn lemma_settled_facts(
    g: Geometry,
    mode: RepairMode,
    v: Vol,
    b: Vol,
    f: Seq<u8>,
    u: Vol,
    path: Seq<u32>,
    cur: Cursor,
    frame: DirFrame,
    lfn: LfnRun,
    lu: LfnRun,
    visit: Visit,
    q: Seq<u32>,
)
    requires
        thorough(mode),
        visited_twice(g, v, b, f, u, path, cur, frame, lfn, lu, visit, q),
        is_short(slot(g, v.img, path, cur.pos as int)),
        !is_deleted(slot(g, b.img, path, cur.pos as int)),
    ensures
        ({
            let p = cur.pos as int;
            let e = slot(g, v.img, path, p);
            let x = slot(g, f, path, p);
            let down = match visit {
                Visit::Descend(c) => Some(c),
                _ => None,
            };
            &&& x == slot(g, b.img, path, p)
            &&& entry_under(u.img, g, cur) == x
            &&& is_short(x)
            &&& short_name(x) == short_name(e) || b.stats.entries_recovered == bump(
                v.stats.entries_recovered,
            )
            &&& visit is Descend || visit == Visit::Next(LfnRun { start: None, ..lfn })
            &&& if dot_name(short_name(x)) {
                &&& cluster_field(x) == dot_target(frame, x)
                &&& q.len() == 0
                &&& down is None
            } else if is_label(x) {
                &&& !name_corrupted(short_name(x))
                &&& q.len() == 0
                &&& down is None
            } else {
                entry_settled(g, v.img, b.img, x, q, down)
            }
            &&& q.len() > 0 ==> chain_ready(g, v.img, u.img, q) && !path.contains(q[0])
            &&& q.len() == 0 ==> leads_nowhere(g, u.img, x)
        }),
{
    let p = cur.pos as int;
    let e = slot(g, v.img, path, p);
    let now = slot(g, b.img, path, p);
    lemma_slot_again(g, v, f, u, path, cur);
    lemma_position(g, v.img.len(), path, p);
    assert(head_settled(e, now));
    assert(slot(g, f, path, p) == now);
    if head(now) == head(e) {
        lemma_head(now, e);
    } else {
        assert(short_name(now)[0] == now[0]);
    }
    if q.len() > 0 {
        lemma_chain_ready(g, v, b.img, f, u, path, q);
        lemma_paths_disjoint(g, v.img, path, q);
        assert(!path.contains(q[0]));
    } else if !dot_name(short_name(now)) && !is_label(now) && first_cluster(now) is Some {
        let start = first_cluster(now)->0;
        assert(entry_settled(g, v.img, b.img, now, q, None));
        assert(g.valid_cluster(start) && dead_end(g, v.img, start));
        assert(!starts_directory(v.img, g, start));
        assert(!starts_directory(b.img, g, start));
        assert(!starts_directory(f, g, start));
        if marked(raw_entry(v.img, g, start)) {
            assert(marked(raw_entry(u.img, g, start)));
        } else {
            assert(raw_entry(b.img, g, start) == raw_entry(v.img, g, start));
            assert(raw_entry(f, g, start) == raw_entry(b.img, g, start));
            assert(!allocated(raw_entry(u.img, g, start)));
        }
    }
}

/// The second look at a settled entry, behind what was made of the long name in front of it.
proof fn lemma_look_behind(
    g: Geometry,
    mode: RepairMode,
    v: Vol,
    b: Vol,
    f: Seq<u8>,
    u: Vol,
    mid: Vol,
    path: Seq<u32>,
    lo: int,
    cur: Cursor,
    frame: DirFrame,
    run_start: u32,
    x: Seq<u8>,
    lu: LfnRun,
    q: Seq<u32>,
    down: Option<u32>,
)
    requires
        g.wf(f.len()),
        mode.marks(),
        owned(g, v.img, path),
        replays(g, v, f, u),
        same_slots(g, f, u.img, path, cur.pos as int, no_end()),
        b.img.len() == v.img.len(),
        claims(g, v.img, b.img, q),
        b.stats.dirs_skipped == v.stats.dirs_skipped,
        lo <= cur.pos,
        only_slots(g, path, lo, cur.pos as int, u.img, mid.img),
        no_new_dirs(g, u.img, mid.img),
        same_fat(g, u.img, mid.img),
        silent(u.stats, mid.stats),
        mid.stats.dirs_skipped == u.stats.dirs_skipped,
        mid.stats.entries_removed <= b.stats.entries_recovered,
        if dot_name(short_name(x)) {
            &&& cluster_field(x) == dot_target(frame, x)
            &&& q.len() == 0
            &&& down is None
        } else if is_label(x) {
            &&& !name_corrupted(short_name(x))
            &&& q.len() == 0
            &&& down is None
        } else {
            entry_settled(g, v.img, b.img, x, q, down)
        },
        q.len() > 0 ==> chain_ready(g, v.img, mid.img, q),
        q.len() == 0 ==> leads_nowhere(g, mid.img, x),
    ensures
        ({
            let (w, res) = short_entry_visited(g, mid, frame, cur, run_start, x, lu, mode);
            &&& res matches Ok(again) && again == match down {
                Some(c) => Visit::Descend(c),
                None => Visit::Next(LfnRun { start: None, ..lu }),
            }
            &&& silent(u.stats, w.stats)
            &&& values_kept(g, u.img, w.img)
            &&& replays(g, b, f, w)
            &&& same_slots(g, f, w.img, path, cur.pos + 32, no_end())
        }),
{
    let p = cur.pos as int;
    lemma_short_again(g, mode, v.img, b.img, mid, frame, cur, run_start, x, lu, q, down);
    let w = short_entry_visited(g, mid, frame, cur, run_start, x, lu, mode).0;
    lemma_repeated_behind(g, path, lo, p, b, u, mid, w, q);
    lemma_replays_on(g, path, p, v, b, f, u, w, q);
}

/// A short-name entry that was settled, and still has its long name, or has none.
proof fn lemma_settled_with_run(
    g: Geometry,
    mode: RepairMode,
    v: Vol,
    b: Vol,
    f: Seq<u8>,
    u: Vol,
    path: Seq<u32>,
    cur: Cursor,
    frame: DirFrame,
    lfn: LfnRun,
    lu: LfnRun,
    visit: Visit,
    q: Seq<u32>,
)
    requires
        thorough(mode),
        visited_twice(g, v, b, f, u, path, cur, frame, lfn, lu, visit, q),
        is_short(slot(g, v.img, path, cur.pos as int)),
        !is_deleted(slot(g, b.img, path, cur.pos as int)),
        lu.start is None || run_matches(lu, short_name(slot(g, f, path, cur.pos as int))),
    ensures
        visit_repeats(g, mode, b, f, u, path, cur, frame, lu, visit),
{
    reveal(entry_visited);
    let p = cur.pos as int;
    let x = slot(g, f, path, p);
    let down = match visit {
        Visit::Descend(c) => Some(c),
        _ => None,
    };
    lemma_settled_facts(g, mode, v, b, f, u, path, cur, frame, lfn, lu, visit, q);
    let run_start = match lu.start {
        Some(start) => start,
        None => cur.pos,
    };
    lemma_look_behind(g, mode, v, b, f, u, u, path, p, cur, frame, run_start, x, lu, q, down);
    assert(entry_visited(g, u, frame, cur, lu, mode) == short_entry_visited(
        g,
        u,
        frame,
        cur,
        run_start,
        x,
        lu,
        mode,
    ));
}

/// What removing the long name in front of an entry that was settled under another name does.
#[verifier::spinoff_prover]
#[verifier::rlimit(30)]
proof fn lemma_long_name_goes(
    g: Geometry,
    mode: RepairMode,
    v: Vol,
    b: Vol,
    f: Seq<u8>,
    u: Vol,
    path: Seq<u32>,
    cur: Cursor,
    frame: DirFrame,
    lfn: LfnRun,
    lu: LfnRun,
    visit: Visit,
    q: Seq<u32>,
)
    requires
        thorough(mode),
        visited_twice(g, v, b, f, u, path, cur, frame, lfn, lu, visit, q),
        is_short(slot(g, v.img, path, cur.pos as int)),
        !is_deleted(slot(g, b.img, path, cur.pos as int)),
        lu.start is Some,
        !run_matches(lu, short_name(slot(g, f, path, cur.pos as int))),
    ensures
        ({
            let start = lu.start->0;
            let (mid, done) = long_name_dropped(g, u, path[0], start, cur.pos, mode);
            &&& done is Ok
            &&& start <= cur.pos
            &&& only_slots(g, path, start as int, cur.pos as int, u.img, mid.img)
            &&& no_new_dirs(g, u.img, mid.img)
            &&& same_fat(g, u.img, mid.img)
            &&& silent(u.stats, mid.stats)
            &&& mid.stats.dirs_skipped == u.stats.dirs_skipped
            &&& mid.stats.entries_removed <= b.stats.entries_recovered
        }),
{
    let p = cur.pos as int;
    lemma_settled_facts(g, mode, v, b, f, u, path, cur, frame, lfn, lu, visit, q);
    lemma_run_at_settled(g, mode, v, b, f, u, path, cur, frame, lfn, lu, visit, q);
    lemma_on_path(g, v.img.len(), path, cur);
    let start = lu.start->0;
    assert(start % DIR_ENTRY_SIZE == 0 && start < p);
    lemma_run_deleted(g, mode, u, path, start, p, RepairMode::long_names());
    let mid = long_name_dropped(g, u, path[0], start, cur.pos, mode).0;
    lemma_deleted_start_nothing(g, path, start as int, p, u.img, mid.img);
}

/// A short-name entry that was settled under another name, and now loses its long one.
proof fn lemma_settled_without_run(
    g: Geometry,
    mode: RepairMode,
    v: Vol,
    b: Vol,
    f: Seq<u8>,
    u: Vol,
    path: Seq<u32>,
    cur: Cursor,
    frame: DirFrame,
    lfn: LfnRun,
    lu: LfnRun,
    visit: Visit,
    q: Seq<u32>,
)
    requires
        thorough(mode),
        visited_twice(g, v, b, f, u, path, cur, frame, lfn, lu, visit, q),
        is_short(slot(g, v.img, path, cur.pos as int)),
        !is_deleted(slot(g, b.img, path, cur.pos as int)),
        lu.start is Some,
        !run_matches(lu, short_name(slot(g, f, path, cur.pos as int))),
    ensures
        visit_repeats(g, mode, b, f, u, path, cur, frame, lu, visit),
{
    reveal(entry_visited);
    let p = cur.pos as int;
    let x = slot(g, f, path, p);
    let down = match visit {
        Visit::Descend(c) => Some(c),
        _ => None,
    };
    lemma_settled_facts(g, mode, v, b, f, u, path, cur, frame, lfn, lu, visit, q);
    lemma_long_name_goes(g, mode, v, b, f, u, path, cur, frame, lfn, lu, visit, q);
    let start = lu.start->0;
    let mid = long_name_dropped(g, u, path[0], start, cur.pos, mode).0;
    if q.len() > 0 {
        lemma_chain_still_ready(g, path, start as int, p, v.img, u.img, mid.img, q);
    }
    lemma_look_behind(
        g,
        mode,
        v,
        b,
        f,
        u,
        mid,
        path,
        start as int,
        cur,
        frame,
        cur.pos,
        x,
        lu,
        q,
        down,
    );
    assert(entry_visited(g, u, frame, cur, lu, mode) == short_entry_visited(
        g,
        mid,
        frame,
        cur,
        cur.pos,
        x,
        lu,
        mode,
    ));
}

/// The second walk repeats every visit of the first one, and finds nothing wrong but the long names of entries that
/// were renamed.
pub proof fn lemma_visit_again(
    g: Geometry,
    mode: RepairMode,
    v: Vol,
    b: Vol,
    f: Seq<u8>,
    u: Vol,
    path: Seq<u32>,
    cur: Cursor,
    frame: DirFrame,
    lfn: LfnRun,
    lu: LfnRun,
    visit: Visit,
    q: Seq<u32>,
)
    requires
        thorough(mode),
        visited_twice(g, v, b, f, u, path, cur, frame, lfn, lu, visit, q),
    ensures
        visit_repeats(g, mode, b, f, u, path, cur, frame, lu, visit),
{
    let p = cur.pos as int;
    let e = slot(g, v.img, path, p);
    lemma_on_path(g, v.img.len(), path, cur);
    if is_end(e) {
        lemma_end_again(g, mode, v, b, f, u, path, cur, frame, lfn, lu, visit, q);
    } else if is_deleted(e) {
        lemma_deleted_again(g, mode, v, b, f, u, path, cur, frame, lfn, lu, visit, q);
    } else if is_lfn(e) {
        lemma_long_again(g, mode, v, b, f, u, path, cur, frame, lfn, lu, visit, q);
    } else if is_deleted(slot(g, b.img, path, p)) {
        lemma_settled_not_deleted(g, mode, v, b, f, u, path, cur, frame, lfn, lu, visit, q);
        lemma_removed_again(g, mode, v, b, f, u, path, cur, frame, lfn, lu, visit, q);
    } else if lu.start is None || run_matches(lu, short_name(slot(g, f, path, p))) {
        lemma_settled_with_run(g, mode, v, b, f, u, path, cur, frame, lfn, lu, visit, q);
    } else {
        lemma_settled_without_run(g, mode, v, b, f, u, path, cur, frame, lfn, lu, visit, q);
    }
}

/// An entry that is deleted after its visit was not settled.
proof fn lemma_settled_not_deleted(
    g: Geometry,
    mode: RepairMode,
    v: Vol,
    b: Vol,
    f: Seq<u8>,
    u: Vol,
    path: Seq<u32>,
    cur: Cursor,
    frame: DirFrame,
    lfn: LfnRun,
    lu: LfnRun,
    visit: Visit,
    q: Seq<u32>,
)
    requires
        thorough(mode),
        visited_twice(g, v, b, f, u, path, cur, frame, lfn, lu, visit, q),
        is_short(slot(g, v.img, path, cur.pos as int)),
        is_deleted(slot(g, b.img, path, cur.pos as int)),
    ensures
        q.len() == 0,
        visit == Visit::Next(LfnRun { start: None, ..lfn }),
        all_deleted(g, b.img, path, run_base(lfn, cur.pos as int), cur.pos + 32),
{
    let p = cur.pos as int;
    let e = slot(g, v.img, path, p);
    let now = slot(g, b.img, path, p);
    lemma_on_path(g, v.img.len(), path, cur);
    lemma_position(g, v.img.len(), path, p);
    if head_settled(e, now) {
        if head(now) == head(e) {
            lemma_head(now, e);
        } else {
            assert(short_name(now)[0] == now[0]);
        }
    }
}

} // verus!
