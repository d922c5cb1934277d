//! Following one cluster chain.

use vstd::prelude::*;

use crate::bounded::{entry_stays, fat_bounded, fat_stays, lemma_bounded_self, lemma_bounded_write};
use crate::error::{fails_only_by_device, Error};
use crate::fat::{
    classify, entries_agree, entry_of, is_visited, lemma_put_entry, marked, only_fat_changed, put_entry, put_value,
    raw_entry, read_fat_raw, slack_kept, with_value, write_fat_raw, write_fat_value, FatEntry, FAT32_EOC,
    FAT32_VISITED_BIT,
};
use crate::geometry::Geometry;
use crate::halting::{but_torn, chain_stopped, entry_stopped, marking_stopped, Torn};
use crate::kept::{allocated, lemma_ended, lemma_follow_sound};
use crate::mode::RepairMode;
use crate::model::{state, Vol};
use crate::stats::{bump, count_one, RepairStats};
use crate::storage::Storage;
use crate::volume::Volume;

verus! {

/// Outcome of following one cluster chain.
#[derive(Clone, Copy, Debug, PartialEq, Eq, Structural)]
pub struct ChainScan {
    /// Clusters that are genuinely part of the chain.
    pub clusters: u32,
    /// The chain was cut short: whatever followed was not the chain's to keep.
    pub truncated: bool,
    /// It was cut short because another file had already claimed the cluster.
    pub cross_linked: bool,
}

/// The clusters of a chain, in order, and how it ends.
pub struct Walk {
    pub path: Seq<u32>,
    pub truncated: bool,
    pub cross_linked: bool,
}

/// The chain that runs through `taken` and goes on at cluster `c`.
///
/// It ends in front of a cluster that it has been through already, that is free or bad or, when marking, that another
/// chain has claimed. It ends behind a cluster that is marked as its last one, that links out of the volume, or that
/// makes it as long as `limit` or as the volume.
pub open spec fn follow(
    img: Seq<u8>,
    g: Geometry,
    c: u32,
    taken: Seq<u32>,
    limit: Option<u32>,
    marking: bool,
) -> Walk
    decreases g.total_clusters - taken.len(),
{
    let raw = raw_entry(img, g, c);
    let entry = entry_of(raw);
    if taken.contains(c) {
        Walk { path: taken, truncated: true, cross_linked: false }
    } else if marking && marked(raw) {
        Walk { path: taken, truncated: true, cross_linked: true }
    } else if entry is Free || entry is Bad {
        Walk { path: taken, truncated: true, cross_linked: false }
    } else {
        let path = taken.push(c);
        if limit is Some && path.len() >= limit->0 {
            Walk { path, truncated: !(entry is EndOfChain), cross_linked: false }
        } else if path.len() >= g.total_clusters {
            Walk { path, truncated: !(entry is EndOfChain), cross_linked: false }
        } else {
            match entry {
                FatEntry::Data(next) => if g.valid_cluster(next) {
                    follow(img, g, next, path, limit, marking)
                } else {
                    Walk { path, truncated: true, cross_linked: false }
                },
                _ => Walk { path, truncated: false, cross_linked: false },
            }
        }
    }
}

/// The chain that starts at `start`. With a limit of none there is no cluster in it.
pub open spec fn chain_from(
    img: Seq<u8>,
    g: Geometry,
    start: u32,
    limit: Option<u32>,
    marking: bool,
) -> Walk {
    if g.valid_cluster(start) && limit != Some(0u32) {
        follow(img, g, start, Seq::empty(), limit, marking)
    } else {
        Walk { path: Seq::empty(), truncated: true, cross_linked: false }
    }
}

/// The image with the clusters of `path` marked as reached.
pub open spec fn path_marked(img: Seq<u8>, g: Geometry, path: Seq<u32>) -> Seq<u8>
    decreases path.len(),
{
    if path.len() == 0 {
        img
    } else {
        put_entry(
            path_marked(img, g, path.drop_last()),
            g,
            path.last(),
            raw_entry(img, g, path.last()) | FAT32_VISITED_BIT,
        )
    }
}

/// What a scan found, as a report of its own.
pub open spec fn scan_of(walk: Walk) -> ChainScan {
    ChainScan {
        clusters: walk.path.len() as u32,
        truncated: walk.truncated,
        cross_linked: walk.cross_linked,
    }
}

/// Whether the FAT is to end the chain of `walk` where the walk did: the mode repairs chains, or it keeps apart what
/// more than one chain claims.
pub open spec fn ends_chain(walk: Walk, mode: RepairMode) -> bool {
    walk.truncated && (mode.applies(RepairMode::chains()) || (walk.cross_linked && mode.marks()))
}

/// The image after the chain of `walk` was scanned: marked where the mode calls for it, and ended where it was cut.
pub open spec fn chain_repaired(img: Seq<u8>, g: Geometry, walk: Walk, mode: RepairMode) -> Seq<u8> {
    let reached = if mode.marks() {
        path_marked(img, g, walk.path)
    } else {
        img
    };
    if ends_chain(walk, mode) && walk.path.len() > 0 {
        put_value(reached, g, walk.path.last(), FAT32_EOC)
    } else {
        reached
    }
}

/// The report after a chain was scanned.
pub open spec fn chain_counted(stats: RepairStats, walk: Walk) -> RepairStats {
    if !walk.truncated {
        stats
    } else if walk.cross_linked {
        RepairStats {
            chains_truncated: bump(stats.chains_truncated),
            cross_links_resolved: bump(stats.cross_links_resolved),
            ..stats
        }
    } else {
        RepairStats { chains_truncated: bump(stats.chains_truncated), ..stats }
    }
}

/// The state after the chain from `start` was scanned.
pub open spec fn chain_scanned(
    g: Geometry,
    v: Vol,
    start: u32,
    limit: Option<u32>,
    mode: RepairMode,
) -> Vol {
    if g.valid_cluster(start) {
        let walk = chain_from(v.img, g, start, limit, mode.marks());
        Vol {
            img: chain_repaired(v.img, g, walk, mode),
            stats: chain_counted(v.stats, walk),
        }
    } else {
        v
    }
}

/// A chain is made of clusters of the volume, and is never longer than the volume.
pub proof fn lemma_follow_bounds(
    img: Seq<u8>,
    g: Geometry,
    c: u32,
    taken: Seq<u32>,
    limit: Option<u32>,
    marking: bool,
)
    requires
        g.valid_cluster(c),
        taken.len() < g.total_clusters,
        forall|i: int| 0 <= i < taken.len() ==> #[trigger] g.valid_cluster(taken[i]),
    ensures
        follow(img, g, c, taken, limit, marking).path.len() <= g.total_clusters,
        forall|i: int|
            0 <= i < follow(img, g, c, taken, limit, marking).path.len()
                ==> #[trigger] g.valid_cluster(follow(img, g, c, taken, limit, marking).path[i]),
    decreases g.total_clusters - taken.len(),
{
    let path = taken.push(c);
    assert forall|i: int| 0 <= i < path.len() implies #[trigger] g.valid_cluster(path[i]) by {
        if i < taken.len() {
            assert(g.valid_cluster(taken[i]));
        }
    }
    if path.len() < g.total_clusters {
        if let FatEntry::Data(next) = entry_of(raw_entry(img, g, c)) {
            if g.valid_cluster(next) {
                lemma_follow_bounds(img, g, next, path, limit, marking);
            }
        }
    }
}

/// A chain is made of clusters of the volume, and is never longer than the volume.
pub proof fn lemma_chain_bounds(
    img: Seq<u8>,
    g: Geometry,
    start: u32,
    limit: Option<u32>,
    marking: bool,
)
    requires
        1 <= g.total_clusters,
    ensures
        chain_from(img, g, start, limit, marking).path.len() <= g.total_clusters,
        forall|i: int|
            0 <= i < chain_from(img, g, start, limit, marking).path.len()
                ==> #[trigger] g.valid_cluster(chain_from(img, g, start, limit, marking).path[i]),
{
    if g.valid_cluster(start) {
        lemma_follow_bounds(img, g, start, Seq::empty(), limit, marking);
    }
}

/// A chain keeps what it has taken.
pub proof fn lemma_follow_extends(
    img: Seq<u8>,
    g: Geometry,
    c: u32,
    taken: Seq<u32>,
    limit: Option<u32>,
    marking: bool,
)
    ensures
        taken.is_prefix_of(follow(img, g, c, taken, limit, marking).path),
    decreases g.total_clusters - taken.len(),
{
    let path = taken.push(c);
    assert(taken.is_prefix_of(path));
    if path.len() < g.total_clusters {
        if let FatEntry::Data(next) = entry_of(raw_entry(img, g, c)) {
            if g.valid_cluster(next) {
                lemma_follow_extends(img, g, next, path, limit, marking);
                let whole = follow(img, g, next, path, limit, marking).path;
                assert(taken.is_prefix_of(whole)) by {
                    assert(taken =~= whole.subrange(0, taken.len() as int));
                }
            }
        }
    }
}

/// There is nothing in a chain whose first cluster is free, bad or claimed, and something in any other.
pub proof fn lemma_chain_begins(
    img: Seq<u8>,
    g: Geometry,
    start: u32,
    limit: Option<u32>,
    marking: bool,
)
    requires
        g.valid_cluster(start),
        limit != Some(0u32),
    ensures
        chain_from(img, g, start, limit, marking).path.len() == 0 <==> {
            let raw = raw_entry(img, g, start);
            (marking && marked(raw)) || entry_of(raw) is Free || entry_of(raw) is Bad
        },
{
    let path = Seq::<u32>::empty().push(start);
    if let FatEntry::Data(next) = entry_of(raw_entry(img, g, start)) {
        lemma_follow_extends(img, g, next, path, limit, marking);
    }
}

/// What marking does to the FAT: the entries of the path get the marker, and nothing outside the FAT changes.
pub proof fn lemma_path_marked(img: Seq<u8>, g: Geometry, path: Seq<u32>)
    requires
        g.wf(img.len()),
        forall|i: int| 0 <= i < path.len() ==> #[trigger] g.valid_cluster(path[i]),
    ensures
        only_fat_changed(g, img, path_marked(img, g, path)),
        slack_kept(g, img, path_marked(img, g, path)),
        forall|b: u32|
            b < g.fat_entries() ==> #[trigger] raw_entry(path_marked(img, g, path), g, b)
                == if path.contains(b) {
                raw_entry(img, g, b) | FAT32_VISITED_BIT
            } else {
                raw_entry(img, g, b)
            },
    decreases path.len(),
{
    if path.len() > 0 {
        let front = path.drop_last();
        let c = path.last();
        assert forall|i: int| 0 <= i < front.len() implies #[trigger] g.valid_cluster(
            front[i],
        ) by {
            assert(g.valid_cluster(path[i]));
        }
        assert(g.valid_cluster(path[path.len() - 1]));
        lemma_path_marked(img, g, front);
        lemma_put_entry(path_marked(img, g, front), g, c, raw_entry(img, g, c) | FAT32_VISITED_BIT);
        assert forall|b: u32| path.contains(b) == (front.contains(b) || b == c) by {
            if path.contains(b) {
                let i = choose|i: int| 0 <= i < path.len() && path[i] == b;
                if i < front.len() {
                    assert(front[i] == b);
                }
            }
            if front.contains(b) {
                let i = choose|i: int| 0 <= i < front.len() && front[i] == b;
                assert(path[i] == b);
            }
            assert(path[path.len() - 1] == c);
        }
    }
}

/// A marked entry is marked, and says the same about its cluster.
pub proof fn lemma_marked(raw: u32)
    ensures
        marked(raw | FAT32_VISITED_BIT),
        entry_of(raw | FAT32_VISITED_BIT) == entry_of(raw),
{
    assert((raw | 0x1000_0000u32) & 0x1000_0000u32 != 0 && (raw | 0x1000_0000u32) & 0x0FFF_FFFFu32
        == raw & 0x0FFF_FFFFu32) by (bit_vector);
}

/// Whether `path` is a way along the links from `start`.
#[verifier::opaque]
pub open spec fn is_way(img: Seq<u8>, g: Geometry, start: u32, path: Seq<u32>) -> bool {
    &&& path.len() > 0 ==> path[0] == start
    &&& forall|i: int| 0 <= i < path.len() ==> #[trigger] g.valid_cluster(path[i])
    &&& forall|i: int|
        0 < i < path.len() ==> entry_of(raw_entry(img, g, path[i - 1])) == FatEntry::Data(
            #[trigger] path[i],
        )
}

/// Whether no way along the links from `start` comes to a cluster twice.
#[verifier::opaque]
pub open spec fn straight(img: Seq<u8>, g: Geometry, start: u32) -> bool {
    forall|path: Seq<u32>| #[trigger] is_way(img, g, start, path) ==> path.no_duplicates()
}

/// Whether every way of `count` clusters along the links from `start` holds cluster `c`, or, when `held` is false,
/// none does.
#[verifier::opaque]
pub open spec fn way_holds(img: Seq<u8>, g: Geometry, start: u32, count: nat, c: u32, held: bool) -> bool {
    forall|path: Seq<u32>|
        path.len() == count && #[trigger] is_way(img, g, start, path) ==> held == path.contains(c)
}

/// Two ways along the links are the same as far as both go.
proof fn lemma_linked_same(img: Seq<u8>, g: Geometry, start: u32, a: Seq<u32>, b: Seq<u32>, i: int)
    requires
        is_way(img, g, start, a),
        is_way(img, g, start, b),
        0 <= i < a.len(),
        i < b.len(),
    ensures
        a[i] == b[i],
    decreases i,
{
    reveal(is_way);
    if i > 0 {
        lemma_linked_same(img, g, start, a, b, i - 1);
        assert(entry_of(raw_entry(img, g, a[i - 1])) == FatEntry::Data(a[i]));
        assert(entry_of(raw_entry(img, g, b[i - 1])) == FatEntry::Data(b[i]));
    }
}

/// Where a way comes back to a cluster it runs on as it did before.
pub proof fn lemma_linked_periodic(
    img: Seq<u8>,
    g: Geometry,
    start: u32,
    path: Seq<u32>,
    i: int,
    j: int,
    m: int,
)
    requires
        is_way(img, g, start, path),
        0 <= i < j,
        0 <= m,
        j + m < path.len(),
        path[i] == path[j],
    ensures
        path[i + m] == path[j + m],
    decreases m,
{
    reveal(is_way);
    if m > 0 {
        lemma_linked_periodic(img, g, start, path, i, j, m - 1);
        assert(entry_of(raw_entry(img, g, path[i + m - 1])) == FatEntry::Data(path[i + m]));
        assert(entry_of(raw_entry(img, g, path[j + m - 1])) == FatEntry::Data(path[j + m]));
    }
}

/// A way that comes to an end never comes to a cluster twice.
proof fn lemma_ended_distinct(img: Seq<u8>, g: Geometry, start: u32, path: Seq<u32>)
    requires
        is_way(img, g, start, path),
        path.len() > 0,
        entry_of(raw_entry(img, g, path.last())) matches FatEntry::Data(next) ==> !g.valid_cluster(
            next,
        ),
    ensures
        straight(img, g, start),
{
    reveal(is_way);
    reveal(straight);
    assert forall|i: int, j: int| 0 <= i < j < path.len() implies path[i] != path[j] by {
        if path[i] == path[j] {
            let m = path.len() - 1 - j;
            lemma_linked_periodic(img, g, start, path, i, j, m);
            assert(entry_of(raw_entry(img, g, path[i + m])) == FatEntry::Data(path[i + m + 1]));
            assert(g.valid_cluster(path[i + m + 1]));
        }
    }
    assert forall|other: Seq<u32>| #[trigger]
        is_way(img, g, start, other) implies other.no_duplicates() by {
        if other.len() > path.len() {
            let n = path.len() as int;
            lemma_linked_same(img, g, start, path, other, n - 1);
            assert(entry_of(raw_entry(img, g, other[n - 1])) == FatEntry::Data(other[n]));
            assert(g.valid_cluster(other[n]));
        }
        assert forall|i: int, j: int|
            0 <= i < other.len() && 0 <= j < other.len() && i != j implies other[i] != other[j] by {
            lemma_linked_same(img, g, start, path, other, i);
            lemma_linked_same(img, g, start, path, other, j);
        }
    }
}

/// What is known of a way, also behind markers, tells whether it comes back to where it has been.
proof fn lemma_way_taken(
    img: Seq<u8>,
    now: Seq<u8>,
    g: Geometry,
    start: u32,
    taken: Seq<u32>,
    c: u32,
)
    requires
        is_way(img, g, start, taken.push(c)),
        forall|b: u32|
            g.valid_cluster(b) ==> entry_of(#[trigger] raw_entry(now, g, b)) == entry_of(
                raw_entry(img, g, b),
            ),
    ensures
        straight(img, g, start) ==> !taken.contains(c),
        forall|held: bool| #[trigger]
            way_holds(now, g, start, taken.len(), c, held) ==> held == taken.contains(c),
{
    reveal(is_way);
    reveal(straight);
    reveal(way_holds);
    let path = taken.push(c);
    assert forall|i: int| 0 <= i < taken.len() implies #[trigger] g.valid_cluster(taken[i]) by {
        assert(g.valid_cluster(path[i]));
    }
    assert forall|i: int| 0 < i < taken.len() implies entry_of(raw_entry(now, g, taken[i - 1]))
        == FatEntry::Data(#[trigger] taken[i]) by {
        assert(entry_of(raw_entry(img, g, path[i - 1])) == FatEntry::Data(path[i]));
        assert(g.valid_cluster(path[i - 1]));
    }
    if taken.len() > 0 {
        assert(path[0] == taken[0]);
    }
    assert(is_way(now, g, start, taken));
    if path.no_duplicates() && taken.contains(c) {
        let i = choose|i: int| 0 <= i < taken.len() && taken[i] == c;
        assert(path[i] == path[taken.len() as int]);
    }
}

/// The next link makes a way longer.
pub proof fn lemma_way_grows(img: Seq<u8>, g: Geometry, start: u32, taken: Seq<u32>, next: u32)
    requires
        is_way(img, g, start, taken),
        taken.len() > 0,
        g.valid_cluster(next),
        entry_of(raw_entry(img, g, taken.last())) == FatEntry::Data(next),
    ensures
        is_way(img, g, start, taken.push(next)),
{
    reveal(is_way);
    let path = taken.push(next);
    assert forall|i: int| 0 <= i < path.len() implies #[trigger] g.valid_cluster(path[i]) by {
        if i < taken.len() {
            assert(g.valid_cluster(taken[i]));
        }
    }
    assert forall|i: int| 0 < i < path.len() implies entry_of(raw_entry(img, g, path[i - 1]))
        == FatEntry::Data(#[trigger] path[i]) by {
        if i < taken.len() {
            assert(taken[i] == path[i]);
        }
    }
}

/// Whether the links from `start` come to an end. If they do, no cluster comes up twice on the way.
fn chain_ends<S: Storage>(vol: &mut Volume<S>, start: u32) -> (res: Result<bool, Error<S::Error>>)
    requires
        old(vol).wf(),
        old(vol).geom.valid_cluster(start),
    ensures
        final(vol).continues(old(vol)),
        only_fat_changed(old(vol).geom, old(vol).image(), final(vol).image()),
        final(vol).image() == old(vol).image(),
        final(vol).torn() == old(vol).torn(),
        fails_only_by_device(res, old(vol).reliable()),
        res == Ok::<bool, Error<S::Error>>(true) ==> straight(
            old(vol).image(),
            old(vol).geom,
            start,
        ),
{
    let ghost img = vol.image();
    let ghost g = vol.geom;
    let ghost mut path: Seq<u32> = seq![start];
    let mut hops: u32 = vol.geom.total_clusters;
    let mut cluster: u32 = start;
    proof {
        reveal(is_way);
    }
    while hops > 0
        invariant
            old(vol).wf(),
            g == old(vol).geom,
            img == old(vol).image(),
            vol.continues(old(vol)),
            only_fat_changed(old(vol).geom, old(vol).image(), vol.image()),
            vol.image() == img,
            vol.torn() == old(vol).torn(),
            is_way(img, g, start, path),
            path.len() > 0,
            path.last() == cluster,
            g.valid_cluster(cluster),
        decreases hops,
    {
        let raw: u32 = read_fat_raw(vol, cluster)?;
        match classify(raw) {
            FatEntry::Data(next) => {
                if !vol.geom.is_valid_cluster(next) {
                    proof {
                        lemma_ended_distinct(img, g, start, path);
                    }
                    return Ok(true);
                }
                proof {
                    lemma_way_grows(img, g, start, path, next);
                    path = path.push(next);
                }
                cluster = next;
            },
            _ => {
                proof {
                    lemma_ended_distinct(img, g, start, path);
                }
                return Ok(true);
            },
        }
        hops = hops - 1;
    }
    Ok(false)
}

/// Whether `cluster` is one of the first `count` clusters along the links from `start`.
fn chain_holds<S: Storage>(vol: &mut Volume<S>, start: u32, count: u32, cluster: u32) -> (res: Result<
    bool,
    Error<S::Error>,
>)
    requires
        old(vol).wf(),
        old(vol).geom.valid_cluster(start),
    ensures
        final(vol).continues(old(vol)),
        only_fat_changed(old(vol).geom, old(vol).image(), final(vol).image()),
        final(vol).image() == old(vol).image(),
        final(vol).torn() == old(vol).torn(),
        fails_only_by_device(res, old(vol).reliable()),
        res matches Ok(held) ==> way_holds(
            old(vol).image(),
            old(vol).geom,
            start,
            count as nat,
            cluster,
            held,
        ),
{
    proof {
        reveal(is_way);
        reveal(way_holds);
    }
    let ghost img = vol.image();
    let ghost g = vol.geom;
    let mut seen: u32 = 0;
    let mut at: u32 = start;
    while seen < count
        invariant
            old(vol).wf(),
            g == old(vol).geom,
            img == old(vol).image(),
            vol.continues(old(vol)),
            only_fat_changed(old(vol).geom, old(vol).image(), vol.image()),
            vol.image() == img,
            vol.torn() == old(vol).torn(),
            g.valid_cluster(at),
            seen <= count,
            forall|path: Seq<u32>|
                path.len() == count && #[trigger] is_way(img, g, start, path) ==> (seen < count
                    ==> path[seen as int] == at) && forall|i: int|
                    0 <= i < seen ==> path[i] != cluster,
        decreases count - seen,
    {
        proof {
            reveal(is_way);
            reveal(way_holds);
        }
        if at == cluster {
            assert forall|path: Seq<u32>|
                path.len() == count && #[trigger] is_way(img, g, start, path) implies path.contains(
                cluster,
            ) by {
                assert(path[seen as int] == at);
            }
            return Ok(true);
        }
        let raw: u32 = read_fat_raw(vol, at)?;
        let ghost was = at;
        let next: u32 = match classify(raw) {
            FatEntry::Data(next) => next,
            _ => at,
        };
        if vol.geom.is_valid_cluster(next) {
            at = next;
        }
        proof {
            assert forall|path: Seq<u32>|
                path.len() == count && #[trigger] is_way(img, g, start, path) implies (seen + 1
                < count ==> path[seen + 1] == at) && forall|i: int|
                0 <= i < seen + 1 ==> path[i] != cluster by {
                assert(path[seen as int] == was);
                if seen + 1 < count {
                    assert(entry_of(raw_entry(img, g, path[(seen + 1) - 1])) == FatEntry::Data(
                        path[seen + 1],
                    ));
                    assert(g.valid_cluster(path[seen + 1]));
                }
            }
        }
        seen = seen + 1;
    }
    Ok(false)
}

/// Marking a chain is what a repair may do to the FAT.
proof fn lemma_taken_bounded(img: Seq<u8>, g: Geometry, taken: Seq<u32>, marking: bool, now: Seq<u8>)
    requires
        g.wf(img.len()),
        forall|i: int| 0 <= i < taken.len() ==> #[trigger] g.valid_cluster(taken[i]),
        now == if marking {
            path_marked(img, g, taken)
        } else {
            img
        },
    ensures
        fat_stays(g, img, now),
        forall|was: Seq<(int, int)>, torn: Seq<(int, int)>| #[trigger]
            fat_bounded(g, img, now, was, torn),
        forall|b: Seq<u8>, was: Seq<(int, int)>, torn: Seq<(int, int)>| #[trigger]
            entries_agree(g, now, b, was, torn) ==> fat_bounded(g, img, b, was, torn),
{
    lemma_path_marked(img, g, taken);
    assert forall|c: u32| g.valid_cluster(c) implies entry_stays(
        raw_entry(img, g, c),
        #[trigger] raw_entry(now, g, c),
    ) by {
        lemma_marked(raw_entry(img, g, c));
    }
    lemma_bounded_write(g, img, now);
}

/// Ending a chain at a cluster that is allocated is what a repair may do to the FAT.
proof fn lemma_cut_bounded(img: Seq<u8>, g: Geometry, now: Seq<u8>, last: u32)
    requires
        g.wf(img.len()),
        now.len() == img.len(),
        g.valid_cluster(last),
        allocated(raw_entry(img, g, last)),
        fat_stays(g, img, now),
    ensures
        fat_stays(g, img, put_value(now, g, last, FAT32_EOC)),
        forall|b: Seq<u8>, was: Seq<(int, int)>, torn: Seq<(int, int)>| #[trigger]
            entries_agree(g, put_value(now, g, last, FAT32_EOC), b, was, torn) ==> fat_bounded(
                g,
                img,
                b,
                was,
                torn,
            ),
        forall|was: Seq<(int, int)>, torn: Seq<(int, int)>| #[trigger]
            fat_bounded(g, img, put_value(now, g, last, FAT32_EOC), was, torn),
{
    reveal(fat_stays);
    let raw = raw_entry(now, g, last);
    let new = put_value(now, g, last, FAT32_EOC);
    lemma_ended(raw);
    lemma_put_entry(now, g, last, with_value(raw, FAT32_EOC));
    assert forall|c: u32| g.valid_cluster(c) implies entry_stays(
        raw_entry(img, g, c),
        #[trigger] raw_entry(new, g, c),
    ) by {
        assert(entry_stays(raw_entry(img, g, c), raw_entry(now, g, c)));
        assert(c == last || raw_entry(new, g, c) == raw_entry(now, g, c));
    }
    lemma_bounded_write(g, img, new);
}

/// A cluster that a chain comes to, and may take, is the next one of it.
proof fn lemma_follow_takes(
    img: Seq<u8>,
    g: Geometry,
    c: u32,
    taken: Seq<u32>,
    limit: Option<u32>,
    marking: bool,
)
    requires
        !taken.contains(c),
        !(marking && marked(raw_entry(img, g, c))),
        allocated(raw_entry(img, g, c)),
    ensures
        taken.push(c).is_prefix_of(follow(img, g, c, taken, limit, marking).path),
{
    let path = taken.push(c);
    if path.len() < g.total_clusters {
        if let FatEntry::Data(next) = entry_of(raw_entry(img, g, c)) {
            lemma_follow_extends(img, g, next, path, limit, marking);
        }
    }
}

/// Where the scan of a chain may stop on the way.
proof fn lemma_stops_on_the_way(
    img: Seq<u8>,
    g: Geometry,
    start: u32,
    limit: Option<u32>,
    mode: RepairMode,
    taken: Seq<u32>,
    now: Seq<u8>,
)
    requires
        mode.marks(),
        taken.is_prefix_of(chain_from(img, g, start, limit, true).path),
        now == path_marked(img, g, taken),
    ensures
        forall|t: Torn| #[trigger] chain_stopped(g, img, start, limit, mode, now, t),
        forall|b: Seq<u8>, t: Torn| #[trigger] but_torn(now, b, t) ==> chain_stopped(
            g,
            img,
            start,
            limit,
            mode,
            b,
            t,
        ),
        forall|b: Seq<u8>, t: Torn, c: u32, raw: u32|
            taken.push(c).is_prefix_of(chain_from(img, g, start, limit, true).path) && raw
                == raw_entry(img, g, c) | FAT32_VISITED_BIT && #[trigger] entry_stopped(
                g,
                now,
                c,
                raw,
                b,
                t,
            ) ==> chain_stopped(g, img, start, limit, mode, b, t),
{
    let path = chain_from(img, g, start, limit, true).path;
    let j = taken.len() as int;
    assert(path.take(j) =~= taken);
    assert forall|b: Seq<u8>, t: Torn| #[trigger] but_torn(now, b, t) implies chain_stopped(
        g,
        img,
        start,
        limit,
        mode,
        b,
        t,
    ) by {
        assert(marking_stopped(g, img, path, j, b, t));
    }
    assert forall|t: Torn| #[trigger] chain_stopped(g, img, start, limit, mode, now, t) by {
        assert(but_torn(now, now, t));
    }
    assert forall|b: Seq<u8>, t: Torn, c: u32, raw: u32|
        taken.push(c).is_prefix_of(path) && raw == raw_entry(img, g, c) | FAT32_VISITED_BIT
            && #[trigger] entry_stopped(g, now, c, raw, b, t) implies chain_stopped(
        g,
        img,
        start,
        limit,
        mode,
        b,
        t,
    ) by {
        assert(taken.push(c)[j] == c);
        assert(path[j] == c);
        assert(marking_stopped(g, img, path, j, b, t));
    }
}

/// Follow the chain from `start`, marking each cluster as reached when the mode calls for it.
///
/// Stops early, and ends the chain there, when the next link is free, bad, out of range, already claimed by something
/// else, back into the chain, or when `limit` clusters have been taken. Returns how many clusters the chain really has.
#[verifier::rlimit(40)]
#[verifier::spinoff_prover]
pub fn scan_chain<S: Storage>(
    vol: &mut Volume<S>,
    start: u32,
    limit: Option<u32>,
    mode: RepairMode,
    stats: &mut RepairStats,
) -> (res: Result<ChainScan, Error<S::Error>>)
    requires
        old(vol).wf(),
    ensures
        final(vol).continues(old(vol)),
        fat_bounded(
            old(vol).geom,
            old(vol).image(),
            final(vol).image(),
            old(vol).torn(),
            final(vol).torn(),
        ),
        res is Ok ==> final(vol).torn() == old(vol).torn(),
        final(vol).torn().len() <= old(vol).torn().len() + 1,
        res is Ok ==> fat_stays(old(vol).geom, old(vol).image(), final(vol).image()),
        only_fat_changed(old(vol).geom, old(vol).image(), final(vol).image()),
        res is Err ==> chain_stopped(
            old(vol).geom,
            old(vol).image(),
            start,
            limit,
            mode,
            final(vol).image(),
            final(vol).since(old(vol)),
        ),
        fails_only_by_device(res, old(vol).reliable()),
        !mode.writes() ==> final(vol).image() == old(vol).image(),
        res is Ok ==> state(final(vol), *final(stats)) == chain_scanned(
            old(vol).geom,
            state(old(vol), *old(stats)),
            start,
            limit,
            mode,
        ),
        res matches Ok(scan) ==> scan == scan_of(
            chain_from(old(vol).image(), old(vol).geom, start, limit, mode.marks()),
        ),
{
    proof {
        lemma_bounded_self(vol.geom, vol.image());
    }
    let mut scan = ChainScan { clusters: 0, truncated: false, cross_linked: false };
    if !vol.geom.is_valid_cluster(start) {
        scan.truncated = true;
        return Ok(scan);
    }
    // The size field says that there is no chain.
    if let Some(0) = limit {
        scan.truncated = true;
        count_one(&mut stats.chains_truncated);
        return Ok(scan);
    }
    // No chain can be longer than the volume's cluster count. One that seems to be is damaged.
    let max_hops: u32 = vol.geom.total_clusters;
    let marking: bool = mode.marks();
    // Markers show where a chain has been. Without them, one that does not come to an end has to be watched.
    let watched: bool = if marking {
        false
    } else {
        let ends: bool = chain_ends(vol, start)?;
        !ends
    };
    let ghost img = vol.image();
    let ghost g = vol.geom;
    let ghost whole = chain_from(img, g, start, limit, marking);
    let ghost mut taken: Seq<u32> = Seq::empty();
    let mut cluster: u32 = start;
    let mut prev: Option<u32> = None;
    let mut running: bool = true;
    assert(is_way(img, g, start, taken.push(cluster))) by {
        reveal(is_way);
    }
    while running
        invariant
            old(vol).wf(),
            g == old(vol).geom,
            img == old(vol).image(),
            *stats == *old(stats),
            marking == mode.marks(),
            max_hops == g.total_clusters,
            whole == chain_from(img, g, start, limit, marking),
            limit != Some(0u32),
            g.valid_cluster(start),
            running ==> is_way(img, g, start, taken.push(cluster)),
            !marking && !watched ==> straight(img, g, start),
            marking ==> !watched,
            g.valid_cluster(cluster),
            vol.continues(old(vol)),
            vol.torn() == old(vol).torn(),
            only_fat_changed(old(vol).geom, old(vol).image(), vol.image()),
            vol.image() == if marking {
                path_marked(img, g, taken)
            } else {
                img
            },
            forall|i: int| 0 <= i < taken.len() ==> #[trigger] g.valid_cluster(taken[i]),
            scan.clusters == taken.len(),
            taken.len() <= max_hops,
            running ==> taken.len() < max_hops,
            prev == if taken.len() == 0 {
                None
            } else {
                Some(taken.last())
            },
            running ==> whole == follow(img, g, cluster, taken, limit, marking) && !scan.truncated
                && !scan.cross_linked,
            !running ==> whole == (Walk {
                path: taken,
                truncated: scan.truncated,
                cross_linked: scan.cross_linked,
            }),
        decreases
                max_hops - scan.clusters + if running {
                    1int
                } else {
                    0
                },
    {
        proof {
            lemma_path_marked(img, g, taken);
            lemma_marked(raw_entry(img, g, cluster));
            lemma_taken_bounded(img, g, taken, marking, vol.image());
            if running {
                lemma_follow_extends(img, g, cluster, taken, limit, marking);
            }
            if marking {
                lemma_stops_on_the_way(img, g, start, limit, mode, taken, vol.image());
            }
        }
        let raw: u32 = read_fat_raw(vol, cluster)?;
        let claimed: bool = marking && is_visited(raw);
        proof {
            assert forall|b: u32| g.valid_cluster(b) implies entry_of(
                #[trigger] raw_entry(vol.image(), g, b),
            ) == entry_of(raw_entry(img, g, b)) by {
                lemma_marked(raw_entry(img, g, b));
            }
            lemma_way_taken(img, vol.image(), g, start, taken, cluster);
        }
        let looped: bool = if claimed || watched {
            chain_holds(vol, start, scan.clusters, cluster)?
        } else {
            false
        };
        if looped {
            // Back where it has been: a ring has no end of its own.
            scan.truncated = true;
            running = false;
        } else if claimed {
            // Already reached from somewhere else, so it is not ours.
            scan.truncated = true;
            scan.cross_linked = true;
            running = false;
        } else if classify(raw) == FatEntry::Free || classify(raw) == FatEntry::Bad {
            // A cluster the FAT calls free is not allocated to anybody, whatever the chain that led here says.
            scan.truncated = true;
            running = false;
        } else {
            if marking {
                proof {
                    let longer = taken.push(cluster);
                    assert(longer.drop_last() =~= taken);
                    assert forall|i: int| 0 <= i < longer.len() implies #[trigger] g.valid_cluster(
                        longer[i],
                    ) by {
                        if i < taken.len() {
                            assert(g.valid_cluster(taken[i]));
                        }
                    }
                    lemma_taken_bounded(img, g, longer, true, path_marked(img, g, longer));
                    lemma_follow_takes(img, g, cluster, taken, limit, marking);
                }
                write_fat_raw(vol, cluster, raw | FAT32_VISITED_BIT)?;
            }
            scan.clusters = scan.clusters + 1;
            prev = Some(cluster);
            proof {
                let longer = taken.push(cluster);
                assert(longer.drop_last() =~= taken);
                assert forall|i: int| 0 <= i < longer.len() implies #[trigger] g.valid_cluster(
                    longer[i],
                ) by {
                    if i < taken.len() {
                        assert(g.valid_cluster(taken[i]));
                    }
                }
                taken = longer;
            }
            let at_limit: bool = match limit {
                Some(max) => scan.clusters >= max,
                None => false,
            };
            if at_limit {
                // The size field says the chain ends here, so the rest is not part of it.
                if classify(raw) != FatEntry::EndOfChain {
                    scan.truncated = true;
                }
                running = false;
            } else if scan.clusters >= max_hops {
                if classify(raw) != FatEntry::EndOfChain {
                    scan.truncated = true;
                }
                running = false;
            } else {
                match classify(raw) {
                    FatEntry::Data(next) => {
                        if vol.geom.is_valid_cluster(next) {
                            proof {
                                lemma_way_grows(img, g, start, taken, next);
                            }
                            cluster = next;
                        } else {
                            // A link to cluster 0 or 1, or past the end of the volume: a half-written FAT entry.
                            scan.truncated = true;
                            running = false;
                        }
                    },
                    _ => {
                        running = false;
                    },
                }
            }
        }
    }
    proof {
        lemma_taken_bounded(img, g, taken, marking, vol.image());
    }
    if scan.truncated {
        if mode.applies(RepairMode::chains()) || (scan.cross_linked && marking) {
            if let Some(last) = prev {
                assert(g.valid_cluster(taken[taken.len() - 1]));
                proof {
                    lemma_follow_sound(img, g, start, Seq::empty(), limit, marking);
                    assert(whole.path[taken.len() - 1] == last);
                    assert(allocated(raw_entry(img, g, whole.path[taken.len() - 1])));
                    lemma_path_marked(img, g, taken);
                    lemma_cut_bounded(img, g, vol.image(), last);
                }
                write_fat_value(vol, last, FAT32_EOC)?;
            }
        }
        count_one(&mut stats.chains_truncated);
        if scan.cross_linked {
            count_one(&mut stats.cross_links_resolved);
        }
    }
    Ok(scan)
}

} // verus!
