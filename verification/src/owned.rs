//! Directories whose clusters a marking run has claimed, slot by slot.

use vstd::prelude::*;

use crate::bytes::splice;
use crate::chain::{chain_from, chain_scanned, follow, lemma_chain_bounds, lemma_marked, lemma_path_marked, path_marked};
use crate::chain_laws::{lemma_chain_linked, lemma_scanned_entries, linked};
use crate::dir::{
    at_last_offset, entry_at, entry_deleted, link_of, nth_cluster, place_after, place_at, Cursor, Link, Place,
};
use crate::dirent::{is_deleted, DIR_ENTRY_DELETED_FLAG};
use crate::entry::{entries_deleted, run_removed};
use crate::fat::{entry_of, lemma_put_entry, marked, only_fat_changed, raw_entry, with_value, FatEntry, FAT32_EOC};
use crate::geometry::{Geometry, DIR_ENTRY_SIZE};
use crate::kept::{allocated, cluster_kept, lemma_ended, lemma_follow_sound, lemma_same_fat, path_sound};
use crate::mode::RepairMode;
use crate::model::Vol;

verus! {

/// Whether `path` is a whole chain of `img`, without repetition: each cluster links to the next, and the last one ends
/// the chain.
pub open spec fn whole_chain(g: Geometry, img: Seq<u8>, path: Seq<u32>) -> bool {
    &&& path.len() > 0
    &&& path.no_duplicates()
    &&& forall|i: int| 0 <= i < path.len() ==> #[trigger] g.valid_cluster(path[i])
    &&& linked(img, g, path)
    &&& entry_of(raw_entry(img, g, path.last())) is EndOfChain
}

/// Whether every cluster of `path` carries the marker.
pub open spec fn all_marked(g: Geometry, img: Seq<u8>, path: Seq<u32>) -> bool {
    forall|i: int| 0 <= i < path.len() ==> marked(raw_entry(img, g, #[trigger] path[i]))
}

/// Whether no cluster of `path` carries the marker.
pub open spec fn none_marked(g: Geometry, img: Seq<u8>, path: Seq<u32>) -> bool {
    forall|i: int| 0 <= i < path.len() ==> !marked(raw_entry(img, g, #[trigger] path[i]))
}

/// Whether `path` is a whole chain that has been claimed.
pub open spec fn owned(g: Geometry, img: Seq<u8>, path: Seq<u32>) -> bool {
    whole_chain(g, img, path) && all_marked(g, img, path)
}

/// The size of what is on a path.
pub open spec fn path_size(g: Geometry, path: Seq<u32>) -> int {
    path.len() * g.cluster_size
}

/// Where on the device position `q` of a path is.
pub open spec fn place_on(g: Geometry, path: Seq<u32>, q: int) -> int {
    g.cluster_start(path[q / (g.cluster_size as int)] as int) + q % (g.cluster_size as int)
}

/// Whether `q` is the position of an entry on a path.
pub open spec fn is_slot(g: Geometry, path: Seq<u32>, q: int) -> bool {
    &&& 0 <= q < path_size(g, path)
    &&& q % 32 == 0
}

/// The entry at position `q` of a path.
pub open spec fn slot(g: Geometry, img: Seq<u8>, path: Seq<u32>, q: int) -> Seq<u8> {
    entry_at(img, place_on(g, path, q))
}

/// Whether `cur` is at an entry of a path.
pub open spec fn on_path(g: Geometry, path: Seq<u32>, cur: Cursor) -> bool {
    &&& cur.pos % DIR_ENTRY_SIZE == 0
    &&& cur.pos < path_size(g, path)
    &&& cur.cluster == path[cur.pos as int / g.cluster_size as int]
}

/// Where a position is: in which cluster, and that the entry there lies within the cluster.
pub proof fn lemma_position(g: Geometry, size: nat, path: Seq<u32>, q: int)
    requires
        g.wf(size),
        is_slot(g, path, q),
        forall|i: int| 0 <= i < path.len() ==> #[trigger] g.valid_cluster(path[i]),
    ensures
        ({
            let cs = g.cluster_size as int;
            let i = q / cs;
            &&& 0 <= i < path.len()
            &&& g.valid_cluster(path[i])
            &&& q == i * cs + q % cs
            &&& 0 <= q % cs <= cs - 32
            &&& (q % cs) % 32 == 0
            &&& g.cluster_start(path[i] as int) <= place_on(g, path, q)
            &&& place_on(g, path, q) + 32 <= g.cluster_start(path[i] as int) + cs
            &&& g.data_start <= place_on(g, path, q)
            &&& place_on(g, path, q) + 32 <= size
            &&& place_on(g, path, q) + 32 <= u64::MAX
        }),
{
    let cs = g.cluster_size as int;
    let n = path.len() as int;
    let i = q / cs;
    vstd::arithmetic::div_mod::lemma_fundamental_div_mod(q, cs);
    assert(cs * i == i * cs) by (nonlinear_arith);
    assert(0 <= i < n) by (nonlinear_arith)
        requires
            0 <= q < n * cs,
            cs > 0,
            i == q / cs,
    ;
    let m = cs / 32;
    assert(cs == 32 * m);
    vstd::arithmetic::div_mod::lemma_mod_mod(q, 32, m);
    assert(g.valid_cluster(path[i]));
    g.lemma_cluster_bounds(size, path[i] as int);
}

/// Different entries of a path do not overlap.
pub proof fn lemma_slots_disjoint(g: Geometry, size: nat, path: Seq<u32>, p: int, q: int)
    requires
        g.wf(size),
        is_slot(g, path, p),
        is_slot(g, path, q),
        p < q,
        path.no_duplicates(),
        forall|i: int| 0 <= i < path.len() ==> #[trigger] g.valid_cluster(path[i]),
    ensures
        place_on(g, path, p) + 32 <= place_on(g, path, q) || place_on(g, path, q) + 32 <= place_on(
            g,
            path,
            p,
        ),
{
    let cs = g.cluster_size as int;
    lemma_position(g, size, path, p);
    lemma_position(g, size, path, q);
    let i = p / cs;
    let j = q / cs;
    if i != j {
        assert(path[i] != path[j]);
        if path[i] < path[j] {
            g.lemma_clusters_disjoint(size, path[i] as int, path[j] as int);
        } else {
            g.lemma_clusters_disjoint(size, path[j] as int, path[i] as int);
        }
    }
}

/// A place on a path is a place of the volume, and the entry there is the one under the cursor.
pub proof fn lemma_on_path(g: Geometry, size: nat, path: Seq<u32>, cur: Cursor)
    requires
        g.wf(size),
        on_path(g, path, cur),
        forall|i: int| 0 <= i < path.len() ==> #[trigger] g.valid_cluster(path[i]),
    ensures
        is_slot(g, path, cur.pos as int),
        cur.wf(g),
        cur.offset(g) == place_on(g, path, cur.pos as int),
        path.contains(cur.cluster),
{
    lemma_position(g, size, path, cur.pos as int);
    assert(path[cur.pos as int / g.cluster_size as int] == cur.cluster);
}

/// The links of a whole chain.
pub proof fn lemma_links(g: Geometry, img: Seq<u8>, path: Seq<u32>, i: int)
    requires
        whole_chain(g, img, path),
        0 <= i < path.len(),
    ensures
        link_of(img, g, path[i]) == if i < path.len() - 1 {
            Link::To(path[i + 1])
        } else {
            Link::End
        },
        g.valid_cluster(path[i]),
{
    assert(g.valid_cluster(path[i]));
    if i < path.len() - 1 {
        assert(g.valid_cluster(path[i + 1]));
        assert(entry_of(raw_entry(img, g, path[i])) == FatEntry::Data(path[i + 1]));
    } else {
        assert(path[i] == path.last());
    }
}

/// Moving on along a path.
pub proof fn lemma_path_after(g: Geometry, img: Seq<u8>, path: Seq<u32>, cur: Cursor)
    requires
        g.wf(img.len()),
        whole_chain(g, img, path),
        on_path(g, path, cur),
    ensures
        match place_after(img, g, cur) {
            Place::At(next) => on_path(g, path, next) && next.pos == cur.pos + DIR_ENTRY_SIZE,
            Place::End => cur.pos + DIR_ENTRY_SIZE >= path_size(g, path),
            Place::Lost(_) => at_last_offset(cur.pos),
        },
{
    if !at_last_offset(cur.pos) {
        let cs = g.cluster_size as int;
        let n = path.len() as int;
        let p = cur.pos as int;
        let q = p + 32;
        lemma_position(g, img.len(), path, p);
        let i = p / cs;
        let r = p % cs;
        lemma_links(g, img, path, i);
        if r + 32 < cs {
            assert(q / cs == i && q % cs == r + 32) by (nonlinear_arith)
                requires
                    q == i * cs + (r + 32),
                    0 <= r + 32 < cs,
                    0 <= i,
            ;
            assert(i * cs + cs <= n * cs) by (nonlinear_arith)
                requires
                    0 <= i < n,
                    cs > 0,
            ;
            assert(((cur.pos + DIR_ENTRY_SIZE) as u32) % g.cluster_size != 0);
        } else {
            assert(r + 32 == cs);
            assert(q == (i + 1) * cs) by (nonlinear_arith)
                requires
                    q == i * cs + (r + 32),
                    r + 32 == cs,
            ;
            assert(q / cs == i + 1 && q % cs == 0) by (nonlinear_arith)
                requires
                    q == (i + 1) * cs,
                    cs > 0,
            ;
            assert(((cur.pos + DIR_ENTRY_SIZE) as u32) % g.cluster_size == 0);
            if i < n - 1 {
                assert((i + 1) * cs < n * cs) by (nonlinear_arith)
                    requires
                        i + 1 < n,
                        cs > 0,
                ;
            }
        }
    }
}

/// The clusters of a whole chain, by number.
pub proof fn lemma_nth_of_chain(g: Geometry, img: Seq<u8>, path: Seq<u32>, k: nat)
    requires
        whole_chain(g, img, path),
    ensures
        nth_cluster(img, g, path[0], k) == if k < path.len() {
            Link::To(path[k as int])
        } else {
            Link::End
        },
    decreases k,
{
    if k > 0 {
        lemma_nth_of_chain(g, img, path, (k - 1) as nat);
        if k - 1 < path.len() {
            lemma_links(g, img, path, k - 1);
        }
    }
}

/// A position of a directory, as a place on its path.
pub proof fn lemma_path_at(g: Geometry, img: Seq<u8>, path: Seq<u32>, pos: u32)
    requires
        g.wf(img.len()),
        whole_chain(g, img, path),
        pos % DIR_ENTRY_SIZE == 0,
    ensures
        match place_at(img, g, path[0], pos) {
            Place::At(cur) => on_path(g, path, cur) && cur.pos == pos,
            Place::End => pos >= path_size(g, path),
            Place::Lost(_) => false,
        },
{
    let cs = g.cluster_size as int;
    let n = path.len() as int;
    let k = (pos / g.cluster_size) as nat;
    lemma_nth_of_chain(g, img, path, k);
    let p = pos as int;
    vstd::arithmetic::div_mod::lemma_fundamental_div_mod(p, cs);
    let i = p / cs;
    let r = p % cs;
    assert(k == i);
    if i < n {
        assert(p < n * cs) by (nonlinear_arith)
            requires
                p == cs * i + r,
                0 <= r < cs,
                i < n,
        ;
    } else {
        assert(p >= n * cs) by (nonlinear_arith)
            requires
                p == cs * i + r,
                0 <= r,
                i >= n,
                cs > 0,
        ;
    }
}

/// Whether a position is not among those from `lo` to `hi`.
pub open spec fn outside(lo: int, hi: int, q: int) -> bool {
    q < lo || hi <= q
}

/// `b` differs from `a`, behind the FAT, at most in the entries of `path` from `lo` to `hi`.
pub open spec fn only_slots(g: Geometry, path: Seq<u32>, lo: int, hi: int, a: Seq<u8>, b: Seq<u8>) -> bool {
    &&& a.len() == b.len()
    &&& forall|q: int|
        is_slot(g, path, q) && outside(lo, hi, q) ==> #[trigger] slot(g, b, path, q) == slot(
            g,
            a,
            path,
            q,
        )
    &&& forall|c: u32| g.valid_cluster(c) && !path.contains(c) ==> #[trigger] cluster_kept(g, a, b, c)
}

/// `b` has the FAT of `a`.
pub open spec fn same_fat(g: Geometry, a: Seq<u8>, b: Seq<u8>) -> bool {
    forall|c: u32| g.valid_cluster(c) ==> #[trigger] raw_entry(b, g, c) == raw_entry(a, g, c)
}

/// What editing an entry of a path does.
pub proof fn lemma_slot_edit(
    g: Geometry,
    img: Seq<u8>,
    path: Seq<u32>,
    cur: Cursor,
    off: int,
    data: Seq<u8>,
)
    requires
        g.wf(img.len()),
        path.no_duplicates(),
        forall|i: int| 0 <= i < path.len() ==> #[trigger] g.valid_cluster(path[i]),
        on_path(g, path, cur),
        0 <= off,
        off + data.len() <= 32,
    ensures
        ({
            let b = splice(img, cur.offset(g) + off, data);
            let p = cur.pos as int;
            &&& only_slots(g, path, p, p + 32, img, b)
            &&& slot(g, b, path, p) == splice(slot(g, img, path, p), off, data)
            &&& same_fat(g, img, b)
        }),
{
    let b = splice(img, cur.offset(g) + off, data);
    let p = cur.pos as int;
    lemma_on_path(g, img.len(), path, cur);
    lemma_position(g, img.len(), path, p);
    g.lemma_copy_bounds(img.len(), 0);
    lemma_same_fat(g, img, b);
    assert forall|q: int| is_slot(g, path, q) && outside(p, p + 32, q) implies #[trigger] slot(
        g,
        b,
        path,
        q,
    ) == slot(g, img, path, q) by {
        lemma_position(g, img.len(), path, q);
        if q < p {
            lemma_slots_disjoint(g, img.len(), path, q, p);
        } else {
            lemma_slots_disjoint(g, img.len(), path, p, q);
        }
        assert(slot(g, b, path, q) =~= slot(g, img, path, q));
    }
    assert(slot(g, b, path, p) =~= splice(slot(g, img, path, p), off, data));
    assert forall|c: u32| g.valid_cluster(c) && !path.contains(c) implies #[trigger] cluster_kept(
        g,
        img,
        b,
        c,
    ) by {
        assert(c != cur.cluster);
        if c < cur.cluster {
            g.lemma_clusters_disjoint(img.len(), c as int, cur.cluster as int);
        } else {
            g.lemma_clusters_disjoint(img.len(), cur.cluster as int, c as int);
        }
        g.lemma_cluster_bounds(img.len(), c as int);
    }
}

/// Changes to neighbouring parts of a path add up.
pub proof fn lemma_only_slots_trans(
    g: Geometry,
    path: Seq<u32>,
    lo: int,
    hi: int,
    lo2: int,
    hi2: int,
    a: Seq<u8>,
    b: Seq<u8>,
    c: Seq<u8>,
)
    requires
        only_slots(g, path, lo, hi, a, b),
        only_slots(g, path, lo2, hi2, b, c),
        lo <= lo2,
        lo <= hi,
        hi <= hi2,
        lo2 <= hi2,
    ensures
        only_slots(g, path, lo, hi2, a, c),
{
    assert forall|q: int| is_slot(g, path, q) && outside(lo, hi2, q) implies #[trigger] slot(
        g,
        c,
        path,
        q,
    ) == slot(g, a, path, q) by {
        assert(outside(lo, hi, q) && outside(lo2, hi2, q));
        assert(slot(g, b, path, q) == slot(g, a, path, q));
    }
    assert forall|d: u32| g.valid_cluster(d) && !path.contains(d) implies #[trigger] cluster_kept(
        g,
        a,
        c,
        d,
    ) by {
        assert(cluster_kept(g, a, b, d));
        assert(cluster_kept(g, b, c, d));
    }
}

/// What marking an entry of a path deleted does.
proof fn lemma_slot_deleted(g: Geometry, img: Seq<u8>, path: Seq<u32>, cur: Cursor)
    requires
        g.wf(img.len()),
        whole_chain(g, img, path),
        on_path(g, path, cur),
    ensures
        ({
            let p = cur.pos as int;
            let b = entry_deleted(img, cur.offset(g));
            &&& only_slots(g, path, p, p + 32, img, b)
            &&& is_deleted(slot(g, b, path, p))
            &&& same_fat(g, img, b)
            &&& whole_chain(g, b, path)
        }),
{
    let p = cur.pos as int;
    let b = entry_deleted(img, cur.offset(g));
    let dead = seq![DIR_ENTRY_DELETED_FLAG];
    lemma_on_path(g, img.len(), path, cur);
    lemma_position(g, img.len(), path, p);
    lemma_slot_edit(g, img, path, cur, 0, dead);
    assert(b == splice(img, cur.offset(g) + 0, dead));
    assert(is_deleted(slot(g, b, path, p)));
    lemma_whole_kept(g, img, b, path);
}

/// What marking a run of entries of a path deleted does.
#[verifier::spinoff_prover]
#[verifier::rlimit(30)]
pub proof fn lemma_slots_deleted(g: Geometry, img: Seq<u8>, path: Seq<u32>, cur: Cursor, count: nat)
    requires
        g.wf(img.len()),
        whole_chain(g, img, path),
        on_path(g, path, cur),
        cur.pos + 32 * count <= path_size(g, path),
        cur.pos + 32 * count <= u32::MAX + 1,
    ensures
        ({
            let (b, res) = entries_deleted(img, g, cur, count);
            let hi = cur.pos + 32 * count;
            &&& res is Ok
            &&& only_slots(g, path, cur.pos as int, hi, img, b)
            &&& forall|q: int|
                is_slot(g, path, q) && cur.pos <= q < hi ==> is_deleted(#[trigger] slot(g, b, path, q))
            &&& same_fat(g, img, b)
        }),
    decreases count,
{
    let p = cur.pos as int;
    if count > 0 {
        let one = entry_deleted(img, cur.offset(g));
        lemma_slot_deleted(g, img, path, cur);
        if count > 1 {
            lemma_path_after(g, one, path, cur);
            if let Place::At(next) = place_after(one, g, cur) {
                lemma_slots_deleted(g, one, path, next, (count - 1) as nat);
                let b = entries_deleted(img, g, cur, count).0;
                let hi = p + 32 * count;
                lemma_only_slots_trans(g, path, p, p + 32, p + 32, hi, img, one, b);
                assert(slot(g, b, path, p) == slot(g, one, path, p));
            }
        }
    }
}

/// A chain stays whole where the FAT stays the same.
pub proof fn lemma_whole_kept(g: Geometry, a: Seq<u8>, b: Seq<u8>, path: Seq<u32>)
    requires
        whole_chain(g, a, path),
        forall|i: int|
            0 <= i < path.len() ==> raw_entry(b, g, path[i]) == raw_entry(a, g, #[trigger] path[i]),
    ensures
        whole_chain(g, b, path),
        owned(g, a, path) ==> owned(g, b, path),
{
    assert forall|i: int| 0 <= i < path.len() - 1 implies entry_of(
        raw_entry(b, g, #[trigger] path[i]),
    ) == FatEntry::Data(path[i + 1]) by {
        assert(raw_entry(b, g, path[i]) == raw_entry(a, g, path[i]));
    }
    assert(path.last() == path[path.len() - 1]);
    assert(raw_entry(b, g, path[path.len() - 1]) == raw_entry(a, g, path[path.len() - 1]));
}

/// What removing a run of entries of a path does.
pub proof fn lemma_run_deleted(
    g: Geometry,
    mode: RepairMode,
    v: Vol,
    path: Seq<u32>,
    start: u32,
    hi: int,
    flag: RepairMode,
)
    requires
        g.wf(v.img.len()),
        mode.applies(flag),
        whole_chain(g, v.img, path),
        start % DIR_ENTRY_SIZE == 0,
        start < hi,
        (hi - start) % 32 == 0,
        hi <= path_size(g, path),
        hi <= u32::MAX + 1,
    ensures
        ({
            let count = ((hi - start) / 32) as nat;
            let (b, res) = run_removed(g, v, path[0], start, count, mode, flag);
            &&& res is Ok
            &&& only_slots(g, path, start as int, hi, v.img, b.img)
            &&& forall|q: int|
                is_slot(g, path, q) && start <= q < hi ==> is_deleted(
                    #[trigger] slot(g, b.img, path, q),
                )
            &&& same_fat(g, v.img, b.img)
        }),
{
    lemma_path_at(g, v.img, path, start);
    if let Place::At(cur) = place_at(v.img, g, path[0], start) {
        lemma_slots_deleted(g, v.img, path, cur, ((hi - start) / 32) as nat);
    }
}

/// A chain that is followed with marking takes only clusters without a marker.
proof fn lemma_follow_unclaimed(
    img: Seq<u8>,
    g: Geometry,
    c: u32,
    taken: Seq<u32>,
    limit: Option<u32>,
)
    requires
        none_marked(g, img, taken),
    ensures
        none_marked(g, img, follow(img, g, c, taken, limit, true).path),
    decreases g.total_clusters - taken.len(),
{
    let raw = raw_entry(img, g, c);
    let path = taken.push(c);
    if !marked(raw) {
        assert(none_marked(g, img, path)) by {
            assert forall|i: int| 0 <= i < path.len() implies !marked(
                raw_entry(img, g, #[trigger] path[i]),
            ) by {
                if i < taken.len() {
                    assert(path[i] == taken[i]);
                }
            }
        }
        if path.len() < g.total_clusters {
            if let FatEntry::Data(next) = entry_of(raw) {
                if g.valid_cluster(next) {
                    lemma_follow_unclaimed(img, g, next, path, limit);
                }
            }
        }
    }
}

/// What a marking run that may cut chains does to the FAT when it scans one: it claims the clusters of the chain, which
/// nobody had claimed, and leaves the chain whole.
pub proof fn lemma_chain_claimed(
    g: Geometry,
    mode: RepairMode,
    v: Vol,
    start: u32,
    limit: Option<u32>,
)
    requires
        g.wf(v.img.len()),
        mode.marks(),
        mode.applies(RepairMode::chains()),
        g.valid_cluster(start),
    ensures
        ({
            let path = chain_from(v.img, g, start, limit, true).path;
            let b = chain_scanned(g, v, start, limit, mode).img;
            &&& only_fat_changed(g, v.img, b)
            &&& none_marked(g, v.img, path)
            &&& path_sound(v.img, g, path)
            &&& path.len() > 0 ==> path[0] == start && owned(g, b, path)
            &&& forall|c: u32|
                g.valid_cluster(c) ==> marked(#[trigger] raw_entry(b, g, c)) == (marked(
                    raw_entry(v.img, g, c),
                ) || path.contains(c))
            &&& forall|c: u32|
                g.valid_cluster(c) && !path.contains(c) ==> #[trigger] raw_entry(b, g, c)
                    == raw_entry(v.img, g, c)
        }),
{
    let img = v.img;
    let walk = chain_from(img, g, start, limit, true);
    let path = walk.path;
    let b = chain_scanned(g, v, start, limit, mode).img;
    lemma_follow_unclaimed(img, g, start, Seq::empty(), limit);
    lemma_follow_sound(img, g, start, Seq::empty(), limit, true);
    lemma_chain_linked(img, g, start, limit, true);
    lemma_scanned_entries(g, v, start, limit, mode);
    lemma_chain_bounds(img, g, start, limit, true);
    lemma_path_marked(img, g, path);
    let reached = path_marked(img, g, path);
    assert forall|c: u32| g.valid_cluster(c) implies marked(#[trigger] raw_entry(reached, g, c)) == (
    marked(raw_entry(img, g, c)) || path.contains(c)) by {
        lemma_marked(raw_entry(img, g, c));
    }
    if walk.truncated && path.len() > 0 {
        let last = path[path.len() - 1];
        assert(g.valid_cluster(last));
        assert(path.contains(last));
        let raw = raw_entry(reached, g, last);
        lemma_ended(raw);
        lemma_put_entry(reached, g, last, with_value(raw, FAT32_EOC));
        assert forall|c: u32| g.valid_cluster(c) implies marked(#[trigger] raw_entry(b, g, c)) == (
        marked(raw_entry(img, g, c)) || path.contains(c)) && (!path.contains(c) ==> raw_entry(
            b,
            g,
            c,
        ) == raw_entry(img, g, c)) by {
            assert(c == last || raw_entry(b, g, c) == raw_entry(reached, g, c));
        }
    }
    if path.len() > 0 {
        assert forall|i: int| 0 <= i < path.len() implies #[trigger] g.valid_cluster(path[i]) by {
            assert(g.valid_cluster(path[i]) && allocated(raw_entry(img, g, path[i])));
        }
        assert forall|i: int| 0 <= i < path.len() - 1 implies entry_of(
            raw_entry(b, g, #[trigger] path[i]),
        ) == FatEntry::Data(path[i + 1]) by {
            assert(g.valid_cluster(path[i]));
            assert(path[i] != path.last());
            assert(entry_of(raw_entry(img, g, path[i])) == FatEntry::Data(path[i + 1]));
        }
        let last = path[path.len() - 1];
        assert(g.valid_cluster(last));
        assert(entry_of(raw_entry(b, g, last)) is EndOfChain);
        assert forall|i: int| 0 <= i < path.len() implies marked(
            raw_entry(b, g, #[trigger] path[i]),
        ) by {
            assert(g.valid_cluster(path[i]));
            assert(path.contains(path[i]));
        }
    }
}

} // verus!
