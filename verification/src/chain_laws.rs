//! What holds of chains, and of the files and directories on them.

use vstd::prelude::*;

use crate::bytes::{le_u32, lemma_u32_round_trip};
use crate::chain::{chain_from, chain_scanned, ends_chain, follow, lemma_chain_bounds, path_marked, Walk};
use crate::dir::{entry_at, fields_put, lemma_nth_cluster, lemma_nth_cluster_ends, link_of, nth_cluster, Link};
use crate::dirent::{cluster_field, file_size, is_dir, name_corrupted, short_name, with_cluster, with_size};
use crate::entry::{capacity_of, linked_entry_checked, renamed, EntrySite};
use crate::fat::{entry_of, lemma_put_entry, marked, raw_entry, with_value, FatEntry, FAT32_EOC};
use crate::geometry::{Geometry, DIR_ENTRY_SIZE};
use crate::kept::{allocated, data_kept, lemma_ended, lemma_follow_sound, lemma_path_kept, lemma_same_fat, path_sound};
use crate::mode::RepairMode;
use crate::model::Vol;
use crate::phases::lemma_contained;

verus! {

proof fn lemma_follow_length(
    img: Seq<u8>,
    g: Geometry,
    c: u32,
    taken: Seq<u32>,
    limit: u32,
    marking: bool,
)
    requires
        taken.len() < limit,
    ensures
        follow(img, g, c, taken, Some(limit), marking).path.len() <= limit,
    decreases g.total_clusters - taken.len(),
{
    let path = taken.push(c);
    if path.len() < limit && path.len() < g.total_clusters {
        if let FatEntry::Data(next) = entry_of(raw_entry(img, g, c)) {
            if g.valid_cluster(next) {
                lemma_follow_length(img, g, next, path, limit, marking);
            }
        }
    }
}

/// A chain is never taken to be longer than its limit.
pub proof fn law_chain_length(
    img: Seq<u8>,
    g: Geometry,
    start: u32,
    limit: u32,
    marking: bool,
)
    ensures
        chain_from(img, g, start, Some(limit), marking).path.len() <= limit,
{
    if g.valid_cluster(start) && limit > 0 {
        lemma_follow_length(img, g, start, Seq::empty(), limit, marking);
    }
}

/// Whether each cluster of `path` links to the next one.
pub open spec fn linked(img: Seq<u8>, g: Geometry, path: Seq<u32>) -> bool {
    forall|i: int|
        0 <= i < path.len() - 1 ==> entry_of(raw_entry(img, g, #[trigger] path[i]))
            == FatEntry::Data(path[i + 1])
}

/// What a chain looks like: it starts where it was asked for, each cluster links to the next, none comes up twice, and
/// the last one of a chain that was not cut ends it.
pub open spec fn walk_sound(img: Seq<u8>, g: Geometry, start: u32, walk: Walk) -> bool {
    &&& linked(img, g, walk.path)
    &&& walk.path.len() > 0 ==> walk.path[0] == start
    &&& !walk.truncated ==> walk.path.len() > 0 && entry_of(
        raw_entry(img, g, walk.path.last()),
    ) is EndOfChain
    &&& walk.path.no_duplicates()
}

proof fn lemma_follow_linked(
    img: Seq<u8>,
    g: Geometry,
    start: u32,
    c: u32,
    taken: Seq<u32>,
    limit: Option<u32>,
    marking: bool,
)
    requires
        linked(img, g, taken),
        taken.len() == 0 ==> c == start,
        taken.len() > 0 ==> taken[0] == start && entry_of(raw_entry(img, g, taken.last()))
            == FatEntry::Data(c),
        taken.no_duplicates(),
    ensures
        walk_sound(img, g, start, follow(img, g, c, taken, limit, marking)),
    decreases g.total_clusters - taken.len(),
{
    let raw = raw_entry(img, g, c);
    let path = taken.push(c);
    assert(linked(img, g, path)) by {
        assert forall|i: int| 0 <= i < path.len() - 1 implies entry_of(
            raw_entry(img, g, #[trigger] path[i]),
        ) == FatEntry::Data(path[i + 1]) by {
            assert(path[i] == taken[i]);
            if i < taken.len() - 1 {
                assert(path[i + 1] == taken[i + 1]);
            }
        }
    }
    if !taken.contains(c) {
        assert(path.no_duplicates());
    }
    if !taken.contains(c) && !(marking && marked(raw)) && allocated(raw) && path.len()
        < g.total_clusters {
        if let FatEntry::Data(next) = entry_of(raw) {
            if g.valid_cluster(next) {
                lemma_follow_linked(img, g, start, next, path, limit, marking);
            }
        }
    }
}

/// A chain is what it looks like.
pub proof fn lemma_chain_linked(
    img: Seq<u8>,
    g: Geometry,
    start: u32,
    limit: Option<u32>,
    marking: bool,
)
    ensures
        walk_sound(img, g, start, chain_from(img, g, start, limit, marking)),
{
    if g.valid_cluster(start) {
        lemma_follow_linked(img, g, start, start, Seq::empty(), limit, marking);
    }
}

/// Images whose FAT entries say the same, and are marked the same where that counts, have the same chains.
pub proof fn lemma_follow_same(
    a: Seq<u8>,
    b: Seq<u8>,
    g: Geometry,
    c: u32,
    taken: Seq<u32>,
    limit: Option<u32>,
    marking: bool,
)
    requires
        g.valid_cluster(c),
        forall|d: u32|
            g.valid_cluster(d) ==> entry_of(#[trigger] raw_entry(b, g, d)) == entry_of(
                raw_entry(a, g, d),
            ) && (marking ==> marked(raw_entry(b, g, d)) == marked(raw_entry(a, g, d))),
    ensures
        follow(b, g, c, taken, limit, marking) == follow(a, g, c, taken, limit, marking),
    decreases g.total_clusters - taken.len(),
{
    let path = taken.push(c);
    assert(entry_of(raw_entry(b, g, c)) == entry_of(raw_entry(a, g, c)));
    if path.len() < g.total_clusters {
        if let FatEntry::Data(next) = entry_of(raw_entry(a, g, c)) {
            if g.valid_cluster(next) {
                lemma_follow_same(a, b, g, next, path, limit, marking);
            }
        }
    }
}

/// What scanning a chain makes of what FAT entries say: the last cluster of a chain that was cut now ends it.
pub proof fn lemma_scanned_entries(
    g: Geometry,
    v: Vol,
    start: u32,
    limit: Option<u32>,
    mode: RepairMode,
)
    requires
        g.wf(v.img.len()),
        g.valid_cluster(start),
    ensures
        ({
            let walk = chain_from(v.img, g, start, limit, mode.marks());
            let after = chain_scanned(g, v, start, limit, mode);
            &&& path_sound(v.img, g, walk.path)
            &&& data_kept(g, v.img, after.img)
            &&& after.img.len() == v.img.len()
            &&& forall|c: u32|
                g.valid_cluster(c) ==> entry_of(#[trigger] raw_entry(after.img, g, c))
                    == if ends_chain(walk, mode) && walk.path.len() > 0 && c
                    == walk.path.last() {
                    FatEntry::EndOfChain
                } else {
                    entry_of(raw_entry(v.img, g, c))
                }
        }),
{
    let img = v.img;
    let walk = chain_from(img, g, start, limit, mode.marks());
    lemma_follow_sound(img, g, start, Seq::empty(), limit, mode.marks());
    lemma_contained(g, img, img);
    let reached = if mode.marks() {
        path_marked(img, g, walk.path)
    } else {
        img
    };
    if mode.marks() {
        lemma_path_kept(g, mode, img, img, walk.path);
    }
    if ends_chain(walk, mode) && walk.path.len() > 0 {
        let last = walk.path[walk.path.len() - 1];
        assert(g.valid_cluster(last));
        let raw = raw_entry(reached, g, last);
        lemma_ended(raw);
        lemma_put_entry(reached, g, last, with_value(raw, FAT32_EOC));
    }
}

/// A chain that was scanned by a run that may cut chains really ends where the scan says, or before: there is no
/// cluster behind the ones that were counted, and none that links out of the volume.
pub proof fn law_scanned_chain_ends(
    g: Geometry,
    v: Vol,
    start: u32,
    limit: Option<u32>,
    mode: RepairMode,
    k: nat,
)
    requires
        g.wf(v.img.len()),
        g.valid_cluster(start),
        mode.applies(RepairMode::chains()),
        0 < chain_from(v.img, g, start, limit, mode.marks()).path.len() <= k,
    ensures
        nth_cluster(chain_scanned(g, v, start, limit, mode).img, g, start, k) is End,
{
    let walk = chain_from(v.img, g, start, limit, mode.marks());
    let img = chain_scanned(g, v, start, limit, mode).img;
    lemma_scanned_entries(g, v, start, limit, mode);
    lemma_chain_linked(v.img, g, start, limit, mode.marks());
    lemma_chain_prefix(g, v.img, img, start, walk, (walk.path.len() - 1) as nat);
    let last = walk.path[walk.path.len() - 1];
    assert(g.valid_cluster(last));
    assert(entry_of(raw_entry(img, g, last)) is EndOfChain);
    assert(link_of(img, g, last) is End);
    assert(nth_cluster(img, g, start, walk.path.len()) is End);
    lemma_nth_cluster_ends(img, g, start, walk.path.len(), k);
}

/// As far as a chain has not ended, it runs along its path.
proof fn lemma_chain_prefix(
    g: Geometry,
    img: Seq<u8>,
    new: Seq<u8>,
    start: u32,
    walk: Walk,
    k: nat,
)
    requires
        k < walk.path.len(),
        walk.path[0] == start,
        linked(img, g, walk.path),
        path_sound(img, g, walk.path),
        forall|c: u32|
            g.valid_cluster(c) ==> entry_of(#[trigger] raw_entry(new, g, c)) == entry_of(
                raw_entry(img, g, c),
            ) || entry_of(raw_entry(new, g, c)) is EndOfChain,
    ensures
        nth_cluster(new, g, start, k) is End || nth_cluster(new, g, start, k) == Link::To(
            walk.path[k as int],
        ),
    decreases k,
{
    if k > 0 {
        lemma_chain_prefix(g, img, new, start, walk, (k - 1) as nat);
        let c = walk.path[k - 1];
        assert(g.valid_cluster(c));
        assert(g.valid_cluster(walk.path[k as int]));
        assert(entry_of(raw_entry(img, g, c)) == FatEntry::Data(walk.path[k - 1 + 1]));
    }
}

/// A directory that was scanned by a run that may cut chains holds no more clusters than a directory can.
pub proof fn law_directory_is_capped(g: Geometry, v: Vol, start: u32, mode: RepairMode)
    requires
        g.wf(v.img.len()),
        g.valid_cluster(start),
        mode.applies(RepairMode::chains()),
        0 < chain_from(v.img, g, start, Some(g.max_dir_chain()), mode.marks()).path.len(),
    ensures
        nth_cluster(
            chain_scanned(g, v, start, Some(g.max_dir_chain()), mode).img,
            g,
            start,
            g.max_dir_chain() as nat,
        ) is End,
{
    law_chain_length(v.img, g, start, g.max_dir_chain(), mode.marks());
    law_scanned_chain_ends(
        g,
        v,
        start,
        Some(g.max_dir_chain()),
        mode,
        g.max_dir_chain() as nat,
    );
}

/// Whether the chain from `start` has exactly `n` clusters.
pub open spec fn chain_has(img: Seq<u8>, g: Geometry, start: u32, n: nat) -> bool {
    &&& n > 0 ==> nth_cluster(img, g, start, (n - 1) as nat) is To
    &&& nth_cluster(img, g, start, n) is End
}

/// Whether the entry at `at` of `img`, which was `e` in `was`, describes a file that is as long as its chain from
/// `start`, or an empty one if there was nothing there to take.
pub open spec fn as_long_as_chain(
    g: Geometry,
    was: Seq<u8>,
    e: Seq<u8>,
    at: int,
    start: u32,
    marking: bool,
    img: Seq<u8>,
) -> bool {
    let now = entry_at(img, at);
    let n = chain_from(was, g, start, Some(g.clusters_for(file_size(e))), marking).path.len();
    &&& file_size(now) <= file_size(e)
    &&& n == g.clusters_for(file_size(now))
    &&& n > 0 ==> chain_has(img, g, start, n) && cluster_field(now) == cluster_field(e)
    &&& n == 0 ==> file_size(now) == 0 && cluster_field(now) == 0
}

/// A file that nothing was left of.
#[verifier::spinoff_prover]
#[verifier::rlimit(40)]
proof fn lemma_file_emptied(
    g: Geometry,
    v: Vol,
    first: u32,
    e: Seq<u8>,
    site: EntrySite,
    start: u32,
    mode: RepairMode,
)
    requires
        g.wf(v.img.len()),
        g.data_start <= site.abs_pos,
        site.abs_pos + DIR_ENTRY_SIZE <= v.img.len(),
        e == entry_at(v.img, site.abs_pos as int),
        !is_dir(e),
        g.valid_cluster(start),
        mode.applies(RepairMode::chains()),
        chain_from(
            v.img,
            g,
            start,
            Some(g.clusters_for(file_size(e))),
            mode.marks(),
        ).path.len() == 0,
    ensures
        as_long_as_chain(
            g,
            v.img,
            e,
            site.abs_pos as int,
            start,
            mode.marks(),
            linked_entry_checked(g, v, first, e, site, start, mode).0.img,
        ),
{
    let at = site.abs_pos as int;
    let limit = Some(g.clusters_for(file_size(e)));
    let named = if name_corrupted(short_name(e)) {
        renamed(v, mode, at)
    } else {
        v
    };
    g.lemma_copy_bounds(v.img.len(), 0);
    lemma_same_fat(g, v.img, named.img);
    lemma_follow_same(v.img, named.img, g, start, Seq::empty(), limit, mode.marks());
    let walk = chain_from(named.img, g, start, limit, mode.marks());
    let scanned = chain_scanned(g, named, start, limit, mode);
    let n = walk.path.len();
    lemma_scanned_entries(g, named, start, limit, mode);
    lemma_chain_linked(named.img, g, start, limit, mode.marks());
    law_chain_length(named.img, g, start, g.clusters_for(file_size(e)), mode.marks());
    lemma_chain_bounds(named.img, g, start, limit, mode.marks());
    let (after, res) = linked_entry_checked(g, v, first, e, site, start, mode);
    let img = after.img;
    let reachable = capacity_of(g, n as int);
    // Behind the name, the entry is what it was.
    assert forall|i: int| at + 11 <= i < at + 32 implies #[trigger] scanned.img[i] == e[i - at] by {
        assert(named.img[i] == v.img[i]);
        assert(scanned.img[i] == named.img[i]);
    }
    let cleared = with_cluster(with_size(e, 0), 0);
    assert(img == fields_put(scanned.img, at, cleared));
    lemma_fields(scanned.img, at, e, cleared);
    lemma_cleared_fields(e);
    lemma_no_clusters(g);
}

/// A chain that was scanned, and that there is something of, has just the clusters that were counted.
proof fn lemma_scanned_has(g: Geometry, v: Vol, start: u32, limit: u32, mode: RepairMode)
    requires
        g.wf(v.img.len()),
        g.valid_cluster(start),
        mode.applies(RepairMode::chains()),
        chain_from(v.img, g, start, Some(limit), mode.marks()).path.len() > 0,
    ensures
        ({
            let n = chain_from(v.img, g, start, Some(limit), mode.marks()).path.len();
            let after = chain_scanned(g, v, start, Some(limit), mode);
            &&& n <= limit
            &&& chain_has(after.img, g, start, n)
            &&& after.img.len() == v.img.len()
            &&& data_kept(g, v.img, after.img)
        }),
{
    let walk = chain_from(v.img, g, start, Some(limit), mode.marks());
    let after = chain_scanned(g, v, start, Some(limit), mode);
    let n = walk.path.len();
    lemma_scanned_entries(g, v, start, Some(limit), mode);
    lemma_chain_linked(v.img, g, start, Some(limit), mode.marks());
    law_chain_length(v.img, g, start, limit, mode.marks());
    law_scanned_chain_ends(g, v, start, Some(limit), mode, n);
    lemma_whole_chain(g, v.img, after.img, start, walk, (n - 1) as nat);
}

/// A file that something was left of.
#[verifier::spinoff_prover]
#[verifier::rlimit(60)]
proof fn lemma_file_cut(
    g: Geometry,
    v: Vol,
    first: u32,
    e: Seq<u8>,
    site: EntrySite,
    start: u32,
    mode: RepairMode,
)
    requires
        g.wf(v.img.len()),
        g.data_start <= site.abs_pos,
        site.abs_pos + DIR_ENTRY_SIZE <= v.img.len(),
        e == entry_at(v.img, site.abs_pos as int),
        !is_dir(e),
        g.valid_cluster(start),
        mode.applies(RepairMode::chains()),
        chain_from(
            v.img,
            g,
            start,
            Some(g.clusters_for(file_size(e))),
            mode.marks(),
        ).path.len() > 0,
    ensures
        as_long_as_chain(
            g,
            v.img,
            e,
            site.abs_pos as int,
            start,
            mode.marks(),
            linked_entry_checked(g, v, first, e, site, start, mode).0.img,
        ),
{
    let at = site.abs_pos as int;
    let limit = Some(g.clusters_for(file_size(e)));
    let named = if name_corrupted(short_name(e)) {
        renamed(v, mode, at)
    } else {
        v
    };
    g.lemma_copy_bounds(v.img.len(), 0);
    lemma_same_fat(g, v.img, named.img);
    lemma_follow_same(v.img, named.img, g, start, Seq::empty(), limit, mode.marks());
    let scanned = chain_scanned(g, named, start, limit, mode);
    let n = chain_from(named.img, g, start, limit, mode.marks()).path.len();
    lemma_scanned_has(g, named, start, g.clusters_for(file_size(e)), mode);
    let (after, res) = linked_entry_checked(g, v, first, e, site, start, mode);
    let img = after.img;
    let reachable = capacity_of(g, n as int);
    // Behind the name, the entry is what it was.
    assert forall|i: int| at + 11 <= i < at + 32 implies #[trigger] scanned.img[i] == e[i - at] by {
        assert(named.img[i] == v.img[i]);
        assert(scanned.img[i] == named.img[i]);
    }
    lemma_size_fits(g, n as int, file_size(e));
    if file_size(e) > reachable {
        let shrunk = with_size(e, reachable);
        assert(img == fields_put(scanned.img, at, shrunk));
        lemma_fields(scanned.img, at, e, shrunk);
        lemma_sized_fields(e, reachable);
        lemma_same_fat(g, scanned.img, img);
    } else {
        assert(img == scanned.img);
        lemma_fields_kept(scanned.img, at, e);
    }
    lemma_same_links(g, scanned.img, img, start, (n - 1) as nat);
    lemma_same_links(g, scanned.img, img, start, n);
}

/// A file is as long as the shorter of its size field and its chain: once a run that may cut chains has checked its
/// entry, the chain has just the clusters that the size asks for. If no cluster was left, the entry describes an empty
/// file.
pub proof fn law_file_as_long_as_its_chain(
    g: Geometry,
    v: Vol,
    first: u32,
    e: Seq<u8>,
    site: EntrySite,
    start: u32,
    mode: RepairMode,
)
    requires
        g.wf(v.img.len()),
        g.data_start <= site.abs_pos,
        site.abs_pos + DIR_ENTRY_SIZE <= v.img.len(),
        e == entry_at(v.img, site.abs_pos as int),
        !is_dir(e),
        g.valid_cluster(start),
        mode.applies(RepairMode::chains()),
    ensures
        as_long_as_chain(
            g,
            v.img,
            e,
            site.abs_pos as int,
            start,
            mode.marks(),
            linked_entry_checked(g, v, first, e, site, start, mode).0.img,
        ),
{
    let limit = Some(g.clusters_for(file_size(e)));
    if chain_from(v.img, g, start, limit, mode.marks()).path.len() == 0 {
        lemma_file_emptied(g, v, first, e, site, start, mode);
    } else {
        lemma_file_cut(g, v, first, e, site, start, mode);
    }
}

/// The bytes of an entry behind its name, after its fields were stored.
proof fn lemma_fields(img: Seq<u8>, at: int, e: Seq<u8>, f: Seq<u8>)
    requires
        0 <= at,
        at + 32 <= img.len(),
        e.len() == 32,
        f.len() == 32,
        forall|i: int| at + 11 <= i < at + 32 ==> #[trigger] img[i] == e[i - at],
        forall|i: int| 0 <= i < 20 ==> #[trigger] f[i] == e[i],
    ensures
        ({
            let now = entry_at(fields_put(img, at, f), at);
            &&& now.len() == 32
            &&& now[11] == e[11]
            &&& le_u32(now, 28) == le_u32(f, 28)
            &&& cluster_field(now) == cluster_field(f)
        }),
{
    let new = fields_put(img, at, f);
    let now = entry_at(new, at);
    assert forall|i: int| 20 <= i < 32 implies #[trigger] now[i] == f[i] by {
        assert(f.subrange(20, 32)[i - 20] == f[i]);
    }
    assert(now[11] == img[at + 11]);
}

/// The bytes of an entry behind its name, where its fields stay as they are.
proof fn lemma_fields_kept(img: Seq<u8>, at: int, e: Seq<u8>)
    requires
        0 <= at,
        at + 32 <= img.len(),
        e.len() == 32,
        forall|i: int| at + 11 <= i < at + 32 ==> #[trigger] img[i] == e[i - at],
    ensures
        ({
            let now = entry_at(img, at);
            &&& now[11] == e[11]
            &&& le_u32(now, 28) == le_u32(e, 28)
            &&& cluster_field(now) == cluster_field(e)
        }),
{
    let now = entry_at(img, at);
    assert forall|i: int| 11 <= i < 32 implies #[trigger] now[i] == e[i] by {
        assert(img[at + i] == e[at + i - at]);
    }
}

/// The fields of an entry that was emptied.
pub proof fn lemma_cleared_fields(e: Seq<u8>)
    requires
        e.len() == 32,
    ensures
        cluster_field(with_cluster(with_size(e, 0), 0)) == 0,
        le_u32(with_cluster(with_size(e, 0), 0), 28) == 0,
{
    lemma_u32_round_trip(e, 28, 0);
}

/// The fields of an entry that got another size.
pub proof fn lemma_sized_fields(e: Seq<u8>, size: u32)
    requires
        e.len() == 32,
    ensures
        cluster_field(with_size(e, size)) == cluster_field(e),
        le_u32(with_size(e, size), 28) == size,
{
    lemma_u32_round_trip(e, 28, size);
}

/// Nothing takes up no cluster.
pub proof fn lemma_no_clusters(g: Geometry)
    requires
        512 <= g.cluster_size,
    ensures
        g.clusters_for(0) == 0,
{
    vstd::arithmetic::div_mod::lemma_basic_div(g.cluster_size - 1, g.cluster_size as int);
}

/// A chain of `n` clusters that is not longer than a size asks for, and the size cut down to what it holds.
pub proof fn lemma_size_fits(g: Geometry, n: int, size: u32)
    requires
        512 <= g.cluster_size,
        0 < n <= g.clusters_for(size),
    ensures
        ({
            let kept_size = if size > capacity_of(g, n) {
                capacity_of(g, n)
            } else {
                size
            };
            n == g.clusters_for(kept_size)
        }),
{
    let cs = g.cluster_size as int;
    let k = (size + cs - 1) / cs;
    assert(0 <= k && k * cs <= size + cs - 1 && size + cs - 1 < k * cs + cs) by (nonlinear_arith)
        requires
            k == (size + cs - 1) / cs,
            cs > 0,
            size >= 0,
    ;
    assert(k <= size + cs - 1) by (nonlinear_arith)
        requires
            k * cs <= size + cs - 1,
            cs >= 1,
            k >= 0,
    ;
    assert(k <= u32::MAX) by (nonlinear_arith)
        requires
            k * cs <= size + cs - 1,
            cs >= 512,
            size <= 0xFFFF_FFFF,
            k >= 0,
    ;
    assert(g.clusters_for(size) == k);
    if size == 0 {
        assert(k == 0) by (nonlinear_arith)
            requires
                k * cs <= cs - 1,
                k >= 0,
                cs > 0,
        ;
    } else {
        assert(k >= 1) by (nonlinear_arith)
            requires
                size + cs - 1 < k * cs + cs,
                size >= 1,
                cs > 0,
        ;
        assert(n * cs <= k * cs) by (nonlinear_arith)
            requires
                n <= k,
                0 <= cs,
        ;
        if size > capacity_of(g, n) {
            // The chain holds less than the size, so nothing overflows.
            assert(n * cs <= u32::MAX);
            let cap = (n * cs) as int;
            assert((cap + cs - 1) / cs == n) by (nonlinear_arith)
                requires
                    cap == n * cs,
                    cs > 0,
            ;
        } else {
            assert(size <= n * cs);
            assert(k <= n) by (nonlinear_arith)
                requires
                    k * cs <= size + cs - 1,
                    size <= n * cs,
                    cs > 0,
            ;
        }
    }
}

/// A chain without repeated clusters is as long as its path.
proof fn lemma_whole_chain(
    g: Geometry,
    img: Seq<u8>,
    new: Seq<u8>,
    start: u32,
    walk: Walk,
    k: nat,
)
    requires
        k < walk.path.len(),
        walk.path[0] == start,
        walk.path.no_duplicates(),
        linked(img, g, walk.path),
        path_sound(img, g, walk.path),
        forall|c: u32|
            g.valid_cluster(c) && c != walk.path.last() ==> entry_of(#[trigger] raw_entry(new, g, c))
                == entry_of(raw_entry(img, g, c)),
    ensures
        nth_cluster(new, g, start, k) == Link::To(walk.path[k as int]),
    decreases k,
{
    if k > 0 {
        lemma_whole_chain(g, img, new, start, walk, (k - 1) as nat);
        let c = walk.path[k - 1];
        assert(g.valid_cluster(c));
        assert(g.valid_cluster(walk.path[k as int]));
        assert(c != walk.path.last());
        assert(entry_of(raw_entry(img, g, c)) == FatEntry::Data(walk.path[k - 1 + 1]));
    }
}

/// Images with the same FAT have the same directories.
proof fn lemma_same_links(g: Geometry, a: Seq<u8>, b: Seq<u8>, first: u32, k: nat)
    requires
        g.valid_cluster(first),
        forall|c: u32|
            g.valid_cluster(c) ==> #[trigger] raw_entry(b, g, c) == raw_entry(a, g, c),
    ensures
        nth_cluster(b, g, first, k) == nth_cluster(a, g, first, k),
    decreases k,
{
    if k > 0 {
        lemma_same_links(g, a, b, first, (k - 1) as nat);
        lemma_nth_cluster(a, g, first, (k - 1) as nat);
        if let Link::To(c) = nth_cluster(a, g, first, (k - 1) as nat) {
            assert(raw_entry(b, g, c) == raw_entry(a, g, c));
        }
    }
}

} // verus!
