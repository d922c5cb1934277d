//! What the walk of the directory tree does, entry by entry and directory by directory.

use vstd::prelude::*;

use crate::chain::{chain_from, chain_scanned, lemma_chain_begins};
use crate::dir::{
    dir_start, entry_at, entry_under, lemma_entry_bounds, link_of, nth_cluster, place_after, place_at, starts_directory,
    Cursor, Link, Place,
};
use crate::dirent::{cluster_field, dot_name, name_checksum, name_corrupted, short_name};
use crate::entry::{
    chain_limit, dot_fixed, emptied, entry_checked, entry_discarded, linked_entry_checked, renamed, resized,
    run_removed, EntrySite,
};
use crate::error::Fault;
use crate::fat::raw_entry;
use crate::fat_laws::{law_chain_followed, law_chain_scanned};
use crate::geometry::Geometry;
use crate::meaning::{
    law_dot_names, law_fat_values, law_fields_of_entries, law_kinds_of_entries, law_legal_names, legal_name,
};
use crate::mode::RepairMode;
use crate::model::Vol;
use crate::owned::{is_slot, path_size, slot, whole_chain};
use crate::repair::{fat_checked, tree_checked};
use crate::scratch::DirFrame;
use crate::stats::{bump, RepairStats};
use crate::step_laws::{law_file_emptied, law_run_removed, law_size_corrected};
use crate::walk::{
    entry_visited, label_checked, root_frame, run_joined, run_matches, scanned_from, short_entry_visited, stack_walked,
    tree_walked, DirStep, LfnRun, Visit,
};
verus! {

/// Where a directory goes on behind one of its clusters: in the cluster that the FAT names. A link to cluster 1 is an
/// error. Anything else that is no cluster of the volume ends the directory.
pub proof fn law_links(img: Seq<u8>, g: Geometry, c: u32)
    requires
        g.total_clusters <= 0x0FFF_FFF4,
    ensures
        ({
            let value = raw_entry(img, g, c) % 0x1000_0000;
            &&& 2 <= value < g.total_clusters + 2 ==> link_of(img, g, c) == Link::To(value)
            &&& value == 1 ==> link_of(img, g, c) is Broken
            &&& value != 1 && !(2 <= value < g.total_clusters + 2) ==> link_of(img, g, c) is End
        }),
{
    law_fat_values(raw_entry(img, g, c));
}

/// Where the entries of a directory are: 32 bytes apart, one cluster behind the other. The root is cluster 0 to the
/// walk.
pub proof fn law_places(img: Seq<u8>, g: Geometry, first: u32, pos: u32, cur: Cursor)
    requires
        512 <= g.cluster_size,
    ensures
        dir_start(g, 0) == g.root_dir_first_cluster,
        first != 0 ==> dir_start(g, first) == first,
        cur.offset(g) == g.data_start + (cur.cluster - 2) * g.cluster_size + cur.pos % g.cluster_size,
        nth_cluster(img, g, first, 0) == Link::To(first),
        forall|k: nat| #[trigger]
            nth_cluster(img, g, first, k + 1) == (match nth_cluster(img, g, first, k) {
                Link::To(c) => link_of(img, g, c),
                Link::End => Link::End,
                Link::Broken => Link::Broken,
            }),
        match nth_cluster(img, g, first, (pos / g.cluster_size) as nat) {
            Link::To(c) => place_at(img, g, first, pos) == Place::At(Cursor { pos, cluster: c }),
            Link::End => place_at(img, g, first, pos) is End,
            Link::Broken => place_at(img, g, first, pos) == Place::Lost(Fault::CorruptedFileSystem),
        },
        cur.pos > 0xFFFF_FFDF ==> place_after(img, g, cur) == Place::Lost(Fault::CorruptedFileSystem),
        cur.pos <= 0xFFFF_FFDF && (cur.pos + 32) % (g.cluster_size as int) != 0 ==> place_after(img, g, cur)
            == Place::At(Cursor { pos: (cur.pos + 32) as u32, cluster: cur.cluster }),
        cur.pos <= 0xFFFF_FFDF && (cur.pos + 32) % (g.cluster_size as int) == 0 ==> (match link_of(
            img,
            g,
            cur.cluster,
        ) {
            Link::To(c) => place_after(img, g, cur) == Place::At(
                Cursor { pos: (cur.pos + 32) as u32, cluster: c },
            ),
            Link::End => place_after(img, g, cur) is End,
            Link::Broken => place_after(img, g, cur) == Place::Lost(Fault::CorruptedFileSystem),
        }),
{
    assert forall|k: nat| #[trigger]
        nth_cluster(img, g, first, k + 1) == (match nth_cluster(img, g, first, k) {
            Link::To(c) => link_of(img, g, c),
            Link::End => Link::End,
            Link::Broken => Link::Broken,
        }) by {
        assert((k + 1 - 1) as nat == k);
    }
}

/// What the first two entries of a directory below the root look like: short names of `.` and `..`, padded with blanks,
/// with the attribute of a directory. Whatever looks so is taken for one.
pub proof fn law_starts_of_directories(img: Seq<u8>, g: Geometry, c: u32)
    requires
        g.wf(img.len()),
        2 <= c < g.total_clusters + 2,
    ensures
        ({
            let at = g.data_start + (c - 2) * g.cluster_size;
            &&& 0 <= at && at + 64 <= img.len()
            &&& starts_directory(img, g, c) <==> {
                &&& img[at + 11] % 16 != 15 && img[at + 11] / 16 % 2 == 1
                &&& img[at + 43] % 16 != 15 && img[at + 43] / 16 % 2 == 1
                &&& img[at] == 46
                &&& forall|i: int| 1 <= i < 11 ==> #[trigger] img[at + i] == 32
                &&& img[at + 32] == 46 && img[at + 33] == 46
                &&& forall|i: int| 34 <= i < 43 ==> #[trigger] img[at + i] == 32
            }
        }),
{
    let at = g.cluster_start(c as int);
    g.lemma_cluster_bounds(img.len(), c as int);
    let x = entry_at(img, at);
    let y = entry_at(img, at + 32);
    law_dot_names(short_name(x), x, 1);
    law_dot_names(short_name(y), y, 2);
    assert(x[0] == img[at] && x[11] == img[at + 11] && y[0] == img[at + 32] && y[1] == img[at + 33]
        && y[11] == img[at + 43]);
    if starts_directory(img, g, c) {
        assert forall|i: int| 1 <= i < 11 implies #[trigger] img[at + i] == 32 by {
            assert(x[i] == img[at + i]);
        }
        assert forall|i: int| 34 <= i < 43 implies #[trigger] img[at + i] == 32 by {
            assert(y[i - 32] == img[at + i]);
        }
    }
    if img[at] == 46 && (forall|i: int| 1 <= i < 11 ==> #[trigger] img[at + i] == 32) && img[at + 32] == 46
        && img[at + 33] == 46 && (forall|i: int| 34 <= i < 43 ==> #[trigger] img[at + i] == 32) {
        assert forall|i: int| 1 <= i < 11 implies #[trigger] x[i] == 32 by {
            assert(img[at + i] == 32);
        }
        assert forall|i: int| 2 <= i < 11 implies #[trigger] y[i] == 32 by {
            assert(img[at + (i + 32)] == 32);
        }
        assert forall|i: int| 0 <= i < 2 implies #[trigger] y[i] == 46 by {}
        assert forall|i: int| 0 <= i < 1 implies #[trigger] x[i] == 46 by {}
    }
}

/// The number of the first cluster in the bytes of an entry.
pub open spec fn cluster_named(e: Seq<u8>) -> int {
    e[26] + 256 * e[27] + 65_536 * e[20] + 16_777_216 * e[21]
}

/// Whether nothing about an entry can be trusted: it is a label and a directory at once, its first cluster is not in
/// the volume, or it has neither a cluster nor a legal name.
pub open spec fn hopeless(g: Geometry, e: Seq<u8>) -> bool {
    ||| e[11] / 8 % 4 == 3
    ||| cluster_named(e) == 1
    ||| cluster_named(e) >= g.total_clusters + 2
    ||| cluster_named(e) == 0 && !legal_name(e)
}

/// The name of an entry is legal if its first bytes are.
proof fn lemma_named(e: Seq<u8>)
    requires
        e.len() == 32,
    ensures
        name_corrupted(short_name(e)) == !legal_name(e),
        cluster_field(e) == cluster_named(e),
{
    let name = short_name(e);
    law_fields_of_entries(e);
    law_legal_names(name);
    if legal_name(e) {
        assert forall|i: int| 0 <= i < 11 implies #[trigger] name[i] >= 32 || (i == 0 && name[i] == 5) by {
            assert(name[i] == e[i]);
        }
    } else {
        let i = choose|i: int| 0 <= i < 11 && !(#[trigger] e[i] >= 32 || (i == 0 && e[i] == 5));
        assert(name[i] == e[i]);
    }
}

/// An entry about which nothing can be trusted is removed, together with its long name, and nothing else is done about
/// it. No other entry is removed for what it says itself.
pub proof fn law_hopeless_entries_go(
    g: Geometry,
    v: Vol,
    path: Seq<u32>,
    e: Seq<u8>,
    site: EntrySite,
    mode: RepairMode,
)
    requires
        g.wf(v.img.len()),
        whole_chain(g, v.img, path),
        e.len() == 32,
        hopeless(g, e),
        site.wf(),
        site.pos + 32 <= path_size(g, path),
    ensures
        ({
            let (w, res) = entry_checked(g, v, path[0], e, site, mode);
            &&& res == Ok::<Option<u32>, Fault>(None)
            &&& w.stats == (RepairStats { entries_removed: bump(v.stats.entries_removed), ..v.stats })
            &&& !mode.applies(RepairMode::entry_validity()) ==> w.img == v.img
            &&& mode.applies(RepairMode::entry_validity()) ==> {
                &&& forall|q: int|
                    is_slot(g, path, q) && site.run_start <= q <= site.pos ==> #[trigger] slot(
                        g,
                        w.img,
                        path,
                        q,
                    )[0] == 229
                &&& forall|q: int|
                    is_slot(g, path, q) && !(site.run_start <= q <= site.pos) ==> #[trigger] slot(
                        g,
                        w.img,
                        path,
                        q,
                    ) == slot(g, v.img, path, q)
            }
        }),
{
    law_kinds_of_entries(e);
    law_fields_of_entries(e);
    lemma_named(e);
    let end = (site.pos + 32) as u64;
    law_run_removed(g, mode, v, path, site.run_start, end, RepairMode::entry_validity());
}

/// What is done about an entry that is not hopeless, and has no cluster: a size is taken away. What has a cluster is
/// left to the check of its chain.
pub proof fn law_entries_without_clusters(
    g: Geometry,
    v: Vol,
    first: u32,
    e: Seq<u8>,
    site: EntrySite,
    mode: RepairMode,
)
    requires
        g.total_clusters <= 0x0FFF_FFF4,
        e.len() == 32,
        !hopeless(g, e),
    ensures
        ({
            let (w, res) = entry_checked(g, v, first, e, site, mode);
            let at = site.abs_pos as int;
            let sized = e[11] / 16 % 2 == 0 && (e[28] != 0 || e[29] != 0 || e[30] != 0 || e[31] != 0);
            &&& cluster_named(e) == 0 ==> res == Ok::<Option<u32>, Fault>(None)
            &&& cluster_named(e) == 0 && !sized ==> w == v
            &&& cluster_named(e) == 0 && sized ==> w == resized(
                v,
                mode,
                RepairMode::entry_validity(),
                e,
                at,
                0,
            )
            &&& cluster_named(e) != 0 ==> (w, res) == linked_entry_checked(
                g,
                v,
                first,
                e,
                site,
                cluster_named(e) as u32,
                mode,
            )
        }),
{
    law_kinds_of_entries(e);
    law_fields_of_entries(e);
    lemma_named(e);
}

/// An entry that calls itself a directory, and whose first cluster does not begin like one, is counted and left as it
/// is. The chain that it points at is followed, of whatever length, and taken for in use, unless there is none.
pub proof fn law_no_directory(
    g: Geometry,
    v: Vol,
    first: u32,
    e: Seq<u8>,
    site: EntrySite,
    start: u32,
    mode: RepairMode,
)
    requires
        g.wf(v.img.len()),
        2 <= start < g.total_clusters + 2,
        e.len() == 32,
        e[11] / 16 % 2 == 1,
        !starts_directory(v.img, g, start),
    ensures
        ({
            let (w, res) = linked_entry_checked(g, v, first, e, site, start, mode);
            let judged = Vol {
                img: v.img,
                stats: RepairStats { dirs_rejected: bump(v.stats.dirs_rejected), ..v.stats },
            };
            let value = raw_entry(v.img, g, start) % 0x1000_0000;
            let taken = mode.marks() && raw_entry(v.img, g, start) / 0x1000_0000 % 2 == 1;
            &&& res == Ok::<Option<u32>, Fault>(None)
            &&& value == 0 || value == 0x0FFF_FFF7 || taken ==> w == judged
            &&& !(value == 0 || value == 0x0FFF_FFF7 || taken) ==> w == chain_scanned(
                g,
                judged,
                start,
                None,
                mode,
            )
            &&& forall|i: int| g.fats_end() <= i < v.img.len() ==> #[trigger] w.img[i] == v.img[i]
        }),
{
    law_kinds_of_entries(e);
    let judged = Vol {
        img: v.img,
        stats: RepairStats { dirs_rejected: bump(v.stats.dirs_rejected), ..v.stats },
    };
    law_chain_followed(v.img, g, start, None, mode.marks());
    law_chain_scanned(g, judged, start, None, mode, 2);
    law_fat_values(raw_entry(v.img, g, start));
    lemma_chain_begins(v.img, g, start, None, mode.marks());
    let path = chain_from(v.img, g, start, None, mode.marks()).path;
    if path.len() > 0 {
        assert(path[0] == start);
    }
}

/// What is done about an entry with a cluster, other than one that only calls itself a directory. An illegal name is
/// replaced first. The chain is followed as far as the size reaches, or as a directory can, and cut there. A directory
/// with nothing in it is removed, any other is gone down into. A file with nothing in it is emptied, and one that is
/// longer than its chain is shortened to it.
pub proof fn law_entries_with_clusters(
    g: Geometry,
    v: Vol,
    first: u32,
    e: Seq<u8>,
    site: EntrySite,
    start: u32,
    mode: RepairMode,
)
    requires
        g.wf(v.img.len()),
        2 <= start < g.total_clusters + 2,
        e.len() == 32,
        e[11] / 16 % 2 == 1 ==> starts_directory(v.img, g, start),
    ensures
        ({
            let at = site.abs_pos as int;
            let named = if legal_name(e) {
                v
            } else {
                renamed(v, mode, at)
            };
            let limit = chain_limit(g, e);
            let n = chain_from(named.img, g, start, limit, mode.marks()).path.len();
            let after = chain_scanned(g, named, start, limit, mode);
            let size = e[28] + 256 * e[29] + 65_536 * e[30] + 16_777_216 * e[31];
            let result = linked_entry_checked(g, v, first, e, site, start, mode);
            &&& e[11] / 16 % 2 == 1 && n == 0 ==> result == entry_discarded(g, after, first, site, mode)
            &&& e[11] / 16 % 2 == 1 && n > 0 ==> result == (after, Ok::<Option<u32>, Fault>(Some(start)))
            &&& e[11] / 16 % 2 == 0 && n == 0 ==> result == (
                emptied(after, mode, e, at),
                Ok::<Option<u32>, Fault>(None),
            )
            &&& e[11] / 16 % 2 == 0 && n > 0 && size <= n * g.cluster_size ==> result == (
                after,
                Ok::<Option<u32>, Fault>(None),
            )
            &&& e[11] / 16 % 2 == 0 && n > 0 && size > n * g.cluster_size ==> result == (
                resized(after, mode, RepairMode::chains(), e, at, (n * g.cluster_size) as u32),
                Ok::<Option<u32>, Fault>(None),
            )
        }),
{
    law_kinds_of_entries(e);
    law_fields_of_entries(e);
    lemma_named(e);
}

/// An entry that is discarded is deleted, from the first of its long-name entries on, and counts as one.
pub proof fn law_discarded(g: Geometry, v: Vol, path: Seq<u32>, site: EntrySite, mode: RepairMode)
    requires
        g.wf(v.img.len()),
        whole_chain(g, v.img, path),
        site.wf(),
        site.pos + 32 <= path_size(g, path),
    ensures
        ({
            let (w, res) = entry_discarded(g, v, path[0], site, mode);
            &&& res == Ok::<Option<u32>, Fault>(None)
            &&& w.stats == (RepairStats { entries_removed: bump(v.stats.entries_removed), ..v.stats })
            &&& !mode.applies(RepairMode::entry_validity()) ==> w.img == v.img
            &&& mode.applies(RepairMode::entry_validity()) ==> {
                &&& forall|q: int|
                    is_slot(g, path, q) && site.run_start <= q <= site.pos ==> #[trigger] slot(
                        g,
                        w.img,
                        path,
                        q,
                    )[0] == 229
                &&& forall|q: int|
                    is_slot(g, path, q) && !(site.run_start <= q <= site.pos) ==> #[trigger] slot(
                        g,
                        w.img,
                        path,
                        q,
                    ) == slot(g, v.img, path, q)
            }
        }),
{
    let end = (site.pos + 32) as u64;
    law_run_removed(g, mode, v, path, site.run_start, end, RepairMode::entry_validity());
}

/// The run once all of `entries`, which are long-name entries, have joined it, the first one at `pos`.
pub open spec fn all_joined(lfn: LfnRun, entries: Seq<Seq<u8>>, pos: u32) -> LfnRun
    decreases entries.len(),
{
    if entries.len() == 0 {
        lfn
    } else {
        run_joined(
            all_joined(lfn, entries.drop_last(), pos),
            entries.last(),
            (pos + 32 * (entries.len() - 1)) as u32,
        )
    }
}

/// A run of long-name entries, however long, starts where its first entry is, and is damaged just if one of its entries
/// carries another checksum, at byte 13, than the first. It belongs to a short name just if all of them carry the
/// checksum of that name.
pub proof fn law_long_names(lfn: LfnRun, entries: Seq<Seq<u8>>, pos: u32, name: Seq<u8>)
    requires
        lfn.start is None,
        entries.len() > 0,
        pos + 32 * entries.len() <= u32::MAX,
    ensures
        ({
            let run = all_joined(lfn, entries, pos);
            &&& run.start == Some(pos)
            &&& run.checksum == entries[0][13]
            &&& run.damaged <==> exists|i: int|
                0 <= i < entries.len() && (#[trigger] entries[i])[13] != entries[0][13]
            &&& run_matches(run, name) <==> forall|i: int|
                0 <= i < entries.len() ==> (#[trigger] entries[i])[13] == name_checksum(name)
        }),
    decreases entries.len(),
{
    let run = all_joined(lfn, entries, pos);
    let n = entries.len() as int;
    let front = entries.drop_last();
    let last = entries.last();
    assert(last == entries[n - 1]);
    if n > 1 {
        law_long_names(lfn, front, pos, name);
        let before = all_joined(lfn, front, pos);
        assert(front[0] == entries[0]);
        if before.damaged {
            let i = choose|i: int| 0 <= i < front.len() && (#[trigger] front[i])[13] != front[0][13];
            assert(entries[i][13] != entries[0][13]);
        }
        if exists|i: int| 0 <= i < n && (#[trigger] entries[i])[13] != entries[0][13] {
            let i = choose|i: int| 0 <= i < n && (#[trigger] entries[i])[13] != entries[0][13];
            if i < n - 1 {
                assert(front[i] == entries[i]);
            }
        }
    } else {
        assert(front.len() == 0);
        assert(all_joined(lfn, front, pos) == lfn);
        assert(!run.damaged);
        assert forall|i: int| 0 <= i < n implies (#[trigger] entries[i])[13] == entries[0][13] by {
            assert(i == 0);
        }
    }
    if run_matches(run, name) {
        assert forall|i: int| 0 <= i < n implies (#[trigger] entries[i])[13] == name_checksum(name) by {
            assert(entries[i][13] == entries[0][13]);
        }
    }
    if forall|i: int| 0 <= i < n ==> (#[trigger] entries[i])[13] == name_checksum(name) {
        assert(entries[0][13] == name_checksum(name));
        assert(!run.damaged);
    }
}

/// What looking at an entry does, by its first byte and its attributes, given the run of long-name entries in front of
/// it.
///
/// A zero byte ends the directory, and a deleted entry is passed over; a run in front of either has no short name, and
/// goes. A long-name entry joins the run, and nothing is written. At a short name, a run that does not belong to it
/// goes first; one that does is the short name's.
pub proof fn law_visit(g: Geometry, v: Vol, frame: DirFrame, cur: Cursor, lfn: LfnRun, mode: RepairMode)
    requires
        g.wf(v.img.len()),
        cur.wf(g),
    ensures
        ({
            let at = g.data_start + (cur.cluster - 2) * g.cluster_size + cur.pos % g.cluster_size;
            let e = v.img.subrange(at, at + 32);
            let result = entry_visited(g, v, frame, cur, lfn, mode);
            let first = if frame.cluster == 0 {
                g.root_dir_first_cluster
            } else {
                frame.cluster
            };
            let gone = run_removed(
                g,
                v,
                first,
                lfn.start->0,
                ((cur.pos - lfn.start->0) / 32) as nat,
                mode,
                RepairMode::long_names(),
            );
            let over = LfnRun { start: None, ..lfn };
            let ours = lfn.start is Some && !lfn.damaged && lfn.checksum == name_checksum(e.subrange(0, 11));
            &&& e[0] == 0 && lfn.start is None ==> result == (v, Ok::<Visit, Fault>(Visit::Finish))
            &&& e[0] == 0 && lfn.start is Some ==> result.0 == gone.0 && match gone.1 {
                Ok(_) => result.1 == Ok::<Visit, Fault>(Visit::Finish),
                Err(fault) => result.1 == Err::<Visit, Fault>(fault),
            }
            &&& e[0] == 229 && lfn.start is None ==> result == (v, Ok::<Visit, Fault>(Visit::Next(over)))
            &&& e[0] == 229 && lfn.start is Some ==> result.0 == gone.0 && match gone.1 {
                Ok(_) => result.1 == Ok::<Visit, Fault>(Visit::Next(over)),
                Err(fault) => result.1 == Err::<Visit, Fault>(fault),
            }
            &&& e[0] != 0 && e[0] != 229 && e[11] % 16 == 15 ==> result == (
                v,
                Ok::<Visit, Fault>(Visit::Next(run_joined(lfn, e, cur.pos))),
            )
            &&& e[0] != 0 && e[0] != 229 && e[11] % 16 != 15 && lfn.start is None ==> result
                == short_entry_visited(g, v, frame, cur, cur.pos, e, lfn, mode)
            &&& e[0] != 0 && e[0] != 229 && e[11] % 16 != 15 && ours ==> result == short_entry_visited(
                g,
                v,
                frame,
                cur,
                lfn.start->0,
                e,
                lfn,
                mode,
            )
            &&& e[0] != 0 && e[0] != 229 && e[11] % 16 != 15 && lfn.start is Some && !ours ==> match gone.1 {
                Ok(_) => result == short_entry_visited(g, gone.0, frame, cur, cur.pos, e, lfn, mode),
                Err(fault) => result == (gone.0, Err::<Visit, Fault>(fault)),
            }
        }),
{
    reveal(entry_visited);
    lemma_entry_bounds(g, v.img.len(), cur);
    let at = cur.offset(g);
    let e = v.img.subrange(at, at + 32);
    assert(entry_under(v.img, g, cur) == e);
    law_kinds_of_entries(e);
}

/// What looking at a short-name entry does: a dot entry is made to point home, and a label is checked as one. Any other
/// entry counts as examined, is checked, and is gone down into if the check says so.
pub proof fn law_short_visit(
    g: Geometry,
    v: Vol,
    frame: DirFrame,
    cur: Cursor,
    run_start: u32,
    e: Seq<u8>,
    lfn: LfnRun,
    mode: RepairMode,
)
    requires
        e.len() == 32,
    ensures
        ({
            let at = g.data_start + (cur.cluster - 2) * g.cluster_size + cur.pos % g.cluster_size;
            let result = short_entry_visited(g, v, frame, cur, run_start, e, lfn, mode);
            let over = Ok::<Visit, Fault>(Visit::Next(LfnRun { start: None, ..lfn }));
            let dots = e[0] == 46 && (forall|i: int| 1 <= i < 11 ==> #[trigger] e[i] == 32 || e[i] == 46);
            let counted = Vol {
                img: v.img,
                stats: RepairStats { files_examined: bump(v.stats.files_examined), ..v.stats },
            };
            let first = if frame.cluster == 0 {
                g.root_dir_first_cluster
            } else {
                frame.cluster
            };
            let site = EntrySite { pos: cur.pos, run_start, abs_pos: at as u64 };
            let checked = entry_checked(g, counted, first, e, site, mode);
            &&& dots ==> result == (dot_fixed(v, mode, frame, e, at), over)
            &&& !dots && e[11] / 8 % 4 == 1 ==> result == (label_checked(g, v, e, at, mode), over)
            &&& !dots && e[11] / 8 % 4 != 1 ==> result.0 == checked.0 && match checked.1 {
                Ok(Some(c)) => result.1 == Ok::<Visit, Fault>(Visit::Descend(c)),
                Ok(None) => result.1 == over,
                Err(fault) => result.1 == Err::<Visit, Fault>(fault),
            }
        }),
{
    law_kinds_of_entries(e);
    law_fields_of_entries(e);
    let name = short_name(e);
    law_dot_names(name, e, 1);
    if e[0] == 46 && (forall|i: int| 1 <= i < 11 ==> #[trigger] e[i] == 32 || e[i] == 46) {
        assert forall|i: int| 1 <= i < 11 implies #[trigger] name[i] == 32 || name[i] == 46 by {
            assert(name[i] == e[i]);
        }
        assert(name[0] == e[0]);
    }
    if dot_name(name) {
        assert forall|i: int| 1 <= i < 11 implies #[trigger] e[i] == 32 || e[i] == 46 by {
            assert(name[i] == e[i]);
        }
        assert(name[0] == e[0]);
    }
}

/// A directory is scanned entry by entry, each of them where the one in front of it left the volume, up to its end, or
/// to a directory below. What is behind that is for later. A run that is still waiting for its short name where the
/// directory runs out of clusters goes.
pub proof fn law_scan(g: Geometry, v: Vol, frame: DirFrame, cur: Cursor, lfn: LfnRun, mode: RepairMode)
    ensures
        ({
            let (w, visit) = entry_visited(g, v, frame, cur, lfn, mode);
            let result = scanned_from(g, v, frame, cur, lfn, mode);
            let first = if frame.cluster == 0 {
                g.root_dir_first_cluster
            } else {
                frame.cluster
            };
            match visit {
                Err(fault) => result == (w, Err::<DirStep, Fault>(fault)),
                Ok(Visit::Finish) => result == (w, Ok::<DirStep, Fault>(DirStep::Done)),
                Ok(Visit::Descend(c)) => {
                    &&& result.0 == w
                    &&& cur.pos <= 0xFFFF_FFDF ==> result.1 == Ok::<DirStep, Fault>(
                        DirStep::Descend { cluster: c, resume: (cur.pos + 32) as u32 },
                    )
                    &&& cur.pos > 0xFFFF_FFDF ==> result.1 == Err::<DirStep, Fault>(
                        Fault::CorruptedFileSystem,
                    )
                },
                Ok(Visit::Next(rest)) => match place_after(w.img, g, cur) {
                    Place::At(next) => result == scanned_from(g, w, frame, next, rest, mode),
                    Place::Lost(fault) => result == (w, Err::<DirStep, Fault>(fault)),
                    Place::End => match rest.start {
                        None => result == (w, Ok::<DirStep, Fault>(DirStep::Done)),
                        Some(start) => {
                            let end = (cur.pos + 32) as u32;
                            let gone = run_removed(
                                g,
                                w,
                                first,
                                start,
                                ((end - start) / 32) as nat,
                                mode,
                                RepairMode::long_names(),
                            );
                            result.0 == gone.0 && match gone.1 {
                                Ok(_) => result.1 == Ok::<DirStep, Fault>(DirStep::Done),
                                Err(fault) => result.1 == Err::<DirStep, Fault>(fault),
                            }
                        },
                    },
                },
            }
        }),
{
}

/// The walk of a directory scans it from where it left off, and counts it once. Where an entry leads down, the
/// directory below is walked first, as the child of this one, if there is a level left for it; else it counts as
/// skipped. Either way the scan goes on behind the entry.
pub proof fn law_walk(g: Geometry, v: Vol, frame: DirFrame, room: nat, mode: RepairMode)
    ensures
        ({
            let entered = Vol {
                img: v.img,
                stats: if frame.resume == 0 {
                    RepairStats { dirs_scanned: bump(v.stats.dirs_scanned), ..v.stats }
                } else {
                    v.stats
                },
            };
            let first = if frame.cluster == 0 {
                g.root_dir_first_cluster
            } else {
                frame.cluster
            };
            let (w, step) = match place_at(v.img, g, first, frame.resume) {
                Place::At(cur) => scanned_from(
                    g,
                    entered,
                    frame,
                    cur,
                    LfnRun { start: None, checksum: 0, damaged: false },
                    mode,
                ),
                Place::End => (entered, Ok::<DirStep, Fault>(DirStep::Done)),
                Place::Lost(fault) => (entered, Err::<DirStep, Fault>(fault)),
            };
            let result = tree_walked(g, v, frame, room, mode);
            match step {
                Err(fault) => result == (w, Err::<(), Fault>(fault)),
                Ok(DirStep::Done) => result == (w, Ok::<(), Fault>(())),
                Ok(DirStep::Descend { cluster, resume }) => {
                    let rest = DirFrame { cluster: frame.cluster, parent: frame.parent, resume };
                    let child = DirFrame { cluster, parent: frame.cluster, resume: 0 };
                    let skipped = Vol {
                        img: w.img,
                        stats: RepairStats { dirs_skipped: bump(w.stats.dirs_skipped), ..w.stats },
                    };
                    if room == 0 {
                        result == tree_walked(g, skipped, rest, room, mode)
                    } else {
                        let (below, done) = tree_walked(g, w, child, (room - 1) as nat, mode);
                        match done {
                            Ok(_) => result == tree_walked(g, below, rest, room, mode),
                            Err(fault) => result == (below, Err::<(), Fault>(fault)),
                        }
                    }
                },
            }
        }),
{
}

/// The walk of the volume is that of the root, which is its own parent, and takes up one level.
pub proof fn law_walk_of_volume(g: Geometry, v: Vol, mode: RepairMode, room: nat)
    requires
        room > 0,
    ensures
        ({
            let root = DirFrame { cluster: 0, parent: 0, resume: 0 };
            let (w, res) = tree_walked(g, fat_checked(g, v, mode), root, (room - 1) as nat, mode);
            let result = tree_checked(g, v, mode, room);
            result.0 == w && match res {
                Ok(_) => result.1 is Ok,
                Err(fault) => result.1 == Err::<(), Fault>(fault),
            }
        }),
{
    reveal_with_fuel(stack_walked, 3);
    let stack = seq![root_frame()];
    assert(stack.len() == 1);
    assert(stack.last() == root_frame());
    assert(stack.drop_last() =~= Seq::<DirFrame>::empty());
}

/// An entry with a legal name keeps it, its attributes, and everything else up to byte 20, and counts neither as
/// renamed nor as removed, unless it is hopeless for another reason, or a directory with nothing in it.
pub proof fn law_legal_names_stay(
    g: Geometry,
    v: Vol,
    first: u32,
    e: Seq<u8>,
    site: EntrySite,
    mode: RepairMode,
)
    requires
        g.wf(v.img.len()),
        g.fats_end() <= site.abs_pos,
        site.abs_pos + 32 <= v.img.len(),
        e == v.img.subrange(site.abs_pos as int, site.abs_pos + 32),
        legal_name(e),
        !hopeless(g, e),
        e[11] / 16 % 2 == 1 && cluster_named(e) != 0 ==> chain_from(
            v.img,
            g,
            cluster_named(e) as u32,
            chain_limit(g, e),
            mode.marks(),
        ).path.len() > 0,
    ensures
        ({
            let w = entry_checked(g, v, first, e, site, mode).0;
            let at = site.abs_pos as int;
            &&& forall|i: int| 0 <= i < 20 ==> #[trigger] w.img[at + i] == e[i]
            &&& w.stats.entries_recovered == v.stats.entries_recovered
            &&& w.stats.entries_removed == v.stats.entries_removed
        }),
{
    let at = site.abs_pos as int;
    law_kinds_of_entries(e);
    law_fields_of_entries(e);
    law_entries_without_clusters(g, v, first, e, site, mode);
    let w = entry_checked(g, v, first, e, site, mode).0;
    if cluster_named(e) == 0 {
        law_size_corrected(v, mode, RepairMode::entry_validity(), at, 0);
        assert forall|i: int| 0 <= i < 20 implies #[trigger] w.img[at + i] == e[i] by {
            assert(v.img[at + i] == e[i]);
        }
    } else {
        let start = cluster_named(e) as u32;
        if e[11] / 16 % 2 == 1 && !starts_directory(v.img, g, start) {
            law_no_directory(g, v, first, e, site, start, mode);
            let judged = Vol {
                img: v.img,
                stats: RepairStats { dirs_rejected: bump(v.stats.dirs_rejected), ..v.stats },
            };
            law_chain_scanned(g, judged, start, None, mode, 2);
            assert forall|i: int| 0 <= i < 20 implies #[trigger] w.img[at + i] == e[i] by {
                assert(v.img[at + i] == e[i]);
            }
        } else {
            law_entries_with_clusters(g, v, first, e, site, start, mode);
            let limit = chain_limit(g, e);
            law_chain_scanned(g, v, start, limit, mode, 2);
            let after = chain_scanned(g, v, start, limit, mode);
            let n = chain_from(v.img, g, start, limit, mode.marks()).path.len();
            assert(after.img.subrange(at, at + 32) =~= e);
            law_size_corrected(after, mode, RepairMode::chains(), at, (n * g.cluster_size) as u32);
            law_file_emptied(after, mode, at);
            assert forall|i: int| 0 <= i < 20 implies #[trigger] w.img[at + i] == e[i] by {
                assert(after.img[at + i] == e[i]);
            }
        }
    }
}

/// A hopeless entry is discarded, and no other is for what it says itself: what is discarded is the run of entries of
/// 32 bytes from the first of its long-name entries up to it, whatever its directory looks like.
pub proof fn law_hopeless_entries(
    g: Geometry,
    v: Vol,
    first: u32,
    e: Seq<u8>,
    site: EntrySite,
    mode: RepairMode,
)
    requires
        g.total_clusters <= 0x0FFF_FFF4,
        e.len() == 32,
        hopeless(g, e),
    ensures
        ({
            let gone = run_removed(
                g,
                v,
                first,
                site.run_start,
                ((site.pos + 32 - site.run_start) / 32) as nat,
                mode,
                RepairMode::entry_validity(),
            );
            let result = entry_checked(g, v, first, e, site, mode);
            &&& result == entry_discarded(g, v, first, site, mode)
            &&& result.0 == gone.0
            &&& match gone.1 {
                Ok(_) => result.1 == Ok::<Option<u32>, Fault>(None),
                Err(fault) => result.1 == Err::<Option<u32>, Fault>(fault),
            }
        }),
{
    law_kinds_of_entries(e);
    law_fields_of_entries(e);
    lemma_named(e);
}

} // verus!
