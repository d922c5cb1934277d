//! Where an interrupted walk may have written.

use vstd::prelude::*;

use crate::chain::chain_scanned;
use crate::dir::{dir_start, lemma_entry_bounds, link_of, nth_cluster, place_after, place_at, Cursor, Link, Place};
use crate::fat::only_fat_changed;
use crate::geometry::{Geometry, DIR_ENTRY_SIZE};
use crate::kept::{cluster_kept, contained, data_kept, in_dirs, lemma_chain_kept, lemma_same_fat, rest_kept};
use crate::kept_walk::{lemma_dir_scanned_stays, lemma_dirs_after, lemma_dirs_nth, lemma_dirs_root, lemma_visited_stays};
use crate::mode::RepairMode;
use crate::model::Vol;
use crate::phases::lemma_contained;
use crate::scratch::DirFrame;
use crate::walk::{dir_scanned, entry_visited, frame_ok, root_frame, run_ok, DirStep, LfnRun};

verus! {

/// `b` is as long as `a`, and differs from it, behind the FAT, only in clusters that belong to directories of `a`.
pub open spec fn dirs_only(g: Geometry, a: Seq<u8>, b: Seq<u8>) -> bool {
    &&& b.len() == a.len()
    &&& rest_kept(g, a, b)
    &&& forall|c: u32|
        #![trigger cluster_kept(g, a, b, c)]
        g.valid_cluster(c) && !in_dirs(g, a, c) ==> cluster_kept(g, a, b, c)
}

/// Whether the entry at `at` lies in cluster `c`.
pub open spec fn lies_in(g: Geometry, c: u32, at: int) -> bool {
    &&& g.valid_cluster(c)
    &&& g.cluster_start(c as int) <= at
    &&& at + DIR_ENTRY_SIZE <= g.cluster_start(c as int) + g.cluster_size
}

/// Whether the entry at `at` belongs to a directory.
pub open spec fn dir_slot(g: Geometry, origin: Seq<u8>, at: int) -> bool {
    exists|c: u32| #[trigger] lies_in(g, c, at) && in_dirs(g, origin, c)
}

/// Whatever volume the walk set out from, if `a` differs from it only in directories, and cluster `first` and the entry
/// at `at` belong to directories of it, then `b` differs from it only in directories.
#[verifier::opaque]
pub open spec fn confined(g: Geometry, a: Seq<u8>, b: Seq<u8>, first: u32, at: int) -> bool {
    forall|origin: Seq<u8>| #[trigger]
        contained(g, origin, a) && in_dirs(g, origin, first) && dir_slot(g, origin, at) ==> dirs_only(
            g,
            origin,
            b,
        )
}

/// The same, and the chains of `b` are those of the volume that the walk set out from, cut short here and there.
#[verifier::opaque]
pub open spec fn carried(g: Geometry, a: Seq<u8>, b: Seq<u8>, first: u32, at: int) -> bool {
    forall|origin: Seq<u8>| #[trigger]
        contained(g, origin, a) && in_dirs(g, origin, first) && dir_slot(g, origin, at) ==> contained(
            g,
            origin,
            b,
        )
}

/// [`confined`], for a step that has only the directory at `first` to go by.
#[verifier::opaque]
pub open spec fn dir_confined(g: Geometry, a: Seq<u8>, b: Seq<u8>, first: u32) -> bool {
    forall|origin: Seq<u8>| #[trigger]
        contained(g, origin, a) && in_dirs(g, origin, first) ==> dirs_only(g, origin, b)
}

/// [`carried`], for a step that has only the directory at `first` to go by.
#[verifier::opaque]
pub open spec fn dir_carried(g: Geometry, a: Seq<u8>, b: Seq<u8>, first: u32) -> bool {
    forall|origin: Seq<u8>| #[trigger]
        contained(g, origin, a) && in_dirs(g, origin, first) ==> contained(g, origin, b)
}

/// Whether the directory at `first` leads to the entry at `at`.
#[verifier::opaque]
pub open spec fn leads_to(g: Geometry, a: Seq<u8>, first: u32, at: int) -> bool {
    forall|origin: Seq<u8>| #[trigger]
        contained(g, origin, a) && in_dirs(g, origin, first) ==> dir_slot(g, origin, at)
}

/// What may follow a step that was carried out.
pub proof fn lemma_then(g: Geometry, a: Seq<u8>, m: Seq<u8>, first: u32, at: int)
    requires
        carried(g, a, m, first, at),
    ensures
        confined(g, a, m, first, at),
        forall|b: Seq<u8>| #[trigger] confined(g, m, b, first, at) ==> confined(g, a, b, first, at),
        forall|b: Seq<u8>| #[trigger] carried(g, m, b, first, at) ==> confined(g, a, b, first, at)
            && carried(g, a, b, first, at),
{
    reveal(confined);
    reveal(carried);
}

/// What may follow a step that was carried out, when the entry is one of the directory.
pub proof fn lemma_dir_then(g: Geometry, a: Seq<u8>, m: Seq<u8>, first: u32, at: int)
    requires
        dir_carried(g, a, m, first),
        leads_to(g, a, first, at),
    ensures
        dir_confined(g, a, m, first),
        forall|b: Seq<u8>| #[trigger] confined(g, m, b, first, at) ==> dir_confined(g, a, b, first),
        forall|b: Seq<u8>| #[trigger] carried(g, m, b, first, at) ==> dir_confined(g, a, b, first)
            && dir_carried(g, a, b, first),
        forall|b: Seq<u8>| #[trigger] dir_carried(g, m, b, first) ==> dir_confined(g, a, b, first)
            && dir_carried(g, a, b, first),
{
    reveal(confined);
    reveal(carried);
    reveal(dir_confined);
    reveal(dir_carried);
    reveal(leads_to);
}

/// A step that goes by the directory alone.
pub proof fn lemma_by_dir(g: Geometry, a: Seq<u8>, b: Seq<u8>, first: u32, at: int)
    requires
        dir_carried(g, a, b, first),
    ensures
        carried(g, a, b, first, at),
        confined(g, a, b, first, at),
        dir_confined(g, a, b, first),
{
    reveal(confined);
    reveal(carried);
    reveal(dir_carried);
    reveal(dir_confined);
}

/// Nothing happened.
pub proof fn lemma_carried_self(g: Geometry, a: Seq<u8>, first: u32, at: int)
    ensures
        carried(g, a, a, first, at),
        confined(g, a, a, first, at),
        dir_carried(g, a, a, first),
        dir_confined(g, a, a, first),
{
    reveal(confined);
    reveal(carried);
    reveal(dir_carried);
    reveal(dir_confined);
}

/// A step that leaves everything behind the FAT as it is.
pub proof fn lemma_confined_fat(g: Geometry, a: Seq<u8>, b: Seq<u8>, first: u32, at: int)
    requires
        g.wf(a.len()),
        a.len() == b.len(),
        forall|i: int| g.fats_end() <= i < a.len() ==> #[trigger] b[i] == a[i],
    ensures
        confined(g, a, b, first, at),
{
    reveal(confined);
    assert forall|origin: Seq<u8>| #[trigger]
        contained(g, origin, a) && in_dirs(g, origin, first) && dir_slot(
            g,
            origin,
            at,
        ) implies dirs_only(g, origin, b) by {
        lemma_dirs_only_fat(g, origin, a, b);
    }
}

/// A step that changes only the FAT, in the words that the steps use.
pub proof fn lemma_fat_then(g: Geometry, a: Seq<u8>, first: u32, at: int)
    requires
        g.wf(a.len()),
    ensures
        forall|b: Seq<u8>| #[trigger] only_fat_changed(g, a, b) ==> confined(g, a, b, first, at),
{
    assert forall|b: Seq<u8>| #[trigger] only_fat_changed(g, a, b) implies confined(
        g,
        a,
        b,
        first,
        at,
    ) by {
        lemma_confined_fat(g, a, b, first, at);
    }
}

/// A chain that was scanned.
pub proof fn lemma_chain_carried(
    g: Geometry,
    mode: RepairMode,
    v: Vol,
    start: u32,
    limit: Option<u32>,
    first: u32,
    at: int,
)
    requires
        g.wf(v.img.len()),
    ensures
        carried(g, v.img, chain_scanned(g, v, start, limit, mode).img, first, at),
        chain_scanned(g, v, start, limit, mode).img.len() == v.img.len(),
{
    reveal(carried);
    let b = chain_scanned(g, v, start, limit, mode).img;
    lemma_contained(g, v.img, v.img);
    lemma_chain_kept(g, mode, v.img, v, start, limit);
    assert forall|origin: Seq<u8>| #[trigger]
        contained(g, origin, v.img) && in_dirs(g, origin, first) && dir_slot(
            g,
            origin,
            at,
        ) implies contained(g, origin, b) by {
        lemma_chain_kept(g, mode, origin, v, start, limit);
    }
}

/// A change that leaves everything behind the FAT as it is.
pub proof fn lemma_dirs_only_fat(g: Geometry, origin: Seq<u8>, a: Seq<u8>, b: Seq<u8>)
    requires
        g.wf(a.len()),
        a.len() == b.len(),
        dirs_only(g, origin, a),
        forall|i: int| g.fats_end() <= i < a.len() ==> #[trigger] b[i] == a[i],
    ensures
        dirs_only(g, origin, b),
{
    assert forall|c: u32|
        #![trigger cluster_kept(g, origin, b, c)]
        g.valid_cluster(c) && !in_dirs(g, origin, c) implies cluster_kept(g, origin, b, c) by {
        assert(cluster_kept(g, origin, a, c));
        g.lemma_cluster_bounds(a.len(), c as int);
    }
}

/// A step that edits the entry at `at` at most, whether it succeeded or not.
pub proof fn lemma_carried_edit(g: Geometry, a: Seq<u8>, b: Seq<u8>, first: u32, at: int)
    requires
        g.wf(a.len()),
        a.len() == b.len(),
        g.data_start <= at,
        forall|i: int|
            0 <= i < a.len() && !(at <= i < at + DIR_ENTRY_SIZE) ==> #[trigger] b[i] == a[i],
    ensures
        carried(g, a, b, first, at),
{
    reveal(carried);
    g.lemma_copy_bounds(a.len(), 0);
    lemma_same_fat(g, a, b);
    assert forall|origin: Seq<u8>| #[trigger]
        contained(g, origin, a) && in_dirs(g, origin, first) && dir_slot(
            g,
            origin,
            at,
        ) implies contained(g, origin, b) by {
        let here = choose|c: u32| #[trigger] lies_in(g, c, at) && in_dirs(g, origin, c);
        g.lemma_clusters_disjoint(a.len(), here as int, g.fat_entries());
        assert forall|c: u32|
            #![trigger cluster_kept(g, origin, b, c)]
            g.valid_cluster(c) && !in_dirs(g, origin, c) implies cluster_kept(g, origin, b, c) by {
            assert(c != here);
            assert(cluster_kept(g, origin, a, c));
            if c < here {
                g.lemma_clusters_disjoint(a.len(), c as int, here as int);
            } else {
                g.lemma_clusters_disjoint(a.len(), here as int, c as int);
            }
            g.lemma_cluster_bounds(a.len(), c as int);
            assert forall|i: int|
                g.cluster_start(c as int) <= i < g.cluster_start(c as int)
                    + g.cluster_size implies #[trigger] b[i] == origin[i] by {
                assert(a[i] == origin[i]);
            }
        }
        assert forall|c: u32| g.valid_cluster(c) implies #[trigger] link_of(b, g, c) == link_of(
            origin,
            g,
            c,
        ) || link_of(b, g, c) is End by {
            assert(link_of(a, g, c) == link_of(origin, g, c) || link_of(a, g, c) is End);
        }
    }
}

/// An edit, in the words that the steps use.
pub proof fn lemma_edit_then(g: Geometry, a: Seq<u8>, first: u32, at: int)
    requires
        g.wf(a.len()),
        g.data_start <= at,
    ensures
        forall|b: Seq<u8>| #[trigger]
            edited(a, b, at) ==> carried(g, a, b, first, at) && confined(g, a, b, first, at),
{
    assert forall|b: Seq<u8>| #[trigger] edited(a, b, at) implies carried(g, a, b, first, at)
        && confined(g, a, b, first, at) by {
        lemma_carried_edit(g, a, b, first, at);
        lemma_then(g, a, b, first, at);
    }
}

/// `b` is `a` but for the 32 bytes from `at` on.
pub open spec fn edited(a: Seq<u8>, b: Seq<u8>, at: int) -> bool {
    &&& b.len() == a.len()
    &&& forall|i: int| 0 <= i < a.len() && !(at <= i < at + DIR_ENTRY_SIZE) ==> #[trigger] b[i] == a[i]
}

/// The place of a cursor.
proof fn lemma_cursor_lies(g: Geometry, size: nat, cur: Cursor)
    requires
        g.wf(size),
        cur.wf(g),
    ensures
        lies_in(g, cur.cluster, cur.offset(g)),
{
    lemma_entry_bounds(g, size, cur);
}

/// Where a position of a directory is.
pub proof fn lemma_leads_at(g: Geometry, a: Seq<u8>, first: u32, pos: u32, cur: Cursor)
    requires
        g.wf(a.len()),
        g.valid_cluster(first),
        cur.wf(g),
        place_at(a, g, first, pos) == Place::At(cur),
    ensures
        leads_to(g, a, first, cur.offset(g)),
{
    reveal(leads_to);
    lemma_cursor_lies(g, a.len(), cur);
    let k = (pos / g.cluster_size) as nat;
    assert(nth_cluster(a, g, first, k) == Link::To(cur.cluster));
    assert forall|origin: Seq<u8>| #[trigger]
        contained(g, origin, a) && in_dirs(g, origin, first) implies dir_slot(
        g,
        origin,
        cur.offset(g),
    ) by {
        lemma_dirs_nth(g, origin, a, first, k, cur.cluster);
        assert(lies_in(g, cur.cluster, cur.offset(g)));
    }
}

/// Where the next entry of a directory is.
pub proof fn lemma_leads_after(
    g: Geometry,
    a: Seq<u8>,
    m: Seq<u8>,
    first: u32,
    cur: Cursor,
    next: Cursor,
)
    requires
        g.wf(a.len()),
        a.len() == m.len(),
        cur.wf(g),
        next.wf(g),
        dir_carried(g, a, m, first),
        leads_to(g, a, first, cur.offset(g)),
        place_after(m, g, cur) == Place::At(next),
    ensures
        leads_to(g, a, first, next.offset(g)),
{
    reveal(leads_to);
    reveal(dir_carried);
    lemma_cursor_lies(g, a.len(), cur);
    lemma_cursor_lies(g, a.len(), next);
    assert forall|origin: Seq<u8>| #[trigger]
        contained(g, origin, a) && in_dirs(g, origin, first) implies dir_slot(
        g,
        origin,
        next.offset(g),
    ) by {
        let c = choose|c: u32| #[trigger] lies_in(g, c, cur.offset(g)) && in_dirs(g, origin, c);
        if c < cur.cluster {
            g.lemma_clusters_disjoint(a.len(), c as int, cur.cluster as int);
        } else if cur.cluster < c {
            g.lemma_clusters_disjoint(a.len(), cur.cluster as int, c as int);
        }
        assert(c == cur.cluster);
        lemma_dirs_after(g, origin, m, cur);
        assert(lies_in(g, next.cluster, next.offset(g)));
    }
}

/// What goes by the directory alone, in the words that the steps use.
pub proof fn lemma_by_dir_then(g: Geometry, a: Seq<u8>, first: u32, at: int)
    ensures
        forall|b: Seq<u8>| #[trigger] dir_carried(g, a, b, first) ==> carried(g, a, b, first, at)
            && confined(g, a, b, first, at),
{
    assert forall|b: Seq<u8>| #[trigger] dir_carried(g, a, b, first) implies carried(
        g,
        a,
        b,
        first,
        at,
    ) && confined(g, a, b, first, at) by {
        lemma_by_dir(g, a, b, first, at);
    }
}

/// A visit that was carried out.
pub proof fn lemma_visited_carried(
    g: Geometry,
    mode: RepairMode,
    v: Vol,
    frame: DirFrame,
    cur: Cursor,
    lfn: LfnRun,
)
    requires
        g.wf(v.img.len()),
        frame_ok(g, frame),
        cur.wf(g),
        run_ok(lfn, cur.pos),
    ensures
        carried(
            g,
            v.img,
            entry_visited(g, v, frame, cur, lfn, mode).0.img,
            dir_start(g, frame.cluster),
            cur.offset(g),
        ),
{
    reveal(carried);
    let first = dir_start(g, frame.cluster);
    let b = entry_visited(g, v, frame, cur, lfn, mode).0.img;
    lemma_cursor_lies(g, v.img.len(), cur);
    assert forall|origin: Seq<u8>| #[trigger]
        contained(g, origin, v.img) && in_dirs(g, origin, first) && dir_slot(
            g,
            origin,
            cur.offset(g),
        ) implies contained(g, origin, b) by {
        let c = choose|c: u32| #[trigger] lies_in(g, c, cur.offset(g)) && in_dirs(g, origin, c);
        if c < cur.cluster {
            g.lemma_clusters_disjoint(v.img.len(), c as int, cur.cluster as int);
        } else if cur.cluster < c {
            g.lemma_clusters_disjoint(v.img.len(), cur.cluster as int, c as int);
        }
        lemma_visited_stays(g, mode, origin, v, frame, cur, lfn);
    }
}

/// Whether every directory on the stack is one of `origin`.
pub open spec fn stack_in(g: Geometry, origin: Seq<u8>, stack: Seq<DirFrame>) -> bool {
    forall|i: int|
        0 <= i < stack.len() ==> in_dirs(g, origin, dir_start(g, #[trigger] stack[i].cluster))
}

/// [`confined`], for the walk of the directories on the stack.
#[verifier::opaque]
pub open spec fn walk_confined(g: Geometry, a: Seq<u8>, stack: Seq<DirFrame>, b: Seq<u8>) -> bool {
    forall|origin: Seq<u8>| #[trigger]
        contained(g, origin, a) && stack_in(g, origin, stack) ==> dirs_only(g, origin, b)
}

/// [`carried`], for the walk of the directories on the stack, which is `rest` by then.
#[verifier::opaque]
pub open spec fn walk_carried(
    g: Geometry,
    a: Seq<u8>,
    stack: Seq<DirFrame>,
    b: Seq<u8>,
    rest: Seq<DirFrame>,
) -> bool {
    forall|origin: Seq<u8>| #[trigger]
        contained(g, origin, a) && stack_in(g, origin, stack) ==> contained(g, origin, b)
            && stack_in(g, origin, rest)
}

/// The walk begins with the root.
pub proof fn lemma_walk_begins(g: Geometry, a: Seq<u8>, stack: Seq<DirFrame>)
    requires
        g.wf(a.len()),
    ensures
        walk_carried(g, a, stack, a, stack.push(root_frame())),
        walk_confined(g, a, stack, a),
{
    reveal(walk_carried);
    reveal(walk_confined);
    let rest = stack.push(root_frame());
    assert forall|origin: Seq<u8>| #[trigger]
        contained(g, origin, a) && stack_in(g, origin, stack) implies stack_in(g, origin, rest) by {
        lemma_dirs_root(g, origin);
        assert forall|i: int| 0 <= i < rest.len() implies in_dirs(
            g,
            origin,
            dir_start(g, #[trigger] rest[i].cluster),
        ) by {
            if i < stack.len() {
                assert(rest[i] == stack[i]);
                assert(in_dirs(g, origin, dir_start(g, stack[i].cluster)));
            }
        }
    }
}

/// What the walk has done so far.
pub proof fn lemma_walked(
    g: Geometry,
    a: Seq<u8>,
    stack: Seq<DirFrame>,
    b: Seq<u8>,
    rest: Seq<DirFrame>,
)
    requires
        walk_carried(g, a, stack, b, rest),
    ensures
        walk_confined(g, a, stack, b),
{
    reveal(walk_carried);
    reveal(walk_confined);
}

/// The scan of the directory on top of the stack is what the walk may do.
pub proof fn lemma_walk_then(
    g: Geometry,
    a: Seq<u8>,
    stack: Seq<DirFrame>,
    m: Seq<u8>,
    rest: Seq<DirFrame>,
)
    requires
        walk_carried(g, a, stack, m, rest),
        rest.len() > 0,
    ensures
        walk_confined(g, a, stack, m),
        forall|b: Seq<u8>| #[trigger]
            dir_confined(g, m, b, dir_start(g, rest.last().cluster)) ==> walk_confined(
                g,
                a,
                stack,
                b,
            ),
{
    reveal(walk_carried);
    reveal(walk_confined);
    reveal(dir_confined);
    assert forall|origin: Seq<u8>| #[trigger] stack_in(g, origin, rest) implies in_dirs(
        g,
        origin,
        dir_start(g, rest.last().cluster),
    ) by {
        assert(in_dirs(g, origin, dir_start(g, rest[rest.len() - 1].cluster)));
    }
}

/// The walk goes on behind the scan of the directory on top of the stack.
pub proof fn lemma_walk_goes_on(
    g: Geometry,
    mode: RepairMode,
    a: Seq<u8>,
    stack: Seq<DirFrame>,
    v: Vol,
    rest: Seq<DirFrame>,
    next: Seq<DirFrame>,
)
    requires
        g.wf(v.img.len()),
        walk_carried(g, a, stack, v.img, rest),
        rest.len() > 0,
        frame_ok(g, rest.last()),
        ({
            let res = dir_scanned(g, v, rest.last(), mode).1;
            forall|i: int|
                0 <= i < next.len() ==> (i < rest.len() && (#[trigger] next[i]).cluster
                    == rest[i].cluster) || (res matches Ok(DirStep::Descend { cluster, resume })
                    && next[i].cluster == cluster && cluster != 0)
        }),
    ensures
        walk_carried(g, a, stack, dir_scanned(g, v, rest.last(), mode).0.img, next),
{
    reveal(walk_carried);
    let b = dir_scanned(g, v, rest.last(), mode).0.img;
    assert forall|origin: Seq<u8>| #[trigger]
        contained(g, origin, a) && stack_in(g, origin, stack) implies contained(g, origin, b)
        && stack_in(g, origin, next) by {
        assert(in_dirs(g, origin, dir_start(g, rest[rest.len() - 1].cluster)));
        lemma_dir_scanned_stays(g, mode, origin, v, rest.last());
        assert forall|i: int| 0 <= i < next.len() implies in_dirs(
            g,
            origin,
            dir_start(g, #[trigger] next[i].cluster),
        ) by {
            if i < rest.len() && next[i].cluster == rest[i].cluster {
                assert(in_dirs(g, origin, dir_start(g, rest[i].cluster)));
            }
        }
    }
}

/// Every cluster that belongs to no directory of `origin` holds in `b` what it held in `a`, and so does whatever is no
/// cluster behind the FAT.
pub open spec fn files_spared(g: Geometry, origin: Seq<u8>, a: Seq<u8>, b: Seq<u8>) -> bool {
    &&& rest_kept(g, a, b)
    &&& forall|c: u32|
        g.valid_cluster(c) && !in_dirs(g, origin, c) ==> #[trigger] cluster_kept(g, a, b, c)
}

/// What spares the files before the walk.
pub proof fn lemma_spared(g: Geometry, a: Seq<u8>, origin: Seq<u8>)
    requires
        g.wf(a.len()),
        a.len() == origin.len(),
        data_kept(g, a, origin),
    ensures
        forall|b: Seq<u8>| #[trigger] data_kept(g, a, b) && b.len() == a.len() ==> files_spared(
            g,
            origin,
            a,
            b,
        ),
        forall|b: Seq<u8>| #[trigger] dirs_only(g, origin, b) ==> files_spared(g, origin, a, b),
{
    assert forall|b: Seq<u8>| #[trigger] data_kept(g, a, b) && b.len() == a.len() implies files_spared(
        g,
        origin,
        a,
        b,
    ) by {
        assert forall|c: u32| g.valid_cluster(c) && !in_dirs(g, origin, c) implies #[trigger] cluster_kept(
            g,
            a,
            b,
            c,
        ) by {
            g.lemma_cluster_bounds(a.len(), c as int);
        }
    }
    assert forall|b: Seq<u8>| #[trigger] dirs_only(g, origin, b) implies files_spared(g, origin, a, b) by {
        assert forall|c: u32| g.valid_cluster(c) && !in_dirs(g, origin, c) implies #[trigger] cluster_kept(
            g,
            a,
            b,
            c,
        ) by {
            g.lemma_cluster_bounds(a.len(), c as int);
            assert(cluster_kept(g, origin, b, c));
        }
    }
}

/// What may follow the walk, or come before it.
pub proof fn lemma_fat_only_then(g: Geometry, origin: Seq<u8>, m: Seq<u8>)
    requires
        g.wf(m.len()),
        dirs_only(g, origin, m),
    ensures
        forall|b: Seq<u8>| #[trigger] only_fat_changed(g, m, b) ==> dirs_only(g, origin, b),
        forall|b: Seq<u8>| #[trigger] data_kept(g, m, b) && b.len() == m.len() ==> dirs_only(
            g,
            origin,
            b,
        ),
{
    assert forall|b: Seq<u8>| #[trigger] only_fat_changed(g, m, b) implies dirs_only(g, origin, b) by {
        lemma_dirs_only_fat(g, origin, m, b);
    }
    assert forall|b: Seq<u8>| #[trigger] data_kept(g, m, b) && b.len() == m.len() implies dirs_only(
        g,
        origin,
        b,
    ) by {
        lemma_dirs_only_fat(g, origin, m, b);
    }
}

/// What the walk does to a volume that differs from `origin` only in directories.
pub proof fn lemma_walk_spares(g: Geometry, origin: Seq<u8>, m: Seq<u8>)
    requires
        contained(g, origin, m),
    ensures
        forall|b: Seq<u8>| #[trigger] walk_confined(g, m, Seq::empty(), b) ==> dirs_only(
            g,
            origin,
            b,
        ),
{
    reveal(walk_confined);
    assert(stack_in(g, origin, Seq::empty()));
}

} // verus!
