//! What one visit of a thorough run makes of a directory, entry by entry.

use vstd::prelude::*;

use crate::bytes::{le_u32, splice, u16_bytes};
use crate::chain::{chain_from, chain_scanned, lemma_chain_begins};
use crate::chain_laws::{law_chain_length, lemma_cleared_fields, lemma_size_fits, lemma_sized_fields};
use crate::dir::{dir_start, entry_at, entry_under, fields_put, name_put, starts_directory, Cursor};
use crate::dirent::{
    attributes_possible, cluster_field, dot_name, dots, file_size, first_cluster, illegal_in_name, is_deleted, is_dir,
    is_dots_entry, is_end, is_label, is_lfn, name_corrupted, recovered_name, short_name, with_cluster, with_size,
    DIR_ENTRY_DELETED_FLAG, SFN_DOT, SFN_PADDING,
};
use crate::entry::{
    capacity_of, chain_limit, dir_rejected, dot_fixed, dot_target, entries_between, entry_checked, entry_discarded,
    linked_entry_checked, renamed, EntrySite,
};
use crate::fat::{marked, only_fat_changed, raw_entry};
use crate::geometry::{Geometry, DIR_ENTRY_SIZE};
use crate::kept::{allocated, cluster_kept};
use crate::mode::RepairMode;
use crate::model::Vol;
use crate::owned::{
    is_slot, lemma_chain_claimed, lemma_on_path, lemma_only_slots_trans, lemma_position, lemma_run_deleted,
    lemma_slot_edit, lemma_whole_kept, none_marked, on_path, only_slots, outside, owned, place_on, same_fat, slot,
    whole_chain,
};
use crate::scratch::DirFrame;
use crate::stats::{bump, RepairStats};
use crate::walk::{entry_visited, long_name_dropped, run_joined, run_matches, short_entry_visited, LfnRun, Visit};

verus! {

/// Whether a run marks, and repairs everything that its walk counts as damage.
pub open spec fn thorough(mode: RepairMode) -> bool {
    &&& mode.marks()
    &&& mode.applies(RepairMode::chains())
    &&& mode.applies(RepairMode::entry_validity())
    &&& mode.applies(RepairMode::long_names())
}

/// `b` has the FAT of `a`, but for the clusters of `q`, which are claimed.
pub open spec fn claims(g: Geometry, a: Seq<u8>, b: Seq<u8>, q: Seq<u32>) -> bool {
    &&& forall|c: u32|
        g.valid_cluster(c) ==> marked(#[trigger] raw_entry(b, g, c)) == (marked(raw_entry(a, g, c))
            || q.contains(c))
    &&& forall|c: u32|
        g.valid_cluster(c) && !q.contains(c) ==> #[trigger] raw_entry(b, g, c) == raw_entry(a, g, c)
    &&& forall|c: u32|
        g.valid_cluster(c) && q.contains(c) ==> allocated(#[trigger] raw_entry(a, g, c))
}

/// Whether there is nothing to take at cluster `c`: somebody has claimed it, or it is free or bad.
pub open spec fn dead_end(g: Geometry, img: Seq<u8>, c: u32) -> bool {
    marked(raw_entry(img, g, c)) || !allocated(raw_entry(img, g, c))
}

/// Whether no cluster starts a directory in `b` that did not in `a`.
pub open spec fn no_new_dirs(g: Geometry, a: Seq<u8>, b: Seq<u8>) -> bool {
    forall|c: u32| g.valid_cluster(c) && #[trigger] starts_directory(b, g, c) ==> starts_directory(a, g, c)
}

/// Whether what the FAT said of free and bad clusters in `a` it says in `b`.
pub open spec fn holes_kept(g: Geometry, a: Seq<u8>, b: Seq<u8>) -> bool {
    forall|c: u32|
        g.valid_cluster(c) && !allocated(raw_entry(a, g, c)) ==> #[trigger] raw_entry(b, g, c)
            == raw_entry(a, g, c)
}

/// The part of an entry that is not edited unless it is renamed or deleted: its name and its attributes.
pub open spec fn head(e: Seq<u8>) -> Seq<u8> {
    e.subrange(0, 20)
}

/// Whether a name is one that an entry can have, and that makes it neither a deleted nor a dot entry.
pub open spec fn fit_name(name: Seq<u8>) -> bool {
    &&& !name_corrupted(name)
    &&& !dot_name(name)
    &&& name[0] != 0
    &&& name[0] != DIR_ENTRY_DELETED_FLAG
}

/// Whether every name that was given between `a` and `b` is fit for an entry: the label in the boot sector is, or no
/// name was given at all.
pub open spec fn names_fit(g: Geometry, a: RepairStats, b: RepairStats) -> bool {
    fit_name(g.volume_label@) || b.entries_recovered == a.entries_recovered < u32::MAX
}

/// What the head of the entry `e` may become unless the entry is deleted: it stays as it is, but for the name, if that
/// was illegal.
pub open spec fn head_settled(e: Seq<u8>, now: Seq<u8>) -> bool {
    &&& now[11] == e[11]
    &&& head(now) == head(e) || (!dot_name(short_name(e)) && name_corrupted(short_name(e))
        && fit_name(short_name(now)))
}

/// Whether an entry that kept its place, but not its name, was counted.
pub open spec fn rename_counted(e: Seq<u8>, now: Seq<u8>, a: RepairStats, b: RepairStats) -> bool {
    !is_deleted(now) && short_name(now) != short_name(e)
        ==> b.entries_recovered == bump(a.entries_recovered)
}

/// What an entry is once it was checked: its first cluster, if it has one, starts the chain `q`, which it has claimed,
/// and which is as long as it says. `down` is that cluster, if it is a directory to descend into. What claims to be a
/// directory and is none may lead nowhere.
pub open spec fn entry_settled(
    g: Geometry,
    a: Seq<u8>,
    b: Seq<u8>,
    e: Seq<u8>,
    q: Seq<u32>,
    down: Option<u32>,
) -> bool {
    &&& attributes_possible(e)
    &&& match first_cluster(e) {
        None => !name_corrupted(short_name(e)) && file_size(e) == 0 && q.len() == 0 && down is None,
        Some(start) => {
            &&& g.valid_cluster(start)
            &&& q.len() > 0 ==> {
                &&& q[0] == start
                &&& owned(g, b, q)
                &&& none_marked(g, a, q)
            }
            &&& if is_dir(e) && !starts_directory(a, g, start) {
                &&& q.len() == 0 ==> dead_end(g, a, start)
                &&& down is None
            } else {
                &&& !name_corrupted(short_name(e))
                &&& q.len() > 0
                &&& if is_dir(e) {
                    &&& q.len() <= g.max_dir_chain()
                    &&& down == Some(start)
                } else {
                    &&& q.len() == g.clusters_for(file_size(e))
                    &&& file_size(e) <= capacity_of(g, q.len() as int)
                    &&& down is None
                }
            }
        },
    }
}

/// Nothing behind the FAT changes where only the FAT does.
pub proof fn lemma_fat_only(g: Geometry, path: Seq<u32>, a: Seq<u8>, b: Seq<u8>, at: int)
    requires
        g.wf(a.len()),
        only_fat_changed(g, a, b),
        forall|i: int| 0 <= i < path.len() ==> #[trigger] g.valid_cluster(path[i]),
    ensures
        only_slots(g, path, at, at, a, b),
{
    assert forall|q: int| is_slot(g, path, q) && outside(at, at, q) implies #[trigger] slot(
        g,
        b,
        path,
        q,
    ) == slot(g, a, path, q) by {
        lemma_position(g, a.len(), path, q);
        assert(slot(g, b, path, q) =~= slot(g, a, path, q));
    }
    assert forall|c: u32| g.valid_cluster(c) && !path.contains(c) implies #[trigger] cluster_kept(
        g,
        a,
        b,
        c,
    ) by {
        g.lemma_cluster_bounds(a.len(), c as int);
    }
}

/// An entry whose fields were stored.
proof fn lemma_fields_stored(e: Seq<u8>, f: Seq<u8>)
    requires
        e.len() == 32,
        f.len() == 32,
    ensures
        ({
            let now = splice(e, 20, f.subrange(20, 32));
            &&& head(now) == head(e)
            &&& short_name(now) == short_name(e)
            &&& now[11] == e[11]
            &&& le_u32(now, 28) == le_u32(f, 28)
            &&& cluster_field(now) == cluster_field(f)
        }),
{
    let now = splice(e, 20, f.subrange(20, 32));
    assert forall|i: int| 20 <= i < 32 implies #[trigger] now[i] == f[i] by {
        assert(f.subrange(20, 32)[i - 20] == f[i]);
    }
    assert(head(now) =~= head(e));
    assert(short_name(now) =~= short_name(e));
}

/// Storing the fields of the entry at `cur`.
pub proof fn lemma_fields_edit(g: Geometry, img: Seq<u8>, path: Seq<u32>, cur: Cursor, f: Seq<u8>)
    requires
        g.wf(img.len()),
        whole_chain(g, img, path),
        on_path(g, path, cur),
        f.len() == 32,
    ensures
        ({
            let p = cur.pos as int;
            let e = slot(g, img, path, p);
            let b = fields_put(img, cur.offset(g), f);
            let now = slot(g, b, path, p);
            &&& only_slots(g, path, p, p + 32, img, b)
            &&& same_fat(g, img, b)
            &&& head(now) == head(e)
            &&& short_name(now) == short_name(e)
            &&& now[11] == e[11]
            &&& le_u32(now, 28) == le_u32(f, 28)
            &&& cluster_field(now) == cluster_field(f)
        }),
{
    lemma_on_path(g, img.len(), path, cur);
    lemma_position(g, img.len(), path, cur.pos as int);
    lemma_slot_edit(g, img, path, cur, 20, f.subrange(20, 32));
    lemma_fields_stored(slot(g, img, path, cur.pos as int), f);
}

/// What discarding the entry at `cur` does.
proof fn lemma_discarded(
    g: Geometry,
    mode: RepairMode,
    v: Vol,
    path: Seq<u32>,
    cur: Cursor,
    run_start: u32,
)
    requires
        g.wf(v.img.len()),
        thorough(mode),
        whole_chain(g, v.img, path),
        on_path(g, path, cur),
        run_start % DIR_ENTRY_SIZE == 0,
        run_start <= cur.pos,
    ensures
        ({
            let site = EntrySite { pos: cur.pos, run_start, abs_pos: cur.offset(g) as u64 };
            let (b, res) = entry_discarded(g, v, path[0], site, mode);
            &&& res matches Ok(None)
            &&& only_slots(g, path, run_start as int, cur.pos + 32, v.img, b.img)
            &&& forall|q: int|
                is_slot(g, path, q) && run_start <= q < cur.pos + 32 ==> is_deleted(
                    #[trigger] slot(g, b.img, path, q),
                )
            &&& same_fat(g, v.img, b.img)
        }),
{
    let cs = g.cluster_size as int;
    let p = cur.pos as int;
    lemma_on_path(g, v.img.len(), path, cur);
    lemma_position(g, v.img.len(), path, p);
    let i = p / cs;
    let n = path.len() as int;
    assert(i * cs + cs <= n * cs) by (nonlinear_arith)
        requires
            0 <= i < n,
            cs > 0,
    ;
    lemma_run_deleted(g, mode, v, path, run_start, p + 32, RepairMode::entry_validity());
    assert(entries_between(run_start, (cur.pos + DIR_ENTRY_SIZE) as u64) == ((p + 32 - run_start)
        / 32) as nat);
}

/// What passing over an entry that claims to be a directory and is none does.
proof fn lemma_rejected_settles(
    g: Geometry,
    mode: RepairMode,
    v: Vol,
    path: Seq<u32>,
    cur: Cursor,
    start: u32,
) -> (q: Seq<u32>)
    requires
        g.wf(v.img.len()),
        thorough(mode),
        whole_chain(g, v.img, path),
        on_path(g, path, cur),
        attributes_possible(slot(g, v.img, path, cur.pos as int)),
        is_dir(slot(g, v.img, path, cur.pos as int)),
        first_cluster(slot(g, v.img, path, cur.pos as int)) == Some(start),
        g.valid_cluster(start),
        !starts_directory(v.img, g, start),
    ensures
        ({
            let p = cur.pos as int;
            let e = slot(g, v.img, path, p);
            let b = dir_rejected(g, v, start, mode);
            let now = slot(g, b.img, path, p);
            &&& claims(g, v.img, b.img, q)
            &&& b.stats.dirs_skipped == v.stats.dirs_skipped
            &&& only_slots(g, path, p, p + 32, v.img, b.img)
            &&& now == e
            &&& entry_settled(g, v.img, b.img, now, q, None)
        }),
{
    let p = cur.pos as int;
    lemma_on_path(g, v.img.len(), path, cur);
    lemma_position(g, v.img.len(), path, p);
    let q = chain_from(v.img, g, start, None, true).path;
    let judged = Vol {
        img: v.img,
        stats: RepairStats { dirs_rejected: bump(v.stats.dirs_rejected), ..v.stats },
    };
    let scanned = chain_scanned(g, judged, start, None, mode);
    lemma_chain_begins(v.img, g, start, None, true);
    lemma_chain_claimed(g, mode, judged, start, None);
    lemma_fat_only(g, path, v.img, scanned.img, p);
    lemma_fat_only(g, path, v.img, v.img, p);
    assert(outside(p, p, p));
    q
}

/// What checking an entry with a first cluster in the volume does, if its name is legal and it is what it claims to be.
#[verifier::spinoff_prover]
#[verifier::rlimit(40)]
proof fn lemma_named_settles(
    g: Geometry,
    mode: RepairMode,
    v: Vol,
    path: Seq<u32>,
    cur: Cursor,
    run_start: u32,
    start: u32,
) -> (q: Seq<u32>)
    requires
        g.wf(v.img.len()),
        thorough(mode),
        whole_chain(g, v.img, path),
        on_path(g, path, cur),
        run_start % DIR_ENTRY_SIZE == 0,
        run_start <= cur.pos,
        attributes_possible(slot(g, v.img, path, cur.pos as int)),
        !name_corrupted(short_name(slot(g, v.img, path, cur.pos as int))),
        first_cluster(slot(g, v.img, path, cur.pos as int)) == Some(start),
        g.valid_cluster(start),
        is_dir(slot(g, v.img, path, cur.pos as int)) ==> starts_directory(v.img, g, start),
    ensures
        ({
            let p = cur.pos as int;
            let e = slot(g, v.img, path, p);
            let site = EntrySite { pos: cur.pos, run_start, abs_pos: cur.offset(g) as u64 };
            let (b, res) = linked_entry_checked(g, v, path[0], e, site, start, mode);
            let now = slot(g, b.img, path, p);
            &&& claims(g, v.img, b.img, q)
            &&& b.stats.entries_recovered == v.stats.entries_recovered
            &&& b.stats.dirs_skipped == v.stats.dirs_skipped
            &&& res is Ok
            &&& ({
                &&& q.len() == 0
                &&& res matches Ok(None)
                &&& only_slots(g, path, run_start as int, p + 32, v.img, b.img)
                &&& forall|i: int|
                    is_slot(g, path, i) && run_start <= i < p + 32 ==> is_deleted(
                        #[trigger] slot(g, b.img, path, i),
                    )
            } || {
                &&& only_slots(g, path, p, p + 32, v.img, b.img)
                &&& head(now) == head(e)
                &&& first_cluster(now) is Some ==> first_cluster(now) == Some(start)
                &&& res matches Ok(down) && entry_settled(g, v.img, b.img, now, q, down)
            })
        }),
{
    let p = cur.pos as int;
    let at = cur.offset(g);
    let e = slot(g, v.img, path, p);
    let site = EntrySite { pos: cur.pos, run_start, abs_pos: at as u64 };
    lemma_on_path(g, v.img.len(), path, cur);
    lemma_position(g, v.img.len(), path, p);
    let limit = chain_limit(g, e);
    let l = limit->0;
    let walk = chain_from(v.img, g, start, limit, true);
    let q = walk.path;
    let scanned = chain_scanned(g, v, start, limit, mode);
    let n = q.len() as int;
    lemma_chain_claimed(g, mode, v, start, limit);
    lemma_fat_only(g, path, v.img, scanned.img, p);
    law_chain_length(v.img, g, start, l, true);
    let (b, res) = linked_entry_checked(g, v, path[0], e, site, start, mode);
    let now = slot(g, b.img, path, p);
    assert(slot(g, scanned.img, path, p) == e) by {
        assert(outside(p, p, p));
    }
    if n == 0 {
        assert(scanned.img == v.img);
        if is_dir(e) {
            lemma_discarded(g, mode, scanned, path, cur, run_start);
        } else {
            let cleared = with_cluster(with_size(e, 0), 0);
            lemma_fields_edit(g, scanned.img, path, cur, cleared);
            lemma_cleared_fields(e);
        }
    } else {
        assert forall|i: int| 0 <= i < path.len() implies raw_entry(scanned.img, g, path[i])
            == raw_entry(v.img, g, #[trigger] path[i]) || q.contains(path[i]) by {
            assert(g.valid_cluster(path[i]));
        }
        if !is_dir(e) {
            lemma_size_fits(g, n, file_size(e));
        }
        let reachable = capacity_of(g, n);
        if !is_dir(e) && file_size(e) > reachable {
            let shrunk = with_size(e, reachable);
            lemma_fields_stored(e, shrunk);
            lemma_sized_fields(e, reachable);
            lemma_slot_edit(g, scanned.img, path, cur, 20, shrunk.subrange(20, 32));
            assert(b.img == fields_put(scanned.img, at, shrunk));
            assert(only_slots(g, path, p, p + 32, v.img, b.img)) by {
                lemma_only_slots_trans(g, path, p, p, p, p + 32, v.img, scanned.img, b.img);
            }
            lemma_whole_kept(g, scanned.img, b.img, q);
        } else {
            assert(b.img == scanned.img);
            assert(now == e);
        }
    }
    q
}

/// The name of an entry that got another one is fit for it.
proof fn lemma_recovered_fit(index: u32)
    ensures
        recovered_name(index).len() == 11,
        fit_name(recovered_name(index)),
{
    let name = recovered_name(index);
    assert forall|i: int| 0 <= i < name.len() implies !illegal_in_name(i, #[trigger] name[i]) by {}
}

/// What giving the entry at `cur` another name does.
proof fn lemma_name_edit(g: Geometry, img: Seq<u8>, path: Seq<u32>, cur: Cursor, name: Seq<u8>)
    requires
        g.wf(img.len()),
        whole_chain(g, img, path),
        on_path(g, path, cur),
        name.len() == 11,
    ensures
        ({
            let p = cur.pos as int;
            let e = slot(g, img, path, p);
            let b = name_put(img, cur.offset(g), name);
            let now = slot(g, b, path, p);
            &&& only_slots(g, path, p, p + 32, img, b)
            &&& same_fat(g, img, b)
            &&& short_name(now) == name
            &&& e.len() == 32
            &&& now.len() == 32
            &&& forall|i: int| 11 <= i < 32 ==> #[trigger] now[i] == e[i]
        }),
{
    lemma_on_path(g, img.len(), path, cur);
    lemma_position(g, img.len(), path, cur.pos as int);
    lemma_slot_edit(g, img, path, cur, 0, name);
    let e = slot(g, img, path, cur.pos as int);
    assert(short_name(splice(e, 0, name)) =~= name);
}

/// Giving an entry with an illegal name another one does not touch the `.` and `..` of a directory.
proof fn lemma_rename_keeps_start(
    g: Geometry,
    a: Seq<u8>,
    b: Seq<u8>,
    path: Seq<u32>,
    cur: Cursor,
    start: u32,
)
    requires
        g.wf(a.len()),
        whole_chain(g, a, path),
        on_path(g, path, cur),
        g.valid_cluster(start),
        name_corrupted(short_name(slot(g, a, path, cur.pos as int))),
        only_slots(g, path, cur.pos as int, cur.pos + 32, a, b),
        starts_directory(a, g, start),
    ensures
        starts_directory(b, g, start),
{
    let p = cur.pos as int;
    if path.contains(start) {
        let i = choose|i: int| 0 <= i < path.len() && path[i] == start;
        lemma_first_slots(g, a.len(), path, i);
        let lo = i * g.cluster_size;
        let x = slot(g, a, path, lo);
        let y = slot(g, a, path, lo + 32);
        assert forall|n: int, k: int| 0 <= k < 11 && 1 <= n <= 2 implies !illegal_in_name(
            k,
            #[trigger] dots(n)[k],
        ) by {}
        assert(!name_corrupted(dots(1)) && !name_corrupted(dots(2)));
        assert(p != lo && p != lo + 32);
        assert(outside(p, p + 32, lo) && outside(p, p + 32, lo + 32));
        assert(slot(g, b, path, lo) == x);
        assert(slot(g, b, path, lo + 32) == y);
    } else {
        lemma_start_kept(g, a, b, start);
    }
}

/// The first two entries of a cluster of a path.
proof fn lemma_first_slots(g: Geometry, size: nat, path: Seq<u32>, i: int)
    requires
        g.wf(size),
        0 <= i < path.len(),
    ensures
        ({
            let lo = i * g.cluster_size;
            &&& is_slot(g, path, lo)
            &&& is_slot(g, path, lo + 32)
            &&& place_on(g, path, lo) == g.cluster_start(path[i] as int)
            &&& place_on(g, path, lo + 32) == g.cluster_start(path[i] as int) + 32
        }),
{
    let cs = g.cluster_size as int;
    let n = path.len() as int;
    let lo = i * cs;
    vstd::arithmetic::div_mod::lemma_fundamental_div_mod_converse(lo, cs, i, 0);
    vstd::arithmetic::div_mod::lemma_fundamental_div_mod_converse(lo + 32, cs, i, 32);
    assert(0 <= lo && lo + cs <= n * cs) by (nonlinear_arith)
        requires
            lo == i * cs,
            0 <= i < n,
            cs >= 512,
    ;
    let m = cs / 32;
    assert(cs == 32 * m);
    assert(lo == 32 * (i * m)) by (nonlinear_arith)
        requires
            lo == i * cs,
            cs == 32 * m,
    ;
}

/// Checking an entry with an illegal name is checking it under its new one.
proof fn lemma_checked_as_renamed(
    g: Geometry,
    mode: RepairMode,
    v: Vol,
    first: u32,
    e: Seq<u8>,
    now: Seq<u8>,
    site: EntrySite,
    start: u32,
)
    requires
        name_corrupted(short_name(e)),
        !name_corrupted(short_name(now)),
        e.len() == 32,
        now.len() == 32,
        forall|i: int| 11 <= i < 32 ==> #[trigger] now[i] == e[i],
        is_dir(e) ==> starts_directory(v.img, g, start) && starts_directory(
            renamed(v, mode, site.abs_pos as int).img,
            g,
            start,
        ),
    ensures
        linked_entry_checked(g, v, first, e, site, start, mode) == linked_entry_checked(
            g,
            renamed(v, mode, site.abs_pos as int),
            first,
            now,
            site,
            start,
            mode,
        ),
        file_size(now) == file_size(e),
        first_cluster(now) == first_cluster(e),
        attributes_possible(now) == attributes_possible(e),
{
    let cleared = with_cluster(with_size(e, 0), 0);
    let cleared_now = with_cluster(with_size(now, 0), 0);
    assert(cleared.subrange(20, 32) =~= cleared_now.subrange(20, 32));
    assert forall|size: u32| with_size(e, size).subrange(20, 32) == #[trigger] with_size(
        now,
        size,
    ).subrange(20, 32) by {
        assert(with_size(e, size).subrange(20, 32) =~= with_size(now, size).subrange(20, 32));
    }
}

/// What checking an entry comes to: either it is deleted with its run, or what is left of it is settled.
pub open spec fn check_settled(
    g: Geometry,
    path: Seq<u32>,
    pos: u32,
    run_start: u32,
    a: Seq<u8>,
    b: Seq<u8>,
    down: Option<u32>,
    q: Seq<u32>,
) -> bool {
    let p = pos as int;
    let e = slot(g, a, path, p);
    let now = slot(g, b, path, p);
    &&& claims(g, a, b, q)
    &&& {
        ||| {
            &&& q.len() == 0
            &&& down is None
            &&& only_slots(g, path, run_start as int, p + 32, a, b)
            &&& all_deleted(g, b, path, run_start as int, p + 32)
        }
        ||| {
            &&& only_slots(g, path, p, p + 32, a, b)
            &&& !dot_name(short_name(e)) ==> head_settled(e, now)
            &&& entry_settled(g, a, b, now, q, down)
        }
    }
}

/// What checking an entry with a first cluster in the volume comes to, if it is what it claims to be, under a legal
/// name.
#[verifier::spinoff_prover]
proof fn lemma_legal_settles(
    g: Geometry,
    mode: RepairMode,
    v: Vol,
    path: Seq<u32>,
    cur: Cursor,
    run_start: u32,
    start: u32,
) -> (q: Seq<u32>)
    requires
        g.wf(v.img.len()),
        thorough(mode),
        owned(g, v.img, path),
        on_path(g, path, cur),
        run_start % DIR_ENTRY_SIZE == 0,
        run_start <= cur.pos,
        attributes_possible(slot(g, v.img, path, cur.pos as int)),
        first_cluster(slot(g, v.img, path, cur.pos as int)) == Some(start),
        g.valid_cluster(start),
        is_dir(slot(g, v.img, path, cur.pos as int)) ==> starts_directory(v.img, g, start),
        !name_corrupted(short_name(slot(g, v.img, path, cur.pos as int))),
    ensures
        ({
            let e = slot(g, v.img, path, cur.pos as int);
            let site = EntrySite { pos: cur.pos, run_start, abs_pos: cur.offset(g) as u64 };
            let (b, res) = linked_entry_checked(g, v, path[0], e, site, start, mode);
            &&& rename_counted(e, slot(g, b.img, path, cur.pos as int), v.stats, b.stats)
            &&& b.stats.dirs_skipped == v.stats.dirs_skipped
            &&& res matches Ok(down) && check_settled(
                g,
                path,
                cur.pos,
                run_start,
                v.img,
                b.img,
                down,
                q,
            )
        }),
{
    let p = cur.pos as int;
    let at = cur.offset(g);
    let e = slot(g, v.img, path, p);
    lemma_on_path(g, v.img.len(), path, cur);
    lemma_position(g, v.img.len(), path, p);
    let q = lemma_named_settles(g, mode, v, path, cur, run_start, start);
    let site = EntrySite { pos: cur.pos, run_start, abs_pos: at as u64 };
    let b = linked_entry_checked(g, v, path[0], e, site, start, mode).0;
    if head(slot(g, b.img, path, p)) == head(e) {
        lemma_head(slot(g, b.img, path, p), e);
    }
    q
}

/// What was settled under a new name is settled.
proof fn lemma_settled_renamed(
    g: Geometry,
    path: Seq<u32>,
    cur: Cursor,
    run_start: u32,
    a: Seq<u8>,
    mid: Seq<u8>,
    b: Seq<u8>,
    start: u32,
    q: Seq<u32>,
    down: Option<u32>,
)
    requires
        g.wf(a.len()),
        owned(g, a, path),
        on_path(g, path, cur),
        run_start <= cur.pos,
        only_slots(g, path, cur.pos as int, cur.pos + 32, a, mid),
        same_fat(g, a, mid),
        claims(g, mid, b, q),
        ({
            let p = cur.pos as int;
            let e = slot(g, a, path, p);
            let fresh = slot(g, mid, path, p);
            let now = slot(g, b, path, p);
            &&& name_corrupted(short_name(e))
            &&& fit_name(short_name(fresh))
            &&& fresh[11] == e[11]
            &&& first_cluster(fresh) == Some(start)
            &&& is_dir(fresh) ==> starts_directory(a, g, start) && starts_directory(mid, g, start)
            &&& {
                ||| {
                    &&& q.len() == 0
                    &&& down is None
                    &&& only_slots(g, path, run_start as int, p + 32, mid, b)
                    &&& all_deleted(g, b, path, run_start as int, p + 32)
                }
                ||| {
                    &&& only_slots(g, path, p, p + 32, mid, b)
                    &&& head(now) == head(fresh)
                    &&& entry_settled(g, mid, b, now, q, down)
                    &&& first_cluster(now) is Some ==> first_cluster(now) == Some(start)
                }
            }
        }),
    ensures
        check_settled(g, path, cur.pos, run_start, a, b, down, q),
{
    let p = cur.pos as int;
    let fresh = slot(g, mid, path, p);
    let now = slot(g, b, path, p);
    lemma_on_path(g, a.len(), path, cur);
    lemma_position(g, a.len(), path, p);
    assert(claims(g, a, b, q)) by {
        assert forall|c: u32| g.valid_cluster(c) implies #[trigger] raw_entry(mid, g, c)
            == raw_entry(a, g, c) by {}
        assert forall|c: u32| g.valid_cluster(c) && q.contains(c) implies allocated(
            #[trigger] raw_entry(a, g, c),
        ) by {
            assert(allocated(raw_entry(mid, g, c)));
        }
    }
    if entry_settled(g, mid, b, now, q, down) && head(now) == head(fresh) && only_slots(
        g,
        path,
        p,
        p + 32,
        mid,
        b,
    ) && (first_cluster(now) is Some ==> first_cluster(now) == Some(start)) {
        lemma_head(now, fresh);
        lemma_settled_from(g, path, p, p + 32, a, mid, b, now, q, down);
        lemma_only_slots_trans(g, path, p, p + 32, p, p + 32, a, mid, b);
    } else {
        assert(only_slots(g, path, run_start as int, p + 32, a, mid)) by {
            assert forall|i: int|
                is_slot(g, path, i) && outside(run_start as int, p + 32, i) implies #[trigger] slot(
                g,
                mid,
                path,
                i,
            ) == slot(g, a, path, i) by {
                assert(outside(p, p + 32, i));
            }
        }
        lemma_only_slots_trans(
            g,
            path,
            run_start as int,
            p + 32,
            run_start as int,
            p + 32,
            a,
            mid,
            b,
        );
    }
}

/// What checking an entry with a first cluster in the volume comes to, if it is what it claims to be, under an
/// illegal name.
#[verifier::spinoff_prover]
#[verifier::rlimit(40)]
proof fn lemma_illegal_settles(
    g: Geometry,
    mode: RepairMode,
    v: Vol,
    path: Seq<u32>,
    cur: Cursor,
    run_start: u32,
    start: u32,
) -> (q: Seq<u32>)
    requires
        g.wf(v.img.len()),
        thorough(mode),
        owned(g, v.img, path),
        on_path(g, path, cur),
        run_start % DIR_ENTRY_SIZE == 0,
        run_start <= cur.pos,
        attributes_possible(slot(g, v.img, path, cur.pos as int)),
        first_cluster(slot(g, v.img, path, cur.pos as int)) == Some(start),
        g.valid_cluster(start),
        is_dir(slot(g, v.img, path, cur.pos as int)) ==> starts_directory(v.img, g, start),
        name_corrupted(short_name(slot(g, v.img, path, cur.pos as int))),
    ensures
        ({
            let e = slot(g, v.img, path, cur.pos as int);
            let site = EntrySite { pos: cur.pos, run_start, abs_pos: cur.offset(g) as u64 };
            let (b, res) = linked_entry_checked(g, v, path[0], e, site, start, mode);
            &&& rename_counted(e, slot(g, b.img, path, cur.pos as int), v.stats, b.stats)
            &&& b.stats.dirs_skipped == v.stats.dirs_skipped
            &&& res matches Ok(down) && check_settled(
                g,
                path,
                cur.pos,
                run_start,
                v.img,
                b.img,
                down,
                q,
            )
        }),
{
    let p = cur.pos as int;
    let at = cur.offset(g);
    let e = slot(g, v.img, path, p);
    lemma_on_path(g, v.img.len(), path, cur);
    lemma_position(g, v.img.len(), path, p);
    let name = recovered_name(v.stats.entries_recovered);
    let mid = renamed(v, mode, at);
    lemma_recovered_fit(v.stats.entries_recovered);
    lemma_name_edit(g, v.img, path, cur, name);
    lemma_whole_kept(g, v.img, mid.img, path);
    let fresh = slot(g, mid.img, path, p);
    let site = EntrySite { pos: cur.pos, run_start, abs_pos: at as u64 };
    if is_dir(e) {
        lemma_rename_keeps_start(g, v.img, mid.img, path, cur, start);
    }
    lemma_checked_as_renamed(g, mode, v, path[0], e, fresh, site, start);
    let q = lemma_named_settles(g, mode, mid, path, cur, run_start, start);
    let (b, res) = linked_entry_checked(g, mid, path[0], fresh, site, start, mode);
    if is_dir(e) {
        assert(is_dir(fresh));
    }
    lemma_settled_renamed(g, path, cur, run_start, v.img, mid.img, b.img, start, q, res->Ok_0);
    q
}

/// What checking an entry with a first cluster in the volume comes to, if it is what it claims to be.
proof fn lemma_true_settles(
    g: Geometry,
    mode: RepairMode,
    v: Vol,
    path: Seq<u32>,
    cur: Cursor,
    run_start: u32,
    start: u32,
) -> (q: Seq<u32>)
    requires
        g.wf(v.img.len()),
        thorough(mode),
        owned(g, v.img, path),
        on_path(g, path, cur),
        run_start % DIR_ENTRY_SIZE == 0,
        run_start <= cur.pos,
        attributes_possible(slot(g, v.img, path, cur.pos as int)),
        first_cluster(slot(g, v.img, path, cur.pos as int)) == Some(start),
        g.valid_cluster(start),
        is_dir(slot(g, v.img, path, cur.pos as int)) ==> starts_directory(v.img, g, start),
    ensures
        ({
            let e = slot(g, v.img, path, cur.pos as int);
            let site = EntrySite { pos: cur.pos, run_start, abs_pos: cur.offset(g) as u64 };
            let (b, res) = linked_entry_checked(g, v, path[0], e, site, start, mode);
            &&& rename_counted(e, slot(g, b.img, path, cur.pos as int), v.stats, b.stats)
            &&& b.stats.dirs_skipped == v.stats.dirs_skipped
            &&& res matches Ok(down) && check_settled(
                g,
                path,
                cur.pos,
                run_start,
                v.img,
                b.img,
                down,
                q,
            )
        }),
{
    if name_corrupted(short_name(slot(g, v.img, path, cur.pos as int))) {
        lemma_illegal_settles(g, mode, v, path, cur, run_start, start)
    } else {
        lemma_legal_settles(g, mode, v, path, cur, run_start, start)
    }
}

/// What checking an entry with a first cluster in the volume comes to.
proof fn lemma_linked_settles(
    g: Geometry,
    mode: RepairMode,
    v: Vol,
    path: Seq<u32>,
    cur: Cursor,
    run_start: u32,
    start: u32,
) -> (q: Seq<u32>)
    requires
        g.wf(v.img.len()),
        thorough(mode),
        owned(g, v.img, path),
        on_path(g, path, cur),
        run_start % DIR_ENTRY_SIZE == 0,
        run_start <= cur.pos,
        attributes_possible(slot(g, v.img, path, cur.pos as int)),
        first_cluster(slot(g, v.img, path, cur.pos as int)) == Some(start),
        g.valid_cluster(start),
    ensures
        ({
            let e = slot(g, v.img, path, cur.pos as int);
            let site = EntrySite { pos: cur.pos, run_start, abs_pos: cur.offset(g) as u64 };
            let (b, res) = linked_entry_checked(g, v, path[0], e, site, start, mode);
            &&& rename_counted(e, slot(g, b.img, path, cur.pos as int), v.stats, b.stats)
            &&& b.stats.dirs_skipped == v.stats.dirs_skipped
            &&& res matches Ok(down) && check_settled(
                g,
                path,
                cur.pos,
                run_start,
                v.img,
                b.img,
                down,
                q,
            )
        }),
{
    let e = slot(g, v.img, path, cur.pos as int);
    if is_dir(e) && !starts_directory(v.img, g, start) {
        lemma_rejected_settles(g, mode, v, path, cur, start)
    } else {
        lemma_true_settles(g, mode, v, path, cur, run_start, start)
    }
}

/// What checking an entry comes to.
pub proof fn lemma_entry_settles(
    g: Geometry,
    mode: RepairMode,
    v: Vol,
    path: Seq<u32>,
    cur: Cursor,
    run_start: u32,
) -> (q: Seq<u32>)
    requires
        g.wf(v.img.len()),
        thorough(mode),
        owned(g, v.img, path),
        on_path(g, path, cur),
        run_start % DIR_ENTRY_SIZE == 0,
        run_start <= cur.pos,
    ensures
        ({
            let e = slot(g, v.img, path, cur.pos as int);
            let site = EntrySite { pos: cur.pos, run_start, abs_pos: cur.offset(g) as u64 };
            let (b, res) = entry_checked(g, v, path[0], e, site, mode);
            &&& rename_counted(e, slot(g, b.img, path, cur.pos as int), v.stats, b.stats)
            &&& b.stats.dirs_skipped == v.stats.dirs_skipped
            &&& res matches Ok(down) && check_settled(
                g,
                path,
                cur.pos,
                run_start,
                v.img,
                b.img,
                down,
                q,
            )
        }),
{
    let p = cur.pos as int;
    let e = slot(g, v.img, path, p);
    lemma_on_path(g, v.img.len(), path, cur);
    lemma_position(g, v.img.len(), path, p);
    lemma_discarded(g, mode, v, path, cur, run_start);
    let none = Seq::<u32>::empty();
    if !attributes_possible(e) {
        none
    } else {
        match first_cluster(e) {
            None => {
                let sized = with_size(e, 0);
                lemma_fields_edit(g, v.img, path, cur, sized);
                lemma_sized_fields(e, 0);
                none
            },
            Some(start) => {
                if g.valid_cluster(start) {
                    lemma_linked_settles(g, mode, v, path, cur, run_start, start)
                } else {
                    none
                }
            },
        }
    }
}

/// Whether a run that the scan is in the middle of is made of long-name entries.
pub open spec fn run_in(g: Geometry, img: Seq<u8>, path: Seq<u32>, lfn: LfnRun, pos: int) -> bool {
    lfn.start matches Some(start) ==> {
        &&& start % DIR_ENTRY_SIZE == 0
        &&& start < pos
        &&& forall|q: int|
            is_slot(g, path, q) && start <= q < pos ==> is_lfn(#[trigger] slot(g, img, path, q))
                && !is_deleted(slot(g, img, path, q))
    }
}

/// Where what the scan may still come back to begins: at the run that it is in the middle of, or at `pos`.
pub open spec fn run_base(lfn: LfnRun, pos: int) -> int {
    match lfn.start {
        Some(start) => start as int,
        None => pos,
    }
}

/// Whether every entry of a path from `lo` to `hi` is deleted.
pub open spec fn all_deleted(g: Geometry, img: Seq<u8>, path: Seq<u32>, lo: int, hi: int) -> bool {
    forall|q: int| is_slot(g, path, q) && lo <= q < hi ==> is_deleted(#[trigger] slot(g, img, path, q))
}

/// Whether every entry of a path from `lo` to `hi` is the same.
pub open spec fn same_slots(
    g: Geometry,
    a: Seq<u8>,
    b: Seq<u8>,
    path: Seq<u32>,
    lo: int,
    hi: int,
) -> bool {
    forall|q: int|
        is_slot(g, path, q) && lo <= q < hi ==> #[trigger] slot(g, b, path, q) == slot(g, a, path, q)
}

/// What the scan of a directory, from `lo` on, may make of the volume: what is claimed stays as it is, but for the
/// entries of the directory from there on, and so does what is free or bad. What starts with `.` and `..` still does,
/// and nothing else starts to.
pub open spec fn advanced(g: Geometry, path: Seq<u32>, lo: int, a: Seq<u8>, b: Seq<u8>) -> bool {
    &&& a.len() == b.len()
    &&& forall|c: u32|
        g.valid_cluster(c) && marked(raw_entry(a, g, c)) ==> #[trigger] raw_entry(b, g, c)
            == raw_entry(a, g, c)
    &&& forall|c: u32|
        g.valid_cluster(c) && marked(raw_entry(a, g, c)) && !path.contains(c)
            ==> #[trigger] cluster_kept(g, a, b, c)
    &&& same_slots(g, a, b, path, 0, lo)
    &&& starts_directory(a, g, path[0]) ==> starts_directory(b, g, path[0])
    &&& no_new_dirs(g, a, b)
    &&& holes_kept(g, a, b)
}

/// What the visit of the entry at `pos` does, as long as the names that are given are fit.
pub open spec fn visit_settled(
    g: Geometry,
    frame: DirFrame,
    path: Seq<u32>,
    pos: u32,
    lfn: LfnRun,
    a: Seq<u8>,
    b: Seq<u8>,
    visit: Visit,
    q: Seq<u32>,
) -> bool {
    let e = slot(g, a, path, pos as int);
    let now = slot(g, b, path, pos as int);
    let base = run_base(lfn, pos as int);
    if is_end(e) {
        &&& now == e
        &&& q.len() == 0
        &&& visit is Finish
        &&& all_deleted(g, b, path, base, pos as int)
    } else if is_deleted(e) {
        &&& now == e
        &&& q.len() == 0
        &&& visit == Visit::Next(LfnRun { start: None, ..lfn })
        &&& all_deleted(g, b, path, base, pos as int)
    } else if is_lfn(e) {
        &&& b == a
        &&& q.len() == 0
        &&& visit == Visit::Next(run_joined(lfn, e, pos))
    } else {
        ||| {
            &&& q.len() == 0
            &&& visit == Visit::Next(LfnRun { start: None, ..lfn })
            &&& all_deleted(g, b, path, base, pos + 32)
        }
        ||| {
            let down = match visit {
                Visit::Descend(c) => Some(c),
                _ => None,
            };
            &&& head_settled(e, now)
            &&& visit is Descend || visit == Visit::Next(LfnRun { start: None, ..lfn })
            &&& if run_matches(lfn, short_name(e)) {
                same_slots(g, a, b, path, base, pos as int)
            } else {
                all_deleted(g, b, path, base, pos as int)
            }
            &&& if dot_name(short_name(e)) {
                &&& cluster_field(now) == dot_target(frame, now)
                &&& q.len() == 0
                &&& down is None
            } else if is_label(e) {
                &&& !name_corrupted(short_name(now))
                &&& q.len() == 0
                &&& down is None
            } else {
                entry_settled(g, a, b, now, q, down)
            }
        }
    }
}

/// A cluster that is kept starts a directory if it did.
pub proof fn lemma_start_kept(g: Geometry, a: Seq<u8>, b: Seq<u8>, c: u32)
    requires
        g.wf(a.len()),
        a.len() == b.len(),
        g.valid_cluster(c),
        cluster_kept(g, a, b, c),
    ensures
        starts_directory(b, g, c) == starts_directory(a, g, c),
{
    g.lemma_cluster_bounds(a.len(), c as int);
    let at = g.cluster_start(c as int);
    assert(entry_at(b, at) =~= entry_at(a, at));
    assert(entry_at(b, at + 32) =~= entry_at(a, at + 32));
}

/// Entries with the same head have the same name and attributes.
pub proof fn lemma_head(a: Seq<u8>, b: Seq<u8>)
    requires
        a.len() == 32,
        b.len() == 32,
        head(a) == head(b),
    ensures
        a[0] == b[0],
        a[1] == b[1],
        a[11] == b[11],
        a[13] == b[13],
        short_name(a) == short_name(b),
{
    assert forall|i: int| 0 <= i < 20 implies #[trigger] a[i] == b[i] by {
        assert(head(a)[i] == a[i]);
        assert(head(b)[i] == b[i]);
    }
    assert(short_name(a) =~= short_name(b));
}

/// A directory still starts with `.` and `..` if those entries keep their heads.
pub proof fn lemma_dots_kept(g: Geometry, a: Seq<u8>, b: Seq<u8>, path: Seq<u32>)
    requires
        g.wf(a.len()),
        a.len() == b.len(),
        path.len() > 0,
        forall|i: int| 0 <= i < path.len() ==> #[trigger] g.valid_cluster(path[i]),
        forall|q: int|
            is_slot(g, path, q) && !is_lfn(slot(g, a, path, q)) && dot_name(
                short_name(slot(g, a, path, q)),
            ) ==> head(#[trigger] slot(g, b, path, q)) == head(slot(g, a, path, q)),
    ensures
        starts_directory(a, g, path[0]) ==> starts_directory(b, g, path[0]),
{
    if starts_directory(a, g, path[0]) {
        let cs = g.cluster_size as int;
        let n = path.len() as int;
        assert(cs <= n * cs) by (nonlinear_arith)
            requires
                n >= 1,
                cs > 0,
        ;
        assert(0int / cs == 0 && 0int % cs == 0 && 32int / cs == 0 && 32int % cs == 32) by (
            nonlinear_arith)
            requires
                cs >= 512,
        ;
        assert forall|q: int| q == 0 || q == 32 implies #[trigger] slot(g, a, path, q) == entry_at(
            a,
            g.cluster_start(path[0] as int) + q,
        ) && slot(g, b, path, q) == entry_at(b, g.cluster_start(path[0] as int) + q) && is_slot(
            g,
            path,
            q,
        ) by {}
        lemma_position(g, a.len(), path, 0);
        lemma_position(g, a.len(), path, 32);
        let x = slot(g, a, path, 0);
        let y = slot(g, a, path, 32);
        assert(dots(1)[0] == SFN_DOT && dots(2)[0] == SFN_DOT);
        assert(dot_name(short_name(x)));
        assert(dot_name(short_name(y)));
        lemma_head(x, slot(g, b, path, 0));
        lemma_head(y, slot(g, b, path, 32));
    }
}

/// Where an entry is settled does not depend on what else is in the directory.
proof fn lemma_settled_from(
    g: Geometry,
    path: Seq<u32>,
    lo: int,
    hi: int,
    a: Seq<u8>,
    mid: Seq<u8>,
    b: Seq<u8>,
    e: Seq<u8>,
    q: Seq<u32>,
    down: Option<u32>,
)
    requires
        g.wf(a.len()),
        owned(g, a, path),
        only_slots(g, path, lo, hi, a, mid),
        same_fat(g, a, mid),
        entry_settled(g, mid, b, e, q, down),
        q.len() == 0 ==> (first_cluster(e) matches Some(start) ==> (starts_directory(a, g, start)
            ==> starts_directory(mid, g, start))),
    ensures
        entry_settled(g, a, b, e, q, down),
{
    if first_cluster(e) is Some && q.len() > 0 {
        let start = first_cluster(e)->0;
        assert forall|i: int| 0 <= i < q.len() implies !marked(raw_entry(a, g, #[trigger] q[i])) by {
            assert(g.valid_cluster(q[i]));
            assert(raw_entry(mid, g, q[i]) == raw_entry(a, g, q[i]));
        }
        assert(!path.contains(start)) by {
            if path.contains(start) {
                let i = choose|i: int| 0 <= i < path.len() && path[i] == start;
                assert(marked(raw_entry(a, g, path[i])));
                assert(!marked(raw_entry(a, g, q[0])));
            }
        }
        assert(cluster_kept(g, a, mid, start));
        lemma_start_kept(g, a, mid, start);
    }
}

/// The cluster that was stored in an entry.
proof fn lemma_cluster_stored(e: Seq<u8>, c: u32)
    requires
        e.len() == 32,
    ensures
        cluster_field(with_cluster(e, c)) == c,
{
    let f = with_cluster(e, c);
    let hi = u16_bytes((c / 0x1_0000) as u16);
    let lo = u16_bytes((c % 0x1_0000) as u16);
    assert(f[20] == hi[0] && f[21] == hi[1] && f[26] == lo[0] && f[27] == lo[1]);
}

/// What a dot entry is once it was checked.
proof fn lemma_dot_settles(
    g: Geometry,
    mode: RepairMode,
    v: Vol,
    path: Seq<u32>,
    cur: Cursor,
    frame: DirFrame,
)
    requires
        g.wf(v.img.len()),
        thorough(mode),
        whole_chain(g, v.img, path),
        on_path(g, path, cur),
    ensures
        ({
            let p = cur.pos as int;
            let e = slot(g, v.img, path, p);
            let b = dot_fixed(v, mode, frame, e, cur.offset(g));
            let now = slot(g, b.img, path, p);
            &&& only_slots(g, path, p, p + 32, v.img, b.img)
            &&& same_fat(g, v.img, b.img)
            &&& head_settled(e, now)
            &&& cluster_field(now) == dot_target(frame, now)
            &&& b.stats.dirs_skipped == v.stats.dirs_skipped
        }),
{
    let p = cur.pos as int;
    let e = slot(g, v.img, path, p);
    lemma_on_path(g, v.img.len(), path, cur);
    lemma_position(g, v.img.len(), path, p);
    let target = dot_target(frame, e);
    let f = with_cluster(e, target);
    lemma_fields_edit(g, v.img, path, cur, f);
    lemma_cluster_stored(e, target);
    let b = dot_fixed(v, mode, frame, e, cur.offset(g));
    let now = slot(g, b.img, path, p);
    lemma_head(now, e);
}

/// What looking at the short-name entry at `pos`, whose run starts at `run_start`, does as long as the names that are
/// given are fit: the entry is deleted with its run, or is settled.
pub open spec fn short_settled(
    g: Geometry,
    frame: DirFrame,
    path: Seq<u32>,
    pos: u32,
    run_start: u32,
    lfn: LfnRun,
    a: Seq<u8>,
    b: Seq<u8>,
    visit: Visit,
    q: Seq<u32>,
) -> bool {
    let p = pos as int;
    let e = slot(g, a, path, p);
    let now = slot(g, b, path, p);
    let down = match visit {
        Visit::Descend(c) => Some(c),
        _ => None,
    };
    &&& claims(g, a, b, q)
    &&& {
        ||| {
            &&& q.len() == 0
            &&& !dot_name(short_name(e))
            &&& visit == Visit::Next(LfnRun { start: None, ..lfn })
            &&& only_slots(g, path, run_start as int, p + 32, a, b)
            &&& all_deleted(g, b, path, run_start as int, p + 32)
        }
        ||| {
            &&& only_slots(g, path, p, p + 32, a, b)
            &&& head_settled(e, now)
            &&& visit is Descend || visit == Visit::Next(LfnRun { start: None, ..lfn })
            &&& if dot_name(short_name(e)) {
                &&& cluster_field(now) == dot_target(frame, now)
                &&& q.len() == 0
                &&& down is None
            } else if is_label(e) {
                &&& !name_corrupted(short_name(now))
                &&& q.len() == 0
                &&& down is None
            } else {
                entry_settled(g, a, b, now, q, down)
            }
        }
    }
}

/// Looking at a short-name entry settles it.
pub proof fn lemma_short_settles(
    g: Geometry,
    mode: RepairMode,
    v: Vol,
    path: Seq<u32>,
    cur: Cursor,
    run_start: u32,
    frame: DirFrame,
    lfn: LfnRun,
) -> (q: Seq<u32>)
    requires
        g.wf(v.img.len()),
        thorough(mode),
        owned(g, v.img, path),
        path[0] == dir_start(g, frame.cluster),
        on_path(g, path, cur),
        run_start % DIR_ENTRY_SIZE == 0,
        run_start <= cur.pos,
        ({
            let e = slot(g, v.img, path, cur.pos as int);
            let b = short_entry_visited(g, v, frame, cur, run_start, e, lfn, mode).0;
            names_fit(g, v.stats, b.stats)
        }),
    ensures
        ({
            let e = slot(g, v.img, path, cur.pos as int);
            let (b, res) = short_entry_visited(g, v, frame, cur, run_start, e, lfn, mode);
            &&& rename_counted(e, slot(g, b.img, path, cur.pos as int), v.stats, b.stats)
            &&& res matches Ok(visit) && short_settled(
                g,
                frame,
                path,
                cur.pos,
                run_start,
                lfn,
                v.img,
                b.img,
                visit,
                q,
            )
            &&& b.stats.dirs_skipped == v.stats.dirs_skipped
        }),
{
    let p = cur.pos as int;
    let e = slot(g, v.img, path, p);
    let none = Seq::<u32>::empty();
    if dot_name(short_name(e)) {
        lemma_dot_settles(g, mode, v, path, cur, frame);
        lemma_on_path(g, v.img.len(), path, cur);
        lemma_position(g, v.img.len(), path, p);
        lemma_head(slot(g, dot_fixed(v, mode, frame, e, cur.offset(g)).img, path, p), e);
        none
    } else if is_label(e) {
        if name_corrupted(short_name(e)) {
            lemma_name_edit(g, v.img, path, cur, g.volume_label@);
            assert(fit_name(g.volume_label@));
        }
        none
    } else {
        let counted = Vol {
            img: v.img,
            stats: RepairStats { files_examined: bump(v.stats.files_examined), ..v.stats },
        };
        lemma_entry_settles(g, mode, counted, path, cur, run_start)
    }
}

/// The part of what a visit does that is the same whatever the entry is.
pub open spec fn visit_bounded(
    g: Geometry,
    path: Seq<u32>,
    pos: u32,
    lfn: LfnRun,
    a: Seq<u8>,
    b: Seq<u8>,
    q: Seq<u32>,
) -> bool {
    let base = run_base(lfn, pos as int);
    &&& claims(g, a, b, q)
    &&& none_marked(g, a, q)
    &&& only_slots(g, path, base, pos + 32, a, b)
    &&& advanced(g, path, base, a, b)
    &&& owned(g, b, path)
}

/// What may become of an entry that the scan goes back to: it stays as it is, is deleted unless it is `.` or `..`, or
/// is settled.
pub open spec fn slot_settled(e: Seq<u8>, now: Seq<u8>) -> bool {
    ||| now == e
    ||| is_deleted(now) && (is_lfn(e) || !dot_name(short_name(e)))
    ||| head_settled(e, now)
}

/// Whether an entry is `.` or `..` in `now` only if it is in `e`.
pub open spec fn no_new_dots(e: Seq<u8>, now: Seq<u8>) -> bool {
    forall|n: int| 1 <= n && #[trigger] is_dots_entry(now, n) ==> is_dots_entry(e, n)
}

/// An entry that is `.` or `..` was it before, and still is.
proof fn lemma_dots_settled(e: Seq<u8>, now: Seq<u8>)
    requires
        e.len() == 32,
        now.len() == 32,
        slot_settled(e, now),
    ensures
        no_new_dots(e, now),
        !is_lfn(e) && dot_name(short_name(e)) ==> head(now) == head(e),
{
    if head(now) == head(e) {
        lemma_head(now, e);
    }
    assert forall|n: int| 1 <= n && #[trigger] is_dots_entry(now, n) implies is_dots_entry(e, n) by {
        let name = short_name(now);
        assert(dots(n)[0] == SFN_DOT);
        assert(name[0] == now[0]);
        assert(dot_name(name)) by {
            assert forall|i: int| 1 <= i < name.len() implies #[trigger] name[i] == SFN_PADDING
                || name[i] == SFN_DOT by {
                assert(dots(n)[i] == name[i]);
            }
        }
    }
}

/// No cluster starts a directory that did not before.
proof fn lemma_no_new_dirs(g: Geometry, path: Seq<u32>, lo: int, hi: int, a: Seq<u8>, b: Seq<u8>)
    requires
        g.wf(a.len()),
        forall|i: int| 0 <= i < path.len() ==> #[trigger] g.valid_cluster(path[i]),
        only_slots(g, path, lo, hi, a, b),
        forall|i: int|
            is_slot(g, path, i) && lo <= i < hi ==> no_new_dots(
                slot(g, a, path, i),
                #[trigger] slot(g, b, path, i),
            ),
    ensures
        no_new_dirs(g, a, b),
{
    assert forall|c: u32| g.valid_cluster(c) && #[trigger] starts_directory(b, g, c) implies starts_directory(
        a,
        g,
        c,
    ) by {
        if path.contains(c) {
            let i = choose|i: int| 0 <= i < path.len() && path[i] == c;
            let at = i * g.cluster_size;
            lemma_first_slots(g, a.len(), path, i);
            lemma_position(g, a.len(), path, at);
            lemma_position(g, a.len(), path, at + 32);
            assert(outside(lo, hi, at) || lo <= at < hi);
            assert(outside(lo, hi, at + 32) || lo <= at + 32 < hi);
            assert(no_new_dots(slot(g, a, path, at), slot(g, b, path, at)));
            assert(no_new_dots(slot(g, a, path, at + 32), slot(g, b, path, at + 32)));
        } else {
            lemma_start_kept(g, a, b, c);
        }
    }
}

/// No cluster starts a directory that did not before if entries are only deleted.
pub proof fn lemma_deleted_start_nothing(
    g: Geometry,
    path: Seq<u32>,
    lo: int,
    hi: int,
    a: Seq<u8>,
    b: Seq<u8>,
)
    requires
        g.wf(a.len()),
        forall|i: int| 0 <= i < path.len() ==> #[trigger] g.valid_cluster(path[i]),
        only_slots(g, path, lo, hi, a, b),
        all_deleted(g, b, path, lo, hi),
    ensures
        no_new_dirs(g, a, b),
{
    assert forall|i: int| is_slot(g, path, i) && lo <= i < hi implies no_new_dots(
        slot(g, a, path, i),
        #[trigger] slot(g, b, path, i),
    ) by {
        let now = slot(g, b, path, i);
        assert(is_deleted(now));
        assert forall|n: int| 1 <= n && #[trigger] is_dots_entry(now, n) implies is_dots_entry(
            slot(g, a, path, i),
            n,
        ) by {
            lemma_position(g, b.len(), path, i);
            assert(short_name(now)[0] == now[0]);
            assert(dots(n)[0] == SFN_DOT);
        }
    }
    lemma_no_new_dirs(g, path, lo, hi, a, b);
}

/// Directories start where they did if only entries of long names change.
proof fn lemma_starts_kept(g: Geometry, path: Seq<u32>, lo: int, hi: int, a: Seq<u8>, b: Seq<u8>)
    requires
        g.wf(a.len()),
        forall|i: int| 0 <= i < path.len() ==> #[trigger] g.valid_cluster(path[i]),
        only_slots(g, path, lo, hi, a, b),
        forall|i: int| is_slot(g, path, i) && lo <= i < hi ==> is_lfn(#[trigger] slot(g, a, path, i)),
    ensures
        no_new_dirs(g, b, a),
{
    assert(only_slots(g, path, lo, hi, b, a)) by {
        assert forall|c: u32| g.valid_cluster(c) && !path.contains(c) implies #[trigger] cluster_kept(
            g,
            b,
            a,
            c,
        ) by {
            assert(cluster_kept(g, a, b, c));
        }
    }
    lemma_no_new_dirs(g, path, lo, hi, b, a);
}

/// Going back to a part of a directory keeps what is claimed.
pub proof fn lemma_slots_bounded(
    g: Geometry,
    path: Seq<u32>,
    lo: int,
    hi: int,
    a: Seq<u8>,
    b: Seq<u8>,
    q: Seq<u32>,
)
    requires
        g.wf(a.len()),
        owned(g, a, path),
        claims(g, a, b, q),
        none_marked(g, a, q),
        only_slots(g, path, lo, hi, a, b),
        forall|i: int|
            is_slot(g, path, i) && lo <= i < hi ==> slot_settled(
                slot(g, a, path, i),
                #[trigger] slot(g, b, path, i),
            ),
    ensures
        advanced(g, path, lo, a, b),
        owned(g, b, path),
{
    assert forall|c: u32| g.valid_cluster(c) && marked(raw_entry(a, g, c)) implies #[trigger] raw_entry(
        b,
        g,
        c,
    ) == raw_entry(a, g, c) by {
        if q.contains(c) {
            let i = choose|i: int| 0 <= i < q.len() && q[i] == c;
            assert(!marked(raw_entry(a, g, q[i])));
        }
    }
    assert forall|i: int| 0 <= i < path.len() implies raw_entry(b, g, path[i]) == raw_entry(
        a,
        g,
        #[trigger] path[i],
    ) by {
        assert(g.valid_cluster(path[i]));
        assert(marked(raw_entry(a, g, path[i])));
    }
    lemma_whole_kept(g, a, b, path);
    assert forall|i: int|
        is_slot(g, path, i) && !is_lfn(slot(g, a, path, i)) && dot_name(
            short_name(slot(g, a, path, i)),
        ) implies head(#[trigger] slot(g, b, path, i)) == head(slot(g, a, path, i)) by {
        lemma_position(g, a.len(), path, i);
        if !outside(lo, hi, i) {
            lemma_dots_settled(slot(g, a, path, i), slot(g, b, path, i));
        }
    }
    lemma_dots_kept(g, a, b, path);
    assert forall|i: int| is_slot(g, path, i) && lo <= i < hi implies no_new_dots(
        slot(g, a, path, i),
        #[trigger] slot(g, b, path, i),
    ) by {
        lemma_position(g, a.len(), path, i);
        lemma_dots_settled(slot(g, a, path, i), slot(g, b, path, i));
    }
    lemma_no_new_dirs(g, path, lo, hi, a, b);
    assert forall|c: u32| g.valid_cluster(c) && !allocated(raw_entry(a, g, c)) implies #[trigger] raw_entry(
        b,
        g,
        c,
    ) == raw_entry(a, g, c) by {}
}

/// A visit keeps what is claimed.
proof fn lemma_visit_bounded(
    g: Geometry,
    path: Seq<u32>,
    pos: u32,
    lfn: LfnRun,
    a: Seq<u8>,
    b: Seq<u8>,
    q: Seq<u32>,
)
    requires
        g.wf(a.len()),
        owned(g, a, path),
        claims(g, a, b, q),
        none_marked(g, a, q),
        only_slots(g, path, run_base(lfn, pos as int), pos + 32, a, b),
        forall|i: int|
            is_slot(g, path, i) && run_base(lfn, pos as int) <= i < pos + 32 ==> slot_settled(
                slot(g, a, path, i),
                #[trigger] slot(g, b, path, i),
            ),
    ensures
        visit_bounded(g, path, pos, lfn, a, b, q),
{
    lemma_slots_bounded(g, path, run_base(lfn, pos as int), pos + 32, a, b, q);
}

/// A short-name entry with its own run, or without one.
proof fn lemma_with_run_settles(
    g: Geometry,
    frame: DirFrame,
    path: Seq<u32>,
    pos: u32,
    run_start: u32,
    lfn: LfnRun,
    a: Seq<u8>,
    b: Seq<u8>,
    visit: Visit,
    q: Seq<u32>,
)
    requires
        g.wf(a.len()),
        owned(g, a, path),
        pos % DIR_ENTRY_SIZE == 0,
        run_in(g, a, path, lfn, pos as int),
        run_start == run_base(lfn, pos as int),
        ({
            let e = slot(g, a, path, pos as int);
            &&& !is_end(e) && !is_deleted(e) && !is_lfn(e)
            &&& lfn.start is None || run_matches(lfn, short_name(e))
        }),
        short_settled(g, frame, path, pos, run_start, lfn, a, b, visit, q),
    ensures
        visit_settled(g, frame, path, pos, lfn, a, b, visit, q),
        visit_bounded(g, path, pos, lfn, a, b, q),
{
    let p = pos as int;
    let base = run_base(lfn, p);
    assert forall|i: int| is_slot(g, path, i) && base <= i < p + 32 implies slot_settled(
        slot(g, a, path, i),
        #[trigger] slot(g, b, path, i),
    ) by {
        assert(i <= p);
        if i < p && outside(p, p + 32, i) && only_slots(g, path, p, p + 32, a, b) {
            assert(slot(g, b, path, i) == slot(g, a, path, i));
        }
    }
    assert(none_marked(g, a, q));
    assert(only_slots(g, path, base, p + 32, a, b)) by {
        if only_slots(g, path, p, p + 32, a, b) {
            assert forall|i: int| is_slot(g, path, i) && outside(base, p + 32, i) implies #[trigger] slot(
                g,
                b,
                path,
                i,
            ) == slot(g, a, path, i) by {
                assert(outside(p, p + 32, i));
            }
        }
    }
    lemma_visit_bounded(g, path, pos, lfn, a, b, q);
}

/// A short-name entry behind a run that is not its own.
proof fn lemma_without_run_settles(
    g: Geometry,
    frame: DirFrame,
    path: Seq<u32>,
    pos: u32,
    start: u32,
    lfn: LfnRun,
    a: Seq<u8>,
    mid: Seq<u8>,
    b: Seq<u8>,
    visit: Visit,
    q: Seq<u32>,
)
    requires
        g.wf(a.len()),
        owned(g, a, path),
        is_slot(g, path, pos as int),
        pos % DIR_ENTRY_SIZE == 0,
        run_in(g, a, path, lfn, pos as int),
        lfn.start == Some(start),
        ({
            let e = slot(g, a, path, pos as int);
            &&& !is_end(e) && !is_deleted(e) && !is_lfn(e)
            &&& !run_matches(lfn, short_name(e))
        }),
        only_slots(g, path, start as int, pos as int, a, mid),
        all_deleted(g, mid, path, start as int, pos as int),
        same_fat(g, a, mid),
        short_settled(g, frame, path, pos, pos, lfn, mid, b, visit, q),
    ensures
        visit_settled(g, frame, path, pos, lfn, a, b, visit, q),
        visit_bounded(g, path, pos, lfn, a, b, q),
{
    let p = pos as int;
    let e = slot(g, a, path, p);
    assert(slot(g, mid, path, p) == e);
    lemma_only_slots_trans(g, path, start as int, p, p, p + 32, a, mid, b);
    assert forall|i: int| is_slot(g, path, i) && start <= i < pos implies is_deleted(
        #[trigger] slot(g, b, path, i),
    ) by {
        assert(slot(g, b, path, i) == slot(g, mid, path, i));
    }
    let down = match visit {
        Visit::Descend(c) => Some(c),
        _ => None,
    };
    let now = slot(g, b, path, p);
    if entry_settled(g, mid, b, now, q, down) {
        lemma_starts_kept(g, path, start as int, p, a, mid);
        lemma_settled_from(g, path, start as int, p, a, mid, b, now, q, down);
    }
    lemma_visit_bounded(g, path, pos, lfn, a, b, q);
}

/// Whether an entry is neither the end of its directory, nor deleted, nor part of a long name.
pub open spec fn is_short(e: Seq<u8>) -> bool {
    !is_end(e) && !is_deleted(e) && !is_lfn(e)
}

/// The visit of an entry that is no short-name entry.
proof fn lemma_visit_other(
    g: Geometry,
    mode: RepairMode,
    v: Vol,
    path: Seq<u32>,
    cur: Cursor,
    frame: DirFrame,
    lfn: LfnRun,
)
    requires
        g.wf(v.img.len()),
        thorough(mode),
        owned(g, v.img, path),
        path[0] == dir_start(g, frame.cluster),
        on_path(g, path, cur),
        run_in(g, v.img, path, lfn, cur.pos as int),
        !is_short(slot(g, v.img, path, cur.pos as int)),
    ensures
        ({
            let (b, res) = entry_visited(g, v, frame, cur, lfn, mode);
            &&& res matches Ok(visit) && visit_settled(
                g,
                frame,
                path,
                cur.pos,
                lfn,
                v.img,
                b.img,
                visit,
                Seq::empty(),
            )
            &&& visit_bounded(g, path, cur.pos, lfn, v.img, b.img, Seq::empty())
            &&& b.stats.dirs_skipped == v.stats.dirs_skipped
        }),
{
    reveal(entry_visited);
    let p = cur.pos as int;
    let none = Seq::<u32>::empty();
    lemma_on_path(g, v.img.len(), path, cur);
    lemma_position(g, v.img.len(), path, p);
    let e = slot(g, v.img, path, p);
    assert(e == entry_under(v.img, g, cur));
    let b = entry_visited(g, v, frame, cur, lfn, mode).0;
    if !is_lfn(e) || is_end(e) || is_deleted(e) {
        if let Some(start) = lfn.start {
            lemma_run_dropped(g, mode, v, path, cur, lfn, start);
        } else {
            lemma_visit_bounded(g, path, cur.pos, lfn, v.img, v.img, none);
        }
    } else {
        assert(b == v);
        lemma_visit_bounded(g, path, cur.pos, lfn, v.img, v.img, none);
    }
}

/// What removing the run that the scan is in the middle of does.
proof fn lemma_run_dropped(
    g: Geometry,
    mode: RepairMode,
    v: Vol,
    path: Seq<u32>,
    cur: Cursor,
    lfn: LfnRun,
    start: u32,
)
    requires
        g.wf(v.img.len()),
        thorough(mode),
        owned(g, v.img, path),
        on_path(g, path, cur),
        run_in(g, v.img, path, lfn, cur.pos as int),
        lfn.start == Some(start),
    ensures
        ({
            let (b, res) = long_name_dropped(g, v, path[0], start, cur.pos, mode);
            &&& res is Ok
            &&& visit_bounded(g, path, cur.pos, lfn, v.img, b.img, Seq::empty())
            &&& all_deleted(g, b.img, path, start as int, cur.pos as int)
            &&& slot(g, b.img, path, cur.pos as int) == slot(g, v.img, path, cur.pos as int)
            &&& b.stats.dirs_skipped == v.stats.dirs_skipped
        }),
{
    let p = cur.pos as int;
    lemma_on_path(g, v.img.len(), path, cur);
    let b = long_name_dropped(g, v, path[0], start, cur.pos, mode).0;
    lemma_run_deleted(g, mode, v, path, start, p, RepairMode::long_names());
    assert(outside(start as int, p, p));
    assert(slot(g, b.img, path, p) == slot(g, v.img, path, p));
    assert(only_slots(g, path, start as int, p + 32, v.img, b.img)) by {
        assert(only_slots(g, path, p, p + 32, b.img, b.img));
        lemma_only_slots_trans(g, path, start as int, p, p, p + 32, v.img, b.img, b.img);
    }
    assert forall|i: int| is_slot(g, path, i) && start <= i < p + 32 implies slot_settled(
        slot(g, v.img, path, i),
        #[trigger] slot(g, b.img, path, i),
    ) by {
        assert(i <= p);
        if i < p {
            assert(is_deleted(slot(g, b.img, path, i)));
        }
    }
    lemma_visit_bounded(g, path, cur.pos, lfn, v.img, b.img, Seq::empty());
}

/// The visit of a short-name entry with its own run, or without one.
proof fn lemma_visit_with_run(
    g: Geometry,
    mode: RepairMode,
    v: Vol,
    path: Seq<u32>,
    cur: Cursor,
    frame: DirFrame,
    lfn: LfnRun,
) -> (q: Seq<u32>)
    requires
        g.wf(v.img.len()),
        thorough(mode),
        owned(g, v.img, path),
        path[0] == dir_start(g, frame.cluster),
        on_path(g, path, cur),
        run_in(g, v.img, path, lfn, cur.pos as int),
        ({
            let b = entry_visited(g, v, frame, cur, lfn, mode).0;
            names_fit(g, v.stats, b.stats)
        }),
        ({
            let e = slot(g, v.img, path, cur.pos as int);
            is_short(e) && (lfn.start is None || run_matches(lfn, short_name(e)))
        }),
    ensures
        ({
            let (b, res) = entry_visited(g, v, frame, cur, lfn, mode);
            let e = slot(g, v.img, path, cur.pos as int);
            &&& is_short(e) ==> rename_counted(
                e,
                slot(g, b.img, path, cur.pos as int),
                v.stats,
                b.stats,
            )
            &&& res matches Ok(visit) && visit_settled(
                g,
                frame,
                path,
                cur.pos,
                lfn,
                v.img,
                b.img,
                visit,
                q,
            )
            &&& visit_bounded(g, path, cur.pos, lfn, v.img, b.img, q)
            &&& b.stats.dirs_skipped == v.stats.dirs_skipped
        }),
{
    reveal(entry_visited);
    lemma_on_path(g, v.img.len(), path, cur);
    let e = slot(g, v.img, path, cur.pos as int);
    assert(e == entry_under(v.img, g, cur));
    let (b, res) = entry_visited(g, v, frame, cur, lfn, mode);
    let run_start = match lfn.start {
        Some(start) => start,
        None => cur.pos,
    };
    let q = lemma_short_settles(g, mode, v, path, cur, run_start, frame, lfn);
    let visit = res->Ok_0;
    lemma_with_run_settles(g, frame, path, cur.pos, run_start, lfn, v.img, b.img, visit, q);
    q
}

/// The visit of a short-name entry behind a run that is not its own.
proof fn lemma_visit_without_run(
    g: Geometry,
    mode: RepairMode,
    v: Vol,
    path: Seq<u32>,
    cur: Cursor,
    frame: DirFrame,
    lfn: LfnRun,
) -> (q: Seq<u32>)
    requires
        g.wf(v.img.len()),
        thorough(mode),
        owned(g, v.img, path),
        path[0] == dir_start(g, frame.cluster),
        on_path(g, path, cur),
        run_in(g, v.img, path, lfn, cur.pos as int),
        ({
            let b = entry_visited(g, v, frame, cur, lfn, mode).0;
            names_fit(g, v.stats, b.stats)
        }),
        ({
            let e = slot(g, v.img, path, cur.pos as int);
            is_short(e) && lfn.start is Some && !run_matches(lfn, short_name(e))
        }),
    ensures
        ({
            let (b, res) = entry_visited(g, v, frame, cur, lfn, mode);
            let e = slot(g, v.img, path, cur.pos as int);
            &&& is_short(e) ==> rename_counted(
                e,
                slot(g, b.img, path, cur.pos as int),
                v.stats,
                b.stats,
            )
            &&& res matches Ok(visit) && visit_settled(
                g,
                frame,
                path,
                cur.pos,
                lfn,
                v.img,
                b.img,
                visit,
                q,
            )
            &&& visit_bounded(g, path, cur.pos, lfn, v.img, b.img, q)
            &&& b.stats.dirs_skipped == v.stats.dirs_skipped
        }),
{
    reveal(entry_visited);
    let p = cur.pos as int;
    lemma_on_path(g, v.img.len(), path, cur);
    let e = slot(g, v.img, path, p);
    assert(e == entry_under(v.img, g, cur));
    let (b, res) = entry_visited(g, v, frame, cur, lfn, mode);
    let start = lfn.start->0;
    let mid = long_name_dropped(g, v, path[0], start, cur.pos, mode).0;
    lemma_run_deleted(g, mode, v, path, start, p, RepairMode::long_names());
    assert(slot(g, mid.img, path, p) == e);
    lemma_whole_kept(g, v.img, mid.img, path);
    let q = lemma_short_settles(g, mode, mid, path, cur, cur.pos, frame, lfn);
    let visit = res->Ok_0;
    lemma_without_run_settles(
        g,
        frame,
        path,
        cur.pos,
        start,
        lfn,
        v.img,
        mid.img,
        b.img,
        visit,
        q,
    );
    q
}

/// What the visit of an entry does, as long as the names that are given are fit.
pub proof fn lemma_visit_settles(
    g: Geometry,
    mode: RepairMode,
    v: Vol,
    path: Seq<u32>,
    cur: Cursor,
    frame: DirFrame,
    lfn: LfnRun,
) -> (q: Seq<u32>)
    requires
        g.wf(v.img.len()),
        thorough(mode),
        owned(g, v.img, path),
        path[0] == dir_start(g, frame.cluster),
        on_path(g, path, cur),
        run_in(g, v.img, path, lfn, cur.pos as int),
        ({
            let b = entry_visited(g, v, frame, cur, lfn, mode).0;
            names_fit(g, v.stats, b.stats)
        }),
    ensures
        ({
            let (b, res) = entry_visited(g, v, frame, cur, lfn, mode);
            let e = slot(g, v.img, path, cur.pos as int);
            &&& is_short(e) ==> rename_counted(
                e,
                slot(g, b.img, path, cur.pos as int),
                v.stats,
                b.stats,
            )
            &&& res matches Ok(visit) && visit_settled(
                g,
                frame,
                path,
                cur.pos,
                lfn,
                v.img,
                b.img,
                visit,
                q,
            )
            &&& visit_bounded(g, path, cur.pos, lfn, v.img, b.img, q)
            &&& b.stats.dirs_skipped == v.stats.dirs_skipped
        }),
{
    let e = slot(g, v.img, path, cur.pos as int);
    if !is_short(e) {
        lemma_visit_other(g, mode, v, path, cur, frame, lfn);
        Seq::empty()
    } else if lfn.start is None || run_matches(lfn, short_name(e)) {
        lemma_visit_with_run(g, mode, v, path, cur, frame, lfn)
    } else {
        lemma_visit_without_run(g, mode, v, path, cur, frame, lfn)
    }
}

} // verus!
