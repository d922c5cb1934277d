//! A volume without damage, and what a repair makes of it.

use vstd::prelude::*;

use crate::again::{lemma_chain_again, lemma_distinct, lemma_follow_whole};
use crate::chain::{chain_from, chain_scanned};
use crate::dir::{entry_under, place_after, place_at, starts_directory, Cursor, Place};
use crate::dir_laws::{in_front_of_end, leads_up_to};
use crate::dirent::{
    attributes_possible, cluster_field, dot_name, file_size, first_cluster, is_deleted, is_dir, is_end, is_label,
    is_lfn, long_name_checksum, name_checksum, short_name,
};
use crate::entry::chain_limit;
use crate::error::Fault;
use crate::fat::{copy_entry, entry_of, marked, raw_entry, FatEntry};
use crate::fs::FsState;
use crate::geometry::{Geometry, MAX_CLUSTERS};
use crate::kept::cluster_kept;
use crate::laws::{before, lemma_before, lemma_phases, opening, ready};
use crate::meaning::{law_clusters, law_fields_of_entries, law_kinds_of_entries, law_legal_names, legal_name};
use crate::mode::RepairMode;
use crate::model::Vol;
use crate::owned::{
    is_slot, lemma_on_path, lemma_path_after, lemma_path_at, lemma_position, on_path, path_size, slot, whole_chain,
};
use crate::passes::{
    count_diverging, diverges, entry_0_damaged, entry_1_damaged, lemma_rewrite_entries, lemma_unmarked, unmarked,
};
use crate::phases::{lemma_fat_prepared, prepared};
use crate::repair::{fat_checked, markers_prepared, repaired, scans_root, signatures_checked};
use crate::repeat_laws::lemma_only_root;
use crate::scratch::DirFrame;
use crate::stats::{bump, RepairStats};
use crate::visits::{is_short, lemma_start_kept};
use crate::walk::{
    dir_entered, dir_scanned, entry_visited, lemma_dir_scanned_advances, no_run, root_frame, run_joined, scanned_from,
    short_entry_visited, tree_walked, DirStep, LfnRun, Visit,
};

verus! {

/// Whether `q` is the whole chain from cluster `c`. A run that marks comes upon all of it at the time `now`.
pub open spec fn chain_in_order(
    g: Geometry,
    img: Seq<u8>,
    c: u32,
    q: Seq<u32>,
    marking: bool,
    when: spec_fn(u32) -> int,
    now: int,
) -> bool {
    &&& whole_chain(g, img, q)
    &&& q[0] == c
    &&& marking ==> forall|i: int| 0 <= i < q.len() ==> when(#[trigger] q[i]) == now
}

/// Whether a file entry has neither clusters nor a size, or a chain that is just long enough for its size.
pub open spec fn file_in_order(
    g: Geometry,
    img: Seq<u8>,
    e: Seq<u8>,
    marking: bool,
    when: spec_fn(u32) -> int,
    now: int,
) -> bool {
    match first_cluster(e) {
        None => file_size(e) == 0,
        Some(c) => exists|q: Seq<u32>| #[trigger]
            chain_in_order(g, img, c, q, marking, when, now) && (q.len() - 1) * g.cluster_size
                < file_size(e) <= q.len() * g.cluster_size,
    }
}

/// Whether there is nothing wrong with a short-name entry of the directory `own` below the directory `up`, what is
/// below it aside: `.` points at the directory itself and `..` at the one above, a label and any other name is legal,
/// and a file is as long as its chain.
pub open spec fn entry_in_order(
    g: Geometry,
    img: Seq<u8>,
    e: Seq<u8>,
    own: u32,
    up: u32,
    marking: bool,
    when: spec_fn(u32) -> int,
    now: int,
) -> bool {
    if dot_name(short_name(e)) {
        cluster_field(e) == if e[1] == 46 {
            up
        } else {
            own
        }
    } else if is_label(e) {
        legal_name(short_name(e))
    } else {
        &&& attributes_possible(e)
        &&& legal_name(short_name(e))
        &&& !is_dir(e) ==> file_in_order(g, img, e, marking, when, now)
    }
}

/// Whether an entry leads to a directory below.
pub open spec fn leads_down(e: Seq<u8>) -> bool {
    &&& is_short(e)
    &&& is_dir(e)
    &&& attributes_possible(e)
    &&& !dot_name(short_name(e))
    &&& first_cluster(e) is Some
}

/// Whether there is nothing wrong with the entry at `p` of a directory, what is below it aside: it is deleted, it is
/// part of a long name that belongs to the short name behind it, or it is a short-name entry in order.
pub open spec fn slot_in_order(
    g: Geometry,
    img: Seq<u8>,
    path: Seq<u32>,
    own: u32,
    up: u32,
    p: int,
    marking: bool,
    when: spec_fn(u32) -> int,
    now: int,
) -> bool {
    let e = slot(g, img, path, p);
    ||| is_deleted(e)
    ||| is_lfn(e) && exists|q: int| #[trigger] leads_up_to(g, img, path, p, q)
    ||| is_short(e) && entry_in_order(g, img, e, own, up, marking, when, now)
}

/// Whether `q` is the chain of a directory at `c` that a run comes upon at `now` and is through with by `next`.
pub open spec fn child_in_order(
    g: Geometry,
    img: Seq<u8>,
    c: u32,
    q: Seq<u32>,
    marking: bool,
    when: spec_fn(u32) -> int,
    times: spec_fn(int) -> int,
    now: int,
    next: int,
) -> bool {
    &&& chain_in_order(g, img, c, q, marking, when, now)
    &&& starts_directory(img, g, c)
    &&& now < times(0)
    &&& times(q.len() * g.cluster_size) <= next
}

/// Whether a later position, up to `size`, is come to at a later time.
#[verifier::opaque]
pub open spec fn goes_forward(times: spec_fn(int) -> int, size: int) -> bool {
    forall|p: int, q: int| 0 <= p < q <= size ==> #[trigger] times(p) < #[trigger] times(q)
}

proof fn lemma_goes_forward(times: spec_fn(int) -> int, size: int, p: int, q: int)
    requires
        goes_forward(times, size),
        0 <= p < q <= size,
    ensures
        times(p) < times(q),
{
    reveal(goes_forward);
}

/// Whether there is nothing wrong with the directory `own` below the directory `up`, which is along `path`, and with
/// everything below it, which is at most `room` levels deep. 0 stands for the root.
///
/// `when` says of a cluster when a run that marks comes upon it, and `times` when the run is at which position of the
/// directory. No cluster can belong to two entries: it would have to be come upon at two times.
pub open spec fn tree_in_order(
    g: Geometry,
    img: Seq<u8>,
    path: Seq<u32>,
    own: u32,
    up: u32,
    room: nat,
    marking: bool,
    when: spec_fn(u32) -> int,
    times: spec_fn(int) -> int,
) -> bool
    decreases room,
{
    &&& whole_chain(g, img, path)
    &&& path[0] == if own == 0 {
        g.root_dir_first_cluster
    } else {
        own
    }
    &&& path.len() * g.cluster_size <= 2_097_152
    &&& goes_forward(times, path.len() * g.cluster_size)
    &&& forall|p: int| #[trigger]
        in_front_of_end(g, img, path, 0, p) ==> {
            let e = slot(g, img, path, p);
            let now = times(p);
            &&& slot_in_order(g, img, path, own, up, p, marking, when, now)
            &&& leads_down(e) ==> room > 0 && exists|q: Seq<u32>, below: spec_fn(int) -> int|
                #[trigger] child_in_order(
                    g,
                    img,
                    first_cluster(e)->0,
                    q,
                    marking,
                    when,
                    below,
                    now,
                    times(p + 32),
                ) && tree_in_order(
                    g,
                    img,
                    q,
                    first_cluster(e)->0,
                    own,
                    (room - 1) as nat,
                    marking,
                    when,
                    below,
                )
        }
}

/// `v` is `o`, but for markers, which only a run that marks has put there.
#[verifier::opaque]
pub open spec fn in_step(g: Geometry, o: Seq<u8>, v: Seq<u8>, marking: bool) -> bool {
    &&& v.len() == o.len()
    &&& forall|i: int| g.fats_end() <= i < o.len() ==> #[trigger] v[i] == o[i]
    &&& forall|c: u32|
        g.valid_cluster(c) ==> entry_of(#[trigger] raw_entry(v, g, c)) == entry_of(raw_entry(o, g, c))
    &&& !marking ==> forall|c: u32| g.valid_cluster(c) ==> #[trigger] raw_entry(v, g, c) == raw_entry(o, g, c)
}

/// Whether a run that marks has marked nothing that it comes upon at `now` or later.
#[verifier::opaque]
pub open spec fn marked_before(
    g: Geometry,
    v: Seq<u8>,
    marking: bool,
    when: spec_fn(u32) -> int,
    now: int,
) -> bool {
    marking ==> forall|c: u32|
        g.valid_cluster(c) && marked(#[trigger] raw_entry(v, g, c)) ==> when(c) < now
}

proof fn lemma_later(
    g: Geometry,
    v: Seq<u8>,
    marking: bool,
    when: spec_fn(u32) -> int,
    now: int,
    next: int,
)
    requires
        marked_before(g, v, marking, when, now),
        now <= next,
    ensures
        marked_before(g, v, marking, when, next),
{
    reveal(marked_before);
}

/// Whether nothing was counted between `a` and `b` but what was looked at.
pub open spec fn undisturbed(a: RepairStats, b: RepairStats) -> bool {
    b == (RepairStats { dirs_scanned: b.dirs_scanned, files_examined: b.files_examined, ..a })
}

/// Directories read the same where only markers differ.
proof fn lemma_same_slot(g: Geometry, o: Seq<u8>, v: Seq<u8>, marking: bool, path: Seq<u32>, p: int)
    requires
        g.wf(o.len()),
        in_step(g, o, v, marking),
        is_slot(g, path, p),
        forall|i: int| 0 <= i < path.len() ==> #[trigger] g.valid_cluster(path[i]),
    ensures
        slot(g, v, path, p) == slot(g, o, path, p),
{
    reveal(in_step);
    lemma_position(g, o.len(), path, p);
    g.lemma_copy_bounds(o.len(), 0);
    assert(slot(g, v, path, p) =~= slot(g, o, path, p));
}

/// Chains are the same where only markers differ.
proof fn lemma_same_chain(g: Geometry, o: Seq<u8>, v: Seq<u8>, marking: bool, q: Seq<u32>)
    requires
        in_step(g, o, v, marking),
        whole_chain(g, o, q),
    ensures
        whole_chain(g, v, q),
        q.len() <= g.total_clusters,
        v.len() == o.len(),
{
    reveal(in_step);
    assert forall|i: int| 0 <= i < q.len() - 1 implies entry_of(raw_entry(v, g, #[trigger] q[i]))
        == FatEntry::Data(q[i + 1]) by {
        assert(g.valid_cluster(q[i]));
    }
    assert(g.valid_cluster(q[q.len() - 1]));
    assert forall|i: int| 0 <= i < q.len() implies 2 <= #[trigger] q[i] < g.total_clusters + 2 by {
        assert(g.valid_cluster(q[i]));
    }
    lemma_distinct(q, 2, g.total_clusters + 2);
}

/// Directories begin the same where only markers differ.
proof fn lemma_same_start(g: Geometry, o: Seq<u8>, v: Seq<u8>, marking: bool, c: u32)
    requires
        g.wf(o.len()),
        in_step(g, o, v, marking),
        g.valid_cluster(c),
    ensures
        starts_directory(v, g, c) == starts_directory(o, g, c),
{
    reveal(in_step);
    g.lemma_cluster_bounds(o.len(), c as int);
    assert(cluster_kept(g, o, v, c));
    lemma_start_kept(g, o, v, c);
}

/// A chain in order is followed to its end, and nothing is counted.
proof fn lemma_chain_left_alone(
    g: Geometry,
    o: Seq<u8>,
    v: Vol,
    c: u32,
    q: Seq<u32>,
    limit: Option<u32>,
    mode: RepairMode,
    when: spec_fn(u32) -> int,
    now: int,
)
    requires
        g.wf(o.len()),
        in_step(g, o, v.img, mode.marks()),
        marked_before(g, v.img, mode.marks(), when, now),
        chain_in_order(g, o, c, q, mode.marks(), when, now),
        limit matches Some(l) ==> q.len() <= l,
    ensures
        ({
            let w = chain_scanned(g, v, c, limit, mode);
            &&& g.valid_cluster(c)
            &&& chain_from(v.img, g, c, limit, mode.marks()).path == q
            &&& w.stats == v.stats
            &&& in_step(g, o, w.img, mode.marks())
            &&& marked_before(g, w.img, mode.marks(), when, now + 1)
        }),
{
    reveal(in_step);
    reveal(marked_before);
    lemma_same_chain(g, o, v.img, mode.marks(), q);
    assert(g.valid_cluster(q[0]));
    if mode.marks() {
        assert forall|i: int| 0 <= i < q.len() implies !marked(raw_entry(v.img, g, #[trigger] q[i])) by {
            assert(g.valid_cluster(q[i]));
            assert(when(q[i]) == now);
        }
        lemma_chain_again(g, mode, v, q, limit);
        let w = chain_scanned(g, v, c, limit, mode);
        assert forall|d: u32| g.valid_cluster(d) implies entry_of(#[trigger] raw_entry(w.img, g, d))
            == entry_of(raw_entry(o, g, d)) by {
            assert(unmarked(raw_entry(w.img, g, d)) == unmarked(
                raw_entry(v.img, g, d),
            ));
            lemma_unmarked(raw_entry(w.img, g, d));
            lemma_unmarked(raw_entry(v.img, g, d));
        }
        assert forall|d: u32| g.valid_cluster(d) && marked(#[trigger] raw_entry(w.img, g, d)) implies when(d)
            < now + 1 by {
            if q.contains(d) {
                let i = choose|i: int| 0 <= i < q.len() && q[i] == d;
                assert(when(q[i]) == now);
            }
        }
        assert forall|i: int| g.fats_end() <= i < o.len() implies #[trigger] w.img[i] == o[i] by {
            assert(v.img[i] == o[i]);
        }
    } else {
        lemma_follow_whole(g, v.img, q, limit, false, 0);
        assert(q.subrange(0, 0) =~= Seq::<u32>::empty());
    }
}

/// What looking at a sound entry comes to: nothing is changed or counted, and the walk goes on, or down if the entry
/// leads there.
pub open spec fn passed_over(
    g: Geometry,
    o: Seq<u8>,
    v: Vol,
    e: Seq<u8>,
    mode: RepairMode,
    when: spec_fn(u32) -> int,
    now: int,
    after: (Vol, Result<Visit, Fault>),
) -> bool {
    let (w, res) = after;
    &&& in_step(g, o, w.img, mode.marks())
    &&& marked_before(g, w.img, mode.marks(), when, now + 1)
    &&& undisturbed(v.stats, w.stats)
    &&& if leads_down(e) {
        res == Ok::<Visit, Fault>(Visit::Descend(first_cluster(e)->0))
    } else {
        res matches Ok(Visit::Next(rest)) && rest.start is None
    }
}

/// A chain that is just long enough for a size has as many clusters as the size takes up.
proof fn lemma_just_long_enough(g: Geometry, n: int, size: u32)
    requires
        512 <= g.cluster_size <= 0x8_0000,
        (n - 1) * g.cluster_size < size <= n * g.cluster_size,
    ensures
        g.clusters_for(size) == n,
{
    law_clusters(g, 2, size);
    let z = g.cluster_size as int;
    let m = g.clusters_for(size) as int;
    assert(m == n) by (nonlinear_arith)
        requires
            z > 0,
            m * z >= size,
            (m - 1) * z < size,
            (n - 1) * z < size,
            n * z >= size,
    ;
}

/// A sound short-name entry is left alone.
proof fn lemma_short_left_alone(
    g: Geometry,
    o: Seq<u8>,
    v: Vol,
    frame: DirFrame,
    cur: Cursor,
    run_start: u32,
    e: Seq<u8>,
    lfn: LfnRun,
    mode: RepairMode,
    when: spec_fn(u32) -> int,
    now: int,
    q: Seq<u32>,
)
    requires
        g.wf(o.len()),
        e.len() == 32,
        is_short(e),
        in_step(g, o, v.img, mode.marks()),
        marked_before(g, v.img, mode.marks(), when, now),
        entry_in_order(g, o, e, frame.cluster, frame.parent, mode.marks(), when, now),
        leads_down(e) ==> chain_in_order(g, o, first_cluster(e)->0, q, mode.marks(), when, now)
            && starts_directory(o, g, first_cluster(e)->0) && q.len() * g.cluster_size <= 2_097_152,
    ensures
        passed_over(
            g,
            o,
            v,
            e,
            mode,
            when,
            now,
            short_entry_visited(g, v, frame, cur, run_start, e, lfn, mode),
        ),
{
    lemma_later(g, v.img, mode.marks(), when, now, now + 1);
    law_kinds_of_entries(e);
    law_fields_of_entries(e);
    law_legal_names(short_name(e));
    if !dot_name(short_name(e)) && !is_label(e) {
        let counted = Vol {
            img: v.img,
            stats: RepairStats { files_examined: bump(v.stats.files_examined), ..v.stats },
        };
        if let Some(c) = first_cluster(e) {
            let limit = chain_limit(g, e);
            if is_dir(e) {
                law_clusters(g, 2, 0);
                let z = g.cluster_size as int;
                let n = q.len() as int;
                let m = g.max_dir_chain() as int;
                assert(n <= m) by (nonlinear_arith)
                    requires
                        z > 0,
                        n * z <= 2_097_152,
                        (m + 1) * z > 2_097_152,
                ;
                lemma_chain_left_alone(g, o, counted, c, q, limit, mode, when, now);
                lemma_same_start(g, o, v.img, mode.marks(), c);
            } else {
                let f = choose|f: Seq<u32>| #[trigger]
                    chain_in_order(g, o, c, f, mode.marks(), when, now) && (f.len() - 1) * g.cluster_size
                        < file_size(e) <= f.len() * g.cluster_size;
                lemma_just_long_enough(g, f.len() as int, file_size(e));
                lemma_chain_left_alone(g, o, counted, c, f, limit, mode, when, now);
            }
        }
    }
}

/// Whether the run of long-name entries that the scan is in the middle of, if any, leads up to a short name at `p` or
/// behind, and belongs to it.
pub open spec fn run_in_order(g: Geometry, o: Seq<u8>, path: Seq<u32>, lfn: LfnRun, p: int) -> bool {
    lfn.start matches Some(start) ==> !lfn.damaged && exists|q: int|
        p <= q && lfn.checksum == name_checksum(short_name(slot(g, o, path, q))) && #[trigger] leads_up_to(
            g,
            o,
            path,
            start as int,
            q,
        )
}

/// What looking at a sound entry of a directory comes to: the scan stops at the end, goes down where the entry leads
/// there, and else goes on.
pub open spec fn looked_over(
    g: Geometry,
    o: Seq<u8>,
    v: Vol,
    path: Seq<u32>,
    p: int,
    mode: RepairMode,
    when: spec_fn(u32) -> int,
    now: int,
    after: (Vol, Result<Visit, Fault>),
) -> bool {
    let (w, res) = after;
    let e = slot(g, o, path, p);
    &&& in_step(g, o, w.img, mode.marks())
    &&& marked_before(g, w.img, mode.marks(), when, now + 1)
    &&& undisturbed(v.stats, w.stats)
    &&& if is_end(e) {
        res matches Ok(Visit::Finish)
    } else if leads_down(e) {
        res == Ok::<Visit, Fault>(Visit::Descend(first_cluster(e)->0))
    } else {
        res matches Ok(Visit::Next(rest)) && run_in_order(g, o, path, rest, p + 32)
    }
}

/// The end of a directory is not in the middle of a long name.
proof fn lemma_no_run_at_end(g: Geometry, o: Seq<u8>, path: Seq<u32>, lfn: LfnRun, p: int)
    requires
        run_in_order(g, o, path, lfn, p),
        lfn.start matches Some(start) ==> start <= p,
        0 <= p,
        p % 32 == 0,
        is_slot(g, path, p) ==> is_end(slot(g, o, path, p)) || is_deleted(slot(g, o, path, p)),
        !is_slot(g, path, p) ==> p >= path_size(g, path),
    ensures
        lfn.start is None,
{
    if let Some(start) = lfn.start {
        let q = choose|q: int|
            p <= q && lfn.checksum == name_checksum(short_name(slot(g, o, path, q))) && #[trigger] leads_up_to(
                g,
                o,
                path,
                start as int,
                q,
            );
        if p < q {
            assert(is_slot(g, path, p));
            assert(is_lfn(slot(g, o, path, p)));
        }
    }
}

/// A sound entry of a directory is left alone, the long name in front of it included.
proof fn lemma_visit_left_alone(
    g: Geometry,
    o: Seq<u8>,
    v: Vol,
    path: Seq<u32>,
    frame: DirFrame,
    cur: Cursor,
    lfn: LfnRun,
    mode: RepairMode,
    when: spec_fn(u32) -> int,
    now: int,
    q: Seq<u32>,
)
    requires
        g.wf(o.len()),
        whole_chain(g, o, path),
        on_path(g, path, cur),
        in_step(g, o, v.img, mode.marks()),
        marked_before(g, v.img, mode.marks(), when, now),
        run_in_order(g, o, path, lfn, cur.pos as int),
        lfn.start matches Some(start) ==> start <= cur.pos,
        ({
            let e = slot(g, o, path, cur.pos as int);
            &&& is_end(e) || slot_in_order(
                g,
                o,
                path,
                frame.cluster,
                frame.parent,
                cur.pos as int,
                mode.marks(),
                when,
                now,
            )
            &&& leads_down(e) ==> chain_in_order(g, o, first_cluster(e)->0, q, mode.marks(), when, now)
                && starts_directory(o, g, first_cluster(e)->0) && q.len() * g.cluster_size <= 2_097_152
        }),
    ensures
        looked_over(
            g,
            o,
            v,
            path,
            cur.pos as int,
            mode,
            when,
            now,
            entry_visited(g, v, frame, cur, lfn, mode),
        ),
{
    lemma_later(g, v.img, mode.marks(), when, now, now + 1);
    reveal(entry_visited);
    let p = cur.pos as int;
    lemma_on_path(g, o.len(), path, cur);
    lemma_position(g, o.len(), path, p);
    lemma_same_slot(g, o, v.img, mode.marks(), path, p);
    let e = slot(g, o, path, p);
    assert(entry_under(v.img, g, cur) == e);
    assert(e.len() == 32);
    if is_end(e) || is_deleted(e) {
        lemma_no_run_at_end(g, o, path, lfn, p);
    } else if is_lfn(e) {
        let ahead = choose|ahead: int| #[trigger] leads_up_to(g, o, path, p, ahead);
        assert(!is_short(e));
        if let Some(start) = lfn.start {
            let end = choose|end: int|
                p <= end && lfn.checksum == name_checksum(short_name(slot(g, o, path, end)))
                    && #[trigger] leads_up_to(g, o, path, start as int, end);
            assert(p < end);
            assert(long_name_checksum(slot(g, o, path, p)) == lfn.checksum);
            lemma_next_slot(g, path, p, end);
            assert(leads_up_to(g, o, path, run_joined(lfn, e, cur.pos).start->0 as int, end));
        } else {
            assert(long_name_checksum(slot(g, o, path, p)) == name_checksum(
                short_name(slot(g, o, path, ahead)),
            ));
            lemma_next_slot(g, path, p, ahead);
            assert(leads_up_to(g, o, path, run_joined(lfn, e, cur.pos).start->0 as int, ahead));
        }
    } else {
        let run_start = match lfn.start {
            None => cur.pos,
            Some(start) => start,
        };
        lemma_short_left_alone(g, o, v, frame, cur, run_start, e, lfn, mode, when, now, q);
        if let Some(start) = lfn.start {
            let end = choose|end: int|
                p <= end && lfn.checksum == name_checksum(short_name(slot(g, o, path, end)))
                    && #[trigger] leads_up_to(g, o, path, start as int, end);
            assert(p == end);
        }
    }
}

/// Entries are 32 bytes apart.
proof fn lemma_next_slot(g: Geometry, path: Seq<u32>, p: int, q: int)
    requires
        is_slot(g, path, p),
        is_slot(g, path, q),
        p < q,
    ensures
        p + 32 <= q,
{
}

/// What the scan of a sound directory from some position on comes to.
pub open spec fn scanned_over(
    g: Geometry,
    o: Seq<u8>,
    v: Vol,
    path: Seq<u32>,
    mode: RepairMode,
    when: spec_fn(u32) -> int,
    times: spec_fn(int) -> int,
    lo: int,
    after: (Vol, Result<DirStep, Fault>),
) -> bool {
    let (w, res) = after;
    &&& in_step(g, o, w.img, mode.marks())
    &&& undisturbed(v.stats, w.stats)
    &&& match res {
        Ok(DirStep::Done) => marked_before(
            g,
            w.img,
            mode.marks(),
            when,
            times(path.len() * g.cluster_size),
        ),
        Ok(DirStep::Descend { cluster, resume }) => {
            let p = resume - 32;
            let e = slot(g, o, path, p);
            &&& lo <= p
            &&& resume % 32 == 0
            &&& in_front_of_end(g, o, path, 0, p)
            &&& leads_down(e)
            &&& first_cluster(e) == Some(cluster)
            &&& marked_before(g, w.img, mode.marks(), when, times(p) + 1)
        },
        Err(_) => false,
    }
}

/// A sound directory is scanned without a change.
#[verifier::spinoff_prover]
#[verifier::rlimit(30)]
proof fn lemma_scan_left_alone(
    g: Geometry,
    o: Seq<u8>,
    v: Vol,
    path: Seq<u32>,
    frame: DirFrame,
    cur: Cursor,
    lfn: LfnRun,
    mode: RepairMode,
    room: nat,
    when: spec_fn(u32) -> int,
    times: spec_fn(int) -> int,
)
    requires
        g.wf(o.len()),
        tree_in_order(g, o, path, frame.cluster, frame.parent, room, mode.marks(), when, times),
        on_path(g, path, cur),
        in_step(g, o, v.img, mode.marks()),
        marked_before(g, v.img, mode.marks(), when, times(cur.pos as int)),
        run_in_order(g, o, path, lfn, cur.pos as int),
        lfn.start matches Some(start) ==> start <= cur.pos,
        forall|q: int| is_slot(g, path, q) && q < cur.pos ==> !is_end(#[trigger] slot(g, o, path, q)),
    ensures
        scanned_over(
            g,
            o,
            v,
            path,
            mode,
            when,
            times,
            cur.pos as int,
            scanned_from(g, v, frame, cur, lfn, mode),
        ),
    decreases u32::MAX - cur.pos,
{
    let p = cur.pos as int;
    let e = slot(g, o, path, p);
    let now = times(p);
    let size = path.len() * g.cluster_size;
    lemma_on_path(g, o.len(), path, cur);
    lemma_position(g, o.len(), path, p);
    if !is_end(e) {
        assert(in_front_of_end(g, o, path, 0, p));
    }
    let q = if leads_down(e) {
        let (q, below) = choose|q: Seq<u32>, below: spec_fn(int) -> int|
            #[trigger] child_in_order(
                g,
                o,
                first_cluster(e)->0,
                q,
                mode.marks(),
                when,
                below,
                now,
                times(p + 32),
            ) && tree_in_order(
                g,
                o,
                q,
                first_cluster(e)->0,
                frame.cluster,
                (room - 1) as nat,
                mode.marks(),
                when,
                below,
            );
        q
    } else {
        Seq::empty()
    };
    lemma_visit_left_alone(g, o, v, path, frame, cur, lfn, mode, when, now, q);
    let (mid, res) = entry_visited(g, v, frame, cur, lfn, mode);
    let visit = res->Ok_0;
    lemma_slot_fits(g, o.len(), path, p);
    lemma_goes_forward(times, size, p, p + 32);
    if p + 32 < size {
        lemma_goes_forward(times, size, p + 32, size);
    }
    lemma_later(g, mid.img, mode.marks(), when, times(p) + 1, times(p + 32));
    lemma_later(g, mid.img, mode.marks(), when, times(p) + 1, times(size));
    if let Visit::Next(rest) = visit {
        lemma_same_chain(g, o, mid.img, mode.marks(), path);
        lemma_path_after(g, mid.img, path, cur);
        lemma_run_started(g, v, frame, cur, lfn, mode);
        match place_after(mid.img, g, cur) {
            Place::At(next) => {
                assert forall|i: int| is_slot(g, path, i) && i < next.pos implies !is_end(
                    #[trigger] slot(g, o, path, i),
                ) by {
                    if i >= p {
                        assert(i == p);
                    }
                }
                lemma_scan_left_alone(g, o, mid, path, frame, next, rest, mode, room, when, times);
            },
            Place::End => {
                lemma_no_run_at_end(g, o, path, rest, p + 32);
            },
            Place::Lost(_) => {},
        }
    }
}

/// An entry of a path ends within the path.
proof fn lemma_slot_fits(g: Geometry, size: nat, path: Seq<u32>, p: int)
    requires
        g.wf(size),
        is_slot(g, path, p),
        forall|i: int| 0 <= i < path.len() ==> #[trigger] g.valid_cluster(path[i]),
    ensures
        p + 32 <= path_size(g, path),
{
    lemma_position(g, size, path, p);
    let cs = g.cluster_size as int;
    let i = p / cs;
    let n = path.len() as int;
    assert(i * cs + cs <= n * cs) by (nonlinear_arith)
        requires
            i < n,
            cs > 0,
    ;
}

/// A run starts no later than where the scan is.
proof fn lemma_run_started(g: Geometry, v: Vol, frame: DirFrame, cur: Cursor, lfn: LfnRun, mode: RepairMode)
    requires
        lfn.start matches Some(start) ==> start <= cur.pos,
    ensures
        entry_visited(g, v, frame, cur, lfn, mode).1 matches Ok(Visit::Next(rest)) ==> (
        rest.start matches Some(start) ==> start <= cur.pos),
{
    reveal(entry_visited);
}

/// A sound directory, and everything below it, is walked without a change: nothing is written but the markers of a run
/// that marks, and nothing is counted but what was looked at.
#[verifier::spinoff_prover]
#[verifier::rlimit(30)]
pub proof fn law_sound_tree_is_left_alone(
    g: Geometry,
    o: Seq<u8>,
    v: Vol,
    path: Seq<u32>,
    frame: DirFrame,
    mode: RepairMode,
    room: nat,
    when: spec_fn(u32) -> int,
    times: spec_fn(int) -> int,
)
    requires
        g.wf(o.len()),
        tree_in_order(g, o, path, frame.cluster, frame.parent, room, mode.marks(), when, times),
        in_step(g, o, v.img, mode.marks()),
        marked_before(g, v.img, mode.marks(), when, times(frame.resume as int)),
        frame.resume % 32 == 0,
        frame.resume <= path.len() * g.cluster_size,
        forall|q: int| is_slot(g, path, q) && q < frame.resume ==> !is_end(#[trigger] slot(g, o, path, q)),
    ensures
        ({
            let (w, res) = tree_walked(g, v, frame, room, mode);
            &&& res is Ok
            &&& in_step(g, o, w.img, mode.marks())
            &&& marked_before(g, w.img, mode.marks(), when, times(path.len() * g.cluster_size))
            &&& undisturbed(v.stats, w.stats)
        }),
    decreases room, u32::MAX - frame.resume,
{
    let entered = dir_entered(v, frame);
    let marking = mode.marks();
    lemma_same_chain(g, o, v.img, marking, path);
    lemma_path_at(g, v.img, path, frame.resume);
    if let Place::At(cur) = place_at(v.img, g, path[0], frame.resume) {
        lemma_scan_left_alone(g, o, entered, path, frame, cur, no_run(), mode, room, when, times);
    }
    lemma_dir_scanned_advances(g, entered, frame, mode);
    let (one, res) = dir_scanned(g, entered, frame, mode);
    if let Ok(DirStep::Descend { cluster, resume }) = res {
        let p = resume - 32;
        let e = slot(g, o, path, p);
        let (q, below) = choose|q: Seq<u32>, below: spec_fn(int) -> int|
            #[trigger] child_in_order(
                g,
                o,
                first_cluster(e)->0,
                q,
                marking,
                when,
                below,
                times(p),
                times(p + 32),
            ) && tree_in_order(
                g,
                o,
                q,
                first_cluster(e)->0,
                frame.cluster,
                (room - 1) as nat,
                marking,
                when,
                below,
            );
        let child = DirFrame { cluster, parent: frame.cluster, resume: 0 };
        let rest = DirFrame { resume, ..frame };
        lemma_later(g, one.img, marking, when, times(p) + 1, below(0));
        law_sound_tree_is_left_alone(g, o, one, q, child, mode, (room - 1) as nat, when, below);
        let two = tree_walked(g, one, child, (room - 1) as nat, mode).0;
        lemma_slot_fits(g, o.len(), path, p);
        lemma_later(g, two.img, marking, when, below(q.len() * g.cluster_size), times(p + 32));
        assert forall|i: int| is_slot(g, path, i) && i < resume implies !is_end(
            #[trigger] slot(g, o, path, i),
        ) by {
            assert(i <= p);
        }
        law_sound_tree_is_left_alone(g, o, two, path, rest, mode, room, when, times);
    }
}

/// Whether the reserved FAT entries hold what they have to: the media descriptor, padded with ones, and nothing but
/// ones, the two status flags aside.
pub open spec fn reserved_in_order(g: Geometry, img: Seq<u8>) -> bool {
    &&& raw_entry(img, g, 0) % 0x1000_0000 == 0x0FFF_FF00 + g.media
    &&& raw_entry(img, g, 1) % 0x0400_0000 == 0x03FF_FFFF
}

/// Whether every copy of the FAT that is kept in step is the same as the one that is read.
pub open spec fn copies_in_order(g: Geometry, img: Seq<u8>) -> bool {
    forall|k: int, c: u32|
        g.first_mirror <= k < g.first_mirror + g.mirrors && c < g.total_clusters + 2 ==> #[trigger] copy_entry(
            img,
            g,
            k,
            c,
        ) == raw_entry(img, g, c)
}

/// Reserved FAT entries in order are not damaged.
proof fn lemma_reserved_in_order(g: Geometry, img: Seq<u8>)
    requires
        reserved_in_order(g, img),
    ensures
        !entry_0_damaged(img, g),
        !entry_1_damaged(img, g),
{
    let x = raw_entry(img, g, 0);
    let y = raw_entry(img, g, 1);
    let m = g.media as u32;
    assert((m <= 255 && x % 0x1000_0000 == 0x0FFF_FF00 + m ==> x & 0x0FFF_FFFFu32 == 0x0FFF_FF00u32 | m) && (y
        % 0x0400_0000 == 0x03FF_FFFF ==> (y & 0x0FFF_FFFFu32) | 0x0C00_0000u32 == 0x0FFF_FFFFu32))
        by (bit_vector);
}

/// Where no entry is disputed, none is counted.
proof fn lemma_none_diverging(img: Seq<u8>, g: Geometry, n: int)
    requires
        g.total_clusters <= MAX_CLUSTERS,
        n <= g.fat_entries(),
        forall|c: u32| c < g.fat_entries() ==> !#[trigger] diverges(img, g, c),
    ensures
        count_diverging(img, g, n) == 0,
    decreases n,
{
    if n > 0 {
        lemma_none_diverging(img, g, n - 1);
        assert(!diverges(img, g, (n - 1) as u32));
    }
}

/// A volume without damage is left alone. Where the tree is in order, no run counts damage to it, skips a directory or
/// writes behind the FAT, and one that does not mark leaves every FAT entry of a cluster as it is. Where the reserved
/// FAT entries are in order, and the copies agree, none is restored and none synced, unless a run that marks had to
/// clear markers first.
pub proof fn law_sound_volume_is_left_alone(
    g: Geometry,
    s: FsState,
    mode: RepairMode,
    room: nat,
    path: Seq<u32>,
    when: spec_fn(u32) -> int,
    times: spec_fn(int) -> int,
)
    requires
        ready(g, s),
        room > 0,
        tree_in_order(g, before(g, s), path, 0, 0, (room - 1) as nat, mode.marks(), when, times),
        mode.marks() ==> forall|i: int| 0 <= i < path.len() ==> when(#[trigger] path[i]) == times(0) - 1,
        reserved_in_order(g, before(g, s)),
    ensures
        ({
            let (t, res) = repaired(g, s, mode, room);
            &&& res matches Ok(stats) && {
                &&& stats.dirs_skipped == 0
                &&& stats.dirs_rejected == 0
                &&& stats.entries_recovered == 0
                &&& stats.entries_removed == 0
                &&& stats.chains_truncated == 0
                &&& stats.cross_links_resolved == 0
                &&& stats.sizes_corrected == 0
                &&& stats.dot_entries_fixed == 0
                &&& stats.reserved_entries_restored == 0
                &&& copies_in_order(g, before(g, s)) && !mode.marks() ==> stats.mirror_entries_synced == 0
            }
            &&& forall|i: int| g.fats_end() <= i < s.img.len() ==> #[trigger] t.img[i] == s.img[i]
            &&& !mode.marks() ==> forall|c: u32|
                g.valid_cluster(c) ==> #[trigger] raw_entry(t.img, g, c) == raw_entry(before(g, s), g, c)
        }),
{
    reveal(in_step);
    reveal(marked_before);
    let o = before(g, s);
    let v = opening(g, s, mode);
    let marking = mode.marks();
    let pre = prepared(g, v, mode);
    let t = repaired(g, s, mode, room).0;
    lemma_before(g, s);
    lemma_phases(g, s, mode, room);
    lemma_fat_prepared(g, mode, v);
    lemma_reserved_in_order(g, o);
    assert forall|c: u32| g.valid_cluster(c) implies entry_of(#[trigger] raw_entry(pre.img, g, c))
        == entry_of(raw_entry(o, g, c)) && (marking ==> !marked(raw_entry(pre.img, g, c))) by {
        lemma_unmarked(raw_entry(o, g, c));
    }
    // The reserved entries are no clusters, and are never marked.
    lemma_rewrite_entries(o, g, |raw: u32| unmarked(raw), g.fat_entries());
    let one = markers_prepared(g, v, mode);
    assert(raw_entry(one.img, g, 0) == raw_entry(o, g, 0));
    assert(raw_entry(one.img, g, 1) == raw_entry(o, g, 1));
    let two = signatures_checked(g, one, mode);
    assert(two.stats == v.stats && two.img == one.img);
    if copies_in_order(g, o) && !marking {
        assert forall|c: u32| c < g.fat_entries() implies !#[trigger] diverges(o, g, c) by {}
        lemma_none_diverging(o, g, g.fat_entries());
    }
    let started = fat_checked(g, v, mode);
    if scans_root(mode) {
        lemma_chain_left_alone(g, o, pre, path[0], path, None, mode, when, times(0) - 1);
    }
    lemma_only_root(g, v, mode, room);
    law_sound_tree_is_left_alone(g, o, started, path, root_frame(), mode, (room - 1) as nat, when, times);
}

} // verus!
