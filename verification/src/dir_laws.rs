//! What a thorough run leaves of a directory.

use vstd::prelude::*;

use crate::advance::{lemma_run_at_end, lemma_scan_advances, lemma_visit_outcome, scan_outcome};
use crate::counts::{lemma_scan_counts, lemma_visit_counts};
use crate::dir::{dir_start, place_after, place_at, Cursor, Place};
use crate::dirent::{
    attributes_possible, cluster_field, dot_name, file_size, first_cluster, is_deleted, is_dir, is_end, is_label,
    is_lfn, long_name_checksum, name_checksum, name_corrupted, short_name,
};
use crate::geometry::Geometry;
use crate::mode::RepairMode;
use crate::model::Vol;
use crate::owned::{is_slot, lemma_on_path, lemma_path_after, lemma_path_at, lemma_position, on_path, owned, slot};
use crate::scratch::DirFrame;
use crate::visits::{
    all_deleted, head, is_short, lemma_visit_settles, run_base, run_in, same_slots, thorough, visit_bounded,
    visit_settled,
};
use crate::walk::{
    dir_scanned, entry_visited, frame_ok, lemma_scanned_from_advances, no_run, run_joined, run_matches, scanned_from,
    DirStep, LfnRun, Visit,
};

verus! {

/// Whether an entry with a short name can be what it says: its attributes go together, its first cluster is one of the
/// volume, and it has a size only if it has a cluster. Its name is a name, unless it is a directory that was left
/// alone. `.` points at the directory that it is in, and `..` at the one above.
#[verifier::opaque]
pub open spec fn entry_sound(g: Geometry, frame: DirFrame, e: Seq<u8>) -> bool {
    ||| dot_name(short_name(e)) && cluster_field(e) == if e[1] == 46 {
        frame.parent
    } else {
        frame.cluster
    }
    ||| is_label(e) && !name_corrupted(short_name(e))
    ||| attributes_possible(e) && !dot_name(short_name(e)) && match first_cluster(e) {
        None => file_size(e) == 0 && !name_corrupted(short_name(e)),
        Some(c) => g.valid_cluster(c) && (is_dir(e) || !name_corrupted(short_name(e))),
    }
}

/// Whether the long-name entries from `p` on lead up to the short name at `q`, and belong to it.
pub open spec fn leads_up_to(g: Geometry, img: Seq<u8>, path: Seq<u32>, p: int, q: int) -> bool {
    &&& p < q
    &&& is_slot(g, path, q)
    &&& is_short(slot(g, img, path, q))
    &&& forall|r: int|
        is_slot(g, path, r) && p <= r < q ==> {
            &&& is_lfn(#[trigger] slot(g, img, path, r))
            &&& !is_end(slot(g, img, path, r))
            &&& !is_deleted(slot(g, img, path, r))
            &&& long_name_checksum(slot(g, img, path, r)) == name_checksum(
                short_name(slot(g, img, path, q)),
            )
        }
}

/// Whether there is nothing wrong with the entry at `p` of a directory: it is deleted, it is part of the long name of a
/// short name behind it, or it can be what it says.
pub open spec fn slot_sound(g: Geometry, frame: DirFrame, img: Seq<u8>, path: Seq<u32>, p: int) -> bool {
    let e = slot(g, img, path, p);
    ||| is_deleted(e)
    ||| is_lfn(e) && exists|q: int| #[trigger] leads_up_to(g, img, path, p, q)
    ||| is_short(e) && entry_sound(g, frame, e)
}

/// Whether `p` is an entry of a directory that is not behind its end.
pub open spec fn in_front_of_end(g: Geometry, img: Seq<u8>, path: Seq<u32>, lo: int, p: int) -> bool {
    &&& is_slot(g, path, p)
    &&& forall|q: int| is_slot(g, path, q) && lo <= q <= p ==> !is_end(#[trigger] slot(g, img, path, q))
}

/// Where a scan has stopped: no entry from there on was looked at.
pub open spec fn stop_of(step: DirStep) -> int {
    match step {
        DirStep::Done => 0x1_0000_0000,
        DirStep::Descend { cluster, resume } => resume as int,
    }
}

/// Whether the entries from `lo` to `hi` are sound, up to the end of the directory.
pub open spec fn slots_sound(g: Geometry, frame: DirFrame, img: Seq<u8>, path: Seq<u32>, lo: int, hi: int) -> bool {
    forall|p: int|
        lo <= p < hi && #[trigger] in_front_of_end(g, img, path, lo, p) ==> slot_sound(g, frame, img, path, p)
}

/// Whether the entries of the run that the scan is in the middle of go together, if the run says so.
pub open spec fn run_summed(g: Geometry, img: Seq<u8>, path: Seq<u32>, lfn: LfnRun, pos: int) -> bool {
    lfn.start matches Some(start) ==> forall|q: int|
        is_slot(g, path, q) && start <= q < pos ==> !is_end(#[trigger] slot(g, img, path, q)) && (
        !lfn.damaged ==> long_name_checksum(slot(g, img, path, q)) == lfn.checksum)
}

/// Soundness of entries that do not change any more.
proof fn lemma_sound_stays(
    g: Geometry,
    frame: DirFrame,
    a: Seq<u8>,
    b: Seq<u8>,
    path: Seq<u32>,
    lo: int,
    hi: int,
    p: int,
)
    requires
        same_slots(g, a, b, path, lo, hi),
        lo <= p < hi,
        is_slot(g, path, p),
        sound_within(g, frame, a, path, p, hi),
    ensures
        slot_sound(g, frame, b, path, p),
{
    assert(slot(g, b, path, p) == slot(g, a, path, p));
    let e = slot(g, a, path, p);
    if !is_deleted(e) && !(is_short(e) && entry_sound(g, frame, e)) {
        let q = choose|q: int| q < hi && #[trigger] leads_up_to(g, a, path, p, q);
        assert(slot(g, b, path, q) == slot(g, a, path, q));
        assert forall|r: int| is_slot(g, path, r) && p <= r < q implies {
            &&& is_lfn(#[trigger] slot(g, b, path, r))
            &&& !is_end(slot(g, b, path, r))
            &&& !is_deleted(slot(g, b, path, r))
            &&& long_name_checksum(slot(g, b, path, r)) == name_checksum(
                short_name(slot(g, b, path, q)),
            )
        } by {
            assert(slot(g, b, path, r) == slot(g, a, path, r));
        }
        assert(leads_up_to(g, b, path, p, q));
    }
}

/// Whether there is nothing wrong with the entry at `p`, as the entries in front of `hi` show.
pub open spec fn sound_within(g: Geometry, frame: DirFrame, img: Seq<u8>, path: Seq<u32>, p: int, hi: int) -> bool {
    let e = slot(g, img, path, p);
    ||| is_deleted(e)
    ||| is_lfn(e) && exists|q: int| q < hi && #[trigger] leads_up_to(g, img, path, p, q)
    ||| is_short(e) && entry_sound(g, frame, e)
}

/// A short-name entry that a visit leaves is sound, if the visit did not rename it.
proof fn lemma_now_sound(
    g: Geometry,
    frame: DirFrame,
    path: Seq<u32>,
    pos: u32,
    lfn: LfnRun,
    a: Seq<u8>,
    b: Seq<u8>,
    visit: Visit,
    q: Seq<u32>,
)
    requires
        g.wf(a.len()),
        a.len() == b.len(),
        forall|i: int| 0 <= i < path.len() ==> #[trigger] g.valid_cluster(path[i]),
        visit_settled(g, frame, path, pos, lfn, a, b, visit, q),
        is_slot(g, path, pos as int),
        run_base(lfn, pos as int) <= pos,
        is_short(slot(g, a, path, pos as int)),
        !is_deleted(slot(g, b, path, pos as int)),
        short_name(slot(g, b, path, pos as int)) == short_name(slot(g, a, path, pos as int)),
    ensures
        is_short(slot(g, b, path, pos as int)),
        entry_sound(g, frame, slot(g, b, path, pos as int)),
        run_base(lfn, pos as int) < pos ==> if run_matches(lfn, short_name(slot(g, a, path, pos as int))) {
            same_slots(g, a, b, path, run_base(lfn, pos as int), pos as int)
        } else {
            all_deleted(g, b, path, run_base(lfn, pos as int), pos as int)
        },
{
    let e = slot(g, a, path, pos as int);
    let now = slot(g, b, path, pos as int);
    reveal(entry_sound);
    lemma_position(g, a.len(), path, pos as int);
    assert(now[0] == short_name(now)[0] && e[0] == short_name(e)[0]);
    assert(now[1] == short_name(now)[1] && e[1] == short_name(e)[1]);
    assert(now[11] == e[11]);
}

/// An entry that a visit deletes goes together with its long name.
proof fn lemma_now_deleted(
    g: Geometry,
    frame: DirFrame,
    path: Seq<u32>,
    pos: u32,
    lfn: LfnRun,
    a: Seq<u8>,
    b: Seq<u8>,
    visit: Visit,
    q: Seq<u32>,
)
    requires
        g.wf(a.len()),
        a.len() == b.len(),
        forall|i: int| 0 <= i < path.len() ==> #[trigger] g.valid_cluster(path[i]),
        visit_settled(g, frame, path, pos, lfn, a, b, visit, q),
        is_slot(g, path, pos as int),
        is_short(slot(g, a, path, pos as int)),
        is_deleted(slot(g, b, path, pos as int)),
    ensures
        all_deleted(g, b, path, run_base(lfn, pos as int), pos + 32),
{
    let e = slot(g, a, path, pos as int);
    let now = slot(g, b, path, pos as int);
    lemma_position(g, a.len(), path, pos as int);
    assert(now[0] == head(now)[0] && e[0] == head(e)[0]);
    assert(now[0] == short_name(now)[0]);
}

/// A long name that belongs to the short name behind it, and is not touched, leads up to it.
proof fn lemma_lead_stays(
    g: Geometry,
    a: Seq<u8>,
    b: Seq<u8>,
    path: Seq<u32>,
    lfn: LfnRun,
    at: int,
    p: int,
)
    requires
        run_in(g, a, path, lfn, at),
        run_summed(g, a, path, lfn, at),
        run_matches(lfn, short_name(slot(g, a, path, at))),
        same_slots(g, a, b, path, run_base(lfn, at), at),
        is_slot(g, path, p),
        is_slot(g, path, at),
        run_base(lfn, at) <= p < at,
        is_short(slot(g, b, path, at)),
        short_name(slot(g, b, path, at)) == short_name(slot(g, a, path, at)),
    ensures
        is_lfn(slot(g, b, path, p)),
        leads_up_to(g, b, path, p, at),
{
    assert(slot(g, b, path, p) == slot(g, a, path, p));
    assert forall|r: int| is_slot(g, path, r) && p <= r < at implies {
        &&& is_lfn(#[trigger] slot(g, b, path, r))
        &&& !is_end(slot(g, b, path, r))
        &&& !is_deleted(slot(g, b, path, r))
        &&& long_name_checksum(slot(g, b, path, r)) == name_checksum(
            short_name(slot(g, b, path, at)),
        )
    } by {
        assert(slot(g, b, path, r) == slot(g, a, path, r));
    }
}

/// A visit behind which nothing is pending leaves the entries up to there sound, if it renames nothing.
proof fn lemma_visit_sound(
    g: Geometry,
    frame: DirFrame,
    path: Seq<u32>,
    cur: Cursor,
    lfn: LfnRun,
    a: Seq<u8>,
    b: Seq<u8>,
    visit: Visit,
    q: Seq<u32>,
    p: int,
)
    requires
        g.wf(a.len()),
        owned(g, a, path),
        on_path(g, path, cur),
        run_in(g, a, path, lfn, cur.pos as int),
        run_summed(g, a, path, lfn, cur.pos as int),
        visit_settled(g, frame, path, cur.pos, lfn, a, b, visit, q),
        a.len() == b.len(),
        visit is Descend || (visit matches Visit::Next(rest) && rest.start is None) || visit is Finish,
        ({
            let e = slot(g, a, path, cur.pos as int);
            let now = slot(g, b, path, cur.pos as int);
            is_short(e) && !is_deleted(now) ==> short_name(now) == short_name(e)
        }),
        is_slot(g, path, p),
        run_base(lfn, cur.pos as int) <= p < cur.pos + 32,
        visit is Finish ==> p < cur.pos,
    ensures
        sound_within(g, frame, b, path, p, cur.pos + 32),
{
    let at = cur.pos as int;
    let e = slot(g, a, path, at);
    let now = slot(g, b, path, at);
    lemma_on_path(g, a.len(), path, cur);
    lemma_position(g, a.len(), path, at);
    assert(p >= at ==> p == at);
    if is_short(e) && !is_deleted(now) {
        lemma_now_sound(g, frame, path, cur.pos, lfn, a, b, visit, q);
        if p < at {
            if run_matches(lfn, short_name(e)) {
                lemma_lead_stays(g, a, b, path, lfn, at, p);
            } else {
                assert(is_deleted(slot(g, b, path, p)));
            }
        }
    } else if is_short(e) {
        lemma_now_deleted(g, frame, path, cur.pos, lfn, a, b, visit, q);
        assert(is_deleted(slot(g, b, path, p)));
    } else if is_end(e) || is_deleted(e) {
        assert(is_deleted(slot(g, b, path, p)));
    } else {
        assert(run_joined(lfn, e, cur.pos).start is Some);
    }
}

/// A scan leaves the entries it has been through sound, if it renames nothing.
#[verifier::spinoff_prover]
#[verifier::rlimit(30)]
proof fn lemma_scan_sound(
    g: Geometry,
    mode: RepairMode,
    v: Vol,
    path: Seq<u32>,
    cur: Cursor,
    frame: DirFrame,
    lfn: LfnRun,
)
    requires
        g.wf(v.img.len()),
        thorough(mode),
        owned(g, v.img, path),
        path[0] == dir_start(g, frame.cluster),
        on_path(g, path, cur),
        run_in(g, v.img, path, lfn, cur.pos as int),
        run_summed(g, v.img, path, lfn, cur.pos as int),
        scanned_from(g, v, frame, cur, lfn, mode).1 is Ok,
        scanned_from(g, v, frame, cur, lfn, mode).0.stats.entries_recovered
            == v.stats.entries_recovered < u32::MAX,
    ensures
        ({
            let (b, res) = scanned_from(g, v, frame, cur, lfn, mode);
            slots_sound(g, frame, b.img, path, run_base(lfn, cur.pos as int), stop_of(res->Ok_0))
        }),
    decreases u32::MAX - cur.pos, 1nat,
{
    let at = cur.pos as int;
    let base = run_base(lfn, at);
    let (mid, visited) = entry_visited(g, v, frame, cur, lfn, mode);
    let (b, res) = scanned_from(g, v, frame, cur, lfn, mode);
    lemma_visit_counts(g, v, frame, cur, lfn, mode);
    if let Ok(Visit::Next(rest)) = visited {
        if let Place::At(next) = place_after(mid.img, g, cur) {
            lemma_scan_counts(g, mid, frame, next, rest, mode);
        }
    }
    let q = lemma_visit_settles(g, mode, v, path, cur, frame, lfn);
    let visit = visited->Ok_0;
    lemma_on_path(g, v.img.len(), path, cur);
    lemma_path_after(g, mid.img, path, cur);
    match visit {
        Visit::Next(rest) => {
            lemma_next_sound(g, mode, v, path, cur, frame, lfn, q);
        },
        _ => {
            assert forall|p: int|
                base <= p < stop_of(res->Ok_0) && #[trigger] in_front_of_end(
                    g,
                    b.img,
                    path,
                    base,
                    p,
                ) implies slot_sound(g, frame, b.img, path, p) by {
                if visit is Finish && p >= at {
                    assert(is_end(slot(g, b.img, path, at)));
                } else {
                    lemma_visit_sound(g, frame, path, cur, lfn, v.img, b.img, visit, q, p);
                    lemma_sound_stays(g, frame, b.img, b.img, path, base, at + 32, p);
                }
            }
        },
    }
}

/// A scan that goes on behind its first visit.
#[verifier::spinoff_prover]
#[verifier::rlimit(30)]
proof fn lemma_next_sound(
    g: Geometry,
    mode: RepairMode,
    v: Vol,
    path: Seq<u32>,
    cur: Cursor,
    frame: DirFrame,
    lfn: LfnRun,
    q: Seq<u32>,
)
    requires
        g.wf(v.img.len()),
        thorough(mode),
        owned(g, v.img, path),
        path[0] == dir_start(g, frame.cluster),
        on_path(g, path, cur),
        run_in(g, v.img, path, lfn, cur.pos as int),
        run_summed(g, v.img, path, lfn, cur.pos as int),
        scanned_from(g, v, frame, cur, lfn, mode).1 is Ok,
        scanned_from(g, v, frame, cur, lfn, mode).0.stats.entries_recovered
            == v.stats.entries_recovered < u32::MAX,
        ({
            let (mid, visited) = entry_visited(g, v, frame, cur, lfn, mode);
            let e = slot(g, v.img, path, cur.pos as int);
            let now = slot(g, mid.img, path, cur.pos as int);
            &&& visited matches Ok(visit) && visit is Next && visit_settled(
                g,
                frame,
                path,
                cur.pos,
                lfn,
                v.img,
                mid.img,
                visit,
                q,
            )
            &&& visit_bounded(g, path, cur.pos, lfn, v.img, mid.img, q)
            &&& is_short(e) && !is_deleted(now) ==> short_name(now) == short_name(e)
            &&& mid.stats.entries_recovered == v.stats.entries_recovered
        }),
    ensures
        ({
            let (b, res) = scanned_from(g, v, frame, cur, lfn, mode);
            slots_sound(g, frame, b.img, path, run_base(lfn, cur.pos as int), stop_of(res->Ok_0))
        }),
    decreases u32::MAX - cur.pos, 0nat,
{
    let at = cur.pos as int;
    let base = run_base(lfn, at);
    let (mid, visited) = entry_visited(g, v, frame, cur, lfn, mode);
    let (b, res) = scanned_from(g, v, frame, cur, lfn, mode);
    let visit = visited->Ok_0;
    let rest = visit->Next_0;
    let e = slot(g, v.img, path, at);
    lemma_on_path(g, v.img.len(), path, cur);
    lemma_position(g, v.img.len(), path, at);
    lemma_path_after(g, mid.img, path, cur);
    lemma_visit_outcome(g, frame, path, cur, lfn, v.img, mid.img, visit, q);
    assert(run_in(g, mid.img, path, rest, at + 32));
    assert(run_summed(g, mid.img, path, rest, at + 32)) by {
        if let Some(start) = rest.start {
            if !rest.damaged {
                assert forall|r: int| is_slot(g, path, r) && start <= r < at + 32 implies long_name_checksum(
                    #[trigger] slot(g, mid.img, path, r),
                ) == rest.checksum by {
                    assert(r <= at);
                }
            }
        }
    }
    match place_after(mid.img, g, cur) {
        Place::At(next) => {
            lemma_scan_sound(g, mode, mid, path, next, frame, rest);
            lemma_scan_advances(g, mode, mid, path, next, frame, rest);
            reveal(scan_outcome);
            lemma_scanned_from_advances(g, mid, frame, next, rest, mode);
            let later = run_base(rest, at + 32);
            assert forall|p: int|
                base <= p < stop_of(res->Ok_0) && #[trigger] in_front_of_end(
                    g,
                    b.img,
                    path,
                    base,
                    p,
                ) implies slot_sound(g, frame, b.img, path, p) by {
                if p >= later {
                    assert(in_front_of_end(g, b.img, path, later, p));
                } else {
                    assert(rest.start is None);
                    lemma_visit_sound(g, frame, path, cur, lfn, v.img, mid.img, visit, q, p);
                    assert(same_slots(g, mid.img, b.img, path, base, at + 32));
                    lemma_sound_stays(g, frame, mid.img, b.img, path, base, at + 32, p);
                }
            }
        },
        Place::End => {
            if let Some(start) = rest.start {
                lemma_run_at_end(g, mode, mid, path, cur, frame, rest, start);
            }
            assert forall|p: int|
                base <= p < stop_of(res->Ok_0) && #[trigger] in_front_of_end(
                    g,
                    b.img,
                    path,
                    base,
                    p,
                ) implies slot_sound(g, frame, b.img, path, p) by {
                assert(p < at + 32);
                if rest.start is None {
                    lemma_visit_sound(g, frame, path, cur, lfn, v.img, mid.img, visit, q, p);
                    lemma_sound_stays(g, frame, mid.img, mid.img, path, base, at + 32, p);
                } else {
                    assert(is_deleted(slot(g, b.img, path, p)));
                }
            }
        },
        _ => {},
    }
}

/// A directory that a thorough run has scanned holds, as far as it was scanned, no long name without its short one, no
/// entry with impossible attributes, none that points out of the volume, and none with a size but no cluster.
///
/// An entry that the run renames keeps a long name that no longer goes with it, so runs that rename are left out. The
/// chain of the directory is `path`, which the run has claimed before it scans the directory.
pub proof fn law_scanned_directory_is_sound(
    g: Geometry,
    mode: RepairMode,
    v: Vol,
    path: Seq<u32>,
    frame: DirFrame,
)
    requires
        g.wf(v.img.len()),
        thorough(mode),
        owned(g, v.img, path),
        path[0] == dir_start(g, frame.cluster),
        frame_ok(g, frame),
        dir_scanned(g, v, frame, mode).1 is Ok,
        dir_scanned(g, v, frame, mode).0.stats.entries_recovered == v.stats.entries_recovered
            < u32::MAX,
    ensures
        ({
            let (b, res) = dir_scanned(g, v, frame, mode);
            slots_sound(g, frame, b.img, path, frame.resume as int, stop_of(res->Ok_0))
        }),
{
    lemma_path_at(g, v.img, path, frame.resume);
    if let Place::At(cur) = place_at(v.img, g, path[0], frame.resume) {
        lemma_scan_sound(g, mode, v, path, cur, frame, no_run());
    }
}

} // verus!
