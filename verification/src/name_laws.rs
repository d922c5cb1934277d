//! What a scan leaves of long names.

use vstd::prelude::*;

use crate::advance::{lemma_scan_advances, lemma_visit_outcome, scan_outcome};
use crate::counts::{lemma_scan_counts, lemma_visit_counts};
use crate::dir::{dir_start, place_after, place_at, Cursor, Place};
use crate::dir_laws::{in_front_of_end, leads_up_to, stop_of};
use crate::dirent::{is_deleted, is_end, is_lfn, long_name_checksum, name_checksum, short_name};
use crate::geometry::Geometry;
use crate::mode::RepairMode;
use crate::model::Vol;
use crate::owned::{is_slot, lemma_on_path, lemma_path_after, lemma_path_at, on_path, only_slots, outside, owned, slot};
use crate::scratch::DirFrame;
use crate::visits::{is_short, lemma_visit_settles, names_fit, run_base, run_in, same_slots, thorough};
use crate::walk::{dir_scanned, entry_visited, frame_ok, no_run, run_matches, scanned_from, LfnRun, Visit};
verus! {

/// Whether the entries of `path` from `p` to `q` are the same in `a` and `b`, or the one at `q` is gone.
pub open spec fn name_kept(g: Geometry, a: Seq<u8>, b: Seq<u8>, path: Seq<u32>, p: int, q: int) -> bool {
    ||| is_deleted(slot(g, b, path, q))
    ||| forall|r: int|
        is_slot(g, path, r) && p <= r < q ==> #[trigger] slot(g, b, path, r) == slot(g, a, path, r)
}

/// A long name further on is not touched by a visit.
proof fn lemma_name_ahead(g: Geometry, a: Seq<u8>, b: Seq<u8>, path: Seq<u32>, lo: int, hi: int, p: int, q: int)
    requires
        only_slots(g, path, lo, hi, a, b),
        hi <= p,
        leads_up_to(g, a, path, p, q),
    ensures
        leads_up_to(g, b, path, p, q),
        forall|r: int| is_slot(g, path, r) && hi <= r ==> #[trigger] slot(g, b, path, r) == slot(g, a, path, r),
{
    assert forall|r: int| is_slot(g, path, r) && hi <= r implies #[trigger] slot(g, b, path, r) == slot(
        g,
        a,
        path,
        r,
    ) by {
        assert(outside(lo, hi, r));
    }
    assert forall|r: int| is_slot(g, path, r) && p <= r < q implies {
        &&& is_lfn(#[trigger] slot(g, b, path, r))
        &&& !is_end(slot(g, b, path, r))
        &&& !is_deleted(slot(g, b, path, r))
        &&& long_name_checksum(slot(g, b, path, r)) == name_checksum(short_name(slot(g, b, path, q)))
    } by {
        assert(slot(g, b, path, r) == slot(g, a, path, r));
        assert(slot(g, b, path, q) == slot(g, a, path, q));
    }
    assert(slot(g, b, path, q) == slot(g, a, path, q));
}

/// A scan on its way to, through, or at the end of a long name.
#[verifier::spinoff_prover]
#[verifier::rlimit(40)]
proof fn lemma_scan_keeps_name(
    g: Geometry,
    mode: RepairMode,
    v: Vol,
    path: Seq<u32>,
    cur: Cursor,
    frame: DirFrame,
    lfn: LfnRun,
    p: int,
    q: int,
)
    requires
        g.wf(v.img.len()),
        thorough(mode),
        owned(g, v.img, path),
        path[0] == dir_start(g, frame.cluster),
        on_path(g, path, cur),
        run_in(g, v.img, path, lfn, cur.pos as int),
        scanned_from(g, v, frame, cur, lfn, mode).1 is Ok,
        names_fit(g, v.stats, scanned_from(g, v, frame, cur, lfn, mode).0.stats),
        is_slot(g, path, p),
        leads_up_to(g, v.img, path, p, q),
        cur.pos <= q,
        q < stop_of(scanned_from(g, v, frame, cur, lfn, mode).1->Ok_0),
        cur.pos == p ==> lfn.start is None,
        cur.pos < p ==> is_slot(g, path, p - 32) && (is_deleted(slot(g, v.img, path, p - 32)) || !is_lfn(
            slot(g, v.img, path, p - 32),
        )),
        cur.pos < p ==> in_front_of_end(g, v.img, path, cur.pos as int, p),
        cur.pos > p ==> lfn.start == Some(p as u32) && !lfn.damaged && lfn.checksum == name_checksum(
            short_name(slot(g, v.img, path, q)),
        ),
    ensures
        name_kept(g, v.img, scanned_from(g, v, frame, cur, lfn, mode).0.img, path, p, q),
    decreases u32::MAX - cur.pos,
{
    let at = cur.pos as int;
    let e = slot(g, v.img, path, at);
    let (mid, visited) = entry_visited(g, v, frame, cur, lfn, mode);
    let (b, res) = scanned_from(g, v, frame, cur, lfn, mode);
    lemma_visit_counts(g, v, frame, cur, lfn, mode);
    if let Ok(Visit::Next(rest)) = visited {
        if let Place::At(next) = place_after(mid.img, g, cur) {
            lemma_scan_counts(g, mid, frame, next, rest, mode);
        }
    }
    let claimed = lemma_visit_settles(g, mode, v, path, cur, frame, lfn);
    let visit = visited->Ok_0;
    lemma_on_path(g, v.img.len(), path, cur);
    lemma_path_after(g, mid.img, path, cur);
    lemma_visit_outcome(g, frame, path, cur, lfn, v.img, mid.img, visit, claimed);
    let base = run_base(lfn, at);
    if at < q {
        assert(!is_end(e));
        if at < p {
            lemma_name_ahead(g, v.img, mid.img, path, base, at + 32, p, q);
        } else {
            assert(is_lfn(e) && !is_deleted(e));
            assert(long_name_checksum(e) == name_checksum(short_name(slot(g, v.img, path, q))));
        }
        if let Visit::Next(rest) = visit {
            if let Place::At(next) = place_after(mid.img, g, cur) {
                if at < p && next.pos < p {
                    assert(slot(g, mid.img, path, p - 32) == slot(g, v.img, path, p - 32));
                    assert forall|r: int| is_slot(g, path, r) && next.pos <= r <= p implies !is_end(
                        #[trigger] slot(g, mid.img, path, r),
                    ) by {
                        assert(slot(g, mid.img, path, r) == slot(g, v.img, path, r));
                    }
                    assert(in_front_of_end(g, mid.img, path, next.pos as int, p));
                }
                lemma_scan_keeps_name(g, mode, mid, path, next, frame, rest, p, q);
                if at < p {
                    assert(slot(g, mid.img, path, q) == slot(g, v.img, path, q));
                }
            }
        }
    } else {
        assert(at == q);
        assert(is_short(e));
        assert(run_matches(lfn, short_name(e)));
        if let Visit::Next(rest) = visit {
            assert(rest.start is None);
            if let Place::At(next) = place_after(mid.img, g, cur) {
                lemma_scan_advances(g, mode, mid, path, next, frame, rest);
                reveal(scan_outcome);
                assert(same_slots(g, mid.img, b.img, path, 0, at + 32));
            }
        }
        assert(slot(g, b.img, path, q) == slot(g, mid.img, path, q));
        if !is_deleted(slot(g, b.img, path, q)) {
            assert(same_slots(g, v.img, mid.img, path, base, at));
            assert forall|r: int| is_slot(g, path, r) && p <= r < q implies #[trigger] slot(
                g,
                b.img,
                path,
                r,
            ) == slot(g, v.img, path, r) by {
                assert(slot(g, b.img, path, r) == slot(g, mid.img, path, r));
            }
        }
    }
}

/// A long name, however long, whose entries all carry the checksum of the short name right behind them, is left as it
/// is by a scan of its directory, byte for byte, whatever else the scan has to repair there. It goes only together with
/// its short name. The run is a whole one: what is in front of it is no part of a long name.
pub proof fn law_long_names_are_kept(
    g: Geometry,
    mode: RepairMode,
    v: Vol,
    path: Seq<u32>,
    frame: DirFrame,
    p: int,
    q: int,
)
    requires
        g.wf(v.img.len()),
        thorough(mode),
        owned(g, v.img, path),
        path[0] == dir_start(g, frame.cluster),
        frame_ok(g, frame),
        dir_scanned(g, v, frame, mode).1 is Ok,
        names_fit(g, v.stats, dir_scanned(g, v, frame, mode).0.stats),
        is_slot(g, path, p),
        leads_up_to(g, v.img, path, p, q),
        frame.resume <= p,
        in_front_of_end(g, v.img, path, frame.resume as int, p),
        p == frame.resume || is_deleted(slot(g, v.img, path, p - 32)) || !is_lfn(
            slot(g, v.img, path, p - 32),
        ),
        q < stop_of(dir_scanned(g, v, frame, mode).1->Ok_0),
    ensures
        name_kept(g, v.img, dir_scanned(g, v, frame, mode).0.img, path, p, q),
{
    lemma_path_at(g, v.img, path, frame.resume);
    if let Place::At(cur) = place_at(v.img, g, path[0], frame.resume) {
        lemma_scan_keeps_name(g, mode, v, path, cur, frame, no_run(), p, q);
    }
}

} // verus!
