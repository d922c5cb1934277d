//! What each step of a repair makes of the bytes of an entry.

use vstd::prelude::*;

use crate::bytes::le_u32;
use crate::dir::{entry_deleted, lemma_place_after, place_after, place_at, Cursor, Place};
use crate::dirent::{cluster_field, file_size, name_corrupted, recovered_name, short_name, with_cluster, with_size};
use crate::entry::{
    capacity_of, chain_limit, dot_fixed, dot_target, emptied, entries_between, entries_deleted, renamed, resized,
    run_removed,
};
use crate::error::Fault;
use crate::geometry::Geometry;
use crate::kept::cluster_kept;
use crate::meaning::{
    law_clusters, law_fields_of_entries, law_fields_written, law_kinds_of_entries, law_legal_names, law_numbers,
    legal_name,
};
use crate::mode::RepairMode;
use crate::model::Vol;
use crate::owned::{is_slot, lemma_run_deleted, outside, path_size, slot, whole_chain};
use crate::scratch::DirFrame;
use crate::stats::{bump, RepairStats};
use crate::walk::label_checked;
verus! {

/// `now` is `was`, but for the bytes from `lo` to `hi`.
pub open spec fn same_except(was: Seq<u8>, now: Seq<u8>, lo: int, hi: int) -> bool {
    &&& now.len() == was.len()
    &&& forall|i: int| 0 <= i < was.len() && !(lo <= i < hi) ==> #[trigger] now[i] == was[i]
}

/// A dot entry that points where it has to is left alone and not counted: `.` at its own directory, `..`, which has a
/// second dot, at the one above. Any other is counted, and, if entries may be edited, made to point there. Of the
/// entry, only the cluster number changes, and of the volume, nothing else does.
pub proof fn law_dot_entry(v: Vol, mode: RepairMode, frame: DirFrame, at: int)
    requires
        0 <= at,
        at + 32 <= v.img.len(),
    ensures
        ({
            let e = v.img.subrange(at, at + 32);
            let w = dot_fixed(v, mode, frame, e, at);
            let now = w.img.subrange(at, at + 32);
            let home = if e[1] == 46 {
                frame.parent
            } else {
                frame.cluster
            };
            let found = e[26] + 256 * e[27] + 65_536 * e[20] + 16_777_216 * e[21];
            &&& found == home ==> w == v
            &&& found != home ==> w.stats == (RepairStats {
                dot_entries_fixed: bump(v.stats.dot_entries_fixed),
                ..v.stats
            })
            &&& found != home && mode.applies(RepairMode::entry_validity()) ==> {
                &&& now[26] + 256 * now[27] + 65_536 * now[20] + 16_777_216 * now[21] == home
                &&& same_except(v.img, w.img, at + 20, at + 28)
                &&& forall|i: int| 22 <= i < 26 ==> #[trigger] now[i] == e[i]
            }
            &&& !mode.applies(RepairMode::entry_validity()) ==> w.img == v.img
        }),
{
    let e = v.img.subrange(at, at + 32);
    let home = dot_target(frame, e);
    let w = dot_fixed(v, mode, frame, e, at);
    let now = w.img.subrange(at, at + 32);
    law_fields_of_entries(e);
    law_fields_written(e, home, 0);
    if cluster_field(e) != home && mode.applies(RepairMode::entry_validity()) {
        let wanted = with_cluster(e, home);
        law_fields_of_entries(wanted);
        assert(now =~= wanted) by {
            assert forall|i: int| 0 <= i < 32 implies #[trigger] now[i] == wanted[i] by {
                if 20 <= i < 32 {
                    assert(wanted.subrange(20, 32)[i - 20] == wanted[i]);
                }
            }
        }
        assert forall|i: int| 0 <= i < v.img.len() && !(at + 20 <= i < at + 28) implies #[trigger] w.img[i]
            == v.img[i] by {
            if at + 28 <= i < at + 32 {
                assert(now[i - at] == wanted[i - at]);
            }
        }
    }
}

/// A size that is corrected is counted, and, if that is allowed, stored at byte 28 of the entry. Nothing else changes.
pub proof fn law_size_corrected(v: Vol, mode: RepairMode, flag: RepairMode, at: int, size: u32)
    requires
        0 <= at,
        at + 32 <= v.img.len(),
    ensures
        ({
            let e = v.img.subrange(at, at + 32);
            let w = resized(v, mode, flag, e, at, size);
            &&& w.stats == (RepairStats { sizes_corrected: bump(v.stats.sizes_corrected), ..v.stats })
            &&& mode.applies(flag) ==> le_u32(w.img, at + 28) == size && same_except(
                v.img,
                w.img,
                at + 28,
                at + 32,
            )
            &&& !mode.applies(flag) ==> w.img == v.img
        }),
{
    let e = v.img.subrange(at, at + 32);
    let wanted = with_size(e, size);
    law_fields_written(e, 0, size);
    let w = resized(v, mode, flag, e, at, size);
    if mode.applies(flag) {
        assert forall|i: int| 20 <= i < 32 implies #[trigger] w.img[at + i] == wanted[i] by {
            assert(wanted.subrange(20, 32)[i - 20] == wanted[i]);
        }
        assert(w.img[at + 28] == wanted[28] && w.img[at + 29] == wanted[29] && w.img[at + 30]
            == wanted[30] && w.img[at + 31] == wanted[31]);
        assert forall|i: int| 0 <= i < v.img.len() && !(at + 28 <= i < at + 32) implies #[trigger] w.img[i]
            == v.img[i] by {
            if at + 20 <= i < at + 28 {
                assert(w.img[at + (i - at)] == wanted[i - at]);
            }
        }
    }
}

/// A file that is emptied loses its size and its cluster, if chains may be repaired, and keeps everything else. It is
/// counted if it had a size.
pub proof fn law_file_emptied(v: Vol, mode: RepairMode, at: int)
    requires
        0 <= at,
        at + 32 <= v.img.len(),
    ensures
        ({
            let e = v.img.subrange(at, at + 32);
            let w = emptied(v, mode, e, at);
            let now = w.img.subrange(at, at + 32);
            &&& file_size(e) != 0 ==> w.stats == (RepairStats {
                sizes_corrected: bump(v.stats.sizes_corrected),
                ..v.stats
            })
            &&& file_size(e) == 0 ==> w.stats == v.stats
            &&& mode.applies(RepairMode::chains()) ==> {
                &&& now[20] == 0 && now[21] == 0 && now[26] == 0 && now[27] == 0
                &&& now[28] == 0 && now[29] == 0 && now[30] == 0 && now[31] == 0
                &&& forall|i: int| 22 <= i < 26 ==> #[trigger] now[i] == e[i]
                &&& same_except(v.img, w.img, at + 20, at + 32)
            }
            &&& !mode.applies(RepairMode::chains()) ==> w.img == v.img
        }),
{
    let e = v.img.subrange(at, at + 32);
    let sized = with_size(e, 0);
    let wanted = with_cluster(sized, 0);
    law_fields_written(e, 0, 0);
    law_fields_written(sized, 0, 0);
    law_fields_of_entries(wanted);
    let w = emptied(v, mode, e, at);
    let now = w.img.subrange(at, at + 32);
    if mode.applies(RepairMode::chains()) {
        assert forall|i: int| 20 <= i < 32 implies #[trigger] now[i] == wanted[i] by {
            assert(wanted.subrange(20, 32)[i - 20] == wanted[i]);
        }
        assert(wanted[28] == sized[28] && wanted[29] == sized[29] && wanted[30] == sized[30]
            && wanted[31] == sized[31]);
        law_numbers(sized, 28, 0, 0);
    }
}

/// An entry that is renamed is counted, and gets the name that its number gives, if entries may be edited. Nothing else
/// changes.
pub proof fn law_entry_renamed(v: Vol, mode: RepairMode, at: int)
    requires
        0 <= at,
        at + 32 <= v.img.len(),
    ensures
        ({
            let w = renamed(v, mode, at);
            &&& w.stats == (RepairStats { entries_recovered: bump(v.stats.entries_recovered), ..v.stats })
            &&& mode.applies(RepairMode::entry_validity()) ==> w.img.subrange(at, at + 11)
                == recovered_name(v.stats.entries_recovered) && same_except(v.img, w.img, at, at + 11)
            &&& !mode.applies(RepairMode::entry_validity()) ==> w.img == v.img
        }),
{
    let w = renamed(v, mode, at);
    if mode.applies(RepairMode::entry_validity()) {
        assert(w.img.subrange(at, at + 11) =~= recovered_name(v.stats.entries_recovered));
    }
}

/// A label with an illegal name is counted, and gets the label in the boot sector, if entries may be edited. One with a
/// legal name is left alone, and nothing else changes.
pub proof fn law_label_checked(g: Geometry, v: Vol, e: Seq<u8>, at: int, mode: RepairMode)
    requires
        0 <= at,
        at + 32 <= v.img.len(),
        e == v.img.subrange(at, at + 32),
    ensures
        ({
            let w = label_checked(g, v, e, at, mode);
            let edits = mode.applies(RepairMode::entry_validity());
            &&& legal_name(e) ==> w == v
            &&& !legal_name(e) ==> w.stats == (RepairStats {
                entries_recovered: bump(v.stats.entries_recovered),
                ..v.stats
            })
            &&& !legal_name(e) && edits ==> w.img.subrange(at, at + 11) == g.volume_label@
                && same_except(v.img, w.img, at, at + 11)
            &&& !edits ==> w.img == v.img
        }),
{
    let name = short_name(e);
    law_fields_of_entries(e);
    law_legal_names(name);
    if legal_name(e) {
        assert forall|i: int| 0 <= i < 11 implies #[trigger] name[i] >= 32 || (i == 0 && name[i] == 5) by {
            assert(name[i] == e[i]);
        }
    } else {
        let i = choose|i: int| 0 <= i < 11 && !(#[trigger] e[i] >= 32 || (i == 0 && e[i] == 5));
        assert(name[i] == e[i]);
        assert(name_corrupted(name));
    }
    let w = label_checked(g, v, e, at, mode);
    if name_corrupted(name) && mode.applies(RepairMode::entry_validity()) {
        assert(w.img.subrange(at, at + 11) =~= g.volume_label@);
    }
}

/// Deleting an entry changes its first byte, to 229, and nothing else.
pub proof fn law_entry_deleted(img: Seq<u8>, at: int)
    requires
        0 <= at < img.len(),
    ensures
        entry_deleted(img, at)[at] == 229,
        same_except(img, entry_deleted(img, at), at, at + 1),
{
}

/// The entries of a run, one behind the other along a whole chain, are deleted, each of them and no other, and the run
/// counts once. That happens only if the class of repairs it falls under is carried out.
pub proof fn law_run_removed(
    g: Geometry,
    mode: RepairMode,
    v: Vol,
    path: Seq<u32>,
    start: u32,
    end: u64,
    flag: RepairMode,
)
    requires
        g.wf(v.img.len()),
        whole_chain(g, v.img, path),
        start % 32 == 0,
        end % 32 == 0,
        start < end <= path_size(g, path),
        end <= 0x1_0000_0000,
    ensures
        ({
            let (w, res) = run_removed(g, v, path[0], start, entries_between(start, end), mode, flag);
            &&& res is Ok
            &&& w.stats == (RepairStats { entries_removed: bump(v.stats.entries_removed), ..v.stats })
            &&& !mode.applies(flag) ==> w.img == v.img
            &&& mode.applies(flag) ==> {
                &&& forall|q: int|
                    is_slot(g, path, q) && start <= q < end ==> #[trigger] slot(g, w.img, path, q)[0] == 229
                &&& forall|q: int|
                    is_slot(g, path, q) && !(start <= q < end) ==> #[trigger] slot(g, w.img, path, q)
                        == slot(g, v.img, path, q)
                &&& forall|c: u32|
                    g.valid_cluster(c) && !path.contains(c) ==> #[trigger] cluster_kept(g, v.img, w.img, c)
            }
        }),
{
    if mode.applies(flag) {
        lemma_run_deleted(g, mode, v, path, start, end as int, flag);
        let w = run_removed(g, v, path[0], start, entries_between(start, end), mode, flag).0;
        assert forall|q: int| is_slot(g, path, q) && start <= q < end implies #[trigger] slot(
            g,
            w.img,
            path,
            q,
        )[0] == 229 by {
            law_kinds_of_entries(slot(g, w.img, path, q));
        }
        assert forall|q: int| is_slot(g, path, q) && !(start <= q < end) implies #[trigger] slot(
            g,
            w.img,
            path,
            q,
        ) == slot(g, v.img, path, q) by {
            assert(outside(start as int, end as int, q));
        }
    }
}

/// The most clusters that the chain of an entry may have, and how many bytes a chain holds.
pub proof fn law_chain_limits(g: Geometry, e: Seq<u8>, n: nat)
    requires
        e.len() == 32,
        512 <= g.cluster_size <= 0x8_0000,
    ensures
        ({
            let limit = chain_limit(g, e)->0;
            &&& chain_limit(g, e) is Some
            &&& e[11] / 16 % 2 == 1 ==> limit * g.cluster_size <= 2_097_152 < (limit + 1) * g.cluster_size
            &&& e[11] / 16 % 2 == 0 ==> (limit - 1) * g.cluster_size < le_u32(e, 28) <= limit
                * g.cluster_size
        }),
        n * g.cluster_size <= 0xFFFF_FFFF ==> capacity_of(g, n as int) == n * g.cluster_size,
        n * g.cluster_size > 0xFFFF_FFFF ==> capacity_of(g, n as int) == 0xFFFF_FFFF,
{
    law_kinds_of_entries(e);
    law_fields_of_entries(e);
    law_clusters(g, 2, file_size(e));
}

/// Entries are deleted one behind the other, as far as the directory goes. Where it ends early, that is an error.
pub proof fn law_entries_deleted(img: Seq<u8>, g: Geometry, cur: Cursor, count: nat)
    ensures
        ({
            let at = g.data_start + (cur.cluster - 2) * g.cluster_size + cur.pos % g.cluster_size;
            let one = entry_deleted(img, at);
            let result = entries_deleted(img, g, cur, count);
            &&& count == 0 ==> result == (img, Ok::<(), Fault>(()))
            &&& count == 1 ==> result == (one, Ok::<(), Fault>(()))
            &&& count > 1 ==> match place_after(one, g, cur) {
                Place::At(next) => result == entries_deleted(one, g, next, (count - 1) as nat),
                Place::End => result == (one, Err::<(), Fault>(Fault::UnexpectedEof)),
                Place::Lost(fault) => result == (one, Err::<(), Fault>(fault)),
            }
        }),
{
}

/// Removing a run counts it once, whatever comes of it. Only if it may be touched, the directory is gone through to
/// where the run starts, and its entries, each of 32 bytes, are deleted.
pub proof fn law_run_found(
    g: Geometry,
    v: Vol,
    first: u32,
    start: u32,
    end: u64,
    mode: RepairMode,
    flag: RepairMode,
)
    requires
        start <= end,
    ensures
        ({
            let count = ((end - start) / 32) as nat;
            let (w, res) = run_removed(g, v, first, start, entries_between(start, end), mode, flag);
            &&& entries_between(start, end) == count
            &&& w.stats == (RepairStats { entries_removed: bump(v.stats.entries_removed), ..v.stats })
            &&& !mode.applies(flag) ==> w.img == v.img && res == Ok::<(), Fault>(())
            &&& mode.applies(flag) ==> match place_at(v.img, g, first, start) {
                Place::At(cur) => (w.img, res) == entries_deleted(v.img, g, cur, count),
                Place::End => w.img == v.img && res == Err::<(), Fault>(Fault::UnexpectedEof),
                Place::Lost(fault) => w.img == v.img && res == Err::<(), Fault>(fault),
            }
        }),
{
}

/// Deleting entries writes to the first byte of an entry at most, and there only 229.
pub proof fn law_only_first_bytes(img: Seq<u8>, g: Geometry, cur: Cursor, count: nat, i: int)
    requires
        g.wf(img.len()),
        cur.wf(g),
        0 <= i < img.len(),
    ensures
        ({
            let b = entries_deleted(img, g, cur, count).0;
            &&& b.len() == img.len()
            &&& b[i] == img[i] || (b[i] == 229 && (i - g.data_start) % 32 == 0)
        }),
    decreases count,
{
    if count > 0 {
        let at = cur.offset(g);
        let one = entry_deleted(img, at);
        assert((at - g.data_start) % 32 == 0) by {
            let z = g.cluster_size as int;
            let k = cur.cluster - 2;
            let m = z / 32;
            let p = cur.pos as int;
            assert(z == 32 * m);
            vstd::arithmetic::div_mod::lemma_mod_mod(p, 32, m);
            assert(k * z == (k * m) * 32) by (nonlinear_arith)
                requires
                    z == 32 * m,
            ;
            let r = p % z;
            assert(r % 32 == 0);
            let s = k * m;
            assert((s * 32 + r) % 32 == 0);
        }
        if count > 1 {
            if let Place::At(next) = place_after(one, g, cur) {
                lemma_place_after(one, g, cur);
                law_only_first_bytes(one, g, next, (count - 1) as nat, i);
            }
        }
    }
}

} // verus!
